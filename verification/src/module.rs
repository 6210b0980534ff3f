//! The module kinds and their port signatures.
use vstd::prelude::*;

verus! {

/// Node identifier shared by declarations and wire commands.
pub type NodeId = u32;

/// Port identifier: a 0-based index within one direction.
pub type PortId = u8;

/// The kinds of module node.
#[derive(Clone, Copy, Debug, PartialEq, Eq, Hash, PartialOrd, Ord, Structural)]
pub enum ModuleKind {
    /// Recovers a token set and slices the rows it selects.
    Slice,
    /// Grounded softmax in logit space.
    Renorm,
    /// Exact vocabulary gate.
    Gate,
    /// Context matrix and report.
    Ground,
    /// Expert gate union and logit mixture.
    Experts,
    /// Pointwise-maximum context merge.
    Merge,
}

impl Default for ModuleKind {
    fn default() -> (r: Self)
        ensures
            r == ModuleKind::Slice,
    {
        ModuleKind::Slice
    }
}

/// Every module kind, in declaration order.
pub const MODULE_KINDS: [ModuleKind; 6] = [
    ModuleKind::Slice,
    ModuleKind::Renorm,
    ModuleKind::Gate,
    ModuleKind::Ground,
    ModuleKind::Experts,
    ModuleKind::Merge,
];

/// Input and output port counts of one module kind.
#[derive(Clone, Copy, Debug, PartialEq, Eq, Structural)]
pub struct ModulePorts {
    pub inputs: PortId,
    pub outputs: PortId,
}

/// The port signature table.
pub open spec fn ports_of(kind: ModuleKind) -> (PortId, PortId) {
    match kind {
        ModuleKind::Ground => (1, 2),
        ModuleKind::Experts | ModuleKind::Merge => (2, 1),
        _ => (1, 1),
    }
}

/// The port signature of a module kind.
pub fn module_ports(kind: ModuleKind) -> (r: ModulePorts)
    ensures
        (r.inputs, r.outputs) == ports_of(kind),
{
    match kind {
        ModuleKind::Slice => ModulePorts { inputs: 1, outputs: 1 },
        ModuleKind::Renorm => ModulePorts { inputs: 1, outputs: 1 },
        ModuleKind::Gate => ModulePorts { inputs: 1, outputs: 1 },
        ModuleKind::Ground => ModulePorts { inputs: 1, outputs: 2 },
        ModuleKind::Experts => ModulePorts { inputs: 2, outputs: 1 },
        ModuleKind::Merge => ModulePorts { inputs: 2, outputs: 1 },
    }
}

/// Whether a port is a valid input port of a kind.
pub fn input_port_in_range(kind: ModuleKind, port: PortId) -> (r: bool)
    ensures
        r == (port < ports_of(kind).0),
{
    port < module_ports(kind).inputs
}

/// Whether a port is a valid output port of a kind.
pub fn output_port_in_range(kind: ModuleKind, port: PortId) -> (r: bool)
    ensures
        r == (port < ports_of(kind).1),
{
    port < module_ports(kind).outputs
}

/// Every kind has one input and one output, but for the two that take two
/// inputs, `Experts` and `Merge`, and the one that gives two outputs, `Ground`.
pub proof fn ports_are_single_but_for_three_kinds(kind: ModuleKind)
    ensures
        ports_of(kind).0 == 2 <==> kind == ModuleKind::Experts || kind == ModuleKind::Merge,
        ports_of(kind).1 == 2 <==> kind == ModuleKind::Ground,
        1 <= ports_of(kind).0 <= 2,
        1 <= ports_of(kind).1 <= 2,
{
}

} // verus!
