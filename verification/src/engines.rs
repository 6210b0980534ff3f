//! Materialization engines: from positions of a plane back to tokens.
//!
//! Engines differ in where their table lives; all of them answer the same
//! question. The registry maps table keys to engines.
use vstd::prelude::*;
use vstd::string::*;

use crate::collections::{lemma_listing, listing, lists};
use crate::hashing::{hash64, position, token_to_position};
use crate::hllset::{in_plane, HLLSet};
use crate::maps::{lemma_total_insert, total, OrdMap};
use crate::order::{copy_bytes, copy_tokens, views, Key};
use crate::text::texts;

verus! {

/// Why an engine could not answer.
#[derive(Debug)]
pub enum MaterializeError {
    /// The table is not loaded.
    LutNotLoaded(String),
    /// The query failed.
    Query(String),
    /// Reading or writing failed.
    IO(String),
}

/// A materialization backend.
pub trait MaterializeEngine {
    /// The tokens that the engine finds for a plane and some positions of it.
    spec fn found(&self, plane: Set<u32>, positions: Seq<(u16, u8)>) -> Seq<Seq<u8>>;

    /// The engine's name.
    spec fn label(&self) -> Seq<char>;

    /// The number of entries behind the engine.
    spec fn size(&self) -> nat;

    /// Whether the engine runs on hardware, real or simulated.
    spec fn hardware(&self) -> bool;

    /// The candidate tokens at some positions of a plane.
    fn materialize(&self, hllset: &HLLSet, positions: &[(u16, u8)]) -> (r: Result<
        Vec<Vec<u8>>,
        MaterializeError,
    >)
        ensures
            r matches Ok(v) ==> views(v@) == self.found(hllset@, positions@),
    ;

    /// The engine's name.
    fn name(&self) -> (r: &str)
        ensures
            r@ == self.label(),
    ;

    /// The number of entries behind the engine.
    fn lut_count(&self) -> (r: usize)
        ensures
            r == self.size(),
    ;

    /// Whether the engine runs on hardware.
    fn is_hardware(&self) -> (r: bool)
        ensures
            r == self.hardware(),
    ;
}

/// Tokens by position, in order of insertion.
pub type PositionTable = Map<(u16, u8), Seq<Seq<u8>>>;

/// The tokens at a position, none where there are none.
pub open spec fn tokens_at_position(table: PositionTable, p: (u16, u8)) -> Seq<Seq<u8>> {
    if table.contains_key(p) {
        table[p]
    } else {
        Seq::empty()
    }
}

/// The tokens at several positions, position after position.
pub open spec fn looked_up(table: PositionTable, positions: Seq<(u16, u8)>) -> Seq<Seq<u8>>
    decreases positions.len(),
{
    if positions.len() == 0 {
        Seq::empty()
    } else {
        looked_up(table, positions.drop_last()) + tokens_at_position(table, positions.last())
    }
}

/// The position of a token, in the engine's widths.
pub open spec fn narrow_position(token: Seq<u8>) -> (u16, u8) {
    let p = position(hash64(token, 0));
    (p.0 as u16, p.1 as u8)
}

/// The table after adding one token at its position.
pub open spec fn table_with(table: PositionTable, t: Seq<u8>) -> PositionTable {
    let p = narrow_position(t);
    table.insert(p, tokens_at_position(table, p).push(t))
}

/// The table after adding tokens at their positions.
pub open spec fn table_after(table: PositionTable, tokens: Seq<Seq<u8>>) -> PositionTable
    decreases tokens.len(),
{
    if tokens.len() == 0 {
        table
    } else {
        table_with(table_after(table, tokens.drop_last()), tokens.last())
    }
}

/// The number of entries of a table.
pub open spec fn table_size(table: PositionTable) -> nat {
    total(table, |g: Seq<Seq<u8>>| g.len())
}

/// The reference engine: a table in memory.
pub struct InMemoryEngine {
    body: EngineBody,
}

struct EngineBody {
    name: String,
    lut: OrdMap<(u16, u8), Vec<Vec<u8>>>,
    count: usize,
}

spec fn lut_view(m: Map<(u16, u8), Vec<Vec<u8>>>) -> PositionTable {
    m.map_values(|v: Vec<Vec<u8>>| views(v@))
}

impl View for InMemoryEngine {
    type V = PositionTable;

    closed spec fn view(&self) -> PositionTable {
        lut_view(self.body.lut@)
    }
}

/// The positions of ascending bits, in the engine's widths.
pub open spec fn narrow_positions(bits: Seq<u32>) -> Seq<(u16, u8)> {
    bits.map_values(|b: u32| ((b / 32) as u16, (b % 32) as u8))
}

impl InMemoryEngine {
    #[verifier::type_invariant]
    spec fn inv(self) -> bool {
        &&& lut_view(self.body.lut@).dom().finite()
        &&& table_size(lut_view(self.body.lut@)) == self.body.count
    }

    /// An engine without entries.
    pub fn new(name: &str) -> (r: Self)
        ensures
            r@ == Map::<(u16, u8), Seq<Seq<u8>>>::empty(),
            r.label() == name@,
    {
        let lut: OrdMap<(u16, u8), Vec<Vec<u8>>> = OrdMap::new();
        proof {
            assert(lut_view(lut@) =~= Map::empty());
        }
        InMemoryEngine { body: EngineBody { name: name.to_owned(), lut, count: 0 } }
    }

    /// Adds tokens at their positions.
    pub fn build(&mut self, tokens: &[Vec<u8>])
        requires
            table_size(old(self)@) + tokens@.len() <= usize::MAX,
        ensures
            final(self)@ == table_after(old(self)@, views(tokens@)),
            table_size(final(self)@) == table_size(old(self)@) + tokens@.len(),
            final(self).label() == old(self).label(),
    {
        let ghost all = views(tokens@);
        let mut i: usize = 0;
        proof {
            assert(all.take(0) =~= Seq::empty());
        }
        while i < tokens.len()
            invariant
                i <= tokens@.len(),
                all == views(tokens@),
                table_size(old(self)@) + tokens@.len() <= usize::MAX,
                self@ == table_after(old(self)@, all.take(i as int)),
                table_size(self@) == table_size(old(self)@) + i,
                self.label() == old(self).label(),
            decreases tokens@.len() - i,
        {
            self.add(tokens[i].as_slice());
            proof {
                assert(all.take(i + 1).drop_last() =~= all.take(i as int));
                assert(all.take(i + 1).last() == tokens@[i as int]@);
            }
            i = i + 1;
        }
        proof {
            assert(all.take(i as int) =~= all);
        }
    }

    fn add(&mut self, token: &[u8])
        requires
            table_size(old(self)@) < usize::MAX,
        ensures
            final(self)@ == table_with(old(self)@, token@),
            table_size(final(self)@) == table_size(old(self)@) + 1,
            final(self).label() == old(self).label(),
    {
        proof {
            use_type_invariant(&*self);
        }
        let mut body = EngineBody { name: String::new(), lut: OrdMap::new(), count: 0 };
        proof {
            assert(lut_view(body.lut@) =~= Map::empty());
        }
        core::mem::swap(&mut body, &mut self.body);
        let EngineBody { name, mut lut, count } = body;
        let ghost before = lut_view(lut@);
        let (r, z) = token_to_position(token);
        let p = (r as u16, z as u8);
        let mut group: Vec<Vec<u8>> = match lut.remove(&p) {
            Some(g) => g,
            None => Vec::new(),
        };
        proof {
            assert(views(group@) =~= tokens_at_position(before, p));
        }
        let ghost g0 = views(group@);
        group.push(copy_bytes(token));
        proof {
            assert(views(group@) =~= g0.push(token@));
        }
        lut.insert(p, group);
        proof {
            assert(lut_view(lut@) =~= table_with(before, token@));
            lemma_total_insert(before, |g: Seq<Seq<u8>>| g.len(), p, g0.push(token@));
        }
        self.body = EngineBody { name, lut, count: count + 1 };
    }

    /// The number of entries.
    pub fn token_count(&self) -> (r: usize)
        ensures
            r == table_size(self@),
    {
        proof {
            use_type_invariant(self);
        }
        self.body.count
    }

    /// The positions of a plane, ascending.
    pub fn extract_positions(hllset: &HLLSet) -> (r: Vec<(u16, u8)>)
        ensures
            r@ == narrow_positions(hllset.seq()),
            lists::<u32>(hllset.seq(), hllset@),
            in_plane(hllset@),
    {
        let active = hllset.active_positions();
        let ghost bits = hllset.seq();
        let mut r: Vec<(u16, u8)> = Vec::new();
        let mut i: usize = 0;
        while i < active.len()
            invariant
                i <= active@.len(),
                active@ == bits.map_values(|b: u32| (b / 32, b % 32)),
                lists::<u32>(bits, hllset@),
                in_plane(hllset@),
                r@.len() == i,
                forall|j: int|
                    0 <= j < i ==> #[trigger] r@[j] == ((bits[j] / 32) as u16, (bits[j]
                        % 32) as u8),
            decreases active@.len() - i,
        {
            proof {
                assert(bits.to_set().contains(bits[i as int]));
            }
            let p = active[i];
            r.push((p.0 as u16, p.1 as u8));
            i = i + 1;
        }
        proof {
            assert(r@ =~= narrow_positions(bits));
        }
        r
    }

    /// Looks positions up; an in-memory table always answers.
    pub fn look_up(&self, positions: &[(u16, u8)]) -> (r: Vec<Vec<u8>>)
        ensures
            views(r@) == looked_up(self@, positions@),
    {
        let mut out: Vec<Vec<u8>> = Vec::new();
        let mut i: usize = 0;
        proof {
            assert(positions@.take(0) =~= Seq::empty());
            assert(views(out@) =~= Seq::empty());
        }
        while i < positions.len()
            invariant
                i <= positions@.len(),
                views(out@) == looked_up(self@, positions@.take(i as int)),
            decreases positions@.len() - i,
        {
            proof {
                assert(positions@.take(i + 1).drop_last() =~= positions@.take(i as int));
            }
            let ghost before = out@;
            match self.body.lut.get(&positions[i]) {
                Some(group) => {
                    let mut g = copy_tokens(group.as_slice());
                    let ghost gv = g@;
                    out.append(&mut g);
                    proof {
                        assert(views(out@) =~= views(before) + views(gv));
                    }
                },
                None => {
                    proof {
                        assert(views(out@) =~= views(before) + Seq::empty());
                    }
                },
            }
            i = i + 1;
        }
        proof {
            assert(positions@.take(i as int) =~= positions@);
        }
        out
    }
}

impl MaterializeEngine for InMemoryEngine {
    open spec fn found(&self, plane: Set<u32>, positions: Seq<(u16, u8)>) -> Seq<Seq<u8>> {
        looked_up(self@, positions)
    }

    closed spec fn label(&self) -> Seq<char> {
        self.body.name@
    }

    open spec fn size(&self) -> nat {
        table_size(self@)
    }

    open spec fn hardware(&self) -> bool {
        false
    }

    fn materialize(&self, _hllset: &HLLSet, positions: &[(u16, u8)]) -> (r: Result<
        Vec<Vec<u8>>,
        MaterializeError,
    >)
        ensures
            r is Ok,
    {
        Ok(self.look_up(positions))
    }

    fn name(&self) -> (r: &str) {
        self.body.name.as_str()
    }

    fn lut_count(&self) -> (r: usize) {
        self.token_count()
    }

    fn is_hardware(&self) -> (r: bool) {
        false
    }
}

/// The simulated hardware engine: the answers of the reference engine, with a
/// pipeline delay to model timing.
pub struct FPGASimEngine {
    name: String,
    inner: InMemoryEngine,
    pipeline_cycles: u32,
}

impl View for FPGASimEngine {
    type V = PositionTable;

    closed spec fn view(&self) -> PositionTable {
        self.inner@
    }
}

impl FPGASimEngine {
    /// The pipeline delay.
    pub closed spec fn cycles(&self) -> u32 {
        self.pipeline_cycles
    }

    /// An engine without entries.
    pub fn new(name: &str, pipeline_cycles: u32) -> (r: Self)
        ensures
            r@ == Map::<(u16, u8), Seq<Seq<u8>>>::empty(),
            r.label() == name@,
            r.cycles() == pipeline_cycles,
    {
        FPGASimEngine { name: name.to_owned(), inner: InMemoryEngine::new(name), pipeline_cycles }
    }

    /// Adds tokens at their positions.
    pub fn build(&mut self, tokens: &[Vec<u8>])
        requires
            table_size(old(self)@) + tokens@.len() <= usize::MAX,
        ensures
            final(self)@ == table_after(old(self)@, views(tokens@)),
            final(self).label() == old(self).label(),
            final(self).cycles() == old(self).cycles(),
    {
        self.inner.build(tokens);
    }

    /// The modelled duration of a query: the pipeline delay and one cycle for
    /// each 256 positions, the position count taken modulo two to the 32.
    pub fn simulated_cycles(&self, num_positions: usize) -> (r: u32)
        requires
            self.cycles() + (num_positions as int % 0x1_0000_0000) / 256 <= u32::MAX,
        ensures
            r == self.cycles() + (num_positions as int % 0x1_0000_0000) / 256,
    {
        let n: u64 = num_positions as u64 % 0x1_0000_0000;
        self.pipeline_cycles + (n / 256) as u32
    }
}

impl MaterializeEngine for FPGASimEngine {
    open spec fn found(&self, plane: Set<u32>, positions: Seq<(u16, u8)>) -> Seq<Seq<u8>> {
        looked_up(self@, positions)
    }

    closed spec fn label(&self) -> Seq<char> {
        self.name@
    }

    open spec fn size(&self) -> nat {
        table_size(self@)
    }

    open spec fn hardware(&self) -> bool {
        true
    }

    fn materialize(&self, _hllset: &HLLSet, positions: &[(u16, u8)]) -> (r: Result<
        Vec<Vec<u8>>,
        MaterializeError,
    >)
        ensures
            r is Ok,
    {
        Ok(self.inner.look_up(positions))
    }

    fn name(&self) -> (r: &str) {
        self.name.as_str()
    }

    fn lut_count(&self) -> (r: usize) {
        self.inner.token_count()
    }

    fn is_hardware(&self) -> (r: bool) {
        true
    }
}

/// The simulated engine answers exactly as the reference engine over the same
/// table.
pub proof fn simulation_matches_reference(
    reference: InMemoryEngine,
    simulated: FPGASimEngine,
    plane: Set<u32>,
    positions: Seq<(u16, u8)>,
)
    requires
        reference@ == simulated@,
    ensures
        reference.found(plane, positions) == simulated.found(plane, positions),
{
}

/// Engines by table key.
pub type Engines = Map<Seq<char>, Box<dyn MaterializeEngine>>;

/// The place of the first hardware engine among some keys.
pub open spec fn first_hardware(m: Engines, keys: Seq<Seq<char>>) -> Option<int>
    decreases keys.len(),
{
    if keys.len() == 0 {
        None
    } else {
        match first_hardware(m, keys.drop_last()) {
            Some(i) => Some(i),
            None => if m[keys.last()].hardware() {
                Some(keys.len() - 1)
            } else {
                None
            },
        }
    }
}

/// The keys of the engines that run on hardware, in order.
pub open spec fn hardware_keys(m: Engines, keys: Seq<Seq<char>>) -> Seq<Seq<char>>
    decreases keys.len(),
{
    if keys.len() == 0 {
        Seq::empty()
    } else {
        let before = hardware_keys(m, keys.drop_last());
        if m[keys.last()].hardware() {
            before.push(keys.last())
        } else {
            before
        }
    }
}

/// The key of the engine chosen for a key: the key itself where an engine is
/// registered under it; else that of the first hardware engine; else that of
/// the first engine.
pub open spec fn chosen(m: Engines, key: Seq<char>) -> Option<Seq<char>> {
    let keys = listing::<String>(m.dom());
    if m.contains_key(key) {
        Some(key)
    } else if keys.len() == 0 {
        None
    } else {
        match first_hardware(m, keys) {
            Some(i) => Some(keys[i]),
            None => Some(keys[0]),
        }
    }
}

/// Engines by table key, walked in ascending key order.
pub struct MaterializeRegistry {
    engines: OrdMap<String, Box<dyn MaterializeEngine>>,
}

impl View for MaterializeRegistry {
    type V = Engines;

    closed spec fn view(&self) -> Engines {
        self.engines@
    }
}

impl MaterializeRegistry {
    /// The registry without engines.
    pub fn new() -> (r: Self)
        ensures
            r@ == Map::<Seq<char>, Box<dyn MaterializeEngine>>::empty(),
    {
        MaterializeRegistry { engines: OrdMap::new() }
    }

    /// Registers an engine under a key, in place of an earlier one.
    pub fn register(&mut self, lut_key: &str, engine: Box<dyn MaterializeEngine>)
        ensures
            final(self)@ == old(self)@.insert(lut_key@, engine),
    {
        self.engines.insert(lut_key.to_owned(), engine);
    }

    /// The engine registered under a key.
    pub fn get(&self, lut_key: &str) -> (r: Option<&Box<dyn MaterializeEngine>>)
        ensures
            r is Some <==> self@.contains_key(lut_key@),
            r matches Some(e) ==> *e == self@[lut_key@],
    {
        self.engines.get(&lut_key.to_owned())
    }

    /// The best engine for a key: the one registered under it; else a
    /// hardware engine; else any engine.
    pub fn best_for(&self, lut_key: &str) -> (r: Option<&Box<dyn MaterializeEngine>>)
        ensures
            r is Some <==> chosen(self@, lut_key@) is Some,
            r matches Some(e) ==> *e == self@[chosen(self@, lut_key@)->0],
    {
        let n: usize = self.engines.len();
        let ghost keys = self.engines.keys();
        proof {
            lemma_listing::<String>(keys, self@.dom());
        }
        if let Some(e) = self.get(lut_key) {
            return Some(e);
        }
        if n == 0 {
            return None;
        }
        let mut i: usize = 0;
        proof {
            assert(keys.take(0) =~= Seq::empty());
        }
        while i < n
            invariant
                i <= n,
                n == keys.len(),
                keys == self.engines.keys(),
                keys == listing::<String>(self@.dom()),
                self.engines.listed(),
                !self@.contains_key(lut_key@),
                first_hardware(self@, keys.take(i as int)) is None,
            decreases n - i,
        {
            let e = self.engines.val_at(i);
            proof {
                assert(keys.take(i + 1).drop_last() =~= keys.take(i as int));
                assert(keys.take(i + 1).last() == keys[i as int]);
            }
            if e.is_hardware() {
                proof {
                    lemma_first_hardware_stays(self@, keys, i + 1);
                }
                return Some(e);
            }
            i = i + 1;
        }
        proof {
            assert(keys.take(n as int) =~= keys);
        }
        Some(self.engines.val_at(0))
    }

    /// The registered keys, ascending.
    pub fn list(&self) -> (r: Vec<String>)
        ensures
            texts(r@) == listing::<String>(self@.dom()),
    {
        let n: usize = self.engines.len();
        let mut r: Vec<String> = Vec::new();
        let mut i: usize = 0;
        while i < n
            invariant
                i <= n,
                n == self.engines.keys().len(),
                r@.len() == i,
                forall|j: int| 0 <= j < i ==> (#[trigger] r@[j])@ == self.engines.keys()[j],
            decreases n - i,
        {
            r.push(self.engines.key_at(i).clone());
            i = i + 1;
        }
        proof {
            assert(texts(r@) =~= self.engines.keys());
            lemma_listing::<String>(self.engines.keys(), self@.dom());
        }
        r
    }

    /// The engines that run on hardware, in ascending key order.
    pub fn hardware_engines(&self) -> (r: Vec<&Box<dyn MaterializeEngine>>)
        ensures
            r@.len() == hardware_keys(self@, listing::<String>(self@.dom())).len(),
            forall|i: int|
                0 <= i < r@.len() ==> *#[trigger] r@[i] == self@[hardware_keys(
                    self@,
                    listing::<String>(self@.dom()),
                )[i]],
    {
        let n: usize = self.engines.len();
        let ghost keys = self.engines.keys();
        let mut r: Vec<&Box<dyn MaterializeEngine>> = Vec::new();
        let mut i: usize = 0;
        proof {
            lemma_listing::<String>(keys, self@.dom());
            assert(keys.take(0) =~= Seq::empty());
        }
        while i < n
            invariant
                i <= n,
                n == keys.len(),
                keys == self.engines.keys(),
                self.engines.listed(),
                r@.len() == hardware_keys(self@, keys.take(i as int)).len(),
                forall|j: int|
                    0 <= j < r@.len() ==> *#[trigger] r@[j] == self@[hardware_keys(
                        self@,
                        keys.take(i as int),
                    )[j]],
            decreases n - i,
        {
            let e = self.engines.val_at(i);
            proof {
                assert(keys.take(i + 1).drop_last() =~= keys.take(i as int));
                assert(keys.take(i + 1).last() == keys[i as int]);
            }
            if e.is_hardware() {
                r.push(e);
            }
            i = i + 1;
        }
        proof {
            assert(keys.take(n as int) =~= keys);
        }
        r
    }
}

proof fn lemma_first_hardware_stays(m: Engines, keys: Seq<Seq<char>>, n: int)
    requires
        0 <= n <= keys.len(),
        first_hardware(m, keys.take(n)) is Some,
    ensures
        first_hardware(m, keys) == first_hardware(m, keys.take(n)),
    decreases keys.len() - n,
{
    if n == keys.len() {
        assert(keys.take(n) =~= keys);
    } else {
        assert(keys.take(n + 1).drop_last() =~= keys.take(n));
        lemma_first_hardware_stays(m, keys, n + 1);
    }
}

/// Adding tokens appends each at its own position, in order, and leaves every
/// other position as it was.
pub proof fn tokens_are_added_at_their_positions(
    table: PositionTable,
    tokens: Seq<Seq<u8>>,
    p: (u16, u8),
)
    ensures
        tokens_at_position(table_after(table, tokens), p) == tokens_at_position(table, p)
            + tokens.filter(|t: Seq<u8>| position(hash64(t, 0)) == (p.0 as u32, p.1 as u32)),
    decreases tokens.len(),
{
    reveal(Seq::filter);
    let f = |t: Seq<u8>| position(hash64(t, 0)) == (p.0 as u32, p.1 as u32);
    if tokens.len() == 0 {
        assert(tokens_at_position(table, p) + tokens.filter(f) =~= tokens_at_position(table, p));
    } else {
        let front = tokens.drop_last();
        let last = tokens.last();
        tokens_are_added_at_their_positions(table, front, p);
        crate::hashing::lemma_bit_of(last, 0);
        let q = position(hash64(last, 0));
        assert(q.0 < 1024 && q.1 < 32);
        assert(f(last) == (narrow_position(last) == p));
        assert(tokens_at_position(table_after(table, tokens), p) =~= tokens_at_position(table, p)
            + tokens.filter(f));
    }
}

/// Looking positions up answers position by position, in order.
pub proof fn positions_are_answered_in_order(
    table: PositionTable,
    a: Seq<(u16, u8)>,
    b: Seq<(u16, u8)>,
    p: (u16, u8),
)
    ensures
        looked_up(table, a + b) == looked_up(table, a) + looked_up(table, b),
        looked_up(table, seq![p]) == tokens_at_position(table, p),
    decreases b.len(),
{
    let none = Seq::<(u16, u8)>::empty();
    assert(seq![p].drop_last() =~= none);
    assert(looked_up(table, none) =~= Seq::empty());
    assert(Seq::<Seq<u8>>::empty() + tokens_at_position(table, p) =~= tokens_at_position(table, p));
    if b.len() == 0 {
        assert(a + b =~= a);
        assert(looked_up(table, a) + looked_up(table, b) =~= looked_up(table, a));
    } else {
        assert((a + b).drop_last() =~= a + b.drop_last());
        positions_are_answered_in_order(table, a, b.drop_last(), p);
        assert(looked_up(table, a + b) =~= looked_up(table, a) + looked_up(table, b));
    }
}

proof fn lemma_first_hardware(m: Engines, keys: Seq<Seq<char>>)
    ensures
        match first_hardware(m, keys) {
            Some(i) => 0 <= i < keys.len() && m[keys[i]].hardware() && forall|j: int|
                0 <= j < i ==> !m[#[trigger] keys[j]].hardware(),
            None => forall|j: int| 0 <= j < keys.len() ==> !m[#[trigger] keys[j]].hardware(),
        },
    decreases keys.len(),
{
    if keys.len() > 0 {
        let front = keys.drop_last();
        lemma_first_hardware(m, front);
        assert forall|j: int| 0 <= j < front.len() implies front[j] == #[trigger] keys[j] by {}
    }
}

/// The engine chosen for a key: the one registered under it; where there is
/// none, the hardware engine with the smallest key; where no engine runs on
/// hardware, the engine with the smallest key.
pub proof fn the_best_engine_is_chosen(m: Engines, key: Seq<char>)
    requires
        m.dom().finite(),
    ensures
        chosen(m, key) is None <==> m.dom().len() == 0,
        chosen(m, key) matches Some(k) ==> {
            &&& m.contains_key(k)
            &&& m.contains_key(key) ==> k == key
            &&& !m.contains_key(key) && !m[k].hardware() ==> forall|o: Seq<char>| #[trigger]
                m.contains_key(o) ==> !m[o].hardware() && (o == k || <String as Key>::lt(k, o))
            &&& !m.contains_key(key) && m[k].hardware() ==> forall|o: Seq<char>| #[trigger]
                m.contains_key(o) && m[o].hardware() ==> o == k || <String as Key>::lt(k, o)
        },
{
    let keys = listing::<String>(m.dom());
    crate::collections::lemma_listing_exists::<String>(m.dom());
    crate::collections::lemma_ascending_distinct::<String>(keys);
    keys.unique_seq_to_set();
    lemma_first_hardware(m, keys);
    assert forall|o: Seq<char>| #[trigger] m.contains_key(o) implies keys.contains(o) by {
        assert(keys.to_set().contains(o));
    }
    assert forall|i: int| 0 <= i < keys.len() implies m.contains_key(#[trigger] keys[i]) by {
        assert(keys.to_set().contains(keys[i]));
    }
    if let Some(k) = chosen(m, key) {
        assert(keys.contains(k));
        let i = choose|i: int| 0 <= i < keys.len() && keys[i] == k;
        assert forall|o: Seq<char>| #[trigger]
            m.contains_key(o) && !m.contains_key(key) && m[o].hardware() implies m[k].hardware()
            && (o == k || <String as Key>::lt(k, o)) by {
            let j = choose|j: int| 0 <= j < keys.len() && keys[j] == o;
            let h = first_hardware(m, keys)->0;
            assert(keys[h] == k);
            assert(h <= j);
        }
        assert forall|o: Seq<char>| #[trigger]
            m.contains_key(o) && !m.contains_key(key) && !m[k].hardware() implies o == k
            || <String as Key>::lt(k, o) by {
            let j = choose|j: int| 0 <= j < keys.len() && keys[j] == o;
            assert(keys[0] == k);
        }
    }
}

/// The hardware engines are all that run on hardware, in the order of the keys.
pub proof fn hardware_engines_are_all_listed(m: Engines, keys: Seq<Seq<char>>)
    ensures
        hardware_keys(m, keys) == keys.filter(|k: Seq<char>| m[k].hardware()),
    decreases keys.len(),
{
    reveal(Seq::filter);
    if keys.len() > 0 {
        hardware_engines_are_all_listed(m, keys.drop_last());
    }
}

} // verus!
