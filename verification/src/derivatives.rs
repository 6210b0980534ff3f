//! Rank motion between two planes: steering, flux and its derivatives.
use vstd::prelude::*;

use crate::collections::{lemma_listing, listing};
use crate::hllset::HLLSet;
use crate::lattice::LatticeElement;
use crate::maps::{count_in, OrdMap};
use crate::ranks::{sum_of, Rank};

verus! {

/// A rank for every bit.
pub trait BitRanks {
    /// The rank of the bit at a register and height.
    spec fn rank(&self, reg: u32, tz: u32) -> u64;

    /// The rank of the bit at a register and height.
    fn rank_of_bit(&self, reg: u32, tz: u32) -> (r: Rank)
        ensures
            r == self.rank(reg, tz),
    ;
}

/// Every bit ranks one.
#[derive(Clone, Copy, Debug, Default)]
pub struct UnitRanks;

impl BitRanks for UnitRanks {
    open spec fn rank(&self, reg: u32, tz: u32) -> u64 {
        1
    }

    fn rank_of_bit(&self, reg: u32, tz: u32) -> (r: Rank) {
        1
    }
}

/// Ranks by register and height; zero where none is set.
pub struct RankTable {
    pub ranks: OrdMap<(u32, u32), u64>,
}

impl BitRanks for RankTable {
    open spec fn rank(&self, reg: u32, tz: u32) -> u64 {
        count_in(self.ranks@, (reg, tz))
    }

    fn rank_of_bit(&self, reg: u32, tz: u32) -> (r: Rank) {
        self.ranks.count(&(reg, tz))
    }
}

/// The ranks of some bits.
pub open spec fn bit_ranks<R: BitRanks>(ranks: R, bits: Seq<u32>) -> Seq<nat> {
    bits.map_values(|b: u32| ranks.rank(b / 32, b % 32) as nat)
}

/// The sum of the ranks of the set bits of a plane.
pub open spec fn weight<R: BitRanks>(ranks: R, plane: Set<u32>) -> nat {
    sum_of(bit_ranks(ranks, listing::<u32>(plane)))
}

/// The distance between two numbers.
pub open spec fn distance(a: nat, b: nat) -> nat {
    if a > b {
        (a - b) as nat
    } else {
        (b - a) as nat
    }
}

proof fn lemma_weight_prefix(values: Seq<nat>, i: int)
    requires
        0 <= i <= values.len(),
    ensures
        sum_of(values.take(i)) <= sum_of(values),
    decreases values.len(),
{
    if i < values.len() {
        lemma_weight_prefix(values.drop_last(), i);
        assert(values.drop_last().take(i) =~= values.take(i));
    } else {
        assert(values.take(i) =~= values);
    }
}

fn weigh<R: BitRanks>(ranks: &R, plane: &HLLSet) -> (r: u64)
    requires
        weight(*ranks, plane@) <= u64::MAX,
    ensures
        r == weight(*ranks, plane@),
{
    let bits = plane.bitmap();
    proof {
        lemma_listing::<u32>(bits@, plane@);
    }
    let ghost all = bit_ranks(*ranks, bits@);
    let mut acc: u64 = 0;
    let mut i: usize = 0;
    proof {
        assert(all.take(0) =~= Seq::empty());
    }
    while i < bits.len()
        invariant
            i <= bits@.len(),
            all == bit_ranks(*ranks, bits@),
            sum_of(all) <= u64::MAX,
            acc == sum_of(all.take(i as int)),
        decreases bits@.len() - i,
    {
        let v: u64 = ranks.rank_of_bit(bits[i] / 32, bits[i] % 32);
        proof {
            assert(all.take(i + 1).drop_last() =~= all.take(i as int));
            assert(all.take(i + 1).last() == v);
            lemma_weight_prefix(all, i + 1);
        }
        acc = acc + v;
        i = i + 1;
    }
    proof {
        assert(all.take(i as int) =~= all);
    }
    acc
}

fn apart(a: u64, b: u64) -> (r: u64)
    ensures
        r == distance(a as nat, b as nat),
{
    if a > b {
        a - b
    } else {
        b - a
    }
}

/// How far two planes are from equilibrium, in bits and in ranks.
#[derive(Debug, Clone, Copy, PartialEq, Eq, Structural)]
pub struct NoetherSteering {
    /// The distance between the numbers of new and departed bits.
    pub bit_divergence: u64,
    /// The distance between the ranks of new and departed bits.
    pub rank_divergence: u64,
    /// The bits are within their threshold.
    pub structural_equilibrium: bool,
    /// The ranks are within their threshold.
    pub rank_equilibrium: bool,
}

impl NoetherSteering {
    /// Steering from one plane to the next.
    pub fn compute<R: BitRanks>(
        prev: &LatticeElement,
        curr: &LatticeElement,
        ranks: &R,
        bit_threshold: u64,
        rank_threshold: u64,
    ) -> (r: Self)
        requires
            weight(*ranks, curr@.difference(prev@)) <= u64::MAX,
            weight(*ranks, prev@.difference(curr@)) <= u64::MAX,
        ensures
            r.bit_divergence == distance(
                curr@.difference(prev@).len(),
                prev@.difference(curr@).len(),
            ),
            r.rank_divergence == distance(
                weight(*ranks, curr@.difference(prev@)),
                weight(*ranks, prev@.difference(curr@)),
            ),
            r.structural_equilibrium == (r.bit_divergence <= bit_threshold),
            r.rank_equilibrium == (r.rank_divergence <= rank_threshold),
    {
        let novel = curr.hllset().difference(prev.hllset());
        let departed = prev.hllset().difference(curr.hllset());
        let bit_divergence: u64 = apart(novel.popcount(), departed.popcount());
        let rank_divergence: u64 = apart(weigh(ranks, &novel), weigh(ranks, &departed));
        NoetherSteering {
            bit_divergence,
            rank_divergence,
            structural_equilibrium: bit_divergence <= bit_threshold,
            rank_equilibrium: rank_divergence <= rank_threshold,
        }
    }

    /// Steering with every bit ranking one.
    pub fn compute_popcount(prev: &LatticeElement, curr: &LatticeElement, threshold: u64) -> (r:
        Self)
        ensures
            r.bit_divergence == distance(
                curr@.difference(prev@).len(),
                prev@.difference(curr@).len(),
            ),
            r.rank_divergence == r.bit_divergence,
            r.structural_equilibrium == (r.bit_divergence <= threshold),
            r.rank_equilibrium == (r.bit_divergence <= threshold),
    {
        let novel = curr.hllset().difference(prev.hllset());
        let departed = prev.hllset().difference(curr.hllset());
        let n: u64 = novel.popcount();
        let d: u64 = departed.popcount();
        proof {
            lemma_unit_weight(novel@);
            lemma_unit_weight(departed@);
        }
        NoetherSteering::compute(prev, curr, &UnitRanks, threshold, threshold)
    }
}

proof fn lemma_ones(n: nat, values: Seq<nat>)
    requires
        values.len() == n,
        forall|i: int| 0 <= i < n ==> #[trigger] values[i] == 1,
    ensures
        sum_of(values) == n,
    decreases n,
{
    if n > 0 {
        let front = values.drop_last();
        assert forall|i: int| 0 <= i < n - 1 implies #[trigger] front[i] == 1 by {
            assert(front[i] == values[i]);
        }
        lemma_ones((n - 1) as nat, front);
        assert(values[n - 1] == 1);
    }
}

/// With every bit ranking one, a plane weighs as many as it has bits. Planes
/// that cannot be listed have no weight to speak of.
proof fn lemma_unit_weight(plane: Set<u32>)
    requires
        plane.finite(),
    ensures
        weight(UnitRanks, plane) == plane.len(),
{
    crate::collections::lemma_listing_exists::<u32>(plane);
    let s = listing::<u32>(plane);
    crate::collections::lemma_ascending_distinct::<u32>(s);
    s.unique_seq_to_set();
    lemma_ones(s.len(), bit_ranks(UnitRanks, s));
}

/// The bit divergence is the change in size between the two planes.
pub proof fn divergence_is_the_change_in_size(prev: Set<u32>, curr: Set<u32>)
    requires
        prev.finite(),
        curr.finite(),
    ensures
        distance(curr.difference(prev).len(), prev.difference(curr).len()) == distance(
            curr.len(),
            prev.len(),
        ),
{
    let both = prev.intersect(curr);
    let n = curr.difference(prev);
    let d = prev.difference(curr);
    assert(n.union(both) =~= curr);
    assert(d.union(both) =~= prev);
    assert(n.disjoint(both));
    assert(d.disjoint(both));
    vstd::set_lib::lemma_set_disjoint_lens(n, both);
    vstd::set_lib::lemma_set_disjoint_lens(d, both);
}

/// A plane does not diverge from itself, and divergence is the same in both
/// directions.
pub proof fn steering_is_symmetric<R: BitRanks>(ranks: R, a: Set<u32>, b: Set<u32>)
    ensures
        distance(a.difference(a).len(), a.difference(a).len()) == 0,
        distance(weight(ranks, a.difference(a)), weight(ranks, a.difference(a))) == 0,
        distance(a.difference(b).len(), b.difference(a).len()) == distance(
            b.difference(a).len(),
            a.difference(b).len(),
        ),
        distance(weight(ranks, a.difference(b)), weight(ranks, b.difference(a))) == distance(
            weight(ranks, b.difference(a)),
            weight(ranks, a.difference(b)),
        ),
{
}

/// Rank change from one plane to the next.
#[derive(Debug, Clone, Copy, PartialEq, Eq, Structural)]
pub struct RankFlux {
    /// The rank change of retained bits: none, ranks being the same for both
    /// planes.
    pub rank_drift: Rank,
    /// The ranks of new bits.
    pub rank_influx: Rank,
    /// The ranks of departed bits.
    pub rank_outflux: Rank,
    /// Influx less outflux.
    pub net_flux: i64,
}

impl RankFlux {
    /// The flux from one plane to the next.
    pub fn compute<R: BitRanks>(prev: &LatticeElement, curr: &LatticeElement, ranks: &R) -> (r:
        Self)
        requires
            weight(*ranks, curr@.difference(prev@)) <= i64::MAX,
            weight(*ranks, prev@.difference(curr@)) <= i64::MAX,
        ensures
            r.rank_drift == 0,
            r.rank_influx == weight(*ranks, curr@.difference(prev@)),
            r.rank_outflux == weight(*ranks, prev@.difference(curr@)),
            r.net_flux == r.rank_influx - r.rank_outflux,
    {
        let novel = curr.hllset().difference(prev.hllset());
        let departed = prev.hllset().difference(curr.hllset());
        let rank_influx: u64 = weigh(ranks, &novel);
        let rank_outflux: u64 = weigh(ranks, &departed);
        RankFlux {
            rank_drift: 0,
            rank_influx,
            rank_outflux,
            net_flux: rank_influx as i64 - rank_outflux as i64,
        }
    }
}

/// First and second differences of the flux.
#[derive(Debug, Clone, Copy, PartialEq, Eq, Structural)]
pub struct RankDerivatives {
    /// The first difference.
    pub velocity: i64,
    /// The second difference, from the third step on.
    pub acceleration: Option<i64>,
    /// The step.
    pub t: usize,
}

/// The first difference at a step; none at the first.
pub open spec fn velocity_at(flux: Seq<i64>, i: int) -> int {
    if i > 0 {
        flux[i] - flux[i - 1]
    } else {
        0
    }
}

/// The second difference at a step.
pub open spec fn acceleration_at(flux: Seq<i64>, i: int) -> int {
    velocity_at(flux, i) - velocity_at(flux, i - 1)
}

/// A number of 64 bits.
pub open spec fn in_range(x: int) -> bool {
    i64::MIN <= x <= i64::MAX
}

impl RankDerivatives {
    /// The differences of a flux history.
    pub fn from_flux_history(flux_history: &[i64]) -> (r: Vec<Self>)
        requires
            forall|i: int|
                0 <= i < flux_history@.len() ==> in_range(#[trigger] velocity_at(flux_history@, i)),
            forall|i: int|
                2 <= i < flux_history@.len() ==> in_range(
                    #[trigger] acceleration_at(flux_history@, i),
                ),
        ensures
            r@.len() == flux_history@.len(),
            forall|i: int|
                0 <= i < r@.len() ==> (#[trigger] r@[i]).t == i && r@[i].velocity == velocity_at(
                    flux_history@,
                    i,
                ) && (i > 1 <==> r@[i].acceleration is Some) && (i > 1 ==> r@[i].acceleration->0
                    == acceleration_at(flux_history@, i)),
    {
        let ghost flux = flux_history@;
        let mut out: Vec<RankDerivatives> = Vec::new();
        let mut i: usize = 0;
        while i < flux_history.len()
            invariant
                i <= flux_history@.len(),
                flux == flux_history@,
                forall|k: int|
                    0 <= k < flux.len() ==> in_range(#[trigger] velocity_at(flux, k)),
                forall|k: int|
                    2 <= k < flux.len() ==> in_range(#[trigger] acceleration_at(flux, k)),
                out@.len() == i,
                forall|k: int|
                    0 <= k < i ==> (#[trigger] out@[k]).t == k && out@[k].velocity == velocity_at(
                        flux,
                        k,
                    ) && (k > 1 <==> out@[k].acceleration is Some) && (k > 1
                        ==> out@[k].acceleration->0 == acceleration_at(flux, k)),
            decreases flux_history@.len() - i,
        {
            proof {
                assert(in_range(velocity_at(flux, i as int)));
                if i > 1 {
                    assert(in_range(velocity_at(flux, i - 1)));
                    assert(in_range(acceleration_at(flux, i as int)));
                }
            }
            let f: i64 = flux_history[i];
            let before: i64 = if i > 0 {
                flux_history[i - 1]
            } else {
                f
            };
            let velocity: i64 = f - before;
            let acceleration: Option<i64> = if i > 1 {
                let last: i64 = before - flux_history[i - 2];
                Some(velocity - last)
            } else {
                None
            };
            out.push(RankDerivatives { velocity, acceleration, t: i });
            i = i + 1;
        }
        out
    }
}

/// The first differences up to a step.
pub open spec fn travelled(flux: Seq<i64>, n: nat) -> int
    decreases n,
{
    if n == 0 {
        0
    } else {
        travelled(flux, (n - 1) as nat) + velocity_at(flux, n - 1)
    }
}

/// The velocities up to a step add up to the change since the first.
pub proof fn velocities_telescope(flux: Seq<i64>, n: nat)
    requires
        0 < n <= flux.len(),
    ensures
        travelled(flux, n) == flux[n - 1] - flux[0],
    decreases n,
{
    if n == 1 {
        assert(travelled(flux, 0) == 0);
    } else {
        velocities_telescope(flux, (n - 1) as nat);
    }
}

/// An acceleration is the second difference of the flux.
pub proof fn accelerations_are_second_differences(flux: Seq<i64>, i: int)
    requires
        2 <= i < flux.len(),
    ensures
        acceleration_at(flux, i) == flux[i] - 2 * flux[i - 1] + flux[i - 2],
{
}

/// The weight of a plane is the sum of the ranks of its bits: one more bit
/// adds its own rank, and no bits weigh nothing.
pub proof fn weights_add_up<R: BitRanks>(ranks: R, plane: Set<u32>, bit: u32)
    requires
        plane.finite(),
        forall|b: u32| #[trigger] plane.contains(b) ==> b < bit,
    ensures
        weight(ranks, Set::empty()) == 0,
        weight(ranks, plane.insert(bit)) == weight(ranks, plane) + ranks.rank(bit / 32, bit % 32),
{
    let none = Set::<u32>::empty();
    crate::collections::lemma_listing_exists::<u32>(none);
    assert(listing::<u32>(none).len() == 0) by {
        if listing::<u32>(none).len() > 0 {
            assert(listing::<u32>(none).to_set().contains(listing::<u32>(none)[0]));
        }
    }
    crate::collections::lemma_listing_push::<u32>(plane, bit);
    let all = listing::<u32>(plane);
    let more = all.push(bit);
    assert(bit_ranks(ranks, more).drop_last() =~= bit_ranks(ranks, all));
}

} // verus!
