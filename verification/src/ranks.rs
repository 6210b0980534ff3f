//! Derived ranks: counts are stored, every rank is computed from them.
//!
//! Each level folds the level below: a token's rank is its count, a bit's
//! rank folds its fiber, a register's rank its bits, a plane's rank its set
//! bits, a compound rank several planes.
use vstd::prelude::*;

use crate::collections::{lemma_listing, listing, vals};
use crate::hashing::BITS_PER_REG;
use crate::hllset::{planes, HLLSet};
use crate::lattice::LatticeElement;
use crate::lut::{fiber_at, LutIndex};
use crate::maps::{count_in, OrdMap};
use crate::order::views;
use crate::tf::TfTable;

verus! {

/// A rank of any level.
pub type Rank = u64;

/// The fold that takes one level to the next.
#[derive(Clone, Copy, Debug, PartialEq, Eq, Structural)]
pub enum Aggregator {
    Sum,
    Max,
    Min,
}

/// The sum of some ranks.
pub open spec fn sum_of(values: Seq<nat>) -> nat
    decreases values.len(),
{
    if values.len() == 0 {
        0
    } else {
        sum_of(values.drop_last()) + values.last()
    }
}

/// The largest of some ranks; zero where there are none.
pub open spec fn max_of(values: Seq<nat>) -> nat
    decreases values.len(),
{
    if values.len() == 0 {
        0
    } else {
        let m = max_of(values.drop_last());
        if values.last() > m {
            values.last()
        } else {
            m
        }
    }
}

/// The smallest of some ranks; zero where there are none.
pub open spec fn min_of(values: Seq<nat>) -> nat
    decreases values.len(),
{
    if values.len() == 0 {
        0
    } else if values.len() == 1 {
        values[0]
    } else {
        let m = min_of(values.drop_last());
        if values.last() < m {
            values.last()
        } else {
            m
        }
    }
}

/// The fold of some ranks.
pub open spec fn folded(agg: Aggregator, values: Seq<nat>) -> nat {
    match agg {
        Aggregator::Sum => sum_of(values),
        Aggregator::Max => max_of(values),
        Aggregator::Min => min_of(values),
    }
}

/// Ranks as natural numbers.
pub open spec fn naturals(values: Seq<u64>) -> Seq<nat> {
    values.map_values(|v: u64| v as nat)
}

proof fn lemma_sum_prefix(values: Seq<nat>, i: int)
    requires
        0 <= i <= values.len(),
    ensures
        sum_of(values.take(i)) <= sum_of(values),
    decreases values.len(),
{
    if i < values.len() {
        lemma_sum_prefix(values.drop_last(), i);
        assert(values.drop_last().take(i) =~= values.take(i));
    } else {
        assert(values.take(i) =~= values);
    }
}

/// A sum is at least each of its terms.
proof fn lemma_sum_terms(values: Seq<nat>, i: int)
    requires
        0 <= i < values.len(),
    ensures
        values[i] <= sum_of(values),
{
    lemma_sum_prefix(values, i + 1);
    assert(values.take(i + 1).last() == values[i]);
}

/// Where every term fits a bound, so do the largest and the smallest.
proof fn lemma_extremes_fit(values: Seq<nat>, bound: nat)
    requires
        forall|i: int| 0 <= i < values.len() ==> #[trigger] values[i] <= bound,
    ensures
        max_of(values) <= bound,
        min_of(values) <= bound,
    decreases values.len(),
{
    if values.len() > 0 {
        let front = values.drop_last();
        assert forall|i: int| 0 <= i < front.len() implies #[trigger] front[i] <= bound by {
            assert(front[i] == values[i]);
        }
        lemma_extremes_fit(front, bound);
        assert(values[values.len() - 1] <= bound);
        assert(values[0] <= bound);
    }
}

/// Where a fold of folds fits, so does each of the folds.
proof fn lemma_parts_fit(agg: Aggregator, values: Seq<nat>, i: int)
    requires
        0 <= i < values.len(),
        agg == Aggregator::Sum ==> sum_of(values) <= u64::MAX,
        agg != Aggregator::Sum ==> forall|j: int|
            0 <= j < values.len() ==> #[trigger] values[j] <= u64::MAX,
    ensures
        values[i] <= u64::MAX,
{
    if agg == Aggregator::Sum {
        lemma_sum_terms(values, i);
    }
}

impl Aggregator {
    /// Folds some ranks.
    pub fn fold(self, values: &[Rank]) -> (r: Rank)
        requires
            folded(self, naturals(values@)) <= u64::MAX,
        ensures
            r == folded(self, naturals(values@)),
    {
        let ghost all = naturals(values@);
        let mut acc: u64 = 0;
        let mut i: usize = 0;
        proof {
            assert(all.take(0) =~= Seq::empty());
        }
        while i < values.len()
            invariant
                i <= values@.len(),
                all == naturals(values@),
                folded(self, all) <= u64::MAX,
                acc == folded(self, all.take(i as int)),
            decreases values@.len() - i,
        {
            let v: u64 = values[i];
            proof {
                assert(all.take(i + 1).drop_last() =~= all.take(i as int));
                assert(all.take(i + 1).last() == v);
                if self == Aggregator::Sum {
                    lemma_sum_prefix(all, i + 1);
                }
                if i == 0 {
                    assert(all.take(1)[0] == v);
                }
            }
            match self {
                Aggregator::Sum => {
                    acc = acc + v;
                },
                Aggregator::Max => {
                    if v > acc {
                        acc = v;
                    }
                },
                Aggregator::Min => {
                    if i == 0 || v < acc {
                        acc = v;
                    }
                },
            }
            i = i + 1;
        }
        proof {
            assert(all.take(i as int) =~= all);
        }
        acc
    }
}

/// Token counts.
pub type Counts = Map<Seq<u8>, u64>;

/// Tokens by bit.
pub type Fibers = Map<u32, Set<Seq<u8>>>;

/// A token's rank: its count.
pub fn token_rank(tf: &TfTable, token: &[u8]) -> (r: Rank)
    ensures
        r == count_in(tf@, token@),
{
    tf.count(token)
}

/// The counts of the tokens of a fiber, in ascending order of the tokens.
pub open spec fn fiber_counts(tf: Counts, lut: Fibers, bit: u32) -> Seq<nat> {
    listing::<Vec<u8>>(fiber_at(lut, bit)).map_values(|t: Seq<u8>| count_in(tf, t) as nat)
}

/// A bit's rank: the fold over its fiber.
pub open spec fn rank_of_bit(tf: Counts, lut: Fibers, bit: u32, agg: Aggregator) -> nat {
    folded(agg, fiber_counts(tf, lut, bit))
}

/// The ranks of the bits of a register.
pub open spec fn register_bits(tf: Counts, lut: Fibers, reg: int, agg: Aggregator) -> Seq<nat> {
    Seq::new(32, |tz: int| rank_of_bit(tf, lut, (reg * 32 + tz) as u32, agg))
}

/// A register's rank: the fold over its bits.
pub open spec fn rank_of_register(tf: Counts, lut: Fibers, reg: int, agg: Aggregator) -> nat {
    folded(agg, register_bits(tf, lut, reg, agg))
}

/// The ranks of the set bits of a plane, ascending by bit.
pub open spec fn plane_bits(tf: Counts, lut: Fibers, plane: Set<u32>, agg: Aggregator) -> Seq<nat> {
    listing::<u32>(plane).map_values(|b: u32| rank_of_bit(tf, lut, b, agg))
}

/// A plane's rank: the fold over its set bits.
pub open spec fn rank_of_plane(tf: Counts, lut: Fibers, plane: Set<u32>, agg: Aggregator) -> nat {
    folded(agg, plane_bits(tf, lut, plane, agg))
}

/// A compound rank: the fold over several planes.
pub open spec fn rank_of_planes(
    tf: Counts,
    lut: Fibers,
    sketches: Seq<Set<u32>>,
    agg: Aggregator,
) -> nat {
    folded(agg, sketches.map_values(|p: Set<u32>| rank_of_plane(tf, lut, p, agg)))
}

/// A rank that no sum carries beyond its bounds.
proof fn lemma_bit_rank_fits(tf: Counts, lut: Fibers, bit: u32, agg: Aggregator)
    ensures
        agg != Aggregator::Sum ==> rank_of_bit(tf, lut, bit, agg) <= u64::MAX,
{
    lemma_extremes_fit(fiber_counts(tf, lut, bit), u64::MAX as nat);
}

proof fn lemma_plane_rank_fits(tf: Counts, lut: Fibers, plane: Set<u32>, agg: Aggregator)
    ensures
        agg != Aggregator::Sum ==> rank_of_plane(tf, lut, plane, agg) <= u64::MAX,
{
    if agg != Aggregator::Sum {
        let values = plane_bits(tf, lut, plane, agg);
        assert forall|i: int| 0 <= i < values.len() implies #[trigger] values[i] <= u64::MAX by {
            lemma_bit_rank_fits(tf, lut, listing::<u32>(plane)[i], agg);
        }
        lemma_extremes_fit(values, u64::MAX as nat);
    }
}

/// A bit's rank: the fold of the counts of its fiber.
pub fn bit_rank(tf: &TfTable, lut: &LutIndex, bit: u32, agg: Aggregator) -> (r: Rank)
    requires
        rank_of_bit(tf@, lut@, bit, agg) <= u64::MAX,
    ensures
        r == rank_of_bit(tf@, lut@, bit, agg),
{
    let tokens = lut.fiber(bit).to_vec();
    let ghost tv = views(tokens@);
    proof {
        assert(vals(tokens@) =~= tv);
        lemma_listing::<Vec<u8>>(tv, fiber_at(lut@, bit));
    }
    let mut values: Vec<u64> = Vec::new();
    let mut i: usize = 0;
    while i < tokens.len()
        invariant
            i <= tokens@.len(),
            tv == views(tokens@),
            values@.len() == i,
            forall|j: int| 0 <= j < i ==> #[trigger] values@[j] == count_in(tf@, tv[j]),
        decreases tokens@.len() - i,
    {
        values.push(token_rank(tf, tokens[i].as_slice()));
        i = i + 1;
    }
    proof {
        assert(naturals(values@) =~= fiber_counts(tf@, lut@, bit));
    }
    agg.fold(values.as_slice())
}

/// A register's rank: the fold of the ranks of its bits.
pub fn register_rank(tf: &TfTable, lut: &LutIndex, reg: u32, agg: Aggregator) -> (r: Rank)
    requires
        reg * 32 + 31 <= u32::MAX,
        rank_of_register(tf@, lut@, reg as int, agg) <= u64::MAX,
    ensures
        r == rank_of_register(tf@, lut@, reg as int, agg),
{
    let ghost all = register_bits(tf@, lut@, reg as int, agg);
    let mut values: Vec<u64> = Vec::new();
    let mut tz: u32 = 0;
    while tz < BITS_PER_REG
        invariant
            tz <= 32,
            reg * 32 + 31 <= u32::MAX,
            all == register_bits(tf@, lut@, reg as int, agg),
            folded(agg, all) <= u64::MAX,
            values@.len() == tz,
            forall|j: int| 0 <= j < tz ==> #[trigger] values@[j] == all[j],
        decreases 32 - tz,
    {
        proof {
            assert forall|j: int| 0 <= j < all.len() && agg != Aggregator::Sum implies (
            #[trigger] all[j]) <= u64::MAX by {
                lemma_bit_rank_fits(tf@, lut@, (reg * 32 + j) as u32, agg);
            }
            lemma_parts_fit(agg, all, tz as int);
        }
        values.push(bit_rank(tf, lut, reg * BITS_PER_REG + tz, agg));
        tz = tz + 1;
    }
    proof {
        assert(naturals(values@) =~= all);
    }
    agg.fold(values.as_slice())
}

/// A plane's rank: the fold of the ranks of its set bits.
pub fn hllset_rank(tf: &TfTable, lut: &LutIndex, hllset: &HLLSet, agg: Aggregator) -> (r: Rank)
    requires
        rank_of_plane(tf@, lut@, hllset@, agg) <= u64::MAX,
    ensures
        r == rank_of_plane(tf@, lut@, hllset@, agg),
{
    let bits = hllset.bitmap();
    let ghost all = plane_bits(tf@, lut@, hllset@, agg);
    proof {
        lemma_listing::<u32>(bits@, hllset@);
    }
    let mut values: Vec<u64> = Vec::new();
    let mut i: usize = 0;
    while i < bits.len()
        invariant
            i <= bits@.len(),
            bits@ == listing::<u32>(hllset@),
            all == plane_bits(tf@, lut@, hllset@, agg),
            folded(agg, all) <= u64::MAX,
            values@.len() == i,
            forall|j: int| 0 <= j < i ==> #[trigger] values@[j] == all[j],
        decreases bits@.len() - i,
    {
        proof {
            assert forall|j: int| 0 <= j < all.len() && agg != Aggregator::Sum implies (
            #[trigger] all[j]) <= u64::MAX by {
                lemma_bit_rank_fits(tf@, lut@, bits@[j], agg);
            }
            lemma_parts_fit(agg, all, i as int);
        }
        values.push(bit_rank(tf, lut, bits[i], agg));
        i = i + 1;
    }
    proof {
        assert(naturals(values@) =~= all);
    }
    agg.fold(values.as_slice())
}

/// A compound rank: the fold of the ranks of several planes.
pub fn compound_rank(tf: &TfTable, lut: &LutIndex, sketches: &[HLLSet], agg: Aggregator) -> (r:
    Rank)
    requires
        rank_of_planes(tf@, lut@, planes(sketches@), agg) <= u64::MAX,
    ensures
        r == rank_of_planes(tf@, lut@, planes(sketches@), agg),
{
    let ghost all = planes(sketches@).map_values(
        |p: Set<u32>| rank_of_plane(tf@, lut@, p, agg),
    );
    let mut values: Vec<u64> = Vec::new();
    let mut i: usize = 0;
    while i < sketches.len()
        invariant
            i <= sketches@.len(),
            all == planes(sketches@).map_values(|p: Set<u32>| rank_of_plane(tf@, lut@, p, agg)),
            folded(agg, all) <= u64::MAX,
            values@.len() == i,
            forall|j: int| 0 <= j < i ==> #[trigger] values@[j] == all[j],
        decreases sketches@.len() - i,
    {
        proof {
            assert forall|j: int| 0 <= j < all.len() && agg != Aggregator::Sum implies (
            #[trigger] all[j]) <= u64::MAX by {
                lemma_plane_rank_fits(tf@, lut@, sketches@[j]@, agg);
            }
            lemma_parts_fit(agg, all, i as int);
        }
        values.push(hllset_rank(tf, lut, &sketches[i], agg));
        i = i + 1;
    }
    proof {
        assert(naturals(values@) =~= all);
    }
    agg.fold(values.as_slice())
}

/// Term by term no larger.
pub open spec fn below(a: Seq<nat>, b: Seq<nat>) -> bool {
    a.len() == b.len() && forall|i: int| 0 <= i < a.len() ==> #[trigger] a[i] <= b[i]
}

proof fn lemma_folds_grow(a: Seq<nat>, b: Seq<nat>)
    requires
        below(a, b),
    ensures
        sum_of(a) <= sum_of(b),
        max_of(a) <= max_of(b),
    decreases a.len(),
{
    if a.len() > 0 {
        let fa = a.drop_last();
        let fb = b.drop_last();
        assert forall|i: int| 0 <= i < fa.len() implies #[trigger] fa[i] <= fb[i] by {
            assert(fa[i] == a[i]);
        }
        lemma_folds_grow(fa, fb);
        assert(a[a.len() - 1] <= b[b.len() - 1]);
    }
}

/// Ranks grow with the counts: with larger counts no plane's rank is smaller,
/// whether ranks add up or the largest counts.
pub proof fn ranks_grow_with_counts(
    less: Counts,
    more: Counts,
    lut: Fibers,
    plane: Set<u32>,
    agg: Aggregator,
)
    requires
        agg == Aggregator::Sum || agg == Aggregator::Max,
        forall|t: Seq<u8>| #[trigger] count_in(less, t) <= count_in(more, t),
    ensures
        rank_of_plane(less, lut, plane, agg) <= rank_of_plane(more, lut, plane, agg),
{
    let a = plane_bits(less, lut, plane, agg);
    let b = plane_bits(more, lut, plane, agg);
    assert forall|i: int| 0 <= i < a.len() implies #[trigger] a[i] <= b[i] by {
        let bit = listing::<u32>(plane)[i];
        let fa = fiber_counts(less, lut, bit);
        let fb = fiber_counts(more, lut, bit);
        assert forall|k: int| 0 <= k < fa.len() implies #[trigger] fa[k] <= fb[k] by {
            let t = listing::<Vec<u8>>(fiber_at(lut, bit))[k];
            assert(count_in(less, t) <= count_in(more, t));
        }
        lemma_folds_grow(fa, fb);
    }
    lemma_folds_grow(a, b);
}

/// Folding a single rank gives that rank, so a compound of one plane ranks as
/// the plane does.
pub proof fn a_compound_of_one_is_its_plane(
    tf: Counts,
    lut: Fibers,
    plane: Set<u32>,
    agg: Aggregator,
)
    ensures
        rank_of_planes(tf, lut, seq![plane], agg) == rank_of_plane(tf, lut, plane, agg),
{
    let v = seq![plane].map_values(|p: Set<u32>| rank_of_plane(tf, lut, p, agg));
    assert(v.len() == 1);
    assert(v.drop_last() =~= Seq::empty());
    assert(sum_of(v.drop_last()) == 0);
    assert(max_of(v.drop_last()) == 0);
}

/// Nothing has rank zero, whatever the fold.
pub proof fn empty_folds_are_zero(tf: Counts, lut: Fibers, agg: Aggregator)
    ensures
        folded(agg, Seq::empty()) == 0,
        rank_of_plane(tf, lut, Set::empty(), agg) == 0,
{
    let s = Seq::<u32>::empty();
    assert(s.to_set() =~= Set::empty());
    lemma_listing::<u32>(s, Set::empty());
    assert(plane_bits(tf, lut, Set::empty(), agg) =~= Seq::empty());
}

/// The rank of one bit.
#[derive(Clone, Copy, Debug, PartialEq, Eq, Structural)]
pub struct BitRank {
    pub register: u32,
    pub tz: u32,
    pub value: Rank,
    /// How many tokens stand behind the bit.
    pub token_count: u32,
}

/// The rank of a plane in a collection.
pub struct HLLSetRank {
    pub key: String,
    pub value: Rank,
    /// The number of relations of the plane.
    pub degree: usize,
    pub popcount: u64,
}

/// Ranks a plane by its degree.
#[derive(Clone, Copy, Debug, Default)]
pub struct DegreeRankFn;

impl DegreeRankFn {
    /// The rank of a degree.
    pub fn rank(&self, degree: usize) -> (r: Rank)
        ensures
            r == degree,
    {
        degree as u64
    }
}

impl HLLSetRank {
    /// The rank of a lattice element with a degree.
    pub fn new(element: &LatticeElement, degree: usize, k: &DegreeRankFn) -> (r: Self)
        ensures
            r.key@ == crate::hllset::plane_key(element@),
            r.value == degree,
            r.degree == degree,
            r.popcount == element@.len(),
    {
        HLLSetRank {
            key: element.key().to_owned(),
            value: k.rank(degree),
            degree,
            popcount: element.hllset().popcount(),
        }
    }

    /// The rank of a named plane with a degree and a number of set bits.
    pub fn from_raw(key: &str, degree: usize, popcount: u64, k: &DegreeRankFn) -> (r: Self)
        ensures
            r.key@ == key@,
            r.value == degree,
            r.degree == degree,
            r.popcount == popcount,
    {
        HLLSetRank { key: key.to_owned(), value: k.rank(degree), degree, popcount }
    }
}

/// What a stored rank holds beside its key.
pub struct RankState {
    pub value: u64,
    pub degree: nat,
    pub popcount: u64,
}

/// What a rank holds beside its key.
pub open spec fn rank_state(r: HLLSetRank) -> RankState {
    RankState { value: r.value, degree: r.degree as nat, popcount: r.popcount }
}

/// The ranks of a collection, one for each key.
pub struct HLLSetRankIndex {
    ranks: OrdMap<String, HLLSetRank>,
}

impl HLLSetRankIndex {
    /// Every rank stands under its own key.
    #[verifier::type_invariant]
    spec fn inv(self) -> bool {
        forall|k: Seq<char>| #[trigger] self.ranks@.contains_key(k) ==> self.ranks@[k].key@ == k
    }

    /// The ranks by key.
    pub closed spec fn states(&self) -> Map<Seq<char>, RankState> {
        self.ranks@.map_values(|r: HLLSetRank| rank_state(r))
    }

    /// The rank values by key.
    pub open spec fn values(&self) -> Map<Seq<char>, u64> {
        self.states().map_values(|s: RankState| s.value)
    }

    /// The keys, ascending.
    pub closed spec fn keys(&self) -> Seq<Seq<char>> {
        self.ranks.keys()
    }

    /// A collection without planes.
    pub fn new() -> (r: Self)
        ensures
            r.states() == Map::<Seq<char>, RankState>::empty(),
            r.values() == Map::<Seq<char>, u64>::empty(),
            r.keys() == Seq::<Seq<char>>::empty(),
    {
        let r = HLLSetRankIndex { ranks: OrdMap::new() };
        proof {
            assert(r.states() =~= Map::empty());
            assert(r.values() =~= Map::empty());
            assert(r.keys() =~= Seq::empty());
        }
        r
    }

    /// Sets the rank under its key.
    pub fn insert(&mut self, rank: HLLSetRank)
        ensures
            final(self).states() == old(self).states().insert(rank.key@, rank_state(rank)),
            final(self).values() == old(self).values().insert(rank.key@, rank.value),
    {
        proof {
            use_type_invariant(&*self);
        }
        let ghost before = self.states();
        let ghost given = rank;
        let key = rank.key.clone();
        let mut ranks: OrdMap<String, HLLSetRank> = OrdMap::new();
        core::mem::swap(&mut ranks, &mut self.ranks);
        ranks.insert(key, rank);
        self.ranks = ranks;
        proof {
            assert(self.states() =~= before.insert(given.key@, rank_state(given)));
            assert(self.values() =~= old(self).values().insert(given.key@, given.value));
        }
    }

    /// The number of planes.
    pub fn len(&self) -> (r: usize)
        ensures
            r == self.keys().len(),
            self.keys().to_set() == self.values().dom(),
            self.keys().no_duplicates(),
    {
        let n: usize = self.ranks.len();
        proof {
            assert(self.values().dom() =~= self.ranks@.dom());
            crate::collections::lemma_ascending_distinct::<String>(self.keys());
            assert(self.keys().to_set() =~= self.values().dom());
        }
        n
    }

    /// The rank at a place, in ascending order of keys.
    pub fn at(&self, i: usize) -> (r: &HLLSetRank)
        requires
            i < self.keys().len(),
        ensures
            self.states().contains_key(self.keys()[i as int]),
            rank_state(*r) == self.states()[self.keys()[i as int]],
            r.key@ == self.keys()[i as int],
    {
        proof {
            use_type_invariant(self);
        }
        self.ranks.val_at(i)
    }

    /// The key at a place, in ascending order.
    pub fn key_at(&self, i: usize) -> (r: &str)
        requires
            i < self.keys().len(),
        ensures
            r@ == self.keys()[i as int],
    {
        self.ranks.key_at(i).as_str()
    }
}

/// The rank of a lattice operation on two planes.
pub struct CompoundRank {
    pub value: Rank,
}

impl CompoundRank {
    /// The rank of a union: the larger of the two.
    pub fn union(a: Rank, b: Rank) -> (r: Self)
        ensures
            r.value == if a > b {
                a
            } else {
                b
            },
    {
        CompoundRank {
            value: if a > b {
                a
            } else {
                b
            },
        }
    }

    /// The rank of an intersection: the smaller of the two.
    pub fn intersection(a: Rank, b: Rank) -> (r: Self)
        ensures
            r.value == if a < b {
                a
            } else {
                b
            },
    {
        CompoundRank {
            value: if a < b {
                a
            } else {
                b
            },
        }
    }
}

/// A maximum is one of the ranks and none exceeds it; a minimum is one of them
/// and exceeds none; sums add up.
pub proof fn folds_are_what_they_say(a: Seq<nat>, b: Seq<nat>)
    ensures
        folded(Aggregator::Sum, a + b) == folded(Aggregator::Sum, a) + folded(Aggregator::Sum, b),
        forall|i: int| 0 <= i < a.len() ==> #[trigger] a[i] <= folded(Aggregator::Max, a),
        forall|i: int| 0 <= i < a.len() ==> #[trigger] a[i] >= folded(Aggregator::Min, a),
        a.len() > 0 ==> a.contains(folded(Aggregator::Max, a)),
        a.len() > 0 ==> a.contains(folded(Aggregator::Min, a)),
{
    lemma_sum_joined(a, b);
    lemma_extremes(a);
}

proof fn lemma_sum_joined(a: Seq<nat>, b: Seq<nat>)
    ensures
        sum_of(a + b) == sum_of(a) + sum_of(b),
    decreases b.len(),
{
    if b.len() == 0 {
        assert(a + b =~= a);
    } else {
        assert((a + b).drop_last() =~= a + b.drop_last());
        lemma_sum_joined(a, b.drop_last());
    }
}

proof fn lemma_extremes(a: Seq<nat>)
    ensures
        forall|i: int| 0 <= i < a.len() ==> #[trigger] a[i] <= max_of(a),
        forall|i: int| 0 <= i < a.len() ==> #[trigger] a[i] >= min_of(a),
        a.len() > 0 ==> a.contains(max_of(a)),
        a.len() > 0 ==> a.contains(min_of(a)),
    decreases a.len(),
{
    if a.len() > 0 {
        let front = a.drop_last();
        lemma_extremes(front);
        assert(a[a.len() - 1] == a.last());
        assert forall|i: int| 0 <= i < a.len() implies #[trigger] a[i] <= max_of(a) && a[i]
            >= min_of(a) by {
            if i < front.len() {
                assert(front[i] == a[i]);
            }
        }
        if front.len() > 0 {
            let i = choose|i: int| 0 <= i < front.len() && front[i] == max_of(front);
            assert(a[i] == front[i]);
            let j = choose|j: int| 0 <= j < front.len() && front[j] == min_of(front);
            assert(a[j] == front[j]);
        }
    }
}

/// Under sums a plane ranks as its bits do: one more bit adds its own rank.
pub proof fn a_bit_adds_its_rank(tf: Counts, lut: Fibers, plane: Set<u32>, bit: u32)
    requires
        plane.finite(),
        forall|b: u32| #[trigger] plane.contains(b) ==> b < bit,
    ensures
        rank_of_plane(tf, lut, plane.insert(bit), Aggregator::Sum) == rank_of_plane(
            tf,
            lut,
            plane,
            Aggregator::Sum,
        ) + rank_of_bit(tf, lut, bit, Aggregator::Sum),
{
    crate::collections::lemma_listing_push::<u32>(plane, bit);
    let all = listing::<u32>(plane);
    let more = all.push(bit);
    let f = |b: u32| rank_of_bit(tf, lut, b, Aggregator::Sum);
    assert(more.map_values(f).drop_last() =~= all.map_values(f));
}

/// A register ranks as the plane of all its bits does.
pub proof fn a_register_is_the_plane_of_its_bits(
    tf: Counts,
    lut: Fibers,
    reg: int,
    agg: Aggregator,
)
    requires
        0 <= reg < 1024,
    ensures
        rank_of_register(tf, lut, reg, agg) == rank_of_plane(
            tf,
            lut,
            Set::new(|b: u32| b / 32 == reg),
            agg,
        ),
{
    let plane = Set::new(|b: u32| b / 32 == reg);
    let bits = Seq::new(32, |tz: int| (reg * 32 + tz) as u32);
    assert forall|b: u32| bits.to_set().contains(b) == plane.contains(b) by {
        if plane.contains(b) {
            let tz = b - reg * 32;
            assert(0 <= tz < 32);
            assert(bits[tz] == b);
        }
        if bits.contains(b) {
            let k = choose|k: int| 0 <= k < 32 && bits[k] == b;
            assert(b == reg * 32 + k);
        }
    }
    assert(bits.to_set() =~= plane);
    assert(crate::collections::lists::<u32>(bits, plane));
    crate::collections::lemma_listing::<u32>(bits, plane);
    assert(plane_bits(tf, lut, plane, agg) =~= register_bits(tf, lut, reg, agg));
}

} // verus!
