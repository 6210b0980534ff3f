//! Register ranks: the bit ranks of one register, aggregated.
use vstd::prelude::*;
use vstd::string::*;

use crate::collections::lists;
use crate::maps::{rank_entries, ranked_entries, ranking, ranking_pairs, OrdMap, Ranked};
use crate::matrix::first_k;
use crate::ranks::{folds_are_what_they_say, max_of, sum_of, BitRank, Rank};

verus! {

/// The values of some bit ranks.
pub open spec fn bit_values(bits: Seq<BitRank>) -> Seq<nat> {
    bits.map_values(|b: BitRank| b.value as nat)
}

/// An aggregator of the bit ranks of a register.
pub trait RegisterRankAggregator {
    /// Bit ranks that can be aggregated within the bounds of a rank.
    spec fn fits(&self, bits: Seq<BitRank>) -> bool;

    /// The aggregate of some bit ranks.
    spec fn aggregated(&self, register: u32, bits: Seq<BitRank>) -> nat;

    /// The aggregator's name.
    spec fn label(&self) -> Seq<char>;

    /// Aggregates the bit ranks of a register.
    fn aggregate(&self, register: u32, bits: &[BitRank]) -> (r: Rank)
        requires
            self.fits(bits@),
        ensures
            r == self.aggregated(register, bits@),
    ;

    /// The aggregator's name.
    fn name(&self) -> (r: &'static str)
        ensures
            r@ == self.label(),
    ;
}

/// Adds all bit ranks up.
#[derive(Clone, Copy, Default)]
pub struct SumRegAggregator;

proof fn lemma_sum_prefix(values: Seq<nat>, i: int)
    requires
        0 <= i <= values.len(),
    ensures
        sum_of(values.take(i)) <= sum_of(values),
    decreases values.len(),
{
    if i < values.len() {
        lemma_sum_prefix(values.drop_last(), i);
        assert(values.drop_last().take(i) =~= values.take(i));
    } else {
        assert(values.take(i) =~= values);
    }
}

impl RegisterRankAggregator for SumRegAggregator {
    open spec fn fits(&self, bits: Seq<BitRank>) -> bool {
        sum_of(bit_values(bits)) <= u64::MAX
    }

    open spec fn aggregated(&self, register: u32, bits: Seq<BitRank>) -> nat {
        sum_of(bit_values(bits))
    }

    open spec fn label(&self) -> Seq<char> {
        "sum"@
    }

    fn aggregate(&self, register: u32, bits: &[BitRank]) -> (r: Rank) {
        let ghost all = bit_values(bits@);
        let mut acc: u64 = 0;
        let mut i: usize = 0;
        proof {
            assert(all.take(0) =~= Seq::empty());
        }
        while i < bits.len()
            invariant
                i <= bits@.len(),
                all == bit_values(bits@),
                sum_of(all) <= u64::MAX,
                acc == sum_of(all.take(i as int)),
            decreases bits@.len() - i,
        {
            proof {
                assert(all.take(i + 1).drop_last() =~= all.take(i as int));
                assert(all.take(i + 1).last() == bits@[i as int].value);
                lemma_sum_prefix(all, i + 1);
            }
            acc = acc + bits[i].value;
            i = i + 1;
        }
        proof {
            assert(all.take(i as int) =~= all);
        }
        acc
    }

    fn name(&self) -> (r: &'static str) {
        "sum"
    }
}

/// Takes the largest bit rank.
#[derive(Clone, Copy, Default)]
pub struct MaxPoolAggregator;

impl RegisterRankAggregator for MaxPoolAggregator {
    open spec fn fits(&self, bits: Seq<BitRank>) -> bool {
        true
    }

    open spec fn aggregated(&self, register: u32, bits: Seq<BitRank>) -> nat {
        max_of(bit_values(bits))
    }

    open spec fn label(&self) -> Seq<char> {
        "max-pool"@
    }

    fn aggregate(&self, register: u32, bits: &[BitRank]) -> (r: Rank) {
        let ghost all = bit_values(bits@);
        let mut acc: u64 = 0;
        let mut i: usize = 0;
        proof {
            assert(all.take(0) =~= Seq::empty());
        }
        while i < bits.len()
            invariant
                i <= bits@.len(),
                all == bit_values(bits@),
                acc == max_of(all.take(i as int)),
            decreases bits@.len() - i,
        {
            proof {
                assert(all.take(i + 1).drop_last() =~= all.take(i as int));
                assert(all.take(i + 1).last() == bits@[i as int].value);
            }
            if bits[i].value > acc {
                acc = bits[i].value;
            }
            i = i + 1;
        }
        proof {
            assert(all.take(i as int) =~= all);
        }
        acc
    }

    fn name(&self) -> (r: &'static str) {
        "max-pool"
    }
}

/// Adds up the bit ranks whose bits are set.
#[derive(Clone, Copy, Default)]
pub struct ActiveOnlySum;

/// A height that a register word sets.
pub open spec fn height_set(mask: u32, tz: u32) -> bool {
    (mask >> tz) & 1u32 == 1u32
}

/// The sum of the bit ranks at set heights.
pub open spec fn masked_sum(bits: Seq<BitRank>, mask: u32) -> nat
    decreases bits.len(),
{
    if bits.len() == 0 {
        0
    } else {
        masked_sum(bits.drop_last(), mask) + if height_set(mask, bits.last().tz) {
            bits.last().value as nat
        } else {
            0
        }
    }
}

proof fn lemma_masked_prefix(bits: Seq<BitRank>, mask: u32, i: int)
    requires
        0 <= i <= bits.len(),
    ensures
        masked_sum(bits.take(i), mask) <= masked_sum(bits, mask),
    decreases bits.len(),
{
    if i < bits.len() {
        lemma_masked_prefix(bits.drop_last(), mask, i);
        assert(bits.drop_last().take(i) =~= bits.take(i));
    } else {
        assert(bits.take(i) =~= bits);
    }
}

impl ActiveOnlySum {
    /// Adds up the bit ranks at the heights that a register word sets.
    pub fn aggregate_masked(&self, _register: u32, bits: &[BitRank], active_mask: u32) -> (r: Rank)
        requires
            masked_sum(bits@, active_mask) <= u64::MAX,
            forall|i: int| 0 <= i < bits@.len() ==> (#[trigger] bits@[i]).tz < 32,
        ensures
            r == masked_sum(bits@, active_mask),
    {
        let mut acc: u64 = 0;
        let mut i: usize = 0;
        proof {
            assert(bits@.take(0) =~= Seq::empty());
        }
        while i < bits.len()
            invariant
                i <= bits@.len(),
                masked_sum(bits@, active_mask) <= u64::MAX,
                forall|j: int| 0 <= j < bits@.len() ==> (#[trigger] bits@[j]).tz < 32,
                acc == masked_sum(bits@.take(i as int), active_mask),
            decreases bits@.len() - i,
        {
            proof {
                assert(bits@.take(i + 1).drop_last() =~= bits@.take(i as int));
                assert(bits@.take(i + 1).last() == bits@[i as int]);
                lemma_masked_prefix(bits@, active_mask, i + 1);
            }
            if (active_mask >> bits[i].tz) & 1u32 == 1u32 {
                acc = acc + bits[i].value;
            }
            i = i + 1;
        }
        proof {
            assert(bits@.take(i as int) =~= bits@);
        }
        acc
    }
}

/// The rank of one register.
#[derive(Clone, Copy, Debug, PartialEq, Eq, Structural)]
pub struct RegisterRank {
    pub register: u32,
    pub value: Rank,
    /// How many heights had bit ranks.
    pub active_slots: u32,
}

impl RegisterRank {
    /// The rank of a register from its bit ranks.
    pub fn new(register: u32, bits: &[BitRank], h: &dyn RegisterRankAggregator) -> (r: Self)
        requires
            h.fits(bits@),
            bits@.len() <= u32::MAX,
        ensures
            r.register == register,
            r.value == h.aggregated(register, bits@),
            r.active_slots == bits@.len(),
    {
        RegisterRank {
            register,
            value: h.aggregate(register, bits),
            active_slots: bits.len() as u32,
        }
    }
}

/// Ranks registers from counts by bit.
pub struct TfRegisterRanker<A: RegisterRankAggregator> {
    aggregator: A,
}

impl Default for TfRegisterRanker<SumRegAggregator> {
    fn default() -> (r: Self)
        ensures
            r.inner() == SumRegAggregator,
    {
        TfRegisterRanker { aggregator: SumRegAggregator }
    }
}

/// The bit ranks of a register: its nonzero counts, by ascending height.
pub open spec fn register_slots(tf: Seq<u64>, register: u32, n: nat) -> Seq<BitRank>
    decreases n,
{
    if n == 0 {
        Seq::empty()
    } else {
        let before = register_slots(tf, register, (n - 1) as nat);
        let v = tf[register * 32 + n - 1];
        if v > 0 {
            before.push(BitRank { register, tz: (n - 1) as u32, value: v, token_count: 1 })
        } else {
            before
        }
    }
}

impl<A: RegisterRankAggregator> TfRegisterRanker<A> {
    /// The aggregator.
    pub closed spec fn inner(&self) -> A {
        self.aggregator
    }

    /// Bit ranks that the aggregator can take.
    pub open spec fn fits(&self, bits: Seq<BitRank>) -> bool {
        self.inner().fits(bits)
    }

    /// What the aggregator makes of bit ranks.
    pub open spec fn aggregated(&self, register: u32, bits: Seq<BitRank>) -> nat {
        self.inner().aggregated(register, bits)
    }

    /// The rank of a register.
    pub open spec fn ranks(&self, tf: Seq<u64>, register: u32, r: RegisterRank) -> bool {
        let slots = register_slots(tf, register, 32);
        &&& r.register == register
        &&& r.value == self.aggregated(register, slots)
        &&& r.active_slots == slots.len()
    }

    /// Every register can be ranked.
    pub open spec fn all_fit(&self, tf: Seq<u64>) -> bool {
        forall|register: u32|
            register < 1024 ==> self.fits(#[trigger] register_slots(tf, register, 32))
    }

    /// A ranker with an aggregator.
    pub fn new(aggregator: A) -> (r: Self)
        ensures
            r.inner() == aggregator,
    {
        TfRegisterRanker { aggregator }
    }

    /// The ranks of all registers, ascending by register.
    pub fn rank_all(&self, tf: &[u64]) -> (r: Vec<RegisterRank>)
        requires
            tf@.len() == 32768,
            self.all_fit(tf@),
        ensures
            r@.len() == 1024,
            forall|i: int| 0 <= i < 1024 ==> self.ranks(tf@, i as u32, #[trigger] r@[i]),
    {
        let mut out: Vec<RegisterRank> = Vec::new();
        let mut reg: u32 = 0;
        while reg < 1024
            invariant
                reg <= 1024,
                tf@.len() == 32768,
                self.all_fit(tf@),
                out@.len() == reg,
                forall|i: int| 0 <= i < reg ==> self.ranks(tf@, i as u32, #[trigger] out@[i]),
            decreases 1024 - reg,
        {
            proof {
                assert(self.fits(register_slots(tf@, reg, 32)));
            }
            out.push(self.rank_register(tf, reg));
            reg = reg + 1;
        }
        out
    }

    /// The rank of one register.
    pub fn rank_register(&self, tf: &[u64], register: u32) -> (r: RegisterRank)
        requires
            tf@.len() == 32768,
            register < 1024,
            self.fits(register_slots(tf@, register, 32)),
        ensures
            self.ranks(tf@, register, r),
    {
        let base: usize = register as usize * 32;
        let mut bits: Vec<BitRank> = Vec::new();
        let mut tz: u32 = 0;
        while tz < 32
            invariant
                tz <= 32,
                register < 1024,
                base == register * 32,
                tf@.len() == 32768,
                bits@.len() <= tz,
                bits@ == register_slots(tf@, register, tz as nat),
            decreases 32 - tz,
        {
            let value: u64 = tf[base + tz as usize];
            if value > 0 {
                bits.push(BitRank { register, tz, value, token_count: 1 });
            }
            tz = tz + 1;
        }
        RegisterRank {
            register,
            value: self.aggregator.aggregate(register, bits.as_slice()),
            active_slots: bits.len() as u32,
        }
    }

    /// The values of the registers, as a map.
    pub open spec fn values(&self, tf: Seq<u64>) -> Map<u32, u64> {
        Map::new(
            |register: u32| register < 1024,
            |register: u32|
                self.aggregated(register, register_slots(tf, register, 32)) as u64,
        )
    }

    /// The `k` highest registers, by descending value and then ascending
    /// register.
    pub fn top_k(&self, tf: &[u64], k: usize) -> (r: Vec<RegisterRank>)
        requires
            tf@.len() == 32768,
            self.all_fit(tf@),
        ensures
            r@.map_values(|x: RegisterRank| (x.value, x.register)) == first_k(
                ranking::<u32>(self.values(tf@)),
                k as nat,
            ),
            forall|i: int|
                0 <= i < r@.len() ==> self.ranks(tf@, (#[trigger] r@[i]).register, r@[i]),
    {
        let all = self.rank_all(tf);
        let mut map: OrdMap<u32, u64> = OrdMap::new();
        let mut i: usize = 0;
        proof {
            assert(map@ =~= self.values(tf@).restrict(Set::new(|x: u32| x < 0)));
        }
        while i < all.len()
            invariant
                i <= all@.len(),
                all@.len() == 1024,
                forall|j: int| 0 <= j < 1024 ==> self.ranks(tf@, j as u32, #[trigger] all@[j]),
                map@ == self.values(tf@).restrict(Set::new(|x: u32| x < i)),
            decreases all@.len() - i,
        {
            let ghost before = map@;
            proof {
                assert(self.ranks(tf@, i as u32, all@[i as int]));
            }
            map.insert(all[i].register, all[i].value);
            proof {
                assert(map@ =~= self.values(tf@).restrict(Set::new(|x: u32| x < i + 1)));
            }
            i = i + 1;
        }
        proof {
            assert(map@ =~= self.values(tf@));
        }
        let mut order = rank_entries(&map);
        let ghost full = order@;
        order.truncate(k);
        let ghost kept = ranking_pairs(order@);
        proof {
            assert(kept =~= first_k(ranking_pairs(full), k as nat));
        }
        let mut out: Vec<RegisterRank> = Vec::new();
        let mut j: usize = 0;
        while j < order.len()
            invariant
                j <= order@.len(),
                all@.len() == 1024,
                forall|m: int| 0 <= m < 1024 ==> self.ranks(tf@, m as u32, #[trigger] all@[m]),
                kept == ranking_pairs(order@),
                kept == first_k(ranking::<u32>(self.values(tf@)), k as nat),
                lists::<Ranked<u32>>(
                    ranking::<u32>(self.values(tf@)),
                    ranked_entries(self.values(tf@)),
                ),
                out@.len() == j,
                forall|m: int|
                    0 <= m < j ==> ((#[trigger] out@[m]).value, out@[m].register) == kept[m]
                        && self.ranks(tf@, out@[m].register, out@[m]),
            decreases order@.len() - j,
        {
            proof {
                let rk = ranking::<u32>(self.values(tf@));
                assert(kept.len() == order@.len());
                assert(kept[j as int] == rk[j as int]);
                assert(rk.to_set().contains(rk[j as int]));
                assert(kept[j as int] == (order@[j as int].1, order@[j as int].0));
                assert(order@[j as int].0 < 1024);
                assert(self.ranks(
                    tf@,
                    order@[j as int].0,
                    all@[order@[j as int].0 as int],
                ));
            }
            out.push(all[order[j].0 as usize]);
            j = j + 1;
        }
        proof {
            assert(out@.map_values(|x: RegisterRank| (x.value, x.register)) =~= kept);
        }
        out
    }
}

/// The slots of a register: its nonzero counts and no others, each with its
/// own height, ascending.
pub proof fn slots_are_the_nonzero_counts(tf: Seq<u64>, register: u32, n: nat, tz: u32)
    requires
        n <= 32,
    ensures
        (exists|k: int|
            0 <= k < register_slots(tf, register, n).len() && (#[trigger] register_slots(
                tf,
                register,
                n,
            )[k]).tz == tz) <==> tz < n && tf[register * 32 + tz] > 0,
        forall|k: int|
            0 <= k < register_slots(tf, register, n).len() ==> {
                let slot = #[trigger] register_slots(tf, register, n)[k];
                slot.tz < n && slot.register == register && slot.value == tf[register * 32
                    + slot.tz] && slot.value > 0
            },
        forall|a: int, b: int|
            0 <= a < b < register_slots(tf, register, n).len() ==> (#[trigger] register_slots(
                tf,
                register,
                n,
            )[a]).tz < (#[trigger] register_slots(tf, register, n)[b]).tz,
    decreases n,
{
    if n > 0 {
        let m = (n - 1) as nat;
        slots_are_the_nonzero_counts(tf, register, m, tz);
        let before = register_slots(tf, register, m);
        let now = register_slots(tf, register, n);
        if exists|k: int| 0 <= k < before.len() && (#[trigger] before[k]).tz == tz {
            let k = choose|k: int| 0 <= k < before.len() && (#[trigger] before[k]).tz == tz;
            assert(now[k] == before[k]);
        }
        if exists|k: int| 0 <= k < now.len() && (#[trigger] now[k]).tz == tz {
            let k = choose|k: int| 0 <= k < now.len() && (#[trigger] now[k]).tz == tz;
            if k < before.len() {
                assert(before[k] == now[k]);
            }
        }
        if tf[register * 32 + m] > 0 {
            assert(now[before.len() as int].tz == m);
        }
    }
}

/// A masked sum is the sum over the slots at the heights that the mask sets.
pub proof fn masks_pick_the_slots(bits: Seq<BitRank>, mask: u32)
    ensures
        masked_sum(bits, mask) == sum_of(
            bit_values(bits.filter(|b: BitRank| (mask >> b.tz) & 1u32 == 1u32)),
        ),
    decreases bits.len(),
{
    reveal(Seq::filter);
    let f = |b: BitRank| (mask >> b.tz) & 1u32 == 1u32;
    if bits.len() > 0 {
        let front = bits.drop_last();
        masks_pick_the_slots(front, mask);
        let kept = bit_values(front.filter(f));
        if f(bits.last()) {
            assert(bit_values(bits.filter(f)) =~= kept.push(bits.last().value as nat));
            assert(kept.push(bits.last().value as nat).drop_last() =~= kept);
        }
    }
}

/// The sum aggregator adds up what two parts of a register rank; max-pooling
/// takes a rank that no other exceeds, and nothing of an empty register.
pub proof fn aggregators_sum_or_take_the_largest(a: Seq<BitRank>, b: Seq<BitRank>, register: u32)
    ensures
        SumRegAggregator.aggregated(register, a + b) == SumRegAggregator.aggregated(register, a)
            + SumRegAggregator.aggregated(register, b),
        forall|i: int|
            0 <= i < a.len() ==> (#[trigger] a[i]).value <= MaxPoolAggregator.aggregated(
                register,
                a,
            ),
        a.len() > 0 ==> exists|i: int|
            0 <= i < a.len() && (#[trigger] a[i]).value == MaxPoolAggregator.aggregated(
                register,
                a,
            ),
        MaxPoolAggregator.aggregated(register, Seq::empty()) == 0,
{
    assert(bit_values(a + b) =~= bit_values(a) + bit_values(b));
    folds_are_what_they_say(bit_values(a), bit_values(b));
    assert forall|i: int| 0 <= i < a.len() implies (#[trigger] a[i]).value <= max_of(
        bit_values(a),
    ) by {
        assert(bit_values(a)[i] == a[i].value);
    }
    if a.len() > 0 {
        let m = max_of(bit_values(a));
        let i = choose|i: int| 0 <= i < bit_values(a).len() && bit_values(a)[i] == m;
        assert(a[i].value == m);
    }
}

} // verus!
