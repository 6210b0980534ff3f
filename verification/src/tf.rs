//! The monotonic term-frequency table.
//!
//! Counts only grow; merging takes the pointwise maximum, so tables from
//! different places join in any order.
use vstd::prelude::*;

use crate::maps::{count_in, OrdMap};
use crate::order::copy_bytes;

verus! {

/// Token counts.
pub struct TfTable {
    counts: OrdMap<Vec<u8>, u64>,
}

/// The larger of two counts.
pub open spec fn larger(a: u64, b: u64) -> u64 {
    if a >= b {
        a
    } else {
        b
    }
}

/// The pointwise maximum of two count maps.
pub open spec fn max_merge<A>(a: Map<A, u64>, b: Map<A, u64>) -> Map<A, u64> {
    Map::new(
        |k: A| a.contains_key(k) || b.contains_key(k),
        |k: A| larger(count_in(a, k), count_in(b, k)),
    )
}

impl View for TfTable {
    type V = Map<Seq<u8>, u64>;

    closed spec fn view(&self) -> Map<Seq<u8>, u64> {
        self.counts@
    }
}

impl TfTable {
    /// The empty table.
    pub fn new() -> (r: Self)
        ensures
            r@ == Map::<Seq<u8>, u64>::empty(),
    {
        TfTable { counts: OrdMap::new() }
    }

    /// Counts one observation of a token.
    pub fn increment(&mut self, token: &[u8])
        requires
            count_in(old(self)@, token@) < u64::MAX,
        ensures
            final(self)@ == old(self)@.insert(
                token@,
                (count_in(old(self)@, token@) + 1) as u64,
            ),
    {
        let key = copy_bytes(token);
        let n: u64 = self.counts.count(&key);
        self.counts.insert(key, n + 1);
    }

    /// A second table with the same counts.
    pub fn duplicate(&self) -> (r: Self)
        ensures
            r@ == self@,
    {
        TfTable { counts: self.counts.duplicate() }
    }

    /// The count of a token, zero where it was not observed.
    pub fn count(&self, token: &[u8]) -> (r: u64)
        ensures
            r == count_in(self@, token@),
    {
        self.counts.count(&copy_bytes(token))
    }

    /// Joins another table: the pointwise maximum.
    pub fn merge(&mut self, other: &Self)
        ensures
            final(self)@ == max_merge(old(self)@, other@),
    {
        merge_counts(&mut self.counts, &other.counts);
    }

    /// The number of distinct tokens.
    pub fn len(&self) -> (r: usize)
        ensures
            r == self@.dom().len(),
            self@.dom().finite(),
    {
        self.counts.len()
    }

    /// Whether no token was observed.
    pub fn is_empty(&self) -> (r: bool)
        ensures
            r == (self@ == Map::<Seq<u8>, u64>::empty()),
    {
        self.counts.is_empty()
    }
}

/// Joins the counts of another map: the pointwise maximum.
pub fn merge_counts<K: crate::order::Key>(into: &mut OrdMap<K, u64>, other: &OrdMap<K, u64>)
    ensures
        final(into)@ == max_merge(old(into)@, other@),
{
    let n: usize = other.len();
    let ghost start = into@;
    let ghost keys = other.keys();
    let mut i: usize = 0;
    proof {
        assert(into@ =~= merge_below(start, other@, keys.take(0).to_set()));
    }
    while i < n
        invariant
            i <= n,
            n == keys.len(),
            keys == other.keys(),
            other.listed(),
            start == old(into)@,
            into@ == merge_below(start, other@, keys.take(i as int).to_set()),
        decreases n - i,
    {
        let key = other.key_at(i).duplicate();
        let theirs: u64 = *other.val_at(i);
        let ours: u64 = into.count(&key);
        proof {
            crate::collections::lemma_take_step(keys, i as int);
            let k = keys[i as int];
            assert(!keys.take(i as int).to_set().contains(k)) by {
                if keys.take(i as int).contains(k) {
                    let j = choose|j: int|
                        0 <= j < keys.take(i as int).len() && keys.take(i as int)[j] == k;
                    assert(keys[j] == keys[i as int]);
                }
            }
        }
        into.insert(
            key,
            if ours >= theirs {
                ours
            } else {
                theirs
            },
        );
        proof {
            assert(into@ =~= merge_below(start, other@, keys.take(i + 1).to_set()));
        }
        i = i + 1;
    }
    proof {
        assert(keys.take(n as int) =~= keys);
        assert(into@ =~= max_merge(old(into)@, other@));
    }
}

/// The merge of the entries of `b` whose keys belong to `done`.
pub open spec fn merge_below<A>(a: Map<A, u64>, b: Map<A, u64>, done: Set<A>) -> Map<A, u64> {
    max_merge(a, b.restrict(done))
}

/// Merging is idempotent, commutative and associative, and never lowers a
/// count: tables form a join-semilattice.
pub proof fn merge_is_a_join<A>(a: Map<A, u64>, b: Map<A, u64>, c: Map<A, u64>)
    ensures
        max_merge(a, a) == a,
        max_merge(a, b) == max_merge(b, a),
        max_merge(max_merge(a, b), c) == max_merge(a, max_merge(b, c)),
        forall|k: A|
            #![trigger count_in(max_merge(a, b), k)]
            count_in(max_merge(a, b), k) >= count_in(a, k) && count_in(max_merge(a, b), k)
                >= count_in(b, k),
{
    assert(max_merge(a, a) =~= a);
    assert(max_merge(a, b) =~= max_merge(b, a));
    assert(max_merge(max_merge(a, b), c) =~= max_merge(a, max_merge(b, c)));
}

} // verus!
