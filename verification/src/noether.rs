//! The Noether context: states with declared generators, the derivation
//! between two states, and the tropical follow matrix.
use vstd::prelude::*;

use crate::hllset::{planes, union_of, HLLSet};
use crate::lut::TokenSet;
use crate::maps::{count_in, OrdMap};
use crate::order::copy_bytes;
use crate::tf::{larger, max_merge, merge_counts};

verus! {

/// A state with the generators that it is the join of.
pub struct Context {
    state: HLLSet,
    generators: Vec<HLLSet>,
}

/// A copy of some planes.
fn copy_planes(sets: &[HLLSet]) -> (r: Vec<HLLSet>)
    ensures
        planes(r@) == planes(sets@),
{
    let mut r: Vec<HLLSet> = Vec::new();
    let mut i: usize = 0;
    while i < sets.len()
        invariant
            i <= sets@.len(),
            r@.len() == i,
            forall|j: int| 0 <= j < i ==> (#[trigger] r@[j])@ == sets@[j]@,
        decreases sets@.len() - i,
    {
        r.push(sets[i].clone());
        i = i + 1;
    }
    assert(planes(r@) =~= planes(sets@));
    r
}

/// The generators that differ from a plane, in order.
pub open spec fn without(generators: Seq<Set<u32>>, g: Set<u32>) -> Seq<Set<u32>>
    decreases generators.len(),
{
    if generators.len() == 0 {
        Seq::empty()
    } else {
        let before = without(generators.drop_last(), g);
        if generators.last() == g {
            before
        } else {
            before.push(generators.last())
        }
    }
}

impl Context {
    #[verifier::type_invariant]
    spec fn inv(self) -> bool {
        self.state@ == union_of(planes(self.generators@))
    }

    /// The planes of the generators.
    pub closed spec fn leaves(&self) -> Seq<Set<u32>> {
        planes(self.generators@)
    }

    /// The state that is the join of the given generators.
    pub fn from_generators(generators: Vec<HLLSet>) -> (r: Self)
        ensures
            r.leaves() == planes(generators@),
    {
        let state = HLLSet::union_all(generators.as_slice());
        Context { state, generators }
    }

    /// The state: the join of the generators.
    pub fn state(&self) -> (r: &HLLSet)
        ensures
            r@ == union_of(self.leaves()),
    {
        proof {
            use_type_invariant(self);
        }
        &self.state
    }

    /// The generators.
    pub fn generators(&self) -> (r: &[HLLSet])
        ensures
            planes(r@) == self.leaves(),
    {
        self.generators.as_slice()
    }

    /// A new context with one more generator.
    pub fn with_generator(&self, generator: HLLSet) -> (r: Self)
        ensures
            r.leaves() == self.leaves().push(generator@),
    {
        let mut generators = copy_planes(self.generators.as_slice());
        let ghost before = generators@;
        generators.push(generator);
        proof {
            assert(planes(generators@) =~= planes(before).push(generator@));
        }
        Context::from_generators(generators)
    }

    /// A new context without the generators that have the same bits as the
    /// given one.
    pub fn without_generator(&self, generator: &HLLSet) -> (r: Self)
        ensures
            r.leaves() == without(self.leaves(), generator@),
    {
        let ghost all = self.leaves();
        let mut kept: Vec<HLLSet> = Vec::new();
        let mut i: usize = 0;
        proof {
            assert(planes(kept@) =~= without(all.take(0), generator@));
        }
        while i < self.generators.len()
            invariant
                i <= self.generators@.len(),
                all == planes(self.generators@),
                planes(kept@) == without(all.take(i as int), generator@),
            decreases self.generators@.len() - i,
        {
            let ghost before = kept@;
            proof {
                assert(all.take(i + 1).drop_last() =~= all.take(i as int));
                assert(all.take(i + 1).last() == self.generators@[i as int]@);
            }
            if !self.generators[i].same(generator) {
                kept.push(self.generators[i].clone());
                proof {
                    assert(planes(kept@) =~= planes(before).push(all[i as int]));
                }
            }
            i = i + 1;
        }
        proof {
            assert(all.take(i as int) =~= all);
        }
        Context::from_generators(kept)
    }
}

/// Removing a generator that was just added gives back the generators, where
/// none of them had the same bits.
pub proof fn removing_undoes_adding(leaves: Seq<Set<u32>>, g: Set<u32>)
    requires
        !leaves.contains(g),
    ensures
        without(leaves.push(g), g) == leaves,
        union_of(leaves.push(g)) == union_of(leaves).union(g),
{
    let more = leaves.push(g);
    assert(more.drop_last() =~= leaves);
    lemma_without_absent(leaves, g);
    assert(more.take(leaves.len() as int) =~= leaves);
    assert(more.take(leaves.len() as int + 1) =~= more);
    crate::hllset::lemma_union_of_step(more, leaves.len() as int);
}

proof fn lemma_without_absent(leaves: Seq<Set<u32>>, g: Set<u32>)
    requires
        !leaves.contains(g),
    ensures
        without(leaves, g) == leaves,
    decreases leaves.len(),
{
    if leaves.len() > 0 {
        let d = leaves.drop_last();
        assert(leaves.last() != g) by {
            assert(leaves[leaves.len() - 1] == leaves.last());
        }
        assert(!d.contains(g)) by {
            if d.contains(g) {
                let i = choose|i: int| 0 <= i < d.len() && d[i] == g;
                assert(leaves[i] == g);
            }
        }
        lemma_without_absent(d, g);
        assert(d.push(leaves.last()) =~= leaves);
    } else {
        assert(without(leaves, g) =~= leaves);
    }
}

/// What left, what stayed and what came between two states.
pub struct Noether {
    pub departed: HLLSet,
    pub retained: HLLSet,
    pub novel: HLLSet,
}

/// Derives what left, what stayed and what came.
pub fn evolve(previous: &HLLSet, current: &HLLSet) -> (r: Noether)
    ensures
        r.departed@ == previous@.difference(current@),
        r.retained@ == previous@.intersect(current@),
        r.novel@ == current@.difference(previous@),
{
    Noether {
        departed: previous.difference(current),
        retained: previous.intersection(current),
        novel: current.difference(previous),
    }
}

/// The three invariants of a derivation: departed and retained make up the
/// previous state, retained and novel the current one, and departed and novel
/// share nothing.
pub open spec fn invariants(
    departed: Set<u32>,
    retained: Set<u32>,
    novel: Set<u32>,
    previous: Set<u32>,
    current: Set<u32>,
) -> bool {
    &&& departed.union(retained) == previous
    &&& retained.union(novel) == current
    &&& departed.intersect(novel) == Set::<u32>::empty()
}

/// Whether the three invariants hold of a derivation.
pub fn invariants_hold(n: &Noether, previous: &HLLSet, current: &HLLSet) -> (r: bool)
    ensures
        r == invariants(n.departed@, n.retained@, n.novel@, previous@, current@),
{
    n.departed.union(&n.retained).same(previous) && n.retained.union(&n.novel).same(current)
        && n.departed.intersection(&n.novel).is_empty()
}

/// The invariants hold of every derivation.
pub proof fn derivations_satisfy_the_invariants(previous: Set<u32>, current: Set<u32>)
    ensures
        invariants(
            previous.difference(current),
            previous.intersect(current),
            current.difference(previous),
            previous,
            current,
        ),
{
    let d = previous.difference(current);
    let r = previous.intersect(current);
    let n = current.difference(previous);
    assert(d.union(r) =~= previous);
    assert(r.union(n) =~= current);
    assert(d.intersect(n) =~= Set::empty());
}

/// The invariants pin the derivation, once the retained part shares nothing
/// with the other two.
pub proof fn the_invariants_pin_the_derivation(
    departed: Set<u32>,
    retained: Set<u32>,
    novel: Set<u32>,
    previous: Set<u32>,
    current: Set<u32>,
)
    requires
        invariants(departed, retained, novel, previous, current),
        departed.intersect(retained) == Set::<u32>::empty(),
        retained.intersect(novel) == Set::<u32>::empty(),
    ensures
        departed == previous.difference(current),
        retained == previous.intersect(current),
        novel == current.difference(previous),
{
    let none = Set::<u32>::empty();
    assert forall|b: u32| departed.contains(b) == previous.difference(current).contains(b) by {
        assert(departed.union(retained).contains(b) == previous.contains(b));
        assert(retained.union(novel).contains(b) == current.contains(b));
        assert(departed.intersect(novel).contains(b) == none.contains(b));
        assert(departed.intersect(retained).contains(b) == none.contains(b));
    }
    assert forall|b: u32| retained.contains(b) == previous.intersect(current).contains(b) by {
        assert(departed.union(retained).contains(b) == previous.contains(b));
        assert(retained.union(novel).contains(b) == current.contains(b));
        assert(departed.intersect(novel).contains(b) == none.contains(b));
    }
    assert forall|b: u32| novel.contains(b) == current.difference(previous).contains(b) by {
        assert(departed.union(retained).contains(b) == previous.contains(b));
        assert(retained.union(novel).contains(b) == current.contains(b));
        assert(departed.intersect(novel).contains(b) == none.contains(b));
        assert(retained.intersect(novel).contains(b) == none.contains(b));
    }
    assert(departed =~= previous.difference(current));
    assert(retained =~= previous.intersect(current));
    assert(novel =~= current.difference(previous));
}

/// Transition weights by token pair.
pub type Weights = Map<(Seq<u8>, Seq<u8>), u64>;

/// The tropical follow matrix: observing takes the maximum, so cells only
/// grow.
pub struct FollowMatrix {
    cells: OrdMap<(Vec<u8>, Vec<u8>), u64>,
}

/// The transitions whose two tokens belong to a set.
pub open spec fn restricted(m: Weights, tokens: Set<Seq<u8>>) -> Weights {
    Map::new(
        |k: (Seq<u8>, Seq<u8>)| m.contains_key(k) && tokens.contains(k.0) && tokens.contains(k.1),
        |k: (Seq<u8>, Seq<u8>)| m[k],
    )
}

impl View for FollowMatrix {
    type V = Weights;

    closed spec fn view(&self) -> Weights {
        self.cells@
    }
}

impl FollowMatrix {
    /// The empty matrix.
    pub fn new() -> (r: Self)
        ensures
            r@ == Map::<(Seq<u8>, Seq<u8>), u64>::empty(),
    {
        FollowMatrix { cells: OrdMap::new() }
    }

    /// Observes a transition: the cell becomes the larger of itself and the
    /// weight.
    pub fn observe(&mut self, from: &[u8], to: &[u8], weight: u64)
        ensures
            final(self)@ == old(self)@.insert(
                (from@, to@),
                larger(count_in(old(self)@, (from@, to@)), weight),
            ),
    {
        let key = (copy_bytes(from), copy_bytes(to));
        let w: u64 = self.cells.count(&key);
        self.cells.insert(
            key,
            if w >= weight {
                w
            } else {
                weight
            },
        );
    }

    /// The weight of a transition, zero where it was not observed.
    pub fn get(&self, from: &[u8], to: &[u8]) -> (r: u64)
        ensures
            r == count_in(self@, (from@, to@)),
    {
        self.cells.count(&(copy_bytes(from), copy_bytes(to)))
    }

    /// Joins another matrix: the pointwise maximum.
    pub fn merge(&mut self, other: &Self)
        ensures
            final(self)@ == max_merge(old(self)@, other@),
    {
        merge_counts(&mut self.cells, &other.cells);
    }

    /// Keeps the transitions between the tokens of a set.
    pub fn restrict(&self, tokens: &TokenSet) -> (r: Self)
        ensures
            r@ == restricted(self@, tokens@),
    {
        let n: usize = self.cells.len();
        let ghost keys = self.cells.keys();
        let mut cells: OrdMap<(Vec<u8>, Vec<u8>), u64> = OrdMap::new();
        let mut i: usize = 0;
        proof {
            assert(cells@ =~= restricted(self@.restrict(keys.take(0).to_set()), tokens@));
        }
        while i < n
            invariant
                i <= n,
                n == keys.len(),
                keys == self.cells.keys(),
                self.cells.listed(),
                cells@ == restricted(self@.restrict(keys.take(i as int).to_set()), tokens@),
            decreases n - i,
        {
            let key = self.cells.key_at(i);
            proof {
                crate::collections::lemma_take_step(keys, i as int);
            }
            if tokens.contains(&key.0) && tokens.contains(&key.1) {
                cells.insert(
                    (copy_bytes(key.0.as_slice()), copy_bytes(key.1.as_slice())),
                    *self.cells.val_at(i),
                );
            }
            proof {
                assert(cells@ =~= restricted(
                    self@.restrict(keys.take(i + 1).to_set()),
                    tokens@,
                ));
            }
            i = i + 1;
        }
        proof {
            assert(keys.take(n as int) =~= keys);
            assert(self@.restrict(keys.to_set()) =~= self@);
        }
        FollowMatrix { cells }
    }

    /// The number of observed transitions.
    pub fn len(&self) -> (r: usize)
        ensures
            r == self@.dom().len(),
            self@.dom().finite(),
    {
        self.cells.len()
    }

    /// Whether nothing was observed.
    pub fn is_empty(&self) -> (r: bool)
        ensures
            r == (self@ == Map::<(Seq<u8>, Seq<u8>), u64>::empty()),
    {
        self.cells.is_empty()
    }

    /// A second matrix with the same cells.
    pub fn duplicate(&self) -> (r: Self)
        ensures
            r@ == self@,
    {
        FollowMatrix { cells: self.cells.duplicate() }
    }
}

/// Restriction is a projection that commutes with merging: restricting twice
/// is restricting to the common tokens, and the restriction of a merge is the
/// merge of the restrictions.
pub proof fn restriction_is_a_projection(
    a: Weights,
    b: Weights,
    tokens: Set<Seq<u8>>,
    others: Set<Seq<u8>>,
)
    ensures
        restricted(restricted(a, tokens), tokens) == restricted(a, tokens),
        restricted(restricted(a, tokens), others) == restricted(a, tokens.intersect(others)),
        restricted(max_merge(a, b), tokens) == max_merge(
            restricted(a, tokens),
            restricted(b, tokens),
        ),
{
    assert(restricted(restricted(a, tokens), tokens) =~= restricted(a, tokens));
    assert(restricted(restricted(a, tokens), others) =~= restricted(a, tokens.intersect(others)));
    assert(restricted(max_merge(a, b), tokens) =~= max_merge(
        restricted(a, tokens),
        restricted(b, tokens),
    ));
}

/// Removing a generator takes every one with the same bits, and leaves the
/// others in order.
pub proof fn removal_leaves_the_others(leaves: Seq<Set<u32>>, g: Set<u32>)
    ensures
        without(leaves, g) == leaves.filter(|x: Set<u32>| x != g),
        !without(leaves, g).contains(g),
    decreases leaves.len(),
{
    reveal(Seq::filter);
    if leaves.len() > 0 {
        let front = leaves.drop_last();
        removal_leaves_the_others(front, g);
        let now = without(leaves, g);
        let before = without(front, g);
        if now.contains(g) {
            let i = choose|i: int| 0 <= i < now.len() && now[i] == g;
            if i < before.len() {
                assert(before[i] == g);
            }
        }
    }
}

/// A restriction keeps the transitions whose two tokens both belong to the
/// set, with their weights, and drops every other.
pub proof fn restrictions_keep_what_lies_within(
    m: Weights,
    tokens: Set<Seq<u8>>,
    from: Seq<u8>,
    to: Seq<u8>,
)
    ensures
        count_in(restricted(m, tokens), (from, to)) == if tokens.contains(from) && tokens.contains(
            to,
        ) {
            count_in(m, (from, to))
        } else {
            0
        },
        tokens.contains(from) && tokens.contains(to) ==> restricted(m, tokens).contains_key(
            (from, to),
        ) == m.contains_key((from, to)),
{
}

} // verus!
