//! Distribution: node fingerprints, routing by inclusion, merging responses.
//!
//! A node's fingerprint is the union of the planes it holds. A request goes to
//! the nodes that cover most of it; each answers with what it shares with the
//! request, and the union of the answers is what the request shares with the
//! union of the nodes.
use vstd::prelude::*;
use vstd::string::*;

use crate::hllset::{planes, union_of, HLLSet};
use crate::maps::{rank_entries, ranking, ranking_pairs, rankings_come_best_first, OrdMap};
use crate::matrix::first_k;
use crate::text::texts;

verus! {

/// The union of the planes that a node holds, and which distinct ones those
/// are.
pub struct NodeFingerprint {
    fingerprint: HLLSet,
    members: Vec<HLLSet>,
}

impl View for NodeFingerprint {
    type V = Set<u32>;

    /// The bits of the fingerprint.
    closed spec fn view(&self) -> Set<u32> {
        self.fingerprint@
    }
}

/// How much of one plane another covers: the shared bits and all bits. The
/// fraction of the two is the inclusion; nothing is covered in full.
#[derive(Clone, Copy, Debug, PartialEq, Eq, Structural)]
pub struct Share {
    pub part: u64,
    pub whole: u64,
}

/// Adds a set to distinct ones, unless it is among them.
fn enlist(members: &mut Vec<HLLSet>, hllset: &HLLSet)
    requires
        planes(old(members)@).no_duplicates(),
    ensures
        planes(final(members)@).no_duplicates(),
        planes(final(members)@).to_set() == planes(old(members)@).to_set().insert(hllset@),
{
    let ghost before = planes(members@);
    match position_of(members, hllset) {
        Some(i) => {
            proof {
                assert(before[i as int] == hllset@);
                assert(before.to_set().insert(hllset@) =~= before.to_set());
            }
        },
        None => {
            members.push(hllset.clone());
            proof {
                let after = planes(members@);
                assert(after =~= before.push(hllset@));
                assert(after.to_set() =~= before.to_set().insert(hllset@)) by {
                    assert forall|p: Set<u32>| before.to_set().insert(hllset@).contains(
                        p,
                    ) implies after.to_set().contains(p) by {
                        if before.contains(p) {
                            let k = choose|k: int| 0 <= k < before.len() && before[k] == p;
                            assert(after[k] == p);
                        } else {
                            assert(after[before.len() as int] == p);
                        }
                    }
                }
            }
        },
    }
}

/// Where a set stands among others; `None` where it is not among them.
fn position_of(members: &Vec<HLLSet>, hllset: &HLLSet) -> (r: Option<usize>)
    ensures
        r is Some <==> planes(members@).contains(hllset@),
        r matches Some(i) ==> i < members@.len() && members@[i as int]@ == hllset@,
{
    let ghost all = planes(members@);
    let mut i: usize = 0;
    while i < members.len()
        invariant
            i <= members@.len(),
            all == planes(members@),
            forall|j: int| 0 <= j < i ==> #[trigger] all[j] != hllset@,
        decreases members@.len() - i,
    {
        proof {
            assert(all[i as int] == members@[i as int]@);
        }
        if members[i].same(hllset) {
            return Some(i);
        }
        i = i + 1;
    }
    None
}

impl NodeFingerprint {
    /// The members are distinct.
    #[verifier::type_invariant]
    spec fn inv(self) -> bool {
        planes(self.members@).no_duplicates()
    }

    /// The distinct sets in the fingerprint.
    pub closed spec fn sets(&self) -> Set<Set<u32>> {
        planes(self.members@).to_set()
    }

    /// The empty fingerprint.
    pub fn new() -> (r: Self)
        ensures
            r@ == Set::<u32>::empty(),
            r.sets() == Set::<Set<u32>>::empty(),
    {
        let r = NodeFingerprint { fingerprint: HLLSet::new(), members: Vec::new() };
        proof {
            assert(r.sets() =~= Set::empty());
        }
        r
    }

    /// Adds a set.
    pub fn add(&mut self, hllset: &HLLSet)
        ensures
            final(self)@ == old(self)@.union(hllset@),
            final(self).sets() == old(self).sets().insert(hllset@),
    {
        proof {
            use_type_invariant(&*self);
        }
        let mut members: Vec<HLLSet> = Vec::new();
        core::mem::swap(&mut members, &mut self.members);
        enlist(&mut members, hllset);
        let fingerprint = self.fingerprint.union(hllset);
        self.fingerprint = fingerprint;
        self.members = members;
    }

    /// Takes a set out of the count. The bits stay, for other sets may share
    /// them: rebuild the fingerprint to drop them.
    pub fn remove(&mut self, hllset: &HLLSet)
        ensures
            final(self)@ == old(self)@,
            final(self).sets() == old(self).sets().remove(hllset@),
    {
        proof {
            use_type_invariant(&*self);
        }
        let mut members: Vec<HLLSet> = Vec::new();
        core::mem::swap(&mut members, &mut self.members);
        let ghost before = planes(members@);
        match position_of(&members, hllset) {
            Some(i) => {
                members.remove(i);
                proof {
                    let after = planes(members@);
                    assert(after =~= before.remove(i as int));
                    assert(before[i as int] == hllset@);
                    assert(after.to_set() =~= before.to_set().remove(hllset@)) by {
                        assert forall|p: Set<u32>| before.to_set().remove(hllset@).contains(
                            p,
                        ) implies after.to_set().contains(p) by {
                            let k = choose|k: int| 0 <= k < before.len() && before[k] == p;
                            if k < i {
                                assert(after[k] == p);
                            } else {
                                assert(after[k - 1] == p);
                            }
                        }
                        assert forall|p: Set<u32>| after.to_set().contains(
                            p,
                        ) implies before.to_set().remove(hllset@).contains(p) by {
                            let k = choose|k: int| 0 <= k < after.len() && after[k] == p;
                            if k < i {
                                assert(before[k] == p);
                            } else {
                                assert(before[k + 1] == p);
                            }
                        }
                    }
                }
            },
            None => {
                proof {
                    assert(before.to_set().remove(hllset@) =~= before.to_set());
                }
            },
        }
        self.members = members;
    }

    /// Rebuilds the fingerprint from sets.
    pub fn rebuild(&mut self, sets: &[HLLSet])
        ensures
            final(self)@ == union_of(planes(sets@)),
            final(self).sets() == planes(sets@).to_set(),
    {
        let ghost all = planes(sets@);
        let mut members: Vec<HLLSet> = Vec::new();
        let mut i: usize = 0;
        proof {
            assert(planes(members@).to_set() =~= all.take(0).to_set());
        }
        while i < sets.len()
            invariant
                i <= sets@.len(),
                all == planes(sets@),
                planes(members@).no_duplicates(),
                planes(members@).to_set() == all.take(i as int).to_set(),
            decreases sets@.len() - i,
        {
            enlist(&mut members, &sets[i]);
            proof {
                crate::collections::lemma_take_step(all, i as int);
            }
            i = i + 1;
        }
        proof {
            assert(all.take(i as int) =~= all);
        }
        let fingerprint = HLLSet::union_all(sets);
        *self = NodeFingerprint { fingerprint, members };
    }

    /// The plane of the fingerprint.
    pub fn as_hllset(&self) -> (r: &HLLSet)
        ensures
            r@ == self@,
    {
        &self.fingerprint
    }

    /// The number of distinct sets in the fingerprint.
    pub fn set_count(&self) -> (r: usize)
        ensures
            r == self.sets().len(),
    {
        proof {
            use_type_invariant(self);
            planes(self.members@).unique_seq_to_set();
        }
        self.members.len()
    }

    /// How much of a plane the fingerprint covers.
    pub fn inclusion_of(&self, other: &HLLSet) -> (r: Share)
        ensures
            r.part == self@.intersect(other@).len(),
            r.whole == other@.len(),
            r.part <= r.whole,
    {
        let both = self.fingerprint.intersection(other);
        let r = Share { part: both.popcount(), whole: other.popcount() };
        proof {
            vstd::set_lib::lemma_len_subset(self@.intersect(other@), other@);
        }
        r
    }

    /// How much of a plane is new to the fingerprint.
    pub fn novelty_vs(&self, other: &HLLSet) -> (r: Share)
        ensures
            r.part == other@.difference(self@).len(),
            r.whole == other@.len(),
            r.part <= r.whole,
    {
        let fresh = other.difference(&self.fingerprint);
        let r = Share { part: fresh.popcount(), whole: other.popcount() };
        proof {
            vstd::set_lib::lemma_len_subset(other@.difference(self@), other@);
        }
        r
    }

    /// A second fingerprint with the same bits and sets.
    pub fn duplicate(&self) -> (r: Self)
        ensures
            r@ == self@,
            r.sets() == self.sets(),
    {
        proof {
            use_type_invariant(self);
        }
        let ghost all = planes(self.members@);
        let mut members: Vec<HLLSet> = Vec::new();
        let mut i: usize = 0;
        proof {
            assert(planes(members@) =~= all.take(0));
        }
        while i < self.members.len()
            invariant
                i <= self.members@.len(),
                all == planes(self.members@),
                planes(members@) == all.take(i as int),
            decreases self.members@.len() - i,
        {
            let ghost before = planes(members@);
            members.push(self.members[i].clone());
            proof {
                assert(planes(members@) =~= before.push(all[i as int]));
                crate::collections::lemma_take_step(all, i as int);
            }
            i = i + 1;
        }
        proof {
            assert(all.take(i as int) =~= all);
        }
        NodeFingerprint { fingerprint: self.fingerprint.clone(), members }
    }
}

/// Inclusion and novelty share a plane out between them.
pub proof fn inclusion_and_novelty_add_up(node: Set<u32>, request: Set<u32>)
    requires
        request.finite(),
    ensures
        node.intersect(request).len() + request.difference(node).len() == request.len(),
{
    let a = node.intersect(request);
    let b = request.difference(node);
    assert(a.subset_of(request));
    assert(b.subset_of(request));
    vstd::set_lib::lemma_len_subset(a, request);
    vstd::set_lib::lemma_len_subset(b, request);
    assert(a.disjoint(b));
    vstd::set_lib::lemma_set_disjoint_lens(a, b);
    assert(a + b =~= request);
}

/// A node of a ranking, with how much of the request it covers.
pub struct RankedNode {
    pub id: String,
    pub score: Share,
}

/// The shared bits of the relevant nodes: all nodes where the request is
/// empty, those that share a bit with it where it is not.
pub open spec fn relevant(nodes: Map<Seq<char>, Set<u32>>, request: Set<u32>) -> Map<
    Seq<char>,
    u64,
> {
    Map::new(
        |id: Seq<char>|
            nodes.contains_key(id) && (request.len() == 0 || nodes[id].intersect(request).len()
                > 0),
        |id: Seq<char>| nodes[id].intersect(request).len() as u64,
    )
}

/// The (shared bits, id) pairs of a ranking.
pub open spec fn node_scores(v: Seq<RankedNode>) -> Seq<(u64, Seq<char>)> {
    v.map_values(|n: RankedNode| (n.score.part, n.id@))
}

/// Nodes with their fingerprints, walked in ascending id order.
pub struct BSSRouter {
    nodes: OrdMap<String, NodeFingerprint>,
}

impl View for BSSRouter {
    type V = Map<Seq<char>, Set<u32>>;

    closed spec fn view(&self) -> Map<Seq<char>, Set<u32>> {
        self.nodes@.map_values(|f: NodeFingerprint| f@)
    }
}

impl BSSRouter {
    /// The distinct sets of each node.
    pub closed spec fn sets(&self) -> Map<Seq<char>, Set<Set<u32>>> {
        self.nodes@.map_values(|f: NodeFingerprint| f.sets())
    }

    /// The router without nodes.
    pub fn new() -> (r: Self)
        ensures
            r@ == Map::<Seq<char>, Set<u32>>::empty(),
            r.sets() == Map::<Seq<char>, Set<Set<u32>>>::empty(),
    {
        let r = BSSRouter { nodes: OrdMap::new() };
        assert(r@ =~= Map::empty());
        assert(r.sets() =~= Map::empty());
        r
    }

    /// Registers a node, in place of an earlier one with the same id.
    pub fn add_node(&mut self, id: &str, fingerprint: &NodeFingerprint)
        ensures
            final(self)@ == old(self)@.insert(id@, fingerprint@),
            final(self).sets() == old(self).sets().insert(id@, fingerprint.sets()),
    {
        self.nodes.insert(id.to_owned(), fingerprint.duplicate());
        assert(self@ =~= old(self)@.insert(id@, fingerprint@));
        assert(self.sets() =~= old(self).sets().insert(id@, fingerprint.sets()));
    }

    /// Removes a node.
    pub fn remove_node(&mut self, id: &str)
        ensures
            final(self)@ == old(self)@.remove(id@),
            final(self).sets() == old(self).sets().remove(id@),
    {
        self.nodes.remove(&id.to_owned());
        assert(self@ =~= old(self)@.remove(id@));
        assert(self.sets() =~= old(self).sets().remove(id@));
    }

    /// Replaces a node's fingerprint.
    pub fn update_node(&mut self, id: &str, fingerprint: &NodeFingerprint)
        ensures
            final(self)@ == old(self)@.insert(id@, fingerprint@),
            final(self).sets() == old(self).sets().insert(id@, fingerprint.sets()),
    {
        self.add_node(id, fingerprint);
    }

    /// The best `k` nodes for a request, by descending shared bits and then
    /// ascending id. Nodes that share nothing with a non-empty request are
    /// left out.
    pub fn rank(&self, request: &HLLSet, k: usize) -> (r: Vec<RankedNode>)
        ensures
            node_scores(r@) == first_k(ranking::<String>(relevant(self@, request@)), k as nat),
            forall|i: int|
                0 <= i < r@.len() ==> (#[trigger] r@[i]).score.whole == request@.len(),
    {
        let whole: u64 = request.popcount();
        let n: usize = self.nodes.len();
        let ghost keys = self.nodes.keys();
        let mut scores: OrdMap<String, u64> = OrdMap::new();
        let mut i: usize = 0;
        proof {
            assert(scores@ =~= relevant(self@.restrict(keys.take(0).to_set()), request@));
        }
        while i < n
            invariant
                i <= n,
                n == keys.len(),
                keys == self.nodes.keys(),
                self.nodes.listed(),
                whole == request@.len(),
                scores@ == relevant(self@.restrict(keys.take(i as int).to_set()), request@),
            decreases n - i,
        {
            let share = self.nodes.val_at(i).inclusion_of(request);
            proof {
                crate::collections::lemma_take_step(keys, i as int);
            }
            if whole == 0 || share.part > 0 {
                scores.insert(self.nodes.key_at(i).clone(), share.part);
            }
            proof {
                assert(scores@ =~= relevant(
                    self@.restrict(keys.take(i + 1).to_set()),
                    request@,
                )) by {
                    let id = keys[i as int];
                    assert(self.nodes@.contains_key(id));
                    assert(self@[id] == self.nodes@[id]@);
                }
            }
            i = i + 1;
        }
        proof {
            assert(keys.take(n as int) =~= keys);
            assert(self@.restrict(keys.to_set()) =~= self@);
        }
        let ranked = rank_entries(&scores);
        let mut out: Vec<RankedNode> = Vec::new();
        let mut j: usize = 0;
        while j < ranked.len() && j < k
            invariant
                j <= ranked@.len(),
                j <= k,
                out@.len() == j,
                forall|a: int|
                    0 <= a < j ==> (out@[a].score.part, (#[trigger] out@[a]).id@)
                        == ranking_pairs(ranked@)[a],
                forall|a: int| 0 <= a < j ==> (#[trigger] out@[a]).score.whole == whole,
            decreases ranked@.len() - j,
        {
            out.push(
                RankedNode {
                    id: ranked[j].0.clone(),
                    score: Share { part: ranked[j].1, whole },
                },
            );
            j = j + 1;
        }
        proof {
            assert(node_scores(out@) =~= first_k(ranking_pairs(ranked@), k as nat));
        }
        out
    }

    /// The ids of the known nodes, ascending.
    pub fn nodes(&self) -> (r: Vec<String>)
        ensures
            texts(r@) == crate::collections::listing::<String>(self@.dom()),
    {
        let n: usize = self.nodes.len();
        let mut r: Vec<String> = Vec::new();
        let mut i: usize = 0;
        while i < n
            invariant
                i <= n,
                n == self.nodes.keys().len(),
                r@.len() == i,
                forall|j: int| 0 <= j < i ==> (#[trigger] r@[j])@ == self.nodes.keys()[j],
            decreases n - i,
        {
            r.push(self.nodes.key_at(i).clone());
            i = i + 1;
        }
        proof {
            assert(texts(r@) =~= self.nodes.keys());
            assert(self@.dom() =~= self.nodes@.dom());
            crate::collections::lemma_listing::<String>(self.nodes.keys(), self@.dom());
        }
        r
    }

    /// The fingerprint of a node.
    pub fn fingerprint(&self, id: &str) -> (r: Option<&NodeFingerprint>)
        ensures
            r is Some <==> self@.contains_key(id@),
            r matches Some(f) ==> f@ == self@[id@] && f.sets() == self.sets()[id@],
    {
        self.nodes.get(&id.to_owned())
    }

    /// The number of known nodes.
    pub fn len(&self) -> (r: usize)
        ensures
            r == self@.dom().len(),
            self@.dom().finite(),
    {
        let n: usize = self.nodes.len();
        assert(self@.dom() =~= self.nodes@.dom());
        n
    }

    /// Whether no node is known.
    pub fn is_empty(&self) -> (r: bool)
        ensures
            r == (self@.dom().len() == 0),
    {
        self.len() == 0
    }
}

/// Responses to one request, to be joined.
pub struct MultiSourceMerge {
    responses: Vec<HLLSet>,
}

impl MultiSourceMerge {
    /// The planes of the responses.
    pub closed spec fn collected(&self) -> Seq<Set<u32>> {
        planes(self.responses@)
    }

    /// No response yet.
    pub fn new() -> (r: Self)
        ensures
            r.collected() == Seq::<Set<u32>>::empty(),
    {
        let r = MultiSourceMerge { responses: Vec::new() };
        assert(r.collected() =~= Seq::empty());
        r
    }

    /// Adds a response.
    pub fn add_response(&mut self, partial: HLLSet)
        ensures
            final(self).collected() == old(self).collected().push(partial@),
    {
        self.responses.push(partial);
        assert(self.collected() =~= old(self).collected().push(partial@));
    }

    /// The union of the responses.
    pub fn merge(self) -> (r: HLLSet)
        ensures
            r@ == union_of(self.collected()),
    {
        HLLSet::union_all(self.responses.as_slice())
    }

    /// The union of the responses, without giving them up.
    pub fn merged(&self) -> (r: HLLSet)
        ensures
            r@ == union_of(self.collected()),
    {
        HLLSet::union_all(self.responses.as_slice())
    }

    /// The number of responses.
    pub fn response_count(&self) -> (r: usize)
        ensures
            r == self.collected().len(),
    {
        self.responses.len()
    }
}

/// The union of what a request shares with each node is what it shares with
/// the union of the nodes.
pub proof fn merging_distributes_over_nodes(request: Set<u32>, nodes: Seq<Set<u32>>)
    ensures
        union_of(nodes.map_values(|n: Set<u32>| request.intersect(n))) == request.intersect(
            union_of(nodes),
        ),
{
    let parts = nodes.map_values(|n: Set<u32>| request.intersect(n));
    assert forall|b: u32|
        union_of(parts).contains(b) == request.intersect(union_of(nodes)).contains(b) by {
        if union_of(parts).contains(b) {
            let i = choose|i: int| 0 <= i < parts.len() && (#[trigger] parts[i]).contains(b);
            assert(nodes[i].contains(b));
        }
        if request.intersect(union_of(nodes)).contains(b) {
            let i = choose|i: int| 0 <= i < nodes.len() && (#[trigger] nodes[i]).contains(b);
            assert(parts[i].contains(b));
        }
    }
    assert(union_of(parts) =~= request.intersect(union_of(nodes)));
}

/// Repeating a response, or adding one that is already covered, changes
/// nothing.
pub proof fn merging_is_idempotent(responses: Seq<Set<u32>>, again: Set<u32>)
    requires
        again.subset_of(union_of(responses)),
    ensures
        union_of(responses.push(again)) == union_of(responses),
{
    let more = responses.push(again);
    assert(more.take(responses.len() as int) =~= responses);
    assert(more.take(responses.len() as int + 1) =~= more);
    crate::hllset::lemma_union_of_step(more, responses.len() as int);
    assert(union_of(responses).union(again) =~= union_of(responses));
}

/// Nodes are ranked by the bits they share with a request, then by id. Every
/// node that shares a bit is ranked; one that shares none only where the
/// request is empty.
pub proof fn nodes_that_share_more_come_first(nodes: Map<Seq<char>, Set<u32>>, request: Set<u32>)
    requires
        nodes.dom().finite(),
    ensures
        forall|p: (u64, Seq<char>)| #[trigger]
            ranking::<String>(relevant(nodes, request)).contains(p) <==> nodes.contains_key(p.1)
                && p.0 == nodes[p.1].intersect(request).len() as u64 && (request.len() == 0
                || nodes[p.1].intersect(request).len() > 0),
        forall|i: int, j: int|
            0 <= i < j < ranking::<String>(relevant(nodes, request)).len() ==> {
                let a = #[trigger] ranking::<String>(relevant(nodes, request))[i];
                let b = #[trigger] ranking::<String>(relevant(nodes, request))[j];
                a.0 > b.0 || (a.0 == b.0 && <String as crate::order::Key>::lt(a.1, b.1))
            },
{
    assert(relevant(nodes, request).dom().subset_of(nodes.dom()));
    vstd::set_lib::lemma_set_subset_finite(nodes.dom(), relevant(nodes, request).dom());
    rankings_come_best_first::<String>(relevant(nodes, request));
}

} // verus!
