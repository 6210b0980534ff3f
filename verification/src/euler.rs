//! Walks that take every one of some pairs once.
//!
//! The walk is built from a trail that goes on until it is stuck, and from
//! closed trails spliced in wherever a pair is left over at a node of the
//! walk. Where a walk through every pair exists at all, every trail gets stuck
//! where it should, and no pair is left over in the end.
use vstd::prelude::*;

use crate::collections::OrdSet;
use crate::order::{copy_bytes, same_bytes, views};

verus! {

/// A follow pair: a token and the one after it.
pub type Follow = (Seq<u8>, Seq<u8>);

/// The follow pairs of pairs of byte vectors.
pub open spec fn follow_views(v: Seq<(Vec<u8>, Vec<u8>)>) -> Seq<Follow> {
    v.map_values(|p: (Vec<u8>, Vec<u8>)| (p.0@, p.1@))
}

/// How often a walk takes a pair.
pub open spec fn taken(walk: Seq<Seq<u8>>, x: Follow) -> nat
    decreases walk.len(),
{
    if walk.len() < 2 {
        0
    } else {
        taken(walk.drop_last(), x) + if (walk[walk.len() - 2], walk.last()) == x {
            1nat
        } else {
            0nat
        }
    }
}

/// One for the members of a set.
pub open spec fn once(pairs: Set<Follow>, x: Follow) -> nat {
    if pairs.contains(x) {
        1
    } else {
        0
    }
}

/// A walk from one node to another that takes every pair once, and no other.
pub open spec fn euler_walk(
    pairs: Set<Follow>,
    start: Seq<u8>,
    end: Seq<u8>,
    walk: Seq<Seq<u8>>,
) -> bool {
    &&& walk.len() > 0
    &&& walk[0] == start
    &&& walk.last() == end
    &&& forall|x: Follow| #[trigger] taken(walk, x) == once(pairs, x)
}

/// There is a walk from one node to another that takes every pair once.
pub open spec fn walkable(pairs: Set<Follow>, start: Seq<u8>, end: Seq<u8>) -> bool {
    exists|walk: Seq<Seq<u8>>| euler_walk(pairs, start, end, walk)
}

/// What two walks take that meet in a node.
proof fn lemma_taken_joined(a: Seq<Seq<u8>>, b: Seq<Seq<u8>>, x: Follow)
    requires
        a.len() > 0,
        b.len() > 0,
        a.last() == b[0],
    ensures
        taken(a + b.drop_first(), x) == taken(a, x) + taken(b, x),
    decreases b.len(),
{
    let j = a + b.drop_first();
    if b.len() == 1 {
        assert(j =~= a);
    } else {
        let c = b.drop_last();
        lemma_taken_joined(a, c, x);
        assert(j.drop_last() =~= a + c.drop_first());
        assert(j.last() == b.last());
        assert(j[j.len() - 2] == b[b.len() - 2]) by {
            if b.len() == 2 {
                assert(j[j.len() - 2] == a.last());
            }
        }
    }
}

/// A pair that is taken joins two nodes of the walk.
proof fn lemma_taken_nodes(walk: Seq<Seq<u8>>, x: Follow)
    requires
        taken(walk, x) > 0,
    ensures
        walk.contains(x.0),
        walk.contains(x.1),
    decreases walk.len(),
{
    let d = walk.drop_last();
    let n = walk.len();
    if (walk[n - 2], walk.last()) == x {
        assert(walk[n - 2] == x.0 && walk[n - 1] == x.1);
    } else {
        lemma_taken_nodes(d, x);
        let i = choose|i: int| 0 <= i < d.len() && d[i] == x.0;
        let j = choose|j: int| 0 <= j < d.len() && d[j] == x.1;
        assert(walk[i] == x.0 && walk[j] == x.1);
    }
}

/// A step of a walk is taken.
proof fn lemma_steps_taken(walk: Seq<Seq<u8>>, k: int)
    requires
        0 <= k < walk.len() - 1,
    ensures
        taken(walk, (walk[k], walk[k + 1])) > 0,
    decreases walk.len(),
{
    if k < walk.len() - 2 {
        let d = walk.drop_last();
        assert(d[k] == walk[k] && d[k + 1] == walk[k + 1]);
        lemma_steps_taken(d, k);
    }
}

/// A pair that is taken is a step of the walk.
proof fn lemma_taken_step(walk: Seq<Seq<u8>>, x: Follow) -> (k: int)
    requires
        taken(walk, x) > 0,
    ensures
        0 <= k < walk.len() - 1,
        (walk[k], walk[k + 1]) == x,
    decreases walk.len(),
{
    let n = walk.len();
    if (walk[n - 2], walk.last()) == x {
        n - 2
    } else {
        let d = walk.drop_last();
        let k = lemma_taken_step(d, x);
        assert(d[k] == walk[k] && d[k + 1] == walk[k + 1]);
        k
    }
}

/// The pairs with a node on one side that a walk takes.
spec fn taken_at(walk: Seq<Seq<u8>>, v: Seq<u8>, out: bool) -> Set<Follow> {
    Set::new(
        |x: Follow|
            taken(walk, x) > 0 && (if out {
                x.0
            } else {
                x.1
            }) == v,
    )
}

/// One where two nodes are the same.
spec fn same(a: Seq<u8>, b: Seq<u8>) -> int {
    if a == b {
        1
    } else {
        0
    }
}

/// A trail leaves a node as often as it enters it, but for its ends.
proof fn lemma_balance(walk: Seq<Seq<u8>>, v: Seq<u8>)
    requires
        walk.len() > 0,
        forall|x: Follow| #[trigger] taken(walk, x) <= 1,
    ensures
        taken_at(walk, v, true).finite(),
        taken_at(walk, v, false).finite(),
        taken_at(walk, v, true).len() - taken_at(walk, v, false).len() == same(walk[0], v) - same(
            walk.last(),
            v,
        ),
    decreases walk.len(),
{
    if walk.len() == 1 {
        assert(taken_at(walk, v, true) =~= Set::empty());
        assert(taken_at(walk, v, false) =~= Set::empty());
    } else {
        let d = walk.drop_last();
        let s = (walk[walk.len() - 2], walk.last());
        assert forall|x: Follow| #[trigger] taken(d, x) <= 1 by {
            assert(taken(walk, x) <= 1);
        }
        assert(taken(walk, s) <= 1);
        assert(taken(d, s) == 0);
        lemma_balance(d, v);
        assert(taken_at(walk, v, true) =~= if s.0 == v {
            taken_at(d, v, true).insert(s)
        } else {
            taken_at(d, v, true)
        });
        assert(taken_at(walk, v, false) =~= if s.1 == v {
            taken_at(d, v, false).insert(s)
        } else {
            taken_at(d, v, false)
        });
        assert(d.last() == s.0);
        assert(d[0] == walk[0]);
    }
}

/// Where two trails with no pair in common take every pair that leaves the
/// last node of the second, what a walk through every pair tells of the nodes
/// where the two begin and end.
proof fn lemma_stuck(
    pairs: Set<Follow>,
    start: Seq<u8>,
    end: Seq<u8>,
    whole: Seq<Seq<u8>>,
    p: Seq<Seq<u8>>,
    q: Seq<Seq<u8>>,
)
    requires
        euler_walk(pairs, start, end, whole),
        p.len() > 0,
        q.len() > 0,
        forall|x: Follow| #![trigger once(pairs, x)] taken(p, x) + taken(q, x) <= once(pairs, x),
        forall|x: Follow|
            #![trigger once(pairs, x)]
            x.0 == q.last() ==> taken(p, x) + taken(q, x) == once(pairs, x),
    ensures
        same(p[0], q.last()) - same(p.last(), q.last()) + same(q[0], q.last()) - 1 >= same(
            start,
            q.last(),
        ) - same(end, q.last()),
{
    let v = q.last();
    assert forall|x: Follow| #[trigger] taken(p, x) <= 1 by {
        assert(taken(p, x) + taken(q, x) <= once(pairs, x));
    }
    assert forall|x: Follow| #[trigger] taken(q, x) <= 1 by {
        assert(taken(p, x) + taken(q, x) <= once(pairs, x));
    }
    assert forall|x: Follow| #[trigger] taken(whole, x) <= 1 by {}
    lemma_balance(p, v);
    lemma_balance(q, v);
    lemma_balance(whole, v);
    let po = taken_at(p, v, true);
    let qo = taken_at(q, v, true);
    let wo = taken_at(whole, v, true);
    let pi = taken_at(p, v, false);
    let qi = taken_at(q, v, false);
    let wi = taken_at(whole, v, false);
    assert forall|x: Follow| wo.contains(x) == po.union(qo).contains(x) by {
        assert(taken(whole, x) == once(pairs, x));
    }
    assert(wo =~= po.union(qo));
    assert forall|x: Follow| pi.union(qi).contains(x) implies wi.contains(x) by {
        assert(taken(p, x) + taken(q, x) <= once(pairs, x));
        assert(taken(whole, x) == once(pairs, x));
    }
    assert forall|x: Follow| !(po.contains(x) && qo.contains(x)) && !(pi.contains(x) && qi.contains(
        x,
    )) by {
        assert(taken(p, x) + taken(q, x) <= once(pairs, x));
    }
    assert(po.disjoint(qo));
    assert(pi.disjoint(qi));
    vstd::set_lib::lemma_set_disjoint_lens(po, qo);
    vstd::set_lib::lemma_set_disjoint_lens(pi, qi);
    vstd::set_lib::lemma_len_subset(pi.union(qi), wi);
}

/// Where no pair that is left over begins at a node of a walk from the start,
/// and there is a walk through every pair, none is left over.
proof fn lemma_nothing_left(
    pairs: Set<Follow>,
    start: Seq<u8>,
    end: Seq<u8>,
    whole: Seq<Seq<u8>>,
    p: Seq<Seq<u8>>,
    rest: Set<Follow>,
    k: int,
)
    requires
        euler_walk(pairs, start, end, whole),
        p.len() > 0,
        p[0] == start,
        forall|x: Follow| #![trigger once(pairs, x)] taken(p, x) + once(rest, x) == once(pairs, x),
        forall|x: Follow| #[trigger] rest.contains(x) ==> !p.contains(x.0),
        0 <= k < whole.len() - 1,
    ensures
        !rest.contains((whole[k], whole[k + 1])),
        p.contains(whole[k]),
    decreases k,
{
    if k == 0 {
        assert(p.contains(p[0]));
    } else {
        lemma_nothing_left(pairs, start, end, whole, p, rest, k - 1);
        let x = (whole[k - 1], whole[k]);
        lemma_steps_taken(whole, k - 1);
        assert(taken(whole, x) == once(pairs, x));
        assert(taken(p, x) + once(rest, x) == once(pairs, x));
        lemma_taken_nodes(p, x);
    }
}

/// A walk that meets no node twice takes each of its steps once.
proof fn lemma_distinct_steps(s: Seq<Seq<u8>>, x: Follow)
    requires
        s.no_duplicates(),
    ensures
        taken(s, x) <= 1,
        taken(s, x) > 0 ==> s.drop_last().contains(x.0),
    decreases s.len(),
{
    let n = s.len();
    if n >= 2 {
        let d = s.drop_last();
        assert(d.no_duplicates());
        lemma_distinct_steps(d, x);
        if (s[n - 2], s.last()) == x {
            assert(d[n - 2] == x.0);
            if taken(d, x) > 0 {
                let i = choose|i: int| 0 <= i < d.drop_last().len() && d.drop_last()[i] == x.0;
                assert(s[i] == s[n - 2]);
            }
        } else if taken(d, x) > 0 {
            let i = choose|i: int| 0 <= i < d.drop_last().len() && d.drop_last()[i] == x.0;
            assert(d[i] == x.0);
        }
    }
}

/// Where two walks agree up to a node, and the second takes only steps of the
/// first, which meets no node twice.
proof fn lemma_same_steps(s: Seq<Seq<u8>>, w: Seq<Seq<u8>>, k: int)
    requires
        s.no_duplicates(),
        s.len() > 0,
        w.len() > 0,
        w[0] == s[0],
        forall|x: Follow| #[trigger] taken(w, x) > 0 ==> taken(s, x) > 0,
        0 <= k < w.len(),
    ensures
        k < s.len(),
        w[k] == s[k],
    decreases k,
{
    if k > 0 {
        lemma_same_steps(s, w, k - 1);
        let x = (w[k - 1], w[k]);
        lemma_steps_taken(w, k - 1);
        assert(taken(w, x) > 0);
        let j = lemma_taken_step(s, x);
        assert(s[j] == s[k - 1]);
        assert(j == k - 1);
    }
}

/// A walk that meets no node twice is the one walk from its first node to its
/// last that takes each of its own pairs once.
pub proof fn distinct_walks_are_unique(s: Seq<Seq<u8>>, pairs: Set<Follow>, w: Seq<Seq<u8>>)
    requires
        s.len() > 0,
        s.no_duplicates(),
        forall|x: Follow| #[trigger]
            pairs.contains(x) <==> exists|i: int|
                0 <= i < s.len() - 1 && #[trigger] s[i] == x.0 && s[i + 1] == x.1,
    ensures
        euler_walk(pairs, s[0], s.last(), w) <==> w == s,
{
    assert forall|x: Follow| #[trigger] taken(s, x) == once(pairs, x) by {
        lemma_distinct_steps(s, x);
        if taken(s, x) > 0 {
            let k = lemma_taken_step(s, x);
            assert(s[k] == x.0 && s[k + 1] == x.1);
        }
        if pairs.contains(x) {
            let i = choose|i: int|
                0 <= i < s.len() - 1 && #[trigger] s[i] == x.0 && s[i + 1] == x.1;
            lemma_steps_taken(s, i);
        }
    }
    if euler_walk(pairs, s[0], s.last(), w) {
        assert forall|x: Follow| #[trigger] taken(w, x) > 0 implies taken(s, x) > 0 by {
            assert(taken(s, x) == once(pairs, x));
        }
        assert forall|k: int| 0 <= k < w.len() implies k < s.len() && #[trigger] w[k] == s[k] by {
            lemma_same_steps(s, w, k);
        }
        assert(w[w.len() - 1] == s[w.len() - 1]);
        assert(w =~= s);
    }
}

/// A pair among some that begins at a node.
fn pair_from(rest: &OrdSet<(Vec<u8>, Vec<u8>)>, node: &[u8]) -> (r: Option<usize>)
    ensures
        r matches Some(i) ==> i < rest.seq().len() && rest.seq()[i as int].0 == node@
            && rest@.contains(rest.seq()[i as int]),
        r is None ==> forall|x: Follow| #[trigger] rest@.contains(x) ==> x.0 != node@,
{
    let n: usize = rest.len();
    let ghost all = rest.seq();
    let mut i: usize = 0;
    while i < n
        invariant
            i <= n,
            n == all.len(),
            all == rest.seq(),
            forall|j: int| 0 <= j < i ==> (#[trigger] all[j]).0 != node@,
        decreases n - i,
    {
        let x = rest.at(i);
        proof {
            assert(all[i as int] == (x.0@, x.1@));
        }
        if same_bytes(x.0.as_slice(), node) {
            return Some(i);
        }
        i = i + 1;
    }
    proof {
        assert forall|x: Follow| #[trigger] rest@.contains(x) implies x.0 != node@ by {
            assert(all.to_set().contains(x));
            let j = choose|j: int| 0 <= j < all.len() && all[j] == x;
            assert(all[j].0 != node@);
        }
    }
    None
}

/// A trail from a node through pairs that are left, until it is stuck.
fn trail_from(rest: &mut OrdSet<(Vec<u8>, Vec<u8>)>, node: &[u8]) -> (r: Vec<Vec<u8>>)
    ensures
        r@.len() > 0,
        views(r@)[0] == node@,
        forall|x: Follow|
            #![trigger once(old(rest)@, x)]
            taken(views(r@), x) + once(final(rest)@, x) == once(old(rest)@, x),
        forall|x: Follow| #[trigger] final(rest)@.contains(x) ==> x.0 != views(r@).last(),
        final(rest)@.finite(),
        old(rest)@.finite(),
        final(rest)@.len() <= old(rest)@.len(),
        (exists|x: Follow| #[trigger] old(rest)@.contains(x) && x.0 == node@) ==> final(rest)@.len()
            < old(rest)@.len(),
{
    let ghost all = rest@;
    let mut walk: Vec<Vec<u8>> = Vec::new();
    walk.push(copy_bytes(node));
    proof {
        assert(views(walk@) =~= seq![node@]);
    }
    let mut stuck = rest.len() == 0;
    proof {
        if stuck {
            assert(all =~= Set::empty());
        }
    }
    while !stuck
        invariant
            walk@.len() > 0,
            views(walk@)[0] == node@,
            all.finite(),
            rest@.finite(),
            rest@.len() <= all.len(),
            all == old(rest)@,
            rest@.len() == all.len() ==> walk@.len() == 1 && rest@ == all,
            forall|x: Follow|
                #![trigger once(all, x)]
                taken(views(walk@), x) + once(rest@, x) == once(all, x),
            stuck ==> forall|x: Follow| #[trigger]
                rest@.contains(x) ==> x.0 != views(walk@).last(),
        decreases
                rest@.len(),
                if stuck {
                    0int
                } else {
                    1int
                },
    {
        let last: usize = walk.len() - 1;
        let ghost wv = views(walk@);
        proof {
            assert(wv.last() == walk@[last as int]@);
        }
        match pair_from(rest, walk[last].as_slice()) {
            Some(i) => {
                let x = rest.at(i);
                let next = copy_bytes(x.1.as_slice());
                let from = copy_bytes(x.0.as_slice());
                let ghost s = (from@, next@);
                let edge = (from, copy_bytes(next.as_slice()));
                let ghost before = rest@;
                rest.remove(&edge);
                walk.push(next);
                proof {
                    let now = views(walk@);
                    assert(now =~= wv.push(s.1));
                    assert(now.drop_last() =~= wv);
                    assert forall|y: Follow|
                        #![trigger once(all, y)]
                        taken(now, y) + once(rest@, y) == once(all, y) by {
                        assert(taken(wv, y) + once(before, y) == once(all, y));
                    }
                }
            },
            None => {
                stuck = true;
            },
        }
    }
    proof {
        if (exists|x: Follow| #[trigger] all.contains(x) && x.0 == node@) && rest@.len()
            == all.len() {
            let x = choose|x: Follow| #[trigger] all.contains(x) && x.0 == node@;
            assert(rest@.contains(x));
            assert(views(walk@).last() == views(walk@)[0]);
        }
    }
    walk
}

/// The place of a node in a walk at which a pair that is left begins.
fn place_of_more(rest: &OrdSet<(Vec<u8>, Vec<u8>)>, walk: &Vec<Vec<u8>>) -> (r: Option<usize>)
    ensures
        r matches Some(i) ==> i < walk@.len() && exists|x: Follow| #[trigger]
            rest@.contains(x) && x.0 == walk@[i as int]@,
        r is None ==> forall|x: Follow| #[trigger] rest@.contains(x) ==> !views(walk@).contains(x.0),
{
    let ghost wv = views(walk@);
    let mut nodes: OrdSet<Vec<u8>> = OrdSet::new();
    let mut i: usize = 0;
    proof {
        assert(nodes@ =~= wv.take(0).to_set());
    }
    while i < walk.len()
        invariant
            i <= walk@.len(),
            wv == views(walk@),
            nodes@ == wv.take(i as int).to_set(),
        decreases walk@.len() - i,
    {
        nodes.insert(copy_bytes(walk[i].as_slice()));
        proof {
            crate::collections::lemma_take_step(wv, i as int);
        }
        i = i + 1;
    }
    proof {
        assert(wv.take(i as int) =~= wv);
    }
    let n: usize = rest.len();
    let ghost all = rest.seq();
    let mut k: usize = 0;
    while k < n
        invariant
            k <= n,
            n == all.len(),
            all == rest.seq(),
            wv == views(walk@),
            nodes@ == wv.to_set(),
            forall|j: int| 0 <= j < k ==> !wv.contains((#[trigger] all[j]).0),
        decreases n - k,
    {
        let x = rest.at(k);
        proof {
            assert(all[k as int] == (x.0@, x.1@));
        }
        if nodes.contains(&x.0) {
            let mut j: usize = 0;
            while j < walk.len()
                invariant
                    j <= walk@.len(),
                    wv == views(walk@),
                    wv.contains(x.0@),
                    rest@.contains((x.0@, x.1@)),
                    forall|m: int| 0 <= m < j ==> #[trigger] wv[m] != x.0@,
                decreases walk@.len() - j,
            {
                proof {
                    assert(wv[j as int] == walk@[j as int]@);
                }
                if same_bytes(walk[j].as_slice(), x.0.as_slice()) {
                    return Some(j);
                }
                j = j + 1;
            }
        }
        k = k + 1;
    }
    proof {
        assert forall|x: Follow| #[trigger] rest@.contains(x) implies !wv.contains(x.0) by {
            assert(all.to_set().contains(x));
            let j = choose|j: int| 0 <= j < all.len() && all[j] == x;
            assert(!wv.contains(all[j].0));
        }
    }
    None
}

/// A walk with a closed trail spliced in at a place.
fn splice(walk: &Vec<Vec<u8>>, i: usize, circuit: &Vec<Vec<u8>>) -> (r: Vec<Vec<u8>>)
    requires
        i < walk@.len(),
        circuit@.len() > 0,
        views(circuit@)[0] == views(walk@)[i as int],
        views(circuit@).last() == views(walk@)[i as int],
    ensures
        r@.len() > 0,
        views(r@)[0] == views(walk@)[0],
        views(r@).last() == views(walk@).last(),
        forall|x: Follow|
            #![trigger taken(views(r@), x)]
            taken(views(r@), x) == taken(views(walk@), x) + taken(views(circuit@), x),
{
    let ghost wv = views(walk@);
    let ghost cv = views(circuit@);
    let n: usize = walk.len();
    let mut r: Vec<Vec<u8>> = Vec::new();
    let mut k: usize = 0;
    proof {
        assert(views(r@) =~= wv.take(0));
    }
    while k < i
        invariant
            k <= i,
            i < walk@.len(),
            wv == views(walk@),
            views(r@) == wv.take(k as int),
        decreases i - k,
    {
        let ghost now = views(r@);
        r.push(copy_bytes(walk[k].as_slice()));
        proof {
            assert(views(r@) =~= now.push(wv[k as int]));
            crate::collections::lemma_take_step(wv, k as int);
        }
        k = k + 1;
    }
    let mut j: usize = 0;
    proof {
        assert(views(r@) =~= wv.take(i as int) + cv.take(0));
    }
    while j < circuit.len()
        invariant
            j <= circuit@.len(),
            cv == views(circuit@),
            views(r@) == wv.take(i as int) + cv.take(j as int),
        decreases circuit@.len() - j,
    {
        let ghost now = views(r@);
        r.push(copy_bytes(circuit[j].as_slice()));
        proof {
            assert(views(r@) =~= now.push(cv[j as int]));
            crate::collections::lemma_take_step(cv, j as int);
            assert(views(r@) =~= wv.take(i as int) + cv.take(j + 1));
        }
        j = j + 1;
    }
    k = i + 1;
    proof {
        assert(cv.take(j as int) =~= cv);
        assert(views(r@) =~= wv.take(i as int) + cv + wv.subrange(i + 1, i + 1));
    }
    while k < n
        invariant
            n == walk@.len(),
            i < k <= n,
            wv == views(walk@),
            views(r@) == wv.take(i as int) + cv + wv.subrange(i + 1, k as int),
        decreases n - k,
    {
        let ghost now = views(r@);
        r.push(copy_bytes(walk[k].as_slice()));
        proof {
            assert(views(r@) =~= now.push(wv[k as int]));
            assert(wv.subrange(i + 1, k + 1) =~= wv.subrange(i + 1, k as int).push(wv[k as int]));
            assert(views(r@) =~= wv.take(i as int) + cv + wv.subrange(i + 1, k + 1));
        }
        k = k + 1;
    }
    proof {
        let head = wv.take(i + 1);
        let tail = wv.skip(i as int);
        let mid = head + cv.drop_first();
        let rv = views(r@);
        assert(head.last() == wv[i as int]);
        assert(tail[0] == wv[i as int]);
        assert(mid.last() == cv.last()) by {
            if cv.len() == 1 {
                assert(mid =~= head);
            }
        }
        assert(rv =~= mid + tail.drop_first());
        assert(wv =~= head + tail.drop_first());
        assert(rv.last() == wv.last()) by {
            assert(tail.last() == wv.last());
            if tail.len() == 1 {
                assert(rv =~= mid);
            }
        }
        assert(rv[0] == wv[0]) by {
            assert(head[0] == wv[0]);
        }
        assert forall|x: Follow|
            #![trigger taken(rv, x)]
            taken(rv, x) == taken(wv, x) + taken(cv, x) by {
            lemma_taken_joined(head, cv, x);
            lemma_taken_joined(mid, tail, x);
            lemma_taken_joined(head, tail, x);
        }
    }
    r
}

/// The distinct pairs of a list.
fn distinct_pairs(pairs: &[(Vec<u8>, Vec<u8>)]) -> (r: OrdSet<(Vec<u8>, Vec<u8>)>)
    ensures
        r@ == follow_views(pairs@).to_set(),
{
    let ghost all = follow_views(pairs@);
    let mut set: OrdSet<(Vec<u8>, Vec<u8>)> = OrdSet::new();
    let mut i: usize = 0;
    proof {
        assert(set@ =~= all.take(0).to_set());
    }
    while i < pairs.len()
        invariant
            i <= pairs@.len(),
            all == follow_views(pairs@),
            set@ == all.take(i as int).to_set(),
        decreases pairs@.len() - i,
    {
        set.insert((copy_bytes(pairs[i].0.as_slice()), copy_bytes(pairs[i].1.as_slice())));
        proof {
            crate::collections::lemma_take_step(all, i as int);
        }
        i = i + 1;
    }
    proof {
        assert(all.take(i as int) =~= all);
    }
    set
}

/// Finds a walk from one node to another that takes every pair once; `None`
/// where there is no such walk.
pub fn find_euler_walk(pairs: &[(Vec<u8>, Vec<u8>)], start: &[u8], end: &[u8]) -> (r: Option<
    Vec<Vec<u8>>,
>)
    ensures
        r is Some <==> walkable(follow_views(pairs@).to_set(), start@, end@),
        r matches Some(w) ==> euler_walk(follow_views(pairs@).to_set(), start@, end@, views(w@)),
{
    let ghost all = follow_views(pairs@).to_set();
    let ghost whole = choose|w: Seq<Seq<u8>>| euler_walk(all, start@, end@, w);
    let mut rest = distinct_pairs(pairs);
    let mut walk = trail_from(&mut rest, start);
    let last: usize = walk.len() - 1;
    proof {
        assert(views(walk@).last() == walk@[last as int]@);
    }
    if !same_bytes(walk[last].as_slice(), end) {
        proof {
            if walkable(all, start@, end@) {
                let p = seq![start@];
                assert forall|x: Follow|
                    #![trigger once(all, x)]
                    taken(p, x) + taken(views(walk@), x) <= once(all, x) && (x.0 == views(
                        walk@,
                    ).last() ==> taken(p, x) + taken(views(walk@), x) == once(all, x)) by {}
                lemma_stuck(all, start@, end@, whole, p, views(walk@));
            }
        }
        return None;
    }
    let mut done = false;
    while !done
        invariant
            all == follow_views(pairs@).to_set(),
            whole == (choose|w: Seq<Seq<u8>>| euler_walk(all, start@, end@, w)),
            walk@.len() > 0,
            views(walk@)[0] == start@,
            views(walk@).last() == end@,
            rest@.finite(),
            forall|x: Follow|
                #![trigger once(all, x)]
                taken(views(walk@), x) + once(rest@, x) == once(all, x),
            done ==> forall|x: Follow| #[trigger]
                rest@.contains(x) ==> !views(walk@).contains(x.0),
        decreases
                rest@.len(),
                if done {
                    0int
                } else {
                    1int
                },
    {
        match place_of_more(&rest, &walk) {
            Some(i) => {
                let ghost before = rest@;
                let ghost wv = views(walk@);
                let circuit = trail_from(&mut rest, walk[i].as_slice());
                let ghost cv = views(circuit@);
                let tip: usize = circuit.len() - 1;
                proof {
                    assert(cv.last() == circuit@[tip as int]@);
                    assert(wv[i as int] == walk@[i as int]@);
                    assert forall|x: Follow|
                        #![trigger once(all, x)]
                        taken(wv, x) + taken(cv, x) + once(rest@, x) == once(all, x) by {
                        assert(taken(cv, x) + once(rest@, x) == once(before, x));
                    }
                }
                if !same_bytes(circuit[tip].as_slice(), walk[i].as_slice()) {
                    proof {
                        if walkable(all, start@, end@) {
                            assert forall|x: Follow|
                                #![trigger once(all, x)]
                                taken(wv, x) + taken(cv, x) <= once(all, x) && (x.0 == cv.last()
                                    ==> taken(wv, x) + taken(cv, x) == once(all, x)) by {
                                assert(taken(wv, x) + taken(cv, x) + once(rest@, x) == once(
                                    all,
                                    x,
                                ));
                            }
                            lemma_stuck(all, start@, end@, whole, wv, cv);
                        }
                    }
                    return None;
                }
                walk = splice(&walk, i, &circuit);
                proof {
                    assert forall|x: Follow|
                        #![trigger once(all, x)]
                        taken(views(walk@), x) + once(rest@, x) == once(all, x) by {
                        assert(taken(views(walk@), x) == taken(wv, x) + taken(cv, x));
                        assert(taken(wv, x) + taken(cv, x) + once(rest@, x) == once(all, x));
                    }
                }
            },
            None => {
                done = true;
            },
        }
    }
    if rest.len() > 0 {
        proof {
            if walkable(all, start@, end@) {
                let x = rest.seq()[0];
                assert(rest.seq().to_set().contains(x));
                assert(taken(views(walk@), x) + once(rest@, x) == once(all, x));
                assert(taken(whole, x) == once(all, x));
                let k = lemma_taken_step(whole, x);
                lemma_nothing_left(all, start@, end@, whole, views(walk@), rest@, k);
            }
        }
        return None;
    }
    proof {
        assert forall|x: Follow| #[trigger] taken(views(walk@), x) == once(all, x) by {
            assert(taken(views(walk@), x) + once(rest@, x) == once(all, x));
        }
        assert(euler_walk(all, start@, end@, views(walk@)));
    }
    Some(walk)
}

proof fn lemma_taken_twice(walk: Seq<Seq<u8>>, i: int, j: int)
    requires
        0 <= i < j < walk.len() - 1,
        (walk[i], walk[i + 1]) == (walk[j], walk[j + 1]),
    ensures
        taken(walk, (walk[j], walk[j + 1])) >= 2,
    decreases walk.len(),
{
    let front = walk.drop_last();
    assert(front[i] == walk[i] && front[i + 1] == walk[i + 1]);
    if j < walk.len() - 2 {
        assert(front[j] == walk[j] && front[j + 1] == walk[j + 1]);
        lemma_taken_twice(front, i, j);
    } else {
        lemma_steps_taken(front, i);
    }
}

/// The pair that a walk takes at a step.
pub open spec fn pair_at(walk: Seq<Seq<u8>>, i: int) -> Follow {
    (walk[i], walk[i + 1])
}

/// A walk along every pair goes from the start to the end, takes every pair,
/// nothing but pairs, and none twice.
pub proof fn full_walks_take_every_pair_once(
    pairs: Set<Follow>,
    start: Seq<u8>,
    end: Seq<u8>,
    walk: Seq<Seq<u8>>,
)
    requires
        euler_walk(pairs, start, end, walk),
    ensures
        walk.len() > 0,
        walk[0] == start,
        walk.last() == end,
        forall|i: int| 0 <= i < walk.len() - 1 ==> pairs.contains(#[trigger] pair_at(walk, i)),
        forall|i: int, j: int|
            0 <= i < j < walk.len() - 1 ==> #[trigger] pair_at(walk, i) != #[trigger] pair_at(
                walk,
                j,
            ),
        forall|x: Follow| #[trigger]
            pairs.contains(x) ==> exists|i: int|
                0 <= i < walk.len() - 1 && #[trigger] pair_at(walk, i) == x,
{
    assert forall|i: int| 0 <= i < walk.len() - 1 implies pairs.contains(
        #[trigger] pair_at(walk, i),
    ) by {
        lemma_steps_taken(walk, i);
        assert(taken(walk, pair_at(walk, i)) == once(pairs, pair_at(walk, i)));
    }
    assert forall|i: int, j: int| 0 <= i < j < walk.len() - 1 implies #[trigger] pair_at(walk, i)
        != #[trigger] pair_at(walk, j) by {
        if pair_at(walk, i) == pair_at(walk, j) {
            lemma_taken_twice(walk, i, j);
            assert(taken(walk, pair_at(walk, j)) == once(pairs, pair_at(walk, j)));
        }
    }
    assert forall|x: Follow| #[trigger] pairs.contains(x) implies exists|i: int|
        0 <= i < walk.len() - 1 && #[trigger] pair_at(walk, i) == x by {
        assert(taken(walk, x) == once(pairs, x));
        let k = lemma_taken_step(walk, x);
        assert(pair_at(walk, k) == x);
    }
}

} // verus!
