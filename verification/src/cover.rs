//! Covering walks: complete paths that walk an edge again where they must.
//!
//! A path that walks no edge twice cannot reach every edge of a graph in which
//! triples repeat. A covering walk goes the shortest way from a start node to
//! an edge not walked yet, on along further such edges, and the shortest way
//! to an end node. Ways are found level by level, so each is a shortest one.
use vstd::prelude::*;

use crate::collections::{
    lemma_listing, lemma_listing_exists, lemma_take_step, listing, lists, vals, OrdSet,
};
use crate::debruijn::{
    at_end, distinct_paths, found_paths, found_trails, is_end, is_graph, nexts_of, starts_of,
    walked, walked_edges, Edge, Graph, Path,
};
use crate::maps::OrdMap;
use crate::matrix::first_k;
use crate::order::{copy_bytes, copy_tokens, views};
use crate::restoration::{all_complete, complete, some_path_walks, step, walks};

verus! {

/// A way for each of some nodes.
pub type Ways = Map<Seq<u8>, Path>;

/// The nodes where ways begin: start nodes forwards, end nodes backwards.
pub open spec fn seeds(edges: Set<Edge>, forward: bool) -> Ways {
    Map::new(
        |n: Seq<u8>|
            if forward {
                starts_of(edges).contains(n)
            } else {
                is_end(n) && exists|m: Seq<u8>| edges.contains((m, n))
            },
        |n: Seq<u8>| seq![n],
    )
}

/// The node of an edge at which a way arrives.
pub open spec fn near(x: Edge, forward: bool) -> Seq<u8> {
    if forward {
        x.0
    } else {
        x.1
    }
}

/// The node of an edge to which a way goes on.
pub open spec fn far(x: Edge, forward: bool) -> Seq<u8> {
    if forward {
        x.1
    } else {
        x.0
    }
}

/// A way with one more node at its far end.
pub open spec fn lengthened(p: Path, n: Seq<u8>, forward: bool) -> Path {
    if forward {
        p.push(n)
    } else {
        seq![n] + p
    }
}

/// The ways after those of `k` nodes went on along some edges, in order, to
/// nodes without a way. No way leads through an end node.
pub open spec fn swept(xs: Seq<Edge>, forward: bool, m: Ways, k: nat) -> Ways
    decreases xs.len(),
{
    if xs.len() == 0 {
        m
    } else {
        let before = swept(xs.drop_last(), forward, m, k);
        let x = xs.last();
        let a = near(x, forward);
        let b = far(x, forward);
        if before.contains_key(a) && before[a].len() == k && !is_end(x.0) && !before.contains_key(
            b,
        ) {
            before.insert(b, lengthened(before[a], b, forward))
        } else {
            before
        }
    }
}

/// A shortest way of at most `d` steps for every node that has one: from a
/// start node forwards, to an end node backwards.
pub open spec fn ways(edges: Set<Edge>, forward: bool, d: nat) -> Ways
    decreases d,
{
    if d == 0 {
        seeds(edges, forward)
    } else {
        swept(
            listing::<(Vec<u8>, Vec<u8>)>(edges),
            forward,
            ways(edges, forward, (d - 1) as nat),
            d,
        )
    }
}

/// A complete path within the depth limit leads through an edge.
pub open spec fn reachable(edges: Set<Edge>, x: Edge, max_depth: nat) -> bool {
    let to = ways(edges, true, max_depth);
    let from = ways(edges, false, max_depth);
    &&& to.contains_key(x.0)
    &&& !is_end(x.0)
    &&& from.contains_key(x.1)
    &&& to[x.0].len() + from[x.1].len() <= max_depth
}

/// A next node along an edge not walked yet, from which an end node is within
/// the depth limit.
pub open spec fn is_open(
    from: Ways,
    used: Set<Edge>,
    path: Path,
    next: Seq<u8>,
    max_depth: nat,
) -> bool {
    &&& !used.contains((path.last(), next))
    &&& from.contains_key(next)
    &&& path.len() + from[next].len() <= max_depth
}

/// The first such node among some.
pub open spec fn first_open(
    nexts: Seq<Seq<u8>>,
    from: Ways,
    used: Set<Edge>,
    path: Path,
    max_depth: nat,
) -> Option<Seq<u8>>
    decreases nexts.len(),
{
    if nexts.len() == 0 {
        None
    } else if is_open(from, used, path, nexts[0], max_depth) {
        Some(nexts[0])
    } else {
        first_open(nexts.drop_first(), from, used, path, max_depth)
    }
}

/// A path continued along edges not walked yet while there are any, and then
/// the shortest way to an end node.
pub open spec fn onward(
    edges: Set<Edge>,
    from: Ways,
    used: Set<Edge>,
    path: Path,
    max_depth: nat,
) -> Path
    decreases max_depth - path.len(),
{
    let here = path.last();
    if path.len() >= max_depth || is_end(here) {
        path + from[here].drop_first()
    } else {
        match first_open(
            listing::<Vec<u8>>(nexts_of(edges, here)),
            from,
            used,
            path,
            max_depth,
        ) {
            Some(next) => onward(
                edges,
                from,
                used.insert((here, next)),
                path.push(next),
                max_depth,
            ),
            None => path + from[here].drop_first(),
        }
    }
}

/// A walk the shortest way to an edge, through it, and on along edges that
/// neither it nor some earlier walks have walked.
pub open spec fn walk_through(edges: Set<Edge>, before: Seq<Path>, x: Edge, max_depth: nat) -> Path {
    let path = ways(edges, true, max_depth)[x.0].push(x.1);
    onward(
        edges,
        ways(edges, false, max_depth),
        walked(before.push(path), edges),
        path,
        max_depth,
    )
}

/// Walks that lead through every reachable edge among some: each goes to the
/// first edge that those before it have not walked.
pub open spec fn covering(edges: Set<Edge>, xs: Seq<Edge>, max_depth: nat) -> Seq<Path>
    decreases xs.len(),
{
    if xs.len() == 0 {
        Seq::empty()
    } else {
        let before = covering(edges, xs.drop_last(), max_depth);
        let x = xs.last();
        if walked(before, edges).contains(x) || !reachable(edges, x, max_depth) {
            before
        } else {
            before.push(walk_through(edges, before, x, max_depth))
        }
    }
}

/// Walks that lead through every reachable edge.
pub open spec fn cover(edges: Set<Edge>, max_depth: nat) -> Seq<Path> {
    covering(edges, listing::<(Vec<u8>, Vec<u8>)>(edges), max_depth)
}

/// Some paths leave out a reachable edge.
pub open spec fn left_out(edges: Set<Edge>, paths: Seq<Path>, max_depth: nat) -> bool {
    exists|x: Edge| #[trigger]
        edges.contains(x) && !walked(paths, edges).contains(x) && reachable(edges, x, max_depth)
}

/// Some paths together with others, in order, as long as there are fewer than
/// `most`.
pub open spec fn filled(kept: Set<Path>, others: Seq<Path>, most: nat) -> Set<Path>
    decreases others.len(),
{
    if others.len() == 0 {
        kept
    } else {
        let before = filled(kept, others.drop_last(), most);
        if before.len() < most {
            before.insert(others.last())
        } else {
            before
        }
    }
}

/// A way of a node.
pub open spec fn is_way(edges: Set<Edge>, forward: bool, n: Seq<u8>, p: Path) -> bool {
    &&& p.len() > 0
    &&& forall|i: int|
        0 <= i < p.len() - 1 ==> edges.contains(#[trigger] step(p, i)) && !is_end(p[i])
    &&& forward ==> starts_of(edges).contains(p[0]) && p.last() == n
    &&& !forward ==> p[0] == n && is_end(p.last())
}

proof fn lemma_lengthened(edges: Set<Edge>, forward: bool, x: Edge, p: Path)
    requires
        edges.contains(x),
        !is_end(x.0),
        is_way(edges, forward, near(x, forward), p),
    ensures
        is_way(edges, forward, far(x, forward), lengthened(p, far(x, forward), forward)),
        lengthened(p, far(x, forward), forward).len() == p.len() + 1,
{
    let b = far(x, forward);
    let q = lengthened(p, b, forward);
    assert forall|i: int| 0 <= i < q.len() - 1 implies edges.contains(#[trigger] step(q, i))
        && !is_end(q[i]) by {
        if forward {
            if i < p.len() - 1 {
                assert(step(q, i) == step(p, i));
                assert(q[i] == p[i]);
            } else {
                assert(step(q, i) == x);
            }
        } else {
            if i == 0 {
                assert(step(q, 0) == x);
            } else {
                assert(step(q, i) == step(p, i - 1));
                assert(q[i] == p[i - 1]);
            }
        }
    }
}

/// What a sweep keeps and adds.
proof fn lemma_swept(edges: Set<Edge>, xs: Seq<Edge>, forward: bool, m: Ways, k: nat)
    requires
        forall|i: int| 0 <= i < xs.len() ==> edges.contains(#[trigger] xs[i]),
        forall|n: Seq<u8>| #[trigger] m.contains_key(n) ==> is_way(edges, forward, n, m[n]),
    ensures
        ({
            let s = swept(xs, forward, m, k);
            &&& forall|n: Seq<u8>| #[trigger]
                s.contains_key(n) ==> is_way(edges, forward, n, s[n])
            &&& forall|n: Seq<u8>| #[trigger]
                m.contains_key(n) ==> s.contains_key(n) && s[n] == m[n]
            &&& forall|n: Seq<u8>|
                #![trigger s.contains_key(n)]
                s.contains_key(n) && !m.contains_key(n) ==> s[n].len() == k + 1
            &&& forall|i: int|
                0 <= i < xs.len() && m.contains_key(near(#[trigger] xs[i], forward)) && m[near(
                    xs[i],
                    forward,
                )].len() == k && !is_end(xs[i].0) ==> s.contains_key(far(xs[i], forward))
        }),
    decreases xs.len(),
{
    if xs.len() > 0 {
        let front = xs.drop_last();
        assert forall|i: int| 0 <= i < front.len() implies edges.contains(#[trigger] front[i]) by {
            assert(front[i] == xs[i]);
        }
        lemma_swept(edges, front, forward, m, k);
        let before = swept(front, forward, m, k);
        let s = swept(xs, forward, m, k);
        let x = xs.last();
        assert(x == xs[xs.len() - 1]);
        let a = near(x, forward);
        let b = far(x, forward);
        if before.contains_key(a) && before[a].len() == k && !is_end(x.0) && !before.contains_key(
            b,
        ) {
            lemma_lengthened(edges, forward, x, before[a]);
        }
        assert forall|i: int|
            0 <= i < xs.len() && m.contains_key(near(#[trigger] xs[i], forward)) && m[near(
                xs[i],
                forward,
            )].len() == k && !is_end(xs[i].0) implies s.contains_key(far(xs[i], forward)) by {
            if i < front.len() {
                assert(front[i] == xs[i]);
            }
        }
    }
}

proof fn lemma_edges_listed(edges: Set<Edge>)
    requires
        edges.finite(),
    ensures
        lists::<(Vec<u8>, Vec<u8>)>(listing::<(Vec<u8>, Vec<u8>)>(edges), edges),
        forall|i: int|
            0 <= i < listing::<(Vec<u8>, Vec<u8>)>(edges).len() ==> edges.contains(
                #[trigger] listing::<(Vec<u8>, Vec<u8>)>(edges)[i],
            ),
{
    lemma_listing_exists::<(Vec<u8>, Vec<u8>)>(edges);
    let xs = listing::<(Vec<u8>, Vec<u8>)>(edges);
    assert forall|i: int| 0 <= i < xs.len() implies edges.contains(#[trigger] xs[i]) by {
        assert(xs.to_set().contains(xs[i]));
    }
}

/// Ways are ways, of as many steps as the level on which they were found.
proof fn lemma_ways(edges: Set<Edge>, forward: bool, d: nat)
    requires
        edges.finite(),
    ensures
        forall|n: Seq<u8>| #[trigger]
            ways(edges, forward, d).contains_key(n) ==> is_way(
                edges,
                forward,
                n,
                ways(edges, forward, d)[n],
            ) && ways(edges, forward, d)[n].len() <= d + 1,
    decreases d,
{
    if d == 0 {
        let m = seeds(edges, forward);
        assert forall|n: Seq<u8>| #[trigger] m.contains_key(n) implies is_way(
            edges,
            forward,
            n,
            m[n],
        ) && m[n].len() <= 1 by {
            assert(m[n] == seq![n]);
        }
    } else {
        lemma_ways(edges, forward, (d - 1) as nat);
        lemma_edges_listed(edges);
        lemma_swept(
            edges,
            listing::<(Vec<u8>, Vec<u8>)>(edges),
            forward,
            ways(edges, forward, (d - 1) as nat),
            d,
        );
    }
}

/// A way found on some level stays.
proof fn lemma_ways_stay(edges: Set<Edge>, forward: bool, d: nat, e: nat, n: Seq<u8>)
    requires
        edges.finite(),
        d <= e,
        ways(edges, forward, d).contains_key(n),
    ensures
        ways(edges, forward, e).contains_key(n),
        ways(edges, forward, e)[n] == ways(edges, forward, d)[n],
    decreases e,
{
    if d < e {
        lemma_ways_stay(edges, forward, d, (e - 1) as nat, n);
        lemma_ways(edges, forward, (e - 1) as nat);
        lemma_edges_listed(edges);
        lemma_swept(
            edges,
            listing::<(Vec<u8>, Vec<u8>)>(edges),
            forward,
            ways(edges, forward, (e - 1) as nat),
            e,
        );
    }
}

/// A way of `l` nodes is found on level `l - 1`.
proof fn lemma_level(edges: Set<Edge>, forward: bool, d: nat, n: Seq<u8>)
    requires
        edges.finite(),
        ways(edges, forward, d).contains_key(n),
    ensures
        ({
            let l = ways(edges, forward, d)[n].len();
            &&& 1 <= l <= d + 1
            &&& ways(edges, forward, (l - 1) as nat).contains_key(n)
            &&& ways(edges, forward, (l - 1) as nat)[n] == ways(edges, forward, d)[n]
        }),
    decreases d,
{
    lemma_ways(edges, forward, d);
    if d > 0 {
        let m = ways(edges, forward, (d - 1) as nat);
        lemma_ways(edges, forward, (d - 1) as nat);
        lemma_edges_listed(edges);
        lemma_swept(edges, listing::<(Vec<u8>, Vec<u8>)>(edges), forward, m, d);
        if m.contains_key(n) {
            lemma_level(edges, forward, (d - 1) as nat, n);
        }
    }
}

/// A way goes on along every edge.
proof fn lemma_goes_on(edges: Set<Edge>, forward: bool, d: nat, x: Edge)
    requires
        edges.finite(),
        edges.contains(x),
        !is_end(x.0),
        ways(edges, forward, d).contains_key(near(x, forward)),
    ensures
        ways(edges, forward, d + 1).contains_key(far(x, forward)),
{
    let a = near(x, forward);
    lemma_level(edges, forward, d, a);
    let l = ways(edges, forward, d)[a].len();
    let m = ways(edges, forward, (l - 1) as nat);
    let xs = listing::<(Vec<u8>, Vec<u8>)>(edges);
    lemma_ways(edges, forward, (l - 1) as nat);
    lemma_edges_listed(edges);
    lemma_swept(edges, xs, forward, m, l);
    assert(xs.to_set().contains(x));
    let i = choose|i: int| 0 <= i < xs.len() && xs[i] == x;
    assert(m.contains_key(near(xs[i], forward)));
    assert(ways(edges, forward, l).contains_key(far(x, forward)));
    lemma_ways_stay(edges, forward, l, d + 1, far(x, forward));
}

proof fn lemma_ways_along(edges: Set<Edge>, p: Path, max_depth: nat, j: int)
    requires
        edges.finite(),
        complete(edges, p, max_depth),
        0 <= j < p.len(),
    ensures
        ways(edges, true, j as nat).contains_key(p[j]),
    decreases j,
{
    if j > 0 {
        lemma_ways_along(edges, p, max_depth, j - 1);
        assert(edges.contains(step(p, j - 1)));
        assert(!is_end(p[j - 1]));
        lemma_goes_on(edges, true, (j - 1) as nat, step(p, j - 1));
    }
}

proof fn lemma_ways_back(edges: Set<Edge>, p: Path, max_depth: nat, k: nat)
    requires
        edges.finite(),
        complete(edges, p, max_depth),
        k < p.len() - 1,
    ensures
        ways(edges, false, k).contains_key(p[p.len() - 1 - k]),
    decreases k,
{
    let j = p.len() - 1 - k;
    if k == 0 {
        assert(edges.contains(step(p, j - 1)));
        assert(edges.contains((p[j - 1], p[j])));
    } else {
        lemma_ways_back(edges, p, max_depth, (k - 1) as nat);
        assert(edges.contains(step(p, j)));
        assert(!is_end(p[j]));
        lemma_goes_on(edges, false, (k - 1) as nat, step(p, j));
    }
}

/// Every edge that a complete path walks is reachable.
pub proof fn lemma_reachable(edges: Set<Edge>, p: Path, max_depth: nat, x: Edge)
    requires
        edges.finite(),
        complete(edges, p, max_depth),
        walks(p, x),
    ensures
        reachable(edges, x, max_depth),
{
    let j = choose|j: int| 0 <= j < p.len() - 1 && #[trigger] step(p, j) == x;
    let k = (p.len() - 2 - j) as nat;
    assert(!is_end(p[j]));
    lemma_ways_along(edges, p, max_depth, j);
    lemma_ways_back(edges, p, max_depth, k);
    lemma_ways(edges, true, j as nat);
    lemma_ways(edges, false, k);
    lemma_ways_stay(edges, true, j as nat, max_depth, x.0);
    lemma_ways_stay(edges, false, k, max_depth, x.1);
}

proof fn lemma_first_open(
    nexts: Seq<Seq<u8>>,
    from: Ways,
    used: Set<Edge>,
    path: Path,
    max_depth: nat,
)
    ensures
        first_open(nexts, from, used, path, max_depth) matches Some(n) ==> nexts.contains(n)
            && is_open(from, used, path, n, max_depth),
    decreases nexts.len(),
{
    if nexts.len() > 0 && !is_open(from, used, path, nexts[0], max_depth) {
        let rest = nexts.drop_first();
        lemma_first_open(rest, from, used, path, max_depth);
        if let Some(n) = first_open(rest, from, used, path, max_depth) {
            let i = choose|i: int| 0 <= i < rest.len() && rest[i] == n;
            assert(nexts[i + 1] == n);
        }
    }
}

proof fn lemma_nexts_listed(edges: Set<Edge>, here: Seq<u8>)
    requires
        edges.finite(),
    ensures
        lists::<Vec<u8>>(listing::<Vec<u8>>(nexts_of(edges, here)), nexts_of(edges, here)),
{
    let f = |x: Edge| x.1;
    let img = edges.map(f);
    edges.lemma_map_finite(f);
    assert forall|n: Seq<u8>| nexts_of(edges, here).contains(n) implies img.contains(n) by {
        assert(edges.contains((here, n)) && f((here, n)) == n);
    }
    vstd::set_lib::lemma_set_subset_finite(img, nexts_of(edges, here));
    lemma_listing_exists::<Vec<u8>>(nexts_of(edges, here));
}

/// Going on from the beginning of a walk gives a complete path that begins
/// with it.
proof fn lemma_onward(edges: Set<Edge>, used: Set<Edge>, path: Path, max_depth: nat)
    requires
        edges.finite(),
        is_way(edges, true, path.last(), path),
        ways(edges, false, max_depth).contains_key(path.last()),
        path.len() - 1 + ways(edges, false, max_depth)[path.last()].len() <= max_depth,
    ensures
        ({
            let r = onward(edges, ways(edges, false, max_depth), used, path, max_depth);
            &&& complete(edges, r, max_depth)
            &&& r.len() >= path.len()
            &&& forall|i: int| 0 <= i < path.len() ==> #[trigger] r[i] == path[i]
        }),
    decreases max_depth - path.len(),
{
    let from = ways(edges, false, max_depth);
    let here = path.last();
    let r = onward(edges, from, used, path, max_depth);
    lemma_ways(edges, false, max_depth);
    let nexts = listing::<Vec<u8>>(nexts_of(edges, here));
    let open = first_open(nexts, from, used, path, max_depth);
    if !(path.len() >= max_depth || is_end(here)) && open is Some {
        let next = open->0;
        lemma_first_open(nexts, from, used, path, max_depth);
        lemma_nexts_listed(edges, here);
        assert(nexts.to_set().contains(next));
        assert(edges.contains((here, next)));
        lemma_lengthened(edges, true, (here, next), path);
        let more = path.push(next);
        lemma_onward(edges, used.insert((here, next)), more, max_depth);
        assert forall|i: int| 0 <= i < path.len() implies #[trigger] r[i] == path[i] by {
            assert(r[i] == more[i]);
        }
    } else {
        lemma_ending(edges, path, from[here], max_depth);
    }
}

/// A way from a start node and one to an end node make a complete path.
proof fn lemma_ending(edges: Set<Edge>, path: Path, tail: Path, max_depth: nat)
    requires
        is_way(edges, true, path.last(), path),
        is_way(edges, false, path.last(), tail),
        path.len() - 1 + tail.len() <= max_depth,
    ensures
        complete(edges, path + tail.drop_first(), max_depth),
{
    let r = path + tail.drop_first();
    let n = path.len();
    assert forall|i: int| 0 <= i < r.len() - 1 implies edges.contains(#[trigger] step(r, i))
        && !is_end(r[i]) by {
        if i < n - 1 {
            assert(step(r, i) == step(path, i));
            assert(r[i] == path[i]);
        } else {
            if i == n - 1 {
                assert(r[i] == path.last());
            }
            assert(r[i] == tail[i - n + 1]);
            assert(r[i + 1] == tail[i - n + 2]);
            assert(step(r, i) == step(tail, i - n + 1));
        }
    }
    assert(r[0] == path[0]);
    assert(r.last() == tail.last()) by {
        if tail.len() == 1 {
            assert(r =~= path);
        } else {
            assert(r[r.len() - 1] == tail[tail.len() - 1]);
        }
    }
    assert forall|i: int| 0 <= i < r.len() - 1 implies !is_end(#[trigger] r[i]) by {
        assert(edges.contains(step(r, i)));
    }
}

/// An edge is among those walked where one of the paths walks it.
pub proof fn lemma_walked(paths: Seq<Path>, edges: Set<Edge>, x: Edge)
    ensures
        walked(paths, edges).contains(x) <==> edges.contains(x) && some_path_walks(paths, x),
{
    if walked(paths, edges).contains(x) {
        let (i, j) = choose|i: int, j: int|
            0 <= i < paths.len() && 0 <= j < paths[i].len() - 1 && x == (
                #[trigger] paths[i][j],
                paths[i][j + 1],
            );
        assert(step(paths[i], j) == x);
        assert(walks(paths[i], x));
    }
    if edges.contains(x) && some_path_walks(paths, x) {
        let i = choose|i: int| 0 <= i < paths.len() && walks(#[trigger] paths[i], x);
        let j = choose|j: int| 0 <= j < paths[i].len() - 1 && #[trigger] step(paths[i], j) == x;
        assert(x == (paths[i][j], paths[i][j + 1]));
    }
}

proof fn lemma_walk_through(edges: Set<Edge>, before: Seq<Path>, x: Edge, max_depth: nat)
    requires
        edges.finite(),
        edges.contains(x),
        reachable(edges, x, max_depth),
    ensures
        complete(edges, walk_through(edges, before, x, max_depth), max_depth),
        walks(walk_through(edges, before, x, max_depth), x),
{
    let to = ways(edges, true, max_depth);
    let path = to[x.0].push(x.1);
    lemma_ways(edges, true, max_depth);
    lemma_lengthened(edges, true, x, to[x.0]);
    lemma_onward(edges, walked(before.push(path), edges), path, max_depth);
    let new = walk_through(edges, before, x, max_depth);
    let j = path.len() - 2;
    assert(new[j] == path[j] && new[j + 1] == path[j + 1]);
    assert(step(new, j) == x);
}

/// Covering walks are complete, at most one for each edge, and lead through
/// every reachable edge.
pub proof fn lemma_covering(edges: Set<Edge>, xs: Seq<Edge>, max_depth: nat)
    requires
        edges.finite(),
        forall|i: int| 0 <= i < xs.len() ==> edges.contains(#[trigger] xs[i]),
    ensures
        all_complete(edges, covering(edges, xs, max_depth), max_depth),
        covering(edges, xs, max_depth).len() <= xs.len(),
        forall|i: int|
            0 <= i < xs.len() && reachable(edges, #[trigger] xs[i], max_depth)
                ==> some_path_walks(covering(edges, xs, max_depth), xs[i]),
    decreases xs.len(),
{
    if xs.len() > 0 {
        let front = xs.drop_last();
        assert forall|i: int| 0 <= i < front.len() implies edges.contains(#[trigger] front[i]) by {
            assert(front[i] == xs[i]);
        }
        lemma_covering(edges, front, max_depth);
        let before = covering(edges, front, max_depth);
        let now = covering(edges, xs, max_depth);
        let x = xs[xs.len() - 1];
        lemma_walked(before, edges, x);
        if !walked(before, edges).contains(x) && reachable(edges, x, max_depth) {
            let new = walk_through(edges, before, x, max_depth);
            lemma_walk_through(edges, before, x, max_depth);
            assert(now[now.len() - 1] == new);
            assert(some_path_walks(now, x));
        }
        assert forall|i: int| 0 <= i < now.len() implies complete(
            edges,
            #[trigger] now[i],
            max_depth,
        ) by {
            if i < before.len() {
                assert(now[i] == before[i]);
            }
        }
        assert forall|i: int|
            0 <= i < xs.len() && reachable(
                edges,
                #[trigger] xs[i],
                max_depth,
            ) implies some_path_walks(now, xs[i]) by {
            if i < front.len() {
                assert(front[i] == xs[i]);
                assert(some_path_walks(before, xs[i]));
                let m = choose|m: int| 0 <= m < before.len() && walks(#[trigger] before[m], xs[i]);
                assert(now[m] == before[m]);
            }
        }
    }
}

/// Where there is but one complete path, one walk covers its edges.
proof fn lemma_single_cover(edges: Set<Edge>, xs: Seq<Edge>, max_depth: nat, only: Path)
    requires
        edges.finite(),
        forall|i: int| 0 <= i < xs.len() ==> edges.contains(#[trigger] xs[i]),
        forall|q: Path| #[trigger] complete(edges, q, max_depth) ==> q == only,
    ensures
        covering(edges, xs, max_depth).len() <= 1,
    decreases xs.len(),
{
    if xs.len() > 0 {
        let front = xs.drop_last();
        assert forall|i: int| 0 <= i < front.len() implies edges.contains(#[trigger] front[i]) by {
            assert(front[i] == xs[i]);
        }
        lemma_single_cover(edges, front, max_depth, only);
        lemma_covering(edges, front, max_depth);
        let before = covering(edges, front, max_depth);
        let x = xs.last();
        assert(x == xs[xs.len() - 1]);
        if before.len() == 1 && reachable(edges, x, max_depth) {
            lemma_walk_through(edges, before, x, max_depth);
            assert(walks(only, x));
            assert(before[0] == only);
            assert(some_path_walks(before, x));
            lemma_walked(before, edges, x);
        }
    }
}

/// Where there is but one complete path, there is at most one covering walk.
pub proof fn one_walk_covers_one_path(edges: Set<Edge>, max_depth: nat, only: Path)
    requires
        edges.finite(),
        forall|q: Path| #[trigger] complete(edges, q, max_depth) ==> q == only,
    ensures
        cover(edges, max_depth).len() <= 1,
{
    lemma_edges_listed(edges);
    lemma_single_cover(edges, listing::<(Vec<u8>, Vec<u8>)>(edges), max_depth, only);
}

/// The walks of a cover are complete, no more than there are edges, and lead
/// through every reachable edge.
pub proof fn covers_are_complete(edges: Set<Edge>, max_depth: nat)
    requires
        edges.finite(),
    ensures
        all_complete(edges, cover(edges, max_depth), max_depth),
        cover(edges, max_depth).len() <= edges.len(),
        forall|x: Edge| #[trigger]
            edges.contains(x) && reachable(edges, x, max_depth) ==> some_path_walks(
                cover(edges, max_depth),
                x,
            ),
{
    let xs = listing::<(Vec<u8>, Vec<u8>)>(edges);
    lemma_edges_listed(edges);
    lemma_covering(edges, xs, max_depth);
    crate::collections::lemma_ascending_distinct::<(Vec<u8>, Vec<u8>)>(xs);
    xs.unique_seq_to_set();
    assert forall|x: Edge| #[trigger]
        edges.contains(x) && reachable(edges, x, max_depth) implies some_path_walks(
        cover(edges, max_depth),
        x,
    ) by {
        assert(xs.to_set().contains(x));
        let i = choose|i: int| 0 <= i < xs.len() && xs[i] == x;
        assert(reachable(edges, xs[i], max_depth));
    }
}

/// Filling keeps what there is, adds only from the others, all of them while
/// there is room, and stays within the limit.
pub proof fn lemma_filled(kept: Set<Path>, others: Seq<Path>, most: nat)
    requires
        kept.finite(),
        kept.len() <= most,
    ensures
        ({
            let s = filled(kept, others, most);
            &&& s.finite()
            &&& s.len() <= most
            &&& kept.subset_of(s)
            &&& forall|p: Path| #[trigger] s.contains(p) ==> kept.contains(p) || others.contains(p)
            &&& s.len() < most ==> forall|p: Path| #[trigger] others.contains(p) ==> s.contains(p)
        }),
    decreases others.len(),
{
    if others.len() > 0 {
        let front = others.drop_last();
        lemma_filled(kept, front, most);
        let before = filled(kept, front, most);
        let s = filled(kept, others, most);
        assert(others[others.len() - 1] == others.last());
        assert forall|p: Path| #[trigger] s.contains(p) implies kept.contains(p)
            || others.contains(p) by {
            if before.contains(p) && !kept.contains(p) {
                let i = choose|i: int| 0 <= i < front.len() && front[i] == p;
                assert(others[i] == p);
            }
        }
        if s.len() < most {
            assert(before.len() <= s.len()) by {
                vstd::set_lib::lemma_len_subset(before, s);
            }
            assert forall|p: Path| #[trigger] others.contains(p) implies s.contains(p) by {
                let i = choose|i: int| 0 <= i < others.len() && others[i] == p;
                if i < front.len() {
                    assert(front[i] == p);
                    assert(front.contains(p));
                }
            }
        }
    }
}

/// The edges of a graph, ascending.
fn edge_list(graph: &Graph, Ghost(edges): Ghost<Set<Edge>>) -> (r: Vec<(Vec<u8>, Vec<u8>)>)
    requires
        is_graph(graph@, edges),
    ensures
        lists::<(Vec<u8>, Vec<u8>)>(vals(r@), edges),
        edges.finite(),
{
    let n: usize = graph.len();
    let ghost keys = graph.keys();
    let mut set: OrdSet<(Vec<u8>, Vec<u8>)> = OrdSet::new();
    let mut i: usize = 0;
    while i < n
        invariant
            i <= n,
            n == keys.len(),
            keys == graph.keys(),
            graph.listed(),
            is_graph(graph@, edges),
            forall|x: Edge| #[trigger]
                set@.contains(x) <==> edges.contains(x) && keys.take(i as int).contains(x.0),
        decreases n - i,
    {
        let node = graph.key_at(i);
        let nexts = graph.val_at(i);
        let m: usize = nexts.len();
        let ghost all = nexts.seq();
        let ghost before = set@;
        let mut j: usize = 0;
        while j < m
            invariant
                j <= m,
                m == all.len(),
                all == nexts.seq(),
                node@ == keys[i as int],
                forall|x: Edge| #[trigger]
                    set@.contains(x) <==> before.contains(x) || (x.0 == node@ && all.take(
                        j as int,
                    ).contains(x.1)),
            decreases m - j,
        {
            let next = nexts.at(j);
            set.insert((copy_bytes(node.as_slice()), copy_bytes(next.as_slice())));
            proof {
                lemma_take_step(all, j as int);
                assert forall|x: Edge| #[trigger] set@.contains(x) <==> before.contains(x) || (x.0
                    == node@ && all.take(j + 1).contains(x.1)) by {
                    assert(all.take(j + 1).to_set().contains(x.1) == all.take(j + 1).contains(x.1));
                    assert(all.take(j as int).to_set().contains(x.1) == all.take(
                        j as int,
                    ).contains(x.1));
                }
            }
            j = j + 1;
        }
        proof {
            lemma_take_step(keys, i as int);
            assert(all.take(j as int) =~= all);
            assert(graph@.contains_key(keys[i as int]));
            assert forall|x: Edge| #[trigger] set@.contains(x) <==> edges.contains(x) && keys.take(
                i + 1,
            ).contains(x.0) by {
                assert(all.to_set().contains(x.1) == all.contains(x.1));
                assert(nexts_of(edges, node@).contains(x.1) == edges.contains((node@, x.1)));
                assert(keys.take(i + 1).to_set().contains(x.0) == keys.take(i + 1).contains(x.0));
                assert(keys.take(i as int).to_set().contains(x.0) == keys.take(i as int).contains(
                    x.0,
                ));
            }
        }
        i = i + 1;
    }
    proof {
        assert(keys.take(i as int) =~= keys);
        assert forall|x: Edge| set@.contains(x) == edges.contains(x) by {
            if edges.contains(x) {
                assert(graph@.contains_key(x.0));
                assert(keys.to_set().contains(x.0));
            }
        }
        assert(set@ =~= edges);
    }
    let count: usize = set.len();
    set.to_vec()
}

/// Ways by node.
type WayMap = OrdMap<Vec<u8>, Vec<Vec<u8>>>;

/// The ways that a map holds.
spec fn held_ways(m: Map<Seq<u8>, Vec<Vec<u8>>>) -> Ways {
    m.map_values(|p: Vec<Vec<u8>>| views(p@))
}

/// A way with one more node at its far end.
fn lengthen(p: &Vec<Vec<u8>>, n: &Vec<u8>, forward: bool) -> (r: Vec<Vec<u8>>)
    ensures
        views(r@) == lengthened(views(p@), n@, forward),
{
    if forward {
        let mut r = copy_tokens(p.as_slice());
        let ghost before = r@;
        r.push(copy_bytes(n.as_slice()));
        proof {
            assert(views(r@) =~= views(before).push(n@));
        }
        r
    } else {
        let mut r: Vec<Vec<u8>> = Vec::new();
        r.push(copy_bytes(n.as_slice()));
        let mut rest = copy_tokens(p.as_slice());
        let ghost tail = views(rest@);
        r.append(&mut rest);
        proof {
            assert(views(r@) =~= seq![n@] + tail);
        }
        r
    }
}

/// Lets the ways of `k` nodes go on; tells whether one did.
fn sweep(xs: &Vec<(Vec<u8>, Vec<u8>)>, forward: bool, m: &mut WayMap, k: usize) -> (r: bool)
    ensures
        held_ways(final(m)@) == swept(vals(xs@), forward, held_ways(old(m)@), k as nat),
        !r ==> held_ways(final(m)@) == held_ways(old(m)@),
{
    let ghost all = vals(xs@);
    let ghost start = held_ways(m@);
    let mut changed = false;
    let mut i: usize = 0;
    proof {
        assert(all.take(0) =~= Seq::empty());
    }
    while i < xs.len()
        invariant
            i <= xs@.len(),
            all == vals(xs@),
            held_ways(m@) == swept(all.take(i as int), forward, start, k as nat),
            !changed ==> held_ways(m@) == start,
        decreases xs@.len() - i,
    {
        let x = &xs[i];
        let ghost e = all[i as int];
        let ghost before = held_ways(m@);
        proof {
            assert(all.take(i + 1).drop_last() =~= all.take(i as int));
            assert(all.take(i + 1).last() == e);
            assert(e == (x.0@, x.1@));
        }
        let (a, b) = if forward {
            (&x.0, &x.1)
        } else {
            (&x.1, &x.0)
        };
        let longer: Option<Vec<Vec<u8>>> = match m.get(a) {
            Some(p) => {
                if p.len() == k && !at_end(x.0.as_slice()) && !m.contains_key(b) {
                    Some(lengthen(p, b, forward))
                } else {
                    None
                }
            },
            None => None,
        };
        if let Some(p) = longer {
            let ghost pv = views(p@);
            m.insert(copy_bytes(b.as_slice()), p);
            changed = true;
            proof {
                assert(held_ways(m@) =~= before.insert(b@, pv));
            }
        }
        i = i + 1;
    }
    proof {
        assert(all.take(i as int) =~= all);
    }
    changed
}

proof fn lemma_nothing_to_sweep(xs: Seq<Edge>, forward: bool, m: Ways, k: nat)
    requires
        forall|n: Seq<u8>| #[trigger] m.contains_key(n) ==> m[n].len() != k,
    ensures
        swept(xs, forward, m, k) == m,
    decreases xs.len(),
{
    if xs.len() > 0 {
        lemma_nothing_to_sweep(xs.drop_last(), forward, m, k);
    }
}

/// A level that finds nothing is the last.
proof fn lemma_last_level(edges: Set<Edge>, forward: bool, d: nat, e: nat)
    requires
        edges.finite(),
        d <= e,
        forall|n: Seq<u8>| #[trigger]
            ways(edges, forward, d).contains_key(n) ==> ways(edges, forward, d)[n].len() <= d,
    ensures
        ways(edges, forward, e) == ways(edges, forward, d),
    decreases e,
{
    if d < e {
        lemma_last_level(edges, forward, d, (e - 1) as nat);
        lemma_nothing_to_sweep(
            listing::<(Vec<u8>, Vec<u8>)>(edges),
            forward,
            ways(edges, forward, d),
            e,
        );
    }
}

/// All ways of at most `levels` steps.
fn find_ways(
    xs: &Vec<(Vec<u8>, Vec<u8>)>,
    forward: bool,
    from: WayMap,
    levels: usize,
    Ghost(edges): Ghost<Set<Edge>>,
) -> (r: WayMap)
    requires
        lists::<(Vec<u8>, Vec<u8>)>(vals(xs@), edges),
        edges.finite(),
        held_ways(from@) == seeds(edges, forward),
    ensures
        held_ways(r@) == ways(edges, forward, levels as nat),
{
    let mut m = from;
    let mut d: usize = 0;
    proof {
        lemma_listing::<(Vec<u8>, Vec<u8>)>(vals(xs@), edges);
    }
    while d < levels
        invariant
            d <= levels,
            edges.finite(),
            vals(xs@) == listing::<(Vec<u8>, Vec<u8>)>(edges),
            held_ways(m@) == ways(edges, forward, d as nat),
        decreases levels - d,
    {
        let changed = sweep(xs, forward, &mut m, d + 1);
        if !changed {
            proof {
                lemma_ways(edges, forward, d as nat);
                lemma_last_level(edges, forward, (d + 1) as nat, levels as nat);
            }
            return m;
        }
        d = d + 1;
    }
    m
}

/// The start nodes, each with itself for a way.
fn start_ways(starts: &Vec<Vec<u8>>, Ghost(edges): Ghost<Set<Edge>>) -> (r: WayMap)
    requires
        lists::<Vec<u8>>(views(starts@), starts_of(edges)),
    ensures
        held_ways(r@) == seeds(edges, true),
{
    let ghost all = views(starts@);
    let mut m: WayMap = OrdMap::new();
    let mut i: usize = 0;
    while i < starts.len()
        invariant
            i <= starts@.len(),
            all == views(starts@),
            forall|n: Seq<u8>| #[trigger]
                held_ways(m@).contains_key(n) <==> all.take(i as int).contains(n),
            forall|n: Seq<u8>| #[trigger]
                held_ways(m@).contains_key(n) ==> held_ways(m@)[n] == seq![n],
        decreases starts@.len() - i,
    {
        let ghost before = held_ways(m@);
        let ghost s = all[i as int];
        let mut own: Vec<Vec<u8>> = Vec::new();
        own.push(copy_bytes(starts[i].as_slice()));
        proof {
            assert(views(own@) =~= seq![s]);
        }
        m.insert(copy_bytes(starts[i].as_slice()), own);
        proof {
            assert(held_ways(m@) =~= before.insert(s, seq![s]));
            lemma_take_step(all, i as int);
            assert forall|n: Seq<u8>| #[trigger]
                held_ways(m@).contains_key(n) <==> all.take(i + 1).contains(n) by {
                assert(all.take(i + 1).to_set().contains(n) == all.take(i + 1).contains(n));
                assert(all.take(i as int).to_set().contains(n) == all.take(i as int).contains(n));
            }
        }
        i = i + 1;
    }
    proof {
        assert(all.take(i as int) =~= all);
        assert forall|n: Seq<u8>| held_ways(m@).contains_key(n) == seeds(edges, true).contains_key(
            n,
        ) by {
            assert(all.to_set().contains(n) == all.contains(n));
        }
        assert(held_ways(m@) =~= seeds(edges, true));
    }
    m
}

/// The end nodes, each with itself for a way.
fn end_ways(xs: &Vec<(Vec<u8>, Vec<u8>)>, Ghost(edges): Ghost<Set<Edge>>) -> (r: WayMap)
    requires
        lists::<(Vec<u8>, Vec<u8>)>(vals(xs@), edges),
    ensures
        held_ways(r@) == seeds(edges, false),
{
    let ghost all = vals(xs@);
    let mut m: WayMap = OrdMap::new();
    let mut i: usize = 0;
    while i < xs.len()
        invariant
            i <= xs@.len(),
            all == vals(xs@),
            forall|n: Seq<u8>| #[trigger]
                held_ways(m@).contains_key(n) <==> is_end(n) && exists|j: int|
                    0 <= j < i && (#[trigger] all[j]).1 == n,
            forall|n: Seq<u8>| #[trigger]
                held_ways(m@).contains_key(n) ==> held_ways(m@)[n] == seq![n],
        decreases xs@.len() - i,
    {
        let ghost before = held_ways(m@);
        let ghost e = all[i as int].1;
        if at_end(xs[i].1.as_slice()) {
            let mut own: Vec<Vec<u8>> = Vec::new();
            own.push(copy_bytes(xs[i].1.as_slice()));
            proof {
                assert(views(own@) =~= seq![e]);
            }
            m.insert(copy_bytes(xs[i].1.as_slice()), own);
            proof {
                assert(held_ways(m@) =~= before.insert(e, seq![e]));
            }
        }
        i = i + 1;
    }
    proof {
        assert forall|n: Seq<u8>| held_ways(m@).contains_key(n) == seeds(edges, false).contains_key(
            n,
        ) by {
            if held_ways(m@).contains_key(n) {
                let j = choose|j: int| 0 <= j < i && (#[trigger] all[j]).1 == n;
                assert(all.to_set().contains(all[j]));
                assert(edges.contains((all[j].0, n)));
            }
            if seeds(edges, false).contains_key(n) {
                let p = choose|p: Seq<u8>| edges.contains((p, n));
                assert(all.to_set().contains((p, n)));
                let j = choose|j: int| 0 <= j < all.len() && all[j] == (p, n);
                assert(all[j].1 == n);
            }
        }
        assert(held_ways(m@) =~= seeds(edges, false));
    }
    m
}

/// Whether a complete path within the depth limit leads through an edge.
fn is_reachable(
    to: &WayMap,
    from: &WayMap,
    x: &(Vec<u8>, Vec<u8>),
    max_depth: usize,
    Ghost(edges): Ghost<Set<Edge>>,
) -> (r: bool)
    requires
        held_ways(to@) == ways(edges, true, max_depth as nat),
        held_ways(from@) == ways(edges, false, max_depth as nat),
    ensures
        r == reachable(edges, (x.0@, x.1@), max_depth as nat),
{
    if at_end(x.0.as_slice()) {
        return false;
    }
    match (to.get(&x.0), from.get(&x.1)) {
        (Some(a), Some(b)) => {
            proof {
                assert(views(a@).len() == a@.len());
                assert(views(b@).len() == b@.len());
                assert(held_ways(to@)[x.0@] == views(a@));
                assert(held_ways(from@)[x.1@] == views(b@));
            }
            a.len() <= max_depth && b.len() <= max_depth - a.len()
        },
        _ => {
            proof {
                assert(held_ways(to@).contains_key(x.0@) == to@.contains_key(x.0@));
                assert(held_ways(from@).contains_key(x.1@) == from@.contains_key(x.1@));
            }
            false
        },
    }
}

/// The first next node along an edge not walked yet.
fn open_next(
    nexts: &Vec<Vec<u8>>,
    from: &WayMap,
    used: &OrdSet<(Vec<u8>, Vec<u8>)>,
    path: &Vec<Vec<u8>>,
    max_depth: usize,
) -> (r: Option<usize>)
    requires
        path@.len() > 0,
        path@.len() <= max_depth,
    ensures
        r matches Some(i) ==> i < nexts@.len(),
        (match r {
            Some(i) => Some(nexts@[i as int]@),
            None => None::<Seq<u8>>,
        }) == first_open(
            views(nexts@),
            held_ways(from@),
            used@,
            views(path@),
            max_depth as nat,
        ),
{
    let ghost all = views(nexts@);
    let ghost pv = views(path@);
    let last: usize = path.len() - 1;
    let mut i: usize = 0;
    proof {
        assert(all.skip(0) =~= all);
        assert(pv.last() == path@[last as int]@);
    }
    while i < nexts.len()
        invariant
            i <= nexts@.len(),
            last + 1 == path@.len(),
            path@.len() <= max_depth,
            all == views(nexts@),
            pv == views(path@),
            pv.last() == path@[last as int]@,
            first_open(all, held_ways(from@), used@, pv, max_depth as nat) == first_open(
                all.skip(i as int),
                held_ways(from@),
                used@,
                pv,
                max_depth as nat,
            ),
        decreases nexts@.len() - i,
    {
        proof {
            assert(all.skip(i as int)[0] == nexts@[i as int]@);
            assert(all.skip(i as int).drop_first() =~= all.skip(i + 1));
        }
        let edge = (copy_bytes(path[last].as_slice()), copy_bytes(nexts[i].as_slice()));
        let near_end = match from.get(&nexts[i]) {
            Some(p) => {
                proof {
                    assert(held_ways(from@)[nexts@[i as int]@] == views(p@));
                    assert(views(p@).len() == p@.len());
                }
                p.len() <= max_depth - path.len()
            },
            None => {
                proof {
                    assert(!held_ways(from@).contains_key(nexts@[i as int]@));
                }
                false
            },
        };
        if near_end && !used.contains(&edge) {
            return Some(i);
        }
        i = i + 1;
    }
    None
}

/// Continues a path along edges not walked yet, and then the shortest way to
/// an end node.
fn go_on(
    graph: &Graph,
    Ghost(edges): Ghost<Set<Edge>>,
    from: &WayMap,
    used: OrdSet<(Vec<u8>, Vec<u8>)>,
    path: Vec<Vec<u8>>,
    max_depth: usize,
) -> (r: Vec<Vec<u8>>)
    requires
        is_graph(graph@, edges),
        path@.len() > 0,
        from@.contains_key(views(path@).last()),
        forall|n: Seq<u8>| #[trigger]
            held_ways(from@).contains_key(n) ==> held_ways(from@)[n].len() > 0,
    ensures
        views(r@) == onward(edges, held_ways(from@), used@, views(path@), max_depth as nat),
{
    let ghost goal = onward(edges, held_ways(from@), used@, views(path@), max_depth as nat);
    let mut used = used;
    let mut path = path;
    let mut going = true;
    while going && path.len() < max_depth && !at_end(path[path.len() - 1].as_slice())
        invariant
            is_graph(graph@, edges),
            path@.len() > 0,
            from@.contains_key(views(path@).last()),
            goal == onward(edges, held_ways(from@), used@, views(path@), max_depth as nat),
            !going ==> goal == views(path@) + held_ways(
                from@,
            )[views(path@).last()].drop_first(),
        decreases
                max_depth - path@.len(),
                if going {
                    1int
                } else {
                    0int
                },
    {
        let last: usize = path.len() - 1;
        let ghost pv = views(path@);
        let ghost here = pv.last();
        proof {
            assert(here == path@[last as int]@);
        }
        let nexts: Vec<Vec<u8>> = match graph.get(&path[last]) {
            Some(s) => s.to_vec(),
            None => Vec::new(),
        };
        let ghost nv = views(nexts@);
        proof {
            assert(nv =~= vals(nexts@));
            if !graph@.contains_key(here) {
                assert forall|n: Seq<u8>| !nexts_of(edges, here).contains(n) by {
                    if edges.contains((here, n)) {
                        assert(graph@.contains_key((here, n).0));
                    }
                }
                assert(nexts_of(edges, here) =~= Set::empty());
                assert(nv.to_set() =~= Set::empty());
            }
            lemma_listing::<Vec<u8>>(nv, nexts_of(edges, here));
        }
        match open_next(&nexts, from, &used, &path, max_depth) {
            Some(i) => {
                let ghost next = nexts@[i as int]@;
                proof {
                    lemma_first_open(nv, held_ways(from@), used@, pv, max_depth as nat);
                }
                used.insert((copy_bytes(path[last].as_slice()), copy_bytes(nexts[i].as_slice())));
                path.push(copy_bytes(nexts[i].as_slice()));
                proof {
                    assert(views(path@) =~= pv.push(next));
                    assert(held_ways(from@).contains_key(next));
                }
            },
            None => {
                going = false;
            },
        }
    }
    let last: usize = path.len() - 1;
    proof {
        assert(views(path@).last() == path@[last as int]@);
    }
    match from.get(&path[last]) {
        Some(tail) => {
            let ghost tv = views(tail@);
            let ghost pv = views(path@);
            let mut i: usize = 1;
            while i < tail.len()
                invariant
                    tv == views(tail@),
                    i <= tail@.len() || i == 1,
                    i >= 1,
                    views(path@) == pv + tv.drop_first().take(i - 1),
                decreases tail@.len() - i,
            {
                let ghost now = path@;
                path.push(copy_bytes(tail[i].as_slice()));
                proof {
                    assert(views(path@) =~= views(now).push(tv[i as int]));
                    assert(tv.drop_first().take(i as int) =~= tv.drop_first().take(i - 1).push(
                        tv[i as int],
                    ));
                    assert(views(path@) =~= pv + tv.drop_first().take(i as int));
                }
                i = i + 1;
            }
            proof {
                assert(held_ways(from@).contains_key(pv.last()));
                assert(held_ways(from@)[pv.last()] == tv);
                assert(tv.drop_first().take(i - 1) =~= tv.drop_first());
            }
        },
        None => {},
    }
    path
}

/// Walks that lead through every reachable edge.
fn cover_walks(
    graph: &Graph,
    Ghost(edges): Ghost<Set<Edge>>,
    xs: &Vec<(Vec<u8>, Vec<u8>)>,
    to: &WayMap,
    from: &WayMap,
    max_depth: usize,
) -> (r: Vec<Vec<Vec<u8>>>)
    requires
        is_graph(graph@, edges),
        edges.finite(),
        lists::<(Vec<u8>, Vec<u8>)>(vals(xs@), edges),
        held_ways(to@) == ways(edges, true, max_depth as nat),
        held_ways(from@) == ways(edges, false, max_depth as nat),
    ensures
        vals(r@) == cover(edges, max_depth as nat),
{
    let ghost all = vals(xs@);
    let ghost md = max_depth as nat;
    let mut walks: Vec<Vec<Vec<u8>>> = Vec::new();
    let mut used = walked_edges(&walks, graph, Ghost(edges));
    let mut i: usize = 0;
    proof {
        lemma_listing::<(Vec<u8>, Vec<u8>)>(all, edges);
        assert(all.take(0) =~= Seq::empty());
        assert(vals(walks@) =~= Seq::empty());
        lemma_ways(edges, false, md);
    }
    while i < xs.len()
        invariant
            i <= xs@.len(),
            all == vals(xs@),
            md == max_depth,
            is_graph(graph@, edges),
            held_ways(to@) == ways(edges, true, md),
            held_ways(from@) == ways(edges, false, md),
            forall|n: Seq<u8>| #[trigger]
                held_ways(from@).contains_key(n) ==> held_ways(from@)[n].len() > 0,
            vals(walks@) == covering(edges, all.take(i as int), md),
            used@ == walked(vals(walks@), edges),
        decreases xs@.len() - i,
    {
        let x = &xs[i];
        let ghost e = all[i as int];
        let ghost before = vals(walks@);
        proof {
            assert(all.take(i + 1).drop_last() =~= all.take(i as int));
            assert(all.take(i + 1).last() == e);
            assert(e == (x.0@, x.1@));
        }
        if !used.contains(x) && is_reachable(to, from, x, max_depth, Ghost(edges)) {
            let path: Vec<Vec<u8>> = match to.get(&x.0) {
                Some(p) => lengthen(p, &x.1, true),
                None => Vec::new(),
            };
            let ghost pv = views(path@);
            proof {
                assert(held_ways(to@).contains_key(x.0@));
                assert(pv == held_ways(to@)[x.0@].push(x.1@));
                assert(pv.last() == x.1@);
                assert(pv.len() == path@.len());
                assert(held_ways(from@).contains_key(x.1@));
            }
            let ghost walks_before = walks@;
            walks.push(copy_tokens(path.as_slice()));
            proof {
                assert(vals(walks@) =~= before.push(pv));
            }
            let fresh = walked_edges(&walks, graph, Ghost(edges));
            walks.pop();
            proof {
                assert(vals(walks@) =~= before);
            }
            let walk = go_on(graph, Ghost(edges), from, fresh, path, max_depth);
            let ghost wv = views(walk@);
            walks.push(walk);
            proof {
                assert(vals(walks@) =~= before.push(wv));
                assert(wv == walk_through(edges, before, e, md));
            }
            used = walked_edges(&walks, graph, Ghost(edges));
        }
        i = i + 1;
    }
    proof {
        assert(all.take(i as int) =~= all);
    }
    walks
}

/// Whether some paths leave out a reachable edge.
fn leaves_out(
    paths: &Vec<Vec<Vec<u8>>>,
    graph: &Graph,
    Ghost(edges): Ghost<Set<Edge>>,
    xs: &Vec<(Vec<u8>, Vec<u8>)>,
    to: &WayMap,
    from: &WayMap,
    max_depth: usize,
) -> (r: bool)
    requires
        is_graph(graph@, edges),
        lists::<(Vec<u8>, Vec<u8>)>(vals(xs@), edges),
        held_ways(to@) == ways(edges, true, max_depth as nat),
        held_ways(from@) == ways(edges, false, max_depth as nat),
    ensures
        r == left_out(edges, vals(paths@), max_depth as nat),
{
    let used = walked_edges(paths, graph, Ghost(edges));
    let ghost all = vals(xs@);
    let ghost md = max_depth as nat;
    let mut i: usize = 0;
    while i < xs.len()
        invariant
            i <= xs@.len(),
            all == vals(xs@),
            md == max_depth,
            used@ == walked(vals(paths@), edges),
            lists::<(Vec<u8>, Vec<u8>)>(all, edges),
            held_ways(to@) == ways(edges, true, md),
            held_ways(from@) == ways(edges, false, md),
            forall|j: int|
                0 <= j < i ==> used@.contains(#[trigger] all[j]) || !reachable(edges, all[j], md),
        decreases xs@.len() - i,
    {
        let x = &xs[i];
        proof {
            assert(all[i as int] == (x.0@, x.1@));
        }
        if !used.contains(x) && is_reachable(to, from, x, max_depth, Ghost(edges)) {
            proof {
                assert(all.to_set().contains(all[i as int]));
                assert(edges.contains(all[i as int]));
            }
            return true;
        }
        i = i + 1;
    }
    proof {
        assert forall|x: Edge| #[trigger] edges.contains(x) implies used@.contains(x)
            || !reachable(edges, x, md) by {
            assert(all.to_set().contains(x));
            let j = choose|j: int| 0 <= j < all.len() && all[j] == x;
            assert(used@.contains(all[j]) || !reachable(edges, all[j], md));
        }
    }
    false
}

/// The trails that a search found, with covering walks where the trails leave
/// out a reachable edge.
pub(crate) fn complete_paths(
    trails: Vec<Vec<Vec<u8>>>,
    graph: &Graph,
    Ghost(edges): Ghost<Set<Edge>>,
    starts: &Vec<Vec<u8>>,
    max_paths: usize,
    max_depth: usize,
) -> (r: Vec<Vec<Vec<u8>>>)
    requires
        is_graph(graph@, edges),
        lists::<Vec<u8>>(views(starts@), starts_of(edges)),
        vals(trails@) == found_trails(edges, max_paths as nat, max_depth as nat),
    ensures
        vals(r@) == found_paths(edges, max_paths as nat, max_depth as nat),
{
    let xs = edge_list(graph, Ghost(edges));
    let used = walked_edges(&trails, graph, Ghost(edges));
    if used.len() == xs.len() {
        proof {
            let all = vals(xs@);
            crate::collections::lemma_ascending_distinct::<(Vec<u8>, Vec<u8>)>(all);
            all.unique_seq_to_set();
            assert(used@.subset_of(edges));
            vstd::set_lib::lemma_subset_equality(used@, edges);
        }
        return trails;
    }
    let to = find_ways(&xs, true, start_ways(starts, Ghost(edges)), max_depth, Ghost(edges));
    let from = find_ways(&xs, false, end_ways(&xs, Ghost(edges)), max_depth, Ghost(edges));
    if !leaves_out(&trails, graph, Ghost(edges), &xs, &to, &from, max_depth) {
        return trails;
    }
    let mut walks = cover_walks(graph, Ghost(edges), &xs, &to, &from, max_depth);
    let ghost whole = vals(walks@);
    walks.truncate(max_paths);
    proof {
        assert(vals(walks@) =~= first_k(whole, max_paths as nat));
    }
    let mut kept = distinct_paths(&walks);
    let ghost base = kept@;
    let ghost all = vals(trails@);
    let mut i: usize = 0;
    proof {
        assert(all.take(0) =~= Seq::empty());
    }
    while i < trails.len()
        invariant
            i <= trails@.len(),
            all == vals(trails@),
            kept@ == filled(base, all.take(i as int), max_paths as nat),
        decreases trails@.len() - i,
    {
        proof {
            assert(all.take(i + 1).drop_last() =~= all.take(i as int));
            assert(all.take(i + 1).last() == views(trails@[i as int]@));
        }
        if kept.len() < max_paths {
            kept.insert(copy_tokens(trails[i].as_slice()));
        }
        i = i + 1;
    }
    let r = kept.to_vec();
    proof {
        assert(all.take(i as int) =~= all);
        lemma_listing::<Vec<Vec<u8>>>(vals(r@), kept@);
    }
    r
}

} // verus!
