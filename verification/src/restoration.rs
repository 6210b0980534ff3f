//! Laws of restoration: what the paths of a De Bruijn search spell.
use vstd::prelude::*;

use crate::collections::{lemma_listing_exists, listing, lists};
use crate::context::{full_union, layer_union, words_of};
use crate::cover::{
    cover, covers_are_complete, filled, left_out, lemma_filled, lemma_reachable, lemma_walked,
    one_walk_covers_one_path,
};
use crate::debruijn::{
    context_grams, edge_of, edges_of, evidence, found_paths, found_trails, is_end, is_start,
    known_grams, layer_grams, nexts_of, ok_pair, ok_token, ok_triple, pair_of, restored_paths,
    search_nexts, search_node, search_starts, spelled, spelled_path, starts_of, walked, Edge,
    Evidence, Path,
};
use crate::engines::{
    looked_up, narrow_position, narrow_positions, table_after, tokens_at_position, PositionTable,
};
use crate::exchange::{full_plane, layer_plane, Exchange};
use crate::hashing::bit_of;
use crate::hllset::in_plane;
use crate::matrix::first_k;
use crate::ngrams::{
    boundary, end_bytes, layer, lemma_first_layer, lemma_pieces_nonempty, nul_joined, padded,
    pieces, plain, split, split_undoes_join, start_bytes, SEP,
};
use crate::roundtrip::{paths_layer, paths_pairs, paths_plane};

verus! {

/// The step from node `i` of a path to the next.
pub open spec fn step(path: Path, i: int) -> Edge {
    (path[i], path[i + 1])
}

/// Nodes from a start node on, every step along an edge.
pub open spec fn chain(edges: Set<Edge>, path: Path) -> bool {
    &&& path.len() > 0
    &&& starts_of(edges).contains(path[0])
    &&& forall|i: int|
        0 <= i < path.len() - 1 ==> edges.contains(#[trigger] step(path, i))
}

/// No node but possibly the last is an end node.
pub open spec fn ends_only_last(path: Path) -> bool {
    forall|i: int| 0 <= i < path.len() - 1 ==> !is_end(#[trigger] path[i])
}

/// A chain up to its first end node, within the depth limit.
pub open spec fn complete(edges: Set<Edge>, path: Path, max_depth: nat) -> bool {
    &&& chain(edges, path)
    &&& ends_only_last(path)
    &&& is_end(path.last())
    &&& path.len() <= max_depth
}

/// Every path is complete.
pub open spec fn all_complete(edges: Set<Edge>, found: Seq<Path>, max_depth: nat) -> bool {
    forall|i: int| 0 <= i < found.len() ==> complete(edges, #[trigger] found[i], max_depth)
}

/// No edge is walked twice.
pub open spec fn trail(path: Path) -> bool {
    forall|i: int, j: int|
        0 <= i < j < path.len() - 1 ==> #[trigger] step(path, i) != #[trigger] step(path, j)
}

proof fn lemma_edges_finite(e: Evidence)
    requires
        e.grams_3.finite(),
    ensures
        edges_of(e).finite(),
{
    let f = |t: Seq<u8>| edge_of(t);
    let img = e.grams_3.map(f);
    e.grams_3.lemma_map_finite(f);
    assert(edges_of(e).subset_of(img)) by {
        assert forall|x: Edge| edges_of(e).contains(x) implies img.contains(x) by {
            let t = choose|t: Seq<u8>| ok_triple(e, t) && x == #[trigger] edge_of(t);
            assert(e.grams_3.contains(t) && f(t) == x);
        }
    }
    vstd::set_lib::lemma_set_subset_finite(img, edges_of(e));
}

proof fn lemma_evidence_finite(
    table: PositionTable,
    one: Set<u32>,
    two: Set<u32>,
    three: Set<u32>,
)
    ensures
        edges_of(evidence(table, one, two, three)).finite(),
{
    let s = looked_up(table, narrow_positions(listing::<u32>(three)));
    vstd::seq_lib::seq_to_set_is_finite(s);
    let g = known_grams(table, three, 3);
    assert(g.subset_of(s.to_set()));
    vstd::set_lib::lemma_set_subset_finite(s.to_set(), g);
    lemma_edges_finite(evidence(table, one, two, three));
}

proof fn lemma_nexts_listed(edges: Set<Edge>, node: Seq<u8>)
    requires
        edges.finite(),
    ensures
        lists::<Vec<u8>>(listing::<Vec<u8>>(nexts_of(edges, node)), nexts_of(edges, node)),
{
    let f = |x: Edge| x.1;
    let img = edges.map(f);
    edges.lemma_map_finite(f);
    let s = nexts_of(edges, node);
    assert(s.subset_of(img)) by {
        assert forall|n: Seq<u8>| s.contains(n) implies img.contains(n) by {
            assert(edges.contains((node, n)) && f((node, n)) == n);
        }
    }
    vstd::set_lib::lemma_set_subset_finite(img, s);
    lemma_listing_exists::<Vec<u8>>(s);
}

proof fn lemma_starts_listed(edges: Set<Edge>)
    requires
        edges.finite(),
    ensures
        lists::<Vec<u8>>(listing::<Vec<u8>>(starts_of(edges)), starts_of(edges)),
{
    let f = |x: Edge| x.0;
    let img = edges.map(f);
    edges.lemma_map_finite(f);
    let s = starts_of(edges);
    assert(s.subset_of(img)) by {
        assert forall|n: Seq<u8>| s.contains(n) implies img.contains(n) by {
            let m = choose|m: Seq<u8>| edges.contains((n, m));
            assert(edges.contains((n, m)) && f((n, m)) == n);
        }
    }
    vstd::set_lib::lemma_set_subset_finite(img, s);
    lemma_listing_exists::<Vec<u8>>(s);
}

proof fn lemma_grows_node(
    edges: Set<Edge>,
    node: Seq<u8>,
    used: Set<Edge>,
    path: Path,
    found: Seq<Path>,
    max_paths: nat,
    max_depth: nat,
)
    ensures
        found.is_prefix_of(search_node(edges, node, used, path, found, max_paths, max_depth)),
    decreases max_depth + 1 - path.len(), 1int, 0nat,
{
    if found.len() >= max_paths || path.len() > max_depth {
        assert(found.take(found.len() as int) =~= found);
    } else if is_end(node) {
        assert(found.push(path).take(found.len() as int) =~= found);
    } else {
        lemma_grows_nexts(
            edges,
            node,
            listing::<Vec<u8>>(nexts_of(edges, node)),
            used,
            path,
            found,
            max_paths,
            max_depth,
        );
    }
}

proof fn lemma_grows_nexts(
    edges: Set<Edge>,
    node: Seq<u8>,
    nexts: Seq<Seq<u8>>,
    used: Set<Edge>,
    path: Path,
    found: Seq<Path>,
    max_paths: nat,
    max_depth: nat,
)
    ensures
        found.is_prefix_of(
            search_nexts(edges, node, nexts, used, path, found, max_paths, max_depth),
        ),
    decreases max_depth + 1 - path.len(), 0int, nexts.len(),
{
    if nexts.len() == 0 || path.len() > max_depth {
        assert(found.take(found.len() as int) =~= found);
    } else {
        let front = nexts.drop_last();
        lemma_grows_nexts(edges, node, front, used, path, found, max_paths, max_depth);
        let before = search_nexts(edges, node, front, used, path, found, max_paths, max_depth);
        let next = nexts.last();
        if !used.contains((node, next)) {
            let wider = used.insert((node, next));
            lemma_grows_node(edges, next, wider, path.push(next), before, max_paths, max_depth);
            let after = search_node(
                edges,
                next,
                wider,
                path.push(next),
                before,
                max_paths,
                max_depth,
            );
            assert(after.take(found.len() as int) =~= after.take(before.len() as int).take(
                found.len() as int,
            ));
        }
    }
}

proof fn lemma_found_node(
    edges: Set<Edge>,
    node: Seq<u8>,
    used: Set<Edge>,
    path: Path,
    found: Seq<Path>,
    max_paths: nat,
    max_depth: nat,
)
    requires
        edges.finite(),
        chain(edges, path),
        path.last() == node,
        ends_only_last(path),
        all_complete(edges, found, max_depth),
    ensures
        all_complete(
            edges,
            search_node(edges, node, used, path, found, max_paths, max_depth),
            max_depth,
        ),
    decreases max_depth + 1 - path.len(), 1int, 0nat,
{
    if found.len() >= max_paths || path.len() > max_depth {
    } else if is_end(node) {
        let after = found.push(path);
        assert forall|i: int| 0 <= i < after.len() implies complete(
            edges,
            #[trigger] after[i],
            max_depth,
        ) by {
            if i < found.len() {
                assert(after[i] == found[i]);
            }
        }
    } else {
        let nexts = listing::<Vec<u8>>(nexts_of(edges, node));
        lemma_nexts_listed(edges, node);
        assert forall|i: int| 0 <= i < nexts.len() implies edges.contains(
            (node, #[trigger] nexts[i]),
        ) by {
            assert(nexts.to_set().contains(nexts[i]));
        }
        lemma_found_nexts(edges, node, nexts, used, path, found, max_paths, max_depth);
    }
}

proof fn lemma_found_nexts(
    edges: Set<Edge>,
    node: Seq<u8>,
    nexts: Seq<Seq<u8>>,
    used: Set<Edge>,
    path: Path,
    found: Seq<Path>,
    max_paths: nat,
    max_depth: nat,
)
    requires
        edges.finite(),
        chain(edges, path),
        path.last() == node,
        ends_only_last(path),
        !is_end(node),
        forall|i: int| 0 <= i < nexts.len() ==> edges.contains((node, #[trigger] nexts[i])),
        all_complete(edges, found, max_depth),
    ensures
        all_complete(
            edges,
            search_nexts(edges, node, nexts, used, path, found, max_paths, max_depth),
            max_depth,
        ),
    decreases max_depth + 1 - path.len(), 0int, nexts.len(),
{
    if nexts.len() == 0 || path.len() > max_depth {
    } else {
        let front = nexts.drop_last();
        let next = nexts.last();
        assert forall|i: int| 0 <= i < front.len() implies edges.contains(
            (node, #[trigger] front[i]),
        ) by {
            assert(front[i] == nexts[i]);
        }
        lemma_found_nexts(edges, node, front, used, path, found, max_paths, max_depth);
        let before = search_nexts(edges, node, front, used, path, found, max_paths, max_depth);
        if !used.contains((node, next)) {
            let longer = path.push(next);
            assert(edges.contains((node, nexts[nexts.len() - 1])));
            assert forall|i: int| 0 <= i < longer.len() - 1 implies edges.contains(
                #[trigger] step(longer, i),
            ) by {
                if i < path.len() - 1 {
                    assert(step(longer, i) == step(path, i));
                }
            }
            assert forall|i: int| 0 <= i < longer.len() - 1 implies !is_end(
                #[trigger] longer[i],
            ) by {
                assert(longer[i] == path[i]);
            }
            assert(longer[0] == path[0]);
            lemma_found_node(
                edges,
                next,
                used.insert((node, next)),
                longer,
                before,
                max_paths,
                max_depth,
            );
        }
    }
}

proof fn lemma_found_starts(
    edges: Set<Edge>,
    starts: Seq<Seq<u8>>,
    max_paths: nat,
    max_depth: nat,
)
    requires
        edges.finite(),
        forall|i: int| 0 <= i < starts.len() ==> starts_of(edges).contains(#[trigger] starts[i]),
    ensures
        all_complete(edges, search_starts(edges, starts, max_paths, max_depth), max_depth),
    decreases starts.len(),
{
    if starts.len() > 0 {
        let front = starts.drop_last();
        assert forall|i: int| 0 <= i < front.len() implies starts_of(edges).contains(
            #[trigger] front[i],
        ) by {
            assert(front[i] == starts[i]);
        }
        lemma_found_starts(edges, front, max_paths, max_depth);
        let s = starts[starts.len() - 1];
        assert(starts_of(edges).contains(s));
        lemma_found_node(
            edges,
            s,
            Set::empty(),
            seq![s],
            search_starts(edges, front, max_paths, max_depth),
            max_paths,
            max_depth,
        );
    }
}

/// Every path that a search for trails returns is complete.
proof fn lemma_trails_complete(edges: Set<Edge>, max_paths: nat, max_depth: nat)
    requires
        edges.finite(),
    ensures
        all_complete(edges, found_trails(edges, max_paths, max_depth), max_depth),
        found_trails(edges, max_paths, max_depth).len() <= max_paths,
{
    let starts = listing::<Vec<u8>>(starts_of(edges));
    lemma_starts_listed(edges);
    assert forall|i: int| 0 <= i < starts.len() implies starts_of(edges).contains(
        #[trigger] starts[i],
    ) by {
        assert(starts.to_set().contains(starts[i]));
    }
    lemma_found_starts(edges, starts, max_paths, max_depth);
    let all = search_starts(edges, starts, max_paths, max_depth);
    vstd::seq_lib::seq_to_set_is_finite(all);
    lemma_listing_exists::<Vec<Vec<u8>>>(all.to_set());
    let s = listing::<Vec<Vec<u8>>>(all.to_set());
    let kept = found_trails(edges, max_paths, max_depth);
    assert forall|i: int| 0 <= i < kept.len() implies complete(
        edges,
        #[trigger] kept[i],
        max_depth,
    ) by {
        assert(kept[i] == s[i]);
        assert(s.to_set().contains(s[i]));
        assert(all.contains(s[i]));
        let j = choose|j: int| 0 <= j < all.len() && all[j] == s[i];
        assert(complete(edges, all[j], max_depth));
    }
}

/// Every path that a search returns is complete, and the search keeps to its
/// path limit.
pub proof fn found_paths_are_complete(edges: Set<Edge>, max_paths: nat, max_depth: nat)
    requires
        edges.finite(),
    ensures
        all_complete(edges, found_paths(edges, max_paths, max_depth), max_depth),
        found_paths(edges, max_paths, max_depth).len() <= max_paths,
{
    let trails = found_trails(edges, max_paths, max_depth);
    lemma_trails_complete(edges, max_paths, max_depth);
    if left_out(edges, trails, max_depth) {
        let walks = first_k(cover(edges, max_depth), max_paths);
        let set = filled(walks.to_set(), trails, max_paths);
        let kept = found_paths(edges, max_paths, max_depth);
        covers_are_complete(edges, max_depth);
        lemma_filled_paths(edges, max_paths, max_depth);
        assert forall|i: int| 0 <= i < kept.len() implies complete(
            edges,
            #[trigger] kept[i],
            max_depth,
        ) by {
            let p = kept[i];
            assert(kept.to_set().contains(p));
            assert(set.contains(p));
            if walks.to_set().contains(p) {
                let k = choose|k: int| 0 <= k < walks.len() && walks[k] == p;
                assert(cover(edges, max_depth)[k] == p);
            } else {
                let k = choose|k: int| 0 <= k < trails.len() && trails[k] == p;
                assert(complete(edges, trails[k], max_depth));
            }
        }
    }
}

/// The paths with covering walks list the walks and trails taken together.
proof fn lemma_filled_paths(edges: Set<Edge>, max_paths: nat, max_depth: nat)
    ensures
        ({
            let trails = found_trails(edges, max_paths, max_depth);
            let walks = first_k(cover(edges, max_depth), max_paths);
            let set = filled(walks.to_set(), trails, max_paths);
            &&& lists::<Vec<Vec<u8>>>(listing::<Vec<Vec<u8>>>(set), set)
            &&& listing::<Vec<Vec<u8>>>(set).len() == set.len()
            &&& set.len() <= max_paths
            &&& walks.to_set().subset_of(set)
            &&& forall|p: Path| #[trigger]
                set.contains(p) ==> walks.to_set().contains(p) || trails.contains(p)
            &&& set.len() < max_paths ==> forall|p: Path| #[trigger]
                trails.contains(p) ==> set.contains(p)
        }),
{
    let trails = found_trails(edges, max_paths, max_depth);
    let walks = first_k(cover(edges, max_depth), max_paths);
    let set = filled(walks.to_set(), trails, max_paths);
    vstd::seq_lib::seq_to_set_is_finite(walks);
    walks.lemma_cardinality_of_set();
    lemma_filled(walks.to_set(), trails, max_paths);
    lemma_listing_exists::<Vec<Vec<u8>>>(set);
    let s = listing::<Vec<Vec<u8>>>(set);
    crate::collections::lemma_ascending_distinct::<Vec<Vec<u8>>>(s);
    s.unique_seq_to_set();
}

/// A search whose covering walks fit the path limit walks every edge that a
/// complete path within the depth limit leads through.
pub proof fn every_reachable_edge_is_walked(
    edges: Set<Edge>,
    max_paths: nat,
    max_depth: nat,
    p: Path,
    x: Edge,
)
    requires
        edges.finite(),
        cover(edges, max_depth).len() <= max_paths,
        complete(edges, p, max_depth),
        walks(p, x),
    ensures
        some_path_walks(found_paths(edges, max_paths, max_depth), x),
{
    let trails = found_trails(edges, max_paths, max_depth);
    let found = found_paths(edges, max_paths, max_depth);
    lemma_reachable(edges, p, max_depth, x);
    let j = choose|j: int| 0 <= j < p.len() - 1 && #[trigger] step(p, j) == x;
    assert(edges.contains(x));
    if left_out(edges, trails, max_depth) {
        let all = cover(edges, max_depth);
        covers_are_complete(edges, max_depth);
        lemma_filled_paths(edges, max_paths, max_depth);
        let m = choose|m: int| 0 <= m < all.len() && walks(#[trigger] all[m], x);
        assert(first_k(all, max_paths) == all);
        assert(all.to_set().contains(all[m]));
        assert(found.to_set().contains(all[m]));
        let k = choose|k: int| 0 <= k < found.len() && found[k] == all[m];
        assert(walks(found[k], x));
    } else {
        lemma_walked(trails, edges, x);
        assert(walked(trails, edges).contains(x));
    }
}

proof fn lemma_reached_node(
    edges: Set<Edge>,
    node: Seq<u8>,
    used: Set<Edge>,
    path: Path,
    found: Seq<Path>,
    max_paths: nat,
    max_depth: nat,
    full: Path,
)
    requires
        edges.finite(),
        path.len() > 0,
        path.last() == node,
        path.is_prefix_of(full),
        complete(edges, full, max_depth),
        trail(full),
        forall|j: int|
            path.len() - 1 <= j < full.len() - 1 ==> !used.contains(#[trigger] step(full, j)),
        search_node(edges, node, used, path, found, max_paths, max_depth).len() < max_paths,
    ensures
        search_node(edges, node, used, path, found, max_paths, max_depth).contains(full),
    decreases max_depth + 1 - path.len(), 1int, 0nat,
{
    let n = path.len();
    assert(full[n - 1] == node) by {
        assert(full.take(n as int)[n - 1] == full[n - 1]);
    }
    if is_end(node) {
        assert(n == full.len()) by {
            if n < full.len() {
                assert(!is_end(full[n - 1]));
            }
        }
        assert(full.take(n as int) =~= full);
        assert(found.push(path)[found.len() as int] == full);
    } else {
        assert(n < full.len()) by {
            if n == full.len() {
                assert(is_end(full.last()));
            }
        }
        let nexts = listing::<Vec<u8>>(nexts_of(edges, node));
        lemma_nexts_listed(edges, node);
        assert(edges.contains(step(full, n - 1)));
        assert(nexts.to_set().contains(full[n as int]));
        lemma_reached_nexts(edges, node, nexts, used, path, found, max_paths, max_depth, full);
    }
}

proof fn lemma_reached_nexts(
    edges: Set<Edge>,
    node: Seq<u8>,
    nexts: Seq<Seq<u8>>,
    used: Set<Edge>,
    path: Path,
    found: Seq<Path>,
    max_paths: nat,
    max_depth: nat,
    full: Path,
)
    requires
        edges.finite(),
        path.len() > 0,
        path.last() == node,
        path.len() < full.len(),
        path.is_prefix_of(full),
        complete(edges, full, max_depth),
        trail(full),
        nexts.contains(full[path.len() as int]),
        forall|j: int|
            path.len() - 1 <= j < full.len() - 1 ==> !used.contains(#[trigger] step(full, j)),
        search_nexts(edges, node, nexts, used, path, found, max_paths, max_depth).len()
            < max_paths,
    ensures
        search_nexts(edges, node, nexts, used, path, found, max_paths, max_depth).contains(full),
    decreases max_depth + 1 - path.len(), 0int, nexts.len(),
{
    let n = path.len();
    let front = nexts.drop_last();
    let next = nexts.last();
    let before = search_nexts(edges, node, front, used, path, found, max_paths, max_depth);
    assert(full[n - 1] == node) by {
        assert(full.take(n as int)[n - 1] == full[n - 1]);
    }
    let wider = used.insert((node, next));
    let longer = path.push(next);
    if next == full[n as int] {
        assert(!used.contains(step(full, n - 1)));
        assert(full.take(n as int + 1) =~= longer) by {
            assert(full.take(n as int + 1).take(n as int) =~= full.take(n as int));
        }
        assert forall|j: int| longer.len() - 1 <= j < full.len() - 1 implies !wider.contains(
            #[trigger] step(full, j),
        ) by {
            assert(step(full, n - 1) != step(full, j));
        }
        lemma_reached_node(edges, next, wider, longer, before, max_paths, max_depth, full);
    } else {
        let k = choose|k: int| 0 <= k < nexts.len() && nexts[k] == full[n as int];
        assert(front[k] == full[n as int]);
        if used.contains((node, next)) {
            lemma_reached_nexts(
                edges,
                node,
                front,
                used,
                path,
                found,
                max_paths,
                max_depth,
                full,
            );
        } else {
            lemma_grows_node(edges, next, wider, longer, before, max_paths, max_depth);
            let after = search_node(edges, next, wider, longer, before, max_paths, max_depth);
            lemma_reached_nexts(
                edges,
                node,
                front,
                used,
                path,
                found,
                max_paths,
                max_depth,
                full,
            );
            lemma_prefix_contains(before, after, full);
        }
    }
}

proof fn lemma_prefix_contains(a: Seq<Path>, b: Seq<Path>, x: Path)
    requires
        a.is_prefix_of(b),
        a.contains(x),
    ensures
        b.contains(x),
{
    let i = choose|i: int| 0 <= i < a.len() && a[i] == x;
    assert(b.take(a.len() as int)[i] == b[i]);
    assert(b[i] == x);
}

proof fn lemma_reached_starts(
    edges: Set<Edge>,
    starts: Seq<Seq<u8>>,
    max_paths: nat,
    max_depth: nat,
    full: Path,
)
    requires
        edges.finite(),
        complete(edges, full, max_depth),
        trail(full),
        starts.contains(full[0]),
        search_starts(edges, starts, max_paths, max_depth).len() < max_paths,
    ensures
        search_starts(edges, starts, max_paths, max_depth).contains(full),
    decreases starts.len(),
{
    let front = starts.drop_last();
    let s = starts.last();
    let before = search_starts(edges, front, max_paths, max_depth);
    let after = search_starts(edges, starts, max_paths, max_depth);
    let path = seq![s];
    lemma_grows_node(edges, s, Set::empty(), path, before, max_paths, max_depth);
    if s == full[0] {
        assert(full.take(1) =~= path);
        lemma_reached_node(edges, s, Set::empty(), path, before, max_paths, max_depth, full);
    } else {
        let k = choose|k: int| 0 <= k < starts.len() && starts[k] == full[0];
        assert(front[k] == full[0]);
        lemma_reached_starts(edges, front, max_paths, max_depth, full);
        lemma_prefix_contains(before, after, full);
    }
}

/// The paths that a search meets, before duplicates go and the limit applies.
pub open spec fn met(edges: Set<Edge>, max_paths: nat, max_depth: nat) -> Seq<Path> {
    search_starts(edges, listing::<Vec<u8>>(starts_of(edges)), max_paths, max_depth)
}

proof fn lemma_trails_exhaustive(edges: Set<Edge>, max_paths: nat, max_depth: nat, full: Path)
    requires
        edges.finite(),
        complete(edges, full, max_depth),
        trail(full),
        met(edges, max_paths, max_depth).len() < max_paths,
    ensures
        found_trails(edges, max_paths, max_depth).contains(full),
{
    let starts = listing::<Vec<u8>>(starts_of(edges));
    lemma_starts_listed(edges);
    assert(starts.to_set().contains(full[0]));
    lemma_reached_starts(edges, starts, max_paths, max_depth, full);
    let all = met(edges, max_paths, max_depth);
    vstd::seq_lib::seq_to_set_is_finite(all);
    lemma_listing_exists::<Vec<Vec<u8>>>(all.to_set());
    let s = listing::<Vec<Vec<u8>>>(all.to_set());
    crate::collections::lemma_ascending_distinct::<Vec<Vec<u8>>>(s);
    s.unique_seq_to_set();
    all.lemma_cardinality_of_set();
    assert(s.len() <= all.len());
    assert(all.to_set().contains(full));
    assert(s.to_set().contains(full));
    assert(found_trails(edges, max_paths, max_depth) == s);
}

/// A search that does not run into its path limit returns every complete path
/// that walks no edge twice.
pub proof fn searches_are_exhaustive(edges: Set<Edge>, max_paths: nat, max_depth: nat, full: Path)
    requires
        edges.finite(),
        complete(edges, full, max_depth),
        trail(full),
        met(edges, max_paths, max_depth).len() < max_paths,
        found_paths(edges, max_paths, max_depth).len() < max_paths,
    ensures
        found_paths(edges, max_paths, max_depth).contains(full),
{
    let trails = found_trails(edges, max_paths, max_depth);
    lemma_trails_exhaustive(edges, max_paths, max_depth, full);
    if left_out(edges, trails, max_depth) {
        let found = found_paths(edges, max_paths, max_depth);
        lemma_filled_paths(edges, max_paths, max_depth);
        assert(trails.contains(full));
        assert(found.to_set().contains(full));
    }
}

proof fn lemma_pieces_plain(s: Seq<u8>)
    ensures
        forall|i: int| 0 <= i < pieces(s).len() ==> plain(#[trigger] pieces(s)[i]),
    decreases s.len(),
{
    if s.len() > 0 {
        let d = s.drop_last();
        lemma_pieces_plain(d);
        lemma_pieces_nonempty(d);
        let p = pieces(d);
        let q = pieces(s);
        assert forall|i: int| 0 <= i < q.len() implies plain(#[trigger] q[i]) by {
            if i < q.len() - 1 {
                assert(q[i] == p[i]);
                assert(plain(p[i]));
            } else if s.last() != SEP {
                let last = p[p.len() - 1];
                assert(plain(last));
                assert(q[i] == last.push(s.last()));
                assert forall|k: int| 0 <= k < q[i].len() implies #[trigger] q[i][k] != SEP by {
                    if k < last.len() {
                        assert(last[k] != SEP);
                    }
                }
            }
        }
    }
}

proof fn lemma_pair_parts(a: Seq<u8>, b: Seq<u8>)
    requires
        plain(a),
        plain(b),
    ensures
        split(pair_of(a, b)) == seq![a, b],
{
    let two = seq![a, b];
    assert(two.drop_last() =~= seq![a]);
    assert(nul_joined(seq![a]) == a);
    assert(nul_joined(two) == a.push(SEP) + b);
    split_undoes_join(two);
}

proof fn lemma_triple_parts(a: Seq<u8>, b: Seq<u8>, c: Seq<u8>)
    requires
        plain(a),
        plain(b),
        plain(c),
    ensures
        split(nul_joined(seq![a, b, c])) == seq![a, b, c],
{
    let three = seq![a, b, c];
    assert(three.drop_last() =~= seq![a, b]);
    assert(nul_joined(three) == nul_joined(seq![a, b]).push(SEP) + c);
    split_undoes_join(three);
}

/// The tokens of the two nodes of an edge are those of its triple.
proof fn lemma_edge_parts(e: Evidence, t: Seq<u8>)
    requires
        ok_triple(e, t),
    ensures
        split(edge_of(t).0) == seq![split(t)[0], split(t)[1]],
        split(edge_of(t).1) == seq![split(t)[1], split(t)[2]],
{
    lemma_pieces_plain(t);
    let p = split(t);
    assert(plain(p[0]) && plain(p[1]) && plain(p[2]));
    lemma_pair_parts(p[0], p[1]);
    lemma_pair_parts(p[1], p[2]);
}

/// Every node of a chain lies on an edge.
proof fn lemma_node_tokens(e: Evidence, path: Path, i: int)
    requires
        chain(edges_of(e), path),
        0 <= i < path.len(),
    ensures
        split(path[i]).len() == 2,
        ok_token(e, split(path[i])[0]),
        ok_token(e, split(path[i])[1]),
{
    let edges = edges_of(e);
    if i < path.len() - 1 {
        assert(edges.contains(step(path, i)));
        let t = choose|t: Seq<u8>| ok_triple(e, t) && step(path, i) == #[trigger] edge_of(t);
        lemma_edge_parts(e, t);
    } else if i > 0 {
        assert(edges.contains(step(path, i - 1)));
        let t = choose|t: Seq<u8>| ok_triple(e, t) && step(path, i - 1) == #[trigger] edge_of(t);
        lemma_edge_parts(e, t);
    } else {
        let m = choose|m: Seq<u8>| edges.contains((path[0], m));
        assert(edges.contains((path[0], m)));
        let t = choose|t: Seq<u8>| ok_triple(e, t) && (path[0], m) == #[trigger] edge_of(t);
        lemma_edge_parts(e, t);
    }
}

proof fn lemma_spelled_tokens(e: Evidence, path: Path, n: nat)
    requires
        chain(edges_of(e), path),
        n <= path.len(),
    ensures
        forall|j: int|
            0 <= j < spelled(path, n).len() ==> !boundary(#[trigger] spelled(path, n)[j])
                && ok_token(e, spelled(path, n)[j]),
        spelled(path, n).len() <= n + 1,
        n == 0 ==> spelled(path, n).len() == 0,
    decreases n,
{
    if n > 0 {
        lemma_spelled_tokens(e, path, (n - 1) as nat);
        lemma_node_tokens(e, path, n - 1);
        let before = spelled(path, (n - 1) as nat);
        let now = spelled(path, n);
        assert forall|j: int| 0 <= j < now.len() implies !boundary(#[trigger] now[j]) && ok_token(
            e,
            now[j],
        ) by {
            if j < before.len() {
                assert(now[j] == before[j]);
            }
        }
    }
}

/// Restoration only ever gives tokens whose bits are set in the plane of
/// single tokens, whatever the table holds.
pub proof fn restored_tokens_are_in_the_first_plane(
    table: PositionTable,
    one: Set<u32>,
    two: Set<u32>,
    three: Set<u32>,
    max_paths: nat,
    max_depth: nat,
)
    ensures
        ({
            let paths = restored_paths(table, one, two, three, max_paths, max_depth);
            forall|i: int, j: int|
                0 <= i < paths.len() && 0 <= j < paths[i].len() ==> !boundary(
                    #[trigger] paths[i][j],
                ) && one.contains(bit_of(paths[i][j], 0))
        }),
{
    let e = evidence(table, one, two, three);
    let edges = edges_of(e);
    let paths = restored_paths(table, one, two, three, max_paths, max_depth);
    let nodes = found_paths(edges, max_paths, max_depth);
    lemma_evidence_finite(table, one, two, three);
    found_paths_are_complete(edges, max_paths, max_depth);
    assert forall|i: int, j: int| 0 <= i < paths.len() && 0 <= j < paths[i].len() implies !boundary(
        #[trigger] paths[i][j],
    ) && one.contains(bit_of(paths[i][j], 0)) by {
        assert(complete(edges, nodes[i], max_depth));
        assert(paths[i] == spelled_path(nodes[i]));
        lemma_spelled_tokens(e, nodes[i], nodes[i].len());
    }
}

proof fn lemma_pairs_bound(paths: Seq<Seq<Seq<u8>>>, most: nat)
    requires
        forall|i: int| 0 <= i < paths.len() ==> (#[trigger] paths[i]).len() <= most,
    ensures
        paths_pairs(paths) <= paths.len() * (most + 1),
    decreases paths.len(),
{
    if paths.len() > 0 {
        let front = paths.drop_last();
        assert forall|i: int| 0 <= i < front.len() implies (#[trigger] front[i]).len() <= most by {
            assert(front[i] == paths[i]);
        }
        lemma_pairs_bound(front, most);
        assert(paths[paths.len() - 1].len() <= most);
        assert(layer(paths.last(), 2).len() <= most + 1);
        let n = paths.len() as int;
        assert((n - 1) * (most + 1) + (most + 1) == n * (most + 1)) by (nonlinear_arith);
    }
}

/// How many pairs the restored paths have at most.
pub proof fn lemma_restored_pairs(
    table: PositionTable,
    one: Set<u32>,
    two: Set<u32>,
    three: Set<u32>,
    max_paths: nat,
    max_depth: nat,
)
    ensures
        paths_pairs(restored_paths(table, one, two, three, max_paths, max_depth)) <= max_paths * (
        max_depth + 2),
{
    let e = evidence(table, one, two, three);
    let edges = edges_of(e);
    let paths = restored_paths(table, one, two, three, max_paths, max_depth);
    let nodes = found_paths(edges, max_paths, max_depth);
    lemma_evidence_finite(table, one, two, three);
    found_paths_are_complete(edges, max_paths, max_depth);
    assert forall|i: int| 0 <= i < paths.len() implies (#[trigger] paths[i]).len() <= max_depth
        + 1 by {
        assert(complete(edges, nodes[i], max_depth));
        lemma_spelled_tokens(e, nodes[i], nodes[i].len());
    }
    lemma_pairs_bound(paths, max_depth + 1);
    assert(paths.len() * (max_depth + 2) <= max_paths * (max_depth + 2)) by (nonlinear_arith)
        requires
            paths.len() <= max_paths,
    ;
}

/// A token that restoration can tell from its surroundings: not empty, no
/// separator in it, and no marker.
pub open spec fn word(t: Seq<u8>) -> bool {
    plain(t) && t.len() > 0 && !boundary(t)
}

/// Exchanges whose tokens are all such.
pub open spec fn all_words(exchanges: Seq<Exchange>) -> bool {
    forall|i: int, k: int|
        0 <= i < exchanges.len() && 0 <= k < words_of(exchanges[i]).len() ==> word(
            #[trigger] words_of(exchanges[i])[k],
        )
}

proof fn lemma_table(grams: Seq<Seq<u8>>, p: (u16, u8), t: Seq<u8>)
    ensures
        tokens_at_position(table_after(Map::empty(), grams), p).contains(t) <==> grams.contains(t)
            && narrow_position(t) == p,
    decreases grams.len(),
{
    let table = table_after(Map::empty(), grams);
    if grams.len() == 0 {
        assert(tokens_at_position(table, p) =~= Seq::empty());
    } else {
        let front = grams.drop_last();
        let last = grams.last();
        let before = table_after(Map::empty(), front);
        lemma_table(front, p, t);
        let at = tokens_at_position(before, p);
        assert(grams.contains(t) <==> front.contains(t) || t == last) by {
            if grams.contains(t) {
                let i = choose|i: int| 0 <= i < grams.len() && grams[i] == t;
                if i < front.len() {
                    assert(front[i] == t);
                }
            }
            if front.contains(t) {
                let i = choose|i: int| 0 <= i < front.len() && front[i] == t;
                assert(grams[i] == t);
            }
            assert(grams[grams.len() - 1] == last);
        }
        if p == narrow_position(last) {
            let now = at.push(last);
            assert(tokens_at_position(table, p) == now);
            if now.contains(t) {
                let i = choose|i: int| 0 <= i < now.len() && now[i] == t;
                if i < at.len() {
                    assert(at[i] == t);
                }
            }
            if at.contains(t) {
                let i = choose|i: int| 0 <= i < at.len() && at[i] == t;
                assert(now[i] == t);
            }
            assert(now[at.len() as int] == last);
        } else {
            assert(tokens_at_position(table, p) == at);
        }
    }
}

proof fn lemma_looked_up(table: PositionTable, positions: Seq<(u16, u8)>, t: Seq<u8>)
    ensures
        looked_up(table, positions).contains(t) <==> exists|i: int|
            0 <= i < positions.len() && tokens_at_position(
                table,
                #[trigger] positions[i],
            ).contains(t),
    decreases positions.len(),
{
    let now = looked_up(table, positions);
    if positions.len() > 0 {
        let front = positions.drop_last();
        lemma_looked_up(table, front, t);
        let before = looked_up(table, front);
        let at = tokens_at_position(table, positions.last());
        if now.contains(t) {
            let k = choose|k: int| 0 <= k < now.len() && now[k] == t;
            if k < before.len() {
                assert(before[k] == t);
                let i = choose|i: int|
                    0 <= i < front.len() && tokens_at_position(table, #[trigger] front[i]).contains(
                        t,
                    );
                assert(positions[i] == front[i]);
            } else {
                assert(at[k - before.len()] == t);
                assert(tokens_at_position(table, positions[positions.len() - 1]).contains(t));
            }
        }
        if exists|i: int|
            0 <= i < positions.len() && tokens_at_position(
                table,
                #[trigger] positions[i],
            ).contains(t) {
            let i = choose|i: int|
                0 <= i < positions.len() && tokens_at_position(
                    table,
                    #[trigger] positions[i],
                ).contains(t);
            if i < front.len() {
                assert(front[i] == positions[i]);
                assert(before.contains(t));
                let k = choose|k: int| 0 <= k < before.len() && before[k] == t;
                assert(now[k] == t);
            } else {
                let k = choose|k: int| 0 <= k < at.len() && at[k] == t;
                assert(now[before.len() + k] == t);
            }
        }
    }
}

proof fn lemma_known(grams: Seq<Seq<u8>>, plane: Set<u32>, n: nat, t: Seq<u8>)
    requires
        in_plane(plane),
    ensures
        known_grams(table_after(Map::empty(), grams), plane, n).contains(t) <==> grams.contains(t)
            && plane.contains(bit_of(t, 0)) && split(t).len() == n,
{
    let table = table_after(Map::empty(), grams);
    crate::hllset::lemma_plane_len(plane);
    lemma_listing_exists::<u32>(plane);
    let bits = listing::<u32>(plane);
    let ps = narrow_positions(bits);
    lemma_looked_up(table, ps, t);
    crate::hashing::lemma_bit_of(t, 0);
    let b = bit_of(t, 0);
    assert(narrow_position(t) == ((b / 32) as u16, (b % 32) as u8));
    if looked_up(table, ps).contains(t) {
        let i = choose|i: int|
            0 <= i < ps.len() && tokens_at_position(table, #[trigger] ps[i]).contains(t);
        lemma_table(grams, ps[i], t);
        assert(bits.to_set().contains(bits[i]));
        assert(bits[i] < 32768);
        assert(ps[i] == ((bits[i] / 32) as u16, (bits[i] % 32) as u8));
        assert(bits[i] == b);
    }
    if grams.contains(t) && plane.contains(b) {
        assert(bits.to_set().contains(b));
        let i = choose|i: int| 0 <= i < bits.len() && bits[i] == b;
        assert(ps[i] == narrow_position(t));
        lemma_table(grams, ps[i], t);
        assert(tokens_at_position(table, ps[i]).contains(t));
    }
}

proof fn lemma_concat_contains<T>(a: Seq<T>, b: Seq<T>, t: T)
    ensures
        (a + b).contains(t) <==> a.contains(t) || b.contains(t),
{
    let ab = a + b;
    if ab.contains(t) {
        let i = choose|i: int| 0 <= i < ab.len() && ab[i] == t;
        if i < a.len() {
            assert(a[i] == t);
        } else {
            assert(b[i - a.len()] == t);
        }
    }
    if a.contains(t) {
        let i = choose|i: int| 0 <= i < a.len() && a[i] == t;
        assert(ab[i] == t);
    }
    if b.contains(t) {
        let i = choose|i: int| 0 <= i < b.len() && b[i] == t;
        assert(ab[a.len() + i] == t);
    }
}

/// A gram of layer `n` of some exchange.
pub open spec fn gram_of(exchanges: Seq<Exchange>, n: nat, t: Seq<u8>) -> bool {
    exists|i: int|
        0 <= i < exchanges.len() && layer(words_of(#[trigger] exchanges[i]), n).contains(t)
}

proof fn lemma_gram_step(exchanges: Seq<Exchange>, n: nat, t: Seq<u8>)
    requires
        exchanges.len() > 0,
    ensures
        gram_of(exchanges, n, t) <==> gram_of(exchanges.drop_last(), n, t) || layer(
            words_of(exchanges.last()),
            n,
        ).contains(t),
{
    let front = exchanges.drop_last();
    if gram_of(exchanges, n, t) {
        let i = choose|i: int|
            0 <= i < exchanges.len() && layer(words_of(#[trigger] exchanges[i]), n).contains(t);
        if i < front.len() {
            assert(front[i] == exchanges[i]);
        }
    }
    if gram_of(front, n, t) {
        let i = choose|i: int|
            0 <= i < front.len() && layer(words_of(#[trigger] front[i]), n).contains(t);
        assert(exchanges[i] == front[i]);
    }
    assert(exchanges[exchanges.len() - 1] == exchanges.last());
}

proof fn lemma_context_grams(exchanges: Seq<Exchange>, t: Seq<u8>)
    ensures
        context_grams(exchanges).contains(t) <==> gram_of(exchanges, 1, t) || gram_of(
            exchanges,
            2,
            t,
        ) || gram_of(exchanges, 3, t),
    decreases exchanges.len(),
{
    if exchanges.len() > 0 {
        let front = exchanges.drop_last();
        let w = words_of(exchanges.last());
        lemma_context_grams(front, t);
        lemma_gram_step(exchanges, 1, t);
        lemma_gram_step(exchanges, 2, t);
        lemma_gram_step(exchanges, 3, t);
        lemma_concat_contains(context_grams(front), layer_grams(w), t);
        lemma_concat_contains(layer(w, 1) + layer(w, 2), layer(w, 3), t);
        lemma_concat_contains(layer(w, 1), layer(w, 2), t);
    }
}

proof fn lemma_layer_union(exchanges: Seq<Exchange>, n: nat, b: u32)
    ensures
        layer_union(exchanges, n).contains(b) <==> exists|t: Seq<u8>|
            gram_of(exchanges, n, t) && #[trigger] bit_of(t, 0) == b,
    decreases exchanges.len(),
{
    if exchanges.len() > 0 {
        let front = exchanges.drop_last();
        let w = words_of(exchanges.last());
        let grams = layer(w, n);
        lemma_layer_union(front, n, b);
        if layer_union(front, n).contains(b) {
            let t = choose|t: Seq<u8>| gram_of(front, n, t) && #[trigger] bit_of(t, 0) == b;
            lemma_gram_step(exchanges, n, t);
            assert(gram_of(exchanges, n, t) && bit_of(t, 0) == b);
        }
        if layer_plane(w, n).contains(b) {
            let i = choose|i: int| 0 <= i < grams.len() && b == bit_of(#[trigger] grams[i], 0);
            lemma_gram_step(exchanges, n, grams[i]);
            assert(gram_of(exchanges, n, grams[i]) && bit_of(grams[i], 0) == b);
        }
        if exists|t: Seq<u8>| gram_of(exchanges, n, t) && #[trigger] bit_of(t, 0) == b {
            let t = choose|t: Seq<u8>| gram_of(exchanges, n, t) && #[trigger] bit_of(t, 0) == b;
            lemma_gram_step(exchanges, n, t);
            if gram_of(front, n, t) {
                assert(gram_of(front, n, t) && bit_of(t, 0) == b);
            } else {
                let i = choose|i: int| 0 <= i < grams.len() && grams[i] == t;
                assert(b == bit_of(grams[i], 0));
            }
        }
    }
}

proof fn lemma_union_in_plane(exchanges: Seq<Exchange>, n: nat)
    ensures
        in_plane(layer_union(exchanges, n)),
{
    assert forall|b: u32| layer_union(exchanges, n).contains(b) implies b < 32768 by {
        lemma_layer_union(exchanges, n, b);
        let t = choose|t: Seq<u8>| gram_of(exchanges, n, t) && #[trigger] bit_of(t, 0) == b;
        crate::hashing::lemma_bit_of(t, 0);
    }
}

proof fn lemma_markers()
    ensures
        plain(start_bytes()),
        plain(end_bytes()),
        start_bytes() != end_bytes(),
{
    assert(start_bytes().len() == 7);
    assert(end_bytes().len() == 5);
}

/// The second and third layers of a token sequence, and the tokens of their
/// grams.
proof fn lemma_layer_shapes(w: Seq<Seq<u8>>)
    requires
        w.len() > 0,
        forall|k: int| 0 <= k < w.len() ==> word(#[trigger] w[k]),
    ensures
        layer(w, 2).len() == w.len() + 1,
        layer(w, 3).len() == w.len(),
        forall|k: int|
            0 <= k < layer(w, 2).len() ==> #[trigger] layer(w, 2)[k] == pair_of(
                padded(w)[k],
                padded(w)[k + 1],
            ) && split(layer(w, 2)[k]) == seq![padded(w)[k], padded(w)[k + 1]],
        forall|k: int|
            0 <= k < layer(w, 3).len() ==> split(#[trigger] layer(w, 3)[k]) == seq![
                padded(w)[k],
                padded(w)[k + 1],
                padded(w)[k + 2],
            ],
        forall|k: int| 0 <= k < w.len() ==> split(#[trigger] w[k]) == seq![w[k]],
{
    lemma_markers();
    let s = padded(w);
    assert forall|k: int| 0 <= k < s.len() implies plain(#[trigger] s[k]) by {
        if 0 < k < s.len() - 1 {
            assert(s[k] == w[k - 1]);
        }
    }
    assert forall|k: int| 0 <= k < layer(w, 2).len() implies #[trigger] layer(w, 2)[k] == pair_of(
        s[k],
        s[k + 1],
    ) && split(layer(w, 2)[k]) == seq![s[k], s[k + 1]] by {
        assert(s.subrange(k, k + 2) =~= seq![s[k], s[k + 1]]);
        lemma_pair_parts(s[k], s[k + 1]);
    }
    assert forall|k: int| 0 <= k < layer(w, 3).len() implies split(#[trigger] layer(w, 3)[k])
        == seq![s[k], s[k + 1], s[k + 2]] by {
        assert(s.subrange(k, k + 3) =~= seq![s[k], s[k + 1], s[k + 2]]);
        lemma_triple_parts(s[k], s[k + 1], s[k + 2]);
    }
    assert forall|k: int| 0 <= k < w.len() implies split(#[trigger] w[k]) == seq![w[k]] by {
        split_undoes_join(seq![w[k]]);
    }
}

/// A table of the n-grams of some exchanges and of more tokens.
pub open spec fn table_of(exchanges: Seq<Exchange>, extra: Seq<Seq<u8>>) -> PositionTable {
    table_after(Map::empty(), context_grams(exchanges) + extra)
}

/// The evidence of exchanges with a table of their n-grams and more tokens.
pub open spec fn evidence_of(exchanges: Seq<Exchange>, extra: Seq<Seq<u8>>) -> Evidence {
    evidence(
        table_of(exchanges, extra),
        layer_union(exchanges, 1),
        layer_union(exchanges, 2),
        layer_union(exchanges, 3),
    )
}

proof fn lemma_own_known(exchanges: Seq<Exchange>, extra: Seq<Seq<u8>>, n: nat, t: Seq<u8>)
    requires
        n == 1 || n == 2 || n == 3,
    ensures
        gram_of(exchanges, n, t) && split(t).len() == n ==> known_grams(
            table_of(exchanges, extra),
            layer_union(exchanges, n),
            n,
        ).contains(t) && layer_union(exchanges, n).contains(bit_of(t, 0)),
{
    if gram_of(exchanges, n, t) && split(t).len() == n {
        lemma_context_grams(exchanges, t);
        lemma_layer_union(exchanges, n, bit_of(t, 0));
        lemma_union_in_plane(exchanges, n);
        lemma_concat_contains(context_grams(exchanges), extra, t);
        lemma_known(context_grams(exchanges) + extra, layer_union(exchanges, n), n, t);
    }
}

/// Triple `k` of exchange `i`.
pub open spec fn triple_at(exchanges: Seq<Exchange>, i: int, k: int) -> Seq<u8> {
    layer(words_of(exchanges[i]), 3)[k]
}

/// There is a triple `k` of exchange `i`.
pub open spec fn has_triple(exchanges: Seq<Exchange>, i: int, k: int) -> bool {
    0 <= i < exchanges.len() && 0 <= k < layer(words_of(exchanges[i]), 3).len()
}

proof fn lemma_own_triples(exchanges: Seq<Exchange>, extra: Seq<Seq<u8>>, i: int, k: int)
    requires
        all_words(exchanges),
        has_triple(exchanges, i, k),
    ensures
        ok_triple(evidence_of(exchanges, extra), triple_at(exchanges, i, k)),
        edge_of(triple_at(exchanges, i, k)) == (
            layer(words_of(exchanges[i]), 2)[k],
            layer(words_of(exchanges[i]), 2)[k + 1],
        ),
{
    let w = words_of(exchanges[i]);
    let e = evidence_of(exchanges, extra);
    let t = triple_at(exchanges, i, k);
    assert(w.len() > 0);
    lemma_layer_shapes(w);
    lemma_first_layer(w);
    let s = padded(w);
    assert(layer(words_of(exchanges[i]), 3)[k] == t);
    assert(layer(words_of(exchanges[i]), 3).contains(t));
    lemma_own_known(exchanges, extra, 3, t);
    assert forall|m: int| k <= m < k + 3 implies ok_token(e, #[trigger] s[m]) by {
        if 0 < m < s.len() - 1 {
            assert(s[m] == w[m - 1]);
            assert(layer(words_of(exchanges[i]), 1)[m - 1] == s[m]);
            assert(layer(words_of(exchanges[i]), 1).contains(s[m]));
            lemma_own_known(exchanges, extra, 1, s[m]);
        }
    }
    assert forall|m: int| k <= m < k + 2 implies ok_pair(e, #[trigger] layer(w, 2)[m]) by {
        assert(layer(words_of(exchanges[i]), 2).contains(layer(w, 2)[m]));
        lemma_own_known(exchanges, extra, 2, layer(w, 2)[m]);
    }
    assert(layer(w, 2)[k] == pair_of(s[k], s[k + 1]));
    assert(layer(w, 2)[k + 1] == pair_of(s[k + 1], s[k + 1 + 1]));
    assert(ok_token(e, s[k]) && ok_token(e, s[k + 1]) && ok_token(e, s[k + 2]));
}

proof fn lemma_triples_are_own(exchanges: Seq<Exchange>, t: Seq<u8>) -> (r: (int, int))
    requires
        all_words(exchanges),
        context_grams(exchanges).contains(t),
        split(t).len() == 3,
    ensures
        has_triple(exchanges, r.0, r.1),
        t == triple_at(exchanges, r.0, r.1),
        !boundary(split(t)[1]),
{
    lemma_context_grams(exchanges, t);
    if gram_of(exchanges, 1, t) {
        let i = choose|i: int|
            0 <= i < exchanges.len() && layer(words_of(#[trigger] exchanges[i]), 1).contains(t);
        let w = words_of(exchanges[i]);
        assert(w.len() > 0);
        lemma_first_layer(w);
        lemma_layer_shapes(w);
        let k = choose|k: int| 0 <= k < w.len() && w[k] == t;
        assert(split(w[k]) == seq![w[k]]);
    }
    if gram_of(exchanges, 2, t) {
        let i = choose|i: int|
            0 <= i < exchanges.len() && layer(words_of(#[trigger] exchanges[i]), 2).contains(t);
        let w = words_of(exchanges[i]);
        assert(w.len() > 0);
        lemma_layer_shapes(w);
        let k = choose|k: int| 0 <= k < layer(w, 2).len() && layer(w, 2)[k] == t;
        assert(split(layer(w, 2)[k]).len() == 2);
    }
    let i = choose|i: int|
        0 <= i < exchanges.len() && layer(words_of(#[trigger] exchanges[i]), 3).contains(t);
    let k = choose|k: int|
        0 <= k < layer(words_of(exchanges[i]), 3).len() && layer(words_of(exchanges[i]), 3)[k] == t;
    let w = words_of(exchanges[i]);
    assert(w.len() > 0);
    lemma_layer_shapes(w);
    assert(split(layer(w, 3)[k])[1] == padded(w)[k + 1]);
    assert(padded(w)[k + 1] == words_of(exchanges[i])[k]);
    (i, k)
}

/// No triple among some n-grams has a marker inside.
pub open spec fn no_marker_inside(grams: Seq<Seq<u8>>) -> bool {
    forall|i: int|
        0 <= i < grams.len() && split(#[trigger] grams[i]).len() == 3 ==> !boundary(
            split(grams[i])[1],
        )
}

/// No accepted triple has a marker inside.
spec fn inner_tokens(e: Evidence) -> bool {
    forall|t: Seq<u8>| #[trigger] ok_triple(e, t) ==> !boundary(split(t)[1])
}

proof fn lemma_inner_tokens(
    grams: Seq<Seq<u8>>,
    one: Set<u32>,
    two: Set<u32>,
    three: Set<u32>,
)
    requires
        in_plane(three),
        no_marker_inside(grams),
    ensures
        inner_tokens(evidence(table_after(Map::empty(), grams), one, two, three)),
{
    let e = evidence(table_after(Map::empty(), grams), one, two, three);
    assert forall|t: Seq<u8>| #[trigger] ok_triple(e, t) implies !boundary(split(t)[1]) by {
        lemma_known(grams, three, 3, t);
        let i = choose|i: int| 0 <= i < grams.len() && grams[i] == t;
        assert(!boundary(split(grams[i])[1]));
    }
}

/// The n-grams of words, and of more tokens without markers inside.
proof fn lemma_own_inner(exchanges: Seq<Exchange>, extra: Seq<Seq<u8>>)
    requires
        all_words(exchanges),
        no_marker_inside(extra),
    ensures
        no_marker_inside(context_grams(exchanges) + extra),
        inner_tokens(evidence_of(exchanges, extra)),
{
    let own = context_grams(exchanges);
    let grams = own + extra;
    assert forall|i: int|
        0 <= i < grams.len() && split(#[trigger] grams[i]).len() == 3 implies !boundary(
        split(grams[i])[1],
    ) by {
        if i < own.len() {
            assert(own[i] == grams[i]);
            let r = lemma_triples_are_own(exchanges, own[i]);
        } else {
            assert(extra[i - own.len()] == grams[i]);
        }
    }
    lemma_union_in_plane(exchanges, 3);
    lemma_inner_tokens(
        grams,
        layer_union(exchanges, 1),
        layer_union(exchanges, 2),
        layer_union(exchanges, 3),
    );
}

/// What a path spells, given the padded sequence that its nodes overlap to.
proof fn lemma_spelling(path: Path, s: Seq<Seq<u8>>)
    requires
        path.len() >= 2,
        s.len() == path.len() + 1,
        forall|i: int|
            0 <= i < path.len() ==> split(#[trigger] path[i]) == seq![s[i], s[i + 1]],
        s[0] == start_bytes(),
        s.last() == end_bytes(),
        forall|i: int| 0 < i < s.len() - 1 ==> !boundary(#[trigger] s[i]),
    ensures
        spelled_path(path) == s.subrange(1, s.len() - 1),
        padded(spelled_path(path)) == s,
{
    lemma_spelling_upto(path, s, (path.len() - 1) as nat);
    let n = path.len();
    assert(split(path[n - 1]) == seq![s[n - 1], s[n - 1 + 1]]);
    assert(split(path[n - 1]).last() == end_bytes());
    assert(spelled_path(path) =~= s.subrange(1, s.len() - 1));
    assert(padded(spelled_path(path)) =~= s);
}

proof fn lemma_spelling_upto(path: Path, s: Seq<Seq<u8>>, n: nat)
    requires
        s.len() == path.len() + 1,
        forall|i: int|
            0 <= i < path.len() ==> split(#[trigger] path[i]) == seq![s[i], s[i + 1]],
        s[0] == start_bytes(),
        forall|i: int| 0 < i < s.len() - 1 ==> !boundary(#[trigger] s[i]),
        0 < n < path.len(),
    ensures
        spelled(path, n) == s.subrange(1, n as int + 1),
    decreases n,
{
    assert(split(path[n - 1]) == seq![s[n - 1], s[n - 1 + 1]]);
    assert(split(path[n - 1]).last() == s[n as int]);
    assert(!boundary(s[n as int]));
    if n == 1 {
        assert(spelled(path, 0) =~= Seq::empty());
        assert(spelled(path, 1) =~= s.subrange(1, 2));
    } else {
        lemma_spelling_upto(path, s, (n - 1) as nat);
        assert(spelled(path, n) =~= s.subrange(1, n as int + 1));
    }
}

/// Every step of a path has the facts of an edge.
spec fn steps_facts(e: Evidence, path: Path) -> bool {
    forall|j: int| 0 <= j < path.len() - 1 ==> edge_facts(e, #[trigger] step(path, j))
}

proof fn lemma_complete_steps(e: Evidence, path: Path, max_depth: nat)
    requires
        inner_tokens(e),
        complete(edges_of(e), path, max_depth),
    ensures
        path.len() >= 2,
        steps_facts(e, path),
{
    let edges = edges_of(e);
    lemma_markers();
    if path.len() == 1 {
        let m = choose|m: Seq<u8>| edges.contains((path[0], m));
        lemma_edge(e, (path[0], m));
        assert(split(path[0]).last() == split(path[0])[1]);
    }
    assert forall|j: int| 0 <= j < path.len() - 1 implies edge_facts(
        e,
        #[trigger] step(path, j),
    ) by {
        lemma_edge(e, step(path, j));
    }
}

/// The padded sequence that the nodes of a path overlap to.
#[verifier::opaque]
spec fn overlapped(path: Path) -> Seq<Seq<u8>> {
    Seq::new(
        path.len() + 1,
        |i: int|
            if i == 0 {
                split(path[0])[0]
            } else {
                split(path[i - 1])[1]
            },
    )
}

/// Node `j` of a path is the pair of two neighbours of the padded sequence.
proof fn lemma_overlapped_at(e: Evidence, path: Path, j: int)
    requires
        path.len() >= 2,
        steps_facts(e, path),
        0 <= j < path.len(),
    ensures
        split(path[j]) == seq![overlapped(path)[j], overlapped(path)[j + 1]],
        j > 0 ==> !boundary(overlapped(path)[j]),
        overlapped(path).len() == path.len() + 1,
{
    reveal(overlapped);
    let s = overlapped(path);
    if j > 0 {
        assert(edge_facts(e, step(path, j - 1)));
        assert(s[j] == split(path[j - 1])[1]);
    } else {
        assert(edge_facts(e, step(path, 0)));
        assert(s[0] == split(path[0])[0]);
    }
    assert(s[j + 1] == split(path[j])[1]);
    assert(split(path[j]) =~= seq![s[j], s[j + 1]]);
}

proof fn lemma_overlapped(e: Evidence, path: Path)
    requires
        path.len() >= 2,
        steps_facts(e, path),
        is_start(path[0]),
        is_end(path.last()),
    ensures
        forall|j: int|
            0 <= j < path.len() ==> split(#[trigger] path[j]) == seq![
                overlapped(path)[j],
                overlapped(path)[j + 1],
            ],
        forall|j: int|
            0 < j < path.len() ==> !boundary(#[trigger] overlapped(path)[j]),
        spelled_path(path) == overlapped(path).subrange(1, path.len() as int),
        padded(spelled_path(path)) == overlapped(path),
        overlapped(path).len() == path.len() + 1,
{
    let s = overlapped(path);
    let last = path.len() - 1;
    lemma_overlapped_at(e, path, 0);
    lemma_overlapped_at(e, path, last);
    assert(s[0] == seq![s[0], s[1]][0]);
    assert(s[last + 1] == seq![s[last], s[last + 1]].last());
    assert(path.last() == path[last]);
    assert(s.last() == s[last + 1]);
    assert forall|j: int| 0 <= j < path.len() implies split(#[trigger] path[j]) == seq![
        s[j],
        s[j + 1],
    ] by {
        lemma_overlapped_at(e, path, j);
    }
    assert forall|j: int| 0 < j < path.len() implies !boundary(#[trigger] s[j]) by {
        lemma_overlapped_at(e, path, j);
    }
    lemma_spelling(path, s);
}

/// A complete path over triples without markers inside: what it spells is
/// padded to a sequence whose pairs are its nodes and whose triples are its
/// edges.
proof fn lemma_complete_spells(e: Evidence, path: Path, max_depth: nat)
    requires
        inner_tokens(e),
        complete(edges_of(e), path, max_depth),
    ensures
        layer(spelled_path(path), 2) == path,
        forall|k: int| 0 <= k < path.len() ==> ok_pair(e, #[trigger] path[k]),
        forall|k: int|
            0 <= k < layer(spelled_path(path), 3).len() ==> e.grams_3.contains(
                #[trigger] layer(spelled_path(path), 3)[k],
            ),
{
    lemma_complete_steps(e, path, max_depth);
    lemma_overlapped_grams(e, path);
}

proof fn lemma_overlapped_grams(e: Evidence, path: Path)
    requires
        path.len() >= 2,
        steps_facts(e, path),
        is_start(path[0]),
        is_end(path.last()),
    ensures
        layer(spelled_path(path), 2) == path,
        forall|k: int| 0 <= k < path.len() ==> ok_pair(e, #[trigger] path[k]),
        forall|k: int|
            0 <= k < layer(spelled_path(path), 3).len() ==> e.grams_3.contains(
                #[trigger] layer(spelled_path(path), 3)[k],
            ),
{
    lemma_overlapped(e, path);
    let y = spelled_path(path);
    assert forall|k: int| 0 <= k < path.len() implies ok_pair(e, #[trigger] path[k]) by {
        if k > 0 {
            assert(edge_facts(e, step(path, k - 1)));
        } else {
            assert(edge_facts(e, step(path, 0)));
        }
    }
    lemma_layer_of_overlapped(path, y);
    assert(layer(y, 3).len() == path.len() - 1);
    assert forall|k: int| 0 <= k < layer(y, 3).len() implies e.grams_3.contains(
        #[trigger] layer(y, 3)[k],
    ) by {
        assert(edge_facts(e, step(path, k)));
        lemma_overlapped_triple(e, path[k], path[k + 1], y, k);
    }
}

proof fn lemma_overlapped_triple(
    e: Evidence,
    a: Seq<u8>,
    b: Seq<u8>,
    y: Seq<Seq<u8>>,
    k: int,
)
    requires
        edge_facts(e, (a, b)),
        0 <= k < y.len(),
        split(a) == seq![padded(y)[k], padded(y)[k + 1]],
        split(b) == seq![padded(y)[k + 1], padded(y)[k + 1 + 1]],
    ensures
        e.grams_3.contains(layer(y, 3)[k]),
{
    let s = padded(y);
    assert(s.subrange(k, k + 3) =~= seq![s[k], s[k + 1], s[k + 2]]);
    assert(split(a)[0] == s[k] && split(a)[1] == s[k + 1] && split(b)[1] == s[k + 2]);
}

proof fn lemma_layer_of_overlapped(path: Path, y: Seq<Seq<u8>>)
    requires
        path.len() >= 2,
        padded(y) == overlapped(path),
        overlapped(path).len() == path.len() + 1,
        forall|j: int|
            0 <= j < path.len() ==> split(#[trigger] path[j]) == seq![
                overlapped(path)[j],
                overlapped(path)[j + 1],
            ],
    ensures
        layer(y, 2) == path,
{
    let s = overlapped(path);
    assert(s.len() == y.len() + 2);
    assert forall|k: int| 0 <= k < path.len() implies layer(y, 2)[k] == #[trigger] path[k] by {
        assert(s.subrange(k, k + 2) =~= seq![s[k], s[k + 1]]);
        crate::ngrams::join_undoes_split(path[k]);
    }
    assert(layer(y, 2) =~= path);
}

/// What an edge over triples without markers inside joins: overlapping
/// accepted pairs of a known triple.
spec fn edge_facts(e: Evidence, x: Edge) -> bool {
    let (a, b) = x;
    &&& split(a).len() == 2
    &&& split(b).len() == 2
    &&& split(a)[1] == split(b)[0]
    &&& !boundary(split(a)[1])
    &&& ok_pair(e, a)
    &&& ok_pair(e, b)
    &&& e.grams_3.contains(nul_joined(seq![split(a)[0], split(a)[1], split(b)[1]]))
}

proof fn lemma_edge(e: Evidence, x: Edge)
    requires
        inner_tokens(e),
        edges_of(e).contains(x),
    ensures
        edge_facts(e, x),
{
    let (a, b) = x;
    let t = choose|t: Seq<u8>| ok_triple(e, t) && (a, b) == #[trigger] edge_of(t);
    lemma_edge_parts(e, t);
    crate::ngrams::join_undoes_split(t);
    assert(split(t) =~= seq![split(a)[0], split(a)[1], split(b)[1]]);
}

/// The walk of an exchange is complete, and a trail where no triple repeats.
proof fn lemma_own_walk(exchanges: Seq<Exchange>, extra: Seq<Seq<u8>>, i: int, max_depth: nat)
    requires
        all_words(exchanges),
        0 <= i < exchanges.len(),
        words_of(exchanges[i]).len() > 0,
        layer(words_of(exchanges[i]), 2).len() <= max_depth,
    ensures
        complete(
            edges_of(evidence_of(exchanges, extra)),
            layer(words_of(exchanges[i]), 2),
            max_depth,
        ),
        layer(words_of(exchanges[i]), 3).no_duplicates() ==> trail(
            layer(words_of(exchanges[i]), 2),
        ),
        spelled_path(layer(words_of(exchanges[i]), 2)) == words_of(exchanges[i]),
{
    let e = evidence_of(exchanges, extra);
    let edges = edges_of(e);
    let w = words_of(exchanges[i]);
    let walk = layer(w, 2);
    let s = padded(w);
    lemma_markers();
    lemma_layer_shapes(w);
    assert forall|k: int| 0 <= k < walk.len() - 1 implies edges.contains(
        #[trigger] step(walk, k),
    ) by {
        assert(has_triple(exchanges, i, k));
        lemma_own_triples(exchanges, extra, i, k);
        assert(edge_of(triple_at(exchanges, i, k)) == step(walk, k));
    }
    assert forall|k: int| 0 < k < s.len() - 1 implies !boundary(#[trigger] s[k]) by {
        assert(s[k] == words_of(exchanges[i])[k - 1]);
    }
    assert forall|k: int| 0 <= k < walk.len() - 1 implies !is_end(#[trigger] walk[k]) by {
        assert(split(walk[k]).last() == s[k + 1]);
    }
    assert(split(walk[0])[0] == s[0]);
    assert(edges.contains(step(walk, 0)));
    assert(starts_of(edges).contains(walk[0]));
    let n = walk.len();
    assert(split(walk[n - 1]).last() == s[n as int]);
    if layer(w, 3).no_duplicates() {
        assert forall|a: int, b: int| 0 <= a < b < walk.len() - 1 implies #[trigger] step(
            walk,
            a,
        ) != #[trigger] step(walk, b) by {
            if step(walk, a) == step(walk, b) {
                let g = layer(w, 3);
                assert(split(walk[a]) == seq![s[a], s[a + 1]]);
                assert(split(walk[b]) == seq![s[b], s[b + 1]]);
                assert(split(walk[a + 1]) == seq![s[a + 1], s[a + 1 + 1]]);
                assert(split(walk[b + 1]) == seq![s[b + 1], s[b + 1 + 1]]);
                assert(seq![s[a], s[a + 1]][0] == s[a] && seq![s[a], s[a + 1]][1] == s[a + 1]);
                assert(seq![s[b], s[b + 1]][0] == s[b] && seq![s[b], s[b + 1]][1] == s[b + 1]);
                assert(seq![s[a + 1], s[a + 2]][1] == s[a + 2]);
                assert(seq![s[b + 1], s[b + 2]][1] == s[b + 2]);
                assert(s.subrange(a, a + 3) =~= s.subrange(b, b + 3));
                assert(g[a] == g[b]);
            }
        }
    }
    lemma_spelling(walk, s);
    assert(s.subrange(1, s.len() - 1) =~= w);
}

proof fn lemma_paths_layer(paths: Seq<Seq<Seq<u8>>>, n: nat, b: u32)
    ensures
        paths_layer(paths, n).contains(b) <==> exists|i: int|
            0 <= i < paths.len() && layer_plane(#[trigger] paths[i], n).contains(b),
    decreases paths.len(),
{
    if paths.len() > 0 {
        let front = paths.drop_last();
        lemma_paths_layer(front, n, b);
        if paths_layer(front, n).contains(b) {
            let i = choose|i: int|
                0 <= i < front.len() && layer_plane(#[trigger] front[i], n).contains(b);
            assert(paths[i] == front[i]);
        }
        if layer_plane(paths.last(), n).contains(b) {
            assert(layer_plane(paths[paths.len() - 1], n).contains(b));
        }
        if exists|i: int|
            0 <= i < paths.len() && layer_plane(#[trigger] paths[i], n).contains(b) {
            let i = choose|i: int|
                0 <= i < paths.len() && layer_plane(#[trigger] paths[i], n).contains(b);
            if i < front.len() {
                assert(front[i] == paths[i]);
            }
        }
    }
}

proof fn lemma_paths_plane(paths: Seq<Seq<Seq<u8>>>)
    ensures
        paths_plane(paths) == paths_layer(paths, 1).union(paths_layer(paths, 2)).union(
            paths_layer(paths, 3),
        ),
    decreases paths.len(),
{
    if paths.len() > 0 {
        lemma_paths_plane(paths.drop_last());
    }
    assert(paths_plane(paths) =~= paths_layer(paths, 1).union(paths_layer(paths, 2)).union(
        paths_layer(paths, 3),
    ));
}

proof fn lemma_full_union(exchanges: Seq<Exchange>)
    ensures
        full_union(exchanges) == layer_union(exchanges, 1).union(layer_union(exchanges, 2)).union(
            layer_union(exchanges, 3),
        ),
    decreases exchanges.len(),
{
    if exchanges.len() > 0 {
        lemma_full_union(exchanges.drop_last());
    }
    assert(full_union(exchanges) =~= layer_union(exchanges, 1).union(
        layer_union(exchanges, 2),
    ).union(layer_union(exchanges, 3)));
}

/// The paths restored from exchanges with a table of their n-grams and more
/// tokens.
pub open spec fn paths_of(
    exchanges: Seq<Exchange>,
    extra: Seq<Seq<u8>>,
    max_paths: nat,
    max_depth: nat,
) -> Seq<Seq<Seq<u8>>> {
    restored_paths(
        table_of(exchanges, extra),
        layer_union(exchanges, 1),
        layer_union(exchanges, 2),
        layer_union(exchanges, 3),
        max_paths,
        max_depth,
    )
}

/// Ingesting what was restored sets no bit that was not set before, whatever
/// the table holds: none in the layer of single tokens, and none in any layer
/// where no triple of the table has a marker inside.
pub proof fn restoration_adds_no_bits(
    grams: Seq<Seq<u8>>,
    one: Set<u32>,
    two: Set<u32>,
    three: Set<u32>,
    max_paths: nat,
    max_depth: nat,
)
    requires
        in_plane(three),
    ensures
        ({
            let paths = restored_paths(
                table_after(Map::empty(), grams),
                one,
                two,
                three,
                max_paths,
                max_depth,
            );
            &&& paths_layer(paths, 1).subset_of(one)
            &&& no_marker_inside(grams) ==> paths_layer(paths, 2).subset_of(two) && paths_layer(
                paths,
                3,
            ).subset_of(three)
        }),
{
    let table = table_after(Map::empty(), grams);
    let e = evidence(table, one, two, three);
    let edges = edges_of(e);
    let nodes = found_paths(edges, max_paths, max_depth);
    let paths = restored_paths(table, one, two, three, max_paths, max_depth);
    lemma_evidence_finite(table, one, two, three);
    found_paths_are_complete(edges, max_paths, max_depth);
    restored_tokens_are_in_the_first_plane(table, one, two, three, max_paths, max_depth);
    assert forall|b: u32| paths_layer(paths, 1).contains(b) implies one.contains(b) by {
        let (i, k) = lemma_layer_bit(paths, 1, b);
        lemma_first_layer(paths[i]);
        assert(one.contains(bit_of(paths[i][k], 0)));
    }
    if no_marker_inside(grams) {
        lemma_inner_tokens(grams, one, two, three);
        assert forall|b: u32| paths_layer(paths, 2).contains(b) implies two.contains(b) by {
            let (i, k) = lemma_layer_bit(paths, 2, b);
            assert(complete(edges, nodes[i], max_depth));
            lemma_complete_spells(e, nodes[i], max_depth);
            assert(paths[i] == spelled_path(nodes[i]));
            assert(ok_pair(e, nodes[i][k]));
        }
        assert forall|b: u32| paths_layer(paths, 3).contains(b) implies three.contains(b) by {
            let (i, k) = lemma_layer_bit(paths, 3, b);
            assert(complete(edges, nodes[i], max_depth));
            lemma_complete_spells(e, nodes[i], max_depth);
            assert(paths[i] == spelled_path(nodes[i]));
            lemma_known(grams, three, 3, layer(paths[i], 3)[k]);
        }
    }
}

/// Where a bit of a layer of some token sequences comes from.
proof fn lemma_layer_bit(paths: Seq<Seq<Seq<u8>>>, n: nat, b: u32) -> (r: (int, int))
    requires
        paths_layer(paths, n).contains(b),
    ensures
        0 <= r.0 < paths.len(),
        0 <= r.1 < layer(paths[r.0], n).len(),
        bit_of(layer(paths[r.0], n)[r.1], 0) == b,
{
    lemma_paths_layer(paths, n, b);
    let i = choose|i: int| 0 <= i < paths.len() && layer_plane(#[trigger] paths[i], n).contains(b);
    let grams = layer(paths[i], n);
    let k = choose|k: int| 0 <= k < grams.len() && b == bit_of(#[trigger] grams[k], 0);
    (i, k)
}

/// A path walks an edge.
pub open spec fn walks(path: Path, x: Edge) -> bool {
    exists|j: int| 0 <= j < path.len() - 1 && #[trigger] step(path, j) == x
}

/// Some paths walk the edge of every triple of some exchanges.
pub open spec fn every_triple_is_walked(exchanges: Seq<Exchange>, paths: Seq<Path>) -> bool {
    forall|i: int, k: int|
        has_triple(exchanges, i, k) ==> some_path_walks(
            paths,
            edge_of(#[trigger] triple_at(exchanges, i, k)),
        )
}

/// One of some paths walks an edge.
pub open spec fn some_path_walks(paths: Seq<Path>, x: Edge) -> bool {
    exists|m: int| 0 <= m < paths.len() && walks(#[trigger] paths[m], x)
}

/// The tokens and pairs of a walked triple are among the n-grams of what the
/// path spells, and so is the triple.
proof fn lemma_walked_grams(
    exchanges: Seq<Exchange>,
    extra: Seq<Seq<u8>>,
    path: Path,
    max_depth: nat,
    i: int,
    k: int,
    j: int,
)
    requires
        all_words(exchanges),
        inner_tokens(evidence_of(exchanges, extra)),
        complete(edges_of(evidence_of(exchanges, extra)), path, max_depth),
        has_triple(exchanges, i, k),
        0 <= j < path.len() - 1,
        step(path, j) == edge_of(triple_at(exchanges, i, k)),
    ensures
        layer(spelled_path(path), 1).contains(words_of(exchanges[i])[k]),
        layer(spelled_path(path), 2).contains(layer(words_of(exchanges[i]), 2)[k]),
        layer(spelled_path(path), 2).contains(layer(words_of(exchanges[i]), 2)[k + 1]),
        layer(spelled_path(path), 3).contains(triple_at(exchanges, i, k)),
{
    let e = evidence_of(exchanges, extra);
    lemma_complete_steps(e, path, max_depth);
    lemma_overlapped(e, path);
    lemma_step_matches(exchanges, extra, path, max_depth, i, k, j);
    lemma_aligned_grams(spelled_path(path), words_of(exchanges[i]), j, k);
}

/// Two sequences with the same three padded tokens at a place each have the
/// same n-grams there.
proof fn lemma_aligned_grams(y: Seq<Seq<u8>>, w: Seq<Seq<u8>>, j: int, k: int)
    requires
        0 <= j < y.len(),
        0 <= k < w.len(),
        padded(y)[j] == padded(w)[k],
        padded(y)[j + 1] == padded(w)[k + 1],
        padded(y)[j + 2] == padded(w)[k + 2],
    ensures
        layer(y, 1).contains(w[k]),
        layer(y, 2).contains(layer(w, 2)[k]),
        layer(y, 2).contains(layer(w, 2)[k + 1]),
        layer(y, 3).contains(layer(w, 3)[k]),
{
    let a = padded(y);
    let b = padded(w);
    lemma_first_layer(y);
    assert(a[j + 1] == y[j] && b[k + 1] == w[k]);
    assert(layer(y, 1)[j] == w[k]);
    assert(a.subrange(j, j + 2) =~= b.subrange(k, k + 2));
    assert(a.subrange(j + 1, j + 3) =~= b.subrange(k + 1, k + 3));
    assert(a.subrange(j, j + 3) =~= b.subrange(k, k + 3));
    assert(layer(y, 2)[j] == layer(w, 2)[k]);
    assert(layer(y, 2)[j + 1] == layer(w, 2)[k + 1]);
    assert(layer(y, 3)[j] == layer(w, 3)[k]);
}

/// The nodes of a walked triple are its pairs, and overlap to its tokens.
proof fn lemma_step_matches(
    exchanges: Seq<Exchange>,
    extra: Seq<Seq<u8>>,
    path: Path,
    max_depth: nat,
    i: int,
    k: int,
    j: int,
)
    requires
        all_words(exchanges),
        inner_tokens(evidence_of(exchanges, extra)),
        complete(edges_of(evidence_of(exchanges, extra)), path, max_depth),
        has_triple(exchanges, i, k),
        0 <= j < path.len() - 1,
        step(path, j) == edge_of(triple_at(exchanges, i, k)),
    ensures
        path[j] == layer(words_of(exchanges[i]), 2)[k],
        path[j + 1] == layer(words_of(exchanges[i]), 2)[k + 1],
        overlapped(path)[j] == padded(words_of(exchanges[i]))[k],
        overlapped(path)[j + 1] == padded(words_of(exchanges[i]))[k + 1],
        overlapped(path)[j + 2] == padded(words_of(exchanges[i]))[k + 2],
{
    let e = evidence_of(exchanges, extra);
    let w = words_of(exchanges[i]);
    let t = triple_at(exchanges, i, k);
    let o = overlapped(path);
    let s = padded(w);
    assert(w.len() > 0);
    lemma_layer_shapes(w);
    lemma_own_triples(exchanges, extra, i, k);
    lemma_edge_parts(e, t);
    lemma_complete_steps(e, path, max_depth);
    lemma_overlapped(e, path);
    assert(split(path[j]) == seq![o[j], o[j + 1]]);
    assert(split(path[j + 1]) == seq![o[j + 1], o[j + 1 + 1]]);
    assert(split(t) == seq![s[k], s[k + 1], s[k + 2]]);
    assert(seq![o[j], o[j + 1]] =~= seq![s[k], s[k + 1]]);
    assert(seq![o[j], o[j + 1]][0] == seq![s[k], s[k + 1]][0]);
    assert(seq![o[j], o[j + 1]][1] == seq![s[k], s[k + 1]][1]);
    assert(seq![o[j + 1], o[j + 2]][1] == seq![s[k + 1], s[k + 2]][1]);
}

/// A restoration that walks every triple round-trips exactly: ingesting what
/// was restored gives back every layer and the full union, bit for bit,
/// whatever else the table holds without markers inside.
pub proof fn walking_every_triple_is_exact(
    exchanges: Seq<Exchange>,
    extra: Seq<Seq<u8>>,
    max_paths: nat,
    max_depth: nat,
)
    requires
        all_words(exchanges),
        no_marker_inside(extra),
        every_triple_is_walked(
            exchanges,
            found_paths(edges_of(evidence_of(exchanges, extra)), max_paths, max_depth),
        ),
    ensures
        comes_back(exchanges, paths_of(exchanges, extra, max_paths, max_depth)),
{
    let e = evidence_of(exchanges, extra);
    let edges = edges_of(e);
    let nodes = found_paths(edges, max_paths, max_depth);
    let paths = paths_of(exchanges, extra, max_paths, max_depth);
    lemma_finite(exchanges, extra);
    found_paths_are_complete(edges, max_paths, max_depth);
    lemma_own_inner(exchanges, extra);
    lemma_union_in_plane(exchanges, 3);
    restoration_adds_no_bits(
        context_grams(exchanges) + extra,
        layer_union(exchanges, 1),
        layer_union(exchanges, 2),
        layer_union(exchanges, 3),
        max_paths,
        max_depth,
    );
    assert forall|n: nat| n == 1 || n == 2 || n == 3 implies #[trigger] paths_layer(paths, n)
        == layer_union(exchanges, n) by {
        assert forall|b: u32| layer_union(exchanges, n).contains(b) implies paths_layer(
            paths,
            n,
        ).contains(b) by {
            lemma_layer_union(exchanges, n, b);
            let t = choose|t: Seq<u8>| gram_of(exchanges, n, t) && #[trigger] bit_of(t, 0) == b;
            let i = choose|i: int|
                0 <= i < exchanges.len() && layer(words_of(#[trigger] exchanges[i]), n).contains(t);
            let w = words_of(exchanges[i]);
            let k = choose|k: int| 0 <= k < layer(w, n).len() && layer(w, n)[k] == t;
            assert(w.len() > 0);
            lemma_layer_shapes(w);
            lemma_first_layer(w);
            let q = if k < w.len() {
                k
            } else {
                k - 1
            };
            assert(has_triple(exchanges, i, q));
            let x = edge_of(triple_at(exchanges, i, q));
            assert(some_path_walks(nodes, x));
            let m = choose|m: int| 0 <= m < nodes.len() && walks(#[trigger] nodes[m], x);
            let j = choose|j: int|
                0 <= j < nodes[m].len() - 1 && #[trigger] step(nodes[m], j) == x;
            lemma_walked_grams(exchanges, extra, nodes[m], max_depth, i, q, j);
            let grams = layer(spelled_path(nodes[m]), n);
            assert(grams.contains(t));
            let g = choose|g: int| 0 <= g < grams.len() && grams[g] == t;
            assert(paths[m] == spelled_path(nodes[m]));
            assert(bit_of(grams[g], 0) == b);
            assert(layer_plane(paths[m], n).contains(b));
            lemma_paths_layer(paths, n, b);
        }
        assert(paths_layer(paths, n) =~= layer_union(exchanges, n));
    }
    lemma_paths_plane(paths);
    lemma_full_union(exchanges);
}

/// Token sequences have every layer and the full union of some exchanges.
pub open spec fn comes_back(exchanges: Seq<Exchange>, paths: Seq<Seq<Seq<u8>>>) -> bool {
    &&& paths_layer(paths, 1) == layer_union(exchanges, 1)
    &&& paths_layer(paths, 2) == layer_union(exchanges, 2)
    &&& paths_layer(paths, 3) == layer_union(exchanges, 3)
    &&& paths_plane(paths) == full_union(exchanges)
}

/// Every exchange fits the depth limit.
pub open spec fn within_depth(exchanges: Seq<Exchange>, max_depth: nat) -> bool {
    forall|i: int|
        0 <= i < exchanges.len() ==> layer(words_of(#[trigger] exchanges[i]), 2).len() <= max_depth
}

/// Exchanges that fit the depth limit, and whose covering walks fit the path
/// limit with a table of their n-grams and more tokens.
pub open spec fn within_limits(
    exchanges: Seq<Exchange>,
    extra: Seq<Seq<u8>>,
    max_paths: nat,
    max_depth: nat,
) -> bool {
    &&& within_depth(exchanges, max_depth)
    &&& cover(edges_of(evidence_of(exchanges, extra)), max_depth).len() <= max_paths
}

/// All triples of some exchanges.
pub open spec fn all_triples(exchanges: Seq<Exchange>) -> Seq<Seq<u8>>
    decreases exchanges.len(),
{
    if exchanges.len() == 0 {
        Seq::empty()
    } else {
        all_triples(exchanges.drop_last()) + layer(words_of(exchanges.last()), 3)
    }
}

proof fn lemma_all_triples(exchanges: Seq<Exchange>, i: int, k: int)
    requires
        has_triple(exchanges, i, k),
    ensures
        all_triples(exchanges).contains(triple_at(exchanges, i, k)),
    decreases exchanges.len(),
{
    let front = exchanges.drop_last();
    let before = all_triples(front);
    let all = all_triples(exchanges);
    let last = layer(words_of(exchanges.last()), 3);
    if i < front.len() {
        assert(front[i] == exchanges[i]);
        lemma_all_triples(front, i, k);
        let m = choose|m: int| 0 <= m < before.len() && before[m] == triple_at(front, i, k);
        assert(all[m] == before[m]);
    } else {
        assert(exchanges[i] == exchanges.last());
        assert(all[before.len() + k] == last[k]);
    }
}

/// Exchanges that fit the depth limit are within the limits where they and
/// the table have no more triples and more tokens than the path limit allows
/// paths.
pub proof fn few_triples_are_within_limits(
    exchanges: Seq<Exchange>,
    extra: Seq<Seq<u8>>,
    max_paths: nat,
    max_depth: nat,
)
    requires
        all_words(exchanges),
        within_depth(exchanges, max_depth),
        all_triples(exchanges).len() + extra.len() <= max_paths,
    ensures
        within_limits(exchanges, extra, max_paths, max_depth),
{
    let e = evidence_of(exchanges, extra);
    let edges = edges_of(e);
    let triples = all_triples(exchanges) + extra;
    let own = triples.map_values(|t: Seq<u8>| edge_of(t));
    lemma_finite(exchanges, extra);
    covers_are_complete(edges, max_depth);
    own.lemma_cardinality_of_set();
    assert forall|x: Edge| edges.contains(x) implies own.to_set().contains(x) by {
        let t = choose|t: Seq<u8>| ok_triple(e, t) && x == #[trigger] edge_of(t);
        lemma_union_in_plane(exchanges, 3);
        lemma_known(context_grams(exchanges) + extra, layer_union(exchanges, 3), 3, t);
        lemma_concat_contains(context_grams(exchanges), extra, t);
        lemma_concat_contains(all_triples(exchanges), extra, t);
        if context_grams(exchanges).contains(t) {
            let (i, k) = lemma_triples_are_own(exchanges, t);
            lemma_all_triples(exchanges, i, k);
        }
        let m = choose|m: int| 0 <= m < triples.len() && triples[m] == t;
        assert(own[m] == x);
    }
    vstd::seq_lib::seq_to_set_is_finite(own);
    vstd::set_lib::lemma_len_subset(edges, own.to_set());
}

proof fn lemma_finite(exchanges: Seq<Exchange>, extra: Seq<Seq<u8>>)
    ensures
        edges_of(evidence_of(exchanges, extra)).finite(),
{
    lemma_evidence_finite(
        table_of(exchanges, extra),
        layer_union(exchanges, 1),
        layer_union(exchanges, 2),
        layer_union(exchanges, 3),
    );
}

/// A complete path over the triples of an exchange in which no pair repeats is
/// the walk of the exchange.
proof fn lemma_only_walk(exchange: Exchange, max_depth: nat, q: Path)
    requires
        all_words(seq![exchange]),
        layer(words_of(exchange), 2).no_duplicates(),
        complete(edges_of(evidence_of(seq![exchange], Seq::empty())), q, max_depth),
    ensures
        q == layer(words_of(exchange), 2),
{
    let one = seq![exchange];
    let none = Seq::<Seq<u8>>::empty();
    let e = evidence_of(one, none);
    let edges = edges_of(e);
    let w = words_of(exchange);
    let walk = layer(w, 2);
    let s = padded(w);
    assert(one[0] == exchange);
    lemma_own_inner(one, none);
    lemma_complete_steps(e, q, max_depth);
    lemma_markers();
    assert forall|j: int| 0 <= j < q.len() - 1 implies walks(walk, #[trigger] step(q, j)) by {
        assert(edges.contains(step(q, j)));
        lemma_exchange_edge(exchange, step(q, j));
    }
    assert(walks(walk, step(q, 0)));
    let k0 = choose|k: int| 0 <= k < walk.len() - 1 && #[trigger] step(walk, k) == step(q, 0);
    assert(w.len() > 0);
    assert forall|k: int| 0 <= k < w.len() implies word(#[trigger] w[k]) by {
        assert(words_of(one[0])[k] == w[k]);
    }
    lemma_layer_shapes(w);
    assert(split(walk[k0])[0] == s[k0]);
    if k0 > 0 {
        assert(s[k0] == w[k0 - 1]);
        assert(word(w[k0 - 1]));
    }
    assert(q[0] == walk[0]);
    assert forall|k: int| 0 <= k < walk.len() implies is_end(#[trigger] walk[k]) == (k
        == walk.len() - 1) by {
        assert(split(walk[k]).last() == s[k + 1]);
        if k < w.len() {
            assert(s[k + 1] == w[k]);
            assert(word(w[k]));
        }
    }
    assert forall|j: int| 0 <= j < q.len() implies j < walk.len() && #[trigger] q[j] == walk[j] by {
        lemma_follows_walk(walk, q, j);
    }
    let last = q.len() - 1;
    assert(q[last] == walk[last]);
    assert(is_end(walk[last]));
    assert(q =~= walk);
}

/// A path that begins as a walk without repeats and takes only its steps
/// follows it.
proof fn lemma_follows_walk(walk: Path, q: Path, j: int)
    requires
        walk.no_duplicates(),
        walk.len() > 0,
        0 <= j < q.len(),
        q[0] == walk[0],
        forall|j: int| 0 <= j < q.len() - 1 ==> walks(walk, #[trigger] step(q, j)),
    ensures
        j < walk.len(),
        q[j] == walk[j],
    decreases j,
{
    if j > 0 {
        lemma_follows_walk(walk, q, j - 1);
        let x = step(q, j - 1);
        let k = choose|k: int| 0 <= k < walk.len() - 1 && #[trigger] step(walk, k) == x;
        assert(walk[k] == walk[j - 1]);
        assert(k == j - 1);
    }
}

/// An edge over the triples of one exchange is a step of its walk.
proof fn lemma_exchange_edge(exchange: Exchange, x: Edge)
    requires
        all_words(seq![exchange]),
        edges_of(evidence_of(seq![exchange], Seq::empty())).contains(x),
    ensures
        walks(layer(words_of(exchange), 2), x),
{
    let one = seq![exchange];
    let none = Seq::<Seq<u8>>::empty();
    let e = evidence_of(one, none);
    let t = choose|t: Seq<u8>| ok_triple(e, t) && x == #[trigger] edge_of(t);
    lemma_union_in_plane(one, 3);
    lemma_known(context_grams(one) + none, layer_union(one, 3), 3, t);
    lemma_concat_contains(context_grams(one), none, t);
    let (i, k) = lemma_triples_are_own(one, t);
    assert(i == 0 && one[0] == exchange);
    lemma_own_triples(one, none, i, k);
    assert(step(layer(words_of(exchange), 2), k) == x);
}

/// An exchange that fits the depth limit and repeats no pair is within the
/// limits with a table of its own n-grams, however long it is.
pub proof fn unrepeated_pairs_are_within_limits(
    exchange: Exchange,
    max_paths: nat,
    max_depth: nat,
)
    requires
        all_words(seq![exchange]),
        within_depth(seq![exchange], max_depth),
        layer(words_of(exchange), 2).no_duplicates(),
        max_paths > 0,
    ensures
        within_limits(seq![exchange], Seq::empty(), max_paths, max_depth),
{
    let one = seq![exchange];
    let edges = edges_of(evidence_of(one, Seq::empty()));
    let walk = layer(words_of(exchange), 2);
    lemma_finite(one, Seq::empty());
    assert forall|q: Path| #[trigger] complete(edges, q, max_depth) implies q == walk by {
        lemma_only_walk(exchange, max_depth, q);
    }
    one_walk_covers_one_path(edges, max_depth, walk);
}

/// Within the limits every triple is walked, whatever else the table holds.
pub proof fn triples_are_walked_through_noise(
    exchanges: Seq<Exchange>,
    extra: Seq<Seq<u8>>,
    max_paths: nat,
    max_depth: nat,
)
    requires
        all_words(exchanges),
        within_limits(exchanges, extra, max_paths, max_depth),
    ensures
        every_triple_is_walked(
            exchanges,
            found_paths(edges_of(evidence_of(exchanges, extra)), max_paths, max_depth),
        ),
{
    let edges = edges_of(evidence_of(exchanges, extra));
    let nodes = found_paths(edges, max_paths, max_depth);
    lemma_finite(exchanges, extra);
    assert forall|i: int, k: int| has_triple(exchanges, i, k) implies some_path_walks(
        nodes,
        edge_of(#[trigger] triple_at(exchanges, i, k)),
    ) by {
        let w = words_of(exchanges[i]);
        let x = edge_of(triple_at(exchanges, i, k));
        assert(w.len() > 0);
        assert(layer(words_of(exchanges[i]), 2).len() <= max_depth);
        lemma_layer_shapes(w);
        lemma_own_triples(exchanges, extra, i, k);
        lemma_own_walk(exchanges, extra, i, max_depth);
        let walk = layer(w, 2);
        assert(step(walk, k) == x);
        assert(walks(walk, x));
        every_reachable_edge_is_walked(edges, max_paths, max_depth, walk, x);
    }
}

/// A path spells the last token of each of its nodes that is no marker.
proof fn lemma_spells_last(path: Path, n: nat, j: int)
    requires
        0 <= j < n <= path.len(),
        split(path[j]).len() > 0,
        !boundary(split(path[j]).last()),
    ensures
        spelled(path, n).contains(split(path[j]).last()),
    decreases n,
{
    let t = split(path[j]).last();
    let now = spelled(path, n);
    if j == n - 1 {
        assert(now[now.len() - 1] == t);
    } else {
        let before = spelled(path, (n - 1) as nat);
        lemma_spells_last(path, (n - 1) as nat, j);
        let k = choose|k: int| 0 <= k < before.len() && before[k] == t;
        assert(now[k] == t);
    }
}

/// The layer of single tokens comes back exactly, whatever else the table
/// holds: within the limits, ingesting what was restored sets its bits and no
/// others.
pub proof fn first_layers_come_back_through_noise(
    exchanges: Seq<Exchange>,
    extra: Seq<Seq<u8>>,
    max_paths: nat,
    max_depth: nat,
)
    requires
        all_words(exchanges),
        within_limits(exchanges, extra, max_paths, max_depth),
    ensures
        paths_layer(paths_of(exchanges, extra, max_paths, max_depth), 1) == layer_union(
            exchanges,
            1,
        ),
{
    let e = evidence_of(exchanges, extra);
    let nodes = found_paths(edges_of(e), max_paths, max_depth);
    let paths = paths_of(exchanges, extra, max_paths, max_depth);
    triples_are_walked_through_noise(exchanges, extra, max_paths, max_depth);
    lemma_union_in_plane(exchanges, 3);
    restoration_adds_no_bits(
        context_grams(exchanges) + extra,
        layer_union(exchanges, 1),
        layer_union(exchanges, 2),
        layer_union(exchanges, 3),
        max_paths,
        max_depth,
    );
    assert forall|b: u32| layer_union(exchanges, 1).contains(b) implies paths_layer(
        paths,
        1,
    ).contains(b) by {
        lemma_layer_union(exchanges, 1, b);
        let t = choose|t: Seq<u8>| gram_of(exchanges, 1, t) && #[trigger] bit_of(t, 0) == b;
        let i = choose|i: int|
            0 <= i < exchanges.len() && layer(words_of(#[trigger] exchanges[i]), 1).contains(t);
        let w = words_of(exchanges[i]);
        assert(w.len() > 0);
        lemma_layer_shapes(w);
        lemma_first_layer(w);
        let k = choose|k: int| 0 <= k < w.len() && w[k] == t;
        assert(word(words_of(exchanges[i])[k]));
        assert(has_triple(exchanges, i, k));
        let x = edge_of(triple_at(exchanges, i, k));
        assert(some_path_walks(nodes, x));
        let m = choose|m: int| 0 <= m < nodes.len() && walks(#[trigger] nodes[m], x);
        let j = choose|j: int| 0 <= j < nodes[m].len() - 1 && #[trigger] step(nodes[m], j) == x;
        lemma_own_triples(exchanges, extra, i, k);
        assert(nodes[m][j] == layer(w, 2)[k]);
        assert(split(nodes[m][j]).last() == padded(w)[k + 1]);
        assert(padded(w)[k + 1] == t);
        lemma_spells_last(nodes[m], nodes[m].len(), j);
        assert(paths[m] == spelled_path(nodes[m]));
        lemma_first_layer(paths[m]);
        let g = choose|g: int| 0 <= g < paths[m].len() && paths[m][g] == t;
        assert(bit_of(layer(paths[m], 1)[g], 0) == b);
        assert(layer_plane(paths[m], 1).contains(b));
        lemma_paths_layer(paths, 1, b);
    }
    assert(paths_layer(paths, 1) =~= layer_union(exchanges, 1));
}

/// Round trips are exact: within the limits, ingesting what was restored with
/// a table of the context's own n-grams gives back every layer and the full
/// union, bit for bit, whether or not tokens repeat, and whatever else the
/// table holds without markers inside.
pub proof fn round_trips_are_exact(
    exchanges: Seq<Exchange>,
    extra: Seq<Seq<u8>>,
    max_paths: nat,
    max_depth: nat,
)
    requires
        all_words(exchanges),
        no_marker_inside(extra),
        within_limits(exchanges, extra, max_paths, max_depth),
    ensures
        comes_back(exchanges, paths_of(exchanges, extra, max_paths, max_depth)),
{
    triples_are_walked_through_noise(exchanges, extra, max_paths, max_depth);
    walking_every_triple_is_exact(exchanges, extra, max_paths, max_depth);
}

/// An exchange repeats no triple and fits the depth limit.
pub open spec fn repeats_nothing(exchange: Exchange, max_depth: nat) -> bool {
    layer(words_of(exchange), 3).no_duplicates() && layer(words_of(exchange), 2).len() <= max_depth
}

/// An exchange that repeats no triple and fits the depth limit is itself among
/// the restored token sequences, where the search does not run into its path
/// limit.
pub proof fn unrepeated_exchanges_are_restored(
    exchanges: Seq<Exchange>,
    extra: Seq<Seq<u8>>,
    max_paths: nat,
    max_depth: nat,
    i: int,
)
    requires
        all_words(exchanges),
        0 <= i < exchanges.len(),
        words_of(exchanges[i]).len() > 0,
        repeats_nothing(exchanges[i], max_depth),
        met(edges_of(evidence_of(exchanges, extra)), max_paths, max_depth).len() < max_paths,
        paths_of(exchanges, extra, max_paths, max_depth).len() < max_paths,
    ensures
        paths_of(exchanges, extra, max_paths, max_depth).contains(words_of(exchanges[i])),
{
    let edges = edges_of(evidence_of(exchanges, extra));
    let nodes = found_paths(edges, max_paths, max_depth);
    let walk = layer(words_of(exchanges[i]), 2);
    lemma_finite(exchanges, extra);
    lemma_own_walk(exchanges, extra, i, max_depth);
    searches_are_exhaustive(edges, max_paths, max_depth, walk);
    let k = choose|k: int| 0 <= k < nodes.len() && nodes[k] == walk;
    assert(paths_of(exchanges, extra, max_paths, max_depth)[k] == words_of(exchanges[i]));
}

/// The n-grams and planes of a context of one exchange are its own.
pub proof fn lemma_one_exchange(exchange: Exchange)
    ensures
        context_grams(seq![exchange]) == layer_grams(words_of(exchange)),
        forall|n: nat| #[trigger]
            layer_union(seq![exchange], n) == layer_plane(words_of(exchange), n),
        full_union(seq![exchange]) == full_plane(words_of(exchange)),
        all_triples(seq![exchange]) == layer(words_of(exchange), 3),
{
    let one = seq![exchange];
    assert(one.drop_last() =~= Seq::empty());
    assert(context_grams(one.drop_last()) =~= Seq::empty());
    assert(context_grams(one) =~= layer_grams(words_of(exchange)));
    assert(all_triples(one.drop_last()) =~= Seq::empty());
    assert(all_triples(one) =~= layer(words_of(exchange), 3));
    assert forall|n: nat| #[trigger] layer_union(one, n) == layer_plane(words_of(exchange), n) by {
        assert(layer_union(one.drop_last(), n) =~= Set::empty());
        assert(layer_union(one, n) =~= layer_plane(words_of(exchange), n));
    }
    assert(full_union(one.drop_last()) =~= Set::empty());
    assert(one.last() == exchange);
    assert(full_union(one) =~= full_plane(words_of(exchange)));
}

/// An n-gram is vouched for: it is in the table's vocabulary and a plane holds
/// its bit.
pub open spec fn vouched(grams: Seq<Seq<u8>>, plane: Set<u32>, t: Seq<u8>) -> bool {
    grams.contains(t) && plane.contains(bit_of(t, 0))
}

/// A token is vouched for: it is a marker, or not empty and vouched for by the
/// plane of single tokens.
pub open spec fn token_vouched(grams: Seq<Seq<u8>>, one: Set<u32>, t: Seq<u8>) -> bool {
    t == start_bytes() || t == end_bytes() || (t.len() > 0 && vouched(grams, one, t))
}

proof fn lemma_token_vouched(
    grams: Seq<Seq<u8>>,
    one: Set<u32>,
    two: Set<u32>,
    three: Set<u32>,
    t: Seq<u8>,
)
    requires
        plain(t),
        in_plane(one),
    ensures
        ok_token(evidence(table_after(Map::empty(), grams), one, two, three), t) == token_vouched(
            grams,
            one,
            t,
        ),
{
    lemma_known(grams, one, 1, t);
    if t.len() > 0 {
        let single = seq![t];
        assert(nul_joined(single) == t);
        split_undoes_join(single);
    }
}

/// Restoration asks all three layers: the step from one pair of tokens to the
/// next is open precisely where the triple is vouched for by the third plane,
/// both pairs by the second, and each of the three tokens by the first or as a
/// marker.
pub proof fn steps_are_vouched_for_by_all_three_layers(
    grams: Seq<Seq<u8>>,
    one: Set<u32>,
    two: Set<u32>,
    three: Set<u32>,
    a: Seq<u8>,
    b: Seq<u8>,
    c: Seq<u8>,
)
    requires
        plain(a),
        plain(b),
        plain(c),
        in_plane(one),
        in_plane(two),
        in_plane(three),
    ensures
        edges_of(evidence(table_after(Map::empty(), grams), one, two, three)).contains(
            (nul_joined(seq![a, b]), nul_joined(seq![b, c])),
        ) <==> vouched(grams, three, nul_joined(seq![a, b, c])) && vouched(
            grams,
            two,
            nul_joined(seq![a, b]),
        ) && vouched(grams, two, nul_joined(seq![b, c])) && token_vouched(grams, one, a)
            && token_vouched(grams, one, b) && token_vouched(grams, one, c),
{
    let e = evidence(table_after(Map::empty(), grams), one, two, three);
    let x = (pair_of(a, b), pair_of(b, c));
    let triple = nul_joined(seq![a, b, c]);
    lemma_pair_parts(a, b);
    lemma_pair_parts(b, c);
    lemma_triple_parts(a, b, c);
    lemma_known(grams, three, 3, triple);
    lemma_known(grams, two, 2, pair_of(a, b));
    lemma_known(grams, two, 2, pair_of(b, c));
    lemma_token_vouched(grams, one, two, three, a);
    lemma_token_vouched(grams, one, two, three, b);
    lemma_token_vouched(grams, one, two, three, c);
    assert(edge_of(triple) == x);
    if edges_of(e).contains(x) {
        let t = choose|t: Seq<u8>| ok_triple(e, t) && x == #[trigger] edge_of(t);
        let p = split(t);
        lemma_edge_parts(e, t);
        assert(seq![p[0], p[1]] == seq![a, b]);
        assert(seq![p[1], p[2]] == seq![b, c]);
        assert(seq![p[0], p[1]][0] == a && seq![p[0], p[1]][1] == b);
        assert(seq![p[1], p[2]][1] == c);
        assert(p =~= seq![a, b, c]);
        crate::ngrams::join_undoes_split(t);
        assert(t == triple);
    }
    if ok_triple(e, triple) {
        assert(edges_of(e).contains(edge_of(triple)));
    }
}

/// The paths found are distinct and ascend.
pub proof fn found_paths_ascend(edges: Set<Edge>, max_paths: nat, max_depth: nat)
    requires
        edges.finite(),
    ensures
        crate::collections::ascending::<Vec<Vec<u8>>>(found_paths(edges, max_paths, max_depth)),
        found_paths(edges, max_paths, max_depth).no_duplicates(),
{
    let trails = found_trails(edges, max_paths, max_depth);
    let starts = listing::<Vec<u8>>(starts_of(edges));
    let all = search_starts(edges, starts, max_paths, max_depth);
    vstd::seq_lib::seq_to_set_is_finite(all);
    lemma_listing_exists::<Vec<Vec<u8>>>(all.to_set());
    let s = listing::<Vec<Vec<u8>>>(all.to_set());
    assert(crate::collections::ascending::<Vec<Vec<u8>>>(trails)) by {
        assert forall|i: int, j: int| 0 <= i < j < trails.len() implies <Vec<
            Vec<u8>,
        > as crate::order::Key>::lt(#[trigger] trails[i], #[trigger] trails[j]) by {
            assert(trails[i] == s[i] && trails[j] == s[j]);
        }
    }
    lemma_filled_paths(edges, max_paths, max_depth);
    crate::collections::lemma_ascending_distinct::<Vec<Vec<u8>>>(
        found_paths(edges, max_paths, max_depth),
    );
}

} // verus!
