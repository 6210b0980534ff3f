//! Restoration: token order from the triple layer of a context's unions.
//!
//! The padded triples of the unions form a De Bruijn graph: a pair is a node,
//! a triple joins the pair of its first two tokens to the pair of its last
//! two. Every exchange is a path from a start node to an end node. Triples are
//! accepted only where their tokens and pairs also occur in the unions.
use vstd::prelude::*;
use vstd::string::*;

use crate::collections::{lemma_listing, listing, lists, vals, OrdSet};
use crate::context::{words_of, ConversationContext};
use crate::cover::{complete_paths, cover, filled, left_out};
use crate::engines::{
    looked_up, narrow_positions, table_after, table_size, InMemoryEngine, PositionTable,
};
use crate::exchange::{spaced, spaced_text, spaced_words, Exchange, Role};
use crate::hashing::bit_of;
use crate::hllset::HLLSet;
use crate::maps::OrdMap;
use crate::matrix::first_k;
use crate::ngrams::{
    boundary, end_bytes, end_marker, is_boundary, join_tokens, layer, nul_joined, split,
    split_ngram, start_bytes, start_marker, token_bit_position,
};
use crate::order::{copy_bytes, copy_tokens, same_bytes, views};
use crate::prompt::{build_prompt_from_restored, restored_prompt_text};
use crate::text::encoded;

verus! {

/// One restored token sequence, markers stripped.
pub struct RestoredPath {
    pub tokens: Vec<Vec<u8>>,
}

impl RestoredPath {
    /// The tokens with spaces between.
    pub fn as_text(&self) -> (r: String)
        ensures
            r@ == spaced(views(self.tokens@)),
            forall|words: Seq<Seq<char>>|
                views(self.tokens@) == #[trigger] encoded(words) ==> r@ == spaced_words(words),
    {
        spaced_text(self.tokens.as_slice())
    }
}

/// The tokens of restored paths.
pub open spec fn path_views(v: Seq<RestoredPath>) -> Seq<Seq<Seq<u8>>> {
    v.map_values(|p: RestoredPath| views(p.tokens@))
}

/// A restored conversation. The fraction `explained / total` is the share of
/// the triple union's bits that the paths explain.
pub struct RestoredConversation {
    pub paths: Vec<RestoredPath>,
    pub explained: u64,
    pub total: u64,
}

/// The distinct members of a sequence in order of first occurrence.
pub open spec fn first_occurrences(s: Seq<Seq<u8>>) -> Seq<Seq<u8>>
    decreases s.len(),
{
    if s.len() == 0 {
        Seq::empty()
    } else {
        let before = first_occurrences(s.drop_last());
        if s.drop_last().contains(s.last()) {
            before
        } else {
            before.push(s.last())
        }
    }
}

/// The tokens of several paths, one after the other.
pub open spec fn all_tokens(paths: Seq<Seq<Seq<u8>>>) -> Seq<Seq<u8>>
    decreases paths.len(),
{
    if paths.len() == 0 {
        Seq::empty()
    } else {
        all_tokens(paths.drop_last()) + paths.last()
    }
}

/// Appends the tokens not seen before, in order.
pub(crate) fn take_fresh(
    tokens: &Vec<Vec<u8>>,
    seen: &mut OrdSet<Vec<u8>>,
    out: &mut Vec<Vec<u8>>,
    Ghost(base): Ghost<Seq<Seq<u8>>>,
)
    requires
        old(seen)@ == base.to_set(),
        views(old(out)@) == first_occurrences(base),
    ensures
        final(seen)@ == (base + views(tokens@)).to_set(),
        views(final(out)@) == first_occurrences(base + views(tokens@)),
{
    let ghost tv = views(tokens@);
    let ghost mut flat = base;
    let mut j: usize = 0;
    proof {
        assert(base + tv.take(0) =~= base);
    }
    while j < tokens.len()
        invariant
            j <= tokens@.len(),
            tv == views(tokens@),
            flat == base + tv.take(j as int),
            seen@ == flat.to_set(),
            views(out@) == first_occurrences(flat),
        decreases tokens@.len() - j,
    {
        let ghost t = tokens@[j as int]@;
        let ghost next = flat.push(t);
        let ghost before = out@;
        proof {
            assert(next.drop_last() =~= flat);
            assert(flat.to_set().contains(t) == flat.contains(t));
            assert(tv.take(j + 1) =~= tv.take(j as int).push(t));
            assert(base + tv.take(j + 1) =~= next);
            assert(flat.push(t) =~= flat.insert(flat.len() as int, t));
            crate::collections::lemma_insert_to_set(flat, flat.len() as int, t);
        }
        let fresh = seen.insert(copy_bytes(tokens[j].as_slice()));
        if fresh {
            out.push(copy_bytes(tokens[j].as_slice()));
            proof {
                assert(views(out@) =~= views(before).push(t));
            }
        }
        proof {
            flat = next;
        }
        j = j + 1;
    }
    proof {
        assert(tv.take(j as int) =~= tv);
    }
}

impl RestoredConversation {
    /// The number of restored paths.
    pub fn len(&self) -> (r: usize)
        ensures
            r == self.paths@.len(),
    {
        self.paths.len()
    }

    /// Whether nothing was restored.
    pub fn is_empty(&self) -> (r: bool)
        ensures
            r == (self.paths@.len() == 0),
    {
        self.paths.len() == 0
    }

    /// The distinct tokens of all paths, in order of first occurrence.
    pub fn flat_tokens(&self) -> (r: Vec<Vec<u8>>)
        ensures
            views(r@) == first_occurrences(all_tokens(path_views(self.paths@))),
    {
        let ghost pv = path_views(self.paths@);
        let mut seen: OrdSet<Vec<u8>> = OrdSet::new();
        let mut out: Vec<Vec<u8>> = Vec::new();
        let mut i: usize = 0;
        proof {
            assert(pv.take(0) =~= Seq::empty());
            assert(views(out@) =~= Seq::empty());
            assert(seen@ =~= all_tokens(pv.take(0)).to_set());
        }
        while i < self.paths.len()
            invariant
                i <= self.paths@.len(),
                pv == path_views(self.paths@),
                seen@ == all_tokens(pv.take(i as int)).to_set(),
                views(out@) == first_occurrences(all_tokens(pv.take(i as int))),
            decreases self.paths@.len() - i,
        {
            proof {
                assert(pv.take(i + 1).drop_last() =~= pv.take(i as int));
                assert(pv.take(i + 1).last() == views(self.paths@[i as int].tokens@));
            }
            take_fresh(
                &self.paths[i].tokens,
                &mut seen,
                &mut out,
                Ghost(all_tokens(pv.take(i as int))),
            );
            i = i + 1;
        }
        proof {
            assert(pv.take(i as int) =~= pv);
        }
        out
    }

    /// The prompt of the restored paths, the roles alternating from the user
    /// on, with the latest query appended.
    pub fn to_prompt(&self, latest_query: &str) -> (r: String)
        ensures
            r@ == restored_prompt_text(path_views(self.paths@), latest_query@, Role::User),
    {
        build_prompt_from_restored(self, latest_query, Role::User)
    }
}

/// An edge between two nodes.
pub type Edge = (Seq<u8>, Seq<u8>);

/// The n-grams of `n` tokens that a table holds for a plane.
pub open spec fn known_grams(table: PositionTable, plane: Set<u32>, n: nat) -> Set<Seq<u8>> {
    looked_up(table, narrow_positions(listing::<u32>(plane))).to_set().filter(
        |t: Seq<u8>| split(t).len() == n,
    )
}

/// What the unions vouch for: their planes and the n-grams known for them.
pub struct Evidence {
    pub bits_1: Set<u32>,
    pub bits_2: Set<u32>,
    pub grams_1: Set<Seq<u8>>,
    pub grams_2: Set<Seq<u8>>,
    pub grams_3: Set<Seq<u8>>,
}

/// What the unions of a context vouch for, given a table.
pub open spec fn evidence(table: PositionTable, one: Set<u32>, two: Set<u32>, three: Set<u32>) -> Evidence {
    Evidence {
        bits_1: one,
        bits_2: two,
        grams_1: known_grams(table, one, 1),
        grams_2: known_grams(table, two, 2),
        grams_3: known_grams(table, three, 3),
    }
}

/// A token is accepted: a marker, or a known token whose bit is set.
pub open spec fn ok_token(e: Evidence, t: Seq<u8>) -> bool {
    boundary(t) || (e.grams_1.contains(t) && e.bits_1.contains(bit_of(t, 0)))
}

/// A pair is accepted: known, and its bit is set.
pub open spec fn ok_pair(e: Evidence, t: Seq<u8>) -> bool {
    e.grams_2.contains(t) && e.bits_2.contains(bit_of(t, 0))
}

/// The node of two tokens.
pub open spec fn pair_of(a: Seq<u8>, b: Seq<u8>) -> Seq<u8> {
    nul_joined(seq![a, b])
}

/// The edge of a triple.
pub open spec fn edge_of(triple: Seq<u8>) -> Edge {
    let p = split(triple);
    (pair_of(p[0], p[1]), pair_of(p[1], p[2]))
}

/// A triple is accepted: known, of accepted tokens and pairs.
pub open spec fn ok_triple(e: Evidence, triple: Seq<u8>) -> bool {
    let p = split(triple);
    &&& e.grams_3.contains(triple)
    &&& p.len() == 3
    &&& ok_token(e, p[0])
    &&& ok_token(e, p[1])
    &&& ok_token(e, p[2])
    &&& ok_pair(e, pair_of(p[0], p[1]))
    &&& ok_pair(e, pair_of(p[1], p[2]))
}

/// The edges of the accepted triples.
pub open spec fn edges_of(e: Evidence) -> Set<Edge> {
    Set::new(|x: Edge| exists|t: Seq<u8>| ok_triple(e, t) && x == #[trigger] edge_of(t))
}

/// The nodes that follow a node.
pub open spec fn nexts_of(edges: Set<Edge>, node: Seq<u8>) -> Set<Seq<u8>> {
    Set::new(|n: Seq<u8>| edges.contains((node, n)))
}

/// A node whose first token is the start marker.
pub open spec fn is_start(node: Seq<u8>) -> bool {
    split(node).len() > 0 && split(node)[0] == start_bytes()
}

/// A node whose last token is the end marker.
pub open spec fn is_end(node: Seq<u8>) -> bool {
    split(node).len() > 0 && split(node).last() == end_bytes()
}

/// The start nodes with an edge.
pub open spec fn starts_of(edges: Set<Edge>) -> Set<Seq<u8>> {
    Set::new(|n: Seq<u8>| is_start(n) && exists|m: Seq<u8>| edges.contains((n, m)))
}

/// A path under construction: nodes.
pub type Path = Seq<Seq<u8>>;

/// The paths found from the end of a path, depth first: an end node completes
/// a path, edges are used once, and the limits cut the search.
pub open spec fn search_node(
    edges: Set<Edge>,
    node: Seq<u8>,
    used: Set<Edge>,
    path: Path,
    found: Seq<Path>,
    max_paths: nat,
    max_depth: nat,
) -> Seq<Path>
    decreases max_depth + 1 - path.len(), 1int, 0nat,
{
    if found.len() >= max_paths || path.len() > max_depth {
        found
    } else if is_end(node) {
        found.push(path)
    } else {
        search_nexts(
            edges,
            node,
            listing::<Vec<u8>>(nexts_of(edges, node)),
            used,
            path,
            found,
            max_paths,
            max_depth,
        )
    }
}

/// The paths found through some next nodes, in order.
pub open spec fn search_nexts(
    edges: Set<Edge>,
    node: Seq<u8>,
    nexts: Seq<Seq<u8>>,
    used: Set<Edge>,
    path: Path,
    found: Seq<Path>,
    max_paths: nat,
    max_depth: nat,
) -> Seq<Path>
    decreases max_depth + 1 - path.len(), 0int, nexts.len(),
{
    if nexts.len() == 0 || path.len() > max_depth {
        found
    } else {
        let before = search_nexts(
            edges,
            node,
            nexts.drop_last(),
            used,
            path,
            found,
            max_paths,
            max_depth,
        );
        let next = nexts.last();
        if used.contains((node, next)) {
            before
        } else {
            search_node(
                edges,
                next,
                used.insert((node, next)),
                path.push(next),
                before,
                max_paths,
                max_depth,
            )
        }
    }
}

/// The paths found from some start nodes, in order.
pub open spec fn search_starts(
    edges: Set<Edge>,
    starts: Seq<Seq<u8>>,
    max_paths: nat,
    max_depth: nat,
) -> Seq<Path>
    decreases starts.len(),
{
    if starts.len() == 0 {
        Seq::empty()
    } else {
        search_node(
            edges,
            starts.last(),
            Set::empty(),
            seq![starts.last()],
            search_starts(edges, starts.drop_last(), max_paths, max_depth),
            max_paths,
            max_depth,
        )
    }
}

/// The distinct paths found that walk no edge twice, ascending, at most
/// `max_paths` of them.
pub open spec fn found_trails(edges: Set<Edge>, max_paths: nat, max_depth: nat) -> Seq<Path> {
    first_k(
        listing::<Vec<Vec<u8>>>(
            search_starts(
                edges,
                listing::<Vec<u8>>(starts_of(edges)),
                max_paths,
                max_depth,
            ).to_set(),
        ),
        max_paths,
    )
}

/// The paths found, ascending, at most `max_paths` of them: those that walk no
/// edge twice; where these leave out an edge that a longer walk reaches, walks
/// that cover every such edge, and then of the former as many as there is room
/// for.
pub open spec fn found_paths(edges: Set<Edge>, max_paths: nat, max_depth: nat) -> Seq<Path> {
    let trails = found_trails(edges, max_paths, max_depth);
    if left_out(edges, trails, max_depth) {
        listing::<Vec<Vec<u8>>>(
            filled(first_k(cover(edges, max_depth), max_paths).to_set(), trails, max_paths),
        )
    } else {
        trails
    }
}

/// The tokens that the first `n` nodes of a path spell, markers stripped: the
/// first token of the first node, and the last token of every node.
pub open spec fn spelled(path: Path, n: nat) -> Seq<Seq<u8>>
    decreases n,
{
    if n == 0 {
        Seq::empty()
    } else {
        let before = spelled(path, (n - 1) as nat);
        let p = split(path[n - 1]);
        if p.len() == 0 {
            before
        } else {
            let with_first = if n == 1 && !boundary(p[0]) {
                before.push(p[0])
            } else {
                before
            };
            if boundary(p.last()) {
                with_first
            } else {
                with_first.push(p.last())
            }
        }
    }
}

/// The tokens that a path spells.
pub open spec fn spelled_path(path: Path) -> Seq<Seq<u8>> {
    spelled(path, path.len())
}

/// The edges that some paths walk.
pub open spec fn walked(paths: Seq<Path>, edges: Set<Edge>) -> Set<Edge> {
    Set::new(
        |x: Edge|
            edges.contains(x) && exists|i: int, j: int|
                0 <= i < paths.len() && 0 <= j < paths[i].len() - 1 && x == (
                    #[trigger] paths[i][j],
                    paths[i][j + 1],
                ),
    )
}

/// The restorer: a table of n-grams in memory.
pub struct DeBruijnRestorer {
    engine: InMemoryEngine,
}

/// The n-grams of the three layers of an exchange, layer after layer.
pub open spec fn layer_grams(tokens: Seq<Seq<u8>>) -> Seq<Seq<u8>> {
    layer(tokens, 1) + layer(tokens, 2) + layer(tokens, 3)
}

/// The n-grams of some exchanges.
pub open spec fn context_grams(exchanges: Seq<Exchange>) -> Seq<Seq<u8>>
    decreases exchanges.len(),
{
    if exchanges.len() == 0 {
        Seq::empty()
    } else {
        context_grams(exchanges.drop_last()) + layer_grams(words_of(exchanges.last()))
    }
}

impl DeBruijnRestorer {
    /// The table.
    pub closed spec fn table(&self) -> PositionTable {
        self.engine@
    }

    /// A restorer over a vocabulary of n-grams.
    pub fn from_vocabulary(tokens: &[Vec<u8>]) -> (r: Self)
        ensures
            r.table() == table_after(Map::empty(), views(tokens@)),
    {
        let mut engine = InMemoryEngine::new("debruijn-lut");
        proof {
            assert(table_size(engine@) == 0);
        }
        let n: usize = tokens.len();
        engine.build(tokens);
        DeBruijnRestorer { engine }
    }

    /// A restorer whose table holds every n-gram of every exchange.
    pub fn from_context(ctx: &ConversationContext) -> (r: Self)
        ensures
            r.table() == table_after(Map::empty(), context_grams(ctx.exchanges@)),
    {
        let ghost all = ctx.exchanges@;
        let mut tokens: Vec<Vec<u8>> = Vec::new();
        let mut i: usize = 0;
        proof {
            assert(all.take(0) =~= Seq::empty());
            assert(views(tokens@) =~= Seq::empty());
        }
        while i < ctx.exchanges.len()
            invariant
                i <= ctx.exchanges@.len(),
                all == ctx.exchanges@,
                views(tokens@) == context_grams(all.take(i as int)),
            decreases ctx.exchanges@.len() - i,
        {
            let ghost base = tokens@;
            let mut one = ctx.exchanges[i].ngrams(1);
            let mut two = ctx.exchanges[i].ngrams(2);
            let mut three = ctx.exchanges[i].ngrams(3);
            let ghost g1 = one@;
            let ghost g2 = two@;
            let ghost g3 = three@;
            tokens.append(&mut one);
            tokens.append(&mut two);
            tokens.append(&mut three);
            proof {
                assert(views(tokens@) =~= views(base) + (views(g1) + views(g2) + views(g3)));
                assert(all.take(i + 1).drop_last() =~= all.take(i as int));
                assert(all.take(i + 1).last() == all[i as int]);
            }
            i = i + 1;
        }
        proof {
            assert(all.take(i as int) =~= all);
        }
        DeBruijnRestorer::from_vocabulary(tokens.as_slice())
    }

    fn grams(&self, plane: &HLLSet, n: usize) -> (r: OrdSet<Vec<u8>>)
        ensures
            r@ == known_grams(self.table(), plane@, n as nat),
    {
        let positions = InMemoryEngine::extract_positions(plane);
        let found = self.engine.look_up(positions.as_slice());
        let ghost all = views(found@);
        let ghost f = |t: Seq<u8>| split(t).len() == n;
        let mut set: OrdSet<Vec<u8>> = OrdSet::new();
        let mut i: usize = 0;
        proof {
            lemma_listing::<u32>(plane.seq(), plane@);
            assert(set@ =~= all.take(0).to_set().filter(f));
        }
        while i < found.len()
            invariant
                i <= found@.len(),
                all == views(found@),
                f == (|t: Seq<u8>| split(t).len() == n),
                set@ == all.take(i as int).to_set().filter(f),
            decreases found@.len() - i,
        {
            let parts = split_ngram(found[i].as_slice());
            proof {
                crate::collections::lemma_take_step(all, i as int);
                assert(all[i as int] == found@[i as int]@);
                assert(views(parts@).len() == parts@.len());
            }
            if parts.len() == n {
                set.insert(copy_bytes(found[i].as_slice()));
            }
            proof {
                assert(set@ =~= all.take(i + 1).to_set().filter(f));
            }
            i = i + 1;
        }
        proof {
            assert(all.take(i as int) =~= all);
            assert(set@ =~= known_grams(self.table(), plane@, n as nat));
        }
        set
    }

    /// Restores the paths of a context from its unions, with the usual limits.
    pub fn restore(&self, ctx: &ConversationContext) -> (r: RestoredConversation)
        ensures
            restoration(self.table(), *ctx, 64, 512, r),
    {
        self.restore_with_limits(ctx, 64, 512)
    }

    /// Restores the paths of a context from its unions: the paths from start
    /// to end nodes through accepted triples, at most `max_paths` of them and
    /// none longer than `max_depth` nodes.
    pub fn restore_with_limits(
        &self,
        ctx: &ConversationContext,
        max_paths: usize,
        max_depth: usize,
    ) -> (r: RestoredConversation)
        ensures
            restoration(self.table(), *ctx, max_paths as nat, max_depth as nat, r),
    {
        let top = &ctx.top;
        let popcount: u64 = top.hll_3.popcount();
        let total: u64 = if popcount > 1 {
            popcount
        } else {
            1
        };
        let grams_1 = self.grams(&top.hll_1, 1);
        let grams_2 = self.grams(&top.hll_2, 2);
        let grams_3 = self.grams(&top.hll_3, 3);
        let ghost e = evidence(self.table(), top.hll_1@, top.hll_2@, top.hll_3@);
        let graph = build_graph(&grams_1, &top.hll_1, &grams_2, &top.hll_2, &grams_3, Ghost(e));
        let ghost edges = edges_of(e);
        let starts = start_nodes(&graph, Ghost(edges));
        let ghost sv = views(starts@);
        let mut results: Vec<Vec<Vec<u8>>> = Vec::new();
        let mut i: usize = 0;
        proof {
            lemma_listing::<Vec<u8>>(sv, starts_of(edges));
            assert(sv.take(0) =~= Seq::empty());
            assert(vals(results@) =~= Seq::empty());
        }
        while i < starts.len()
            invariant
                i <= starts@.len(),
                sv == views(starts@),
                is_graph(graph@, edges),
                vals(results@) == search_starts(
                    edges,
                    sv.take(i as int),
                    max_paths as nat,
                    max_depth as nat,
                ),
            decreases starts@.len() - i,
        {
            let mut used: OrdSet<(Vec<u8>, Vec<u8>)> = OrdSet::new();
            let mut path: Vec<Vec<u8>> = Vec::new();
            path.push(copy_bytes(starts[i].as_slice()));
            proof {
                assert(views(path@) =~= seq![sv[i as int]]);
                assert(sv.take(i + 1).drop_last() =~= sv.take(i as int));
                assert(sv.take(i + 1).last() == sv[i as int]);
            }
            dfs_paths(
                &graph,
                Ghost(edges),
                starts[i].as_slice(),
                &mut used,
                &mut path,
                max_paths,
                max_depth,
                &mut results,
            );
            i = i + 1;
        }
        proof {
            assert(sv.take(i as int) =~= sv);
        }
        let distinct = distinct_paths(&results);
        let mut kept = distinct.to_vec();
        proof {
            lemma_listing::<Vec<Vec<u8>>>(vals(kept@), distinct@);
        }
        let ghost full = kept@;
        kept.truncate(max_paths);
        proof {
            assert(vals(kept@) =~= first_k(vals(full), max_paths as nat));
        }
        let kept = complete_paths(kept, &graph, Ghost(edges), &starts, max_paths, max_depth);
        let ghost fp = found_paths(edges, max_paths as nat, max_depth as nat);
        let used = walked_edges(&kept, &graph, Ghost(edges));
        let explained: u64 = explain(&grams_3, &top.hll_3, &used, Ghost(e), Ghost(fp));
        let mut paths: Vec<RestoredPath> = Vec::new();
        let mut k: usize = 0;
        while k < kept.len()
            invariant
                k <= kept@.len(),
                vals(kept@) == fp,
                paths@.len() == k,
                forall|j: int|
                    0 <= j < k ==> views((#[trigger] paths@[j]).tokens@) == spelled_path(fp[j]),
            decreases kept@.len() - k,
        {
            let tokens = path_to_tokens(&kept[k]);
            proof {
                assert(fp[k as int] == views(kept@[k as int]@));
            }
            paths.push(RestoredPath { tokens });
            k = k + 1;
        }
        let r = RestoredConversation { paths, explained, total };
        proof {
            assert(fp.len() == kept@.len());
            assert(path_views(r.paths@) =~= fp.map_values(|p: Path| spelled_path(p)));
        }
        r
    }
}

/// The token sequences restored from three planes, given a table and limits.
pub open spec fn restored_paths(
    table: PositionTable,
    one: Set<u32>,
    two: Set<u32>,
    three: Set<u32>,
    max_paths: nat,
    max_depth: nat,
) -> Seq<Seq<Seq<u8>>> {
    found_paths(edges_of(evidence(table, one, two, three)), max_paths, max_depth).map_values(
        |p: Path| spelled_path(p),
    )
}

/// What a restoration returns.
pub open spec fn restoration(
    table: PositionTable,
    ctx: ConversationContext,
    max_paths: nat,
    max_depth: nat,
    r: RestoredConversation,
) -> bool {
    let top = ctx.top;
    let e = evidence(table, top.hll_1@, top.hll_2@, top.hll_3@);
    let paths = found_paths(edges_of(e), max_paths, max_depth);
    let bits = top.hll_3@.len();
    &&& path_views(r.paths@) == restored_paths(
        table,
        top.hll_1@,
        top.hll_2@,
        top.hll_3@,
        max_paths,
        max_depth,
    )
    &&& r.total == if bits > 1 {
        bits
    } else {
        1
    }
    &&& r.explained == explained_bits(e, top.hll_3@, paths).len()
}

/// The bits of the triple union that some paths explain: those of the known
/// triples that the paths walk.
pub open spec fn explained_bits(e: Evidence, three: Set<u32>, paths: Seq<Path>) -> Set<u32> {
    bits_among(e, e.grams_3, three, paths)
}

/// The bits of a plane that some triples set whose edges some paths walk.
pub open spec fn bits_among(
    e: Evidence,
    triples: Set<Seq<u8>>,
    three: Set<u32>,
    paths: Seq<Path>,
) -> Set<u32> {
    Set::new(
        |b: u32|
            three.contains(b) && exists|t: Seq<u8>| #[trigger]
                triples.contains(t) && walked(paths, edges_of(e)).contains(edge_of(t)) && bit_of(
                    t,
                    0,
                ) == b,
    )
}

proof fn lemma_bits_step(
    e: Evidence,
    triples: Set<Seq<u8>>,
    t: Seq<u8>,
    three: Set<u32>,
    paths: Seq<Path>,
)
    ensures
        bits_among(e, triples.insert(t), three, paths) == if walked(paths, edges_of(e)).contains(
            edge_of(t),
        ) && three.contains(bit_of(t, 0)) {
            bits_among(e, triples, three, paths).insert(bit_of(t, 0))
        } else {
            bits_among(e, triples, three, paths)
        },
{
    let a = bits_among(e, triples.insert(t), three, paths);
    let before = bits_among(e, triples, three, paths);
    let here = walked(paths, edges_of(e)).contains(edge_of(t)) && three.contains(bit_of(t, 0));
    let b = if here {
        before.insert(bit_of(t, 0))
    } else {
        before
    };
    assert forall|x: u32| a.contains(x) == b.contains(x) by {
        if a.contains(x) {
            let u = choose|u: Seq<u8>| #[trigger]
                triples.insert(t).contains(u) && walked(paths, edges_of(e)).contains(edge_of(u))
                    && bit_of(u, 0) == x;
            if u != t {
                assert(triples.contains(u));
            }
        }
        if before.contains(x) {
            let u = choose|u: Seq<u8>| #[trigger]
                triples.contains(u) && walked(paths, edges_of(e)).contains(edge_of(u)) && bit_of(
                    u,
                    0,
                ) == x;
            assert(triples.insert(t).contains(u));
        }
        if here && x == bit_of(t, 0) {
            assert(triples.insert(t).contains(t));
        }
    }
    assert(a =~= b);
}

/// The bits of the triple union that some paths explain.
fn explain(
    grams_3: &OrdSet<Vec<u8>>,
    plane: &HLLSet,
    used: &OrdSet<(Vec<u8>, Vec<u8>)>,
    Ghost(e): Ghost<Evidence>,
    Ghost(paths): Ghost<Seq<Path>>,
) -> (r: u64)
    requires
        grams_3@ == e.grams_3,
        used@ == walked(paths, edges_of(e)),
        forall|t: Seq<u8>| #[trigger] e.grams_3.contains(t) ==> split(t).len() == 3,
    ensures
        r == explained_bits(e, plane@, paths).len(),
{
    let n: usize = grams_3.len();
    let ghost all = grams_3.seq();
    let mut bits: OrdSet<u32> = OrdSet::new();
    let mut i: usize = 0;
    proof {
        assert(bits@ =~= bits_among(e, all.take(0).to_set(), plane@, paths));
    }
    while i < n
        invariant
            i <= n,
            n == all.len(),
            all == grams_3.seq(),
            grams_3@ == e.grams_3,
            used@ == walked(paths, edges_of(e)),
            forall|t: Seq<u8>| #[trigger] e.grams_3.contains(t) ==> split(t).len() == 3,
            bits@ == bits_among(e, all.take(i as int).to_set(), plane@, paths),
        decreases n - i,
    {
        let t = grams_3.at(i);
        let parts = split_ngram(t.as_slice());
        proof {
            assert(e.grams_3.contains(t@));
            assert(views(parts@).len() == parts@.len());
            assert(views(parts@)[0] == parts@[0]@);
            assert(views(parts@)[1] == parts@[1]@);
            assert(views(parts@)[2] == parts@[2]@);
            crate::collections::lemma_take_step(all, i as int);
            lemma_bits_step(e, all.take(i as int).to_set(), t@, plane@, paths);
        }
        let edge = (
            join_two(parts[0].as_slice(), parts[1].as_slice()),
            join_two(parts[1].as_slice(), parts[2].as_slice()),
        );
        let bit: u32 = token_bit_position(t.as_slice());
        if used.contains(&edge) && plane.contains(bit) {
            bits.insert(bit);
        }
        i = i + 1;
    }
    proof {
        assert(all.take(i as int) =~= all);
    }
    bits.len() as u64
}

/// Next nodes by node.
pub type Graph = OrdMap<Vec<u8>, OrdSet<Vec<u8>>>;

/// A map that holds exactly some edges.
pub open spec fn is_graph(m: Map<Seq<u8>, OrdSet<Vec<u8>>>, edges: Set<Edge>) -> bool {
    &&& forall|node: Seq<u8>|
        #[trigger] m.contains_key(node) ==> m[node]@ == nexts_of(edges, node)
    &&& forall|x: Edge| #[trigger] edges.contains(x) ==> m.contains_key(x.0)
    &&& forall|node: Seq<u8>|
        #[trigger] m.contains_key(node) ==> exists|n: Seq<u8>| edges.contains((node, n))
}

fn token_accepted(token: &[u8], grams: &OrdSet<Vec<u8>>, plane: &HLLSet, Ghost(e): Ghost<
    Evidence,
>) -> (r: bool)
    requires
        grams@ == e.grams_1,
        plane@ == e.bits_1,
    ensures
        r == ok_token(e, token@),
{
    if is_boundary(token) {
        return true;
    }
    grams.contains(&copy_bytes(token)) && plane.contains(token_bit_position(token))
}

fn pair_accepted(pair: &[u8], grams: &OrdSet<Vec<u8>>, plane: &HLLSet, Ghost(e): Ghost<
    Evidence,
>) -> (r: bool)
    requires
        grams@ == e.grams_2,
        plane@ == e.bits_2,
    ensures
        r == ok_pair(e, pair@),
{
    grams.contains(&copy_bytes(pair)) && plane.contains(token_bit_position(pair))
}

fn join_two(a: &[u8], b: &[u8]) -> (r: Vec<u8>)
    ensures
        r@ == pair_of(a@, b@),
{
    let mut two: Vec<Vec<u8>> = Vec::new();
    two.push(copy_bytes(a));
    two.push(copy_bytes(b));
    proof {
        assert(views(two@) =~= seq![a@, b@]);
    }
    join_tokens(two.as_slice())
}

/// The edges of the accepted triples among some triples.
pub open spec fn edges_among(e: Evidence, triples: Set<Seq<u8>>) -> Set<Edge> {
    Set::new(
        |x: Edge|
            exists|t: Seq<u8>| triples.contains(t) && ok_triple(e, t) && x == #[trigger] edge_of(t),
    )
}

proof fn lemma_edges_step(e: Evidence, triples: Set<Seq<u8>>, t: Seq<u8>)
    ensures
        edges_among(e, triples.insert(t)) == if ok_triple(e, t) {
            edges_among(e, triples).insert(edge_of(t))
        } else {
            edges_among(e, triples)
        },
{
    let a = edges_among(e, triples.insert(t));
    let b = if ok_triple(e, t) {
        edges_among(e, triples).insert(edge_of(t))
    } else {
        edges_among(e, triples)
    };
    assert forall|x: Edge| a.contains(x) == b.contains(x) by {
        if a.contains(x) {
            let u = choose|u: Seq<u8>|
                triples.insert(t).contains(u) && ok_triple(e, u) && x == #[trigger] edge_of(u);
            if u != t {
                assert(triples.contains(u) && ok_triple(e, u) && x == edge_of(u));
            }
        }
        if edges_among(e, triples).contains(x) {
            let u = choose|u: Seq<u8>|
                triples.contains(u) && ok_triple(e, u) && x == #[trigger] edge_of(u);
            assert(triples.insert(t).contains(u) && ok_triple(e, u) && x == edge_of(u));
        }
        if ok_triple(e, t) && x == edge_of(t) {
            assert(triples.insert(t).contains(t) && ok_triple(e, t) && x == edge_of(t));
        }
    }
    assert(a =~= b);
}

proof fn lemma_graph_insert(
    before: Map<Seq<u8>, OrdSet<Vec<u8>>>,
    after: Map<Seq<u8>, OrdSet<Vec<u8>>>,
    edges: Set<Edge>,
    from: Seq<u8>,
    to: Seq<u8>,
)
    requires
        is_graph(before, edges),
        after.dom() == before.dom().insert(from),
        forall|n: Seq<u8>| n != from && #[trigger] before.contains_key(n) ==> after[n] == before[n],
        after[from]@ == (if before.contains_key(from) {
            before[from]@
        } else {
            Set::empty()
        }).insert(to),
    ensures
        is_graph(after, edges.insert((from, to))),
{
    let more = edges.insert((from, to));
    assert forall|node: Seq<u8>| #[trigger] after.contains_key(node) implies after[node]@
        == nexts_of(more, node) by {
        if node == from {
            if before.contains_key(from) {
                assert(before[from]@ == nexts_of(edges, from));
            } else {
                assert(nexts_of(edges, from) =~= Set::empty()) by {
                    assert forall|n: Seq<u8>| !nexts_of(edges, from).contains(n) by {
                        if edges.contains((from, n)) {
                            assert(before.contains_key((from, n).0));
                        }
                    }
                }
            }
            assert(after[node]@ =~= nexts_of(more, node));
        } else {
            assert(before.contains_key(node));
            assert(nexts_of(more, node) =~= nexts_of(edges, node));
        }
    }
    assert forall|x: Edge| #[trigger] more.contains(x) implies after.contains_key(x.0) by {
        if x != (from, to) {
            assert(edges.contains(x));
            assert(before.contains_key(x.0));
        }
    }
    assert forall|node: Seq<u8>| #[trigger] after.contains_key(node) implies exists|n: Seq<u8>|
        more.contains((node, n)) by {
        if node == from {
            assert(more.contains((from, to)));
        } else {
            assert(before.contains_key(node));
            let n = choose|n: Seq<u8>| edges.contains((node, n));
            assert(more.contains((node, n)));
        }
    }
}

fn build_graph(
    grams_1: &OrdSet<Vec<u8>>,
    plane_1: &HLLSet,
    grams_2: &OrdSet<Vec<u8>>,
    plane_2: &HLLSet,
    grams_3: &OrdSet<Vec<u8>>,
    Ghost(e): Ghost<Evidence>,
) -> (r: Graph)
    requires
        grams_1@ == e.grams_1,
        plane_1@ == e.bits_1,
        grams_2@ == e.grams_2,
        plane_2@ == e.bits_2,
        grams_3@ == e.grams_3,
    ensures
        is_graph(r@, edges_of(e)),
{
    let mut graph: Graph = OrdMap::new();
    let n: usize = grams_3.len();
    let ghost all = grams_3.seq();
    let mut i: usize = 0;
    proof {
        assert(edges_among(e, all.take(0).to_set()) =~= Set::empty());
    }
    while i < n
        invariant
            i <= n,
            n == all.len(),
            all == grams_3.seq(),
            lists::<Vec<u8>>(all, grams_3@),
            grams_1@ == e.grams_1,
            plane_1@ == e.bits_1,
            grams_2@ == e.grams_2,
            plane_2@ == e.bits_2,
            grams_3@ == e.grams_3,
            is_graph(graph@, edges_among(e, all.take(i as int).to_set())),
        decreases n - i,
    {
        let triple = grams_3.at(i);
        let parts = split_ngram(triple.as_slice());
        let ghost done = all.take(i as int).to_set();
        proof {
            crate::collections::lemma_take_step(all, i as int);
            lemma_edges_step(e, done, all[i as int]);
            assert(views(parts@).len() == parts@.len());
            assert(grams_3@.contains(all[i as int]));
            if parts@.len() == 3 {
                assert(views(parts@)[0] == parts@[0]@);
                assert(views(parts@)[1] == parts@[1]@);
                assert(views(parts@)[2] == parts@[2]@);
            }
        }
        if parts.len() == 3 {
            let a = parts[0].as_slice();
            let b = parts[1].as_slice();
            let c = parts[2].as_slice();
            if token_accepted(a, grams_1, plane_1, Ghost(e)) && token_accepted(
                b,
                grams_1,
                plane_1,
                Ghost(e),
            ) && token_accepted(c, grams_1, plane_1, Ghost(e)) {
                let ab = join_two(a, b);
                let bc = join_two(b, c);
                if pair_accepted(ab.as_slice(), grams_2, plane_2, Ghost(e)) && pair_accepted(
                    bc.as_slice(),
                    grams_2,
                    plane_2,
                    Ghost(e),
                ) {
                    let ghost before = graph@;
                    let ghost from = ab@;
                    let ghost to = bc@;
                    let mut set: OrdSet<Vec<u8>> = match graph.remove(&ab) {
                        Some(s) => s,
                        None => OrdSet::new(),
                    };
                    set.insert(bc);
                    graph.insert(ab, set);
                    proof {
                        assert(graph@.dom() =~= before.dom().insert(from));
                        lemma_graph_insert(before, graph@, edges_among(e, done), from, to);
                    }
                }
            }
        }
        i = i + 1;
    }
    proof {
        assert(all.take(n as int) =~= all);
        assert(edges_among(e, all.to_set()) =~= edges_of(e)) by {
            assert forall|x: Edge|
                edges_among(e, all.to_set()).contains(x) == edges_of(e).contains(x) by {
                if edges_of(e).contains(x) {
                    let t = choose|t: Seq<u8>| ok_triple(e, t) && x == #[trigger] edge_of(t);
                    assert(all.to_set().contains(t) && ok_triple(e, t) && x == edge_of(t));
                }
            }
        }
    }
    graph
}

fn start_nodes(graph: &Graph, Ghost(edges): Ghost<Set<Edge>>) -> (r: Vec<Vec<u8>>)
    requires
        is_graph(graph@, edges),
    ensures
        lists::<Vec<u8>>(views(r@), starts_of(edges)),
{
    let n: usize = graph.len();
    let ghost keys = graph.keys();
    let marker = start_marker();
    let mut set: OrdSet<Vec<u8>> = OrdSet::new();
    let mut i: usize = 0;
    let ghost f = |k: Seq<u8>| is_start(k);
    proof {
        assert(set@ =~= keys.take(0).to_set().filter(f));
    }
    while i < n
        invariant
            i <= n,
            n == keys.len(),
            keys == graph.keys(),
            marker@ == start_bytes(),
            f == (|k: Seq<u8>| is_start(k)),
            set@ == keys.take(i as int).to_set().filter(f),
        decreases n - i,
    {
        let node = graph.key_at(i);
        let parts = split_ngram(node.as_slice());
        proof {
            crate::collections::lemma_take_step(keys, i as int);
            assert(views(parts@).len() == parts@.len());
            if parts@.len() > 0 {
                assert(views(parts@)[0] == parts@[0]@);
            }
        }
        if parts.len() > 0 && same_bytes(parts[0].as_slice(), marker.as_slice()) {
            set.insert(copy_bytes(node.as_slice()));
        }
        proof {
            assert(set@ =~= keys.take(i + 1).to_set().filter(f));
        }
        i = i + 1;
    }
    proof {
        assert(keys.take(n as int) =~= keys);
        assert(set@ =~= starts_of(edges)) by {
            assert forall|x: Seq<u8>| set@.contains(x) == starts_of(edges).contains(x) by {
                assert(keys.to_set().contains(x) == graph@.contains_key(x));
                if graph@.contains_key(x) {
                    let m = choose|m: Seq<u8>| edges.contains((x, m));
                    assert(edges.contains((x, m)));
                }
                if starts_of(edges).contains(x) {
                    let m = choose|m: Seq<u8>| edges.contains((x, m));
                    assert(graph@.contains_key((x, m).0));
                }
            }
        }
    }
    let r = set.to_vec();
    proof {
        assert(views(r@) =~= vals(r@));
    }
    r
}

pub(crate) fn at_end(node: &[u8]) -> (r: bool)
    ensures
        r == is_end(node@),
{
    let parts = split_ngram(node);
    let n: usize = parts.len();
    proof {
        assert(views(parts@).len() == parts@.len());
        if n > 0 {
            assert(views(parts@).last() == parts@[n - 1]@);
        }
    }
    n > 0 && same_bytes(parts[n - 1].as_slice(), end_marker().as_slice())
}

/// Depth-first search from the last node of a path.
fn dfs_paths(
    graph: &Graph,
    Ghost(edges): Ghost<Set<Edge>>,
    node: &[u8],
    used: &mut OrdSet<(Vec<u8>, Vec<u8>)>,
    path: &mut Vec<Vec<u8>>,
    max_paths: usize,
    max_depth: usize,
    results: &mut Vec<Vec<Vec<u8>>>,
)
    requires
        is_graph(graph@, edges),
    ensures
        vals(final(results)@) == search_node(
            edges,
            node@,
            old(used)@,
            views(old(path)@),
            vals(old(results)@),
            max_paths as nat,
            max_depth as nat,
        ),
        final(used)@ == old(used)@,
        views(final(path)@) == views(old(path)@),
    decreases max_depth + 1 - old(path)@.len(),
{
    if results.len() >= max_paths || path.len() > max_depth {
        return;
    }
    if at_end(node) {
        let ghost before = results@;
        let done = copy_tokens(path.as_slice());
        let ghost dv = views(done@);
        results.push(done);
        proof {
            assert(vals(results@) =~= vals(before).push(dv));
        }
        return;
    }
    let nexts: Vec<Vec<u8>> = match graph.get(&copy_bytes(node)) {
        Some(s) => s.to_vec(),
        None => Vec::new(),
    };
    let ghost nv = views(nexts@);
    proof {
        assert(nv =~= vals(nexts@));
        if !graph@.contains_key(node@) {
            assert(nexts_of(edges, node@) =~= Set::empty()) by {
                assert forall|n: Seq<u8>| !nexts_of(edges, node@).contains(n) by {
                    if edges.contains((node@, n)) {
                        assert(graph@.contains_key((node@, n).0));
                    }
                }
            }
            assert(nv.to_set() =~= Set::empty());
        }
        lemma_listing::<Vec<u8>>(nv, nexts_of(edges, node@));
        assert(nv.take(0) =~= Seq::empty());
    }
    let ghost pv = views(path@);
    let ghost start = vals(results@);
    let mut i: usize = 0;
    while i < nexts.len()
        invariant
            i <= nexts@.len(),
            nv == views(nexts@),
            is_graph(graph@, edges),
            old(path)@.len() <= max_depth,
            path@.len() == old(path)@.len(),
            views(path@) == pv,
            pv.len() == path@.len(),
            used@ == old(used)@,
            vals(results@) == search_nexts(
                edges,
                node@,
                nv.take(i as int),
                used@,
                pv,
                start,
                max_paths as nat,
                max_depth as nat,
            ),
        decreases nexts@.len() - i,
    {
        let next = &nexts[i];
        let edge = (copy_bytes(node), copy_bytes(next.as_slice()));
        proof {
            assert(nv.take(i + 1).drop_last() =~= nv.take(i as int));
            assert(nv.take(i + 1).last() == next@);
        }
        if !used.contains(&edge) {
            let ghost before_used = used@;
            let ghost before_path = path@;
            let again = (copy_bytes(node), copy_bytes(next.as_slice()));
            used.insert(edge);
            path.push(copy_bytes(next.as_slice()));
            proof {
                assert(views(path@) =~= pv.push(next@));
            }
            dfs_paths(
                graph,
                Ghost(edges),
                next.as_slice(),
                used,
                path,
                max_paths,
                max_depth,
                results,
            );
            proof {
                assert(views(path@).len() == path@.len());
            }
            let ghost after = path@;
            path.pop();
            proof {
                assert(views(path@) =~= views(after).drop_last());
                assert(pv.push(next@).drop_last() =~= pv);
            }
            used.remove(&again);
            proof {
                assert(used@ =~= before_used);
            }
        }
        i = i + 1;
    }
    proof {
        assert(nv.take(i as int) =~= nv);
    }
}

pub(crate) fn distinct_paths(results: &Vec<Vec<Vec<u8>>>) -> (r: OrdSet<Vec<Vec<u8>>>)
    ensures
        r@ == vals(results@).to_set(),
{
    let ghost all = vals(results@);
    let mut set: OrdSet<Vec<Vec<u8>>> = OrdSet::new();
    let mut i: usize = 0;
    proof {
        assert(set@ =~= all.take(0).to_set());
    }
    while i < results.len()
        invariant
            i <= results@.len(),
            all == vals(results@),
            set@ == all.take(i as int).to_set(),
        decreases results@.len() - i,
    {
        set.insert(copy_tokens(results[i].as_slice()));
        proof {
            crate::collections::lemma_take_step(all, i as int);
        }
        i = i + 1;
    }
    proof {
        assert(all.take(i as int) =~= all);
    }
    set
}

pub(crate) fn walked_edges(paths: &Vec<Vec<Vec<u8>>>, graph: &Graph, Ghost(edges): Ghost<Set<Edge>>) -> (r:
    OrdSet<(Vec<u8>, Vec<u8>)>)
    requires
        is_graph(graph@, edges),
    ensures
        r@ == walked(vals(paths@), edges),
{
    let ghost all = vals(paths@);
    let mut set: OrdSet<(Vec<u8>, Vec<u8>)> = OrdSet::new();
    let mut i: usize = 0;
    proof {
        assert(set@ =~= walked(all.take(0), edges));
    }
    while i < paths.len()
        invariant
            i <= paths@.len(),
            all == vals(paths@),
            is_graph(graph@, edges),
            set@ == walked(all.take(i as int), edges),
        decreases paths@.len() - i,
    {
        let path = &paths[i];
        let ghost pv = all[i as int];
        let ghost base = set@;
        let mut j: usize = 0;
        proof {
            assert(pv == views(path@));
            assert(set@ =~= base.union(steps_below(pv, 0, edges)));
        }
        while path.len() > 1 && j < path.len() - 1
            invariant
                j < path@.len() || j == 0,
                pv == views(path@),
                is_graph(graph@, edges),
                set@ == base.union(steps_below(pv, j as int, edges)),
                j + 1 <= path@.len() || path@.len() == 0,
            decreases path@.len() - j,
        {
            let from = &path[j];
            let to = &path[j + 1];
            let here = match graph.get(from) {
                Some(s) => s.contains(to),
                None => false,
            };
            proof {
                let x = (from@, to@);
                assert(here == edges.contains(x)) by {
                    if edges.contains(x) {
                        assert(graph@.contains_key(x.0));
                    }
                }
                assert(pv[j as int] == from@ && pv[j + 1] == to@);
            }
            if here {
                set.insert((copy_bytes(from.as_slice()), copy_bytes(to.as_slice())));
            }
            proof {
                lemma_steps(pv, j as int, edges);
                assert(set@ =~= base.union(steps_below(pv, j + 1, edges)));
            }
            j = j + 1;
        }
        proof {
            lemma_walked_step(all, i as int, edges);
            assert(steps_below(pv, j as int, edges) =~= steps_below(pv, pv.len() - 1, edges)) by {
                if pv.len() == 0 {
                    assert(steps_below(pv, 0, edges) =~= Set::empty());
                    assert(steps_below(pv, -1, edges) =~= Set::empty());
                }
            }
        }
        i = i + 1;
    }
    proof {
        assert(all.take(i as int) =~= all);
    }
    set
}

/// The edges among the first steps of a path.
pub open spec fn steps_below(path: Path, n: int, edges: Set<Edge>) -> Set<Edge> {
    Set::new(
        |x: Edge|
            edges.contains(x) && exists|j: int|
                0 <= j < n && x == (#[trigger] path[j], path[j + 1]),
    )
}

proof fn lemma_steps(path: Path, n: int, edges: Set<Edge>)
    requires
        0 <= n < path.len() - 1,
    ensures
        steps_below(path, n + 1, edges) == if edges.contains((path[n], path[n + 1])) {
            steps_below(path, n, edges).insert((path[n], path[n + 1]))
        } else {
            steps_below(path, n, edges)
        },
{
    let a = steps_below(path, n + 1, edges);
    let y = (path[n], path[n + 1]);
    let b = if edges.contains(y) {
        steps_below(path, n, edges).insert(y)
    } else {
        steps_below(path, n, edges)
    };
    assert forall|x: Edge| a.contains(x) == b.contains(x) by {
        if a.contains(x) {
            let j = choose|j: int| 0 <= j < n + 1 && x == (#[trigger] path[j], path[j + 1]);
            if j < n {
                assert(0 <= j < n && x == (path[j], path[j + 1]));
            }
        }
        if steps_below(path, n, edges).contains(x) {
            let j = choose|j: int| 0 <= j < n && x == (#[trigger] path[j], path[j + 1]);
            assert(0 <= j < n + 1 && x == (path[j], path[j + 1]));
        }
        if edges.contains(y) && x == y {
            assert(0 <= n < n + 1 && x == (path[n], path[n + 1]));
        }
    }
    assert(a =~= b);
}

proof fn lemma_walked_step(all: Seq<Path>, i: int, edges: Set<Edge>)
    requires
        0 <= i < all.len(),
    ensures
        walked(all.take(i + 1), edges) == walked(all.take(i), edges).union(
            steps_below(all[i], all[i].len() - 1, edges),
        ),
{
    let long = all.take(i + 1);
    let short = all.take(i);
    let a = walked(long, edges);
    let b = walked(short, edges).union(steps_below(all[i], all[i].len() - 1, edges));
    assert forall|x: Edge| a.contains(x) == b.contains(x) by {
        if a.contains(x) {
            let (p, j) = choose|p: int, j: int|
                0 <= p < long.len() && 0 <= j < long[p].len() - 1 && x == (
                    #[trigger] long[p][j],
                    long[p][j + 1],
                );
            if p < i {
                assert(short[p] == long[p]);
                assert(x == (short[p][j], short[p][j + 1]));
            } else {
                assert(long[p] == all[i]);
                assert(x == (all[i][j], all[i][j + 1]));
            }
        }
        if walked(short, edges).contains(x) {
            let (p, j) = choose|p: int, j: int|
                0 <= p < short.len() && 0 <= j < short[p].len() - 1 && x == (
                    #[trigger] short[p][j],
                    short[p][j + 1],
                );
            assert(long[p] == short[p]);
            assert(x == (long[p][j], long[p][j + 1]));
        }
        if steps_below(all[i], all[i].len() - 1, edges).contains(x) {
            let j = choose|j: int|
                0 <= j < all[i].len() - 1 && x == (#[trigger] all[i][j], all[i][j + 1]);
            assert(long[i] == all[i]);
            assert(x == (long[i][j], long[i][j + 1]));
        }
    }
    assert(a =~= b);
}

/// The tokens that a path spells, markers stripped.
fn path_to_tokens(path: &Vec<Vec<u8>>) -> (r: Vec<Vec<u8>>)
    ensures
        views(r@) == spelled_path(views(path@)),
{
    let ghost pv = views(path@);
    let mut out: Vec<Vec<u8>> = Vec::new();
    let mut i: usize = 0;
    proof {
        assert(views(out@) =~= Seq::empty());
    }
    while i < path.len()
        invariant
            i <= path@.len(),
            pv == views(path@),
            views(out@) == spelled(pv, i as nat),
        decreases path@.len() - i,
    {
        let parts = split_ngram(path[i].as_slice());
        let n: usize = parts.len();
        proof {
            assert(views(parts@).len() == parts@.len());
            assert(pv[i as int] == path@[i as int]@);
            if n > 0 {
                assert(views(parts@)[0] == parts@[0]@);
                assert(views(parts@).last() == parts@[n - 1]@);
            }
        }
        if n > 0 {
            if i == 0 && !is_boundary(parts[0].as_slice()) {
                let ghost before = out@;
                out.push(copy_bytes(parts[0].as_slice()));
                proof {
                    assert(views(out@) =~= views(before).push(parts@[0]@));
                }
            }
            if !is_boundary(parts[n - 1].as_slice()) {
                let ghost before = out@;
                out.push(copy_bytes(parts[n - 1].as_slice()));
                proof {
                    assert(views(out@) =~= views(before).push(parts@[n - 1]@));
                }
            }
        }
        i = i + 1;
    }
    out
}

impl ConversationContext {
    /// Restores the paths of the context from its unions and a table of its
    /// own n-grams.
    pub fn restore(&self) -> (r: RestoredConversation)
        ensures
            restoration(
                table_after(Map::empty(), context_grams(self.exchanges@)),
                *self,
                64,
                512,
                r,
            ),
    {
        let restorer = DeBruijnRestorer::from_context(self);
        restorer.restore(self)
    }
}

/// The distinct members of a sequence: each once, none left out, and in the
/// order of first occurrence, so that going on only appends.
pub proof fn repeats_are_dropped_in_order(a: Seq<Seq<u8>>, b: Seq<Seq<u8>>)
    ensures
        first_occurrences(a + b).no_duplicates(),
        first_occurrences(a + b).to_set() == (a + b).to_set(),
        first_occurrences(a).is_prefix_of(first_occurrences(a + b)),
    decreases a.len() + b.len(),
{
    let all = a + b;
    if all.len() == 0 {
        assert(first_occurrences(all).to_set() =~= all.to_set());
        assert(all =~= a);
    } else {
        let front = all.drop_last();
        let last = all.last();
        let before = first_occurrences(front);
        let now = first_occurrences(all);
        if b.len() == 0 {
            let none = Seq::<Seq<u8>>::empty();
            repeats_are_dropped_in_order(a.drop_last(), none);
            assert(front =~= a.drop_last() + none);
            assert(all =~= a);
        } else {
            repeats_are_dropped_in_order(a, b.drop_last());
            assert(front =~= a + b.drop_last());
        }
        assert(before.to_set() == front.to_set());
        assert forall|t: Seq<u8>| all.contains(t) == (front.contains(t) || t == last) by {
            if all.contains(t) {
                let i = choose|i: int| 0 <= i < all.len() && all[i] == t;
                if i < front.len() {
                    assert(front[i] == t);
                }
            }
            if front.contains(t) {
                let i = choose|i: int| 0 <= i < front.len() && front[i] == t;
                assert(all[i] == t);
            }
            assert(all[all.len() - 1] == last);
        }
        assert(before.to_set().contains(last) == before.contains(last));
        assert(front.to_set().contains(last) == front.contains(last));
        assert forall|t: Seq<u8>| now.to_set().contains(t) == all.to_set().contains(t) by {
            assert(before.to_set().contains(t) == front.to_set().contains(t));
            if front.contains(last) {
            } else {
                if now.contains(t) {
                    let i = choose|i: int| 0 <= i < now.len() && now[i] == t;
                    if i < before.len() {
                        assert(before[i] == t);
                    }
                }
                if before.contains(t) {
                    let i = choose|i: int| 0 <= i < before.len() && before[i] == t;
                    assert(now[i] == t);
                }
                assert(now[before.len() as int] == last);
            }
        }
        assert(now.to_set() =~= all.to_set());
        if b.len() > 0 {
            assert(before.is_prefix_of(now));
            let fa = first_occurrences(a);
            assert(fa =~= before.take(fa.len() as int));
            assert(fa =~= now.take(fa.len() as int));
        }
    }
}

/// The tokens of several paths come path after path.
pub proof fn paths_come_one_after_the_other(
    a: Seq<Seq<Seq<u8>>>,
    b: Seq<Seq<Seq<u8>>>,
    p: Seq<Seq<u8>>,
)
    ensures
        all_tokens(a + b) == all_tokens(a) + all_tokens(b),
        all_tokens(seq![p]) == p,
    decreases b.len(),
{
    assert(seq![p].drop_last() =~= Seq::empty());
    assert(all_tokens(seq![p].drop_last()) =~= Seq::empty());
    assert(Seq::<Seq<u8>>::empty() + p =~= p);
    if b.len() == 0 {
        assert(a + b =~= a);
        assert(all_tokens(a) + all_tokens(b) =~= all_tokens(a));
    } else {
        assert((a + b).drop_last() =~= a + b.drop_last());
        paths_come_one_after_the_other(a, b.drop_last(), p);
        assert(all_tokens(a + b) =~= all_tokens(a) + all_tokens(b));
    }
}

/// Paths explain bits of the third plane only, none where nothing is walked,
/// and more paths explain no fewer.
pub proof fn more_paths_explain_no_fewer_bits(
    e: Evidence,
    three: Set<u32>,
    some: Seq<Path>,
    more: Seq<Path>,
)
    ensures
        explained_bits(e, three, some).subset_of(three),
        explained_bits(e, three, Seq::empty()) == Set::<u32>::empty(),
        explained_bits(e, three, some).subset_of(explained_bits(e, three, some + more)),
{
    let edges = edges_of(e);
    let all = some + more;
    assert(walked(Seq::empty(), edges) =~= Set::empty());
    assert(explained_bits(e, three, Seq::empty()) =~= Set::empty());
    assert forall|x: Edge| walked(some, edges).contains(x) implies walked(all, edges).contains(
        x,
    ) by {
        let (i, j) = choose|i: int, j: int|
            0 <= i < some.len() && 0 <= j < some[i].len() - 1 && x == (
                #[trigger] some[i][j],
                some[i][j + 1],
            );
        assert(all[i] == some[i]);
        assert(x == (all[i][j], all[i][j + 1]));
    }
    assert forall|b: u32| explained_bits(e, three, some).contains(b) implies explained_bits(
        e,
        three,
        all,
    ).contains(b) by {
        let t = choose|t: Seq<u8>| #[trigger]
            e.grams_3.contains(t) && walked(some, edges).contains(edge_of(t)) && bit_of(t, 0) == b;
        assert(e.grams_3.contains(t));
        assert(walked(all, edges).contains(edge_of(t)));
    }
}

/// A path explains the bit of each known triple that it steps along.
pub proof fn steps_explain_their_bits(
    e: Evidence,
    three: Set<u32>,
    paths: Seq<Path>,
    i: int,
    j: int,
    t: Seq<u8>,
)
    requires
        0 <= i < paths.len(),
        0 <= j < paths[i].len() - 1,
        ok_triple(e, t),
        edge_of(t) == (paths[i][j], paths[i][j + 1]),
        three.contains(bit_of(t, 0)),
    ensures
        explained_bits(e, three, paths).contains(bit_of(t, 0)),
{
    let edges = edges_of(e);
    assert(edges.contains(edge_of(t)));
    assert(walked(paths, edges).contains(edge_of(t)));
    assert(e.grams_3.contains(t));
}

/// What a restoration reports: it explains no more bits than there are, and
/// none where it restored nothing.
pub proof fn restorations_report_what_they_explain(
    table: PositionTable,
    ctx: ConversationContext,
    max_paths: nat,
    max_depth: nat,
    r: RestoredConversation,
)
    requires
        restoration(table, ctx, max_paths, max_depth, r),
        ctx.top.hll_3@.finite(),
    ensures
        r.explained <= ctx.top.hll_3@.len(),
        r.total >= 1,
        ctx.top.hll_3@.len() > 0 ==> r.total == ctx.top.hll_3@.len(),
        r.paths@.len() == 0 ==> r.explained == 0,
{
    let top = ctx.top;
    let e = evidence(table, top.hll_1@, top.hll_2@, top.hll_3@);
    let paths = found_paths(edges_of(e), max_paths, max_depth);
    more_paths_explain_no_fewer_bits(e, top.hll_3@, paths, Seq::empty());
    vstd::set_lib::lemma_len_subset(explained_bits(e, top.hll_3@, paths), top.hll_3@);
    assert(path_views(r.paths@).len() == r.paths@.len());
    if r.paths@.len() == 0 {
        assert(paths =~= Seq::empty());
    }
}

} // verus!
