//! The conversation context: exchanges, their unions, and the follow matrix.
//!
//! Adding an exchange only sets bits and raises counts, so a context built in
//! one go and one built turn by turn are the same.
use vstd::prelude::*;
use vstd::string::*;

use crate::collections::{lemma_listing, listing, vals, OrdSet};
use crate::distributed::Share;
use crate::exchange::{full_plane, layer_plane, lemma_tokens_at_step, tokens_at, Exchange};
use crate::hashing::bit_of;
use crate::hllset::{height_count, HLLSet};
use crate::maps::{count_in, ranking, ranking_pairs, sort, sorted_form, Ranked};
use crate::matrix::{
    cells_after, columns, first_k, follows_at, indexed, lemma_pairs_among, links_after,
    pairs_among, recording_adds_follows, registered, resolve_group, resolved, row_of, rows, Cells,
    Groups, Links, SparseAdjacencyMatrix, TokenIndex,
};
use crate::ngrams::{
    end_bytes, end_marker, layer, lemma_first_layer, nul_joined, padded, pieces, plain, split,
    split_ngram, start_bytes, start_marker, token_bit_position, SEP,
};
use crate::order::{copy_bytes, views, Key};

verus! {

/// The unions of the layers of a context.
pub struct ContextTop {
    /// Union of the single-token planes.
    pub hll_1: HLLSet,
    /// Union of the pair planes.
    pub hll_2: HLLSet,
    /// Union of the triple planes.
    pub hll_3: HLLSet,
    /// Union of the full planes.
    pub hll: HLLSet,
}

/// The number of heights below `n` with a set bit.
pub open spec fn active_heights(plane: Set<u32>, n: nat) -> nat
    decreases n,
{
    if n == 0 {
        0
    } else {
        active_heights(plane, (n - 1) as nat) + if height_count(plane, (n - 1) as u32) > 0 {
            1nat
        } else {
            0nat
        }
    }
}

impl ContextTop {
    /// The empty unions.
    pub fn new() -> (r: Self)
        ensures
            r.hll_1@ == Set::<u32>::empty(),
            r.hll_2@ == Set::<u32>::empty(),
            r.hll_3@ == Set::<u32>::empty(),
            r.hll@ == Set::<u32>::empty(),
    {
        ContextTop {
            hll_1: HLLSet::new(),
            hll_2: HLLSet::new(),
            hll_3: HLLSet::new(),
            hll: HLLSet::new(),
        }
    }

    /// The number of set bits of the full union.
    pub fn popcount(&self) -> (r: u64)
        ensures
            r == self.hll@.len(),
    {
        self.hll.popcount()
    }

    /// Whether the full union is empty.
    pub fn is_empty(&self) -> (r: bool)
        ensures
            r == (self.hll@ == Set::<u32>::empty()),
    {
        self.hll.is_empty()
    }

    /// How many set bits of the full union have each height.
    pub fn tz_histogram(&self) -> (r: Vec<u32>)
        ensures
            r@.len() == 32,
            forall|t: int|
                0 <= t < 32 ==> #[trigger] r@[t] == height_count(self.hll@, t as u32),
    {
        self.hll.bit_counts()
    }

    /// The number of heights with a set bit.
    pub fn active_tz_columns(&self) -> (r: usize)
        ensures
            r == active_heights(self.hll@, 32),
    {
        let hist = self.tz_histogram();
        let mut n: usize = 0;
        let mut t: usize = 0;
        while t < 32
            invariant
                t <= 32,
                n <= t,
                hist@.len() == 32,
                forall|k: int|
                    0 <= k < 32 ==> #[trigger] hist@[k] == height_count(self.hll@, k as u32),
                n == active_heights(self.hll@, t as nat),
            decreases 32 - t,
        {
            if hist[t] > 0 {
                n = n + 1;
            }
            t = t + 1;
        }
        n
    }
}

/// A bit that two exchanges share, with the tokens that set it in each.
pub struct SharedBitOrigin {
    /// The shared bit.
    pub bit: u32,
    /// The tokens of the first exchange that set it.
    pub from_a: Vec<Vec<u8>>,
    /// The tokens of the second exchange that set it.
    pub from_b: Vec<Vec<u8>>,
    /// Whether the tokens are the same.
    pub same_token: bool,
}

/// A conversation: its exchanges, their unions, and the follow matrix.
pub struct ConversationContext {
    /// Every turn in order.
    pub exchanges: Vec<Exchange>,
    /// The unions of the layers.
    pub top: ContextTop,
    /// The follow matrix over the padded pairs.
    pub matrix: SparseAdjacencyMatrix,
}

/// The tokens of an exchange.
pub open spec fn words_of(e: Exchange) -> Seq<Seq<u8>> {
    views(e.tokens@)
}

/// The union of the planes of layer `n` of some exchanges.
pub open spec fn layer_union(exchanges: Seq<Exchange>, n: nat) -> Set<u32>
    decreases exchanges.len(),
{
    if exchanges.len() == 0 {
        Set::empty()
    } else {
        layer_union(exchanges.drop_last(), n).union(layer_plane(words_of(exchanges.last()), n))
    }
}

/// The union of the full planes of some exchanges.
pub open spec fn full_union(exchanges: Seq<Exchange>) -> Set<u32>
    decreases exchanges.len(),
{
    if exchanges.len() == 0 {
        Set::empty()
    } else {
        full_union(exchanges.drop_last()).union(full_plane(words_of(exchanges.last())))
    }
}

/// The bit cells that some exchanges record.
pub open spec fn context_cells(exchanges: Seq<Exchange>) -> Cells
    decreases exchanges.len(),
{
    if exchanges.len() == 0 {
        Map::empty()
    } else {
        cells_after(
            context_cells(exchanges.drop_last()),
            layer(words_of(exchanges.last()), 2),
        )
    }
}

/// The token pairs that some exchanges record.
pub open spec fn context_links(exchanges: Seq<Exchange>) -> Links
    decreases exchanges.len(),
{
    if exchanges.len() == 0 {
        Map::empty()
    } else {
        links_after(
            context_links(exchanges.drop_last()),
            layer(words_of(exchanges.last()), 2),
        )
    }
}

/// The number of follows that the pairs of some exchanges record.
pub open spec fn recorded_pairs(exchanges: Seq<Exchange>) -> nat
    decreases exchanges.len(),
{
    if exchanges.len() == 0 {
        0
    } else {
        recorded_pairs(exchanges.drop_last()) + pairs_among(layer(words_of(exchanges.last()), 2))
    }
}

/// No more follows are recorded than there are pairs.
pub proof fn lemma_recorded_pairs(exchanges: Seq<Exchange>)
    ensures
        recorded_pairs(exchanges) <= pair_count(exchanges),
    decreases exchanges.len(),
{
    if exchanges.len() > 0 {
        lemma_recorded_pairs(exchanges.drop_last());
        lemma_pairs_among(layer(words_of(exchanges.last()), 2));
    }
}

/// The number of padded pairs of some exchanges.
pub open spec fn pair_count(exchanges: Seq<Exchange>) -> nat
    decreases exchanges.len(),
{
    if exchanges.len() == 0 {
        0
    } else {
        pair_count(exchanges.drop_last()) + layer(words_of(exchanges.last()), 2).len()
    }
}

/// Every exchange has the planes of its tokens.
pub open spec fn all_wf(exchanges: Seq<Exchange>) -> bool {
    forall|i: int| 0 <= i < exchanges.len() ==> (#[trigger] exchanges[i]).wf()
}

/// The plane that an exchange stores for layer `n`, its full plane for none.
pub open spec fn stored_plane(e: Exchange, n: nat) -> Set<u32> {
    if n == 1 {
        e.hll_1@
    } else if n == 2 {
        e.hll_2@
    } else if n == 3 {
        e.hll_3@
    } else {
        e.hll@
    }
}

/// A plane is the union of those that some exchanges store for layer `n`.
pub open spec fn joins_stored(plane: Set<u32>, exchanges: Seq<Exchange>, n: nat) -> bool {
    forall|bit: u32| #[trigger]
        plane.contains(bit) <==> exists|i: int|
            0 <= i < exchanges.len() && (#[trigger] stored_plane(exchanges[i], n)).contains(bit)
}

proof fn lemma_joins_one_more(
    before: Set<u32>,
    after: Set<u32>,
    exchanges: Seq<Exchange>,
    i: int,
    n: nat,
)
    requires
        0 <= i < exchanges.len(),
        joins_stored(before, exchanges.take(i), n),
        after == before.union(stored_plane(exchanges[i], n)),
    ensures
        joins_stored(after, exchanges.take(i + 1), n),
{
    let some = exchanges.take(i);
    let more = exchanges.take(i + 1);
    assert forall|bit: u32| #[trigger] after.contains(bit) implies exists|j: int|
        0 <= j < more.len() && (#[trigger] stored_plane(more[j], n)).contains(bit) by {
        if before.contains(bit) {
            let j = choose|j: int|
                0 <= j < some.len() && (#[trigger] stored_plane(some[j], n)).contains(bit);
            assert(more[j] == some[j]);
            assert(stored_plane(more[j], n).contains(bit));
        } else {
            assert(stored_plane(more[i], n).contains(bit));
        }
    }
    assert forall|bit: u32|
        (exists|j: int|
            0 <= j < more.len() && (#[trigger] stored_plane(more[j], n)).contains(
                bit,
            )) implies #[trigger] after.contains(bit) by {
        let j = choose|j: int|
            0 <= j < more.len() && (#[trigger] stored_plane(more[j], n)).contains(bit);
        if j < i {
            assert(some[j] == more[j]);
            assert(stored_plane(some[j], n).contains(bit));
            assert(before.contains(bit));
        }
    }
}

/// The candidate tokens by bit: the markers, then the tokens in order.
pub open spec fn vocabulary(exchanges: Seq<Exchange>) -> Groups
    decreases exchanges.len(),
{
    if exchanges.len() == 0 {
        registered(
            registered(Map::empty(), bit_of(start_bytes(), 0), start_bytes()),
            bit_of(end_bytes(), 0),
            end_bytes(),
        )
    } else {
        indexed(vocabulary(exchanges.drop_last()), words_of(exchanges.last()))
    }
}

/// The cells of some pairs with their counts, in order.
pub open spec fn path_cells(cells: Cells, pairs: Seq<Seq<u8>>) -> Seq<(u32, u32, u64)>
    decreases pairs.len(),
{
    if pairs.len() == 0 {
        Seq::empty()
    } else {
        let before = path_cells(cells, pairs.drop_last());
        let p = split(pairs.last());
        if p.len() == 2 {
            let k = (bit_of(p[0], 0), bit_of(p[1], 0));
            before.push((k.0, k.1, count_in(cells, k)))
        } else {
            before
        }
    }
}

/// Ranked bits resolved to their candidate tokens, each with the bit's count.
pub open spec fn resolved_ranking(ranked: Seq<(u64, u32)>, groups: Groups) -> Seq<(u64, Seq<u8>)>
    decreases ranked.len(),
{
    if ranked.len() == 0 {
        Seq::empty()
    } else {
        let last = ranked.last();
        resolved_ranking(ranked.drop_last(), groups) + resolved(groups, last.1).map_values(
            |t: Seq<u8>| (last.0, t),
        )
    }
}

/// The next-token suggestions after the last token of an exchange: the tokens
/// of the best `4 k` successors of its bit, by descending count and then
/// ascending token, at most `k` of them.
pub open spec fn suggestions(
    exchanges: Seq<Exchange>,
    cells: Cells,
    index: int,
    k: nat,
) -> Seq<(u64, Seq<u8>)> {
    if index < exchanges.len() && words_of(exchanges[index]).len() > 0 {
        let row = bit_of(words_of(exchanges[index]).last(), 0);
        let best = first_k(ranking::<u32>(row_of(cells, row)), 4 * k);
        first_k(
            sorted_form::<Ranked<Vec<u8>>>(resolved_ranking(best, vocabulary(exchanges))),
            k,
        )
    } else {
        Seq::empty()
    }
}

/// The (count, token) pairs of suggestions.
pub open spec fn suggestion_pairs(v: Seq<(Vec<u8>, u64)>) -> Seq<(u64, Seq<u8>)> {
    v.map_values(|p: (Vec<u8>, u64)| (p.1, p.0@))
}

/// The distinct tokens that set a bit, ascending.
pub open spec fn distinct_at(tokens: Seq<Seq<u8>>, bit: u32) -> Seq<Seq<u8>> {
    listing::<Vec<u8>>(tokens_at(tokens, bit).to_set())
}

/// The exchanges with tokens at a bit, each with those tokens.
pub open spec fn origins(exchanges: Seq<Exchange>, bit: u32) -> Seq<(int, Seq<Seq<u8>>)>
    decreases exchanges.len(),
{
    if exchanges.len() == 0 {
        Seq::empty()
    } else {
        let before = origins(exchanges.drop_last(), bit);
        let at = distinct_at(words_of(exchanges.last()), bit);
        if at.len() == 0 {
            before
        } else {
            before.push((exchanges.len() - 1, at))
        }
    }
}

/// What a list of origins holds.
pub open spec fn origin_views(v: Seq<(usize, Vec<Vec<u8>>)>) -> Seq<(int, Seq<Seq<u8>>)> {
    v.map_values(|p: (usize, Vec<Vec<u8>>)| (p.0 as int, views(p.1@)))
}

/// The bits of the single-token planes of two exchanges, ascending.
pub open spec fn shared_bits(a: Exchange, b: Exchange) -> Seq<u32> {
    listing::<u32>(a.hll_1@.intersect(b.hll_1@))
}

/// The origins of a bit in two exchanges: the distinct tokens of each that set
/// it, ascending, and whether these are the same.
pub open spec fn is_shared_origin(o: SharedBitOrigin, a: Exchange, b: Exchange, bit: u32) -> bool {
    &&& o.bit == bit
    &&& views(o.from_a@) == distinct_at(words_of(a), bit)
    &&& views(o.from_b@) == distinct_at(words_of(b), bit)
    &&& o.same_token == (views(o.from_a@) == views(o.from_b@))
}

/// The bits of the vocabulary and of the two markers.
pub open spec fn vocabulary_bits(plane: Set<u32>) -> Set<u32> {
    plane.insert(bit_of(start_bytes(), 0)).insert(bit_of(end_bytes(), 0))
}

impl ConversationContext {
    /// The unions and the matrix are those of the exchanges.
    pub open spec fn wf(&self) -> bool {
        let e = self.exchanges@;
        &&& all_wf(e)
        &&& self.top.hll_1@ == layer_union(e, 1)
        &&& self.top.hll_2@ == layer_union(e, 2)
        &&& self.top.hll_3@ == layer_union(e, 3)
        &&& self.top.hll@ == full_union(e)
        &&& self.matrix.cells() == context_cells(e)
        &&& self.matrix.links() == context_links(e)
        &&& self.matrix.follows() == recorded_pairs(e)
    }

    /// The empty context.
    pub fn new() -> (r: Self)
        ensures
            r.wf(),
            r.exchanges@.len() == 0,
            r.matrix.follows() == 0,
    {
        ConversationContext {
            exchanges: Vec::new(),
            top: ContextTop::new(),
            matrix: SparseAdjacencyMatrix::new(),
        }
    }

    /// The context of some exchanges.
    pub fn build(exchanges: Vec<Exchange>) -> (r: Self)
        requires
            pair_count(exchanges@) <= u64::MAX,
        ensures
            r.exchanges@ == exchanges@,
            joins_stored(r.top.hll_1@, exchanges@, 1),
            joins_stored(r.top.hll_2@, exchanges@, 2),
            joins_stored(r.top.hll_3@, exchanges@, 3),
            joins_stored(r.top.hll@, exchanges@, 0),
            r.matrix.cells() == context_cells(exchanges@),
            r.matrix.links() == context_links(exchanges@),
            all_wf(exchanges@) ==> r.wf(),
            r.matrix.follows() == recorded_pairs(exchanges@),
    {
        let ghost all = exchanges@;
        let mut rest = exchanges;
        let mut ctx = ConversationContext::new();
        let mut i: usize = 0;
        proof {
            assert(rest@ =~= all.skip(0));
            assert(ctx.exchanges@ =~= all.take(0));
        }
        while rest.len() > 0
            invariant
                i <= all.len(),
                rest@ == all.skip(i as int),
                pair_count(all) <= u64::MAX,
                ctx.exchanges@ == all.take(i as int),
                joins_stored(ctx.top.hll_1@, all.take(i as int), 1),
                joins_stored(ctx.top.hll_2@, all.take(i as int), 2),
                joins_stored(ctx.top.hll_3@, all.take(i as int), 3),
                joins_stored(ctx.top.hll@, all.take(i as int), 0),
                ctx.matrix.cells() == context_cells(all.take(i as int)),
                ctx.matrix.links() == context_links(all.take(i as int)),
                all_wf(all) ==> ctx.wf(),
                ctx.matrix.follows() == recorded_pairs(all.take(i as int)),
            decreases rest@.len(),
        {
            let ex = rest.remove(0);
            proof {
                assert(ex == all[i as int]);
                assert(all.skip(i as int).remove(0) =~= all.skip(i + 1));
                assert(all.take(i + 1).drop_last() =~= all.take(i as int));
                assert(all.take(i + 1).last() == all[i as int]);
                lemma_pair_count_prefix(all, i + 1);
                lemma_recorded_pairs(all.take(i as int));
                if all_wf(all) {
                    assert(all[i as int].wf());
                }
                assert(all.take(i as int).push(ex) =~= all.take(i + 1));
                assert(i < all.len());
            }
            let ghost top = ctx.top;
            ctx.add_exchange(ex);
            proof {
                lemma_joins_one_more(top.hll_1@, ctx.top.hll_1@, all, i as int, 1);
                lemma_joins_one_more(top.hll_2@, ctx.top.hll_2@, all, i as int, 2);
                lemma_joins_one_more(top.hll_3@, ctx.top.hll_3@, all, i as int, 3);
                lemma_joins_one_more(top.hll@, ctx.top.hll@, all, i as int, 0);
            }
            assert(i < usize::MAX) by {
                assert(ctx.exchanges.len() == i + 1);
            }
            i = i + 1;
        }
        proof {
            assert(all.take(i as int) =~= all);
        }
        ctx
    }

    /// Adds one exchange: sets its bits, counts its pairs.
    pub fn add_exchange(&mut self, exchange: Exchange)
        requires
            old(self).matrix.follows() + layer(words_of(exchange), 2).len() <= u64::MAX,
        ensures
            final(self).exchanges@ == old(self).exchanges@.push(exchange),
            final(self).top.hll_1@ == old(self).top.hll_1@.union(exchange.hll_1@),
            final(self).top.hll_2@ == old(self).top.hll_2@.union(exchange.hll_2@),
            final(self).top.hll_3@ == old(self).top.hll_3@.union(exchange.hll_3@),
            final(self).top.hll@ == old(self).top.hll@.union(exchange.hll@),
            final(self).matrix.cells() == cells_after(
                old(self).matrix.cells(),
                layer(words_of(exchange), 2),
            ),
            final(self).matrix.links() == links_after(
                old(self).matrix.links(),
                layer(words_of(exchange), 2),
            ),
            final(self).matrix.follows() == old(self).matrix.follows() + pairs_among(
                layer(words_of(exchange), 2),
            ),
            old(self).wf() && exchange.wf() ==> final(self).wf(),
    {
        let two_grams = exchange.ngrams(2);
        proof {
            assert(views(two_grams@).len() == two_grams@.len());
        }
        self.matrix.increment_2grams(two_grams.as_slice());
        self.top.hll_1.merge(&exchange.hll_1);
        self.top.hll_2.merge(&exchange.hll_2);
        self.top.hll_3.merge(&exchange.hll_3);
        self.top.hll.merge(&exchange.hll);
        let ghost before = self.exchanges@;
        self.exchanges.push(exchange);
        proof {
            let now = self.exchanges@;
            assert(now.drop_last() =~= before);
            assert(now.last() == exchange);
            if old(self).wf() && exchange.wf() {
                assert forall|i: int| 0 <= i < now.len() implies (#[trigger] now[i]).wf() by {
                    if i < before.len() {
                        assert(now[i] == before[i]);
                    }
                }
            }
        }
    }

    /// The number of exchanges.
    pub fn len(&self) -> (r: usize)
        ensures
            r == self.exchanges@.len(),
    {
        self.exchanges.len()
    }

    /// Whether there are no exchanges.
    pub fn is_empty(&self) -> (r: bool)
        ensures
            r == (self.exchanges@.len() == 0),
    {
        self.exchanges.len() == 0
    }

    /// How much of an exchange the full union covers; `None` where there is
    /// no such exchange.
    pub fn bss_inclusion(&self, exchange_index: usize) -> (r: Option<Share>)
        ensures
            r is Some <==> exchange_index < self.exchanges@.len(),
            r matches Some(s) ==> s.part == self.top.hll@.intersect(
                self.exchanges@[exchange_index as int].hll@,
            ).len() && s.whole == self.exchanges@[exchange_index as int].hll@.len(),
    {
        if exchange_index < self.exchanges.len() {
            let ex = &self.exchanges[exchange_index];
            Some(
                Share {
                    part: self.top.hll.intersection(&ex.hll).popcount(),
                    whole: ex.hll.popcount(),
                },
            )
        } else {
            None
        }
    }

    /// The shared and the joint bits of two exchanges, whose fraction is their
    /// Jaccard overlap; `None` where one does not exist.
    pub fn exchange_overlap(&self, i: usize, j: usize) -> (r: Option<Share>)
        ensures
            r is Some <==> i < self.exchanges@.len() && j < self.exchanges@.len(),
            r matches Some(s) ==> s.part == self.exchanges@[i as int].hll@.intersect(
                self.exchanges@[j as int].hll@,
            ).len() && s.whole == self.exchanges@[i as int].hll@.union(
                self.exchanges@[j as int].hll@,
            ).len(),
    {
        if i < self.exchanges.len() && j < self.exchanges.len() {
            let a = &self.exchanges[i];
            let b = &self.exchanges[j];
            Some(overlap(&a.hll, &b.hll))
        } else {
            None
        }
    }

    /// The candidate tokens by bit: the markers and every token.
    pub fn vocabulary_index(&self) -> (r: TokenIndex)
        ensures
            r@ == vocabulary(self.exchanges@),
    {
        let mut idx = TokenIndex::new();
        idx.insert(start_marker().as_slice());
        idx.insert(end_marker().as_slice());
        let ghost all = self.exchanges@;
        let mut i: usize = 0;
        proof {
            assert(all.take(0) =~= Seq::empty());
        }
        while i < self.exchanges.len()
            invariant
                i <= self.exchanges@.len(),
                all == self.exchanges@,
                idx@ == vocabulary(all.take(i as int)),
            decreases self.exchanges@.len() - i,
        {
            let tokens = self.exchanges[i].ngrams(1);
            let ghost w = words_of(all[i as int]);
            let ghost before = idx@;
            proof {
                lemma_first_layer(w);
                assert(all.take(i + 1).drop_last() =~= all.take(i as int));
                assert(all.take(i + 1).last() == all[i as int]);
                assert(w.take(0) =~= Seq::empty());
            }
            let mut k: usize = 0;
            while k < tokens.len()
                invariant
                    k <= tokens@.len(),
                    w == views(tokens@),
                    idx@ == indexed(before, w.take(k as int)),
                decreases tokens@.len() - k,
            {
                idx.insert(tokens[k].as_slice());
                proof {
                    assert(w.take(k + 1).drop_last() =~= w.take(k as int));
                    assert(w.take(k + 1).last() == tokens@[k as int]@);
                }
                k = k + 1;
            }
            proof {
                assert(w.take(k as int) =~= w);
            }
            i = i + 1;
        }
        proof {
            assert(all.take(i as int) =~= all);
        }
        idx
    }

    /// The matrix cells of an exchange's padded pairs, in order; none where
    /// there is no such exchange.
    pub fn exchange_path_cells(&self, exchange_index: usize) -> (r: Vec<(u32, u32, u64)>)
        ensures
            r@ == if exchange_index < self.exchanges@.len() {
                path_cells(
                    self.matrix.cells(),
                    layer(words_of(self.exchanges@[exchange_index as int]), 2),
                )
            } else {
                Seq::empty()
            },
    {
        let mut out: Vec<(u32, u32, u64)> = Vec::new();
        if exchange_index >= self.exchanges.len() {
            assert(out@ =~= Seq::empty());
            return out;
        }
        let pairs = self.exchanges[exchange_index].ngrams(2);
        let ghost all = views(pairs@);
        let mut i: usize = 0;
        proof {
            assert(all.take(0) =~= Seq::empty());
            assert(out@ =~= Seq::empty());
        }
        while i < pairs.len()
            invariant
                i <= pairs@.len(),
                all == views(pairs@),
                out@ == path_cells(self.matrix.cells(), all.take(i as int)),
            decreases pairs@.len() - i,
        {
            let parts = split_ngram(pairs[i].as_slice());
            proof {
                assert(all.take(i + 1).drop_last() =~= all.take(i as int));
                assert(all.take(i + 1).last() == pairs@[i as int]@);
                assert(views(parts@).len() == parts@.len());
                if parts@.len() == 2 {
                    assert(views(parts@)[0] == parts@[0]@);
                    assert(views(parts@)[1] == parts@[1]@);
                }
            }
            if parts.len() == 2 {
                let row: u32 = token_bit_position(parts[0].as_slice());
                let col: u32 = token_bit_position(parts[1].as_slice());
                out.push((row, col, self.matrix.get(row, col)));
            }
            i = i + 1;
        }
        proof {
            assert(all.take(i as int) =~= all);
        }
        out
    }

    /// Next-token suggestions after the last token of an exchange.
    pub fn suggest_continuations(&self, exchange_index: usize, k: usize) -> (r: Vec<
        (Vec<u8>, u64),
    >)
        requires
            4 * k <= usize::MAX,
        ensures
            suggestion_pairs(r@) == suggestions(
                self.exchanges@,
                self.matrix.cells(),
                exchange_index as int,
                k as nat,
            ),
    {
        let mut out: Vec<(Vec<u8>, u64)> = Vec::new();
        if exchange_index >= self.exchanges.len() {
            assert(suggestion_pairs(out@) =~= Seq::empty());
            return out;
        }
        let tokens = self.exchanges[exchange_index].ngrams(1);
        let ghost w = words_of(self.exchanges@[exchange_index as int]);
        proof {
            lemma_first_layer(w);
            assert(views(tokens@).len() == tokens@.len());
        }
        if tokens.len() == 0 {
            assert(suggestion_pairs(out@) =~= Seq::empty());
            return out;
        }
        let last = &tokens[tokens.len() - 1];
        proof {
            assert(w.last() == last@);
        }
        let row: u32 = token_bit_position(last.as_slice());
        let index = self.vocabulary_index();
        let best = self.matrix.continuations(row, k * 4);
        let ghost ranked = ranking_pairs(best@);
        let mut items: Vec<Ranked<Vec<u8>>> = Vec::new();
        let mut i: usize = 0;
        proof {
            assert(ranked.take(0) =~= Seq::empty());
            assert(vals(items@) =~= Seq::empty());
        }
        while i < best.len()
            invariant
                i <= best@.len(),
                ranked == ranking_pairs(best@),
                vals(items@) == resolved_ranking(ranked.take(i as int), index@),
            decreases best@.len() - i,
        {
            let col: u32 = best[i].0;
            let count: u64 = best[i].1;
            let group = resolve_group(&index, col);
            let ghost g = views(group@);
            let ghost base = vals(items@);
            let ghost tail = g.map_values(|t: Seq<u8>| (count, t));
            proof {
                assert(ranked.take(i + 1).drop_last() =~= ranked.take(i as int));
                assert(ranked.take(i + 1).last() == (count, col));
                assert(base + tail.take(0) =~= base);
            }
            let mut j: usize = 0;
            while j < group.len()
                invariant
                    j <= group@.len(),
                    g == views(group@),
                    tail == g.map_values(|t: Seq<u8>| (count, t)),
                    vals(items@) == base + tail.take(j as int),
                decreases group@.len() - j,
            {
                let item = Ranked { count, key: copy_bytes(group[j].as_slice()) };
                let ghost before = items@;
                proof {
                    assert(item.val() == tail[j as int]);
                    assert(tail.take(j + 1) =~= tail.take(j as int).push(tail[j as int]));
                    assert(vals(before.push(item)) =~= vals(before).push(item.val()));
                }
                items.push(item);
                j = j + 1;
            }
            proof {
                assert(tail.take(j as int) =~= tail);
            }
            i = i + 1;
        }
        proof {
            assert(ranked.take(i as int) =~= ranked);
        }
        let sorted = sort(items);
        let mut m: usize = 0;
        while m < sorted.len() && m < k
            invariant
                m <= sorted@.len(),
                m <= k,
                out@.len() == m,
                forall|a: int|
                    0 <= a < m ==> (out@[a].1, (#[trigger] out@[a]).0@) == vals(sorted@)[a],
            decreases sorted@.len() - m,
        {
            out.push((copy_bytes(sorted[m].key.as_slice()), sorted[m].count));
            m = m + 1;
        }
        proof {
            assert(suggestion_pairs(out@) =~= first_k(vals(sorted@), k as nat));
        }
        out
    }

    /// For each exchange with tokens at a bit, those tokens.
    pub fn bit_origins(&self, bit: u32) -> (r: Vec<(usize, Vec<Vec<u8>>)>)
        ensures
            origin_views(r@) == origins(self.exchanges@, bit),
    {
        let ghost all = self.exchanges@;
        let mut out: Vec<(usize, Vec<Vec<u8>>)> = Vec::new();
        let mut i: usize = 0;
        proof {
            assert(all.take(0) =~= Seq::empty());
            assert(origin_views(out@) =~= Seq::empty());
        }
        while i < self.exchanges.len()
            invariant
                i <= self.exchanges@.len(),
                all == self.exchanges@,
                origin_views(out@) == origins(all.take(i as int), bit),
            decreases self.exchanges@.len() - i,
        {
            let tokens = tokens_at_bit(&self.exchanges[i], bit);
            proof {
                assert(all.take(i + 1).drop_last() =~= all.take(i as int));
                assert(all.take(i + 1).last() == all[i as int]);
                assert(views(tokens@).len() == tokens@.len());
            }
            if tokens.len() > 0 {
                let ghost before = out@;
                let ghost item = (i as int, views(tokens@));
                out.push((i, tokens));
                proof {
                    assert(origin_views(out@) =~= origin_views(before).push(item));
                }
            }
            i = i + 1;
        }
        proof {
            assert(all.take(i as int) =~= all);
        }
        out
    }

    /// The vocabulary bits that two exchanges share, ascending, each with the
    /// tokens that set it in either; none where one does not exist.
    pub fn shared_bit_origins(&self, i: usize, j: usize) -> (r: Vec<SharedBitOrigin>)
        ensures
            !(i < self.exchanges@.len() && j < self.exchanges@.len()) ==> r@.len() == 0,
            i < self.exchanges@.len() && j < self.exchanges@.len() ==> ({
                let a = self.exchanges@[i as int];
                let b = self.exchanges@[j as int];
                let bits = listing::<u32>(a.hll_1@.intersect(b.hll_1@));
                &&& r@.len() == bits.len()
                &&& forall|k: int|
                    0 <= k < r@.len() ==> {
                        &&& (#[trigger] r@[k]).bit == bits[k]
                        &&& views(r@[k].from_a@) == distinct_at(words_of(a), bits[k])
                        &&& views(r@[k].from_b@) == distinct_at(words_of(b), bits[k])
                        &&& r@[k].same_token == (views(r@[k].from_a@) == views(r@[k].from_b@))
                    }
                &&& r@.len() == shared_bits(a, b).len()
                &&& forall|k: int|
                    0 <= k < r@.len() ==> is_shared_origin(
                        #[trigger] r@[k],
                        a,
                        b,
                        shared_bits(a, b)[k],
                    )
            }),
    {
        let mut out: Vec<SharedBitOrigin> = Vec::new();
        if i >= self.exchanges.len() || j >= self.exchanges.len() {
            return out;
        }
        let a = &self.exchanges[i];
        let b = &self.exchanges[j];
        let shared = a.hll_1.intersection(&b.hll_1);
        let bits = shared.bitmap();
        proof {
            lemma_listing::<u32>(bits@, shared@);
        }
        let mut k: usize = 0;
        while k < bits.len()
            invariant
                k <= bits@.len(),
                out@.len() == k,
                forall|m: int|
                    0 <= m < k ==> is_shared_origin(#[trigger] out@[m], *a, *b, bits@[m]),
            decreases bits@.len() - k,
        {
            let bit: u32 = bits[k];
            let from_a = tokens_at_bit(a, bit);
            let from_b = tokens_at_bit(b, bit);
            let same_token = match from_a.order(&from_b) {
                crate::order::Order::Same => true,
                _ => false,
            };
            out.push(SharedBitOrigin { bit, from_a, from_b, same_token });
            k = k + 1;
        }
        out
    }

    /// Whether the rows and columns of the matrix lie in the vocabulary, the
    /// two markers included.
    pub fn matrix_index_is_vocabulary(&self) -> (r: bool)
        ensures
            r == rows(self.matrix.cells()).union(columns(self.matrix.cells())).subset_of(
                vocabulary_bits(self.top.hll_1@),
            ),
    {
        let bits = self.top.hll_1.bitmap();
        let mut vocab: OrdSet<u32> = OrdSet::new();
        let mut i: usize = 0;
        proof {
            assert(vocab@ =~= bits@.take(0).to_set());
        }
        while i < bits.len()
            invariant
                i <= bits@.len(),
                vocab@ == bits@.take(i as int).to_set(),
            decreases bits@.len() - i,
        {
            vocab.insert(bits[i]);
            proof {
                crate::collections::lemma_take_step(bits@, i as int);
            }
            i = i + 1;
        }
        proof {
            assert(bits@.take(i as int) =~= bits@);
        }
        vocab.insert(token_bit_position(start_marker().as_slice()));
        vocab.insert(token_bit_position(end_marker().as_slice()));
        self.matrix.index_is_subset_of(&vocab)
    }
}

/// The shared and the joint bits of two planes.
pub fn overlap(a: &HLLSet, b: &HLLSet) -> (r: Share)
    ensures
        r.part == a@.intersect(b@).len(),
        r.whole == a@.union(b@).len(),
{
    Share { part: a.intersection(b).popcount(), whole: a.union(b).popcount() }
}

/// The distinct tokens of an exchange that set a bit, ascending.
fn tokens_at_bit(exchange: &Exchange, bit: u32) -> (r: Vec<Vec<u8>>)
    ensures
        views(r@) == distinct_at(words_of(*exchange), bit),
{
    let tokens = exchange.ngrams(1);
    let ghost w = words_of(*exchange);
    let mut set: OrdSet<Vec<u8>> = OrdSet::new();
    let mut i: usize = 0;
    proof {
        lemma_first_layer(w);
        reveal(Seq::filter);
        assert(set@ =~= tokens_at(w.take(0), bit).to_set());
    }
    while i < tokens.len()
        invariant
            i <= tokens@.len(),
            w == views(tokens@),
            set@ == tokens_at(w.take(i as int), bit).to_set(),
        decreases tokens@.len() - i,
    {
        proof {
            lemma_tokens_at_step(w, i as int, bit);
            assert(w[i as int] == tokens@[i as int]@);
        }
        if token_bit_position(tokens[i].as_slice()) == bit {
            let ghost before = tokens_at(w.take(i as int), bit);
            set.insert(copy_bytes(tokens[i].as_slice()));
            proof {
                assert(before.push(w[i as int]) =~= before.insert(
                    before.len() as int,
                    w[i as int],
                ));
                crate::collections::lemma_insert_to_set(
                    before,
                    before.len() as int,
                    w[i as int],
                );
            }
        }
        i = i + 1;
    }
    proof {
        assert(w.take(i as int) =~= w);
    }
    let r = set.to_vec();
    proof {
        assert(views(r@) =~= vals(r@));
        lemma_listing::<Vec<u8>>(vals(r@), set@);
    }
    r
}

/// Fewer exchanges have no more pairs.
pub proof fn lemma_pair_count_prefix(all: Seq<Exchange>, i: int)
    requires
        0 <= i <= all.len(),
    ensures
        pair_count(all.take(i)) <= pair_count(all),
    decreases all.len(),
{
    if i < all.len() {
        lemma_pair_count_prefix(all.drop_last(), i);
        assert(all.drop_last().take(i) =~= all.take(i));
    } else {
        assert(all.take(i) =~= all);
    }
}

/// A context built in one go and one built turn by turn from the same
/// exchanges have the same unions and the same matrix.
pub proof fn incremental_equals_batch(a: ConversationContext, b: ConversationContext)
    requires
        a.wf(),
        b.wf(),
        a.exchanges@ == b.exchanges@,
    ensures
        a.top.hll_1@ == b.top.hll_1@,
        a.top.hll_2@ == b.top.hll_2@,
        a.top.hll_3@ == b.top.hll_3@,
        a.top.hll@ == b.top.hll@,
        a.matrix.cells() == b.matrix.cells(),
        a.matrix.links() == b.matrix.links(),
{
}

/// How many separators a byte string holds.
pub open spec fn separators(s: Seq<u8>) -> nat
    decreases s.len(),
{
    if s.len() == 0 {
        0
    } else {
        separators(s.drop_last()) + if s.last() == SEP {
            1nat
        } else {
            0nat
        }
    }
}

proof fn lemma_pieces_count(s: Seq<u8>)
    ensures
        pieces(s).len() == separators(s) + 1,
    decreases s.len(),
{
    if s.len() > 0 {
        lemma_pieces_count(s.drop_last());
    }
}

proof fn lemma_separators_append(s: Seq<u8>, t: Seq<u8>)
    ensures
        separators(s + t) == separators(s) + separators(t),
    decreases t.len(),
{
    if t.len() == 0 {
        assert(s + t =~= s);
    } else {
        lemma_separators_append(s, t.drop_last());
        assert((s + t).drop_last() =~= s + t.drop_last());
    }
}

proof fn lemma_no_separators(s: Seq<u8>)
    requires
        separators(s) == 0,
    ensures
        plain(s),
    decreases s.len(),
{
    if s.len() > 0 {
        lemma_no_separators(s.drop_last());
        assert forall|i: int| 0 <= i < s.len() implies #[trigger] s[i] != SEP by {
            if i < s.len() - 1 {
                assert(s.drop_last()[i] == s[i]);
            }
        }
    }
}

/// A pair that splits into two parts splits into its two tokens.
pub proof fn lemma_pair_splits(a: Seq<u8>, b: Seq<u8>)
    requires
        split(nul_joined(seq![a, b])).len() == 2,
    ensures
        split(nul_joined(seq![a, b])) == seq![a, b],
{
    let two = seq![a, b];
    let one = two.drop_last();
    assert(one.len() == 1 && one[0] == a);
    assert(nul_joined(one) == a);
    assert(two.last() == b);
    let j = nul_joined(two);
    assert(j == a.push(SEP) + b);
    lemma_pieces_count(j);
    lemma_separators_append(a.push(SEP), b);
    assert(a.push(SEP).drop_last() =~= a);
    lemma_no_separators(a);
    lemma_no_separators(b);
    assert(plain(two[0]) && plain(two[1]));
    crate::ngrams::split_undoes_join(two);
}

/// The rows and columns recorded by the pairs of a padded sequence come from
/// its tokens and the markers.
proof fn lemma_cells_over_vocabulary(cells: Cells, tokens: Seq<Seq<u8>>, n: nat, vocab: Set<u32>)
    requires
        tokens.len() > 0,
        n <= layer(tokens, 2).len(),
        rows(cells).union(columns(cells)).subset_of(vocab),
        crate::hllset::token_bits(tokens, 0).subset_of(vocab),
        vocab.contains(bit_of(start_bytes(), 0)),
        vocab.contains(bit_of(end_bytes(), 0)),
    ensures
        ({
            let after = cells_after(cells, layer(tokens, 2).take(n as int));
            rows(after).union(columns(after)).subset_of(vocab)
        }),
    decreases n,
{
    let pairs = layer(tokens, 2);
    if n == 0 {
        assert(pairs.take(0) =~= Seq::empty());
    } else {
        lemma_cells_over_vocabulary(cells, tokens, (n - 1) as nat, vocab);
        let part = pairs.take(n as int);
        assert(part.drop_last() =~= pairs.take(n - 1));
        let before = cells_after(cells, pairs.take(n - 1));
        let i = n - 1;
        let s = padded(tokens);
        let window = s.subrange(i, i + 2);
        assert(window =~= seq![s[i], s[i + 1]]);
        assert(part.last() == nul_joined(seq![s[i], s[i + 1]]));
        let p = split(part.last());
        if p.len() == 2 {
            lemma_pair_splits(s[i], s[i + 1]);
            lemma_padded_bit(tokens, i, vocab);
            lemma_padded_bit(tokens, i + 1, vocab);
            let key = (bit_of(s[i], 0), bit_of(s[i + 1], 0));
            let after = crate::matrix::bumped(before, key);
            assert(after.dom() =~= before.dom().insert(key));
            crate::matrix::lemma_map_insert(before.dom(), key, |k: (u32, u32)| k.0);
            crate::matrix::lemma_map_insert(before.dom(), key, |k: (u32, u32)| k.1);
            assert forall|b: u32|
                rows(after).union(columns(after)).contains(b) implies vocab.contains(b) by {
                if b != key.0 && b != key.1 {
                    assert(rows(before).union(columns(before)).contains(b));
                }
            }
        }
    }
}

proof fn lemma_padded_bit(tokens: Seq<Seq<u8>>, i: int, vocab: Set<u32>)
    requires
        0 <= i < padded(tokens).len(),
        crate::hllset::token_bits(tokens, 0).subset_of(vocab),
        vocab.contains(bit_of(start_bytes(), 0)),
        vocab.contains(bit_of(end_bytes(), 0)),
    ensures
        vocab.contains(bit_of(padded(tokens)[i], 0)),
{
    if 0 < i && i <= tokens.len() {
        assert(padded(tokens)[i] == tokens[i - 1]);
        let b = bit_of(tokens[i - 1], 0);
        assert(crate::hllset::token_bits(tokens, 0).contains(b));
    }
}

/// The matrix of a context never leaves the vocabulary: every row and column
/// is the bit of a token of some exchange, or of a marker.
pub proof fn the_matrix_stays_over_the_vocabulary(exchanges: Seq<Exchange>)
    ensures
        rows(context_cells(exchanges)).union(columns(context_cells(exchanges))).subset_of(
            vocabulary_bits(layer_union(exchanges, 1)),
        ),
    decreases exchanges.len(),
{
    let cells = context_cells(exchanges);
    if exchanges.len() == 0 {
        assert(rows(cells) =~= Set::empty());
        assert(columns(cells) =~= Set::empty());
    } else {
        let front = exchanges.drop_last();
        let tokens = words_of(exchanges.last());
        the_matrix_stays_over_the_vocabulary(front);
        let vocab = vocabulary_bits(layer_union(exchanges, 1));
        let before = context_cells(front);
        assert(rows(before).union(columns(before)).subset_of(vocab));
        if tokens.len() > 0 {
            lemma_first_layer(tokens);
            let pairs = layer(tokens, 2);
            lemma_cells_over_vocabulary(before, tokens, pairs.len(), vocab);
            assert(pairs.take(pairs.len() as int) =~= pairs);
        } else {
            assert(layer(tokens, 2) =~= Seq::empty());
        }
    }
}

proof fn lemma_counts_bounded(exchanges: Seq<Exchange>, cell: (u32, u32))
    requires
        pair_count(exchanges) <= u64::MAX,
    ensures
        count_in(context_cells(exchanges), cell) <= pair_count(exchanges),
    decreases exchanges.len(),
{
    if exchanges.len() > 0 {
        lemma_counts_bounded(exchanges.drop_last(), cell);
        recording_adds_follows(
            context_cells(exchanges.drop_last()),
            layer(words_of(exchanges.last()), 2),
            cell,
        );
    }
}

/// Adding an exchange never rewrites history: it only sets bits in the
/// unions, and raises the count of each cell by how often the exchange's own
/// pairs fall on it.
pub proof fn adding_never_rewrites_history(
    exchanges: Seq<Exchange>,
    more: Exchange,
    cell: (u32, u32),
    n: nat,
)
    requires
        pair_count(exchanges.push(more)) <= u64::MAX,
    ensures
        layer_union(exchanges, n).subset_of(layer_union(exchanges.push(more), n)),
        full_union(exchanges).subset_of(full_union(exchanges.push(more))),
        count_in(context_cells(exchanges.push(more)), cell) == count_in(
            context_cells(exchanges),
            cell,
        ) + follows_at(layer(words_of(more), 2), cell),
{
    let now = exchanges.push(more);
    assert(now.drop_last() =~= exchanges);
    assert(now.last() == more);
    lemma_counts_bounded(exchanges, cell);
    recording_adds_follows(context_cells(exchanges), layer(words_of(more), 2), cell);
}

/// Repeating an exchange sets no new bit.
pub proof fn repeated_exchanges_set_no_bits(exchanges: Seq<Exchange>, i: int, n: nat)
    requires
        0 <= i < exchanges.len(),
    ensures
        layer_union(exchanges.push(exchanges[i]), n) == layer_union(exchanges, n),
        full_union(exchanges.push(exchanges[i])) == full_union(exchanges),
{
    let now = exchanges.push(exchanges[i]);
    assert(now.drop_last() =~= exchanges);
    lemma_exchange_in_union(exchanges, i, n);
    assert(layer_union(now, n) =~= layer_union(exchanges, n));
    assert(full_union(now) =~= full_union(exchanges));
}

proof fn lemma_exchange_in_union(exchanges: Seq<Exchange>, i: int, n: nat)
    requires
        0 <= i < exchanges.len(),
    ensures
        layer_plane(words_of(exchanges[i]), n).subset_of(layer_union(exchanges, n)),
        full_plane(words_of(exchanges[i])).subset_of(full_union(exchanges)),
    decreases exchanges.len(),
{
    if i < exchanges.len() - 1 {
        let p = exchanges.drop_last();
        assert(p[i] == exchanges[i]);
        lemma_exchange_in_union(p, i, n);
    }
}

/// Two tokens stand side by side in an exchange, its markers included.
pub open spec fn beside(e: Exchange, p: int, a: Seq<u8>, b: Seq<u8>) -> bool {
    &&& words_of(e).len() > 0
    &&& 0 <= p < padded(words_of(e)).len() - 1
    &&& padded(words_of(e))[p] == a
    &&& padded(words_of(e))[p + 1] == b
}

/// The second token follows the first in some exchange.
pub open spec fn follows_somewhere(exchanges: Seq<Exchange>, a: Seq<u8>, b: Seq<u8>) -> bool {
    exists|j: int, p: int| 0 <= j < exchanges.len() && #[trigger] beside(exchanges[j], p, a, b)
}

/// A token with the second bit follows one with the first in some exchange.
pub open spec fn bits_follow(exchanges: Seq<Exchange>, row: u32, col: u32) -> bool {
    exists|a: Seq<u8>, b: Seq<u8>|
        bit_of(a, 0) == row && bit_of(b, 0) == col && #[trigger] follows_somewhere(exchanges, a, b)
}

/// No token of some exchanges holds a separator.
pub open spec fn all_plain(exchanges: Seq<Exchange>) -> bool {
    forall|i: int, k: int|
        0 <= i < exchanges.len() && 0 <= k < words_of(exchanges[i]).len() ==> plain(
            #[trigger] words_of(exchanges[i])[k],
        )
}

/// A token of some exchange, or a marker.
pub open spec fn known(exchanges: Seq<Exchange>, t: Seq<u8>) -> bool {
    t == start_bytes() || t == end_bytes() || exists|i: int|
        0 <= i < exchanges.len() && words_of(#[trigger] exchanges[i]).contains(t)
}

proof fn lemma_padded_plain(tokens: Seq<Seq<u8>>, p: int)
    requires
        forall|k: int| 0 <= k < tokens.len() ==> plain(#[trigger] tokens[k]),
        0 <= p < padded(tokens).len(),
    ensures
        plain(padded(tokens)[p]),
{
    if 0 < p && p <= tokens.len() {
        assert(padded(tokens)[p] == tokens[p - 1]);
    }
}

proof fn lemma_recorded_cells(cells: Cells, tokens: Seq<Seq<u8>>, n: nat, cell: (u32, u32))
    requires
        tokens.len() > 0,
        n <= layer(tokens, 2).len(),
        forall|k: int| 0 <= k < tokens.len() ==> plain(#[trigger] tokens[k]),
    ensures
        cells_after(cells, layer(tokens, 2).take(n as int)).contains_key(cell)
            <==> cells.contains_key(cell) || exists|p: int|
            0 <= p < n && #[trigger] bit_of(padded(tokens)[p], 0) == cell.0 && bit_of(
                padded(tokens)[p + 1],
                0,
            ) == cell.1,
    decreases n,
{
    let pairs = layer(tokens, 2);
    let s = padded(tokens);
    if n == 0 {
        assert(pairs.take(0) =~= Seq::empty());
    } else {
        lemma_recorded_cells(cells, tokens, (n - 1) as nat, cell);
        let part = pairs.take(n as int);
        assert(part.drop_last() =~= pairs.take(n - 1));
        let i = n - 1;
        assert(s.subrange(i, i + 2) =~= seq![s[i], s[i + 1]]);
        assert(part.last() == nul_joined(seq![s[i], s[i + 1]]));
        lemma_padded_plain(tokens, i);
        lemma_padded_plain(tokens, i + 1);
        let two = seq![s[i], s[i + 1]];
        assert(two.drop_last() =~= seq![s[i]]);
        assert(nul_joined(seq![s[i]]) == s[i]);
        assert(nul_joined(two) == s[i].push(SEP) + s[i + 1]);
        assert(plain(two[0]) && plain(two[1]));
        crate::ngrams::split_undoes_join(two);
        let before = cells_after(cells, pairs.take(n - 1));
        let now = cells_after(cells, part);
        assert(now == crate::matrix::bumped(before, (bit_of(s[i], 0), bit_of(s[i + 1], 0))));
        if now.contains_key(cell) && !before.contains_key(cell) {
            assert(bit_of(s[i], 0) == cell.0);
        }
        if exists|p: int|
            0 <= p < n && #[trigger] bit_of(s[p], 0) == cell.0 && bit_of(s[p + 1], 0) == cell.1 {
            let p = choose|p: int|
                0 <= p < n && #[trigger] bit_of(s[p], 0) == cell.0 && bit_of(s[p + 1], 0) == cell.1;
            if p < n - 1 {
                assert(0 <= p < n - 1 && bit_of(s[p], 0) == cell.0);
                assert(before.contains_key(cell));
            }
        }
    }
}

proof fn lemma_bits_follow_step(exchanges: Seq<Exchange>, row: u32, col: u32)
    requires
        exchanges.len() > 0,
    ensures
        bits_follow(exchanges, row, col) <==> bits_follow(exchanges.drop_last(), row, col) || (
        words_of(exchanges.last()).len() > 0 && exists|p: int|
            0 <= p < padded(words_of(exchanges.last())).len() - 1 && #[trigger] bit_of(
                padded(words_of(exchanges.last()))[p],
                0,
            ) == row && bit_of(padded(words_of(exchanges.last()))[p + 1], 0) == col),
{
    let front = exchanges.drop_last();
    let last = exchanges.last();
    let s = padded(words_of(last));
    if bits_follow(exchanges, row, col) {
        let (a, b) = choose|a: Seq<u8>, b: Seq<u8>|
            bit_of(a, 0) == row && bit_of(b, 0) == col && #[trigger] follows_somewhere(
                exchanges,
                a,
                b,
            );
        let (j, p) = choose|j: int, p: int|
            0 <= j < exchanges.len() && #[trigger] beside(exchanges[j], p, a, b);
        if j < front.len() {
            assert(beside(front[j], p, a, b));
            assert(follows_somewhere(front, a, b));
        } else {
            assert(exchanges[j] == last);
            assert(bit_of(s[p], 0) == row);
        }
    }
    if bits_follow(front, row, col) {
        let (a, b) = choose|a: Seq<u8>, b: Seq<u8>|
            bit_of(a, 0) == row && bit_of(b, 0) == col && #[trigger] follows_somewhere(front, a, b);
        let (j, p) = choose|j: int, p: int|
            0 <= j < front.len() && #[trigger] beside(front[j], p, a, b);
        assert(beside(exchanges[j], p, a, b));
        assert(follows_somewhere(exchanges, a, b));
    }
    if words_of(last).len() > 0 && exists|p: int|
        0 <= p < s.len() - 1 && #[trigger] bit_of(s[p], 0) == row && bit_of(s[p + 1], 0) == col {
        let p = choose|p: int|
            0 <= p < s.len() - 1 && #[trigger] bit_of(s[p], 0) == row && bit_of(s[p + 1], 0) == col;
        assert(beside(exchanges[exchanges.len() - 1], p, s[p], s[p + 1]));
        assert(follows_somewhere(exchanges, s[p], s[p + 1]));
    }
}

/// The matrix has a cell precisely where a token with its column's bit follows
/// one with its row's bit in some exchange.
pub proof fn cells_are_follows(exchanges: Seq<Exchange>, row: u32, col: u32)
    requires
        all_plain(exchanges),
    ensures
        context_cells(exchanges).contains_key((row, col)) <==> bits_follow(exchanges, row, col),
    decreases exchanges.len(),
{
    if exchanges.len() > 0 {
        let front = exchanges.drop_last();
        let last = exchanges.last();
        let tokens = words_of(last);
        assert(all_plain(front)) by {
            assert forall|i: int, k: int|
                0 <= i < front.len() && 0 <= k < words_of(front[i]).len() implies plain(
                #[trigger] words_of(front[i])[k],
            ) by {
                assert(plain(words_of(exchanges[i])[k]));
            }
        }
        cells_are_follows(front, row, col);
        lemma_bits_follow_step(exchanges, row, col);
        let pairs = layer(tokens, 2);
        if tokens.len() > 0 {
            assert forall|k: int| 0 <= k < tokens.len() implies plain(#[trigger] tokens[k]) by {
                assert(plain(words_of(exchanges[exchanges.len() - 1])[k]));
            }
            lemma_recorded_cells(context_cells(front), tokens, pairs.len(), (row, col));
            assert(pairs.take(pairs.len() as int) =~= pairs);
            assert(pairs.len() == padded(tokens).len() - 1);
        } else {
            assert(pairs =~= Seq::empty());
        }
    } else {
        if bits_follow(exchanges, row, col) {
            let (a, b) = choose|a: Seq<u8>, b: Seq<u8>|
                bit_of(a, 0) == row && bit_of(b, 0) == col && #[trigger] follows_somewhere(
                    exchanges,
                    a,
                    b,
                );
            assert(follows_somewhere(exchanges, a, b));
        }
    }
}

proof fn lemma_indexed(groups: Groups, tokens: Seq<Seq<u8>>, bit: u32, t: Seq<u8>)
    ensures
        crate::matrix::group_at(indexed(groups, tokens), bit).contains(t)
            <==> crate::matrix::group_at(groups, bit).contains(t) || (tokens.contains(t) && bit_of(
            t,
            0,
        ) == bit),
    decreases tokens.len(),
{
    if tokens.len() > 0 {
        let front = tokens.drop_last();
        let last = tokens.last();
        lemma_indexed(groups, front, bit, t);
        lemma_registered(indexed(groups, front), bit_of(last, 0), last, bit, t);
        if tokens.contains(t) && t != last {
            let i = choose|i: int| 0 <= i < tokens.len() && tokens[i] == t;
            assert(front[i] == t);
        }
        if front.contains(t) {
            let i = choose|i: int| 0 <= i < front.len() && front[i] == t;
            assert(tokens[i] == t);
        }
        assert(tokens[tokens.len() - 1] == last);
    }
}

proof fn lemma_registered(groups: Groups, at: u32, token: Seq<u8>, bit: u32, t: Seq<u8>)
    ensures
        crate::matrix::group_at(registered(groups, at, token), bit).contains(t)
            <==> crate::matrix::group_at(groups, bit).contains(t) || (t == token && bit == at),
{
    let g = crate::matrix::group_at(groups, at);
    let now = g.push(token);
    assert(now.contains(t) <==> g.contains(t) || t == token) by {
        assert(now[g.len() as int] == token);
        if g.contains(t) {
            let i = choose|i: int| 0 <= i < g.len() && g[i] == t;
            assert(now[i] == t);
        }
        if now.contains(t) && t != token {
            let i = choose|i: int| 0 <= i < now.len() && now[i] == t;
            assert(g[i] == t);
        }
    }
}

/// The candidates of a bit are the tokens of the exchanges and the markers that
/// set it.
pub proof fn candidates_set_their_bit(exchanges: Seq<Exchange>, bit: u32, t: Seq<u8>)
    ensures
        crate::matrix::group_at(vocabulary(exchanges), bit).contains(t) <==> known(exchanges, t)
            && bit_of(t, 0) == bit,
    decreases exchanges.len(),
{
    if exchanges.len() == 0 {
        let none = Map::<u32, Seq<Seq<u8>>>::empty();
        let one = registered(none, bit_of(start_bytes(), 0), start_bytes());
        lemma_registered(none, bit_of(start_bytes(), 0), start_bytes(), bit, t);
        lemma_registered(one, bit_of(end_bytes(), 0), end_bytes(), bit, t);
    } else {
        let front = exchanges.drop_last();
        let last = exchanges.last();
        candidates_set_their_bit(front, bit, t);
        lemma_indexed(vocabulary(front), words_of(last), bit, t);
        assert(known(exchanges, t) <==> known(front, t) || words_of(last).contains(t)) by {
            if exists|i: int|
                0 <= i < exchanges.len() && words_of(#[trigger] exchanges[i]).contains(t) {
                let i = choose|i: int|
                    0 <= i < exchanges.len() && words_of(#[trigger] exchanges[i]).contains(t);
                if i < front.len() {
                    assert(words_of(front[i]).contains(t));
                }
            }
            if exists|i: int| 0 <= i < front.len() && words_of(#[trigger] front[i]).contains(t) {
                let i = choose|i: int|
                    0 <= i < front.len() && words_of(#[trigger] front[i]).contains(t);
                assert(words_of(exchanges[i]).contains(t));
            }
            assert(exchanges[exchanges.len() - 1] == last);
        }
    }
}

/// What stands beside something in an exchange is a token of it or a marker.
proof fn lemma_beside_known(exchanges: Seq<Exchange>, a: Seq<u8>, b: Seq<u8>)
    requires
        follows_somewhere(exchanges, a, b),
    ensures
        known(exchanges, a),
        known(exchanges, b),
{
    let (j, p) = choose|j: int, p: int|
        0 <= j < exchanges.len() && #[trigger] beside(exchanges[j], p, a, b);
    let w = words_of(exchanges[j]);
    let s = padded(w);
    if 0 < p && p <= w.len() {
        assert(s[p] == w[p - 1]);
        assert(w.contains(a));
    }
    if p < w.len() {
        assert(s[p + 1] == w[p]);
        assert(w.contains(b));
    }
}

proof fn lemma_resolved_ranking(
    ranked: Seq<(u64, u32)>,
    groups: Groups,
    x: (u64, Seq<u8>),
)
    ensures
        resolved_ranking(ranked, groups).contains(x) <==> exists|i: int|
            0 <= i < ranked.len() && (#[trigger] ranked[i]).0 == x.0 && resolved(
                groups,
                ranked[i].1,
            ).contains(x.1),
        resolved_ranking(ranked, groups).len() >= ranked.len(),
    decreases ranked.len(),
{
    if ranked.len() > 0 {
        let front = ranked.drop_last();
        let last = ranked.last();
        let before = resolved_ranking(front, groups);
        let at = resolved(groups, last.1);
        let own = at.map_values(|t: Seq<u8>| (last.0, t));
        let now = resolved_ranking(ranked, groups);
        lemma_resolved_ranking(front, groups, x);
        assert(now == before + own);
        assert(at.len() > 0);
        if now.contains(x) {
            let k = choose|k: int| 0 <= k < now.len() && now[k] == x;
            if k < before.len() {
                assert(before[k] == x);
                let i = choose|i: int|
                    0 <= i < front.len() && (#[trigger] front[i]).0 == x.0 && resolved(
                        groups,
                        front[i].1,
                    ).contains(x.1);
                assert(ranked[i] == front[i]);
            } else {
                assert(own[k - before.len()] == x);
                assert(at[k - before.len()] == x.1);
                assert(ranked[ranked.len() - 1] == last);
            }
        }
        if exists|i: int|
            0 <= i < ranked.len() && (#[trigger] ranked[i]).0 == x.0 && resolved(
                groups,
                ranked[i].1,
            ).contains(x.1) {
            let i = choose|i: int|
                0 <= i < ranked.len() && (#[trigger] ranked[i]).0 == x.0 && resolved(
                    groups,
                    ranked[i].1,
                ).contains(x.1);
            if i < front.len() {
                assert(front[i] == ranked[i]);
                assert(before.contains(x));
                let k = choose|k: int| 0 <= k < before.len() && before[k] == x;
                assert(now[k] == x);
            } else {
                let k = choose|k: int| 0 <= k < at.len() && at[k] == x.1;
                assert(own[k] == x);
                assert(now[before.len() + k] == x);
            }
        }
    }
}

proof fn lemma_cells_finite(exchanges: Seq<Exchange>)
    ensures
        context_cells(exchanges).dom().finite(),
    decreases exchanges.len(),
{
    if exchanges.len() > 0 {
        lemma_cells_finite(exchanges.drop_last());
        lemma_after_finite(
            context_cells(exchanges.drop_last()),
            layer(words_of(exchanges.last()), 2),
        );
    }
}

proof fn lemma_after_finite(cells: Cells, pairs: Seq<Seq<u8>>)
    requires
        cells.dom().finite(),
    ensures
        cells_after(cells, pairs).dom().finite(),
    decreases pairs.len(),
{
    if pairs.len() > 0 {
        lemma_after_finite(cells, pairs.drop_last());
    }
}

/// The ranking of a row lists its cells.
proof fn lemma_row_ranking(cells: Cells, row: u32)
    requires
        cells.dom().finite(),
    ensures
        crate::collections::lists::<Ranked<u32>>(
            ranking::<u32>(row_of(cells, row)),
            crate::maps::ranked_entries(row_of(cells, row)),
        ),
        forall|c: u32, n: u64|
            #![trigger ranking::<u32>(row_of(cells, row)).contains((n, c))]
            ranking::<u32>(row_of(cells, row)).contains((n, c)) <==> cells.contains_key((row, c))
                && cells[(row, c)] == n,
{
    let m = row_of(cells, row);
    let set = crate::maps::ranked_entries(m);
    let f = |k: (u32, u32)| (cells[k], k.1);
    let img = cells.dom().map(f);
    cells.dom().lemma_map_finite(f);
    assert forall|x: (u64, u32)| set.contains(x) implies img.contains(x) by {
        assert(cells.dom().contains((row, x.1)) && f((row, x.1)) == x);
    }
    vstd::set_lib::lemma_set_subset_finite(img, set);
    crate::collections::lemma_listing_exists::<Ranked<u32>>(set);
    let r = ranking::<u32>(m);
    assert forall|c: u32, n: u64| #![trigger r.contains((n, c))] r.contains((n, c)) <==> (
    cells.contains_key((row, c)) && cells[(row, c)] == n) by {
        assert(r.to_set().contains((n, c)) == r.contains((n, c)));
        assert(set.contains((n, c)) == r.to_set().contains((n, c)));
    }
}

/// Every suggestion follows: its token sets a bit that follows the bit of the
/// exchange's last token in some exchange, and its count is the count of that
/// cell. Where no two tokens share a bit, it follows that last token itself.
pub proof fn suggestions_follow_the_last_token(
    exchanges: Seq<Exchange>,
    index: int,
    k: nat,
    x: (u64, Seq<u8>),
)
    requires
        all_plain(exchanges),
        0 <= index < exchanges.len(),
        words_of(exchanges[index]).len() > 0,
        suggestions(exchanges, context_cells(exchanges), index, k).contains(x),
    ensures
        ({
            let last = words_of(exchanges[index]).last();
            &&& known(exchanges, x.1)
            &&& bits_follow(exchanges, bit_of(last, 0), bit_of(x.1, 0))
            &&& x.0 == count_in(context_cells(exchanges), (bit_of(last, 0), bit_of(x.1, 0)))
            &&& (forall|s: Seq<u8>, t: Seq<u8>|
                known(exchanges, s) && known(exchanges, t) && #[trigger] bit_of(s, 0)
                    == #[trigger] bit_of(t, 0) ==> s == t) ==> follows_somewhere(
                exchanges,
                last,
                x.1,
            )
        }),
{
    let cells = context_cells(exchanges);
    let last = words_of(exchanges[index]).last();
    let row = bit_of(last, 0);
    let all = ranking::<u32>(row_of(cells, row));
    let best = first_k(all, 4 * k);
    let groups = vocabulary(exchanges);
    let items = resolved_ranking(best, groups);
    let sorted = sorted_form::<Ranked<Vec<u8>>>(items);
    let shown = first_k(sorted, k);
    lemma_cells_finite(exchanges);
    lemma_row_ranking(cells, row);
    crate::maps::lemma_sorted_form::<Ranked<Vec<u8>>>(items);
    lemma_resolved_ranking(best, groups, x);
    let m = choose|m: int| 0 <= m < shown.len() && shown[m] == x;
    assert(sorted[m] == x);
    assert(sorted.contains(x));
    assert(items.contains(x));
    let i = choose|i: int|
        0 <= i < best.len() && (#[trigger] best[i]).0 == x.0 && resolved(groups, best[i].1).contains(
            x.1,
        );
    let col = best[i].1;
    assert(all[i] == (x.0, col));
    assert(all.contains((x.0, col)));
    cells_are_follows(exchanges, row, col);
    let (a, b) = choose|a: Seq<u8>, b: Seq<u8>|
        bit_of(a, 0) == row && bit_of(b, 0) == col && #[trigger] follows_somewhere(
            exchanges,
            a,
            b,
        );
    lemma_beside_known(exchanges, a, b);
    candidates_set_their_bit(exchanges, col, b);
    candidates_set_their_bit(exchanges, col, x.1);
    let group = crate::matrix::group_at(groups, col);
    assert(group.len() > 0);
    assert(bit_of(x.1, 0) == col);
    let w = words_of(exchanges[index]);
    assert(w.contains(last)) by {
        assert(w[w.len() - 1] == last);
    }
    assert(known(exchanges, last));
    assert(known(exchanges, x.1));
    assert(bits_follow(exchanges, row, bit_of(x.1, 0)));
}

/// Every follower is suggested where there is room: a token that follows the
/// last token of an exchange somewhere is among its suggestions, unless these
/// are as many as were asked for.
pub proof fn followers_are_suggested(
    exchanges: Seq<Exchange>,
    index: int,
    k: nat,
    t: Seq<u8>,
)
    requires
        all_plain(exchanges),
        0 <= index < exchanges.len(),
        words_of(exchanges[index]).len() > 0,
        follows_somewhere(exchanges, words_of(exchanges[index]).last(), t),
        suggestions(exchanges, context_cells(exchanges), index, k).len() < k,
    ensures
        ({
            let last = words_of(exchanges[index]).last();
            let count = count_in(context_cells(exchanges), (bit_of(last, 0), bit_of(t, 0)));
            suggestions(exchanges, context_cells(exchanges), index, k).contains((count, t))
        }),
{
    let cells = context_cells(exchanges);
    let last = words_of(exchanges[index]).last();
    let row = bit_of(last, 0);
    let col = bit_of(t, 0);
    let all = ranking::<u32>(row_of(cells, row));
    let best = first_k(all, 4 * k);
    let groups = vocabulary(exchanges);
    let items = resolved_ranking(best, groups);
    let sorted = sorted_form::<Ranked<Vec<u8>>>(items);
    let count = count_in(cells, (row, col));
    let x = (count, t);
    assert(bits_follow(exchanges, row, col));
    cells_are_follows(exchanges, row, col);
    lemma_cells_finite(exchanges);
    lemma_row_ranking(cells, row);
    crate::maps::lemma_sorted_form::<Ranked<Vec<u8>>>(items);
    lemma_resolved_ranking(best, groups, x);
    lemma_beside_known(exchanges, last, t);
    candidates_set_their_bit(exchanges, col, t);
    assert(sorted.len() < k);
    assert(best.len() < k);
    assert(best == all);
    assert(all.contains((count, col)));
    let i = choose|i: int| 0 <= i < all.len() && all[i] == (count, col);
    assert(best[i].0 == count && resolved(groups, best[i].1).contains(t));
    assert(items.contains(x));
    assert(sorted.contains(x));
    assert(first_k(sorted, k) == sorted);
}

/// Suggestions come by descending count and, of one count, by ascending token,
/// at most as many as were asked for.
pub proof fn suggestions_come_best_first(
    exchanges: Seq<Exchange>,
    cells: Cells,
    index: int,
    k: nat,
    i: int,
    j: int,
)
    requires
        0 <= i < j < suggestions(exchanges, cells, index, k).len(),
    ensures
        suggestions(exchanges, cells, index, k).len() <= k,
        ({
            let s = suggestions(exchanges, cells, index, k);
            s[i].0 > s[j].0 || (s[i].0 == s[j].0 && !crate::order::lex_lt::<u8>(s[j].1, s[i].1))
        }),
{
    let row = bit_of(words_of(exchanges[index]).last(), 0);
    let best = first_k(ranking::<u32>(row_of(cells, row)), 4 * k);
    let items = resolved_ranking(best, vocabulary(exchanges));
    let sorted = sorted_form::<Ranked<Vec<u8>>>(items);
    crate::maps::lemma_sorted_form::<Ranked<Vec<u8>>>(items);
    let s = suggestions(exchanges, cells, index, k);
    assert(s[i] == sorted[i] && s[j] == sorted[j]);
    assert(!<Ranked<Vec<u8>> as Key>::lt(sorted[j], sorted[i]));
}

/// The suggestions left out are no better than those shown: a token that
/// follows the last token of an exchange and is not among the suggestions has
/// no higher count than any of these.
pub proof fn better_followers_come_first(
    exchanges: Seq<Exchange>,
    index: int,
    k: nat,
    t: Seq<u8>,
    m: int,
)
    requires
        all_plain(exchanges),
        0 <= index < exchanges.len(),
        words_of(exchanges[index]).len() > 0,
        follows_somewhere(exchanges, words_of(exchanges[index]).last(), t),
        0 <= m < suggestions(exchanges, context_cells(exchanges), index, k).len(),
        forall|n: u64|
            !(#[trigger] suggestions(exchanges, context_cells(exchanges), index, k).contains(
                (n, t),
            )),
    ensures
        suggestions(exchanges, context_cells(exchanges), index, k)[m].0 >= count_in(
            context_cells(exchanges),
            (bit_of(words_of(exchanges[index]).last(), 0), bit_of(t, 0)),
        ),
{
    let cells = context_cells(exchanges);
    let last = words_of(exchanges[index]).last();
    let row = bit_of(last, 0);
    let col = bit_of(t, 0);
    let all = ranking::<u32>(row_of(cells, row));
    let best = first_k(all, 4 * k);
    let groups = vocabulary(exchanges);
    let items = resolved_ranking(best, groups);
    let sorted = sorted_form::<Ranked<Vec<u8>>>(items);
    let shown = first_k(sorted, k);
    let count = count_in(cells, (row, col));
    let x = (count, t);
    assert(bits_follow(exchanges, row, col));
    cells_are_follows(exchanges, row, col);
    lemma_cells_finite(exchanges);
    lemma_row_ranking(cells, row);
    crate::maps::lemma_sorted_form::<Ranked<Vec<u8>>>(items);
    lemma_resolved_ranking(best, groups, x);
    lemma_beside_known(exchanges, last, t);
    candidates_set_their_bit(exchanges, col, t);
    assert(all.contains((count, col)));
    let i = choose|i: int| 0 <= i < all.len() && all[i] == (count, col);
    assert(shown[m] == sorted[m]);
    if i < best.len() {
        assert(best[i].0 == count && resolved(groups, best[i].1).contains(t));
        assert(items.contains(x));
        assert(sorted.contains(x));
        let j = choose|j: int| 0 <= j < sorted.len() && sorted[j] == x;
        if j < shown.len() {
            assert(shown[j] == x);
            assert(shown.contains(x));
        }
        assert(!<Ranked<Vec<u8>> as Key>::lt(sorted[j], sorted[m]));
    } else {
        let y = sorted[m];
        assert(sorted.contains(y));
        lemma_resolved_ranking(best, groups, y);
        let q = choose|q: int|
            0 <= q < best.len() && (#[trigger] best[q]).0 == y.0 && resolved(
                groups,
                best[q].1,
            ).contains(y.1);
        assert(all[q] == best[q]);
        assert(<Ranked<u32> as Key>::lt(all[q], all[i]));
    }
}

/// The unions of a context hold what some exchange sets, layer by layer, and
/// nothing else.
pub proof fn unions_hold_what_some_exchange_sets(exchanges: Seq<Exchange>, n: nat, bit: u32)
    ensures
        layer_union(exchanges, n).contains(bit) <==> exists|i: int|
            0 <= i < exchanges.len() && layer_plane(
                words_of(#[trigger] exchanges[i]),
                n,
            ).contains(bit),
        full_union(exchanges).contains(bit) <==> exists|i: int|
            0 <= i < exchanges.len() && full_plane(words_of(#[trigger] exchanges[i])).contains(
                bit,
            ),
    decreases exchanges.len(),
{
    if exchanges.len() > 0 {
        let front = exchanges.drop_last();
        let last = exchanges.last();
        unions_hold_what_some_exchange_sets(front, n, bit);
        assert(exchanges[exchanges.len() - 1] == last);
        if layer_union(front, n).contains(bit) {
            let i = choose|i: int|
                0 <= i < front.len() && layer_plane(words_of(#[trigger] front[i]), n).contains(bit);
            assert(exchanges[i] == front[i]);
        }
        if full_union(front).contains(bit) {
            let i = choose|i: int|
                0 <= i < front.len() && full_plane(words_of(#[trigger] front[i])).contains(bit);
            assert(exchanges[i] == front[i]);
        }
        if exists|i: int|
            0 <= i < exchanges.len() && layer_plane(words_of(#[trigger] exchanges[i]), n).contains(
                bit,
            ) {
            let i = choose|i: int|
                0 <= i < exchanges.len() && layer_plane(
                    words_of(#[trigger] exchanges[i]),
                    n,
                ).contains(bit);
            if i < front.len() {
                assert(front[i] == exchanges[i]);
            }
        }
        if exists|i: int|
            0 <= i < exchanges.len() && full_plane(words_of(#[trigger] exchanges[i])).contains(bit) {
            let i = choose|i: int|
                0 <= i < exchanges.len() && full_plane(words_of(#[trigger] exchanges[i])).contains(
                    bit,
                );
            if i < front.len() {
                assert(front[i] == exchanges[i]);
            }
        }
    }
}

/// The heights in use are counted once each, however many bits they hold.
pub proof fn heights_in_use_count_once(plane: Set<u32>, n: nat)
    requires
        plane.finite(),
        n <= 32,
    ensures
        Set::new(
            |h: u32| h < n && exists|b: u32| #[trigger] plane.contains(b) && b % 32 == h,
        ).finite(),
        active_heights(plane, n) == Set::new(
            |h: u32| h < n && exists|b: u32| #[trigger] plane.contains(b) && b % 32 == h,
        ).len(),
    decreases n,
{
    let used = Set::new(
        |h: u32| h < n && exists|b: u32| #[trigger] plane.contains(b) && b % 32 == h,
    );
    if n == 0 {
        assert(used =~= Set::empty());
    } else {
        let h = (n - 1) as u32;
        heights_in_use_count_once(plane, (n - 1) as nat);
        let before = Set::new(
            |h: u32| h < n - 1 && exists|b: u32| #[trigger] plane.contains(b) && b % 32 == h,
        );
        assert(before =~= Set::new(
            |h: u32|
                h < (n - 1) as nat && exists|b: u32| #[trigger] plane.contains(b) && b % 32 == h,
        ));
        let at = plane.filter(|b: u32| b % 32 == h);
        if at.len() > 0 {
            let b = at.choose();
            assert(at.contains(b));
            assert(plane.contains(b) && b % 32 == h);
            assert(used =~= before.insert(h));
        } else {
            assert(at =~= Set::empty());
            assert forall|b: u32| plane.contains(b) implies b % 32 != h by {
                assert(!at.contains(b));
            }
            assert(used =~= before);
        }
    }
}

/// The path of an exchange of tokens without zero bytes: for each pair of
/// neighbours, markers counted in, the cell of their bits and its count, in
/// order.
pub proof fn paths_go_from_neighbour_to_neighbour(cells: Cells, tokens: Seq<Seq<u8>>, n: nat)
    requires
        tokens.len() > 0,
        n <= tokens.len() + 1,
        forall|k: int| 0 <= k < tokens.len() ==> plain(#[trigger] tokens[k]),
    ensures
        layer(tokens, 2).len() == tokens.len() + 1,
        path_cells(cells, layer(tokens, 2).take(n as int)).len() == n,
        forall|i: int|
            0 <= i < n ==> {
                let a = if i == 0 {
                    start_bytes()
                } else {
                    tokens[i - 1]
                };
                let b = if i == tokens.len() {
                    end_bytes()
                } else {
                    tokens[i]
                };
                #[trigger] path_cells(cells, layer(tokens, 2).take(n as int))[i] == (
                    bit_of(a, 0),
                    bit_of(b, 0),
                    count_in(cells, (bit_of(a, 0), bit_of(b, 0))),
                )
            },
    decreases n,
{
    let pairs = layer(tokens, 2);
    assert(pairs.len() == tokens.len() + 1);
    let part = pairs.take(n as int);
    if n == 0 {
        assert(part =~= Seq::empty());
    } else {
        let i = n - 1;
        paths_go_from_neighbour_to_neighbour(cells, tokens, i as nat);
        assert(part.drop_last() =~= pairs.take(i));
        assert(part.last() == pairs[i]);
        crate::ngrams::ngrams_are_runs_of_neighbours(tokens, 2, true, i);
        let p = split(pairs[i]);
        assert(p[0] == if i == 0 {
            start_bytes()
        } else {
            tokens[i - 1]
        });
        assert(p[1] == if i == tokens.len() {
            end_bytes()
        } else {
            tokens[i]
        });
    }
}

/// The origins of a bit: every exchange with a token that sets it, in order,
/// with those tokens, distinct and ascending.
pub proof fn origins_list_every_exchange_with_the_bit(
    exchanges: Seq<Exchange>,
    bit: u32,
    k: int,
    t: Seq<u8>,
)
    ensures
        forall|a: int, b: int|
            0 <= a < b < origins(exchanges, bit).len() ==> (#[trigger] origins(
                exchanges,
                bit,
            )[a]).0 < (#[trigger] origins(exchanges, bit)[b]).0,
        (exists|m: int|
            0 <= m < origins(exchanges, bit).len() && #[trigger] origins(exchanges, bit)[m].0 == k
                && origins(exchanges, bit)[m].1.contains(t)) <==> 0 <= k < exchanges.len()
            && words_of(exchanges[k]).contains(t) && bit_of(t, 0) == bit,
        forall|m: int|
            0 <= m < origins(exchanges, bit).len() ==> 0 <= (#[trigger] origins(
                exchanges,
                bit,
            )[m]).0 < exchanges.len() && origins(exchanges, bit)[m].1.len() > 0
                && crate::collections::ascending::<Vec<u8>>(origins(exchanges, bit)[m].1),
    decreases exchanges.len(),
{
    if exchanges.len() > 0 {
        let front = exchanges.drop_last();
        let words = words_of(exchanges.last());
        origins_list_every_exchange_with_the_bit(front, bit, k, t);
        let before = origins(front, bit);
        let now = origins(exchanges, bit);
        let at = distinct_at(words, bit);
        let last = exchanges.len() - 1;
        lemma_distinct_at(words, bit, t);
        assert(at.len() == 0 ==> now == before);
        if at.len() > 0 {
            assert(now == before.push((last, at)));
            assert(now[before.len() as int] == (last, at));
        }
        assert forall|m: int| 0 <= m < before.len() implies now[m] == before[m] by {}
        if exists|m: int| 0 <= m < now.len() && #[trigger] now[m].0 == k && now[m].1.contains(t) {
            let m = choose|m: int|
                0 <= m < now.len() && #[trigger] now[m].0 == k && now[m].1.contains(t);
            if m < before.len() {
                assert(before[m].0 == k && before[m].1.contains(t));
                assert(front[k] == exchanges[k]);
            } else {
                assert(k == last);
            }
        }
        if 0 <= k < exchanges.len() && words_of(exchanges[k]).contains(t) && bit_of(t, 0) == bit {
            if k < last {
                assert(front[k] == exchanges[k]);
                let m = choose|m: int|
                    0 <= m < before.len() && #[trigger] before[m].0 == k && before[m].1.contains(t);
                assert(now[m] == before[m]);
            } else {
                assert(at.contains(t));
                assert(now[before.len() as int].0 == k);
            }
        }
    }
}

proof fn lemma_distinct_at(tokens: Seq<Seq<u8>>, bit: u32, t: Seq<u8>)
    ensures
        distinct_at(tokens, bit).contains(t) <==> tokens.contains(t) && bit_of(t, 0) == bit,
        crate::collections::ascending::<Vec<u8>>(distinct_at(tokens, bit)),
{
    let f = |t: Seq<u8>| bit_of(t, 0) == bit;
    let at = tokens_at(tokens, bit);
    let set = at.to_set();
    vstd::seq_lib::seq_to_set_is_finite(at);
    crate::collections::lemma_listing_exists::<Vec<u8>>(set);
    let all = distinct_at(tokens, bit);
    assert(all.to_set().contains(t) == all.contains(t));
    assert(set.contains(t) == at.contains(t));
    if at.contains(t) {
        let i = choose|i: int| 0 <= i < at.len() && at[i] == t;
        tokens.lemma_filter_pred(f, i);
        tokens.lemma_filter_contains_rev(f, t);
    }
    if tokens.contains(t) && bit_of(t, 0) == bit {
        let i = choose|i: int| 0 <= i < tokens.len() && tokens[i] == t;
        tokens.lemma_filter_contains(f, i);
    }
}

proof fn lemma_recorded_links(links: Links, tokens: Seq<Seq<u8>>, n: nat, a: Seq<u8>, b: Seq<u8>)
    requires
        tokens.len() > 0,
        n <= layer(tokens, 2).len(),
        forall|k: int| 0 <= k < tokens.len() ==> plain(#[trigger] tokens[k]),
    ensures
        links_after(links, layer(tokens, 2).take(n as int)).contains_key((a, b))
            <==> links.contains_key((a, b)) || exists|p: int|
            0 <= p < n && #[trigger] padded(tokens)[p] == a && padded(tokens)[p + 1] == b,
        pairs_among(layer(tokens, 2).take(n as int)) == n,
    decreases n,
{
    let pairs = layer(tokens, 2);
    let s = padded(tokens);
    if n == 0 {
        assert(pairs.take(0) =~= Seq::empty());
    } else {
        let i = n - 1;
        lemma_recorded_links(links, tokens, i as nat, a, b);
        let part = pairs.take(n as int);
        assert(part.drop_last() =~= pairs.take(i));
        assert(part.last() == pairs[i]);
        crate::ngrams::ngrams_are_runs_of_neighbours(tokens, 2, true, i);
        let g = split(pairs[i]);
        assert(g[0] == s[i] && g[1] == s[i + 1]);
        let before = links_after(links, pairs.take(i));
        let now = links_after(links, part);
        assert(now == crate::matrix::bumped(before, (s[i], s[i + 1])));
        if now.contains_key((a, b)) && !before.contains_key((a, b)) {
            assert(s[i] == a);
        }
        if exists|p: int| 0 <= p < n && #[trigger] s[p] == a && s[p + 1] == b {
            let p = choose|p: int| 0 <= p < n && #[trigger] s[p] == a && s[p + 1] == b;
            if p < i {
                assert(0 <= p < i && s[p] == a);
                assert(before.contains_key((a, b)));
            }
        }
    }
}

/// The token pairs of a context are those of neighbours in some exchange,
/// markers counted in, and every pair of neighbours is recorded.
pub proof fn links_are_follows(exchanges: Seq<Exchange>, a: Seq<u8>, b: Seq<u8>)
    requires
        all_plain(exchanges),
    ensures
        context_links(exchanges).contains_key((a, b)) <==> follows_somewhere(exchanges, a, b),
        recorded_pairs(exchanges) == pair_count(exchanges),
    decreases exchanges.len(),
{
    if exchanges.len() > 0 {
        let front = exchanges.drop_last();
        let last = exchanges.last();
        let tokens = words_of(last);
        assert(all_plain(front)) by {
            assert forall|i: int, k: int|
                0 <= i < front.len() && 0 <= k < words_of(front[i]).len() implies plain(
                #[trigger] words_of(front[i])[k],
            ) by {
                assert(plain(words_of(exchanges[i])[k]));
            }
        }
        links_are_follows(front, a, b);
        let pairs = layer(tokens, 2);
        if tokens.len() > 0 {
            assert forall|k: int| 0 <= k < tokens.len() implies plain(#[trigger] tokens[k]) by {
                assert(plain(words_of(exchanges[exchanges.len() - 1])[k]));
            }
            lemma_recorded_links(context_links(front), tokens, pairs.len(), a, b);
            assert(pairs.take(pairs.len() as int) =~= pairs);
            assert(pairs.len() == padded(tokens).len() - 1);
        } else {
            assert(pairs =~= Seq::empty());
        }
        let s = padded(tokens);
        if follows_somewhere(exchanges, a, b) {
            let (j, p) = choose|j: int, p: int|
                0 <= j < exchanges.len() && #[trigger] beside(exchanges[j], p, a, b);
            if j < front.len() {
                assert(beside(front[j], p, a, b));
                assert(follows_somewhere(front, a, b));
            } else {
                assert(s[p] == a && s[p + 1] == b);
            }
        }
        if follows_somewhere(front, a, b) {
            let (j, p) = choose|j: int, p: int|
                0 <= j < front.len() && #[trigger] beside(front[j], p, a, b);
            assert(beside(exchanges[j], p, a, b));
        }
        if tokens.len() > 0 && exists|p: int|
            0 <= p < pairs.len() && #[trigger] s[p] == a && s[p + 1] == b {
            let p = choose|p: int| 0 <= p < pairs.len() && #[trigger] s[p] == a && s[p + 1] == b;
            assert(beside(exchanges[exchanges.len() - 1], p, a, b));
        }
    }
}

/// A bit is shared precisely where each of the two exchanges has a token that
/// sets it; its origins are those tokens, all of them and no others, and they
/// are the same precisely where the exchanges have the same tokens there.
pub proof fn shared_bits_come_from_tokens_of_both(
    a: Exchange,
    b: Exchange,
    bit: u32,
    o: SharedBitOrigin,
    t: Seq<u8>,
)
    requires
        a.wf(),
        b.wf(),
        a.hll_1@.finite(),
        is_shared_origin(o, a, b, bit),
    ensures
        shared_bits(a, b).contains(bit) <==> (exists|i: int|
            0 <= i < words_of(a).len() && bit == bit_of(#[trigger] words_of(a)[i], 0)) && (exists|
            i: int,
        |
            0 <= i < words_of(b).len() && bit == bit_of(#[trigger] words_of(b)[i], 0)),
        views(o.from_a@).contains(t) <==> words_of(a).contains(t) && bit_of(t, 0) == bit,
        views(o.from_b@).contains(t) <==> words_of(b).contains(t) && bit_of(t, 0) == bit,
        o.same_token ==> (words_of(a).contains(t) && bit_of(t, 0) == bit <==> words_of(b).contains(
            t,
        ) && bit_of(t, 0) == bit),
        crate::collections::ascending::<u32>(shared_bits(a, b)),
{
    let both = a.hll_1@.intersect(b.hll_1@);
    crate::collections::lemma_listing_exists::<u32>(both);
    lemma_distinct_at(words_of(a), bit, t);
    lemma_distinct_at(words_of(b), bit, t);
    lemma_first_layer(words_of(a));
    lemma_first_layer(words_of(b));
    let all = shared_bits(a, b);
    assert(all.to_set().contains(bit) == all.contains(bit));
    assert(a.hll_1@ == layer_plane(words_of(a), 1));
    assert(b.hll_1@ == layer_plane(words_of(b), 1));
    assert(both.contains(bit) <==> a.hll_1@.contains(bit) && b.hll_1@.contains(bit));
}

} // verus!
