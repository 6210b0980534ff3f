//! Round trips: planes to tokens, tokens back to planes, layer by layer.
use vstd::prelude::*;

use crate::context::{layer_union, overlap, words_of, ConversationContext};
use crate::debruijn::{
    context_grams, layer_grams, path_views, restored_paths, DeBruijnRestorer, RestoredConversation,
};
use crate::distributed::Share;
use crate::engines::table_after;
use crate::exchange::{full_plane, layer_plane, Exchange, Role};
use crate::hllset::HLLSet;
use crate::matrix::lemma_pairs_among;
use crate::ngrams::layer;
use crate::order::{copy_tokens, views};
use crate::restoration::{
    all_triples, all_words, few_triples_are_within_limits, first_layers_come_back_through_noise,
    lemma_one_exchange, no_marker_inside, round_trips_are_exact,
    unrepeated_pairs_are_within_limits, within_depth, within_limits,
};

verus! {

/// What a round trip gave back. A jaccard fraction is given by its shared and
/// joint bits.
pub struct RoundTripReport {
    /// The restored token sequences.
    pub paths: Vec<Vec<Vec<u8>>>,
    /// The planes of single tokens are the same.
    pub hll_1_exact: bool,
    /// The planes of pairs are the same.
    pub hll_2_exact: bool,
    /// The planes of triples are the same.
    pub hll_3_exact: bool,
    /// The full unions are the same.
    pub hll_exact: bool,
    pub hll_1_jaccard: Share,
    pub hll_2_jaccard: Share,
    pub hll_3_jaccard: Share,
    pub hll_jaccard: Share,
}

impl RoundTripReport {
    /// Whether every layer and the full union came back exactly.
    pub fn all_exact(&self) -> (r: bool)
        ensures
            r == (self.hll_1_exact && self.hll_2_exact && self.hll_3_exact && self.hll_exact),
    {
        self.hll_1_exact && self.hll_2_exact && self.hll_3_exact && self.hll_exact
    }
}

/// The token sequences of nested vectors.
pub open spec fn sequence_views(v: Seq<Vec<Vec<u8>>>) -> Seq<Seq<Seq<u8>>> {
    v.map_values(|p: Vec<Vec<u8>>| views(p@))
}

/// The union of the planes of layer `n` of some token sequences.
pub open spec fn paths_layer(paths: Seq<Seq<Seq<u8>>>, n: nat) -> Set<u32>
    decreases paths.len(),
{
    if paths.len() == 0 {
        Set::empty()
    } else {
        paths_layer(paths.drop_last(), n).union(layer_plane(paths.last(), n))
    }
}

/// The union of the full planes of some token sequences.
pub open spec fn paths_plane(paths: Seq<Seq<Seq<u8>>>) -> Set<u32>
    decreases paths.len(),
{
    if paths.len() == 0 {
        Set::empty()
    } else {
        paths_plane(paths.drop_last()).union(full_plane(paths.last()))
    }
}

/// The number of padded pairs of some token sequences.
pub open spec fn paths_pairs(paths: Seq<Seq<Seq<u8>>>) -> nat
    decreases paths.len(),
{
    if paths.len() == 0 {
        0
    } else {
        paths_pairs(paths.drop_last()) + layer(paths.last(), 2).len()
    }
}

/// One layer compared: whether it is the same, and the overlap.
pub open spec fn compared(exact: bool, share: Share, a: Set<u32>, b: Set<u32>) -> bool {
    &&& exact == (a == b)
    &&& share.part == a.intersect(b).len()
    &&& share.whole == a.union(b).len()
}

/// The report on planes and the token sequences restored from them.
pub open spec fn reports(
    r: RoundTripReport,
    one: Set<u32>,
    two: Set<u32>,
    three: Set<u32>,
    all: Set<u32>,
    paths: Seq<Seq<Seq<u8>>>,
) -> bool {
    &&& sequence_views(r.paths@) == paths
    &&& compared(r.hll_1_exact, r.hll_1_jaccard, one, paths_layer(paths, 1))
    &&& compared(r.hll_2_exact, r.hll_2_jaccard, two, paths_layer(paths, 2))
    &&& compared(r.hll_3_exact, r.hll_3_jaccard, three, paths_layer(paths, 3))
    &&& compared(r.hll_exact, r.hll_jaccard, all, paths_plane(paths))
}

/// Every layer and the full union came back.
pub open spec fn exact(r: RoundTripReport) -> bool {
    r.hll_1_exact && r.hll_2_exact && r.hll_3_exact && r.hll_exact
}

/// Bit equality and overlap of two layers.
fn layer_report(a: &HLLSet, b: &HLLSet) -> (r: (bool, Share))
    ensures
        compared(r.0, r.1, a@, b@),
{
    (a.same(b), overlap(a, b))
}

proof fn lemma_pairs_prefix(paths: Seq<Seq<Seq<u8>>>, i: int)
    requires
        0 <= i <= paths.len(),
    ensures
        paths_pairs(paths.take(i)) <= paths_pairs(paths),
    decreases paths.len(),
{
    if i < paths.len() {
        lemma_pairs_prefix(paths.drop_last(), i);
        assert(paths.drop_last().take(i) =~= paths.take(i));
    } else {
        assert(paths.take(i) =~= paths);
    }
}

/// Ingests every restored path again and compares the unions layer by layer.
fn reingest_and_compare(original: &ConversationContext, restored: &RestoredConversation) -> (r:
    RoundTripReport)
    requires
        paths_pairs(path_views(restored.paths@)) <= u64::MAX,
    ensures
        reports(
            r,
            original.top.hll_1@,
            original.top.hll_2@,
            original.top.hll_3@,
            original.top.hll@,
            path_views(restored.paths@),
        ),
{
    let ghost all = path_views(restored.paths@);
    let mut reborn = ConversationContext::new();
    let mut role = if original.exchanges.len() > 0 {
        original.exchanges[0].role
    } else {
        Role::User
    };
    let mut paths: Vec<Vec<Vec<u8>>> = Vec::new();
    let mut i: usize = 0;
    proof {
        assert(all.take(0) =~= Seq::empty());
        assert(sequence_views(paths@) =~= all.take(0));
    }
    while i < restored.paths.len()
        invariant
            i <= restored.paths@.len(),
            all == path_views(restored.paths@),
            paths_pairs(all) <= u64::MAX,
            reborn.matrix.follows() <= paths_pairs(all.take(i as int)),
            sequence_views(paths@) == all.take(i as int),
            reborn.top.hll_1@ == paths_layer(all.take(i as int), 1),
            reborn.top.hll_2@ == paths_layer(all.take(i as int), 2),
            reborn.top.hll_3@ == paths_layer(all.take(i as int), 3),
            reborn.top.hll@ == paths_plane(all.take(i as int)),
        decreases restored.paths@.len() - i,
    {
        let ghost words = views(restored.paths@[i as int].tokens@);
        proof {
            assert(all.take(i + 1).drop_last() =~= all.take(i as int));
            assert(all.take(i + 1).last() == words);
            lemma_pairs_prefix(all, i + 1);
            lemma_pairs_among(layer(words, 2));
        }
        let ex = Exchange::from_tokens(role, copy_tokens(restored.paths[i].tokens.as_slice()));
        reborn.add_exchange(ex);
        let ghost before = paths@;
        paths.push(copy_tokens(restored.paths[i].tokens.as_slice()));
        proof {
            assert(sequence_views(paths@) =~= sequence_views(before).push(words));
            assert(all.take(i + 1) =~= all.take(i as int).push(words));
        }
        role = role.toggle();
        i = i + 1;
    }
    proof {
        assert(all.take(i as int) =~= all);
    }
    let (hll_1_exact, hll_1_jaccard) = layer_report(&original.top.hll_1, &reborn.top.hll_1);
    let (hll_2_exact, hll_2_jaccard) = layer_report(&original.top.hll_2, &reborn.top.hll_2);
    let (hll_3_exact, hll_3_jaccard) = layer_report(&original.top.hll_3, &reborn.top.hll_3);
    let (hll_exact, hll_jaccard) = layer_report(&original.top.hll, &reborn.top.hll);
    RoundTripReport {
        paths,
        hll_1_exact,
        hll_2_exact,
        hll_3_exact,
        hll_exact,
        hll_1_jaccard,
        hll_2_jaccard,
        hll_3_jaccard,
        hll_jaccard,
    }
}

/// The context of one exchange.
fn context_of_one(exchange: &Exchange) -> (r: ConversationContext)
    requires
        layer(words_of(*exchange), 2).len() <= u64::MAX,
    ensures
        r.exchanges@.len() == 1,
        words_of(r.exchanges@[0]) == words_of(*exchange),
        r.top.hll_1@ == exchange.hll_1@,
        r.top.hll_2@ == exchange.hll_2@,
        r.top.hll_3@ == exchange.hll_3@,
        r.top.hll@ == exchange.hll@,
{
    let mut ctx = ConversationContext::new();
    ctx.add_exchange(exchange.duplicate());
    proof {
        assert(ctx.top.hll_1@ =~= exchange.hll_1@);
        assert(ctx.top.hll_2@ =~= exchange.hll_2@);
        assert(ctx.top.hll_3@ =~= exchange.hll_3@);
        assert(ctx.top.hll@ =~= exchange.hll@);
    }
    ctx
}

/// The first layer of an exchange comes back within the limits, and every
/// layer where no more token has a marker inside.
proof fn lemma_exchange_comes_back(exchange: Exchange, extra: Seq<Seq<u8>>)
    ensures
        ({
            let one = seq![exchange];
            let words = words_of(exchange);
            let paths = restored_paths(
                table_after(Map::empty(), layer_grams(words) + extra),
                layer_plane(words, 1),
                layer_plane(words, 2),
                layer_plane(words, 3),
                64,
                512,
            );
            all_words(one) && within_limits(one, extra, 64, 512) ==> {
                &&& paths_layer(paths, 1) == layer_plane(words, 1)
                &&& no_marker_inside(extra) ==> paths_layer(paths, 2) == layer_plane(words, 2)
                    && paths_layer(paths, 3) == layer_plane(words, 3) && paths_plane(paths)
                    == full_plane(words)
            }
        }),
{
    let one = seq![exchange];
    lemma_one_exchange(exchange);
    assert(layer_union(one, 1) == layer_plane(words_of(exchange), 1));
    assert(layer_union(one, 2) == layer_plane(words_of(exchange), 2));
    assert(layer_union(one, 3) == layer_plane(words_of(exchange), 3));
    if all_words(one) && within_limits(one, extra, 64, 512) {
        first_layers_come_back_through_noise(one, extra, 64, 512);
        if no_marker_inside(extra) {
            round_trips_are_exact(one, extra, 64, 512);
        }
    }
}

/// Short exchanges are within the limits, and with a table of their own
/// n-grams also longer ones that repeat no pair.
proof fn lemma_exchange_within_limits(exchange: Exchange, extra: Seq<Seq<u8>>)
    requires
        all_words(seq![exchange]),
    ensures
        words_of(exchange).len() + extra.len() <= 64 ==> within_limits(
            seq![exchange],
            extra,
            64,
            512,
        ),
        words_of(exchange).len() <= 511 && layer(words_of(exchange), 2).no_duplicates()
            ==> within_limits(seq![exchange], Seq::empty(), 64, 512),
{
    let one = seq![exchange];
    let words = words_of(exchange);
    lemma_one_exchange(exchange);
    assert(one[0] == exchange);
    assert(layer(words, 2).len() <= words.len() + 1);
    assert(layer(words, 3).len() <= words.len());
    if words.len() + extra.len() <= 64 {
        few_triples_are_within_limits(one, extra, 64, 512);
    }
    if words.len() <= 511 && layer(words, 2).no_duplicates() {
        unrepeated_pairs_are_within_limits(exchange, 64, 512);
    }
}

/// Round-trips one exchange with a table of its own n-grams. Within the limits
/// every layer comes back exactly; an exchange of at most as many tokens as
/// paths is within them, and so is a longer one that repeats no pair.
pub fn roundtrip_exchange(exchange: &Exchange) -> (r: RoundTripReport)
    requires
        layer(words_of(*exchange), 2).len() <= u64::MAX,
    ensures
        reports(
            r,
            exchange.hll_1@,
            exchange.hll_2@,
            exchange.hll_3@,
            exchange.hll@,
            restored_paths(
                table_after(Map::empty(), layer_grams(words_of(*exchange))),
                exchange.hll_1@,
                exchange.hll_2@,
                exchange.hll_3@,
                64,
                512,
            ),
        ),
        exchange.wf() && all_words(seq![*exchange]) && within_limits(
            seq![*exchange],
            Seq::empty(),
            64,
            512,
        ) ==> exact(r),
        exchange.wf() && all_words(seq![*exchange]) && exchange.tokens@.len() <= 64 ==> exact(r),
        exchange.wf() && all_words(seq![*exchange]) && exchange.tokens@.len() <= 511 && layer(
            words_of(*exchange),
            2,
        ).no_duplicates() ==> exact(r),
{
    let ctx = context_of_one(exchange);
    proof {
        let e = ctx.exchanges@;
        assert(e.drop_last() =~= Seq::empty());
        assert(e.last() == e[0]);
        assert(context_grams(e.drop_last()) =~= Seq::empty());
        assert(context_grams(e) =~= layer_grams(words_of(*exchange)));
    }
    let restorer = DeBruijnRestorer::from_context(&ctx);
    let restored = restorer.restore(&ctx);
    proof {
        assert(layer_grams(words_of(*exchange)) + Seq::empty() =~= layer_grams(
            words_of(*exchange),
        ));
        lemma_exchange_comes_back(*exchange, Seq::empty());
        if all_words(seq![*exchange]) {
            lemma_exchange_within_limits(*exchange, Seq::empty());
        }
        crate::restoration::lemma_restored_pairs(
            restorer.table(),
            ctx.top.hll_1@,
            ctx.top.hll_2@,
            ctx.top.hll_3@,
            64,
            512,
        );
    }
    reingest_and_compare(&ctx, &restored)
}

/// Round-trips one exchange with a table of its own n-grams and some extra
/// tokens. Within the limits the layer of single tokens comes back exactly,
/// and every layer where no extra token is a triple with a marker inside.
pub fn roundtrip_exchange_with_extra_tokens(exchange: &Exchange, extra_tokens: &[Vec<u8>]) -> (r:
    RoundTripReport)
    requires
        layer(words_of(*exchange), 2).len() <= u64::MAX,
    ensures
        reports(
            r,
            exchange.hll_1@,
            exchange.hll_2@,
            exchange.hll_3@,
            exchange.hll@,
            restored_paths(
                table_after(
                    Map::empty(),
                    layer_grams(words_of(*exchange)) + views(extra_tokens@),
                ),
                exchange.hll_1@,
                exchange.hll_2@,
                exchange.hll_3@,
                64,
                512,
            ),
        ),
        exchange.wf() && all_words(seq![*exchange]) && within_limits(
            seq![*exchange],
            views(extra_tokens@),
            64,
            512,
        ) ==> r.hll_1_exact && (no_marker_inside(views(extra_tokens@)) ==> exact(r)),
        exchange.wf() && all_words(seq![*exchange]) && exchange.tokens@.len() + extra_tokens@.len()
            <= 64 ==> r.hll_1_exact && (no_marker_inside(views(extra_tokens@)) ==> exact(r)),
{
    let ctx = context_of_one(exchange);
    let mut lut = exchange.ngrams(1);
    let ghost g1 = lut@;
    let mut two = exchange.ngrams(2);
    let ghost g2 = two@;
    let mut three = exchange.ngrams(3);
    let ghost g3 = three@;
    let mut extra = copy_tokens(extra_tokens);
    let ghost g4 = extra@;
    lut.append(&mut two);
    lut.append(&mut three);
    lut.append(&mut extra);
    proof {
        assert(views(lut@) =~= views(g1) + views(g2) + views(g3) + views(g4));
    }
    let restorer = DeBruijnRestorer::from_vocabulary(lut.as_slice());
    let restored = restorer.restore(&ctx);
    proof {
        lemma_exchange_comes_back(*exchange, views(extra_tokens@));
        if all_words(seq![*exchange]) {
            lemma_exchange_within_limits(*exchange, views(extra_tokens@));
        }
        crate::restoration::lemma_restored_pairs(
            restorer.table(),
            ctx.top.hll_1@,
            ctx.top.hll_2@,
            ctx.top.hll_3@,
            64,
            512,
        );
    }
    reingest_and_compare(&ctx, &restored)
}

impl Exchange {
    /// Round-trips the exchange with a table of its own n-grams.
    pub fn roundtrip(&self) -> (r: RoundTripReport)
        requires
            layer(words_of(*self), 2).len() <= u64::MAX,
        ensures
            reports(
                r,
                self.hll_1@,
                self.hll_2@,
                self.hll_3@,
                self.hll@,
                restored_paths(
                    table_after(Map::empty(), layer_grams(words_of(*self))),
                    self.hll_1@,
                    self.hll_2@,
                    self.hll_3@,
                    64,
                    512,
                ),
            ),
            self.wf() && all_words(seq![*self]) && within_limits(
                seq![*self],
                Seq::empty(),
                64,
                512,
            ) ==> exact(r),
            self.wf() && all_words(seq![*self]) && self.tokens@.len() <= 64 ==> exact(r),
            self.wf() && all_words(seq![*self]) && self.tokens@.len() <= 511 && layer(
                words_of(*self),
                2,
            ).no_duplicates() ==> exact(r),
    {
        roundtrip_exchange(self)
    }
}

impl ConversationContext {
    /// Round-trips the whole context with a table of its own n-grams.
    pub fn roundtrip(&self) -> (r: RoundTripReport)
        ensures
            reports(
                r,
                self.top.hll_1@,
                self.top.hll_2@,
                self.top.hll_3@,
                self.top.hll@,
                restored_paths(
                    table_after(Map::empty(), context_grams(self.exchanges@)),
                    self.top.hll_1@,
                    self.top.hll_2@,
                    self.top.hll_3@,
                    64,
                    512,
                ),
            ),
            self.wf() && all_words(self.exchanges@) && within_limits(
                self.exchanges@,
                Seq::empty(),
                64,
                512,
            ) ==> exact(r),
            self.wf() && all_words(self.exchanges@) && within_depth(self.exchanges@, 512)
                && all_triples(self.exchanges@).len() <= 64 ==> exact(r),
    {
        let restorer = DeBruijnRestorer::from_context(self);
        let restored = restorer.restore(self);
        proof {
            let none = Seq::<Seq<u8>>::empty();
            assert(context_grams(self.exchanges@) + none =~= context_grams(self.exchanges@));
            if all_words(self.exchanges@) && within_depth(self.exchanges@, 512) && all_triples(
                self.exchanges@,
            ).len() <= 64 {
                few_triples_are_within_limits(self.exchanges@, none, 64, 512);
            }
            if all_words(self.exchanges@) && within_limits(self.exchanges@, none, 64, 512) {
                round_trips_are_exact(self.exchanges@, none, 64, 512);
            }
            crate::restoration::lemma_restored_pairs(
                restorer.table(),
                self.top.hll_1@,
                self.top.hll_2@,
                self.top.hll_3@,
                64,
                512,
            );
        }
        reingest_and_compare(self, &restored)
    }
}

/// What a comparison says: the shared bits and those of only one side make up
/// all, and the layers are the same precisely where no bit is on one side
/// only.
pub proof fn comparisons_count_what_differs(
    same: bool,
    share: Share,
    a: Set<u32>,
    b: Set<u32>,
)
    requires
        compared(same, share, a, b),
        a.finite(),
        b.finite(),
    ensures
        share.whole == share.part + a.difference(b).len() + b.difference(a).len(),
        same <==> share.part == share.whole,
{
    let only_a = a.difference(b);
    let only_b = b.difference(a);
    let both = a.intersect(b);
    vstd::set_lib::lemma_set_disjoint_lens(only_a, only_b);
    vstd::set_lib::lemma_set_disjoint_lens(both, only_a + only_b);
    assert(both + (only_a + only_b) =~= a.union(b));
    if share.part == share.whole {
        assert(only_a.len() == 0 && only_b.len() == 0);
        assert(only_a =~= Set::empty());
        assert(only_b =~= Set::empty());
        assert forall|x: u32| a.contains(x) == b.contains(x) by {
            assert(!only_a.contains(x));
            assert(!only_b.contains(x));
        }
        assert(a =~= b);
    }
    if same {
        assert(only_a =~= Set::empty());
        assert(only_b =~= Set::empty());
    }
}

} // verus!
