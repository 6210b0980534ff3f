//! Prompts: a context rendered as role-labelled text.
//!
//! A prompt ends with the cue `assistant:`, so it can be handed to a language
//! model as it is.
use vstd::prelude::*;
use vstd::string::*;

use crate::context::{suggestion_pairs, suggestions, ConversationContext};
use crate::debruijn::{path_views, RestoredConversation};
use crate::exchange::{opposite, role_label, spaced, Exchange, Role};
use crate::maps::ranking;
use crate::matrix::{first_k, link_pairs};
use crate::order::views;
use crate::text::{decimal_string, decimal_text, lossy_text, utf8_lossy};

verus! {

/// What a prompt shows besides the turns.
pub struct PromptOptions {
    /// The opening instruction.
    pub header: bool,
    /// The digest lines.
    pub include_metadata: bool,
    /// How many follow links to show at most.
    pub top_links: usize,
    /// How many predicted continuations to show at most.
    pub predicted_continuations: usize,
}

impl Default for PromptOptions {
    fn default() -> (r: Self)
        ensures
            r.header && r.include_metadata && r.top_links == 5 && r.predicted_continuations == 3,
    {
        PromptOptions {
            header: true,
            include_metadata: true,
            top_links: 5,
            predicted_continuations: 3,
        }
    }
}

/// The opening of a prompt.
pub open spec fn header_text() -> Seq<char> {
    "You are continuing a conversation. Below is the reconstructed context.\n\n"@
}

/// The digest line.
pub open spec fn digest_text(exchanges: nat, popcount: nat, cardinality: nat) -> Seq<char> {
    "[context: "@ + decimal_text(exchanges) + " exchanges | union popcount="@ + decimal_text(
        popcount,
    ) + " | cardinality~"@ + decimal_text(cardinality) + "]\n"@
}

/// One follow link.
pub open spec fn link_text(link: (u64, (Seq<u8>, Seq<u8>))) -> Seq<char> {
    utf8_lossy(link.1.0) + " \u{2192} "@ + utf8_lossy(link.1.1) + " \u{d7}"@ + decimal_text(
        link.0 as nat,
    )
}

/// Follow links with semicolons between.
pub open spec fn links_text(links: Seq<(u64, (Seq<u8>, Seq<u8>))>) -> Seq<char>
    decreases links.len(),
{
    if links.len() == 0 {
        Seq::empty()
    } else if links.len() == 1 {
        link_text(links[0])
    } else {
        links_text(links.drop_last()) + "; "@ + link_text(links.last())
    }
}

/// One predicted continuation.
pub open spec fn prediction_text(p: (u64, Seq<u8>)) -> Seq<char> {
    utf8_lossy(p.1) + " \u{d7}"@ + decimal_text(p.0 as nat)
}

/// Predicted continuations with semicolons between.
pub open spec fn predictions_text(ps: Seq<(u64, Seq<u8>)>) -> Seq<char>
    decreases ps.len(),
{
    if ps.len() == 0 {
        Seq::empty()
    } else if ps.len() == 1 {
        prediction_text(ps[0])
    } else {
        predictions_text(ps.drop_last()) + "; "@ + prediction_text(ps.last())
    }
}

/// The turns, one line each.
pub open spec fn turns_text(exchanges: Seq<Exchange>) -> Seq<char>
    decreases exchanges.len(),
{
    if exchanges.len() == 0 {
        Seq::empty()
    } else {
        turns_text(exchanges.drop_last()) + role_label(exchanges.last().role) + ": "@
            + exchanges.last().text@ + "\n"@
    }
}

/// The line of follow links, empty where none is asked for or there is none.
pub open spec fn links_line(ctx: ConversationContext, k: nat) -> Seq<char> {
    let links = first_k(ranking::<(Vec<u8>, Vec<u8>)>(ctx.matrix.links()), k);
    if k == 0 || links.len() == 0 {
        Seq::empty()
    } else {
        "[top follow links: "@ + links_text(links) + "]\n"@
    }
}

/// The line of predictions, empty where none is asked for or there is none.
pub open spec fn predictions_line(ctx: ConversationContext, k: nat) -> Seq<char> {
    let e = ctx.exchanges@;
    let ps = suggestions(e, ctx.matrix.cells(), e.len() - 1, k);
    if k == 0 || e.len() == 0 || ps.len() == 0 {
        Seq::empty()
    } else {
        "[predicted continuations: "@ + predictions_text(ps) + "]\n"@
    }
}

/// The digest lines.
pub open spec fn metadata_text(
    ctx: ConversationContext,
    options: PromptOptions,
    cardinality: u64,
) -> Seq<char> {
    digest_text(ctx.exchanges@.len(), ctx.top.hll@.len(), cardinality as nat) + links_line(
        ctx,
        options.top_links as nat,
    ) + predictions_line(ctx, options.predicted_continuations as nat) + "\n"@
}

/// The prompt of a context.
pub open spec fn prompt_text(
    ctx: ConversationContext,
    options: PromptOptions,
    cardinality: u64,
) -> Seq<char> {
    (if options.header {
        header_text()
    } else {
        Seq::empty()
    }) + (if options.include_metadata {
        metadata_text(ctx, options, cardinality)
    } else {
        Seq::empty()
    }) + turns_text(ctx.exchanges@) + "assistant:"@
}

fn links_string(links: &Vec<(Vec<u8>, Vec<u8>, u64)>) -> (r: String)
    ensures
        r@ == links_text(link_pairs(links@)),
{
    let ghost all = link_pairs(links@);
    let mut out = String::new();
    let mut i: usize = 0;
    proof {
        assert(all.take(0) =~= Seq::empty());
    }
    while i < links.len()
        invariant
            i <= links@.len(),
            all == link_pairs(links@),
            out@ == links_text(all.take(i as int)),
        decreases links@.len() - i,
    {
        let ghost part = all.take(i + 1);
        let ghost before = out@;
        proof {
            assert(part.drop_last() =~= all.take(i as int));
            assert(part.last() == all[i as int]);
        }
        if i > 0 {
            out.append("; ");
        }
        let ghost start = out@;
        let a = lossy_text(links[i].0.as_slice());
        let b = lossy_text(links[i].1.as_slice());
        out.append(a.as_str());
        out.append(" \u{2192} ");
        out.append(b.as_str());
        out.append(" \u{d7}");
        out.append(decimal_string(links[i].2).as_str());
        proof {
            assert(out@ =~= start + link_text(all[i as int]));
            if i == 0 {
                assert(start =~= Seq::empty());
                assert(out@ =~= link_text(part[0]));
            }
        }
        i = i + 1;
    }
    proof {
        assert(all.take(i as int) =~= all);
    }
    out
}

fn predictions_string(ps: &Vec<(Vec<u8>, u64)>) -> (r: String)
    ensures
        r@ == predictions_text(suggestion_pairs(ps@)),
{
    let ghost all = suggestion_pairs(ps@);
    let mut out = String::new();
    let mut i: usize = 0;
    proof {
        assert(all.take(0) =~= Seq::empty());
    }
    while i < ps.len()
        invariant
            i <= ps@.len(),
            all == suggestion_pairs(ps@),
            out@ == predictions_text(all.take(i as int)),
        decreases ps@.len() - i,
    {
        let ghost part = all.take(i + 1);
        proof {
            assert(part.drop_last() =~= all.take(i as int));
            assert(part.last() == all[i as int]);
        }
        if i > 0 {
            out.append("; ");
        }
        let ghost start = out@;
        out.append(lossy_text(ps[i].0.as_slice()).as_str());
        out.append(" \u{d7}");
        out.append(decimal_string(ps[i].1).as_str());
        proof {
            assert(out@ =~= start + prediction_text(all[i as int]));
            if i == 0 {
                assert(start =~= Seq::empty());
                assert(out@ =~= prediction_text(part[0]));
            }
        }
        i = i + 1;
    }
    proof {
        assert(all.take(i as int) =~= all);
    }
    out
}

fn metadata_string(ctx: &ConversationContext, options: &PromptOptions, cardinality: u64) -> (r:
    String)
    requires
        ctx.exchanges@.len() > 0 ==> 4 * options.predicted_continuations <= usize::MAX,
    ensures
        r@ == metadata_text(*ctx, *options, cardinality),
{
    let mut out = "[context: ".to_owned();
    out.append(decimal_string(ctx.exchanges.len() as u64).as_str());
    out.append(" exchanges | union popcount=");
    out.append(decimal_string(ctx.top.popcount()).as_str());
    out.append(" | cardinality~");
    out.append(decimal_string(cardinality).as_str());
    out.append("]\n");
    let ghost digest = out@;
    if options.top_links > 0 {
        let links = ctx.matrix.top_links(options.top_links);
        proof {
            assert(link_pairs(links@).len() == links@.len());
        }
        if links.len() > 0 {
            out.append("[top follow links: ");
            out.append(links_string(&links).as_str());
            out.append("]\n");
        }
    }
    proof {
        assert(out@ =~= digest + links_line(*ctx, options.top_links as nat));
    }
    let ghost upto = out@;
    if options.predicted_continuations > 0 && ctx.exchanges.len() > 0 {
        let last: usize = ctx.exchanges.len() - 1;
        let preds = ctx.suggest_continuations(last, options.predicted_continuations);
        proof {
            assert(suggestion_pairs(preds@).len() == preds@.len());
        }
        if preds.len() > 0 {
            out.append("[predicted continuations: ");
            out.append(predictions_string(&preds).as_str());
            out.append("]\n");
        }
    }
    proof {
        assert(out@ =~= upto + predictions_line(
            *ctx,
            options.predicted_continuations as nat,
        ));
    }
    out.append("\n");
    out
}

/// Renders a context as a prompt with the default options. The cardinality is
/// the estimate to print.
pub fn build_prompt(ctx: &ConversationContext, cardinality: u64) -> (r: String)
    ensures
        exists|options: PromptOptions|
            options.header && options.include_metadata && options.top_links == 5
                && options.predicted_continuations == 3 && r@ == #[trigger] prompt_text(
                *ctx,
                options,
                cardinality,
            ),
{
    let options = PromptOptions::default();
    build_prompt_with(ctx, &options, cardinality)
}

/// Renders a context as a prompt. The cardinality is the estimate to print.
pub fn build_prompt_with(ctx: &ConversationContext, options: &PromptOptions, cardinality: u64) -> (r:
    String)
    requires
        options.include_metadata && ctx.exchanges@.len() > 0 ==> 4
            * options.predicted_continuations <= usize::MAX,
    ensures
        r@ == prompt_text(*ctx, *options, cardinality),
{
    let mut out = String::new();
    if options.header {
        out.append("You are continuing a conversation. Below is the reconstructed context.\n\n");
    }
    proof {
        assert(out@ =~= if options.header {
            header_text()
        } else {
            Seq::empty()
        });
    }
    let ghost head = out@;
    if options.include_metadata {
        out.append(metadata_string(ctx, options, cardinality).as_str());
    }
    proof {
        assert(out@ =~= head + if options.include_metadata {
            metadata_text(*ctx, *options, cardinality)
        } else {
            Seq::empty()
        });
    }
    let ghost base = out@;
    let ghost all = ctx.exchanges@;
    let mut i: usize = 0;
    proof {
        assert(base + turns_text(all.take(0)) =~= base);
    }
    while i < ctx.exchanges.len()
        invariant
            i <= ctx.exchanges@.len(),
            all == ctx.exchanges@,
            out@ == base + turns_text(all.take(i as int)),
        decreases ctx.exchanges@.len() - i,
    {
        proof {
            assert(all.take(i + 1).drop_last() =~= all.take(i as int));
            assert(all.take(i + 1).last() == all[i as int]);
        }
        out.append(ctx.exchanges[i].role.label());
        out.append(": ");
        out.append(ctx.exchanges[i].text.as_str());
        out.append("\n");
        proof {
            assert(out@ =~= base + turns_text(all.take(i + 1)));
        }
        i = i + 1;
    }
    proof {
        assert(all.take(i as int) =~= all);
    }
    out.append("assistant:");
    out
}

/// The turns of restored paths, the roles alternating.
pub open spec fn restored_turns(paths: Seq<Seq<Seq<u8>>>, first: Role) -> Seq<char>
    decreases paths.len(),
{
    if paths.len() == 0 {
        Seq::empty()
    } else {
        let role = if (paths.len() - 1) % 2 == 0 {
            first
        } else {
            opposite(first)
        };
        restored_turns(paths.drop_last(), first) + role_label(role) + ": "@ + spaced(paths.last())
            + "\n"@
    }
}

/// The prompt of restored paths.
pub open spec fn restored_prompt_text(
    paths: Seq<Seq<Seq<u8>>>,
    latest_query: Seq<char>,
    first: Role,
) -> Seq<char> {
    "You are continuing a conversation reconstructed from HLLSet context.\n\n"@ + restored_turns(
        paths,
        first,
    ) + "user: "@ + latest_query + "\n"@ + "assistant:"@
}

/// Renders restored paths as a prompt, the roles alternating from the given
/// one on, with the latest query appended.
pub fn build_prompt_from_restored(
    restored: &RestoredConversation,
    latest_query: &str,
    first_role: Role,
) -> (r: String)
    ensures
        r@ == restored_prompt_text(path_views(restored.paths@), latest_query@, first_role),
{
    let mut out =
        "You are continuing a conversation reconstructed from HLLSet context.\n\n".to_owned();
    let ghost base = out@;
    let ghost all = path_views(restored.paths@);
    let mut role = first_role;
    let mut i: usize = 0;
    proof {
        assert(base + restored_turns(all.take(0), first_role) =~= base);
    }
    while i < restored.paths.len()
        invariant
            i <= restored.paths@.len(),
            all == path_views(restored.paths@),
            role == if i as int % 2 == 0 {
                first_role
            } else {
                opposite(first_role)
            },
            out@ == base + restored_turns(all.take(i as int), first_role),
        decreases restored.paths@.len() - i,
    {
        proof {
            assert(all.take(i + 1).drop_last() =~= all.take(i as int));
            assert(all.take(i + 1).last() == views(restored.paths@[i as int].tokens@));
        }
        out.append(role.label());
        out.append(": ");
        out.append(restored.paths[i].as_text().as_str());
        out.append("\n");
        proof {
            assert(out@ =~= base + restored_turns(all.take(i + 1), first_role));
        }
        role = role.toggle();
        i = i + 1;
    }
    proof {
        assert(all.take(i as int) =~= all);
    }
    out.append("user: ");
    out.append(latest_query);
    out.append("\n");
    out.append("assistant:");
    out
}

impl ConversationContext {
    /// The prompt with the default options.
    pub fn to_prompt(&self, cardinality: u64) -> (r: String)
        ensures
            exists|options: PromptOptions|
                options.header && options.include_metadata && options.top_links == 5
                    && options.predicted_continuations == 3 && r@ == #[trigger] prompt_text(
                    *self,
                    options,
                    cardinality,
                ),
    {
        build_prompt(self, cardinality)
    }

    /// The prompt with options.
    pub fn to_prompt_with(&self, options: &PromptOptions, cardinality: u64) -> (r: String)
        requires
            options.include_metadata && self.exchanges@.len() > 0 ==> 4
                * options.predicted_continuations <= usize::MAX,
        ensures
            r@ == prompt_text(*self, *options, cardinality),
    {
        build_prompt_with(self, options, cardinality)
    }
}

/// A prompt ends with the cue for the assistant's turn.
pub proof fn prompts_end_with_the_cue(
    ctx: ConversationContext,
    options: PromptOptions,
    cardinality: u64,
)
    ensures
        "assistant:"@.is_suffix_of(prompt_text(ctx, options, cardinality)),
{
    let p = prompt_text(ctx, options, cardinality);
    let cue = "assistant:"@;
    assert(p.subrange(p.len() - cue.len(), p.len() as int) =~= cue);
}

/// The line of one turn.
pub open spec fn turn_line(role: Role, text: Seq<char>) -> Seq<char> {
    (match role {
        Role::User => "user"@,
        Role::Assistant => "assistant"@,
    }) + ": "@ + text + "\n"@
}

/// Turns come in the order of the conversation: one turn is its line, and the
/// turns of a conversation that goes on are those so far and then the others.
pub proof fn turns_come_in_order(a: Seq<Exchange>, b: Seq<Exchange>, e: Exchange)
    ensures
        turns_text(Seq::empty()) == Seq::<char>::empty(),
        turns_text(seq![e]) == turn_line(e.role, e.text@),
        turns_text(a + b) == turns_text(a) + turns_text(b),
    decreases b.len(),
{
    let one = seq![e];
    assert(one.drop_last() =~= Seq::empty());
    assert(turns_text(one.drop_last()) =~= Seq::empty());
    assert(turns_text(one) =~= turn_line(e.role, e.text@));
    if b.len() == 0 {
        assert(a + b =~= a);
        assert(turns_text(b) =~= Seq::empty());
        assert(turns_text(a) + turns_text(b) =~= turns_text(a));
    } else {
        turns_come_in_order(a, b.drop_last(), e);
        assert((a + b).drop_last() =~= a + b.drop_last());
        assert((a + b).last() == b.last());
        assert(turns_text(a + b) =~= turns_text(a) + turns_text(b));
    }
}

/// A conversation that goes on by one turn has, without header and digest, the
/// prompt so far with the line of the new turn before its cue.
pub proof fn prompts_grow_by_the_new_turn(
    before: ConversationContext,
    after: ConversationContext,
    e: Exchange,
    options: PromptOptions,
    cardinality: u64,
)
    requires
        !options.header,
        !options.include_metadata,
        after.exchanges@ == before.exchanges@.push(e),
    ensures
        ({
            let cue = "assistant:"@;
            let p = prompt_text(before, options, cardinality);
            &&& cue.is_suffix_of(p)
            &&& prompt_text(after, options, cardinality) == p.take(p.len() - cue.len())
                + turn_line(e.role, e.text@) + cue
        }),
{
    let cue = "assistant:"@;
    let p = prompt_text(before, options, cardinality);
    prompts_end_with_the_cue(before, options, cardinality);
    turns_come_in_order(before.exchanges@, seq![e], e);
    assert(before.exchanges@.push(e) =~= before.exchanges@ + seq![e]);
    assert(p.take(p.len() - cue.len()) =~= turns_text(before.exchanges@));
    assert(prompt_text(after, options, cardinality) =~= p.take(p.len() - cue.len()) + turn_line(
        e.role,
        e.text@,
    ) + cue);
}

/// The header and the digest stand before the turns, the header first; without
/// turns, header and digest the prompt is the cue alone.
pub proof fn prompts_open_with_header_and_digest(
    ctx: ConversationContext,
    options: PromptOptions,
    cardinality: u64,
)
    ensures
        ({
            let bare = PromptOptions { header: false, include_metadata: false, ..options };
            let head = PromptOptions { header: true, include_metadata: false, ..options };
            let meta = PromptOptions { header: false, include_metadata: true, ..options };
            let all = PromptOptions { header: true, include_metadata: true, ..options };
            let opening = header_text();
            let digest = metadata_text(ctx, options, cardinality);
            &&& prompt_text(ctx, bare, cardinality) == turns_text(ctx.exchanges@) + "assistant:"@
            &&& prompt_text(ctx, head, cardinality) == opening + prompt_text(
                ctx,
                bare,
                cardinality,
            )
            &&& prompt_text(ctx, meta, cardinality) == digest + prompt_text(
                ctx,
                bare,
                cardinality,
            )
            &&& prompt_text(ctx, all, cardinality) == opening + prompt_text(
                ctx,
                meta,
                cardinality,
            )
            &&& ("[context: "@ + decimal_text(ctx.exchanges@.len()) + " exchanges | union popcount="@
                + decimal_text(ctx.top.hll@.len()) + " | cardinality~"@ + decimal_text(
                cardinality as nat,
            ) + "]\n"@).is_prefix_of(digest)
            &&& "\n"@.is_suffix_of(digest)
        }),
{
    let bare = PromptOptions { header: false, include_metadata: false, ..options };
    let head = PromptOptions { header: true, include_metadata: false, ..options };
    let meta = PromptOptions { header: false, include_metadata: true, ..options };
    let all = PromptOptions { header: true, include_metadata: true, ..options };
    let opening = header_text();
    let digest = metadata_text(ctx, options, cardinality);
    assert(prompt_text(ctx, bare, cardinality) =~= turns_text(ctx.exchanges@) + "assistant:"@);
    assert(prompt_text(ctx, head, cardinality) =~= opening + prompt_text(ctx, bare, cardinality));
    assert(metadata_text(ctx, meta, cardinality) == digest);
    assert(metadata_text(ctx, all, cardinality) == digest);
    assert(prompt_text(ctx, meta, cardinality) =~= digest + prompt_text(ctx, bare, cardinality));
    assert(prompt_text(ctx, all, cardinality) =~= opening + prompt_text(ctx, meta, cardinality));
    let line = digest_text(ctx.exchanges@.len(), ctx.top.hll@.len(), cardinality as nat);
    assert(line =~= digest.subrange(0, line.len() as int));
    assert("\n"@ =~= digest.subrange(digest.len() - "\n"@.len(), digest.len() as int));
}

/// Restored paths are told in their order, the roles alternating from the
/// first on: one path is a turn of that role, and the turns after some paths
/// are told by whoever is next.
pub proof fn restored_turns_alternate(
    a: Seq<Seq<Seq<u8>>>,
    b: Seq<Seq<Seq<u8>>>,
    path: Seq<Seq<u8>>,
    first: Role,
)
    ensures
        restored_turns(Seq::empty(), first) == Seq::<char>::empty(),
        restored_turns(seq![path], first) == turn_line(first, spaced(path)),
        restored_turns(a + b, first) == restored_turns(a, first) + restored_turns(
            b,
            if a.len() % 2 == 0 {
                first
            } else {
                match first {
                    Role::User => Role::Assistant,
                    Role::Assistant => Role::User,
                }
            },
        ),
{
    let one = seq![path];
    assert(one.drop_last() =~= Seq::empty());
    assert(restored_turns(one.drop_last(), first) =~= Seq::empty());
    assert(restored_turns(one, first) =~= turn_line(first, spaced(path)));
    lemma_restored_turns(a, b, first);
}

/// Who tells path `n`.
spec fn teller(n: int, first: Role) -> Role {
    if n % 2 == 0 {
        first
    } else {
        opposite(first)
    }
}

proof fn lemma_restored_turns(a: Seq<Seq<Seq<u8>>>, b: Seq<Seq<Seq<u8>>>, first: Role)
    ensures
        restored_turns(a + b, first) == restored_turns(a, first) + restored_turns(
            b,
            teller(a.len() as int, first),
        ),
    decreases b.len(),
{
    let next = teller(a.len() as int, first);
    if b.len() == 0 {
        assert(a + b =~= a);
        assert(restored_turns(b, next) =~= Seq::empty());
        assert(restored_turns(a, first) + restored_turns(b, next) =~= restored_turns(a, first));
    } else {
        let c = b.drop_last();
        lemma_restored_turns(a, c, first);
        assert((a + b).drop_last() =~= a + c);
        assert((a + b).last() == b.last());
        let role = teller(a.len() + b.len() - 1, first);
        assert(role == teller(b.len() - 1, next));
        let x = restored_turns(a, first);
        let y = restored_turns(c, next);
        let l = role_label(role);
        let t = spaced(b.last());
        assert(restored_turns(b, next) == y + l + ": "@ + t + "\n"@);
        assert(restored_turns(a + b, first) == (x + y) + l + ": "@ + t + "\n"@);
        lemma_regroup(x, y, l, ": "@, t, "\n"@);
    }
}

proof fn lemma_regroup(
    x: Seq<char>,
    y: Seq<char>,
    a: Seq<char>,
    b: Seq<char>,
    c: Seq<char>,
    d: Seq<char>,
)
    ensures
        (x + y) + a + b + c + d == x + (y + a + b + c + d),
{
    assert((x + y) + a + b + c + d =~= x + (y + a + b + c + d));
}

/// The prompt of a restored conversation is its turns, the latest query as a
/// turn of the user, and the cue, after one opening for all.
pub proof fn restored_prompts_end_with_the_query(
    paths: Seq<Seq<Seq<u8>>>,
    query: Seq<char>,
    first: Role,
)
    ensures
        ({
            let opening =
                "You are continuing a conversation reconstructed from HLLSet context.\n\n"@;
            restored_prompt_text(paths, query, first) == opening + restored_turns(paths, first)
                + turn_line(Role::User, query) + "assistant:"@
        }),
{
    let opening = "You are continuing a conversation reconstructed from HLLSet context.\n\n"@;
    reveal_strlit("user: ");
    reveal_strlit("user");
    reveal_strlit(": ");
    assert("user: "@ =~= "user"@ + ": "@);
    assert(restored_prompt_text(paths, query, first) =~= opening + restored_turns(paths, first)
        + turn_line(Role::User, query) + "assistant:"@);
}

/// Links and predictions are listed best first, with semicolons between.
pub proof fn lists_keep_their_order(
    links: Seq<(u64, (Seq<u8>, Seq<u8>))>,
    link: (u64, (Seq<u8>, Seq<u8>)),
    ps: Seq<(u64, Seq<u8>)>,
    p: (u64, Seq<u8>),
)
    ensures
        links_text(seq![link]) == utf8_lossy(link.1.0) + " \u{2192} "@ + utf8_lossy(link.1.1)
            + " \u{d7}"@ + decimal_text(link.0 as nat),
        links.len() > 0 ==> links_text(links.push(link)) == links_text(links) + "; "@ + links_text(
            seq![link],
        ),
        predictions_text(seq![p]) == utf8_lossy(p.1) + " \u{d7}"@ + decimal_text(p.0 as nat),
        ps.len() > 0 ==> predictions_text(ps.push(p)) == predictions_text(ps) + "; "@
            + predictions_text(seq![p]),
{
    assert(links.push(link).drop_last() =~= links);
    assert(ps.push(p).drop_last() =~= ps);
}

/// The digest shows as many of the best follow links as are asked for, or all
/// there are, and no line where none is asked for or there is none.
pub proof fn digests_show_the_best_links(ctx: ConversationContext, k: nat)
    requires
        ctx.matrix.links().dom().finite(),
    ensures
        k == 0 || ctx.matrix.links().dom().len() == 0 ==> links_line(ctx, k) == Seq::<
            char,
        >::empty(),
        k > 0 && ctx.matrix.links().dom().len() > 0 ==> exists|links: Seq<
            (u64, (Seq<u8>, Seq<u8>)),
        >|
            {
                &&& links_line(ctx, k) == "[top follow links: "@ + #[trigger] links_text(links)
                    + "]\n"@
                &&& links.len() == if k <= ctx.matrix.links().dom().len() {
                    k
                } else {
                    ctx.matrix.links().dom().len()
                }
                &&& links.is_prefix_of(ranking::<(Vec<u8>, Vec<u8>)>(ctx.matrix.links()))
            },
{
    let all = ranking::<(Vec<u8>, Vec<u8>)>(ctx.matrix.links());
    crate::maps::rankings_come_best_first::<(Vec<u8>, Vec<u8>)>(ctx.matrix.links());
    let links = first_k(all, k);
    if k > 0 && all.len() > 0 {
        assert(links_line(ctx, k) == "[top follow links: "@ + links_text(links) + "]\n"@);
        assert(links =~= all.take(links.len() as int));
    }
}

/// The digest predicts how the latest exchange goes on, and nothing where no
/// prediction is asked for or there is no exchange.
pub proof fn digests_predict_from_the_latest_exchange(
    ctx: ConversationContext,
    last: Exchange,
    before: Seq<Exchange>,
    k: nat,
)
    requires
        ctx.exchanges@ == before.push(last),
    ensures
        predictions_line(ctx, 0) == Seq::<char>::empty(),
        k > 0 && suggestions(
            ctx.exchanges@,
            ctx.matrix.cells(),
            before.len() as int,
            k,
        ).len() > 0 ==> predictions_line(ctx, k) == "[predicted continuations: "@
            + predictions_text(
            suggestions(ctx.exchanges@, ctx.matrix.cells(), before.len() as int, k),
        ) + "]\n"@,
{
}

/// The digest is its first line, the links, the predictions and an empty line,
/// in this order.
pub proof fn digests_come_in_order(
    ctx: ConversationContext,
    options: PromptOptions,
    cardinality: u64,
)
    ensures
        ({
            let plain = PromptOptions { top_links: 0, predicted_continuations: 0, ..options };
            let first = "[context: "@ + decimal_text(ctx.exchanges@.len())
                + " exchanges | union popcount="@ + decimal_text(ctx.top.hll@.len())
                + " | cardinality~"@ + decimal_text(cardinality as nat) + "]\n"@;
            &&& metadata_text(ctx, plain, cardinality) == first + "\n"@
            &&& metadata_text(ctx, options, cardinality) == first + links_line(
                ctx,
                options.top_links as nat,
            ) + predictions_line(ctx, options.predicted_continuations as nat) + "\n"@
        }),
{
    let plain = PromptOptions { top_links: 0, predicted_continuations: 0, ..options };
    let first = digest_text(ctx.exchanges@.len(), ctx.top.hll@.len(), cardinality as nat);
    let none = Seq::<char>::empty();
    assert(first + none + none + "\n"@ =~= first + "\n"@);
    assert(links_line(ctx, 0) == none);
    assert(predictions_line(ctx, 0) == none);
    assert(metadata_text(ctx, plain, cardinality) =~= first + "\n"@);
}

} // verus!
