use hllset::context::ConversationContext;
use hllset::debruijn::{DeBruijnRestorer, RestoredConversation};
use hllset::exchange::{Exchange, Role};
use hllset::prompt::build_prompt_from_restored;
use hllset::ngrams::token_bit_position;

fn ctx_of(turns: &[(&str, &str)]) -> ConversationContext {
    let exchanges = turns
        .iter()
        .map(|(role, text)| {
            let role = if *role == "user" {
                Role::User
            } else {
                Role::Assistant
            };
            Exchange::from_text(role, text)
        })
        .collect();
    ConversationContext::build(exchanges)
}

fn tokens(paths: &RestoredConversation) -> Vec<Vec<String>> {
    paths
        .paths
        .iter()
        .map(|p| {
            p.tokens
                .iter()
                .map(|t| String::from_utf8_lossy(t).to_string())
                .collect()
        })
        .collect()
}

fn confidence(r: &RestoredConversation) -> f64 {
    r.explained as f64 / r.total as f64
}

fn strings(words: &[&str]) -> Vec<String> {
    words.iter().map(|w| w.to_string()).collect()
}

#[test]
fn test_single_exchange_roundtrip() {
    let ctx = ctx_of(&[("user", "the cat sat")]);
    let restored = ctx.restore();
    assert_eq!(restored.paths.len(), 1);
    assert_eq!(tokens(&restored), vec![vec!["the", "cat", "sat"]]);
    assert!(confidence(&restored) > 0.0);
}

#[test]
fn test_two_exchanges_roundtrip() {
    let ctx = ctx_of(&[("user", "the cat sat"), ("assistant", "the dog ran")]);
    let restored = ctx.restore();
    let got = tokens(&restored);
    assert!(got.contains(&strings(&["the", "cat", "sat"])), "got={got:?}");
    assert!(got.contains(&strings(&["the", "dog", "ran"])), "got={got:?}");
}

#[test]
fn test_shared_prefix_branching() {
    let ctx = ctx_of(&[("user", "a b c"), ("assistant", "a b d")]);
    let restored = ctx.restore();
    let got = tokens(&restored);
    assert!(got.contains(&strings(&["a", "b", "c"])), "got={got:?}");
    assert!(got.contains(&strings(&["a", "b", "d"])), "got={got:?}");
}

#[test]
fn debruijn_test_single_token_exchange() {
    let ctx = ctx_of(&[("user", "ok")]);
    let restored = ctx.restore();
    assert_eq!(tokens(&restored), vec![vec!["ok"]]);
}

#[test]
fn test_two_token_exchange() {
    let ctx = ctx_of(&[("user", "hello world")]);
    let restored = ctx.restore();
    assert_eq!(tokens(&restored), vec![vec!["hello", "world"]]);
}

#[test]
fn test_empty_context_restores_nothing() {
    let ctx = ConversationContext::new();
    let restored = ctx.restore();
    assert!(restored.is_empty());
    assert_eq!(confidence(&restored), 0.0);
}

#[test]
fn test_restored_prompt() {
    let ctx = ctx_of(&[
        ("user", "how does a cat sit"),
        ("assistant", "a cat sits on the mat"),
    ]);
    let restored = ctx.restore();
    let prompt = restored.to_prompt("what about a dog");
    assert!(
        prompt.contains("user: how does a cat sit"),
        "prompt={prompt}"
    );
    assert!(prompt.contains("assistant: a cat sits on the mat"));
    assert!(prompt.contains("user: what about a dog"));
    assert!(prompt.ends_with("assistant:"));
}

#[test]
fn flat_tokens_keep_first_occurrences() {
    let ctx = ctx_of(&[("user", "a b c"), ("assistant", "a b d")]);
    let flat = ctx.restore().flat_tokens();
    let words: Vec<String> = flat
        .iter()
        .map(|t| String::from_utf8_lossy(t).to_string())
        .collect();
    assert_eq!(words, strings(&["a", "b", "c", "d"]));
}

#[test]
fn restored_tokens_lie_in_the_first_plane() {
    let ctx = ctx_of(&[("user", "the cat sat"), ("assistant", "the dog ran")]);
    let noise: Vec<Vec<u8>> = (0..500u32).map(|i| format!("n{i}").into_bytes()).collect();
    let restorer = DeBruijnRestorer::from_vocabulary(&noise);
    assert!(restorer.restore(&ctx).is_empty());
    for path in &ctx.restore().paths {
        for t in &path.tokens {
            assert!(ctx.top.hll_1.contains(token_bit_position(t)));
        }
    }
}

#[test]
fn limits_cut_the_search() {
    let ctx = ctx_of(&[("user", "a b c"), ("assistant", "a b d")]);
    let restorer = DeBruijnRestorer::from_context(&ctx);
    assert_eq!(restorer.restore_with_limits(&ctx, 1, 512).len(), 1);
    assert_eq!(restorer.restore_with_limits(&ctx, 64, 3).len(), 0);
    assert_eq!(restorer.restore_with_limits(&ctx, 64, 4).len(), 2);
}

#[test]
fn full_conversation_roundtrip() {
    let exchanges = vec![
        Exchange::from_text(Role::User, "how does a cat sit"),
        Exchange::from_text(Role::Assistant, "a cat sits on the mat"),
        Exchange::from_text(Role::User, "what about a dog"),
        Exchange::from_text(Role::Assistant, "a dog sits on the floor"),
    ];
    let ctx = ConversationContext::build(exchanges);

    let mut manual = ctx.exchanges[0].hll.clone();
    for ex in &ctx.exchanges[1..] {
        manual = manual.union(&ex.hll);
    }
    assert_eq!(ctx.top.hll.popcount(), manual.popcount());
    assert!(ctx.top.hll_2.popcount() > 0);
    assert!(ctx.top.hll_3.popcount() > 0);

    let row_a = token_bit_position(b"a");
    let col_cat = token_bit_position(b"cat");
    assert_eq!(ctx.matrix.get(row_a, col_cat), 2);
    let row_cat = token_bit_position(b"cat");
    assert_eq!(ctx.matrix.get(row_cat, token_bit_position(b"sit")), 1);
    assert_eq!(ctx.matrix.get(row_cat, token_bit_position(b"sits")), 1);
    let row_dog = token_bit_position(b"dog");
    assert_eq!(ctx.matrix.get(row_dog, token_bit_position(b"sits")), 1);

    let restored = ctx.restore();
    assert!(
        restored.len() >= 4,
        "expected 4 restored paths, got {}",
        restored.len()
    );

    let texts: Vec<String> = restored.paths.iter().map(|p| p.as_text()).collect();
    assert!(
        texts.contains(&"how does a cat sit".to_string()),
        "texts={texts:?}"
    );
    assert!(texts.contains(&"a cat sits on the mat".to_string()));
    assert!(texts.contains(&"what about a dog".to_string()));
    assert!(texts.contains(&"a dog sits on the floor".to_string()));

    assert!((0.0..=1.0).contains(&confidence(&restored)));
    assert!(confidence(&restored) > 0.0);

    let live = ctx.to_prompt(0);
    assert!(live.contains("user: how does a cat sit"));
    assert!(live.ends_with("assistant:"));

    let restored_prompt =
        build_prompt_from_restored(&restored, "and what about a bird", Role::User);
    assert!(restored_prompt.contains("user: and what about a bird"));
    assert!(restored_prompt.ends_with("assistant:"));
}

#[test]
fn walked_triples_explain_every_bit() {
    let ctx = ctx_of(&[("user", "a b c d a b c"), ("assistant", "x y x y x")]);
    let restored = ctx.restore();
    assert_eq!(restored.explained, restored.total);
    assert_eq!(restored.total as u64, ctx.top.hll_3.popcount());
}

#[test]
fn unrepeated_exchanges_come_back_whole() {
    let ctx = ctx_of(&[("user", "one two three two four")]);
    assert!(tokens(&ctx.restore()).contains(&strings(&["one", "two", "three", "two", "four"])));
}
