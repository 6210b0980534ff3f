use hllset::context::ConversationContext;
use hllset::distributed::Share;
use hllset::exchange::{Exchange, Role};
use hllset::hllset::HLLSet;
use hllset::ngrams::{start_marker, token_bit_position};

fn ex(role: Role, text: &str) -> Exchange {
    Exchange::from_text(role, text)
}

fn ratio(s: Share) -> f64 {
    if s.whole == 0 {
        1.0
    } else {
        s.part as f64 / s.whole as f64
    }
}

fn manual_union_layer(exchanges: &[Exchange], n: usize) -> HLLSet {
    let mut out = HLLSet::new();
    for e in exchanges {
        let layer = match n {
            1 => &e.hll_1,
            2 => &e.hll_2,
            _ => &e.hll_3,
        };
        out.merge(layer);
    }
    out
}

#[test]
fn test_build_union_equals_exchanges() {
    let exchanges = vec![
        ex(Role::User, "the cat sat"),
        ex(Role::Assistant, "the dog ran"),
    ];
    let ctx = ConversationContext::build(exchanges);

    let mut manual = HLLSet::new();
    for e in &ctx.exchanges {
        manual.merge(&e.hll);
    }
    assert_eq!(ctx.top.hll.popcount(), manual.popcount());
    assert_eq!(
        ctx.top.hll_2.popcount(),
        manual_union_layer(&ctx.exchanges, 2).popcount()
    );
    assert_eq!(ctx.len(), 2);
    assert!(!ctx.is_empty());
}

#[test]
fn test_matrix_counts_shared_follows() {
    let exchanges = vec![
        ex(Role::User, "the cat sat"),
        ex(Role::Assistant, "the cat purred"),
    ];
    let ctx = ConversationContext::build(exchanges);

    let row = token_bit_position(b"the");
    let col = token_bit_position(b"cat");
    assert_eq!(ctx.matrix.get(row, col), 2);
    assert!(ctx.matrix.total_follows() >= 2);
}

#[test]
fn test_incremental_equals_batch() {
    let a = ex(Role::User, "alpha beta gamma");
    let b = ex(Role::Assistant, "alpha beta delta");

    let batch = ConversationContext::build(vec![a.duplicate(), b.duplicate()]);
    let mut inc = ConversationContext::new();
    inc.add_exchange(a);
    inc.add_exchange(b);

    assert_eq!(batch.top.hll.popcount(), inc.top.hll.popcount());
    assert_eq!(batch.matrix.total_follows(), inc.matrix.total_follows());
    assert!(batch.top.hll.same(&inc.top.hll));
}

#[test]
fn test_bss_inclusion() {
    let ctx = ConversationContext::build(vec![
        ex(Role::User, "the cat sat"),
        ex(Role::Assistant, "the cat sat"),
    ]);
    let tau = ratio(ctx.bss_inclusion(1).unwrap());
    assert!((tau - 1.0).abs() < 0.01, "tau={tau}");
    assert!(ctx.bss_inclusion(2).is_none());
}

#[test]
fn overlap_of_equal_and_missing_exchanges() {
    let ctx = ConversationContext::build(vec![
        ex(Role::User, "the cat sat"),
        ex(Role::Assistant, "the cat sat"),
    ]);
    let s = ctx.exchange_overlap(0, 1).unwrap();
    assert_eq!(s.part, s.whole);
    assert!(ctx.exchange_overlap(0, 2).is_none());
}

#[test]
fn test_tz_histogram_and_active_columns() {
    let ctx = ConversationContext::build(vec![
        ex(Role::User, "the cat sat"),
        ex(Role::Assistant, "the dog ran"),
    ]);
    let hist = ctx.top.tz_histogram();
    assert_eq!(hist.len(), 32);
    assert!(hist.iter().sum::<u32>() > 0);
    assert!(ctx.top.active_tz_columns() > 0);
    assert!(hist
        .iter()
        .rev()
        .take(8)
        .all(|&c| c <= ctx.top.popcount() as u32));
}

#[test]
fn test_vocabulary_index_resolves_bits_to_tokens() {
    let ctx = ConversationContext::build(vec![ex(Role::User, "the cat sat")]);
    let idx = ctx.vocabulary_index();
    let bit = token_bit_position(b"cat");
    assert!(idx.get(bit).contains(&b"cat".to_vec()));
    let start_bit = token_bit_position(&start_marker());
    assert!(idx.get(start_bit).contains(&start_marker()));
}

#[test]
fn test_exchange_path_cells_follow_exchange() {
    let ctx = ConversationContext::build(vec![
        ex(Role::User, "the cat sat"),
        ex(Role::Assistant, "the dog ran"),
    ]);
    let cells = ctx.exchange_path_cells(0);
    assert_eq!(cells.len(), 4);
    for (r, c, n) in &cells {
        assert_eq!(ctx.matrix.get(*r, *c), *n);
        assert!(*n >= 1);
    }
}

#[test]
fn test_suggest_continuations_ranked() {
    let ctx = ConversationContext::build(vec![
        ex(Role::User, "the cat sat"),
        ex(Role::Assistant, "the cat purred"),
        ex(Role::User, "the cat"),
    ]);
    let preds = ctx.suggest_continuations(2, 5);
    assert!(!preds.is_empty());
    assert!(preds[0].1 >= 1);
}

#[test]
fn test_matrix_index_is_vocabulary() {
    let ctx = ConversationContext::build(vec![
        ex(Role::User, "the cat sat"),
        ex(Role::Assistant, "the dog ran"),
    ]);
    assert!(ctx.matrix_index_is_vocabulary());
}

#[test]
fn test_shared_bit_origins_same_token() {
    let ctx = ConversationContext::build(vec![
        ex(Role::User, "the cat sat"),
        ex(Role::Assistant, "the cat purred"),
    ]);
    let origins = ctx.shared_bit_origins(0, 1);
    assert!(!origins.is_empty());
    let cat_bit = token_bit_position(b"cat");
    let cat = origins.iter().find(|o| o.bit == cat_bit).unwrap();
    assert_eq!(cat.from_a, vec![b"cat".to_vec()]);
    assert!(cat.same_token);
}

#[test]
fn test_shared_bit_origins_collision_different_tokens() {
    let Some((a, b)) = find_collision_pair(3000) else {
        return;
    };
    let ctx = ConversationContext::build(vec![
        Exchange::from_tokens(Role::User, vec![a.clone()]),
        Exchange::from_tokens(Role::Assistant, vec![b.clone()]),
    ]);
    let origins = ctx.shared_bit_origins(0, 1);
    assert!(
        origins.iter().any(|o| !o.same_token),
        "expected a shared bit with different tokens"
    );
}

/// Finds two distinct tokens that hash to the same bit.
fn find_collision_pair(n: u32) -> Option<(Vec<u8>, Vec<u8>)> {
    let mut seen: std::collections::HashMap<u32, Vec<u8>> = std::collections::HashMap::new();
    for i in 0..n {
        let token = format!("w{i}").into_bytes();
        let bit = token_bit_position(&token);
        if let Some(prev) = seen.get(&bit) {
            return Some((prev.clone(), token));
        }
        seen.insert(bit, token);
    }
    None
}

#[test]
fn bit_origins_name_the_exchanges() {
    let ctx = ConversationContext::build(vec![
        ex(Role::User, "the cat sat"),
        ex(Role::Assistant, "dogs run"),
        ex(Role::User, "a cat"),
    ]);
    let origins = ctx.bit_origins(token_bit_position(b"cat"));
    let who: Vec<usize> = origins.iter().map(|o| o.0).collect();
    assert!(who.contains(&0));
    assert!(who.contains(&2));
}

#[test]
fn test_empty_context() {
    let ctx = ConversationContext::new();
    assert!(ctx.is_empty());
    assert!(ctx.top.is_empty());
    assert!(ctx.matrix.is_empty());
    assert!(ctx.to_prompt(0).contains("assistant:"));
}
