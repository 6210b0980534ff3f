use hllset::context::ConversationContext;
use hllset::distributed::Share;
use hllset::exchange::{Exchange, Role};
use hllset::roundtrip::roundtrip_exchange_with_extra_tokens;

fn ex(text: &str) -> Exchange {
    Exchange::from_text(Role::User, text)
}

fn jaccard(s: Share) -> f64 {
    if s.whole == 0 {
        1.0
    } else {
        s.part as f64 / s.whole as f64
    }
}

#[test]
fn test_single_exchange_roundtrip_exact() {
    for text in ["the cat sat", "hello world", "ok"] {
        let report = ex(text).roundtrip();
        assert!(report.all_exact(), "text={text}");
        assert!((jaccard(report.hll_1_jaccard) - 1.0).abs() < 1e-9);
        assert!((jaccard(report.hll_2_jaccard) - 1.0).abs() < 1e-9);
        assert!((jaccard(report.hll_3_jaccard) - 1.0).abs() < 1e-9);
    }
}

#[test]
fn test_roundtrip_repeated_tokens() {
    for tokens in [
        vec!["a", "a", "a"],
        vec!["the", "the", "cat"],
        vec!["x", "y", "x", "y"],
    ] {
        let exchange = Exchange::from_tokens(
            Role::User,
            tokens.iter().map(|t| t.as_bytes().to_vec()).collect(),
        );
        let report = exchange.roundtrip();
        assert!(report.all_exact(), "tokens={tokens:?}");
    }
}

#[test]
fn test_context_roundtrip_exact_non_overlapping() {
    let ctx = ConversationContext::build(vec![
        ex("the cat sat"),
        Exchange::from_text(Role::Assistant, "the dog ran"),
    ]);
    let report = ctx.roundtrip();
    assert!(report.all_exact());
}

#[test]
fn test_context_roundtrip_exact_overlapping_hybrid_paths() {
    let ctx = ConversationContext::build(vec![
        Exchange::from_tokens(
            Role::User,
            vec![b"a".to_vec(), b"b".to_vec(), b"c".to_vec(), b"d".to_vec()],
        ),
        Exchange::from_tokens(
            Role::Assistant,
            vec![b"e".to_vec(), b"b".to_vec(), b"c".to_vec(), b"f".to_vec()],
        ),
    ]);
    let report = ctx.roundtrip();
    assert!(report.paths.len() >= 2);
    assert!(report.all_exact());
}

#[test]
fn test_roundtrip_empty_exchange() {
    let report = Exchange::from_text(Role::User, "").roundtrip();
    assert!(report.all_exact());
}

#[test]
fn test_roundtrip_with_noisy_lut_high_probability() {
    let exchange = ex("the cat sat");
    let mut distractors: Vec<Vec<u8>> = Vec::new();
    for i in 0..2000u32 {
        let t = format!("dx{i}\0dy{i}\0dz{i}").into_bytes();
        distractors.push(t);
    }
    let report = roundtrip_exchange_with_extra_tokens(&exchange, &distractors);
    assert!(report.hll_1_exact, "the first layer must stay exact");
    assert!(
        report.hll_2_exact && report.hll_3_exact,
        "structural exactness"
    );
}

#[test]
fn test_composition_law_over_random_exchanges() {
    let mut rng = XorShift::new(0x9E37_79B9_7F4A_7C15);
    for i in 0..80u32 {
        let len = 2 + (rng.next() % 6) as usize;
        let tokens: Vec<Vec<u8>> = (0..len).map(|j| format!("t{i}_{j}").into_bytes()).collect();
        let report = Exchange::from_tokens(Role::User, tokens).roundtrip();
        assert!(report.hll_1_exact, "first layer (i={i})");
        assert!(report.hll_2_exact, "second layer (i={i})");
        assert!(report.hll_3_exact, "third layer (i={i})");
    }
}

/// Tiny deterministic xorshift generator.
struct XorShift(u64);

impl XorShift {
    fn new(seed: u64) -> Self {
        Self(seed.max(1))
    }

    fn next(&mut self) -> u64 {
        let mut x = self.0;
        x ^= x << 13;
        x ^= x >> 7;
        x ^= x << 17;
        self.0 = x;
        x
    }
}

#[test]
fn a_repeated_triple_keeps_every_token() {
    let exchange = Exchange::from_tokens(
        Role::User,
        ["p", "q", "r", "t", "p", "q", "r"]
            .iter()
            .map(|t| t.as_bytes().to_vec())
            .collect(),
    );
    let report = exchange.roundtrip();
    assert!(report.all_exact());
    let words = |t: &str| -> Vec<Vec<u8>> {
        t.split(' ').map(|w| w.as_bytes().to_vec()).collect()
    };
    assert!(report.paths.contains(&words("p q r")));
    assert!(report.paths.contains(&words("p q r t p q r")));
}

#[test]
fn first_layers_survive_any_table() {
    let exchange = Exchange::from_text(Role::User, "a b c d a b c");
    let odd: Vec<Vec<u8>> = ["_START_\0_START_\0a", "b\0_END_\0c", "a", "zz", "a\0b\0c\0d", ""]
        .iter()
        .map(|t| t.as_bytes().to_vec())
        .collect();
    let report = roundtrip_exchange_with_extra_tokens(&exchange, &odd);
    assert!(report.hll_1_exact);
    let plain: Vec<Vec<u8>> = (0..50u32).map(|i| format!("x{i}\0y{i}\0z{i}").into_bytes()).collect();
    assert!(roundtrip_exchange_with_extra_tokens(&exchange, &plain).all_exact());
}

#[test]
fn long_exchanges_without_repeated_pairs_are_exact() {
    let tokens: Vec<Vec<u8>> = (0..300u32).map(|i| format!("w{i}").into_bytes()).collect();
    let report = Exchange::from_tokens(Role::User, tokens.clone()).roundtrip();
    assert!(report.all_exact());
    assert_eq!(report.paths, vec![tokens]);
}
