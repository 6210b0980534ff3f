use hllset::bridge::extract_3gram;
use hllset::exchange::{tokenize_text, Exchange, Role};
use hllset::ngrams::token_bit_position;

#[test]
fn test_from_text_layers() {
    let ex = Exchange::from_text(Role::User, "The cat sat");
    assert_eq!(
        ex.tokens,
        vec![b"the".to_vec(), b"cat".to_vec(), b"sat".to_vec()]
    );
    assert!(!ex.hll_1.is_empty());
    assert!(!ex.hll_2.is_empty());
    assert!(!ex.hll_3.is_empty());
    let manual = ex.hll_1.union(&ex.hll_2).union(&ex.hll_3);
    assert_eq!(ex.hll.popcount(), manual.popcount());
}

#[test]
fn test_empty_exchange_is_empty() {
    let ex = Exchange::from_text(Role::Assistant, "");
    assert!(ex.is_empty());
    assert!(ex.hll.is_empty());
    assert!(ex.hll_1.is_empty());
    assert!(ex.hll_2.is_empty());
    assert!(ex.hll_3.is_empty());
}

#[test]
fn exchange_test_single_token_exchange() {
    let ex = Exchange::from_tokens(Role::User, vec![b"ok".to_vec()]);
    assert_eq!(ex.ngrams(2).len(), 2);
    assert_eq!(ex.ngrams(3).len(), 1);
    assert_eq!(ex.ngrams(1), vec![b"ok".to_vec()]);
}

#[test]
fn test_bit_anchors_structure() {
    let ex = Exchange::from_text(Role::User, "the cat sat");
    let bit = token_bit_position(b"cat");
    let anchors = ex.bit_anchors(bit).unwrap();
    assert_eq!(anchors.tokens, vec![b"cat".to_vec()]);
    assert_eq!(anchors.left, vec![b"the".to_vec()]);
    assert_eq!(anchors.right, vec![b"sat".to_vec()]);
}

#[test]
fn test_deterministic_content_keys() {
    let a = Exchange::from_text(Role::User, "hello world");
    let b = Exchange::from_text(Role::User, "hello world");
    assert_eq!(a.hll.content_key(), b.hll.content_key());
    assert_eq!(a.hll_2.content_key(), b.hll_2.content_key());
}

#[test]
fn test_3gram_matches_bridge() {
    let tokens: Vec<Vec<u8>> = ["the", "cat", "sat", "on", "the", "mat"]
        .iter()
        .map(|t| t.as_bytes().to_vec())
        .collect();
    let ex = Exchange::from_tokens(Role::User, tokens.clone());
    let bridge = extract_3gram(&tokens);
    assert_eq!(ex.hll_3.content_key(), bridge.content_key());
    assert_eq!(ex.hll_3.popcount(), bridge.popcount());
}

#[test]
fn roles_toggle_and_label() {
    assert_eq!(Role::User.toggle(), Role::Assistant);
    assert_eq!(Role::Assistant.toggle(), Role::User);
    assert_eq!(Role::User.label(), "user");
    assert_eq!(Role::Assistant.label(), "assistant");
}

#[test]
fn text_is_spaced_tokens() {
    let ex = Exchange::from_tokens(Role::User, vec![b"a".to_vec(), b"b".to_vec()]);
    assert_eq!(ex.text, "a b");
    assert_eq!(
        tokenize_text("  Hello\tWORLD \n"),
        vec![b"hello".to_vec(), b"world".to_vec()]
    );
}

#[test]
fn broken_utf8_is_replaced_in_the_text() {
    let ex = Exchange::from_tokens(Role::User, vec![vec![0xff, b'a']]);
    assert_eq!(ex.text, "\u{fffd}a");
}

#[test]
fn only_ascii_space_parts_words() {
    let ex = Exchange::from_text(Role::User, "A\u{00A0}b C\u{000C}d");
    let words: Vec<Vec<u8>> =
        ["a\u{00A0}b", "c", "d"].iter().map(|w| w.as_bytes().to_vec()).collect();
    assert_eq!(ex.tokens, words);
    assert_eq!(tokenize_text("\u{00C9}t\u{00E9} \u{2003}X").len(), 2);
}

#[test]
fn words_come_back_as_their_own_text() {
    let words = ["\u{00E9}t\u{00E9}", "\u{1F980}", "x"];
    let tokens: Vec<Vec<u8>> = words.iter().map(|w| w.as_bytes().to_vec()).collect();
    assert_eq!(Exchange::from_tokens(Role::User, tokens).text, words.join(" "));
}
