use hllset::lattice::LatticeElement;
use hllset::tokenizer::Tokenizer;

fn bytes(ws: &[&str]) -> Vec<Vec<u8>> {
    ws.iter().map(|w| w.as_bytes().to_vec()).collect()
}

#[test]
fn test_tokenize_lua_text() {
    let e = Tokenizer::new().lowercase().apply("The Cat Sat On The Mat");
    assert!(e.hllset().popcount() > 0);
    assert!(e.key().starts_with("h:"));
}

#[test]
fn test_tokenize_lua_deterministic() {
    let key1 = Tokenizer::new().lowercase().apply("hello world").key().to_string();
    let key2 = Tokenizer::new().lowercase().apply("hello world").key().to_string();
    assert_eq!(key1, key2);
}

#[test]
fn test_tokenizer_factory_lua() {
    let e = Tokenizer::new().lowercase().apply("Hello Lua World");
    assert!(e.hllset().popcount() > 0);
}

#[test]
fn test_tokenizer_ngrams_lua() {
    let e = Tokenizer::new().lowercase().ngrams(1, 2).apply("the cat sat");
    assert!(e.hllset().popcount() > 0);
}

#[test]
fn test_tokenizer_pad_lua() {
    let tok = Tokenizer::new().lowercase().pad(b"<S>", b"</S>").ngrams(2, 2);
    assert!(tok.apply("hello world").hllset().popcount() > 0);
}

#[test]
fn test_tokenizer_tokenize_returns_tokens() {
    let tokens = Tokenizer::new().lowercase().tokenize("hello world");
    let n = tokens.len();
    assert!(n >= 2, "expected >= 2 tokens, got {n}");
    assert_eq!(tokens[0], b"hello");
    assert_eq!(tokens[1], b"world");
}

#[test]
fn capitals_stay_unless_made_small() {
    assert_eq!(Tokenizer::new().tokenize(" The  CAT "), bytes(&["The", "CAT"]));
    assert_eq!(Tokenizer::new().lowercase().tokenize(" The  CAT "), bytes(&["the", "cat"]));
    assert!(Tokenizer::new().tokenize(" \t ").is_empty());
}

#[test]
fn ngrams_come_size_after_size() {
    let tok = Tokenizer::new().ngrams(1, 2);
    assert_eq!(tok.tokenize("a b c"), bytes(&["a", "b", "c", "a\0b", "b\0c"]));
    assert_eq!(
        Tokenizer::new().ngrams(3, 9).tokenize("a b c d"),
        bytes(&["a\0b\0c", "b\0c\0d", "a\0b\0c\0d"])
    );
    assert!(Tokenizer::new().ngrams(2, 1).tokenize("a b").is_empty());
    assert!(Tokenizer::new().ngrams(0, 0).tokenize("a b").is_empty());
}

#[test]
fn bounds_stand_around_the_words() {
    let tok = Tokenizer::new().pad(b"<S>", b"</S>").ngrams(2, 2);
    assert_eq!(tok.tokenize("a b"), bytes(&["<S>\0a", "a\0b", "b\0</S>"]));
    assert_eq!(tok.tokenize(""), bytes(&["<S>\0</S>"]));
    let by_hand = LatticeElement::from_tokens(&tok.tokenize("a b"));
    assert_eq!(tok.apply("a b").key(), by_hand.key());
}
