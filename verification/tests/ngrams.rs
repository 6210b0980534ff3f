use hllset::hashing::TOTAL_BITS;
use hllset::ngrams::{
    end_marker, generate_ngrams, is_boundary, join_tokens, pad_tokens, split_ngram, start_marker,
    token_bit_position,
};

fn tok(s: &str) -> Vec<u8> {
    s.as_bytes().to_vec()
}

#[test]
fn test_pad_tokens() {
    let tokens = vec![tok("a"), tok("b")];
    let padded = pad_tokens(&tokens);
    assert_eq!(padded.len(), 4);
    assert_eq!(padded[0], start_marker());
    assert_eq!(padded[3], end_marker());
}

#[test]
fn markers_are_spelled_out() {
    assert_eq!(start_marker(), b"_START_".to_vec());
    assert_eq!(end_marker(), b"_END_".to_vec());
    assert!(is_boundary(b"_START_"));
    assert!(is_boundary(b"_END_"));
    assert!(!is_boundary(b"_start_"));
}

#[test]
fn test_join_split_roundtrip() {
    let tokens = vec![tok("a"), tok("b"), tok("c")];
    let joined = join_tokens(&tokens);
    assert_eq!(joined, b"a\0b\0c");
    assert_eq!(split_ngram(&joined), tokens);
}

#[test]
fn splitting_keeps_empty_pieces() {
    assert!(split_ngram(b"").is_empty());
    assert_eq!(split_ngram(b"\0"), vec![tok(""), tok("")]);
    assert_eq!(split_ngram(b"a\0"), vec![tok("a"), tok("")]);
}

#[test]
fn test_generate_unigrams_no_pad() {
    let tokens = vec![tok("a"), tok("b")];
    let grams = generate_ngrams(&tokens, 1, false);
    assert_eq!(grams, vec![tok("a"), tok("b")]);
}

#[test]
fn test_generate_bigrams_padded() {
    let tokens = vec![tok("a"), tok("b")];
    let grams = generate_ngrams(&tokens, 2, true);
    assert_eq!(
        grams,
        vec![
            b"_START_\0a".to_vec(),
            b"a\0b".to_vec(),
            b"b\0_END_".to_vec()
        ]
    );
}

#[test]
fn test_generate_trigrams_single_token() {
    let tokens = vec![tok("a")];
    let grams = generate_ngrams(&tokens, 3, true);
    assert_eq!(grams, vec![b"_START_\0a\0_END_".to_vec()]);
}

#[test]
fn test_generate_empty() {
    assert!(generate_ngrams(&[], 1, false).is_empty());
    assert!(generate_ngrams(&[], 2, true).is_empty());
    assert!(generate_ngrams(&[], 3, true).is_empty());
}

#[test]
fn test_token_bit_position_range() {
    for word in ["hello", "world", "_START_", "_END_"] {
        let pos = token_bit_position(word.as_bytes());
        assert!(pos < TOTAL_BITS);
    }
}
