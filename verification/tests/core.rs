use hllset::commit::Commit;
use hllset::content_addr::{
    commit_key_from_bytes, content_key_from_catalog, content_key_from_tokens,
    departed_key_from_tokens, is_valid_prefix, llm_context_key_from_tokens, make_cid,
    new_key_from_tokens, ontological_key, original_key_from_tokens, parse_cid,
    retained_key_from_tokens, system_key, user_key_from_uuid, view_key_from_tokens,
};
use hllset::hashing::sha1_hex;
use hllset::tfvec::{TFVec, TFVEC_BYTES, TF_ENTRIES};

fn toks(words: &[&str]) -> Vec<Vec<u8>> {
    words.iter().map(|w| w.as_bytes().to_vec()).collect()
}

#[test]
fn test_new_creates_commit() {
    let c = Commit::new("o:aaaa", "t:bbbb", "d:cccc", "r:dddd", "n:eeee");
    assert_eq!(c.source, "o:aaaa");
    assert_eq!(c.head, "t:bbbb");
    assert_eq!(c.departed, "d:cccc");
    assert_eq!(c.retained, "r:dddd");
    assert_eq!(c.new, "n:eeee");
    assert!(c.timestamp > 0);
}

#[test]
fn test_json_roundtrip() {
    let c = Commit::new("o:aaaa", "t:bbbb", "d:cccc", "r:dddd", "n:eeee");
    let json = c.to_json();
    let c2: serde_json::Value = serde_json::from_str(&json).unwrap();
    assert_eq!(c2["s"].as_str(), Some(c.source.as_str()));
    assert_eq!(c2["r"].as_str(), Some(c.retained.as_str()));
    assert_eq!(c2["h"].as_str(), Some(c.head.as_str()));
    assert_eq!(c2["d"].as_str(), Some(c.departed.as_str()));
    assert_eq!(c2["n"].as_str(), Some(c.new.as_str()));
    assert_eq!(c2["ts"].as_u64(), Some(c.timestamp));
}

#[test]
fn commit_json_is_spelled_out() {
    let c = Commit::at(7, "o:\"s\"", "t:h", "d:d", "r:r", "n:n");
    assert_eq!(
        c.to_json(),
        "{\"d\":\"d:d\",\"h\":\"t:h\",\"n\":\"n:n\",\"r\":\"r:r\",\
         \"s\":\"o:\\\"s\\\"\",\"ts\":7}"
    );
}

#[test]
fn test_content_key() {
    let c = Commit::new("o:s1", "t:h1", "d:d1", "r:r1", "n:n1");
    let key = c.content_key();
    assert!(key.starts_with("t:"), "key = {key}");
    assert_eq!(key.len(), 42);
}

#[test]
fn test_content_key_deterministic() {
    let c1 = Commit::new("o:s1", "t:h1", "d:d1", "r:r1", "n:n1");
    let c2 = Commit::new("o:s1", "t:h1", "d:d1", "r:r1", "n:n1");
    assert!(c1.content_key().starts_with("t:"));
    assert!(c2.content_key().starts_with("t:"));
    assert_eq!(c1.content_key().len(), 42);
}

#[test]
fn test_chain_validation() {
    let c = Commit::new("o:s1", "t:prev_head", "d:d1", "r:r1", "n:n1");
    assert!(c.chain_valid("t:prev_head"));
    assert!(!c.chain_valid("t:wrong_head"));
}

#[test]
fn test_content_key_from_tokens_deterministic() {
    let k1 = content_key_from_tokens(&toks(&["hello", "world"]));
    let k2 = content_key_from_tokens(&toks(&["world", "hello"]));
    assert_eq!(k1, k2, "key must be order-independent");
}

#[test]
fn test_content_key_from_tokens_prefix() {
    let key = content_key_from_tokens(&toks(&["test"]));
    assert!(key.starts_with("h:"));
    assert_eq!(key.len(), 42);
}

#[test]
fn test_content_key_from_tokens_dedup() {
    let k1 = content_key_from_tokens(&toks(&["a", "a", "b"]));
    let k2 = content_key_from_tokens(&toks(&["a", "b"]));
    assert_eq!(k1, k2, "duplicates should not affect key");
}

#[test]
fn test_content_key_different_for_different_data() {
    let k1 = content_key_from_tokens(&toks(&["x"]));
    let k2 = content_key_from_tokens(&toks(&["y"]));
    assert_ne!(k1, k2);
}

#[test]
fn test_catalog_key_prefix() {
    let key = content_key_from_catalog(&toks(&["alice@example.com"]));
    assert!(key.starts_with("c:"));
    assert_eq!(key.len(), 42);
}

#[test]
fn test_ontological_key_deterministic() {
    let k1 = ontological_key("a3f82c1d", 42);
    let k2 = ontological_key("a3f82c1d", 42);
    assert_eq!(k1, k2);
}

#[test]
fn test_ontological_key_differs_by_seq() {
    let k1 = ontological_key("a3f82c1d", 1);
    let k2 = ontological_key("a3f82c1d", 2);
    assert_ne!(k1, k2);
}

#[test]
fn test_valid_prefixes() {
    assert!(is_valid_prefix("h"));
    assert!(is_valid_prefix("o"));
    assert!(is_valid_prefix("r"));
    assert!(is_valid_prefix("d"));
    assert!(is_valid_prefix("n"));
    assert!(is_valid_prefix("t"));
    assert!(is_valid_prefix("v"));
    assert!(is_valid_prefix("l"));
    assert!(is_valid_prefix("c"));
    assert!(is_valid_prefix("u"));
    assert!(!is_valid_prefix("x"));
    assert!(!is_valid_prefix(""));
}

#[test]
fn test_make_cid() {
    let cid = make_cid("h", "a3f82c1d00000000000000000000000000000000").unwrap();
    assert_eq!(cid, "h:a3f82c1d00000000000000000000000000000000");
}

#[test]
fn test_make_cid_invalid_prefix() {
    assert!(make_cid("x", "a3f82c1d00000000000000000000000000000000").is_none());
}

#[test]
fn test_make_cid_invalid_sha1() {
    assert!(make_cid("h", "too_short").is_none());
}

#[test]
fn test_parse_cid() {
    let (prefix, sha1) = parse_cid("h:a3f82c1d00000000000000000000000000000000").unwrap();
    assert_eq!(prefix, "h");
    assert_eq!(sha1, "a3f82c1d00000000000000000000000000000000");
}

#[test]
fn test_parse_cid_invalid() {
    assert!(parse_cid("x:abc").is_none());
    assert!(parse_cid("h:short").is_none());
    assert!(parse_cid("no_colon").is_none());
}

#[test]
fn test_original_key() {
    let key = original_key_from_tokens(&toks(&["source"]));
    assert!(key.starts_with("o:"));
    assert_eq!(key.len(), 42);
}

#[test]
fn test_retained_key() {
    let key = retained_key_from_tokens(&toks(&["shared"]));
    assert!(key.starts_with("r:"));
}

#[test]
fn test_departed_key() {
    let key = departed_key_from_tokens(&toks(&["old"]));
    assert!(key.starts_with("d:"));
}

#[test]
fn test_new_key() {
    let key = new_key_from_tokens(&toks(&["fresh"]));
    assert!(key.starts_with("n:"));
}

#[test]
fn test_view_key() {
    let key = view_key_from_tokens(&toks(&["ephemeral"]));
    assert!(key.starts_with("v:"));
}

#[test]
fn test_llm_context_key() {
    let key = llm_context_key_from_tokens(&toks(&["doc comment"]));
    assert!(key.starts_with("l:"));
}

#[test]
fn test_user_key() {
    let key = user_key_from_uuid("550e8400e29b41d4a716446655440000").unwrap();
    assert_eq!(key, "u:550e8400e29b41d4a716446655440000");
}

#[test]
fn test_user_key_rejects_invalid() {
    assert!(user_key_from_uuid("too_short").is_none());
}

#[test]
fn test_system_key() {
    let key = system_key("tf");
    assert_eq!(key, "system:tf");
}

#[test]
fn test_commit_key() {
    let key = commit_key_from_bytes(b"{\"ts\":123}");
    assert!(key.starts_with("t:"));
    assert_eq!(key.len(), 42);
}

#[test]
fn test_all_prefix_keys_are_deterministic() {
    let tokens = toks(&["x", "y"]);
    let k1 = content_key_from_tokens(&tokens);
    let k2 = content_key_from_tokens(&tokens);
    assert_eq!(k1, k2);
    let o1 = original_key_from_tokens(&tokens);
    let o2 = original_key_from_tokens(&tokens);
    assert_eq!(o1, o2);
}

#[test]
fn test_new_is_zeroed() {
    let tf = TFVec::new();
    assert_eq!(tf.len(), TF_ENTRIES);
    assert!(tf.is_empty());
}

#[test]
fn test_roundtrip_bytes() {
    let mut values = vec![0u64; TF_ENTRIES];
    values[0] = 1.5f64.to_bits();
    values[100] = 42.0f64.to_bits();
    values[32767] = 0.125f64.to_bits();
    let tf = TFVec::from_values(values).unwrap();

    let bytes = tf.to_bytes();
    assert_eq!(bytes.len(), TFVEC_BYTES);

    let tf2 = TFVec::from_bytes(&bytes).unwrap();
    assert_eq!(tf.values, tf2.values);
    assert_eq!(f64::from_bits(tf2.get(100)), 42.0);
}

#[test]
fn test_from_bytes_wrong_size_rejected() {
    let bad_bytes = vec![0u8; 10];
    assert!(TFVec::from_bytes(&bad_bytes).is_none());
}

#[test]
fn test_from_values_wrong_len_rejected() {
    assert!(TFVec::from_values(vec![1.0f64.to_bits()]).is_none());
}

#[test]
fn generated_keys_parse() {
    let tokens = vec![b"a".to_vec(), b"b".to_vec()];
    let key = original_key_from_tokens(&tokens);
    let (prefix, digest) = parse_cid(&key).unwrap();
    assert_eq!(prefix, "o");
    assert_eq!(digest, sha1_hex(b"a\0b"));
    assert_eq!(parse_cid(&commit_key_from_bytes(b"x")).unwrap().0, "t");
}
