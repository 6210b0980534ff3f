use hllset::cid::Cid;
use hllset::hashing::sha1_hex;

#[test]
fn content_is_identity() {
    assert_eq!(
        Cid::compute(b"hello").to_string(),
        format!("h:{}", sha1_hex(b"hello"))
    );
}

#[test]
fn deterministic_and_distinct() {
    assert!(Cid::compute(b"a").same(&Cid::compute(b"a")));
    assert!(!Cid::compute(b"a").same(&Cid::compute(b"b")));
    assert_ne!(Cid::compute(b"a").as_str().len(), 0);
}

#[test]
fn matches_contracts_sha1() {
    let cid = Cid::compute(b"hello world");
    assert_eq!(cid.as_str(), sha1_hex(b"hello world"));
    assert_eq!(cid.prefixed(), format!("h:{}", sha1_hex(b"hello world")));
}
