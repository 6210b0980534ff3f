use hllset::memory::MemoryStorage;
use hllset::storage::Storage;

#[test]
fn test_store_and_load() {
    let mut s = MemoryStorage::new();
    s.store("h:abc", b"hello").unwrap();
    assert!(s.is_stored("h:abc").unwrap());
    assert_eq!(s.load("h:abc").unwrap(), Some(b"hello".to_vec()));
}

#[test]
fn test_missing_returns_none() {
    let s = MemoryStorage::new();
    assert_eq!(s.load("h:nonexistent").unwrap(), None);
    assert!(!s.is_stored("h:nonexistent").unwrap());
}

#[test]
fn test_delete() {
    let mut s = MemoryStorage::new();
    s.store("h:x", b"test").unwrap();
    assert!(s.delete("h:x").unwrap());
    assert!(!s.is_stored("h:x").unwrap());
    assert!(!s.delete("h:x").unwrap());
}

#[test]
fn test_list_by_prefix() {
    let mut s = MemoryStorage::new();
    s.store("h:a", b"1").unwrap();
    s.store("h:b", b"2").unwrap();
    s.store("c:x", b"3").unwrap();

    let h_keys = s.list("h:").unwrap();
    assert_eq!(h_keys.len(), 2);
    let c_keys = s.list("c:").unwrap();
    assert_eq!(c_keys.len(), 1);
}

#[test]
fn test_put_get_has() {
    let mut s = MemoryStorage::new();
    s.put("h:canon", b"data").unwrap();
    assert!(s.has("h:canon").unwrap());
    assert_eq!(s.get("h:canon").unwrap(), Some(b"data".to_vec()));
}

#[test]
fn the_first_write_stays() {
    let mut s = MemoryStorage::new();
    s.put("h:k", b"one").unwrap();
    s.put("h:k", b"two").unwrap();
    assert_eq!(s.get("h:k").unwrap(), Some(b"one".to_vec()));
}

#[test]
fn test_put_tmp_and_get_tmp() {
    let mut s = MemoryStorage::new();
    s.put_tmp("system:test", b"temporal data").unwrap();
    let val = s.get_tmp("system:test").unwrap();
    assert_eq!(val, Some(b"temporal data".to_vec()));
}

#[test]
fn test_get_tmp_missing() {
    let s = MemoryStorage::new();
    assert_eq!(s.get_tmp("system:nonexistent").unwrap(), None);
}

#[test]
fn test_cas_tmp_success() {
    let mut s = MemoryStorage::new();
    s.put_tmp("system:head", b"old_cid").unwrap();
    let ok = s.cas_tmp("system:head", b"old_cid", b"new_cid").unwrap();
    assert!(ok);
    assert_eq!(s.get_tmp("system:head").unwrap(), Some(b"new_cid".to_vec()));
}

#[test]
fn test_cas_tmp_mismatch() {
    let mut s = MemoryStorage::new();
    s.put_tmp("system:head", b"actual_value").unwrap();
    let result = s.cas_tmp("system:head", b"expected_value", b"new_value");
    assert!(result.is_err());
}

#[test]
fn test_cas_tmp_missing_key() {
    let mut s = MemoryStorage::new();
    let result = s.cas_tmp("system:unknown", b"old", b"new");
    assert!(result.is_err());
}

#[test]
fn test_memory_storage_still_works() {
    let mut s = MemoryStorage::new();
    s.store("h:mem", b"data").unwrap();
    assert_eq!(s.load("h:mem").unwrap().unwrap(), b"data");
}

#[test]
fn collecting_keeps_what_is_pinned() {
    let mut s = MemoryStorage::new();
    s.put("h:keep", b"1").unwrap();
    s.put("h:drop", b"2").unwrap();
    s.pin("h:keep").unwrap();
    let gone = s.gc().unwrap();
    assert_eq!(gone, vec!["h:drop".to_string()]);
    assert!(s.has("h:keep").unwrap());
    assert!(!s.has("h:drop").unwrap());
}
