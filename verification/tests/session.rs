use hllset::lattice::LatticeElement;
use hllset::memory::MemoryStorage;
use hllset::session::{inscribe, LoadError, ScriptValue, Session};
use hllset::storage::Storage;

fn element(words: &[&str]) -> LatticeElement {
    let tokens: Vec<Vec<u8>> = words.iter().map(|w| w.as_bytes().to_vec()).collect();
    LatticeElement::from_tokens(&tokens)
}

#[test]
fn inscription_reads_strings_and_numbers() {
    let e = inscribe(&[
        ScriptValue::Text("hello".into()),
        ScriptValue::Integer(-7),
        ScriptValue::Other,
        ScriptValue::Number("2.5".into()),
    ]);
    assert!(e.same_key(&element(&["hello", "-7", "2.5"])));
    assert!(inscribe(&[ScriptValue::Other]).is_empty());
}

#[test]
fn stored_elements_are_loaded_by_key() {
    let mut s = Session::new(MemoryStorage::new());
    let e = element(&["a", "b"]);
    s.store_element(&e).unwrap();
    let back = s.load_element(e.key()).unwrap().unwrap();
    assert_eq!(back.key(), e.key());
    assert_eq!(back.popcount(), e.popcount());
    assert!(s.load_element("h:nothing").unwrap().is_none());
    s.storage.put("h:short", b"bytes").unwrap();
    assert!(matches!(s.load_element("h:short"), Err(LoadError::InvalidData)));
}

#[test]
fn elements_are_kept_by_name() {
    let mut s = Session::new(MemoryStorage::new());
    assert!(s.get("x").is_none());
    s.store("x", element(&["one"]));
    s.store("x", element(&["two"]));
    assert!(s.get("x").unwrap().same_key(&element(&["two"])));
}

#[test]
fn elements_compare_by_their_bits() {
    let a = element(&["x", "y"]);
    let b = element(&["y", "z"]);
    let both = a.union(&b);
    let shared = a.intersection(&b);
    assert!(shared.is_subset_of(&a) && both.is_superset_of(&b));
    assert!(!a.is_subset_of(&b));
    let s = a.bss_inclusion(&b);
    assert_eq!((s.part, s.whole), (shared.popcount(), b.popcount()));
    let s = a.bss_exclusion(&b);
    assert_eq!((s.part, s.whole), (a.difference(&b).popcount(), b.popcount()));
    let s = a.jaccard_similarity(&b);
    assert_eq!((s.part, s.whole), (shared.popcount(), both.popcount()));
    assert_eq!(format!("h:{}", a.content_hash()), a.key());
    assert!(a.into_hllset().same(element(&["y", "x"]).hllset()));
}
