use hllset::chunks::{plan_query, ChunkId};
use hllset::commit::Commit;
use hllset::context::ConversationContext;
use hllset::distributed::{BSSRouter, MultiSourceMerge, NodeFingerprint};
use hllset::engines::FPGASimEngine;
use hllset::exchange::{Exchange, Role};
use hllset::hashing::{token_to_position_seeded, BitAddress};
use hllset::hllset::HLLSet;
use hllset::matrix::TokenIndex;
use hllset::memory::MemoryStorage;
use hllset::roundtrip::roundtrip_exchange;
use hllset::storage::Storage;
use hllset::strategies::Materializer;
use hllset::tf::TfTable;
use hllset::tfvec::{TFVec, TF_ENTRIES};
use hllset::token::{parse_token_id, token_in_bytes};
use hllset::tokenlut::CatalogLUT;

fn words(ws: &[&str]) -> Vec<Vec<u8>> {
    ws.iter().map(|w| w.as_bytes().to_vec()).collect()
}

fn set(ws: &[&str]) -> HLLSet {
    HLLSet::from_tokens(&words(ws))
}

#[test]
fn planes_are_a_lattice() {
    let (a, b, c) = (set(&["p", "q"]), set(&["q", "r"]), set(&["r", "s"]));
    assert!(a.union(&b).same(&b.union(&a)));
    assert!(a.union(&b).union(&c).same(&a.union(&b.union(&c))));
    assert!(a.intersection(&a.union(&b)).same(&a));
    assert!(a
        .intersection(&b.union(&c))
        .same(&a.intersection(&b).union(&a.intersection(&c))));
    assert!(a.symmetric_difference(&b).same(&a.union(&b).difference(&a.intersection(&b))));
}

#[test]
fn planes_are_the_union_of_their_atoms() {
    let plane = set(&["a", "b", "c"]);
    let mut atoms = Vec::new();
    for bit in plane.bitmap() {
        let mut atom = HLLSet::new();
        atom.add_bit(bit);
        assert_eq!(atom.bit_addresses()[0], BitAddress::from_bit(bit));
        atoms.push(atom);
    }
    assert!(HLLSet::union_all(&atoms).same(&plane));
}

#[test]
fn dense_forms_read_back() {
    let plane = set(&["one", "two", "three"]);
    let again = HLLSet::from_bytes(&plane.to_bytes()).unwrap();
    assert!(again.same(&plane));
    assert_eq!(again.content_key(), plane.content_key());
    assert!(HLLSet::from_bytes(&[0; 4095]).is_none());
    let ones: u32 = plane.to_dense().iter().map(|w| w.count_ones()).sum();
    assert_eq!(u64::from(ones), plane.popcount());
}

#[test]
fn wire_forms_tell_commits_apart() {
    let a = Commit::at(7, "s\"", "h", "d", "r", "n");
    let b = Commit::at(7, "s", "\"h", "d", "r", "n");
    assert_ne!(a.to_json(), b.to_json());
    assert_ne!(a.content_key(), b.content_key());
    assert_eq!(
        a.to_json(),
        "{\"d\":\"d\",\"h\":\"h\",\"n\":\"n\",\"r\":\"r\",\"s\":\"s\\\"\",\"ts\":7}"
    );
    let odd = Commit::at(0, "\u{1}\t\u{1f}/é", "", "", "", "");
    let v: serde_json::Value = serde_json::from_str(&odd.to_json()).unwrap();
    assert_eq!(v["s"].as_str(), Some("\u{1}\t\u{1f}/é"));
}

#[test]
fn inscriptions_parse_back() {
    for id in [0, 1, 9, 10, 4_294_967_295] {
        assert_eq!(parse_token_id(&token_in_bytes(id)), Some(id));
    }
}

#[test]
fn vectors_read_back() {
    let mut values = vec![0u64; TF_ENTRIES];
    values[3] = 1.5f64.to_bits();
    let tf = TFVec::from_values(values).unwrap();
    let again = TFVec::from_bytes(&tf.to_bytes()).unwrap();
    assert_eq!(f64::from_bits(again.get(3)), 1.5);
    assert!(!again.is_empty());
}

#[test]
fn collections_keep_what_is_pinned() {
    let mut s = MemoryStorage::new();
    s.put("h:a", b"1").unwrap();
    s.put("h:b", b"2").unwrap();
    s.pin("h:a").unwrap();
    assert_eq!(s.gc().unwrap(), vec!["h:b"]);
    assert_eq!(s.get("h:a").unwrap().unwrap(), b"1");
    assert!(s.gc().unwrap().is_empty());
}

#[test]
fn counts_merge_by_the_larger() {
    let mut a = TfTable::new();
    let mut b = TfTable::new();
    a.increment(b"x");
    a.increment(b"x");
    b.increment(b"x");
    b.increment(b"y");
    a.merge(&b);
    a.merge(&b);
    assert_eq!((a.count(b"x"), a.count(b"y")), (2, 1));
}

#[test]
fn adding_exchanges_keeps_what_was_there() {
    let mut ctx = ConversationContext::new();
    ctx.add_exchange(Exchange::from_text(Role::User, "the cat sat"));
    let before = ctx.top.hll.clone();
    let cells = ctx.matrix.total_follows();
    ctx.add_exchange(Exchange::from_text(Role::User, "the cat sat"));
    assert!(ctx.top.hll.same(&before));
    assert_eq!(ctx.matrix.total_follows(), 2 * cells);
    ctx.add_exchange(Exchange::from_text(Role::Assistant, "a dog ran"));
    assert!(before.is_subset(&ctx.top.hll));
    assert_eq!(Role::User.toggle().toggle(), Role::User);
}

#[test]
fn repeated_triples_round_trip() {
    for text in ["a a a a", "p q r t p q r", "a b c d a b c", "a b a b a b c a b"] {
        let exchange = Exchange::from_text(Role::User, text);
        assert!(roundtrip_exchange(&exchange).all_exact(), "{text}");
    }
}

#[test]
fn fingerprints_are_rebuilt_and_nodes_replaced() {
    let (a, b) = (set(&["a"]), set(&["b"]));
    let mut f = NodeFingerprint::new();
    f.add(&a);
    f.add(&b);
    f.remove(&a);
    assert_eq!(f.set_count(), 1);
    assert!(f.as_hllset().same(&a.union(&b)));
    f.rebuild(&[b.clone()]);
    assert!(f.as_hllset().same(&b));
    assert_eq!(f.set_count(), 1);
    let (covered, new) = (f.inclusion_of(&a.union(&b)), f.novelty_vs(&a.union(&b)));
    assert_eq!(covered.part + new.part, a.union(&b).popcount());
    let mut router = BSSRouter::new();
    router.add_node("n", &f);
    let mut g = NodeFingerprint::new();
    g.add(&a);
    router.update_node("n", &g);
    assert!(router.fingerprint("n").unwrap().as_hllset().same(&a));
    router.remove_node("n");
    assert!(router.is_empty());
    let mut merge = MultiSourceMerge::new();
    merge.add_response(a.clone());
    merge.add_response(a.clone());
    assert_eq!(merge.response_count(), 2);
    assert!(merge.merged().same(&a));
}

#[test]
fn chunks_cover_their_registers() {
    let ids = ChunkId::all_for("t");
    for reg in [0u16, 255, 256, 700, 1023] {
        let id = &ids[ChunkId::chunk_for_reg(reg)];
        assert!(id.reg_start <= reg && reg < id.reg_end);
    }
    assert_eq!(plan_query(&[(5, 1), (900, 2), (6, 3)]).len(), 2);
}

#[test]
fn simulated_time_grows_with_the_positions() {
    let engine = FPGASimEngine::new("sim", 3);
    assert_eq!(engine.simulated_cycles(0), 3);
    assert_eq!(engine.simulated_cycles(512), 5);
}

#[test]
fn collision_groups_are_listed_by_bit() {
    let mut index = TokenIndex::new();
    index.insert(b"x");
    index.insert(b"x");
    index.insert(b"y");
    let sizes = index.group_sizes();
    assert_eq!(sizes.len(), index.len());
    assert!(sizes.windows(2).all(|w| w[0].0 < w[1].0));
    assert_eq!(sizes.iter().map(|s| s.1).max(), Some(index.max_group_size()));
}

#[test]
fn catalogs_use_their_seeds() {
    let mut lut = CatalogLUT::new().with_seeds(&[5, 9]);
    lut.insert(b"v".to_vec());
    assert_eq!(lut.seed_count(), 2);
    assert_eq!(
        lut.positions_of(b"v"),
        Some(&vec![
            token_to_position_seeded(b"v", 5),
            token_to_position_seeded(b"v", 9)
        ])
    );
}

#[test]
fn ngrams_are_checked_against_their_tokens() {
    let tokens = words(&["a", "b", "a\0b", "a\0c"]);
    let mut m = Materializer::new();
    m.insert(&tokens);
    let found = m.ngram_cross_validate(&HLLSet::from_tokens(&tokens)).flat_tokens();
    assert!(found.contains(&b"a\0b".to_vec()));
    assert!(!found.contains(&b"a\0c".to_vec()));
}
