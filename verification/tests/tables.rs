use hllset::chunks::{plan_query, ChunkId, ChunkLedger};
use hllset::engines::{FPGASimEngine, InMemoryEngine, MaterializeEngine, MaterializeRegistry};
use hllset::hashing::{token_to_position, BitAddress};
use hllset::hllset::HLLSet;
use hllset::ingest::{Ingest, N_SEEDS, SEEDS};
use hllset::lut::{merkle_root, AtomTree, LutIndex, LutNode, Token};
use hllset::materialize::{materialize, Encoding};
use hllset::token::{token_in_bytes, token_in_bytes_le};
use std::collections::BTreeSet;

fn t(n: u32) -> Token {
    token_in_bytes(n)
}

fn node(label: &str, ids: std::ops::Range<u32>) -> LutNode {
    let tokens: Vec<Token> = ids.map(t).collect();
    LutNode::new(label.to_string(), &tokens)
}

fn sketch(tokens: &[Token]) -> HLLSet {
    HLLSet::from_tokens(tokens)
}

fn words(ws: &[&str]) -> Vec<Vec<u8>> {
    ws.iter().map(|w| w.as_bytes().to_vec()).collect()
}

fn assert_same_atoms(a: &HLLSet, tree: &AtomTree) {
    let atoms: Vec<u32> = a.bit_addresses().iter().map(|x| x.bit()).collect();
    assert_eq!(atoms, tree.atoms, "sketch and tree present the same atoms");
    assert_eq!(merkle_root(&atoms), tree.root(), "and the same root");
}

#[test]
fn fibers_partition_the_lut_node() {
    let lut = node("demo", 0..40);
    let idx = LutIndex::build(&lut);

    let mut seen = BTreeSet::new();
    let tokens = lut.tokens.to_vec();
    for token in &tokens {
        let i = BitAddress::of_token(token).bit();
        assert!(idx.fiber(i).contains(token));
        seen.insert(i);
    }
    assert_eq!(
        seen.len(),
        tokens
            .iter()
            .map(|x| BitAddress::of_token(x).bit())
            .collect::<BTreeSet<_>>()
            .len()
    );
}

#[test]
fn materialization_is_a_join_over_fibers() {
    let lut = node("demo", 0..64);
    let idx = LutIndex::build(&lut);
    let h = sketch(&[t(3), t(7), t(200)]);

    let joined: BTreeSet<Token> = h
        .bit_addresses()
        .iter()
        .flat_map(|addr| idx.fiber(addr.bit()).to_vec())
        .collect();
    let got: BTreeSet<Token> = idx.materialize(&h).to_vec().into_iter().collect();
    assert_eq!(got, joined);
    assert_eq!(idx.materialize(&h).len(), 2, "only tid3 and tid7 restore");
}

#[test]
fn materialization_is_a_join_homomorphism() {
    let l1 = node("L1", 0..32);
    let l2 = node("L2", 16..48);
    let all = l1.union(&l2);
    let h = sketch(&[t(0), t(20), t(40), t(999)]);

    let m_all = LutIndex::build(&all).materialize(&h);
    let m1 = LutIndex::build(&l1).materialize(&h);
    let m2 = LutIndex::build(&l2).materialize(&h);
    assert!(m_all.same(&m1.union(&m2)));
}

#[test]
fn slice_and_gate_are_the_same_morphism() {
    let lut = node("tokenLUT_1", 0..64);
    let vocab = node("gateLUT", 0..16);
    let h = sketch(&[t(5), t(50)]);

    let slice = LutIndex::build(&lut).materialize(&h);
    let gate = LutIndex::build(&vocab).materialize(&h);
    assert_eq!(slice.len(), 2, "slice restores all candidates");
    assert_eq!(gate.len(), 1, "gate restores only the vocabulary node");
    assert!(gate.is_subset(&slice));
}

#[test]
fn default_restoration_is_the_full_image() {
    let l1 = node("tokenLUT_1", 0..32);
    let l2 = node("tokenLUT_2", 32..64);
    let all_known = l1.union(&l2);
    let h = sketch(&[t(1), t(40)]);

    let full = LutIndex::build(&all_known).materialize(&h);
    let per_node: BTreeSet<Token> = [&l1, &l2]
        .iter()
        .flat_map(|l| LutIndex::build(l).materialize(&h).to_vec())
        .collect();
    let got: BTreeSet<Token> = full.to_vec().into_iter().collect();
    assert_eq!(got, per_node);
}

#[test]
fn k_i_is_a_node_and_its_hllset_is_the_atom() {
    let tokens: Vec<Token> = (0..256u32).map(t).collect();
    let i = BitAddress::of_token(&t(44)).bit();
    let k_i = LutNode::fiber("K_i".to_string(), i, &tokens);

    assert!(!k_i.tokens.is_empty());
    assert!(k_i
        .tokens
        .to_vec()
        .iter()
        .all(|x| BitAddress::of_token(x).bit() == i));

    let atom = k_i.to_hllset();
    assert_eq!(atom.popcount(), 1);
    assert_eq!(atom.bit_addresses()[0].bit(), i);
}

#[test]
fn the_finest_symmetry_holds() {
    let lut = node("tokenLUT_all", 0..300);
    let from_tokens = lut.to_hllset();
    let tree = AtomTree::from_lut(&lut);

    assert_same_atoms(&from_tokens, &tree);
    assert_eq!(from_tokens.popcount(), tree.atoms.len() as u64);

    let h = sketch(&[t(10), t(100), t(1000)]);
    assert_same_atoms(&h, &AtomTree::from_hllset(&h));
}

#[test]
fn test_in_memory_roundtrip() {
    let mut e = InMemoryEngine::new("t");
    e.build(&words(&["hello", "world"]));
    let (r, z) = token_to_position(b"hello");
    let h = sketch(&words(&["hello"]));
    let r = e.materialize(&h, &[(r as u16, z as u8)]).unwrap();
    assert!(r.iter().any(|t| t == b"hello"));
}

#[test]
fn test_registry() {
    let mut e1 = InMemoryEngine::new("a");
    e1.build(&words(&["one"]));
    let e2 = InMemoryEngine::new("b");
    let mut reg = MaterializeRegistry::new();
    reg.register("lut:a", Box::new(e1));
    reg.register("lut:b", Box::new(e2));
    assert!(reg.get("lut:a").is_some());
    assert!(reg.get("lut:c").is_none());
    assert_eq!(reg.get("lut:a").unwrap().lut_count(), 1);
    assert_eq!(reg.get("lut:a").unwrap().name(), "a");
}

#[test]
fn test_fpga_matches_memory() {
    let mut ref_e = InMemoryEngine::new("ref");
    ref_e.build(&words(&["t1", "t2"]));
    let mut fpga = FPGASimEngine::new("fpga", 3);
    fpga.build(&words(&["t1", "t2"]));
    let (r, z) = token_to_position(b"t1");
    let h = sketch(&words(&["t1"]));
    let a = ref_e.materialize(&h, &[(r as u16, z as u8)]).unwrap();
    let b = fpga.materialize(&h, &[(r as u16, z as u8)]).unwrap();
    assert_eq!(a, b, "the simulation must match the reference");
}

#[test]
fn test_extract_positions() {
    let h = sketch(&words(&["x", "y", "z"]));
    let pos = InMemoryEngine::extract_positions(&h);
    assert!(!pos.is_empty());
    for (r, _) in &pos {
        assert!(*r < 1024);
    }
}

#[test]
fn hardware_engines_are_preferred() {
    let mut reg = MaterializeRegistry::new();
    reg.register("k", Box::new(FPGASimEngine::new("hw", 3)));
    reg.register("s", Box::new(InMemoryEngine::new("sw")));
    assert_eq!(reg.hardware_engines().len(), 1);
    assert!(reg.best_for("k").unwrap().is_hardware());
    assert_eq!(reg.list().len(), 2);
}

#[test]
fn single_touch_is_complete() {
    let mut ingest = Ingest::new();
    let tokens: Vec<Vec<u8>> = (0..200u32).map(token_in_bytes).collect();

    ingest.ingest_tokens(&tokens);

    assert_eq!(ingest.touched, 200, "exactly one touch per token");

    for seed in 0..N_SEEDS {
        for token in &tokens {
            let addr = BitAddress::of_token_seeded(token, SEEDS[seed]);
            assert!(
                ingest
                    .hllset(seed)
                    .bit_addresses()
                    .iter()
                    .any(|a| a.bit() == addr.bit()),
                "atom {addr:?} missing from seed {seed}"
            );
            assert!(ingest.lut(seed).fiber(addr.bit()).contains(token));
        }
    }

    assert_eq!(ingest.tf().count(&tokens[7]), 1);
    ingest.ingest_token(&tokens[7]);
    assert_eq!(ingest.tf().count(&tokens[7]), 2, "counts are monotonic");
}

#[test]
fn lut_is_first_tf_only_breaks_ambiguity() {
    let mut ingest = Ingest::new();
    let a = token_in_bytes_le(262).to_vec();
    let b = token_in_bytes_le(48_300).to_vec();
    ingest.ingest_token(&a);
    ingest.ingest_token(&a);
    ingest.ingest_token(&b);

    let mut sketch = HLLSet::new();
    sketch.add_bit(759 * 32 + 0);

    let pairs = [Encoding {
        hllset: &sketch,
        lut: ingest.lut(0),
    }];
    let restored = materialize(&pairs, ingest.tf());
    assert_eq!(restored.to_vec(), vec![a.clone()], "the higher count wins");
}

#[test]
fn unambiguous_bit_ignores_tf() {
    let mut ingest = Ingest::new();
    let rare = token_in_bytes(1);
    let frequent = token_in_bytes(2);
    ingest.ingest_token(&rare);
    for _ in 0..100 {
        ingest.ingest_token(&frequent);
    }

    let mut sketch = HLLSet::new();
    sketch.add_bit(BitAddress::of_token_seeded(&rare, 0).bit());

    let pairs = [Encoding {
        hllset: &sketch,
        lut: ingest.lut(0),
    }];
    let restored = materialize(&pairs, ingest.tf());
    assert_eq!(restored.to_vec(), vec![rare]);
}

#[test]
fn high_tf_token_outside_the_luts_never_appears() {
    let mut ingest = Ingest::new();
    let in_lut = token_in_bytes(5);
    let outside = token_in_bytes(6);
    ingest.ingest_token(&in_lut);
    for _ in 0..1000 {
        ingest.ingest_token(&outside);
    }
    let mut lut_only_in = LutIndex::new();
    lut_only_in.insert_token(in_lut.clone());

    let mut sketch = HLLSet::new();
    sketch.add_bit(BitAddress::of_token_seeded(&in_lut, 0).bit());

    let pairs = [Encoding {
        hllset: &sketch,
        lut: &lut_only_in,
    }];
    let restored = materialize(&pairs, ingest.tf());
    assert_eq!(restored.to_vec(), vec![in_lut]);
}

#[test]
fn candidates_come_from_all_pointed_luts() {
    let ingest = Ingest::new();
    let t0 = token_in_bytes(10);
    let t1 = token_in_bytes(20);
    let t2 = token_in_bytes(30);

    let mut s0 = HLLSet::new();
    s0.add_bit(BitAddress::of_token_seeded(&t0, 0).bit());
    let mut l0 = LutIndex::new();
    l0.insert_token_seeded(t0.clone(), 0);

    let mut s1 = HLLSet::new();
    s1.add_bit(BitAddress::of_token_seeded(&t1, 1).bit());
    let mut l1 = LutIndex::new();
    l1.insert_token_seeded(t1.clone(), 1);

    let mut s2 = HLLSet::new();
    s2.add_bit(BitAddress::of_token_seeded(&t2, 2).bit());
    let mut l2 = LutIndex::new();
    l2.insert_token_seeded(t2.clone(), 2);

    let pairs = [
        Encoding {
            hllset: &s0,
            lut: &l0,
        },
        Encoding {
            hllset: &s1,
            lut: &l1,
        },
        Encoding {
            hllset: &s2,
            lut: &l2,
        },
    ];
    let all = materialize(&pairs, ingest.tf());
    let got: BTreeSet<Token> = all.to_vec().into_iter().collect();
    assert_eq!(got, BTreeSet::from([t0.clone(), t1.clone(), t2.clone()]));
    let only_l0 = materialize(&pairs[..1], ingest.tf());
    assert_eq!(only_l0.to_vec(), vec![t0]);
}

#[test]
fn test_routing() {
    let r = token_to_position(b"x").0 as u16;
    assert_eq!(ChunkId::chunk_for_reg(r), ChunkId::chunk_for_reg(r));
    assert_eq!(ChunkId::chunk_for_reg(0), 0);
    assert_eq!(ChunkId::chunk_for_reg(255), 0);
    assert_eq!(ChunkId::chunk_for_reg(256), 1);
    assert_eq!(ChunkId::chunk_for_reg(1023), 3);
}

#[test]
fn only_filled_chunks_persist() {
    let mut l = ChunkLedger::new();
    let mut n = 0;
    for i in 0..2000 {
        let t = format!("t{}", i);
        if ChunkId::chunk_for_reg(token_to_position(t.as_bytes()).0 as u16) == 0 {
            let row = l.route(t.as_bytes());
            l.record(row.chunk);
            n += 1;
        }
    }
    assert!(n > 0);
    assert_eq!(l.chunk_count(0), n);
    let (filled, _) = l.to_persist();
    assert_eq!(filled, vec![0]);
}

#[test]
fn queries_are_planned_by_chunk() {
    let plan = plan_query(&[(0, 1), (300, 2), (5, 3)]);
    let chunks: Vec<usize> = plan.iter().map(|q| q.chunk).collect();
    assert_eq!(chunks, vec![0, 1]);
    assert_eq!(
        plan[0].sql,
        "SELECT DISTINCT t FROM lut WHERE (r,z) IN ((0,1),(5,3))"
    );
    assert!(plan_query(&[]).is_empty());
}

#[test]
fn storage_keys_of_chunks() {
    let keys: Vec<String> = ChunkId::all_for("a").iter().map(|c| c.storage_key()).collect();
    assert_eq!(keys.len(), 4);
    assert!(keys.iter().all(|k| k.starts_with("lut:a:")));
}

#[test]
fn an_ingested_list_is_restored_from_one_encoding() {
    let mut ingest = Ingest::new();
    let (a, b) = (token_in_bytes_le(262).to_vec(), token_in_bytes_le(48_300).to_vec());
    let lone = b"lone".to_vec();
    ingest.ingest_tokens(&[a.clone(), b.clone(), b.clone(), lone.clone()]);
    let one = |seed: usize| Encoding { hllset: ingest.hllset(seed), lut: ingest.lut(seed) };
    let mut expected = vec![b.clone(), lone.clone()];
    expected.sort();
    assert_eq!(materialize(&[one(0)], ingest.tf()).to_vec(), expected);
    assert!(materialize(&[one(1)], ingest.tf()).contains(&lone));
}

#[test]
fn ingest_tables_hold_what_was_ingested() {
    let mut ingest = Ingest::new();
    assert!(ingest.tf().is_empty());
    let tokens: Vec<Vec<u8>> = ["a", "b", "a"].iter().map(|t| t.as_bytes().to_vec()).collect();
    ingest.ingest_tokens(&tokens);
    assert_eq!(ingest.tf().len(), 2);
    assert_eq!((ingest.tf().count(b"a"), ingest.tf().count(b"c")), (2, 0));
}
