use hllset::collections::OrdSet;
use hllset::hashing::BitAddress;
use hllset::hllset::HLLSet;
use hllset::ingest::Ingest;
use hllset::materialize::{materialize, Encoding};
use hllset::noether::{evolve, invariants_hold, Context, FollowMatrix};
use hllset::token::token_in_bytes;
use std::collections::BTreeSet;

fn hll(ids: &[u32]) -> HLLSet {
    let tokens: Vec<Vec<u8>> = ids.iter().map(|&n| token_in_bytes(n)).collect();
    HLLSet::from_tokens(&tokens)
}

#[test]
fn generators_collapse_to_the_state_and_are_reversible() {
    let a = hll(&[0, 1, 2]);
    let b = hll(&[2, 3]);
    let ctx = Context::from_generators(vec![a.clone(), b.clone()]);

    assert!(ctx
        .state()
        .same(&HLLSet::union_all(&[a.clone(), b.clone()])));

    let c = hll(&[9]);
    let with_c = ctx.with_generator(c.clone());
    assert_eq!(with_c.generators().len(), 3);
    assert!(with_c.state().same(&ctx.state().union(&c)));

    assert_eq!(
        with_c.without_generator(&c).generators().len(),
        2,
        "insert and remove cancel at the generator level"
    );
}

#[test]
fn noether_invariants_hold_and_are_exact() {
    let a = hll(&[0, 1, 2]);
    let b = hll(&[3, 4]);
    let c = hll(&[2, 5, 6]);
    let previous = HLLSet::union_all(&[a.clone(), b.clone()]);
    let current = HLLSet::union_all(&[a.clone(), c.clone()]);

    let n = evolve(&previous, &current);
    assert!(invariants_hold(&n, &previous, &current));
    assert_eq!(n.departed.popcount(), 2, "bits of b only");
    assert_eq!(n.novel.popcount(), 2, "bits of c only");
    assert_eq!(n.retained.popcount(), 3, "bits of a");
}

#[test]
fn follow_matrix_is_tropical() {
    let mut m = FollowMatrix::new();
    m.observe(b"a", b"b", 2);
    m.observe(b"a", b"b", 1);
    m.observe(b"b", b"c", 3);
    assert_eq!(m.get(b"a", b"b"), 2, "observe is max");
    assert_eq!(m.get(b"b", b"c"), 3);
    assert_eq!(m.get(b"c", b"a"), 0);

    let mut n = FollowMatrix::new();
    n.observe(b"a", b"b", 5);
    n.observe(b"x", b"y", 1);
    let mut mn = m.duplicate();
    mn.merge(&n);
    assert_eq!(mn.get(b"a", b"b"), 5, "join takes the max");
    assert_eq!(mn.get(b"b", b"c"), 3, "join keeps other side");
    assert_eq!(mn.get(b"x", b"y"), 1);

    let mut nm = n.duplicate();
    nm.merge(&m);
    assert_eq!(mn.len(), nm.len(), "commutative");
    assert_eq!(mn.get(b"a", b"b"), nm.get(b"a", b"b"));

    let mut active: OrdSet<Vec<u8>> = OrdSet::new();
    active.insert(b"a".to_vec());
    active.insert(b"b".to_vec());
    let restricted = mn.restrict(&active);
    assert_eq!(restricted.get(b"a", b"b"), 5);
    assert_eq!(restricted.get(b"b", b"c"), 0, "c dropped");
    assert_eq!(restricted.get(b"x", b"y"), 0, "x,y dropped");
}

#[test]
fn context_restores_through_the_morphisms() {
    let mut ingest = Ingest::new();
    let mut chosen: Vec<u32> = Vec::new();
    let mut bits = BTreeSet::new();
    for id in 0..1000u32 {
        let tok = token_in_bytes(id);
        let bit = BitAddress::of_token_seeded(&tok, 0).bit();
        if bits.insert(bit) {
            chosen.push(id);
            ingest.ingest_token(&tok);
            if chosen.len() == 20 {
                break;
            }
        }
    }
    assert_eq!(chosen.len(), 20);

    let ctx = Context::from_generators(vec![ingest.hllset(0).clone()]);
    let pairs = [Encoding {
        hllset: ctx.state(),
        lut: ingest.lut(0),
    }];
    let restored = materialize(&pairs, ingest.tf());

    for id in &chosen {
        assert!(
            restored.contains(&token_in_bytes(*id)),
            "tid{id} restored from the context through the table"
        );
    }
}
