use hllset::distributed::{BSSRouter, MultiSourceMerge, NodeFingerprint, Share};
use hllset::hllset::HLLSet;
use hllset::memory::MemoryStorage;
use hllset::mesh::{compute, Arg, ComputeRequest, Outcome, WorkerNode};
use hllset::worker::Worker;

fn make_hllset(tokens: &[&str]) -> HLLSet {
    let t: Vec<Vec<u8>> = tokens.iter().map(|w| w.as_bytes().to_vec()).collect();
    HLLSet::from_tokens(&t)
}

fn ratio(s: Share) -> f64 {
    if s.whole == 0 {
        1.0
    } else {
        s.part as f64 / s.whole as f64
    }
}

fn list(words: &[&str]) -> Arg {
    Arg::List(words.iter().map(|w| Arg::Text(w.to_string())).collect())
}

#[test]
fn test_fingerprint_add_and_inclusion() {
    let mut fp = NodeFingerprint::new();
    let data = make_hllset(&["hello", "world"]);
    fp.add(&data);

    assert_eq!(fp.set_count(), 1);

    let query = make_hllset(&["hello"]);
    assert!(ratio(fp.inclusion_of(&query)) > 0.0);

    let empty = HLLSet::new();
    assert_eq!(ratio(fp.inclusion_of(&empty)), 1.0);
}

#[test]
fn test_router_ranks_by_relevance() {
    let request = make_hllset(&["shared", "unique"]);

    let mut fp_a = NodeFingerprint::new();
    fp_a.add(&make_hllset(&["shared"]));

    let mut fp_b = NodeFingerprint::new();
    fp_b.add(&request);

    let mut fp_c = NodeFingerprint::new();
    fp_c.add(&make_hllset(&["unrelated"]));

    let mut router = BSSRouter::new();
    router.add_node("a", &fp_a);
    router.add_node("b", &fp_b);
    router.add_node("c", &fp_c);

    let ranked = router.rank(&request, 3);
    assert_eq!(ranked[0].id, "b");
    assert!(ranked.len() >= 1);
    if ranked.len() >= 2 {
        assert_eq!(ranked[1].id, "a");
    }
    assert_eq!(ratio(ranked[0].score), 1.0);
}

#[test]
fn test_multi_source_merge() {
    let request = make_hllset(&["a", "b", "c", "d"]);
    let r1 = request.intersection(&make_hllset(&["a", "b", "x"]));
    let r2 = request.intersection(&make_hllset(&["c", "d", "y"]));

    let mut merge = MultiSourceMerge::new();
    merge.add_response(r1);
    merge.add_response(r2);

    let result = merge.merge();
    assert!(result.popcount() >= 3);
}

#[test]
fn test_idempotent_merge() {
    let request = make_hllset(&["x"]);
    let r = request.clone();

    let mut merge1 = MultiSourceMerge::new();
    merge1.add_response(r.clone());
    merge1.add_response(r.clone());
    let result1 = merge1.merge();

    let mut merge2 = MultiSourceMerge::new();
    merge2.add_response(r);
    let result2 = merge2.merge();

    assert_eq!(result1.popcount(), result2.popcount());
}

#[test]
fn novelty_and_inclusion_add_up() {
    let mut fp = NodeFingerprint::new();
    fp.add(&make_hllset(&["a", "b"]));
    let other = make_hllset(&["b", "c", "d"]);
    let i = fp.inclusion_of(&other);
    let n = fp.novelty_vs(&other);
    assert_eq!(i.part + n.part, other.popcount());
}

#[test]
fn test_worker_inscribe_and_load() {
    let mut w = Worker::new(MemoryStorage::new());
    let key = w.inscribe(&["hello".to_string(), "world".to_string()]);
    assert!(key.starts_with("h:"));
    assert!(w.load_hllset(&key).unwrap().popcount() > 0);
}

#[test]
fn test_worker_forgets() {
    let mut w = Worker::new(MemoryStorage::new());
    let key = w.inscribe(&["ephemeral".to_string()]);
    assert!(w.has_resource(&key));
}

#[test]
fn computing_on_token_lists() {
    let both = Arg::List(vec![list(&["a", "b"]), list(&["b", "c"])]);
    match compute("union", &both).unwrap() {
        Outcome::Key(k) => assert_eq!(k, make_hllset(&["a", "b", "c"]).content_key()),
        _ => panic!("a key was expected"),
    }
    match compute("intersect", &both).unwrap() {
        Outcome::Key(k) => assert_eq!(
            k,
            make_hllset(&["a", "b"])
                .intersection(&make_hllset(&["b", "c"]))
                .content_key()
        ),
        _ => panic!("a key was expected"),
    }
    assert!(compute("nonsense", &both).is_err());
}

#[test]
fn a_worker_node_answers_under_its_name() {
    let mut w = WorkerNode::new("w1".to_string());
    let req = ComputeRequest {
        op: "tokenize".to_string(),
        request_id: "r1".to_string(),
        args: Arg::Text("hello world".to_string()),
    };
    let res = w.handle_request(req).unwrap();
    assert_eq!(res.worker, "w1");
    assert_eq!(res.request_id, "r1");
    assert_eq!(w.worker_id(), "w1");
}

#[test]
fn a_repeated_set_is_held_once() {
    let a = make_hllset(&["a"]);
    let mut f = NodeFingerprint::new();
    f.add(&a);
    f.add(&a);
    f.add(&make_hllset(&["b"]));
    assert_eq!(f.set_count(), 2);
    let mut router = BSSRouter::new();
    router.add_node("n", &f);
    assert_eq!(router.fingerprint("n").unwrap().set_count(), 2);
    f.remove(&a);
    assert_eq!(f.set_count(), 1);
    router.update_node("n", &f);
    assert_eq!(router.fingerprint("n").unwrap().set_count(), 1);
    f.rebuild(&[a.clone(), a.clone()]);
    assert_eq!(f.set_count(), 1);
    assert!(router.fingerprint("other").is_none());
}
