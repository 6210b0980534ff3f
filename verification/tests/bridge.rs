use hllset::bridge::{
    bridge, doubled_ranks, extract_3gram, extract_3gram_from_hllset, re_represent,
    register_popcount_vector,
};
use hllset::correlation::{is_stronger, spearman_rank_correlation, Correlation};
use hllset::distributed::Share;
use hllset::hllset::HLLSet;
use hllset::maps::OrdMap;

fn toks(words: &[&str]) -> Vec<Vec<u8>> {
    words.iter().map(|w| w.as_bytes().to_vec()).collect()
}

fn set(words: &[&str]) -> HLLSet {
    HLLSet::from_tokens(&toks(words))
}

/// Spearman's coefficient, from the moments of the ranks.
fn coefficient(c: Correlation) -> f64 {
    if c.var_a == 0 || c.var_b == 0 {
        0.0
    } else {
        c.cov as f64 / ((c.var_a as f64).sqrt() * (c.var_b as f64).sqrt())
    }
}

fn rho(a: &[u64], b: &[u64]) -> f64 {
    coefficient(spearman_rank_correlation(a, b))
}

#[test]
fn test_re_represent_empty() {
    let src = HLLSet::new();
    let bridge = re_represent(&src);
    assert!(bridge.is_empty());
}

#[test]
fn test_re_represent_non_empty() {
    let src = set(&["hello", "world"]);
    let bridge = re_represent(&src);
    assert!(!bridge.is_empty());
    assert!(bridge.popcount() > 0);
}

#[test]
fn test_re_represent_idempotent() {
    let src = set(&["test"]);
    let b1 = re_represent(&src);
    let b2 = re_represent(&src);
    assert_eq!(b1.popcount(), b2.popcount());
}

#[test]
fn test_re_represent_bss_zero() {
    let src = set(&["hello", "world", "test"]);
    let bridge = re_represent(&src);
    let share = Share {
        part: src.intersection(&bridge).popcount(),
        whole: bridge.popcount(),
    };
    let tau = share.part as f64 / share.whole as f64;
    assert!(tau >= 0.0 && tau <= 1.0);
}

#[test]
fn test_extract_3gram_empty() {
    let result = extract_3gram(&[]);
    assert!(result.is_empty());
}

#[test]
fn test_extract_3gram_single() {
    let result = extract_3gram(&toks(&["hello"]));
    assert!(!result.is_empty());
}

#[test]
fn test_extract_3gram_deterministic() {
    let a = extract_3gram(&toks(&["the", "cat", "sat"]));
    let b = extract_3gram(&toks(&["the", "cat", "sat"]));
    assert_eq!(a.content_key(), b.content_key());
}

#[test]
fn test_spearman_perfect_correlation() {
    let a = vec![100, 80, 60, 40, 20];
    let b = vec![100, 80, 60, 40, 20];
    assert!((rho(&a, &b) - 1.0).abs() < 0.001);
}

#[test]
fn test_spearman_perfect_inverse() {
    let a = vec![100, 80, 60, 40, 20];
    let b = vec![20, 40, 60, 80, 100];
    assert!((rho(&a, &b) + 1.0).abs() < 0.001);
}

#[test]
fn test_spearman_empty() {
    assert_eq!(rho(&[], &[]), 0.0);
    assert_eq!(rho(&[7], &[7]), 1.0);
    assert_eq!(rho(&[7], &[8]), 0.0);
    assert_eq!(rho(&[7, 7], &[1, 2]), 0.0);
}

#[test]
fn test_spearman_with_ties() {
    let a = vec![10, 10, 5, 5];
    let b = vec![10, 10, 5, 5];
    assert!((rho(&a, &b) - 1.0).abs() < 0.001);
}

#[test]
fn doubled_ranks_share_ties() {
    assert_eq!(doubled_ranks(&[100, 80, 60]), vec![2, 4, 6]);
    assert_eq!(doubled_ranks(&[10, 10, 5, 5]), vec![3, 3, 7, 7]);
    assert_eq!(doubled_ranks(&[7, 7, 7]), vec![4, 4, 4]);
}

#[test]
fn test_register_popcount_vector() {
    let hllset = set(&["a", "b", "c"]);
    let vec = register_popcount_vector(&hllset);
    assert_eq!(vec.len(), 1024);
    let total: u64 = vec.iter().sum();
    assert!(total > 0);
    assert_eq!(total, hllset.popcount());
}

#[test]
fn test_extract_3gram_from_hllset() {
    let src = set(&["the", "cat", "sat", "on", "the", "mat"]);
    let fingerprint = extract_3gram_from_hllset(&src);
    assert!(!fingerprint.is_empty());
}

#[test]
fn test_full_bridge_pipeline() {
    let src = set(&["red", "car", "intersection"]);
    let ref_rule = set(&["slow", "down", "intersection"]);
    let unrelated = set(&["weather", "report", "sunny"]);

    let mut candidates: OrdMap<String, HLLSet> = OrdMap::new();
    candidates.insert("rule".to_string(), ref_rule);
    candidates.insert("unrelated".to_string(), unrelated);

    let result = bridge(&src, &candidates, 2);
    assert!(!result.bridge.is_empty());
    assert_eq!(result.matches.len(), 2);
    let first = coefficient(result.matches[0].1);
    assert!(first >= -1.0 && first <= 1.0);
    assert!(first >= coefficient(result.matches[1].1));
    assert!(result.src_3gram.same(&extract_3gram_from_hllset(&src)));
    assert!(result.bridge_3gram.same(&extract_3gram_from_hllset(&result.bridge)));
    assert_eq!(bridge(&src, &candidates, 1).matches.len(), 1);
}

#[test]
fn the_source_of_a_bridge_is_its_own_best_match() {
    let src = set(&["one", "two", "three", "four", "five"]);
    let mut candidates: OrdMap<String, HLLSet> = OrdMap::new();
    candidates.insert("a".to_string(), set(&["weather", "report"]));
    candidates.insert("b".to_string(), re_represent(&src));
    candidates.insert("c".to_string(), re_represent(&src));
    let result = bridge(&src, &candidates, 3);
    let order: Vec<&str> = result.matches.iter().map(|m| m.0.as_str()).collect();
    assert_eq!(order, vec!["b", "c", "a"]);
    let best = result.matches[0].1;
    assert_eq!(best.cov as u128, best.var_a);
    assert_eq!(best.var_a, best.var_b);
}

#[test]
fn moments_are_whole_numbers() {
    // Doubled ranks (2, 4, 6) and (6, 2, 4).
    let c = spearman_rank_correlation(&[9, 8, 7], &[1, 3, 2]);
    assert_eq!((c.cov, c.var_a, c.var_b), (-12, 24, 24));
    let d = spearman_rank_correlation(&[1, 3, 2], &[9, 8, 7]);
    assert_eq!((d.cov, d.var_a, d.var_b), (-12, 24, 24));
    assert!(is_stronger(&spearman_rank_correlation(&[9, 8, 7], &[5, 4, 3]), &c));
    assert!(!is_stronger(&c, &c));
}
