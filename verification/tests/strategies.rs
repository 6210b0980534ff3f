use hllset::collections::OrdSet;
use hllset::distributed::Share;
use hllset::engines::MaterializeEngine;
use hllset::euler::find_euler_walk;
use hllset::hashing::{murmur3_hash_seeded, token_to_position, token_to_position_seeded};
use hllset::hllset::HLLSet;
use hllset::memory::MemoryStorage;
use hllset::strategies::{
    find_path, materialize_debruijn, materialize_homogeneous_consensus, materialize_inlut,
    materialize_ngram_cross_validate, split_at_nul, MaterializedResult, Materializer,
};
use hllset::tokenlut::{CatalogLUT, DenseLUT, TokenLUT};
use hllset::worker::Worker;

fn words(ws: &[&str]) -> Vec<Vec<u8>> {
    ws.iter().map(|w| w.as_bytes().to_vec()).collect()
}

/// The word n-grams of a text, shortest first, words joined by NUL.
fn grams(ws: &[&str], min: usize, max: usize) -> Vec<Vec<u8>> {
    let mut out = Vec::new();
    for n in min..=max {
        for w in ws.windows(n) {
            out.push(w.join("\0").into_bytes());
        }
    }
    out
}

fn setup(ws: &[&str]) -> (HLLSet, TokenLUT) {
    let tokens = words(ws);
    (HLLSet::from_tokens(&tokens), TokenLUT::from_tokens(&tokens))
}

fn confident(r: &MaterializedResult) -> bool {
    r.confidence.part > 0
}

#[test]
fn test_lut_insert_and_get() {
    let mut lut = TokenLUT::new();
    lut.insert(b"hello".to_vec());
    let pos = token_to_position(b"hello");
    let candidates = lut.get(pos.0, pos.1).unwrap();
    assert!(candidates.contains(&b"hello".to_vec()));
}

#[test]
fn test_lut_from_tokens() {
    let lut = TokenLUT::from_tokens(&words(&["hello", "world"]));
    assert!(!lut.is_empty());
}

#[test]
fn test_materialize_inlut_basic() {
    let (hllset, lut) = setup(&["hello", "world"]);
    let result = materialize_inlut(&hllset, &lut);
    assert!(confident(&result));
    let flat = result.flat_strings();
    assert!(flat.contains(&"hello".to_string()));
    assert!(flat.contains(&"world".to_string()));
}

#[test]
fn test_materialize_inlut_empty() {
    let hllset = HLLSet::new();
    let lut = TokenLUT::new();
    let result = materialize_inlut(&hllset, &lut);
    assert_eq!(result.candidates, vec![] as Vec<Vec<Vec<u8>>>);
    // Nothing to resolve counts in full.
    let Share { part, whole } = result.confidence;
    assert_eq!(part, whole);
}

#[test]
fn test_ngram_cross_validate() {
    let tokens = grams(&["the", "cat", "sat"], 1, 2);
    let hllset = HLLSet::from_tokens(&tokens);
    let lut = TokenLUT::from_tokens(&tokens);

    let result = materialize_ngram_cross_validate(&hllset, &lut);
    assert!(confident(&result));
}

#[test]
fn test_debruijn_reconstruction() {
    let tokens = grams(&["<S>", "the", "cat", "sat", "</S>"], 2, 2);
    let hllset = HLLSet::from_tokens(&tokens);
    let lut = TokenLUT::from_tokens(&tokens);

    let result = materialize_debruijn(&hllset, &lut, b"<S>", b"</S>");
    assert!(confident(&result));
    assert!(!result.candidates.is_empty());
}

#[test]
fn test_materializer_auto() {
    let tokens = grams(&["hello", "world"], 1, 2);
    let hllset = HLLSet::from_tokens(&tokens);

    let mut m = Materializer::new();
    m.insert(&tokens);
    let result = m.auto(&hllset);
    assert!(confident(&result));
}

#[test]
fn test_split_at_nul() {
    let (a, b) = split_at_nul(b"hello\0world").unwrap();
    assert_eq!(a, b"hello");
    assert_eq!(b, b"world");
}

#[test]
fn test_split_at_nul_no_separator() {
    assert!(split_at_nul(b"hello").is_none());
}

#[test]
fn test_materialize_roundtrip() {
    let (hllset, lut) = setup(&["alpha", "beta", "gamma"]);
    let result = materialize_inlut(&hllset, &lut);
    let flat = result.flat_strings();

    assert!(flat.contains(&"alpha".to_string()));
    assert!(flat.contains(&"beta".to_string()));
    assert!(flat.contains(&"gamma".to_string()));
}

#[test]
fn test_full_roundtrip_with_ngrams() {
    let input = "the quick brown fox jumps over the lazy dog";
    let ws: Vec<&str> = input.split_whitespace().collect();
    let all_tokens = grams(&ws, 1, 2);
    let hllset = HLLSet::from_tokens(&all_tokens);
    let lut = TokenLUT::from_tokens(&all_tokens);

    let result = materialize_inlut(&hllset, &lut);
    let flat = result.flat_strings();
    for word in input.split_whitespace() {
        assert!(
            flat.contains(&word.to_lowercase()),
            "missing word: {}",
            word
        );
    }
}

#[test]
fn test_materializer_with_boundaries() {
    let tokens = grams(&["<S>", "the", "end", "</S>"], 2, 2);
    let hllset = HLLSet::from_tokens(&tokens);

    let mut m = Materializer::new().with_boundaries(b"<S>", b"</S>");
    m.insert(&tokens);
    let result = m.debruijn(&hllset);
    assert!(confident(&result));
}

#[test]
fn test_catalog_lut_insert_and_get() {
    let mut lut = CatalogLUT::new();
    lut.insert(b"alice@example.com".to_vec());
    let pos = token_to_position_seeded(b"alice@example.com", 0);
    let candidates = lut.get(pos.0, pos.1).unwrap();
    assert!(candidates.contains(&b"alice@example.com".to_vec()));
}

#[test]
fn test_catalog_lut_multi_seed_positions() {
    let mut lut = CatalogLUT::new();
    lut.insert(b"test".to_vec());
    let positions = lut.positions_of(b"test").unwrap();
    assert_eq!(positions.len(), 3);
    assert!(positions[0] != positions[1] || positions[1] != positions[2]);
}

#[test]
fn test_homogeneous_consensus_full_match() {
    let values: Vec<&[u8]> = vec![b"alice", b"bob", b"carol"];
    let mut hllset = HLLSet::new();
    for &seed in &[0u64, 1, 2] {
        for &v in &values {
            let hash = murmur3_hash_seeded(v, seed);
            hllset.add_hash(hash);
        }
    }
    let owned: Vec<Vec<u8>> = values.iter().map(|v| v.to_vec()).collect();
    let lut = CatalogLUT::from_values(&owned);
    let result = materialize_homogeneous_consensus(&hllset, &lut);
    assert_eq!(result.strategy, "HomogeneousConsensus");
    assert!(confident(&result));
    let flat = result.flat_strings();
    for &v in &values {
        assert!(flat.contains(&String::from_utf8_lossy(v).to_string()));
    }
}

#[test]
fn test_consensus_rejects_weak_matches() {
    let mut hllset = HLLSet::new();
    let hash = murmur3_hash_seeded(b"alice", 0);
    hllset.add_hash(hash);
    let lut = CatalogLUT::from_values(&words(&["alice"]));
    let result = materialize_homogeneous_consensus(&hllset, &lut);
    assert!(result.candidates.is_empty() || result.candidates[0].is_empty());
}

#[test]
fn test_consensus_accepts_two_of_three() {
    let mut hllset = HLLSet::new();
    for &seed in &[0u64, 1] {
        let hash = murmur3_hash_seeded(b"alice", seed);
        hllset.add_hash(hash);
    }
    let lut = CatalogLUT::from_values(&words(&["alice"]));
    let result = materialize_homogeneous_consensus(&hllset, &lut);
    assert!(!result.candidates.is_empty());
    assert!(result.flat_strings().contains(&"alice".to_string()));
}

#[test]
fn test_catalog_roundtrip() {
    let emails = words(&["a@x.com", "b@x.com", "c@x.com", "d@x.com", "e@x.com"]);
    let mut hllset = HLLSet::new();
    for &seed in &[0u64, 1, 2] {
        for e in &emails {
            let hash = murmur3_hash_seeded(e, seed);
            hllset.add_hash(hash);
        }
    }
    let lut = CatalogLUT::from_values(&emails);
    let result = materialize_homogeneous_consensus(&hllset, &lut);
    let flat = result.flat_strings();
    for e in &emails {
        assert!(
            flat.contains(&String::from_utf8_lossy(e).to_string()),
            "missing: {}",
            String::from_utf8_lossy(e)
        );
    }
}

#[test]
fn test_worker_materialize_roundtrip() {
    let mut w = Worker::new(MemoryStorage::new());
    let tokens: Vec<String> = vec!["alpha".into(), "beta".into(), "gamma".into()];
    let lut = TokenLUT::from_tokens(&words(&["alpha", "beta", "gamma"]));
    let key = w.inscribe(&tokens);

    let result = w.materialize(&key, &lut).unwrap();
    assert!(confident(&result));
    let flat = result.flat_strings();
    assert!(flat.contains(&"alpha".to_string()));
    assert!(flat.contains(&"beta".to_string()));
}

#[test]
fn a_worker_without_the_block_materializes_nothing() {
    let w = Worker::new(MemoryStorage::new());
    let lut = TokenLUT::from_tokens(&words(&["alpha"]));
    assert!(w.materialize("h:nothing", &lut).is_none());
    assert!(w.bss_inclusion("h:a", "h:b").is_none());
}

#[test]
fn bigrams_between_markers_spell_the_sequence() {
    let tokens = grams(&["<S>", "the", "cat", "sat", "</S>"], 2, 2);
    let hllset = HLLSet::from_tokens(&tokens);
    let lut = TokenLUT::from_tokens(&tokens);
    let result = materialize_debruijn(&hllset, &lut, b"<S>", b"</S>");
    assert_eq!(result.strategy, "DeBruijnReconstruct");
    assert_eq!(result.flat_strings(), vec!["<S>", "the", "cat", "sat", "</S>"]);
    assert_eq!(result.sequence_count(), 1);
}

#[test]
fn paths_follow_the_first_unused_edge() {
    let pair = |a: &str, b: &str| (a.as_bytes().to_vec(), b.as_bytes().to_vec());
    let pairs = vec![pair("s", "a"), pair("a", "b"), pair("b", "e")];
    assert_eq!(find_path(&pairs, b"s", b"e"), words(&["s", "a", "b", "e"]));
}

#[test]
fn the_grid_answers_as_the_table_does() {
    let tokens = words(&["one", "two", "three", "one"]);
    let table = TokenLUT::from_tokens(&tokens);
    let grid = DenseLUT::from_tokens(&tokens);
    for t in &tokens {
        let (r, z) = token_to_position(t);
        assert_eq!(table.get(r, z), grid.get(r, z));
        assert_eq!(table.position_of(t), Some((r, z)));
    }
    assert_eq!(table.position_of(b"four"), None);
    assert_eq!(grid.occupied_cells(), table.len());
    assert!(!grid.is_empty() && DenseLUT::new().is_empty());
    let mut places: OrdSet<(u32, u32)> = OrdSet::new();
    places.insert(token_to_position(b"two"));
    assert_eq!(table.collect_candidates(&places), words(&["two"]));
    assert_eq!(grid.collect_candidates(&places), words(&["two"]));
}

#[test]
fn ngrams_are_recognised_by_their_separator() {
    assert!(!TokenLUT::from_tokens(&words(&["a", "b"])).has_ngrams());
    assert!(TokenLUT::from_tokens(&words(&["a", "a\0b"])).has_ngrams());
}

#[test]
fn a_materializer_serves_as_an_engine() {
    let tokens = words(&["hello", "world"]);
    let mut m = Materializer::default();
    m.insert(&tokens);
    let plane = HLLSet::from_tokens(&tokens);
    let mut found = m.materialize(&plane, &[]).unwrap();
    found.sort();
    assert_eq!(found, tokens);
    assert_eq!(m.name(), "inmemory");
    assert_eq!(m.lut_count(), m.lut().len());
    assert!(!m.is_hardware());
    m.lut_mut().insert(b"more".to_vec());
    assert!(m.lut().position_of(b"more").is_some());
}

#[test]
fn a_token_registered_twice_resolves_one_bit() {
    let tokens = words(&["alpha", "alpha"]);
    let hllset = HLLSet::from_tokens(&tokens);
    let lut = TokenLUT::from_tokens(&tokens);
    let result = materialize_inlut(&hllset, &lut);
    assert_eq!((result.confidence.part, result.confidence.whole), (1, 1));
}

#[test]
fn sequences_take_every_pair_once() {
    let tokens = words(&["<S>\0a", "a\0b", "b\0a", "a\0</S>"]);
    let hllset = HLLSet::from_tokens(&tokens);
    let lut = TokenLUT::from_tokens(&tokens);
    let result = materialize_debruijn(&hllset, &lut, b"<S>", b"</S>");
    assert_eq!(result.candidates, vec![words(&["<S>", "a", "b", "a", "</S>"])]);
}

#[test]
fn walks_splice_every_round_trip_in() {
    let pair = |a: &str, b: &str| (a.as_bytes().to_vec(), b.as_bytes().to_vec());
    let pairs = vec![
        pair("s", "a"),
        pair("a", "e"),
        pair("a", "b"),
        pair("b", "c"),
        pair("c", "a"),
        pair("c", "d"),
        pair("d", "c"),
        pair("s", "a"),
    ];
    let w = find_euler_walk(&pairs, b"s", b"e").unwrap();
    assert_eq!(w, words(&["s", "a", "b", "c", "d", "c", "a", "e"]));
    assert_eq!(find_path(&pairs, b"s", b"e"), w);
}

#[test]
fn without_a_walk_through_every_pair_the_walk_is_greedy() {
    let pair = |a: &str, b: &str| (a.as_bytes().to_vec(), b.as_bytes().to_vec());
    let two_ways = vec![pair("s", "a"), pair("a", "x"), pair("a", "e")];
    assert!(find_euler_walk(&two_ways, b"s", b"e").is_none());
    assert_eq!(find_path(&two_ways, b"s", b"e"), words(&["s", "a", "x"]));
    let apart = vec![pair("s", "e"), pair("x", "y"), pair("y", "x")];
    assert!(find_euler_walk(&apart, b"s", b"e").is_none());
    assert_eq!(find_path(&apart, b"s", b"e"), words(&["s", "e"]));
}
