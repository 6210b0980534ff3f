use hllset::hllset::HLLSet;
use hllset::temporal::{default_durations, Duration, Layer, TemporalPyramid, DEFAULT_LAYERS};

fn make_obs(tokens: &[&str]) -> HLLSet {
    let tokens: Vec<Vec<u8>> = tokens.iter().map(|t| t.as_bytes().to_vec()).collect();
    HLLSet::from_tokens(&tokens)
}

#[test]
fn test_new_pyramid() {
    let p = TemporalPyramid::standard();
    assert_eq!(p.layer_count(), 7);
    assert!(p.layer(0).hllset.is_empty());
    assert_eq!(p.total_observations(), 0);
}

#[test]
fn test_ingest_into_l0() {
    let mut p = TemporalPyramid::minimal();
    let obs = make_obs(&["hello", "world"]);

    p.ingest_with_delta(&obs, Duration::from_millis(500));
    assert!(!p.layer(0).hllset.is_empty());
    assert_eq!(p.total_observations(), 1);
    assert_eq!(p.layer(0).observations, 1);
}

#[test]
fn test_no_carry_within_window() {
    let mut p = TemporalPyramid::minimal();
    let obs = make_obs(&["a"]);

    // Ingest at 0.5s — well within L0's 1-second window
    let carries = p.ingest_with_delta(&obs, Duration::from_millis(500));
    assert_eq!(carries, 0);
    assert_eq!(p.layer(0).observations, 1);
    assert!(p.layer(1).hllset.is_empty());
}

#[test]
fn test_carry_on_boundary() {
    let mut p = TemporalPyramid::minimal();
    let obs_a = make_obs(&["alpha"]);
    let obs_b = make_obs(&["beta"]);

    // First observation at t=0.5s
    p.ingest_with_delta(&obs_a, Duration::from_millis(500));
    // Second observation at t=1.5s (crosses 1-second boundary)
    let carries = p.ingest_with_delta(&obs_b, Duration::from_secs(1));

    assert!(carries > 0, "should have carried L0→L1");
    // L0 reset after carry (obs_b was part of the old window, carried up)
    assert_eq!(p.layer(0).observations, 0);
    // L1 received obs_a + obs_b from the carry
    assert_eq!(p.layer(1).observations, 2);
}

#[test]
fn test_system_state_after_carry() {
    let mut p = TemporalPyramid::minimal();
    let obs_a = make_obs(&["keep"]);
    let obs_b = make_obs(&["also"]);

    let state_before = p.system_popcount();
    p.ingest_with_delta(&obs_a, Duration::from_millis(500));

    // Carry: push obs_a from L0→L1
    p.ingest_with_delta(&obs_b, Duration::from_millis(600));

    // System state (union of L0∪L1) should contain bits from both
    let state_after = p.system_popcount();
    assert!(state_after >= state_before, "system state is monotonic");
    assert!(p.system_state().same(&make_obs(&["keep", "also"])));
}

#[test]
fn test_cascade_multiple_layers() {
    // 3-layer pyramid: 1s, 2s, 4s
    let mut p = TemporalPyramid::new(vec![
        Duration::from_secs(1),
        Duration::from_secs(2),
        Duration::from_secs(4),
    ]);
    let obs = make_obs(&["x"]);

    // t=0.5: L0 has obs
    p.ingest_with_delta(&obs, Duration::from_millis(500));
    assert_eq!(p.layer(0).observations, 1);

    // t=1.5: L0→L1 carry (L0 full at 1s)
    p.ingest_with_delta(&obs, Duration::from_secs(1));
    assert!(p.layer(0).has_carried);
    assert_eq!(p.layer(1).observations, 2); // 2 observations carried from L0

    // t=2.5: L0→L1 carry again, L1 now has 2s elapsed → L1→L2 carry
    p.ingest_with_delta(&obs, Duration::from_secs(1));
    assert!(p.layer(1).has_carried);
    assert_eq!(p.layer(2).observations, 3); // 2 from 1st carry + 1 from 2nd
}

#[test]
fn test_noether_invariant() {
    let mut p = TemporalPyramid::minimal();
    assert!(p.verify_noether());

    let obs = make_obs(&["test"]);
    p.ingest_with_delta(&obs, Duration::from_secs(1));
    assert!(p.verify_noether());
}

#[test]
fn test_tf_snapshot() {
    let mut p = TemporalPyramid::minimal();
    let obs = make_obs(&["hello", "world"]);
    p.ingest_with_delta(&obs, Duration::from_millis(500));

    let tf = p.tf_snapshot();
    assert!(tf.iter().any(|&v| v != 0));
    assert!(tf.iter().sum::<u64>() > 0);
}

#[test]
fn test_per_layer_tf_snapshots() {
    let mut p = TemporalPyramid::minimal();
    let obs = make_obs(&["data"]);
    p.ingest_with_delta(&obs, Duration::from_millis(500));

    let snapshots = p.per_layer_tf_snapshots();
    assert_eq!(snapshots.len(), 2);
    // L0 should have TF > 0
    assert!(snapshots[0].iter().any(|&v| v > 0));
    assert!(snapshots[1].iter().all(|&v| v == 0));
}

#[test]
fn test_high_frequency_pyramid() {
    let mut p = TemporalPyramid::high_frequency();
    assert_eq!(p.layer_count(), 5);
    let obs = make_obs(&["burst"]);
    p.ingest_with_delta(&obs, Duration::from_millis(50));
    assert_eq!(p.total_observations(), 1);
}

#[test]
fn test_observations_count_across_carries() {
    let mut p = TemporalPyramid::minimal();
    let obs = make_obs(&["a"]);
    p.ingest_with_delta(&obs, Duration::from_millis(500));
    p.ingest_with_delta(&obs, Duration::from_millis(600)); // carry

    // Total across all layers should reflect ingestion count
    let total_layer_obs: u64 = (0..p.layer_count()).map(|i| p.layer(i).observations).sum();
    assert!(total_layer_obs > 0);
    assert_eq!(total_layer_obs, p.total_observations());
}

#[test]
fn test_custom_pyramid_validation() {
    // Non-decreasing windows should work
    let p = TemporalPyramid::new(vec![
        Duration::from_secs(1),
        Duration::from_secs(5),
        Duration::from_secs(10),
    ]);
    assert_eq!(p.layer_count(), 3);
}

#[test]
fn presets_have_their_layers() {
    assert_eq!(TemporalPyramid::default().layer_count(), DEFAULT_LAYERS);
    assert_eq!(default_durations().len(), DEFAULT_LAYERS);
    assert!(TemporalPyramid::realtime_control().layer_count() > 0);
    assert!(TemporalPyramid::document_analysis().layer_count() > 0);
    assert_eq!(TemporalPyramid::minimal().layer_count(), 2);
}

#[test]
fn a_layer_fills_when_its_window_has_passed() {
    let mut layer = Layer::new(Duration::from_secs(2));
    assert!(!layer.is_full());
    assert_eq!(layer.remaining(), Duration::from_secs(2));
    layer.elapsed = Duration::from_millis(1500);
    assert_eq!(layer.remaining(), Duration::from_millis(500));
    layer.elapsed = Duration::from_secs(3);
    assert!(layer.is_full());
    assert_eq!(layer.remaining(), Duration::zero());
}

#[test]
fn observations_carry_a_clock() {
    let mut p = TemporalPyramid::minimal();
    let obs = make_obs(&["tick"]);
    // The first reading only sets the clock.
    assert_eq!(p.ingest(&obs, Duration::from_secs(100)), 0);
    assert!(p.ingest(&obs, Duration::from_secs(101)) > 0);
    assert_eq!(p.total_observations(), 2);
}

#[test]
fn the_coarsest_layer_keeps_what_it_saw() {
    let mut p = TemporalPyramid::minimal();
    p.ingest_with_delta(&make_obs(&["old"]), Duration::from_secs(1));
    assert_eq!(p.layer(1).observations, 1);
    for _ in 0..60 {
        p.ingest_with_delta(&HLLSet::new(), Duration::from_secs(1));
    }
    assert!(p.system_state().same(&make_obs(&["old"])));
}

#[test]
fn a_single_layer_keeps_its_bits_after_a_full_window() {
    let mut p = TemporalPyramid::new(vec![Duration::from_secs(1)]);
    p.ingest_with_delta(&make_obs(&["a"]), Duration::from_secs(1));
    p.ingest_with_delta(&make_obs(&["b"]), Duration::from_secs(1));
    assert!(p.system_state().same(&make_obs(&["a", "b"])));
    assert!(p.verify_noether());
}

#[test]
fn a_bit_in_two_layers_counts_once() {
    let mut p = TemporalPyramid::minimal();
    let obs = make_obs(&["again"]);
    p.ingest_with_delta(&obs, Duration::from_secs(1));
    p.ingest_with_delta(&obs, Duration::from_millis(500));
    assert!(!p.layer(0).hllset.is_empty() && !p.layer(1).hllset.is_empty());
    let tf = p.tf_snapshot();
    assert_eq!(tf.iter().sum::<u64>(), 1);
    assert_eq!(p.system_popcount(), 1);
}

#[test]
fn presets_remember_no_time() {
    for mut p in [
        TemporalPyramid::standard(),
        TemporalPyramid::default(),
        TemporalPyramid::high_frequency(),
        TemporalPyramid::realtime_control(),
        TemporalPyramid::document_analysis(),
        TemporalPyramid::minimal(),
    ] {
        assert_eq!(p.ingest(&make_obs(&["first"]), Duration::from_secs(1_000_000)), 0);
    }
}
