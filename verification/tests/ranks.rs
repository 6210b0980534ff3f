use hllset::derivatives::{NoetherSteering, RankDerivatives, RankFlux, RankTable, UnitRanks};
use hllset::fisher::{FisherMatrix, FisherProjection};
use hllset::hashing::BITS_PER_REG;
use hllset::hllset::HLLSet;
use hllset::ingest::Ingest;
use hllset::lattice::LatticeElement;
use hllset::maps::OrdMap;
use hllset::mask::{ObservableMask, SubLatticeDegree};
use hllset::ranks::{
    bit_rank, compound_rank, hllset_rank, register_rank, token_rank, Aggregator, BitRank,
    CompoundRank, DegreeRankFn, HLLSetRank, HLLSetRankIndex, Rank,
};
use hllset::registers::{
    ActiveOnlySum, MaxPoolAggregator, RegisterRank, RegisterRankAggregator, SumRegAggregator,
    TfRegisterRanker,
};
use hllset::token::token_in_bytes;

fn element(ws: &[&str]) -> LatticeElement {
    let tokens: Vec<Vec<u8>> = ws.iter().map(|w| w.as_bytes().to_vec()).collect();
    LatticeElement::from_tokens(&tokens)
}

fn ingest_two() -> (Ingest, HLLSet) {
    let mut ingest = Ingest::new();
    let alpha = token_in_bytes(1);
    let beta = token_in_bytes(2);
    ingest.ingest_token(&alpha);
    ingest.ingest_token(&alpha); // TF(alpha) = 2
    ingest.ingest_token(&beta); // TF(beta) = 1
    let sketch = ingest.hllset(0).clone();
    (ingest, sketch)
}

#[test]
fn rank_is_derived_never_stored() {
    let (ingest, sketch) = ingest_two();
    let tf = ingest.tf();
    let lut = ingest.lut(0);

    let k1 = hllset_rank(tf, lut, &sketch, Aggregator::Sum);
    let k2 = hllset_rank(tf, lut, &sketch, Aggregator::Sum);
    assert_eq!(k1, k2, "rank is a projection: same inputs, same rank");
    assert_eq!(tf.count(&token_in_bytes(1)), 2);
    assert_eq!(tf.count(&token_in_bytes(2)), 1);
}

#[test]
fn levels_compose_exactly() {
    let (ingest, sketch) = ingest_two();
    let tf = ingest.tf();
    let lut = ingest.lut(0);
    let agg = Aggregator::Sum;

    // G(bit) is the fold of F over the fiber.
    for addr in sketch.bit_addresses() {
        let via_fiber: Rank = lut
            .fiber(addr.bit())
            .to_vec()
            .iter()
            .map(|t| token_rank(tf, t))
            .sum();
        assert_eq!(bit_rank(tf, lut, addr.bit(), agg), via_fiber);
    }

    // H(reg) is the fold of G over the register bits.
    let reg = sketch.bit_addresses()[0].reg();
    let via_g: Rank = (0..BITS_PER_REG)
        .map(|tz| bit_rank(tf, lut, reg * BITS_PER_REG + tz, agg))
        .sum();
    assert_eq!(register_rank(tf, lut, reg, agg), via_g);

    // K(H) is the fold of G over the active atoms.
    let via_atoms: Rank = sketch
        .bit_addresses()
        .iter()
        .map(|a| bit_rank(tf, lut, a.bit(), agg))
        .sum();
    assert_eq!(hllset_rank(tf, lut, &sketch, agg), via_atoms);

    // L is the fold of K over the sketches.
    assert_eq!(
        compound_rank(tf, lut, &[sketch.clone()], agg),
        hllset_rank(tf, lut, &sketch, agg)
    );
}

#[test]
fn ranks_are_monotone_in_tf_for_sum_and_max() {
    let (ingest, sketch) = ingest_two();
    let tf = ingest.tf();
    let lut = ingest.lut(0);

    let before_sum = hllset_rank(tf, lut, &sketch, Aggregator::Sum);
    let before_max = hllset_rank(tf, lut, &sketch, Aggregator::Max);

    let mut grow = tf.duplicate();
    grow.increment(&token_in_bytes(1)); // TF(alpha) 2 → 3

    assert!(hllset_rank(&grow, lut, &sketch, Aggregator::Sum) >= before_sum);
    assert!(hllset_rank(&grow, lut, &sketch, Aggregator::Max) >= before_max);
    assert_eq!(before_sum, 3);
    assert_eq!(before_max, 2);
    assert_eq!(hllset_rank(&grow, lut, &sketch, Aggregator::Sum), 4);
}

#[test]
fn empty_and_aggregator_neutrals() {
    let ingest = Ingest::new();
    let empty = HLLSet::new();
    assert_eq!(
        hllset_rank(ingest.tf(), ingest.lut(0), &empty, Aggregator::Sum),
        0
    );
    assert_eq!(
        hllset_rank(ingest.tf(), ingest.lut(0), &empty, Aggregator::Max),
        0
    );
    assert_eq!(
        hllset_rank(ingest.tf(), ingest.lut(0), &empty, Aggregator::Min),
        0
    );
}

#[test]
fn folds_take_the_sum_the_largest_or_the_smallest() {
    assert_eq!(Aggregator::Sum.fold(&[3, 1, 2]), 6);
    assert_eq!(Aggregator::Max.fold(&[3, 1, 2]), 3);
    assert_eq!(Aggregator::Min.fold(&[3, 1, 2]), 1);
}

#[test]
fn test_noether_steering_identical() {
    let a = element(&["hello", "world"]);
    let ns = NoetherSteering::compute_popcount(&a, &a, 5);
    assert_eq!(ns.bit_divergence, 0);
    assert!(ns.structural_equilibrium);
}

#[test]
fn test_noether_steering_different() {
    let a = element(&["hello", "world", "foo", "bar"]);
    let b = element(&["hello", "world", "baz"]);
    let ns = NoetherSteering::compute_popcount(&a, &b, 5);
    assert!(ns.bit_divergence > 0);
    assert_eq!(ns, NoetherSteering::compute_popcount(&b, &a, 5));
}

#[test]
fn test_derivatives_from_flux() {
    let fluxes = vec![10, 12, 11, 15, 14];
    let derivs = RankDerivatives::from_flux_history(&fluxes);
    assert_eq!(derivs.len(), 5);
    assert_eq!(derivs[0].velocity, 0);
    assert_eq!(derivs[0].acceleration, None);
    assert_eq!(derivs[1].velocity, 2);
    assert_eq!(derivs[1].acceleration, None);
    assert_eq!(derivs[2].velocity, -1);
    assert_eq!(derivs[2].acceleration, Some(-3));
    assert_eq!(derivs[3].velocity, 4);
    assert_eq!(derivs[3].acceleration, Some(5));
    assert_eq!(derivs[4].velocity, -1);
    assert_eq!(derivs[4].acceleration, Some(-5));
}

#[test]
fn test_rank_flux() {
    let a = element(&["a", "b", "c"]);
    let b = element(&["b", "c", "d"]);
    let flux = RankFlux::compute(&a, &b, &UnitRanks);
    assert_eq!(flux.rank_influx, 1);
    assert_eq!(flux.rank_outflux, 1);
    assert_eq!(flux.net_flux, 0);
}

#[test]
fn ranked_bits_weigh_what_the_table_says() {
    let a = element(&["a"]);
    let b = element(&["b"]);
    let place = b.hllset().active_positions()[0];
    let mut ranks: OrdMap<(u32, u32), u64> = OrdMap::new();
    ranks.insert(place, 7);
    let table = RankTable { ranks };
    let flux = RankFlux::compute(&a, &b, &table);
    assert_eq!((flux.rank_influx, flux.rank_outflux, flux.net_flux), (7, 0, 7));
    let steering = NoetherSteering::compute(&a, &b, &table, 0, 6);
    assert_eq!(steering.bit_divergence, 0);
    assert_eq!(steering.rank_divergence, 7);
    assert!(!steering.rank_equilibrium);
}

#[test]
fn test_fisher_matrix_add_layer() {
    let mut f = FisherMatrix::new();
    let layer = element(&["a", "b", "c"]);
    f.add_layer(&layer);
    assert_eq!(f.layer_count(), 1);
    let positions = layer.hllset().active_positions();
    for i in 0..positions.len() {
        let bi = positions[i];
        assert_eq!(f.diagonal(bi), 1);
        for j in (i + 1)..positions.len() {
            let bj = positions[j];
            assert_eq!(f.get(bi, bj), 1);
        }
    }
}

#[test]
fn test_fisher_diagonal_persistence() {
    let mut f = FisherMatrix::new();
    let layer1 = element(&["a"]);
    f.add_layer(&layer1);
    let layer2 = element(&["a", "b"]);
    f.add_layer(&layer2);

    let pos_a = layer1.hllset().active_positions();
    assert!(!pos_a.is_empty());
    let diag = f.diagonal(pos_a[0]);
    assert!(
        diag >= 1,
        "Expected a's bit to appear in at least 1 layer, got {diag}"
    );
    assert_eq!(diag, 2);
}

#[test]
fn test_fisher_projection_no_divergence() {
    let mut f = FisherMatrix::new();
    let layer = element(&["x", "y"]);
    f.add_layer(&layer);

    let div: OrdMap<(u32, u32), i8> = OrdMap::new(); // no divergence
    let proj = FisherProjection::project(&f, &div, 5);
    for (_, s) in &proj.scores {
        assert_eq!(*s, 0);
    }
    assert!(proj.significant.is_empty());
}

#[test]
fn test_most_persistent() {
    let mut f = FisherMatrix::new();
    for _ in 0..5 {
        let layer = element(&["persistent", "transient"]);
        f.add_layer(&layer);
    }
    let persistent = f.most_persistent(3);
    assert!(!persistent.is_empty());
    for (_, count) in &persistent {
        assert_eq!(*count, 5);
    }
}

#[test]
fn divergence_scores_along_shared_layers() {
    let mut f = FisherMatrix::new();
    f.add_layer(&element(&["x", "y"]));
    f.add_layer(&element(&["x"]));
    let x = element(&["x"]).hllset().active_positions()[0];
    let y = element(&["y"]).hllset().active_positions()[0];
    assert_eq!(f.get(x, y), f.get(y, x));
    assert_eq!(f.entry_count(), 3);
    assert_eq!(f.iter().len(), 3);
    assert_eq!(f.most_coupled(x, 5), vec![(y, 1)]);
    let mut d: OrdMap<(u32, u32), i8> = OrdMap::new();
    d.insert(x, 1);
    let proj = FisherProjection::project(&f, &d, 1);
    // The score of a bit is its row of shared layers times the divergence.
    let score = |b: (u32, u32)| proj.scores.iter().find(|(p, _)| *p == b).unwrap().1;
    assert_eq!(score(x), 2);
    assert_eq!(score(y), 1);
    assert_eq!(proj.significant, vec![(x, 2)]);
}

fn make_index(entries: &[(&str, Rank, usize, u64)]) -> HLLSetRankIndex {
    let mut idx = HLLSetRankIndex::new();
    for &(key, value, degree, popcount) in entries {
        let mut rank = HLLSetRank::from_raw(key, degree, popcount, &DegreeRankFn);
        rank.value = value;
        idx.insert(rank);
    }
    idx
}

#[test]
fn test_observable_mask_basic() {
    let idx = make_index(&[("h:a", 100, 3, 50), ("h:b", 50, 2, 30), ("h:c", 10, 1, 5)]);
    let mask = ObservableMask::apply(&idx, 25);
    assert!(mask.is_observable("h:a"));
    assert!(mask.is_observable("h:b"));
    assert!(!mask.is_observable("h:c"));
    assert_eq!(mask.observable_count(), 2);
    assert_eq!(mask.total, 3);
    assert_eq!(mask.observable_fraction(), (2, 3));
}

#[test]
fn test_mask_diff() {
    let idx1 = make_index(&[("h:a", 100, 3, 50), ("h:b", 10, 1, 5)]);
    let idx2 = make_index(&[("h:a", 90, 3, 50), ("h:b", 30, 1, 5)]);

    let mask1 = ObservableMask::apply(&idx1, 20);
    let mask2 = ObservableMask::apply(&idx2, 20);
    let diff = ObservableMask::diff(&mask1, &mask2);
    assert_eq!(diff.entered, vec!["h:b"]);
    assert!(diff.exited.is_empty());
    assert_eq!(diff.churn(), 1);
}

#[test]
fn test_sub_lattice_degree() {
    let mut degree = SubLatticeDegree::new();
    let idx = make_index(&[("h:a", 100, 3, 50), ("h:b", 50, 2, 30), ("h:c", 10, 1, 5)]);
    let mask = ObservableMask::apply(&idx, 25);

    degree.add_edge("h:a", "h:b", &mask);
    degree.add_edge("h:a", "h:c", &mask); // c is hidden, shouldn't count
    degree.add_edge("h:b", "h:c", &mask); // c is hidden

    assert_eq!(degree.degree("h:a"), 1); // only b is observable
    assert_eq!(degree.degree("h:b"), 1); // only a is observable
    assert_eq!(degree.degree("h:c"), 0); // hidden, no degree
    assert_eq!(degree.active_count(), 2);

    let all = ObservableMask::apply(&idx, 5);
    degree.recompute(&all);
    assert_eq!(degree.degree("h:a"), 2);
    assert_eq!(degree.degree("h:c"), 2);
}

#[test]
fn test_mask_stability() {
    let idx = make_index(&[("h:a", 50, 3, 50)]);
    let mask = ObservableMask::apply(&idx, 25);
    let diff = ObservableMask::diff(&mask, &mask);
    assert!(diff.is_stable());
    assert_eq!(diff.churn(), 0);
}

fn make_bit(register: u32, tz: u32, value: Rank) -> BitRank {
    BitRank {
        register,
        tz,
        value,
        token_count: 1,
    }
}

#[test]
fn test_sum_reg() {
    let h = SumRegAggregator;
    let bits: Vec<BitRank> = (0..8).map(|tz| make_bit(0, tz, tz as u64 * 10)).collect();
    assert_eq!(h.aggregate(0, &bits), 280);
    assert_eq!(h.aggregate(0, &[]), 0);
}

#[test]
fn test_max_pool() {
    let h = MaxPoolAggregator;
    let bits = vec![make_bit(0, 0, 5), make_bit(0, 1, 42), make_bit(0, 2, 17)];
    assert_eq!(h.aggregate(0, &bits), 42);
}

#[test]
fn test_active_only_sum() {
    let h = ActiveOnlySum;
    let bits = vec![
        make_bit(0, 0, 100), // tz=0
        make_bit(0, 1, 200), // tz=1
        make_bit(0, 3, 400), // tz=3
    ];
    assert_eq!(h.aggregate_masked(0, &bits, 0b1001), 500); // 100 + 400
    assert_eq!(h.aggregate_masked(0, &bits, 0b0010), 200);
    assert_eq!(h.aggregate_masked(0, &bits, 0), 0);
}

#[test]
fn registers_rank_by_their_counts() {
    let mut tf = vec![0u64; 32768];
    tf[5 * 32] = 3;
    tf[5 * 32 + 1] = 4;
    tf[9 * 32 + 7] = 5;
    let ranker = TfRegisterRanker::default();
    let five = ranker.rank_register(&tf, 5);
    assert_eq!((five.value, five.active_slots), (7, 2));
    let top: Vec<(u32, u64)> = ranker
        .top_k(&tf, 2)
        .iter()
        .map(|r| (r.register, r.value))
        .collect();
    assert_eq!(top, vec![(5, 7), (9, 5)]);
    assert_eq!(ranker.rank_all(&tf).len(), 1024);
    let pooled = TfRegisterRanker::new(MaxPoolAggregator);
    assert_eq!(pooled.rank_register(&tf, 5).value, 4);
    let bits = vec![make_bit(3, 0, 5), make_bit(3, 1, 0)];
    let one = RegisterRank::new(3, &bits, &SumRegAggregator);
    assert_eq!((one.register, one.value, one.active_slots), (3, 5, 2));
    assert_ne!(SumRegAggregator.name(), MaxPoolAggregator.name());
}

#[test]
fn test_level4_notebook_cell() {
    let deg_k = DegreeRankFn;
    let alpha = element(&["alpha", "beta", "gamma"]);
    let beta = element(&["beta", "gamma", "delta"]);
    let gamma = element(&["gamma", "delta", "epsilon"]);
    let mut idx = HLLSetRankIndex::new();
    for (elem, deg) in [(&alpha, 2usize), (&beta, 2), (&gamma, 2)] {
        let r = HLLSetRank::new(elem, deg, &deg_k);
        idx.insert(r);
    }
    assert_eq!(idx.len(), 3);
    for i in 0..idx.len() {
        assert!(!idx.at(i).key.is_empty());
        assert_eq!(idx.at(i).key, idx.key_at(i));
    }
}

#[test]
fn test_full_pipeline() {
    let doc_a = element(&["machine", "learning", "neural", "network"]);
    let doc_b = element(&["deep", "learning", "gradient", "network"]);
    let rank_a = HLLSetRank::new(&doc_a, 4, &DegreeRankFn);
    let rank_b = HLLSetRank::new(&doc_b, 4, &DegreeRankFn);
    let union_rank = CompoundRank::union(rank_a.value, rank_b.value);
    let inter_rank = CompoundRank::intersection(rank_a.value, rank_b.value);
    assert!(union_rank.value >= rank_a.value);
    assert!(inter_rank.value <= rank_a.value);
}

#[test]
fn test_mask_notebook() {
    let mut idx = HLLSetRankIndex::new();
    for (key, value, degree) in [
        ("h:a", 100u64, 3usize),
        ("h:b", 80, 4),
        ("h:c", 60, 2),
        ("h:d", 40, 1),
        ("h:e", 20, 1),
    ] {
        let mut r = HLLSetRank::from_raw(key, degree, value * 10, &DegreeRankFn);
        r.value = value;
        idx.insert(r);
    }
    let mask50 = ObservableMask::apply(&idx, 50);
    assert_eq!(mask50.total, 5);
    assert!(mask50.observable_count() > 0);
    assert!(mask50.observable_count() < 5); // some must be hidden
}

#[test]
fn an_index_holds_whole_ranks() {
    let mut idx = make_index(&[("h:b", 50, 2, 30), ("h:a", 100, 3, 40)]);
    assert_eq!(idx.len(), 2);
    let first = idx.at(0);
    assert_eq!((idx.key_at(0), first.value, first.degree, first.popcount), ("h:a", 100, 3, 40));
    idx.insert(HLLSetRank::from_raw("h:a", 7, 9, &DegreeRankFn));
    assert_eq!(idx.len(), 2);
    assert_eq!((idx.at(0).degree, idx.at(0).popcount), (7, 9));
    assert_eq!(idx.at(1).popcount, 30);
}

#[test]
fn edges_count_on_both_sides() {
    let idx = make_index(&[("h:a", 100, 3, 50), ("h:b", 50, 2, 30), ("h:c", 40, 1, 5)]);
    let mask = ObservableMask::apply(&idx, 25);
    let mut degree = SubLatticeDegree::new();
    degree.add_edge("h:a", "h:b", &mask);
    degree.add_edge("h:c", "h:a", &mask);
    degree.recompute(&mask);
    assert_eq!((degree.degree("h:a"), degree.degree("h:b"), degree.degree("h:c")), (2, 1, 1));
    assert_eq!(degree.active_count(), 3);
}
