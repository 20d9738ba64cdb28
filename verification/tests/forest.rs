use oiforest::forest::OnlineIsolationForest;
use oiforest::model::BaseModel;
use oiforest::{GrowthCriterion, ModelError, SplitKind, SCALE};

fn forest(
    num_trees: usize,
    max_leaf_samples: usize,
    subsample: u64,
    window_size: usize,
    branching_factor: usize,
    seed: u64,
) -> OnlineIsolationForest {
    OnlineIsolationForest::new(
        num_trees,
        max_leaf_samples,
        GrowthCriterion::Fixed,
        subsample,
        window_size,
        branching_factor,
        SplitKind::AxisAligned,
        seed,
    )
    .unwrap()
}

#[test]
fn invalid_configurations_are_rejected() {
    let bad = [
        OnlineIsolationForest::new(0, 2, GrowthCriterion::Fixed, SCALE, 0, 2, SplitKind::AxisAligned, 1),
        OnlineIsolationForest::new(1, 0, GrowthCriterion::Fixed, SCALE, 0, 2, SplitKind::AxisAligned, 1),
        OnlineIsolationForest::new(1, 2, GrowthCriterion::Fixed, SCALE, 0, 1, SplitKind::AxisAligned, 1),
        OnlineIsolationForest::new(1, 2, GrowthCriterion::Fixed, 0, 0, 2, SplitKind::AxisAligned, 1),
        OnlineIsolationForest::new(1, 2, GrowthCriterion::Fixed, SCALE + 1, 0, 2, SplitKind::AxisAligned, 1),
        OnlineIsolationForest::new(1, 2, GrowthCriterion::Fixed, SCALE, usize::MAX, 2, SplitKind::AxisAligned, 1),
    ];
    for r in bad {
        assert_eq!(r.err().unwrap(), ModelError::InvalidConfiguration);
    }
    assert!(OnlineIsolationForest::new(
        1,
        2,
        GrowthCriterion::Adaptive,
        SCALE,
        0,
        2,
        SplitKind::AxisAligned,
        1
    )
    .is_ok());
}

#[test]
fn score_before_any_fit_is_neutral() {
    let f = forest(4, 2, SCALE, 0, 2, 3);
    assert_eq!(f.score_partial(&vec![7, 7]).unwrap(), SCALE / 2);
}

#[test]
fn dimension_mismatch_is_reported_and_state_kept() {
    let mut f = forest(2, 2, SCALE, 0, 2, 3);
    f.fit_partial(&vec![1, 2]).unwrap();
    let total = f.total_size();
    let e = f.fit_partial(&vec![1]).err().unwrap();
    assert_eq!(e, ModelError::DimensionMismatch { expected: 2, got: 1 });
    assert_eq!(f.total_size(), total);
    let e2 = f.score_partial(&vec![1, 2, 3]).err().unwrap();
    assert_eq!(e2, ModelError::DimensionMismatch { expected: 2, got: 3 });
}

#[test]
fn window_eviction_caps_the_retained_count() {
    // Scenario: capacity 2; after four rows fed one at a time, exactly two
    // are retained, the two oldest having passed through every tree's
    // unlearn.
    let mut f = forest(3, 2, SCALE, 2, 2, 5);
    for v in [1i64, 2, 3, 4] {
        f.fit_partial(&vec![v]).unwrap();
    }
    assert_eq!(f.total_size(), 2);
    assert_eq!(f.window_len(), 2);
    // At full subsample each tree absorbed all four rows and removed the
    // two evicted ones.
    for t in f.trees().iter() {
        assert_eq!(t.data_size(), 2);
    }
}

#[test]
fn eviction_restores_count_and_normalization() {
    // Once the window is full, every insert is cancelled by an eviction:
    // the retained count and the normalization factor return to their
    // prior values after each fit.
    let mut f = forest(2, 2, SCALE, 3, 2, 8);
    for v in [10i64, 20, 30] {
        f.fit_partial(&vec![v]).unwrap();
    }
    let total = f.total_size();
    let norm = f.normalization_factor_fp();
    for v in [40i64, 50, 60, 70] {
        f.fit_partial(&vec![v]).unwrap();
        assert_eq!(f.total_size(), total);
        assert_eq!(f.normalization_factor_fp(), norm);
    }
}

#[test]
fn outlier_scores_higher_than_inlier() {
    // Scenario: one tree, branching 2, leaf capacity 2, full subsample, no
    // window; rows 0, 10, 0.1 and 9.9 in units of one hundredth. After the
    // fourth row the root is internal (4 is at least twice the leaf
    // capacity), and a far outlier scores above a point between the two
    // clusters.
    let mut f = forest(1, 2, SCALE, 0, 2, 2875);
    for v in [0i64, 1000, 10, 990] {
        f.fit_partial(&vec![v]).unwrap();
    }
    assert_eq!(f.total_size(), 4);
    assert!(f.trees()[0].root_is_internal());
    let far = f.score_partial(&vec![10000]).unwrap();
    let mid = f.score_partial(&vec![500]).unwrap();
    assert!(far > mid, "far {} mid {}", far, mid);
}

#[test]
fn far_point_scores_near_one_and_cluster_center_low() {
    // A few spread-out points followed by a dense cluster: the sparse
    // regions end in shallow, nearly empty leaves, so a probe far outside
    // the cluster isolates quickly and scores high, while the cluster
    // centroid survives deep into every tree and scores low.
    let mut f = forest(8, 2, SCALE, 0, 2, 12);
    for v in [80_000i64, 5_000, 40_000] {
        f.fit_partial(&vec![v, v]).unwrap();
    }
    for i in 0..50i64 {
        f.fit_partial(&vec![1000 + (i % 10), 1000 + ((i * 3) % 10)]).unwrap();
    }
    let far = f.score_partial(&vec![60_000, 60_000]).unwrap();
    let center = f.score_partial(&vec![1_005, 1_005]).unwrap();
    assert!(far > center, "far {} center {}", far, center);
    assert!(far > SCALE / 2, "far {}", far);
    assert!(center < SCALE / 2, "center {}", center);
}

#[test]
fn batch_operations_mirror_the_single_row_ones() {
    let rows: Vec<Vec<i64>> = vec![vec![1, 1], vec![2, 5], vec![9, 9], vec![4, 0]];
    let mut a = forest(3, 2, SCALE, 0, 2, 21);
    a.fit(&rows).unwrap();
    let mut b = forest(3, 2, SCALE, 0, 2, 21);
    for r in &rows {
        b.fit_partial(r).unwrap();
    }
    let sa = a.score(&rows).unwrap();
    let sb = b.score(&rows).unwrap();
    assert_eq!(sa, sb);
}

#[test]
fn fit_score_partial_fits_then_scores() {
    let mut a = forest(2, 2, SCALE, 0, 2, 33);
    let mut b = forest(2, 2, SCALE, 0, 2, 33);
    for v in [5i64, 6, 7] {
        let sa = a.fit_score_partial(&vec![v]).unwrap();
        b.fit_partial(&vec![v]).unwrap();
        let sb = b.score_partial(&vec![v]).unwrap();
        assert_eq!(sa, sb);
    }
}

#[test]
fn streaming_contract_drives_the_forest() {
    // The shared model trait: batch default operations over the two
    // primitives, with the neutral score before initialization.
    let mut f = forest(2, 2, SCALE, 4, 2, 44);
    let rows: Vec<Vec<i64>> = vec![vec![3], vec![8], vec![13]];
    assert_eq!(BaseModel::score_partial(&f, &vec![3]).unwrap(), SCALE / 2);
    BaseModel::fit(&mut f, &rows).unwrap();
    let scores = BaseModel::score(&f, &rows).unwrap();
    assert_eq!(scores.len(), 3);
    let more = BaseModel::fit_score(&mut f, &rows).unwrap();
    assert_eq!(more.len(), 3);
    assert_eq!(f.total_size(), 4);
}

#[test]
fn batch_fit_stops_at_first_mismatched_row() {
    let mut f = forest(2, 2, SCALE, 0, 2, 17);
    let rows: Vec<Vec<i64>> = vec![vec![1, 2], vec![3, 4], vec![5], vec![6, 7]];
    let e = f.fit(&rows).err().unwrap();
    assert_eq!(e, ModelError::DimensionMismatch { expected: 2, got: 1 });
    // The rows before the mismatch stay absorbed.
    assert_eq!(f.total_size(), 2);
    let e2 = f.score(&rows).err().unwrap();
    assert_eq!(e2, ModelError::DimensionMismatch { expected: 2, got: 1 });
}

#[test]
fn empty_batch_is_a_no_op() {
    let mut f = forest(2, 2, SCALE, 0, 2, 9);
    f.fit(&Vec::new()).unwrap();
    assert_eq!(f.total_size(), 0);
    assert!(!f.is_initialized());
}

#[test]
fn unbounded_window_never_evicts() {
    let mut f = forest(2, 3, SCALE, 0, 2, 13);
    for i in 0..20i64 {
        f.fit_partial(&vec![i]).unwrap();
    }
    assert_eq!(f.total_size(), 20);
    assert_eq!(f.window_len(), 0);
    for t in f.trees().iter() {
        assert_eq!(t.data_size(), 20);
    }
}
