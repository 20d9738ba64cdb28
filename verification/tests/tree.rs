use oiforest::tree::OnlineIsolationTree;
use oiforest::{GrowthCriterion, SplitKind, TreeParams, SCALE};

fn params(branching_factor: usize, max_leaf_samples: usize) -> TreeParams {
    TreeParams {
        branching_factor,
        max_leaf_samples,
        growth_criterion: GrowthCriterion::Fixed,
        split_kind: SplitKind::AxisAligned,
    }
}

fn rows(vals: &[&[i64]]) -> Vec<Vec<i64>> {
    vals.iter().map(|r| r.to_vec()).collect()
}

#[test]
fn empty_tree_predicts_zero() {
    let t = OnlineIsolationTree::new(params(2, 2), SCALE, 2, 7);
    assert_eq!(t.data_size(), 0);
    let d = t.predict(&rows(&[&[1, 2], &[3, 4]]));
    assert_eq!(d, vec![0, 0]);
}

#[test]
fn learn_counts_every_row_at_full_subsample() {
    let mut t = OnlineIsolationTree::new(params(2, 2), SCALE, 1, 7);
    t.learn(&rows(&[&[0], &[10], &[20]]));
    assert_eq!(t.data_size(), 3);
    t.learn(&rows(&[&[5]]));
    assert_eq!(t.data_size(), 4);
}

#[test]
fn round_trip_batch_vs_incremental_without_splits() {
    // A leaf capacity above the row count means no leaf ever converts, so
    // the batch-built tree and the incrementally grown tree agree exactly
    // on root count and root bounding box.
    let data: Vec<Vec<i64>> = rows(&[&[0, 5], &[10, -3], &[4, 4], &[7, 99]]);
    let mut a = OnlineIsolationTree::new(params(2, 10), SCALE, 2, 1);
    a.learn(&data);
    let mut b = OnlineIsolationTree::new(params(2, 10), SCALE, 2, 2);
    for r in &data {
        b.learn(&vec![r.clone()]);
    }
    assert_eq!(a.data_size(), b.data_size());
    assert_eq!(a.data_size(), 4);
    let (amin, amax) = a.root_bounds().unwrap();
    let (bmin, bmax) = b.root_bounds().unwrap();
    assert_eq!(amin, vec![0, -3]);
    assert_eq!(amax, vec![10, 99]);
    assert_eq!(amin, bmin);
    assert_eq!(amax, bmax);
}

#[test]
fn round_trip_batch_vs_incremental_with_splits() {
    // With a small leaf capacity leaves convert and resample their
    // history, so split structure and boxes may differ; the counts still
    // agree and the incremental box stays inside the batch box.
    let data: Vec<Vec<i64>> =
        rows(&[&[0], &[1000], &[10], &[990], &[20], &[980], &[500], &[510]]);
    let mut a = OnlineIsolationTree::new(params(2, 2), SCALE, 1, 1);
    a.learn(&data);
    let mut b = OnlineIsolationTree::new(params(2, 2), SCALE, 1, 2);
    for r in &data {
        b.learn(&vec![r.clone()]);
    }
    assert_eq!(a.data_size(), b.data_size());
    let (amin, amax) = a.root_bounds().unwrap();
    let (bmin, bmax) = b.root_bounds().unwrap();
    // The batch build sees every raw row, so its root box is the exact
    // bounding box of the data.
    assert_eq!(amin, vec![0]);
    assert_eq!(amax, vec![1000]);
    assert!(bmin[0] >= amin[0]);
    assert!(bmax[0] <= amax[0]);
}

#[test]
fn learn_then_unlearn_restores_count_and_limit() {
    let mut t = OnlineIsolationTree::new(params(2, 2), SCALE, 1, 9);
    t.learn(&rows(&[&[0], &[50], &[100]]));
    let size_before = t.data_size();
    let limit_before = t.depth_limit_fp();
    let batch = rows(&[&[25], &[75]]);
    t.learn(&batch);
    t.unlearn(&batch);
    assert_eq!(t.data_size(), size_before);
    assert_eq!(t.depth_limit_fp(), limit_before);
}

#[test]
fn depth_limit_never_decreases_while_growing() {
    let mut t = OnlineIsolationTree::new(params(3, 2), SCALE, 2, 4);
    let mut prev = t.depth_limit_fp();
    for i in 0..40i64 {
        t.learn(&rows(&[&[i * 3, -i]]));
        let cur = t.depth_limit_fp();
        assert!(cur >= prev);
        prev = cur;
    }
}

#[test]
fn unlearn_below_threshold_collapses_root() {
    let mut t = OnlineIsolationTree::new(params(2, 2), SCALE, 1, 11);
    let batch = rows(&[&[0], &[100], &[200], &[300], &[400], &[500]]);
    t.learn(&batch);
    assert!(t.root_is_internal());
    let (min_before, max_before) = t.root_bounds().unwrap();
    // Removing almost everything drops the root below its split threshold.
    t.unlearn(&rows(&[&[0], &[100], &[200], &[300], &[400]]));
    assert_eq!(t.data_size(), 1);
    assert!(!t.root_is_internal());
    // The collapsed leaf keeps the union of the descendant leaves' boxes,
    // which here is exactly the old root box.
    let (min_after, max_after) = t.root_bounds().unwrap();
    assert_eq!(min_before, min_after);
    assert_eq!(max_before, max_after);
}

#[test]
fn identical_rows_are_handled_degenerately() {
    // A zero-width bounding box exercises the degenerate threshold and
    // sampling paths; nothing fails and the counts stay exact.
    let mut t = OnlineIsolationTree::new(params(3, 2), SCALE, 2, 5);
    for _ in 0..6 {
        t.learn(&rows(&[&[42, 42]]));
    }
    assert_eq!(t.data_size(), 6);
    let (bmin, bmax) = t.root_bounds().unwrap();
    assert_eq!(bmin, vec![42, 42]);
    assert_eq!(bmax, vec![42, 42]);
    let d = t.predict(&rows(&[&[42, 42]]));
    assert_eq!(d.len(), 1);
}

#[test]
fn smallest_subsample_keeps_few_rows() {
    // With the smallest ratio almost every row is dropped; the count can
    // only stay far below the number of rows fed.
    let mut t = OnlineIsolationTree::new(params(2, 2), 1, 1, 3);
    for i in 0..50i64 {
        t.learn(&rows(&[&[i]]));
    }
    assert!(t.data_size() < 50);
}
