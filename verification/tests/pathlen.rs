use oiforest::pathlen::{multiplier_fp, random_path_length_fp, reaches_split_threshold, score_fp};
use oiforest::{GrowthCriterion, SCALE};

#[test]
fn path_length_is_zero_below_max_leaf() {
    assert_eq!(random_path_length_fp(2, 2, 0, 1), 0);
    assert_eq!(random_path_length_fp(2, 2, 1, 1), 0);
    assert_eq!(random_path_length_fp(8, 100, 99, 1), 0);
}

#[test]
fn path_length_exact_at_powers() {
    // branching 2 means base 4: depth 1 at 4 points, depth 2 at 16.
    assert_eq!(random_path_length_fp(2, 1, 4, 1), SCALE);
    assert_eq!(random_path_length_fp(2, 1, 16, 1), 2 * SCALE);
    // branching 4 means base 8.
    assert_eq!(random_path_length_fp(4, 1, 8, 1), SCALE);
    assert_eq!(random_path_length_fp(4, 1, 64, 1), 2 * SCALE);
}

#[test]
fn path_length_interpolates_between_powers() {
    // base 4, max_leaf 1: n = 2 sits a third of the way from 1 to 4.
    assert_eq!(random_path_length_fp(2, 1, 2, 1), SCALE / 3);
    // n = 2 with max_leaf 2 in base 4: exactly at the lower power.
    assert_eq!(random_path_length_fp(2, 2, 2, 1), 0);
    // halfway point of the first segment: n/ml = 2.5 in base 4.
    assert_eq!(random_path_length_fp(2, 2, 5, 1), SCALE / 2);
}

#[test]
fn path_length_accepts_fractional_populations() {
    // The same point expressed as a scaled fraction gives the same value.
    let whole = random_path_length_fp(2, 1, 2, 1);
    let scaled = random_path_length_fp(2, 1, 2 * (SCALE as u128), SCALE as u128);
    assert_eq!(whole, scaled);
}

#[test]
fn path_length_is_monotone() {
    let mut prev = 0u64;
    for n in 0..200u128 {
        let v = random_path_length_fp(2, 3, n, 1);
        assert!(v >= prev);
        prev = v;
    }
}

#[test]
fn multiplier_fixed_and_adaptive() {
    assert_eq!(multiplier_fp(GrowthCriterion::Fixed, 0), 1);
    assert_eq!(multiplier_fp(GrowthCriterion::Fixed, 10), 1);
    assert_eq!(multiplier_fp(GrowthCriterion::Adaptive, 0), 1);
    assert_eq!(multiplier_fp(GrowthCriterion::Adaptive, 3), 8);
    assert_eq!(multiplier_fp(GrowthCriterion::Adaptive, 63), 1u64 << 63);
    assert_eq!(multiplier_fp(GrowthCriterion::Adaptive, 64), u64::MAX);
}

#[test]
fn split_threshold_scales_with_depth() {
    // Fixed: threshold is max_leaf_samples at every depth.
    assert!(!reaches_split_threshold(2, GrowthCriterion::Fixed, 0, 1));
    assert!(reaches_split_threshold(2, GrowthCriterion::Fixed, 0, 2));
    assert!(reaches_split_threshold(2, GrowthCriterion::Fixed, 9, 2));
    // Adaptive: threshold doubles with each level.
    assert!(!reaches_split_threshold(2, GrowthCriterion::Adaptive, 2, 7));
    assert!(reaches_split_threshold(2, GrowthCriterion::Adaptive, 2, 8));
    // An overflowing threshold can never be reached.
    assert!(!reaches_split_threshold(u64::MAX, GrowthCriterion::Adaptive, 40, u64::MAX));
}

#[test]
fn score_of_zero_depth_is_one() {
    assert_eq!(score_fp(0, 1, 0), SCALE);
    assert_eq!(score_fp(0, 7, 123), SCALE);
}

#[test]
fn score_exact_half() {
    // One tree, normalizer 65535 (+1 fixed-point epsilon): a mean depth of
    // exactly one normalized unit halves the score.
    assert_eq!(score_fp(SCALE as u128, 1, SCALE - 1), SCALE / 2);
    // Two normalized units quarter it.
    assert_eq!(score_fp(2 * SCALE as u128, 1, SCALE - 1), SCALE / 4);
}

#[test]
fn score_is_monotone_decreasing_in_depth() {
    let mut prev = u64::MAX;
    for s in 0..100u128 {
        let v = score_fp(s * 1000, 3, 2 * SCALE);
        assert!(v <= prev);
        prev = v;
    }
}

#[test]
fn deep_depths_score_near_zero() {
    assert_eq!(score_fp((200u128) * (SCALE as u128) * (SCALE as u128), 1, 0), 0);
}
