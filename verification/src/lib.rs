//! Online isolation forest: a streaming anomaly-scoring model.
//!
//! The forest consumes data points one at a time, updates an ensemble of
//! isolation trees incrementally (including deletion when a sliding window
//! evicts old points), and produces an anomaly score without re-scanning
//! historical data.
//!
//! Coordinates and scores are fixed-point integers: a row is a vector of
//! `i64` coordinates, and scores and path lengths are scaled by `SCALE`
//! (so `SCALE` stands for 1.0).

use vstd::prelude::*;

mod rng;
pub mod forest;
pub mod model;
pub mod node;
pub mod pathlen;
pub mod tree;

verus! {

/// Fixed-point scale: this many units stand for 1.0.
pub const SCALE: u64 = 65536;

/// Errors reported by the streaming models.
#[derive(Clone, Copy, Debug, PartialEq, Eq, Structural)]
pub enum ModelError {
    /// A row's length differs from the feature count established by the
    /// first absorbed row.
    DimensionMismatch { expected: usize, got: usize },
    /// A configuration was rejected at construction time.
    InvalidConfiguration,
}

/// Policy controlling how the per-node split threshold scales with depth.
#[derive(Clone, Copy, Debug, PartialEq, Eq, Structural)]
pub enum GrowthCriterion {
    /// The threshold is `max_leaf_samples` at every depth.
    Fixed,
    /// The threshold is `max_leaf_samples * 2^depth`: deeper nodes accumulate
    /// more samples before splitting, compensating for shrinking volume.
    Adaptive,
}

/// Kind of split an internal node uses. Only axis-aligned splits exist: the
/// projection selects a single coordinate.
#[derive(Clone, Copy, Debug, PartialEq, Eq, Structural)]
pub enum SplitKind {
    AxisAligned,
}

/// Immutable per-tree configuration.
#[derive(Clone, Copy, Debug)]
pub struct TreeParams {
    /// Children per internal node.
    pub branching_factor: usize,
    /// Base split threshold: a leaf below this many samples never splits.
    pub max_leaf_samples: usize,
    /// How the split threshold scales with depth.
    pub growth_criterion: GrowthCriterion,
    /// Kind of split an internal node uses.
    pub split_kind: SplitKind,
}

/// The configuration bounds every tree operation relies on.
pub open spec fn params_wf(p: TreeParams) -> bool {
    &&& 2 <= p.branching_factor <= 65536
    &&& 1 <= p.max_leaf_samples
}

} // verus!
