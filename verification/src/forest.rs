//! The online isolation forest: an ensemble of independent trees, a
//! bounded sliding window of recent rows, and a running normalization
//! factor.
//!
//! `fit_partial` feeds a row to every tree, appends it to the window, and
//! evicts the oldest rows through `unlearn` once the window overflows.
//! `score_partial` averages the per-tree isolation depths and converts the
//! mean into an anomaly score, scaled by `SCALE`: at most `SCALE` (that
//! is, 1.0), nearing it for points that isolate immediately; a score so
//! deep that it falls below one fixed-point unit rounds to zero.

use vstd::prelude::*;
use std::collections::VecDeque;
use crate::node::batch_view;
use crate::node::batch_wf;
use crate::node::clone_row_public;
use crate::node::depth_value;
use crate::node::sat_add;
use crate::node::sat_sub;
use crate::pathlen::random_path_length_fp;
use crate::pathlen::rpl_spec;
use crate::pathlen::reaches_threshold_spec;
use crate::pathlen::score_spec;
use crate::pathlen::score_fp;
use crate::rng::rng_below;
use crate::rng::rng_from_seed;
use crate::tree::OnlineIsolationTree;
use crate::params_wf;
use crate::GrowthCriterion;
use crate::ModelError;
use crate::SplitKind;
use crate::TreeParams;
use crate::SCALE;

verus! {

/// The fixed-point depth a single tree assigns to a row: zero while the
/// tree is still empty.
pub open spec fn tree_depth(t: OnlineIsolationTree, row: Seq<i64>, bf: int, ml: int) -> int {
    match t.spec_root() {
        Some(r) => depth_value(r, row, bf, ml),
        None => 0,
    }
}

/// Sum of the per-tree depths for a row.
pub open spec fn sum_depths(trees: Seq<OnlineIsolationTree>, row: Seq<i64>, bf: int, ml: int) -> int
    decreases trees.len(),
{
    if trees.len() == 0 {
        0
    } else {
        sum_depths(trees.drop_last(), row, bf, ml) + tree_depth(trees.last(), row, bf, ml)
    }
}

/// The retained window size after one absorbed row: one more than before,
/// capped at the window capacity when one is set.
pub open spec fn total_after(total: int, window_size: int) -> int {
    let t1 = sat_add(total, 1);
    if window_size > 0 && t1 > window_size {
        window_size
    } else {
        t1
    }
}

/// The retained count after a whole batch: each row adds one, the window
/// capacity capping the total after every step.
pub open spec fn total_after_batch(total: int, window_size: int, n: nat) -> int
    decreases n,
{
    if n == 0 {
        total
    } else {
        total_after(total_after_batch(total, window_size, (n - 1) as nat), window_size)
    }
}

/// How many rows the window evicts when one row arrives.
pub open spec fn excess_after(total: int, window_size: int) -> int {
    let t1 = sat_add(total, 1);
    if window_size > 0 && t1 > window_size {
        t1 - window_size
    } else {
        0
    }
}

/// An ensemble of online isolation trees over a sliding window.
pub struct OnlineIsolationForest {
    params: TreeParams,
    num_trees: usize,
    subsample: u64,
    window_size: usize,
    rng: rand::rngs::StdRng,
    to_init: bool,
    num_features: usize,
    trees: Vec<OnlineIsolationTree>,
    window: VecDeque<Vec<i64>>,
    total_size: usize,
    normalization_factor: u64,
}

impl OnlineIsolationForest {
    /// Per-tree configuration.
    pub closed spec fn spec_params(self) -> TreeParams {
        self.params
    }

    /// Number of trees in the ensemble.
    pub closed spec fn spec_num_trees(self) -> usize {
        self.num_trees
    }

    /// Keep-probability of a row per tree, scaled by `SCALE`.
    pub closed spec fn spec_subsample(self) -> u64 {
        self.subsample
    }

    /// Window capacity; zero means unbounded (no eviction).
    pub closed spec fn spec_window_size(self) -> usize {
        self.window_size
    }

    /// Whether the first row has arrived and the trees exist.
    pub closed spec fn spec_initialized(self) -> bool {
        !self.to_init
    }

    /// The feature count established by the first absorbed row.
    pub closed spec fn spec_num_features(self) -> usize {
        self.num_features
    }

    /// The trees of the ensemble.
    pub closed spec fn spec_trees(self) -> Seq<OnlineIsolationTree> {
        self.trees@
    }

    /// Points currently retained across the forest's logical window.
    pub closed spec fn spec_total_size(self) -> usize {
        self.total_size
    }

    /// The scaled expected isolation depth for the retained population,
    /// used to normalize raw depths into scores.
    pub closed spec fn spec_normalization_factor(self) -> u64 {
        self.normalization_factor
    }

    /// The rows currently held in the sliding window, oldest first.
    pub closed spec fn window_view(self) -> Seq<Seq<i64>> {
        Seq::new(self.window@.len(), |k: int| self.window@[k]@)
    }

    /// Forest invariant: configuration in range; before the first row no
    /// trees, no window, no count; afterwards exactly `num_trees` trees,
    /// each well formed over the established feature count and carrying
    /// the shared configuration; the window length mirrors the retained
    /// count under a positive capacity; and the normalization factor
    /// matches the retained count.
    pub closed spec fn wf(self) -> bool {
        &&& params_wf(self.params)
        &&& 1 <= self.subsample <= SCALE
        &&& self.num_trees >= 1
        &&& self.to_init ==> {
            &&& self.trees@.len() == 0
            &&& self.total_size == 0
            &&& self.num_features == 0
            &&& self.window@.len() == 0
        }
        &&& !self.to_init ==> {
            &&& self.trees@.len() == self.num_trees
            &&& self.num_features >= 1
            &&& forall|j: int|
                0 <= j < self.trees@.len() ==> (#[trigger] self.trees@[j]).wf()
            &&& forall|j: int|
                0 <= j < self.trees@.len() ==> (#[trigger] self.trees@[j]).spec_num_features()
                    == self.num_features
            &&& forall|j: int|
                0 <= j < self.trees@.len() ==> (#[trigger] self.trees@[j]).spec_params()
                    == self.params
            &&& forall|j: int|
                0 <= j < self.trees@.len() ==> (#[trigger] self.trees@[j]).spec_subsample()
                    == self.subsample
        }
        &&& self.window_size < usize::MAX
        &&& self.window_size > 0 ==> self.window@.len() == self.total_size && self.total_size
            <= self.window_size
        &&& self.window_size == 0 ==> self.window@.len() == 0
        &&& forall|k: int|
            0 <= k < self.window@.len() ==> (#[trigger] self.window@[k])@.len()
                == self.num_features
        &&& self.normalization_factor == rpl_spec(
            self.params.branching_factor as int,
            self.params.max_leaf_samples as int,
            self.total_size * self.subsample,
            SCALE as int,
        )
    }

    /// The normalization factor is monotonically non-decreasing in the
    /// retained count: of two forests with the same configuration, the
    /// one that has retained more points never has the smaller factor.
    pub proof fn lemma_normalization_monotonic(a: OnlineIsolationForest, b: OnlineIsolationForest)
        requires
            a.wf(),
            b.wf(),
            a.spec_params() == b.spec_params(),
            a.spec_subsample() == b.spec_subsample(),
            a.spec_total_size() <= b.spec_total_size(),
        ensures
            a.spec_normalization_factor() <= b.spec_normalization_factor(),
    {
        assert(a.spec_total_size() * a.spec_subsample() <= b.spec_total_size()
            * b.spec_subsample()) by (nonlinear_arith)
            requires
                a.spec_total_size() <= b.spec_total_size(),
                a.spec_subsample() == b.spec_subsample(),
                a.spec_subsample() >= 1,
                a.spec_total_size() >= 0,
        ;
        crate::pathlen::lemma_rpl_monotonic(
            a.spec_params().branching_factor as int,
            a.spec_params().max_leaf_samples as int,
            a.spec_total_size() * a.spec_subsample(),
            b.spec_total_size() * b.spec_subsample(),
            SCALE as int,
        );
    }

    /// Every tree of a well-formed forest is itself well formed over the
    /// established feature count and shares the forest's configuration,
    /// and the normalization factor is the scaled expected isolation
    /// depth for the retained population.
    pub proof fn lemma_wf_trees(self)
        requires
            self.wf(),
        ensures
            params_wf(self.spec_params()),
            self.spec_initialized() ==> self.spec_trees().len() == self.spec_num_trees(),
            forall|j: int|
                0 <= j < self.spec_trees().len() ==> (#[trigger] self.spec_trees()[j]).wf()
                    && self.spec_trees()[j].spec_params() == self.spec_params()
                    && self.spec_trees()[j].spec_num_features() == self.spec_num_features(),
            self.spec_normalization_factor() == rpl_spec(
                self.spec_params().branching_factor as int,
                self.spec_params().max_leaf_samples as int,
                self.spec_total_size() * self.spec_subsample(),
                SCALE as int,
            ),
    {
    }

    /// Build a forest, rejecting configurations outside the documented
    /// ranges: at least one tree, a branching factor of at least two (and
    /// within the supported fixed-point range), a positive leaf capacity,
    /// and a subsample ratio in `(0, 1]`.
    pub fn new(
        num_trees: usize,
        max_leaf_samples: usize,
        growth_criterion: GrowthCriterion,
        subsample: u64,
        window_size: usize,
        branching_factor: usize,
        split_kind: SplitKind,
        seed: u64,
    ) -> (r: Result<OnlineIsolationForest, ModelError>)
        ensures
            r is Ok <==> (num_trees >= 1 && max_leaf_samples >= 1 && 2 <= branching_factor
                <= 65536 && 1 <= subsample <= SCALE && window_size < usize::MAX),
            r is Err ==> r == Err::<OnlineIsolationForest, ModelError>(
                ModelError::InvalidConfiguration,
            ),
            r is Ok ==> {
                let f = r->Ok_0;
                &&& f.wf()
                &&& !f.spec_initialized()
                &&& f.spec_total_size() == 0
                &&& f.spec_num_trees() == num_trees
                &&& f.spec_window_size() == window_size
                &&& f.spec_subsample() == subsample
                &&& f.spec_params() == (TreeParams {
                    branching_factor,
                    max_leaf_samples,
                    growth_criterion,
                    split_kind,
                })
            },
    {
        if num_trees < 1 || max_leaf_samples < 1 || branching_factor < 2 || branching_factor
            > 65536 || subsample < 1 || subsample > SCALE || window_size == usize::MAX {
            return Err(ModelError::InvalidConfiguration);
        }
        let params = TreeParams { branching_factor, max_leaf_samples, growth_criterion, split_kind };
        let normalization_factor = random_path_length_fp(
            branching_factor as u64,
            max_leaf_samples as u64,
            0,
            SCALE as u128,
        );
        Ok(
            OnlineIsolationForest {
                params,
                num_trees,
                subsample,
                window_size,
                rng: rng_from_seed(seed),
                to_init: true,
                num_features: 0,
                trees: Vec::new(),
                window: VecDeque::new(),
                total_size: 0,
                normalization_factor,
            },
        )
    }

    /// Exec accessor: points currently retained.
    pub fn total_size(&self) -> (r: usize)
        ensures
            r == self.spec_total_size(),
    {
        self.total_size
    }

    /// Exec accessor: the scaled normalization factor.
    pub fn normalization_factor_fp(&self) -> (r: u64)
        ensures
            r == self.spec_normalization_factor(),
    {
        self.normalization_factor
    }

    /// Exec accessor: the established feature count (zero before the
    /// first row).
    pub fn num_features(&self) -> (r: usize)
        ensures
            r == self.spec_num_features(),
    {
        self.num_features
    }

    /// Exec accessor: whether the first row has arrived.
    pub fn is_initialized(&self) -> (r: bool)
        ensures
            r == self.spec_initialized(),
    {
        !self.to_init
    }

    /// Exec accessor: rows currently held in the window.
    pub fn window_len(&self) -> (r: usize)
        ensures
            r == self.window_view().len(),
    {
        self.window.len()
    }

    /// Exec accessor: the trees of the ensemble.
    pub fn trees(&self) -> (r: &Vec<OnlineIsolationTree>)
        ensures
            r@ == self.spec_trees(),
    {
        &self.trees
    }

    /// The normalization factor for a retained count.
    fn norm_for(params: TreeParams, subsample: u64, total: usize) -> (r: u64)
        requires
            params_wf(params),
            1 <= subsample <= SCALE,
        ensures
            r == rpl_spec(
                params.branching_factor as int,
                params.max_leaf_samples as int,
                total * subsample,
                SCALE as int,
            ),
            r <= 83 * SCALE,
    {
        proof {
            assert((total as int) * (subsample as int) <= 0x100000000000000000000)
                by (nonlinear_arith)
                requires
                    total <= 0xffffffffffffffff,
                    subsample <= 65536,
            ;
        }
        random_path_length_fp(
            params.branching_factor as u64,
            params.max_leaf_samples as u64,
            (total as u128) * (subsample as u128),
            SCALE as u128,
        )
    }

    /// Absorb one row. On the first call the feature count is established
    /// and the trees are created, each with its own seed. The row is fed
    /// to every tree, appended to the window, and once the window exceeds
    /// its capacity the oldest rows are passed through every tree's
    /// `unlearn` and dropped. The normalization factor tracks every count
    /// change. A row of the wrong length is rejected and the state is left
    /// untouched.
    pub fn fit_partial(&mut self, x: &Vec<i64>) -> (r: Result<(), ModelError>)
        requires
            old(self).wf(),
            x@.len() >= 1,
        ensures
            final(self).wf(),
            r is Err <==> (old(self).spec_initialized() && x@.len()
                != old(self).spec_num_features()),
            r is Err ==> *final(self) == *old(self) && r == Err::<(), ModelError>(
                ModelError::DimensionMismatch {
                    expected: old(self).spec_num_features(),
                    got: x.len(),
                },
            ),
            r is Ok ==> {
                &&& final(self).spec_initialized()
                &&& final(self).spec_num_features() == (if old(self).spec_initialized() {
                    old(self).spec_num_features() as int
                } else {
                    x@.len() as int
                })
                &&& final(self).spec_total_size() == total_after(
                    old(self).spec_total_size() as int,
                    old(self).spec_window_size() as int,
                )
                &&& final(self).spec_window_size() == old(self).spec_window_size()
                &&& final(self).spec_num_trees() == old(self).spec_num_trees()
                &&& final(self).spec_params() == old(self).spec_params()
                &&& final(self).spec_subsample() == old(self).spec_subsample()
                &&& final(self).spec_normalization_factor() == rpl_spec(
                    old(self).spec_params().branching_factor as int,
                    old(self).spec_params().max_leaf_samples as int,
                    final(self).spec_total_size() * old(self).spec_subsample(),
                    SCALE as int,
                )
                &&& (old(self).spec_window_size() > 0 ==> final(self).window_view()
                    =~= old(self).window_view().push(x@).skip(
                    excess_after(
                        old(self).spec_total_size() as int,
                        old(self).spec_window_size() as int,
                    ),
                ))
                &&& (old(self).spec_subsample() == SCALE ==> forall|j: int|
                    0 <= j < final(self).spec_trees().len()
                        ==> (#[trigger] final(self).spec_trees()[j]).spec_data_size() == sat_sub(
                        sat_add(
                            if old(self).spec_initialized() {
                                old(self).spec_trees()[j].spec_data_size() as int
                            } else {
                                0
                            },
                            1,
                        ),
                        excess_after(
                            old(self).spec_total_size() as int,
                            old(self).spec_window_size() as int,
                        ),
                    ))
                &&& (old(self).spec_subsample() == SCALE && excess_after(
                    old(self).spec_total_size() as int,
                    old(self).spec_window_size() as int,
                ) == 0 ==> forall|j: int|
                    0 <= j < final(self).spec_trees().len() ==> {
                        let t = #[trigger] final(self).spec_trees()[j];
                        let prior_internal = old(self).spec_initialized() && old(
                            self,
                        ).spec_trees()[j].spec_root() is Some && old(
                            self,
                        ).spec_trees()[j].spec_root()->0.children is Some;
                        let prior_ds: int = if old(self).spec_initialized() {
                            old(self).spec_trees()[j].spec_data_size() as int
                        } else {
                            0
                        };
                        &&& t.spec_root() is Some
                        &&& (t.spec_root()->0.children is Some <==> (prior_internal || (
                        reaches_threshold_spec(
                            old(self).spec_params().max_leaf_samples as int,
                            old(self).spec_params().growth_criterion,
                            0,
                            sat_add(prior_ds, 1),
                        ) && t.spec_depth_limit() > 0)))
                    })
            },
    {
        let ghost pre = *old(self);
        if self.to_init {
            self.num_features = x.len();
            let mut trees: Vec<OnlineIsolationTree> = Vec::new();
            let n = self.num_trees;
            let ghost w0 = self.window@;
            let ghost tr0 = self.trees@;
            let mut i: usize = 0;
            while i < n
                invariant
                    i <= n,
                    params_wf(self.params),
                    1 <= self.subsample <= SCALE,
                    self.params == pre.spec_params(),
                    self.subsample == pre.spec_subsample(),
                    self.window_size == pre.spec_window_size(),
                    self.num_trees == n,
                    n == pre.spec_num_trees(),
                    self.to_init == true,
                    self.num_features == x@.len(),
                    self.num_features >= 1,
                    self.total_size == pre.spec_total_size(),
                    self.normalization_factor == pre.spec_normalization_factor(),
                    self.window@ == w0,
                    self.trees@ == tr0,
                    trees@.len() == i,
                    forall|j: int| 0 <= j < i ==> (#[trigger] trees@[j]).wf(),
                    forall|j: int|
                        0 <= j < i ==> (#[trigger] trees@[j]).spec_num_features()
                            == self.num_features,
                    forall|j: int|
                        0 <= j < i ==> (#[trigger] trees@[j]).spec_params() == self.params,
                    forall|j: int|
                        0 <= j < i ==> (#[trigger] trees@[j]).spec_subsample() == self.subsample,
                    forall|j: int| 0 <= j < i ==> (#[trigger] trees@[j]).spec_data_size() == 0,
                    forall|j: int| 0 <= j < i ==> (#[trigger] trees@[j]).spec_root() is None,
                decreases n - i,
            {
                let seed = rng_below(&mut self.rng, u64::MAX);
                let t = OnlineIsolationTree::new(self.params, self.subsample, self.num_features, seed);
                trees.push(t);
                i = i + 1;
            }
            self.trees = trees;
            self.to_init = false;
        } else if x.len() != self.num_features {
            return Err(
                ModelError::DimensionMismatch { expected: self.num_features, got: x.len() },
            );
        }
        let ghost dim = self.num_features as nat;
        let ghost nf = self.num_features;
        let mut batch: Vec<Vec<i64>> = Vec::new();
        batch.push(clone_row_public(x));
        proof {
            assert(batch_view(batch@) =~= seq![x@]);
        }
        let new_total = match self.total_size.checked_add(1) {
            Some(v) => v,
            None => usize::MAX,
        };
        self.total_size = new_total;
        self.normalization_factor = Self::norm_for(self.params, self.subsample, self.total_size);
        let n_trees = self.trees.len();
        let ghost trees0 = self.trees@;
        let ghost w1pre = self.window@;
        let mut new_trees: Vec<OnlineIsolationTree> = Vec::new();
        let mut k: usize = 0;
        while k < n_trees
            invariant
                k <= n_trees,
                params_wf(self.params),
                1 <= self.subsample <= SCALE,
                self.params == pre.spec_params(),
                self.subsample == pre.spec_subsample(),
                self.window_size == pre.spec_window_size(),
                self.num_trees == pre.spec_num_trees(),
                self.to_init == false,
                self.num_features == nf,
                self.num_features >= 1,
                dim == self.num_features as nat,
                self.total_size == new_total,
                self.normalization_factor == rpl_spec(
                    self.params.branching_factor as int,
                    self.params.max_leaf_samples as int,
                    self.total_size * self.subsample,
                    SCALE as int,
                ),
                self.window@ == w1pre,
                self.trees@.len() == n_trees - k,
                self.trees@ =~= trees0.skip(k as int),
                trees0.len() == n_trees,
                n_trees == pre.spec_num_trees(),
                batch@.len() == 1,
                batch_view(batch@) =~= seq![x@],
                x@.len() == self.num_features,
                forall|j: int| 0 <= j < n_trees ==> (#[trigger] trees0[j]).wf(),
                forall|j: int|
                    0 <= j < n_trees ==> (#[trigger] trees0[j]).spec_num_features() == nf,
                forall|j: int|
                    0 <= j < n_trees ==> (#[trigger] trees0[j]).spec_params() == self.params,
                forall|j: int|
                    0 <= j < n_trees ==> (#[trigger] trees0[j]).spec_subsample() == self.subsample,
                new_trees@.len() == k,
                forall|j: int| 0 <= j < k ==> (#[trigger] new_trees@[j]).wf(),
                forall|j: int|
                    0 <= j < k ==> (#[trigger] new_trees@[j]).spec_num_features() == nf,
                forall|j: int|
                    0 <= j < k ==> (#[trigger] new_trees@[j]).spec_params() == self.params,
                forall|j: int|
                    0 <= j < k ==> (#[trigger] new_trees@[j]).spec_subsample() == self.subsample,
                self.subsample == SCALE ==> forall|j: int|
                    0 <= j < k ==> (#[trigger] new_trees@[j]).spec_data_size() == sat_add(
                        trees0[j].spec_data_size() as int,
                        1,
                    ),
                pre.spec_initialized() ==> trees0 == pre.spec_trees(),
                !pre.spec_initialized() ==> forall|j: int|
                    0 <= j < n_trees ==> (#[trigger] trees0[j]).spec_root() is None
                        && trees0[j].spec_data_size() == 0,
                self.subsample == SCALE ==> forall|j: int|
                    0 <= j < k ==> {
                        let nt = #[trigger] new_trees@[j];
                        &&& nt.spec_root() is Some
                        &&& (nt.spec_root()->0.children is Some <==> ((trees0[j].spec_root() is Some
                            && trees0[j].spec_root()->0.children is Some) || (
                        reaches_threshold_spec(
                            pre.spec_params().max_leaf_samples as int,
                            pre.spec_params().growth_criterion,
                            0,
                            sat_add(trees0[j].spec_data_size() as int, 1),
                        ) && nt.spec_depth_limit() > 0)))
                    },
            decreases n_trees - k,
        {
            let mut t = self.trees.remove(0);
            proof {
                assert(t == trees0[k as int]);
                assert(self.trees@ =~= trees0.skip(k + 1));
            }
            let ghost t_before = t;
            t.learn(&batch);
            proof {
                if self.subsample == SCALE {
                    t_before.lemma_wf_root();
                    if t_before.spec_root() is None {
                        assert(t_before.spec_data_size() == 0);
                        assert(sat_add(0, 1) == batch@.len() as int);
                    }
                    assert(t.spec_root() is Some);
                }
            }
            new_trees.push(t);
            k = k + 1;
        }
        self.trees = new_trees;
        let ghost trees_learned = self.trees@;
        if self.window_size > 0 {
            self.window.push_back(clone_row_public(x));
            proof {
                assert(self.window_view() =~= pre.window_view().push(x@));
            }
            if self.total_size > self.window_size {
                let excess = self.total_size - self.window_size;
                let ghost win1 = self.window_view();
                proof {
                    assert(win1.len() == pre.spec_total_size() + 1);
                    assert forall|t: int| 0 <= t < win1.len() implies (#[trigger] win1[t]).len()
                        == nf by {
                        if t < win1.len() - 1 {
                            assert(win1[t] == pre.window_view()[t]);
                        } else {
                            assert(win1[t] == x@);
                        }
                    }
                }
                let mut old_rows: Vec<Vec<i64>> = Vec::new();
                let mut j: usize = 0;
                while j < excess
                    invariant
                        j <= excess,
                        excess <= win1.len(),
                        params_wf(self.params),
                        1 <= self.subsample <= SCALE,
                        self.params == pre.spec_params(),
                        self.subsample == pre.spec_subsample(),
                        self.window_size == pre.spec_window_size(),
                        self.num_trees == pre.spec_num_trees(),
                        self.to_init == false,
                        self.num_features == nf,
                        self.num_features >= 1,
                        self.total_size == new_total,
                        self.normalization_factor == rpl_spec(
                            self.params.branching_factor as int,
                            self.params.max_leaf_samples as int,
                            self.total_size * self.subsample,
                            SCALE as int,
                        ),
                        self.trees@ == trees_learned,
                        self.window@.len() == win1.len() - j,
                        self.window_view() =~= win1.skip(j as int),
                        old_rows@.len() == j,
                        forall|t: int|
                            0 <= t < win1.len() ==> (#[trigger] win1[t]).len() == nf,
                        batch_view(old_rows@) =~= win1.take(j as int),
                    decreases excess - j,
                {
                    let ghost wpre = self.window@;
                    let ghost orpre = batch_view(old_rows@);
                    let popped = match self.window.pop_front() {
                        Some(r) => r,
                        None => unreached(),
                    };
                    proof {
                        assert(popped == wpre[0]);
                        assert(self.window@ == wpre.subrange(1, wpre.len() as int));
                        assert(Seq::new(wpre.len(), |t: int| wpre[t]@) =~= win1.skip(j as int));
                        assert(popped@ == win1[j as int]) by {
                            assert(Seq::new(wpre.len(), |t: int| wpre[t]@)[0] == wpre[0]@);
                        }
                    }
                    old_rows.push(popped);
                    proof {
                        assert forall|t: int| 0 <= t < self.window@.len() implies #[trigger] self.window_view()[t]
                            == win1.skip(j + 1)[t] by {
                            assert(self.window_view()[t] == self.window@[t]@);
                            assert(self.window@[t] == wpre[t + 1]);
                            assert(Seq::new(wpre.len(), |u: int| wpre[u]@)[t + 1] == wpre[t + 1]@);
                            assert(win1.skip(j as int)[t + 1] == win1[j + 1 + t]);
                        }
                        assert(self.window_view() =~= win1.skip(j + 1));
                        assert forall|t: int| 0 <= t < old_rows@.len() implies #[trigger] batch_view(
                            old_rows@,
                        )[t] == win1.take(j + 1)[t] by {
                            if t < j {
                                assert(batch_view(old_rows@)[t] == orpre[t]);
                            } else {
                                assert(batch_view(old_rows@)[t] == popped@);
                            }
                        }
                        assert(batch_view(old_rows@) =~= win1.take(j + 1));
                    }
                    j = j + 1;
                }
                self.total_size = self.total_size - excess;
                self.normalization_factor = Self::norm_for(
                    self.params,
                    self.subsample,
                    self.total_size,
                );
                proof {
                    assert forall|t: int| 0 <= t < batch_view(old_rows@).len() implies (
                    #[trigger] batch_view(old_rows@)[t]).len() == dim by {
                        assert(batch_view(old_rows@)[t] == win1[t]);
                    }
                }
                let n_trees2 = self.trees.len();
                let ghost trees1 = self.trees@;
                let ghost w2 = self.window@;
                let ghost total2 = self.total_size;
                let mut newer_trees: Vec<OnlineIsolationTree> = Vec::new();
                let mut k2: usize = 0;
                while k2 < n_trees2
                    invariant
                        k2 <= n_trees2,
                        params_wf(self.params),
                        1 <= self.subsample <= SCALE,
                        self.params == pre.spec_params(),
                        self.subsample == pre.spec_subsample(),
                        self.window_size == pre.spec_window_size(),
                        self.num_trees == pre.spec_num_trees(),
                        self.to_init == false,
                        self.num_features == nf,
                        self.num_features >= 1,
                        dim == self.num_features as nat,
                        self.total_size == total2,
                        self.normalization_factor == rpl_spec(
                            self.params.branching_factor as int,
                            self.params.max_leaf_samples as int,
                            self.total_size * self.subsample,
                            SCALE as int,
                        ),
                        self.window@ == w2,
                        self.trees@.len() == n_trees2 - k2,
                        self.trees@ =~= trees1.skip(k2 as int),
                        trees1.len() == n_trees2,
                        n_trees2 == pre.spec_num_trees(),
                        old_rows@.len() >= 1,
                        old_rows@.len() == excess,
                        batch_wf(batch_view(old_rows@), dim),
                        forall|j2: int| 0 <= j2 < n_trees2 ==> (#[trigger] trees1[j2]).wf(),
                        forall|j2: int|
                            0 <= j2 < n_trees2 ==> (#[trigger] trees1[j2]).spec_num_features()
                                == nf,
                        forall|j2: int|
                            0 <= j2 < n_trees2 ==> (#[trigger] trees1[j2]).spec_params()
                                == self.params,
                        forall|j2: int|
                            0 <= j2 < n_trees2 ==> (#[trigger] trees1[j2]).spec_subsample()
                                == self.subsample,
                        newer_trees@.len() == k2,
                        forall|j2: int| 0 <= j2 < k2 ==> (#[trigger] newer_trees@[j2]).wf(),
                        forall|j2: int|
                            0 <= j2 < k2 ==> (#[trigger] newer_trees@[j2]).spec_num_features()
                                == nf,
                        forall|j2: int|
                            0 <= j2 < k2 ==> (#[trigger] newer_trees@[j2]).spec_params()
                                == self.params,
                        forall|j2: int|
                            0 <= j2 < k2 ==> (#[trigger] newer_trees@[j2]).spec_subsample()
                                == self.subsample,
                        self.subsample == SCALE ==> forall|j2: int|
                            0 <= j2 < k2 ==> (#[trigger] newer_trees@[j2]).spec_data_size()
                                == sat_sub(
                                trees1[j2].spec_data_size() as int,
                                old_rows@.len() as int,
                            ),
                    decreases n_trees2 - k2,
                {
                    let mut t = self.trees.remove(0);
                    proof {
                        assert(t == trees1[k2 as int]);
                        assert(self.trees@ =~= trees1.skip(k2 + 1));
                    }
                    t.unlearn(&old_rows);
                    newer_trees.push(t);
                    k2 = k2 + 1;
                }
                self.trees = newer_trees;
            }
        }
        proof {
            if self.window_size > 0 {
                assert forall|k: int| 0 <= k < self.window@.len() implies (
                #[trigger] self.window@[k])@.len() == self.num_features by {
                    assert(self.window_view()[k] == self.window@[k]@);
                    if pre.spec_total_size() + 1 <= self.window_size {
                        assert(self.window_view() =~= pre.window_view().push(x@));
                        if k < pre.window_view().len() {
                            assert(pre.window_view()[k] == pre.window_view()[k]);
                        }
                    }
                }
            }
        }
        Ok(())
    }

    /// Score one row against the current model without changing it: the
    /// mean of the per-tree depths, normalized and mapped through the
    /// fixed-point exponential. Before the first fitted row the model has
    /// no information and answers the neutral score of one half. A row of
    /// the wrong length is rejected.
    pub fn score_partial(&self, x: &Vec<i64>) -> (r: Result<u64, ModelError>)
        requires
            self.wf(),
            x@.len() >= 1,
        ensures
            r is Err <==> (self.spec_initialized() && x@.len() != self.spec_num_features()),
            r is Err ==> r == Err::<u64, ModelError>(
                ModelError::DimensionMismatch {
                    expected: self.spec_num_features(),
                    got: x.len(),
                },
            ),
            r matches Ok(s) ==> s <= SCALE,
            !self.spec_initialized() ==> r == Ok::<u64, ModelError>(SCALE / 2),
            (self.spec_initialized() && x@.len() == self.spec_num_features()) ==> r
                == Ok::<u64, ModelError>(
                score_spec(
                    sum_depths(
                        self.spec_trees(),
                        x@,
                        self.spec_params().branching_factor as int,
                        self.spec_params().max_leaf_samples as int,
                    ) as int,
                    self.spec_num_trees() as int,
                    self.spec_normalization_factor() as int,
                ) as u64,
            ),
    {
        if self.to_init {
            return Ok(SCALE / 2);
        }
        if x.len() != self.num_features {
            return Err(
                ModelError::DimensionMismatch { expected: self.num_features, got: x.len() },
            );
        }
        let ghost dim = self.num_features as nat;
        let ghost bf = self.params.branching_factor as int;
        let ghost ml = self.params.max_leaf_samples as int;
        let mut batch: Vec<Vec<i64>> = Vec::new();
        batch.push(clone_row_public(x));
        proof {
            assert(batch_view(batch@) =~= seq![x@]);
        }
        let n_trees = self.trees.len();
        let mut sum: u128 = 0;
        let mut k: usize = 0;
        while k < n_trees
            invariant
                k <= n_trees,
                n_trees == self.trees@.len(),
                self.wf(),
                !self.to_init ==> true,
                self.spec_initialized(),
                dim == self.num_features as nat,
                bf == self.params.branching_factor as int,
                ml == self.params.max_leaf_samples as int,
                batch@.len() == 1,
                batch_view(batch@) =~= seq![x@],
                x@.len() == self.num_features,
                sum == sum_depths(self.trees@.take(k as int), x@, bf, ml),
                sum <= (k as int) * 200 * SCALE,
            decreases n_trees - k,
        {
            let t = &self.trees[k];
            let depths = t.predict(&batch);
            let d = depths[0];
            proof {
                assert(self.trees@.take(k + 1).drop_last() =~= self.trees@.take(k as int));
                assert(self.trees@.take(k + 1).last() == self.trees@[k as int]);
                assert(batch_view(batch@)[0] == x@);
                assert(d == tree_depth(self.trees@[k as int], x@, bf, ml));
                assert(sum + d <= (k + 1) * 200 * SCALE) by (nonlinear_arith)
                    requires
                        sum <= (k as int) * 200 * SCALE,
                        d <= 200 * SCALE,
                        SCALE == 65536,
                ;
            }
            sum = sum + (d as u128);
            k = k + 1;
        }
        proof {
            assert(self.trees@.take(n_trees as int) =~= self.trees@);
            assert(sum <= (n_trees as int) * 200 * SCALE);
            assert((n_trees as int) * 200 * SCALE <= 0x1000000000000000000000000)
                by (nonlinear_arith)
                requires
                    n_trees <= 0xffffffffffffffff,
                    SCALE == 65536,
            ;
        }
        let score = score_fp(sum, self.num_trees as u64, self.normalization_factor);
        proof {
            assert(self.num_trees == self.trees@.len());
        }
        Ok(score)
    }

    /// Absorb a row, then score it against the updated model. For this
    /// model the combined operation fits first, matching the incremental
    /// protocol; callers that need the score of the state before the row
    /// call `score_partial` first and `fit_partial` afterwards.
    pub fn fit_score_partial(&mut self, x: &Vec<i64>) -> (r: Result<u64, ModelError>)
        requires
            old(self).wf(),
            x@.len() >= 1,
        ensures
            final(self).wf(),
            r is Err <==> (old(self).spec_initialized() && x@.len()
                != old(self).spec_num_features()),
            r matches Ok(s) ==> s == score_spec(
                sum_depths(
                    final(self).spec_trees(),
                    x@,
                    final(self).spec_params().branching_factor as int,
                    final(self).spec_params().max_leaf_samples as int,
                ),
                final(self).spec_num_trees() as int,
                final(self).spec_normalization_factor() as int,
            ) as u64 && s <= SCALE,
            r is Ok ==> final(self).spec_initialized() && final(self).spec_num_features() == (
            if old(self).spec_initialized() {
                old(self).spec_num_features() as int
            } else {
                x@.len() as int
            }),
    {
        match self.fit_partial(x) {
            Ok(_) => {
            },
            Err(e) => {
                return Err(e);
            },
        }
        self.score_partial(x)
    }

    /// Absorb a batch of rows in order, stopping at the first row whose
    /// length does not match; rows before it stay absorbed. Success means
    /// every row matched the feature count in force when it arrived, and
    /// the retained count advanced once per row.
    pub fn fit(&mut self, xs: &Vec<Vec<i64>>) -> (r: Result<(), ModelError>)
        requires
            old(self).wf(),
            forall|k: int| 0 <= k < xs@.len() ==> (#[trigger] xs@[k])@.len() >= 1,
        ensures
            final(self).wf(),
            final(self).spec_window_size() == old(self).spec_window_size(),
            r is Ok <==> (xs@.len() == 0 || {
                let first_dim = if old(self).spec_initialized() {
                    old(self).spec_num_features() as int
                } else {
                    xs@[0]@.len() as int
                };
                forall|k: int| 0 <= k < xs@.len() ==> (#[trigger] xs@[k])@.len() == first_dim
            }),
            r is Ok ==> final(self).spec_total_size() == total_after_batch(
                old(self).spec_total_size() as int,
                old(self).spec_window_size() as int,
                xs@.len() as nat,
            ),
    {
        let ghost pre = *old(self);
        let n = xs.len();
        let mut k: usize = 0;
        while k < n
            invariant
                pre == *old(self),
                k <= n,
                n == xs@.len(),
                self.wf(),
                forall|t: int| 0 <= t < n ==> (#[trigger] xs@[t])@.len() >= 1,
                self.spec_window_size() == pre.spec_window_size(),
                self.spec_total_size() == total_after_batch(
                    pre.spec_total_size() as int,
                    pre.spec_window_size() as int,
                    k as nat,
                ),
                self.spec_initialized() == (pre.spec_initialized() || k >= 1),
                self.spec_num_features() == (if pre.spec_initialized() {
                    pre.spec_num_features() as int
                } else if k >= 1 {
                    xs@[0]@.len() as int
                } else {
                    0
                }),
                forall|t: int|
                    0 <= t < k ==> (#[trigger] xs@[t])@.len() == (if pre.spec_initialized() {
                        pre.spec_num_features() as int
                    } else {
                        xs@[0]@.len() as int
                    }),
            decreases n - k,
        {
            match self.fit_partial(&xs[k]) {
                Ok(_) => {
                },
                Err(e) => {
                    proof {
                        assert(self.spec_window_size() == pre.spec_window_size());
                        assert(xs@[k as int]@.len() != (if pre.spec_initialized() {
                            pre.spec_num_features() as int
                        } else {
                            xs@[0]@.len() as int
                        }));
                    }
                    return Err(e);
                },
            }
            k = k + 1;
        }
        Ok(())
    }

    /// Score a batch of rows in order against the current model: every
    /// score is the one `score_partial` gives for its row, and the batch
    /// succeeds exactly when every row's length matches.
    pub fn score(&self, xs: &Vec<Vec<i64>>) -> (r: Result<Vec<u64>, ModelError>)
        requires
            self.wf(),
            forall|k: int| 0 <= k < xs@.len() ==> (#[trigger] xs@[k])@.len() >= 1,
        ensures
            r is Ok <==> (!self.spec_initialized() || forall|k: int|
                0 <= k < xs@.len() ==> (#[trigger] xs@[k])@.len() == self.spec_num_features()),
            r matches Ok(v) ==> v@.len() == xs@.len() && forall|k: int|
                0 <= k < xs@.len() ==> #[trigger] v@[k] == (if self.spec_initialized() {
                    score_spec(
                        sum_depths(
                            self.spec_trees(),
                            xs@[k]@,
                            self.spec_params().branching_factor as int,
                            self.spec_params().max_leaf_samples as int,
                        ),
                        self.spec_num_trees() as int,
                        self.spec_normalization_factor() as int,
                    ) as u64
                } else {
                    SCALE / 2
                }),
    {
        let n = xs.len();
        let mut out: Vec<u64> = Vec::new();
        let mut k: usize = 0;
        while k < n
            invariant
                k <= n,
                n == xs@.len(),
                self.wf(),
                out@.len() == k,
                forall|t: int| 0 <= t < n ==> (#[trigger] xs@[t])@.len() >= 1,
                self.spec_initialized() ==> forall|t: int|
                    0 <= t < k ==> (#[trigger] xs@[t])@.len() == self.spec_num_features(),
                forall|t: int|
                    0 <= t < k ==> #[trigger] out@[t] == (if self.spec_initialized() {
                        score_spec(
                            sum_depths(
                                self.spec_trees(),
                                xs@[t]@,
                                self.spec_params().branching_factor as int,
                                self.spec_params().max_leaf_samples as int,
                            ),
                            self.spec_num_trees() as int,
                            self.spec_normalization_factor() as int,
                        ) as u64
                    } else {
                        SCALE / 2
                    }),
            decreases n - k,
        {
            match self.score_partial(&xs[k]) {
                Ok(s) => {
                    out.push(s);
                },
                Err(e) => {
                    return Err(e);
                },
            }
            k = k + 1;
        }
        Ok(out)
    }

    /// Absorb and score a batch of rows in order: each row is fitted and
    /// then scored against the model that has just absorbed it. The batch
    /// succeeds exactly when every row matched the feature count in force
    /// when it arrived; scores stay within the unit range, and the last
    /// one is the score of the final state.
    pub fn fit_score(&mut self, xs: &Vec<Vec<i64>>) -> (r: Result<Vec<u64>, ModelError>)
        requires
            old(self).wf(),
            forall|k: int| 0 <= k < xs@.len() ==> (#[trigger] xs@[k])@.len() >= 1,
        ensures
            final(self).wf(),
            r is Ok <==> (xs@.len() == 0 || {
                let first_dim = if old(self).spec_initialized() {
                    old(self).spec_num_features() as int
                } else {
                    xs@[0]@.len() as int
                };
                forall|k: int| 0 <= k < xs@.len() ==> (#[trigger] xs@[k])@.len() == first_dim
            }),
            r matches Ok(v) ==> v@.len() == xs@.len() && forall|k: int|
                0 <= k < v@.len() ==> (#[trigger] v@[k]) <= SCALE,
            xs@.len() >= 1 ==> (r matches Ok(v) ==> v@.last() == score_spec(
                sum_depths(
                    final(self).spec_trees(),
                    xs@.last()@,
                    final(self).spec_params().branching_factor as int,
                    final(self).spec_params().max_leaf_samples as int,
                ),
                final(self).spec_num_trees() as int,
                final(self).spec_normalization_factor() as int,
            ) as u64),
    {
        let ghost pre = *old(self);
        let n = xs.len();
        let mut out: Vec<u64> = Vec::new();
        let mut k: usize = 0;
        while k < n
            invariant
                pre == *old(self),
                k <= n,
                n == xs@.len(),
                self.wf(),
                out@.len() == k,
                forall|t: int| 0 <= t < n ==> (#[trigger] xs@[t])@.len() >= 1,
                self.spec_initialized() == (pre.spec_initialized() || k >= 1),
                self.spec_num_features() == (if pre.spec_initialized() {
                    pre.spec_num_features() as int
                } else if k >= 1 {
                    xs@[0]@.len() as int
                } else {
                    0
                }),
                forall|t: int|
                    0 <= t < k ==> (#[trigger] xs@[t])@.len() == (if pre.spec_initialized() {
                        pre.spec_num_features() as int
                    } else {
                        xs@[0]@.len() as int
                    }),
                forall|t: int| 0 <= t < k ==> (#[trigger] out@[t]) <= SCALE,
                k >= 1 ==> out@[k - 1] == score_spec(
                    sum_depths(
                        self.spec_trees(),
                        xs@[k - 1]@,
                        self.spec_params().branching_factor as int,
                        self.spec_params().max_leaf_samples as int,
                    ),
                    self.spec_num_trees() as int,
                    self.spec_normalization_factor() as int,
                ) as u64,
            decreases n - k,
        {
            match self.fit_score_partial(&xs[k]) {
                Ok(s) => {
                    out.push(s);
                },
                Err(e) => {
                    proof {
                        assert(xs@[k as int]@.len() != (if pre.spec_initialized() {
                            pre.spec_num_features() as int
                        } else {
                            xs@[0]@.len() as int
                        }));
                    }
                    return Err(e);
                },
            }
            k = k + 1;
        }
        Ok(out)
    }
}

/// Idempotence under cancel: absorbing a batch of `k` rows and
/// immediately deleting a batch for which the subsample draw kept the same
/// `k` rows returns the retained count, and with it the normalization
/// factor, to their prior values.
pub proof fn lemma_insert_delete_cancel(total: int, k: int, bf: int, ml: int, sub: int)
    requires
        bf >= 2,
        ml >= 1,
        1 <= sub <= SCALE,
        0 <= total,
        0 <= k,
        total + k <= usize::MAX,
    ensures
        sat_sub(sat_add(total, k), k) == total,
        rpl_spec(bf, ml, sat_sub(sat_add(total, k), k) * sub, SCALE as int) == rpl_spec(
            bf,
            ml,
            total * sub,
            SCALE as int,
        ),
{
}

} // verus!
