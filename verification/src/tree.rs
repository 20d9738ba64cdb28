//! A single online isolation tree: a root node, a private pseudo-random
//! stream, and depth-limit bookkeeping.
//!
//! The tree absorbs batches incrementally (`learn`), removes them again
//! (`unlearn`), and measures how deep a query row descends (`predict`).
//! Each incoming row is kept with probability `subsample / SCALE`, drawn
//! from the tree's own stream: this produces the tree-to-tree diversity
//! that makes an ensemble meaningful.

use vstd::prelude::*;
use crate::node::batch_view;
use crate::node::batch_wf;
use crate::node::clone_row_public;
use crate::node::depth_search;
use crate::node::depth_value;
use crate::node::build_node;
use crate::node::grow_node;
use crate::node::grown_from;
use crate::node::unlearn_node;
use crate::node::unlearned_from;
use crate::node::imin;
use crate::node::imax;
use crate::node::lemma_rows_min_at_member;
use crate::node::rows_min_at;
use crate::node::rows_max_at;
use crate::node::sat_add;
use crate::node::sat_sub;
use crate::node::OnlineIsolationNode;
use crate::pathlen::random_path_length_fp;
use crate::pathlen::reaches_threshold_spec;
use crate::pathlen::rpl_spec;
use crate::rng::rng_below;
use crate::rng::rng_from_seed;
use crate::params_wf;
use crate::TreeParams;
use crate::SCALE;

verus! {

/// Whether `x` equals one of the first `bound` rows.
pub open spec fn row_among(x: Seq<i64>, rows: Seq<Seq<i64>>, bound: int) -> bool {
    exists|u: int| 0 <= u < bound && x == rows[u]
}

/// Membership below one bound implies membership below a larger one.
pub proof fn lemma_row_among_widen(x: Seq<i64>, rows: Seq<Seq<i64>>, b1: int, b2: int)
    requires
        row_among(x, rows, b1),
        b1 <= b2,
    ensures
        row_among(x, rows, b2),
{
    let u0 = choose|u: int| 0 <= u < b1 && x == rows[u];
    assert(0 <= u0 < b2 && x == rows[u0]);
}

/// Keep each row independently with probability `sub_num / SCALE`, drawing
/// from the given stream; order is preserved and a full ratio keeps
/// everything.
fn keep_rows(rows: &Vec<Vec<i64>>, sub_num: u64, rng: &mut rand::rngs::StdRng) -> (kept: Vec<
    Vec<i64>,
>)
    requires
        1 <= sub_num <= SCALE,
    ensures
        kept@.len() <= rows@.len(),
        forall|k: int|
            0 <= k < kept@.len() ==> row_among(
                #[trigger] batch_view(kept@)[k],
                batch_view(rows@),
                rows@.len() as int,
            ),
        sub_num == SCALE ==> batch_view(kept@) == batch_view(rows@),
{
    let ghost bv = batch_view(rows@);
    let mut kept: Vec<Vec<i64>> = Vec::new();
    let n = rows.len();
    let mut k: usize = 0;
    while k < n
        invariant
            k <= n,
            n == rows@.len(),
            bv == batch_view(rows@),
            1 <= sub_num <= SCALE,
            kept@.len() <= k,
            forall|t: int|
                0 <= t < kept@.len() ==> row_among(#[trigger] batch_view(kept@)[t], bv, k as int),
            sub_num == SCALE ==> batch_view(kept@) =~= bv.take(k as int),
        decreases n - k,
    {
        let ghost kept0 = batch_view(kept@);
        let draw = rng_below(rng, SCALE);
        if draw < sub_num {
            let c = clone_row_public(&rows[k]);
            kept.push(c);
            proof {
                assert(batch_view(kept@) =~= kept0.push(rows@[k as int]@));
            }
        }
        proof {
            if sub_num == SCALE {
                assert(batch_view(kept@) =~= bv.take(k + 1));
            }
            assert forall|t: int| 0 <= t < kept@.len() implies row_among(
                #[trigger] batch_view(kept@)[t],
                bv,
                k + 1,
            ) by {
                if t < kept0.len() {
                    assert(batch_view(kept@)[t] == kept0[t]);
                    assert(row_among(batch_view(kept@)[t], bv, k as int));
                    lemma_row_among_widen(batch_view(kept@)[t], bv, k as int, k + 1);
                } else {
                    assert(batch_view(kept@)[t] == bv[k as int]);
                    assert(0 <= k < k + 1 && batch_view(kept@)[t] == bv[k as int]);
                }
            }
        }
        k = k + 1;
    }
    proof {
        if sub_num == SCALE {
            assert(bv.take(n as int) =~= bv);
        }
    }
    kept
}

/// A batch whose rows all occur in another batch has its bounding box
/// inside the other's.
pub proof fn lemma_subbatch_bounds(sub: Seq<Seq<i64>>, full: Seq<Seq<i64>>, i: int)
    requires
        sub.len() >= 1,
        full.len() >= 1,
        forall|k: int| 0 <= k < sub.len() ==> row_among(#[trigger] sub[k], full, full.len() as int),
    ensures
        rows_min_at(full, i) <= rows_min_at(sub, i),
        rows_max_at(sub, i) <= rows_max_at(full, i),
    decreases sub.len(),
{
    assert(row_among(sub[sub.len() - 1], full, full.len() as int));
    let t = choose|t: int| 0 <= t < full.len() && sub[sub.len() - 1] == full[t];
    lemma_rows_min_at_member(full, i, t);
    if sub.len() == 1 {
        assert(rows_min_at(sub, i) == sub[0][i] as int);
        assert(sub[0] == full[t]);
    } else {
        let prev = sub.drop_last();
        assert(forall|k: int| 0 <= k < prev.len() ==> (#[trigger] prev[k]) == sub[k]);
        lemma_subbatch_bounds(prev, full, i);
        assert(sub.last() == full[t]);
        assert(rows_min_at(sub, i) == imin(rows_min_at(prev, i), sub.last()[i] as int));
        assert(rows_max_at(sub, i) == imax(rows_max_at(prev, i), sub.last()[i] as int));
    }
}

/// One online isolation tree.
pub struct OnlineIsolationTree {
    params: TreeParams,
    subsample: u64,
    num_features: usize,
    rng: rand::rngs::StdRng,
    data_size: usize,
    depth_limit: u64,
    root: Option<OnlineIsolationNode>,
}

impl OnlineIsolationTree {
    /// Immutable configuration.
    pub closed spec fn spec_params(self) -> TreeParams {
        self.params
    }

    /// The keep-probability of a row, scaled by `SCALE`.
    pub closed spec fn spec_subsample(self) -> u64 {
        self.subsample
    }

    /// Running count of points absorbed (kept after subsampling) minus
    /// points removed, floored at zero.
    pub closed spec fn spec_data_size(self) -> usize {
        self.data_size
    }

    /// The scaled depth limit: growth stops at the expected isolation
    /// depth for the current count.
    pub closed spec fn spec_depth_limit(self) -> u64 {
        self.depth_limit
    }

    /// The root node, absent until the first kept row.
    pub closed spec fn spec_root(self) -> Option<OnlineIsolationNode> {
        self.root
    }

    /// The feature count this tree was created for.
    pub closed spec fn spec_num_features(self) -> usize {
        self.num_features
    }

    /// OnlineIsolationTree invariant: the configuration is in range, the depth limit
    /// matches the count, and the root (if any) is a well-formed depth-0
    /// node carrying the same count over the tree's feature dimensions.
    pub closed spec fn wf(self) -> bool {
        let dim = self.num_features as nat;
        &&& params_wf(self.params)
        &&& self.num_features >= 1
        &&& 1 <= self.subsample <= SCALE
        &&& self.depth_limit == rpl_spec(
            self.params.branching_factor as int,
            self.params.max_leaf_samples as int,
            self.data_size as int,
            1,
        )
        &&& self.depth_limit <= 83 * SCALE
        &&& match self.root {
            Some(r) => {
                &&& r.wf(dim, self.params.branching_factor as nat)
                &&& r.depth == 0
                &&& r.data_size == self.data_size
            },
            None => self.data_size == 0,
        }
    }

    /// The depth limit is monotonically non-decreasing in the running
    /// count: of two trees with the same configuration, the one that has
    /// retained more points never has the smaller limit.
    pub proof fn lemma_depth_limit_monotonic(a: OnlineIsolationTree, b: OnlineIsolationTree)
        requires
            a.wf(),
            b.wf(),
            a.spec_params() == b.spec_params(),
            a.spec_data_size() <= b.spec_data_size(),
        ensures
            a.spec_depth_limit() <= b.spec_depth_limit(),
    {
        crate::pathlen::lemma_rpl_monotonic(
            a.spec_params().branching_factor as int,
            a.spec_params().max_leaf_samples as int,
            a.spec_data_size() as int,
            b.spec_data_size() as int,
            1,
        );
    }

    /// The root of a well-formed tree is a well-formed depth-0 node that
    /// carries the tree's running count; node well-formedness pins the
    /// structural invariants for every node at all times: a split is
    /// present exactly when children are, an internal node has exactly
    /// `branching_factor` children one level deeper inside the parent's
    /// bounding box, and every box has its lower corner at or below its
    /// upper corner.
    pub proof fn lemma_wf_root(self)
        requires
            self.wf(),
        ensures
            params_wf(self.spec_params()),
            self.spec_root() matches Some(r) ==> r.wf(
                self.spec_num_features() as nat,
                self.spec_params().branching_factor as nat,
            ) && r.depth == 0 && r.data_size == self.spec_data_size(),
            self.spec_root() is None ==> self.spec_data_size() == 0,
            self.spec_depth_limit() == rpl_spec(
                self.spec_params().branching_factor as int,
                self.spec_params().max_leaf_samples as int,
                self.spec_data_size() as int,
                1,
            ),
    {
    }

    /// A fresh, empty tree for rows of `num_features` coordinates, with
    /// its own deterministic stream.
    pub fn new(params: TreeParams, subsample: u64, num_features: usize, seed: u64) -> (t: OnlineIsolationTree)
        requires
            params_wf(params),
            1 <= subsample <= SCALE,
            num_features >= 1,
        ensures
            t.wf(),
            t.spec_params() == params,
            t.spec_subsample() == subsample,
            t.spec_num_features() == num_features,
            t.spec_data_size() == 0,
            t.spec_root() is None,
    {
        let depth_limit = random_path_length_fp(
            params.branching_factor as u64,
            params.max_leaf_samples as u64,
            0,
            1,
        );
        OnlineIsolationTree {
            params,
            subsample,
            num_features,
            rng: rng_from_seed(seed),
            data_size: 0,
            depth_limit,
            root: None,
        }
    }

    /// Exec accessor for the feature count.
    pub fn num_features(&self) -> (r: usize)
        ensures
            r == self.spec_num_features(),
    {
        self.num_features
    }

    /// Exec accessor for the running count.
    pub fn data_size(&self) -> (r: usize)
        ensures
            r == self.spec_data_size(),
    {
        self.data_size
    }

    /// Exec accessor for the scaled depth limit.
    pub fn depth_limit_fp(&self) -> (r: u64)
        ensures
            r == self.spec_depth_limit(),
    {
        self.depth_limit
    }

    /// Whether the root exists and is an internal node.
    pub fn root_is_internal(&self) -> (r: bool)
        ensures
            r == (self.spec_root() is Some && self.spec_root()->0.children is Some),
    {
        match &self.root {
            Some(n) => n.children.is_some(),
            None => false,
        }
    }

    /// The root's bounding box, if a root exists.
    pub fn root_bounds(&self) -> (r: Option<(Vec<i64>, Vec<i64>)>)
        ensures
            r is Some <==> self.spec_root() is Some,
            r is Some ==> (r->0).0@ == self.spec_root()->0.min_values@ && (r->0).1@
                == self.spec_root()->0.max_values@,
    {
        match &self.root {
            Some(n) => Some((clone_row_public(&n.min_values), clone_row_public(&n.max_values))),
            None => None,
        }
    }

    /// Absorb a batch: each row is kept with the tree's subsample
    /// probability; the kept rows raise the count, the depth limit is
    /// recomputed, and the root is built fresh (first time) or grown.
    pub fn learn(&mut self, batch: &Vec<Vec<i64>>)
        requires
            old(self).wf(),
            batch_wf(batch_view(batch@), old(self).spec_num_features() as nat),
        ensures
            final(self).wf(),
            final(self).spec_num_features() == old(self).spec_num_features(),
            final(self).spec_params() == old(self).spec_params(),
            final(self).spec_subsample() == old(self).spec_subsample(),
            exists|k: int|
                0 <= k <= batch@.len() && final(self).spec_data_size() == sat_add(
                    old(self).spec_data_size() as int,
                    k,
                ),
            old(self).spec_subsample() == SCALE ==> final(self).spec_data_size() == sat_add(
                old(self).spec_data_size() as int,
                batch@.len() as int,
            ),
            final(self).spec_depth_limit() == rpl_spec(
                old(self).spec_params().branching_factor as int,
                old(self).spec_params().max_leaf_samples as int,
                final(self).spec_data_size() as int,
                1,
            ),
            old(self).spec_root() is Some ==> final(self).spec_root() is Some,
            old(self).spec_subsample() == SCALE && old(self).spec_root() is None && batch@.len()
                >= 1 ==> {
                let r = final(self).spec_root()->0;
                &&& final(self).spec_root() is Some
                &&& (r.children is Some <==> (reaches_threshold_spec(
                    old(self).spec_params().max_leaf_samples as int,
                    old(self).spec_params().growth_criterion,
                    0,
                    batch@.len() as int,
                ) && final(self).spec_depth_limit() > 0))
                &&& forall|i: int|
                    0 <= i < old(self).spec_num_features() ==> (#[trigger] r.min_values@[i]) == rows_min_at(
                        batch_view(batch@),
                        i,
                    )
                &&& forall|i: int|
                    0 <= i < old(self).spec_num_features() ==> (#[trigger] r.max_values@[i]) == rows_max_at(
                        batch_view(batch@),
                        i,
                    )
            },
            old(self).spec_subsample() == SCALE && old(self).spec_root() is Some && batch@.len()
                >= 1 ==> {
                let r0 = old(self).spec_root()->0;
                let r = final(self).spec_root()->0;
                &&& (r.children is Some <==> (r0.children is Some || (reaches_threshold_spec(
                    old(self).spec_params().max_leaf_samples as int,
                    old(self).spec_params().growth_criterion,
                    0,
                    sat_add(old(self).spec_data_size() as int, batch@.len() as int),
                ) && final(self).spec_depth_limit() > 0)))
            },
            old(self).spec_root() is Some && batch@.len() >= 1 ==> {
                let r0 = old(self).spec_root()->0;
                let r = final(self).spec_root()->0;
                &&& forall|i: int|
                    0 <= i < old(self).spec_num_features() ==> imin(
                        r0.min_values@[i] as int,
                        rows_min_at(batch_view(batch@), i),
                    ) <= (#[trigger] r.min_values@[i])
                &&& forall|i: int|
                    0 <= i < old(self).spec_num_features() ==> (#[trigger] r.max_values@[i]) <= imax(
                        r0.max_values@[i] as int,
                        rows_max_at(batch_view(batch@), i),
                    )
            },
            old(self).spec_subsample() == SCALE && old(self).spec_root() is Some && batch@.len()
                >= 1 ==> grown_from(
                old(self).spec_root()->0,
                final(self).spec_root()->0,
                batch_view(batch@),
                old(self).spec_params(),
                final(self).spec_depth_limit() as int,
            ),
    {
        let ghost dim = old(self).spec_num_features() as nat;
        let ghost bv = batch_view(batch@);
        let kept = keep_rows(batch, self.subsample, &mut self.rng);
        proof {
            if old(self).spec_subsample() == SCALE {
                assert(batch_view(kept@).len() == bv.len());
                assert(kept@.len() == batch@.len());
            }
        }
        if kept.len() == 0 {
            proof {
                assert(self.spec_data_size() == sat_add(old(self).spec_data_size() as int, 0));
            }
            return;
        }
        let ghost kv = batch_view(kept@);
        let new_size = match self.data_size.checked_add(kept.len()) {
            Some(v) => v,
            None => usize::MAX,
        };
        self.data_size = new_size;
        self.depth_limit = random_path_length_fp(
            self.params.branching_factor as u64,
            self.params.max_leaf_samples as u64,
            new_size as u128,
            1,
        );
        proof {
            assert(batch_wf(kv, dim)) by {
                assert forall|t: int| 0 <= t < kv.len() implies (#[trigger] kv[t]).len()
                    == dim by {
                    assert(row_among(kv[t], bv, bv.len() as int));
                    let u = choose|u: int| 0 <= u < bv.len() && kv[t] == bv[u];
                    assert(bv[u].len() == dim);
                }
            }
        }
        let root = self.root.take();
        match root {
            None => {
                let built = build_node(
                    &kept,
                    0,
                    self.params,
                    self.depth_limit,
                    &mut self.rng,
                    Ghost(dim),
                );
                self.root = Some(built);
                proof {
                    if self.subsample == SCALE && bv.len() >= 1 {
                        assert(kv == bv);
                        assert forall|i: int| 0 <= i < dim implies (#[trigger] built.min_values@[i])
                            == rows_min_at(bv, i) by {
                            assert(built.min_values@[i] == rows_min_at(kv, i));
                        }
                        assert forall|i: int| 0 <= i < dim implies (#[trigger] built.max_values@[i])
                            == rows_max_at(bv, i) by {
                            assert(built.max_values@[i] == rows_max_at(kv, i));
                        }
                    }
                }
            },
            Some(r) => {
                let grown = grow_node(
                    r,
                    &kept,
                    self.params,
                    self.depth_limit,
                    &mut self.rng,
                    Ghost(dim),
                );
                self.root = Some(grown);
                proof {
                    if self.subsample == SCALE && bv.len() >= 1 {
                        assert(kv == bv);
                        assert(grown_from(r, grown, bv, self.params, self.depth_limit as int));
                    }
                }
                proof {
                    if bv.len() >= 1 {
                        assert forall|i: int| 0 <= i < dim implies imin(
                            old(self).spec_root()->0.min_values@[i] as int,
                            rows_min_at(bv, i),
                        ) <= (#[trigger] grown.min_values@[i]) by {
                            lemma_subbatch_bounds(kv, bv, i);
                        }
                        assert forall|i: int| 0 <= i < dim implies (#[trigger] grown.max_values@[i])
                            <= imax(
                            old(self).spec_root()->0.max_values@[i] as int,
                            rows_max_at(bv, i),
                        ) by {
                            lemma_subbatch_bounds(kv, bv, i);
                        }
                    }
                }
            },
        }
        proof {
            assert(exists|k: int|
                0 <= k <= batch@.len() && self.spec_data_size() == sat_add(
                    old(self).spec_data_size() as int,
                    k,
                )) by {
                assert(self.spec_data_size() == sat_add(
                    old(self).spec_data_size() as int,
                    kv.len() as int,
                ));
            }
        }
    }

    /// Remove a batch: an independent subsample draw with the same ratio
    /// decides which rows are applied; the count falls (floored at zero),
    /// the depth limit is recomputed, and the root shrinks, collapsing
    /// split structure that falls below its threshold.
    pub fn unlearn(&mut self, batch: &Vec<Vec<i64>>)
        requires
            old(self).wf(),
            batch_wf(batch_view(batch@), old(self).spec_num_features() as nat),
        ensures
            final(self).wf(),
            final(self).spec_num_features() == old(self).spec_num_features(),
            final(self).spec_params() == old(self).spec_params(),
            final(self).spec_subsample() == old(self).spec_subsample(),
            exists|k: int|
                0 <= k <= batch@.len() && final(self).spec_data_size() == sat_sub(
                    old(self).spec_data_size() as int,
                    k,
                ),
            old(self).spec_subsample() == SCALE ==> final(self).spec_data_size() == sat_sub(
                old(self).spec_data_size() as int,
                batch@.len() as int,
            ),
            final(self).spec_depth_limit() == rpl_spec(
                old(self).spec_params().branching_factor as int,
                old(self).spec_params().max_leaf_samples as int,
                final(self).spec_data_size() as int,
                1,
            ),
            final(self).spec_root() is Some <==> old(self).spec_root() is Some,
            old(self).spec_root() is Some ==> {
                let r0 = old(self).spec_root()->0;
                let r = final(self).spec_root()->0;
                &&& forall|i: int|
                    0 <= i < old(self).spec_num_features() ==> r0.min_values@[i] <= (#[trigger] r.min_values@[i])
                &&& forall|i: int|
                    0 <= i < old(self).spec_num_features() ==> (#[trigger] r.max_values@[i]) <= r0.max_values@[i]
            },
            old(self).spec_subsample() == SCALE && old(self).spec_root() is Some && batch@.len()
                >= 1 ==> {
                let r0 = old(self).spec_root()->0;
                let r = final(self).spec_root()->0;
                &&& unlearned_from(r0, r, batch_view(batch@), old(self).spec_params())
                &&& (r.children is Some <==> (r0.children is Some && reaches_threshold_spec(
                    old(self).spec_params().max_leaf_samples as int,
                    old(self).spec_params().growth_criterion,
                    0,
                    sat_sub(old(self).spec_data_size() as int, batch@.len() as int),
                )))
            },
    {
        let ghost dim = old(self).spec_num_features() as nat;
        let ghost bv = batch_view(batch@);
        let kept = keep_rows(batch, self.subsample, &mut self.rng);
        proof {
            if old(self).spec_subsample() == SCALE {
                assert(batch_view(kept@).len() == bv.len());
                assert(kept@.len() == batch@.len());
            }
        }
        if kept.len() == 0 {
            proof {
                assert(self.spec_data_size() == sat_sub(old(self).spec_data_size() as int, 0));
            }
            return;
        }
        let ghost kv = batch_view(kept@);
        let new_size = if self.data_size >= kept.len() {
            self.data_size - kept.len()
        } else {
            0
        };
        self.data_size = new_size;
        self.depth_limit = random_path_length_fp(
            self.params.branching_factor as u64,
            self.params.max_leaf_samples as u64,
            new_size as u128,
            1,
        );
        proof {
            assert(batch_wf(kv, dim)) by {
                assert forall|t: int| 0 <= t < kv.len() implies (#[trigger] kv[t]).len()
                    == dim by {
                    assert(row_among(kv[t], bv, bv.len() as int));
                    let u = choose|u: int| 0 <= u < bv.len() && kv[t] == bv[u];
                    assert(bv[u].len() == dim);
                }
            }
        }
        let root = self.root.take();
        match root {
            None => {
            },
            Some(r) => {
                let shrunk = unlearn_node(r, &kept, self.params, Ghost(dim));
                self.root = Some(shrunk);
                proof {
                    if self.subsample == SCALE && bv.len() >= 1 {
                        assert(kv == bv);
                        assert(unlearned_from(r, shrunk, bv, self.params));
                    }
                }
            },
        }
        proof {
            assert(exists|k: int|
                0 <= k <= batch@.len() && self.spec_data_size() == sat_sub(
                    old(self).spec_data_size() as int,
                    k,
                )) by {
                assert(self.spec_data_size() == sat_sub(
                    old(self).spec_data_size() as int,
                    kv.len() as int,
                ));
            }
        }
    }

    /// Depth search for each row: the depth of the leaf the row reaches
    /// plus the expected remaining isolation depth inside that leaf, in
    /// fixed point; an empty tree reports zero.
    pub fn predict(&self, rows: &Vec<Vec<i64>>) -> (r: Vec<u64>)
        requires
            self.wf(),
            batch_wf(batch_view(rows@), self.spec_num_features() as nat),
        ensures
            r@.len() == rows@.len(),
            forall|k: int|
                0 <= k < rows@.len() ==> #[trigger] r@[k] == (match self.spec_root() {
                    Some(root) => depth_value(
                        root,
                        batch_view(rows@)[k],
                        self.spec_params().branching_factor as int,
                        self.spec_params().max_leaf_samples as int,
                    ),
                    None => 0,
                }),
            forall|k: int| 0 <= k < rows@.len() ==> #[trigger] r@[k] <= 200 * SCALE,
    {
        let ghost dim = self.spec_num_features() as nat;
        let ghost bv = batch_view(rows@);
        let n = rows.len();
        let mut out: Vec<u64> = Vec::new();
        let mut k: usize = 0;
        while k < n
            invariant
                k <= n,
                n == rows@.len(),
                bv == batch_view(rows@),
                batch_wf(bv, dim),
                dim >= 1,
                dim == self.spec_num_features() as nat,
                self.wf(),
                out@.len() == k,
                forall|t: int|
                    0 <= t < k ==> #[trigger] out@[t] == (match self.spec_root() {
                        Some(root) => depth_value(
                            root,
                            bv[t],
                            self.spec_params().branching_factor as int,
                            self.spec_params().max_leaf_samples as int,
                        ),
                        None => 0,
                    }),
                forall|t: int| 0 <= t < k ==> #[trigger] out@[t] <= 200 * SCALE,
            decreases n - k,
        {
            let row = &rows[k];
            proof {
                assert(bv[k as int] == rows@[k as int]@);
            }
            let d: u64 = match &self.root {
                Some(root) => depth_search(root, row, self.params, Ghost(dim)),
                None => 0,
            };
            out.push(d);
            k = k + 1;
        }
        out
    }
}

} // verus!
