//! The streaming-model contract: fit one row, score one row, and batch
//! conveniences layered over the two primitives.
//!
//! Every streaming anomaly scorer exposes this surface; the forest in this
//! crate implements it. The default combined operation scores first and
//! fits afterwards, so the score reflects the model before the row was
//! absorbed; a model may override it and must document its choice.

use vstd::prelude::*;
use crate::forest::sum_depths;
use crate::forest::OnlineIsolationForest;
use crate::pathlen::score_spec;
use crate::ModelError;
use crate::SCALE;

verus! {

/// A streaming anomaly-scoring model.
pub trait BaseModel: Sized {
    /// The model's internal invariant, preserved by every operation.
    spec fn inv(&self) -> bool;

    /// Which rows the model accepts at all (beyond the per-state feature
    /// count, which is enforced dynamically).
    spec fn row_ok(x: Seq<i64>) -> bool;

    /// What a successful score for a row means for this model; callers
    /// generic over the trait reason through this predicate.
    spec fn scored(&self, x: Seq<i64>, s: u64) -> bool;

    /// Absorb one row; fails with a dimension mismatch when the row's
    /// length differs from the established feature count.
    fn fit_partial(&mut self, x: &Vec<i64>) -> (r: Result<(), ModelError>)
        requires
            old(self).inv(),
            Self::row_ok(x@),
        ensures
            final(self).inv(),
    ;

    /// Score one row without mutating the model.
    fn score_partial(&self, x: &Vec<i64>) -> (r: Result<u64, ModelError>)
        requires
            self.inv(),
            Self::row_ok(x@),
        ensures
            r matches Ok(s) ==> self.scored(x@, s),
    ;

    /// Convenience composition. The default scores the state before the
    /// row, then absorbs it.
    fn fit_score_partial(&mut self, x: &Vec<i64>) -> (r: Result<u64, ModelError>)
        requires
            old(self).inv(),
            Self::row_ok(x@),
        ensures
            final(self).inv(),
    {
        let s = match self.score_partial(x) {
            Ok(s) => s,
            Err(e) => {
                return Err(e);
            },
        };
        match self.fit_partial(x) {
            Ok(_) => Ok(s),
            Err(e) => Err(e),
        }
    }

    /// Absorb a batch in order, stopping at the first rejected row.
    fn fit(&mut self, xs: &Vec<Vec<i64>>) -> (r: Result<(), ModelError>)
        requires
            old(self).inv(),
            forall|k: int| 0 <= k < xs@.len() ==> Self::row_ok((#[trigger] xs@[k])@),
        ensures
            final(self).inv(),
    {
        let n = xs.len();
        let mut k: usize = 0;
        while k < n
            invariant
                k <= n,
                n == xs@.len(),
                self.inv(),
                forall|t: int| 0 <= t < n ==> Self::row_ok((#[trigger] xs@[t])@),
            decreases n - k,
        {
            match self.fit_partial(&xs[k]) {
                Ok(_) => {
                },
                Err(e) => {
                    return Err(e);
                },
            }
            k = k + 1;
        }
        Ok(())
    }

    /// Score a batch in order against the current model.
    fn score(&self, xs: &Vec<Vec<i64>>) -> (r: Result<Vec<u64>, ModelError>)
        requires
            self.inv(),
            forall|k: int| 0 <= k < xs@.len() ==> Self::row_ok((#[trigger] xs@[k])@),
        ensures
            r is Ok ==> r->Ok_0@.len() == xs@.len(),
    {
        let n = xs.len();
        let mut out: Vec<u64> = Vec::new();
        let mut k: usize = 0;
        while k < n
            invariant
                k <= n,
                n == xs@.len(),
                self.inv(),
                out@.len() == k,
                forall|t: int| 0 <= t < n ==> Self::row_ok((#[trigger] xs@[t])@),
            decreases n - k,
        {
            match self.score_partial(&xs[k]) {
                Ok(s) => {
                    out.push(s);
                },
                Err(e) => {
                    return Err(e);
                },
            }
            k = k + 1;
        }
        Ok(out)
    }

    /// Absorb and score a batch in order.
    fn fit_score(&mut self, xs: &Vec<Vec<i64>>) -> (r: Result<Vec<u64>, ModelError>)
        requires
            old(self).inv(),
            forall|k: int| 0 <= k < xs@.len() ==> Self::row_ok((#[trigger] xs@[k])@),
        ensures
            final(self).inv(),
            r is Ok ==> r->Ok_0@.len() == xs@.len(),
    {
        let n = xs.len();
        let mut out: Vec<u64> = Vec::new();
        let mut k: usize = 0;
        while k < n
            invariant
                k <= n,
                n == xs@.len(),
                self.inv(),
                out@.len() == k,
                forall|t: int| 0 <= t < n ==> Self::row_ok((#[trigger] xs@[t])@),
            decreases n - k,
        {
            match self.fit_score_partial(&xs[k]) {
                Ok(s) => {
                    out.push(s);
                },
                Err(e) => {
                    return Err(e);
                },
            }
            k = k + 1;
        }
        Ok(out)
    }
}

impl BaseModel for OnlineIsolationForest {
    open spec fn inv(&self) -> bool {
        self.wf()
    }

    open spec fn row_ok(x: Seq<i64>) -> bool {
        x.len() >= 1
    }

    /// Before the first row the score is the neutral one half; afterwards
    /// it is exactly the normalized fixed-point exponential of the mean
    /// per-tree depth.
    open spec fn scored(&self, x: Seq<i64>, s: u64) -> bool {
        if self.spec_initialized() {
            s == score_spec(
                sum_depths(
                    self.spec_trees(),
                    x,
                    self.spec_params().branching_factor as int,
                    self.spec_params().max_leaf_samples as int,
                ),
                self.spec_num_trees() as int,
                self.spec_normalization_factor() as int,
            ) as u64
        } else {
            s == SCALE / 2
        }
    }

    fn fit_partial(&mut self, x: &Vec<i64>) -> (r: Result<(), ModelError>) {
        OnlineIsolationForest::fit_partial(self, x)
    }

    fn score_partial(&self, x: &Vec<i64>) -> (r: Result<u64, ModelError>) {
        let r = OnlineIsolationForest::score_partial(self, x);
        proof {
            if !self.spec_initialized() {
                assert(r == Ok::<u64, ModelError>(SCALE / 2));
            } else if x@.len() == self.spec_num_features() {
                assert(r matches Ok(s) ==> self.scored(x@, s));
            } else {
                assert(r is Err);
            }
        }
        r
    }

    /// This model overrides the default and fits first: the combined
    /// operation scores the state that already absorbed the row, matching
    /// the incremental protocol. Callers that need an unbiased online
    /// evaluation call `score_partial` before `fit_partial` explicitly.
    fn fit_score_partial(&mut self, x: &Vec<i64>) -> (r: Result<u64, ModelError>) {
        OnlineIsolationForest::fit_score_partial(self, x)
    }
}

} // verus!
