//! The elementary unit of an isolation tree: a hyper-rectangle summary plus
//! an optional split descriptor and child set.
//!
//! A node with `children == None` is a leaf and carries no split; an
//! internal node carries both, with exactly `branching_factor` children.
//! Nodes are created by growth (leaf to internal) and destroyed by collapse
//! (internal subtree to a single leaf); a tree owns its nodes exclusively.

use vstd::prelude::*;
use crate::pathlen::rpl_spec;
use crate::pathlen::random_path_length_fp;
use crate::pathlen::reaches_split_threshold;
use crate::pathlen::reaches_threshold_spec;
use crate::params_wf;
use crate::TreeParams;
use crate::rng::rng_below;
use crate::SCALE;

verus! {

/// Split descriptor of an internal node: the axis-aligned projection (a
/// single coordinate index) and the ascending split thresholds.
pub struct Split {
    pub feature: usize,
    pub thresholds: Vec<i64>,
}

/// One node of an isolation tree.
pub struct OnlineIsolationNode {
    /// Running count of points absorbed into this subtree (approximate
    /// under subsampling).
    pub data_size: usize,
    /// Distance from the tree root; the root has depth 0.
    pub depth: usize,
    /// Lower corner of the bounding box, one entry per feature dimension.
    pub min_values: Vec<i64>,
    /// Upper corner of the bounding box, one entry per feature dimension.
    pub max_values: Vec<i64>,
    /// Present exactly when the node is internal.
    pub split: Option<Split>,
    /// Present exactly when the node is internal.
    pub children: Option<Vec<OnlineIsolationNode>>,
}

/// Deepest level a node can sit at: splits stop well before this, since the
/// depth limit of a tree never exceeds 83 scaled units.
pub const MAX_DEPTH: usize = 100;

/// The smaller of two integers.
pub open spec fn imin(a: int, b: int) -> int {
    if a <= b {
        a
    } else {
        b
    }
}

/// The larger of two integers.
pub open spec fn imax(a: int, b: int) -> int {
    if a <= b {
        b
    } else {
        a
    }
}

/// Ascending order.
pub open spec fn sorted_seq(s: Seq<i64>) -> bool {
    forall|i: int, j: int| 0 <= i < j < s.len() ==> s[i] <= s[j]
}

/// The abstract value of a batch: each row as a sequence of coordinates.
pub open spec fn batch_view(rows: Seq<Vec<i64>>) -> Seq<Seq<i64>> {
    Seq::new(rows.len(), |k: int| rows[k]@)
}

/// A batch is a sequence of rows, each with one coordinate per dimension.
pub open spec fn batch_wf(rows: Seq<Seq<i64>>, dim: nat) -> bool {
    forall|k: int| 0 <= k < rows.len() ==> (#[trigger] rows[k]).len() == dim
}

/// Smallest coordinate in dimension `i` over a non-empty set of rows.
pub open spec fn rows_min_at(rows: Seq<Seq<i64>>, i: int) -> int
    recommends
        rows.len() >= 1,
    decreases rows.len(),
{
    if rows.len() <= 1 {
        rows[0][i] as int
    } else {
        imin(rows_min_at(rows.drop_last(), i), rows.last()[i] as int)
    }
}

/// Largest coordinate in dimension `i` over a non-empty set of rows.
pub open spec fn rows_max_at(rows: Seq<Seq<i64>>, i: int) -> int
    recommends
        rows.len() >= 1,
    decreases rows.len(),
{
    if rows.len() <= 1 {
        rows[0][i] as int
    } else {
        imax(rows_max_at(rows.drop_last(), i), rows.last()[i] as int)
    }
}

/// How many thresholds lie strictly below `v`: the branch a projected value
/// belongs to.
pub open spec fn count_lt(th: Seq<i64>, v: i64) -> nat
    decreases th.len(),
{
    if th.len() == 0 {
        0
    } else {
        count_lt(th.drop_last(), v) + if th.last() < v {
            1nat
        } else {
            0nat
        }
    }
}

/// Whether a node's bounding box lies inside the box `[lo, hi]`.
pub open spec fn node_in_box(c: OnlineIsolationNode, lo: Seq<i64>, hi: Seq<i64>, dim: nat) -> bool {
    &&& forall|i: int| 0 <= i < dim ==> lo[i] <= (#[trigger] c.min_values@[i])
    &&& forall|i: int| 0 <= i < dim ==> (#[trigger] c.max_values@[i]) <= hi[i]
}

/// Whether a node's box lies inside the union of the box `[lo, hi]` and
/// the bounding box of `rows`.
pub open spec fn node_within_union(
    c: OnlineIsolationNode,
    lo: Seq<i64>,
    hi: Seq<i64>,
    rows: Seq<Seq<i64>>,
    dim: nat,
) -> bool {
    &&& forall|i: int|
        0 <= i < dim ==> imin(lo[i] as int, rows_min_at(rows, i)) <= (#[trigger] c.min_values@[i])
    &&& forall|i: int|
        0 <= i < dim ==> (#[trigger] c.max_values@[i]) <= imax(hi[i] as int, rows_max_at(rows, i))
}

/// Saturating add on `usize` counts.
pub open spec fn sat_add(a: int, b: int) -> int {
    if a + b > usize::MAX {
        usize::MAX as int
    } else {
        a + b
    }
}

/// Subtraction floored at zero.
pub open spec fn sat_sub(a: int, b: int) -> int {
    if a >= b {
        a - b
    } else {
        0
    }
}

impl OnlineIsolationNode {
    /// Well-formedness of a node for a given dimension count and branching
    /// factor: bounds are coherent, a split is present exactly when
    /// children are, an internal node has `branching_factor` children one
    /// level deeper, each inside the parent's bounding box.
    pub open spec fn wf(self, dim: nat, bf: nat) -> bool
        decreases self,
    {
        &&& self.min_values@.len() == dim
        &&& self.max_values@.len() == dim
        &&& forall|i: int|
            0 <= i < dim ==> #[trigger] self.min_values@[i] <= self.max_values@[i]
        &&& self.depth <= MAX_DEPTH
        &&& self.split is Some <==> self.children is Some
        &&& self.children is Some ==> {
            let cs = self.children->0;
            let sp = self.split->0;
            &&& self.depth < MAX_DEPTH
            &&& cs.len() == bf
            &&& sp.feature < dim
            &&& sp.thresholds@.len() == bf - 1
            &&& sorted_seq(sp.thresholds@)
            &&& forall|j: int| 0 <= j < bf ==> (#[trigger] cs[j]).depth == self.depth + 1
            &&& forall|j: int| 0 <= j < bf ==> (#[trigger] cs[j]).wf(dim, bf)
            &&& forall|j: int|
                0 <= j < bf ==> node_in_box(#[trigger] cs[j], self.min_values@, self.max_values@, dim)
        }
    }

    /// A leaf carries no split structure.
    pub open spec fn is_leaf(self) -> bool {
        self.children is None
    }
}

/// The depth a query row reaches in a subtree, in fixed point: at a leaf,
/// the leaf's depth plus the expected remaining isolation depth for the
/// points the leaf holds; at an internal node, the result of the child the
/// row projects into.
pub open spec fn depth_value(node: OnlineIsolationNode, row: Seq<i64>, bf: int, ml: int) -> int
    decreases node,
{
    if node.children is Some {
        let sp = node.split->0;
        let cs = node.children->0;
        let b = count_lt(sp.thresholds@, row[sp.feature as int]) as int;
        if 0 <= b < cs.len() {
            depth_value(cs[b], row, bf, ml)
        } else {
            arbitrary()
        }
    } else {
        node.depth * SCALE + rpl_spec(bf, ml, node.data_size as int, 1)
    }
}

/// Number of thresholds strictly below `v`, the branch index for a
/// projected value.
pub fn branch_of(thresholds: &Vec<i64>, v: i64) -> (r: usize)
    ensures
        r == count_lt(thresholds@, v),
        r <= thresholds@.len(),
{
    let mut r: usize = 0;
    let mut k: usize = 0;
    let n = thresholds.len();
    while k < n
        invariant
            k <= n,
            n == thresholds@.len(),
            r == count_lt(thresholds@.take(k as int), v),
            r <= k,
        decreases n - k,
    {
        proof {
            assert(thresholds@.take(k + 1).drop_last() =~= thresholds@.take(k as int));
            assert(thresholds@.take(k + 1).last() == thresholds@[k as int]);
        }
        if thresholds[k] < v {
            r = r + 1;
        }
        k = k + 1;
    }
    proof {
        assert(thresholds@.take(n as int) =~= thresholds@);
    }
    r
}

/// Widen a bounding box to cover every row of a non-empty batch.
pub fn expand_bounds(min_values: &mut Vec<i64>, max_values: &mut Vec<i64>, rows: &Vec<Vec<i64>>)
    requires
        rows@.len() >= 1,
        batch_wf(batch_view(rows@), old(min_values)@.len() as nat),
        old(min_values)@.len() == old(max_values)@.len(),
    ensures
        final(min_values)@.len() == old(min_values)@.len(),
        final(max_values)@.len() == old(max_values)@.len(),
        forall|i: int|
            0 <= i < old(min_values)@.len() ==> #[trigger] final(min_values)@[i]
                == imin(old(min_values)@[i] as int, rows_min_at(batch_view(rows@), i)),
        forall|i: int|
            0 <= i < old(max_values)@.len() ==> #[trigger] final(max_values)@[i]
                == imax(old(max_values)@[i] as int, rows_max_at(batch_view(rows@), i)),
{
    let dim = min_values.len();
    let n = rows.len();
    let ghost bv = batch_view(rows@);
    let mut i: usize = 0;
    while i < dim
        invariant
            i <= dim,
            dim == min_values@.len(),
            dim == max_values@.len(),
            dim == old(min_values)@.len(),
            dim == old(max_values)@.len(),
            n == rows@.len(),
            n >= 1,
            bv == batch_view(rows@),
            batch_wf(bv, dim as nat),
            forall|t: int|
                0 <= t < i ==> #[trigger] min_values@[t]
                    == imin(old(min_values)@[t] as int, rows_min_at(bv, t)),
            forall|t: int|
                0 <= t < i ==> #[trigger] max_values@[t]
                    == imax(old(max_values)@[t] as int, rows_max_at(bv, t)),
            forall|t: int|
                i <= t < dim ==> #[trigger] min_values@[t] == old(min_values)@[t],
            forall|t: int|
                i <= t < dim ==> #[trigger] max_values@[t] == old(max_values)@[t],
        decreases dim - i,
    {
        let mut lo = min_values[i];
        let mut hi = max_values[i];
        let mut k: usize = 0;
        while k < n
            invariant
                k <= n,
                n == rows@.len(),
                n >= 1,
                i < dim,
                dim == min_values@.len(),
                bv == batch_view(rows@),
                batch_wf(bv, dim as nat),
                k == 0 ==> lo == min_values@[i as int] && hi == max_values@[i as int],
                k >= 1 ==> lo == imin(
                    min_values@[i as int] as int,
                    rows_min_at(bv.take(k as int), i as int),
                ),
                k >= 1 ==> hi == imax(
                    max_values@[i as int] as int,
                    rows_max_at(bv.take(k as int), i as int),
                ),
            decreases n - k,
        {
            proof {
                assert(bv.take(k + 1).drop_last() =~= bv.take(k as int));
                assert(bv.take(k + 1).last() == bv[k as int]);
                assert(bv[k as int].len() == dim);
            }
            let row = &rows[k];
            let v = row[i];
            if v < lo {
                lo = v;
            }
            if v > hi {
                hi = v;
            }
            k = k + 1;
        }
        proof {
            assert(bv.take(n as int) =~= bv);
        }
        min_values.set(i, lo);
        max_values.set(i, hi);
        i = i + 1;
    }
}

/// The bounding box of a non-empty batch.
pub fn compute_bounds(rows: &Vec<Vec<i64>>, dim: usize) -> (r: (Vec<i64>, Vec<i64>))
    requires
        rows@.len() >= 1,
        batch_wf(batch_view(rows@), dim as nat),
    ensures
        r.0@.len() == dim,
        r.1@.len() == dim,
        forall|i: int| 0 <= i < dim ==> #[trigger] r.0@[i] == rows_min_at(batch_view(rows@), i),
        forall|i: int| 0 <= i < dim ==> #[trigger] r.1@[i] == rows_max_at(batch_view(rows@), i),
{
    let first = &rows[0];
    let mut min_values: Vec<i64> = Vec::new();
    let mut max_values: Vec<i64> = Vec::new();
    let mut i: usize = 0;
    while i < dim
        invariant
            i <= dim,
            rows@.len() >= 1,
            batch_wf(batch_view(rows@), dim as nat),
            first == rows@[0],
            min_values@.len() == i,
            max_values@.len() == i,
            forall|t: int| 0 <= t < i ==> #[trigger] min_values@[t] == batch_view(rows@)[0][t],
            forall|t: int| 0 <= t < i ==> #[trigger] max_values@[t] == batch_view(rows@)[0][t],
        decreases dim - i,
    {
        proof {
            assert(batch_view(rows@)[0] == rows@[0]@);
        }
        min_values.push(first[i]);
        max_values.push(first[i]);
        i = i + 1;
    }
    expand_bounds(&mut min_values, &mut max_values, rows);
    proof {
        let bv = batch_view(rows@);
        assert forall|t: int| 0 <= t < dim implies #[trigger] min_values@[t]
            == rows_min_at(bv, t) by {
            lemma_rows_min_at_member(bv, t, 0);
        }
        assert forall|t: int| 0 <= t < dim implies #[trigger] max_values@[t]
            == rows_max_at(bv, t) by {
            lemma_rows_min_at_member(bv, t, 0);
        }
    }
    (min_values, max_values)
}

/// Every row's coordinate lies inside the batch bounding box.
pub proof fn lemma_rows_min_at_member(rows: Seq<Seq<i64>>, i: int, k: int)
    requires
        0 <= k < rows.len(),
    ensures
        rows_min_at(rows, i) <= rows[k][i] as int,
        rows[k][i] as int <= rows_max_at(rows, i),
    decreases rows.len(),
{
    if rows.len() > 1 {
        if k == rows.len() - 1 {
            assert(rows.last() == rows[k]);
        } else {
            lemma_rows_min_at_member(rows.drop_last(), i, k);
            assert(rows.drop_last()[k] == rows[k]);
        }
    }
}

/// Synthetic points drawn uniformly from a bounding box, one coordinate at
/// a time; a degenerate dimension yields its single value. They stand in
/// for a leaf's unknown history when the leaf must be split.
pub fn sample_in_box(
    min_values: &Vec<i64>,
    max_values: &Vec<i64>,
    count: usize,
    rng: &mut rand::rngs::StdRng,
) -> (r: Vec<Vec<i64>>)
    requires
        min_values@.len() == max_values@.len(),
        forall|i: int|
            0 <= i < min_values@.len() ==> #[trigger] min_values@[i] <= max_values@[i],
    ensures
        r@.len() == count,
        batch_wf(batch_view(r@), min_values@.len() as nat),
        forall|k: int, i: int|
            0 <= k < count && 0 <= i < min_values@.len() ==> min_values@[i]
                <= (#[trigger] batch_view(r@)[k][i]) && batch_view(r@)[k][i] <= max_values@[i],
{
    let dim = min_values.len();
    let mut out: Vec<Vec<i64>> = Vec::new();
    let mut k: usize = 0;
    while k < count
        invariant
            k <= count,
            dim == min_values@.len(),
            dim == max_values@.len(),
            forall|i: int|
                0 <= i < dim ==> #[trigger] min_values@[i] <= max_values@[i],
            out@.len() == k,
            forall|t: int, i: int|
                0 <= t < k && 0 <= i < dim ==> min_values@[i] <= (#[trigger] out@[t]@[i])
                    && out@[t]@[i] <= max_values@[i],
            forall|t: int| 0 <= t < k ==> (#[trigger] out@[t])@.len() == dim,
        decreases count - k,
    {
        let mut row: Vec<i64> = Vec::new();
        let mut i: usize = 0;
        while i < dim
            invariant
                i <= dim,
                dim == min_values@.len(),
                dim == max_values@.len(),
                forall|t: int|
                    0 <= t < dim ==> #[trigger] min_values@[t] <= max_values@[t],
                row@.len() == i,
                forall|t: int|
                    0 <= t < i ==> min_values@[t] <= (#[trigger] row@[t])
                        && row@[t] <= max_values@[t],
            decreases dim - i,
        {
            let lo = min_values[i];
            let hi = max_values[i];
            if lo == hi {
                row.push(lo);
            } else {
                let width: u64 = ((hi as i128) - (lo as i128)) as u64;
                proof {
                    assert(width == hi - lo);
                }
                let draw = rng_below(rng, width);
                let v: i64 = (((lo as i128) + (draw as i128))) as i64;
                row.push(v);
            }
            i = i + 1;
        }
        out.push(row);
        k = k + 1;
    }
    out
}

/// Insert a value into an ascending vector, keeping it ascending.
fn sorted_insert(out: &mut Vec<i64>, v: i64)
    requires
        sorted_seq(old(out)@),
    ensures
        sorted_seq(final(out)@),
        final(out)@.len() == old(out)@.len() + 1,
        forall|t: int|
            0 <= t < final(out)@.len() ==> (#[trigger] final(out)@[t]) == v || exists|u: int|
                0 <= u < old(out)@.len() && final(out)@[t] == old(out)@[u],
{
    let n = out.len();
    let mut idx: usize = 0;
    while idx < n && out[idx] <= v
        invariant
            idx <= n,
            n == out@.len(),
            out@ == old(out)@,
            forall|t: int| 0 <= t < idx ==> #[trigger] out@[t] <= v,
        decreases n - idx,
    {
        idx = idx + 1;
    }
    proof {
        assert(forall|t: int| 0 <= t < idx ==> #[trigger] out@[t] <= v);
        assert(idx < n ==> out@[idx as int] > v);
    }
    out.insert(idx, v);
    proof {
        assert forall|t: int|
            0 <= t < out@.len() implies (#[trigger] out@[t]) == v || exists|u: int|
                0 <= u < old(out)@.len() && out@[t] == old(out)@[u] by {
            if t < idx {
                assert(out@[t] == old(out)@[t]);
            } else if t > idx {
                assert(out@[t] == old(out)@[t - 1]);
            }
        }
        assert forall|a: int, b: int| 0 <= a < b < out@.len() implies out@[a] <= out@[b] by {
            if b < idx {
            } else if a < idx && b == idx {
            } else if a < idx {
                assert(out@[b] == old(out)@[b - 1]);
                assert(out@[a] == old(out)@[a]);
                assert(old(out)@[a] <= v);
                if b - 1 >= idx {
                    assert(old(out)@[idx as int] <= old(out)@[b - 1]);
                    assert(old(out)@[idx as int] > v);
                }
            } else if a == idx {
                assert(out@[b] == old(out)@[b - 1]);
                assert(old(out)@[b - 1] >= old(out)@[idx as int]);
            } else {
                assert(out@[a] == old(out)@[a - 1]);
                assert(out@[b] == old(out)@[b - 1]);
            }
        }
    }
}

/// Split thresholds for a projected range: `k` values drawn uniformly
/// inside `[min_p, max_p)`, sorted ascending. A degenerate range (a single
/// value) yields thresholds packed around that value so that rows do not
/// all collapse into one branch.
pub fn choose_thresholds(min_p: i64, max_p: i64, k: usize, rng: &mut rand::rngs::StdRng) -> (r:
    Vec<i64>)
    requires
        min_p <= max_p,
        1 <= k <= 65535,
    ensures
        r@.len() == k,
        sorted_seq(r@),
        min_p < max_p ==> forall|t: int| 0 <= t < k ==> min_p <= (#[trigger] r@[t]) < max_p,
        min_p == max_p ==> forall|t: int|
            0 <= t < k ==> (#[trigger] r@[t]) <= min_p && (min_p == i64::MIN ==> r@[t] == min_p)
                && (min_p > i64::MIN ==> r@[t] >= min_p - 1),
{
    let mut out: Vec<i64> = Vec::new();
    if min_p == max_p {
        let lo: i64 = if min_p > i64::MIN {
            min_p - 1
        } else {
            min_p
        };
        let h = (k + 1) / 2;
        let mut t: usize = 0;
        while t < k
            invariant
                t <= k,
                h <= k,
                out@.len() == t,
                lo <= min_p,
                forall|a: int| 0 <= a < t ==> #[trigger] out@[a] == (if a < h { lo } else { min_p }),
            decreases k - t,
        {
            if t < h {
                out.push(lo);
            } else {
                out.push(min_p);
            }
            t = t + 1;
        }
        proof {
            assert forall|a: int, b: int| 0 <= a < b < out@.len() implies out@[a] <= out@[b] by {}
        }
        out
    } else {
        let width: u64 = ((max_p as i128) - (min_p as i128)) as u64;
        let mut t: usize = 0;
        while t < k
            invariant
                t <= k,
                out@.len() == t,
                sorted_seq(out@),
                width == max_p - min_p,
                min_p < max_p,
                forall|a: int| 0 <= a < t ==> min_p <= (#[trigger] out@[a]) < max_p,
            decreases k - t,
        {
            let draw = rng_below(rng, width);
            let v: i64 = (((min_p as i128) + (draw as i128))) as i64;
            let ghost out0 = out@;
            sorted_insert(&mut out, v);
            proof {
                assert forall|a: int| 0 <= a < out@.len() implies min_p <= (#[trigger] out@[a])
                    && out@[a] < max_p by {
                    if out@[a] != v {
                        let u = choose|u: int| 0 <= u < out0.len() && out@[a] == out0[u];
                        assert(min_p <= out0[u] < max_p);
                    }
                }
            }
            t = t + 1;
        }
        out
    }
}

/// The rows of a batch that project into branch `j` of a split, in order.
pub open spec fn part_rows(rows: Seq<Seq<i64>>, feature: int, th: Seq<i64>, j: int) -> Seq<
    Seq<i64>,
>
    decreases rows.len(),
{
    if rows.len() == 0 {
        Seq::empty()
    } else {
        let rest = part_rows(rows.drop_last(), feature, th, j);
        if count_lt(th, rows.last()[feature]) == j {
            rest.push(rows.last())
        } else {
            rest
        }
    }
}

/// Total length of the first `j` branch partitions of a batch.
pub open spec fn parts_sum(rows: Seq<Seq<i64>>, feature: int, th: Seq<i64>, j: nat) -> int
    decreases j,
{
    if j == 0 {
        0
    } else {
        parts_sum(rows, feature, th, (j - 1) as nat) + part_rows(
            rows,
            feature,
            th,
            j - 1,
        ).len()
    }
}

/// The branch index never exceeds the threshold count.
pub proof fn lemma_count_lt_bound(th: Seq<i64>, v: i64)
    ensures
        count_lt(th, v) <= th.len(),
    decreases th.len(),
{
    if th.len() > 0 {
        lemma_count_lt_bound(th.drop_last(), v);
    }
}

/// Appending a row lengthens exactly the partition of its branch.
proof fn lemma_parts_sum_step(rows: Seq<Seq<i64>>, feature: int, th: Seq<i64>, j: nat)
    requires
        rows.len() >= 1,
    ensures
        parts_sum(rows, feature, th, j) == parts_sum(rows.drop_last(), feature, th, j) + (
        if count_lt(th, rows.last()[feature]) < j {
            1int
        } else {
            0int
        }),
    decreases j,
{
    if j > 0 {
        lemma_parts_sum_step(rows, feature, th, (j - 1) as nat);
    }
}

/// Every row lands in exactly one branch, so the partitions of a batch
/// cover it: their lengths sum to the batch length.
pub proof fn lemma_parts_sum_total(rows: Seq<Seq<i64>>, feature: int, th: Seq<i64>, bf: nat)
    requires
        th.len() == bf - 1,
        bf >= 1,
    ensures
        parts_sum(rows, feature, th, bf) == rows.len(),
    decreases rows.len(),
{
    if rows.len() == 0 {
        assert forall|j: nat| j <= bf implies parts_sum(rows, feature, th, j) == 0 by {
            lemma_parts_sum_zero(rows, feature, th, j);
        }
    } else {
        lemma_parts_sum_total(rows.drop_last(), feature, th, bf);
        lemma_parts_sum_step(rows, feature, th, bf);
        lemma_count_lt_bound(th, rows.last()[feature]);
    }
}

/// The partitions of an empty batch are empty.
proof fn lemma_parts_sum_zero(rows: Seq<Seq<i64>>, feature: int, th: Seq<i64>, j: nat)
    requires
        rows.len() == 0,
    ensures
        parts_sum(rows, feature, th, j) == 0,
    decreases j,
{
    if j > 0 {
        lemma_parts_sum_zero(rows, feature, th, (j - 1) as nat);
    }
}

/// Two node sets that agree on their first `j` elements have the same
/// count sum over those elements.
pub proof fn lemma_children_size_sum_agree(
    a: Seq<OnlineIsolationNode>,
    b: Seq<OnlineIsolationNode>,
    j: nat,
)
    requires
        j <= a.len(),
        j <= b.len(),
        forall|t: int| 0 <= t < j ==> a[t] == b[t],
    ensures
        children_size_sum(a, j) == children_size_sum(b, j),
    decreases j,
{
    if j > 0 {
        lemma_children_size_sum_agree(a, b, (j - 1) as nat);
    }
}

/// Dropping the last row can only tighten the bounding box.
pub proof fn lemma_rows_prefix_bounds(rows: Seq<Seq<i64>>, i: int)
    requires
        rows.len() >= 2,
    ensures
        rows_min_at(rows, i) <= rows_min_at(rows.drop_last(), i),
        rows_max_at(rows.drop_last(), i) <= rows_max_at(rows, i),
        rows_min_at(rows, i) <= rows.last()[i] as int,
        rows.last()[i] as int <= rows_max_at(rows, i),
{
}

/// A branch partition keeps rows of the right shape, never grows, and stays
/// inside the batch bounding box.
pub proof fn lemma_part_rows_facts(
    rows: Seq<Seq<i64>>,
    feature: int,
    th: Seq<i64>,
    j: int,
    dim: nat,
)
    requires
        batch_wf(rows, dim),
    ensures
        part_rows(rows, feature, th, j).len() <= rows.len(),
        batch_wf(part_rows(rows, feature, th, j), dim),
        part_rows(rows, feature, th, j).len() >= 1 ==> rows.len() >= 1,
        forall|i: int|
            part_rows(rows, feature, th, j).len() >= 1 ==> rows_min_at(rows, i)
                <= #[trigger] rows_min_at(part_rows(rows, feature, th, j), i),
        forall|i: int|
            part_rows(rows, feature, th, j).len() >= 1 ==> #[trigger] rows_max_at(
                part_rows(rows, feature, th, j),
                i,
            ) <= rows_max_at(rows, i),
    decreases rows.len(),
{
    if rows.len() > 0 {
        let prev = rows.drop_last();
        assert(batch_wf(prev, dim)) by {
            assert(forall|k: int| 0 <= k < prev.len() ==> prev[k] == rows[k]);
        }
        lemma_part_rows_facts(prev, feature, th, j, dim);
        let part = part_rows(rows, feature, th, j);
        let part_prev = part_rows(prev, feature, th, j);
        assert(batch_wf(part, dim)) by {
            if count_lt(th, rows.last()[feature]) == j {
                assert(forall|k: int|
                    0 <= k < part.len() ==> part[k] == (if k < part_prev.len() {
                        part_prev[k]
                    } else {
                        rows.last()
                    }));
            }
        }
        let taken = count_lt(th, rows.last()[feature]) == j;
        assert forall|i: int| part.len() >= 1 implies rows_min_at(rows, i)
            <= #[trigger] rows_min_at(part, i) by {
            lemma_part_rows_bounds_case(rows, feature, th, j, i);
        }
        assert forall|i: int| part.len() >= 1 implies #[trigger] rows_max_at(part, i)
            <= rows_max_at(rows, i) by {
            lemma_part_rows_bounds_case(rows, feature, th, j, i);
        }
    }
}

/// One dimension of the branch-partition bounding-box containment.
proof fn lemma_part_rows_bounds_case(rows: Seq<Seq<i64>>, feature: int, th: Seq<i64>, j: int, i: int)
    requires
        rows.len() >= 1,
        part_rows(rows, feature, th, j).len() >= 1,
    ensures
        rows_min_at(rows, i) <= rows_min_at(part_rows(rows, feature, th, j), i),
        rows_max_at(part_rows(rows, feature, th, j), i) <= rows_max_at(rows, i),
    decreases rows.len(),
{
    let part = part_rows(rows, feature, th, j);
    let prev = rows.drop_last();
    let part_prev = part_rows(prev, feature, th, j);
    let taken = count_lt(th, rows.last()[feature]) == j;
    if rows.len() == 1 {
        assert(taken);
        assert(part.len() == 1);
        assert(part[0] == rows[0]);
        assert(rows_min_at(part, i) == rows[0][i] as int);
        assert(rows_max_at(part, i) == rows[0][i] as int);
    } else {
        lemma_rows_prefix_bounds(rows, i);
        if taken {
            assert(part == part_prev.push(rows.last()));
            if part_prev.len() >= 1 {
                lemma_part_rows_bounds_case(prev, feature, th, j, i);
                assert(part.len() >= 2);
                assert(part.drop_last() =~= part_prev);
                assert(part.last() == rows.last());
                assert(rows_min_at(part, i) == imin(
                    rows_min_at(part_prev, i),
                    rows.last()[i] as int,
                ));
                assert(rows_max_at(part, i) == imax(
                    rows_max_at(part_prev, i),
                    rows.last()[i] as int,
                ));
            } else {
                assert(part.len() == 1);
                assert(part[0] == rows.last());
                assert(rows_min_at(part, i) == rows.last()[i] as int);
                assert(rows_max_at(part, i) == rows.last()[i] as int);
            }
        } else {
            assert(part == part_prev);
            lemma_part_rows_bounds_case(prev, feature, th, j, i);
        }
    }
}

/// A copy of a row.
fn clone_row(row: &Vec<i64>) -> (c: Vec<i64>)
    ensures
        c@ == row@,
{
    let mut c: Vec<i64> = Vec::new();
    let n = row.len();
    let mut k: usize = 0;
    while k < n
        invariant
            k <= n,
            n == row@.len(),
            c@ == row@.take(k as int),
        decreases n - k,
    {
        c.push(row[k]);
        k = k + 1;
        proof {
            assert(c@ =~= row@.take(k as int));
        }
    }
    proof {
        assert(row@.take(n as int) =~= row@);
    }
    c
}

/// A public copy helper for rows and bounds vectors.
pub fn clone_row_public(row: &Vec<i64>) -> (c: Vec<i64>)
    ensures
        c@ == row@,
{
    clone_row(row)
}

/// Sort a batch into one part per branch: a row belongs to the branch given
/// by the number of thresholds strictly below its projected coordinate.
pub fn partition_rows(
    rows: &Vec<Vec<i64>>,
    feature: usize,
    thresholds: &Vec<i64>,
    bf: usize,
    Ghost(dim): Ghost<nat>,
) -> (parts: Vec<Vec<Vec<i64>>>)
    requires
        batch_wf(batch_view(rows@), dim),
        feature < dim,
    ensures
        parts@.len() == bf,
        forall|j: int|
            0 <= j < bf ==> batch_view((#[trigger] parts@[j])@) == part_rows(
                batch_view(rows@),
                feature as int,
                thresholds@,
                j,
            ),
{
    let mut parts: Vec<Vec<Vec<i64>>> = Vec::new();
    let n = rows.len();
    let ghost bv = batch_view(rows@);
    let mut j: usize = 0;
    while j < bf
        invariant
            j <= bf,
            n == rows@.len(),
            bv == batch_view(rows@),
            batch_wf(bv, dim),
            feature < dim,
            parts@.len() == j,
            forall|t: int|
                0 <= t < j ==> batch_view((#[trigger] parts@[t])@) == part_rows(
                    bv,
                    feature as int,
                    thresholds@,
                    t,
                ),
        decreases bf - j,
    {
        let mut part: Vec<Vec<i64>> = Vec::new();
        let mut k: usize = 0;
        while k < n
            invariant
                k <= n,
                n == rows@.len(),
                bv == batch_view(rows@),
                batch_wf(bv, dim),
                feature < dim,
                batch_view(part@) == part_rows(
                    bv.take(k as int),
                    feature as int,
                    thresholds@,
                    j as int,
                ),
            decreases n - k,
        {
            proof {
                assert(bv.take(k + 1).drop_last() =~= bv.take(k as int));
                assert(bv.take(k + 1).last() == bv[k as int]);
                assert(bv[k as int].len() == dim);
            }
            let row = &rows[k];
            let b = branch_of(thresholds, row[feature]);
            if b == j {
                let c = clone_row(row);
                part.push(c);
            }
            proof {
                assert(batch_view(part@) =~= part_rows(
                    bv.take(k + 1),
                    feature as int,
                    thresholds@,
                    j as int,
                ));
            }
            k = k + 1;
        }
        proof {
            assert(bv.take(n as int) =~= bv);
        }
        parts.push(part);
        j = j + 1;
    }
    parts
}

/// A copy of a bounds vector.
fn clone_bounds(v: &Vec<i64>) -> (c: Vec<i64>)
    ensures
        c@ == v@,
{
    clone_row(v)
}

/// Build a fresh subtree from a non-empty row set at a given depth: the
/// node takes the rows' bounding box and count; it becomes a leaf when the
/// count is below the split threshold or the depth has reached the tree's
/// depth limit, and otherwise splits on a random coordinate with random
/// thresholds, recursing per branch (an empty branch becomes a zero-sample
/// leaf inheriting this node's bounds).
pub(crate) fn build_node(
    rows: &Vec<Vec<i64>>,
    depth: usize,
    p: TreeParams,
    limit_fp: u64,
    rng: &mut rand::rngs::StdRng,
    Ghost(dim): Ghost<nat>,
) -> (n: OnlineIsolationNode)
    requires
        params_wf(p),
        rows@.len() >= 1,
        batch_wf(batch_view(rows@), dim),
        dim >= 1,
        depth <= MAX_DEPTH,
        limit_fp <= 83 * SCALE,
    ensures
        n.wf(dim, p.branching_factor as nat),
        n.depth == depth,
        n.data_size == rows@.len(),
        forall|i: int|
            0 <= i < dim ==> #[trigger] n.min_values@[i] == rows_min_at(batch_view(rows@), i),
        forall|i: int|
            0 <= i < dim ==> #[trigger] n.max_values@[i] == rows_max_at(batch_view(rows@), i),
        n.children is Some <==> (reaches_threshold_spec(
            p.max_leaf_samples as int,
            p.growth_criterion,
            depth as nat,
            rows@.len() as int,
        ) && (depth as int) * SCALE < limit_fp),
        n.children is Some ==> {
            let sp = n.split->0;
            let cs = (n.children->0)@;
            &&& n.data_size == children_size_sum(cs, cs.len() as nat)
            &&& forall|j: int|
                0 <= j < cs.len() ==> (#[trigger] cs[j]).data_size == part_rows(
                    batch_view(rows@),
                    sp.feature as int,
                    sp.thresholds@,
                    j,
                ).len()
            &&& forall|j: int|
                0 <= j < cs.len() && part_rows(
                    batch_view(rows@),
                    sp.feature as int,
                    sp.thresholds@,
                    j,
                ).len() == 0 ==> (#[trigger] cs[j]).children is None && cs[j].split is None
                    && cs[j].data_size == 0 && cs[j].min_values@ == n.min_values@
                    && cs[j].max_values@ == n.max_values@
        },
    decreases MAX_DEPTH - depth,
{
    let ghost bv = batch_view(rows@);
    let dim_e = rows[0].len();
    proof {
        assert(bv[0] == rows@[0]@);
        assert(dim_e == dim);
    }
    let (min_values, max_values) = compute_bounds(rows, dim_e);
    proof {
        assert forall|i: int| 0 <= i < dim implies #[trigger] min_values@[i]
            <= max_values@[i] by {
            lemma_rows_min_at_member(bv, i, 0);
        }
    }
    let n_rows = rows.len();
    let threshold_reached = reaches_split_threshold(
        p.max_leaf_samples as u64,
        p.growth_criterion,
        depth,
        n_rows as u64,
    );
    let below_limit = ((depth as u64) * SCALE) < limit_fp;
    if !threshold_reached || !below_limit {
        OnlineIsolationNode {
            data_size: n_rows,
            depth,
            min_values,
            max_values,
            split: None,
            children: None,
        }
    } else {
        proof {
            assert((depth as int) * SCALE < 83 * SCALE);
            assert(depth < 83);
        }
        let feature = rng_below(rng, dim_e as u64) as usize;
        let min_p = min_values[feature];
        let max_p = max_values[feature];
        let thresholds = choose_thresholds(min_p, max_p, p.branching_factor - 1, rng);
        let parts = partition_rows(rows, feature, &thresholds, p.branching_factor, Ghost(dim));
        let bf = p.branching_factor;
        let mut children: Vec<OnlineIsolationNode> = Vec::new();
        let mut j: usize = 0;
        while j < bf
            invariant
                j <= bf,
                params_wf(p),
                bf == p.branching_factor,
                dim >= 1,
                depth < 83,
                limit_fp <= 83 * SCALE,
                bv == batch_view(rows@),
                rows@.len() >= 1,
                batch_wf(bv, dim),
                min_values@.len() == dim,
                max_values@.len() == dim,
                forall|i: int|
                    0 <= i < dim ==> #[trigger] min_values@[i] == rows_min_at(bv, i),
                forall|i: int|
                    0 <= i < dim ==> #[trigger] max_values@[i] == rows_max_at(bv, i),
                forall|i: int|
                    0 <= i < dim ==> #[trigger] min_values@[i] <= max_values@[i],
                feature < dim,
                thresholds@.len() == bf - 1,
                parts@.len() == bf,
                forall|t: int|
                    0 <= t < bf ==> batch_view((#[trigger] parts@[t])@) == part_rows(
                        bv,
                        feature as int,
                        thresholds@,
                        t,
                    ),
                children@.len() == j,
                forall|t: int| 0 <= t < j ==> (#[trigger] children@[t]).wf(dim, bf as nat),
                forall|t: int| 0 <= t < j ==> (#[trigger] children@[t]).depth == depth + 1,
                forall|t: int|
                    0 <= t < j ==> node_in_box(#[trigger] children@[t], min_values@, max_values@, dim),
                forall|t: int|
                    0 <= t < j ==> (#[trigger] children@[t]).data_size == part_rows(
                        bv,
                        feature as int,
                        thresholds@,
                        t,
                    ).len(),
                forall|t: int|
                    0 <= t < j && part_rows(bv, feature as int, thresholds@, t).len() == 0
                        ==> (#[trigger] children@[t]).children is None && children@[t].split is None
                        && children@[t].min_values@ == min_values@ && children@[t].max_values@
                        == max_values@,
                children_size_sum(children@, j as nat) == parts_sum(
                    bv,
                    feature as int,
                    thresholds@,
                    j as nat,
                ),
            decreases bf - j,
        {
            proof {
                lemma_part_rows_facts(bv, feature as int, thresholds@, j as int, dim);
            }
            let part = &parts[j];
            let child: OnlineIsolationNode = if part.len() == 0 {
                OnlineIsolationNode {
                    data_size: 0,
                    depth: depth + 1,
                    min_values: clone_bounds(&min_values),
                    max_values: clone_bounds(&max_values),
                    split: None,
                    children: None,
                }
            } else {
                build_node(part, depth + 1, p, limit_fp, rng, Ghost(dim))
            };
            proof {
                let pr = part_rows(bv, feature as int, thresholds@, j as int);
                assert(batch_view(part@) == pr);
                assert forall|i: int| 0 <= i < dim implies min_values@[i]
                    <= (#[trigger] child.min_values@[i]) by {
                    if part@.len() > 0 {
                        assert(child.min_values@[i] == rows_min_at(pr, i));
                        assert(rows_min_at(bv, i) <= rows_min_at(pr, i));
                    }
                }
                assert forall|i: int| 0 <= i < dim implies (#[trigger] child.max_values@[i])
                    <= max_values@[i] by {
                    if part@.len() > 0 {
                        assert(child.max_values@[i] == rows_max_at(pr, i));
                        assert(rows_max_at(pr, i) <= rows_max_at(bv, i));
                    }
                }
                assert(node_in_box(child, min_values@, max_values@, dim));
            }
            proof {
                let pr = part_rows(bv, feature as int, thresholds@, j as int);
                assert(batch_view(part@) == pr);
                assert(child.data_size == pr.len());
            }
            let ghost c0 = children@;
            children.push(child);
            proof {
                assert forall|t: int|
                    0 <= t < children@.len() implies node_in_box(
                    #[trigger] children@[t],
                    min_values@,
                    max_values@,
                    dim,
                ) by {
                    if t == j as int {
                        assert(children@[t] == child);
                    } else {
                        assert(children@[t] == c0[t]);
                    }
                }
                assert forall|t: int|
                    0 <= t < children@.len() implies (#[trigger] children@[t]).data_size
                        == part_rows(bv, feature as int, thresholds@, t).len() by {
                    if t == j as int {
                        assert(children@[t] == child);
                    } else {
                        assert(children@[t] == c0[t]);
                    }
                }
                assert forall|t: int|
                    0 <= t < children@.len() && part_rows(bv, feature as int, thresholds@, t).len()
                        == 0 implies (#[trigger] children@[t]).children is None
                        && children@[t].split is None && children@[t].min_values@ == min_values@
                        && children@[t].max_values@ == max_values@ by {
                    if t == j as int {
                        assert(children@[t] == child);
                    } else {
                        assert(children@[t] == c0[t]);
                    }
                }
                lemma_children_size_sum_agree(children@, c0, j as nat);
                assert(children@[j as int] == child);
                assert(children_size_sum(children@, (j + 1) as nat) == parts_sum(
                    bv,
                    feature as int,
                    thresholds@,
                    (j + 1) as nat,
                ));
            }
            j = j + 1;
        }
        proof {
            lemma_parts_sum_total(bv, feature as int, thresholds@, bf as nat);
        }
        OnlineIsolationNode {
            data_size: n_rows,
            depth,
            min_values,
            max_values,
            split: Some(Split { feature, thresholds }),
            children: Some(children),
        }
    }
}

/// A batch whose coordinates all lie in `[lo, hi]` has its bounding box
/// inside `[lo, hi]` too.
pub proof fn lemma_rows_bounds_within(rows: Seq<Seq<i64>>, i: int, lo: int, hi: int)
    requires
        rows.len() >= 1,
        forall|k: int| 0 <= k < rows.len() ==> lo <= (#[trigger] rows[k])[i] && rows[k][i] <= hi,
    ensures
        lo <= rows_min_at(rows, i),
        rows_max_at(rows, i) <= hi,
    decreases rows.len(),
{
    if rows.len() > 1 {
        let prev = rows.drop_last();
        assert(forall|k: int| 0 <= k < prev.len() ==> prev[k] == rows[k]);
        lemma_rows_bounds_within(prev, i, lo, hi);
    }
}

/// `v` is at or below every child's lower corner in dimension `i`.
pub open spec fn lower_at(v: i64, cs: Seq<OnlineIsolationNode>, i: int) -> bool {
    forall|j: int| 0 <= j < cs.len() ==> v <= (#[trigger] cs[j]).min_values@[i]
}

/// `v` is at or above every child's upper corner in dimension `i`.
pub open spec fn upper_at(v: i64, cs: Seq<OnlineIsolationNode>, i: int) -> bool {
    forall|j: int| 0 <= j < cs.len() ==> (#[trigger] cs[j]).max_values@[i] <= v
}

/// `v` is some child's lower corner in dimension `i`.
pub open spec fn min_achieved_at(v: i64, cs: Seq<OnlineIsolationNode>, i: int) -> bool {
    exists|j: int| 0 <= j < cs.len() && v == (#[trigger] cs[j]).min_values@[i]
}

/// `v` is some child's upper corner in dimension `i`.
pub open spec fn max_achieved_at(v: i64, cs: Seq<OnlineIsolationNode>, i: int) -> bool {
    exists|j: int| 0 <= j < cs.len() && v == (#[trigger] cs[j]).max_values@[i]
}

/// Least lower corner over a non-empty set of nodes in dimension `i`.
pub open spec fn children_min_at(cs: Seq<OnlineIsolationNode>, i: int) -> int
    recommends
        cs.len() >= 1,
    decreases cs.len(),
{
    if cs.len() <= 1 {
        cs[0].min_values@[i] as int
    } else {
        imin(children_min_at(cs.drop_last(), i), cs.last().min_values@[i] as int)
    }
}

/// Greatest upper corner over a non-empty set of nodes in dimension `i`.
pub open spec fn children_max_at(cs: Seq<OnlineIsolationNode>, i: int) -> int
    recommends
        cs.len() >= 1,
    decreases cs.len(),
{
    if cs.len() <= 1 {
        cs[0].max_values@[i] as int
    } else {
        imax(children_max_at(cs.drop_last(), i), cs.last().max_values@[i] as int)
    }
}

/// Sum of the running counts of the first `j` nodes.
pub open spec fn children_size_sum(cs: Seq<OnlineIsolationNode>, j: nat) -> int
    recommends
        j <= cs.len(),
    decreases j,
{
    if j == 0 {
        0
    } else {
        children_size_sum(cs, (j - 1) as nat) + cs[j - 1].data_size
    }
}

/// Least lower corner over all leaves of a subtree in dimension `i`: the
/// aggregate box that survives a collapse.
pub open spec fn subtree_min_at(node: OnlineIsolationNode, i: int) -> int
    decreases node, 0nat,
{
    if node.children is Some {
        subtree_cs_min_at((node.children->0)@, i)
    } else {
        node.min_values@[i] as int
    }
}

/// Least lower corner over all leaves below a non-empty set of nodes.
pub open spec fn subtree_cs_min_at(cs: Seq<OnlineIsolationNode>, i: int) -> int
    recommends
        cs.len() >= 1,
    decreases cs, 1nat,
{
    if cs.len() == 0 {
        arbitrary()
    } else if cs.len() == 1 {
        subtree_min_at(cs[0], i)
    } else {
        imin(subtree_cs_min_at(cs.drop_last(), i), subtree_min_at(cs.last(), i))
    }
}

/// Greatest upper corner over all leaves of a subtree in dimension `i`.
pub open spec fn subtree_max_at(node: OnlineIsolationNode, i: int) -> int
    decreases node, 0nat,
{
    if node.children is Some {
        subtree_cs_max_at((node.children->0)@, i)
    } else {
        node.max_values@[i] as int
    }
}

/// Greatest upper corner over all leaves below a non-empty set of nodes.
pub open spec fn subtree_cs_max_at(cs: Seq<OnlineIsolationNode>, i: int) -> int
    recommends
        cs.len() >= 1,
    decreases cs, 1nat,
{
    if cs.len() == 0 {
        arbitrary()
    } else if cs.len() == 1 {
        subtree_max_at(cs[0], i)
    } else {
        imax(subtree_cs_max_at(cs.drop_last(), i), subtree_max_at(cs.last(), i))
    }
}

/// The fold over children's lower corners lies at or below every one of
/// them and is attained by one of them.
pub proof fn lemma_children_min_at_props(cs: Seq<OnlineIsolationNode>, i: int)
    requires
        cs.len() >= 1,
    ensures
        forall|j: int| 0 <= j < cs.len() ==> children_min_at(cs, i) <= (#[trigger] cs[j]).min_values@[i],
        exists|j: int| 0 <= j < cs.len() && children_min_at(cs, i) == (#[trigger] cs[j]).min_values@[i],
        forall|j: int| 0 <= j < cs.len() ==> (#[trigger] cs[j]).max_values@[i] <= children_max_at(cs, i),
        exists|j: int| 0 <= j < cs.len() && children_max_at(cs, i) == (#[trigger] cs[j]).max_values@[i],
    decreases cs.len(),
{
    if cs.len() > 1 {
        let prev = cs.drop_last();
        assert(forall|j: int| 0 <= j < prev.len() ==> prev[j] == cs[j]);
        lemma_children_min_at_props(prev, i);
        if children_min_at(cs, i) == cs.last().min_values@[i] {
            assert(cs[cs.len() - 1].min_values@[i] == children_min_at(cs, i));
        } else {
            let w = choose|j: int|
                0 <= j < prev.len() && children_min_at(prev, i) == (#[trigger] prev[j]).min_values@[i];
            assert(cs[w].min_values@[i] == children_min_at(cs, i));
        }
        if children_max_at(cs, i) == cs.last().max_values@[i] {
            assert(cs[cs.len() - 1].max_values@[i] == children_max_at(cs, i));
        } else {
            let w = choose|j: int|
                0 <= j < prev.len() && children_max_at(prev, i) == (#[trigger] prev[j]).max_values@[i];
            assert(cs[w].max_values@[i] == children_max_at(cs, i));
        }
    } else {
        assert(cs[0].min_values@[i] == children_min_at(cs, i));
        assert(cs[0].max_values@[i] == children_max_at(cs, i));
    }
}

/// A value at or below every lower corner and attained by one of them is
/// the fold of the lower corners; dually for the upper corners.
pub proof fn lemma_union_is_fold(cs: Seq<OnlineIsolationNode>, i: int, lo: i64, hi: i64)
    requires
        cs.len() >= 1,
        lower_at(lo, cs, i),
        min_achieved_at(lo, cs, i),
        upper_at(hi, cs, i),
        max_achieved_at(hi, cs, i),
    ensures
        lo == children_min_at(cs, i),
        hi == children_max_at(cs, i),
{
    lemma_children_min_at_props(cs, i);
    let wl = choose|j: int| 0 <= j < cs.len() && lo == (#[trigger] cs[j]).min_values@[i];
    let wf1 = choose|j: int|
        0 <= j < cs.len() && children_min_at(cs, i) == (#[trigger] cs[j]).min_values@[i];
    assert(lo <= cs[wf1].min_values@[i]);
    assert(children_min_at(cs, i) <= cs[wl].min_values@[i]);
    let wh = choose|j: int| 0 <= j < cs.len() && hi == (#[trigger] cs[j]).max_values@[i];
    let wf2 = choose|j: int|
        0 <= j < cs.len() && children_max_at(cs, i) == (#[trigger] cs[j]).max_values@[i];
    assert(cs[wf2].max_values@[i] <= hi);
    assert(cs[wh].max_values@[i] <= children_max_at(cs, i));
}

/// Two node sets whose elements carry, pointwise, the subtree corners of a
/// third set fold to that set's subtree corners.
pub proof fn lemma_children_fold_congruent(
    out: Seq<OnlineIsolationNode>,
    cs: Seq<OnlineIsolationNode>,
    i: int,
)
    requires
        out.len() == cs.len(),
        out.len() >= 1,
        forall|j: int|
            0 <= j < out.len() ==> (#[trigger] out[j]).min_values@[i] == subtree_min_at(cs[j], i)
                && out[j].max_values@[i] == subtree_max_at(cs[j], i),
    ensures
        children_min_at(out, i) == subtree_cs_min_at(cs, i),
        children_max_at(out, i) == subtree_cs_max_at(cs, i),
    decreases out.len(),
{
    if out.len() > 1 {
        let po = out.drop_last();
        let pc = cs.drop_last();
        assert(forall|j: int| 0 <= j < po.len() ==> po[j] == out[j] && pc[j] == cs[j]);
        lemma_children_fold_congruent(po, pc, i);
        assert(out.last() == out[out.len() - 1]);
        assert(cs.last() == cs[cs.len() - 1]);
    } else {
        assert(out[0].min_values@[i] == subtree_min_at(cs[0], i));
    }
}

/// The union of the children's bounding boxes: per dimension, the least
/// lower corner and the greatest upper corner.
pub(crate) fn union_bounds(children: &Vec<OnlineIsolationNode>, dim: usize) -> (r: (Vec<i64>, Vec<i64>))
    requires
        children@.len() >= 1,
        forall|j: int|
            0 <= j < children@.len() ==> (#[trigger] children@[j]).min_values@.len() == dim
                && children@[j].max_values@.len() == dim,
    ensures
        r.0@.len() == dim,
        r.1@.len() == dim,
        forall|i: int|
            0 <= i < dim ==> lower_at(#[trigger] r.0@[i], children@, i) && min_achieved_at(
                r.0@[i],
                children@,
                i,
            ),
        forall|i: int|
            0 <= i < dim ==> upper_at(#[trigger] r.1@[i], children@, i) && max_achieved_at(
                r.1@[i],
                children@,
                i,
            ),
{
    let nc = children.len();
    let mut min_values: Vec<i64> = Vec::new();
    let mut max_values: Vec<i64> = Vec::new();
    let mut i: usize = 0;
    while i < dim
        invariant
            i <= dim,
            nc == children@.len(),
            nc >= 1,
            forall|j: int|
                0 <= j < nc ==> (#[trigger] children@[j]).min_values@.len() == dim
                    && children@[j].max_values@.len() == dim,
            min_values@.len() == i,
            max_values@.len() == i,
            forall|t: int|
                0 <= t < i ==> lower_at(#[trigger] min_values@[t], children@, t) && min_achieved_at(
                    min_values@[t],
                    children@,
                    t,
                ),
            forall|t: int|
                0 <= t < i ==> upper_at(#[trigger] max_values@[t], children@, t) && max_achieved_at(
                    max_values@[t],
                    children@,
                    t,
                ),
        decreases dim - i,
    {
        let first = &children[0];
        let mut lo = first.min_values[i];
        let mut hi = first.max_values[i];
        let mut j: usize = 1;
        while j < nc
            invariant
                1 <= j <= nc,
                nc == children@.len(),
                i < dim,
                forall|t: int|
                    0 <= t < nc ==> (#[trigger] children@[t]).min_values@.len() == dim
                        && children@[t].max_values@.len() == dim,
                forall|t: int| 0 <= t < j ==> lo <= (#[trigger] children@[t]).min_values@[i as int],
                forall|t: int|
                    0 <= t < j ==> (#[trigger] children@[t]).max_values@[i as int] <= hi,
                exists|t: int| 0 <= t < j && lo == (#[trigger] children@[t]).min_values@[i as int],
                exists|t: int| 0 <= t < j && hi == (#[trigger] children@[t]).max_values@[i as int],
            decreases nc - j,
        {
            let c = &children[j];
            let cl = c.min_values[i];
            let ch = c.max_values[i];
            if cl < lo {
                lo = cl;
            }
            if ch > hi {
                hi = ch;
            }
            j = j + 1;
        }
        min_values.push(lo);
        max_values.push(hi);
        i = i + 1;
    }
    (min_values, max_values)
}

/// The effect of absorbing a batch into a subtree, stated as a relation
/// between the node before and after. The count rises by the batch size.
/// A leaf that stays below its split threshold (or beyond the depth limit)
/// stays a leaf and takes exactly the union of its old box and the batch's
/// box. A leaf that converts becomes internal, its box inside that union
/// (synthetic resampling draws inside it). An internal node keeps its
/// split exactly, leaves children with an empty row partition untouched,
/// grows each non-empty partition into its child, and re-derives its own
/// box as the per-dimension union of its children's boxes; in particular
/// no internal node ever collapses during growth.
pub open spec fn grown_from(
    a: OnlineIsolationNode,
    b: OnlineIsolationNode,
    rows: Seq<Seq<i64>>,
    p: TreeParams,
    limit: int,
) -> bool
    decreases a,
{
    let new_size = sat_add(a.data_size as int, rows.len() as int);
    let dim = a.min_values@.len();
    &&& b.depth == a.depth
    &&& b.data_size == new_size
    &&& b.min_values@.len() == dim
    &&& b.max_values@.len() == a.max_values@.len()
    &&& if a.children is None {
        if reaches_threshold_spec(
            p.max_leaf_samples as int,
            p.growth_criterion,
            a.depth as nat,
            new_size,
        ) && (a.depth as int) * SCALE < limit {
            &&& b.children is Some
            &&& forall|i: int|
                0 <= i < dim ==> imin(a.min_values@[i] as int, rows_min_at(rows, i))
                    <= (#[trigger] b.min_values@[i])
            &&& forall|i: int|
                0 <= i < dim ==> (#[trigger] b.max_values@[i]) <= imax(
                    a.max_values@[i] as int,
                    rows_max_at(rows, i),
                )
        } else {
            &&& b.children is None
            &&& b.split is None
            &&& forall|i: int|
                0 <= i < dim ==> (#[trigger] b.min_values@[i]) == imin(
                    a.min_values@[i] as int,
                    rows_min_at(rows, i),
                )
            &&& forall|i: int|
                0 <= i < dim ==> (#[trigger] b.max_values@[i]) == imax(
                    a.max_values@[i] as int,
                    rows_max_at(rows, i),
                )
        }
    } else {
        let sp = a.split->0;
        let acs = (a.children->0)@;
        let bcs = (b.children->0)@;
        &&& b.split is Some
        &&& b.split->0.feature == sp.feature
        &&& b.split->0.thresholds@ == sp.thresholds@
        &&& b.children is Some
        &&& bcs.len() == acs.len()
        &&& forall|j: int|
            0 <= j < acs.len() ==> {
                let part = part_rows(rows, sp.feature as int, sp.thresholds@, j);
                if part.len() == 0 {
                    (#[trigger] bcs[j]) == acs[j]
                } else {
                    grown_from(acs[j], bcs[j], part, p, limit)
                }
            }
        &&& forall|i: int|
            0 <= i < dim ==> (#[trigger] b.min_values@[i]) == children_min_at(bcs, i)
        &&& forall|i: int|
            0 <= i < dim ==> (#[trigger] b.max_values@[i]) == children_max_at(bcs, i)
    }
}

/// Incorporate new rows into an existing subtree. The subtree's count rises
/// by the batch size. A leaf that reaches the split threshold while the
/// depth limit still allows growth is converted in place: synthetic points
/// drawn from its bounding box stand in for its unseen history and a fresh
/// subtree is built from them. An internal node routes the rows through its
/// split and re-derives its bounds as the union of its children's.
pub(crate) fn grow_node(
    node: OnlineIsolationNode,
    rows: &Vec<Vec<i64>>,
    p: TreeParams,
    limit_fp: u64,
    rng: &mut rand::rngs::StdRng,
    Ghost(dim): Ghost<nat>,
) -> (n: OnlineIsolationNode)
    requires
        params_wf(p),
        node.wf(dim, p.branching_factor as nat),
        rows@.len() >= 1,
        batch_wf(batch_view(rows@), dim),
        dim >= 1,
        limit_fp <= 83 * SCALE,
    ensures
        n.wf(dim, p.branching_factor as nat),
        n.depth == node.depth,
        n.data_size == sat_add(node.data_size as int, rows@.len() as int),
        forall|i: int|
            0 <= i < dim ==> imin(node.min_values@[i] as int, rows_min_at(batch_view(rows@), i))
                <= (#[trigger] n.min_values@[i]),
        forall|i: int|
            0 <= i < dim ==> (#[trigger] n.max_values@[i]) <= imax(
                node.max_values@[i] as int,
                rows_max_at(batch_view(rows@), i),
            ),
        n.children is Some <==> (node.children is Some || (reaches_threshold_spec(
            p.max_leaf_samples as int,
            p.growth_criterion,
            node.depth as nat,
            sat_add(node.data_size as int, rows@.len() as int),
        ) && (node.depth as int) * SCALE < limit_fp)),
        (node.children is None && n.children is None) ==> forall|i: int|
            0 <= i < dim ==> (#[trigger] n.min_values@[i]) == imin(
                node.min_values@[i] as int,
                rows_min_at(batch_view(rows@), i),
            ) && n.max_values@[i] == imax(
                node.max_values@[i] as int,
                rows_max_at(batch_view(rows@), i),
            ),
        grown_from(node, n, batch_view(rows@), p, limit_fp as int),
    decreases MAX_DEPTH - node.depth,
{
    let ghost bv = batch_view(rows@);
    let ghost node0 = node;
    let OnlineIsolationNode { data_size, depth, mut min_values, mut max_values, split, children } = node;
    let new_size = match data_size.checked_add(rows.len()) {
        Some(v) => v,
        None => usize::MAX,
    };
    match (split, children) {
        (None, None) => {
            expand_bounds(&mut min_values, &mut max_values, rows);
            let threshold_reached = reaches_split_threshold(
                p.max_leaf_samples as u64,
                p.growth_criterion,
                depth,
                new_size as u64,
            );
            let below_limit = ((depth as u64) * SCALE) < limit_fp;
            if threshold_reached && below_limit {
                proof {
                    assert((depth as int) * SCALE < 83 * SCALE);
                    assert(depth < 83);
                    assert forall|i: int| 0 <= i < dim implies #[trigger] min_values@[i]
                        <= max_values@[i] by {
                        lemma_rows_min_at_member(bv, i, 0);
                    }
                }
                let synthetic = sample_in_box(&min_values, &max_values, new_size, rng);
                let built = build_node(&synthetic, depth, p, limit_fp, rng, Ghost(dim));
                proof {
                    let sv = batch_view(synthetic@);
                    assert forall|i: int| 0 <= i < dim implies imin(
                        node0.min_values@[i] as int,
                        rows_min_at(bv, i),
                    ) <= (#[trigger] built.min_values@[i]) by {
                        lemma_rows_bounds_within(
                            sv,
                            i,
                            min_values@[i] as int,
                            max_values@[i] as int,
                        );
                    }
                    assert forall|i: int| 0 <= i < dim implies (#[trigger] built.max_values@[i])
                        <= imax(node0.max_values@[i] as int, rows_max_at(bv, i)) by {
                        lemma_rows_bounds_within(
                            sv,
                            i,
                            min_values@[i] as int,
                            max_values@[i] as int,
                        );
                    }
                }
                built
            } else {
                OnlineIsolationNode {
                    data_size: new_size,
                    depth,
                    min_values,
                    max_values,
                    split: None,
                    children: None,
                }
            }
        },
        (Some(sp), Some(mut cs)) => {
            let ghost cs0 = cs@;
            let Split { feature, thresholds } = sp;
            let bf = p.branching_factor;
            let parts = partition_rows(rows, feature, &thresholds, bf, Ghost(dim));
            let mut new_children: Vec<OnlineIsolationNode> = Vec::new();
            let mut j: usize = 0;
            while j < bf
                invariant
                    j <= bf,
                    params_wf(p),
                    bf == p.branching_factor,
                    dim >= 1,
                    limit_fp <= 83 * SCALE,
                    bv == batch_view(rows@),
                    rows@.len() >= 1,
                    batch_wf(bv, dim),
                    feature < dim,
                    thresholds@.len() == bf - 1,
                    parts@.len() == bf,
                    forall|t: int|
                        0 <= t < bf ==> batch_view((#[trigger] parts@[t])@) == part_rows(
                            bv,
                            feature as int,
                            thresholds@,
                            t,
                        ),
                    cs0.len() == bf,
                    cs@ =~= cs0.skip(j as int),
                    forall|t: int| 0 <= t < bf ==> (#[trigger] cs0[t]).wf(dim, bf as nat),
                    forall|t: int| 0 <= t < bf ==> (#[trigger] cs0[t]).depth == depth + 1,
                    depth < MAX_DEPTH,
                    node0.depth == depth,
                    node0.min_values@.len() == dim,
                    node0.max_values@.len() == dim,
                    forall|t: int|
                        0 <= t < bf ==> node_in_box(
                            #[trigger] cs0[t],
                            node0.min_values@,
                            node0.max_values@,
                            dim,
                        ),
                    node0 == node,
                    new_children@.len() == j,
                    forall|t: int|
                        0 <= t < j ==> (#[trigger] new_children@[t]).wf(dim, bf as nat),
                    forall|t: int|
                        0 <= t < j ==> (#[trigger] new_children@[t]).depth == depth + 1,
                    forall|t: int|
                        0 <= t < j ==> node_within_union(
                            #[trigger] new_children@[t],
                            node0.min_values@,
                            node0.max_values@,
                            bv,
                            dim,
                        ),
                    forall|t: int|
                        0 <= t < j ==> {
                            let part = part_rows(bv, feature as int, thresholds@, t);
                            if part.len() == 0 {
                                (#[trigger] new_children@[t]) == cs0[t]
                            } else {
                                grown_from(cs0[t], new_children@[t], part, p, limit_fp as int)
                            }
                        },
                decreases bf - j,
            {
                let child = cs.remove(0);
                proof {
                    assert(child == cs0[j as int]);
                    assert(cs@ =~= cs0.skip(j + 1));
                    lemma_part_rows_facts(bv, feature as int, thresholds@, j as int, dim);
                }
                let part = &parts[j];
                let new_child: OnlineIsolationNode = if part.len() == 0 {
                    child
                } else {
                    grow_node(child, part, p, limit_fp, rng, Ghost(dim))
                };
                proof {
                    let pr = part_rows(bv, feature as int, thresholds@, j as int);
                    assert(batch_view(part@) == pr);
                    assert forall|i: int| 0 <= i < dim implies imin(
                        node0.min_values@[i] as int,
                        rows_min_at(bv, i),
                    ) <= (#[trigger] new_child.min_values@[i]) by {
                        assert(node0.min_values@[i] <= cs0[j as int].min_values@[i]);
                        if part@.len() > 0 {
                            assert(imin(
                                cs0[j as int].min_values@[i] as int,
                                rows_min_at(pr, i),
                            ) <= new_child.min_values@[i]);
                            assert(rows_min_at(bv, i) <= rows_min_at(pr, i));
                        }
                    }
                    assert forall|i: int| 0 <= i < dim implies (#[trigger] new_child.max_values@[i])
                        <= imax(node0.max_values@[i] as int, rows_max_at(bv, i)) by {
                        assert(cs0[j as int].max_values@[i] <= node0.max_values@[i]);
                        if part@.len() > 0 {
                            assert(new_child.max_values@[i] <= imax(
                                cs0[j as int].max_values@[i] as int,
                                rows_max_at(pr, i),
                            ));
                            assert(rows_max_at(pr, i) <= rows_max_at(bv, i));
                        }
                    }
                    assert(node_within_union(
                        new_child,
                        node0.min_values@,
                        node0.max_values@,
                        bv,
                        dim,
                    ));
                    if part@.len() == 0 {
                        assert(new_child == cs0[j as int]);
                    } else {
                        assert(grown_from(cs0[j as int], new_child, pr, p, limit_fp as int));
                    }
                }
                let ghost nc0 = new_children@;
                new_children.push(new_child);
                proof {
                    assert forall|t: int| 0 <= t < new_children@.len() implies node_within_union(
                        #[trigger] new_children@[t],
                        node0.min_values@,
                        node0.max_values@,
                        bv,
                        dim,
                    ) by {
                        if t == j as int {
                            assert(new_children@[t] == new_child);
                        } else {
                            assert(new_children@[t] == nc0[t]);
                        }
                    }
                    assert forall|t: int| 0 <= t < new_children@.len() implies {
                        let part = part_rows(bv, feature as int, thresholds@, t);
                        if part.len() == 0 {
                            (#[trigger] new_children@[t]) == cs0[t]
                        } else {
                            grown_from(cs0[t], new_children@[t], part, p, limit_fp as int)
                        }
                    } by {
                        if t == j as int {
                            assert(new_children@[t] == new_child);
                        } else {
                            assert(new_children@[t] == nc0[t]);
                        }
                    }
                }
                j = j + 1;
            }
            let (u_min, u_max) = union_bounds(&new_children, min_values.len());
            proof {
                assert forall|i: int| 0 <= i < dim implies (#[trigger] u_min@[i]) <= u_max@[i] by {
                    assert(lower_at(u_min@[i], new_children@, i));
                    assert(upper_at(u_max@[i], new_children@, i));
                    let w = choose|t: int|
                        0 <= t < new_children@.len() && u_min@[i] == (#[trigger] new_children@[t]).min_values@[i];
                    assert(u_min@[i] <= new_children@[w].min_values@[i]);
                    assert(new_children@[w].min_values@[i] <= new_children@[w].max_values@[i]);
                    assert(new_children@[w].max_values@[i] <= u_max@[i]);
                }
                assert forall|i: int| 0 <= i < dim implies imin(
                    node0.min_values@[i] as int,
                    rows_min_at(bv, i),
                ) <= (#[trigger] u_min@[i]) by {
                    assert(min_achieved_at(u_min@[i], new_children@, i));
                    let w1 = choose|t: int|
                        0 <= t < new_children@.len() && u_min@[i] == (#[trigger] new_children@[t]).min_values@[i];
                    assert(node_within_union(
                        new_children@[w1],
                        node0.min_values@,
                        node0.max_values@,
                        bv,
                        dim,
                    ));
                    assert(imin(node0.min_values@[i] as int, rows_min_at(bv, i))
                        <= new_children@[w1].min_values@[i]);
                }
                assert forall|i: int| 0 <= i < dim implies (#[trigger] u_max@[i]) <= imax(
                    node0.max_values@[i] as int,
                    rows_max_at(bv, i),
                ) by {
                    assert(max_achieved_at(u_max@[i], new_children@, i));
                    let w2 = choose|t: int|
                        0 <= t < new_children@.len() && u_max@[i] == (#[trigger] new_children@[t]).max_values@[i];
                    assert(node_within_union(
                        new_children@[w2],
                        node0.min_values@,
                        node0.max_values@,
                        bv,
                        dim,
                    ));
                    assert(new_children@[w2].max_values@[i]
                        <= imax(node0.max_values@[i] as int, rows_max_at(bv, i)));
                }
                assert forall|i: int| 0 <= i < dim implies (#[trigger] u_min@[i])
                    == children_min_at(new_children@, i) by {
                    lemma_union_is_fold(new_children@, i, u_min@[i], u_max@[i]);
                }
                assert forall|i: int| 0 <= i < dim implies (#[trigger] u_max@[i])
                    == children_max_at(new_children@, i) by {
                    lemma_union_is_fold(new_children@, i, u_min@[i], u_max@[i]);
                }
            }
            let out = OnlineIsolationNode {
                data_size: new_size,
                depth,
                min_values: u_min,
                max_values: u_max,
                split: Some(Split { feature, thresholds }),
                children: Some(new_children),
            };
            proof {
                let acs = (node0.children->0)@;
                let bcs = (out.children->0)@;
                assert(acs == cs0);
                assert(bcs == new_children@);
                assert(out.split->0.feature == node0.split->0.feature);
                assert(out.split->0.thresholds@ == node0.split->0.thresholds@);
                assert forall|j2: int| 0 <= j2 < acs.len() implies {
                    let part = part_rows(
                        bv,
                        node0.split->0.feature as int,
                        node0.split->0.thresholds@,
                        j2,
                    );
                    if part.len() == 0 {
                        (#[trigger] bcs[j2]) == acs[j2]
                    } else {
                        grown_from(acs[j2], bcs[j2], part, p, limit_fp as int)
                    }
                } by {
                    let part = part_rows(bv, feature as int, thresholds@, j2);
                    if part.len() == 0 {
                        assert(new_children@[j2] == cs0[j2]);
                    } else {
                        assert(grown_from(cs0[j2], new_children@[j2], part, p, limit_fp as int));
                    }
                }
                assert forall|i: int| 0 <= i < node0.min_values@.len() implies (
                #[trigger] out.min_values@[i]) == children_min_at(bcs, i) by {
                    assert(u_min@[i] == children_min_at(new_children@, i));
                }
                assert forall|i: int| 0 <= i < node0.min_values@.len() implies (
                #[trigger] out.max_values@[i]) == children_max_at(bcs, i) by {
                    assert(u_max@[i] == children_max_at(new_children@, i));
                }
                assert(grown_from(node0, out, bv, p, limit_fp as int));
            }
            out
        },
        (None, Some(cs)) => unreached(),
        (Some(sp), None) => unreached(),
    }
}

/// A computed union corner over nodes that each carry a subtree box is
/// the corresponding subtree fold.
proof fn lemma_union_fold_subtree(
    out: Seq<OnlineIsolationNode>,
    cs: Seq<OnlineIsolationNode>,
    i: int,
    lo: i64,
    hi: i64,
    dim: nat,
)
    requires
        out.len() == cs.len(),
        out.len() >= 1,
        0 <= i < dim,
        lower_at(lo, out, i),
        min_achieved_at(lo, out, i),
        upper_at(hi, out, i),
        max_achieved_at(hi, out, i),
        forall|t: int| 0 <= t < out.len() ==> carries_subtree_box(#[trigger] out[t], cs[t], dim),
    ensures
        lo == subtree_cs_min_at(cs, i),
        hi == subtree_cs_max_at(cs, i),
{
    lemma_union_is_fold(out, i, lo, hi);
    assert forall|t: int|
        0 <= t < out.len() implies (#[trigger] out[t]).min_values@[i] == subtree_min_at(cs[t], i)
            && out[t].max_values@[i] == subtree_max_at(cs[t], i) by {
        assert(carries_subtree_box(out[t], cs[t], dim));
    }
    lemma_children_fold_congruent(out, cs, i);
}

/// Whether a node's box equals, per dimension, the union of the boxes of
/// all leaves below `orig`.
pub open spec fn carries_subtree_box(
    c: OnlineIsolationNode,
    orig: OnlineIsolationNode,
    dim: nat,
) -> bool {
    &&& forall|i: int| 0 <= i < dim ==> (#[trigger] c.min_values@[i]) == subtree_min_at(orig, i)
    &&& forall|i: int| 0 <= i < dim ==> (#[trigger] c.max_values@[i]) == subtree_max_at(orig, i)
}

/// Collapse a subtree into a single leaf: the split structure is discarded
/// and only the union of the descendant leaves' bounding boxes remains,
/// along with the running count.
pub(crate) fn unbuild_node(node: OnlineIsolationNode, p: TreeParams, Ghost(dim): Ghost<nat>) -> (n: OnlineIsolationNode)
    requires
        params_wf(p),
        node.wf(dim, p.branching_factor as nat),
        dim >= 1,
    ensures
        n.wf(dim, p.branching_factor as nat),
        n.children is None,
        n.depth == node.depth,
        n.data_size == node.data_size,
        carries_subtree_box(n, node, dim),
        forall|i: int| 0 <= i < dim ==> node.min_values@[i] <= (#[trigger] n.min_values@[i]),
        forall|i: int| 0 <= i < dim ==> (#[trigger] n.max_values@[i]) <= node.max_values@[i],
    decreases MAX_DEPTH - node.depth,
{
    let ghost node0 = node;
    if node.children.is_none() {
        return node;
    }
    let OnlineIsolationNode { data_size, depth, min_values, max_values, split, children } = node;
    let mut cs = match children {
        Some(cs) => cs,
        None => unreached(),
    };
    let ghost cs0 = cs@;
    let bf = p.branching_factor;
    let mut out: Vec<OnlineIsolationNode> = Vec::new();
    let mut j: usize = 0;
    while j < bf
        invariant
            j <= bf,
            params_wf(p),
            bf == p.branching_factor,
            dim >= 1,
            node0 == node,
            node0.depth == depth,
            depth < MAX_DEPTH,
            node0.min_values@.len() == dim,
            node0.max_values@.len() == dim,
            cs0.len() == bf,
            cs@ =~= cs0.skip(j as int),
            forall|t: int| 0 <= t < bf ==> (#[trigger] cs0[t]).wf(dim, bf as nat),
            forall|t: int| 0 <= t < bf ==> (#[trigger] cs0[t]).depth == depth + 1,
            forall|t: int|
                0 <= t < bf ==> node_in_box(
                    #[trigger] cs0[t],
                    node0.min_values@,
                    node0.max_values@,
                    dim,
                ),
            out@.len() == j,
            forall|t: int| 0 <= t < j ==> (#[trigger] out@[t]).wf(dim, bf as nat),
            forall|t: int| 0 <= t < j ==> (#[trigger] out@[t]).min_values@.len() == dim,
            forall|t: int| 0 <= t < j ==> (#[trigger] out@[t]).max_values@.len() == dim,
            forall|t: int| 0 <= t < j ==> carries_subtree_box(#[trigger] out@[t], cs0[t], dim),
            forall|t: int|
                0 <= t < j ==> node_in_box(
                    #[trigger] out@[t],
                    node0.min_values@,
                    node0.max_values@,
                    dim,
                ),
        decreases bf - j,
    {
        let child = cs.remove(0);
        proof {
            assert(child == cs0[j as int]);
            assert(cs@ =~= cs0.skip(j + 1));
        }
        let u = unbuild_node(child, p, Ghost(dim));
        proof {
            assert forall|i: int| 0 <= i < dim implies node0.min_values@[i]
                <= (#[trigger] u.min_values@[i]) by {
                assert(node0.min_values@[i] <= cs0[j as int].min_values@[i]);
            }
            assert forall|i: int| 0 <= i < dim implies (#[trigger] u.max_values@[i])
                <= node0.max_values@[i] by {
                assert(cs0[j as int].max_values@[i] <= node0.max_values@[i]);
            }
            assert(node_in_box(u, node0.min_values@, node0.max_values@, dim));
        }
        let ghost o0 = out@;
        out.push(u);
        proof {
            assert forall|t: int| 0 <= t < out@.len() implies node_in_box(
                #[trigger] out@[t],
                node0.min_values@,
                node0.max_values@,
                dim,
            ) by {
                if t == j as int {
                    assert(out@[t] == u);
                } else {
                    assert(out@[t] == o0[t]);
                }
            }
            assert forall|t: int| 0 <= t < out@.len() implies carries_subtree_box(
                #[trigger] out@[t],
                cs0[t],
                dim,
            ) by {
                if t == j as int {
                    assert(out@[t] == u);
                } else {
                    assert(out@[t] == o0[t]);
                }
            }
        }
        j = j + 1;
    }
    let (u_min, u_max) = union_bounds(&out, min_values.len());
    proof {
        assert forall|i: int| 0 <= i < dim implies (#[trigger] u_min@[i]) <= u_max@[i] by {
            assert(min_achieved_at(u_min@[i], out@, i));
            let w = choose|t: int|
                0 <= t < out@.len() && u_min@[i] == (#[trigger] out@[t]).min_values@[i];
            assert(u_min@[i] <= out@[w].min_values@[i]);
            assert(out@[w].min_values@[i] <= out@[w].max_values@[i]);
            assert(out@[w].max_values@[i] <= u_max@[i]);
        }
        assert forall|i: int| 0 <= i < dim implies node0.min_values@[i]
            <= (#[trigger] u_min@[i]) by {
            assert(min_achieved_at(u_min@[i], out@, i));
            let w = choose|t: int|
                0 <= t < out@.len() && u_min@[i] == (#[trigger] out@[t]).min_values@[i];
            assert(node_in_box(out@[w], node0.min_values@, node0.max_values@, dim));
        }
        assert forall|i: int| 0 <= i < dim implies (#[trigger] u_max@[i])
            <= node0.max_values@[i] by {
            assert(max_achieved_at(u_max@[i], out@, i));
            let w = choose|t: int|
                0 <= t < out@.len() && u_max@[i] == (#[trigger] out@[t]).max_values@[i];
            assert(node_in_box(out@[w], node0.min_values@, node0.max_values@, dim));
        }
        assert forall|i: int| 0 <= i < dim implies (#[trigger] u_min@[i]) == subtree_min_at(
            node0,
            i,
        ) by {
            lemma_union_fold_subtree(out@, cs0, i, u_min@[i], u_max@[i], dim);
            assert((node0.children->0)@ == cs0);
        }
        assert forall|i: int| 0 <= i < dim implies (#[trigger] u_max@[i]) == subtree_max_at(
            node0,
            i,
        ) by {
            lemma_union_fold_subtree(out@, cs0, i, u_min@[i], u_max@[i], dim);
            assert((node0.children->0)@ == cs0);
        }
    }
    OnlineIsolationNode {
        data_size,
        depth,
        min_values: u_min,
        max_values: u_max,
        split: None,
        children: None,
    }
}

/// The deterministic effect of removing a batch from a subtree, stated as
/// a relation between the node before and after. The count falls by the
/// batch size, floored at zero. A leaf changes nothing but its count. An
/// internal node left below its split threshold collapses into a leaf
/// whose box is, per dimension, the union of the boxes of all its
/// descendant leaves. An internal node that keeps its threshold keeps its
/// split exactly, leaves children with an empty row partition untouched,
/// removes each non-empty partition from its child, and re-derives its own
/// box as the per-dimension union of its children's boxes.
pub open spec fn unlearned_from(
    a: OnlineIsolationNode,
    b: OnlineIsolationNode,
    rows: Seq<Seq<i64>>,
    p: TreeParams,
) -> bool
    decreases a,
{
    let new_size = sat_sub(a.data_size as int, rows.len() as int);
    let dim = a.min_values@.len();
    &&& b.depth == a.depth
    &&& b.data_size == new_size
    &&& b.min_values@.len() == dim
    &&& b.max_values@.len() == a.max_values@.len()
    &&& if a.children is None {
        &&& b.children is None
        &&& b.split is None
        &&& b.min_values@ == a.min_values@
        &&& b.max_values@ == a.max_values@
    } else if !reaches_threshold_spec(
        p.max_leaf_samples as int,
        p.growth_criterion,
        a.depth as nat,
        new_size,
    ) {
        &&& b.children is None
        &&& b.split is None
        &&& carries_subtree_box(b, a, dim as nat)
    } else {
        let sp = a.split->0;
        let acs = (a.children->0)@;
        let bcs = (b.children->0)@;
        &&& b.split is Some
        &&& b.split->0.feature == sp.feature
        &&& b.split->0.thresholds@ == sp.thresholds@
        &&& b.children is Some
        &&& bcs.len() == acs.len()
        &&& forall|j: int|
            0 <= j < acs.len() ==> {
                let part = part_rows(rows, sp.feature as int, sp.thresholds@, j);
                if part.len() == 0 {
                    (#[trigger] bcs[j]) == acs[j]
                } else {
                    unlearned_from(acs[j], bcs[j], part, p)
                }
            }
        &&& forall|i: int|
            0 <= i < dim ==> (#[trigger] b.min_values@[i]) == children_min_at(bcs, i)
        &&& forall|i: int|
            0 <= i < dim ==> (#[trigger] b.max_values@[i]) == children_max_at(bcs, i)
    }
}

/// Remove rows from a subtree. The count falls by the batch size, floored
/// at zero. An internal node left below its split threshold collapses into
/// a leaf keeping only aggregate bounds; otherwise the rows are routed
/// through the split and the bounds re-derived from the children. A leaf
/// only updates its count.
pub(crate) fn unlearn_node(
    node: OnlineIsolationNode,
    rows: &Vec<Vec<i64>>,
    p: TreeParams,
    Ghost(dim): Ghost<nat>,
) -> (n: OnlineIsolationNode)
    requires
        params_wf(p),
        node.wf(dim, p.branching_factor as nat),
        rows@.len() >= 1,
        batch_wf(batch_view(rows@), dim),
        dim >= 1,
    ensures
        n.wf(dim, p.branching_factor as nat),
        n.depth == node.depth,
        n.data_size == sat_sub(node.data_size as int, rows@.len() as int),
        forall|i: int| 0 <= i < dim ==> node.min_values@[i] <= (#[trigger] n.min_values@[i]),
        forall|i: int| 0 <= i < dim ==> (#[trigger] n.max_values@[i]) <= node.max_values@[i],
        n.children is Some <==> (node.children is Some && reaches_threshold_spec(
            p.max_leaf_samples as int,
            p.growth_criterion,
            node.depth as nat,
            sat_sub(node.data_size as int, rows@.len() as int),
        )),
        unlearned_from(node, n, batch_view(rows@), p),
    decreases MAX_DEPTH - node.depth,
{
    let ghost bv = batch_view(rows@);
    let ghost node0 = node;
    let OnlineIsolationNode { data_size, depth, min_values, max_values, split, children } = node;
    let new_size = if data_size >= rows.len() {
        data_size - rows.len()
    } else {
        0
    };
    match (split, children) {
        (None, None) => OnlineIsolationNode {
            data_size: new_size,
            depth,
            min_values,
            max_values,
            split: None,
            children: None,
        },
        (Some(sp), Some(cs)) => {
            let threshold_reached = reaches_split_threshold(
                p.max_leaf_samples as u64,
                p.growth_criterion,
                depth,
                new_size as u64,
            );
            if !threshold_reached {
                let inner = OnlineIsolationNode {
                    data_size: new_size,
                    depth,
                    min_values,
                    max_values,
                    split: Some(sp),
                    children: Some(cs),
                };
                proof {
                    assert(inner.wf(dim, p.branching_factor as nat));
                }
                let collapsed = unbuild_node(inner, p, Ghost(dim));
                proof {
                    assert forall|i: int| 0 <= i < dim implies subtree_min_at(inner, i)
                        == subtree_min_at(node0, i) && subtree_max_at(inner, i) == subtree_max_at(
                        node0,
                        i,
                    ) by {
                        assert((inner.children->0)@ == (node0.children->0)@);
                    }
                    assert(carries_subtree_box(collapsed, node0, dim));
                }
                collapsed
            } else {
                let mut cs = cs;
                let ghost cs0 = cs@;
                let Split { feature, thresholds } = sp;
                let bf = p.branching_factor;
                let parts = partition_rows(rows, feature, &thresholds, bf, Ghost(dim));
                let mut new_children: Vec<OnlineIsolationNode> = Vec::new();
                let mut j: usize = 0;
                while j < bf
                    invariant
                        j <= bf,
                        params_wf(p),
                        bf == p.branching_factor,
                        dim >= 1,
                        bv == batch_view(rows@),
                        rows@.len() >= 1,
                        batch_wf(bv, dim),
                        feature < dim,
                        thresholds@.len() == bf - 1,
                        parts@.len() == bf,
                        forall|t: int|
                            0 <= t < bf ==> batch_view((#[trigger] parts@[t])@) == part_rows(
                                bv,
                                feature as int,
                                thresholds@,
                                t,
                            ),
                        cs0.len() == bf,
                        cs@ =~= cs0.skip(j as int),
                        forall|t: int| 0 <= t < bf ==> (#[trigger] cs0[t]).wf(dim, bf as nat),
                        forall|t: int| 0 <= t < bf ==> (#[trigger] cs0[t]).depth == depth + 1,
                        depth < MAX_DEPTH,
                        node0 == node,
                        node0.depth == depth,
                        node0.min_values@.len() == dim,
                        node0.max_values@.len() == dim,
                        forall|t: int|
                            0 <= t < bf ==> node_in_box(
                                #[trigger] cs0[t],
                                node0.min_values@,
                                node0.max_values@,
                                dim,
                            ),
                        new_children@.len() == j,
                        forall|t: int|
                            0 <= t < j ==> (#[trigger] new_children@[t]).wf(dim, bf as nat),
                        forall|t: int|
                            0 <= t < j ==> (#[trigger] new_children@[t]).depth == depth + 1,
                        forall|t: int|
                            0 <= t < j ==> node_in_box(
                                #[trigger] new_children@[t],
                                node0.min_values@,
                                node0.max_values@,
                                dim,
                            ),
                        forall|t: int|
                            0 <= t < j ==> {
                                let part = part_rows(bv, feature as int, thresholds@, t);
                                if part.len() == 0 {
                                    (#[trigger] new_children@[t]) == cs0[t]
                                } else {
                                    unlearned_from(cs0[t], new_children@[t], part, p)
                                }
                            },
                    decreases bf - j,
                {
                    let child = cs.remove(0);
                    proof {
                        assert(child == cs0[j as int]);
                        assert(cs@ =~= cs0.skip(j + 1));
                        lemma_part_rows_facts(bv, feature as int, thresholds@, j as int, dim);
                    }
                    let part = &parts[j];
                    let new_child: OnlineIsolationNode = if part.len() == 0 {
                        child
                    } else {
                        unlearn_node(child, part, p, Ghost(dim))
                    };
                    proof {
                        let pr = part_rows(bv, feature as int, thresholds@, j as int);
                        assert(batch_view(part@) == pr);
                        if part@.len() == 0 {
                            assert(new_child == cs0[j as int]);
                        } else {
                            assert(unlearned_from(cs0[j as int], new_child, pr, p));
                        }
                    }
                    proof {
                        assert forall|i: int| 0 <= i < dim implies node0.min_values@[i]
                            <= (#[trigger] new_child.min_values@[i]) by {
                            assert(node0.min_values@[i] <= cs0[j as int].min_values@[i]);
                        }
                        assert forall|i: int| 0 <= i < dim implies (#[trigger] new_child.max_values@[i])
                            <= node0.max_values@[i] by {
                            assert(cs0[j as int].max_values@[i] <= node0.max_values@[i]);
                        }
                        assert(node_in_box(new_child, node0.min_values@, node0.max_values@, dim));
                    }
                    let ghost nc0 = new_children@;
                    new_children.push(new_child);
                    proof {
                        assert forall|t: int| 0 <= t < new_children@.len() implies node_in_box(
                            #[trigger] new_children@[t],
                            node0.min_values@,
                            node0.max_values@,
                            dim,
                        ) by {
                            if t == j as int {
                                assert(new_children@[t] == new_child);
                            } else {
                                assert(new_children@[t] == nc0[t]);
                            }
                        }
                        assert forall|t: int| 0 <= t < new_children@.len() implies {
                            let part = part_rows(bv, feature as int, thresholds@, t);
                            if part.len() == 0 {
                                (#[trigger] new_children@[t]) == cs0[t]
                            } else {
                                unlearned_from(cs0[t], new_children@[t], part, p)
                            }
                        } by {
                            if t == j as int {
                                assert(new_children@[t] == new_child);
                            } else {
                                assert(new_children@[t] == nc0[t]);
                            }
                        }
                    }
                    j = j + 1;
                }
                let (u_min, u_max) = union_bounds(&new_children, min_values.len());
                proof {
                    assert forall|i: int| 0 <= i < dim implies (#[trigger] u_min@[i])
                        <= u_max@[i] by {
                        assert(min_achieved_at(u_min@[i], new_children@, i));
                        let w = choose|t: int|
                            0 <= t < new_children@.len() && u_min@[i] == (#[trigger] new_children@[t]).min_values@[i];
                        assert(u_min@[i] <= new_children@[w].min_values@[i]);
                        assert(new_children@[w].min_values@[i] <= new_children@[w].max_values@[i]);
                        assert(new_children@[w].max_values@[i] <= u_max@[i]);
                    }
                    assert forall|i: int| 0 <= i < dim implies node0.min_values@[i]
                        <= (#[trigger] u_min@[i]) by {
                        assert(min_achieved_at(u_min@[i], new_children@, i));
                        let w = choose|t: int|
                            0 <= t < new_children@.len() && u_min@[i] == (#[trigger] new_children@[t]).min_values@[i];
                        assert(node_in_box(
                            new_children@[w],
                            node0.min_values@,
                            node0.max_values@,
                            dim,
                        ));
                    }
                    assert forall|i: int| 0 <= i < dim implies (#[trigger] u_max@[i])
                        <= node0.max_values@[i] by {
                        assert(max_achieved_at(u_max@[i], new_children@, i));
                        let w = choose|t: int|
                            0 <= t < new_children@.len() && u_max@[i] == (#[trigger] new_children@[t]).max_values@[i];
                        assert(node_in_box(
                            new_children@[w],
                            node0.min_values@,
                            node0.max_values@,
                            dim,
                        ));
                    }
                }
                proof {
                    assert forall|i: int| 0 <= i < dim implies (#[trigger] u_min@[i])
                        == children_min_at(new_children@, i) by {
                        lemma_union_is_fold(new_children@, i, u_min@[i], u_max@[i]);
                    }
                    assert forall|i: int| 0 <= i < dim implies (#[trigger] u_max@[i])
                        == children_max_at(new_children@, i) by {
                        lemma_union_is_fold(new_children@, i, u_min@[i], u_max@[i]);
                    }
                }
                let out = OnlineIsolationNode {
                    data_size: new_size,
                    depth,
                    min_values: u_min,
                    max_values: u_max,
                    split: Some(Split { feature, thresholds }),
                    children: Some(new_children),
                };
                proof {
                    let acs = (node0.children->0)@;
                    let bcs = (out.children->0)@;
                    assert(acs == cs0);
                    assert(bcs == new_children@);
                    assert(out.split->0.feature == node0.split->0.feature);
                    assert(out.split->0.thresholds@ == node0.split->0.thresholds@);
                    assert(reaches_threshold_spec(
                        p.max_leaf_samples as int,
                        p.growth_criterion,
                        node0.depth as nat,
                        sat_sub(node0.data_size as int, bv.len() as int),
                    ));
                    assert forall|j2: int| 0 <= j2 < acs.len() implies {
                        let part = part_rows(bv, node0.split->0.feature as int, node0.split->0.thresholds@, j2);
                        if part.len() == 0 {
                            (#[trigger] bcs[j2]) == acs[j2]
                        } else {
                            unlearned_from(acs[j2], bcs[j2], part, p)
                        }
                    } by {
                        let part = part_rows(bv, feature as int, thresholds@, j2);
                        if part.len() == 0 {
                            assert(new_children@[j2] == cs0[j2]);
                        } else {
                            assert(unlearned_from(cs0[j2], new_children@[j2], part, p));
                        }
                    }
                    assert forall|i: int| 0 <= i < node0.min_values@.len() implies (
                    #[trigger] out.min_values@[i]) == children_min_at(bcs, i) by {
                        assert(u_min@[i] == children_min_at(new_children@, i));
                    }
                    assert forall|i: int| 0 <= i < node0.min_values@.len() implies (
                    #[trigger] out.max_values@[i]) == children_max_at(bcs, i) by {
                        assert(u_max@[i] == children_max_at(new_children@, i));
                    }
                    assert(unlearned_from(node0, out, bv, p));
                }
                out
            }
        },
        (None, Some(cs)) => unreached(),
        (Some(sp), None) => unreached(),
    }
}

/// Descend from a node to the leaf a row projects into and return the
/// fixed-point depth value: the leaf's depth plus the expected remaining
/// isolation depth among the points the leaf holds.
pub(crate) fn depth_search(
    node: &OnlineIsolationNode,
    row: &Vec<i64>,
    p: TreeParams,
    Ghost(dim): Ghost<nat>,
) -> (r: u64)
    requires
        params_wf(p),
        node.wf(dim, p.branching_factor as nat),
        row@.len() == dim,
    ensures
        r == depth_value(*node, row@, p.branching_factor as int, p.max_leaf_samples as int),
        r <= 200 * SCALE,
    decreases MAX_DEPTH - node.depth,
{
    match (&node.split, &node.children) {
        (None, None) => {
            let rpl = random_path_length_fp(
                p.branching_factor as u64,
                p.max_leaf_samples as u64,
                node.data_size as u128,
                1,
            );
            (node.depth as u64) * SCALE + rpl
        },
        (Some(sp), Some(cs)) => {
            let b = branch_of(&sp.thresholds, row[sp.feature]);
            depth_search(&cs[b], row, p, Ghost(dim))
        },
        _ => unreached(),
    }
}

/// Round trip of batch and incremental growth: the bounding box of a
/// concatenation of row sets is the union of their bounding boxes. A tree
/// built from a full row set and a tree grown from the same rows in pieces
/// therefore agree on the root bounding box (and, counts being additive,
/// on the root count) as long as no leaf conversion resampled the history;
/// split structure may legitimately differ, an accepted approximation of
/// the online design.
pub proof fn lemma_bounds_concat(a: Seq<Seq<i64>>, b: Seq<Seq<i64>>, i: int)
    requires
        a.len() >= 1,
        b.len() >= 1,
    ensures
        rows_min_at(a + b, i) == imin(rows_min_at(a, i), rows_min_at(b, i)),
        rows_max_at(a + b, i) == imax(rows_max_at(a, i), rows_max_at(b, i)),
    decreases b.len(),
{
    if b.len() == 1 {
        assert((a + b).drop_last() =~= a);
        assert((a + b).last() == b[0]);
        assert(rows_min_at(b, i) == b[0][i] as int);
        assert(rows_max_at(b, i) == b[0][i] as int);
    } else {
        assert((a + b).drop_last() =~= a + b.drop_last());
        lemma_bounds_concat(a, b.drop_last(), i);
        assert((a + b).last() == b.last());
        assert(rows_min_at(a + b, i) == imin(
            rows_min_at(a + b.drop_last(), i),
            b.last()[i] as int,
        ));
        assert(rows_max_at(a + b, i) == imax(
            rows_max_at(a + b.drop_last(), i),
            b.last()[i] as int,
        ));
    }
}

} // verus!
