//! The column invariant of the L1-TV dynamic program, for either metric.
//!
//! Column `c` holds, for every candidate `v[i]`, the smallest objective of
//! the first `c + 1` samples among candidate sequences ending in `v[i]`,
//! together with back-pointers from which such a sequence is traced.

use vstd::prelude::*;
use crate::dp::{is_first_min, lemma_trace_push, lemma_trace_shape, pointers_ok, trace};
use crate::objective::{
    is_value_of,
    lemma_prefix_push,
    metric_dist,
    prefix_cost,
    step_cost,
    takes_values_of,
    weight_at,
    Metric,
};

verus! {

/// The candidate values along the path traced back from state `i` of column `col`.
pub open spec fn path_values(cols: Seq<Vec<u32>>, v: Seq<i64>, col: int, i: int) -> Seq<int> {
    let t = trace(cols, col, i);
    Seq::new(t.len(), |c: int| v[t[c]] as int)
}

/// Column `col` of the dynamic program is solved: `b[i]` is the objective
/// of the first `col + 1` samples along the traced path that ends in
/// candidate `v[i]`, and no sequence of candidates ending in `v[i]` does
/// better.
pub open spec fn column_solved(
    b: Seq<i64>,
    cols: Seq<Vec<u32>>,
    v: Seq<i64>,
    y: Seq<i64>,
    weights: Option<Seq<i64>>,
    alpha: int,
    metric: Metric,
    col: int,
) -> bool {
    &&& b.len() == v.len()
    &&& forall|i: int|
        0 <= i < v.len() ==> #[trigger] b[i] == prefix_cost(
            path_values(cols, v, col, i),
            y,
            weights,
            alpha,
            metric,
            col + 1,
        )
    &&& forall|i: int, z: Seq<int>|
        #![trigger b[i], prefix_cost(z, y, weights, alpha, metric, col + 1)]
        0 <= i < v.len() && z.len() == col + 1 && takes_values_of(z, v) && z[col] == v[i] ==> b[i]
            <= prefix_cost(z, y, weights, alpha, metric, col + 1)
}

/// `mid[i]` is the cheapest way to reach candidate `v[i]` from a candidate
/// of the previous column (costs `b_prev`), and `am[i]` attains it.
pub open spec fn is_relaxation(
    mid: Seq<i64>,
    am: Seq<u32>,
    b_prev: Seq<i64>,
    v: Seq<i64>,
    alpha: int,
    metric: Metric,
) -> bool {
    &&& mid.len() == v.len()
    &&& am.len() == v.len()
    &&& forall|i: int|
        0 <= i < v.len() ==> {
            &&& (#[trigger] am[i]) < v.len()
            &&& mid[i] == b_prev[am[i] as int] + alpha * metric_dist(metric, v[i] as int, v[am[i] as int] as int)
        }
    &&& forall|i: int, j: int|
        0 <= i < v.len() && 0 <= j < v.len() ==> #[trigger] mid[i] <= b_prev[j] + alpha * metric_dist(
            metric,
            v[i] as int,
            #[trigger] v[j] as int,
        )
}

/// The first column: the data term of the first sample.
pub proof fn lemma_first_column(
    b: Seq<i64>,
    v: Seq<i64>,
    y: Seq<i64>,
    weights: Option<Seq<i64>>,
    alpha: int,
    metric: Metric,
)
    requires
        y.len() >= 1,
        b.len() == v.len(),
        forall|i: int|
            0 <= i < v.len() ==> #[trigger] b[i] == weight_at(weights, 0) * metric_dist(
                metric,
                v[i] as int,
                y[0] as int,
            ),
    ensures
        column_solved(b, Seq::empty(), v, y, weights, alpha, metric, 0),
{
    let cols = Seq::<Vec<u32>>::empty();
    assert forall|q: int| 0 <= q < v.len() implies #[trigger] b[q] == prefix_cost(
        path_values(cols, v, 0, q),
        y,
        weights,
        alpha,
        metric,
        1,
    ) by {
        let p = path_values(cols, v, 0, q);
        assert(trace(cols, 0, q) == seq![q]);
        assert(p =~= seq![v[q] as int]);
        assert(prefix_cost(p, y, weights, alpha, metric, 0) == 0);
        assert(prefix_cost(p, y, weights, alpha, metric, 1) == step_cost(p, y, weights, alpha, metric, 0));
    }
    assert forall|q: int, z: Seq<int>|
        #![trigger b[q], prefix_cost(z, y, weights, alpha, metric, 1)]
        0 <= q < v.len() && z.len() == 1 && takes_values_of(z, v) && z[0] == v[q] implies b[q] <= prefix_cost(
        z,
        y,
        weights,
        alpha,
        metric,
        1,
    ) by {
        assert(prefix_cost(z, y, weights, alpha, metric, 0) == 0);
        assert(prefix_cost(z, y, weights, alpha, metric, 1) == step_cost(z, y, weights, alpha, metric, 0));
    }
}

/// One column step of the dynamic program: if `mid` relaxes the previous
/// column (with back-pointers `am`) and `b` adds the data term of the next
/// sample, the next column is solved.
pub proof fn lemma_column_step(
    b_prev: Seq<i64>,
    mid: Seq<i64>,
    b: Seq<i64>,
    am: Vec<u32>,
    cols: Seq<Vec<u32>>,
    v: Seq<i64>,
    y: Seq<i64>,
    weights: Option<Seq<i64>>,
    alpha: int,
    metric: Metric,
    col: int,
)
    requires
        v.len() >= 1,
        0 <= col,
        col + 1 < y.len(),
        cols.len() == col,
        pointers_ok(cols, v.len() as int),
        column_solved(b_prev, cols, v, y, weights, alpha, metric, col),
        is_relaxation(mid, am@, b_prev, v, alpha, metric),
        b.len() == v.len(),
        forall|i: int|
            0 <= i < v.len() ==> #[trigger] b[i] == mid[i] + weight_at(weights, col + 1) * metric_dist(
                metric,
                v[i] as int,
                y[col + 1] as int,
            ),
    ensures
        pointers_ok(cols.push(am), v.len() as int),
        column_solved(b, cols.push(am), v, y, weights, alpha, metric, col + 1),
{
    let k = v.len() as int;
    let cols2 = cols.push(am);
    assert(pointers_ok(cols2, k)) by {
        assert forall|c: int| 0 <= c < cols2.len() implies (#[trigger] cols2[c])@.len() == k && forall|i: int|
            0 <= i < k ==> (#[trigger] cols2[c]@[i]) < k by {
            if c < col {
                assert(cols2[c] == cols[c]);
            }
        }
    }
    assert forall|i: int| 0 <= i < k implies #[trigger] b[i] == prefix_cost(
        path_values(cols2, v, col + 1, i),
        y,
        weights,
        alpha,
        metric,
        col + 2,
    ) by {
        let p = am@[i] as int;
        assert(am@[i] < k);
        lemma_trace_push(cols, am, col, p);
        lemma_trace_shape(cols, k, col, p);
        let pv = path_values(cols, v, col, p);
        assert(cols2[col]@[i] == am@[i]);
        assert(trace(cols2, col + 1, i) == trace(cols, col, p).push(i));
        assert(path_values(cols2, v, col + 1, i) =~= pv.push(v[i] as int));
        lemma_prefix_push(pv, v[i] as int, y, weights, alpha, metric);
        assert(pv[col] == v[p] as int);
        assert(b_prev[p] == prefix_cost(pv, y, weights, alpha, metric, col + 1));
    }
    assert forall|i: int, z: Seq<int>|
        #![trigger b[i], prefix_cost(z, y, weights, alpha, metric, col + 2)]
        0 <= i < k && z.len() == col + 2 && takes_values_of(z, v) && z[col + 1] == v[i] implies b[i]
        <= prefix_cost(z, y, weights, alpha, metric, col + 2) by {
        assert(is_value_of(z[col], v));
        let j = choose|j: int| 0 <= j < v.len() && z[col] == v[j] as int;
        let zt = z.take(col + 1);
        assert(takes_values_of(zt, v)) by {
            assert forall|c: int| 0 <= c < zt.len() implies is_value_of(#[trigger] zt[c], v) by {
                assert(zt[c] == z[c]);
            }
        }
        assert(zt[col] == v[j]);
        assert(b_prev[j] <= prefix_cost(zt, y, weights, alpha, metric, col + 1));
        assert(z =~= zt.push(z[col + 1]));
        lemma_prefix_push(zt, z[col + 1], y, weights, alpha, metric);
        assert(mid[i] <= b_prev[j] + alpha * metric_dist(metric, v[i] as int, v[j] as int));
    }
}

/// The last column: the traced path of its cheapest state is no worse than
/// any sequence of candidates.
pub proof fn lemma_last_column(
    b: Seq<i64>,
    cols: Seq<Vec<u32>>,
    v: Seq<i64>,
    y: Seq<i64>,
    weights: Option<Seq<i64>>,
    alpha: int,
    metric: Metric,
    l: int,
)
    requires
        y.len() >= 1,
        column_solved(b, cols, v, y, weights, alpha, metric, y.len() - 1),
        is_first_min(b, l),
    ensures
        forall|z: Seq<int>|
            z.len() == y.len() && takes_values_of(z, v) ==> prefix_cost(
                path_values(cols, v, y.len() - 1, l),
                y,
                weights,
                alpha,
                metric,
                y.len() as int,
            ) <= #[trigger] prefix_cost(z, y, weights, alpha, metric, y.len() as int),
{
    let n = y.len() as int;
    assert forall|z: Seq<int>| z.len() == y.len() && takes_values_of(z, v) implies prefix_cost(
        path_values(cols, v, n - 1, l),
        y,
        weights,
        alpha,
        metric,
        n,
    ) <= #[trigger] prefix_cost(z, y, weights, alpha, metric, n) by {
        assert(is_value_of(z[n - 1], v));
        let j = choose|j: int| 0 <= j < v.len() && z[n - 1] == v[j] as int;
        assert(b[j] <= prefix_cost(z, y, weights, alpha, metric, n));
        assert(b[l] <= b[j]);
        assert(b[l] == prefix_cost(path_values(cols, v, n - 1, l), y, weights, alpha, metric, n));
    }
}

} // verus!
