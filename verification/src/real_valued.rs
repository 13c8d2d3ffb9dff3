//! Exact L1-TV solver for integer-valued signals on the real line.
//!
//! Minimises `alpha * sum_i |x[i] - x[i-1]| + sum_i w[i] * |x[i] - y[i]|` by
//! dynamic programming over the candidate set of the distinct values of
//! `y`: column `c` holds, for every candidate, the cheapest objective of the
//! first `c + 1` samples among paths that end in that candidate.

use vstd::prelude::*;
use crate::arith::{abs, abs_diff, lemma_mul_mono, lemma_mul_nonneg};
use crate::dist_transform::{
    attained_by_a_source,
    below_all_sources,
    is_sorted,
    l1_dt_with_argmin,
    reach_cost,
    transform_fits,
};
use crate::candidates::lemma_candidate_no_worse;
use crate::columns::{column_solved, is_relaxation, lemma_column_step, lemma_first_column, lemma_last_column, path_values};
use crate::dp::{argmin, backtrack, lemma_trace_shape, pointers_ok, trace};
use crate::objective::{
    cost_ceiling,
    cost_fits,
    ints,
    is_l1_tv_minimiser,
    is_value_minimiser,
    is_value_of,
    l1_tv_cost,
    lemma_ceiling_mono,
    lemma_ceiling_step,
    lemma_column_bounds,
    lemma_masked_samples,
    lemma_max_min_bounds,
    lemma_first_jump,
    lemma_prefix_covers_steps,
    lemma_prefix_nonneg,
    lemma_prefix_zero,
    lemma_same_values,
    lemma_slope_exchange,
    lemma_value_distance,
    lemma_weighted_distance,
    lemma_dist_nonneg,
    metric_dist,
    metric_ok,
    prefix_cost,
    spread,
    step_cost,
    takes_values_of,
    total_variation,
    data_cost,
    lemma_no_weights_are_unit_weights,
    effective_weights,
    lemma_objective_explicit,
    objective_with,
    weight,
    weight_at,
    weights_match,
    weights_ok,
    weights_positive,
    weights_view,
    Metric,
};
use crate::sorting::{is_strictly_sorted, sorted_unique};
use crate::real_path::{
    is_first_line_column,
    is_line_output,
    is_line_run,
    is_value_list,
    line_column_step,
    line_pointers_follow,
};

verus! {

/// The real-line transition from one column to the next: `mid[i]` is the
/// cheapest way to reach candidate `v[i]` from any candidate of the
/// previous column, `am[i]` a candidate that attains it. With
/// `use_dist_transform` the linear-time distance transform computes it,
/// otherwise a quadratic scan over all pairs.
fn relax_column(b_prev: &Vec<i64>, v: &Vec<i64>, alpha: i64, use_dist_transform: bool) -> (res: (
    Vec<i64>,
    Vec<u32>,
))
    requires
        b_prev@.len() == v@.len(),
        v@.len() >= 1,
        v@.len() <= u32::MAX + 1,
        alpha >= 0,
        is_sorted(v@),
        transform_fits(b_prev@, v@, alpha as int),
    ensures
        is_relaxation(res.0@, res.1@, b_prev@, v@, alpha as int, Metric::Line),
        line_pointers_follow(res.0@, res.1@, b_prev@, v@, alpha as int, use_dist_transform),
{
    let k = v.len();
    let ghost a = alpha as int;
    let mut mid: Vec<i64> = Vec::new();
    let mut am: Vec<u32> = Vec::new();
    if use_dist_transform {
        let mut i: usize = 0;
        while i < k
            invariant
                k == v@.len(),
                k == b_prev@.len(),
                mid@.len() == i,
                am@.len() == i,
                i <= k,
                forall|j: int| 0 <= j < i ==> mid@[j] == b_prev@[j],
            decreases k - i,
        {
            mid.push(b_prev[i]);
            am.push(0);
            i += 1;
        }
        assert(mid@ =~= b_prev@);
        l1_dt_with_argmin(mid.as_mut_slice(), v.as_slice(), alpha, am.as_mut_slice());
    } else {
        let mut i: usize = 0;
        while i < k
            invariant
                k == v@.len(),
                k == b_prev@.len(),
                1 <= k <= u32::MAX + 1,
                a == alpha,
                alpha >= 0,
                is_sorted(v@),
                transform_fits(b_prev@, v@, a),
                mid@.len() == i,
                am@.len() == i,
                i <= k,
                forall|p: int|
                    0 <= p < i ==> {
                        &&& (#[trigger] am@[p]) < k
                        &&& mid@[p] == reach_cost(b_prev@, v@, a, p, am@[p] as int)
                        &&& below_all_sources(mid@[p] as int, b_prev@, v@, a, p)
                    },
                forall|p: int, j: int|
                    0 <= p < i && 0 <= j < am@[p] ==> mid@[p] < #[trigger] reach_cost(b_prev@, v@, a, p, j),
            decreases k - i,
        {
            proof {
                lemma_sorted_reach_fits(b_prev@, v@, a, i as int, 0);
            }
            let mut best = b_prev[0] + alpha * abs_diff(v[i], v[0]);
            let mut best_j: usize = 0;
            let mut j: usize = 1;
            while j < k
                invariant
                    k == v@.len(),
                    k == b_prev@.len(),
                    1 <= j <= k,
                    i < k,
                    a == alpha,
                    alpha >= 0,
                    is_sorted(v@),
                    transform_fits(b_prev@, v@, a),
                    best_j < j,
                    best == reach_cost(b_prev@, v@, a, i as int, best_j as int),
                    forall|q: int| 0 <= q < j ==> best <= #[trigger] reach_cost(b_prev@, v@, a, i as int, q),
                    forall|q: int| 0 <= q < best_j ==> best < #[trigger] reach_cost(b_prev@, v@, a, i as int, q),
                decreases k - j,
            {
                proof {
                    lemma_sorted_reach_fits(b_prev@, v@, a, i as int, j as int);
                }
                let cand = b_prev[j] + alpha * abs_diff(v[i], v[j]);
                if cand < best {
                    best = cand;
                    best_j = j;
                }
                j += 1;
            }
            mid.push(best);
            am.push(best_j as u32);
            i += 1;
        }
        proof {
            assert forall|p: int, j: int| 0 <= p < k && 0 <= j < am@[p] implies #[trigger] mid@[p] < b_prev@[j] + a
                * abs(v@[p] - #[trigger] v@[j]) by {
                assert(mid@[p] < reach_cost(b_prev@, v@, a, p, j));
            }
        }
    }
    proof {
        assert forall|i: int, j: int|
            0 <= i < v@.len() && 0 <= j < v@.len() implies #[trigger] mid@[i] <= b_prev@[j] + a * metric_dist(
            Metric::Line,
            v@[i] as int,
            #[trigger] v@[j] as int,
        ) by {
            assert(am@[i] < v@.len());
            assert(below_all_sources(mid@[i] as int, b_prev@, v@, a, i));
            assert(mid@[i] <= reach_cost(b_prev@, v@, a, i, j));
        }
        assert forall|i: int| 0 <= i < v@.len() implies (#[trigger] am@[i]) < v@.len() && mid@[i] == b_prev@[am@[i] as int]
            + a * metric_dist(Metric::Line, v@[i] as int, v@[am@[i] as int] as int) by {}
    }
    (mid, am)
}

/// On a sorted grid whose transform fits, every reach cost fits in `i64`.
proof fn lemma_sorted_reach_fits(b: Seq<i64>, r: Seq<i64>, alpha: int, k: int, j: int)
    requires
        alpha >= 0,
        is_sorted(r),
        transform_fits(b, r, alpha),
        b.len() == r.len(),
        0 <= k < r.len(),
        0 <= j < r.len(),
    ensures
        abs(r[k] - r[j]) <= r[r.len() - 1] - r[0] <= i64::MAX,
        0 <= alpha * abs(r[k] - r[j]) <= i64::MAX,
        reach_cost(b, r, alpha, k, j) <= i64::MAX,
        reach_cost(b, r, alpha, k, j) >= b[j],
{
    lemma_mul_mono(alpha, abs(r[k] - r[j]), r[r.len() - 1] - r[0]);
    lemma_mul_nonneg(alpha, abs(r[k] - r[j]));
}


/// A sequence that is no worse than any sequence of values of `y` is no
/// worse than any integer sequence at all.
proof fn lemma_global_optimum(x: Seq<int>, y: Seq<i64>, weights: Option<Seq<i64>>, alpha: int)
    requires
        x.len() == y.len(),
        alpha >= 0,
        weights_ok(weights, y.len() as int),
        forall|z: Seq<int>|
            z.len() == y.len() && takes_values_of(z, y) ==> l1_tv_cost(x, y, weights, alpha) <= #[trigger] l1_tv_cost(
                z,
                y,
                weights,
                alpha,
            ),
    ensures
        forall|z: Seq<int>|
            z.len() == y.len() ==> l1_tv_cost(x, y, weights, alpha) <= #[trigger] l1_tv_cost(z, y, weights, alpha),
{
    assert forall|z: Seq<int>| z.len() == y.len() implies l1_tv_cost(x, y, weights, alpha) <= #[trigger] l1_tv_cost(
        z,
        y,
        weights,
        alpha,
    ) by {
        let zc = lemma_candidate_no_worse(z, y, weights, alpha);
        assert(l1_tv_cost(x, y, weights, alpha) <= l1_tv_cost(zc, y, weights, alpha));
    }
}

/// Exact L1-TV regularisation of an integer-valued signal.
///
/// Returns a sequence `x` of the same length as `y`, every entry one of the
/// values of `y`, that minimises
/// `alpha * sum_i |x[i] - x[i-1]| + sum_i w[i] * |x[i] - y[i]|` among all
/// such sequences, where `w` are the given per-sample weights (all 1 when
/// `None`); with non-negative weights it minimises over all integer
/// sequences. The weights, when given, have one entry per sample. The
/// output is the exact run of the dynamic program (`is_line_output`), so
/// ties between minimisers are always broken the same way. With
/// `use_dist_transform` each column of the dynamic program is computed in
/// linear time by the L1 distance transform, otherwise by the quadratic scan
/// over all candidate pairs.
pub fn solve_l1_tv_real(y: &[i64], alpha: i64, weights: Option<&[i64]>, use_dist_transform: bool) -> (x: Vec<
    i64,
>)
    requires
        alpha >= 0,
        y@.len() <= u32::MAX + 1,
        weights_match(weights_view(weights), y@.len() as int),
        y@.len() >= 2 ==> cost_fits(y@, weights_view(weights), alpha as int),
    ensures
        x@.len() == y@.len(),
        takes_values_of(ints(x@), y@),
        is_value_minimiser(ints(x@), y@, weights_view(weights), alpha as int),
        weights_ok(weights_view(weights), y@.len() as int) ==> is_l1_tv_minimiser(
            ints(x@),
            y@,
            weights_view(weights),
            alpha as int,
        ),
        is_line_output(ints(x@), y@, weights_view(weights), alpha as int, use_dist_transform),
        minimises_written_out(ints(x@), y@, weights_view(weights), alpha as int),
{
    let x = solve_by_columns(y, alpha, weights, use_dist_transform);
    proof {
        lemma_line_explicit(ints(x@), y@, weights_view(weights), alpha as int);
    }
    x
}

/// The dynamic program behind `solve_l1_tv_real`, with its contract stated
/// over the spec objective.
fn solve_by_columns(y: &[i64], alpha: i64, weights: Option<&[i64]>, use_dist_transform: bool) -> (x: Vec<
    i64,
>)
    requires
        alpha >= 0,
        y@.len() <= u32::MAX + 1,
        weights_match(weights_view(weights), y@.len() as int),
        y@.len() >= 2 ==> cost_fits(y@, weights_view(weights), alpha as int),
    ensures
        x@.len() == y@.len(),
        takes_values_of(ints(x@), y@),
        is_value_minimiser(ints(x@), y@, weights_view(weights), alpha as int),
        weights_ok(weights_view(weights), y@.len() as int) ==> is_l1_tv_minimiser(
            ints(x@),
            y@,
            weights_view(weights),
            alpha as int,
        ),
        is_line_output(ints(x@), y@, weights_view(weights), alpha as int, use_dist_transform),
{
    let n = y.len();
    let ghost a = alpha as int;
    let ghost wv = weights_view(weights);
    if n == 0 {
        let x: Vec<i64> = Vec::new();
        proof {
            assert(ints(x@) =~= Seq::<int>::empty());
        }
        return x;
    }
    if n == 1 {
        let mut x: Vec<i64> = Vec::new();
        x.push(y[0]);
        proof {
            let xs = ints(x@);
            assert(xs =~= seq![y@[0] as int]);
            assert(is_value_of(y@[0] as int, y@));
            assert forall|z: Seq<int>| z.len() == 1 && takes_values_of(z, y@) implies l1_tv_cost(xs, y@, wv, a)
                <= #[trigger] l1_tv_cost(z, y@, wv, a) by {
                assert(is_value_of(z[0], y@));
                assert(z =~= xs);
            }
            if weights_ok(wv, 1) {
                assert(abs(xs[0] - y@[0]) == 0);
                assert(weight_at(wv, 0) * 0 == 0);
                assert(step_cost(xs, y@, wv, a, Metric::Line, 0) == 0);
                assert(prefix_cost(xs, y@, wv, a, Metric::Line, 0) == 0);
                assert(prefix_cost(xs, y@, wv, a, Metric::Line, 1) == 0);
                assert forall|z: Seq<int>| z.len() == 1 implies l1_tv_cost(xs, y@, wv, a) <= #[trigger] l1_tv_cost(
                    z,
                    y@,
                    wv,
                    a,
                ) by {
                    lemma_prefix_nonneg(z, y@, wv, a, Metric::Line, 1);
                }
            }
        }
        return x;
    }
    let v = sorted_unique(y);
    let k = v.len();
    proof {
        lemma_same_values(v@, y@);
        assert(y@.contains(y@[0]));
        assert(is_sorted(v@));
        assert forall|i: int| 0 <= i < k implies is_value_of(#[trigger] v@[i] as int, y@) by {
            assert(is_value_of(v@[i] as int, v@));
        }
    }
    if k == 1 {
        let mut x: Vec<i64> = Vec::new();
        let mut c: usize = 0;
        while c < n
            invariant
                v@.len() == 1,
                x@.len() == c,
                c <= n,
                forall|q: int| 0 <= q < c ==> x@[q] == v@[0],
            decreases n - c,
        {
            x.push(v[0]);
            c += 1;
        }
        proof {
            // Every value of y is v[0], so every candidate sequence is x itself.
            assert forall|t: int| is_value_of(t, y@) implies t == v@[0] as int by {
                assert(is_value_of(t, v@));
            }
            assert forall|c: int| 0 <= c < n implies is_value_of(#[trigger] ints(x@)[c], y@) by {
                assert(is_value_of(v@[0] as int, y@));
            }
            assert forall|z: Seq<int>| z.len() == y@.len() && takes_values_of(z, y@) implies l1_tv_cost(
                ints(x@),
                y@,
                wv,
                a,
            ) <= #[trigger] l1_tv_cost(z, y@, wv, a) by {
                assert forall|c: int| 0 <= c < n implies z[c] == ints(x@)[c] by {
                    assert(is_value_of(z[c], y@));
                }
                assert(z =~= ints(x@));
            }
            if weights_ok(wv, n as int) {
                lemma_global_optimum(ints(x@), y@, wv, a);
            }
            assert(is_value_list(v@, y@));
            assert(ints(x@) =~= Seq::new(y@.len(), |c: int| v@[0] as int));
        }
        return x;
    }
    let ghost s = spread(y@);
    proof {
        lemma_max_min_bounds(y@);
        lemma_value_distance(y@, v@[k - 1] as int, v@[0] as int);
        lemma_ceiling_step(wv, a, s, n as int, 0);
        assert(cost_ceiling(wv, a, s, 0) == 0);
    }
    // Column 0: the data term of the first sample.
    let w0 = weight(weights, 0);
    let mut b_prev: Vec<i64> = Vec::new();
    let mut i: usize = 0;
    while i < k
        invariant
            k == v@.len(),
            n == y@.len(),
            2 <= n,
            b_prev@.len() == i,
            i <= k,
            a == alpha,
            alpha >= 0,
            s == spread(y@),
            wv == weights_view(weights),
            weights_match(wv, n as int),
            cost_fits(y@, wv, a),
            w0 == weight_at(wv, 0),
            cost_ceiling(wv, a, s, 1) == abs(w0 as int) * s + a * s,
            0 <= abs(w0 as int) * s,
            cost_ceiling(wv, a, s, 1) <= i64::MAX,
            forall|q: int| 0 <= q < k ==> is_value_of(#[trigger] v@[q] as int, y@),
            forall|q: int|
                0 <= q < i ==> #[trigger] b_prev@[q] == weight_at(wv, 0) * metric_dist(
                    Metric::Line,
                    v@[q] as int,
                    y@[0] as int,
                ),
            forall|q: int|
                0 <= q < i ==> -cost_ceiling(wv, a, s, 1) <= #[trigger] b_prev@[q] <= cost_ceiling(wv, a, s, 1) - a * s,
        decreases k - i,
    {
        proof {
            assert(is_value_of(v@[i as int] as int, y@));
            assert(is_value_of(y@[0] as int, y@));
            lemma_value_distance(y@, v@[i as int] as int, y@[0] as int);
            lemma_weighted_distance(w0 as int, abs(v@[i as int] - y@[0]), s);
        }
        b_prev.push(w0 * abs_diff(v[i], y[0]));
        i += 1;
    }
    let mut cols: Vec<Vec<u32>> = Vec::new();
    proof {
        lemma_first_column(b_prev@, v@, y@, wv, a, Metric::Line);
        assert(cols@ =~= Seq::<Vec<u32>>::empty());
    }
    let ghost mut bs: Seq<Seq<i64>> = seq![b_prev@];
    let mut col: usize = 1;
    while col < n
        invariant
            k == v@.len(),
            n == y@.len(),
            2 <= n <= u32::MAX + 1,
            1 <= k <= n,
            1 <= col <= n,
            a == alpha,
            alpha >= 0,
            s == spread(y@),
            is_sorted(v@),
            wv == weights_view(weights),
            weights_match(wv, n as int),
            cost_fits(y@, wv, a),
            forall|q: int| 0 <= q < k ==> is_value_of(#[trigger] v@[q] as int, y@),
            s >= v@[k - 1] - v@[0] >= 0,
            cols@.len() == col - 1,
            pointers_ok(cols@, k as int),
            column_solved(b_prev@, cols@, v@, y@, wv, a, Metric::Line, col - 1),
            bs.len() == col,
            bs[col - 1] == b_prev@,
            is_first_line_column(bs[0], v@, y@, wv),
            forall|c: int|
                1 <= c < col ==> line_column_step(
                    bs[c - 1],
                    #[trigger] bs[c],
                    cols@[c - 1]@,
                    v@,
                    y@[c],
                    weight_at(wv, c),
                    a,
                    use_dist_transform,
                ),
            forall|q: int|
                0 <= q < k ==> -cost_ceiling(wv, a, s, col as int) <= #[trigger] b_prev@[q] <= cost_ceiling(
                    wv,
                    a,
                    s,
                    col as int,
                ) - a * s,
        decreases n - col,
    {
        proof {
            lemma_ceiling_step(wv, a, s, n as int, col as int);
            lemma_ceiling_step(wv, a, s, n as int, (col - 1) as int);
            lemma_mul_mono(a, v@[k - 1] - v@[0], s);
            assert forall|q: int| 0 <= q < k implies #[trigger] b_prev@[q] + a * (v@[k - 1] - v@[0]) <= i64::MAX by {
                assert(b_prev@[q] <= cost_ceiling(wv, a, s, col as int) - a * s);
            }
            assert(transform_fits(b_prev@, v@, a));
        }
        let (mid, am) = relax_column(&b_prev, &v, alpha, use_dist_transform);
        proof {
            assert forall|q: int|
                0 <= q < k implies -cost_ceiling(wv, a, s, col as int) <= #[trigger] mid@[q] <= cost_ceiling(
                wv,
                a,
                s,
                col as int,
            ) by {
                let j = am@[q] as int;
                assert(am@[q] < k);
                assert(is_value_of(v@[q] as int, y@));
                assert(is_value_of(v@[j] as int, y@));
                lemma_value_distance(y@, v@[q] as int, v@[j] as int);
                lemma_column_bounds(wv, a, s, n as int, col as int, b_prev@[j] as int, abs(v@[q] - v@[j]), 0);
            }
        }
        let wn = weight(weights, col);
        let yn = y[col];
        let mut b_curr = mid;
        let ghost mid_v = b_curr@;
        let mut i: usize = 0;
        while i < k
            invariant
                k == v@.len(),
                n == y@.len(),
                2 <= n,
                1 <= col < n,
                i <= k,
                a == alpha,
                alpha >= 0,
                s == spread(y@),
                wv == weights_view(weights),
                weights_match(wv, n as int),
                cost_fits(y@, wv, a),
                yn == y@[col as int],
                wn == weight_at(wv, col as int),
                forall|q: int| 0 <= q < k ==> is_value_of(#[trigger] v@[q] as int, y@),
                b_curr@.len() == k,
                mid_v.len() == k,
                forall|q: int|
                    0 <= q < k ==> -cost_ceiling(wv, a, s, col as int) <= #[trigger] mid_v[q] <= cost_ceiling(
                        wv,
                        a,
                        s,
                        col as int,
                    ),
                forall|q: int| i <= q < k ==> #[trigger] b_curr@[q] == mid_v[q],
                forall|q: int|
                    0 <= q < i ==> #[trigger] b_curr@[q] == mid_v[q] + wn * metric_dist(
                        Metric::Line,
                        v@[q] as int,
                        yn as int,
                    ),
                forall|q: int|
                    0 <= q < i ==> -cost_ceiling(wv, a, s, col + 1) <= #[trigger] b_curr@[q] <= cost_ceiling(
                        wv,
                        a,
                        s,
                        col + 1,
                    ) - a * s,
            decreases k - i,
        {
            proof {
                assert(is_value_of(v@[i as int] as int, y@));
                assert(is_value_of(y@[col as int] as int, y@));
                lemma_value_distance(y@, v@[i as int] as int, yn as int);
                lemma_ceiling_step(wv, a, s, n as int, col as int);
                lemma_weighted_distance(wn as int, abs(v@[i as int] - yn), s);
                assert(-cost_ceiling(wv, a, s, col as int) <= mid_v[i as int] <= cost_ceiling(wv, a, s, col as int));
            }
            let d = abs_diff(v[i], yn);
            let cur = b_curr[i];
            b_curr.set(i, cur + wn * d);
            i += 1;
        }
        proof {
            lemma_column_step(b_prev@, mid_v, b_curr@, am, cols@, v@, y@, wv, a, Metric::Line, col - 1);
            assert(line_column_step(b_prev@, b_curr@, am@, v@, y@[col as int], weight_at(wv, col as int), a, use_dist_transform));
        }
        let ghost old_cols = cols@;
        let ghost old_bs = bs;
        cols.push(am);
        proof {
            bs = bs.push(b_curr@);
            assert forall|c: int| 1 <= c < col + 1 implies line_column_step(
                bs[c - 1],
                #[trigger] bs[c],
                cols@[c - 1]@,
                v@,
                y@[c],
                weight_at(wv, c),
                a,
                use_dist_transform,
            ) by {
                if c < col {
                    assert(bs[c - 1] == old_bs[c - 1] && bs[c] == old_bs[c] && cols@[c - 1] == old_cols[c - 1]);
                }
            }
        }
        b_prev = b_curr;
        col += 1;
    }
    let l = argmin(b_prev.as_slice());
    let path = backtrack(&cols, k, l);
    let ghost pv = path_values(cols@, v@, (n - 1) as int, l as int);
    proof {
        lemma_trace_shape(cols@, k as int, (n - 1) as int, l as int);
    }
    let mut x: Vec<i64> = Vec::new();
    let mut c: usize = 0;
    while c < n
        invariant
            n == y@.len(),
            k == v@.len(),
            path@.len() == n,
            c <= n,
            x@.len() == c,
            pv == path_values(cols@, v@, (n - 1) as int, l as int),
            pv.len() == n,
            forall|q: int| 0 <= q < n ==> 0 <= #[trigger] trace(cols@, (n - 1) as int, l as int)[q] < k,
            forall|q: int| 0 <= q < n ==> path@[q] as int == #[trigger] trace(cols@, (n - 1) as int, l as int)[q],
            forall|q: int| 0 <= q < c ==> x@[q] as int == #[trigger] pv[q],
        decreases n - c,
    {
        proof {
            assert(path@[c as int] as int == trace(cols@, (n - 1) as int, l as int)[c as int]);
        }
        x.push(v[path[c]]);
        c += 1;
    }
    proof {
        assert(ints(x@) =~= pv);
        assert(is_line_run(ints(x@), y@, wv, a, use_dist_transform, v@, bs, cols@, l as int));
        assert(is_value_list(v@, y@));
        assert forall|q: int| 0 <= q < n implies is_value_of(#[trigger] ints(x@)[q], y@) by {
            let t = trace(cols@, (n - 1) as int, l as int)[q];
            assert(0 <= t < k);
            assert(is_value_of(v@[t] as int, y@));
        }
        lemma_last_column(b_prev@, cols@, v@, y@, wv, a, Metric::Line, l as int);
        assert forall|z: Seq<int>| z.len() == y@.len() && takes_values_of(z, y@) implies l1_tv_cost(
            ints(x@),
            y@,
            wv,
            a,
        ) <= #[trigger] l1_tv_cost(z, y@, wv, a) by {
            assert(takes_values_of(z, v@)) by {
                assert forall|c: int| 0 <= c < z.len() implies is_value_of(#[trigger] z[c], v@) by {
                    assert(is_value_of(z[c], y@));
                }
            }
            assert(prefix_cost(pv, y@, wv, a, Metric::Line, n as int) <= prefix_cost(z, y@, wv, a, Metric::Line, n as int));
        }
        if weights_ok(wv, n as int) {
            lemma_global_optimum(ints(x@), y@, wv, a);
        }
    }
    x
}


/// `x` minimises the L1-TV objective written out with the caller's weights
/// (all ones when none are given): among the sequences of values of `y`,
/// and, when the weights are non-negative, among all integer sequences.
pub open spec fn minimises_written_out(x: Seq<int>, y: Seq<i64>, weights: Option<Seq<i64>>, alpha: int) -> bool {
    let w = effective_weights(weights, y.len() as int);
    &&& forall|z: Seq<int>|
        z.len() == y.len() && takes_values_of(z, y) ==> objective_with(x, y, w, alpha, Metric::Line)
            <= #[trigger] objective_with(z, y, w, alpha, Metric::Line)
    &&& weights_ok(weights, y.len() as int) ==> forall|z: Seq<int>|
        z.len() == y.len() ==> objective_with(x, y, w, alpha, Metric::Line) <= #[trigger] objective_with(
            z,
            y,
            w,
            alpha,
            Metric::Line,
        )
}

/// The solver's minimality, written out with the caller's weights.
proof fn lemma_line_explicit(x: Seq<int>, y: Seq<i64>, weights: Option<Seq<i64>>, alpha: int)
    requires
        is_value_minimiser(x, y, weights, alpha),
        weights_ok(weights, y.len() as int) ==> is_l1_tv_minimiser(x, y, weights, alpha),
    ensures
        minimises_written_out(x, y, weights, alpha),
{
    let n = y.len() as int;
    lemma_objective_explicit(x, y, weights, alpha, Metric::Line, n);
    assert forall|z: Seq<int>| z.len() == y.len() implies #[trigger] objective_with(
        z,
        y,
        effective_weights(weights, n),
        alpha,
        Metric::Line,
    ) == l1_tv_cost(z, y, weights, alpha) by {
        lemma_objective_explicit(z, y, weights, alpha, Metric::Line, n);
    }
    if weights_ok(weights, n) {
        assert forall|z: Seq<int>| z.len() == y.len() implies objective_with(
            x,
            y,
            effective_weights(weights, n),
            alpha,
            Metric::Line,
        ) <= #[trigger] objective_with(z, y, effective_weights(weights, n), alpha, Metric::Line) by {
            assert(l1_tv_cost(x, y, weights, alpha) <= l1_tv_cost(z, y, weights, alpha));
        }
    }
    assert forall|z: Seq<int>| z.len() == y.len() && takes_values_of(z, y) implies objective_with(
        x,
        y,
        effective_weights(weights, n),
        alpha,
        Metric::Line,
    ) <= #[trigger] objective_with(z, y, effective_weights(weights, n), alpha, Metric::Line) by {
        assert(l1_tv_cost(x, y, weights, alpha) <= l1_tv_cost(z, y, weights, alpha));
    }
}

/// Any two sequences that each minimise the objective among the sequences
/// of signal values have the same objective; in particular the
/// distance-transform and the quadratic-scan paths of `solve_l1_tv_real`
/// reach the same objective, whatever the weights.
pub proof fn lemma_minimisers_agree(
    x1: Seq<int>,
    x2: Seq<int>,
    y: Seq<i64>,
    weights: Option<Seq<i64>>,
    alpha: int,
)
    requires
        is_value_minimiser(x1, y, weights, alpha),
        is_value_minimiser(x2, y, weights, alpha),
    ensures
        l1_tv_cost(x1, y, weights, alpha) == l1_tv_cost(x2, y, weights, alpha),
{
    assert(l1_tv_cost(x1, y, weights, alpha) <= l1_tv_cost(x2, y, weights, alpha));
    assert(l1_tv_cost(x2, y, weights, alpha) <= l1_tv_cost(x1, y, weights, alpha));
}

/// With no slope and positive weights the signal itself is the unique
/// minimiser: `alpha = 0` gives back the input.
pub proof fn lemma_zero_slope_keeps_signal(x: Seq<int>, y: Seq<i64>, weights: Option<Seq<i64>>)
    requires
        weights_positive(weights, y.len() as int),
        is_l1_tv_minimiser(x, y, weights, 0),
    ensures
        x == ints(y),
{
    let n = y.len() as int;
    let ys = ints(y);
    assert forall|c: int| 0 <= c < n implies #[trigger] step_cost(ys, y, weights, 0, Metric::Line, c) == 0 by {
        assert(abs(ys[c] - y[c]) == 0);
        assert(weight_at(weights, c) * 0 == 0);
    }
    lemma_prefix_zero(ys, y, weights, 0, Metric::Line, n);
    assert(l1_tv_cost(x, y, weights, 0) <= l1_tv_cost(ys, y, weights, 0));
    lemma_prefix_covers_steps(x, y, weights, 0, Metric::Line, n);
    assert forall|c: int| 0 <= c < n implies x[c] == ys[c] by {
        assert(step_cost(x, y, weights, 0, Metric::Line, c) == 0);
        assert(0 * metric_dist(Metric::Line, x[c], x[c - 1]) == 0);
        assert(weight_at(weights, c) > 0);
        if x[c] != y[c] {
            lemma_mul_mono(weight_at(weights, c), 1, abs(x[c] - y[c]));
        }
    }
    assert(x =~= ys);
}

/// Holding every entry at the first sample costs at most
/// `sum_c w[c] * spread(y)`.
proof fn lemma_constant_cost(y: Seq<i64>, weights: Option<Seq<i64>>, alpha: int, m: int)
    requires
        y.len() >= 1,
        weights_ok(weights, y.len() as int),
        0 <= m <= y.len(),
    ensures
        prefix_cost(Seq::new(y.len(), |c: int| y[0] as int), y, weights, alpha, Metric::Line, m) <= cost_ceiling(
            weights,
            0,
            spread(y),
            m,
        ),
    decreases m,
{
    if m > 0 {
        let cz = Seq::new(y.len(), |c: int| y[0] as int);
        lemma_constant_cost(y, weights, alpha, m - 1);
        lemma_max_min_bounds(y);
        assert(abs(cz[m - 1] - y[m - 1]) <= spread(y));
        lemma_mul_mono(weight_at(weights, m - 1), abs(cz[m - 1] - y[m - 1]), spread(y));
        if m - 1 > 0 {
            assert(abs(cz[m - 1] - cz[m - 2]) == 0);
            assert(alpha * 0 == 0);
        }
    }
}

/// A slope above `sum_c w[c] * spread(y)` makes every minimiser constant:
/// a single jump would already cost more than holding the first sample.
pub proof fn lemma_steep_slope_flattens(x: Seq<int>, y: Seq<i64>, weights: Option<Seq<i64>>, alpha: int)
    requires
        y.len() >= 1,
        weights_ok(weights, y.len() as int),
        alpha > cost_ceiling(weights, 0, spread(y), y.len() as int),
        is_l1_tv_minimiser(x, y, weights, alpha),
    ensures
        forall|i: int| 0 <= i < x.len() ==> #[trigger] x[i] == x[0],
{
    let n = y.len() as int;
    let cz = Seq::new(y.len(), |c: int| y[0] as int);
    lemma_max_min_bounds(y);
    lemma_constant_cost(y, weights, alpha, n);
    lemma_ceiling_mono(weights, 0, spread(y), n, 0, n);
    assert(l1_tv_cost(x, y, weights, alpha) <= l1_tv_cost(cz, y, weights, alpha));
    assert forall|i: int| 0 <= i < x.len() implies #[trigger] x[i] == x[0] by {
        if x[i] != x[0] {
            let c = lemma_first_jump(x, i);
            lemma_prefix_covers_steps(x, y, weights, alpha, Metric::Line, n);
            assert(step_cost(x, y, weights, alpha, Metric::Line, c) <= l1_tv_cost(x, y, weights, alpha));
            lemma_mul_nonneg(weight_at(weights, c), abs(x[c] - y[c]));
            lemma_mul_mono(alpha, 1, abs(x[c] - x[c - 1]));
        }
    }
}

/// Raising the slope never lowers the optimal objective; raising it
/// strictly never raises the total variation of a minimiser nor lowers its
/// data term.
pub proof fn lemma_slope_monotone(
    x1: Seq<int>,
    x2: Seq<int>,
    y: Seq<i64>,
    weights: Option<Seq<i64>>,
    alpha1: int,
    alpha2: int,
)
    requires
        0 <= alpha1 <= alpha2,
        is_l1_tv_minimiser(x1, y, weights, alpha1),
        is_l1_tv_minimiser(x2, y, weights, alpha2),
    ensures
        l1_tv_cost(x1, y, weights, alpha1) <= l1_tv_cost(x2, y, weights, alpha2),
        alpha1 < alpha2 ==> total_variation(x2, Metric::Line, y.len() as int) <= total_variation(
            x1,
            Metric::Line,
            y.len() as int,
        ),
        alpha1 < alpha2 ==> data_cost(x1, y, weights, Metric::Line, y.len() as int) <= data_cost(
            x2,
            y,
            weights,
            Metric::Line,
            y.len() as int,
        ),
{
    assert(l1_tv_cost(x1, y, weights, alpha1) <= l1_tv_cost(x2, y, weights, alpha1));
    assert(l1_tv_cost(x2, y, weights, alpha2) <= l1_tv_cost(x1, y, weights, alpha2));
    lemma_slope_exchange(x1, x2, y, weights, alpha1, alpha2, Metric::Line, y.len() as int);
}

/// Samples of weight zero (masked samples) do not change the optimal value:
/// signals that differ only there have minimisers of equal objective.
pub proof fn lemma_masked_sample_keeps_optimum(
    x: Seq<int>,
    x2: Seq<int>,
    y: Seq<i64>,
    y2: Seq<i64>,
    weights: Option<Seq<i64>>,
    alpha: int,
)
    requires
        y.len() == y2.len(),
        forall|c: int| 0 <= c < y.len() && y[c] != y2[c] ==> weight_at(weights, c) == 0,
        is_l1_tv_minimiser(x, y, weights, alpha),
        is_l1_tv_minimiser(x2, y2, weights, alpha),
    ensures
        l1_tv_cost(x, y, weights, alpha) == l1_tv_cost(x2, y2, weights, alpha),
{
    let n = y.len() as int;
    lemma_masked_samples(x, y, y2, weights, alpha, Metric::Line, n);
    lemma_masked_samples(x2, y, y2, weights, alpha, Metric::Line, n);
    assert(l1_tv_cost(x, y, weights, alpha) <= l1_tv_cost(x2, y, weights, alpha));
    assert(l1_tv_cost(x2, y2, weights, alpha) <= l1_tv_cost(x, y2, weights, alpha));
}
/// Giving no weights and giving a weight of 1 to every sample pose the same
/// problem: the two have exactly the same minimisers, so a solver call
/// without weights and one with all-one weights return minimisers of equal
/// objective.
pub proof fn lemma_no_weights_minimisers(x: Seq<int>, y: Seq<i64>, alpha: int)
    requires
        x.len() == y.len(),
    ensures
        is_l1_tv_minimiser(x, y, None, alpha) == is_l1_tv_minimiser(x, y, Some(Seq::new(y.len(), |i: int| 1i64)), alpha),
{
    let n = y.len() as int;
    lemma_no_weights_are_unit_weights(x, y, alpha, Metric::Line, n);
    assert forall|z: Seq<int>| z.len() == y.len() implies #[trigger] l1_tv_cost(z, y, None, alpha) == l1_tv_cost(
        z,
        y,
        Some(Seq::new(y.len(), |i: int| 1i64)),
        alpha,
    ) by {
        lemma_no_weights_are_unit_weights(z, y, alpha, Metric::Line, n);
    }
    let ones = Seq::new(y.len(), |i: int| 1i64);
    let cx = l1_tv_cost(x, y, None, alpha);
    if is_l1_tv_minimiser(x, y, None, alpha) {
        assert forall|z: Seq<int>| z.len() == y.len() implies l1_tv_cost(x, y, Some(ones), alpha)
            <= #[trigger] l1_tv_cost(z, y, Some(ones), alpha) by {
            assert(cx <= l1_tv_cost(z, y, None, alpha));
        }
    }
    if is_l1_tv_minimiser(x, y, Some(ones), alpha) {
        assert forall|z: Seq<int>| z.len() == y.len() implies cx <= #[trigger] l1_tv_cost(z, y, None, alpha) by {
            assert(l1_tv_cost(x, y, Some(ones), alpha) <= l1_tv_cost(z, y, Some(ones), alpha));
        }
    }
}
} // verus!
