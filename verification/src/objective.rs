//! The L1-TV objective
//! `alpha * sum_i d(x[i], x[i-1]) + sum_i w[i] * d(x[i], y[i])`
//! for the distance `d` of the real line or of a circle, and the bounds
//! under which the solvers' arithmetic stays in `i64`.

use vstd::prelude::*;
use crate::arith::{abs, lemma_mul_mono, lemma_mul_nonneg, lemma_mul_split};

verus! {

/// Weight of sample `i`: the given weight, or 1 when no weights are given.
pub open spec fn weight_at(weights: Option<Seq<i64>>, i: int) -> int {
    match weights {
        Some(w) => w[i] as int,
        None => 1,
    }
}

/// Weights, when given, have one entry per sample.
pub open spec fn weights_match(weights: Option<Seq<i64>>, n: int) -> bool {
    match weights {
        Some(w) => w.len() == n,
        None => true,
    }
}

/// Weights, when given, have one non-negative entry per sample.
pub open spec fn weights_ok(weights: Option<Seq<i64>>, n: int) -> bool {
    match weights {
        Some(w) => w.len() == n && forall|i: int| 0 <= i < n ==> w[i] >= 0,
        None => true,
    }
}

/// The space the signal lives in: the real line, or a circle on which
/// `half_turn` units make half a revolution.
pub enum Metric {
    Line,
    Circle(i64),
}

/// Shortest-arc distance between two angles on a circle of `2 * h` units.
pub open spec fn arc(a: int, b: int, h: int) -> int {
    let m = (a - b) % (2 * h);
    if m <= h {
        m
    } else {
        2 * h - m
    }
}

/// Distance between two points of the space.
pub open spec fn metric_dist(metric: Metric, a: int, b: int) -> int {
    match metric {
        Metric::Line => abs(a - b),
        Metric::Circle(h) => arc(a, b, h as int),
    }
}

/// The space's distances are non-negative.
pub open spec fn metric_ok(metric: Metric) -> bool {
    match metric {
        Metric::Line => true,
        Metric::Circle(h) => h >= 1,
    }
}

/// The part of the objective contributed by sample `i`: its data term and,
/// for `i > 0`, the jump from the previous entry.
pub open spec fn step_cost(
    x: Seq<int>,
    y: Seq<i64>,
    weights: Option<Seq<i64>>,
    alpha: int,
    metric: Metric,
    i: int,
) -> int {
    weight_at(weights, i) * metric_dist(metric, x[i], y[i] as int) + if i > 0 {
        alpha * metric_dist(metric, x[i], x[i - 1])
    } else {
        0
    }
}

/// The objective restricted to the first `m` samples.
pub open spec fn prefix_cost(
    x: Seq<int>,
    y: Seq<i64>,
    weights: Option<Seq<i64>>,
    alpha: int,
    metric: Metric,
    m: int,
) -> int
    decreases m,
{
    if m <= 0 {
        0
    } else {
        prefix_cost(x, y, weights, alpha, metric, m - 1) + step_cost(x, y, weights, alpha, metric, m - 1)
    }
}

/// The L1-TV objective of `x` for the real-valued signal `y`:
/// `alpha * sum_i |x[i] - x[i-1]| + sum_i w[i] * |x[i] - y[i]|`.
pub open spec fn l1_tv_cost(x: Seq<int>, y: Seq<i64>, weights: Option<Seq<i64>>, alpha: int) -> int {
    prefix_cost(x, y, weights, alpha, Metric::Line, x.len() as int)
}

/// `x` minimises the real-line objective over all integer sequences.
pub open spec fn is_l1_tv_minimiser(x: Seq<int>, y: Seq<i64>, weights: Option<Seq<i64>>, alpha: int) -> bool {
    &&& x.len() == y.len()
    &&& forall|z: Seq<int>|
        z.len() == y.len() ==> l1_tv_cost(x, y, weights, alpha) <= #[trigger] l1_tv_cost(z, y, weights, alpha)
}

/// `x` takes values of `y` and minimises the real-line objective among all
/// sequences that do.
pub open spec fn is_value_minimiser(x: Seq<int>, y: Seq<i64>, weights: Option<Seq<i64>>, alpha: int) -> bool {
    &&& x.len() == y.len()
    &&& takes_values_of(x, y)
    &&& forall|z: Seq<int>|
        z.len() == y.len() && takes_values_of(z, y) ==> l1_tv_cost(x, y, weights, alpha) <= #[trigger] l1_tv_cost(
            z,
            y,
            weights,
            alpha,
        )
}

/// The L1-TV objective of `x` for the circle-valued signal `y`, with
/// shortest-arc distances on a circle of `2 * half_turn` units.
pub open spec fn l1_tv_circ_cost(
    x: Seq<int>,
    y: Seq<i64>,
    weights: Option<Seq<i64>>,
    alpha: int,
    half_turn: i64,
) -> int {
    prefix_cost(x, y, weights, alpha, Metric::Circle(half_turn), x.len() as int)
}

/// `t` is one of the values of `y`.
pub open spec fn is_value_of(t: int, y: Seq<i64>) -> bool {
    exists|j: int| 0 <= j < y.len() && t == y[j] as int
}

/// Every entry of `z` is one of the values of `y`.
pub open spec fn takes_values_of(z: Seq<int>, y: Seq<i64>) -> bool {
    forall|c: int| 0 <= c < z.len() ==> is_value_of(#[trigger] z[c], y)
}

/// An `i64` sequence read as mathematical integers.
pub open spec fn ints(x: Seq<i64>) -> Seq<int> {
    x.map_values(|t: i64| t as int)
}

/// Largest value of a non-empty sequence.
pub open spec fn seq_max(y: Seq<i64>) -> int
    decreases y.len(),
{
    if y.len() <= 1 {
        if y.len() == 0 { 0 } else { y[0] as int }
    } else {
        let m = seq_max(y.drop_last());
        if m < y.last() { y.last() as int } else { m }
    }
}

/// Smallest value of a non-empty sequence.
pub open spec fn seq_min(y: Seq<i64>) -> int
    decreases y.len(),
{
    if y.len() <= 1 {
        if y.len() == 0 { 0 } else { y[0] as int }
    } else {
        let m = seq_min(y.drop_last());
        if y.last() < m { y.last() as int } else { m }
    }
}

/// The range covered by the values of `y`.
pub open spec fn spread(y: Seq<i64>) -> int {
    seq_max(y) - seq_min(y)
}

/// `sum_{c < m} (|w[c]| + alpha) * d`: when no distance exceeds `d`, no
/// candidate sequence has an objective above this, nor below its negative,
/// over the first `m` samples.
pub open spec fn cost_ceiling(weights: Option<Seq<i64>>, alpha: int, d: int, m: int) -> int
    decreases m,
{
    if m <= 0 {
        0
    } else {
        cost_ceiling(weights, alpha, d, m - 1) + (abs(weight_at(weights, m - 1)) + alpha) * d
    }
}

/// The arithmetic of the real-line solver fits in `i64`: differences of
/// signal values and every partial objective it forms.
pub open spec fn cost_fits(y: Seq<i64>, weights: Option<Seq<i64>>, alpha: int) -> bool {
    &&& spread(y) <= i64::MAX
    &&& cost_ceiling(weights, alpha, spread(y), y.len() as int) <= i64::MAX
}

pub proof fn lemma_max_min_bounds(y: Seq<i64>)
    requires
        y.len() > 0,
    ensures
        forall|i: int| 0 <= i < y.len() ==> seq_min(y) <= #[trigger] y[i] <= seq_max(y),
    decreases y.len(),
{
    if y.len() > 1 {
        lemma_max_min_bounds(y.drop_last());
        assert forall|i: int| 0 <= i < y.len() implies seq_min(y) <= #[trigger] y[i] <= seq_max(y) by {
            if i < y.len() - 1 {
                assert(y[i] == y.drop_last()[i]);
            }
        }
    }
}

/// The distance between two values of `y` is at most its spread.
pub proof fn lemma_value_distance(y: Seq<i64>, s: int, t: int)
    requires
        is_value_of(s, y),
        is_value_of(t, y),
    ensures
        abs(s - t) <= spread(y),
{
    lemma_max_min_bounds(y);
}

/// The ceiling grows with the number of samples.
pub proof fn lemma_ceiling_mono(weights: Option<Seq<i64>>, alpha: int, d: int, n: int, m1: int, m2: int)
    requires
        alpha >= 0,
        d >= 0,
        0 <= m1 <= m2 <= n,
    ensures
        0 <= cost_ceiling(weights, alpha, d, m1) <= cost_ceiling(weights, alpha, d, m2),
    decreases m2,
{
    if m1 < m2 {
        lemma_ceiling_mono(weights, alpha, d, n, m1, m2 - 1);
        lemma_mul_nonneg(abs(weight_at(weights, m2 - 1)) + alpha, d);
    } else if m1 > 0 {
        lemma_ceiling_mono(weights, alpha, d, n, m1 - 1, m1 - 1);
        lemma_mul_nonneg(abs(weight_at(weights, m1 - 1)) + alpha, d);
    }
}

/// One more sample raises the ceiling by its weight's magnitude and the
/// slope, each times the distance bound; from the first sample on the
/// ceiling covers one slope term.
pub proof fn lemma_ceiling_step(weights: Option<Seq<i64>>, alpha: int, d: int, n: int, col: int)
    requires
        alpha >= 0,
        d >= 0,
        cost_ceiling(weights, alpha, d, n) <= i64::MAX,
        0 <= col < n,
    ensures
        cost_ceiling(weights, alpha, d, col + 1) == cost_ceiling(weights, alpha, d, col) + abs(
            weight_at(weights, col),
        ) * d + alpha * d,
        0 <= abs(weight_at(weights, col)) * d,
        0 <= alpha * d,
        col >= 1 ==> cost_ceiling(weights, alpha, d, col) >= alpha * d,
        0 <= cost_ceiling(weights, alpha, d, col) <= cost_ceiling(weights, alpha, d, col + 1) <= i64::MAX,
    decreases col,
{
    let w = abs(weight_at(weights, col));
    lemma_mul_split(d, w, alpha);
    assert((w + alpha) * d == d * (w + alpha)) by (nonlinear_arith);
    assert(w * d == d * w) by (nonlinear_arith);
    assert(alpha * d == d * alpha) by (nonlinear_arith);
    lemma_mul_nonneg(w, d);
    lemma_mul_nonneg(alpha, d);
    lemma_ceiling_mono(weights, alpha, d, n, col, col + 1);
    lemma_ceiling_mono(weights, alpha, d, n, col + 1, n);
    if col >= 1 {
        lemma_ceiling_step(weights, alpha, d, n, col - 1);
    }
}

/// A weighted distance of at most `d` lies within the weight's magnitude
/// times `d` of zero.
pub proof fn lemma_weighted_distance(w: int, dist: int, d: int)
    requires
        0 <= dist <= d,
    ensures
        -(abs(w) * d) <= w * dist <= abs(w) * d,
{
    if w >= 0 {
        lemma_mul_mono(w, dist, d);
        lemma_mul_nonneg(w, dist);
    } else {
        lemma_mul_mono(-w, dist, d);
        lemma_mul_nonneg(-w, dist);
        assert(w * dist == -((-w) * dist)) by (nonlinear_arith);
    }
}

/// A path entry within the ceiling, plus one jump and one data term of at
/// most `d` each, stays within the next ceiling, and every product fits.
pub proof fn lemma_column_bounds(
    weights: Option<Seq<i64>>,
    alpha: int,
    d: int,
    n: int,
    col: int,
    b_entry: int,
    jump: int,
    dist: int,
)
    requires
        alpha >= 0,
        d >= 0,
        cost_ceiling(weights, alpha, d, n) <= i64::MAX,
        1 <= col < n,
        -cost_ceiling(weights, alpha, d, col) <= b_entry <= cost_ceiling(weights, alpha, d, col) - alpha * d,
        0 <= jump <= d,
        0 <= dist <= d,
    ensures
        0 <= alpha * jump <= alpha * d,
        -cost_ceiling(weights, alpha, d, col) <= b_entry + alpha * jump <= cost_ceiling(weights, alpha, d, col),
        -(abs(weight_at(weights, col)) * d) <= weight_at(weights, col) * dist <= abs(weight_at(weights, col)) * d,
        -cost_ceiling(weights, alpha, d, col + 1) <= b_entry + alpha * jump + weight_at(weights, col) * dist
            <= cost_ceiling(weights, alpha, d, col + 1) - alpha * d,
        cost_ceiling(weights, alpha, d, col + 1) <= i64::MAX,
{
    lemma_mul_mono(alpha, jump, d);
    lemma_mul_nonneg(alpha, jump);
    lemma_weighted_distance(weight_at(weights, col), dist, d);
    lemma_ceiling_step(weights, alpha, d, n, col);
}

/// The weights as a sequence, when given.
pub open spec fn weights_view(weights: Option<&[i64]>) -> Option<Seq<i64>> {
    match weights {
        Some(w) => Some(w@),
        None => None,
    }
}

/// Weight of sample `i`: the given weight, or 1 when no weights are given.
pub fn weight(weights: Option<&[i64]>, i: usize) -> (w: i64)
    requires
        weights matches Some(ws) ==> i < ws@.len(),
    ensures
        w == weight_at(weights_view(weights), i as int),
        weights matches Some(ws) ==> w == ws@[i as int],
        weights is None ==> w == 1,
{
    match weights {
        Some(ws) => ws[i],
        None => 1,
    }
}

/// Two sequences with the same elements have the same values.
pub proof fn lemma_same_values(v: Seq<i64>, y: Seq<i64>)
    requires
        forall|t: i64| v.contains(t) <==> y.contains(t),
    ensures
        forall|t: int| is_value_of(t, v) <==> is_value_of(t, y),
{
    assert forall|t: int| is_value_of(t, v) <==> is_value_of(t, y) by {
        if is_value_of(t, v) {
            let j = choose|j: int| 0 <= j < v.len() && t == v[j] as int;
            assert(v.contains(v[j]));
            let q = choose|q: int| 0 <= q < y.len() && y[q] == v[j];
        }
        if is_value_of(t, y) {
            let j = choose|j: int| 0 <= j < y.len() && t == y[j] as int;
            assert(y.contains(y[j]));
            let q = choose|q: int| 0 <= q < v.len() && v[q] == y[j];
        }
    }
}

/// The prefix objective reads only the first `m` entries.
pub proof fn lemma_prefix_frame(
    x1: Seq<int>,
    x2: Seq<int>,
    y: Seq<i64>,
    weights: Option<Seq<i64>>,
    alpha: int,
    metric: Metric,
    m: int,
)
    requires
        m <= x1.len(),
        m <= x2.len(),
        forall|c: int| 0 <= c < m ==> x1[c] == x2[c],
    ensures
        prefix_cost(x1, y, weights, alpha, metric, m) == prefix_cost(x2, y, weights, alpha, metric, m),
    decreases m,
{
    if m > 0 {
        lemma_prefix_frame(x1, x2, y, weights, alpha, metric, m - 1);
    }
}

/// Extending a path by one entry adds that entry's step cost.
pub proof fn lemma_prefix_push(
    p: Seq<int>,
    t: int,
    y: Seq<i64>,
    weights: Option<Seq<i64>>,
    alpha: int,
    metric: Metric,
)
    requires
        p.len() >= 1,
    ensures
        prefix_cost(p.push(t), y, weights, alpha, metric, p.len() + 1int) == prefix_cost(
            p,
            y,
            weights,
            alpha,
            metric,
            p.len() as int,
        ) + weight_at(weights, p.len() as int) * metric_dist(metric, t, y[p.len() as int] as int) + alpha
            * metric_dist(metric, t, p[p.len() - 1]),
{
    lemma_prefix_frame(p.push(t), p, y, weights, alpha, metric, p.len() as int);
}

/// Distances are non-negative.
pub proof fn lemma_dist_nonneg(metric: Metric, a: int, b: int)
    requires
        metric_ok(metric),
    ensures
        metric_dist(metric, a, b) >= 0,
{
}

/// With non-negative weights and slope, every prefix objective is non-negative.
pub proof fn lemma_prefix_nonneg(
    x: Seq<int>,
    y: Seq<i64>,
    weights: Option<Seq<i64>>,
    alpha: int,
    metric: Metric,
    m: int,
)
    requires
        alpha >= 0,
        metric_ok(metric),
        weights_ok(weights, y.len() as int),
        m <= y.len(),
    ensures
        prefix_cost(x, y, weights, alpha, metric, m) >= 0,
    decreases m,
{
    if m > 0 {
        lemma_prefix_nonneg(x, y, weights, alpha, metric, m - 1);
        lemma_dist_nonneg(metric, x[m - 1], y[m - 1] as int);
        lemma_dist_nonneg(metric, x[m - 1], x[m - 2]);
        lemma_mul_nonneg(weight_at(weights, m - 1), metric_dist(metric, x[m - 1], y[m - 1] as int));
        lemma_mul_nonneg(alpha, metric_dist(metric, x[m - 1], x[m - 2]));
    }
}

/// Every weight is positive (no weights means all weights are 1).
pub open spec fn weights_positive(weights: Option<Seq<i64>>, n: int) -> bool {
    match weights {
        Some(w) => w.len() == n && forall|i: int| 0 <= i < n ==> w[i] > 0,
        None => true,
    }
}

/// A prefix objective of non-negative steps is at least each of its steps
/// and vanishes only when every step does.
pub proof fn lemma_prefix_covers_steps(
    x: Seq<int>,
    y: Seq<i64>,
    weights: Option<Seq<i64>>,
    alpha: int,
    metric: Metric,
    m: int,
)
    requires
        alpha >= 0,
        metric_ok(metric),
        weights_ok(weights, y.len() as int),
        m <= y.len(),
    ensures
        forall|c: int|
            0 <= c < m ==> 0 <= #[trigger] step_cost(x, y, weights, alpha, metric, c) <= prefix_cost(
                x,
                y,
                weights,
                alpha,
                metric,
                m,
            ),
    decreases m,
{
    if m > 0 {
        lemma_prefix_covers_steps(x, y, weights, alpha, metric, m - 1);
        lemma_prefix_nonneg(x, y, weights, alpha, metric, m - 1);
        assert forall|c: int| 0 <= c < m implies 0 <= #[trigger] step_cost(x, y, weights, alpha, metric, c) by {
            lemma_dist_nonneg(metric, x[c], y[c] as int);
            lemma_dist_nonneg(metric, x[c], x[c - 1]);
            lemma_mul_nonneg(weight_at(weights, c), metric_dist(metric, x[c], y[c] as int));
            lemma_mul_nonneg(alpha, metric_dist(metric, x[c], x[c - 1]));
        }
    }
}

/// A prefix of steps that all vanish vanishes.
pub proof fn lemma_prefix_zero(
    x: Seq<int>,
    y: Seq<i64>,
    weights: Option<Seq<i64>>,
    alpha: int,
    metric: Metric,
    m: int,
)
    requires
        forall|c: int| 0 <= c < m ==> #[trigger] step_cost(x, y, weights, alpha, metric, c) == 0,
    ensures
        prefix_cost(x, y, weights, alpha, metric, m) == 0,
    decreases m,
{
    if m > 0 {
        lemma_prefix_zero(x, y, weights, alpha, metric, m - 1);
    }
}

/// A sequence that is not constant jumps somewhere.
pub proof fn lemma_first_jump(x: Seq<int>, i: int) -> (c: int)
    requires
        0 <= i < x.len(),
        x[i] != x[0],
    ensures
        1 <= c <= i,
        x[c] != x[c - 1],
    decreases i,
{
    if x[i - 1] != x[i] {
        i
    } else {
        lemma_first_jump(x, i - 1)
    }
}

/// Total variation of the first `m` entries: the sum of the distances
/// between neighbours.
pub open spec fn total_variation(x: Seq<int>, metric: Metric, m: int) -> int
    decreases m,
{
    if m <= 1 {
        0
    } else {
        total_variation(x, metric, m - 1) + metric_dist(metric, x[m - 1], x[m - 2])
    }
}

/// The data term of the first `m` samples: the objective without its
/// slope term.
pub open spec fn data_cost(x: Seq<int>, y: Seq<i64>, weights: Option<Seq<i64>>, metric: Metric, m: int) -> int {
    prefix_cost(x, y, weights, 0, metric, m)
}

/// The objective is its data term plus the slope times the total variation.
pub proof fn lemma_cost_split(
    x: Seq<int>,
    y: Seq<i64>,
    weights: Option<Seq<i64>>,
    alpha: int,
    metric: Metric,
    m: int,
)
    ensures
        prefix_cost(x, y, weights, alpha, metric, m) == data_cost(x, y, weights, metric, m) + alpha
            * total_variation(x, metric, m),
    decreases m,
{
    if m > 0 {
        lemma_cost_split(x, y, weights, alpha, metric, m - 1);
        if m - 1 > 0 {
            lemma_mul_split(alpha, total_variation(x, metric, m - 1), metric_dist(metric, x[m - 1], x[m - 2]));
            assert(0 * metric_dist(metric, x[m - 1], x[m - 2]) == 0);
        } else {
            assert(alpha * 0 == 0);
        }
    }
}

/// The total variation is non-negative.
pub proof fn lemma_variation_nonneg(x: Seq<int>, metric: Metric, m: int)
    requires
        metric_ok(metric),
    ensures
        total_variation(x, metric, m) >= 0,
    decreases m,
{
    if m > 1 {
        lemma_variation_nonneg(x, metric, m - 1);
        lemma_dist_nonneg(metric, x[m - 1], x[m - 2]);
    }
}

/// Exchange argument between two slopes: if `x1` is no worse than `x2` at
/// slope `alpha1` and `x2` is no worse than `x1` at the larger slope
/// `alpha2`, then `x1` at `alpha1` costs no more than `x2` at `alpha2`, and
/// for a strictly larger slope `x2` varies no more than `x1` and fits the
/// data no better.
pub(crate) proof fn lemma_slope_exchange(
    x1: Seq<int>,
    x2: Seq<int>,
    y: Seq<i64>,
    weights: Option<Seq<i64>>,
    alpha1: int,
    alpha2: int,
    metric: Metric,
    m: int,
)
    requires
        metric_ok(metric),
        0 <= alpha1 <= alpha2,
        prefix_cost(x1, y, weights, alpha1, metric, m) <= prefix_cost(x2, y, weights, alpha1, metric, m),
        prefix_cost(x2, y, weights, alpha2, metric, m) <= prefix_cost(x1, y, weights, alpha2, metric, m),
    ensures
        prefix_cost(x1, y, weights, alpha1, metric, m) <= prefix_cost(x2, y, weights, alpha2, metric, m),
        alpha1 < alpha2 ==> total_variation(x2, metric, m) <= total_variation(x1, metric, m),
        alpha1 < alpha2 ==> data_cost(x1, y, weights, metric, m) <= data_cost(x2, y, weights, metric, m),
{
    lemma_cost_split(x1, y, weights, alpha1, metric, m);
    lemma_cost_split(x1, y, weights, alpha2, metric, m);
    lemma_cost_split(x2, y, weights, alpha1, metric, m);
    lemma_cost_split(x2, y, weights, alpha2, metric, m);
    lemma_variation_nonneg(x2, metric, m);
    let t1 = total_variation(x1, metric, m);
    let t2 = total_variation(x2, metric, m);
    assert(alpha1 * t2 <= alpha2 * t2) by (nonlinear_arith)
        requires
            t2 >= 0,
            alpha1 <= alpha2,
    ;
    if alpha1 < alpha2 {
        assert(t2 <= t1) by (nonlinear_arith)
            requires
                alpha1 * t1 + alpha2 * t2 <= alpha1 * t2 + alpha2 * t1,
                alpha1 < alpha2,
        ;
        lemma_mul_mono(alpha1, t2, t1);
    }
}

/// Changing only samples of weight zero changes no prefix objective.
pub proof fn lemma_masked_samples(
    z: Seq<int>,
    y: Seq<i64>,
    y2: Seq<i64>,
    weights: Option<Seq<i64>>,
    alpha: int,
    metric: Metric,
    m: int,
)
    requires
        y.len() == y2.len(),
        m <= y.len(),
        forall|c: int| 0 <= c < y.len() && y[c] != y2[c] ==> weight_at(weights, c) == 0,
    ensures
        prefix_cost(z, y, weights, alpha, metric, m) == prefix_cost(z, y2, weights, alpha, metric, m),
    decreases m,
{
    if m > 0 {
        let c = m - 1;
        lemma_masked_samples(z, y, y2, weights, alpha, metric, m - 1);
        if y[c] != y2[c] {
            assert(0 * metric_dist(metric, z[c], y[c] as int) == 0);
            assert(0 * metric_dist(metric, z[c], y2[c] as int) == 0);
        }
    }
}
/// The weights that apply to `n` samples: the given ones, or `n` ones when
/// none are given.
pub open spec fn effective_weights(weights: Option<Seq<i64>>, n: int) -> Seq<i64> {
    match weights {
        Some(w) => w,
        None => Seq::new(n as nat, |i: int| 1i64),
    }
}

/// `sum_{c < m} w[c] * d(x[c], y[c])`: the data fit of the first `m`
/// samples under the weights `w`.
pub open spec fn weighted_fit(x: Seq<int>, y: Seq<i64>, w: Seq<i64>, metric: Metric, m: int) -> int
    decreases m,
{
    if m <= 0 {
        0
    } else {
        weighted_fit(x, y, w, metric, m - 1) + w[m - 1] * metric_dist(metric, x[m - 1], y[m - 1] as int)
    }
}

/// The L1-TV objective written out with the weights `w`:
/// `sum_i w[i] * d(x[i], y[i]) + alpha * sum_i d(x[i], x[i-1])`.
pub open spec fn objective_with(x: Seq<int>, y: Seq<i64>, w: Seq<i64>, alpha: int, metric: Metric) -> int {
    weighted_fit(x, y, w, metric, x.len() as int) + alpha * total_variation(x, metric, x.len() as int)
}

/// With weights `w` given, the objective is the L1-TV objective under
/// exactly those weights: `sum_c w[c] * d(x[c], y[c]) + alpha * TV(x)`.
pub proof fn lemma_objective_given_weights(
    x: Seq<int>,
    y: Seq<i64>,
    w: Seq<i64>,
    alpha: int,
    metric: Metric,
    m: int,
)
    ensures
        prefix_cost(x, y, Some(w), alpha, metric, m) == weighted_fit(x, y, w, metric, m) + alpha * total_variation(
            x,
            metric,
            m,
        ),
{
    lemma_cost_split(x, y, Some(w), alpha, metric, m);
    lemma_data_cost_given(x, y, w, metric, m);
}

/// With no weights given, the objective weighs every sample by 1:
/// `sum_c d(x[c], y[c]) + alpha * TV(x)`.
pub proof fn lemma_objective_no_weights(x: Seq<int>, y: Seq<i64>, alpha: int, metric: Metric, m: int)
    requires
        m <= y.len(),
    ensures
        prefix_cost(x, y, None, alpha, metric, m) == weighted_fit(
            x,
            y,
            Seq::new(y.len(), |i: int| 1i64),
            metric,
            m,
        ) + alpha * total_variation(x, metric, m),
{
    lemma_cost_split(x, y, None, alpha, metric, m);
    lemma_data_cost_unit(x, y, metric, m);
}

/// The data term under given weights is their weighted fit.
proof fn lemma_data_cost_given(x: Seq<int>, y: Seq<i64>, w: Seq<i64>, metric: Metric, m: int)
    ensures
        data_cost(x, y, Some(w), metric, m) == weighted_fit(x, y, w, metric, m),
    decreases m,
{
    if m > 0 {
        lemma_data_cost_given(x, y, w, metric, m - 1);
        if m - 1 > 0 {
            assert(0 * metric_dist(metric, x[m - 1], x[m - 2]) == 0);
        }
    }
}

/// The data term without weights is the fit under unit weights.
proof fn lemma_data_cost_unit(x: Seq<int>, y: Seq<i64>, metric: Metric, m: int)
    requires
        m <= y.len(),
    ensures
        data_cost(x, y, None, metric, m) == weighted_fit(x, y, Seq::new(y.len(), |i: int| 1i64), metric, m),
    decreases m,
{
    if m > 0 {
        lemma_data_cost_unit(x, y, metric, m - 1);
        if m - 1 > 0 {
            assert(0 * metric_dist(metric, x[m - 1], x[m - 2]) == 0);
        }
    }
}

/// The objective is the written-out one under the effective weights.
pub(crate) proof fn lemma_objective_explicit(
    x: Seq<int>,
    y: Seq<i64>,
    weights: Option<Seq<i64>>,
    alpha: int,
    metric: Metric,
    m: int,
)
    requires
        m <= y.len(),
    ensures
        prefix_cost(x, y, weights, alpha, metric, m) == weighted_fit(
            x,
            y,
            effective_weights(weights, y.len() as int),
            metric,
            m,
        ) + alpha * total_variation(x, metric, m),
{
    match weights {
        Some(w) => lemma_objective_given_weights(x, y, w, alpha, metric, m),
        None => lemma_objective_no_weights(x, y, alpha, metric, m),
    }
}

/// Giving no weights is the same as giving a weight of 1 to every sample:
/// every sequence has the same objective either way.
pub proof fn lemma_no_weights_are_unit_weights(x: Seq<int>, y: Seq<i64>, alpha: int, metric: Metric, m: int)
    requires
        m <= y.len(),
    ensures
        prefix_cost(x, y, None, alpha, metric, m) == prefix_cost(
            x,
            y,
            Some(Seq::new(y.len(), |i: int| 1i64)),
            alpha,
            metric,
            m,
        ),
{
    lemma_objective_no_weights(x, y, alpha, metric, m);
    lemma_objective_given_weights(x, y, Seq::new(y.len(), |i: int| 1i64), alpha, metric, m);
}
} // verus!
