//! The candidate-set theorem for the real-line objective: for every integer
//! sequence there is a sequence taking only values of the signal whose
//! objective is no larger. Hence the dynamic program over the distinct
//! signal values finds a global minimiser.
//!
//! Proof idea: take a maximal run of equal entries whose value `t` is not a
//! signal value. Moving the whole run to a value `s` changes the objective
//! affinely in `s` between the nearest breakpoints (signal values of the run
//! and the values next to the run), so one of the two nearest breakpoints
//! is no worse. Moving there either makes the run take a signal value or
//! merges it with a neighbour, so the number of bad entries plus the number
//! of jumps decreases.

use vstd::prelude::*;
use crate::arith::{abs, lemma_mul_mono, lemma_mul_split};
use crate::objective::{
    is_value_of,
    l1_tv_cost,
    prefix_cost,
    Metric,
    step_cost,
    takes_values_of,
    weight_at,
    weights_ok,
};

verus! {

/// `z` with the entries `rl..=rh` replaced by `s`.
pub open spec fn set_run(z: Seq<int>, rl: int, rh: int, s: int) -> Seq<int> {
    Seq::new(z.len(), |c: int| if rl <= c <= rh { s } else { z[c] })
}

/// The values of `y`, as a predicate.
pub open spec fn signal_values(y: Seq<i64>) -> spec_fn(int) -> bool {
    |t: int| is_value_of(t, y)
}

/// Disorder of entry `c`: one if it is not `good`, plus one if it differs
/// from its predecessor.
pub open spec fn disorder_at(z: Seq<int>, good: spec_fn(int) -> bool, c: int) -> int {
    (if good(z[c]) { 0int } else { 1int }) + (if c >= 1 && z[c] != z[c - 1] {
        1int
    } else {
        0int
    })
}

/// Total disorder of the first `m` entries: entries that are not `good`
/// plus jumps.
pub open spec fn disorder(z: Seq<int>, good: spec_fn(int) -> bool, m: int) -> int
    decreases m,
{
    if m <= 0 {
        0
    } else {
        disorder(z, good, m - 1) + disorder_at(z, good, m - 1)
    }
}

pub(crate) proof fn lemma_disorder_nonneg(z: Seq<int>, good: spec_fn(int) -> bool, m: int)
    ensures
        disorder(z, good, m) >= 0,
    decreases m,
{
    if m > 0 {
        lemma_disorder_nonneg(z, good, m - 1);
    }
}

/// Disorder drops when no entry gets worse and one gets better.
pub(crate) proof fn lemma_disorder_drops(
    z1: Seq<int>,
    z2: Seq<int>,
    good: spec_fn(int) -> bool,
    m: int,
    p: int,
)
    requires
        forall|c: int| 0 <= c < m ==> #[trigger] disorder_at(z1, good, c) <= disorder_at(z2, good, c),
        0 <= p < m,
        disorder_at(z1, good, p) < disorder_at(z2, good, p),
    ensures
        disorder(z1, good, m) < disorder(z2, good, m),
    decreases m,
{
    if p < m - 1 {
        lemma_disorder_drops(z1, z2, good, m - 1, p);
    } else {
        lemma_disorder_le(z1, z2, good, m - 1);
    }
}

proof fn lemma_disorder_le(z1: Seq<int>, z2: Seq<int>, good: spec_fn(int) -> bool, m: int)
    requires
        forall|c: int| 0 <= c < m ==> #[trigger] disorder_at(z1, good, c) <= disorder_at(z2, good, c),
    ensures
        disorder(z1, good, m) <= disorder(z2, good, m),
    decreases m,
{
    if m > 0 {
        lemma_disorder_le(z1, z2, good, m - 1);
    }
}

/// First position of the run of equal entries that contains `p`.
pub open spec fn run_start(z: Seq<int>, p: int) -> int
    decreases p,
{
    if p > 0 && z[p - 1] == z[p] {
        run_start(z, p - 1)
    } else {
        p
    }
}

/// Last position of the run of equal entries that contains `p`.
pub open spec fn run_end(z: Seq<int>, p: int) -> int
    decreases z.len() - p,
{
    if 0 <= p && p + 1 < z.len() && z[p + 1] == z[p] {
        run_end(z, p + 1)
    } else {
        p
    }
}

pub(crate) proof fn lemma_run_start(z: Seq<int>, p: int)
    requires
        0 <= p < z.len(),
    ensures
        0 <= run_start(z, p) <= p,
        forall|c: int| run_start(z, p) <= c <= p ==> z[c] == z[p],
        run_start(z, p) == 0 || z[run_start(z, p) - 1] != z[p],
    decreases p,
{
    if p > 0 && z[p - 1] == z[p] {
        lemma_run_start(z, p - 1);
    }
}

pub(crate) proof fn lemma_run_end(z: Seq<int>, p: int)
    requires
        0 <= p < z.len(),
    ensures
        p <= run_end(z, p) < z.len(),
        forall|c: int| p <= c <= run_end(z, p) ==> z[c] == z[p],
        run_end(z, p) == z.len() - 1 || z[run_end(z, p) + 1] != z[p],
    decreases z.len() - p,
{
    if p + 1 < z.len() && z[p + 1] == z[p] {
        lemma_run_end(z, p + 1);
    }
}

/// The values at which the objective of a moved run bends: the signal
/// values under the run and the entries next to it.
pub open spec fn breakpoints(z: Seq<int>, y: Seq<i64>, rl: int, rh: int) -> Seq<int> {
    Seq::new((rh - rl + 1) as nat, |c: int| y[rl + c] as int) + (if rl > 0 {
        seq![z[rl - 1]]
    } else {
        Seq::<int>::empty()
    }) + (if rh + 1 < z.len() {
        seq![z[rh + 1]]
    } else {
        Seq::<int>::empty()
    })
}

/// The largest entry of `s` below `t`, if any.
pub open spec fn max_below(s: Seq<int>, t: int) -> Option<int>
    decreases s.len(),
{
    if s.len() == 0 {
        None
    } else {
        let rest = max_below(s.drop_last(), t);
        let e = s.last();
        if e < t {
            match rest {
                Some(u) => if u < e { Some(e) } else { Some(u) },
                None => Some(e),
            }
        } else {
            rest
        }
    }
}

/// The smallest entry of `s` above `t`, if any.
pub open spec fn min_above(s: Seq<int>, t: int) -> Option<int>
    decreases s.len(),
{
    if s.len() == 0 {
        None
    } else {
        let rest = min_above(s.drop_last(), t);
        let e = s.last();
        if e > t {
            match rest {
                Some(u) => if e < u { Some(e) } else { Some(u) },
                None => Some(e),
            }
        } else {
            rest
        }
    }
}

pub(crate) proof fn lemma_max_below(s: Seq<int>, t: int)
    ensures
        match max_below(s, t) {
            Some(u) => s.contains(u) && u < t && forall|i: int|
                0 <= i < s.len() && s[i] < t ==> s[i] <= u,
            None => forall|i: int| 0 <= i < s.len() ==> s[i] >= t,
        },
    decreases s.len(),
{
    if s.len() > 0 {
        lemma_max_below(s.drop_last(), t);
        assert forall|i: int| 0 <= i < s.len() - 1 implies s[i] == s.drop_last()[i] by {}
        if let Some(u) = max_below(s.drop_last(), t) {
            assert(s.drop_last().contains(u));
            let q = choose|q: int| 0 <= q < s.drop_last().len() && s.drop_last()[q] == u;
            assert(s[q] == u);
        }
        assert(s[s.len() - 1] == s.last());
    }
}

pub(crate) proof fn lemma_min_above(s: Seq<int>, t: int)
    ensures
        match min_above(s, t) {
            Some(u) => s.contains(u) && u > t && forall|i: int|
                0 <= i < s.len() && s[i] > t ==> s[i] >= u,
            None => forall|i: int| 0 <= i < s.len() ==> s[i] <= t,
        },
    decreases s.len(),
{
    if s.len() > 0 {
        lemma_min_above(s.drop_last(), t);
        assert forall|i: int| 0 <= i < s.len() - 1 implies s[i] == s.drop_last()[i] by {}
        if let Some(u) = min_above(s.drop_last(), t) {
            assert(s.drop_last().contains(u));
            let q = choose|q: int| 0 <= q < s.drop_last().len() && s.drop_last()[q] == u;
            assert(s[q] == u);
        }
        assert(s[s.len() - 1] == s.last());
    }
}


/// `k * |s - e|` is affine in `s` on `[lo, hi]` when `e` lies outside `(lo, hi)`.
proof fn lemma_abs_affine(k: int, e: int, lo: int, t: int, hi: int)
    requires
        lo < t < hi,
        e <= lo || e >= hi,
    ensures
        (hi - lo) * (k * abs(t - e)) == (hi - t) * (k * abs(lo - e)) + (t - lo) * (k * abs(hi - e)),
{
    if e <= lo {
        assert((hi - lo) * (k * (t - e)) == (hi - t) * (k * (lo - e)) + (t - lo) * (k * (hi - e)))
            by (nonlinear_arith);
    } else {
        assert((hi - lo) * (k * (e - t)) == (hi - t) * (k * (e - lo)) + (t - lo) * (k * (e - hi)))
            by (nonlinear_arith);
    }
}

/// A constant is trivially affine.
pub(crate) proof fn lemma_const_affine(v: int, lo: int, t: int, hi: int)
    ensures
        (hi - lo) * v == (hi - t) * v + (t - lo) * v,
{
    assert((hi - lo) * v == (hi - t) * v + (t - lo) * v) by (nonlinear_arith);
}

/// Every breakpoint lies outside the open interval `(lo, hi)`.
pub open spec fn breakpoints_outside(z: Seq<int>, y: Seq<i64>, rl: int, rh: int, lo: int, hi: int) -> bool {
    &&& forall|q: int| rl <= q <= rh ==> (y[q] <= lo || y[q] >= hi)
    &&& rl > 0 ==> (z[rl - 1] <= lo || z[rl - 1] >= hi)
    &&& rh + 1 < z.len() ==> (z[rh + 1] <= lo || z[rh + 1] >= hi)
}

/// Moving the run to `s` changes each step cost affinely in `s` between
/// two consecutive breakpoints.
proof fn lemma_step_interpolates(
    z: Seq<int>,
    y: Seq<i64>,
    weights: Option<Seq<i64>>,
    alpha: int,
    rl: int,
    rh: int,
    lo: int,
    t: int,
    hi: int,
    c: int,
)
    requires
        0 <= rl <= rh < z.len(),
        z.len() <= y.len(),
        0 <= c < z.len(),
        lo < t < hi,
        breakpoints_outside(z, y, rl, rh, lo, hi),
    ensures
        (hi - lo) * step_cost(set_run(z, rl, rh, t), y, weights, alpha, Metric::Line, c) == (hi - t) * step_cost(
            set_run(z, rl, rh, lo),
            y,
            weights,
            alpha,
            Metric::Line,
            c,
        ) + (t - lo) * step_cost(set_run(z, rl, rh, hi), y, weights, alpha, Metric::Line, c),
{
    let zt = set_run(z, rl, rh, t);
    let zl = set_run(z, rl, rh, lo);
    let zh = set_run(z, rl, rh, hi);
    let w = weight_at(weights, c);
    let dt = w * abs(zt[c] - y[c]);
    let dl = w * abs(zl[c] - y[c]);
    let dh = w * abs(zh[c] - y[c]);
    if rl <= c <= rh {
        lemma_abs_affine(w, y[c] as int, lo, t, hi);
    } else {
        lemma_const_affine(dt, lo, t, hi);
    }
    let et = if c > 0 { alpha * abs(zt[c] - zt[c - 1]) } else { 0 };
    let el = if c > 0 { alpha * abs(zl[c] - zl[c - 1]) } else { 0 };
    let eh = if c > 0 { alpha * abs(zh[c] - zh[c - 1]) } else { 0 };
    if c == 0 {
        lemma_const_affine(0, lo, t, hi);
    } else if rl < c <= rh {
        assert(abs(zt[c] - zt[c - 1]) == 0 && abs(zl[c] - zl[c - 1]) == 0 && abs(zh[c] - zh[c - 1]) == 0);
        assert(alpha * 0 == 0);
        lemma_const_affine(0, lo, t, hi);
    } else if c == rl {
        lemma_abs_affine(alpha, z[rl - 1], lo, t, hi);
    } else if c == rh + 1 {
        assert(abs(zt[c] - zt[c - 1]) == abs(t - z[rh + 1]));
        assert(abs(zl[c] - zl[c - 1]) == abs(lo - z[rh + 1]));
        assert(abs(zh[c] - zh[c - 1]) == abs(hi - z[rh + 1]));
        lemma_abs_affine(alpha, z[rh + 1], lo, t, hi);
    } else {
        lemma_const_affine(et, lo, t, hi);
    }
    lemma_mul_split(hi - lo, dt, et);
    lemma_mul_split(hi - t, dl, el);
    lemma_mul_split(t - lo, dh, eh);
}

/// Every breakpoint lies at or beyond `u`, seen from `t`.
pub open spec fn breakpoints_beyond(z: Seq<int>, y: Seq<i64>, rl: int, rh: int, t: int, u: int) -> bool {
    &&& forall|q: int| rl <= q <= rh ==> (if t < u { y[q] >= u } else { y[q] <= u })
    &&& rl > 0 ==> (if t < u { z[rl - 1] >= u } else { z[rl - 1] <= u })
    &&& rh + 1 < z.len() ==> (if t < u { z[rh + 1] >= u } else { z[rh + 1] <= u })
}

/// `|u - e| <= |t - e|` when `e` lies at or beyond `u` seen from `t`,
/// scaled by a non-negative factor.
proof fn lemma_abs_toward(k: int, e: int, t: int, u: int)
    requires
        k >= 0,
        t != u,
        if t < u { e >= u } else { e <= u },
    ensures
        k * abs(u - e) <= k * abs(t - e),
{
    lemma_mul_mono(k, abs(u - e), abs(t - e));
}

/// Moving the run from `t` towards breakpoints that all lie beyond `u`
/// does not increase any step cost.
proof fn lemma_step_moves_toward(
    z: Seq<int>,
    y: Seq<i64>,
    weights: Option<Seq<i64>>,
    alpha: int,
    rl: int,
    rh: int,
    t: int,
    u: int,
    c: int,
)
    requires
        alpha >= 0,
        weights_ok(weights, y.len() as int),
        0 <= rl <= rh < z.len(),
        z.len() == y.len(),
        0 <= c < z.len(),
        t != u,
        breakpoints_beyond(z, y, rl, rh, t, u),
    ensures
        step_cost(set_run(z, rl, rh, u), y, weights, alpha, Metric::Line, c) <= step_cost(set_run(z, rl, rh, t), y, weights, alpha, Metric::Line, c),
{
    let zt = set_run(z, rl, rh, t);
    let zu = set_run(z, rl, rh, u);
    let w = weight_at(weights, c);
    assert(w >= 0);
    if rl <= c <= rh {
        lemma_abs_toward(w, y[c] as int, t, u);
    }
    if c > 0 {
        if rl < c <= rh {
            assert(abs(zt[c] - zt[c - 1]) == 0 && abs(zu[c] - zu[c - 1]) == 0);
        } else if c == rl {
            lemma_abs_toward(alpha, z[rl - 1], t, u);
        } else if c == rh + 1 {
            assert(abs(zt[c] - zt[c - 1]) == abs(t - z[rh + 1]));
            assert(abs(zu[c] - zu[c - 1]) == abs(u - z[rh + 1]));
            lemma_abs_toward(alpha, z[rh + 1], t, u);
        }
    }
}

/// Termwise weighted-average bounds add up over a prefix.
pub(crate) proof fn lemma_prefix_concave(
    zt: Seq<int>,
    zl: Seq<int>,
    zh: Seq<int>,
    y: Seq<i64>,
    weights: Option<Seq<i64>>,
    alpha: int,
    metric: Metric,
    lo: int,
    t: int,
    hi: int,
    m: int,
)
    requires
        forall|c: int|
            0 <= c < m ==> (hi - lo) * #[trigger] step_cost(zt, y, weights, alpha, metric, c) >= (hi - t)
                * step_cost(zl, y, weights, alpha, metric, c) + (t - lo) * step_cost(zh, y, weights, alpha, metric, c),
    ensures
        (hi - lo) * prefix_cost(zt, y, weights, alpha, metric, m) >= (hi - t) * prefix_cost(zl, y, weights, alpha, metric, m)
            + (t - lo) * prefix_cost(zh, y, weights, alpha, metric, m),
    decreases m,
{
    if m <= 0 {
        assert((hi - lo) * 0 == (hi - t) * 0 + (t - lo) * 0);
    } else {
        lemma_prefix_concave(zt, zl, zh, y, weights, alpha, metric, lo, t, hi, m - 1);
        assert((hi - lo) * step_cost(zt, y, weights, alpha, metric, m - 1) >= (hi - t) * step_cost(zl, y, weights, alpha, metric, m - 1)
            + (t - lo) * step_cost(zh, y, weights, alpha, metric, m - 1));
        lemma_mul_split(hi - lo, prefix_cost(zt, y, weights, alpha, metric, m - 1), step_cost(zt, y, weights, alpha, metric, m - 1));
        lemma_mul_split(hi - t, prefix_cost(zl, y, weights, alpha, metric, m - 1), step_cost(zl, y, weights, alpha, metric, m - 1));
        lemma_mul_split(t - lo, prefix_cost(zh, y, weights, alpha, metric, m - 1), step_cost(zh, y, weights, alpha, metric, m - 1));
    }
}

/// Termwise inequalities add up over a prefix.
pub(crate) proof fn lemma_prefix_le(
    z1: Seq<int>,
    z2: Seq<int>,
    y: Seq<i64>,
    weights: Option<Seq<i64>>,
    alpha: int,
    metric: Metric,
    m: int,
)
    requires
        forall|c: int|
            0 <= c < m ==> #[trigger] step_cost(z1, y, weights, alpha, metric, c) <= step_cost(z2, y, weights, alpha, metric, c),
    ensures
        prefix_cost(z1, y, weights, alpha, metric, m) <= prefix_cost(z2, y, weights, alpha, metric, m),
    decreases m,
{
    if m > 0 {
        lemma_prefix_le(z1, z2, y, weights, alpha, metric, m - 1);
    }
}

/// A value that is at least a positive-weight average of two others is at
/// least the smaller of them.
pub(crate) proof fn lemma_average_no_better(ct: int, cl: int, ch: int, lo: int, t: int, hi: int)
    requires
        lo < t < hi,
        (hi - lo) * ct >= (hi - t) * cl + (t - lo) * ch,
    ensures
        cl <= ct || ch <= ct,
{
    if cl <= ch {
        assert((t - lo) * cl <= (t - lo) * ch) by (nonlinear_arith)
            requires
                t - lo > 0,
                cl <= ch,
        ;
        assert((hi - lo) * cl == (hi - t) * cl + (t - lo) * cl) by (nonlinear_arith);
        assert(cl <= ct) by (nonlinear_arith)
            requires
                hi - lo > 0,
                (hi - lo) * cl <= (hi - lo) * ct,
        ;
    } else {
        assert((hi - t) * ch <= (hi - t) * cl) by (nonlinear_arith)
            requires
                hi - t > 0,
                ch <= cl,
        ;
        assert((hi - lo) * ch == (hi - t) * ch + (t - lo) * ch) by (nonlinear_arith);
        assert(ch <= ct) by (nonlinear_arith)
            requires
                hi - lo > 0,
                (hi - lo) * ch <= (hi - lo) * ct,
        ;
    }
}


/// A maximal run of entries equal to `t`, a value that `y` does not take.
pub open spec fn is_bad_run(z: Seq<int>, y: Seq<i64>, rl: int, rh: int, t: int) -> bool {
    &&& 0 <= rl <= rh < z.len()
    &&& z.len() <= y.len()
    &&& !is_value_of(t, y)
    &&& forall|c: int| rl <= c <= rh ==> z[c] == t
    &&& rl > 0 ==> z[rl - 1] != t
    &&& rh + 1 < z.len() ==> z[rh + 1] != t
}

/// Where each breakpoint comes from.
pub(crate) proof fn lemma_breakpoints_index(z: Seq<int>, y: Seq<i64>, rl: int, rh: int)
    requires
        0 <= rl <= rh < z.len(),
        z.len() <= y.len(),
    ensures
        breakpoints(z, y, rl, rh).len() == (rh - rl + 1) + (if rl > 0 { 1int } else { 0int }) + (if rh + 1
            < z.len() { 1int } else { 0int }),
        forall|q: int| rl <= q <= rh ==> #[trigger] breakpoints(z, y, rl, rh)[q - rl] == y[q] as int,
        rl > 0 ==> breakpoints(z, y, rl, rh)[rh - rl + 1] == z[rl - 1],
        rh + 1 < z.len() ==> breakpoints(z, y, rl, rh)[(rh - rl + 1) + (if rl > 0 { 1int } else { 0int })]
            == z[rh + 1],
{
    let a = Seq::new((rh - rl + 1) as nat, |c: int| y[rl + c] as int);
    let b = if rl > 0 { seq![z[rl - 1]] } else { Seq::<int>::empty() };
    let c = if rh + 1 < z.len() { seq![z[rh + 1]] } else { Seq::<int>::empty() };
    assert(breakpoints(z, y, rl, rh) == a + b + c);
    assert forall|q: int| rl <= q <= rh implies #[trigger] breakpoints(z, y, rl, rh)[q - rl] == y[q] as int by {
        assert((a + b + c)[q - rl] == (a + b)[q - rl]);
        assert((a + b)[q - rl] == a[q - rl]);
    }
    if rl > 0 {
        assert((a + b + c)[rh - rl + 1] == (a + b)[rh - rl + 1]);
    }
}

/// No breakpoint of a bad run equals the run's value.
proof fn lemma_breakpoints_avoid(z: Seq<int>, y: Seq<i64>, rl: int, rh: int, t: int)
    requires
        is_bad_run(z, y, rl, rh, t),
    ensures
        forall|i: int| 0 <= i < breakpoints(z, y, rl, rh).len() ==> #[trigger] breakpoints(z, y, rl, rh)[i] != t,
        breakpoints(z, y, rl, rh).len() >= 1,
{
    lemma_breakpoints_index(z, y, rl, rh);
    let bp = breakpoints(z, y, rl, rh);
    let nr = rh - rl + 1;
    assert forall|i: int| 0 <= i < bp.len() implies #[trigger] bp[i] != t by {
        if i < nr {
            assert(bp[(rl + i) - rl] == y[rl + i] as int);
            if y[rl + i] as int == t {
                assert(is_value_of(t, y));
            }
        }
    }
}

/// Moving a bad run to the nearer breakpoint on the cheaper side does not
/// increase the objective. Returns the index of that breakpoint.
proof fn lemma_move_run(
    z: Seq<int>,
    y: Seq<i64>,
    weights: Option<Seq<i64>>,
    alpha: int,
    rl: int,
    rh: int,
    t: int,
) -> (i: int)
    requires
        is_bad_run(z, y, rl, rh, t),
        z.len() == y.len(),
        alpha >= 0,
        weights_ok(weights, y.len() as int),
    ensures
        0 <= i < breakpoints(z, y, rl, rh).len(),
        l1_tv_cost(set_run(z, rl, rh, breakpoints(z, y, rl, rh)[i]), y, weights, alpha) <= l1_tv_cost(
            z,
            y,
            weights,
            alpha,
        ),
{
    let n = z.len() as int;
    let bp = breakpoints(z, y, rl, rh);
    let nr = rh - rl + 1;
    lemma_breakpoints_index(z, y, rl, rh);
    lemma_breakpoints_avoid(z, y, rl, rh, t);
    lemma_max_below(bp, t);
    lemma_min_above(bp, t);
    let zt = set_run(z, rl, rh, t);
    assert(zt =~= z);
    let lo_opt = max_below(bp, t);
    let hi_opt = min_above(bp, t);
    // Every breakpoint is at most the nearest one below or at least the nearest one above.
    assert forall|q: int| rl <= q <= rh implies (lo_opt is Some && y[q] <= lo_opt->0) || (hi_opt is Some && y[q]
        >= hi_opt->0) by {
        assert(bp[q - rl] == y[q] as int);
        assert(bp[q - rl] != t);
    }
    if rl > 0 {
        assert(bp[nr] != t);
        assert((lo_opt is Some && z[rl - 1] <= lo_opt->0) || (hi_opt is Some && z[rl - 1] >= hi_opt->0));
    }
    if rh + 1 < n {
        let j = nr + (if rl > 0 { 1int } else { 0int });
        assert(bp[j] != t);
        assert((lo_opt is Some && z[rh + 1] <= lo_opt->0) || (hi_opt is Some && z[rh + 1] >= hi_opt->0));
    }
    if lo_opt is Some && hi_opt is Some {
        let lo = lo_opt->0;
        let hi = hi_opt->0;
        let zl = set_run(z, rl, rh, lo);
        let zh = set_run(z, rl, rh, hi);
        assert(breakpoints_outside(z, y, rl, rh, lo, hi));
        assert forall|c: int| 0 <= c < n implies (hi - lo) * #[trigger] step_cost(zt, y, weights, alpha, Metric::Line, c) >= (hi
            - t) * step_cost(zl, y, weights, alpha, Metric::Line, c) + (t - lo) * step_cost(zh, y, weights, alpha, Metric::Line, c) by {
            lemma_step_interpolates(z, y, weights, alpha, rl, rh, lo, t, hi, c);
        }
        lemma_prefix_concave(zt, zl, zh, y, weights, alpha, Metric::Line, lo, t, hi, n);
        lemma_average_no_better(
            l1_tv_cost(zt, y, weights, alpha),
            l1_tv_cost(zl, y, weights, alpha),
            l1_tv_cost(zh, y, weights, alpha),
            lo,
            t,
            hi,
        );
        if l1_tv_cost(zl, y, weights, alpha) <= l1_tv_cost(zt, y, weights, alpha) {
            choose|i: int| 0 <= i < bp.len() && bp[i] == lo
        } else {
            choose|i: int| 0 <= i < bp.len() && bp[i] == hi
        }
    } else if lo_opt is Some {
        let lo = lo_opt->0;
        let zl = set_run(z, rl, rh, lo);
        assert(breakpoints_beyond(z, y, rl, rh, t, lo));
        assert forall|c: int| 0 <= c < n implies #[trigger] step_cost(zl, y, weights, alpha, Metric::Line, c) <= step_cost(
            zt,
            y,
            weights,
            alpha,
            Metric::Line,
            c,
        ) by {
            lemma_step_moves_toward(z, y, weights, alpha, rl, rh, t, lo, c);
        }
        lemma_prefix_le(zl, zt, y, weights, alpha, Metric::Line, n);
        choose|i: int| 0 <= i < bp.len() && bp[i] == lo
    } else {
        assert(bp[0] != t);
        let hi = hi_opt->0;
        let zh = set_run(z, rl, rh, hi);
        assert(breakpoints_beyond(z, y, rl, rh, t, hi));
        assert forall|c: int| 0 <= c < n implies #[trigger] step_cost(zh, y, weights, alpha, Metric::Line, c) <= step_cost(
            zt,
            y,
            weights,
            alpha,
            Metric::Line,
            c,
        ) by {
            lemma_step_moves_toward(z, y, weights, alpha, rl, rh, t, hi, c);
        }
        lemma_prefix_le(zh, zt, y, weights, alpha, Metric::Line, n);
        choose|i: int| 0 <= i < bp.len() && bp[i] == hi
    }
}

/// Moving a bad run onto one of its breakpoints lowers the disorder: the
/// run either takes a value of `y` or merges with a neighbouring entry.
proof fn lemma_move_run_orders(z: Seq<int>, y: Seq<i64>, rl: int, rh: int, t: int, i: int)
    requires
        is_bad_run(z, y, rl, rh, t),
        0 <= i < breakpoints(z, y, rl, rh).len(),
    ensures
        disorder(set_run(z, rl, rh, breakpoints(z, y, rl, rh)[i]), signal_values(y), z.len() as int)
            < disorder(z, signal_values(y), z.len() as int),
{
    let n = z.len() as int;
    let bp = breakpoints(z, y, rl, rh);
    let nr = rh - rl + 1;
    let u = bp[i];
    let z2 = set_run(z, rl, rh, u);
    lemma_breakpoints_index(z, y, rl, rh);
    let good = signal_values(y);
    assert forall|c: int| 0 <= c < n implies #[trigger] disorder_at(z2, good, c) <= disorder_at(z, good, c) by {
        if rl <= c <= rh {
            assert(!is_value_of(z[c], y));
        }
    }
    if i < nr {
        let q = rl + i;
        assert(bp[q - rl] == y[q] as int);
        assert(is_value_of(z2[q], y));
        assert(!is_value_of(z[q], y));
        lemma_disorder_drops(z2, z, good, n, q);
    } else if rl > 0 && i == nr {
        assert(z2[rl] == z2[rl - 1]);
        lemma_disorder_drops(z2, z, good, n, rl);
    } else {
        assert(rh + 1 < n);
        assert(z2[rh + 1] == z2[rh]);
        lemma_disorder_drops(z2, z, good, n, rh + 1);
    }
}

/// Candidate-set theorem: for every integer sequence `z` there is a
/// sequence of the same length taking only values of `y` whose objective is
/// no larger.
pub proof fn lemma_candidate_no_worse(z: Seq<int>, y: Seq<i64>, weights: Option<Seq<i64>>, alpha: int) -> (zc: Seq<
    int,
>)
    requires
        z.len() == y.len(),
        alpha >= 0,
        weights_ok(weights, y.len() as int),
    ensures
        zc.len() == z.len(),
        takes_values_of(zc, y),
        l1_tv_cost(zc, y, weights, alpha) <= l1_tv_cost(z, y, weights, alpha),
    decreases disorder(z, signal_values(y), z.len() as int),
{
    if takes_values_of(z, y) {
        z
    } else {
        let n = z.len() as int;
        let p = choose|p: int| 0 <= p < n && !is_value_of(#[trigger] z[p], y);
        let t = z[p];
        lemma_run_start(z, p);
        lemma_run_end(z, p);
        let rl = run_start(z, p);
        let rh = run_end(z, p);
        assert(is_bad_run(z, y, rl, rh, t));
        let i = lemma_move_run(z, y, weights, alpha, rl, rh, t);
        lemma_move_run_orders(z, y, rl, rh, t, i);
        let z2 = set_run(z, rl, rh, breakpoints(z, y, rl, rh)[i]);
        lemma_disorder_nonneg(z2, signal_values(y), n);
        lemma_candidate_no_worse(z2, y, weights, alpha)
    }
}

} // verus!
