//! The candidate-set theorem for the circle objective: for every integer
//! sequence there is a sequence of wrapped signal values whose circle
//! objective is no larger. Hence the dynamic program over the wrapped
//! signal values (and their antipodes) finds a global minimiser.
//!
//! Proof idea: first wrap every entry into the half-open turn, which does
//! not change any arc distance. Then take a maximal run of equal entries
//! whose value `t` is not a wrapped signal value. As a function of the
//! run's common value `s`, each arc distance `arc(s, e)` is a tent that
//! bends upwards only at the points `e + 2 * h * k`; between two
//! consecutive such points of all the breakpoints `e` (the signal values
//! under the run and the entries next to it) the objective is concave in
//! `s`, so one of the two nearest points is no worse than `t`. Moving the
//! run there (and wrapping) either makes it a wrapped signal value or
//! merges it with a neighbour, so the disorder decreases.

use vstd::prelude::*;
use vstd::arithmetic::div_mod::{
    lemma_fundamental_div_mod,
    lemma_fundamental_div_mod_converse_div,
    lemma_fundamental_div_mod_converse_mod,
    lemma_mod_bound,
};
use crate::arith::lemma_mul_split;
use crate::candidates::{
    breakpoints,
    disorder,
    disorder_at,
    lemma_average_no_better,
    lemma_breakpoints_index,
    lemma_const_affine,
    lemma_disorder_drops,
    lemma_disorder_nonneg,
    lemma_max_below,
    lemma_min_above,
    lemma_prefix_concave,
    lemma_run_end,
    lemma_run_start,
    max_below,
    min_above,
    run_end,
    run_start,
    set_run,
};
use crate::circle_valued::{in_turn, lemma_arc_symmetric, lemma_arc_turns, lemma_wrapped, wrapped};
use crate::objective::{arc, l1_tv_circ_cost, prefix_cost, step_cost, weight_at, weights_ok, Metric};

verus! {

/// `t` is a wrapped value of `y`.
pub open spec fn is_wrapped_value_of(t: int, y: Seq<i64>, h: int) -> bool {
    exists|j: int| 0 <= j < y.len() && t == wrapped(y[j] as int, h)
}

/// Every entry of `z` lies in the half-open turn `(-h, h]`.
pub open spec fn all_in_turn(z: Seq<int>, h: int) -> bool {
    forall|c: int| 0 <= c < z.len() ==> in_turn(#[trigger] z[c], h)
}

/// Shifting the first angle by whole turns does not change the arc distance.
pub proof fn lemma_arc_turns_first(a: int, b: int, h: int, q: int)
    requires
        h >= 1,
    ensures
        arc(a + 2 * h * q, b, h) == arc(a, b, h),
{
    lemma_arc_symmetric(a + 2 * h * q, b, h);
    lemma_arc_turns(b, a, h, q);
    lemma_arc_symmetric(b, a, h);
}

/// Two angles of the half-open turn that differ by whole turns are equal.
pub(crate) proof fn lemma_in_turn_same(a: int, b: int, h: int, q: int)
    requires
        h >= 1,
        in_turn(a, h),
        in_turn(b, h),
        a == b + 2 * h * q,
    ensures
        a == b,
{
    if q >= 1 {
        assert(2 * h * q >= 2 * h) by (nonlinear_arith)
            requires
                h >= 1,
                q >= 1,
        ;
    } else if q <= -1 {
        assert(2 * h * q <= -2 * h) by (nonlinear_arith)
            requires
                h >= 1,
                q <= -1,
        ;
    }
}

/// Angles that differ by whole turns wrap to the same angle.
pub proof fn lemma_wrapped_turns(a: int, b: int, h: int, q: int)
    requires
        h >= 1,
        a == b + 2 * h * q,
    ensures
        wrapped(a, h) == wrapped(b, h),
{
    let qa = lemma_wrapped(a, h);
    let qb = lemma_wrapped(b, h);
    assert(wrapped(a, h) == wrapped(b, h) + 2 * h * (q + qa - qb)) by (nonlinear_arith)
        requires
            wrapped(a, h) == a + 2 * h * qa,
            wrapped(b, h) == b + 2 * h * qb,
            a == b + 2 * h * q,
    ;
    lemma_in_turn_same(wrapped(a, h), wrapped(b, h), h, q + qa - qb);
}

/// An angle of the half-open turn is its own wrapped angle.
pub proof fn lemma_wrapped_in_turn(a: int, h: int)
    requires
        h >= 1,
        in_turn(a, h),
    ensures
        wrapped(a, h) == a,
{
    let q = lemma_wrapped(a, h);
    lemma_in_turn_same(wrapped(a, h), a, h, q);
}

/// An angle of the half-open turn a whole number of turns away from `e`
/// is `e` wrapped.
proof fn lemma_congruent_is_wrapped(t: int, e: int, h: int)
    requires
        h >= 1,
        in_turn(t, h),
        (t - e) % (2 * h) == 0,
    ensures
        t == wrapped(e, h),
{
    lemma_fundamental_div_mod(t - e, 2 * h);
    let q = (t - e) / (2 * h);
    assert(t == e + 2 * h * q) by (nonlinear_arith)
        requires
            t - e == (2 * h) * q + 0,
    ;
    lemma_wrapped_turns(t, e, h, q);
    lemma_wrapped_in_turn(t, h);
}

/// The nearest point strictly below `t` that lies a whole number of turns
/// away from `e`.
pub open spec fn turn_below(e: int, t: int, h: int) -> int {
    t - 1 - (t - 1 - e) % (2 * h)
}

/// When `t` is not a whole number of turns away from `e`, the point
/// `turn_below(e, t, h)` lies `k` turns from `e`, less than a turn below
/// `t`, and one turn above it lies strictly above `t`.
proof fn lemma_turn_below(e: int, t: int, h: int) -> (k: int)
    requires
        h >= 1,
        (t - e) % (2 * h) != 0,
    ensures
        turn_below(e, t, h) == e + 2 * h * k,
        t - 2 * h <= turn_below(e, t, h) < t,
        t < turn_below(e, t, h) + 2 * h,
{
    let m = 2 * h;
    lemma_fundamental_div_mod(t - 1 - e, m);
    lemma_mod_bound(t - 1 - e, m);
    let q = (t - 1 - e) / m;
    let r = (t - 1 - e) % m;
    if r == m - 1 {
        assert(t - e == (q + 1) * m + 0) by (nonlinear_arith)
            requires
                t - 1 - e == m * q + r,
                r == m - 1,
        ;
        lemma_fundamental_div_mod_converse_mod(t - e, m, q + 1, 0);
    }
    assert(turn_below(e, t, h) == e + 2 * h * q) by (nonlinear_arith)
        requires
            t - 1 - e == m * q + r,
            m == 2 * h,
            turn_below(e, t, h) == t - 1 - r,
    ;
    q
}

/// On one turn `[p, p + 2h]` starting at a point `p` whole turns away from
/// `e`, the arc distance to `e` is the tent `min(s - p, p + 2h - s)`.
proof fn lemma_arc_tent(s: int, e: int, h: int, k: int)
    requires
        h >= 1,
        e + 2 * h * k <= s <= e + 2 * h * k + 2 * h,
    ensures
        arc(s, e, h) == if s - (e + 2 * h * k) <= (e + 2 * h * k) + 2 * h - s {
            s - (e + 2 * h * k)
        } else {
            (e + 2 * h * k) + 2 * h - s
        },
{
    let m = 2 * h;
    let p = e + 2 * h * k;
    if s - p < m {
        assert(s - e == k * m + (s - p)) by (nonlinear_arith)
            requires
                p == e + 2 * h * k,
                m == 2 * h,
        ;
        lemma_fundamental_div_mod_converse_mod(s - e, m, k, s - p);
    } else {
        assert(s - e == (k + 1) * m + 0) by (nonlinear_arith)
            requires
                p == e + 2 * h * k,
                m == 2 * h,
                s - p == m,
        ;
        lemma_fundamental_div_mod_converse_mod(s - e, m, k + 1, 0);
    }
}

/// `w * arc(s, e)` is concave in `s` on `[lo, hi]` when no point a whole
/// number of turns away from `e` lies strictly between `lo` and `hi`.
proof fn lemma_arc_concave(w: int, e: int, h: int, k: int, lo: int, t: int, hi: int)
    requires
        h >= 1,
        w >= 0,
        e + 2 * h * k <= lo < t < hi <= e + 2 * h * k + 2 * h,
    ensures
        (hi - lo) * (w * arc(t, e, h)) >= (hi - t) * (w * arc(lo, e, h)) + (t - lo) * (w * arc(hi, e, h)),
{
    let p = e + 2 * h * k;
    lemma_arc_tent(lo, e, h, k);
    lemma_arc_tent(t, e, h, k);
    lemma_arc_tent(hi, e, h, k);
    let al = arc(lo, e, h);
    let at = arc(t, e, h);
    let ah = arc(hi, e, h);
    let f = if t - p <= p + 2 * h - t { t - p } else { p + 2 * h - t };
    let fl = if t - p <= p + 2 * h - t { lo - p } else { p + 2 * h - lo };
    let fh = if t - p <= p + 2 * h - t { hi - p } else { p + 2 * h - hi };
    assert(at == f);
    assert(al <= fl && ah <= fh);
    assert((hi - lo) * f == (hi - t) * fl + (t - lo) * fh) by (nonlinear_arith)
        requires
            f == t - p && fl == lo - p && fh == hi - p || f == p + 2 * h - t && fl == p + 2 * h - lo && fh
                == p + 2 * h - hi,
    ;
    crate::arith::lemma_mul_mono(hi - t, al, fl);
    crate::arith::lemma_mul_mono(t - lo, ah, fh);
    assert((hi - lo) * (w * at) >= (hi - t) * (w * al) + (t - lo) * (w * ah)) by (nonlinear_arith)
        requires
            w >= 0,
            (hi - lo) * at >= (hi - t) * al + (t - lo) * ah,
    ;
}

/// No point a whole number of turns away from `e` lies strictly between
/// `lo` and `hi`, which straddle `t`.
pub open spec fn turn_bracket(e: int, lo: int, t: int, hi: int, h: int) -> bool {
    &&& (t - e) % (2 * h) != 0
    &&& turn_below(e, t, h) <= lo
    &&& hi <= turn_below(e, t, h) + 2 * h
}

/// Every breakpoint of the run `rl..=rh` (the signal values under it and
/// the entries next to it) is bracketed by `lo` and `hi`.
pub open spec fn breakpoints_bracketed(
    z: Seq<int>,
    y: Seq<i64>,
    rl: int,
    rh: int,
    lo: int,
    t: int,
    hi: int,
    h: int,
) -> bool {
    &&& forall|q: int| rl <= q <= rh ==> turn_bracket(y[q] as int, lo, t, hi, h)
    &&& rl > 0 ==> turn_bracket(z[rl - 1], lo, t, hi, h)
    &&& rh + 1 < z.len() ==> turn_bracket(z[rh + 1], lo, t, hi, h)
}

/// `w * arc(s, e)` is concave in `s` on a bracket of `e`.
proof fn lemma_bracket_concave(w: int, e: int, h: int, lo: int, t: int, hi: int)
    requires
        h >= 1,
        w >= 0,
        lo < t < hi,
        turn_bracket(e, lo, t, hi, h),
    ensures
        (hi - lo) * (w * arc(t, e, h)) >= (hi - t) * (w * arc(lo, e, h)) + (t - lo) * (w * arc(hi, e, h)),
{
    let k = lemma_turn_below(e, t, h);
    lemma_arc_concave(w, e, h, k, lo, t, hi);
}

/// An angle is at arc distance zero from itself.
proof fn lemma_arc_self(a: int, h: int)
    requires
        h >= 1,
    ensures
        arc(a, a, h) == 0,
{
    lemma_fundamental_div_mod_converse_mod(a - a, 2 * h, 0, 0);
}

/// Moving the run `rl..=rh` to `s` makes each circle step cost concave in
/// `s` on a bracket of all the breakpoints.
proof fn lemma_circ_step_concave(
    z: Seq<int>,
    y: Seq<i64>,
    weights: Option<Seq<i64>>,
    alpha: int,
    half_turn: i64,
    rl: int,
    rh: int,
    lo: int,
    t: int,
    hi: int,
    c: int,
)
    requires
        half_turn >= 1,
        alpha >= 0,
        weights_ok(weights, y.len() as int),
        0 <= rl <= rh < z.len(),
        z.len() == y.len(),
        0 <= c < z.len(),
        lo < t < hi,
        breakpoints_bracketed(z, y, rl, rh, lo, t, hi, half_turn as int),
    ensures
        (hi - lo) * step_cost(set_run(z, rl, rh, t), y, weights, alpha, Metric::Circle(half_turn), c) >= (hi
            - t) * step_cost(set_run(z, rl, rh, lo), y, weights, alpha, Metric::Circle(half_turn), c) + (t - lo)
            * step_cost(set_run(z, rl, rh, hi), y, weights, alpha, Metric::Circle(half_turn), c),
{
    let h = half_turn as int;
    let zt = set_run(z, rl, rh, t);
    let zl = set_run(z, rl, rh, lo);
    let zh = set_run(z, rl, rh, hi);
    let w = weight_at(weights, c);
    assert(w >= 0);
    let dt = w * arc(zt[c], y[c] as int, h);
    let dl = w * arc(zl[c], y[c] as int, h);
    let dh = w * arc(zh[c], y[c] as int, h);
    if rl <= c <= rh {
        lemma_bracket_concave(w, y[c] as int, h, lo, t, hi);
    } else {
        lemma_const_affine(dt, lo, t, hi);
    }
    let et = if c > 0 { alpha * arc(zt[c], zt[c - 1], h) } else { 0 };
    let el = if c > 0 { alpha * arc(zl[c], zl[c - 1], h) } else { 0 };
    let eh = if c > 0 { alpha * arc(zh[c], zh[c - 1], h) } else { 0 };
    if c == 0 {
        lemma_const_affine(0, lo, t, hi);
    } else if rl < c <= rh {
        lemma_arc_self(t, h);
        lemma_arc_self(lo, h);
        lemma_arc_self(hi, h);
        assert(alpha * 0 == 0);
        lemma_const_affine(0, lo, t, hi);
    } else if c == rl {
        lemma_bracket_concave(alpha, z[rl - 1], h, lo, t, hi);
    } else if c == rh + 1 {
        lemma_arc_symmetric(z[rh + 1], t, h);
        lemma_arc_symmetric(z[rh + 1], lo, h);
        lemma_arc_symmetric(z[rh + 1], hi, h);
        lemma_bracket_concave(alpha, z[rh + 1], h, lo, t, hi);
    } else {
        lemma_const_affine(et, lo, t, hi);
    }
    lemma_mul_split(hi - lo, dt, et);
    lemma_mul_split(hi - t, dl, el);
    lemma_mul_split(t - lo, dh, eh);
}

/// Sequences whose entries differ by whole turns, `z1[c] == z2[c] + 2h * ks[c]`,
/// have the same circle objective on every prefix.
proof fn lemma_circ_prefix_turns(
    z1: Seq<int>,
    z2: Seq<int>,
    ks: Seq<int>,
    y: Seq<i64>,
    weights: Option<Seq<i64>>,
    alpha: int,
    half_turn: i64,
    m: int,
)
    requires
        half_turn >= 1,
        z1.len() == z2.len(),
        z1.len() == ks.len(),
        m <= z1.len(),
        forall|c: int| 0 <= c < z1.len() ==> #[trigger] z1[c] == z2[c] + 2 * (half_turn as int) * ks[c],
    ensures
        prefix_cost(z1, y, weights, alpha, Metric::Circle(half_turn), m) == prefix_cost(
            z2,
            y,
            weights,
            alpha,
            Metric::Circle(half_turn),
            m,
        ),
    decreases m,
{
    if m > 0 {
        let h = half_turn as int;
        let c = m - 1;
        lemma_circ_prefix_turns(z1, z2, ks, y, weights, alpha, half_turn, m - 1);
        assert(z1[c] == z2[c] + 2 * h * ks[c]);
        lemma_arc_turns_first(z2[c], y[c] as int, h, ks[c]);
        if c > 0 {
            assert(z1[c - 1] == z2[c - 1] + 2 * h * ks[c - 1]);
            lemma_arc_turns_first(z2[c], z1[c - 1], h, ks[c]);
            lemma_arc_turns(z2[c], z2[c - 1], h, ks[c - 1]);
        }
    }
}

/// The wrapped values of `y`, as a predicate.
pub open spec fn wrapped_values(y: Seq<i64>, h: int) -> spec_fn(int) -> bool {
    |t: int| is_wrapped_value_of(t, y, h)
}

/// Every entry of `z` is a wrapped value of `y`.
pub open spec fn takes_wrapped_values(z: Seq<int>, y: Seq<i64>, h: int) -> bool {
    forall|c: int| 0 <= c < z.len() ==> is_wrapped_value_of(#[trigger] z[c], y, h)
}

/// A maximal run of entries equal to `t`, an angle of the half-open turn
/// that is not a wrapped value of `y`, in a sequence of such angles.
pub open spec fn is_bad_circ_run(z: Seq<int>, y: Seq<i64>, rl: int, rh: int, t: int, h: int) -> bool {
    &&& 0 <= rl <= rh < z.len()
    &&& z.len() == y.len()
    &&& all_in_turn(z, h)
    &&& !is_wrapped_value_of(t, y, h)
    &&& forall|c: int| rl <= c <= rh ==> z[c] == t
    &&& rl > 0 ==> z[rl - 1] != t
    &&& rh + 1 < z.len() ==> z[rh + 1] != t
}

/// No breakpoint of a bad run lies a whole number of turns away from the
/// run's value.
proof fn lemma_circ_breakpoints_avoid(z: Seq<int>, y: Seq<i64>, rl: int, rh: int, t: int, h: int)
    requires
        h >= 1,
        is_bad_circ_run(z, y, rl, rh, t, h),
    ensures
        breakpoints(z, y, rl, rh).len() >= 1,
        forall|i: int|
            0 <= i < breakpoints(z, y, rl, rh).len() ==> (t - #[trigger] breakpoints(z, y, rl, rh)[i]) % (2 * h)
                != 0,
{
    lemma_breakpoints_index(z, y, rl, rh);
    let bp = breakpoints(z, y, rl, rh);
    let nr = rh - rl + 1;
    assert(in_turn(z[rl], h));
    assert forall|i: int| 0 <= i < bp.len() implies (t - #[trigger] bp[i]) % (2 * h) != 0 by {
        if (t - bp[i]) % (2 * h) == 0 {
            lemma_congruent_is_wrapped(t, bp[i], h);
            if i < nr {
                let q = rl + i;
                assert(bp[q - rl] == y[q] as int);
                assert(is_wrapped_value_of(t, y, h));
            } else if rl > 0 && i == nr {
                assert(in_turn(z[rl - 1], h));
                lemma_wrapped_in_turn(z[rl - 1], h);
            } else {
                assert(in_turn(z[rh + 1], h));
                lemma_wrapped_in_turn(z[rh + 1], h);
            }
        }
    }
}

/// Setting the run to `wrapped(e)` costs the same as setting it to any
/// `s` a whole number of turns away from `e`.
proof fn lemma_rewrap_run(
    z: Seq<int>,
    y: Seq<i64>,
    weights: Option<Seq<i64>>,
    alpha: int,
    half_turn: i64,
    rl: int,
    rh: int,
    s: int,
    e: int,
    k: int,
)
    requires
        half_turn >= 1,
        s == e + 2 * (half_turn as int) * k,
    ensures
        l1_tv_circ_cost(set_run(z, rl, rh, wrapped(e, half_turn as int)), y, weights, alpha, half_turn)
            == l1_tv_circ_cost(set_run(z, rl, rh, s), y, weights, alpha, half_turn),
{
    let h = half_turn as int;
    let qb = lemma_wrapped(e, h);
    let z1 = set_run(z, rl, rh, wrapped(e, h));
    let z2 = set_run(z, rl, rh, s);
    let ks = Seq::new(z.len(), |c: int| if rl <= c <= rh { qb - k } else { 0 });
    assert(wrapped(e, h) == s + 2 * h * (qb - k)) by (nonlinear_arith)
        requires
            wrapped(e, h) == e + 2 * h * qb,
            s == e + 2 * h * k,
    ;
    assert forall|c: int| 0 <= c < z1.len() implies #[trigger] z1[c] == z2[c] + 2 * h * ks[c] by {
        if !(rl <= c <= rh) {
            assert(2 * h * 0 == 0);
        }
    }
    lemma_circ_prefix_turns(z1, z2, ks, y, weights, alpha, half_turn, z.len() as int);
}

/// Moving a bad run to the wrapped value of one of its breakpoints does
/// not increase the circle objective. Returns the index of that breakpoint.
proof fn lemma_move_circ_run(
    z: Seq<int>,
    y: Seq<i64>,
    weights: Option<Seq<i64>>,
    alpha: int,
    half_turn: i64,
    rl: int,
    rh: int,
    t: int,
) -> (i: int)
    requires
        half_turn >= 1,
        is_bad_circ_run(z, y, rl, rh, t, half_turn as int),
        alpha >= 0,
        weights_ok(weights, y.len() as int),
    ensures
        0 <= i < breakpoints(z, y, rl, rh).len(),
        l1_tv_circ_cost(
            set_run(z, rl, rh, wrapped(breakpoints(z, y, rl, rh)[i], half_turn as int)),
            y,
            weights,
            alpha,
            half_turn,
        ) <= l1_tv_circ_cost(z, y, weights, alpha, half_turn),
{
    let h = half_turn as int;
    let n = z.len() as int;
    let metric = Metric::Circle(half_turn);
    let bp = breakpoints(z, y, rl, rh);
    let nr = rh - rl + 1;
    lemma_breakpoints_index(z, y, rl, rh);
    lemma_circ_breakpoints_avoid(z, y, rl, rh, t, h);
    let belows = Seq::new(bp.len(), |j: int| turn_below(bp[j], t, h));
    let aboves = Seq::new(bp.len(), |j: int| turn_below(bp[j], t, h) + 2 * h);
    assert forall|j: int| 0 <= j < bp.len() implies #[trigger] belows[j] < t && t < aboves[j] by {
        lemma_turn_below(bp[j], t, h);
    }
    lemma_max_below(belows, t);
    lemma_min_above(aboves, t);
    assert(belows[0] < t && aboves[0] > t);
    let lo = max_below(belows, t)->0;
    let hi = min_above(aboves, t)->0;
    assert(breakpoints_bracketed(z, y, rl, rh, lo, t, hi, h)) by {
        assert forall|q: int| rl <= q <= rh implies turn_bracket(y[q] as int, lo, t, hi, h) by {
            assert(bp[q - rl] == y[q] as int);
            assert(belows[q - rl] < t && t < aboves[q - rl]);
        }
        if rl > 0 {
            assert(belows[nr] < t && t < aboves[nr]);
        }
        if rh + 1 < n {
            let j = nr + (if rl > 0 { 1int } else { 0int });
            assert(belows[j] < t && t < aboves[j]);
        }
    }
    let zt = set_run(z, rl, rh, t);
    let zl = set_run(z, rl, rh, lo);
    let zh = set_run(z, rl, rh, hi);
    assert(zt =~= z);
    assert forall|c: int| 0 <= c < n implies (hi - lo) * #[trigger] step_cost(zt, y, weights, alpha, metric, c)
        >= (hi - t) * step_cost(zl, y, weights, alpha, metric, c) + (t - lo) * step_cost(zh, y, weights, alpha, metric, c) by {
        lemma_circ_step_concave(z, y, weights, alpha, half_turn, rl, rh, lo, t, hi, c);
    }
    lemma_prefix_concave(zt, zl, zh, y, weights, alpha, metric, lo, t, hi, n);
    lemma_average_no_better(
        l1_tv_circ_cost(zt, y, weights, alpha, half_turn),
        l1_tv_circ_cost(zl, y, weights, alpha, half_turn),
        l1_tv_circ_cost(zh, y, weights, alpha, half_turn),
        lo,
        t,
        hi,
    );
    if l1_tv_circ_cost(zl, y, weights, alpha, half_turn) <= l1_tv_circ_cost(zt, y, weights, alpha, half_turn) {
        let j = choose|j: int| 0 <= j < belows.len() && belows[j] == lo;
        let k = lemma_turn_below(bp[j], t, h);
        lemma_rewrap_run(z, y, weights, alpha, half_turn, rl, rh, lo, bp[j], k);
        j
    } else {
        let j = choose|j: int| 0 <= j < aboves.len() && aboves[j] == hi;
        let k = lemma_turn_below(bp[j], t, h);
        assert(hi == bp[j] + 2 * h * (k + 1)) by (nonlinear_arith)
            requires
                hi == turn_below(bp[j], t, h) + 2 * h,
                turn_below(bp[j], t, h) == bp[j] + 2 * h * k,
        ;
        lemma_rewrap_run(z, y, weights, alpha, half_turn, rl, rh, hi, bp[j], k + 1);
        j
    }
}

/// Moving a bad run to the wrapped value of one of its breakpoints keeps
/// every entry in the half-open turn and lowers the disorder: the run
/// either becomes a wrapped signal value or merges with a neighbour.
proof fn lemma_move_circ_run_orders(z: Seq<int>, y: Seq<i64>, rl: int, rh: int, t: int, h: int, i: int)
    requires
        h >= 1,
        is_bad_circ_run(z, y, rl, rh, t, h),
        0 <= i < breakpoints(z, y, rl, rh).len(),
    ensures
        all_in_turn(set_run(z, rl, rh, wrapped(breakpoints(z, y, rl, rh)[i], h)), h),
        disorder(set_run(z, rl, rh, wrapped(breakpoints(z, y, rl, rh)[i], h)), wrapped_values(y, h), z.len() as int)
            < disorder(z, wrapped_values(y, h), z.len() as int),
{
    let n = z.len() as int;
    let bp = breakpoints(z, y, rl, rh);
    let nr = rh - rl + 1;
    let u = wrapped(bp[i], h);
    let z2 = set_run(z, rl, rh, u);
    let good = wrapped_values(y, h);
    lemma_breakpoints_index(z, y, rl, rh);
    lemma_wrapped(bp[i], h);
    assert(all_in_turn(z2, h));
    assert forall|c: int| 0 <= c < n implies #[trigger] disorder_at(z2, good, c) <= disorder_at(z, good, c) by {
        if rl <= c <= rh {
            assert(!good(z[c]));
        }
    }
    if i < nr {
        let q = rl + i;
        assert(bp[q - rl] == y[q] as int);
        assert(good(z2[q]));
        assert(!good(z[q]));
        lemma_disorder_drops(z2, z, good, n, q);
    } else if rl > 0 && i == nr {
        assert(in_turn(z[rl - 1], h));
        lemma_wrapped_in_turn(z[rl - 1], h);
        assert(z2[rl] == z2[rl - 1]);
        lemma_disorder_drops(z2, z, good, n, rl);
    } else {
        assert(rh + 1 < n);
        assert(in_turn(z[rh + 1], h));
        lemma_wrapped_in_turn(z[rh + 1], h);
        assert(z2[rh + 1] == z2[rh]);
        lemma_disorder_drops(z2, z, good, n, rh + 1);
    }
}

/// The candidate-set theorem for sequences of the half-open turn.
proof fn lemma_circ_candidate_in_turn(
    z: Seq<int>,
    y: Seq<i64>,
    weights: Option<Seq<i64>>,
    alpha: int,
    half_turn: i64,
) -> (zc: Seq<int>)
    requires
        half_turn >= 1,
        z.len() == y.len(),
        all_in_turn(z, half_turn as int),
        alpha >= 0,
        weights_ok(weights, y.len() as int),
    ensures
        zc.len() == z.len(),
        takes_wrapped_values(zc, y, half_turn as int),
        l1_tv_circ_cost(zc, y, weights, alpha, half_turn) <= l1_tv_circ_cost(z, y, weights, alpha, half_turn),
    decreases disorder(z, wrapped_values(y, half_turn as int), z.len() as int),
{
    let h = half_turn as int;
    if takes_wrapped_values(z, y, h) {
        z
    } else {
        let n = z.len() as int;
        let p = choose|p: int| 0 <= p < n && !is_wrapped_value_of(#[trigger] z[p], y, h);
        let t = z[p];
        lemma_run_start(z, p);
        lemma_run_end(z, p);
        let rl = run_start(z, p);
        let rh = run_end(z, p);
        assert(is_bad_circ_run(z, y, rl, rh, t, h));
        let i = lemma_move_circ_run(z, y, weights, alpha, half_turn, rl, rh, t);
        lemma_move_circ_run_orders(z, y, rl, rh, t, h, i);
        let z2 = set_run(z, rl, rh, wrapped(breakpoints(z, y, rl, rh)[i], h));
        lemma_disorder_nonneg(z2, wrapped_values(y, h), n);
        lemma_circ_candidate_in_turn(z2, y, weights, alpha, half_turn)
    }
}

/// Candidate-set theorem on the circle: for every integer sequence `z`
/// there is a sequence of the same length taking only wrapped values of
/// `y` whose circle objective is no larger.
pub proof fn lemma_circ_candidate_no_worse(
    z: Seq<int>,
    y: Seq<i64>,
    weights: Option<Seq<i64>>,
    alpha: int,
    half_turn: i64,
) -> (zc: Seq<int>)
    requires
        half_turn >= 1,
        z.len() == y.len(),
        alpha >= 0,
        weights_ok(weights, y.len() as int),
    ensures
        zc.len() == z.len(),
        takes_wrapped_values(zc, y, half_turn as int),
        l1_tv_circ_cost(zc, y, weights, alpha, half_turn) <= l1_tv_circ_cost(z, y, weights, alpha, half_turn),
{
    let h = half_turn as int;
    let zw = Seq::new(z.len(), |c: int| wrapped(z[c], h));
    let ks = Seq::new(z.len(), |c: int| (wrapped(z[c], h) - z[c]) / (2 * h));
    assert forall|c: int| 0 <= c < zw.len() implies #[trigger] zw[c] == z[c] + 2 * h * ks[c] by {
        let q = lemma_wrapped(z[c], h);
        assert(wrapped(z[c], h) - z[c] == q * (2 * h) + 0) by (nonlinear_arith)
            requires
                wrapped(z[c], h) == z[c] + 2 * h * q,
        ;
        lemma_fundamental_div_mod_converse_div(wrapped(z[c], h) - z[c], 2 * h, q, 0);
    }
    assert(all_in_turn(zw, h)) by {
        assert forall|c: int| 0 <= c < zw.len() implies in_turn(#[trigger] zw[c], h) by {
            lemma_wrapped(z[c], h);
        }
    }
    lemma_circ_prefix_turns(zw, z, ks, y, weights, alpha, half_turn, z.len() as int);
    lemma_circ_candidate_in_turn(zw, y, weights, alpha, half_turn)
}

} // verus!
