//! Exact L1-TV solver for circle-valued (phase, orientation) signals.
//!
//! Angles are integers on a circle of `2 * half_turn` units, so `half_turn`
//! units make half a revolution. The solver minimises
//! `alpha * sum_i arc(x[i], x[i-1]) + sum_i w[i] * arc(x[i], y[i])`, with
//! `arc` the shortest-arc distance, by the same dynamic program as on the
//! real line over the candidate set made of the wrapped signal values and
//! their antipodes. The distance transform runs on the grid replicated one
//! turn below and above, where straight-line distance covers the arc
//! distance of the central copy.

use vstd::prelude::*;
use vstd::arithmetic::div_mod::{lemma_fundamental_div_mod, lemma_mod_bound, lemma_mod_multiples_vanish};
use crate::arith::{abs, lemma_mul_mono, lemma_mul_nonneg};
use crate::columns::{
    column_solved,
    is_relaxation,
    lemma_column_step,
    lemma_first_column,
    lemma_last_column,
    path_values,
};
use crate::dist_transform::{below_all_sources, is_sorted, l1_dt_with_argmin, reach_cost, records_nearest_sources, transform_fits};
use crate::circle_path::{
    circle_column_step,
    circle_pointers_follow,
    first_cheapest_copy,
    is_candidate_list,
    is_circle_output,
    is_circle_run,
    is_first_column,
    wrapped_signal,
};
use crate::dp::{argmin, backtrack, lemma_trace_shape, pointers_ok, trace};
use crate::objective::{
    arc,
    cost_ceiling,
    ints,
    is_value_of,
    l1_tv_circ_cost,
    lemma_ceiling_mono,
    lemma_ceiling_step,
    lemma_column_bounds,
    lemma_first_jump,
    lemma_prefix_covers_steps,
    lemma_prefix_nonneg,
    lemma_masked_samples,
    lemma_prefix_zero,
    lemma_slope_exchange,
    lemma_weighted_distance,
    metric_dist,
    prefix_cost,
    step_cost,
    takes_values_of,
    total_variation,
    data_cost,
    lemma_no_weights_are_unit_weights,
    effective_weights,
    lemma_objective_explicit,
    objective_with,
    weight,
    weight_at,
    weights_match,
    weights_ok,
    weights_positive,
    weights_view,
    Metric,
};
use crate::sorting::{sort_ascending, sorted_unique};
use crate::circle_candidates::{
    is_wrapped_value_of,
    lemma_circ_candidate_no_worse,
    lemma_in_turn_same,
    lemma_wrapped_turns,
};

verus! {

/// `a` wrapped into the half-open turn `(-h, h]`.
pub open spec fn wrapped(a: int, h: int) -> int {
    let r = a % (2 * h);
    if r > h {
        r - 2 * h
    } else {
        r
    }
}

/// The antipode of an angle, wrapped into `(-h, h]`.
pub open spec fn antipodal(a: int, h: int) -> int {
    wrapped(a + h, h)
}

/// `t` lies in the half-open turn `(-h, h]`.
pub open spec fn in_turn(t: int, h: int) -> bool {
    -h < t <= h
}

/// `t` is a wrapped value of `y` or the antipode of one.
pub open spec fn is_circle_candidate(t: int, y: Seq<i64>, h: int) -> bool {
    exists|j: int|
        0 <= j < y.len() && (t == wrapped(y[j] as int, h) || t == antipodal(wrapped(y[j] as int, h), h))
}

/// `wrapped(a, h)` lies in `(-h, h]` and differs from `a` by `q` whole turns.
pub proof fn lemma_wrapped(a: int, h: int) -> (q: int)
    requires
        h >= 1,
    ensures
        in_turn(wrapped(a, h), h),
        wrapped(a, h) == a + 2 * h * q,
{
    let m = 2 * h;
    lemma_fundamental_div_mod(a, m);
    lemma_mod_bound(a, m);
    let q = a / m;
    if a % m > h {
        assert(wrapped(a, h) == a + 2 * h * (-q - 1)) by (nonlinear_arith)
            requires
                a == m * q + a % m,
                m == 2 * h,
                wrapped(a, h) == a % m - m,
        ;
        -q - 1
    } else {
        assert(wrapped(a, h) == a + 2 * h * (-q)) by (nonlinear_arith)
            requires
                a == m * q + a % m,
                m == 2 * h,
                wrapped(a, h) == a % m,
        ;
        -q
    }
}

/// Whole turns do not change the arc distance.
pub proof fn lemma_arc_turns(a: int, b: int, h: int, q: int)
    requires
        h >= 1,
    ensures
        arc(a, b + 2 * h * q, h) == arc(a, b, h),
{
    let m = 2 * h;
    assert(a - (b + 2 * h * q) == m * (-q) + (a - b)) by (nonlinear_arith)
        requires
            m == 2 * h,
    ;
    lemma_mod_multiples_vanish(-q, a - b, m);
}

/// The arc distance to a wrapped angle equals the arc distance to the angle.
pub proof fn lemma_arc_wrapped(a: int, b: int, h: int)
    requires
        h >= 1,
    ensures
        arc(a, wrapped(b, h), h) == arc(a, b, h),
{
    let q = lemma_wrapped(b, h);
    lemma_arc_turns(a, b, h, q);
}

/// The arc distance lies in `[0, h]`.
pub proof fn lemma_arc_bounds(a: int, b: int, h: int)
    requires
        h >= 1,
    ensures
        0 <= arc(a, b, h) <= h,
{
    lemma_mod_bound(a - b, 2 * h);
}

/// The arc distance is at most the straight distance after any whole number
/// of turns.
pub proof fn lemma_arc_le_shift(a: int, b: int, h: int, t: int)
    requires
        h >= 1,
    ensures
        arc(a, b, h) <= abs(a - b + 2 * h * t),
{
    let m = 2 * h;
    let e = a - b;
    lemma_fundamental_div_mod(e, m);
    lemma_mod_bound(e, m);
    let q = e / m;
    let r = e % m;
    let s = q + t;
    assert(e + 2 * h * t == m * s + r) by (nonlinear_arith)
        requires
            e == m * q + r,
            m == 2 * h,
            s == q + t,
    ;
    if s >= 0 {
        assert(m * s >= 0) by (nonlinear_arith)
            requires
                m > 0,
                s >= 0,
        ;
    } else {
        assert(m * s <= -m) by (nonlinear_arith)
            requires
                m > 0,
                s <= -1,
        ;
    }
}

/// Between two angles of the half-open turn, one of the shifts by `-1`, `0`
/// or `1` turns realises the arc distance.
pub proof fn lemma_arc_attained(a: int, b: int, h: int) -> (t: int)
    requires
        h >= 1,
        in_turn(a, h),
        in_turn(b, h),
    ensures
        -1 <= t <= 1,
        abs(a - b + 2 * h * t) == arc(a, b, h),
{
    let m = 2 * h;
    let e = a - b;
    if e >= 0 {
        lemma_fundamental_div_mod_converse_mod_at(e, m, 0, e);
        if e <= h {
            assert(2 * h * 0 == 0);
            0
        } else {
            assert(2 * h * -1 == -m);
            -1
        }
    } else {
        lemma_fundamental_div_mod_converse_mod_at(e, m, -1, e + m);
        if -e <= h {
            assert(2 * h * 0 == 0);
            0
        } else {
            assert(2 * h * 1 == m);
            1
        }
    }
}

/// `x % d == r` whenever `x == q * d + r` with `0 <= r < d`.
proof fn lemma_fundamental_div_mod_converse_mod_at(x: int, d: int, q: int, r: int)
    requires
        d > 0,
        0 <= r < d,
        x == q * d + r,
    ensures
        x % d == r,
{
    vstd::arithmetic::div_mod::lemma_fundamental_div_mod_converse_mod(x, d, q, r);
}

/// For two angles of the half-open turn the arc distance is the smaller of
/// their straight distance and its complement to a full turn.
pub proof fn lemma_arc_in_turn(a: int, b: int, h: int)
    requires
        h >= 1,
        in_turn(a, h),
        in_turn(b, h),
    ensures
        arc(a, b, h) == if abs(a - b) <= 2 * h - abs(a - b) {
            abs(a - b)
        } else {
            2 * h - abs(a - b)
        },
{
    let m = 2 * h;
    let e = a - b;
    if e >= 0 {
        lemma_fundamental_div_mod_converse_mod_at(e, m, 0, e);
    } else {
        lemma_fundamental_div_mod_converse_mod_at(e, m, -1, e + m);
    }
}

/// Wraps an angle into the half-open turn `(-half_turn, half_turn]`.
pub fn wrap_angle(a: i64, half_turn: i64) -> (w: i64)
    requires
        1 <= half_turn <= i64::MAX / 2,
    ensures
        w == wrapped(a as int, half_turn as int),
        in_turn(w as int, half_turn as int),
{
    proof {
        lemma_wrapped(a as int, half_turn as int);
        lemma_mod_bound(a as int, 2 * half_turn);
    }
    let turn = 2 * half_turn;
    let r = match a.checked_rem_euclid(turn) {
        Some(r) => r,
        None => 0,
    };
    if r > half_turn {
        r - turn
    } else {
        r
    }
}

/// The antipodal point of an angle, wrapped into the half-open turn.
pub fn antipode(a: i64, half_turn: i64) -> (p: i64)
    requires
        1 <= half_turn <= i64::MAX / 2,
    ensures
        p == antipodal(a as int, half_turn as int),
        in_turn(p as int, half_turn as int),
{
    let w = wrap_angle(a, half_turn);
    proof {
        let q = lemma_wrapped(a as int, half_turn as int);
        assert(w + half_turn == (a + half_turn) + 2 * half_turn * q);
        lemma_wrapped_turns(w + half_turn, a + half_turn, half_turn as int, q);
    }
    wrap_angle(w + half_turn, half_turn)
}

/// Shortest-arc distance between two angles of the half-open turn.
pub fn arc_distance(phi: i64, psi: i64, half_turn: i64) -> (d: i64)
    requires
        1 <= half_turn <= i64::MAX / 2,
        in_turn(phi as int, half_turn as int),
        in_turn(psi as int, half_turn as int),
    ensures
        d == arc(phi as int, psi as int, half_turn as int),
{
    proof {
        lemma_arc_in_turn(phi as int, psi as int, half_turn as int);
    }
    let d = if phi < psi {
        psi - phi
    } else {
        phi - psi
    };
    let other = 2 * half_turn - d;
    if d <= other {
        d
    } else {
        other
    }
}


/// `t` is the antipode of a value of `y`.
pub open spec fn is_antipode_of_value(t: int, y: Seq<i64>, h: int) -> bool {
    exists|j: int| 0 <= j < y.len() && t == antipodal(y[j] as int, h)
}

/// Two angles of the half-open turn with the same antipode are equal.
proof fn lemma_antipode_injective(a: int, b: int, h: int)
    requires
        h >= 1,
        in_turn(a, h),
        in_turn(b, h),
        antipodal(a, h) == antipodal(b, h),
    ensures
        a == b,
{
    let qa = lemma_wrapped(a + h, h);
    let qb = lemma_wrapped(b + h, h);
    assert(a == b + 2 * h * (qb - qa)) by (nonlinear_arith)
        requires
            a + h + 2 * h * qa == b + h + 2 * h * qb,
    ;
    lemma_in_turn_same(a, b, h, qb - qa);
}

/// In a sequence without duplicates every value occurs at most once.
proof fn lemma_count_no_duplicates(s: Seq<i64>, t: i64)
    requires
        s.no_duplicates(),
    ensures
        s.to_multiset().count(t) == if s.contains(t) { 1nat } else { 0nat },
{
    broadcast use vstd::seq_lib::group_to_multiset_ensures;

    s.lemma_multiset_has_no_duplicates();
}

/// The sorted candidate set: the distinct values of `y_ang` together with
/// their antipodes (the antipodes are not deduplicated against the values,
/// so an angle that is both a value and an antipode occurs twice).
pub fn build_candidates(y_ang: &[i64], half_turn: i64) -> (v: Vec<i64>)
    requires
        1 <= half_turn <= i64::MAX / 2,
        forall|j: int| 0 <= j < y_ang@.len() ==> in_turn(#[trigger] y_ang@[j] as int, half_turn as int),
    ensures
        is_sorted(v@),
        v@.len() <= 2 * y_ang@.len(),
        y_ang@.len() >= 1 ==> 2 <= v@.len(),
        forall|i: int| 0 <= i < v@.len() ==> in_turn(#[trigger] v@[i] as int, half_turn as int),
        forall|t: i64|
            v@.contains(t) <==> exists|j: int|
                0 <= j < y_ang@.len() && (t == #[trigger] y_ang@[j] || t as int == antipodal(
                    y_ang@[j] as int,
                    half_turn as int,
                )),
        forall|t: i64|
            #[trigger] v@.to_multiset().count(t) == (if y_ang@.contains(t) { 1nat } else { 0nat }) + (if is_antipode_of_value(
                t as int,
                y_ang@,
                half_turn as int,
            ) {
                1nat
            } else {
                0nat
            }),
{
    broadcast use vstd::seq_lib::group_to_multiset_ensures;

    let unique = sorted_unique(y_ang);
    let nu = unique.len();
    proof {
        if y_ang@.len() >= 1 {
            assert(y_ang@.contains(y_ang@[0]));
        }
        assert forall|i: int| 0 <= i < nu implies in_turn(#[trigger] unique@[i] as int, half_turn as int) by {
            assert(unique@.contains(unique@[i]));
            let j = choose|j: int| 0 <= j < y_ang@.len() && y_ang@[j] == unique@[i];
        }
    }
    let mut v: Vec<i64> = Vec::new();
    let mut i: usize = 0;
    while i < nu
        invariant
            nu == unique@.len(),
            i <= nu,
            v@ == unique@.take(i as int),
        decreases nu - i,
    {
        v.push(unique[i]);
        i += 1;
        proof {
            assert(v@ =~= unique@.take(i as int));
        }
    }
    let mut i: usize = 0;
    while i < nu
        invariant
            nu == unique@.len(),
            nu <= y_ang@.len(),
            1 <= half_turn <= i64::MAX / 2,
            forall|q: int| 0 <= q < nu ==> in_turn(#[trigger] unique@[q] as int, half_turn as int),
            i <= nu,
            v@.len() == nu + i,
            forall|q: int| 0 <= q < nu ==> #[trigger] v@[q] == unique@[q],
            forall|q: int| 0 <= q < i ==> #[trigger] v@[nu + q] as int == antipodal(unique@[q] as int, half_turn as int),
        decreases nu - i,
    {
        let p = antipode(unique[i], half_turn);
        v.push(p);
        i += 1;
    }
    let ghost before = v@;
    proof {
        let h = half_turn as int;
        let antis = before.subrange(nu as int, 2 * nu as int);
        assert(before =~= unique@ + antis);
        assert forall|q: int| 0 <= q < nu implies #[trigger] antis[q] as int == antipodal(unique@[q] as int, h) by {
            assert(before[nu + q] as int == antipodal(unique@[q] as int, h));
        }
        assert(unique@.no_duplicates());
        assert(antis.no_duplicates()) by {
            assert forall|i: int, j: int| 0 <= i < nu && 0 <= j < nu && i != j implies antis[i] != antis[j] by {
                if antis[i] == antis[j] {
                    lemma_antipode_injective(unique@[i] as int, unique@[j] as int, h);
                }
            }
        }
        vstd::seq_lib::lemma_multiset_commutative(unique@, antis);
        assert forall|t: i64|
            #[trigger] before.to_multiset().count(t) == (if y_ang@.contains(t) { 1nat } else { 0nat }) + (if is_antipode_of_value(
                t as int,
                y_ang@,
                h,
            ) {
                1nat
            } else {
                0nat
            }) by {
            lemma_count_no_duplicates(unique@, t);
            lemma_count_no_duplicates(antis, t);
            if antis.contains(t) {
                let q = choose|q: int| 0 <= q < antis.len() && antis[q] == t;
                assert(unique@.contains(unique@[q]));
                let j = choose|j: int| 0 <= j < y_ang@.len() && y_ang@[j] == unique@[q];
                assert(t as int == antipodal(y_ang@[j] as int, h));
            }
            if is_antipode_of_value(t as int, y_ang@, h) {
                let j = choose|j: int| 0 <= j < y_ang@.len() && t as int == antipodal(y_ang@[j] as int, h);
                assert(y_ang@.contains(y_ang@[j]));
                let u = choose|u: int| 0 <= u < nu && unique@[u] == y_ang@[j];
                assert(antis[u] as int == t as int);
            }
        }
    }
    sort_ascending(&mut v);
    proof {
        assert forall|t: i64| v@.contains(t) <==> before.contains(t) by {
            assert(v@.contains(t) <==> v@.to_multiset().count(t) > 0);
            assert(before.contains(t) <==> before.to_multiset().count(t) > 0);
        }
        assert(v@.len() == v@.to_multiset().len());
        assert(before.len() == before.to_multiset().len());
        if nu >= 1 {
            assert(unique@.contains(unique@[0]));
        }
        assert forall|i: int| 0 <= i < v@.len() implies in_turn(#[trigger] v@[i] as int, half_turn as int) by {
            assert(v@.contains(v@[i]));
            assert(before.contains(v@[i]));
            let q = choose|q: int| 0 <= q < before.len() && before[q] == v@[i];
            if q < nu {
                assert(before[q] == unique@[q]);
            } else {
                assert(before[nu + (q - nu)] as int == antipodal(unique@[q - nu] as int, half_turn as int));
                lemma_wrapped(unique@[q - nu] + half_turn, half_turn as int);
            }
        }
        assert forall|t: i64|
            v@.contains(t) implies exists|j: int|
                0 <= j < y_ang@.len() && (t == #[trigger] y_ang@[j] || t as int == antipodal(
                    y_ang@[j] as int,
                    half_turn as int,
                )) by {
            assert(before.contains(t));
            let q = choose|q: int| 0 <= q < before.len() && before[q] == t;
            let u = if q < nu { q } else { q - nu };
            assert(unique@.contains(unique@[u]));
            let j = choose|j: int| 0 <= j < y_ang@.len() && y_ang@[j] == unique@[u];
            if q >= nu {
                assert(before[nu + (q - nu)] as int == antipodal(unique@[q - nu] as int, half_turn as int));
            }
        }
        assert forall|t: i64|
            (exists|j: int|
                0 <= j < y_ang@.len() && (t == #[trigger] y_ang@[j] || t as int == antipodal(
                    y_ang@[j] as int,
                    half_turn as int,
                ))) implies v@.contains(t) by {
            let j = choose|j: int|
                0 <= j < y_ang@.len() && (t == #[trigger] y_ang@[j] || t as int == antipodal(
                    y_ang@[j] as int,
                    half_turn as int,
                ));
            assert(y_ang@.contains(y_ang@[j]));
            assert(unique@.contains(y_ang@[j]));
            let u = choose|u: int| 0 <= u < nu && unique@[u] == y_ang@[j];
            if t == y_ang@[j] {
                assert(before[u] == t);
            } else {
                assert(before[nu + u] as int == antipodal(unique@[u] as int, half_turn as int));
                assert(before[nu + u] == t);
            }
            assert(before.contains(t));
        }
    }
    v
}


/// `rep` is the candidate grid repeated one turn below, in place and one
/// turn above.
pub open spec fn is_turn_replica(rep: Seq<i64>, v: Seq<i64>, h: int) -> bool {
    &&& rep.len() == 3 * v.len()
    &&& forall|j: int|
        #![trigger v[j]]
        0 <= j < v.len() ==> {
            &&& rep[j] == v[j] - 2 * h
            &&& rep[v.len() + j] == v[j]
            &&& rep[2 * v.len() + j] == v[j] + 2 * h
        }
}

/// `b_rep` is `b` three times over.
pub open spec fn is_triplicate(b_rep: Seq<i64>, b: Seq<i64>) -> bool {
    &&& b_rep.len() == 3 * b.len()
    &&& forall|j: int|
        #![trigger b[j]]
        0 <= j < b.len() ==> {
            &&& b_rep[j] == b[j]
            &&& b_rep[b.len() + j] == b[j]
            &&& b_rep[2 * b.len() + j] == b[j]
        }
}

/// The replicated grid is sorted: its three copies do not overlap.
proof fn lemma_replica_sorted(rep: Seq<i64>, v: Seq<i64>, h: int)
    requires
        h >= 1,
        v.len() >= 1,
        is_sorted(v),
        forall|i: int| 0 <= i < v.len() ==> in_turn(#[trigger] v[i] as int, h),
        is_turn_replica(rep, v, h),
    ensures
        is_sorted(rep),
        rep[rep.len() - 1] - rep[0] <= 6 * h,
{
    let k = v.len() as int;
    assert forall|p: int, q: int| 0 <= p <= q < rep.len() implies rep[p] <= rep[q] by {
        let (bp, i) = if p < k { (0int, p) } else if p < 2 * k { (1int, p - k) } else { (2int, p - 2 * k) };
        let (bq, j) = if q < k { (0int, q) } else if q < 2 * k { (1int, q - k) } else { (2int, q - 2 * k) };
        assert(in_turn(v[i] as int, h) && in_turn(v[j] as int, h));
        assert(v[i] == v[i] && v[j] == v[j]);
        if bp == bq {
            assert(v[i] <= v[j]);
        }
    }
    assert(in_turn(v[0] as int, h) && in_turn(v[k - 1] as int, h));
    assert(rep[rep.len() - 1] == rep[2 * k + (k - 1)]);
}

/// Reaching copy `bp` of candidate `i` from any replicated source costs at
/// least the arc-distance reach from the source's candidate.
proof fn lemma_replica_reach(
    b_rep: Seq<i64>,
    rep: Seq<i64>,
    b: Seq<i64>,
    v: Seq<i64>,
    a: int,
    h: int,
    bp: int,
    i: int,
    q: int,
)
    requires
        a >= 0,
        h >= 1,
        b.len() == v.len(),
        is_turn_replica(rep, v, h),
        is_triplicate(b_rep, b),
        0 <= bp <= 2,
        0 <= i < v.len(),
        0 <= q < 3 * v.len(),
    ensures
        0 <= q % (v.len() as int) < v.len(),
        reach_cost(b_rep, rep, a, bp * v.len() + i, q) >= b[q % (v.len() as int)] + a * arc(
            v[i] as int,
            v[q % (v.len() as int)] as int,
            h,
        ),
{
    let k = v.len() as int;
    let (bq, j) = if q < k { (0int, q) } else if q < 2 * k { (1int, q - k) } else { (2int, q - 2 * k) };
    lemma_fundamental_div_mod_converse_mod_at(q, k, bq, j);
    assert(v[i] == v[i] && v[j] == v[j] && b[j] == b[j]);
    let p = bp * k + i;
    assert(rep[p] == v[i] + 2 * h * (bp - 1)) by {
        if bp == 0 {
        } else if bp == 1 {
        } else {
        }
    }
    assert(rep[q] == v[j] + 2 * h * (bq - 1));
    assert(rep[p] - rep[q] == v[i] - v[j] + 2 * h * (bp - bq)) by (nonlinear_arith)
        requires
            rep[p] == v[i] + 2 * h * (bp - 1),
            rep[q] == v[j] + 2 * h * (bq - 1),
    ;
    lemma_arc_le_shift(v[i] as int, v[j] as int, h, bp - bq);
    lemma_mul_mono(a, arc(v[i] as int, v[j] as int, h), abs(rep[p] - rep[q]));
}

/// From the central copy of candidate `i`, some replicated source of
/// candidate `j` is reached at exactly the arc-distance cost.
proof fn lemma_replica_attains(
    b_rep: Seq<i64>,
    rep: Seq<i64>,
    b: Seq<i64>,
    v: Seq<i64>,
    a: int,
    h: int,
    i: int,
    j: int,
) -> (q: int)
    requires
        h >= 1,
        b.len() == v.len(),
        is_turn_replica(rep, v, h),
        is_triplicate(b_rep, b),
        forall|c: int| 0 <= c < v.len() ==> in_turn(#[trigger] v[c] as int, h),
        0 <= i < v.len(),
        0 <= j < v.len(),
    ensures
        0 <= q < 3 * v.len(),
        reach_cost(b_rep, rep, a, v.len() + i, q) == b[j] + a * arc(v[i] as int, v[j] as int, h),
{
    let k = v.len() as int;
    assert(in_turn(v[i] as int, h) && in_turn(v[j] as int, h));
    assert(b[j] == b[j] && v[i] == v[i]);
    let t = lemma_arc_attained(v[i] as int, v[j] as int, h);
    assert(rep[k + i] == v[i]);
    if t == -1 {
        assert(rep[2 * k + j] == v[j] + 2 * h);
        assert(2 * h * t == -2 * h) by (nonlinear_arith)
            requires
                t == -1,
        ;
        2 * k + j
    } else if t == 0 {
        assert(rep[k + j] == v[j]);
        assert(2 * h * t == 0);
        k + j
    } else {
        assert(rep[j] == v[j] - 2 * h);
        assert(2 * h * t == 2 * h);
        j
    }
}

/// The circle transition from one column to the next: `mid[i]` is the
/// cheapest way to reach candidate `v[i]` from any candidate of the
/// previous column along the shorter arc, `am[i]` a candidate that attains
/// it. With `use_dist_transform` the distance transform runs on the
/// replicated grid `v_rep` and the cheapest of the three copies of each
/// candidate is taken; otherwise a quadratic scan over all pairs.
fn relax_circle_column(
    b_prev: &Vec<i64>,
    v: &Vec<i64>,
    v_rep: &Vec<i64>,
    alpha: i64,
    half_turn: i64,
    use_dist_transform: bool,
) -> (res: (Vec<i64>, Vec<u32>))
    requires
        v@.len() >= 1,
        3 * v@.len() <= u32::MAX + 1,
        b_prev@.len() == v@.len(),
        1 <= half_turn,
        6 * half_turn <= i64::MAX,
        alpha >= 0,
        is_sorted(v@),
        forall|i: int| 0 <= i < v@.len() ==> in_turn(#[trigger] v@[i] as int, half_turn as int),
        is_turn_replica(v_rep@, v@, half_turn as int),
        alpha * (6 * half_turn) <= i64::MAX,
        forall|j: int| 0 <= j < v@.len() ==> #[trigger] b_prev@[j] + alpha * (6 * half_turn) <= i64::MAX,
    ensures
        is_relaxation(res.0@, res.1@, b_prev@, v@, alpha as int, Metric::Circle(half_turn)),
        circle_pointers_follow(res.0@, res.1@, b_prev@, v@, alpha as int, half_turn as int, use_dist_transform),
{
    let k = v.len();
    let ghost a = alpha as int;
    let ghost h = half_turn as int;
    let mut mid: Vec<i64> = Vec::new();
    let mut am: Vec<u32> = Vec::new();
    proof {
        lemma_mul_nonneg(a, 6 * h);
    }
    if use_dist_transform {
        let mut b_rep: Vec<i64> = Vec::new();
        let mut copy: usize = 0;
        while copy < 3
            invariant
                k == v@.len(),
                k == b_prev@.len(),
                copy <= 3,
                b_rep@.len() == copy * k,
                forall|c: int, j: int|
                    0 <= c < copy && 0 <= j < k ==> #[trigger] b_rep@[c * k + j] == b_prev@[j],
            decreases 3 - copy,
        {
            let mut j: usize = 0;
            while j < k
                invariant
                    k == v@.len(),
                    k == b_prev@.len(),
                    copy < 3,
                    j <= k,
                    b_rep@.len() == copy * k + j,
                    forall|c: int, q: int|
                        0 <= c < copy && 0 <= q < k ==> #[trigger] b_rep@[c * k + q] == b_prev@[q],
                    forall|q: int| 0 <= q < j ==> #[trigger] b_rep@[copy * k + q] == b_prev@[q],
                decreases k - j,
            {
                proof {
                    assert(b_rep@.len() == copy * k + j);
                }
                b_rep.push(b_prev[j]);
                proof {
                    assert forall|c: int, q: int| 0 <= c < copy && 0 <= q < k implies #[trigger] b_rep@[c * k + q]
                        == b_prev@[q] by {
                        assert(c * k + q < copy * k) by (nonlinear_arith)
                            requires
                                0 <= c < copy,
                                0 <= q < k,
                        ;
                    }
                }
                j += 1;
            }
            proof {
                assert forall|c: int, q: int| 0 <= c < copy + 1 && 0 <= q < k implies #[trigger] b_rep@[c * k + q]
                    == b_prev@[q] by {
                    if c == copy {
                        assert(b_rep@[copy * k + q] == b_prev@[q]);
                    }
                }
                assert((copy + 1) * k == copy * k + k) by (nonlinear_arith);
            }
            copy += 1;
        }
        proof {
            assert forall|j: int| 0 <= j < k implies #[trigger] b_prev@[j] == b_prev@[j] && b_rep@[j] == b_prev@[j]
                && b_rep@[k + j] == b_prev@[j] && b_rep@[2 * k + j] == b_prev@[j] by {
                assert(b_rep@[0 * k + j] == b_prev@[j]);
                assert(b_rep@[1 * k + j] == b_prev@[j]);
                assert(b_rep@[2 * k + j] == b_prev@[j]);
            }
            assert(is_triplicate(b_rep@, b_prev@));
        }
        let mut am_rep: Vec<u32> = Vec::new();
        let mut q: usize = 0;
        while q < 3 * k
            invariant
                k == v@.len(),
                3 * k <= u32::MAX + 1,
                q <= 3 * k,
                am_rep@.len() == q,
            decreases 3 * k - q,
        {
            am_rep.push(0);
            q += 1;
        }
        let ghost b_rep0 = b_rep@;
        proof {
            lemma_replica_sorted(v_rep@, v@, h);
            let span = v_rep@[3 * k - 1] - v_rep@[0];
            assert(span >= 0);
            lemma_mul_mono(a, span, 6 * h);
            assert(a * span <= a * (6 * h));
            assert forall|p: int| 0 <= p < b_rep0.len() implies b_rep0[p] + a * span <= i64::MAX by {
                let j = if p < k { p } else if p < 2 * k { p - k } else { p - 2 * k };
                assert(b_prev@[j] == b_prev@[j]);
                assert(b_rep0[p] == b_prev@[j]);
                assert(b_prev@[j] + alpha * (6 * half_turn) <= i64::MAX);
            }
            assert(transform_fits(b_rep0, v_rep@, a));
        }
        l1_dt_with_argmin(b_rep.as_mut_slice(), v_rep.as_slice(), alpha, am_rep.as_mut_slice());
        let mut i: usize = 0;
        while i < k
            invariant
                k == v@.len(),
                k == b_prev@.len(),
                3 * k <= u32::MAX + 1,
                i <= k,
                a == alpha,
                alpha >= 0,
                h == half_turn,
                h >= 1,
                is_turn_replica(v_rep@, v@, h),
                is_triplicate(b_rep0, b_prev@),
                forall|c: int| 0 <= c < k ==> in_turn(#[trigger] v@[c] as int, h),
                b_rep@.len() == 3 * k,
                am_rep@.len() == 3 * k,
                forall|p: int|
                    0 <= p < 3 * k ==> {
                        &&& (#[trigger] am_rep@[p]) < 3 * k
                        &&& b_rep@[p] == reach_cost(b_rep0, v_rep@, a, p, am_rep@[p] as int)
                        &&& below_all_sources(b_rep@[p] as int, b_rep0, v_rep@, a, p)
                    },
                records_nearest_sources(b_rep@, am_rep@, b_rep0, v_rep@, a),
                forall|p: int|
                    0 <= p < i ==> #[trigger] am@[p] as int == am_rep@[first_cheapest_copy(b_rep@, k as int, p)] as int
                        % (k as int),
                mid@.len() == i,
                am@.len() == i,
                forall|p: int|
                    0 <= p < i ==> {
                        &&& (#[trigger] am@[p]) < k
                        &&& mid@[p] == b_prev@[am@[p] as int] + a * arc(v@[p] as int, v@[am@[p] as int] as int, h)
                    },
                forall|p: int, j: int|
                    0 <= p < i && 0 <= j < k ==> #[trigger] mid@[p] <= b_prev@[j] + a * arc(
                        v@[p] as int,
                        #[trigger] v@[j] as int,
                        h,
                    ),
            decreases k - i,
        {
            let mut best = b_rep[i];
            let mut win = i;
            if b_rep[k + i] < best {
                best = b_rep[k + i];
                win = k + i;
            }
            if b_rep[2 * k + i] < best {
                best = b_rep[2 * k + i];
                win = 2 * k + i;
            }
            let src = (am_rep[win] as usize) % k;
            proof {
                assert(win == first_cheapest_copy(b_rep@, k as int, i as int));
                let q = am_rep@[win as int] as int;
                assert(am_rep@[win as int] < 3 * k);
                let bw = if win == i { 0int } else if win == k + i { 1int } else { 2int };
                assert(win == bw * k + i);
                lemma_replica_reach(b_rep0, v_rep@, b_prev@, v@, a, h, bw, i as int, q);
                assert(src as int == q % (k as int));
                assert(am_rep@[k + i] < 3 * k);
                assert forall|j: int| 0 <= j < k implies best <= b_prev@[j] + a * arc(
                    v@[i as int] as int,
                    #[trigger] v@[j] as int,
                    h,
                ) by {
                    let qj = lemma_replica_attains(b_rep0, v_rep@, b_prev@, v@, a, h, i as int, j);
                    assert(below_all_sources(b_rep@[k + i] as int, b_rep0, v_rep@, a, k + i));
                    assert(b_rep@[k + i] <= reach_cost(b_rep0, v_rep@, a, k + i, qj));
                }
                assert(best <= b_prev@[src as int] + a * arc(v@[i as int] as int, v@[src as int] as int, h));
            }
            mid.push(best);
            am.push(src as u32);
            i += 1;
        }
        proof {
            assert(b_rep0 =~= b_prev@ + b_prev@ + b_prev@) by {
                assert forall|p: int| 0 <= p < 3 * k implies b_rep0[p] == (b_prev@ + b_prev@ + b_prev@)[p] by {
                    let j = if p < k { p } else if p < 2 * k { p - k } else { p - 2 * k };
                    assert(b_prev@[j] == b_prev@[j]);
                }
            }
            assert(is_turn_replica(v_rep@, v@, h));
            assert(records_nearest_sources(b_rep@, am_rep@, b_prev@ + b_prev@ + b_prev@, v_rep@, a));
        }
    } else {
        let mut i: usize = 0;
        while i < k
            invariant
                k == v@.len(),
                k == b_prev@.len(),
                1 <= k <= u32::MAX + 1,
                a == alpha,
                alpha >= 0,
                h == half_turn,
                1 <= h,
                6 * h <= i64::MAX,
                alpha * (6 * half_turn) <= i64::MAX,
                forall|c: int| 0 <= c < k ==> in_turn(#[trigger] v@[c] as int, h),
                forall|j: int| 0 <= j < k ==> #[trigger] b_prev@[j] + alpha * (6 * half_turn) <= i64::MAX,
                mid@.len() == i,
                am@.len() == i,
                i <= k,
                forall|p: int|
                    0 <= p < i ==> {
                        &&& (#[trigger] am@[p]) < k
                        &&& mid@[p] == b_prev@[am@[p] as int] + a * arc(v@[p] as int, v@[am@[p] as int] as int, h)
                    },
                forall|p: int, j: int|
                    0 <= p < i && 0 <= j < k ==> #[trigger] mid@[p] <= b_prev@[j] + a * arc(
                        v@[p] as int,
                        #[trigger] v@[j] as int,
                        h,
                    ),
                forall|p: int, j: int|
                    0 <= p < i && 0 <= j < am@[p] ==> #[trigger] mid@[p] < b_prev@[j] + a * arc(
                        v@[p] as int,
                        #[trigger] v@[j] as int,
                        h,
                    ),
            decreases k - i,
        {
            proof {
                assert(in_turn(v@[i as int] as int, h) && in_turn(v@[0] as int, h));
                lemma_arc_bounds(v@[i as int] as int, v@[0] as int, h);
                lemma_mul_mono(a, arc(v@[i as int] as int, v@[0] as int, h), 6 * h);
                lemma_mul_nonneg(a, arc(v@[i as int] as int, v@[0] as int, h));
                assert(b_prev@[0] + alpha * (6 * half_turn) <= i64::MAX);
            }
            let mut best = b_prev[0] + alpha * arc_distance(v[i], v[0], half_turn);
            let mut best_j: usize = 0;
            let mut j: usize = 1;
            while j < k
                invariant
                    k == v@.len(),
                    k == b_prev@.len(),
                    1 <= j <= k,
                    i < k,
                    a == alpha,
                    alpha >= 0,
                    h == half_turn,
                    1 <= h,
                    6 * h <= i64::MAX,
                    alpha * (6 * half_turn) <= i64::MAX,
                    forall|c: int| 0 <= c < k ==> in_turn(#[trigger] v@[c] as int, h),
                    forall|q: int| 0 <= q < k ==> #[trigger] b_prev@[q] + alpha * (6 * half_turn) <= i64::MAX,
                    best_j < j,
                    best == b_prev@[best_j as int] + a * arc(v@[i as int] as int, v@[best_j as int] as int, h),
                    forall|q: int|
                        0 <= q < j ==> best <= b_prev@[q] + a * arc(v@[i as int] as int, #[trigger] v@[q] as int, h),
                    forall|q: int|
                        0 <= q < best_j ==> best < b_prev@[q] + a * arc(v@[i as int] as int, #[trigger] v@[q] as int, h),
                decreases k - j,
            {
                proof {
                    assert(in_turn(v@[i as int] as int, h) && in_turn(v@[j as int] as int, h));
                    lemma_arc_bounds(v@[i as int] as int, v@[j as int] as int, h);
                    lemma_mul_mono(a, arc(v@[i as int] as int, v@[j as int] as int, h), 6 * h);
                    lemma_mul_nonneg(a, arc(v@[i as int] as int, v@[j as int] as int, h));
                    assert(b_prev@[j as int] + alpha * (6 * half_turn) <= i64::MAX);
                }
                let cand = b_prev[j] + alpha * arc_distance(v[i], v[j], half_turn);
                if cand < best {
                    best = cand;
                    best_j = j;
                }
                j += 1;
            }
            mid.push(best);
            am.push(best_j as u32);
            i += 1;
        }
    }
    proof {
        assert forall|i: int| 0 <= i < k implies (#[trigger] am@[i]) < k && mid@[i] == b_prev@[am@[i] as int] + a
            * metric_dist(Metric::Circle(half_turn), v@[i] as int, v@[am@[i] as int] as int) by {}
        assert forall|i: int, j: int| 0 <= i < k && 0 <= j < k implies #[trigger] mid@[i] <= b_prev@[j] + a
            * metric_dist(Metric::Circle(half_turn), v@[i] as int, #[trigger] v@[j] as int) by {}
    }
    (mid, am)
}


/// Every entry of `z` is a circle candidate of `y`.
pub open spec fn takes_circle_candidates(z: Seq<int>, y: Seq<i64>, h: int) -> bool {
    forall|c: int| 0 <= c < z.len() ==> is_circle_candidate(#[trigger] z[c], y, h)
}

/// The arithmetic of the circle solver fits in `i64`: the replicated grid
/// spans less than six half turns, and every partial objective plus the
/// slope times that span fits.
pub open spec fn circle_fits(weights: Option<Seq<i64>>, alpha: int, half_turn: int, n: int) -> bool {
    &&& 1 <= half_turn
    &&& 6 * half_turn <= i64::MAX
    &&& cost_ceiling(weights, alpha, half_turn, n) + alpha * (6 * half_turn) <= i64::MAX
}

/// `x` takes circle candidates of `y` and minimises the circle objective
/// among all sequences that do.
pub open spec fn is_circ_candidate_minimiser(
    x: Seq<int>,
    y: Seq<i64>,
    weights: Option<Seq<i64>>,
    alpha: int,
    half_turn: i64,
) -> bool {
    &&& x.len() == y.len()
    &&& takes_circle_candidates(x, y, half_turn as int)
    &&& forall|z: Seq<int>|
        z.len() == y.len() && takes_circle_candidates(z, y, half_turn as int) ==> l1_tv_circ_cost(
            x,
            y,
            weights,
            alpha,
            half_turn,
        ) <= #[trigger] l1_tv_circ_cost(z, y, weights, alpha, half_turn)
}

/// `x` minimises the circle objective over all integer sequences.
pub open spec fn is_l1_tv_circ_minimiser(
    x: Seq<int>,
    y: Seq<i64>,
    weights: Option<Seq<i64>>,
    alpha: int,
    half_turn: i64,
) -> bool {
    &&& x.len() == y.len()
    &&& forall|z: Seq<int>|
        z.len() == y.len() ==> l1_tv_circ_cost(x, y, weights, alpha, half_turn) <= #[trigger] l1_tv_circ_cost(
            z,
            y,
            weights,
            alpha,
            half_turn,
        )
}

/// With non-negative weights, a sequence that is no worse than any
/// sequence of circle candidates is no worse than any integer sequence.
proof fn lemma_circ_global_optimum(
    x: Seq<int>,
    y: Seq<i64>,
    weights: Option<Seq<i64>>,
    alpha: int,
    half_turn: i64,
)
    requires
        half_turn >= 1,
        x.len() == y.len(),
        alpha >= 0,
        weights_ok(weights, y.len() as int),
        forall|z: Seq<int>|
            z.len() == y.len() && takes_circle_candidates(z, y, half_turn as int) ==> l1_tv_circ_cost(
                x,
                y,
                weights,
                alpha,
                half_turn,
            ) <= #[trigger] l1_tv_circ_cost(z, y, weights, alpha, half_turn),
    ensures
        is_l1_tv_circ_minimiser(x, y, weights, alpha, half_turn),
{
    let h = half_turn as int;
    assert forall|z: Seq<int>| z.len() == y.len() implies l1_tv_circ_cost(x, y, weights, alpha, half_turn)
        <= #[trigger] l1_tv_circ_cost(z, y, weights, alpha, half_turn) by {
        let zc = lemma_circ_candidate_no_worse(z, y, weights, alpha, half_turn);
        assert(takes_circle_candidates(zc, y, h)) by {
            assert forall|c: int| 0 <= c < zc.len() implies is_circle_candidate(#[trigger] zc[c], y, h) by {
                assert(is_wrapped_value_of(zc[c], y, h));
            }
        }
        assert(l1_tv_circ_cost(x, y, weights, alpha, half_turn) <= l1_tv_circ_cost(zc, y, weights, alpha, half_turn));
    }
}

/// Exact L1-TV regularisation of a circle-valued signal.
///
/// Angles are integers on a circle of `2 * half_turn` units; inputs may lie
/// outside `(-half_turn, half_turn]` and are wrapped first. Returns a
/// sequence `x` of wrapped angles, each a wrapped value of `y` or the
/// antipode of one, that minimises
/// `alpha * sum_i arc(x[i], x[i-1]) + sum_i w[i] * arc(x[i], y[i])` among
/// all such sequences, where `w` are the given per-sample weights (all 1
/// when `None`); with non-negative weights it minimises over all integer
/// sequences. A single sample is returned wrapped. The output is the exact
/// run of the dynamic program on the wrapped signal (`is_circle_output`),
/// so it depends on `y` only through its wrapped angles. With `use_dist_transform` each column is computed by the
/// distance transform on the replicated grid, otherwise by the quadratic
/// scan over all candidate pairs.
pub fn solve_l1_tv_circ(
    y: &[i64],
    alpha: i64,
    weights: Option<&[i64]>,
    use_dist_transform: bool,
    half_turn: i64,
) -> (x: Vec<i64>)
    requires
        alpha >= 0,
        1 <= half_turn,
        6 * half_turn <= i64::MAX,
        6 * y@.len() <= u32::MAX + 1,
        y@.len() >= 2 ==> weights_match(weights_view(weights), y@.len() as int),
        y@.len() >= 2 ==> circle_fits(weights_view(weights), alpha as int, half_turn as int, y@.len() as int),
    ensures
        x@.len() == y@.len(),
        forall|c: int| 0 <= c < x@.len() ==> in_turn(#[trigger] x@[c] as int, half_turn as int),
        takes_circle_candidates(ints(x@), y@, half_turn as int),
        y@.len() == 1 ==> x@[0] as int == wrapped(y@[0] as int, half_turn as int),
        y@.len() != 1 || weights_ok(weights_view(weights), 1) ==> is_circ_candidate_minimiser(
            ints(x@),
            y@,
            weights_view(weights),
            alpha as int,
            half_turn,
        ),
        weights_ok(weights_view(weights), y@.len() as int) ==> is_l1_tv_circ_minimiser(
            ints(x@),
            y@,
            weights_view(weights),
            alpha as int,
            half_turn,
        ),
        circ_minimises_written_out(ints(x@), y@, weights_view(weights), alpha as int, half_turn),
        is_circle_output(
            ints(x@),
            wrapped_signal(y@, half_turn as int),
            weights_view(weights),
            alpha as int,
            half_turn,
            use_dist_transform,
        ),
{
    let x = solve_circ_by_columns(y, alpha, weights, use_dist_transform, half_turn);
    proof {
        lemma_circ_explicit(ints(x@), y@, weights_view(weights), alpha as int, half_turn);
    }
    x
}

/// The dynamic program behind `solve_l1_tv_circ`, with its contract stated
/// over the spec objective.
fn solve_circ_by_columns(
    y: &[i64],
    alpha: i64,
    weights: Option<&[i64]>,
    use_dist_transform: bool,
    half_turn: i64,
) -> (x: Vec<i64>)
    requires
        alpha >= 0,
        1 <= half_turn,
        6 * half_turn <= i64::MAX,
        6 * y@.len() <= u32::MAX + 1,
        y@.len() >= 2 ==> weights_match(weights_view(weights), y@.len() as int),
        y@.len() >= 2 ==> circle_fits(weights_view(weights), alpha as int, half_turn as int, y@.len() as int),
    ensures
        x@.len() == y@.len(),
        forall|c: int| 0 <= c < x@.len() ==> in_turn(#[trigger] x@[c] as int, half_turn as int),
        takes_circle_candidates(ints(x@), y@, half_turn as int),
        y@.len() == 1 ==> x@[0] as int == wrapped(y@[0] as int, half_turn as int),
        y@.len() != 1 || weights_ok(weights_view(weights), 1) ==> is_circ_candidate_minimiser(
            ints(x@),
            y@,
            weights_view(weights),
            alpha as int,
            half_turn,
        ),
        weights_ok(weights_view(weights), y@.len() as int) ==> is_l1_tv_circ_minimiser(
            ints(x@),
            y@,
            weights_view(weights),
            alpha as int,
            half_turn,
        ),
        is_circle_output(
            ints(x@),
            wrapped_signal(y@, half_turn as int),
            weights_view(weights),
            alpha as int,
            half_turn,
            use_dist_transform,
        ),
{
    let n = y.len();
    let ghost a = alpha as int;
    let ghost h = half_turn as int;
    let ghost wv = weights_view(weights);
    let ghost metric = Metric::Circle(half_turn);
    if n == 0 {
        let x: Vec<i64> = Vec::new();
        proof {
            assert(ints(x@) =~= Seq::<int>::empty());
        }
        return x;
    }
    if n == 1 {
        let mut x: Vec<i64> = Vec::new();
        let w = wrap_angle(y[0], half_turn);
        x.push(w);
        proof {
            let xs = ints(x@);
            assert(xs =~= seq![w as int]);
            assert(is_circle_candidate(w as int, y@, h));
            lemma_arc_wrapped(w as int, y@[0] as int, h);
            let q = lemma_wrapped(y@[0] as int, h);
            lemma_fundamental_div_mod_converse_mod_at(w - y@[0], 2 * h, q, 0);
            assert(arc(w as int, y@[0] as int, h) == 0);
            if weights_ok(wv, 1) {
                assert(weight_at(wv, 0) * 0 == 0);
                assert(step_cost(xs, y@, wv, a, metric, 0) == 0);
                assert(prefix_cost(xs, y@, wv, a, metric, 0) == 0);
                assert(prefix_cost(xs, y@, wv, a, metric, 1) == 0);
                assert(takes_circle_candidates(xs, y@, h));
                assert forall|z: Seq<int>| z.len() == 1 implies l1_tv_circ_cost(
                    xs,
                    y@,
                    wv,
                    a,
                    half_turn,
                ) <= #[trigger] l1_tv_circ_cost(z, y@, wv, a, half_turn) by {
                    lemma_prefix_nonneg(z, y@, wv, a, metric, 1);
                }
            }
        }
        return x;
    }
    // Wrap the signal into the half-open turn.
    let mut y_ang: Vec<i64> = Vec::new();
    let mut c: usize = 0;
    while c < n
        invariant
            n == y@.len(),
            1 <= half_turn,
            6 * half_turn <= i64::MAX,
            c <= n,
            y_ang@.len() == c,
            forall|q: int| 0 <= q < c ==> #[trigger] y_ang@[q] as int == wrapped(y@[q] as int, half_turn as int),
            forall|q: int| 0 <= q < c ==> in_turn(#[trigger] y_ang@[q] as int, half_turn as int),
        decreases n - c,
    {
        y_ang.push(wrap_angle(y[c], half_turn));
        c += 1;
    }
    let v = build_candidates(y_ang.as_slice(), half_turn);
    let k = v.len();
    proof {
        assert(y_ang@ =~= wrapped_signal(y@, h));
        assert(is_candidate_list(v@, y_ang@, h));
        assert forall|t: int| is_value_of(t, v@) <==> is_circle_candidate(t, y@, h) by {
            if is_value_of(t, v@) {
                let i = choose|i: int| 0 <= i < v@.len() && t == v@[i] as int;
                assert(v@.contains(v@[i]));
                let j = choose|j: int|
                    0 <= j < y_ang@.len() && (v@[i] == #[trigger] y_ang@[j] || v@[i] as int == antipodal(
                        y_ang@[j] as int,
                        h,
                    ));
                assert(y_ang@[j] as int == wrapped(y@[j] as int, h));
            }
            if is_circle_candidate(t, y@, h) {
                let j = choose|j: int|
                    0 <= j < y@.len() && (t == wrapped(y@[j] as int, h) || t == antipodal(wrapped(y@[j] as int, h), h));
                assert(y_ang@[j] as int == wrapped(y@[j] as int, h));
                assert(in_turn(y_ang@[j] as int, h));
                let u: i64 = if t == wrapped(y@[j] as int, h) {
                    y_ang@[j]
                } else {
                    lemma_wrapped(y_ang@[j] + h, h);
                    t as i64
                };
                assert(u as int == t);
                assert(v@.contains(u));
                let i = choose|i: int| 0 <= i < v@.len() && v@[i] == u;
                assert(t == v@[i] as int);
            }
        }
    }
    // The candidate grid one turn below, in place and one turn above.
    let turn = 2 * half_turn;
    let mut v_rep: Vec<i64> = Vec::new();
    let mut i: usize = 0;
    while i < k
        invariant
            k == v@.len(),
            i <= k,
            1 <= half_turn,
            6 * half_turn <= i64::MAX,
            turn == 2 * half_turn,
            forall|q: int| 0 <= q < k ==> in_turn(#[trigger] v@[q] as int, half_turn as int),
            v_rep@.len() == i,
            forall|q: int| 0 <= q < i ==> #[trigger] v_rep@[q] == v@[q] - 2 * half_turn,
        decreases k - i,
    {
        v_rep.push(v[i] - turn);
        i += 1;
    }
    let mut i: usize = 0;
    while i < k
        invariant
            k == v@.len(),
            i <= k,
            v_rep@.len() == k + i,
            forall|q: int| 0 <= q < k ==> #[trigger] v_rep@[q] == v@[q] - 2 * half_turn,
            forall|q: int| 0 <= q < i ==> #[trigger] v_rep@[k + q] == v@[q],
        decreases k - i,
    {
        v_rep.push(v[i]);
        i += 1;
    }
    let mut i: usize = 0;
    while i < k
        invariant
            k == v@.len(),
            i <= k,
            1 <= half_turn,
            6 * half_turn <= i64::MAX,
            turn == 2 * half_turn,
            forall|q: int| 0 <= q < k ==> in_turn(#[trigger] v@[q] as int, half_turn as int),
            v_rep@.len() == 2 * k + i,
            forall|q: int| 0 <= q < k ==> #[trigger] v_rep@[q] == v@[q] - 2 * half_turn,
            forall|q: int| 0 <= q < k ==> #[trigger] v_rep@[k + q] == v@[q],
            forall|q: int| 0 <= q < i ==> #[trigger] v_rep@[2 * k + q] == v@[q] + 2 * half_turn,
        decreases k - i,
    {
        v_rep.push(v[i] + turn);
        i += 1;
    }
    proof {
        assert(is_turn_replica(v_rep@, v@, h)) by {
            assert forall|j: int|
                #![trigger v@[j]]
                0 <= j < k implies v_rep@[j] == v@[j] - 2 * h && v_rep@[k + j] == v@[j] && v_rep@[2 * k + j] == v@[j]
                + 2 * h by {
                assert(v_rep@[j] == v@[j] - 2 * half_turn);
                assert(v_rep@[k + j] == v@[j]);
                assert(v_rep@[2 * k + j] == v@[j] + 2 * half_turn);
            }
        }
    }
    // Column 0: the data term of the first sample.
    proof {
        lemma_ceiling_step(wv, a, h, n as int, 0);
        assert(cost_ceiling(wv, a, h, 0) == 0);
        lemma_ceiling_mono(wv, a, h, n as int, 1, n as int);
    }
    let w0 = weight(weights, 0);
    let mut b_prev: Vec<i64> = Vec::new();
    let mut i: usize = 0;
    while i < k
        invariant
            k == v@.len(),
            n == y@.len(),
            2 <= n,
            n == y_ang@.len(),
            b_prev@.len() == i,
            i <= k,
            a == alpha,
            alpha >= 0,
            h == half_turn,
            1 <= h,
            6 * h <= i64::MAX,
            metric == Metric::Circle(half_turn),
            wv == weights_view(weights),
            weights_match(wv, n as int),
            circle_fits(wv, a, h, n as int),
            w0 == weight_at(wv, 0),
            cost_ceiling(wv, a, h, 1) == abs(w0 as int) * h + a * h,
            0 <= abs(w0 as int) * h,
            cost_ceiling(wv, a, h, 1) <= cost_ceiling(wv, a, h, n as int),
            forall|q: int| 0 <= q < k ==> in_turn(#[trigger] v@[q] as int, h),
            forall|q: int| 0 <= q < n ==> #[trigger] y_ang@[q] as int == wrapped(y@[q] as int, h),
            forall|q: int| 0 <= q < n ==> in_turn(#[trigger] y_ang@[q] as int, h),
            forall|q: int|
                0 <= q < i ==> #[trigger] b_prev@[q] == weight_at(wv, 0) * metric_dist(
                    metric,
                    v@[q] as int,
                    y@[0] as int,
                ),
            forall|q: int|
                0 <= q < i ==> -cost_ceiling(wv, a, h, 1) <= #[trigger] b_prev@[q] <= cost_ceiling(wv, a, h, 1) - a * h,
        decreases k - i,
    {
        proof {
            assert(in_turn(v@[i as int] as int, h));
            assert(in_turn(y_ang@[0] as int, h));
            lemma_arc_bounds(v@[i as int] as int, y_ang@[0] as int, h);
            lemma_arc_wrapped(v@[i as int] as int, y@[0] as int, h);
            lemma_weighted_distance(w0 as int, arc(v@[i as int] as int, y_ang@[0] as int, h), h);
        }
        b_prev.push(w0 * arc_distance(v[i], y_ang[0], half_turn));
        i += 1;
    }
    let mut cols: Vec<Vec<u32>> = Vec::new();
    proof {
        lemma_first_column(b_prev@, v@, y@, wv, a, metric);
        assert(cols@ =~= Seq::<Vec<u32>>::empty());
        assert forall|q: int| 0 <= q < k implies #[trigger] b_prev@[q] == weight_at(wv, 0) * arc(
            v@[q] as int,
            y_ang@[0] as int,
            h,
        ) by {
            lemma_arc_wrapped(v@[q] as int, y@[0] as int, h);
        }
    }
    let ghost mut bs: Seq<Seq<i64>> = seq![b_prev@];
    let mut col: usize = 1;
    while col < n
        invariant
            k == v@.len(),
            n == y@.len(),
            n == y_ang@.len(),
            2 <= n,
            6 * n <= u32::MAX + 1,
            2 <= k <= 2 * n,
            1 <= col <= n,
            a == alpha,
            alpha >= 0,
            h == half_turn,
            1 <= h,
            6 * h <= i64::MAX,
            metric == Metric::Circle(half_turn),
            is_sorted(v@),
            is_turn_replica(v_rep@, v@, h),
            wv == weights_view(weights),
            weights_match(wv, n as int),
            circle_fits(wv, a, h, n as int),
            forall|q: int| 0 <= q < k ==> in_turn(#[trigger] v@[q] as int, h),
            forall|q: int| 0 <= q < n ==> #[trigger] y_ang@[q] as int == wrapped(y@[q] as int, h),
            forall|q: int| 0 <= q < n ==> in_turn(#[trigger] y_ang@[q] as int, h),
            cols@.len() == col - 1,
            pointers_ok(cols@, k as int),
            column_solved(b_prev@, cols@, v@, y@, wv, a, metric, col - 1),
            y_ang@ == wrapped_signal(y@, h),
            is_candidate_list(v@, y_ang@, h),
            bs.len() == col,
            bs[col - 1] == b_prev@,
            is_first_column(bs[0], v@, y_ang@, wv, h),
            forall|c: int|
                1 <= c < col ==> circle_column_step(
                    bs[c - 1],
                    #[trigger] bs[c],
                    cols@[c - 1]@,
                    v@,
                    y_ang@[c],
                    weight_at(wv, c),
                    a,
                    half_turn,
                    use_dist_transform,
                ),
            forall|q: int|
                0 <= q < k ==> -cost_ceiling(wv, a, h, col as int) <= #[trigger] b_prev@[q] <= cost_ceiling(
                    wv,
                    a,
                    h,
                    col as int,
                ) - a * h,
        decreases n - col,
    {
        proof {
            lemma_ceiling_step(wv, a, h, n as int, col as int);
            lemma_ceiling_mono(wv, a, h, n as int, col as int, n as int);
            assert forall|q: int| 0 <= q < k implies #[trigger] b_prev@[q] + alpha * (6 * half_turn) <= i64::MAX by {
                assert(b_prev@[q] <= cost_ceiling(wv, a, h, col as int) - a * h);
            }
        }
        let (mid, am) = relax_circle_column(&b_prev, &v, &v_rep, alpha, half_turn, use_dist_transform);
        proof {
            assert forall|q: int|
                0 <= q < k implies -cost_ceiling(wv, a, h, col as int) <= #[trigger] mid@[q] <= cost_ceiling(
                wv,
                a,
                h,
                col as int,
            ) by {
                let j = am@[q] as int;
                assert(am@[q] < k);
                assert(in_turn(v@[q] as int, h) && in_turn(v@[j] as int, h));
                lemma_arc_bounds(v@[q] as int, v@[j] as int, h);
                lemma_column_bounds(wv, a, h, n as int, col as int, b_prev@[j] as int, arc(v@[q] as int, v@[j] as int, h), 0);
            }
        }
        let wn = weight(weights, col);
        let yn = y_ang[col];
        let mut b_curr = mid;
        let ghost mid_v = b_curr@;
        let mut i: usize = 0;
        while i < k
            invariant
                k == v@.len(),
                n == y@.len(),
                n == y_ang@.len(),
                2 <= n,
                1 <= col < n,
                i <= k,
                a == alpha,
                alpha >= 0,
                h == half_turn,
                1 <= h,
                6 * h <= i64::MAX,
                metric == Metric::Circle(half_turn),
                wv == weights_view(weights),
                weights_match(wv, n as int),
                circle_fits(wv, a, h, n as int),
                yn == y_ang@[col as int],
                wn == weight_at(wv, col as int),
                forall|q: int| 0 <= q < k ==> in_turn(#[trigger] v@[q] as int, h),
                forall|q: int| 0 <= q < n ==> #[trigger] y_ang@[q] as int == wrapped(y@[q] as int, h),
                forall|q: int| 0 <= q < n ==> in_turn(#[trigger] y_ang@[q] as int, h),
                b_curr@.len() == k,
                mid_v.len() == k,
                forall|q: int|
                    0 <= q < k ==> -cost_ceiling(wv, a, h, col as int) <= #[trigger] mid_v[q] <= cost_ceiling(
                        wv,
                        a,
                        h,
                        col as int,
                    ),
                forall|q: int| i <= q < k ==> #[trigger] b_curr@[q] == mid_v[q],
                forall|q: int|
                    0 <= q < i ==> #[trigger] b_curr@[q] == mid_v[q] + wn * metric_dist(
                        metric,
                        v@[q] as int,
                        y@[col as int] as int,
                    ),
                forall|q: int|
                    0 <= q < i ==> -cost_ceiling(wv, a, h, col + 1) <= #[trigger] b_curr@[q] <= cost_ceiling(
                        wv,
                        a,
                        h,
                        col + 1,
                    ) - a * h,
            decreases k - i,
        {
            proof {
                assert(in_turn(v@[i as int] as int, h));
                assert(in_turn(y_ang@[col as int] as int, h));
                lemma_arc_bounds(v@[i as int] as int, yn as int, h);
                lemma_arc_wrapped(v@[i as int] as int, y@[col as int] as int, h);
                lemma_ceiling_step(wv, a, h, n as int, col as int);
                lemma_weighted_distance(wn as int, arc(v@[i as int] as int, yn as int, h), h);
                assert(-cost_ceiling(wv, a, h, col as int) <= mid_v[i as int] <= cost_ceiling(wv, a, h, col as int));
            }
            let d = arc_distance(v[i], yn, half_turn);
            let cur = b_curr[i];
            b_curr.set(i, cur + wn * d);
            i += 1;
        }
        proof {
            lemma_column_step(b_prev@, mid_v, b_curr@, am, cols@, v@, y@, wv, a, metric, col - 1);
            assert forall|i: int| 0 <= i < k implies #[trigger] b_curr@[i] == mid_v[i] + wn * arc(
                v@[i] as int,
                y_ang@[col as int] as int,
                half_turn as int,
            ) by {
                lemma_arc_wrapped(v@[i] as int, y@[col as int] as int, h);
            }
            assert(circle_column_step(b_prev@, b_curr@, am@, v@, y_ang@[col as int], weight_at(wv, col as int), a, half_turn, use_dist_transform));
        }
        let ghost old_cols = cols@;
        let ghost old_bs = bs;
        cols.push(am);
        proof {
            bs = bs.push(b_curr@);
            assert forall|c: int| 1 <= c < col + 1 implies circle_column_step(
                bs[c - 1],
                #[trigger] bs[c],
                cols@[c - 1]@,
                v@,
                y_ang@[c],
                weight_at(wv, c),
                a,
                half_turn,
                use_dist_transform,
            ) by {
                if c < col {
                    assert(bs[c - 1] == old_bs[c - 1] && bs[c] == old_bs[c] && cols@[c - 1] == old_cols[c - 1]);
                }
            }
        }
        b_prev = b_curr;
        col += 1;
    }
    let l = argmin(b_prev.as_slice());
    let path = backtrack(&cols, k, l);
    let ghost pv = path_values(cols@, v@, (n - 1) as int, l as int);
    proof {
        lemma_trace_shape(cols@, k as int, (n - 1) as int, l as int);
    }
    let mut x: Vec<i64> = Vec::new();
    let mut c: usize = 0;
    while c < n
        invariant
            n == y@.len(),
            k == v@.len(),
            path@.len() == n,
            c <= n,
            x@.len() == c,
            pv == path_values(cols@, v@, (n - 1) as int, l as int),
            pv.len() == n,
            forall|q: int| 0 <= q < n ==> 0 <= #[trigger] trace(cols@, (n - 1) as int, l as int)[q] < k,
            forall|q: int| 0 <= q < n ==> path@[q] as int == #[trigger] trace(cols@, (n - 1) as int, l as int)[q],
            forall|q: int| 0 <= q < c ==> x@[q] as int == #[trigger] pv[q],
        decreases n - c,
    {
        proof {
            assert(path@[c as int] as int == trace(cols@, (n - 1) as int, l as int)[c as int]);
        }
        x.push(v[path[c]]);
        c += 1;
    }
    proof {
        assert(ints(x@) =~= pv);
        assert(is_circle_run(ints(x@), y_ang@, wv, a, half_turn, use_dist_transform, v@, bs, cols@, l as int));
        assert forall|q: int| 0 <= q < n implies in_turn(#[trigger] x@[q] as int, h) && is_circle_candidate(
            ints(x@)[q],
            y@,
            h,
        ) by {
            let t = trace(cols@, (n - 1) as int, l as int)[q];
            assert(0 <= t < k);
            assert(in_turn(v@[t] as int, h));
            assert(is_value_of(v@[t] as int, v@));
            assert(x@[q] as int == pv[q]);
        }
        lemma_last_column(b_prev@, cols@, v@, y@, wv, a, metric, l as int);
        assert forall|z: Seq<int>| z.len() == y@.len() && takes_circle_candidates(z, y@, h) implies l1_tv_circ_cost(
            ints(x@),
            y@,
            wv,
            a,
            half_turn,
        ) <= #[trigger] l1_tv_circ_cost(z, y@, wv, a, half_turn) by {
            assert(takes_values_of(z, v@)) by {
                assert forall|c: int| 0 <= c < z.len() implies is_value_of(#[trigger] z[c], v@) by {
                    assert(is_circle_candidate(z[c], y@, h));
                }
            }
            assert(prefix_cost(pv, y@, wv, a, metric, n as int) <= prefix_cost(z, y@, wv, a, metric, n as int));
        }
        if weights_ok(wv, n as int) {
            lemma_circ_global_optimum(ints(x@), y@, wv, a, half_turn);
        }
    }
    x
}


/// `x` minimises the circle L1-TV objective written out with the caller's
/// weights (all ones when none are given): among the sequences of circle
/// candidates when there are several samples or the weights are
/// non-negative, and among all integer sequences when the weights are
/// non-negative.
pub open spec fn circ_minimises_written_out(
    x: Seq<int>,
    y: Seq<i64>,
    weights: Option<Seq<i64>>,
    alpha: int,
    half_turn: i64,
) -> bool {
    let w = effective_weights(weights, y.len() as int);
    let metric = Metric::Circle(half_turn);
    &&& (y.len() != 1 || weights_ok(weights, 1)) ==> forall|z: Seq<int>|
        z.len() == y.len() && takes_circle_candidates(z, y, half_turn as int) ==> objective_with(
            x,
            y,
            w,
            alpha,
            metric,
        ) <= #[trigger] objective_with(z, y, w, alpha, metric)
    &&& weights_ok(weights, y.len() as int) ==> forall|z: Seq<int>|
        z.len() == y.len() ==> objective_with(x, y, w, alpha, metric) <= #[trigger] objective_with(
            z,
            y,
            w,
            alpha,
            metric,
        )
}

/// The circle solver's minimality, written out with the caller's weights.
proof fn lemma_circ_explicit(x: Seq<int>, y: Seq<i64>, weights: Option<Seq<i64>>, alpha: int, half_turn: i64)
    requires
        x.len() == y.len(),
        (y.len() != 1 || weights_ok(weights, 1)) ==> is_circ_candidate_minimiser(x, y, weights, alpha, half_turn),
        weights_ok(weights, y.len() as int) ==> is_l1_tv_circ_minimiser(x, y, weights, alpha, half_turn),
    ensures
        circ_minimises_written_out(x, y, weights, alpha, half_turn),
{
    let n = y.len() as int;
    let metric = Metric::Circle(half_turn);
    let w = effective_weights(weights, n);
    lemma_objective_explicit(x, y, weights, alpha, metric, n);
    assert forall|z: Seq<int>| z.len() == y.len() implies #[trigger] objective_with(z, y, w, alpha, metric)
        == l1_tv_circ_cost(z, y, weights, alpha, half_turn) by {
        lemma_objective_explicit(z, y, weights, alpha, metric, n);
    }
    if y.len() != 1 || weights_ok(weights, 1) {
        assert forall|z: Seq<int>|
            z.len() == y.len() && takes_circle_candidates(z, y, half_turn as int) implies objective_with(
            x,
            y,
            w,
            alpha,
            metric,
        ) <= #[trigger] objective_with(z, y, w, alpha, metric) by {
            assert(l1_tv_circ_cost(x, y, weights, alpha, half_turn) <= l1_tv_circ_cost(z, y, weights, alpha, half_turn));
        }
    }
    if weights_ok(weights, n) {
        assert forall|z: Seq<int>| z.len() == y.len() implies objective_with(x, y, w, alpha, metric)
            <= #[trigger] objective_with(z, y, w, alpha, metric) by {
            assert(l1_tv_circ_cost(x, y, weights, alpha, half_turn) <= l1_tv_circ_cost(z, y, weights, alpha, half_turn));
        }
    }
}

/// Any two sequences that each minimise the circle objective among the
/// sequences of circle candidates have the same objective; in particular
/// the distance-transform and the quadratic-scan paths of
/// `solve_l1_tv_circ` reach the same objective, whatever the weights.
pub proof fn lemma_circ_minimisers_agree(
    x1: Seq<int>,
    x2: Seq<int>,
    y: Seq<i64>,
    weights: Option<Seq<i64>>,
    alpha: int,
    half_turn: i64,
)
    requires
        is_circ_candidate_minimiser(x1, y, weights, alpha, half_turn),
        is_circ_candidate_minimiser(x2, y, weights, alpha, half_turn),
    ensures
        l1_tv_circ_cost(x1, y, weights, alpha, half_turn) == l1_tv_circ_cost(x2, y, weights, alpha, half_turn),
{
    assert(l1_tv_circ_cost(x1, y, weights, alpha, half_turn) <= l1_tv_circ_cost(x2, y, weights, alpha, half_turn));
    assert(l1_tv_circ_cost(x2, y, weights, alpha, half_turn) <= l1_tv_circ_cost(x1, y, weights, alpha, half_turn));
}

/// The arc distance is symmetric.
pub proof fn lemma_arc_symmetric(a: int, b: int, h: int)
    requires
        h >= 1,
    ensures
        arc(a, b, h) == arc(b, a, h),
{
    let m = 2 * h;
    lemma_fundamental_div_mod(a - b, m);
    lemma_mod_bound(a - b, m);
    let q = (a - b) / m;
    let r = (a - b) % m;
    if r == 0 {
        assert(b - a == (-q) * m + 0) by (nonlinear_arith)
            requires
                a - b == m * q + r,
                r == 0,
        ;
        lemma_fundamental_div_mod_converse_mod_at(b - a, m, -q, 0);
    } else {
        assert(b - a == (-q - 1) * m + (m - r)) by (nonlinear_arith)
            requires
                a - b == m * q + r,
        ;
        lemma_fundamental_div_mod_converse_mod_at(b - a, m, -q - 1, m - r);
    }
}

/// An angle and its antipode are half a turn apart.
pub proof fn lemma_antipode_half_turn_away(a: int, h: int)
    requires
        h >= 1,
        in_turn(a, h),
    ensures
        in_turn(antipodal(a, h), h),
        arc(a, antipodal(a, h), h) == h,
{
    let q = lemma_wrapped(a + h, h);
    lemma_arc_turns(a, a + h, h, q);
    lemma_fundamental_div_mod_converse_mod_at(a - (a + h), 2 * h, -1, h);
}

/// Zero arc distance between an angle of the half-open turn and any angle
/// means the first is the second wrapped.
proof fn lemma_arc_zero(a: int, b: int, h: int)
    requires
        h >= 1,
        in_turn(a, h),
        arc(a, b, h) == 0,
    ensures
        a == wrapped(b, h),
{
    lemma_arc_wrapped(a, b, h);
    let w = wrapped(b, h);
    lemma_wrapped(b, h);
    lemma_arc_in_turn(a, w, h);
}

/// With no slope and positive weights the wrapped signal is the unique
/// minimiser among angles of the half-open turn: `alpha = 0` gives back the
/// wrapped input.
pub proof fn lemma_circ_zero_slope_keeps_signal(
    x: Seq<int>,
    y: Seq<i64>,
    weights: Option<Seq<i64>>,
    half_turn: i64,
)
    requires
        half_turn >= 1,
        weights_positive(weights, y.len() as int),
        forall|c: int| 0 <= c < x.len() ==> in_turn(#[trigger] x[c], half_turn as int),
        is_l1_tv_circ_minimiser(x, y, weights, 0, half_turn),
    ensures
        forall|c: int| 0 <= c < x.len() ==> #[trigger] x[c] == wrapped(y[c] as int, half_turn as int),
{
    let n = y.len() as int;
    let h = half_turn as int;
    let metric = Metric::Circle(half_turn);
    let ws = Seq::new(y.len(), |c: int| wrapped(y[c] as int, h));
    assert(takes_circle_candidates(ws, y, h)) by {
        assert forall|c: int| 0 <= c < ws.len() implies is_circle_candidate(#[trigger] ws[c], y, h) by {}
    }
    assert forall|c: int| 0 <= c < n implies #[trigger] step_cost(ws, y, weights, 0, metric, c) == 0 by {
        let q = lemma_wrapped(y[c] as int, h);
        lemma_arc_wrapped(ws[c], y[c] as int, h);
        lemma_arc_in_turn(ws[c], ws[c], h);
        assert(weight_at(weights, c) * 0 == 0);
    }
    lemma_prefix_zero(ws, y, weights, 0, metric, n);
    assert(l1_tv_circ_cost(x, y, weights, 0, half_turn) <= l1_tv_circ_cost(ws, y, weights, 0, half_turn));
    lemma_prefix_covers_steps(x, y, weights, 0, metric, n);
    assert forall|c: int| 0 <= c < x.len() implies #[trigger] x[c] == wrapped(y[c] as int, h) by {
        assert(step_cost(x, y, weights, 0, metric, c) == 0);
        assert(0 * metric_dist(metric, x[c], x[c - 1]) == 0);
        lemma_arc_bounds(x[c], y[c] as int, h);
        if arc(x[c], y[c] as int, h) != 0 {
            lemma_mul_mono(weight_at(weights, c), 1, arc(x[c], y[c] as int, h));
        }
        lemma_arc_zero(x[c], y[c] as int, h);
    }
}

/// A slope above `sum_c w[c] * half_turn` makes every minimiser of the
/// half-open turn constant: a single jump would already cost more than
/// holding the first wrapped sample.
pub proof fn lemma_circ_steep_slope_flattens(
    x: Seq<int>,
    y: Seq<i64>,
    weights: Option<Seq<i64>>,
    alpha: int,
    half_turn: i64,
)
    requires
        half_turn >= 1,
        y.len() >= 1,
        weights_ok(weights, y.len() as int),
        alpha > cost_ceiling(weights, 0, half_turn as int, y.len() as int),
        forall|c: int| 0 <= c < x.len() ==> in_turn(#[trigger] x[c], half_turn as int),
        is_l1_tv_circ_minimiser(x, y, weights, alpha, half_turn),
    ensures
        forall|i: int| 0 <= i < x.len() ==> #[trigger] x[i] == x[0],
{
    let n = y.len() as int;
    let h = half_turn as int;
    let metric = Metric::Circle(half_turn);
    let cz = Seq::new(y.len(), |c: int| wrapped(y[0] as int, h));
    assert(takes_circle_candidates(cz, y, h)) by {
        assert forall|c: int| 0 <= c < cz.len() implies is_circle_candidate(#[trigger] cz[c], y, h) by {}
    }
    lemma_circ_constant_cost(y, weights, alpha, half_turn, n);
    lemma_ceiling_mono(weights, 0, h, n, 0, n);
    assert(l1_tv_circ_cost(x, y, weights, alpha, half_turn) <= l1_tv_circ_cost(cz, y, weights, alpha, half_turn));
    assert forall|i: int| 0 <= i < x.len() implies #[trigger] x[i] == x[0] by {
        if x[i] != x[0] {
            let c = lemma_first_jump(x, i);
            lemma_prefix_covers_steps(x, y, weights, alpha, metric, n);
            assert(step_cost(x, y, weights, alpha, metric, c) <= l1_tv_circ_cost(x, y, weights, alpha, half_turn));
            lemma_arc_bounds(x[c], y[c] as int, h);
            lemma_mul_nonneg(weight_at(weights, c), arc(x[c], y[c] as int, h));
            assert(in_turn(x[c], h) && in_turn(x[c - 1], h));
            lemma_arc_in_turn(x[c], x[c - 1], h);
            lemma_mul_mono(alpha, 1, arc(x[c], x[c - 1], h));
        }
    }
}

/// Holding every entry at the first wrapped sample costs at most
/// `sum_c w[c] * half_turn`.
proof fn lemma_circ_constant_cost(y: Seq<i64>, weights: Option<Seq<i64>>, alpha: int, half_turn: i64, m: int)
    requires
        half_turn >= 1,
        y.len() >= 1,
        weights_ok(weights, y.len() as int),
        0 <= m <= y.len(),
    ensures
        prefix_cost(
            Seq::new(y.len(), |c: int| wrapped(y[0] as int, half_turn as int)),
            y,
            weights,
            alpha,
            Metric::Circle(half_turn),
            m,
        ) <= cost_ceiling(weights, 0, half_turn as int, m),
    decreases m,
{
    if m > 0 {
        let h = half_turn as int;
        let cz = Seq::new(y.len(), |c: int| wrapped(y[0] as int, h));
        lemma_circ_constant_cost(y, weights, alpha, half_turn, m - 1);
        lemma_arc_bounds(cz[m - 1], y[m - 1] as int, h);
        lemma_mul_mono(weight_at(weights, m - 1), arc(cz[m - 1], y[m - 1] as int, h), h);
        if m - 1 > 0 {
            lemma_wrapped(y[0] as int, h);
            lemma_arc_in_turn(cz[m - 1], cz[m - 2], h);
            assert(alpha * 0 == 0);
        }
    }
}

/// Raising the slope never lowers the optimal circle objective; raising it
/// strictly never raises the total variation of a minimiser nor lowers its
/// data term.
pub proof fn lemma_circ_slope_monotone(
    x1: Seq<int>,
    x2: Seq<int>,
    y: Seq<i64>,
    weights: Option<Seq<i64>>,
    alpha1: int,
    alpha2: int,
    half_turn: i64,
)
    requires
        half_turn >= 1,
        0 <= alpha1 <= alpha2,
        is_l1_tv_circ_minimiser(x1, y, weights, alpha1, half_turn),
        is_l1_tv_circ_minimiser(x2, y, weights, alpha2, half_turn),
    ensures
        l1_tv_circ_cost(x1, y, weights, alpha1, half_turn) <= l1_tv_circ_cost(x2, y, weights, alpha2, half_turn),
        alpha1 < alpha2 ==> total_variation(x2, Metric::Circle(half_turn), y.len() as int) <= total_variation(
            x1,
            Metric::Circle(half_turn),
            y.len() as int,
        ),
        alpha1 < alpha2 ==> data_cost(x1, y, weights, Metric::Circle(half_turn), y.len() as int) <= data_cost(
            x2,
            y,
            weights,
            Metric::Circle(half_turn),
            y.len() as int,
        ),
{
    assert(l1_tv_circ_cost(x1, y, weights, alpha1, half_turn) <= l1_tv_circ_cost(x2, y, weights, alpha1, half_turn));
    assert(l1_tv_circ_cost(x2, y, weights, alpha2, half_turn) <= l1_tv_circ_cost(x1, y, weights, alpha2, half_turn));
    lemma_slope_exchange(x1, x2, y, weights, alpha1, alpha2, Metric::Circle(half_turn), y.len() as int);
}

/// Samples of weight zero (masked samples) do not change the optimal circle
/// value: signals that differ only there have minimisers of equal objective.
pub proof fn lemma_circ_masked_sample_keeps_optimum(
    x: Seq<int>,
    x2: Seq<int>,
    y: Seq<i64>,
    y2: Seq<i64>,
    weights: Option<Seq<i64>>,
    alpha: int,
    half_turn: i64,
)
    requires
        y.len() == y2.len(),
        forall|c: int| 0 <= c < y.len() && y[c] != y2[c] ==> weight_at(weights, c) == 0,
        is_l1_tv_circ_minimiser(x, y, weights, alpha, half_turn),
        is_l1_tv_circ_minimiser(x2, y2, weights, alpha, half_turn),
    ensures
        l1_tv_circ_cost(x, y, weights, alpha, half_turn) == l1_tv_circ_cost(x2, y2, weights, alpha, half_turn),
{
    let n = y.len() as int;
    let metric = Metric::Circle(half_turn);
    lemma_masked_samples(x, y, y2, weights, alpha, metric, n);
    lemma_masked_samples(x2, y, y2, weights, alpha, metric, n);
    assert(l1_tv_circ_cost(x, y, weights, alpha, half_turn) <= l1_tv_circ_cost(x2, y, weights, alpha, half_turn));
    assert(l1_tv_circ_cost(x2, y2, weights, alpha, half_turn) <= l1_tv_circ_cost(x, y2, weights, alpha, half_turn));
}

/// Signals with the same wrapped angles give every sequence the same circle
/// objective on every prefix.
proof fn lemma_circ_prefix_wrapped_signal(
    z: Seq<int>,
    y: Seq<i64>,
    y2: Seq<i64>,
    weights: Option<Seq<i64>>,
    alpha: int,
    half_turn: i64,
    m: int,
)
    requires
        half_turn >= 1,
        y.len() == y2.len(),
        m <= y.len(),
        forall|c: int| 0 <= c < y.len() ==> wrapped(#[trigger] y[c] as int, half_turn as int) == wrapped(
            y2[c] as int,
            half_turn as int,
        ),
    ensures
        prefix_cost(z, y, weights, alpha, Metric::Circle(half_turn), m) == prefix_cost(
            z,
            y2,
            weights,
            alpha,
            Metric::Circle(half_turn),
            m,
        ),
    decreases m,
{
    if m > 0 {
        let c = m - 1;
        let h = half_turn as int;
        lemma_circ_prefix_wrapped_signal(z, y, y2, weights, alpha, half_turn, m - 1);
        assert(wrapped(y[c] as int, h) == wrapped(y2[c] as int, h));
        lemma_arc_wrapped(z[c], y[c] as int, h);
        lemma_arc_wrapped(z[c], y2[c] as int, h);
    }
}

/// The circle problem sees the signal only through its wrapped angles:
/// signals with the same wrapped angles give every sequence of their length
/// the same objective, the same candidates and the same minimisers.
pub proof fn lemma_circ_wrapped_signal(
    x: Seq<int>,
    y: Seq<i64>,
    y2: Seq<i64>,
    weights: Option<Seq<i64>>,
    alpha: int,
    half_turn: i64,
)
    requires
        half_turn >= 1,
        x.len() == y.len(),
        y.len() == y2.len(),
        forall|c: int| 0 <= c < y.len() ==> wrapped(#[trigger] y[c] as int, half_turn as int) == wrapped(
            y2[c] as int,
            half_turn as int,
        ),
    ensures
        l1_tv_circ_cost(x, y, weights, alpha, half_turn) == l1_tv_circ_cost(x, y2, weights, alpha, half_turn),
        is_l1_tv_circ_minimiser(x, y, weights, alpha, half_turn) == is_l1_tv_circ_minimiser(
            x,
            y2,
            weights,
            alpha,
            half_turn,
        ),
        is_circ_candidate_minimiser(x, y, weights, alpha, half_turn) == is_circ_candidate_minimiser(
            x,
            y2,
            weights,
            alpha,
            half_turn,
        ),
{
    let h = half_turn as int;
    let n = y.len() as int;
    assert forall|z: Seq<int>| z.len() == n implies #[trigger] l1_tv_circ_cost(z, y, weights, alpha, half_turn)
        == l1_tv_circ_cost(z, y2, weights, alpha, half_turn) by {
        lemma_circ_prefix_wrapped_signal(z, y, y2, weights, alpha, half_turn, n);
    }
    assert forall|t: int| is_circle_candidate(t, y, h) == is_circle_candidate(t, y2, h) by {
        if is_circle_candidate(t, y, h) {
            let j = choose|j: int|
                0 <= j < y.len() && (t == wrapped(y[j] as int, h) || t == antipodal(wrapped(y[j] as int, h), h));
            assert(wrapped(y[j] as int, h) == wrapped(y2[j] as int, h));
        }
        if is_circle_candidate(t, y2, h) {
            let j = choose|j: int|
                0 <= j < y2.len() && (t == wrapped(y2[j] as int, h) || t == antipodal(wrapped(y2[j] as int, h), h));
            assert(wrapped(y[j] as int, h) == wrapped(y2[j] as int, h));
        }
    }
    assert forall|z: Seq<int>| takes_circle_candidates(z, y, h) == takes_circle_candidates(z, y2, h) by {
        if takes_circle_candidates(z, y, h) {
            assert forall|c: int| 0 <= c < z.len() implies is_circle_candidate(#[trigger] z[c], y2, h) by {
                assert(is_circle_candidate(z[c], y, h));
            }
        }
        if takes_circle_candidates(z, y2, h) {
            assert forall|c: int| 0 <= c < z.len() implies is_circle_candidate(#[trigger] z[c], y, h) by {
                assert(is_circle_candidate(z[c], y2, h));
            }
        }
    }
    lemma_circ_prefix_wrapped_signal(x, y, y2, weights, alpha, half_turn, n);
    let cx = l1_tv_circ_cost(x, y, weights, alpha, half_turn);
    if is_l1_tv_circ_minimiser(x, y, weights, alpha, half_turn) {
        assert forall|z: Seq<int>| z.len() == y2.len() implies cx <= #[trigger] l1_tv_circ_cost(
            z,
            y2,
            weights,
            alpha,
            half_turn,
        ) by {
            assert(cx <= l1_tv_circ_cost(z, y, weights, alpha, half_turn));
        }
    }
    if is_l1_tv_circ_minimiser(x, y2, weights, alpha, half_turn) {
        assert forall|z: Seq<int>| z.len() == y.len() implies cx <= #[trigger] l1_tv_circ_cost(
            z,
            y,
            weights,
            alpha,
            half_turn,
        ) by {
            assert(cx <= l1_tv_circ_cost(z, y2, weights, alpha, half_turn));
        }
    }
    if is_circ_candidate_minimiser(x, y, weights, alpha, half_turn) {
        assert(takes_circle_candidates(x, y, h) == takes_circle_candidates(x, y2, h));
        assert forall|z: Seq<int>| z.len() == y2.len() && takes_circle_candidates(z, y2, h) implies cx
            <= #[trigger] l1_tv_circ_cost(z, y2, weights, alpha, half_turn) by {
            assert(takes_circle_candidates(z, y, h) == takes_circle_candidates(z, y2, h));
            assert(cx <= l1_tv_circ_cost(z, y, weights, alpha, half_turn));
        }
    }
    if is_circ_candidate_minimiser(x, y2, weights, alpha, half_turn) {
        assert(takes_circle_candidates(x, y, h) == takes_circle_candidates(x, y2, h));
        assert forall|z: Seq<int>| z.len() == y.len() && takes_circle_candidates(z, y, h) implies cx
            <= #[trigger] l1_tv_circ_cost(z, y, weights, alpha, half_turn) by {
            assert(takes_circle_candidates(z, y, h) == takes_circle_candidates(z, y2, h));
            assert(cx <= l1_tv_circ_cost(z, y2, weights, alpha, half_turn));
        }
    }
}
/// Giving no weights and giving a weight of 1 to every sample pose the same
/// problem: the two have exactly the same minimisers, so a solver call
/// without weights and one with all-one weights return minimisers of equal
/// objective.
pub proof fn lemma_circ_no_weights_minimisers(x: Seq<int>, y: Seq<i64>, alpha: int, half_turn: i64)
    requires
        x.len() == y.len(),
    ensures
        is_l1_tv_circ_minimiser(x, y, None, alpha, half_turn) == is_l1_tv_circ_minimiser(x, y, Some(Seq::new(y.len(), |i: int| 1i64)), alpha, half_turn),
{
    let n = y.len() as int;
    lemma_no_weights_are_unit_weights(x, y, alpha, Metric::Circle(half_turn), n);
    assert forall|z: Seq<int>| z.len() == y.len() implies #[trigger] l1_tv_circ_cost(z, y, None, alpha, half_turn) == l1_tv_circ_cost(
        z,
        y,
        Some(Seq::new(y.len(), |i: int| 1i64)),
        alpha, half_turn,
    ) by {
        lemma_no_weights_are_unit_weights(z, y, alpha, Metric::Circle(half_turn), n);
    }
    let ones = Seq::new(y.len(), |i: int| 1i64);
    let cx = l1_tv_circ_cost(x, y, None, alpha, half_turn);
    if is_l1_tv_circ_minimiser(x, y, None, alpha, half_turn) {
        assert forall|z: Seq<int>| z.len() == y.len() implies l1_tv_circ_cost(x, y, Some(ones), alpha, half_turn)
            <= #[trigger] l1_tv_circ_cost(z, y, Some(ones), alpha, half_turn) by {
            assert(cx <= l1_tv_circ_cost(z, y, None, alpha, half_turn));
        }
    }
    if is_l1_tv_circ_minimiser(x, y, Some(ones), alpha, half_turn) {
        assert forall|z: Seq<int>| z.len() == y.len() implies cx <= #[trigger] l1_tv_circ_cost(z, y, None, alpha, half_turn) by {
            assert(l1_tv_circ_cost(x, y, Some(ones), alpha, half_turn) <= l1_tv_circ_cost(z, y, Some(ones), alpha, half_turn));
        }
    }
}
} // verus!
