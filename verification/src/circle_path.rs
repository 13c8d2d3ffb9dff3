//! The exact run of the circle dynamic program: which candidate list,
//! which columns, which back-pointers and which final state it takes. Every
//! step is determined by the wrapped signal, so the solver's output is a
//! function of the wrapped signal alone.

use vstd::prelude::*;
use crate::circle_valued::{is_antipode_of_value, is_turn_replica, wrapped};
use crate::columns::{is_relaxation, path_values};
use crate::dist_transform::{is_sorted, lemma_recorded_sources_unique, records_nearest_sources};
use crate::dp::{is_first_min, trace};
use crate::objective::{arc, weight_at, Metric};

verus! {

/// The signal wrapped into the half-open turn `(-h, h]`, sample by sample.
pub open spec fn wrapped_signal(y: Seq<i64>, h: int) -> Seq<i64> {
    Seq::new(y.len(), |c: int| wrapped(y[c] as int, h) as i64)
}

/// `v` is the sorted candidate list of the wrapped signal `ya`: each
/// distinct value once and each distinct antipode once.
pub open spec fn is_candidate_list(v: Seq<i64>, ya: Seq<i64>, h: int) -> bool {
    &&& is_sorted(v)
    &&& forall|t: i64|
        #[trigger] v.to_multiset().count(t) == (if ya.contains(t) { 1nat } else { 0nat }) + (if is_antipode_of_value(
            t as int,
            ya,
            h,
        ) {
            1nat
        } else {
            0nat
        })
}

/// The copy of candidate `i` on the replicated grid (below, in place or
/// above) whose envelope value is smallest, the first one on ties.
pub open spec fn first_cheapest_copy(out: Seq<i64>, k: int, i: int) -> int {
    let best_low_mid = if out[k + i] < out[i] { k + i } else { i };
    if out[2 * k + i] < out[best_low_mid] {
        2 * k + i
    } else {
        best_low_mid
    }
}

/// The back-pointers that the circle transition records. With the distance
/// transform: the source that the transform on the replicated grid records
/// at the first cheapest copy of each candidate, reduced to a candidate.
/// Otherwise: the first candidate that attains the minimum.
pub open spec fn circle_pointers_follow(
    mid: Seq<i64>,
    am: Seq<u32>,
    b_prev: Seq<i64>,
    v: Seq<i64>,
    alpha: int,
    h: int,
    use_dist_transform: bool,
) -> bool {
    if use_dist_transform {
        exists|vr: Seq<i64>, out: Seq<i64>, amr: Seq<u32>|
            #![trigger is_turn_replica(vr, v, h), records_nearest_sources(out, amr, b_prev + b_prev + b_prev, vr, alpha)]
            is_turn_replica(vr, v, h) && records_nearest_sources(out, amr, b_prev + b_prev + b_prev, vr, alpha)
                && forall|i: int|
                0 <= i < v.len() ==> #[trigger] am[i] as int == amr[first_cheapest_copy(out, v.len() as int, i)]
                    as int % (v.len() as int)
    } else {
        forall|i: int, j: int|
            0 <= i < v.len() && 0 <= j < am[i] ==> #[trigger] mid[i] < b_prev[j] + alpha * arc(
                v[i] as int,
                #[trigger] v[j] as int,
                h,
            )
    }
}

/// One column of the run: from the previous column `b_prev`, the
/// transition gives the cheapest arrival at each candidate with pointers
/// `am` chosen as above, and `b` adds the data term of the sample `yc`
/// with weight `wc`.
pub open spec fn circle_column_step(
    b_prev: Seq<i64>,
    b: Seq<i64>,
    am: Seq<u32>,
    v: Seq<i64>,
    yc: i64,
    wc: int,
    alpha: int,
    half_turn: i64,
    use_dist_transform: bool,
) -> bool {
    exists|mid: Seq<i64>|
        #![trigger is_relaxation(mid, am, b_prev, v, alpha, Metric::Circle(half_turn))]
        is_relaxation(mid, am, b_prev, v, alpha, Metric::Circle(half_turn)) && circle_pointers_follow(
            mid,
            am,
            b_prev,
            v,
            alpha,
            half_turn as int,
            use_dist_transform,
        ) && b.len() == v.len() && forall|i: int|
            0 <= i < v.len() ==> #[trigger] b[i] == mid[i] + wc * arc(v[i] as int, yc as int, half_turn as int)
}

/// Every column after the first follows from its predecessor by one step.
pub open spec fn columns_follow(
    bs: Seq<Seq<i64>>,
    cols: Seq<Vec<u32>>,
    v: Seq<i64>,
    ya: Seq<i64>,
    weights: Option<Seq<i64>>,
    alpha: int,
    half_turn: i64,
    use_dist_transform: bool,
) -> bool {
    forall|c: int|
        1 <= c < ya.len() ==> circle_column_step(
            bs[c - 1],
            #[trigger] bs[c],
            cols[c - 1]@,
            v,
            ya[c],
            weight_at(weights, c),
            alpha,
            half_turn,
            use_dist_transform,
        )
}

/// The first column: the data term of the first sample.
pub open spec fn is_first_column(b: Seq<i64>, v: Seq<i64>, ya: Seq<i64>, weights: Option<Seq<i64>>, h: int) -> bool {
    &&& b.len() == v.len()
    &&& forall|i: int| 0 <= i < v.len() ==> #[trigger] b[i] == weight_at(weights, 0) * arc(v[i] as int, ya[0] as int, h)
}

/// A complete run of the circle dynamic program on at least two samples of
/// the wrapped signal `ya`: candidate list `v`, columns `bs`, back-pointer
/// columns `cols`, final state `l`, and the traced output `x`.
pub open spec fn is_circle_run(
    x: Seq<int>,
    ya: Seq<i64>,
    weights: Option<Seq<i64>>,
    alpha: int,
    half_turn: i64,
    use_dist_transform: bool,
    v: Seq<i64>,
    bs: Seq<Seq<i64>>,
    cols: Seq<Vec<u32>>,
    l: int,
) -> bool {
    let n = ya.len() as int;
    let h = half_turn as int;
    &&& is_candidate_list(v, ya, h)
    &&& bs.len() == n
    &&& cols.len() == n - 1
    &&& is_first_column(bs[0], v, ya, weights, h)
    &&& columns_follow(bs, cols, v, ya, weights, alpha, half_turn, use_dist_transform)
    &&& is_first_min(bs[n - 1], l)
    &&& x == path_values(cols, v, n - 1, l)
}

/// `x` is what the circle dynamic program returns for the wrapped signal
/// `ya`: nothing for no sample, the sample itself for one, and otherwise
/// the traced output of its run.
pub open spec fn is_circle_output(
    x: Seq<int>,
    ya: Seq<i64>,
    weights: Option<Seq<i64>>,
    alpha: int,
    half_turn: i64,
    use_dist_transform: bool,
) -> bool {
    if ya.len() == 0 {
        x.len() == 0
    } else if ya.len() == 1 {
        x == seq![ya[0] as int]
    } else {
        exists|v: Seq<i64>, bs: Seq<Seq<i64>>, cols: Seq<Vec<u32>>, l: int|
            #[trigger] is_circle_run(x, ya, weights, alpha, half_turn, use_dist_transform, v, bs, cols, l)
    }
}

/// Two sorted candidate lists of the same signal are equal.
proof fn lemma_candidate_list_unique(v1: Seq<i64>, v2: Seq<i64>, ya: Seq<i64>, h: int)
    requires
        is_candidate_list(v1, ya, h),
        is_candidate_list(v2, ya, h),
    ensures
        v1 == v2,
{
    let leq = |a: i64, b: i64| a <= b;
    assert(v1.to_multiset() =~= v2.to_multiset()) by {
        assert forall|t: i64| v1.to_multiset().count(t) == v2.to_multiset().count(t) by {}
    }
    assert(vstd::relations::sorted_by(v1, leq));
    assert(vstd::relations::sorted_by(v2, leq));
    assert(vstd::relations::total_ordering(leq));
    vstd::seq_lib::lemma_sorted_unique(v1, v2, leq);
}

/// One column step is a function of the previous column.
proof fn lemma_column_step_unique(
    b_prev: Seq<i64>,
    b1: Seq<i64>,
    am1: Seq<u32>,
    b2: Seq<i64>,
    am2: Seq<u32>,
    v: Seq<i64>,
    yc: i64,
    wc: int,
    alpha: int,
    half_turn: i64,
    use_dist_transform: bool,
)
    requires
        circle_column_step(b_prev, b1, am1, v, yc, wc, alpha, half_turn, use_dist_transform),
        circle_column_step(b_prev, b2, am2, v, yc, wc, alpha, half_turn, use_dist_transform),
    ensures
        b1 == b2,
        am1 == am2,
{
    let h = half_turn as int;
    let metric = Metric::Circle(half_turn);
    let k = v.len() as int;
    let mid1 = choose|mid: Seq<i64>|
        is_relaxation(mid, am1, b_prev, v, alpha, metric) && circle_pointers_follow(
            mid,
            am1,
            b_prev,
            v,
            alpha,
            h,
            use_dist_transform,
        ) && b1.len() == v.len() && forall|i: int|
            0 <= i < v.len() ==> #[trigger] b1[i] == mid[i] + wc * arc(v[i] as int, yc as int, h);
    let mid2 = choose|mid: Seq<i64>|
        is_relaxation(mid, am2, b_prev, v, alpha, metric) && circle_pointers_follow(
            mid,
            am2,
            b_prev,
            v,
            alpha,
            h,
            use_dist_transform,
        ) && b2.len() == v.len() && forall|i: int|
            0 <= i < v.len() ==> #[trigger] b2[i] == mid[i] + wc * arc(v[i] as int, yc as int, h);
    assert forall|i: int| 0 <= i < k implies mid1[i] == mid2[i] by {
        assert(am1[i] < k && am2[i] < k);
        assert(mid1[i] <= b_prev[am2[i] as int] + alpha * arc(v[i] as int, v[am2[i] as int] as int, h));
        assert(mid2[i] <= b_prev[am1[i] as int] + alpha * arc(v[i] as int, v[am1[i] as int] as int, h));
    }
    assert(mid1 =~= mid2);
    if use_dist_transform {
        let (vr1, out1, amr1) = choose|vr: Seq<i64>, out: Seq<i64>, amr: Seq<u32>|
            is_turn_replica(vr, v, h) && records_nearest_sources(out, amr, b_prev + b_prev + b_prev, vr, alpha)
                && forall|i: int|
                0 <= i < v.len() ==> #[trigger] am1[i] as int == amr[first_cheapest_copy(out, k, i)] as int % k;
        let (vr2, out2, amr2) = choose|vr: Seq<i64>, out: Seq<i64>, amr: Seq<u32>|
            is_turn_replica(vr, v, h) && records_nearest_sources(out, amr, b_prev + b_prev + b_prev, vr, alpha)
                && forall|i: int|
                0 <= i < v.len() ==> #[trigger] am2[i] as int == amr[first_cheapest_copy(out, k, i)] as int % k;
        assert forall|p: int| 0 <= p < vr1.len() implies vr1[p] == vr2[p] by {
            if p < k {
                assert(vr1[p] == v[p] - 2 * h);
                assert(vr2[p] == v[p] - 2 * h);
            } else if p < 2 * k {
                assert(vr1[k + (p - k)] == v[p - k]);
                assert(vr2[k + (p - k)] == v[p - k]);
            } else {
                assert(vr1[2 * k + (p - 2 * k)] == v[p - 2 * k] + 2 * h);
                assert(vr2[2 * k + (p - 2 * k)] == v[p - 2 * k] + 2 * h);
            }
        }
        assert(vr1 =~= vr2);
        lemma_recorded_sources_unique(out1, amr1, out2, amr2, b_prev + b_prev + b_prev, vr1, alpha);
        assert forall|i: int| 0 <= i < k implies am1[i] == am2[i] by {
            assert(am1[i] as int == amr1[first_cheapest_copy(out1, k, i)] as int % k);
            assert(am2[i] as int == amr2[first_cheapest_copy(out2, k, i)] as int % k);
        }
    } else {
        assert forall|i: int| 0 <= i < k implies am1[i] == am2[i] by {
            if am1[i] < am2[i] {
                let j = am1[i] as int;
                assert(mid2[i] < b_prev[j] + alpha * arc(v[i] as int, v[j] as int, h));
            } else if am2[i] < am1[i] {
                let j = am2[i] as int;
                assert(mid1[i] < b_prev[j] + alpha * arc(v[i] as int, v[j] as int, h));
            }
        }
    }
    assert(am1 =~= am2);
    assert(b1 =~= b2);
}

/// A traced path reads only the views of the back-pointer columns.
proof fn lemma_trace_views(c1: Seq<Vec<u32>>, c2: Seq<Vec<u32>>, col: int, i: int)
    requires
        col <= c1.len(),
        col <= c2.len(),
        forall|c: int| 0 <= c < col ==> (#[trigger] c1[c])@ == c2[c]@,
    ensures
        trace(c1, col, i) == trace(c2, col, i),
    decreases col,
{
    if col > 0 {
        assert(c1[col - 1]@ == c2[col - 1]@);
        lemma_trace_views(c1, c2, col - 1, c1[col - 1]@[i] as int);
    }
}

/// Two runs on the same signal with the same candidate list agree on the
/// first `c` columns and the back-pointers between them.
proof fn lemma_runs_agree(
    ya: Seq<i64>,
    weights: Option<Seq<i64>>,
    alpha: int,
    half_turn: i64,
    use_dist_transform: bool,
    v: Seq<i64>,
    bs1: Seq<Seq<i64>>,
    cols1: Seq<Vec<u32>>,
    bs2: Seq<Seq<i64>>,
    cols2: Seq<Vec<u32>>,
    c: int,
)
    requires
        1 <= c <= ya.len(),
        bs1.len() == ya.len(),
        bs2.len() == ya.len(),
        is_first_column(bs1[0], v, ya, weights, half_turn as int),
        is_first_column(bs2[0], v, ya, weights, half_turn as int),
        columns_follow(bs1, cols1, v, ya, weights, alpha, half_turn, use_dist_transform),
        columns_follow(bs2, cols2, v, ya, weights, alpha, half_turn, use_dist_transform),
    ensures
        bs1[c - 1] == bs2[c - 1],
        forall|q: int| 0 <= q < c - 1 ==> (#[trigger] cols1[q])@ == cols2[q]@,
    decreases c,
{
    if c == 1 {
        assert(bs1[0] =~= bs2[0]);
    } else {
        lemma_runs_agree(ya, weights, alpha, half_turn, use_dist_transform, v, bs1, cols1, bs2, cols2, c - 1);
        assert(circle_column_step(bs1[c - 2], bs1[c - 1], cols1[c - 2]@, v, ya[c - 1], weight_at(weights, c - 1), alpha, half_turn, use_dist_transform));
        assert(circle_column_step(bs2[c - 2], bs2[c - 1], cols2[c - 2]@, v, ya[c - 1], weight_at(weights, c - 1), alpha, half_turn, use_dist_transform));
        lemma_column_step_unique(
            bs1[c - 2],
            bs1[c - 1],
            cols1[c - 2]@,
            bs2[c - 1],
            cols2[c - 2]@,
            v,
            ya[c - 1],
            weight_at(weights, c - 1),
            alpha,
            half_turn,
            use_dist_transform,
        );
    }
}

/// The circle dynamic program is deterministic: its output is fixed by the
/// wrapped signal, the weights, the slope, the half turn and the choice of
/// column method.
pub proof fn lemma_circle_output_unique(
    x1: Seq<int>,
    x2: Seq<int>,
    ya: Seq<i64>,
    weights: Option<Seq<i64>>,
    alpha: int,
    half_turn: i64,
    use_dist_transform: bool,
)
    requires
        is_circle_output(x1, ya, weights, alpha, half_turn, use_dist_transform),
        is_circle_output(x2, ya, weights, alpha, half_turn, use_dist_transform),
    ensures
        x1 == x2,
{
    let n = ya.len() as int;
    let h = half_turn as int;
    if n >= 2 {
        let (v1, bs1, cols1, l1) = choose|v: Seq<i64>, bs: Seq<Seq<i64>>, cols: Seq<Vec<u32>>, l: int|
            is_circle_run(x1, ya, weights, alpha, half_turn, use_dist_transform, v, bs, cols, l);
        let (v2, bs2, cols2, l2) = choose|v: Seq<i64>, bs: Seq<Seq<i64>>, cols: Seq<Vec<u32>>, l: int|
            is_circle_run(x2, ya, weights, alpha, half_turn, use_dist_transform, v, bs, cols, l);
        lemma_candidate_list_unique(v1, v2, ya, h);
        lemma_runs_agree(ya, weights, alpha, half_turn, use_dist_transform, v1, bs1, cols1, bs2, cols2, n);
        let b = bs1[n - 1];
        assert(is_first_min(b, l1) && is_first_min(b, l2));
        if l1 < l2 {
            assert(b[l2] < b[l1]);
        } else if l2 < l1 {
            assert(b[l1] < b[l2]);
        }
        lemma_trace_views(cols1, cols2, n - 1, l1);
        assert(x1 =~= x2);
    }
}

/// The circle solver's output depends on the signal only through its
/// wrapped angles: signals whose samples wrap to the same angles give the
/// same output.
pub proof fn lemma_circle_output_wrapped_only(
    x1: Seq<int>,
    x2: Seq<int>,
    y1: Seq<i64>,
    y2: Seq<i64>,
    weights: Option<Seq<i64>>,
    alpha: int,
    half_turn: i64,
    use_dist_transform: bool,
)
    requires
        y1.len() == y2.len(),
        forall|c: int| 0 <= c < y1.len() ==> wrapped(#[trigger] y1[c] as int, half_turn as int) == wrapped(
            y2[c] as int,
            half_turn as int,
        ),
        is_circle_output(x1, wrapped_signal(y1, half_turn as int), weights, alpha, half_turn, use_dist_transform),
        is_circle_output(x2, wrapped_signal(y2, half_turn as int), weights, alpha, half_turn, use_dist_transform),
    ensures
        x1 == x2,
{
    let h = half_turn as int;
    assert(wrapped_signal(y1, h) =~= wrapped_signal(y2, h));
    lemma_circle_output_unique(x1, x2, wrapped_signal(y1, h), weights, alpha, half_turn, use_dist_transform);
}

} // verus!
