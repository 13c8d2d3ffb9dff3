//! The exact run of the real-line dynamic program: which candidate list,
//! which columns, which back-pointers and which final state it takes. Every
//! step is determined by the signal, so the solver's output is a function
//! of its inputs alone, ties between minimisers included.

use vstd::prelude::*;
use crate::arith::abs;
use crate::columns::{is_relaxation, path_values};
use crate::dist_transform::{lemma_recorded_sources_unique, records_nearest_sources};
use crate::dp::{is_first_min, trace};
use crate::objective::{weight_at, Metric};
use crate::sorting::is_strictly_sorted;

verus! {

/// `v` lists the distinct values of `y`, ascending.
pub open spec fn is_value_list(v: Seq<i64>, y: Seq<i64>) -> bool {
    &&& is_strictly_sorted(v)
    &&& forall|t: i64| v.contains(t) <==> y.contains(t)
}

/// The back-pointers that the real-line transition records. With the
/// distance transform: the sources that the transform records. Otherwise:
/// the first candidate that attains the minimum.
pub open spec fn line_pointers_follow(
    mid: Seq<i64>,
    am: Seq<u32>,
    b_prev: Seq<i64>,
    v: Seq<i64>,
    alpha: int,
    use_dist_transform: bool,
) -> bool {
    if use_dist_transform {
        records_nearest_sources(mid, am, b_prev, v, alpha)
    } else {
        forall|i: int, j: int|
            0 <= i < v.len() && 0 <= j < am[i] ==> #[trigger] mid[i] < b_prev[j] + alpha * abs(
                v[i] - #[trigger] v[j],
            )
    }
}

/// One column of the run: the cheapest arrival at each candidate with
/// pointers `am` chosen as above, plus the data term of the sample `yc`
/// with weight `wc`.
pub open spec fn line_column_step(
    b_prev: Seq<i64>,
    b: Seq<i64>,
    am: Seq<u32>,
    v: Seq<i64>,
    yc: i64,
    wc: int,
    alpha: int,
    use_dist_transform: bool,
) -> bool {
    exists|mid: Seq<i64>|
        #![trigger is_relaxation(mid, am, b_prev, v, alpha, Metric::Line)]
        is_relaxation(mid, am, b_prev, v, alpha, Metric::Line) && line_pointers_follow(
            mid,
            am,
            b_prev,
            v,
            alpha,
            use_dist_transform,
        ) && b.len() == v.len() && forall|i: int| 0 <= i < v.len() ==> #[trigger] b[i] == mid[i] + wc * abs(v[i] - yc)
}

/// Every column after the first follows from its predecessor by one step.
pub open spec fn line_columns_follow(
    bs: Seq<Seq<i64>>,
    cols: Seq<Vec<u32>>,
    v: Seq<i64>,
    y: Seq<i64>,
    weights: Option<Seq<i64>>,
    alpha: int,
    use_dist_transform: bool,
) -> bool {
    forall|c: int|
        1 <= c < y.len() ==> line_column_step(
            bs[c - 1],
            #[trigger] bs[c],
            cols[c - 1]@,
            v,
            y[c],
            weight_at(weights, c),
            alpha,
            use_dist_transform,
        )
}

/// The first column: the data term of the first sample.
pub open spec fn is_first_line_column(b: Seq<i64>, v: Seq<i64>, y: Seq<i64>, weights: Option<Seq<i64>>) -> bool {
    &&& b.len() == v.len()
    &&& forall|i: int| 0 <= i < v.len() ==> #[trigger] b[i] == weight_at(weights, 0) * abs(v[i] - y[0])
}

/// A complete run of the real-line dynamic program on at least two samples
/// and at least two distinct values: columns `bs`, back-pointer columns
/// `cols`, final state `l`, and the traced output `x`.
pub open spec fn is_line_run(
    x: Seq<int>,
    y: Seq<i64>,
    weights: Option<Seq<i64>>,
    alpha: int,
    use_dist_transform: bool,
    v: Seq<i64>,
    bs: Seq<Seq<i64>>,
    cols: Seq<Vec<u32>>,
    l: int,
) -> bool {
    let n = y.len() as int;
    &&& bs.len() == n
    &&& cols.len() == n - 1
    &&& is_first_line_column(bs[0], v, y, weights)
    &&& line_columns_follow(bs, cols, v, y, weights, alpha, use_dist_transform)
    &&& is_first_min(bs[n - 1], l)
    &&& x == path_values(cols, v, n - 1, l)
}

/// `x` is what the real-line dynamic program returns for `y`: nothing for
/// no sample, the sample itself for one, the common value when all samples
/// are equal, and otherwise the traced output of its run.
pub open spec fn is_line_output(
    x: Seq<int>,
    y: Seq<i64>,
    weights: Option<Seq<i64>>,
    alpha: int,
    use_dist_transform: bool,
) -> bool {
    if y.len() == 0 {
        x.len() == 0
    } else if y.len() == 1 {
        x == seq![y[0] as int]
    } else {
        exists|v: Seq<i64>|
            #![trigger is_value_list(v, y)]
            is_value_list(v, y) && if v.len() == 1 {
                x == Seq::new(y.len(), |c: int| v[0] as int)
            } else {
                exists|bs: Seq<Seq<i64>>, cols: Seq<Vec<u32>>, l: int|
                    #[trigger] is_line_run(x, y, weights, alpha, use_dist_transform, v, bs, cols, l)
            }
    }
}

/// Two ascending lists of the distinct values of `y` are equal.
proof fn lemma_value_list_unique(v1: Seq<i64>, v2: Seq<i64>, y: Seq<i64>)
    requires
        is_value_list(v1, y),
        is_value_list(v2, y),
    ensures
        v1 == v2,
{
    broadcast use vstd::seq_lib::group_to_multiset_ensures;

    let leq = |a: i64, b: i64| a <= b;
    assert(v1.no_duplicates());
    assert(v2.no_duplicates());
    v1.lemma_multiset_has_no_duplicates();
    v2.lemma_multiset_has_no_duplicates();
    assert(v1.to_multiset() =~= v2.to_multiset()) by {
        assert forall|t: i64| v1.to_multiset().count(t) == v2.to_multiset().count(t) by {
            assert(v1.contains(t) == v2.contains(t));
        }
    }
    assert(vstd::relations::sorted_by(v1, leq));
    assert(vstd::relations::sorted_by(v2, leq));
    assert(vstd::relations::total_ordering(leq));
    vstd::seq_lib::lemma_sorted_unique(v1, v2, leq);
}

/// One column step is a function of the previous column.
proof fn lemma_line_step_unique(
    b_prev: Seq<i64>,
    b1: Seq<i64>,
    am1: Seq<u32>,
    b2: Seq<i64>,
    am2: Seq<u32>,
    v: Seq<i64>,
    yc: i64,
    wc: int,
    alpha: int,
    use_dist_transform: bool,
)
    requires
        line_column_step(b_prev, b1, am1, v, yc, wc, alpha, use_dist_transform),
        line_column_step(b_prev, b2, am2, v, yc, wc, alpha, use_dist_transform),
    ensures
        b1 == b2,
        am1 == am2,
{
    let k = v.len() as int;
    let mid1 = choose|mid: Seq<i64>|
        is_relaxation(mid, am1, b_prev, v, alpha, Metric::Line) && line_pointers_follow(
            mid,
            am1,
            b_prev,
            v,
            alpha,
            use_dist_transform,
        ) && b1.len() == v.len() && forall|i: int| 0 <= i < v.len() ==> #[trigger] b1[i] == mid[i] + wc * abs(v[i] - yc);
    let mid2 = choose|mid: Seq<i64>|
        is_relaxation(mid, am2, b_prev, v, alpha, Metric::Line) && line_pointers_follow(
            mid,
            am2,
            b_prev,
            v,
            alpha,
            use_dist_transform,
        ) && b2.len() == v.len() && forall|i: int| 0 <= i < v.len() ==> #[trigger] b2[i] == mid[i] + wc * abs(v[i] - yc);
    assert forall|i: int| 0 <= i < k implies mid1[i] == mid2[i] by {
        assert(am1[i] < k && am2[i] < k);
        assert(mid1[i] <= b_prev[am2[i] as int] + alpha * abs(v[i] - v[am2[i] as int]));
        assert(mid2[i] <= b_prev[am1[i] as int] + alpha * abs(v[i] - v[am1[i] as int]));
    }
    assert(mid1 =~= mid2);
    if use_dist_transform {
        lemma_recorded_sources_unique(mid1, am1, mid2, am2, b_prev, v, alpha);
    } else {
        assert forall|i: int| 0 <= i < k implies am1[i] == am2[i] by {
            if am1[i] < am2[i] {
                let j = am1[i] as int;
                assert(mid2[i] < b_prev[j] + alpha * abs(v[i] - v[j]));
            } else if am2[i] < am1[i] {
                let j = am2[i] as int;
                assert(mid1[i] < b_prev[j] + alpha * abs(v[i] - v[j]));
            }
        }
    }
    assert(am1 =~= am2);
    assert(b1 =~= b2);
}

/// Two runs with the same candidate list agree on the first `c` columns
/// and the back-pointers between them.
proof fn lemma_line_runs_agree(
    y: Seq<i64>,
    weights: Option<Seq<i64>>,
    alpha: int,
    use_dist_transform: bool,
    v: Seq<i64>,
    bs1: Seq<Seq<i64>>,
    cols1: Seq<Vec<u32>>,
    bs2: Seq<Seq<i64>>,
    cols2: Seq<Vec<u32>>,
    c: int,
)
    requires
        1 <= c <= y.len(),
        bs1.len() == y.len(),
        bs2.len() == y.len(),
        is_first_line_column(bs1[0], v, y, weights),
        is_first_line_column(bs2[0], v, y, weights),
        line_columns_follow(bs1, cols1, v, y, weights, alpha, use_dist_transform),
        line_columns_follow(bs2, cols2, v, y, weights, alpha, use_dist_transform),
    ensures
        bs1[c - 1] == bs2[c - 1],
        forall|q: int| 0 <= q < c - 1 ==> (#[trigger] cols1[q])@ == cols2[q]@,
    decreases c,
{
    if c == 1 {
        assert(bs1[0] =~= bs2[0]);
    } else {
        lemma_line_runs_agree(y, weights, alpha, use_dist_transform, v, bs1, cols1, bs2, cols2, c - 1);
        assert(line_column_step(bs1[c - 2], bs1[c - 1], cols1[c - 2]@, v, y[c - 1], weight_at(weights, c - 1), alpha, use_dist_transform));
        assert(line_column_step(bs2[c - 2], bs2[c - 1], cols2[c - 2]@, v, y[c - 1], weight_at(weights, c - 1), alpha, use_dist_transform));
        lemma_line_step_unique(
            bs1[c - 2],
            bs1[c - 1],
            cols1[c - 2]@,
            bs2[c - 1],
            cols2[c - 2]@,
            v,
            y[c - 1],
            weight_at(weights, c - 1),
            alpha,
            use_dist_transform,
        );
    }
}

/// A traced path reads only the views of the back-pointer columns.
proof fn lemma_line_trace_views(c1: Seq<Vec<u32>>, c2: Seq<Vec<u32>>, col: int, i: int)
    requires
        col <= c1.len(),
        col <= c2.len(),
        forall|c: int| 0 <= c < col ==> (#[trigger] c1[c])@ == c2[c]@,
    ensures
        trace(c1, col, i) == trace(c2, col, i),
    decreases col,
{
    if col > 0 {
        assert(c1[col - 1]@ == c2[col - 1]@);
        lemma_line_trace_views(c1, c2, col - 1, c1[col - 1]@[i] as int);
    }
}

/// The real-line dynamic program is deterministic: its output is fixed by
/// the signal, the weights, the slope and the choice of column method, so
/// of several minimisers it always returns the same one.
pub proof fn lemma_line_output_unique(
    x1: Seq<int>,
    x2: Seq<int>,
    y: Seq<i64>,
    weights: Option<Seq<i64>>,
    alpha: int,
    use_dist_transform: bool,
)
    requires
        is_line_output(x1, y, weights, alpha, use_dist_transform),
        is_line_output(x2, y, weights, alpha, use_dist_transform),
    ensures
        x1 == x2,
{
    let n = y.len() as int;
    if n >= 2 {
        let v1 = choose|v: Seq<i64>|
            is_value_list(v, y) && if v.len() == 1 {
                x1 == Seq::new(y.len(), |c: int| v[0] as int)
            } else {
                exists|bs: Seq<Seq<i64>>, cols: Seq<Vec<u32>>, l: int|
                    #[trigger] is_line_run(x1, y, weights, alpha, use_dist_transform, v, bs, cols, l)
            };
        let v2 = choose|v: Seq<i64>|
            is_value_list(v, y) && if v.len() == 1 {
                x2 == Seq::new(y.len(), |c: int| v[0] as int)
            } else {
                exists|bs: Seq<Seq<i64>>, cols: Seq<Vec<u32>>, l: int|
                    #[trigger] is_line_run(x2, y, weights, alpha, use_dist_transform, v, bs, cols, l)
            };
        lemma_value_list_unique(v1, v2, y);
        if v1.len() == 1 {
            assert(x1 =~= x2);
        } else {
            let (bs1, cols1, l1) = choose|bs: Seq<Seq<i64>>, cols: Seq<Vec<u32>>, l: int|
                is_line_run(x1, y, weights, alpha, use_dist_transform, v1, bs, cols, l);
            let (bs2, cols2, l2) = choose|bs: Seq<Seq<i64>>, cols: Seq<Vec<u32>>, l: int|
                is_line_run(x2, y, weights, alpha, use_dist_transform, v1, bs, cols, l);
            lemma_line_runs_agree(y, weights, alpha, use_dist_transform, v1, bs1, cols1, bs2, cols2, n);
            let b = bs1[n - 1];
            assert(is_first_min(b, l1) && is_first_min(b, l2));
            if l1 < l2 {
                assert(b[l2] < b[l1]);
            } else if l2 < l1 {
                assert(b[l1] < b[l2]);
            }
            lemma_line_trace_views(cols1, cols2, n - 1, l1);
            assert(x1 =~= x2);
        }
    }
}

} // verus!
