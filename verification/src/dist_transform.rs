//! Forward and backward L1 distance transform on a sorted one-dimensional
//! grid.
//!
//! Given costs `b[j]` anchored at ascending positions `r[j]` and a slope
//! `alpha >= 0`, the transform replaces every `b[k]` by the lower envelope
//! `min_j ( b[j] + alpha * |r[k] - r[j]| )` in two linear sweeps.

use vstd::prelude::*;
use crate::arith::{abs, lemma_mul_mono, lemma_mul_nonneg, lemma_mul_split, lemma_scaled_triangle};

verus! {

/// Positions are in ascending order.
pub open spec fn is_sorted(r: Seq<i64>) -> bool {
    forall|i: int, j: int| 0 <= i <= j < r.len() ==> r[i] <= r[j]
}

/// The cost of reaching position `k` from source `j`.
pub open spec fn reach_cost(b: Seq<i64>, r: Seq<i64>, alpha: int, k: int, j: int) -> int {
    b[j] + alpha * abs(r[k] - r[j])
}

/// Every sum that the transform forms fits in an `i64`: the spread of the
/// grid, its product with `alpha`, and every cost plus that product.
pub open spec fn transform_fits(b: Seq<i64>, r: Seq<i64>, alpha: int) -> bool {
    r.len() > 0 ==> {
        let span = r[r.len() - 1] - r[0];
        &&& span <= i64::MAX
        &&& alpha * span <= i64::MAX
        &&& forall|i: int| 0 <= i < b.len() ==> b[i] + alpha * span <= i64::MAX
    }
}

/// `value` is the lower envelope at position `k`: no source beats it.
pub open spec fn below_all_sources(value: int, b: Seq<i64>, r: Seq<i64>, alpha: int, k: int) -> bool {
    forall|j: int| 0 <= j < b.len() ==> value <= #[trigger] reach_cost(b, r, alpha, k, j)
}

/// `out` is the lower envelope of `b`: every entry is at most the cost
/// from every source, and equals the cost from some source.
pub open spec fn is_envelope(out: Seq<i64>, b: Seq<i64>, r: Seq<i64>, alpha: int) -> bool {
    &&& out.len() == b.len()
    &&& forall|k: int|
        0 <= k < out.len() ==> below_all_sources(#[trigger] out[k] as int, b, r, alpha, k)
    &&& forall|k: int|
        0 <= k < out.len() ==> attained_by_a_source(#[trigger] out[k] as int, b, r, alpha, k)
}

/// Some source reaches position `k` at exactly `value`.
pub open spec fn attained_by_a_source(value: int, b: Seq<i64>, r: Seq<i64>, alpha: int, k: int) -> bool {
    exists|j: int| 0 <= j < b.len() && value == #[trigger] reach_cost(b, r, alpha, k, j)
}

/// No source strictly between `j` and `k`, nor `k` itself unless `j == k`,
/// reaches position `k` at `value` or less, for a source `j <= k`.
pub open spec fn no_nearer_on_left(value: int, b: Seq<i64>, r: Seq<i64>, alpha: int, k: int, j: int) -> bool {
    forall|m: int| j < m <= k ==> value < #[trigger] reach_cost(b, r, alpha, k, m)
}

/// `j` is the source that the transform records for position `k` with
/// envelope value `value`: `k` itself unless another source is strictly
/// cheaper; otherwise the nearest cheapest source, looking left first. A
/// source `j < k` has no source in `(j, k]` as cheap; a source `j > k` has
/// every source left of it strictly costlier.
pub open spec fn is_nearest_source(value: int, b: Seq<i64>, r: Seq<i64>, alpha: int, k: int, j: int) -> bool {
    &&& j <= k ==> no_nearer_on_left(value, b, r, alpha, k, j)
    &&& j > k ==> forall|m: int| 0 <= m < j ==> value < #[trigger] reach_cost(b, r, alpha, k, m)
}

/// `out` and `am` are what the transform with argmin tracking gives for the
/// costs `b`: the envelope, and at each position the source that attains it
/// and that the tie rule of `is_nearest_source` picks.
pub open spec fn records_nearest_sources(out: Seq<i64>, am: Seq<u32>, b: Seq<i64>, r: Seq<i64>, alpha: int) -> bool {
    &&& out.len() == b.len()
    &&& am.len() == b.len()
    &&& forall|k: int|
        0 <= k < b.len() ==> {
            &&& (#[trigger] am[k]) < b.len()
            &&& out[k] == reach_cost(b, r, alpha, k, am[k] as int)
            &&& below_all_sources(out[k] as int, b, r, alpha, k)
            &&& is_nearest_source(out[k] as int, b, r, alpha, k, am[k] as int)
        }
}

/// Facts about the grid that every sweep step relies on: the gap between
/// two positions is at most the spread, and the slope times a gap fits.
proof fn lemma_gap_fits(b: Seq<i64>, r: Seq<i64>, alpha: int, lo: int, hi: int)
    requires
        alpha >= 0,
        is_sorted(r),
        transform_fits(b, r, alpha),
        0 <= lo <= hi < r.len(),
    ensures
        0 <= r[hi] - r[lo] <= r[r.len() - 1] - r[0],
        0 <= alpha * (r[hi] - r[lo]) <= alpha * (r[r.len() - 1] - r[0]),
        alpha * (r[r.len() - 1] - r[0]) <= i64::MAX,
{
    lemma_mul_mono(alpha, r[hi] - r[lo], r[r.len() - 1] - r[0]);
    lemma_mul_nonneg(alpha, r[hi] - r[lo]);
}

/// In-place L1 distance transform with argmin tracking.
///
/// On return `b[k]` is the lower envelope `min_j (b[j] + alpha * |r[k] - r[j]|)`
/// of the initial costs and `argmin[k]` is a source index `j` that attains
/// it: `k` itself unless another source is strictly cheaper, otherwise the
/// nearest cheapest source, those on the left taking precedence on a tie.
/// The caller does not need to fill `argmin`; this function does, and its
/// former contents do not matter.
pub fn l1_dt_with_argmin(b: &mut [i64], r: &[i64], alpha: i64, argmin: &mut [u32])
    requires
        old(b)@.len() == r@.len(),
        old(argmin)@.len() == r@.len(),
        r@.len() <= u32::MAX + 1,
        alpha >= 0,
        is_sorted(r@),
        transform_fits(old(b)@, r@, alpha as int),
    ensures
        records_nearest_sources(final(b)@, final(argmin)@, old(b)@, r@, alpha as int),
        forall|k: int| 0 <= k < r@.len() && #[trigger] final(b)@[k] == old(b)@[k] ==> final(argmin)@[k] == k,
{
    let k = b.len();
    let ghost b0 = b@;
    let ghost a = alpha as int;
    if k == 0 {
        return;
    }
    let mut i: usize = 0;
    while i < k
        invariant
            k == b@.len(),
            k == argmin@.len(),
            k <= u32::MAX + 1,
            b@ == b0,
            0 <= i <= k,
            forall|p: int| 0 <= p < i ==> argmin@[p] == p,
        decreases k - i,
    {
        argmin[i] = i as u32;
        i += 1;
    }
    // Forward sweep: b[p] becomes the minimum over the sources j <= p.
    proof {
        assert(reach_cost(b0, r@, a, 0, 0) == b0[0]) by {
            assert(a * abs(r@[0] - r@[0]) == a * 0);
        }
    }
    let mut i: usize = 1;
    while i < k
        invariant
            k == b@.len(),
            k == r@.len(),
            k == argmin@.len(),
            b0.len() == k,
            1 <= i <= k,
            a == alpha,
            alpha >= 0,
            is_sorted(r@),
            transform_fits(b0, r@, a),
            forall|m: int| i <= m < k ==> b@[m] == b0[m] && argmin@[m] == m,
            forall|p: int|
                0 <= p < i ==> (#[trigger] argmin@[p]) <= p && b@[p] == reach_cost(
                    b0,
                    r@,
                    a,
                    p,
                    argmin@[p] as int,
                ),
            forall|p: int, j: int|
                0 <= j <= p < i ==> b@[p] <= #[trigger] reach_cost(b0, r@, a, p, j),
            forall|p: int|
                0 <= p < i ==> no_nearer_on_left(#[trigger] b@[p] as int, b0, r@, a, p, argmin@[p] as int),
        decreases k - i,
    {
        proof {
            lemma_gap_fits(b0, r@, a, i - 1, i as int);
            assert(b@[i - 1] <= reach_cost(b0, r@, a, i - 1, i - 1));
            assert(a * abs(r@[i - 1] - r@[i - 1]) == a * 0);
        }
        let cand = b[i - 1] + alpha * (r[i] - r[i - 1]);
        proof {
            assert forall|j: int| 0 <= j <= i - 1 implies cand <= #[trigger] reach_cost(
                b0,
                r@,
                a,
                i as int,
                j,
            ) by {
                assert(b@[i - 1] <= reach_cost(b0, r@, a, i - 1, j));
                lemma_mul_split(a, r@[i - 1] - r@[j], r@[i as int] - r@[i - 1]);
            }
            let w = argmin@[i - 1] as int;
            assert forall|m: int| w < m <= i - 1 implies cand < #[trigger] reach_cost(b0, r@, a, i as int, m) by {
                assert(no_nearer_on_left(b@[i - 1] as int, b0, r@, a, i - 1, w));
                assert(b@[i - 1] < reach_cost(b0, r@, a, i - 1, m));
                lemma_mul_split(a, r@[i - 1] - r@[m], r@[i as int] - r@[i - 1]);
            }
            lemma_mul_split(a, r@[i - 1] - r@[w], r@[i as int] - r@[i - 1]);
            assert(reach_cost(b0, r@, a, i as int, i as int) == b0[i as int]) by {
                assert(a * abs(r@[i as int] - r@[i as int]) == a * 0);
            }
        }
        let ghost pre_b = b@;
        let ghost pre_am = argmin@;
        if cand < b[i] {
            b[i] = cand;
            argmin[i] = argmin[i - 1];
        }
        assert(forall|m: int| 0 <= m < k && m != i ==> b@[m] == pre_b[m] && argmin@[m] == pre_am[m]);
        assert(forall|m: int| i < m < k ==> pre_b[m] == b0[m]);
        assert(forall|m: int| i < m < k ==> pre_am[m] == m);
        proof {
            assert forall|p: int| 0 <= p < i + 1 implies no_nearer_on_left(
                #[trigger] b@[p] as int,
                b0,
                r@,
                a,
                p,
                argmin@[p] as int,
            ) by {
                if p < i {
                    assert(no_nearer_on_left(pre_b[p] as int, b0, r@, a, p, pre_am[p] as int));
                } else if argmin@[p] != p {
                    assert(reach_cost(b0, r@, a, i as int, i as int) == b0[i as int]);
                }
            }
        }
        i += 1;
    }
    let ghost fwd = b@;
    let ghost fam = argmin@;
    // Backward sweep: combine with the sources to the right.
    let mut i: usize = k - 1;
    proof {
        assert(argmin@[k - 1] <= k - 1);
        assert forall|j: int| 0 <= j < k implies b@[k - 1] <= #[trigger] reach_cost(
            b0,
            r@,
            a,
            k - 1,
            j,
        ) by {}
    }
    while i > 0
        invariant
            k == b@.len(),
            k == r@.len(),
            k == argmin@.len(),
            b0.len() == k,
            0 <= i < k,
            a == alpha,
            alpha >= 0,
            is_sorted(r@),
            transform_fits(b0, r@, a),
            fwd.len() == k,
            fam.len() == k,
            forall|p: int| 0 <= p < i ==> b@[p] == fwd[p] && argmin@[p] == fam[p],
            forall|p: int|
                0 <= p < k ==> (#[trigger] fam[p]) <= p && fwd[p] == reach_cost(
                    b0,
                    r@,
                    a,
                    p,
                    fam[p] as int,
                ),
            forall|p: int, j: int| 0 <= j <= p < k ==> fwd[p] <= #[trigger] reach_cost(b0, r@, a, p, j),
            forall|p: int| 0 <= p < k ==> no_nearer_on_left(#[trigger] fwd[p] as int, b0, r@, a, p, fam[p] as int),
            forall|p: int|
                i <= p < k ==> {
                    &&& (#[trigger] argmin@[p]) < k
                    &&& b@[p] == reach_cost(b0, r@, a, p, argmin@[p] as int)
                    &&& below_all_sources(b@[p] as int, b0, r@, a, p)
                    &&& is_nearest_source(b@[p] as int, b0, r@, a, p, argmin@[p] as int)
                },
        decreases i,
    {
        i -= 1;
        proof {
            lemma_gap_fits(b0, r@, a, i as int, i + 1);
            assert(argmin@[i + 1] < k);
            assert(b@[i + 1] <= reach_cost(b0, r@, a, i + 1, i + 1));
            assert(a * abs(r@[i + 1] - r@[i + 1]) == a * 0);
        }
        let cand = b[i + 1] + alpha * (r[i + 1] - r[i]);
        proof {
            assert forall|j: int| i < j < k implies cand <= #[trigger] reach_cost(
                b0,
                r@,
                a,
                i as int,
                j,
            ) by {
                assert(b@[i + 1] <= reach_cost(b0, r@, a, i + 1, j));
                lemma_mul_split(a, r@[j] - r@[i + 1], r@[i + 1] - r@[i as int]);
            }
            let w = argmin@[i + 1] as int;
            lemma_scaled_triangle(a, r@[i as int] as int, r@[i + 1] as int, r@[w] as int);
            assert(fam[i as int] <= i);
            assert(b@[i as int] == fwd[i as int]);
            if cand < fwd[i as int] {
                if w <= i {
                    assert(fwd[i as int] <= reach_cost(b0, r@, a, i as int, w));
                    assert(false);
                }
                assert(is_nearest_source(b@[i + 1] as int, b0, r@, a, i + 1, w));
                assert forall|m: int| 0 <= m < w implies cand < #[trigger] reach_cost(b0, r@, a, i as int, m) by {
                    if m <= i {
                        assert(fwd[i as int] <= reach_cost(b0, r@, a, i as int, m));
                    } else {
                        assert(b@[i + 1] < reach_cost(b0, r@, a, i + 1, m));
                        lemma_mul_split(a, r@[m] - r@[i + 1], r@[i + 1] - r@[i as int]);
                    }
                }
            }
        }
        let ghost pre_am = argmin@;
        if cand < b[i] {
            b[i] = cand;
            argmin[i] = argmin[i + 1];
        }
        proof {
            if argmin@[i as int] == fam[i as int] {
                assert(no_nearer_on_left(fwd[i as int] as int, b0, r@, a, i as int, fam[i as int] as int));
            }
            assert(is_nearest_source(b@[i as int] as int, b0, r@, a, i as int, argmin@[i as int] as int));
        }
        proof {
            assert forall|j: int| 0 <= j < k implies b@[i as int] <= #[trigger] reach_cost(
                b0,
                r@,
                a,
                i as int,
                j,
            ) by {
                if j <= i as int {
                    assert(fwd[i as int] <= reach_cost(b0, r@, a, i as int, j));
                }
            }
            assert(argmin@[i as int] < k);
        }
    }
    proof {
        assert forall|p: int| 0 <= p < k && #[trigger] b@[p] == b0[p] implies argmin@[p] == p by {
            assert(reach_cost(b0, r@, a, p, p) == b0[p]) by {
                assert(a * abs(r@[p] - r@[p]) == a * 0);
            }
            assert(is_nearest_source(b@[p] as int, b0, r@, a, p, argmin@[p] as int));
        }
    }
}


/// In-place L1 distance transform on a sorted grid.
///
/// On return `b[k]` is the lower envelope `min_j (b[j] + alpha * |r[k] - r[j]|)`
/// of the initial costs.
pub fn l1_dt(b: &mut [i64], r: &[i64], alpha: i64)
    requires
        old(b)@.len() == r@.len(),
        alpha >= 0,
        is_sorted(r@),
        transform_fits(old(b)@, r@, alpha as int),
    ensures
        is_envelope(final(b)@, old(b)@, r@, alpha as int),
{
    let k = b.len();
    let ghost b0 = b@;
    let ghost a = alpha as int;
    if k <= 1 {
        proof {
            if k == 1 {
                assert(reach_cost(b0, r@, a, 0, 0) == b0[0]) by {
                    assert(a * abs(r@[0] - r@[0]) == a * 0);
                }
                assert(attained_by_a_source(b@[0] as int, b0, r@, a, 0));
            }
        }
        return;
    }
    // The source that attains each entry, followed along the sweeps.
    let ghost mut wit: Seq<int> = Seq::new(k as nat, |p: int| p);
    proof {
        assert(reach_cost(b0, r@, a, 0, 0) == b0[0]) by {
            assert(a * abs(r@[0] - r@[0]) == a * 0);
        }
    }
    let mut i: usize = 1;
    while i < k
        invariant
            k == b@.len(),
            k == r@.len(),
            b0.len() == k,
            wit.len() == k,
            1 <= i <= k,
            a == alpha,
            alpha >= 0,
            is_sorted(r@),
            transform_fits(b0, r@, a),
            forall|m: int| i <= m < k ==> b@[m] == b0[m] && wit[m] == m,
            forall|p: int|
                0 <= p < i ==> 0 <= #[trigger] wit[p] <= p && b@[p] == reach_cost(b0, r@, a, p, wit[p]),
            forall|p: int, j: int|
                0 <= j <= p < i ==> b@[p] <= #[trigger] reach_cost(b0, r@, a, p, j),
        decreases k - i,
    {
        proof {
            lemma_gap_fits(b0, r@, a, i - 1, i as int);
            assert(b@[i - 1] <= reach_cost(b0, r@, a, i - 1, i - 1));
            assert(a * abs(r@[i - 1] - r@[i - 1]) == a * 0);
        }
        let cand = b[i - 1] + alpha * (r[i] - r[i - 1]);
        proof {
            assert forall|j: int| 0 <= j <= i - 1 implies cand <= #[trigger] reach_cost(
                b0,
                r@,
                a,
                i as int,
                j,
            ) by {
                assert(b@[i - 1] <= reach_cost(b0, r@, a, i - 1, j));
                lemma_mul_split(a, r@[i - 1] - r@[j], r@[i as int] - r@[i - 1]);
            }
            let w = wit[i - 1];
            lemma_mul_split(a, r@[i - 1] - r@[w], r@[i as int] - r@[i - 1]);
            assert(reach_cost(b0, r@, a, i as int, i as int) == b0[i as int]) by {
                assert(a * abs(r@[i as int] - r@[i as int]) == a * 0);
            }
        }
        let ghost pre_b = b@;
        if cand < b[i] {
            b[i] = cand;
            proof {
                wit = wit.update(i as int, wit[i - 1]);
            }
        }
        assert(forall|m: int| i < m < k ==> pre_b[m] == b0[m]);
        i += 1;
    }
    let ghost fwd = b@;
    let ghost fwit = wit;
    let mut i: usize = k - 1;
    proof {
        assert(wit[k - 1] <= k - 1);
        assert forall|j: int| 0 <= j < k implies b@[k - 1] <= #[trigger] reach_cost(
            b0,
            r@,
            a,
            k - 1,
            j,
        ) by {}
    }
    while i > 0
        invariant
            k == b@.len(),
            k == r@.len(),
            b0.len() == k,
            wit.len() == k,
            0 <= i < k,
            a == alpha,
            alpha >= 0,
            is_sorted(r@),
            transform_fits(b0, r@, a),
            fwd.len() == k,
            fwit.len() == k,
            forall|p: int| 0 <= p < i ==> b@[p] == fwd[p] && wit[p] == fwit[p],
            forall|p: int|
                0 <= p < k ==> 0 <= #[trigger] fwit[p] <= p && fwd[p] == reach_cost(b0, r@, a, p, fwit[p]),
            forall|p: int, j: int| 0 <= j <= p < k ==> fwd[p] <= #[trigger] reach_cost(b0, r@, a, p, j),
            forall|p: int|
                i <= p < k ==> {
                    &&& 0 <= #[trigger] wit[p] < k
                    &&& b@[p] == reach_cost(b0, r@, a, p, wit[p])
                    &&& below_all_sources(b@[p] as int, b0, r@, a, p)
                },
        decreases i,
    {
        i -= 1;
        proof {
            lemma_gap_fits(b0, r@, a, i as int, i + 1);
            assert(wit[i + 1] < k);
            assert(b@[i + 1] <= reach_cost(b0, r@, a, i + 1, i + 1));
            assert(a * abs(r@[i + 1] - r@[i + 1]) == a * 0);
        }
        let cand = b[i + 1] + alpha * (r[i + 1] - r[i]);
        proof {
            assert forall|j: int| i < j < k implies cand <= #[trigger] reach_cost(
                b0,
                r@,
                a,
                i as int,
                j,
            ) by {
                assert(b@[i + 1] <= reach_cost(b0, r@, a, i + 1, j));
                lemma_mul_split(a, r@[j] - r@[i + 1], r@[i + 1] - r@[i as int]);
            }
            let w = wit[i + 1];
            lemma_scaled_triangle(a, r@[i as int] as int, r@[i + 1] as int, r@[w] as int);
            assert(fwit[i as int] <= i);
            assert(b@[i as int] == fwd[i as int]);
        }
        if cand < b[i] {
            b[i] = cand;
            proof {
                wit = wit.update(i as int, wit[i + 1]);
            }
        }
        proof {
            assert forall|j: int| 0 <= j < k implies b@[i as int] <= #[trigger] reach_cost(
                b0,
                r@,
                a,
                i as int,
                j,
            ) by {
                if j <= i as int {
                    assert(fwd[i as int] <= reach_cost(b0, r@, a, i as int, j));
                }
            }
            assert(0 <= wit[i as int] < k);
        }
    }
    proof {
        assert forall|p: int| 0 <= p < k implies attained_by_a_source(#[trigger] b@[p] as int, b0, r@, a, p) by {
            assert(0 <= wit[p] < k);
        }
        assert forall|p: int| 0 <= p < k implies below_all_sources(#[trigger] b@[p] as int, b0, r@, a, p) by {
            assert(0 <= wit[p] < k);
        }
    }
}


/// With zero slope position no longer matters: the envelope is the global
/// minimum of the costs at every position.
pub proof fn lemma_zero_slope_envelope(out: Seq<i64>, b: Seq<i64>, r: Seq<i64>)
    requires
        is_envelope(out, b, r, 0),
    ensures
        forall|k: int, j: int| 0 <= k < out.len() && 0 <= j < b.len() ==> #[trigger] out[k] <= #[trigger] b[j],
        forall|k1: int, k2: int| 0 <= k1 < out.len() && 0 <= k2 < out.len() ==> #[trigger] out[k1] == #[trigger] out[k2],
{
    assert forall|k: int, j: int| 0 <= k < out.len() && 0 <= j < b.len() implies #[trigger] out[k] <= #[trigger] b[j] by {
        assert(below_all_sources(out[k] as int, b, r, 0, k));
        assert(out[k] <= reach_cost(b, r, 0, k, j));
    }
    assert forall|k1: int, k2: int| 0 <= k1 < out.len() && 0 <= k2 < out.len() implies #[trigger] out[k1]
        == #[trigger] out[k2] by {
        assert(attained_by_a_source(out[k1] as int, b, r, 0, k1));
        assert(attained_by_a_source(out[k2] as int, b, r, 0, k2));
        let j1 = choose|j: int| 0 <= j < b.len() && out[k1] as int == #[trigger] reach_cost(b, r, 0, k1, j);
        let j2 = choose|j: int| 0 <= j < b.len() && out[k2] as int == #[trigger] reach_cost(b, r, 0, k2, j);
        assert(below_all_sources(out[k1] as int, b, r, 0, k1));
        assert(below_all_sources(out[k2] as int, b, r, 0, k2));
        assert(out[k1] <= reach_cost(b, r, 0, k1, j2));
        assert(out[k2] <= reach_cost(b, r, 0, k2, j1));
    }
}

/// Reaching a position from itself costs its own entry.
proof fn lemma_reach_self(b: Seq<i64>, r: Seq<i64>, alpha: int, k: int)
    ensures
        reach_cost(b, r, alpha, k, k) == b[k],
{
    assert(alpha * abs(r[k] - r[k]) == alpha * 0);
}

/// Two envelopes of the same costs are equal.
pub proof fn lemma_envelope_unique(o1: Seq<i64>, o2: Seq<i64>, b: Seq<i64>, r: Seq<i64>, alpha: int)
    requires
        is_envelope(o1, b, r, alpha),
        is_envelope(o2, b, r, alpha),
    ensures
        o1 == o2,
{
    assert forall|k: int| 0 <= k < o1.len() implies o1[k] == o2[k] by {
        assert(attained_by_a_source(o1[k] as int, b, r, alpha, k));
        assert(attained_by_a_source(o2[k] as int, b, r, alpha, k));
        let j1 = choose|j: int| 0 <= j < b.len() && o1[k] as int == #[trigger] reach_cost(b, r, alpha, k, j);
        let j2 = choose|j: int| 0 <= j < b.len() && o2[k] as int == #[trigger] reach_cost(b, r, alpha, k, j);
        assert(below_all_sources(o1[k] as int, b, r, alpha, k));
        assert(below_all_sources(o2[k] as int, b, r, alpha, k));
        assert(o1[k] <= reach_cost(b, r, alpha, k, j2));
        assert(o2[k] <= reach_cost(b, r, alpha, k, j1));
    }
    assert(o1 =~= o2);
}

/// The transform with argmin tracking gives exactly the same envelope as the
/// plain transform.
pub proof fn lemma_transforms_agree(
    out: Seq<i64>,
    out_with_sources: Seq<i64>,
    am: Seq<u32>,
    b: Seq<i64>,
    r: Seq<i64>,
    alpha: int,
)
    requires
        is_envelope(out, b, r, alpha),
        records_nearest_sources(out_with_sources, am, b, r, alpha),
    ensures
        out == out_with_sources,
{
    assert forall|k: int| 0 <= k < out_with_sources.len() implies attained_by_a_source(
        #[trigger] out_with_sources[k] as int,
        b,
        r,
        alpha,
        k,
    ) by {
        assert(am[k] < b.len());
    }
    assert forall|k: int| 0 <= k < out_with_sources.len() implies below_all_sources(
        #[trigger] out_with_sources[k] as int,
        b,
        r,
        alpha,
        k,
    ) by {
        assert(am[k] < b.len());
    }
    lemma_envelope_unique(out, out_with_sources, b, r, alpha);
}

/// The recorded sources are determined by the costs, positions and slope
/// alone: whatever `argmin` held before, the transform with argmin tracking
/// gives one and the same pair of envelope and sources.
pub proof fn lemma_recorded_sources_unique(
    o1: Seq<i64>,
    am1: Seq<u32>,
    o2: Seq<i64>,
    am2: Seq<u32>,
    b: Seq<i64>,
    r: Seq<i64>,
    alpha: int,
)
    requires
        records_nearest_sources(o1, am1, b, r, alpha),
        records_nearest_sources(o2, am2, b, r, alpha),
    ensures
        o1 == o2,
        am1 == am2,
{
    assert forall|k: int| 0 <= k < o1.len() implies o1[k] == o2[k] && am1[k] == am2[k] by {
        let j1 = am1[k] as int;
        let j2 = am2[k] as int;
        assert(j1 < b.len() && j2 < b.len());
        assert(o1[k] <= reach_cost(b, r, alpha, k, j2));
        assert(o2[k] <= reach_cost(b, r, alpha, k, j1));
        let v = o1[k] as int;
        lemma_reach_self(b, r, alpha, k);
        assert(is_nearest_source(v, b, r, alpha, k, j1));
        assert(is_nearest_source(v, b, r, alpha, k, j2));
        if j1 < j2 {
            if j2 <= k {
                assert(v < reach_cost(b, r, alpha, k, j2));
            } else {
                assert(v < reach_cost(b, r, alpha, k, j1));
            }
        } else if j2 < j1 {
            if j1 <= k {
                assert(v < reach_cost(b, r, alpha, k, j1));
            } else {
                assert(v < reach_cost(b, r, alpha, k, j2));
            }
        }
    }
    assert(o1 =~= o2);
    assert(am1 =~= am2);
}

/// The envelope is a fixed point: transforming it again changes nothing.
pub proof fn lemma_envelope_fixed_point(out: Seq<i64>, out2: Seq<i64>, b: Seq<i64>, r: Seq<i64>, alpha: int)
    requires
        alpha >= 0,
        is_envelope(out, b, r, alpha),
        is_envelope(out2, out, r, alpha),
    ensures
        out2 == out,
{
    assert forall|k: int| 0 <= k < out.len() implies out2[k] == out[k] by {
        assert(below_all_sources(out2[k] as int, out, r, alpha, k));
        lemma_reach_self(out, r, alpha, k);
        assert(out2[k] <= reach_cost(out, r, alpha, k, k));
        assert(attained_by_a_source(out2[k] as int, out, r, alpha, k));
        let j = choose|j: int| 0 <= j < out.len() && out2[k] as int == #[trigger] reach_cost(out, r, alpha, k, j);
        assert(attained_by_a_source(out[j] as int, b, r, alpha, j));
        let i = choose|i: int| 0 <= i < b.len() && out[j] as int == #[trigger] reach_cost(b, r, alpha, j, i);
        assert(below_all_sources(out[k] as int, b, r, alpha, k));
        assert(out[k] <= reach_cost(b, r, alpha, k, i));
        lemma_scaled_triangle(alpha, r[k] as int, r[j] as int, r[i] as int);
    }
    assert(out2 =~= out);
}

} // verus!
