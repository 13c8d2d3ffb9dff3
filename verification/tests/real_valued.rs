use l1tv::real_valued::solve_l1_tv_real;
use l1tv::sorting::sorted_unique;
use std::collections::BTreeSet;

/// The L1-TV objective (no weights means all ones).
fn cost(x: &[i64], y: &[i64], alpha: i64, w: Option<&[i64]>) -> i64 {
    let mut c = 0;
    for i in 1..x.len() {
        c += alpha * (x[i] - x[i - 1]).abs();
    }
    for i in 0..x.len() {
        let wi = w.map_or(1, |w| w[i]);
        c += wi * (x[i] - y[i]).abs();
    }
    c
}

/// Exhaustive minimum over all sequences of values taken from `vals`.
fn brute_force(y: &[i64], vals: &[i64], alpha: i64, w: Option<&[i64]>) -> i64 {
    let n = y.len();
    let mut best = i64::MAX;
    let mut idx = vec![0usize; n];
    loop {
        let x: Vec<i64> = idx.iter().map(|&i| vals[i]).collect();
        best = best.min(cost(&x, y, alpha, w));
        let mut p = 0;
        while p < n {
            idx[p] += 1;
            if idx[p] < vals.len() {
                break;
            }
            idx[p] = 0;
            p += 1;
        }
        if p == n {
            return best;
        }
    }
}

#[test]
fn real_dt_and_naive_agree_on_objective() {
    // Slope 0.5 with unit weights is the same problem as slope 1 with weights 2.
    let y = vec![1, 3, 2, 5, 4, 1, 3, 2, 6, 5];
    let w = vec![2; 10];
    let alpha = 1;
    let x_dt = solve_l1_tv_real(&y, alpha, Some(&w), true);
    let x_nv = solve_l1_tv_real(&y, alpha, Some(&w), false);
    let c_dt = cost(&x_dt, &y, alpha, Some(&w));
    let c_nv = cost(&x_nv, &y, alpha, Some(&w));
    assert_eq!(c_dt, c_nv, "DT vs naive cost mismatch: dt={c_dt}, naive={c_nv}");
}

#[test]
fn dt_and_naive_agree_on_objective_with_weights() {
    // Weights and slope scaled by ten.
    let y = vec![1, 2, 3, 4, 5, 4, 3, 2, 1];
    let w = vec![5, 10, 20, 5, 10, 20, 5, 10, 20];
    let alpha = 7;
    let x_dt = solve_l1_tv_real(&y, alpha, Some(&w), true);
    let x_nv = solve_l1_tv_real(&y, alpha, Some(&w), false);
    assert_eq!(cost(&x_dt, &y, alpha, Some(&w)), cost(&x_nv, &y, alpha, Some(&w)));
}

#[test]
fn alpha_zero_recovers_input() {
    let y = vec![3, 1, 4, 1, 5, 9, 2, 6];
    let x = solve_l1_tv_real(&y, 0, None, true);
    assert_eq!(x, y);
}

#[test]
fn real_huge_alpha_collapses_to_constant() {
    let y = vec![1, 2, 3, 4, 5];
    let x = solve_l1_tv_real(&y, 10_000_000_000, None, true);
    for i in 1..x.len() {
        assert_eq!(x[i], x[0], "huge alpha should collapse to constant; got x={x:?}");
    }
}

#[test]
fn real_empty_input() {
    let x = solve_l1_tv_real(&[], 1, None, true);
    assert!(x.is_empty());
}

#[test]
fn singleton_returns_input() {
    let x = solve_l1_tv_real(&[42], 1, None, true);
    assert_eq!(x, vec![42]);
}

#[test]
fn output_lies_in_unique_y() {
    // Signal doubled, slope 0.3 with unit weights as slope 3 with weights 10.
    let y = vec![3, 5, 3, 7, 5, 3, 8];
    let w = vec![10; 7];
    let x = solve_l1_tv_real(&y, 3, Some(&w), true);
    let v: BTreeSet<i64> = y.iter().cloned().collect();
    for &xi in &x {
        assert!(v.contains(&xi), "candidate-set theorem violated: x value {xi} not in unique(y)");
    }
}

#[test]
fn all_equal_y_returns_constant() {
    let y = vec![314; 7];
    let x = solve_l1_tv_real(&y, 1, Some(&[2; 7]), true);
    for &xi in &x {
        assert_eq!(xi, 314);
    }
}

#[test]
fn cost_monotone_in_alpha() {
    // Slopes 0, 0.1, 0.5, 1, 5 and 1e6 against unit weights, all scaled by ten.
    let y = vec![1, 5, 2, 8, 3, 6, 4, 7];
    let w = vec![10; 8];
    let mut prev_distinct = usize::MAX;
    for &alpha in &[0, 1, 5, 10, 50, 10_000_000] {
        let x = solve_l1_tv_real(&y, alpha, Some(&w), true);
        let distinct: BTreeSet<i64> = x.iter().cloned().collect();
        assert!(
            distinct.len() <= prev_distinct,
            "distinct levels grew with alpha: alpha={alpha}, levels={}, prev={prev_distinct}",
            distinct.len()
        );
        prev_distinct = distinct.len();
    }
}

#[test]
fn matches_exhaustive_search() {
    let cases: Vec<(Vec<i64>, i64, Option<Vec<i64>>)> = vec![
        (vec![0, 10, 0, 10, 0], 3, None),
        (vec![4, -2, 7, 7, -2, 4], 2, Some(vec![1, 3, 0, 2, 1, 5])),
        (vec![5, 1, 9, 3], 1, Some(vec![2, 2, 2, 2])),
        (vec![-3, 6, -3, 6, 0, 2], 4, None),
    ];
    for (y, alpha, w) in cases {
        let mut vals = y.clone();
        vals.sort();
        vals.dedup();
        let best = brute_force(&y, &vals, alpha, w.as_deref());
        for &dt in &[true, false] {
            let x = solve_l1_tv_real(&y, alpha, w.as_deref(), dt);
            assert_eq!(cost(&x, &y, alpha, w.as_deref()), best, "y={y:?} alpha={alpha} dt={dt}");
        }
    }
}

#[test]
fn exhaustive_over_all_integers_in_range() {
    // No integer sequence within the signal's range beats the solver.
    let y = vec![0, 3, 1, 4];
    let alpha = 2;
    let all: Vec<i64> = (-1..=5).collect();
    let best = brute_force(&y, &all, alpha, None);
    let x = solve_l1_tv_real(&y, alpha, None, true);
    assert_eq!(cost(&x, &y, alpha, None), best);
}

#[test]
fn exact_solution_of_a_step() {
    // A single outlier is flattened once the slope exceeds half its weight.
    let y = vec![0, 0, 9, 0, 0];
    assert_eq!(solve_l1_tv_real(&y, 1, None, true), vec![0, 0, 0, 0, 0]);
    assert_eq!(solve_l1_tv_real(&y, 1, None, false), vec![0, 0, 0, 0, 0]);
    // With a small slope a plateau of three samples survives.
    let y = vec![0, 9, 9, 9, 0];
    assert_eq!(solve_l1_tv_real(&y, 1, Some(&[2; 5]), true), vec![0, 9, 9, 9, 0]);
}

#[test]
fn zero_weights_free_samples() {
    // A sample with zero weight takes the value of its neighbours.
    let y = vec![2, 100, 2];
    let w = vec![1, 0, 1];
    assert_eq!(solve_l1_tv_real(&y, 1, Some(&w), true), vec![2, 2, 2]);
}

#[test]
fn sorted_unique_sorts_and_dedups() {
    assert_eq!(sorted_unique(&[3, -1, 3, 7, -1, 0]), vec![-1, 0, 3, 7]);
    assert_eq!(sorted_unique(&[]), Vec::<i64>::new());
    assert_eq!(sorted_unique(&[5, 4, 3, 2, 1]), vec![1, 2, 3, 4, 5]);
}

#[test]
fn optimal_cost_grows_and_variation_shrinks_with_slope() {
    let y = vec![1, 5, 2, 8, 3, 6, 4, 7];
    let mut prev_cost = i64::MIN;
    let mut prev_tv = i64::MAX;
    let mut prev_data = i64::MIN;
    for &alpha in &[0, 1, 2, 3, 5, 10, 50, 1000] {
        let x = solve_l1_tv_real(&y, alpha, None, true);
        let c = cost(&x, &y, alpha, None);
        let tv: i64 = x.windows(2).map(|p| (p[1] - p[0]).abs()).sum();
        let data = cost(&x, &y, 0, None);
        assert!(c >= prev_cost, "optimal cost fell: alpha={alpha}, cost={c}, prev={prev_cost}");
        assert!(tv <= prev_tv, "variation grew: alpha={alpha}, tv={tv}, prev={prev_tv}");
        assert!(data >= prev_data, "data term fell: alpha={alpha}, data={data}, prev={prev_data}");
        prev_cost = c;
        prev_tv = tv;
        prev_data = data;
    }
}

#[test]
fn negative_weights_minimise_over_signal_values() {
    let y = vec![0, 10, 0, 10, 4];
    let w = vec![1, -2, 3, 1, -1];
    let vals = sorted_unique(&y);
    for &alpha in &[0, 1, 3] {
        let best = brute_force(&y, &vals, alpha, Some(&w));
        for &dt in &[true, false] {
            let x = solve_l1_tv_real(&y, alpha, Some(&w), dt);
            assert_eq!(cost(&x, &y, alpha, Some(&w)), best, "alpha={alpha} dt={dt}");
        }
    }
}

#[test]
fn masked_sample_does_not_change_the_optimum() {
    let y = vec![1, 5, 2, 8, 3, 6];
    let mut y2 = y.clone();
    y2[3] = -40;
    let w = vec![2, 1, 3, 0, 1, 2];
    for &alpha in &[0, 1, 4] {
        let x = solve_l1_tv_real(&y, alpha, Some(&w), true);
        let x2 = solve_l1_tv_real(&y2, alpha, Some(&w), true);
        assert_eq!(cost(&x, &y, alpha, Some(&w)), cost(&x2, &y2, alpha, Some(&w)), "alpha={alpha}");
    }
}

#[test]
fn ties_resolve_the_same_way_on_both_paths() {
    // Both [0, 0] and [10, 10] (and [0, 10]) cost 10; the run keeps the first.
    for &dt in &[true, false] {
        assert_eq!(solve_l1_tv_real(&[0, 10], 1, None, dt), vec![0, 0], "dt={dt}");
    }
}
