use l1tv::circle_valued::{antipode, arc_distance, build_candidates, solve_l1_tv_circ, wrap_angle};

/// Half a turn: angles are measured in thousandths of pi.
const H: i64 = 1000;

fn cost(x: &[i64], y: &[i64], alpha: i64, w: Option<&[i64]>) -> i64 {
    let mut c = 0;
    for i in 1..x.len() {
        c += alpha * arc_distance(x[i], x[i - 1], H);
    }
    for i in 0..x.len() {
        let wi = w.map_or(1, |w| w[i]);
        c += wi * arc_distance(x[i], wrap_angle(y[i], H), H);
    }
    c
}

/// Angle in units of `H` per pi for a value given in radians.
fn units(rad: f64) -> i64 {
    (rad / std::f64::consts::PI * H as f64).round() as i64
}

#[test]
fn wrap_angle_corners() {
    assert_eq!(wrap_angle(0, H), 0);
    assert_eq!(wrap_angle(H, H), H);
    assert_eq!(wrap_angle(-H, H), H);
    assert_eq!(wrap_angle(2 * H, H), 0);
    assert_eq!(wrap_angle(3 * H, H), H);
    assert_eq!(wrap_angle(-H / 2, H), -H / 2);
    assert_eq!(wrap_angle(3 * H / 2, H), -H / 2);
}

#[test]
fn antipode_corners() {
    assert_eq!(antipode(0, H), H);
    assert_eq!(antipode(H, H), 0);
    assert_eq!(antipode(-H / 2, H), H / 2);
}

#[test]
fn arc_distance_symmetric_and_bounded() {
    for &(a, b) in &[(0, 0), (0, H), (-H / 2, H / 2), (units(0.1), units(-0.1))] {
        let d1 = arc_distance(a, b, H);
        let d2 = arc_distance(b, a, H);
        assert_eq!(d1, d2);
        assert!((0..=H).contains(&d1));
    }
}

#[test]
fn circ_dt_and_naive_agree_on_objective() {
    // Slope 0.4 against unit weights, as slope 2 against weights 5.
    let y: Vec<i64> = (0..20).map(|i| units((i as f64 * 0.7).sin() * std::f64::consts::PI)).collect();
    let w = vec![5; 20];
    let alpha = 2;
    let x_dt = solve_l1_tv_circ(&y, alpha, Some(&w), true, H);
    let x_nv = solve_l1_tv_circ(&y, alpha, Some(&w), false, H);
    let c_dt = cost(&x_dt, &y, alpha, Some(&w));
    let c_nv = cost(&x_nv, &y, alpha, Some(&w));
    assert_eq!(c_dt, c_nv, "DT vs naive cost mismatch: dt={c_dt}, naive={c_nv}");
}

#[test]
fn dt_and_naive_agree_with_weights_and_branch_cut() {
    // Inputs straddling the half-turn branch cut; weights and slope scaled by ten.
    let y: Vec<i64> = vec![-H + 16, H - 16, -H + 32, H - 32, 0, H / 2, -H / 2, -H + 6, H];
    let w: Vec<i64> = (0..y.len() as i64).map(|i| 5 + 2 * i).collect();
    let alpha = 6;
    let x_dt = solve_l1_tv_circ(&y, alpha, Some(&w), true, H);
    let x_nv = solve_l1_tv_circ(&y, alpha, Some(&w), false, H);
    let c_dt = cost(&x_dt, &y, alpha, Some(&w));
    let c_nv = cost(&x_nv, &y, alpha, Some(&w));
    assert_eq!(c_dt, c_nv, "branch-cut DT vs naive: dt={c_dt}, nv={c_nv}");
}

#[test]
fn alpha_zero_recovers_input_wrapped() {
    let y = vec![units(0.5), H + units(0.3), -H - units(0.2), 5 * H / 2];
    let x = solve_l1_tv_circ(&y, 0, None, true, H);
    for i in 0..y.len() {
        let expected = wrap_angle(y[i], H);
        assert_eq!(x[i], expected, "x[{i}]={} expected wrap_angle={}", x[i], expected);
    }
}

#[test]
fn circ_huge_alpha_collapses_to_constant() {
    let y = vec![0, H / 4, H / 2, 3 * H / 4, H];
    let x = solve_l1_tv_circ(&y, 10_000_000_000, None, true, H);
    for i in 1..x.len() {
        let d = arc_distance(x[i], x[0], H);
        assert_eq!(d, 0, "huge alpha should collapse to constant arc, got {d}");
    }
}

#[test]
fn circ_empty_input() {
    let x = solve_l1_tv_circ(&[], 1, None, true, H);
    assert!(x.is_empty());
}

#[test]
fn singleton_returns_wrapped_input() {
    let x = solve_l1_tv_circ(&[3 * H], 1, None, true, H);
    assert_eq!(x.len(), 1);
    assert_eq!(arc_distance(x[0], H, H), 0);
}

#[test]
fn output_in_candidate_set() {
    let y: Vec<i64> = [0.5, -0.3, 1.2, -0.3, 2.5, 0.5].iter().map(|&r| units(r)).collect();
    // Slope 0.4 against unit weights, as slope 2 against weights 5.
    let x = solve_l1_tv_circ(&y, 2, Some(&[5; 6]), true, H);
    let wrapped: Vec<i64> = y.iter().map(|&yi| wrap_angle(yi, H)).collect();
    let v = build_candidates(&wrapped, H);
    for &xi in &x {
        assert!(v.contains(&xi), "x value {xi} not in candidate set");
    }
}

#[test]
fn candidates_hold_values_and_antipodes() {
    let v = build_candidates(&[0, 500, 0, -250], H);
    assert_eq!(v, vec![-500, -250, 0, 500, 750, 1000]);
}

#[test]
fn candidates_keep_a_value_that_is_also_an_antipode_twice() {
    let v = build_candidates(&[0, H, 0], H);
    assert_eq!(v, vec![0, 0, H, H]);
}

#[test]
fn antipode_of_angles_outside_the_turn() {
    assert_eq!(antipode(3 * H, H), 0);
    assert_eq!(antipode(-3 * H / 2, H), -H / 2);
    assert_eq!(antipode(i64::MAX, H), wrap_angle(wrap_angle(i64::MAX, H) + H, H));
}

#[test]
fn candidates_of_no_angles() {
    assert!(build_candidates(&[], H).is_empty());
}

#[test]
fn wrap_angle_of_large_values() {
    assert_eq!(wrap_angle(7 * H + 1, H), -H + 1);
    assert_eq!(wrap_angle(-7 * H - 1, H), H - 1);
    assert_eq!(wrap_angle(i64::MIN, 4), 0);
}

#[test]
fn solution_follows_the_short_arc() {
    // Two plateaus just either side of the branch cut are one plateau on the circle.
    let y = vec![H - 10, H - 10, -H + 10, -H + 10];
    let x = solve_l1_tv_circ(&y, 30, None, true, H);
    for i in 1..x.len() {
        assert_eq!(x[i], x[0]);
    }
    assert!(x[0] == H - 10 || x[0] == -H + 10);
}

#[test]
fn matches_exhaustive_search_on_small_circle() {
    let h = 6;
    let cases: Vec<(Vec<i64>, i64, Option<Vec<i64>>)> = vec![
        (vec![0, 5, -5, 6], 1, None),
        (vec![3, -3, 2, 11, -8], 2, Some(vec![1, 3, 0, 2, 1])),
        (vec![1, 7, 1, 7], 3, None),
    ];
    for (y, alpha, w) in cases {
        let n = y.len();
        let mut best = i64::MAX;
        let mut idx = vec![0i64; n];
        loop {
            let x: Vec<i64> = idx.iter().map(|&i| i - h + 1).collect();
            let mut c = 0;
            for i in 0..n {
                let wi = w.as_ref().map_or(1, |w| w[i]);
                c += wi * arc_distance(x[i], wrap_angle(y[i], h), h);
                if i > 0 {
                    c += alpha * arc_distance(x[i], x[i - 1], h);
                }
            }
            best = best.min(c);
            let mut p = 0;
            while p < n {
                idx[p] += 1;
                if idx[p] < 2 * h {
                    break;
                }
                idx[p] = 0;
                p += 1;
            }
            if p == n {
                break;
            }
        }
        for &dt in &[true, false] {
            let x = solve_l1_tv_circ(&y, alpha, w.as_deref(), dt, h);
            let mut c = 0;
            for i in 0..n {
                let wi = w.as_ref().map_or(1, |w| w[i]);
                c += wi * arc_distance(x[i], wrap_angle(y[i], h), h);
                if i > 0 {
                    c += alpha * arc_distance(x[i], x[i - 1], h);
                }
            }
            assert_eq!(c, best, "y={y:?} alpha={alpha} dt={dt}");
        }
    }
}

#[test]
fn circ_optimal_cost_grows_and_variation_shrinks_with_slope() {
    let y: Vec<i64> = vec![0, 400, -300, 900, -900, 200, 700, -600];
    let mut prev_cost = i64::MIN;
    let mut prev_tv = i64::MAX;
    for &alpha in &[0, 1, 2, 3, 5, 10, 100] {
        let x = solve_l1_tv_circ(&y, alpha, None, true, H);
        let c = cost(&x, &y, alpha, None);
        let tv: i64 = x.windows(2).map(|p| arc_distance(p[1], p[0], H)).sum();
        assert!(c >= prev_cost, "optimal cost fell: alpha={alpha}, cost={c}, prev={prev_cost}");
        assert!(tv <= prev_tv, "variation grew: alpha={alpha}, tv={tv}, prev={prev_tv}");
        prev_cost = c;
        prev_tv = tv;
    }
}

#[test]
fn negative_weights_minimise_over_candidates() {
    let h = 6;
    let y = vec![0, 5, -5, 3];
    let w = vec![2, -1, 3, 1];
    let alpha = 1;
    let wrapped: Vec<i64> = y.iter().map(|&v| wrap_angle(v, h)).collect();
    let cands = build_candidates(&wrapped, h);
    let n = y.len();
    let cost_of = |x: &[i64]| -> i64 {
        let mut c = 0;
        for i in 0..n {
            c += w[i] * arc_distance(x[i], wrapped[i], h);
            if i > 0 {
                c += alpha * arc_distance(x[i], x[i - 1], h);
            }
        }
        c
    };
    let mut best = i64::MAX;
    let mut idx = vec![0usize; n];
    loop {
        let x: Vec<i64> = idx.iter().map(|&i| cands[i]).collect();
        best = best.min(cost_of(&x));
        let mut p = 0;
        while p < n {
            idx[p] += 1;
            if idx[p] < cands.len() {
                break;
            }
            idx[p] = 0;
            p += 1;
        }
        if p == n {
            break;
        }
    }
    for &dt in &[true, false] {
        let x = solve_l1_tv_circ(&y, alpha, Some(&w), dt, h);
        assert_eq!(cost_of(&x), best, "dt={dt}");
    }
}

#[test]
fn whole_turns_in_the_input_do_not_change_the_optimum() {
    let y = vec![0, 400, -300, 900, -900, 200];
    let y2: Vec<i64> = y.iter().enumerate().map(|(i, &v)| v + 2 * H * (i as i64 - 2)).collect();
    for &alpha in &[0, 1, 3] {
        let x = solve_l1_tv_circ(&y, alpha, None, true, H);
        let x2 = solve_l1_tv_circ(&y2, alpha, None, true, H);
        assert_eq!(cost(&x, &y, alpha, None), cost(&x2, &y2, alpha, None), "alpha={alpha}");
        assert_eq!(x, x2);
    }
}
