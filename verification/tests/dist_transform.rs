use l1tv::dist_transform::{l1_dt, l1_dt_with_argmin};

/// Brute-force minimum over all source indices.
fn naive_dt(b: &[i64], r: &[i64], alpha: i64) -> Vec<i64> {
    let k = b.len();
    let mut out = vec![i64::MAX; k];
    for i in 0..k {
        for j in 0..k {
            let cand = b[j] + alpha * (r[i] - r[j]).abs();
            if cand < out[i] {
                out[i] = cand;
            }
        }
    }
    out
}

#[test]
fn matches_naive_on_symmetric_v() {
    // Costs and slopes scaled by ten so that the slopes 0, 0.1, 1 and 10
    // become integers; the positions stay as they are.
    let b_init = vec![100, 50, 0, 50, 100];
    let r = vec![-2, -1, 0, 1, 2];
    for &alpha in &[0, 1, 10, 100] {
        let mut b = b_init.clone();
        l1_dt(&mut b, &r, alpha);
        assert_eq!(b, naive_dt(&b_init, &r, alpha), "alpha={alpha}");
    }
}

#[test]
fn matches_naive_on_random() {
    // Deterministic LCG for reproducibility without a random-number crate.
    let mut state: u64 = 0xDEADBEEF;
    let mut next = || {
        state = state.wrapping_mul(6364136223846793005).wrapping_add(1442695040888963407);
        ((state >> 33) as i64) - (1i64 << 30)
    };
    for _trial in 0..20 {
        let k = 8 + (next().unsigned_abs() % 50) as usize;
        let mut b: Vec<i64> = (0..k).map(|_| next() % 10_000).collect();
        let mut r: Vec<i64> = (0..k).map(|_| next() % 5_000).collect();
        r.sort();
        r.dedup();
        let k = r.len();
        b.truncate(k);
        let alpha = (next().unsigned_abs() % 20) as i64 + 1;
        let b_init = b.clone();
        l1_dt(&mut b, &r, alpha);
        assert_eq!(b, naive_dt(&b_init, &r, alpha), "k={k}, alpha={alpha}");
    }
}

#[test]
fn argmin_recovers_min() {
    let b_init = vec![10, 5, 0, 5, 10];
    let r = vec![-2, -1, 0, 1, 2];
    let alpha = 1;
    let mut b = b_init.clone();
    let mut am = vec![0u32; b.len()];
    l1_dt_with_argmin(&mut b, &r, alpha, &mut am);
    for i in 0..b.len() {
        let j = am[i] as usize;
        let recomputed = b_init[j] + alpha * (r[i] - r[j]).abs();
        assert_eq!(b[i], recomputed, "argmin[{i}]={j} did not produce the recorded min");
    }
}

#[test]
fn zero_alpha_yields_global_min_everywhere() {
    let b_init = vec![3, 1, 4, 1, 5];
    let r = vec![-2, -1, 0, 1, 2];
    let mut b = b_init.clone();
    l1_dt(&mut b, &r, 0);
    let global_min = *b_init.iter().min().unwrap();
    for &v in &b {
        assert_eq!(v, global_min);
    }
}

#[test]
fn singleton_unchanged() {
    let mut b = vec![42];
    let r = vec![0];
    l1_dt(&mut b, &r, 1);
    assert_eq!(b, vec![42]);
}

#[test]
fn empty_does_not_panic() {
    let mut b: Vec<i64> = vec![];
    let r: Vec<i64> = vec![];
    l1_dt(&mut b, &r, 1);
    let mut am: Vec<u32> = vec![];
    l1_dt_with_argmin(&mut b, &r, 1, &mut am);
}

#[test]
fn envelope_exact_values() {
    // A single deep well at position 3 spreads with slope 2; position 0 keeps its own cost.
    let mut b = vec![1, 50, 50, 0, 50];
    let r = vec![0, 1, 2, 3, 10];
    let mut am = vec![7u32; 5];
    l1_dt_with_argmin(&mut b, &r, 2, &mut am);
    assert_eq!(b, vec![1, 3, 2, 0, 14]);
    assert_eq!(am, vec![0, 0, 3, 3, 3]);
}

#[test]
fn repeated_positions_are_allowed() {
    let mut b = vec![9, 4, 7];
    let r = vec![5, 5, 5];
    let mut am = vec![0u32; 3];
    l1_dt_with_argmin(&mut b, &r, 3, &mut am);
    assert_eq!(b, vec![4, 4, 4]);
    assert_eq!(am, vec![1, 1, 1]);
}

#[test]
fn negative_costs() {
    let mut b = vec![-5, 10, -20];
    let r = vec![0, 4, 8];
    l1_dt(&mut b, &r, 1);
    assert_eq!(b, vec![-12, -16, -20]);
}

#[test]
fn argmin_keeps_a_position_unless_strictly_beaten() {
    let b_init = vec![0, 0, 0];
    let r = vec![0, 1, 2];
    let mut b = b_init.clone();
    let mut am = vec![7u32, 9, 4];
    l1_dt_with_argmin(&mut b, &r, 0, &mut am);
    assert_eq!(b, b_init);
    assert_eq!(am, vec![0, 1, 2]);
}

#[test]
fn argmin_ties_prefer_the_nearest_source_on_the_left() {
    // Position 1 is reached at 1 from both neighbours; the left one is kept.
    let mut b = vec![0, 10, 0];
    let mut am = vec![0u32; 3];
    l1_dt_with_argmin(&mut b, &[0, 1, 2], 1, &mut am);
    assert_eq!(b, vec![0, 1, 0]);
    assert_eq!(am, vec![0, 0, 2]);
    // Equal sources at the same distance on one side: the nearer one wins.
    let mut b = vec![0, 0, 9, 9];
    let mut am = vec![0u32; 4];
    l1_dt_with_argmin(&mut b, &[0, 0, 1, 2], 2, &mut am);
    assert_eq!(b, vec![0, 0, 2, 4]);
    assert_eq!(am, vec![0, 1, 1, 1]);
    // A strictly cheaper source on the right is taken, nearest first.
    let mut b = vec![9, 5, 0, 0];
    let mut am = vec![0u32; 4];
    l1_dt_with_argmin(&mut b, &[0, 1, 2, 2], 1, &mut am);
    assert_eq!(b, vec![2, 1, 0, 0]);
    assert_eq!(am, vec![2, 2, 2, 3]);
}

#[test]
fn argmin_result_does_not_depend_on_prior_contents() {
    let b_init = vec![4, 8, 1, 6, 3, 9];
    let r = vec![0, 2, 3, 7, 8, 12];
    let mut b1 = b_init.clone();
    let mut b2 = b_init.clone();
    let mut am1 = vec![0u32; 6];
    let mut am2 = vec![5u32, 4, 3, 2, 1, 0];
    l1_dt_with_argmin(&mut b1, &r, 1, &mut am1);
    l1_dt_with_argmin(&mut b2, &r, 1, &mut am2);
    assert_eq!(b1, b2);
    assert_eq!(am1, am2);
}

#[test]
fn both_transforms_agree_and_a_second_pass_changes_nothing() {
    let b_init = vec![4, 8, 1, 6, 3, 9];
    let r = vec![0, 2, 3, 7, 8, 12];
    let mut plain = b_init.clone();
    l1_dt(&mut plain, &r, 2);
    let mut with_sources = b_init.clone();
    let mut am = vec![0u32; 6];
    l1_dt_with_argmin(&mut with_sources, &r, 2, &mut am);
    assert_eq!(plain, with_sources);
    let mut again = plain.clone();
    l1_dt(&mut again, &r, 2);
    assert_eq!(again, plain);
}
