//! Tests of the log-likelihood-ratio scoring and of the bounded selection.
//!
//! The G-squared score itself is floating-point work and lives outside the
//! verified library; the helper here mirrors the scoring used around it and
//! pins the kernel to its published reference values. The selection over
//! score keys is the library's `select_top`.

use recoreco::select_top;

fn logarithms_table(max_arg: usize) -> Vec<f64> {
    (0..max_arg)
        .map(|index| if index == 0 { 0.0 } else { (index as f64).ln() })
        .collect()
}

fn x_logx(x: u64) -> f64 {
    if x == 0 {
        0.0
    } else {
        x as f64 * (x as f64).ln()
    }
}

fn x_times_logx(x: u64, log_x: f64) -> f64 {
    x as f64 * log_x
}

fn lookup_log(logarithms: &[f64], x: u64) -> f64 {
    if (x as usize) < logarithms.len() {
        logarithms[x as usize]
    } else {
        (x as f64).ln()
    }
}

fn log_likelihood_ratio(k11: u64, k12: u64, k21: u64, k22: u64, logarithms: &[f64]) -> f64 {
    let xlx_all = x_logx(k11 + k12 + k21 + k22);
    let log_k11 = lookup_log(logarithms, k11);
    let log_k12 = lookup_log(logarithms, k12);
    let log_k21 = lookup_log(logarithms, k21);
    let log_k11_12 = lookup_log(logarithms, k11 + k12);
    let log_k11_21 = lookup_log(logarithms, k11 + k21);

    let row_entropy = xlx_all - x_times_logx(k11 + k12, log_k11_12) - x_logx(k21 + k22);
    let column_entropy = xlx_all - x_times_logx(k11 + k21, log_k11_21) - x_logx(k12 + k22);
    let matrix_entropy = xlx_all - x_times_logx(k11, log_k11) - x_times_logx(k12, log_k12)
        - x_times_logx(k21, log_k21) - x_logx(k22);

    if row_entropy + column_entropy < matrix_entropy {
        0.0
    } else {
        2.0 * (row_entropy + column_entropy - matrix_entropy)
    }
}

fn close_enough_to(value: f64, expected: f64) -> bool {
    (value - expected).abs() < 0.01
}

#[test]
fn llr_reference_values() {
    let logs = logarithms_table(500 * 500);
    assert!(close_enough_to(log_likelihood_ratio(110, 2442, 111, 29114, &logs), 270.72));
    assert!(close_enough_to(log_likelihood_ratio(29, 13, 123, 31612, &logs), 263.90));
    assert!(close_enough_to(log_likelihood_ratio(9, 12, 429, 31327, &logs), 48.94));
}

#[test]
fn llr_transpose_symmetry() {
    let logs = logarithms_table(500 * 500);
    let cases: [(u64, u64, u64, u64); 4] =
        [(110, 2442, 111, 29114), (29, 13, 123, 31612), (9, 12, 429, 31327), (5, 0, 7, 100)];
    for (k11, k12, k21, k22) in cases {
        let a = log_likelihood_ratio(k11, k12, k21, k22, &logs);
        let b = log_likelihood_ratio(k11, k21, k12, k22, &logs);
        assert!((a - b).abs() < 1e-9);
    }
}

#[test]
fn llr_degenerate_zero() {
    // with an empty first cell, a table whose second or third cell is empty
    // too carries no signal
    let logs = logarithms_table(1000);
    assert_eq!(log_likelihood_ratio(0, 0, 5, 9, &logs), 0.0);
    assert_eq!(log_likelihood_ratio(0, 3, 0, 9, &logs), 0.0);
    assert_eq!(log_likelihood_ratio(0, 0, 5, 0, &logs), 0.0);
    assert_eq!(log_likelihood_ratio(0, 3, 0, 0, &logs), 0.0);
    assert_eq!(log_likelihood_ratio(0, 0, 0, 0, &logs), 0.0);
}

#[test]
fn llr_nonnegative() {
    let logs = logarithms_table(1000);
    for k11 in [0u64, 1, 5, 20] {
        for k12 in [0u64, 2, 17] {
            for k21 in [0u64, 3, 11] {
                for k22 in [1u64, 50, 400] {
                    assert!(log_likelihood_ratio(k11, k12, k21, k22, &logs) >= 0.0);
                }
            }
        }
    }
}

#[test]
fn topk_saturation() {
    // 15 candidates with pairwise distinct scores: exactly the 10 highest stay
    let scored: Vec<(u32, u64)> = (0..15u32).map(|i| (i, (i as u64) * 3 + 1)).collect();
    let mut kept = select_top(&scored, 10);
    kept.sort();
    assert_eq!(kept, (5..15u32).collect::<Vec<u32>>());
}

#[test]
fn equal_scores_never_displace() {
    let scored: Vec<(u32, u64)> = vec![(1, 10), (2, 10), (3, 10)];
    let mut kept = select_top(&scored, 2);
    kept.sort();
    assert_eq!(kept, vec![1, 2]);
}

#[test]
fn topk_by_float_scores() {
    // the selection over float scores goes through the order-preserving bit
    // representation of nonnegative doubles
    let scores: [(u32, f64); 5] = [(1, 0.5), (2, 1.5), (3, 0.3), (4, 3.5), (5, 2.5)];
    let scored: Vec<(u32, u64)> = scores.iter().map(|&(i, s)| (i, s.to_bits())).collect();
    let mut kept = select_top(&scored, 3);
    kept.sort();
    assert_eq!(kept, vec![2, 4, 5]);
}

#[test]
fn selection_smaller_than_capacity() {
    let scored: Vec<(u32, u64)> = vec![(8, 3), (9, 1)];
    let mut kept = select_top(&scored, 10);
    kept.sort();
    assert_eq!(kept, vec![8, 9]);
}
