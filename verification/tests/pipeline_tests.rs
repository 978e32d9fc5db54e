//! End-to-end pipeline tests: accumulate, build contingency tables, score,
//! and select, as the surrounding program does.

use recoreco::Accumulator;
use recoreco::RescorePlan;
use recoreco::contingency;
use recoreco::rescore_plan;
use recoreco::select_top;

fn logarithms_table(max_arg: usize) -> Vec<f64> {
    (0..max_arg)
        .map(|index| if index == 0 { 0.0 } else { (index as f64).ln() })
        .collect()
}

fn x_logx(x: u64) -> f64 {
    if x == 0 {
        0.0
    } else {
        x as f64 * (x as f64).ln()
    }
}

fn lookup_log(logarithms: &[f64], x: u64) -> f64 {
    if (x as usize) < logarithms.len() {
        logarithms[x as usize]
    } else {
        (x as f64).ln()
    }
}

fn log_likelihood_ratio(k11: u64, k12: u64, k21: u64, k22: u64, logarithms: &[f64]) -> f64 {
    let xlx_all = x_logx(k11 + k12 + k21 + k22);
    let row_entropy = xlx_all - (k11 + k12) as f64 * lookup_log(logarithms, k11 + k12) - x_logx(
        k21 + k22,
    );
    let column_entropy = xlx_all - (k11 + k21) as f64 * lookup_log(logarithms, k11 + k21) - x_logx(
        k12 + k22,
    );
    let matrix_entropy = xlx_all - k11 as f64 * lookup_log(logarithms, k11) - k12 as f64
        * lookup_log(logarithms, k12) - k21 as f64 * lookup_log(logarithms, k21) - x_logx(k22);
    if row_entropy + column_entropy < matrix_entropy {
        0.0
    } else {
        2.0 * (row_entropy + column_entropy - matrix_entropy)
    }
}

/// The full pipeline over integer ids, one indicator set per item.
fn compute_indicators(
    interactions: &Vec<(u32, u32)>,
    num_users: usize,
    num_items: usize,
    n: usize,
    f_max: u32,
    k_max: u32,
    seed: u64,
) -> Vec<Vec<u32>> {
    let mut acc = Accumulator::new(num_users, num_items, f_max, k_max, seed);
    acc.accumulate(interactions);
    let logs = logarithms_table((f_max as usize) * (k_max as usize) + 1);
    let mut result: Vec<Vec<u32>> = (0..num_items).map(|_| Vec::new()).collect();
    for item in acc.dirty_items() {
        let indicators = match rescore_plan(&acc, item, n) {
            RescorePlan::Keep(v) => v,
            RescorePlan::Score(candidates) => {
                let scored: Vec<(u32, u64)> = candidates
                    .iter()
                    .map(|&other| {
                        let (k11, k12, k21, k22) = contingency(&acc, item, other);
                        (other, log_likelihood_ratio(k11, k12, k21, k22, &logs).to_bits())
                    })
                    .collect();
                select_top(&scored, n)
            },
        };
        let mut sorted = indicators;
        sorted.sort();
        result[item as usize] = sorted;
    }
    result
}

#[test]
fn programmatic_usage() {
    // alice = 0, bob = 1, charles = 2; apple = 0, dog = 1, pony = 2, bike = 3
    let interactions: Vec<(u32, u32)> = vec![
        (0, 0),
        (0, 1),
        (0, 2),
        (1, 0),
        (1, 2),
        (2, 2),
        (2, 3),
    ];
    let result = compute_indicators(&interactions, 3, 4, 10, 500, 500, 42);
    assert_eq!(result.len(), 4);
    assert_eq!(result[0], vec![1, 2]);
    assert!(!result[0].contains(&0));
    for (item, indicators) in result.iter().enumerate() {
        assert!(indicators.len() <= 3);
        assert!(!indicators.contains(&(item as u32)));
    }
}

#[test]
fn scored_path_keeps_n_best() {
    // a hub item that cooccurs with more partners than n, at distinct counts
    let mut interactions: Vec<(u32, u32)> = Vec::new();
    // user u interacts with the hub item 0 and with partner items; partner p
    // appears with the hub in p different user histories
    let mut user: u32 = 0;
    for p in 1..8u32 {
        for _ in 0..p {
            interactions.push((user, 0));
            interactions.push((user, p));
            user += 1;
        }
    }
    let num_users = user as usize;
    let result = compute_indicators(&interactions, num_users, 8, 3, 500, 500, 11);
    assert_eq!(result[0].len(), 3);
    assert!(!result[0].contains(&0));
}

#[test]
fn empty_input_gives_empty_sets() {
    let interactions: Vec<(u32, u32)> = Vec::new();
    let result = compute_indicators(&interactions, 4, 6, 10, 500, 500, 0);
    assert_eq!(result.len(), 6);
    for set in result {
        assert!(set.is_empty());
    }
}

#[test]
fn identical_runs_identical_results() {
    let mut interactions: Vec<(u32, u32)> = Vec::new();
    for i in 0..500u32 {
        interactions.push((i % 4, (i * 17) % 30));
    }
    let a = compute_indicators(&interactions, 4, 30, 5, 20, 10, 2024);
    let b = compute_indicators(&interactions, 4, 30, 5, 20, 10, 2024);
    assert_eq!(a, b);
}
