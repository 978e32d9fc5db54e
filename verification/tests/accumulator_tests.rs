//! Tests of the cooccurrence accumulator: the caps, the matrix invariants,
//! determinism, and the end-to-end scenarios that need no scoring.

use recoreco::Accumulator;
use recoreco::RescorePlan;
use recoreco::rescore_plan;

/// Checks the matrix invariants on a finished accumulator: symmetry of the
/// cells, the row-sum identity, the total identity, and the caps.
fn assert_invariants(acc: &Accumulator) {
    let num_items = acc.num_items() as u32;
    let num_users = acc.num_users() as u32;
    let mut total: u128 = 0;
    for i in 0..num_items {
        let mut row_total: i128 = 0;
        for idx in 0..acc.row_size(i) {
            let (j, v) = acc.row_entry(i, idx);
            row_total += v as i128;
            assert_eq!(acc.cooc_count(i, j), acc.cooc_count(j, i));
            assert!(v >= 0);
        }
        assert_eq!(row_total, acc.row_sum_of(i) as i128);
        total += acc.row_sum_of(i) as u128;
        assert!(acc.item_count_of(i) <= acc.f_max());
    }
    assert_eq!(total, acc.n_cooc() as u128);
    for u in 0..num_users {
        assert!(acc.history_len(u) <= acc.k_max() as usize);
    }
}

fn keep_of(plan: RescorePlan) -> Vec<u32> {
    match plan {
        RescorePlan::Keep(v) => v,
        RescorePlan::Score(_) => panic!("expected a small row"),
    }
}

#[test]
fn tiny_deterministic() {
    // alice = 0, bob = 1, charles = 2; apple = 0, dog = 1, pony = 2, bike = 3
    let interactions: Vec<(u32, u32)> = vec![
        (0, 0),
        (0, 1),
        (0, 2),
        (1, 0),
        (1, 2),
        (2, 2),
        (2, 3),
    ];
    let mut acc = Accumulator::new(3, 4, 500, 500, 42);
    acc.accumulate(&interactions);
    assert_invariants(&acc);

    // every row is small against n = 10, so no scoring is needed
    let mut apple = keep_of(rescore_plan(&acc, 0, 10));
    apple.sort();
    assert_eq!(apple, vec![1, 2]);
    assert!(!apple.contains(&0));
    for item in 0..4u32 {
        let indicators = keep_of(rescore_plan(&acc, item, 10));
        assert!(indicators.len() <= 3);
        assert!(!indicators.contains(&item));
    }
}

#[test]
fn frequency_cap() {
    // one hub item 0, paired with a distinct partner per user
    let mut interactions: Vec<(u32, u32)> = Vec::new();
    for u in 0..10_000u32 {
        interactions.push((u, u + 1));
        interactions.push((u, 0));
    }
    let mut acc = Accumulator::new(10_000, 10_001, 500, 500, 7);
    acc.accumulate(&interactions);
    assert_eq!(acc.item_count_of(0), 500);
    assert_eq!(acc.row_sum_of(0), 500);
    assert_eq!(acc.row_size(0), 500);
    // interactions past the cap still count towards the raw user totals
    assert_eq!(acc.user_total_of(9_999), 2);
    assert_invariants(&acc);
}

#[test]
fn reservoir_replacement() {
    // one user, 2000 interactions across 2000 distinct items, cap 500
    let interactions: Vec<(u32, u32)> = (0..2000u32).map(|i| (0, i)).collect();
    let mut acc = Accumulator::new(1, 2000, 500, 500, 99);
    acc.accumulate(&interactions);
    assert_eq!(acc.history_len(0), 500);
    assert_eq!(acc.user_kept_of(0), 500);
    assert_eq!(acc.user_total_of(0), 2000);
    assert_invariants(&acc);
}

#[test]
fn deterministic_runs() {
    // the same seed, inputs and parameters give identical state twice
    let mut interactions: Vec<(u32, u32)> = Vec::new();
    for i in 0..400u32 {
        interactions.push((i % 3, (i * 7) % 50));
    }
    let run = |seed: u64| {
        let mut acc = Accumulator::new(3, 50, 20, 10, seed);
        acc.accumulate(&interactions);
        acc
    };
    let a = run(12345);
    let b = run(12345);
    assert_eq!(a.n_cooc(), b.n_cooc());
    let mut dirty_a = a.dirty_items();
    let mut dirty_b = b.dirty_items();
    dirty_a.sort();
    dirty_b.sort();
    assert_eq!(dirty_a, dirty_b);
    for i in 0..50u32 {
        assert_eq!(a.row_sum_of(i), b.row_sum_of(i));
        assert_eq!(a.item_count_of(i), b.item_count_of(i));
        for j in 0..50u32 {
            assert_eq!(a.cooc_count(i, j), b.cooc_count(i, j));
        }
    }
    for u in 0..3u32 {
        assert_eq!(a.history_len(u), b.history_len(u));
        for t in 0..a.history_len(u) {
            assert_eq!(a.history_at(u, t), b.history_at(u, t));
        }
    }
    assert_invariants(&a);
}

#[test]
fn shuffle_keeps_invariants() {
    // an input and its reverse may sample differently, but the matrix
    // invariants hold for both
    let mut interactions: Vec<(u32, u32)> = Vec::new();
    for i in 0..600u32 {
        interactions.push((i % 5, (i * 13) % 40));
    }
    let mut reversed = interactions.clone();
    reversed.reverse();
    let mut acc_fwd = Accumulator::new(5, 40, 30, 8, 1);
    acc_fwd.accumulate(&interactions);
    let mut acc_rev = Accumulator::new(5, 40, 30, 8, 1);
    acc_rev.accumulate(&reversed);
    assert_invariants(&acc_fwd);
    assert_invariants(&acc_rev);
}

#[test]
fn empty_input() {
    let mut acc = Accumulator::new(3, 5, 500, 500, 0);
    let interactions: Vec<(u32, u32)> = Vec::new();
    acc.accumulate(&interactions);
    assert_eq!(acc.dirty_items().len(), 0);
    assert_eq!(acc.n_cooc(), 0);
    for item in 0..5u32 {
        let indicators = keep_of(rescore_plan(&acc, item, 10));
        assert!(indicators.is_empty());
    }
    assert_invariants(&acc);
}

#[test]
fn dirty_set_tracks_touched_items() {
    let interactions: Vec<(u32, u32)> = vec![(0, 3), (0, 4), (1, 7)];
    let mut acc = Accumulator::new(2, 10, 500, 500, 5);
    acc.accumulate(&interactions);
    let mut dirty = acc.dirty_items();
    dirty.sort();
    assert_eq!(dirty, vec![3, 4, 7]);
}
