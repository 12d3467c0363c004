use postflop_solver::sliceop::{row, row_mut};
use postflop_solver::solver::{discount_terms, measures_exploitability, regret_matching_weights};

#[test]
fn discount_terms_follow_powers_of_four() {
    assert_eq!(discount_terms(0), (0, 0));
    assert_eq!(discount_terms(1), (0, 0));
    assert_eq!(discount_terms(3), (2, 2));
    assert_eq!(discount_terms(4), (3, 0));
    assert_eq!(discount_terms(5), (4, 1));
    assert_eq!(discount_terms(16), (15, 0));
    assert_eq!(discount_terms(20), (19, 4));
    assert_eq!(discount_terms(63), (62, 47));
    assert_eq!(discount_terms(64), (63, 0));
    assert_eq!(discount_terms(u32::MAX), (u32::MAX - 1, u32::MAX - (1 << 30)));
}

#[test]
fn rows_of_a_table() {
    let table = [1, 2, 3, 4, 5, 6];
    assert_eq!(row(&table, 0, 2), &[1, 2]);
    assert_eq!(row(&table, 2, 2), &[5, 6]);
    assert_eq!(row(&table, 1, 3), &[4, 5, 6]);
}

#[test]
fn row_written_in_place() {
    let mut table = [1, 2, 3, 4, 5, 6];
    let r = row_mut(&mut table, 1, 2);
    r[0] = 30;
    r[1] = 40;
    assert_eq!(table, [1, 2, 30, 40, 5, 6]);
}

#[test]
fn regret_matching_clips_and_totals() {
    // two actions, three hands
    let regret = vec![-3i16, 5, 2, 0, 4, -1];
    let (weights, totals) = regret_matching_weights(&regret, 2);
    assert_eq!(weights, vec![0, 5, 2, 0, 4, 0]);
    assert_eq!(totals, vec![0, 9, 2]);
}

#[test]
fn regret_matching_weights_sum_to_totals() {
    let regret = vec![i16::MAX, -1, 7, i16::MIN, i16::MAX, 3, 0, 0, 1];
    let (weights, totals) = regret_matching_weights(&regret, 3);
    for h in 0..3 {
        let sum: u32 = (0..3).map(|a| weights[a * 3 + h] as u32).sum();
        assert_eq!(sum, totals[h]);
    }
    assert_eq!(totals, vec![32767, 32767, 11]);
}

#[test]
fn regret_matching_single_action() {
    let (weights, totals) = regret_matching_weights(&vec![-2i16, 3], 1);
    assert_eq!(weights, vec![0, 3]);
    assert_eq!(totals, vec![0, 3]);
    let (weights, totals) = regret_matching_weights(&Vec::new(), 4);
    assert!(weights.is_empty() && totals.is_empty());
}

#[test]
fn exploitability_is_measured_every_ten_iterations_and_at_the_end() {
    let measured: Vec<u32> = (0..25).filter(|&t| measures_exploitability(t, 25)).collect();
    assert_eq!(measured, vec![9, 19, 24]);
    assert!(measures_exploitability(0, 1));
    assert!(!measures_exploitability(0, 2));
}
