use crackle_runtime::information::{
    bin_counts, clamp_to_bins, distinct_triple_counts, histogram_2d_from_bins, histogram_from_bins,
    joint_bin_counts,
};
use crackle_runtime::{checked_factorial, factorial, lehmer_code};

#[test]
fn factorial_values() {
    assert_eq!(factorial(0), 1);
    assert_eq!(factorial(1), 1);
    assert_eq!(factorial(2), 2);
    assert_eq!(factorial(3), 6);
    assert_eq!(factorial(4), 24);
    assert_eq!(factorial(5), 120);
}

#[test]
fn factorial_largest_that_fits() {
    assert_eq!(factorial(20), 2_432_902_008_176_640_000);
}

#[test]
fn ordinal_pattern_increasing() {
    // Values [1.0, 2.0, 3.0] sort to indices (0, 1, 2): the first pattern.
    assert_eq!(lehmer_code(&[0, 1, 2]), 0);
}

#[test]
fn ordinal_pattern_decreasing() {
    // Values [3.0, 2.0, 1.0] sort to indices (2, 1, 0): the last pattern of order 3.
    assert_eq!(lehmer_code(&[2, 1, 0]), 5);
}

#[test]
fn lehmer_code_every_pattern_of_order_3() {
    let perms: [[usize; 3]; 6] = [[0, 1, 2], [0, 2, 1], [1, 0, 2], [1, 2, 0], [2, 0, 1], [2, 1, 0]];
    for (rank, p) in perms.iter().enumerate() {
        assert_eq!(lehmer_code(p), rank);
    }
}

#[test]
fn lehmer_code_empty_and_single() {
    assert_eq!(lehmer_code(&[]), 0);
    assert_eq!(lehmer_code(&[0]), 0);
}

#[test]
fn histogram_counts_sum_to_len() {
    let counts = bin_counts(&[0, 1, 2, 3, 4], 5);
    assert_eq!(counts, vec![1, 1, 1, 1, 1]);
    assert_eq!(counts.iter().sum::<usize>(), 5);
}

#[test]
fn histogram_counts_all_in_first_bin() {
    let counts = bin_counts(&[0; 10], 5);
    assert_eq!(counts, vec![10, 0, 0, 0, 0]);
}

#[test]
fn histogram_counts_empty() {
    assert_eq!(bin_counts(&[], 3), vec![0, 0, 0]);
    assert!(bin_counts(&[], 0).is_empty());
}

#[test]
fn joint_counts_diagonal() {
    let counts = joint_bin_counts(&[0, 1, 2], &[0, 1, 2], 3);
    assert_eq!(counts, vec![vec![1, 0, 0], vec![0, 1, 0], vec![0, 0, 1]]);
}

#[test]
fn joint_counts_repeated_pair() {
    let counts = joint_bin_counts(&[1, 1, 0], &[0, 0, 1], 2);
    assert_eq!(counts, vec![vec![0, 1], vec![2, 0]]);
}

#[test]
fn triple_counts_distinct_keys() {
    let counts = distinct_triple_counts(&[0, 1, 0, 0], &[0, 1, 0, 1], &[2, 2, 2, 2]);
    assert_eq!(counts, vec![((0, 0, 2), 2), ((1, 1, 2), 1), ((0, 1, 2), 1)]);
}

#[test]
fn triple_counts_empty() {
    assert!(distinct_triple_counts(&[], &[], &[]).is_empty());
}

#[test]
fn checked_factorial_fits_or_not() {
    assert_eq!(checked_factorial(0), Some(1));
    assert_eq!(checked_factorial(5), Some(120));
    assert_eq!(checked_factorial(20), Some(2_432_902_008_176_640_000));
    assert_eq!(checked_factorial(21), None);
    assert_eq!(checked_factorial(usize::MAX), None);
}

#[test]
fn lehmer_codes_of_order_4_are_all_different() {
    let mut seen = vec![false; 24];
    for a in 0..4usize {
        for b in 0..4usize {
            for c in 0..4usize {
                for d in 0..4usize {
                    let p = [a, b, c, d];
                    let distinct = (0..4).all(|i| (0..4).all(|j| i == j || p[i] != p[j]));
                    if distinct {
                        let code = lehmer_code(&p);
                        assert!(code < 24);
                        assert!(!seen[code], "code {} given twice", code);
                        seen[code] = true;
                    }
                }
            }
        }
    }
    assert!(seen.iter().all(|s| *s));
}

#[test]
fn histogram_from_bins_puts_the_largest_value_in_the_last_bin() {
    // 1.0 ..= 5.0 in 5 bins of width 0.8: raw indices 0, 1, 2, 3 and 5.
    assert_eq!(histogram_from_bins(&[0, 1, 2, 3, 5], 5), vec![1, 1, 1, 1, 1]);
}

#[test]
fn histogram_from_bins_empty_input_or_no_bins() {
    assert!(histogram_from_bins(&[], 5).is_empty());
    assert!(histogram_from_bins(&[0, 1], 0).is_empty());
}

#[test]
fn histogram_from_bins_constant_input_fills_the_first_bin() {
    let counts = histogram_from_bins(&[0; 10], 5);
    assert_eq!(counts[0], 10);
    assert_eq!(counts.iter().sum::<usize>(), 10);
}

#[test]
fn histogram_2d_from_bins_diagonal_over_common_length() {
    // x = y = 1.0, 2.0, 3.0 in 3 bins: raw indices 0, 1 and 3.
    let counts = histogram_2d_from_bins(&[0, 1, 3], &[0, 1, 3, 7], 3);
    assert_eq!(counts, vec![vec![1, 0, 0], vec![0, 1, 0], vec![0, 0, 1]]);
    let total: usize = counts.iter().map(|r| r.iter().sum::<usize>()).sum();
    assert_eq!(total, 3);
}

#[test]
fn histogram_2d_from_bins_empty() {
    assert!(histogram_2d_from_bins(&[], &[0, 1], 3).is_empty());
    assert!(histogram_2d_from_bins(&[0], &[0], 0).is_empty());
}

#[test]
fn clamp_to_bins_moves_overflow_into_last_bin() {
    assert_eq!(clamp_to_bins(&[0, 2, 3, 9], 3), vec![0, 2, 2, 2]);
    assert!(clamp_to_bins(&[0, 1], 0).is_empty());
}
