use gbm_pricer::candidates::candidate_checkpoints;

/// The candidates as double precision gives them.
fn in_double_precision(total: usize) -> Vec<usize> {
    let mut out = Vec::new();
    for i in 0..=20 {
        let factor = 10.0_f64.powf(i as f64 / 20.0) / 10.0;
        out.push((total as f64 * factor) as usize);
    }
    out
}

#[test]
fn candidates_for_a_hundred_thousand_trials() {
    assert_eq!(
        candidate_checkpoints(100_000),
        vec![
            10000, 11220, 12589, 14125, 15848, 17782, 19952, 22387, 25118, 28183, 31622, 35481,
            39810, 44668, 50118, 56234, 63095, 70794, 79432, 89125, 100000
        ]
    );
}

#[test]
fn candidates_for_five_trials() {
    assert_eq!(
        candidate_checkpoints(5),
        vec![0, 0, 0, 0, 0, 0, 0, 1, 1, 1, 1, 1, 1, 2, 2, 2, 3, 3, 3, 4, 5]
    );
}

#[test]
fn candidates_for_one_trial_and_for_none() {
    let mut one = vec![0usize; 20];
    one.push(1);
    assert_eq!(candidate_checkpoints(1), one);
    assert_eq!(candidate_checkpoints(0), vec![0usize; 21]);
}

#[test]
fn there_are_always_twenty_one_candidates() {
    for total in [0usize, 1, 7, 1000, usize::MAX] {
        assert_eq!(candidate_checkpoints(total).len(), 21);
    }
}

#[test]
fn first_candidate_is_a_tenth_and_last_is_the_total() {
    for total in [0usize, 1, 9, 10, 11, 99, 100, 12_345, 1_000_000, usize::MAX] {
        let c = candidate_checkpoints(total);
        assert_eq!(c[0], total / 10);
        assert_eq!(c[20], total);
    }
}

#[test]
fn middle_candidate_is_the_root_of_a_tenth_of_the_square() {
    // index 10 stands for total / sqrt(10): c*c*10 <= total*total < (c+1)*(c+1)*10
    for total in [1u128, 3, 4, 10, 31, 32, 1000, 999_999, 4_611_686_018_427_387_904] {
        let c = candidate_checkpoints(total as usize)[10] as u128;
        assert!(c * c * 10 <= total * total);
        assert!(total * total < (c + 1) * (c + 1) * 10);
    }
}

#[test]
fn candidates_never_step_down() {
    for total in [1usize, 2, 19, 20, 21, 12_345, usize::MAX] {
        let c = candidate_checkpoints(total);
        for i in 1..c.len() {
            assert!(c[i - 1] <= c[i]);
        }
    }
}

#[test]
fn candidates_agree_with_double_precision() {
    for total in 0..=3000usize {
        assert_eq!(candidate_checkpoints(total), in_double_precision(total), "total {total}");
    }
    for total in [9_999usize, 10_000, 65_536, 100_000, 123_456, 1_000_000, 7_654_321] {
        assert_eq!(candidate_checkpoints(total), in_double_precision(total), "total {total}");
    }
}
