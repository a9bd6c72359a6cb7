use countsort::{
    bound_for_width, countsort_timing, countsort_trials, mean_nanos, random_input, random_values,
    real_wordsize, SortError,
};

#[test]
fn bound_doubles_the_power_of_two() {
    assert_eq!(bound_for_width(0), Ok(2));
    assert_eq!(bound_for_width(3), Ok(16));
    assert_eq!(bound_for_width(12), Ok(8192));
    assert_eq!(bound_for_width(62), Ok(1u64 << 63));
}

#[test]
fn bound_overflowing_sixty_four_bits_is_invalid() {
    assert_eq!(bound_for_width(63), Err(SortError::InvalidArgument));
    assert_eq!(bound_for_width(255), Err(SortError::InvalidArgument));
}

#[test]
fn real_wordsize_rounds_up_to_a_register() {
    assert_eq!(real_wordsize(1), 8);
    assert_eq!(real_wordsize(8), 8);
    assert_eq!(real_wordsize(9), 16);
    assert_eq!(real_wordsize(16), 16);
    assert_eq!(real_wordsize(17), 32);
    assert_eq!(real_wordsize(24), 32);
    assert_eq!(real_wordsize(25), 0);
}

#[test]
fn random_values_respects_length_and_bound() {
    let vals = random_values(200, 4);
    assert_eq!(vals.len(), 200);
    assert!(vals.iter().all(|&v| v < 4));
}

#[test]
fn random_values_with_unit_bound_are_all_zero() {
    let vals = random_values(50, 1);
    assert_eq!(vals, vec![0; 50]);
}

#[test]
fn random_input_draws_from_the_doubled_range() {
    let vals = random_input(300, 2).unwrap();
    assert_eq!(vals.len(), 300);
    assert!(vals.iter().all(|&v| v < 8));
}

#[test]
fn random_input_of_length_zero_is_empty() {
    assert_eq!(random_input(0, 5).unwrap(), Vec::<u32>::new());
}

#[test]
fn random_input_rejects_a_range_beyond_thirty_two_bits() {
    assert_eq!(random_input(1, 31), Err(SortError::InvalidArgument));
}

#[test]
fn mean_is_the_truncated_average() {
    assert_eq!(mean_nanos(&vec![1, 2, 3]), Ok(2));
    assert_eq!(mean_nanos(&vec![5]), Ok(5));
    assert_eq!(mean_nanos(&vec![1, 2]), Ok(1));
    assert_eq!(mean_nanos(&vec![0, 0, 0, 0]), Ok(0));
}

#[test]
fn mean_of_no_samples_is_invalid() {
    assert_eq!(mean_nanos(&Vec::new()), Err(SortError::InvalidArgument));
}

#[test]
fn mean_of_an_overflowing_sum_is_invalid() {
    assert_eq!(
        mean_nanos(&vec![u128::MAX, 1]),
        Err(SortError::InvalidArgument)
    );
}

#[test]
fn one_timing_trial_runs() {
    assert!(countsort_timing(100, 4).is_ok());
}

#[test]
fn timing_rejects_a_range_beyond_thirty_two_bits() {
    assert_eq!(countsort_timing(1, 31), Err(SortError::InvalidArgument));
}

#[test]
fn trials_average_several_runs() {
    assert!(countsort_trials(50, 3, 4).is_ok());
}

#[test]
fn zero_trials_are_invalid_rather_than_a_division_by_zero() {
    assert_eq!(countsort_trials(50, 3, 0), Err(SortError::InvalidArgument));
}
