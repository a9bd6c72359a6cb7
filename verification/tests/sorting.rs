use countsort::{count_and_sort, counting_sort, frequency_table, SortError};

#[test]
fn sorts_mixed_input_with_explicit_bound() {
    let vals: Vec<u32> = vec![2, 0, 4, 5, 7, 7, 0, 6, 1, 7, 6];
    let sorted = counting_sort(&vals, 8).unwrap();
    let expected: Vec<u32> = vec![0, 0, 1, 2, 4, 5, 6, 6, 7, 7, 7];
    assert_eq!(sorted, expected);
}

#[test]
fn sorts_mixed_input_from_word_width() {
    let vals: Vec<u32> = vec![2, 0, 4, 5, 7, 7, 0, 6, 1, 7, 6];
    let sorted = count_and_sort(vals, 3).unwrap();
    let expected: Vec<u32> = vec![0, 0, 1, 2, 4, 5, 6, 6, 7, 7, 7];
    assert_eq!(sorted, expected);
}

#[test]
fn all_equal_input_is_returned_as_is() {
    let vals: Vec<u32> = vec![5, 5, 5];
    assert_eq!(counting_sort(&vals, 6).unwrap(), vec![5, 5, 5]);
    assert_eq!(counting_sort(&vals, 100).unwrap(), vec![5, 5, 5]);
    assert_eq!(count_and_sort(vals, 2).unwrap(), vec![5, 5, 5]);
}

#[test]
fn empty_input_gives_empty_output() {
    let vals: Vec<u32> = Vec::new();
    assert_eq!(counting_sort(&vals, 4).unwrap(), Vec::<u32>::new());
    assert_eq!(count_and_sort(vals, 0).unwrap(), Vec::<u32>::new());
}

#[test]
fn sorting_twice_changes_nothing() {
    let vals: Vec<u32> = vec![3, 1, 4, 1, 5, 2, 6];
    let once = counting_sort(&vals, 8).unwrap();
    let twice = counting_sort(&once, 8).unwrap();
    assert_eq!(once, twice);
}

#[test]
fn value_at_bound_is_out_of_range() {
    let vals: Vec<u32> = vec![1, 8, 2];
    assert_eq!(counting_sort(&vals, 8), Err(SortError::OutOfRangeValue));
}

#[test]
fn value_above_bound_is_out_of_range() {
    let vals: Vec<u32> = vec![9];
    assert_eq!(counting_sort(&vals, 8), Err(SortError::OutOfRangeValue));
    assert_eq!(count_and_sort(vals, 1), Err(SortError::OutOfRangeValue));
}

#[test]
fn huge_word_width_is_invalid() {
    let vals: Vec<u32> = vec![1];
    assert_eq!(count_and_sort(vals, 200), Err(SortError::InvalidArgument));
}

#[test]
fn frequency_table_counts_each_value() {
    let vals: Vec<u32> = vec![2, 0, 4, 5, 7, 7, 0, 6, 1, 7, 6];
    let table = frequency_table(&vals, 8).unwrap();
    assert_eq!(table, vec![2, 1, 1, 0, 1, 1, 2, 3]);
    let total: usize = table.iter().sum();
    assert_eq!(total, vals.len());
}

#[test]
fn frequency_table_of_empty_input_sums_to_zero() {
    let vals: Vec<u32> = Vec::new();
    let table = frequency_table(&vals, 5).unwrap();
    assert_eq!(table, vec![0, 0, 0, 0, 0]);
}

#[test]
fn frequency_table_rejects_out_of_range_value() {
    let vals: Vec<u32> = vec![0, 5];
    assert_eq!(frequency_table(&vals, 5), Err(SortError::OutOfRangeValue));
}
