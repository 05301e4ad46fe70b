use ciforest::utils::statistics::argsort;
use ciforest::utils::statistics::class_counts;
use ciforest::utils::statistics::majority_label;
use ciforest::utils::statistics::quantile;
use ciforest::utils::statistics::quartiles;
use ciforest::utils::statistics::round_share;
use ciforest::utils::statistics::sort_keys;
use ciforest::utils::statistics::transpose;
use ciforest::utils::statistics::unique;

#[test]
fn transpose_turns_rows_into_columns() {
    let rows = vec![vec![1, 2, 3], vec![4, 5, 6]];
    assert_eq!(transpose(rows), vec![vec![1, 4], vec![2, 5], vec![3, 6]]);
}

#[test]
fn transpose_of_one_row() {
    assert_eq!(transpose(vec![vec!["a", "b"]]), vec![vec!["a"], vec!["b"]]);
}

#[test]
fn transpose_of_empty_rows_is_empty() {
    let rows: Vec<Vec<u8>> = vec![vec![], vec![]];
    assert_eq!(transpose(rows), Vec::<Vec<u8>>::new());
}

#[test]
fn transpose_leaves_out_what_exceeds_the_first_row() {
    let rows = vec![vec![1, 2], vec![3, 4, 5]];
    assert_eq!(transpose(rows), vec![vec![1, 3], vec![2, 4]]);
}

#[test]
fn transpose_moves_values_that_cannot_be_copied() {
    let rows = vec![vec![String::from("a"), String::from("b")], vec![String::from("c"), String::from("d")]];
    let turned = transpose(rows);
    assert_eq!(turned, vec![vec!["a".to_string(), "c".to_string()], vec!["b".to_string(), "d".to_string()]]);
}

#[test]
fn argsort_orders_positions_by_key() {
    assert_eq!(argsort(&vec![30, 10, 20]), vec![1, 2, 0]);
    assert_eq!(argsort(&vec![]), Vec::<usize>::new());
    assert_eq!(argsort(&vec![-5]), vec![0]);
}

#[test]
fn argsort_keeps_equal_keys_in_place() {
    assert_eq!(argsort(&vec![2, 1, 2, 1, 2]), vec![1, 3, 0, 2, 4]);
}

#[test]
fn sort_keys_is_ascending() {
    assert_eq!(sort_keys(&vec![3, -1, 3, 0, i64::MIN, i64::MAX]), vec![i64::MIN, -1, 0, 3, 3, i64::MAX]);
}

#[test]
fn unique_is_sorted_and_distinct() {
    assert_eq!(unique(&vec![3, 1, 3, 2, 1]), vec![1, 2, 3]);
    assert_eq!(unique(&vec![]), Vec::<i64>::new());
    assert_eq!(unique(&vec![7, 7, 7]), vec![7]);
}

#[test]
fn class_counts_counts_distinct_labels() {
    assert_eq!(class_counts(&vec![1, 1, 2, -3, 2]), 3);
    assert_eq!(class_counts(&vec![]), 0);
    assert_eq!(class_counts(&vec![4, 4, 4, 4]), 1);
}

#[test]
fn majority_label_is_the_most_frequent() {
    assert_eq!(majority_label(&vec![1, 2, 2, 3, 2, 1]), 2);
    assert_eq!(majority_label(&vec![-4]), -4);
    assert_eq!(majority_label(&vec![]), 0);
}

#[test]
fn majority_label_of_a_tie_is_one_of_the_tied() {
    let winner = majority_label(&vec![5, 9, 9, 5, 1]);
    assert!(winner == 5 || winner == 9);
}

#[test]
fn round_share_rounds_halves_up() {
    assert_eq!(round_share(2, 25), 1); // 0.5
    assert_eq!(round_share(1, 25), 0); // 0.25
    assert_eq!(round_share(3, 25), 1); // 0.75
    assert_eq!(round_share(6, 25), 2); // 1.5
    assert_eq!(round_share(10, 50), 5);
    assert_eq!(round_share(7, 50), 4); // 3.5
    assert_eq!(round_share(8, 75), 6);
    assert_eq!(round_share(20, 5), 1);
    assert_eq!(round_share(9, 5), 0); // 0.45
    assert_eq!(round_share(10, 5), 1); // 0.5
    assert_eq!(round_share(usize::MAX, 100), usize::MAX);
    assert_eq!(round_share(0, 75), 0);
}

#[test]
fn quantile_keeps_the_cut_and_what_lies_above() {
    let keys = vec![50, 10, 40, 20, 30, 80, 70, 60];
    // Rank 4 of 8 keys: 10 20 30 40 | 50 60 70 80.
    assert_eq!(quantile(&keys, 50), (50, vec![50, 60, 70, 80]));
    assert_eq!(quantile(&keys, 25), (30, vec![30, 40, 50, 60, 70, 80]));
    assert_eq!(quantile(&keys, 75), (70, vec![70, 80]));
    assert_eq!(quantile(&keys, 0), (10, vec![10, 20, 30, 40, 50, 60, 70, 80]));
    assert_eq!(quantile(&vec![7], 25), (7, vec![7]));
}

#[test]
fn nothing_lies_above_the_whole() {
    let keys = vec![50, 10, 40];
    assert_eq!(quantile(&keys, 100), (40, vec![]));
}

#[test]
fn quartiles_keep_what_lies_above_their_cut() {
    let keys = vec![50, 10, 40, 20, 30, 80, 70, 60];
    assert_eq!(quartiles(&keys, 1), (30, vec![30, 40, 50, 60, 70, 80]));
    assert_eq!(quartiles(&keys, 2), (50, vec![50, 60, 70, 80]));
    assert_eq!(quartiles(&keys, 3), (70, vec![70, 80]));
    // The fourth quartile has the cut of the third.
    assert_eq!(quartiles(&keys, 4), (70, vec![70, 80]));
    assert_eq!(quartiles(&vec![0, 0, 0, 4], 3), (4, vec![4]));
    assert_eq!(quartiles(&vec![0, 0, 0, 4], 1), (0, vec![0, 0, 4]));
}
