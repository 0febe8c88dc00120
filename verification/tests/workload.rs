use benchmark::workload::count_odds_col_major;
use benchmark::workload::count_odds_row_major;

#[test]
fn row_major_counts_nested_matrix() {
    let m = vec![vec![1u8, 2], vec![3, 4]];
    assert_eq!(count_odds_row_major(&m), 2);
}

#[test]
fn col_major_matches_row_major_square() {
    let m = vec![vec![1u8, 2, 3], vec![4, 5, 6], vec![7, 8, 9]];
    assert_eq!(count_odds_row_major(&m), 5);
    assert_eq!(count_odds_col_major(&m), 5);
}

#[test]
fn col_major_matches_row_major_rectangular() {
    let m = vec![vec![1u8, 1, 0, 1], vec![0, 0, 1, 1]];
    assert_eq!(count_odds_row_major(&m), 5);
    assert_eq!(count_odds_col_major(&m), 5);
}

#[test]
fn empty_matrix_counts_zero() {
    let m: Vec<Vec<u8>> = Vec::new();
    assert_eq!(count_odds_row_major(&m), 0);
    assert_eq!(count_odds_col_major(&m), 0);
}

#[test]
fn matrix_of_empty_rows_counts_zero() {
    let m: Vec<Vec<u8>> = vec![Vec::new(), Vec::new()];
    assert_eq!(count_odds_row_major(&m), 0);
    assert_eq!(count_odds_col_major(&m), 0);
}
