use sudoku_solver::validator::{is_col_valid, is_row_valid, is_subgrid_valid, is_valid,
    ValidityError};
use sudoku_solver::Board;

fn empty_board() -> Board {
    vec![vec![0u8; 9]; 9]
}

#[test]
fn is_valid_accepts_fresh_digit_and_reports_every_violation() {
    let error_sudoku: Board = vec![
        vec![1, 1, 1, 0, 0, 0, 0, 0, 0],
        vec![1, 1, 1, 1, 1, 1, 1, 1, 1],
        vec![1, 1, 1, 0, 0, 0, 0, 0, 0],
        vec![0, 1, 0, 0, 0, 0, 0, 0, 0],
        vec![0, 1, 0, 0, 0, 0, 0, 0, 0],
        vec![0, 1, 0, 0, 0, 0, 0, 0, 0],
        vec![0, 1, 0, 0, 0, 0, 0, 0, 0],
        vec![0, 1, 0, 0, 0, 0, 0, 0, 0],
        vec![0, 1, 0, 0, 0, 0, 0, 0, 0],
    ];
    assert_eq!(is_valid(&error_sudoku, (0, 3), 2), Ok(()));
    assert_eq!(
        is_valid(&error_sudoku, (0, 3), 1),
        Err(ValidityError::InvalidRowColumnAndSubgrid)
    );
}

#[test]
fn is_valid_reports_row_violation_alone() {
    let mut board = empty_board();
    board[0][0] = 1;
    assert_eq!(is_valid(&board, (0, 3), 1), Err(ValidityError::InvalidRow));
}

#[test]
fn is_valid_reports_column_violation_alone() {
    let mut board = empty_board();
    board[5][3] = 2;
    assert_eq!(is_valid(&board, (0, 3), 2), Err(ValidityError::InvalidColumn));
}

#[test]
fn is_valid_reports_subgrid_violation_alone() {
    let mut board = empty_board();
    board[1][4] = 3;
    assert_eq!(is_valid(&board, (0, 3), 3), Err(ValidityError::InvalidSubgrid));
}

#[test]
fn is_valid_reports_row_and_column_violation() {
    let mut board = empty_board();
    board[0][0] = 4;
    board[5][3] = 4;
    assert_eq!(is_valid(&board, (0, 3), 4), Err(ValidityError::InvalidRowAndColumn));
}

#[test]
fn is_valid_reports_row_and_subgrid_violation() {
    let mut board = empty_board();
    board[0][4] = 5;
    assert_eq!(is_valid(&board, (0, 3), 5), Err(ValidityError::InvalidRowAndSubgrid));
}

#[test]
fn is_valid_reports_column_and_subgrid_violation() {
    let mut board = empty_board();
    board[1][3] = 6;
    assert_eq!(is_valid(&board, (0, 3), 6), Err(ValidityError::InvalidColumnAndSubgrid));
}

#[test]
fn row_column_and_subgrid_checks_scan_their_own_scope_only() {
    let mut board = empty_board();
    board[2][7] = 8;
    assert!(!is_row_valid(&board, (2, 0), 8));
    assert!(is_row_valid(&board, (3, 0), 8));
    assert!(!is_col_valid(&board, (0, 7), 8));
    assert!(is_col_valid(&board, (0, 6), 8));
    assert!(!is_subgrid_valid(&board, (0, 8), 8));
    assert!(is_subgrid_valid(&board, (0, 5), 8));
}

#[test]
fn validator_accepts_any_digit_on_empty_board() {
    let board = empty_board();
    for v in 1..=9u8 {
        assert_eq!(is_valid(&board, (4, 4), v), Ok(()));
    }
}
