use sudoku_solver::solver::{find_empty, is_valid, solve};
use sudoku_solver::Board;

fn diagonal_zero_board() -> Board {
    vec![
        vec![0, 2, 3, 4, 5, 6, 7, 8, 9],
        vec![4, 0, 6, 7, 8, 9, 1, 2, 3],
        vec![7, 8, 0, 1, 2, 3, 4, 5, 6],
        vec![2, 3, 4, 0, 6, 7, 8, 9, 1],
        vec![5, 6, 7, 8, 0, 1, 2, 3, 4],
        vec![8, 9, 1, 2, 3, 0, 5, 6, 7],
        vec![3, 4, 5, 6, 7, 8, 0, 1, 2],
        vec![6, 7, 8, 9, 1, 2, 3, 0, 5],
        vec![9, 1, 2, 3, 4, 5, 6, 7, 0],
    ]
}

fn canonical_solved_board() -> Board {
    vec![
        vec![5, 3, 4, 6, 7, 8, 9, 1, 2],
        vec![6, 7, 2, 1, 9, 5, 3, 4, 8],
        vec![1, 9, 8, 3, 4, 2, 5, 6, 7],
        vec![8, 5, 9, 7, 6, 1, 4, 2, 3],
        vec![4, 2, 6, 8, 5, 3, 7, 9, 1],
        vec![7, 1, 3, 9, 2, 4, 8, 5, 6],
        vec![9, 6, 1, 5, 3, 7, 2, 8, 4],
        vec![2, 8, 7, 4, 1, 9, 6, 3, 5],
        vec![3, 4, 5, 2, 8, 6, 1, 7, 9],
    ]
}

#[test]
fn test_find_empty() {
    let input: Board = diagonal_zero_board();
    let create_expected = || (0..9).map(|i| (i, i)).collect();
    let expected: Vec<(u8, u8)> = create_expected();

    for i in 0..expected.len() {
        assert_eq!(
            expected[i].0 as u8,
            find_empty(&input)[i].0 as u8,
            "Expected {} to be {}",
            find_empty(&input)[i].0,
            expected[i].0
        );
    }
}

#[test]
fn test_is_valid() {
    let error_sudoku: Board = vec![
        vec![1, 1, 1, 0, 0, 0, 0, 0, 0],
        vec![1, 1, 1, 1, 1, 1, 1, 1, 1],
        vec![1, 1, 1, 0, 0, 0, 0, 0, 0],
        vec![0, 1, 0, 0, 0, 0, 0, 0, 0],
        vec![0, 1, 0, 0, 0, 0, 0, 0, 0],
        vec![0, 1, 0, 0, 0, 0, 0, 0, 0],
        vec![0, 1, 0, 0, 0, 0, 0, 0, 0],
        vec![0, 1, 0, 0, 0, 0, 0, 0, 0],
        vec![0, 1, 0, 0, 0, 0, 0, 0, 0],
    ];
    let should_be_true = is_valid(&error_sudoku, 0, 3, 2);
    let should_be_false = is_valid(&error_sudoku, 0, 3, 1);
    assert_eq!(true, should_be_true);
    assert_eq!(false, should_be_false);
}

#[test]
fn test_solve() {
    let mut actual: Board = vec![
        vec![5, 3, 0, 0, 7, 0, 0, 0, 0],
        vec![6, 0, 0, 1, 9, 5, 0, 0, 0],
        vec![0, 9, 8, 0, 0, 0, 0, 6, 0],
        vec![8, 0, 0, 0, 6, 0, 0, 0, 3],
        vec![4, 0, 0, 8, 0, 3, 0, 0, 1],
        vec![7, 0, 0, 0, 2, 0, 0, 0, 6],
        vec![0, 6, 0, 0, 0, 0, 2, 8, 0],
        vec![0, 0, 0, 4, 1, 9, 0, 0, 5],
        vec![0, 0, 0, 0, 8, 0, 0, 7, 9],
    ];
    let expected: Board = canonical_solved_board();

    assert!(solve(&mut actual));
    for i in 0..9 {
        for j in 0..9 {
            assert_eq!(
                actual[i][j], expected[i][j],
                "Expected {} to be {}",
                actual[i][j], expected[i][j]
            );
        }
    }
}

#[test]
fn find_empty_lists_diagonal_in_row_major_order() {
    let input: Board = diagonal_zero_board();
    let expected: Vec<(usize, usize)> = (0..9).map(|i| (i, i)).collect();
    assert_eq!(find_empty(&input), expected);
}

#[test]
fn find_empty_on_full_board_is_empty() {
    assert_eq!(find_empty(&canonical_solved_board()), vec![]);
}

#[test]
fn solve_full_board_returns_true_without_mutation() {
    let mut board = canonical_solved_board();
    let before = board.clone();
    assert!(solve(&mut board));
    assert_eq!(board, before);
}

#[test]
fn solve_restores_masked_cells_of_canonical_board() {
    let solved = canonical_solved_board();
    let mut board = solved.clone();
    for &(i, j) in &[(0usize, 2usize), (1, 1), (1, 2), (2, 2)] {
        board[i][j] = 0;
    }
    assert!(solve(&mut board));
    assert_eq!(board[0][2], solved[0][2]);
    assert_eq!(board[1][1], solved[1][1]);
    assert_eq!(board[1][2], solved[1][2]);
    assert_eq!(board[2][2], solved[2][2]);
    assert_eq!(board, solved);
}

#[test]
fn solve_unsolvable_board_returns_false_and_backtracks_fully() {
    // The first empty cell is (0, 8); digits 1 through 8 already sit in its
    // row and 9 sits in its column, so no candidate fits.
    let mut board: Board = vec![vec![0u8; 9]; 9];
    for j in 0..8 {
        board[0][j] = (j + 1) as u8;
    }
    board[3][8] = 9;
    let before = board.clone();
    assert!(!solve(&mut board));
    assert_eq!(board, before);
}

#[test]
fn solve_empty_board_yields_fully_legal_grid() {
    let mut board: Board = vec![vec![0u8; 9]; 9];
    assert!(solve(&mut board));
    // Ascending candidates at the first empty cell in row-major order make
    // the search deterministic: it lands on the least completion.
    assert_eq!(board[0], vec![1, 2, 3, 4, 5, 6, 7, 8, 9]);
    assert_eq!(board[1], vec![4, 5, 6, 7, 8, 9, 1, 2, 3]);
    for unit in 0..9 {
        let mut row_seen = [false; 10];
        let mut col_seen = [false; 10];
        let mut sub_seen = [false; 10];
        for k in 0..9 {
            row_seen[board[unit][k] as usize] = true;
            col_seen[board[k][unit] as usize] = true;
            let i = (unit / 3) * 3 + k / 3;
            let j = (unit % 3) * 3 + k % 3;
            sub_seen[board[i][j] as usize] = true;
        }
        for d in 1..10 {
            assert!(row_seen[d], "row {} misses {}", unit, d);
            assert!(col_seen[d], "column {} misses {}", unit, d);
            assert!(sub_seen[d], "subgrid {} misses {}", unit, d);
        }
    }
}

#[test]
fn is_valid_rejects_digit_present_in_subgrid() {
    let mut board: Board = vec![vec![0u8; 9]; 9];
    board[4][4] = 5;
    assert!(!is_valid(&board, 3, 3, 5));
    assert!(is_valid(&board, 3, 3, 6));
}
