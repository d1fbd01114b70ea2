use sudoku_solver::generator::{find_duplicates, gen_rnd_pre_formed, generate_unsolved_sudoku,
    remove_all_duplicates, remove_column_duplicates, remove_row_duplicates,
    remove_subgrid_duplicates};
use sudoku_solver::iter::ColumnIterator;
use sudoku_solver::settings::Difficulty;
use sudoku_solver::solver::solve;
use sudoku_solver::Board;

fn empty_board() -> Board {
    vec![vec![0u8; 9]; 9]
}

fn canonical_solved_board() -> Board {
    vec![
        vec![5, 3, 4, 6, 7, 8, 9, 1, 2],
        vec![6, 7, 2, 1, 9, 5, 3, 4, 8],
        vec![1, 9, 8, 3, 4, 2, 5, 6, 7],
        vec![8, 5, 9, 7, 6, 1, 4, 2, 3],
        vec![4, 2, 6, 8, 5, 3, 7, 9, 1],
        vec![7, 1, 3, 9, 2, 4, 8, 5, 6],
        vec![9, 6, 1, 5, 3, 7, 2, 8, 4],
        vec![2, 8, 7, 4, 1, 9, 6, 3, 5],
        vec![3, 4, 5, 2, 8, 6, 1, 7, 9],
    ]
}

#[test]
fn remove_row_duplicates_keeps_first_occurrence() {
    let mut board = empty_board();
    board[0] = vec![1, 1, 1, 0, 0, 0, 0, 0, 0];
    remove_row_duplicates(&mut board, (0, 4));
    assert_eq!(board[0], vec![1, 0, 0, 0, 0, 0, 0, 0, 0]);
    for i in 1..9 {
        assert_eq!(board[i], vec![0u8; 9]);
    }
}

#[test]
fn remove_row_duplicates_is_idempotent() {
    let mut once = empty_board();
    once[0] = vec![2, 5, 2, 0, 5, 9, 2, 0, 9];
    remove_row_duplicates(&mut once, (0, 0));
    let mut twice = once.clone();
    remove_row_duplicates(&mut twice, (0, 0));
    assert_eq!(once, twice);
    assert_eq!(once[0], vec![2, 5, 0, 0, 0, 9, 0, 0, 0]);
}

#[test]
fn remove_column_duplicates_keeps_first_occurrence() {
    let mut board = empty_board();
    board[1][4] = 7;
    board[3][4] = 7;
    board[8][4] = 7;
    board[2][4] = 3;
    remove_column_duplicates(&mut board, (0, 4));
    assert_eq!(board[1][4], 7);
    assert_eq!(board[3][4], 0);
    assert_eq!(board[8][4], 0);
    assert_eq!(board[2][4], 3);
}

#[test]
fn remove_column_duplicates_ignores_empty_cells() {
    let mut board = empty_board();
    remove_column_duplicates(&mut board, (0, 2));
    assert_eq!(board, empty_board());
}

#[test]
fn remove_column_duplicates_is_idempotent() {
    let mut once = empty_board();
    once[0][6] = 4;
    once[4][6] = 4;
    once[5][6] = 1;
    once[7][6] = 1;
    remove_column_duplicates(&mut once, (3, 6));
    let mut twice = once.clone();
    remove_column_duplicates(&mut twice, (3, 6));
    assert_eq!(once, twice);
}

#[test]
fn remove_subgrid_duplicates_keeps_first_in_scan_order() {
    let mut board = empty_board();
    board[3][3] = 6;
    board[4][5] = 6;
    board[5][4] = 6;
    board[4][4] = 2;
    remove_subgrid_duplicates(&mut board, (4, 4));
    assert_eq!(board[3][3], 6);
    assert_eq!(board[4][5], 0);
    assert_eq!(board[5][4], 0);
    assert_eq!(board[4][4], 2);
}

#[test]
fn remove_subgrid_duplicates_is_idempotent() {
    let mut once = empty_board();
    once[0][0] = 9;
    once[1][1] = 9;
    once[2][2] = 9;
    remove_subgrid_duplicates(&mut once, (1, 1));
    let mut twice = once.clone();
    remove_subgrid_duplicates(&mut twice, (1, 1));
    assert_eq!(once, twice);
    assert_eq!(once[0][0], 9);
    assert_eq!(once[1][1], 0);
    assert_eq!(once[2][2], 0);
}

#[test]
fn remove_all_duplicates_sweeps_subgrids_rows_and_columns() {
    let mut board = empty_board();
    // A row duplicate across two subgrids, a column duplicate, and a
    // subgrid duplicate.
    board[0][0] = 7;
    board[0][5] = 7;
    board[2][8] = 4;
    board[6][8] = 4;
    board[4][3] = 2;
    board[5][4] = 2;
    remove_all_duplicates(&mut board);
    assert_eq!(board[0][0], 7);
    assert_eq!(board[0][5], 0);
    assert_eq!(board[2][8], 4);
    assert_eq!(board[6][8], 0);
    assert_eq!(board[4][3], 2);
    assert_eq!(board[5][4], 0);
}

#[test]
fn find_duplicates_lists_positions_per_value() {
    let values: Vec<u8> = vec![1, 1, 2, 0, 0];
    let m = find_duplicates(&values);
    assert_eq!(m.get(&1), Some(&vec![0usize, 1]));
    assert_eq!(m.get(&2), Some(&vec![2usize]));
    assert_eq!(m.get(&0), Some(&vec![3usize, 4]));
    assert_eq!(m.get(&5), None);
    assert_eq!(m.len(), 3);
}

#[test]
fn gen_rnd_pre_formed_masks_the_canonical_board() {
    let template = canonical_solved_board();
    let board = gen_rnd_pre_formed(Difficulty::Easy);
    assert_eq!(board.len(), 9);
    for i in 0..9 {
        assert_eq!(board[i].len(), 9);
        for j in 0..9 {
            assert!(board[i][j] == template[i][j] || board[i][j] == 0);
        }
    }
}

#[test]
fn generate_unsolved_sudoku_yields_masked_copy_of_template() {
    let template = canonical_solved_board();
    for difficulty in [Difficulty::Easy, Difficulty::Medium, Difficulty::Hard] {
        let board = generate_unsolved_sudoku(difficulty);
        assert_eq!(board.len(), 9);
        for i in 0..9 {
            assert_eq!(board[i].len(), 9);
            for j in 0..9 {
                assert!(board[i][j] == template[i][j] || board[i][j] == 0);
            }
        }
    }
}

#[test]
fn generated_puzzle_from_template_solves_back_to_a_full_board() {
    let mut board = gen_rnd_pre_formed(Difficulty::Easy);
    // Masking the legal template keeps the filled cells legal, so a
    // completion always exists.
    assert!(solve(&mut board));
    for row in &board {
        for &cell in row {
            assert!((1..=9).contains(&cell));
        }
    }
}

#[test]
fn column_iterator_walks_one_column_then_ends() {
    let board = canonical_solved_board();
    let mut it = ColumnIterator::new(&board, 1);
    let mut seen: Vec<u8> = Vec::new();
    while let Some(&v) = it.next() {
        seen.push(v);
    }
    assert_eq!(seen, vec![3, 7, 9, 5, 2, 1, 6, 8, 4]);
    assert_eq!(it.next(), None);
}

#[test]
fn difficulty_maps_to_its_weight() {
    assert_eq!(Difficulty::Easy.value(), 3);
    assert_eq!(Difficulty::Medium.value(), 6);
    assert_eq!(Difficulty::Hard.value(), 9);
    assert_eq!(Difficulty::default().value(), 6);
}
