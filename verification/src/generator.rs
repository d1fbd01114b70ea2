//! Board generation: a canonical solved board is masked at random into a
//! puzzle, and duplicate-removal passes strip repeated digits from a row,
//! column, or subgrid, keeping only the first occurrence of each.

use vstd::prelude::*;

use std::collections::HashMap;

use crate::iter::ColumnIterator;
use crate::model::{all_dedup, before_in_scan, board_wf, col_dedup, dup_before_in_col,
    dup_before_in_row, dup_before_in_subgrid, grid, in_subgrid, lemma_grid_dims,
    lemma_update_cell_wf, masked_of, occurrences, occurrences_upto, row_col_passes, row_dedup,
    subgrid_dedup, subgrid_passes, subgrid_start};
use crate::sampling::{fresh_rng, new_weighted_index, sample_index};
use crate::settings::Difficulty;
use crate::solver::set_cell;
use crate::{Board, Coords};

verus! {

/// The canonical fully solved board the generator starts from.
pub open spec fn solved_template() -> Seq<Seq<u8>> {
    seq![
        seq![5u8, 3, 4, 6, 7, 8, 9, 1, 2],
        seq![6u8, 7, 2, 1, 9, 5, 3, 4, 8],
        seq![1u8, 9, 8, 3, 4, 2, 5, 6, 7],
        seq![8u8, 5, 9, 7, 6, 1, 4, 2, 3],
        seq![4u8, 2, 6, 8, 5, 3, 7, 9, 1],
        seq![7u8, 1, 3, 9, 2, 4, 8, 5, 6],
        seq![9u8, 6, 1, 5, 3, 7, 2, 8, 4],
        seq![2u8, 8, 7, 4, 1, 9, 6, 3, 5],
        seq![3u8, 4, 5, 2, 8, 6, 1, 7, 9],
    ]
}

/// Builds one row of nine digits.
fn row_vec(a0: u8, a1: u8, a2: u8, a3: u8, a4: u8, a5: u8, a6: u8, a7: u8, a8: u8) -> (v: Vec<u8>)
    ensures
        v@ == seq![a0, a1, a2, a3, a4, a5, a6, a7, a8],
{
    let mut v: Vec<u8> = Vec::new();
    v.push(a0);
    v.push(a1);
    v.push(a2);
    v.push(a3);
    v.push(a4);
    v.push(a5);
    v.push(a6);
    v.push(a7);
    v.push(a8);
    proof {
        assert(v@ =~= seq![a0, a1, a2, a3, a4, a5, a6, a7, a8]);
    }
    v
}

/// Builds the canonical solved board.
fn template_board() -> (b: Board)
    ensures
        grid(b) == solved_template(),
        board_wf(grid(b)),
{
    let mut b: Board = Vec::new();
    b.push(row_vec(5, 3, 4, 6, 7, 8, 9, 1, 2));
    b.push(row_vec(6, 7, 2, 1, 9, 5, 3, 4, 8));
    b.push(row_vec(1, 9, 8, 3, 4, 2, 5, 6, 7));
    b.push(row_vec(8, 5, 9, 7, 6, 1, 4, 2, 3));
    b.push(row_vec(4, 2, 6, 8, 5, 3, 7, 9, 1));
    b.push(row_vec(7, 1, 3, 9, 2, 4, 8, 5, 6));
    b.push(row_vec(9, 6, 1, 5, 3, 7, 2, 8, 4));
    b.push(row_vec(2, 8, 7, 4, 1, 9, 6, 3, 5));
    b.push(row_vec(3, 4, 5, 2, 8, 6, 1, 7, 9));
    proof {
        assert(grid(b) =~~= solved_template());
        assert forall|i: int, j: int| 0 <= i < 9 && 0 <= j < 9 implies #[trigger] grid(b)[i][j]
            <= 9 by {}
    }
    b
}

/// Produces the canonical solved board with each cell independently masked
/// to empty: the chance of masking a cell is the difficulty weight against
/// nine, so a higher weight empties more of the board.
///
/// Every cell of the result is the template digit or 0; which cells are
/// masked is up to the sampler.
pub fn gen_rnd_pre_formed(likelyness: Difficulty) -> (b: Board)
    ensures
        board_wf(grid(b)),
        masked_of(grid(b), solved_template()),
{
    let mut board = template_board();
    let mut weights: Vec<i32> = Vec::new();
    weights.push(likelyness.value());
    let mut t: usize = 0;
    while t < 9
        invariant
            t <= 9,
            weights@.len() == t + 1,
            weights@[0] == likelyness.weight(),
            forall|k: int| 1 <= k <= t ==> #[trigger] weights@[k] == 1i32,
        decreases 9 - t,
    {
        weights.push(1);
        t += 1;
    }
    let dist = new_weighted_index(&weights);
    let mut rng = fresh_rng();
    let mut i: usize = 0;
    while i < 9
        invariant
            i <= 9,
            board_wf(grid(board)),
            masked_of(grid(board), solved_template()),
        decreases 9 - i,
    {
        let mut j: usize = 0;
        while j < 9
            invariant
                i < 9,
                j <= 9,
                board_wf(grid(board)),
                masked_of(grid(board), solved_template()),
            decreases 9 - j,
        {
            let s = sample_index(&dist, &mut rng);
            if s == 0 {
                let ghost g = grid(board);
                set_cell(&mut board, i, j, 0);
                proof {
                    lemma_update_cell_wf(g, i as int, j as int, 0);
                }
            }
            j += 1;
        }
        i += 1;
    }
    board
}

/// Generates an unsolved puzzle for the given difficulty: the canonical
/// solved board is masked while it is produced, and a second independent
/// per-cell mask with weights [1, difficulty weight] then empties each cell
/// whose sampled outcome is 0.
///
/// The result carries no correctness promise beyond being a masked copy of
/// the solved template: it may be unsolvable or have several solutions.
pub fn generate_unsolved_sudoku(difficulty: Difficulty) -> (b: Board)
    ensures
        board_wf(grid(b)),
        masked_of(grid(b), solved_template()),
{
    let mut board = gen_rnd_pre_formed(difficulty);
    let mut weights: Vec<i32> = Vec::new();
    weights.push(1);
    weights.push(difficulty.value());
    proof {
        assert(weights@[0] == 1i32 && weights@[1] == difficulty.weight());
    }
    let dist = new_weighted_index(&weights);
    let mut rng = fresh_rng();
    let mut i: usize = 0;
    while i < 9
        invariant
            i <= 9,
            board_wf(grid(board)),
            masked_of(grid(board), solved_template()),
        decreases 9 - i,
    {
        let mut j: usize = 0;
        while j < 9
            invariant
                i < 9,
                j <= 9,
                board_wf(grid(board)),
                masked_of(grid(board), solved_template()),
            decreases 9 - j,
        {
            let s = sample_index(&dist, &mut rng);
            if s == 0 {
                let ghost g = grid(board);
                set_cell(&mut board, i, j, 0);
                proof {
                    lemma_update_cell_wf(g, i as int, j as int, 0);
                }
            }
            j += 1;
        }
        i += 1;
    }
    board
}

/// Copies one row of the board.
fn copy_row(board: &Board, i: usize) -> (r: Vec<u8>)
    requires
        board_wf(grid(*board)),
        i < 9,
    ensures
        r@ == grid(*board)[i as int],
{
    proof {
        lemma_grid_dims(*board);
    }
    let mut r: Vec<u8> = Vec::new();
    let mut k: usize = 0;
    while k < 9
        invariant
            k <= 9,
            r@.len() == k,
            forall|t: int| 0 <= t < k ==> #[trigger] r@[t] == grid(*board)[i as int][t],
        decreases 9 - k,
    {
        r.push(board[i][k]);
        k += 1;
    }
    proof {
        assert(r@ =~= grid(*board)[i as int]);
    }
    r
}

/// Copies one column of the board, reading it through the column iterator.
fn copy_col(board: &Board, c: usize) -> (r: Vec<u8>)
    requires
        board_wf(grid(*board)),
        c < 9,
    ensures
        r@.len() == 9,
        forall|t: int| 0 <= t < 9 ==> #[trigger] r@[t] == grid(*board)[t][c as int],
{
    proof {
        lemma_grid_dims(*board);
    }
    let mut it = ColumnIterator::new(board, c);
    let mut r: Vec<u8> = Vec::new();
    while r.len() < 9
        invariant
            it.matrix == board,
            it.col_index == c,
            it.row_index == r@.len(),
            r@.len() <= 9,
            forall|t: int| 0 <= t < r@.len() ==> #[trigger] r@[t] == grid(*board)[t][c as int],
        decreases 9 - r.len(),
    {
        match it.next() {
            Some(x) => {
                r.push(*x);
            },
            None => {
                assert(false);
            },
        }
    }
    r
}

/// True iff v occurs among the first `end` entries of `row`.
fn prefix_contains(row: &Vec<u8>, end: usize, v: u8) -> (r: bool)
    requires
        end <= row@.len(),
    ensures
        r <==> exists|k: int| 0 <= k < end && #[trigger] row@[k] == v,
{
    let mut k: usize = 0;
    while k < end
        invariant
            k <= end,
            forall|t: int| 0 <= t < k ==> #[trigger] row@[t] != v,
        decreases end - k,
    {
        if row[k] == v {
            assert(row@[k as int] == v);
            return true;
        }
        k += 1;
    }
    false
}

/// Zeroes every cell of the row of `coords` whose nonzero digit already
/// occurs earlier in that row, so that only the first occurrence of each
/// repeated digit survives; the rest of the board is untouched.
pub fn remove_row_duplicates(board: &mut Board, coords: Coords)
    requires
        board_wf(grid(*old(board))),
        coords.0 < 9,
    ensures
        board_wf(grid(*final(board))),
        grid(*final(board)) == row_dedup(grid(*old(board)), coords.0 as int),
{
    let ghost g0 = grid(*board);
    let row = coords.0;
    let orig = copy_row(board, row);
    let mut j: usize = 0;
    while j < 9
        invariant
            j <= 9,
            orig@ == g0[row as int],
            board_wf(grid(*board)),
            forall|t: int|
                j <= t < 9 ==> #[trigger] grid(*board)[row as int][t] == g0[row as int][t],
            forall|t: int|
                0 <= t < j ==> #[trigger] grid(*board)[row as int][t] == row_dedup(
                    g0,
                    row as int,
                )[row as int][t],
            forall|i: int| 0 <= i < 9 && i != row ==> #[trigger] grid(*board)[i] == g0[i],
        decreases 9 - j,
    {
        proof {
            lemma_grid_dims(*board);
        }
        let v = board[row][j];
        proof {
            assert(grid(*board)[row as int] == board@[row as int]@);
            assert(grid(*board)[row as int][j as int] == g0[row as int][j as int]);
            assert(v == g0[row as int][j as int]);
        }
        if v != 0 && prefix_contains(&orig, j, v) {
            let ghost g = grid(*board);
            set_cell(board, row, j, 0);
            proof {
                lemma_update_cell_wf(g, row as int, j as int, 0);
                assert(dup_before_in_row(g0, row as int, j as int));
            }
        } else {
            proof {
                assert(!dup_before_in_row(g0, row as int, j as int));
            }
        }
        j += 1;
    }
    proof {
        assert(grid(*board) =~~= row_dedup(g0, row as int));
    }
}

/// Zeroes every cell of the column of `coords` whose nonzero digit already
/// occurs higher in that column, so that only the first occurrence of each
/// repeated digit survives; the empty value 0 is never treated as a
/// duplicate, and the rest of the board is untouched.
pub fn remove_column_duplicates(board: &mut Board, coords: Coords)
    requires
        board_wf(grid(*old(board))),
        coords.1 < 9,
    ensures
        board_wf(grid(*final(board))),
        grid(*final(board)) == col_dedup(grid(*old(board)), coords.1 as int),
{
    let ghost g0 = grid(*board);
    let col = coords.1;
    let orig = copy_col(board, col);
    let mut i: usize = 0;
    while i < 9
        invariant
            i <= 9,
            orig@.len() == 9,
            forall|t: int| 0 <= t < 9 ==> #[trigger] orig@[t] == g0[t][col as int],
            board_wf(grid(*board)),
            forall|t: int|
                i <= t < 9 ==> #[trigger] grid(*board)[t][col as int] == g0[t][col as int],
            forall|t: int|
                0 <= t < i ==> #[trigger] grid(*board)[t][col as int] == col_dedup(
                    g0,
                    col as int,
                )[t][col as int],
            forall|a: int, b: int|
                0 <= a < 9 && 0 <= b < 9 && b != col ==> #[trigger] grid(*board)[a][b] == g0[a][b],
        decreases 9 - i,
    {
        proof {
            lemma_grid_dims(*board);
        }
        let v = board[i][col];
        proof {
            assert(grid(*board)[i as int] == board@[i as int]@);
            assert(grid(*board)[i as int][col as int] == g0[i as int][col as int]);
            assert(v == g0[i as int][col as int]);
        }
        if v != 0 && prefix_contains(&orig, i, v) {
            let ghost g = grid(*board);
            set_cell(board, i, col, 0);
            proof {
                lemma_update_cell_wf(g, i as int, col as int, 0);
                assert(dup_before_in_col(g0, col as int, i as int));
            }
        } else {
            proof {
                if v != 0 {
                    assert forall|k: int| 0 <= k < i implies #[trigger] g0[k][col as int]
                        != v by {
                        assert(orig@[k] != v);
                    }
                }
                assert(!dup_before_in_col(g0, col as int, i as int));
            }
        }
        i += 1;
    }
    proof {
        assert(grid(*board) =~~= col_dedup(g0, col as int));
    }
}

/// The subgrid cell visited at scan step t of the row-major sweep of the
/// subgrid at (sr, sc).
proof fn lemma_subgrid_scan(sr: int, sc: int, t: int)
    requires
        0 <= sr,
        0 <= sc,
        0 <= t < 9,
    ensures
        in_subgrid(sr, sc, sr + t / 3, sc + t % 3),
        3 * (t / 3) + t % 3 == t,
{
    assert(0 <= t / 3 < 3 && 0 <= t % 3 < 3 && 3 * (t / 3) + t % 3 == t) by (nonlinear_arith)
        requires
            0 <= t < 9,
    ;
}

/// Earlier scan steps visit cells that come earlier in row-major order.
proof fn lemma_scan_before(sr: int, sc: int, t: int, k: int)
    requires
        0 <= t < k < 9,
    ensures
        before_in_scan(sr + t / 3, sc + t % 3, sr + k / 3, sc + k % 3),
{
    assert(t / 3 < k / 3 || (t / 3 == k / 3 && t % 3 < k % 3)) by (nonlinear_arith)
        requires
            0 <= t < k < 9,
    ;
}

/// The scan step at which the row-major sweep of the subgrid at (sr, sc)
/// visits the cell (i2, j2) of that subgrid.
proof fn lemma_cell_to_scan(sr: int, sc: int, i2: int, j2: int)
    requires
        in_subgrid(sr, sc, i2, j2),
    ensures
        0 <= (i2 - sr) * 3 + (j2 - sc) < 9,
        ((i2 - sr) * 3 + (j2 - sc)) / 3 == i2 - sr,
        ((i2 - sr) * 3 + (j2 - sc)) % 3 == j2 - sc,
{
    let a = i2 - sr;
    let b = j2 - sc;
    assert(0 <= a * 3 + b < 9 && (a * 3 + b) / 3 == a && (a * 3 + b) % 3 == b)
        by (nonlinear_arith)
        requires
            0 <= a < 3,
            0 <= b < 3,
    ;
}

/// Copies the subgrid whose top-left corner is (sr, sc), row-major.
fn copy_subgrid(board: &Board, sr: usize, sc: usize) -> (r: Vec<u8>)
    requires
        board_wf(grid(*board)),
        sr <= 6,
        sc <= 6,
    ensures
        r@.len() == 9,
        forall|t: int|
            0 <= t < 9 ==> #[trigger] r@[t] == grid(*board)[sr + t / 3][sc + t % 3],
{
    proof {
        lemma_grid_dims(*board);
    }
    let mut r: Vec<u8> = Vec::new();
    let mut a: usize = 0;
    while a < 3
        invariant
            a <= 3,
            r@.len() == a * 3,
            forall|t: int|
                0 <= t < r@.len() ==> #[trigger] r@[t] == grid(*board)[sr + t / 3][sc + t % 3],
        decreases 3 - a,
    {
        let mut b: usize = 0;
        while b < 3
            invariant
                a < 3,
                b <= 3,
                r@.len() == a * 3 + b,
                forall|t: int|
                    0 <= t < r@.len() ==> #[trigger] r@[t] == grid(*board)[sr + t / 3][sc + t
                        % 3],
            decreases 3 - b,
        {
            r.push(board[sr + a][sc + b]);
            proof {
                let t = a * 3 + b;
                assert(t / 3 == a && t % 3 == b) by (nonlinear_arith)
                    requires
                        0 <= a < 3,
                        0 <= b < 3,
                        t == a * 3 + b,
                ;
                assert(grid(*board)[sr + a][sc + b] == board@[(sr + a) as int]@[(sc
                    + b) as int]);
                assert(r@[t as int] == grid(*board)[sr + t as int / 3][sc + t as int % 3]);
            }
            b += 1;
        }
        a += 1;
    }
    r
}

/// Zeroes every cell of the 3x3 subgrid containing `coords` whose nonzero
/// digit already occurs earlier in the subgrid's row-major order, keeping
/// only the first occurrence of each repeated digit; cells outside the
/// subgrid are untouched.
pub fn remove_subgrid_duplicates(board: &mut Board, coords: Coords)
    requires
        board_wf(grid(*old(board))),
        coords.0 < 9,
        coords.1 < 9,
    ensures
        board_wf(grid(*final(board))),
        grid(*final(board)) == subgrid_dedup(
            grid(*old(board)),
            subgrid_start(coords.0 as int),
            subgrid_start(coords.1 as int),
        ),
{
    let ghost g0 = grid(*board);
    let sr = (coords.0 / 3) * 3;
    let sc = (coords.1 / 3) * 3;
    let vals = copy_subgrid(board, sr, sc);
    let mut k: usize = 0;
    while k < 9
        invariant
            k <= 9,
            sr == subgrid_start(coords.0 as int),
            sc == subgrid_start(coords.1 as int),
            sr <= 6,
            sc <= 6,
            board_wf(grid(*board)),
            vals@.len() == 9,
            forall|t: int| 0 <= t < 9 ==> #[trigger] vals@[t] == g0[sr + t / 3][sc + t % 3],
            forall|i: int, j: int|
                0 <= i < 9 && 0 <= j < 9 && !in_subgrid(sr as int, sc as int, i, j)
                    ==> #[trigger] grid(*board)[i][j] == g0[i][j],
            forall|t: int|
                k <= t < 9 ==> #[trigger] grid(*board)[sr + t / 3][sc + t % 3] == g0[sr + t
                    / 3][sc + t % 3],
            forall|t: int|
                0 <= t < k ==> #[trigger] grid(*board)[sr + t / 3][sc + t % 3] == subgrid_dedup(
                    g0,
                    sr as int,
                    sc as int,
                )[sr + t / 3][sc + t % 3],
        decreases 9 - k,
    {
        let i = sr + k / 3;
        let j = sc + k % 3;
        proof {
            lemma_subgrid_scan(sr as int, sc as int, k as int);
            lemma_grid_dims(*board);
            assert(grid(*board)[i as int] == board@[i as int]@);
        }
        let v = board[i][j];
        proof {
            assert(v == grid(*board)[sr + k as int / 3][sc + k as int % 3]);
            assert(v == g0[i as int][j as int]);
        }
        if v != 0 && prefix_contains(&vals, k, v) {
            let ghost g = grid(*board);
            proof {
                let t = choose|t: int| 0 <= t < k && vals@[t] == v;
                lemma_subgrid_scan(sr as int, sc as int, t);
                lemma_scan_before(sr as int, sc as int, t, k as int);
                assert(g0[sr + t / 3][sc + t % 3] == v);
                assert(dup_before_in_subgrid(g0, sr as int, sc as int, i as int, j as int));
            }
            set_cell(board, i, j, 0);
            proof {
                lemma_update_cell_wf(g, i as int, j as int, 0);
            }
        } else {
            proof {
                if v != 0 {
                    assert forall|i2: int, j2: int|
                        in_subgrid(sr as int, sc as int, i2, j2) && before_in_scan(
                            i2,
                            j2,
                            i as int,
                            j as int,
                        ) implies #[trigger] g0[i2][j2] != v by {
                        lemma_cell_to_scan(sr as int, sc as int, i2, j2);
                        let t = (i2 - sr) * 3 + (j2 - sc);
                        assert(t < k) by {
                            lemma_subgrid_scan(sr as int, sc as int, k as int);
                        }
                        assert(vals@[t] == g0[i2][j2]);
                        assert(vals@[t] != v);
                    }
                }
                assert(!dup_before_in_subgrid(g0, sr as int, sc as int, i as int, j as int));
            }
        }
        proof {
            assert(grid(*board)[sr + k as int / 3][sc + k as int % 3] == subgrid_dedup(
                g0,
                sr as int,
                sc as int,
            )[sr + k as int / 3][sc + k as int % 3]);
        }
        k += 1;
    }
    proof {
        assert forall|i2: int, j2: int| 0 <= i2 < 9 && 0 <= j2 < 9 implies grid(*board)[i2][j2]
            == subgrid_dedup(g0, sr as int, sc as int)[i2][j2] by {
            if in_subgrid(sr as int, sc as int, i2, j2) {
                lemma_cell_to_scan(sr as int, sc as int, i2, j2);
                let t = (i2 - sr) * 3 + (j2 - sc);
                assert(grid(*board)[sr + t / 3][sc + t % 3] == subgrid_dedup(
                    g0,
                    sr as int,
                    sc as int,
                )[sr + t / 3][sc + t % 3]);
            }
        }
        assert(grid(*board) =~~= subgrid_dedup(g0, sr as int, sc as int));
    }
}

/// Removes duplicates from the whole board in one sweep: first every 3x3
/// subgrid in row-major subgrid order, then for each index 0 through 8 the
/// row and then the column of that index.
///
/// One sweep does not guarantee a globally duplicate-free board: each pass
/// looks only at its own scope, so a later pass can reintroduce a conflict
/// in a scope an earlier pass had cleaned.
pub fn remove_all_duplicates(board: &mut Board)
    requires
        board_wf(grid(*old(board))),
    ensures
        board_wf(grid(*final(board))),
        grid(*final(board)) == all_dedup(grid(*old(board))),
{
    let ghost g0 = grid(*board);
    let mut k: usize = 0;
    while k < 9
        invariant
            k <= 9,
            board_wf(grid(*board)),
            grid(*board) == subgrid_passes(g0, k as int),
        decreases 9 - k,
    {
        let sr = (k / 3) * 3;
        let sc = (k % 3) * 3;
        proof {
            assert(sr < 9 && sc < 9 && (sr as int / 3) * 3 == sr && (sc as int / 3) * 3 == sc)
                by (nonlinear_arith)
                requires
                    0 <= k < 9,
                    sr == (k / 3) * 3,
                    sc == (k % 3) * 3,
            ;
        }
        remove_subgrid_duplicates(board, (sr, sc));
        k += 1;
        proof {
            assert(grid(*board) == subgrid_passes(g0, k as int));
        }
    }
    let ghost g1 = grid(*board);
    let mut i: usize = 0;
    while i < 9
        invariant
            i <= 9,
            board_wf(grid(*board)),
            g1 == subgrid_passes(g0, 9),
            grid(*board) == row_col_passes(g1, i as int),
        decreases 9 - i,
    {
        remove_row_duplicates(board, (i, 0));
        remove_column_duplicates(board, (0, i));
        i += 1;
        proof {
            assert(grid(*board) == row_col_passes(g1, i as int));
        }
    }
}

/// Copies a list of positions.
fn copy_indices(v: &Vec<usize>) -> (r: Vec<usize>)
    ensures
        r@ == v@,
{
    let mut r: Vec<usize> = Vec::new();
    let mut k: usize = 0;
    while k < v.len()
        invariant
            k <= v@.len(),
            r@ == v@.subrange(0, k as int),
        decreases v@.len() - k,
    {
        r.push(v[k]);
        proof {
            assert(v@.subrange(0, k as int).push(v@[k as int]) =~= v@.subrange(0, k + 1));
        }
        k += 1;
    }
    proof {
        assert(v@.subrange(0, v@.len() as int) =~= v@);
    }
    r
}

/// A value that never occurs before position n has no occurrences there.
proof fn lemma_occurrences_absent(s: Seq<u8>, v: u8, n: int)
    requires
        0 <= n,
        forall|k: int| 0 <= k < n ==> #[trigger] s[k] != v,
    ensures
        occurrences_upto(s, v, n) == Seq::<usize>::empty(),
    decreases n,
{
    if n > 0 {
        lemma_occurrences_absent(s, v, n - 1);
    }
}

/// Maps each value occurring in `values` to the ascending list of the
/// positions at which it occurs; a value that never occurs has no entry.
pub fn find_duplicates(values: &Vec<u8>) -> (m: HashMap<u8, Vec<usize>>)
    ensures
        forall|v: u8| #[trigger] m@.contains_key(v) <==> values@.contains(v),
        forall|v: u8| #[trigger] m@.contains_key(v) ==> m@[v]@ == occurrences(values@, v),
{
    broadcast use vstd::std_specs::hash::group_hash_axioms;

    let mut m: HashMap<u8, Vec<usize>> = HashMap::new();
    let mut i: usize = 0;
    while i < values.len()
        invariant
            i <= values@.len(),
            forall|v: u8|
                #[trigger] m@.contains_key(v) <==> exists|k: int|
                    0 <= k < i && #[trigger] values@[k] == v,
            forall|v: u8|
                #[trigger] m@.contains_key(v) ==> m@[v]@ == occurrences_upto(
                    values@,
                    v,
                    i as int,
                ),
        decreases values@.len() - i,
    {
        let x = values[i];
        let ghost prev = m@;
        let mut cur: Vec<usize> = match m.get(&x) {
            Some(c) => copy_indices(c),
            None => Vec::new(),
        };
        proof {
            if prev.contains_key(x) {
                assert(cur@ == occurrences_upto(values@, x, i as int));
            } else {
                assert forall|k: int| 0 <= k < i implies #[trigger] values@[k] != x by {}
                lemma_occurrences_absent(values@, x, i as int);
            }
            assert(cur@ == occurrences_upto(values@, x, i as int));
        }
        cur.push(i);
        m.insert(x, cur);
        proof {
            assert(values@[i as int] == x);
            assert(occurrences_upto(values@, x, i + 1) == occurrences_upto(
                values@,
                x,
                i as int,
            ).push(i));
            assert forall|v: u8| #[trigger] m@.contains_key(v) implies exists|k: int|
                0 <= k < i + 1 && #[trigger] values@[k] == v by {
                if v == x {
                    assert(values@[i as int] == v);
                } else {
                    assert(prev.contains_key(v));
                }
            }
            assert forall|v: u8|
                exists|k: int| 0 <= k < i + 1 && #[trigger] values@[k] == v implies (
            #[trigger] m@.contains_key(v)) by {
                if v != x {
                    let k = choose|k: int| 0 <= k < i + 1 && #[trigger] values@[k] == v;
                    assert(0 <= k < i && values@[k] == v);
                    assert(prev.contains_key(v));
                }
            }
            assert forall|v: u8| #[trigger] m@.contains_key(v) implies m@[v]@
                == occurrences_upto(values@, v, i + 1) by {
                if v != x {
                    assert(m@[v] == prev[v]);
                    assert(occurrences_upto(values@, v, i + 1) == occurrences_upto(
                        values@,
                        v,
                        i as int,
                    ));
                }
            }
        }
        i += 1;
    }
    proof {
        assert forall|v: u8| #[trigger] m@.contains_key(v) <==> values@.contains(v) by {
            if values@.contains(v) {
                let k = choose|k: int| 0 <= k < values@.len() && values@[k] == v;
                assert(values@[k] == v);
            }
        }
    }
    m
}

/// Law: removing duplicates from a row is idempotent — a second pass over
/// the same row changes nothing, so doing it twice equals doing it once.
pub proof fn lemma_row_dedup_idempotent(b: Seq<Seq<u8>>, r: int)
    requires
        board_wf(b),
        0 <= r < 9,
    ensures
        row_dedup(row_dedup(b, r), r) == row_dedup(b, r),
{
    let b1 = row_dedup(b, r);
    assert forall|j: int| 0 <= j < 9 implies !dup_before_in_row(b1, r, j) by {
        if dup_before_in_row(b1, r, j) {
            let k = choose|k: int| 0 <= k < j && #[trigger] b1[r][k] == b1[r][j];
            assert(b1[r][j] == b[r][j]);
            assert(b1[r][k] == b[r][k]);
            assert(dup_before_in_row(b, r, j));
        }
    }
    assert(row_dedup(b1, r) =~~= b1);
}

/// Law: removing duplicates from a column is idempotent — a second pass
/// over the same column changes nothing, so doing it twice equals doing it
/// once.
pub proof fn lemma_col_dedup_idempotent(b: Seq<Seq<u8>>, c: int)
    requires
        board_wf(b),
        0 <= c < 9,
    ensures
        col_dedup(col_dedup(b, c), c) == col_dedup(b, c),
{
    let b1 = col_dedup(b, c);
    assert forall|i: int| 0 <= i < 9 implies !dup_before_in_col(b1, c, i) by {
        if dup_before_in_col(b1, c, i) {
            let k = choose|k: int| 0 <= k < i && #[trigger] b1[k][c] == b1[i][c];
            assert(b1[i][c] == b[i][c]);
            assert(b1[k][c] == b[k][c]);
            assert(dup_before_in_col(b, c, i));
        }
    }
    assert(col_dedup(b1, c) =~~= b1);
}

/// Law: removing duplicates from a subgrid is idempotent — a second pass
/// over the same subgrid changes nothing, so doing it twice equals doing it
/// once.
pub proof fn lemma_subgrid_dedup_idempotent(b: Seq<Seq<u8>>, sr: int, sc: int)
    requires
        board_wf(b),
        0 <= sr <= 6,
        0 <= sc <= 6,
    ensures
        subgrid_dedup(subgrid_dedup(b, sr, sc), sr, sc) == subgrid_dedup(b, sr, sc),
{
    let b1 = subgrid_dedup(b, sr, sc);
    assert forall|i: int, j: int| in_subgrid(sr, sc, i, j) implies !dup_before_in_subgrid(
        b1,
        sr,
        sc,
        i,
        j,
    ) by {
        if dup_before_in_subgrid(b1, sr, sc, i, j) {
            let (i2, j2) = choose|i2: int, j2: int|
                in_subgrid(sr, sc, i2, j2) && before_in_scan(i2, j2, i, j) && #[trigger] b1[i2][j2]
                    == b1[i][j];
            assert(b1[i][j] == b[i][j]);
            assert(b1[i2][j2] == b[i2][j2]);
            assert(dup_before_in_subgrid(b, sr, sc, i, j));
        }
    }
    assert forall|i: int, j: int| 0 <= i < 9 && 0 <= j < 9 implies #[trigger] subgrid_dedup(
        b1,
        sr,
        sc,
    )[i][j] == b1[i][j] by {
        if in_subgrid(sr, sc, i, j) {
            assert(!dup_before_in_subgrid(b1, sr, sc, i, j));
        }
    }
    assert(subgrid_dedup(b1, sr, sc) =~~= b1);
}

} // verus!
