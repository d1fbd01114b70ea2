//! The backtracking solver: find the empty cells, then fill them in
//! row-major order with the first digit sequence the validator accepts.

use vstd::prelude::*;

use crate::model::{board_wf, can_place, cells_conflict, completion, count_empty,
    exactly_once_in_col, exactly_once_in_row, exactly_once_in_subgrid, extends, full, grid,
    in_subgrid, lemma_completion_can_place, lemma_count_empty_update, lemma_grid_dims,
    lemma_place_preserves_legal, lemma_row_major_leq_refl, lemma_row_major_lt_at, legal,
    row_major_leq, same_subgrid, subgrid_start, update_cell};
use crate::{Board, Coords};
use vstd::set_lib::{lemma_int_range, lemma_subset_equality, set_int_range};

verus! {

/// Returns the coordinates of every empty cell (value 0), in row-major
/// order: sorted by row, then by column, with no repetitions or omissions.
pub fn find_empty(board: &Board) -> (r: Vec<Coords>)
    requires
        board_wf(grid(*board)),
    ensures
        forall|k: int|
            0 <= k < r@.len() ==> (#[trigger] r@[k]).0 < 9 && r@[k].1 < 9 && grid(
                *board,
            )[r@[k].0 as int][r@[k].1 as int] == 0,
        forall|i: usize, j: usize|
            i < 9 && j < 9 && grid(*board)[i as int][j as int] == 0 ==> #[trigger] r@.contains(
                ((i, j)),
            ),
        forall|k1: int, k2: int|
            0 <= k1 < k2 < r@.len() ==> (#[trigger] r@[k1]).0 * 9 + r@[k1].1 < (
            #[trigger] r@[k2]).0 * 9 + r@[k2].1,
{
    proof {
        lemma_grid_dims(*board);
    }
    let mut empty_coords = Vec::<Coords>::new();
    let mut i: usize = 0;
    while i < 9
        invariant
            i <= 9,
            forall|k: int|
                0 <= k < empty_coords@.len() ==> (#[trigger] empty_coords@[k]).0 < 9
                    && empty_coords@[k].1 < 9 && grid(
                    *board,
                )[empty_coords@[k].0 as int][empty_coords@[k].1 as int] == 0,
            forall|a: usize, b: usize|
                a < i && b < 9 && grid(*board)[a as int][b as int] == 0 ==> #[trigger] empty_coords@.contains(
                    ((a, b)),
                ),
            forall|k: int|
                0 <= k < empty_coords@.len() ==> (#[trigger] empty_coords@[k]).0 * 9
                    + empty_coords@[k].1 < i * 9,
            forall|k1: int, k2: int|
                0 <= k1 < k2 < empty_coords@.len() ==> (#[trigger] empty_coords@[k1]).0 * 9
                    + empty_coords@[k1].1 < (#[trigger] empty_coords@[k2]).0 * 9
                    + empty_coords@[k2].1,
        decreases 9 - i,
    {
        let mut j: usize = 0;
        while j < 9
            invariant
                i < 9,
                j <= 9,
                forall|k: int|
                    0 <= k < empty_coords@.len() ==> (#[trigger] empty_coords@[k]).0 < 9
                        && empty_coords@[k].1 < 9 && grid(
                        *board,
                    )[empty_coords@[k].0 as int][empty_coords@[k].1 as int] == 0,
                forall|a: usize, b: usize|
                    a < i && b < 9 && grid(*board)[a as int][b as int] == 0 ==> #[trigger] empty_coords@.contains(
                        ((a, b)),
                    ),
                forall|b: usize|
                    b < j && grid(*board)[i as int][b as int] == 0 ==> #[trigger] empty_coords@.contains(
                        ((i, b)),
                    ),
                forall|k: int|
                    0 <= k < empty_coords@.len() ==> (#[trigger] empty_coords@[k]).0 * 9
                        + empty_coords@[k].1 < i * 9 + j,
                forall|k1: int, k2: int|
                    0 <= k1 < k2 < empty_coords@.len() ==> (#[trigger] empty_coords@[k1]).0 * 9
                        + empty_coords@[k1].1 < (#[trigger] empty_coords@[k2]).0 * 9
                        + empty_coords@[k2].1,
            decreases 9 - j,
        {
            if board[i][j] == 0 {
                let ghost prev = empty_coords@;
                empty_coords.push((i, j));
                proof {
                    assert forall|a: usize, b: usize|
                        a < i && b < 9 && grid(*board)[a as int][b as int] == 0
                            implies empty_coords@.contains(((a, b))) by {
                        let p = (a, b);
                        assert(prev.contains(p));
                        let k = choose|k: int| 0 <= k < prev.len() && prev[k] == p;
                        assert(empty_coords@[k] == p);
                    }
                    assert forall|b: usize|
                        b < j + 1 && grid(*board)[i as int][b as int] == 0
                            implies empty_coords@.contains(((i, b))) by {
                        if b < j {
                            let p = (i, b);
                            assert(prev.contains(p));
                            let k = choose|k: int| 0 <= k < prev.len() && prev[k] == p;
                            assert(empty_coords@[k] == p);
                        } else {
                            assert(empty_coords@[prev.len() as int] == (i, j));
                        }
                    }
                }
            }
            j += 1;
        }
        i += 1;
    }
    empty_coords
}

/// Writes one cell of the board.
pub(crate) fn set_cell(board: &mut Board, i: usize, j: usize, v: u8)
    requires
        board_wf(grid(*old(board))),
        i < 9,
        j < 9,
    ensures
        grid(*final(board)) == update_cell(grid(*old(board)), i as int, j as int, v),
{
    proof {
        lemma_grid_dims(*board);
    }
    board[i][j] = v;
    proof {
        assert(grid(*board) =~~= update_cell(grid(*old(board)), i as int, j as int, v));
    }
}

/// Solves the board in place by depth-first backtracking: at the first empty
/// cell in row-major order, digits are tried in ascending order and the
/// first accepted digit whose recursive completion succeeds wins.
///
/// Returns true iff the search filled every empty cell; on success the board
/// holds the found assignment, on failure the board is left exactly as it
/// was. Whenever a full legal completion of the board exists, the search
/// finds one and returns true; and on a board whose filled cells are
/// mutually legal, a true answer means the board now holds such a
/// completion — the least one in row-major order, which makes the search
/// deterministic.
pub fn solve(board: &mut Board) -> (r: bool)
    requires
        board_wf(grid(*old(board))),
    ensures
        board_wf(grid(*final(board))),
        !r ==> grid(*final(board)) == grid(*old(board)),
        r ==> full(grid(*final(board))) && extends(grid(*final(board)), grid(*old(board))),
        full(grid(*old(board))) ==> r && grid(*final(board)) == grid(*old(board)),
        forall|c: Seq<Seq<u8>>| completion(c, grid(*old(board))) ==> r,
        r && legal(grid(*old(board))) ==> completion(grid(*final(board)), grid(*old(board))),
        r && legal(grid(*old(board))) ==> forall|c: Seq<Seq<u8>>|
            completion(c, grid(*old(board))) ==> row_major_leq(grid(*final(board)), c, 0),
    decreases count_empty(grid(*board)),
{
    let ghost g0 = grid(*board);
    let empty_coords = find_empty(board);
    if empty_coords.len() == 0 {
        proof {
            assert forall|i: int, j: int| 0 <= i < 9 && 0 <= j < 9 implies (#[trigger] g0[i][j])
                != 0 by {
                if g0[i][j] == 0 {
                    assert(empty_coords@.contains(((i as usize, j as usize))));
                }
            }
            assert(full(g0));
            assert(extends(g0, g0));
            assert forall|c: Seq<Seq<u8>>| completion(c, g0) implies row_major_leq(
                g0,
                c,
                0,
            ) by {
                assert(c =~~= g0);
                lemma_row_major_leq_refl(g0, 0);
            }
        }
        return true;
    }
    let rc = empty_coords[0];
    let row = rc.0;
    let col = rc.1;
    proof {
        assert(empty_coords@[0] == rc);
        assert(g0[row as int][col as int] == 0);
        assert(!full(g0));
        // (row, col) is the first empty cell in row-major order: every
        // earlier position is filled.
        assert forall|i: int, j: int|
            0 <= i < 9 && 0 <= j < 9 && i * 9 + j < row * 9 + col implies (#[trigger] g0[i][j])
            != 0 by {
            if g0[i][j] == 0 {
                assert(empty_coords@.contains(((i as usize, j as usize))));
                let t = choose|t: int|
                    0 <= t < empty_coords@.len() && empty_coords@[t] == (i as usize, j as usize);
                if t > 0 {
                    assert((empty_coords@[0]).0 * 9 + empty_coords@[0].1 < (empty_coords@[t]).0
                        * 9 + empty_coords@[t].1);
                }
            }
        }
    }
    let mut num: u8 = 1;
    while num <= 9
        invariant
            board_wf(grid(*board)),
            grid(*board) == g0,
            1 <= num <= 10,
            row < 9,
            col < 9,
            g0[row as int][col as int] == 0,
            forall|c: Seq<Seq<u8>>|
                completion(c, g0) ==> (#[trigger] c[row as int][col as int]) >= num,
        decreases 10 - num,
    {
        if is_valid(board, row, col, num) {
            set_cell(board, row, col, num);
            proof {
                lemma_count_empty_update(g0, row as int, col as int, num);
            }
            let ghost g1 = grid(*board);
            if solve(board) {
                proof {
                    assert forall|i: int, j: int|
                        0 <= i < 9 && 0 <= j < 9 && (#[trigger] g0[i][j]) != 0 implies grid(
                        *board,
                    )[i][j] == g0[i][j] by {
                        assert(g1[i][j] == g0[i][j]);
                    }
                    if legal(g0) {
                        lemma_place_preserves_legal(g0, row as int, col as int, num);
                        assert(completion(grid(*board), g1));
                        assert(completion(grid(*board), g0));
                        let ghost p = row as int * 9 + col as int;
                        assert(g1[row as int][col as int] == num);
                        assert(grid(*board)[row as int][col as int] == num);
                        assert forall|c: Seq<Seq<u8>>| completion(c, g0) implies row_major_leq(
                            grid(*board),
                            c,
                            0,
                        ) by {
                            if c[row as int][col as int] == num {
                                assert forall|i: int, j: int|
                                    0 <= i < 9 && 0 <= j < 9 && (#[trigger] g1[i][j]) != 0
                                    implies c[i][j] == g1[i][j] by {
                                    if !(i == row && j == col) {
                                        assert(g1[i][j] == g0[i][j]);
                                    }
                                }
                                assert(completion(c, g1));
                            } else {
                                assert(num < c[row as int][col as int]);
                                assert forall|q: int| 0 <= q < p implies #[trigger] grid(
                                    *board,
                                )[q / 9][q % 9] == c[q / 9][q % 9] by {
                                    assert(0 <= q / 9 < 9 && 0 <= q % 9 < 9 && (q / 9) * 9 + q % 9
                                        == q) by (nonlinear_arith)
                                        requires
                                            0 <= q < p,
                                            p == row * 9 + col,
                                            row < 9,
                                            col < 9,
                                    ;
                                    assert(g0[q / 9][q % 9] != 0);
                                    assert(grid(*board)[q / 9][q % 9] == g0[q / 9][q % 9]);
                                    assert(c[q / 9][q % 9] == g0[q / 9][q % 9]);
                                }
                                assert(p / 9 == row as int && p % 9 == col as int)
                                    by (nonlinear_arith)
                                    requires
                                        p == row * 9 + col,
                                        0 <= row < 9,
                                        0 <= col < 9,
                                ;
                                assert(grid(*board)[p / 9][p % 9] < c[p / 9][p % 9]);
                                lemma_row_major_lt_at(grid(*board), c, 0, p);
                            }
                        }
                    }
                }
                return true;
            }
            set_cell(board, row, col, 0);
            proof {
                assert(grid(*board) =~~= g0);
                assert forall|c: Seq<Seq<u8>>| completion(c, g0) implies (
                #[trigger] c[row as int][col as int]) >= num + 1 by {
                    if c[row as int][col as int] == num {
                        assert forall|i: int, j: int|
                            0 <= i < 9 && 0 <= j < 9 && (#[trigger] g1[i][j]) != 0 implies c[i][j]
                            == g1[i][j] by {
                            if !(i == row && j == col) {
                                assert(g1[i][j] == g0[i][j]);
                            }
                        }
                        assert(completion(c, g1));
                        assert(false);
                    }
                }
            }
        } else {
            proof {
                assert forall|c: Seq<Seq<u8>>| completion(c, g0) implies (
                #[trigger] c[row as int][col as int]) >= num + 1 by {
                    if c[row as int][col as int] == num {
                        lemma_completion_can_place(c, g0, row as int, col as int);
                        assert(false);
                    }
                }
            }
        }
        num += 1;
    }
    proof {
        assert forall|c: Seq<Seq<u8>>| completion(c, g0) implies false by {
            assert(c[row as int][col as int] >= 10);
            assert(board_wf(c));
            assert(c[row as int][col as int] <= 9);
        }
    }
    false
}

/// Nine pairwise-distinct values drawn from the nine digits 1 through 9
/// must cover every one of those digits.
proof fn lemma_pigeonhole_digits(vals: Seq<u8>)
    requires
        vals.len() == 9,
        forall|k: int| 0 <= k < 9 ==> 1 <= (#[trigger] vals[k]) <= 9,
        vals.no_duplicates(),
    ensures
        forall|d: u8| 1 <= d <= 9 ==> vals.contains(d),
{
    broadcast use vstd::seq_lib::seq_to_set_is_finite;

    let ivals = vals.map_values(|v: u8| v as int);
    assert(ivals.no_duplicates()) by {
        assert forall|i: int, j: int|
            0 <= i < ivals.len() && 0 <= j < ivals.len() && i != j implies ivals[i] != ivals[j] by {
            assert(vals[i] != vals[j]);
        }
    }
    ivals.unique_seq_to_set();
    let s = ivals.to_set();
    assert(s.subset_of(set_int_range(1, 10))) by {
        assert forall|x: int| s.contains(x) implies set_int_range(1, 10).contains(x) by {
            let k = choose|k: int| 0 <= k < ivals.len() && ivals[k] == x;
            assert(1 <= vals[k] <= 9);
        }
    }
    lemma_int_range(1, 10);
    lemma_subset_equality(s, set_int_range(1, 10));
    assert forall|d: u8| 1 <= d <= 9 implies vals.contains(d) by {
        assert(set_int_range(1, 10).contains(d as int));
        assert(s.contains(d as int));
        assert(ivals.contains(d as int));
        let k = choose|k: int| 0 <= k < ivals.len() && ivals[k] == d as int;
        assert(vals[k] == d);
    }
}

/// Law: a full, legal, well-formed board — what the solver leaves behind on
/// success when the filled cells it started from were legal — holds each
/// digit 1 through 9 exactly once in every row, every column, and every
/// subgrid.
pub proof fn lemma_solved_board_digits(b: Seq<Seq<u8>>)
    requires
        board_wf(b),
        full(b),
        legal(b),
    ensures
        forall|r: int, d: u8| 0 <= r < 9 && 1 <= d <= 9 ==> exactly_once_in_row(b, r, d),
        forall|c: int, d: u8| 0 <= c < 9 && 1 <= d <= 9 ==> exactly_once_in_col(b, c, d),
        forall|r: int, c: int, d: u8|
            0 <= r < 9 && 0 <= c < 9 && 1 <= d <= 9 ==> exactly_once_in_subgrid(
                b,
                subgrid_start(r),
                subgrid_start(c),
                d,
            ),
{
    assert forall|r: int, d: u8| 0 <= r < 9 && 1 <= d <= 9 implies exactly_once_in_row(
        b,
        r,
        d,
    ) by {
        let vals = Seq::new(9, |j: int| b[r][j]);
        assert(vals.no_duplicates()) by {
            assert forall|j1: int, j2: int|
                0 <= j1 < vals.len() && 0 <= j2 < vals.len() && j1 != j2 implies vals[j1]
                != vals[j2] by {
                if vals[j1] == vals[j2] {
                    assert(cells_conflict(b, r, j1, r, j2));
                }
            }
        }
        lemma_pigeonhole_digits(vals);
        assert(vals.contains(d));
        let j = choose|j: int| 0 <= j < vals.len() && vals[j] == d;
        assert(b[r][j] == d);
        assert forall|j1: int, j2: int|
            0 <= j1 < 9 && 0 <= j2 < 9 && #[trigger] b[r][j1] == d && #[trigger] b[r][j2] == d
            implies j1 == j2 by {
            if j1 != j2 {
                assert(cells_conflict(b, r, j1, r, j2));
            }
        }
    }
    assert forall|c: int, d: u8| 0 <= c < 9 && 1 <= d <= 9 implies exactly_once_in_col(
        b,
        c,
        d,
    ) by {
        let vals = Seq::new(9, |i: int| b[i][c]);
        assert(vals.no_duplicates()) by {
            assert forall|i1: int, i2: int|
                0 <= i1 < vals.len() && 0 <= i2 < vals.len() && i1 != i2 implies vals[i1]
                != vals[i2] by {
                if vals[i1] == vals[i2] {
                    assert(cells_conflict(b, i1, c, i2, c));
                }
            }
        }
        lemma_pigeonhole_digits(vals);
        assert(vals.contains(d));
        let i = choose|i: int| 0 <= i < vals.len() && vals[i] == d;
        assert(b[i][c] == d);
        assert forall|i1: int, i2: int|
            0 <= i1 < 9 && 0 <= i2 < 9 && #[trigger] b[i1][c] == d && #[trigger] b[i2][c] == d
            implies i1 == i2 by {
            if i1 != i2 {
                assert(cells_conflict(b, i1, c, i2, c));
            }
        }
    }
    assert forall|r: int, c: int, d: u8|
        0 <= r < 9 && 0 <= c < 9 && 1 <= d <= 9 implies exactly_once_in_subgrid(
        b,
        subgrid_start(r),
        subgrid_start(c),
        d,
    ) by {
        let sr = subgrid_start(r);
        let sc = subgrid_start(c);
        assert(0 <= sr <= 6 && 0 <= sc <= 6 && sr % 3 == 0 && sc % 3 == 0);
        assert forall|i1: int, j1: int, i2: int, j2: int|
            in_subgrid(sr, sc, i1, j1) && in_subgrid(sr, sc, i2, j2) implies same_subgrid(
            i1,
            j1,
            i2,
            j2,
        ) by {
            assert(i1 / 3 == i2 / 3 && j1 / 3 == j2 / 3) by (nonlinear_arith)
                requires
                    sr % 3 == 0,
                    sc % 3 == 0,
                    sr <= i1 < sr + 3,
                    sr <= i2 < sr + 3,
                    sc <= j1 < sc + 3,
                    sc <= j2 < sc + 3,
            ;
        }
        let vals = Seq::new(9, |k: int| b[sr + k / 3][sc + k % 3]);
        assert(vals.no_duplicates()) by {
            assert forall|k1: int, k2: int|
                0 <= k1 < vals.len() && 0 <= k2 < vals.len() && k1 != k2 implies vals[k1]
                != vals[k2] by {
                let (i1, j1) = (sr + k1 / 3, sc + k1 % 3);
                let (i2, j2) = (sr + k2 / 3, sc + k2 % 3);
                vstd::arithmetic::div_mod::lemma_fundamental_div_mod(k1, 3);
                vstd::arithmetic::div_mod::lemma_fundamental_div_mod(k2, 3);
                assert(!(i1 == i2 && j1 == j2));
                assert(in_subgrid(sr, sc, i1, j1) && in_subgrid(sr, sc, i2, j2));
                if vals[k1] == vals[k2] {
                    assert(cells_conflict(b, i1, j1, i2, j2));
                }
            }
        }
        lemma_pigeonhole_digits(vals);
        assert(vals.contains(d));
        let k = choose|k: int| 0 <= k < vals.len() && vals[k] == d;
        assert(in_subgrid(sr, sc, sr + k / 3, sc + k % 3));
        assert(b[sr + k / 3][sc + k % 3] == d);
        assert forall|i1: int, j1: int, i2: int, j2: int|
            in_subgrid(sr, sc, i1, j1) && in_subgrid(sr, sc, i2, j2) && #[trigger] b[i1][j1] == d
                && #[trigger] b[i2][j2] == d implies i1 == i2 && j1 == j2 by {
            if !(i1 == i2 && j1 == j2) {
                assert(cells_conflict(b, i1, j1, i2, j2));
            }
        }
    }
}

/// True iff placing `num` at (`row`, `col`) violates none of the row,
/// column, and subgrid constraints.
pub fn is_valid(board: &Board, row: usize, col: usize, num: u8) -> (r: bool)
    requires
        board_wf(grid(*board)),
        row < 9,
        col < 9,
    ensures
        r <==> can_place(grid(*board), row as int, col as int, num),
{
    let coords = (row, col);
    crate::validator::is_row_valid(board, coords, num) && crate::validator::is_col_valid(
        board,
        coords,
        num,
    ) && crate::validator::is_subgrid_valid(board, coords, num)
}

} // verus!
