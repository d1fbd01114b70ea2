//! The mathematical model of a Sudoku board: well-formedness, legality,
//! placement validity, completions, and the duplicate-removal transforms.

use vstd::prelude::*;

verus! {

/// The mathematical view of a board: each row as a sequence of digits.
pub open spec fn grid(b: crate::Board) -> Seq<Seq<u8>> {
    b@.map_values(|row: Vec<u8>| row@)
}

/// Connects the view of a well-formed board to the lengths and rows of the
/// underlying vectors, so that indexing is known to stay in bounds.
pub proof fn lemma_grid_dims(b: crate::Board)
    requires
        board_wf(grid(b)),
    ensures
        b@.len() == 9,
        forall|i: int| 0 <= i < 9 ==> (#[trigger] grid(b)[i]) == b@[i]@,
        forall|i: int| 0 <= i < 9 ==> (#[trigger] b@[i])@.len() == 9,
{
    assert forall|i: int| 0 <= i < 9 implies (#[trigger] b@[i])@.len() == 9 by {
        assert(grid(b)[i] == b@[i]@);
    }
}

/// A board is well-formed when it is a 9x9 grid of digits 0 through 9.
pub open spec fn board_wf(b: Seq<Seq<u8>>) -> bool {
    &&& b.len() == 9
    &&& forall|i: int| 0 <= i < 9 ==> (#[trigger] b[i]).len() == 9
    &&& forall|i: int, j: int| 0 <= i < 9 && 0 <= j < 9 ==> #[trigger] b[i][j] <= 9
}

/// Every cell holds a digit; no cell is empty.
pub open spec fn full(b: Seq<Seq<u8>>) -> bool {
    forall|i: int, j: int| 0 <= i < 9 && 0 <= j < 9 ==> #[trigger] b[i][j] != 0
}

/// The cells (r1, c1) and (r2, c2) lie in the same 3x3 subgrid.
pub open spec fn same_subgrid(r1: int, c1: int, r2: int, c2: int) -> bool {
    r1 / 3 == r2 / 3 && c1 / 3 == c2 / 3
}

/// Two distinct cells conflict when they share a row, column, or subgrid
/// and hold the same nonzero digit.
pub open spec fn cells_conflict(b: Seq<Seq<u8>>, r1: int, c1: int, r2: int, c2: int) -> bool {
    &&& !(r1 == r2 && c1 == c2)
    &&& b[r1][c1] != 0
    &&& b[r1][c1] == b[r2][c2]
    &&& (r1 == r2 || c1 == c2 || same_subgrid(r1, c1, r2, c2))
}

/// No two distinct cells of any row, column, or subgrid hold the same
/// nonzero digit.
pub open spec fn legal(b: Seq<Seq<u8>>) -> bool {
    forall|r1: int, c1: int, r2: int, c2: int|
        0 <= r1 < 9 && 0 <= c1 < 9 && 0 <= r2 < 9 && 0 <= c2 < 9
            ==> !(#[trigger] cells_conflict(b, r1, c1, r2, c2))
}

/// The digit v occurs somewhere in row r.
pub open spec fn value_in_row(b: Seq<Seq<u8>>, r: int, v: u8) -> bool {
    exists|j: int| 0 <= j < 9 && #[trigger] b[r][j] == v
}

/// The digit v occurs somewhere in column c.
pub open spec fn value_in_col(b: Seq<Seq<u8>>, c: int, v: u8) -> bool {
    exists|i: int| 0 <= i < 9 && #[trigger] b[i][c] == v
}

/// The digit v occurs somewhere in the subgrid containing (r, c).
pub open spec fn value_in_subgrid(b: Seq<Seq<u8>>, r: int, c: int, v: u8) -> bool {
    exists|i: int, j: int|
        0 <= i < 9 && 0 <= j < 9 && same_subgrid(i, j, r, c) && #[trigger] b[i][j] == v
}

/// Placing v at (r, c) violates none of the three constraint families.
pub open spec fn can_place(b: Seq<Seq<u8>>, r: int, c: int, v: u8) -> bool {
    &&& !value_in_row(b, r, v)
    &&& !value_in_col(b, c, v)
    &&& !value_in_subgrid(b, r, c, v)
}

/// The board b with cell (r, c) replaced by v.
pub open spec fn update_cell(b: Seq<Seq<u8>>, r: int, c: int, v: u8) -> Seq<Seq<u8>> {
    b.update(r, b[r].update(c, v))
}

/// b2 fills in b1: wherever b1 holds a nonzero digit, b2 holds the same digit.
pub open spec fn extends(b2: Seq<Seq<u8>>, b1: Seq<Seq<u8>>) -> bool {
    forall|i: int, j: int|
        0 <= i < 9 && 0 <= j < 9 && (#[trigger] b1[i][j]) != 0 ==> b2[i][j] == b1[i][j]
}

/// A completion of b: a well-formed, full, legal board that fills in b.
pub open spec fn completion(c: Seq<Seq<u8>>, b: Seq<Seq<u8>>) -> bool {
    &&& board_wf(c)
    &&& full(c)
    &&& legal(c)
    &&& extends(c, b)
}

/// How many of the cells at flattened positions k, k+1, ..., 80 are empty.
pub open spec fn count_empty_from(b: Seq<Seq<u8>>, k: int) -> nat
    decreases 81 - k,
{
    if k < 0 || k >= 81 {
        0
    } else {
        (if b[k / 9][k % 9] == 0 {
            1nat
        } else {
            0nat
        }) + count_empty_from(b, k + 1)
    }
}

/// How many cells of the board are empty.
pub open spec fn count_empty(b: Seq<Seq<u8>>) -> nat {
    count_empty_from(b, 0)
}

/// The digit d occurs at exactly one cell of row r.
pub open spec fn exactly_once_in_row(b: Seq<Seq<u8>>, r: int, d: u8) -> bool {
    &&& exists|j: int| 0 <= j < 9 && #[trigger] b[r][j] == d
    &&& forall|j1: int, j2: int|
        0 <= j1 < 9 && 0 <= j2 < 9 && #[trigger] b[r][j1] == d && #[trigger] b[r][j2] == d ==> j1
            == j2
}

/// The digit d occurs at exactly one cell of column c.
pub open spec fn exactly_once_in_col(b: Seq<Seq<u8>>, c: int, d: u8) -> bool {
    &&& exists|i: int| 0 <= i < 9 && #[trigger] b[i][c] == d
    &&& forall|i1: int, i2: int|
        0 <= i1 < 9 && 0 <= i2 < 9 && #[trigger] b[i1][c] == d && #[trigger] b[i2][c] == d ==> i1
            == i2
}

/// The digit d occurs at exactly one cell of the subgrid at (sr, sc).
pub open spec fn exactly_once_in_subgrid(b: Seq<Seq<u8>>, sr: int, sc: int, d: u8) -> bool {
    &&& exists|i: int, j: int| in_subgrid(sr, sc, i, j) && #[trigger] b[i][j] == d
    &&& forall|i1: int, j1: int, i2: int, j2: int|
        in_subgrid(sr, sc, i1, j1) && in_subgrid(sr, sc, i2, j2) && #[trigger] b[i1][j1] == d
            && #[trigger] b[i2][j2] == d ==> i1 == i2 && j1 == j2
}

/// Filling one empty cell with a digit lowers the empty count of the tail
/// starting at position k by one when the cell lies in that tail.
proof fn lemma_count_empty_from_update(b: Seq<Seq<u8>>, r: int, c: int, v: u8, k: int)
    requires
        board_wf(b),
        0 <= r < 9,
        0 <= c < 9,
        b[r][c] == 0,
        v != 0,
        0 <= k <= 81,
    ensures
        count_empty_from(update_cell(b, r, c, v), k) + (if k <= r * 9 + c {
            1nat
        } else {
            0nat
        }) == count_empty_from(b, k),
    decreases 81 - k,
{
    let b2 = update_cell(b, r, c, v);
    if k < 81 {
        lemma_count_empty_from_update(b, r, c, v, k + 1);
        vstd::arithmetic::div_mod::lemma_fundamental_div_mod(k, 9);
        if k == r * 9 + c {
            assert(k / 9 == r && k % 9 == c) by (nonlinear_arith)
                requires
                    k == r * 9 + c,
                    0 <= c < 9,
                    0 <= r,
            ;
            assert(b2[k / 9][k % 9] == v);
        } else {
            assert(!(k / 9 == r && k % 9 == c));
            assert(b2[k / 9][k % 9] == b[k / 9][k % 9]);
        }
    }
}

/// Filling one empty cell with a digit lowers the board's empty count by one.
pub proof fn lemma_count_empty_update(b: Seq<Seq<u8>>, r: int, c: int, v: u8)
    requires
        board_wf(b),
        0 <= r < 9,
        0 <= c < 9,
        b[r][c] == 0,
        v != 0,
    ensures
        count_empty(update_cell(b, r, c, v)) + 1 == count_empty(b),
{
    lemma_count_empty_from_update(b, r, c, v, 0);
}

/// A placement that the validator accepts keeps a legal board legal.
pub proof fn lemma_place_preserves_legal(b: Seq<Seq<u8>>, r: int, c: int, v: u8)
    requires
        board_wf(b),
        legal(b),
        0 <= r < 9,
        0 <= c < 9,
        b[r][c] == 0,
        can_place(b, r, c, v),
        v != 0,
    ensures
        legal(update_cell(b, r, c, v)),
{
    let b2 = update_cell(b, r, c, v);
    assert forall|r1: int, c1: int, r2: int, c2: int|
        0 <= r1 < 9 && 0 <= c1 < 9 && 0 <= r2 < 9 && 0 <= c2 < 9 implies !(#[trigger] cells_conflict(
        b2,
        r1,
        c1,
        r2,
        c2,
    )) by {
        if cells_conflict(b2, r1, c1, r2, c2) {
            if (r1 == r && c1 == c) || (r2 == r && c2 == c) {
                // One end of the conflict is the new cell; the other end held
                // v already, contradicting the accepted placement.
                let (ro, co) = if r1 == r && c1 == c {
                    (r2, c2)
                } else {
                    (r1, c1)
                };
                assert(b2[ro][co] == v && !(ro == r && co == c));
                assert(b[ro][co] == v);
                if ro == r {
                    assert(value_in_row(b, r, v));
                } else if co == c {
                    assert(value_in_col(b, c, v));
                } else {
                    assert(same_subgrid(ro, co, r, c));
                    assert(value_in_subgrid(b, r, c, v));
                }
            } else {
                assert(cells_conflict(b, r1, c1, r2, c2));
            }
        }
    }
}

/// The digit a completion places on an empty cell is a placement the
/// validator accepts on the board being completed.
pub proof fn lemma_completion_can_place(c: Seq<Seq<u8>>, b: Seq<Seq<u8>>, r: int, cc: int)
    requires
        completion(c, b),
        0 <= r < 9,
        0 <= cc < 9,
        b[r][cc] == 0,
    ensures
        can_place(b, r, cc, c[r][cc]),
{
    let v = c[r][cc];
    assert(v != 0);
    if value_in_row(b, r, v) {
        let j = choose|j: int| 0 <= j < 9 && #[trigger] b[r][j] == v;
        assert(c[r][j] == v);
        assert(cells_conflict(c, r, j, r, cc));
    }
    if value_in_col(b, cc, v) {
        let i = choose|i: int| 0 <= i < 9 && #[trigger] b[i][cc] == v;
        assert(c[i][cc] == v);
        assert(cells_conflict(c, i, cc, r, cc));
    }
    if value_in_subgrid(b, r, cc, v) {
        let (i, j) = choose|i: int, j: int|
            0 <= i < 9 && 0 <= j < 9 && same_subgrid(i, j, r, cc) && #[trigger] b[i][j] == v;
        assert(c[i][j] == v);
        assert(cells_conflict(c, i, j, r, cc));
    }
}

/// b1 is at most b2 in the row-major ordering of boards, read from
/// flattened position k on: at the first cell where they differ, b1 holds
/// the smaller digit.
pub open spec fn row_major_leq(b1: Seq<Seq<u8>>, b2: Seq<Seq<u8>>, k: int) -> bool
    decreases 81 - k,
{
    if k < 0 || k >= 81 {
        true
    } else if b1[k / 9][k % 9] == b2[k / 9][k % 9] {
        row_major_leq(b1, b2, k + 1)
    } else {
        b1[k / 9][k % 9] < b2[k / 9][k % 9]
    }
}

/// Row-major comparison is reflexive.
pub proof fn lemma_row_major_leq_refl(b: Seq<Seq<u8>>, k: int)
    requires
        0 <= k,
    ensures
        row_major_leq(b, b, k),
    decreases 81 - k,
{
    if k < 81 {
        lemma_row_major_leq_refl(b, k + 1);
    }
}

/// A board that agrees with another before position p and is strictly
/// smaller there comes no later in row-major order.
pub proof fn lemma_row_major_lt_at(b1: Seq<Seq<u8>>, b2: Seq<Seq<u8>>, k: int, p: int)
    requires
        0 <= k <= p < 81,
        forall|q: int| k <= q < p ==> #[trigger] b1[q / 9][q % 9] == b2[q / 9][q % 9],
        b1[p / 9][p % 9] < b2[p / 9][p % 9],
    ensures
        row_major_leq(b1, b2, k),
    decreases p - k,
{
    if k < p {
        lemma_row_major_lt_at(b1, b2, k + 1, p);
        assert(b1[k / 9][k % 9] == b2[k / 9][k % 9]);
    }
}

/// Replacing a digit by a digit keeps a board well-formed.
pub proof fn lemma_update_cell_wf(b: Seq<Seq<u8>>, r: int, c: int, v: u8)
    requires
        board_wf(b),
        0 <= r < 9,
        0 <= c < 9,
        v <= 9,
    ensures
        board_wf(update_cell(b, r, c, v)),
{
    let b2 = update_cell(b, r, c, v);
    assert forall|i: int| 0 <= i < 9 implies (#[trigger] b2[i]).len() == 9 by {}
    assert forall|i: int, j: int| 0 <= i < 9 && 0 <= j < 9 implies #[trigger] b2[i][j] <= 9 by {}
}

/// Every cell of b holds the corresponding cell of t, or is empty.
pub open spec fn masked_of(b: Seq<Seq<u8>>, t: Seq<Seq<u8>>) -> bool {
    forall|i: int, j: int|
        0 <= i < 9 && 0 <= j < 9 ==> (#[trigger] b[i][j]) == t[i][j] || b[i][j] == 0
}

/// The ascending list of positions before n at which v occurs in s.
pub open spec fn occurrences_upto(s: Seq<u8>, v: u8, n: int) -> Seq<usize>
    decreases n,
{
    if n <= 0 {
        Seq::empty()
    } else if s[n - 1] == v {
        occurrences_upto(s, v, n - 1).push((n - 1) as usize)
    } else {
        occurrences_upto(s, v, n - 1)
    }
}

/// The ascending list of positions at which v occurs in s.
pub open spec fn occurrences(s: Seq<u8>, v: u8) -> Seq<usize> {
    occurrences_upto(s, v, s.len() as int)
}

/// Cell j of row r holds a nonzero digit that already occurs earlier in the row.
pub open spec fn dup_before_in_row(b: Seq<Seq<u8>>, r: int, j: int) -> bool {
    b[r][j] != 0 && exists|k: int| 0 <= k < j && #[trigger] b[r][k] == b[r][j]
}

/// Row r with every later occurrence of a repeated digit zeroed.
pub open spec fn row_dedup(b: Seq<Seq<u8>>, r: int) -> Seq<Seq<u8>> {
    Seq::new(
        9,
        |i: int|
            Seq::new(
                9,
                |j: int|
                    if i == r && dup_before_in_row(b, r, j) {
                        0u8
                    } else {
                        b[i][j]
                    },
            ),
    )
}

/// Cell (i, c) holds a nonzero digit that already occurs higher in column c.
pub open spec fn dup_before_in_col(b: Seq<Seq<u8>>, c: int, i: int) -> bool {
    b[i][c] != 0 && exists|k: int| 0 <= k < i && #[trigger] b[k][c] == b[i][c]
}

/// Column c with every later occurrence of a repeated digit zeroed.
pub open spec fn col_dedup(b: Seq<Seq<u8>>, c: int) -> Seq<Seq<u8>> {
    Seq::new(
        9,
        |i: int|
            Seq::new(
                9,
                |j: int|
                    if j == c && dup_before_in_col(b, c, i) {
                        0u8
                    } else {
                        b[i][j]
                    },
            ),
    )
}

/// The top-left corner coordinate of the subgrid band containing x.
pub open spec fn subgrid_start(x: int) -> int {
    (x / 3) * 3
}

/// Cell (i, j) lies in the subgrid whose top-left corner is (sr, sc).
pub open spec fn in_subgrid(sr: int, sc: int, i: int, j: int) -> bool {
    sr <= i < sr + 3 && sc <= j < sc + 3
}

/// (i1, j1) comes before (i2, j2) in row-major order.
pub open spec fn before_in_scan(i1: int, j1: int, i2: int, j2: int) -> bool {
    i1 < i2 || (i1 == i2 && j1 < j2)
}

/// Cell (i, j) holds a nonzero digit that already occurs earlier (in
/// row-major order) within the subgrid at (sr, sc).
pub open spec fn dup_before_in_subgrid(b: Seq<Seq<u8>>, sr: int, sc: int, i: int, j: int) -> bool {
    b[i][j] != 0 && exists|i2: int, j2: int|
        in_subgrid(sr, sc, i2, j2) && before_in_scan(i2, j2, i, j) && #[trigger] b[i2][j2]
            == b[i][j]
}

/// The subgrid at (sr, sc) with every later occurrence of a repeated digit zeroed.
pub open spec fn subgrid_dedup(b: Seq<Seq<u8>>, sr: int, sc: int) -> Seq<Seq<u8>> {
    Seq::new(
        9,
        |i: int|
            Seq::new(
                9,
                |j: int|
                    if in_subgrid(sr, sc, i, j) && dup_before_in_subgrid(b, sr, sc, i, j) {
                        0u8
                    } else {
                        b[i][j]
                    },
            ),
    )
}

/// Duplicate removal applied to the first n subgrids in row-major subgrid order.
pub open spec fn subgrid_passes(b: Seq<Seq<u8>>, n: int) -> Seq<Seq<u8>>
    decreases n,
{
    if n <= 0 {
        b
    } else {
        subgrid_dedup(subgrid_passes(b, n - 1), ((n - 1) / 3) * 3, ((n - 1) % 3) * 3)
    }
}

/// Duplicate removal applied to rows 0..n and columns 0..n, taking row i
/// and then column i for each index in turn.
pub open spec fn row_col_passes(b: Seq<Seq<u8>>, n: int) -> Seq<Seq<u8>>
    decreases n,
{
    if n <= 0 {
        b
    } else {
        col_dedup(row_dedup(row_col_passes(b, n - 1), n - 1), n - 1)
    }
}

/// One sweep of duplicate removal over the whole board: all nine subgrids,
/// then rows and columns interleaved by index.
pub open spec fn all_dedup(b: Seq<Seq<u8>>) -> Seq<Seq<u8>> {
    row_col_passes(subgrid_passes(b, 9), 9)
}

} // verus!
