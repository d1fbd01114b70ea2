//! Pure placement checks: does a candidate digit violate the row, column,
//! or subgrid constraint at a coordinate?

use vstd::prelude::*;

use crate::model::{board_wf, can_place, grid, lemma_grid_dims, same_subgrid, value_in_col,
    value_in_row, value_in_subgrid};
use crate::{Board, Coords};

verus! {

/// Which constraint families a rejected placement violates; one variant per
/// combination of failing checks.
#[derive(Debug, Clone, Copy, PartialEq, Eq, Structural)]
pub enum ValidityError {
    InvalidSubgrid,
    InvalidColumn,
    InvalidColumnAndSubgrid,
    InvalidRow,
    InvalidRowAndSubgrid,
    InvalidRowAndColumn,
    InvalidRowColumnAndSubgrid,
}

/// True iff `value` does not already occur anywhere in the row of `coords`.
pub fn is_row_valid(board: &Board, coords: Coords, value: u8) -> (r: bool)
    requires
        board_wf(grid(*board)),
        coords.0 < 9,
    ensures
        r <==> !value_in_row(grid(*board), coords.0 as int, value),
{
    proof {
        lemma_grid_dims(*board);
    }
    let row = coords.0;
    let mut j: usize = 0;
    while j < 9
        invariant
            board_wf(grid(*board)),
            row < 9,
            j <= 9,
            forall|k: int| 0 <= k < j ==> #[trigger] grid(*board)[row as int][k] != value,
        decreases 9 - j,
    {
        if board[row][j] == value {
            assert(grid(*board)[row as int][j as int] == value);
            return false;
        }
        j += 1;
    }
    true
}

/// True iff `value` does not already occur anywhere in the column of `coords`.
pub fn is_col_valid(board: &Board, coords: Coords, value: u8) -> (r: bool)
    requires
        board_wf(grid(*board)),
        coords.1 < 9,
    ensures
        r <==> !value_in_col(grid(*board), coords.1 as int, value),
{
    proof {
        lemma_grid_dims(*board);
    }
    let col = coords.1;
    let mut i: usize = 0;
    while i < 9
        invariant
            board_wf(grid(*board)),
            col < 9,
            i <= 9,
            forall|k: int| 0 <= k < i ==> #[trigger] grid(*board)[k][col as int] != value,
        decreases 9 - i,
    {
        if board[i][col] == value {
            assert(grid(*board)[i as int][col as int] == value);
            return false;
        }
        i += 1;
    }
    true
}

/// True iff `value` does not already occur in the 3x3 subgrid containing
/// `coords`.
pub fn is_subgrid_valid(board: &Board, coords: Coords, value: u8) -> (r: bool)
    requires
        board_wf(grid(*board)),
        coords.0 < 9,
        coords.1 < 9,
    ensures
        r <==> !value_in_subgrid(grid(*board), coords.0 as int, coords.1 as int, value),
{
    proof {
        lemma_grid_dims(*board);
    }
    let row_start = (coords.0 / 3) * 3;
    let col_start = (coords.1 / 3) * 3;
    let mut i: usize = row_start;
    while i < row_start + 3
        invariant
            board_wf(grid(*board)),
            coords.0 < 9,
            coords.1 < 9,
            row_start == (coords.0 / 3) * 3,
            col_start == (coords.1 / 3) * 3,
            row_start <= i <= row_start + 3,
            forall|a: int, b: int|
                row_start <= a < i && col_start <= b < col_start + 3
                    ==> #[trigger] grid(*board)[a][b] != value,
        decreases row_start + 3 - i,
    {
        let mut j: usize = col_start;
        while j < col_start + 3
            invariant
                board_wf(grid(*board)),
                coords.0 < 9,
                coords.1 < 9,
                row_start == (coords.0 / 3) * 3,
                col_start == (coords.1 / 3) * 3,
                row_start <= i < row_start + 3,
                col_start <= j <= col_start + 3,
                forall|a: int, b: int|
                    row_start <= a < i && col_start <= b < col_start + 3
                        ==> #[trigger] grid(*board)[a][b] != value,
                forall|b: int|
                    col_start <= b < j ==> #[trigger] grid(*board)[i as int][b] != value,
            decreases col_start + 3 - j,
        {
            if board[i][j] == value {
                assert(same_subgrid(i as int, j as int, coords.0 as int, coords.1 as int));
                assert(grid(*board)[i as int][j as int] == value);
                return false;
            }
            j += 1;
        }
        i += 1;
    }
    assert forall|a: int, b: int|
        0 <= a < 9 && 0 <= b < 9 && same_subgrid(a, b, coords.0 as int, coords.1 as int)
            implies #[trigger] grid(*board)[a][b] != value by {
        assert(row_start <= a < row_start + 3 && col_start <= b < col_start + 3);
    }
    true
}

/// Checks a placement against all three constraint families and reports
/// which of them it violates; `Ok` means the placement keeps the board legal.
pub fn is_valid(board: &Board, coords: Coords, value: u8) -> (r: Result<(), ValidityError>)
    requires
        board_wf(grid(*board)),
        coords.0 < 9,
        coords.1 < 9,
    ensures
        r is Ok <==> can_place(grid(*board), coords.0 as int, coords.1 as int, value),
        r == (match (
            !value_in_row(grid(*board), coords.0 as int, value),
            !value_in_col(grid(*board), coords.1 as int, value),
            !value_in_subgrid(grid(*board), coords.0 as int, coords.1 as int, value),
        ) {
            (true, true, true) => Result::<(), ValidityError>::Ok(()),
            (true, true, false) => Result::<(), ValidityError>::Err(ValidityError::InvalidSubgrid),
            (true, false, true) => Result::<(), ValidityError>::Err(ValidityError::InvalidColumn),
            (true, false, false) => Result::<(), ValidityError>::Err(
                ValidityError::InvalidColumnAndSubgrid,
            ),
            (false, true, true) => Result::<(), ValidityError>::Err(ValidityError::InvalidRow),
            (false, true, false) => Result::<(), ValidityError>::Err(
                ValidityError::InvalidRowAndSubgrid,
            ),
            (false, false, true) => Result::<(), ValidityError>::Err(
                ValidityError::InvalidRowAndColumn,
            ),
            (false, false, false) => Result::<(), ValidityError>::Err(
                ValidityError::InvalidRowColumnAndSubgrid,
            ),
        }),
{
    let valid_row = is_row_valid(board, coords, value);
    let valid_col = is_col_valid(board, coords, value);
    let valid_sub = is_subgrid_valid(board, coords, value);

    match (valid_row, valid_col, valid_sub) {
        (true, true, true) => Ok(()),
        (true, true, false) => Err(ValidityError::InvalidSubgrid),
        (true, false, true) => Err(ValidityError::InvalidColumn),
        (true, false, false) => Err(ValidityError::InvalidColumnAndSubgrid),
        (false, true, true) => Err(ValidityError::InvalidRow),
        (false, true, false) => Err(ValidityError::InvalidRowAndSubgrid),
        (false, false, true) => Err(ValidityError::InvalidRowAndColumn),
        (false, false, false) => Err(ValidityError::InvalidRowColumnAndSubgrid),
    }
}

} // verus!
