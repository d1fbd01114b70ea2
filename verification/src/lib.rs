//! Generation, validation, and solving of 9x9 Sudoku boards.
//!
//! A board is a 9x9 row-major grid of digits 0 through 9, where 0 marks an
//! empty cell. The validator answers whether a placement keeps the board
//! legal, the solver fills every empty cell by backtracking search, and the
//! generator masks a solved board into a puzzle, with helpers that strip
//! duplicate digits from a row, column, or subgrid.

#![verifier::loop_isolation(false)]

use vstd::prelude::*;

pub mod generator;
pub mod iter;
pub mod model;
pub mod sampling;
pub mod settings;
pub mod solver;
pub mod validator;

verus! {

/// Side length of the whole grid: 9 cells per row, column, and subgrid.
pub const DIM_SIZE: usize = 9;

/// Side length of one subgrid.
pub const SUBG: usize = 3;

/// A 9x9 grid of digits, row-major; 0 marks an empty cell.
pub type Board = Vec<Vec<u8>>;

/// A (row, column) pair, both 0-indexed.
pub type Coords = (usize, usize);

} // verus!
