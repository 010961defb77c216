//! The dimensions of the grid.

use vstd::prelude::*;

verus! {

/// A typical 9x9 sudoku grid is sub-divided in 9 squares, of 3x3 cells.
pub const SQUARE_DIMENSION: usize = 3;

/// The entire grid width, or height.
pub const DIMENSION: usize = 9;

/// The number of cells of the grid.
pub const NUMBER_CELLS: usize = 81;

/// The number of groups covering the grid: 9 columns, 9 rows, 9 squares.
pub const NUMBER_GROUPS: usize = 27;

} // verus!
