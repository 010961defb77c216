//! A didactic logical-deduction engine for 9x9 Sudoku.
//!
//! Given a partially filled grid, the engine derives new facts purely by
//! elimination (no guessing or backtracking) and either completes the grid or
//! reports that pure logic is exhausted. It also supports step-by-step
//! interactive use: a caller can manually place a digit, is immediately told
//! about rule conflicts, and can inspect the provenance of every deduction.

pub mod model;
pub mod solver;
