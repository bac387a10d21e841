//! A 9×9 Sudoku kernel: a validator that finds digits assigned twice in a
//! row, column or box, and a backtracking search that completes a board.

pub mod cell;
pub mod rules;
pub mod solver;

pub use cell::{Cell, Conflict, InvalidInput};
pub use solver::SudokuSolver;
