//! Constraint propagation for a 9x9 Sudoku grid.
//!
//! A [`field::Field`] holds the candidates that are still possible at one
//! position, a [`board::Board`] holds the 81 fields and reads the textual
//! puzzle format, and a [`solver::Solver`] is a deduction rule that narrows the
//! board.  Every function carries a contract over the mathematical model of
//! the grid, a sequence of 81 [`field::Cell`]s in reading order.

pub mod error;
pub mod field;
pub mod text;
pub mod board;
pub mod solver;
