//! A 9x9 Sudoku solving library.
//!
//! A grid of 81 cells is modelled with a cell-domain representation: each
//! cell is either collapsed to a definite digit or holds the set of digits
//! still possible at that position.  The solver runs constraint propagation
//! and depth-first backtracking search over whole-grid snapshots.

pub mod cell;
pub mod grid;
pub mod number;
pub mod solver;

pub use cell::NumCell;
pub use cell::UncertainCell;
pub use grid::Grid;
pub use number::Number;
pub use number::ParseNumberError;
pub use solver::Solver;
