//! A verified 9x9 Sudoku solver.
//!
//! The solver runs two phases over a 9x9 grid of cells: a single
//! constraint-propagation sweep that prunes each unsolved cell's candidate
//! digits and commits forced solutions, followed by a backtracking search
//! that assigns one of the remaining candidates to every unsolved cell.
//! Every returned solved grid provably satisfies the Sudoku uniqueness
//! constraints and keeps every pre-filled cell intact, and the solver is
//! provably total: it returns a grid exactly when the pre-filled cells are
//! consistent and some completion of them exists.

pub mod units;
pub mod cell;
pub mod grid;
pub mod engine;

pub use cell::Cell;
pub use grid::{Block, Board, make_blocks};
pub use engine::Sudoku;
pub use units::block_index;
