//! A Sudoku solver: constraint propagation to a fixed point, and a
//! depth-first search over guesses that backtracks to saved states.
//!
//! `cell` holds one square's candidates, `grid` the board and the propagation
//! of a fixed digit to its block, row and column, and `solver` the search.
//! Each solution returned is valid and keeps the hints; `None` is returned
//! exactly when no solution exists.

pub mod bits;
pub mod cell;
pub mod grid;
pub mod observer;
pub mod reader;
pub mod solver;
pub mod writer;
