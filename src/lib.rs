//! A 9x9 Sudoku board model and a backtracking solver whose search state is
//! explicit: the board, the stack of filled positions, and for each depth the
//! offset of the candidate in use.
pub mod board;
pub mod digit;
pub mod render;
pub mod solver;
