//! A solver for standard 9x9 Sudoku puzzles.
//!
//! The grid is narrowed by constraint propagation (each cell keeps the set of
//! digits that no assigned neighbour blocks) and completed by a backtracking
//! search that always guesses on the blank cell with the fewest candidates.

pub mod constants;
pub mod model;
pub mod board;
pub mod wave_function_solver;
pub mod grid_theorems;
pub mod search_theorems;
