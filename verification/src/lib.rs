//! Sudoku grids grown by constraint propagation.
//!
//! A [`cell::Cell`] keeps the digits that are still possible at one position
//! of the grid. A [`board::Board`] holds the 81 cells: fixing a digit at one
//! position takes it from the positions that share its row, its column or its
//! block, and every position that is left with a single digit is propagated
//! in turn. [`generator`] grows a grid by such moves, drawn at random.
//!
//! Contracts speak of the model in [`grid`]: a map from each position, a
//! column and a row, to the set of digits possible there. [`consistency`]
//! holds what moves keep true of it.
pub mod board;
pub mod cell;
pub mod consistency;
pub mod error;
pub mod generator;
pub mod grid;
pub mod random;
pub mod render;
