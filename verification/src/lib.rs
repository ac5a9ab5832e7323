//! Generation and solving of variable-size Sudoku puzzles.
//!
//! A puzzle lives on a `side x side` grid tiled by rectangular boxes of
//! `height` rows and `width` columns, where `side = height * width`.
//! Cell values range over `1..=side`, with `0` marking an empty cell.

pub mod board;
pub mod conflict_map;
pub mod existence;
pub mod generator;
pub mod solver;
pub mod uniqueness;
pub mod validity;

pub use board::Board;
