//! A Sudoku solving engine: constraint propagation over candidate sets
//! combined with a minimum-remaining-values backtracking search.

pub mod coord;
pub mod digits;
pub mod cell;
pub mod board;
pub mod propagate;
pub mod field;
pub mod search;
pub mod parse;
pub mod render;
pub mod laws;

pub use crate::cell::Cell;
pub use crate::field::SudokuField;
pub use crate::parse::{parse_from_str, parse_grid, ParseError};
pub use crate::search::{search, solve};
