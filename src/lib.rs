//! A Sudoku solver: candidate sets held as bit masks, a 9x9 board of fixed
//! digits and candidate sets, constraint propagation and backtracking search.
pub mod bitset;
pub mod board;
pub mod error;
pub mod parse;
pub mod rules;
pub mod solver;
pub mod views;

pub use bitset::{BitSet, Biterator};
pub use board::Board;
pub use error::{SudokuError, Unit};
pub use rules::Cell;
pub use views::{CellLine, Column, Row, SubSquare};
