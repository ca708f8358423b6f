//! What can go wrong when building, checking or solving a board.
use vstd::prelude::*;

verus! {

/// One of the 27 groups of nine cells that must hold distinct digits.
#[derive(Copy, Clone, PartialEq, Eq, Structural, Debug)]
pub enum Unit {
    /// A row, 0 at the top.
    Row(usize),
    /// A column, 0 at the left.
    Column(usize),
    /// A 3x3 block, numbered 0..9 in row-major order.
    Block(usize),
}

/// The errors of this library.
#[derive(Copy, Clone, PartialEq, Eq, Structural, Debug)]
pub enum SudokuError {
    /// An input value above 9.
    InvalidValue { row: usize, col: usize, value: usize },
    /// A digit fixed twice in one unit.
    Conflict { unit: Unit, digit: usize },
    /// A cell whose candidates were all excluded.
    NoOptions { row: usize, col: usize },
    /// Every digit tried for the branch cell led to failure.
    AllOptionsFail,
    /// The propagation loop reached its iteration ceiling.
    NotConverged,
    /// The text did not have nine rows.
    RowCount { rows: usize },
    /// A row of the text did not have nine characters.
    RowLength { row: usize, len: usize },
    /// A character other than a digit or a space.
    InvalidChar { ch: char },
}

} // verus!
