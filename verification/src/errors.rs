use vstd::prelude::*;

verus! {

/// Why an update of a cell, a group or a whole board was refused.
#[derive(Debug, PartialEq, Eq, PartialOrd, Ord, Clone, Copy, Hash, Structural)]
pub enum UpdateError {
    /// A fixed value occurs twice in a group, or a cell was asked to take a
    /// value that it has already ruled out.
    InvalidConcrete,
    /// A digit outside 1..=9.
    InvalidCellVal,
    /// A row or column number outside 0..=8.
    InvalidIndex,
    /// A second fixed value was offered to a cell that already has one.
    MultipleConcrete,
    /// A search that had no branch to try.
    InitError,
    /// No branch of a search reached a finished board.
    Incomplete,
    /// A cell was left without any candidate.
    Impossible,
}

/// Why a grid could not be turned into a board.
#[derive(Debug, PartialEq, Eq, Clone, Copy, Hash, Structural)]
pub enum BuildError {
    /// The grid does not have nine rows.
    RowCount,
    /// The row with this number does not have nine cells.
    CellCount(usize),
    /// A cell holds a digit outside 1..=9.
    InvalidCellVal,
}

} // verus!
