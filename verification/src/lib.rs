//! A Sudoku engine: candidate sets per cell, per-group elimination driven to a
//! fixpoint, and a backtracking search that branches only where elimination
//! alone cannot finish the grid.
//!
//! The executable code stands in `new_types`, `possible_cells`, `cell`,
//! `board`, `cell_set` and `solve`. What it computes is said over
//! mathematical values in `model` (boards and grids), `closure` (elimination
//! in one row, column or house), `fixpoint` (elimination over the whole
//! board) and `branch` (the search), together with the laws that hold of
//! it: elimination ends with the greatest refinement of the board in which
//! nothing is left to eliminate, and the search ends with a solution of the
//! board exactly if the board has one.

pub mod board;
pub mod branch;
pub mod cell;
pub mod cell_set;
pub mod closure;
pub mod errors;
pub mod fixpoint;
pub mod model;
pub mod new_types;
pub mod possible_cells;
pub mod solve;

pub use board::{Board, CellPos};
pub use cell::{Cell, CellView};
pub use cell_set::{CellSet, ConcreteSet, Group, PossibleSet, UpdateSets};
pub use errors::{BuildError, UpdateError};
pub use new_types::{CellVal, Index};
pub use possible_cells::PossibleCells;
pub use solve::{solve, BoardState, SolveError};
