//! A verified 9x9 Sudoku solving engine.
//!
//! The library models the fixed board topology (81 squares, 27 units, 20
//! peers per square), parses an 81-cell grid description into per-square
//! candidate sets, narrows those sets by constraint propagation, resolves
//! the remainder by backtracking search, validates the outcome, and renders
//! grids as boxed ASCII text.

pub mod board;
pub mod display;
pub mod engine;
pub mod laws;
pub mod masks;
pub mod text;
pub mod topology;

pub use engine::{PuzzleError, Sudoku, SudokuRequest};
pub use topology::{cross, legos};
