//! Generation and solving of 9x9 Sudoku puzzles, with machine-checked contracts.
//!
//! A grid is a row-major array of 81 cells; `0` marks an empty cell and `1..=9`
//! are digits. The modules follow the dependency order of the design:
//! [`utils`] holds the rules of the game, [`search`] the model of the search
//! tree, [`solver`] the backtracking search itself, [`generator`] the
//! construction of new puzzles, and [`Puzzle`] bundles a generated puzzle with
//! the player's working copy. [`theorems`] states and proves what the search
//! finds: exactly the ways to complete a grid, each of them once.

pub mod generator;
pub mod puzzle;
mod random;
pub mod search;
pub mod solver;
pub mod theorems;
pub mod utils;

pub use puzzle::Puzzle;
