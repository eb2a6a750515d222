//! A 9x9 Sudoku solving engine.
//!
//! A board is a 9x9 grid of cells; each cell either holds a fixed digit in
//! `1..=9` or a set of candidate digits that are still possible for it.
//! The engine keeps candidate sets consistent with the fixed digits,
//! cascades single-candidate resolutions, applies per-group elimination
//! strategies, and falls back to a backtracking search when propagation
//! stalls. Rendering and input handling are left to a front end.

pub mod board;
pub mod cell;
pub mod counting;
pub mod geometry;
pub mod laws;
pub mod propagate;
pub mod solver;
pub mod strategies;

pub use board::Board;
pub use board::GroupKind;
pub use cell::BoardItem;
pub use solver::SolveOutcome;
