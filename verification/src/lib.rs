//! Exact-cover tiling puzzles reduced to boolean satisfiability.
//!
//! A puzzle is a collection of polyomino pieces and a rectangular boolean
//! mask; a solution places every piece, rotated (and optionally reflected)
//! and translated, so that the mask's `true` cells are each covered exactly
//! once. The reduction enumerates distinct orientations, generates every
//! legal placement, compiles the placements into CNF clauses, hands the
//! clauses to the `varisat` solver, and decodes a satisfying assignment back
//! into one cell set per placed piece.

pub mod cells;
pub mod cnf;
pub mod engine;
pub mod laws;
pub mod mask;
pub mod piece;
pub mod sat;

pub use cells::Cell;
pub use engine::{solve, ErrorKind};
pub use mask::grid_mask_str2bool;
pub use piece::Piece;
