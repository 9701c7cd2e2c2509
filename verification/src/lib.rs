//! Conway's Game of Life on a fixed-size toroidal grid.
//!
//! The board stores a dense boolean matrix together with an explicit set of
//! live coordinates, kept in lockstep. A generation engine computes the
//! batch of cell changes for the next generation, either by an exhaustive
//! per-cell scan or by a sparse traversal seeded from the live cells; both
//! are proved to produce the same change set.

pub mod board;
pub mod engine;
