//! Exhaustive search engine for Soma-cube-style packing puzzles: generation
//! of every distinct rotational orientation of a polycube piece, precomputed
//! placement footprints as 64-bit occupancy masks over a 4x4x4 grid, and a
//! pruned backtracking search, with an optional corner-first heuristic, that
//! enumerates every non-overlapping arrangement covering the grid.

use vstd::prelude::*;

pub mod bitset;
pub mod board;
pub mod coord;
pub mod minmax;
pub mod orientation;
pub mod piece;
pub mod solver;

verus! {

/// Edge length of the cubic grid. Its cube (64 cells) exactly fills the
/// 64-bit occupancy word, a hard structural constraint of the bitmask layout.
pub const SIZE: usize = 4;

} // verus!
