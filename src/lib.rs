//! A concurrent point-density histogram for chaos-game fractals: 8-bit
//! saturating counters on a grid, filled by a dense grid, by workers that own
//! runs of shards, or by workers with private sparse grids merged at the end,
//! all proved to give the same counters.

pub mod counter;
pub mod model;
pub mod grid;
pub mod sharded;
pub mod merge;
pub mod laws;
pub mod random;
pub mod fractal;
pub mod sparse;
pub mod engine;
