//! Conway's Game of Life on a toroidal grid, with a sparse set of live cells.

pub mod topology;
pub mod board;
pub mod laws;
