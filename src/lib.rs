//! An automatic Minesweeper player: a hidden mine field, the player's view of
//! it, and a solver that propagates per-neighbour mine estimates over a
//! frontier of partially known cells.

pub mod board;
pub mod count;
pub mod decide;
pub mod engine;
pub mod field;
pub mod frontier;
pub mod grid;
pub mod knowledge;
pub mod laws;
pub mod propagate;
