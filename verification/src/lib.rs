//! A verified simulation engine for a single-player snake game on a
//! toroidal (wrap-around) square grid.
//!
//! `grid` holds the pure coordinate arithmetic: stepping a cell index in a
//! direction with wrap-around at the edges. `world` holds the game state —
//! the snake body, direction, reward cell, score and status — and advances
//! it one tick at a time. Randomness is injected by the caller as plain
//! integer draws; the engine itself has no entropy source.

pub mod grid;
pub mod world;
