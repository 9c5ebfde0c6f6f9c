//! A move-selection engine for the 2048 sliding-tile puzzle.
//!
//! The board is a 4x4 grid of tiles; the engine scores positions with a static
//! heuristic and picks a move by alpha-beta search over player moves and tile
//! spawns. Scores are exact fixed-point integers (see `heuristic`).
pub mod grid;
pub mod heuristic;
pub mod search;

pub use grid::{Direction, Grid};
pub use search::BoardEval;
