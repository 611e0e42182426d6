//! Engine for a 4x4 sliding-tile merge game.
//!
//! A board holds optional tile ranks (a tile of rank `r` displays as `2^r`)
//! and an accumulated score.  A move slides every tile toward one edge,
//! merges equal adjacent tiles exactly once per pair, scores each merge,
//! and may spawn one new tile; the game is lost when no direction would
//! change the board.

pub mod arrow;
pub mod board;
pub mod line;
mod rng;

pub use arrow::Arrow;
pub use board::Board;
