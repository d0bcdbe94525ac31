//! The board engine of a Minesweeper game.
//!
//! - `tile`: one cell's state packed into a byte.
//! - `grid`: the model of a board that the contracts speak of, with its
//!   neighbour counts and the region a flood fill reaches.
//! - `board`: the packed grid, mine placement and the flood-fill reveal.
//! - `session`: a game on a board, with its mine counter, clock and outcome.
//! - `display`: sprite-atlas coordinates of cells, face and counters, and
//!   the draw list of a frame.
//! - `input`: what mouse buttons and keys do.

pub mod tile;
pub mod grid;
pub mod board;
pub mod session;
pub mod display;
pub mod input;
mod random;
