//! Board logic of a two-player battleship game: ships on a fixed grid,
//! shots, ship movement, the recomputation of the occupied cells, and the
//! client-side views and requests built from a board.

pub mod board;
pub mod client;
pub mod fleet;
pub mod laws;
pub mod message;
pub mod placement;
pub mod json;
