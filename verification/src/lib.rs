//! A Tetris game engine: the board of cells, the falling piece and the rules
//! that move, rotate, drop and clear it, with the command handling of a game
//! session.

pub mod board;
pub mod grid;
pub mod tetris;
pub mod search;
pub mod motion;
pub mod rotation;
pub mod placement;
mod random;
pub mod webtetris;
pub mod laws;
pub mod framing;
pub mod rooms;
pub mod driver;
pub mod stacking;
pub mod guarantees;
