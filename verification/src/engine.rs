//! The verified core: board state, move generation and the game state machine.

pub mod arrays;
pub mod bits;
pub mod board;
pub mod game;
pub mod moves;
pub mod types;
