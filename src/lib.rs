//! Rules engine and turn-state machine for a two-player Battleship match.

pub mod direction;
pub mod error;
pub mod game;
pub mod player;
pub mod rng;
pub mod settings;
pub mod ship;
pub mod space;
