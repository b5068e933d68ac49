//! The game server's logic: configuration, helpers, games, players and
//! rooms.

pub mod config;
pub mod utils;
pub mod room;
pub mod lobby;
pub mod session;
pub mod player;
pub mod game;
pub mod minesweeper;
