//! A multiplayer minesweeper game built on a small entity-component-system
//! core, together with the room, player and rate-limiting logic of its
//! game server.

pub mod platform;
pub mod ecs;
pub mod game;
pub mod server;
pub mod input;
