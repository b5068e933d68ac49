pub mod minesweeper;
pub mod resources;
pub mod room;
pub mod state;
