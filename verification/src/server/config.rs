//! Server configuration and the kinds of games it hosts.

use vstd::prelude::*;

verus! {

/// Server settings.
#[derive(Debug, Clone)]
pub struct ServerConfig {
    /// Address of the HTTP server.
    pub http_bind_addr: String,
    /// Address of the WebSocket server.
    pub ws_bind_addr: String,
    /// Directory of the static files.
    pub static_dir: String,
    /// Most rooms at once.
    pub max_rooms: usize,
    /// Seconds before an idle room is closed.
    pub room_timeout_secs: u64,
    /// Seconds before an idle player is dropped.
    pub player_timeout_secs: u64,
    /// Most players per room.
    pub max_players_per_room: u8,
    /// Seconds between pings.
    pub ping_interval_secs: u64,
}

impl Default for ServerConfig {
    /// Local addresses, `./www`, a thousand rooms, an hour for rooms, five
    /// minutes for players, eight players per room, a ping every half
    /// minute.
    fn default() -> (r: ServerConfig)
        ensures
            r.http_bind_addr@ == "127.0.0.1:8001"@,
            r.ws_bind_addr@ == "127.0.0.1:8101"@,
            r.static_dir@ == "./www"@,
            r.max_rooms == 1000,
            r.room_timeout_secs == 3600,
            r.player_timeout_secs == 300,
            r.max_players_per_room == 8,
            r.ping_interval_secs == 30,
    {
        ServerConfig {
            http_bind_addr: String::from_str("127.0.0.1:8001"),
            ws_bind_addr: String::from_str("127.0.0.1:8101"),
            static_dir: String::from_str("./www"),
            max_rooms: 1000,
            room_timeout_secs: 3600,
            player_timeout_secs: 300,
            max_players_per_room: 8,
            ping_interval_secs: 30,
        }
    }
}

/// Kind of game a room plays.
#[derive(Debug, Clone, PartialEq, Eq)]
pub enum GameType {
    /// The built-in game.
    Generic,
    /// A game type known by name.
    Custom(String),
}

impl Default for GameType {
    fn default() -> (r: GameType)
        ensures
            r is Generic,
    {
        GameType::Generic
    }
}

/// How players relate to each other.
#[derive(Debug, Clone, PartialEq, Eq, Structural)]
pub enum GameMode {
    Cooperative,
    Competitive,
    Team,
}

impl Default for GameMode {
    fn default() -> (r: GameMode)
        ensures
            r == GameMode::Cooperative,
    {
        GameMode::Cooperative
    }
}

} // verus!
