//! Server-side players and their sessions.

use vstd::prelude::*;
use std::time::{Duration, Instant};
use crate::platform::{
    duration_between, duration_from_secs, instant_now, new_uuid_string, random_u8_in, secs_duration,
    time_between, uuid_text,
};
use crate::server::utils::current_timestamp;

verus! {

/// Identifies a player: the text of a random UUID, or any text a client
/// sent.
#[derive(Debug, Clone, PartialEq, Eq, Hash)]
pub struct PlayerId(pub String);

impl PlayerId {
    /// A fresh random identifier: the hyphenated text of a random
    /// version-4 UUID.
    pub fn new() -> (r: PlayerId)
        ensures
            r.0@.len() == 36,
            exists|n: u128| r.0@ == uuid_text(n) && (n >> 76u128) & 0xfu128 == 4 && (n >> 62u128) & 0x3u128 == 2,
    {
        PlayerId(new_uuid_string())
    }

    /// The identifier with text `s`.
    pub fn from_string(s: &str) -> (r: PlayerId)
        ensures
            r.0@ == s@,
    {
        PlayerId(String::from_str(s))
    }

    /// The identifier's text.
    pub fn to_string(&self) -> (r: String)
        ensures
            r@ == self.0@,
    {
        self.0.clone()
    }
}

/// How a player is connected.
#[derive(Debug, Clone, PartialEq, Eq, Structural)]
pub enum ConnectionState {
    Connected,
    /// Since when, in seconds since the Unix epoch.
    Disconnected { since: u64 },
    Reconnecting,
}

/// A player known to the server.
#[derive(Debug, Clone)]
pub struct Player {
    pub id: PlayerId,
    pub name: String,
    /// RGBA.
    pub color: [u8; 4],
    pub score: i32,
    pub is_host: bool,
    pub is_ready: bool,
    pub connection_state: ConnectionState,
    /// Seconds since the Unix epoch.
    pub last_activity: u64,
    pub client_addr: Option<String>,
}

impl Player {
    /// A connected player with a fresh identifier, no points and a random
    /// opaque colour.
    pub fn new(name: String) -> (r: Player)
        ensures
            r.name == name,
            r.id.0@.len() == 36,
            r.score == 0,
            !r.is_host,
            !r.is_ready,
            r.connection_state == ConnectionState::Connected,
            r.client_addr is None,
            r.color[3] == 255,
            forall|k: int| 0 <= k < 3 ==> 20 <= #[trigger] r.color[k] < 220,
    {
        let red = random_u8_in(20, 220);
        let green = random_u8_in(20, 220);
        let blue = random_u8_in(20, 220);
        Player {
            id: PlayerId::new(),
            name,
            color: [red, green, blue, 255],
            score: 0,
            is_host: false,
            is_ready: false,
            connection_state: ConnectionState::Connected,
            last_activity: current_timestamp(),
            client_addr: None,
        }
    }

    /// This player once it (dis)connected at `now`: the activity stamp is
    /// `now`, and a disconnection remembers since when.
    pub open spec fn connection_updated(self, connected: bool, now: u64) -> Player {
        Player {
            last_activity: now,
            connection_state: if connected {
                ConnectionState::Connected
            } else {
                ConnectionState::Disconnected { since: now }
            },
            ..self
        }
    }

    /// Records, at `now` (seconds since the epoch), that the player
    /// connected or disconnected.
    pub fn update_connection_at(&mut self, connected: bool, now: u64)
        ensures
            *final(self) == old(self).connection_updated(connected, now),
    {
        self.last_activity = now;
        if connected {
            self.connection_state = ConnectionState::Connected;
        } else {
            self.connection_state = ConnectionState::Disconnected { since: now };
        }
    }

    /// Records, now, that the player connected or disconnected.
    pub fn update_connection(&mut self, connected: bool)
        ensures
            exists|now: u64| *final(self) == #[trigger] old(self).connection_updated(connected, now),
    {
        let now = current_timestamp();
        self.update_connection_at(connected, now);
    }

    /// Whether the player is connected.
    pub fn is_connected(&self) -> (r: bool)
        ensures
            r == (self.connection_state == ConnectionState::Connected),
    {
        match self.connection_state {
            ConnectionState::Connected => true,
            _ => false,
        }
    }

    /// Clears the score and readiness for a new game.
    pub fn reset_for_new_game(&mut self)
        ensures
            *final(self) == (Player { score: 0, is_ready: false, ..*old(self) }),
    {
        self.score = 0;
        self.is_ready = false;
    }

    /// Whole seconds idle at `now` (zero if the activity lies later).
    pub fn inactivity_secs_at(&self, now: u64) -> (r: u64)
        ensures
            r == (if now >= self.last_activity {
                (now - self.last_activity) as u64
            } else {
                0
            }),
    {
        now.saturating_sub(self.last_activity)
    }

    /// How long the player has been idle.
    pub fn inactivity_duration(&self) -> (r: Duration)
        ensures
            exists|now: u64| r == secs_duration(#[trigger] self.inactivity_secs_spec(now)),
    {
        let now = current_timestamp();
        let secs = self.inactivity_secs_at(now);
        assert(secs == self.inactivity_secs_spec(now));
        duration_from_secs(secs)
    }

    /// Whole seconds idle at `now`.
    pub open spec fn inactivity_secs_spec(self, now: u64) -> u64 {
        if now >= self.last_activity {
            (now - self.last_activity) as u64
        } else {
            0
        }
    }
}

/// A client's connection to the server.
#[derive(Debug)]
pub struct PlayerSession {
    pub player_id: PlayerId,
    /// The room the player is in.
    pub current_room: Option<String>,
    pub client_addr: String,
    pub created_at: Instant,
    pub last_activity: Instant,
}

impl PlayerSession {
    /// A session just opened, in no room.
    pub fn new(player_id: PlayerId, client_addr: String) -> (r: PlayerSession)
        ensures
            r.player_id == player_id,
            r.client_addr == client_addr,
            r.current_room is None,
            r.created_at == r.last_activity,
    {
        let now = instant_now();
        PlayerSession { player_id, current_room: None, client_addr, created_at: now, last_activity: now }
    }

    /// Stamps the session as active now.
    pub fn update_activity(&mut self)
        ensures
            final(self).player_id == old(self).player_id,
            final(self).current_room == old(self).current_room,
            final(self).client_addr == old(self).client_addr,
            final(self).created_at == old(self).created_at,
    {
        self.last_activity = instant_now();
    }

    /// How long since the last activity, judged by the clock now.
    pub fn inactivity_duration(&self) -> (r: Duration)
        ensures
            exists|now: Instant| r == #[trigger] time_between(now, self.last_activity),
    {
        duration_between(&instant_now(), &self.last_activity)
    }
}

} // verus!
