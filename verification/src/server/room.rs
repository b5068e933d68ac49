//! Server-side rooms: who is in which room, who hosts it, the running
//! game's state, and the messages each change broadcasts. Delivering the
//! messages is left to the caller: a room records each broadcast, with
//! its recipients, in an outbox.

use vstd::prelude::*;
use std::time::{Duration, Instant};
use serde_json::Value;
use crate::platform::{
    duration_between, duration_longer, instant_now, longer_than, new_uuid_string, random_index, time_between,
};
use crate::server::utils::{
    find_param, insert_param, keys_distinct, lemma_pairs_map_remove, lemma_pairs_map_value, pairs_map,
};

verus! {

/// Where a room is in its life.
#[derive(Debug, Clone, Copy, PartialEq, Eq, Structural)]
pub enum RoomState {
    Waiting,
    Playing,
    Finished,
}

/// Public description of a room.
#[derive(Debug, Clone)]
pub struct RoomInfo {
    pub id: String,
    pub name: String,
    pub owner_id: String,
    pub max_players: usize,
    pub player_count: usize,
    pub is_public: bool,
    pub state: RoomState,
    pub game_type: String,
    pub created_at: u64,
}

/// A member of a room.
#[derive(Debug, Clone)]
pub struct Player {
    pub id: String,
    pub name: String,
}

/// What a room tells its members.
#[derive(Debug, Clone)]
pub enum RoomEvent {
    PlayerJoined { player: Player },
    PlayerLeft { player_id: String },
    HostChanged { host_id: String },
    GameStarted { state: Value },
    GameStateUpdate { state: Value },
    GameActionResult { player_id: String, result: Value },
    GameEnded { winner_ids: Option<Vec<String>>, final_state: Value },
    Chat { player_id: String, player_name: String, message: String },
}

/// A message waiting to be delivered to the players listed in `to`.
#[derive(Debug, Clone)]
pub struct Delivery {
    pub to: Vec<String>,
    pub event: RoomEvent,
}

/// The characters of a room code: capital letters and digits, without
/// I, O, 0 and 1.
pub open spec fn room_code_chars() -> Seq<char> {
    seq![
        'A', 'B', 'C', 'D', 'E', 'F', 'G', 'H', 'J', 'K', 'L', 'M', 'N', 'P', 'Q', 'R',
        'S', 'T', 'U', 'V', 'W', 'X', 'Y', 'Z', '2', '3', '4', '5', '6', '7', '8', '9',
    ]
}

/// `players` has a member with id `id`.
pub open spec fn has_member(players: Seq<Player>, id: Seq<char>) -> bool {
    exists|i: int| 0 <= i < players.len() && (#[trigger] players[i]).id@ == id
}

/// No two members share an id.
pub open spec fn member_ids_distinct(players: Seq<Player>) -> bool {
    forall|i: int, j: int|
        0 <= i < players.len() && 0 <= j < players.len() && i != j ==> (#[trigger] players[i]).id@
            != (#[trigger] players[j]).id@
}

/// No string occurs twice.
pub open spec fn strings_distinct(s: Seq<String>) -> bool {
    forall|i: int, j: int|
        0 <= i < s.len() && 0 <= j < s.len() && i != j ==> (#[trigger] s[i])@ != (#[trigger] s[j])@
}

/// `s` holds the text `t`.
pub open spec fn holds_text(s: Seq<String>, t: Seq<char>) -> bool {
    exists|i: int| 0 <= i < s.len() && (#[trigger] s[i])@ == t
}

/// The seat of member `id` in `players`, where there is one.
pub fn member_index(players: &Vec<Player>, id: &String) -> (r: Option<usize>)
    ensures
        r is None <==> !has_member(players@, id@),
        r matches Some(i) ==> i < players@.len() && players@[i as int].id@ == id@ && forall|j: int|
            0 <= j < i ==> (#[trigger] players@[j]).id@ != id@,
{
    let mut i: usize = 0;
    while i < players.len()
        invariant
            i <= players@.len(),
            forall|j: int| 0 <= j < i ==> (#[trigger] players@[j]).id@ != id@,
        decreases players@.len() - i,
    {
        if players[i].id == *id {
            return Some(i);
        }
        i = i + 1;
    }
    None
}

/// Where `t` sits in `v`, if it does.
pub fn text_index(v: &Vec<String>, t: &String) -> (r: Option<usize>)
    ensures
        r is None <==> !holds_text(v@, t@),
        r matches Some(i) ==> i < v@.len() && v@[i as int]@ == t@,
{
    let mut i: usize = 0;
    while i < v.len()
        invariant
            i <= v@.len(),
            forall|j: int| 0 <= j < i ==> (#[trigger] v@[j])@ != t@,
        decreases v@.len() - i,
    {
        if v[i] == *t {
            return Some(i);
        }
        i = i + 1;
    }
    None
}


/// The seat of member `id`, where there is one.
pub open spec fn member_seat(players: Seq<Player>, id: Seq<char>) -> int {
    choose|i: int| 0 <= i < players.len() && (#[trigger] players[i]).id@ == id
}

/// With distinct ids, a seat holding `id` is the seat of `id`.
pub proof fn lemma_member_seat(players: Seq<Player>, id: Seq<char>, i: int)
    requires
        member_ids_distinct(players),
        0 <= i < players.len(),
        players[i].id@ == id,
    ensures
        member_seat(players, id) == i,
{
    let k = member_seat(players, id);
    assert(0 <= k < players.len() && players[k].id@ == id);
}

/// `players` after `p` joins: a member with the same id is replaced in
/// place, otherwise `p` takes the last seat.
pub open spec fn with_member(players: Seq<Player>, p: Player) -> Seq<Player> {
    if has_member(players, p.id@) {
        players.update(member_seat(players, p.id@), p)
    } else {
        players.push(p)
    }
}

/// `players` after member `id` leaves.
pub open spec fn without(players: Seq<Player>, id: Seq<char>) -> Seq<Player> {
    if has_member(players, id) {
        players.remove(member_seat(players, id))
    } else {
        players
    }
}

/// `s` with the text `t` added if missing.
pub open spec fn with_text(s: Seq<String>, t: String) -> Seq<String> {
    if holds_text(s, t@) {
        s
    } else {
        s.push(t)
    }
}

/// The seat of text `t`, where there is one.
pub open spec fn text_seat(s: Seq<String>, t: Seq<char>) -> int {
    choose|i: int| 0 <= i < s.len() && (#[trigger] s[i])@ == t
}

/// `s` without the text `t`.
pub open spec fn without_text(s: Seq<String>, t: Seq<char>) -> Seq<String> {
    if holds_text(s, t) {
        s.remove(text_seat(s, t))
    } else {
        s
    }
}

/// `after` is the outbox `before` with `event` queued for `to`.
pub open spec fn delivered(before: Seq<Delivery>, after: Seq<Delivery>, to: Seq<String>, event: RoomEvent) -> bool {
    &&& after.len() == before.len() + 1
    &&& after.take(before.len() as int) == before
    &&& after.last().to@ == to
    &&& after.last().event == event
}

/// A room of the server.
#[derive(Debug, Clone)]
pub struct Room {
    /// Internal identifier.
    pub id: String,
    /// Public join code.
    pub code: String,
    pub game_type: String,
    pub settings: Value,
    pub host_id: String,
    /// Members, in the order they joined.
    pub players: Vec<Player>,
    /// Members with a delivery channel: the ones broadcasts reach.
    pub connected: Vec<String>,
    pub game_state: Option<Value>,
    pub game_in_progress: bool,
    pub last_updated: Instant,
    /// Messages waiting for delivery.
    pub outbox: Vec<Delivery>,
}

/// Public description of a room, for room lists.
#[derive(Debug, Clone)]
pub struct RoomSummary {
    pub code: String,
    pub game_type: String,
    pub player_count: usize,
    pub in_progress: bool,
}

/// A random six-character room code drawn from `room_code_chars()`.
pub fn generate_room_code() -> (code: String)
    ensures
        code@.len() == 6,
        forall|i: int| 0 <= i < code@.len() ==> room_code_chars().contains(#[trigger] code@[i]),
{
    let chars: Vec<char> = vec![
        'A', 'B', 'C', 'D', 'E', 'F', 'G', 'H', 'J', 'K', 'L', 'M', 'N', 'P', 'Q', 'R',
        'S', 'T', 'U', 'V', 'W', 'X', 'Y', 'Z', '2', '3', '4', '5', '6', '7', '8', '9',
    ];
    assert(chars@ == room_code_chars());
    let mut code = String::new();
    let mut i: usize = 0;
    while i < 6
        invariant
            i <= 6,
            chars@ == room_code_chars(),
            code@.len() == i,
            forall|k: int| 0 <= k < code@.len() ==> room_code_chars().contains(#[trigger] code@[k]),
        decreases 6 - i,
    {
        let idx = random_index(chars.len());
        let c = chars[idx];
        let ghost before = code@;
        crate::platform::push_char(&mut code, c);
        assert forall|k: int| 0 <= k < code@.len() implies room_code_chars().contains(#[trigger] code@[k]) by {
            if k < before.len() {
                assert(code@[k] == before[k]);
            } else {
                assert(chars@[idx as int] == c);
            }
        }
        i = i + 1;
    }
    code
}

/// A copy of a list of strings.
fn copy_strings(v: &Vec<String>) -> (r: Vec<String>)
    ensures
        r@ == v@,
{
    let mut r: Vec<String> = Vec::new();
    let mut i: usize = 0;
    while i < v.len()
        invariant
            i <= v@.len(),
            r@ == v@.take(i as int),
        decreases v@.len() - i,
    {
        r.push(v[i].clone());
        assert(v@.take(i + 1) =~= v@.take(i as int).push(v@[i as int]));
        i = i + 1;
    }
    assert(v@.take(i as int) =~= v@);
    r
}

impl Room {
    /// Members have distinct ids and each is connected at most once.
    pub open spec fn wf(self) -> bool {
        &&& member_ids_distinct(self.players@)
        &&& strings_distinct(self.connected@)
    }

    /// `after` is this room's outbox with `event` broadcast to the
    /// connected members.
    pub open spec fn broadcast_into(self, after: Seq<Delivery>, event: RoomEvent) -> bool {
        delivered(self.outbox@, after, self.connected@, event)
    }

    /// `after` is this room with `event` broadcast to the connected
    /// members, and nothing else changed.
    pub open spec fn announced(self, after: Room, event: RoomEvent) -> bool {
        &&& self.broadcast_into(after.outbox@, event)
        &&& after == (Room { outbox: after.outbox, ..self })
    }

    /// `after` is this room with `event` broadcast to the connected
    /// members; only the outbox and the activity stamp change.
    pub open spec fn told_all(self, after: Room, event: RoomEvent) -> bool {
        &&& self.broadcast_into(after.outbox@, event)
        &&& after == (Room { outbox: after.outbox, last_updated: after.last_updated, ..self })
    }

    /// `after` is this room once a game with `state` started and everybody
    /// connected was told.
    pub open spec fn started(self, after: Room, state: Value) -> bool {
        (Room { game_state: Some(state), game_in_progress: true, ..self }).told_all(
            after,
            RoomEvent::GameStarted { state },
        )
    }

    /// Everything but the members, the game, the host, the activity stamp
    /// and the outbox is the same in `self` and `other`.
    pub open spec fn same_identity(self, other: Room) -> bool {
        &&& other.id == self.id
        &&& other.code == self.code
        &&& other.game_type == self.game_type
        &&& other.settings == self.settings
    }

    /// Broadcasts `event` to the connected members.
    fn broadcast_message(&mut self, event: RoomEvent)
        ensures
            old(self).broadcast_into(final(self).outbox@, event),
            final(self).outbox@.len() == old(self).outbox@.len() + 1,
            final(self).id == old(self).id,
            final(self).code == old(self).code,
            final(self).game_type == old(self).game_type,
            final(self).settings == old(self).settings,
            final(self).host_id == old(self).host_id,
            final(self).players == old(self).players,
            final(self).connected == old(self).connected,
            final(self).game_state == old(self).game_state,
            final(self).game_in_progress == old(self).game_in_progress,
            final(self).last_updated == old(self).last_updated,
    {
        let to = copy_strings(&self.connected);
        let ghost before = self.outbox@;
        self.outbox.push(Delivery { to, event });
        assert(self.outbox@.take(before.len() as int) =~= before);
    }

    /// A room hosted by `host_id`, with a fresh identifier and join code,
    /// nobody connected and no game.
    pub fn new(host_id: String, host_name: String, game_type: String, settings: Value) -> (r: Room)
        ensures
            r.wf(),
            r.players@ == seq![Player { id: host_id, name: host_name }],
            r.host_id == host_id,
            r.game_type == game_type,
            r.settings == settings,
            r.connected@.len() == 0,
            r.game_state is None,
            !r.game_in_progress,
            r.outbox@.len() == 0,
            r.code@.len() == 6,
            r.id@.len() == 36,
    {
        let room_id = new_uuid_string();
        let room_code = generate_room_code();
        let hid = host_id.clone();
        let players = vec![Player { id: hid, name: host_name }];
        Room {
            id: room_id,
            code: room_code,
            game_type,
            settings,
            host_id,
            players,
            connected: Vec::new(),
            game_state: None,
            game_in_progress: false,
            last_updated: instant_now(),
            outbox: Vec::new(),
        }
    }

    /// `after` is this room once `p` has joined: seated (replacing a member
    /// with the same id) and connected; nothing else changes but the
    /// activity stamp.
    pub open spec fn joined(self, after: Room, p: Player) -> bool {
        &&& after.players@ == with_member(self.players@, p)
        &&& after.connected@ == with_text(self.connected@, p.id)
        &&& self.same_identity(after)
        &&& after.host_id == self.host_id
        &&& after.game_state == self.game_state
        &&& after.game_in_progress == self.game_in_progress
        &&& after.outbox == self.outbox
    }

    /// `after` is this room with `id` connected again (added to the
    /// connected members if missing); nothing else changes.
    pub open spec fn reconnected(self, after: Room, id: String) -> bool {
        &&& after.connected@ == with_text(self.connected@, id)
        &&& after == (Room { connected: after.connected, ..self })
    }

    /// What a player joining this room is told: the room's identifier,
    /// code, game type and settings, its members, and whether `id` hosts.
    pub open spec fn welcome(self, id: Seq<char>, info: (String, String, String, Value, Vec<Player>, bool)) -> bool {
        &&& info.0 == self.id
        &&& info.1 == self.code
        &&& info.2 == self.game_type
        &&& info.3 == self.settings
        &&& info.4@ == self.players@
        &&& info.5 == (self.host_id@ == id)
    }

    /// Seats `player_id` (replacing a member with the same id) and connects
    /// it. Refused while a game runs.
    pub fn add_player(&mut self, player_id: String, player_name: String) -> (r: bool)
        requires
            old(self).wf(),
        ensures
            final(self).wf(),
            r == !old(self).game_in_progress,
            !r ==> *final(self) == *old(self),
            r ==> old(self).joined(*final(self), Player { id: player_id, name: player_name }),
    {
        if self.game_in_progress {
            return false;
        }
        let ghost old_players = self.players@;
        let ghost old_connected = self.connected@;
        let id_copy = player_id.clone();
        let pl = Player { id: player_id, name: player_name };
        let ghost p = pl;
        match member_index(&self.players, &id_copy) {
            Some(i) => {
                proof {
                    lemma_member_seat(old_players, id_copy@, i as int);
                }
                self.players.set(i, pl);
                proof {
                    assert forall|a: int, b: int|
                        0 <= a < self.players@.len() && 0 <= b < self.players@.len() && a != b implies (
                        #[trigger] self.players@[a]).id@ != (#[trigger] self.players@[b]).id@ by {
                        assert(self.players@[a].id@ == old_players[a].id@);
                        assert(self.players@[b].id@ == old_players[b].id@);
                    }
                }
            },
            None => {
                self.players.push(pl);
                proof {
                    assert forall|a: int, b: int|
                        0 <= a < self.players@.len() && 0 <= b < self.players@.len() && a != b implies (
                        #[trigger] self.players@[a]).id@ != (#[trigger] self.players@[b]).id@ by {
                        if a < old_players.len() && b < old_players.len() {
                            assert(self.players@[a] == old_players[a]);
                            assert(self.players@[b] == old_players[b]);
                        } else if a < old_players.len() {
                            assert(self.players@[a] == old_players[a]);
                        } else {
                            assert(self.players@[b] == old_players[b]);
                        }
                    }
                }
            },
        }
        if text_index(&self.connected, &id_copy).is_none() {
            self.connected.push(id_copy);
            proof {
                assert forall|a: int, b: int|
                    0 <= a < self.connected@.len() && 0 <= b < self.connected@.len() && a != b implies (
                    #[trigger] self.connected@[a])@ != (#[trigger] self.connected@[b])@ by {
                    if a < old_connected.len() && b < old_connected.len() {
                        assert(self.connected@[a] == old_connected[a]);
                        assert(self.connected@[b] == old_connected[b]);
                    } else if a < old_connected.len() {
                        assert(self.connected@[a] == old_connected[a]);
                    } else {
                        assert(self.connected@[b] == old_connected[b]);
                    }
                }
            }
        }
        self.last_updated = instant_now();
        true
    }

    /// Whether `player_id` hosts the room.
    pub fn is_host(&self, player_id: &String) -> (r: bool)
        ensures
            r == (self.host_id@ == player_id@),
    {
        self.host_id == *player_id
    }

    /// The room's public description.
    pub fn get_summary(&self) -> (r: RoomSummary)
        ensures
            r.code == self.code,
            r.game_type == self.game_type,
            r.player_count == self.players@.len(),
            r.in_progress == self.game_in_progress,
    {
        RoomSummary {
            code: self.code.clone(),
            game_type: self.game_type.clone(),
            player_count: self.players.len(),
            in_progress: self.game_in_progress,
        }
    }
}


/// Removing an entry keeps the others distinct.
proof fn lemma_members_remove(players: Seq<Player>, i: int)
    requires
        member_ids_distinct(players),
        0 <= i < players.len(),
    ensures
        member_ids_distinct(players.remove(i)),
        !has_member(players.remove(i), players[i].id@),
{
    let r = players.remove(i);
    assert forall|a: int, b: int| 0 <= a < r.len() && 0 <= b < r.len() && a != b implies (
    #[trigger] r[a]).id@ != (#[trigger] r[b]).id@ by {
        let a2 = if a < i { a } else { a + 1 };
        let b2 = if b < i { b } else { b + 1 };
        assert(r[a] == players[a2] && r[b] == players[b2]);
    }
    if has_member(r, players[i].id@) {
        let a = choose|a: int| 0 <= a < r.len() && (#[trigger] r[a]).id@ == players[i].id@;
        let a2 = if a < i { a } else { a + 1 };
        assert(r[a] == players[a2]);
    }
}

/// Removing an entry keeps the others distinct.
proof fn lemma_texts_remove(s: Seq<String>, i: int)
    requires
        strings_distinct(s),
        0 <= i < s.len(),
    ensures
        strings_distinct(s.remove(i)),
{
    let r = s.remove(i);
    assert forall|a: int, b: int| 0 <= a < r.len() && 0 <= b < r.len() && a != b implies (
    #[trigger] r[a])@ != (#[trigger] r[b])@ by {
        let a2 = if a < i { a } else { a + 1 };
        let b2 = if b < i { b } else { b + 1 };
        assert(r[a] == s[a2] && r[b] == s[b2]);
    }
}

impl Room {
    /// `after` is this room once member `id` has left: it is unseated and
    /// disconnected; if somebody remains and `id` was the host, the first
    /// remaining member becomes host and everybody connected is told.
    pub open spec fn left(self, after: Room, id: Seq<char>) -> bool {
        &&& after.players@ == without(self.players@, id)
        &&& after.connected@ == without_text(self.connected@, id)
        &&& self.same_identity(after)
        &&& after.game_state == self.game_state
        &&& after.game_in_progress == self.game_in_progress
        &&& if after.players@.len() > 0 && self.host_id@ == id {
            let new_host = after.players@[0].id;
            &&& after.host_id == new_host
            &&& delivered(
                self.outbox@,
                after.outbox@,
                after.connected@,
                RoomEvent::HostChanged { host_id: new_host },
            )
        } else {
            &&& after.host_id == self.host_id
            &&& after.outbox == self.outbox
        }
    }

    /// Unseats and disconnects `player_id`. Returns whether the room still
    /// has members; when the host left, the first remaining member becomes
    /// host and everybody connected is told.
    pub fn remove_player(&mut self, player_id: &String) -> (r: bool)
        requires
            old(self).wf(),
        ensures
            final(self).wf(),
            old(self).left(*final(self), player_id@),
            r == (final(self).players@.len() > 0),
    {
        let ghost old_players = self.players@;
        let ghost old_connected = self.connected@;
        match member_index(&self.players, player_id) {
            Some(i) => {
                proof {
                    lemma_member_seat(old_players, player_id@, i as int);
                    lemma_members_remove(old_players, i as int);
                }
                self.players.remove(i);
            },
            None => {},
        }
        match text_index(&self.connected, player_id) {
            Some(i) => {
                proof {
                    let k = text_seat(old_connected, player_id@);
                    assert(0 <= k < old_connected.len() && old_connected[k]@ == player_id@);
                    assert(k == i as int);
                    lemma_texts_remove(old_connected, i as int);
                }
                self.connected.remove(i);
            },
            None => {},
        }
        if self.players.is_empty() {
            return false;
        }
        if self.host_id == *player_id {
            let new_host_id = self.players[0].id.clone();
            self.host_id = new_host_id.clone();
            self.broadcast_message(RoomEvent::HostChanged { host_id: new_host_id });
        }
        self.last_updated = instant_now();
        true
    }

    /// Starts a game with `initial_state` and tells everybody connected.
    /// Refused while a game runs or when nobody is seated.
    pub fn start_game(&mut self, initial_state: Value) -> (r: bool)
        requires
            old(self).wf(),
        ensures
            final(self).wf(),
            r == (!old(self).game_in_progress && old(self).players@.len() >= 1),
            !r ==> *final(self) == *old(self),
            r ==> old(self).started(*final(self), initial_state),
    {
        if self.game_in_progress || self.players.len() < 1 {
            return false;
        }
        self.game_state = Some(initial_state.clone());
        self.game_in_progress = true;
        self.broadcast_message(RoomEvent::GameStarted { state: initial_state });
        self.last_updated = instant_now();
        true
    }

    /// Replaces the state of the running game and tells everybody
    /// connected. Does nothing when no game runs.
    pub fn update_game_state(&mut self, new_state: Value)
        ensures
            !old(self).game_in_progress ==> *final(self) == *old(self),
            old(self).game_in_progress ==> (Room { game_state: Some(new_state), ..*old(self) }).told_all(
                *final(self),
                RoomEvent::GameStateUpdate { state: new_state },
            ),
    {
        if !self.game_in_progress {
            return ;
        }
        self.game_state = Some(new_state.clone());
        self.broadcast_message(RoomEvent::GameStateUpdate { state: new_state });
        self.last_updated = instant_now();
    }

    /// Ends the running game with `final_state` and tells everybody
    /// connected who won. Does nothing when no game runs.
    pub fn end_game(&mut self, winner_ids: Option<Vec<String>>, final_state: Value)
        ensures
            !old(self).game_in_progress ==> *final(self) == *old(self),
            old(self).game_in_progress ==> (Room {
                game_state: Some(final_state),
                game_in_progress: false,
                ..*old(self)
            }).told_all(*final(self), RoomEvent::GameEnded { winner_ids, final_state }),
    {
        if !self.game_in_progress {
            return ;
        }
        self.game_state = Some(final_state.clone());
        self.game_in_progress = false;
        self.broadcast_message(RoomEvent::GameEnded { winner_ids, final_state });
        self.last_updated = instant_now();
    }

    /// Tells everybody connected the result of `player_id`'s action.
    pub fn send_action_result(&mut self, player_id: String, result: Value)
        ensures
            old(self).told_all(*final(self), RoomEvent::GameActionResult { player_id, result }),
    {
        self.broadcast_message(RoomEvent::GameActionResult { player_id, result });
        self.last_updated = instant_now();
    }

    /// Tells everybody connected what `player_name` said.
    pub fn send_chat(&mut self, player_id: String, player_name: String, message: String)
        ensures
            old(self).told_all(*final(self), RoomEvent::Chat { player_id, player_name, message }),
    {
        self.broadcast_message(RoomEvent::Chat { player_id, player_name, message });
        self.last_updated = instant_now();
    }

    /// Queues `event` for `player_id` alone; returns whether that player
    /// is connected (nothing is queued otherwise).
    pub fn send_message_to_player(&mut self, player_id: &String, event: RoomEvent) -> (r: bool)
        ensures
            r == holds_text(old(self).connected@, player_id@),
            !r ==> *final(self) == *old(self),
            r ==> {
                &&& final(self).outbox@.len() == old(self).outbox@.len() + 1
                &&& final(self).outbox@.take(old(self).outbox@.len() as int) == old(self).outbox@
                &&& final(self).outbox@.last().to@ == seq![*player_id]
                &&& final(self).outbox@.last().event == event
                &&& *final(self) == (Room { outbox: final(self).outbox, ..*old(self) })
            },
    {
        if text_index(&self.connected, player_id).is_none() {
            return false;
        }
        let ghost before = self.outbox@;
        let to = vec![player_id.clone()];
        self.outbox.push(Delivery { to, event });
        assert(self.outbox@.take(before.len() as int) =~= before);
        true
    }
}


/// Some room of `rooms` has the code `code`.
pub open spec fn has_room(rooms: Seq<Room>, code: Seq<char>) -> bool {
    exists|i: int| 0 <= i < rooms.len() && (#[trigger] rooms[i]).code@ == code
}

/// The position of the room with code `code`, where there is one.
pub open spec fn room_index(rooms: Seq<Room>, code: Seq<char>) -> int {
    choose|i: int| 0 <= i < rooms.len() && (#[trigger] rooms[i]).code@ == code
}

/// No two rooms share a code, and every room is well formed.
pub open spec fn rooms_wf(rooms: Seq<Room>) -> bool {
    &&& forall|i: int, j: int|
        0 <= i < rooms.len() && 0 <= j < rooms.len() && i != j ==> (#[trigger] rooms[i]).code@
            != (#[trigger] rooms[j]).code@
    &&& forall|i: int| 0 <= i < rooms.len() ==> (#[trigger] rooms[i]).wf()
}

/// With distinct codes, a room holding `code` is the room of `code`.
pub proof fn lemma_room_index(rooms: Seq<Room>, code: Seq<char>, i: int)
    requires
        rooms_wf(rooms),
        0 <= i < rooms.len(),
        rooms[i].code@ == code,
    ensures
        room_index(rooms, code) == i,
{
    let k = room_index(rooms, code);
    assert(0 <= k < rooms.len() && rooms[k].code@ == code);
}

/// `after` is `rooms` once `player` has left the room with code `code`
/// (if there is one): that room loses the player and is dropped when
/// nobody remains.
pub open spec fn rooms_after_leave(rooms: Seq<Room>, after: Seq<Room>, code: Seq<char>, player: Seq<char>) -> bool {
    if has_room(rooms, code) {
        let i = room_index(rooms, code);
        exists|r: Room|
            #[trigger] rooms[i].left(r, player) && r.wf() && after == (if r.players@.len() == 0 {
                rooms.remove(i)
            } else {
                rooms.update(i, r)
            })
    } else {
        after == rooms
    }
}

/// Replacing or dropping a room keeps the codes distinct, as long as the
/// code does not change.
proof fn lemma_rooms_wf_update(rooms: Seq<Room>, i: int, r: Room)
    requires
        rooms_wf(rooms),
        0 <= i < rooms.len(),
        r.code@ == rooms[i].code@,
        r.wf(),
    ensures
        rooms_wf(rooms.update(i, r)),
        rooms_wf(rooms.remove(i)),
{
    let u = rooms.update(i, r);
    assert forall|a: int, b: int| 0 <= a < u.len() && 0 <= b < u.len() && a != b implies (
    #[trigger] u[a]).code@ != (#[trigger] u[b]).code@ by {
        assert(u[a].code@ == rooms[a].code@ && u[b].code@ == rooms[b].code@);
    }
    let d = rooms.remove(i);
    assert forall|a: int, b: int| 0 <= a < d.len() && 0 <= b < d.len() && a != b implies (
    #[trigger] d[a]).code@ != (#[trigger] d[b]).code@ by {
        let a2 = if a < i { a } else { a + 1 };
        let b2 = if b < i { b } else { b + 1 };
        assert(d[a] == rooms[a2] && d[b] == rooms[b2]);
    }
    assert forall|a: int| 0 <= a < d.len() implies (#[trigger] d[a]).wf() by {
        let a2 = if a < i { a } else { a + 1 };
        assert(d[a] == rooms[a2]);
    }
}

/// Rooms by join code, and the room each player is in.
pub struct RoomManager {
    rooms: Vec<Room>,
    player_rooms: Vec<(String, String)>,
}

impl RoomManager {
    /// The rooms, in creation order.
    pub closed spec fn rooms(self) -> Seq<Room> {
        self.rooms@
    }

    /// The room code each player is in.
    pub closed spec fn player_map(self) -> Map<Seq<char>, Seq<char>> {
        pairs_map(self.player_rooms@)
    }

    /// Codes are distinct, rooms well formed, and each player has one
    /// entry.
    pub closed spec fn wf(self) -> bool {
        &&& rooms_wf(self.rooms@)
        &&& keys_distinct(self.player_rooms@)
    }

    /// A manager with no room.
    pub fn new() -> (r: RoomManager)
        ensures
            r.wf(),
            r.rooms() == Seq::<Room>::empty(),
            r.player_map() == Map::<Seq<char>, Seq<char>>::empty(),
    {
        RoomManager { rooms: Vec::new(), player_rooms: Vec::new() }
    }

    /// Position of the room with code `code`.
    fn find_room(&self, code: &String) -> (r: Option<usize>)
        requires
            self.wf(),
        ensures
            r is None <==> !has_room(self.rooms@, code@),
            r matches Some(i) ==> i < self.rooms@.len() && i == room_index(self.rooms@, code@),
    {
        let mut i: usize = 0;
        while i < self.rooms.len()
            invariant
                self.wf(),
                i <= self.rooms@.len(),
                forall|j: int| 0 <= j < i ==> (#[trigger] self.rooms@[j]).code@ != code@,
            decreases self.rooms@.len() - i,
        {
            if self.rooms[i].code == *code {
                proof {
                    lemma_room_index(self.rooms@, code@, i as int);
                }
                return Some(i);
            }
            i = i + 1;
        }
        None
    }

    /// The room with code `code`.
    pub fn get_room(&self, room_code: &String) -> (r: Option<&Room>)
        requires
            self.wf(),
        ensures
            r == (if has_room(self.rooms(), room_code@) {
                Some(&self.rooms()[room_index(self.rooms(), room_code@)])
            } else {
                None
            }),
    {
        match self.find_room(room_code) {
            Some(i) => Some(&self.rooms[i]),
            None => None,
        }
    }

    /// The code of the room `player_id` is in.
    pub fn get_player_room_code(&self, player_id: &String) -> (r: Option<String>)
        requires
            self.wf(),
        ensures
            r is Some <==> self.player_map().contains_key(player_id@),
            r matches Some(c) ==> c@ == self.player_map()[player_id@],
    {
        match find_param(&self.player_rooms, player_id) {
            Some(j) => {
                proof {
                    lemma_pairs_map_value(self.player_rooms@, j as int);
                }
                Some(self.player_rooms[j].1.clone())
            },
            None => None,
        }
    }

    /// The room `player_id` is in.
    pub fn get_player_room(&self, player_id: &String) -> (r: Option<&Room>)
        requires
            self.wf(),
        ensures
            r == (if self.player_map().contains_key(player_id@) && has_room(
                self.rooms(),
                self.player_map()[player_id@],
            ) {
                Some(&self.rooms()[room_index(self.rooms(), self.player_map()[player_id@])])
            } else {
                None
            }),
    {
        match self.get_player_room_code(player_id) {
            Some(code) => self.get_room(&code),
            None => None,
        }
    }

    /// The public descriptions of all rooms, in creation order.
    pub fn list_rooms(&self) -> (r: Vec<RoomSummary>)
        ensures
            r@.len() == self.rooms().len(),
            forall|i: int|
                0 <= i < r@.len() ==> {
                    let s = #[trigger] r@[i];
                    let room = self.rooms()[i];
                    &&& s.code == room.code
                    &&& s.game_type == room.game_type
                    &&& s.player_count == room.players@.len()
                    &&& s.in_progress == room.game_in_progress
                },
    {
        let mut out: Vec<RoomSummary> = Vec::new();
        let mut i: usize = 0;
        while i < self.rooms.len()
            invariant
                i <= self.rooms@.len(),
                out@.len() == i,
                forall|k: int|
                    0 <= k < i ==> {
                        let s = #[trigger] out@[k];
                        let room = self.rooms@[k];
                        &&& s.code == room.code
                        &&& s.game_type == room.game_type
                        &&& s.player_count == room.players@.len()
                        &&& s.in_progress == room.game_in_progress
                    },
            decreases self.rooms@.len() - i,
        {
            out.push(self.rooms[i].get_summary());
            i = i + 1;
        }
        out
    }

    /// Takes `player` out of the room with code `code`, dropping the room
    /// if it empties.
    fn drop_from_room(&mut self, code: &String, player: &String)
        requires
            old(self).wf(),
        ensures
            final(self).wf(),
            rooms_after_leave(old(self).rooms@, final(self).rooms@, code@, player@),
            final(self).player_rooms == old(self).player_rooms,
    {
        match self.find_room(code) {
            Some(i) => {
                let ghost before = self.rooms@;
                proof {
                    assert(before[i as int].wf());
                }
                let still = self.rooms[i].remove_player(player);
                let ghost r = self.rooms@[i as int];
                proof {
                    assert(self.rooms@ == before.update(i as int, r));
                    assert(before[i as int].left(r, player@));
                    lemma_rooms_wf_update(before, i as int, r);
                }
                if !still {
                    self.rooms.remove(i);
                    proof {
                        assert(before.update(i as int, r).remove(i as int) =~= before.remove(i as int));
                    }
                }
            },
            None => {},
        }
    }

    /// Takes `player_id` out of its room: everybody connected there is
    /// told first, then the player leaves and an emptied room is dropped.
    /// Returns whether the player was in an existing room; its entry is
    /// forgotten either way.
    pub fn leave_room(&mut self, player_id: &String) -> (r: bool)
        requires
            old(self).wf(),
        ensures
            final(self).wf(),
            final(self).player_map() == old(self).player_map().remove(player_id@),
            !old(self).player_map().contains_key(player_id@) ==> !r && final(self).rooms()
                == old(self).rooms(),
            old(self).player_map().contains_key(player_id@) ==> {
                let code = old(self).player_map()[player_id@];
                &&& r == has_room(old(self).rooms(), code)
                &&& r ==> {
                    let i = room_index(old(self).rooms(), code);
                    let room = old(self).rooms()[i];
                    exists|told: Room|
                        #[trigger] room.announced(told, RoomEvent::PlayerLeft { player_id: *player_id })
                            && rooms_after_leave(
                            old(self).rooms().update(i, told),
                            final(self).rooms(),
                            code,
                            player_id@,
                        )
                }
                &&& !r ==> final(self).rooms() == old(self).rooms()
            },
    {
        let j = match find_param(&self.player_rooms, player_id) {
            Some(j) => j,
            None => {
                proof {
                    assert(old(self).player_map().remove(player_id@) =~= old(self).player_map());
                }
                return false;
            },
        };
        let room_code = self.player_rooms[j].1.clone();
        proof {
            lemma_pairs_map_value(self.player_rooms@, j as int);
            lemma_pairs_map_remove(self.player_rooms@, j as int);
        }
        self.player_rooms.remove(j);
        match self.find_room(&room_code) {
            Some(i) => {
                proof {
                    assert(self.rooms@[i as int].wf());
                }
                let ghost room = old(self).rooms@[i as int];
                self.rooms[i].broadcast_message(RoomEvent::PlayerLeft { player_id: player_id.clone() });
                let ghost told = self.rooms@[i as int];
                proof {
                    lemma_rooms_wf_update(old(self).rooms@, i as int, told);
                    lemma_room_index(self.rooms@, room_code@, i as int);
                    assert(room.announced(told, RoomEvent::PlayerLeft { player_id: *player_id }));
                    assert(self.rooms@ == old(self).rooms@.update(i as int, told));
                }
                self.drop_from_room(&room_code, player_id);
                true
            },
            None => false,
        }
    }
}


/// `rooms` with `room` stored under its code: replacing a room with the
/// same code, or added last.
pub open spec fn placed(rooms: Seq<Room>, room: Room) -> Seq<Room> {
    if has_room(rooms, room.code@) {
        rooms.update(room_index(rooms, room.code@), room)
    } else {
        rooms.push(room)
    }
}

/// `room` is a room just opened by `host_id`, who is its only member,
/// connected, with no game yet.
pub open spec fn is_new_room(room: Room, host_id: String, host_name: String, game_type: String, settings: Value) -> bool {
    &&& room.players@ == seq![Player { id: host_id, name: host_name }]
    &&& room.connected@ == seq![host_id]
    &&& room.host_id == host_id
    &&& room.game_type == game_type
    &&& room.settings == settings
    &&& room.game_state is None
    &&& !room.game_in_progress
    &&& room.outbox@.len() == 0
    &&& room.code@.len() == 6
    &&& room.id@.len() == 36
}

/// A copy of the members.
fn copy_players(v: &Vec<Player>) -> (r: Vec<Player>)
    ensures
        r@ == v@,
{
    let mut r: Vec<Player> = Vec::new();
    let mut i: usize = 0;
    while i < v.len()
        invariant
            i <= v@.len(),
            r@ == v@.take(i as int),
        decreases v@.len() - i,
    {
        let p = Player { id: v[i].id.clone(), name: v[i].name.clone() };
        r.push(p);
        assert(v@.take(i + 1) =~= v@.take(i as int).push(v@[i as int]));
        i = i + 1;
    }
    assert(v@.take(i as int) =~= v@);
    r
}

impl RoomManager {
    /// Stores `room` under its code, replacing a room with the same code.
    fn place_room(&mut self, room: Room)
        requires
            old(self).wf(),
            room.wf(),
        ensures
            final(self).wf(),
            final(self).rooms@ == placed(old(self).rooms@, room),
            final(self).player_rooms == old(self).player_rooms,
    {
        let code = room.code.clone();
        match self.find_room(&code) {
            Some(i) => {
                proof {
                    lemma_rooms_wf_update(self.rooms@, i as int, room);
                }
                self.rooms.set(i, room);
            },
            None => {
                let ghost before = self.rooms@;
                self.rooms.push(room);
                proof {
                    assert forall|a: int, b: int|
                        0 <= a < self.rooms@.len() && 0 <= b < self.rooms@.len() && a != b implies (
                        #[trigger] self.rooms@[a]).code@ != (#[trigger] self.rooms@[b]).code@ by {
                        if a < before.len() && b < before.len() {
                            assert(self.rooms@[a] == before[a] && self.rooms@[b] == before[b]);
                        } else if a < before.len() {
                            assert(self.rooms@[a] == before[a]);
                        } else {
                            assert(self.rooms@[b] == before[b]);
                        }
                    }
                    assert forall|a: int| 0 <= a < self.rooms@.len() implies (#[trigger] self.rooms@[a]).wf() by {
                        if a < before.len() {
                            assert(self.rooms@[a] == before[a]);
                        }
                    }
                }
            },
        }
    }

    /// Opens a room hosted by `host_id`, who first leaves any room it was
    /// in. Returns the new room's identifier and join code. A room that
    /// happens to have the same code is replaced.
    pub fn create_room(&mut self, host_id: String, host_name: String, game_type: String, settings: Value) -> (r: (
        String,
        String,
    ))
        requires
            old(self).wf(),
        ensures
            final(self).wf(),
            final(self).player_map() == old(self).player_map().insert(host_id@, r.1@),
            exists|mid: Seq<Room>, room: Room|
                {
                    &&& (if old(self).player_map().contains_key(host_id@) {
                        rooms_after_leave(
                            old(self).rooms(),
                            mid,
                            old(self).player_map()[host_id@],
                            host_id@,
                        )
                    } else {
                        mid == old(self).rooms()
                    })
                    &&& is_new_room(room, host_id, host_name, game_type, settings)
                    &&& room.id == r.0
                    &&& room.code == r.1
                    &&& final(self).rooms() == #[trigger] placed(mid, room)
                },
    {
        let ghost old_map = pairs_map(self.player_rooms@);
        match find_param(&self.player_rooms, &host_id) {
            Some(j) => {
                let code = self.player_rooms[j].1.clone();
                proof {
                    lemma_pairs_map_value(self.player_rooms@, j as int);
                }
                self.drop_from_room(&code, &host_id);
                proof {
                    lemma_pairs_map_remove(self.player_rooms@, j as int);
                }
                self.player_rooms.remove(j);
            },
            None => {
                proof {
                    assert(old_map.remove(host_id@) =~= old_map);
                }
            },
        }
        let ghost mid = self.rooms@;
        let mut room = Room::new(host_id.clone(), host_name, game_type, settings);
        room.connected.push(host_id.clone());
        let room_code = room.code.clone();
        let room_id = room.id.clone();
        let ghost new_room = room;
        proof {
            assert(room.connected@ =~= seq![host_id]);
        }
        self.place_room(room);
        insert_param(&mut self.player_rooms, host_id, room_code.clone());
        proof {
            assert(pairs_map(self.player_rooms@) =~= old_map.insert(host_id@, room_code@));
            assert(self.rooms@ == placed(mid, new_room));
        }
        (room_id, room_code)
    }
}


impl RoomManager {
    /// Seats `player_id` in the room with code `room_code` and returns the
    /// room's description for the newcomer. Refused when there is no such
    /// room or its game runs. A player already in that room is only
    /// reconnected; a player in another room leaves it first. Everybody
    /// connected is told about a newcomer.
    pub fn join_room(&mut self, player_id: String, player_name: String, room_code: &String) -> (r: Result<
        (String, String, String, Value, Vec<Player>, bool),
        String,
    >)
        requires
            old(self).wf(),
        ensures
            final(self).wf(),
            !has_room(old(self).rooms(), room_code@) ==> (r matches Err(e) && e@
                == "ルームが見つかりません"@) && *final(self) == *old(self),
            has_room(old(self).rooms(), room_code@) ==> {
                let i = room_index(old(self).rooms(), room_code@);
                let room = old(self).rooms()[i];
                let mapped = old(self).player_map().contains_key(player_id@);
                &&& room.game_in_progress ==> (r matches Err(e) && e@ == "ゲームが既に進行中です"@)
                    && *final(self) == *old(self)
                &&& !room.game_in_progress && mapped && old(self).player_map()[player_id@]
                    == room_code@ ==> exists|again: Room|
                    #[trigger] room.reconnected(again, player_id)
                        && final(self).rooms() == old(self).rooms().update(i, again)
                        && final(self).player_map() == old(self).player_map()
                        && (r matches Ok(info) && again.welcome(player_id@, info))
                &&& !room.game_in_progress && !(mapped && old(self).player_map()[player_id@]
                    == room_code@) ==> exists|mid: Seq<Room>, seated: Room, told: Room|
                    #![trigger mid.update(room_index(mid, room_code@), told), seated.announced(told, RoomEvent::PlayerJoined { player: Player { id: player_id, name: player_name } })]
                    {
                        &&& (if mapped {
                            rooms_after_leave(
                                old(self).rooms(),
                                mid,
                                old(self).player_map()[player_id@],
                                player_id@,
                            )
                        } else {
                            mid == old(self).rooms()
                        })
                        &&& has_room(mid, room_code@)
                        &&& mid[room_index(mid, room_code@)].joined(
                            seated,
                            Player { id: player_id, name: player_name },
                        )
                        &&& seated.announced(
                            told,
                            RoomEvent::PlayerJoined {
                                player: Player { id: player_id, name: player_name },
                            },
                        )
                        &&& final(self).rooms() == mid.update(room_index(mid, room_code@), told)
                        &&& final(self).player_map() == old(self).player_map().insert(
                            player_id@,
                            room_code@,
                        )
                        &&& (r matches Ok(info) && told.welcome(player_id@, info))
                    }
            },
    {
        let i = match self.find_room(room_code) {
            Some(i) => i,
            None => {
                return Err(String::from_str("ルームが見つかりません"));
            },
        };
        if self.rooms[i].game_in_progress {
            return Err(String::from_str("ゲームが既に進行中です"));
        }
        let ghost old_rooms = self.rooms@;
        let ghost old_map = pairs_map(self.player_rooms@);
        match find_param(&self.player_rooms, &player_id) {
            Some(j) => {
                proof {
                    lemma_pairs_map_value(self.player_rooms@, j as int);
                }
                let old_code = self.player_rooms[j].1.clone();
                if !(old_code == *room_code) {
                    self.drop_from_room(&old_code, &player_id);
                } else {
                    proof {
                        assert(self.rooms@[i as int].wf());
                    }
                    let ghost before = self.rooms@[i as int];
                    if text_index(&self.rooms[i].connected, &player_id).is_none() {
                        self.rooms[i].connected.push(player_id.clone());
                        proof {
                            let c = self.rooms@[i as int].connected@;
                            assert forall|a: int, b: int|
                                0 <= a < c.len() && 0 <= b < c.len() && a != b implies (
                                #[trigger] c[a])@ != (#[trigger] c[b])@ by {
                                if a < before.connected@.len() && b < before.connected@.len() {
                                    assert(c[a] == before.connected@[a] && c[b] == before.connected@[b]);
                                } else if a < before.connected@.len() {
                                    assert(c[a] == before.connected@[a]);
                                } else {
                                    assert(c[b] == before.connected@[b]);
                                }
                            }
                        }
                    }
                    let ghost again = self.rooms@[i as int];
                    proof {
                        lemma_rooms_wf_update(old_rooms, i as int, again);
                        assert(before.reconnected(again, player_id));
                    }
                    let room = &self.rooms[i];
                    let players = copy_players(&room.players);
                    let is_host = room.is_host(&player_id);
                    return Ok((
                        room.id.clone(),
                        room.code.clone(),
                        room.game_type.clone(),
                        room.settings.clone(),
                        players,
                        is_host,
                    ));
                }
            },
            None => {},
        }
        let ghost mid = self.rooms@;
        let i = match self.find_room(room_code) {
            Some(i) => i,
            None => {
                proof {
                    // the target room is not the one that was left, so it remains
                    let k = room_index(old_rooms, room_code@);
                    if old_map.contains_key(player_id@) && has_room(old_rooms, old_map[player_id@]) {
                        let t = room_index(old_rooms, old_map[player_id@]);
                        assert(old_rooms[t].code@ != room_code@);
                        let rr = choose|rr: Room|
                            #[trigger] old_rooms[t].left(rr, player_id@) && rr.wf() && mid == (if rr.players@.len() == 0 {
                                old_rooms.remove(t)
                            } else {
                                old_rooms.update(t, rr)
                            });
                        let k2 = if k < t { k } else { k - 1 };
                        if rr.players@.len() == 0 {
                            assert(mid[k2] == old_rooms[k]);
                        } else {
                            assert(mid[k] == old_rooms[k]);
                        }
                    } else {
                        assert(mid[k] == old_rooms[k]);
                    }
                }
                return Err(String::from_str("ルームが見つかりません"));
            },
        };
        proof {
            assert(self.rooms@[i as int].wf());
            // the room is still not playing
            let k = room_index(old_rooms, room_code@);
            if old_map.contains_key(player_id@) && has_room(old_rooms, old_map[player_id@]) {
                let t = room_index(old_rooms, old_map[player_id@]);
                assert(old_rooms[t].code@ != room_code@);
                let rr = choose|rr: Room|
                    #[trigger] old_rooms[t].left(rr, player_id@) && rr.wf() && mid == (if rr.players@.len() == 0 {
                        old_rooms.remove(t)
                    } else {
                        old_rooms.update(t, rr)
                    });
                let k2 = if k < t { k } else { k - 1 };
                if rr.players@.len() == 0 {
                    assert(mid[k2] == old_rooms[k]);
                    lemma_room_index(mid, room_code@, k2);
                } else {
                    assert(mid[k] == old_rooms[k]);
                    lemma_room_index(mid, room_code@, k);
                }
            } else {
                assert(mid == old_rooms);
            }
            assert(!mid[i as int].game_in_progress);
        }
        let ghost before_join = self.rooms@[i as int];
        let joined = self.rooms[i].add_player(player_id.clone(), player_name.clone());
        if !joined {
            return Err(String::from_str("ルームに参加できません"));
        }
        let ghost seated = self.rooms@[i as int];
        proof {
            lemma_rooms_wf_update(mid, i as int, seated);
        }
        insert_param(&mut self.player_rooms, player_id.clone(), room_code.clone());
        let newcomer = Player { id: player_id.clone(), name: player_name.clone() };
        self.rooms[i].broadcast_message(RoomEvent::PlayerJoined { player: newcomer });
        let ghost told = self.rooms@[i as int];
        proof {
            lemma_rooms_wf_update(mid, i as int, told);
            assert(seated.announced(told, RoomEvent::PlayerJoined { player: Player { id: player_id, name: player_name } }));
            assert(self.rooms@ == mid.update(i as int, told));
            if !old_map.contains_key(player_id@) {
                assert(mid == old_rooms);
            }
        }
        let room = &self.rooms[i];
        let players = copy_players(&room.players);
        let is_host = room.is_host(&player_id);
        Ok((room.id.clone(), room.code.clone(), room.game_type.clone(), room.settings.clone(), players, is_host))
    }
}


impl RoomManager {
    /// Position of the room `player_id` is in.
    fn find_player_room(&self, player_id: &String) -> (r: Option<usize>)
        requires
            self.wf(),
        ensures
            r is None <==> !(self.player_map().contains_key(player_id@) && has_room(
                self.rooms(),
                self.player_map()[player_id@],
            )),
            r matches Some(i) ==> i < self.rooms().len() && i == room_index(
                self.rooms(),
                self.player_map()[player_id@],
            ),
    {
        match self.get_player_room_code(player_id) {
            Some(code) => self.find_room(&code),
            None => None,
        }
    }

    /// Starts the game of the room `player_id` is in. Only its host may,
    /// and only when the room agrees (see `Room::start_game`).
    pub fn start_game(&mut self, player_id: &String, initial_state: Value) -> (r: Result<(), String>)
        requires
            old(self).wf(),
        ensures
            final(self).wf(),
            final(self).player_map() == old(self).player_map(),
            !(old(self).player_map().contains_key(player_id@) && has_room(
                old(self).rooms(),
                old(self).player_map()[player_id@],
            )) ==> (r matches Err(e) && e@ == "ルームに参加していません"@) && *final(self) == *old(self),
            old(self).player_map().contains_key(player_id@) && has_room(
                old(self).rooms(),
                old(self).player_map()[player_id@],
            ) ==> {
                let i = room_index(old(self).rooms(), old(self).player_map()[player_id@]);
                let room = old(self).rooms()[i];
                &&& room.host_id@ != player_id@ ==> (r matches Err(e) && e@
                    == "ゲームを開始する権限がありません"@) && *final(self) == *old(self)
                &&& room.host_id@ == player_id@ && (room.game_in_progress || room.players@.len() == 0)
                    ==> (r matches Err(e) && e@ == "ゲームを開始できません"@) && *final(self) == *old(self)
                &&& room.host_id@ == player_id@ && !room.game_in_progress && room.players@.len() > 0
                    ==> r is Ok && exists|after: Room|
                    #[trigger] room.started(after, initial_state) && final(self).rooms()
                        == old(self).rooms().update(i, after)
            },
    {
        let i = match self.find_player_room(player_id) {
            Some(i) => i,
            None => {
                return Err(String::from_str("ルームに参加していません"));
            },
        };
        if !self.rooms[i].is_host(player_id) {
            return Err(String::from_str("ゲームを開始する権限がありません"));
        }
        proof {
            assert(self.rooms@[i as int].wf());
        }
        if self.rooms[i].game_in_progress || self.rooms[i].players.len() < 1 {
            return Err(String::from_str("ゲームを開始できません"));
        }
        let ghost before = self.rooms@;
        self.rooms[i].start_game(initial_state);
        proof {
            lemma_rooms_wf_update(before, i as int, self.rooms@[i as int]);
            assert(before[i as int].started(self.rooms@[i as int], initial_state));
        }
        Ok(())
    }

    /// Replaces the game state of the room with code `room_code` (see
    /// `Room::update_game_state`).
    pub fn update_game_state(&mut self, room_code: &String, new_state: Value) -> (r: Result<(), String>)
        requires
            old(self).wf(),
        ensures
            final(self).wf(),
            final(self).player_map() == old(self).player_map(),
            !has_room(old(self).rooms(), room_code@) ==> (r matches Err(e) && e@
                == "ルームが見つかりません"@) && *final(self) == *old(self),
            has_room(old(self).rooms(), room_code@) ==> {
                let i = room_index(old(self).rooms(), room_code@);
                let room = old(self).rooms()[i];
                &&& r is Ok
                &&& !room.game_in_progress ==> final(self).rooms() == old(self).rooms()
                &&& room.game_in_progress ==> exists|after: Room|
                    #[trigger] (Room { game_state: Some(new_state), ..room }).told_all(
                        after,
                        RoomEvent::GameStateUpdate { state: new_state },
                    ) && final(self).rooms() == old(self).rooms().update(i, after)
            },
    {
        let i = match self.find_room(room_code) {
            Some(i) => i,
            None => {
                return Err(String::from_str("ルームが見つかりません"));
            },
        };
        if !self.rooms[i].game_in_progress {
            return Ok(());
        }
        let ghost before = self.rooms@;
        proof {
            assert(before[i as int].wf());
        }
        self.rooms[i].update_game_state(new_state);
        proof {
            lemma_rooms_wf_update(before, i as int, self.rooms@[i as int]);
        }
        Ok(())
    }

    /// Ends the game of the room with code `room_code` (see
    /// `Room::end_game`).
    pub fn end_game(&mut self, room_code: &String, winner_ids: Option<Vec<String>>, final_state: Value) -> (r:
        Result<(), String>)
        requires
            old(self).wf(),
        ensures
            final(self).wf(),
            final(self).player_map() == old(self).player_map(),
            !has_room(old(self).rooms(), room_code@) ==> (r matches Err(e) && e@
                == "ルームが見つかりません"@) && *final(self) == *old(self),
            has_room(old(self).rooms(), room_code@) ==> {
                let i = room_index(old(self).rooms(), room_code@);
                let room = old(self).rooms()[i];
                &&& r is Ok
                &&& !room.game_in_progress ==> final(self).rooms() == old(self).rooms()
                &&& room.game_in_progress ==> exists|after: Room|
                    #[trigger] (Room { game_state: Some(final_state), game_in_progress: false, ..room }).told_all(
                        after,
                        RoomEvent::GameEnded { winner_ids, final_state },
                    ) && final(self).rooms() == old(self).rooms().update(i, after)
            },
    {
        let i = match self.find_room(room_code) {
            Some(i) => i,
            None => {
                return Err(String::from_str("ルームが見つかりません"));
            },
        };
        if !self.rooms[i].game_in_progress {
            return Ok(());
        }
        let ghost before = self.rooms@;
        proof {
            assert(before[i as int].wf());
        }
        self.rooms[i].end_game(winner_ids, final_state);
        proof {
            lemma_rooms_wf_update(before, i as int, self.rooms@[i as int]);
        }
        Ok(())
    }

    /// Tells the room `player_id` is in the result of its action.
    pub fn send_action_result(&mut self, player_id: &String, result: Value) -> (r: Result<(), String>)
        requires
            old(self).wf(),
        ensures
            final(self).wf(),
            final(self).player_map() == old(self).player_map(),
            !(old(self).player_map().contains_key(player_id@) && has_room(
                old(self).rooms(),
                old(self).player_map()[player_id@],
            )) ==> (r matches Err(e) && e@ == "ルームに参加していません"@) && *final(self) == *old(self),
            old(self).player_map().contains_key(player_id@) && has_room(
                old(self).rooms(),
                old(self).player_map()[player_id@],
            ) ==> {
                let i = room_index(old(self).rooms(), old(self).player_map()[player_id@]);
                &&& r is Ok
                &&& exists|after: Room|
                    #[trigger] old(self).rooms()[i].told_all(
                        after,
                        RoomEvent::GameActionResult { player_id: *player_id, result },
                    ) && final(self).rooms() == old(self).rooms().update(i, after)
            },
    {
        let i = match self.find_player_room(player_id) {
            Some(i) => i,
            None => {
                return Err(String::from_str("ルームに参加していません"));
            },
        };
        let ghost before = self.rooms@;
        proof {
            assert(before[i as int].wf());
        }
        self.rooms[i].send_action_result(player_id.clone(), result);
        proof {
            lemma_rooms_wf_update(before, i as int, self.rooms@[i as int]);
        }
        Ok(())
    }

    /// Posts `message` from `player_id` in the chat of its room, signed
    /// with the member's name.
    pub fn send_chat(&mut self, player_id: &String, message: String) -> (r: Result<(), String>)
        requires
            old(self).wf(),
        ensures
            final(self).wf(),
            final(self).player_map() == old(self).player_map(),
            !(old(self).player_map().contains_key(player_id@) && has_room(
                old(self).rooms(),
                old(self).player_map()[player_id@],
            )) ==> (r matches Err(e) && e@ == "ルームに参加していません"@) && *final(self) == *old(self),
            old(self).player_map().contains_key(player_id@) && has_room(
                old(self).rooms(),
                old(self).player_map()[player_id@],
            ) ==> {
                let i = room_index(old(self).rooms(), old(self).player_map()[player_id@]);
                let room = old(self).rooms()[i];
                &&& !has_member(room.players@, player_id@) ==> (r matches Err(e) && e@
                    == "プレイヤー情報が見つかりません"@) && *final(self) == *old(self)
                &&& has_member(room.players@, player_id@) ==> r is Ok && exists|after: Room|
                    #[trigger] room.told_all(
                        after,
                        RoomEvent::Chat {
                            player_id: *player_id,
                            player_name: room.players@[member_seat(room.players@, player_id@)].name,
                            message,
                        },
                    ) && final(self).rooms() == old(self).rooms().update(i, after)
            },
    {
        let i = match self.find_player_room(player_id) {
            Some(i) => i,
            None => {
                return Err(String::from_str("ルームに参加していません"));
            },
        };
        proof {
            assert(self.rooms@[i as int].wf());
        }
        let seat = match member_index(&self.rooms[i].players, player_id) {
            Some(k) => k,
            None => {
                return Err(String::from_str("プレイヤー情報が見つかりません"));
            },
        };
        proof {
            lemma_member_seat(self.rooms@[i as int].players@, player_id@, seat as int);
        }
        let player_name = self.rooms[i].players[seat].name.clone();
        let ghost before = self.rooms@;
        self.rooms[i].send_chat(player_id.clone(), player_name, message);
        proof {
            lemma_rooms_wf_update(before, i as int, self.rooms@[i as int]);
        }
        Ok(())
    }

    /// Queues `event` for `player_id` alone, in its room; returns whether
    /// the player is in a room and connected there.
    pub fn send_message_to_player(&mut self, player_id: &String, event: RoomEvent) -> (r: bool)
        requires
            old(self).wf(),
        ensures
            final(self).wf(),
            final(self).player_map() == old(self).player_map(),
            !r ==> *final(self) == *old(self),
            r <==> (old(self).player_map().contains_key(player_id@) && has_room(
                old(self).rooms(),
                old(self).player_map()[player_id@],
            ) && holds_text(
                old(self).rooms()[room_index(old(self).rooms(), old(self).player_map()[player_id@])].connected@,
                player_id@,
            )),
    {
        let i = match self.find_player_room(player_id) {
            Some(i) => i,
            None => {
                return false;
            },
        };
        if text_index(&self.rooms[i].connected, player_id).is_none() {
            return false;
        }
        let ghost before = self.rooms@;
        proof {
            assert(before[i as int].wf());
        }
        let sent = self.rooms[i].send_message_to_player(player_id, event);
        proof {
            lemma_rooms_wf_update(before, i as int, self.rooms@[i as int]);
        }
        sent
    }
}


/// The rooms of `rooms` not marked in `stale`, in order.
pub open spec fn kept_rooms(rooms: Seq<Room>, stale: Seq<bool>) -> Seq<Room>
    decreases rooms.len(),
{
    if rooms.len() == 0 || stale.len() == 0 {
        Seq::empty()
    } else {
        let prev = kept_rooms(rooms.drop_last(), stale.drop_last());
        if stale.last() {
            prev
        } else {
            prev.push(rooms.last())
        }
    }
}

/// The members of the rooms marked in `stale`.
pub open spec fn stale_members(rooms: Seq<Room>, stale: Seq<bool>) -> Set<Seq<char>> {
    Set::new(
        |p: Seq<char>|
            exists|i: int|
                0 <= i < rooms.len() && i < stale.len() && stale[i] && #[trigger] has_member(
                    rooms[i].players@,
                    p,
                ),
    )
}

/// With distinct codes, a room is kept exactly when it is not marked.
proof fn lemma_kept_rooms_membership(rooms: Seq<Room>, stale: Seq<bool>, i: int)
    requires
        rooms_wf(rooms),
        stale.len() == rooms.len(),
        0 <= i < rooms.len(),
    ensures
        kept_rooms(rooms, stale).contains(rooms[i]) <==> !stale[i],
    decreases rooms.len(),
{
    let d = rooms.drop_last();
    let n = rooms.len() - 1;
    lemma_kept_rooms(rooms, stale);
    assert(rooms_wf(d)) by {
        assert forall|a: int, b: int| 0 <= a < d.len() && 0 <= b < d.len() && a != b implies (
        #[trigger] d[a]).code@ != (#[trigger] d[b]).code@ by {
            assert(d[a] == rooms[a] && d[b] == rooms[b]);
        }
        assert forall|a: int| 0 <= a < d.len() implies (#[trigger] d[a]).wf() by {
            assert(d[a] == rooms[a]);
        }
    }
    lemma_kept_rooms(d, stale.drop_last());
    let prev = kept_rooms(d, stale.drop_last());
    if i < n {
        assert(d[i] == rooms[i]);
        lemma_kept_rooms_membership(d, stale.drop_last(), i);
        if !stale.last() {
            assert(rooms[i] != rooms[n]) by {
                assert(rooms[i].code@ != rooms[n].code@);
            }
            if prev.push(rooms.last()).contains(rooms[i]) {
                let k = choose|k: int| 0 <= k < prev.push(rooms.last()).len() && prev.push(rooms.last())[k] == rooms[i];
                if k < prev.len() {
                    assert(prev[k] == rooms[i]);
                }
            }
            if prev.contains(rooms[i]) {
                let k = choose|k: int| 0 <= k < prev.len() && prev[k] == rooms[i];
                assert(prev.push(rooms.last())[k] == rooms[i]);
            }
        }
    } else {
        if !stale.last() {
            assert(prev.push(rooms.last())[prev.len() as int] == rooms[i]);
        } else {
            if prev.contains(rooms[i]) {
                assert(d.contains(rooms[i]));
                let k = choose|k: int| 0 <= k < d.len() && d[k] == rooms[i];
                assert(d[k] == rooms[k]);
                assert(rooms[k].code@ == rooms[n].code@);
            }
        }
    }
}

/// A clean-up at `now` keeps, of the rooms `before`, exactly those that
/// have not been idle for longer than `max_inactive_time` since their last
/// update, and no other room.
pub proof fn lemma_cleanup_drops_exactly_idle_rooms(
    before: Seq<Room>,
    after: Seq<Room>,
    now: Instant,
    max_inactive_time: Duration,
)
    requires
        rooms_wf(before),
        after == kept_rooms(before, idle_rooms(before, now, max_inactive_time)),
    ensures
        forall|i: int|
            0 <= i < before.len() ==> (after.contains(#[trigger] before[i]) <==> !longer_than(
                time_between(now, before[i].last_updated),
                max_inactive_time,
            )),
        forall|r: Room| #[trigger] after.contains(r) ==> before.contains(r),
{
    let stale = idle_rooms(before, now, max_inactive_time);
    lemma_kept_rooms(before, stale);
    assert forall|i: int| 0 <= i < before.len() implies (after.contains(#[trigger] before[i]) <==> !longer_than(
        time_between(now, before[i].last_updated),
        max_inactive_time,
    )) by {
        lemma_kept_rooms_membership(before, stale, i);
    }
}

/// Keeping a subsequence of well-formed rooms keeps them well formed.
proof fn lemma_kept_rooms(rooms: Seq<Room>, stale: Seq<bool>)
    requires
        rooms_wf(rooms),
        stale.len() == rooms.len(),
    ensures
        rooms_wf(kept_rooms(rooms, stale)),
        forall|r: Room| #[trigger] kept_rooms(rooms, stale).contains(r) ==> rooms.contains(r),
    decreases rooms.len(),
{
    if rooms.len() > 0 {
        let d = rooms.drop_last();
        assert(rooms_wf(d)) by {
            assert forall|a: int, b: int| 0 <= a < d.len() && 0 <= b < d.len() && a != b implies (
            #[trigger] d[a]).code@ != (#[trigger] d[b]).code@ by {
                assert(d[a] == rooms[a] && d[b] == rooms[b]);
            }
            assert forall|a: int| 0 <= a < d.len() implies (#[trigger] d[a]).wf() by {
                assert(d[a] == rooms[a]);
            }
        }
        lemma_kept_rooms(d, stale.drop_last());
        let prev = kept_rooms(d, stale.drop_last());
        let cur = kept_rooms(rooms, stale);
        assert forall|r: Room| #[trigger] cur.contains(r) implies rooms.contains(r) by {
            if prev.contains(r) {
                assert(d.contains(r));
                let k = choose|k: int| 0 <= k < d.len() && d[k] == r;
                assert(rooms[k] == r);
            } else {
                assert(r == rooms.last());
                assert(rooms[rooms.len() - 1] == r);
            }
        }
        if !stale.last() {
            let last = rooms.last();
            assert(!prev.contains(last)) by {
                if prev.contains(last) {
                    let k = choose|k: int| 0 <= k < prev.len() && prev[k] == last;
                    assert(d.contains(last));
                    let t = choose|t: int| 0 <= t < d.len() && d[t] == last;
                    assert(rooms[t].code@ != rooms[rooms.len() - 1].code@);
                }
            }
            assert forall|a: int, b: int| 0 <= a < cur.len() && 0 <= b < cur.len() && a != b implies (
            #[trigger] cur[a]).code@ != (#[trigger] cur[b]).code@ by {
                if a < prev.len() && b < prev.len() {
                    assert(cur[a] == prev[a] && cur[b] == prev[b]);
                } else {
                    let (x, y) = if a < prev.len() { (a, b) } else { (b, a) };
                    assert(cur[y] == last);
                    assert(cur[x] == prev[x]);
                    assert(prev.contains(prev[x]));
                    assert(d.contains(prev[x]));
                    let t = choose|t: int| 0 <= t < d.len() && d[t] == prev[x];
                    assert(rooms[t].code@ != rooms[rooms.len() - 1].code@);
                }
            }
            assert forall|a: int| 0 <= a < cur.len() implies (#[trigger] cur[a]).wf() by {
                if a < prev.len() {
                    assert(cur[a] == prev[a]);
                }
            }
        }
    }
}

impl RoomManager {
    /// Drops the rooms idle for longer than `max_inactive_time` at `now`
    /// and forgets where their members were; the other rooms stay, in
    /// order.
    pub fn cleanup_inactive_rooms_at(&mut self, now: Instant, max_inactive_time: Duration)
        requires
            old(self).wf(),
        ensures
            final(self).wf(),
            final(self).rooms() == kept_rooms(old(self).rooms(), idle_rooms(old(self).rooms(), now, max_inactive_time)),
            final(self).player_map() == old(self).player_map().remove_keys(
                stale_members(old(self).rooms(), idle_rooms(old(self).rooms(), now, max_inactive_time)),
            ),
            forall|i: int|
                0 <= i < old(self).rooms().len() ==> (final(self).rooms().contains(#[trigger] old(self).rooms()[i])
                    <==> !longer_than(time_between(now, old(self).rooms()[i].last_updated), max_inactive_time)),
            forall|r: Room| #[trigger] final(self).rooms().contains(r) ==> old(self).rooms().contains(r),
    {
        let ghost all = self.rooms@;
        let ghost map0 = pairs_map(self.player_rooms@);
        let mut pending: Vec<Room> = Vec::new();
        std::mem::swap(&mut pending, &mut self.rooms);
        let total = pending.len();
        assert(all.len() == total);
        let ghost stale: Seq<bool> = Seq::empty();
        let mut k: usize = 0;
        while pending.len() > 0
            invariant
                rooms_wf(all),
                all.len() <= usize::MAX,
                keys_distinct(self.player_rooms@),
                k + pending@.len() == all.len(),
                pending@ == all.subrange(k as int, all.len() as int),
                stale.len() == k,
                self.rooms@ == kept_rooms(all.take(k as int), stale),
                pairs_map(self.player_rooms@) == map0.remove_keys(stale_members(all.take(k as int), stale)),
                forall|j: int| 0 <= j < k ==> stale[j] == idle_rooms(all, now, max_inactive_time)[j],
            decreases pending@.len(),
        {
            let room = pending.remove(0);
            proof {
                assert(room == all[k as int]);
                assert(all.take(k + 1).drop_last() =~= all.take(k as int));
                assert(all.take(k + 1).last() == room);
                lemma_kept_rooms(all.take(k as int), stale);
            }
            let idle = duration_between(&now, &room.last_updated);
            let is_stale = duration_longer(&idle, &max_inactive_time);
            let ghost before_map = pairs_map(self.player_rooms@);
            if is_stale {
                let ghost rooms_now = self.rooms@;
                let mut t: usize = 0;
                while t < room.players.len()
                    invariant
                        self.rooms@ == rooms_now,
                        t <= room.players@.len(),
                        keys_distinct(self.player_rooms@),
                        pairs_map(self.player_rooms@) == before_map.remove_keys(
                            Set::new(|p: Seq<char>| exists|q: int| 0 <= q < t && room.players@[q].id@ == p),
                        ),
                    decreases room.players@.len() - t,
                {
                    let ghost m0 = pairs_map(self.player_rooms@);
                    let id = room.players[t].id.clone();
                    match find_param(&self.player_rooms, &id) {
                        Some(j) => {
                            proof {
                                lemma_pairs_map_remove(self.player_rooms@, j as int);
                            }
                            self.player_rooms.remove(j);
                        },
                        None => {},
                    }
                    proof {
                        assert(pairs_map(self.player_rooms@) =~= before_map.remove_keys(
                            Set::new(|p: Seq<char>| exists|q: int| 0 <= q < t + 1 && room.players@[q].id@ == p),
                        ));
                    }
                    t = t + 1;
                }
                proof {
                    let s_old = stale_members(all.take(k as int), stale);
                    let s_new = stale_members(all.take(k + 1), stale.push(true));
                    let mine = Set::new(|p: Seq<char>| exists|q: int| 0 <= q < t && room.players@[q].id@ == p);
                    assert forall|p: Seq<char>| s_new.contains(p) <==> (s_old.contains(p) || mine.contains(p)) by {
                        if s_new.contains(p) {
                            let i = choose|i: int|
                                0 <= i < all.take(k + 1).len() && i < stale.push(true).len() && stale.push(true)[i]
                                    && #[trigger] has_member(all.take(k + 1)[i].players@, p);
                            if i < k {
                                assert(all.take(k + 1)[i] == all.take(k as int)[i]);
                                assert(stale.push(true)[i] == stale[i]);
                            } else {
                                let q = choose|q: int| 0 <= q < room.players@.len() && (#[trigger] room.players@[q]).id@ == p;
                            }
                        }
                        if s_old.contains(p) {
                            let i = choose|i: int|
                                0 <= i < all.take(k as int).len() && i < stale.len() && stale[i] && #[trigger] has_member(
                                    all.take(k as int)[i].players@,
                                    p,
                                );
                            assert(all.take(k + 1)[i] == all.take(k as int)[i]);
                            assert(stale.push(true)[i] == stale[i]);
                        }
                        if mine.contains(p) {
                            let q = choose|q: int| 0 <= q < t && room.players@[q].id@ == p;
                            assert(all.take(k + 1)[k as int] == room);
                            assert(has_member(all.take(k + 1)[k as int].players@, p));
                        }
                    }
                    assert(pairs_map(self.player_rooms@) =~= map0.remove_keys(s_new));
                    let new_stale = stale.push(true);
                    assert(new_stale.drop_last() =~= stale);
                    assert(kept_rooms(all.take(k + 1), new_stale) == kept_rooms(all.take(k as int), stale));
                    stale = new_stale;
                }
            } else {
                proof {
                    lemma_kept_rooms(all.take(k as int), stale);
                }
                self.rooms.push(room);
                proof {
                    let s_old = stale_members(all.take(k as int), stale);
                    let s_new = stale_members(all.take(k + 1), stale.push(false));
                    assert forall|p: Seq<char>| s_new.contains(p) <==> s_old.contains(p) by {
                        if s_new.contains(p) {
                            let i = choose|i: int|
                                0 <= i < all.take(k + 1).len() && i < stale.push(false).len() && stale.push(false)[i]
                                    && #[trigger] has_member(all.take(k + 1)[i].players@, p);
                            assert(i < k);
                            assert(all.take(k + 1)[i] == all.take(k as int)[i]);
                            assert(stale.push(false)[i] == stale[i]);
                        }
                        if s_old.contains(p) {
                            let i = choose|i: int|
                                0 <= i < all.take(k as int).len() && i < stale.len() && stale[i] && #[trigger] has_member(
                                    all.take(k as int)[i].players@,
                                    p,
                                );
                            assert(all.take(k + 1)[i] == all.take(k as int)[i]);
                            assert(stale.push(false)[i] == stale[i]);
                        }
                    }
                    assert(s_new =~= s_old);
                    let new_stale = stale.push(false);
                    assert(new_stale.drop_last() =~= stale);
                    assert(kept_rooms(all.take(k + 1), new_stale) == kept_rooms(all.take(k as int), stale).push(room));
                    stale = new_stale;
                }
            }
            k = k + 1;
            proof {
                assert(pending@ =~= all.subrange(k as int, all.len() as int));
            }
        }
        proof {
            assert(all.take(k as int) =~= all);
            assert(stale =~= idle_rooms(all, now, max_inactive_time));
            lemma_kept_rooms(all, stale);
            assert(self.rooms@ == kept_rooms(all, stale));
            assert(pairs_map(self.player_rooms@) == map0.remove_keys(stale_members(all, stale)));
            assert(old(self).rooms() == all);
            assert(old(self).player_map() == map0);
            assert(self.rooms() == kept_rooms(old(self).rooms(), stale));
            assert(self.player_map() == old(self).player_map().remove_keys(stale_members(old(self).rooms(), stale)));
            assert(stale.len() == old(self).rooms().len());
            lemma_cleanup_drops_exactly_idle_rooms(old(self).rooms(), self.rooms(), now, max_inactive_time);
        }
    }

    /// Drops the rooms idle for longer than `max_inactive_time`, judged by
    /// the clock read once, and forgets where their members were (see
    /// `cleanup_inactive_rooms_at`).
    pub fn cleanup_inactive_rooms(&mut self, max_inactive_time: Duration)
        requires
            old(self).wf(),
        ensures
            final(self).wf(),
            exists|now: Instant|
                final(self).rooms() == kept_rooms(old(self).rooms(), #[trigger] idle_rooms(old(self).rooms(), now, max_inactive_time))
                    && final(self).player_map() == old(self).player_map().remove_keys(
                    stale_members(old(self).rooms(), idle_rooms(old(self).rooms(), now, max_inactive_time)),
                ) && (forall|i: int|
                    0 <= i < old(self).rooms().len() ==> (final(self).rooms().contains(#[trigger] old(self).rooms()[i])
                        <==> !longer_than(time_between(now, old(self).rooms()[i].last_updated), max_inactive_time))),
    {
        let now = instant_now();
        self.cleanup_inactive_rooms_at(now, max_inactive_time);
    }
}

/// For each room, whether it has been idle for longer than
/// `max_inactive_time` at `now`.
pub open spec fn idle_rooms(rooms: Seq<Room>, now: Instant, max_inactive_time: Duration) -> Seq<bool> {
    Seq::new(rooms.len(), |i: int| longer_than(time_between(now, rooms[i].last_updated), max_inactive_time))
}


impl RoomManager {
    /// Mutable access to the room with code `room_code`. Changing its code
    /// through this access breaks the lookup by code.
    pub fn get_room_mut(&mut self, room_code: &String) -> (r: Option<&mut Room>)
        requires
            old(self).wf(),
        ensures
            has_room(old(self).rooms(), room_code@) ==> {
                let i = room_index(old(self).rooms(), room_code@);
                &&& r is Some
                &&& *r.unwrap() == old(self).rooms()[i]
                &&& final(self).rooms() == old(self).rooms().update(i, *final(r.unwrap()))
                &&& final(self).player_map() == old(self).player_map()
            },
            !has_room(old(self).rooms(), room_code@) ==> r is None && *final(self) == *old(self),
    {
        match self.find_room(room_code) {
            Some(i) => Some(&mut self.rooms[i]),
            None => None,
        }
    }

    /// Mutable access to the room `player_id` is in.
    pub fn get_player_room_mut(&mut self, player_id: &String) -> (r: Option<&mut Room>)
        requires
            old(self).wf(),
        ensures
            old(self).player_map().contains_key(player_id@) && has_room(
                old(self).rooms(),
                old(self).player_map()[player_id@],
            ) ==> {
                let i = room_index(old(self).rooms(), old(self).player_map()[player_id@]);
                &&& r is Some
                &&& *r.unwrap() == old(self).rooms()[i]
                &&& final(self).rooms() == old(self).rooms().update(i, *final(r.unwrap()))
                &&& final(self).player_map() == old(self).player_map()
            },
            !(old(self).player_map().contains_key(player_id@) && has_room(
                old(self).rooms(),
                old(self).player_map()[player_id@],
            )) ==> r is None && *final(self) == *old(self),
    {
        match self.find_player_room(player_id) {
            Some(i) => Some(&mut self.rooms[i]),
            None => None,
        }
    }
}

/// Why a game action from a member of `room` (or from nobody's room) is
/// refused: no game module is built into the server, so every action is;
/// the answer says what is missing.
pub open spec fn action_refusal_text(room: Option<Room>) -> Seq<char> {
    match room {
        None => "ルームに参加していません"@,
        Some(r) => if !r.game_in_progress {
            "ゲームが開始されていません"@
        } else if r.game_type@ == "minesweeper"@ {
            "マインスイーパーゲームモジュールがロードされていません"@
        } else {
            "未対応のゲームタイプ: "@ + r.game_type@
        },
    }
}

impl RoomManager {
    /// The refusal of a game action sent by `player_id`.
    pub fn game_action_refusal(&self, player_id: &String) -> (r: String)
        requires
            self.wf(),
        ensures
            r@ == action_refusal_text(
                if self.player_map().contains_key(player_id@) && has_room(
                    self.rooms(),
                    self.player_map()[player_id@],
                ) {
                    Some(self.rooms()[room_index(self.rooms(), self.player_map()[player_id@])])
                } else {
                    None
                },
            ),
    {
        match self.get_player_room(player_id) {
            None => String::from_str("ルームに参加していません"),
            Some(room) => {
                if !room.game_in_progress {
                    String::from_str("ゲームが開始されていません")
                } else {
                    let kind = String::from_str("minesweeper");
                    if room.game_type == kind {
                        String::from_str("マインスイーパーゲームモジュールがロードされていません")
                    } else {
                        let mut e = String::from_str("未対応のゲームタイプ: ");
                        e.append(room.game_type.as_str());
                        e
                    }
                }
            },
        }
    }
}

} // verus!
