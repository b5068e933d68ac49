//! Lobby rooms: named rooms with an owner, a player limit, spectators and
//! a public flag, kept by id. Messages for the members are recorded in an
//! outbox; delivering them is left to the caller.

use vstd::prelude::*;
use std::time::{Duration, Instant};
use crate::platform::{duration_between, duration_longer, instant_now, longer_than, new_uuid_string, time_between};
use crate::server::room::{RoomInfo, RoomState};
use crate::server::utils::current_timestamp;

verus! {

/// A member of a lobby room.
#[derive(Debug, Clone)]
pub struct Player {
    pub id: String,
    pub name: String,
    /// When the member was last heard from.
    pub last_ping: Instant,
}

/// A message for the members listed in `to`.
#[derive(Debug, Clone)]
pub struct Outgoing {
    pub to: Vec<String>,
    pub message: String,
}

/// Each member id occurs once.
pub open spec fn member_ids_distinct(players: Seq<Player>) -> bool {
    forall|i: int, j: int|
        0 <= i < players.len() && 0 <= j < players.len() && i != j ==> (#[trigger] players[i]).id@ != (
        #[trigger] players[j]).id@
}

/// `players` has a member with id `id`.
pub open spec fn is_member(players: Seq<Player>, id: Seq<char>) -> bool {
    exists|i: int| 0 <= i < players.len() && (#[trigger] players[i]).id@ == id
}

/// Each string occurs once.
pub open spec fn ids_distinct(s: Seq<String>) -> bool {
    forall|i: int, j: int| 0 <= i < s.len() && 0 <= j < s.len() && i != j ==> (#[trigger] s[i])@ != (#[trigger] s[j])@
}

/// `s` holds `id`.
pub open spec fn holds_id(s: Seq<String>, id: Seq<char>) -> bool {
    exists|i: int| 0 <= i < s.len() && (#[trigger] s[i])@ == id
}

/// The ids of `players` other than `excluded`, in order.
pub open spec fn ids_except(players: Seq<Player>, excluded: Seq<char>) -> Seq<Seq<char>> {
    players.filter(|p: Player| p.id@ != excluded).map_values(|p: Player| p.id@)
}

/// Where member `id` sits.
fn member_at(players: &Vec<Player>, id: &str) -> (r: Option<usize>)
    ensures
        r is None <==> !is_member(players@, id@),
        r matches Some(i) ==> i < players@.len() && players@[i as int].id@ == id@,
{
    let key = String::from_str(id);
    let mut i: usize = 0;
    while i < players.len()
        invariant
            i <= players@.len(),
            key@ == id@,
            forall|j: int| 0 <= j < i ==> (#[trigger] players@[j]).id@ != id@,
        decreases players@.len() - i,
    {
        if players[i].id == key {
            return Some(i);
        }
        i = i + 1;
    }
    None
}

/// Where `id` is in `s`.
fn id_at(s: &Vec<String>, id: &str) -> (r: Option<usize>)
    ensures
        r is None <==> !holds_id(s@, id@),
        r matches Some(i) ==> i < s@.len() && s@[i as int]@ == id@,
{
    let key = String::from_str(id);
    let mut i: usize = 0;
    while i < s.len()
        invariant
            i <= s@.len(),
            key@ == id@,
            forall|j: int| 0 <= j < i ==> (#[trigger] s@[j])@ != id@,
        decreases s@.len() - i,
    {
        if s[i] == key {
            return Some(i);
        }
        i = i + 1;
    }
    None
}

/// A copy of `info`.
pub(crate) fn copy_info(info: &RoomInfo) -> (r: RoomInfo)
    ensures
        r == *info,
{
    RoomInfo {
        id: info.id.clone(),
        name: info.name.clone(),
        owner_id: info.owner_id.clone(),
        max_players: info.max_players,
        player_count: info.player_count,
        is_public: info.is_public,
        state: info.state,
        game_type: info.game_type.clone(),
        created_at: info.created_at,
    }
}

/// A lobby room.
#[derive(Debug)]
pub struct GameRoom {
    pub info: RoomInfo,
    /// The members, in the order they joined.
    pub players: Vec<Player>,
    pub spectators: Vec<String>,
    pub last_activity: Instant,
    /// Messages waiting for delivery.
    pub outbox: Vec<Outgoing>,
}

impl GameRoom {
    /// Member ids and spectators are each listed once, and the member
    /// count is right.
    pub open spec fn wf(self) -> bool {
        &&& member_ids_distinct(self.players@)
        &&& ids_distinct(self.spectators@)
        &&& self.info.player_count == self.players@.len()
    }

    /// A waiting room named `name` with its owner as the only member.
    pub fn new(
        name: String,
        owner_id: String,
        owner_name: String,
        max_players: usize,
        is_public: bool,
        game_type: String,
    ) -> (r: GameRoom)
        ensures
            r.wf(),
            r.info.id@.len() == 36,
            r.info.name == name,
            r.info.owner_id == owner_id,
            r.info.max_players == max_players,
            r.info.is_public == is_public,
            r.info.state == RoomState::Waiting,
            r.info.game_type == game_type,
            r.players@.len() == 1,
            r.players@[0].id == owner_id,
            r.players@[0].name == owner_name,
            r.players@[0].last_ping == r.last_activity,
            r.spectators@.len() == 0,
            r.outbox@.len() == 0,
    {
        let room_id = new_uuid_string();
        let now = instant_now();
        let mut players: Vec<Player> = Vec::new();
        players.push(Player { id: owner_id.clone(), name: owner_name, last_ping: now });
        let created_at = current_timestamp();
        GameRoom {
            info: RoomInfo {
                id: room_id,
                name,
                owner_id,
                max_players,
                player_count: 1,
                is_public,
                state: RoomState::Waiting,
                game_type,
                created_at,
            },
            players,
            spectators: Vec::new(),
            last_activity: now,
            outbox: Vec::new(),
        }
    }

    /// `after` is this room with `player_id` seated under `player_name`: a
    /// member with that id is replaced, the other members stay, and only
    /// the member count of the description changes.
    pub open spec fn seated_as(self, after: Self, player_id: String, player_name: String) -> bool {
        &&& is_member(after.players@, player_id@)
        &&& forall|id: Seq<char>| #[trigger] is_member(after.players@, id) == (is_member(self.players@, id) || id == player_id@)
        &&& forall|i: int| 0 <= i < after.players@.len() && (#[trigger] after.players@[i]).id@ == player_id@
            ==> after.players@[i].name == player_name
        &&& forall|i: int| 0 <= i < after.players@.len() && (#[trigger] after.players@[i]).id@ != player_id@
            ==> self.players@.contains(after.players@[i])
        &&& after.info == (RoomInfo { player_count: after.info.player_count, ..self.info })
        &&& after.spectators == self.spectators
        &&& after.outbox == self.outbox
    }

    /// Seats `player_id` unless the room is full (a member with that id is
    /// replaced in place); the room is active now.
    pub fn add_player(&mut self, player_id: String, player_name: String) -> (r: bool)
        requires
            old(self).wf(),
        ensures
            final(self).wf(),
            r == (old(self).players@.len() < old(self).info.max_players),
            !r ==> *final(self) == *old(self),
            r ==> old(self).seated_as(*final(self), player_id, player_name),
    {
        if self.players.len() >= self.info.max_players {
            return false;
        }
        let now = instant_now();
        let ghost before = self.players@;
        match member_at(&self.players, player_id.as_str()) {
            Some(i) => {
                self.players.set(i, Player { id: player_id, name: player_name, last_ping: now });
                proof {
                    assert forall|a: int, b: int|
                        0 <= a < self.players@.len() && 0 <= b < self.players@.len() && a != b implies (
                        #[trigger] self.players@[a]).id@ != (#[trigger] self.players@[b]).id@ by {
                        if a != i {
                            assert(self.players@[a] == before[a]);
                        }
                        if b != i {
                            assert(self.players@[b] == before[b]);
                        }
                    }
                    assert forall|id: Seq<char>| #[trigger] is_member(self.players@, id) == (is_member(before, id)
                        || id == player_id@) by {
                        if is_member(before, id) {
                            let j = choose|j: int| 0 <= j < before.len() && (#[trigger] before[j]).id@ == id;
                            if j != i {
                                assert(self.players@[j] == before[j]);
                            }
                        }
                        if is_member(self.players@, id) {
                            let j = choose|j: int| 0 <= j < self.players@.len() && (#[trigger] self.players@[j]).id@ == id;
                            if j != i {
                                assert(self.players@[j] == before[j]);
                            }
                        }
                        assert(self.players@[i as int].id@ == player_id@);
                    }
                    assert forall|j: int| 0 <= j < self.players@.len() && (#[trigger] self.players@[j]).id@ != player_id@
                        implies before.contains(self.players@[j]) by {
                        assert(j != i);
                        assert(self.players@[j] == before[j]);
                    }
                }
            },
            None => {
                self.players.push(Player { id: player_id, name: player_name, last_ping: now });
                proof {
                    assert forall|a: int, b: int|
                        0 <= a < self.players@.len() && 0 <= b < self.players@.len() && a != b implies (
                        #[trigger] self.players@[a]).id@ != (#[trigger] self.players@[b]).id@ by {
                        if a < before.len() {
                            assert(self.players@[a] == before[a]);
                        }
                        if b < before.len() {
                            assert(self.players@[b] == before[b]);
                        }
                    }
                    assert forall|id: Seq<char>| #[trigger] is_member(self.players@, id) == (is_member(before, id)
                        || id == player_id@) by {
                        if is_member(before, id) {
                            let j = choose|j: int| 0 <= j < before.len() && (#[trigger] before[j]).id@ == id;
                            assert(self.players@[j] == before[j]);
                        }
                        if is_member(self.players@, id) {
                            let j = choose|j: int| 0 <= j < self.players@.len() && (#[trigger] self.players@[j]).id@ == id;
                            if j < before.len() {
                                assert(self.players@[j] == before[j]);
                            }
                        }
                        assert(self.players@[before.len() as int].id@ == player_id@);
                    }
                    assert forall|j: int| 0 <= j < self.players@.len() && (#[trigger] self.players@[j]).id@ != player_id@
                        implies before.contains(self.players@[j]) by {
                        assert(j < before.len());
                        assert(self.players@[j] == before[j]);
                    }
                }
            },
        }
        self.info.player_count = self.players.len();
        self.last_activity = now;
        true
    }
}

/// The ids of `players`, in order.
pub open spec fn member_ids(players: Seq<Player>) -> Seq<Seq<char>> {
    players.map_values(|p: Player| p.id@)
}

/// The ids of the members, in order, other than `excluded` when given.
pub(crate) fn recipients(players: &Vec<Player>, excluded: Option<&str>) -> (r: Vec<String>)
    ensures
        r@.map_values(|s: String| s@) == match excluded {
            Some(e) => ids_except(players@, e@),
            None => member_ids(players@),
        },
{
    let mut r: Vec<String> = Vec::new();
    let mut i: usize = 0;
    let ex: Option<String> = match excluded {
        Some(e) => Some(String::from_str(e)),
        None => None,
    };
    while i < players.len()
        invariant
            i <= players@.len(),
            match excluded {
                Some(e) => ex matches Some(x) && x@ == e@,
                None => ex is None,
            },
            r@.map_values(|s: String| s@) == match excluded {
                Some(e) => ids_except(players@.take(i as int), e@),
                None => member_ids(players@.take(i as int)),
            },
        decreases players@.len() - i,
    {
        let keep = match &ex {
            Some(x) => !(players[i].id == *x),
            None => true,
        };
        let ghost before = r@;
        let ghost p = players@[i as int];
        if keep {
            r.push(players[i].id.clone());
        }
        proof {
            let t0 = players@.take(i as int);
            let t1 = players@.take(i + 1);
            let h = |s: String| s@;
            let g = |q: Player| q.id@;
            assert(t1 =~= t0.push(p));
            if keep {
                assert(r@ == before.push(p.id));
                assert(r@.map_values(h) =~= before.map_values(h).push(p.id@));
            } else {
                assert(r@ == before);
            }
            match excluded {
                Some(e) => {
                    let f = |q: Player| q.id@ != e@;
                    assert(t1.filter(f) =~= if f(p) {
                        t0.filter(f).push(p)
                    } else {
                        t0.filter(f)
                    }) by {
                        t0.filter_lemma(f);
                        t1.filter_lemma(f);
                        reveal(Seq::filter);
                        assert(t1.drop_last() =~= t0);
                    }
                    assert(keep == f(p));
                    if f(p) {
                        assert(t0.filter(f).push(p).map_values(g) =~= t0.filter(f).map_values(g).push(p.id@));
                    }
                    assert(r@.map_values(h) =~= ids_except(t1, e@));
                },
                None => {
                    assert(keep);
                    assert(t0.push(p).map_values(g) =~= t0.map_values(g).push(p.id@));
                    assert(r@.map_values(h) =~= member_ids(t1));
                },
            }
        }
        i = i + 1;
    }
    proof {
        assert(players@.take(i as int) =~= players@);
    }
    r
}

impl GameRoom {
    /// Takes member `player_id` out; when the owner leaves a room that
    /// still has members, the first remaining member owns it. The room is
    /// active at `now` either way.
    fn remove_player_at(&mut self, player_id: &str, now: Instant) -> (r: bool)
        requires
            old(self).wf(),
        ensures
            final(self).wf(),
            r == is_member(old(self).players@, player_id@),
            final(self).last_activity == now,
            final(self).spectators == old(self).spectators,
            final(self).outbox == old(self).outbox,
            !r ==> final(self).players == old(self).players && final(self).info == old(self).info,
            r ==> exists|i: int|
                0 <= i < old(self).players@.len() && (#[trigger] old(self).players@[i]).id@ == player_id@
                    && final(self).players@ == old(self).players@.remove(i),
            r ==> final(self).info == (RoomInfo {
                player_count: final(self).info.player_count,
                owner_id: final(self).info.owner_id,
                ..old(self).info
            }),
            r && player_id@ == old(self).info.owner_id@ && final(self).players@.len() > 0 ==> final(self).info.owner_id
                == final(self).players@[0].id,
            !(r && player_id@ == old(self).info.owner_id@ && final(self).players@.len() > 0)
                ==> final(self).info.owner_id == old(self).info.owner_id,
    {
        let ghost before = self.players@;
        let removed = match member_at(&self.players, player_id) {
            Some(i) => {
                self.players.remove(i);
                proof {
                    assert(self.players@ =~= before.remove(i as int));
                    assert forall|a: int, b: int|
                        0 <= a < self.players@.len() && 0 <= b < self.players@.len() && a != b implies (
                        #[trigger] self.players@[a]).id@ != (#[trigger] self.players@[b]).id@ by {
                        let a0 = if a < i { a } else { a + 1 };
                        let b0 = if b < i { b } else { b + 1 };
                        assert(self.players@[a] == before[a0]);
                        assert(self.players@[b] == before[b0]);
                    }
                }
                true
            },
            None => false,
        };
        if removed {
            self.info.player_count = self.players.len();
            let leaving = String::from_str(player_id);
            let owner_left = self.info.owner_id == leaving;
            if owner_left && self.players.len() > 0 {
                self.info.owner_id = self.players[0].id.clone();
            }
        }
        self.last_activity = now;
        removed
    }

    /// `after` is this room once member `player_id` was taken out, when
    /// `removed`, and unchanged but for its activity time otherwise; when
    /// the owner leaves a room that still has members, the first remaining
    /// member owns it.
    pub open spec fn left_as(self, after: Self, player_id: Seq<char>, removed: bool) -> bool {
        &&& after.spectators == self.spectators
        &&& after.outbox == self.outbox
        &&& !removed ==> after.players == self.players && after.info == self.info
        &&& removed ==> exists|i: int|
            0 <= i < self.players@.len() && (#[trigger] self.players@[i]).id@ == player_id
                && after.players@ == self.players@.remove(i)
        &&& removed ==> after.info == (RoomInfo {
            player_count: after.info.player_count,
            owner_id: after.info.owner_id,
            ..self.info
        })
        &&& removed && player_id == self.info.owner_id@ && after.players@.len() > 0 ==> after.info.owner_id
            == after.players@[0].id
        &&& !(removed && player_id == self.info.owner_id@ && after.players@.len() > 0)
            ==> after.info.owner_id == self.info.owner_id
    }

    /// Takes member `player_id` out (see `remove_player_at`), now.
    pub fn remove_player(&mut self, player_id: &str) -> (r: bool)
        requires
            old(self).wf(),
        ensures
            final(self).wf(),
            r == is_member(old(self).players@, player_id@),
            old(self).left_as(*final(self), player_id@, r),
    {
        let now = instant_now();
        self.remove_player_at(player_id, now)
    }

    /// Adds spectator `spectator_id`; tells whether it was new.
    pub fn add_spectator(&mut self, spectator_id: String) -> (r: bool)
        requires
            old(self).wf(),
        ensures
            final(self).wf(),
            r == !holds_id(old(self).spectators@, spectator_id@),
            forall|id: Seq<char>| #[trigger] holds_id(final(self).spectators@, id) == (holds_id(old(self).spectators@, id)
                || id == spectator_id@),
            final(self).players == old(self).players,
            final(self).info == old(self).info,
            final(self).outbox == old(self).outbox,
    {
        let now = instant_now();
        let fresh = id_at(&self.spectators, spectator_id.as_str()).is_none();
        let ghost before = self.spectators@;
        let ghost added = spectator_id@;
        if fresh {
            self.spectators.push(spectator_id);
            proof {
                assert forall|a: int, b: int|
                    0 <= a < self.spectators@.len() && 0 <= b < self.spectators@.len() && a != b implies (
                    #[trigger] self.spectators@[a])@ != (#[trigger] self.spectators@[b])@ by {
                    if a < before.len() {
                        assert(self.spectators@[a] == before[a]);
                    }
                    if b < before.len() {
                        assert(self.spectators@[b] == before[b]);
                    }
                }
                assert forall|id: Seq<char>| #[trigger] holds_id(self.spectators@, id) == (holds_id(before, id)
                    || id == added) by {
                    if holds_id(before, id) {
                        let j = choose|j: int| 0 <= j < before.len() && (#[trigger] before[j])@ == id;
                        assert(self.spectators@[j] == before[j]);
                    }
                    if holds_id(self.spectators@, id) {
                        let j = choose|j: int| 0 <= j < self.spectators@.len() && (#[trigger] self.spectators@[j])@ == id;
                        if j < before.len() {
                            assert(self.spectators@[j] == before[j]);
                        }
                    }
                    assert(self.spectators@[before.len() as int]@ == added);
                }
            }
        }
        self.last_activity = now;
        fresh
    }

    /// Removes spectator `spectator_id`; tells whether it was there.
    pub fn remove_spectator(&mut self, spectator_id: &str) -> (r: bool)
        requires
            old(self).wf(),
        ensures
            final(self).wf(),
            r == holds_id(old(self).spectators@, spectator_id@),
            forall|id: Seq<char>| #[trigger] holds_id(final(self).spectators@, id) == (holds_id(old(self).spectators@, id)
                && id != spectator_id@),
            final(self).players == old(self).players,
            final(self).info == old(self).info,
            final(self).outbox == old(self).outbox,
    {
        let now = instant_now();
        let ghost before = self.spectators@;
        let found = match id_at(&self.spectators, spectator_id) {
            Some(i) => {
                self.spectators.remove(i);
                proof {
                    assert(self.spectators@ =~= before.remove(i as int));
                    assert forall|a: int, b: int|
                        0 <= a < self.spectators@.len() && 0 <= b < self.spectators@.len() && a != b implies (
                        #[trigger] self.spectators@[a])@ != (#[trigger] self.spectators@[b])@ by {
                        let a0 = if a < i { a } else { a + 1 };
                        let b0 = if b < i { b } else { b + 1 };
                        assert(self.spectators@[a] == before[a0]);
                        assert(self.spectators@[b] == before[b0]);
                    }
                    assert forall|id: Seq<char>| #[trigger] holds_id(self.spectators@, id) == (holds_id(before, id)
                        && id != spectator_id@) by {
                        if holds_id(before, id) && id != spectator_id@ {
                            let j = choose|j: int| 0 <= j < before.len() && (#[trigger] before[j])@ == id;
                            assert(j != i);
                            if j < i {
                                assert(self.spectators@[j] == before[j]);
                            } else {
                                assert(self.spectators@[j - 1] == before[j]);
                            }
                        }
                        if holds_id(self.spectators@, id) {
                            let j = choose|j: int| 0 <= j < self.spectators@.len() && (#[trigger] self.spectators@[j])@ == id;
                            let j0 = if j < i { j } else { j + 1 };
                            assert(self.spectators@[j] == before[j0]);
                            assert(before[j0]@ != before[i as int]@);
                        }
                    }
                }
                true
            },
            None => false,
        };
        self.last_activity = now;
        found
    }

    /// Moves the room to `state`.
    pub fn set_state(&mut self, state: RoomState)
        ensures
            final(self).info == (RoomInfo { state, ..old(self).info }),
            final(self).players == old(self).players,
            final(self).spectators == old(self).spectators,
            final(self).outbox == old(self).outbox,
    {
        self.info.state = state;
        self.last_activity = instant_now();
    }

    /// Queues `message` for every member.
    pub fn broadcast_message(&mut self, message: &str)
        ensures
            final(self).outbox@.len() == old(self).outbox@.len() + 1,
            final(self).outbox@.take(old(self).outbox@.len() as int) == old(self).outbox@,
            final(self).outbox@.last().message@ == message@,
            final(self).outbox@.last().to@.map_values(|s: String| s@) == member_ids(old(self).players@),
            *final(self) == (GameRoom { outbox: final(self).outbox, ..*old(self) }),
    {
        let to = recipients(&self.players, None);
        self.outbox.push(Outgoing { to, message: String::from_str(message) });
        proof {
            assert(self.outbox@.take(old(self).outbox@.len() as int) =~= old(self).outbox@);
        }
    }

    /// Queues `message` for every member but `excluded_player_id`.
    pub fn broadcast_message_except(&mut self, excluded_player_id: &str, message: &str)
        ensures
            final(self).outbox@.len() == old(self).outbox@.len() + 1,
            final(self).outbox@.take(old(self).outbox@.len() as int) == old(self).outbox@,
            final(self).outbox@.last().message@ == message@,
            final(self).outbox@.last().to@.map_values(|s: String| s@) == ids_except(old(self).players@, excluded_player_id@),
            *final(self) == (GameRoom { outbox: final(self).outbox, ..*old(self) }),
    {
        let to = recipients(&self.players, Some(excluded_player_id));
        self.outbox.push(Outgoing { to, message: String::from_str(message) });
        proof {
            assert(self.outbox@.take(old(self).outbox@.len() as int) =~= old(self).outbox@);
        }
    }
}

/// Whether `p` has not been heard from for longer than `timeout` at `now`.
pub open spec fn expired(p: Player, now: Instant, timeout: Duration) -> bool {
    longer_than(time_between(now, p.last_ping), timeout)
}

/// The members of `g` still heard from at `now`, in order.
pub open spec fn kept_players(g: GameRoom, now: Instant, timeout: Duration) -> Seq<Player> {
    g.players@.filter(|p: Player| !expired(p, now, timeout))
}

/// When `g` was last active, after its expired members are dropped at
/// `now`: then, when someone was dropped.
pub open spec fn activity_after(g: GameRoom, now: Instant, timeout: Duration) -> Instant {
    if kept_players(g, now, timeout).len() < g.players@.len() {
        now
    } else {
        g.last_activity
    }
}

/// `after` is `g` without the members expired at `now`: when the owner was
/// among them, the first remaining member owns the room.
pub open spec fn expired_into(g: GameRoom, after: GameRoom, now: Instant, timeout: Duration) -> bool {
    let kept = kept_players(g, now, timeout);
    &&& after.players@ == kept
    &&& after.last_activity == activity_after(g, now, timeout)
    &&& after.spectators == g.spectators
    &&& after.outbox == g.outbox
    &&& after.info == (RoomInfo { player_count: after.info.player_count, owner_id: after.info.owner_id, ..g.info })
    &&& after.info.player_count == kept.len()
    &&& after.info.owner_id == if is_member(g.players@, g.info.owner_id@) && !is_member(kept, g.info.owner_id@)
        && kept.len() > 0 {
        kept[0].id
    } else {
        g.info.owner_id
    }
}

/// Filtering by a test that every element passes keeps the sequence.
proof fn lemma_filter_all<A>(s: Seq<A>, f: spec_fn(A) -> bool)
    requires
        forall|i: int| 0 <= i < s.len() ==> f(#[trigger] s[i]),
    ensures
        s.filter(f) == s,
    decreases s.len(),
{
    reveal(Seq::filter);
    if s.len() > 0 {
        let d = s.drop_last();
        assert forall|i: int| 0 <= i < d.len() implies f(#[trigger] d[i]) by {
            assert(d[i] == s[i]);
        }
        lemma_filter_all(d, f);
        assert(f(s[s.len() - 1]));
        assert(d.push(s.last()) =~= s);
    }
}

/// When no member of `g` has expired at `now`, dropping the expired members
/// changes neither the members nor the room's last activity; when some
/// member has expired, the room was active at `now`.
pub proof fn lemma_expiry_keeps_activity(g: GameRoom, after: GameRoom, now: Instant, timeout: Duration)
    requires
        expired_into(g, after, now, timeout),
    ensures
        (forall|i: int| 0 <= i < g.players@.len() ==> !expired(#[trigger] g.players@[i], now, timeout))
            ==> after.players@ == g.players@ && after.last_activity == g.last_activity,
        (exists|i: int| 0 <= i < g.players@.len() && expired(#[trigger] g.players@[i], now, timeout))
            ==> after.last_activity == now,
{
    let f = |p: Player| !expired(p, now, timeout);
    if forall|i: int| 0 <= i < g.players@.len() ==> !expired(#[trigger] g.players@[i], now, timeout) {
        assert forall|i: int| 0 <= i < g.players@.len() implies f(#[trigger] g.players@[i]) by {}
        lemma_filter_all(g.players@, f);
        assert(kept_players(g, now, timeout) == g.players@);
    }
    if exists|i: int| 0 <= i < g.players@.len() && expired(#[trigger] g.players@[i], now, timeout) {
        let i = choose|i: int| 0 <= i < g.players@.len() && expired(#[trigger] g.players@[i], now, timeout);
        g.players@.lemma_filter_len(f);
        let k = kept_players(g, now, timeout);
        if k.len() >= g.players@.len() {
            // every member would then be kept, the expired one too
            lemma_filter_keeps_all_or_drops(g.players@, f, i);
        }
    }
}

/// A filter that keeps as many elements as there are keeps each of them.
proof fn lemma_filter_keeps_all_or_drops<A>(s: Seq<A>, f: spec_fn(A) -> bool, i: int)
    requires
        0 <= i < s.len(),
        !f(s[i]),
    ensures
        s.filter(f).len() < s.len(),
    decreases s.len(),
{
    reveal(Seq::filter);
    let d = s.drop_last();
    d.lemma_filter_len(f);
    if i < s.len() - 1 {
        assert(d[i] == s[i]);
        lemma_filter_keeps_all_or_drops(d, f, i);
    }
}

/// With no member of `g` expired at `now`, everyone is kept and the last
/// activity stays.
proof fn lemma_nobody_expired(g: GameRoom, now: Instant, timeout: Duration)
    requires
        forall|i: int| 0 <= i < g.players@.len() ==> !expired(#[trigger] g.players@[i], now, timeout),
    ensures
        kept_players(g, now, timeout) == g.players@,
        activity_after(g, now, timeout) == g.last_activity,
{
    let f = |p: Player| !expired(p, now, timeout);
    assert forall|i: int| 0 <= i < g.players@.len() implies f(#[trigger] g.players@[i]) by {}
    lemma_filter_all(g.players@, f);
}

/// A room none of whose members has expired survives a clean-up at `now`
/// exactly when it has a member and has not been idle for longer than
/// `room_timeout` since its last activity; if it survives, it keeps its
/// members and its last activity.
pub proof fn lemma_cleanup_judges_idle_rooms(
    m0: RoomManager,
    m1: RoomManager,
    now: Instant,
    room_timeout: Duration,
    player_timeout: Duration,
    j: int,
)
    requires
        m0.wf(),
        m0.cleaned_up(m1, now, room_timeout, player_timeout),
        0 <= j < m0.rooms().len(),
        forall|i: int|
            0 <= i < m0.rooms()[j].players@.len() ==> !expired(#[trigger] m0.rooms()[j].players@[i], now, player_timeout),
    ensures
        has_room_id(m1.rooms(), m0.rooms()[j].info.id@) <==> (m0.rooms()[j].players@.len() > 0 && !longer_than(
            time_between(now, m0.rooms()[j].last_activity),
            room_timeout,
        )),
        forall|i: int|
            0 <= i < m1.rooms().len() && (#[trigger] m1.rooms()[i]).info.id@ == m0.rooms()[j].info.id@ ==> m1.rooms()[i].last_activity
                == m0.rooms()[j].last_activity && m1.rooms()[i].players@ == m0.rooms()[j].players@,
{
    let g = m0.rooms()[j];
    let id = g.info.id@;
    lemma_nobody_expired(g, now, player_timeout);
    assert forall|i: int|
        0 <= i < m1.rooms().len() && (#[trigger] m1.rooms()[i]).info.id@ == id implies survives(g, now, player_timeout, room_timeout)
            && m1.rooms()[i].last_activity == g.last_activity && m1.rooms()[i].players@ == g.players@ by {
        let k = choose|k: int|
            0 <= k < m0.rooms().len() && (#[trigger] m0.rooms()[k]).info.id@ == (#[trigger] m1.rooms()[i]).info.id@
                && expired_into(m0.rooms()[k], m1.rooms()[i], now, player_timeout) && survives(
                m0.rooms()[k],
                now,
                player_timeout,
                room_timeout,
            );
        if k != j {
            assert(m0.rooms@[k].info.id@ != m0.rooms@[j].info.id@);
        }
    }
    if has_room_id(m1.rooms(), id) {
        let i = choose|i: int| 0 <= i < m1.rooms().len() && (#[trigger] m1.rooms()[i]).info.id@ == id;
        assert(survives(g, now, player_timeout, room_timeout));
    }
    if g.players@.len() > 0 && !longer_than(time_between(now, g.last_activity), room_timeout) {
        assert(survives(g, now, player_timeout, room_timeout));
        assert(survives(m0.rooms()[j], now, player_timeout, room_timeout));
    }
}

/// A copy of `p`.
fn copy_player(p: &Player) -> (r: Player)
    ensures
        r == *p,
{
    Player { id: p.id.clone(), name: p.name.clone(), last_ping: p.last_ping }
}

impl GameRoom {
    /// Drops the members not heard from for longer than `timeout` at `now`.
    fn expire_players(&mut self, now: Instant, timeout: Duration)
        requires
            old(self).wf(),
        ensures
            final(self).wf(),
            expired_into(*old(self), *final(self), now, timeout),
    {
        let ghost g = *self;
        let ghost f = |p: Player| !expired(p, now, timeout);
        let mut kept: Vec<Player> = Vec::new();
        let mut i: usize = 0;
        while i < self.players.len()
            invariant
                *self == g,
                i <= g.players@.len(),
                member_ids_distinct(g.players@),
                f == (|p: Player| !expired(p, now, timeout)),
                kept@ == g.players@.take(i as int).filter(f),
                forall|a: int| #![trigger kept@[a]] 0 <= a < kept@.len() ==> exists|j: int| 0 <= j < i && (#[trigger] g.players@[j]) == kept@[a],
                member_ids_distinct(kept@),
            decreases g.players@.len() - i,
        {
            let gone = duration_longer(&duration_between(&now, &self.players[i].last_ping), &timeout);
            let ghost before = kept@;
            let ghost p = g.players@[i as int];
            if !gone {
                kept.push(copy_player(&self.players[i]));
            }
            proof {
                let t0 = g.players@.take(i as int);
                let t1 = g.players@.take(i + 1);
                assert(t1 =~= t0.push(p));
                assert(t1.filter(f) =~= if f(p) {
                    t0.filter(f).push(p)
                } else {
                    t0.filter(f)
                }) by {
                    t0.filter_lemma(f);
                    t1.filter_lemma(f);
                    reveal(Seq::filter);
                    assert(t1.drop_last() =~= t0);
                }
                assert(gone == expired(p, now, timeout));
                assert forall|a: int| #![trigger kept@[a]] 0 <= a < kept@.len() implies exists|j: int| 0 <= j < i + 1 && (#[trigger] g.players@[j])
                    == kept@[a] by {
                    if a < before.len() {
                        let j = choose|j: int| 0 <= j < i && (#[trigger] g.players@[j]) == before[a];
                        assert(g.players@[j] == kept@[a]);
                    } else {
                        assert(g.players@[i as int] == kept@[a]);
                    }
                }
                assert forall|a: int, b: int|
                    0 <= a < kept@.len() && 0 <= b < kept@.len() && a != b implies (#[trigger] kept@[a]).id@ != (
                    #[trigger] kept@[b]).id@ by {
                    if a < before.len() && b < before.len() {
                    } else if a < before.len() {
                        let j = choose|j: int| 0 <= j < i && (#[trigger] g.players@[j]) == before[a];
                        assert(kept@[a] == g.players@[j]);
                        assert(kept@[b] == g.players@[i as int]);
                    } else if b < before.len() {
                        let j = choose|j: int| 0 <= j < i && (#[trigger] g.players@[j]) == before[b];
                        assert(kept@[b] == g.players@[j]);
                        assert(kept@[a] == g.players@[i as int]);
                    }
                }
            }
            i = i + 1;
        }
        proof {
            assert(g.players@.take(i as int) =~= g.players@);
        }
        let removed_any = kept.len() < self.players.len();
        let owner = self.info.owner_id.clone();
        let owner_was_member = member_at(&self.players, owner.as_str()).is_some();
        let owner_kept = member_at(&kept, owner.as_str()).is_some();
        self.players = kept;
        self.info.player_count = self.players.len();
        if owner_was_member && !owner_kept && self.players.len() > 0 {
            self.info.owner_id = self.players[0].id.clone();
        }
        if removed_any {
            self.last_activity = now;
        }
    }
}

/// The lobby rooms, by id.
pub struct RoomManager {
    rooms: Vec<GameRoom>,
}

/// A room with id `id` is among `rooms`.
pub open spec fn has_room_id(rooms: Seq<GameRoom>, id: Seq<char>) -> bool {
    exists|i: int| 0 <= i < rooms.len() && (#[trigger] rooms[i]).info.id@ == id
}

/// Where the room with id `id` is, where there is one.
pub open spec fn room_at(rooms: Seq<GameRoom>, id: Seq<char>) -> int {
    choose|i: int| 0 <= i < rooms.len() && (#[trigger] rooms[i]).info.id@ == id
}

/// Whether `g` survives a clean-up at `now`: it keeps a member and has
/// been active within `room_timeout`.
pub open spec fn survives(g: GameRoom, now: Instant, player_timeout: Duration, room_timeout: Duration) -> bool {
    kept_players(g, now, player_timeout).len() > 0 && !longer_than(
        time_between(now, activity_after(g, now, player_timeout)),
        room_timeout,
    )
}

impl RoomManager {
    /// `after` is `self` cleaned up at `now`: each room of `after` is a
    /// room of `self` that survives, without its expired members; each
    /// surviving room of `self` is in `after`.
    pub open spec fn cleaned_up(self, after: Self, now: Instant, room_timeout: Duration, player_timeout: Duration) -> bool {
        &&& forall|i: int|
            0 <= i < after.rooms().len() ==> exists|j: int|
                0 <= j < self.rooms().len() && (#[trigger] self.rooms()[j]).info.id@ == (
                #[trigger] after.rooms()[i]).info.id@ && expired_into(self.rooms()[j], after.rooms()[i], now, player_timeout)
                    && survives(self.rooms()[j], now, player_timeout, room_timeout)
        &&& forall|j: int|
            0 <= j < self.rooms().len() && survives(#[trigger] self.rooms()[j], now, player_timeout, room_timeout)
                ==> has_room_id(after.rooms(), self.rooms()[j].info.id@)
    }

    /// The rooms, in the order they were created.
    pub closed spec fn rooms(self) -> Seq<GameRoom> {
        self.rooms@
    }

    /// Room ids are distinct and every room is well formed.
    pub closed spec fn wf(self) -> bool {
        &&& forall|i: int, j: int|
            0 <= i < self.rooms@.len() && 0 <= j < self.rooms@.len() && i != j ==> (#[trigger] self.rooms@[i]).info.id@
                != (#[trigger] self.rooms@[j]).info.id@
        &&& forall|i: int| 0 <= i < self.rooms@.len() ==> (#[trigger] self.rooms@[i]).wf()
    }

    /// The room at `i`.
    pub(crate) fn room_ref(&self, i: usize) -> (r: &GameRoom)
        requires
            i < self.rooms().len(),
        ensures
            *r == self.rooms()[i as int],
    {
        &self.rooms[i]
    }

    /// Seats `player_id` as `player_name` in the room at `i` (see
    /// `GameRoom::add_player`).
    pub(crate) fn seat_at(&mut self, i: usize, player_id: String, player_name: String) -> (r: bool)
        requires
            old(self).wf(),
            i < old(self).rooms().len(),
        ensures
            final(self).wf(),
            final(self).rooms() == old(self).rooms().update(i as int, final(self).rooms()[i as int]),
            r == (old(self).rooms()[i as int].players@.len() < old(self).rooms()[i as int].info.max_players),
            !r ==> final(self).rooms() == old(self).rooms(),
            r ==> old(self).rooms()[i as int].seated_as(final(self).rooms()[i as int], player_id, player_name),
    {
        let ghost before = *self;
        let mut g = self.rooms.remove(i);
        proof {
            assert(g == before.rooms@[i as int]);
        }
        let r = g.add_player(player_id, player_name);
        self.rooms.insert(i, g);
        proof {
            assert(self.rooms@ =~= before.rooms@.update(i as int, self.rooms@[i as int]));
            before.lemma_replace_keeps_wf(*self, i as int);
            if !r {
                assert(self.rooms@ =~= before.rooms@);
            }
        }
        r
    }

    /// Takes member `player_id` out of the room at `i` (see
    /// `GameRoom::remove_player`).
    pub(crate) fn unseat_at(&mut self, i: usize, player_id: &str) -> (r: bool)
        requires
            old(self).wf(),
            i < old(self).rooms().len(),
        ensures
            final(self).wf(),
            final(self).rooms() == old(self).rooms().update(i as int, final(self).rooms()[i as int]),
            r == is_member(old(self).rooms()[i as int].players@, player_id@),
            old(self).rooms()[i as int].left_as(final(self).rooms()[i as int], player_id@, r),
    {
        let ghost before = *self;
        let mut g = self.rooms.remove(i);
        proof {
            assert(g == before.rooms@[i as int]);
        }
        let r = g.remove_player(player_id);
        self.rooms.insert(i, g);
        proof {
            assert(self.rooms@ =~= before.rooms@.update(i as int, self.rooms@[i as int]));
            before.lemma_replace_keeps_wf(*self, i as int);
        }
        r
    }

    /// Moves the room at `i` to `state` (see `GameRoom::set_state`).
    pub(crate) fn set_state_at(&mut self, i: usize, state: RoomState)
        requires
            old(self).wf(),
            i < old(self).rooms().len(),
        ensures
            final(self).wf(),
            final(self).rooms() == old(self).rooms().update(i as int, final(self).rooms()[i as int]),
            final(self).rooms()[i as int].info == (RoomInfo { state, ..old(self).rooms()[i as int].info }),
            final(self).rooms()[i as int].players == old(self).rooms()[i as int].players,
            final(self).rooms()[i as int].spectators == old(self).rooms()[i as int].spectators,
            final(self).rooms()[i as int].outbox == old(self).rooms()[i as int].outbox,
    {
        let ghost before = *self;
        let mut g = self.rooms.remove(i);
        proof {
            assert(g == before.rooms@[i as int]);
        }
        g.set_state(state);
        self.rooms.insert(i, g);
        proof {
            assert(self.rooms@ =~= before.rooms@.update(i as int, self.rooms@[i as int]));
            before.lemma_replace_keeps_wf(*self, i as int);
        }
    }

    /// The room at `i` is the room of its own id.
    pub proof fn lemma_room_at(self, i: int)
        requires
            self.wf(),
            0 <= i < self.rooms().len(),
        ensures
            has_room_id(self.rooms(), self.rooms()[i].info.id@),
            room_at(self.rooms(), self.rooms()[i].info.id@) == i,
    {
        let id = self.rooms()[i].info.id@;
        assert(self.rooms()[i].info.id@ == id);
        let k = room_at(self.rooms(), id);
        assert(self.rooms@[k].info.id@ == id);
    }

    /// Replacing a room by a well-formed room with the same id keeps the
    /// manager well formed.
    pub proof fn lemma_replace_keeps_wf(self, after: Self, i: int)
        requires
            self.wf(),
            0 <= i < self.rooms().len(),
            after.rooms() == self.rooms().update(i, after.rooms()[i]),
            after.rooms()[i].wf(),
            after.rooms()[i].info.id@ == self.rooms()[i].info.id@,
        ensures
            after.wf(),
    {
        assert forall|a: int, b: int|
            0 <= a < after.rooms@.len() && 0 <= b < after.rooms@.len() && a != b implies (#[trigger] after.rooms@[a]).info.id@
                != (#[trigger] after.rooms@[b]).info.id@ by {
            assert(after.rooms@[a].info.id@ == self.rooms@[a].info.id@);
            assert(after.rooms@[b].info.id@ == self.rooms@[b].info.id@);
        }
        assert forall|k: int| 0 <= k < after.rooms@.len() implies (#[trigger] after.rooms@[k]).wf() by {
            if k != i {
                assert(after.rooms@[k] == self.rooms@[k]);
            }
        }
    }

    /// No rooms.
    pub fn new() -> (r: RoomManager)
        ensures
            r.wf(),
            r.rooms().len() == 0,
    {
        RoomManager { rooms: Vec::new() }
    }

    /// Where the room with id `room_id` is.
    pub(crate) fn find_room(&self, room_id: &str) -> (r: Option<usize>)
        ensures
            r is None <==> !has_room_id(self.rooms(), room_id@),
            r matches Some(i) ==> i < self.rooms().len() && self.rooms()[i as int].info.id@ == room_id@,
    {
        let key = String::from_str(room_id);
        let mut i: usize = 0;
        while i < self.rooms.len()
            invariant
                i <= self.rooms@.len(),
                key@ == room_id@,
                forall|j: int| 0 <= j < i ==> (#[trigger] self.rooms@[j]).info.id@ != room_id@,
            decreases self.rooms@.len() - i,
        {
            if self.rooms[i].info.id == key {
                return Some(i);
            }
            i = i + 1;
        }
        None
    }

    /// Removes the rooms emptied by members not heard from for longer
    /// than `player_timeout`, or idle for longer than `room_timeout`, at
    /// `now`; the other rooms lose their expired members.
    pub fn cleanup_at(&mut self, now: Instant, room_timeout: Duration, player_timeout: Duration)
        requires
            old(self).wf(),
        ensures
            final(self).wf(),
            old(self).cleaned_up(*final(self), now, room_timeout, player_timeout),
            forall|j: int|
                0 <= j < old(self).rooms().len() && (forall|i: int|
                    0 <= i < old(self).rooms()[j].players@.len() ==> !expired(
                        #[trigger] old(self).rooms()[j].players@[i],
                        now,
                        player_timeout,
                    )) ==> (has_room_id(final(self).rooms(), #[trigger] old(self).rooms()[j].info.id@) <==> (
                old(self).rooms()[j].players@.len() > 0 && !longer_than(
                    time_between(now, old(self).rooms()[j].last_activity),
                    room_timeout,
                ))),
    {
        let ghost old_rooms = self.rooms@;
        let mut rest: Vec<GameRoom> = Vec::new();
        std::mem::swap(&mut rest, &mut self.rooms);
        let total = rest.len();
        let mut remaining: Vec<GameRoom> = Vec::new();
        let mut t: usize = 0;
        while rest.len() > 0
            invariant
                rest@ == old_rooms.subrange(t as int, old_rooms.len() as int),
                t <= old_rooms.len(),
                old_rooms.len() == total,
                forall|i: int, j: int|
                    0 <= i < old_rooms.len() && 0 <= j < old_rooms.len() && i != j ==> (#[trigger] old_rooms[i]).info.id@
                        != (#[trigger] old_rooms[j]).info.id@,
                forall|i: int| 0 <= i < old_rooms.len() ==> (#[trigger] old_rooms[i]).wf(),
                forall|i: int|
                    0 <= i < remaining@.len() ==> exists|j: int|
                        0 <= j < t && (#[trigger] old_rooms[j]).info.id@ == (#[trigger] remaining@[i]).info.id@
                            && expired_into(old_rooms[j], remaining@[i], now, player_timeout) && survives(
                            old_rooms[j],
                            now,
                            player_timeout,
                            room_timeout,
                        ),
                forall|j: int|
                    0 <= j < t && survives(#[trigger] old_rooms[j], now, player_timeout, room_timeout) ==> has_room_id(
                        remaining@,
                        old_rooms[j].info.id@,
                    ),
                forall|i: int| 0 <= i < remaining@.len() ==> (#[trigger] remaining@[i]).wf(),
                forall|a: int, b: int|
                    0 <= a < remaining@.len() && 0 <= b < remaining@.len() && a != b ==> (#[trigger] remaining@[a]).info.id@
                        != (#[trigger] remaining@[b]).info.id@,
            decreases rest@.len(),
        {
            let ghost before = remaining@;
            let mut g = rest.remove(0);
            proof {
                assert(g == old_rooms[t as int]);
            }
            let ghost g0 = g;
            g.expire_players(now, player_timeout);
            let keep = g.players.len() > 0 && !duration_longer(&duration_between(&now, &g.last_activity), &room_timeout);
            proof {
                assert(keep == survives(g0, now, player_timeout, room_timeout));
            }
            if keep {
                remaining.push(g);
                proof {
                    assert forall|i: int| 0 <= i < remaining@.len() implies exists|j: int|
                        0 <= j < t + 1 && (#[trigger] old_rooms[j]).info.id@ == (#[trigger] remaining@[i]).info.id@
                            && expired_into(old_rooms[j], remaining@[i], now, player_timeout) && survives(
                            old_rooms[j],
                            now,
                            player_timeout,
                            room_timeout,
                        ) by {
                        if i < before.len() {
                            assert(remaining@[i] == before[i]);
                        } else {
                            assert(old_rooms[t as int].info.id@ == remaining@[i].info.id@);
                        }
                    }
                    assert forall|j: int|
                        0 <= j < t + 1 && survives(#[trigger] old_rooms[j], now, player_timeout, room_timeout) implies has_room_id(
                        remaining@,
                        old_rooms[j].info.id@,
                    ) by {
                        if j < t {
                            let k = choose|k: int| 0 <= k < before.len() && (#[trigger] before[k]).info.id@ == old_rooms[j].info.id@;
                            assert(remaining@[k] == before[k]);
                        } else {
                            assert(remaining@[before.len() as int].info.id@ == old_rooms[j].info.id@);
                        }
                    }
                    assert forall|a: int, b: int|
                        0 <= a < remaining@.len() && 0 <= b < remaining@.len() && a != b implies (
                        #[trigger] remaining@[a]).info.id@ != (#[trigger] remaining@[b]).info.id@ by {
                        let n = before.len() as int;
                        if a < n && b < n {
                            assert(remaining@[a] == before[a] && remaining@[b] == before[b]);
                        } else {
                            let k = if a < n { a } else { b };
                            assert(remaining@[k] == before[k]);
                            let j = choose|j: int| 0 <= j < t && (#[trigger] old_rooms[j]).info.id@ == (#[trigger] before[k]).info.id@
                                && expired_into(old_rooms[j], before[k], now, player_timeout) && survives(
                                old_rooms[j],
                                now,
                                player_timeout,
                                room_timeout,
                            );
                            assert(old_rooms[j].info.id@ != old_rooms[t as int].info.id@);
                            assert(remaining@[n].info.id@ == old_rooms[t as int].info.id@);
                        }
                    }
                }
            }
            proof {
                assert(rest@ =~= old_rooms.subrange(t + 1, old_rooms.len() as int));
            }
            t = t + 1;
        }
        self.rooms = remaining;
        proof {
            assert forall|j: int|
                0 <= j < old(self).rooms().len() && (forall|i: int|
                    0 <= i < old(self).rooms()[j].players@.len() ==> !expired(
                        #[trigger] old(self).rooms()[j].players@[i],
                        now,
                        player_timeout,
                    )) implies (has_room_id(self.rooms(), #[trigger] old(self).rooms()[j].info.id@) <==> (
                old(self).rooms()[j].players@.len() > 0 && !longer_than(
                    time_between(now, old(self).rooms()[j].last_activity),
                    room_timeout,
                ))) by {
                lemma_cleanup_judges_idle_rooms(*old(self), *self, now, room_timeout, player_timeout, j);
            }
        }
    }
}

/// The first room of `rooms` that has member `player_id`, where there is
/// one.
pub open spec fn first_room_with(rooms: Seq<GameRoom>, player_id: Seq<char>) -> int {
    choose|i: int|
        0 <= i < rooms.len() && is_member((#[trigger] rooms[i]).players@, player_id) && forall|j: int|
            0 <= j < i ==> !is_member((#[trigger] rooms[j]).players@, player_id)
}

/// Some room of `rooms` has member `player_id`.
pub open spec fn someone_hosts(rooms: Seq<GameRoom>, player_id: Seq<char>) -> bool {
    exists|i: int| 0 <= i < rooms.len() && is_member((#[trigger] rooms[i]).players@, player_id)
}

impl RoomManager {
    /// Removes the rooms that lost all their members to `player_timeout`
    /// or stayed idle for longer than `room_timeout`, now; the other rooms
    /// lose the members not heard from for longer than `player_timeout`
    /// (see `cleanup_at`).
    pub fn cleanup(&mut self, room_timeout: Duration, player_timeout: Duration)
        requires
            old(self).wf(),
        ensures
            final(self).wf(),
            exists|now: Instant|
                #[trigger] old(self).cleaned_up(*final(self), now, room_timeout, player_timeout) && (forall|j: int|
                    0 <= j < old(self).rooms().len() && (forall|i: int|
                        0 <= i < old(self).rooms()[j].players@.len() ==> !expired(
                            #[trigger] old(self).rooms()[j].players@[i],
                            now,
                            player_timeout,
                        )) ==> (has_room_id(final(self).rooms(), #[trigger] old(self).rooms()[j].info.id@) <==> (
                    old(self).rooms()[j].players@.len() > 0 && !longer_than(
                        time_between(now, old(self).rooms()[j].last_activity),
                        room_timeout,
                    )))),
    {
        let now = instant_now();
        self.cleanup_at(now, room_timeout, player_timeout);
    }

    /// `after` is this manager with a new room described by `r`: it is
    /// named `name`, owned by `owner_id` (its only member, as
    /// `owner_name`), waiting, with no spectators and no queued messages;
    /// every other room stays as it was.
    pub open spec fn opened_as(
        self,
        after: Self,
        r: RoomInfo,
        name: String,
        owner_id: String,
        owner_name: String,
        max_players: usize,
        is_public: bool,
        game_type: String,
    ) -> bool {
        &&& has_room_id(after.rooms(), r.id@)
        &&& ({
            let g = after.rooms()[room_at(after.rooms(), r.id@)];
            &&& g.info == r
            &&& g.players@.len() == 1
            &&& g.players@[0].id == owner_id
            &&& g.players@[0].name == owner_name
            &&& g.spectators@.len() == 0
            &&& g.outbox@.len() == 0
        })
        &&& r.id@.len() == 36
        &&& r.name == name
        &&& r.owner_id == owner_id
        &&& r.max_players == max_players
        &&& r.is_public == is_public
        &&& r.state == RoomState::Waiting
        &&& r.game_type == game_type
        &&& r.player_count == 1
        &&& forall|id: Seq<char>| id != r.id@ ==> (#[trigger] has_room_id(after.rooms(), id) == has_room_id(
            self.rooms(),
            id,
        ))
        &&& forall|id: Seq<char>|
            id != r.id@ && #[trigger] has_room_id(self.rooms(), id) ==> after.rooms()[room_at(
                after.rooms(),
                id,
            )] == self.rooms()[room_at(self.rooms(), id)]
    }

    /// Opens a room (see `GameRoom::new`) and returns its description.
    pub fn create_room(
        &mut self,
        name: String,
        owner_id: String,
        owner_name: String,
        max_players: usize,
        is_public: bool,
        game_type: String,
    ) -> (r: RoomInfo)
        requires
            old(self).wf(),
        ensures
            final(self).wf(),
            old(self).opened_as(*final(self), r, name, owner_id, owner_name, max_players, is_public, game_type),
    {
        let room = GameRoom::new(name, owner_id, owner_name, max_players, is_public, game_type);
        let info = copy_info(&room.info);
        let ghost before = self.rooms@;
        match self.find_room(info.id.as_str()) {
            Some(i) => {
                self.rooms.set(i, room);
                proof {
                    assert forall|a: int, b: int|
                        0 <= a < self.rooms@.len() && 0 <= b < self.rooms@.len() && a != b implies (
                        #[trigger] self.rooms@[a]).info.id@ != (#[trigger] self.rooms@[b]).info.id@ by {
                        if a != i {
                            assert(self.rooms@[a] == before[a]);
                        }
                        if b != i {
                            assert(self.rooms@[b] == before[b]);
                        }
                    }
                    assert forall|k: int| 0 <= k < self.rooms@.len() implies (#[trigger] self.rooms@[k]).wf() by {
                        if k != i {
                            assert(self.rooms@[k] == before[k]);
                        }
                    }
                    assert(self.rooms@[i as int].info.id@ == info.id@);
                    assert forall|id: Seq<char>| id != info.id@ implies (#[trigger] has_room_id(self.rooms@, id)
                        == has_room_id(before, id)) by {
                        if has_room_id(before, id) {
                            let k = choose|k: int| 0 <= k < before.len() && (#[trigger] before[k]).info.id@ == id;
                            assert(self.rooms@[k] == before[k]);
                        }
                        if has_room_id(self.rooms@, id) {
                            let k = choose|k: int| 0 <= k < self.rooms@.len() && (#[trigger] self.rooms@[k]).info.id@ == id;
                            assert(self.rooms@[k] == before[k]);
                        }
                    }
                    assert forall|id: Seq<char>| id != info.id@ && #[trigger] has_room_id(before, id) implies self.rooms@[room_at(
                        self.rooms@,
                        id,
                    )] == before[room_at(before, id)] by {
                        let k = room_at(before, id);
                        assert(self.rooms@[k] == before[k]);
                        assert(has_room_id(self.rooms@, id));
                        let k2 = room_at(self.rooms@, id);
                        assert(self.rooms@[k2] == before[k2]);
                    }
                    let k3 = room_at(self.rooms@, info.id@);
                    assert(k3 == i);
                }
            },
            None => {
                self.rooms.push(room);
                proof {
                    let n = before.len() as int;
                    assert forall|a: int, b: int|
                        0 <= a < self.rooms@.len() && 0 <= b < self.rooms@.len() && a != b implies (
                        #[trigger] self.rooms@[a]).info.id@ != (#[trigger] self.rooms@[b]).info.id@ by {
                        if a < n {
                            assert(self.rooms@[a] == before[a]);
                        }
                        if b < n {
                            assert(self.rooms@[b] == before[b]);
                        }
                    }
                    assert forall|k: int| 0 <= k < self.rooms@.len() implies (#[trigger] self.rooms@[k]).wf() by {
                        if k < n {
                            assert(self.rooms@[k] == before[k]);
                        }
                    }
                    assert(self.rooms@[n].info.id@ == info.id@);
                    assert forall|id: Seq<char>| id != info.id@ implies (#[trigger] has_room_id(self.rooms@, id)
                        == has_room_id(before, id)) by {
                        if has_room_id(before, id) {
                            let k = choose|k: int| 0 <= k < before.len() && (#[trigger] before[k]).info.id@ == id;
                            assert(self.rooms@[k] == before[k]);
                        }
                        if has_room_id(self.rooms@, id) {
                            let k = choose|k: int| 0 <= k < self.rooms@.len() && (#[trigger] self.rooms@[k]).info.id@ == id;
                            if k < n {
                                assert(self.rooms@[k] == before[k]);
                            }
                        }
                    }
                    assert forall|id: Seq<char>| id != info.id@ && #[trigger] has_room_id(before, id) implies self.rooms@[room_at(
                        self.rooms@,
                        id,
                    )] == before[room_at(before, id)] by {
                        let k = room_at(before, id);
                        assert(self.rooms@[k] == before[k]);
                        assert(has_room_id(self.rooms@, id));
                        let k2 = room_at(self.rooms@, id);
                        if k2 < n {
                            assert(self.rooms@[k2] == before[k2]);
                        }
                    }
                    let k3 = room_at(self.rooms@, info.id@);
                    if k3 < n {
                        assert(self.rooms@[k3] == before[k3]);
                    }
                }
            },
        }
        info
    }

    /// Deletes the room `room_id`; tells whether there was one.
    pub fn delete_room(&mut self, room_id: &str) -> (r: bool)
        requires
            old(self).wf(),
        ensures
            final(self).wf(),
            r == has_room_id(old(self).rooms(), room_id@),
            !has_room_id(final(self).rooms(), room_id@),
            r ==> final(self).rooms() == old(self).rooms().remove(room_at(old(self).rooms(), room_id@)),
            !r ==> final(self).rooms() == old(self).rooms(),
    {
        match self.find_room(room_id) {
            Some(i) => {
                let ghost before = self.rooms@;
                self.rooms.remove(i);
                proof {
                    assert(self.rooms@ =~= before.remove(i as int));
                    assert(room_at(before, room_id@) == i) by {
                        let k = room_at(before, room_id@);
                        assert(before[k].info.id@ == before[i as int].info.id@);
                    }
                    assert forall|a: int, b: int|
                        0 <= a < self.rooms@.len() && 0 <= b < self.rooms@.len() && a != b implies (
                        #[trigger] self.rooms@[a]).info.id@ != (#[trigger] self.rooms@[b]).info.id@ by {
                        let a0 = if a < i { a } else { a + 1 };
                        let b0 = if b < i { b } else { b + 1 };
                        assert(self.rooms@[a] == before[a0] && self.rooms@[b] == before[b0]);
                    }
                    assert forall|k: int| 0 <= k < self.rooms@.len() implies (#[trigger] self.rooms@[k]).wf() by {
                        let k0 = if k < i { k } else { k + 1 };
                        assert(self.rooms@[k] == before[k0]);
                    }
                    if has_room_id(self.rooms@, room_id@) {
                        let k = choose|k: int| 0 <= k < self.rooms@.len() && (#[trigger] self.rooms@[k]).info.id@ == room_id@;
                        let k0 = if k < i { k } else { k + 1 };
                        assert(self.rooms@[k] == before[k0]);
                    }
                }
                true
            },
            None => false,
        }
    }

    /// The room `room_id`.
    pub fn get_room(&self, room_id: &str) -> (r: Option<&GameRoom>)
        requires
            self.wf(),
        ensures
            r is None <==> !has_room_id(self.rooms(), room_id@),
            (r matches Some(g) ==> *g == self.rooms()[room_at(self.rooms(), room_id@)]),
    {
        match self.find_room(room_id) {
            Some(i) => {
                proof {
                    let k = room_at(self.rooms@, room_id@);
                    assert(self.rooms@[k].info.id@ == self.rooms@[i as int].info.id@);
                }
                Some(&self.rooms[i])
            },
            None => None,
        }
    }

    /// Mutable access to the room `room_id`. Changing its id through this
    /// access breaks the lookup by id.
    pub fn get_room_mut(&mut self, room_id: &str) -> (r: Option<&mut GameRoom>)
        requires
            old(self).wf(),
        ensures
            has_room_id(old(self).rooms(), room_id@) ==> {
                let i = room_at(old(self).rooms(), room_id@);
                &&& r is Some
                &&& *r.unwrap() == old(self).rooms()[i]
                &&& final(self).rooms() == old(self).rooms().update(i, *final(r.unwrap()))
            },
            !has_room_id(old(self).rooms(), room_id@) ==> r is None && final(self).rooms() == old(self).rooms(),
    {
        match self.find_room(room_id) {
            Some(i) => {
                proof {
                    let k = room_at(self.rooms@, room_id@);
                    assert(self.rooms@[k].info.id@ == self.rooms@[i as int].info.id@);
                }
                Some(&mut self.rooms[i])
            },
            None => None,
        }
    }

    /// The descriptions of the public rooms, in creation order.
    pub fn get_public_rooms(&self) -> (r: Vec<RoomInfo>)
        ensures
            r@ == self.rooms().filter(|g: GameRoom| g.info.is_public).map_values(|g: GameRoom| g.info),
    {
        let ghost f = |g: GameRoom| g.info.is_public;
        let ghost h = |g: GameRoom| g.info;
        let mut r: Vec<RoomInfo> = Vec::new();
        let mut i: usize = 0;
        while i < self.rooms.len()
            invariant
                i <= self.rooms@.len(),
                f == (|g: GameRoom| g.info.is_public),
                h == (|g: GameRoom| g.info),
                r@ == self.rooms@.take(i as int).filter(f).map_values(h),
            decreases self.rooms@.len() - i,
        {
            let ghost g = self.rooms@[i as int];
            let ghost t0 = self.rooms@.take(i as int);
            if self.rooms[i].info.is_public {
                r.push(copy_info(&self.rooms[i].info));
            }
            proof {
                let t1 = self.rooms@.take(i + 1);
                assert(t1 =~= t0.push(g));
                assert(t1.filter(f) =~= if f(g) {
                    t0.filter(f).push(g)
                } else {
                    t0.filter(f)
                }) by {
                    t0.filter_lemma(f);
                    t1.filter_lemma(f);
                    reveal(Seq::filter);
                    assert(t1.drop_last() =~= t0);
                }
                if f(g) {
                    assert(t0.filter(f).push(g).map_values(h) =~= t0.filter(f).map_values(h).push(g.info));
                }
            }
            i = i + 1;
        }
        proof {
            assert(self.rooms@.take(i as int) =~= self.rooms@);
        }
        r
    }

    /// Where the first room with member `player_id` is.
    fn find_player_room(&self, player_id: &str) -> (r: Option<usize>)
        ensures
            r is None <==> !someone_hosts(self.rooms(), player_id@),
            r matches Some(i) ==> i == first_room_with(self.rooms(), player_id@) && i < self.rooms().len(),
    {
        let mut i: usize = 0;
        while i < self.rooms.len()
            invariant
                i <= self.rooms@.len(),
                forall|j: int| 0 <= j < i ==> !is_member((#[trigger] self.rooms@[j]).players@, player_id@),
            decreases self.rooms@.len() - i,
        {
            if member_at(&self.rooms[i].players, player_id).is_some() {
                proof {
                    let k = first_room_with(self.rooms@, player_id@);
                    assert(is_member(self.rooms@[i as int].players@, player_id@));
                    if k != i {
                        if k < i {
                            assert(!is_member(self.rooms@[k].players@, player_id@));
                        } else {
                            assert(!is_member(self.rooms@[i as int].players@, player_id@));
                        }
                    }
                }
                return Some(i);
            }
            i = i + 1;
        }
        None
    }

    /// The first room (in creation order) with member `player_id`.
    pub fn get_player_room(&self, player_id: &str) -> (r: Option<&GameRoom>)
        ensures
            r is None <==> !someone_hosts(self.rooms(), player_id@),
            (r matches Some(g) ==> *g == self.rooms()[first_room_with(self.rooms(), player_id@)]),
    {
        match self.find_player_room(player_id) {
            Some(i) => Some(&self.rooms[i]),
            None => None,
        }
    }

    /// Mutable access to the first room with member `player_id`. Changing
    /// its id through this access breaks the lookup by id.
    pub fn get_player_room_mut(&mut self, player_id: &str) -> (r: Option<&mut GameRoom>)
        ensures
            someone_hosts(old(self).rooms(), player_id@) ==> {
                let i = first_room_with(old(self).rooms(), player_id@);
                &&& r is Some
                &&& *r.unwrap() == old(self).rooms()[i]
                &&& final(self).rooms() == old(self).rooms().update(i, *final(r.unwrap()))
            },
            !someone_hosts(old(self).rooms(), player_id@) ==> r is None && final(self).rooms() == old(self).rooms(),
    {
        match self.find_player_room(player_id) {
            Some(i) => Some(&mut self.rooms[i]),
            None => None,
        }
    }
}

} // verus!
