//! Players, rooms and chat: who plays on a board, in which order things
//! may happen, and how points are counted.

use vstd::prelude::*;
use std::time::{Duration, Instant};
use crate::platform::{elapsed_since, instant_now, random_u8_in};
use crate::game::minesweeper::{
    code_alphabet, count_revealed, index_of, is_hidden, lemma_count_le_len, lemma_index_of_pos,
    lemma_pos_of_index, opened_by, revealed_pred, CODE_LEN, Difficulty, GameBoard, GameMode, PlayerId,
    Position, RoomId, spec_board_config,
};

verus! {

/// How a player is connected.
#[derive(Debug, Clone, PartialEq, Eq)]
pub enum ConnectionState {
    Connected,
    /// Since when.
    Disconnected(Instant),
    Reconnecting,
}

/// A participant of a room.
#[derive(Debug, Clone)]
pub struct Player {
    pub id: PlayerId,
    pub username: String,
    /// RGBA.
    pub color: [u8; 4],
    pub score: u32,
    pub is_host: bool,
    pub is_ready: bool,
    pub connection_state: ConnectionState,
    pub last_activity: Instant,
}

impl Player {
    /// A connected, not yet ready player with no points and a random,
    /// fairly bright opaque colour.
    pub fn new(id: PlayerId, username: String) -> (r: Player)
        ensures
            r.id == id,
            r.username == username,
            r.score == 0,
            !r.is_host,
            !r.is_ready,
            r.connection_state is Connected,
            r.color[3] == 255,
            forall|k: int| 0 <= k < 3 ==> 20 <= #[trigger] r.color[k] < 220,
    {
        let red = random_u8_in(20, 220);
        let green = random_u8_in(20, 220);
        let blue = random_u8_in(20, 220);
        Player {
            id,
            username,
            color: [red, green, blue, 255],
            score: 0,
            is_host: false,
            is_ready: false,
            connection_state: ConnectionState::Connected,
            last_activity: instant_now(),
        }
    }
}

/// How a finished game ended.
#[derive(Debug, Clone)]
pub struct GameResult {
    /// The best scorer, in competitive games only.
    pub winner: Option<PlayerId>,
    /// Every player's final score, in seat order.
    pub scores: Vec<(PlayerId, u32)>,
    pub duration: Duration,
    pub is_victory: bool,
}

/// Where a room is in its life.
#[derive(Debug, Clone)]
pub enum GameState {
    Lobby,
    /// Since when.
    InProgress(Instant),
    Completed(GameResult),
    Abandoned,
}

/// A line of the room chat.
#[derive(Debug, Clone)]
pub struct ChatMessage {
    pub sender_id: Option<PlayerId>,
    pub sender_name: String,
    pub content: String,
    pub timestamp: Instant,
    pub is_system: bool,
}

impl ChatMessage {
    /// A message written by a player (or an anonymous sender).
    pub fn new(sender_id: Option<PlayerId>, sender_name: String, content: String) -> (r: ChatMessage)
        ensures
            r.sender_id == sender_id,
            r.sender_name == sender_name,
            r.content == content,
            !r.is_system,
    {
        ChatMessage { sender_id, sender_name, content, timestamp: instant_now(), is_system: false }
    }

    /// A message from the room itself, signed "System".
    pub fn system(content: String) -> (r: ChatMessage)
        ensures
            r.sender_id is None,
            r.sender_name@ == "System"@,
            r.content == content,
            r.is_system,
    {
        ChatMessage {
            sender_id: None,
            sender_name: String::from_str("System"),
            content,
            timestamp: instant_now(),
            is_system: true,
        }
    }
}

/// Some player of `players` has the id `id`.
pub open spec fn has_player(players: Seq<Player>, id: PlayerId) -> bool {
    exists|i: int| 0 <= i < players.len() && (#[trigger] players[i]).id == id
}

/// `i` is the first seat of `players` taken by `id`.
pub open spec fn is_first_with(players: Seq<Player>, id: PlayerId, i: int) -> bool {
    &&& 0 <= i < players.len()
    &&& players[i].id == id
    &&& forall|j: int| 0 <= j < i ==> (#[trigger] players[j]).id != id
}

/// The first seat taken by `id`, where there is one.
pub open spec fn seat_of(players: Seq<Player>, id: PlayerId) -> int {
    choose|i: int| is_first_with(players, id, i)
}

/// No two seats hold the same player.
pub open spec fn ids_distinct(players: Seq<Player>) -> bool {
    forall|i: int, j: int|
        0 <= i < players.len() && 0 <= j < players.len() && i != j ==> (#[trigger] players[i]).id
            != (#[trigger] players[j]).id
}

/// The first seat is the only one that `is_first_with` can name.
pub proof fn lemma_seat_of(players: Seq<Player>, id: PlayerId, i: int)
    requires
        is_first_with(players, id, i),
    ensures
        seat_of(players, id) == i,
{
    let k = seat_of(players, id);
    assert(is_first_with(players, id, k));
    if k < i {
        assert(players[k].id != id);
    } else if i < k {
        assert(players[i].id != id);
    }
}

/// The seat of player `id` in `players`, scanning from the front.
pub fn find_player(players: &Vec<Player>, id: PlayerId) -> (r: Option<usize>)
    ensures
        r is None <==> !has_player(players@, id),
        r matches Some(i) ==> is_first_with(players@, id, i as int) && i == seat_of(players@, id),
{
    let mut i: usize = 0;
    while i < players.len()
        invariant
            i <= players@.len(),
            forall|j: int| 0 <= j < i ==> (#[trigger] players@[j]).id != id,
        decreases players@.len() - i,
    {
        if players[i].id == id {
            proof {
                lemma_seat_of(players@, id, i as int);
            }
            return Some(i);
        }
        i = i + 1;
    }
    None
}

/// A shared game: its players, board and chat.
#[derive(Debug, Clone)]
pub struct GameRoom {
    pub id: RoomId,
    /// Five-character join code.
    pub code: String,
    pub players: Vec<Player>,
    pub board: GameBoard,
    pub game_mode: GameMode,
    pub difficulty: Difficulty,
    pub state: GameState,
    pub created_at: Instant,
    pub last_activity: Instant,
    pub max_players: u8,
    pub chat_history: Vec<ChatMessage>,
}

impl GameRoom {
    /// Well-formedness: a well-formed board, each player seated once, no
    /// more players than seats, and while a game runs nobody has scored
    /// more than the cells revealed so far.
    pub open spec fn wf(self) -> bool {
        &&& self.board.wf()
        &&& ids_distinct(self.players@)
        &&& self.players@.len() <= self.max_players
        &&& self.state is InProgress ==> forall|i: int|
            0 <= i < self.players@.len() ==> (#[trigger] self.players@[i]).score
                <= self.board.revealed_count
    }

    /// Everything but the players, the state, the board and the activity
    /// stamp is the same in `self` and `other`.
    pub open spec fn same_setup(self, other: GameRoom) -> bool {
        &&& other.id == self.id
        &&& other.code == self.code
        &&& other.game_mode == self.game_mode
        &&& other.difficulty == self.difficulty
        &&& other.created_at == self.created_at
        &&& other.max_players == self.max_players
        &&& other.chat_history == self.chat_history
    }

    /// A room in the lobby, hosted by `host`, with a fresh board for
    /// `difficulty`, eight seats and a random join code.
    pub fn new(host: Player, game_mode: GameMode, difficulty: Difficulty) -> (r: GameRoom)
        ensures
            r.wf(),
            r.players@ == seq![Player { is_host: true, ..host }],
            r.board.is_fresh(
                spec_board_config(difficulty).0,
                spec_board_config(difficulty).1,
                spec_board_config(difficulty).2,
            ),
            r.game_mode == game_mode,
            r.difficulty == difficulty,
            r.state is Lobby,
            r.max_players == 8,
            r.chat_history@.len() == 0,
            r.code@.len() == CODE_LEN,
            forall|i: int| 0 <= i < r.code@.len() ==> code_alphabet().contains(#[trigger] r.code@[i]),
    {
        let id = RoomId::new();
        let code = RoomId::generate_code();
        let board = GameBoard::from_difficulty(difficulty);
        let now = instant_now();
        let mut host = host;
        host.is_host = true;
        let players = vec![host];
        GameRoom {
            id,
            code,
            players,
            board,
            game_mode,
            difficulty,
            state: GameState::Lobby,
            created_at: now,
            last_activity: now,
            max_players: 8,
            chat_history: Vec::new(),
        }
    }

    /// Seats `player`. Refused, in this order of checks, when the room is
    /// full, when the player is already seated, and while a game runs.
    pub fn add_player(&mut self, player: Player) -> (r: Result<(), &'static str>)
        requires
            old(self).wf(),
        ensures
            final(self).wf(),
            old(self).players@.len() >= old(self).max_players ==> r == Err::<(), &'static str>(
                "Room is full",
            ),
            old(self).players@.len() < old(self).max_players && has_player(
                old(self).players@,
                player.id,
            ) ==> r == Err::<(), &'static str>("Player already in room"),
            old(self).players@.len() < old(self).max_players && !has_player(
                old(self).players@,
                player.id,
            ) && old(self).state is InProgress ==> r == Err::<(), &'static str>(
                "Game already in progress",
            ),
            r is Err ==> *final(self) == *old(self),
            r is Ok <==> (old(self).players@.len() < old(self).max_players && !has_player(
                old(self).players@,
                player.id,
            ) && !(old(self).state is InProgress)),
            r is Ok ==> final(self).players@ == old(self).players@.push(player) && old(self).same_setup(*final(self)) && final(self).board == old(self).board && final(self).state == old(self).state,
    {
        if self.players.len() >= self.max_players as usize {
            return Err("Room is full");
        }
        if find_player(&self.players, player.id).is_some() {
            return Err("Player already in room");
        }
        if let GameState::InProgress(_) = self.state {
            return Err("Game already in progress");
        }
        let ghost before = self.players@;
        self.players.push(player);
        self.last_activity = instant_now();
        proof {
            assert forall|i: int, j: int|
                0 <= i < self.players@.len() && 0 <= j < self.players@.len() && i != j implies (
                #[trigger] self.players@[i]).id != (#[trigger] self.players@[j]).id by {
                if i == before.len() {
                    assert(self.players@[j] == before[j]);
                } else if j == before.len() {
                    assert(self.players@[i] == before[i]);
                } else {
                    assert(self.players@[i] == before[i] && self.players@[j] == before[j]);
                }
            }
        }
        Ok(())
    }

    /// Flips the readiness of player `player_id` and returns the new value.
    pub fn toggle_ready(&mut self, player_id: PlayerId) -> (r: Result<bool, &'static str>)
        requires
            old(self).wf(),
        ensures
            final(self).wf(),
            !has_player(old(self).players@, player_id) ==> r == Err::<bool, &'static str>(
                "Player not found",
            ) && *final(self) == *old(self),
            has_player(old(self).players@, player_id) ==> {
                &&& r == Ok::<bool, &'static str>(
                    !old(self).players@[seat_of(old(self).players@, player_id)].is_ready,
                )
                &&& final(self).players@ == ready_toggled(old(self).players@, player_id)
                &&& old(self).same_setup(*final(self))
                &&& final(self).board == old(self).board
                &&& final(self).state == old(self).state
            },
    {
        let player_index = match find_player(&self.players, player_id) {
            Some(i) => i,
            None => {
                return Err("Player not found");
            },
        };
        let ghost before = self.players@;
        let ready = !self.players[player_index].is_ready;
        self.players[player_index].is_ready = ready;
        self.last_activity = instant_now();
        proof {
            assert forall|i: int, j: int|
                0 <= i < self.players@.len() && 0 <= j < self.players@.len() && i != j implies (
                #[trigger] self.players@[i]).id != (#[trigger] self.players@[j]).id by {
                assert(before[i].id == self.players@[i].id);
                assert(before[j].id == self.players@[j].id);
            }
        }
        Ok(ready)
    }
}


/// `players` after the one at seat `i` leaves: if the host left and
/// somebody remains, the first remaining player becomes host.
pub open spec fn after_leaving(players: Seq<Player>, i: int) -> Seq<Player> {
    let rest = players.remove(i);
    if players[i].is_host && rest.len() > 0 {
        rest.update(0, Player { is_host: true, ..rest[0] })
    } else {
        rest
    }
}

/// `id` is seated and hosts the room.
pub open spec fn is_host_of(players: Seq<Player>, id: PlayerId) -> bool {
    exists|i: int| 0 <= i < players.len() && (#[trigger] players[i]).id == id && players[i].is_host
}

/// Everybody is ready.
pub open spec fn all_ready(players: Seq<Player>) -> bool {
    forall|i: int| 0 <= i < players.len() ==> (#[trigger] players[i]).is_ready
}

/// The same players with their scores set to zero.
pub open spec fn scores_reset(players: Seq<Player>) -> Seq<Player> {
    players.map_values(|p: Player| Player { score: 0, ..p })
}

/// The first player whose score beats every earlier one and zero, with
/// that score; `(None, 0)` when nobody scored.
pub open spec fn leader(players: Seq<Player>) -> (Option<PlayerId>, u32)
    decreases players.len(),
{
    if players.len() == 0 {
        (None, 0)
    } else {
        let prev = leader(players.drop_last());
        let p = players.last();
        if p.score > prev.1 {
            (Some(p.id), p.score)
        } else {
            prev
        }
    }
}

/// Every player's id and score, in seat order.
pub open spec fn score_table(players: Seq<Player>) -> Seq<(PlayerId, u32)> {
    players.map_values(|p: Player| (p.id, p.score))
}

/// The winner a finished game records: the leader in competitive games,
/// nobody in cooperative ones.
pub open spec fn winner_of(mode: GameMode, players: Seq<Player>) -> Option<PlayerId> {
    if mode == GameMode::Competitive {
        leader(players).0
    } else {
        None
    }
}

/// The leader is a seat with the highest score, and the first such seat;
/// its score is positive; there is no leader only when nobody scored.
proof fn lemma_leader_is_top_scorer(players: Seq<Player>)
    ensures
        forall|j: int| 0 <= j < players.len() ==> #[trigger] players[j].score <= leader(players).1,
        leader(players).0 is None <==> (forall|j: int| 0 <= j < players.len() ==> #[trigger] players[j].score == 0),
        leader(players).0 is None ==> leader(players).1 == 0,
        leader(players).0 matches Some(id) ==> exists|i: int|
            0 <= i < players.len() && (#[trigger] players[i]).id == id && players[i].score == leader(players).1
                && players[i].score > 0 && (forall|j: int| 0 <= j < i ==> #[trigger] players[j].score
                < players[i].score),
    decreases players.len(),
{
    if players.len() > 0 {
        let d = players.drop_last();
        lemma_leader_is_top_scorer(d);
        assert forall|j: int| 0 <= j < d.len() implies #[trigger] players[j] == d[j] by {}
        let n = players.len() - 1;
        if players.last().score > leader(d).1 {
            assert(players[n].id == leader(players).0->0);
        } else {
            if leader(d).0 is Some {
                let id = leader(d).0->0;
                let i = choose|i: int|
                    0 <= i < d.len() && (#[trigger] d[i]).id == id && d[i].score == leader(d).1 && d[i].score > 0
                        && (forall|j: int| 0 <= j < i ==> #[trigger] d[j].score < d[i].score);
                assert(players[i] == d[i]);
                assert forall|j: int| 0 <= j < i implies #[trigger] players[j].score < players[i].score by {
                    assert(players[j] == d[j]);
                }
            }
            if forall|j: int| 0 <= j < players.len() ==> #[trigger] players[j].score == 0 {
                assert forall|j: int| 0 <= j < d.len() implies #[trigger] d[j].score == 0 by {
                    assert(players[j] == d[j]);
                }
            }
        }
    }
}

/// In a competitive game the recorded winner is a seated player with the
/// highest score, which is positive, and the first seat with that score;
/// nobody wins when nobody scored. A cooperative game records no winner.
pub proof fn lemma_competitive_winner(players: Seq<Player>)
    ensures
        winner_of(GameMode::Competitive, players) matches Some(id) ==> exists|i: int|
            0 <= i < players.len() && (#[trigger] players[i]).id == id && players[i].score > 0 && (forall|j: int|
                0 <= j < players.len() ==> #[trigger] players[j].score <= players[i].score) && (forall|j: int|
                0 <= j < i ==> #[trigger] players[j].score < players[i].score),
        winner_of(GameMode::Competitive, players) is None <==> (forall|j: int|
            0 <= j < players.len() ==> #[trigger] players[j].score == 0),
        winner_of(GameMode::Cooperative, players) is None,
{
    lemma_leader_is_top_scorer(players);
}

/// Removing a seat keeps the others distinct.
proof fn lemma_distinct_remove(players: Seq<Player>, i: int)
    requires
        ids_distinct(players),
        0 <= i < players.len(),
    ensures
        ids_distinct(players.remove(i)),
{
    let r = players.remove(i);
    assert forall|a: int, b: int| 0 <= a < r.len() && 0 <= b < r.len() && a != b implies (
    #[trigger] r[a]).id != (#[trigger] r[b]).id by {
        let a2 = if a < i { a } else { a + 1 };
        let b2 = if b < i { b } else { b + 1 };
        assert(r[a] == players[a2] && r[b] == players[b2]);
    }
}

impl GameRoom {
    /// Unseats player `player_id`. Hosting passes to the first remaining
    /// player when the host leaves; an emptied room is abandoned.
    pub fn remove_player(&mut self, player_id: PlayerId) -> (r: Result<(), &'static str>)
        requires
            old(self).wf(),
        ensures
            final(self).wf(),
            !has_player(old(self).players@, player_id) ==> r == Err::<(), &'static str>(
                "Player not found",
            ) && *final(self) == *old(self),
            has_player(old(self).players@, player_id) ==> {
                &&& r is Ok
                &&& final(self).players@ == after_leaving(
                    old(self).players@,
                    seat_of(old(self).players@, player_id),
                )
                &&& old(self).same_setup(*final(self))
                &&& final(self).board == old(self).board
                &&& if old(self).players@.len() == 1 {
                    final(self).state is Abandoned
                } else {
                    final(self).state == old(self).state
                }
            },
    {
        let player_index = match find_player(&self.players, player_id) {
            Some(i) => i,
            None => {
                return Err("Player not found");
            },
        };
        let ghost before = self.players@;
        let removed = self.players.remove(player_index);
        proof {
            lemma_distinct_remove(before, player_index as int);
        }
        if removed.is_host && !self.players.is_empty() {
            self.players[0].is_host = true;
        }
        if self.players.is_empty() {
            self.state = GameState::Abandoned;
        }
        self.last_activity = instant_now();
        proof {
            let rest = before.remove(player_index as int);
            assert(self.players@ =~= after_leaving(before, player_index as int));
            assert forall|i: int, j: int|
                0 <= i < self.players@.len() && 0 <= j < self.players@.len() && i != j implies (
                #[trigger] self.players@[i]).id != (#[trigger] self.players@[j]).id by {
                assert(rest[i].id == self.players@[i].id);
                assert(rest[j].id == self.players@[j].id);
            }
            if self.state is InProgress {
                assert forall|i: int| 0 <= i < self.players@.len() implies (
                #[trigger] self.players@[i]).score <= self.board.revealed_count by {
                    let i2 = if i < player_index { i } else { i + 1 };
                    assert(rest[i] == before[i2]);
                    assert(self.players@[i].score == rest[i].score);
                }
            }
        }
        Ok(())
    }

    /// Starts a game: only the host may, only when everybody is ready and
    /// at least two play (checked in that order). The board is renewed for
    /// the room's difficulty and every score reset.
    pub fn start_game(&mut self, starter_id: PlayerId) -> (r: Result<(), &'static str>)
        requires
            old(self).wf(),
        ensures
            final(self).wf(),
            !is_host_of(old(self).players@, starter_id) ==> r == Err::<(), &'static str>(
                "Only the host can start the game",
            ),
            is_host_of(old(self).players@, starter_id) && !all_ready(old(self).players@) ==> r
                == Err::<(), &'static str>("Not all players are ready"),
            is_host_of(old(self).players@, starter_id) && all_ready(old(self).players@) && old(
                self,
            ).players@.len() < 2 ==> r == Err::<(), &'static str>("At least 2 players are required"),
            r is Err ==> *final(self) == *old(self),
            r is Ok <==> (is_host_of(old(self).players@, starter_id) && all_ready(old(self).players@)
                && old(self).players@.len() >= 2),
            r is Ok ==> {
                &&& final(self).board.is_fresh(
                    spec_board_config(old(self).difficulty).0,
                    spec_board_config(old(self).difficulty).1,
                    spec_board_config(old(self).difficulty).2,
                )
                &&& final(self).players@ == scores_reset(old(self).players@)
                &&& final(self).state is InProgress
                &&& old(self).same_setup(*final(self))
            },
    {
        let mut is_host = false;
        let mut i: usize = 0;
        while i < self.players.len()
            invariant
                i <= self.players@.len(),
                is_host <==> exists|j: int|
                    0 <= j < i && (#[trigger] self.players@[j]).id == starter_id
                        && self.players@[j].is_host,
            decreases self.players@.len() - i,
        {
            if self.players[i].id == starter_id && self.players[i].is_host {
                is_host = true;
            }
            i = i + 1;
        }
        if !is_host {
            return Err("Only the host can start the game");
        }
        let mut all_ready_now = true;
        let mut i: usize = 0;
        while i < self.players.len()
            invariant
                i <= self.players@.len(),
                all_ready_now <==> forall|j: int| 0 <= j < i ==> (#[trigger] self.players@[j]).is_ready,
            decreases self.players@.len() - i,
        {
            if !self.players[i].is_ready {
                all_ready_now = false;
            }
            i = i + 1;
        }
        if !all_ready_now {
            return Err("Not all players are ready");
        }
        if self.players.len() < 2 {
            return Err("At least 2 players are required");
        }
        self.board = GameBoard::from_difficulty(self.difficulty);
        let ghost before = self.players@;
        let ghost snap = *self;
        let mut i: usize = 0;
        while i < self.players.len()
            invariant
                i <= self.players@.len(),
                snap.same_setup(*self),
                self.board == snap.board,
                self.state == snap.state,
                self.players@.len() == before.len(),
                forall|j: int|
                    0 <= j < before.len() ==> #[trigger] self.players@[j] == (if j < i {
                        Player { score: 0, ..before[j] }
                    } else {
                        before[j]
                    }),
            decreases self.players@.len() - i,
        {
            self.players[i].score = 0;
            i = i + 1;
        }
        self.state = GameState::InProgress(instant_now());
        self.last_activity = instant_now();
        proof {
            assert(self.players@ =~= scores_reset(before));
            assert forall|a: int, b: int|
                0 <= a < self.players@.len() && 0 <= b < self.players@.len() && a != b implies (
                #[trigger] self.players@[a]).id != (#[trigger] self.players@[b]).id by {
                assert(before[a].id == self.players@[a].id);
                assert(before[b].id == self.players@[b].id);
            }
        }
        Ok(())
    }

    /// Plants or lifts a flag for `player_id` while a game runs; returns
    /// whether the board changed.
    pub fn toggle_flag(&mut self, player_id: PlayerId, pos: Position) -> (r: Result<bool, &'static str>)
        requires
            old(self).wf(),
        ensures
            final(self).wf(),
            !(old(self).state is InProgress) ==> r == Err::<bool, &'static str>(
                "Game is not in progress",
            ) && *final(self) == *old(self),
            old(self).state is InProgress && !has_player(old(self).players@, player_id) ==> r == Err::<
                bool,
                &'static str,
            >("Player not found") && *final(self) == *old(self),
            old(self).state is InProgress && has_player(old(self).players@, player_id) ==> {
                &&& r is Ok
                &&& r->Ok_0 == (old(self).board.in_bounds(pos) && !old(self).board.cell_at(
                    pos,
                ).is_revealed)
                &&& r->Ok_0 ==> old(self).board.flag_toggled_on(final(self).board, pos, player_id)
                &&& !r->Ok_0 ==> final(self).board == old(self).board
                &&& final(self).players@ == old(self).players@
                &&& final(self).state == old(self).state
                &&& old(self).same_setup(*final(self))
            },
    {
        match &self.state {
            GameState::InProgress(_) => {},
            _ => {
                return Err("Game is not in progress");
            },
        }
        if find_player(&self.players, player_id).is_none() {
            return Err("Player not found");
        }
        let result = self.board.toggle_flag(&pos, player_id);
        self.last_activity = instant_now();
        Ok(result)
    }
}


/// The flood or mine that a reveal at `pos` opened on `board`, with the
/// board it left: `mid`. Off-board, revealed and flagged cells open
/// nothing.
pub open spec fn board_revealed(
    board: GameBoard,
    mid: GameBoard,
    pos: Position,
    opened: Seq<Position>,
    player: PlayerId,
) -> bool {
    if board.in_bounds(pos) && is_hidden(board.cell_at(pos)) {
        exists|armed: GameBoard| #[trigger] board.reveal_from(armed, mid, pos, opened, player)
    } else {
        opened.len() == 0 && mid == board
    }
}

/// Points after a reveal that opened `opened` cells: one per cell, and in
/// competitive games a hit mine costs ten (never below zero).
pub open spec fn score_after(score: u32, opened: nat, hit_mine: bool, mode: GameMode) -> int {
    let gained = score + opened;
    if hit_mine && mode == GameMode::Competitive {
        gained - vstd::math::min(gained, 10)
    } else {
        gained
    }
}

/// A board whose every safe cell has been revealed, judged by the reveal
/// counter.
pub open spec fn board_completed(b: GameBoard) -> bool {
    b.revealed_count >= b.width * b.height - b.mine_count
}

impl GameRoom {
    /// A reveal by `player` at `pos` is one the game can carry out: the
    /// first move needs room for its 3x3 safe zone, and the completion
    /// check needs no more mines than cells.
    pub open spec fn reveal_defined(self, player: PlayerId, pos: Position) -> bool {
        self.state is InProgress && has_player(self.players@, player) ==> {
            let lays = !self.board.first_move_made && self.board.in_bounds(pos) && is_hidden(
                self.board.cell_at(pos),
            );
            &&& lays ==> self.board.width * self.board.height >= 9
            &&& !lays ==> self.board.mine_count <= self.board.width * self.board.height
        }
    }

    /// `after` is this running game after a reveal by the seated `player`
    /// at `pos` opened `opened`, leaving the board `mid`: the player scores,
    /// and the game ends lost on a mine in cooperative mode, or won once
    /// every safe cell is revealed; an ended game shows its mines.
    pub open spec fn reveal_step(
        self,
        mid: GameBoard,
        after: GameRoom,
        player: PlayerId,
        pos: Position,
        opened: Seq<Position>,
    ) -> bool {
        let seat = seat_of(self.players@, player);
        let p = self.players@[seat];
        let hit = opened.len() > 0 && mid.cell_at(pos).is_mine;
        let players = if opened.len() > 0 {
            self.players@.update(
                seat,
                Player { score: score_after(p.score, opened.len(), hit, self.game_mode) as u32, ..p },
            )
        } else {
            self.players@
        };
        let lost = hit && self.game_mode == GameMode::Cooperative;
        let won = !lost && board_completed(mid);
        &&& board_revealed(self.board, mid, pos, opened, player)
        &&& after.players@ == players
        &&& self.same_setup(after)
        &&& if lost || won {
            &&& after.state matches GameState::Completed(res) && res.winner == winner_of(
                self.game_mode,
                players,
            ) && res.scores@ == score_table(players) && res.is_victory == won
            &&& mid.mines_shown(after.board)
        } else {
            &&& after.state == self.state
            &&& after.board == mid
        }
    }

    /// Ends a running game: records the scores (and, in competitive games,
    /// the leader) and uncovers the mines. Does nothing otherwise.
    fn end_game(&mut self, is_victory: bool)
        requires
            old(self).board.wf(),
            ids_distinct(old(self).players@),
            old(self).players@.len() <= old(self).max_players,
        ensures
            final(self).wf(),
            old(self).state is InProgress ==> {
                &&& final(self).state matches GameState::Completed(res) && res.winner == winner_of(
                    old(self).game_mode,
                    old(self).players@,
                ) && res.scores@ == score_table(old(self).players@) && res.is_victory == is_victory
                &&& old(self).board.mines_shown(final(self).board)
                &&& final(self).players@ == old(self).players@
                &&& old(self).same_setup(*final(self))
            },
            !(old(self).state is InProgress) ==> *final(self) == *old(self),
    {
        let start_time = match &self.state {
            GameState::InProgress(start) => *start,
            _ => {
                return ;
            },
        };
        let duration = elapsed_since(&start_time);
        let competitive = self.game_mode == GameMode::Competitive;
        let mut scores: Vec<(PlayerId, u32)> = Vec::new();
        let mut winner: Option<PlayerId> = None;
        let mut max_score: u32 = 0;
        let mut i: usize = 0;
        while i < self.players.len()
            invariant
                i <= self.players@.len(),
                competitive == (self.game_mode == GameMode::Competitive),
                scores@ == score_table(self.players@.take(i as int)),
                competitive ==> (winner, max_score) == leader(self.players@.take(i as int)),
                !competitive ==> winner is None,
            decreases self.players@.len() - i,
        {
            let id = self.players[i].id;
            let score = self.players[i].score;
            scores.push((id, score));
            proof {
                let ps = self.players@;
                assert(ps.take(i + 1).drop_last() =~= ps.take(i as int));
                assert(ps.take(i + 1).last() == ps[i as int]);
                assert(score_table(ps.take(i + 1)) =~= score_table(ps.take(i as int)).push((id, score)));
            }
            if competitive {
                if score > max_score {
                    max_score = score;
                    winner = Some(id);
                }
            }
            i = i + 1;
        }
        proof {
            assert(self.players@.take(i as int) =~= self.players@);
        }
        let result = GameResult { winner, scores, duration, is_victory };
        self.board.reveal_all_mines();
        self.state = GameState::Completed(result);
        self.last_activity = instant_now();
    }

    /// Opens a cell for `player_id`: refused unless a game runs and the
    /// player is seated. The player scores a point per opened cell; a mine
    /// costs ten points in competitive mode and ends a cooperative game as
    /// lost; a board with every safe cell revealed ends the game as won.
    pub fn reveal_cell(&mut self, player_id: PlayerId, pos: Position) -> (r: Result<
        Vec<Position>,
        &'static str,
    >)
        requires
            old(self).wf(),
            old(self).reveal_defined(player_id, pos),
        ensures
            final(self).wf(),
            !(old(self).state is InProgress) ==> r == Err::<Vec<Position>, &'static str>(
                "Game is not in progress",
            ) && *final(self) == *old(self),
            old(self).state is InProgress && !has_player(old(self).players@, player_id) ==> r
                == Err::<Vec<Position>, &'static str>("Player not found") && *final(self) == *old(
                self,
            ),
            old(self).state is InProgress && has_player(old(self).players@, player_id) ==> r is Ok
                && exists|mid: GameBoard|
                #[trigger] old(self).reveal_step(mid, *final(self), player_id, pos, r->Ok_0@),
    {
        match &self.state {
            GameState::InProgress(_) => {},
            _ => {
                return Err("Game is not in progress");
            },
        }
        if find_player(&self.players, player_id).is_none() {
            return Err("Player not found");
        }
        let ghost old_room = *self;
        let revealed = self.board.reveal_cell(&pos, player_id);
        let ghost mid = self.board;
        proof {
            let b0 = old_room.board;
            if b0.in_bounds(pos) && is_hidden(b0.cell_at(pos)) {
                let armed = choose|armed: GameBoard| #[trigger] b0.reveal_from(armed, mid, pos, revealed@, player_id);
                assert(b0.reveal_from(armed, mid, pos, revealed@, player_id));
                assert(mid.revealed_count == b0.revealed_count + revealed@.len());
                assert(mid.mine_count <= mid.width * mid.height);
            }
            lemma_count_le_len(mid.cells@, revealed_pred());
            assert(mid.cells@.len() <= 255 * 255) by (nonlinear_arith)
                requires
                    mid.cells@.len() == mid.width * mid.height,
                    mid.width <= 255,
                    mid.height <= 255,
            ;
            assert(board_revealed(b0, mid, pos, revealed@, player_id));
        }
        let ghost seat = seat_of(old_room.players@, player_id);
        let mut hit_mine = false;
        if !revealed.is_empty() {
            let player_index = find_player(&self.players, player_id).unwrap();
            let score_increase = revealed.len() as u32;
            self.players[player_index].score = self.players[player_index].score + score_increase;
            hit_mine = match self.board.get_cell(&pos) {
                Some(cell) => cell.is_mine && cell.is_revealed,
                None => false,
            };
            proof {
                let b0 = old_room.board;
                assert(b0.in_bounds(pos) && is_hidden(b0.cell_at(pos)));
                let armed = choose|armed: GameBoard| #[trigger] b0.reveal_from(armed, mid, pos, revealed@, player_id);
                assert(revealed@[0] == pos);
                assert(revealed@.contains(pos));
                lemma_index_of_pos(armed.width, armed.height, pos.x as int, pos.y as int);
                lemma_pos_of_index(armed.width, armed.height, index_of(armed.width, pos));
                let k = index_of(armed.width, pos);
                assert(armed.cells@[k].position == pos);
                assert(opened_by(armed.cells@[k], mid.cells@[k], player_id));
                assert(mid.cell_at(pos).is_revealed);
            }
            if hit_mine {
                if self.game_mode == GameMode::Competitive {
                    let score = self.players[player_index].score;
                    let penalty = if score < 10 {
                        score
                    } else {
                        10
                    };
                    self.players[player_index].score = score - penalty;
                }
            }
        }
        let ghost scored = self.players@;
        proof {
            assert forall|a: int, b: int|
                0 <= a < scored.len() && 0 <= b < scored.len() && a != b implies (
                #[trigger] scored[a]).id != (#[trigger] scored[b]).id by {
                assert(old_room.players@[a].id == scored[a].id);
                assert(old_room.players@[b].id == scored[b].id);
            }
        }
        if hit_mine && self.game_mode == GameMode::Cooperative {
            self.end_game(false);
        }
        if self.board.is_completed() {
            self.end_game(true);
        }
        self.last_activity = instant_now();
        proof {
            let opened = revealed@;
            let p = old_room.players@[seat];
            let hit = opened.len() > 0 && mid.cell_at(pos).is_mine;
            assert(hit == hit_mine);
            let players = if opened.len() > 0 {
                old_room.players@.update(
                    seat,
                    Player { score: score_after(p.score, opened.len(), hit, old_room.game_mode) as u32, ..p },
                )
            } else {
                old_room.players@
            };
            assert(scored == players);
            assert(self.players@ == players);
            assert(old_room.same_setup(*self));
            let lost = hit && old_room.game_mode == GameMode::Cooperative;
            let won = !lost && board_completed(mid);
            if lost || won {
                assert(self.state matches GameState::Completed(res) && res.winner == winner_of(
                    old_room.game_mode,
                    players,
                ) && res.scores@ == score_table(players) && res.is_victory == won);
                assert(mid.mines_shown(self.board));
            } else {
                assert(self.state == old_room.state);
                assert(self.board == mid);
            }
            assert(board_revealed(old_room.board, mid, pos, revealed@, player_id));
            assert(old_room.reveal_step(mid, *self, player_id, pos, revealed@));
            assert(old_room == *old(self));
        }
        let r: Result<Vec<Position>, &'static str> = Ok(revealed);
        proof {
            assert(r->Ok_0@ == revealed@);
            assert(old(self).reveal_step(mid, *self, player_id, pos, r->Ok_0@));
        }
        r
    }
}


/// `players` with the readiness of player `id` flipped.
pub open spec fn ready_toggled(players: Seq<Player>, id: PlayerId) -> Seq<Player> {
    let i = seat_of(players, id);
    players.update(i, Player { is_ready: !players[i].is_ready, ..players[i] })
}

/// Toggling a player's readiness twice gives back the same players.
pub proof fn lemma_toggle_ready_twice(players: Seq<Player>, id: PlayerId)
    requires
        has_player(players, id),
    ensures
        ready_toggled(ready_toggled(players, id), id) == players,
{
    let once = ready_toggled(players, id);
    let i = seat_of(players, id);
    let w = choose|w: int| 0 <= w < players.len() && (#[trigger] players[w]).id == id;
    assert(is_first_with(players, id, i)) by {
        // the first seat exists: walk down from any seat holding `id`
        lemma_first_seat_exists(players, id, w);
    }
    assert(is_first_with(once, id, i)) by {
        assert forall|j: int| 0 <= j < i implies (#[trigger] once[j]).id != id by {
            assert(once[j] == players[j]);
        }
    }
    lemma_seat_of(once, id, i);
    assert(ready_toggled(once, id) =~= players);
}

/// A seat holding `id` means there is a first one.
pub proof fn lemma_first_seat_exists(players: Seq<Player>, id: PlayerId, w: int)
    requires
        0 <= w < players.len(),
        players[w].id == id,
    ensures
        is_first_with(players, id, seat_of(players, id)),
    decreases w,
{
    if forall|j: int| 0 <= j < w ==> (#[trigger] players[j]).id != id {
        assert(is_first_with(players, id, w));
    } else {
        let j = choose|j: int| 0 <= j < w && (#[trigger] players[j]).id == id;
        lemma_first_seat_exists(players, id, j);
    }
}

} // verus!
