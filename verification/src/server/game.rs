//! Server-side games: the turn-based base game every game builds on, and
//! the server's minesweeper.

use vstd::prelude::*;
use std::time::{Duration, Instant};
use serde_json::Value;
use crate::platform::{
    duration_between, duration_from_secs, duration_longer, duration_secs, instant_now,
    longer_than,
    json_number, json_object, json_record, json_u64, secs_duration, time_between, whole_secs,
};
use crate::server::utils::{
    find_param, insert_param, keys_distinct, lemma_pairs_map_dom, lemma_pairs_map_remove,
    lemma_pairs_map_value, pairs_map, decimal_text, write_decimal,
};

verus! {

/// Kind of game.
#[derive(Debug, Clone, PartialEq, Eq)]
pub enum GameType {
    Minesweeper,
    Tetris,
    Chess,
    Reversi,
    /// A game known by name.
    Custom(String),
}

impl GameType {
    /// The name shown for the game type: the variant's name, and
    /// `Custom(name)` for a custom game.
    pub fn display_name(&self) -> (r: String)
        ensures
            r@ == match self {
                GameType::Minesweeper => "Minesweeper"@,
                GameType::Tetris => "Tetris"@,
                GameType::Chess => "Chess"@,
                GameType::Reversi => "Reversi"@,
                GameType::Custom(name) => "Custom("@ + name@ + ")"@,
            },
    {
        match self {
            GameType::Minesweeper => String::from_str("Minesweeper"),
            GameType::Tetris => String::from_str("Tetris"),
            GameType::Chess => String::from_str("Chess"),
            GameType::Reversi => String::from_str("Reversi"),
            GameType::Custom(name) => {
                let mut s = String::from_str("Custom(");
                s.append(name.as_str());
                s.append(")");
                s
            },
        }
    }
}

/// Where a game is.
#[derive(Debug, Clone, Copy, PartialEq, Eq, Structural)]
pub enum GameState {
    Lobby,
    InProgress,
    Ended,
}

/// What happened in a game.
#[derive(Debug, Clone)]
pub enum GameEvent {
    PlayerJoined { player_id: String, player_name: String },
    PlayerLeft { player_id: String },
    GameStarted,
    GameEnded { winner_id: Option<String> },
    PlayerAction { player_id: String, action_type: String, data: Value },
    TimerTick { remaining_seconds: u32 },
    TurnChanged { player_id: String, turn_number: u32 },
    Custom { event_type: String, data: Value },
}

/// How a game ended.
#[derive(Debug, Clone)]
pub struct GameResult {
    pub winner_id: Option<String>,
    /// Each player's score, in seat order.
    pub player_scores: Vec<(String, i32)>,
    /// Seconds the game lasted.
    pub game_duration: u64,
    pub stats: Value,
}

/// Whether `s` reads `chat`.
fn is_chat(s: &str) -> (r: bool)
    ensures
        r == (s@ == "chat"@),
{
    let a = String::from_str(s);
    let b = String::from_str("chat");
    a == b
}

/// The seat of player `id`, where there is one.
pub open spec fn seat_index(players: Seq<(String, String)>, id: Seq<char>) -> int {
    choose|i: int| 0 <= i < players.len() && (#[trigger] players[i]).0@ == id
}

/// The seat whose turn follows the turn of `current`: the next seat after
/// `current`'s (after the first seat when `current` is not seated), round
/// the table.
pub open spec fn next_seat(players: Seq<(String, String)>, current: Option<String>) -> int {
    let at = match current {
        Some(id) => if pairs_map(players).contains_key(id@) {
            seat_index(players, id@)
        } else {
            0
        },
        None => 0,
    };
    (at + 1) % (players.len() as int)
}

/// The points each player gets when a game ends: 100 for the winner, 0
/// for the others.
pub open spec fn final_scores(players: Seq<(String, String)>, winner: Option<String>) -> Seq<(Seq<char>, i32)> {
    players.map_values(
        |p: (String, String)|
            (
                p.0@,
                if winner is Some && winner->0@ == p.0@ {
                    100i32
                } else {
                    0i32
                },
            ),
    )
}

/// A turn-based game: seats, turns, start and end.
pub struct BaseGame {
    pub name: String,
    pub max_players: usize,
    pub min_players: usize,
    /// Player id and name, in seat order.
    pub players: Vec<(String, String)>,
    pub started: bool,
    pub ended: bool,
    pub start_time: Option<Instant>,
    pub end_time: Option<Instant>,
    pub winner_id: Option<String>,
    pub turn_player_id: Option<String>,
    pub turn_number: u32,
    pub turn_timeout: Option<Duration>,
    pub game_timeout: Option<Duration>,
    pub custom_config: Value,
    pub result: Option<GameResult>,
}

impl BaseGame {
    /// Each player has one seat.
    pub open spec fn wf(self) -> bool {
        keys_distinct(self.players@)
    }

    /// What seating `player_id` (named `player_name`) does: refused once
    /// the game started, at a full table or for a taken id (in that
    /// order); else the player takes the next seat.
    pub open spec fn seated(self, after: Self, player_id: String, player_name: String, r: Result<(), String>) -> bool {
        if self.started {
            (r matches Err(e) && e@ == "ゲームはすでに開始されています"@) && after == self
        } else if self.players@.len() >= self.max_players {
            (r matches Err(e) && e@ == "プレイヤー数が最大値に達しています"@) && after == self
        } else if pairs_map(self.players@).contains_key(player_id@) {
            (r matches Err(e) && e@ == "同じIDのプレイヤーがすでに存在します"@) && after == self
        } else {
            &&& r is Ok
            &&& after.players@ == self.players@.push((player_id, player_name))
            &&& after == (BaseGame { players: after.players, ..self })
        }
    }

    /// What unseating `player_id` does: refused while the game runs and
    /// for a player not seated; else the seat goes, and the turn moves on
    /// when the player held it and the game runs.
    pub open spec fn unseated(self, after: Self, player_id: String, r: Result<(), String>) -> bool {
        if self.started && !self.ended {
            (r matches Err(e) && e@ == "ゲーム進行中にプレイヤーを削除できません"@) && after == self
        } else if !pairs_map(self.players@).contains_key(player_id@) {
            (r matches Err(e) && e@ == "プレイヤーが存在しません"@) && after == self
        } else {
            &&& r is Ok
            &&& pairs_map(after.players@) == pairs_map(self.players@).remove(player_id@)
            &&& after.players@ == self.players@.remove(seat_index(self.players@, player_id@))
            &&& after == (BaseGame { players: after.players, ..self })
        }
    }

    /// What starting does: refused when started already or below the
    /// minimum of players; else the game runs from now and the first seat
    /// (if any) has the first turn.
    pub open spec fn started_as(self, after: Self, r: Result<(), String>) -> bool {
        if self.started {
            (r matches Err(e) && e@ == "ゲームはすでに開始されています"@) && after == self
        } else if self.players@.len() < self.min_players {
            (r matches Err(e) && e@ == min_players_text(self.min_players as nat)) && after == self
        } else {
            &&& r is Ok
            &&& after.start_time is Some
            &&& if self.players@.len() > 0 {
                after == (BaseGame {
                    started: true,
                    start_time: after.start_time,
                    turn_player_id: Some(self.players@[0].0),
                    turn_number: 1,
                    ..self
                })
            } else {
                after == (BaseGame { started: true, start_time: after.start_time, ..self })
            }
        }
    }

    /// `after` is `self` ended with `winner`: the result (winner 100
    /// points, the others 0, in seat order) is kept; nothing else changed
    /// but the end time.
    pub open spec fn finished(self, after: Self, winner: Option<String>) -> bool {
        &&& after.end_time is Some
        &&& (after.result matches Some(kept) && kept.winner_id == winner
            && kept.player_scores@.map_values(|p: (String, i32)| (p.0@, p.1)) == final_scores(self.players@, winner)
            && kept.stats == turns_stats(self.turn_number) && kept.game_duration == match self.start_time {
            Some(start) => whole_secs(time_between(after.end_time->0, start)),
            None => 0,
        })
        &&& after == (BaseGame {
            ended: true,
            end_time: after.end_time,
            winner_id: winner,
            result: after.result,
            ..self
        })
    }

    /// What ending with `winner_id` does: refused before the start, after
    /// the end, and for a winner not seated; else the game ends and the
    /// result is returned and kept.
    pub open spec fn ended_as(self, after: Self, winner_id: Option<String>, r: Result<GameResult, String>) -> bool {
        if !self.started {
            (r matches Err(e) && e@ == "ゲームがまだ開始されていません"@) && after == self
        } else if self.ended {
            (r matches Err(e) && e@ == "ゲームはすでに終了しています"@) && after == self
        } else if winner_id matches Some(w) && !pairs_map(self.players@).contains_key(w@) {
            (r matches Err(e) && e@ == "指定された勝者が存在しません"@) && after == self
        } else {
            &&& self.finished(after, winner_id)
            &&& (r matches Ok(res) && res.winner_id == winner_id && res.player_scores@
                == after.result->0.player_scores@ && res.game_duration == after.result->0.game_duration
                && res.stats == after.result->0.stats)
        }
    }

    /// Whether, at `now`, the game has run longer than its time limit.
    pub open spec fn timed_out_at(self, now: Instant) -> bool {
        &&& self.game_timeout is Some
        &&& self.start_time is Some
        &&& longer_than(time_between(now, self.start_time->0), self.game_timeout->0)
    }

    /// What a tick at `now` does: a running game that has outlived its
    /// time limit ends without a winner, and that is reported; otherwise
    /// nothing changes and nothing is reported.
    pub open spec fn updated_at(self, now: Instant, after: Self, events: Seq<GameEvent>) -> bool {
        if self.started && !self.ended && self.timed_out_at(now) {
            &&& events.len() == 1
            &&& events[0] matches GameEvent::GameEnded { winner_id } && winner_id is None
            &&& self.finished(after, None)
        } else {
            events.len() == 0 && after == self
        }
    }

    /// A game named `name` for `min_players` to `max_players`, with nobody
    /// seated yet.
    pub fn new(name: String, min_players: usize, max_players: usize) -> (r: BaseGame)
        ensures
            r.wf(),
            r.name == name,
            r.min_players == min_players,
            r.max_players == max_players,
            r.players@.len() == 0,
            !r.started,
            !r.ended,
            r.start_time is None,
            r.end_time is None,
            r.winner_id is None,
            r.turn_player_id is None,
            r.turn_number == 0,
            r.turn_timeout is None,
            r.game_timeout is None,
            r.result is None,
            r.custom_config == json_record(Seq::empty()),
    {
        let no_entries: Vec<(String, Value)> = Vec::new();
        proof {
            assert(no_entries@.map_values(|e: (String, Value)| (e.0@, e.1)) =~= Seq::<(Seq<char>, Value)>::empty());
        }
        let custom_config = json_object(no_entries);
        BaseGame {
            name,
            max_players,
            min_players,
            players: Vec::new(),
            started: false,
            ended: false,
            start_time: None,
            end_time: None,
            winner_id: None,
            turn_player_id: None,
            turn_number: 0,
            turn_timeout: None,
            game_timeout: None,
            custom_config,
            result: None,
        }
    }

    /// Limits each turn to `seconds`.
    pub fn set_turn_timeout(&mut self, seconds: u64)
        ensures
            *final(self) == (BaseGame { turn_timeout: Some(secs_duration(seconds)), ..*old(self) }),
    {
        self.turn_timeout = Some(duration_from_secs(seconds));
    }

    /// Limits the whole game to `seconds`.
    pub fn set_game_timeout(&mut self, seconds: u64)
        ensures
            *final(self) == (BaseGame { game_timeout: Some(secs_duration(seconds)), ..*old(self) }),
    {
        self.game_timeout = Some(duration_from_secs(seconds));
    }

    /// Replaces the game-specific settings.
    pub fn set_custom_config(&mut self, config: Value)
        ensures
            *final(self) == (BaseGame { custom_config: config, ..*old(self) }),
    {
        self.custom_config = config;
    }

    /// Passes the turn to the next seat and reports it; nothing happens
    /// unless a game runs and somebody is seated.
    pub fn next_turn(&mut self) -> (r: Option<GameEvent>)
        requires
            old(self).wf(),
            old(self).started && !old(self).ended && old(self).players@.len() > 0
                ==> old(self).turn_number < u32::MAX,
        ensures
            final(self).wf(),
            !(old(self).started && !old(self).ended && old(self).players@.len() > 0) ==> r is None
                && *final(self) == *old(self),
            old(self).started && !old(self).ended && old(self).players@.len() > 0 ==> {
                let next = old(self).players@[next_seat(old(self).players@, old(self).turn_player_id)].0;
                &&& final(self).turn_player_id == Some(next)
                &&& final(self).turn_number == old(self).turn_number + 1
                &&& *final(self) == (BaseGame {
                    turn_player_id: final(self).turn_player_id,
                    turn_number: final(self).turn_number,
                    ..*old(self)
                })
                &&& (r matches Some(GameEvent::TurnChanged { player_id, turn_number }) && player_id
                    == next && turn_number == final(self).turn_number)
            },
    {
        if !self.started || self.ended || self.players.len() == 0 {
            return None;
        }
        let current_index: usize = match &self.turn_player_id {
            Some(current_id) => match find_param(&self.players, current_id) {
                Some(j) => {
                    proof {
                        let k = seat_index(self.players@, current_id@);
                        assert(0 <= k < self.players@.len() && self.players@[k].0@ == current_id@);
                        assert(k == j as int);
                    }
                    j
                },
                None => 0,
            },
            None => 0,
        };
        let next_index = (current_index + 1) % self.players.len();
        let next_player_id = self.players[next_index].0.clone();
        self.turn_player_id = Some(next_player_id.clone());
        self.turn_number = self.turn_number + 1;
        Some(GameEvent::TurnChanged { player_id: next_player_id, turn_number: self.turn_number })
    }

    /// Seats `player_id`; refused once the game started, when the table is
    /// full, or when the id is taken (checked in that order).
    pub fn add_player(&mut self, player_id: String, player_name: String) -> (r: Result<(), String>)
        requires
            old(self).wf(),
        ensures
            final(self).wf(),
            old(self).seated(*final(self), player_id, player_name, r),
    {
        if self.started {
            return Err(String::from_str("ゲームはすでに開始されています"));
        }
        if self.players.len() >= self.max_players {
            return Err(String::from_str("プレイヤー数が最大値に達しています"));
        }
        if find_param(&self.players, &player_id).is_some() {
            return Err(String::from_str("同じIDのプレイヤーがすでに存在します"));
        }
        let ghost before = self.players@;
        self.players.push((player_id, player_name));
        proof {
            assert forall|a: int, b: int|
                0 <= a < self.players@.len() && 0 <= b < self.players@.len() && a != b implies (
                #[trigger] self.players@[a]).0@ != (#[trigger] self.players@[b]).0@ by {
                lemma_pairs_map_dom(before, player_id@);
                if a < before.len() && b < before.len() {
                    assert(self.players@[a] == before[a] && self.players@[b] == before[b]);
                } else if a < before.len() {
                    assert(self.players@[a] == before[a]);
                } else {
                    assert(self.players@[b] == before[b]);
                }
            }
        }
        Ok(())
    }

    /// Unseats `player_id`; refused while the game runs and for unknown
    /// players. When the player held the turn, the turn moves on (which,
    /// outside a running game, leaves it as it is).
    pub fn remove_player(&mut self, player_id: &String) -> (r: Result<(), String>)
        requires
            old(self).wf(),
        ensures
            final(self).wf(),
            old(self).unseated(*final(self), *player_id, r),
    {
        if self.started && !self.ended {
            return Err(String::from_str("ゲーム進行中にプレイヤーを削除できません"));
        }
        let j = match find_param(&self.players, player_id) {
            Some(j) => j,
            None => {
                return Err(String::from_str("プレイヤーが存在しません"));
            },
        };
        proof {
            let k = seat_index(self.players@, player_id@);
            assert(0 <= k < self.players@.len() && self.players@[k].0@ == player_id@);
            assert(k == j as int);
            lemma_pairs_map_remove(self.players@, j as int);
        }
        self.players.remove(j);
        let holds_turn = match &self.turn_player_id {
            Some(turn_player) => *turn_player == *player_id,
            None => false,
        };
        if holds_turn {
            self.next_turn();
        }
        Ok(())
    }

    /// Checks that `player_id` may act now and hands `data` back: the game
    /// must run, the player be seated, and hold the turn unless chatting.
    pub fn process_action(&mut self, player_id: &String, action_type: &str, data: Value) -> (r: Result<
        Value,
        String,
    >)
        ensures
            *final(self) == *old(self),
            !old(self).started ==> (r matches Err(e) && e@ == "ゲームがまだ開始されていません"@),
            old(self).started && old(self).ended ==> (r matches Err(e) && e@
                == "ゲームはすでに終了しています"@),
            old(self).started && !old(self).ended && !pairs_map(old(self).players@).contains_key(
                player_id@,
            ) ==> (r matches Err(e) && e@ == "プレイヤーが存在しません"@),
            old(self).started && !old(self).ended && pairs_map(old(self).players@).contains_key(
                player_id@,
            ) ==> if (old(self).turn_player_id matches Some(t) && t@ != player_id@) && action_type@
                != "chat"@ {
                (r matches Err(e) && e@ == "あなたのターンではありません"@)
            } else {
                r == Ok::<Value, String>(data)
            },
    {
        if !self.started {
            return Err(String::from_str("ゲームがまだ開始されていません"));
        }
        if self.ended {
            return Err(String::from_str("ゲームはすでに終了しています"));
        }
        if find_param(&self.players, player_id).is_none() {
            return Err(String::from_str("プレイヤーが存在しません"));
        }
        match &self.turn_player_id {
            Some(turn_player) => {
                if !(*turn_player == *player_id) && !is_chat(action_type) {
                    return Err(String::from_str("あなたのターンではありません"));
                }
            },
            None => {},
        }
        Ok(data)
    }

    /// Starts the game: refused when already started or below the minimum
    /// number of players. The first seat takes the first turn.
    pub fn start_game(&mut self) -> (r: Result<(), String>)
        requires
            old(self).wf(),
        ensures
            final(self).wf(),
            old(self).started_as(*final(self), r),
    {
        if self.started {
            return Err(String::from_str("ゲームはすでに開始されています"));
        }
        if self.players.len() < self.min_players {
            return Err(min_players_message(self.min_players));
        }
        self.started = true;
        self.start_time = Some(instant_now());
        if self.players.len() > 0 {
            self.turn_player_id = Some(self.players[0].0.clone());
            self.turn_number = 1;
        }
        Ok(())
    }

    /// Whole seconds since the start: to the end once the game ended, to
    /// now otherwise; zero before the start.
    pub fn elapsed_seconds(&self) -> (r: u64)
        ensures
            self.start_time is None ==> r == 0,
            self.start_time is Some && self.ended && self.end_time is Some ==> r == whole_secs(
                time_between(self.end_time->0, self.start_time->0),
            ),
    {
        match self.start_time {
            Some(start) => {
                let end = if self.ended {
                    match self.end_time {
                        Some(e) => e,
                        None => instant_now(),
                    }
                } else {
                    instant_now()
                };
                duration_secs(&duration_between(&end, &start))
            },
            None => 0,
        }
    }

    /// Ends the running game with `winner_id` (who must be seated):
    /// the winner scores 100, the others 0; the result is kept.
    pub fn end_game(&mut self, winner_id: Option<String>) -> (r: Result<GameResult, String>)
        requires
            old(self).wf(),
        ensures
            final(self).wf(),
            old(self).ended_as(*final(self), winner_id, r),
    {
        if !self.started {
            return Err(String::from_str("ゲームがまだ開始されていません"));
        }
        if self.ended {
            return Err(String::from_str("ゲームはすでに終了しています"));
        }
        match &winner_id {
            Some(id) => {
                if find_param(&self.players, id).is_none() {
                    return Err(String::from_str("指定された勝者が存在しません"));
                }
            },
            None => {},
        }
        self.ended = true;
        self.end_time = Some(instant_now());
        self.winner_id = copy_id(&winner_id);
        let mut player_scores: Vec<(String, i32)> = Vec::new();
        let mut i: usize = 0;
        while i < self.players.len()
            invariant
                i <= self.players@.len(),
                self.winner_id == winner_id,
                player_scores@.map_values(|p: (String, i32)| (p.0@, p.1)) == final_scores(
                    self.players@.take(i as int),
                    winner_id,
                ),
            decreases self.players@.len() - i,
        {
            let id = self.players[i].0.clone();
            let score: i32 = match &self.winner_id {
                Some(w) => if *w == id {
                    100
                } else {
                    0
                },
                None => 0,
            };
            let ghost before = player_scores@;
            player_scores.push((id, score));
            proof {
                assert(self.players@.take(i + 1) =~= self.players@.take(i as int).push(
                    self.players@[i as int],
                ));
                assert(player_scores@.map_values(|p: (String, i32)| (p.0@, p.1)) =~= before.map_values(
                    |p: (String, i32)| (p.0@, p.1),
                ).push((id@, score)));
                assert(final_scores(self.players@.take(i + 1), winner_id) =~= final_scores(
                    self.players@.take(i as int),
                    winner_id,
                ).push((id@, score)));
            }
            i = i + 1;
        }
        proof {
            assert(self.players@.take(i as int) =~= self.players@);
        }
        let game_duration = self.elapsed_seconds();
        let mut stat_entries: Vec<(String, Value)> = Vec::new();
        stat_entries.push((String::from_str("turns"), json_u64(self.turn_number as u64)));
        proof {
            reveal_strlit("turns");
            assert(stat_entries@.map_values(|e: (String, Value)| (e.0@, e.1)) =~= seq![
                ("turns"@, json_number(self.turn_number as u64)),
            ]);
        }
        let stats = json_object(stat_entries);
        let result = GameResult { winner_id, player_scores, game_duration, stats };
        let kept = GameResult {
            winner_id: copy_id(&result.winner_id),
            player_scores: copy_scores(&result.player_scores),
            game_duration: result.game_duration,
            stats: result.stats.clone(),
        };
        self.result = Some(kept);
        Ok(result)
    }

    /// Ends the game if, at `now`, it has run longer than its time limit;
    /// reports the end. Nothing happens before the start or after the end.
    pub fn update_at(&mut self, now: Instant) -> (r: Vec<GameEvent>)
        requires
            old(self).wf(),
        ensures
            final(self).wf(),
            old(self).updated_at(now, *final(self), r@),
    {
        let mut events: Vec<GameEvent> = Vec::new();
        if !self.started || self.ended {
            return events;
        }
        match self.game_timeout {
            Some(timeout) => match self.start_time {
                Some(start_time) => {
                    if duration_longer(&duration_between(&now, &start_time), &timeout) {
                        match self.end_game(None) {
                            Ok(_) => {
                                events.push(GameEvent::GameEnded { winner_id: None });
                            },
                            Err(_) => {},
                        }
                        return events;
                    }
                },
                None => {},
            },
            None => {},
        }
        events
    }

    /// Ends the game once it has run longer than its time limit, judged by
    /// the clock now; reports the end. Nothing happens before the start or
    /// after the end.
    pub fn update(&mut self) -> (r: Vec<GameEvent>)
        requires
            old(self).wf(),
        ensures
            final(self).wf(),
            exists|now: Instant| #[trigger] old(self).updated_at(now, *final(self), r@),
    {
        let now = instant_now();
        self.update_at(now)
    }

    /// The kept result of an ended game.
    pub fn get_result(&self) -> (r: Option<GameResult>)
        ensures
            r is Some <==> self.result is Some,
            (r matches Some(res) ==> res.winner_id == self.result->0.winner_id
                && res.player_scores@ == self.result->0.player_scores@ && res.game_duration
                == self.result->0.game_duration && res.stats == self.result->0.stats),
    {
        match &self.result {
            Some(res) => Some(
                GameResult {
                    winner_id: copy_id(&res.winner_id),
                    player_scores: copy_scores(&res.player_scores),
                    game_duration: res.game_duration,
                    stats: res.stats.clone(),
                },
            ),
            None => None,
        }
    }

    /// Whether the game ended.
    pub fn is_game_ended(&self) -> (r: bool)
        ensures
            r == self.ended,
    {
        self.ended
    }
}

/// A copy of an optional player id.
fn copy_id(id: &Option<String>) -> (r: Option<String>)
    ensures
        r == *id,
{
    match id {
        Some(s) => Some(s.clone()),
        None => None,
    }
}

/// A copy of a score table.
fn copy_scores(v: &Vec<(String, i32)>) -> (r: Vec<(String, i32)>)
    ensures
        r@ == v@,
{
    let mut r: Vec<(String, i32)> = Vec::new();
    let mut i: usize = 0;
    while i < v.len()
        invariant
            i <= v@.len(),
            r@ == v@.take(i as int),
        decreases v@.len() - i,
    {
        r.push((v[i].0.clone(), v[i].1));
        assert(v@.take(i + 1) =~= v@.take(i as int).push(v@[i as int]));
        i = i + 1;
    }
    assert(v@.take(i as int) =~= v@);
    r
}

/// The refusal for too few players, naming the minimum.
fn min_players_message(min_players: usize) -> (r: String)
    ensures
        r@ == min_players_text(min_players as nat),
{
    let mut s = String::from_str("ゲームを開始するには");
    write_decimal(&mut s, min_players as u64);
    s.append("人以上のプレイヤーが必要です");
    s
}

/// The statistics an ended game keeps: its number of turns.
pub open spec fn turns_stats(turns: u32) -> Value {
    json_record(seq![("turns"@, json_number(turns as u64))])
}

/// The refusal for fewer than `n` players.
pub open spec fn min_players_text(n: nat) -> Seq<char> {
    "ゲームを開始するには"@ + decimal_text(n) + "人以上のプレイヤーが必要です"@
}

/// Turns go round the table in seat order: after the player at seat `i`
/// comes the one at seat `i + 1`, and after the last seat the first.
pub proof fn lemma_turn_follows_seats(players: Seq<(String, String)>, i: int)
    requires
        keys_distinct(players),
        0 <= i < players.len(),
    ensures
        next_seat(players, Some(players[i].0)) == (i + 1) % (players.len() as int),
{
    lemma_pairs_map_value(players, i);
    let k = seat_index(players, players[i].0@);
    assert(0 <= k < players.len() && players[k].0@ == players[i].0@);
    assert(k == i);
}

} // verus!
