//! One client's requests to the lobby: checking them against the client's
//! session (its name and the room it is in) and carrying them out on the
//! room manager. What is to be sent comes back as replies; sending them is
//! left to the caller.

use vstd::prelude::*;
use crate::server::lobby::{has_room_id, ids_except, is_member, member_ids, room_at, GameRoom, RoomManager};
use crate::server::room::{RoomInfo, RoomState};

verus! {

/// A request of a lobby client.
pub enum LobbyRequest {
    /// Take the name `name`.
    Authenticate { name: String },
    /// Open a room and enter it.
    CreateRoom { name: String, max_players: usize, is_public: bool, game_type: String },
    /// Enter the room `room_id`.
    JoinRoom { room_id: String },
    /// Leave the current room.
    LeaveRoom,
    /// Start the game of the current room (its owner only).
    StartGame,
    /// Report readiness; nothing is done with it yet.
    ReadyState { ready: bool },
    /// A move in the current room's game.
    GameAction { action: serde_json::Value },
    /// Keep the connection alive.
    Ping,
    /// Say `message` to the current room.
    Chat { message: String },
}

/// What the server tells clients.
pub enum LobbyEvent {
    Authenticated { player_id: String },
    RoomCreated { room_id: String },
    RoomJoined { room_info: RoomInfo },
    PlayerJoined { player_id: String, player_name: String },
    PlayerLeft { player_id: String },
    RoomLeft,
    GameStarted,
    ActionResult { result: bool, message: String, data: Option<serde_json::Value> },
    Pong,
    Chat { player_id: String, player_name: String, message: String },
}

/// An event and whom it is for.
pub enum LobbyReply {
    /// For the client that sent the request.
    ToSender(LobbyEvent),
    /// For the members listed in `to`.
    ToMembers { to: Vec<String>, event: LobbyEvent },
}

/// `c` is white space (the Unicode `White_Space` property, as
/// `char::is_whitespace` and `str::trim` use it).
pub open spec fn is_white(c: char) -> bool {
    let n = c as u32;
    (9 <= n <= 13) || n == 32 || n == 0x85 || n == 0xa0 || n == 0x1680 || (0x2000 <= n <= 0x200a) || n
        == 0x2028 || n == 0x2029 || n == 0x202f || n == 0x205f || n == 0x3000
}

/// `s` is empty once trimmed: it holds white space only.
pub open spec fn blank(s: Seq<char>) -> bool {
    forall|i: int| 0 <= i < s.len() ==> is_white(#[trigger] s[i])
}

/// The length of `s` in bytes of UTF-8, as `str::len` gives it.
pub open spec fn byte_len(s: Seq<char>) -> usize {
    vstd::utf8::encode_utf8(s).len() as usize
}

/// Whether `c` is white space (see `is_white`).
pub fn is_white_char(c: char) -> (r: bool)
    ensures
        r == is_white(c),
{
    let n = c as u32;
    (9 <= n && n <= 13) || n == 32 || n == 0x85 || n == 0xa0 || n == 0x1680 || (0x2000 <= n && n <= 0x200a) || n
        == 0x2028 || n == 0x2029 || n == 0x202f || n == 0x205f || n == 0x3000
}

/// Whether `s` holds white space only (see `blank`).
pub fn is_blank(s: &str) -> (r: bool)
    ensures
        r == blank(s@),
{
    let n = s.unicode_len();
    let mut i: usize = 0;
    while i < n
        invariant
            n == s@.len(),
            i <= n,
            forall|j: int| 0 <= j < i ==> is_white(#[trigger] s@[j]),
        decreases n - i,
    {
        if !is_white_char(s.get_char(i)) {
            return false;
        }
        i = i + 1;
    }
    true
}

/// `rep` is `ev` for the sender.
pub open spec fn to_sender(rep: LobbyReply, ev: LobbyEvent) -> bool {
    rep == LobbyReply::ToSender(ev)
}

/// `rep` is `ev` for the members `ids`, in that order.
pub open spec fn to_members(rep: LobbyReply, ids: Seq<Seq<char>>, ev: LobbyEvent) -> bool {
    rep matches LobbyReply::ToMembers { to, event } && to@.map_values(|s: String| s@) == ids && event == ev
}

/// `r` is the error `text`.
pub open spec fn refused(r: Result<Vec<LobbyReply>, String>, text: Seq<char>) -> bool {
    r matches Err(e) && e@ == text
}

/// What a request does to a session (`name`, `room`) of player `pid` and
/// to the manager `m0`, leading to `m1`, `name1`, `room1` and the answer
/// `r`. The checks come in this order, and the first that fails is the
/// error; on an error nothing changes, except where stated.
/// - Authenticate: the name must not be blank and at most 20 bytes long;
///   it becomes the session's name, and the sender is told.
/// - CreateRoom: the session needs a name, the room name must not be
///   blank, and the session must be in no room; a room owned by the player
///   is opened and entered, and the sender is told its id.
/// - JoinRoom: the session needs a name and must be in no room; the room
///   must exist, have a free seat and be waiting. The player is seated;
///   the other members are told, then the sender gets the room.
/// - LeaveRoom: the session must be in a room, which must exist, and the
///   player must be its member (else the room only notes the activity).
///   The player leaves; the remaining members are told; a room left empty
///   is deleted; the sender is told.
/// - StartGame: the session must be in an existing room that the player
///   owns; the room starts playing and its members are told.
/// - ReadyState does nothing; Ping is answered.
/// - GameAction: the session must be in an existing room; the action is
///   accepted.
/// - Chat: the session needs a name; the message must not be blank and at
///   most 500 bytes long; the session must be in a room. If the room exists
///   its members get the message.
pub open spec fn lobby_stepped(
    m0: RoomManager,
    pid: String,
    name: String,
    room: Option<String>,
    msg: LobbyRequest,
    m1: RoomManager,
    name1: String,
    room1: Option<String>,
    r: Result<Vec<LobbyReply>, String>,
) -> bool {
    let same = m1.rooms() == m0.rooms() && name1 == name && room1 == room;
    match msg {
        LobbyRequest::Authenticate { name: new_name } => if blank(new_name@) {
            same && refused(r, "名前は空にできません"@)
        } else if byte_len(new_name@) > 20 {
            same && refused(r, "名前は20文字以内にしてください"@)
        } else {
            &&& m1.rooms() == m0.rooms() && name1 == new_name && room1 == room
            &&& r matches Ok(v) && v@.len() == 1 && to_sender(v@[0], LobbyEvent::Authenticated { player_id: pid })
        },
        LobbyRequest::CreateRoom { name: room_name, max_players, is_public, game_type } => if name@.len() == 0 {
            same && refused(r, "認証が必要です"@)
        } else if blank(room_name@) {
            same && refused(r, "ルーム名は空にできません"@)
        } else if room is Some {
            same && refused(r, "すでにルームに参加しています"@)
        } else {
            let info = m1.rooms()[room_at(m1.rooms(), room1->0@)].info;
            &&& name1 == name
            &&& room1 is Some && room1->0 == info.id
            &&& m0.opened_as(m1, info, room_name, pid, name, max_players, is_public, game_type)
            &&& r matches Ok(v) && v@.len() == 1 && to_sender(v@[0], LobbyEvent::RoomCreated { room_id: info.id })
        },
        LobbyRequest::JoinRoom { room_id } => if name@.len() == 0 {
            same && refused(r, "認証が必要です"@)
        } else if room is Some {
            same && refused(r, "すでにルームに参加しています"@)
        } else if !has_room_id(m0.rooms(), room_id@) {
            same && refused(r, "ルームが見つかりません"@)
        } else {
            let i = room_at(m0.rooms(), room_id@);
            let g = m0.rooms()[i];
            let g1 = m1.rooms()[i];
            if g.players@.len() >= g.info.max_players {
                same && refused(r, "ルームは満員です"@)
            } else if g.info.state != RoomState::Waiting {
                same && refused(r, "ゲームはすでに開始されています"@)
            } else {
                &&& m1.rooms() == m0.rooms().update(i, g1)
                &&& g.seated_as(g1, pid, name)
                &&& name1 == name && room1 == Some(room_id)
                &&& r matches Ok(v) && v@.len() == 2 && to_members(
                    v@[0],
                    ids_except(g1.players@, pid@),
                    LobbyEvent::PlayerJoined { player_id: pid, player_name: name },
                ) && to_sender(v@[1], LobbyEvent::RoomJoined { room_info: g1.info })
            }
        },
        LobbyRequest::LeaveRoom => if room is None {
            same && refused(r, "ルームに参加していません"@)
        } else if !has_room_id(m0.rooms(), room->0@) {
            same && refused(r, "ルームが見つかりません"@)
        } else {
            let i = room_at(m0.rooms(), room->0@);
            let g = m0.rooms()[i];
            let g1 = m1.rooms()[i];
            if !is_member(g.players@, pid@) {
                &&& m1.rooms() == m0.rooms().update(i, g1)
                &&& g.left_as(g1, pid@, false)
                &&& name1 == name && room1 == room
                &&& refused(r, "ルームから退出できませんでした"@)
            } else if g.players@.len() == 1 {
                &&& m1.rooms() == m0.rooms().remove(i)
                &&& name1 == name && room1 is None
                &&& r matches Ok(v) && v@.len() == 2 && to_members(
                    v@[0],
                    Seq::empty(),
                    LobbyEvent::PlayerLeft { player_id: pid },
                ) && to_sender(v@[1], LobbyEvent::RoomLeft)
            } else {
                &&& m1.rooms() == m0.rooms().update(i, g1)
                &&& g.left_as(g1, pid@, true)
                &&& name1 == name && room1 is None
                &&& r matches Ok(v) && v@.len() == 2 && to_members(
                    v@[0],
                    member_ids(g1.players@),
                    LobbyEvent::PlayerLeft { player_id: pid },
                ) && to_sender(v@[1], LobbyEvent::RoomLeft)
            }
        },
        LobbyRequest::StartGame => if room is None {
            same && refused(r, "ルームに参加していません"@)
        } else if !has_room_id(m0.rooms(), room->0@) {
            same && refused(r, "ルームが見つかりません"@)
        } else {
            let i = room_at(m0.rooms(), room->0@);
            let g = m0.rooms()[i];
            let g1 = m1.rooms()[i];
            if g.info.owner_id@ != pid@ {
                same && refused(r, "ゲームを開始する権限がありません"@)
            } else {
                &&& m1.rooms() == m0.rooms().update(i, g1)
                &&& g1.info == (RoomInfo { state: RoomState::Playing, ..g.info })
                &&& g1.players == g.players && g1.spectators == g.spectators && g1.outbox == g.outbox
                &&& name1 == name && room1 == room
                &&& r matches Ok(v) && v@.len() == 1 && to_members(
                    v@[0],
                    member_ids(g.players@),
                    LobbyEvent::GameStarted,
                )
            }
        },
        LobbyRequest::ReadyState { .. } => same && (r matches Ok(v) && v@.len() == 0),
        LobbyRequest::GameAction { .. } => if room is None {
            same && refused(r, "ルームに参加していません"@)
        } else if !has_room_id(m0.rooms(), room->0@) {
            same && refused(r, "ルームが見つかりません"@)
        } else {
            &&& same
            &&& r matches Ok(v) && v@.len() == 1 && (v@[0] matches LobbyReply::ToSender(
                LobbyEvent::ActionResult { result, message, data },
            ) && result && message@ == "アクションを受け付けました"@ && data is None)
        },
        LobbyRequest::Ping => same && (r matches Ok(v) && v@.len() == 1 && to_sender(v@[0], LobbyEvent::Pong)),
        LobbyRequest::Chat { message } => if name@.len() == 0 {
            same && refused(r, "認証が必要です"@)
        } else if blank(message@) {
            same && refused(r, "メッセージは空にできません"@)
        } else if byte_len(message@) > 500 {
            same && refused(r, "メッセージは500文字以内にしてください"@)
        } else if room is None {
            same && refused(r, "ルームに参加していません"@)
        } else if has_room_id(m0.rooms(), room->0@) {
            &&& same
            &&& r matches Ok(v) && v@.len() == 1 && to_members(
                v@[0],
                member_ids(m0.rooms()[room_at(m0.rooms(), room->0@)].players@),
                LobbyEvent::Chat { player_id: pid, player_name: name, message },
            )
        } else {
            same && (r matches Ok(v) && v@.len() == 0)
        },
    }
}

/// Handles `Authenticate`.
fn on_authenticate(
    manager: &mut RoomManager,
    player_id: &String,
    player_name: &mut String,
    current_room_id: &mut Option<String>,
    name: String,
) -> (r: Result<Vec<LobbyReply>, String>)
    requires
        old(manager).wf(),
    ensures
        final(manager).wf(),
        lobby_stepped(
            *old(manager),
            *player_id,
            *old(player_name),
            *old(current_room_id),
            LobbyRequest::Authenticate { name },
            *final(manager),
            *final(player_name),
            *final(current_room_id),
            r,
        ),
{
    if is_blank(name.as_str()) {
        return Err(String::from_str("名前は空にできません"));
    }
    if name.as_str().len() > 20 {
        return Err(String::from_str("名前は20文字以内にしてください"));
    }
    *player_name = name;
    let mut v: Vec<LobbyReply> = Vec::new();
    v.push(LobbyReply::ToSender(LobbyEvent::Authenticated { player_id: player_id.clone() }));
    Ok(v)
}

/// Handles `CreateRoom`.
fn on_create_room(
    manager: &mut RoomManager,
    player_id: &String,
    player_name: &mut String,
    current_room_id: &mut Option<String>,
    name: String,
    max_players: usize,
    is_public: bool,
    game_type: String,
) -> (r: Result<Vec<LobbyReply>, String>)
    requires
        old(manager).wf(),
    ensures
        final(manager).wf(),
        lobby_stepped(
            *old(manager),
            *player_id,
            *old(player_name),
            *old(current_room_id),
            LobbyRequest::CreateRoom { name, max_players, is_public, game_type },
            *final(manager),
            *final(player_name),
            *final(current_room_id),
            r,
        ),
{
    if player_name.as_str().is_empty() {
        return Err(String::from_str("認証が必要です"));
    }
    if is_blank(name.as_str()) {
        return Err(String::from_str("ルーム名は空にできません"));
    }
    if current_room_id.is_some() {
        return Err(String::from_str("すでにルームに参加しています"));
    }
    let ghost m0 = *manager;
    let ghost room_name = name;
    let ghost kind = game_type;
    let info = manager.create_room(name, player_id.clone(), player_name.clone(), max_players, is_public, game_type);
    *current_room_id = Some(info.id.clone());
    let mut v: Vec<LobbyReply> = Vec::new();
    v.push(LobbyReply::ToSender(LobbyEvent::RoomCreated { room_id: info.id.clone() }));
    let r = Ok(v);
    proof {
        assert(m0.opened_as(*manager, info, room_name, *player_id, *player_name, max_players, is_public, kind));
        assert(manager.rooms()[room_at(manager.rooms(), info.id@)].info == info);
    }
    r
}

/// Where the room `room_id` is, as `room_at` names it.
fn locate(manager: &RoomManager, room_id: &str) -> (r: Option<usize>)
    requires
        manager.wf(),
    ensures
        r is None <==> !has_room_id(manager.rooms(), room_id@),
        r matches Some(i) ==> i < manager.rooms().len() && i == room_at(manager.rooms(), room_id@),
{
    let r = manager.find_room(room_id);
    proof {
        if let Some(i) = r {
            manager.lemma_room_at(i as int);
        }
    }
    r
}

/// Handles `JoinRoom`.
fn on_join_room(
    manager: &mut RoomManager,
    player_id: &String,
    player_name: &mut String,
    current_room_id: &mut Option<String>,
    room_id: String,
) -> (r: Result<Vec<LobbyReply>, String>)
    requires
        old(manager).wf(),
    ensures
        final(manager).wf(),
        lobby_stepped(
            *old(manager),
            *player_id,
            *old(player_name),
            *old(current_room_id),
            LobbyRequest::JoinRoom { room_id },
            *final(manager),
            *final(player_name),
            *final(current_room_id),
            r,
        ),
{
    if player_name.as_str().is_empty() {
        return Err(String::from_str("認証が必要です"));
    }
    if current_room_id.is_some() {
        return Err(String::from_str("すでにルームに参加しています"));
    }
    let i = match locate(manager, room_id.as_str()) {
        Some(i) => i,
        None => return Err(String::from_str("ルームが見つかりません")),
    };
    let room = manager.room_ref(i);
    if room.players.len() >= room.info.max_players {
        return Err(String::from_str("ルームは満員です"));
    }
    match room.info.state {
        RoomState::Waiting => {},
        _ => return Err(String::from_str("ゲームはすでに開始されています")),
    }
    let seated = manager.seat_at(i, player_id.clone(), player_name.clone());
    if !seated {
        return Err(String::from_str("ルームに参加できませんでした"));
    }
    *current_room_id = Some(room_id);
    let room = manager.room_ref(i);
    let to = crate::server::lobby::recipients(&room.players, Some(player_id.as_str()));
    let info = crate::server::lobby::copy_info(&room.info);
    let mut v: Vec<LobbyReply> = Vec::new();
    v.push(
        LobbyReply::ToMembers {
            to,
            event: LobbyEvent::PlayerJoined { player_id: player_id.clone(), player_name: player_name.clone() },
        },
    );
    v.push(LobbyReply::ToSender(LobbyEvent::RoomJoined { room_info: info }));
    Ok(v)
}

/// Handles `LeaveRoom`.
fn on_leave_room(
    manager: &mut RoomManager,
    player_id: &String,
    player_name: &mut String,
    current_room_id: &mut Option<String>,
) -> (r: Result<Vec<LobbyReply>, String>)
    requires
        old(manager).wf(),
    ensures
        final(manager).wf(),
        lobby_stepped(
            *old(manager),
            *player_id,
            *old(player_name),
            *old(current_room_id),
            LobbyRequest::LeaveRoom,
            *final(manager),
            *final(player_name),
            *final(current_room_id),
            r,
        ),
{
    let room_id = match current_room_id {
        Some(id) => id.clone(),
        None => return Err(String::from_str("ルームに参加していません")),
    };
    let i = match locate(manager, room_id.as_str()) {
        Some(i) => i,
        None => return Err(String::from_str("ルームが見つかりません")),
    };
    let ghost m0 = *manager;
    let removed = manager.unseat_at(i, player_id.as_str());
    if !removed {
        return Err(String::from_str("ルームから退出できませんでした"));
    }
    let ghost mid = *manager;
    let room = manager.room_ref(i);
    let to = crate::server::lobby::recipients(&room.players, None);
    let empty = room.players.len() == 0;
    proof {
        let g = m0.rooms()[i as int];
        let g1 = mid.rooms()[i as int];
        let k = choose|k: int|
            0 <= k < g.players@.len() && (#[trigger] g.players@[k]).id@ == player_id@
                && g1.players@ == g.players@.remove(k);
        assert(g1.players@.len() == g.players@.len() - 1);
        assert(g1.info.id == g.info.id);
    }
    if empty {
        manager.delete_room(room_id.as_str());
        proof {
            mid.lemma_room_at(i as int);
            assert(manager.rooms() =~= m0.rooms().remove(i as int));
            assert(to@.map_values(|s: String| s@) =~= Seq::<Seq<char>>::empty());
        }
    }
    *current_room_id = None;
    let mut v: Vec<LobbyReply> = Vec::new();
    v.push(LobbyReply::ToMembers { to, event: LobbyEvent::PlayerLeft { player_id: player_id.clone() } });
    v.push(LobbyReply::ToSender(LobbyEvent::RoomLeft));
    Ok(v)
}

/// Handles `StartGame`.
fn on_start_game(
    manager: &mut RoomManager,
    player_id: &String,
    player_name: &mut String,
    current_room_id: &mut Option<String>,
) -> (r: Result<Vec<LobbyReply>, String>)
    requires
        old(manager).wf(),
    ensures
        final(manager).wf(),
        lobby_stepped(
            *old(manager),
            *player_id,
            *old(player_name),
            *old(current_room_id),
            LobbyRequest::StartGame,
            *final(manager),
            *final(player_name),
            *final(current_room_id),
            r,
        ),
{
    let room_id = match current_room_id {
        Some(id) => id.clone(),
        None => return Err(String::from_str("ルームに参加していません")),
    };
    let i = match locate(manager, room_id.as_str()) {
        Some(i) => i,
        None => return Err(String::from_str("ルームが見つかりません")),
    };
    let room = manager.room_ref(i);
    if !(room.info.owner_id == *player_id) {
        return Err(String::from_str("ゲームを開始する権限がありません"));
    }
    let to = crate::server::lobby::recipients(&room.players, None);
    manager.set_state_at(i, RoomState::Playing);
    let mut v: Vec<LobbyReply> = Vec::new();
    v.push(LobbyReply::ToMembers { to, event: LobbyEvent::GameStarted });
    Ok(v)
}

/// Handles `GameAction`; the action itself is not looked at.
fn on_game_action(
    manager: &mut RoomManager,
    player_id: &String,
    player_name: &mut String,
    current_room_id: &mut Option<String>,
    action: serde_json::Value,
) -> (r: Result<Vec<LobbyReply>, String>)
    requires
        old(manager).wf(),
    ensures
        final(manager).wf(),
        lobby_stepped(
            *old(manager),
            *player_id,
            *old(player_name),
            *old(current_room_id),
            LobbyRequest::GameAction { action },
            *final(manager),
            *final(player_name),
            *final(current_room_id),
            r,
        ),
{
    let room_id = match current_room_id {
        Some(id) => id.clone(),
        None => return Err(String::from_str("ルームに参加していません")),
    };
    if locate(manager, room_id.as_str()).is_none() {
        return Err(String::from_str("ルームが見つかりません"));
    }
    let mut v: Vec<LobbyReply> = Vec::new();
    v.push(
        LobbyReply::ToSender(
            LobbyEvent::ActionResult {
                result: true,
                message: String::from_str("アクションを受け付けました"),
                data: None,
            },
        ),
    );
    Ok(v)
}

/// Handles `Chat`.
fn on_chat(
    manager: &mut RoomManager,
    player_id: &String,
    player_name: &mut String,
    current_room_id: &mut Option<String>,
    message: String,
) -> (r: Result<Vec<LobbyReply>, String>)
    requires
        old(manager).wf(),
    ensures
        final(manager).wf(),
        lobby_stepped(
            *old(manager),
            *player_id,
            *old(player_name),
            *old(current_room_id),
            LobbyRequest::Chat { message },
            *final(manager),
            *final(player_name),
            *final(current_room_id),
            r,
        ),
{
    if player_name.as_str().is_empty() {
        return Err(String::from_str("認証が必要です"));
    }
    if is_blank(message.as_str()) {
        return Err(String::from_str("メッセージは空にできません"));
    }
    if message.as_str().len() > 500 {
        return Err(String::from_str("メッセージは500文字以内にしてください"));
    }
    let room_id = match current_room_id {
        Some(id) => id.clone(),
        None => return Err(String::from_str("ルームに参加していません")),
    };
    let mut v: Vec<LobbyReply> = Vec::new();
    match locate(manager, room_id.as_str()) {
        Some(i) => {
            let room = manager.room_ref(i);
            let to = crate::server::lobby::recipients(&room.players, None);
            v.push(
                LobbyReply::ToMembers {
                    to,
                    event: LobbyEvent::Chat {
                        player_id: player_id.clone(),
                        player_name: player_name.clone(),
                        message,
                    },
                },
            );
        },
        None => {},
    }
    Ok(v)
}

/// Handles one request of player `player_id`, whose session holds the name
/// `player_name` (empty before authentication) and the room it is in,
/// `current_room_id`: checks it, carries it out on `manager`, and returns
/// what is to be sent, in order, or the error for the client (see
/// `lobby_stepped`).
pub fn process_lobby_message(
    manager: &mut RoomManager,
    player_id: &String,
    player_name: &mut String,
    current_room_id: &mut Option<String>,
    msg: LobbyRequest,
) -> (r: Result<Vec<LobbyReply>, String>)
    requires
        old(manager).wf(),
    ensures
        final(manager).wf(),
        lobby_stepped(
            *old(manager),
            *player_id,
            *old(player_name),
            *old(current_room_id),
            msg,
            *final(manager),
            *final(player_name),
            *final(current_room_id),
            r,
        ),
{
    match msg {
        LobbyRequest::Authenticate { name } => on_authenticate(manager, player_id, player_name, current_room_id, name),
        LobbyRequest::CreateRoom { name, max_players, is_public, game_type } => on_create_room(
            manager,
            player_id,
            player_name,
            current_room_id,
            name,
            max_players,
            is_public,
            game_type,
        ),
        LobbyRequest::JoinRoom { room_id } => on_join_room(manager, player_id, player_name, current_room_id, room_id),
        LobbyRequest::LeaveRoom => on_leave_room(manager, player_id, player_name, current_room_id),
        LobbyRequest::StartGame => on_start_game(manager, player_id, player_name, current_room_id),
        LobbyRequest::ReadyState { .. } => Ok(Vec::new()),
        LobbyRequest::GameAction { action } => on_game_action(
            manager,
            player_id,
            player_name,
            current_room_id,
            action,
        ),
        LobbyRequest::Ping => {
            let mut v: Vec<LobbyReply> = Vec::new();
            v.push(LobbyReply::ToSender(LobbyEvent::Pong));
            Ok(v)
        },
        LobbyRequest::Chat { message } => on_chat(manager, player_id, player_name, current_room_id, message),
    }
}

/// What a client's disconnection does: if its session was in an existing
/// room, the player leaves it (see `GameRoom::left_as`; a room left empty
/// stays) and the members other than the player are told; the session is
/// in no room afterwards.
pub open spec fn disconnected(
    m0: RoomManager,
    pid: String,
    room: Option<String>,
    m1: RoomManager,
    room1: Option<String>,
    replies: Seq<LobbyReply>,
) -> bool {
    &&& room1 is None
    &&& if room is Some && has_room_id(m0.rooms(), room->0@) {
        let i = room_at(m0.rooms(), room->0@);
        let g = m0.rooms()[i];
        let g1 = m1.rooms()[i];
        &&& m1.rooms() == m0.rooms().update(i, g1)
        &&& g.left_as(g1, pid@, is_member(g.players@, pid@))
        &&& replies.len() == 1
        &&& to_members(replies[0], ids_except(g1.players@, pid@), LobbyEvent::PlayerLeft { player_id: pid })
    } else {
        m1.rooms() == m0.rooms() && replies.len() == 0
    }
}

/// Ends the session of `player_id` (see `disconnected`).
pub fn disconnect(manager: &mut RoomManager, player_id: &String, current_room_id: &mut Option<String>) -> (r: Vec<
    LobbyReply,
>)
    requires
        old(manager).wf(),
    ensures
        final(manager).wf(),
        disconnected(*old(manager), *player_id, *old(current_room_id), *final(manager), *final(current_room_id), r@),
{
    let mut v: Vec<LobbyReply> = Vec::new();
    let room_id = match current_room_id {
        Some(id) => id.clone(),
        None => return v,
    };
    *current_room_id = None;
    match locate(manager, room_id.as_str()) {
        Some(i) => {
            manager.unseat_at(i, player_id.as_str());
            let room = manager.room_ref(i);
            let to = crate::server::lobby::recipients(&room.players, Some(player_id.as_str()));
            v.push(LobbyReply::ToMembers { to, event: LobbyEvent::PlayerLeft { player_id: player_id.clone() } });
        },
        None => {},
    }
    v
}

} // verus!
