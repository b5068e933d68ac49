use ecs_game::server::lobby::RoomManager;
use ecs_game::server::room::RoomState;
use ecs_game::server::session::{disconnect, is_blank, process_lobby_message, LobbyEvent, LobbyReply, LobbyRequest};

fn s(x: &str) -> String {
    x.to_string()
}

struct Client {
    id: String,
    name: String,
    room: Option<String>,
}

fn client(id: &str) -> Client {
    Client { id: s(id), name: String::new(), room: None }
}

fn send(m: &mut RoomManager, c: &mut Client, req: LobbyRequest) -> Result<Vec<LobbyReply>, String> {
    process_lobby_message(m, &c.id, &mut c.name, &mut c.room, req)
}

fn err(r: Result<Vec<LobbyReply>, String>) -> String {
    match r {
        Err(e) => e,
        Ok(_) => panic!("expected an error"),
    }
}

fn create(name: &str, max_players: usize) -> LobbyRequest {
    LobbyRequest::CreateRoom { name: s(name), max_players, is_public: true, game_type: s("minesweeper") }
}

#[test]
fn blank_means_white_space_only() {
    assert!(is_blank(""));
    assert!(is_blank(" \t\n\u{3000}"));
    assert!(!is_blank(" a "));
}

#[test]
fn authentication_checks_the_name() {
    let mut m = RoomManager::new();
    let mut a = client("a");
    assert_eq!(err(send(&mut m, &mut a, LobbyRequest::Authenticate { name: s("   ") })), "名前は空にできません");
    assert_eq!(
        err(send(&mut m, &mut a, LobbyRequest::Authenticate { name: s("abcdefghijklmnopqrstu") })),
        "名前は20文字以内にしてください"
    );
    // Seven characters of three bytes each: 21 bytes.
    assert_eq!(
        err(send(&mut m, &mut a, LobbyRequest::Authenticate { name: s("あいうえおかき") })),
        "名前は20文字以内にしてください"
    );
    assert_eq!(a.name, "");
    let replies = send(&mut m, &mut a, LobbyRequest::Authenticate { name: s("Alice") }).unwrap();
    assert_eq!(a.name, "Alice");
    assert_eq!(replies.len(), 1);
    assert!(matches!(&replies[0], LobbyReply::ToSender(LobbyEvent::Authenticated { player_id }) if player_id == "a"));
}

#[test]
fn rooms_need_a_name_and_an_authenticated_player() {
    let mut m = RoomManager::new();
    let mut a = client("a");
    assert_eq!(err(send(&mut m, &mut a, create("Fun", 4))), "認証が必要です");
    assert_eq!(err(send(&mut m, &mut a, LobbyRequest::JoinRoom { room_id: s("x") })), "認証が必要です");
    send(&mut m, &mut a, LobbyRequest::Authenticate { name: s("Alice") }).unwrap();
    assert_eq!(err(send(&mut m, &mut a, create(" ", 4))), "ルーム名は空にできません");
    assert_eq!(err(send(&mut m, &mut a, LobbyRequest::JoinRoom { room_id: s("x") })), "ルームが見つかりません");
    let replies = send(&mut m, &mut a, create("Fun", 4)).unwrap();
    let id = a.room.clone().unwrap();
    assert!(matches!(&replies[0], LobbyReply::ToSender(LobbyEvent::RoomCreated { room_id }) if *room_id == id));
    let room = m.get_room(&id).unwrap();
    assert_eq!(room.info.owner_id, "a");
    assert_eq!(room.players.len(), 1);
    assert_eq!(room.players[0].name, "Alice");
    assert_eq!(err(send(&mut m, &mut a, create("More", 4))), "すでにルームに参加しています");
}

#[test]
fn joining_leaving_and_starting() {
    let mut m = RoomManager::new();
    let mut a = client("a");
    let mut b = client("b");
    let mut c = client("c");
    for (x, n) in [(&mut a, "Alice"), (&mut b, "Bob"), (&mut c, "Cy")] {
        send(&mut m, x, LobbyRequest::Authenticate { name: s(n) }).unwrap();
    }
    send(&mut m, &mut a, create("Duo", 2)).unwrap();
    let id = a.room.clone().unwrap();
    let replies = send(&mut m, &mut b, LobbyRequest::JoinRoom { room_id: id.clone() }).unwrap();
    assert_eq!(b.room, Some(id.clone()));
    assert_eq!(replies.len(), 2);
    match &replies[0] {
        LobbyReply::ToMembers { to, event: LobbyEvent::PlayerJoined { player_id, player_name } } => {
            assert_eq!(to, &vec![s("a")]);
            assert_eq!(player_id, "b");
            assert_eq!(player_name, "Bob");
        }
        _ => panic!("expected the join notice"),
    }
    assert!(matches!(&replies[1], LobbyReply::ToSender(LobbyEvent::RoomJoined { room_info }) if room_info.player_count == 2));
    assert_eq!(err(send(&mut m, &mut c, LobbyRequest::JoinRoom { room_id: id.clone() })), "ルームは満員です");

    assert_eq!(err(send(&mut m, &mut b, LobbyRequest::StartGame)), "ゲームを開始する権限がありません");
    let replies = send(&mut m, &mut a, LobbyRequest::StartGame).unwrap();
    assert!(matches!(&replies[0], LobbyReply::ToMembers { to, event: LobbyEvent::GameStarted } if to == &vec![s("a"), s("b")]));
    assert_eq!(m.get_room(&id).unwrap().info.state, RoomState::Playing);

    let replies = send(&mut m, &mut a, LobbyRequest::LeaveRoom).unwrap();
    assert_eq!(a.room, None);
    assert!(matches!(&replies[0], LobbyReply::ToMembers { to, event: LobbyEvent::PlayerLeft { .. } } if to == &vec![s("b")]));
    assert!(matches!(&replies[1], LobbyReply::ToSender(LobbyEvent::RoomLeft)));
    assert_eq!(m.get_room(&id).unwrap().info.owner_id, "b");
    assert_eq!(err(send(&mut m, &mut c, LobbyRequest::JoinRoom { room_id: id.clone() })), "ゲームはすでに開始されています");
    assert_eq!(err(send(&mut m, &mut a, LobbyRequest::LeaveRoom)), "ルームに参加していません");

    send(&mut m, &mut b, LobbyRequest::LeaveRoom).unwrap();
    assert!(m.get_room(&id).is_none());
}

#[test]
fn chat_ping_action_and_ready() {
    let mut m = RoomManager::new();
    let mut a = client("a");
    assert_eq!(err(send(&mut m, &mut a, LobbyRequest::Chat { message: s("hi") })), "認証が必要です");
    send(&mut m, &mut a, LobbyRequest::Authenticate { name: s("Alice") }).unwrap();
    assert_eq!(err(send(&mut m, &mut a, LobbyRequest::Chat { message: s(" ") })), "メッセージは空にできません");
    assert_eq!(
        err(send(&mut m, &mut a, LobbyRequest::Chat { message: "x".repeat(501) })),
        "メッセージは500文字以内にしてください"
    );
    assert_eq!(err(send(&mut m, &mut a, LobbyRequest::Chat { message: s("hi") })), "ルームに参加していません");
    assert_eq!(
        err(send(&mut m, &mut a, LobbyRequest::GameAction { action: serde_json::Value::Null })),
        "ルームに参加していません"
    );
    assert_eq!(err(send(&mut m, &mut a, LobbyRequest::StartGame)), "ルームに参加していません");
    let pong = send(&mut m, &mut a, LobbyRequest::Ping).unwrap();
    assert!(matches!(&pong[0], LobbyReply::ToSender(LobbyEvent::Pong)));
    assert!(send(&mut m, &mut a, LobbyRequest::ReadyState { ready: true }).unwrap().is_empty());
    send(&mut m, &mut a, create("Talk", 3)).unwrap();
    let replies = send(&mut m, &mut a, LobbyRequest::Chat { message: s("hi") }).unwrap();
    match &replies[0] {
        LobbyReply::ToMembers { to, event: LobbyEvent::Chat { player_id, player_name, message } } => {
            assert_eq!(to, &vec![s("a")]);
            assert_eq!((player_id.as_str(), player_name.as_str(), message.as_str()), ("a", "Alice", "hi"));
        }
        _ => panic!("expected the chat message"),
    }
    let replies = send(&mut m, &mut a, LobbyRequest::GameAction { action: serde_json::Value::Null }).unwrap();
    assert!(matches!(&replies[0], LobbyReply::ToSender(LobbyEvent::ActionResult { result: true, message, data: None }) if message == "アクションを受け付けました"));
}

#[test]
fn leaving_a_room_that_vanished_or_never_joined() {
    let mut m = RoomManager::new();
    let mut a = client("a");
    send(&mut m, &mut a, LobbyRequest::Authenticate { name: s("Alice") }).unwrap();
    send(&mut m, &mut a, create("Gone", 2)).unwrap();
    let id = a.room.clone().unwrap();
    m.delete_room(&id);
    assert_eq!(err(send(&mut m, &mut a, LobbyRequest::LeaveRoom)), "ルームが見つかりません");
    assert!(send(&mut m, &mut a, LobbyRequest::Chat { message: s("hi") }).unwrap().is_empty());
    let mut b = client("b");
    send(&mut m, &mut b, LobbyRequest::Authenticate { name: s("Bob") }).unwrap();
    send(&mut m, &mut b, create("Other", 2)).unwrap();
    let mut c = client("c");
    c.room = b.room.clone();
    assert_eq!(err(send(&mut m, &mut c, LobbyRequest::LeaveRoom)), "ルームから退出できませんでした");
}

#[test]
fn disconnecting_leaves_the_room_and_tells_the_others() {
    let mut m = RoomManager::new();
    let mut a = client("a");
    let mut b = client("b");
    send(&mut m, &mut a, LobbyRequest::Authenticate { name: s("Alice") }).unwrap();
    send(&mut m, &mut b, LobbyRequest::Authenticate { name: s("Bob") }).unwrap();
    send(&mut m, &mut a, create("Pair", 3)).unwrap();
    let id = a.room.clone().unwrap();
    send(&mut m, &mut b, LobbyRequest::JoinRoom { room_id: id.clone() }).unwrap();
    let notices = disconnect(&mut m, &a.id, &mut a.room);
    assert_eq!(a.room, None);
    assert_eq!(notices.len(), 1);
    assert!(matches!(&notices[0], LobbyReply::ToMembers { to, event: LobbyEvent::PlayerLeft { player_id } } if to == &vec![s("b")] && player_id == "a"));
    let room = m.get_room(&id).unwrap();
    assert_eq!(room.players.len(), 1);
    assert_eq!(room.info.owner_id, "b");
    // The last member going away leaves the room in place, empty.
    let notices = disconnect(&mut m, &b.id, &mut b.room);
    assert!(matches!(&notices[0], LobbyReply::ToMembers { to, .. } if to.is_empty()));
    assert_eq!(m.get_room(&id).unwrap().players.len(), 0);
    let mut c = client("c");
    assert!(disconnect(&mut m, &c.id, &mut c.room).is_empty());
}
