use ecs_game::server::room::{generate_room_code, Room, RoomEvent, RoomManager};
use serde_json::Value;
use std::time::Duration;

fn s(x: &str) -> String {
    x.to_string()
}

#[test]
fn room_codes_use_the_room_alphabet() {
    let code = generate_room_code();
    assert_eq!(code.len(), 6);
    assert!(code.chars().all(|c| "ABCDEFGHJKLMNPQRSTUVWXYZ23456789".contains(c)));
}

#[test]
fn room_membership_and_host_handover() {
    let mut room = Room::new(s("h"), s("Hana"), s("minesweeper"), Value::Null);
    assert_eq!(room.players.len(), 1);
    assert!(room.is_host(&s("h")));
    assert!(room.add_player(s("g"), s("Goro")));
    assert!(room.add_player(s("g"), s("Goro2")));
    assert_eq!(room.players.len(), 2);
    assert_eq!(room.players[1].name, "Goro2");
    assert_eq!(room.connected, vec![s("g")]);
    assert!(room.remove_player(&s("h")));
    assert_eq!(room.host_id, "g");
    assert_eq!(room.outbox.len(), 1);
    assert_eq!(room.outbox[0].to, vec![s("g")]);
    assert!(matches!(&room.outbox[0].event, RoomEvent::HostChanged { host_id } if host_id == "g"));
    assert!(!room.remove_player(&s("g")));
    assert!(room.players.is_empty());
}

#[test]
fn room_game_lifecycle() {
    let mut room = Room::new(s("h"), s("Hana"), s("minesweeper"), Value::Null);
    room.update_game_state(Value::Bool(true));
    assert!(room.game_state.is_none());
    assert!(room.start_game(Value::from(1)));
    assert!(!room.start_game(Value::from(2)));
    assert!(!room.add_player(s("late"), s("Late")));
    room.update_game_state(Value::from(3));
    assert_eq!(room.game_state, Some(Value::from(3)));
    room.end_game(Some(vec![s("h")]), Value::from(4));
    assert!(!room.game_in_progress);
    assert_eq!(room.game_state, Some(Value::from(4)));
    assert_eq!(room.outbox.len(), 3);
    let summary = room.get_summary();
    assert_eq!(summary.player_count, 1);
    assert!(!summary.in_progress);
}

#[test]
fn manager_join_leave_and_errors() {
    let mut m = RoomManager::new();
    let (_id, code) = m.create_room(s("h"), s("Hana"), s("minesweeper"), Value::Null);
    assert_eq!(m.get_player_room_code(&s("h")), Some(code.clone()));
    assert_eq!(m.join_room(s("g"), s("Goro"), &s("NOPE!!")).unwrap_err(), "ルームが見つかりません");
    let (room_id, room_code, game_type, _settings, players, is_host) =
        m.join_room(s("g"), s("Goro"), &code).unwrap();
    assert_eq!(room_code, code);
    assert_eq!(game_type, "minesweeper");
    assert_eq!(players.len(), 2);
    assert!(!is_host);
    assert_eq!(m.get_room(&code).unwrap().id, room_id);
    // joining the same room again only reconnects
    let again = m.join_room(s("g"), s("Goro"), &code).unwrap();
    assert_eq!(again.4.len(), 2);
    assert_eq!(m.send_chat(&s("nobody"), s("hi")), Err(s("ルームに参加していません")));
    assert_eq!(m.send_chat(&s("g"), s("hi")), Ok(()));
    assert_eq!(m.start_game(&s("g"), Value::Null), Err(s("ゲームを開始する権限がありません")));
    assert_eq!(m.start_game(&s("h"), Value::Null), Ok(()));
    assert_eq!(m.start_game(&s("h"), Value::Null), Err(s("ゲームを開始できません")));
    assert_eq!(m.join_room(s("x"), s("X"), &code).unwrap_err(), "ゲームが既に進行中です");
    assert_eq!(m.update_game_state(&code, Value::from(7)), Ok(()));
    assert_eq!(m.send_action_result(&s("h"), Value::from(8)), Ok(()));
    assert_eq!(m.end_game(&code, None, Value::from(9)), Ok(()));
    assert_eq!(m.get_room(&code).unwrap().game_state, Some(Value::from(9)));
    assert!(m.send_message_to_player(&s("g"), RoomEvent::PlayerLeft { player_id: s("z") }));
    assert!(!m.send_message_to_player(&s("zz"), RoomEvent::PlayerLeft { player_id: s("z") }));
    assert!(m.leave_room(&s("h")));
    assert_eq!(m.get_player_room_code(&s("h")), None);
    assert_eq!(m.get_room(&code).unwrap().host_id, "g");
    assert!(m.leave_room(&s("g")));
    assert!(m.get_room(&code).is_none());
    assert!(!m.leave_room(&s("g")));
    assert!(m.list_rooms().is_empty());
}

#[test]
fn creating_a_room_leaves_the_previous_one() {
    let mut m = RoomManager::new();
    let (_, first) = m.create_room(s("h"), s("Hana"), s("a"), Value::Null);
    let (_, second) = m.create_room(s("h"), s("Hana"), s("b"), Value::Null);
    assert!(m.get_room(&first).is_none() || first == second);
    assert_eq!(m.get_player_room_code(&s("h")), Some(second.clone()));
    assert_eq!(m.get_player_room(&s("h")).unwrap().game_type, "b");
    assert_eq!(m.list_rooms().len(), 1);
    m.cleanup_inactive_rooms(Duration::from_secs(3600));
    assert_eq!(m.list_rooms().len(), 1);
    m.get_room_mut(&second).unwrap().settings = Value::from(5);
    assert_eq!(m.get_room(&second).unwrap().settings, Value::from(5));
    m.get_player_room_mut(&s("h")).unwrap().game_type = s("c");
    assert_eq!(m.get_room(&second).unwrap().game_type, "c");
}

#[test]
fn game_actions_are_refused_with_the_reason() {
    let mut m = RoomManager::new();
    assert_eq!(m.game_action_refusal(&s("nobody")), "ルームに参加していません");
    let (_id, _code) = m.create_room(s("h"), s("Hana"), s("minesweeper"), Value::Null);
    assert_eq!(m.game_action_refusal(&s("h")), "ゲームが開始されていません");
    m.start_game(&s("h"), Value::Null).unwrap();
    assert_eq!(m.game_action_refusal(&s("h")), "マインスイーパーゲームモジュールがロードされていません");
    let (_id2, _code2) = m.create_room(s("k"), s("Kei"), s("chess"), Value::Null);
    m.start_game(&s("k"), Value::Null).unwrap();
    assert_eq!(m.game_action_refusal(&s("k")), "未対応のゲームタイプ: chess");
}
