use ecs_game::server::lobby::{GameRoom, RoomManager};
use ecs_game::server::room::RoomState;
use std::time::Duration;

fn s(x: &str) -> String {
    x.to_string()
}

#[test]
fn lobby_room_membership_and_owner_handover() {
    let mut room = GameRoom::new(s("Fun"), s("o"), s("Olive"), 2, true, s("minesweeper"));
    assert_eq!(room.info.player_count, 1);
    assert_eq!(room.info.state, RoomState::Waiting);
    assert_eq!(room.info.id.len(), 36);
    assert!(room.add_player(s("p"), s("Pat")));
    assert!(!room.add_player(s("q"), s("Quin")));
    assert_eq!(room.info.player_count, 2);
    assert!(!room.remove_player("nobody"));
    assert!(room.remove_player("o"));
    assert_eq!(room.info.owner_id, "p");
    assert_eq!(room.info.player_count, 1);
    assert!(room.add_spectator(s("w")));
    assert!(!room.add_spectator(s("w")));
    assert!(room.remove_spectator("w"));
    assert!(!room.remove_spectator("w"));
    room.set_state(RoomState::Playing);
    assert_eq!(room.info.state, RoomState::Playing);
}

#[test]
fn lobby_broadcasts_are_queued() {
    let mut room = GameRoom::new(s("Fun"), s("o"), s("Olive"), 4, false, s("chess"));
    room.add_player(s("p"), s("Pat"));
    room.add_player(s("q"), s("Quin"));
    room.broadcast_message("hello");
    room.broadcast_message_except("p", "psst");
    assert_eq!(room.outbox.len(), 2);
    assert_eq!(room.outbox[0].to, vec![s("o"), s("p"), s("q")]);
    assert_eq!(room.outbox[0].message, "hello");
    assert_eq!(room.outbox[1].to, vec![s("o"), s("q")]);
}

#[test]
fn lobby_manager_keeps_rooms_by_id() {
    let mut m = RoomManager::new();
    let a = m.create_room(s("A"), s("o1"), s("One"), 4, true, s("minesweeper"));
    let b = m.create_room(s("B"), s("o2"), s("Two"), 4, false, s("minesweeper"));
    assert_ne!(a.id, b.id);
    let public = m.get_public_rooms();
    assert_eq!(public.len(), 1);
    assert_eq!(public[0].name, "A");
    assert_eq!(m.get_room(&a.id).unwrap().info.name, "A");
    assert_eq!(m.get_player_room("o2").unwrap().info.id, b.id);
    assert!(m.get_player_room("zz").is_none());
    m.get_room_mut(&b.id).unwrap().add_player(s("p"), s("Pat"));
    assert_eq!(m.get_player_room("p").unwrap().info.id, b.id);
    assert!(m.delete_room(&a.id));
    assert!(!m.delete_room(&a.id));
    assert!(m.get_room(&a.id).is_none());
}

#[test]
fn lobby_cleanup_drops_idle_members_and_empty_rooms() {
    let mut m = RoomManager::new();
    let a = m.create_room(s("A"), s("o1"), s("One"), 4, true, s("minesweeper"));
    // Nothing has timed out within an hour.
    m.cleanup(Duration::from_secs(3600), Duration::from_secs(3600));
    assert!(m.get_room(&a.id).is_some());
    let start = std::time::Instant::now();
    while start.elapsed() < Duration::from_millis(20) {}
    // Every member is older than a millisecond: the room empties and goes.
    m.cleanup(Duration::from_secs(3600), Duration::from_millis(1));
    assert!(m.get_room(&a.id).is_none());
}
