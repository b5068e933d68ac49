use ecs_game::game::minesweeper::{Difficulty, GameBoard, GameMode, PlayerId, Position, RoomId};
use ecs_game::game::room::{GameRoom, GameState, Player};

fn count_mines(board: &GameBoard) -> usize {
    board.cells.iter().filter(|c| c.is_mine).count()
}

#[test]
fn test_board_creation() {
    let board = GameBoard::new(9, 9, 10);
    assert_eq!(board.width, 9);
    assert_eq!(board.height, 9);
    assert_eq!(board.mine_count, 10);
    assert_eq!(board.cells.len(), 81);
}

#[test]
fn test_position_neighbors() {
    let pos = Position::new(1, 1);
    let neighbors = pos.neighbors(3, 3);
    assert_eq!(neighbors.len(), 8);

    let corner = Position::new(0, 0);
    let corner_neighbors = corner.neighbors(3, 3);
    assert_eq!(corner_neighbors.len(), 3);
}

#[test]
fn test_room_creation() {
    let player_id = PlayerId::new();
    let player = Player::new(player_id, "TestPlayer".to_string());
    let room = GameRoom::new(player, GameMode::Cooperative, Difficulty::Beginner);

    assert_eq!(room.players.len(), 1);
    assert_eq!(room.players[0].is_host, true);
    assert_eq!(room.game_mode, GameMode::Cooperative);
    assert_eq!(room.board.width, 9);
    assert_eq!(room.board.height, 9);
    assert_eq!(room.board.mine_count, 10);
}

#[test]
fn test_room_code_generation() {
    let code = RoomId::generate_code();
    assert_eq!(code.len(), 5);

    let code2 = RoomId::generate_code();
    assert_ne!(code, code2);
}

#[test]
fn neighbors_are_listed_row_by_row() {
    let n = Position::new(1, 1).neighbors(3, 3);
    let expected = vec![
        Position::new(0, 0),
        Position::new(1, 0),
        Position::new(2, 0),
        Position::new(0, 1),
        Position::new(2, 1),
        Position::new(0, 2),
        Position::new(1, 2),
        Position::new(2, 2),
    ];
    assert_eq!(n, expected);
    assert_eq!(Position::new(2, 0).neighbors(3, 1), vec![Position::new(1, 0)]);
    assert!(Position::new(0, 0).neighbors(1, 1).is_empty());
}

#[test]
fn difficulty_presets() {
    assert_eq!(Difficulty::Beginner.board_config(), (9, 9, 10));
    assert_eq!(Difficulty::Intermediate.board_config(), (16, 16, 40));
    assert_eq!(Difficulty::Advanced.board_config(), (30, 16, 99));
    assert_eq!(Difficulty::Custom(5, 7, 3).board_config(), (5, 7, 3));
    let b = GameBoard::from_difficulty(Difficulty::Advanced);
    assert_eq!((b.width, b.height, b.mine_count), (30, 16, 99));
    assert_eq!(b.cells.len(), 480);
}

#[test]
fn index_and_position_round_trip() {
    let board = GameBoard::new(7, 5, 3);
    for i in 0..35usize {
        let p = board.index_to_position(i);
        assert_eq!(board.position_to_index(&p), i);
        assert_eq!(board.cells[i].position, p);
    }
    assert_eq!(board.index_to_position(9), Position::new(2, 1));
}

#[test]
fn get_cell_off_board_is_none() {
    let mut board = GameBoard::new(4, 4, 2);
    assert!(board.get_cell(&Position::new(4, 0)).is_none());
    assert!(board.get_cell(&Position::new(0, 4)).is_none());
    assert_eq!(board.get_cell(&Position::new(3, 3)).unwrap().position, Position::new(3, 3));
    assert!(board.get_cell_mut(&Position::new(9, 9)).is_none());
    board.get_cell_mut(&Position::new(1, 2)).unwrap().is_flagged = true;
    assert!(board.cells[9].is_flagged);
}

#[test]
fn first_reveal_never_hits_a_mine() {
    for _ in 0..20 {
        let mut board = GameBoard::new(9, 9, 10);
        let p = Position::new(4, 4);
        let opened = board.reveal_cell(&p, PlayerId(1));
        assert!(!opened.is_empty());
        assert_eq!(opened[0], p);
        assert!(board.first_move_made);
        assert_eq!(count_mines(&board), 10);
        for q in p.neighbors(9, 9) {
            assert!(!board.get_cell(&q).unwrap().is_mine);
        }
        for q in &opened {
            let c = board.get_cell(q).unwrap();
            assert!(c.is_revealed && !c.is_mine);
            assert_eq!(c.revealed_by, Some(PlayerId(1)));
        }
        assert_eq!(board.revealed_count as usize, opened.len());
        // the first cell has no mine around it, so the flood opened its neighbours
        assert_eq!(board.get_cell(&p).unwrap().adjacent_mines, 0);
        assert!(opened.len() >= 9);
    }
}

#[test]
fn too_many_mines_are_capped() {
    let mut board = GameBoard::new(5, 5, 100);
    board.reveal_cell(&Position::new(2, 2), PlayerId(7));
    assert_eq!(board.mine_count, 16);
    assert_eq!(count_mines(&board), 16);
    // every border cell holds a mine, so the centre shows zero and the
    // flood opens the 3x3 safe zone
    assert_eq!(board.revealed_count, 9);
}

#[test]
fn place_mines_in_order_takes_the_first_candidates() {
    let mut board = GameBoard::new(4, 3, 2);
    let first = Position::new(0, 0);
    // candidates: every cell but (0,0),(1,0),(0,1),(1,1), in board order
    let mut order = vec![];
    for y in 0..3u8 {
        for x in 0..4u8 {
            if !(x <= 1 && y <= 1) {
                order.push(Position::new(x, y));
            }
        }
    }
    order.reverse();
    board.place_mines_in_order(&first, &order);
    assert!(board.first_move_made);
    assert_eq!(count_mines(&board), 2);
    assert!(board.get_cell(&Position::new(3, 2)).unwrap().is_mine);
    assert!(board.get_cell(&Position::new(2, 2)).unwrap().is_mine);
    assert_eq!(board.get_cell(&Position::new(2, 1)).unwrap().adjacent_mines, 2);
    assert_eq!(board.get_cell(&Position::new(1, 2)).unwrap().adjacent_mines, 1);
    assert_eq!(board.get_cell(&Position::new(0, 0)).unwrap().adjacent_mines, 0);
}

#[test]
fn flood_stops_at_numbers_and_mines_open_alone() {
    let mut board = GameBoard::new(4, 3, 2);
    let order = vec![Position::new(3, 2), Position::new(2, 2)];
    let mut rest = vec![];
    for y in 0..3u8 {
        for x in 0..4u8 {
            let p = Position::new(x, y);
            if !(x <= 1 && y <= 1) && !order.contains(&p) {
                rest.push(p);
            }
        }
    }
    let mut all = order.clone();
    all.extend(rest);
    board.place_mines_in_order(&Position::new(0, 0), &all);
    let opened = board.reveal_cell(&Position::new(0, 0), PlayerId(3));
    let mut sorted = opened.clone();
    sorted.sort_by_key(|p| (p.y, p.x));
    // the zeros are (0,0),(1,0),(2,0),(3,0),(0,1),(0,2); the flood opens
    // them and the numbered cells around them, and stops at the mines
    let mut expected_sorted = vec![];
    for y in 0..3u8 {
        for x in 0..4u8 {
            let p = Position::new(x, y);
            if p != Position::new(2, 2) && p != Position::new(3, 2) {
                expected_sorted.push(p);
            }
        }
    }
    assert_eq!(sorted, expected_sorted);
    assert_eq!(opened[0], Position::new(0, 0));
    assert_eq!(board.revealed_count, 10);
    assert_eq!(board.get_cell(&Position::new(2, 1)).unwrap().adjacent_mines, 2);
    // revealing again opens nothing
    assert!(board.reveal_cell(&Position::new(1, 0), PlayerId(3)).is_empty());
    // a mine opens alone
    let boom = board.reveal_cell(&Position::new(3, 2), PlayerId(4));
    assert_eq!(boom, vec![Position::new(3, 2)]);
    assert_eq!(board.revealed_count, 11);
}

#[test]
fn reveal_off_board_or_flagged_does_nothing() {
    let mut board = GameBoard::new(9, 9, 10);
    assert!(board.reveal_cell(&Position::new(9, 0), PlayerId(1)).is_empty());
    assert!(!board.first_move_made);
    assert!(board.toggle_flag(&Position::new(3, 3), PlayerId(1)));
    assert!(board.reveal_cell(&Position::new(3, 3), PlayerId(1)).is_empty());
    assert!(!board.first_move_made);
}

#[test]
fn toggle_flag_twice_restores_the_board() {
    let mut board = GameBoard::new(5, 5, 3);
    let p = Position::new(2, 3);
    assert!(board.toggle_flag(&p, PlayerId(9)));
    assert_eq!(board.flagged_count, 1);
    let c = board.get_cell(&p).unwrap();
    assert!(c.is_flagged);
    assert_eq!(c.flagged_by, Some(PlayerId(9)));
    assert!(board.toggle_flag(&p, PlayerId(9)));
    assert_eq!(board.flagged_count, 0);
    assert_eq!(*board.get_cell(&p).unwrap(), ecs_game::game::minesweeper::Cell::new(2, 3));
    assert!(!board.toggle_flag(&Position::new(5, 0), PlayerId(9)));
}

#[test]
fn revealed_cells_cannot_be_flagged() {
    let mut board = GameBoard::new(9, 9, 10);
    board.reveal_cell(&Position::new(0, 0), PlayerId(1));
    assert!(!board.toggle_flag(&Position::new(0, 0), PlayerId(1)));
    assert_eq!(board.flagged_count, 0);
}

#[test]
fn completion_counts_revealed_cells() {
    let mut board = GameBoard::new(3, 3, 0);
    assert!(!board.is_completed());
    board.revealed_count = 9;
    assert!(board.is_completed());
    let mut b2 = GameBoard::new(3, 3, 2);
    b2.revealed_count = 7;
    assert!(b2.is_completed());
    b2.revealed_count = 6;
    assert!(!b2.is_completed());
}

#[test]
fn reveal_all_mines_uncovers_only_mines() {
    let mut board = GameBoard::new(9, 9, 10);
    board.reveal_cell(&Position::new(4, 4), PlayerId(1));
    let before = board.revealed_count;
    board.reveal_all_mines();
    for c in &board.cells {
        if c.is_mine {
            assert!(c.is_revealed);
        }
    }
    assert_eq!(board.revealed_count, before);
}

fn two_player_room(mode: GameMode) -> (GameRoom, PlayerId, PlayerId) {
    let host = PlayerId(11);
    let guest = PlayerId(22);
    let mut room = GameRoom::new(Player::new(host, "host".to_string()), mode, Difficulty::Beginner);
    room.add_player(Player::new(guest, "guest".to_string())).unwrap();
    (room, host, guest)
}

#[test]
fn room_admission_rules() {
    let (mut room, host, guest) = two_player_room(GameMode::Cooperative);
    assert_eq!(room.add_player(Player::new(guest, "again".to_string())), Err("Player already in room"));
    for k in 0..6u128 {
        room.add_player(Player::new(PlayerId(100 + k), "p".to_string())).unwrap();
    }
    assert_eq!(room.players.len(), 8);
    assert_eq!(room.add_player(Player::new(PlayerId(999), "late".to_string())), Err("Room is full"));
    assert_eq!(room.remove_player(PlayerId(12345)), Err("Player not found"));
    room.remove_player(host).unwrap();
    assert!(room.players[0].is_host);
    assert_eq!(room.players[0].id, guest);
}

#[test]
fn empty_room_is_abandoned() {
    let host = PlayerId(5);
    let mut room = GameRoom::new(Player::new(host, "solo".to_string()), GameMode::Competitive, Difficulty::Beginner);
    room.remove_player(host).unwrap();
    assert!(room.players.is_empty());
    assert!(matches!(room.state, GameState::Abandoned));
}

#[test]
fn start_game_checks_host_readiness_and_numbers() {
    let (mut room, host, guest) = two_player_room(GameMode::Competitive);
    assert_eq!(room.start_game(guest), Err("Only the host can start the game"));
    assert_eq!(room.start_game(host), Err("Not all players are ready"));
    assert_eq!(room.toggle_ready(host), Ok(true));
    assert_eq!(room.toggle_ready(guest), Ok(true));
    assert_eq!(room.toggle_ready(PlayerId(77)), Err("Player not found"));
    room.players[0].score = 50;
    assert_eq!(room.start_game(host), Ok(()));
    assert!(matches!(room.state, GameState::InProgress(_)));
    assert_eq!(room.players[0].score, 0);
    assert_eq!(room.add_player(Player::new(PlayerId(3), "late".to_string())), Err("Game already in progress"));

    let solo = PlayerId(1);
    let mut room2 = GameRoom::new(Player::new(solo, "solo".to_string()), GameMode::Cooperative, Difficulty::Beginner);
    room2.toggle_ready(solo).unwrap();
    assert_eq!(room2.start_game(solo), Err("At least 2 players are required"));
}

#[test]
fn toggle_ready_twice_restores_readiness() {
    let (mut room, host, _guest) = two_player_room(GameMode::Cooperative);
    assert_eq!(room.toggle_ready(host), Ok(true));
    assert_eq!(room.toggle_ready(host), Ok(false));
    assert!(!room.players[0].is_ready);
}

#[test]
fn room_reveal_scores_and_checks_state() {
    let (mut room, host, guest) = two_player_room(GameMode::Competitive);
    assert_eq!(room.reveal_cell(host, Position::new(0, 0)), Err("Game is not in progress"));
    assert_eq!(room.toggle_flag(host, Position::new(0, 0)), Err("Game is not in progress"));
    room.toggle_ready(host).unwrap();
    room.toggle_ready(guest).unwrap();
    room.start_game(host).unwrap();
    assert_eq!(room.reveal_cell(PlayerId(404), Position::new(0, 0)), Err("Player not found"));
    let opened = room.reveal_cell(guest, Position::new(4, 4)).unwrap();
    assert!(!opened.is_empty());
    assert_eq!(room.players[1].score as usize, opened.len());
    assert_eq!(room.players[0].score, 0);
    assert_eq!(room.toggle_flag(host, Position::new(4, 4)), Ok(false));
}

#[test]
fn cooperative_mine_ends_the_game_lost() {
    let (mut room, host, guest) = two_player_room(GameMode::Cooperative);
    room.toggle_ready(host).unwrap();
    room.toggle_ready(guest).unwrap();
    room.start_game(host).unwrap();
    room.reveal_cell(host, Position::new(0, 0)).unwrap();
    let mine = room.board.cells.iter().find(|c| c.is_mine && !c.is_revealed).unwrap().position;
    let opened = room.reveal_cell(guest, mine).unwrap();
    assert_eq!(opened, vec![mine]);
    match &room.state {
        GameState::Completed(result) => {
            assert!(!result.is_victory);
            assert_eq!(result.winner, None);
            assert_eq!(result.scores.len(), 2);
        }
        _ => panic!("the game should have ended"),
    }
    assert!(room.board.cells.iter().all(|c| !c.is_mine || c.is_revealed));
}

#[test]
fn competitive_mine_costs_ten_points() {
    let (mut room, host, guest) = two_player_room(GameMode::Competitive);
    room.toggle_ready(host).unwrap();
    room.toggle_ready(guest).unwrap();
    room.start_game(host).unwrap();
    let first = room.reveal_cell(host, Position::new(0, 0)).unwrap();
    let mine = room.board.cells.iter().find(|c| c.is_mine && !c.is_revealed).unwrap().position;
    room.reveal_cell(host, mine).unwrap();
    let expected = (first.len() as u32 + 1).saturating_sub(10);
    assert_eq!(room.players[0].score, expected);
    assert!(matches!(room.state, GameState::InProgress(_)));
}
