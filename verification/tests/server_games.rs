use std::time::{Duration, Instant};
use ecs_game::server::game::{BaseGame, GameEvent, GameType};
use ecs_game::server::minesweeper::{Cell, MinesweeperGame};
use serde_json::Value;

fn xy(x: u64, y: u64) -> Value {
    let mut m = serde_json::Map::new();
    m.insert("x".to_string(), Value::from(x));
    m.insert("y".to_string(), Value::from(y));
    Value::Object(m)
}

fn only_x(x: u64) -> Value {
    let mut m = serde_json::Map::new();
    m.insert("x".to_string(), Value::from(x));
    Value::Object(m)
}

fn s(t: &str) -> String {
    t.to_string()
}

fn two_player_game() -> BaseGame {
    let mut g = BaseGame::new(s("g"), 2, 3);
    g.add_player(s("a"), s("Alice")).unwrap();
    g.add_player(s("b"), s("Bob")).unwrap();
    g
}

#[test]
fn game_type_names() {
    assert_eq!(GameType::Minesweeper.display_name(), "Minesweeper");
    assert_eq!(GameType::Reversi.display_name(), "Reversi");
    assert_eq!(GameType::Custom(s("go")).display_name(), "Custom(go)");
}

#[test]
fn base_game_seating_rules() {
    let mut g = BaseGame::new(s("g"), 2, 2);
    assert!(g.add_player(s("a"), s("Alice")).is_ok());
    assert_eq!(g.add_player(s("a"), s("Again")), Err(s("同じIDのプレイヤーがすでに存在します")));
    assert!(g.add_player(s("b"), s("Bob")).is_ok());
    assert_eq!(g.add_player(s("c"), s("Carol")), Err(s("プレイヤー数が最大値に達しています")));
    assert_eq!(g.remove_player(&s("zz")), Err(s("プレイヤーが存在しません")));
    assert!(g.remove_player(&s("a")).is_ok());
    assert_eq!(g.players.len(), 1);
    assert_eq!(g.players[0].0, "b");
}

#[test]
fn base_game_start_needs_enough_players() {
    let mut g = BaseGame::new(s("g"), 3, 4);
    g.add_player(s("a"), s("Alice")).unwrap();
    assert_eq!(g.start_game(), Err(s("ゲームを開始するには3人以上のプレイヤーが必要です")));
    let mut big = BaseGame::new(s("g"), 12, 20);
    assert_eq!(big.start_game(), Err(s("ゲームを開始するには12人以上のプレイヤーが必要です")));
}

#[test]
fn base_game_turns_go_round() {
    let mut g = two_player_game();
    assert!(g.next_turn().is_none());
    g.start_game().unwrap();
    assert_eq!(g.turn_player_id, Some(s("a")));
    assert_eq!(g.turn_number, 1);
    assert_eq!(g.start_game(), Err(s("ゲームはすでに開始されています")));
    assert_eq!(g.add_player(s("c"), s("Carol")), Err(s("ゲームはすでに開始されています")));
    assert_eq!(g.remove_player(&s("a")), Err(s("ゲーム進行中にプレイヤーを削除できません")));
    match g.next_turn() {
        Some(GameEvent::TurnChanged { player_id, turn_number }) => {
            assert_eq!(player_id, "b");
            assert_eq!(turn_number, 2);
        }
        other => panic!("unexpected {:?}", other),
    }
    g.next_turn();
    assert_eq!(g.turn_player_id, Some(s("a")));
    assert_eq!(g.turn_number, 3);
}

#[test]
fn base_game_actions_follow_the_turn() {
    let mut g = two_player_game();
    assert_eq!(g.process_action(&s("a"), "move", Value::Null), Err(s("ゲームがまだ開始されていません")));
    g.start_game().unwrap();
    assert_eq!(g.process_action(&s("a"), "move", Value::from(1)), Ok(Value::from(1)));
    assert_eq!(g.process_action(&s("b"), "move", Value::Null), Err(s("あなたのターンではありません")));
    assert_eq!(g.process_action(&s("b"), "chat", Value::from("hi")), Ok(Value::from("hi")));
    assert_eq!(g.process_action(&s("x"), "move", Value::Null), Err(s("プレイヤーが存在しません")));
}

#[test]
fn base_game_end_scores_the_winner() {
    let mut g = two_player_game();
    assert_eq!(g.end_game(None).err(), Some(s("ゲームがまだ開始されていません")));
    g.start_game().unwrap();
    assert_eq!(g.end_game(Some(s("zz"))).err(), Some(s("指定された勝者が存在しません")));
    assert!(!g.is_game_ended());
    let res = g.end_game(Some(s("b"))).unwrap();
    assert_eq!(res.winner_id, Some(s("b")));
    assert_eq!(res.player_scores, vec![(s("a"), 0), (s("b"), 100)]);
    assert_eq!(res.stats["turns"], Value::from(1));
    assert!(g.is_game_ended());
    assert_eq!(g.winner_id, Some(s("b")));
    let kept = g.get_result().unwrap();
    assert_eq!(kept.player_scores, res.player_scores);
    assert_eq!(g.end_game(None).err(), Some(s("ゲームはすでに終了しています")));
    assert_eq!(g.process_action(&s("a"), "move", Value::Null), Err(s("ゲームはすでに終了しています")));
    assert!(g.update().is_empty());
}

#[test]
fn base_game_update_without_limit_changes_nothing() {
    let mut g = two_player_game();
    g.start_game().unwrap();
    assert!(g.update().is_empty());
    assert!(!g.ended);
    g.set_game_timeout(3600);
    assert!(g.update().is_empty());
    assert!(!g.ended);
}

#[test]
fn base_game_update_at_ends_after_the_limit() {
    let mut g = two_player_game();
    g.set_game_timeout(60);
    let now = Instant::now();
    assert!(g.update_at(now + Duration::from_secs(3600)).is_empty());
    g.start_game().unwrap();
    let start = g.start_time.unwrap();
    assert!(g.update_at(start + Duration::from_secs(60)).is_empty());
    assert!(!g.ended);
    let events = g.update_at(start + Duration::from_secs(61));
    assert_eq!(events.len(), 1);
    assert!(matches!(events[0], GameEvent::GameEnded { winner_id: None }));
    assert!(g.ended);
    assert_eq!(g.winner_id, None);
    assert!(g.get_result().is_some());
    assert!(g.update_at(start + Duration::from_secs(7200)).is_empty());
}

#[test]
fn minesweeper_starts_blank() {
    let g = MinesweeperGame::new(4, 3, 2);
    assert_eq!(g.board.len(), 3);
    assert!(g.board.iter().all(|row| row.len() == 4));
    let blank = Cell { has_mine: false, is_revealed: false, is_flagged: false, adjacent_mines: 0 };
    assert!(g.board.iter().all(|row| row.iter().all(|c| *c == blank)));
    assert_eq!(g.base.name, "Minesweeper");
    assert_eq!(g.base.min_players, 1);
    assert_eq!(g.base.max_players, 4);
    assert_eq!(g.base.custom_config["width"], Value::from(4));
    assert_eq!(g.base.custom_config["height"], Value::from(3));
    assert_eq!(g.base.custom_config["mines"], Value::from(2));
    assert!(!g.is_game_ended());
}

fn started_minesweeper(width: usize, height: usize, mines: usize) -> MinesweeperGame {
    let mut g = MinesweeperGame::new(width, height, mines);
    g.add_player(s("p"), s("Pat")).unwrap();
    g.start_game().unwrap();
    g
}

#[test]
fn minesweeper_refuses_bad_moves() {
    let mut g = MinesweeperGame::new(3, 3, 0);
    g.add_player(s("p"), s("Pat")).unwrap();
    assert_eq!(g.process_action(&s("p"), "reveal", xy(0, 0)), Err(s("ゲームがまだ開始されていません")));
    g.start_game().unwrap();
    assert_eq!(g.process_action(&s("q"), "reveal", xy(0, 0)), Err(s("プレイヤーが存在しません")));
    assert_eq!(g.process_action(&s("p"), "dig", xy(0, 0)), Err(s("不明なアクションタイプです: dig")));
    assert_eq!(g.process_action(&s("p"), "reveal", Value::Null), Err(s("x座標が不正です")));
    assert_eq!(g.process_action(&s("p"), "flag", only_x(1)), Err(s("y座標が不正です")));
    assert_eq!(g.process_action(&s("p"), "reveal", xy(3, 0)), Err(s("座標が範囲外です")));
    assert_eq!(g.process_action(&s("p"), "flag", xy(0, 7)), Err(s("座標が範囲外です")));
    assert_eq!(g.revealed_count, 0);
}

#[test]
fn minesweeper_flags_toggle() {
    let mut g = started_minesweeper(3, 3, 0);
    let r = g.process_action(&s("p"), "flag", xy(2, 1)).unwrap();
    assert_eq!(r["x"], Value::from(2));
    assert_eq!(r["y"], Value::from(1));
    assert_eq!(r["is_flagged"], Value::from(true));
    assert_eq!(r["flagged_count"], Value::from(1));
    assert!(g.board[1][2].is_flagged);
    // A flagged square does not open.
    let r = g.process_action(&s("p"), "reveal", xy(2, 1)).unwrap();
    assert_eq!(r["revealed"], Value::Array(vec![]));
    assert_eq!(g.revealed_count, 0);
    let r = g.process_action(&s("p"), "flag", xy(2, 1)).unwrap();
    assert_eq!(r["is_flagged"], Value::from(false));
    assert_eq!(r["flagged_count"], Value::from(0));
    assert!(!g.board[1][2].is_flagged);
}

#[test]
fn minesweeper_empty_board_opens_at_once() {
    let mut g = started_minesweeper(3, 3, 0);
    let r = g.process_action(&s("p"), "reveal", xy(1, 1)).unwrap();
    let opened = r["revealed"].as_array().unwrap().clone();
    assert_eq!(opened.len(), 9);
    assert_eq!(opened[0], Value::Array(vec![Value::from(1), Value::from(1)]));
    assert_eq!(opened[1], Value::Array(vec![Value::from(0), Value::from(0)]));
    assert_eq!(r["game_over"], Value::from(false));
    assert_eq!(r["is_cleared"], Value::from(true));
    assert_eq!(g.revealed_count, 9);
    assert!(g.is_game_ended());
    let res = g.get_result().unwrap();
    assert_eq!(res.winner_id, Some(s("p")));
    assert_eq!(res.player_scores, vec![(s("p"), 100)]);
    let board = g.board.clone();
    assert!(board.iter().all(|row| row.iter().all(|c| c.is_revealed && c.adjacent_mines == 0)));
    assert_eq!(g.process_action(&s("p"), "reveal", xy(0, 0)), Err(s("ゲームはすでに終了しています")));
}

#[test]
fn minesweeper_first_reveal_is_safe_and_mine_loses() {
    for _ in 0..20 {
        let mut g = started_minesweeper(4, 1, 1);
        let r = g.process_action(&s("p"), "reveal", xy(0, 0)).unwrap();
        assert_eq!(r["game_over"], Value::from(false));
        let mine_x = (0..4).find(|&x| g.board[0][x].has_mine).unwrap();
        assert!(mine_x >= 2);
        assert_eq!(g.board.iter().flatten().filter(|c| c.has_mine).count(), 1);
        // Numbers count the mines around.
        for x in 0..4usize {
            if !g.board[0][x].has_mine {
                let around = [x.wrapping_sub(1), x + 1].iter().filter(|&&n| n < 4 && g.board[0][n].has_mine).count();
                assert_eq!(g.board[0][x].adjacent_mines as usize, around);
            }
        }
        if mine_x == 2 {
            // (3, 0) is still closed; revealing the mine loses.
            assert_eq!(g.revealed_count, 2);
            let r = g.process_action(&s("p"), "reveal", xy(2, 0)).unwrap();
            assert_eq!(r["game_over"], Value::from(true));
            assert_eq!(r["revealed"], Value::Array(vec![Value::Array(vec![Value::from(2), Value::from(0)])]));
            assert!(g.game_over);
            assert!(g.is_game_ended());
            assert_eq!(g.base.winner_id, None);
        } else {
            // The flood opened every square but the mine.
            assert_eq!(g.revealed_count, 3);
            assert_eq!(r["is_cleared"], Value::from(true));
            assert!(g.base.ended);
            assert_eq!(g.base.winner_id, Some(s("p")));
        }
    }
}

#[test]
fn minesweeper_flood_skips_flags() {
    let mut g = started_minesweeper(3, 3, 0);
    g.process_action(&s("p"), "flag", xy(0, 0)).unwrap();
    // Opening the centre floods everything but the flagged corner.
    let r = g.process_action(&s("p"), "reveal", xy(2, 2)).unwrap();
    assert_eq!(r["revealed"].as_array().unwrap().len(), 8);
    assert_eq!(g.flagged_count, 1);
    assert!(!g.board[0][0].is_revealed);
}

#[test]
fn minesweeper_needs_room_for_mines() {
    let mut g = started_minesweeper(3, 3, 1);
    assert_eq!(g.try_process_action(&s("p"), "reveal", xy(1, 1)), None);
    assert_eq!(g.revealed_count, 0);
    let r = g.try_process_action(&s("p"), "reveal", xy(0, 0)).unwrap().unwrap();
    assert_eq!(r["game_over"], Value::from(false));
    assert_eq!(g.board.iter().flatten().filter(|c| c.has_mine).count(), 1);
    assert!(!g.board[0][0].has_mine && !g.board[1][1].has_mine && !g.board[0][1].has_mine);
}
