use std::time::{Duration, UNIX_EPOCH};
use ecs_game::server::config::{GameMode, GameType, ServerConfig};
use ecs_game::server::utils::{
    current_timestamp, current_timestamp_ms, millis_to_u64, timestamp_ms_of, timestamp_of, parse_query_params, split_chars, RateLimiter,
};

fn lookup<'a>(params: &'a [(String, String)], key: &str) -> Option<&'a str> {
    params.iter().find(|(k, _)| k == key).map(|(_, v)| v.as_str())
}

#[test]
fn config_defaults() {
    let c = ServerConfig::default();
    assert_eq!(c.http_bind_addr, "127.0.0.1:8001");
    assert_eq!(c.ws_bind_addr, "127.0.0.1:8101");
    assert_eq!(c.static_dir, "./www");
    assert_eq!(c.max_rooms, 1000);
    assert_eq!(c.room_timeout_secs, 3600);
    assert_eq!(c.player_timeout_secs, 300);
    assert_eq!(c.max_players_per_room, 8);
    assert_eq!(c.ping_interval_secs, 30);
    assert_eq!(GameType::default(), GameType::Generic);
    assert_eq!(GameMode::default(), GameMode::Cooperative);
}

#[test]
fn timestamps_agree() {
    let s = current_timestamp();
    let ms = current_timestamp_ms();
    assert!(s > 1_600_000_000);
    assert!(ms / 1000 >= s);
    assert_eq!(millis_to_u64(5), 5);
    assert_eq!(millis_to_u64((1u128 << 64) + 7), 7);
}

#[test]
fn timestamps_of_given_readings() {
    let t = UNIX_EPOCH + Duration::from_millis(1_700_000_123_456);
    assert_eq!(timestamp_of(&t), 1_700_000_123);
    assert_eq!(timestamp_ms_of(&t), 1_700_000_123_456);
    assert_eq!(timestamp_ms_of(&t) / 1000, timestamp_of(&t));
    assert_eq!(timestamp_of(&UNIX_EPOCH), 0);
    let before = UNIX_EPOCH - Duration::from_secs(5);
    assert_eq!(timestamp_of(&before), 0);
    assert_eq!(timestamp_ms_of(&before), 0);
}

#[test]
fn split_like_str_split() {
    let pieces = split_chars("a&&b&", '&');
    assert_eq!(pieces, vec!["a", "", "b", ""]);
    assert_eq!(split_chars("", '&'), vec![""]);
    assert_eq!(split_chars("ab", '&'), vec!["ab"]);
}

#[test]
fn query_params_later_keys_win() {
    let p = parse_query_params("room=ABCDE&name=bob&name=alice&flag&x=1=2&=v");
    assert_eq!(lookup(&p, "room"), Some("ABCDE"));
    assert_eq!(lookup(&p, "name"), Some("alice"));
    assert_eq!(lookup(&p, "flag"), None);
    assert_eq!(lookup(&p, "x"), Some("1"));
    assert_eq!(lookup(&p, ""), Some("v"));
    assert_eq!(p.len(), 4);
    assert!(parse_query_params("").is_empty());
}

#[test]
fn rate_limiter_window() {
    let mut limiter = RateLimiter::new(1000, 2);
    assert!(limiter.check_at(10));
    assert!(limiter.check_at(20));
    assert!(!limiter.check_at(500));
    assert_eq!(limiter.wait_time_at(500), 510);
    assert_eq!(limiter.wait_time_at(2000), 0);
    // the first request left the window
    assert!(limiter.check_at(1010));
    assert!(!limiter.check_at(1015));
    assert!(limiter.check_at(2020));
}

#[test]
fn rate_limiter_with_clock() {
    let mut limiter = RateLimiter::new(60_000, 1);
    assert_eq!(limiter.wait_time(), 0);
    assert!(limiter.check());
    assert!(!limiter.check());
    assert!(limiter.wait_time() > 0);
}

#[test]
fn player_ids_are_hyphenated_version_4_uuids() {
    let id = ecs_game::server::player::PlayerId::new().0;
    let chars: Vec<char> = id.chars().collect();
    assert_eq!(chars.len(), 36);
    for (i, c) in chars.iter().enumerate() {
        if [8, 13, 18, 23].contains(&i) {
            assert_eq!(*c, '-');
        } else {
            assert!(c.is_ascii_hexdigit() && !c.is_ascii_uppercase());
        }
    }
    assert_eq!(chars[14], '4');
    assert!(['8', '9', 'a', 'b'].contains(&chars[19]));
}
