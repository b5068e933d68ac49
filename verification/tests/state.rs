use ecs_game::game::state::{
    next_state_on_click, next_state_on_key, ClickTarget, GameStateType, KEY_ENTER, KEY_ESCAPE,
};

#[test]
fn splash_goes_to_menu_on_any_key() {
    assert_eq!(next_state_on_key(GameStateType::Splash, 65, true), GameStateType::MainMenu);
    assert_eq!(next_state_on_key(GameStateType::Splash, 65, false), GameStateType::Splash);
}

#[test]
fn menu_keys() {
    assert_eq!(next_state_on_key(GameStateType::MainMenu, KEY_ENTER, true), GameStateType::Playing);
    assert_eq!(next_state_on_key(GameStateType::MainMenu, KEY_ESCAPE, true), GameStateType::Splash);
    assert_eq!(next_state_on_key(GameStateType::MainMenu, 38, true), GameStateType::MainMenu);
    assert_eq!(next_state_on_key(GameStateType::MainMenu, 40, true), GameStateType::MainMenu);
}

#[test]
fn pause_and_resume() {
    let paused = next_state_on_key(GameStateType::Playing, KEY_ESCAPE, true);
    assert_eq!(paused, GameStateType::Paused);
    assert_eq!(next_state_on_key(paused, KEY_ESCAPE, true), GameStateType::Playing);
    assert_eq!(next_state_on_key(paused, KEY_ENTER, true), GameStateType::Playing);
    assert_eq!(next_state_on_key(GameStateType::Playing, KEY_ENTER, true), GameStateType::Playing);
}

#[test]
fn game_over_keys() {
    assert_eq!(next_state_on_key(GameStateType::GameOver, KEY_ENTER, true), GameStateType::Playing);
    assert_eq!(next_state_on_key(GameStateType::GameOver, KEY_ESCAPE, true), GameStateType::MainMenu);
    assert_eq!(next_state_on_key(GameStateType::GameOver, 32, true), GameStateType::GameOver);
}

#[test]
fn clicks_move_between_screens() {
    assert_eq!(next_state_on_click(GameStateType::Splash, ClickTarget::Elsewhere, true), GameStateType::MainMenu);
    assert_eq!(next_state_on_click(GameStateType::Splash, ClickTarget::Elsewhere, false), GameStateType::Splash);
    assert_eq!(next_state_on_click(GameStateType::MainMenu, ClickTarget::PlayButton, true), GameStateType::Playing);
    assert_eq!(next_state_on_click(GameStateType::MainMenu, ClickTarget::Elsewhere, true), GameStateType::MainMenu);
    assert_eq!(next_state_on_click(GameStateType::Playing, ClickTarget::PlayButton, true), GameStateType::Playing);
    assert_eq!(next_state_on_click(GameStateType::Paused, ClickTarget::ResumeButton, true), GameStateType::Playing);
    assert_eq!(next_state_on_click(GameStateType::Paused, ClickTarget::MenuButton, true), GameStateType::Paused);
    assert_eq!(next_state_on_click(GameStateType::GameOver, ClickTarget::RetryButton, true), GameStateType::Playing);
    assert_eq!(next_state_on_click(GameStateType::GameOver, ClickTarget::MenuButton, true), GameStateType::MainMenu);
    assert_eq!(next_state_on_click(GameStateType::GameOver, ClickTarget::RetryButton, false), GameStateType::GameOver);
}
