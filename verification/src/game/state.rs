//! The screens of the client and how keys move between them.

use vstd::prelude::*;

verus! {

/// The screen the game shows.
#[derive(Debug, Clone, Copy, PartialEq, Eq, Structural)]
pub enum GameStateType {
    /// Start-up logo.
    Splash,
    /// Mode selection.
    MainMenu,
    /// A game in progress.
    Playing,
    /// The game, halted.
    Paused,
    /// The result of a finished game.
    GameOver,
}

/// Key code of Enter.
pub const KEY_ENTER: u32 = 13;

/// Key code of Escape.
pub const KEY_ESCAPE: u32 = 27;

/// The screen after a key event on screen `state`. Releases change
/// nothing. On the splash screen any key opens the main menu; Enter starts
/// a game from the menu, resumes a paused game, and starts a new one from
/// the result screen; Escape goes back from the menu to the splash screen,
/// pauses and resumes a game, and leaves the result screen for the menu.
/// Other keys change nothing.
pub open spec fn spec_next_state(state: GameStateType, key_code: u32, pressed: bool) -> GameStateType {
    if !pressed {
        state
    } else {
        match state {
            GameStateType::Splash => GameStateType::MainMenu,
            GameStateType::MainMenu => if key_code == KEY_ENTER {
                GameStateType::Playing
            } else if key_code == KEY_ESCAPE {
                GameStateType::Splash
            } else {
                state
            },
            GameStateType::Playing => if key_code == KEY_ESCAPE {
                GameStateType::Paused
            } else {
                state
            },
            GameStateType::Paused => if key_code == KEY_ENTER || key_code == KEY_ESCAPE {
                GameStateType::Playing
            } else {
                state
            },
            GameStateType::GameOver => if key_code == KEY_ENTER {
                GameStateType::Playing
            } else if key_code == KEY_ESCAPE {
                GameStateType::MainMenu
            } else {
                state
            },
        }
    }
}

/// The screen after a key event on screen `state` (see
/// `spec_next_state`).
pub fn next_state_on_key(state: GameStateType, key_code: u32, pressed: bool) -> (r: GameStateType)
    ensures
        r == spec_next_state(state, key_code, pressed),
        key_code != KEY_ENTER && key_code != KEY_ESCAPE ==> r == (if pressed && state == GameStateType::Splash {
            GameStateType::MainMenu
        } else {
            state
        }),
{
    if !pressed {
        return state;
    }
    match state {
        GameStateType::Splash => GameStateType::MainMenu,
        GameStateType::MainMenu => {
            if key_code == KEY_ENTER {
                GameStateType::Playing
            } else if key_code == KEY_ESCAPE {
                GameStateType::Splash
            } else {
                state
            }
        },
        GameStateType::Playing => {
            if key_code == KEY_ESCAPE {
                GameStateType::Paused
            } else {
                state
            }
        },
        GameStateType::Paused => {
            if key_code == KEY_ENTER || key_code == KEY_ESCAPE {
                GameStateType::Playing
            } else {
                state
            }
        },
        GameStateType::GameOver => {
            if key_code == KEY_ENTER {
                GameStateType::Playing
            } else if key_code == KEY_ESCAPE {
                GameStateType::MainMenu
            } else {
                state
            }
        },
    }
}

/// Escape pauses a game and Escape again resumes it.
pub proof fn lemma_escape_twice_resumes()
    ensures
        spec_next_state(
            spec_next_state(GameStateType::Playing, KEY_ESCAPE, true),
            KEY_ESCAPE,
            true,
        ) == GameStateType::Playing,
{
}

/// Releasing a key never changes the screen.
pub proof fn lemma_release_changes_nothing(state: GameStateType, key_code: u32)
    ensures
        spec_next_state(state, key_code, false) == state,
{
}

/// Only Escape ever leaves a running game, and it leads to the pause
/// screen.
pub proof fn lemma_playing_left_only_by_escape(key_code: u32, pressed: bool)
    ensures
        spec_next_state(GameStateType::Playing, key_code, pressed) != GameStateType::Playing ==> pressed
            && key_code == KEY_ESCAPE && spec_next_state(GameStateType::Playing, key_code, pressed)
            == GameStateType::Paused,
{
}

/// From any screen, at most two key presses reach a running game.
pub proof fn lemma_game_reachable(state: GameStateType)
    ensures
        spec_next_state(spec_next_state(state, KEY_ENTER, true), KEY_ENTER, true)
            == GameStateType::Playing || spec_next_state(state, KEY_ENTER, true)
            == GameStateType::Playing,
{
}

/// Only Enter and Escape act on the menu, game, pause and result screens:
/// any other key, pressed or released, leaves them as they are; on the
/// splash screen any pressed key opens the menu.
pub proof fn lemma_other_keys_change_nothing(state: GameStateType, key_code: u32, pressed: bool)
    requires
        key_code != KEY_ENTER,
        key_code != KEY_ESCAPE,
    ensures
        spec_next_state(state, key_code, pressed) == (if pressed && state == GameStateType::Splash {
            GameStateType::MainMenu
        } else {
            state
        }),
{
}

/// Enter and Escape both resume a paused game, and nothing else does.
pub proof fn lemma_pause_left_only_by_enter_or_escape(key_code: u32, pressed: bool)
    ensures
        spec_next_state(GameStateType::Paused, key_code, pressed) != GameStateType::Paused <==> (pressed && (
        key_code == KEY_ENTER || key_code == KEY_ESCAPE)),
        spec_next_state(GameStateType::Paused, key_code, pressed) != GameStateType::Paused ==> spec_next_state(
            GameStateType::Paused,
            key_code,
            pressed,
        ) == GameStateType::Playing,
{
}

/// What a click on a screen landed on.
#[derive(Debug, Clone, Copy, PartialEq, Eq, Structural)]
pub enum ClickTarget {
    /// The menu's button that starts a game.
    PlayButton,
    /// The pause screen's button that resumes the game.
    ResumeButton,
    /// The result screen's button that starts a new game.
    RetryButton,
    /// The result screen's button that leads back to the menu.
    MenuButton,
    /// Anything else.
    Elsewhere,
}

/// The screen after a mouse event on screen `state` that landed on
/// `target`. Releases change nothing. On the splash screen any click opens
/// the main menu; the menu's play button, the pause screen's resume button
/// and the result screen's retry button lead to a running game; the result
/// screen's menu button leads to the menu. Other clicks change nothing.
pub open spec fn spec_next_state_on_click(
    state: GameStateType,
    target: ClickTarget,
    pressed: bool,
) -> GameStateType {
    if !pressed {
        state
    } else {
        match state {
            GameStateType::Splash => GameStateType::MainMenu,
            GameStateType::MainMenu => if target == ClickTarget::PlayButton {
                GameStateType::Playing
            } else {
                state
            },
            GameStateType::Playing => state,
            GameStateType::Paused => if target == ClickTarget::ResumeButton {
                GameStateType::Playing
            } else {
                state
            },
            GameStateType::GameOver => if target == ClickTarget::RetryButton {
                GameStateType::Playing
            } else if target == ClickTarget::MenuButton {
                GameStateType::MainMenu
            } else {
                state
            },
        }
    }
}

/// The screen after a mouse event on screen `state` that landed on
/// `target` (see `spec_next_state_on_click`).
pub fn next_state_on_click(state: GameStateType, target: ClickTarget, pressed: bool) -> (r:
    GameStateType)
    ensures
        r == spec_next_state_on_click(state, target, pressed),
{
    if !pressed {
        return state;
    }
    match state {
        GameStateType::Splash => GameStateType::MainMenu,
        GameStateType::MainMenu => match target {
            ClickTarget::PlayButton => GameStateType::Playing,
            _ => state,
        },
        GameStateType::Playing => state,
        GameStateType::Paused => match target {
            ClickTarget::ResumeButton => GameStateType::Playing,
            _ => state,
        },
        GameStateType::GameOver => match target {
            ClickTarget::RetryButton => GameStateType::Playing,
            ClickTarget::MenuButton => GameStateType::MainMenu,
            _ => state,
        },
    }
}

/// Clicks never stop a running game: only a key does.
pub proof fn lemma_clicks_keep_playing(target: ClickTarget, pressed: bool)
    ensures
        spec_next_state_on_click(GameStateType::Playing, target, pressed) == GameStateType::Playing,
{
}

/// A click that misses every button changes the screen only on the splash
/// screen, and there it opens the menu.
pub proof fn lemma_missed_click(state: GameStateType, pressed: bool)
    ensures
        spec_next_state_on_click(state, ClickTarget::Elsewhere, pressed) == (if pressed && state
            == GameStateType::Splash {
            GameStateType::MainMenu
        } else {
            state
        }),
{
}

} // verus!
