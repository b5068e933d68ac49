use ecs_game::input::{ActionMapping, InputState};

fn action_value(mapping: &ActionMapping, action: &str) -> f32 {
    if mapping.has_action_value(action) {
        1.0
    } else {
        0.0
    }
}

#[test]
fn mod_test_input_state_creation() {
    let input_state = InputState::new();
    assert!(input_state.keys_pressed.is_empty());
    assert!(input_state.mouse_buttons.is_empty());
}

#[test]
fn mod_test_key_update() {
    let mut input_state = InputState::new();
    input_state.update_key(32, true, 1_000); // Space key
    assert!(input_state.is_key_pressed(32));
    assert!(input_state.is_key_just_pressed(32));

    // The next frame.
    input_state.keys_previous = input_state.keys_pressed.clone();
    assert!(input_state.is_key_pressed(32));
    assert!(!input_state.is_key_just_pressed(32));

    // Release the key.
    input_state.update_key(32, false, 1_100);
    assert!(!input_state.is_key_pressed(32));
    assert!(input_state.is_key_just_released(32));
}

#[test]
fn test_action_mapping() {
    let mut action_mapping = ActionMapping::new();
    action_mapping.bind_key("jump", 32);

    let mut input_state = InputState::new();
    input_state.action_mapping = action_mapping;

    input_state.update_key(32, true, 1_000);
    input_state.update_actions(1_000);

    assert!(input_state.action_mapping.is_action_active("jump"));
    assert!(input_state.action_mapping.is_action_just_pressed("jump"));
    assert_eq!(action_value(&input_state.action_mapping, "jump"), 1.0);

    // The next frame.
    input_state.action_mapping.previous_actions = input_state.action_mapping.active_actions.clone();
    input_state.update_actions(1_016);

    assert!(input_state.action_mapping.is_action_active("jump"));
    assert!(!input_state.action_mapping.is_action_just_pressed("jump"));

    // Release the key.
    input_state.update_key(32, false, 1_032);
    input_state.update_actions(1_032);

    assert!(!input_state.action_mapping.is_action_active("jump"));
    assert!(input_state.action_mapping.is_action_just_released("jump"));
}

#[test]
fn input_state_starts_empty() {
    let input_state = InputState::new();
    assert!(input_state.keys_pressed.is_empty());
    assert!(input_state.mouse_buttons.is_empty());
    assert!(input_state.action_mapping.active_actions.is_empty());
}

#[test]
fn bindings_can_be_removed_and_mouse_buttons_bound() {
    let mut state = InputState::new();
    state.action_mapping.bind_key("fire", 70).bind_key("fire", 71).bind_mouse_button("fire", 0);
    state.update_key(71, true, 10);
    state.update_actions(10);
    assert!(state.action_mapping.is_action_active("fire"));
    state.action_mapping.unbind_key("fire", 71);
    state.update_actions(20);
    assert!(!state.action_mapping.is_action_active("fire"));
    assert!(state.action_mapping.is_action_just_released("fire"));
    state.update_mouse_button(0, true);
    assert!(state.is_mouse_button_pressed(0));
    state.update_actions(30);
    assert!(state.action_mapping.is_action_active("fire"));
    assert_eq!(state.action_mapping.get_action_duration("fire", 45), Some(15));
    assert_eq!(state.action_mapping.get_action_duration("jump", 45), None);
}

#[test]
fn held_action_keeps_its_start_time() {
    let mut state = InputState::new();
    state.action_mapping.bind_key("jump", 32).bind_mouse_button("jump", 0);
    state.update_key(32, true, 100);
    state.update_actions(100);
    assert_eq!(state.action_mapping.get_action_duration("jump", 100), Some(0));
    state.update_actions(200);
    state.update_mouse_button(0, true);
    state.update_actions(300);
    assert!(state.action_mapping.is_action_active("jump"));
    assert_eq!(state.action_mapping.get_action_duration("jump", 350), Some(250));
    state.update_key(32, false, 400);
    state.update_mouse_button(0, false);
    state.update_actions(400);
    assert!(!state.action_mapping.is_action_active("jump"));
    state.update_key(32, true, 500);
    state.update_actions(500);
    assert_eq!(state.action_mapping.get_action_duration("jump", 520), Some(20));
}

#[test]
fn frames_move_keys_and_buttons_to_the_previous_frame() {
    let mut state = InputState::new();
    state.update_key(65, true, 0);
    state.update_mouse_button(2, true);
    assert!(state.is_mouse_button_just_pressed(2));
    state.update(16);
    assert!(!state.is_key_just_pressed(65));
    assert!(!state.is_mouse_button_just_pressed(2));
    state.update_mouse_button(2, false);
    assert!(state.is_mouse_button_just_released(2));
}

#[test]
fn held_keys_repeat_after_the_delay() {
    let mut state = InputState::new();
    state.action_mapping.bind_key("scroll", 40).set_key_repeat(40, 300, 100);
    state.update_key(40, true, 1_000);
    state.update(1_000);
    assert!(state.action_mapping.is_action_active("scroll"));
    // Before the delay the repeat time stays at the press.
    state.update(1_200);
    assert_eq!(state.key_last_repeat_time.get(&40), Some(&1_000));
    // After the delay and the interval the key repeats.
    state.update(1_350);
    assert_eq!(state.key_last_repeat_time.get(&40), Some(&1_350));
    // Too soon for the next repeat.
    state.update(1_400);
    assert_eq!(state.key_last_repeat_time.get(&40), Some(&1_350));
    state.update(1_450);
    assert_eq!(state.key_last_repeat_time.get(&40), Some(&1_450));
}
