use esox::input::{ActionBinding, ActionState, InputManager};

/// Physical key code of the space bar, as the platform layer numbers it.
const SPACE: u32 = 62;
const KEY_W: u32 = 33;

#[test]
fn action_just_pressed() {
    let mut input = InputManager::new();
    input.bind_action("jump", ActionBinding::Key(SPACE));

    input.handle_key_event(SPACE, true);
    input.pre_update();

    assert!(input.just_pressed("jump"));
    assert!(input.held("jump"));
    assert!(!input.just_released("jump"));
}

#[test]
fn action_held_after_frame() {
    let mut input = InputManager::new();
    input.bind_action("jump", ActionBinding::Key(SPACE));

    input.handle_key_event(SPACE, true);
    input.begin_frame(1);
    input.pre_update();
    input.post_update();
    input.end_frame();
    // Next frame, key is still down but not "just pressed".
    input.begin_frame(1);
    input.pre_update();

    assert!(!input.just_pressed("jump"));
    assert!(input.held("jump"));
}

#[test]
fn just_pressed_survives_multi_tick_frame() {
    let mut input = InputManager::new();
    input.bind_action("jump", ActionBinding::Key(SPACE));

    input.handle_key_event(SPACE, true);
    input.begin_frame(3);

    // Tick 0
    input.pre_update();
    assert!(input.just_pressed("jump"), "tick 0 should see just_pressed");
    input.post_update();

    // Tick 1 — event must survive within same frame
    input.pre_update();
    assert!(input.just_pressed("jump"), "tick 1 should still see just_pressed");
    input.post_update();

    input.end_frame();

    // Next frame — no longer just pressed
    input.begin_frame(1);
    input.pre_update();
    assert!(!input.just_pressed("jump"));
    assert!(input.held("jump"));
}

#[test]
fn release_and_idle() {
    let mut input = InputManager::new();
    input.bind_action("jump", ActionBinding::Key(SPACE));
    input.handle_key_event(SPACE, true);
    input.begin_frame(1);
    input.pre_update();
    input.end_frame();
    input.handle_key_event(SPACE, false);
    input.begin_frame(1);
    input.pre_update();
    assert!(input.just_released("jump"));
    assert!(!input.held("jump"));
    input.end_frame();
    input.begin_frame(1);
    input.pre_update();
    assert!(!input.just_released("jump"));
    assert!(!input.just_pressed("jump"));
    assert!(!input.held("jump"));
}

#[test]
fn events_kept_when_no_tick_ran() {
    let mut input = InputManager::new();
    input.handle_key_event(KEY_W, true);
    input.begin_frame(0);
    input.end_frame();
    assert!(input.just_pressed_key(KEY_W));
    assert!(input.is_key_down(KEY_W));
    input.begin_frame(2);
    input.end_frame();
    assert!(!input.just_pressed_key(KEY_W));
    assert!(input.is_key_down(KEY_W));
}

#[test]
fn mouse_binding_and_unbound_action() {
    let mut input = InputManager::new();
    input.bind_action("fire", ActionBinding::MouseButton(0));
    input.bind_action("fire", ActionBinding::Key(KEY_W));
    input.handle_mouse_button(0, true);
    assert!(input.is_mouse_button_down(0));
    assert!(!input.is_mouse_button_down(2));
    assert!(!input.is_mouse_button_down(7));
    input.pre_update();
    assert!(input.just_pressed("fire"));
    assert!(!input.just_pressed("missing"));
    assert!(!input.held("missing"));
}

#[test]
fn clear_all_state_idles_actions() {
    let mut input = InputManager::new();
    input.bind_action("jump", ActionBinding::Key(SPACE));
    input.handle_key_event(SPACE, true);
    input.pre_update();
    assert!(input.held("jump"));
    input.clear_all_state();
    assert!(!input.is_key_down(SPACE));
    assert!(!input.held("jump"));
    assert!(!input.just_pressed("jump"));
}

#[test]
fn cursor_grab_flag() {
    let mut input = InputManager::new();
    assert!(!input.cursor_grabbed());
    input.set_cursor_grab(true);
    assert!(input.cursor_grabbed());
}

#[test]
fn action_state_queries() {
    assert!(ActionState::JustPressed.is_just_pressed());
    assert!(ActionState::JustPressed.is_held());
    assert!(ActionState::Held.is_held());
    assert!(!ActionState::Held.is_just_pressed());
    assert!(ActionState::JustReleased.is_just_released());
    assert!(!ActionState::JustReleased.is_held());
    assert!(!ActionState::Idle.is_held());
}
