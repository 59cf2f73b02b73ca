use voxel_svo::input::{CursorState, GrabChange, InputState};
use voxel_svo::settings::{Action, KeyBindings};

const ALL: [Action; 7] = [
    Action::Forward,
    Action::Backwards,
    Action::Left,
    Action::Right,
    Action::Up,
    Action::Down,
    Action::GrabCursor,
];

fn wasd() -> KeyBindings {
    let mut b = KeyBindings::new();
    b.bind(Action::Forward, 1);
    b.bind(Action::Backwards, 2);
    b.bind(Action::Left, 3);
    b.bind(Action::Right, 4);
    b.bind(Action::Up, 5);
    b.bind(Action::Down, 6);
    b.bind(Action::GrabCursor, 7);
    b
}

#[test]
fn new_bindings_bind_nothing() {
    let b = KeyBindings::new();
    for a in ALL {
        assert_eq!(b.binding(a), None);
    }
}

#[test]
fn bind_sets_one_action_only() {
    for (i, a) in ALL.iter().enumerate() {
        let mut b = wasd();
        b.bind(*a, 100);
        for (j, other) in ALL.iter().enumerate() {
            let expected = if i == j { 100 } else { j as u32 + 1 };
            assert_eq!(b.binding(*other), Some(expected));
        }
    }
}

#[test]
fn default_cursor_state_is_undefined() {
    assert_eq!(CursorState::default(), CursorState::Undefined);
    assert_eq!(InputState::new().cursor_state(), CursorState::Undefined);
    assert_eq!(InputState::default().cursor_state(), CursorState::Undefined);
}

#[test]
fn cursor_follows_the_last_event() {
    let mut input = InputState::new();
    input.cursor_entered();
    assert_eq!(input.cursor_state(), CursorState::Entered);
    input.cursor_locked();
    assert_eq!(input.cursor_state(), CursorState::Locked);
    input.cursor_left();
    assert_eq!(input.cursor_state(), CursorState::Left);
}

#[test]
fn key_is_pressed_between_press_and_release() {
    let mut input = InputState::new();
    assert!(!input.is_pressed(Some(30)));
    input.update_key(Some(30), true, false);
    assert!(input.is_pressed(Some(30)));
    assert!(!input.is_pressed(Some(31)));
    assert!(!input.is_pressed(None));
    input.update_key(Some(30), false, false);
    assert!(!input.is_pressed(Some(30)));
}

#[test]
fn synthetic_press_is_ignored_but_synthetic_release_counts() {
    let mut input = InputState::new();
    input.update_key(Some(30), true, true);
    assert!(!input.is_pressed(Some(30)));
    input.update_key(Some(30), true, false);
    input.update_key(Some(30), false, true);
    assert!(!input.is_pressed(Some(30)));
}

#[test]
fn event_without_a_key_code_changes_nothing() {
    let mut input = InputState::new();
    input.update_key(Some(30), true, false);
    input.update_key(None, false, false);
    input.update_key(None, true, false);
    assert!(input.is_pressed(Some(30)));
}

#[test]
fn consume_uses_a_press_up_once() {
    let mut input = InputState::new();
    assert!(!input.consume_key(Some(30)));
    input.update_key(Some(30), true, false);
    input.update_key(Some(31), true, false);
    assert!(!input.consume_key(None));
    assert!(input.consume_key(Some(30)));
    assert!(!input.is_pressed(Some(30)));
    assert!(input.is_pressed(Some(31)));
    assert!(!input.consume_key(Some(30)));
}

#[test]
fn mouse_buttons_do_not_touch_keys() {
    let mut input = InputState::new();
    input.update_key(Some(0), true, false);
    input.update_mouse_button(true, 0);
    input.update_mouse_button(false, 0);
    assert!(input.is_pressed(Some(0)));
}

#[test]
fn grab_key_toggles_between_entered_and_locked() {
    let mut input = InputState::new();
    input.cursor_entered();
    assert_eq!(input.grab(Some(7)), GrabChange::Keep);
    input.update_key(Some(7), true, false);
    assert_eq!(input.grab(Some(7)), GrabChange::Lock);
    assert_eq!(input.cursor_state(), CursorState::Locked);
    // the press is used up
    assert!(!input.is_pressed(Some(7)));
    assert_eq!(input.grab(Some(7)), GrabChange::Keep);
    assert_eq!(input.cursor_state(), CursorState::Locked);
    input.update_key(Some(7), true, false);
    assert_eq!(input.grab(Some(7)), GrabChange::Release);
    assert_eq!(input.cursor_state(), CursorState::Entered);
}

#[test]
fn grab_key_does_nothing_outside_the_window() {
    for leave in [false, true] {
        let mut input = InputState::new();
        if leave {
            input.cursor_left();
        }
        let state = input.cursor_state();
        input.update_key(Some(7), true, false);
        assert_eq!(input.grab(Some(7)), GrabChange::Keep);
        assert_eq!(input.cursor_state(), state);
        // the press stays
        assert!(input.is_pressed(Some(7)));
    }
    let mut input = InputState::new();
    input.cursor_entered();
    input.update_key(Some(7), true, false);
    assert_eq!(input.grab(None), GrabChange::Keep);
    assert_eq!(input.grab(Some(8)), GrabChange::Keep);
    assert_eq!(input.cursor_state(), CursorState::Entered);
}

#[test]
fn movement_follows_the_held_keys() {
    let b = wasd();
    let mut input = InputState::new();
    assert_eq!(input.movement(&b), (0, 0, 0));
    input.update_key(Some(1), true, false);
    assert_eq!(input.movement(&b), (0, 0, -1));
    input.update_key(Some(4), true, false);
    assert_eq!(input.movement(&b), (1, 0, -1));
    input.update_key(Some(6), true, false);
    assert_eq!(input.movement(&b), (1, -1, -1));
    // opposite keys cancel
    input.update_key(Some(2), true, false);
    assert_eq!(input.movement(&b), (1, -1, 0));
    input.update_key(Some(3), true, false);
    input.update_key(Some(5), true, false);
    assert_eq!(input.movement(&b), (0, 0, 0));
    input.update_key(Some(4), false, false);
    input.update_key(Some(6), false, false);
    input.update_key(Some(1), false, false);
    assert_eq!(input.movement(&b), (-1, 1, 1));
}

#[test]
fn unbound_actions_never_move() {
    let b = KeyBindings::new();
    let mut input = InputState::new();
    for k in 0..10 {
        input.update_key(Some(k), true, false);
    }
    assert_eq!(input.movement(&b), (0, 0, 0));
}
