use rigid_physics::input::{ElementState, KeyboardInputManager, MouseButtons, NUM_KEYS, NUM_MOUSE_BUTTONS};

/// Key codes of the letters A and B in the windowing library's key enum.
const KEY_A: usize = 10;
const KEY_B: usize = 11;

#[test]
fn keyboard_input_test() {
    let mut manager = KeyboardInputManager::new();
    for i in 0..NUM_KEYS {
        assert_eq!(manager.previous(i), ElementState::Up);
        assert_eq!(manager.current(i), ElementState::Up);
    }

    manager.begin_frame();
    manager.update(KEY_A, ElementState::Down);
    assert_eq!(manager.is_pressed(KEY_A), true);
    assert_eq!(manager.current(KEY_A), ElementState::Down);
    assert_eq!(manager.previous(KEY_A), ElementState::Up);

    manager.begin_frame();
    manager.update(KEY_B, ElementState::Down);
    assert_eq!(manager.is_pressed(KEY_B), true);
    assert_eq!(manager.current(KEY_B), ElementState::Down);
    assert_eq!(manager.previous(KEY_B), ElementState::Up);
    assert_eq!(manager.current(KEY_A), ElementState::Down);
    assert_eq!(manager.previous(KEY_A), ElementState::Down);

    manager.begin_frame();
    manager.update(KEY_A, ElementState::Up);
    manager.update(KEY_B, ElementState::Up);
    assert_eq!(manager.current(KEY_A), ElementState::Up);
    assert_eq!(manager.previous(KEY_A), ElementState::Down);
    assert_eq!(manager.is_released(KEY_A), true);
    assert_eq!(manager.current(KEY_B), ElementState::Up);
    assert_eq!(manager.previous(KEY_B), ElementState::Down);
    assert_eq!(manager.is_released(KEY_B), true);
}

#[test]
fn held_key_is_neither_pressed_nor_released() {
    let mut manager = KeyboardInputManager::new();
    manager.update(3, ElementState::Down);
    manager.begin_frame();
    assert!(manager.is_down(3));
    assert!(!manager.is_up(3));
    assert!(!manager.is_pressed(3));
    assert!(!manager.is_released(3));
}

#[test]
fn out_of_range_codes_are_ignored() {
    let mut manager = KeyboardInputManager::new();
    manager.update(NUM_KEYS, ElementState::Down);
    manager.update(usize::MAX, ElementState::Down);
    assert!(!manager.is_down(NUM_KEYS));
    assert!(!manager.is_up(NUM_KEYS));
    assert!(!manager.is_pressed(NUM_KEYS));
    assert!(!manager.is_released(NUM_KEYS));
    for i in 0..NUM_KEYS {
        assert!(manager.is_up(i));
    }
    assert!(manager.is_up(NUM_KEYS - 1));
}

#[test]
fn mouse_buttons_follow_frames() {
    let mut buttons = MouseButtons::new();
    buttons.begin_frame();
    for i in 0..NUM_MOUSE_BUTTONS {
        assert_eq!(buttons.current(i), ElementState::Up);
        assert_eq!(buttons.previous(i), ElementState::Up);
    }
    buttons.update(0, ElementState::Down);
    assert_eq!(buttons.current(0), ElementState::Down);
    assert!(buttons.is_pressed(0));

    buttons.begin_frame();
    assert_eq!(buttons.current(0), ElementState::Down);
    assert!(!buttons.is_pressed(0));
    assert!(!buttons.is_released(0));

    buttons.begin_frame();
    buttons.update(0, ElementState::Up);
    assert_eq!(buttons.current(0), ElementState::Up);
    assert_eq!(buttons.previous(0), ElementState::Down);
    assert!(buttons.is_released(0));
    buttons.update(NUM_MOUSE_BUTTONS, ElementState::Down);
    assert!(!buttons.is_down(NUM_MOUSE_BUTTONS));
}
