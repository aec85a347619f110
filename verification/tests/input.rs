use pyxel_core::input::{KeyState, Pyxel, KEY_A, MOUSE_POS_X};

#[test]
fn button_repeat_continues_across_frame_count_wrap() {
    let mut pyxel = Pyxel::new();
    pyxel
        .input
        .key_states
        .insert(KEY_A, (u32::MAX - 1, KeyState::Pressed));

    let actual = [u32::MAX - 1, u32::MAX, 0, 1, 2, 3].map(|frame| {
        pyxel.frame_count = frame;
        pyxel.is_button_pressed(KEY_A, Some(3), Some(2))
    });
    assert_eq!(actual, [true, false, false, true, false, true]);
}

#[test]
fn press_then_release_in_later_frame() {
    let mut pyxel = Pyxel::new();
    pyxel.frame_count = 10;
    pyxel.press_key(KEY_A);
    assert!(pyxel.is_button_down(KEY_A));
    assert!(pyxel.is_button_pressed(KEY_A, None, None));
    assert!(!pyxel.is_button_released(KEY_A));
    pyxel.frame_count = 11;
    pyxel.release_key(KEY_A);
    assert!(!pyxel.is_button_down(KEY_A));
    assert!(pyxel.is_button_released(KEY_A));
    assert!(!pyxel.is_button_pressed(KEY_A, None, None));
}

#[test]
fn button_value_is_zero_until_set() {
    let mut pyxel = Pyxel::new();
    assert_eq!(pyxel.button_value(MOUSE_POS_X), 0);
    pyxel.set_button_value(MOUSE_POS_X, 42);
    assert_eq!(pyxel.button_value(MOUSE_POS_X), 42);
}

#[test]
fn mouse_visibility_round_trips() {
    let mut pyxel = Pyxel::new();
    pyxel.set_mouse_visible(true);
    assert!(pyxel.is_mouse_visible());
    pyxel.set_mouse_visible(false);
    assert!(!pyxel.is_mouse_visible());
}

#[test]
fn tap_within_one_frame_reads_as_pressed_and_released() {
    let mut pyxel = Pyxel::new();
    pyxel.frame_count = 5;
    pyxel.press_key(KEY_A);
    pyxel.release_key(KEY_A);
    assert!(pyxel.is_button_pressed(KEY_A, None, None));
    assert!(pyxel.is_button_released(KEY_A));
    assert!(pyxel.is_button_down(KEY_A));
    pyxel.frame_count = 6;
    assert!(!pyxel.is_button_down(KEY_A));
}
