use std::collections::HashMap;
use vstd::prelude::*;
use vstd::string::StringExecFns;

verus! {

broadcast use vstd::std_specs::hash::group_hash_axioms;

/// A key, mouse button, mouse axis or gamepad input.
pub type Key = u32;

/// The value of an analog input.
pub type KeyValue = i32;

pub const KEY_ESCAPE: Key = 0x1b;
pub const KEY_A: Key = 0x61;
pub const MOUSE_KEY_START_INDEX: Key = 0x5000_0100;
pub const MOUSE_POS_X: Key = 0x5000_0100;
pub const MOUSE_POS_Y: Key = 0x5000_0101;
pub const MOUSE_WHEEL_X: Key = 0x5000_0102;
pub const MOUSE_WHEEL_Y: Key = 0x5000_0103;
pub const MOUSE_BUTTON_LEFT: Key = 0x5000_0104;
pub const GAMEPAD_KEY_START_INDEX: Key = 0x5000_0200;
pub const GAMEPAD_KEY_STRIDE: Key = 0x100;
pub const GAMEPAD_AXIS_COUNT: Key = 6;

/// How a key changed in the frame of its last transition.
#[derive(Clone, Copy, PartialEq, Eq, Structural)]
pub enum KeyState {
    Pressed,
    Released,
    PressedAndReleased,
    ReleasedAndPressed,
}

/// Per-key states and analog values.
pub struct Input {
    pub mouse_visible: bool,
    pub key_states: HashMap<Key, (u32, KeyState)>,
    pub key_values: HashMap<Key, KeyValue>,
}

impl Input {
    pub fn new() -> (r: Self)
        ensures
            !r.mouse_visible,
            r.key_states@ == Map::<Key, (u32, KeyState)>::empty(),
            r.key_values@ == Map::<Key, KeyValue>::empty(),
    {
        Input { mouse_visible: false, key_states: HashMap::new(), key_values: HashMap::new() }
    }
}

/// The input side of the engine: key states together with the per-frame values that the
/// queries read (frame count, mouse, typed text, dropped files).
pub struct Pyxel {
    pub input: Input,
    pub frame_count: u32,
    pub mouse_x: i32,
    pub mouse_y: i32,
    pub mouse_wheel: i32,
    pub input_keys: Vec<Key>,
    pub input_text: String,
    pub dropped_files: Vec<String>,
}

/// Mouse position and wheel axes, and the axes of every gamepad.
pub open spec fn spec_is_analog_key(key: Key) -> bool {
    key == MOUSE_POS_X || key == MOUSE_POS_Y || key == MOUSE_WHEEL_X || key == MOUSE_WHEEL_Y
        || (key >= GAMEPAD_KEY_START_INDEX && key % GAMEPAD_KEY_STRIDE < GAMEPAD_AXIS_COUNT)
}

/// `a - b` modulo 2^32, as `u32::wrapping_sub` computes it.
pub open spec fn frames_since(a: u32, b: u32) -> int {
    if a >= b {
        a - b
    } else {
        a + 0x1_0000_0000 - b
    }
}

pub open spec fn spec_button_down(states: Map<Key, (u32, KeyState)>, frame: u32, key: Key) -> bool {
    states.contains_key(key) && match states[key].1 {
        KeyState::Pressed | KeyState::ReleasedAndPressed => true,
        KeyState::PressedAndReleased => states[key].0 == frame,
        KeyState::Released => false,
    }
}

/// Pressed in this frame, or held for `hold` frames and then every `repeat` frames.
pub open spec fn spec_button_pressed(
    states: Map<Key, (u32, KeyState)>,
    frame: u32,
    key: Key,
    hold: u32,
    repeat: u32,
) -> bool {
    states.contains_key(key) && {
        let (fc, st) = states[key];
        &&& st != KeyState::Released
        &&& (fc == frame || (st != KeyState::PressedAndReleased && repeat != 0 && frames_since(frame, fc) >= hold
            && (frames_since(frame, fc) - hold) % (repeat as int) == 0))
    }
}

pub open spec fn spec_button_released(states: Map<Key, (u32, KeyState)>, frame: u32, key: Key) -> bool {
    states.contains_key(key) && states[key].1 != KeyState::Pressed && states[key].0 == frame
}

/// The state a transition into `pressed` leaves: the "and" states when the key already
/// changed the other way in this frame.
pub open spec fn next_key_state(states: Map<Key, (u32, KeyState)>, frame: u32, key: Key, pressed: bool) -> KeyState {
    let current = if pressed { KeyState::Pressed } else { KeyState::Released };
    if states.contains_key(key) && states[key].0 == frame && states[key].1 != current {
        if pressed { KeyState::ReleasedAndPressed } else { KeyState::PressedAndReleased }
    } else {
        current
    }
}

impl Pyxel {
    pub fn new() -> (r: Self)
        ensures
            r.input.key_states@ == Map::<Key, (u32, KeyState)>::empty(),
            r.input.key_values@ == Map::<Key, KeyValue>::empty(),
            !r.input.mouse_visible,
            r.frame_count == 0,
            r.mouse_x == 0 && r.mouse_y == 0 && r.mouse_wheel == 0,
            r.input_keys@ == Seq::<Key>::empty(),
            r.input_text@ == Seq::<char>::empty(),
            r.dropped_files@ == Seq::<String>::empty(),
    {
        Pyxel {
            input: Input::new(),
            frame_count: 0,
            mouse_x: 0,
            mouse_y: 0,
            mouse_wheel: 0,
            input_keys: Vec::new(),
            input_text: String::new(),
            dropped_files: Vec::new(),
        }
    }

    pub fn is_analog_key(key: Key) -> (r: bool)
        ensures
            r == spec_is_analog_key(key),
    {
        key == MOUSE_POS_X || key == MOUSE_POS_Y || key == MOUSE_WHEEL_X || key == MOUSE_WHEEL_Y
            || (key >= GAMEPAD_KEY_START_INDEX && key % GAMEPAD_KEY_STRIDE < GAMEPAD_AXIS_COUNT)
    }

    pub fn is_current_frame(&self, frame_count: u32) -> (r: bool)
        ensures
            r == (frame_count == self.frame_count),
    {
        frame_count == self.frame_count
    }

    pub fn is_button_down(&self, key: Key) -> (r: bool)
        requires
            !spec_is_analog_key(key),
        ensures
            r == spec_button_down(self.input.key_states@, self.frame_count, key),
    {
        match self.input.key_states.get(&key) {
            Some(entry) => {
                let (frame_count, key_state) = *entry;
                match key_state {
                    KeyState::Pressed | KeyState::ReleasedAndPressed => true,
                    KeyState::PressedAndReleased => self.is_current_frame(frame_count),
                    KeyState::Released => false,
                }
            },
            None => false,
        }
    }

    pub fn is_button_pressed(&self, key: Key, hold_frames: Option<u32>, repeat_frames: Option<u32>) -> (r: bool)
        requires
            !spec_is_analog_key(key),
        ensures
            r == spec_button_pressed(
                self.input.key_states@,
                self.frame_count,
                key,
                match hold_frames { Some(h) => h, None => 0 },
                match repeat_frames { Some(p) => p, None => 0 },
            ),
    {
        let (frame_count, key_state) = match self.input.key_states.get(&key) {
            Some(entry) => *entry,
            None => {
                return false;
            },
        };
        if key_state == KeyState::Released {
            return false;
        }
        if self.is_current_frame(frame_count) {
            return true;
        }
        if key_state == KeyState::PressedAndReleased {
            return false;
        }
        let repeat = match repeat_frames {
            Some(p) => p,
            None => 0,
        };
        if repeat == 0 {
            return false;
        }
        let hold = match hold_frames {
            Some(h) => h,
            None => 0,
        };
        let elapsed = self.frame_count.wrapping_sub(frame_count);
        elapsed >= hold && (elapsed - hold) % repeat == 0
    }

    pub fn is_button_released(&self, key: Key) -> (r: bool)
        requires
            !spec_is_analog_key(key),
        ensures
            r == spec_button_released(self.input.key_states@, self.frame_count, key),
    {
        match self.input.key_states.get(&key) {
            Some(entry) => {
                let (frame_count, key_state) = *entry;
                match key_state {
                    KeyState::Pressed => false,
                    _ => self.is_current_frame(frame_count),
                }
            },
            None => false,
        }
    }

    pub fn button_value(&self, key: Key) -> (r: KeyValue)
        requires
            spec_is_analog_key(key),
        ensures
            r == (if self.input.key_values@.contains_key(key) { self.input.key_values@[key] } else { 0 }),
    {
        match self.input.key_values.get(&key) {
            Some(v) => *v,
            None => 0,
        }
    }

    pub fn set_mouse_visible(&mut self, visible: bool)
        ensures
            final(self).input.mouse_visible == visible,
            final(self).input.key_states@ == old(self).input.key_states@,
            final(self).input.key_values@ == old(self).input.key_values@,
            final(self).frame_count == old(self).frame_count,
    {
        self.input.mouse_visible = visible;
    }

    pub fn is_mouse_visible(&self) -> (r: bool)
        ensures
            r == self.input.mouse_visible,
    {
        self.input.mouse_visible
    }

    /// Records a mouse position already converted to screen pixels.
    pub fn set_mouse_position(&mut self, x: i32, y: i32)
        ensures
            final(self).mouse_x == x,
            final(self).mouse_y == y,
            final(self).input.key_values@ == old(self).input.key_values@.insert(MOUSE_POS_X, x).insert(MOUSE_POS_Y, y),
            final(self).input.key_states@ == old(self).input.key_states@,
            final(self).frame_count == old(self).frame_count,
    {
        self.mouse_x = x;
        self.mouse_y = y;
        self.input.key_values.insert(MOUSE_POS_X, x);
        self.input.key_values.insert(MOUSE_POS_Y, y);
    }

    pub fn set_button_state(&mut self, key: Key, state: bool)
        ensures
            final(self).input.key_states@ == old(self).input.key_states@.insert(
                key,
                (old(self).frame_count, next_key_state(old(self).input.key_states@, old(self).frame_count, key, state)),
            ),
            final(self).input_keys@ == (if state && key < MOUSE_KEY_START_INDEX {
                old(self).input_keys@.push(key)
            } else {
                old(self).input_keys@
            }),
            final(self).input.key_values@ == old(self).input.key_values@,
            final(self).frame_count == old(self).frame_count,
    {
        if state {
            self.press_key(key);
        } else {
            self.release_key(key);
        }
    }

    /// Stores an analog value; mouse positions come in screen pixels and are mirrored in
    /// `mouse_x` / `mouse_y`, the vertical wheel in `mouse_wheel`.
    pub fn set_button_value(&mut self, key: Key, value: KeyValue)
        ensures
            final(self).input.key_values@ == old(self).input.key_values@.insert(key, value),
            final(self).mouse_x == (if key == MOUSE_POS_X { value } else { old(self).mouse_x }),
            final(self).mouse_y == (if key == MOUSE_POS_Y { value } else { old(self).mouse_y }),
            final(self).mouse_wheel == (if key == MOUSE_WHEEL_Y { value } else { old(self).mouse_wheel }),
            final(self).input.key_states@ == old(self).input.key_states@,
            final(self).frame_count == old(self).frame_count,
    {
        self.set_key_value(key, value);
    }

    pub fn set_input_text(&mut self, text: &str)
        ensures
            final(self).input_text@ == text@,
            final(self).frame_count == old(self).frame_count,
            final(self).input.key_states@ == old(self).input.key_states@,
    {
        self.input_text = String::new();
        self.add_input_text(text);
    }

    pub fn set_dropped_files(&mut self, files: &Vec<String>)
        ensures
            final(self).dropped_files@.len() == files@.len(),
            forall|i: int| 0 <= i < files@.len() ==> (#[trigger] final(self).dropped_files@[i])@ == files@[i]@,
            final(self).frame_count == old(self).frame_count,
            final(self).input.key_states@ == old(self).input.key_states@,
    {
        self.dropped_files = Vec::new();
        let mut i: usize = 0;
        while i < files.len()
            invariant
                i <= files@.len(),
                self.dropped_files@.len() == i,
                forall|j: int| 0 <= j < i ==> (#[trigger] self.dropped_files@[j])@ == files@[j]@,
                self.frame_count == old(self).frame_count,
                self.input.key_states@ == old(self).input.key_states@,
            decreases files.len() - i,
        {
            self.add_dropped_file(files[i].as_str());
            i = i + 1;
        }
    }

    /// Clears the per-frame inputs at the start of a frame.
    pub fn start_input_frame(&mut self)
        ensures
            final(self).input.key_values@ == old(self).input.key_values@.insert(MOUSE_WHEEL_X, 0).insert(MOUSE_WHEEL_Y, 0),
            final(self).mouse_wheel == 0,
            final(self).input_keys@ == Seq::<Key>::empty(),
            final(self).input_text@ == Seq::<char>::empty(),
            final(self).dropped_files@ == Seq::<String>::empty(),
            final(self).input.key_states@ == old(self).input.key_states@,
            final(self).frame_count == old(self).frame_count,
    {
        self.input.key_values.insert(MOUSE_WHEEL_X, 0);
        self.input.key_values.insert(MOUSE_WHEEL_Y, 0);
        self.mouse_wheel = 0;
        self.input_keys = Vec::new();
        self.input_text = String::new();
        self.dropped_files = Vec::new();
    }

    pub fn reset_key(&mut self, key: Key)
        ensures
            final(self).input.key_states@ == old(self).input.key_states@.remove(key),
            final(self).frame_count == old(self).frame_count,
    {
        self.input.key_states.remove(&key);
    }

    pub fn press_key(&mut self, key: Key)
        ensures
            final(self).input.key_states@ == old(self).input.key_states@.insert(
                key,
                (old(self).frame_count, next_key_state(old(self).input.key_states@, old(self).frame_count, key, true)),
            ),
            final(self).input_keys@ == (if key < MOUSE_KEY_START_INDEX {
                old(self).input_keys@.push(key)
            } else {
                old(self).input_keys@
            }),
            final(self).input.key_values@ == old(self).input.key_values@,
            final(self).frame_count == old(self).frame_count,
    {
        let key_state = if self.is_same_frame_transition(key, KeyState::Pressed) {
            KeyState::ReleasedAndPressed
        } else {
            KeyState::Pressed
        };
        let frame_count = self.frame_count;
        self.input.key_states.insert(key, (frame_count, key_state));
        if key < MOUSE_KEY_START_INDEX {
            self.input_keys.push(key);
        }
    }

    pub fn release_key(&mut self, key: Key)
        ensures
            final(self).input.key_states@ == old(self).input.key_states@.insert(
                key,
                (old(self).frame_count, next_key_state(old(self).input.key_states@, old(self).frame_count, key, false)),
            ),
            final(self).input_keys@ == old(self).input_keys@,
            final(self).input.key_values@ == old(self).input.key_values@,
            final(self).frame_count == old(self).frame_count,
    {
        let key_state = if self.is_same_frame_transition(key, KeyState::Released) {
            KeyState::PressedAndReleased
        } else {
            KeyState::Released
        };
        let frame_count = self.frame_count;
        self.input.key_states.insert(key, (frame_count, key_state));
    }

    pub fn set_key_value(&mut self, key: Key, value: KeyValue)
        ensures
            final(self).input.key_values@ == old(self).input.key_values@.insert(key, value),
            final(self).mouse_x == (if key == MOUSE_POS_X { value } else { old(self).mouse_x }),
            final(self).mouse_y == (if key == MOUSE_POS_Y { value } else { old(self).mouse_y }),
            final(self).mouse_wheel == (if key == MOUSE_WHEEL_Y { value } else { old(self).mouse_wheel }),
            final(self).input.key_states@ == old(self).input.key_states@,
            final(self).frame_count == old(self).frame_count,
    {
        if key == MOUSE_POS_X {
            self.mouse_x = value;
        } else if key == MOUSE_POS_Y {
            self.mouse_y = value;
        } else if key == MOUSE_WHEEL_Y {
            self.mouse_wheel = value;
        }
        self.input.key_values.insert(key, value);
    }

    pub fn add_input_text(&mut self, text: &str)
        ensures
            final(self).input_text@ == old(self).input_text@ + text@,
            final(self).frame_count == old(self).frame_count,
            final(self).input.key_states@ == old(self).input.key_states@,
    {
        self.input_text.append(text);
    }

    pub fn add_dropped_file(&mut self, filename: &str)
        ensures
            final(self).dropped_files@.len() == old(self).dropped_files@.len() + 1,
            forall|i: int| 0 <= i < old(self).dropped_files@.len() ==> final(self).dropped_files@[i] == old(self).dropped_files@[i],
            final(self).dropped_files@.last()@ == filename@,
            final(self).frame_count == old(self).frame_count,
            final(self).input.key_states@ == old(self).input.key_states@,
    {
        self.dropped_files.push(filename.to_owned());
    }

    pub fn is_same_frame_transition(&self, key: Key, current_state: KeyState) -> (r: bool)
        ensures
            r == (self.input.key_states@.contains_key(key) && self.input.key_states@[key].0 == self.frame_count
                && self.input.key_states@[key].1 != current_state),
    {
        match self.input.key_states.get(&key) {
            Some(entry) => {
                let (fc, state) = *entry;
                fc == self.frame_count && state != current_state
            },
            None => false,
        }
    }
}

/// A key pressed in a frame reads as pressed and down in that frame, whatever the hold
/// and repeat settings.
pub proof fn lemma_press_is_seen(states: Map<Key, (u32, KeyState)>, frame: u32, key: Key, hold: u32, repeat: u32)
    ensures
        spec_button_pressed(states.insert(key, (frame, next_key_state(states, frame, key, true))), frame, key, hold, repeat),
        spec_button_down(states.insert(key, (frame, next_key_state(states, frame, key, true))), frame, key),
{
}

/// A key released in a frame reads as released in that frame.
pub proof fn lemma_release_is_seen(states: Map<Key, (u32, KeyState)>, frame: u32, key: Key)
    ensures
        spec_button_released(states.insert(key, (frame, next_key_state(states, frame, key, false))), frame, key),
{
}

/// A key pressed and released within one frame reads in that frame as pressed, as
/// released, and as down.
pub proof fn lemma_tap_within_frame(states: Map<Key, (u32, KeyState)>, frame: u32, key: Key, hold: u32, repeat: u32)
    ensures
        ({
            let pressed = states.insert(key, (frame, next_key_state(states, frame, key, true)));
            let tapped = pressed.insert(key, (frame, next_key_state(pressed, frame, key, false)));
            &&& spec_button_pressed(tapped, frame, key, hold, repeat)
            &&& spec_button_released(tapped, frame, key)
            &&& spec_button_down(tapped, frame, key)
        }),
{
}

} // verus!
