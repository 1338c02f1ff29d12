use vstd::prelude::*;

verus! {

/// Number of key codes tracked by [`KeyboardInputManager`].
pub const NUM_KEYS: usize = 256;

/// Number of mouse buttons tracked by [`MouseButtons`].
pub const NUM_MOUSE_BUTTONS: usize = 52;

/// Whether a key or button is currently held.
#[derive(Debug, Clone, Copy, PartialEq, Eq, Structural)]
pub enum ElementState {
    Up,
    Down,
}

/// States of `N` buttons in the current and in the previous frame.
#[derive(Debug)]
pub struct ButtonStates<const N: usize> {
    previous: [ElementState; N],
    current: [ElementState; N],
}

impl<const N: usize> ButtonStates<N> {
    /// State of button `code` in the current frame.
    pub closed spec fn state(&self, code: int) -> ElementState {
        self.current@[code]
    }

    /// State of button `code` at the end of the previous frame.
    pub closed spec fn previous_state(&self, code: int) -> ElementState {
        self.previous@[code]
    }

    /// Every button up, now and before.
    pub fn new() -> (r: Self)
        ensures
            forall|c: int| 0 <= c < N ==> r.state(c) == ElementState::Up,
            forall|c: int| 0 <= c < N ==> r.previous_state(c) == ElementState::Up,
    {
        ButtonStates { previous: [ElementState::Up; N], current: [ElementState::Up; N] }
    }

    /// Starts a new frame: the current states become the previous ones.
    pub fn begin_frame(&mut self)
        ensures
            forall|c: int| 0 <= c < N ==> final(self).state(c) == old(self).state(c),
            forall|c: int| 0 <= c < N ==> final(self).previous_state(c) == old(self).state(c),
    {
        self.previous = self.current;
    }

    /// State of button `code` in the current frame.
    pub fn current(&self, code: usize) -> (r: ElementState)
        requires
            code < N,
        ensures
            r == self.state(code as int),
    {
        self.current[code]
    }

    /// State of button `code` at the end of the previous frame.
    pub fn previous(&self, code: usize) -> (r: ElementState)
        requires
            code < N,
        ensures
            r == self.previous_state(code as int),
    {
        self.previous[code]
    }

    /// Whether button `code` is held; false for codes out of range.
    pub fn is_down(&self, code: usize) -> (r: bool)
        ensures
            r == (code < N && self.state(code as int) == ElementState::Down),
    {
        if code >= N {
            return false;
        }
        self.current[code] == ElementState::Down
    }

    /// Whether button `code` is released; false for codes out of range.
    pub fn is_up(&self, code: usize) -> (r: bool)
        ensures
            r == (code < N && self.state(code as int) == ElementState::Up),
    {
        if code >= N {
            return false;
        }
        self.current[code] == ElementState::Up
    }

    /// Whether button `code` went down during this frame.
    pub fn is_pressed(&self, code: usize) -> (r: bool)
        ensures
            r == (code < N && self.state(code as int) == ElementState::Down
                && self.previous_state(code as int) == ElementState::Up),
    {
        if code >= N {
            return false;
        }
        self.current[code] == ElementState::Down && self.previous[code] == ElementState::Up
    }

    /// Whether button `code` went up during this frame.
    pub fn is_released(&self, code: usize) -> (r: bool)
        ensures
            r == (code < N && self.state(code as int) == ElementState::Up
                && self.previous_state(code as int) == ElementState::Down),
    {
        if code >= N {
            return false;
        }
        self.current[code] == ElementState::Up && self.previous[code] == ElementState::Down
    }

    /// Records that button `code` is now in `state`; codes out of range are ignored.
    pub fn update(&mut self, code: usize, state: ElementState)
        ensures
            forall|c: int|
                0 <= c < N ==> final(self).state(c) == (if c == code as int {
                    state
                } else {
                    old(self).state(c)
                }),
            forall|c: int| 0 <= c < N ==> final(self).previous_state(c) == old(self).previous_state(c),
    {
        if code >= N {
            return;
        }
        self.current[code] = state;
    }
}

/// Mouse button states; the pointer's motion and scroll are kept by the caller.
pub type MouseButtons = ButtonStates<52>;

/// Keyboard state for the current and the previous frame.
/// `begin_frame` should be called once per frame, before the frame's events.
#[derive(Debug)]
pub struct KeyboardInputManager {
    keys: ButtonStates<256>,
}

impl KeyboardInputManager {
    /// State of key `code` in the current frame.
    pub closed spec fn key(&self, code: int) -> ElementState {
        self.keys.state(code)
    }

    /// State of key `code` at the end of the previous frame.
    pub closed spec fn previous_key(&self, code: int) -> ElementState {
        self.keys.previous_state(code)
    }

    /// Creates a manager with every key up.
    pub fn new() -> (r: Self)
        ensures
            forall|c: int| 0 <= c < NUM_KEYS ==> r.key(c) == ElementState::Up,
            forall|c: int| 0 <= c < NUM_KEYS ==> r.previous_key(c) == ElementState::Up,
    {
        KeyboardInputManager { keys: ButtonStates::new() }
    }

    /// Starts a new frame: the current states become the previous ones.
    pub fn begin_frame(&mut self)
        ensures
            forall|c: int| 0 <= c < NUM_KEYS ==> final(self).key(c) == old(self).key(c),
            forall|c: int| 0 <= c < NUM_KEYS ==> final(self).previous_key(c) == old(self).key(c),
    {
        self.keys.begin_frame();
    }

    /// State of key `code` in the current frame.
    pub fn current(&self, code: usize) -> (r: ElementState)
        requires
            code < NUM_KEYS,
        ensures
            r == self.key(code as int),
    {
        self.keys.current(code)
    }

    /// State of key `code` at the end of the previous frame.
    pub fn previous(&self, code: usize) -> (r: ElementState)
        requires
            code < NUM_KEYS,
        ensures
            r == self.previous_key(code as int),
    {
        self.keys.previous(code)
    }

    /// Whether key `code` is held; false for codes out of range.
    pub fn is_down(&self, code: usize) -> (r: bool)
        ensures
            r == (code < NUM_KEYS && self.key(code as int) == ElementState::Down),
    {
        self.keys.is_down(code)
    }

    /// Whether key `code` is released; false for codes out of range.
    pub fn is_up(&self, code: usize) -> (r: bool)
        ensures
            r == (code < NUM_KEYS && self.key(code as int) == ElementState::Up),
    {
        self.keys.is_up(code)
    }

    /// Whether key `code` went down during this frame.
    pub fn is_pressed(&self, code: usize) -> (r: bool)
        ensures
            r == (code < NUM_KEYS && self.key(code as int) == ElementState::Down
                && self.previous_key(code as int) == ElementState::Up),
    {
        self.keys.is_pressed(code)
    }

    /// Whether key `code` went up during this frame.
    pub fn is_released(&self, code: usize) -> (r: bool)
        ensures
            r == (code < NUM_KEYS && self.key(code as int) == ElementState::Up
                && self.previous_key(code as int) == ElementState::Down),
    {
        self.keys.is_released(code)
    }

    /// Records that key `code` is now in `state`; codes out of range are ignored.
    pub fn update(&mut self, code: usize, state: ElementState)
        ensures
            forall|c: int|
                0 <= c < NUM_KEYS ==> final(self).key(c) == (if c == code as int {
                    state
                } else {
                    old(self).key(c)
                }),
            forall|c: int| 0 <= c < NUM_KEYS ==> final(self).previous_key(c) == old(self).previous_key(c),
    {
        self.keys.update(code, state);
    }
}

} // verus!
