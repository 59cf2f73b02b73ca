use vstd::prelude::*;
use std::collections::HashSet;
use crate::settings::{Action, KeyBindings};

verus! {

broadcast use vstd::std_specs::hash::group_hash_axioms;

/// Where the cursor is, as far as the window has told.
#[derive(Clone, Copy, Debug, PartialEq, Eq, Structural)]
pub enum CursorState {
    Undefined,
    Entered,
    Left,
    Locked,
}

impl Default for CursorState {
    fn default() -> (state: Self)
        ensures
            state == CursorState::Undefined,
    {
        CursorState::Undefined
    }
}

/// What the window is to do with the cursor after the grab key was used.
#[derive(Clone, Copy, Debug, PartialEq, Eq, Structural)]
pub enum GrabChange {
    /// Nothing changes.
    Keep,
    /// Lock the cursor to the window and hide it.
    Lock,
    /// Release the cursor and show it.
    Release,
}

/// Which keys and mouse buttons are down, which were let go, and where the
/// cursor is. Keys and buttons go by their codes.
pub struct InputState {
    key_released: HashSet<u32>,
    key_pressed: HashSet<u32>,
    mouse_released: HashSet<u32>,
    mouse_pressed: HashSet<u32>,
    cursor_state: CursorState,
}

/// One step along an axis: forwards if only `plus` is held, backwards if only
/// `minus` is held, none if both or neither are.
pub open spec fn axis(plus: bool, minus: bool) -> int {
    (if plus { 1int } else { 0int }) - (if minus { 1int } else { 0int })
}

impl InputState {
    /// The keys that are down.
    pub closed spec fn pressed_keys(&self) -> Set<u32> {
        self.key_pressed@
    }

    /// The keys that were let go.
    pub closed spec fn released_keys(&self) -> Set<u32> {
        self.key_released@
    }

    /// The mouse buttons that are down.
    pub closed spec fn pressed_buttons(&self) -> Set<u32> {
        self.mouse_pressed@
    }

    /// The mouse buttons that were let go.
    pub closed spec fn released_buttons(&self) -> Set<u32> {
        self.mouse_released@
    }

    /// Where the cursor is.
    pub closed spec fn cursor(&self) -> CursorState {
        self.cursor_state
    }

    /// Whether the key bound to `action` is down.
    pub open spec fn holds(&self, bindings: KeyBindings, action: Action) -> bool {
        bindings.key_of(action) matches Some(key) && self.pressed_keys().contains(key)
    }

    /// No key and no button seen yet, the cursor nowhere.
    pub fn new() -> (input: Self)
        ensures
            input.pressed_keys() == Set::<u32>::empty(),
            input.released_keys() == Set::<u32>::empty(),
            input.pressed_buttons() == Set::<u32>::empty(),
            input.released_buttons() == Set::<u32>::empty(),
            input.cursor() == CursorState::Undefined,
    {
        InputState {
            key_released: HashSet::new(),
            key_pressed: HashSet::new(),
            mouse_released: HashSet::new(),
            mouse_pressed: HashSet::new(),
            cursor_state: CursorState::Undefined,
        }
    }

    /// Takes note of a key event. An event without a key code is ignored,
    /// and so is a press that the window system made up.
    pub fn update_key(&mut self, key: Option<u32>, pressed: bool, is_synthetic: bool)
        ensures
            final(self).pressed_keys() == match key {
                Some(code) => if !pressed {
                    old(self).pressed_keys().remove(code)
                } else if !is_synthetic {
                    old(self).pressed_keys().insert(code)
                } else {
                    old(self).pressed_keys()
                },
                None => old(self).pressed_keys(),
            },
            final(self).released_keys() == match key {
                Some(code) => if !pressed {
                    old(self).released_keys().insert(code)
                } else if !is_synthetic {
                    old(self).released_keys().remove(code)
                } else {
                    old(self).released_keys()
                },
                None => old(self).released_keys(),
            },
            final(self).pressed_buttons() == old(self).pressed_buttons(),
            final(self).released_buttons() == old(self).released_buttons(),
            final(self).cursor() == old(self).cursor(),
    {
        let code = match key {
            Some(code) => code,
            None => {
                return ;
            },
        };
        if pressed {
            if !is_synthetic {
                self.key_released.remove(&code);
                self.key_pressed.insert(code);
            }
        } else {
            self.key_pressed.remove(&code);
            self.key_released.insert(code);
        }
    }

    /// Takes note of a mouse button going down or up.
    pub fn update_mouse_button(&mut self, pressed: bool, button: u32)
        ensures
            final(self).pressed_buttons() == if pressed {
                old(self).pressed_buttons().insert(button)
            } else {
                old(self).pressed_buttons().remove(button)
            },
            final(self).released_buttons() == if pressed {
                old(self).released_buttons().remove(button)
            } else {
                old(self).released_buttons().insert(button)
            },
            final(self).pressed_keys() == old(self).pressed_keys(),
            final(self).released_keys() == old(self).released_keys(),
            final(self).cursor() == old(self).cursor(),
    {
        if pressed {
            self.mouse_released.remove(&button);
            self.mouse_pressed.insert(button);
        } else {
            self.mouse_pressed.remove(&button);
            self.mouse_released.insert(button);
        }
    }

    /// Whether `key` is down; no key is never down.
    pub fn is_pressed(&self, key: Option<u32>) -> (down: bool)
        ensures
            down == (key matches Some(code) && self.pressed_keys().contains(code)),
    {
        match key {
            Some(code) => self.key_pressed.contains(&code),
            None => false,
        }
    }

    /// Uses up a key press: if `key` is down it counts as let go from now on,
    /// and the call says so.
    pub fn consume_key(&mut self, key: Option<u32>) -> (used: bool)
        ensures
            used == (key matches Some(code) && old(self).pressed_keys().contains(code)),
            used ==> final(self).pressed_keys() == old(self).pressed_keys().remove(key->0)
                && final(self).released_keys() == old(self).released_keys().insert(key->0),
            !used ==> final(self).pressed_keys() == old(self).pressed_keys()
                && final(self).released_keys() == old(self).released_keys(),
            final(self).pressed_buttons() == old(self).pressed_buttons(),
            final(self).released_buttons() == old(self).released_buttons(),
            final(self).cursor() == old(self).cursor(),
    {
        match key {
            Some(code) => {
                if self.key_pressed.contains(&code) {
                    self.key_pressed.remove(&code);
                    self.key_released.insert(code);
                    true
                } else {
                    false
                }
            },
            None => false,
        }
    }

    /// Where the cursor is.
    pub fn cursor_state(&self) -> (state: CursorState)
        ensures
            state == self.cursor(),
    {
        self.cursor_state
    }

    /// The cursor came into the window.
    pub fn cursor_entered(&mut self)
        ensures
            final(self).cursor() == CursorState::Entered,
            final(self).pressed_keys() == old(self).pressed_keys(),
            final(self).released_keys() == old(self).released_keys(),
            final(self).pressed_buttons() == old(self).pressed_buttons(),
            final(self).released_buttons() == old(self).released_buttons(),
    {
        self.cursor_state = CursorState::Entered;
    }

    /// The cursor went out of the window.
    pub fn cursor_left(&mut self)
        ensures
            final(self).cursor() == CursorState::Left,
            final(self).pressed_keys() == old(self).pressed_keys(),
            final(self).released_keys() == old(self).released_keys(),
            final(self).pressed_buttons() == old(self).pressed_buttons(),
            final(self).released_buttons() == old(self).released_buttons(),
    {
        self.cursor_state = CursorState::Left;
    }

    /// The cursor was locked to the window.
    pub fn cursor_locked(&mut self)
        ensures
            final(self).cursor() == CursorState::Locked,
            final(self).pressed_keys() == old(self).pressed_keys(),
            final(self).released_keys() == old(self).released_keys(),
            final(self).pressed_buttons() == old(self).pressed_buttons(),
            final(self).released_buttons() == old(self).released_buttons(),
    {
        self.cursor_state = CursorState::Locked;
    }

    /// Decides what the grab key does. While the cursor is in the window,
    /// a press of the key locks it; while it is locked, a press releases it
    /// into the window. The press is used up either way. In every other
    /// state of the cursor nothing happens and a press stays.
    pub fn grab(&mut self, key: Option<u32>) -> (change: GrabChange)
        ensures
            change == (if !(key matches Some(code) && old(self).pressed_keys().contains(code)) {
                GrabChange::Keep
            } else if old(self).cursor() == CursorState::Entered {
                GrabChange::Lock
            } else if old(self).cursor() == CursorState::Locked {
                GrabChange::Release
            } else {
                GrabChange::Keep
            }),
            final(self).cursor() == match change {
                GrabChange::Keep => old(self).cursor(),
                GrabChange::Lock => CursorState::Locked,
                GrabChange::Release => CursorState::Entered,
            },
            change != GrabChange::Keep ==> final(self).pressed_keys()
                == old(self).pressed_keys().remove(key->0),
            change != GrabChange::Keep ==> final(self).released_keys()
                == old(self).released_keys().insert(key->0),
            change == GrabChange::Keep ==> final(self).pressed_keys() == old(self).pressed_keys()
                && final(self).released_keys() == old(self).released_keys(),
            final(self).pressed_buttons() == old(self).pressed_buttons(),
            final(self).released_buttons() == old(self).released_buttons(),
    {
        match self.cursor_state {
            CursorState::Entered => {
                if self.consume_key(key) {
                    self.cursor_locked();
                    GrabChange::Lock
                } else {
                    GrabChange::Keep
                }
            },
            CursorState::Locked => {
                if self.consume_key(key) {
                    self.cursor_entered();
                    GrabChange::Release
                } else {
                    GrabChange::Keep
                }
            },
            _ => GrabChange::Keep,
        }
    }

    /// The direction in which the held movement keys point, one step at most
    /// along each axis: right is +x, up is +y, backwards is +z.
    pub fn movement(&self, bindings: &KeyBindings) -> (step: (i8, i8, i8))
        ensures
            step.0 == axis(self.holds(*bindings, Action::Right), self.holds(*bindings, Action::Left)),
            step.1 == axis(self.holds(*bindings, Action::Up), self.holds(*bindings, Action::Down)),
            step.2 == axis(
                self.holds(*bindings, Action::Backwards),
                self.holds(*bindings, Action::Forward),
            ),
    {
        let forward = self.is_pressed(bindings.binding(Action::Forward));
        let backward = self.is_pressed(bindings.binding(Action::Backwards));
        let left = self.is_pressed(bindings.binding(Action::Left));
        let right = self.is_pressed(bindings.binding(Action::Right));
        let up = self.is_pressed(bindings.binding(Action::Up));
        let down = self.is_pressed(bindings.binding(Action::Down));
        let mut x: i8 = 0;
        let mut y: i8 = 0;
        let mut z: i8 = 0;
        if forward {
            z -= 1;
        }
        if backward {
            z += 1;
        }
        if left {
            x -= 1;
        }
        if right {
            x += 1;
        }
        if up {
            y += 1;
        }
        if down {
            y -= 1;
        }
        (x, y, z)
    }
}

impl Default for InputState {
    fn default() -> (input: Self)
        ensures
            input.pressed_keys() == Set::<u32>::empty(),
            input.released_keys() == Set::<u32>::empty(),
            input.pressed_buttons() == Set::<u32>::empty(),
            input.released_buttons() == Set::<u32>::empty(),
            input.cursor() == CursorState::Undefined,
    {
        InputState::new()
    }
}

} // verus!
