use vstd::prelude::*;

verus! {

/// What a key can be bound to.
#[derive(Clone, Copy, Debug, PartialEq, Eq, Hash, Structural)]
pub enum Action {
    Forward,
    Backwards,
    Left,
    Right,
    Up,
    Down,
    GrabCursor,
}

/// The key, by its code, that each action is bound to.
#[derive(Clone, Copy, Debug, PartialEq, Eq, Structural)]
pub struct KeyBindings {
    pub forward: Option<u32>,
    pub backwards: Option<u32>,
    pub left: Option<u32>,
    pub right: Option<u32>,
    pub up: Option<u32>,
    pub down: Option<u32>,
    pub grab_cursor: Option<u32>,
}

impl KeyBindings {
    /// The key bound to `action`, if any.
    pub open spec fn key_of(self, action: Action) -> Option<u32> {
        match action {
            Action::Forward => self.forward,
            Action::Backwards => self.backwards,
            Action::Left => self.left,
            Action::Right => self.right,
            Action::Up => self.up,
            Action::Down => self.down,
            Action::GrabCursor => self.grab_cursor,
        }
    }

    /// Bindings in which no action has a key.
    pub fn new() -> (bindings: Self)
        ensures
            forall|action: Action| bindings.key_of(action) is None,
    {
        KeyBindings {
            forward: None,
            backwards: None,
            left: None,
            right: None,
            up: None,
            down: None,
            grab_cursor: None,
        }
    }

    /// Binds `action` to `key`; the other actions keep their keys.
    pub fn bind(&mut self, action: Action, key: u32)
        ensures
            final(self).key_of(action) == Some(key),
            forall|other: Action| other != action ==> final(self).key_of(other) == old(self).key_of(other),
    {
        match action {
            Action::Forward => self.forward = Some(key),
            Action::Backwards => self.backwards = Some(key),
            Action::Left => self.left = Some(key),
            Action::Right => self.right = Some(key),
            Action::Up => self.up = Some(key),
            Action::Down => self.down = Some(key),
            Action::GrabCursor => self.grab_cursor = Some(key),
        }
    }

    /// The key bound to `action`, if any.
    pub fn binding(&self, action: Action) -> (key: Option<u32>)
        ensures
            key == self.key_of(action),
    {
        match action {
            Action::Forward => self.forward,
            Action::Backwards => self.backwards,
            Action::Left => self.left,
            Action::Right => self.right,
            Action::Up => self.up,
            Action::Down => self.down,
            Action::GrabCursor => self.grab_cursor,
        }
    }
}

} // verus!
