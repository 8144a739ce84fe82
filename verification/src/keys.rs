//! What the player holds down in one frame.

use crate::grid::Heading;
use vstd::prelude::*;

verus! {

/// A snapshot of the keys, taken once per frame.
#[derive(Clone, Copy, Debug)]
pub struct KeyStates {
    pub up: bool,
    pub down: bool,
    pub right: bool,
    pub left: bool,
    /// Starts, pauses and resumes the game.
    pub space: bool,
    /// Gives the game up.
    pub r: bool,
}

impl KeyStates {
    /// Whether one of the four direction keys is down.
    pub open spec fn moves(self) -> bool {
        self.up || self.down || self.right || self.left
    }

    /// The direction asked for: up before down, down before right, right
    /// before left; idle when no direction key is down.
    pub open spec fn asked(self) -> Heading {
        if self.up {
            Heading::Up
        } else if self.down {
            Heading::Down
        } else if self.right {
            Heading::Right
        } else if self.left {
            Heading::Left
        } else {
            Heading::Idle
        }
    }

    /// No key down.
    pub fn new() -> (k: KeyStates)
        ensures
            k == (KeyStates {
                up: false,
                down: false,
                right: false,
                left: false,
                space: false,
                r: false,
            }),
            !k.moves(),
    {
        KeyStates { up: false, down: false, right: false, left: false, space: false, r: false }
    }

    /// Whether one of the four direction keys is down.
    pub fn any_movement(&self) -> (r: bool)
        ensures
            r == self.moves(),
    {
        self.up || self.down || self.right || self.left
    }

    /// The direction asked for.
    pub fn heading(&self) -> (h: Heading)
        ensures
            h == self.asked(),
            self.moves() <==> !(h is Idle),
    {
        if self.up {
            Heading::Up
        } else if self.down {
            Heading::Down
        } else if self.right {
            Heading::Right
        } else if self.left {
            Heading::Left
        } else {
            Heading::Idle
        }
    }
}

} // verus!
