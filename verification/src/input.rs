//! Turns what is held down now into buttons that were just pressed or released.

use vstd::prelude::*;

verus! {

/// The buttons of the controller that the game is played with.
#[derive(Clone, Copy, Debug, PartialEq, Eq, Structural)]
pub enum Button {
    Left,
    Right,
    Up,
    Down,
    Jump,
}

/// The number of buttons.
pub const BUTTON_COUNT: usize = 5;

impl Button {
    /// The place of the button among the buttons.
    pub open spec fn slot(self) -> int {
        match self {
            Button::Left => 0,
            Button::Right => 1,
            Button::Up => 2,
            Button::Down => 3,
            Button::Jump => 4,
        }
    }

    /// Computes `slot`.
    pub fn index(self) -> (i: usize)
        ensures
            i == self.slot(),
            i < BUTTON_COUNT,
    {
        match self {
            Button::Left => 0,
            Button::Right => 1,
            Button::Up => 2,
            Button::Down => 3,
            Button::Jump => 4,
        }
    }
}

/// A history with one more update at its end: the older updates move up by
/// one bit and the oldest is forgotten.
pub open spec fn pushed(history: u8, held: bool) -> u8 {
    (history << 1) | (if held {
        1u8
    } else {
        0u8
    })
}

/// For every button, whether it was held down at each of the last eight
/// updates, the latest in the lowest bit.
pub struct ButtonsState {
    history: [u8; 5],
}

impl ButtonsState {
    /// The history of a button.
    pub closed spec fn history(&self, button: Button) -> u8 {
        self.history@[button.slot()]
    }

    /// No button was ever held down.
    pub fn new() -> (state: Self)
        ensures
            forall|button: Button| state.history(button) == 0,
    {
        ButtonsState { history: [0, 0, 0, 0, 0] }
    }

    /// Records for every button whether it is held down now; `held` is
    /// indexed by `Button::index`.
    pub fn update(&mut self, held: &[bool; 5])
        ensures
            forall|button: Button|
                #[trigger] final(self).history(button) == pushed(
                    old(self).history(button),
                    held@[button.slot()],
                ),
    {
        let mut i: usize = 0;
        while i < BUTTON_COUNT
            invariant
                i <= BUTTON_COUNT,
                forall|j: int|
                    0 <= j < BUTTON_COUNT ==> (#[trigger] self.history@[j]) == (if j < i {
                        pushed(old(self).history@[j], held@[j])
                    } else {
                        old(self).history@[j]
                    }),
            decreases BUTTON_COUNT - i,
        {
            let bit: u8 = if held[i] {
                1
            } else {
                0
            };
            let next: u8 = (self.history[i] << 1) | bit;
            self.history[i] = next;
            i += 1;
        }
    }

    /// The button is held down.
    pub fn is_pressed(&self, button: Button) -> (r: bool)
        ensures
            r == ((self.history(button) & 0b1) == 0b1),
    {
        (self.history[button.index()] & 0b1) == 0b1
    }

    /// The button is held down and was not at the update before.
    pub fn pressed(&self, button: Button) -> (r: bool)
        ensures
            r == ((self.history(button) & 0b11) == 0b01),
    {
        (self.history[button.index()] & 0b11) == 0b01
    }

    /// The button is not held down and was at the update before.
    pub fn released(&self, button: Button) -> (r: bool)
        ensures
            r == ((self.history(button) & 0b11) == 0b10),
    {
        (self.history[button.index()] & 0b11) == 0b10
    }
}

impl Default for ButtonsState {
    /// No button was ever held down.
    fn default() -> (state: ButtonsState)
        ensures
            forall|button: Button| state.history(button) == 0,
    {
        ButtonsState::new()
    }
}

/// After an update a button is pressed exactly if it is held down; it was
/// just pressed exactly if it was not held down at the update before, and
/// just released exactly if it is no longer held down and was before.
pub proof fn lemma_update_detects_edges(history: u8, held: bool)
    ensures
        ((pushed(history, held) & 0b1) == 0b1) == held,
        ((pushed(history, held) & 0b11) == 0b01) == (held && (history & 0b1) != 0b1),
        ((pushed(history, held) & 0b11) == 0b10) == (!held && (history & 0b1) == 0b1),
{
    let bit: u8 = if held {
        1u8
    } else {
        0u8
    };
    assert((((history << 1) | bit) & 0b1) == bit) by (bit_vector)
        requires
            bit == 0u8 || bit == 1u8,
    ;
    assert(((((history << 1) | bit) & 0b11) == 0b01) == (bit == 1u8 && (history & 0b1) != 0b1))
        by (bit_vector)
        requires
            bit == 0u8 || bit == 1u8,
    ;
    assert(((((history << 1) | bit) & 0b11) == 0b10) == (bit == 0u8 && (history & 0b1) == 0b1))
        by (bit_vector)
        requires
            bit == 0u8 || bit == 1u8,
    ;
}

} // verus!
