//! The position store: where the actuator is, counted in motor steps.
//!
//! A position is the fraction `position / steps_to_fully_open` of the full
//! travel: 0 is fully closed, `steps_to_fully_open` is fully open. Every
//! position that a sequence of whole steps can reach is such a fraction, so
//! the store keeps the count of steps and nothing is rounded.

use vstd::prelude::*;

verus! {

/// `value` brought into `low ..= high`.
pub open spec fn clamp(value: int, low: int, high: int) -> int {
    if value < low {
        low
    } else if value > high {
        high
    } else {
        value
    }
}

/// The position that the actuator is believed to be at.
#[derive(Debug)]
pub struct PositionStore {
    steps_to_fully_open: i16,
    position: i16,
}

impl PositionStore {
    /// The travel is positive and the position lies within it.
    #[verifier::type_invariant]
    pub closed spec fn wf(&self) -> bool {
        0 < self.steps_to_fully_open && 0 <= self.position <= self.steps_to_fully_open
    }

    /// The number of steps from fully closed to fully open.
    pub closed spec fn spec_steps_to_fully_open(&self) -> i16 {
        self.steps_to_fully_open
    }

    /// The position, in steps from fully closed.
    pub closed spec fn spec_read(&self) -> i16 {
        self.position
    }

    /// In a well-formed store the travel is positive and the position lies
    /// within it.
    pub proof fn lemma_in_range(&self)
        requires
            self.wf(),
        ensures
            0 < self.steps_to_fully_open(),
            0 <= self.read() <= self.steps_to_fully_open(),
    {
    }

    /// A store for an actuator with the given travel, at position zero.
    pub fn new(steps_to_fully_open: i16) -> (store: PositionStore)
        requires
            steps_to_fully_open > 0,
        ensures
            store.wf(),
            store.steps_to_fully_open() == steps_to_fully_open,
            store.read() == 0,
    {
        PositionStore { steps_to_fully_open, position: 0 }
    }

    /// The number of steps from fully closed to fully open.
    #[verifier::when_used_as_spec(spec_steps_to_fully_open)]
    pub fn steps_to_fully_open(&self) -> (steps: i16)
        ensures
            steps == self.steps_to_fully_open(),
            steps > 0,
    {
        proof {
            use_type_invariant(self);
        }
        self.steps_to_fully_open
    }

    /// The position, in steps from fully closed.
    #[verifier::when_used_as_spec(spec_read)]
    pub fn read(&self) -> (position: i16)
        ensures
            position == self.read(),
            0 <= position <= self.steps_to_fully_open(),
    {
        proof {
            use_type_invariant(self);
        }
        self.position
    }

    /// Stores `position`, brought into the travel.
    pub fn write(&mut self, position: i32)
        ensures
            final(self).wf(),
            final(self).steps_to_fully_open() == old(self).steps_to_fully_open(),
            final(self).read() == clamp(
                position as int,
                0,
                old(self).steps_to_fully_open() as int,
            ),
    {
        proof {
            use_type_invariant(&*self);
        }
        let full: i16 = self.steps_to_fully_open;
        let kept: i16 = if position < 0 {
            0
        } else if position > full as i32 {
            full
        } else {
            position as i16
        };
        self.position = kept;
    }
}

} // verus!
