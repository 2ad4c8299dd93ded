//! The motor controller: from commands to motions, and from finished motions
//! to the stored position.
//!
//! A command does not move the motor by itself. It gives a `Motion`, whose
//! signals the caller puts on the lines one after the other; once all are
//! out, `commit` takes the motion into the stored position. The position
//! therefore never shows a motion that is only partly done.

use crate::command::{
    decode, relative_path, set_position_path, step_path, Command, CommandError,
};
use crate::fraction::{is_decimal_text, text_times, Fraction};
use crate::position::{clamp, PositionStore};
use crate::pulse::{pulse_trace, PulseTrain, Signal};
use crate::text::steps_text;
use vstd::prelude::*;
use vstd::slice::slice_to_vec;
use vstd::string::StringSliceAdditionalSpecFns;

verus! {

/// The two states of the controller.
#[derive(Clone, Copy, Debug, PartialEq, Eq, Structural)]
pub enum Phase {
    /// From the start until the homing motion is committed.
    Homing,
    /// Commands are taken.
    Ready,
}

/// The steps by which the motor moves to get from `position` to
/// `target_steps`, as far as one motion can hold them.
pub open spec fn position_delta(target_steps: int, position: int) -> int {
    clamp(target_steps - position, i16::MIN as int, i16::MAX as int)
}

/// The position after `steps` steps from `position`, the travel being
/// `steps_to_fully_open`.
pub open spec fn position_after(position: int, steps_to_fully_open: int, steps: int) -> int {
    clamp(position + steps, 0, steps_to_fully_open)
}

/// The position after a finished motion is taken in: zero after the homing
/// motion, whatever the position was and however far the motion went, and
/// after any other motion the position moved by its steps.
pub open spec fn position_committed(
    position: int,
    steps_to_fully_open: int,
    steps: int,
    homing: bool,
) -> int {
    if homing {
        0
    } else {
        position_after(position, steps_to_fully_open, steps)
    }
}

/// The steps that a message asks for, or why it is dropped.
pub open spec fn commanded_steps(
    path: Seq<u8>,
    payload: Seq<u8>,
    steps_to_fully_open: int,
    position: int,
) -> Result<int, CommandError> {
    if path == step_path() {
        match steps_text(payload) {
            Some(steps) => Ok(steps as int),
            None => Err(CommandError::Decode),
        }
    } else if path == set_position_path() {
        if is_decimal_text(payload) {
            Ok(position_delta(text_times(payload, steps_to_fully_open), position))
        } else {
            Err(CommandError::Decode)
        }
    } else {
        Err(CommandError::UnknownTopic)
    }
}

/// One motion of the motor: its signals, and whether it is the homing motion.
#[derive(Debug)]
pub struct Motion {
    train: PulseTrain,
    homing: bool,
}

impl Motion {
    /// The signals of the motion.
    pub closed spec fn train(&self) -> PulseTrain {
        self.train
    }

    /// Whether this is the homing motion.
    pub closed spec fn spec_is_homing(&self) -> bool {
        self.homing
    }

    /// The signed step count of the motion.
    pub open spec fn spec_steps(&self) -> i16 {
        self.train().steps()
    }

    /// The signals still to come, in order.
    pub open spec fn pending(&self) -> Seq<Signal> {
        self.train().pending()
    }

    /// A motion of which nothing was put on the lines yet.
    pub open spec fn is_fresh(&self) -> bool {
        self.pending() == pulse_trace(self.steps() as int)
    }

    /// The signed step count of the motion.
    #[verifier::when_used_as_spec(spec_steps)]
    pub fn steps(&self) -> (steps: i16)
        ensures
            steps == self.steps(),
    {
        self.train.steps()
    }

    /// Whether this is the homing motion.
    #[verifier::when_used_as_spec(spec_is_homing)]
    pub fn is_homing(&self) -> (homing: bool)
        ensures
            homing == self.is_homing(),
    {
        self.homing
    }

    /// Whether every signal of the motion was handed out.
    pub fn is_done(&self) -> (done: bool)
        ensures
            done == (self.pending().len() == 0),
    {
        self.train.is_done()
    }

    /// Hands out all signals that are still to come, in order.
    pub fn drain(&mut self) -> (signals: Vec<Signal>)
        ensures
            final(self).steps() == old(self).steps(),
            final(self).is_homing() == old(self).is_homing(),
            final(self).pending().len() == 0,
            signals@ == old(self).pending(),
    {
        let mut signals: Vec<Signal> = Vec::new();
        loop
            invariant
                self.steps() == old(self).steps(),
                self.is_homing() == old(self).is_homing(),
                signals@ + self.pending() == old(self).pending(),
            ensures
                self.pending().len() == 0,
            decreases self.pending().len(),
        {
            let ghost before = self.pending();
            match self.next_signal() {
                Some(signal) => {
                    signals.push(signal);
                    assert(signals@ + self.pending() =~= old(self).pending()) by {
                        assert(before =~= seq![before[0]] + before.skip(1));
                    }
                },
                None => {
                    break ;
                },
            }
        }
        assert(signals@ =~= signals@ + self.pending());
        signals
    }

    /// Hands out the next signal of the motion, or `None` once all are out.
    pub fn next_signal(&mut self) -> (signal: Option<Signal>)
        ensures
            final(self).steps() == old(self).steps(),
            final(self).is_homing() == old(self).is_homing(),
            old(self).pending().len() == 0 ==> signal.is_none()
                && final(self).pending() == old(self).pending(),
            old(self).pending().len() > 0 ==> signal == Some(old(self).pending()[0])
                && final(self).pending() == old(self).pending().skip(1),
    {
        self.train.next_signal()
    }
}

/// The controller of one actuator.
#[derive(Debug)]
pub struct MotorController {
    store: PositionStore,
    phase: Phase,
    prefix: Vec<u8>,
}

impl MotorController {
    /// The position store is well formed: the travel is positive and the
    /// position lies within it. This holds of every controller that the
    /// functions of this type give.
    pub closed spec fn wf(&self) -> bool {
        self.store.wf()
    }

    /// The number of steps from fully closed to fully open.
    pub closed spec fn spec_steps_to_fully_open(&self) -> i16 {
        self.store.steps_to_fully_open()
    }

    /// The stored position, in steps from fully closed.
    pub closed spec fn spec_position(&self) -> i16 {
        self.store.read()
    }

    /// The state of the controller.
    pub closed spec fn spec_phase(&self) -> Phase {
        self.phase
    }

    /// The device's topic prefix.
    pub closed spec fn prefix(&self) -> Seq<u8> {
        self.prefix@
    }

    /// In a well-formed controller the travel is positive and the position
    /// lies within it.
    pub proof fn lemma_in_range(&self)
        requires
            self.wf(),
        ensures
            0 < self.steps_to_fully_open(),
            0 <= self.position() <= self.steps_to_fully_open(),
    {
        self.store.lemma_in_range();
    }

    /// A controller for an actuator with the given travel, not yet homed; its
    /// commands arrive on topics that begin with `topic_prefix`.
    pub fn new(steps_to_fully_open: i16, topic_prefix: &str) -> (controller: MotorController)
        requires
            steps_to_fully_open > 0,
        ensures
            controller.wf(),
            controller.steps_to_fully_open() == steps_to_fully_open,
            controller.position() == 0,
            controller.phase() == Phase::Homing,
            controller.prefix() == topic_prefix.spec_bytes(),
    {
        MotorController {
            store: PositionStore::new(steps_to_fully_open),
            phase: Phase::Homing,
            prefix: slice_to_vec(topic_prefix.as_bytes()),
        }
    }

    /// The number of steps from fully closed to fully open.
    #[verifier::when_used_as_spec(spec_steps_to_fully_open)]
    pub fn steps_to_fully_open(&self) -> (steps: i16)
        ensures
            steps == self.steps_to_fully_open(),
            steps > 0,
    {
        self.store.steps_to_fully_open()
    }

    /// The stored position, in steps from fully closed: a value from zero to
    /// `steps_to_fully_open`.
    #[verifier::when_used_as_spec(spec_position)]
    pub fn position(&self) -> (position: i16)
        ensures
            position == self.position(),
            0 <= position <= self.steps_to_fully_open(),
    {
        self.store.read()
    }

    /// The state of the controller.
    #[verifier::when_used_as_spec(spec_phase)]
    pub fn phase(&self) -> (phase: Phase)
        ensures
            phase == self.phase(),
    {
        self.phase
    }

    /// The homing motion: the whole travel in reverse, into the end stop.
    pub fn home(&self) -> (motion: Motion)
        requires
            self.phase() == Phase::Homing,
        ensures
            motion.is_homing(),
            motion.steps() == -self.steps_to_fully_open(),
            motion.is_fresh(),
    {
        let full: i16 = self.store.steps_to_fully_open();
        Motion { train: PulseTrain::apply(-full), homing: true }
    }

    /// The motion for a relative command: `steps` steps, forward for a
    /// positive count.
    pub fn step(&self, steps: i16) -> (motion: Motion)
        ensures
            !motion.is_homing(),
            motion.steps() == steps,
            motion.is_fresh(),
    {
        Motion { train: PulseTrain::apply(steps), homing: false }
    }

    /// The motion for an absolute command: from the stored position to the
    /// step nearest to `target` times the travel.
    pub fn set_position(&self, target: &Fraction) -> (motion: Motion)
        ensures
            !motion.is_homing(),
            motion.steps() == position_delta(
                target.times(self.steps_to_fully_open() as int),
                self.position() as int,
            ),
            motion.is_fresh(),
    {
        let full: i16 = self.store.steps_to_fully_open();
        let current: i64 = self.store.read() as i64;
        let target_steps: i64 = target.scaled(full) as i64;
        let delta: i64 = target_steps - current;
        let steps: i16 = if delta < -32768 {
            -32768
        } else if delta > 32767 {
            32767
        } else {
            delta as i16
        };
        Motion { train: PulseTrain::apply(steps), homing: false }
    }

    /// Decodes a message and gives the motion it asks for. A message that is
    /// dropped gives no motion; the controller is the same after the call
    /// either way.
    pub fn dispatch(&self, topic: &str, payload: &[u8]) -> (outcome: Result<Motion, CommandError>)
        requires
            self.phase() == Phase::Ready,
        ensures
            match outcome {
                Ok(motion) => {
                    &&& commanded_steps(
                        relative_path(self.prefix(), topic.spec_bytes()),
                        payload@,
                        self.steps_to_fully_open() as int,
                        self.position() as int,
                    ) == Ok::<int, CommandError>(motion.steps() as int)
                    &&& !motion.is_homing()
                    &&& motion.is_fresh()
                },
                Err(error) => commanded_steps(
                    relative_path(self.prefix(), topic.spec_bytes()),
                    payload@,
                    self.steps_to_fully_open() as int,
                    self.position() as int,
                ) == Err::<int, CommandError>(error),
            },
    {
        match decode(self.prefix.as_slice(), topic.as_bytes(), payload) {
            Ok(Command::Step(steps)) => Ok(self.step(steps)),
            Ok(Command::SetPosition(target)) => {
                proof {
                    target.lemma_reads(payload@, self.steps_to_fully_open() as int);
                }
                Ok(self.set_position(&target))
            },
            Err(error) => Err(error),
        }
    }

    /// Takes a finished motion into the stored position: the position moves
    /// by the motion's steps and stays within the travel. The homing motion
    /// sets the position to zero, wherever it was, and makes the controller
    /// ready.
    pub fn commit(&mut self, motion: Motion)
        requires
            motion.pending().len() == 0,
        ensures
            final(self).wf(),
            final(self).steps_to_fully_open() == old(self).steps_to_fully_open(),
            final(self).prefix() == old(self).prefix(),
            final(self).position() == position_committed(
                old(self).position() as int,
                old(self).steps_to_fully_open() as int,
                motion.steps() as int,
                motion.is_homing(),
            ),
            final(self).phase() == if motion.is_homing() {
                Phase::Ready
            } else {
                old(self).phase()
            },
            0 <= final(self).position() <= final(self).steps_to_fully_open(),
    {
        let current: i32 = self.store.read() as i32;
        let steps: i32 = motion.steps() as i32;
        self.store.write(current + steps);
        if motion.is_homing() {
            self.store.write(0);
            self.phase = Phase::Ready;
        }
    }

    /// Carries a motion out from where it stands to its end, with `lines` as
    /// the record of what goes on the lines: every signal that is still to
    /// come is written to the record, in order, and only then is the motion
    /// taken into the stored position.
    pub fn run(&mut self, motion: Motion, lines: &mut Vec<Signal>)
        ensures
            final(lines)@ == old(lines)@ + motion.pending(),
            final(self).wf(),
            final(self).steps_to_fully_open() == old(self).steps_to_fully_open(),
            final(self).prefix() == old(self).prefix(),
            final(self).position() == position_committed(
                old(self).position() as int,
                old(self).steps_to_fully_open() as int,
                motion.steps() as int,
                motion.is_homing(),
            ),
            final(self).phase() == if motion.is_homing() {
                Phase::Ready
            } else {
                old(self).phase()
            },
    {
        let mut motion = motion;
        let mut signals = motion.drain();
        lines.append(&mut signals);
        self.commit(motion);
    }
}

} // verus!
