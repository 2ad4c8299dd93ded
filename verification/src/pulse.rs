//! The pulse driver: the signals that move the motor by a signed number of steps.

use vstd::prelude::*;

verus! {

/// Microseconds for which the step line rests at each level of a pulse.
pub const STEP_DELAY_MICROS: u64 = 700;

/// The way the motor turns: `Forward` opens the curtain, `Reverse` closes it.
#[derive(Clone, Copy, Debug, PartialEq, Eq, Structural)]
pub enum Direction {
    Forward,
    Reverse,
}

/// One action on the output lines.
#[derive(Clone, Copy, Debug, PartialEq, Eq, Structural)]
pub enum Signal {
    /// Put the direction line to the given direction.
    Turn(Direction),
    /// Raise the step line.
    StepHigh,
    /// Lower the step line.
    StepLow,
    /// Leave the lines as they are for this many microseconds.
    Hold(u64),
}

/// The direction that a signed step count asks for: forward for a positive
/// count, reverse for zero and below.
pub open spec fn direction_of(steps: int) -> Direction {
    if steps > 0 {
        Direction::Forward
    } else {
        Direction::Reverse
    }
}

/// The number of pulses that a signed step count asks for: its absolute value.
pub open spec fn pulse_count(steps: int) -> nat {
    if steps >= 0 {
        steps as nat
    } else {
        (-steps) as nat
    }
}

/// One step pulse: the line goes high, rests for `STEP_DELAY_MICROS`, goes
/// low, and rests as long again.
pub open spec fn one_pulse() -> Seq<Signal> {
    seq![
        Signal::StepHigh,
        Signal::Hold(STEP_DELAY_MICROS),
        Signal::StepLow,
        Signal::Hold(STEP_DELAY_MICROS),
    ]
}

/// `count` step pulses in a row.
pub open spec fn pulses(count: nat) -> Seq<Signal>
    decreases count,
{
    if count == 0 {
        Seq::empty()
    } else {
        pulses((count - 1) as nat) + one_pulse()
    }
}

/// Everything the driver puts on the lines for `steps`: the direction first,
/// then one pulse for each step.
pub open spec fn pulse_trace(steps: int) -> Seq<Signal> {
    seq![Signal::Turn(direction_of(steps))] + pulses(pulse_count(steps))
}

/// The number of rising edges of the step line in `signals`.
pub open spec fn rising_edges(signals: Seq<Signal>) -> nat
    decreases signals.len(),
{
    if signals.len() == 0 {
        0
    } else {
        let rest = rising_edges(signals.drop_last());
        if signals.last() == Signal::StepHigh {
            rest + 1
        } else {
            rest
        }
    }
}

/// The signal at place `i` of a run of pulses.
pub open spec fn pulse_phase(i: int) -> Signal {
    if i % 4 == 0 {
        Signal::StepHigh
    } else if i % 4 == 2 {
        Signal::StepLow
    } else {
        Signal::Hold(STEP_DELAY_MICROS)
    }
}

/// A run of `count` pulses holds four signals for each pulse, in the order
/// high, hold, low, hold.
pub proof fn lemma_pulses_index(count: nat)
    ensures
        pulses(count).len() == 4 * count,
        forall|i: int| 0 <= i < 4 * count ==> #[trigger] pulses(count)[i] == pulse_phase(i),
    decreases count,
{
    if count > 0 {
        lemma_pulses_index((count - 1) as nat);
        let before = pulses((count - 1) as nat);
        assert forall|i: int| 0 <= i < 4 * count implies #[trigger] pulses(count)[i]
            == pulse_phase(i) by {
            if i >= before.len() {
                let r = i - before.len();
                assert(pulses(count)[i] == one_pulse()[r]);
                assert(i % 4 == r) by (nonlinear_arith)
                    requires
                        i == 4 * (count - 1) + r,
                        0 <= r < 4,
                ;
            }
        }
    }
}

/// A run of `count` pulses raises the step line `count` times.
pub proof fn lemma_pulses_rising_edges(head: Seq<Signal>, count: nat)
    ensures
        rising_edges(head + pulses(count)) == rising_edges(head) + count,
    decreases count,
{
    if count == 0 {
        assert(head + pulses(count) =~= head);
    } else {
        let before = head + pulses((count - 1) as nat);
        lemma_pulses_rising_edges(head, (count - 1) as nat);
        let s4 = before + one_pulse();
        assert(s4 =~= head + pulses(count));
        let s3 = s4.drop_last();
        let s2 = s3.drop_last();
        let s1 = s2.drop_last();
        assert(s1.drop_last() =~= before);
        assert(rising_edges(s1) == rising_edges(before) + 1);
        assert(rising_edges(s2) == rising_edges(s1));
        assert(rising_edges(s3) == rising_edges(s2));
        assert(rising_edges(s4) == rising_edges(s3));
    }
}

/// What the driver emits for `steps`: the direction comes first and is the only
/// signal on the direction line, forward exactly for a positive count, and the
/// step line rises once for each step.
pub proof fn lemma_pulse_trace(steps: int)
    ensures
        pulse_trace(steps).len() == 1 + 4 * pulse_count(steps),
        pulse_trace(steps)[0] == Signal::Turn(direction_of(steps)),
        steps > 0 ==> pulse_trace(steps)[0] == Signal::Turn(Direction::Forward),
        steps <= 0 ==> pulse_trace(steps)[0] == Signal::Turn(Direction::Reverse),
        forall|i: int|
            1 <= i < pulse_trace(steps).len() ==> #[trigger] pulse_trace(steps)[i] == pulse_phase(
                i - 1,
            ),
        rising_edges(pulse_trace(steps)) == pulse_count(steps),
{
    let head = seq![Signal::Turn(direction_of(steps))];
    lemma_pulses_index(pulse_count(steps));
    lemma_pulses_rising_edges(head, pulse_count(steps));
    assert(head.drop_last() =~= Seq::<Signal>::empty());
    assert(rising_edges(head) == 0) by {
        reveal_with_fuel(rising_edges, 2);
    }
}

/// The absolute value of a step count.
pub fn magnitude(steps: i16) -> (count: u32)
    ensures
        count == pulse_count(steps as int),
{
    if steps >= 0 {
        steps as u32
    } else {
        let wide: i32 = steps as i32;
        (-wide) as u32
    }
}

/// The signals of one motion, handed out one at a time.
#[derive(Debug)]
pub struct PulseTrain {
    steps: i16,
    emitted: u32,
}

impl PulseTrain {
    /// No more signals were handed out than the motion holds.
    #[verifier::type_invariant]
    pub closed spec fn wf(&self) -> bool {
        self.emitted <= 1 + 4 * pulse_count(self.steps as int)
    }

    /// The signed step count that this train moves the motor by.
    pub closed spec fn spec_steps(&self) -> i16 {
        self.steps
    }

    /// The number of signals handed out so far.
    pub closed spec fn emitted(&self) -> nat {
        self.emitted as nat
    }

    /// The signals still to come, in order.
    pub open spec fn pending(&self) -> Seq<Signal> {
        pulse_trace(self.steps() as int).skip(self.emitted() as int)
    }

    /// Starts the train for `steps`; nothing is handed out yet.
    pub fn apply(steps: i16) -> (train: PulseTrain)
        ensures
            train.wf(),
            train.steps() == steps,
            train.emitted() == 0,
            train.pending() == pulse_trace(steps as int),
    {
        let train = PulseTrain { steps, emitted: 0 };
        assert(train.pending() =~= pulse_trace(steps as int));
        train
    }

    /// The signed step count that this train moves the motor by.
    #[verifier::when_used_as_spec(spec_steps)]
    pub fn steps(&self) -> (steps: i16)
        ensures
            steps == self.steps(),
    {
        self.steps
    }

    /// Whether every signal of the train was handed out.
    pub fn is_done(&self) -> (done: bool)
        ensures
            done == (self.pending().len() == 0),
    {
        proof {
            use_type_invariant(self);
            lemma_pulse_trace(self.steps as int);
        }
        let total: u32 = 1 + 4 * magnitude(self.steps);
        self.emitted == total
    }

    /// Hands out the next signal of the train, or `None` once all are out.
    pub fn next_signal(&mut self) -> (signal: Option<Signal>)
        ensures
            final(self).wf(),
            final(self).steps() == old(self).steps(),
            old(self).pending().len() == 0 ==> signal.is_none()
                && final(self).emitted() == old(self).emitted(),
            old(self).pending().len() > 0 ==> signal == Some(old(self).pending()[0])
                && final(self).emitted() == old(self).emitted() + 1
                && final(self).pending() == old(self).pending().skip(1),
    {
        proof {
            use_type_invariant(&*self);
            lemma_pulse_trace(self.steps as int);
        }
        let total: u32 = 1 + 4 * magnitude(self.steps);
        if self.emitted == total {
            return None;
        }
        let at: u32 = self.emitted;
        let signal = if at == 0 {
            if self.steps > 0 {
                Signal::Turn(Direction::Forward)
            } else {
                Signal::Turn(Direction::Reverse)
            }
        } else {
            let phase: u32 = (at - 1) % 4;
            if phase == 0 {
                Signal::StepHigh
            } else if phase == 2 {
                Signal::StepLow
            } else {
                Signal::Hold(STEP_DELAY_MICROS)
            }
        };
        self.emitted = at + 1;
        assert(final(self).pending() =~= old(self).pending().skip(1));
        Some(signal)
    }
}

} // verus!
