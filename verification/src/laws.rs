//! What holds of the controller whatever it is asked to do.

use crate::command::{set_position_path, step_path, CommandError};
use crate::controller::{commanded_steps, position_after, position_committed, position_delta};
use crate::fraction::{is_decimal_text, round_half_away, Fraction};
use crate::position::clamp;
use crate::text::steps_text;
use vstd::arithmetic::div_mod::lemma_fundamental_div_mod;
use vstd::prelude::*;

verus! {

/// The position after a run of motions, each given by its signed step count
/// and taken into the position in turn.
pub open spec fn position_after_all(
    position: int,
    steps_to_fully_open: int,
    motions: Seq<int>,
) -> int
    decreases motions.len(),
{
    if motions.len() == 0 {
        position
    } else {
        position_after(
            position_after_all(position, steps_to_fully_open, motions.drop_last()),
            steps_to_fully_open,
            motions.last(),
        )
    }
}

/// One motion changes the position by the difference between the clamped sum
/// and the position before: the steps themselves while the sum stays within
/// the travel, and otherwise what is left up to the end of the travel.
pub proof fn lemma_step_changes_position(position: int, steps_to_fully_open: int, steps: int)
    requires
        0 < steps_to_fully_open,
        0 <= position <= steps_to_fully_open,
    ensures
        position_after(position, steps_to_fully_open, steps) - position == clamp(
            position + steps,
            0,
            steps_to_fully_open,
        ) - position,
        0 <= position + steps <= steps_to_fully_open ==> position_after(
            position,
            steps_to_fully_open,
            steps,
        ) == position + steps,
        position + steps < 0 ==> position_after(position, steps_to_fully_open, steps) == 0,
        position + steps > steps_to_fully_open ==> position_after(
            position,
            steps_to_fully_open,
            steps,
        ) == steps_to_fully_open,
{
}

/// After homing the position is exactly zero, whatever it was before.
pub proof fn lemma_homing_sets_zero(position: int, steps_to_fully_open: int, steps: int)
    ensures
        position_committed(position, steps_to_fully_open, steps, true) == 0,
{
}

/// Whatever motions are taken into it, and in whatever order, the position
/// stays within the travel: the fraction it stands for lies between 0 and 1.
pub proof fn lemma_position_stays_within_travel(
    position: int,
    steps_to_fully_open: int,
    motions: Seq<int>,
)
    requires
        0 < steps_to_fully_open,
        0 <= position <= steps_to_fully_open,
    ensures
        0 <= position_after_all(position, steps_to_fully_open, motions) <= steps_to_fully_open,
    decreases motions.len(),
{
    if motions.len() > 0 {
        lemma_position_stays_within_travel(position, steps_to_fully_open, motions.drop_last());
    }
}

/// A rounded quotient lies within a half of the exact one.
pub proof fn lemma_round_half_away_is_near(num: int, den: int)
    requires
        den > 0,
    ensures
        -den <= 2 * (round_half_away(num, den) * den - num) <= den,
{
    let rounded = round_half_away(num, den);
    if num >= 0 {
        lemma_fundamental_div_mod(2 * num + den, 2 * den);
        assert((2 * den) * rounded == 2 * (rounded * den)) by (nonlinear_arith);
    } else {
        lemma_fundamental_div_mod(den - 2 * num, 2 * den);
        assert((2 * den) * (-rounded) == -2 * (rounded * den)) by (nonlinear_arith);
    }
}

/// The motion to a target ends at the step nearest to the target, brought
/// into the travel, wherever it starts.
pub proof fn lemma_set_position_reaches_target(
    target_steps: int,
    position: int,
    steps_to_fully_open: int,
)
    requires
        0 < steps_to_fully_open <= i16::MAX,
        0 <= position <= steps_to_fully_open,
    ensures
        position_after(
            position,
            steps_to_fully_open,
            position_delta(target_steps, position),
        ) == clamp(target_steps, 0, steps_to_fully_open),
{
}

/// After the motion to `target`, the position is within one step of it: the
/// fraction read back differs from the target by no more than
/// `1 / steps_to_fully_open`. This holds of every target from one step below
/// 0 to one step above 1; a target further out is answered by the end of the
/// travel.
pub proof fn lemma_set_position_round_trip(
    target: Fraction,
    position: int,
    steps_to_fully_open: int,
)
    requires
        0 < steps_to_fully_open <= i16::MAX,
        0 <= position <= steps_to_fully_open,
        -target.denominator() <= target.numerator() * steps_to_fully_open <= (steps_to_fully_open
            + 1) * target.denominator(),
    ensures
        ({
            let reached = position_after(
                position,
                steps_to_fully_open,
                position_delta(target.times(steps_to_fully_open), position),
            );
            let exact = target.numerator() * steps_to_fully_open;
            -target.denominator() <= reached * target.denominator() - exact
                <= target.denominator()
        }),
{
    let den = target.denominator();
    let exact = target.numerator() * steps_to_fully_open;
    let nearest = target.times(steps_to_fully_open);
    let reached = clamp(nearest, 0, steps_to_fully_open);
    target.lemma_denominator_positive();
    lemma_set_position_reaches_target(nearest, position, steps_to_fully_open);
    lemma_round_half_away_is_near(exact, den);
    if nearest < 0 {
        assert(nearest * den <= -den) by (nonlinear_arith)
            requires
                nearest <= -1,
                den > 0,
        ;
        assert(reached * den == 0) by (nonlinear_arith)
            requires
                reached == 0,
        ;
    } else if nearest > steps_to_fully_open {
        assert(nearest * den >= (steps_to_fully_open + 1) * den) by (nonlinear_arith)
            requires
                nearest >= steps_to_fully_open + 1,
                den > 0,
        ;
        assert((steps_to_fully_open + 1) * den == steps_to_fully_open * den + den)
            by (nonlinear_arith);
    }
}

/// A target between 0 and 1 is reached to within half a step, and no step
/// lies nearer to it.
pub proof fn lemma_set_position_in_range(
    target: Fraction,
    position: int,
    steps_to_fully_open: int,
)
    requires
        0 < steps_to_fully_open <= i16::MAX,
        0 <= position <= steps_to_fully_open,
        0 <= target.numerator() <= target.denominator(),
    ensures
        ({
            let reached = position_after(
                position,
                steps_to_fully_open,
                position_delta(target.times(steps_to_fully_open), position),
            );
            let exact = target.numerator() * steps_to_fully_open;
            &&& reached == target.times(steps_to_fully_open)
            &&& -target.denominator() <= 2 * (reached * target.denominator() - exact)
                <= target.denominator()
        }),
{
    let den = target.denominator();
    let num = target.numerator();
    let exact = num * steps_to_fully_open;
    let nearest = target.times(steps_to_fully_open);
    target.lemma_denominator_positive();
    lemma_set_position_reaches_target(nearest, position, steps_to_fully_open);
    lemma_round_half_away_is_near(exact, den);
    assert(0 <= exact <= steps_to_fully_open * den) by (nonlinear_arith)
        requires
            exact == num * steps_to_fully_open,
            0 <= num <= den,
            steps_to_fully_open > 0,
    ;
    if nearest < 0 {
        assert(nearest * den <= -den) by (nonlinear_arith)
            requires
                nearest <= -1,
                den > 0,
        ;
    } else if nearest > steps_to_fully_open {
        assert(nearest * den >= (steps_to_fully_open + 1) * den) by (nonlinear_arith)
            requires
                nearest >= steps_to_fully_open + 1,
                den > 0,
        ;
        assert((steps_to_fully_open + 1) * den == steps_to_fully_open * den + den)
            by (nonlinear_arith);
    }
}

/// A step command whose payload writes no step count is dropped as a decode
/// error, and so is a position command whose payload writes no decimal
/// number; a path that names no command is dropped as an unknown topic. None
/// of them gives a motion.
pub proof fn lemma_malformed_message_is_dropped(
    path: Seq<u8>,
    payload: Seq<u8>,
    steps_to_fully_open: int,
    position: int,
)
    ensures
        path == step_path() && steps_text(payload).is_none() ==> commanded_steps(
            path,
            payload,
            steps_to_fully_open,
            position,
        ) == Err::<int, CommandError>(CommandError::Decode),
        path == set_position_path() && !is_decimal_text(payload) ==> commanded_steps(
            path,
            payload,
            steps_to_fully_open,
            position,
        ) == Err::<int, CommandError>(CommandError::Decode),
        path != step_path() && path != set_position_path() ==> commanded_steps(
            path,
            payload,
            steps_to_fully_open,
            position,
        ) == Err::<int, CommandError>(CommandError::UnknownTopic),
{
    assert(step_path() != set_position_path()) by {
        assert(step_path().len() != set_position_path().len());
    }
}

} // verus!
