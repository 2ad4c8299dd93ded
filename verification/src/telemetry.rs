//! The telemetry publisher: what is sent out about the position, and where.
//!
//! The caller keeps the clock: every `TELEMETRY_INTERVAL_SECS` seconds it
//! publishes `position_payload` on `position_topic`.

use crate::controller::MotorController;
use crate::fraction::{
    exponent_part, fraction_part, is_decimal_text, lemma_parts, text_exponent, text_times,
    whole_part,
};
use crate::text::{digits_value, has_minus, lemma_pow10_positive, pow10, unsigned_part};
use vstd::arithmetic::div_mod::{lemma_fundamental_div_mod, lemma_fundamental_div_mod_converse};
use vstd::prelude::*;
use vstd::string::StringExecFns;

verus! {

/// Seconds from one publication of the position to the next.
pub const TELEMETRY_INTERVAL_SECS: u64 = 10;

/// The number of digits that the payload gives after the point.
pub const FRACTION_DIGITS: usize = 6;

/// The digit at place `place` of the decimal expansion of
/// `position / steps_to_fully_open`: place 0 is the digit before the point,
/// place 1 the first one after it.
pub open spec fn expansion_digit(position: int, steps_to_fully_open: int, place: nat) -> u8 {
    (48 + (position * pow10(place) / steps_to_fully_open) % 10) as u8
}

/// The position as decimal text: the fraction `position / steps_to_fully_open`
/// with one digit before the point and six after it, the rest cut off.
pub open spec fn position_text(position: int, steps_to_fully_open: int) -> Seq<u8> {
    seq![
        expansion_digit(position, steps_to_fully_open, 0),
        46u8,
        expansion_digit(position, steps_to_fully_open, 1),
        expansion_digit(position, steps_to_fully_open, 2),
        expansion_digit(position, steps_to_fully_open, 3),
        expansion_digit(position, steps_to_fully_open, 4),
        expansion_digit(position, steps_to_fully_open, 5),
        expansion_digit(position, steps_to_fully_open, 6),
    ]
}

/// One more digit of an expansion: from the quotient and remainder of
/// `value` by `divisor` to those of ten times `value`.
pub proof fn lemma_expansion_step(value: int, divisor: int)
    requires
        0 <= value,
        0 < divisor,
    ensures
        (10 * value) / divisor == 10 * (value / divisor) + (10 * (value % divisor)) / divisor,
        (10 * value) % divisor == (10 * (value % divisor)) % divisor,
        0 <= (10 * (value % divisor)) / divisor < 10,
{
    let q = value / divisor;
    let r = value % divisor;
    lemma_fundamental_div_mod(value, divisor);
    lemma_fundamental_div_mod(10 * r, divisor);
    let d = (10 * r) / divisor;
    let s = (10 * r) % divisor;
    assert(10 * value == (10 * q + d) * divisor + s) by (nonlinear_arith)
        requires
            value == divisor * q + r,
            10 * r == divisor * d + s,
    ;
    lemma_fundamental_div_mod_converse(10 * value, divisor, 10 * q + d, s);
    assert(0 <= d < 10) by (nonlinear_arith)
        requires
            10 * r == divisor * d + s,
            0 <= r < divisor,
            0 <= s < divisor,
    ;
}

/// The first `count` digits of an expansion write the fraction cut off after
/// them, as a whole number: the numerator times a power of ten, divided by
/// the denominator.
pub proof fn lemma_expansion_value(
    position: int,
    steps_to_fully_open: int,
    digits: Seq<u8>,
    count: nat,
)
    requires
        0 < steps_to_fully_open,
        0 <= position <= steps_to_fully_open,
        count >= 1,
        digits.len() == count,
        forall|i: int|
            0 <= i < count ==> #[trigger] digits[i] == expansion_digit(
                position,
                steps_to_fully_open,
                i as nat,
            ),
    ensures
        digits_value(digits) == (position * pow10((count - 1) as nat)) / steps_to_fully_open,
    decreases count,
{
    let last = (count - 1) as nat;
    assert(digits.last() == expansion_digit(position, steps_to_fully_open, last));
    if count == 1 {
        assert(digits.drop_last() =~= Seq::<u8>::empty());
        assert(digits_value(digits) == digits.last() - 48) by {
            reveal_with_fuel(digits_value, 2);
        }
        assert(position * pow10(0) == position) by (nonlinear_arith)
            requires
                pow10(0) == 1,
        ;
        lemma_fundamental_div_mod(position, steps_to_fully_open);
        let q = position / steps_to_fully_open;
        assert(0 <= q <= 1) by (nonlinear_arith)
            requires
                position == steps_to_fully_open * q + position % steps_to_fully_open,
                0 <= position % steps_to_fully_open < steps_to_fully_open,
                0 <= position <= steps_to_fully_open,
        ;
    } else {
        let before = (count - 2) as nat;
        lemma_expansion_value(position, steps_to_fully_open, digits.drop_last(), last);
        let value = position * pow10(before);
        lemma_pow10_positive(before);
        assert(value >= 0) by (nonlinear_arith)
            requires
                value == position * pow10(before),
                position >= 0,
                pow10(before) >= 1,
        ;
        lemma_expansion_step(value, steps_to_fully_open);
        assert(position * pow10(last) == 10 * value) by (nonlinear_arith)
            requires
                pow10(last) == 10 * pow10(before),
                value == position * pow10(before),
        ;
        let q = value / steps_to_fully_open;
        let d = (10 * (value % steps_to_fully_open)) / steps_to_fully_open;
        lemma_fundamental_div_mod_converse(10 * q + d, 10, q, d);
    }
}

/// What is published reads back as the stored position: the payload is a
/// decimal number, and the step nearest to it is the position itself. Six
/// digits after the point are enough for every travel that a controller can
/// have.
pub proof fn lemma_position_text_reads_back(position: int, steps_to_fully_open: int)
    requires
        0 < steps_to_fully_open <= i16::MAX,
        0 <= position <= steps_to_fully_open,
    ensures
        is_decimal_text(position_text(position, steps_to_fully_open)),
        text_times(position_text(position, steps_to_fully_open), steps_to_fully_open) == position,
{
    let text = position_text(position, steps_to_fully_open);
    assert(unsigned_part(text) == text);
    assert(!has_minus(text));
    lemma_parts(text, 1, 8);
    let whole = whole_part(text);
    let part = fraction_part(text);
    let digits = whole + part;
    assert(exponent_part(text) =~= Seq::<u8>::empty());
    assert(text_exponent(text) == 0);
    assert(digits.len() == 7);
    assert forall|i: int| 0 <= i < 7 implies #[trigger] digits[i] == expansion_digit(
        position,
        steps_to_fully_open,
        i as nat,
    ) by {
        if i >= 1 {
            assert(digits[i] == part[i - 1]);
            assert(part[i - 1] == text[i + 1]);
        }
    }
    lemma_expansion_value(position, steps_to_fully_open, digits, 7);
    assert(pow10(6) == 1000000) by {
        reveal_with_fuel(pow10, 7);
    }
    let cut = digits_value(digits);
    let scaled = position * 1000000;
    lemma_fundamental_div_mod(scaled, steps_to_fully_open);
    let lost = scaled % steps_to_fully_open;
    assert(2 * (cut * steps_to_fully_open) + 1000000 == position * (2 * 1000000) + (1000000 - 2
        * lost)) by (nonlinear_arith)
        requires
            scaled == steps_to_fully_open * cut + lost,
            scaled == position * 1000000,
    ;
    assert(cut * steps_to_fully_open >= 0) by (nonlinear_arith)
        requires
            scaled == steps_to_fully_open * cut + lost,
            scaled >= 0,
            0 <= lost < steps_to_fully_open,
            steps_to_fully_open > 0,
    ;
    lemma_fundamental_div_mod_converse(
        2 * (cut * steps_to_fully_open) + 1000000,
        2000000int,
        position,
        1000000 - 2 * lost,
    );
}

/// The topic that the position is published on: the device's prefix and then
/// `/position`.
pub fn position_topic(prefix: &str) -> (topic: String)
    ensures
        topic@ == prefix@ + "/position"@,
{
    let mut topic = String::from_str(prefix);
    topic.append("/position");
    topic
}

/// The payload that tells the position: the text of the fraction of the
/// travel at which the controller stands.
pub fn position_payload(controller: &MotorController) -> (payload: Vec<u8>)
    ensures
        payload@ == position_text(
            controller.position() as int,
            controller.steps_to_fully_open() as int,
        ),
{
    let full: u32 = controller.steps_to_fully_open() as u32;
    let position: u32 = controller.position() as u32;
    let mut payload: Vec<u8> = Vec::new();
    let whole: u32 = position / full;
    let mut rest: u32 = position % full;
    proof {
        lemma_fundamental_div_mod(position as int, full as int);
        assert(whole <= 1) by (nonlinear_arith)
            requires
                position == full * whole + rest,
                0 <= rest,
                position <= full,
                full > 0,
        ;
        assert(position * pow10(0) == position) by (nonlinear_arith)
            requires
                pow10(0) == 1,
        ;
    }
    payload.push(48 + whole as u8);
    payload.push(46);
    let mut place: usize = 0;
    while place < FRACTION_DIGITS
        invariant
            0 < full <= 32767,
            0 <= position <= full,
            place <= FRACTION_DIGITS,
            rest == (position * pow10(place as nat)) % (full as int),
            rest < full,
            payload@.len() == 2 + place,
            payload@[0] == expansion_digit(position as int, full as int, 0),
            payload@[1] == 46,
            forall|i: int|
                2 <= i < 2 + place ==> #[trigger] payload@[i] == expansion_digit(
                    position as int,
                    full as int,
                    (i - 1) as nat,
                ),
        decreases FRACTION_DIGITS - place,
    {
        proof {
            let value = position * pow10(place as nat);
            lemma_pow10_positive(place as nat);
            assert(value >= 0) by (nonlinear_arith)
                requires
                    value == position * pow10(place as nat),
                    position >= 0,
                    pow10(place as nat) >= 0,
            ;
            lemma_expansion_step(value, full as int);
            assert(position * pow10((place + 1) as nat) == 10 * value) by (nonlinear_arith)
                requires
                    pow10((place + 1) as nat) == 10 * pow10(place as nat),
                    value == position * pow10(place as nat),
            ;
            let q = value / (full as int);
            let d = (10 * rest) / (full as int);
            assert((10 * q + d) % 10 == d) by {
                lemma_fundamental_div_mod_converse(10 * q + d, 10, q, d);
            }
        }
        let scaled: u32 = 10 * rest;
        let digit: u32 = scaled / full;
        rest = scaled % full;
        payload.push(48 + digit as u8);
        place = place + 1;
    }
    assert(payload@ =~= position_text(position as int, full as int));
    payload
}

} // verus!
