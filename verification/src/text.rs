//! Decimal text: digits, signs, and whole numbers written in them.

use vstd::prelude::*;

verus! {

/// The byte `+`.
pub const PLUS: u8 = 43;

/// The byte `-`.
pub const MINUS: u8 = 45;

/// The byte `.`.
pub const POINT: u8 = 46;

/// The byte `0`; the other digits follow it in order.
pub const ZERO: u8 = 48;

/// Whether `byte` is one of `0` to `9`.
pub open spec fn is_digit(byte: u8) -> bool {
    48 <= byte <= 57
}

/// Whether `text` holds digits only.
pub open spec fn all_digits(text: Seq<u8>) -> bool {
    forall|i: int| 0 <= i < text.len() ==> is_digit(#[trigger] text[i])
}

/// The number that a run of digits writes, the empty run being zero.
pub open spec fn digits_value(text: Seq<u8>) -> int
    decreases text.len(),
{
    if text.len() == 0 {
        0
    } else {
        10 * digits_value(text.drop_last()) + (text.last() - 48)
    }
}

/// Ten to the power `exponent`.
pub open spec fn pow10(exponent: nat) -> int
    decreases exponent,
{
    if exponent == 0 {
        1
    } else {
        10 * pow10((exponent - 1) as nat)
    }
}

/// Whether `text` begins with `+` or `-`.
pub open spec fn has_sign(text: Seq<u8>) -> bool {
    text.len() > 0 && (text[0] == 43 || text[0] == 45)
}

/// Whether `text` begins with `-`.
pub open spec fn has_minus(text: Seq<u8>) -> bool {
    text.len() > 0 && text[0] == 45
}

/// `text` without its sign, if it has one.
pub open spec fn unsigned_part(text: Seq<u8>) -> Seq<u8> {
    if has_sign(text) {
        text.skip(1)
    } else {
        text
    }
}

/// The whole number that `text` writes: an optional sign and then one digit or
/// more, with nothing before, between or after. `None` for any other text.
pub open spec fn integer_text(text: Seq<u8>) -> Option<int> {
    let body = unsigned_part(text);
    if body.len() > 0 && all_digits(body) {
        if has_minus(text) {
            Some(-digits_value(body))
        } else {
            Some(digits_value(body))
        }
    } else {
        None
    }
}

/// The step count that `text` writes, if it writes a whole number that a step
/// count can hold.
pub open spec fn steps_text(text: Seq<u8>) -> Option<i16> {
    match integer_text(text) {
        Some(value) => if i16::MIN <= value <= i16::MAX {
            Some(value as i16)
        } else {
            None
        },
        None => None,
    }
}

/// Powers of ten are positive.
pub proof fn lemma_pow10_positive(exponent: nat)
    ensures
        pow10(exponent) >= 1,
    decreases exponent,
{
    if exponent > 0 {
        lemma_pow10_positive((exponent - 1) as nat);
    }
}

/// A run of digits writes a number from zero up to, and not including, ten to
/// the power of its length.
pub proof fn lemma_digits_value_bounds(text: Seq<u8>)
    requires
        all_digits(text),
    ensures
        0 <= digits_value(text) < pow10(text.len()),
    decreases text.len(),
{
    if text.len() > 0 {
        lemma_digits_value_bounds(text.drop_last());
    }
}

/// The number that two runs of digits write when put together: the first run
/// shifted left by the length of the second, plus the second.
pub proof fn lemma_digits_value_concat(left: Seq<u8>, right: Seq<u8>)
    ensures
        digits_value(left + right) == digits_value(left) * pow10(right.len()) + digits_value(
            right,
        ),
    decreases right.len(),
{
    if right.len() == 0 {
        assert(left + right =~= left);
    } else {
        let whole = left + right;
        assert(whole.drop_last() =~= left + right.drop_last());
        assert(whole.last() == right.last());
        lemma_digits_value_concat(left, right.drop_last());
        let a = digits_value(left);
        let p = pow10(right.drop_last().len());
        let b = digits_value(right.drop_last());
        assert(10 * (a * p + b) == a * (10 * p) + 10 * b) by (nonlinear_arith);
    }
}

/// A run of digits writes no less than any of its beginnings does.
pub proof fn lemma_digits_value_prefix(text: Seq<u8>, end: int)
    requires
        all_digits(text),
        0 <= end <= text.len(),
    ensures
        digits_value(text.subrange(0, end)) <= digits_value(text),
{
    let left = text.subrange(0, end);
    let right = text.subrange(end, text.len() as int);
    assert(text =~= left + right);
    lemma_digits_value_concat(left, right);
    lemma_digits_value_bounds(left);
    lemma_digits_value_bounds(right);
    lemma_pow10_positive(right.len());
    assert(digits_value(left) * pow10(right.len()) >= digits_value(left)) by (nonlinear_arith)
        requires
            digits_value(left) >= 0,
            pow10(right.len()) >= 1,
    ;
}

/// Ten to a sum is the product of the two powers.
pub proof fn lemma_pow10_adds(left: nat, right: nat)
    ensures
        pow10(left + right) == pow10(left) * pow10(right),
    decreases right,
{
    if right == 0 {
        assert(pow10(left) * 1 == pow10(left));
    } else {
        lemma_pow10_adds(left, (right - 1) as nat);
        assert(10 * (pow10(left) * pow10((right - 1) as nat)) == pow10(left) * (10 * pow10(
            (right - 1) as nat,
        ))) by (nonlinear_arith);
    }
}

/// A larger exponent gives no smaller power.
pub proof fn lemma_pow10_grows(small: nat, large: nat)
    requires
        small <= large,
    ensures
        pow10(small) <= pow10(large),
{
    lemma_pow10_adds(small, (large - small) as nat);
    lemma_pow10_positive(small);
    lemma_pow10_positive((large - small) as nat);
    assert(pow10(small) * pow10((large - small) as nat) >= pow10(small)) by (nonlinear_arith)
        requires
            pow10(small) >= 1,
            pow10((large - small) as nat) >= 1,
    ;
}

/// A run of digits writes zero exactly when each of them is `0`.
pub proof fn lemma_digits_value_zero(text: Seq<u8>)
    requires
        all_digits(text),
    ensures
        digits_value(text) == 0 <==> (forall|i: int| 0 <= i < text.len() ==> text[i] == 48),
    decreases text.len(),
{
    if text.len() > 0 {
        let front = text.drop_last();
        lemma_digits_value_zero(front);
        lemma_digits_value_bounds(front);
        if digits_value(text) == 0 {
            assert forall|i: int| 0 <= i < text.len() implies text[i] == 48 by {
                if i < front.len() {
                    assert(text[i] == front[i]);
                }
            }
        } else {
            if forall|i: int| 0 <= i < text.len() ==> text[i] == 48 {
                assert forall|i: int| 0 <= i < front.len() implies front[i] == 48 by {
                    assert(front[i] == text[i]);
                }
                assert(text.last() == text[text.len() - 1]);
                assert(false);
            }
        }
    }
}

/// Whether `byte` is a digit.
pub fn is_digit_byte(byte: u8) -> (digit: bool)
    ensures
        digit == is_digit(byte),
{
    ZERO <= byte && byte <= 57
}

/// Reads a step count from `text`: an optional sign and then digits only, the
/// number within the range of `i16`.
pub fn parse_steps(text: &[u8]) -> (steps: Option<i16>)
    ensures
        steps == steps_text(text@),
{
    let len = text.len();
    let signed = len > 0 && (text[0] == PLUS || text[0] == MINUS);
    let negative = len > 0 && text[0] == MINUS;
    let start: usize = if signed {
        1
    } else {
        0
    };
    let ghost body = unsigned_part(text@);
    assert(body =~= text@.subrange(start as int, len as int));
    if start == len {
        return None;
    }
    let mut at: usize = start;
    let mut total: i32 = 0;
    while at < len
        invariant
            start <= at <= len,
            len == text@.len(),
            body == unsigned_part(text@),
            body == text@.subrange(start as int, len as int),
            negative == has_minus(text@),
            all_digits(body.subrange(0, at - start)),
            total == digits_value(body.subrange(0, at - start)),
            0 <= total <= 32768,
        decreases len - at,
    {
        let byte = text[at];
        if !is_digit_byte(byte) {
            assert(!is_digit(body[at - start]));
            return None;
        }
        let digit: i32 = (byte - ZERO) as i32;
        let ghost before = body.subrange(0, at - start);
        let ghost after = body.subrange(0, at - start + 1);
        assert(after.drop_last() =~= before);
        assert(after.last() == byte);
        total = 10 * total + digit;
        assert(total == digits_value(after));
        if total > 32768 {
            proof {
                if all_digits(body) {
                    lemma_digits_value_prefix(body, at - start + 1);
                }
            }
            return None;
        }
        at = at + 1;
    }
    assert(body.subrange(0, at - start) =~= body);
    if negative {
        let wide: i32 = -total;
        Some(wide as i16)
    } else if total <= 32767 {
        Some(total as i16)
    } else {
        None
    }
}

/// Reads a whole number of any size from `text`: whether it has a minus sign,
/// and its digits. `None` where `text` does not write a whole number.
pub fn read_integer(text: &[u8]) -> (number: Option<(bool, Vec<u8>)>)
    ensures
        number.is_some() == integer_text(text@).is_some(),
        number matches Some((negative, digits)) ==> {
            &&& negative == has_minus(text@)
            &&& digits@ == unsigned_part(text@)
            &&& all_digits(digits@)
            &&& digits@.len() > 0
        },
{
    let len = text.len();
    let signed = len > 0 && (text[0] == PLUS || text[0] == MINUS);
    let negative = len > 0 && text[0] == MINUS;
    let start: usize = if signed {
        1
    } else {
        0
    };
    let ghost body = unsigned_part(text@);
    assert(body =~= text@.subrange(start as int, len as int));
    if start == len {
        return None;
    }
    let mut digits: Vec<u8> = Vec::new();
    let mut at: usize = start;
    while at < len
        invariant
            start <= at <= len,
            len == text@.len(),
            body == unsigned_part(text@),
            body == text@.subrange(start as int, len as int),
            digits@ == body.subrange(0, at - start),
            all_digits(digits@),
        decreases len - at,
    {
        let byte = text[at];
        if !is_digit_byte(byte) {
            assert(!is_digit(body[at - start]));
            return None;
        }
        digits.push(byte);
        at = at + 1;
        assert(digits@ =~= body.subrange(0, at - start));
    }
    assert(digits@ =~= body);
    Some((negative, digits))
}

} // verus!
