//! Exact decimal numbers, as a position command writes them.
//!
//! A number is kept as its digits, the count of digits after the point, and
//! its exponent, so every decimal text has a value of its own, however long
//! it is, and nothing is rounded before the number is put to use.

use crate::pulse::magnitude;
use crate::text::{
    all_digits, digits_value, has_minus, integer_text, is_digit, is_digit_byte,
    lemma_digits_value_bounds, lemma_digits_value_concat, lemma_digits_value_zero,
    lemma_pow10_adds, lemma_pow10_grows, lemma_pow10_positive, pow10, read_integer, unsigned_part,
    MINUS, PLUS, POINT,
};
use vstd::arithmetic::div_mod::{lemma_fundamental_div_mod, lemma_fundamental_div_mod_converse};
use vstd::math::abs;
use vstd::prelude::*;
use vstd::slice::slice_subrange;

verus! {

/// The byte `e`.
pub const LOWER_E: u8 = 101;

/// The byte `E`.
pub const UPPER_E: u8 = 69;

/// The size beyond which an exponent is no longer told apart: two to the
/// power of one hundred, far more than any text has digits.
const EXPONENT_CAP: i128 = 1267650600228229401496703205376;

/// The place of the first `first` or `second` in `text`, or the length of
/// `text` where it holds neither.
pub open spec fn place_of(text: Seq<u8>, first: u8, second: u8) -> int
    decreases text.len(),
{
    if text.len() == 0 || text[0] == first || text[0] == second {
        0
    } else {
        1 + place_of(text.skip(1), first, second)
    }
}

/// The place of the first `.` in `text`, or the length of `text` where it
/// holds none.
pub open spec fn point_place(text: Seq<u8>) -> int {
    place_of(text, 46, 46)
}

/// The place of the first `e` or `E` in `text`, or the length of `text` where
/// it holds none.
pub open spec fn exponent_place(text: Seq<u8>) -> int {
    place_of(text, 101, 69)
}

/// Whether `text` has an exponent: an `e` or `E` and what follows it.
pub open spec fn has_exponent(text: Seq<u8>) -> bool {
    exponent_place(unsigned_part(text)) < unsigned_part(text).len()
}

/// What stands between the sign and the exponent of `text`.
pub open spec fn mantissa_part(text: Seq<u8>) -> Seq<u8> {
    let body = unsigned_part(text);
    body.subrange(0, exponent_place(body))
}

/// What stands after the first `e` or `E` of `text`; empty where there is
/// none.
pub open spec fn exponent_part(text: Seq<u8>) -> Seq<u8> {
    let body = unsigned_part(text);
    if has_exponent(text) {
        body.subrange(exponent_place(body) + 1, body.len() as int)
    } else {
        Seq::empty()
    }
}

/// What stands before the first `.` of the mantissa of `text`.
pub open spec fn whole_part(text: Seq<u8>) -> Seq<u8> {
    let mantissa = mantissa_part(text);
    mantissa.subrange(0, point_place(mantissa))
}

/// What stands after the first `.` of the mantissa of `text`; empty where
/// there is none.
pub open spec fn fraction_part(text: Seq<u8>) -> Seq<u8> {
    let mantissa = mantissa_part(text);
    if point_place(mantissa) < mantissa.len() {
        mantissa.subrange(point_place(mantissa) + 1, mantissa.len() as int)
    } else {
        Seq::empty()
    }
}

/// Whether `text` writes a decimal number: an optional sign; digits with at
/// most one `.` before, between or after them, at least one digit in all;
/// and optionally `e` or `E` with a whole number behind it. Nothing else may
/// stand in the text, no blank and no word such as `inf` or `nan`.
pub open spec fn is_decimal_text(text: Seq<u8>) -> bool {
    &&& all_digits(whole_part(text))
    &&& all_digits(fraction_part(text))
    &&& whole_part(text).len() + fraction_part(text).len() > 0
    &&& has_exponent(text) ==> integer_text(exponent_part(text)).is_some()
}

/// The exponent that `text` writes; zero where it writes none.
pub open spec fn text_exponent(text: Seq<u8>) -> int {
    match integer_text(exponent_part(text)) {
        Some(exponent) => exponent,
        None => 0,
    }
}

/// The numerator of the number with the given sign and digits, whose point
/// is moved `shift` places to the right.
pub open spec fn decimal_numerator(negative: bool, size: int, shift: int) -> int {
    let whole = if shift >= 0 {
        size * pow10(shift as nat)
    } else {
        size
    };
    if negative {
        -whole
    } else {
        whole
    }
}

/// The denominator of a number whose point is moved `shift` places to the
/// right: one, or a power of ten where the point moves to the left.
pub open spec fn decimal_denominator(shift: int) -> int {
    if shift >= 0 {
        1
    } else {
        pow10((-shift) as nat)
    }
}

/// The decimal number that `text` writes, times `factor`, rounded to the
/// nearest whole number.
pub open spec fn text_times(text: Seq<u8>, factor: int) -> int {
    let size = digits_value(whole_part(text) + fraction_part(text));
    let shift = text_exponent(text) - fraction_part(text).len();
    round_half_away(
        decimal_numerator(has_minus(text), size, shift) * factor,
        decimal_denominator(shift),
    )
}

/// The quotient `num / den` rounded to the nearest whole number, a half going
/// away from zero. `den` is positive.
pub open spec fn round_half_away(num: int, den: int) -> int {
    if num >= 0 {
        (2 * num + den) / (2 * den)
    } else {
        -((den - 2 * num) / (2 * den))
    }
}

/// `value` brought into the range of `i32`.
pub open spec fn saturate_i32(value: int) -> int {
    if value < i32::MIN {
        i32::MIN as int
    } else if value > i32::MAX {
        i32::MAX as int
    } else {
        value
    }
}

/// `value` brought into the range from `-EXPONENT_CAP` to `EXPONENT_CAP`.
spec fn capped(value: int) -> int {
    if value < -EXPONENT_CAP {
        -EXPONENT_CAP as int
    } else if value > EXPONENT_CAP {
        EXPONENT_CAP as int
    } else {
        value
    }
}

/// The first of two bytes in `text` is at `place` when neither stands before
/// it and either one of them stands there or the text ends there.
pub proof fn lemma_place_of(text: Seq<u8>, first: u8, second: u8, place: int)
    requires
        0 <= place <= text.len(),
        forall|i: int| 0 <= i < place ==> text[i] != first && text[i] != second,
        place < text.len() ==> text[place] == first || text[place] == second,
    ensures
        place_of(text, first, second) == place,
    decreases place,
{
    if place > 0 {
        let rest = text.skip(1);
        assert forall|i: int| 0 <= i < place - 1 implies rest[i] != first && rest[i]
            != second by {
            assert(rest[i] == text[i + 1]);
        }
        lemma_place_of(rest, first, second, place - 1);
    }
}

/// Where `text` holds one of two bytes, the first such byte stands at
/// `place_of`, which in any case lies within the text.
pub proof fn lemma_place_of_found(text: Seq<u8>, first: u8, second: u8)
    ensures
        0 <= place_of(text, first, second) <= text.len(),
        place_of(text, first, second) < text.len() ==> text[place_of(text, first, second)] == first
            || text[place_of(text, first, second)] == second,
        forall|i: int|
            0 <= i < place_of(text, first, second) ==> text[i] != first && text[i] != second,
    decreases text.len(),
{
    if text.len() > 0 && text[0] != first && text[0] != second {
        let rest = text.skip(1);
        lemma_place_of_found(rest, first, second);
        assert forall|i: int| 0 <= i < place_of(text, first, second) implies text[i] != first
            && text[i] != second by {
            if i > 0 {
                assert(text[i] == rest[i - 1]);
            }
        }
    }
}

/// The parts of a text that holds digits up to `point`, then, where `point`
/// is before `mark`, a `.` and digits up to `mark`, and that ends at `mark` or
/// has an `e` or `E` there.
pub proof fn lemma_parts(text: Seq<u8>, point: int, mark: int)
    requires
        0 <= point <= mark <= unsigned_part(text).len(),
        forall|i: int| 0 <= i < point ==> is_digit(#[trigger] unsigned_part(text)[i]),
        point < mark ==> unsigned_part(text)[point] == 46,
        forall|i: int| point < i < mark ==> is_digit(#[trigger] unsigned_part(text)[i]),
        mark < unsigned_part(text).len() ==> unsigned_part(text)[mark] == 101 || unsigned_part(
            text,
        )[mark] == 69,
    ensures
        has_exponent(text) == (mark < unsigned_part(text).len()),
        mantissa_part(text) == unsigned_part(text).subrange(0, mark),
        whole_part(text) == unsigned_part(text).subrange(0, point),
        fraction_part(text) == if point < mark {
            unsigned_part(text).subrange(point + 1, mark)
        } else {
            Seq::<u8>::empty()
        },
        mark < unsigned_part(text).len() ==> exponent_part(text) == unsigned_part(text).subrange(
            mark + 1,
            unsigned_part(text).len() as int,
        ),
        all_digits(whole_part(text)),
        all_digits(fraction_part(text)),
{
    let body = unsigned_part(text);
    assert forall|i: int| 0 <= i < mark implies body[i] != 101 && body[i] != 69 by {
        if i != point {
            assert(is_digit(body[i]));
        }
    }
    lemma_place_of(body, 101, 69, mark);
    let mantissa = body.subrange(0, mark);
    assert forall|i: int| 0 <= i < point implies mantissa[i] != 46 by {
        assert(is_digit(body[i]));
    }
    lemma_place_of(mantissa, 46, 46, point);
    assert(mantissa.subrange(0, point) =~= body.subrange(0, point));
    if point < mark {
        assert(mantissa.subrange(point + 1, mantissa.len() as int) =~= body.subrange(
            point + 1,
            mark,
        ));
    }
}

/// A text in which something that is not a digit stands at `place`, with
/// digits only before it but for at most one `.`, and which writes neither
/// `e` nor `E` up to there, is no decimal number, unless that something is
/// the one `.`.
pub proof fn lemma_stray_byte(text: Seq<u8>, point: int, place: int)
    requires
        0 <= point <= place < unsigned_part(text).len(),
        forall|i: int| 0 <= i < point ==> is_digit(#[trigger] unsigned_part(text)[i]),
        point < place ==> unsigned_part(text)[point] == 46,
        forall|i: int| point < i < place ==> is_digit(#[trigger] unsigned_part(text)[i]),
        !is_digit(unsigned_part(text)[place]),
        unsigned_part(text)[place] != 101,
        unsigned_part(text)[place] != 69,
        point == place ==> unsigned_part(text)[place] != 46,
    ensures
        !is_decimal_text(text),
{
    let body = unsigned_part(text);
    lemma_place_of_found(body, 101, 69);
    let mark = exponent_place(body);
    assert forall|i: int| 0 <= i <= place implies body[i] != 101 && body[i] != 69 by {
        if i != point && i != place {
            assert(is_digit(body[i]));
        }
    }
    assert(mark > place);
    let mantissa = body.subrange(0, mark);
    lemma_place_of_found(mantissa, 46, 46);
    let first = point_place(mantissa);
    if point < place {
        assert forall|i: int| 0 <= i < point implies mantissa[i] != 46 by {
            assert(is_digit(body[i]));
        }
        lemma_place_of(mantissa, 46, 46, point);
        assert(fraction_part(text)[place - point - 1] == body[place]);
    } else {
        assert forall|i: int| 0 <= i <= place implies mantissa[i] != 46 by {
            if i < place {
                assert(is_digit(body[i]));
            }
        }
        assert(first > place);
        assert(whole_part(text)[place] == body[place]);
    }
}

/// Dividing `a * p + r` by `k * p`, with `r` below `p`, gives `a / k`.
pub proof fn lemma_div_scaled(a: int, r: int, p: int, k: int)
    requires
        0 <= a,
        0 <= r < p,
        0 < k,
    ensures
        (a * p + r) / (k * p) == a / k,
{
    let q = a / k;
    let b = a % k;
    lemma_fundamental_div_mod(a, k);
    assert(0 <= b < k);
    assert(0 <= b * p + r < k * p) by (nonlinear_arith)
        requires
            0 <= b < k,
            0 <= r < p,
    ;
    assert(a * p + r == q * (k * p) + (b * p + r)) by (nonlinear_arith)
        requires
            a == k * q + b,
    ;
    assert(k * p > 0) by (nonlinear_arith)
        requires
            k > 0,
            p > 0,
    ;
    lemma_fundamental_div_mod_converse(a * p + r, k * p, q, b * p + r);
}

/// Zero rounds to zero.
pub proof fn lemma_round_zero(den: int)
    requires
        den > 0,
    ensures
        round_half_away(0, den) == 0,
{
    lemma_div_scaled(0, den, 2 * den, 1);
    assert((0 * (2 * den) + den) / (1 * (2 * den)) == (2 * 0 + den) / (2 * den));
}

/// A whole number rounds to itself.
pub proof fn lemma_round_whole(num: int)
    ensures
        round_half_away(num, 1) == num,
{
    if num >= 0 {
        lemma_fundamental_div_mod_converse(2 * num + 1, 2, num, 1);
    } else {
        lemma_fundamental_div_mod_converse(1 - 2 * num, 2, -num, 1);
    }
}

/// What is less than half of the denominator rounds to zero.
pub proof fn lemma_round_small(num: int, den: int)
    requires
        0 <= 2 * num < den,
    ensures
        round_half_away(num, den) == 0,
{
    lemma_fundamental_div_mod_converse(2 * num + den, 2 * den, 0, 2 * num + den);
}

/// Rounding is symmetric: the product of two numbers rounds to the rounded
/// product of their sizes, with the sign of the product.
pub proof fn lemma_times_sign(num: int, factor: int, den: int)
    requires
        den > 0,
    ensures
        round_half_away(num * factor, den) == if (num < 0) != (factor < 0) {
            -round_half_away((abs(num) * abs(factor)) as int, den)
        } else {
            round_half_away((abs(num) * abs(factor)) as int, den)
        },
{
    let a = abs(num) as int;
    let b = abs(factor) as int;
    assert(a * b >= 0) by (nonlinear_arith)
        requires
            a >= 0,
            b >= 0,
    ;
    if (num < 0) != (factor < 0) {
        assert(num * factor == -(a * b)) by (nonlinear_arith)
            requires
                (num == -a && factor == b) || (num == a && factor == -b),
        ;
        if a * b == 0 {
            lemma_round_zero(den);
        }
    } else {
        assert(num * factor == a * b) by (nonlinear_arith)
            requires
                (num == -a && factor == -b) || (num == a && factor == b),
        ;
    }
}

/// The rounded product of a number and a factor, from the number's part
/// before the point, `whole`, its part after the point, `part / den`, and
/// twice that part times the factor, cut to a whole number.
pub proof fn lemma_round_from_parts(whole: int, part: int, den: int, unit: int, carry: int)
    requires
        0 <= whole,
        0 <= part,
        0 < den,
        1 <= unit,
        carry == (2 * unit * part) / den,
    ensures
        round_half_away((whole * den + part) * unit, den) == (2 * whole * unit + 1 + carry) / 2,
        0 <= carry,
{
    let x = 2 * unit * part;
    assert(x >= 0) by (nonlinear_arith)
        requires
            x == 2 * unit * part,
            unit >= 1,
            part >= 0,
    ;
    lemma_fundamental_div_mod(x, den);
    let r = x % den;
    assert(carry >= 0) by (nonlinear_arith)
        requires
            x == den * carry + r,
            x >= 0,
            0 <= r < den,
    ;
    let twice = 2 * whole * unit + 1 + carry;
    let size = (whole * den + part) * unit;
    assert(2 * size + den == twice * den + r) by (nonlinear_arith)
        requires
            size == (whole * den + part) * unit,
            x == 2 * unit * part,
            x == den * carry + r,
            twice == 2 * whole * unit + 1 + carry,
    ;
    assert(twice >= 0) by (nonlinear_arith)
        requires
            twice == 2 * whole * unit + 1 + carry,
            whole >= 0,
            unit >= 1,
            carry >= 0,
    ;
    assert(size >= 0) by (nonlinear_arith)
        requires
            size == (whole * den + part) * unit,
            whole >= 0,
            den > 0,
            part >= 0,
            unit >= 1,
    ;
    lemma_div_scaled(twice, r, den, 2);
}

/// An exact decimal number: a sign, digits, the count of those digits that
/// stand after the point, and an exponent of ten.
#[derive(Debug)]
pub struct Fraction {
    negative: bool,
    digits: Vec<u8>,
    scale: usize,
    exponent_negative: bool,
    exponent_digits: Vec<u8>,
}

impl Fraction {
    /// The digits are digits, those of the exponent too, and no more of them
    /// stand after the point than there are.
    #[verifier::type_invariant]
    pub closed spec fn wf(&self) -> bool {
        &&& all_digits(self.digits@)
        &&& self.scale <= self.digits@.len()
        &&& all_digits(self.exponent_digits@)
    }

    /// Whether the number is written with a minus sign.
    pub closed spec fn negative(&self) -> bool {
        self.negative
    }

    /// All digits of the number, those before the point and then those after
    /// it.
    pub closed spec fn digits(&self) -> Seq<u8> {
        self.digits@
    }

    /// How many of the digits stand after the point.
    pub closed spec fn scale(&self) -> nat {
        self.scale as nat
    }

    /// The exponent of ten that the number is written with.
    pub closed spec fn exponent(&self) -> int {
        if self.exponent_negative {
            -digits_value(self.exponent_digits@)
        } else {
            digits_value(self.exponent_digits@)
        }
    }

    /// Whether the number is the one that `text` writes: its sign, the
    /// digits before and after its point, and its exponent.
    pub open spec fn reads(&self, text: Seq<u8>) -> bool {
        &&& self.negative() == has_minus(text)
        &&& self.digits() == whole_part(text) + fraction_part(text)
        &&& self.scale() == fraction_part(text).len()
        &&& self.exponent() == text_exponent(text)
    }

    /// The places by which the point stands to the right of the last digit.
    pub open spec fn shift(&self) -> int {
        self.exponent() - self.scale()
    }

    /// The number is `numerator() / denominator()`.
    pub open spec fn numerator(&self) -> int {
        decimal_numerator(self.negative(), digits_value(self.digits()), self.shift())
    }

    /// One, or a power of ten where digits stand after the point.
    pub open spec fn denominator(&self) -> int {
        decimal_denominator(self.shift())
    }

    /// The number times `factor`, rounded to the nearest whole number.
    pub open spec fn times(&self, factor: int) -> int {
        round_half_away(self.numerator() * factor, self.denominator())
    }

    /// The number that reads `text` gives the product that the text gives.
    pub proof fn lemma_reads(&self, text: Seq<u8>, factor: int)
        requires
            self.reads(text),
        ensures
            self.times(factor) == text_times(text, factor),
    {
    }

    /// The denominator is positive.
    pub proof fn lemma_denominator_positive(&self)
        ensures
            self.denominator() >= 1,
    {
        if self.shift() < 0 {
            lemma_pow10_positive((-self.shift()) as nat);
        }
    }

    /// Reads a decimal number from `text`, such as `0.5`, `-.25`, `3.` or
    /// `5e-1`. Every text of that form is read, however many digits it has;
    /// any other gives `None`, and so do bytes that are no text at all.
    pub fn parse(text: &[u8]) -> (number: Option<Fraction>)
        ensures
            number.is_some() == is_decimal_text(text@),
            number matches Some(f) ==> f.wf() && f.reads(text@),
    {
        let len = text.len();
        let signed = len > 0 && (text[0] == PLUS || text[0] == MINUS);
        let negative = len > 0 && text[0] == MINUS;
        let start: usize = if signed {
            1
        } else {
            0
        };
        let ghost body = unsigned_part(text@);
        assert(body =~= text@.subrange(start as int, len as int));
        let mut digits: Vec<u8> = Vec::new();
        let mut at: usize = start;
        while at < len && is_digit_byte(text[at])
            invariant
                start <= at <= len,
                len == text@.len(),
                body == text@.subrange(start as int, len as int),
                digits@ == body.subrange(0, at - start),
                all_digits(digits@),
            decreases len - at,
        {
            digits.push(text[at]);
            at = at + 1;
            assert(digits@ =~= body.subrange(0, at - start));
        }
        let ghost point = at - start;
        let ghost whole = digits@;
        assert forall|i: int| 0 <= i < point implies is_digit(#[trigger] body[i]) by {
            assert(body[i] == whole[i]);
        }
        let mut scale: usize = 0;
        if at < len && text[at] == POINT {
            at = at + 1;
            while at < len && is_digit_byte(text[at])
                invariant
                    start <= at <= len,
                    point + 1 <= at - start,
                    len == text@.len(),
                    body == text@.subrange(start as int, len as int),
                    whole.len() == point,
                    scale == at - start - point - 1,
                    digits@ == whole + body.subrange(point + 1, at - start),
                    all_digits(digits@),
                decreases len - at,
            {
                digits.push(text[at]);
                at = at + 1;
                scale = scale + 1;
                assert(digits@ =~= whole + body.subrange(point + 1, at - start));
            }
        }
        let ghost mark = at - start;
        let ghost part = if point < mark {
            body.subrange(point + 1, mark)
        } else {
            Seq::<u8>::empty()
        };
        assert(digits@ =~= whole + part);
        assert forall|i: int| point < i < mark implies is_digit(#[trigger] body[i]) by {
            assert(body[i] == digits@[i - 1]);
        }
        if at < len && text[at] != LOWER_E && text[at] != UPPER_E {
            proof {
                assert(body[mark] == text@[at as int]);
                lemma_stray_byte(text@, point, mark);
            }
            return None;
        }
        proof {
            if at < len {
                assert(body[mark] == text@[at as int]);
            }
            lemma_parts(text@, point, mark);
        }
        if digits.len() == 0 {
            return None;
        }
        if at == len {
            assert(exponent_part(text@) =~= Seq::<u8>::empty());
            return Some(
                Fraction {
                    negative,
                    digits,
                    scale,
                    exponent_negative: false,
                    exponent_digits: Vec::new(),
                },
            );
        }
        let tail = slice_subrange(text, at + 1, len);
        assert(tail@ =~= exponent_part(text@));
        match read_integer(tail) {
            Some((exponent_negative, exponent_digits)) => Some(
                Fraction { negative, digits, scale, exponent_negative, exponent_digits },
            ),
            None => None,
        }
    }

    /// Whether the number is zero.
    pub fn is_zero(&self) -> (zero: bool)
        ensures
            zero == (digits_value(self.digits()) == 0),
    {
        proof {
            use_type_invariant(self);
            lemma_digits_value_zero(self.digits@);
        }
        let mut at: usize = 0;
        while at < self.digits.len()
            invariant
                at <= self.digits@.len(),
                all_digits(self.digits@),
                forall|i: int| 0 <= i < at ==> self.digits@[i] == 48,
            decreases self.digits.len() - at,
        {
            if self.digits[at] != 48 {
                proof {
                    lemma_digits_value_zero(self.digits@);
                    assert(self.digits@[at as int] != 48);
                }
                return false;
            }
            at = at + 1;
        }
        true
    }

    /// The exponent, as far as its size can matter.
    fn capped_exponent(&self) -> (exponent: i128)
        ensures
            exponent == capped(self.exponent()),
    {
        proof {
            use_type_invariant(self);
        }
        let len = self.exponent_digits.len();
        let mut at: usize = 0;
        let mut total: i128 = 0;
        let mut large = false;
        while at < len
            invariant
                at <= len,
                len == self.exponent_digits@.len(),
                all_digits(self.exponent_digits@),
                0 <= total <= EXPONENT_CAP,
                !large ==> total == digits_value(self.exponent_digits@.subrange(0, at as int)),
                large ==> digits_value(self.exponent_digits@.subrange(0, at as int))
                    > EXPONENT_CAP,
            decreases len - at,
        {
            assert(is_digit(self.exponent_digits@[at as int]));
            let digit: i128 = (self.exponent_digits[at] - 48) as i128;
            proof {
                let before = self.exponent_digits@.subrange(0, at as int);
                let after = self.exponent_digits@.subrange(0, at + 1);
                assert(after.drop_last() =~= before);
                assert(after.last() == self.exponent_digits@[at as int]);
                lemma_digits_value_bounds(before);
            }
            if !large {
                let next: i128 = 10 * total + digit;
                if next > EXPONENT_CAP {
                    large = true;
                } else {
                    total = next;
                }
            }
            at = at + 1;
        }
        assert(self.exponent_digits@.subrange(0, at as int) =~= self.exponent_digits@);
        let size: i128 = if large {
            EXPONENT_CAP
        } else {
            total
        };
        if self.exponent_negative {
            -size
        } else {
            size
        }
    }

    /// The number that the first `end` digits write, or that it is two to
    /// the power of 31 or more.
    fn leading_units(&self, end: usize) -> (found: (u64, bool))
        requires
            end <= self.digits().len(),
        ensures
            !found.1 ==> found.0 == digits_value(self.digits().subrange(0, end as int)),
            found.1 ==> digits_value(self.digits().subrange(0, end as int)) >= 2147483648,
            found.0 < 2147483648,
    {
        proof {
            use_type_invariant(self);
        }
        let mut seen: usize = 0;
        let mut units: u64 = 0;
        let mut large = false;
        while seen < end
            invariant
                seen <= end <= self.digits@.len(),
                all_digits(self.digits@),
                !large ==> units == digits_value(self.digits@.subrange(0, seen as int)),
                large ==> digits_value(self.digits@.subrange(0, seen as int)) >= 2147483648,
                units < 2147483648,
            decreases end - seen,
        {
            assert(is_digit(self.digits@[seen as int]));
            let digit: u64 = (self.digits[seen] - 48) as u64;
            proof {
                let before = self.digits@.subrange(0, seen as int);
                let after = self.digits@.subrange(0, seen + 1);
                assert(after.drop_last() =~= before);
                assert(after.last() == self.digits@[seen as int]);
                lemma_digits_value_bounds(before);
            }
            if !large {
                let next: u64 = 10 * units + digit;
                if next >= 2147483648 {
                    large = true;
                } else {
                    units = next;
                }
            }
            seen = seen + 1;
        }
        (units, large)
    }

    /// Twice what the digits from `from` on write, times `unit`, divided by
    /// ten to the power of their count and cut to a whole number. The digits
    /// are taken from the last to the first.
    fn trailing_carry(&self, from: usize, unit: u64) -> (carry: u64)
        requires
            from <= self.digits().len(),
            1 <= unit <= 32768,
        ensures
            carry == (2 * unit * digits_value(
                self.digits().subrange(from as int, self.digits().len() as int),
            )) / pow10((self.digits().len() - from) as nat),
            carry < 2 * unit,
    {
        proof {
            use_type_invariant(self);
        }
        let len = self.digits.len();
        let mut at: usize = len;
        let mut carry: u64 = 0;
        assert(self.digits@.subrange(len as int, len as int) =~= Seq::<u8>::empty());
        while at > from
            invariant
                from <= at <= len,
                len == self.digits@.len(),
                all_digits(self.digits@),
                1 <= unit <= 32768,
                carry < 2 * unit,
                carry == (2 * unit * digits_value(self.digits@.subrange(at as int, len as int)))
                    / pow10((len - at) as nat),
            decreases at,
        {
            let ghost old_run = self.digits@.subrange(at as int, len as int);
            let ghost old_pow = pow10((len - at) as nat);
            at = at - 1;
            assert(is_digit(self.digits@[at as int]));
            let digit: u64 = (self.digits[at] - 48) as u64;
            let double: u64 = 2 * unit;
            assert(double * digit <= 9 * double) by (nonlinear_arith)
                requires
                    digit <= 9,
            ;
            proof {
                let run = self.digits@.subrange(at as int, len as int);
                let first = seq![self.digits@[at as int]];
                assert(run =~= first + old_run);
                lemma_digits_value_concat(first, old_run);
                assert(first.drop_last() =~= Seq::<u8>::empty());
                assert(digits_value(first) == digit) by {
                    reveal_with_fuel(digits_value, 2);
                }
                lemma_pow10_positive((len - at - 1) as nat);
                lemma_digits_value_bounds(old_run);
                let x = 2 * unit * digits_value(old_run);
                assert(x >= 0) by (nonlinear_arith)
                    requires
                        x == 2 * unit * digits_value(old_run),
                        unit >= 1,
                        digits_value(old_run) >= 0,
                ;
                lemma_fundamental_div_mod(x, old_pow);
                let r = x % old_pow;
                let a = 2 * unit * digit + carry;
                assert(2 * unit * digits_value(run) == a * old_pow + r) by (nonlinear_arith)
                    requires
                        digits_value(run) == digit * old_pow + digits_value(old_run),
                        x == 2 * unit * digits_value(old_run),
                        x == old_pow * carry + r,
                        a == 2 * unit * digit + carry,
                ;
                lemma_div_scaled(a, r, old_pow, 10);
                assert(pow10((len - at) as nat) == 10 * old_pow);
            }
            carry = (double * digit + carry) / 10;
        }
        carry
    }

    /// What the number without its sign amounts to when its point stands
    /// behind its last digit: the digits times a power of ten, times `unit`.
    /// The result is the product, or that the product is two to the power of
    /// 31 or more.
    fn product_of_whole(&self, unit: u64, reach: i128) -> (found: (u64, bool))
        requires
            digits_value(self.digits()) >= 1,
            1 <= unit <= 32768,
            0 <= reach <= self.shift(),
            reach <= 10 ==> reach == self.shift(),
        ensures
            !found.1 ==> found.0 == digits_value(self.digits()) * pow10(self.shift() as nat)
                * unit,
            found.1 ==> digits_value(self.digits()) * pow10(self.shift() as nat) * unit
                >= 2147483648,
    {
        proof {
            use_type_invariant(self);
        }
        let ghost size = digits_value(self.digits@);
        let ghost shift = self.shift();
        let len = self.digits.len();
        let found = self.leading_units(len);
        let mut units: u64 = found.0;
        let mut large: bool = found.1;
        assert(self.digits@.subrange(0, len as int) =~= self.digits@);
        let mut moved: i128 = 0;
        assert(size * pow10(0) == size) by (nonlinear_arith)
            requires
                pow10(0) == 1,
        ;
        while moved < reach && moved < 10
            invariant
                0 <= moved <= reach,
                moved <= 10,
                size >= 1,
                !large ==> units == size * pow10(moved as nat),
                large ==> size * pow10(moved as nat) >= 2147483648,
                units < 2147483648,
            decreases 10 - moved,
        {
            proof {
                let before = size * pow10(moved as nat);
                assert(size * pow10((moved + 1) as nat) == 10 * before) by (nonlinear_arith)
                    requires
                        pow10((moved + 1) as nat) == 10 * pow10(moved as nat),
                        before == size * pow10(moved as nat),
                ;
            }
            if !large {
                let next: u64 = 10 * units;
                if next >= 2147483648 {
                    large = true;
                } else {
                    units = next;
                }
            }
            moved = moved + 1;
        }
        proof {
            lemma_pow10_grows(moved as nat, shift as nat);
            lemma_pow10_positive(moved as nat);
            assert(size * pow10(shift as nat) >= size * pow10(moved as nat)) by (nonlinear_arith)
                requires
                    size >= 1,
                    pow10(shift as nat) >= pow10(moved as nat),
            ;
            if moved < reach {
                assert(pow10(10) == 10000000000) by {
                    reveal_with_fuel(pow10, 11);
                }
                assert(size * pow10(moved as nat) >= 2147483648) by (nonlinear_arith)
                    requires
                        size >= 1,
                        pow10(moved as nat) == 10000000000,
                ;
            }
            if large || moved < reach {
                assert(size * pow10(shift as nat) * unit >= 2147483648) by (nonlinear_arith)
                    requires
                        size * pow10(shift as nat) >= 2147483648,
                        unit >= 1,
                ;
            } else {
                assert(shift == moved);
                assert(units * unit <= 2147483647 * 32768) by (nonlinear_arith)
                    requires
                        units <= 2147483647,
                        unit <= 32768,
                ;
            }
        }
        if large || moved < reach {
            (0, true)
        } else {
            (units * unit, false)
        }
    }

    /// What the number without its sign amounts to when `back` of its digits,
    /// leading zeros counted, stand behind the point: the digits times
    /// `unit`, divided by a power of ten and rounded. The result is the
    /// rounded product, or that it is two to the power of 31 or more.
    fn product_of_parts(&self, unit: u64, back: i128) -> (found: (u64, bool))
        requires
            1 <= unit <= 32768,
            1 <= back <= self.digits().len() + 5,
            back == -self.shift(),
        ensures
            !found.1 ==> found.0 == round_half_away(
                digits_value(self.digits()) * unit,
                pow10(back as nat),
            ),
            found.1 ==> round_half_away(digits_value(self.digits()) * unit, pow10(back as nat))
                >= 2147483648,
    {
        proof {
            use_type_invariant(self);
        }
        let ghost size = digits_value(self.digits@);
        let ghost den = pow10(back as nat);
        let len = self.digits.len();
        let split: usize = if back <= len as i128 {
            len - back as usize
        } else {
            0
        };
        let zeros: usize = if back <= len as i128 {
            0
        } else {
            (back - len as i128) as usize
        };
        let mut carry: u64 = self.trailing_carry(split, unit);
        let ghost part = digits_value(self.digits@.subrange(split as int, len as int));
        let mut added: usize = 0;
        proof {
            lemma_digits_value_bounds(self.digits@.subrange(split as int, len as int));
            assert(2 * unit * part >= 0) by (nonlinear_arith)
                requires
                    part >= 0,
                    unit >= 1,
            ;
        }
        while added < zeros
            invariant
                added <= zeros <= 5,
                len == self.digits@.len(),
                split <= len,
                carry <= 65536,
                2 * unit * part >= 0,
                carry == (2 * unit * part) / pow10((len - split + added) as nat),
            decreases zeros - added,
        {
            proof {
                let power = pow10((len - split + added) as nat);
                lemma_pow10_positive((len - split + added) as nat);
                let x = 2 * unit * part;
                lemma_fundamental_div_mod(x, power);
                assert(x == carry * power + x % power) by (nonlinear_arith)
                    requires
                        x == power * (x / power) + x % power,
                        carry == x / power,
                ;
                lemma_div_scaled(carry as int, x % power, power, 10);
                assert(pow10((len - split + added + 1) as nat) == 10 * power);
            }
            carry = carry / 10;
            added = added + 1;
        }
        let found = self.leading_units(split);
        let units: u64 = found.0;
        proof {
            let head = self.digits@.subrange(0, split as int);
            let tail = self.digits@.subrange(split as int, len as int);
            assert(self.digits@ =~= head + tail);
            lemma_digits_value_concat(head, tail);
            lemma_digits_value_bounds(head);
            lemma_pow10_positive(back as nat);
            let whole = if zeros == 0 {
                digits_value(head)
            } else {
                0
            };
            if zeros > 0 {
                assert(head =~= Seq::<u8>::empty());
            }
            assert(den == pow10((len - split + zeros) as nat));
            assert(size == whole * den + part) by (nonlinear_arith)
                requires
                    size == digits_value(head) * pow10(tail.len()) + part,
                    zeros == 0 ==> den == pow10(tail.len()) && whole == digits_value(head),
                    zeros > 0 ==> digits_value(head) == 0 && whole == 0,
            ;
            lemma_round_from_parts(whole, part, den, unit as int, carry as int);
            let twice = 2 * whole * unit + 1 + carry;
            if found.1 {
                assert(twice / 2 >= 2147483648) by (nonlinear_arith)
                    requires
                        twice == 2 * whole * unit + 1 + carry,
                        whole >= 2147483648,
                        unit >= 1,
                        carry >= 0,
                ;
            } else {
                assert(2 * whole * unit == 2 * (units * unit)) by (nonlinear_arith)
                    requires
                        whole == units,
                ;
            }
        }
        if found.1 {
            return (0, true);
        }
        assert(units * unit <= 2147483647 * 32768) by (nonlinear_arith)
            requires
                units <= 2147483647,
                unit <= 32768,
        ;
        ((2 * (units * unit) + 1 + carry) / 2, false)
    }

    /// The number times `factor`, rounded to the nearest whole number, a half
    /// going away from zero, and brought into the range of `i32`.
    pub fn scaled(&self, factor: i16) -> (product: i32)
        ensures
            product == saturate_i32(self.times(factor as int)),
    {
        proof {
            use_type_invariant(self);
            lemma_digits_value_bounds(self.digits@);
            self.lemma_denominator_positive();
            lemma_times_sign(self.numerator(), factor as int, self.denominator());
        }
        let unit: u64 = magnitude(factor) as u64;
        let minus = self.negative != (factor < 0);
        let ghost size = digits_value(self.digits@);
        let ghost shift = self.shift();
        let ghost den = self.denominator();
        if unit == 0 {
            proof {
                assert(self.numerator() * (factor as int) == 0) by (nonlinear_arith)
                    requires
                        factor == 0,
                ;
                lemma_round_zero(den);
            }
            return 0;
        }
        if self.is_zero() {
            proof {
                if shift >= 0 {
                    assert(size * pow10(shift as nat) == 0) by (nonlinear_arith)
                        requires
                            size == 0,
                    ;
                }
                assert(self.numerator() == 0);
                assert(self.numerator() * (factor as int) == 0) by (nonlinear_arith)
                    requires
                        self.numerator() == 0,
                ;
                lemma_round_zero(den);
            }
            return 0;
        }
        let len = self.digits.len();
        let reach: i128 = self.capped_exponent() - (self.scale as i128);
        assert(abs(factor as int) == unit);
        if reach < 0 && -reach >= len as i128 + 6 {
            proof {
                let back = (-shift) as nat;
                assert(pow10(5) == 100000) by {
                    reveal_with_fuel(pow10, 6);
                }
                lemma_pow10_adds(len as nat, 5);
                lemma_pow10_grows((len + 5) as nat, back);
                assert(2 * (size * unit) < pow10(len as nat) * 100000) by (nonlinear_arith)
                    requires
                        0 <= size < pow10(len as nat),
                        1 <= unit <= 32768,
                ;
                assert(size * unit >= 0) by (nonlinear_arith)
                    requires
                        size >= 0,
                        unit >= 1,
                ;
                lemma_round_small(size * unit, den);
                assert(abs(self.numerator()) == size);
            }
            return 0;
        }
        let found = if reach >= 0 {
            proof {
                let whole = size * pow10(shift as nat);
                lemma_pow10_positive(shift as nat);
                assert(whole >= 0) by (nonlinear_arith)
                    requires
                        whole == size * pow10(shift as nat),
                        size >= 0,
                        pow10(shift as nat) >= 0,
                ;
                assert(abs(self.numerator()) == whole);
                lemma_round_whole(whole * unit);
            }
            self.product_of_whole(unit, reach)
        } else {
            proof {
                assert(shift == reach);
                assert(abs(self.numerator()) == size);
            }
            self.product_of_parts(unit, -reach)
        };
        if found.1 {
            if minus {
                i32::MIN
            } else {
                i32::MAX
            }
        } else {
            Self::signed(found.0, minus)
        }
    }

    /// `size` with a sign, brought into the range of `i32`.
    fn signed(size: u64, minus: bool) -> (value: i32)
        ensures
            value == saturate_i32(
                if minus {
                    -(size as int)
                } else {
                    size as int
                },
            ),
    {
        if minus {
            if size >= 2147483648 {
                i32::MIN
            } else {
                let wide: i64 = -(size as i64);
                wide as i32
            }
        } else {
            if size > 2147483647 {
                i32::MAX
            } else {
                size as i32
            }
        }
    }
}

} // verus!
