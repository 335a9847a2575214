//! The progress that the download tool prints: the number before a percent sign, taken through a
//! double and cut to an integer.

use crate::numbers::{all_digits, digit_char, digit_of, digits_value, doublings, is_digit};
use crate::numbers::{lemma_digits_value_grows, nearest_even, rounding_goes_to_the_nearest};
use crate::text::{chars_of, find_char, find_first_char, in_lower, lower_ascii, same_chars};
use crate::text::{a_word_behind_is_the_last, is_space, lemma_find_char, text_words, views, words};
use crate::text::words_stand_between_white_space;
use vstd::arithmetic::div_mod::{lemma_fundamental_div_mod, lemma_fundamental_div_mod_converse};
use vstd::arithmetic::power2::{lemma2_to64, lemma_pow2_adds, lemma_pow2_pos, lemma_pow2_unfold, pow2};
use vstd::prelude::*;
use vstd::slice::slice_subrange;

verus! {

/// Ten to the power of `exponent`.
pub open spec fn ten_to(exponent: nat) -> nat
    decreases exponent,
{
    if exponent == 0 {
        1
    } else {
        10 * ten_to((exponent - 1) as nat)
    }
}

/// How large a number is, whatever its sign.
pub enum Size {
    NotANumber,
    Infinite,
    /// Decimal digits, and how many of them stand before the point. Further ones are zeros.
    Finite(Seq<char>, int),
}

/// A number as it is written: whether it has a minus sign, and its size.
pub struct Written {
    pub negative: bool,
    pub size: Size,
}

/// `text` without one sign at its start.
pub open spec fn without_sign(text: Seq<char>) -> Seq<char> {
    if text.len() > 0 && (text[0] == '+' || text[0] == '-') {
        text.drop_first()
    } else {
        text
    }
}

/// `text` starts with a minus sign.
pub open spec fn has_minus(text: Seq<char>) -> bool {
    text.len() > 0 && text[0] == '-'
}

/// The exponent that `text` states: decimal digits, at least one, after an optional sign.
pub open spec fn exponent_of(text: Seq<char>) -> Option<int> {
    let digits = without_sign(text);
    if digits.len() == 0 || !all_digits(digits) {
        None
    } else if has_minus(text) {
        Some(-(digits_value(digits) as int))
    } else {
        Some(digits_value(digits) as int)
    }
}

/// The digits of `text` and how many of them stand before its point: decimal digits, at least one,
/// with at most one point among them.
pub open spec fn mantissa_of(text: Seq<char>) -> Option<(Seq<char>, int)> {
    let (whole, fraction) = match find_char(text, '.') {
        Some(at) => (text.take(at), text.skip(at + 1)),
        None => (text, Seq::empty()),
    };
    if whole.len() + fraction.len() > 0 && all_digits(whole) && all_digits(fraction) {
        Some((whole + fraction, whole.len() as int))
    } else {
        None
    }
}

/// The index of the letter that starts the exponent.
pub open spec fn exponent_mark(text: Seq<char>) -> Option<int> {
    find_char(in_lower(text), 'e')
}

/// The size that `text`, which has no sign, states.
pub open spec fn size_of(text: Seq<char>) -> Option<Size> {
    if in_lower(text) == "nan"@ {
        Some(Size::NotANumber)
    } else if in_lower(text) == "inf"@ || in_lower(text) == "infinity"@ {
        Some(Size::Infinite)
    } else {
        let (mantissa, exponent) = match exponent_mark(text) {
            Some(at) => (mantissa_of(text.take(at)), exponent_of(text.skip(at + 1))),
            None => (mantissa_of(text), Some(0int)),
        };
        match (mantissa, exponent) {
            (Some(parts), Some(shift)) => Some(Size::Finite(parts.0, parts.1 + shift)),
            _ => None,
        }
    }
}

/// The number that `text` states, in the notation in which doubles are read.
pub open spec fn written_number(text: Seq<char>) -> Option<Written> {
    match size_of(without_sign(text)) {
        Some(size) => Some(Written { negative: has_minus(text), size }),
        None => None,
    }
}

/// The largest integer not above the double nearest to `numerator / denominator`, which has 53
/// significant bits, as long as it is below 2^53.
pub open spec fn double_floor(numerator: nat, denominator: nat) -> nat {
    let scale = doublings(numerator, 0x10_0000_0000_0000 * denominator);
    nearest_even(numerator * pow2(scale), denominator) / pow2(scale)
}

/// The integer part of the double nearest to the number with these digits, `point` of them before
/// the point.
pub open spec fn whole_double(digits: Seq<char>, point: int) -> nat {
    let numerator = digits_value(digits) * ten_to(
        if point > digits.len() {
            (point - digits.len()) as nat
        } else {
            0
        },
    );
    let denominator = ten_to(
        if point < digits.len() {
            (digits.len() - point) as nat
        } else {
            0
        },
    );
    double_floor(numerator, denominator)
}

/// `number` cut to 32 bits: its integer part, as far as that fits, and zero where it is not a
/// number.
pub open spec fn cut_to_int(number: Written) -> int {
    match number.size {
        Size::NotANumber => 0,
        Size::Infinite => if number.negative {
            -0x8000_0000
        } else {
            0x7fff_ffff
        },
        Size::Finite(digits, point) => {
            let whole = whole_double(digits, point) as int;
            if number.negative {
                if whole > 0x8000_0000 {
                    -0x8000_0000
                } else {
                    -whole
                }
            } else if whole > 0x7fff_ffff {
                0x7fff_ffff
            } else {
                whole
            }
        },
    }
}

/// The last word before the first percent sign of a line.
pub open spec fn percent_token(line: Seq<char>) -> Option<Seq<char>> {
    match find_char(line, '%') {
        Some(at) => {
            let before = words(line.take(at));
            if before.len() > 0 {
                Some(before.last())
            } else {
                None
            }
        },
        None => None,
    }
}

/// The percentage that a line states.
pub open spec fn stated_percent(line: Seq<char>) -> Option<int> {
    match percent_token(line) {
        Some(token) => match written_number(token) {
            Some(number) => Some(cut_to_int(number)),
            None => None,
        },
        None => None,
    }
}

/// Powers of ten multiply, and are positive.
proof fn lemma_ten_to_adds(left: nat, right: nat)
    ensures
        ten_to(left + right) == ten_to(left) * ten_to(right),
        ten_to(left) > 0,
    decreases left,
{
    if left > 0 {
        lemma_ten_to_adds((left - 1) as nat, right);
        assert((left - 1) as nat + right == (left + right - 1) as nat);
        assert(10 * (ten_to((left - 1) as nat) * ten_to(right)) == (10 * ten_to((left - 1) as nat))
            * ten_to(right)) by (nonlinear_arith);
    } else {
        assert(1 * ten_to(right) == ten_to(right));
    }
}

/// Digits before others count as many times more as those have places.
proof fn lemma_digits_join(left: Seq<char>, right: Seq<char>)
    ensures
        digits_value(left + right) == digits_value(left) * ten_to(right.len()) + digits_value(right),
    decreases right.len(),
{
    if right.len() == 0 {
        assert(left + right =~= left);
        assert(digits_value(left) * 1 == digits_value(left));
    } else {
        lemma_digits_join(left, right.drop_last());
        assert((left + right).drop_last() =~= left + right.drop_last());
        assert((left + right).last() == right.last());
        let power = ten_to((right.len() - 1) as nat);
        assert(ten_to(right.len()) == 10 * power);
        assert((digits_value(left) * power) * 10 == digits_value(left) * (10 * power))
            by (nonlinear_arith);
    }
}

/// Digits stand for less than a one with as many zeros.
proof fn lemma_digits_bound(text: Seq<char>)
    requires
        all_digits(text),
    ensures
        digits_value(text) < ten_to(text.len()),
    decreases text.len(),
{
    if text.len() > 0 {
        assert forall|i: int| 0 <= i < text.drop_last().len() implies is_digit(
            #[trigger] text.drop_last()[i],
        ) by {
            assert(text.drop_last()[i] == text[i]);
        }
        lemma_digits_bound(text.drop_last());
        assert(is_digit(text[text.len() - 1]));
    }
}

/// Doubles a run of digits in its place. Whether one more digit, a one, would stand before them.
fn double_digits(digits: &mut Vec<char>) -> (carry: bool)
    requires
        all_digits(old(digits)@),
    ensures
        all_digits(final(digits)@),
        final(digits)@.len() == old(digits)@.len(),
        digits_value(final(digits)@) + (if carry {
            ten_to(old(digits)@.len())
        } else {
            0
        }) == 2 * digits_value(old(digits)@),
{
    let mut carry: u8 = 0;
    let mut i: usize = digits.len();
    let ghost before = digits@;
    assert(digits@.skip(i as int) =~= Seq::empty());
    assert(before.skip(i as int) =~= Seq::empty());
    while i > 0
        invariant
            i <= digits@.len(),
            carry <= 1,
            digits@.len() == before.len(),
            all_digits(digits@),
            all_digits(before),
            digits@.take(i as int) == before.take(i as int),
            digits_value(digits@.skip(i as int)) + carry * ten_to((before.len() - i) as nat) == 2
                * digits_value(before.skip(i as int)),
        decreases i,
    {
        let ghost rest = digits@.skip(i as int);
        let ghost power = ten_to((before.len() - i) as nat);
        assert(is_digit(digits@[i - 1]));
        assert(digits@[i - 1] == digits@.take(i as int)[i - 1]);
        assert(before[i - 1] == before.take(i as int)[i - 1]);
        let digit: u8 = digits[i - 1] as u8 - 48;
        let twice: u8 = 2 * digit + carry;
        let low: u8 = if twice >= 10 {
            twice - 10
        } else {
            twice
        };
        let ghost incoming = carry as int;
        carry = if twice >= 10 {
            1
        } else {
            0
        };
        digits.set(i - 1, digit_of(low));
        proof {
            assert(digits@.skip(i - 1) =~= seq![digit_char(low as int)] + rest);
            assert(before.skip(i - 1) =~= seq![before[i - 1]] + before.skip(i as int));
            lemma_digits_join(seq![digit_char(low as int)], rest);
            lemma_digits_join(seq![before[i - 1]], before.skip(i as int));
            lemma_one_digit(digit_char(low as int));
            lemma_one_digit(before[i - 1]);
            assert(ten_to((before.len() - i + 1) as nat) == 10 * power);
            let outgoing = carry as int;
            assert(low * power + outgoing * (10 * power) == (2 * digit + incoming) * power)
                by (nonlinear_arith)
                requires
                    low + 10 * outgoing == 2 * digit + incoming,
            ;
            assert((2 * digit + incoming) * power == 2 * (digit * power) + incoming * power)
                by (nonlinear_arith);
            assert(digits@.take(i - 1) =~= before.take(i - 1)) by {
                assert forall|k: int| 0 <= k < i - 1 implies digits@[k] == before[k] by {
                    assert(digits@[k] == before.take(i as int)[k]);
                }
            }
        }
        i = i - 1;
    }
    assert(digits@.skip(0) =~= digits@);
    assert(before.skip(0) =~= before);
    carry == 1
}

proof fn lemma_one_digit(ch: char)
    requires
        is_digit(ch),
    ensures
        digits_value(seq![ch]) == ch as nat - 48,
{
    assert(seq![ch].drop_last() =~= Seq::empty());
    assert(digits_value(seq![ch].drop_last()) == 0);
}

/// `scale` is how often a number has to be doubled to reach a bound, if that is enough and one
/// doubling less is not.
proof fn lemma_doublings_is(value: nat, bound: nat, scale: nat)
    requires
        value > 0,
        value * pow2(scale) >= bound,
        scale > 0 ==> value * pow2((scale - 1) as nat) < bound,
    ensures
        doublings(value, bound) == scale,
    decreases scale,
{
    lemma2_to64();
    if scale == 0 {
        assert(value * 1 == value);
    } else {
        lemma_pow2_unfold(scale);
        lemma_pow2_pos((scale - 1) as nat);
        let less = pow2((scale - 1) as nat);
        assert(value * (2 * less) == (2 * value) * less) by (nonlinear_arith);
        assert(value <= value * less) by (nonlinear_arith)
            requires
                less >= 1,
        ;
        if scale > 1 {
            lemma_pow2_unfold((scale - 1) as nat);
            let least = pow2((scale - 2) as nat);
            assert(value * (2 * least) == (2 * value) * least) by (nonlinear_arith);
        }
        lemma_doublings_is(2 * value, bound, (scale - 1) as nat);
    }
}

/// Rounding to `unit` parts carries over to the next integer exactly where what is missing to it
/// is at most half a part.
proof fn lemma_carry(whole: nat, rest: nat, denominator: nat, unit: nat)
    requires
        rest < denominator,
        unit >= 2,
        unit % 2 == 0,
    ensures
        ({
            let rounded = nearest_even((whole * denominator + rest) * unit, denominator);
            if (denominator - rest) * (2 * unit) <= denominator {
                rounded == (whole + 1) * unit
            } else {
                whole * unit <= rounded < (whole + 1) * unit
            }
        }),
{
    let scaled = (whole * denominator + rest) * unit;
    let parts = rest * unit;
    let quotient = parts as int / denominator as int;
    let left = parts as int % denominator as int;
    lemma_fundamental_div_mod(parts as int, denominator as int);
    assert(quotient < unit) by (nonlinear_arith)
        requires
            rest < denominator,
            unit > 0,
            parts == rest * unit,
            parts == denominator * quotient + left,
            0 <= left,
    ;
    assert(quotient >= 0) by (nonlinear_arith)
        requires
            parts >= 0,
            parts == denominator * quotient + left,
            left < denominator,
            denominator > 0,
    ;
    assert(scaled == (whole * unit + quotient) * denominator + left) by (nonlinear_arith)
        requires
            scaled == (whole * denominator + rest) * unit,
            parts == rest * unit,
            parts == denominator * quotient + left,
    ;
    lemma_fundamental_div_mod_converse(
        scaled as int,
        denominator as int,
        whole * unit + quotient,
        left,
    );
    assert((whole + 1) * unit == whole * unit + unit) by (nonlinear_arith);
    let half = unit as int / 2;
    assert(whole * unit == 2 * (whole * half)) by (nonlinear_arith)
        requires
            unit == 2 * half,
    ;
    assert((denominator - rest) * (2 * unit) == 2 * (unit * denominator) - 2 * parts)
        by (nonlinear_arith)
        requires
            parts == rest * unit,
    ;
    if quotient == unit - 1 {
        assert(denominator * quotient == unit * denominator - denominator) by (nonlinear_arith)
            requires
                quotient == unit - 1,
        ;
    } else {
        assert(denominator * quotient <= unit * denominator - 2 * denominator) by (nonlinear_arith)
            requires
                quotient <= unit - 2,
        ;
    }
}

/// The integer part of the double nearest to `whole + rest / denominator`, where `places` is how
/// many binary places below one such a double has.
proof fn lemma_double_floor(whole: nat, rest: nat, denominator: nat, places: nat)
    requires
        rest < denominator,
        1 <= places <= 53,
        whole == 0 ==> places == 53,
        whole > 0 ==> 0x10_0000_0000_0000 <= whole * pow2(places) && whole * pow2(
            (places - 1) as nat,
        ) < 0x10_0000_0000_0000,
    ensures
        double_floor(whole * denominator + rest, denominator) == (if (denominator - rest) * pow2(
            places + 1,
        ) <= denominator {
            whole + 1
        } else {
            whole
        }),
{
    let numerator = whole * denominator + rest;
    let bound = 0x10_0000_0000_0000 * denominator;
    let unit = pow2(places);
    lemma_pow2_unfold(places);
    lemma_pow2_unfold(places + 1);
    lemma_pow2_pos((places - 1) as nat);
    let half = pow2((places - 1) as nat);
    assert(unit == 2 * half);
    assert(unit % 2 == 0);
    lemma_carry(whole, rest, denominator, unit);
    let rounded = nearest_even(numerator * unit, denominator);
    lemma2_to64();
    lemma_pow2_52();
    if whole > 0 {
        assert(numerator > 0) by (nonlinear_arith)
            requires
                numerator == whole * denominator + rest,
                whole > 0,
                denominator > 0,
        ;
        assert(numerator * unit >= bound) by (nonlinear_arith)
            requires
                numerator == whole * denominator + rest,
                whole * unit >= 0x10_0000_0000_0000,
                bound == 0x10_0000_0000_0000 * denominator,
                rest >= 0,
                unit >= 0,
        ;
        lemma_pow2_adds((53 - places) as nat, (places - 1) as nat);
        let blocks = pow2((53 - places) as nat);
        assert(blocks * half == 0x10_0000_0000_0000);
        assert(whole + 1 <= blocks) by (nonlinear_arith)
            requires
                whole * half < 0x10_0000_0000_0000,
                blocks * half == 0x10_0000_0000_0000,
                half > 0,
        ;
        assert(numerator * half < bound) by (nonlinear_arith)
            requires
                numerator == whole * denominator + rest,
                rest < denominator,
                whole + 1 <= blocks,
                blocks * half == 0x10_0000_0000_0000,
                bound == 0x10_0000_0000_0000 * denominator,
                half > 0,
        ;
        lemma_doublings_is(numerator, bound, places);
        assert((whole + 1) * unit == whole * unit + unit) by (nonlinear_arith);
        lemma_quotient(rounded, whole, unit);
    } else {
        lemma_small_double(rest, denominator);
    }
}

/// A number with `whole` full units and less than one more has `whole` units.
proof fn lemma_quotient(number: nat, whole: nat, unit: nat)
    requires
        unit > 0,
        whole * unit <= number <= (whole + 1) * unit,
    ensures
        number < (whole + 1) * unit ==> number / unit == whole,
        number == (whole + 1) * unit ==> number / unit == whole + 1,
{
    assert((whole + 1) * unit == whole * unit + unit) by (nonlinear_arith);
    if number < (whole + 1) * unit {
        lemma_fundamental_div_mod_converse(
            number as int,
            unit as int,
            whole as int,
            number - whole * unit,
        );
    } else {
        lemma_fundamental_div_mod_converse(number as int, unit as int, (whole + 1) as int, 0);
    }
}

proof fn lemma_pow2_52()
    ensures
        pow2(52) == 0x10_0000_0000_0000,
        pow2(53) == 0x20_0000_0000_0000,
        pow2(54) == 0x40_0000_0000_0000,
{
    lemma2_to64();
    lemma_pow2_adds(32, 20);
    lemma_pow2_unfold(53);
    lemma_pow2_unfold(54);
}

/// The double nearest to a number below one is one exactly where what is missing to it is at most
/// half of its last binary place.
proof fn lemma_small_double(numerator: nat, denominator: nat)
    requires
        numerator < denominator,
    ensures
        double_floor(numerator, denominator) == (if (denominator - numerator) * pow2(54)
            <= denominator {
            1nat
        } else {
            0nat
        }),
{
    let bound = 0x10_0000_0000_0000 * denominator;
    lemma2_to64();
    lemma_pow2_52();
    if numerator == 0 {
        assert(doublings(numerator, bound) == 0);
        assert(0 * pow2(0) == 0);
        assert(0nat / denominator == 0 && 0nat % denominator == 0) by (nonlinear_arith)
            requires
                denominator > 0,
        ;
        assert(nearest_even(0, denominator) == 0);
        assert(0nat / pow2(0) == 0);
    } else if 2 * numerator >= denominator {
        let unit = pow2(53);
        assert(numerator * unit >= bound);
        assert(numerator * pow2(52) < bound);
        lemma_doublings_is(numerator, bound, 53);
        lemma_carry(0, numerator, denominator, unit);
        assert(0 * denominator + numerator == numerator);
        let rounded = nearest_even(numerator * unit, denominator);
        lemma_quotient(rounded, 0, unit);
    } else {
        let scale = lemma_doublings_least(numerator, bound, 0);
        lemma_doublings_is(numerator, bound, scale);
        lemma_pow2_pos(scale);
        let unit = pow2(scale);
        if scale < 54 {
            lemma_pow2_adds(scale, (53 - scale) as nat);
            lemma_pow2_pos((53 - scale) as nat);
            assert(unit <= pow2(53)) by (nonlinear_arith)
                requires
                    unit * pow2((53 - scale) as nat) == pow2(53),
                    pow2((53 - scale) as nat) >= 1,
            ;
            assert(numerator * unit < bound) by (nonlinear_arith)
                requires
                    unit <= 0x20_0000_0000_0000,
                    2 * numerator < denominator,
                    bound == 0x10_0000_0000_0000 * denominator,
            ;
        }
        lemma_pow2_adds(54, (scale - 54) as nat);
        lemma_pow2_pos((scale - 54) as nat);
        assert(unit >= pow2(54)) by (nonlinear_arith)
            requires
                unit == pow2(54) * pow2((scale - 54) as nat),
                pow2((scale - 54) as nat) >= 1,
                pow2(54) >= 0,
        ;
        let scaled = numerator * unit;
        lemma_pow2_unfold(scale);
        let half = pow2((scale - 1) as nat);
        assert(scaled < 0x20_0000_0000_0000 * denominator) by (nonlinear_arith)
            requires
                scaled == numerator * unit,
                unit == 2 * half,
                numerator * half < bound,
                bound == 0x10_0000_0000_0000 * denominator,
        ;
        lemma_fundamental_div_mod(scaled as int, denominator as int);
        let quotient = scaled as int / denominator as int;
        assert(quotient < 0x20_0000_0000_0000) by (nonlinear_arith)
            requires
                scaled < 0x20_0000_0000_0000 * denominator,
                scaled == denominator * quotient + scaled as int % denominator as int,
                scaled as int % denominator as int >= 0,
        ;
        let rounded = nearest_even(scaled, denominator);
        assert(rounded < unit);
        lemma_fundamental_div_mod_converse(rounded as int, unit as int, 0, rounded as int);
    }
}

proof fn lemma_doublings_least(value: nat, bound: nat, from: nat) -> (scale: nat)
    requires
        value > 0,
        from > 0 ==> value * pow2((from - 1) as nat) < bound,
    ensures
        value * pow2(scale) >= bound,
        scale > 0 ==> value * pow2((scale - 1) as nat) < bound,
    decreases
            if value * pow2(from) < bound {
                bound - value * pow2(from)
            } else {
                0
            },
{
    if value * pow2(from) >= bound {
        from
    } else {
        lemma_pow2_unfold(from + 1);
        lemma_pow2_pos(from);
        assert(value * pow2(from + 1) > value * pow2(from)) by (nonlinear_arith)
            requires
                value > 0,
                pow2(from) > 0,
                pow2(from + 1) == 2 * pow2(from),
        ;
        lemma_doublings_least(value, bound, from + 1)
    }
}

/// A number that is at least `least` has a nearest double that is, too.
proof fn lemma_double_floor_least(numerator: nat, denominator: nat, least: nat)
    requires
        denominator > 0,
        numerator >= least * denominator,
    ensures
        double_floor(numerator, denominator) >= least,
{
    let scale = doublings(numerator, 0x10_0000_0000_0000 * denominator);
    let unit = pow2(scale);
    lemma_pow2_pos(scale);
    let scaled = numerator * unit;
    assert(scaled >= (least * unit) * denominator) by (nonlinear_arith)
        requires
            scaled == numerator * unit,
            numerator >= least * denominator,
            unit >= 0,
    ;
    lemma_fundamental_div_mod(scaled as int, denominator as int);
    let quotient = scaled as int / denominator as int;
    let left = scaled as int % denominator as int;
    assert(quotient >= least * unit) by (nonlinear_arith)
        requires
            scaled >= (least * unit) * denominator,
            scaled == denominator * quotient + left,
            left < denominator,
            denominator > 0,
    ;
    let rounded = nearest_even(scaled, denominator);
    assert(rounded >= least * unit);
    lemma_fundamental_div_mod(rounded as int, unit as int);
    let result = rounded as int / unit as int;
    let over = rounded as int % unit as int;
    assert(result >= least) by (nonlinear_arith)
        requires
            rounded >= least * unit,
            rounded == unit * result + over,
            over < unit,
            unit > 0,
    ;
}

/// Whether a fraction with these digits is so near to one that what is missing, doubled `times`
/// times, is at most one. The digits are used up.
fn nearly_one(digits: &mut Vec<char>, times: u32) -> (near: bool)
    requires
        all_digits(old(digits)@),
    ensures
        near == ((ten_to(old(digits)@.len()) - digits_value(old(digits)@)) * pow2(times as nat)
            <= ten_to(old(digits)@.len())),
{
    let ghost whole = ten_to(digits@.len());
    let ghost missing = ten_to(digits@.len()) - digits_value(digits@);
    let mut i: u32 = 0;
    proof {
        lemma_digits_bound(digits@);
        lemma2_to64();
        assert(missing * 1 == missing);
    }
    while i < times
        invariant
            i <= times,
            all_digits(digits@),
            missing > 0,
            whole == ten_to(digits@.len()),
            missing == whole - digits_value(old(digits)@),
            old(digits)@.len() == digits@.len(),
            digits_value(digits@) == whole - missing * pow2(i as nat),
        decreases times - i,
    {
        let ghost before = digits_value(digits@);
        let carry = double_digits(digits);
        proof {
            lemma_pow2_unfold((i + 1) as nat);
            let unit = pow2(i as nat);
            let twice = pow2((i + 1) as nat);
            assert(missing * twice == 2 * (missing * unit)) by (nonlinear_arith)
                requires
                    twice == 2 * unit,
            ;
            if !carry {
                lemma_digits_bound(digits@);
                lemma_pow2_adds((i + 1) as nat, (times - i - 1) as nat);
                lemma_pow2_pos((times - i - 1) as nat);
                let more = pow2((times - i - 1) as nat);
                assert(missing * (twice * more) >= missing * twice) by (nonlinear_arith)
                    requires
                        missing > 0,
                        twice >= 0,
                        more >= 1,
                ;
            }
        }
        if !carry {
            return false;
        }
        i = i + 1;
    }
    true
}

/// Whether every digit is a zero.
fn is_zero(digits: &Vec<char>) -> (zero: bool)
    requires
        all_digits(digits@),
    ensures
        zero == (digits_value(digits@) == 0),
{
    let mut i: usize = 0;
    assert(digits@.take(0) =~= Seq::empty());
    while i < digits.len()
        invariant
            i <= digits.len(),
            all_digits(digits@),
            digits_value(digits@.take(i as int)) == 0,
        decreases digits.len() - i,
    {
        assert(digits@.take(i + 1).drop_last() =~= digits@.take(i as int));
        assert(is_digit(digits@[i as int]));
        if digits[i] != '0' {
            proof {
                lemma_digits_value_grows(digits@, i + 1);
            }
            return false;
        }
        i = i + 1;
    }
    assert(digits@.take(i as int) =~= digits@);
    true
}

proof fn lemma_ten_to_ten()
    ensures
        ten_to(0) == 1,
        ten_to(1) == 10,
        ten_to(10) == 10_000_000_000,
{
    reveal_with_fuel(ten_to, 11);
}

/// Zero, however its point is placed.
proof fn lemma_whole_of_zero(digits: Seq<char>, point: int)
    requires
        digits_value(digits) == 0,
    ensures
        whole_double(digits, point) == 0,
{
    let shift = if point > digits.len() {
        (point - digits.len()) as nat
    } else {
        0
    };
    let places = if point < digits.len() {
        (digits.len() - point) as nat
    } else {
        0
    };
    assert(0 * ten_to(shift) == 0);
    lemma_ten_to_adds(places, 0);
    lemma_small_double(0, ten_to(places));
    lemma_pow2_52();
    let denominator = ten_to(places) as int;
    assert((denominator - 0) * 0x40_0000_0000_0000 > denominator);
}

/// A number other than zero whose point is far to the right is large.
proof fn lemma_whole_of_large(digits: Seq<char>, point: int)
    requires
        digits_value(digits) > 0,
        point >= digits.len() + 10,
    ensures
        whole_double(digits, point) >= 0x8000_0000,
{
    let shift = (point - digits.len()) as nat;
    lemma_ten_to_ten();
    lemma_ten_to_adds(10, (shift - 10) as nat);
    lemma_ten_to_adds((shift - 10) as nat, 0);
    let more = ten_to((shift - 10) as nat);
    assert(ten_to(shift) >= 10_000_000_000) by (nonlinear_arith)
        requires
            ten_to(shift) == 10_000_000_000 * more,
            more >= 1,
    ;
    assert(digits_value(digits) * ten_to(shift) >= 10_000_000_000) by (nonlinear_arith)
        requires
            digits_value(digits) >= 1,
            ten_to(shift) >= 10_000_000_000,
    ;
    lemma_double_floor_least(digits_value(digits) * ten_to(shift), 1, 0x8000_0000);
}

/// A number whose point is left of its digits is small.
proof fn lemma_whole_of_small(digits: Seq<char>, point: int)
    requires
        all_digits(digits),
        point < 0,
    ensures
        whole_double(digits, point) == 0,
{
    lemma_digits_bound(digits);
    lemma_ten_to_ten();
    let numerator = digits_value(digits);
    let places = (digits.len() - point) as nat;
    lemma_ten_to_adds(digits.len(), (-point) as nat);
    lemma_ten_to_adds(1, (-point - 1) as nat);
    lemma_ten_to_adds((-point - 1) as nat, 0);
    let more = ten_to((-point - 1) as nat);
    let digit_power = ten_to(digits.len());
    let denominator = ten_to(places);
    assert(digits.len() + (-point) as nat == places);
    assert(denominator >= 10 * digit_power) by (nonlinear_arith)
        requires
            denominator == digit_power * (10 * more),
            more >= 1,
            digit_power >= 0,
    ;
    assert(numerator * 1 == numerator);
    lemma_small_double(numerator, denominator);
    lemma_pow2_52();
    assert((denominator - numerator) * 0x40_0000_0000_0000 > denominator);
}

/// The integer part of the double nearest to the number with these digits, `point` of them before
/// the point; 2^31 where it is larger.
fn whole_part(digits: &Vec<char>, point: i128) -> (whole: u64)
    requires
        all_digits(digits@),
    ensures
        whole == (if whole_double(digits@, point as int) > 0x8000_0000 {
            0x8000_0000
        } else {
            whole_double(digits@, point as int)
        }),
{
    if is_zero(digits) {
        proof {
            lemma_whole_of_zero(digits@, point as int);
        }
        return 0;
    }
    if point < 0 {
        proof {
            lemma_whole_of_small(digits@, point as int);
        }
        return 0;
    }
    if point >= digits.len() as i128 + 10 {
        proof {
            lemma_whole_of_large(digits@, point as int);
        }
        return 0x8000_0000;
    }
    let ghost padding = if point > digits.len() {
        (point - digits.len()) as nat
    } else {
        0
    };
    let ghost zeros = Seq::new(padding, |i: int| '0');
    let ghost all = digits@ + zeros;
    let ghost places = (all.len() - point) as nat;
    let ghost denominator = ten_to(places);
    let ghost numerator = digits_value(all);
    proof {
        lemma_zeros(padding);
        lemma_digits_join(digits@, zeros);
        lemma_ten_to_adds(places, 0);
        assert(all_digits(all));
        assert(places == (if point < digits.len() {
            (digits.len() - point) as nat
        } else {
            0
        }));
        assert(whole_double(digits@, point as int) == double_floor(numerator, denominator));
        assert(all =~= all.take(point as int) + all.skip(point as int));
        lemma_digits_join(all.take(point as int), all.skip(point as int));
    }
    let mut whole: u64 = 0;
    let mut i: i128 = 0;
    assert(all.take(0) =~= Seq::empty());
    while i < point
        invariant
            0 <= i <= point < digits.len() + 10,
            all_digits(all),
            all == digits@ + zeros,
            zeros == Seq::new(padding, |i: int| '0'),
            point <= all.len(),
            places == all.len() - point,
            denominator == ten_to(places),
            denominator > 0,
            numerator == digits_value(all.take(point as int)) * denominator + digits_value(
                all.skip(point as int),
            ),
            whole_double(digits@, point as int) == double_floor(numerator, denominator),
            whole == digits_value(all.take(i as int)),
            whole < 0x8000_0000,
        decreases point - i,
    {
        let ch = if i < digits.len() as i128 {
            digits[i as usize]
        } else {
            '0'
        };
        assert(ch == all[i as int]);
        assert(is_digit(all[i as int]));
        assert(all.take(i + 1).drop_last() =~= all.take(i as int));
        whole = whole * 10 + (ch as u8 - 48) as u64;
        if whole >= 0x8000_0000 {
            proof {
                let before = all.take(point as int);
                assert(before.take(i + 1) =~= all.take(i + 1));
                lemma_digits_value_grows(before, i + 1);
                assert(numerator >= 0x8000_0000 * denominator) by (nonlinear_arith)
                    requires
                        numerator >= digits_value(before) * denominator,
                        digits_value(before) >= 0x8000_0000,
                ;
                lemma_double_floor_least(numerator, denominator, 0x8000_0000);
            }
            return 0x8000_0000;
        }
        i = i + 1;
    }
    let places_kept: u32 = if whole == 0 {
        53
    } else {
        binary_places(whole)
    };
    let mut fraction: Vec<char> = Vec::new();
    let mut k: usize = if point < digits.len() as i128 {
        point as usize
    } else {
        digits.len()
    };
    assert(fraction@ =~= digits@.subrange(k as int, k as int));
    let ghost start = k as int;
    while k < digits.len()
        invariant
            0 <= start <= k <= digits.len(),
            fraction@ == digits@.subrange(start, k as int),
        decreases digits.len() - k,
    {
        fraction.push(digits[k]);
        k = k + 1;
        assert(fraction@ =~= digits@.subrange(start, k as int));
    }
    proof {
        assert(fraction@ =~= all.skip(point as int));
        assert forall|j: int| 0 <= j < fraction@.len() implies is_digit(#[trigger] fraction@[j]) by {
            assert(fraction@[j] == all[point + j]);
        }
        lemma_digits_bound(fraction@);
        lemma_double_floor(
            whole as nat,
            digits_value(fraction@),
            denominator,
            places_kept as nat,
        );
    }
    if nearly_one(&mut fraction, places_kept + 1) {
        whole + 1
    } else {
        whole
    }
}

proof fn lemma_zeros(count: nat)
    ensures
        digits_value(Seq::new(count, |i: int| '0')) == 0,
    decreases count,
{
    let zeros = Seq::new(count, |i: int| '0');
    if count > 0 {
        lemma_zeros((count - 1) as nat);
        assert(zeros.drop_last() =~= Seq::new((count - 1) as nat, |i: int| '0'));
    }
}

/// How many binary places below one a double has whose integer part is `whole`.
fn binary_places(whole: u64) -> (places: u32)
    requires
        0 < whole < 0x8000_0000,
    ensures
        1 <= places <= 53,
        0x10_0000_0000_0000 <= whole * pow2(places as nat),
        whole * pow2((places - 1) as nat) < 0x10_0000_0000_0000,
{
    let mut scaled: u64 = whole;
    let mut places: u32 = 0;
    proof {
        lemma2_to64();
        assert(whole * 1 == whole);
    }
    while scaled < 0x10_0000_0000_0000
        invariant
            0 < whole < 0x8000_0000,
            scaled == whole * pow2(places as nat),
            places > 0 ==> whole * pow2((places - 1) as nat) < 0x10_0000_0000_0000,
            scaled < 0x20_0000_0000_0000,
            places <= 53,
            places == 0 ==> scaled == whole,
            pow2(places as nat) <= scaled,
        decreases 0x20_0000_0000_0000 - scaled,
    {
        proof {
            lemma_pow2_unfold((places + 1) as nat);
            lemma_pow2_pos(places as nat);
            let unit = pow2(places as nat);
            assert(whole * (2 * unit) == 2 * (whole * unit)) by (nonlinear_arith);
            lemma_pow2_52();
            if places == 53 {
                assert(false);
            }
        }
        scaled = scaled * 2;
        places = places + 1;
    }
    places
}

/// The characters in ASCII lower case.
fn lower_chars(text: &[char]) -> (lower: Vec<char>)
    ensures
        lower@ == in_lower(text@),
{
    let mut lower: Vec<char> = Vec::new();
    let mut i: usize = 0;
    while i < text.len()
        invariant
            i <= text.len(),
            lower@ == in_lower(text@).take(i as int),
        decreases text.len() - i,
    {
        lower.push(lower_ascii(text[i]));
        i = i + 1;
        assert(lower@ =~= in_lower(text@).take(i as int));
    }
    assert(in_lower(text@).take(i as int) =~= in_lower(text@));
    lower
}

/// Whether every character is a digit.
fn only_digits(text: &[char]) -> (all: bool)
    ensures
        all == all_digits(text@),
{
    let mut i: usize = 0;
    while i < text.len()
        invariant
            i <= text.len(),
            forall|k: int| 0 <= k < i ==> is_digit(#[trigger] text@[k]),
        decreases text.len() - i,
    {
        if !('0' <= text[i] && text[i] <= '9') {
            assert(!is_digit(text@[i as int]));
            return false;
        }
        i = i + 1;
    }
    true
}

/// `text` without one sign at its start.
fn drop_sign(text: &[char]) -> (rest: &[char])
    ensures
        rest@ == without_sign(text@),
{
    if text.len() > 0 && (text[0] == '+' || text[0] == '-') {
        assert(text@.subrange(1, text@.len() as int) =~= text@.drop_first());
        slice_subrange(text, 1, text.len())
    } else {
        text
    }
}

/// The digits of a mantissa, and how many of them stand before its point.
fn read_mantissa(text: &[char]) -> (parts: Option<(Vec<char>, usize)>)
    ensures
        mantissa_of(text@) == (match parts {
            Some((digits, point)) => Some((digits@, point as int)),
            None => None,
        }),
        parts matches Some((digits, point)) ==> all_digits(digits@),
{
    let (whole, fraction) = match find_first_char(text, '.') {
        Some(at) => {
            assert(text@.subrange(0, at as int) =~= text@.take(at as int));
            assert(text@.subrange(at + 1, text@.len() as int) =~= text@.skip(at + 1));
            (slice_subrange(text, 0, at), slice_subrange(text, at + 1, text.len()))
        },
        None => {
            assert(text@.subrange(text@.len() as int, text@.len() as int) =~= Seq::empty());
            (text, slice_subrange(text, text.len(), text.len()))
        },
    };
    if (whole.len() == 0 && fraction.len() == 0) || !only_digits(whole) || !only_digits(fraction) {
        return None;
    }
    let mut digits: Vec<char> = Vec::new();
    digits.extend_from_slice(whole);
    digits.extend_from_slice(fraction);
    assert(digits@ =~= whole@ + fraction@);
    Some((digits, whole.len()))
}

/// The size of an exponent; anything from 2^70 on where it is at least that.
fn read_exponent(text: &[char]) -> (size: Option<u128>)
    ensures
        match size {
            Some(value) => {
                &&& exponent_of(text@) is Some
                &&& value == digits_value(without_sign(text@)) || (value >= 0x40_0000_0000_0000_0000
                    && digits_value(without_sign(text@)) >= 0x40_0000_0000_0000_0000)
                &&& value < 0x1000_0000_0000_0000_0000
            },
            None => exponent_of(text@) is None,
        },
{
    let digits = drop_sign(text);
    if digits.len() == 0 || !only_digits(digits) {
        return None;
    }
    let mut value: u128 = 0;
    let mut i: usize = 0;
    assert(digits@.take(0) =~= Seq::empty());
    while i < digits.len()
        invariant
            i <= digits.len(),
            all_digits(digits@),
            value == digits_value(digits@.take(i as int)) || (value >= 0x40_0000_0000_0000_0000
                && digits_value(digits@.take(i as int)) >= 0x40_0000_0000_0000_0000),
            value < 0x1000_0000_0000_0000_0000,
        decreases digits.len() - i,
    {
        assert(is_digit(digits@[i as int]));
        assert(digits@.take(i + 1).drop_last() =~= digits@.take(i as int));
        if value < 0x40_0000_0000_0000_0000 {
            value = value * 10 + (digits[i] as u8 - 48) as u128;
        }
        i = i + 1;
    }
    assert(digits@.take(i as int) =~= digits@);
    Some(value)
}

/// The integer part of a number, as far as it fits into 32 bits, where its size is known only up
/// to 2^31.
fn fit(negative: bool, whole: u64) -> (number: i32)
    requires
        whole <= 0x8000_0000,
    ensures
        number == (if negative {
            -(whole as int)
        } else if whole > 0x7fff_ffff {
            0x7fff_ffff
        } else {
            whole as int
        }),
{
    if negative {
        (0 - whole as i64) as i32
    } else if whole > 0x7fff_ffff {
        0x7fff_ffff
    } else {
        whole as i32
    }
}

/// A point that is out of reach on one side might as well be anywhere there.
proof fn lemma_whole_out_of_reach(digits: Seq<char>, point: int, other: int)
    requires
        all_digits(digits),
        ({
            ||| point == other
            ||| point < 0 && other < 0
            ||| point >= digits.len() + 10 && other >= digits.len() + 10
        }),
    ensures
        ({
            let whole = whole_double(digits, point);
            let other_whole = whole_double(digits, other);
            whole == other_whole || (whole >= 0x8000_0000 && other_whole >= 0x8000_0000)
        }),
{
    if point != other {
        if digits_value(digits) == 0 {
            lemma_whole_of_zero(digits, point);
            lemma_whole_of_zero(digits, other);
        } else if point < 0 {
            lemma_whole_of_small(digits, point);
            lemma_whole_of_small(digits, other);
        } else {
            lemma_whole_of_large(digits, point);
            lemma_whole_of_large(digits, other);
        }
    }
}

/// The integer part of the double that `text` states, as far as it fits into 32 bits; nothing
/// where `text` states none.
pub fn truncated_number(text: &str) -> (number: Option<i32>)
    ensures
        match (written_number(text@), number) {
            (Some(written), Some(value)) => value == cut_to_int(written),
            (None, None) => true,
            _ => false,
        },
{
    let chars = chars_of(text);
    let negative = chars.len() > 0 && chars[0] == '-';
    let body = drop_sign(chars.as_slice());
    let lower = lower_chars(body);
    let nan = chars_of("nan");
    if same_chars(lower.as_slice(), nan.as_slice()) {
        return Some(0);
    }
    let inf = chars_of("inf");
    let infinity = chars_of("infinity");
    if same_chars(lower.as_slice(), inf.as_slice()) || same_chars(
        lower.as_slice(),
        infinity.as_slice(),
    ) {
        return Some(
            if negative {
                -0x8000_0000
            } else {
                0x7fff_ffff
            },
        );
    }
    match find_first_char(lower.as_slice(), 'e') {
        Some(at) => {
            assert(body@.subrange(0, at as int) =~= body@.take(at as int));
            assert(body@.subrange(at + 1, body@.len() as int) =~= body@.skip(at + 1));
            let exponent = slice_subrange(body, at + 1, body.len());
            match (read_mantissa(slice_subrange(body, 0, at)), read_exponent(exponent)) {
                (Some((digits, point)), Some(size)) => {
                    let down = exponent.len() > 0 && exponent[0] == '-';
                    let shifted: i128 = if down {
                        point as i128 - size as i128
                    } else {
                        point as i128 + size as i128
                    };
                    proof {
                        let exact = point + exponent_of(exponent@)->0;
                        assert(size_of(body@) == Some(Size::Finite(digits@, exact)));
                        assert(digits.len() <= u64::MAX && point <= u64::MAX);
                        lemma_whole_out_of_reach(digits@, exact, shifted as int);
                    }
                    Some(fit(negative, whole_part(&digits, shifted)))
                },
                _ => None,
            }
        },
        None => match read_mantissa(body) {
            Some((digits, point)) => Some(fit(negative, whole_part(&digits, point as i128))),
            None => None,
        },
    }
}

/// The percentage that a line states.
pub fn parse_ytdlp_pct(line: &str) -> (percent: Option<i32>)
    ensures
        stated_percent(line@) == (match percent {
            Some(value) => Some(value as int),
            None => None,
        }),
{
    let chars = chars_of(line);
    match find_first_char(chars.as_slice(), '%') {
        Some(at) => {
            assert(chars@.subrange(0, at as int) =~= chars@.take(at as int));
            let before = text_words(slice_subrange(chars.as_slice(), 0, at));
            assert(views(before@).len() == before@.len());
            if before.len() == 0 {
                None
            } else {
                assert(views(before@)[before@.len() - 1] == before@[before@.len() - 1]@);
                truncated_number(before[before.len() - 1].as_str())
            }
        },
        None => None,
    }
}

/// The progress that a line reports: the percentage that it states, cut to eight bits.
pub open spec fn shown_percent(line: Seq<char>) -> Option<int> {
    match stated_percent(line) {
        Some(percent) => Some(percent % 256),
        None => None,
    }
}

/// The progress that a line reports: the percentage that it states, cut to eight bits.
pub fn reported_progress(line: &str) -> (progress: Option<u8>)
    ensures
        match (stated_percent(line@), progress) {
            (Some(percent), Some(shown)) => shown == percent % 256,
            (None, None) => true,
            _ => false,
        },
        shown_percent(line@) == (match progress {
            Some(shown) => Some(shown as int),
            None => None,
        }),
{
    match parse_ytdlp_pct(line) {
        Some(percent) => {
            let raised: u64 = (percent as i64 + 0x8000_0000) as u64;
            Some((raised % 256) as u8)
        },
        None => None,
    }
}

/// A number written with at most fifteen digits is simply cut at its point.
pub proof fn short_numbers_are_cut_at_their_point(digits: Seq<char>, point: int)
    requires
        all_digits(digits),
        0 <= point <= digits.len() <= 15,
    ensures
        whole_double(digits, point) == digits_value(digits.take(point)),
{
    let before = digits.take(point);
    let after = digits.skip(point);
    let whole = digits_value(before);
    let rest = digits_value(after);
    let denominator = ten_to(after.len());
    assert(digits =~= before + after);
    lemma_digits_join(before, after);
    assert forall|i: int| 0 <= i < after.len() implies is_digit(#[trigger] after[i]) by {
        assert(after[i] == digits[point + i]);
    }
    lemma_digits_bound(after);
    lemma_digits_bound(digits);
    assert(ten_to(15) == 1_000_000_000_000_000) by {
        reveal_with_fuel(ten_to, 16);
    }
    lemma_ten_to_adds(digits.len(), (15 - digits.len()) as nat);
    lemma_ten_to_adds((15 - digits.len()) as nat, 0);
    let more = ten_to((15 - digits.len()) as nat);
    assert(ten_to(digits.len()) <= 1_000_000_000_000_000) by (nonlinear_arith)
        requires
            1_000_000_000_000_000 == ten_to(digits.len()) * more,
            more >= 1,
            ten_to(digits.len()) >= 0,
    ;
    lemma_ten_to_adds(after.len(), point as nat);
    lemma_ten_to_adds(point as nat, 0);
    assert(denominator <= ten_to(digits.len())) by (nonlinear_arith)
        requires
            ten_to(digits.len()) == denominator * ten_to(point as nat),
            ten_to(point as nat) >= 1,
            denominator >= 0,
    ;
    let numerator = digits_value(digits);
    assert(numerator * 1 == numerator);
    lemma2_to64();
    lemma_pow2_52();
    if whole == 0 {
        lemma_double_floor(whole, rest, denominator, 53);
        assert((denominator - rest) * 0x40_0000_0000_0000 >= 0x40_0000_0000_0000);
    } else {
        let places = lemma_doublings_least(whole, 0x10_0000_0000_0000, 0);
        assert(whole <= numerator) by (nonlinear_arith)
            requires
                numerator == whole * denominator + rest,
                denominator >= 1,
                rest >= 0,
                whole >= 0,
        ;
        if places == 0 {
            assert(whole * 1 == whole);
        }
        if places > 53 {
            lemma_pow2_adds(53, (places - 54) as nat);
            lemma_pow2_pos((places - 54) as nat);
            let unit = pow2((places - 1) as nat);
            assert(whole * unit >= 0x20_0000_0000_0000) by (nonlinear_arith)
                requires
                    unit == 0x20_0000_0000_0000 * pow2((places - 54) as nat),
                    pow2((places - 54) as nat) >= 1,
                    whole >= 1,
            ;
        }
        lemma_double_floor(whole, rest, denominator, places);
        lemma_pow2_unfold(places + 1);
        let unit = pow2(places);
        assert((denominator - rest) * (2 * unit) > denominator) by (nonlinear_arith)
            requires
                denominator - rest >= 1,
                whole * unit >= 0x10_0000_0000_0000,
                whole * denominator < 1_000_000_000_000_000,
                whole >= 1,
                unit >= 0,
        ;
    }
}

/// The percentage of a line is the word before its first percent sign, whatever stands before that
/// word and behind the sign.
pub proof fn the_percentage_stands_before_the_sign(
    before: Seq<char>,
    number: Seq<char>,
    behind: Seq<char>,
)
    requires
        number.len() > 0,
        forall|i: int| 0 <= i < number.len() ==> !is_space(#[trigger] number[i]),
        !before.contains('%'),
        !number.contains('%'),
    ensures
        percent_token(before + seq![' '] + number + seq!['%'] + behind) == Some(number),
        percent_token(before) is None,
        stated_percent(before) is None,
{
    let front = before + seq![' '] + number;
    let line = front + seq!['%'] + behind;
    let at = front.len() as int;
    lemma_find_char(line, '%', 0);
    lemma_find_char(before, '%', 0);
    assert forall|k: int| 0 <= k < at implies line[k] != '%' by {
        if k < before.len() {
            assert(line[k] == before[k]);
            assert(before.contains(before[k]));
        } else if k > before.len() {
            assert(line[k] == number[k - before.len() - 1]);
            assert(number.contains(number[k - before.len() - 1]));
        }
    }
    assert(line[at] == '%');
    assert(find_char(line, '%') == Some(at));
    assert(line.take(at) =~= front);
    a_word_behind_is_the_last(before, ' ', number);
    assert(words(front).last() == number);
    if let Some(k) = find_char(before, '%') {
        assert(before.contains(before[k]));
    }
}

/// A line that states a percentage with a point is read as the digits before the point, with its
/// sign if it has one, where there are at most fifteen digits in all and those before the point fit
/// into 32 bits.
pub proof fn a_percentage_is_cut_at_its_point(
    before: Seq<char>,
    whole: Seq<char>,
    fraction: Seq<char>,
    behind: Seq<char>,
)
    requires
        !before.contains('%'),
        all_digits(whole),
        all_digits(fraction),
        0 < whole.len() + fraction.len() <= 15,
        digits_value(whole) <= 0x7fff_ffff,
    ensures
        stated_percent(
            before + seq![' '] + (whole + seq!['.'] + fraction) + seq!['%'] + behind,
        ) == Some(digits_value(whole) as int),
        stated_percent(
            before + seq![' '] + (seq!['-'] + (whole + seq!['.'] + fraction)) + seq!['%'] + behind,
        ) == Some(-(digits_value(whole) as int)),
        stated_percent(
            before + seq![' '] + (seq!['+'] + (whole + seq!['.'] + fraction)) + seq!['%'] + behind,
        ) == Some(digits_value(whole) as int),
        whole.len() > 0 ==> stated_percent(before + seq![' '] + whole + seq!['%'] + behind) == Some(
            digits_value(whole) as int,
        ),
{
    let number = whole + seq!['.'] + fraction;
    let point = whole.len() as int;
    assert forall|k: int| 0 <= k < number.len() implies number[k] == '.' || is_digit(
        #[trigger] number[k],
    ) by {
        if k < point {
            assert(is_digit(whole[k]));
        } else if k > point {
            assert(is_digit(fraction[k - point - 1]));
        }
    }
    lemma_find_char(number, '.', 0);
    assert forall|k: int| 0 <= k < point implies number[k] != '.' by {
        assert(is_digit(whole[k]));
    }
    assert(number[point] == '.');
    assert(find_char(number, '.') == Some(point));
    assert(number.take(point) =~= whole);
    assert(number.skip(point + 1) =~= fraction);
    let digits = whole + fraction;
    assert forall|i: int| 0 <= i < digits.len() implies is_digit(#[trigger] digits[i]) by {
        if i < point {
            assert(digits[i] == whole[i]);
        } else {
            assert(digits[i] == fraction[i - point]);
        }
    }
    short_numbers_are_cut_at_their_point(digits, point);
    assert(digits.take(point) =~= whole);
    lemma_plain_size(number);
    assert(size_of(number) == Some(Size::Finite(digits, point + 0)));
    the_percentage_stands_before_the_sign(before, number, behind);
    assert(without_sign(number) == number);
    let negative = seq!['-'] + number;
    assert(negative.drop_first() =~= number);
    assert forall|i: int| 0 <= i < negative.len() implies !is_space(#[trigger] negative[i])
        && negative[i] != '%' by {
        if i > 0 {
            assert(negative[i] == number[i - 1]);
        }
    }
    the_percentage_stands_before_the_sign(before, negative, behind);
    let positive = seq!['+'] + number;
    assert(positive.drop_first() =~= number);
    assert forall|i: int| 0 <= i < positive.len() implies !is_space(#[trigger] positive[i])
        && positive[i] != '%' by {
        if i > 0 {
            assert(positive[i] == number[i - 1]);
        }
    }
    the_percentage_stands_before_the_sign(before, positive, behind);
    if whole.len() > 0 {
        assert forall|k: int| 0 <= k < whole.len() implies whole[k] == '.' || is_digit(
            #[trigger] whole[k],
        ) by {}
        lemma_plain_size(whole);
        lemma_find_char(whole, '.', 0);
        assert(is_digit(whole[0]));
        assert(find_char(whole, '.') is None) by {
            if let Some(k) = find_char(whole, '.') {
                assert(is_digit(whole[k]));
            }
        }
        assert(whole + Seq::<char>::empty() =~= whole);
        short_numbers_are_cut_at_their_point(whole, point);
        assert(whole.take(point) =~= whole);
        the_percentage_stands_before_the_sign(before, whole, behind);
    }
}

/// A number of digits and points has no exponent and is no word.
proof fn lemma_plain_size(text: Seq<char>)
    requires
        text.len() > 0,
        forall|k: int| 0 <= k < text.len() ==> text[k] == '.' || is_digit(#[trigger] text[k]),
    ensures
        in_lower(text) != "nan"@,
        in_lower(text) != "inf"@,
        in_lower(text) != "infinity"@,
        exponent_mark(text) is None,
{
    reveal_strlit("nan");
    reveal_strlit("inf");
    reveal_strlit("infinity");
    let lower = in_lower(text);
    assert forall|k: int| 0 <= k < text.len() implies lower[k] == text[k] by {
        assert(is_digit(text[k]) || text[k] == '.');
    }
    assert(lower[0] == text[0]);
    assert(is_digit(text[0]) || text[0] == '.');
    lemma_find_char(lower, 'e', 0);
    if let Some(k) = find_char(lower, 'e') {
        assert(is_digit(text[k]) || text[k] == '.');
    }
}

/// Where nothing stands before the percentage, it is still the word before the sign.
pub proof fn a_percentage_may_stand_first(number: Seq<char>, behind: Seq<char>)
    requires
        number.len() > 0,
        forall|i: int| 0 <= i < number.len() ==> !is_space(#[trigger] number[i]),
        !number.contains('%'),
    ensures
        percent_token(number + seq!['%'] + behind) == Some(number),
        percent_token(seq!['%'] + behind) is None,
{
    let line = number + seq!['%'] + behind;
    let at = number.len() as int;
    lemma_find_char(line, '%', 0);
    assert forall|k: int| 0 <= k < at implies line[k] != '%' by {
        assert(line[k] == number[k]);
        assert(number.contains(number[k]));
    }
    assert(line[at] == '%');
    assert(find_char(line, '%') == Some(at));
    assert(line.take(at) =~= number);
    words_stand_between_white_space(number, ' ', Seq::empty());
    assert(words(number).last() == number);
    let bare = seq!['%'] + behind;
    lemma_find_char(bare, '%', 0);
    assert(bare[0] == '%');
    assert(bare.take(0) =~= Seq::empty());
}

/// An exponent moves the point of the digits before it: to the right by so many places, or to the
/// left where it has a minus sign; a small letter or a capital one marks it.
pub proof fn an_exponent_moves_the_point(
    whole: Seq<char>,
    fraction: Seq<char>,
    mark: char,
    shift: Seq<char>,
)
    requires
        all_digits(whole),
        all_digits(fraction),
        whole.len() + fraction.len() > 0,
        mark == 'e' || mark == 'E',
        all_digits(shift),
        shift.len() > 0,
    ensures
        ({
            let number = whole + seq!['.'] + fraction;
            let by = digits_value(shift) as int;
            let point = whole.len() as int;
            &&& size_of(number + seq![mark] + shift) == Some(
                Size::Finite(whole + fraction, point + by),
            )
            &&& size_of(number + seq![mark] + (seq!['+'] + shift)) == Some(
                Size::Finite(whole + fraction, point + by),
            )
            &&& size_of(number + seq![mark] + (seq!['-'] + shift)) == Some(
                Size::Finite(whole + fraction, point - by),
            )
        }),
{
    let number = whole + seq!['.'] + fraction;
    let by = digits_value(shift) as int;
    let point = whole.len() as int;
    assert forall|k: int| 0 <= k < number.len() implies number[k] == '.' || is_digit(
        #[trigger] number[k],
    ) by {
        if k < point {
            assert(is_digit(whole[k]));
        } else if k > point {
            assert(is_digit(fraction[k - point - 1]));
        }
    }
    lemma_find_char(number, '.', 0);
    assert forall|k: int| 0 <= k < point implies number[k] != '.' by {
        assert(is_digit(whole[k]));
    }
    assert(number[point] == '.');
    assert(find_char(number, '.') == Some(point));
    assert(number.take(point) =~= whole);
    assert(number.skip(point + 1) =~= fraction);
    assert(mantissa_of(number) == Some((whole + fraction, point)));
    assert(is_digit(shift[0]));
    assert((seq!['+'] + shift).drop_first() =~= shift);
    assert((seq!['-'] + shift).drop_first() =~= shift);
    assert(exponent_of(shift) == Some(by));
    assert(exponent_of(seq!['+'] + shift) == Some(by));
    assert(exponent_of(seq!['-'] + shift) == Some(-by));
    lemma_marked_size(number, mark, shift);
    lemma_marked_size(number, mark, seq!['+'] + shift);
    lemma_marked_size(number, mark, seq!['-'] + shift);
}

/// The exponent stands behind the first mark.
proof fn lemma_marked_size(number: Seq<char>, mark: char, exponent: Seq<char>)
    requires
        number.len() > 0,
        forall|k: int| 0 <= k < number.len() ==> number[k] == '.' || is_digit(#[trigger] number[k]),
        mark == 'e' || mark == 'E',
    ensures
        ({
            let text = number + seq![mark] + exponent;
            &&& in_lower(text) != "nan"@
            &&& in_lower(text) != "inf"@
            &&& in_lower(text) != "infinity"@
            &&& exponent_mark(text) == Some(number.len() as int)
            &&& text.take(number.len() as int) == number
            &&& text.skip(number.len() as int + 1) == exponent
        }),
{
    let text = number + seq![mark] + exponent;
    let lower = in_lower(text);
    let at = number.len() as int;
    reveal_strlit("nan");
    reveal_strlit("inf");
    reveal_strlit("infinity");
    assert forall|k: int| 0 <= k < at implies lower[k] != 'e' by {
        assert(text[k] == number[k]);
        assert(is_digit(number[k]) || number[k] == '.');
    }
    assert(text[0] == number[0]);
    assert(is_digit(number[0]) || number[0] == '.');
    assert(lower[0] == text[0]);
    assert(text[at] == mark);
    assert(lower[at] == 'e');
    lemma_find_char(lower, 'e', 0);
    assert(find_char(lower, 'e') == Some(at));
    assert(text.take(at) =~= number);
    assert(text.skip(at + 1) =~= exponent);
}

/// The words for infinity and for what is no number are read in letters of any case. Infinity is
/// the largest or, with a minus sign, the smallest integer of 32 bits, what is no number is zero,
/// and every number stays between the two.
pub proof fn numbers_are_cut_to_32_bits(text: Seq<char>, number: Written)
    ensures
        in_lower(text) == "inf"@ || in_lower(text) == "infinity"@ ==> size_of(text) == Some(
            Size::Infinite,
        ),
        in_lower(text) == "nan"@ ==> size_of(text) == Some(Size::NotANumber),
        -0x8000_0000 <= cut_to_int(number) <= 0x7fff_ffff,
        number.size is Infinite && !number.negative ==> cut_to_int(number) == 0x7fff_ffff,
        number.size is Infinite && number.negative ==> cut_to_int(number) == -0x8000_0000,
        number.size is NotANumber ==> cut_to_int(number) == 0,
        number.size matches Size::Finite(digits, point) ==> {
            let whole = whole_double(digits, point) as int;
            &&& !number.negative && whole <= 0x7fff_ffff ==> cut_to_int(number) == whole
            &&& !number.negative && whole > 0x7fff_ffff ==> cut_to_int(number) == 0x7fff_ffff
            &&& number.negative && whole <= 0x8000_0000 ==> cut_to_int(number) == -whole
            &&& number.negative && whole > 0x8000_0000 ==> cut_to_int(number) == -0x8000_0000
        },
{
    reveal_strlit("nan");
    reveal_strlit("inf");
    reveal_strlit("infinity");
    assert("nan"@[0] == 'n' && "inf"@[0] == 'i' && "infinity"@[0] == 'i');
}

/// A number with its point behind all of its digits is a whole one, with as many zeros as there are
/// places between; one with its point before all of them, and at least one zero between, is cut to
/// zero.
pub proof fn a_point_outside_adds_zeros(digits: Seq<char>, point: int)
    requires
        all_digits(digits),
    ensures
        point >= digits.len() ==> whole_double(digits, point) == digits_value(digits) * ten_to(
            (point - digits.len()) as nat,
        ),
        point < 0 ==> whole_double(digits, point) == 0,
{
    if point >= digits.len() {
        let numerator = digits_value(digits) * ten_to((point - digits.len()) as nat);
        let scale = doublings(numerator, 0x10_0000_0000_0000 * 1);
        let unit = pow2(scale);
        lemma_pow2_pos(scale);
        let scaled = numerator * unit;
        assert(ten_to(0) == 1);
        if point == digits.len() {
            assert(digits_value(digits) * 1 == digits_value(digits));
        }
        assert(nearest_even(scaled, 1) == scaled);
        lemma_fundamental_div_mod_converse(scaled as int, unit as int, numerator as int, 0);
        assert(scaled / unit == numerator);
    }
    if point < 0 {
        let numerator = digits_value(digits) * ten_to(0);
        let denominator = ten_to((digits.len() - point) as nat);
        lemma_digits_bound(digits);
        assert(numerator == digits_value(digits)) by {
            assert(ten_to(0) == 1);
            assert(digits_value(digits) * 1 == digits_value(digits));
        }
        lemma_ten_to_adds(digits.len(), (-point) as nat);
        lemma_ten_to_adds((-point - 1) as nat, 0);
        assert(ten_to((-point) as nat) == 10 * ten_to((-point - 1) as nat));
        let more = ten_to((-point) as nat);
        assert(10 * numerator <= denominator) by (nonlinear_arith)
            requires
                denominator == ten_to(digits.len()) * more,
                more >= 10,
                numerator < ten_to(digits.len()),
        ;
        let scale = doublings(numerator, 0x10_0000_0000_0000 * denominator);
        let unit = pow2(scale);
        lemma_pow2_pos(scale);
        let scaled = numerator * unit;
        let nearest = nearest_even(scaled, denominator);
        lemma_ten_to_adds((digits.len() - point) as nat, 0);
        rounding_goes_to_the_nearest(scaled, denominator);
        assert(nearest < unit) by (nonlinear_arith)
            requires
                scaled == numerator * unit,
                10 * numerator <= denominator,
                2 * (scaled - nearest * denominator) >= -denominator,
                denominator > 0,
                unit >= 1,
        ;
        assert(nearest / unit == 0) by (nonlinear_arith)
            requires
                nearest < unit,
                nearest >= 0,
        ;
    }
}

/// A percentage from none to one hundred is reported as it is, and a line that states none reports
/// nothing.
pub proof fn a_percentage_is_reported_as_it_is(line: Seq<char>)
    ensures
        stated_percent(line) is None <==> shown_percent(line) is None,
        stated_percent(line) matches Some(percent) ==> 0 <= percent <= 255 ==> shown_percent(line)
            == Some(percent),
        shown_percent(line) matches Some(shown) ==> 0 <= shown <= 255,
{
}

} // verus!
