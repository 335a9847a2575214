//! Numbers as text: decimal and hexadecimal digits, durations, view counts, bit rates.

use crate::text::chars_of;
use vstd::arithmetic::div_mod::{lemma_div_is_ordered_by_denominator, lemma_fundamental_div_mod};
use vstd::arithmetic::power2::{lemma2_to64, lemma_pow2_unfold, pow2};
use vstd::prelude::*;

verus! {

/// The character of a digit below sixteen, letters in lower case.
pub open spec fn digit_char(digit: int) -> char {
    if digit < 10 {
        (48 + digit) as char
    } else {
        (87 + digit) as char
    }
}

/// `number` in decimal, without leading zeros.
pub open spec fn decimal_text(number: nat) -> Seq<char>
    decreases number,
{
    if number < 10 {
        seq![digit_char(number as int)]
    } else {
        decimal_text(number / 10).push(digit_char((number % 10) as int))
    }
}

/// `number` in decimal, with a minus sign where it is negative.
pub open spec fn signed_text(number: int) -> Seq<char> {
    if number < 0 {
        seq!['-'] + decimal_text((-number) as nat)
    } else {
        decimal_text(number as nat)
    }
}

/// `number` in decimal, with a leading zero where it has one digit.
pub open spec fn two_digit_text(number: nat) -> Seq<char> {
    if number < 10 {
        seq!['0'] + decimal_text(number)
    } else {
        decimal_text(number)
    }
}

/// The last `width` hexadecimal digits of `number`.
pub open spec fn hex_text(number: nat, width: nat) -> Seq<char>
    decreases width,
{
    if width == 0 {
        Seq::empty()
    } else {
        hex_text(number / 16, (width - 1) as nat).push(digit_char((number % 16) as int))
    }
}

/// `ch` is a decimal digit.
pub open spec fn is_digit(ch: char) -> bool {
    '0' <= ch && ch <= '9'
}

/// Every character of `text` is a decimal digit.
pub open spec fn all_digits(text: Seq<char>) -> bool {
    forall|i: int| 0 <= i < text.len() ==> is_digit(#[trigger] text[i])
}

/// The number that a run of decimal digits stands for.
pub open spec fn digits_value(text: Seq<char>) -> nat
    decreases text.len(),
{
    if text.len() == 0 {
        0
    } else {
        digits_value(text.drop_last()) * 10 + (text.last() as nat - 48) as nat
    }
}

/// `text` without one plus sign at its start.
pub open spec fn unsigned_digits(text: Seq<char>) -> Seq<char> {
    if text.len() > 0 && text[0] == '+' {
        text.drop_first()
    } else {
        text
    }
}

/// The number that `text` states: decimal digits, at least one, after an optional plus sign;
/// nothing where `text` is anything else or the number is above `max`.
pub open spec fn parsed_unsigned(text: Seq<char>, max: nat) -> Option<nat> {
    let digits = unsigned_digits(text);
    if digits.len() > 0 && all_digits(digits) && digits_value(digits) <= max {
        Some(digits_value(digits))
    } else {
        None
    }
}

/// The character of a digit below sixteen.
pub fn digit_of(digit: u8) -> (ch: char)
    requires
        digit < 16,
    ensures
        ch == digit_char(digit as int),
{
    if digit < 10 {
        (48 + digit) as char
    } else {
        (87 + digit) as char
    }
}

/// Appends `number` in decimal.
pub fn push_decimal(text: &mut String, number: u64)
    ensures
        final(text)@ == old(text)@ + decimal_text(number as nat),
    decreases number,
{
    if number >= 10 {
        push_decimal(text, number / 10);
    }
    text.push(digit_of((number % 10) as u8));
    assert(text@ =~= old(text)@ + decimal_text(number as nat));
}

/// `number` in decimal.
pub fn decimal(number: u64) -> (text: String)
    ensures
        text@ == decimal_text(number as nat),
{
    let mut text = String::new();
    push_decimal(&mut text, number);
    assert(text@ =~= decimal_text(number as nat));
    text
}

/// `number` in decimal, with a minus sign where it is negative.
pub fn signed_decimal(number: i32) -> (text: String)
    ensures
        text@ == signed_text(number as int),
{
    let mut text = String::new();
    if number < 0 {
        text.push('-');
        push_decimal(&mut text, (-(number as i64)) as u64);
        assert(text@ =~= signed_text(number as int));
    } else {
        push_decimal(&mut text, number as u64);
        assert(text@ =~= signed_text(number as int));
    }
    text
}

/// Appends `number` in decimal, with a leading zero where it has one digit.
pub fn push_two_digits(text: &mut String, number: u64)
    ensures
        final(text)@ == old(text)@ + two_digit_text(number as nat),
{
    if number < 10 {
        text.push('0');
    }
    push_decimal(text, number);
    assert(text@ =~= old(text)@ + two_digit_text(number as nat));
}

/// Appends the last `width` hexadecimal digits of `number`.
pub fn push_hex(text: &mut String, number: u64, width: u8)
    ensures
        final(text)@ == old(text)@ + hex_text(number as nat, width as nat),
    decreases width,
{
    if width > 0 {
        push_hex(text, number / 16, width - 1);
        text.push(digit_of((number % 16) as u8));
    }
    assert(text@ =~= old(text)@ + hex_text(number as nat, width as nat));
}

/// A longer run of digits stands for at least as large a number.
pub proof fn lemma_digits_value_grows(text: Seq<char>, length: int)
    requires
        0 <= length <= text.len(),
    ensures
        digits_value(text.take(length)) <= digits_value(text),
    decreases text.len() - length,
{
    if length < text.len() {
        lemma_digits_value_grows(text, length + 1);
        assert(text.take(length + 1).drop_last() =~= text.take(length));
    } else {
        assert(text.take(length) =~= text);
    }
}

/// The number that `text` states, where it is at most `max`.
pub fn parse_unsigned(text: &str, max: u64) -> (number: Option<u64>)
    ensures
        parsed_unsigned(text@, max as nat) == (match number {
            Some(value) => Some(value as nat),
            None => None,
        }),
{
    let chars = chars_of(text);
    let start: usize = if chars.len() > 0 && chars[0] == '+' {
        1
    } else {
        0
    };
    let ghost digits = unsigned_digits(text@);
    assert(digits =~= chars@.skip(start as int));
    if start == chars.len() {
        return None;
    }
    let mut value: u64 = 0;
    let mut i: usize = start;
    assert(digits.take(0) =~= Seq::empty());
    while i < chars.len()
        invariant
            start <= i <= chars.len(),
            digits == chars@.skip(start as int),
            digits == unsigned_digits(text@),
            value == digits_value(digits.take(i - start)),
            value <= max,
            forall|k: int| 0 <= k < i - start ==> is_digit(#[trigger] digits[k]),
        decreases chars.len() - i,
    {
        let ch = chars[i];
        assert(digits[i - start] == ch);
        if !('0' <= ch && ch <= '9') {
            assert(!is_digit(digits[i - start]));
            return None;
        }
        let digit: u64 = (ch as u8 - 48) as u64;
        assert(digits.take(i + 1 - start).drop_last() =~= digits.take(i - start));
        assert(digits_value(digits.take(i + 1 - start)) == value * 10 + digit);
        if value > (u64::MAX - digit) / 10 || value * 10 + digit > max {
            proof {
                lemma_digits_value_grows(digits, i + 1 - start);
            }
            return None;
        }
        value = value * 10 + digit;
        i = i + 1;
    }
    assert(digits.take(i - start) =~= digits);
    Some(value)
}

/// `total` seconds as minutes and seconds, with hours before them where there are any.
pub open spec fn clock_text(total: nat) -> Seq<char> {
    let hours = total / 3600;
    let minutes = (total % 3600) / 60;
    let seconds = total % 60;
    if hours > 0 {
        two_digit_text(hours) + seq![':'] + two_digit_text(minutes) + seq![':'] + two_digit_text(
            seconds,
        )
    } else {
        two_digit_text(minutes) + seq![':'] + two_digit_text(seconds)
    }
}

/// What a duration stated in seconds is shown as; a text that states no number stays as it is.
pub open spec fn duration_text(seconds: Seq<char>) -> Seq<char> {
    match parsed_unsigned(seconds, u64::MAX as nat) {
        Some(total) => clock_text(total),
        None => seconds,
    }
}

/// A duration in seconds as `MM:SS`, or `HH:MM:SS` from one hour on.
pub fn format_duration(secs: &str) -> (text: String)
    ensures
        text@ == duration_text(secs@),
{
    match parse_unsigned(secs, u64::MAX) {
        Some(total) => {
            let hours: u64 = total / 3600;
            let minutes: u64 = (total % 3600) / 60;
            let seconds: u64 = total % 60;
            let mut text = String::new();
            if hours > 0 {
                push_two_digits(&mut text, hours);
                text.push(':');
            }
            push_two_digits(&mut text, minutes);
            text.push(':');
            push_two_digits(&mut text, seconds);
            assert(text@ =~= clock_text(total as nat));
            text
        },
        None => secs.to_owned(),
    }
}

/// `digits` with a space before each group of three, counted from the right.
pub open spec fn grouped(digits: Seq<char>) -> Seq<char>
    decreases digits.len(),
{
    if digits.len() <= 3 {
        digits
    } else {
        grouped(digits.take(digits.len() - 3)) + seq![' '] + digits.skip(digits.len() - 3)
    }
}

/// What a count is shown as; a text that states no number stays as it is.
pub open spec fn number_text(count: Seq<char>) -> Seq<char> {
    match parsed_unsigned(count, u64::MAX as nat) {
        Some(number) => grouped(decimal_text(number)),
        None => count,
    }
}

/// Appends `digits[..end]` in groups of three.
fn push_grouped(text: &mut String, digits: &Vec<char>, end: usize)
    requires
        end <= digits.len(),
    ensures
        final(text)@ == old(text)@ + grouped(digits@.take(end as int)),
    decreases end,
{
    let ghost part = digits@.take(end as int);
    if end <= 3 {
        let mut i: usize = 0;
        while i < end
            invariant
                i <= end <= digits.len(),
                text@ == old(text)@ + digits@.take(i as int),
            decreases end - i,
        {
            text.push(digits[i]);
            assert(text@ =~= old(text)@ + digits@.take(i + 1));
            i = i + 1;
        }
    } else {
        push_grouped(text, digits, end - 3);
        assert(part.take(end - 3) =~= digits@.take(end - 3));
        text.push(' ');
        text.push(digits[end - 3]);
        text.push(digits[end - 2]);
        text.push(digits[end - 1]);
        assert(text@ =~= old(text)@ + grouped(part));
    }
}

/// A count with a space between each three digits.
pub fn format_number(s: &str) -> (text: String)
    ensures
        text@ == number_text(s@),
{
    match parse_unsigned(s, u64::MAX) {
        Some(number) => {
            let plain = decimal(number);
            let digits = chars_of(plain.as_str());
            let mut text = String::new();
            push_grouped(&mut text, &digits, digits.len());
            assert(digits@.take(digits@.len() as int) =~= digits@);
            assert(text@ =~= number_text(s@));
            text
        },
        None => s.to_owned(),
    }
}

/// The integer nearest to `numerator / denominator`; of two that are equally near, the even one.
pub open spec fn nearest_even(numerator: nat, denominator: nat) -> nat {
    let below = numerator / denominator;
    let rest = numerator % denominator;
    if 2 * rest < denominator || (2 * rest == denominator && below % 2 == 0) {
        below
    } else {
        below + 1
    }
}

/// How often `value` has to be doubled to reach `bound`.
pub open spec fn doublings(value: nat, bound: nat) -> nat
    decreases
        if value < bound {
            (bound - value) as nat
        } else {
            0
        },
{
    if value == 0 || value >= bound {
        0
    } else {
        1 + doublings(2 * value, bound)
    }
}

/// A positive integer below 2^64 rounded to the 53 significant bits of a double.
pub open spec fn double_of(number: nat) -> nat {
    let excess = doublings(1, number / 0x20_0000_0000_0000 + 1);
    nearest_even(number, pow2(excess)) * pow2(excess)
}

/// One hundredth parts of `number / divisor`, where both roundings happen that arithmetic on
/// doubles makes: of the quotient to 53 significant bits, and of that to hundredths. A quotient
/// that lies exactly between two candidates goes to the even one.
pub open spec fn quotient_hundredths(number: nat, divisor: nat) -> nat {
    let scale = doublings(number, 0x10_0000_0000_0000 * divisor);
    let significand = nearest_even(number * pow2(scale), divisor);
    nearest_even(significand * 100, pow2(scale))
}

/// What a bit rate is shown as: megabits with two decimals from one megabit on, whole kilobits
/// below that.
pub open spec fn bitrate_text(bitrate: nat) -> Seq<char> {
    if bitrate == 0 {
        "Bitrate unknown"@
    } else if bitrate >= 1_000_000 {
        let hundredths = quotient_hundredths(double_of(bitrate), 1_000_000);
        decimal_text(hundredths / 100) + seq!['.'] + two_digit_text(hundredths % 100) + " Mbps"@
    } else {
        decimal_text(nearest_even(bitrate, 1000)) + " kbps"@
    }
}

/// The integer nearest to a quotient; of two that are equally near, the even one.
fn round_quotient(numerator: u128, denominator: u128) -> (nearest: u128)
    requires
        0 < denominator,
        numerator < 0x8000_0000_0000_0000_0000_0000_0000_0000,
        denominator < 0x4000_0000_0000_0000_0000_0000_0000_0000,
    ensures
        nearest == nearest_even(numerator as nat, denominator as nat),
{
    let below: u128 = numerator / denominator;
    let rest: u128 = numerator % denominator;
    if 2 * rest < denominator || (2 * rest == denominator && below % 2 == 0) {
        below
    } else {
        below + 1
    }
}

/// An integer rounded to the 53 significant bits of a double.
fn to_double(number: u64) -> (rounded: u128)
    ensures
        rounded == double_of(number as nat),
        rounded < 0x2_0000_0000_0000_0000,
        number >= 1 ==> rounded >= 1,
{
    let bound: u128 = (number / 0x20_0000_0000_0000) as u128 + 1;
    let mut unit: u128 = 1;
    let ghost mut excess: nat = 0;
    proof {
        lemma2_to64();
    }
    while unit < bound
        invariant
            unit == pow2(excess),
            1 <= unit,
            unit == 1 || unit < 2 * bound,
            1 <= bound <= 2048,
            doublings(1, bound as nat) == excess + doublings(unit as nat, bound as nat),
        decreases 2 * bound - unit,
    {
        proof {
            lemma_pow2_unfold(excess + 1);
            excess = excess + 1;
        }
        unit = unit * 2;
    }
    let nearest = round_quotient(number as u128, unit);
    proof {
        let below = number as int / unit as int;
        assert(number as int == unit * below + number as int % unit as int) by {
            lemma_fundamental_div_mod(number as int, unit as int);
        }
        assert(nearest * unit <= number + unit && nearest * unit + unit > number)
            by (nonlinear_arith)
            requires
                number as int == unit * below + number as int % unit as int,
                0 <= number as int % unit as int,
                number as int % (unit as int) < unit,
                nearest == below || nearest == below + 1,
                unit >= 1,
        ;
        assert(unit == 1 ==> nearest * unit == number);
    }
    nearest * unit
}

/// One hundredth parts of a quotient, rounded as arithmetic on doubles rounds it.
fn millionth_hundredths(number: u128) -> (hundredths: u128)
    requires
        0 < number < 0x2_0000_0000_0000_0000,
    ensures
        hundredths == quotient_hundredths(number as nat, 1_000_000),
        hundredths < 0x2000_0000_0000_0000,
{
    let bound: u128 = 0x10_0000_0000_0000 * 1_000_000;
    let mut scaled: u128 = number;
    let mut unit: u128 = 1;
    let ghost mut scale: nat = 0;
    proof {
        lemma2_to64();
    }
    while scaled < bound
        invariant
            unit == pow2(scale),
            1 <= unit,
            scaled == number * unit,
            0 < number < 0x2_0000_0000_0000_0000,
            bound == 0x10_0000_0000_0000 * 1_000_000,
            unit == 1 || scaled < 2 * bound,
            doublings(number as nat, bound as nat) == scale + doublings(scaled as nat, bound as nat),
        decreases 2 * bound - scaled,
    {
        assert(unit <= scaled) by (nonlinear_arith)
            requires
                scaled == number * unit,
                0 < number,
        ;
        proof {
            lemma_pow2_unfold(scale + 1);
            scale = scale + 1;
            assert(number * (unit * 2) == scaled * 2) by (nonlinear_arith)
                requires
                    scaled == number * unit,
            ;
        }
        scaled = scaled * 2;
        unit = unit * 2;
    }
    assert(unit <= scaled) by (nonlinear_arith)
        requires
            scaled == number * unit,
            0 < number,
    ;
    let significand = round_quotient(scaled, 1_000_000);
    let hundredths = round_quotient(significand * 100, unit);
    assert(hundredths <= significand * 100 + 1) by {
        lemma_div_is_ordered_by_denominator(significand * 100, 1, unit as int);
    }
    hundredths
}

/// A bit rate for display.
pub fn format_bitrate(bitrate: u64) -> (text: String)
    ensures
        text@ == bitrate_text(bitrate as nat),
{
    if bitrate == 0 {
        return "Bitrate unknown".to_owned();
    }
    let mut text = String::new();
    if bitrate >= 1_000_000 {
        let hundredths = millionth_hundredths(to_double(bitrate));
        push_decimal(&mut text, (hundredths / 100) as u64);
        text.push('.');
        push_two_digits(&mut text, (hundredths % 100) as u64);
        text.append(" Mbps");
    } else {
        push_decimal(&mut text, round_quotient(bitrate as u128, 1000) as u64);
        text.append(" kbps");
    }
    assert(text@ =~= bitrate_text(bitrate as nat));
    text
}

/// The decimal text of a number is made of digits, and states that number.
pub proof fn decimal_reads_back(number: nat, max: nat)
    requires
        number <= max,
    ensures
        parsed_unsigned(decimal_text(number), max) == Some(number),
{
    lemma_decimal(number);
}

/// The decimal text of a number: digits, at least one, that stand for it.
pub proof fn lemma_decimal(number: nat)
    ensures
        decimal_text(number).len() > 0,
        all_digits(decimal_text(number)),
        digits_value(decimal_text(number)) == number,
        number < 10 ==> decimal_text(number).len() == 1,
        10 <= number < 100 ==> decimal_text(number).len() == 2,
        unsigned_digits(decimal_text(number)) == decimal_text(number),
    decreases number,
{
    let text = decimal_text(number);
    if number < 10 {
        assert(text.drop_last() =~= Seq::empty());
        assert(digits_value(text.drop_last()) == 0);
    } else {
        lemma_decimal(number / 10);
        let shorter = decimal_text(number / 10);
        assert(text.drop_last() =~= shorter);
        assert forall|i: int| 0 <= i < text.len() implies is_digit(#[trigger] text[i]) by {
            if i < shorter.len() {
                assert(text[i] == shorter[i]);
            }
        }
    }
    assert(is_digit(text[0]));
}

proof fn lemma_two_digits(number: nat)
    ensures
        digits_value(two_digit_text(number)) == number,
        two_digit_text(number).len() >= 2,
        number < 100 ==> two_digit_text(number).len() == 2,
        all_digits(two_digit_text(number)),
{
    lemma_decimal(number);
    let text = two_digit_text(number);
    if number < 10 {
        let plain = decimal_text(number);
        assert(text =~= seq!['0', plain[0]]);
        assert(text.drop_last() =~= seq!['0']);
        assert(seq!['0'].drop_last() =~= Seq::empty());
        assert(digits_value(Seq::empty()) == 0);
        assert(digits_value(seq!['0']) == 0);
        assert(plain.drop_last() =~= Seq::empty());
        assert(is_digit(plain[0]));
    } else {
        lemma_decimal_grows(number);
    }
}

proof fn lemma_decimal_grows(number: nat)
    requires
        number >= 10,
    ensures
        decimal_text(number).len() >= 2,
{
    lemma_decimal(number / 10);
}

/// Durations are shown alike only if they are the same.
pub proof fn clock_tells_durations_apart(left: nat, right: nat)
    requires
        clock_text(left) == clock_text(right),
    ensures
        left == right,
{
    let text = clock_text(left);
    lemma_clock(left);
    lemma_clock(right);
    if left >= 3600 && right >= 3600 {
        let end = text.len() - 6;
        assert(two_digit_text(left / 3600) =~= text.take(end));
        assert(two_digit_text(right / 3600) =~= text.take(end));
    }
}

proof fn lemma_clock(total: nat)
    ensures
        ({
            let text = clock_text(total);
            let length = text.len() as int;
            &&& length >= 5
            &&& digits_value(text.skip(length - 2)) == total % 60
            &&& digits_value(text.subrange(length - 5, length - 3)) == (total % 3600) / 60
            &&& if total >= 3600 {
                &&& length >= 8
                &&& text.take(length - 6) == two_digit_text(total / 3600)
                &&& digits_value(text.take(length - 6)) == total / 3600
            } else {
                length == 5
            }
        }),
{
    let text = clock_text(total);
    let length = text.len() as int;
    lemma_two_digits(total / 3600);
    lemma_two_digits((total % 3600) / 60);
    lemma_two_digits(total % 60);
    assert(text.skip(length - 2) =~= two_digit_text(total % 60));
    assert(text.subrange(length - 5, length - 3) =~= two_digit_text((total % 3600) / 60));
    if total >= 3600 {
        assert(text.take(length - 6) =~= two_digit_text(total / 3600));
    }
}

/// `text` without its spaces.
pub open spec fn without_spaces(text: Seq<char>) -> Seq<char>
    decreases text.len(),
{
    if text.len() == 0 {
        Seq::empty()
    } else if text.last() == ' ' {
        without_spaces(text.drop_last())
    } else {
        without_spaces(text.drop_last()).push(text.last())
    }
}

/// Grouping adds spaces to a number and changes nothing else.
pub proof fn grouping_keeps_the_digits(number: nat)
    ensures
        without_spaces(grouped(decimal_text(number))) == decimal_text(number),
{
    lemma_decimal(number);
    lemma_grouped(decimal_text(number));
}

proof fn lemma_grouped(digits: Seq<char>)
    requires
        all_digits(digits),
    ensures
        without_spaces(grouped(digits)) == digits,
    decreases digits.len(),
{
    if digits.len() <= 3 {
        lemma_no_spaces(digits);
    } else {
        let head = digits.take(digits.len() - 3);
        let tail = digits.skip(digits.len() - 3);
        assert forall|i: int| 0 <= i < tail.len() implies is_digit(#[trigger] tail[i]) by {
            assert(tail[i] == digits[digits.len() - 3 + i]);
        }
        lemma_grouped(head);
        lemma_no_spaces(tail);
        lemma_without_spaces_joins(grouped(head), seq![' ']);
        lemma_without_spaces_joins(grouped(head) + seq![' '], tail);
        assert(seq![' '].drop_last() =~= Seq::empty());
        assert(without_spaces(Seq::<char>::empty()) =~= Seq::empty());
        assert(without_spaces(seq![' ']) == Seq::<char>::empty());
        assert(head + Seq::empty() + tail =~= digits);
    }
}

proof fn lemma_no_spaces(digits: Seq<char>)
    requires
        all_digits(digits),
    ensures
        without_spaces(digits) == digits,
    decreases digits.len(),
{
    if digits.len() > 0 {
        assert(is_digit(digits[digits.len() - 1]));
        assert forall|i: int| 0 <= i < digits.drop_last().len() implies is_digit(
            #[trigger] digits.drop_last()[i],
        ) by {
            assert(digits.drop_last()[i] == digits[i]);
        }
        lemma_no_spaces(digits.drop_last());
        assert(digits =~= digits.drop_last().push(digits.last()));
    }
}

proof fn lemma_without_spaces_joins(left: Seq<char>, right: Seq<char>)
    ensures
        without_spaces(left + right) == without_spaces(left) + without_spaces(right),
    decreases right.len(),
{
    if right.len() == 0 {
        assert(left + right =~= left);
        assert(without_spaces(left) + Seq::empty() =~= without_spaces(left));
    } else {
        lemma_without_spaces_joins(left, right.drop_last());
        assert((left + right).drop_last() =~= left + right.drop_last());
        assert((left + right).last() == right.last());
        assert(without_spaces(left + right) =~= without_spaces(left) + without_spaces(right));
    }
}

/// A number is written digit by digit: those of a tenth of it, then its last one, without zeros
/// before them.
pub proof fn a_number_is_written_digit_by_digit(tenth: nat, digit: nat)
    requires
        digit < 10,
    ensures
        decimal_text(digit).len() == 1,
        decimal_text(digit)[0] as u32 == '0' as u32 + digit,
        tenth > 0 ==> decimal_text(10 * tenth + digit) == decimal_text(tenth)
            + decimal_text(digit),
{
    let number = 10 * tenth + digit;
    if tenth > 0 {
        assert(number / 10 == tenth && number % 10 == digit);
        assert(decimal_text(number) =~= decimal_text(tenth) + decimal_text(digit));
    }
}

/// A number is read digit by digit, with or without one plus sign before it. Anything else is no
/// number, nor is one that is too large.
pub proof fn a_number_is_read_digit_by_digit(text: Seq<char>, digit: char, value: nat, max: nat)
    requires
        '0' <= digit <= '9',
        text.len() > 0 ==> is_digit(text[0]),
        text.len() == 0 ==> value == 0,
        text.len() > 0 ==> parsed_unsigned(text, value) == Some(value),
    ensures
        ({
            let more = 10 * value + (digit as u32 - '0' as u32);
            &&& more <= max ==> parsed_unsigned(text.push(digit), max) == Some(more as nat)
            &&& more > max ==> parsed_unsigned(text.push(digit), max) is None
        }),
        parsed_unsigned(seq!['+'] + text.push(digit), max) == parsed_unsigned(
            text.push(digit),
            max,
        ),
{
    let longer = text.push(digit);
    assert(longer.drop_last() =~= text);
    assert(longer[0] == (if text.len() > 0 {
        text[0]
    } else {
        digit
    }));
    assert(unsigned_digits(longer) == longer);
    assert(digits_value(text) == value);
    assert(longer.last() == digit);
    assert(digits_value(longer) == 10 * value + (digit as nat - 48));
    assert((seq!['+'] + longer).drop_first() =~= longer);
    assert forall|i: int| 0 <= i < longer.len() implies is_digit(#[trigger] longer[i]) by {
        if i < text.len() {
            assert(is_digit(text[i]));
        }
    }
}

/// What holds anything but digits behind a plus sign, or none, is no number.
pub proof fn only_digits_are_a_number(text: Seq<char>, at: int, max: nat)
    requires
        0 <= at < text.len(),
        !('0' <= text[at] <= '9'),
        at == 0 ==> text[0] != '+' || text.len() == 1,
    ensures
        parsed_unsigned(text, max) is None,
        parsed_unsigned(Seq::empty(), max) is None,
{
    let digits = unsigned_digits(text);
    if text[0] == '+' {
        if at > 0 {
            assert(digits[at - 1] == text[at]);
            assert(!is_digit(digits[at - 1]));
        }
    } else {
        assert(!is_digit(digits[at]));
    }
}

/// A duration is shown as hours, minutes and seconds, with a colon between them and two digits for
/// each; without the hours where there are none. A text that states no number is shown as it is.
pub proof fn a_clock_shows_hours_minutes_and_seconds(
    hours: nat,
    minutes: nat,
    seconds: nat,
    text: Seq<char>,
)
    requires
        minutes < 60,
        seconds < 60,
    ensures
        ({
            let shown = clock_text(3600 * hours + 60 * minutes + seconds);
            let end = shown.len() as int;
            &&& end >= 5
            &&& all_digits(shown.skip(end - 2)) && digits_value(shown.skip(end - 2)) == seconds
            &&& shown[end - 3] == ':'
            &&& all_digits(shown.subrange(end - 5, end - 3)) && digits_value(
                shown.subrange(end - 5, end - 3),
            ) == minutes
            &&& hours == 0 ==> end == 5
            &&& hours > 0 ==> {
                &&& end >= 8
                &&& shown[end - 6] == ':'
                &&& all_digits(shown.take(end - 6)) && digits_value(shown.take(end - 6)) == hours
                &&& hours < 100 ==> end == 8
                &&& hours >= 100 ==> shown[0] != '0'
            }
        }),
        parsed_unsigned(text, u64::MAX as nat) is None ==> duration_text(text) == text,
        parsed_unsigned(text, u64::MAX as nat) == Some(3600 * hours + 60 * minutes + seconds)
            ==> duration_text(text) == clock_text(3600 * hours + 60 * minutes + seconds),
{
    let total = 3600 * hours + 60 * minutes + seconds;
    assert(total / 3600 == hours);
    assert(total % 3600 == 60 * minutes + seconds);
    assert((60 * minutes + seconds) / 60 == minutes);
    assert(total % 60 == seconds);
    lemma_clock(total);
    lemma_two_digits(hours);
    lemma_two_digits(minutes);
    lemma_two_digits(seconds);
    let shown = clock_text(total);
    let end = shown.len() as int;
    assert(shown.skip(end - 2) =~= two_digit_text(seconds));
    assert(shown.subrange(end - 5, end - 3) =~= two_digit_text(minutes));
    assert(shown[end - 3] == ':');
    if hours > 0 {
        assert(shown.take(end - 6) =~= two_digit_text(hours));
        assert(shown[end - 6] == ':');
        if hours >= 100 {
            lemma_decimal_first(hours);
            assert(shown[0] == decimal_text(hours)[0]);
        }
    }
}

proof fn lemma_decimal_first(number: nat)
    requires
        number > 0,
    ensures
        decimal_text(number).len() > 0,
        decimal_text(number)[0] != '0',
    decreases number,
{
    if number >= 10 {
        lemma_decimal_first(number / 10);
    }
}

/// A count is shown with a space before each three digits from the right, and nowhere else. A text
/// that states no number is shown as it is.
pub proof fn a_count_is_grouped_from_the_right(count: Seq<char>, i: int)
    ensures
        parsed_unsigned(count, u64::MAX as nat) is None ==> number_text(count) == count,
        parsed_unsigned(count, u64::MAX as nat) is Some ==> {
            let shown = number_text(count);
            &&& without_spaces(shown) == decimal_text(parsed_unsigned(count, u64::MAX as nat)->0)
            &&& 0 <= i < shown.len() ==> (shown[i] == ' ' <==> (shown.len() - i) % 4 == 0)
        },
{
    if let Some(number) = parsed_unsigned(count, u64::MAX as nat) {
        grouping_keeps_the_digits(number);
        lemma_decimal(number);
        lemma_group_places(decimal_text(number), i);
    }
}

proof fn lemma_group_places(digits: Seq<char>, i: int)
    requires
        all_digits(digits),
    ensures
        0 <= i < grouped(digits).len() ==> (grouped(digits)[i] == ' ' <==> (grouped(digits).len()
            - i) % 4 == 0),
    decreases digits.len(),
{
    let shown = grouped(digits);
    if digits.len() <= 3 {
        if 0 <= i < shown.len() {
            assert(is_digit(digits[i]));
        }
    } else {
        let head = digits.take(digits.len() - 3);
        let tail = digits.skip(digits.len() - 3);
        lemma_group_places(head, i);
        let start = grouped(head).len() as int;
        assert(shown.len() == start + 4);
        if 0 <= i < start {
            assert(shown[i] == grouped(head)[i]);
        } else if i == start {
            assert(shown[i] == ' ');
        } else if i < shown.len() && i >= 0 {
            assert(shown[i] == tail[i - start - 1]);
            assert(is_digit(digits[digits.len() - 3 + i - start - 1]));
        }
    }
}

/// Rounding goes to the nearest integer, and to the even one where two are equally near.
pub proof fn rounding_goes_to_the_nearest(numerator: nat, denominator: nat)
    requires
        denominator > 0,
    ensures
        ({
            let off = 2 * (numerator - nearest_even(numerator, denominator) * denominator);
            &&& -denominator <= off <= denominator
            &&& off == denominator || off == -denominator ==> nearest_even(numerator, denominator)
                % 2 == 0
        }),
{
    let below = numerator / denominator;
    let rest = numerator % denominator;
    lemma_fundamental_div_mod(numerator as int, denominator as int);
    assert(below * denominator + rest == numerator && (below + 1) * denominator + rest
        == numerator + denominator) by (nonlinear_arith)
        requires
            numerator == denominator * below + rest,
    ;
}

/// A bit rate below a megabit is shown in whole kilobits, and one from a megabit on in hundredths
/// of a megabit; both are the nearest to it, as long as a double can hold it. No bit rate is shown
/// as unknown but zero.
pub proof fn a_bitrate_is_shown_to_the_nearest(bitrate: nat) -> (shown: nat)
    ensures
        bitrate == 0 <==> bitrate_text(bitrate) == "Bitrate unknown"@,
        0 < bitrate < 1_000_000 ==> {
            &&& bitrate_text(bitrate) == decimal_text(shown) + " kbps"@
            &&& -500 <= bitrate - 1000 * shown <= 500
        },
        1_000_000 <= bitrate ==> bitrate_text(bitrate) == decimal_text(shown / 100) + seq!['.']
            + two_digit_text(shown % 100) + " Mbps"@,
        1_000_000 <= bitrate < 0x20_0000_0000_0000 ==> -5000 <= bitrate - 10000 * shown <= 5000,
{
    reveal_strlit("Bitrate unknown");
    if bitrate == 0 {
        0
    } else if bitrate < 1_000_000 {
        rounding_goes_to_the_nearest(bitrate, 1000);
        lemma_decimal(nearest_even(bitrate, 1000));
        let text = decimal_text(nearest_even(bitrate, 1000));
        assert(bitrate_text(bitrate)[0] == text[0]);
        assert(is_digit(text[0]));
        assert("Bitrate unknown"@[0] == 'B');
        nearest_even(bitrate, 1000)
    } else {
        let hundredths = quotient_hundredths(double_of(bitrate), 1_000_000);
        lemma_decimal(hundredths / 100);
        let text = decimal_text(hundredths / 100);
        assert(bitrate_text(bitrate)[0] == text[0]);
        assert(is_digit(text[0]));
        assert("Bitrate unknown"@[0] == 'B');
        if bitrate < 0x20_0000_0000_0000 {
            lemma_double_holds(bitrate);
            lemma_hundredths(bitrate);
        }
        hundredths
    }
}

/// A double holds every integer below 2^53.
proof fn lemma_double_holds(number: nat)
    requires
        number < 0x20_0000_0000_0000,
    ensures
        double_of(number) == number,
{
    lemma2_to64();
    assert(number / 0x20_0000_0000_0000 == 0);
    assert(doublings(1, 1) == 0);
    assert(pow2(0) == 1);
    assert(nearest_even(number, 1) == number);
    assert(number * 1 == number);
}

/// A value that is doubled often enough reaches its bound.
proof fn lemma_doubled_enough(value: nat, bound: nat)
    requires
        value > 0,
    ensures
        value * pow2(doublings(value, bound)) >= bound,
    decreases
            if value < bound {
                (bound - value) as nat
            } else {
                0
            },
{
    lemma2_to64();
    if value >= bound {
        assert(value * 1 == value);
    } else {
        lemma_doubled_enough(2 * value, bound);
        let rest = doublings(2 * value, bound);
        lemma_pow2_unfold(rest + 1);
        assert((2 * value) * pow2(rest) == value * (2 * pow2(rest))) by (nonlinear_arith);
    }
}

proof fn lemma_hundredths(number: nat)
    requires
        0 < number < 0x20_0000_0000_0000,
    ensures
        -5000 <= number - 10000 * quotient_hundredths(number, 1_000_000) <= 5000,
{
    let bound: nat = 0x10_0000_0000_0000 * 1_000_000;
    let scale = doublings(number, bound);
    let unit = pow2(scale);
    lemma_doubled_enough(number, bound);
    assert(unit > 500_000) by (nonlinear_arith)
        requires
            number * unit >= 0x10_0000_0000_0000 * 1_000_000,
            0 < number < 0x20_0000_0000_0000,
    ;
    let scaled = number * unit;
    let significand = nearest_even(scaled, 1_000_000);
    let hundredths = nearest_even(significand * 100, unit);
    rounding_goes_to_the_nearest(scaled, 1_000_000);
    rounding_goes_to_the_nearest(significand * 100, unit);
    assert(hundredths == quotient_hundredths(number, 1_000_000));
    let off = number - 10000 * hundredths;
    assert(off * unit == scaled - 10000 * (hundredths * unit)) by (nonlinear_arith)
        requires
            off == number - 10000 * hundredths,
            scaled == number * unit,
    ;
    assert(-5000 <= off <= 5000) by (nonlinear_arith)
        requires
            off * unit <= 5000 * unit + 500_000,
            off * unit >= -5000 * unit - 500_000,
            unit > 500_000,
    ;
}

/// A negative number has a minus sign before its digits, and no other does.
pub proof fn a_negative_number_has_a_minus_sign(number: nat)
    ensures
        signed_text(number as int) == decimal_text(number),
        number > 0 ==> signed_text(-(number as int)) == seq!['-'] + decimal_text(number),
{
}

} // verus!
