//! Epoch times: bare numbers, whole or decimal, of a unit since the Unix epoch.
//!
//! A number with a fraction is never rounded. It is counted in the coarsest
//! unit in which it is whole. In a column, all numbers are counted in the finest
//! unit that one of them needs.

use vstd::prelude::*;
use crate::text;
use crate::text::{
    chars_of, parse_i128, power_of_ten, push_decimal, push_digits, string_of, trim,
};
use crate::time::format::{
    fraction_to_decimal_digits, integer_error_words, number_of_digits, split_decimal, Reading,
    TimeUnit, Timestamp, TimestampFormat,
};
use crate::time::round_trip::{
    lemma_decimal_text_chars, lemma_exact_fraction, lemma_first_index_behind,
    lemma_trimmed_unchanged,
};

verus! {

/// How many decimal places behind the second a tick of the unit lies.
pub open spec fn places(unit: TimeUnit) -> nat {
    match unit {
        TimeUnit::Seconds => 0,
        TimeUnit::Milliseconds => 3,
        TimeUnit::Microseconds => 6,
        TimeUnit::Nanoseconds => 9,
        TimeUnit::Picoseconds => 12,
    }
}

pub(crate) fn places_of(unit: TimeUnit) -> (count: usize)
    ensures
        count == places(unit),
{
    match unit {
        TimeUnit::Seconds => 0,
        TimeUnit::Milliseconds => 3,
        TimeUnit::Microseconds => 6,
        TimeUnit::Nanoseconds => 9,
        TimeUnit::Picoseconds => 12,
    }
}

/// The coarsest unit in which a number of `unit` with so many decimal places is
/// whole, if any is fine enough.
pub open spec fn unit_for(unit: TimeUnit, digits: nat) -> Option<TimeUnit> {
    let wanted = places(unit) + digits;
    if wanted == 0 {
        Some(TimeUnit::Seconds)
    } else if wanted <= 3 {
        Some(TimeUnit::Milliseconds)
    } else if wanted <= 6 {
        Some(TimeUnit::Microseconds)
    } else if wanted <= 9 {
        Some(TimeUnit::Nanoseconds)
    } else if wanted <= 12 {
        Some(TimeUnit::Picoseconds)
    } else {
        None
    }
}

fn find_unit_for(unit: TimeUnit, digits: usize) -> (found: Option<TimeUnit>)
    ensures
        found == unit_for(unit, digits as nat),
{
    if digits > 12 {
        return None;
    }
    let wanted: usize = places_of(unit) + digits;
    if wanted == 0 {
        Some(TimeUnit::Seconds)
    } else if wanted <= 3 {
        Some(TimeUnit::Milliseconds)
    } else if wanted <= 6 {
        Some(TimeUnit::Microseconds)
    } else if wanted <= 9 {
        Some(TimeUnit::Nanoseconds)
    } else if wanted <= 12 {
        Some(TimeUnit::Picoseconds)
    } else {
        None
    }
}

/// The digits of a fraction without the zeros that they end with.
pub open spec fn significant(digits: Seq<char>) -> Seq<char>
    decreases digits.len(),
{
    if digits.len() > 0 && digits.last() == '0' {
        significant(digits.drop_last())
    } else {
        digits
    }
}

/// How many digits of a fraction stand before the zeros that it ends with.
fn count_significant(digits: &[char]) -> (count: usize)
    ensures
        count <= digits@.len(),
        significant(digits@) == digits@.take(count as int),
{
    let mut count: usize = digits.len();
    assert(digits@.take(count as int) == digits@);
    while count > 0 && digits[count - 1] == '0'
        invariant
            count <= digits@.len(),
            significant(digits@) == significant(digits@.take(count as int)),
        decreases count,
    {
        assert(digits@.take(count as int).drop_last() == digits@.take(count - 1));
        count = count - 1;
    }
    count
}

/// The number `whole` and a fraction behind it, counted in parts of which
/// `10` to the power of `shift` make a whole. In a negative number the fraction
/// leads away from zero as the whole does.
pub open spec fn scaled(whole: int, negative: bool, digits: Seq<char>, shift: nat) -> int {
    let rest = text::digits_value(digits) * text::pow10((shift - digits.len()) as nat);
    whole * text::pow10(shift) + (if negative {
        -rest
    } else {
        rest as int
    })
}

/// What a number of `unit` with the given digits behind the point reads as.
pub open spec fn fraction_reading(
    whole: int,
    negative: bool,
    digits: Seq<char>,
    unit: TimeUnit,
) -> Reading {
    match unit_for(unit, digits.len()) {
        Some(finer) => {
            let ticks = scaled(whole, negative, digits, (places(finer) - places(unit)) as nat);
            if i128::MIN <= ticks <= i128::MAX {
                Ok(Timestamp { ticks: ticks as i128, unit: finer, offset_seconds: None })
            } else {
                Err("number is out of range"@)
            }
        },
        None => Err("fraction is finer than a picosecond"@),
    }
}

/// What a bare number of `unit` since the epoch reads as. An integer, and a
/// decimal number whose fraction is zero, count ticks of the unit itself. Any
/// other decimal number counts ticks of the coarsest unit in which it is whole;
/// one that is finer than a picosecond is an error.
pub open spec fn epoch_reading(s: Seq<char>, unit: TimeUnit) -> Reading {
    let number = text::trimmed(s);
    match text::integer_of(number, i128::MIN as int, i128::MAX as int) {
        Ok(ticks) => Ok(Timestamp { ticks: ticks as i128, unit, offset_seconds: None }),
        Err(error) => match crate::time::format::decimal_parts(s) {
            Some((whole, fraction)) => fraction_reading(
                whole,
                number[0] == '-',
                significant(fraction),
                unit,
            ),
            None => Err(crate::time::format::integer_error_text(error)),
        },
    }
}

/// An integer with a minus is not positive, and one without is not negative.
proof fn lemma_sign(s: Seq<char>, min: int, max: int)
    requires
        min < 0,
        text::integer_of(s, min, max) is Ok,
    ensures
        s.len() > 0,
        s[0] == '-' ==> text::integer_of(s, min, max)->Ok_0 <= 0,
        s[0] != '-' ==> text::integer_of(s, min, max)->Ok_0 >= 0,
{
    if s[0] == '+' {
        text::lemma_scan_ok(s.skip(1), s.len() - 1, false, min, max);
    } else if s[0] == '-' {
        text::lemma_scan_ok(s.skip(1), s.len() - 1, true, min, max);
    } else {
        text::lemma_scan_ok(s, s.len() as int, false, min, max);
    }
}

/// Ten to the power of at most twelve.
proof fn lemma_small_powers()
    ensures
        text::pow10(0) == 1,
        text::pow10(3) == 1_000,
        text::pow10(6) == 1_000_000,
        text::pow10(9) == 1_000_000_000,
        text::pow10(12) == 1_000_000_000_000,
{
    reveal_with_fuel(text::pow10, 13);
}

/// The ticks of a number with a fraction, where they can be counted.
fn scale(whole: i128, negative: bool, digits: &[char], shift: usize) -> (ticks: Option<i128>)
    requires
        text::all_digits(digits@),
        digits@.len() <= shift <= 12,
        negative ==> whole <= 0,
        !negative ==> whole >= 0,
    ensures
        match ticks {
            Some(ticks) => ticks == scaled(whole as int, negative, digits@, shift as nat),
            None => !(i128::MIN <= scaled(whole as int, negative, digits@, shift as nat)
                <= i128::MAX),
        },
{
    let number: i128 = number_of_digits(digits);
    let part: i128 = power_of_ten(shift - digits.len());
    let power: i128 = power_of_ten(shift);
    proof {
        text::lemma_pow10_adds(digits@.len(), (shift - digits@.len()) as nat);
        text::lemma_pow10_positive((shift - digits@.len()) as nat);
        text::lemma_pow10_monotone(shift as nat, 12);
        lemma_small_powers();
        let a = number as int;
        let b = part as int;
        let c = text::pow10(digits@.len()) as int;
        assert(0 <= a * b < c * b) by (nonlinear_arith)
            requires
                0 <= a < c,
                1 <= b,
        ;
        text::lemma_pow10_positive(shift as nat);
        let w = whole as int;
        let p = power as int;
        assert(w <= 0 ==> w * p <= 0) by (nonlinear_arith)
            requires
                1 <= p,
        ;
        assert(w >= 0 ==> w * p >= 0) by (nonlinear_arith)
            requires
                1 <= p,
        ;
    }
    let rest: i128 = number * part;
    match whole.checked_mul(power) {
        Some(start) => if negative {
            start.checked_sub(rest)
        } else {
            start.checked_add(rest)
        },
        None => None,
    }
}

/// Reads a bare number of `unit` since the epoch.
pub(crate) fn parse_epoch(input: &str, unit: TimeUnit) -> (read: core::result::Result<
    Timestamp,
    String,
>)
    ensures
        crate::time::format::reads(read, epoch_reading(input@, unit)),
{
    let chars: Vec<char> = chars_of(input);
    let number: &[char] = trim(chars.as_slice());
    match parse_i128(number) {
        Ok(ticks) => Ok(Timestamp::new(ticks, unit)),
        Err(error) => match split_decimal(chars.as_slice()) {
            Some((whole, fraction)) => {
                proof {
                    let before = number@.take(text::first_index(number@, '.'));
                    lemma_first_index_bound(number@, '.');
                    lemma_sign(before, i128::MIN as int, i128::MAX as int);
                    assert(before[0] == number@[0]);
                }
                let negative: bool = number[0] == '-';
                let count: usize = count_significant(fraction.as_slice());
                let digits: &[char] = vstd::slice::slice_subrange(fraction.as_slice(), 0, count);
                assert(digits@ == significant(fraction@));
                match find_unit_for(unit, count) {
                    Some(finer) => {
                        let shift: usize = places_of(finer) - places_of(unit);
                        match scale(whole, negative, digits, shift) {
                            Some(ticks) => Ok(Timestamp::new(ticks, finer)),
                            None => Err("number is out of range".to_owned()),
                        }
                    },
                    None => Err("fraction is finer than a picosecond".to_owned()),
                }
            },
            None => Err(integer_error_words(error).to_owned()),
        },
    }
}

proof fn lemma_first_index_bound(s: Seq<char>, c: char)
    ensures
        0 <= text::first_index(s, c) <= s.len(),
    decreases s.len(),
{
    if s.len() > 0 && s[0] != c {
        lemma_first_index_bound(s.skip(1), c);
    }
}

/// The distance of `n` from zero.
pub open spec fn magnitude(n: int) -> nat {
    if n < 0 {
        (-n) as nat
    } else {
        n as nat
    }
}

/// A sign, where there is to be one, and the decimal digits of `n`.
pub open spec fn signed_digits(n: nat, negative: bool) -> Seq<char> {
    if negative {
        seq!['-'] + text::decimal_digits(n)
    } else {
        text::decimal_digits(n)
    }
}

/// The decimal notation of `ticks` parts of which `10` to the power of `shift`
/// make a whole.
pub open spec fn scaled_text(ticks: int, shift: nat) -> Seq<char> {
    let per_whole = text::pow10(shift);
    let rest = magnitude(ticks) % per_whole;
    let whole = signed_digits(magnitude(ticks) / per_whole, ticks < 0);
    if rest == 0 {
        whole
    } else {
        whole + seq!['.'] + crate::time::format::fraction_digits(
            rest as int,
            per_whole as int,
            1,
            shift,
        )
    }
}

/// How an epoch time is written under a format of `unit`. Ticks of a finer unit
/// are written as a decimal number of the format's own unit; any other ticks
/// are written as they are.
pub open spec fn epoch_text(timestamp: Timestamp, unit: TimeUnit) -> Seq<char> {
    if places(timestamp.unit) > places(unit) {
        scaled_text(timestamp.ticks as int, (places(timestamp.unit) - places(unit)) as nat)
    } else {
        text::decimal_text(timestamp.ticks as int)
    }
}

/// What is written of the timestamp under a format of `unit` reads back as it:
/// it is counted in the coarsest unit, from the format's own on, in which it is
/// whole.
pub open spec fn epoch_reads_back(timestamp: Timestamp, unit: TimeUnit) -> bool {
    &&& timestamp.offset_seconds is None
    &&& timestamp.unit == unit || places(timestamp.unit) > places(unit) && timestamp.ticks as int
        % 1_000 != 0
}

/// Writes an epoch time under a format of `unit`.
pub(crate) fn write_epoch(timestamp: &Timestamp, unit: TimeUnit) -> (text: String)
    ensures
        text@ == epoch_text(*timestamp, unit),
{
    let mut chars: Vec<char> = Vec::new();
    let from: usize = places_of(timestamp.unit);
    let to: usize = places_of(unit);
    if from <= to {
        push_decimal(&mut chars, timestamp.ticks);
        return string_of(chars.as_slice());
    }
    let shift: usize = from - to;
    let per_whole: i128 = power_of_ten(shift);
    let ticks: i128 = timestamp.ticks;
    let distance: u128 = if ticks < 0 {
        chars.push('-');
        (-(ticks + 1)) as u128 + 1
    } else {
        ticks as u128
    };
    proof {
        text::lemma_pow10_positive(shift as nat);
        text::lemma_pow10_monotone(shift as nat, 12);
        lemma_small_powers();
    }
    let whole: u128 = distance / (per_whole as u128);
    let rest: i128 = (distance % (per_whole as u128)) as i128;
    push_digits(&mut chars, whole);
    if rest != 0 {
        proof {
            let a = rest as int;
            let p = per_whole as int;
            assert(a * p <= 1_000_000_000_000 * 1_000_000_000_000) by (nonlinear_arith)
                requires
                    0 <= a <= p,
                    p <= 1_000_000_000_000,
            ;
        }
        let fraction: Vec<char> = fraction_to_decimal_digits(rest, per_whole, shift);
        chars.push('.');
        let mut i: usize = 0;
        let ghost before: Seq<char> = chars@;
        while i < fraction.len()
            invariant
                i <= fraction@.len(),
                chars@ == before + fraction@.take(i as int),
            decreases fraction@.len() - i,
        {
            assert(fraction@.take(i + 1) == fraction@.take(i as int).push(fraction@[i as int]));
            chars.push(fraction[i]);
            i = i + 1;
        }
        assert(fraction@.take(i as int) == fraction@);
    }
    assert(chars@ == epoch_text(*timestamp, unit));
    string_of(chars.as_slice())
}

/// A fraction is written with no more digits than it needs.
proof fn lemma_fraction_is_shortest(numerator: int, denominator: int, digits: nat, max: nat)
    requires
        0 <= numerator < denominator,
        1 <= digits <= max,
        (numerator * text::pow10(max)) % denominator == 0,
    ensures
        ({
            let len = crate::time::format::fraction_digits(
                numerator,
                denominator,
                digits,
                max,
            ).len();
            len > digits ==> (numerator * text::pow10((len - 1) as nat)) % denominator != 0
        }),
    decreases max - digits,
{
    lemma_exact_fraction(numerator, denominator, digits, max);
    let scaled = numerator * text::pow10(digits);
    if digits < max && scaled % denominator != 0 {
        lemma_fraction_is_shortest(numerator, denominator, digits + 1, max);
        lemma_exact_fraction(numerator, denominator, digits + 1, max);
    } else {
        text::lemma_fixed_digits_len((scaled / denominator) as nat, digits);
    }
}

/// The shortest digits of a fraction do not end with a zero.
proof fn lemma_shortest_is_significant(numerator: int, denominator: int, max: nat)
    requires
        0 < numerator < denominator,
        1 <= max,
        (numerator * text::pow10(max)) % denominator == 0,
    ensures
        ({
            let digits = crate::time::format::fraction_digits(numerator, denominator, 1, max);
            significant(digits) == digits
        }),
{
    let digits = crate::time::format::fraction_digits(numerator, denominator, 1, max);
    lemma_exact_fraction(numerator, denominator, 1, max);
    lemma_fraction_is_shortest(numerator, denominator, 1, max);
    if digits.last() == '0' {
        let k = digits.len();
        let value = text::digits_value(digits) as int;
        let fewer = text::digits_value(digits.drop_last()) as int;
        assert(value == 10 * fewer);
        let power = text::pow10((k - 1) as nat) as int;
        assert(text::pow10(k) == 10 * power);
        assert(fewer * denominator == numerator * power) by (nonlinear_arith)
            requires
                value == 10 * fewer,
                value * denominator == numerator * (10 * power),
        ;
        if k == 1 {
            assert(digits.drop_last() == Seq::<char>::empty());
            assert(fewer == 0);
            assert(0 * denominator == 0) by (nonlinear_arith);
            assert(numerator * 1 == 0);
        } else {
            assert((fewer * denominator) % denominator == 0) by (nonlinear_arith)
                requires
                    denominator > 0,
            ;
        }
    }
}

/// An epoch time that is counted in the coarsest unit in which it is whole
/// reads back from what is written of it as the same timestamp, whether that is
/// an integer or a decimal number. An integer's text comes out again.
pub proof fn law_epoch_text_round_trips(timestamp: Timestamp, unit: TimeUnit, format: TimestampFormat)
    requires
        crate::time::inference::epoch_unit_of(format) == Some(unit),
        epoch_reads_back(timestamp, unit),
    ensures
        crate::time::format::reading(
            crate::time::format::timestamp_text(timestamp, format),
            format,
        ) == Ok::<Timestamp, Seq<char>>(timestamp),
        timestamp.unit == unit ==> crate::time::format::timestamp_text(timestamp, format)
            == text::decimal_text(timestamp.ticks as int),
{
    let ticks = timestamp.ticks as int;
    if timestamp.unit == unit {
        lemma_decimal_text_chars(ticks);
        lemma_trimmed_unchanged(text::decimal_text(ticks));
        text::law_decimal_text_round_trips(ticks, i128::MIN as int, i128::MAX as int);
    } else {
        lemma_decimal_epoch_round_trips(timestamp, unit);
    }
}

proof fn lemma_decimal_epoch_round_trips(timestamp: Timestamp, unit: TimeUnit)
    requires
        timestamp.offset_seconds is None,
        places(timestamp.unit) > places(unit),
        timestamp.ticks as int % 1_000 != 0,
    ensures
        epoch_reading(epoch_text(timestamp, unit), unit) == Ok::<Timestamp, Seq<char>>(timestamp),
{
    let ticks = timestamp.ticks as int;
    let negative = ticks < 0;
    let shift = (places(timestamp.unit) - places(unit)) as nat;
    let p = text::pow10(shift) as int;
    let m = magnitude(ticks) as int;
    let q = m / p;
    let r = m % p;
    lemma_small_powers();
    assert(m == q * p + r && 0 <= r < p && 0 <= q <= m) by (nonlinear_arith)
        requires
            q == m / p,
            r == m % p,
            p >= 1,
            m >= 0,
    ;
    assert(m % 1_000 != 0);
    lemma_thousands(m, q, r, shift);
    let fraction = crate::time::format::fraction_digits(r, p, 1, shift);
    assert((r * p) % p == 0) by (nonlinear_arith)
        requires
            p >= 1,
    ;
    lemma_exact_fraction(r, p, 1, shift);
    lemma_shortest_is_significant(r, p, shift);
    let k = fraction.len();
    let value = text::digits_value(fraction) as int;
    let part = text::pow10((shift - k) as nat) as int;
    let tens = text::pow10(k) as int;
    text::lemma_pow10_adds(k, (shift - k) as nat);
    text::lemma_pow10_positive(k);
    text::lemma_pow10_positive((shift - k) as nat);
    assert(value * part == r) by (nonlinear_arith)
        requires
            value * p == r * tens,
            p == tens * part,
            tens >= 1,
    ;
    if k + 3 <= shift {
        text::lemma_pow10_adds((shift - k - 3) as nat, 3);
        let rest = text::pow10((shift - k - 3) as nat) as int;
        assert(r == 1_000 * (value * rest)) by (nonlinear_arith)
            requires
                value * part == r,
                part == rest * 1_000,
        ;
        assert(false);
    }
    assert(unit_for(unit, k) == Some(timestamp.unit));
    // The number reads as the whole and the fraction that it was written from.
    let prefix = signed_digits(q as nat, negative);
    let whole = if negative {
        -q
    } else {
        q
    };
    assert(q * 1_000 <= m) by (nonlinear_arith)
        requires
            m == q * p + r,
            p >= 1_000,
            r >= 0,
            q >= 0,
    ;
    lemma_signed_digits(q as nat, negative);
    let written = epoch_text(timestamp, unit);
    assert(written == prefix + (seq!['.'] + fraction));
    assert(text::is_digit_spec(fraction[k - 1]));
    assert(written.last() == fraction.last());
    assert(written[0] == prefix[0]);
    lemma_trimmed_unchanged(written);
    lemma_first_index_behind(prefix, '.', seq!['.'] + fraction);
    assert(written.take(prefix.len() as int) == prefix);
    assert(written.skip(prefix.len() as int + 1) == fraction);
    assert(crate::time::format::decimal_parts(written) == Some((whole, fraction)));
    lemma_a_point_is_no_digit(written, prefix.len() as int);
    assert(scaled(whole, negative, fraction, shift) == ticks) by {
        assert((-q) * p == -(q * p)) by (nonlinear_arith);
    }
}

/// What is left behind whole thousands of parts is no multiple of a thousand
/// unless all of it is one.
proof fn lemma_thousands(m: int, q: int, r: int, shift: nat)
    requires
        m == q * text::pow10(shift) + r,
        m % 1_000 != 0,
        shift == 3 || shift == 6 || shift == 9 || shift == 12,
    ensures
        r % 1_000 != 0,
{
    lemma_small_powers();
    let thousands = text::pow10((shift - 3) as nat) as int;
    text::lemma_pow10_adds((shift - 3) as nat, 3);
    assert(q * text::pow10(shift) == 1_000 * (q * thousands)) by (nonlinear_arith)
        requires
            text::pow10(shift) as int == thousands * 1_000,
    ;
    let n = q * thousands;
    assert(m == 1_000 * n + r);
}

/// A sign and decimal digits read as the number they spell.
proof fn lemma_signed_digits(n: nat, negative: bool)
    requires
        n <= i128::MAX,
    ensures
        ({
            let s = signed_digits(n, negative);
            &&& s.len() > 0
            &&& (s[0] == '-') == negative
            &&& !text::is_space_spec(s[0])
            &&& forall|i: int| 0 <= i < s.len() ==> #[trigger] s[i] != '.'
            &&& text::integer_of(s, i128::MIN as int, i128::MAX as int) == Ok::<
                int,
                text::IntegerError,
            >(
                if negative {
                    -n
                } else {
                    n as int
                },
            )
        }),
{
    let digits = text::decimal_digits(n);
    text::lemma_decimal_digits(n);
    assert(text::is_digit_spec(digits[0]));
    assert(digits.take(digits.len() as int) == digits);
    text::lemma_scan_value(
        digits,
        digits.len() as int,
        negative,
        i128::MIN as int,
        i128::MAX as int,
    );
    let s = signed_digits(n, negative);
    assert forall|i: int| 0 <= i < s.len() implies #[trigger] s[i] != '.' by {
        if negative && i > 0 {
            assert(s[i] == digits[i - 1]);
        } else if !negative {
            assert(s[i] == digits[i]);
        }
    }
    if negative {
        assert(s.skip(1) == digits);
    } else {
        assert(s == digits);
    }
}

/// A text with a point behind its first character is no integer.
proof fn lemma_a_point_is_no_digit(s: Seq<char>, at: int)
    requires
        0 < at < s.len(),
        s[at] == '.',
    ensures
        text::integer_of(s, i128::MIN as int, i128::MAX as int) is Err,
{
    let min = i128::MIN as int;
    let max = i128::MAX as int;
    if text::integer_of(s, min, max) is Ok {
        if s[0] == '+' || s[0] == '-' {
            let rest = s.skip(1);
            text::lemma_scan_ok(rest, rest.len() as int, s[0] == '-', min, max);
            assert(text::is_digit_spec(rest.take(rest.len() as int)[at - 1]));
        } else {
            text::lemma_scan_ok(s, s.len() as int, false, min, max);
            assert(text::is_digit_spec(s.take(s.len() as int)[at]));
        }
    }
}

} // verus!
