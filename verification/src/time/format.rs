//! Timestamps and their textual formats.
//!
//! Calendar arithmetic is `chrono`'s. Everything around it is exact integer
//! arithmetic: an instant is never routed through a floating-point number, and
//! fractions finer than a nanosecond are carried in picoseconds.

use vstd::prelude::*;
use vstd::slice::slice_subrange;
use crate::error::{GlydeError, Result};
use crate::text;
use crate::text::{
    chars_of, count_digits, find, parse_i128, power_of_ten, push_decimal, push_fixed,
    push_text, string_of, trim, IntegerError,
};
use crate::time::epoch;
use crate::time::epoch::{parse_epoch, write_epoch};

verus! {

/// The tick resolution a timestamp is counted in.
#[derive(Debug, Clone, Copy, PartialEq, Eq, Hash, Structural)]
pub enum TimeUnit {
    Seconds,
    Milliseconds,
    Microseconds,
    Nanoseconds,
    Picoseconds,
}

/// An absolute instant: `ticks` of `unit` since 1970-01-01T00:00:00Z. The
/// offset is kept for display only; `ticks` never depends on it.
#[derive(Debug, Clone, Copy, PartialEq, Eq, Structural)]
pub struct Timestamp {
    pub ticks: i128,
    pub unit: TimeUnit,
    /// The source's UTC offset in seconds, where it carried one.
    pub offset_seconds: Option<i32>,
}

/// Every textual form of an absolute timestamp.
#[derive(Debug, Clone, Copy, PartialEq, Eq, Hash, Structural)]
pub enum TimestampFormat {
    /// ISO 8601 with a UTC or explicit offset, `2026-07-22T14:30:00+02:00`.
    Iso8601WithOffset,
    /// ISO 8601 without an offset.
    Iso8601Naive,
    /// `YYYY-MM-DD HH:MM:SS`.
    DateTimeSpace,
    /// `DD/MM/YYYY HH:MM:SS`.
    DayFirst,
    /// `MM/DD/YYYY HH:MM:SS`.
    MonthFirst,
    /// Integer or float seconds since the Unix epoch.
    EpochSeconds,
    /// Integer or float milliseconds since the Unix epoch.
    EpochMillis,
    /// Integer or float microseconds since the Unix epoch.
    EpochMicros,
    /// Integer or float nanoseconds since the Unix epoch.
    EpochNanos,
    /// Seconds since 1904-01-01T00:00:00Z.
    LabViewEpoch,
    /// Days since 1899-12-30, the fraction being the time of day.
    ExcelSerial,
}

impl TimeUnit {
    /// How many ticks of this unit make up a second.
    pub open spec fn per_second(self) -> int {
        match self {
            TimeUnit::Seconds => 1,
            TimeUnit::Milliseconds => 1_000,
            TimeUnit::Microseconds => 1_000_000,
            TimeUnit::Nanoseconds => 1_000_000_000,
            TimeUnit::Picoseconds => 1_000_000_000_000,
        }
    }

    /// How many ticks of this unit make up a second.
    pub fn ticks_per_second(self) -> (ticks: i128)
        ensures
            ticks == self.per_second(),
    {
        match self {
            TimeUnit::Seconds => 1,
            TimeUnit::Milliseconds => 1_000,
            TimeUnit::Microseconds => 1_000_000,
            TimeUnit::Nanoseconds => 1_000_000_000,
            TimeUnit::Picoseconds => 1_000_000_000_000,
        }
    }
}

impl Timestamp {
    /// An instant whose source carried no offset.
    pub fn new(ticks: i128, unit: TimeUnit) -> (timestamp: Self)
        ensures
            timestamp == (Timestamp { ticks, unit, offset_seconds: None }),
    {
        Timestamp { ticks, unit, offset_seconds: None }
    }

    /// An instant whose source carried an offset.
    pub fn with_offset(ticks: i128, unit: TimeUnit, offset_seconds: i32) -> (timestamp: Self)
        ensures
            timestamp == (Timestamp { ticks, unit, offset_seconds: Some(offset_seconds) }),
    {
        Timestamp { ticks, unit, offset_seconds: Some(offset_seconds) }
    }
}

/// The first second of the calendar, counted from the Unix epoch.
pub const MIN_DATE_SECONDS: i64 = -8_334_601_228_800;

/// The last second of the calendar, counted from the Unix epoch.
pub const MAX_DATE_SECONDS: i64 = 8_210_266_876_799;

/// More fractional digits than this are finer than a nanosecond.
pub const MAX_NANOSECOND_DIGITS: usize = 9;

/// Seconds from 1904-01-01 to 1970-01-01.
pub const LABVIEW_EPOCH_OFFSET_SECONDS: i128 = 2_082_844_800;

/// Days from 1899-12-30 to 1970-01-01.
pub const EXCEL_EPOCH_OFFSET_DAYS: i128 = 25_569;

/// Seconds in a day.
pub const SECONDS_PER_DAY: i128 = 86_400;

/// Nanoseconds in a second.
pub const NANOS_PER_SECOND: i128 = 1_000_000_000;

/// Picoseconds in a second.
pub const PICOS_PER_SECOND: i128 = 1_000_000_000_000;

/// Nanoseconds in a day.
pub const NANOS_PER_DAY: i128 = 86_400_000_000_000;

/// What `chrono` reads an RFC 3339 text as: the whole seconds since the Unix
/// epoch, the nanoseconds since then where they fit 64 bits, and the offset in
/// seconds; or why it cannot.
pub uninterp spec fn rfc3339_instant(text: Seq<char>) -> core::result::Result<
    (i64, Option<i64>, i32),
    Seq<char>,
>;

/// What `chrono` reads a text without an offset as under a `strftime` pattern:
/// the whole seconds since the Unix epoch and the nanoseconds since then where
/// they fit 64 bits; or why it cannot.
pub uninterp spec fn naive_instant(text: Seq<char>, pattern: Seq<char>) -> core::result::Result<
    (i64, Option<i64>),
    Seq<char>,
>;

/// How `chrono` writes the instant `seconds` and `nanos` at an offset under a
/// `strftime` pattern.
pub uninterp spec fn date_text(
    seconds: i64,
    nanos: u32,
    offset_seconds: i32,
    pattern: Seq<char>,
) -> Seq<char>;

/// Reads an RFC 3339 text by `chrono::DateTime::parse_from_rfc3339`. What
/// comes back depends on the text alone; the date is one of the calendar and
/// the offset less than a day.
#[verifier::external_body]
fn parse_rfc3339(text: &str) -> (parsed: core::result::Result<(i64, Option<i64>, i32), String>)
    ensures
        match parsed {
            Ok(instant) => rfc3339_instant(text@) == Ok::<(i64, Option<i64>, i32), Seq<char>>(
                instant,
            ),
            Err(reason) => rfc3339_instant(text@) == Err::<(i64, Option<i64>, i32), Seq<char>>(
                reason@,
            ),
        },
        parsed matches Ok(instant) ==> MIN_DATE_SECONDS <= instant.0 <= MAX_DATE_SECONDS,
        parsed matches Ok(instant) ==> -86_400 < instant.2 < 86_400,
{
    chrono::DateTime::parse_from_rfc3339(text)
        .map(|date| (date.timestamp(), date.timestamp_nanos_opt(), date.offset().local_minus_utc()))
        .map_err(|error| error.to_string())
}

/// Reads a text without an offset by `chrono::NaiveDateTime::parse_from_str`.
/// What comes back depends on the text and the pattern alone; the date is one
/// of the calendar.
#[verifier::external_body]
fn parse_naive(text: &str, pattern: &str) -> (parsed: core::result::Result<
    (i64, Option<i64>),
    String,
>)
    ensures
        match parsed {
            Ok(instant) => naive_instant(text@, pattern@) == Ok::<(i64, Option<i64>), Seq<char>>(
                instant,
            ),
            Err(reason) => naive_instant(text@, pattern@) == Err::<(i64, Option<i64>), Seq<char>>(
                reason@,
            ),
        },
        parsed matches Ok(instant) ==> MIN_DATE_SECONDS <= instant.0 <= MAX_DATE_SECONDS,
{
    chrono::NaiveDateTime::parse_from_str(text, pattern)
        .map(|date| (date.and_utc().timestamp(), date.and_utc().timestamp_nanos_opt()))
        .map_err(|error| error.to_string())
}

/// The patterns that dates are written under.
pub open spec fn is_date_pattern(pattern: Seq<char>) -> bool {
    ||| pattern == "%Y-%m-%dT%H:%M:%S%.f%:z"@
    ||| pattern == "%Y-%m-%dT%H:%M:%S%.f"@
    ||| pattern == "%Y-%m-%dT%H:%M:%S"@
    ||| pattern == "%:z"@
    ||| pattern == "%d/%m/%Y %H:%M:%S"@
    ||| pattern == "%m/%d/%Y %H:%M:%S"@
}

/// The local year is written with four digits: it is not before year zero and
/// not behind year 9999.
pub open spec fn has_four_digit_year(seconds: int, offset_seconds: int) -> bool {
    -62_167_219_200 <= seconds + offset_seconds <= 253_402_300_799
}

/// The nanoseconds since the Unix epoch, where they fit 64 bits.
pub open spec fn nanos_since_epoch(seconds: int, nanos: int) -> Option<i64> {
    let total = seconds * NANOS_PER_SECOND + nanos;
    if i64::MIN <= total <= i64::MAX {
        Some(total as i64)
    } else {
        None
    }
}

/// The RFC 3339 parser reads `text` as the given instant and offset.
pub open spec fn is_read_with_offset(
    text: Seq<char>,
    seconds: i64,
    nanos: u32,
    offset_seconds: i32,
) -> bool {
    rfc3339_instant(text) == Ok::<(i64, Option<i64>, i32), Seq<char>>(
        (seconds, nanos_since_epoch(seconds as int, nanos as int), offset_seconds),
    )
}

/// Under `pattern`, `text` is read as the given instant.
pub open spec fn is_read_naively(
    text: Seq<char>,
    pattern: Seq<char>,
    seconds: i64,
    nanos: u32,
) -> bool {
    naive_instant(text, pattern) == Ok::<(i64, Option<i64>), Seq<char>>(
        (seconds, nanos_since_epoch(seconds as int, nanos as int)),
    )
}

/// Writes an instant by `chrono::DateTime::from_timestamp`, shown at a fixed
/// offset, and `format`. Inside the calendar, and for an offset of less than a
/// day, there is always a text, and it depends on the arguments alone.
///
/// What is claimed of the texts themselves: the parser of texts without an
/// offset reads them back as the instant they were written from, whatever the
/// year, since a year of other than four digits is written and read with a
/// sign; the RFC 3339 parser, which takes four digits alone, does so for a year
/// of four digits and an offset of whole minutes; the fraction of a second is
/// included where the pattern has one; a whole second's text has no point; a
/// fraction has at most nine digits; and an offset's text begins with its sign.
#[verifier::external_body]
fn write_date(seconds: i64, nanos: u32, offset_seconds: i32, pattern: &str) -> (text: String)
    requires
        MIN_DATE_SECONDS <= seconds <= MAX_DATE_SECONDS,
        nanos < 1_000_000_000,
        -86_400 < offset_seconds < 86_400,
        is_date_pattern(pattern@),
    ensures
        text@ == date_text(seconds, nanos, offset_seconds, pattern@),
        has_four_digit_year(seconds as int, offset_seconds as int) && offset_seconds as int % 60
            == 0 && pattern@ == "%Y-%m-%dT%H:%M:%S%.f%:z"@ ==> is_read_with_offset(
            text@,
            seconds,
            nanos,
            offset_seconds,
        ),
        offset_seconds == 0 && pattern@ == "%Y-%m-%dT%H:%M:%S%.f"@ ==> is_read_naively(
            text@,
            pattern@,
            seconds,
            nanos,
        ),
        offset_seconds == 0 && nanos == 0 && (pattern@ == "%Y-%m-%dT%H:%M:%S"@ || pattern@
            == "%d/%m/%Y %H:%M:%S"@ || pattern@ == "%m/%d/%Y %H:%M:%S"@) ==> is_read_naively(
            text@,
            pattern@,
            seconds,
            nanos,
        ),
        has_four_digit_year(seconds as int, offset_seconds as int) && offset_seconds as int % 60
            == 0 && nanos == 0 && pattern@ == "%Y-%m-%dT%H:%M:%S"@ ==> is_read_with_offset(
            text@ + date_text(seconds, nanos, offset_seconds, "%:z"@),
            seconds,
            nanos,
            offset_seconds,
        ),
        pattern@ == "%Y-%m-%dT%H:%M:%S"@ ==> forall|i: int|
            0 <= i < text@.len() ==> #[trigger] text@[i] != '.',
        pattern@ == "%Y-%m-%dT%H:%M:%S%.f%:z"@ || pattern@ == "%Y-%m-%dT%H:%M:%S%.f"@ ==> (
        iso_fraction(text@) matches Some(parts) ==> parts.1.len() <= MAX_NANOSECOND_DIGITS),
        pattern@ == "%:z"@ ==> text@.len() > 0 && !text::is_digit_spec(text@[0]),
{
    let offset = chrono::FixedOffset::east_opt(offset_seconds).unwrap();
    let date = chrono::DateTime::from_timestamp(seconds, nanos).unwrap();
    date.with_timezone(&offset).format(pattern).to_string()
}

/// What stands before the first point of `s`, the digits right behind it, and
/// what follows them; `None` where there is no point.
pub open spec fn iso_fraction(s: Seq<char>) -> Option<(Seq<char>, Seq<char>, Seq<char>)> {
    let dot = text::first_index(s, '.');
    if dot == s.len() {
        None
    } else {
        let after = s.skip(dot + 1);
        let digits = text::digit_prefix_len(after);
        Some((s.take(dot), after.take(digits), after.skip(digits)))
    }
}

/// The picoseconds that a fraction of a second spells, digits behind the
/// twelfth dropped.
pub open spec fn picos_of(fraction: Seq<char>) -> int {
    let kept = fraction.take(
        if fraction.len() < 12 {
            fraction.len() as int
        } else {
            12
        },
    );
    (text::digits_value(kept) * text::pow10((12 - kept.len()) as nat)) as int
}

/// Splits an ISO 8601 text at its fraction of a second.
pub fn split_iso8601_fraction(chars: &[char]) -> (parts: Option<(&[char], &[char], &[char])>)
    ensures
        match parts {
            Some(p) => iso_fraction(chars@) == Some((p.0@, p.1@, p.2@)) && text::all_digits(p.1@),
            None => iso_fraction(chars@) is None,
        },
{
    let dot: usize = find(chars, '.');
    if dot == chars.len() {
        return None;
    }
    let before: &[char] = slice_subrange(chars, 0, dot);
    let after: &[char] = slice_subrange(chars, dot + 1, chars.len());
    let digits: usize = count_digits(after);
    let fraction: &[char] = slice_subrange(after, 0, digits);
    let suffix: &[char] = slice_subrange(after, digits, after.len());
    proof {
        assert(before@ == chars@.take(dot as int));
        assert(after@ == chars@.skip(dot + 1));
        assert(fraction@ == after@.take(digits as int));
        assert(suffix@ == after@.skip(digits as int));
    }
    Some((before, fraction, suffix))
}

/// The largest power of ten that 128 bits count.
proof fn lemma_largest_power()
    ensures
        text::pow10(38) == 100_000_000_000_000_000_000_000_000_000_000_000_000,
{
    reveal_with_fuel(text::pow10, 39);
}

/// One more digit of at most 38.
proof fn lemma_one_more_digit(digits: Seq<char>, i: int)
    requires
        text::all_digits(digits),
        0 <= i < digits.len() <= 38,
    ensures
        text::is_digit_spec(digits[i]),
        text::digits_value(digits.take(i + 1)) == 10 * text::digits_value(digits.take(i)) + (
        digits[i] as int - '0' as int),
        text::digits_value(digits.take(i + 1))
            < 100_000_000_000_000_000_000_000_000_000_000_000_000,
{
    let prefix = digits.take(i + 1);
    assert(prefix.drop_last() == digits.take(i));
    assert(text::is_digit_spec(digits[i]));
    assert(text::all_digits(prefix));
    text::lemma_digits_value_bound(prefix);
    text::lemma_pow10_monotone((i + 1) as nat, 38);
    lemma_largest_power();
}

/// The number that at most 38 digits spell.
pub(crate) fn number_of_digits(digits: &[char]) -> (number: i128)
    requires
        text::all_digits(digits@),
        digits@.len() <= 38,
    ensures
        number == text::digits_value(digits@),
        number < text::pow10(digits@.len()),
{
    let mut number: i128 = 0;
    let mut i: usize = 0;
    proof {
        assert(digits@.take(0) == Seq::<char>::empty());
    }
    while i < digits.len()
        invariant
            text::all_digits(digits@),
            i <= digits@.len() <= 38,
            number == text::digits_value(digits@.take(i as int)),
        decreases digits@.len() - i,
    {
        proof {
            lemma_one_more_digit(digits@, i as int);
        }
        number = 10 * number + (digits[i] as u32 - '0' as u32) as i128;
        i = i + 1;
    }
    proof {
        assert(digits@.take(i as int) == digits@);
        text::lemma_digits_value_bound(digits@);
    }
    number
}

/// The picoseconds that a fraction of a second spells.
pub fn frac_digits_to_picos(digits: &[char]) -> (picos: i128)
    requires
        text::all_digits(digits@),
    ensures
        picos == picos_of(digits@),
        0 <= picos < PICOS_PER_SECOND,
{
    let count: usize = if digits.len() < 12 {
        digits.len()
    } else {
        12
    };
    let kept: &[char] = slice_subrange(digits, 0, count);
    proof {
        assert(kept@ == digits@.take(count as int));
    }
    let number: i128 = number_of_digits(kept);
    let scale: i128 = power_of_ten(12 - count);
    proof {
        text::lemma_pow10_adds(count as nat, (12 - count) as nat);
        text::lemma_pow10_positive((12 - count) as nat);
        assert(text::pow10(12) == 1_000_000_000_000) by {
            reveal_with_fuel(text::pow10, 13);
        }
        let a = number as int;
        let b = scale as int;
        let c = text::pow10(count as nat) as int;
        assert(0 <= a * b < c * b) by (nonlinear_arith)
            requires
                0 <= a < c,
                b >= 1,
        ;
    }
    number * scale
}

/// The whole number and the fractional digits of a decimal numeral, which may
/// have white space around it. Nothing but an integer, optionally followed by
/// a point and at least one digit, is a decimal numeral.
pub open spec fn decimal_parts(field: Seq<char>) -> Option<(int, Seq<char>)> {
    let s = text::trimmed(field);
    let dot = text::first_index(s, '.');
    let fraction = s.skip(dot + 1);
    if dot < s.len() && (fraction.len() == 0 || !text::all_digits(fraction)) {
        None
    } else {
        match text::integer_of(s.take(dot), i128::MIN as int, i128::MAX as int) {
            Ok(whole) => Some((
                whole,
                if dot < s.len() {
                    fraction
                } else {
                    Seq::empty()
                },
            )),
            Err(_) => None,
        }
    }
}

/// Splits a decimal numeral into its whole number and its fractional digits.
pub fn split_decimal(field: &[char]) -> (parts: Option<(i128, Vec<char>)>)
    ensures
        match parts {
            Some(p) => decimal_parts(field@) == Some((p.0 as int, p.1@)) && text::all_digits(p.1@),
            None => decimal_parts(field@) is None,
        },
{
    let chars: &[char] = trim(field);
    let dot: usize = find(chars, '.');
    let before: &[char] = slice_subrange(chars, 0, dot);
    proof {
        assert(before@ == chars@.take(dot as int));
    }
    let mut fraction: Vec<char> = Vec::new();
    if dot < chars.len() {
        let after: &[char] = slice_subrange(chars, dot + 1, chars.len());
        proof {
            assert(after@ == chars@.skip(dot + 1));
        }
        if after.len() == 0 {
            return None;
        }
        let mut i: usize = 0;
        while i < after.len()
            invariant
                i <= after@.len(),
                fraction@ == after@.take(i as int),
                after@ == chars@.skip(dot + 1),
                chars@ == text::trimmed(field@),
                dot == text::first_index(chars@, '.'),
                dot < chars@.len(),
                text::all_digits(after@.take(i as int)),
            decreases after@.len() - i,
        {
            if !text::is_digit(after[i]) {
                return None;
            }
            assert(after@.take(i + 1) == after@.take(i as int).push(after@[i as int]));
            fraction.push(after[i]);
            i = i + 1;
        }
        assert(after@.take(i as int) == after@);
    }
    match parse_i128(before) {
        Ok(whole) => Some((whole, fraction)),
        Err(_) => None,
    }
}

/// How many ticks of a whole of `per_whole` ticks a fraction spells, rounded
/// down.
pub open spec fn fraction_ticks(fraction: Seq<char>, per_whole: int) -> int {
    (text::digits_value(fraction) * per_whole) / (text::pow10(fraction.len()) as int)
}

/// The ticks of a decimal number of wholes counted from `offset` wholes before
/// the Unix epoch, where they can be counted with 128 bits.
pub open spec fn decimal_ticks(
    whole: int,
    fraction: Seq<char>,
    offset: int,
    per_whole: int,
) -> Option<int> {
    let start = (whole - offset) * per_whole;
    let ticks = start + fraction_ticks(fraction, per_whole);
    if fraction.len() <= 38 && text::digits_value(fraction) * per_whole <= i128::MAX && i128::MIN
        <= start && ticks <= i128::MAX {
        Some(ticks)
    } else {
        None
    }
}

/// How many ticks a fraction of a whole spells, or `None` where the digits are
/// too many to count with.
pub fn frac_str_to_ticks(digits: &[char], per_whole: i128) -> (ticks: Option<i128>)
    requires
        text::all_digits(digits@),
        0 < per_whole,
    ensures
        match ticks {
            Some(t) => digits@.len() <= 38 && text::digits_value(digits@) * per_whole <= i128::MAX
                && t == fraction_ticks(digits@, per_whole as int) && 0 <= t < per_whole,
            None => digits@.len() > 38 || text::digits_value(digits@) * per_whole > i128::MAX,
        },
{
    if digits.len() > 38 {
        return None;
    }
    let number: i128 = number_of_digits(digits);
    let power: i128 = power_of_ten(digits.len());
    proof {
        text::lemma_pow10_positive(digits@.len());
    }
    match number.checked_mul(per_whole) {
        Some(product) => {
            proof {
                let a = number as int;
                let b = per_whole as int;
                let c = power as int;
                assert(0 <= a * b) by (nonlinear_arith)
                    requires
                        0 <= a,
                        0 < b,
                ;
                assert(a * b < c * b) by (nonlinear_arith)
                    requires
                        a < c,
                        0 < b,
                ;
                assert((a * b) / c < b) by (nonlinear_arith)
                    requires
                        a * b < c * b,
                        0 <= a * b,
                        0 < c,
                ;
                assert(0 <= (a * b) / c) by (nonlinear_arith)
                    requires
                        0 <= a * b,
                        0 < c,
                ;
            }
            Some(product / power)
        },
        None => {
            proof {
                let a = number as int;
                let b = per_whole as int;
                assert(0 <= a * b) by (nonlinear_arith)
                    requires
                        0 <= a,
                        0 < b,
                ;
            }
            None
        },
    }
}

/// The ticks of a decimal number of wholes, where they can be counted.
fn ticks_of_decimal(whole: i128, digits: &[char], offset: i128, per_whole: i128) -> (ticks: Option<
    i128,
>)
    requires
        text::all_digits(digits@),
        0 < per_whole,
        0 <= offset,
    ensures
        match ticks {
            Some(t) => decimal_ticks(whole as int, digits@, offset as int, per_whole as int)
                == Some(t as int),
            None => decimal_ticks(whole as int, digits@, offset as int, per_whole as int) is None,
        },
{
    let fraction: i128 = match frac_str_to_ticks(digits, per_whole) {
        Some(fraction) => fraction,
        None => {
            return None;
        },
    };
    let ghost a: int = whole - offset;
    let ghost b: int = per_whole as int;
    let wholes: i128 = match whole.checked_sub(offset) {
        Some(wholes) => wholes,
        None => {
            assert(a * b <= a) by (nonlinear_arith)
                requires
                    a < 0,
                    b >= 1,
            ;
            return None;
        },
    };
    match wholes.checked_mul(per_whole) {
        Some(start) => start.checked_add(fraction),
        None => {
            if wholes < 0 {
                assert(a * b < 0) by (nonlinear_arith)
                    requires
                        a < 0,
                        b >= 1,
                ;
            } else {
                assert(a * b >= 0) by (nonlinear_arith)
                    requires
                        a >= 0,
                        b >= 1,
                ;
            }
            None
        },
    }
}

/// What a text reads as: a timestamp, or the reason why it is none.
pub type Reading = core::result::Result<Timestamp, Seq<char>>;

/// Why a text is no integer, in words.
pub open spec fn integer_error_text(error: IntegerError) -> Seq<char> {
    match error {
        IntegerError::Empty => "cannot parse integer from empty string"@,
        IntegerError::InvalidDigit => "invalid digit found in string"@,
        IntegerError::TooLarge => "number too large to fit in target type"@,
        IntegerError::TooSmall => "number too small to fit in target type"@,
    }
}

/// Why a text is no integer, in words.
pub(crate) fn integer_error_words(error: IntegerError) -> (words: &'static str)
    ensures
        words@ == integer_error_text(error),
{
    match error {
        IntegerError::Empty => "cannot parse integer from empty string",
        IntegerError::InvalidDigit => "invalid digit found in string",
        IntegerError::TooLarge => "number too large to fit in target type",
        IntegerError::TooSmall => "number too small to fit in target type",
    }
}

/// The timestamp of an instant read with its offset, to the nanosecond.
pub open spec fn offset_reading(
    parsed: core::result::Result<(i64, Option<i64>, i32), Seq<char>>,
) -> Reading {
    match parsed {
        Ok((_, Some(nanos), offset)) => Ok(
            Timestamp {
                ticks: nanos as i128,
                unit: TimeUnit::Nanoseconds,
                offset_seconds: Some(offset),
            },
        ),
        Ok((_, None, _)) => Err(
            "date is out of range for nanosecond-precision representation"@,
        ),
        Err(reason) => Err(reason),
    }
}

/// The timestamp of an instant read without an offset, to the nanosecond.
pub open spec fn naive_reading(
    parsed: core::result::Result<(i64, Option<i64>), Seq<char>>,
) -> Reading {
    match parsed {
        Ok((_, Some(nanos))) => Ok(
            Timestamp {
                ticks: nanos as i128,
                unit: TimeUnit::Nanoseconds,
                offset_seconds: None,
            },
        ),
        Ok((_, None)) => Err("date is out of range for nanosecond-precision representation"@),
        Err(reason) => Err(reason),
    }
}

/// The timestamp of a whole second read with its offset, and a number of
/// picoseconds.
pub open spec fn offset_picos_reading(
    parsed: core::result::Result<(i64, Option<i64>, i32), Seq<char>>,
    picos: int,
) -> Reading {
    match parsed {
        Ok((seconds, _, offset)) => Ok(
            Timestamp {
                ticks: (seconds * PICOS_PER_SECOND + picos) as i128,
                unit: TimeUnit::Picoseconds,
                offset_seconds: Some(offset),
            },
        ),
        Err(reason) => Err(reason),
    }
}

/// The timestamp of a whole second read without an offset, and a number of
/// picoseconds.
pub open spec fn naive_picos_reading(
    parsed: core::result::Result<(i64, Option<i64>), Seq<char>>,
    picos: int,
) -> Reading {
    match parsed {
        Ok((seconds, _)) => Ok(
            Timestamp {
                ticks: (seconds * PICOS_PER_SECOND + picos) as i128,
                unit: TimeUnit::Picoseconds,
                offset_seconds: None,
            },
        ),
        Err(reason) => Err(reason),
    }
}

/// What an ISO 8601 text with an offset reads as. A fraction of more than nine
/// digits is read separately from the whole second around it.
pub open spec fn iso_with_offset_reading(s: Seq<char>) -> Reading {
    match iso_fraction(s) {
        Some((before, fraction, suffix)) if fraction.len() > MAX_NANOSECOND_DIGITS => {
            offset_picos_reading(rfc3339_instant(before + suffix), picos_of(fraction))
        },
        _ => offset_reading(rfc3339_instant(s)),
    }
}

/// What an ISO 8601 text without an offset reads as.
pub open spec fn iso_naive_reading(s: Seq<char>) -> Reading {
    match iso_fraction(s) {
        Some((before, fraction, suffix)) if fraction.len() > MAX_NANOSECOND_DIGITS => {
            naive_picos_reading(
                naive_instant(before + suffix, "%Y-%m-%dT%H:%M:%S"@),
                picos_of(fraction),
            )
        },
        _ => naive_reading(naive_instant(s, "%Y-%m-%dT%H:%M:%S%.f"@)),
    }
}

/// What a decimal number of wholes reads as; `complaint` is why a text that is
/// no decimal number is none.
pub open spec fn decimal_reading(
    s: Seq<char>,
    offset: int,
    per_whole: int,
    complaint: Seq<char>,
) -> Reading {
    match decimal_parts(s) {
        Some((whole, fraction)) => match decimal_ticks(whole, fraction, offset, per_whole) {
            Some(ticks) => Ok(
                Timestamp {
                    ticks: ticks as i128,
                    unit: TimeUnit::Nanoseconds,
                    offset_seconds: None,
                },
            ),
            None => Err("number is out of range"@),
        },
        None => Err(complaint),
    }
}

/// What `s` reads as under `format`.
pub open spec fn reading(s: Seq<char>, format: TimestampFormat) -> Reading {
    match format {
        TimestampFormat::Iso8601WithOffset => iso_with_offset_reading(s),
        TimestampFormat::Iso8601Naive => iso_naive_reading(s),
        TimestampFormat::DayFirst => naive_reading(naive_instant(s, "%d/%m/%Y %H:%M:%S"@)),
        TimestampFormat::MonthFirst => naive_reading(naive_instant(s, "%m/%d/%Y %H:%M:%S"@)),
        TimestampFormat::EpochSeconds => epoch::epoch_reading(s, TimeUnit::Seconds),
        TimestampFormat::EpochMillis => epoch::epoch_reading(s, TimeUnit::Milliseconds),
        TimestampFormat::EpochMicros => epoch::epoch_reading(s, TimeUnit::Microseconds),
        TimestampFormat::EpochNanos => epoch::epoch_reading(s, TimeUnit::Nanoseconds),
        TimestampFormat::LabViewEpoch => decimal_reading(
            s,
            LABVIEW_EPOCH_OFFSET_SECONDS as int,
            NANOS_PER_SECOND as int,
            "not a decimal number of seconds"@,
        ),
        TimestampFormat::ExcelSerial => decimal_reading(
            s,
            EXCEL_EPOCH_OFFSET_DAYS as int,
            NANOS_PER_DAY as int,
            "not a decimal number of days"@,
        ),
        TimestampFormat::DateTimeSpace => Err(Seq::empty()),
    }
}

/// `result` reports `expected`: the same timestamp, or an error that names the
/// text, the format and the reason.
pub open spec fn reports(
    result: Result<Timestamp>,
    expected: Reading,
    input: Seq<char>,
    format: TimestampFormat,
) -> bool {
    match (result, expected) {
        (Ok(timestamp), Ok(wanted)) => timestamp == wanted,
        (
            Err(GlydeError::InvalidTimestamp { input: text, format: under, reason }),
            Err(complaint),
        ) => text@ == input && under == format && reason@ == complaint,
        _ => false,
    }
}

/// `read` is `expected`, the reason taken by its characters.
pub open spec fn reads(
    read: core::result::Result<Timestamp, String>,
    expected: Reading,
) -> bool {
    match (read, expected) {
        (Ok(timestamp), Ok(wanted)) => timestamp == wanted,
        (Err(reason), Err(complaint)) => reason@ == complaint,
        _ => false,
    }
}

/// A parsed instant with its reason taken by its characters.
pub open spec fn offset_parse_view(
    parsed: core::result::Result<(i64, Option<i64>, i32), String>,
) -> core::result::Result<(i64, Option<i64>, i32), Seq<char>> {
    match parsed {
        Ok(instant) => Ok(instant),
        Err(reason) => Err(reason@),
    }
}

/// A parsed instant with its reason taken by its characters.
pub open spec fn naive_parse_view(
    parsed: core::result::Result<(i64, Option<i64>), String>,
) -> core::result::Result<(i64, Option<i64>), Seq<char>> {
    match parsed {
        Ok(instant) => Ok(instant),
        Err(reason) => Err(reason@),
    }
}

/// The timestamp of an instant read with its offset, to the nanosecond.
pub fn offset_timestamp(
    parsed: core::result::Result<(i64, Option<i64>, i32), String>,
) -> (read: core::result::Result<Timestamp, String>)
    ensures
        reads(read, offset_reading(offset_parse_view(parsed))),
{
    match parsed {
        Ok((_, Some(nanos), offset)) => Ok(
            Timestamp::with_offset(nanos as i128, TimeUnit::Nanoseconds, offset),
        ),
        Ok((_, None, _)) => Err(
            "date is out of range for nanosecond-precision representation".to_owned(),
        ),
        Err(reason) => Err(reason),
    }
}

/// The timestamp of an instant read without an offset, to the nanosecond.
pub fn naive_timestamp(
    parsed: core::result::Result<(i64, Option<i64>), String>,
) -> (read: core::result::Result<Timestamp, String>)
    ensures
        reads(read, naive_reading(naive_parse_view(parsed))),
{
    match parsed {
        Ok((_, Some(nanos))) => Ok(Timestamp::new(nanos as i128, TimeUnit::Nanoseconds)),
        Ok((_, None)) => Err(
            "date is out of range for nanosecond-precision representation".to_owned(),
        ),
        Err(reason) => Err(reason),
    }
}

/// The timestamp of a whole second read with its offset, and a number of
/// picoseconds.
pub fn offset_picos_timestamp(
    parsed: core::result::Result<(i64, Option<i64>, i32), String>,
    picos: i128,
) -> (read: core::result::Result<Timestamp, String>)
    requires
        0 <= picos < PICOS_PER_SECOND,
    ensures
        reads(read, offset_picos_reading(offset_parse_view(parsed), picos as int)),
{
    match parsed {
        Ok((seconds, _, offset)) => Ok(
            Timestamp::with_offset(
                (seconds as i128) * PICOS_PER_SECOND + picos,
                TimeUnit::Picoseconds,
                offset,
            ),
        ),
        Err(reason) => Err(reason),
    }
}

/// The timestamp of a whole second read without an offset, and a number of
/// picoseconds.
pub fn naive_picos_timestamp(
    parsed: core::result::Result<(i64, Option<i64>), String>,
    picos: i128,
) -> (read: core::result::Result<Timestamp, String>)
    requires
        0 <= picos < PICOS_PER_SECOND,
    ensures
        reads(read, naive_picos_reading(naive_parse_view(parsed), picos as int)),
{
    match parsed {
        Ok((seconds, _)) => Ok(
            Timestamp::new(
                (seconds as i128) * PICOS_PER_SECOND + picos,
                TimeUnit::Picoseconds,
            ),
        ),
        Err(reason) => Err(reason),
    }
}

/// `before` and `suffix` without anything between them.
fn joined(before: &[char], suffix: &[char]) -> (text: String)
    ensures
        text@ == before@ + suffix@,
{
    let mut chars: Vec<char> = Vec::new();
    let mut i: usize = 0;
    while i < before.len()
        invariant
            i <= before@.len(),
            chars@ == before@.take(i as int),
        decreases before@.len() - i,
    {
        assert(before@.take(i + 1) == before@.take(i as int).push(before@[i as int]));
        chars.push(before[i]);
        i = i + 1;
    }
    assert(before@.take(i as int) == before@);
    let mut j: usize = 0;
    while j < suffix.len()
        invariant
            j <= suffix@.len(),
            chars@ == before@ + suffix@.take(j as int),
        decreases suffix@.len() - j,
    {
        assert(suffix@.take(j + 1) == suffix@.take(j as int).push(suffix@[j as int]));
        chars.push(suffix[j]);
        j = j + 1;
    }
    assert(suffix@.take(j as int) == suffix@);
    string_of(chars.as_slice())
}

fn parse_iso8601_with_offset(input: &str) -> (read: core::result::Result<Timestamp, String>)
    ensures
        reads(read, iso_with_offset_reading(input@)),
{
    let chars: Vec<char> = chars_of(input);
    if let Some((before, fraction, suffix)) = split_iso8601_fraction(chars.as_slice()) {
        if fraction.len() > MAX_NANOSECOND_DIGITS {
            let whole: String = joined(before, suffix);
            let picos: i128 = frac_digits_to_picos(fraction);
            return offset_picos_timestamp(parse_rfc3339(whole.as_str()), picos);
        }
    }
    offset_timestamp(parse_rfc3339(input))
}

fn parse_iso8601_naive(input: &str) -> (read: core::result::Result<Timestamp, String>)
    ensures
        reads(read, iso_naive_reading(input@)),
{
    let chars: Vec<char> = chars_of(input);
    if let Some((before, fraction, suffix)) = split_iso8601_fraction(chars.as_slice()) {
        if fraction.len() > MAX_NANOSECOND_DIGITS {
            let whole: String = joined(before, suffix);
            let picos: i128 = frac_digits_to_picos(fraction);
            return naive_picos_timestamp(parse_naive(whole.as_str(), "%Y-%m-%dT%H:%M:%S"), picos);
        }
    }
    naive_timestamp(parse_naive(input, "%Y-%m-%dT%H:%M:%S%.f"))
}

/// Reads a decimal number of wholes of `per_whole` nanoseconds.
fn parse_decimal(input: &str, offset: i128, per_whole: i128, complaint: &str) -> (read:
    core::result::Result<Timestamp, String>)
    requires
        0 <= offset,
        0 < per_whole,
    ensures
        reads(read, decimal_reading(input@, offset as int, per_whole as int, complaint@)),
{
    let chars: Vec<char> = chars_of(input);
    match split_decimal(chars.as_slice()) {
        Some((whole, fraction)) => match ticks_of_decimal(
            whole,
            fraction.as_slice(),
            offset,
            per_whole,
        ) {
            Some(ticks) => Ok(Timestamp::new(ticks, TimeUnit::Nanoseconds)),
            None => Err("number is out of range".to_owned()),
        },
        None => Err(complaint.to_owned()),
    }
}

/// Reads `input` under `format`.
fn read_timestamp(input: &str, format: TimestampFormat) -> (read: core::result::Result<
    Timestamp,
    String,
>)
    requires
        format != TimestampFormat::DateTimeSpace,
    ensures
        reads(read, reading(input@, format)),
{
    match format {
        TimestampFormat::Iso8601WithOffset => parse_iso8601_with_offset(input),
        TimestampFormat::Iso8601Naive => parse_iso8601_naive(input),
        TimestampFormat::DayFirst => naive_timestamp(parse_naive(input, "%d/%m/%Y %H:%M:%S")),
        TimestampFormat::MonthFirst => naive_timestamp(parse_naive(input, "%m/%d/%Y %H:%M:%S")),
        TimestampFormat::EpochSeconds => parse_epoch(input, TimeUnit::Seconds),
        TimestampFormat::EpochMillis => parse_epoch(input, TimeUnit::Milliseconds),
        TimestampFormat::EpochMicros => parse_epoch(input, TimeUnit::Microseconds),
        TimestampFormat::EpochNanos => parse_epoch(input, TimeUnit::Nanoseconds),
        TimestampFormat::LabViewEpoch => parse_decimal(
            input,
            LABVIEW_EPOCH_OFFSET_SECONDS,
            NANOS_PER_SECOND,
            "not a decimal number of seconds",
        ),
        TimestampFormat::ExcelSerial => parse_decimal(
            input,
            EXCEL_EPOCH_OFFSET_DAYS,
            NANOS_PER_DAY,
            "not a decimal number of days",
        ),
        TimestampFormat::DateTimeSpace => Err(String::new()),
    }
}

/// Parses `input` as `format`, to that format's native resolution.
///
/// [`TimestampFormat::DateTimeSpace`] is not supported.
pub fn parse_timestamp(input: &str, format: TimestampFormat) -> (timestamp: Result<Timestamp>)
    requires
        format != TimestampFormat::DateTimeSpace,
    ensures
        reports(timestamp, reading(input@, format), input@, format),
{
    match read_timestamp(input, format) {
        Ok(timestamp) => Ok(timestamp),
        Err(reason) => Err(
            GlydeError::InvalidTimestamp { input: input.to_owned(), format, reason },
        ),
    }
}

/// The offset a timestamp is shown at: its own where that is less than a day,
/// and none otherwise.
pub open spec fn display_offset(timestamp: Timestamp) -> i32 {
    match timestamp.offset_seconds {
        Some(offset) => if -86_400 < offset < 86_400 {
            offset
        } else {
            0
        },
        None => 0,
    }
}

/// The digits of the fraction `numerator / denominator`: as few as spell it
/// exactly, at least `digits`, and at most `max`, cut off there.
pub open spec fn fraction_digits(
    numerator: int,
    denominator: int,
    digits: nat,
    max: nat,
) -> Seq<char>
    decreases max - digits,
{
    let scaled = numerator * text::pow10(digits);
    if digits >= max || scaled % denominator == 0 {
        text::fixed_digits((scaled / denominator) as nat, digits)
    } else {
        fraction_digits(numerator, denominator, digits + 1, max)
    }
}

/// The decimal notation of a number of wholes of `per_whole` ticks, counted
/// from `offset` wholes before the Unix epoch.
pub open spec fn decimal_number_text(ticks: int, offset: int, per_whole: int, max: nat) -> Seq<
    char,
> {
    let whole = text::decimal_text(ticks / per_whole + offset);
    if ticks % per_whole == 0 {
        whole
    } else {
        whole + seq!['.'] + fraction_digits(ticks % per_whole, per_whole, 1, max)
    }
}

/// How `timestamp` is written under `format`.
pub open spec fn timestamp_text(timestamp: Timestamp, format: TimestampFormat) -> Seq<char> {
    let ticks = timestamp.ticks as int;
    let seconds = (ticks / (NANOS_PER_SECOND as int)) as i64;
    let nanos = (ticks % (NANOS_PER_SECOND as int)) as u32;
    let whole = (ticks / (PICOS_PER_SECOND as int)) as i64;
    let picos = (ticks % (PICOS_PER_SECOND as int)) as nat;
    let offset = display_offset(timestamp);
    match format {
        TimestampFormat::Iso8601WithOffset => if timestamp.unit == TimeUnit::Picoseconds {
            date_text(whole, 0, offset, "%Y-%m-%dT%H:%M:%S"@) + seq!['.'] + text::fixed_digits(
                picos,
                12,
            ) + date_text(whole, 0, offset, "%:z"@)
        } else {
            date_text(seconds, nanos, offset, "%Y-%m-%dT%H:%M:%S%.f%:z"@)
        },
        TimestampFormat::Iso8601Naive => if timestamp.unit == TimeUnit::Picoseconds {
            date_text(whole, 0, 0, "%Y-%m-%dT%H:%M:%S"@) + seq!['.'] + text::fixed_digits(
                picos,
                12,
            )
        } else {
            date_text(seconds, nanos, 0, "%Y-%m-%dT%H:%M:%S%.f"@)
        },
        TimestampFormat::DayFirst => date_text(seconds, nanos, 0, "%d/%m/%Y %H:%M:%S"@),
        TimestampFormat::MonthFirst => date_text(seconds, nanos, 0, "%m/%d/%Y %H:%M:%S"@),
        TimestampFormat::EpochSeconds => epoch::epoch_text(timestamp, TimeUnit::Seconds),
        TimestampFormat::EpochMillis => epoch::epoch_text(timestamp, TimeUnit::Milliseconds),
        TimestampFormat::EpochMicros => epoch::epoch_text(timestamp, TimeUnit::Microseconds),
        TimestampFormat::EpochNanos => epoch::epoch_text(timestamp, TimeUnit::Nanoseconds),
        TimestampFormat::LabViewEpoch => decimal_number_text(
            ticks,
            LABVIEW_EPOCH_OFFSET_SECONDS as int,
            NANOS_PER_SECOND as int,
            9,
        ),
        TimestampFormat::ExcelSerial => decimal_number_text(
            ticks,
            EXCEL_EPOCH_OFFSET_DAYS as int,
            NANOS_PER_DAY as int,
            12,
        ),
        TimestampFormat::DateTimeSpace => Seq::empty(),
    }
}

/// `timestamp` can be written under `format`: the format is supported, and a
/// format that shows a date is given an instant of the calendar.
pub open spec fn is_writable(timestamp: Timestamp, format: TimestampFormat) -> bool {
    let seconds = timestamp.ticks as int / (NANOS_PER_SECOND as int);
    let whole = timestamp.ticks as int / (PICOS_PER_SECOND as int);
    match format {
        TimestampFormat::Iso8601WithOffset | TimestampFormat::Iso8601Naive => if timestamp.unit
            == TimeUnit::Picoseconds {
            MIN_DATE_SECONDS <= whole <= MAX_DATE_SECONDS
        } else {
            MIN_DATE_SECONDS <= seconds <= MAX_DATE_SECONDS
        },
        TimestampFormat::DayFirst | TimestampFormat::MonthFirst => MIN_DATE_SECONDS <= seconds
            <= MAX_DATE_SECONDS,
        TimestampFormat::DateTimeSpace => false,
        _ => true,
    }
}

/// What is written of `timestamp` under `format` reads back as `timestamp`: it
/// is counted in the unit that the format is read in, carries an offset only
/// where the format shows one, and has nothing that the format leaves out.
pub open spec fn reads_back(timestamp: Timestamp, format: TimestampFormat) -> bool {
    let ticks = timestamp.ticks as int;
    match format {
        TimestampFormat::Iso8601WithOffset => match (timestamp.unit, timestamp.offset_seconds) {
            (TimeUnit::Nanoseconds, Some(offset)) => -86_400 < offset < 86_400 && offset as int
                % 60 == 0 && i64::MIN <= ticks <= i64::MAX,
            (TimeUnit::Picoseconds, Some(offset)) => -86_400 < offset < 86_400 && offset as int
                % 60 == 0 && has_four_digit_year(
                ticks / (PICOS_PER_SECOND as int),
                offset as int,
            ),
            _ => false,
        },
        TimestampFormat::Iso8601Naive => match (timestamp.unit, timestamp.offset_seconds) {
            (TimeUnit::Nanoseconds, None) => i64::MIN <= ticks <= i64::MAX,
            (TimeUnit::Picoseconds, None) => MIN_DATE_SECONDS <= ticks / (PICOS_PER_SECOND as int)
                <= MAX_DATE_SECONDS,
            _ => false,
        },
        TimestampFormat::DayFirst | TimestampFormat::MonthFirst => timestamp.unit
            == TimeUnit::Nanoseconds && timestamp.offset_seconds is None && i64::MIN <= ticks
            <= i64::MAX && ticks % (NANOS_PER_SECOND as int) == 0,
        TimestampFormat::EpochSeconds => epoch::epoch_reads_back(timestamp, TimeUnit::Seconds),
        TimestampFormat::EpochMillis => epoch::epoch_reads_back(timestamp, TimeUnit::Milliseconds),
        TimestampFormat::EpochMicros => epoch::epoch_reads_back(timestamp, TimeUnit::Microseconds),
        TimestampFormat::EpochNanos => epoch::epoch_reads_back(timestamp, TimeUnit::Nanoseconds),
        TimestampFormat::LabViewEpoch => timestamp.unit == TimeUnit::Nanoseconds
            && timestamp.offset_seconds is None && (ticks / (NANOS_PER_SECOND as int))
            * NANOS_PER_SECOND >= i128::MIN,
        TimestampFormat::ExcelSerial => timestamp.unit == TimeUnit::Nanoseconds
            && timestamp.offset_seconds is None && (ticks / (NANOS_PER_DAY as int))
            * NANOS_PER_DAY >= i128::MIN && ((ticks % (NANOS_PER_DAY as int))
            * 1_000_000_000_000) % (NANOS_PER_DAY as int) == 0,
        TimestampFormat::DateTimeSpace => false,
    }
}

/// Rounded-down quotient and remainder.
fn split_ticks(ticks: i128, per_whole: i128) -> (parts: (i128, i128))
    requires
        1 < per_whole,
    ensures
        parts.0 == ticks as int / (per_whole as int),
        parts.1 == ticks as int % (per_whole as int),
        0 <= parts.1 < per_whole,
{
    proof {
        let t = ticks as int;
        let p = per_whole as int;
        assert(i128::MIN <= t / p <= i128::MAX && 0 <= t % p < p) by (nonlinear_arith)
            requires
                1 < p,
                i128::MIN <= t <= i128::MAX,
        ;
    }
    match (ticks.checked_div_euclid(per_whole), ticks.checked_rem_euclid(per_whole)) {
        (Some(whole), Some(rest)) => (whole, rest),
        _ => (0, 0),
    }
}

/// Whether `timestamp` can be written under `format`.
pub fn can_format(timestamp: &Timestamp, format: TimestampFormat) -> (writable: bool)
    ensures
        writable == is_writable(*timestamp, format),
{
    let per_whole: i128 = match format {
        TimestampFormat::Iso8601WithOffset | TimestampFormat::Iso8601Naive => if timestamp.unit
            == TimeUnit::Picoseconds {
            PICOS_PER_SECOND
        } else {
            NANOS_PER_SECOND
        },
        TimestampFormat::DayFirst | TimestampFormat::MonthFirst => NANOS_PER_SECOND,
        TimestampFormat::DateTimeSpace => {
            return false;
        },
        _ => {
            return true;
        },
    };
    let (seconds, _) = split_ticks(timestamp.ticks, per_whole);
    MIN_DATE_SECONDS as i128 <= seconds && seconds <= MAX_DATE_SECONDS as i128
}

/// The whole seconds and the picoseconds of a picosecond timestamp.
pub fn split_picosecond_ticks(timestamp: &Timestamp) -> (parts: (i128, i128))
    ensures
        parts.0 == timestamp.ticks as int / (PICOS_PER_SECOND as int),
        parts.1 == timestamp.ticks as int % (PICOS_PER_SECOND as int),
        0 <= parts.1 < PICOS_PER_SECOND,
{
    split_ticks(timestamp.ticks, PICOS_PER_SECOND)
}

fn shown_offset(timestamp: &Timestamp) -> (offset: i32)
    ensures
        offset == display_offset(*timestamp),
        -86_400 < offset < 86_400,
{
    match timestamp.offset_seconds {
        Some(offset) => if -86_400 < offset && offset < 86_400 {
            offset
        } else {
            0
        },
        None => 0,
    }
}

/// The digits behind the point of a fraction of a whole: as few as spell it
/// exactly, and at most `max_digits`, where the rest is cut off.
pub fn fraction_to_decimal_digits(numerator: i128, denominator: i128, max_digits: usize) -> (digits:
    Vec<char>)
    requires
        0 <= numerator < denominator,
        1 <= max_digits,
        numerator * text::pow10(max_digits as nat) <= i128::MAX,
    ensures
        digits@ == fraction_digits(numerator as int, denominator as int, 1, max_digits as nat),
{
    let mut width: usize = 1;
    loop
        invariant
            0 <= numerator < denominator,
            1 <= width <= max_digits,
            numerator == 0 ==> width == 1,
            numerator * text::pow10(max_digits as nat) <= i128::MAX,
            fraction_digits(numerator as int, denominator as int, 1, max_digits as nat)
                == fraction_digits(
                numerator as int,
                denominator as int,
                width as nat,
                max_digits as nat,
            ),
        decreases max_digits - width,
    {
        proof {
            lemma_scaled_numerator_fits(numerator as int, width as nat, max_digits as nat);
        }
        let power: i128 = power_of_ten(width);
        let scaled: i128 = numerator * power;
        if width == max_digits || scaled % denominator == 0 {
            let mut digits: Vec<char> = Vec::new();
            assert(scaled / denominator >= 0) by (nonlinear_arith)
                requires
                    scaled >= 0,
                    denominator > 0,
            ;
            push_fixed(&mut digits, (scaled / denominator) as u128, width);
            assert(digits@ == fraction_digits(
                numerator as int,
                denominator as int,
                width as nat,
                max_digits as nat,
            ));
            return digits;
        }
        assert(numerator != 0) by {
            assert(0 * power == 0) by (nonlinear_arith);
            assert(0int % (denominator as int) == 0) by (nonlinear_arith)
                requires
                    denominator > 0,
            ;
        }
        width = width + 1;
    }
}

/// A numerator that can be scaled to the most digits can be scaled to fewer.
proof fn lemma_scaled_numerator_fits(numerator: int, width: nat, max: nat)
    requires
        0 <= numerator,
        1 <= width <= max,
        numerator == 0 ==> width == 1,
        numerator * text::pow10(max) <= i128::MAX,
    ensures
        width <= 38,
        0 <= numerator * text::pow10(width) <= i128::MAX,
{
    let power = text::pow10(width) as int;
    let most = text::pow10(max) as int;
    text::lemma_pow10_positive(width);
    text::lemma_pow10_monotone(width, max);
    assert(0 <= numerator * power <= numerator * most) by (nonlinear_arith)
        requires
            0 <= numerator,
            0 <= power <= most,
    ;
    if width > 38 {
        text::lemma_pow10_monotone(39, width);
        lemma_largest_power();
        assert(text::pow10(39) == 10 * text::pow10(38));
        assert(numerator * power >= power) by (nonlinear_arith)
            requires
                numerator >= 1,
                power >= 0,
        ;
    }
}

/// Writes a decimal number of wholes of `per_whole` ticks.
fn write_decimal(ticks: i128, offset: i128, per_whole: i128, max_digits: usize) -> (text: String)
    requires
        0 <= offset <= LABVIEW_EPOCH_OFFSET_SECONDS,
        NANOS_PER_SECOND <= per_whole <= NANOS_PER_DAY,
        1 <= max_digits <= 12,
    ensures
        text@ == decimal_number_text(
            ticks as int,
            offset as int,
            per_whole as int,
            max_digits as nat,
        ),
{
    let (whole, rest) = split_ticks(ticks, per_whole);
    proof {
        let t = ticks as int;
        let p = per_whole as int;
        assert(t / p <= i128::MAX / 1_000_000_000) by (nonlinear_arith)
            requires
                t <= i128::MAX,
                1_000_000_000 <= p,
        ;
    }
    let mut chars: Vec<char> = Vec::new();
    push_decimal(&mut chars, whole + offset);
    if rest != 0 {
        proof {
            text::lemma_pow10_monotone(max_digits as nat, 12);
            assert(text::pow10(12) == 1_000_000_000_000) by {
                reveal_with_fuel(text::pow10, 13);
            }
            let a = rest as int;
            let b = text::pow10(max_digits as nat) as int;
            assert(a * b <= 86_400_000_000_000 * 1_000_000_000_000) by (nonlinear_arith)
                requires
                    0 <= a <= 86_400_000_000_000,
                    0 <= b <= 1_000_000_000_000,
            ;
        }
        let fraction: Vec<char> = fraction_to_decimal_digits(rest, per_whole, max_digits);
        chars.push('.');
        let text: String = joined(chars.as_slice(), fraction.as_slice());
        assert(text@ == decimal_number_text(
            ticks as int,
            offset as int,
            per_whole as int,
            max_digits as nat,
        ));
        return text;
    }
    string_of(chars.as_slice())
}

/// Writes an instant counted in nanoseconds under the pattern of a format that
/// shows a date.
fn write_nanos(
    timestamp: &Timestamp,
    offset: i32,
    pattern: &str,
    format: TimestampFormat,
) -> (text: String)
    requires
        timestamp.unit != TimeUnit::Picoseconds || format == TimestampFormat::DayFirst || format
            == TimestampFormat::MonthFirst,
        is_writable(*timestamp, format),
        match format {
            TimestampFormat::Iso8601WithOffset => offset == display_offset(*timestamp) && pattern@
                == "%Y-%m-%dT%H:%M:%S%.f%:z"@,
            TimestampFormat::Iso8601Naive => offset == 0 && pattern@ == "%Y-%m-%dT%H:%M:%S%.f"@,
            TimestampFormat::DayFirst => offset == 0 && pattern@ == "%d/%m/%Y %H:%M:%S"@,
            TimestampFormat::MonthFirst => offset == 0 && pattern@ == "%m/%d/%Y %H:%M:%S"@,
            _ => false,
        },
    ensures
        text@ == timestamp_text(*timestamp, format),
        reads_back(*timestamp, format) ==> reading(text@, format) == Ok::<Timestamp, Seq<char>>(
            *timestamp,
        ),
{
    let (seconds, nanos) = split_ticks(timestamp.ticks, NANOS_PER_SECOND);
    write_date(seconds as i64, nanos as u32, offset, pattern)
}

/// Writes an instant counted in picoseconds as ISO 8601, with all twelve
/// fractional digits, and its offset where `with_offset` asks for it.
fn write_picos(timestamp: &Timestamp, with_offset: bool) -> (text: String)
    requires
        MIN_DATE_SECONDS <= timestamp.ticks as int / (PICOS_PER_SECOND as int)
            <= MAX_DATE_SECONDS,
        timestamp.unit == TimeUnit::Picoseconds,
    ensures
        text@ == timestamp_text(
            *timestamp,
            if with_offset {
                TimestampFormat::Iso8601WithOffset
            } else {
                TimestampFormat::Iso8601Naive
            },
        ),
        with_offset && reads_back(*timestamp, TimestampFormat::Iso8601WithOffset) ==> reading(
            text@,
            TimestampFormat::Iso8601WithOffset,
        ) == Ok::<Timestamp, Seq<char>>(*timestamp),
        !with_offset && reads_back(*timestamp, TimestampFormat::Iso8601Naive) ==> reading(
            text@,
            TimestampFormat::Iso8601Naive,
        ) == Ok::<Timestamp, Seq<char>>(*timestamp),
{
    let (whole, picos) = split_picosecond_ticks(timestamp);
    let offset: i32 = if with_offset {
        shown_offset(timestamp)
    } else {
        0
    };
    let date: String = write_date(whole as i64, 0, offset, "%Y-%m-%dT%H:%M:%S");
    let mut chars: Vec<char> = chars_of(date.as_str());
    chars.push('.');
    push_fixed(&mut chars, picos as u128, 12);
    if with_offset {
        let zone: String = write_date(whole as i64, 0, offset, "%:z");
        push_text(&mut chars, zone.as_str());
        proof {
            crate::time::round_trip::lemma_written_fraction(date@, picos as nat, zone@);
            let digits = text::fixed_digits(picos as nat, 12);
            assert(chars@ == date@ + seq!['.'] + digits + zone@);
            assert(iso_with_offset_reading(chars@) == offset_picos_reading(
                rfc3339_instant(date@ + zone@),
                picos as int,
            ));
            assert(whole * PICOS_PER_SECOND + picos == timestamp.ticks);
            if reads_back(*timestamp, TimestampFormat::Iso8601WithOffset) {
                assert(timestamp.offset_seconds == Some(offset));
                assert(is_read_with_offset(date@ + zone@, whole as i64, 0, offset));
            }
        }
    } else {
        proof {
            crate::time::round_trip::lemma_written_fraction(
                date@,
                picos as nat,
                Seq::empty(),
            );
            assert(chars@ == date@ + seq!['.'] + text::fixed_digits(picos as nat, 12)
                + Seq::<char>::empty());
            assert(date@ + Seq::<char>::empty() == date@);
        }
    }
    string_of(chars.as_slice())
}

/// Writes an epoch time under the format of `unit`.
fn write_epoch_format(timestamp: &Timestamp, unit: TimeUnit, format: TimestampFormat) -> (text:
    String)
    requires
        crate::time::inference::epoch_unit_of(format) == Some(unit),
    ensures
        text@ == timestamp_text(*timestamp, format),
        reads_back(*timestamp, format) ==> reading(text@, format) == Ok::<Timestamp, Seq<char>>(
            *timestamp,
        ),
{
    proof {
        if reads_back(*timestamp, format) {
            epoch::law_epoch_text_round_trips(*timestamp, unit, format);
        }
    }
    write_epoch(timestamp, unit)
}

/// Writes `timestamp` in `format`'s textual form.
pub fn format_timestamp(timestamp: &Timestamp, format: TimestampFormat) -> (text: String)
    requires
        is_writable(*timestamp, format),
    ensures
        text@ == timestamp_text(*timestamp, format),
        reads_back(*timestamp, format) ==> reading(text@, format) == Ok::<Timestamp, Seq<char>>(
            *timestamp,
        ),
{
    match format {
        TimestampFormat::Iso8601WithOffset => if timestamp.unit == TimeUnit::Picoseconds {
            write_picos(timestamp, true)
        } else {
            write_nanos(timestamp, shown_offset(timestamp), "%Y-%m-%dT%H:%M:%S%.f%:z", format)
        },
        TimestampFormat::Iso8601Naive => if timestamp.unit == TimeUnit::Picoseconds {
            write_picos(timestamp, false)
        } else {
            write_nanos(timestamp, 0, "%Y-%m-%dT%H:%M:%S%.f", format)
        },
        TimestampFormat::DayFirst => write_nanos(timestamp, 0, "%d/%m/%Y %H:%M:%S", format),
        TimestampFormat::MonthFirst => write_nanos(timestamp, 0, "%m/%d/%Y %H:%M:%S", format),
        TimestampFormat::EpochSeconds => write_epoch_format(timestamp, TimeUnit::Seconds, format),
        TimestampFormat::EpochMillis => write_epoch_format(
            timestamp,
            TimeUnit::Milliseconds,
            format,
        ),
        TimestampFormat::EpochMicros => write_epoch_format(
            timestamp,
            TimeUnit::Microseconds,
            format,
        ),
        TimestampFormat::EpochNanos => write_epoch_format(
            timestamp,
            TimeUnit::Nanoseconds,
            format,
        ),
        TimestampFormat::LabViewEpoch => {
            proof {
                if reads_back(*timestamp, format) {
                    crate::time::round_trip::law_labview_text_round_trips(timestamp.ticks);
                }
            }
            write_decimal(timestamp.ticks, LABVIEW_EPOCH_OFFSET_SECONDS, NANOS_PER_SECOND, 9)
        },
        TimestampFormat::ExcelSerial => {
            proof {
                if reads_back(*timestamp, format) {
                    crate::time::round_trip::law_excel_text_round_trips(timestamp.ticks);
                }
            }
            write_decimal(timestamp.ticks, EXCEL_EPOCH_OFFSET_DAYS, NANOS_PER_DAY, 12)
        },
        TimestampFormat::DateTimeSpace => String::new(),
    }
}

} // verus!
