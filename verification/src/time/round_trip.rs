//! Writing a timestamp and reading it back.

use vstd::prelude::*;
use crate::text;
use crate::time::format::{
    TimeUnit, Timestamp, TimestampFormat, EXCEL_EPOCH_OFFSET_DAYS, LABVIEW_EPOCH_OFFSET_SECONDS,
    NANOS_PER_DAY, NANOS_PER_SECOND, PICOS_PER_SECOND,
};

verus! {

/// Nothing is trimmed from a text that neither begins nor ends with white
/// space.
pub proof fn lemma_trimmed_unchanged(s: Seq<char>)
    requires
        s.len() > 0,
        !text::is_space_spec(s[0]),
        !text::is_space_spec(s.last()),
    ensures
        text::trimmed(s) == s,
{
}

pub proof fn lemma_decimal_text_chars(n: int)
    ensures
        text::decimal_text(n).len() > 0,
        text::is_digit_spec(text::decimal_text(n).last()),
        text::decimal_text(n)[0] == '-' || text::is_digit_spec(text::decimal_text(n)[0]),
        forall|i: int|
            0 <= i < text::decimal_text(n).len() ==> #[trigger] text::decimal_text(n)[i] == '-'
                || text::is_digit_spec(text::decimal_text(n)[i]),
{
    let magnitude = (if n < 0 {
        -n
    } else {
        n
    }) as nat;
    let digits = text::decimal_digits(magnitude);
    text::lemma_decimal_digits(magnitude);
    assert(text::is_digit_spec(digits[digits.len() - 1]));
    assert(text::is_digit_spec(digits[0]));
    let s = text::decimal_text(n);
    assert forall|i: int| 0 <= i < s.len() implies #[trigger] s[i] == '-' || text::is_digit_spec(
        s[i],
    ) by {
        if n < 0 {
            if i > 0 {
                assert(s[i] == digits[i - 1]);
            }
        } else {
            assert(s[i] == digits[i]);
        }
    }
}

/// The first `c` of a text stands behind a prefix that has none.
pub proof fn lemma_first_index_behind(prefix: Seq<char>, c: char, rest: Seq<char>)
    requires
        forall|i: int| 0 <= i < prefix.len() ==> #[trigger] prefix[i] != c,
        rest.len() == 0 || rest[0] == c,
    ensures
        text::first_index(prefix + rest, c) == prefix.len(),
    decreases prefix.len(),
{
    let s = prefix + rest;
    if prefix.len() > 0 {
        assert(s[0] == prefix[0]);
        assert(s.skip(1) == prefix.skip(1) + rest);
        assert forall|i: int| 0 <= i < prefix.skip(1).len() implies #[trigger] prefix.skip(1)[i]
            != c by {
            assert(prefix.skip(1)[i] == prefix[i + 1]);
        }
        lemma_first_index_behind(prefix.skip(1), c, rest);
    } else {
        assert(s == rest);
    }
}

/// A fraction that has an exact decimal expansion of at most `max` digits is
/// written exactly.
pub proof fn lemma_exact_fraction(numerator: int, denominator: int, digits: nat, max: nat)
    requires
        0 <= numerator < denominator,
        1 <= digits <= max,
        (numerator * text::pow10(max)) % denominator == 0,
    ensures
        ({
            let written = crate::time::format::fraction_digits(
                numerator,
                denominator,
                digits,
                max,
            );
            &&& digits <= written.len() <= max
            &&& text::all_digits(written)
            &&& text::digits_value(written) < text::pow10(written.len())
            &&& text::digits_value(written) * denominator == numerator * text::pow10(
                written.len(),
            )
        }),
    decreases max - digits,
{
    let scaled = numerator * text::pow10(digits);
    if digits >= max || scaled % denominator == 0 {
        let value = scaled / denominator;
        text::lemma_pow10_positive(digits);
        let power = text::pow10(digits) as int;
        assert(0 <= value < power && value * denominator == scaled) by (nonlinear_arith)
            requires
                scaled == numerator * power,
                value == scaled / denominator,
                scaled % denominator == 0,
                0 <= numerator < denominator,
                power >= 1,
        ;
        text::lemma_fixed_digits(value as nat, digits);
    } else {
        lemma_exact_fraction(numerator, denominator, digits + 1, max);
    }
}

proof fn lemma_decimal_number_round_trips(
    ticks: int,
    offset: int,
    per_whole: int,
    max: nat,
)
    requires
        i128::MIN <= ticks <= i128::MAX,
        0 <= offset <= LABVIEW_EPOCH_OFFSET_SECONDS,
        NANOS_PER_SECOND <= per_whole <= NANOS_PER_DAY,
        1 <= max <= 12,
        (ticks / per_whole) * per_whole >= i128::MIN,
        ((ticks % per_whole) * text::pow10(max)) % per_whole == 0,
    ensures
        ({
            let written = crate::time::format::decimal_number_text(ticks, offset, per_whole, max);
            match crate::time::format::decimal_parts(written) {
                Some((whole, fraction)) => crate::time::format::decimal_ticks(
                    whole,
                    fraction,
                    offset,
                    per_whole,
                ) == Some(ticks),
                None => false,
            }
        }),
{
    let quotient = ticks / per_whole;
    let rest = ticks % per_whole;
    let whole = quotient + offset;
    assert(quotient * per_whole + rest == ticks && 0 <= rest < per_whole) by (nonlinear_arith)
        requires
            quotient == ticks / per_whole,
            rest == ticks % per_whole,
            per_whole > 0,
    ;
    assert(i128::MIN <= quotient <= i128::MAX / 1_000_000_000) by (nonlinear_arith)
        requires
            quotient == ticks / per_whole,
            i128::MIN <= ticks <= i128::MAX,
            per_whole >= 1_000_000_000,
    ;
    let prefix = text::decimal_text(whole);
    lemma_decimal_text_chars(whole);
    text::law_decimal_text_round_trips(whole, i128::MIN as int, i128::MAX as int);
    let written = crate::time::format::decimal_number_text(ticks, offset, per_whole, max);
    if rest == 0 {
        lemma_trimmed_unchanged(prefix);
        lemma_first_index_behind(prefix, '.', Seq::empty());
        assert(prefix + Seq::<char>::empty() == prefix);
        assert(prefix.take(prefix.len() as int) == prefix);
        assert(text::digits_value(Seq::<char>::empty()) == 0);
        assert(0 * per_whole == 0) by (nonlinear_arith);
    } else {
        let fraction = crate::time::format::fraction_digits(rest, per_whole, 1, max);
        lemma_exact_fraction(rest, per_whole, 1, max);
        assert(text::is_digit_spec(fraction[fraction.len() - 1]));
        assert(written == prefix + (seq!['.'] + fraction));
        assert(written.last() == fraction.last());
        assert(written[0] == prefix[0]);
        lemma_trimmed_unchanged(written);
        lemma_first_index_behind(prefix, '.', seq!['.'] + fraction);
        assert(written.take(prefix.len() as int) == prefix);
        assert(written.skip(prefix.len() as int + 1) == fraction);
        let value = text::digits_value(fraction) as int;
        let power = text::pow10(fraction.len()) as int;
        text::lemma_pow10_positive(fraction.len());
        text::lemma_pow10_monotone(fraction.len(), 12);
        assert(text::pow10(12) == 1_000_000_000_000) by {
            reveal_with_fuel(text::pow10, 13);
        }
        assert((value * per_whole) / power == rest) by (nonlinear_arith)
            requires
                value * per_whole == rest * power,
                power >= 1,
        ;
        assert(value * per_whole <= 86_400_000_000_000 * 1_000_000_000_000) by (nonlinear_arith)
            requires
                0 <= value <= 1_000_000_000_000,
                0 <= per_whole <= 86_400_000_000_000,
        ;
    }
}

/// A LabVIEW timestamp reads back exactly as it was written. Instants within a
/// second of the earliest countable one are left out: their whole seconds
/// cannot be counted.
pub proof fn law_labview_text_round_trips(ticks: i128)
    requires
        (ticks as int / (NANOS_PER_SECOND as int)) * NANOS_PER_SECOND >= i128::MIN,
    ensures
        ({
            let timestamp = Timestamp {
                ticks,
                unit: TimeUnit::Nanoseconds,
                offset_seconds: None,
            };
            crate::time::format::reading(
                crate::time::format::timestamp_text(timestamp, TimestampFormat::LabViewEpoch),
                TimestampFormat::LabViewEpoch,
            ) == Ok::<Timestamp, Seq<char>>(timestamp)
        }),
{
    let rest = ticks as int % (NANOS_PER_SECOND as int);
    assert(text::pow10(9) == 1_000_000_000) by {
        reveal_with_fuel(text::pow10, 10);
    }
    assert((rest * 1_000_000_000) % 1_000_000_000 == 0) by (nonlinear_arith);
    lemma_decimal_number_round_trips(
        ticks as int,
        LABVIEW_EPOCH_OFFSET_SECONDS as int,
        NANOS_PER_SECOND as int,
        9,
    );
}

/// An Excel serial date whose time of day has at most twelve decimal digits
/// reads back exactly as it was written. Other times of day are cut off when
/// written.
pub proof fn law_excel_text_round_trips(ticks: i128)
    requires
        (ticks as int / (NANOS_PER_DAY as int)) * NANOS_PER_DAY >= i128::MIN,
        ((ticks as int % (NANOS_PER_DAY as int)) * 1_000_000_000_000) % (NANOS_PER_DAY as int)
            == 0,
    ensures
        ({
            let timestamp = Timestamp {
                ticks,
                unit: TimeUnit::Nanoseconds,
                offset_seconds: None,
            };
            crate::time::format::reading(
                crate::time::format::timestamp_text(timestamp, TimestampFormat::ExcelSerial),
                TimestampFormat::ExcelSerial,
            ) == Ok::<Timestamp, Seq<char>>(timestamp)
        }),
{
    assert(text::pow10(12) == 1_000_000_000_000) by {
        reveal_with_fuel(text::pow10, 13);
    }
    lemma_decimal_number_round_trips(
        ticks as int,
        EXCEL_EPOCH_OFFSET_DAYS as int,
        NANOS_PER_DAY as int,
        12,
    );
}

proof fn lemma_digit_prefix_of(digits: Seq<char>, rest: Seq<char>)
    requires
        text::all_digits(digits),
        rest.len() == 0 || !text::is_digit_spec(rest[0]),
    ensures
        text::digit_prefix_len(digits + rest) == digits.len(),
    decreases digits.len(),
{
    let s = digits + rest;
    if digits.len() > 0 {
        assert(s[0] == digits[0]);
        assert(s.skip(1) == digits.skip(1) + rest);
        assert forall|i: int| 0 <= i < digits.skip(1).len() implies text::is_digit_spec(
            #[trigger] digits.skip(1)[i],
        ) by {
            assert(digits.skip(1)[i] == digits[i + 1]);
        }
        lemma_digit_prefix_of(digits.skip(1), rest);
    } else {
        assert(s == rest);
    }
}

/// A date, a point, twelve digits and an offset part again where they were
/// joined.
pub proof fn lemma_written_fraction(date: Seq<char>, picos: nat, zone: Seq<char>)
    requires
        picos < PICOS_PER_SECOND,
        forall|i: int| 0 <= i < date.len() ==> #[trigger] date[i] != '.',
        zone.len() == 0 || !text::is_digit_spec(zone[0]),
    ensures
        ({
            let digits = text::fixed_digits(picos, 12);
            &&& crate::time::format::iso_fraction(date + seq!['.'] + digits + zone) == Some(
                (date, digits, zone),
            )
            &&& digits.len() == 12
            &&& crate::time::format::picos_of(digits) == picos
        }),
{
    let digits = text::fixed_digits(picos, 12);
    assert(text::pow10(12) == 1_000_000_000_000) by {
        reveal_with_fuel(text::pow10, 13);
    }
    text::lemma_fixed_digits(picos, 12);
    let s = date + seq!['.'] + digits + zone;
    assert(s == date + (seq!['.'] + (digits + zone)));
    lemma_first_index_behind(date, '.', seq!['.'] + (digits + zone));
    assert(s.take(date.len() as int) == date);
    let after = s.skip(date.len() as int + 1);
    assert(after == digits + zone);
    lemma_digit_prefix_of(digits, zone);
    assert(after.take(12) == digits);
    assert(after.skip(12) == zone);
    assert(digits.take(12) == digits);
    assert(text::digits_value(digits) * text::pow10(0) == picos) by (nonlinear_arith)
        requires
            text::digits_value(digits) == picos,
            text::pow10(0) == 1,
    ;
}

} // verus!
