//! How far apart the ticks of a column can lie whose format was found in its
//! fields.
//!
//! Such a column holds plausible numbers or calendar dates, so that the
//! difference of any two of its ticks can be counted.

use vstd::prelude::*;
use crate::text;
use crate::time::format::{NANOS_PER_DAY, NANOS_PER_SECOND};
use crate::time::inference;
use crate::time::ticks;
use crate::time::{Timestamp, TimestampFormat};

verus! {

/// A number of ticks so small that the difference of two of them can be
/// counted.
pub open spec fn is_moderate(ticks: int) -> bool {
    -0x2000_0000_0000_0000_0000_0000_0000_0000 <= ticks
        <= 0x2000_0000_0000_0000_0000_0000_0000_0000
}

proof fn lemma_trim_start_shape(s: Seq<char>)
    ensures
        text::trim_start(s).len() > 0 ==> !text::is_space_spec(text::trim_start(s)[0]),
    decreases s.len(),
{
    if s.len() > 0 && text::is_space_spec(s[0]) {
        lemma_trim_start_shape(s.skip(1));
    }
}

proof fn lemma_trim_end_shape(s: Seq<char>)
    ensures
        text::trim_end(s).len() > 0 ==> {
            &&& !text::is_space_spec(text::trim_end(s).last())
            &&& s.len() > 0
            &&& text::trim_end(s)[0] == s[0]
        },
    decreases s.len(),
{
    if s.len() > 0 && text::is_space_spec(s.last()) {
        lemma_trim_end_shape(s.drop_last());
    }
}

/// A text without white space around it is left alone.
proof fn lemma_trimmed_twice(s: Seq<char>)
    ensures
        text::trimmed(text::trimmed(s)) == text::trimmed(s),
{
    lemma_trim_start_shape(s);
    lemma_trim_end_shape(text::trim_start(s));
}

proof fn lemma_digit_prefix(s: Seq<char>)
    ensures
        0 <= text::digit_prefix_len(s) <= s.len(),
        text::all_digits(s.take(text::digit_prefix_len(s))),
    decreases s.len(),
{
    if s.len() > 0 && text::is_digit_spec(s[0]) {
        let rest = s.skip(1);
        lemma_digit_prefix(rest);
        let n = text::digit_prefix_len(s);
        assert forall|i: int| 0 <= i < n implies text::is_digit_spec(#[trigger] s.take(n)[i]) by {
            if i > 0 {
                assert(text::is_digit_spec(rest.take(n - 1)[i - 1]));
            }
        }
    }
}

/// A fraction of a second is less than one.
proof fn lemma_picos_bound(fraction: Seq<char>)
    requires
        text::all_digits(fraction),
    ensures
        0 <= crate::time::format::picos_of(fraction) < 1_000_000_000_000,
{
    let len = if fraction.len() < 12 {
        fraction.len() as int
    } else {
        12
    };
    let kept = fraction.take(len);
    assert forall|i: int| 0 <= i < kept.len() implies text::is_digit_spec(#[trigger] kept[i]) by {
        assert(text::is_digit_spec(fraction[i]));
    }
    text::lemma_digits_value_bound(kept);
    text::lemma_pow10_positive((12 - len) as nat);
    text::lemma_pow10_adds(len as nat, (12 - len) as nat);
    let value = text::digits_value(kept) as int;
    let scale = text::pow10((12 - len) as nat) as int;
    let most = text::pow10(len as nat) as int;
    assert(0 <= value * scale < most * scale) by (nonlinear_arith)
        requires
            0 <= value < most,
            0 < scale,
    ;
    assert(text::pow10(12) == 1_000_000_000_000) by {
        reveal_with_fuel(text::pow10, 13);
    }
}

/// A fraction of a whole is less than one.
proof fn lemma_fraction_bound(fraction: Seq<char>, per_whole: int)
    requires
        text::all_digits(fraction),
        0 < per_whole,
    ensures
        0 <= crate::time::format::fraction_ticks(fraction, per_whole) <= per_whole,
{
    text::lemma_digits_value_bound(fraction);
    text::lemma_pow10_positive(fraction.len());
    let value = text::digits_value(fraction) as int;
    let most = text::pow10(fraction.len()) as int;
    assert(0 <= value * per_whole <= per_whole * most) by (nonlinear_arith)
        requires
            0 <= value < most,
            0 < per_whole,
    ;
    let product = value * per_whole;
    assert(0 <= product / most <= per_whole) by (nonlinear_arith)
        requires
            0 <= product <= per_whole * most,
            0 < most,
    ;
}

/// A date, or a plausible number, is a moderate number of ticks.
proof fn lemma_plausible_is_moderate(field: Seq<char>, format: TimestampFormat)
    requires
        inference::is_numeric(format) ==> inference::numeric_match(field, format),
    ensures
        crate::time::format::reading(field, format) matches Ok(timestamp) ==> is_moderate(
            timestamp.ticks as int,
        ),
{
    match format {
        TimestampFormat::Iso8601WithOffset | TimestampFormat::Iso8601Naive => {
            match crate::time::format::iso_fraction(field) {
                Some((before, fraction, suffix)) => {
                    lemma_digit_prefix(field.skip(text::first_index(field, '.') + 1));
                    lemma_picos_bound(fraction);
                },
                None => {},
            }
        },
        TimestampFormat::LabViewEpoch => {
            lemma_decimal_is_moderate(field, format, NANOS_PER_SECOND as int);
        },
        TimestampFormat::ExcelSerial => {
            lemma_decimal_is_moderate(field, format, NANOS_PER_DAY as int);
        },
        _ => {},
    }
}

proof fn lemma_decimal_is_moderate(field: Seq<char>, format: TimestampFormat, per_whole: int)
    requires
        format == TimestampFormat::LabViewEpoch && per_whole == NANOS_PER_SECOND || format
            == TimestampFormat::ExcelSerial && per_whole == NANOS_PER_DAY,
        inference::numeric_match(field, format),
    ensures
        crate::time::format::reading(field, format) matches Ok(timestamp) ==> is_moderate(
            timestamp.ticks as int,
        ),
{
    lemma_trimmed_twice(field);
    match crate::time::format::decimal_parts(field) {
        Some((whole, fraction)) => {
            lemma_fraction_bound(fraction, per_whole);
        },
        None => {},
    }
}

/// A column whose format was found in its fields has ticks whose differences
/// can be counted.
pub proof fn law_found_formats_have_countable_differences(
    fields: Seq<Seq<char>>,
    timestamps: Seq<Timestamp>,
    format: TimestampFormat,
)
    requires
        inference::inferred_format(fields) matches Some(found) && found.format == format,
        timestamps.len() == fields.len(),
        forall|i: int|
            0 <= i < fields.len() ==> crate::time::format::reading(#[trigger] fields[i], format)
                == Ok::<Timestamp, Seq<char>>(timestamps[i]),
    ensures
        ticks::deltas_fit(Seq::new(timestamps.len(), |i: int| timestamps[i].ticks)),
{
    assert forall|i: int| 0 <= i < fields.len() implies is_moderate(
        (#[trigger] timestamps[i]).ticks as int,
    ) by {
        assert(inference::is_numeric(format) ==> inference::numeric_match(fields[i], format));
        lemma_plausible_is_moderate(fields[i], format);
        assert(crate::time::format::reading(fields[i], format) is Ok);
    }
    let all = Seq::new(timestamps.len(), |i: int| timestamps[i].ticks);
    assert forall|i: int| 0 <= i < all.len() - 1 implies i128::MIN <= #[trigger] all[i + 1] - all[i]
        <= i128::MAX by {
        assert(is_moderate(timestamps[i].ticks as int));
        assert(is_moderate(timestamps[i + 1].ticks as int));
    }
}

} // verus!
