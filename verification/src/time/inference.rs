//! Which timestamp format a column is written in.

use vstd::prelude::*;
use vstd::slice::slice_subrange;
use crate::text;
use crate::text::{chars_of, find, parse_i128, parse_u32, string_of, trim};
use crate::time::format::{
    parse_timestamp, split_decimal, TimeUnit, TimestampFormat, EXCEL_EPOCH_OFFSET_DAYS,
    LABVIEW_EPOCH_OFFSET_SECONDS, SECONDS_PER_DAY,
};

verus! {

/// Which format a column is written in, and whether another one would have
/// explained it just as well.
#[derive(Debug, Clone, Copy, PartialEq, Eq, Structural)]
pub struct TimestampFormatInference {
    pub format: TimestampFormat,
    /// The column reads as a second format too, and `format` is the likelier
    /// of the two.
    pub ambiguous: bool,
}

/// From this second on, a bare number is taken for an epoch time.
pub const MIN_PLAUSIBLE_SECONDS: i128 = 1_000_000_000;

/// From this second on, it no longer is.
pub const MAX_PLAUSIBLE_SECONDS: i128 = 10_000_000_000;

/// The unit of an epoch format.
pub open spec fn epoch_unit_of(format: TimestampFormat) -> Option<TimeUnit> {
    match format {
        TimestampFormat::EpochSeconds => Some(TimeUnit::Seconds),
        TimestampFormat::EpochMillis => Some(TimeUnit::Milliseconds),
        TimestampFormat::EpochMicros => Some(TimeUnit::Microseconds),
        TimestampFormat::EpochNanos => Some(TimeUnit::Nanoseconds),
        _ => None,
    }
}

/// The unit of an epoch format.
pub fn epoch_unit(format: TimestampFormat) -> (unit: Option<TimeUnit>)
    ensures
        unit == epoch_unit_of(format),
{
    match format {
        TimestampFormat::EpochSeconds => Some(TimeUnit::Seconds),
        TimestampFormat::EpochMillis => Some(TimeUnit::Milliseconds),
        TimestampFormat::EpochMicros => Some(TimeUnit::Microseconds),
        TimestampFormat::EpochNanos => Some(TimeUnit::Nanoseconds),
        _ => None,
    }
}

/// A bare number in this half-open range is plausible under a numeric format:
/// the same span of instants, counted in the format's own unit from its own
/// epoch.
pub open spec fn plausible_range(format: TimestampFormat) -> (int, int) {
    let min = MIN_PLAUSIBLE_SECONDS as int;
    let max = MAX_PLAUSIBLE_SECONDS as int;
    match format {
        TimestampFormat::LabViewEpoch => (
            min + LABVIEW_EPOCH_OFFSET_SECONDS,
            max + LABVIEW_EPOCH_OFFSET_SECONDS,
        ),
        TimestampFormat::ExcelSerial => (
            min / (SECONDS_PER_DAY as int) + EXCEL_EPOCH_OFFSET_DAYS,
            max / (SECONDS_PER_DAY as int) + EXCEL_EPOCH_OFFSET_DAYS,
        ),
        _ => match epoch_unit_of(format) {
            Some(unit) => (min * unit.per_second(), max * unit.per_second()),
            None => (0, 0),
        },
    }
}

/// The plausible epoch times of a unit.
pub fn plausible_epoch_magnitude(unit: TimeUnit) -> (range: (i128, i128))
    requires
        unit != TimeUnit::Picoseconds,
    ensures
        range.0 == MIN_PLAUSIBLE_SECONDS * unit.per_second(),
        range.1 == MAX_PLAUSIBLE_SECONDS * unit.per_second(),
{
    let per_second: i128 = unit.ticks_per_second();
    (MIN_PLAUSIBLE_SECONDS * per_second, MAX_PLAUSIBLE_SECONDS * per_second)
}

/// The plausible LabVIEW times.
pub fn plausible_labview_epoch_magnitude() -> (range: (i128, i128))
    ensures
        (range.0 as int, range.1 as int) == plausible_range(TimestampFormat::LabViewEpoch),
{
    (
        MIN_PLAUSIBLE_SECONDS + LABVIEW_EPOCH_OFFSET_SECONDS,
        MAX_PLAUSIBLE_SECONDS + LABVIEW_EPOCH_OFFSET_SECONDS,
    )
}

/// The plausible Excel serial days.
pub fn plausible_excel_serial_magnitude() -> (range: (i128, i128))
    ensures
        (range.0 as int, range.1 as int) == plausible_range(TimestampFormat::ExcelSerial),
{
    (
        MIN_PLAUSIBLE_SECONDS / SECONDS_PER_DAY + EXCEL_EPOCH_OFFSET_DAYS,
        MAX_PLAUSIBLE_SECONDS / SECONDS_PER_DAY + EXCEL_EPOCH_OFFSET_DAYS,
    )
}

/// A field is a plausible number under a numeric format: a bare integer whose
/// magnitude, or a decimal number whose whole part, lies in the format's
/// range.
pub open spec fn numeric_match(field: Seq<char>, format: TimestampFormat) -> bool {
    let s = text::trimmed(field);
    let range = plausible_range(format);
    match epoch_unit_of(format) {
        Some(_) => match text::integer_of(s, i128::MIN as int, i128::MAX as int) {
            Ok(value) => range.0 <= (if value < 0 {
                -value
            } else {
                value
            }) < range.1,
            Err(_) => false,
        },
        None => match crate::time::format::decimal_parts(s) {
            Some((whole, _)) => range.0 <= whole < range.1,
            None => false,
        },
    }
}

/// The formats of bare numbers.
pub open spec fn is_numeric(format: TimestampFormat) -> bool {
    epoch_unit_of(format) is Some || format == TimestampFormat::LabViewEpoch || format
        == TimestampFormat::ExcelSerial
}

/// A field, white space around it left out, is written in `format`.
pub open spec fn matches_format(field: Seq<char>, format: TimestampFormat) -> bool {
    if is_numeric(format) {
        numeric_match(field, format)
    } else {
        crate::time::format::reading(text::trimmed(field), format) is Ok
    }
}

/// Every field is a plausible number under a numeric format.
pub open spec fn all_numeric(fields: Seq<Seq<char>>, format: TimestampFormat) -> bool {
    forall|i: int| 0 <= i < fields.len() ==> numeric_match(#[trigger] fields[i], format)
}

/// Every field is written in `format`.
pub open spec fn all_match(fields: Seq<Seq<char>>, format: TimestampFormat) -> bool {
    forall|i: int| 0 <= i < fields.len() ==> matches_format(#[trigger] fields[i], format)
}

/// Every field, as it stands, reads as a timestamp of `format`.
pub open spec fn all_read(fields: Seq<Seq<char>>, format: TimestampFormat) -> bool {
    forall|i: int| 0 <= i < fields.len() ==> crate::time::format::reading(#[trigger] fields[i], format) is Ok
}

/// The first two of the three groups that slashes part a date into.
pub open spec fn leading_groups(field: Seq<char>) -> Option<(int, int)> {
    let s = text::trimmed(field);
    let first = text::first_index(s, '/');
    let rest = s.skip(first + 1);
    let second = text::first_index(rest, '/');
    if first == s.len() || second == rest.len() {
        None
    } else {
        match (
            text::integer_of(text::trimmed(s.take(first)), 0, u32::MAX as int),
            text::integer_of(text::trimmed(rest.take(second)), 0, u32::MAX as int),
        ) {
            (Ok(a), Ok(b)) => Some((a, b)),
            _ => None,
        }
    }
}

/// The first two numbers of a date written with slashes.
pub fn leading_day_month_groups(field: &[char]) -> (groups: Option<(u32, u32)>)
    ensures
        match groups {
            Some(g) => leading_groups(field@) == Some((g.0 as int, g.1 as int)),
            None => leading_groups(field@) is None,
        },
{
    let chars: &[char] = trim(field);
    let first: usize = find(chars, '/');
    if first == chars.len() {
        return None;
    }
    let rest: &[char] = slice_subrange(chars, first + 1, chars.len());
    assert(rest@ == chars@.skip(first + 1));
    let second: usize = find(rest, '/');
    if second == rest.len() {
        return None;
    }
    let left: &[char] = slice_subrange(chars, 0, first);
    let right: &[char] = slice_subrange(rest, 0, second);
    assert(left@ == chars@.take(first as int));
    assert(right@ == rest@.take(second as int));
    match (parse_u32(trim(left)), parse_u32(trim(right))) {
        (Some(a), Some(b)) => Some((a, b)),
        _ => None,
    }
}

/// Every field is a date written with slashes.
pub open spec fn all_slashed(fields: Seq<Seq<char>>) -> bool {
    forall|i: int| 0 <= i < fields.len() ==> leading_groups(#[trigger] fields[i]) is Some
}

/// Some field's first number is no month.
pub open spec fn day_first_evidence(fields: Seq<Seq<char>>) -> bool {
    exists|i: int| 0 <= i < fields.len() && (leading_groups(#[trigger] fields[i])->0).0 > 12
}

/// Some field's second number is no month.
pub open spec fn month_first_evidence(fields: Seq<Seq<char>>) -> bool {
    exists|i: int| 0 <= i < fields.len() && (leading_groups(#[trigger] fields[i])->0).1 > 12
}

/// The order of day and month in a column of dates written with slashes. A
/// number above twelve settles it; two that contradict each other leave the
/// column without a format; none at all makes day first the default, marked
/// ambiguous. Whether every field reads as a date in either order is given.
pub open spec fn day_month_format(
    fields: Seq<Seq<char>>,
    reads_day_first: bool,
    reads_month_first: bool,
) -> Option<TimestampFormatInference> {
    if !all_slashed(fields) {
        None
    } else if day_first_evidence(fields) && month_first_evidence(fields) {
        None
    } else if month_first_evidence(fields) {
        if reads_month_first {
            Some(
                TimestampFormatInference { format: TimestampFormat::MonthFirst, ambiguous: false },
            )
        } else {
            None
        }
    } else if reads_day_first {
        Some(
            TimestampFormatInference {
                format: TimestampFormat::DayFirst,
                ambiguous: !day_first_evidence(fields),
            },
        )
    } else {
        None
    }
}

/// The format of a column, given whether every field reads as each of the
/// formats that have a calendar date. Formats are tried in a fixed order, and
/// the first that explains every field is it. A column of epoch seconds that
/// are plausible LabVIEW times too is marked ambiguous.
pub open spec fn chosen_format(
    fields: Seq<Seq<char>>,
    iso_with_offset: bool,
    iso_naive: bool,
    reads_day_first: bool,
    reads_month_first: bool,
) -> Option<TimestampFormatInference> {
    if fields.len() == 0 {
        None
    } else if iso_with_offset {
        Some(
            TimestampFormatInference {
                format: TimestampFormat::Iso8601WithOffset,
                ambiguous: false,
            },
        )
    } else if iso_naive {
        Some(TimestampFormatInference { format: TimestampFormat::Iso8601Naive, ambiguous: false })
    } else if all_numeric(fields, TimestampFormat::EpochNanos) {
        Some(TimestampFormatInference { format: TimestampFormat::EpochNanos, ambiguous: false })
    } else if all_numeric(fields, TimestampFormat::EpochMicros) {
        Some(TimestampFormatInference { format: TimestampFormat::EpochMicros, ambiguous: false })
    } else if all_numeric(fields, TimestampFormat::EpochMillis) {
        Some(TimestampFormatInference { format: TimestampFormat::EpochMillis, ambiguous: false })
    } else if all_numeric(fields, TimestampFormat::EpochSeconds) {
        Some(
            TimestampFormatInference {
                format: TimestampFormat::EpochSeconds,
                ambiguous: all_numeric(fields, TimestampFormat::LabViewEpoch),
            },
        )
    } else if all_numeric(fields, TimestampFormat::LabViewEpoch) {
        Some(TimestampFormatInference { format: TimestampFormat::LabViewEpoch, ambiguous: false })
    } else if all_numeric(fields, TimestampFormat::ExcelSerial) {
        Some(TimestampFormatInference { format: TimestampFormat::ExcelSerial, ambiguous: false })
    } else {
        day_month_format(fields, reads_day_first, reads_month_first)
    }
}

/// The format of a column.
pub open spec fn inferred_format(fields: Seq<Seq<char>>) -> Option<TimestampFormatInference> {
    chosen_format(
        fields,
        all_match(fields, TimestampFormat::Iso8601WithOffset),
        all_match(fields, TimestampFormat::Iso8601Naive),
        all_read(fields, TimestampFormat::DayFirst),
        all_read(fields, TimestampFormat::MonthFirst),
    )
}

/// Whether a field is a plausible number under a numeric format.
pub fn field_matches_numeric_format(field: &str, format: TimestampFormat) -> (found: bool)
    requires
        is_numeric(format),
    ensures
        found == numeric_match(field@, format),
{
    let chars: Vec<char> = chars_of(field);
    let inner: &[char] = trim(chars.as_slice());
    match epoch_unit(format) {
        Some(unit) => {
            let (min, max) = plausible_epoch_magnitude(unit);
            match parse_i128(inner) {
                Ok(value) => if value >= 0 {
                    min <= value && value < max
                } else {
                    value <= -min && -max < value
                },
                Err(_) => false,
            }
        },
        None => {
            let (min, max) = if format == TimestampFormat::LabViewEpoch {
                plausible_labview_epoch_magnitude()
            } else {
                plausible_excel_serial_magnitude()
            };
            match split_decimal(inner) {
                Some((whole, _)) => min <= whole && whole < max,
                None => false,
            }
        },
    }
}

/// Whether a field is written in `format`.
pub fn field_matches_format(field: &str, format: TimestampFormat) -> (found: bool)
    requires
        format != TimestampFormat::DateTimeSpace,
    ensures
        found == matches_format(field@, format),
{
    match format {
        TimestampFormat::EpochSeconds
        | TimestampFormat::EpochMillis
        | TimestampFormat::EpochMicros
        | TimestampFormat::EpochNanos
        | TimestampFormat::LabViewEpoch
        | TimestampFormat::ExcelSerial => field_matches_numeric_format(field, format),
        _ => {
            let chars: Vec<char> = chars_of(field);
            let inner: String = string_of(trim(chars.as_slice()));
            parse_timestamp(inner.as_str(), format).is_ok()
        },
    }
}

fn every_field_numeric(fields: &[String], format: TimestampFormat) -> (every: bool)
    requires
        is_numeric(format),
    ensures
        every == all_numeric(text::texts(fields@), format),
{
    let mut i: usize = 0;
    while i < fields.len()
        invariant
            is_numeric(format),
            i <= fields@.len(),
            forall|j: int| 0 <= j < i ==> numeric_match(#[trigger] text::texts(fields@)[j], format),
        decreases fields@.len() - i,
    {
        if !field_matches_numeric_format(fields[i].as_str(), format) {
            assert(!numeric_match(text::texts(fields@)[i as int], format));
            return false;
        }
        i = i + 1;
    }
    true
}

fn every_field_matches(fields: &[String], format: TimestampFormat) -> (every: bool)
    requires
        format != TimestampFormat::DateTimeSpace,
    ensures
        every == all_match(text::texts(fields@), format),
{
    let mut i: usize = 0;
    while i < fields.len()
        invariant
            format != TimestampFormat::DateTimeSpace,
            i <= fields@.len(),
            forall|j: int| 0 <= j < i ==> matches_format(#[trigger] text::texts(fields@)[j], format),
        decreases fields@.len() - i,
    {
        if !field_matches_format(fields[i].as_str(), format) {
            assert(!matches_format(text::texts(fields@)[i as int], format));
            return false;
        }
        i = i + 1;
    }
    true
}

fn every_field_reads(fields: &[String], format: TimestampFormat) -> (every: bool)
    requires
        format != TimestampFormat::DateTimeSpace,
    ensures
        every == all_read(text::texts(fields@), format),
{
    let mut i: usize = 0;
    while i < fields.len()
        invariant
            format != TimestampFormat::DateTimeSpace,
            i <= fields@.len(),
            forall|j: int|
                0 <= j < i ==> crate::time::format::reading(#[trigger] text::texts(fields@)[j], format) is Ok,
        decreases fields@.len() - i,
    {
        if parse_timestamp(fields[i].as_str(), format).is_err() {
            assert(crate::time::format::reading(text::texts(fields@)[i as int], format) is Err);
            return false;
        }
        i = i + 1;
    }
    true
}

/// The order of day and month in a column of dates written with slashes, given
/// whether every field reads as a date in either order.
pub fn infer_day_month_format(
    fields: &[String],
    reads_day_first: bool,
    reads_month_first: bool,
) -> (inference: Option<TimestampFormatInference>)
    ensures
        inference == day_month_format(text::texts(fields@), reads_day_first, reads_month_first),
{
    let ghost column: Seq<Seq<char>> = text::texts(fields@);
    let mut day_first: bool = false;
    let mut month_first: bool = false;
    let mut i: usize = 0;
    while i < fields.len()
        invariant
            column == text::texts(fields@),
            i <= fields@.len(),
            forall|j: int| 0 <= j < i ==> leading_groups(#[trigger] column[j]) is Some,
            day_first == exists|j: int|
                0 <= j < i && (leading_groups(#[trigger] column[j])->0).0 > 12,
            month_first == exists|j: int|
                0 <= j < i && (leading_groups(#[trigger] column[j])->0).1 > 12,
        decreases fields@.len() - i,
    {
        let chars: Vec<char> = chars_of(fields[i].as_str());
        assert(column[i as int] == chars@);
        match leading_day_month_groups(chars.as_slice()) {
            Some((first, second)) => {
                if first > 12 {
                    day_first = true;
                }
                if second > 12 {
                    month_first = true;
                }
            },
            None => {
                return None;
            },
        }
        i = i + 1;
    }
    if day_first && month_first {
        return None;
    }
    if month_first {
        if reads_month_first {
            Some(
                TimestampFormatInference { format: TimestampFormat::MonthFirst, ambiguous: false },
            )
        } else {
            None
        }
    } else if reads_day_first {
        Some(
            TimestampFormatInference {
                format: TimestampFormat::DayFirst,
                ambiguous: !day_first,
            },
        )
    } else {
        None
    }
}

/// The format of a column, given whether every field reads as each of the
/// formats that have a calendar date.
pub fn choose_format(
    fields: &[String],
    iso_with_offset: bool,
    iso_naive: bool,
    reads_day_first: bool,
    reads_month_first: bool,
) -> (inference: Option<TimestampFormatInference>)
    ensures
        inference == chosen_format(
            text::texts(fields@),
            iso_with_offset,
            iso_naive,
            reads_day_first,
            reads_month_first,
        ),
{
    if fields.len() == 0 {
        return None;
    }
    let format: TimestampFormat = if iso_with_offset {
        TimestampFormat::Iso8601WithOffset
    } else if iso_naive {
        TimestampFormat::Iso8601Naive
    } else if every_field_numeric(fields, TimestampFormat::EpochNanos) {
        TimestampFormat::EpochNanos
    } else if every_field_numeric(fields, TimestampFormat::EpochMicros) {
        TimestampFormat::EpochMicros
    } else if every_field_numeric(fields, TimestampFormat::EpochMillis) {
        TimestampFormat::EpochMillis
    } else if every_field_numeric(fields, TimestampFormat::EpochSeconds) {
        TimestampFormat::EpochSeconds
    } else if every_field_numeric(fields, TimestampFormat::LabViewEpoch) {
        TimestampFormat::LabViewEpoch
    } else if every_field_numeric(fields, TimestampFormat::ExcelSerial) {
        TimestampFormat::ExcelSerial
    } else {
        return infer_day_month_format(fields, reads_day_first, reads_month_first);
    };
    let ambiguous: bool = epoch_seconds_labview_epoch_overlap(format, fields);
    Some(TimestampFormatInference { format, ambiguous })
}

/// Whether a column of epoch seconds is one of plausible LabVIEW times too.
pub fn epoch_seconds_labview_epoch_overlap(
    format: TimestampFormat,
    fields: &[String],
) -> (overlap: bool)
    ensures
        overlap == (format == TimestampFormat::EpochSeconds && all_numeric(
            text::texts(fields@),
            TimestampFormat::LabViewEpoch,
        )),
{
    format == TimestampFormat::EpochSeconds && every_field_numeric(
        fields,
        TimestampFormat::LabViewEpoch,
    )
}

/// The format that explains every one of `fields`, or `None` where there is
/// none and the column is no column of absolute times.
pub fn infer_timestamp_format(fields: &[String]) -> (inference: Option<TimestampFormatInference>)
    ensures
        inference == inferred_format(text::texts(fields@)),
{
    if every_field_matches(fields, TimestampFormat::Iso8601WithOffset) {
        return choose_format(fields, true, false, false, false);
    }
    if every_field_matches(fields, TimestampFormat::Iso8601Naive) {
        return choose_format(fields, false, true, false, false);
    }
    let day_first: bool = every_field_reads(fields, TimestampFormat::DayFirst);
    let month_first: bool = every_field_reads(fields, TimestampFormat::MonthFirst);
    choose_format(fields, false, false, day_first, month_first)
}

} // verus!
