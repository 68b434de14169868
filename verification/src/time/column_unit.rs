//! The one unit of a column of epoch times.
//!
//! A fraction is counted in a finer unit than its format's. Ticks of different
//! units cannot be held against each other, so that all rows of such a column
//! are counted in the finest unit that one of them needs. The rows of every
//! other format keep the unit that they are read in.

use vstd::prelude::*;
use crate::error::{GlydeError, Result};
use crate::text;
use crate::text::power_of_ten;
use crate::time::epoch;
use crate::time::epoch::{parse_epoch, places_of};
use crate::time::format::{
    parse_timestamp, Reading, TimeUnit, Timestamp, TimestampFormat,
};
use crate::time::inference;
use crate::time::inference::epoch_unit;

verus! {

/// The finer of the unit so far and the one that a field is read in under the
/// epoch format of `unit`. A field that is no such time asks for none.
pub open spec fn refined(so_far: TimeUnit, field: Seq<char>, unit: TimeUnit) -> TimeUnit {
    match epoch::epoch_reading(field, unit) {
        Ok(timestamp) => if epoch::places(timestamp.unit) > epoch::places(so_far) {
            timestamp.unit
        } else {
            so_far
        },
        Err(_) => so_far,
    }
}

/// The finest unit that one of the first `n` fields needs under the epoch format
/// of `unit`.
pub open spec fn finest_unit(fields: Seq<Seq<char>>, unit: TimeUnit, n: int) -> TimeUnit
    decreases n,
{
    if n <= 0 {
        unit
    } else {
        refined(finest_unit(fields, unit, n - 1), fields[n - 1], unit)
    }
}

/// The unit that all rows of a column are counted in; `None` where each keeps
/// its own.
pub open spec fn column_unit(fields: Seq<Seq<char>>, format: TimestampFormat) -> Option<TimeUnit> {
    match inference::epoch_unit_of(format) {
        Some(unit) => Some(finest_unit(fields, unit, fields.len() as int)),
        None => None,
    }
}

/// The instant counted in `unit`, where that is finer than its own.
pub open spec fn counted_in(timestamp: Timestamp, unit: TimeUnit) -> Reading {
    if epoch::places(unit) <= epoch::places(timestamp.unit) {
        Ok(timestamp)
    } else {
        let shift = (epoch::places(unit) - epoch::places(timestamp.unit)) as nat;
        let ticks = timestamp.ticks * text::pow10(shift);
        if i128::MIN <= ticks <= i128::MAX {
            Ok(
                Timestamp {
                    ticks: ticks as i128,
                    unit,
                    offset_seconds: timestamp.offset_seconds,
                },
            )
        } else {
            Err("number is out of range"@)
        }
    }
}

/// What a field of a column reads as, counted in the column's unit where it has
/// one.
pub open spec fn row_reading(
    field: Seq<char>,
    format: TimestampFormat,
    unit: Option<TimeUnit>,
) -> Reading {
    match (crate::time::format::reading(field, format), unit) {
        (Ok(timestamp), Some(unit)) => counted_in(timestamp, unit),
        (reading, _) => reading,
    }
}

/// The finer of the unit so far and the one that a field is read in.
pub fn refine(so_far: TimeUnit, field: &str, unit: TimeUnit) -> (finer: TimeUnit)
    ensures
        finer == refined(so_far, field@, unit),
{
    match parse_epoch(field, unit) {
        Ok(timestamp) => if places_of(timestamp.unit) > places_of(so_far) {
            timestamp.unit
        } else {
            so_far
        },
        Err(_) => so_far,
    }
}

/// The unit that all rows of a column are counted in; `None` where each keeps
/// its own.
pub fn settle_column_unit(fields: &[String], format: TimestampFormat) -> (settled: Option<TimeUnit>)
    ensures
        settled == column_unit(text::texts(fields@), format),
{
    let unit: TimeUnit = match epoch_unit(format) {
        Some(unit) => unit,
        None => {
            return None;
        },
    };
    let ghost texts: Seq<Seq<char>> = text::texts(fields@);
    let mut finest: TimeUnit = unit;
    let mut i: usize = 0;
    while i < fields.len()
        invariant
            texts == text::texts(fields@),
            i <= fields@.len(),
            finest == finest_unit(texts, unit, i as int),
        decreases fields@.len() - i,
    {
        assert(texts[i as int] == fields@[i as int]@);
        finest = refine(finest, fields[i].as_str(), unit);
        i = i + 1;
    }
    Some(finest)
}

/// Reads a field of a column, counted in the column's unit where it has one.
///
/// [`TimestampFormat::DateTimeSpace`] is not supported.
pub fn parse_row(field: &str, format: TimestampFormat, unit: Option<TimeUnit>) -> (timestamp: Result<
    Timestamp,
>)
    requires
        format != TimestampFormat::DateTimeSpace,
    ensures
        crate::time::format::reports(timestamp, row_reading(field@, format, unit), field@, format),
{
    let timestamp: Timestamp = match parse_timestamp(field, format) {
        Ok(timestamp) => timestamp,
        Err(error) => {
            return Err(error);
        },
    };
    let unit: TimeUnit = match unit {
        Some(unit) => unit,
        None => {
            return Ok(timestamp);
        },
    };
    let own: usize = places_of(timestamp.unit);
    let wanted: usize = places_of(unit);
    if wanted <= own {
        return Ok(timestamp);
    }
    match timestamp.ticks.checked_mul(power_of_ten(wanted - own)) {
        Some(ticks) => Ok(Timestamp { ticks, unit, offset_seconds: timestamp.offset_seconds }),
        None => Err(
            GlydeError::InvalidTimestamp {
                input: field.to_owned(),
                format,
                reason: "number is out of range".to_owned(),
            },
        ),
    }
}

/// A column whose format was found in its fields holds whole numbers alone, and
/// is counted in the unit of its format.
pub proof fn lemma_found_unit(fields: Seq<Seq<char>>, format: TimestampFormat)
    requires
        inference::inferred_format(fields) matches Some(found) && found.format == format,
    ensures
        column_unit(fields, format) == inference::epoch_unit_of(format),
        forall|i: int|
            0 <= i < fields.len() ==> row_reading(
                #[trigger] fields[i],
                format,
                column_unit(fields, format),
            ) == crate::time::format::reading(fields[i], format),
{
    if let Some(unit) = inference::epoch_unit_of(format) {
        assert(inference::all_numeric(fields, format));
        lemma_whole_numbers_need_no_finer_unit(fields, format, unit, fields.len() as int);
        assert forall|i: int| 0 <= i < fields.len() implies row_reading(
            #[trigger] fields[i],
            format,
            Some(unit),
        ) == crate::time::format::reading(fields[i], format) by {
            assert(inference::numeric_match(fields[i], format));
        }
    }
}

proof fn lemma_whole_numbers_need_no_finer_unit(
    fields: Seq<Seq<char>>,
    format: TimestampFormat,
    unit: TimeUnit,
    n: int,
)
    requires
        inference::epoch_unit_of(format) == Some(unit),
        inference::all_numeric(fields, format),
        n <= fields.len(),
    ensures
        finest_unit(fields, unit, n) == unit,
    decreases n,
{
    if n > 0 {
        lemma_whole_numbers_need_no_finer_unit(fields, format, unit, n - 1);
        assert(inference::numeric_match(fields[n - 1], format));
    }
}

/// The unit of a column is at least as fine as that of each of its rows.
proof fn lemma_finest(fields: Seq<Seq<char>>, unit: TimeUnit, n: int, i: int)
    requires
        0 <= i < n <= fields.len(),
    ensures
        epoch::epoch_reading(fields[i], unit) matches Ok(timestamp) ==> epoch::places(
            timestamp.unit,
        ) <= epoch::places(finest_unit(fields, unit, n)),
    decreases n,
{
    if i < n - 1 {
        lemma_finest(fields, unit, n - 1, i);
    }
}

/// The two count the same instant.
pub open spec fn is_same_instant(one: Timestamp, other: Timestamp) -> bool {
    one.ticks * text::pow10((12 - epoch::places(one.unit)) as nat) == other.ticks * text::pow10(
        (12 - epoch::places(other.unit)) as nat,
    )
}

/// A row of a column of epoch times is counted in the column's one unit, and is
/// the instant that its field is read as.
pub proof fn lemma_row_in_column_unit(
    fields: Seq<Seq<char>>,
    format: TimestampFormat,
    row: int,
    timestamp: Timestamp,
)
    requires
        inference::epoch_unit_of(format) is Some,
        0 <= row < fields.len(),
        row_reading(fields[row], format, column_unit(fields, format)) == Ok::<
            Timestamp,
            Seq<char>,
        >(timestamp),
    ensures
        column_unit(fields, format) == Some(timestamp.unit),
        crate::time::format::reading(fields[row], format) matches Ok(own) && is_same_instant(
            timestamp,
            own,
        ),
{
    let unit = inference::epoch_unit_of(format)->Some_0;
    let all = column_unit(fields, format)->Some_0;
    lemma_finest(fields, unit, fields.len() as int, row);
    let own = crate::time::format::reading(fields[row], format)->Ok_0;
    let a = epoch::places(own.unit);
    let b = epoch::places(all);
    assert(a <= b <= 12);
    if a == b {
        assert(own.unit == all);
    } else {
        text::lemma_pow10_adds((b - a) as nat, (12 - b) as nat);
        let t = own.ticks as int;
        let p = text::pow10((b - a) as nat) as int;
        let q = text::pow10((12 - b) as nat) as int;
        assert((t * p) * q == t * (p * q)) by (nonlinear_arith);
        assert((b - a) + (12 - b) == 12 - a);
    }
}

} // verus!
