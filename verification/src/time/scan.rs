//! The format of a time column whose fields come one at a time.

use vstd::prelude::*;
use crate::text::chars_of;
use crate::time::inference;
use crate::time::inference::{
    field_matches_format, field_matches_numeric_format, leading_day_month_groups,
    TimestampFormatInference,
};
use crate::time::{parse_timestamp, TimestampFormat};

verus! {

/// What one field is written in.
struct FieldMarks {
    iso_with_offset: bool,
    iso_naive: bool,
    epoch_nanos: bool,
    epoch_micros: bool,
    epoch_millis: bool,
    epoch_seconds: bool,
    labview_epoch: bool,
    excel_serial: bool,
    groups: Option<(u32, u32)>,
    reads_day_first: bool,
    reads_month_first: bool,
}

/// Tries a field in every format.
fn mark_field(field: &str) -> (marks: FieldMarks)
    ensures
        marks.iso_with_offset == inference::matches_format(
            field@,
            TimestampFormat::Iso8601WithOffset,
        ),
        marks.iso_naive == inference::matches_format(field@, TimestampFormat::Iso8601Naive),
        marks.epoch_nanos == inference::numeric_match(field@, TimestampFormat::EpochNanos),
        marks.epoch_micros == inference::numeric_match(field@, TimestampFormat::EpochMicros),
        marks.epoch_millis == inference::numeric_match(field@, TimestampFormat::EpochMillis),
        marks.epoch_seconds == inference::numeric_match(field@, TimestampFormat::EpochSeconds),
        marks.labview_epoch == inference::numeric_match(field@, TimestampFormat::LabViewEpoch),
        marks.excel_serial == inference::numeric_match(field@, TimestampFormat::ExcelSerial),
        match marks.groups {
            Some(groups) => inference::leading_groups(field@) == Some(
                (groups.0 as int, groups.1 as int),
            ),
            None => inference::leading_groups(field@) is None,
        },
        marks.reads_day_first == (crate::time::format::reading(
            field@,
            TimestampFormat::DayFirst,
        ) is Ok),
        marks.reads_month_first == (crate::time::format::reading(
            field@,
            TimestampFormat::MonthFirst,
        ) is Ok),
{
    let chars: Vec<char> = chars_of(field);
    let day_first: bool = parse_timestamp(field, TimestampFormat::DayFirst).is_ok();
    let month_first: bool = parse_timestamp(field, TimestampFormat::MonthFirst).is_ok();
    FieldMarks {
        iso_with_offset: field_matches_format(field, TimestampFormat::Iso8601WithOffset),
        iso_naive: field_matches_format(field, TimestampFormat::Iso8601Naive),
        epoch_nanos: field_matches_numeric_format(field, TimestampFormat::EpochNanos),
        epoch_micros: field_matches_numeric_format(field, TimestampFormat::EpochMicros),
        epoch_millis: field_matches_numeric_format(field, TimestampFormat::EpochMillis),
        epoch_seconds: field_matches_numeric_format(field, TimestampFormat::EpochSeconds),
        labview_epoch: field_matches_numeric_format(field, TimestampFormat::LabViewEpoch),
        excel_serial: field_matches_numeric_format(field, TimestampFormat::ExcelSerial),
        groups: leading_day_month_groups(chars.as_slice()),
        reads_day_first: day_first,
        reads_month_first: month_first,
    }
}

/// Settles the format of a column whose fields come one at a time: for each
/// format, whether every field so far is written in it.
pub struct TimestampFormatScan {
    any: bool,
    iso_with_offset: bool,
    iso_naive: bool,
    epoch_nanos: bool,
    epoch_micros: bool,
    epoch_millis: bool,
    epoch_seconds: bool,
    labview_epoch: bool,
    excel_serial: bool,
    slashed: bool,
    day_first: bool,
    month_first: bool,
    reads_day_first: bool,
    reads_month_first: bool,
    fields: Ghost<Seq<Seq<char>>>,
}

impl View for TimestampFormatScan {
    type V = Seq<Seq<char>>;

    closed spec fn view(&self) -> Seq<Seq<char>> {
        self.fields@
    }
}

impl TimestampFormatScan {
    /// The marks are those of the fields so far.
    pub closed spec fn wf(&self) -> bool {
        let fields = self.fields@;
        &&& self.any == (fields.len() > 0)
        &&& self.iso_with_offset == inference::all_match(fields, TimestampFormat::Iso8601WithOffset)
        &&& self.iso_naive == inference::all_match(fields, TimestampFormat::Iso8601Naive)
        &&& self.epoch_nanos == inference::all_numeric(fields, TimestampFormat::EpochNanos)
        &&& self.epoch_micros == inference::all_numeric(fields, TimestampFormat::EpochMicros)
        &&& self.epoch_millis == inference::all_numeric(fields, TimestampFormat::EpochMillis)
        &&& self.epoch_seconds == inference::all_numeric(fields, TimestampFormat::EpochSeconds)
        &&& self.labview_epoch == inference::all_numeric(fields, TimestampFormat::LabViewEpoch)
        &&& self.excel_serial == inference::all_numeric(fields, TimestampFormat::ExcelSerial)
        &&& self.slashed == inference::all_slashed(fields)
        &&& self.slashed ==> {
            &&& self.day_first == inference::day_first_evidence(fields)
            &&& self.month_first == inference::month_first_evidence(fields)
        }
        &&& self.reads_day_first == inference::all_read(fields, TimestampFormat::DayFirst)
        &&& self.reads_month_first == inference::all_read(fields, TimestampFormat::MonthFirst)
    }

    /// A scan that has seen nothing.
    pub fn new() -> (scan: TimestampFormatScan)
        ensures
            scan.wf(),
            scan@ == Seq::<Seq<char>>::empty(),
    {
        TimestampFormatScan {
            any: false,
            iso_with_offset: true,
            iso_naive: true,
            epoch_nanos: true,
            epoch_micros: true,
            epoch_millis: true,
            epoch_seconds: true,
            labview_epoch: true,
            excel_serial: true,
            slashed: true,
            day_first: false,
            month_first: false,
            reads_day_first: true,
            reads_month_first: true,
            fields: Ghost(Seq::empty()),
        }
    }

    /// Takes the next field.
    pub fn observe(&mut self, field: &str)
        requires
            old(self).wf(),
        ensures
            final(self).wf(),
            final(self)@ == old(self)@.push(field@),
    {
        let ghost before: Seq<Seq<char>> = self.fields@;
        let marks: FieldMarks = mark_field(field);
        let iso_with_offset: bool = self.iso_with_offset && marks.iso_with_offset;
        let iso_naive: bool = self.iso_naive && marks.iso_naive;
        let epoch_nanos: bool = self.epoch_nanos && marks.epoch_nanos;
        let epoch_micros: bool = self.epoch_micros && marks.epoch_micros;
        let epoch_millis: bool = self.epoch_millis && marks.epoch_millis;
        let epoch_seconds: bool = self.epoch_seconds && marks.epoch_seconds;
        let labview_epoch: bool = self.labview_epoch && marks.labview_epoch;
        let excel_serial: bool = self.excel_serial && marks.excel_serial;
        let slashed: bool = self.slashed && marks.groups.is_some();
        let (day, month) = match marks.groups {
            Some((first, second)) => (first > 12, second > 12),
            None => (false, false),
        };
        let day_first: bool = self.day_first || day;
        let month_first: bool = self.month_first || month;
        let reads_day_first: bool = self.reads_day_first && marks.reads_day_first;
        let reads_month_first: bool = self.reads_month_first && marks.reads_month_first;
        proof {
            lemma_marks(before, field@);
        }
        *self = TimestampFormatScan {
            any: true,
            iso_with_offset,
            iso_naive,
            epoch_nanos,
            epoch_micros,
            epoch_millis,
            epoch_seconds,
            labview_epoch,
            excel_serial,
            slashed,
            day_first,
            month_first,
            reads_day_first,
            reads_month_first,
            fields: Ghost(before.push(field@)),
        };
    }

    /// The format of the column.
    pub fn finish(&self) -> (inference: Option<TimestampFormatInference>)
        requires
            self.wf(),
        ensures
            inference == inference::inferred_format(self@),
    {
        if !self.any {
            return None;
        }
        let format: TimestampFormat = if self.iso_with_offset {
            TimestampFormat::Iso8601WithOffset
        } else if self.iso_naive {
            TimestampFormat::Iso8601Naive
        } else if self.epoch_nanos {
            TimestampFormat::EpochNanos
        } else if self.epoch_micros {
            TimestampFormat::EpochMicros
        } else if self.epoch_millis {
            TimestampFormat::EpochMillis
        } else if self.epoch_seconds {
            return Some(
                TimestampFormatInference {
                    format: TimestampFormat::EpochSeconds,
                    ambiguous: self.labview_epoch,
                },
            );
        } else if self.labview_epoch {
            TimestampFormat::LabViewEpoch
        } else if self.excel_serial {
            TimestampFormat::ExcelSerial
        } else if !self.slashed || (self.day_first && self.month_first) {
            return None;
        } else if self.month_first {
            if !self.reads_month_first {
                return None;
            }
            TimestampFormat::MonthFirst
        } else {
            if !self.reads_day_first {
                return None;
            }
            return Some(
                TimestampFormatInference {
                    format: TimestampFormat::DayFirst,
                    ambiguous: !self.day_first,
                },
            );
        };
        Some(TimestampFormatInference { format, ambiguous: false })
    }
}

/// What one more field does to each mark.
proof fn lemma_marks(fields: Seq<Seq<char>>, field: Seq<char>)
    ensures
        ({
            let after = fields.push(field);
            &&& forall|format: TimestampFormat| #[trigger]
                inference::all_match(after, format) == (inference::all_match(fields, format)
                    && inference::matches_format(field, format))
            &&& forall|format: TimestampFormat| #[trigger]
                inference::all_numeric(after, format) == (inference::all_numeric(fields, format)
                    && inference::numeric_match(field, format))
            &&& forall|format: TimestampFormat| #[trigger]
                inference::all_read(after, format) == (inference::all_read(fields, format)
                    && crate::time::format::reading(field, format) is Ok)
            &&& inference::all_slashed(after) == (inference::all_slashed(fields)
                && inference::leading_groups(field) is Some)
            &&& inference::day_first_evidence(after) == (inference::day_first_evidence(fields)
                || (inference::leading_groups(field)->0).0 > 12)
            &&& inference::month_first_evidence(after) == (inference::month_first_evidence(fields)
                || (inference::leading_groups(field)->0).1 > 12)
        }),
{
    let after = fields.push(field);
    let n = fields.len() as int;
    assert(after[n] == field);
    assert(forall|i: int| 0 <= i < n ==> #[trigger] after[i] == fields[i]);
    assert(forall|i: int| 0 <= i < n ==> after[i] == #[trigger] fields[i]);
    assert forall|format: TimestampFormat| #[trigger]
        inference::all_match(after, format) == (inference::all_match(fields, format)
            && inference::matches_format(field, format)) by {}
    assert forall|format: TimestampFormat| #[trigger]
        inference::all_numeric(after, format) == (inference::all_numeric(fields, format)
            && inference::numeric_match(field, format)) by {}
    assert forall|format: TimestampFormat| #[trigger]
        inference::all_read(after, format) == (inference::all_read(fields, format)
            && crate::time::format::reading(field, format) is Ok) by {}
    if inference::day_first_evidence(fields) {
        let i = choose|i: int|
            0 <= i < fields.len() && (inference::leading_groups(#[trigger] fields[i])->0).0 > 12;
        assert(after[i] == fields[i]);
    }
    if inference::month_first_evidence(fields) {
        let i = choose|i: int|
            0 <= i < fields.len() && (inference::leading_groups(#[trigger] fields[i])->0).1 > 12;
        assert(after[i] == fields[i]);
    }
}

} // verus!
