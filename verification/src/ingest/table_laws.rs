//! How the columns of a table come from the columns of a file, and what is
//! reported of them.

use vstd::prelude::*;
use crate::ingest::axis;
use crate::ingest::axis::{Axis, AxisFault};
use crate::ingest::columns;
use crate::ingest::csv::Outcome;
use crate::ingest::dataset;
use crate::ingest::dataset::{LoadFault, Table};
use crate::ingest::infer::{Confidence, DecimalSeparator};
use crate::ingest::report;
use crate::ingest::report::{Facts, SamplingClass};
use crate::series::anomaly;
use crate::series::dtype::Samples;
use crate::series::rounding;
use crate::text;
use crate::time::column_unit;
use crate::time::format::{Timestamp, TimestampFormat};
use crate::time::gap;
use crate::time::inference;
use crate::time::reading_laws;

verus! {

/// A time column is read if every one of its rows can be. If not, the first row
/// that cannot be is the one that is reported, with the reason.
pub proof fn law_the_first_unreadable_row_is_reported(
    fields: Seq<Seq<char>>,
    format: TimestampFormat,
    n: int,
)
    requires
        0 <= n <= fields.len(),
    ensures
        ({
            let unit = column_unit::column_unit(fields, format);
            match axis::read_timestamps(fields, format, n) {
                Ok(timestamps) => {
                    &&& timestamps.len() == n
                    &&& forall|i: int|
                        0 <= i < n ==> column_unit::row_reading(#[trigger] fields[i], format, unit)
                            == Ok::<Timestamp, Seq<char>>(timestamps[i])
                },
                Err(fault) => exists|i: int|
                    {
                        &&& 0 <= i < n
                        &&& column_unit::row_reading(#[trigger] fields[i], format, unit) matches Err(
                            reason,
                        ) && fault == (AxisFault::Timestamp { input: fields[i], format, reason })
                        &&& forall|j: int|
                            0 <= j < i ==> column_unit::row_reading(
                                #[trigger] fields[j],
                                format,
                                unit,
                            ) is Ok
                    },
            }
        }),
    decreases n,
{
    let unit = column_unit::column_unit(fields, format);
    if n > 0 {
        law_the_first_unreadable_row_is_reported(fields, format, n - 1);
        match axis::read_timestamps(fields, format, n - 1) {
            Err(fault) => {
                let i = choose|i: int|
                    {
                        &&& 0 <= i < n - 1
                        &&& column_unit::row_reading(#[trigger] fields[i], format, unit) matches Err(
                            reason,
                        ) && fault == (AxisFault::Timestamp { input: fields[i], format, reason })
                        &&& forall|j: int|
                            0 <= j < i ==> column_unit::row_reading(
                                #[trigger] fields[j],
                                format,
                                unit,
                            ) is Ok
                    };
                assert(column_unit::row_reading(fields[i], format, unit) is Err);
            },
            Ok(before) => {
                assert forall|j: int| 0 <= j < n - 1 implies column_unit::row_reading(
                    #[trigger] fields[j],
                    format,
                    unit,
                ) is Ok by {
                    assert(column_unit::row_reading(fields[j], format, unit) == Ok::<
                        Timestamp,
                        Seq<char>,
                    >(before[j]));
                }
                let last = fields[n - 1];
                if column_unit::row_reading(last, format, unit) is Err {
                    assert(column_unit::row_reading(fields[n - 1], format, unit) is Err);
                }
            },
        }
    }
}

/// In a column of dates, or of seconds or days of another count, every row is read
/// by itself.
pub proof fn law_dates_are_read_by_themselves(fields: Seq<Seq<char>>, format: TimestampFormat, i: int)
    requires
        0 <= i < fields.len(),
        format != TimestampFormat::EpochSeconds,
        format != TimestampFormat::EpochMillis,
        format != TimestampFormat::EpochMicros,
        format != TimestampFormat::EpochNanos,
    ensures
        column_unit::row_reading(fields[i], format, column_unit::column_unit(fields, format))
            == crate::time::format::reading(fields[i], format),
{
}

/// A first column without a format is a count, if every one of its rows is a
/// number. If not, the first row that is none is reported.
pub proof fn law_a_count_is_of_numbers(fields: Seq<Seq<char>>, numbers: Seq<u64>, n: int)
    requires
        0 <= n <= fields.len(),
        numbers.len() == fields.len(),
    ensures
        match axis::read_progression(fields, numbers, n) {
            Ok(values) => {
                &&& values == numbers.take(n)
                &&& forall|i: int|
                    0 <= i < n ==> text::is_number_text(text::trimmed(#[trigger] fields[i]))
            },
            Err(fault) => exists|i: int|
                {
                    &&& 0 <= i < n
                    &&& !text::is_number_text(text::trimmed(#[trigger] fields[i]))
                    &&& fault == (AxisFault::NotANumber { input: fields[i] })
                    &&& forall|j: int|
                        0 <= j < i ==> text::is_number_text(text::trimmed(#[trigger] fields[j]))
                },
        },
    decreases n,
{
    if n > 0 {
        law_a_count_is_of_numbers(fields, numbers, n - 1);
        match axis::read_progression(fields, numbers, n - 1) {
            Err(fault) => {
                let i = choose|i: int|
                    {
                        &&& 0 <= i < n - 1
                        &&& !text::is_number_text(text::trimmed(#[trigger] fields[i]))
                        &&& fault == (AxisFault::NotANumber { input: fields[i] })
                        &&& forall|j: int|
                            0 <= j < i ==> text::is_number_text(
                                text::trimmed(#[trigger] fields[j]),
                            )
                    };
                assert(!text::is_number_text(text::trimmed(fields[i])));
            },
            Ok(before) => {
                if columns::is_f64(fields[n - 1]) {
                    assert(numbers.take(n) =~= numbers.take(n - 1).push(numbers[n - 1]));
                } else {
                    assert(!text::is_number_text(text::trimmed(fields[n - 1])));
                }
            },
        }
    } else {
        assert(numbers.take(0) =~= Seq::empty());
    }
}

/// An axis of timestamps that were read in a certain format.
pub open spec fn has_format(time: Axis, wanted: TimestampFormat) -> bool {
    time matches Axis::Absolute { format, .. } && format == wanted
}

/// The first column of a file is its time axis and each further column one of the
/// table, under its own name and with its own fields. A file with fewer than two
/// columns is refused, and so is one whose axis cannot be read; nothing else is.
pub proof fn law_every_further_column_is_in_the_table(
    names: Seq<Seq<char>>,
    fields: Seq<Seq<Seq<char>>>,
    separator: DecimalSeparator,
    numbers: Seq<Seq<u64>>,
    forced: Option<TimestampFormat>,
)
    requires
        fields.len() == names.len(),
        numbers.len() == names.len(),
    ensures
        ({
            let made = dataset::table_from(names, fields, separator, numbers, forced);
            &&& names.len() < 2 <==> made == Err::<(Table, bool), LoadFault>(
                LoadFault::SingleColumn,
            )
            &&& made matches Ok((table, ambiguous)) ==> {
                &&& table.time_column_name == names[0]
                &&& table.time.len() == fields[0].len()
                &&& table.columns.len() == names.len() - 1
                &&& forall|c: int|
                    0 <= c < table.columns.len() ==> {
                        let column = #[trigger] table.columns[c];
                        &&& column.name == names[c + 1]
                        &&& column.samples == columns::column_samples(
                            Seq::new(
                                fields[c + 1].len(),
                                |i: int| columns::normalized(fields[c + 1][i], separator),
                            ),
                            numbers[c + 1],
                        )
                        &&& column.samples.len() == fields[c + 1].len()
                        &&& column.outliers.len() == 0
                        &&& column.skipped_rows.len() == 0
                        &&& column.samples matches Samples::F64(s) ==> column.nan_runs
                            == anomaly::nan_runs(s, s.len() as int)
                    }
                &&& forced matches Some(format) ==> !ambiguous && has_format(table.time, format)
                &&& forced is None ==> match inference::inferred_format(fields[0]) {
                    Some(found) => ambiguous == found.ambiguous && has_format(
                        table.time,
                        found.format,
                    ),
                    None => !ambiguous && table.time is Progressive,
                }
            }
            &&& made is Err && names.len() >= 2 ==> made->Err_0 is Axis
        }),
{
    if names.len() >= 2 {
        let settled = dataset::settled_format(fields[0], forced);
        match dataset::format_of(settled) {
            Some(format) => {
                law_the_first_unreadable_row_is_reported(
                    fields[0],
                    format,
                    fields[0].len() as int,
                );
            },
            None => {
                if dataset::column_numbers(numbers, 0).len() == fields[0].len() {
                    law_a_count_is_of_numbers(fields[0], numbers[0], fields[0].len() as int);
                }
                lemma_count_has_every_row(fields[0], numbers[0], fields[0].len() as int);
            },
        }
        assert forall|c: int| 0 <= c < names.len() - 1 implies dataset::normalized_fields(
            #[trigger] fields[c + 1],
            separator,
        ) == Seq::new(
            fields[c + 1].len(),
            |i: int| columns::normalized(fields[c + 1][i], separator),
        ) by {
            assert(dataset::normalized_fields(fields[c + 1], separator) =~= Seq::new(
                fields[c + 1].len(),
                |i: int| columns::normalized(fields[c + 1][i], separator),
            ));
        }
    }
}

proof fn lemma_count_has_every_row(fields: Seq<Seq<char>>, numbers: Seq<u64>, n: int)
    requires
        0 <= n <= fields.len(),
    ensures
        axis::read_progression(fields, numbers, n) matches Ok(values) ==> values.len() == n,
    decreases n,
{
    if n > 0 {
        lemma_count_has_every_row(fields, numbers, n - 1);
    }
}

/// What is told of a file is what was found: of the rows, how many were kept and
/// skipped; of a time axis, its name and format, how it was sampled, and how many
/// gaps, steps back and repeats it has. A count has no name and no format.
pub proof fn law_summaries_tell_what_was_found(outcome: Outcome, name: Seq<char>, time: Axis)
    ensures
        ({
            let facts = report::facts_of(name, time);
            let summary = report::summary_of(outcome, facts);
            &&& summary.row_count == outcome.row_count
            &&& summary.skipped_row_count == outcome.skipped_row_count
            &&& summary.encoding == outcome.encoding_label
            &&& summary.delimiter == Some(outcome.delimiter.label())
            &&& summary.decimal_separator == Some(outcome.decimal_separator.label())
            &&& match time {
                Axis::Absolute { timestamps, format } => {
                    let stats = gap::stats_of(Seq::new(timestamps.len(), |i: int| timestamps[i].ticks));
                    &&& summary.time_column == Some(name)
                    &&& summary.timestamp_format == Some(report::format_label(format))
                    &&& summary.gap_count == stats.gap_count
                    &&& summary.non_monotonic_count == stats.monotonicity.non_monotonic_count
                    &&& summary.duplicate_timestamp_count == stats.monotonicity.duplicate_count
                    &&& summary.sampling_class == SamplingClass::Uniform
                        <==> stats.sampling_class == crate::time::SamplingClass::Uniform
                    &&& summary.sampling_class == SamplingClass::SegmentedUniform
                        <==> stats.sampling_class == crate::time::SamplingClass::SegmentedUniform
                    &&& summary.sampling_class == SamplingClass::Irregular <==> stats.sampling_class
                        == crate::time::SamplingClass::Irregular
                },
                Axis::Progressive { .. } => {
                    &&& summary.time_column is None
                    &&& summary.timestamp_format is None
                    &&& summary.gap_count == 0
                    &&& summary.non_monotonic_count == 0
                    &&& summary.duplicate_timestamp_count == 0
                    &&& summary.sampling_class == SamplingClass::ProgressiveIndex
                },
            }
        }),
{
}

/// A report is as sure as what it reports: of the time column if the header is, of
/// the format if there is one and it is not ambiguous.
pub proof fn law_reports_are_as_sure_as_their_findings(
    outcome: Outcome,
    facts: Facts,
    time: Axis,
    ambiguous: bool,
)
    ensures
        ({
            let told = report::report_of(outcome, facts, time, ambiguous);
            &&& told.encoding.1 == outcome.encoding_confidence
            &&& told.delimiter.1 == outcome.delimiter_confidence
            &&& told.decimal_separator.1 == outcome.decimal_separator_confidence
            &&& told.time_column.1 == Confidence::Low <==> outcome.header_ambiguous
            &&& told.timestamp_format.1 == Confidence::Low <==> time is Absolute && ambiguous
            &&& told.sample_count == outcome.row_count
            &&& told.time_column.0 == facts.time_column
            &&& told.timestamp_format.0 == facts.timestamp_format
            &&& told.sampling_class == facts.sampling_class
        }),
{
}

/// No two formats have the same label.
pub proof fn law_formats_have_labels_of_their_own(one: TimestampFormat, other: TimestampFormat)
    requires
        one != other,
    ensures
        report::format_label(one) != report::format_label(other),
{
    reveal_strlit("iso8601");
    reveal_strlit("iso8601_naive");
    reveal_strlit("datetime_space");
    reveal_strlit("dd_mm_yyyy");
    reveal_strlit("mm_dd_yyyy");
    reveal_strlit("epoch_s");
    reveal_strlit("epoch_ms");
    reveal_strlit("epoch_us");
    reveal_strlit("epoch_ns");
    reveal_strlit("labview_epoch");
    reveal_strlit("excel_serial");
    assert("iso8601"@[0] == 'i' && "iso8601"@.len() == 7);
    assert("iso8601_naive"@[0] == 'i' && "iso8601_naive"@.len() == 13);
    assert("datetime_space"@[0] == 'd' && "datetime_space"@.len() == 14);
    assert("dd_mm_yyyy"@[0] == 'd' && "dd_mm_yyyy"@.len() == 10);
    assert("mm_dd_yyyy"@[0] == 'm');
    assert("epoch_s"@[6] == 's' && "epoch_s"@.len() == 7);
    assert("epoch_s"@[0] == 'e');
    assert("epoch_ms"@[6] == 'm' && "epoch_ms"@.len() == 8 && "epoch_ms"@[0] == 'e');
    assert("epoch_us"@[6] == 'u' && "epoch_us"@.len() == 8 && "epoch_us"@[0] == 'e');
    assert("epoch_ns"@[6] == 'n' && "epoch_ns"@.len() == 8 && "epoch_ns"@[0] == 'e');
    assert("labview_epoch"@[0] == 'l');
    assert("excel_serial"@[0] == 'e' && "excel_serial"@.len() == 12);
}

/// The ticks that are drawn are those of the timestamps, and of a count the
/// billionths of its numbers.
pub proof fn law_drawn_ticks_are_those_of_the_axis(time: Axis, i: int)
    requires
        0 <= i < time.len(),
    ensures
        time.pyramid_ticks().len() == time.len(),
        match time {
            Axis::Absolute { timestamps, .. } => time.pyramid_ticks()[i] == timestamps[i].ticks,
            Axis::Progressive { values } => time.pyramid_ticks()[i]
                == rounding::progressive_tick(values[i]) as i128,
        },
{
}

/// The rows of a time column that counts from 1970, with the unit that they share.
pub proof fn law_counted_rows_keep_their_instants(
    fields: Seq<Seq<char>>,
    format: TimestampFormat,
    per_second: int,
    timestamps: Seq<Timestamp>,
    i: int,
)
    requires
        reading_laws::counts_per_second(format, per_second),
        axis::read_timestamps(fields, format, fields.len() as int) == Ok::<
            Seq<Timestamp>,
            AxisFault,
        >(timestamps),
        0 <= i < fields.len(),
    ensures
        timestamps.len() == fields.len(),
        timestamps[i].unit == timestamps[0].unit,
        crate::time::format::reading(fields[i], format) matches Ok(own) && timestamps[i].ticks
            * reading_laws::rate(own.unit) == own.ticks * reading_laws::rate(timestamps[i].unit),
{
    law_the_first_unreadable_row_is_reported(fields, format, fields.len() as int);
    reading_laws::law_rows_of_a_column_share_a_unit(fields, format, per_second, i);
    reading_laws::law_rows_of_a_column_share_a_unit(fields, format, per_second, 0);
    let unit = column_unit::column_unit(fields, format);
    assert(column_unit::row_reading(fields[i], format, unit) == Ok::<Timestamp, Seq<char>>(
        timestamps[i],
    ));
    assert(column_unit::row_reading(fields[0], format, unit) == Ok::<Timestamp, Seq<char>>(
        timestamps[0],
    ));
}

/// The first column is handed out to be read as numbers if it has no format and
/// every row of it is a number: the rows without the white space around them.
pub proof fn law_counts_are_handed_out_as_numbers(
    fields: Seq<Seq<char>>,
    forced: Option<TimestampFormat>,
)
    ensures
        ({
            let requests = dataset::time_requests(fields, forced);
            let is_count = forced is None && inference::inferred_format(fields) is None && forall|
                i: int,
            |
                0 <= i < fields.len() ==> text::is_number_text(text::trimmed(#[trigger] fields[i]));
            &&& is_count ==> requests.len() == fields.len()
            &&& is_count ==> forall|i: int|
                0 <= i < fields.len() ==> #[trigger] requests[i] == text::trimmed(fields[i])
            &&& !is_count ==> requests.len() == 0
        }),
{
    if dataset::is_progression(fields) {
        assert forall|i: int| 0 <= i < fields.len() implies text::is_number_text(
            text::trimmed(#[trigger] fields[i]),
        ) by {
            assert(columns::is_f64(fields[i]));
        }
    } else {
        let i = choose|i: int| 0 <= i < fields.len() && !columns::is_f64(#[trigger] fields[i]);
        assert(!text::is_number_text(text::trimmed(fields[i])));
    }
}

} // verus!
