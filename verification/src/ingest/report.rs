//! What is reported of a file that was opened: a summary of what it is, and how
//! sure each inference is.

use vstd::prelude::*;
use crate::error::{GlydeError, Result};
use crate::ingest::axis;
use crate::ingest::axis::{Axis, AxisTicks, TimeAxis};
use crate::ingest::column_text::ColumnText;
use crate::ingest::csv;
use crate::ingest::csv::{parse_capturing_column, Capture, CsvParseOutcome, Outcome};
use crate::ingest::dataset;
use crate::ingest::dataset::{Dataset, LoadFault, LoadedText, Table};
use crate::ingest::infer::Confidence;
use crate::ingest::overrides::IngestOverrides;
use crate::text;
use crate::time::column_unit;
use crate::time::column_unit::lemma_found_unit;
use crate::time::extent;
use crate::time::gap;
use crate::time::inference;
use crate::time::ticks;
use crate::time::{
    infer_timestamp_format, parse_timestamp, summarize_ticks, TimeAxisStats, Timestamp,
    TimestampFormat,
};

verus! {

/// How regularly the time axis was sampled. A progression of plain numbers has
/// no differences in time to speak of.
#[derive(Debug, Clone, Copy, PartialEq, Eq, Structural)]
pub enum SamplingClass {
    Uniform,
    SegmentedUniform,
    Irregular,
    ProgressiveIndex,
}

impl SamplingClass {
    /// The class of an axis of timestamps.
    pub open spec fn of_timestamps(class: crate::time::SamplingClass) -> SamplingClass {
        match class {
            crate::time::SamplingClass::Uniform => SamplingClass::Uniform,
            crate::time::SamplingClass::SegmentedUniform => SamplingClass::SegmentedUniform,
            crate::time::SamplingClass::Irregular => SamplingClass::Irregular,
        }
    }
}

impl From<crate::time::SamplingClass> for SamplingClass {
    fn from(class: crate::time::SamplingClass) -> (reported: SamplingClass) {
        match class {
            crate::time::SamplingClass::Uniform => SamplingClass::Uniform,
            crate::time::SamplingClass::SegmentedUniform => SamplingClass::SegmentedUniform,
            crate::time::SamplingClass::Irregular => SamplingClass::Irregular,
        }
    }
}

impl vstd::std_specs::convert::FromSpecImpl<crate::time::SamplingClass> for SamplingClass {
    open spec fn obeys_from_spec() -> bool {
        true
    }

    open spec fn from_spec(class: crate::time::SamplingClass) -> SamplingClass {
        SamplingClass::of_timestamps(class)
    }
}

/// What a correct open of a file finds.
#[derive(Debug, Clone, PartialEq, Eq)]
pub struct OpenSummary {
    pub encoding: String,
    pub delimiter: Option<String>,
    pub decimal_separator: Option<String>,
    pub time_column: Option<String>,
    pub timestamp_format: Option<String>,
    pub row_count: u64,
    pub skipped_row_count: u64,
    pub sampling_class: SamplingClass,
    pub gap_count: u64,
    /// How many timestamps run backwards.
    pub non_monotonic_count: u64,
    /// How many timestamps repeat the one before.
    pub duplicate_timestamp_count: u64,
}

/// A summary as a value.
#[verifier::ext_equal]
pub ghost struct Summary {
    pub encoding: Seq<char>,
    pub delimiter: Option<Seq<char>>,
    pub decimal_separator: Option<Seq<char>>,
    pub time_column: Option<Seq<char>>,
    pub timestamp_format: Option<Seq<char>>,
    pub row_count: int,
    pub skipped_row_count: int,
    pub sampling_class: SamplingClass,
    pub gap_count: int,
    pub non_monotonic_count: int,
    pub duplicate_timestamp_count: int,
}

/// The characters of a text, if there is one.
pub open spec fn text_view(text: Option<String>) -> Option<Seq<char>> {
    match text {
        Some(text) => Some(text@),
        None => None,
    }
}

impl View for OpenSummary {
    type V = Summary;

    open spec fn view(&self) -> Summary {
        Summary {
            encoding: self.encoding@,
            delimiter: text_view(self.delimiter),
            decimal_separator: text_view(self.decimal_separator),
            time_column: text_view(self.time_column),
            timestamp_format: text_view(self.timestamp_format),
            row_count: self.row_count as int,
            skipped_row_count: self.skipped_row_count as int,
            sampling_class: self.sampling_class,
            gap_count: self.gap_count as int,
            non_monotonic_count: self.non_monotonic_count as int,
            duplicate_timestamp_count: self.duplicate_timestamp_count as int,
        }
    }
}

/// An inferred value, and how sure the inference is.
#[derive(Debug, Clone, PartialEq, Eq)]
pub struct InferredField<T> {
    pub value: T,
    pub confidence: Confidence,
}

/// Everything that was inferred of a file, each with how sure it is. How many
/// samples there are and how regularly they were taken are facts, not guesses.
#[derive(Debug, Clone, PartialEq, Eq)]
pub struct InferenceReport {
    pub encoding: InferredField<String>,
    pub delimiter: InferredField<Option<String>>,
    pub decimal_separator: InferredField<Option<String>>,
    pub time_column: InferredField<Option<String>>,
    pub timestamp_format: InferredField<Option<String>>,
    pub sample_count: u64,
    pub sampling_class: SamplingClass,
}

/// A report as a value.
#[verifier::ext_equal]
pub ghost struct Report {
    pub encoding: (Seq<char>, Confidence),
    pub delimiter: (Option<Seq<char>>, Confidence),
    pub decimal_separator: (Option<Seq<char>>, Confidence),
    pub time_column: (Option<Seq<char>>, Confidence),
    pub timestamp_format: (Option<Seq<char>>, Confidence),
    pub sample_count: int,
    pub sampling_class: SamplingClass,
}

impl View for InferenceReport {
    type V = Report;

    open spec fn view(&self) -> Report {
        Report {
            encoding: (self.encoding.value@, self.encoding.confidence),
            delimiter: (text_view(self.delimiter.value), self.delimiter.confidence),
            decimal_separator: (
                text_view(self.decimal_separator.value),
                self.decimal_separator.confidence,
            ),
            time_column: (text_view(self.time_column.value), self.time_column.confidence),
            timestamp_format: (
                text_view(self.timestamp_format.value),
                self.timestamp_format.confidence,
            ),
            sample_count: self.sample_count as int,
            sampling_class: self.sampling_class,
        }
    }
}

impl InferenceReport {
    /// Whether any inference is unsure.
    pub fn has_low_confidence_field(&self) -> (low: bool)
        ensures
            low == (self@.encoding.1 == Confidence::Low || self@.delimiter.1 == Confidence::Low
                || self@.decimal_separator.1 == Confidence::Low || self@.time_column.1
                == Confidence::Low || self@.timestamp_format.1 == Confidence::Low),
    {
        self.encoding.confidence == Confidence::Low || self.delimiter.confidence == Confidence::Low
            || self.decimal_separator.confidence == Confidence::Low || self.time_column.confidence
            == Confidence::Low || self.timestamp_format.confidence == Confidence::Low
    }
}

/// The name that a format goes by in a summary.
pub open spec fn format_label(format: TimestampFormat) -> Seq<char> {
    match format {
        TimestampFormat::Iso8601WithOffset => "iso8601"@,
        TimestampFormat::Iso8601Naive => "iso8601_naive"@,
        TimestampFormat::DateTimeSpace => "datetime_space"@,
        TimestampFormat::DayFirst => "dd_mm_yyyy"@,
        TimestampFormat::MonthFirst => "mm_dd_yyyy"@,
        TimestampFormat::EpochSeconds => "epoch_s"@,
        TimestampFormat::EpochMillis => "epoch_ms"@,
        TimestampFormat::EpochMicros => "epoch_us"@,
        TimestampFormat::EpochNanos => "epoch_ns"@,
        TimestampFormat::LabViewEpoch => "labview_epoch"@,
        TimestampFormat::ExcelSerial => "excel_serial"@,
    }
}

/// The name that a format goes by in a summary.
pub fn timestamp_format_label(format: TimestampFormat) -> (label: &'static str)
    ensures
        label@ == format_label(format),
{
    match format {
        TimestampFormat::Iso8601WithOffset => "iso8601",
        TimestampFormat::Iso8601Naive => "iso8601_naive",
        TimestampFormat::DateTimeSpace => "datetime_space",
        TimestampFormat::DayFirst => "dd_mm_yyyy",
        TimestampFormat::MonthFirst => "mm_dd_yyyy",
        TimestampFormat::EpochSeconds => "epoch_s",
        TimestampFormat::EpochMillis => "epoch_ms",
        TimestampFormat::EpochMicros => "epoch_us",
        TimestampFormat::EpochNanos => "epoch_ns",
        TimestampFormat::LabViewEpoch => "labview_epoch",
        TimestampFormat::ExcelSerial => "excel_serial",
    }
}

/// What the time axis says: its column and its format, and how it was sampled.
/// A progression of plain numbers has no format, no gaps and no order to keep.
#[verifier::ext_equal]
pub ghost struct Facts {
    pub time_column: Option<Seq<char>>,
    pub timestamp_format: Option<Seq<char>>,
    pub sampling_class: SamplingClass,
    pub gap_count: int,
    pub non_monotonic_count: int,
    pub duplicate_timestamp_count: int,
}

/// What an axis of timestamps says.
pub open spec fn facts_of_ticks(
    name: Seq<char>,
    format: TimestampFormat,
    ticks: Seq<i128>,
) -> Facts {
    let stats = gap::stats_of(ticks);
    Facts {
        time_column: Some(name),
        timestamp_format: Some(format_label(format)),
        sampling_class: SamplingClass::of_timestamps(stats.sampling_class),
        gap_count: stats.gap_count as int,
        non_monotonic_count: stats.monotonicity.non_monotonic_count as int,
        duplicate_timestamp_count: stats.monotonicity.duplicate_count as int,
    }
}

/// What a progression of plain numbers says.
pub open spec fn facts_of_progression() -> Facts {
    Facts {
        time_column: None,
        timestamp_format: None,
        sampling_class: SamplingClass::ProgressiveIndex,
        gap_count: 0,
        non_monotonic_count: 0,
        duplicate_timestamp_count: 0,
    }
}

/// What an axis says.
pub open spec fn facts_of(name: Seq<char>, axis: Axis) -> Facts {
    match axis {
        Axis::Absolute { timestamps, format } => facts_of_ticks(
            name,
            format,
            axis::ticks_of(timestamps),
        ),
        Axis::Progressive { .. } => facts_of_progression(),
    }
}

/// The differences between the ticks of an axis can be counted.
pub open spec fn has_countable_differences(axis: Axis) -> bool {
    axis matches Axis::Absolute { timestamps, .. } ==> ticks::deltas_fit(axis::ticks_of(timestamps))
}

/// The summary of a file.
pub open spec fn summary_of(outcome: Outcome, facts: Facts) -> Summary {
    Summary {
        encoding: outcome.encoding_label,
        delimiter: Some(outcome.delimiter.label()),
        decimal_separator: Some(outcome.decimal_separator.label()),
        time_column: facts.time_column,
        timestamp_format: facts.timestamp_format,
        row_count: outcome.row_count,
        skipped_row_count: outcome.skipped_row_count,
        sampling_class: facts.sampling_class,
        gap_count: facts.gap_count,
        non_monotonic_count: facts.non_monotonic_count,
        duplicate_timestamp_count: facts.duplicate_timestamp_count,
    }
}

/// The report of a file. The name of the time column is as sure as the header
/// that it stands in. A progression has no format that could be unsure.
pub open spec fn report_of(outcome: Outcome, facts: Facts, axis: Axis, ambiguous: bool) -> Report {
    Report {
        encoding: (outcome.encoding_label, outcome.encoding_confidence),
        delimiter: (Some(outcome.delimiter.label()), outcome.delimiter_confidence),
        decimal_separator: (
            Some(outcome.decimal_separator.label()),
            outcome.decimal_separator_confidence,
        ),
        time_column: (
            facts.time_column,
            if outcome.header_ambiguous {
                Confidence::Low
            } else {
                Confidence::High
            },
        ),
        timestamp_format: (
            facts.timestamp_format,
            if axis is Absolute && ambiguous {
                Confidence::Low
            } else {
                Confidence::High
            },
        ),
        sample_count: outcome.row_count,
        sampling_class: facts.sampling_class,
    }
}

/// What the time axis says, in the words of a summary.
struct TimeFacts {
    time_column: Option<String>,
    timestamp_format: Option<String>,
    sampling_class: SamplingClass,
    gap_count: u64,
    non_monotonic_count: u64,
    duplicate_timestamp_count: u64,
}

impl View for TimeFacts {
    type V = Facts;

    closed spec fn view(&self) -> Facts {
        Facts {
            time_column: text_view(self.time_column),
            timestamp_format: text_view(self.timestamp_format),
            sampling_class: self.sampling_class,
            gap_count: self.gap_count as int,
            non_monotonic_count: self.non_monotonic_count as int,
            duplicate_timestamp_count: self.duplicate_timestamp_count as int,
        }
    }
}

fn facts_from_stats(name: &String, format: TimestampFormat, stats: TimeAxisStats) -> (facts:
    TimeFacts)
    ensures
        facts@.time_column == Some(name@),
        facts@.timestamp_format == Some(format_label(format)),
        facts@.sampling_class == SamplingClass::of_timestamps(stats.sampling_class),
        facts@.gap_count == stats.gap_count,
        facts@.non_monotonic_count == stats.monotonicity.non_monotonic_count,
        facts@.duplicate_timestamp_count == stats.monotonicity.duplicate_count,
{
    TimeFacts {
        time_column: Some(name.clone()),
        timestamp_format: Some(timestamp_format_label(format).to_owned()),
        sampling_class: SamplingClass::from(stats.sampling_class),
        gap_count: stats.gap_count as u64,
        non_monotonic_count: stats.monotonicity.non_monotonic_count as u64,
        duplicate_timestamp_count: stats.monotonicity.duplicate_count as u64,
    }
}

fn progressive_facts() -> (facts: TimeFacts)
    ensures
        facts@ == facts_of_progression(),
{
    TimeFacts {
        time_column: None,
        timestamp_format: None,
        sampling_class: SamplingClass::ProgressiveIndex,
        gap_count: 0,
        non_monotonic_count: 0,
        duplicate_timestamp_count: 0,
    }
}

fn read_facts(name: &String, time: &TimeAxis) -> (facts: Result<TimeFacts>)
    requires
        time.wf(),
        has_countable_differences(time@),
    ensures
        facts matches Ok(facts) && facts@ == facts_of(name@, time@),
{
    match time {
        TimeAxis::Absolute { timestamps, format } => {
            let ticks: AxisTicks = AxisTicks::new(timestamps);
            match summarize_ticks(&ticks) {
                Ok(stats) => Ok(facts_from_stats(name, *format, stats)),
                Err(error) => Err(error),
            }
        },
        TimeAxis::Progressive { .. } => Ok(progressive_facts()),
    }
}

fn copy_text(text: &Option<String>) -> (copy: Option<String>)
    ensures
        text_view(copy) == text_view(*text),
{
    match text {
        Some(text) => Some(text.clone()),
        None => None,
    }
}

fn summarize(outcome: &CsvParseOutcome, facts: &TimeFacts) -> (summary: OpenSummary)
    ensures
        summary@ == summary_of(outcome@, facts@),
{
    OpenSummary {
        encoding: outcome.encoding_label.clone(),
        delimiter: Some(outcome.delimiter.as_str().to_owned()),
        decimal_separator: Some(outcome.decimal_separator.as_str().to_owned()),
        time_column: copy_text(&facts.time_column),
        timestamp_format: copy_text(&facts.timestamp_format),
        row_count: outcome.row_count,
        skipped_row_count: outcome.skipped_row_count,
        sampling_class: facts.sampling_class,
        gap_count: facts.gap_count,
        non_monotonic_count: facts.non_monotonic_count,
        duplicate_timestamp_count: facts.duplicate_timestamp_count,
    }
}

/// The summary and the report of a table that was just built.
pub fn build_summary_and_report(
    outcome: CsvParseOutcome,
    dataset: Dataset,
    timestamp_format_ambiguous: bool,
) -> (opened: Result<(OpenSummary, InferenceReport, Dataset)>)
    requires
        dataset.wf(),
        has_countable_differences(dataset.time@),
    ensures
        opened matches Ok((summary, report, table)) && {
            let facts = facts_of(dataset.time_column_name@, dataset.time@);
            &&& summary@ == summary_of(outcome@, facts)
            &&& report@ == report_of(outcome@, facts, dataset.time@, timestamp_format_ambiguous)
            &&& table == dataset
        },
{
    let facts: TimeFacts = match read_facts(&dataset.time_column_name, &dataset.time) {
        Ok(facts) => facts,
        Err(error) => {
            return Err(error);
        },
    };
    let summary: OpenSummary = summarize(&outcome, &facts);
    let time_column_confidence: Confidence = if outcome.header_ambiguous {
        Confidence::Low
    } else {
        Confidence::High
    };
    let timestamp_format_confidence: Confidence = match &dataset.time {
        TimeAxis::Absolute { .. } => if timestamp_format_ambiguous {
            Confidence::Low
        } else {
            Confidence::High
        },
        TimeAxis::Progressive { .. } => Confidence::High,
    };
    let report: InferenceReport = InferenceReport {
        encoding: InferredField {
            value: outcome.encoding_label.clone(),
            confidence: outcome.encoding_confidence,
        },
        delimiter: InferredField {
            value: Some(outcome.delimiter.as_str().to_owned()),
            confidence: outcome.delimiter_confidence,
        },
        decimal_separator: InferredField {
            value: Some(outcome.decimal_separator.as_str().to_owned()),
            confidence: outcome.decimal_separator_confidence,
        },
        time_column: InferredField {
            value: copy_text(&facts.time_column),
            confidence: time_column_confidence,
        },
        timestamp_format: InferredField {
            value: copy_text(&facts.timestamp_format),
            confidence: timestamp_format_confidence,
        },
        sample_count: outcome.row_count,
        sampling_class: facts.sampling_class,
    };
    Ok((summary, report, dataset))
}

/// The summary that the text of the time column gives, without the table.
pub open spec fn inspected(
    outcome: Outcome,
    fields: Seq<Seq<char>>,
) -> core::result::Result<Summary, LoadFault> {
    if outcome.column_names.len() < 2 {
        Err(LoadFault::SingleColumn)
    } else {
        match inference::inferred_format(fields) {
            Some(found) => match axis::read_timestamps(
                fields,
                found.format,
                fields.len() as int,
            ) {
                Ok(timestamps) => Ok(
                    summary_of(
                        outcome,
                        facts_of_ticks(
                            outcome.column_names[0],
                            found.format,
                            axis::ticks_of(timestamps),
                        ),
                    ),
                ),
                Err(fault) => Err(LoadFault::Axis(fault)),
            },
            None => Ok(summary_of(outcome, facts_of_progression())),
        }
    }
}

/// The first timestamps of a column whose format was found in its fields are
/// those of its first fields.
proof fn lemma_timestamps_read(fields: Seq<Seq<char>>, format: TimestampFormat, n: int)
    requires
        0 <= n <= fields.len(),
        inference::inferred_format(fields) matches Some(found) && found.format == format,
        axis::read_timestamps(fields, format, n) is Ok,
    ensures
        ({
            let timestamps = axis::read_timestamps(fields, format, n)->Ok_0;
            &&& timestamps.len() == n
            &&& forall|i: int|
                0 <= i < n ==> crate::time::format::reading(#[trigger] fields[i], format) == Ok::<
                    Timestamp,
                    Seq<char>,
                >(timestamps[i])
        }),
    decreases n,
{
    if n > 0 {
        lemma_timestamps_read(fields, format, n - 1);
        lemma_found_unit(fields, format);
    }
}

/// The ticks of a column whose format was found in its fields have countable
/// differences.
proof fn lemma_found_axis_is_countable(fields: Seq<Seq<char>>, timestamps: Seq<Timestamp>)
    requires
        inference::inferred_format(fields) matches Some(found) && axis::read_timestamps(
            fields,
            found.format,
            fields.len() as int,
        ) == Ok::<Seq<Timestamp>, axis::AxisFault>(timestamps),
    ensures
        ticks::deltas_fit(axis::ticks_of(timestamps)),
{
    let format = inference::inferred_format(fields)->Some_0.format;
    lemma_timestamps_read(fields, format, fields.len() as int);
    extent::law_found_formats_have_countable_differences(fields, timestamps, format);
    assert(axis::ticks_of(timestamps) == Seq::new(
        timestamps.len(),
        |i: int| timestamps[i].ticks,
    ));
}

/// Summarizes a file from its report and the text of its time column.
pub fn inspect_column(outcome: &CsvParseOutcome, column: &ColumnText) -> (summary: Result<
    OpenSummary,
>)
    requires
        column.wf(),
    ensures
        match (summary, inspected(outcome@, column@)) {
            (Ok(summary), Ok(wanted)) => summary@ == wanted,
            (Err(error), Err(fault)) => dataset::reports_load_fault(error, fault),
            _ => false,
        },
{
    if outcome.column_names.len() < 2 {
        return Err(GlydeError::SingleColumnFile);
    }
    let fields: Vec<String> = column.to_vec();
    let ghost texts: Seq<Seq<char>> = column@;
    match infer_timestamp_format(fields.as_slice()) {
        Some(found) => {
            let ghost n: int = fields@.len() as int;
            proof {
                lemma_found_unit(texts, found.format);
            }
            let mut ticks: Vec<i128> = Vec::new();
            let ghost mut timestamps: Seq<Timestamp> = Seq::empty();
            let mut i: usize = 0;
            while i < fields.len()
                invariant
                    texts == column@,
                    texts == text::texts(fields@),
                    n == fields@.len(),
                    outcome@.column_names.len() >= 2,
                    inference::inferred_format(texts) == Some(found),
                    forall|j: int|
                        0 <= j < texts.len() ==> column_unit::row_reading(
                            #[trigger] texts[j],
                            found.format,
                            column_unit::column_unit(texts, found.format),
                        ) == crate::time::format::reading(texts[j], found.format),
                    found.format != TimestampFormat::DateTimeSpace,
                    i <= fields@.len(),
                    axis::read_timestamps(texts, found.format, i as int) == Ok::<
                        Seq<Timestamp>,
                        axis::AxisFault,
                    >(timestamps),
                    ticks@ == axis::ticks_of(timestamps),
                decreases fields@.len() - i,
            {
                assert(texts[i as int] == fields@[i as int]@);
                match parse_timestamp(fields[i].as_str(), found.format) {
                    Ok(timestamp) => {
                        ticks.push(timestamp.ticks);
                        proof {
                            timestamps = timestamps.push(timestamp);
                            assert(ticks@ == axis::ticks_of(timestamps));
                        }
                    },
                    Err(error) => {
                        proof {
                            axis::lemma_axis_fault_stays(
                                texts,
                                Some(found.format),
                                Seq::empty(),
                                i + 1,
                                n,
                            );
                        }
                        return Err(error);
                    },
                }
                i = i + 1;
            }
            proof {
                lemma_found_axis_is_countable(texts, timestamps);
            }
            match summarize_ticks(ticks.as_slice()) {
                Ok(stats) => {
                    let facts: TimeFacts = facts_from_stats(
                        &outcome.column_names[0],
                        found.format,
                        stats,
                    );
                    assert(facts@ =~= facts_of_ticks(
                        outcome@.column_names[0],
                        found.format,
                        ticks@,
                    ));
                    Ok(summarize(outcome, &facts))
                },
                Err(error) => Err(error),
            }
        },
        None => {
            let facts: TimeFacts = progressive_facts();
            Ok(summarize(outcome, &facts))
        },
    }
}

/// `summary` is that of the bytes of a file that is not empty, or tells why
/// there is none.
pub open spec fn is_inspection_of(summary: Result<OpenSummary>, bytes: Seq<u8>) -> bool {
    let end = csv::finished_scan_of(bytes, Capture::Column(0), IngestOverrides::none_spec());
    match (summary, inspected(end.outcome(), end.columns()[0])) {
        (Ok(summary), Ok(wanted)) => summary@ == wanted,
        (Err(error), Err(fault)) => dataset::reports_load_fault(error, fault),
        _ => false,
    }
}

/// Summarizes the contents of the file at `path`, or reports why there is no
/// summary: they could not be read, there are none, or there is no column
/// besides the time.
pub fn inspect(path: &str, contents: core::result::Result<Vec<u8>, String>) -> (summary: Result<
    OpenSummary,
>)
    requires
        contents matches Ok(bytes) ==> bytes@.len() <= usize::MAX / 8,
    ensures
        match contents {
            Ok(bytes) => {
                if bytes@.len() == 0 {
                    summary matches Err(error) && error is EmptyFile
                } else {
                    is_inspection_of(summary, bytes@)
                }
            },
            Err(reason) => summary matches Err(error) && csv::is_io_error(error, path@, reason@),
        },
{
    match contents {
        Ok(bytes) => match parse_capturing_column(bytes.as_slice(), 0) {
            Ok((outcome, column)) => inspect_column(&outcome, &column),
            Err(error) => Err(error),
        },
        Err(reason) => Err(GlydeError::Io { path: path.to_owned(), source: reason }),
    }
}

/// `opened` is the summary, the report and the table, or tells why there is
/// none.
pub open spec fn is_open_of(
    opened: Result<(OpenSummary, InferenceReport, Dataset)>,
    outcome: Outcome,
    wanted: core::result::Result<(Table, bool), LoadFault>,
) -> bool {
    match (opened, wanted) {
        (Ok((summary, report, dataset)), Ok((table, ambiguous))) => {
            let facts = facts_of(table.time_column_name, table.time);
            &&& dataset.wf()
            &&& dataset@ == table
            &&& summary@ == summary_of(outcome, facts)
            &&& report@ == report_of(outcome, facts, table.time, ambiguous)
        },
        (Err(error), Err(fault)) => dataset::reports_load_fault(error, fault),
        _ => false,
    }
}

/// The table that the text of a file makes.
pub open spec fn table_of_text(loaded: LoadedText, numbers: Seq<Seq<u64>>) -> core::result::Result<
    (Table, bool),
    LoadFault,
> {
    dataset::table_from(
        loaded.outcome@.column_names,
        csv::column_texts(loaded.columns@),
        loaded.outcome.decimal_separator,
        numbers,
        loaded.forced,
    )
}

/// Opens a file whose time format is found in its fields.
pub fn open_dataset(loaded: LoadedText, numbers: &[Vec<u64>]) -> (opened: Result<
    (OpenSummary, InferenceReport, Dataset),
>)
    requires
        loaded.wf(),
        loaded.forced is None,
    ensures
        is_open_of(opened, loaded.outcome@, table_of_text(loaded, dataset::number_views(numbers@))),
        opened matches Ok((_, _, dataset)) ==> !dataset::is_in_files(dataset),
{
    match loaded.build(numbers) {
        Ok((dataset, ambiguous)) => {
            proof {
                let fields = csv::column_texts(loaded.columns@)[0];
                match dataset.time@ {
                    Axis::Absolute { timestamps, format } => {
                        lemma_found_axis_is_countable(fields, timestamps);
                    },
                    Axis::Progressive { .. } => {},
                }
            }
            build_summary_and_report(loaded.outcome, dataset, ambiguous)
        },
        Err(error) => Err(error),
    }
}

/// Whether the differences between the ticks of an axis can be counted.
pub fn can_be_summarized(time: &TimeAxis) -> (can: bool)
    requires
        time.wf(),
    ensures
        can == has_countable_differences(time@),
{
    if let TimeAxis::Progressive { .. } = time {
        return true;
    }
    let ticks: Vec<i128> = time.to_pyramid_ticks();
    let mut i: usize = 1;
    while i < ticks.len()
        invariant
            time@ matches Axis::Absolute { timestamps, .. } && ticks@ == axis::ticks_of(timestamps),
            1 <= i,
            forall|j: int|
                0 <= j < i - 1 && j < ticks@.len() - 1 ==> i128::MIN <= #[trigger] ticks@[j + 1]
                    - ticks@[j] <= i128::MAX,
        decreases ticks@.len() - i,
    {
        if ticks[i].checked_sub(ticks[i - 1]).is_none() {
            assert(!(i128::MIN <= ticks@[(i - 1) + 1] - ticks@[i - 1] <= i128::MAX));
            return false;
        }
        i = i + 1;
    }
    true
}

/// Opens a file with corrections. Under a forced format of plain numbers the
/// ticks can lie so far apart that their differences cannot be counted, and
/// then there is a table but nothing to report of it.
pub fn open_dataset_with_overrides(loaded: LoadedText, numbers: &[Vec<u64>]) -> (opened: Result<
    (Option<(OpenSummary, InferenceReport)>, Dataset),
>)
    requires
        loaded.wf(),
    ensures
        match (opened, table_of_text(loaded, dataset::number_views(numbers@))) {
            (Ok((Some((summary, report)), dataset)), Ok((table, ambiguous))) => {
                &&& has_countable_differences(table.time)
                &&& is_open_of(
                    Ok((summary, report, dataset)),
                    loaded.outcome@,
                    Ok((table, ambiguous)),
                )
            },
            (Ok((None, dataset)), Ok((table, ambiguous))) => {
                &&& !has_countable_differences(table.time)
                &&& dataset.wf()
                &&& dataset@ == table
            },
            (Err(error), Err(fault)) => dataset::reports_load_fault(error, fault),
            _ => false,
        },
        opened matches Ok((_, dataset)) ==> !dataset::is_in_files(dataset),
{
    match loaded.build(numbers) {
        Ok((dataset, ambiguous)) => {
            if !can_be_summarized(&dataset.time) {
                return Ok((None, dataset));
            }
            match build_summary_and_report(loaded.outcome, dataset, ambiguous) {
                Ok((summary, report, dataset)) => Ok((Some((summary, report)), dataset)),
                Err(error) => Err(error),
            }
        },
        Err(error) => Err(error),
    }
}

/// Opening a file and inspecting it agree: where there is a table, the
/// inspection gives its summary.
pub proof fn law_opening_agrees_with_inspecting(bytes: Seq<u8>, numbers: Seq<Seq<u64>>)
    ensures
        ({
            let none = IngestOverrides::none_spec();
            let all = csv::finished_scan_of(bytes, Capture::All, none);
            let first = csv::finished_scan_of(bytes, Capture::Column(0), none);
            dataset::table_from(
                all.outcome().column_names,
                all.columns(),
                all.outcome().decimal_separator,
                numbers,
                None,
            ) matches Ok((table, _)) ==> inspected(first.outcome(), first.columns()[0]) == Ok::<
                Summary,
                LoadFault,
            >(summary_of(all.outcome(), facts_of(table.time_column_name, table.time)))
        }),
{
    let none = IngestOverrides::none_spec();
    let all = csv::finished_scan_of(bytes, Capture::All, none);
    let first = csv::finished_scan_of(bytes, Capture::Column(0), none);
    assert(all.kept() == first.kept());
    assert(all.skipped() == first.skipped());
    if all.width() >= 2 {
        assert(all.columns()[0] == csv::column_of(all.kept(), 0));
        assert(first.columns()[0] == csv::column_of(first.kept(), 0));
    }
}

/// Opening a file gives what inspecting it and loading it give: where both of
/// these succeed it succeeds too, with that summary and that table, bit by bit.
pub proof fn law_opening_agrees_with_inspecting_and_loading(
    bytes: Seq<u8>,
    loaded: LoadedText,
    numbers: Seq<Seq<u64>>,
    inspection: Result<OpenSummary>,
    load: Result<Dataset>,
    opened: Result<(OpenSummary, InferenceReport, Dataset)>,
)
    requires
        dataset::is_text_of(loaded, bytes, IngestOverrides::none_spec()),
        is_inspection_of(inspection, bytes),
        dataset::is_table_of(load, table_of_text(loaded, numbers)),
        is_open_of(opened, loaded.outcome@, table_of_text(loaded, numbers)),
    ensures
        match (inspection, load) {
            (Ok(summary), Ok(dataset)) => opened matches Ok((s, _, d)) && s@ == summary@ && d@
                == dataset@,
            _ => opened is Err,
        },
        load is Ok ==> inspection is Ok,
{
    law_opening_agrees_with_inspecting(bytes, numbers);
    assert(loaded.outcome.decimal_separator == loaded.outcome@.decimal_separator);
}

/// A corrected delimiter, decimal separator or time format is never reported as
/// unsure.
pub proof fn law_corrections_are_sure(
    text: Seq<char>,
    encoding: crate::ingest::encoding::EncodingInference,
    overrides: IngestOverrides,
    fields: Seq<Seq<char>>,
)
    ensures
        overrides.delimiter matches Some(delimiter) ==> {
            let sniff = csv::sniffed(text, encoding, overrides);
            sniff.delimiter == delimiter && sniff.delimiter_confidence == Confidence::High
        },
        overrides.decimal_separator matches Some(separator) ==> {
            let sniff = csv::sniffed(text, encoding, overrides);
            sniff.decimal_separator == separator && sniff.decimal_separator_confidence
                == Confidence::High
        },
        overrides.timestamp_format matches Some(format) ==> {
            let settled = dataset::settled_format(fields, overrides.timestamp_format);
            dataset::format_of(settled) == Some(format) && !dataset::is_ambiguous(settled)
        },
{
}

} // verus!
