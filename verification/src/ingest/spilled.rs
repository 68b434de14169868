//! Building a table whose values are kept as the bytes of files.
//!
//! The rows are gone through twice. The first pass settles the format of the
//! time column and the type of every other one, and keeps nothing else; the
//! second writes every row under that decision. A type is only known when the
//! last row has been seen.

use vstd::prelude::*;
use std::ops::Range;
use crate::error::{GlydeError, Result};
use crate::index::bytes::ByteOrder;
use crate::index::spill::{SpillStringsWriter, SpillVecWriter};
use crate::ingest::axis;
use crate::ingest::axis::{Axis, AxisFault, TimeAxisSpillWriter};
use crate::ingest::columns;
use crate::ingest::columns::{
    normalize_decimal_field, parse_bool_field, parse_i64_field, ColumnDtypeScan,
};
use crate::ingest::csv;
use crate::ingest::csv::{outcome_of, Capture, CsvParseOutcome, ScanState, Sniff};
use crate::ingest::dataset;
use crate::ingest::dataset::{Dataset, LoadFault, Table};
use crate::ingest::infer;
use crate::ingest::infer::DecimalSeparator;
use crate::series::dtype::{Samples, SeriesValues, SpilledValues};
use crate::series::{Anomalies, Dtype, NanRunScan, Series};
use crate::text;
use crate::time::column_unit;
use crate::time::column_unit::{lemma_found_unit, refine};
use crate::time::inference::epoch_unit;
use crate::time::{TimeUnit, TimestampFormat, TimestampFormatInference, TimestampFormatScan};

verus! {

/// Fields read as values of a type. A field that is no value of it counts as
/// the type's zero.
pub open spec fn samples_as(dtype: Dtype, fields: Seq<Seq<char>>, numbers: Seq<u64>) -> Samples {
    match dtype {
        Dtype::Bool => Samples::Bool(
            Seq::new(fields.len(), |i: int| columns::bool_of(fields[i]) == Some(true)),
        ),
        Dtype::I64 => Samples::I64(
            Seq::new(
                fields.len(),
                |i: int|
                    match columns::i64_of(fields[i]) {
                        Some(n) => n,
                        None => 0,
                    },
            ),
        ),
        Dtype::F64 => Samples::F64(
            Seq::new(fields.len(), |i: int| columns::number_at(numbers, i)),
        ),
        _ => Samples::String(fields),
    }
}

/// Under the type that all fields have, no field counts as the type's zero that
/// does not spell it.
proof fn lemma_settled_type_reads_every_field(fields: Seq<Seq<char>>, numbers: Seq<u64>)
    ensures
        samples_as(columns::column_dtype(fields), fields, numbers) == columns::column_samples(
            fields,
            numbers,
        ),
{
    match columns::column_dtype(fields) {
        Dtype::Bool => {
            assert(forall|i: int|
                0 <= i < fields.len() ==> columns::bool_of(#[trigger] fields[i]) is Some);
            assert(samples_as(Dtype::Bool, fields, numbers) =~= columns::column_samples(
                fields,
                numbers,
            ));
        },
        Dtype::I64 => {
            assert(forall|i: int|
                0 <= i < fields.len() ==> columns::i64_of(#[trigger] fields[i]) is Some);
            assert(samples_as(Dtype::I64, fields, numbers) =~= columns::column_samples(
                fields,
                numbers,
            ));
        },
        _ => {},
    }
}

/// Writes one column to a file in its settled type, one value at a time. The
/// runs of NaN are found as the values go past.
pub enum ColumnSpillWriter {
    Bool { values: SpillVecWriter<u8> },
    I64 { values: SpillVecWriter<i64> },
    F64 { values: SpillVecWriter<u64>, nan_runs: NanRunScan },
    String { values: SpillStringsWriter },
}

impl View for ColumnSpillWriter {
    type V = Samples;

    open spec fn view(&self) -> Samples {
        match self {
            ColumnSpillWriter::Bool { values } => Samples::Bool(
                crate::series::dtype::flags(values@),
            ),
            ColumnSpillWriter::I64 { values } => Samples::I64(values@),
            ColumnSpillWriter::F64 { values, .. } => Samples::F64(values@),
            ColumnSpillWriter::String { values } => Samples::String(values@),
        }
    }
}

impl ColumnSpillWriter {
    /// The bytes are those of the values, and the runs of NaN are theirs.
    pub open spec fn wf(&self) -> bool {
        match self {
            ColumnSpillWriter::Bool { values } => values.wf(),
            ColumnSpillWriter::I64 { values } => values.wf(),
            ColumnSpillWriter::F64 { values, nan_runs } => {
                &&& values.wf()
                &&& nan_runs.wf()
                &&& nan_runs@ == values@
            },
            ColumnSpillWriter::String { values } => values.wf(),
        }
    }

    /// The order of the bytes in the files.
    pub open spec fn order_spec(&self) -> ByteOrder {
        match self {
            ColumnSpillWriter::Bool { values } => values.order_spec(),
            ColumnSpillWriter::I64 { values } => values.order_spec(),
            ColumnSpillWriter::F64 { values, .. } => values.order_spec(),
            ColumnSpillWriter::String { values } => values.order_spec(),
        }
    }

    /// A column of the given type without values. Delimited text is never read
    /// as one of the types that are not listed, and they are kept as text.
    pub fn create(dtype: Dtype, order: ByteOrder) -> (writer: ColumnSpillWriter)
        ensures
            writer.wf(),
            writer@ == samples_as(dtype, Seq::empty(), Seq::empty()),
            writer.order_spec() == order,
    {
        let writer: ColumnSpillWriter = match dtype {
            Dtype::Bool => ColumnSpillWriter::Bool { values: SpillVecWriter::create(order) },
            Dtype::I64 => ColumnSpillWriter::I64 { values: SpillVecWriter::create(order) },
            Dtype::F64 => ColumnSpillWriter::F64 {
                values: SpillVecWriter::create(order),
                nan_runs: NanRunScan::new(),
            },
            _ => ColumnSpillWriter::String { values: SpillStringsWriter::create(order) },
        };
        assert(writer@ =~= samples_as(dtype, Seq::empty(), Seq::empty()));
        writer
    }

    /// Appends the value of a field. The number that it spells is given.
    pub fn push(&mut self, field: &str, number: u64)
        requires
            old(self).wf(),
        ensures
            final(self).wf(),
            final(self).order_spec() == old(self).order_spec(),
            match old(self)@ {
                Samples::Bool(s) => final(self)@ == Samples::Bool(
                    s.push(columns::bool_of(field@) == Some(true)),
                ),
                Samples::I64(s) => final(self)@ == Samples::I64(
                    s.push(
                        match columns::i64_of(field@) {
                            Some(n) => n,
                            None => 0,
                        },
                    ),
                ),
                Samples::F64(s) => final(self)@ == Samples::F64(s.push(number)),
                Samples::String(s) => final(self)@ == Samples::String(s.push(field@)),
                _ => true,
            },
    {
        match self {
            ColumnSpillWriter::Bool { values } => {
                let ghost before: Seq<bool> = crate::series::dtype::flags(values@);
                let value: bool = match parse_bool_field(field) {
                    Some(value) => value,
                    None => false,
                };
                values.push(
                    if value {
                        1
                    } else {
                        0
                    },
                );
                assert(crate::series::dtype::flags(values@) == before.push(value));
            },
            ColumnSpillWriter::I64 { values } => {
                values.push(
                    match parse_i64_field(field) {
                        Some(n) => n,
                        None => 0,
                    },
                );
            },
            ColumnSpillWriter::F64 { values, nan_runs } => {
                let _ = values.len();
                nan_runs.observe(number);
                values.push(number);
            },
            ColumnSpillWriter::String { values } => {
                values.push(field);
            },
        }
    }

    /// The finished column.
    pub fn finish(self, name: String) -> (series: Series)
        requires
            self.wf(),
        ensures
            series.wf(),
            is_column_in_files(series, self.order_spec()),
            columns::column_view(series) == columns::plain_column(name@, self@),
    {
        let ghost samples: Samples = self@;
        let series: Series = match self {
            ColumnSpillWriter::Bool { values } => Series::new(
                name,
                SeriesValues::Spilled(SpilledValues::Bool(values.finish())),
            ),
            ColumnSpillWriter::I64 { values } => Series::new(
                name,
                SeriesValues::Spilled(SpilledValues::I64(values.finish())),
            ),
            ColumnSpillWriter::F64 { values, nan_runs } => {
                let runs: Vec<Range<usize>> = nan_runs.finish();
                Series::with_anomalies(
                    name,
                    SeriesValues::Spilled(SpilledValues::F64(values.finish())),
                    Anomalies { nan_runs: runs, outliers: Vec::new(), skipped_rows: Vec::new() },
                )
            },
            ColumnSpillWriter::String { values } => Series::new(
                name,
                SeriesValues::Spilled(SpilledValues::String(values.finish())),
            ),
        };
        assert(columns::column_view(series) =~= columns::plain_column(name@, samples));
        series
    }
}

/// The values of a column are kept as the bytes of files, in the given order.
pub open spec fn is_column_in_files(series: Series, order: ByteOrder) -> bool {
    series.values_spec() matches SeriesValues::Spilled(values) && values.order_spec() == order
}

/// Each scan has seen the normal form of one data column of the given rows.
spec fn scans_match(
    scans: Seq<ColumnDtypeScan>,
    rows: Seq<Seq<Seq<char>>>,
    separator: DecimalSeparator,
) -> bool {
    forall|c: int|
        0 <= c < scans.len() ==> (#[trigger] scans[c]).wf() && scans[c]@
            == dataset::normalized_fields(csv::column_of(rows, c + 1), separator)
}

/// Shows the fields of a row to the scans of their columns.
fn observe_row(
    scans: &mut Vec<ColumnDtypeScan>,
    row: &Vec<String>,
    separator: DecimalSeparator,
    Ghost(before): Ghost<Seq<Seq<Seq<char>>>>,
)
    requires
        scans_match(old(scans)@, before, separator),
        row@.len() == old(scans)@.len() + 1,
    ensures
        final(scans)@.len() == old(scans)@.len(),
        scans_match(final(scans)@, before.push(text::texts(row@)), separator),
{
    let ghost after: Seq<Seq<Seq<char>>> = before.push(text::texts(row@));
    let mut c: usize = 0;
    while c < scans.len()
        invariant
            after == before.push(text::texts(row@)),
            scans@.len() == old(scans)@.len(),
            row@.len() == scans@.len() + 1,
            c <= scans@.len(),
            forall|k: int|
                0 <= k < c ==> (#[trigger] scans@[k]).wf() && scans@[k]@
                    == dataset::normalized_fields(csv::column_of(after, k + 1), separator),
            forall|k: int|
                c <= k < scans@.len() ==> (#[trigger] scans@[k]).wf() && scans@[k]@
                    == dataset::normalized_fields(csv::column_of(before, k + 1), separator),
        decreases scans@.len() - c,
    {
        let field: String = normalize_decimal_field(row[c + 1].as_str(), separator);
        scans[c].observe(field.as_str());
        assert(dataset::normalized_fields(csv::column_of(after, c + 1), separator)
            == dataset::normalized_fields(csv::column_of(before, c + 1), separator).push(field@));
        c = c + 1;
    }
}

/// Each writer holds one data column of the given rows.
spec fn writers_match(
    writers: Seq<ColumnSpillWriter>,
    dtypes: Seq<Dtype>,
    rows: Seq<Seq<Seq<char>>>,
    separator: DecimalSeparator,
    numbers: Seq<Seq<u64>>,
    order: ByteOrder,
) -> bool {
    &&& dtypes.len() == writers.len()
    &&& forall|c: int|
        0 <= c < writers.len() ==> (#[trigger] writers[c]).wf() && writers[c].order_spec() == order
            && writers[c]@ == samples_as(
            dtypes[c],
            dataset::normalized_fields(csv::column_of(rows, c + 1), separator),
            dataset::column_numbers(numbers, c + 1),
        )
}

/// The number of a field, zero where there is none.
fn number_of(numbers: &[Vec<u64>], column: usize, row: usize) -> (number: u64)
    ensures
        number == columns::number_at(
            dataset::column_numbers(dataset::number_views(numbers@), column as int),
            row as int,
        ),
{
    if column < numbers.len() && row < numbers[column].len() {
        assert(dataset::number_views(numbers@)[column as int] == numbers@[column as int]@);
        numbers[column][row]
    } else {
        0
    }
}

/// Appends the fields of a row to their columns.
fn write_row(
    writers: &mut Vec<ColumnSpillWriter>,
    row: &Vec<String>,
    separator: DecimalSeparator,
    numbers: &[Vec<u64>],
    at: usize,
    Ghost(dtypes): Ghost<Seq<Dtype>>,
    Ghost(before): Ghost<Seq<Seq<Seq<char>>>>,
    Ghost(order): Ghost<ByteOrder>,
)
    requires
        writers_match(
            old(writers)@,
            dtypes,
            before,
            separator,
            dataset::number_views(numbers@),
            order,
        ),
        row@.len() == old(writers)@.len() + 1,
        at == before.len(),
    ensures
        final(writers)@.len() == old(writers)@.len(),
        writers_match(
            final(writers)@,
            dtypes,
            before.push(text::texts(row@)),
            separator,
            dataset::number_views(numbers@),
            order,
        ),
{
    let ghost after: Seq<Seq<Seq<char>>> = before.push(text::texts(row@));
    let ghost values: Seq<Seq<u64>> = dataset::number_views(numbers@);
    let mut c: usize = 0;
    while c < writers.len()
        invariant
            after == before.push(text::texts(row@)),
            values == dataset::number_views(numbers@),
            at == before.len(),
            dtypes.len() == writers@.len(),
            writers@.len() == old(writers)@.len(),
            row@.len() == writers@.len() + 1,
            c <= writers@.len(),
            forall|k: int|
                0 <= k < c ==> (#[trigger] writers@[k]).wf() && writers@[k].order_spec() == order
                    && writers@[k]@ == samples_as(
                    dtypes[k],
                    dataset::normalized_fields(csv::column_of(after, k + 1), separator),
                    dataset::column_numbers(values, k + 1),
                ),
            forall|k: int|
                c <= k < writers@.len() ==> (#[trigger] writers@[k]).wf()
                    && writers@[k].order_spec() == order && writers@[k]@ == samples_as(
                    dtypes[k],
                    dataset::normalized_fields(csv::column_of(before, k + 1), separator),
                    dataset::column_numbers(values, k + 1),
                ),
        decreases writers@.len() - c,
    {
        let field: String = normalize_decimal_field(row[c + 1].as_str(), separator);
        let number: u64 = number_of(numbers, c + 1, at);
        writers[c].push(field.as_str(), number);
        proof {
            let fields = dataset::normalized_fields(csv::column_of(before, c + 1), separator);
            let more = dataset::normalized_fields(csv::column_of(after, c + 1), separator);
            let column = dataset::column_numbers(values, c + 1);
            assert(more == fields.push(field@));
            assert(writers@[c as int]@ =~= samples_as(dtypes[c as int], more, column));
        }
        c = c + 1;
    }
}

/// What a pass over all rows knows in the end.
pub open spec fn end_of_rows(sniff: Sniff, rows: Seq<Option<Vec<String>>>) -> ScanState {
    ScanState {
        sniff: sniff@,
        capture: Capture::All,
        rows: infer::record_texts(rows),
        at: rows.len() as int,
    }
}

/// The table of the kept rows, the same wherever its values are kept.
pub open spec fn table_of_rows(
    sniff: Sniff,
    rows: Seq<Option<Vec<String>>>,
    numbers: Seq<Seq<u64>>,
    forced: Option<TimestampFormat>,
) -> core::result::Result<(Table, bool), LoadFault> {
    let end = end_of_rows(sniff, rows);
    dataset::table_from(
        end.sniff.header.names,
        end.columns(),
        end.sniff.decimal_separator,
        numbers,
        forced,
    )
}

/// What the first pass settles.
pub struct SpillPlan {
    pub format: Option<TimestampFormatInference>,
    /// The unit that all timestamps are counted in; `None` where each keeps its
    /// own.
    pub unit: Option<TimeUnit>,
    pub dtypes: Vec<Dtype>,
    pub row_count: u64,
    pub skipped_row_count: u64,
}

/// The first pass: settles the format and the unit of the time column and the
/// type of every other one over all kept rows.
pub fn plan_spill(sniff: &Sniff, rows: &[Option<Vec<String>>], forced: Option<TimestampFormat>) -> (plan:
    SpillPlan)
    requires
        sniff.wf(),
        sniff@.header.names.len() >= 2,
        forced != Some(TimestampFormat::DateTimeSpace),
    ensures
        ({
            let end = end_of_rows(*sniff, rows@);
            &&& plan.format == dataset::settled_format(end.columns()[0], forced)
            &&& dataset::format_of(plan.format) != Some(TimestampFormat::DateTimeSpace)
            &&& plan.unit == (match plan.format {
                Some(found) => column_unit::column_unit(end.columns()[0], found.format),
                None => None,
            })
            &&& plan.dtypes@.len() == end.width() - 1
            &&& forall|c: int|
                0 <= c < plan.dtypes@.len() ==> #[trigger] plan.dtypes@[c] == columns::column_dtype(
                    dataset::normalized_fields(
                        end.columns()[c + 1],
                        sniff@.decimal_separator,
                    ),
                )
            &&& plan.row_count == end.kept().len()
            &&& plan.skipped_row_count == end.skipped()
        }),
{
    let ghost end: ScanState = end_of_rows(*sniff, rows@);
    let ghost views: Seq<Option<Seq<Seq<char>>>> = infer::record_texts(rows@);
    let first: usize = sniff.data_start_row();
    let width: usize = sniff.header.column_names.len();
    let separator: DecimalSeparator = sniff.decimal_separator;
    let mut time: TimestampFormatScan = TimestampFormatScan::new();
    let forced_unit: Option<TimeUnit> = match forced {
        Some(format) => epoch_unit(format),
        None => None,
    };
    let mut finest: TimeUnit = match forced_unit {
        Some(unit) => unit,
        None => TimeUnit::Seconds,
    };
    let mut scans: Vec<ColumnDtypeScan> = Vec::new();
    while scans.len() < width - 1
        invariant
            2 <= width,
            scans@.len() <= width - 1,
            scans_match(scans@, Seq::empty(), separator),
        decreases width - scans@.len(),
    {
        let scan: ColumnDtypeScan = ColumnDtypeScan::new();
        assert(scan@ == dataset::normalized_fields(
            csv::column_of(Seq::empty(), scans@.len() as int + 1),
            separator,
        ));
        scans.push(scan);
    }
    let mut row_count: u64 = 0;
    let mut skipped_row_count: u64 = 0;
    let mut i: usize = 0;
    assert(csv::column_of(Seq::empty(), 0) == Seq::<Seq<char>>::empty());
    while i < rows.len()
        invariant
            end == end_of_rows(*sniff, rows@),
            views == infer::record_texts(rows@),
            first == csv::first_data_row(sniff@.header),
            width == end.width(),
            width >= 2,
            separator == sniff@.decimal_separator,
            i <= rows@.len(),
            scans@.len() == width - 1,
            time.wf(),
            time@ == csv::column_of(csv::kept_rows(views, first as int, width as int, i as int), 0),
            forced_unit matches Some(unit) ==> finest == column_unit::finest_unit(
                time@,
                unit,
                time@.len() as int,
            ),
            scans_match(
                scans@,
                csv::kept_rows(views, first as int, width as int, i as int),
                separator,
            ),
            row_count == csv::kept_rows(views, first as int, width as int, i as int).len(),
            row_count <= i,
            skipped_row_count == csv::skipped_rows(views, first as int, width as int, i as int),
            skipped_row_count <= i,
        decreases rows@.len() - i,
    {
        let ghost before: Seq<Seq<Seq<char>>> = csv::kept_rows(
            views,
            first as int,
            width as int,
            i as int,
        );
        assert(views[i as int] == infer::record_texts(rows@)[i as int]);
        if i >= first {
            let kept: bool = match &rows[i] {
                Some(row) => row.len() == width,
                None => false,
            };
            if kept {
                if let Some(row) = &rows[i] {
                    let ghost after: Seq<Seq<Seq<char>>> = before.push(text::texts(row@));
                    let ghost seen: Seq<Seq<char>> = time@;
                    if let Some(unit) = forced_unit {
                        finest = refine(finest, row[0].as_str(), unit);
                        proof {
                            lemma_finest_of_prefix(
                                seen,
                                row@[0]@,
                                unit,
                                seen.len() as int,
                            );
                        }
                    }
                    time.observe(row[0].as_str());
                    assert(csv::column_of(after, 0) == csv::column_of(before, 0).push(row@[0]@));
                    observe_row(&mut scans, row, separator, Ghost(before));
                    row_count = row_count + 1;
                }
            } else {
                skipped_row_count = skipped_row_count + 1;
            }
        }
        i = i + 1;
    }
    assert(end.kept() == csv::kept_rows(views, first as int, width as int, rows@.len() as int));
    assert(end.columns()[0] == csv::column_of(end.kept(), 0));
    let format: Option<TimestampFormatInference> = match forced {
        Some(format) => Some(TimestampFormatInference { format, ambiguous: false }),
        None => time.finish(),
    };
    let unit: Option<TimeUnit> = match (forced, format) {
        (Some(_), _) => match forced_unit {
            Some(_) => Some(finest),
            None => None,
        },
        (None, Some(found)) => {
            proof {
                lemma_found_unit(end.columns()[0], found.format);
            }
            epoch_unit(found.format)
        },
        (None, None) => None,
    };
    let mut dtypes: Vec<Dtype> = Vec::new();
    let mut c: usize = 0;
    while c < scans.len()
        invariant
            end == end_of_rows(*sniff, rows@),
            separator == sniff@.decimal_separator,
            width == end.width(),
            width >= 2,
            scans@.len() == width - 1,
            scans_match(scans@, end.kept(), separator),
            c <= scans@.len(),
            dtypes@.len() == c,
            forall|k: int|
                0 <= k < c ==> #[trigger] dtypes@[k] == columns::column_dtype(
                    dataset::normalized_fields(end.columns()[k + 1], separator),
                ),
        decreases scans@.len() - c,
    {
        assert(end.columns()[c + 1] == csv::column_of(end.kept(), c + 1));
        dtypes.push(scans[c].finish());
        c = c + 1;
    }
    SpillPlan { format, unit, dtypes, row_count, skipped_row_count }
}

/// The finest unit of the first fields does not depend on one behind them.
proof fn lemma_finest_of_prefix(
    fields: Seq<Seq<char>>,
    field: Seq<char>,
    unit: TimeUnit,
    n: int,
)
    requires
        n <= fields.len(),
    ensures
        column_unit::finest_unit(fields.push(field), unit, n) == column_unit::finest_unit(
            fields,
            unit,
            n,
        ),
    decreases n,
{
    if n > 0 {
        lemma_finest_of_prefix(fields, field, unit, n - 1);
    }
}

/// Takes one more row into the axis.
proof fn lemma_axis_step(
    fields: Seq<Seq<char>>,
    format: Option<TimestampFormat>,
    numbers: Seq<u64>,
    n: int,
)
    requires
        0 <= n < fields.len(),
        axis::axis_from(fields, format, numbers, n) is Ok,
    ensures
        match axis::axis_from(fields, format, numbers, n)->Ok_0 {
            Axis::Absolute { timestamps, format: known } => {
                &&& format == Some(known)
                &&& axis::axis_from(fields, format, numbers, n + 1) == match column_unit::row_reading(
                    fields[n],
                    known,
                    column_unit::column_unit(fields, known),
                ) {
                    Ok(timestamp) => Ok::<Axis, AxisFault>(
                        Axis::Absolute { timestamps: timestamps.push(timestamp), format: known },
                    ),
                    Err(reason) => Err::<Axis, AxisFault>(
                        AxisFault::Timestamp { input: fields[n], format: known, reason },
                    ),
                }
            },
            Axis::Progressive { values } => {
                &&& format is None
                &&& axis::axis_from(fields, format, numbers, n + 1) == if columns::is_f64(
                    fields[n],
                ) {
                    Ok::<Axis, AxisFault>(
                        Axis::Progressive {
                            values: values.push(columns::number_at(numbers, n)),
                        },
                    )
                } else {
                    Err::<Axis, AxisFault>(AxisFault::NotANumber { input: fields[n] })
                }
            },
        },
{
}

/// `result` is a report and a table in files, their bytes in the given order, or
/// tells why there is none.
pub open spec fn is_spilled_load_of(
    result: Result<(CsvParseOutcome, Dataset, bool)>,
    end: ScanState,
    wanted: core::result::Result<(Table, bool), LoadFault>,
    order: ByteOrder,
) -> bool {
    match result {
        Ok((outcome, dataset, ambiguous)) => {
            &&& outcome@ == end.outcome()
            &&& dataset::is_load_of(Ok((dataset, ambiguous)), wanted)
            &&& is_kept_in_files(dataset, order)
        },
        Err(error) => dataset::is_load_of(Err(error), wanted),
    }
}

/// The axis and every column are kept as the bytes of files, in the given order.
/// Whoever keeps the table holds those bytes, here or on disk.
pub open spec fn is_kept_in_files(dataset: Dataset, order: ByteOrder) -> bool {
    &&& dataset.time.is_kept_in_files(order)
    &&& forall|c: int|
        0 <= c < dataset.columns@.len() ==> is_column_in_files(
            #[trigger] dataset.columns@[c],
            order,
        )
}

/// Builds a table in files.
pub fn load_spilled(
    sniff: &Sniff,
    rows: &[Option<Vec<String>>],
    numbers: &[Vec<u64>],
    forced: Option<TimestampFormat>,
    order: ByteOrder,
) -> (loaded: Result<(CsvParseOutcome, Dataset, bool)>)
    requires
        sniff.wf(),
        forced != Some(TimestampFormat::DateTimeSpace),
    ensures
        is_spilled_load_of(
            loaded,
            end_of_rows(*sniff, rows@),
            table_of_rows(*sniff, rows@, dataset::number_views(numbers@), forced),
            order,
        ),
{
    let ghost end: ScanState = end_of_rows(*sniff, rows@);
    let ghost views: Seq<Option<Seq<Seq<char>>>> = infer::record_texts(rows@);
    let ghost values: Seq<Seq<u64>> = dataset::number_views(numbers@);
    let width: usize = sniff.header.column_names.len();
    if width < 2 {
        return Err(GlydeError::SingleColumnFile);
    }
    let plan: SpillPlan = plan_spill(sniff, rows, forced);
    let first: usize = sniff.data_start_row();
    let separator: DecimalSeparator = sniff.decimal_separator;
    let (format, ambiguous) = match plan.format {
        Some(inference) => (Some(inference.format), inference.ambiguous),
        None => (None, false),
    };
    let unit: Option<TimeUnit> = plan.unit;
    let mut time: TimeAxisSpillWriter = TimeAxisSpillWriter::create(format, unit, order);
    let mut writers: Vec<ColumnSpillWriter> = create_writers(
        &plan.dtypes,
        order,
        Ghost(separator),
        Ghost(values),
    );
    let ghost dtypes: Seq<Dtype> = plan.dtypes@;
    let ghost fields: Seq<Seq<char>> = end.columns()[0];
    let ghost time_numbers: Seq<u64> = dataset::column_numbers(values, 0);
    let ghost total: int = end.kept().len() as int;
    let mut at: usize = 0;
    let mut i: usize = 0;
    while i < rows.len()
        invariant
            end == end_of_rows(*sniff, rows@),
            views == infer::record_texts(rows@),
            values == dataset::number_views(numbers@),
            time_numbers == dataset::column_numbers(values, 0),
            fields == end.columns()[0],
            total == end.kept().len(),
            first == csv::first_data_row(sniff@.header),
            width == end.width(),
            width >= 2,
            separator == sniff@.decimal_separator,
            dataset::format_of(dataset::settled_format(fields, forced)) == format,
            i <= rows@.len(),
            at <= i,
            at == csv::kept_rows(views, first as int, width as int, i as int).len(),
            writers@.len() == width - 1,
            time.wf(),
            time.order_spec() == order,
            format matches Some(known) ==> time.unit_spec() == column_unit::column_unit(
                fields,
                known,
            ),
            axis::axis_from(fields, format, time_numbers, at as int) == Ok::<Axis, AxisFault>(time@),
            writers_match(
                writers@,
                dtypes,
                csv::kept_rows(views, first as int, width as int, i as int),
                separator,
                values,
                order,
            ),
        decreases rows@.len() - i,
    {
        let ghost before: Seq<Seq<Seq<char>>> = csv::kept_rows(
            views,
            first as int,
            width as int,
            i as int,
        );
        assert(views[i as int] == infer::record_texts(rows@)[i as int]);
        if i >= first {
            if let Some(row) = &rows[i] {
                if row.len() == width {
                    let ghost after: Seq<Seq<Seq<char>>> = before.push(text::texts(row@));
                    proof {
                        assert(after == csv::kept_rows(views, first as int, width as int, i + 1));
                        csv::law_checkpoint_is_a_prefix(
                            views,
                            first as int,
                            width as int,
                            i + 1,
                            rows@.len() as int,
                        );
                        assert(after.len() == at + 1);
                        assert(end.kept()[at as int] == after[at as int]);
                        assert(fields[at as int] == row@[0]@);
                        lemma_axis_step(fields, format, time_numbers, at as int);
                    }
                    let number: u64 = number_of(numbers, 0, at);
                    match time.push(row[0].as_str(), number) {
                        Ok(_) => {},
                        Err(error) => {
                            proof {
                                axis::lemma_axis_fault_stays(
                                    fields,
                                    format,
                                    time_numbers,
                                    at + 1,
                                    total,
                                );
                            }
                            return Err(error);
                        },
                    }
                    write_row(
                        &mut writers,
                        row,
                        separator,
                        numbers,
                        at,
                        Ghost(dtypes),
                        Ghost(before),
                        Ghost(order),
                    );
                    at = at + 1;
                }
            }
        }
        i = i + 1;
    }
    let outcome: CsvParseOutcome = outcome_of(sniff, plan.row_count, plan.skipped_row_count);
    let columns: Vec<Series> = finish_writers(
        writers,
        sniff.column_names(),
        Ghost(dtypes),
        Ghost(end.kept()),
        Ghost(separator),
        Ghost(values),
        Ghost(order),
    );
    proof {
        dataset::lemma_axis_len(fields, format, time_numbers, total);
    }
    let table: Dataset = Dataset {
        time: time.finish(),
        time_column_name: sniff.header.column_names[0].clone(),
        columns,
    };
    proof {
        let names = end.sniff.header.names;
        let wanted = dataset::data_columns(names, end.columns(), separator, values);
        assert forall|c: int| 0 <= c < wanted.len() implies dataset::column_views(
            table.columns@,
        )[c] == #[trigger] wanted[c] by {
            let normal = dataset::normalized_fields(end.columns()[c + 1], separator);
            assert(end.columns()[c + 1] == csv::column_of(end.kept(), c + 1));
            lemma_settled_type_reads_every_field(normal, dataset::column_numbers(values, c + 1));
            assert(columns::column_view(table.columns@[c]).name == names[c + 1]);
        }
        assert(dataset::column_views(table.columns@) == wanted);
        assert forall|c: int| 0 <= c < table.columns@.len() implies (
        #[trigger] table.columns@[c]).values_spec()@.len() == total by {
            assert(columns::column_view(table.columns@[c]).samples.len() == total);
        }
        assert(sniff.header.column_names@[0]@ == names[0]);
    }
    Ok((outcome, table, ambiguous))
}

fn create_writers(
    dtypes: &Vec<Dtype>,
    order: ByteOrder,
    Ghost(separator): Ghost<DecimalSeparator>,
    Ghost(numbers): Ghost<Seq<Seq<u64>>>,
) -> (writers: Vec<ColumnSpillWriter>)
    ensures
        writers@.len() == dtypes@.len(),
        writers_match(writers@, dtypes@, Seq::empty(), separator, numbers, order),
{
    let mut writers: Vec<ColumnSpillWriter> = Vec::new();
    while writers.len() < dtypes.len()
        invariant
            writers@.len() <= dtypes@.len(),
            writers_match(
                writers@,
                dtypes@.take(writers@.len() as int),
                Seq::empty(),
                separator,
                numbers,
                order,
            ),
        decreases dtypes@.len() - writers@.len(),
    {
        let ghost c: int = writers@.len() as int;
        let writer: ColumnSpillWriter = ColumnSpillWriter::create(dtypes[writers.len()], order);
        proof {
            let none = dataset::normalized_fields(csv::column_of(Seq::empty(), c + 1), separator);
            assert(none == Seq::<Seq<char>>::empty());
            assert(writer@ =~= samples_as(
                dtypes@[c],
                none,
                dataset::column_numbers(numbers, c + 1),
            ));
        }
        writers.push(writer);
    }
    assert(dtypes@.take(dtypes@.len() as int) == dtypes@);
    writers
}

fn finish_writers(
    writers: Vec<ColumnSpillWriter>,
    names: &Vec<String>,
    Ghost(dtypes): Ghost<Seq<Dtype>>,
    Ghost(rows): Ghost<Seq<Seq<Seq<char>>>>,
    Ghost(separator): Ghost<DecimalSeparator>,
    Ghost(numbers): Ghost<Seq<Seq<u64>>>,
    Ghost(order): Ghost<ByteOrder>,
) -> (columns: Vec<Series>)
    requires
        writers_match(writers@, dtypes, rows, separator, numbers, order),
        names@.len() == writers@.len() + 1,
    ensures
        columns@.len() == writers@.len(),
        forall|c: int|
            0 <= c < columns@.len() ==> {
                let samples = samples_as(
                    dtypes[c],
                    dataset::normalized_fields(csv::column_of(rows, c + 1), separator),
                    dataset::column_numbers(numbers, c + 1),
                );
                &&& (#[trigger] columns@[c]).wf()
                &&& is_column_in_files(columns@[c], order)
                &&& columns::column_view(columns@[c]) == columns::plain_column(names@[c + 1]@, samples)
            },
{
    let ghost all: Seq<ColumnSpillWriter> = writers@;
    let ghost n: int = writers@.len() as int;
    let mut left: Vec<ColumnSpillWriter> = writers;
    let mut reversed: Vec<Series> = Vec::new();
    let mut columns: Vec<Series> = Vec::new();
    while left.len() > 0
        invariant
            n == all.len(),
            names@.len() == n + 1,
            writers_match(all, dtypes, rows, separator, numbers, order),
            left@ == all.take(left@.len() as int),
            left@.len() <= n,
            reversed@.len() == n - left@.len(),
            forall|k: int|
                0 <= k < reversed@.len() ==> {
                    let c = n - 1 - k;
                    &&& (#[trigger] reversed@[k]).wf()
                    &&& is_column_in_files(reversed@[k], order)
                    &&& columns::column_view(reversed@[k]) == columns::plain_column(names@[c + 1]@, all[c]@)
                },
        decreases left@.len(),
    {
        let at: usize = left.len();
        match left.pop() {
            Some(writer) => {
                assert(writer == all[at - 1]);
                assert(left@ == all.take(at - 1));
                reversed.push(writer.finish(names[at].clone()));
            },
            None => {},
        }
    }
    while reversed.len() > 0
        invariant
            n == all.len(),
            names@.len() == n + 1,
            columns@.len() + reversed@.len() == n,
            forall|k: int|
                0 <= k < reversed@.len() ==> {
                    let c = n - 1 - k;
                    &&& (#[trigger] reversed@[k]).wf()
                    &&& is_column_in_files(reversed@[k], order)
                    &&& columns::column_view(reversed@[k]) == columns::plain_column(names@[c + 1]@, all[c]@)
                },
            forall|c: int|
                0 <= c < columns@.len() ==> {
                    &&& (#[trigger] columns@[c]).wf()
                    &&& is_column_in_files(columns@[c], order)
                    &&& columns::column_view(columns@[c]) == columns::plain_column(names@[c + 1]@, all[c]@)
                },
        decreases reversed@.len(),
    {
        match reversed.pop() {
            Some(series) => {
                columns.push(series);
            },
            None => {},
        }
    }
    columns
}

/// Where the values are kept does not change the table: two ways of building
/// the same one agree on every value, or both fail.
pub proof fn law_storage_does_not_change_the_table(
    one: Result<(Dataset, bool)>,
    other: Result<(Dataset, bool)>,
    wanted: core::result::Result<(Table, bool), LoadFault>,
)
    requires
        dataset::is_load_of(one, wanted),
        dataset::is_load_of(other, wanted),
    ensures
        match (one, other) {
            (Ok((a, p)), Ok((b, q))) => a@ == b@ && p == q,
            (Err(_), Err(_)) => true,
            _ => false,
        },
{
}

} // verus!
