//! A table: its time axis and its columns, in memory or spilled to files.
//!
//! Where the values are kept is a choice of storage and never changes them:
//! both ways of building a table are held to one statement of what it is.

use vstd::prelude::*;
use crate::dsp::decimation;
use crate::dsp::decimation::{build_pyramid, Bucket};
use crate::error::{GlydeError, Result};
use crate::ingest::axis;
use crate::ingest::axis::{read_axis, Axis, AxisFault, TimeAxis};
use crate::ingest::column_text::ColumnText;
use crate::ingest::columns;
use crate::ingest::columns::{infer_column, normalize_decimal_field, request_numbers, Column};
use crate::ingest::csv;
use crate::ingest::csv::{parse_capturing_all_columns, CsvParseOutcome, CsvScan};
use crate::ingest::infer::DecimalSeparator;
use crate::ingest::overrides::IngestOverrides;
use crate::series::dtype;
use crate::series::samples;
use crate::series::dtype::{Samples, SeriesValues};
use crate::series::{Series, ViewKind};
use crate::text;
use crate::text::{chars_of, string_of, trim};
use crate::time::inference;
use crate::time::{infer_timestamp_format, TimestampFormat, TimestampFormatInference};

verus! {

/// A table: its time axis, and its other columns in the header's order.
pub struct Dataset {
    pub time: TimeAxis,
    pub time_column_name: String,
    pub columns: Vec<Series>,
}

/// A table as a value.
#[verifier::ext_equal]
pub ghost struct Table {
    pub time: Axis,
    pub time_column_name: Seq<char>,
    pub columns: Seq<Column>,
}

/// Columns as values.
pub open spec fn column_views(columns: Seq<Series>) -> Seq<Column> {
    Seq::new(columns.len(), |i: int| columns::column_view(columns[i]))
}

impl View for Dataset {
    type V = Table;

    open spec fn view(&self) -> Table {
        Table {
            time: self.time@,
            time_column_name: self.time_column_name@,
            columns: column_views(self.columns@),
        }
    }
}

impl Dataset {
    /// The axis and the columns are kept as they should be, and every column
    /// has a value for every row.
    pub open spec fn wf(&self) -> bool {
        &&& self.time.wf()
        &&& forall|i: int|
            0 <= i < self.columns@.len() ==> (#[trigger] self.columns@[i]).wf()
                && self.columns@[i].values_spec()@.len() == self.time@.len()
    }

    /// The two tables have equal axes, one name for them, and equal columns.
    pub open spec fn equals(self, other: Dataset) -> bool {
        &&& self.time@.equals(other.time@)
        &&& self.time_column_name@ == other.time_column_name@
        &&& self.columns@.len() == other.columns@.len()
        &&& forall|c: int|
            0 <= c < self.columns@.len() ==> (#[trigger] self.columns@[c]).equals(
                other.columns@[c],
            )
    }

    /// Whether the two tables are equal, wherever their values are kept.
    pub fn same_as(&self, other: &Dataset) -> (same: bool)
        requires
            self.wf(),
            other.wf(),
        ensures
            same == self.equals(*other),
    {
        if !self.time.same_as(&other.time) || self.time_column_name != other.time_column_name
            || self.columns.len() != other.columns.len() {
            return false;
        }
        let mut c: usize = 0;
        while c < self.columns.len()
            invariant
                self.wf(),
                other.wf(),
                self.columns@.len() == other.columns@.len(),
                c <= self.columns@.len(),
                forall|k: int|
                    0 <= k < c ==> (#[trigger] self.columns@[k]).equals(other.columns@[k]),
            decreases self.columns@.len() - c,
        {
            assert(self.columns@[c as int].wf() && other.columns@[c as int].wf());
            if !self.columns[c].same_as(&other.columns[c]) {
                assert(!self.columns@[c as int].equals(other.columns@[c as int]));
                return false;
            }
            c = c + 1;
        }
        true
    }

    /// Whether the axis or a column is kept as the bytes of files.
    pub fn is_spilled(&self) -> (spilled: bool)
        ensures
            spilled == is_in_files(*self),
    {
        if self.time.is_spilled() {
            return true;
        }
        let mut i: usize = 0;
        while i < self.columns.len()
            invariant
                i <= self.columns@.len(),
                forall|j: int|
                    0 <= j < i ==> !((#[trigger] self.columns@[j]).values_spec() is Spilled),
            decreases self.columns@.len() - i,
        {
            if let SeriesValues::Spilled(_) = self.columns[i].values() {
                assert(self.columns@[i as int].values_spec() is Spilled);
                return true;
            }
            i = i + 1;
        }
        false
    }
}

/// The axis or a column is kept as the bytes of files.
pub open spec fn is_in_files(dataset: Dataset) -> bool {
    dataset.time.is_in_files() || exists|i: int|
        0 <= i < dataset.columns@.len() && (#[trigger] dataset.columns@[i]).values_spec() is Spilled
}

/// The format that a time column is read in: the one that is forced, or else
/// the one that its fields are written in.
pub open spec fn settled_format(
    fields: Seq<Seq<char>>,
    forced: Option<TimestampFormat>,
) -> Option<TimestampFormatInference> {
    match forced {
        Some(format) => Some(TimestampFormatInference { format, ambiguous: false }),
        None => inference::inferred_format(fields),
    }
}

/// The format alone.
pub open spec fn format_of(inference: Option<TimestampFormatInference>) -> Option<TimestampFormat> {
    match inference {
        Some(inference) => Some(inference.format),
        None => None,
    }
}

/// The format is the likelier of two.
pub open spec fn is_ambiguous(inference: Option<TimestampFormatInference>) -> bool {
    inference matches Some(inference) && inference.ambiguous
}

/// Why a table could not be built.
#[verifier::ext_equal]
pub ghost enum LoadFault {
    /// There is no column besides the time.
    SingleColumn,
    /// The time column could not be read.
    Axis(AxisFault),
}

/// The error reports the fault.
pub open spec fn reports_load_fault(error: GlydeError, fault: LoadFault) -> bool {
    match fault {
        LoadFault::SingleColumn => error is SingleColumnFile,
        LoadFault::Axis(fault) => axis::reports_fault(error, fault),
    }
}

/// The numbers that the fields of a column spell.
pub open spec fn column_numbers(numbers: Seq<Seq<u64>>, c: int) -> Seq<u64> {
    if 0 <= c < numbers.len() {
        numbers[c]
    } else {
        Seq::empty()
    }
}

/// Fields with their decimal commas made points.
pub open spec fn normalized_fields(
    fields: Seq<Seq<char>>,
    separator: DecimalSeparator,
) -> Seq<Seq<char>> {
    Seq::new(fields.len(), |i: int| columns::normalized(fields[i], separator))
}

/// The columns besides the time.
pub open spec fn data_columns(
    names: Seq<Seq<char>>,
    fields: Seq<Seq<Seq<char>>>,
    separator: DecimalSeparator,
    numbers: Seq<Seq<u64>>,
) -> Seq<Column> {
    Seq::new(
        (names.len() - 1) as nat,
        |c: int|
            columns::column_from(
                names[c + 1],
                normalized_fields(fields[c + 1], separator),
                column_numbers(numbers, c + 1),
            ),
    )
}

/// The table of the given columns, and whether its time format is the likelier
/// of two. The first column is the time.
pub open spec fn table_from(
    names: Seq<Seq<char>>,
    fields: Seq<Seq<Seq<char>>>,
    separator: DecimalSeparator,
    numbers: Seq<Seq<u64>>,
    forced: Option<TimestampFormat>,
) -> core::result::Result<(Table, bool), LoadFault> {
    if names.len() < 2 {
        Err(LoadFault::SingleColumn)
    } else {
        let settled = settled_format(fields[0], forced);
        match axis::axis_from(
            fields[0],
            format_of(settled),
            column_numbers(numbers, 0),
            fields[0].len() as int,
        ) {
            Ok(time) => Ok(
                (
                    Table {
                        time,
                        time_column_name: names[0],
                        columns: data_columns(names, fields, separator, numbers),
                    },
                    is_ambiguous(settled),
                ),
            ),
            Err(fault) => Err(LoadFault::Axis(fault)),
        }
    }
}

/// `result` is the given table, or reports why there is none.
pub open spec fn is_load_of(
    result: Result<(Dataset, bool)>,
    wanted: core::result::Result<(Table, bool), LoadFault>,
) -> bool {
    match (result, wanted) {
        (Ok((dataset, ambiguous)), Ok((table, is_guess))) => {
            &&& dataset.wf()
            &&& dataset@ == table
            &&& ambiguous == is_guess
        },
        (Err(error), Err(fault)) => reports_load_fault(error, fault),
        _ => false,
    }
}

/// The numbers as values.
pub open spec fn number_views(numbers: Seq<Vec<u64>>) -> Seq<Seq<u64>> {
    Seq::new(numbers.len(), |i: int| numbers[i]@)
}

/// All columns have as many fields as the first.
pub open spec fn is_rectangular(fields: Seq<Seq<Seq<char>>>) -> bool {
    forall|c: int| 0 <= c < fields.len() ==> (#[trigger] fields[c]).len() == fields[0].len()
}

fn normalize_fields(fields: &[String], separator: DecimalSeparator) -> (normal: Vec<String>)
    ensures
        text::texts(normal@) == normalized_fields(text::texts(fields@), separator),
{
    let mut normal: Vec<String> = Vec::new();
    let mut i: usize = 0;
    while i < fields.len()
        invariant
            i <= fields@.len(),
            normal@.len() == i,
            forall|j: int|
                0 <= j < i ==> (#[trigger] normal@[j])@ == columns::normalized(
                    fields@[j]@,
                    separator,
                ),
        decreases fields@.len() - i,
    {
        normal.push(normalize_decimal_field(fields[i].as_str(), separator));
        i = i + 1;
    }
    assert(text::texts(normal@) == normalized_fields(text::texts(fields@), separator));
    normal
}

fn settle_format(fields: &[String], forced: Option<TimestampFormat>) -> (settled: Option<
    TimestampFormatInference,
>)
    requires
        forced != Some(TimestampFormat::DateTimeSpace),
    ensures
        settled == settled_format(text::texts(fields@), forced),
        format_of(settled) != Some(TimestampFormat::DateTimeSpace),
{
    match forced {
        Some(format) => Some(TimestampFormatInference { format, ambiguous: false }),
        None => infer_timestamp_format(fields),
    }
}

/// The length of an axis that could be read.
pub proof fn lemma_axis_len(
    fields: Seq<Seq<char>>,
    format: Option<TimestampFormat>,
    numbers: Seq<u64>,
    n: int,
)
    requires
        0 <= n <= fields.len(),
        axis::axis_from(fields, format, numbers, n) is Ok,
    ensures
        axis::axis_from(fields, format, numbers, n)->Ok_0.len() == n,
    decreases n,
{
    if n > 0 {
        match format {
            Some(known) => {
                assert(axis::read_timestamps(fields, known, n - 1) is Ok);
            },
            None => {
                assert(axis::read_progression(fields, numbers, n - 1) is Ok);
            },
        }
        lemma_axis_len(fields, format, numbers, n - 1);
    }
}

/// A column has a value for every field.
proof fn lemma_column_len(fields: Seq<Seq<char>>, numbers: Seq<u64>)
    ensures
        columns::column_samples(fields, numbers).len() == fields.len(),
{
}

/// Builds the table of the given columns in memory. The numbers that the fields
/// of columns of binary64 numbers spell are given.
pub fn build_dataset(
    outcome: &CsvParseOutcome,
    fields: &[ColumnText],
    numbers: &[Vec<u64>],
    forced: Option<TimestampFormat>,
) -> (built: Result<(Dataset, bool)>)
    requires
        csv::columns_wf(fields@),
        fields@.len() == outcome.column_names@.len(),
        is_rectangular(csv::column_texts(fields@)),
        forced != Some(TimestampFormat::DateTimeSpace),
    ensures
        is_load_of(
            built,
            table_from(
                outcome@.column_names,
                csv::column_texts(fields@),
                outcome.decimal_separator,
                number_views(numbers@),
                forced,
            ),
        ),
        built matches Ok((dataset, _)) ==> !is_in_files(dataset),
{
    let ghost names: Seq<Seq<char>> = outcome@.column_names;
    let ghost texts: Seq<Seq<Seq<char>>> = csv::column_texts(fields@);
    let ghost values: Seq<Seq<u64>> = number_views(numbers@);
    let separator: DecimalSeparator = outcome.decimal_separator;
    if outcome.column_names.len() < 2 {
        return Err(GlydeError::SingleColumnFile);
    }
    let empty: Vec<u64> = Vec::new();
    let time_fields: Vec<String> = fields[0].to_vec();
    let settled: Option<TimestampFormatInference> = settle_format(time_fields.as_slice(), forced);
    let (format, ambiguous) = match settled {
        Some(inference) => (Some(inference.format), inference.ambiguous),
        None => (None, false),
    };
    let time_numbers: &[u64] = if 0 < numbers.len() {
        numbers[0].as_slice()
    } else {
        empty.as_slice()
    };
    assert(texts[0] == fields@[0]@);
    assert(time_numbers@ == column_numbers(values, 0));
    let time: TimeAxis = match read_axis(time_fields.as_slice(), format, time_numbers) {
        Ok(time) => time,
        Err(error) => {
            return Err(error);
        },
    };
    proof {
        lemma_axis_len(texts[0], format, time_numbers@, texts[0].len() as int);
    }
    let ghost rows: nat = texts[0].len();
    let mut data: Vec<Series> = Vec::new();
    let mut c: usize = 1;
    while c < fields.len()
        invariant
            names == outcome@.column_names,
            texts == csv::column_texts(fields@),
            values == number_views(numbers@),
            separator == outcome.decimal_separator,
            csv::columns_wf(fields@),
            is_rectangular(texts),
            fields@.len() == outcome.column_names@.len(),
            empty@ == Seq::<u64>::empty(),
            rows == texts[0].len(),
            1 <= c <= fields@.len(),
            data@.len() == c - 1,
            forall|i: int|
                0 <= i < c - 1 ==> {
                    &&& (#[trigger] data@[i]).wf()
                    &&& !(data@[i].values_spec() is Spilled)
                    &&& data@[i].values_spec()@.len() == rows
                    &&& columns::column_view(data@[i]) == data_columns(
                        names,
                        texts,
                        separator,
                        values,
                    )[i]
                },
        decreases fields@.len() - c,
    {
        let raw: Vec<String> = fields[c].to_vec();
        let normal: Vec<String> = normalize_fields(raw.as_slice(), separator);
        let column: &[u64] = if c < numbers.len() {
            numbers[c].as_slice()
        } else {
            empty.as_slice()
        };
        assert(texts[c as int] == fields@[c as int]@);
        assert(column@ == column_numbers(values, c as int));
        assert(names[c as int] == outcome.column_names@[c as int]@);
        let series: Series = infer_column(
            outcome.column_names[c].clone(),
            normal.as_slice(),
            column,
        );
        proof {
            lemma_column_len(text::texts(normal@), column@);
            assert(texts[c as int].len() == rows);
            assert(columns::column_view(series) == data_columns(
                names,
                texts,
                separator,
                values,
            )[c - 1]);
        }
        data.push(series);
        c = c + 1;
    }
    let dataset: Dataset = Dataset {
        time,
        time_column_name: outcome.column_names[0].clone(),
        columns: data,
    };
    assert(column_views(dataset.columns@) == data_columns(names, texts, separator, values));
    Ok((dataset, ambiguous))
}

/// The text of a file whose rows have been kept or skipped, and the format that
/// its time column is to be read in, if that is settled.
pub struct LoadedText {
    pub outcome: CsvParseOutcome,
    pub columns: Vec<ColumnText>,
    pub forced: Option<TimestampFormat>,
}

impl LoadedText {
    /// There is a column of text for every name, and each has a field for every
    /// row.
    pub open spec fn wf(&self) -> bool {
        &&& csv::columns_wf(self.columns@)
        &&& self.columns@.len() == self.outcome.column_names@.len()
        &&& is_rectangular(csv::column_texts(self.columns@))
        &&& self.forced != Some(TimestampFormat::DateTimeSpace)
    }

    /// The texts of each column that are to be read as binary64 numbers before
    /// the table is built.
    pub open spec fn requests(&self) -> Seq<Seq<Seq<char>>> {
        let fields = csv::column_texts(self.columns@);
        Seq::new(
            fields.len(),
            |c: int|
                if c == 0 {
                    time_requests(fields[0], self.forced)
                } else {
                    columns::number_texts(
                        normalized_fields(fields[c], self.outcome.decimal_separator),
                    )
                },
        )
    }

    /// The texts of each column that are to be read as binary64 numbers before
    /// the table is built. Each of them spells one.
    pub fn number_requests(&self) -> (requests: Vec<Vec<String>>)
        requires
            self.wf(),
        ensures
            text::rows(requests@) == self.requests(),
            forall|c: int, i: int|
                0 <= c < requests@.len() && 0 <= i < requests@[c]@.len() ==> text::is_number_text(
                    (#[trigger] requests@[c]@[i])@,
                ),
    {
        let ghost fields: Seq<Seq<Seq<char>>> = csv::column_texts(self.columns@);
        let separator: DecimalSeparator = self.outcome.decimal_separator;
        let mut requests: Vec<Vec<String>> = Vec::new();
        let mut c: usize = 0;
        while c < self.columns.len()
            invariant
                self.wf(),
                fields == csv::column_texts(self.columns@),
                separator == self.outcome.decimal_separator,
                c <= self.columns@.len(),
                requests@.len() == c,
                forall|k: int|
                    0 <= k < c ==> text::texts((#[trigger] requests@[k])@) == self.requests()[k],
                forall|k: int, i: int|
                    0 <= k < c && 0 <= i < requests@[k]@.len() ==> text::is_number_text(
                        (#[trigger] requests@[k]@[i])@,
                    ),
            decreases self.columns@.len() - c,
        {
            let raw: Vec<String> = self.columns[c].to_vec();
            assert(fields[c as int] == self.columns@[c as int]@);
            let wanted: Vec<String> = if c == 0 {
                request_time_numbers(raw.as_slice(), self.forced)
            } else {
                let normal: Vec<String> = normalize_fields(raw.as_slice(), separator);
                request_numbers(normal.as_slice())
            };
            requests.push(wanted);
            c = c + 1;
        }
        assert(text::rows(requests@) == self.requests());
        requests
    }

    /// Builds the table in memory.
    pub fn build(&self, numbers: &[Vec<u64>]) -> (built: Result<(Dataset, bool)>)
        requires
            self.wf(),
        ensures
            is_load_of(
                built,
                table_from(
                    self.outcome@.column_names,
                    csv::column_texts(self.columns@),
                    self.outcome.decimal_separator,
                    number_views(numbers@),
                    self.forced,
                ),
            ),
            built matches Ok((dataset, _)) ==> !is_in_files(dataset),
    {
        build_dataset(&self.outcome, self.columns.as_slice(), numbers, self.forced)
    }
}

/// Every field spells a number.
pub open spec fn is_progression(fields: Seq<Seq<char>>) -> bool {
    forall|i: int| 0 <= i < fields.len() ==> columns::is_f64(#[trigger] fields[i])
}

/// The texts of the time column that are to be read as binary64 numbers: all of
/// them, without the white space around them, where the column has no format
/// and is a progression of numbers.
pub open spec fn time_requests(
    fields: Seq<Seq<char>>,
    forced: Option<TimestampFormat>,
) -> Seq<Seq<char>> {
    if settled_format(fields, forced) is None && is_progression(fields) {
        Seq::new(fields.len(), |i: int| text::trimmed(fields[i]))
    } else {
        Seq::empty()
    }
}

fn request_time_numbers(fields: &[String], forced: Option<TimestampFormat>) -> (texts: Vec<String>)
    requires
        forced != Some(TimestampFormat::DateTimeSpace),
    ensures
        text::texts(texts@) == time_requests(text::texts(fields@), forced),
        forall|i: int| 0 <= i < texts@.len() ==> text::is_number_text((#[trigger] texts@[i])@),
{
    let ghost all: Seq<Seq<char>> = text::texts(fields@);
    let mut texts: Vec<String> = Vec::new();
    if settle_format(fields, forced).is_some() {
        assert(text::texts(texts@) == time_requests(all, forced));
        return texts;
    }
    let mut i: usize = 0;
    while i < fields.len()
        invariant
            all == text::texts(fields@),
            settled_format(all, forced) is None,
            i <= fields@.len(),
            texts@.len() == i,
            forall|j: int|
                0 <= j < i ==> (#[trigger] texts@[j])@ == text::trimmed(all[j])
                    && columns::is_f64(all[j]),
        decreases fields@.len() - i,
    {
        assert(all[i as int] == fields@[i as int]@);
        if !columns::is_f64_field(fields[i].as_str()) {
            let none: Vec<String> = Vec::new();
            assert(!is_progression(all));
            assert(text::texts(none@) == time_requests(all, forced));
            return none;
        }
        let chars: Vec<char> = chars_of(fields[i].as_str());
        texts.push(string_of(trim(chars.as_slice())));
        i = i + 1;
    }
    assert(is_progression(all)) by {
        assert forall|j: int| 0 <= j < all.len() implies columns::is_f64(#[trigger] all[j]) by {
            assert(texts@[j]@ == text::trimmed(all[j]));
        }
    }
    assert(text::texts(texts@) == time_requests(all, forced));
    texts
}

/// `loaded` is the text of the bytes of a file.
pub open spec fn is_text_of(loaded: LoadedText, bytes: Seq<u8>, overrides: IngestOverrides) -> bool {
    let end = csv::finished_scan_of(bytes, csv::Capture::All, overrides);
    &&& bytes.len() > 0
    &&& loaded.wf()
    &&& loaded.outcome@ == end.outcome()
    &&& csv::column_texts(loaded.columns@) == end.columns()
    &&& loaded.forced == overrides.timestamp_format
}

/// Parses the contents of the file at `path`, or reports why they could not be
/// read.
pub fn load_text(
    path: &str,
    contents: core::result::Result<Vec<u8>, String>,
    overrides: IngestOverrides,
) -> (loaded: Result<LoadedText>)
    requires
        contents matches Ok(bytes) ==> bytes@.len() <= usize::MAX / 8,
        overrides.timestamp_format != Some(TimestampFormat::DateTimeSpace),
    ensures
        match (contents, loaded) {
            (Ok(bytes), Ok(loaded)) => is_text_of(loaded, bytes@, overrides),
            (Ok(bytes), Err(error)) => bytes@.len() == 0 && error is EmptyFile,
            (Err(reason), Err(error)) => csv::is_io_error(error, path@, reason@),
            _ => false,
        },
{
    match contents {
        Ok(bytes) => match parse_capturing_all_columns(bytes.as_slice(), overrides) {
            Ok((outcome, columns)) => {
                let loaded: LoadedText = LoadedText {
                    outcome,
                    columns,
                    forced: overrides.timestamp_format,
                };
                proof {
                    let end = csv::finished_scan_of(bytes@, csv::Capture::All, overrides);
                    lemma_captured_is_rectangular(end);
                    assert(csv::column_texts(loaded.columns@).len() == loaded.columns@.len());
                    assert(outcome@.column_names.len() == outcome.column_names@.len());
                }
                Ok(loaded)
            },
            Err(error) => Err(error),
        },
        Err(reason) => Err(GlydeError::Io { path: path.to_owned(), source: reason }),
    }
}

/// What a scan of all columns captures is one column for each name, each with a
/// field for every kept row.
pub proof fn lemma_captured_is_rectangular(state: csv::ScanState)
    requires
        state.capture == csv::Capture::All,
    ensures
        state.columns().len() == state.width(),
        is_rectangular(state.columns()),
{
}

/// What a pass over a file has come to at a checkpoint, as text that a table
/// can be built from.
pub fn checkpoint_text(scan: &CsvScan, forced: Option<TimestampFormat>) -> (loaded: LoadedText)
    requires
        scan.wf(),
        scan@.capture == csv::Capture::All,
        forced != Some(TimestampFormat::DateTimeSpace),
    ensures
        loaded.wf(),
        loaded.outcome@ == scan@.outcome(),
        csv::column_texts(loaded.columns@) == scan@.columns(),
        loaded.forced == forced,
{
    let columns: &Vec<ColumnText> = scan.columns();
    let mut copies: Vec<ColumnText> = Vec::new();
    let mut c: usize = 0;
    while c < columns.len()
        invariant
            csv::columns_wf(columns@),
            c <= columns@.len(),
            copies@.len() == c,
            forall|k: int|
                0 <= k < c ==> (#[trigger] copies@[k]).wf() && copies@[k]@ == columns@[k]@,
        decreases columns@.len() - c,
    {
        copies.push(copy_column(&columns[c]));
        c = c + 1;
    }
    let outcome: CsvParseOutcome = scan.outcome();
    proof {
        assert(csv::column_texts(copies@) == csv::column_texts(columns@));
        lemma_captured_is_rectangular(scan@);
        assert(csv::column_texts(copies@).len() == copies@.len());
        assert(outcome@.column_names.len() == outcome.column_names@.len());
    }
    LoadedText { outcome, columns: copies, forced }
}

fn copy_column(column: &ColumnText) -> (copy: ColumnText)
    requires
        column.wf(),
    ensures
        copy.wf(),
        copy@ == column@,
{
    let mut copy: ColumnText = ColumnText::new();
    let len: usize = column.len();
    let mut i: usize = 0;
    assert(column@.take(0) == Seq::<Seq<char>>::empty());
    while i < len
        invariant
            column.wf(),
            copy.wf(),
            len == column@.len(),
            i <= len,
            copy@ == column@.take(i as int),
        decreases len - i,
    {
        match column.get(i) {
            Some(field) => {
                assert(column@.take(i + 1) == column@.take(i as int).push(field@));
                copy.push(field);
            },
            None => {},
        }
        i = i + 1;
    }
    assert(column@.take(len as int) == column@);
    copy
}

/// `loaded` is the table, or tells why there is none.
pub open spec fn is_table_of(
    loaded: Result<Dataset>,
    wanted: core::result::Result<(Table, bool), LoadFault>,
) -> bool {
    match (loaded, wanted) {
        (Ok(dataset), Ok((table, _))) => dataset.wf() && dataset@ == table,
        (Err(error), Err(fault)) => reports_load_fault(error, fault),
        _ => false,
    }
}

/// Builds the table of a file's text in memory.
pub fn load(loaded: &LoadedText, numbers: &[Vec<u64>]) -> (dataset: Result<Dataset>)
    requires
        loaded.wf(),
    ensures
        is_table_of(
            dataset,
            table_from(
                loaded.outcome@.column_names,
                csv::column_texts(loaded.columns@),
                loaded.outcome.decimal_separator,
                number_views(numbers@),
                loaded.forced,
            ),
        ),
        dataset matches Ok(dataset) ==> !is_in_files(dataset),
{
    match loaded.build(numbers) {
        Ok((dataset, _)) => Ok(dataset),
        Err(error) => Err(error),
    }
}

/// What a table was at a checkpoint: the rows read so far, and the pyramid of
/// each column of numbers.
pub struct Checkpoint {
    pub dataset: Dataset,
    pub pyramids: Vec<Option<Vec<Vec<Bucket>>>>,
    pub rows_read: u64,
}

/// `pyramids` holds the pyramid of each column of numbers, and nothing for a
/// column of states.
pub open spec fn are_pyramids_of(
    pyramids: Seq<Option<Vec<Vec<Bucket>>>>,
    table: Table,
) -> bool {
    &&& pyramids.len() == table.columns.len()
    &&& forall|c: int|
        0 <= c < pyramids.len() ==> is_pyramid_of_column(
            #[trigger] pyramids[c],
            table.columns[c].samples,
            table.time.pyramid_ticks(),
        )
}

/// The pyramid is that of the values promoted to binary64; a column of states
/// has none.
pub open spec fn is_pyramid_of_column(
    pyramid: Option<Vec<Vec<Bucket>>>,
    samples: Samples,
    ticks: Seq<i128>,
) -> bool {
    match pyramid {
        Some(levels) => {
            &&& samples.dtype().view_kind_spec() == ViewKind::TimeDomain
            &&& decimation::is_pyramid(levels@, samples::promotions(samples), ticks)
        },
        None => samples.dtype().view_kind_spec() == ViewKind::StateTimeline,
    }
}

/// The pyramid of each column of a table.
pub fn pyramids_for(dataset: &Dataset) -> (pyramids: Vec<Option<Vec<Vec<Bucket>>>>)
    requires
        dataset.wf(),
    ensures
        are_pyramids_of(pyramids@, dataset@),
{
    let ticks: Vec<i128> = dataset.time.to_pyramid_ticks();
    let mut pyramids: Vec<Option<Vec<Vec<Bucket>>>> = Vec::new();
    let mut c: usize = 0;
    while c < dataset.columns.len()
        invariant
            dataset.wf(),
            ticks@ == dataset@.time.pyramid_ticks(),
            ticks@.len() == dataset.time@.len(),
            c <= dataset.columns@.len(),
            pyramids@.len() == c,
            forall|k: int|
                0 <= k < c ==> is_pyramid_of_column(
                    #[trigger] pyramids@[k],
                    dataset@.columns[k].samples,
                    ticks@,
                ),
        decreases dataset.columns@.len() - c,
    {
        let series: &Series = &dataset.columns[c];
        assert(dataset.columns@[c as int].wf());
        let pyramid: Option<Vec<Vec<Bucket>>> = match series.values().to_f64_vec() {
            Some(samples) => {
                assert(samples@ == samples::promotions(series.values_spec()@));
                Some(build_pyramid(samples.as_slice(), ticks.as_slice()))
            },
            None => None,
        };
        pyramids.push(pyramid);
        c = c + 1;
    }
    pyramids
}

/// What to show at a checkpoint. A beginning of a file that makes no table yet
/// is no error: there just is nothing to show.
pub fn make_checkpoint(loaded: &LoadedText, numbers: &[Vec<u64>]) -> (checkpoint: Option<
    Checkpoint,
>)
    requires
        loaded.wf(),
    ensures
        match (
            checkpoint,
            table_from(
                loaded.outcome@.column_names,
                csv::column_texts(loaded.columns@),
                loaded.outcome.decimal_separator,
                number_views(numbers@),
                loaded.forced,
            ),
        ) {
            (Some(checkpoint), Ok((table, _))) => {
                &&& checkpoint.dataset.wf()
                &&& checkpoint.dataset@ == table
                &&& !is_in_files(checkpoint.dataset)
                &&& are_pyramids_of(checkpoint.pyramids@, table)
                &&& checkpoint.rows_read == loaded.outcome.row_count
            },
            (None, Err(_)) => true,
            _ => false,
        },
{
    match loaded.build(numbers) {
        Ok((dataset, _)) => {
            let pyramids: Vec<Option<Vec<Vec<Bucket>>>> = pyramids_for(&dataset);
            Some(Checkpoint { dataset, pyramids, rows_read: loaded.outcome.row_count })
        },
        Err(_) => None,
    }
}

} // verus!
