//! The type of a column, from the text of all its fields.

use vstd::prelude::*;
use std::ops::Range;
use crate::ingest::infer;
use crate::ingest::infer::{looks_like_decimal, DecimalSeparator};
use crate::series::anomaly;
use crate::series::dtype::{Samples, SeriesValues};
use crate::series::{detect_nan_runs, Anomalies, Dtype, Series};
use crate::text;
use crate::text::{chars_of, find, is_number, parse_i128, spells, string_of, trim};

verus! {

/// A field with its decimal comma made a point. Only a field that is a number
/// with a decimal comma is changed, and only under the decimal comma.
pub open spec fn normalized(field: Seq<char>, separator: DecimalSeparator) -> Seq<char> {
    let comma = text::first_index(field, ',');
    if separator == DecimalSeparator::Comma && infer::is_decimal_with(text::trimmed(field), ',')
        && comma < field.len() {
        field.update(comma, '.')
    } else {
        field
    }
}

/// A field with its decimal comma made a point.
pub fn normalize_decimal_field(field: &str, separator: DecimalSeparator) -> (text: String)
    ensures
        text@ == normalized(field@, separator),
{
    let mut chars: Vec<char> = chars_of(field);
    if let DecimalSeparator::Comma = separator {
        if looks_like_decimal(trim(chars.as_slice()), ',') {
            let at: usize = find(chars.as_slice(), ',');
            if at < chars.len() {
                chars.set(at, '.');
            }
        }
    }
    assert(chars@ == normalized(field@, separator));
    string_of(chars.as_slice())
}

/// The truth value that a field spells, whatever the case of its letters.
pub open spec fn bool_of(field: Seq<char>) -> Option<bool> {
    if text::equal_ignoring_case(text::trimmed(field), "true"@) {
        Some(true)
    } else if text::equal_ignoring_case(text::trimmed(field), "false"@) {
        Some(false)
    } else {
        None
    }
}

/// The 64-bit integer that a field spells.
pub open spec fn i64_of(field: Seq<char>) -> Option<i64> {
    match text::integer_of(text::trimmed(field), i128::MIN as int, i128::MAX as int) {
        Ok(n) => if i64::MIN <= n <= i64::MAX {
            Some(n as i64)
        } else {
            None
        },
        Err(_) => None,
    }
}

/// A field spells a binary64 number.
pub open spec fn is_f64(field: Seq<char>) -> bool {
    text::is_number_text(text::trimmed(field))
}

/// The truth value that a field spells.
pub fn parse_bool_field(field: &str) -> (value: Option<bool>)
    ensures
        value == bool_of(field@),
{
    let chars: Vec<char> = chars_of(field);
    let inner: &[char] = trim(chars.as_slice());
    if spells(inner, "true") {
        Some(true)
    } else if spells(inner, "false") {
        Some(false)
    } else {
        None
    }
}

/// The 64-bit integer that a field spells.
pub fn parse_i64_field(field: &str) -> (value: Option<i64>)
    ensures
        value == i64_of(field@),
{
    let chars: Vec<char> = chars_of(field);
    match parse_i128(trim(chars.as_slice())) {
        Ok(n) => if i64::MIN as i128 <= n && n <= i64::MAX as i128 {
            Some(n as i64)
        } else {
            None
        },
        Err(_) => None,
    }
}

/// Whether a field spells a binary64 number.
pub fn is_f64_field(field: &str) -> (number: bool)
    ensures
        number == is_f64(field@),
{
    let chars: Vec<char> = chars_of(field);
    is_number(trim(chars.as_slice()))
}

/// Every field is a truth value.
pub open spec fn all_bool(fields: Seq<Seq<char>>) -> bool {
    forall|i: int| 0 <= i < fields.len() ==> bool_of(#[trigger] fields[i]) is Some
}

/// Every field is a 64-bit integer.
pub open spec fn all_i64(fields: Seq<Seq<char>>) -> bool {
    forall|i: int| 0 <= i < fields.len() ==> i64_of(#[trigger] fields[i]) is Some
}

/// Every field is a binary64 number.
pub open spec fn all_f64(fields: Seq<Seq<char>>) -> bool {
    forall|i: int| 0 <= i < fields.len() ==> is_f64(#[trigger] fields[i])
}

/// The type of a column: the narrowest that every field has. One field that is
/// no number makes a column of text.
pub open spec fn column_dtype(fields: Seq<Seq<char>>) -> Dtype {
    if fields.len() == 0 {
        Dtype::String
    } else if all_bool(fields) {
        Dtype::Bool
    } else if all_i64(fields) {
        Dtype::I64
    } else if all_f64(fields) {
        Dtype::F64
    } else {
        Dtype::String
    }
}

/// Settles the type of a column whose fields come one at a time.
pub struct ColumnDtypeScan {
    any: bool,
    bools: bool,
    integers: bool,
    numbers: bool,
    fields: Ghost<Seq<Seq<char>>>,
}

impl View for ColumnDtypeScan {
    type V = Seq<Seq<char>>;

    closed spec fn view(&self) -> Seq<Seq<char>> {
        self.fields@
    }
}

impl ColumnDtypeScan {
    /// The marks are those of the fields so far.
    pub closed spec fn wf(&self) -> bool {
        &&& self.any == (self.fields@.len() > 0)
        &&& self.bools == all_bool(self.fields@)
        &&& self.integers == all_i64(self.fields@)
        &&& self.numbers == all_f64(self.fields@)
    }

    /// A scan that has seen nothing.
    pub fn new() -> (scan: ColumnDtypeScan)
        ensures
            scan.wf(),
            scan@ == Seq::<Seq<char>>::empty(),
    {
        ColumnDtypeScan {
            any: false,
            bools: true,
            integers: true,
            numbers: true,
            fields: Ghost(Seq::empty()),
        }
    }

    /// Takes the next field.
    pub fn observe(&mut self, field: &str)
        requires
            old(self).wf(),
        ensures
            final(self).wf(),
            final(self)@ == old(self)@.push(field@),
    {
        let ghost before: Seq<Seq<char>> = self.fields@;
        let is_bool: bool = parse_bool_field(field).is_some();
        let is_integer: bool = parse_i64_field(field).is_some();
        let is_number: bool = is_f64_field(field);
        self.any = true;
        self.bools = self.bools && is_bool;
        self.integers = self.integers && is_integer;
        self.numbers = self.numbers && is_number;
        self.fields = Ghost(before.push(field@));
        proof {
            let after = before.push(field@);
            let n = before.len() as int;
            assert(after[n] == field@);
            assert(forall|i: int| 0 <= i < n ==> after[i] == #[trigger] before[i]);
            assert(forall|i: int| 0 <= i < n ==> #[trigger] after[i] == before[i]);
            assert(all_bool(after) == (all_bool(before) && bool_of(field@) is Some));
            assert(all_i64(after) == (all_i64(before) && i64_of(field@) is Some));
            assert(all_f64(after) == (all_f64(before) && is_f64(field@)));
        }
    }

    /// The type of the column.
    pub fn finish(&self) -> (dtype: Dtype)
        requires
            self.wf(),
        ensures
            dtype == column_dtype(self@),
    {
        if !self.any {
            Dtype::String
        } else if self.bools {
            Dtype::Bool
        } else if self.integers {
            Dtype::I64
        } else if self.numbers {
            Dtype::F64
        } else {
            Dtype::String
        }
    }
}

/// The type of a column.
pub fn infer_dtype(fields: &[String]) -> (dtype: Dtype)
    ensures
        dtype == column_dtype(text::texts(fields@)),
{
    let ghost texts: Seq<Seq<char>> = text::texts(fields@);
    let mut scan: ColumnDtypeScan = ColumnDtypeScan::new();
    let mut i: usize = 0;
    assert(texts.take(0) == Seq::<Seq<char>>::empty());
    while i < fields.len()
        invariant
            texts == text::texts(fields@),
            i <= fields@.len(),
            scan.wf(),
            scan@ == texts.take(i as int),
        decreases fields@.len() - i,
    {
        assert(texts.take(i + 1) == texts.take(i as int).push(fields@[i as int]@));
        scan.observe(fields[i].as_str());
        i = i + 1;
    }
    assert(texts.take(texts.len() as int) == texts);
    scan.finish()
}

/// The number at `i`, zero where there is none.
pub open spec fn number_at(numbers: Seq<u64>, i: int) -> u64 {
    if 0 <= i < numbers.len() {
        numbers[i]
    } else {
        0
    }
}

/// The values of a column. The binary64 number that each field spells is
/// given.
pub open spec fn column_samples(fields: Seq<Seq<char>>, numbers: Seq<u64>) -> Samples {
    match column_dtype(fields) {
        Dtype::Bool => Samples::Bool(Seq::new(fields.len(), |i: int| bool_of(fields[i]).unwrap())),
        Dtype::I64 => Samples::I64(Seq::new(fields.len(), |i: int| i64_of(fields[i]).unwrap())),
        Dtype::F64 => Samples::F64(Seq::new(fields.len(), |i: int| number_at(numbers, i))),
        _ => Samples::String(fields),
    }
}

/// The runs of NaN in a column.
pub open spec fn sample_nan_runs(samples: Samples) -> Seq<(int, int)> {
    match samples {
        Samples::F64(s) => anomaly::nan_runs(s, s.len() as int),
        _ => Seq::empty(),
    }
}

/// A column as a value: its name, its values, and what was noticed about them.
#[verifier::ext_equal]
pub ghost struct Column {
    pub name: Seq<char>,
    pub samples: Samples,
    pub nan_runs: Seq<(int, int)>,
    pub outliers: Seq<usize>,
    pub skipped_rows: Seq<usize>,
}

/// A column about whose values nothing but their runs of NaN was noticed.
pub open spec fn plain_column(name: Seq<char>, samples: Samples) -> Column {
    Column {
        name,
        samples,
        nan_runs: sample_nan_runs(samples),
        outliers: Seq::empty(),
        skipped_rows: Seq::empty(),
    }
}

/// The column of a name and its fields.
pub open spec fn column_from(
    name: Seq<char>,
    fields: Seq<Seq<char>>,
    numbers: Seq<u64>,
) -> Column {
    plain_column(name, column_samples(fields, numbers))
}

/// A series as a value.
pub open spec fn column_view(series: Series) -> Column {
    Column {
        name: series.name_spec(),
        samples: series.values_spec()@,
        nan_runs: anomaly::range_ends(series.anomalies_spec().nan_runs@),
        outliers: series.anomalies_spec().outliers@,
        skipped_rows: series.anomalies_spec().skipped_rows@,
    }
}

/// Settles the type of a column and reads its fields as values of it, in memory.
pub fn infer_column(name: String, fields: &[String], numbers: &[u64]) -> (series: Series)
    ensures
        series.wf(),
        !(series.values_spec() is Spilled),
        column_view(series) == column_from(name@, text::texts(fields@), numbers@),
{
    let ghost texts: Seq<Seq<char>> = text::texts(fields@);
    let dtype: Dtype = infer_dtype(fields);
    let ghost wanted: Samples = column_samples(texts, numbers@);
    let mut i: usize = 0;
    let series: Series = match dtype {
        Dtype::Bool => {
            let mut values: Vec<bool> = Vec::new();
            while i < fields.len()
                invariant
                    texts == text::texts(fields@),
                    all_bool(texts),
                    i <= fields@.len(),
                    values@.len() == i,
                    forall|j: int|
                        0 <= j < i ==> #[trigger] values@[j] == bool_of(texts[j]).unwrap(),
                decreases fields@.len() - i,
            {
                assert(bool_of(texts[i as int]) is Some);
                match parse_bool_field(fields[i].as_str()) {
                    Some(value) => {
                        values.push(value);
                    },
                    None => {},
                }
                i = i + 1;
            }
            assert(Samples::Bool(values@) =~= wanted);
            Series::new(name, SeriesValues::Bool(values))
        },
        Dtype::I64 => {
            let mut values: Vec<i64> = Vec::new();
            while i < fields.len()
                invariant
                    texts == text::texts(fields@),
                    all_i64(texts),
                    i <= fields@.len(),
                    values@.len() == i,
                    forall|j: int|
                        0 <= j < i ==> #[trigger] values@[j] == i64_of(texts[j]).unwrap(),
                decreases fields@.len() - i,
            {
                assert(i64_of(texts[i as int]) is Some);
                match parse_i64_field(fields[i].as_str()) {
                    Some(value) => {
                        values.push(value);
                    },
                    None => {},
                }
                i = i + 1;
            }
            assert(Samples::I64(values@) =~= wanted);
            Series::new(name, SeriesValues::I64(values))
        },
        Dtype::F64 => {
            let values: Vec<u64> = take_numbers(numbers, fields.len());
            assert(Samples::F64(values@) =~= wanted);
            let nan_runs: Vec<Range<usize>> = detect_nan_runs(values.as_slice());
            Series::with_anomalies(
                name,
                SeriesValues::F64(values),
                Anomalies { nan_runs, outliers: Vec::new(), skipped_rows: Vec::new() },
            )
        },
        _ => {
            let values: Vec<String> = copy_texts(fields);
            Series::new(name, SeriesValues::String(values))
        },
    };
    assert(column_view(series) =~= column_from(name@, texts, numbers@));
    series
}

/// The first `count` numbers, zeros where there are not so many.
pub fn take_numbers(numbers: &[u64], count: usize) -> (taken: Vec<u64>)
    ensures
        taken@ == Seq::new(count as nat, |i: int| number_at(numbers@, i)),
{
    let mut taken: Vec<u64> = Vec::new();
    let mut i: usize = 0;
    while i < count
        invariant
            i <= count,
            taken@.len() == i,
            forall|j: int| 0 <= j < i ==> #[trigger] taken@[j] == number_at(numbers@, j),
        decreases count - i,
    {
        taken.push(
            if i < numbers.len() {
                numbers[i]
            } else {
                0
            },
        );
        i = i + 1;
    }
    taken
}

fn copy_texts(fields: &[String]) -> (copy: Vec<String>)
    ensures
        text::texts(copy@) == text::texts(fields@),
{
    let mut copy: Vec<String> = Vec::new();
    let mut i: usize = 0;
    while i < fields.len()
        invariant
            i <= fields@.len(),
            copy@.len() == i,
            forall|j: int| 0 <= j < i ==> (#[trigger] copy@[j])@ == fields@[j]@,
        decreases fields@.len() - i,
    {
        copy.push(fields[i].clone());
        i = i + 1;
    }
    assert(text::texts(copy@) == text::texts(fields@));
    copy
}

/// The texts of a column that are to be read as binary64 numbers: all of them,
/// without the white space around them, where the column is one of such
/// numbers, and else none.
pub open spec fn number_texts(fields: Seq<Seq<char>>) -> Seq<Seq<char>> {
    if column_dtype(fields) == Dtype::F64 {
        Seq::new(fields.len(), |i: int| text::trimmed(fields[i]))
    } else {
        Seq::empty()
    }
}

/// The texts of a column that are to be read as binary64 numbers. Each of them
/// spells one.
pub fn request_numbers(fields: &[String]) -> (texts: Vec<String>)
    ensures
        text::texts(texts@) == number_texts(text::texts(fields@)),
        forall|i: int| 0 <= i < texts@.len() ==> text::is_number_text((#[trigger] texts@[i])@),
{
    let ghost all: Seq<Seq<char>> = text::texts(fields@);
    let mut texts: Vec<String> = Vec::new();
    if let Dtype::F64 = infer_dtype(fields) {
        let mut i: usize = 0;
        while i < fields.len()
            invariant
                all == text::texts(fields@),
                all_f64(all),
                i <= fields@.len(),
                texts@.len() == i,
                forall|j: int|
                    0 <= j < i ==> (#[trigger] texts@[j])@ == text::trimmed(all[j])
                        && text::is_number_text(texts@[j]@),
            decreases fields@.len() - i,
        {
            assert(is_f64(all[i as int]));
            let chars: Vec<char> = chars_of(fields[i].as_str());
            texts.push(string_of(trim(chars.as_slice())));
            i = i + 1;
        }
    }
    assert(text::texts(texts@) == number_texts(all));
    texts
}

/// Rewriting the decimal comma leaves every field alone that is not a number
/// with one.
pub proof fn law_only_comma_decimals_are_rewritten(field: Seq<char>, separator: DecimalSeparator)
    requires
        normalized(field, separator) != field,
    ensures
        separator == DecimalSeparator::Comma,
        infer::is_decimal_with(text::trimmed(field), ','),
{
}

} // verus!
