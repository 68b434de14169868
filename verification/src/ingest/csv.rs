//! Delimited text, read in one pass.
//!
//! What the head of a file says ([`Sniff`]) settles how the rest is read. Each
//! data row is kept or skipped; a scan can stop on the way at checkpoints whose
//! distance doubles.

use vstd::prelude::*;
use crate::error::{GlydeError, Result};
use crate::ingest::column_text::ColumnText;
use crate::ingest::encoding;
use crate::ingest::encoding::{decode, detect_encoding, EncodingInference};
use crate::ingest::head;
use crate::ingest::head::bounded_head_sample;
use crate::ingest::infer;
use crate::ingest::infer::{
    clone_fields, infer_decimal_separator, infer_delimiter, infer_header, read_csv_records,
    split_words, Confidence, DecimalSeparator, DecimalSeparatorInference, Delimiter,
    DelimiterInference, Header, HeaderInference,
};
use crate::ingest::overrides::IngestOverrides;
use crate::text;

verus! {

/// How many kept rows there are at the first checkpoint.
pub const FIRST_PROGRESS_CHECKPOINT_ROWS: u64 = 20_000;

/// What the head of a file says of the whole.
#[derive(Debug, PartialEq, Eq)]
pub struct Sniff {
    pub encoding: EncodingInference,
    pub delimiter: Delimiter,
    pub delimiter_confidence: Confidence,
    pub decimal_separator: DecimalSeparator,
    pub decimal_separator_confidence: Confidence,
    pub header: HeaderInference,
}

/// A sniff as a value.
#[verifier::ext_equal]
pub ghost struct SniffView {
    pub encoding: EncodingInference,
    pub delimiter: Delimiter,
    pub delimiter_confidence: Confidence,
    pub decimal_separator: DecimalSeparator,
    pub decimal_separator_confidence: Confidence,
    pub header: Header,
}

impl View for Sniff {
    type V = SniffView;

    open spec fn view(&self) -> SniffView {
        SniffView {
            encoding: self.encoding,
            delimiter: self.delimiter,
            delimiter_confidence: self.delimiter_confidence,
            decimal_separator: self.decimal_separator,
            decimal_separator_confidence: self.decimal_separator_confidence,
            header: self.header@,
        }
    }
}

/// What the head of a text says under the given corrections. A correction is
/// certain; the decimal separator and the header are looked for under the
/// delimiter that is settled on.
pub open spec fn sniffed(
    text: Seq<char>,
    encoding: EncodingInference,
    overrides: IngestOverrides,
) -> SniffView {
    let sample = head::head_sample(text);
    let likely = infer::chosen_delimiter(infer::candidate_scores(sample, 5));
    let delimiter = match overrides.delimiter {
        Some(delimiter) => delimiter,
        None => likely.delimiter,
    };
    let records = infer::records_of(sample, delimiter);
    let separator = infer::elected_separator(records);
    SniffView {
        encoding,
        delimiter,
        delimiter_confidence: match overrides.delimiter {
            Some(_) => Confidence::High,
            None => likely.confidence_spec(),
        },
        decimal_separator: match overrides.decimal_separator {
            Some(separator) => separator,
            None => separator.separator,
        },
        decimal_separator_confidence: match overrides.decimal_separator {
            Some(_) => Confidence::High,
            None => separator.confidence_spec(),
        },
        header: infer::header_in(records),
    }
}

/// The place of the first data row among the records.
pub open spec fn first_data_row(header: Header) -> int {
    match header.row {
        Some(row) => row + 1,
        None => header.skipped,
    }
}

impl Sniff {
    /// There is a place behind the header.
    pub open spec fn wf(&self) -> bool {
        self.header.header_row_index matches Some(row) ==> row < usize::MAX
    }

    /// The names of the columns.
    pub fn column_names(&self) -> (names: &Vec<String>)
        ensures
            text::texts(names@) == self@.header.names,
    {
        &self.header.column_names
    }

    /// The place of the first data row among the records.
    pub fn data_start_row(&self) -> (row: usize)
        requires
            self.wf(),
        ensures
            row == first_data_row(self@.header),
    {
        match self.header.header_row_index {
            Some(row) => row + 1,
            None => self.header.skipped_preamble_rows,
        }
    }
}

/// Looks at the head of a decoded text.
pub fn sniff_text(
    text: &str,
    encoding: EncodingInference,
    overrides: IngestOverrides,
) -> (sniff: Sniff)
    ensures
        sniff.wf(),
        sniff@ == sniffed(text@, encoding, overrides),
{
    let sample: &str = bounded_head_sample(text);
    let likely: DelimiterInference = infer_delimiter(sample);
    let (delimiter, delimiter_confidence) = match overrides.delimiter {
        Some(delimiter) => (delimiter, Confidence::High),
        None => (likely.delimiter, likely.confidence()),
    };
    let separator: DecimalSeparatorInference = infer_decimal_separator(sample, delimiter);
    let (decimal_separator, decimal_separator_confidence) = match overrides.decimal_separator {
        Some(separator) => (separator, Confidence::High),
        None => (separator.separator, separator.confidence()),
    };
    let header: HeaderInference = infer_header(sample, delimiter);
    Sniff {
        encoding,
        delimiter,
        delimiter_confidence,
        decimal_separator,
        decimal_separator_confidence,
        header,
    }
}

/// The records of a whole text, `None` for one that cannot be read.
pub open spec fn all_rows(text: Seq<char>, delimiter: Delimiter) -> Seq<Option<Seq<Seq<char>>>> {
    match delimiter.byte() {
        Some(byte) => infer::csv_records(text, byte, false, true),
        None => {
            let records = infer::whitespace_records(text);
            Seq::new(records.len(), |i: int| Some(records[i]))
        },
    }
}

/// Reads the records of a whole text.
pub fn read_rows(text: &str, delimiter: Delimiter) -> (rows: Vec<Option<Vec<String>>>)
    ensures
        infer::record_texts(rows@) == all_rows(text@, delimiter),
{
    match delimiter.as_csv_byte() {
        Some(byte) => read_csv_records(text, byte, false, true),
        None => {
            let records: Vec<Vec<String>> = split_words(text);
            let mut rows: Vec<Option<Vec<String>>> = Vec::new();
            let mut i: usize = 0;
            while i < records.len()
                invariant
                    i <= records@.len(),
                    rows@.len() == i,
                    forall|j: int|
                        0 <= j < i ==> (#[trigger] rows@[j] matches Some(fields) && text::texts(
                            fields@,
                        ) == text::texts(records@[j]@)),
                decreases records@.len() - i,
            {
                rows.push(Some(clone_fields(&records[i])));
                i = i + 1;
            }
            proof {
                let wanted = all_rows(text@, delimiter);
                assert forall|j: int| 0 <= j < wanted.len() implies infer::record_texts(rows@)[j]
                    == #[trigger] wanted[j] by {
                    assert(rows@[j] is Some);
                    assert(text::rows(records@)[j] == text::texts(records@[j]@));
                }
                assert(infer::record_texts(rows@) == wanted);
            }
            rows
        },
    }
}

/// A row is kept where it could be read and has the header's number of fields.
pub open spec fn is_kept(row: Option<Seq<Seq<char>>>, width: int) -> bool {
    row matches Some(fields) && fields.len() == width
}

/// The kept rows among those from `first` up to `n`.
pub open spec fn kept_rows(
    rows: Seq<Option<Seq<Seq<char>>>>,
    first: int,
    width: int,
    n: int,
) -> Seq<Seq<Seq<char>>>
    decreases n,
{
    if n <= first || n <= 0 {
        Seq::empty()
    } else if is_kept(rows[n - 1], width) {
        kept_rows(rows, first, width, n - 1).push(rows[n - 1].unwrap())
    } else {
        kept_rows(rows, first, width, n - 1)
    }
}

/// How many of the rows from `first` up to `n` are skipped.
pub open spec fn skipped_rows(
    rows: Seq<Option<Seq<Seq<char>>>>,
    first: int,
    width: int,
    n: int,
) -> nat
    decreases n,
{
    if n <= first || n <= 0 {
        0
    } else if is_kept(rows[n - 1], width) {
        skipped_rows(rows, first, width, n - 1)
    } else {
        skipped_rows(rows, first, width, n - 1) + 1
    }
}

/// No data row is lost: each is kept or counted as skipped.
pub proof fn law_every_data_row_is_kept_or_counted(
    rows: Seq<Option<Seq<Seq<char>>>>,
    first: int,
    width: int,
    n: int,
)
    requires
        0 <= first,
        0 <= n <= rows.len(),
    ensures
        kept_rows(rows, first, width, n).len() + skipped_rows(rows, first, width, n) == (if n
            <= first {
            0
        } else {
            n - first
        }),
        forall|i: int|
            0 <= i < kept_rows(rows, first, width, n).len() ==> (#[trigger] kept_rows(
                rows,
                first,
                width,
                n,
            )[i]).len() == width,
    decreases n,
{
    if n > first && n > 0 {
        law_every_data_row_is_kept_or_counted(rows, first, width, n - 1);
    }
}

/// What was read up to a checkpoint is a true beginning of what is read in the
/// end.
pub proof fn law_checkpoint_is_a_prefix(
    rows: Seq<Option<Seq<Seq<char>>>>,
    first: int,
    width: int,
    at: int,
    n: int,
)
    requires
        0 <= at <= n <= rows.len(),
    ensures
        kept_rows(rows, first, width, at).is_prefix_of(kept_rows(rows, first, width, n)),
        skipped_rows(rows, first, width, at) <= skipped_rows(rows, first, width, n),
    decreases n,
{
    let start = kept_rows(rows, first, width, at);
    let end = kept_rows(rows, first, width, n);
    if at < n {
        law_checkpoint_is_a_prefix(rows, first, width, at, n - 1);
        let before = kept_rows(rows, first, width, n - 1);
        if n <= first {
            assert(start == end);
        } else {
            assert(end.take(start.len() as int) == before.take(start.len() as int));
        }
    }
    assert(start == end.take(start.len() as int));
}

/// Which text a scan holds on to.
#[derive(Debug, Clone, Copy, PartialEq, Eq, Structural)]
pub enum Capture {
    /// None: rows are only counted.
    Nothing,
    /// That of one column.
    Column(usize),
    /// That of every column.
    All,
}

/// The fields of one column of a table.
pub open spec fn column_of(kept: Seq<Seq<Seq<char>>>, index: int) -> Seq<Seq<char>> {
    Seq::new(kept.len(), |i: int| kept[i][index])
}

/// What is captured of the kept rows: a series of columns.
pub open spec fn captured(
    kept: Seq<Seq<Seq<char>>>,
    width: int,
    capture: Capture,
) -> Seq<Seq<Seq<char>>> {
    match capture {
        Capture::Nothing => Seq::empty(),
        Capture::Column(index) => seq![
            if index < width {
                column_of(kept, index as int)
            } else {
                Seq::empty()
            },
        ],
        Capture::All => Seq::new(width as nat, |index: int| column_of(kept, index)),
    }
}

/// The fields of each column.
pub open spec fn column_texts(columns: Seq<ColumnText>) -> Seq<Seq<Seq<char>>> {
    Seq::new(columns.len(), |i: int| columns[i]@)
}

/// Every column holds its fields as it should.
pub open spec fn columns_wf(columns: Seq<ColumnText>) -> bool {
    forall|i: int| 0 <= i < columns.len() ==> (#[trigger] columns[i]).wf()
}

/// The number of kept rows at which a scan that has `kept` of them stops next:
/// the first number of the doubling series from `from` on that is larger.
pub open spec fn next_threshold(from: int, kept: int) -> int
    decreases u64::MAX - from,
{
    if kept < from || from <= 0 || from >= u64::MAX {
        from
    } else {
        next_threshold(
            if 2 * from < u64::MAX {
                2 * from
            } else {
                u64::MAX as int
            },
            kept,
        )
    }
}

/// Where a scan that has `kept` rows stops next.
pub open spec fn checkpoint_after(kept: int) -> int {
    next_threshold(FIRST_PROGRESS_CHECKPOINT_ROWS as int, kept)
}

/// One more row moves the threshold only where it reaches it, and then it
/// doubles.
proof fn lemma_next_threshold(from: int, kept: int)
    requires
        0 < from <= u64::MAX,
        0 <= kept,
    ensures
        0 < next_threshold(from, kept) <= u64::MAX,
        next_threshold(from, kept) < u64::MAX ==> kept < next_threshold(from, kept),
        next_threshold(from, kept + 1) == (if kept + 1 < next_threshold(from, kept) {
            next_threshold(from, kept)
        } else if 2 * next_threshold(from, kept) < u64::MAX {
            2 * next_threshold(from, kept)
        } else {
            u64::MAX as int
        }),
    decreases u64::MAX - from,
{
    let doubled = if 2 * from < u64::MAX {
        2 * from
    } else {
        u64::MAX as int
    };
    if from < u64::MAX {
        if kept >= from {
            lemma_next_threshold(doubled, kept);
        } else if kept + 1 >= from {
            assert(next_threshold(doubled, kept + 1) == doubled);
        }
    }
}

/// What a parse reports.
#[derive(Debug, Clone, PartialEq, Eq)]
pub struct CsvParseOutcome {
    pub column_names: Vec<String>,
    pub row_count: u64,
    pub skipped_row_count: u64,
    /// The label of the encoding, such as `utf-8`.
    pub encoding_label: String,
    pub delimiter: Delimiter,
    pub decimal_separator: DecimalSeparator,
    pub encoding_confidence: Confidence,
    pub delimiter_confidence: Confidence,
    pub decimal_separator_confidence: Confidence,
    /// The columns' names are a guess.
    pub header_ambiguous: bool,
}

/// A report as a value.
#[verifier::ext_equal]
pub ghost struct Outcome {
    pub column_names: Seq<Seq<char>>,
    pub row_count: int,
    pub skipped_row_count: int,
    pub encoding_label: Seq<char>,
    pub delimiter: Delimiter,
    pub decimal_separator: DecimalSeparator,
    pub encoding_confidence: Confidence,
    pub delimiter_confidence: Confidence,
    pub decimal_separator_confidence: Confidence,
    pub header_ambiguous: bool,
}

impl View for CsvParseOutcome {
    type V = Outcome;

    open spec fn view(&self) -> Outcome {
        Outcome {
            column_names: text::texts(self.column_names@),
            row_count: self.row_count as int,
            skipped_row_count: self.skipped_row_count as int,
            encoding_label: self.encoding_label@,
            delimiter: self.delimiter,
            decimal_separator: self.decimal_separator,
            encoding_confidence: self.encoding_confidence,
            delimiter_confidence: self.delimiter_confidence,
            decimal_separator_confidence: self.decimal_separator_confidence,
            header_ambiguous: self.header_ambiguous,
        }
    }
}

/// What a scan knows: how the file is read, its rows, and how many of them
/// have been looked at.
#[verifier::ext_equal]
pub ghost struct ScanState {
    pub sniff: SniffView,
    pub capture: Capture,
    pub rows: Seq<Option<Seq<Seq<char>>>>,
    pub at: int,
}

impl ScanState {
    /// How many fields a row must have.
    pub open spec fn width(self) -> int {
        self.sniff.header.names.len() as int
    }

    /// The rows kept among the first `n`.
    pub open spec fn kept_up_to(self, n: int) -> Seq<Seq<Seq<char>>> {
        kept_rows(self.rows, first_data_row(self.sniff.header), self.width(), n)
    }

    /// The rows kept so far.
    pub open spec fn kept(self) -> Seq<Seq<Seq<char>>> {
        self.kept_up_to(self.at)
    }

    /// How many rows were skipped so far.
    pub open spec fn skipped(self) -> nat {
        skipped_rows(self.rows, first_data_row(self.sniff.header), self.width(), self.at)
    }

    /// What has been captured so far.
    pub open spec fn columns(self) -> Seq<Seq<Seq<char>>> {
        captured(self.kept(), self.width(), self.capture)
    }

    /// What is reported of the rows so far.
    pub open spec fn outcome(self) -> Outcome {
        Outcome {
            column_names: self.sniff.header.names,
            row_count: self.kept().len() as int,
            skipped_row_count: self.skipped() as int,
            encoding_label: self.sniff.encoding.encoding.label_spec(),
            delimiter: self.sniff.delimiter,
            decimal_separator: self.sniff.decimal_separator,
            encoding_confidence: self.sniff.encoding.confidence_spec(),
            delimiter_confidence: self.sniff.delimiter_confidence,
            decimal_separator_confidence: self.sniff.decimal_separator_confidence,
            header_ambiguous: self.sniff.header.ambiguous,
        }
    }
}

/// A pass over the rows of a file that can stop at checkpoints.
pub struct CsvScan {
    sniff: Sniff,
    capture: Capture,
    rows: Vec<Option<Vec<String>>>,
    first: usize,
    next: usize,
    row_count: u64,
    skipped_row_count: u64,
    columns: Vec<ColumnText>,
    next_checkpoint_rows: u64,
}

impl View for CsvScan {
    type V = ScanState;

    closed spec fn view(&self) -> ScanState {
        ScanState {
            sniff: self.sniff@,
            capture: self.capture,
            rows: infer::record_texts(self.rows@),
            at: self.next as int,
        }
    }
}

/// Appends the fields of a row to their columns.
fn push_row(columns: &mut Vec<ColumnText>, fields: &Vec<String>)
    requires
        columns_wf(old(columns)@),
        old(columns)@.len() == fields@.len(),
    ensures
        columns_wf(final(columns)@),
        final(columns)@.len() == fields@.len(),
        forall|i: int|
            0 <= i < fields@.len() ==> (#[trigger] final(columns)@[i])@ == old(columns)@[i]@.push(
                fields@[i]@,
            ),
{
    let mut i: usize = 0;
    while i < fields.len()
        invariant
            i <= fields@.len(),
            columns_wf(columns@),
            columns@.len() == fields@.len(),
            old(columns)@.len() == fields@.len(),
            forall|j: int|
                0 <= j < i ==> (#[trigger] columns@[j])@ == old(columns)@[j]@.push(fields@[j]@),
            forall|j: int| i <= j < fields@.len() ==> #[trigger] columns@[j] == old(columns)@[j],
        decreases fields@.len() - i,
    {
        columns[i].push(fields[i].as_str());
        i = i + 1;
    }
}

fn empty_columns(count: usize) -> (columns: Vec<ColumnText>)
    ensures
        columns_wf(columns@),
        columns@.len() == count,
        forall|i: int|
            0 <= i < count ==> (#[trigger] columns@[i])@ == Seq::<Seq<char>>::empty(),
{
    let mut columns: Vec<ColumnText> = Vec::new();
    let mut i: usize = 0;
    while i < count
        invariant
            i <= count,
            columns_wf(columns@),
            columns@.len() == i,
            forall|j: int|
                0 <= j < i ==> (#[trigger] columns@[j])@ == Seq::<Seq<char>>::empty(),
        decreases count - i,
    {
        columns.push(ColumnText::new());
        i = i + 1;
    }
    columns
}

/// What is reported of a file of which so many rows were kept and skipped.
pub fn outcome_of(sniff: &Sniff, row_count: u64, skipped_row_count: u64) -> (outcome:
    CsvParseOutcome)
    ensures
        outcome@ == (Outcome {
            column_names: sniff@.header.names,
            row_count: row_count as int,
            skipped_row_count: skipped_row_count as int,
            encoding_label: sniff@.encoding.encoding.label_spec(),
            delimiter: sniff@.delimiter,
            decimal_separator: sniff@.decimal_separator,
            encoding_confidence: sniff@.encoding.confidence_spec(),
            delimiter_confidence: sniff@.delimiter_confidence,
            decimal_separator_confidence: sniff@.decimal_separator_confidence,
            header_ambiguous: sniff@.header.ambiguous,
        }),
{
    CsvParseOutcome {
        column_names: clone_fields(&sniff.header.column_names),
        row_count,
        skipped_row_count,
        encoding_label: sniff.encoding.label(),
        delimiter: sniff.delimiter,
        decimal_separator: sniff.decimal_separator,
        encoding_confidence: sniff.encoding.confidence(),
        delimiter_confidence: sniff.delimiter_confidence,
        decimal_separator_confidence: sniff.decimal_separator_confidence,
        header_ambiguous: sniff.header.ambiguous,
    }
}

impl CsvScan {
    /// The tallies, the captured text and the next checkpoint are those of the
    /// rows looked at so far.
    pub closed spec fn wf(&self) -> bool {
        &&& self.sniff.wf()
        &&& self.first == first_data_row(self.sniff@.header)
        &&& self.next <= self.rows@.len()
        &&& self.row_count == self@.kept().len()
        &&& self.skipped_row_count == self@.skipped()
        &&& columns_wf(self.columns@)
        &&& column_texts(self.columns@) == self@.columns()
        &&& self.next_checkpoint_rows == checkpoint_after(self@.kept().len() as int)
    }

    /// A pass that has not begun.
    pub fn start(sniff: Sniff, rows: Vec<Option<Vec<String>>>, capture: Capture) -> (scan: CsvScan)
        requires
            sniff.wf(),
        ensures
            scan.wf(),
            scan@ == (ScanState {
                sniff: sniff@,
                capture,
                rows: infer::record_texts(rows@),
                at: 0,
            }),
    {
        let width: usize = sniff.header.column_names.len();
        let columns: Vec<ColumnText> = match capture {
            Capture::Nothing => empty_columns(0),
            Capture::Column(_) => empty_columns(1),
            Capture::All => empty_columns(width),
        };
        let first: usize = sniff.data_start_row();
        let scan: CsvScan = CsvScan {
            sniff,
            capture,
            rows,
            first,
            next: 0,
            row_count: 0,
            skipped_row_count: 0,
            columns,
            next_checkpoint_rows: FIRST_PROGRESS_CHECKPOINT_ROWS,
        };
        proof {
            assert(scan@.kept() == Seq::<Seq<Seq<char>>>::empty());
            assert(column_texts(scan.columns@) =~~= scan@.columns());
        }
        scan
    }

    /// Looks at the next row: keeps it or counts it as skipped. Says whether a
    /// checkpoint is reached.
    fn step(&mut self) -> (stopped: bool)
        requires
            old(self).wf(),
            old(self)@.at < old(self)@.rows.len(),
        ensures
            final(self).wf(),
            final(self)@ == (ScanState { at: old(self)@.at + 1, ..old(self)@ }),
            stopped ==> final(self)@.kept().len() == checkpoint_after(
                old(self)@.kept().len() as int,
            ) && old(self)@.kept().len() < final(self)@.kept().len(),
            !stopped ==> final(self)@.kept().len() < checkpoint_after(
                old(self)@.kept().len() as int,
            ) && checkpoint_after(final(self)@.kept().len() as int) == checkpoint_after(
                old(self)@.kept().len() as int,
            ),
    {
        let ghost before: ScanState = self@;
        let ghost after: ScanState = ScanState { at: before.at + 1, ..before };
        let width: usize = self.sniff.header.column_names.len();
        let at: usize = self.next;
        proof {
            law_every_data_row_is_kept_or_counted(
                before.rows,
                self.first as int,
                width as int,
                at as int,
            );
            lemma_next_threshold(
                FIRST_PROGRESS_CHECKPOINT_ROWS as int,
                before.kept().len() as int,
            );
        }
        let total: usize = self.rows.len();
        assert(at < total);
        self.next = at + 1;
        if at < self.first {
            assert(after.kept() == before.kept());
            return false;
        }
        let kept: bool = match &self.rows[at] {
            Some(fields) => fields.len() == width,
            None => false,
        };
        assert(before.rows[at as int] == infer::record_texts(self.rows@)[at as int]);
        assert(kept == is_kept(before.rows[at as int], width as int));
        if !kept {
            self.skipped_row_count = self.skipped_row_count + 1;
            assert(after.kept() == before.kept());
            return false;
        }
        let ghost row: Seq<Seq<char>> = before.rows[at as int].unwrap();
        assert(after.kept() == before.kept().push(row));
        self.row_count = self.row_count + 1;
        match &self.rows[at] {
            Some(fields) => {
                assert(row == text::texts(fields@));
                match self.capture {
                    Capture::Nothing => {},
                    Capture::Column(index) => {
                        if index < fields.len() {
                            assert(column_texts(self.columns@).len() == 1);
                            let ghost old_columns: Seq<ColumnText> = self.columns@;
                            assert(column_texts(old_columns)[0] == old_columns[0]@);
                            self.columns[0].push(fields[index].as_str());
                            assert(self.columns@[0]@ == column_of(after.kept(), index as int));
                        }
                    },
                    Capture::All => {
                        assert(column_texts(self.columns@).len() == width);
                        let ghost old_columns: Seq<ColumnText> = self.columns@;
                        push_row(&mut self.columns, fields);
                        assert forall|i: int| 0 <= i < width implies (
                        #[trigger] self.columns@[i])@ == column_of(after.kept(), i) by {
                            assert(column_texts(old_columns)[i] == column_of(before.kept(), i));
                            assert(old_columns[i]@ == column_of(before.kept(), i));
                            assert(column_of(after.kept(), i) == column_of(before.kept(), i).push(
                                row[i],
                            ));
                        }
                    },
                }
            },
            None => {},
        }
        assert(column_texts(self.columns@) =~~= after.columns());
        if self.row_count < self.next_checkpoint_rows {
            return false;
        }
        self.next_checkpoint_rows = match self.next_checkpoint_rows.checked_mul(2) {
            Some(doubled) => doubled,
            None => u64::MAX,
        };
        true
    }

    /// Goes on to the next checkpoint, or to the end. Says whether it stopped
    /// at a checkpoint.
    pub fn advance(&mut self) -> (stopped: bool)
        requires
            old(self).wf(),
        ensures
            final(self).wf(),
            final(self)@.at >= old(self)@.at,
            final(self)@ == (ScanState { at: final(self)@.at, ..old(self)@ }),
            stopped ==> {
                &&& old(self)@.at < final(self)@.at <= final(self)@.rows.len()
                &&& final(self)@.kept().len() == checkpoint_after(old(self)@.kept().len() as int)
                &&& final(self)@.kept_up_to(final(self)@.at - 1).len() < final(self)@.kept().len()
            },
            !stopped ==> {
                &&& final(self)@.at == final(self)@.rows.len()
                &&& final(self)@.kept().len() < checkpoint_after(
                    old(self)@.kept().len() as int,
                ) || final(self)@.kept().len() == u64::MAX
            },
    {
        let ghost start: ScanState = self@;
        let ghost stop: int = checkpoint_after(start.kept().len() as int);
        proof {
            lemma_next_threshold(FIRST_PROGRESS_CHECKPOINT_ROWS as int, start.kept().len() as int);
            law_every_data_row_is_kept_or_counted(
                start.rows,
                first_data_row(start.sniff.header),
                start.width(),
                start.at,
            );
        }
        while self.next < self.rows.len()
            invariant
                self.wf(),
                start == old(self)@,
                stop == checkpoint_after(start.kept().len() as int),
                start.at <= self@.at,
                self@ == (ScanState { at: self@.at, ..start }),
                stop == checkpoint_after(self@.kept().len() as int),
                self@.kept().len() < stop || self@.kept().len() == u64::MAX,
            decreases self@.rows.len() - self@.at,
        {
            let ghost before: ScanState = self@;
            if self.step() {
                assert(self@.kept_up_to(self@.at - 1) == before.kept());
                return true;
            }
        }
        false
    }

    /// What is reported of the rows so far.
    pub fn outcome(&self) -> (outcome: CsvParseOutcome)
        requires
            self.wf(),
        ensures
            outcome@ == self@.outcome(),
    {
        outcome_of(&self.sniff, self.row_count, self.skipped_row_count)
    }

    /// The text captured so far.
    pub fn columns(&self) -> (columns: &Vec<ColumnText>)
        requires
            self.wf(),
        ensures
            columns_wf(columns@),
            column_texts(columns@) == self@.columns(),
    {
        &self.columns
    }

    /// Goes on to the end, whatever checkpoints are on the way, and gives out
    /// the report and the captured text.
    pub fn finish(self) -> (result: (CsvParseOutcome, Vec<ColumnText>))
        requires
            self.wf(),
        ensures
            ({
                let end = ScanState { at: self@.rows.len() as int, ..self@ };
                &&& result.0@ == end.outcome()
                &&& columns_wf(result.1@)
                &&& column_texts(result.1@) == end.columns()
            }),
    {
        let ghost start: ScanState = self@;
        let mut scan: CsvScan = self;
        while scan.next < scan.rows.len()
            invariant
                scan.wf(),
                scan@ == (ScanState { at: scan@.at, ..start }),
            decreases scan@.rows.len() - scan@.at,
        {
            let _ = scan.step();
        }
        assert(scan@.at == scan@.rows.len());
        let outcome: CsvParseOutcome = scan.outcome();
        (outcome, scan.columns)
    }
}

/// Stopping at a checkpoint changes nothing: a pass that goes on from there
/// ends as one that never stopped, and what was captured of each column by then
/// is a true beginning of what is captured in the end.
pub proof fn law_stopping_does_not_change_the_result(start: ScanState, at: int)
    requires
        0 <= at <= start.rows.len(),
    ensures
        ({
            let stopped = ScanState { at, ..start };
            let end = ScanState { at: start.rows.len() as int, ..start };
            &&& (ScanState { at: stopped.rows.len() as int, ..stopped }) == end
            &&& stopped.columns().len() == end.columns().len()
            &&& forall|i: int|
                0 <= i < end.columns().len() ==> (#[trigger] stopped.columns()[i]).is_prefix_of(
                    end.columns()[i],
                )
        }),
{
    let stopped = ScanState { at, ..start };
    let end = ScanState { at: start.rows.len() as int, ..start };
    law_checkpoint_is_a_prefix(
        start.rows,
        first_data_row(start.sniff.header),
        start.width(),
        at,
        start.rows.len() as int,
    );
    assert forall|i: int| 0 <= i < end.columns().len() implies (
    #[trigger] stopped.columns()[i]).is_prefix_of(end.columns()[i]) by {
        let part = stopped.columns()[i];
        let whole = end.columns()[i];
        assert(part == whole.take(part.len() as int));
    }
}

/// What the bytes of a file say.
pub open spec fn file_text(bytes: Seq<u8>) -> Seq<char> {
    encoding::decoded_text(bytes, encoding::inferred_encoding(bytes).encoding.label_spec())
}

/// How a file is read, and its rows, before any has been looked at.
pub open spec fn scan_of(bytes: Seq<u8>, capture: Capture, overrides: IngestOverrides) -> ScanState {
    let text = file_text(bytes);
    let sniff = sniffed(text, encoding::inferred_encoding(bytes), overrides);
    ScanState { sniff, capture, rows: all_rows(text, sniff.delimiter), at: 0 }
}

/// The same when every row has been looked at.
pub open spec fn finished_scan_of(
    bytes: Seq<u8>,
    capture: Capture,
    overrides: IngestOverrides,
) -> ScanState {
    let start = scan_of(bytes, capture, overrides);
    ScanState { at: start.rows.len() as int, ..start }
}

/// Begins a pass over the bytes of a file. There is none over an empty file.
pub fn begin_scan(bytes: &[u8], capture: Capture, overrides: IngestOverrides) -> (scan: Result<
    CsvScan,
>)
    requires
        bytes@.len() <= usize::MAX / 8,
    ensures
        match scan {
            Ok(scan) => bytes@.len() > 0 && scan.wf() && scan@ == scan_of(
                bytes@,
                capture,
                overrides,
            ),
            Err(error) => bytes@.len() == 0 && error is EmptyFile,
        },
{
    if bytes.len() == 0 {
        return Err(GlydeError::EmptyFile);
    }
    let encoding: EncodingInference = detect_encoding(bytes);
    let text: String = decode(bytes, &encoding);
    let sniff: Sniff = sniff_text(text.as_str(), encoding, overrides);
    let rows: Vec<Option<Vec<String>>> = read_rows(text.as_str(), sniff.delimiter);
    Ok(CsvScan::start(sniff, rows, capture))
}

/// `result` is the report and the captured text of the whole file, or tells
/// that the file is empty.
pub open spec fn is_parse_of(
    result: Result<(CsvParseOutcome, Vec<ColumnText>)>,
    bytes: Seq<u8>,
    capture: Capture,
    overrides: IngestOverrides,
) -> bool {
    let end = finished_scan_of(bytes, capture, overrides);
    match result {
        Ok((outcome, columns)) => {
            &&& bytes.len() > 0
            &&& outcome@ == end.outcome()
            &&& columns_wf(columns@)
            &&& column_texts(columns@) == end.columns()
        },
        Err(error) => bytes.len() == 0 && error is EmptyFile,
    }
}

/// Progress never changes the result. Wherever a pass over a file with
/// `progress` has stopped, going on from there gives what a parse in one go
/// gives. What is reported until then differs from that only in the numbers of
/// rows, and each column holds exactly the rows read so far: a true beginning
/// of the whole column.
pub proof fn law_progress_does_not_change_the_parse(
    bytes: Seq<u8>,
    overrides: IngestOverrides,
    progress: ScanState,
    parsed: Result<(CsvParseOutcome, Vec<ColumnText>)>,
)
    requires
        bytes.len() > 0,
        progress == (ScanState { at: progress.at, ..scan_of(bytes, Capture::All, overrides) }),
        0 <= progress.at <= progress.rows.len(),
        is_parse_of(parsed, bytes, Capture::All, overrides),
    ensures
        parsed matches Ok((outcome, columns)) && {
            let end = ScanState { at: progress.rows.len() as int, ..progress };
            &&& outcome@ == end.outcome()
            &&& column_texts(columns@) == end.columns()
            &&& progress.outcome() == (Outcome {
                row_count: progress.outcome().row_count,
                skipped_row_count: progress.outcome().skipped_row_count,
                ..outcome@
            })
            &&& progress.columns().len() == columns@.len()
            &&& forall|j: int|
                0 <= j < columns@.len() ==> {
                    &&& (#[trigger] progress.columns()[j]).len() == progress.outcome().row_count
                    &&& progress.columns()[j].is_prefix_of(columns@[j]@)
                }
        },
{
    let start = scan_of(bytes, Capture::All, overrides);
    law_stopping_does_not_change_the_result(start, progress.at);
    match parsed {
        Ok((outcome, columns)) => {
            let end = ScanState { at: progress.rows.len() as int, ..progress };
            assert(column_texts(columns@) == end.columns());
            assert forall|j: int| 0 <= j < columns@.len() implies {
                &&& (#[trigger] progress.columns()[j]).len() == progress.outcome().row_count
                &&& progress.columns()[j].is_prefix_of(columns@[j]@)
            } by {
                assert(column_texts(columns@)[j] == columns@[j]@);
                assert(end.columns()[j] == columns@[j]@);
            }
        },
        Err(_) => {},
    }
}

fn parse_impl(bytes: &[u8], capture: Capture, overrides: IngestOverrides) -> (result: Result<
    (CsvParseOutcome, Vec<ColumnText>),
>)
    requires
        bytes@.len() <= usize::MAX / 8,
    ensures
        is_parse_of(result, bytes@, capture, overrides),
{
    match begin_scan(bytes, capture, overrides) {
        Ok(scan) => Ok(scan.finish()),
        Err(error) => Err(error),
    }
}

/// Parses a file and reports what it is and how many rows it has.
pub fn parse(bytes: &[u8]) -> (result: Result<CsvParseOutcome>)
    requires
        bytes@.len() <= usize::MAX / 8,
    ensures
        match result {
            Ok(outcome) => bytes@.len() > 0 && outcome@ == finished_scan_of(
                bytes@,
                Capture::Nothing,
                IngestOverrides::none_spec(),
            ).outcome(),
            Err(error) => bytes@.len() == 0 && error is EmptyFile,
        },
{
    match parse_impl(bytes, Capture::Nothing, IngestOverrides::default()) {
        Ok((outcome, _)) => Ok(outcome),
        Err(error) => Err(error),
    }
}

/// Parses a file and captures the text of one column.
pub fn parse_capturing_column(bytes: &[u8], column_index: usize) -> (result: Result<
    (CsvParseOutcome, ColumnText),
>)
    requires
        bytes@.len() <= usize::MAX / 8,
    ensures
        ({
            let end = finished_scan_of(
                bytes@,
                Capture::Column(column_index),
                IngestOverrides::none_spec(),
            );
            match result {
                Ok((outcome, column)) => {
                    &&& bytes@.len() > 0
                    &&& outcome@ == end.outcome()
                    &&& column.wf()
                    &&& column@ == end.columns()[0]
                },
                Err(error) => bytes@.len() == 0 && error is EmptyFile,
            }
        }),
{
    match parse_impl(bytes, Capture::Column(column_index), IngestOverrides::default()) {
        Ok((outcome, columns)) => {
            let mut columns: Vec<ColumnText> = columns;
            assert(column_texts(columns@).len() == 1);
            assert(column_texts(columns@)[0] == columns@[0]@);
            match columns.pop() {
                Some(column) => Ok((outcome, column)),
                None => Ok((outcome, ColumnText::new())),
            }
        },
        Err(error) => Err(error),
    }
}

/// Parses a file and captures the text of every column.
pub fn parse_capturing_all_columns(bytes: &[u8], overrides: IngestOverrides) -> (result: Result<
    (CsvParseOutcome, Vec<ColumnText>),
>)
    requires
        bytes@.len() <= usize::MAX / 8,
    ensures
        is_parse_of(result, bytes@, Capture::All, overrides),
{
    parse_impl(bytes, Capture::All, overrides)
}

/// Begins a pass that captures the text of every column and stops at each
/// checkpoint, for the caller to look at what there is.
pub fn parse_capturing_all_columns_with_progress(
    bytes: &[u8],
    overrides: IngestOverrides,
) -> (scan: Result<CsvScan>)
    requires
        bytes@.len() <= usize::MAX / 8,
    ensures
        match scan {
            Ok(scan) => bytes@.len() > 0 && scan.wf() && scan@ == scan_of(
                bytes@,
                Capture::All,
                overrides,
            ),
            Err(error) => bytes@.len() == 0 && error is EmptyFile,
        },
{
    begin_scan(bytes, Capture::All, overrides)
}

/// Parses the contents of the file at `path`, or reports why they could not be
/// read.
pub fn open_path(path: &str, contents: core::result::Result<Vec<u8>, String>) -> (result: Result<
    CsvParseOutcome,
>)
    requires
        contents matches Ok(bytes) ==> bytes@.len() <= usize::MAX / 8,
    ensures
        match (contents, result) {
            (Ok(bytes), Ok(outcome)) => bytes@.len() > 0 && outcome@ == finished_scan_of(
                bytes@,
                Capture::Nothing,
                IngestOverrides::none_spec(),
            ).outcome(),
            (Ok(bytes), Err(error)) => bytes@.len() == 0 && error is EmptyFile,
            (Err(reason), Err(error)) => is_io_error(error, path@, reason@),
            _ => false,
        },
{
    match contents {
        Ok(bytes) => parse(bytes.as_slice()),
        Err(reason) => Err(GlydeError::Io { path: path.to_owned(), source: reason }),
    }
}

/// The error says that `path` could not be read, and why.
pub open spec fn is_io_error(error: GlydeError, path: Seq<char>, reason: Seq<char>) -> bool {
    error matches GlydeError::Io { path: named, source } && named@ == path && source@ == reason
}

} // verus!
