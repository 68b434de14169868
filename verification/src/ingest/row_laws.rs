//! Which rows of a file come into its table, said row by row.

use vstd::arithmetic::power2::{lemma2_to64, lemma_pow2_unfold};
use vstd::prelude::*;
use crate::error::Result;
use crate::ingest::column_text::ColumnText;
use crate::ingest::csv;
use crate::ingest::csv::{Capture, CsvParseOutcome, ScanState};
use crate::ingest::encoding;
use crate::ingest::head;
use crate::ingest::infer;
use crate::ingest::infer::{Confidence, Delimiter};
use crate::ingest::overrides::IngestOverrides;

verus! {

/// `places` are the places of the rows from `from` to before `to` that could be
/// read and have `width` fields, in the order of the rows, and of no others.
pub open spec fn are_places_of_rows(
    places: Seq<int>,
    rows: Seq<Option<Seq<Seq<char>>>>,
    from: int,
    to: int,
    width: int,
) -> bool {
    &&& forall|i: int, j: int| 0 <= i < j < places.len() ==> places[i] < places[j]
    &&& forall|i: int|
        0 <= i < places.len() ==> from <= #[trigger] places[i] < to && rows[places[i]] is Some
            && rows[places[i]]->0.len() == width
    &&& forall|row: int|
        from <= row < to && (#[trigger] rows[row]) is Some && rows[row]->0.len() == width
            ==> places.contains(row)
}

proof fn lemma_places(
    rows: Seq<Option<Seq<Seq<char>>>>,
    first: int,
    width: int,
    n: int,
) -> (places: Seq<int>)
    requires
        0 <= first,
        0 <= n <= rows.len(),
    ensures
        are_places_of_rows(places, rows, first, n, width),
        csv::kept_rows(rows, first, width, n).len() == places.len(),
        forall|i: int|
            0 <= i < places.len() ==> #[trigger] csv::kept_rows(rows, first, width, n)[i]
                == rows[places[i]]->0,
        csv::skipped_rows(rows, first, width, n) == (if n <= first {
            0
        } else {
            n - first
        }) - places.len(),
    decreases n,
{
    if n <= first || n <= 0 {
        Seq::empty()
    } else {
        let before = lemma_places(rows, first, width, n - 1);
        let last = rows[n - 1];
        if last is Some && last->0.len() == width {
            let places = before.push(n - 1);
            assert forall|row: int|
                first <= row < n && (#[trigger] rows[row]) is Some && rows[row]->0.len()
                    == width implies places.contains(row) by {
                if row < n - 1 {
                    let i = choose|i: int| 0 <= i < before.len() && before[i] == row;
                    assert(places[i] == row);
                } else {
                    assert(places[before.len() as int] == row);
                }
            }
            places
        } else {
            before
        }
    }
}

/// Of the rows read so far, those behind the header that could be read and have
/// as many fields as there are columns are kept, whatever their fields hold, and
/// in their order. All other rows behind the header are counted as skipped.
pub proof fn law_rows_of_the_width_are_kept(state: ScanState, first: int) -> (places: Seq<int>)
    requires
        0 <= state.at <= state.rows.len(),
        match state.sniff.header.row {
            Some(row) => 0 <= row && first == row + 1,
            None => 0 <= state.sniff.header.skipped && first == state.sniff.header.skipped,
        },
    ensures
        ({
            let width = state.sniff.header.names.len();
            let outcome = state.outcome();
            &&& are_places_of_rows(places, state.rows, first, state.at, width as int)
            &&& outcome.row_count == places.len()
            &&& outcome.row_count + outcome.skipped_row_count == (if state.at <= first {
                0
            } else {
                state.at - first
            })
            &&& outcome.column_names == state.sniff.header.names
            &&& state.capture is All ==> {
                &&& state.columns().len() == width
                &&& forall|c: int|
                    0 <= c < width ==> (#[trigger] state.columns()[c]).len() == places.len()
                &&& forall|c: int, i: int|
                    0 <= c < width && 0 <= i < places.len() ==> #[trigger] state.columns()[c][i]
                        == state.rows[places[i]]->0[c]
            }
            &&& state.capture matches Capture::Column(index) ==> {
                &&& state.columns().len() == 1
                &&& state.columns()[0].len() == (if index < width {
                    places.len()
                } else {
                    0
                })
                &&& index < width ==> forall|i: int|
                    0 <= i < places.len() ==> #[trigger] state.columns()[0][i]
                        == state.rows[places[i]]->0[index as int]
            }
            &&& state.capture is Nothing ==> state.columns().len() == 0
        }),
{
    lemma_places(state.rows, first, state.width(), state.at)
}

/// A parse keeps every row of the file behind the header that could be read and
/// has as many fields as there are columns: the text of each of its fields stands
/// in the column of its place, rows in their order. The rows that could not be
/// read or have another number of fields are counted.
pub proof fn law_parse_keeps_every_row_of_the_width(
    bytes: Seq<u8>,
    overrides: IngestOverrides,
    parsed: Result<(CsvParseOutcome, Vec<ColumnText>)>,
) -> (places: Seq<int>)
    requires
        bytes.len() > 0,
        csv::is_parse_of(parsed, bytes, Capture::All, overrides),
    ensures
        parsed matches Ok((outcome, columns)) && {
            let text = csv::file_text(bytes);
            let header = infer::header_in(
                infer::records_of(head::head_sample(text), outcome.delimiter),
            );
            let rows = csv::all_rows(text, outcome.delimiter);
            let first = match header.row {
                Some(row) => row + 1,
                None => header.skipped,
            };
            let width = header.names.len();
            &&& outcome@.column_names == header.names
            &&& are_places_of_rows(places, rows, first, rows.len() as int, width as int)
            &&& outcome.row_count == places.len()
            &&& outcome.row_count + outcome.skipped_row_count == (if rows.len() <= first {
                0
            } else {
                rows.len() - first
            })
            &&& columns@.len() == width
            &&& forall|c: int|
                0 <= c < width ==> (#[trigger] columns@[c])@.len() == places.len()
            &&& forall|c: int, i: int|
                0 <= c < width && 0 <= i < places.len() ==> #[trigger] columns@[c]@[i]
                    == rows[places[i]]->0[c]
        },
{
    let end = csv::finished_scan_of(bytes, Capture::All, overrides);
    let text = csv::file_text(bytes);
    let records = infer::records_of(head::head_sample(text), end.sniff.delimiter);
    infer::law_header_is_the_last_label_row_of_the_data_width(records);
    let header = infer::header_in(records);
    let first = match header.row {
        Some(row) => row + 1,
        None => header.skipped,
    };
    let places = law_rows_of_the_width_are_kept(end, first);
    let (outcome, columns) = parsed->Ok_0;
    assert(outcome@ == end.outcome());
    assert(outcome@.delimiter == end.sniff.delimiter);
    assert(csv::column_texts(columns@).len() == columns@.len());
    assert forall|c: int| 0 <= c < columns@.len() implies (#[trigger] columns@[c])@
        == end.columns()[c] by {
        assert(csv::column_texts(columns@)[c] == columns@[c]@);
    }
    places
}

/// How a file is read is what its user said, and where nothing was said, what its
/// head suggests.
pub proof fn law_corrections_come_first(bytes: Seq<u8>, capture: Capture, overrides: IngestOverrides)
    ensures
        ({
            let end = csv::finished_scan_of(bytes, capture, overrides);
            let none = csv::finished_scan_of(
                bytes,
                capture,
                IngestOverrides { delimiter: None, decimal_separator: None, ..overrides },
            );
            &&& overrides.delimiter matches Some(delimiter) ==> end.outcome().delimiter == delimiter
            &&& overrides.delimiter is None ==> end.outcome().delimiter == none.outcome().delimiter
            &&& overrides.decimal_separator matches Some(separator)
                ==> end.outcome().decimal_separator == separator
            &&& overrides.decimal_separator is None && overrides.delimiter is None
                ==> end.outcome().decimal_separator == none.outcome().decimal_separator
            &&& overrides.delimiter is None && overrides.decimal_separator is Some ==> end.rows
                == none.rows && end.kept() == none.kept()
        }),
{
}

/// What the head of a file suggests is looked for in its records: the separator of
/// its numbers and its header in the records of the delimiter that is used.
pub proof fn law_the_head_decides(bytes: Seq<u8>, capture: Capture, overrides: IngestOverrides)
    requires
        overrides.decimal_separator is None,
    ensures
        ({
            let text = encoding::decoded_text(
                bytes,
                encoding::inferred_encoding(bytes).encoding.label_spec(),
            );
            let end = csv::finished_scan_of(bytes, capture, overrides);
            let records = infer::records_of(head::head_sample(text), end.outcome().delimiter);
            &&& end.outcome().decimal_separator == infer::elected_separator(records).separator
            &&& end.outcome().column_names == infer::header_in(records).names
            &&& end.outcome().header_ambiguous == infer::header_in(records).ambiguous
            &&& overrides.delimiter is None ==> end.outcome().delimiter == infer::chosen_delimiter(
                infer::candidate_scores(head::head_sample(text), 5),
            ).delimiter
        }),
{
}

proof fn lemma_doublings(from: int, k: nat, kept: int)
    requires
        from == 20_000 * vstd::arithmetic::power2::pow2(k),
        0 < from < u64::MAX,
        k > 0 ==> 20_000 * vstd::arithmetic::power2::pow2((k - 1) as nat) <= kept,
    ensures
        ({
            let next = csv::next_threshold(from, kept);
            (next == u64::MAX && 2 * kept >= u64::MAX) || (kept < next && exists|n: nat|
                next == 20_000 * #[trigger] vstd::arithmetic::power2::pow2(n) && (n > 0 ==> 20_000
                    * vstd::arithmetic::power2::pow2((n - 1) as nat) <= kept))
        }),
    decreases u64::MAX - from,
{
    reveal_with_fuel(csv::next_threshold, 2);
    if kept >= from {
        lemma_pow2_unfold(k + 1);
        if 2 * from < u64::MAX {
            lemma_doublings(2 * from, k + 1, kept);
        }
    }
}

/// The rows that are shown while a file is read stop at twenty thousand, and then
/// at each doubling of that: the next stop is the first of these numbers that is
/// larger than the number of rows kept. Past the largest number that can be counted
/// to there is no further stop.
pub proof fn law_stops_double(kept: int)
    requires
        0 <= kept,
    ensures
        ({
            let next = csv::checkpoint_after(kept);
            (next == u64::MAX && 2 * kept >= u64::MAX) || (kept < next && exists|n: nat|
                next == 20_000 * #[trigger] vstd::arithmetic::power2::pow2(n) && (n > 0 ==> 20_000
                    * vstd::arithmetic::power2::pow2((n - 1) as nat) <= kept))
        }),
{
    lemma2_to64();
    lemma_doublings(20_000, 0, kept);
}

/// How sure the reading of a file is: of what its user said, entirely; of what its
/// head suggests, as sure as that.
pub proof fn law_a_file_is_read_as_surely_as_its_head(
    bytes: Seq<u8>,
    capture: Capture,
    overrides: IngestOverrides,
)
    ensures
        ({
            let found = encoding::inferred_encoding(bytes);
            let text = encoding::decoded_text(bytes, found.encoding.label_spec());
            let outcome = csv::finished_scan_of(bytes, capture, overrides).outcome();
            let records = infer::records_of(head::head_sample(text), outcome.delimiter);
            &&& outcome.encoding_label == found.encoding.label_spec()
            &&& outcome.encoding_confidence == found.confidence_spec()
            &&& outcome.delimiter_confidence == (if overrides.delimiter is Some {
                Confidence::High
            } else {
                infer::chosen_delimiter(
                    infer::candidate_scores(head::head_sample(text), 5),
                ).confidence_spec()
            })
            &&& outcome.decimal_separator_confidence == (if overrides.decimal_separator is Some {
                Confidence::High
            } else {
                infer::elected_separator(records).confidence_spec()
            })
        }),
{
}

/// The rows of a file are all of its records, none taken for a header and of
/// whatever number of fields, split at the character of the delimiter. White space
/// splits lines into words, and every line with a word is a row.
pub proof fn law_rows_are_all_records(text: Seq<char>, i: int)
    ensures
        csv::all_rows(text, Delimiter::Comma) == infer::csv_records(text, ',' as u8, false, true),
        csv::all_rows(text, Delimiter::Semicolon) == infer::csv_records(
            text,
            ';' as u8,
            false,
            true,
        ),
        csv::all_rows(text, Delimiter::Tab) == infer::csv_records(text, '\t' as u8, false, true),
        csv::all_rows(text, Delimiter::Pipe) == infer::csv_records(text, '|' as u8, false, true),
        csv::all_rows(text, Delimiter::Whitespace).len() == infer::whitespace_records(text).len(),
        0 <= i < infer::whitespace_records(text).len() ==> csv::all_rows(
            text,
            Delimiter::Whitespace,
        )[i] == Some(infer::whitespace_records(text)[i]),
{
}

} // verus!
