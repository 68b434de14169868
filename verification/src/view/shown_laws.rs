//! Which columns are shown and in what extent, and what a correction changes.

use vstd::prelude::*;
use crate::index::level0::Level0Cache;
use crate::ingest::dataset::Dataset;
use crate::ingest::infer::{Confidence, Delimiter};
use crate::ingest::overrides::IngestOverrides;
use crate::ingest::report;
use crate::ingest::report::{InferredField, SamplingClass};
use crate::series::dtype::Dtype;
use crate::series::samples;
use crate::series::value;
use crate::series::Series;
use crate::text;
use crate::time::format::Timestamp;
use crate::view::inference_bar;
use crate::view::inference_bar::Correction;
use crate::view::status;
use crate::view::status::{IndexingMessage, Status};
use crate::view::time;

verus! {

/// A column of numbers: one that is neither of flags nor of text.
pub open spec fn is_numeric(series: Series) -> bool {
    series.values_spec()@.dtype() != Dtype::Bool && series.values_spec()@.dtype() != Dtype::String
}

/// Every column of numbers is drawn, in the order of the table, and no other is.
pub proof fn law_columns_of_numbers_are_drawn(columns: Seq<Series>, n: int)
    requires
        0 <= n <= columns.len(),
    ensures
        forall|i: int, j: int|
            0 <= i < j < time::drawn_columns(columns, n).len() ==> time::drawn_columns(
                columns,
                n,
            )[i] < time::drawn_columns(columns, n)[j],
        forall|c: int| #[trigger]
            time::drawn_columns(columns, n).contains(c) <==> 0 <= c < n && is_numeric(columns[c]),
    decreases n,
{
    if n > 0 {
        law_columns_of_numbers_are_drawn(columns, n - 1);
        let before = time::drawn_columns(columns, n - 1);
        let now = time::drawn_columns(columns, n);
        assert forall|i: int| 0 <= i < before.len() implies #[trigger] before[i] < n - 1 by {
            assert(before.contains(before[i]));
        }
        assert forall|c: int| #[trigger]
            now.contains(c) <==> 0 <= c < n && is_numeric(columns[c]) by {
            if now.contains(c) {
                let i = choose|i: int| 0 <= i < now.len() && now[i] == c;
                if i < before.len() {
                    assert(before[i] == c);
                    assert(before.contains(c));
                }
            }
            if 0 <= c < n && is_numeric(columns[c]) {
                if c < n - 1 {
                    assert(before.contains(c));
                    let i = choose|i: int| 0 <= i < before.len() && before[i] == c;
                    assert(now[i] == c);
                } else {
                    assert(now[before.len() as int] == c);
                }
            }
        }
    }
}

/// A finite sample of one of the first columns that are drawn.
pub open spec fn is_shown(columns: Seq<Series>, n: int, c: int, i: int) -> bool {
    let values = columns[c].values_spec()@;
    &&& 0 <= c < n
    &&& is_numeric(columns[c])
    &&& 0 <= i < values.len()
    &&& value::is_finite_spec(samples::promotions(values)[i])
}

/// The pattern of a sample of a column.
pub open spec fn shown_bits(columns: Seq<Series>, c: int, i: int) -> u64 {
    samples::promotions(columns[c].values_spec()@)[i]
}

proof fn lemma_widened(extent: Option<(u64, u64)>, values: Seq<u64>, n: int)
    requires
        0 <= n <= values.len(),
    ensures
        ({
            let wide = time::widened(extent, values, n);
            &&& wide is None <==> extent is None && forall|i: int|
                0 <= i < n ==> !value::is_finite_spec(#[trigger] values[i])
            &&& wide matches Some((low, high)) ==> {
                &&& extent matches Some((from, to)) ==> value::order_key(low) <= value::order_key(
                    from,
                ) && value::order_key(to) <= value::order_key(high)
                &&& forall|i: int|
                    0 <= i < n && value::is_finite_spec(#[trigger] values[i]) ==> value::order_key(
                        low,
                    ) <= value::order_key(values[i]) <= value::order_key(high)
                &&& (extent matches Some((from, _)) && low == from) || exists|i: int|
                    0 <= i < n && value::is_finite_spec(values[i]) && #[trigger] values[i] == low
                &&& (extent matches Some((_, to)) && high == to) || exists|i: int|
                    0 <= i < n && value::is_finite_spec(values[i]) && #[trigger] values[i] == high
            }
        }),
    decreases n,
{
    if n > 0 {
        lemma_widened(extent, values, n - 1);
        let before = time::widened(extent, values, n - 1);
        let next = values[n - 1];
        let wide = time::widened(extent, values, n);
        match before {
            Some((low, high)) => {
                if !(extent matches Some((from, _)) && low == from) {
                    let i = choose|i: int|
                        0 <= i < n - 1 && value::is_finite_spec(values[i]) && #[trigger] values[i]
                            == low;
                    assert(values[i] == low);
                }
                if !(extent matches Some((_, to)) && high == to) {
                    let i = choose|i: int|
                        0 <= i < n - 1 && value::is_finite_spec(values[i]) && #[trigger] values[i]
                            == high;
                    assert(values[i] == high);
                }
            },
            None => {},
        }
        if value::is_finite_spec(next) {
            assert(values[n - 1] == next);
            assert(wide is Some);
        }
    }
}

/// The extent of a table is from the smallest to the largest finite sample of the
/// columns that are drawn. Without any there is none.
pub proof fn law_extent_is_that_of_the_drawn_columns(columns: Seq<Series>, n: int)
    requires
        0 <= n <= columns.len(),
    ensures
        match time::columns_extent(columns, n) {
            None => forall|c: int, i: int| !#[trigger] is_shown(columns, n, c, i),
            Some((low, high)) => {
                &&& forall|c: int, i: int| #[trigger]
                    is_shown(columns, n, c, i) ==> value::order_key(low) <= value::order_key(
                        shown_bits(columns, c, i),
                    ) <= value::order_key(high)
                &&& exists|c: int, i: int| #[trigger]
                    is_shown(columns, n, c, i) && shown_bits(columns, c, i) == low
                &&& exists|c: int, i: int| #[trigger]
                    is_shown(columns, n, c, i) && shown_bits(columns, c, i) == high
            },
        },
    decreases n,
{
    if n > 0 {
        law_extent_is_that_of_the_drawn_columns(columns, n - 1);
        let before = time::columns_extent(columns, n - 1);
        let wide = time::columns_extent(columns, n);
        let values = columns[n - 1].values_spec()@;
        let bits = samples::promotions(values);
        match before {
            Some((low, high)) => {
                let (c, i) = choose|c: int, i: int| #[trigger]
                    is_shown(columns, n - 1, c, i) && shown_bits(columns, c, i) == low;
                assert(is_shown(columns, n, c, i));
                let (d, j) = choose|c: int, i: int| #[trigger]
                    is_shown(columns, n - 1, c, i) && shown_bits(columns, c, i) == high;
                assert(is_shown(columns, n, d, j));
            },
            None => {},
        }
        assert forall|c: int, i: int| #[trigger]
            is_shown(columns, n, c, i) && c < n - 1 implies is_shown(columns, n - 1, c, i) by {}
        if is_numeric(columns[n - 1]) {
            lemma_widened(before, bits, values.len() as int);
            assert forall|c: int, i: int| #[trigger]
                is_shown(columns, n, c, i) implies wide is Some by {
                if c < n - 1 {
                    assert(is_shown(columns, n - 1, c, i));
                } else {
                    assert(value::is_finite_spec(bits[i]));
                }
            }
            match wide {
                Some((low, high)) => {
                    assert forall|c: int, i: int| #[trigger]
                        is_shown(columns, n, c, i) implies value::order_key(low)
                        <= value::order_key(shown_bits(columns, c, i)) <= value::order_key(
                        high,
                    ) by {
                        if c < n - 1 {
                            assert(is_shown(columns, n - 1, c, i));
                        } else {
                            assert(value::is_finite_spec(bits[i]));
                        }
                    }
                    if !(before matches Some((from, _)) && low == from) {
                        let i = choose|i: int|
                            0 <= i < values.len() && value::is_finite_spec(bits[i])
                                && #[trigger] bits[i] == low;
                        assert(is_shown(columns, n, n - 1, i));
                    }
                    if !(before matches Some((_, to)) && high == to) {
                        let i = choose|i: int|
                            0 <= i < values.len() && value::is_finite_spec(bits[i])
                                && #[trigger] bits[i] == high;
                        assert(is_shown(columns, n, n - 1, i));
                    }
                },
                None => {},
            }
        }
    } else {
        assert forall|c: int, i: int| !#[trigger] is_shown(columns, 0, c, i) by {}
    }
}

/// A correction sets what it corrects and nothing else.
pub proof fn law_a_correction_changes_one_thing(overrides: IngestOverrides, correction: Correction)
    ensures
        ({
            let made = status::corrected(overrides, correction);
            match correction {
                Correction::Delimiter(delimiter) => {
                    &&& made.delimiter == Some(delimiter)
                    &&& made.decimal_separator == overrides.decimal_separator
                    &&& made.timestamp_format == overrides.timestamp_format
                },
                Correction::DecimalSeparator(separator) => {
                    &&& made.decimal_separator == Some(separator)
                    &&& made.delimiter == overrides.delimiter
                    &&& made.timestamp_format == overrides.timestamp_format
                },
                Correction::TimestampFormat(format) => {
                    &&& made.timestamp_format == Some(format)
                    &&& made.delimiter == overrides.delimiter
                    &&& made.decimal_separator == overrides.decimal_separator
                },
            }
        }),
{
}

/// Delimiters are offered where the inference is not sure: each of the four once,
/// with the one in use marked and no other.
pub proof fn law_unsure_delimiters_are_offered(
    field: InferredField<Option<String>>,
    used: Delimiter,
)
    requires
        report::text_view(field.value) == Some(used.label()),
        used != Delimiter::Whitespace,
    ensures
        ({
            let choices = inference_bar::delimiter_choices_of(field);
            &&& field.confidence == Confidence::High ==> choices.len() == 0
            &&& field.confidence == Confidence::Low ==> {
                &&& choices.len() == 4
                &&& choices[0].delimiter == Delimiter::Comma
                &&& choices[1].delimiter == Delimiter::Semicolon
                &&& choices[2].delimiter == Delimiter::Tab
                &&& choices[3].delimiter == Delimiter::Pipe
                &&& forall|i: int|
                    0 <= i < 4 ==> ((#[trigger] choices[i]).is_current <==> choices[i].delimiter
                        == used)
            }
        }),
{
    let at: int = match used {
        Delimiter::Comma => 0,
        Delimiter::Semicolon => 1,
        Delimiter::Tab => 2,
        _ => 3,
    };
    inference_bar::law_delimiter_labels_read_back(at);
}

/// A column is drawn from its cached samples if it has any, and else from its own.
pub proof fn law_cached_samples_are_drawn(
    dataset: Dataset,
    caches: Seq<Option<Level0Cache>>,
    c: int,
)
    requires
        0 <= c < dataset.columns@.len(),
    ensures
        c < caches.len() && caches[c] is Some ==> time::drawn_samples(dataset, caches, c)
            == caches[c]->0@.1,
        c >= caches.len() || caches[c] is None ==> time::drawn_samples(dataset, caches, c)
            == samples::promotions(dataset.columns@[c].values_spec()@),
{
}

/// Every column of numbers that are not floating point numbers already has a copy
/// that is, and no other column has one.
pub proof fn law_integers_are_copied_as_numbers(
    copies: Seq<Option<Vec<u64>>>,
    dataset: Dataset,
    c: int,
)
    requires
        time::are_converted(copies, dataset),
        0 <= c < dataset.columns@.len(),
    ensures
        copies.len() == dataset.columns@.len(),
        copies[c] is Some <==> is_numeric(dataset.columns@[c]) && !(
        dataset.columns@[c].values_spec() is F64),
        copies[c] matches Some(copy) ==> copy@ == samples::promotions(
            dataset.columns@[c].values_spec()@,
        ),
{
}

/// The line above a report says of one sample and of more samples in the right
/// number, and says last if something is unsure.
pub proof fn law_headers_count_samples(count: int, class: SamplingClass)
    ensures
        ({
            let sure = inference_bar::header_of_report(count, class, false);
            let unsure = inference_bar::header_of_report(count, class, true);
            &&& unsure == sure + " (low confidence \u{2014} review below)"@
            &&& count == 1 ==> sure == "Inference \u{2014} "@ + text::decimal_text(1) + " sample, "@
                + inference_bar::class_name(class)
            &&& count != 1 ==> sure == "Inference \u{2014} "@ + text::decimal_text(count)
                + " samples, "@ + inference_bar::class_name(class)
        }),
{
    let sure = inference_bar::header_of_report(count, class, false);
    let none: Seq<char> = Seq::empty();
    assert(sure + none =~= sure);
    assert(inference_bar::header_of_report(count, class, true) =~= sure
        + " (low confidence \u{2014} review below)"@);
}

/// While a file is read, the part of it that has come is shown as it came, with the
/// ticks of its axis and its count of rows.
pub proof fn law_progress_is_shown_as_it_comes(shown: Status, message: IndexingMessage)
    requires
        message is Progress,
        status::reflects(shown, message),
    ensures
        shown matches Status::Loading { path, partial: Some(partial) } && {
            &&& path == message->Progress_path
            &&& partial.dataset == message->Progress_dataset
            &&& partial.pyramids == message->Progress_pyramids
            &&& partial.rows_read == message->rows_read
            &&& partial.spilled == message->spilled
            &&& partial.ticks@.len() == partial.dataset.time@.len()
            &&& partial.ticks@ == partial.dataset.time@.pyramid_ticks()
            &&& partial.sample_cache@.len() == partial.dataset.columns@.len()
        },
{
}

/// A file that has been read is shown with all that was read and told of it.
pub proof fn law_a_file_is_shown_as_it_was_read(shown: Status, message: IndexingMessage)
    requires
        message is Completed,
        status::reflects(shown, message),
    ensures
        shown is Loaded,
        shown->Loaded_path == message->Completed_path,
        shown->summary == message->summary,
        shown->report == message->report,
        shown->dataset == message->Completed_dataset,
        shown->pyramids == message->Completed_pyramids,
        shown->level0_caches == message->level0_caches,
        shown->ticks@ == message->Completed_dataset.time@.pyramid_ticks(),
        shown->sample_cache@.len() == message->Completed_dataset.columns@.len(),
{
}

/// A file that is begun shows nothing yet, and one that failed shows why.
pub proof fn law_beginnings_and_failures_are_shown(shown: Status, message: IndexingMessage)
    requires
        status::reflects(shown, message),
    ensures
        message matches IndexingMessage::Started { path, .. } ==> shown == (Status::Loading {
            path,
            partial: None,
        }),
        message matches IndexingMessage::Failed { path, message: why, .. } ==> shown
            == (Status::Failed { path, message: why }),
{
}

/// Corrections belong to the file that they were made for. Another file starts with
/// none.
pub proof fn law_another_file_has_no_corrections(
    overrides: IngestOverrides,
    corrected: Seq<char>,
    path: Seq<char>,
)
    ensures
        status::corrections_for(overrides, Some(path), path) == overrides,
        corrected != path ==> status::corrections_for(overrides, Some(corrected), path) == (
        IngestOverrides { delimiter: None, decimal_separator: None, timestamp_format: None }),
        status::corrections_for(overrides, None, path) == (IngestOverrides {
            delimiter: None,
            decimal_separator: None,
            timestamp_format: None,
        }),
{
}

/// A message answers the request whose number it carries.
pub proof fn law_messages_carry_their_number(message: IndexingMessage)
    ensures
        message matches IndexingMessage::Started { generation, .. } ==> message.generation_spec()
            == generation,
        message matches IndexingMessage::Progress { generation, .. } ==> message.generation_spec()
            == generation,
        message matches IndexingMessage::Completed { generation, .. } ==> message.generation_spec()
            == generation,
        message matches IndexingMessage::Failed { generation, .. } ==> message.generation_spec()
            == generation,
{
}

/// A mark stands at its own tick, in the unit and with the offset of the sample
/// next to it.
pub proof fn law_marks_stand_at_their_tick(timestamps: Seq<Timestamp>, tick: i128, nearest: int)
    requires
        0 <= nearest < timestamps.len(),
    ensures
        time::marked(timestamps, tick, nearest).ticks == tick,
        time::marked(timestamps, tick, nearest).unit == timestamps[nearest].unit,
        time::marked(timestamps, tick, nearest).offset_seconds
            == timestamps[nearest].offset_seconds,
{
}

} // verus!
