//! What a delimited text file looks like, inferred from a bounded part of it:
//! its delimiter, its header, its decimal separator.

use vstd::prelude::*;
use crate::text;
use crate::text::{chars_of, find, is_number, is_space, push_decimal, push_text, string_of, trim};

verus! {

/// How sure an inference is.
#[derive(Debug, Clone, Copy, PartialEq, Eq, Structural)]
pub enum Confidence {
    /// Nothing spoke against it.
    High,
    /// Another answer would have been as good.
    Low,
}

/// What separates the fields of a line.
#[derive(Debug, Clone, Copy, PartialEq, Eq, Hash, Structural)]
pub enum Delimiter {
    Comma,
    Semicolon,
    Tab,
    Pipe,
    /// Any run of white space.
    Whitespace,
}

impl Delimiter {
    /// The delimiter as it is shown.
    pub open spec fn label(self) -> Seq<char> {
        match self {
            Delimiter::Comma => ","@,
            Delimiter::Semicolon => ";"@,
            Delimiter::Tab => "\t"@,
            Delimiter::Pipe => "|"@,
            Delimiter::Whitespace => " "@,
        }
    }

    /// The one byte it consists of; white space is not one byte.
    pub open spec fn byte(self) -> Option<u8> {
        match self {
            Delimiter::Comma => Some(0x2c),
            Delimiter::Semicolon => Some(0x3b),
            Delimiter::Tab => Some(0x09),
            Delimiter::Pipe => Some(0x7c),
            Delimiter::Whitespace => None,
        }
    }

    /// The delimiter as it is shown.
    pub fn as_str(self) -> (label: &'static str)
        ensures
            label@ == self.label(),
    {
        match self {
            Delimiter::Comma => ",",
            Delimiter::Semicolon => ";",
            Delimiter::Tab => "\t",
            Delimiter::Pipe => "|",
            Delimiter::Whitespace => " ",
        }
    }

    /// The byte that a quote-aware tokenizer splits at, or `None` for white
    /// space.
    pub fn as_csv_byte(self) -> (byte: Option<u8>)
        ensures
            byte == self.byte(),
    {
        match self {
            Delimiter::Comma => Some(0x2c),
            Delimiter::Semicolon => Some(0x3b),
            Delimiter::Tab => Some(0x09),
            Delimiter::Pipe => Some(0x7c),
            Delimiter::Whitespace => None,
        }
    }
}

/// The candidates for a delimiter, the first of equally good ones winning.
pub open spec fn delimiter_candidates() -> Seq<Delimiter> {
    seq![
        Delimiter::Comma,
        Delimiter::Semicolon,
        Delimiter::Tab,
        Delimiter::Pipe,
        Delimiter::Whitespace,
    ]
}

/// A part of a whole.
#[derive(Debug, Clone, Copy, PartialEq, Eq, Structural)]
pub struct Ratio {
    pub part: usize,
    pub whole: usize,
}

impl Ratio {
    /// The ratio is larger than `other`.
    pub open spec fn exceeds(self, other: Ratio) -> bool {
        self.part * other.whole > other.part * self.whole
    }

    /// Whether the ratio is larger than `other`.
    pub fn is_larger_than(self, other: Ratio) -> (larger: bool)
        ensures
            larger == self.exceeds(other),
    {
        proof {
            assert(self.part * other.whole <= u128::MAX) by (nonlinear_arith)
                requires
                    0 <= self.part <= 0xffff_ffff_ffff_ffff,
                    0 <= other.whole <= 0xffff_ffff_ffff_ffff,
            ;
            assert(other.part * self.whole <= u128::MAX) by (nonlinear_arith)
                requires
                    0 <= other.part <= 0xffff_ffff_ffff_ffff,
                    0 <= self.whole <= 0xffff_ffff_ffff_ffff,
            ;
        }
        (self.part as u128) * (other.whole as u128) > (other.part as u128) * (self.whole as u128)
    }
}

/// Which delimiter a text has, and how many of its lines agree on how many
/// fields there are.
#[derive(Debug, Clone, Copy, PartialEq, Eq, Structural)]
pub struct DelimiterInference {
    pub delimiter: Delimiter,
    /// The share of lines that have the most common number of fields.
    pub consistency: Ratio,
}

impl DelimiterInference {
    /// Sure only where every line agrees.
    pub open spec fn confidence_spec(self) -> Confidence {
        if self.consistency.part == self.consistency.whole {
            Confidence::High
        } else {
            Confidence::Low
        }
    }

    /// Sure only where every line agrees.
    pub fn confidence(&self) -> (confidence: Confidence)
        ensures
            confidence == self.confidence_spec(),
    {
        if self.consistency.part == self.consistency.whole {
            Confidence::High
        } else {
            Confidence::Low
        }
    }
}

/// What the `csv` crate's reader splits a text into, record by record, under a
/// delimiter byte and with headers and ragged lines treated as told; `None`
/// for a record that it cannot read.
pub uninterp spec fn csv_records(
    text: Seq<char>,
    delimiter: u8,
    has_headers: bool,
    flexible: bool,
) -> Seq<Option<Seq<Seq<char>>>>;

/// The characters of the records that a reader yields.
pub open spec fn record_texts(records: Seq<Option<Vec<String>>>) -> Seq<Option<Seq<Seq<char>>>> {
    Seq::new(
        records.len(),
        |i: int|
            match records[i] {
                Some(fields) => Some(text::texts(fields@)),
                None => None,
            },
    )
}

/// Splits a text by `csv::ReaderBuilder` and `Reader::records`, every record
/// in order, `None` for one that is an error. What comes back depends on the
/// arguments alone.
#[verifier::external_body]
pub(crate) fn read_csv_records(text: &str, delimiter: u8, has_headers: bool, flexible: bool) -> (records: Vec<
    Option<Vec<String>>,
>)
    ensures
        record_texts(records@) == csv_records(text@, delimiter, has_headers, flexible),
{
    csv::ReaderBuilder::new()
        .delimiter(delimiter)
        .has_headers(has_headers)
        .flexible(flexible)
        .from_reader(text.as_bytes())
        .records()
        .map(|record| record.ok().map(|fields| fields.iter().map(|f| f.to_string()).collect()))
        .collect()
}

/// A text split at white space, up to some character: the finished rows, the
/// finished words of the row at hand, and the word at hand.
#[verifier::ext_equal]
pub ghost struct WordSplit {
    pub rows: Seq<Seq<Seq<char>>>,
    pub words: Seq<Seq<char>>,
    pub word: Seq<char>,
}

/// The words of a row with the word at hand added to them, unless it is empty.
pub open spec fn words_with(words: Seq<Seq<char>>, word: Seq<char>) -> Seq<Seq<char>> {
    if word.len() > 0 {
        words.push(word)
    } else {
        words
    }
}

/// The rows with the row at hand added to them, unless it has no words.
pub open spec fn rows_with(rows: Seq<Seq<Seq<char>>>, words: Seq<Seq<char>>) -> Seq<
    Seq<Seq<char>>,
> {
    if words.len() > 0 {
        rows.push(words)
    } else {
        rows
    }
}

/// The first `n` characters of `s` split at white space: a line break ends a
/// row, any white space ends a word.
pub open spec fn word_split(s: Seq<char>, n: int) -> WordSplit
    decreases n,
{
    if n <= 0 {
        WordSplit { rows: Seq::empty(), words: Seq::empty(), word: Seq::empty() }
    } else {
        let before = word_split(s, n - 1);
        let c = s[n - 1];
        if c == '\n' {
            WordSplit {
                rows: rows_with(before.rows, words_with(before.words, before.word)),
                words: Seq::empty(),
                word: Seq::empty(),
            }
        } else if text::is_space_spec(c) {
            WordSplit {
                rows: before.rows,
                words: words_with(before.words, before.word),
                word: Seq::empty(),
            }
        } else {
            WordSplit { rows: before.rows, words: before.words, word: before.word.push(c) }
        }
    }
}

/// The words of each line of `s` that has any.
pub open spec fn whitespace_records(s: Seq<char>) -> Seq<Seq<Seq<char>>> {
    let end = word_split(s, s.len() as int);
    rows_with(end.rows, words_with(end.words, end.word))
}

/// The records among the first `n` that could be read and have fields.
pub open spec fn readable_records(
    records: Seq<Option<Seq<Seq<char>>>>,
    n: int,
) -> Seq<Seq<Seq<char>>>
    decreases n,
{
    if n <= 0 {
        Seq::empty()
    } else {
        match records[n - 1] {
            Some(fields) if fields.len() > 0 => readable_records(records, n - 1).push(fields),
            _ => readable_records(records, n - 1),
        }
    }
}

/// The fields of each line of a text under a delimiter. A byte delimiter is
/// split at with regard to quotes; white space has no quotes.
pub open spec fn records_of(s: Seq<char>, delimiter: Delimiter) -> Seq<Seq<Seq<char>>> {
    match delimiter.byte() {
        Some(byte) => {
            let records = csv_records(s, byte, false, true);
            readable_records(records, records.len() as int)
        },
        None => whitespace_records(s),
    }
}

pub(crate) fn split_words(sample: &str) -> (records: Vec<Vec<String>>)
    ensures
        text::rows(records@) == whitespace_records(sample@),
{
    let chars: Vec<char> = chars_of(sample);
    let mut rows: Vec<Vec<String>> = Vec::new();
    let mut words: Vec<String> = Vec::new();
    let mut word: Vec<char> = Vec::new();
    let mut i: usize = 0;
    proof {
        assert(text::rows(rows@) == Seq::<Seq<Seq<char>>>::empty());
        assert(text::texts(words@) == Seq::<Seq<char>>::empty());
        assert(word@ == Seq::<char>::empty());
    }
    while i < chars.len()
        invariant
            chars@ == sample@,
            i <= chars@.len(),
            text::rows(rows@) == word_split(chars@, i as int).rows,
            text::texts(words@) == word_split(chars@, i as int).words,
            word@ == word_split(chars@, i as int).word,
        decreases chars@.len() - i,
    {
        let c: char = chars[i];
        if is_space(c) {
            end_word(&mut words, &mut word);
            if c == '\n' {
                end_row(&mut rows, &mut words);
            }
        } else {
            word.push(c);
        }
        i = i + 1;
    }
    end_word(&mut words, &mut word);
    end_row(&mut rows, &mut words);
    rows
}

/// Adds the word at hand to the words, unless it is empty.
fn end_word(words: &mut Vec<String>, word: &mut Vec<char>)
    ensures
        text::texts(final(words)@) == words_with(text::texts(old(words)@), old(word)@),
        final(word)@ == Seq::<char>::empty(),
{
    if word.len() > 0 {
        let finished: String = string_of(word.as_slice());
        words.push(finished);
        assert(text::texts(words@) == text::texts(old(words)@).push(old(word)@));
        word.clear();
    }
    assert(word@ == Seq::<char>::empty());
}

/// Adds the words at hand to the rows, unless there are none.
fn end_row(rows: &mut Vec<Vec<String>>, words: &mut Vec<String>)
    ensures
        text::rows(final(rows)@) == rows_with(text::rows(old(rows)@), text::texts(old(words)@)),
        text::texts(final(words)@) == Seq::<Seq<char>>::empty(),
{
    if words.len() > 0 {
        let mut finished: Vec<String> = Vec::new();
        std::mem::swap(&mut finished, words);
        rows.push(finished);
        assert(text::rows(rows@) == text::rows(old(rows)@).push(text::texts(old(words)@)));
    }
    assert(text::texts(words@) == Seq::<Seq<char>>::empty());
}

/// Leaves out the records that could not be read or have no fields.
fn keep_readable(records: Vec<Option<Vec<String>>>) -> (kept: Vec<Vec<String>>)
    ensures
        text::rows(kept@) == readable_records(record_texts(records@), records@.len() as int),
{
    let mut kept: Vec<Vec<String>> = Vec::new();
    let mut i: usize = 0;
    let ghost all: Seq<Option<Seq<Seq<char>>>> = record_texts(records@);
    assert(text::rows(kept@) == Seq::<Seq<Seq<char>>>::empty());
    while i < records.len()
        invariant
            all == record_texts(records@),
            i <= records@.len(),
            text::rows(kept@) == readable_records(all, i as int),
        decreases records@.len() - i,
    {
        let ghost before: Seq<Vec<String>> = kept@;
        match &records[i] {
            Some(fields) => {
                assert(all[i as int] == Some(text::texts(fields@)));
                if fields.len() > 0 {
                    let copied: Vec<String> = clone_fields(fields);
                    kept.push(copied);
                    assert(text::rows(kept@) == text::rows(before).push(text::texts(fields@)));
                }
            },
            None => {
                assert(all[i as int] is None);
            },
        }
        i = i + 1;
    }
    kept
}

pub(crate) fn clone_fields(fields: &Vec<String>) -> (copied: Vec<String>)
    ensures
        text::texts(copied@) == text::texts(fields@),
{
    let mut copied: Vec<String> = Vec::new();
    let mut i: usize = 0;
    while i < fields.len()
        invariant
            i <= fields@.len(),
            copied@.len() == i,
            forall|j: int| 0 <= j < i ==> (#[trigger] copied@[j])@ == fields@[j]@,
        decreases fields@.len() - i,
    {
        copied.push(fields[i].clone());
        i = i + 1;
    }
    assert(text::texts(copied@) == text::texts(fields@));
    copied
}

/// The fields of each line of a text under a delimiter.
pub fn tokenize_records(sample: &str, delimiter: Delimiter) -> (records: Vec<Vec<String>>)
    ensures
        text::rows(records@) == records_of(sample@, delimiter),
{
    match delimiter.as_csv_byte() {
        Some(byte) => {
            let records: Vec<Option<Vec<String>>> = read_csv_records(sample, byte, false, true);
            assert(record_texts(records@).len() == records@.len());
            keep_readable(records)
        },
        None => split_words(sample),
    }
}


/// How many of the first `n` records have `width` fields.
pub open spec fn occurrences(records: Seq<Seq<Seq<char>>>, width: int, n: int) -> nat
    decreases n,
{
    if n <= 0 {
        0
    } else if records[n - 1].len() == width {
        occurrences(records, width, n - 1) + 1
    } else {
        occurrences(records, width, n - 1)
    }
}

/// `width` is the number of fields that most records have, `count` of them. Of
/// two numbers that equally many records have it is the larger: lines that
/// fall apart into columns say more than lines that do not.
pub open spec fn is_dominant(records: Seq<Seq<Seq<char>>>, width: int, count: int) -> bool {
    let n = records.len() as int;
    &&& count == occurrences(records, width, n)
    &&& count > 0
    &&& forall|other: int|
        other != width ==> (#[trigger] occurrences(records, other, n) < count || (occurrences(
            records,
            other,
            n,
        ) == count && other < width))
}

/// `table` holds, for each number of fields, how many of the first `n` records
/// have it.
pub open spec fn is_width_table(records: Seq<Seq<Seq<char>>>, n: int, table: Seq<usize>) -> bool {
    forall|width: int| #[trigger]
        occurrences(records, width, n) == (if 0 <= width < table.len() {
            table[width] as int
        } else {
            0
        })
}

/// Counts, for each number of fields, how many records have it.
fn width_table(records: &[Vec<String>]) -> (table: Vec<usize>)
    ensures
        is_width_table(text::rows(records@), records@.len() as int, table@),
{
    let ghost rows: Seq<Seq<Seq<char>>> = text::rows(records@);
    let mut table: Vec<usize> = Vec::new();
    let mut i: usize = 0;
    while i < records.len()
        invariant
            rows == text::rows(records@),
            i <= records@.len(),
            is_width_table(rows, i as int, table@),
            forall|w: int| 0 <= w < table@.len() ==> #[trigger] table@[w] <= i,
        decreases records@.len() - i,
    {
        let width: usize = records[i].len();
        assert(rows[i as int].len() == width);
        while table.len() <= width
            invariant
                i < records@.len(),
                is_width_table(rows, i as int, table@),
                forall|w: int| 0 <= w < table@.len() ==> #[trigger] table@[w] <= i,
            decreases width + 1 - table@.len(),
        {
            let ghost before: Seq<usize> = table@;
            table.push(0);
            assert forall|w: int| #[trigger]
                occurrences(rows, w, i as int) == (if 0 <= w < table@.len() {
                    table@[w] as int
                } else {
                    0
                }) by {
                assert(occurrences(rows, w, i as int) == (if 0 <= w < before.len() {
                    before[w] as int
                } else {
                    0
                }));
            }
        }
        let ghost before: Seq<usize> = table@;
        assert(before[width as int] <= i);
        let count: usize = table[width];
        table.set(width, count + 1);
        assert forall|w: int| #[trigger]
            occurrences(rows, w, i + 1) == (if 0 <= w < table@.len() {
                table@[w] as int
            } else {
                0
            }) by {
            assert(occurrences(rows, w, i as int) == (if 0 <= w < before.len() {
                before[w] as int
            } else {
                0
            }));
        }
        i = i + 1;
    }
    table
}

/// The number of fields that most records have, and how many have it. `None`
/// where there are no records.
pub fn dominant_field_count(records: &[Vec<String>]) -> (dominant: Option<(usize, usize)>)
    ensures
        match dominant {
            Some((width, count)) => is_dominant(
                text::rows(records@),
                width as int,
                count as int,
            ),
            None => records@.len() == 0,
        },
{
    let ghost rows: Seq<Seq<Seq<char>>> = text::rows(records@);
    let ghost n: int = records@.len() as int;
    if records.len() == 0 {
        return None;
    }
    let table: Vec<usize> = width_table(records);
    let mut best_width: usize = 0;
    let mut best_count: usize = 0;
    let mut width: usize = 0;
    while width < table.len()
        invariant
            is_width_table(rows, n, table@),
            width <= table@.len(),
            best_count > 0 ==> best_width < width && best_count == table@[best_width as int],
            forall|other: int|
                0 <= other < width && !(other == best_width && best_count > 0) ==> (
                #[trigger] table@[other] < best_count || (table@[other] == best_count && (
                best_count == 0 || other < best_width))),
        decreases table@.len() - width,
    {
        let count: usize = table[width];
        if count > 0 && count >= best_count {
            best_width = width;
            best_count = count;
        }
        width = width + 1;
    }
    proof {
        let first = rows[0].len() as int;
        lemma_first_width_occurs(rows, n);
        assert(occurrences(rows, first, n) > 0);
        assert(table@[first] > 0);
        assert(occurrences(rows, best_width as int, n) == best_count);
        assert forall|other: int| other != best_width implies (#[trigger] occurrences(
            rows,
            other,
            n,
        ) < best_count || (occurrences(rows, other, n) == best_count && other < best_width)) by {
            if 0 <= other < table@.len() {
                assert(table@[other] <= best_count);
            }
        }
    }
    Some((best_width, best_count))
}

/// The first record's number of fields occurs.
proof fn lemma_first_width_occurs(records: Seq<Seq<Seq<char>>>, n: int)
    requires
        1 <= n <= records.len(),
    ensures
        occurrences(records, records[0].len() as int, n) > 0,
    decreases n,
{
    if n > 1 {
        lemma_first_width_occurs(records, n - 1);
    }
}

/// There is one dominant number of fields at most.
pub proof fn law_dominant_is_unique(
    records: Seq<Seq<Seq<char>>>,
    width: int,
    count: int,
    other_width: int,
    other_count: int,
)
    requires
        is_dominant(records, width, count),
        is_dominant(records, other_width, other_count),
    ensures
        width == other_width,
        count == other_count,
{
    let n = records.len() as int;
    if width != other_width {
        assert(occurrences(records, other_width, n) <= count);
        assert(occurrences(records, width, n) <= other_count);
    }
}

/// How well a delimiter splits a text into records: the share of records that
/// have the dominant number of fields. `None` where it does not split the text
/// into columns at all.
pub open spec fn score_of(records: Seq<Seq<Seq<char>>>) -> Option<Ratio> {
    let (width, count) = choose|width: int, count: int| is_dominant(records, width, count);
    if records.len() == 0 || width < 2 {
        None
    } else {
        Some(Ratio { part: count as usize, whole: records.len() as usize })
    }
}

/// How well a delimiter splits a text into the given records.
pub fn delimiter_score(records: &[Vec<String>]) -> (score: Option<Ratio>)
    ensures
        score == score_of(text::rows(records@)),
        score matches Some(ratio) ==> 0 < ratio.whole,
{
    match dominant_field_count(records) {
        Some((width, count)) => {
            proof {
                let rows = text::rows(records@);
                let (w, c) = choose|w: int, c: int| is_dominant(rows, w, c);
                law_dominant_is_unique(rows, width as int, count as int, w, c);
                lemma_first_width_occurs(rows, rows.len() as int);
            }
            if width < 2 {
                None
            } else {
                Some(Ratio { part: count, whole: records.len() })
            }
        },
        None => None,
    }
}

/// The best of the first `n` scores, the first of equal ones.
pub open spec fn best_score(scores: Seq<Option<Ratio>>, n: int) -> Option<int>
    decreases n,
{
    if n <= 0 {
        None
    } else {
        match (scores[n - 1], best_score(scores, n - 1)) {
            (Some(ratio), Some(best)) if !ratio.exceeds(scores[best].unwrap()) => Some(best),
            (Some(_), _) => Some(n - 1),
            (None, best) => best,
        }
    }
}

/// The delimiter that the candidates' scores speak for: the best, the first of
/// equal ones, and a comma where no candidate has a score.
pub open spec fn chosen_delimiter(scores: Seq<Option<Ratio>>) -> DelimiterInference {
    match best_score(scores, scores.len() as int) {
        Some(best) => DelimiterInference {
            delimiter: delimiter_candidates()[best],
            consistency: scores[best].unwrap(),
        },
        None => DelimiterInference {
            delimiter: Delimiter::Comma,
            consistency: Ratio { part: 0, whole: 1 },
        },
    }
}

fn candidate(index: usize) -> (delimiter: Delimiter)
    requires
        index < 5,
    ensures
        delimiter == delimiter_candidates()[index as int],
{
    if index == 0 {
        Delimiter::Comma
    } else if index == 1 {
        Delimiter::Semicolon
    } else if index == 2 {
        Delimiter::Tab
    } else if index == 3 {
        Delimiter::Pipe
    } else {
        Delimiter::Whitespace
    }
}

/// The delimiter that the candidates' scores speak for.
pub fn choose_delimiter(scores: &[Option<Ratio>]) -> (inference: DelimiterInference)
    requires
        scores@.len() <= delimiter_candidates().len(),
    ensures
        inference == chosen_delimiter(scores@),
{
    let mut best: Option<(usize, Ratio)> = None;
    let mut i: usize = 0;
    while i < scores.len()
        invariant
            scores@.len() <= 5,
            i <= scores@.len(),
            match best {
                Some((index, ratio)) => index < i && best_score(scores@, i as int) == Some(
                    index as int,
                ) && scores@[index as int] == Some(ratio),
                None => best_score(scores@, i as int) is None,
            },
        decreases scores@.len() - i,
    {
        match scores[i] {
            Some(ratio) => {
                let better: bool = match best {
                    Some((_, leading)) => ratio.is_larger_than(leading),
                    None => true,
                };
                if better {
                    best = Some((i, ratio));
                }
            },
            None => {},
        }
        i = i + 1;
    }
    match best {
        Some((index, ratio)) => DelimiterInference {
            delimiter: candidate(index),
            consistency: ratio,
        },
        None => DelimiterInference {
            delimiter: Delimiter::Comma,
            consistency: Ratio { part: 0, whole: 1 },
        },
    }
}

/// The scores of the first `n` candidates on a text.
pub open spec fn candidate_scores(s: Seq<char>, n: int) -> Seq<Option<Ratio>> {
    Seq::new(n as nat, |i: int| score_of(records_of(s, delimiter_candidates()[i])))
}

/// Infers the delimiter of a text: the candidate under which the largest share
/// of lines has the same number of fields.
pub fn infer_delimiter(sample: &str) -> (inference: DelimiterInference)
    ensures
        inference == chosen_delimiter(candidate_scores(sample@, 5)),
{
    let mut scores: Vec<Option<Ratio>> = Vec::new();
    let mut i: usize = 0;
    while i < 5
        invariant
            i <= 5,
            scores@ == candidate_scores(sample@, i as int),
        decreases 5 - i,
    {
        let records: Vec<Vec<String>> = tokenize_records(sample, candidate(i));
        scores.push(delimiter_score(records.as_slice()));
        i = i + 1;
        assert(scores@ == candidate_scores(sample@, i as int));
    }
    choose_delimiter(scores.as_slice())
}

/// Every score is a share of something.
pub open spec fn are_shares(scores: Seq<Option<Ratio>>) -> bool {
    forall|i: int|
        0 <= i < scores.len() ==> (#[trigger] scores[i] matches Some(ratio) ==> 0 < ratio.whole)
}

/// What does not exceed a share does not exceed a larger one.
proof fn lemma_not_exceeding(low: Ratio, middle: Ratio, high: Ratio)
    requires
        0 < low.whole,
        0 < middle.whole,
        0 < high.whole,
        !low.exceeds(middle),
        !middle.exceeds(high),
    ensures
        !low.exceeds(high),
        high.exceeds(middle) ==> high.exceeds(low),
{
    let (a, b) = (low.part as int, low.whole as int);
    let (c, d) = (middle.part as int, middle.whole as int);
    let (e, f) = (high.part as int, high.whole as int);
    assert(a * f <= e * b) by (nonlinear_arith)
        requires
            a * d <= c * b,
            c * f <= e * d,
            0 <= a,
            0 <= c,
            0 <= e,
            0 < b,
            0 < d,
            0 < f,
    {
        assert(a * d * f <= c * b * f);
        assert(c * f * b <= e * d * b);
        assert(c * b * f == c * f * b);
        assert((a * f) * d <= (e * b) * d);
        if a * f > e * b {
            assert((a * f) * d > (e * b) * d);
        }
    }
    if high.exceeds(middle) {
        assert(e * b > a * f) by (nonlinear_arith)
            requires
                a * d <= c * b,
                e * d > c * f,
                0 <= a,
                0 <= c,
                0 <= e,
                0 < b,
                0 < d,
                0 < f,
        {
            assert(a * d * f <= c * b * f);
            assert(c * f * b < e * d * b);
            assert(c * b * f == c * f * b);
            assert((a * f) * d < (e * b) * d);
            if a * f >= e * b {
                assert((a * f) * d >= (e * b) * d);
            }
        }
    }
}

/// No candidate splits the text more consistently than the chosen one, and
/// every candidate before it does so less consistently. A comma is assumed
/// only where no candidate splits the text into columns.
pub proof fn law_chosen_delimiter_is_the_most_consistent(scores: Seq<Option<Ratio>>, n: int)
    requires
        0 <= n <= scores.len(),
        are_shares(scores),
    ensures
        match best_score(scores, n) {
            Some(best) => {
                &&& 0 <= best < n
                &&& scores[best] is Some
                &&& forall|i: int|
                    0 <= i < n && #[trigger] scores[i] is Some ==> !scores[i].unwrap().exceeds(
                        scores[best].unwrap(),
                    )
                &&& forall|i: int|
                    0 <= i < best && #[trigger] scores[i] is Some ==> scores[best].unwrap().exceeds(
                        scores[i].unwrap(),
                    )
            },
            None => forall|i: int| 0 <= i < n ==> #[trigger] scores[i] is None,
        },
    decreases n,
{
    if n > 0 {
        law_chosen_delimiter_is_the_most_consistent(scores, n - 1);
        match (scores[n - 1], best_score(scores, n - 1)) {
            (Some(ratio), Some(best)) if ratio.exceeds(scores[best].unwrap()) => {
                let leading = scores[best].unwrap();
                assert(!leading.exceeds(ratio)) by {
                    assert(leading.part * ratio.whole < ratio.part * leading.whole);
                }
                assert forall|i: int| 0 <= i < n - 1 && #[trigger] scores[i] is Some implies {
                    &&& !scores[i].unwrap().exceeds(ratio)
                    &&& ratio.exceeds(scores[i].unwrap())
                } by {
                    lemma_not_exceeding(scores[i].unwrap(), leading, ratio);
                }
            },
            _ => {},
        }
    }
}

/// What marks the fraction of a number.
#[derive(Debug, Clone, Copy, PartialEq, Eq, Hash, Structural)]
pub enum DecimalSeparator {
    Dot,
    Comma,
}

impl DecimalSeparator {
    /// The separator as it is shown.
    pub open spec fn label(self) -> Seq<char> {
        match self {
            DecimalSeparator::Dot => "."@,
            DecimalSeparator::Comma => ","@,
        }
    }

    /// The separator as it is shown.
    pub fn as_str(self) -> (label: &'static str)
        ensures
            label@ == self.label(),
    {
        match self {
            DecimalSeparator::Dot => ".",
            DecimalSeparator::Comma => ",",
        }
    }
}

/// Which decimal separator a text uses.
#[derive(Debug, Clone, Copy, PartialEq, Eq, Structural)]
pub struct DecimalSeparatorInference {
    pub separator: DecimalSeparator,
    /// How many fields are numbers with a dot in them. No table that fits in
    /// memory has too many fields to count.
    pub dot_votes: u128,
    /// How many fields are numbers with a comma in them.
    pub comma_votes: u128,
}

impl DecimalSeparatorInference {
    /// Unsure only where as many fields speak for the one as for the other.
    pub open spec fn confidence_spec(self) -> Confidence {
        if self.dot_votes == self.comma_votes {
            Confidence::Low
        } else {
            Confidence::High
        }
    }

    /// Unsure only where as many fields speak for the one as for the other.
    pub fn confidence(&self) -> (confidence: Confidence)
        ensures
            confidence == self.confidence_spec(),
    {
        if self.dot_votes == self.comma_votes {
            Confidence::Low
        } else {
            Confidence::High
        }
    }
}

/// `s` is not empty and consists of digits.
pub open spec fn is_digits(s: Seq<char>) -> bool {
    s.len() > 0 && text::all_digits(s)
}

/// `s` without a leading minus sign.
pub open spec fn without_minus(s: Seq<char>) -> Seq<char> {
    if s.len() > 0 && s[0] == '-' {
        s.skip(1)
    } else {
        s
    }
}

/// `field` is a number with `separator` before its fraction and nothing else:
/// digits on both sides, a minus sign allowed in front.
pub open spec fn is_decimal_with(field: Seq<char>, separator: char) -> bool {
    let at = text::first_index(field, separator);
    &&& at < field.len()
    &&& is_digits(without_minus(field.take(at)))
    &&& is_digits(field.skip(at + 1))
}

fn all_are_digits(chars: &[char]) -> (digits: bool)
    ensures
        digits == is_digits(chars@),
{
    if chars.len() == 0 {
        return false;
    }
    let count: usize = text::count_digits(chars);
    assert(chars@.take(chars@.len() as int) == chars@);
    count == chars.len()
}

/// Whether a field is a number with `separator` before its fraction.
pub fn looks_like_decimal(field: &[char], separator: char) -> (decimal: bool)
    ensures
        decimal == is_decimal_with(field@, separator),
{
    let at: usize = find(field, separator);
    if at == field.len() {
        return false;
    }
    let from: usize = if at > 0 && field[0] == '-' {
        1
    } else {
        0
    };
    let whole: &[char] = vstd::slice::slice_subrange(field, from, at);
    let fraction: &[char] = vstd::slice::slice_subrange(field, at + 1, field.len());
    assert(whole@ == without_minus(field@.take(at as int)));
    assert(fraction@ == field@.skip(at + 1));
    all_are_digits(whole) && all_are_digits(fraction)
}

/// The separator that a field, taken without the white space around it, speaks
/// for.
pub open spec fn field_vote(field: Seq<char>) -> Option<DecimalSeparator> {
    if is_decimal_with(text::trimmed(field), '.') {
        Some(DecimalSeparator::Dot)
    } else if is_decimal_with(text::trimmed(field), ',') {
        Some(DecimalSeparator::Comma)
    } else {
        None
    }
}

/// How many of the first `n` fields of a record speak for a separator.
pub open spec fn record_votes(
    record: Seq<Seq<char>>,
    separator: DecimalSeparator,
    n: int,
) -> nat
    decreases n,
{
    if n <= 0 {
        0
    } else {
        record_votes(record, separator, n - 1) + (if field_vote(record[n - 1]) == Some(separator) {
            1nat
        } else {
            0
        })
    }
}

/// How many fields of the first `n` records speak for a separator.
pub open spec fn votes(
    records: Seq<Seq<Seq<char>>>,
    separator: DecimalSeparator,
    n: int,
) -> nat
    decreases n,
{
    if n <= 0 {
        0
    } else {
        votes(records, separator, n - 1) + record_votes(
            records[n - 1],
            separator,
            records[n - 1].len() as int,
        )
    }
}

/// The decimal separator that the fields of a table speak for: the comma only
/// where more fields have one.
pub open spec fn elected_separator(records: Seq<Seq<Seq<char>>>) -> DecimalSeparatorInference {
    let dots = votes(records, DecimalSeparator::Dot, records.len() as int);
    let commas = votes(records, DecimalSeparator::Comma, records.len() as int);
    DecimalSeparatorInference {
        separator: if commas > dots {
            DecimalSeparator::Comma
        } else {
            DecimalSeparator::Dot
        },
        dot_votes: dots as u128,
        comma_votes: commas as u128,
    }
}

/// Counts the fields of a record that speak for each separator.
fn count_record_votes(record: &Vec<String>) -> (counts: (usize, usize))
    ensures
        counts.0 == record_votes(
            text::texts(record@),
            DecimalSeparator::Dot,
            record@.len() as int,
        ),
        counts.1 == record_votes(
            text::texts(record@),
            DecimalSeparator::Comma,
            record@.len() as int,
        ),
{
    let ghost fields: Seq<Seq<char>> = text::texts(record@);
    let mut dots: usize = 0;
    let mut commas: usize = 0;
    let mut i: usize = 0;
    while i < record.len()
        invariant
            fields == text::texts(record@),
            i <= record@.len(),
            dots <= i,
            commas <= i,
            dots == record_votes(fields, DecimalSeparator::Dot, i as int),
            commas == record_votes(fields, DecimalSeparator::Comma, i as int),
        decreases record@.len() - i,
    {
        let chars: Vec<char> = chars_of(record[i].as_str());
        let field: &[char] = trim(chars.as_slice());
        assert(fields[i as int] == chars@);
        if looks_like_decimal(field, '.') {
            dots = dots + 1;
        } else if looks_like_decimal(field, ',') {
            commas = commas + 1;
        }
        i = i + 1;
    }
    (dots, commas)
}

/// The decimal separator that the fields of a table speak for.
pub fn decimal_separator_of(records: &[Vec<String>]) -> (inference: DecimalSeparatorInference)
    ensures
        inference == elected_separator(text::rows(records@)),
        inference.dot_votes == votes(
            text::rows(records@),
            DecimalSeparator::Dot,
            records@.len() as int,
        ),
        inference.comma_votes == votes(
            text::rows(records@),
            DecimalSeparator::Comma,
            records@.len() as int,
        ),
{
    let ghost rows: Seq<Seq<Seq<char>>> = text::rows(records@);
    let mut dots: u128 = 0;
    let mut commas: u128 = 0;
    let mut i: usize = 0;
    while i < records.len()
        invariant
            rows == text::rows(records@),
            i <= records@.len(),
            dots <= i * 0xffff_ffff_ffff_ffff,
            commas <= i * 0xffff_ffff_ffff_ffff,
            dots == votes(rows, DecimalSeparator::Dot, i as int),
            commas == votes(rows, DecimalSeparator::Comma, i as int),
        decreases records@.len() - i,
    {
        let (row_dots, row_commas) = count_record_votes(&records[i]);
        assert(rows[i as int] == text::texts(records@[i as int]@));
        dots = dots + row_dots as u128;
        commas = commas + row_commas as u128;
        i = i + 1;
    }
    let separator: DecimalSeparator = if commas > dots {
        DecimalSeparator::Comma
    } else {
        DecimalSeparator::Dot
    };
    DecimalSeparatorInference { separator, dot_votes: dots, comma_votes: commas }
}

/// Infers the decimal separator of a text that is split at `delimiter`: a
/// comma that separates fields is never taken for one that marks a fraction.
pub fn infer_decimal_separator(
    sample: &str,
    delimiter: Delimiter,
) -> (inference: DecimalSeparatorInference)
    ensures
        inference == elected_separator(records_of(sample@, delimiter)),
{
    let records: Vec<Vec<String>> = tokenize_records(sample, delimiter);
    decimal_separator_of(records.as_slice())
}

/// Where the columns' names are, and what they are.
#[derive(Debug, Clone, PartialEq, Eq)]
pub struct HeaderInference {
    /// The place of the header among the records, `None` where there is none.
    pub header_row_index: Option<usize>,
    /// How many records stand before the header, or before the data where
    /// there is no header.
    pub skipped_preamble_rows: usize,
    /// The header's fields, or `column_0`, `column_1` and so on.
    pub column_names: Vec<String>,
    /// There were records before the data, and none of them could be the
    /// header.
    pub ambiguous: bool,
}

/// A header as a value.
#[verifier::ext_equal]
pub ghost struct Header {
    pub row: Option<int>,
    pub skipped: int,
    pub names: Seq<Seq<char>>,
    pub ambiguous: bool,
}

impl View for HeaderInference {
    type V = Header;

    open spec fn view(&self) -> Header {
        Header {
            row: match self.header_row_index {
                Some(index) => Some(index as int),
                None => None,
            },
            skipped: self.skipped_preamble_rows as int,
            names: text::texts(self.column_names@),
            ambiguous: self.ambiguous,
        }
    }
}

/// `s` begins with a year of four digits and a hyphen.
pub open spec fn begins_with_year(s: Seq<char>) -> bool {
    s.len() >= 5 && text::all_digits(s.take(4)) && s[4] == '-'
}

/// A field that is a number, or a date that begins with its year.
pub open spec fn is_data(field: Seq<char>) -> bool {
    field.len() > 0 && (text::is_number_text(field) || begins_with_year(field))
}

/// A record of labels: no field of it, taken without the white space around
/// it, is data.
pub open spec fn is_label_row(record: Seq<Seq<char>>) -> bool {
    record.len() > 0 && forall|i: int|
        0 <= i < record.len() ==> !is_data(text::trimmed(#[trigger] record[i]))
}

/// The first record from `i` on that is no record of labels, or the number of
/// records.
pub open spec fn data_start(records: Seq<Seq<Seq<char>>>, i: int) -> int
    decreases records.len() - i,
{
    if i >= records.len() {
        records.len() as int
    } else if !is_label_row(records[i]) {
        i
    } else {
        data_start(records, i + 1)
    }
}

/// The last of the first `n` records that has `width` fields.
pub open spec fn last_of_width(records: Seq<Seq<Seq<char>>>, width: int, n: int) -> Option<int>
    decreases n,
{
    if n <= 0 {
        None
    } else if records[n - 1].len() == width {
        Some(n - 1)
    } else {
        last_of_width(records, width, n - 1)
    }
}

/// `column_` and the column's number.
pub open spec fn made_up_name(index: int) -> Seq<char> {
    "column_"@ + text::decimal_text(index)
}

/// The header of a table. The data begin with the first record that is none of
/// labels; the header is the last record before them that has as many fields.
/// Where there is none, the columns are numbered.
pub open spec fn header_in(records: Seq<Seq<Seq<char>>>) -> Header {
    let start = data_start(records, 0);
    let width = if start < records.len() {
        records[start].len() as int
    } else {
        0
    };
    match last_of_width(records, width, start) {
        Some(index) => Header {
            row: Some(index),
            skipped: index,
            names: Seq::new(records[index].len(), |i: int| text::trimmed(records[index][i])),
            ambiguous: false,
        },
        None => Header {
            row: None,
            skipped: start,
            names: Seq::new(width as nat, |i: int| made_up_name(i)),
            ambiguous: start > 0,
        },
    }
}

/// Whether a field is a number, or a date that begins with its year.
pub fn field_looks_like_data(field: &[char]) -> (data: bool)
    ensures
        data == is_data(field@),
{
    if field.len() == 0 {
        return false;
    }
    if is_number(field) {
        return true;
    }
    if field.len() < 5 || field[4] != '-' {
        return false;
    }
    let year: &[char] = vstd::slice::slice_subrange(field, 0, 4);
    assert(year@ == field@.take(4));
    all_are_digits(year)
}

/// Whether a record consists of labels.
pub fn row_looks_like_header_label(row: &Vec<String>) -> (label: bool)
    ensures
        label == is_label_row(text::texts(row@)),
{
    let ghost fields: Seq<Seq<char>> = text::texts(row@);
    if row.len() == 0 {
        return false;
    }
    let mut i: usize = 0;
    while i < row.len()
        invariant
            fields == text::texts(row@),
            i <= row@.len(),
            forall|j: int| 0 <= j < i ==> !is_data(text::trimmed(#[trigger] fields[j])),
        decreases row@.len() - i,
    {
        let chars: Vec<char> = chars_of(row[i].as_str());
        let data: bool = field_looks_like_data(trim(chars.as_slice()));
        assert(fields[i as int] == chars@);
        if data {
            return false;
        }
        i = i + 1;
    }
    true
}

fn numbered_column(index: usize) -> (name: String)
    ensures
        name@ == made_up_name(index as int),
{
    let mut chars: Vec<char> = Vec::new();
    push_text(&mut chars, "column_");
    push_decimal(&mut chars, index as i128);
    assert(chars@ == made_up_name(index as int));
    string_of(chars.as_slice())
}

fn trimmed_fields(record: &Vec<String>) -> (names: Vec<String>)
    ensures
        text::texts(names@) == Seq::new(
            record@.len(),
            |i: int| text::trimmed(text::texts(record@)[i]),
        ),
{
    let mut names: Vec<String> = Vec::new();
    let mut i: usize = 0;
    while i < record.len()
        invariant
            i <= record@.len(),
            names@.len() == i,
            forall|j: int| 0 <= j < i ==> (#[trigger] names@[j])@ == text::trimmed(record@[j]@),
        decreases record@.len() - i,
    {
        let chars: Vec<char> = chars_of(record[i].as_str());
        names.push(string_of(trim(chars.as_slice())));
        i = i + 1;
    }
    assert(text::texts(names@) == Seq::new(
        record@.len(),
        |i: int| text::trimmed(text::texts(record@)[i]),
    ));
    names
}

/// The header of a table.
pub fn header_of(records: &[Vec<String>]) -> (header: HeaderInference)
    ensures
        header@ == header_in(text::rows(records@)),
        header.header_row_index matches Some(row) ==> row < usize::MAX,
{
    let ghost rows: Seq<Seq<Seq<char>>> = text::rows(records@);
    let mut start: usize = 0;
    while start < records.len() && row_looks_like_header_label(&records[start])
        invariant
            rows == text::rows(records@),
            start <= records@.len(),
            data_start(rows, 0) == data_start(rows, start as int),
        decreases records@.len() - start,
    {
        start = start + 1;
    }
    assert(data_start(rows, 0) == start);
    let width: usize = if start < records.len() {
        records[start].len()
    } else {
        0
    };
    let mut n: usize = start;
    while n > 0 && records[n - 1].len() != width
        invariant
            rows == text::rows(records@),
            n <= start <= records@.len(),
            last_of_width(rows, width as int, start as int) == last_of_width(
                rows,
                width as int,
                n as int,
            ),
        decreases n,
    {
        n = n - 1;
    }
    if n > 0 {
        let index: usize = n - 1;
        assert(rows[index as int] == text::texts(records@[index as int]@));
        let header: HeaderInference = HeaderInference {
            header_row_index: Some(index),
            skipped_preamble_rows: index,
            column_names: trimmed_fields(&records[index]),
            ambiguous: false,
        };
        assert(header@.names == header_in(rows).names);
        return header;
    }
    let mut names: Vec<String> = Vec::new();
    let mut i: usize = 0;
    while i < width
        invariant
            i <= width,
            names@.len() == i,
            forall|j: int| 0 <= j < i ==> (#[trigger] names@[j])@ == made_up_name(j),
        decreases width - i,
    {
        names.push(numbered_column(i));
        i = i + 1;
    }
    let header: HeaderInference = HeaderInference {
        header_row_index: None,
        skipped_preamble_rows: start,
        column_names: names,
        ambiguous: start > 0,
    };
    assert(header@.names == header_in(rows).names);
    header
}

/// Infers the header of a text that is split at `delimiter`.
pub fn infer_header(sample: &str, delimiter: Delimiter) -> (header: HeaderInference)
    ensures
        header@ == header_in(records_of(sample@, delimiter)),
        header.header_row_index matches Some(row) ==> row < usize::MAX,
{
    let records: Vec<Vec<String>> = tokenize_records(sample, delimiter);
    header_of(records.as_slice())
}

/// The header stands before the data, every record from it to the data is one
/// of labels, none behind it has as many fields, and it has a name for every
/// column of the data.
pub proof fn law_header_is_the_last_label_row_of_the_data_width(records: Seq<Seq<Seq<char>>>)
    ensures
        ({
            let start = data_start(records, 0);
            let header = header_in(records);
            &&& 0 <= start <= records.len()
            &&& forall|i: int| 0 <= i < start ==> is_label_row(#[trigger] records[i])
            &&& start < records.len() ==> !is_label_row(records[start])
            &&& start < records.len() ==> header.names.len() == records[start].len()
            &&& match header.row {
                Some(row) => {
                    &&& 0 <= row < start
                    &&& forall|i: int|
                        row < i < start ==> (#[trigger] records[i]).len() != header.names.len()
                },
                None => forall|i: int|
                    0 <= i < start ==> (#[trigger] records[i]).len() != header.names.len(),
            }
            &&& header.ambiguous <==> (header.row is None && start > 0)
        }),
{
    let start = data_start(records, 0);
    lemma_data_start(records, 0);
    let width = if start < records.len() {
        records[start].len() as int
    } else {
        0
    };
    lemma_last_of_width(records, width, start);
}

proof fn lemma_data_start(records: Seq<Seq<Seq<char>>>, i: int)
    requires
        0 <= i <= records.len(),
    ensures
        i <= data_start(records, i) <= records.len(),
        forall|j: int| i <= j < data_start(records, i) ==> is_label_row(#[trigger] records[j]),
        data_start(records, i) < records.len() ==> !is_label_row(records[data_start(records, i)]),
    decreases records.len() - i,
{
    if i < records.len() && is_label_row(records[i]) {
        lemma_data_start(records, i + 1);
    }
}

proof fn lemma_last_of_width(records: Seq<Seq<Seq<char>>>, width: int, n: int)
    requires
        0 <= n <= records.len(),
    ensures
        match last_of_width(records, width, n) {
            Some(row) => {
                &&& 0 <= row < n
                &&& records[row].len() == width
                &&& forall|i: int| row < i < n ==> (#[trigger] records[i]).len() != width
            },
            None => forall|i: int| 0 <= i < n ==> (#[trigger] records[i]).len() != width,
        },
    decreases n,
{
    if n > 0 && records[n - 1].len() != width {
        lemma_last_of_width(records, width, n - 1);
    }
}

} // verus!
