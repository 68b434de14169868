//! What the records of a text are, and which delimiter suits it best.

use vstd::prelude::*;
use crate::ingest::csv;
use crate::ingest::infer;
use crate::ingest::infer::{
    law_chosen_delimiter_is_the_most_consistent, law_dominant_is_unique, Confidence, Delimiter,
    Ratio,
};
use crate::text;

verus! {

/// The places of the records that have `width` fields.
pub open spec fn places_of_width(records: Seq<Seq<Seq<char>>>, width: int) -> Set<int> {
    vstd::set_lib::set_int_range(0, records.len() as int).filter(
        |i: int| records[i].len() == width,
    )
}

proof fn lemma_occurrences(records: Seq<Seq<Seq<char>>>, width: int, n: int)
    requires
        0 <= n <= records.len(),
    ensures
        ({
            let places = vstd::set_lib::set_int_range(0, n).filter(
                |i: int| records[i].len() == width,
            );
            &&& places.finite()
            &&& places.len() == infer::occurrences(records, width, n)
            &&& places.len() <= n
            &&& infer::occurrences(records, width, n) > 0 <==> exists|i: int|
                0 <= i < n && (#[trigger] records[i]).len() == width
        }),
    decreases n,
{
    let places = vstd::set_lib::set_int_range(0, n).filter(|i: int| records[i].len() == width);
    vstd::set_lib::lemma_int_range(0, n);
    if n > 0 {
        let before = vstd::set_lib::set_int_range(0, n - 1).filter(
            |i: int| records[i].len() == width,
        );
        lemma_occurrences(records, width, n - 1);
        if records[n - 1].len() == width {
            assert(places =~= before.insert(n - 1));
        } else {
            assert(places =~= before);
        }
    } else {
        assert(places =~= Set::empty());
    }
}

/// A width is counted once for every record that has it.
pub proof fn law_widths_are_counted(records: Seq<Seq<Seq<char>>>, width: int)
    ensures
        places_of_width(records, width).finite(),
        infer::occurrences(records, width, records.len() as int) == places_of_width(
            records,
            width,
        ).len(),
{
    lemma_occurrences(records, width, records.len() as int);
}

/// The most frequent of the widths of the first `n` records; of two as frequent,
/// the larger.
proof fn lemma_most_frequent(records: Seq<Seq<Seq<char>>>, n: int) -> (width: int)
    requires
        0 < n <= records.len(),
    ensures
        exists|i: int| 0 <= i < n && (#[trigger] records[i]).len() == width,
        forall|i: int|
            0 <= i < n ==> {
                let all = records.len() as int;
                let other = (#[trigger] records[i]).len() as int;
                ||| other == width
                ||| infer::occurrences(records, other, all) < infer::occurrences(
                    records,
                    width,
                    all,
                )
                ||| infer::occurrences(records, other, all) == infer::occurrences(
                    records,
                    width,
                    all,
                ) && other < width
            },
    decreases n,
{
    let all = records.len() as int;
    let last = records[n - 1].len() as int;
    if n == 1 {
        last
    } else {
        let before = lemma_most_frequent(records, n - 1);
        let more = infer::occurrences(records, last, all);
        let most = infer::occurrences(records, before, all);
        if more > most || (more == most && last > before) {
            last
        } else {
            before
        }
    }
}

proof fn lemma_dominant(records: Seq<Seq<Seq<char>>>) -> (width: int)
    requires
        records.len() > 0,
    ensures
        infer::is_dominant(records, width, infer::occurrences(records, width, records.len() as int) as int),
{
    let n = records.len() as int;
    let width = lemma_most_frequent(records, n);
    let count = infer::occurrences(records, width, n);
    lemma_occurrences(records, width, n);
    assert forall|other: int| other != width implies (#[trigger] infer::occurrences(
        records,
        other,
        n,
    ) < count || (infer::occurrences(records, other, n) == count && other < width)) by {
        lemma_occurrences(records, other, n);
        if infer::occurrences(records, other, n) > 0 {
            let i = choose|i: int| 0 <= i < n && (#[trigger] records[i]).len() == other;
            assert(records[i].len() == other);
        }
    }
    width
}

/// A way of splitting a text counts if, of the widths that its records have, one
/// of two or more fields is the most frequent. Its score is then the share of the
/// records that have that width.
pub proof fn law_scores_are_shares(records: Seq<Seq<Seq<char>>>)
    requires
        records.len() <= usize::MAX,
    ensures
        infer::score_of(records) is Some <==> (records.len() > 0 && exists|width: int|
            width >= 2 && forall|other: int| #[trigger]
                infer::occurrences(records, other, records.len() as int) <= #[trigger]
                infer::occurrences(records, width, records.len() as int)),
        infer::score_of(records) matches Some(share) ==> {
            &&& share.whole == records.len()
            &&& exists|width: int| width >= 2 && share.part == #[trigger]
                infer::occurrences(records, width, records.len() as int)
            &&& forall|other: int| #[trigger]
                infer::occurrences(records, other, records.len() as int) <= share.part
        },
{
    let n = records.len() as int;
    if n > 0 {
        let best = lemma_dominant(records);
        let most = infer::occurrences(records, best, n);
        let (width, count) = choose|width: int, count: int|
            infer::is_dominant(records, width, count);
        law_dominant_is_unique(records, width, count, best, most as int);
        lemma_occurrences(records, best, n);
        assert forall|other: int| #[trigger] infer::occurrences(records, other, n) <= most by {
            if other != best {
                assert(infer::occurrences(records, other, n) < most || infer::occurrences(
                    records,
                    other,
                    n,
                ) == most);
            }
        }
        if exists|wide: int|
            wide >= 2 && forall|other: int| #[trigger]
                infer::occurrences(records, other, n) <= #[trigger] infer::occurrences(
                    records,
                    wide,
                    n,
                ) {
            let wide = choose|wide: int|
                wide >= 2 && forall|other: int| #[trigger]
                    infer::occurrences(records, other, n) <= #[trigger] infer::occurrences(
                        records,
                        wide,
                        n,
                    );
            assert(infer::occurrences(records, best, n) <= infer::occurrences(records, wide, n));
            if wide != best {
                assert(infer::occurrences(records, wide, n) == most);
                assert(wide < best);
            }
        }
        if best >= 2 {
            assert(infer::occurrences(records, best, n) == most);
        }
    }
}

/// Where a delimiter stands in the order of preference.
pub open spec fn preference(delimiter: Delimiter) -> int {
    match delimiter {
        Delimiter::Comma => 0,
        Delimiter::Semicolon => 1,
        Delimiter::Tab => 2,
        Delimiter::Pipe => 3,
        Delimiter::Whitespace => 4,
    }
}

/// The share of the records of a text that have their most frequent width.
pub open spec fn share(s: Seq<char>, delimiter: Delimiter) -> Option<Ratio> {
    infer::score_of(infer::records_of(s, delimiter))
}

/// The delimiter that is chosen for a text is the one whose records agree most on
/// their number of fields. Of those that agree as much, the comma comes first,
/// then the semicolon, the tab, the bar and white space. Where none splits the
/// text it is the comma, which is then marked as unsure, as is every choice with
/// records that do not agree.
pub proof fn law_records_agree_most_under_the_chosen_delimiter(s: Seq<char>)
    requires
        forall|delimiter: Delimiter|
            (#[trigger] infer::records_of(s, delimiter)).len() <= usize::MAX,
    ensures
        ({
            let chosen = infer::chosen_delimiter(infer::candidate_scores(s, 5));
            &&& (forall|delimiter: Delimiter| #[trigger] share(s, delimiter) is None)
                ==> chosen.delimiter == Delimiter::Comma && chosen.confidence_spec()
                == Confidence::Low
            &&& forall|delimiter: Delimiter| #[trigger]
                share(s, delimiter) is Some ==> {
                    &&& share(s, chosen.delimiter) == Some(chosen.consistency)
                    &&& share(s, delimiter)->0.part * chosen.consistency.whole
                        <= chosen.consistency.part * share(s, delimiter)->0.whole
                    &&& preference(delimiter) < preference(chosen.delimiter) ==> share(
                        s,
                        delimiter,
                    )->0.part * chosen.consistency.whole < chosen.consistency.part * share(
                        s,
                        delimiter,
                    )->0.whole
                    &&& chosen.confidence_spec() == Confidence::High <==> chosen.consistency.part
                        == chosen.consistency.whole
                }
        }),
{
    let scores = infer::candidate_scores(s, 5);
    assert(scores.len() == 5);
    assert(scores[0] == share(s, Delimiter::Comma));
    assert(scores[1] == share(s, Delimiter::Semicolon));
    assert(scores[2] == share(s, Delimiter::Tab));
    assert(scores[3] == share(s, Delimiter::Pipe));
    assert(scores[4] == share(s, Delimiter::Whitespace));
    assert forall|i: int| 0 <= i < scores.len() implies (#[trigger] scores[i] matches Some(ratio)
        ==> 0 < ratio.whole) by {
        let delimiter = infer::delimiter_candidates()[i];
        law_scores_are_shares(infer::records_of(s, delimiter));
    }
    law_chosen_delimiter_is_the_most_consistent(scores, 5);
    let chosen = infer::chosen_delimiter(scores);
    assert forall|delimiter: Delimiter| #[trigger] share(s, delimiter) is Some implies {
        &&& share(s, chosen.delimiter) == Some(chosen.consistency)
        &&& share(s, delimiter)->0.part * chosen.consistency.whole <= chosen.consistency.part
            * share(s, delimiter)->0.whole
        &&& preference(delimiter) < preference(chosen.delimiter) ==> share(s, delimiter)->0.part
            * chosen.consistency.whole < chosen.consistency.part * share(s, delimiter)->0.whole
        &&& chosen.confidence_spec() == Confidence::High <==> chosen.consistency.part
            == chosen.consistency.whole
    } by {
        let at = preference(delimiter);
        assert(scores[at] == share(s, delimiter));
        assert(scores[at] is Some);
    }
}

/// Delimiters are these characters; white space has no one character.
pub proof fn law_delimiter_characters()
    ensures
        Delimiter::Comma.byte() == Some(',' as u8),
        Delimiter::Semicolon.byte() == Some(';' as u8),
        Delimiter::Tab.byte() == Some('\t' as u8),
        Delimiter::Pipe.byte() == Some('|' as u8),
        Delimiter::Whitespace.byte() is None,
{
}

/// `places` are the places of the records that could be read and are not empty.
pub open spec fn are_places_of_readable(
    places: Seq<int>,
    records: Seq<Option<Seq<Seq<char>>>>,
    n: int,
) -> bool {
    &&& forall|i: int, j: int| 0 <= i < j < places.len() ==> places[i] < places[j]
    &&& forall|i: int|
        0 <= i < places.len() ==> 0 <= #[trigger] places[i] < n && records[places[i]] is Some
            && records[places[i]]->0.len() > 0
    &&& forall|r: int|
        0 <= r < n && (#[trigger] records[r]) is Some && records[r]->0.len() > 0
            ==> places.contains(r)
}

/// Records that could be read and have a field are looked at, all of them and in
/// their order; the others are passed over.
pub proof fn law_unreadable_records_are_passed_over(
    records: Seq<Option<Seq<Seq<char>>>>,
    n: int,
) -> (places: Seq<int>)
    requires
        0 <= n <= records.len(),
    ensures
        are_places_of_readable(places, records, n),
        infer::readable_records(records, n).len() == places.len(),
        forall|i: int|
            0 <= i < places.len() ==> #[trigger] infer::readable_records(records, n)[i]
                == records[places[i]]->0,
    decreases n,
{
    if n <= 0 {
        Seq::empty()
    } else {
        let before = law_unreadable_records_are_passed_over(records, n - 1);
        let last = records[n - 1];
        if last is Some && last->0.len() > 0 {
            let places = before.push(n - 1);
            assert forall|r: int|
                0 <= r < n && (#[trigger] records[r]) is Some && records[r]->0.len()
                    > 0 implies places.contains(r) by {
                if r < n - 1 {
                    let i = choose|i: int| 0 <= i < before.len() && before[i] == r;
                    assert(places[i] == r);
                } else {
                    assert(places[before.len() as int] == r);
                }
            }
            places
        } else {
            before
        }
    }
}

/// No character of a text is a line break.
pub open spec fn is_one_line(s: Seq<char>) -> bool {
    forall|i: int| 0 <= i < s.len() ==> #[trigger] s[i] != '\n'
}

/// No character of a text is white space.
pub open spec fn is_one_word(s: Seq<char>) -> bool {
    s.len() > 0 && forall|i: int| 0 <= i < s.len() ==> !text::is_space_spec(#[trigger] s[i])
}

/// The words of a line: those of the one record that it is, or none.
pub open spec fn words_of(line: Seq<char>) -> Seq<Seq<char>> {
    let records = infer::whitespace_records(line);
    if records.len() == 0 {
        Seq::empty()
    } else {
        records[0]
    }
}

proof fn lemma_split_of_a_prefix(s: Seq<char>, longer: Seq<char>, n: int)
    requires
        0 <= n <= s.len(),
        s.is_prefix_of(longer),
    ensures
        infer::word_split(s, n) == infer::word_split(longer, n),
    decreases n,
{
    if n > 0 {
        lemma_split_of_a_prefix(s, longer, n - 1);
        assert(s[n - 1] == longer[n - 1]);
    }
}

proof fn lemma_split_behind_a_line_break(a: Seq<char>, b: Seq<char>, n: int)
    requires
        0 <= n <= b.len(),
    ensures
        ({
            let whole = infer::word_split(a + seq!['\n'] + b, a.len() + 1 + n);
            let part = infer::word_split(b, n);
            &&& whole.rows == infer::whitespace_records(a) + part.rows
            &&& whole.words == part.words
            &&& whole.word == part.word
        }),
    decreases n,
{
    let s = a + seq!['\n'] + b;
    if n == 0 {
        lemma_split_of_a_prefix(a, s, a.len() as int);
        assert(s[a.len() as int] == '\n');
        assert(infer::whitespace_records(a) + infer::word_split(b, 0).rows
            =~= infer::whitespace_records(a));
    } else {
        lemma_split_behind_a_line_break(a, b, n - 1);
        assert(s[a.len() + n] == b[n - 1]);
        let before = infer::word_split(b, n - 1);
        let words = infer::words_with(before.words, before.word);
        assert(infer::rows_with(infer::whitespace_records(a) + before.rows, words)
            =~= infer::whitespace_records(a) + infer::rows_with(before.rows, words));
    }
}

/// Text split at white space is split line by line: the records of two parts with
/// a line break between them are those of the one and then those of the other.
pub proof fn law_lines_are_split_one_by_one(a: Seq<char>, b: Seq<char>)
    ensures
        infer::whitespace_records(a + seq!['\n'] + b) == infer::whitespace_records(a)
            + infer::whitespace_records(b),
{
    let s = a + seq!['\n'] + b;
    lemma_split_behind_a_line_break(a, b, b.len() as int);
    assert(s.len() == a.len() + 1 + b.len());
    let end = infer::word_split(b, b.len() as int);
    let words = infer::words_with(end.words, end.word);
    assert(infer::rows_with(infer::whitespace_records(a) + end.rows, words)
        =~= infer::whitespace_records(a) + infer::rows_with(end.rows, words));
}

proof fn lemma_one_line_has_no_rows(s: Seq<char>, n: int)
    requires
        0 <= n <= s.len(),
        is_one_line(s),
    ensures
        infer::word_split(s, n).rows == Seq::<Seq<Seq<char>>>::empty(),
    decreases n,
{
    if n > 0 {
        lemma_one_line_has_no_rows(s, n - 1);
        assert(s[n - 1] != '\n');
    }
}

proof fn lemma_split_behind_a_space(a: Seq<char>, space: char, b: Seq<char>, n: int)
    requires
        0 <= n <= b.len(),
        is_one_line(a),
        is_one_line(b),
        space != '\n',
        text::is_space_spec(space),
    ensures
        ({
            let whole = infer::word_split(a + seq![space] + b, a.len() + 1 + n);
            let part = infer::word_split(b, n);
            &&& whole.words == words_of(a) + part.words
            &&& whole.word == part.word
        }),
    decreases n,
{
    let s = a + seq![space] + b;
    lemma_one_line_has_no_rows(a, a.len() as int);
    if n == 0 {
        lemma_split_of_a_prefix(a, s, a.len() as int);
        assert(s[a.len() as int] == space);
        let end = infer::word_split(a, a.len() as int);
        let words = infer::words_with(end.words, end.word);
        if words.len() > 0 {
            assert(infer::whitespace_records(a)[0] == words);
        } else {
            assert(words =~= Seq::empty());
        }
        assert(words_of(a) + infer::word_split(b, 0).words =~= words_of(a));
    } else {
        lemma_split_behind_a_space(a, space, b, n - 1);
        assert(s[a.len() + n] == b[n - 1]);
        assert(b[n - 1] != '\n');
        let before = infer::word_split(b, n - 1);
        assert(infer::words_with(words_of(a) + before.words, before.word) =~= words_of(a)
            + infer::words_with(before.words, before.word));
    }
}

/// White space in a line parts words: the words of two parts of a line with white
/// space between them are those of the one and then those of the other.
pub proof fn law_white_space_parts_words(a: Seq<char>, space: char, b: Seq<char>)
    requires
        is_one_line(a),
        is_one_line(b),
        space != '\n',
        text::is_space_spec(space),
    ensures
        words_of(a + seq![space] + b) == words_of(a) + words_of(b),
{
    let s = a + seq![space] + b;
    lemma_split_behind_a_space(a, space, b, b.len() as int);
    assert(s.len() == a.len() + 1 + b.len());
    assert forall|i: int| 0 <= i < s.len() implies #[trigger] s[i] != '\n' by {
        if i < a.len() {
            assert(s[i] == a[i]);
        } else if i > a.len() {
            assert(s[i] == b[i - a.len() - 1]);
        }
    }
    lemma_one_line_has_no_rows(s, s.len() as int);
    lemma_one_line_has_no_rows(b, b.len() as int);
    let end = infer::word_split(b, b.len() as int);
    let words = infer::words_with(end.words, end.word);
    let all = infer::words_with(words_of(a) + end.words, end.word);
    assert(all =~= words_of(a) + words);
    if words.len() > 0 {
        assert(infer::whitespace_records(b)[0] == words);
    } else {
        assert(words =~= Seq::empty());
        assert(words_of(a) + words =~= words_of(a));
    }
    if all.len() > 0 {
        assert(infer::whitespace_records(s)[0] == all);
    } else {
        assert(all =~= Seq::empty());
    }
    assert(words_of(b) =~= words);
}

proof fn lemma_word(s: Seq<char>, n: int)
    requires
        0 <= n <= s.len(),
        forall|i: int| 0 <= i < s.len() ==> !text::is_space_spec(#[trigger] s[i]),
    ensures
        infer::word_split(s, n).rows == Seq::<Seq<Seq<char>>>::empty(),
        infer::word_split(s, n).words == Seq::<Seq<char>>::empty(),
        infer::word_split(s, n).word == s.take(n),
    decreases n,
{
    if n > 0 {
        lemma_word(s, n - 1);
        assert(!text::is_space_spec(s[n - 1]));
        assert(s.take(n) =~= s.take(n - 1).push(s[n - 1]));
    } else {
        assert(s.take(0) =~= Seq::empty());
    }
}

/// A word is a record of that one field. Nothing is no record.
pub proof fn law_a_word_is_a_field(word: Seq<char>)
    requires
        is_one_word(word),
    ensures
        infer::whitespace_records(word) == seq![seq![word]],
        infer::whitespace_records(Seq::empty()) == Seq::<Seq<Seq<char>>>::empty(),
{
    lemma_word(word, word.len() as int);
    assert(word.take(word.len() as int) =~= word);
    assert(infer::whitespace_records(word) =~= seq![seq![word]]);
    assert(infer::whitespace_records(Seq::empty()) =~= Seq::<Seq<Seq<char>>>::empty());
}

/// What is inferred of a file is inferred from the rows of its head that could be
/// read: the same rows as those of its table, in their order.
pub proof fn law_records_are_the_readable_rows(s: Seq<char>, delimiter: Delimiter) -> (places: Seq<
    int,
>)
    requires
        delimiter != Delimiter::Whitespace,
    ensures
        ({
            let rows = csv::all_rows(s, delimiter);
            let records = infer::records_of(s, delimiter);
            &&& are_places_of_readable(places, rows, rows.len() as int)
            &&& records.len() == places.len()
            &&& forall|i: int|
                0 <= i < records.len() ==> #[trigger] records[i] == rows[places[i]]->0
        }),
{
    let rows = csv::all_rows(s, delimiter);
    law_unreadable_records_are_passed_over(rows, rows.len() as int)
}

} // verus!
