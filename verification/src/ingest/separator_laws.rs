//! How decimal fractions are recognised, which separator a table is read with,
//! and what becomes of the fractions.

use vstd::prelude::*;
use crate::ingest::columns;
use crate::ingest::infer;
use crate::ingest::infer::{Confidence, DecimalSeparator};
use crate::text;
use crate::text_laws;
use crate::text_laws::{
    law_first_place, law_first_place_behind, law_white_space_around_a_text_does_not_matter,
};

verus! {

/// A decimal fraction: a minus or nothing, digits, a separator, digits.
pub open spec fn fraction(
    negative: bool,
    whole: Seq<char>,
    separator: char,
    decimals: Seq<char>,
) -> Seq<char> {
    (if negative {
        seq!['-']
    } else {
        Seq::empty()
    }) + whole + seq![separator] + decimals
}

/// White space alone, or nothing.
pub open spec fn is_blank(s: Seq<char>) -> bool {
    forall|i: int| 0 <= i < s.len() ==> text::is_space_spec(#[trigger] s[i])
}

proof fn lemma_fraction_ends(
    negative: bool,
    whole: Seq<char>,
    separator: char,
    decimals: Seq<char>,
)
    requires
        text_laws::is_number(whole),
        text_laws::is_number(decimals),
    ensures
        ({
            let field = fraction(negative, whole, separator, decimals);
            &&& field.len() > 0
            &&& !text::is_space_spec(field[0])
            &&& !text::is_space_spec(field.last())
        }),
{
    let field = fraction(negative, whole, separator, decimals);
    assert(text::is_digit_spec(whole[0]));
    assert(text::is_digit_spec(decimals[decimals.len() - 1]));
    assert(field.last() == decimals[decimals.len() - 1]);
    assert(field[0] == (if negative {
        '-'
    } else {
        whole[0]
    }));
}

/// Every decimal fraction is recognised with its own separator, a negative one
/// too, and with no other.
pub proof fn law_fractions_are_numbers(
    negative: bool,
    whole: Seq<char>,
    separator: char,
    decimals: Seq<char>,
)
    requires
        text_laws::is_number(whole),
        text_laws::is_number(decimals),
        separator == '.' || separator == ',',
    ensures
        infer::is_decimal_with(fraction(negative, whole, separator, decimals), separator),
        separator == '.' ==> !infer::is_decimal_with(
            fraction(negative, whole, separator, decimals),
            ',',
        ),
        separator == ',' ==> !infer::is_decimal_with(
            fraction(negative, whole, separator, decimals),
            '.',
        ),
{
    let field = fraction(negative, whole, separator, decimals);
    let before = (if negative {
        seq!['-']
    } else {
        Seq::empty()
    }) + whole;
    assert forall|i: int| 0 <= i < before.len() implies #[trigger] before[i] != '.' && before[i]
        != ',' by {
        if negative && i == 0 {
        } else {
            let j = if negative {
                i - 1
            } else {
                i
            };
            assert(before[i] == whole[j]);
            assert(text::is_digit_spec(whole[j]));
        }
    }
    law_first_place_behind(before, separator, decimals);
    let at = before.len() as int;
    assert(field.take(at) =~= before);
    assert(field.skip(at + 1) =~= decimals);
    assert(text::is_digit_spec(whole[0]));
    if negative {
        assert(before.skip(1) =~= whole);
    } else {
        assert(before =~= whole);
    }
    let other = if separator == '.' {
        ','
    } else {
        '.'
    };
    law_first_place(field, other);
    let place = text::first_index(field, other);
    if place < field.len() {
        if place > at {
            assert(field[place] == decimals[place - at - 1]);
            assert(text::is_digit_spec(decimals[place - at - 1]));
        } else if place < at {
            assert(field[place] == before[place]);
        }
    }
}

/// Nothing but a decimal fraction is recognised as one.
pub proof fn law_only_fractions_are_numbers(field: Seq<char>, separator: char) -> (parts: (
    bool,
    Seq<char>,
    Seq<char>,
))
    requires
        infer::is_decimal_with(field, separator),
    ensures
        field == fraction(parts.0, parts.1, separator, parts.2),
        text_laws::is_number(parts.1),
        text_laws::is_number(parts.2),
{
    law_first_place(field, separator);
    let at = text::first_index(field, separator);
    let before = field.take(at);
    let decimals = field.skip(at + 1);
    if before.len() > 0 && before[0] == '-' {
        let whole = before.skip(1);
        assert(field =~= fraction(true, whole, separator, decimals));
        (true, whole, decimals)
    } else {
        assert(field =~= fraction(false, before, separator, decimals));
        (false, before, decimals)
    }
}

/// A field votes for the separator that it is written with, white space around
/// it or none.
pub proof fn law_fractions_vote_for_their_separator(
    before: Seq<char>,
    negative: bool,
    whole: Seq<char>,
    decimals: Seq<char>,
    after: Seq<char>,
)
    requires
        is_blank(before),
        is_blank(after),
        text_laws::is_number(whole),
        text_laws::is_number(decimals),
    ensures
        infer::field_vote(before + fraction(negative, whole, '.', decimals) + after) == Some(
            DecimalSeparator::Dot,
        ),
        infer::field_vote(before + fraction(negative, whole, ',', decimals) + after) == Some(
            DecimalSeparator::Comma,
        ),
{
    lemma_fraction_ends(negative, whole, '.', decimals);
    lemma_fraction_ends(negative, whole, ',', decimals);
    law_fractions_are_numbers(negative, whole, '.', decimals);
    law_fractions_are_numbers(negative, whole, ',', decimals);
    law_white_space_around_a_text_does_not_matter(
        before,
        fraction(negative, whole, '.', decimals),
        after,
    );
    law_white_space_around_a_text_does_not_matter(
        before,
        fraction(negative, whole, ',', decimals),
        after,
    );
}

/// A field that votes is a decimal fraction, white space taken off.
pub proof fn law_only_fractions_vote(field: Seq<char>) -> (parts: (bool, Seq<char>, Seq<char>))
    requires
        infer::field_vote(field) is Some,
    ensures
        text_laws::is_number(parts.1),
        text_laws::is_number(parts.2),
        infer::field_vote(field) == Some(DecimalSeparator::Dot) ==> text::trimmed(field)
            == fraction(parts.0, parts.1, '.', parts.2),
        infer::field_vote(field) == Some(DecimalSeparator::Comma) ==> text::trimmed(field)
            == fraction(parts.0, parts.1, ',', parts.2),
{
    if infer::is_decimal_with(text::trimmed(field), '.') {
        law_only_fractions_are_numbers(text::trimmed(field), '.')
    } else {
        law_only_fractions_are_numbers(text::trimmed(field), ',')
    }
}

/// In a table with decimal commas a fraction is the same number written with a
/// point, a negative one too. In a table with decimal points it stays as it is.
pub proof fn law_decimal_commas_become_points(
    before: Seq<char>,
    negative: bool,
    whole: Seq<char>,
    decimals: Seq<char>,
    after: Seq<char>,
)
    requires
        is_blank(before),
        is_blank(after),
        text_laws::is_number(whole),
        text_laws::is_number(decimals),
    ensures
        columns::normalized(
            before + fraction(negative, whole, ',', decimals) + after,
            DecimalSeparator::Comma,
        ) == before + fraction(negative, whole, '.', decimals) + after,
        columns::normalized(
            before + fraction(negative, whole, ',', decimals) + after,
            DecimalSeparator::Dot,
        ) == before + fraction(negative, whole, ',', decimals) + after,
        columns::normalized(
            before + fraction(negative, whole, '.', decimals) + after,
            DecimalSeparator::Comma,
        ) == before + fraction(negative, whole, '.', decimals) + after,
{
    let written = fraction(negative, whole, ',', decimals);
    let field = before + written + after;
    lemma_fraction_ends(negative, whole, ',', decimals);
    lemma_fraction_ends(negative, whole, '.', decimals);
    law_white_space_around_a_text_does_not_matter(before, written, after);
    law_fractions_are_numbers(negative, whole, ',', decimals);
    law_white_space_around_a_text_does_not_matter(
        before,
        fraction(negative, whole, '.', decimals),
        after,
    );
    law_fractions_are_numbers(negative, whole, '.', decimals);
    let sign: Seq<char> = if negative {
        seq!['-']
    } else {
        Seq::empty()
    };
    let head = before + sign + whole;
    assert forall|i: int| 0 <= i < head.len() implies #[trigger] head[i] != ',' by {
        if i < before.len() {
            assert(head[i] == before[i]);
            assert(text::is_space_spec(before[i]));
        } else if i < before.len() + sign.len() {
            assert(head[i] == sign[i - before.len()]);
        } else {
            assert(head[i] == whole[i - before.len() - sign.len()]);
            assert(text::is_digit_spec(whole[i - before.len() - sign.len()]));
        }
    }
    assert(field =~= head + seq![','] + (decimals + after));
    law_first_place_behind(head, ',', decimals + after);
    assert(field.update(head.len() as int, '.') =~= before + fraction(
        negative,
        whole,
        '.',
        decimals,
    ) + after);
}

/// A field that is no decimal fraction stays as it is.
pub proof fn law_other_fields_stay(field: Seq<char>, separator: DecimalSeparator)
    requires
        forall|negative: bool, whole: Seq<char>, decimals: Seq<char>|
            text_laws::is_number(whole) && text_laws::is_number(decimals) ==> text::trimmed(field)
                != #[trigger] fraction(negative, whole, ',', decimals),
    ensures
        columns::normalized(field, separator) == field,
{
    if infer::is_decimal_with(text::trimmed(field), ',') {
        let (negative, whole, decimals) = law_only_fractions_are_numbers(
            text::trimmed(field),
            ',',
        );
        assert(text::trimmed(field) != fraction(negative, whole, ',', decimals));
    }
}

proof fn lemma_record_votes_of_a_prefix(
    record: Seq<Seq<char>>,
    longer: Seq<Seq<char>>,
    separator: DecimalSeparator,
    n: int,
)
    requires
        0 <= n <= record.len(),
        record.is_prefix_of(longer),
    ensures
        infer::record_votes(record, separator, n) == infer::record_votes(longer, separator, n),
    decreases n,
{
    if n > 0 {
        lemma_record_votes_of_a_prefix(record, longer, separator, n - 1);
        assert(record[n - 1] == longer[n - 1]);
    }
}

proof fn lemma_votes_of_a_prefix(
    records: Seq<Seq<Seq<char>>>,
    longer: Seq<Seq<Seq<char>>>,
    separator: DecimalSeparator,
    n: int,
)
    requires
        0 <= n <= records.len(),
        records.is_prefix_of(longer),
    ensures
        infer::votes(records, separator, n) == infer::votes(longer, separator, n),
    decreases n,
{
    if n > 0 {
        lemma_votes_of_a_prefix(records, longer, separator, n - 1);
        assert(records[n - 1] == longer[n - 1]);
    }
}

/// The votes of a table.
pub open spec fn count(records: Seq<Seq<Seq<char>>>, separator: DecimalSeparator) -> nat {
    infer::votes(records, separator, records.len() as int)
}

/// Every field of a table has one vote: with one field more, in whatever record,
/// the separator that it is written with has one vote more and the other none.
pub proof fn law_every_field_has_one_vote(
    records: Seq<Seq<Seq<char>>>,
    record: Seq<Seq<char>>,
    field: Seq<char>,
    separator: DecimalSeparator,
)
    ensures
        count(Seq::empty(), separator) == 0,
        count(records.push(Seq::empty()), separator) == count(records, separator),
        count(records.push(record.push(field)), separator) == count(
            records.push(record),
            separator,
        ) + (if infer::field_vote(field) == Some(separator) {
            1nat
        } else {
            0nat
        }),
{
    let n = records.len() as int;
    assert(records.push(Seq::empty()).last() =~= Seq::<Seq<char>>::empty());
    lemma_votes_of_a_prefix(records, records.push(Seq::empty()), separator, n);
    lemma_votes_of_a_prefix(records, records.push(record), separator, n);
    lemma_votes_of_a_prefix(records, records.push(record.push(field)), separator, n);
    lemma_record_votes_of_a_prefix(
        record,
        record.push(field),
        separator,
        record.len() as int,
    );
    assert(infer::record_votes(Seq::<Seq<char>>::empty(), separator, 0) == 0);
}

proof fn lemma_record_without_votes(
    record: Seq<Seq<char>>,
    separator: DecimalSeparator,
    n: int,
)
    requires
        0 <= n <= record.len(),
    ensures
        infer::record_votes(record, separator, n) > 0 <==> exists|f: int|
            0 <= f < n && infer::field_vote(#[trigger] record[f]) == Some(separator),
    decreases n,
{
    if n > 0 {
        lemma_record_without_votes(record, separator, n - 1);
        if infer::field_vote(record[n - 1]) == Some(separator) {
        } else if infer::record_votes(record, separator, n - 1) > 0 {
            let f = choose|f: int|
                0 <= f < n - 1 && infer::field_vote(#[trigger] record[f]) == Some(separator);
            assert(infer::field_vote(record[f]) == Some(separator));
        }
    }
}

/// Some field of the first `n` records is written with the separator.
pub open spec fn is_used(
    records: Seq<Seq<Seq<char>>>,
    separator: DecimalSeparator,
    n: int,
) -> bool {
    exists|r: int, f: int|
        0 <= r < n && 0 <= f < records[r].len() && infer::field_vote(#[trigger] records[r][f])
            == Some(separator)
}

proof fn lemma_votes_of_used(
    records: Seq<Seq<Seq<char>>>,
    separator: DecimalSeparator,
    n: int,
)
    requires
        0 <= n <= records.len(),
    ensures
        infer::votes(records, separator, n) > 0 <==> is_used(records, separator, n),
    decreases n,
{
    if n > 0 {
        let record = records[n - 1];
        lemma_votes_of_used(records, separator, n - 1);
        lemma_record_without_votes(record, separator, record.len() as int);
        if infer::record_votes(record, separator, record.len() as int) > 0 {
            let f = choose|f: int|
                0 <= f < record.len() && infer::field_vote(#[trigger] record[f]) == Some(
                    separator,
                );
            assert(infer::field_vote(records[n - 1][f]) == Some(separator));
        } else if is_used(records, separator, n - 1) {
            let (r, f) = choose|r: int, f: int|
                0 <= r < n - 1 && 0 <= f < records[r].len() && infer::field_vote(
                    #[trigger] records[r][f],
                ) == Some(separator);
            assert(infer::field_vote(records[r][f]) == Some(separator));
        }
        if is_used(records, separator, n) {
            let (r, f) = choose|r: int, f: int|
                0 <= r < n && 0 <= f < records[r].len() && infer::field_vote(
                    #[trigger] records[r][f],
                ) == Some(separator);
            if r == n - 1 {
                assert(infer::field_vote(record[f]) == Some(separator));
            } else {
                assert(is_used(records, separator, n - 1));
            }
        }
    }
}

/// A table that holds a fraction with a decimal comma and none with a point is
/// read with the comma, and the choice is sure. One that holds none with a comma
/// is read with the point.
pub proof fn law_the_only_separator_is_elected(records: Seq<Seq<Seq<char>>>)
    requires
        count(records, DecimalSeparator::Dot) <= u128::MAX,
        count(records, DecimalSeparator::Comma) <= u128::MAX,
    ensures
        ({
            let n = records.len() as int;
            let elected = infer::elected_separator(records);
            let comma = is_used(records, DecimalSeparator::Comma, n);
            let dot = is_used(records, DecimalSeparator::Dot, n);
            &&& comma && !dot ==> elected.separator == DecimalSeparator::Comma
                && elected.confidence_spec() == Confidence::High
            &&& !comma ==> elected.separator == DecimalSeparator::Dot
            &&& !comma && dot ==> elected.confidence_spec() == Confidence::High
            &&& !comma && !dot ==> elected.confidence_spec() == Confidence::Low
        }),
{
    lemma_votes_of_used(records, DecimalSeparator::Comma, records.len() as int);
    lemma_votes_of_used(records, DecimalSeparator::Dot, records.len() as int);
}

/// The separator with more votes is elected, the point if neither has more. The
/// choice is sure unless both have the same number.
pub proof fn law_most_votes_win(records: Seq<Seq<Seq<char>>>)
    requires
        count(records, DecimalSeparator::Dot) <= u128::MAX,
        count(records, DecimalSeparator::Comma) <= u128::MAX,
    ensures
        ({
            let elected = infer::elected_separator(records);
            let commas = count(records, DecimalSeparator::Comma);
            let dots = count(records, DecimalSeparator::Dot);
            &&& commas > dots <==> elected.separator == DecimalSeparator::Comma
            &&& commas != dots <==> elected.confidence_spec() == Confidence::High
            &&& elected.comma_votes == commas
            &&& elected.dot_votes == dots
        }),
{
}

} // verus!
