//! Of what type a column is, and what its values are.

use vstd::prelude::*;
use crate::ingest::columns;
use crate::ingest::separator_laws;
use crate::series::dtype::{Dtype, Samples};
use crate::text;
use crate::text_laws;
use crate::text_laws::{
    law_an_integer_is_spelled_by_digits,
    law_white_space_around_a_text_does_not_matter,
};
use crate::time::round_trip::lemma_decimal_text_chars;

verus! {

/// A text with white space around it, or none.
pub open spec fn is_padded(field: Seq<char>, s: Seq<char>) -> bool {
    exists|before: Seq<char>, after: Seq<char>|
        separator_laws::is_blank(before) && separator_laws::is_blank(after) && field
            == #[trigger] (before + s + after)
}

proof fn lemma_padding_is_trimmed(field: Seq<char>, s: Seq<char>)
    requires
        is_padded(field, s),
        s.len() > 0,
        !text::is_space_spec(s[0]),
        !text::is_space_spec(s.last()),
    ensures
        text::trimmed(field) == s,
{
    let (before, after) = choose|before: Seq<char>, after: Seq<char>|
        separator_laws::is_blank(before) && separator_laws::is_blank(after) && field
            == #[trigger] (before + s + after);
    law_white_space_around_a_text_does_not_matter(before, s, after);
}

/// The two words for flags, in either case and with white space around them.
pub proof fn law_words_for_flags(field: Seq<char>, word: Seq<char>)
    requires
        is_padded(field, word),
    ensures
        text::equal_ignoring_case(word, seq!['t', 'r', 'u', 'e']) ==> columns::bool_of(field)
            == Some(true),
        text::equal_ignoring_case(word, seq!['f', 'a', 'l', 's', 'e']) ==> columns::bool_of(field)
            == Some(false),
{
    reveal_strlit("true");
    reveal_strlit("false");
    assert("true"@ =~= seq!['t', 'r', 'u', 'e']);
    assert("false"@ =~= seq!['f', 'a', 'l', 's', 'e']);
    if text::equal_ignoring_case(word, "true"@) || text::equal_ignoring_case(word, "false"@) {
        let n = word.len() as int;
        assert(text::lower_ascii(word[0]) == 't' || text::lower_ascii(word[0]) == 'f');
        assert(text::lower_ascii(word[n - 1]) == 'e');
        lemma_padding_is_trimmed(field, word);
    }
}

/// Nothing else is a flag.
pub proof fn law_only_two_words_are_flags(field: Seq<char>)
    requires
        columns::bool_of(field) is Some,
    ensures
        text::equal_ignoring_case(
            text::trimmed(field),
            if columns::bool_of(field) == Some(true) {
                seq!['t', 'r', 'u', 'e']
            } else {
                seq!['f', 'a', 'l', 's', 'e']
            },
        ),
{
    reveal_strlit("true");
    reveal_strlit("false");
    assert("true"@ =~= seq!['t', 'r', 'u', 'e']);
    assert("false"@ =~= seq!['f', 'a', 'l', 's', 'e']);
}

/// Every integer that fits is read as what it is, with white space around it or
/// none. One that does not fit is no integer here.
pub proof fn law_integers_are_read_as_they_are(field: Seq<char>, n: int)
    requires
        is_padded(field, text::decimal_text(n)),
        i128::MIN <= n <= i128::MAX,
    ensures
        i64::MIN <= n <= i64::MAX ==> columns::i64_of(field) == Some(n as i64),
        n < i64::MIN || i64::MAX < n ==> columns::i64_of(field) is None,
        columns::bool_of(field) is None,
        columns::is_f64(field),
{
    let s = text::decimal_text(n);
    lemma_decimal_text_chars(n);
    lemma_padding_is_trimmed(field, s);
    text::law_decimal_text_round_trips(n, i128::MIN as int, i128::MAX as int);
    reveal_strlit("true");
    reveal_strlit("false");
    if text::equal_ignoring_case(s, "true"@) || text::equal_ignoring_case(s, "false"@) {
        assert(text::lower_ascii(s[0]) == 't' || text::lower_ascii(s[0]) == 'f');
    }
    lemma_integers_are_numbers(n);
}

proof fn lemma_integers_are_numbers(n: int)
    ensures
        text::is_number_text(text::decimal_text(n)),
{
    let magnitude = (if n < 0 {
        -n
    } else {
        n
    }) as nat;
    let digits = text::decimal_digits(magnitude);
    text::lemma_decimal_digits(magnitude);
    text_laws::lemma_digit_run(digits, Seq::empty());
    assert(digits + Seq::empty() =~= digits);
    assert(text::is_digit_spec(digits[0]));
    assert(digits.skip(digits.len() as int) =~= Seq::empty());
    if n < 0 {
        assert(text::decimal_text(n).skip(1) =~= digits);
    }
}

/// A fraction is a number and no integer.
pub proof fn law_fractions_are_no_integers(
    field: Seq<char>,
    negative: bool,
    whole: Seq<char>,
    decimals: Seq<char>,
)
    requires
        text_laws::is_number(whole),
        text_laws::is_number(decimals),
        is_padded(field, separator_laws::fraction(negative, whole, '.', decimals)),
    ensures
        columns::i64_of(field) is None,
        columns::bool_of(field) is None,
        columns::is_f64(field),
{
    let s = separator_laws::fraction(negative, whole, '.', decimals);
    let n = s.len() as int;
    assert(text::is_digit_spec(whole[0]));
    assert(text::is_digit_spec(decimals[decimals.len() - 1]));
    assert(s[n - 1] == decimals[decimals.len() - 1]);
    assert(s[0] == (if negative {
        '-'
    } else {
        whole[0]
    }));
    lemma_padding_is_trimmed(field, s);
    let at = n - 1 - decimals.len();
    assert(s[at] == '.');
    if text::integer_of(s, i128::MIN as int, i128::MAX as int) is Ok {
        law_an_integer_is_spelled_by_digits(s, i128::MIN as int, i128::MAX as int);
        if negative {
            assert(s.skip(1)[at - 1] == '.');
            assert(text::is_digit_spec(s.skip(1)[at - 1]));
        } else {
            assert(text::is_digit_spec(s[at]));
        }
    }
    reveal_strlit("true");
    reveal_strlit("false");
    if text::equal_ignoring_case(s, "true"@) || text::equal_ignoring_case(s, "false"@) {
        assert(text::lower_ascii(s[0]) == 't' || text::lower_ascii(s[0]) == 'f');
    }
    lemma_fraction_is_a_number(negative, whole, decimals);
}

proof fn lemma_fraction_is_a_number(negative: bool, whole: Seq<char>, decimals: Seq<char>)
    requires
        text_laws::is_number(whole),
        text_laws::is_number(decimals),
    ensures
        text::is_number_text(separator_laws::fraction(negative, whole, '.', decimals)),
{
    let sign: Seq<char> = if negative {
        seq!['-']
    } else {
        Seq::empty()
    };
    text_laws::law_decimal_notation_is_a_number(
        sign,
        whole,
        true,
        decimals,
        Seq::empty(),
        Seq::empty(),
        Seq::empty(),
    );
    assert(sign + (whole + (seq!['.'] + decimals) + Seq::empty()) =~= separator_laws::fraction(
        negative,
        whole,
        '.',
        decimals,
    ));
}

/// A column of flags holds the flags, in the order of the rows.
pub proof fn law_flags_make_a_column_of_flags(
    fields: Seq<Seq<char>>,
    words: Seq<Seq<char>>,
    flags: Seq<bool>,
    numbers: Seq<u64>,
)
    requires
        fields.len() > 0,
        words.len() == fields.len(),
        flags.len() == fields.len(),
        forall|i: int|
            0 <= i < fields.len() ==> {
                &&& is_padded(#[trigger] fields[i], words[i])
                &&& flags[i] ==> text::equal_ignoring_case(words[i], seq!['t', 'r', 'u', 'e'])
                &&& !flags[i] ==> text::equal_ignoring_case(
                    words[i],
                    seq!['f', 'a', 'l', 's', 'e'],
                )
            },
    ensures
        columns::column_dtype(fields) == Dtype::Bool,
        columns::column_samples(fields, numbers) == Samples::Bool(flags),
{
    assert forall|i: int| 0 <= i < fields.len() implies columns::bool_of(#[trigger] fields[i])
        == Some(flags[i]) by {
        law_words_for_flags(fields[i], words[i]);
    }
    assert(Seq::new(fields.len(), |i: int| columns::bool_of(fields[i]).unwrap()) =~= flags);
}

/// A column of integers that all fit holds the integers, in the order of the rows.
pub proof fn law_integers_make_a_column_of_integers(
    fields: Seq<Seq<char>>,
    integers: Seq<i64>,
    numbers: Seq<u64>,
)
    requires
        fields.len() > 0,
        integers.len() == fields.len(),
        forall|i: int|
            0 <= i < fields.len() ==> is_padded(
                #[trigger] fields[i],
                text::decimal_text(integers[i] as int),
            ),
    ensures
        columns::column_dtype(fields) == Dtype::I64,
        columns::column_samples(fields, numbers) == Samples::I64(integers),
{
    assert forall|i: int| 0 <= i < fields.len() implies columns::i64_of(#[trigger] fields[i])
        == Some(integers[i]) && columns::bool_of(fields[i]) is None by {
        law_integers_are_read_as_they_are(fields[i], integers[i] as int);
    }
    assert(columns::bool_of(fields[0]) is None);
    assert(Seq::new(fields.len(), |i: int| columns::i64_of(fields[i]).unwrap()) =~= integers);
}

/// A column of numbers of which one is a fraction is a column of floating point
/// numbers, as many as rows.
pub proof fn law_one_fraction_makes_a_column_of_numbers(
    fields: Seq<Seq<char>>,
    numbers: Seq<u64>,
    at: int,
    negative: bool,
    whole: Seq<char>,
    decimals: Seq<char>,
)
    requires
        0 <= at < fields.len(),
        numbers.len() == fields.len(),
        text_laws::is_number(whole),
        text_laws::is_number(decimals),
        is_padded(fields[at], separator_laws::fraction(negative, whole, '.', decimals)),
        forall|i: int|
            0 <= i < fields.len() ==> text::is_number_text(text::trimmed(#[trigger] fields[i])),
    ensures
        columns::column_dtype(fields) == Dtype::F64,
        columns::column_samples(fields, numbers) == Samples::F64(numbers),
        columns::number_texts(fields).len() == fields.len(),
        forall|i: int|
            0 <= i < fields.len() ==> #[trigger] columns::number_texts(fields)[i] == text::trimmed(
                fields[i],
            ),
{
    law_fractions_are_no_integers(fields[at], negative, whole, decimals);
    assert(columns::bool_of(fields[at]) is None);
    assert(columns::i64_of(fields[at]) is None);
    assert forall|i: int| 0 <= i < fields.len() implies columns::is_f64(#[trigger] fields[i]) by {
        assert(text::is_number_text(text::trimmed(fields[i])));
    }
    assert(Seq::new(fields.len(), |i: int| columns::number_at(numbers, i)) =~= numbers);
}

/// A column with a field that is no number, and with one that is no flag, is a
/// column of text: every field as it stands in the file.
pub proof fn law_anything_else_is_text(
    fields: Seq<Seq<char>>,
    numbers: Seq<u64>,
    at: int,
    other: int,
)
    requires
        0 <= at < fields.len(),
        0 <= other < fields.len(),
        !text::is_number_text(text::trimmed(fields[at])),
        columns::bool_of(fields[other]) is None,
    ensures
        columns::column_dtype(fields) == Dtype::String,
        columns::column_samples(fields, numbers) == Samples::String(fields),
{
    assert(!columns::is_f64(fields[at]));
    if columns::i64_of(fields[at]) is Some {
        let s = text::trimmed(fields[at]);
        law_an_integer_is_spelled_by_digits(s, i128::MIN as int, i128::MAX as int);
        lemma_spelled_integer_is_a_number(s);
    }
}

proof fn lemma_spelled_integer_is_a_number(s: Seq<char>)
    requires
        s.len() > 0,
        text::all_digits(s) || ((s[0] == '+' || s[0] == '-') && s.len() > 1 && text::all_digits(
            s.skip(1),
        )),
    ensures
        text::is_number_text(s),
{
    let none: Seq<char> = Seq::empty();
    if text::all_digits(s) {
        assert(text::is_digit_spec(s[0]));
        text_laws::law_decimal_notation_is_a_number(none, s, false, none, none, none, none);
        assert(none + (s + none + none) =~= s);
    } else {
        let sign = s.take(1);
        assert(sign =~= seq![s[0]]);
        text_laws::law_decimal_notation_is_a_number(
            sign,
            s.skip(1),
            false,
            none,
            none,
            none,
            none,
        );
        assert(sign + (s.skip(1) + none + none) =~= s);
    }
}

/// A column without fields is a column of text.
pub proof fn law_no_fields_are_text()
    ensures
        columns::column_dtype(Seq::empty()) == Dtype::String,
{
}

/// However an integer is written, with zeros before it or with a sign, it is read
/// as what it counts.
pub proof fn law_spelled_integers_are_read(field: Seq<char>, sign: Seq<char>, digits: Seq<char>)
    requires
        text_laws::is_number(digits),
        sign == Seq::<char>::empty() || sign == seq!['+'] || sign == seq!['-'],
        is_padded(field, sign + digits),
        text::digits_value(digits) <= i64::MAX,
    ensures
        columns::i64_of(field) == Some(
            (if sign == seq!['-'] {
                -text::digits_value(digits)
            } else {
                text::digits_value(digits) as int
            }) as i64,
        ),
{
    let s = sign + digits;
    assert(text::is_digit_spec(digits[0]));
    assert(text::is_digit_spec(digits[digits.len() - 1]));
    assert(s.last() == digits[digits.len() - 1]);
    if sign.len() == 0 {
        assert(s =~= digits);
    }
    lemma_padding_is_trimmed(field, s);
    text_laws::law_digits_spell_an_integer(digits, i128::MIN as int, i128::MAX as int);
}

} // verus!
