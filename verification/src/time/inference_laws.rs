//! What the format that is inferred for a column of timestamps says about its
//! fields, and what the fields say about the format.

use vstd::prelude::*;
use crate::text;
use crate::text_laws;
use crate::text_laws::{
    law_an_integer_is_spelled_by_digits, law_digits_spell_an_integer, law_first_place,
    law_first_place_behind, law_trimming_takes_the_white_space_off,
    law_white_space_around_a_text_does_not_matter,
};
use crate::time::format::TimestampFormat;
use crate::time::inference;
use crate::time::inference::TimestampFormatInference;

verus! {

/// Two numbers, each with a slash behind it, and then `rest`.
pub open spec fn slashed(first: Seq<char>, second: Seq<char>, rest: Seq<char>) -> Seq<char> {
    first + seq!['/'] + second + seq!['/'] + rest
}

proof fn lemma_digits_are_not_trimmed(digits: Seq<char>)
    requires
        text_laws::is_number(digits),
    ensures
        text::trimmed(digits) == digits,
{
    assert(text::is_digit_spec(digits[0]));
    assert(text::is_digit_spec(digits[digits.len() - 1]));
    let (from, to) = law_trimming_takes_the_white_space_off(digits);
    if from > 0 {
        assert(text::is_space_spec(digits[0]));
    }
    if to < digits.len() {
        assert(text::is_space_spec(digits[digits.len() - 1]));
    }
    assert(digits.subrange(from, to) =~= digits);
}

/// Trimming leaves the two numbers and their slashes, and a part of the rest.
proof fn lemma_slashed_is_trimmed_behind(
    first: Seq<char>,
    second: Seq<char>,
    rest: Seq<char>,
) -> (kept: Seq<char>)
    requires
        text_laws::is_number(first),
        text_laws::is_number(second),
    ensures
        text::trimmed(slashed(first, second, rest)) == slashed(first, second, kept),
{
    let s = slashed(first, second, rest);
    let (from, to) = law_trimming_takes_the_white_space_off(s);
    assert(s[0] == first[0]);
    assert(text::is_digit_spec(first[0]));
    let behind = first.len() + second.len() + 2;
    assert(s[behind - 1] == '/');
    if from > 0 {
        assert(text::is_space_spec(s[0]));
    }
    if to < behind {
        assert(text::is_space_spec(s[behind - 1]));
    }
    let kept = rest.take(to - behind);
    assert(s.subrange(from, to) =~= slashed(first, second, kept));
    kept
}

/// The numbers that a date begins with are those before its first two slashes,
/// however many digits they have and whatever comes behind.
pub proof fn law_leading_numbers(first: Seq<char>, second: Seq<char>, rest: Seq<char>)
    requires
        text_laws::is_number(first),
        text_laws::is_number(second),
        text::digits_value(first) <= u32::MAX,
        text::digits_value(second) <= u32::MAX,
    ensures
        inference::leading_groups(slashed(first, second, rest)) == Some(
            (text::digits_value(first) as int, text::digits_value(second) as int),
        ),
{
    let kept = lemma_slashed_is_trimmed_behind(first, second, rest);
    let s = slashed(first, second, kept);
    assert forall|i: int| 0 <= i < first.len() implies #[trigger] first[i] != '/' by {
        assert(text::is_digit_spec(first[i]));
    }
    assert forall|i: int| 0 <= i < second.len() implies #[trigger] second[i] != '/' by {
        assert(text::is_digit_spec(second[i]));
    }
    let behind = second + seq!['/'] + kept;
    assert(s =~= first + seq!['/'] + behind);
    law_first_place_behind(first, '/', behind);
    law_first_place_behind(second, '/', kept);
    assert(s.take(first.len() as int) =~= first);
    assert(s.skip(first.len() as int + 1) =~= behind);
    assert(behind.take(second.len() as int) =~= second);
    lemma_digits_are_not_trimmed(first);
    lemma_digits_are_not_trimmed(second);
    law_digits_spell_an_integer(first, 0, u32::MAX as int);
    law_digits_spell_an_integer(second, 0, u32::MAX as int);
}

/// Only a text with two slashes and a number before each begins with two numbers.
pub proof fn law_leading_numbers_stand_before_slashes(field: Seq<char>) -> (parts: (
    Seq<char>,
    Seq<char>,
    Seq<char>,
))
    requires
        inference::leading_groups(field) is Some,
    ensures
        ({
            let (first, second, rest) = parts;
            let (a, b) = inference::leading_groups(field)->0;
            &&& text::trimmed(field) == slashed(first, second, rest)
            &&& !first.contains('/')
            &&& !second.contains('/')
            &&& text::integer_of(text::trimmed(first), 0, u32::MAX as int) == Ok::<
                int,
                text::IntegerError,
            >(a)
            &&& text::integer_of(text::trimmed(second), 0, u32::MAX as int) == Ok::<
                int,
                text::IntegerError,
            >(b)
            &&& 0 <= a <= u32::MAX
            &&& 0 <= b <= u32::MAX
        }),
{
    let s = text::trimmed(field);
    law_first_place(s, '/');
    let at = text::first_index(s, '/');
    let behind = s.skip(at + 1);
    law_first_place(behind, '/');
    let next = text::first_index(behind, '/');
    let first = s.take(at);
    let second = behind.take(next);
    let rest = behind.skip(next + 1);
    assert(s =~= slashed(first, second, rest));
    assert forall|i: int| 0 <= i < first.len() implies #[trigger] first[i] != '/' by {
        assert(first[i] == s[i]);
    }
    assert forall|i: int| 0 <= i < second.len() implies #[trigger] second[i] != '/' by {
        assert(second[i] == behind[i]);
    }
    law_an_integer_is_spelled_by_digits(text::trimmed(first), 0, u32::MAX as int);
    law_an_integer_is_spelled_by_digits(text::trimmed(second), 0, u32::MAX as int);
    (first, second, rest)
}

/// A text with a slash in it is no number.
proof fn lemma_slashed_is_no_number(
    first: Seq<char>,
    second: Seq<char>,
    rest: Seq<char>,
    format: TimestampFormat,
)
    requires
        text_laws::is_number(first),
        text_laws::is_number(second),
        inference::is_numeric(format),
    ensures
        !inference::numeric_match(slashed(first, second, rest), format),
{
    let field = slashed(first, second, rest);
    let kept = lemma_slashed_is_trimmed_behind(first, second, rest);
    let s = slashed(first, second, kept);
    let slash = first.len() as int;
    assert(s[slash] == '/');
    assert(text::is_digit_spec(first[0]));
    assert(s[0] == first[0]);
    let min = i128::MIN as int;
    let max = i128::MAX as int;
    if text::integer_of(s, min, max) is Ok {
        law_an_integer_is_spelled_by_digits(s, min, max);
        assert(text::is_digit_spec(s[slash]));
    }
    if crate::time::format::decimal_parts(s) is Some {
        let again = text::trimmed(s);
        let (from, to) = law_trimming_takes_the_white_space_off(s);
        if from > 0 {
            assert(text::is_space_spec(s[0]));
        }
        let behind = first.len() + second.len() + 2;
        assert(s[behind - 1] == '/');
        if to < behind {
            assert(text::is_space_spec(s[behind - 1]));
        }
        assert(again[slash] == '/');
        assert(again[0] == first[0]);
        law_first_place(again, '.');
        let dot = text::first_index(again, '.');
        assert forall|i: int| 0 <= i < first.len() implies #[trigger] again[i] != '.' by {
            assert(again[i] == first[i]);
            assert(text::is_digit_spec(first[i]));
        }
        let whole = again.take(dot);
        assert(dot > slash);
        assert(whole[slash] == '/');
        assert(whole[0] == first[0]);
        law_an_integer_is_spelled_by_digits(whole, min, max);
        assert(text::is_digit_spec(whole[slash]));
    }
}

/// In a column of dates with slashes, a first number over twelve shows that the
/// day comes first and a second one over twelve that the month does. With both
/// there is no format. With neither the day is taken to come first, which is
/// then marked as ambiguous. All of it holds whatever the numbers are, and
/// however they are written.
pub proof fn law_numbers_over_twelve_tell_day_from_month(
    fields: Seq<Seq<char>>,
    firsts: Seq<Seq<char>>,
    seconds: Seq<Seq<char>>,
    rests: Seq<Seq<char>>,
    day_over: bool,
    month_over: bool,
)
    requires
        fields.len() > 0,
        firsts.len() == fields.len(),
        seconds.len() == fields.len(),
        rests.len() == fields.len(),
        forall|i: int|
            0 <= i < fields.len() ==> {
                &&& #[trigger] fields[i] == slashed(firsts[i], seconds[i], rests[i])
                &&& text_laws::is_number(firsts[i])
                &&& text_laws::is_number(seconds[i])
                &&& text::digits_value(firsts[i]) <= u32::MAX
                &&& text::digits_value(seconds[i]) <= u32::MAX
            },
        day_over <==> exists|i: int|
            0 <= i < fields.len() && text::digits_value(#[trigger] firsts[i]) > 12,
        month_over <==> exists|i: int|
            0 <= i < fields.len() && text::digits_value(#[trigger] seconds[i]) > 12,
        !inference::all_match(fields, TimestampFormat::Iso8601WithOffset),
        !inference::all_match(fields, TimestampFormat::Iso8601Naive),
    ensures
        ({
            let inferred = inference::inferred_format(fields);
            let reads_day_first = forall|i: int|
                0 <= i < fields.len() ==> crate::time::format::reading(
                    #[trigger] fields[i],
                    TimestampFormat::DayFirst,
                ) is Ok;
            let reads_month_first = forall|i: int|
                0 <= i < fields.len() ==> crate::time::format::reading(
                    #[trigger] fields[i],
                    TimestampFormat::MonthFirst,
                ) is Ok;
            &&& month_over && !day_over && reads_month_first ==> inferred == Some(
                (TimestampFormatInference { format: TimestampFormat::MonthFirst, ambiguous: false }),
            )
            &&& day_over && !month_over && reads_day_first ==> inferred == Some(
                (TimestampFormatInference { format: TimestampFormat::DayFirst, ambiguous: false }),
            )
            &&& !day_over && !month_over && reads_day_first ==> inferred == Some(
                (TimestampFormatInference { format: TimestampFormat::DayFirst, ambiguous: true }),
            )
            &&& day_over && month_over ==> inferred is None
            &&& month_over && !reads_month_first ==> inferred is None
            &&& !month_over && !reads_day_first ==> inferred is None
        }),
{
    assert forall|i: int| 0 <= i < fields.len() implies inference::leading_groups(
        #[trigger] fields[i],
    ) == Some(
        (text::digits_value(firsts[i]) as int, text::digits_value(seconds[i]) as int),
    ) by {
        law_leading_numbers(firsts[i], seconds[i], rests[i]);
    }
    assert forall|format: TimestampFormat| inference::is_numeric(format) implies !(
    #[trigger] inference::all_numeric(fields, format)) by {
        assert(fields[0] == slashed(firsts[0], seconds[0], rests[0]));
        lemma_slashed_is_no_number(firsts[0], seconds[0], rests[0], format);
        assert(!inference::numeric_match(fields[0], format));
    }
    if day_over {
        let i = choose|i: int|
            0 <= i < fields.len() && text::digits_value(#[trigger] firsts[i]) > 12;
        assert((inference::leading_groups(fields[i])->0).0 > 12);
    }
    if month_over {
        let i = choose|i: int|
            0 <= i < fields.len() && text::digits_value(#[trigger] seconds[i]) > 12;
        assert((inference::leading_groups(fields[i])->0).1 > 12);
    }
    if inference::day_first_evidence(fields) {
        let i = choose|i: int|
            0 <= i < fields.len() && (inference::leading_groups(#[trigger] fields[i])->0).0 > 12;
        assert(text::digits_value(firsts[i]) > 12);
    }
    if inference::month_first_evidence(fields) {
        let i = choose|i: int|
            0 <= i < fields.len() && (inference::leading_groups(#[trigger] fields[i])->0).1 > 12;
        assert(text::digits_value(seconds[i]) > 12);
    }
    assert(inference::all_slashed(fields));
    assert(!inference::all_numeric(fields, TimestampFormat::EpochNanos));
    assert(!inference::all_numeric(fields, TimestampFormat::EpochMicros));
    assert(!inference::all_numeric(fields, TimestampFormat::EpochMillis));
    assert(!inference::all_numeric(fields, TimestampFormat::EpochSeconds));
    assert(!inference::all_numeric(fields, TimestampFormat::LabViewEpoch));
    assert(!inference::all_numeric(fields, TimestampFormat::ExcelSerial));
}

/// The number that a field of digits spells, and the text of it.
proof fn lemma_whole_number(digits: Seq<char>)
    requires
        text_laws::is_number(digits),
        text::digits_value(digits) <= i128::MAX,
    ensures
        text::trimmed(digits) == digits,
        text::integer_of(digits, i128::MIN as int, i128::MAX as int) == Ok::<
            int,
            text::IntegerError,
        >(text::digits_value(digits) as int),
        crate::time::format::decimal_parts(digits) == Some(
            (text::digits_value(digits) as int, Seq::<char>::empty()),
        ),
{
    lemma_digits_are_not_trimmed(digits);
    law_digits_spell_an_integer(digits, i128::MIN as int, i128::MAX as int);
    law_first_place(digits, '.');
    let dot = text::first_index(digits, '.');
    if dot < digits.len() {
        assert(text::is_digit_spec(digits[dot]));
    }
    assert(digits.take(dot) =~= digits);
}

/// Whether a whole number is taken for a time depends on its size alone. From
/// 2001 to 2286 it is a number of ten digits of seconds, of thirteen of
/// milliseconds, and so on; LabVIEW counts seconds from 1904, and Excel days from
/// the end of 1899.
pub proof fn law_sizes_of_epochs(digits: Seq<char>)
    requires
        text_laws::is_number(digits),
        text::digits_value(digits) <= i128::MAX,
    ensures
        ({
            let n = text::digits_value(digits);
            &&& inference::matches_format(digits, TimestampFormat::EpochSeconds) <==> 1_000_000_000
                <= n < 10_000_000_000
            &&& inference::matches_format(digits, TimestampFormat::EpochMillis)
                <==> 1_000_000_000_000 <= n < 10_000_000_000_000
            &&& inference::matches_format(digits, TimestampFormat::EpochMicros)
                <==> 1_000_000_000_000_000 <= n < 10_000_000_000_000_000
            &&& inference::matches_format(digits, TimestampFormat::EpochNanos)
                <==> 1_000_000_000_000_000_000 <= n < 10_000_000_000_000_000_000
            &&& inference::matches_format(digits, TimestampFormat::LabViewEpoch) <==> 3_082_844_800
                <= n < 12_082_844_800
            &&& inference::matches_format(digits, TimestampFormat::ExcelSerial) <==> 37_143 <= n
                < 141_309
        }),
{
    lemma_whole_number(digits);
}

/// Before 1970 a number of seconds is negative. Its size without the sign is what
/// counts.
pub proof fn law_sizes_of_negative_epochs(digits: Seq<char>)
    requires
        text_laws::is_number(digits),
        text::digits_value(digits) <= i128::MAX,
    ensures
        ({
            let n = text::digits_value(digits);
            let field = seq!['-'] + digits;
            &&& inference::matches_format(field, TimestampFormat::EpochSeconds) <==> 1_000_000_000
                <= n < 10_000_000_000
            &&& inference::matches_format(field, TimestampFormat::EpochMillis)
                <==> 1_000_000_000_000 <= n < 10_000_000_000_000
            &&& inference::matches_format(field, TimestampFormat::EpochMicros)
                <==> 1_000_000_000_000_000 <= n < 10_000_000_000_000_000
            &&& inference::matches_format(field, TimestampFormat::EpochNanos)
                <==> 1_000_000_000_000_000_000 <= n < 10_000_000_000_000_000_000
        }),
{
    let field = seq!['-'] + digits;
    assert(text::is_digit_spec(digits[digits.len() - 1]));
    assert(field.last() == digits[digits.len() - 1]);
    let (from, to) = law_trimming_takes_the_white_space_off(field);
    if from > 0 {
        assert(text::is_space_spec(field[0]));
    }
    if to < field.len() {
        assert(text::is_space_spec(field[field.len() - 1]));
    }
    assert(field.subrange(from, to) =~= field);
    law_digits_spell_an_integer(digits, i128::MIN as int, i128::MAX as int);
}

proof fn lemma_decimal_field_is_not_trimmed(whole: Seq<char>, fraction: Seq<char>)
    requires
        text_laws::is_number(whole),
        text_laws::is_number(fraction),
    ensures
        text::trimmed(whole + seq!['.'] + fraction) == whole + seq!['.'] + fraction,
{
    let field = whole + seq!['.'] + fraction;
    assert(text::is_digit_spec(whole[0]));
    assert(text::is_digit_spec(fraction[fraction.len() - 1]));
    assert(field[0] == whole[0]);
    assert(field.last() == fraction[fraction.len() - 1]);
    let (from, to) = law_trimming_takes_the_white_space_off(field);
    if from > 0 {
        assert(text::is_space_spec(field[0]));
    }
    if to < field.len() {
        assert(text::is_space_spec(field[field.len() - 1]));
    }
    assert(field.subrange(from, to) =~= field);
}

proof fn lemma_decimal_field_is_no_integer(whole: Seq<char>, fraction: Seq<char>)
    requires
        text_laws::is_number(whole),
    ensures
        text::integer_of(
            whole + seq!['.'] + fraction,
            i128::MIN as int,
            i128::MAX as int,
        ) is Err,
{
    let field = whole + seq!['.'] + fraction;
    let at = whole.len() as int;
    assert(field[at] == '.');
    assert(text::is_digit_spec(whole[0]));
    assert(field[0] == whole[0]);
    if text::integer_of(field, i128::MIN as int, i128::MAX as int) is Ok {
        law_an_integer_is_spelled_by_digits(field, i128::MIN as int, i128::MAX as int);
        assert(text::is_digit_spec(field[at]));
    }
}

proof fn lemma_decimal_field(whole: Seq<char>, fraction: Seq<char>)
    requires
        text_laws::is_number(whole),
        text_laws::is_number(fraction),
        text::digits_value(whole) <= i128::MAX,
    ensures
        crate::time::format::decimal_parts(whole + seq!['.'] + fraction) == Some(
            (text::digits_value(whole) as int, fraction),
        ),
{
    let field = whole + seq!['.'] + fraction;
    lemma_decimal_field_is_not_trimmed(whole, fraction);
    assert forall|i: int| 0 <= i < whole.len() implies #[trigger] whole[i] != '.' by {
        assert(text::is_digit_spec(whole[i]));
    }
    law_first_place_behind(whole, '.', fraction);
    assert(field.take(whole.len() as int) =~= whole);
    assert(field.skip(whole.len() as int + 1) =~= fraction);
    assert(text::integer_of(whole, i128::MIN as int, i128::MAX as int) == Ok::<
        int,
        text::IntegerError,
    >(text::digits_value(whole) as int)) by {
        law_digits_spell_an_integer(whole, i128::MIN as int, i128::MAX as int);
    }
}

/// A number of seconds or days with a fraction is told by its whole part.
pub proof fn law_sizes_of_decimal_times(whole: Seq<char>, fraction: Seq<char>)
    requires
        text_laws::is_number(whole),
        text_laws::is_number(fraction),
        text::digits_value(whole) <= i128::MAX,
    ensures
        ({
            let n = text::digits_value(whole);
            let field = whole + seq!['.'] + fraction;
            &&& inference::matches_format(field, TimestampFormat::LabViewEpoch) <==> 3_082_844_800
                <= n < 12_082_844_800
            &&& inference::matches_format(field, TimestampFormat::ExcelSerial) <==> 37_143 <= n
                < 141_309
            &&& !inference::matches_format(field, TimestampFormat::EpochSeconds)
            &&& !inference::matches_format(field, TimestampFormat::EpochMillis)
            &&& !inference::matches_format(field, TimestampFormat::EpochMicros)
            &&& !inference::matches_format(field, TimestampFormat::EpochNanos)
        }),
{
    lemma_decimal_field_is_not_trimmed(whole, fraction);
    lemma_decimal_field_is_no_integer(whole, fraction);
    lemma_decimal_field(whole, fraction);
}

/// Every number of a column lies from `low` to below `high`.
pub open spec fn all_between(fields: Seq<Seq<char>>, low: int, high: int) -> bool {
    forall|i: int| 0 <= i < fields.len() ==> low <= text::digits_value(#[trigger] fields[i]) < high
}

proof fn lemma_all_numeric(fields: Seq<Seq<char>>, format: TimestampFormat, low: int, high: int)
    requires
        forall|i: int|
            0 <= i < fields.len() ==> text_laws::is_number(#[trigger] fields[i]) && text::digits_value(
                fields[i],
            ) <= i128::MAX,
        inference::is_numeric(format),
        inference::plausible_range(format) == (low, high),
    ensures
        inference::all_numeric(fields, format) <==> all_between(fields, low, high),
{
    assert forall|i: int| 0 <= i < fields.len() implies (inference::numeric_match(
        #[trigger] fields[i],
        format,
    ) <==> low <= text::digits_value(fields[i]) < high) by {
        lemma_whole_number(fields[i]);
    }
    if inference::all_numeric(fields, format) {
        assert forall|i: int| 0 <= i < fields.len() implies low <= text::digits_value(
            #[trigger] fields[i],
        ) < high by {
            assert(inference::numeric_match(fields[i], format));
        }
    }
    if all_between(fields, low, high) {
        assert forall|i: int| 0 <= i < fields.len() implies inference::numeric_match(
            #[trigger] fields[i],
            format,
        ) by {
            assert(low <= text::digits_value(fields[i]) < high);
        }
    }
}

/// A column of whole numbers is a column of times if all of them have the size of
/// one of the counts. Seconds since 1970 that could be seconds since 1904 too are
/// taken as the former, which is marked as ambiguous.
pub proof fn law_whole_numbers_are_told_by_their_size(fields: Seq<Seq<char>>)
    requires
        fields.len() > 0,
        forall|i: int|
            0 <= i < fields.len() ==> text_laws::is_number(#[trigger] fields[i]) && text::digits_value(
                fields[i],
            ) <= i128::MAX,
        !inference::all_match(fields, TimestampFormat::Iso8601WithOffset),
        !inference::all_match(fields, TimestampFormat::Iso8601Naive),
    ensures
        ({
            let inferred = inference::inferred_format(fields);
            &&& all_between(fields, 1_000_000_000_000_000_000, 10_000_000_000_000_000_000)
                ==> inferred == Some(
                (TimestampFormatInference { format: TimestampFormat::EpochNanos, ambiguous: false }),
            )
            &&& all_between(fields, 1_000_000_000_000_000, 10_000_000_000_000_000) ==> inferred
                == Some(
                (TimestampFormatInference { format: TimestampFormat::EpochMicros, ambiguous: false }),
            )
            &&& all_between(fields, 1_000_000_000_000, 10_000_000_000_000) ==> inferred == Some(
                (TimestampFormatInference { format: TimestampFormat::EpochMillis, ambiguous: false }),
            )
            &&& all_between(fields, 1_000_000_000, 10_000_000_000) ==> inferred == Some(
                (TimestampFormatInference {
                    format: TimestampFormat::EpochSeconds,
                    ambiguous: all_between(fields, 3_082_844_800, 12_082_844_800),
                }),
            )
            &&& all_between(fields, 3_082_844_800, 12_082_844_800) && !all_between(
                fields,
                1_000_000_000,
                10_000_000_000,
            ) ==> inferred == Some(
                (TimestampFormatInference {
                    format: TimestampFormat::LabViewEpoch,
                    ambiguous: false,
                }),
            )
            &&& all_between(fields, 37_143, 141_309) ==> inferred == Some(
                (TimestampFormatInference {
                    format: TimestampFormat::ExcelSerial,
                    ambiguous: false,
                }),
            )
            &&& inferred is Some ==> {
                ||| all_between(fields, 1_000_000_000_000_000_000, 10_000_000_000_000_000_000)
                ||| all_between(fields, 1_000_000_000_000_000, 10_000_000_000_000_000)
                ||| all_between(fields, 1_000_000_000_000, 10_000_000_000_000)
                ||| all_between(fields, 1_000_000_000, 10_000_000_000)
                ||| all_between(fields, 3_082_844_800, 12_082_844_800)
                ||| all_between(fields, 37_143, 141_309)
            }
        }),
{
    lemma_all_numeric(
        fields,
        TimestampFormat::EpochNanos,
        1_000_000_000_000_000_000,
        10_000_000_000_000_000_000,
    );
    lemma_all_numeric(
        fields,
        TimestampFormat::EpochMicros,
        1_000_000_000_000_000,
        10_000_000_000_000_000,
    );
    lemma_all_numeric(
        fields,
        TimestampFormat::EpochMillis,
        1_000_000_000_000,
        10_000_000_000_000,
    );
    lemma_all_numeric(fields, TimestampFormat::EpochSeconds, 1_000_000_000, 10_000_000_000);
    lemma_all_numeric(fields, TimestampFormat::LabViewEpoch, 3_082_844_800, 12_082_844_800);
    lemma_all_numeric(fields, TimestampFormat::ExcelSerial, 37_143, 141_309);
    assert(text::digits_value(fields[0]) >= 0);
    if inference::leading_groups(fields[0]) is Some {
        lemma_whole_number(fields[0]);
        let (first, second, rest) = law_leading_numbers_stand_before_slashes(fields[0]);
        assert(fields[0][first.len() as int] == '/');
        assert(text::is_digit_spec(fields[0][first.len() as int]));
    }
}

/// A column that reads as dates of the standard notation is one, those with an
/// offset from universal time before those without.
pub proof fn law_standard_dates_come_first(fields: Seq<Seq<char>>)
    requires
        fields.len() > 0,
    ensures
        ({
            let with_offset = forall|i: int|
                0 <= i < fields.len() ==> crate::time::format::reading(
                    text::trimmed(#[trigger] fields[i]),
                    TimestampFormat::Iso8601WithOffset,
                ) is Ok;
            let naive = forall|i: int|
                0 <= i < fields.len() ==> crate::time::format::reading(
                    text::trimmed(#[trigger] fields[i]),
                    TimestampFormat::Iso8601Naive,
                ) is Ok;
            let inferred = inference::inferred_format(fields);
            &&& with_offset ==> inferred == Some(
                (TimestampFormatInference {
                    format: TimestampFormat::Iso8601WithOffset,
                    ambiguous: false,
                }),
            )
            &&& !with_offset && naive ==> inferred == Some(
                (TimestampFormatInference {
                    format: TimestampFormat::Iso8601Naive,
                    ambiguous: false,
                }),
            )
            &&& !with_offset && !naive && inferred is Some ==> !(inferred->0.format
                is Iso8601WithOffset) && !(inferred->0.format is Iso8601Naive)
        }),
{
    assert(inference::all_match(fields, TimestampFormat::Iso8601WithOffset) == (forall|i: int|
        0 <= i < fields.len() ==> crate::time::format::reading(
            text::trimmed(#[trigger] fields[i]),
            TimestampFormat::Iso8601WithOffset,
        ) is Ok));
    assert(inference::all_match(fields, TimestampFormat::Iso8601Naive) == (forall|i: int|
        0 <= i < fields.len() ==> crate::time::format::reading(
            text::trimmed(#[trigger] fields[i]),
            TimestampFormat::Iso8601Naive,
        ) is Ok));
}

/// A column without fields has no format.
pub proof fn law_nothing_has_no_format(fields: Seq<Seq<char>>)
    ensures
        inference::inferred_format(fields) is Some ==> fields.len() > 0,
{
}

/// White space around a field does not change what formats it can have, nor the
/// numbers that it begins with.
pub proof fn law_white_space_around_timestamps_does_not_matter(
    before: Seq<char>,
    s: Seq<char>,
    after: Seq<char>,
    format: TimestampFormat,
)
    requires
        s.len() > 0,
        !text::is_space_spec(s[0]),
        !text::is_space_spec(s.last()),
        forall|i: int| 0 <= i < before.len() ==> text::is_space_spec(#[trigger] before[i]),
        forall|i: int| 0 <= i < after.len() ==> text::is_space_spec(#[trigger] after[i]),
    ensures
        inference::matches_format(before + s + after, format) == inference::matches_format(
            s,
            format,
        ),
        inference::leading_groups(before + s + after) == inference::leading_groups(s),
{
    let none: Seq<char> = Seq::empty();
    law_white_space_around_a_text_does_not_matter(before, s, after);
    law_white_space_around_a_text_does_not_matter(none, s, none);
    assert(none + s + none =~= s);
}

/// No negative number is a number of LabVIEW or of Excel.
pub proof fn law_negative_numbers_are_no_other_counts(digits: Seq<char>)
    requires
        text_laws::is_number(digits),
        text::digits_value(digits) <= i128::MAX,
    ensures
        !inference::matches_format(seq!['-'] + digits, TimestampFormat::LabViewEpoch),
        !inference::matches_format(seq!['-'] + digits, TimestampFormat::ExcelSerial),
{
    let field = seq!['-'] + digits;
    assert(text::is_digit_spec(digits[digits.len() - 1]));
    assert(field.last() == digits[digits.len() - 1]);
    let none: Seq<char> = Seq::empty();
    law_white_space_around_a_text_does_not_matter(none, field, none);
    assert(none + field + none =~= field);
    law_first_place(field, '.');
    let dot = text::first_index(field, '.');
    if dot < field.len() {
        if dot > 0 {
            assert(field[dot] == digits[dot - 1]);
            assert(text::is_digit_spec(digits[dot - 1]));
        }
    }
    assert(field.take(dot) =~= field);
    law_digits_spell_an_integer(digits, i128::MIN as int, i128::MAX as int);
}

} // verus!
