//! What trimming, searching and the spelling of numbers are, said of the
//! characters themselves.

use vstd::prelude::*;
use crate::text;
use crate::text::IntegerError;

verus! {

/// Digits, one at least.
pub open spec fn is_number(digits: Seq<char>) -> bool {
    digits.len() > 0 && text::all_digits(digits)
}

/// The white space characters are these and no others.
pub proof fn law_white_space(c: char)
    ensures
        text::is_space_spec(c) <==> seq![
            '\u{9}',
            '\u{a}',
            '\u{b}',
            '\u{c}',
            '\u{d}',
            ' ',
            '\u{85}',
            '\u{a0}',
            '\u{1680}',
            '\u{2000}',
            '\u{2001}',
            '\u{2002}',
            '\u{2003}',
            '\u{2004}',
            '\u{2005}',
            '\u{2006}',
            '\u{2007}',
            '\u{2008}',
            '\u{2009}',
            '\u{200a}',
            '\u{2028}',
            '\u{2029}',
            '\u{202f}',
            '\u{205f}',
            '\u{3000}',
        ].contains(c),
{
    let all = seq![
        '\u{9}',
        '\u{a}',
        '\u{b}',
        '\u{c}',
        '\u{d}',
        ' ',
        '\u{85}',
        '\u{a0}',
        '\u{1680}',
        '\u{2000}',
        '\u{2001}',
        '\u{2002}',
        '\u{2003}',
        '\u{2004}',
        '\u{2005}',
        '\u{2006}',
        '\u{2007}',
        '\u{2008}',
        '\u{2009}',
        '\u{200a}',
        '\u{2028}',
        '\u{2029}',
        '\u{202f}',
        '\u{205f}',
        '\u{3000}',
    ];
    if text::is_space_spec(c) {
        let at = if '\u{9}' <= c <= '\u{d}' {
            c as int - 9
        } else if c == ' ' {
            5
        } else if c == '\u{85}' {
            6
        } else if c == '\u{a0}' {
            7
        } else if c == '\u{1680}' {
            8
        } else if '\u{2000}' <= c <= '\u{200a}' {
            9 + (c as int - 0x2000)
        } else if c == '\u{2028}' {
            20
        } else if c == '\u{2029}' {
            21
        } else if c == '\u{202f}' {
            22
        } else if c == '\u{205f}' {
            23
        } else {
            24
        };
        assert(all[at] == c);
    }
}

proof fn lemma_trim_start(s: Seq<char>) -> (from: int)
    ensures
        0 <= from <= s.len(),
        text::trim_start(s) == s.skip(from),
        forall|i: int| 0 <= i < from ==> text::is_space_spec(#[trigger] s[i]),
        from < s.len() ==> !text::is_space_spec(s[from]),
    decreases s.len(),
{
    if s.len() > 0 && text::is_space_spec(s[0]) {
        let rest = lemma_trim_start(s.skip(1));
        assert(s.skip(1).skip(rest) =~= s.skip(rest + 1));
        assert forall|i: int| 0 <= i < rest + 1 implies text::is_space_spec(#[trigger] s[i]) by {
            if i > 0 {
                assert(s.skip(1)[i - 1] == s[i]);
            }
        }
        rest + 1
    } else {
        assert(s.skip(0) =~= s);
        0
    }
}

proof fn lemma_trim_end(s: Seq<char>) -> (to: int)
    ensures
        0 <= to <= s.len(),
        text::trim_end(s) == s.take(to),
        forall|i: int| to <= i < s.len() ==> text::is_space_spec(#[trigger] s[i]),
        to > 0 ==> !text::is_space_spec(s[to - 1]),
    decreases s.len(),
{
    if s.len() > 0 && text::is_space_spec(s.last()) {
        let to = lemma_trim_end(s.drop_last());
        assert(s.drop_last().take(to) =~= s.take(to));
        assert forall|i: int| to <= i < s.len() implies text::is_space_spec(#[trigger] s[i]) by {
            if i < s.len() - 1 {
                assert(s.drop_last()[i] == s[i]);
            }
        }
        to
    } else {
        assert(s.take(s.len() as int) =~= s);
        s.len() as int
    }
}

/// Trimming takes white space off both ends, all of it, and nothing else.
pub proof fn law_trimming_takes_the_white_space_off(s: Seq<char>) -> (ends: (int, int))
    ensures
        0 <= ends.0 <= ends.1 <= s.len(),
        text::trimmed(s) == s.subrange(ends.0, ends.1),
        forall|i: int|
            0 <= i < ends.0 || ends.1 <= i < s.len() ==> text::is_space_spec(#[trigger] s[i]),
        ends.0 < ends.1 ==> !text::is_space_spec(s[ends.0]) && !text::is_space_spec(
            s[ends.1 - 1],
        ),
{
    let from = lemma_trim_start(s);
    let rest = s.skip(from);
    let to = lemma_trim_end(rest);
    assert(rest.take(to) =~= s.subrange(from, from + to));
    assert forall|i: int| 0 <= i < from || from + to <= i < s.len() implies text::is_space_spec(
        #[trigger] s[i],
    ) by {
        if i >= from {
            assert(rest[i - from] == s[i]);
        }
    }
    if to > 0 {
        assert(rest[to - 1] == s[from + to - 1]);
        if from + to <= from {
        } else {
            assert(rest[0] == s[from]);
        }
    }
    (from, from + to)
}

/// White space around a text that neither begins nor ends with any is what is
/// taken off.
pub proof fn law_white_space_around_a_text_does_not_matter(
    before: Seq<char>,
    s: Seq<char>,
    after: Seq<char>,
)
    requires
        forall|i: int| 0 <= i < before.len() ==> text::is_space_spec(#[trigger] before[i]),
        forall|i: int| 0 <= i < after.len() ==> text::is_space_spec(#[trigger] after[i]),
        s.len() > 0 ==> !text::is_space_spec(s[0]) && !text::is_space_spec(s.last()),
    ensures
        text::trimmed(before + s + after) == s,
{
    let t = before + s + after;
    let (from, to) = law_trimming_takes_the_white_space_off(t);
    if s.len() > 0 {
        assert(t[before.len() as int] == s[0]);
        assert(t[before.len() + s.len() - 1] == s.last());
        if from < before.len() && from < to {
            assert(t[from] == before[from]);
        }
        if to > before.len() + s.len() && from < to {
            assert(t[to - 1] == after[to - 1 - before.len() - s.len()]);
        }
        assert(from == before.len());
        assert(to == before.len() + s.len());
        assert(t.subrange(from, to) =~= s);
    } else {
        if from < to {
            if from < before.len() {
                assert(t[from] == before[from]);
            } else {
                assert(t[from] == after[from - before.len()]);
            }
        }
        assert(t.subrange(from, to) =~= s);
    }
}

/// The first place of a character is where it stands and not before; without
/// it, it is the length.
pub proof fn law_first_place(s: Seq<char>, c: char)
    ensures
        0 <= text::first_index(s, c) <= s.len(),
        text::first_index(s, c) < s.len() ==> s[text::first_index(s, c)] == c,
        forall|i: int| 0 <= i < text::first_index(s, c) ==> #[trigger] s[i] != c,
    decreases s.len(),
{
    if s.len() > 0 && s[0] != c {
        law_first_place(s.skip(1), c);
        assert forall|i: int| 0 <= i < text::first_index(s, c) implies #[trigger] s[i] != c by {
            if i > 0 {
                assert(s.skip(1)[i - 1] == s[i]);
            }
        }
    }
}

/// A text of which a part without `c` comes first, then `c`: that is its place.
pub proof fn law_first_place_behind(before: Seq<char>, c: char, after: Seq<char>)
    requires
        forall|i: int| 0 <= i < before.len() ==> #[trigger] before[i] != c,
    ensures
        text::first_index(before + seq![c] + after, c) == before.len(),
{
    let s = before + seq![c] + after;
    law_first_place(s, c);
    let at = text::first_index(s, c);
    assert(s[before.len() as int] == c);
    if at < before.len() {
        assert(s[at] == before[at]);
    }
}

/// Digits count as many as they say: each place is worth ten times the next.
pub proof fn law_digits_are_places(s: Seq<char>, t: Seq<char>)
    ensures
        text::digits_value(Seq::empty()) == 0,
        forall|c: char|
            '0' <= c <= '9' ==> #[trigger] text::digits_value(seq![c]) == c as int - '0' as int,
        text::all_digits(s) && text::all_digits(t) ==> text::digits_value(s + t)
            == text::digits_value(s) * text::pow10(t.len()) + text::digits_value(t),
    decreases t.len(),
{
    assert forall|c: char| '0' <= c <= '9' implies #[trigger] text::digits_value(seq![c])
        == c as int - '0' as int by {
        assert(seq![c].drop_last() =~= Seq::<char>::empty());
        assert(text::digits_value(seq![c].drop_last()) == 0);
    }
    if text::all_digits(s) && text::all_digits(t) {
        if t.len() == 0 {
            assert(s + t =~= s);
            assert(text::digits_value(s) * 1 == text::digits_value(s));
        } else {
            let rest = t.drop_last();
            assert forall|i: int| 0 <= i < rest.len() implies text::is_digit_spec(
                #[trigger] rest[i],
            ) by {
                assert(rest[i] == t[i]);
            }
            law_digits_are_places(s, rest);
            assert((s + t).drop_last() =~= s + rest);
            assert((s + t).last() == t.last());
            assert(text::is_digit_spec(t[t.len() - 1]));
            let a = text::digits_value(s) as int;
            let p = text::pow10(rest.len()) as int;
            let b = text::digits_value(rest) as int;
            assert(10 * (a * p + b) == a * (10 * p) + 10 * b) by (nonlinear_arith);
        }
    }
}

/// A digit is one of the ten characters from zero to nine.
pub proof fn law_ten_digits(c: char)
    ensures
        text::is_digit_spec(c) <==> (c == '0' || c == '1' || c == '2' || c == '3' || c == '4' || c
            == '5' || c == '6' || c == '7' || c == '8' || c == '9'),
{
}

/// Ten to a power.
pub proof fn law_powers_of_ten(a: nat, b: nat)
    ensures
        text::pow10(0) == 1,
        text::pow10(1) == 10,
        text::pow10(a + b) == text::pow10(a) * text::pow10(b),
{
    reveal_with_fuel(text::pow10, 2);
    text::lemma_pow10_adds(a, b);
}

/// Digits, a plus or a minus allowed before them, spell an integer, if it lies
/// in the range asked for.
pub proof fn law_digits_spell_an_integer(digits: Seq<char>, min: int, max: int)
    requires
        digits.len() > 0,
        text::all_digits(digits),
        min <= 0 <= max,
    ensures
        text::digits_value(digits) <= max ==> {
            &&& text::integer_of(digits, min, max) == Ok::<int, IntegerError>(
                text::digits_value(digits) as int,
            )
            &&& text::integer_of(seq!['+'] + digits, min, max) == Ok::<int, IntegerError>(
                text::digits_value(digits) as int,
            )
        },
        min < 0 && min <= -text::digits_value(digits) ==> text::integer_of(
            seq!['-'] + digits,
            min,
            max,
        ) == Ok::<int, IntegerError>(-text::digits_value(digits)),
{
    assert(digits.take(digits.len() as int) =~= digits);
    assert((seq!['+'] + digits).skip(1) =~= digits);
    assert((seq!['-'] + digits).skip(1) =~= digits);
    assert(text::is_digit_spec(digits[0]));
    if text::digits_value(digits) <= max {
        text::lemma_scan_value(digits, digits.len() as int, false, min, max);
    }
    if min <= -text::digits_value(digits) {
        text::lemma_scan_value(digits, digits.len() as int, true, min, max);
    }
}

/// Whatever spells an integer is digits, with a plus or a minus before them or
/// without, and the integer is what they count.
pub proof fn law_an_integer_is_spelled_by_digits(s: Seq<char>, min: int, max: int)
    requires
        min <= 0 <= max,
        text::integer_of(s, min, max) is Ok,
    ensures
        s.len() > 0,
        min <= text::integer_of(s, min, max)->Ok_0 <= max,
        ({
            let n = text::integer_of(s, min, max)->Ok_0;
            ||| text::all_digits(s) && n == text::digits_value(s)
            ||| s[0] == '+' && s.len() > 1 && text::all_digits(s.skip(1)) && n
                == text::digits_value(s.skip(1))
            ||| s[0] == '-' && s.len() > 1 && text::all_digits(s.skip(1)) && n
                == -text::digits_value(s.skip(1))
        }),
{
    if s[0] == '+' {
        text::lemma_scan_ok(s.skip(1), s.len() - 1, false, min, max);
        assert(s.skip(1).take(s.len() - 1) =~= s.skip(1));
    } else if s[0] == '-' && min < 0 {
        text::lemma_scan_ok(s.skip(1), s.len() - 1, true, min, max);
        assert(s.skip(1).take(s.len() - 1) =~= s.skip(1));
    } else {
        text::lemma_scan_ok(s, s.len() as int, false, min, max);
        assert(s.take(s.len() as int) =~= s);
    }
}

/// Digits at the start of a text, up to what is none.
pub proof fn lemma_digit_run(digits: Seq<char>, rest: Seq<char>)
    requires
        text::all_digits(digits),
        rest.len() == 0 || !text::is_digit_spec(rest[0]),
    ensures
        text::digit_prefix_len(digits + rest) == digits.len(),
    decreases digits.len(),
{
    let s = digits + rest;
    if digits.len() > 0 {
        assert(s[0] == digits[0]);
        assert(s.skip(1) =~= digits.skip(1) + rest);
        assert forall|i: int| 0 <= i < digits.skip(1).len() implies text::is_digit_spec(
            #[trigger] digits.skip(1)[i],
        ) by {
            assert(digits.skip(1)[i] == digits[i + 1]);
        }
        lemma_digit_run(digits.skip(1), rest);
    } else {
        assert(s =~= rest);
    }
}

/// The digits that a text begins with are its longest beginning of digits.
pub proof fn law_leading_digits(s: Seq<char>)
    ensures
        0 <= text::digit_prefix_len(s) <= s.len(),
        text::all_digits(s.take(text::digit_prefix_len(s))),
        text::digit_prefix_len(s) < s.len() ==> !text::is_digit_spec(
            s[text::digit_prefix_len(s)],
        ),
    decreases s.len(),
{
    if s.len() > 0 && text::is_digit_spec(s[0]) {
        let rest = s.skip(1);
        law_leading_digits(rest);
        let n = text::digit_prefix_len(rest);
        assert forall|i: int| 0 <= i < n + 1 implies text::is_digit_spec(
            #[trigger] s.take(n + 1)[i],
        ) by {
            if i > 0 {
                assert(rest.take(n)[i - 1] == s[i]);
            }
        }
        if n < rest.len() {
            assert(rest[n] == s[n + 1]);
        }
    }
}

/// An exponent: an `e` in either case, a sign or none, and digits.
pub open spec fn is_written_exponent(s: Seq<char>, sign: Seq<char>, digits: Seq<char>) -> bool {
    &&& sign == Seq::<char>::empty() || sign == seq!['+'] || sign == seq!['-']
    &&& digits.len() > 0
    &&& text::all_digits(digits)
    &&& s == seq!['e'] + sign + digits || s == seq!['E'] + sign + digits
}

/// A sign, or none.
pub open spec fn is_sign(sign: Seq<char>) -> bool {
    sign == Seq::<char>::empty() || sign == seq!['+'] || sign == seq!['-']
}

proof fn lemma_exponent(s: Seq<char>, sign: Seq<char>, digits: Seq<char>)
    requires
        is_written_exponent(s, sign, digits),
    ensures
        text::is_exponent(s),
        s.len() > 0,
        s[0] == 'e' || s[0] == 'E',
{
    assert(text::is_digit_spec(digits[0]));
    assert(s.skip(1) =~= sign + digits);
    if sign.len() == 0 {
        assert(sign + digits =~= digits);
    } else {
        assert((sign + digits).skip(1) =~= digits);
    }
}

proof fn lemma_plain_number(whole: Seq<char>, point: bool, fraction: Seq<char>, exponent: Seq<char>)
    requires
        text::all_digits(whole),
        text::all_digits(fraction),
        whole.len() + fraction.len() > 0,
        !point ==> fraction.len() == 0,
        text::is_exponent(exponent),
    ensures
        text::is_plain_number(
            whole + (if point {
                seq!['.'] + fraction
            } else {
                Seq::empty()
            }) + exponent,
        ),
{
    let tail = if point {
        seq!['.'] + fraction
    } else {
        Seq::<char>::empty()
    };
    let s = whole + tail + exponent;
    let rest = tail + exponent;
    assert(s =~= whole + rest);
    if point {
        assert(rest[0] == '.');
        lemma_digit_run(whole, rest);
        assert(s.skip(whole.len() as int) =~= rest);
        assert(rest.skip(1) =~= fraction + exponent);
        lemma_digit_run(fraction, exponent);
        assert((fraction + exponent).skip(fraction.len() as int) =~= exponent);
    } else {
        assert(rest =~= exponent);
        lemma_digit_run(whole, rest);
        assert(s.skip(whole.len() as int) =~= rest);
    }
}

/// A sign or none, digits, a point with digits before it or behind it or both,
/// and an exponent or none: that is a number, whatever the digits are.
pub proof fn law_decimal_notation_is_a_number(
    sign: Seq<char>,
    whole: Seq<char>,
    point: bool,
    fraction: Seq<char>,
    exponent: Seq<char>,
    exponent_sign: Seq<char>,
    exponent_digits: Seq<char>,
)
    requires
        is_sign(sign),
        text::all_digits(whole),
        text::all_digits(fraction),
        whole.len() + fraction.len() > 0,
        !point ==> fraction.len() == 0,
        exponent.len() == 0 || is_written_exponent(exponent, exponent_sign, exponent_digits),
    ensures
        text::is_number_text(
            sign + (whole + (if point {
                seq!['.'] + fraction
            } else {
                Seq::empty()
            }) + exponent),
        ),
{
    if exponent.len() > 0 {
        lemma_exponent(exponent, exponent_sign, exponent_digits);
    }
    lemma_plain_number(whole, point, fraction, exponent);
    let plain = whole + (if point {
        seq!['.'] + fraction
    } else {
        Seq::<char>::empty()
    }) + exponent;
    let s = sign + plain;
    if whole.len() > 0 {
        assert(text::is_digit_spec(whole[0]));
        assert(plain[0] == whole[0]);
    } else {
        assert(plain[0] == '.');
    }
    if sign.len() == 0 {
        assert(s =~= plain);
    } else {
        assert(s.skip(1) =~= plain);
    }
}

/// The names of infinity and of what is no number are numbers too, in any case
/// and with a sign or none.
pub proof fn law_named_numbers(sign: Seq<char>, name: Seq<char>)
    requires
        is_sign(sign),
        text::equal_ignoring_case(name, "inf"@) || text::equal_ignoring_case(name, "infinity"@)
            || text::equal_ignoring_case(name, "nan"@),
    ensures
        text::is_number_text(sign + name),
{
    reveal_strlit("inf");
    reveal_strlit("infinity");
    reveal_strlit("nan");
    let s = sign + name;
    assert(text::lower_ascii(name[0]) == 'i' || text::lower_ascii(name[0]) == 'n');
    assert(name[0] != '+' && name[0] != '-');
    if sign.len() == 0 {
        assert(s =~= name);
    } else {
        assert(s.skip(1) =~= name);
    }
}

/// A number's text without its sign.
pub open spec fn behind_sign(s: Seq<char>) -> Seq<char> {
    if s.len() > 0 && (s[0] == '+' || s[0] == '-') {
        s.skip(1)
    } else {
        s
    }
}

/// What a number's text looks like: `parts` are the digits before the point,
/// those behind it, and the exponent.
pub open spec fn is_decimal_notation(
    t: Seq<char>,
    parts: (Seq<char>, bool, Seq<char>, Seq<char>),
) -> bool {
    let (whole, point, fraction, exponent) = parts;
    &&& text::all_digits(whole)
    &&& text::all_digits(fraction)
    &&& whole.len() + fraction.len() > 0
    &&& !point ==> fraction.len() == 0
    &&& t == whole + (if point {
        seq!['.'] + fraction
    } else {
        Seq::empty()
    }) + exponent
    &&& exponent.len() > 0 ==> (exponent[0] == 'e' || exponent[0] == 'E') && behind_sign(
        exponent.skip(1),
    ).len() > 0 && text::all_digits(behind_sign(exponent.skip(1)))
}

/// Nothing but decimal notation and the three names is a number.
pub proof fn law_a_number_is_decimal_notation(s: Seq<char>) -> (parts: (
    Seq<char>,
    bool,
    Seq<char>,
    Seq<char>,
))
    requires
        text::is_number_text(s),
        !text::equal_ignoring_case(behind_sign(s), "inf"@),
        !text::equal_ignoring_case(behind_sign(s), "infinity"@),
        !text::equal_ignoring_case(behind_sign(s), "nan"@),
    ensures
        is_decimal_notation(behind_sign(s), parts),
{
    let t = behind_sign(s);
    law_leading_digits(t);
    let n = text::digit_prefix_len(t);
    let whole = t.take(n);
    let rest = t.skip(n);
    if rest.len() > 0 && rest[0] == '.' {
        let behind = rest.skip(1);
        law_leading_digits(behind);
        let m = text::digit_prefix_len(behind);
        let fraction = behind.take(m);
        let exponent = behind.skip(m);
        assert(t =~= whole + (seq!['.'] + fraction) + exponent);
        (whole, true, fraction, exponent)
    } else {
        assert(t =~= whole + Seq::<char>::empty() + rest);
        (whole, false, Seq::empty(), rest)
    }
}

/// Two texts that differ in the case of Latin letters alone are equal where case
/// is ignored, and no others are.
pub proof fn law_case(s: Seq<char>, t: Seq<char>)
    ensures
        text::equal_ignoring_case(s, t) <==> (s.len() == t.len() && forall|i: int|
            0 <= i < s.len() ==> (#[trigger] s[i] == t[i] || ('A' <= s[i] <= 'Z' && t[i] as int
                == s[i] as int + 32) || ('A' <= t[i] <= 'Z' && s[i] as int == t[i] as int + 32))),
{
    if s.len() == t.len() {
        if text::equal_ignoring_case(s, t) {
            assert forall|i: int| 0 <= i < s.len() implies (#[trigger] s[i] == t[i] || ('A' <= s[i]
                <= 'Z' && t[i] as int == s[i] as int + 32) || ('A' <= t[i] <= 'Z' && s[i] as int
                == t[i] as int + 32)) by {
                assert(text::lower_ascii(s[i]) == text::lower_ascii(t[i]));
            }
        }
    }
}

} // verus!
