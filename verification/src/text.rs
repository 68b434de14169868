//! Characters, white space, and decimal integers.

use vstd::prelude::*;
use vstd::slice::slice_subrange;

verus! {

/// An ASCII decimal digit.
pub open spec fn is_digit_spec(c: char) -> bool {
    '0' <= c <= '9'
}

/// The value of a digit.
pub open spec fn digit_value(c: char) -> int {
    c as int - '0' as int
}

/// The digit of a value below ten.
pub open spec fn digit_char(d: int) -> char {
    ('0' as int + d) as char
}

/// A character with the Unicode property `White_Space`.
pub open spec fn is_space_spec(c: char) -> bool {
    ||| '\u{9}' <= c <= '\u{d}'
    ||| c == '\u{20}'
    ||| c == '\u{85}'
    ||| c == '\u{a0}'
    ||| c == '\u{1680}'
    ||| '\u{2000}' <= c <= '\u{200a}'
    ||| c == '\u{2028}'
    ||| c == '\u{2029}'
    ||| c == '\u{202f}'
    ||| c == '\u{205f}'
    ||| c == '\u{3000}'
}

/// `s` without the white space it begins with.
pub open spec fn trim_start(s: Seq<char>) -> Seq<char>
    decreases s.len(),
{
    if s.len() > 0 && is_space_spec(s[0]) {
        trim_start(s.skip(1))
    } else {
        s
    }
}

/// `s` without the white space it ends with.
pub open spec fn trim_end(s: Seq<char>) -> Seq<char>
    decreases s.len(),
{
    if s.len() > 0 && is_space_spec(s.last()) {
        trim_end(s.drop_last())
    } else {
        s
    }
}

/// `s` without the white space around it.
pub open spec fn trimmed(s: Seq<char>) -> Seq<char> {
    trim_end(trim_start(s))
}

/// The place of the first `c` in `s`, or the length of `s`.
pub open spec fn first_index(s: Seq<char>, c: char) -> int
    decreases s.len(),
{
    if s.len() == 0 || s[0] == c {
        0
    } else {
        1 + first_index(s.skip(1), c)
    }
}

/// Every character is a digit.
pub open spec fn all_digits(s: Seq<char>) -> bool {
    forall|i: int| 0 <= i < s.len() ==> is_digit_spec(#[trigger] s[i])
}

/// How many digits `s` begins with.
pub open spec fn digit_prefix_len(s: Seq<char>) -> int
    decreases s.len(),
{
    if s.len() > 0 && is_digit_spec(s[0]) {
        1 + digit_prefix_len(s.skip(1))
    } else {
        0
    }
}

/// Whether `c` is an ASCII digit.
pub fn is_digit(c: char) -> (r: bool)
    ensures
        r == is_digit_spec(c),
{
    '0' <= c && c <= '9'
}

/// Whether `c` is white space.
pub fn is_space(c: char) -> (r: bool)
    ensures
        r == is_space_spec(c),
{
    ('\u{9}' <= c && c <= '\u{d}') || c == '\u{20}' || c == '\u{85}' || c == '\u{a0}' || c
        == '\u{1680}' || ('\u{2000}' <= c && c <= '\u{200a}') || c == '\u{2028}' || c
        == '\u{2029}' || c == '\u{202f}' || c == '\u{205f}' || c == '\u{3000}'
}

/// The characters of a string.
pub fn chars_of(text: &str) -> (chars: Vec<char>)
    ensures
        chars@ == text@,
{
    let mut chars: Vec<char> = Vec::new();
    for c in it: text.chars()
        invariant
            it.seq() == text@,
            chars@ == it.seq().take(it.index()),
    {
        assert(it.seq().take(it.index() + 1) == it.seq().take(it.index()).push(c));
        chars.push(c);
    }
    assert(text@.take(text@.len() as int) == text@);
    chars
}

/// Appends one character, by `String::push`, which is documented to append the
/// given character to the end of the string.
#[verifier::external_body]
fn push_char(text: &mut String, c: char)
    ensures
        final(text)@ == old(text)@.push(c),
{
    text.push(c)
}

/// The string of the given characters.
pub fn string_of(chars: &[char]) -> (text: String)
    ensures
        text@ == chars@,
{
    let mut text: String = String::new();
    let mut i: usize = 0;
    while i < chars.len()
        invariant
            i <= chars@.len(),
            text@ == chars@.take(i as int),
        decreases chars@.len() - i,
    {
        assert(chars@.take(i + 1) == chars@.take(i as int).push(chars@[i as int]));
        push_char(&mut text, chars[i]);
        i = i + 1;
    }
    assert(chars@.take(i as int) == chars@);
    text
}

proof fn lemma_trim_start_at(s: Seq<char>, n: int)
    requires
        0 <= n <= s.len(),
        forall|i: int| 0 <= i < n ==> is_space_spec(#[trigger] s[i]),
        n == s.len() || !is_space_spec(s[n]),
    ensures
        trim_start(s) == s.skip(n),
    decreases n,
{
    if n == 0 {
        assert(s.skip(0) == s);
    } else {
        let rest = s.skip(1);
        assert forall|i: int| 0 <= i < n - 1 implies is_space_spec(#[trigger] rest[i]) by {
            assert(rest[i] == s[i + 1]);
        }
        assert(is_space_spec(s[0]));
        lemma_trim_start_at(rest, n - 1);
        assert(rest.skip(n - 1) == s.skip(n));
    }
}

proof fn lemma_trim_end_at(s: Seq<char>, n: int)
    requires
        0 <= n <= s.len(),
        forall|i: int| n <= i < s.len() ==> is_space_spec(#[trigger] s[i]),
        n == 0 || !is_space_spec(s[n - 1]),
    ensures
        trim_end(s) == s.take(n),
    decreases s.len() - n,
{
    if n == s.len() {
        assert(s.take(n) == s);
    } else {
        assert(is_space_spec(s[s.len() - 1]));
        lemma_trim_end_at(s.drop_last(), n);
        assert(s.drop_last().take(n) == s.take(n));
    }
}

/// The characters without the white space around them.
pub fn trim(chars: &[char]) -> (inner: &[char])
    ensures
        inner@ == trimmed(chars@),
{
    let mut from: usize = 0;
    while from < chars.len() && is_space(chars[from])
        invariant
            from <= chars@.len(),
            forall|i: int| 0 <= i < from ==> is_space_spec(#[trigger] chars@[i]),
        decreases chars@.len() - from,
    {
        from = from + 1;
    }
    proof {
        lemma_trim_start_at(chars@, from as int);
    }
    let ghost rest: Seq<char> = chars@.skip(from as int);
    let mut to: usize = chars.len();
    while from < to && is_space(chars[to - 1])
        invariant
            from <= to <= chars@.len(),
            rest == chars@.skip(from as int),
            forall|i: int| to - from <= i < rest.len() ==> is_space_spec(#[trigger] rest[i]),
        decreases to,
    {
        assert(rest[to - 1 - from] == chars@[to - 1]);
        to = to - 1;
    }
    proof {
        assert(to == from || rest[to - from - 1] == chars@[to - 1]);
        lemma_trim_end_at(rest, to - from);
        assert(rest.take(to - from) == chars@.subrange(from as int, to as int));
    }
    slice_subrange(chars, from, to)
}

/// Where the first `c` stands, or how many characters there are.
pub fn find(chars: &[char], c: char) -> (index: usize)
    ensures
        index == first_index(chars@, c),
        index <= chars@.len(),
        index < chars@.len() ==> chars@[index as int] == c,
        forall|i: int| 0 <= i < index ==> chars@[i] != c,
{
    let mut i: usize = 0;
    proof {
        assert(chars@.skip(0) == chars@);
    }
    while i < chars.len() && chars[i] != c
        invariant
            i <= chars@.len(),
            first_index(chars@, c) == i + first_index(chars@.skip(i as int), c),
            forall|j: int| 0 <= j < i ==> chars@[j] != c,
        decreases chars@.len() - i,
    {
        assert(chars@.skip(i as int).skip(1) == chars@.skip(i + 1));
        i = i + 1;
    }
    i
}

/// How many digits the characters begin with.
pub fn count_digits(chars: &[char]) -> (count: usize)
    ensures
        count == digit_prefix_len(chars@),
        count <= chars@.len(),
        all_digits(chars@.take(count as int)),
        count < chars@.len() ==> !is_digit_spec(chars@[count as int]),
{
    let mut i: usize = 0;
    proof {
        assert(chars@.skip(0) == chars@);
    }
    while i < chars.len() && is_digit(chars[i])
        invariant
            i <= chars@.len(),
            digit_prefix_len(chars@) == i + digit_prefix_len(chars@.skip(i as int)),
            forall|j: int| 0 <= j < i ==> is_digit_spec(#[trigger] chars@[j]),
        decreases chars@.len() - i,
    {
        assert(chars@.skip(i as int).skip(1) == chars@.skip(i + 1));
        i = i + 1;
    }
    i
}

/// Why a text is no integer of a given range.
#[derive(Debug, Clone, Copy, PartialEq, Eq, Structural)]
pub enum IntegerError {
    /// There are no characters.
    Empty,
    /// A character is not a digit, or there is only a sign.
    InvalidDigit,
    /// The number is above the range.
    TooLarge,
    /// The number is below the range.
    TooSmall,
}

/// The number that the first `n` characters spell, read from the left until a
/// character is no digit or takes the number out of `min..=max`.
pub open spec fn scan_digits(
    s: Seq<char>,
    n: int,
    negative: bool,
    min: int,
    max: int,
) -> core::result::Result<int, IntegerError>
    decreases n,
{
    if n <= 0 {
        Ok(0)
    } else {
        match scan_digits(s, n - 1, negative, min, max) {
            Err(error) => Err(error),
            Ok(value) => if !is_digit_spec(s[n - 1]) {
                Err(IntegerError::InvalidDigit)
            } else {
                let next = if negative {
                    10 * value - digit_value(s[n - 1])
                } else {
                    10 * value + digit_value(s[n - 1])
                };
                if next > max {
                    Err(IntegerError::TooLarge)
                } else if next < min {
                    Err(IntegerError::TooSmall)
                } else {
                    Ok(next)
                }
            },
        }
    }
}

/// The integer that `s` spells: an optional sign, a minus only where the range
/// has negative numbers, followed by digits and nothing else.
pub open spec fn integer_of(
    s: Seq<char>,
    min: int,
    max: int,
) -> core::result::Result<int, IntegerError> {
    if s.len() == 0 {
        Err(IntegerError::Empty)
    } else if s.len() == 1 && (s[0] == '+' || s[0] == '-') {
        Err(IntegerError::InvalidDigit)
    } else if s[0] == '+' {
        scan_digits(s.skip(1), s.len() - 1, false, min, max)
    } else if s[0] == '-' && min < 0 {
        scan_digits(s.skip(1), s.len() - 1, true, min, max)
    } else {
        scan_digits(s, s.len() as int, false, min, max)
    }
}

/// Reads `chars` as an `i128`.
pub fn parse_i128(chars: &[char]) -> (number: core::result::Result<i128, IntegerError>)
    ensures
        match number {
            Ok(n) => integer_of(chars@, i128::MIN as int, i128::MAX as int) == Ok::<
                int,
                IntegerError,
            >(n as int),
            Err(e) => integer_of(chars@, i128::MIN as int, i128::MAX as int) == Err::<
                int,
                IntegerError,
            >(e),
        },
{
    if chars.len() == 0 {
        return Err(IntegerError::Empty);
    }
    let first: char = chars[0];
    if chars.len() == 1 && (first == '+' || first == '-') {
        return Err(IntegerError::InvalidDigit);
    }
    let negative: bool = first == '-';
    let digits: &[char] = if first == '+' || first == '-' {
        slice_subrange(chars, 1, chars.len())
    } else {
        chars
    };
    proof {
        assert(chars@.subrange(1, chars@.len() as int) == chars@.skip(1));
    }
    let mut value: i128 = 0;
    let mut i: usize = 0;
    let ghost whole: core::result::Result<int, IntegerError> = scan_digits(
        digits@,
        digits@.len() as int,
        negative,
        i128::MIN as int,
        i128::MAX as int,
    );
    while i < digits.len()
        invariant
            i <= digits@.len(),
            whole == scan_digits(
                digits@,
                digits@.len() as int,
                negative,
                i128::MIN as int,
                i128::MAX as int,
            ),
            scan_digits(digits@, i as int, negative, i128::MIN as int, i128::MAX as int) == Ok::<
                int,
                IntegerError,
            >(value as int),
            whole == integer_of(chars@, i128::MIN as int, i128::MAX as int),
            negative ==> value <= 0,
            !negative ==> value >= 0,
        decreases digits@.len() - i,
    {
        let c: char = digits[i];
        proof {
            lemma_scan_error_stays(
                digits@,
                i + 1,
                digits@.len() as int,
                negative,
                i128::MIN as int,
                i128::MAX as int,
            );
        }
        if !is_digit(c) {
            return Err(IntegerError::InvalidDigit);
        }
        let d: i128 = (c as u32 - '0' as u32) as i128;
        let shifted: i128 = match value.checked_mul(10) {
            Some(shifted) => shifted,
            None => {
                return Err(
                    if negative {
                        IntegerError::TooSmall
                    } else {
                        IntegerError::TooLarge
                    },
                );
            },
        };
        let next: Option<i128> = if negative {
            shifted.checked_sub(d)
        } else {
            shifted.checked_add(d)
        };
        match next {
            Some(next) => {
                value = next;
            },
            None => {
                return Err(
                    if negative {
                        IntegerError::TooSmall
                    } else {
                        IntegerError::TooLarge
                    },
                );
            },
        }
        i = i + 1;
    }
    Ok(value)
}

proof fn lemma_scan_error_stays(
    s: Seq<char>,
    n: int,
    m: int,
    negative: bool,
    min: int,
    max: int,
)
    requires
        0 <= n <= m,
    ensures
        scan_digits(s, n, negative, min, max) is Err ==> scan_digits(s, m, negative, min, max)
            == scan_digits(s, n, negative, min, max),
    decreases m - n,
{
    if n < m {
        lemma_scan_error_stays(s, n, m - 1, negative, min, max);
    }
}

/// Reads `chars` as a `u32`.
pub fn parse_u32(chars: &[char]) -> (number: Option<u32>)
    ensures
        match number {
            Some(n) => integer_of(chars@, 0, u32::MAX as int) == Ok::<int, IntegerError>(n as int),
            None => integer_of(chars@, 0, u32::MAX as int) is Err,
        },
{
    if chars.len() == 0 {
        return None;
    }
    let first: char = chars[0];
    if chars.len() == 1 && (first == '+' || first == '-') {
        return None;
    }
    let digits: &[char] = if first == '+' {
        slice_subrange(chars, 1, chars.len())
    } else {
        chars
    };
    proof {
        assert(chars@.subrange(1, chars@.len() as int) == chars@.skip(1));
    }
    let mut value: u32 = 0;
    let mut i: usize = 0;
    while i < digits.len()
        invariant
            i <= digits@.len(),
            scan_digits(digits@, i as int, false, 0, u32::MAX as int) == Ok::<int, IntegerError>(
                value as int,
            ),
            integer_of(chars@, 0, u32::MAX as int) == scan_digits(
                digits@,
                digits@.len() as int,
                false,
                0,
                u32::MAX as int,
            ),
        decreases digits@.len() - i,
    {
        let c: char = digits[i];
        proof {
            lemma_scan_error_stays(
                digits@,
                i + 1,
                digits@.len() as int,
                false,
                0,
                u32::MAX as int,
            );
        }
        if !is_digit(c) {
            return None;
        }
        let next: u64 = 10 * (value as u64) + (c as u32 - '0' as u32) as u64;
        if next > u32::MAX as u64 {
            return None;
        }
        value = next as u32;
        i = i + 1;
    }
    Some(value)
}

/// The decimal digits of `n`, without leading zeros.
pub open spec fn decimal_digits(n: nat) -> Seq<char>
    decreases n,
{
    if n < 10 {
        seq![digit_char(n as int)]
    } else {
        decimal_digits(n / 10).push(digit_char((n % 10) as int))
    }
}

/// The decimal notation of `n`.
pub open spec fn decimal_text(n: int) -> Seq<char> {
    if n < 0 {
        seq!['-'] + decimal_digits((-n) as nat)
    } else {
        decimal_digits(n as nat)
    }
}

/// The last `width` decimal digits of `n`, leading zeros written out.
pub open spec fn fixed_digits(n: nat, width: nat) -> Seq<char>
    decreases width,
{
    if width == 0 {
        Seq::empty()
    } else {
        fixed_digits(n / 10, (width - 1) as nat).push(digit_char((n % 10) as int))
    }
}

/// The number that a series of digits spells.
pub open spec fn digits_value(s: Seq<char>) -> nat
    decreases s.len(),
{
    if s.len() == 0 {
        0
    } else {
        (10 * digits_value(s.drop_last()) + digit_value(s.last())) as nat
    }
}

/// `10` to the power of `n`.
pub open spec fn pow10(n: nat) -> nat
    decreases n,
{
    if n == 0 {
        1
    } else {
        10 * pow10((n - 1) as nat)
    }
}

fn digit(d: u8) -> (c: char)
    requires
        d < 10,
    ensures
        c == digit_char(d as int),
{
    (48 + d) as char
}

/// Appends the decimal digits of `n`.
pub fn push_digits(out: &mut Vec<char>, n: u128)
    ensures
        final(out)@ == old(out)@ + decimal_digits(n as nat),
    decreases n,
{
    if n >= 10 {
        push_digits(out, n / 10);
    }
    let d: u8 = (n % 10) as u8;
    out.push(digit(d));
    assert(out@ == old(out)@ + decimal_digits(n as nat));
}

/// Appends the decimal notation of `n`.
pub fn push_decimal(out: &mut Vec<char>, n: i128)
    ensures
        final(out)@ == old(out)@ + decimal_text(n as int),
{
    if n < 0 {
        out.push('-');
        let magnitude: u128 = (-(n + 1)) as u128 + 1;
        push_digits(out, magnitude);
        assert(out@ == old(out)@ + decimal_text(n as int));
    } else {
        push_digits(out, n as u128);
    }
}

/// Appends the last `width` decimal digits of `n`.
pub fn push_fixed(out: &mut Vec<char>, n: u128, width: usize)
    ensures
        final(out)@ == old(out)@ + fixed_digits(n as nat, width as nat),
    decreases width,
{
    if width > 0 {
        push_fixed(out, n / 10, width - 1);
        let d: u8 = (n % 10) as u8;
        out.push(digit(d));
    }
    assert(out@ == old(out)@ + fixed_digits(n as nat, width as nat));
}

/// Appends the characters of `text`.
pub fn push_text(out: &mut Vec<char>, text: &str)
    ensures
        final(out)@ == old(out)@ + text@,
{
    let chars: Vec<char> = chars_of(text);
    let mut i: usize = 0;
    while i < chars.len()
        invariant
            i <= chars@.len(),
            out@ == old(out)@ + chars@.take(i as int),
        decreases chars@.len() - i,
    {
        assert(chars@.take(i + 1) == chars@.take(i as int).push(chars@[i as int]));
        out.push(chars[i]);
        i = i + 1;
    }
    assert(chars@.take(i as int) == chars@);
}

/// The decimal notation of `n`.
pub fn decimal(n: i128) -> (text: String)
    ensures
        text@ == decimal_text(n as int),
{
    let mut chars: Vec<char> = Vec::new();
    push_decimal(&mut chars, n);
    assert(chars@ == decimal_text(n as int));
    string_of(chars.as_slice())
}

/// Decimal digits spell the number they were made from.
pub proof fn lemma_decimal_digits(n: nat)
    ensures
        decimal_digits(n).len() > 0,
        all_digits(decimal_digits(n)),
        digits_value(decimal_digits(n)) == n,
    decreases n,
{
    if n < 10 {
        let s = decimal_digits(n);
        assert(s.drop_last() == Seq::<char>::empty());
        assert(digits_value(s.drop_last()) == 0);
    } else {
        lemma_decimal_digits(n / 10);
        let s = decimal_digits(n);
        assert(s.drop_last() == decimal_digits(n / 10));
    }
}

/// A fixed number of digits is that many.
pub proof fn lemma_fixed_digits_len(n: nat, width: nat)
    ensures
        fixed_digits(n, width).len() == width,
    decreases width,
{
    if width > 0 {
        lemma_fixed_digits_len(n / 10, (width - 1) as nat);
    }
}

/// A fixed number of digits spells the number they were made from, as long as
/// it has no more digits than that.
pub proof fn lemma_fixed_digits(n: nat, width: nat)
    requires
        n < pow10(width),
    ensures
        fixed_digits(n, width).len() == width,
        all_digits(fixed_digits(n, width)),
        digits_value(fixed_digits(n, width)) == n,
    decreases width,
{
    if width > 0 {
        lemma_fixed_digits(n / 10, (width - 1) as nat);
        let s = fixed_digits(n, width);
        assert(s.drop_last() == fixed_digits(n / 10, (width - 1) as nat));
    }
}

pub proof fn lemma_digits_value_bound(s: Seq<char>)
    requires
        all_digits(s),
    ensures
        digits_value(s) < pow10(s.len()),
    decreases s.len(),
{
    if s.len() > 0 {
        assert forall|i: int| 0 <= i < s.drop_last().len() implies is_digit_spec(
            #[trigger] s.drop_last()[i],
        ) by {
            assert(s.drop_last()[i] == s[i]);
        }
        assert(is_digit_spec(s[s.len() - 1]));
        lemma_digits_value_bound(s.drop_last());
    }
}

/// A series of digits whose number is in range scans to that number.
pub proof fn lemma_scan_value(s: Seq<char>, n: int, negative: bool, min: int, max: int)
    requires
        0 <= n <= s.len(),
        all_digits(s),
        min <= 0 <= max,
        negative ==> min <= -digits_value(s.take(n)),
        !negative ==> digits_value(s.take(n)) <= max,
    ensures
        scan_digits(s, n, negative, min, max) == Ok::<int, IntegerError>(
            if negative {
                -digits_value(s.take(n))
            } else {
                digits_value(s.take(n)) as int
            },
        ),
    decreases n,
{
    if n > 0 {
        let prefix = s.take(n);
        assert(prefix.drop_last() == s.take(n - 1));
        assert(prefix.last() == s[n - 1]);
        assert(is_digit_spec(s[n - 1]));
        lemma_scan_value(s, n - 1, negative, min, max);
    } else {
        assert(s.take(0) == Seq::<char>::empty());
    }
}

/// What a scan of digits yields is the number they spell.
pub proof fn lemma_scan_ok(s: Seq<char>, n: int, negative: bool, min: int, max: int)
    requires
        0 <= n <= s.len(),
        scan_digits(s, n, negative, min, max) is Ok,
    ensures
        all_digits(s.take(n)),
        scan_digits(s, n, negative, min, max)->Ok_0 == (if negative {
            -digits_value(s.take(n))
        } else {
            digits_value(s.take(n)) as int
        }),
    decreases n,
{
    if n > 0 {
        lemma_scan_ok(s, n - 1, negative, min, max);
        let prefix = s.take(n);
        assert(prefix.drop_last() == s.take(n - 1));
        assert(prefix.last() == s[n - 1]);
        assert forall|i: int| 0 <= i < prefix.len() implies is_digit_spec(
            #[trigger] prefix[i],
        ) by {
            if i < n - 1 {
                assert(s.take(n - 1)[i] == prefix[i]);
            }
        }
    }
}

/// Reading the decimal notation of an integer of a range gives the integer
/// back.
pub proof fn law_decimal_text_round_trips(n: int, min: int, max: int)
    requires
        min <= n <= max,
        min <= 0 <= max,
    ensures
        integer_of(decimal_text(n), min, max) == Ok::<int, IntegerError>(n),
{
    let magnitude = (if n < 0 {
        -n
    } else {
        n
    }) as nat;
    let digits = decimal_digits(magnitude);
    lemma_decimal_digits(magnitude);
    assert(digits.take(digits.len() as int) == digits);
    lemma_scan_value(digits, digits.len() as int, n < 0, min, max);
    let text = decimal_text(n);
    if n < 0 {
        assert(text.skip(1) == digits);
    } else {
        assert(is_digit_spec(digits[0]));
    }
}

pub proof fn lemma_pow10_positive(n: nat)
    ensures
        pow10(n) >= 1,
    decreases n,
{
    if n > 0 {
        lemma_pow10_positive((n - 1) as nat);
    }
}

pub proof fn lemma_pow10_monotone(a: nat, b: nat)
    requires
        a <= b,
    ensures
        pow10(a) <= pow10(b),
    decreases b - a,
{
    if a < b {
        lemma_pow10_monotone(a, (b - 1) as nat);
    }
}

pub proof fn lemma_pow10_adds(a: nat, b: nat)
    ensures
        pow10(a + b) == pow10(a) * pow10(b),
    decreases b,
{
    if b == 0 {
        assert(pow10(a) * 1 == pow10(a));
    } else {
        lemma_pow10_adds(a, (b - 1) as nat);
        assert(10 * (pow10(a) * pow10((b - 1) as nat)) == pow10(a) * (10 * pow10((b - 1) as nat)))
            by (nonlinear_arith);
    }
}

/// `10` to the power of `n`.
pub fn power_of_ten(n: usize) -> (power: i128)
    requires
        n <= 38,
    ensures
        power == pow10(n as nat),
{
    let mut power: i128 = 1;
    let mut i: usize = 0;
    while i < n
        invariant
            i <= n <= 38,
            power == pow10(i as nat),
        decreases n - i,
    {
        proof {
            lemma_pow10_monotone((i + 1) as nat, 38);
            assert(pow10(38) == 100_000_000_000_000_000_000_000_000_000_000_000_000) by {
                reveal_with_fuel(pow10, 39);
            }
        }
        power = 10 * power;
        i = i + 1;
    }
    power
}

/// The characters of each of a series of strings.
pub open spec fn texts(strings: Seq<String>) -> Seq<Seq<char>> {
    Seq::new(strings.len(), |i: int| strings[i]@)
}

/// The characters of each string of a series of rows.
pub open spec fn rows(records: Seq<Vec<String>>) -> Seq<Seq<Seq<char>>> {
    Seq::new(records.len(), |i: int| texts(records[i]@))
}

/// An ASCII capital letter made small; any other character as it is.
pub open spec fn lower_ascii(c: char) -> char {
    if 'A' <= c <= 'Z' {
        (c as int + 32) as char
    } else {
        c
    }
}

/// The two texts are equal once their ASCII capitals are made small.
pub open spec fn equal_ignoring_case(s: Seq<char>, t: Seq<char>) -> bool {
    s.len() == t.len() && forall|i: int|
        0 <= i < s.len() ==> lower_ascii(#[trigger] s[i]) == lower_ascii(t[i])
}

fn lower(c: char) -> (l: char)
    ensures
        l == lower_ascii(c),
{
    if 'A' <= c && c <= 'Z' {
        ((c as u32 + 32) as u8) as char
    } else {
        c
    }
}

/// Whether the characters are exactly those of `text`.
pub fn is_text(chars: &[char], text: &str) -> (same: bool)
    ensures
        same == (chars@ == text@),
{
    let wanted: Vec<char> = chars_of(text);
    if chars.len() != wanted.len() {
        return false;
    }
    let mut i: usize = 0;
    while i < chars.len()
        invariant
            wanted@ == text@,
            chars@.len() == wanted@.len(),
            i <= chars@.len(),
            forall|j: int| 0 <= j < i ==> chars@[j] == wanted@[j],
        decreases chars@.len() - i,
    {
        if chars[i] != wanted[i] {
            assert(chars@[i as int] != text@[i as int]);
            return false;
        }
        i = i + 1;
    }
    assert(chars@ == text@);
    true
}

/// Whether `chars` spell `text`, capitals or not.
pub fn spells(chars: &[char], text: &str) -> (same: bool)
    ensures
        same == equal_ignoring_case(chars@, text@),
{
    let wanted: Vec<char> = chars_of(text);
    if chars.len() != wanted.len() {
        return false;
    }
    let mut i: usize = 0;
    while i < chars.len()
        invariant
            chars@.len() == wanted@.len(),
            wanted@ == text@,
            i <= chars@.len(),
            forall|j: int|
                0 <= j < i ==> lower_ascii(#[trigger] chars@[j]) == lower_ascii(wanted@[j]),
        decreases chars@.len() - i,
    {
        if lower(chars[i]) != lower(wanted[i]) {
            return false;
        }
        i = i + 1;
    }
    true
}

/// `s` without the sign it may begin with.
pub open spec fn unsigned_part(s: Seq<char>) -> Seq<char> {
    if s.len() > 0 && (s[0] == '+' || s[0] == '-') {
        s.skip(1)
    } else {
        s
    }
}

/// Nothing, or a small or capital `e` with an optionally signed integer.
pub open spec fn is_exponent(s: Seq<char>) -> bool {
    s.len() == 0 || ((s[0] == 'e' || s[0] == 'E') && unsigned_part(s.skip(1)).len() > 0
        && all_digits(unsigned_part(s.skip(1))))
}

/// Digits with at most one point among or beside them, and an optional
/// exponent.
pub open spec fn is_plain_number(s: Seq<char>) -> bool {
    let whole = digit_prefix_len(s);
    let rest = s.skip(whole);
    if rest.len() > 0 && rest[0] == '.' {
        let fraction = digit_prefix_len(rest.skip(1));
        whole + fraction > 0 && is_exponent(rest.skip(1).skip(fraction))
    } else {
        whole > 0 && is_exponent(rest)
    }
}

/// A floating-point literal: an optional sign and a plain number, an infinity
/// or a NaN.
pub open spec fn is_number_text(s: Seq<char>) -> bool {
    let t = unsigned_part(s);
    equal_ignoring_case(t, "inf"@) || equal_ignoring_case(t, "infinity"@) || equal_ignoring_case(
        t,
        "nan"@,
    ) || is_plain_number(t)
}

fn without_sign(chars: &[char]) -> (rest: &[char])
    ensures
        rest@ == unsigned_part(chars@),
{
    if chars.len() > 0 && (chars[0] == '+' || chars[0] == '-') {
        let rest: &[char] = slice_subrange(chars, 1, chars.len());
        assert(rest@ == chars@.skip(1));
        rest
    } else {
        chars
    }
}

fn every_digit(chars: &[char]) -> (every: bool)
    ensures
        every == all_digits(chars@),
{
    let count: usize = count_digits(chars);
    proof {
        if count == chars@.len() {
            assert(chars@.take(count as int) == chars@);
        } else {
            assert(!is_digit_spec(chars@[count as int]));
        }
    }
    count == chars.len()
}

fn exponent(chars: &[char]) -> (fits: bool)
    ensures
        fits == is_exponent(chars@),
{
    if chars.len() == 0 {
        return true;
    }
    if chars[0] != 'e' && chars[0] != 'E' {
        return false;
    }
    let rest: &[char] = slice_subrange(chars, 1, chars.len());
    assert(rest@ == chars@.skip(1));
    let digits: &[char] = without_sign(rest);
    digits.len() > 0 && every_digit(digits)
}

fn plain_number(chars: &[char]) -> (fits: bool)
    ensures
        fits == is_plain_number(chars@),
{
    let whole: usize = count_digits(chars);
    let rest: &[char] = slice_subrange(chars, whole, chars.len());
    assert(rest@ == chars@.skip(whole as int));
    if rest.len() > 0 && rest[0] == '.' {
        let after: &[char] = slice_subrange(rest, 1, rest.len());
        assert(after@ == rest@.skip(1));
        let fraction: usize = count_digits(after);
        let tail: &[char] = slice_subrange(after, fraction, after.len());
        assert(tail@ == after@.skip(fraction as int));
        (whole > 0 || fraction > 0) && exponent(tail)
    } else {
        whole > 0 && exponent(rest)
    }
}

/// Whether `chars` are a floating-point literal.
pub fn is_number(chars: &[char]) -> (fits: bool)
    ensures
        fits == is_number_text(chars@),
{
    let rest: &[char] = without_sign(chars);
    spells(rest, "inf") || spells(rest, "infinity") || spells(rest, "nan") || plain_number(rest)
}

} // verus!
