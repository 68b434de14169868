//! What instant a timestamp is, from the number that is written.

use vstd::prelude::*;
use crate::text;
use crate::text_laws;
use crate::text_laws::{
    law_an_integer_is_spelled_by_digits, law_digits_are_places, law_digits_spell_an_integer,
    law_first_place_behind, law_white_space_around_a_text_does_not_matter,
};
use crate::time::column_unit;
use crate::time::epoch;
use crate::time::format::{TimeUnit, Timestamp, TimestampFormat};
use crate::time::round_trip::{
    lemma_decimal_text_chars, lemma_exact_fraction, lemma_trimmed_unchanged,
};

verus! {

/// How many ticks of a unit make a second.
pub open spec fn rate(unit: TimeUnit) -> int {
    match unit {
        TimeUnit::Seconds => 1,
        TimeUnit::Milliseconds => 1_000,
        TimeUnit::Microseconds => 1_000_000,
        TimeUnit::Nanoseconds => 1_000_000_000,
        TimeUnit::Picoseconds => 1_000_000_000_000,
    }
}

/// A number with a fraction.
pub open spec fn with_fraction(negative: bool, whole: Seq<char>, decimals: Seq<char>) -> Seq<char> {
    (if negative {
        seq!['-']
    } else {
        Seq::empty()
    }) + whole + seq!['.'] + decimals
}

/// A number with a fraction, counted in steps of its last decimal place.
pub open spec fn steps(negative: bool, whole: Seq<char>, decimals: Seq<char>) -> int {
    let size = text::digits_value(whole) * text::pow10(decimals.len()) + text::digits_value(
        decimals,
    );
    if negative {
        -size
    } else {
        size as int
    }
}

/// A whole number is that many ticks of the unit that the format counts in.
pub proof fn law_whole_epochs_are_ticks(field: Seq<char>, n: i128)
    requires
        text::trimmed(field) == text::decimal_text(n as int),
    ensures
        crate::time::format::reading(field, TimestampFormat::EpochSeconds) == Ok::<
            Timestamp,
            Seq<char>,
        >(Timestamp { ticks: n, unit: TimeUnit::Seconds, offset_seconds: None }),
        crate::time::format::reading(field, TimestampFormat::EpochMillis) == Ok::<
            Timestamp,
            Seq<char>,
        >(Timestamp { ticks: n, unit: TimeUnit::Milliseconds, offset_seconds: None }),
        crate::time::format::reading(field, TimestampFormat::EpochMicros) == Ok::<
            Timestamp,
            Seq<char>,
        >(Timestamp { ticks: n, unit: TimeUnit::Microseconds, offset_seconds: None }),
        crate::time::format::reading(field, TimestampFormat::EpochNanos) == Ok::<
            Timestamp,
            Seq<char>,
        >(Timestamp { ticks: n, unit: TimeUnit::Nanoseconds, offset_seconds: None }),
{
    text::law_decimal_text_round_trips(n as int, i128::MIN as int, i128::MAX as int);
}

proof fn lemma_fraction_is_not_trimmed(negative: bool, whole: Seq<char>, decimals: Seq<char>)
    requires
        text_laws::is_number(whole),
        text_laws::is_number(decimals),
    ensures
        ({
            let field = with_fraction(negative, whole, decimals);
            &&& text::trimmed(field) == field
            &&& field[0] == (if negative {
                '-'
            } else {
                whole[0]
            })
            &&& whole[0] != '-'
        }),
{
    let field = with_fraction(negative, whole, decimals);
    assert(text::is_digit_spec(whole[0]));
    assert(text::is_digit_spec(decimals[decimals.len() - 1]));
    assert(field.last() == decimals[decimals.len() - 1]);
    assert(field[0] == (if negative {
        '-'
    } else {
        whole[0]
    }));
    lemma_trimmed_unchanged(field);
}

proof fn lemma_fraction_is_no_integer(negative: bool, whole: Seq<char>, decimals: Seq<char>)
    requires
        text_laws::is_number(whole),
        text_laws::is_number(decimals),
    ensures
        text::integer_of(
            with_fraction(negative, whole, decimals),
            i128::MIN as int,
            i128::MAX as int,
        ) is Err,
{
    let field = with_fraction(negative, whole, decimals);
    lemma_fraction_is_not_trimmed(negative, whole, decimals);
    let at = field.len() - 1 - decimals.len();
    assert(field[at] == '.');
    assert(text::is_digit_spec(whole[0]));
    if text::integer_of(field, i128::MIN as int, i128::MAX as int) is Ok {
        law_an_integer_is_spelled_by_digits(field, i128::MIN as int, i128::MAX as int);
        if negative {
            assert(field.skip(1)[at - 1] == '.');
            assert(text::is_digit_spec(field.skip(1)[at - 1]));
        } else {
            assert(text::is_digit_spec(field[at]));
        }
    }
}

proof fn lemma_parts(negative: bool, whole: Seq<char>, decimals: Seq<char>)
    requires
        text_laws::is_number(whole),
        text_laws::is_number(decimals),
        text::digits_value(whole) <= i128::MAX,
    ensures
        crate::time::format::decimal_parts(with_fraction(negative, whole, decimals)) == Some(
            (
                if negative {
                    -text::digits_value(whole)
                } else {
                    text::digits_value(whole) as int
                },
                decimals,
            ),
        ),
{
    let field = with_fraction(negative, whole, decimals);
    let sign: Seq<char> = if negative {
        seq!['-']
    } else {
        Seq::empty()
    };
    let before = sign + whole;
    lemma_fraction_is_not_trimmed(negative, whole, decimals);
    assert forall|i: int| 0 <= i < before.len() implies #[trigger] before[i] != '.' by {
        if i >= sign.len() {
            assert(before[i] == whole[i - sign.len()]);
            assert(text::is_digit_spec(whole[i - sign.len()]));
        }
    }
    assert(field =~= before + seq!['.'] + decimals);
    law_first_place_behind(before, '.', decimals);
    assert(field.take(before.len() as int) =~= before);
    assert(field.skip(before.len() as int + 1) =~= decimals);
    assert(text::integer_of(before, i128::MIN as int, i128::MAX as int) == Ok::<
        int,
        text::IntegerError,
    >(
        if negative {
            -text::digits_value(whole)
        } else {
            text::digits_value(whole) as int
        },
    )) by {
        law_digits_spell_an_integer(whole, i128::MIN as int, i128::MAX as int);
        if !negative {
            assert(before =~= whole);
        }
    }
}

/// Zeros at the end of a fraction count for nothing.
proof fn lemma_significant(digits: Seq<char>)
    requires
        text::all_digits(digits),
    ensures
        ({
            let kept = epoch::significant(digits);
            &&& kept.len() <= digits.len()
            &&& text::all_digits(kept)
            &&& kept.len() > 0 ==> kept.last() != '0'
            &&& text::digits_value(digits) == text::digits_value(kept) * text::pow10(
                (digits.len() - kept.len()) as nat,
            )
            &&& digits.len() > 0 && digits.last() != '0' ==> kept == digits
        }),
    decreases digits.len(),
{
    let kept = epoch::significant(digits);
    if digits.len() > 0 && digits.last() == '0' {
        let rest = digits.drop_last();
        assert forall|i: int| 0 <= i < rest.len() implies text::is_digit_spec(
            #[trigger] rest[i],
        ) by {
            assert(rest[i] == digits[i]);
        }
        lemma_significant(rest);
        let n = (rest.len() - kept.len()) as nat;
        assert(text::pow10(n + 1) == 10 * text::pow10(n));
        let v = text::digits_value(kept) as int;
        let p = text::pow10(n) as int;
        assert(10 * (v * p) == v * (10 * p)) by (nonlinear_arith);
    } else {
        assert(text::digits_value(kept) * 1 == text::digits_value(kept));
    }
}

proof fn lemma_powers()
    ensures
        text::pow10(0) == 1,
        text::pow10(1) == 10,
        text::pow10(2) == 100,
        text::pow10(3) == 1_000,
        text::pow10(6) == 1_000_000,
        text::pow10(9) == 1_000_000_000,
        text::pow10(12) == 1_000_000_000_000,
{
    reveal_with_fuel(text::pow10, 13);
}

/// How many ticks of the unit that a format counts in make a second.
pub open spec fn counts_per_second(format: TimestampFormat, per_second: int) -> bool {
    ||| format == TimestampFormat::EpochSeconds && per_second == 1
    ||| format == TimestampFormat::EpochMillis && per_second == 1_000
    ||| format == TimestampFormat::EpochMicros && per_second == 1_000_000
    ||| format == TimestampFormat::EpochNanos && per_second == 1_000_000_000
}

/// The unit that a format counts in.
spec fn base(per_second: int) -> TimeUnit {
    if per_second == 1 {
        TimeUnit::Seconds
    } else if per_second == 1_000 {
        TimeUnit::Milliseconds
    } else if per_second == 1_000_000 {
        TimeUnit::Microseconds
    } else {
        TimeUnit::Nanoseconds
    }
}

proof fn lemma_fractional_reading(
    negative: bool,
    whole: Seq<char>,
    decimals: Seq<char>,
    format: TimestampFormat,
    per_second: int,
)
    requires
        text_laws::is_number(whole),
        text_laws::is_number(decimals),
        text::digits_value(whole) <= i128::MAX,
        counts_per_second(format, per_second),
    ensures
        crate::time::format::reading(with_fraction(negative, whole, decimals), format)
            == epoch::fraction_reading(
            if negative {
                -text::digits_value(whole)
            } else {
                text::digits_value(whole) as int
            },
            negative,
            epoch::significant(decimals),
            base(per_second),
        ),
{
    lemma_fraction_is_not_trimmed(negative, whole, decimals);
    lemma_fraction_is_no_integer(negative, whole, decimals);
    lemma_parts(negative, whole, decimals);
}

/// The ticks of a number with a fraction, whatever the finer unit is.
proof fn lemma_scaled(
    negative: bool,
    whole: Seq<char>,
    decimals: Seq<char>,
    shift: nat,
)
    requires
        text_laws::is_number(whole),
        text_laws::is_number(decimals),
        epoch::significant(decimals).len() <= shift,
    ensures
        ({
            let w = text::digits_value(whole);
            let ticks = epoch::scaled(
                if negative {
                    -w
                } else {
                    w as int
                },
                negative,
                epoch::significant(decimals),
                shift,
            );
            ticks * text::pow10(decimals.len()) == steps(negative, whole, decimals) * text::pow10(
                shift,
            )
        }),
{
    let kept = epoch::significant(decimals);
    lemma_significant(decimals);
    let d = decimals.len();
    let k = kept.len();
    let w = text::digits_value(whole) as int;
    let f = text::digits_value(kept) as int;
    let all = text::digits_value(decimals) as int;
    let pd = text::pow10(d) as int;
    let ps = text::pow10(shift) as int;
    let rest = text::pow10((shift - k) as nat) as int;
    let cut = text::pow10((d - k) as nat) as int;
    let pk = text::pow10(k) as int;
    text::lemma_pow10_adds((shift - k) as nat, k);
    text::lemma_pow10_adds((d - k) as nat, k);
    assert((shift - k) as nat + k == shift);
    assert((d - k) as nat + k == d);
    assert(ps == rest * pk);
    assert(pd == cut * pk);
    assert(all == f * cut);
    assert((f * rest) * pd == all * ps) by (nonlinear_arith)
        requires
            ps == rest * pk,
            pd == cut * pk,
            all == f * cut,
    ;
    let part = f * rest;
    if negative {
        assert(((-w) * ps - part) * pd == (-(w * pd + all)) * ps) by (nonlinear_arith)
            requires
                part * pd == all * ps,
        ;
    } else {
        assert((w * ps + part) * pd == (w * pd + all) * ps) by (nonlinear_arith)
            requires
                part * pd == all * ps,
        ;
    }
}

/// A number with a fraction is read exactly: its ticks, in the unit that they are
/// counted in, are the same time as the number in the unit of the format. A
/// negative number lies that much before the start of the count, fraction and all.
pub proof fn law_fractions_are_read_exactly(
    negative: bool,
    whole: Seq<char>,
    decimals: Seq<char>,
    format: TimestampFormat,
    per_second: int,
)
    requires
        text_laws::is_number(whole),
        text_laws::is_number(decimals),
        text::digits_value(whole) <= i128::MAX,
        counts_per_second(format, per_second),
    ensures
        crate::time::format::reading(with_fraction(negative, whole, decimals), format) matches Ok(
            timestamp,
        ) ==> {
            &&& timestamp.offset_seconds is None
            &&& rate(timestamp.unit) >= per_second
            &&& (timestamp.ticks * per_second) * text::pow10(decimals.len()) == steps(
                negative,
                whole,
                decimals,
            ) * rate(timestamp.unit)
        },
{
    lemma_fractional_reading(negative, whole, decimals, format, per_second);
    lemma_powers();
    lemma_significant(decimals);
    let unit = base(per_second);
    let kept = epoch::significant(decimals);
    match epoch::unit_for(unit, kept.len()) {
        Some(finer) => {
            let shift = (epoch::places(finer) - epoch::places(unit)) as nat;
            lemma_scaled(negative, whole, decimals, shift);
            let w = text::digits_value(whole);
            let ticks = epoch::scaled(
                if negative {
                    -w
                } else {
                    w as int
                },
                negative,
                kept,
                shift,
            );
            let all = steps(negative, whole, decimals);
            let pd = text::pow10(decimals.len()) as int;
            let ps = text::pow10(shift) as int;
            let r = rate(finer);
            assert(ticks * pd == all * ps);
            assert(ps * per_second == r) by {
                assert(1_000 * 1_000 == 1_000_000int);
            }
            assert((ticks * per_second) * pd == all * r) by (nonlinear_arith)
                requires
                    ticks * pd == all * ps,
                    ps * per_second == r,
            ;
        },
        None => {},
    }
}

/// A fraction with no more decimals than picoseconds have is read, whatever its
/// digits are.
pub proof fn law_fractions_down_to_picoseconds_are_read(
    negative: bool,
    whole: Seq<char>,
    decimals: Seq<char>,
    format: TimestampFormat,
    per_second: int,
)
    requires
        text_laws::is_number(whole),
        text_laws::is_number(decimals),
        text::digits_value(whole) < 100_000_000_000_000_000_000,
        counts_per_second(format, per_second),
        per_second * text::pow10(decimals.len()) <= 1_000_000_000_000,
    ensures
        crate::time::format::reading(with_fraction(negative, whole, decimals), format) is Ok,
{
    lemma_fractional_reading(negative, whole, decimals, format, per_second);
    lemma_powers();
    lemma_significant(decimals);
    let unit = base(per_second);
    let kept = epoch::significant(decimals);
    let d = decimals.len();
    assert(epoch::places(unit) + d <= 12) by {
        if epoch::places(unit) + d > 12 {
            let limit = (13 - epoch::places(unit)) as nat;
            text::lemma_pow10_monotone(limit, d);
            assert(text::pow10(13) == 10_000_000_000_000) by {
                assert(text::pow10(13) == 10 * text::pow10(12));
            }
            assert(text::pow10(10) == 10_000_000_000) by {
                assert(text::pow10(10) == 10 * text::pow10(9));
            }
            assert(text::pow10(7) == 10_000_000) by {
                assert(text::pow10(7) == 10 * text::pow10(6));
            }
            assert(text::pow10(4) == 10_000) by {
                assert(text::pow10(4) == 10 * text::pow10(3));
            }
            let p = text::pow10(d) as int;
            assert(per_second * text::pow10(limit) == 10_000_000_000_000);
            assert(per_second * p >= per_second * text::pow10(limit)) by (nonlinear_arith)
                requires
                    p >= text::pow10(limit),
                    per_second > 0,
            ;
        }
    }
    let finer = epoch::unit_for(unit, kept.len())->0;
    let shift = (epoch::places(finer) - epoch::places(unit)) as nat;
    let k = kept.len();
    text::lemma_pow10_monotone(shift, 12);
    text::lemma_pow10_adds((shift - k) as nat, k);
    assert((shift - k) as nat + k == shift);
    text::lemma_digits_value_bound(kept);
    let w = text::digits_value(whole) as int;
    let f = text::digits_value(kept) as int;
    let rest = text::pow10((shift - k) as nat) as int;
    let pk = text::pow10(k) as int;
    let ps = text::pow10(shift) as int;
    text::lemma_pow10_positive((shift - k) as nat);
    assert(0 <= f * rest < ps) by (nonlinear_arith)
        requires
            0 <= f < pk,
            ps == rest * pk,
            rest > 0,
    ;
    assert(0 <= w * ps <= 100_000_000_000_000_000_000 * 1_000_000_000_000) by (nonlinear_arith)
        requires
            0 <= w < 100_000_000_000_000_000_000,
            0 < ps <= 1_000_000_000_000,
    ;
    assert((-w) * ps == -(w * ps)) by (nonlinear_arith);
}

/// A fraction with a digit beyond the picoseconds is refused.
pub proof fn law_finer_fractions_are_refused(
    negative: bool,
    whole: Seq<char>,
    decimals: Seq<char>,
    format: TimestampFormat,
    per_second: int,
)
    requires
        text_laws::is_number(whole),
        text_laws::is_number(decimals),
        decimals.last() != '0',
        text::digits_value(whole) <= i128::MAX,
        counts_per_second(format, per_second),
        per_second * text::pow10(decimals.len()) > 1_000_000_000_000,
    ensures
        crate::time::format::reading(with_fraction(negative, whole, decimals), format) is Err,
{
    lemma_fractional_reading(negative, whole, decimals, format, per_second);
    lemma_powers();
    lemma_significant(decimals);
    let unit = base(per_second);
    let d = decimals.len();
    if epoch::places(unit) + d <= 12 {
        let limit = (12 - epoch::places(unit)) as nat;
        text::lemma_pow10_monotone(d, limit);
        let p = text::pow10(d) as int;
        assert(per_second * text::pow10(limit) == 1_000_000_000_000);
        assert(per_second * p <= per_second * text::pow10(limit)) by (nonlinear_arith)
            requires
                p <= text::pow10(limit),
                per_second > 0,
        ;
    }
}

proof fn lemma_decimal_reading(
    whole: Seq<char>,
    decimals: Seq<char>,
    offset: int,
    per_whole: int,
    complaint: Seq<char>,
)
    requires
        text_laws::is_number(whole),
        text_laws::is_number(decimals),
        decimals.len() <= 18,
        text::digits_value(whole) < 100_000_000_000_000_000_000,
        0 <= offset <= 10_000_000_000,
        0 < per_whole <= 100_000_000_000_000,
    ensures
        ({
            let n = text::digits_value(whole);
            let f = text::digits_value(decimals);
            let p = text::pow10(decimals.len());
            crate::time::format::decimal_reading(
                with_fraction(false, whole, decimals),
                offset,
                per_whole,
                complaint,
            ) matches Ok(timestamp) && {
                &&& timestamp.unit == TimeUnit::Nanoseconds
                &&& timestamp.offset_seconds is None
                &&& timestamp.ticks * p <= ((n - offset) * per_whole) * p + f * per_whole < (
                timestamp.ticks + 1) * p
            }
        }),
{
    lemma_parts(false, whole, decimals);
    text::lemma_digits_value_bound(decimals);
    text::lemma_pow10_positive(decimals.len());
    text::lemma_pow10_monotone(decimals.len(), 18);
    assert(text::pow10(18) == 1_000_000_000_000_000_000) by {
        reveal_with_fuel(text::pow10, 19);
    }
    let n = text::digits_value(whole) as int;
    let f = text::digits_value(decimals) as int;
    let p = text::pow10(decimals.len()) as int;
    let start = (n - offset) * per_whole;
    assert(-1_000_000_000_000_000_000_000_000 <= start
        <= 10_000_000_000_000_000_000_000_000_000_000_000) by (nonlinear_arith)
        requires
            start == (n - offset) * per_whole,
            0 <= n < 100_000_000_000_000_000_000,
            0 <= offset <= 10_000_000_000,
            0 < per_whole <= 100_000_000_000_000,
    ;
    assert(0 <= f * per_whole <= 1_000_000_000_000_000_000 * 100_000_000_000_000)
        by (nonlinear_arith)
        requires
            0 <= f < p,
            p <= 1_000_000_000_000_000_000,
            0 < per_whole <= 100_000_000_000_000,
    ;
    let x = f * per_whole;
    let q = x / p;
    assert(q * p <= x < (q + 1) * p && 0 <= q <= x) by (nonlinear_arith)
        requires
            q == x / p,
            p > 0,
            x >= 0,
    ;
    assert((start + q) * p <= start * p + x < (start + q + 1) * p) by (nonlinear_arith)
        requires
            q * p <= x < (q + 1) * p,
    ;
}

/// Numbers of LabVIEW are seconds since the start of 1904, which is 2,082,844,800
/// seconds before 1970. They are read to the nanosecond, what is finer cut off.
pub proof fn law_labview_counts_from_1904(whole: Seq<char>, decimals: Seq<char>)
    requires
        text_laws::is_number(whole),
        text_laws::is_number(decimals),
        decimals.len() <= 18,
        text::digits_value(whole) < 100_000_000_000_000_000_000,
    ensures
        ({
            let n = text::digits_value(whole);
            let f = text::digits_value(decimals);
            let p = text::pow10(decimals.len());
            crate::time::format::reading(
                with_fraction(false, whole, decimals),
                TimestampFormat::LabViewEpoch,
            ) matches Ok(timestamp) && {
                &&& timestamp.unit == TimeUnit::Nanoseconds
                &&& timestamp.offset_seconds is None
                &&& timestamp.ticks * p <= ((n - 2_082_844_800) * 1_000_000_000) * p + f
                    * 1_000_000_000 < (timestamp.ticks + 1) * p
            }
        }),
{
    lemma_decimal_reading(
        whole,
        decimals,
        2_082_844_800,
        1_000_000_000,
        "not a decimal number of seconds"@,
    );
}

/// Numbers of Excel are days, of which number 25,569 is the first of 1970. They
/// are read to the nanosecond, what is finer cut off.
pub proof fn law_excel_counts_days(whole: Seq<char>, decimals: Seq<char>)
    requires
        text_laws::is_number(whole),
        text_laws::is_number(decimals),
        decimals.len() <= 18,
        text::digits_value(whole) < 100_000_000_000_000_000_000,
    ensures
        ({
            let n = text::digits_value(whole);
            let f = text::digits_value(decimals);
            let p = text::pow10(decimals.len());
            crate::time::format::reading(
                with_fraction(false, whole, decimals),
                TimestampFormat::ExcelSerial,
            ) matches Ok(timestamp) && {
                &&& timestamp.unit == TimeUnit::Nanoseconds
                &&& timestamp.offset_seconds is None
                &&& timestamp.ticks * p <= ((n - 25_569) * (24 * 60 * 60 * 1_000_000_000)) * p + f
                    * (24 * 60 * 60 * 1_000_000_000) < (timestamp.ticks + 1) * p
            }
        }),
{
    lemma_decimal_reading(
        whole,
        decimals,
        25_569,
        86_400_000_000_000,
        "not a decimal number of days"@,
    );
}

/// A whole number of LabVIEW seconds or of Excel days.
pub proof fn law_whole_seconds_and_days(field: Seq<char>, n: int)
    requires
        text::trimmed(field) == text::decimal_text(n),
        -100_000_000_000_000_000_000 < n < 100_000_000_000_000_000_000,
    ensures
        crate::time::format::reading(field, TimestampFormat::LabViewEpoch) == Ok::<
            Timestamp,
            Seq<char>,
        >(
            Timestamp {
                ticks: ((n - 2_082_844_800) * 1_000_000_000) as i128,
                unit: TimeUnit::Nanoseconds,
                offset_seconds: None,
            },
        ),
        crate::time::format::reading(field, TimestampFormat::ExcelSerial) == Ok::<
            Timestamp,
            Seq<char>,
        >(
            Timestamp {
                ticks: ((n - 25_569) * 86_400_000_000_000) as i128,
                unit: TimeUnit::Nanoseconds,
                offset_seconds: None,
            },
        ),
{
    let s = text::decimal_text(n);
    lemma_decimal_text_chars(n);
    text::law_decimal_text_round_trips(n, i128::MIN as int, i128::MAX as int);
    text_laws::law_first_place(s, '.');
    let dot = text::first_index(s, '.');
    if dot < s.len() {
        assert(s[dot] == '-' || text::is_digit_spec(s[dot]));
    }
    assert(s.take(dot) =~= s);
    let none: Seq<char> = Seq::empty();
    assert(crate::time::format::decimal_parts(field) == Some((n, none)));
    assert(text::digits_value(none) == 0);
    assert(text::pow10(0) == 1);
    assert(crate::time::format::fraction_ticks(none, 1_000_000_000) == 0);
    assert(crate::time::format::fraction_ticks(none, 86_400_000_000_000) == 0);
}

proof fn lemma_iso_fraction(date: Seq<char>, decimals: Seq<char>, zone: Seq<char>)
    requires
        forall|i: int| 0 <= i < date.len() ==> #[trigger] date[i] != '.',
        text::all_digits(decimals),
        zone.len() == 0 || !text::is_digit_spec(zone[0]),
    ensures
        crate::time::format::iso_fraction(date + seq!['.'] + decimals + zone) == Some(
            (date, decimals, zone),
        ),
{
    let s = date + seq!['.'] + decimals + zone;
    let after = decimals + zone;
    assert(s =~= date + seq!['.'] + after);
    law_first_place_behind(date, '.', after);
    assert(s.take(date.len() as int) =~= date);
    assert(s.skip(date.len() as int + 1) =~= after);
    text_laws::lemma_digit_run(decimals, zone);
    assert(after.take(decimals.len() as int) =~= decimals);
    assert(after.skip(decimals.len() as int) =~= zone);
}

proof fn lemma_picos(decimals: Seq<char>)
    requires
        text::all_digits(decimals),
    ensures
        ({
            let picos = crate::time::format::picos_of(decimals);
            let f = text::digits_value(decimals);
            let p = text::pow10(decimals.len());
            &&& 0 <= picos < 1_000_000_000_000
            &&& picos * p <= f * 1_000_000_000_000 < (picos + 1) * p
        }),
{
    lemma_powers();
    let d = decimals.len();
    let f = text::digits_value(decimals) as int;
    let p = text::pow10(d) as int;
    let picos = crate::time::format::picos_of(decimals);
    text::lemma_digits_value_bound(decimals);
    text::lemma_pow10_positive(d);
    if d <= 12 {
        assert(decimals.take(d as int) =~= decimals);
        let rest = text::pow10((12 - d) as nat) as int;
        text::lemma_pow10_adds((12 - d) as nat, d);
        assert((12 - d) as nat + d == 12);
        text::lemma_pow10_positive((12 - d) as nat);
        assert(picos == f * rest);
        assert(rest * p == 1_000_000_000_000);
        assert(picos * p == f * 1_000_000_000_000) by (nonlinear_arith)
            requires
                picos == f * rest,
                rest * p == 1_000_000_000_000,
        ;
        assert(0 <= f * rest < 1_000_000_000_000) by (nonlinear_arith)
            requires
                0 <= f < p,
                rest * p == 1_000_000_000_000,
                rest > 0,
        ;
        assert((picos + 1) * p == picos * p + p) by (nonlinear_arith);
    } else {
        let kept = decimals.take(12);
        let cut = decimals.skip(12);
        assert forall|i: int| 0 <= i < kept.len() implies text::is_digit_spec(
            #[trigger] kept[i],
        ) by {
            assert(kept[i] == decimals[i]);
        }
        assert forall|i: int| 0 <= i < cut.len() implies text::is_digit_spec(
            #[trigger] cut[i],
        ) by {
            assert(cut[i] == decimals[i + 12]);
        }
        assert(kept + cut =~= decimals);
        law_digits_are_places(kept, cut);
        text::lemma_digits_value_bound(kept);
        text::lemma_digits_value_bound(cut);
        let more = text::pow10(cut.len()) as int;
        text::lemma_pow10_adds(12, cut.len());
        assert(12 + cut.len() == d);
        assert(p == 1_000_000_000_000 * more);
        let low = text::digits_value(cut) as int;
        assert(picos == text::digits_value(kept)) by {
            assert(text::digits_value(kept) * 1 == text::digits_value(kept));
        }
        assert(f == picos * more + low);
        assert(picos * p <= f * 1_000_000_000_000 < (picos + 1) * p) by (nonlinear_arith)
            requires
                p == 1_000_000_000_000 * more,
                f == picos * more + low,
                0 <= low < more,
        ;
    }
}

/// A date with more than nine decimals of a second is read to the picosecond, what
/// is finer cut off: the second is that of the date without the fraction.
pub proof fn law_long_fractions_are_picoseconds(
    date: Seq<char>,
    decimals: Seq<char>,
    zone: Seq<char>,
    seconds: i64,
    offset: i32,
    rest: Option<i64>,
)
    requires
        forall|i: int| 0 <= i < date.len() ==> #[trigger] date[i] != '.',
        text::all_digits(decimals),
        decimals.len() > 9,
        zone.len() == 0 || !text::is_digit_spec(zone[0]),
        crate::time::format::rfc3339_instant(date + zone) == Ok::<
            (i64, Option<i64>, i32),
            Seq<char>,
        >((seconds, rest, offset)),
    ensures
        crate::time::format::reading(
            date + seq!['.'] + decimals + zone,
            TimestampFormat::Iso8601WithOffset,
        ) matches Ok(timestamp) && {
            let f = text::digits_value(decimals);
            let p = text::pow10(decimals.len());
            &&& timestamp.unit == TimeUnit::Picoseconds
            &&& timestamp.offset_seconds == Some(offset)
            &&& (timestamp.ticks - seconds * 1_000_000_000_000) * p <= f * 1_000_000_000_000 < (
            timestamp.ticks - seconds * 1_000_000_000_000 + 1) * p
        },
{
    lemma_iso_fraction(date, decimals, zone);
    lemma_picos(decimals);
}

/// The same of a date without an offset.
pub proof fn law_long_naive_fractions_are_picoseconds(
    date: Seq<char>,
    decimals: Seq<char>,
    seconds: i64,
    rest: Option<i64>,
)
    requires
        forall|i: int| 0 <= i < date.len() ==> #[trigger] date[i] != '.',
        text::all_digits(decimals),
        decimals.len() > 9,
        crate::time::format::naive_instant(date, "%Y-%m-%dT%H:%M:%S"@) == Ok::<
            (i64, Option<i64>),
            Seq<char>,
        >((seconds, rest)),
    ensures
        crate::time::format::reading(
            date + seq!['.'] + decimals,
            TimestampFormat::Iso8601Naive,
        ) matches Ok(timestamp) && {
            let f = text::digits_value(decimals);
            let p = text::pow10(decimals.len());
            &&& timestamp.unit == TimeUnit::Picoseconds
            &&& timestamp.offset_seconds is None
            &&& (timestamp.ticks - seconds * 1_000_000_000_000) * p <= f * 1_000_000_000_000 < (
            timestamp.ticks - seconds * 1_000_000_000_000 + 1) * p
        },
{
    let none: Seq<char> = Seq::empty();
    lemma_iso_fraction(date, decimals, none);
    lemma_picos(decimals);
    assert(date + seq!['.'] + decimals + none =~= date + seq!['.'] + decimals);
    assert(date + none =~= date);
}

/// A date with no more than nine decimals of a second is read to the nanosecond.
pub proof fn law_short_fractions_are_nanoseconds(
    date: Seq<char>,
    decimals: Seq<char>,
    zone: Seq<char>,
    seconds: i64,
    nanos: i64,
    offset: i32,
)
    requires
        forall|i: int| 0 <= i < date.len() ==> #[trigger] date[i] != '.',
        text::all_digits(decimals),
        decimals.len() <= 9,
        zone.len() == 0 || !text::is_digit_spec(zone[0]),
        crate::time::format::rfc3339_instant(date + seq!['.'] + decimals + zone) == Ok::<
            (i64, Option<i64>, i32),
            Seq<char>,
        >((seconds, Some(nanos), offset)),
    ensures
        crate::time::format::reading(
            date + seq!['.'] + decimals + zone,
            TimestampFormat::Iso8601WithOffset,
        ) == Ok::<Timestamp, Seq<char>>(
            Timestamp {
                ticks: nanos as i128,
                unit: TimeUnit::Nanoseconds,
                offset_seconds: Some(offset),
            },
        ),
{
    lemma_iso_fraction(date, decimals, zone);
}

/// Counting in a finer unit does not move an instant, nor its offset. It fails
/// only if there are too many ticks.
pub proof fn law_a_finer_count_is_the_same_instant(timestamp: Timestamp, unit: TimeUnit)
    ensures
        match column_unit::counted_in(timestamp, unit) {
            Ok(counted) => {
                &&& counted.ticks * rate(timestamp.unit) == timestamp.ticks * rate(counted.unit)
                &&& counted.offset_seconds == timestamp.offset_seconds
                &&& rate(counted.unit) == (if rate(unit) > rate(timestamp.unit) {
                    rate(unit)
                } else {
                    rate(timestamp.unit)
                })
            },
            Err(_) => {
                let ticks = timestamp.ticks * (rate(unit) / rate(timestamp.unit));
                ticks < i128::MIN || i128::MAX < ticks
            },
        },
{
    lemma_powers();
    if epoch::places(unit) > epoch::places(timestamp.unit) {
        let shift = (epoch::places(unit) - epoch::places(timestamp.unit)) as nat;
        let t = timestamp.ticks as int;
        let p = text::pow10(shift) as int;
        let from = rate(timestamp.unit);
        let to = rate(unit);
        assert(p * from == to);
        assert(to / from == p) by (nonlinear_arith)
            requires
                p * from == to,
                from > 0,
        ;
        assert((t * p) * from == t * to) by (nonlinear_arith)
            requires
                p * from == to,
        ;
    }
}

proof fn lemma_finest(fields: Seq<Seq<char>>, unit: TimeUnit, n: int)
    requires
        0 <= n <= fields.len(),
    ensures
        ({
            let finest = column_unit::finest_unit(fields, unit, n);
            &&& rate(unit) <= rate(finest)
            &&& forall|i: int|
                0 <= i < n ==> (epoch::epoch_reading(#[trigger] fields[i], unit) matches Ok(
                    timestamp,
                ) ==> rate(timestamp.unit) <= rate(finest))
            &&& finest == unit || exists|i: int|
                0 <= i < n && (epoch::epoch_reading(#[trigger] fields[i], unit) matches Ok(
                    timestamp,
                ) && timestamp.unit == finest)
        }),
    decreases n,
{
    if n > 0 {
        lemma_finest(fields, unit, n - 1);
        let before = column_unit::finest_unit(fields, unit, n - 1);
        let finest = column_unit::finest_unit(fields, unit, n);
        if finest == before && finest != unit {
            let i = choose|i: int|
                0 <= i < n - 1 && (epoch::epoch_reading(#[trigger] fields[i], unit) matches Ok(
                    timestamp,
                ) && timestamp.unit == finest);
            assert(epoch::epoch_reading(fields[i], unit) matches Ok(timestamp) && timestamp.unit
                == finest);
        }
    }
}

/// The rows of a column that counts from 1970 are all counted in one unit: the
/// finest that any of them needs. No row is moved by it.
pub proof fn law_rows_of_a_column_share_a_unit(
    fields: Seq<Seq<char>>,
    format: TimestampFormat,
    per_second: int,
    i: int,
)
    requires
        counts_per_second(format, per_second),
        0 <= i < fields.len(),
    ensures
        ({
            let unit = column_unit::column_unit(fields, format);
            &&& unit is Some
            &&& unit->0 == base_unit(format) || exists|j: int|
                0 <= j < fields.len() && (crate::time::format::reading(
                    #[trigger] fields[j],
                    format,
                ) matches Ok(timestamp) && timestamp.unit == unit->0)
            &&& column_unit::row_reading(fields[i], format, unit) matches Ok(row) ==> {
                &&& row.unit == unit->0
                &&& crate::time::format::reading(fields[i], format) matches Ok(timestamp)
                    && row.ticks * rate(timestamp.unit) == timestamp.ticks * rate(row.unit)
            }
        }),
{
    let base = base_unit(format);
    lemma_finest(fields, base, fields.len() as int);
    let unit = column_unit::column_unit(fields, format)->0;
    if unit != base {
        let j = choose|j: int|
            0 <= j < fields.len() && (epoch::epoch_reading(#[trigger] fields[j], base) matches Ok(
                timestamp,
            ) && timestamp.unit == unit);
        assert(crate::time::format::reading(fields[j], format) matches Ok(timestamp)
            && timestamp.unit == unit);
    }
    match crate::time::format::reading(fields[i], format) {
        Ok(timestamp) => {
            assert(epoch::epoch_reading(fields[i], base) matches Ok(read) && read == timestamp);
            law_a_finer_count_is_the_same_instant(timestamp, unit);
        },
        Err(_) => {},
    }
}

/// The unit that a format counts in.
pub open spec fn base_unit(format: TimestampFormat) -> TimeUnit {
    if format == TimestampFormat::EpochSeconds {
        TimeUnit::Seconds
    } else if format == TimestampFormat::EpochMillis {
        TimeUnit::Milliseconds
    } else if format == TimestampFormat::EpochMicros {
        TimeUnit::Microseconds
    } else {
        TimeUnit::Nanoseconds
    }
}

/// A date without a zone is the nanoseconds that the calendar gives for it, if they
/// can be counted. What the calendar refuses is refused, and so is what lies too
/// far off. One format has no reading.
pub proof fn law_dates_are_nanoseconds(
    s: Seq<char>,
    format: TimestampFormat,
    pattern: Seq<char>,
)
    requires
        (format == TimestampFormat::DayFirst && pattern == "%d/%m/%Y %H:%M:%S"@) || (format
            == TimestampFormat::MonthFirst && pattern == "%m/%d/%Y %H:%M:%S"@) || (format
            == TimestampFormat::Iso8601Naive && pattern == "%Y-%m-%dT%H:%M:%S%.f"@ && !s.contains(
            '.',
        )),
    ensures
        match crate::time::format::naive_instant(s, pattern) {
            Ok((_, Some(nanos))) => crate::time::format::reading(s, format) == Ok::<
                Timestamp,
                Seq<char>,
            >(
                Timestamp {
                    ticks: nanos as i128,
                    unit: TimeUnit::Nanoseconds,
                    offset_seconds: None,
                },
            ),
            Ok((_, None)) => crate::time::format::reading(s, format) is Err,
            Err(reason) => crate::time::format::reading(s, format) == Err::<Timestamp, Seq<char>>(
                reason,
            ),
        },
        crate::time::format::reading(s, TimestampFormat::DateTimeSpace) is Err,
{
    text_laws::law_first_place(s, '.');
    if !s.contains('.') {
        let at = text::first_index(s, '.');
        if at < s.len() {
            assert(s[at] == '.');
        }
    }
}

/// A timestamp is shown with its own offset, if that is less than a day, and with
/// none if it has none.
pub proof fn law_offsets_of_less_than_a_day_are_shown(timestamp: Timestamp)
    ensures
        timestamp.offset_seconds matches Some(offset) ==> (-24 * 60 * 60 < offset < 24 * 60 * 60
            ==> crate::time::format::display_offset(timestamp) == offset),
        timestamp.offset_seconds is None ==> crate::time::format::display_offset(timestamp) == 0,
        -24 * 60 * 60 < crate::time::format::display_offset(timestamp) < 24 * 60 * 60,
{
}

proof fn lemma_small_shift(unit: TimeUnit, finer: TimeUnit) -> (shift: nat)
    requires
        epoch::places(finer) > epoch::places(unit),
    ensures
        shift == epoch::places(finer) - epoch::places(unit),
        text::pow10(shift) * rate(unit) == rate(finer),
        text::pow10(shift) > 0,
        shift >= 1,
{
    lemma_powers();
    (epoch::places(finer) - epoch::places(unit)) as nat
}

/// A timestamp that counts finer than the format it is written in is written with
/// a fraction, and reads as the same instant.
pub proof fn law_written_fractions_are_the_same_instant(
    timestamp: Timestamp,
    format: TimestampFormat,
    per_second: int,
)
    requires
        counts_per_second(format, per_second),
        rate(timestamp.unit) > per_second,
        -100_000_000_000_000_000_000 < timestamp.ticks < 100_000_000_000_000_000_000,
    ensures
        crate::time::format::reading(
            crate::time::format::timestamp_text(timestamp, format),
            format,
        ) matches Ok(read) && read.ticks * rate(timestamp.unit) == timestamp.ticks * rate(
            read.unit,
        ),
{
    let unit = base(per_second);
    let shift = lemma_small_shift(unit, timestamp.unit);
    let p = text::pow10(shift) as int;
    let t = timestamp.ticks as int;
    let m = epoch::magnitude(t) as int;
    let q = m / p;
    let r = m % p;
    let negative = t < 0;
    let from = rate(timestamp.unit);
    assert(m == q * p + r && 0 <= r < p && 0 <= q <= m) by (nonlinear_arith)
        requires
            q == m / p,
            r == m % p,
            p > 0,
            m >= 0,
    ;
    let whole = text::decimal_digits(q as nat);
    text::lemma_decimal_digits(q as nat);
    let s = crate::time::format::timestamp_text(timestamp, format);
    assert(s == epoch::scaled_text(t, shift));
    if r == 0 {
        let n = if negative {
            -q
        } else {
            q
        };
        if negative {
            assert(q > 0) by (nonlinear_arith)
                requires
                    m == q * p + r,
                    r == 0,
                    m > 0,
                    p > 0,
            ;
        }
        assert(s =~= text::decimal_text(n));
        lemma_decimal_text_chars(n);
        lemma_trimmed_unchanged(s);
        law_whole_epochs_are_ticks(s, n as i128);
        assert((-q) * p == -(q * p)) by (nonlinear_arith);
        assert(n * from == t * per_second) by (nonlinear_arith)
            requires
                t == n * p,
                p * per_second == from,
        ;
    } else {
        let decimals = crate::time::format::fraction_digits(r, p, 1, shift);
        assert((r * p) % p == 0) by (nonlinear_arith)
            requires
                p > 0,
        ;
        lemma_exact_fraction(r, p, 1, shift);
        assert(s =~= with_fraction(negative, whole, decimals));
        let d = decimals.len();
        let pd = text::pow10(d) as int;
        let f = text::digits_value(decimals) as int;
        text::lemma_pow10_positive(d);
        text::lemma_pow10_monotone(d, shift);
        assert(per_second * pd <= 1_000_000_000_000) by (nonlinear_arith)
            requires
                pd <= p,
                p * per_second == from,
                from <= 1_000_000_000_000,
                per_second > 0,
        ;
        law_fractions_down_to_picoseconds_are_read(negative, whole, decimals, format, per_second);
        law_fractions_are_read_exactly(negative, whole, decimals, format, per_second);
        let read = crate::time::format::reading(s, format)->Ok_0;
        let to = rate(read.unit);
        let all = q * pd + f;
        assert(all * p == m * pd) by (nonlinear_arith)
            requires
                all == q * pd + f,
                m == q * p + r,
                f * p == r * pd,
        ;
        let value = steps(negative, whole, decimals);
        assert(value * p == t * pd) by (nonlinear_arith)
            requires
                all * p == m * pd,
                (value == all && t == m) || (value == -all && t == -m),
        ;
        let x = read.ticks as int;
        assert((x * from) * pd == (t * to) * pd) by (nonlinear_arith)
            requires
                (x * per_second) * pd == value * to,
                value * p == t * pd,
                p * per_second == from,
        ;
        assert(x * from == t * to) by (nonlinear_arith)
            requires
                (x * from) * pd == (t * to) * pd,
                pd > 0,
        ;
    }
}

proof fn lemma_last_places(f: int, j: nat)
    requires
        f % 10 != 0,
        j <= 2,
    ensures
        (f * text::pow10(j)) % 1_000 != 0,
{
    lemma_powers();
    let rest = text::pow10(j) as int;
    if j == 0 {
        assert(f * rest == f) by (nonlinear_arith)
            requires
                rest == 1,
        ;
    } else if j == 1 {
        assert(f * rest == 10 * f) by (nonlinear_arith)
            requires
                rest == 10,
        ;
        assert((10 * f) % 1_000 != 0);
    } else {
        assert(f * rest == 100 * f) by (nonlinear_arith)
            requires
                rest == 100,
        ;
        assert((100 * f) % 1_000 != 0);
    }
}

proof fn lemma_whole_thousands(w: int, shift: nat)
    requires
        shift >= 3,
    ensures
        (w * text::pow10(shift)) % 1_000 == 0,
        (-w) * text::pow10(shift) == -(w * text::pow10(shift)),
{
    lemma_powers();
    text::lemma_pow10_adds(3, (shift - 3) as nat);
    assert(3 + (shift - 3) as nat == shift);
    let ps = text::pow10(shift) as int;
    let more = text::pow10((shift - 3) as nat) as int;
    let thousands = w * more;
    assert(w * ps == thousands * 1_000) by (nonlinear_arith)
        requires
            ps == 1_000 * more,
            thousands == w * more,
    ;
    assert((-w) * ps == -(w * ps)) by (nonlinear_arith);
}

/// A number with a fraction is counted in the coarsest unit that has room for its
/// digits: with a digit other than zero behind the point the unit is finer than
/// that of the format, but not so fine that three places would be left empty.
pub proof fn law_fractions_use_the_coarsest_unit(
    negative: bool,
    whole: Seq<char>,
    decimals: Seq<char>,
    format: TimestampFormat,
    per_second: int,
)
    requires
        text_laws::is_number(whole),
        text_laws::is_number(decimals),
        text::digits_value(whole) <= i128::MAX,
        counts_per_second(format, per_second),
    ensures
        crate::time::format::reading(with_fraction(negative, whole, decimals), format) matches Ok(
            timestamp,
        ) ==> {
            &&& rate(timestamp.unit) == per_second <==> text::digits_value(decimals) == 0
            &&& rate(timestamp.unit) > per_second ==> timestamp.ticks as int % 1_000 != 0
        },
{
    lemma_fractional_reading(negative, whole, decimals, format, per_second);
    lemma_powers();
    lemma_significant(decimals);
    let unit = base(per_second);
    let kept = epoch::significant(decimals);
    let k = kept.len();
    let w = text::digits_value(whole) as int;
    let f = text::digits_value(kept) as int;
    let cut = text::pow10((decimals.len() - k) as nat) as int;
    text::lemma_pow10_positive((decimals.len() - k) as nat);
    if k == 0 {
        assert(f == 0);
        assert(0 * cut == 0);
    } else {
        assert(text::is_digit_spec(kept[k - 1]));
        assert(f % 10 != 0);
        assert(f * cut > 0) by (nonlinear_arith)
            requires
                f > 0,
                cut > 0,
        ;
    }
    match epoch::unit_for(unit, k) {
        Some(finer) if k > 0 => {
            let shift = (epoch::places(finer) - epoch::places(unit)) as nat;
            let j = (shift - k) as nat;
            assert(j <= 2);
            assert(shift >= 3);
            lemma_last_places(f, j);
            lemma_whole_thousands(w, shift);
        },
        _ => {},
    }
}

/// Whether a format is one of numbers.
pub open spec fn is_numeric(format: TimestampFormat) -> bool {
    ||| format == TimestampFormat::EpochSeconds
    ||| format == TimestampFormat::EpochMillis
    ||| format == TimestampFormat::EpochMicros
    ||| format == TimestampFormat::EpochNanos
    ||| format == TimestampFormat::LabViewEpoch
    ||| format == TimestampFormat::ExcelSerial
}

/// White space around a number does not change the time that it is.
pub proof fn law_white_space_around_numbers_does_not_matter(
    before: Seq<char>,
    s: Seq<char>,
    after: Seq<char>,
    format: TimestampFormat,
)
    requires
        is_numeric(format),
        s.len() > 0,
        !text::is_space_spec(s[0]),
        !text::is_space_spec(s.last()),
        forall|i: int| 0 <= i < before.len() ==> text::is_space_spec(#[trigger] before[i]),
        forall|i: int| 0 <= i < after.len() ==> text::is_space_spec(#[trigger] after[i]),
    ensures
        crate::time::format::reading(before + s + after, format) == crate::time::format::reading(
            s,
            format,
        ),
{
    let none: Seq<char> = Seq::empty();
    law_white_space_around_a_text_does_not_matter(before, s, after);
    law_white_space_around_a_text_does_not_matter(none, s, none);
    assert(none + s + none =~= s);
    assert(crate::time::format::decimal_parts(before + s + after)
        == crate::time::format::decimal_parts(s));
}

/// However a whole number is written, with zeros before it or with a sign, it is
/// that many ticks.
pub proof fn law_spelled_epochs_are_ticks(digits: Seq<char>, format: TimestampFormat, per_second: int)
    requires
        text_laws::is_number(digits),
        text::digits_value(digits) <= i128::MAX,
        counts_per_second(format, per_second),
    ensures
        ({
            let n = text::digits_value(digits) as i128;
            let unit = base_unit(format);
            &&& crate::time::format::reading(digits, format) == Ok::<Timestamp, Seq<char>>(
                Timestamp { ticks: n, unit, offset_seconds: None },
            )
            &&& crate::time::format::reading(seq!['+'] + digits, format) == Ok::<
                Timestamp,
                Seq<char>,
            >(Timestamp { ticks: n, unit, offset_seconds: None })
            &&& crate::time::format::reading(seq!['-'] + digits, format) == Ok::<
                Timestamp,
                Seq<char>,
            >(Timestamp { ticks: (-n) as i128, unit, offset_seconds: None })
        }),
{
    assert(text::is_digit_spec(digits[0]));
    assert(text::is_digit_spec(digits[digits.len() - 1]));
    lemma_trimmed_unchanged(digits);
    assert((seq!['+'] + digits).last() == digits[digits.len() - 1]);
    assert((seq!['-'] + digits).last() == digits[digits.len() - 1]);
    lemma_trimmed_unchanged(seq!['+'] + digits);
    lemma_trimmed_unchanged(seq!['-'] + digits);
    law_digits_spell_an_integer(digits, i128::MIN as int, i128::MAX as int);
}

/// Which timestamps are read as they were written. With an offset: those of
/// nanoseconds that can be counted, and those of picoseconds of a year of four
/// digits, with offsets of whole minutes. Without one, and with slashes, those
/// without an offset; with slashes, whole seconds. Of numbers, those that count as
/// the format does or finer.
pub proof fn law_most_timestamps_read_back(ticks: i128, offset: i32)
    ensures
        -86_400 < offset < 86_400 && offset as int % 60 == 0 && i64::MIN <= ticks <= i64::MAX
            ==> crate::time::format::reads_back(
            Timestamp { ticks, unit: TimeUnit::Nanoseconds, offset_seconds: Some(offset) },
            TimestampFormat::Iso8601WithOffset,
        ),
        -86_400 < offset < 86_400 && offset as int % 60 == 0 && -62_167_219_200 <= ticks as int
            / 1_000_000_000_000 + offset <= 253_402_300_799 ==> crate::time::format::reads_back(
            Timestamp { ticks, unit: TimeUnit::Picoseconds, offset_seconds: Some(offset) },
            TimestampFormat::Iso8601WithOffset,
        ),
        i64::MIN <= ticks <= i64::MAX ==> crate::time::format::reads_back(
            Timestamp { ticks, unit: TimeUnit::Nanoseconds, offset_seconds: None },
            TimestampFormat::Iso8601Naive,
        ),
        -8_334_601_228_800 <= ticks as int / 1_000_000_000_000 <= 8_210_266_876_799
            ==> crate::time::format::reads_back(
            Timestamp { ticks, unit: TimeUnit::Picoseconds, offset_seconds: None },
            TimestampFormat::Iso8601Naive,
        ),
        i64::MIN <= ticks <= i64::MAX && ticks as int % 1_000_000_000 == 0
            ==> crate::time::format::reads_back(
            Timestamp { ticks, unit: TimeUnit::Nanoseconds, offset_seconds: None },
            TimestampFormat::DayFirst,
        ) && crate::time::format::reads_back(
            Timestamp { ticks, unit: TimeUnit::Nanoseconds, offset_seconds: None },
            TimestampFormat::MonthFirst,
        ),
        crate::time::format::reads_back(
            Timestamp { ticks, unit: TimeUnit::Seconds, offset_seconds: None },
            TimestampFormat::EpochSeconds,
        ),
        crate::time::format::reads_back(
            Timestamp { ticks, unit: TimeUnit::Milliseconds, offset_seconds: None },
            TimestampFormat::EpochMillis,
        ),
        crate::time::format::reads_back(
            Timestamp { ticks, unit: TimeUnit::Microseconds, offset_seconds: None },
            TimestampFormat::EpochMicros,
        ),
        crate::time::format::reads_back(
            Timestamp { ticks, unit: TimeUnit::Nanoseconds, offset_seconds: None },
            TimestampFormat::EpochNanos,
        ),
        -1_000_000_000_000_000_000_000_000_000_000 < ticks ==> crate::time::format::reads_back(
            Timestamp { ticks, unit: TimeUnit::Nanoseconds, offset_seconds: None },
            TimestampFormat::LabViewEpoch,
        ),
        -1_000_000_000_000_000_000_000_000_000_000 < ticks && ticks as int % 86_400 == 0
            ==> crate::time::format::reads_back(
            Timestamp { ticks, unit: TimeUnit::Nanoseconds, offset_seconds: None },
            TimestampFormat::ExcelSerial,
        ),
{
    let t = ticks as int;
    if t % 86_400 == 0 {
        let r = t % 86_400_000_000_000;
        assert(r % 86_400 == 0);
        let k = r / 86_400;
        assert(r * 1_000_000_000_000 == k * 1_000 * 86_400_000_000_000);
    }
}

/// A timestamp of picoseconds is written with all twelve digits behind the second.
pub proof fn law_picoseconds_are_written_in_full(timestamp: Timestamp) -> (digits: Seq<char>)
    requires
        timestamp.unit == TimeUnit::Picoseconds,
    ensures
        digits.len() == 12,
        text::all_digits(digits),
        text::digits_value(digits) == timestamp.ticks as int % 1_000_000_000_000,
        ({
            let second = (timestamp.ticks as int / 1_000_000_000_000) as i64;
            let offset = crate::time::format::display_offset(timestamp);
            let date = "%Y-%m-%dT%H:%M:%S"@;
            &&& crate::time::format::timestamp_text(timestamp, TimestampFormat::Iso8601Naive)
                == crate::time::format::date_text(second, 0, 0, date) + seq!['.'] + digits
            &&& crate::time::format::timestamp_text(timestamp, TimestampFormat::Iso8601WithOffset)
                == crate::time::format::date_text(second, 0, offset, date) + seq!['.'] + digits
                + crate::time::format::date_text(second, 0, offset, "%:z"@)
        }),
{
    let picos = (timestamp.ticks as int % 1_000_000_000_000) as nat;
    lemma_powers();
    text::lemma_fixed_digits(picos, 12);
    text::lemma_fixed_digits_len(picos, 12);
    text::fixed_digits(picos, 12)
}

} // verus!
