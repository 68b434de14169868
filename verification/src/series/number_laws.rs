//! What number a bit pattern is, and that order, promotion and widening are those
//! of the numbers.

use vstd::arithmetic::power2::{
    lemma2_to64, lemma_pow2_adds, lemma_pow2_pos, lemma_pow2_strictly_increases, lemma_pow2_unfold,
};
use vstd::prelude::*;
use crate::series::dtype;
use crate::series::dtype::Samples;
use crate::series::rounding;
use crate::series::value;

verus! {

/// The exponent field of a pattern.
pub open spec fn exponent(bits: u64) -> int {
    (bits as int % 0x8000_0000_0000_0000) / 0x10_0000_0000_0000
}

/// The fraction field of a pattern.
pub open spec fn mantissa(bits: u64) -> int {
    bits as int % 0x10_0000_0000_0000
}

/// The size of a finite number, counted in the smallest number above zero, which
/// is two to the power of minus 1074.
pub open spec fn size(bits: u64) -> int {
    if exponent(bits) == 0 {
        mantissa(bits)
    } else {
        (0x10_0000_0000_0000 + mantissa(bits)) * vstd::arithmetic::power2::pow2(
            (exponent(bits) - 1) as nat,
        )
    }
}

/// A finite number, counted in the same way.
pub open spec fn number(bits: u64) -> int {
    if bits >= 0x8000_0000_0000_0000 {
        -size(bits)
    } else {
        size(bits)
    }
}

/// A pattern with all bits of the exponent set is no finite number: infinite
/// without a fraction, not a number with one.
pub proof fn law_full_exponents_are_not_finite(bits: u64)
    ensures
        value::is_finite_spec(bits) <==> exponent(bits) < 2047,
        value::is_nan_spec(bits) <==> exponent(bits) == 2047 && mantissa(bits) != 0,
        bits == value::POSITIVE_INFINITY ==> exponent(bits) == 2047 && mantissa(bits) == 0,
        bits == value::NEGATIVE_INFINITY ==> exponent(bits) == 2047 && mantissa(bits) == 0,
        0 <= exponent(bits) <= 2047,
        0 <= mantissa(bits) < 0x10_0000_0000_0000,
{
}

proof fn lemma_sizes_grow(a: u64, b: u64)
    requires
        value::magnitude(a) < value::magnitude(b),
        value::is_finite_spec(b),
    ensures
        0 <= size(a) < size(b),
{
    lemma2_to64();
    let (ea, eb) = (exponent(a), exponent(b));
    let (fa, fb) = (mantissa(a), mantissa(b));
    assert(value::magnitude(a) == ea * 0x10_0000_0000_0000 + fa);
    assert(value::magnitude(b) == eb * 0x10_0000_0000_0000 + fb);
    assert(ea <= eb);
    if eb > 0 {
        let ub = vstd::arithmetic::power2::pow2((eb - 1) as nat) as int;
        lemma_pow2_pos((eb - 1) as nat);
        if ea == eb {
            assert(0 <= (0x10_0000_0000_0000 + fa) * ub < (0x10_0000_0000_0000 + fb) * ub)
                by (nonlinear_arith)
                requires
                    0 <= fa < fb,
                    ub > 0,
            ;
        } else if ea == 0 {
            assert((0x10_0000_0000_0000 + fb) * ub >= 0x10_0000_0000_0000) by (nonlinear_arith)
                requires
                    0 <= fb,
                    ub >= 1,
            ;
        } else {
            let ua = vstd::arithmetic::power2::pow2((ea - 1) as nat) as int;
            lemma_pow2_pos((ea - 1) as nat);
            lemma_pow2_unfold((eb - 1) as nat);
            if ea < eb - 1 {
                lemma_pow2_strictly_increases((ea - 1) as nat, (eb - 2) as nat);
            }
            assert(2 * ua <= ub);
            assert(0 <= (0x10_0000_0000_0000 + fa) * ua < (0x10_0000_0000_0000 + fb) * ub)
                by (nonlinear_arith)
                requires
                    0 <= fa < 0x10_0000_0000_0000,
                    0 <= fb,
                    0 < ua,
                    2 * ua <= ub,
            ;
        }
    }
}

proof fn lemma_size_is_by_magnitude(a: u64, b: u64)
    requires
        value::magnitude(a) == value::magnitude(b),
    ensures
        size(a) == size(b),
{
    lemma_fields_of_magnitude(a);
    lemma_fields_of_magnitude(b);
}

proof fn lemma_fields_of_magnitude(a: u64)
    ensures
        exponent(a) == value::magnitude(a) / 0x10_0000_0000_0000,
        mantissa(a) == value::magnitude(a) % 0x10_0000_0000_0000,
{
    assert(value::magnitude(a) == a as int % 0x8000_0000_0000_0000);
    if a >= 0x8000_0000_0000_0000 {
        assert(a as int == value::magnitude(a) + 0x800 * 0x10_0000_0000_0000);
    }
}

/// The order of patterns is that of the numbers, the two zeros being one number.
pub proof fn law_order_is_that_of_the_numbers(a: u64, b: u64)
    requires
        value::is_finite_spec(a),
        value::is_finite_spec(b),
    ensures
        value::order_key(a) < value::order_key(b) <==> number(a) < number(b),
        value::order_key(a) == value::order_key(b) <==> number(a) == number(b),
        value::less_than_spec(a, b) <==> number(a) < number(b),
        number(value::lesser_spec(a, b)) == (if number(a) < number(b) {
            number(a)
        } else {
            number(b)
        }),
        number(value::greater_spec(a, b)) == (if number(a) > number(b) {
            number(a)
        } else {
            number(b)
        }),
        value::order_key(value::NEGATIVE_INFINITY) < value::order_key(a) < value::order_key(
            value::POSITIVE_INFINITY,
        ),
{
    let (ma, mb) = (value::magnitude(a), value::magnitude(b));
    lemma2_to64();
    assert(size(0) == 0);
    if ma > 0 {
        lemma_sizes_grow(0, a);
    } else {
        lemma_size_is_by_magnitude(0, a);
    }
    if mb > 0 {
        lemma_sizes_grow(0, b);
    } else {
        lemma_size_is_by_magnitude(0, b);
    }
    if ma < mb {
        lemma_sizes_grow(a, b);
    } else if ma > mb {
        lemma_sizes_grow(b, a);
    } else {
        lemma_size_is_by_magnitude(a, b);
    }
}

/// What is no number is neither less nor more than anything.
pub proof fn law_nothing_compares_with_no_number(a: u64, b: u64)
    requires
        exponent(a) == 2047,
        mantissa(a) != 0,
    ensures
        !value::less_than_spec(a, b),
        !value::less_than_spec(b, a),
{
}

/// Rounding an integer keeps its first fifty-three bits. It goes to the nearer of
/// the two integers that can be had so, and halfway between them to the one whose
/// last bit is zero.
pub proof fn law_rounding_goes_to_the_nearer(q: nat) -> (unit: nat)
    ensures
        unit == vstd::arithmetic::power2::pow2(rounding::excess(q)),
        q < 0x20_0000_0000_0000 ==> unit == 1 && rounding::rounded(q) == q,
        q >= 0x20_0000_0000_0000 ==> 0x10_0000_0000_0000 * unit <= q < 0x20_0000_0000_0000 * unit,
        rounding::rounded(q) == rounding::significant(q) * unit,
        -(unit as int) <= 2 * (rounding::rounded(q) - q) <= unit,
        2 * (rounding::rounded(q) - q) == unit || 2 * (q - rounding::rounded(q)) == unit
            ==> rounding::significant(q) % 2 == 0,
{
    let k = rounding::excess(q);
    let unit = vstd::arithmetic::power2::pow2(k);
    lemma_pow2_pos(k);
    lemma2_to64();
    rounding::law_rounding_is_to_the_nearest(q);
    rounding::lemma_significant(q);
    let p52 = vstd::arithmetic::power2::pow2(52) as int;
    let p53 = vstd::arithmetic::power2::pow2(53) as int;
    assert(p52 == 0x10_0000_0000_0000) by {
        lemma_pow2_adds(32, 20);
    }
    assert(p53 == 0x20_0000_0000_0000) by {
        lemma_pow2_unfold(53);
    }
    if q > 0 {
        rounding::lemma_bit_len(q);
        let len = rounding::bit_len(q);
        if q < 0x20_0000_0000_0000 {
            if len > 53 {
                if len - 1 > 53 {
                    lemma_pow2_strictly_increases(53, (len - 1) as nat);
                }
            }
        } else {
            if len < 53 {
                lemma_pow2_strictly_increases(len, 53);
            }
            if len == 53 {
                assert(q < p53);
            }
            lemma_pow2_adds(52, k);
            lemma_pow2_adds(53, k);
            assert(len == 53 + k);
        }
    } else {
        assert(rounding::bit_len(0) == 0);
    }
    let below = q / unit;
    let rest = q % unit;
    assert(q == below * unit + rest && rest < unit) by (nonlinear_arith)
        requires
            unit > 0,
            below == q / unit,
            rest == q % unit,
    ;
    assert((below + 1) * unit == below * unit + unit) by (nonlinear_arith);
    if rounding::significant(q) == below {
        assert(rounding::rounded(q) == below * unit);
    } else {
        assert(rounding::significant(q) == below + 1);
        assert(rounding::rounded(q) == (below + 1) * unit);
        if 2 * rest == unit {
            assert(below % 2 == 1);
        }
    }
    assert(q < 0x20_0000_0000_0000 ==> rounding::significant(q) * unit == q);
    unit
}

/// The pattern of an integer that has at most fifty-three significant bits is that
/// integer.
proof fn lemma_integer_pattern(v: nat, up: int)
    requires
        0 < v,
        rounding::bit_len(v) <= 128,
        rounding::bit_len(v) > 53 ==> v % vstd::arithmetic::power2::pow2(
            (rounding::bit_len(v) - 53) as nat,
        ) == 0,
        -149 <= up <= 149,
    ensures
        ({
            let bits = rounding::integer_bits(v) + up * 0x10_0000_0000_0000;
            &&& 0 < bits < 0x7ff0_0000_0000_0000
            &&& size(bits as u64) == v * vstd::arithmetic::power2::pow2((1074 + up) as nat)
            &&& exponent(bits as u64) < 2047
        }),
{
    lemma2_to64();
    assert(vstd::arithmetic::power2::pow2(52) == 0x10_0000_0000_0000) by {
        lemma_pow2_adds(32, 20);
    }
    lemma_pow2_unfold(53);
    rounding::lemma_bit_len(v);
    let e = (rounding::bit_len(v) - 1) as nat;
    let low = vstd::arithmetic::power2::pow2(e) as int;
    lemma_pow2_unfold(rounding::bit_len(v));
    let bits = rounding::integer_bits(v) + up * 0x10_0000_0000_0000;
    let total = vstd::arithmetic::power2::pow2((1074 + up) as nat) as int;
    let m: int;
    if e <= 52 {
        let shift = (52 - e) as nat;
        let unit = vstd::arithmetic::power2::pow2(shift) as int;
        lemma_pow2_pos(shift);
        lemma_pow2_adds(e, shift);
        m = v * unit;
        assert(0x10_0000_0000_0000 <= m < 0x20_0000_0000_0000) by (nonlinear_arith)
            requires
                low <= v < 2 * low,
                m == v * unit,
                low * unit == 0x10_0000_0000_0000,
                unit > 0,
        ;
        let place = (e + 1022 + up) as nat;
        let power = vstd::arithmetic::power2::pow2(place) as int;
        lemma_pow2_adds(shift, place);
        assert(shift + place == (1074 + up) as nat);
        assert(m * power == v * total) by (nonlinear_arith)
            requires
                m == v * unit,
                total == unit * power,
        ;
    } else {
        let shift = (e - 52) as nat;
        let unit = vstd::arithmetic::power2::pow2(shift) as int;
        lemma_pow2_pos(shift);
        lemma_pow2_adds(52, shift);
        m = v as int / unit;
        assert(v == m * unit) by (nonlinear_arith)
            requires
                m == v as int / unit,
                v as int % unit == 0,
                unit > 0,
        ;
        assert(0x10_0000_0000_0000 <= m < 0x20_0000_0000_0000) by (nonlinear_arith)
            requires
                low <= v < 2 * low,
                v == m * unit,
                low == 0x10_0000_0000_0000 * unit,
                unit > 0,
        ;
        let place = (e + 1022 + up) as nat;
        let power = vstd::arithmetic::power2::pow2(place) as int;
        lemma_pow2_adds(shift, (1074 + up) as nat);
        assert(shift + (1074 + up) as nat == place);
        assert(m * power == v * total) by (nonlinear_arith)
            requires
                v == m * unit,
                power == unit * total,
        ;
    }
    assert(bits == (e + 1022 + up) * 0x10_0000_0000_0000 + m);
    assert(exponent(bits as u64) == e + 1023 + up);
    assert(mantissa(bits as u64) == m - 0x10_0000_0000_0000);
}

/// An integer becomes the number it is, rounded to fifty-three bits: the rounded
/// integer with the same sign.
pub proof fn law_promotion_keeps_the_rounded_integer(n: int)
    requires
        -0x1_0000_0000_0000_0000 < n < 0x1_0000_0000_0000_0000,
    ensures
        ({
            let q = (if n < 0 {
                -n
            } else {
                n
            }) as nat;
            let bits = rounding::promoted(n) as u64;
            &&& exponent(bits) < 2047
            &&& n >= 0 ==> number(bits) == rounding::rounded(q) * vstd::arithmetic::power2::pow2(
                1074,
            )
            &&& n < 0 ==> number(bits) == -(rounding::rounded(q)
                * vstd::arithmetic::power2::pow2(1074))
        }),
{
    let q = (if n < 0 {
        -n
    } else {
        n
    }) as nat;
    lemma2_to64();
    let v = rounding::rounded(q);
    let unit = law_rounding_goes_to_the_nearer(q);
    let s = rounding::significant(q);
    let k = rounding::excess(q);
    rounding::lemma_significant(q);
    if q == 0 {
        assert(v == 0);
        assert(size(0) == 0);
        assert(0 * vstd::arithmetic::power2::pow2(1074) == 0);
    } else {
        lemma_pow2_unfold(64);
        rounding::lemma_bit_len_bound(q, 64);
        assert(vstd::arithmetic::power2::pow2(52) == 0x10_0000_0000_0000) by {
            lemma_pow2_adds(32, 20);
        }
        lemma_pow2_unfold(53);
        lemma_pow2_unfold(54);
        if q < 0x20_0000_0000_0000 {
            assert(v == q);
            if rounding::bit_len(v) > 53 {
                rounding::lemma_bit_len(v);
                if rounding::bit_len(v) > 54 {
                    lemma_pow2_strictly_increases(53, (rounding::bit_len(v) - 1) as nat);
                }
            }
        } else {
            lemma_pow2_adds(52, k);
            lemma_pow2_adds(53, k);
            lemma_pow2_adds(54, k);
            let u = unit as int;
            assert(0x10_0000_0000_0000 * u <= v <= 0x20_0000_0000_0000 * u) by (nonlinear_arith)
                requires
                    v == s * u,
                    0x10_0000_0000_0000 <= s <= 0x20_0000_0000_0000,
                    u > 0,
            ;
            if s < 0x20_0000_0000_0000 {
                assert(v < 0x20_0000_0000_0000 * u) by (nonlinear_arith)
                    requires
                        v == s * u,
                        s < 0x20_0000_0000_0000,
                        u > 0,
                ;
                rounding::lemma_bit_len_is(v, 53 + k);
                vstd::arithmetic::div_mod::lemma_fundamental_div_mod_converse(
                    v as int,
                    u,
                    s as int,
                    0,
                );
            } else {
                assert(vstd::arithmetic::power2::pow2(54) == 0x40_0000_0000_0000);
                assert(vstd::arithmetic::power2::pow2(54 + k) == 0x40_0000_0000_0000 * u);
                rounding::lemma_bit_len_is(v, 54 + k);
                lemma_pow2_unfold(k + 1);
                let twice = vstd::arithmetic::power2::pow2(k + 1) as int;
                assert(v == 0x10_0000_0000_0000 * twice);
                vstd::arithmetic::div_mod::lemma_fundamental_div_mod_converse(
                    v as int,
                    twice,
                    0x10_0000_0000_0000,
                    0,
                );
            }
        }
        assert(v > 0);
        lemma_integer_pattern(v, 0);
        let bits = rounding::integer_bits(v);
        if n < 0 {
            assert(rounding::promoted(n) == 0x8000_0000_0000_0000 + bits);
            lemma_size_is_by_magnitude(
                bits as u64,
                (0x8000_0000_0000_0000 + bits) as u64,
            );
        }
    }
}

/// The exponent field of a pattern of single precision.
pub open spec fn single_exponent(bits: u32) -> int {
    (bits as int % 0x8000_0000) / 0x80_0000
}

/// The fraction field of a pattern of single precision.
pub open spec fn single_mantissa(bits: u32) -> int {
    bits as int % 0x80_0000
}

/// A finite number of single precision, counted in the smallest above zero, which
/// is two to the power of minus 149.
pub open spec fn single_number(bits: u32) -> int {
    let size = if single_exponent(bits) == 0 {
        single_mantissa(bits)
    } else {
        (0x80_0000 + single_mantissa(bits)) * vstd::arithmetic::power2::pow2(
            (single_exponent(bits) - 1) as nat,
        )
    };
    if bits >= 0x8000_0000 {
        -size
    } else {
        size
    }
}

/// A number of single precision is the same number in double precision. What is
/// infinite or no number stays so.
pub proof fn law_widening_keeps_the_number(bits: u32)
    ensures
        ({
            let wide = rounding::widened(bits) as u64;
            &&& single_exponent(bits) < 255 ==> exponent(wide) < 2047 && number(wide)
                == single_number(bits) * vstd::arithmetic::power2::pow2(925)
            &&& single_exponent(bits) == 255 && single_mantissa(bits) != 0 ==> exponent(wide)
                == 2047 && mantissa(wide) != 0
            &&& single_exponent(bits) == 255 && single_mantissa(bits) == 0 ==> wide == (if bits
                >= 0x8000_0000 {
                value::NEGATIVE_INFINITY
            } else {
                value::POSITIVE_INFINITY
            })
        }),
{
    lemma2_to64();
    let sign: int = if bits >= 0x8000_0000 {
        0x8000_0000_0000_0000
    } else {
        0
    };
    let e = single_exponent(bits);
    let f = single_mantissa(bits);
    let magnitude = bits as int % 0x8000_0000;
    assert(magnitude == e * 0x80_0000 + f);
    if e < 255 {
        if magnitude == 0 {
            assert(size(0) == 0);
            lemma_size_is_by_magnitude(0, sign as u64);
            assert(0 * vstd::arithmetic::power2::pow2(925) == 0);
        } else {
            let parts = rounding::single_parts(bits);
            let d = parts.digits;
            assert(0 < d < 0x100_0000);
            rounding::lemma_bit_len_bound(d, 24);
            lemma_integer_pattern(d, parts.scale);
            let plain = rounding::integer_bits(d) + parts.scale * 0x10_0000_0000_0000;
            lemma_size_is_by_magnitude(plain as u64, (sign + plain) as u64);
            assert(rounding::widened(bits) == sign + plain);
            let up = (1074 + parts.scale) as nat;
            let power = vstd::arithmetic::power2::pow2(up) as int;
            let most = vstd::arithmetic::power2::pow2(925) as int;
            if e > 0 {
                let part = vstd::arithmetic::power2::pow2((e - 1) as nat) as int;
                lemma_pow2_adds((e - 1) as nat, 925);
                assert((e - 1) as nat + 925 == up);
                assert(d * power == (d * part) * most) by (nonlinear_arith)
                    requires
                        power == part * most,
                ;
                let whole = d * part;
                assert((-whole) * most == -(whole * most)) by (nonlinear_arith);
            } else {
                assert(up == 925);
                let whole = d as int;
                assert((-whole) * most == -(whole * most)) by (nonlinear_arith);
            }
        }
    }
}

/// Every number of a column is drawn as the number it is: an integer rounded to
/// fifty-three bits, which loses nothing up to two to the power of fifty-three, and
/// a floating point number as it stands. Flags and texts are not drawn.
pub proof fn law_samples_are_drawn_as_they_are(samples: Samples, n: int, i: int)
    requires
        0 <= i < samples.len(),
        match samples {
            Samples::I8(s) => n == s[i],
            Samples::I16(s) => n == s[i],
            Samples::I32(s) => n == s[i],
            Samples::I64(s) => n == s[i],
            Samples::U8(s) => n == s[i],
            Samples::U16(s) => n == s[i],
            Samples::U32(s) => n == s[i],
            Samples::U64(s) => n == s[i],
            _ => true,
        },
    ensures
        match samples {
            Samples::Bool(_) => samples.promotion(i) is None,
            Samples::String(_) => samples.promotion(i) is None,
            Samples::F64(s) => samples.promotion(i) matches Some(drawn) && drawn.bits == s[i]
                && drawn.exact,
            Samples::F32(s) => samples.promotion(i) matches Some(drawn) && drawn.exact
                && (single_exponent(s[i]) < 255 ==> number(drawn.bits) == single_number(s[i])
                * vstd::arithmetic::power2::pow2(925)),
            _ => samples.promotion(i) matches Some(drawn) && {
                let q = (if n < 0 {
                    -n
                } else {
                    n
                }) as nat;
                &&& drawn.exact <==> q <= 0x20_0000_0000_0000
                &&& drawn.exact ==> number(drawn.bits) == n * vstd::arithmetic::power2::pow2(1074)
                &&& n >= 0 ==> number(drawn.bits) == rounding::rounded(q)
                    * vstd::arithmetic::power2::pow2(1074)
                &&& n < 0 ==> number(drawn.bits) == -(rounding::rounded(q)
                    * vstd::arithmetic::power2::pow2(1074))
            },
        },
{
    let q = (if n < 0 {
        -n
    } else {
        n
    }) as nat;
    match samples {
        Samples::Bool(_) => {},
        Samples::String(_) => {},
        Samples::F64(_) => {},
        Samples::F32(s) => {
            law_widening_keeps_the_number(s[i]);
        },
        _ => {
            law_promotion_keeps_the_rounded_integer(n);
            if q <= 0x20_0000_0000_0000 {
                rounding::law_small_integers_promote_exactly(q);
                let one = vstd::arithmetic::power2::pow2(1074) as int;
                let m = q as int;
                assert((-m) * one == -(m * one)) by (nonlinear_arith);
            }
        },
    }
}

proof fn lemma_single_sizes_grow(a: u32, b: u32)
    requires
        a as int % 0x8000_0000 < b as int % 0x8000_0000,
        single_exponent(b) < 255,
        a < 0x8000_0000,
        b < 0x8000_0000,
    ensures
        0 <= single_number(a) < single_number(b),
{
    lemma2_to64();
    let (ea, eb) = (single_exponent(a), single_exponent(b));
    let (fa, fb) = (single_mantissa(a), single_mantissa(b));
    assert(a == ea * 0x80_0000 + fa);
    assert(b == eb * 0x80_0000 + fb);
    assert(ea <= eb);
    if eb > 0 {
        let ub = vstd::arithmetic::power2::pow2((eb - 1) as nat) as int;
        lemma_pow2_pos((eb - 1) as nat);
        if ea == eb {
            assert(0 <= (0x80_0000 + fa) * ub < (0x80_0000 + fb) * ub) by (nonlinear_arith)
                requires
                    0 <= fa < fb,
                    ub > 0,
            ;
        } else if ea == 0 {
            assert((0x80_0000 + fb) * ub >= 0x80_0000) by (nonlinear_arith)
                requires
                    0 <= fb,
                    ub >= 1,
            ;
        } else {
            let ua = vstd::arithmetic::power2::pow2((ea - 1) as nat) as int;
            lemma_pow2_pos((ea - 1) as nat);
            lemma_pow2_unfold((eb - 1) as nat);
            if ea < eb - 1 {
                lemma_pow2_strictly_increases((ea - 1) as nat, (eb - 2) as nat);
            }
            assert(0 <= (0x80_0000 + fa) * ua < (0x80_0000 + fb) * ub) by (nonlinear_arith)
                requires
                    0 <= fa < 0x80_0000,
                    0 <= fb,
                    0 < ua,
                    2 * ua <= ub,
            ;
        }
    }
}

proof fn lemma_single_sign(a: u32) -> (plain: u32)
    ensures
        plain < 0x8000_0000,
        plain as int == a as int % 0x8000_0000,
        a < 0x8000_0000 ==> single_number(a) == single_number(plain),
        a >= 0x8000_0000 ==> single_number(a) == -single_number(plain),
{
    (a as int % 0x8000_0000) as u32
}

/// Two samples are equal if they are the same number. What is no number equals
/// nothing, not even itself.
pub proof fn law_equal_samples_are_equal_numbers(a: u64, b: u64, c: u32, d: u32)
    ensures
        exponent(a) < 2047 && exponent(b) < 2047 ==> (dtype::equal_doubles(a, b) <==> number(a)
            == number(b)),
        exponent(a) == 2047 && mantissa(a) != 0 ==> !dtype::equal_doubles(a, b)
            && !dtype::equal_doubles(b, a),
        single_exponent(c) < 255 && single_exponent(d) < 255 ==> (dtype::equal_singles(c, d)
            <==> single_number(c) == single_number(d)),
        single_exponent(c) == 255 && single_mantissa(c) != 0 ==> !dtype::equal_singles(c, d)
            && !dtype::equal_singles(d, c),
{
    if exponent(a) < 2047 && exponent(b) < 2047 {
        law_order_is_that_of_the_numbers(a, b);
    }
    if single_exponent(c) < 255 && single_exponent(d) < 255 {
        lemma2_to64();
        let x = lemma_single_sign(c);
        let y = lemma_single_sign(d);
        assert(single_number(0) == 0);
        if x > 0 {
            lemma_single_sizes_grow(0, x);
        }
        if y > 0 {
            lemma_single_sizes_grow(0, y);
        }
        if x < y {
            lemma_single_sizes_grow(x, y);
        } else if y < x {
            lemma_single_sizes_grow(y, x);
        }
    }
}

} // verus!
