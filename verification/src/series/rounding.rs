//! Binary64 numbers and integers, converted into each other.
//!
//! A binary64 number has 53 significant bits. An integer with more is rounded
//! to the nearest number that has no more, and to the even one of two that are
//! equally near.

use vstd::prelude::*;
use vstd::arithmetic::power2::{
    lemma2_to64, lemma2_to64_rest, lemma_pow2_adds, lemma_pow2_pos, lemma_pow2_strictly_increases,
    lemma_pow2_unfold,
};
use crate::series::value;
use crate::series::value::{is_finite, is_nan, SIGN_BIT};

verus! {

/// How many bits the binary notation of `n` has.
pub open spec fn bit_len(n: nat) -> nat
    decreases n,
{
    if n == 0 {
        0
    } else {
        1 + bit_len(n / 2)
    }
}

/// `q` divided by a power of two and rounded to the nearest integer, the even
/// one of two.
pub open spec fn half_even(q: nat, k: nat) -> nat {
    let unit = vstd::arithmetic::power2::pow2(k);
    let below = q / unit;
    let rest = q % unit;
    if 2 * rest < unit || (2 * rest == unit && below % 2 == 0) {
        below
    } else {
        below + 1
    }
}

/// How many low bits of `q` are beyond the 53 significant ones.
pub open spec fn excess(q: nat) -> nat {
    if bit_len(q) <= 53 {
        0
    } else {
        (bit_len(q) - 53) as nat
    }
}

/// The 53 significant bits of `q`, rounded.
pub open spec fn significant(q: nat) -> nat {
    half_even(q, excess(q))
}

/// `q` rounded to 53 significant bits.
pub open spec fn rounded(q: nat) -> nat {
    significant(q) * vstd::arithmetic::power2::pow2(excess(q))
}

/// The binary64 pattern of an integer that has at most 53 significant bits.
pub open spec fn integer_bits(v: nat) -> int {
    if v == 0 {
        0
    } else {
        let exponent = bit_len(v) - 1;
        (exponent + 1022) * 0x10_0000_0000_0000 + (if exponent <= 52 {
            v * vstd::arithmetic::power2::pow2((52 - exponent) as nat)
        } else {
            v / vstd::arithmetic::power2::pow2((exponent - 52) as nat)
        })
    }
}

/// The binary64 pattern of an integer.
pub open spec fn promoted(n: int) -> int {
    if n < 0 {
        SIGN_BIT + integer_bits(rounded((-n) as nat))
    } else {
        integer_bits(rounded(n as nat))
    }
}

pub proof fn lemma_bit_len(n: nat)
    requires
        n > 0,
    ensures
        bit_len(n) > 0,
        vstd::arithmetic::power2::pow2((bit_len(n) - 1) as nat) <= n,
        n < vstd::arithmetic::power2::pow2(bit_len(n)),
    decreases n,
{
    if n == 1 {
        assert(bit_len(0) == 0);
        assert(bit_len(1) == 1 + bit_len(0));
        lemma2_to64();
    } else {
        lemma_bit_len(n / 2);
        lemma_pow2_unfold(bit_len(n));
        lemma_pow2_unfold((bit_len(n) - 1) as nat);
    }
}

/// A number of a given length has that many bits.
pub proof fn lemma_bit_len_is(n: nat, len: nat)
    requires
        len > 0,
        vstd::arithmetic::power2::pow2((len - 1) as nat) <= n,
        n < vstd::arithmetic::power2::pow2(len),
    ensures
        bit_len(n) == len,
{
    lemma_pow2_pos((len - 1) as nat);
    lemma_bit_len(n);
    let found = bit_len(n);
    if found < len {
        if found < (len - 1) as nat {
            lemma_pow2_strictly_increases(found, (len - 1) as nat);
        }
    }
    if found > len {
        if len < (found - 1) as nat {
            lemma_pow2_strictly_increases(len, (found - 1) as nat);
        }
    }
}

/// The length of a sum of bits.
pub proof fn lemma_bit_len_bound(n: nat, k: nat)
    requires
        n < vstd::arithmetic::power2::pow2(k),
    ensures
        bit_len(n) <= k,
{
    if n > 0 {
        lemma_bit_len(n);
        if bit_len(n) > k && k < (bit_len(n) - 1) as nat {
            lemma_pow2_strictly_increases(k, (bit_len(n) - 1) as nat);
        }
    }
}

/// The values of two large powers.
proof fn lemma_large_powers()
    ensures
        vstd::arithmetic::power2::pow2(52) == 0x10_0000_0000_0000,
        vstd::arithmetic::power2::pow2(53) == 0x20_0000_0000_0000,
        vstd::arithmetic::power2::pow2(54) == 0x40_0000_0000_0000,
        vstd::arithmetic::power2::pow2(55) == 0x80_0000_0000_0000,
        vstd::arithmetic::power2::pow2(64) == 0x1_0000_0000_0000_0000,
        vstd::arithmetic::power2::pow2(127) == 0x8000_0000_0000_0000_0000_0000_0000_0000,
{
    lemma2_to64();
    lemma2_to64_rest();
    lemma_pow2_adds(63, 64);
}

fn count_bits(n: u128) -> (len: u32)
    ensures
        len == bit_len(n as nat),
        len <= 128,
{
    let mut rest: u128 = n;
    let mut len: u32 = 0;
    proof {
        lemma_pow2_adds(64, 64);
        lemma2_to64();
        lemma_bit_len_bound(n as nat, 128);
    }
    while rest > 0
        invariant
            bit_len(n as nat) == len + bit_len(rest as nat),
            bit_len(n as nat) <= 128,
        decreases rest,
    {
        rest = rest / 2;
        len = len + 1;
    }
    len
}

fn power_of_two(k: u32) -> (power: u128)
    requires
        k <= 127,
    ensures
        power == vstd::arithmetic::power2::pow2(k as nat),
{
    let mut power: u128 = 1;
    let mut i: u32 = 0;
    proof {
        lemma2_to64();
        lemma_large_powers();
    }
    while i < k
        invariant
            i <= k <= 127,
            power == vstd::arithmetic::power2::pow2(i as nat),
            vstd::arithmetic::power2::pow2(127) == 0x8000_0000_0000_0000_0000_0000_0000_0000,
        decreases k - i,
    {
        proof {
            lemma_pow2_unfold((i + 1) as nat);
            if i + 1 < 127 {
                lemma_pow2_strictly_increases((i + 1) as nat, 127);
            }
        }
        power = power * 2;
        i = i + 1;
    }
    power
}

/// Rounding to 53 bits leaves at most 53 bits, or the next power of two.
pub proof fn lemma_significant(q: nat)
    ensures
        significant(q) <= 0x20_0000_0000_0000,
        bit_len(q) <= 53 ==> significant(q) == q && excess(q) == 0,
        bit_len(q) > 53 ==> 0x10_0000_0000_0000 <= significant(q),
{
    lemma_large_powers();
    lemma2_to64();
    let k = excess(q);
    let unit = vstd::arithmetic::power2::pow2(k);
    lemma_pow2_pos(k);
    if bit_len(q) <= 53 {
        assert(q / 1 == q && q % 1 == 0);
        if q > 0 {
            lemma_bit_len(q);
            if bit_len(q) < 53 {
                lemma_pow2_strictly_increases(bit_len(q), 53);
            }
        }
    } else {
        lemma_bit_len(q);
        lemma_pow2_adds(52, k);
        lemma_pow2_adds(53, k);
        assert(bit_len(q) == 53 + k);
        let below = q / unit;
        assert(0x10_0000_0000_0000 <= below < 0x20_0000_0000_0000) by (nonlinear_arith)
            requires
                0x10_0000_0000_0000 * unit <= q,
                q < 0x20_0000_0000_0000 * unit,
                unit > 0,
                below == q / unit,
        ;
    }
}

/// Rounds to 53 significant bits.
fn round_to_significant(q: u128) -> (parts: (u64, u32))
    requires
        q < 0x8000_0000_0000_0000_0000_0000_0000_0000,
    ensures
        parts.0 == significant(q as nat),
        parts.1 == excess(q as nat),
        parts.1 <= 74,
{
    let len: u32 = count_bits(q);
    proof {
        lemma_significant(q as nat);
        lemma_large_powers();
        lemma_bit_len_bound(q as nat, 127);
    }
    if len <= 53 {
        assert(q == significant(q as nat));
        return (q as u64, 0);
    }
    let k: u32 = len - 53;
    let unit: u128 = power_of_two(k);
    proof {
        lemma_pow2_pos(k as nat);
        lemma_pow2_strictly_increases(k as nat, 127);
        lemma_bit_len(q as nat);
    }
    let below: u128 = q / unit;
    let rest: u128 = q % unit;
    assert(below <= 0x20_0000_0000_0000) by {
        let s = significant(q as nat);
        assert(s == below || s == below + 1);
    }
    assert(rest < unit);
    if 2 * rest < unit || (2 * rest == unit && below % 2 == 0) {
        (below as u64, k)
    } else {
        ((below + 1) as u64, k)
    }
}

/// The pattern of an integer lies between those of zero and of 2 to the power
/// of 128.
proof fn lemma_integer_bits(v: nat)
    requires
        0 < v <= 0x1_0000_0000_0000_0000,
    ensures
        0 < integer_bits(v) < 0x4400_0000_0000_0000,
        bit_len(v) - 1 <= 52 ==> v * vstd::arithmetic::power2::pow2(
            (52 - (bit_len(v) - 1)) as nat,
        ) < 0x20_0000_0000_0000,
        bit_len(v) <= 65,
{
    lemma_large_powers();
    lemma2_to64();
    lemma_bit_len(v);
    lemma_pow2_unfold(65);
    lemma_bit_len_bound(v, 65);
    let exponent = (bit_len(v) - 1) as nat;
    if exponent <= 52 {
        let shift = (52 - exponent) as nat;
        lemma_pow2_adds(bit_len(v), shift);
        lemma_pow2_pos(shift);
        let unit = vstd::arithmetic::power2::pow2(shift);
        let top = vstd::arithmetic::power2::pow2(bit_len(v));
        assert(0 < v * unit < 0x20_0000_0000_0000) by (nonlinear_arith)
            requires
                0 < v < top,
                0 < unit,
                top * unit == 0x20_0000_0000_0000,
        ;
    } else {
        let shift = (exponent - 52) as nat;
        lemma_pow2_adds(53, shift);
        lemma_pow2_pos(shift);
        let unit = vstd::arithmetic::power2::pow2(shift);
        assert(v / unit < 0x20_0000_0000_0000) by (nonlinear_arith)
            requires
                v < 0x20_0000_0000_0000 * unit,
                0 < unit,
        ;
    }
}

/// The pattern of an integer that has at most 53 significant bits.
fn encode_integer(v: u128) -> (bits: u64)
    requires
        v <= 0x1_0000_0000_0000_0000,
    ensures
        bits == integer_bits(v as nat),
        bits < 0x4400_0000_0000_0000,
        v > 0 ==> bits > 0,
{
    if v == 0 {
        return 0;
    }
    proof {
        lemma_integer_bits(v as nat);
    }
    let exponent: u32 = count_bits(v) - 1;
    let fraction: u128 = if exponent <= 52 {
        v * power_of_two(52 - exponent)
    } else {
        proof {
            lemma_pow2_pos((exponent - 52) as nat);
        }
        v / power_of_two(exponent - 52)
    };
    (exponent as u64 + 1022) * 0x10_0000_0000_0000 + fraction as u64
}

/// The pattern of an unsigned integer.
pub fn promote_unsigned(n: u64) -> (bits: u64)
    ensures
        bits == promoted(n as int),
        bits < 0x4400_0000_0000_0000,
{
    let (digits, scale) = round_to_significant(n as u128);
    proof {
        lemma_rounded_bound(n as nat);
        let unit = vstd::arithmetic::power2::pow2(scale as nat);
        assert(digits * unit == rounded(n as nat));
    }
    let unit: u128 = power_of_two(scale);
    encode_integer(digits as u128 * unit)
}

/// The pattern of a signed integer.
pub fn promote_signed(n: i64) -> (bits: u64)
    ensures
        bits == promoted(n as int),
{
    if n >= 0 {
        promote_unsigned(n as u64)
    } else {
        let magnitude: u64 = (-(n + 1)) as u64 + 1;
        SIGN_BIT + promote_unsigned(magnitude)
    }
}

/// A rounded 64-bit integer is at most 2 to the power of 64.
proof fn lemma_rounded_bound(n: nat)
    requires
        n < 0x1_0000_0000_0000_0000,
    ensures
        rounded(n) <= 0x1_0000_0000_0000_0000,
{
    lemma_large_powers();
    lemma2_to64();
    lemma_significant(n);
    lemma_bit_len_bound(n, 64);
    let k = excess(n);
    let unit = vstd::arithmetic::power2::pow2(k);
    lemma_pow2_adds(53, k);
    lemma_pow2_adds(53, 11);
    if k < 11 {
        lemma_pow2_strictly_increases(k, 11);
    }
    assert(significant(n) * unit <= 0x20_0000_0000_0000 * 0x800) by (nonlinear_arith)
        requires
            significant(n) <= 0x20_0000_0000_0000,
            unit <= 0x800,
    ;
}

/// An integer whose magnitude is at most 2 to the power of 53 is promoted
/// without loss.
pub proof fn law_small_integers_promote_exactly(n: nat)
    requires
        n <= 0x20_0000_0000_0000,
    ensures
        rounded(n) == n,
{
    lemma_large_powers();
    lemma2_to64();
    if n == 0x20_0000_0000_0000 {
        lemma_pow2_unfold(54);
        lemma_bit_len_is(n, 54);
        assert(excess(n) == 1);
        assert(n / 2 == 0x10_0000_0000_0000 && n % 2 == 0);
    } else {
        lemma_bit_len_bound(n, 53);
        lemma_significant(n);
    }
}

/// Rounding errs by half a unit of the last place at most.
pub proof fn law_rounding_is_to_the_nearest(q: nat)
    ensures
        ({
            let unit = vstd::arithmetic::power2::pow2(excess(q)) as int;
            -unit <= 2 * (rounded(q) - q) <= unit
        }),
{
    let k = excess(q);
    let unit = vstd::arithmetic::power2::pow2(k);
    lemma_pow2_pos(k);
    let below = q / unit;
    let rest = q % unit;
    assert(q == below * unit + rest && 0 <= rest < unit) by (nonlinear_arith)
        requires
            unit > 0,
            below == q / unit,
            rest == q % unit,
    ;
    assert((below + 1) * unit == below * unit + unit) by (nonlinear_arith);
}

/// The parts of a finite binary32 or binary64 number: its significand and the
/// power of two that it is to be multiplied by.
pub ghost struct Parts {
    pub digits: nat,
    pub scale: int,
}

/// The parts of a finite binary32 number's magnitude.
pub open spec fn single_parts(bits: u32) -> Parts {
    let magnitude = bits as int % 0x8000_0000;
    let exponent = magnitude / 0x80_0000;
    let fraction = magnitude % 0x80_0000;
    if exponent == 0 {
        Parts { digits: fraction as nat, scale: -149 }
    } else {
        Parts { digits: (0x80_0000 + fraction) as nat, scale: exponent - 150 }
    }
}

/// The binary64 pattern of a binary32 number: the same number, infinity or NaN.
pub open spec fn widened(bits: u32) -> int {
    let sign: int = if bits >= 0x8000_0000 {
        SIGN_BIT as int
    } else {
        0
    };
    let magnitude = bits as int % 0x8000_0000;
    if magnitude == 0 {
        sign
    } else if magnitude > 0x7f80_0000 {
        sign + 0x7ff8_0000_0000_0000 + (magnitude % 0x40_0000) * 0x2000_0000
    } else if magnitude == 0x7f80_0000 {
        sign + 0x7ff0_0000_0000_0000
    } else {
        let parts = single_parts(bits);
        sign + integer_bits(parts.digits) + parts.scale * 0x10_0000_0000_0000
    }
}

/// The binary64 pattern of a binary32 number. Multiplying by a power of two
/// adds to the exponent and leaves the fraction alone.
pub fn widen(bits: u32) -> (wide: u64)
    ensures
        wide == widened(bits),
{
    let sign: u64 = if bits >= 0x8000_0000 {
        SIGN_BIT
    } else {
        0
    };
    let magnitude: u32 = bits % 0x8000_0000;
    if magnitude == 0 {
        return sign;
    }
    if magnitude > 0x7f80_0000 {
        return sign + 0x7ff8_0000_0000_0000 + (magnitude % 0x40_0000) as u64 * 0x2000_0000;
    }
    if magnitude == 0x7f80_0000 {
        return sign + 0x7ff0_0000_0000_0000;
    }
    let exponent: u32 = magnitude / 0x80_0000;
    let fraction: u32 = magnitude % 0x80_0000;
    if exponent == 0 {
        proof {
            lemma_small_integer_bits(fraction as nat);
        }
        sign + (encode_integer(fraction as u128) - 149 * 0x10_0000_0000_0000)
    } else {
        proof {
            lemma_small_integer_bits((0x80_0000 + fraction) as nat);
        }
        sign + (encode_integer((0x80_0000 + fraction) as u128) + exponent as u64
            * 0x10_0000_0000_0000 - 150 * 0x10_0000_0000_0000)
    }
}

/// The exponent of a positive integer of at most 24 bits is between 0 and 23.
proof fn lemma_small_integer_bits(v: nat)
    requires
        0 < v < 0x100_0000,
    ensures
        1023 * 0x10_0000_0000_0000 <= integer_bits(v) < 1047 * 0x10_0000_0000_0000,
{
    lemma_large_powers();
    lemma2_to64();
    lemma_bit_len(v);
    lemma_bit_len_bound(v, 24);
    lemma_integer_bits(v);
    let exponent = (bit_len(v) - 1) as nat;
    let shift = (52 - exponent) as nat;
    lemma_pow2_adds(exponent, shift);
    lemma_pow2_pos(shift);
    let unit = vstd::arithmetic::power2::pow2(shift);
    let low = vstd::arithmetic::power2::pow2(exponent);
    assert(0x10_0000_0000_0000 <= v * unit) by (nonlinear_arith)
        requires
            low <= v,
            0 < unit,
            low * unit == 0x10_0000_0000_0000,
    ;
}

/// The parts of a finite binary64 number's magnitude.
pub open spec fn double_parts(bits: u64) -> Parts {
    let magnitude = value::magnitude(bits);
    let exponent = magnitude / 0x10_0000_0000_0000;
    let fraction = magnitude % 0x10_0000_0000_0000;
    if exponent == 0 {
        Parts { digits: fraction as nat, scale: -1074 }
    } else {
        Parts { digits: (0x10_0000_0000_0000 + fraction) as nat, scale: exponent - 1075 }
    }
}

/// `digits` times a power of two, rounded to the nearest integer, away from
/// zero where two are equally near.
pub open spec fn half_away(digits: nat, scale: int) -> nat {
    if scale >= 0 {
        digits * vstd::arithmetic::power2::pow2(scale as nat)
    } else {
        let unit = vstd::arithmetic::power2::pow2((-scale) as nat);
        (2 * digits + unit) / (2 * unit)
    }
}

/// How many ticks there are to the unit of an axis without calendar meaning.
pub const PROGRESSIVE_TICKS_PER_UNIT: u64 = 1_000_000_000;

/// The ticks of a finite number's magnitude: the number times the ticks of a
/// unit, a binary64 product, rounded to an integer.
pub open spec fn ticks_of_magnitude(bits: u64) -> nat {
    let parts = double_parts(bits);
    let product = parts.digits * PROGRESSIVE_TICKS_PER_UNIT as nat;
    half_away(significant(product), parts.scale + excess(product))
}

/// The tick of a number on an axis without calendar meaning. NaN has tick
/// zero; what is too large has the largest tick there is.
pub open spec fn progressive_tick(bits: u64) -> int {
    if value::is_nan_spec(bits) {
        0
    } else if bits < SIGN_BIT {
        if value::is_finite_spec(bits) && ticks_of_magnitude(bits) <= i128::MAX {
            ticks_of_magnitude(bits) as int
        } else {
            i128::MAX as int
        }
    } else {
        if value::is_finite_spec(bits) && -ticks_of_magnitude(bits) >= i128::MIN {
            -ticks_of_magnitude(bits)
        } else {
            i128::MIN as int
        }
    }
}

/// `digits` times a power of two as an integer, `None` where it needs more
/// than 127 bits.
fn scale_to_integer(digits: u64, scale: i32) -> (whole: Option<u128>)
    requires
        digits <= 0x20_0000_0000_0000,
        -2000 <= scale <= 2000,
    ensures
        match whole {
            Some(n) => n == half_away(digits as nat, scale as int) && n
                < 0x8000_0000_0000_0000_0000_0000_0000_0000,
            None => half_away(digits as nat, scale as int)
                >= 0x8000_0000_0000_0000_0000_0000_0000_0000,
        },
{
    proof {
        lemma_large_powers();
        lemma2_to64();
    }
    if digits == 0 {
        proof {
            if scale < 0 {
                let unit = vstd::arithmetic::power2::pow2((-scale) as nat);
                lemma_pow2_pos((-scale) as nat);
                assert(unit / (2 * unit) == 0) by (nonlinear_arith)
                    requires
                        unit > 0,
                ;
            }
        }
        return Some(0);
    }
    if scale >= 0 {
        let len: u32 = count_bits(digits as u128);
        proof {
            lemma_bit_len(digits as nat);
            let low = vstd::arithmetic::power2::pow2((len - 1) as nat);
            let top = vstd::arithmetic::power2::pow2(len as nat);
            let unit = vstd::arithmetic::power2::pow2(scale as nat);
            lemma_pow2_pos(scale as nat);
            lemma_pow2_adds((len - 1) as nat, scale as nat);
            lemma_pow2_adds(len as nat, scale as nat);
            assert(low * unit <= digits * unit < top * unit) by (nonlinear_arith)
                requires
                    low <= digits < top,
                    0 < unit,
            ;
            let sum = len as nat + scale as nat;
            if sum < 127 {
                lemma_pow2_strictly_increases(sum, 127);
            }
            if sum > 128 {
                lemma_pow2_strictly_increases(127, (sum - 1) as nat);
            }
        }
        if len + scale as u32 > 127 {
            return None;
        }
        return Some(digits as u128 * power_of_two(scale as u32));
    }
    let down: u32 = (-scale) as u32;
    if down > 60 {
        proof {
            let unit = vstd::arithmetic::power2::pow2(down as nat);
            lemma_pow2_strictly_increases(55, down as nat);
            assert((2 * digits + unit) / (2 * unit as int) == 0) by (nonlinear_arith)
                requires
                    0 <= 2 * digits < unit,
            ;
        }
        return Some(0);
    }
    let unit: u128 = power_of_two(down);
    proof {
        lemma_pow2_pos(down as nat);
        lemma_pow2_strictly_increases(down as nat, 64);
        let n = 2 * digits + unit;
        let d = 2 * unit;
        assert(n / d <= n) by (nonlinear_arith)
            requires
                n >= 0,
                d >= 1,
        ;
    }
    Some((2 * digits as u128 + unit) / (2 * unit))
}

/// The tick of a number on an axis without calendar meaning.
pub fn progressive_value_to_tick(bits: u64) -> (tick: i128)
    ensures
        tick == progressive_tick(bits),
{
    if is_nan(bits) {
        return 0;
    }
    let negative: bool = bits >= SIGN_BIT;
    if !is_finite(bits) {
        return if negative {
            i128::MIN
        } else {
            i128::MAX
        };
    }
    let magnitude: u64 = if negative {
        bits - SIGN_BIT
    } else {
        bits
    };
    let exponent: u64 = magnitude / 0x10_0000_0000_0000;
    let fraction: u64 = magnitude % 0x10_0000_0000_0000;
    let (digits, scale): (u64, i32) = if exponent == 0 {
        (fraction, -1074)
    } else {
        (0x10_0000_0000_0000 + fraction, exponent as i32 - 1075)
    };
    assert(digits < 0x20_0000_0000_0000);
    assert(digits * 1_000_000_000 < 0x8000_0000_0000_0000_0000_0000_0000_0000);
    let product: u128 = digits as u128 * PROGRESSIVE_TICKS_PER_UNIT as u128;
    let (rounded_digits, more) = round_to_significant(product);
    proof {
        lemma_significant(product as nat);
    }
    match scale_to_integer(rounded_digits, scale + more as i32) {
        Some(ticks) => if negative {
            -(ticks as i128)
        } else {
            ticks as i128
        },
        None => if negative {
            i128::MIN
        } else {
            i128::MAX
        },
    }
}

} // verus!
