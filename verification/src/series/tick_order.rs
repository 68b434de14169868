//! The ticks of an axis without calendar meaning keep the order of its values.

use vstd::prelude::*;
use vstd::arithmetic::power2::{
    lemma2_to64, lemma_pow2_adds, lemma_pow2_pos, lemma_pow2_strictly_increases, lemma_pow2_unfold,
};
use crate::series::number_laws;
use crate::series::rounding;
use crate::series::rounding::PROGRESSIVE_TICKS_PER_UNIT;
use crate::series::value;
use crate::series::value::SIGN_BIT;

verus! {

/// Scaling by a power of two adds to the number of bits.
proof fn lemma_scaled_bit_len(q: nat, s: nat)
    requires
        q > 0,
    ensures
        q * vstd::arithmetic::power2::pow2(s) > 0,
        rounding::bit_len(q * vstd::arithmetic::power2::pow2(s)) == rounding::bit_len(q) + s,
{
    let unit = vstd::arithmetic::power2::pow2(s);
    let len = rounding::bit_len(q);
    rounding::lemma_bit_len(q);
    lemma_pow2_pos(s);
    lemma_pow2_adds((len - 1) as nat, s);
    lemma_pow2_adds(len, s);
    let low = vstd::arithmetic::power2::pow2((len - 1) as nat);
    let top = vstd::arithmetic::power2::pow2(len);
    assert(low * unit <= q * unit < top * unit && q * unit > 0) by (nonlinear_arith)
        requires
            low <= q < top,
            0 < q,
            0 < unit,
    ;
    rounding::lemma_bit_len_is(q * unit, len + s);
}

/// Dividing a multiple of the unit by a larger unit and rounding.
proof fn lemma_half_even_scaled(q: nat, k: nat, s: nat)
    ensures
        rounding::half_even(q * vstd::arithmetic::power2::pow2(s), k + s) == rounding::half_even(
            q,
            k,
        ),
{
    let unit = vstd::arithmetic::power2::pow2(k);
    let more = vstd::arithmetic::power2::pow2(s);
    lemma_pow2_pos(k);
    lemma_pow2_pos(s);
    lemma_pow2_adds(k, s);
    let below = q / unit;
    let rest = q % unit;
    assert(q == below * unit + rest && rest < unit) by (nonlinear_arith)
        requires
            unit > 0,
            below == q / unit,
            rest == q % unit,
    ;
    let scaled = q * more;
    let big = unit * more;
    assert(scaled == below * big + rest * more && rest * more < big) by (nonlinear_arith)
        requires
            q == below * unit + rest,
            rest < unit,
            scaled == q * more,
            big == unit * more,
            more > 0,
    ;
    assert(big > 0) by (nonlinear_arith)
        requires
            unit > 0,
            more > 0,
            big == unit * more,
    ;
    vstd::arithmetic::div_mod::lemma_fundamental_div_mod_converse(
        scaled as int,
        big as int,
        below as int,
        (rest * more) as int,
    );
    assert((2 * rest < unit) == (2 * (rest * more) < big) && (2 * rest == unit) == (2 * (rest
        * more) == big)) by (nonlinear_arith)
        requires
            big == unit * more,
            more > 0,
    ;
}

/// Rounding to 53 bits commutes with scaling by a power of two.
proof fn lemma_rounded_scaled(q: nat, s: nat)
    ensures
        rounding::rounded(q * vstd::arithmetic::power2::pow2(s)) == rounding::rounded(q)
            * vstd::arithmetic::power2::pow2(s),
{
    let more = vstd::arithmetic::power2::pow2(s);
    lemma_pow2_pos(s);
    lemma2_to64();
    if q == 0 {
        assert(0 * more == 0) by (nonlinear_arith);
        lemma_rounded_zero();
    } else {
        lemma_scaled_bit_len(q, s);
        let k = rounding::excess(q);
        let scaled = q * more;
        let big_k = rounding::excess(scaled);
        rounding::lemma_significant(q);
        if rounding::bit_len(q) >= 53 {
            assert(big_k == k + s);
            lemma_half_even_scaled(q, k, s);
            lemma_pow2_adds(k, s);
            let digits = rounding::significant(q);
            let unit = vstd::arithmetic::power2::pow2(k);
            assert(digits * (unit * more) == (digits * unit) * more) by (nonlinear_arith);
        } else {
            // The low bits that are rounded away are all zero.
            assert(rounding::rounded(q) == q);
            rounding::lemma_significant(scaled);
            if big_k > 0 {
                let rest = (s - big_k) as nat;
                lemma_pow2_adds(rest, big_k);
                let part = vstd::arithmetic::power2::pow2(rest);
                let unit = vstd::arithmetic::power2::pow2(big_k);
                lemma_pow2_pos(big_k);
                assert(scaled == (q * part) * unit) by (nonlinear_arith)
                    requires
                        scaled == q * more,
                        more == part * unit,
                ;
                vstd::arithmetic::div_mod::lemma_fundamental_div_mod_converse(
                    scaled as int,
                    unit as int,
                    (q * part) as int,
                    0,
                );
                assert(rounding::significant(scaled) == q * part);
            } else {
                assert(rounding::rounded(scaled) == scaled);
            }
        }
    }
}

proof fn lemma_rounded_zero()
    ensures
        rounding::rounded(0) == 0,
{
    lemma2_to64();
    rounding::lemma_significant(0);
    assert(rounding::bit_len(0) == 0);
    let unit = vstd::arithmetic::power2::pow2(0);
    assert(rounding::rounded(0) == 0 * unit);
    assert(0 * unit == 0) by (nonlinear_arith);
}

/// Rounding to 53 bits keeps the order.
proof fn lemma_rounded_keeps_order(x: nat, y: nat)
    requires
        x <= y,
    ensures
        rounding::rounded(x) <= rounding::rounded(y),
{
    lemma2_to64();
    rounding::lemma_significant(x);
    rounding::lemma_significant(y);
    if x == 0 {
        lemma_rounded_zero();
    } else {
        rounding::lemma_bit_len(x);
        rounding::lemma_bit_len(y);
        let lx = rounding::bit_len(x);
        let ly = rounding::bit_len(y);
        if ly < lx {
            if ly < (lx - 1) as nat {
                lemma_pow2_strictly_increases(ly, (lx - 1) as nat);
            }
        }
        let k = rounding::excess(x);
        let unit = vstd::arithmetic::power2::pow2(k);
        lemma_pow2_pos(k);
        if lx == ly {
            let (bx, rx) = (x / unit, x % unit);
            let (by, ry) = (y / unit, y % unit);
            assert(x == bx * unit + rx && rx < unit && y == by * unit + ry && ry < unit)
                by (nonlinear_arith)
                requires
                    unit > 0,
                    bx == x / unit,
                    rx == x % unit,
                    by == y / unit,
                    ry == y % unit,
            ;
            assert(bx <= by && (bx == by ==> rx <= ry)) by (nonlinear_arith)
                requires
                    x == bx * unit + rx,
                    y == by * unit + ry,
                    rx < unit,
                    ry < unit,
                    x <= y,
            ;
            let (dx, dy) = (rounding::significant(x), rounding::significant(y));
            assert(dx <= dy);
            assert(dx * unit <= dy * unit) by (nonlinear_arith)
                requires
                    dx <= dy,
            ;
        } else {
            lemma_rounded_within(x);
            lemma_rounded_within(y);
            if lx < (ly - 1) as nat {
                lemma_pow2_strictly_increases(lx, (ly - 1) as nat);
            }
        }
    }
}

/// A rounded number lies between the powers of two around the number itself.
proof fn lemma_rounded_within(x: nat)
    requires
        x > 0,
    ensures
        vstd::arithmetic::power2::pow2((rounding::bit_len(x) - 1) as nat) <= rounding::rounded(x),
        rounding::rounded(x) <= vstd::arithmetic::power2::pow2(rounding::bit_len(x)),
{
    lemma2_to64();
    rounding::lemma_bit_len(x);
    rounding::lemma_significant(x);
    let k = rounding::excess(x);
    let unit = vstd::arithmetic::power2::pow2(k);
    if rounding::bit_len(x) > 53 {
        lemma_pow2_pos(k);
        vstd::arithmetic::power2::lemma2_to64_rest();
        lemma_pow2_adds(52, k);
        lemma_pow2_adds(53, k);
        let digits = rounding::significant(x);
        assert(0x10_0000_0000_0000 * unit <= digits * unit <= 0x20_0000_0000_0000 * unit)
            by (nonlinear_arith)
            requires
                0x10_0000_0000_0000 <= digits <= 0x20_0000_0000_0000,
                unit > 0,
        ;
    }
}

/// A number's magnitude in units of the smallest binary64 number.
spec fn smallest_units(bits: u64) -> nat {
    let parts = rounding::double_parts(bits);
    parts.digits * vstd::arithmetic::power2::pow2((parts.scale + 1074) as nat)
}

/// A larger pattern is a larger magnitude.
proof fn lemma_units_keep_order(a: u64, b: u64)
    requires
        value::magnitude(a) <= value::magnitude(b),
        value::is_finite_spec(b),
    ensures
        smallest_units(a) <= smallest_units(b),
{
    lemma2_to64();
    let (ma, mb) = (value::magnitude(a), value::magnitude(b));
    let (ea, eb) = (ma / 0x10_0000_0000_0000, mb / 0x10_0000_0000_0000);
    let pa = rounding::double_parts(a);
    let pb = rounding::double_parts(b);
    let sa = (pa.scale + 1074) as nat;
    let sb = (pb.scale + 1074) as nat;
    let ua = vstd::arithmetic::power2::pow2(sa);
    let ub = vstd::arithmetic::power2::pow2(sb);
    lemma_pow2_pos(sa);
    assert(ea <= eb);
    if sa == sb {
        assert(pa.digits <= pb.digits);
        assert(pa.digits * ua <= pb.digits * ub) by (nonlinear_arith)
            requires
                pa.digits <= pb.digits,
                ua == ub,
        ;
    } else {
        lemma_pow2_unfold(sb);
        if sa < (sb - 1) as nat {
            lemma_pow2_strictly_increases(sa, (sb - 1) as nat);
        }
        assert(pa.digits * ua <= pb.digits * ub) by (nonlinear_arith)
            requires
                pa.digits < 0x20_0000_0000_0000,
                pb.digits >= 0x10_0000_0000_0000,
                2 * ua <= ub,
        ;
    }
}

/// Rounding to an integer, seen in units of the smallest binary64 number.
proof fn lemma_half_away_units(digits: nat, scale: int)
    requires
        scale >= -1074,
    ensures
        ({
            let one = vstd::arithmetic::power2::pow2(1074);
            let units = digits * vstd::arithmetic::power2::pow2((scale + 1074) as nat);
            rounding::half_away(digits, scale) == (2 * units + one) / (2 * one)
        }),
{
    let one = vstd::arithmetic::power2::pow2(1074);
    lemma_pow2_pos(1074);
    let power = vstd::arithmetic::power2::pow2((scale + 1074) as nat);
    let units = digits * power;
    if scale >= 0 {
        lemma_pow2_adds(scale as nat, 1074);
        let factor = vstd::arithmetic::power2::pow2(scale as nat);
        let whole = digits * factor;
        assert(2 * units + one == whole * (2 * one) + one) by (nonlinear_arith)
            requires
                units == digits * power,
                power == factor * one,
                whole == digits * factor,
        ;
        vstd::arithmetic::div_mod::lemma_fundamental_div_mod_converse(
            (2 * units + one) as int,
            (2 * one) as int,
            whole as int,
            one as int,
        );
    } else {
        let down = (-scale) as nat;
        let unit = vstd::arithmetic::power2::pow2(down);
        lemma_pow2_pos(down);
        lemma_pow2_pos((scale + 1074) as nat);
        lemma_pow2_adds(down, (scale + 1074) as nat);
        assert(one == unit * power);
        let top = 2 * digits + unit;
        assert(2 * units + one == power * top && 2 * one == power * (2 * unit))
            by (nonlinear_arith)
            requires
                units == digits * power,
                one == unit * power,
                top == 2 * digits + unit,
        ;
        vstd::arithmetic::div_mod::lemma_div_denominator(
            (power * top) as int,
            power as int,
            (2 * unit) as int,
        );
        vstd::arithmetic::div_mod::lemma_div_multiples_vanish(top as int, power as int);
        assert(power * top / power == top) by (nonlinear_arith)
            requires
                power > 0,
        ;
    }
}

/// The ticks of a larger magnitude are no fewer.
proof fn lemma_ticks_keep_order(a: u64, b: u64)
    requires
        value::magnitude(a) <= value::magnitude(b),
        value::is_finite_spec(b),
    ensures
        rounding::ticks_of_magnitude(a) <= rounding::ticks_of_magnitude(b),
{
    lemma_units_keep_order(a, b);
    lemma_ticks_in_units(a);
    lemma_ticks_in_units(b);
    let per_unit = PROGRESSIVE_TICKS_PER_UNIT as nat;
    let (xa, xb) = (smallest_units(a) * per_unit, smallest_units(b) * per_unit);
    lemma_rounded_keeps_order(xa, xb);
    let one = vstd::arithmetic::power2::pow2(1074);
    lemma_pow2_pos(1074);
    let (na, nb) = (2 * rounding::rounded(xa) + one, 2 * rounding::rounded(xb) + one);
    assert(na / (2 * one) <= nb / (2 * one)) by (nonlinear_arith)
        requires
            na <= nb,
            one > 0,
    ;
}

/// The ticks of a number by its magnitude in the smallest units.
proof fn lemma_ticks_in_units(bits: u64)
    requires
        value::is_finite_spec(bits),
    ensures
        ({
            let one = vstd::arithmetic::power2::pow2(1074);
            let units = smallest_units(bits) * PROGRESSIVE_TICKS_PER_UNIT as nat;
            rounding::ticks_of_magnitude(bits) == (2 * rounding::rounded(units) + one) / (2 * one)
        }),
{
    let parts = rounding::double_parts(bits);
    let per_unit = PROGRESSIVE_TICKS_PER_UNIT as nat;
    let product = parts.digits * per_unit;
    let s = (parts.scale + 1074) as nat;
    let power = vstd::arithmetic::power2::pow2(s);
    let k = rounding::excess(product);
    let digits = rounding::significant(product);
    lemma_half_away_units(digits, parts.scale + k);
    lemma_pow2_adds(k, s);
    let unit = vstd::arithmetic::power2::pow2(k);
    assert(digits * (unit * power) == (digits * unit) * power) by (nonlinear_arith);
    lemma_rounded_scaled(product, s);
    assert(product * power == (parts.digits * power) * per_unit) by (nonlinear_arith)
        requires
            product == parts.digits * per_unit,
    ;
    assert((parts.scale + k + 1074) as nat == k + s);
}

/// A non-decreasing axis has non-decreasing ticks.
pub proof fn law_progressive_ticks_keep_order(a: u64, b: u64)
    requires
        !value::is_nan_spec(a),
        !value::is_nan_spec(b),
        value::order_key(a) <= value::order_key(b),
    ensures
        rounding::progressive_tick(a) <= rounding::progressive_tick(b),
{
    if a < SIGN_BIT && b < SIGN_BIT {
        if value::is_finite_spec(b) {
            lemma_ticks_keep_order(a, b);
        }
    } else if a >= SIGN_BIT && b >= SIGN_BIT {
        if value::is_finite_spec(a) {
            lemma_ticks_keep_order(b, a);
        }
    } else if a < SIGN_BIT {
        // Both are zero.
        lemma_zero_has_tick_zero(a);
        lemma_zero_has_tick_zero(b);
    }
}

proof fn lemma_zero_has_tick_zero(bits: u64)
    requires
        value::magnitude(bits) == 0,
    ensures
        rounding::progressive_tick(bits) == 0,
{
    lemma_ticks_in_units(bits);
    lemma2_to64();
    assert(smallest_units(bits) == 0) by {
        assert(rounding::double_parts(bits).digits == 0);
        let power = vstd::arithmetic::power2::pow2(0);
        assert(0 * power == 0) by (nonlinear_arith);
    }
    assert(0 * PROGRESSIVE_TICKS_PER_UNIT == 0);
    lemma_rounded_zero();
    let one = vstd::arithmetic::power2::pow2(1074);
    lemma_pow2_pos(1074);
    assert(one / (2 * one) == 0) by (nonlinear_arith)
        requires
            one > 0,
    ;
}

proof fn lemma_units_are_the_size(bits: u64)
    requires
        value::is_finite_spec(bits),
    ensures
        smallest_units(bits) == number_laws::size(bits),
{
    lemma2_to64();
    let units = rounding::double_parts(bits).digits;
    assert(units * 1 == units);
}

/// The tick of a number is the number of billionths in it: the product, rounded as
/// floating point numbers are, and then to the nearest integer, halves away from
/// zero. What lies beyond the largest or the smallest tick gets that one, and what
/// is no number gets zero.
pub proof fn law_ticks_are_billionths(bits: u64)
    ensures
        number_laws::exponent(bits) < 2047 ==> {
            let one = vstd::arithmetic::power2::pow2(1074) as int;
            let product = rounding::rounded((number_laws::size(bits) * 1_000_000_000) as nat) as int;
            let ticks = (2 * product + one) / (2 * one);
            rounding::progressive_tick(bits) == (if bits < 0x8000_0000_0000_0000 {
                if ticks <= i128::MAX {
                    ticks
                } else {
                    i128::MAX as int
                }
            } else {
                if -ticks >= i128::MIN {
                    -ticks
                } else {
                    i128::MIN as int
                }
            })
        },
        number_laws::exponent(bits) == 2047 && number_laws::mantissa(bits) != 0
            ==> rounding::progressive_tick(bits) == 0,
        rounding::progressive_tick(value::POSITIVE_INFINITY) == i128::MAX,
        rounding::progressive_tick(value::NEGATIVE_INFINITY) == i128::MIN,
{
    if number_laws::exponent(bits) < 2047 {
        lemma_units_are_the_size(bits);
        lemma_ticks_in_units(bits);
    }
}

/// A whole number that is not too large has exactly a billion times as many ticks.
pub proof fn law_whole_numbers_have_a_billion_ticks_each(n: int)
    requires
        -9_007_199 <= n <= 9_007_199,
    ensures
        rounding::progressive_tick(rounding::promoted(n) as u64) == n * 1_000_000_000,
{
    let q = (if n < 0 {
        -n
    } else {
        n
    }) as nat;
    let bits = rounding::promoted(n) as u64;
    number_laws::law_promotion_keeps_the_rounded_integer(n);
    rounding::law_small_integers_promote_exactly(q);
    let one = vstd::arithmetic::power2::pow2(1074);
    lemma_pow2_pos(1074);
    assert(q * one >= 0) by (nonlinear_arith)
        requires
            q >= 0,
            one > 0,
    ;
    let size = number_laws::size(bits);
    assert(size == q * one) by {
        lemma_units_are_the_size(bits);
        assert(size >= 0);
    }
    let whole = q * 1_000_000_000;
    assert(size * 1_000_000_000 == whole * one) by (nonlinear_arith)
        requires
            size == q * one,
            whole == q * 1_000_000_000,
    ;
    lemma_rounded_scaled(whole, 1074);
    rounding::law_small_integers_promote_exactly(whole);
    law_ticks_are_billionths(bits);
    let o = one as int;
    let w = whole as int;
    assert((2 * (w * o) + o) / (2 * o) == w) by (nonlinear_arith)
        requires
            o > 0,
    ;
    if n == 0 {
        assert(rounding::rounded(0) == 0);
        assert(bits == 0);
    } else if n > 0 {
        assert(q * one > 0) by (nonlinear_arith)
            requires
                q > 0,
                one > 0,
        ;
        assert(bits < 0x8000_0000_0000_0000);
    } else {
        assert(q * one > 0) by (nonlinear_arith)
            requires
                q > 0,
                one > 0,
        ;
        assert(bits >= 0x8000_0000_0000_0000);
    }
}

} // verus!
