//! That `nearest_encoding` is rounding to nearest, ties to even: no finite
//! number lies nearer to the ratio than the one it names, and infinity is
//! named from half a step past the largest finite number on.
use vstd::prelude::*;
use vstd::arithmetic::power2::pow2;
use vstd::arithmetic::power2::lemma_pow2_pos;
use vstd::arithmetic::power2::lemma_pow2_adds;
use vstd::arithmetic::power2::lemma_pow2_unfold;
use vstd::arithmetic::power2::lemma_pow2_strictly_increases;
use vstd::arithmetic::power2::lemma2_to64;
use vstd::arithmetic::power2::lemma2_to64_rest;
use vstd::arithmetic::div_mod::lemma_fundamental_div_mod;
use crate::binary64::format::INFINITY;
use crate::binary64::format::HIDDEN_BIT;
use crate::binary64::format::biased_exponent;
use crate::binary64::format::fraction;
use crate::binary64::format::significand;
use crate::binary64::format::scale;
use crate::binary64::format::scaled_magnitude;
use crate::binary64::format::lemma_fields;
use crate::binary64::format::lemma_fields_of_parts;
use crate::binary64::format::lemma_magnitude_order;
use crate::binary64::rounding::round_half_even;
use crate::binary64::rounding::nearest_encoding;
use crate::binary64::rounding::lemma_quotient_between;
use crate::binary64::rounding::binade_of;
use crate::binary64::rounding::lemma_binade_of_ratio;

verus! {

/// The distance between two integers.
pub open spec fn distance(a: nat, b: nat) -> nat {
    if a >= b {
        (a - b) as nat
    } else {
        (b - a) as nat
    }
}

/// How far the finite number `bits` lies from `num / den`, as a multiple of
/// `1 / den`.
pub open spec fn distance_to_ratio(bits: u64, num: nat, den: nat) -> nat {
    distance(scaled_magnitude(bits) * den, num)
}

/// How far the integer that a ratio rounds to lies from the ratio, in
/// multiples of `1 / den`: below it by the remainder of the division, or
/// above it by what the remainder lacks to the divisor.
pub proof fn lemma_round_half_even_offset(num: nat, den: nat)
    requires
        den > 0,
    ensures
        num == den * (num / den) + num % den,
        0 <= num % den < den,
        round_half_even(num, den) * den - num == if round_half_even(num, den) == num / den {
            -((num % den) as int)
        } else {
            den - num % den
        },
{
    lemma_fundamental_div_mod(num as int, den as int);
    let d = den as int;
    let q0 = (num / den) as int;
    let r0 = (num % den) as int;
    let q = round_half_even(num, den) as int;
    assert(q * d - num == (q - q0) * d - r0) by (nonlinear_arith)
        requires
            num == d * q0 + r0,
    ;
    assert((q - q0) * d == if q == q0 {
        0
    } else {
        d
    }) by (nonlinear_arith)
        requires
            q == q0 || q == q0 + 1,
    ;
}

/// No integer is nearer to a ratio than the one the ratio rounds to, and
/// where another is as near, the ratio rounds to an even one.
pub proof fn lemma_round_half_even_is_nearest(num: nat, den: nat, j: nat)
    requires
        den > 0,
    ensures
        distance(round_half_even(num, den) * den, num) <= distance(j * den, num),
        j != round_half_even(num, den) && distance(round_half_even(num, den) * den, num)
            == distance(j * den, num) ==> round_half_even(num, den) % 2 == 0,
{
    lemma_round_half_even_offset(num, den);
    let d = den as int;
    let q0 = (num / den) as int;
    let r0 = (num % den) as int;
    let z = j - q0;
    assert(j * d - num == z * d - r0) by (nonlinear_arith)
        requires
            num == d * q0 + r0,
            z == j - q0,
    ;
    if z <= -1 {
        assert(z * d <= -d) by (nonlinear_arith)
            requires
                z <= -1,
                d > 0,
        ;
    } else if z == 0 {
        assert(z * d == 0) by (nonlinear_arith)
            requires
                z == 0,
        ;
    } else if z == 1 {
        assert(z * d == d) by (nonlinear_arith)
            requires
                z == 1,
        ;
    } else {
        assert(z * d >= 2 * d) by (nonlinear_arith)
            requires
                z >= 2,
                d > 0,
        ;
    }
}

/// A ratio lies within half a unit of the integer it rounds to.
pub proof fn lemma_round_half_even_within_half(num: nat, den: nat)
    requires
        den > 0,
    ensures
        2 * distance(round_half_even(num, den) * den, num) <= den,
{
    lemma_round_half_even_offset(num, den);
}

/// An integer that lies within less than half a unit of a ratio is the one
/// the ratio rounds to.
pub proof fn lemma_round_half_even_unique(num: nat, den: nat, j: nat)
    requires
        den > 0,
        2 * distance(j * den, num) < den,
    ensures
        round_half_even(num, den) == j,
{
    let q = round_half_even(num, den);
    lemma_round_half_even_is_nearest(num, den, j);
    if q > j {
        assert(q * den >= j * den + den) by (nonlinear_arith)
            requires
                q >= j + 1,
                den > 0,
        ;
    }
    if q < j {
        assert(j * den >= q * den + den) by (nonlinear_arith)
            requires
                j >= q + 1,
                den > 0,
        ;
    }
}

/// An encoding up to two to the power 53 stands for the integer that it is.
pub proof fn lemma_scaled_magnitude_of_small(bits: u64)
    requires
        bits <= 2 * HIDDEN_BIT,
    ensures
        scaled_magnitude(bits) == bits,
{
    lemma_fields(bits);
    lemma2_to64();
    let m = significand(bits);
    if biased_exponent(bits) <= 1 {
        assert(m * pow2(0) == m);
    } else {
        assert(biased_exponent(bits) == 2 && fraction(bits) == 0);
        assert(HIDDEN_BIT * pow2(1) == 2 * HIDDEN_BIT);
    }
}

/// In the binade where the step is two to the power `k`, the encoding
/// `k * 2^52 + q` stands for `q` steps.
pub proof fn lemma_scaled_magnitude_in_binade(k: nat, q: nat)
    requires
        k >= 1,
        HIDDEN_BIT <= q <= 2 * HIDDEN_BIT,
        k * HIDDEN_BIT + q < INFINITY,
    ensures
        scaled_magnitude((k * HIDDEN_BIT + q) as u64) == q * pow2(k),
{
    let bits = (k * HIDDEN_BIT + q) as u64;
    lemma_fields(bits);
    assert(k <= 2046) by (nonlinear_arith)
        requires
            k * HIDDEN_BIT + q < INFINITY,
            HIDDEN_BIT == 0x0010_0000_0000_0000,
            INFINITY == 0x7ff0_0000_0000_0000,
            q >= 0,
    ;
    if q < 2 * HIDDEN_BIT {
        assert(bits == (k + 1) * HIDDEN_BIT + (q - HIDDEN_BIT)) by (nonlinear_arith)
            requires
                bits == k * HIDDEN_BIT + q,
        ;
        lemma_fields_of_parts(bits, k + 1, (q - HIDDEN_BIT) as nat);
    } else {
        assert(bits == (k + 2) * HIDDEN_BIT + 0) by (nonlinear_arith)
            requires
                bits == k * HIDDEN_BIT + q,
                q == 2 * HIDDEN_BIT,
        ;
        lemma_fields_of_parts(bits, k + 2, 0);
        lemma_pow2_unfold(k + 1);
        assert(HIDDEN_BIT * (2 * pow2(k)) == (2 * HIDDEN_BIT) * pow2(k)) by (nonlinear_arith);
    }
}

/// Where a ratio rounds to a finite number, no finite number lies nearer to
/// it, and if another lies as near, the one it rounds to has the even
/// significand: its encoding is even.
pub proof fn lemma_nearest_encoding_is_nearest(num: nat, den: nat, other: u64)
    requires
        den > 0,
        nearest_encoding(num, den) < INFINITY,
        other < INFINITY,
    ensures
        distance_to_ratio(nearest_encoding(num, den) as u64, num, den) <= distance_to_ratio(
            other,
            num,
            den,
        ),
        other != nearest_encoding(num, den) && distance_to_ratio(
            nearest_encoding(num, den) as u64,
            num,
            den,
        ) == distance_to_ratio(other, num, den) ==> nearest_encoding(num, den) % 2 == 0,
{
    lemma2_to64();
    lemma2_to64_rest();
    lemma_fields(other);
    let r = nearest_encoding(num, den) as u64;
    let y = scaled_magnitude(other);
    if num < pow2(53) * den {
        lemma_quotient_between(num, den, 0, pow2(53));
        lemma_scaled_magnitude_of_small(r);
        lemma_round_half_even_is_nearest(num, den, y);
        if other != r && y == scaled_magnitude(r) {
            lemma_fields(r);
            if other < r {
                lemma_magnitude_order(r, other);
            } else {
                lemma_magnitude_order(other, r);
            }
        }
    } else {
        lemma_binade_of_ratio(num, den);
        let k = binade_of(num, den);
        let step = pow2(k);
        let divisor = den * step;
        let q = round_half_even(num, divisor);
        assert(r == k * HIDDEN_BIT + q);
        lemma_scaled_magnitude_in_binade(k, q);
        assert(scaled_magnitude(r) * den == q * divisor) by (nonlinear_arith)
            requires
                scaled_magnitude(r) == q * step,
                divisor == den * step,
        ;
        assert(r % 2 == q % 2) by {
            assert(k * HIDDEN_BIT == 2 * (k * 0x0008_0000_0000_0000)) by (nonlinear_arith)
                requires
                    HIDDEN_BIT == 0x0010_0000_0000_0000,
            ;
        }
        let ty = scale(other);
        let my = significand(other);
        if ty >= k {
            // The other number is on the grid of this binade.
            let j = my * pow2((ty - k) as nat);
            lemma_pow2_adds((ty - k) as nat, k);
            assert(y * den == j * divisor) by (nonlinear_arith)
                requires
                    y == my * pow2(ty),
                    pow2(ty) == pow2((ty - k) as nat) * step,
                    j == my * pow2((ty - k) as nat),
                    divisor == den * step,
            ;
            lemma_round_half_even_is_nearest(num, divisor, j);
            if other != r && j == q {
                assert(y == scaled_magnitude(r)) by (nonlinear_arith)
                    requires
                        y * den == j * divisor,
                        scaled_magnitude(r) * den == q * divisor,
                        j == q,
                        den > 0,
                ;
                lemma_fields(r);
                if other < r {
                    lemma_magnitude_order(r, other);
                } else {
                    lemma_magnitude_order(other, r);
                }
            }
        } else {
            // The other number is below the binade, whose lower end is on
            // the grid.
            lemma_pow2_adds(53, ty);
            lemma_pow2_pos(ty);
            if 53 + ty < 52 + k {
                lemma_pow2_strictly_increases(53 + ty, 52 + k);
            }
            assert(y < pow2(52 + k)) by (nonlinear_arith)
                requires
                    y == my * pow2(ty),
                    my < pow2(53),
                    pow2(ty) > 0,
                    pow2(53 + ty) == pow2(53) * pow2(ty),
                    pow2(53 + ty) <= pow2(52 + k),
            ;
            assert(y * den < pow2(52) * divisor) by (nonlinear_arith)
                requires
                    y < pow2(52 + k),
                    pow2(52 + k) == pow2(52) * step,
                    divisor == den * step,
                    den > 0,
            ;
            lemma_round_half_even_is_nearest(num, divisor, pow2(52));
        }
    }
}

/// A ratio rounds to infinity exactly from half a step past the largest
/// finite number on, the middle between that number and two to the power
/// 1024: in multiples of two to the power -1074, from `2^2098 - 2^2044`.
pub proof fn lemma_nearest_encoding_overflows(num: nat, den: nat)
    requires
        den > 0,
    ensures
        nearest_encoding(num, den) == INFINITY <==> num >= (pow2(2098) - pow2(2044)) * den,
{
    lemma2_to64();
    lemma2_to64_rest();
    lemma_pow2_adds(53, 2045);
    lemma_pow2_adds(52, 2046);
    lemma_pow2_adds(54, 2044);
    lemma_pow2_adds(1, 2044);
    lemma_pow2_pos(2044);
    lemma_pow2_pos(2045);
    let edge = pow2(2044);
    assert(pow2(2098) == pow2(54) * edge);
    if num < pow2(53) * den {
        lemma_quotient_between(num, den, 0, pow2(53));
        lemma_pow2_strictly_increases(53, 2097);
        lemma_pow2_unfold(2098);
        assert(num < (pow2(2098) - edge) * den) by (nonlinear_arith)
            requires
                num < pow2(53) * den,
                pow2(53) < pow2(2097),
                pow2(2098) == 2 * pow2(2097),
                pow2(2098) == pow2(54) * edge,
                pow2(54) >= 2,
                edge > 0,
                den > 0,
        ;
    } else {
        lemma_binade_of_ratio(num, den);
        let k = binade_of(num, den);
        let step = pow2(k);
        let divisor = den * step;
        let q = round_half_even(num, divisor);
        let encoding = k * pow2(52) + q;
        if k >= 2046 {
            assert(encoding >= INFINITY) by (nonlinear_arith)
                requires
                    encoding == k * pow2(52) + q,
                    k >= 2046,
                    q >= pow2(52),
                    pow2(52) == 0x0010_0000_0000_0000,
                    INFINITY == 0x7ff0_0000_0000_0000,
            ;
            if k > 2046 {
                lemma_pow2_strictly_increases(2098, 52 + k);
            }
            assert(num >= (pow2(2098) - edge) * den) by (nonlinear_arith)
                requires
                    pow2(52 + k) * den <= num,
                    pow2(2098) <= pow2(52 + k),
                    edge > 0,
                    den > 0,
            ;
        } else if k == 2045 {
            // In the highest binade the ratio overflows when it rounds up
            // past the last significand.
            lemma_pow2_adds(1, 2044);
            lemma_fundamental_div_mod(num as int, divisor as int);
            lemma_quotient_between(num, divisor, pow2(52), pow2(53));
            let f = num / divisor;
            let rest = num % divisor;
            assert(encoding >= INFINITY <==> q == pow2(53)) by (nonlinear_arith)
                requires
                    encoding == k * pow2(52) + q,
                    k == 2045,
                    q <= pow2(53),
                    pow2(52) == 0x0010_0000_0000_0000,
                    pow2(53) == 0x0020_0000_0000_0000,
                    INFINITY == 0x7ff0_0000_0000_0000,
            ;
            assert(f % 2 == 1 <== f == pow2(53) - 1);
            assert((q == pow2(53)) <==> (f == pow2(53) - 1 && 2 * rest >= divisor));
            assert((pow2(2098) - edge) * den == (pow2(53) - 1) * divisor + edge * den)
                by (nonlinear_arith)
                requires
                    pow2(2098) == pow2(53) * step,
                    step == 2 * edge,
                    divisor == den * step,
            ;
            assert(2 * (edge * den) == divisor) by (nonlinear_arith)
                requires
                    step == 2 * edge,
                    divisor == den * step,
            ;
            assert(num == divisor * f + rest);
            if f == pow2(53) - 1 {
                assert(divisor * f == (pow2(53) - 1) * divisor) by (nonlinear_arith)
                    requires
                        f == pow2(53) - 1,
                ;
            } else {
                assert(divisor * f + divisor <= (pow2(53) - 1) * divisor) by (nonlinear_arith)
                    requires
                        f + 1 <= pow2(53) - 1,
                        divisor > 0,
                ;
            }
        } else {
            assert(encoding < INFINITY) by (nonlinear_arith)
                requires
                    encoding == k * pow2(52) + q,
                    k <= 2044,
                    q <= pow2(53),
                    pow2(52) == 0x0010_0000_0000_0000,
                    pow2(53) == 0x0020_0000_0000_0000,
                    INFINITY == 0x7ff0_0000_0000_0000,
            ;
            lemma_pow2_adds(53, 2044);
            if 53 + k < 2097 {
                lemma_pow2_strictly_increases(53 + k, 2097);
            }
            lemma_pow2_unfold(2098);
            assert(num < (pow2(2098) - edge) * den) by (nonlinear_arith)
                requires
                    num < pow2(53 + k) * den,
                    pow2(53 + k) <= pow2(2097),
                    pow2(2098) == 2 * pow2(2097),
                    pow2(2097) == pow2(53) * edge,
                    pow2(53) >= 2,
                    edge > 0,
                    den > 0,
            ;
        }
    }
}

} // verus!
