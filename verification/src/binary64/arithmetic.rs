//! Addition and reciprocal of binary64 numbers, correctly rounded.
use vstd::prelude::*;
use vstd::arithmetic::power2::pow2;
use vstd::arithmetic::power2::lemma_pow2_pos;
use vstd::arithmetic::power2::lemma_pow2_adds;
use vstd::arithmetic::power2::lemma_pow2_strictly_increases;
use vstd::arithmetic::power2::lemma2_to64;
use vstd::arithmetic::power2::lemma2_to64_rest;
use crate::binary64::format::SIGN_BIT;
use crate::binary64::format::INFINITY;
use crate::binary64::format::QUIET_NAN;
use crate::binary64::format::HIDDEN_BIT;
use crate::binary64::format::magnitude_bits;
use crate::binary64::format::sign_bits;
use crate::binary64::format::is_negative;
use crate::binary64::format::is_nan;
use crate::binary64::format::is_infinite;
use crate::binary64::format::is_finite;
use crate::binary64::format::is_zero;
use crate::binary64::format::significand;
use crate::binary64::format::scale;
use crate::binary64::format::scaled_magnitude;
use crate::binary64::format::scaled_value;
use crate::binary64::format::lemma_fields;
use crate::binary64::format::lemma_zero_has_no_magnitude;
use crate::binary64::format::decode;
use crate::binary64::format::lemma_magnitude_order;
use crate::binary64::rounding::nearest_encoding;
use crate::binary64::rounding::lemma_nearest_encoding_scales;
use crate::binary64::rounding::lemma_representable_rounds_to_itself;
use crate::binary64::rounding::lemma_small_term_is_absorbed;
use crate::binary64::encode::power_of_two;
use crate::binary64::encode::encode_ratio;
use crate::binary64::encode::lemma_numerator_limit;

verus! {

/// The encoding of the reciprocal of a number.
///
/// A number of scaled magnitude `n` has the absolute value `n` times two to
/// the power -1074, so its reciprocal is `2^2148 / n` times two to the power
/// -1074, rounded to the nearest binary64 number. The reciprocal keeps the
/// sign. A zero gives the infinity of its sign, an infinity the zero of its
/// sign, and a NaN the quiet NaN.
pub open spec fn reciprocal_spec(a: u64) -> u64 {
    if is_nan(a) {
        QUIET_NAN
    } else if is_infinite(a) {
        sign_bits(a)
    } else if is_zero(a) {
        (sign_bits(a) + INFINITY) as u64
    } else {
        (sign_bits(a) + nearest_encoding(pow2(2148), scaled_magnitude(a))) as u64
    }
}

/// The encoding of the sum of two numbers.
///
/// The exact sum of two finite numbers is a whole multiple of two to the
/// power -1074, and the result is the binary64 number nearest to it. An exact
/// sum of zero is positive zero, unless both terms are negative zero. An
/// infinity absorbs every finite number; two infinities of opposite signs, or
/// a NaN among the terms, give the quiet NaN.
pub open spec fn sum_spec(a: u64, b: u64) -> u64 {
    if is_nan(a) || is_nan(b) {
        QUIET_NAN
    } else if is_infinite(a) {
        if is_infinite(b) && a != b {
            QUIET_NAN
        } else {
            a
        }
    } else if is_infinite(b) {
        b
    } else {
        let exact = scaled_value(a) + scaled_value(b);
        if exact > 0 {
            nearest_encoding(exact as nat, 1) as u64
        } else if exact < 0 {
            (SIGN_BIT + nearest_encoding((-exact) as nat, 1)) as u64
        } else if is_negative(a) && is_negative(b) {
            SIGN_BIT
        } else {
            0
        }
    }
}

/// A finite number that is not zero has a positive scaled magnitude.
pub proof fn lemma_scaled_magnitude_positive(bits: u64)
    requires
        is_finite(bits),
        !is_zero(bits),
    ensures
        significand(bits) > 0,
        scaled_magnitude(bits) > 0,
{
    lemma_fields(bits);
    lemma_pow2_pos(scale(bits));
    let m = significand(bits);
    let p = pow2(scale(bits));
    assert(m * p > 0) by (nonlinear_arith)
        requires
            m > 0,
            p > 0,
    ;
}

/// The reciprocal of a number given by its encoding.
pub fn reciprocal(a: u64) -> (r: u64)
    ensures
        r == reciprocal_spec(a),
{
    let magnitude: u64 = a % SIGN_BIT;
    let sign: u64 = a - magnitude;
    if magnitude > INFINITY {
        QUIET_NAN
    } else if magnitude == INFINITY {
        sign
    } else if magnitude == 0 {
        sign + INFINITY
    } else {
        // The reciprocal is two to the power `2148 - t` divided by the
        // significand, in multiples of two to the power -1074.
        let (m, t) = decode(a);
        proof {
            lemma_scaled_magnitude_positive(a);
        }
        let encoding: u64 = encode_ratio(1, m, 2148 - t);
        proof {
            let p = pow2(t as nat);
            let whole = pow2((2148 - t) as nat);
            lemma_pow2_pos(t as nat);
            lemma_pow2_adds(t as nat, (2148 - t) as nat);
            lemma_nearest_encoding_scales(whole, m as nat, p);
            assert(p * m == m * p) by (nonlinear_arith);
            assert(1 * whole == whole);
        }
        sign + encoding
    }
}

/// The sum of two finite numbers, the first of which has the larger
/// magnitude, or the same.
fn sum_ordered(x: u64, y: u64) -> (r: u64)
    requires
        is_finite(x),
        is_finite(y),
        magnitude_bits(y) <= magnitude_bits(x),
    ensures
        r == sum_spec(x, y),
{
    let sign: u64 = x - x % SIGN_BIT;
    let same_sign: bool = (x >= SIGN_BIT) == (y >= SIGN_BIT);
    let (mx, tx) = decode(x);
    let (my, ty) = decode(y);
    proof {
        lemma_fields(x);
        lemma_fields(y);
        lemma_magnitude_order(x, y);
        lemma_numerator_limit();
        lemma2_to64();
        lemma_pow2_pos(tx as nat);
        lemma_pow2_pos(ty as nat);
    }
    if y % SIGN_BIT == 0 {
        // A zero changes nothing, but two zeros of opposite signs add up to
        // positive zero.
        proof {
            lemma_zero_has_no_magnitude(y);
            lemma_representable_rounds_to_itself(x);
            if !is_zero(x) {
                lemma_scaled_magnitude_positive(x);
            } else {
                lemma_zero_has_no_magnitude(x);
            }
        }
        if x % SIGN_BIT == 0 {
            if x >= SIGN_BIT && y >= SIGN_BIT {
                SIGN_BIT
            } else {
                0
            }
        } else {
            x
        }
    } else {
        let gap: u64 = tx - ty;
        proof {
            lemma_scaled_magnitude_positive(y);
        }
        if gap > 64 {
            // The smaller term is less than a quarter of a step of the
            // larger one, which absorbs it.
            proof {
                let b = scaled_magnitude(y);
                let py = pow2(ty as nat);
                lemma_pow2_adds(55, ty as nat);
                lemma2_to64_rest();
                if 55 + ty < tx {
                    lemma_pow2_strictly_increases((55 + ty) as nat, tx as nat);
                }
                assert(4 * b < pow2(tx as nat)) by (nonlinear_arith)
                    requires
                        b == my * py,
                        my < 2 * HIDDEN_BIT,
                        pow2(55) == 8 * HIDDEN_BIT,
                        pow2(55) * py <= pow2(tx as nat),
                        py > 0,
                ;
                lemma_small_term_is_absorbed(x, b);
            }
            x
        } else {
            // Both terms are whole multiples of the step of the smaller one:
            // they are added or subtracted exactly, and the result is rounded
            // once.
            let factor: u128 = power_of_two(gap as u32);
            proof {
                lemma_pow2_adds(gap as nat, ty as nat);
                if gap < 64 {
                    lemma_pow2_strictly_increases(gap as nat, 64);
                }
                assert(mx * factor < 0x0020_0000_0000_0000_0000_0000_0000_0000) by (nonlinear_arith)
                    requires
                        mx < 0x0020_0000_0000_0000,
                        factor <= 0x1_0000_0000_0000_0000,
                ;
            }
            let wide: u128 = mx as u128 * factor;
            proof {
                let py = pow2(ty as nat);
                assert(scaled_magnitude(x) == wide * py) by (nonlinear_arith)
                    requires
                        scaled_magnitude(x) == mx * pow2(tx as nat),
                        pow2(tx as nat) == factor * py,
                        wide == mx * factor,
                ;
                assert(wide >= my) by (nonlinear_arith)
                    requires
                        wide * py >= my * py,
                        py > 0,
                ;
                assert((wide + my) * py == wide * py + my * py) by (nonlinear_arith);
                assert((wide - my) * py == wide * py - my * py) by (nonlinear_arith);
                assert(my * py > 0);
                if wide > my {
                    assert((wide - my) * py > 0) by (nonlinear_arith)
                        requires
                            wide > my,
                            py > 0,
                    ;
                }
            }
            if same_sign {
                let encoding: u64 = encode_ratio(wide + my as u128, 1, ty);
                sign + encoding
            } else {
                let rest: u128 = wide - my as u128;
                if rest == 0 {
                    0
                } else {
                    let encoding: u64 = encode_ratio(rest, 1, ty);
                    sign + encoding
                }
            }
        }
    }
}

/// The sum of two numbers given by their encodings.
pub fn sum(a: u64, b: u64) -> (r: u64)
    ensures
        r == sum_spec(a, b),
{
    let ma: u64 = a % SIGN_BIT;
    let mb: u64 = b % SIGN_BIT;
    if ma > INFINITY || mb > INFINITY {
        QUIET_NAN
    } else if ma == INFINITY {
        if mb == INFINITY && a != b {
            QUIET_NAN
        } else {
            a
        }
    } else if mb == INFINITY {
        b
    } else if ma >= mb {
        sum_ordered(a, b)
    } else {
        sum_ordered(b, a)
    }
}

} // verus!
