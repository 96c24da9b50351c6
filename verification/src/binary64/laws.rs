//! What holds of equality, sum and reciprocal whatever the numbers.
use vstd::prelude::*;
use vstd::arithmetic::power2::pow2;
use vstd::arithmetic::power2::lemma_pow2_pos;
use vstd::arithmetic::power2::lemma_pow2_adds;
use vstd::arithmetic::power2::lemma2_to64;
use vstd::arithmetic::power2::lemma2_to64_rest;
use crate::binary64::format::SIGN_BIT;
use crate::binary64::format::INFINITY;
use crate::binary64::format::HIDDEN_BIT;
use crate::binary64::format::magnitude_bits;
use crate::binary64::format::sign_bits;
use crate::binary64::format::is_nan;
use crate::binary64::format::is_zero;
use crate::binary64::format::is_finite;
use crate::binary64::format::is_infinite;
use crate::binary64::format::is_normal;
use crate::binary64::rounding::binade_of;
use crate::binary64::rounding::lemma_binade_of_ratio;
use crate::binary64::nearest::lemma_round_half_even_unique;
use crate::binary64::nearest::lemma_scaled_magnitude_in_binade;
use crate::binary64::nearest::lemma_scaled_magnitude_of_small;
use crate::binary64::format::biased_exponent;
use crate::binary64::format::fraction;
use crate::binary64::format::scaled_magnitude;
use crate::binary64::format::significand;
use crate::binary64::format::scale;
use vstd::arithmetic::power2::lemma_pow2_unfold;
use crate::binary64::format::equal_spec;
use crate::binary64::format::lemma_fields;
use crate::binary64::format::lemma_zero_has_no_magnitude;
use crate::binary64::format::lemma_fields_of_parts;
use crate::binary64::rounding::nearest_encoding;
use crate::binary64::rounding::round_half_even;
use crate::binary64::rounding::lemma_round_half_even_scales;
use crate::binary64::rounding::lemma_nearest_encoding_in_binade;
use crate::binary64::rounding::lemma_quotient_between;
use crate::binary64::nearest::distance;
use crate::binary64::format::lemma_magnitude_order;
use crate::binary64::format::scaled_value;
use crate::binary64::nearest::lemma_round_half_even_within_half;
use crate::binary64::rounding::lemma_nearest_encoding_scales;
use crate::binary64::rounding::lemma_representable_rounds_to_itself;
use crate::binary64::rounding::lemma_nearest_encoding_bound;
use crate::binary64::rounding::lemma_nearest_encoding_positive;
use crate::binary64::rounding::lemma_scaled_magnitude_bound;
use vstd::arithmetic::power2::lemma_pow2_strictly_increases;
use crate::binary64::arithmetic::reciprocal_spec;
use crate::binary64::arithmetic::sum_spec;
use crate::binary64::arithmetic::lemma_scaled_magnitude_positive;

verus! {

/// Every number equals itself. A NaN does not: it equals nothing.
pub proof fn lemma_equal_to_itself(a: u64)
    ensures
        equal_spec(a, a) <==> !is_nan(a),
{
}

/// Equality does not depend on the order of the two numbers.
pub proof fn lemma_equal_is_symmetric(a: u64, b: u64)
    ensures
        equal_spec(a, b) == equal_spec(b, a),
{
}

/// Two numbers equal to a third are equal.
pub proof fn lemma_equal_is_transitive(a: u64, b: u64, c: u64)
    requires
        equal_spec(a, b),
        equal_spec(b, c),
    ensures
        equal_spec(a, c),
{
}

/// Numbers of one encoding are equal, and equal numbers have one encoding
/// unless they are the two zeros.
pub proof fn lemma_equal_by_encoding(a: u64, b: u64)
    requires
        !is_nan(a),
        !is_nan(b),
    ensures
        a == b ==> equal_spec(a, b),
        equal_spec(a, b) && !is_zero(a) ==> a == b,
{
}

/// Two finite numbers are equal exactly when they have the same value.
pub proof fn lemma_equal_by_value(a: u64, b: u64)
    requires
        is_finite(a),
        is_finite(b),
    ensures
        equal_spec(a, b) <==> scaled_value(a) == scaled_value(b),
{
    lemma_fields(a);
    lemma_fields(b);
    lemma_zero_has_no_magnitude(0);
    if magnitude_bits(a) < magnitude_bits(b) {
        lemma_magnitude_order(b, a);
    } else if magnitude_bits(b) < magnitude_bits(a) {
        lemma_magnitude_order(a, b);
    }
    if magnitude_bits(a) != 0 {
        lemma_magnitude_order(a, 0);
    }
    if magnitude_bits(b) != 0 {
        lemma_magnitude_order(b, 0);
    }
    if magnitude_bits(a) == magnitude_bits(b) {
        assert(biased_exponent(a) == biased_exponent(b));
        assert(fraction(a) == fraction(b));
    }
}

/// A sum does not depend on the order of its two terms.
pub proof fn lemma_sum_commutes(a: u64, b: u64)
    ensures
        sum_spec(a, b) == sum_spec(b, a),
{
}

/// Adding a number to positive zero gives the number. Negative zero is the
/// one exception: its sum with positive zero is positive zero.
pub proof fn lemma_sum_with_zero(x: u64)
    requires
        !is_nan(x),
        x != SIGN_BIT,
    ensures
        sum_spec(0, x) == x,
        sum_spec(x, 0) == x,
{
    lemma_fields(x);
    lemma2_to64();
    lemma_zero_has_no_magnitude(0);
    if is_finite(x) {
        lemma_representable_rounds_to_itself(x);
        if !is_zero(x) {
            lemma_scaled_magnitude_positive(x);
        }
    }
}

/// Adding a normal number to itself raises its exponent by one, with no
/// rounding. The numbers of the highest binade are left out: their double is
/// past the largest finite number.
pub proof fn lemma_sum_with_itself(x: u64)
    requires
        1 <= biased_exponent(x) <= 2045,
    ensures
        sum_spec(x, x) == x + HIDDEN_BIT,
        biased_exponent((x + HIDDEN_BIT) as u64) == biased_exponent(x) + 1,
        fraction((x + HIDDEN_BIT) as u64) == fraction(x),
        sign_bits((x + HIDDEN_BIT) as u64) == sign_bits(x),
{
    lemma_fields(x);
    let double = (x + HIDDEN_BIT) as u64;
    lemma_fields(double);
    assert(magnitude_bits(double) == magnitude_bits(x) + HIDDEN_BIT);
    assert(biased_exponent(double) == biased_exponent(x) + 1);
    assert(fraction(double) == fraction(x));
    let m = significand(x);
    let t = scale(x);
    lemma_pow2_unfold(t + 1);
    lemma_pow2_pos(t);
    assert(scaled_magnitude(double) == 2 * scaled_magnitude(x)) by (nonlinear_arith)
        requires
            scaled_magnitude(double) == m * pow2(t + 1),
            scaled_magnitude(x) == m * pow2(t),
            pow2(t + 1) == 2 * pow2(t),
    ;
    lemma_scaled_magnitude_positive(x);
    lemma_representable_rounds_to_itself(double);
}

/// Whether the number is a normal power of two, of either sign: a normal
/// number whose fraction is empty.
pub open spec fn is_normal_power_of_two(bits: u64) -> bool {
    &&& fraction(bits) == 0
    &&& is_normal(bits)
}

/// The reciprocal of a normal power of two is the power of two with the
/// opposite exponent, of the same sign, with no rounding. It is normal too,
/// but for the reciprocal of the largest, two to the power 1023, which is
/// the subnormal two to the power -1023.
pub proof fn lemma_reciprocal_of_power_of_two(bits: u64)
    requires
        is_normal_power_of_two(bits),
    ensures
        biased_exponent(bits) <= 2045 ==> reciprocal_spec(bits) == sign_bits(bits) + (2046
            - biased_exponent(bits)) * HIDDEN_BIT,
        biased_exponent(bits) <= 2045 ==> is_normal_power_of_two(reciprocal_spec(bits)),
        biased_exponent(bits) <= 2045 ==> biased_exponent(reciprocal_spec(bits)) == 2046
            - biased_exponent(bits),
        biased_exponent(bits) == 2046 ==> reciprocal_spec(bits) == sign_bits(bits) + HIDDEN_BIT
            / 2,
{
    lemma_fields(bits);
    lemma2_to64();
    lemma2_to64_rest();
    let e = biased_exponent(bits);
    let here = pow2(51 + e);
    lemma_pow2_adds(52, (e - 1) as nat);
    lemma_pow2_pos(51 + e);
    assert(scaled_magnitude(bits) == here);
    assert(here * 1 == here);
    if e <= 2045 {
        let other = (sign_bits(bits) + (2046 - e) * HIDDEN_BIT) as u64;
        lemma_fields(other);
        assert(magnitude_bits(other) == (2046 - e) * HIDDEN_BIT);
        assert(biased_exponent(other) == 2046 - e);
        assert(fraction(other) == 0);
        let there = pow2((2097 - e) as nat);
        lemma_pow2_adds(52, (2045 - e) as nat);
        lemma_pow2_adds(51 + e, (2097 - e) as nat);
        assert(scaled_magnitude(other) == there);
        lemma_nearest_encoding_scales(there, 1, here);
        assert(here * there == pow2(2148)) by (nonlinear_arith)
            requires
                pow2(2148) == here * there,
        ;
        lemma_representable_rounds_to_itself(other);
        assert(nearest_encoding(pow2(2148), here) == magnitude_bits(other));
    } else {
        lemma_pow2_adds(2097, 51);
        lemma_nearest_encoding_scales(pow2(51), 1, here);
        assert(here * pow2(51) == pow2(2148)) by (nonlinear_arith)
            requires
                pow2(2148) == here * pow2(51),
        ;
        crate::binary64::rounding::lemma_div_mod_of_parts(pow2(51), 1, 0);
        assert(pow2(51) * 1 + 0 == pow2(51));
        assert(nearest_encoding(pow2(51), 1) == pow2(51));
    }
}

/// Taking the reciprocal of a normal power of two twice gives the power of
/// two back.
pub proof fn lemma_reciprocal_twice_of_power_of_two(bits: u64)
    requires
        is_normal_power_of_two(bits),
    ensures
        reciprocal_spec(reciprocal_spec(bits)) == bits,
{
    lemma_fields(bits);
    lemma2_to64();
    lemma2_to64_rest();
    lemma_reciprocal_of_power_of_two(bits);
    let other = reciprocal_spec(bits);
    lemma_fields(other);
    if biased_exponent(bits) <= 2045 {
        lemma_reciprocal_of_power_of_two(other);
    } else {
        // The reciprocal is the subnormal two to the power -1023.
        assert(biased_exponent(other) == 0 && fraction(other) == HIDDEN_BIT / 2);
        assert(scaled_magnitude(other) == pow2(51) * 1);
        lemma_pow2_adds(52, 2045);
        lemma_pow2_adds(2097, 51);
        lemma_pow2_pos(51);
        lemma_nearest_encoding_scales(pow2(2097), 1, pow2(51));
        assert(pow2(51) * pow2(2097) == pow2(2148)) by (nonlinear_arith)
            requires
                pow2(2148) == pow2(2097) * pow2(51),
        ;
        assert(scaled_magnitude(bits) == pow2(2097));
        lemma_representable_rounds_to_itself(bits);
    }
}

/// The reciprocal keeps the sign, turns zero into infinity and infinity into
/// zero, and is a NaN only for a NaN. No other number has zero for
/// reciprocal: the largest has a subnormal one.
pub proof fn lemma_reciprocal_classes(bits: u64)
    ensures
        is_nan(reciprocal_spec(bits)) <==> is_nan(bits),
        !is_nan(bits) ==> sign_bits(reciprocal_spec(bits)) == sign_bits(bits),
        is_zero(bits) ==> is_infinite(reciprocal_spec(bits)),
        is_zero(reciprocal_spec(bits)) <==> is_infinite(bits),
{
    lemma_fields(bits);
    if is_finite(bits) && !is_zero(bits) {
        let n = scaled_magnitude(bits);
        lemma_scaled_magnitude_positive(bits);
        lemma_scaled_magnitude_bound(bits);
        lemma_pow2_strictly_increases(2099, 2148);
        lemma_nearest_encoding_bound(pow2(2148), n);
        lemma_nearest_encoding_positive(pow2(2148), n);
    }
}

/// The reciprocal of a finite number other than zero, with the power of two
/// that its significand carries taken out of the ratio: the sign, and for
/// magnitude two to the power `2148 - scale` divided by the significand,
/// rounded. It is neither zero nor a NaN.
pub proof fn lemma_reciprocal_magnitude(bits: u64)
    requires
        is_finite(bits),
        !is_zero(bits),
    ensures
        1 <= nearest_encoding(pow2((2148 - scale(bits)) as nat), significand(bits)) <= INFINITY,
        reciprocal_spec(bits) == sign_bits(bits) + nearest_encoding(
            pow2((2148 - scale(bits)) as nat),
            significand(bits),
        ),
        magnitude_bits(reciprocal_spec(bits)) == nearest_encoding(
            pow2((2148 - scale(bits)) as nat),
            significand(bits),
        ),
        sign_bits(reciprocal_spec(bits)) == sign_bits(bits),
{
    lemma_fields(bits);
    lemma2_to64_rest();
    let m = significand(bits);
    let t = scale(bits);
    let p = pow2(t);
    let whole = pow2((2148 - t) as nat);
    lemma_scaled_magnitude_positive(bits);
    lemma_pow2_pos(t);
    lemma_pow2_adds(t, (2148 - t) as nat);
    lemma_nearest_encoding_scales(whole, m, p);
    assert(p * m == scaled_magnitude(bits)) by (nonlinear_arith)
        requires
            scaled_magnitude(bits) == m * p,
    ;
    lemma_nearest_encoding_bound(whole, m);
    lemma_pow2_strictly_increases(53, (2148 - t) as nat);
    lemma_nearest_encoding_positive(whole, m);
    lemma_fields(reciprocal_spec(bits));
}

/// The reciprocal of a normal number that is no power of two, and not so
/// large that its reciprocal is subnormal, written out: the sign, the opposite
/// scale, and for significand two to the power 105 divided by the
/// significand of the number, rounded.
pub proof fn lemma_reciprocal_of_normal(bits: u64)
    requires
        1 <= biased_exponent(bits) <= 2044,
        fraction(bits) != 0,
    ensures
        reciprocal_spec(bits) == sign_bits(bits) + (2043 - scale(bits)) * HIDDEN_BIT
            + round_half_even(pow2(105), significand(bits)),
        HIDDEN_BIT <= round_half_even(pow2(105), significand(bits)) < 2 * HIDDEN_BIT,
        sign_bits(reciprocal_spec(bits)) == sign_bits(bits),
        biased_exponent(reciprocal_spec(bits)) == 2045 - biased_exponent(bits),
        scale(reciprocal_spec(bits)) == 2043 - scale(bits),
        significand(reciprocal_spec(bits)) == round_half_even(pow2(105), significand(bits)),
{
    lemma_fields(bits);
    lemma2_to64();
    lemma2_to64_rest();
    let m = significand(bits);
    let t = scale(bits);
    let k = (2043 - t) as nat;
    let step = pow2(k);
    let whole = pow2((2148 - t) as nat);
    lemma_reciprocal_magnitude(bits);
    lemma_pow2_pos(k);
    lemma_pow2_adds(105, k);
    lemma_pow2_adds(52, k);
    lemma_pow2_adds(53, k);
    lemma_pow2_adds(52, 53);
    // The reciprocal lies in the binade whose step is two to the power `k`.
    assert(pow2(52 + k) * m <= whole < pow2(53 + k) * m) by (nonlinear_arith)
        requires
            whole == pow2(105) * step,
            pow2(52 + k) == pow2(52) * step,
            pow2(53 + k) == pow2(53) * step,
            pow2(105) == pow2(52) * pow2(53),
            pow2(52) < m < pow2(53),
            step > 0,
    ;
    if k >= 1 {
        lemma_nearest_encoding_in_binade(whole, m, k);
        lemma_round_half_even_scales(pow2(105), m, step);
        assert(step * pow2(105) == whole && step * m == m * step) by (nonlinear_arith)
            requires
                whole == pow2(105) * step,
        ;
    } else {
        assert(whole == pow2(105));
    }
    // The rounded significand takes 53 bits.
    let q = round_half_even(pow2(105), m);
    assert(pow2(52) * m <= pow2(105)) by (nonlinear_arith)
        requires
            pow2(105) == pow2(52) * pow2(53),
            m < pow2(53),
    ;
    assert(pow2(105) < pow2(53) * m) by (nonlinear_arith)
        requires
            pow2(105) == pow2(52) * pow2(53),
            m > pow2(52),
            pow2(53) > 0,
    ;
    lemma_quotient_between(pow2(105), m, pow2(52), pow2(53));
    if q >= pow2(53) {
        lemma_round_half_even_within_half(pow2(105), m);
        assert(false) by (nonlinear_arith)
            requires
                q >= pow2(53),
                2 * distance(q * m, pow2(105)) <= m,
                distance(q * m, pow2(105)) == q * m - pow2(105) || distance(q * m, pow2(105))
                    == pow2(105) - q * m,
                m >= pow2(52) + 1,
                pow2(105) == pow2(52) * pow2(53),
                pow2(53) == 2 * pow2(52),
                pow2(52) >= 4,
        ;
    }
    assert(k * pow2(52) + q < INFINITY) by (nonlinear_arith)
        requires
            k <= 2043,
            q < pow2(53),
            pow2(52) == 0x0010_0000_0000_0000,
            pow2(53) == 0x0020_0000_0000_0000,
            INFINITY == 0x7ff0_0000_0000_0000,
    ;
    // The fields of the reciprocal.
    let once = reciprocal_spec(bits);
    lemma_fields(once);
    assert(magnitude_bits(once) == (k + 1) * HIDDEN_BIT + (q - HIDDEN_BIT)) by (nonlinear_arith)
        requires
            magnitude_bits(once) == k * HIDDEN_BIT + q,
    ;
    lemma_fields_of_parts(once, k + 1, (q - HIDDEN_BIT) as nat);
}

/// Dividing a number by the rounded quotient of the number and a divisor
/// gives the divisor back to within one, after rounding, as long as the
/// quotient is more than a third of the divisor.
pub proof fn lemma_rounded_quotients(n: nat, m: nat)
    requires
        m > 0,
        3 * round_half_even(n, m) > m,
    ensures
        m - 1 <= round_half_even(n, round_half_even(n, m)) <= m + 1,
{
    let q = round_half_even(n, m);
    let z = round_half_even(n, q);
    lemma_round_half_even_within_half(n, m);
    lemma_round_half_even_within_half(n, q);
    let a = (q * m) as int;
    let b = (z * q) as int;
    assert(2 * (a - n) <= m && 2 * (n - a) <= m);
    assert(2 * (b - n) <= q && 2 * (n - b) <= q);
    if z >= m + 2 {
        assert(b >= a + 2 * q) by (nonlinear_arith)
            requires
                b == z * q,
                a == q * m,
                z >= m + 2,
                q >= 0,
        ;
    }
    if z + 2 <= m {
        assert(b + 2 * q <= a) by (nonlinear_arith)
            requires
                b == z * q,
                a == q * m,
                z + 2 <= m,
                q >= 0,
        ;
    }
}

/// Two reciprocals bring a normal number below two to the power 1022 back
/// to within one unit in the last place.
pub proof fn lemma_reciprocal_twice_of_normal(bits: u64)
    requires
        1 <= biased_exponent(bits) <= 2044,
    ensures
        bits - 1 <= reciprocal_spec(reciprocal_spec(bits)) <= bits + 1,
{
    lemma_fields(bits);
    lemma2_to64();
    lemma2_to64_rest();
    if fraction(bits) == 0 {
        lemma_reciprocal_twice_of_power_of_two(bits);
    } else {
        let m = significand(bits);
        let t = scale(bits);
        let q = round_half_even(pow2(105), m);
        lemma_reciprocal_of_normal(bits);
        let once = reciprocal_spec(bits);
        lemma_fields(once);
        let z = round_half_even(pow2(105), q);
        lemma_rounded_quotients(pow2(105), m);
        if q == HIDDEN_BIT {
            lemma_reciprocal_of_power_of_two(once);
            lemma_pow2_adds(52, 53);
            crate::binary64::rounding::lemma_div_mod_of_parts(pow2(53), pow2(52), 0);
            assert(z == pow2(53));
        } else {
            lemma_reciprocal_of_normal(once);
        }
        assert(reciprocal_spec(once) == sign_bits(bits) + t * HIDDEN_BIT + z);
        assert(bits == sign_bits(bits) + t * HIDDEN_BIT + m) by (nonlinear_arith)
            requires
                bits == sign_bits(bits) + magnitude_bits(bits),
                magnitude_bits(bits) == biased_exponent(bits) * HIDDEN_BIT + fraction(bits),
                t == biased_exponent(bits) - 1,
                m == HIDDEN_BIT + fraction(bits),
        ;
    }
}

/// Two reciprocals give a subnormal number back exactly, wherever its
/// reciprocal is finite: the reciprocal has 53 bits of significand, more
/// than the number has.
pub proof fn lemma_reciprocal_twice_of_subnormal(bits: u64)
    requires
        biased_exponent(bits) == 0,
        !is_zero(bits),
        is_finite(reciprocal_spec(bits)),
    ensures
        reciprocal_spec(reciprocal_spec(bits)) == bits,
{
    lemma_fields(bits);
    lemma2_to64();
    lemma2_to64_rest();
    let m = significand(bits);
    let whole = pow2(2148);
    lemma_reciprocal_magnitude(bits);
    let once = reciprocal_spec(bits);
    let y = nearest_encoding(whole, m);
    // The reciprocal lies in one of the two highest binades.
    lemma_pow2_adds(53, 2095);
    lemma_pow2_adds(2096, 52);
    lemma_pow2_strictly_increases(52, 2095);
    assert(whole >= pow2(53) * m) by (nonlinear_arith)
        requires
            whole == pow2(53) * pow2(2095),
            m < pow2(2095),
            pow2(53) > 0,
    ;
    lemma_binade_of_ratio(whole, m);
    let k = binade_of(whole, m);
    let step = pow2(k);
    let q = round_half_even(whole, m * step);
    lemma_pow2_pos(k);
    if k <= 2043 {
        if 53 + k < 2096 {
            lemma_pow2_strictly_increases(53 + k, 2096);
        }
        assert(false) by (nonlinear_arith)
            requires
                whole < pow2(53 + k) * m,
                pow2(53 + k) <= pow2(2096),
                m < pow2(52),
                whole == pow2(2096) * pow2(52),
                pow2(2096) > 0,
        ;
    }
    assert(y == k * pow2(52) + q);
    assert(k <= 2045) by (nonlinear_arith)
        requires
            k * pow2(52) + q < INFINITY,
            q >= pow2(52),
            pow2(52) == 0x0010_0000_0000_0000,
            INFINITY == 0x7ff0_0000_0000_0000,
    ;
    lemma_scaled_magnitude_in_binade(k, q);
    lemma_fields(once);
    lemma_fields(y as u64);
    assert(scaled_magnitude(once) == q * step);
    // The power of two of the step goes out of the second ratio and of the
    // first.
    let rest = pow2((2148 - k) as nat);
    lemma_pow2_adds(k, (2148 - k) as nat);
    assert(q > 0);
    lemma_nearest_encoding_scales(rest, q, step);
    assert(step * q == q * step) by (nonlinear_arith);
    lemma_round_half_even_scales(rest, m, step);
    assert(step * m == m * step) by (nonlinear_arith);
    assert(q == round_half_even(rest, m));
    // The second ratio is below two to the power 53, where the grid is the
    // integers, and the significand of the number is the nearest of them.
    lemma_pow2_adds(53, 52);
    if 2148 - k < 104 {
        lemma_pow2_strictly_increases((2148 - k) as nat, 104);
    }
    lemma_pow2_strictly_increases(104, 105);
    assert(rest < pow2(53) * q) by (nonlinear_arith)
        requires
            rest < pow2(105),
            pow2(105) == pow2(53) * pow2(52),
            q >= pow2(52),
            pow2(53) > 0,
    ;
    lemma_round_half_even_within_half(rest, m);
    assert(m * q == q * m) by (nonlinear_arith);
    lemma_round_half_even_unique(rest, q, m);
    assert(nearest_encoding(rest, q) == m);
    assert(reciprocal_spec(once) == sign_bits(once) + m);
}

/// The reciprocal of a number from two to the power 1022 on, that power
/// itself left out, is subnormal.
pub proof fn lemma_reciprocal_of_large(bits: u64)
    requires
        is_finite(bits),
        biased_exponent(bits) >= 2045,
        biased_exponent(bits) == 2045 ==> fraction(bits) != 0,
    ensures
        biased_exponent(reciprocal_spec(bits)) == 0,
{
    lemma_fields(bits);
    lemma2_to64();
    lemma2_to64_rest();
    let m = significand(bits);
    let t = scale(bits);
    let whole = pow2((2148 - t) as nat);
    lemma_reciprocal_magnitude(bits);
    lemma_pow2_adds(52, 52);
    lemma_pow2_adds(52, 51);
    lemma_pow2_adds(53, 52);
    lemma_pow2_strictly_increases(104, 105);
    lemma_pow2_strictly_increases(103, 105);
    assert(whole < pow2(53) * m) by (nonlinear_arith)
        requires
            whole < pow2(105),
            pow2(105) == pow2(53) * pow2(52),
            m >= pow2(52),
            pow2(53) > 0,
    ;
    let q = round_half_even(whole, m);
    assert(nearest_encoding(whole, m) == q);
    if t == 2045 {
        assert(pow2(52) * pow2(51) <= pow2(51) * m) by (nonlinear_arith)
            requires
                m >= pow2(52),
                pow2(51) > 0,
        ;
        assert((pow2(51) + 1) * m == pow2(51) * m + m) by (nonlinear_arith);
        lemma_quotient_between(whole, m, 0, pow2(51) + 1);
    } else {
        assert(whole < pow2(52) * m) by (nonlinear_arith)
            requires
                whole == pow2(52) * pow2(52),
                m > pow2(52),
                pow2(52) > 0,
        ;
        lemma_quotient_between(whole, m, 0, pow2(52));
        if q >= pow2(52) {
            lemma_round_half_even_within_half(whole, m);
            assert(false) by (nonlinear_arith)
                requires
                    q == pow2(52),
                    2 * distance(q * m, whole) <= m,
                    distance(q * m, whole) == q * m - whole || distance(q * m, whole) == whole
                        - q * m,
                    whole == pow2(52) * pow2(52),
                    m >= pow2(52) + 1,
                    m < 2 * pow2(52),
                    pow2(52) >= 4,
            ;
        }
    }
    assert(q < HIDDEN_BIT);
    lemma_fields(reciprocal_spec(bits));
}

/// Two reciprocals bring a number back to within one unit in the last place,
/// to itself or to one of its two neighbours, wherever its reciprocal is a
/// normal number: no overflow and no underflow on the way. Subnormal
/// numbers and normal powers of two come back exactly.
pub proof fn lemma_reciprocal_twice_is_near(bits: u64)
    requires
        is_finite(bits),
        is_normal(reciprocal_spec(bits)),
    ensures
        bits - 1 <= reciprocal_spec(reciprocal_spec(bits)) <= bits + 1,
        biased_exponent(bits) == 0 || fraction(bits) == 0 ==> reciprocal_spec(
            reciprocal_spec(bits),
        ) == bits,
{
    lemma_fields(bits);
    lemma_fields(reciprocal_spec(bits));
    let e = biased_exponent(bits);
    if is_zero(bits) {
        assert(false);
    } else if e == 0 {
        lemma_reciprocal_twice_of_subnormal(bits);
    } else if fraction(bits) == 0 {
        lemma_reciprocal_twice_of_power_of_two(bits);
    } else if e <= 2044 {
        lemma_reciprocal_twice_of_normal(bits);
    } else {
        lemma_reciprocal_of_large(bits);
    }
}

/// The sum of a subnormal number, or a zero, with itself has twice the
/// encoded magnitude, with no rounding.
pub proof fn lemma_sum_of_subnormal_with_itself(x: u64)
    requires
        biased_exponent(x) == 0,
    ensures
        sum_spec(x, x) == x + magnitude_bits(x),
{
    lemma_fields(x);
    lemma2_to64();
    let double = (x + magnitude_bits(x)) as u64;
    lemma_fields(double);
    assert(magnitude_bits(double) == 2 * magnitude_bits(x));
    lemma_scaled_magnitude_of_small(magnitude_bits(double));
    lemma_fields(magnitude_bits(double));
    assert(scaled_magnitude(double) == scaled_magnitude(magnitude_bits(double)));
    assert(scaled_magnitude(x) == fraction(x) * 1);
    lemma_representable_rounds_to_itself(double);
}

/// The reciprocal of the double of a number is half the reciprocal of the
/// number, with no further rounding: one step down in the exponent. This
/// holds of the normal numbers below two to the power 1021.
pub proof fn lemma_reciprocal_of_double(bits: u64)
    requires
        1 <= biased_exponent(bits) <= 2043,
    ensures
        reciprocal_spec((bits + HIDDEN_BIT) as u64) == reciprocal_spec(bits) - HIDDEN_BIT,
{
    lemma_fields(bits);
    let double = (bits + HIDDEN_BIT) as u64;
    lemma_fields(double);
    assert(magnitude_bits(double) == magnitude_bits(bits) + HIDDEN_BIT);
    assert(biased_exponent(double) == biased_exponent(bits) + 1);
    assert(fraction(double) == fraction(bits));
    if fraction(bits) == 0 {
        lemma_reciprocal_of_power_of_two(bits);
        lemma_reciprocal_of_power_of_two(double);
    } else {
        lemma_reciprocal_of_normal(bits);
        lemma_reciprocal_of_normal(double);
    }
}

} // verus!
