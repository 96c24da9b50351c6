//! Rounding to nearest, ties to even, of a non-negative rational onto the
//! binary64 grid.
use vstd::prelude::*;
use vstd::arithmetic::power2::pow2;
use vstd::arithmetic::power2::lemma_pow2_pos;
use vstd::arithmetic::power2::lemma_pow2_adds;
use vstd::arithmetic::power2::lemma_pow2_unfold;
use vstd::arithmetic::power2::lemma_pow2_strictly_increases;
use vstd::arithmetic::power2::lemma2_to64;
use vstd::arithmetic::power2::lemma2_to64_rest;
use vstd::arithmetic::logarithm::log;
use vstd::arithmetic::logarithm::lemma_log0;
use vstd::arithmetic::logarithm::lemma_log_s;
use vstd::arithmetic::logarithm::lemma_log_is_ordered;
use vstd::arithmetic::logarithm::lemma_log_pow;
use vstd::arithmetic::power2::lemma_pow2;
use vstd::arithmetic::div_mod::lemma_fundamental_div_mod;
use vstd::arithmetic::div_mod::lemma_fundamental_div_mod_converse;
use vstd::arithmetic::div_mod::lemma_truncate_middle;
use vstd::arithmetic::div_mod::lemma_div_multiples_vanish_quotient;
use crate::binary64::format::INFINITY;
use crate::binary64::format::HIDDEN_BIT;
use crate::binary64::format::is_finite;
use crate::binary64::format::magnitude_bits;
use crate::binary64::format::biased_exponent;
use crate::binary64::format::fraction;
use crate::binary64::format::significand;
use crate::binary64::format::scale;
use crate::binary64::format::scaled_magnitude;
use crate::binary64::format::lemma_fields;

verus! {

/// The integer nearest to `num / den`; of two equally near, the even one.
pub open spec fn round_half_even(num: nat, den: nat) -> nat
    recommends
        den > 0,
{
    let q = num / den;
    let r = num % den;
    if 2 * r < den || (2 * r == den && q % 2 == 0) {
        q
    } else {
        q + 1
    }
}

/// The binade of a ratio of two to the power 53 or more, counted by the
/// exponent of its step: the ratio lies between two to the power `52 + k`
/// and two to the power `53 + k`, where `k` is the result.
pub open spec fn binade_of(num: nat, den: nat) -> nat
    recommends
        den > 0,
{
    (log(2, (num / den) as int) - 52) as nat
}

/// The encoding, sign bit clear, of the binary64 number nearest to
/// `num / den` times two to the power -1074; of two equally near, the one
/// with the even significand; infinity from half a step past the largest
/// finite number on.
///
/// Below two to the power 53 the grid is the integers, and the encoding of a
/// grid point is that integer. From there on the step doubles with each
/// binade: in the binade that starts at two to the power `52 + k` the step is
/// two to the power `k`, and the point that is `q` steps from zero has the
/// encoding `k * 2^52 + q`.
pub open spec fn nearest_encoding(num: nat, den: nat) -> nat
    recommends
        den > 0,
{
    if num < pow2(53) * den {
        round_half_even(num, den)
    } else {
        let k = binade_of(num, den);
        let encoding = k * pow2(52) + round_half_even(num, den * pow2(k));
        if encoding < INFINITY {
            encoding
        } else {
            INFINITY as nat
        }
    }
}

/// A positive integer between two neighbouring powers of two has the lower
/// exponent as its binary logarithm.
pub proof fn lemma_log2_between(x: int, e: nat)
    requires
        pow2(e) <= x < pow2(e + 1),
    ensures
        log(2, x) == e,
    decreases e,
{
    lemma2_to64();
    if e == 0 {
        lemma_log0(2, x);
    } else {
        lemma_pow2_unfold(e);
        lemma_pow2_unfold(e + 1);
        lemma_pow2_pos((e - 1) as nat);
        lemma_log_s(2, x);
        lemma_log2_between(x / 2, (e - 1) as nat);
    }
}

/// A quotient lies between the bounds that its numerator has as multiples of
/// the denominator.
pub proof fn lemma_quotient_between(num: nat, den: nat, lo: nat, hi: nat)
    requires
        den > 0,
        lo * den <= num < hi * den,
    ensures
        lo <= num / den < hi,
{
    lemma_fundamental_div_mod(num as int, den as int);
    let q = (num / den) as int;
    let r = (num % den) as int;
    let d = den as int;
    assert(num == d * q + r);
    assert(0 <= r < d);
    if q < lo {
        assert(d * q + d <= d * lo) by (nonlinear_arith)
            requires
                q + 1 <= lo,
                d > 0,
        ;
        assert(d * lo == lo * d) by (nonlinear_arith);
    }
    if q >= hi {
        assert(d * q >= d * hi) by (nonlinear_arith)
            requires
                q >= hi,
                d > 0,
        ;
        assert(d * hi == hi * d) by (nonlinear_arith);
    }
}

/// Rounding a ratio does not depend on a common factor of its two terms.
pub proof fn lemma_round_half_even_scales(num: nat, den: nat, c: nat)
    requires
        den > 0,
        c > 0,
    ensures
        round_half_even(c * num, c * den) == round_half_even(num, den),
{
    lemma_truncate_middle(num as int, c as int, den as int);
    lemma_div_multiples_vanish_quotient(c as int, num as int, den as int);
    let r = num % den;
    assert((c * num) % (c * den) == c * r);
    assert((c * num) / (c * den) == num / den);
    assert(2 * (c * r) == c * (2 * r)) by (nonlinear_arith);
    assert((c * (2 * r) < c * den) == (2 * r < den)) by (nonlinear_arith)
        requires
            c > 0,
    ;
    assert((c * (2 * r) == c * den) == (2 * r == den)) by (nonlinear_arith)
        requires
            c > 0,
    ;
}

/// What `nearest_encoding` is for a ratio known to lie in the binade that
/// starts at two to the power `52 + k`.
pub proof fn lemma_nearest_encoding_in_binade(num: nat, den: nat, k: nat)
    requires
        den > 0,
        k >= 1,
        pow2(52 + k) * den <= num < pow2(53 + k) * den,
    ensures
        nearest_encoding(num, den) == {
            let encoding = k * pow2(52) + round_half_even(num, den * pow2(k));
            if encoding < INFINITY {
                encoding
            } else {
                INFINITY as nat
            }
        },
{
    lemma_quotient_between(num, den, pow2(52 + k), pow2(53 + k));
    lemma_log2_between((num / den) as int, 52 + k);
    if k > 1 {
        lemma_pow2_strictly_increases(53, 52 + k);
    }
    assert(pow2(53) * den <= pow2(52 + k) * den) by (nonlinear_arith)
        requires
            pow2(53) <= pow2(52 + k),
    ;
}

/// Rounding onto the binary64 grid does not depend on a common factor of the
/// two terms of the ratio.
pub proof fn lemma_nearest_encoding_scales(num: nat, den: nat, c: nat)
    requires
        den > 0,
        c > 0,
    ensures
        nearest_encoding(c * num, c * den) == nearest_encoding(num, den),
{
    lemma_div_multiples_vanish_quotient(c as int, num as int, den as int);
    lemma_round_half_even_scales(num, den, c);
    assert((c * num < pow2(53) * (c * den)) == (num < pow2(53) * den)) by (nonlinear_arith)
        requires
            c > 0,
    ;
    if num >= pow2(53) * den {
        let k = binade_of(num, den);
        lemma_pow2_pos(k);
        let d = den * pow2(k);
        assert(d > 0) by (nonlinear_arith)
            requires
                d == den * pow2(k),
                den > 0,
                pow2(k) > 0,
        ;
        lemma_round_half_even_scales(num, d, c);
        assert(c * (den * pow2(k)) == (c * den) * pow2(k)) by (nonlinear_arith);
    }
}

/// A rounded ratio is the encoding of a finite number or of infinity.
pub proof fn lemma_nearest_encoding_bound(num: nat, den: nat)
    requires
        den > 0,
    ensures
        nearest_encoding(num, den) <= INFINITY,
{
    if num < pow2(53) * den {
        lemma2_to64_rest();
        lemma_quotient_between(num, den, 0, pow2(53));
    }
}

/// The binary logarithm of a positive integer is the exponent of the
/// greatest power of two that is not above it.
pub proof fn lemma_log2_bounds(x: int)
    requires
        x >= 1,
    ensures
        log(2, x) >= 0,
        pow2(log(2, x) as nat) <= x < pow2((log(2, x) + 1) as nat),
    decreases x,
{
    lemma2_to64();
    if x < 2 {
        lemma_log0(2, x);
    } else {
        lemma_log_s(2, x);
        lemma_log2_bounds(x / 2);
        let l = log(2, x / 2) as nat;
        lemma_pow2_unfold(l + 1);
        lemma_pow2_unfold(l + 2);
    }
}

/// Where a ratio of two to the power 53 or more lies, and what it rounds
/// to: it lies in the binade that `binade_of` names, measured in steps of
/// that binade it has 53 bits before the point, and so has the rounded
/// count of steps, which may be the first of the next binade.
pub proof fn lemma_binade_of_ratio(num: nat, den: nat)
    requires
        den > 0,
        num >= pow2(53) * den,
    ensures
        binade_of(num, den) >= 1,
        pow2(52 + binade_of(num, den)) * den <= num < pow2(53 + binade_of(num, den)) * den,
        den * pow2(binade_of(num, den)) > 0,
        pow2(52) * (den * pow2(binade_of(num, den))) <= num < pow2(53) * (den * pow2(
            binade_of(num, den),
        )),
        pow2(52) <= round_half_even(num, den * pow2(binade_of(num, den))) <= pow2(53),
        pow2(52 + binade_of(num, den)) == pow2(52) * pow2(binade_of(num, den)),
        pow2(53 + binade_of(num, den)) == pow2(53) * pow2(binade_of(num, den)),
        nearest_encoding(num, den) == {
            let encoding = binade_of(num, den) * pow2(52) + round_half_even(
                num,
                den * pow2(binade_of(num, den)),
            );
            if encoding < INFINITY {
                encoding
            } else {
                INFINITY as nat
            }
        },
{
    let q0 = num / den;
    lemma2_to64_rest();
    assert(num < (num + 1) * den) by (nonlinear_arith)
        requires
            den >= 1,
    ;
    lemma_quotient_between(num, den, pow2(53), num + 1);
    lemma_pow2(53);
    lemma_log_pow(2, 53);
    lemma_log_is_ordered(2, pow2(53) as int, q0 as int);
    lemma_log2_bounds(q0 as int);
    let k = binade_of(num, den);
    let step = pow2(k);
    let divisor = den * step;
    lemma_pow2_pos(k);
    lemma_pow2_adds(52, k);
    lemma_pow2_adds(53, k);
    lemma_fundamental_div_mod(num as int, den as int);
    assert(pow2(52 + k) * den <= num) by (nonlinear_arith)
        requires
            pow2(52 + k) <= q0,
            num == den * q0 + num % den,
            num % den >= 0,
            den > 0,
    ;
    assert(num < pow2(53 + k) * den) by (nonlinear_arith)
        requires
            q0 + 1 <= pow2(53 + k),
            num == den * q0 + num % den,
            num % den < den,
            den > 0,
    ;
    assert(divisor > 0) by (nonlinear_arith)
        requires
            divisor == den * step,
            den > 0,
            step > 0,
    ;
    assert(pow2(52) * divisor <= num < pow2(53) * divisor) by (nonlinear_arith)
        requires
            pow2(52 + k) * den <= num < pow2(53 + k) * den,
            pow2(52 + k) == pow2(52) * step,
            pow2(53 + k) == pow2(53) * step,
            divisor == den * step,
    ;
    lemma_quotient_between(num, divisor, pow2(52), pow2(53));
}

/// A ratio of one or more does not round to zero.
pub proof fn lemma_nearest_encoding_positive(num: nat, den: nat)
    requires
        den > 0,
        num >= den,
    ensures
        nearest_encoding(num, den) >= 1,
{
    lemma2_to64_rest();
    if num < pow2(53) * den {
        lemma_quotient_between(num, den, 1, pow2(53));
    } else {
        lemma_binade_of_ratio(num, den);
        let k = binade_of(num, den);
        assert(k * pow2(52) >= pow2(52)) by (nonlinear_arith)
            requires
                k >= 1,
        ;
    }
}

/// The scaled magnitude of a finite number is below two to the power 2099.
pub proof fn lemma_scaled_magnitude_bound(bits: u64)
    requires
        is_finite(bits),
    ensures
        scaled_magnitude(bits) < pow2(2099),
{
    lemma_fields(bits);
    lemma2_to64_rest();
    let m = significand(bits);
    let t = scale(bits);
    lemma_pow2_adds(53, t);
    lemma_pow2_pos(t);
    lemma_pow2_strictly_increases(53 + t, 2099);
    assert(m * pow2(t) < pow2(53) * pow2(t)) by (nonlinear_arith)
        requires
            m < pow2(53),
            pow2(t) > 0,
    ;
}

/// A multiple of the divisor plus less than the divisor divides as written.
pub proof fn lemma_div_mod_of_parts(q: nat, d: nat, r: nat)
    requires
        r < d,
    ensures
        (q * d + r) / d == q,
        (q * d + r) % d == r,
{
    lemma_fundamental_div_mod_converse((q * d + r) as int, d as int, q as int, r as int);
}

/// The product of a significand of 53 bits and a power of two lies in the
/// binade that the power of two opens.
pub proof fn lemma_binade_of_product(m: nat, t: nat)
    requires
        pow2(52) <= m < pow2(53),
    ensures
        pow2(52 + t) <= m * pow2(t) < pow2(53 + t),
{
    lemma_pow2_adds(52, t);
    lemma_pow2_adds(53, t);
    lemma_pow2_pos(t);
    let p = pow2(t);
    assert(pow2(52) * p <= m * p) by (nonlinear_arith)
        requires
            pow2(52) <= m,
    ;
    assert(m * p < pow2(53) * p) by (nonlinear_arith)
        requires
            m < pow2(53),
            p > 0,
    ;
}

/// A finite binary64 number rounds to itself.
pub proof fn lemma_representable_rounds_to_itself(bits: u64)
    requires
        is_finite(bits),
    ensures
        nearest_encoding(scaled_magnitude(bits), 1) == magnitude_bits(bits),
{
    lemma_fields(bits);
    lemma2_to64();
    lemma2_to64_rest();
    let e = biased_exponent(bits);
    let m = significand(bits);
    let t = scale(bits);
    let n = scaled_magnitude(bits);
    if e <= 1 {
        assert(n == m * 1);
        lemma_div_mod_of_parts(n, 1, 0);
    } else {
        let p = pow2(t);
        lemma_pow2_pos(t);
        lemma_binade_of_product(m, t);
        lemma_nearest_encoding_in_binade(n, 1, t);
        lemma_div_mod_of_parts(m, p, 0);
        assert(round_half_even(n, 1 * p) == m);
        assert(t * pow2(52) + m == e * HIDDEN_BIT + fraction(bits)) by (nonlinear_arith)
            requires
                t == e - 1,
                m == HIDDEN_BIT + fraction(bits),
                pow2(52) == HIDDEN_BIT,
        ;
    }
}

/// Adding to a normal number, or taking from it, less than a quarter of the
/// step of its binade leaves it the nearest number on the grid.
pub proof fn lemma_small_term_is_absorbed(bits: u64, b: nat)
    requires
        is_finite(bits),
        scale(bits) >= 2,
        0 < b,
        4 * b < pow2(scale(bits)),
    ensures
        nearest_encoding(scaled_magnitude(bits) + b, 1) == magnitude_bits(bits),
        nearest_encoding((scaled_magnitude(bits) - b) as nat, 1) == magnitude_bits(bits),
        b < scaled_magnitude(bits),
{
    lemma_fields(bits);
    lemma2_to64();
    lemma2_to64_rest();
    let e = biased_exponent(bits);
    let f = fraction(bits);
    let m = significand(bits);
    let t = scale(bits);
    let n = scaled_magnitude(bits);
    let p = pow2(t);
    lemma_pow2_pos(t);
    lemma_binade_of_product(m, t);
    lemma_pow2_adds(53, t);
    lemma_pow2_adds(52, t);
    assert(t * pow2(52) + m == e * HIDDEN_BIT + f) by (nonlinear_arith)
        requires
            t == e - 1,
            m == HIDDEN_BIT + f,
            pow2(52) == HIDDEN_BIT,
    ;
    assert(n >= p) by (nonlinear_arith)
        requires
            n == m * p,
            m >= 1,
            p > 0,
    ;
    // The sum stays in the binade of the number.
    let up = n + b;
    assert(up < pow2(53 + t)) by (nonlinear_arith)
        requires
            up == m * p + b,
            b < p,
            m + 1 <= pow2(53),
            pow2(53 + t) == pow2(53) * p,
    ;
    lemma_nearest_encoding_in_binade(up, 1, t);
    lemma_div_mod_of_parts(m, p, b);
    assert(round_half_even(up, 1 * p) == m);
    // The difference stays there too, unless the number opens the binade.
    let down = (n - b) as nat;
    if m > pow2(52) {
        let r = (p - b) as nat;
        assert(down == (m - 1) as nat * p + r) by (nonlinear_arith)
            requires
                down == m * p - b,
                r == p - b,
                m >= 1,
        ;
        assert(pow2(52 + t) <= down) by (nonlinear_arith)
            requires
                down == (m - 1) as nat * p + r,
                m - 1 >= pow2(52),
                pow2(52 + t) == pow2(52) * p,
                r >= 0,
                p > 0,
        ;
        lemma_nearest_encoding_in_binade(down, 1, t);
        lemma_div_mod_of_parts((m - 1) as nat, p, r);
        assert(round_half_even(down, 1 * p) == m);
    } else {
        let k = (t - 1) as nat;
        let h = pow2(k);
        lemma_pow2_unfold(t);
        lemma_pow2_pos(k);
        lemma_pow2_adds(52, k);
        lemma_pow2_adds(53, k);
        let r = (h - b) as nat;
        let top = (pow2(53) - 1) as nat;
        assert(down == top * h + r) by (nonlinear_arith)
            requires
                down == m * p - b,
                m == pow2(52),
                pow2(53) == 2 * pow2(52),
                p == 2 * h,
                r == h - b,
                top == pow2(53) - 1,
        ;
        assert(pow2(52 + k) <= down < pow2(53 + k)) by (nonlinear_arith)
            requires
                down == top * h + r,
                top == pow2(53) - 1,
                pow2(53) == 2 * pow2(52),
                pow2(52) >= 1,
                pow2(52 + k) == pow2(52) * h,
                pow2(53 + k) == pow2(53) * h,
                0 < r < h,
        ;
        lemma_nearest_encoding_in_binade(down, 1, k);
        lemma_div_mod_of_parts(top, h, r);
        assert(round_half_even(down, 1 * h) == pow2(53));
        assert(k * pow2(52) + pow2(53) == e * HIDDEN_BIT + f) by (nonlinear_arith)
            requires
                k == e - 2,
                f == 0,
                pow2(52) == HIDDEN_BIT,
                pow2(53) == 2 * pow2(52),
        ;
    }
}

} // verus!
