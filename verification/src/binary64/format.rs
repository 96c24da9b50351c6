//! The layout of a binary64 encoding: one sign bit, eleven exponent bits and
//! fifty-two fraction bits, from the most significant bit down.
use vstd::prelude::*;
use vstd::arithmetic::power2::pow2;
use vstd::arithmetic::power2::lemma_pow2_pos;
use vstd::arithmetic::power2::lemma_pow2_adds;
use vstd::arithmetic::power2::lemma_pow2_strictly_increases;
use vstd::arithmetic::power2::lemma2_to64;

verus! {

/// The sign bit alone, which is also the encoding of negative zero.
pub const SIGN_BIT: u64 = 0x8000_0000_0000_0000;

/// The encoding of positive infinity: every exponent bit set, no fraction bit.
pub const INFINITY: u64 = 0x7ff0_0000_0000_0000;

/// The encoding of the quiet NaN that every invalid operation returns.
pub const QUIET_NAN: u64 = 0x7ff8_0000_0000_0000;

/// Two to the power 52: the leading significand bit that a normal number
/// leaves out of its encoding, and the weight of the exponent field.
pub const HIDDEN_BIT: u64 = 0x0010_0000_0000_0000;

/// The encoding with its sign bit cleared.
pub open spec fn magnitude_bits(bits: u64) -> u64 {
    bits % SIGN_BIT
}

/// The sign bit of the encoding, in place.
pub open spec fn sign_bits(bits: u64) -> u64 {
    if bits >= SIGN_BIT {
        SIGN_BIT
    } else {
        0
    }
}

/// Whether the sign bit is set. It is set in negative zero too.
pub open spec fn is_negative(bits: u64) -> bool {
    bits >= SIGN_BIT
}

/// Whether the encoding is that of a NaN: every exponent bit set and some
/// fraction bit.
pub open spec fn is_nan(bits: u64) -> bool {
    magnitude_bits(bits) > INFINITY
}

/// Whether the encoding is that of an infinity.
pub open spec fn is_infinite(bits: u64) -> bool {
    magnitude_bits(bits) == INFINITY
}

/// Whether the encoding is that of a number other than the infinities.
pub open spec fn is_finite(bits: u64) -> bool {
    magnitude_bits(bits) < INFINITY
}

/// Whether the encoding is that of a zero, of either sign.
pub open spec fn is_zero(bits: u64) -> bool {
    magnitude_bits(bits) == 0
}

/// Whether the encoding is that of a normal number: one with the full 53
/// bits of significand, which the exponent field tells by being neither the
/// lowest nor the highest.
pub open spec fn is_normal(bits: u64) -> bool {
    1 <= magnitude_bits(bits) / HIDDEN_BIT <= 2046
}

/// The exponent field, between 0 and 2047.
pub open spec fn biased_exponent(bits: u64) -> nat {
    (magnitude_bits(bits) / HIDDEN_BIT) as nat
}

/// The fraction field, below two to the power 52.
pub open spec fn fraction(bits: u64) -> nat {
    (bits % HIDDEN_BIT) as nat
}

/// The integer significand of a finite number: the fraction, with the hidden
/// bit in front of it unless the number is zero or subnormal.
pub open spec fn significand(bits: u64) -> nat {
    if biased_exponent(bits) == 0 {
        fraction(bits)
    } else {
        HIDDEN_BIT as nat + fraction(bits)
    }
}

/// The power of two by which the significand of a finite number is scaled,
/// counted from the smallest one, two to the power -1074.
pub open spec fn scale(bits: u64) -> nat {
    if biased_exponent(bits) == 0 {
        0
    } else {
        (biased_exponent(bits) - 1) as nat
    }
}

/// The absolute value of a finite number as a whole multiple of two to the
/// power -1074, the distance between neighbouring subnormal numbers. Every
/// finite binary64 number is such a multiple.
pub open spec fn scaled_magnitude(bits: u64) -> nat {
    significand(bits) * pow2(scale(bits))
}

/// The value of a finite number as a whole multiple of two to the power -1074.
pub open spec fn scaled_value(bits: u64) -> int {
    if is_negative(bits) {
        -(scaled_magnitude(bits) as int)
    } else {
        scaled_magnitude(bits) as int
    }
}

/// Whether two encodings stand for equal numbers: a NaN equals nothing, the
/// two zeros equal each other, and any other number equals only itself.
pub open spec fn equal_spec(a: u64, b: u64) -> bool {
    &&& !is_nan(a)
    &&& !is_nan(b)
    &&& (a == b || (is_zero(a) && is_zero(b)))
}

/// Compares two numbers given by their encodings.
pub fn equal(a: u64, b: u64) -> (r: bool)
    ensures
        r == equal_spec(a, b),
{
    let ma: u64 = a % SIGN_BIT;
    let mb: u64 = b % SIGN_BIT;
    ma <= INFINITY && mb <= INFINITY && (a == b || (ma == 0 && mb == 0))
}

/// The encoding is its sign bit followed by its magnitude, and the magnitude
/// is the exponent field followed by the fraction field.
pub proof fn lemma_fields(bits: u64)
    ensures
        bits == sign_bits(bits) + magnitude_bits(bits),
        magnitude_bits(bits) == biased_exponent(bits) * HIDDEN_BIT + fraction(bits),
        biased_exponent(bits) <= 2047,
        fraction(bits) < HIDDEN_BIT,
        is_finite(bits) <==> biased_exponent(bits) < 2047,
        is_zero(bits) <==> biased_exponent(bits) == 0 && fraction(bits) == 0,
{
    let m = magnitude_bits(bits);
    assert(m % HIDDEN_BIT == bits % HIDDEN_BIT) by (bit_vector)
        requires
            m == bits % 0x8000_0000_0000_0000u64,
    ;
}

/// A zero, of either sign, has the magnitude zero.
pub proof fn lemma_zero_has_no_magnitude(bits: u64)
    requires
        is_zero(bits),
    ensures
        scaled_magnitude(bits) == 0,
        scaled_value(bits) == 0,
{
    lemma_fields(bits);
    assert(0 * pow2(0) == 0);
}

/// An encoded magnitude written as an exponent field followed by a fraction
/// field has those fields.
pub proof fn lemma_fields_of_parts(bits: u64, exponent: nat, fraction_part: nat)
    requires
        magnitude_bits(bits) == exponent * HIDDEN_BIT + fraction_part,
        fraction_part < HIDDEN_BIT,
    ensures
        biased_exponent(bits) == exponent,
        fraction(bits) == fraction_part,
{
    lemma_fields(bits);
    vstd::arithmetic::div_mod::lemma_fundamental_div_mod_converse(
        magnitude_bits(bits) as int,
        HIDDEN_BIT as int,
        exponent as int,
        fraction_part as int,
    );
}

/// Finite numbers are ordered by magnitude as their encoded magnitudes are
/// ordered: the larger encoding has the larger scale, or the same, and
/// stands for the larger number.
pub proof fn lemma_magnitude_order(x: u64, y: u64)
    requires
        is_finite(x),
        magnitude_bits(y) <= magnitude_bits(x),
    ensures
        scale(y) <= scale(x),
        scaled_magnitude(y) <= scaled_magnitude(x),
        magnitude_bits(y) < magnitude_bits(x) ==> scaled_magnitude(y) < scaled_magnitude(x),
{
    lemma_fields(x);
    lemma_fields(y);
    lemma2_to64();
    let tx = scale(x);
    let ty = scale(y);
    let mx = significand(x);
    let my = significand(y);
    let px = pow2(tx);
    let py = pow2(ty);
    lemma_pow2_pos(tx);
    lemma_pow2_pos(ty);
    assert(biased_exponent(y) <= biased_exponent(x)) by (nonlinear_arith)
        requires
            magnitude_bits(y) <= magnitude_bits(x),
            magnitude_bits(x) == biased_exponent(x) * HIDDEN_BIT + fraction(x),
            magnitude_bits(y) == biased_exponent(y) * HIDDEN_BIT + fraction(y),
            fraction(x) < HIDDEN_BIT,
            fraction(y) < HIDDEN_BIT,
            HIDDEN_BIT > 0,
    ;
    if biased_exponent(x) == biased_exponent(y) {
        assert(my * py <= mx * px && (my < mx ==> my * py < mx * px)) by (nonlinear_arith)
            requires
                my <= mx,
                py == px,
                px > 0,
        ;
    } else if biased_exponent(y) == 0 {
        assert(my * py < mx * px) by (nonlinear_arith)
            requires
                py == 1,
                my < mx,
                px >= 1,
        ;
    } else {
        lemma_pow2_adds(1, ty);
        if ty + 1 < tx {
            lemma_pow2_strictly_increases(ty + 1, tx);
        }
        assert(my * py < mx * px) by (nonlinear_arith)
            requires
                my < 2 * HIDDEN_BIT,
                mx >= HIDDEN_BIT,
                2 * py <= px,
                py > 0,
        ;
    }
}

/// Splits the magnitude of a finite number into significand and scale.
pub fn decode(bits: u64) -> (r: (u64, u64))
    ensures
        r.0 == significand(bits),
        r.1 == scale(bits),
        r.0 < 2 * HIDDEN_BIT,
        r.1 <= 2046,
        r.1 > 0 ==> r.0 >= HIDDEN_BIT,
{
    proof {
        lemma_fields(bits);
    }
    let exponent: u64 = (bits % SIGN_BIT) / HIDDEN_BIT;
    let fraction: u64 = bits % HIDDEN_BIT;
    if exponent == 0 {
        (fraction, 0)
    } else {
        (HIDDEN_BIT + fraction, exponent - 1)
    }
}

} // verus!
