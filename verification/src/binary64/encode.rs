//! Computing the nearest encoding of a ratio of machine integers.
use vstd::prelude::*;
use vstd::arithmetic::power2::pow2;
use vstd::arithmetic::power2::lemma_pow2_pos;
use vstd::arithmetic::power2::lemma_pow2_adds;
use vstd::arithmetic::power2::lemma_pow2_unfold;
use vstd::arithmetic::power2::lemma_pow2_strictly_increases;
use vstd::arithmetic::power2::lemma2_to64;
use vstd::arithmetic::power2::lemma2_to64_rest;
use vstd::arithmetic::div_mod::lemma_fundamental_div_mod;
use crate::binary64::format::INFINITY;
use crate::binary64::format::HIDDEN_BIT;
use crate::binary64::rounding::round_half_even;
use crate::binary64::rounding::nearest_encoding;
use crate::binary64::rounding::lemma_quotient_between;
use crate::binary64::rounding::lemma_round_half_even_scales;
use crate::binary64::rounding::lemma_nearest_encoding_in_binade;

verus! {

/// Two to the power 127: numerators stay below it, so that doubling one
/// cannot overflow.
pub const NUMERATOR_LIMIT: u128 = 0x8000_0000_0000_0000_0000_0000_0000_0000;

pub proof fn lemma_numerator_limit()
    ensures
        pow2(127) == NUMERATOR_LIMIT,
        pow2(52) == HIDDEN_BIT,
        pow2(53) == 2 * HIDDEN_BIT,
{
    lemma2_to64();
    lemma2_to64_rest();
    lemma_pow2_adds(63, 64);
}

/// Two to the power `e`.
pub fn power_of_two(e: u32) -> (r: u128)
    requires
        e <= 127,
    ensures
        r == pow2(e as nat),
{
    let mut r: u128 = 1;
    let mut i: u32 = 0;
    proof {
        lemma2_to64();
    }
    while i < e
        invariant
            i <= e <= 127,
            r == pow2(i as nat),
        decreases e - i,
    {
        proof {
            lemma_numerator_limit();
            lemma_pow2_unfold((i + 1) as nat);
            if i + 1 < 127 {
                lemma_pow2_strictly_increases((i + 1) as nat, 127);
            }
        }
        r = r * 2;
        i = i + 1;
    }
    r
}

/// The number of bits that `x` takes: the least `len` with `x` below two to
/// the power `len`.
pub fn bit_length(x: u128) -> (len: u32)
    ensures
        len <= 128,
        x < pow2(len as nat),
        len > 0 ==> pow2((len - 1) as nat) <= x,
{
    proof {
        lemma2_to64();
        lemma_numerator_limit();
        lemma_pow2_unfold(128);
    }
    if x >= NUMERATOR_LIMIT {
        return 128;
    }
    let mut len: u32 = 0;
    let mut bound: u128 = 1;
    while bound <= x
        invariant
            len <= 127,
            bound == pow2(len as nat),
            len > 0 ==> pow2((len - 1) as nat) <= x,
            x < NUMERATOR_LIMIT,
        decreases 128 - len,
    {
        proof {
            lemma_numerator_limit();
            lemma_pow2_unfold((len + 1) as nat);
        }
        bound = bound * 2;
        len = len + 1;
    }
    len
}

/// The integer nearest to `num / den`; of two equally near, the even one.
pub fn nearest_integer(num: u128, den: u128) -> (r: u128)
    requires
        den > 0,
    ensures
        r == round_half_even(num as nat, den as nat),
{
    let q: u128 = num / den;
    let r: u128 = num % den;
    if r < den - r || (r == den - r && q % 2 == 0) {
        q
    } else {
        proof {
            lemma_fundamental_div_mod(num as int, den as int);
            assert(q < u128::MAX) by (nonlinear_arith)
                requires
                    num == den * q + r,
                    den >= 2,
                    q >= 0,
                    r >= 0,
                    num <= u128::MAX,
            ;
        }
        q + 1
    }
}

/// The encoding, sign bit clear, of the binary64 number nearest to
/// `num / den` times two to the power `shift - 1074`, for a ratio that has
/// its 53 leading bits before the point wherever there is a shift: the
/// rounding is done on `num / den` alone.
fn encode_aligned(num: u128, den: u128, shift: u64) -> (r: u64)
    requires
        den > 0,
        num < NUMERATOR_LIMIT,
        shift > 0 ==> num >= HIDDEN_BIT * den,
    ensures
        r == nearest_encoding(num as nat * pow2(shift as nat), den as nat),
        r <= INFINITY,
{
    let floor: u128 = num / den;
    let len: u32 = bit_length(floor);
    proof {
        lemma_numerator_limit();
        lemma_fundamental_div_mod(num as int, den as int);
        lemma2_to64();
        if len > 0 {
            assert(pow2((len - 1) as nat) * den <= num) by (nonlinear_arith)
                requires
                    num == den * floor + num % den,
                    num % den >= 0,
                    pow2((len - 1) as nat) <= floor,
                    den > 0,
            ;
        }
        assert(num < pow2(len as nat) * den) by (nonlinear_arith)
            requires
                num == den * floor + num % den,
                num % den < den,
                floor + 1 <= pow2(len as nat),
                den > 0,
        ;
    }
    if len <= 53 && shift == 0 {
        proof {
            if len < 53 {
                lemma_pow2_strictly_increases(len as nat, 53);
            }
            assert(num < pow2(53) * den) by (nonlinear_arith)
                requires
                    num < pow2(len as nat) * den,
                    pow2(len as nat) <= pow2(53),
                    den > 0,
            ;
            assert(num as nat * pow2(0) == num);
            assert(floor < pow2(53));
        }
        let q: u128 = nearest_integer(num, den);
        q as u64
    } else {
        proof {
            if shift > 0 {
                lemma_quotient_between(num as nat, den as nat, HIDDEN_BIT as nat, pow2(len as nat));
                if len < 53 {
                    lemma_pow2_strictly_increases(len as nat, 52);
                }
            }
        }
        assert(len >= 53);
        let extra: u32 = len - 53;
        let step: u128 = power_of_two(extra);
        proof {
            lemma_pow2_adds(extra as nat, 52);
            lemma_pow2_adds(extra as nat, 53);
            lemma_pow2_pos(extra as nat);
            assert(den * step <= num) by (nonlinear_arith)
                requires
                    pow2((len - 1) as nat) * den <= num,
                    pow2((len - 1) as nat) == step * pow2(52),
                    pow2(52) >= 1,
                    den > 0,
                    step > 0,
            ;
            assert(den * step > 0) by (nonlinear_arith)
                requires
                    den > 0,
                    step > 0,
            ;
        }
        let divisor: u128 = den * step;
        let q: u128 = nearest_integer(num, divisor);
        let ghost k: nat = shift as nat + extra as nat;
        proof {
            let n = num as nat;
            let d = den as nat;
            let s = pow2(shift as nat);
            lemma_pow2_pos(shift as nat);
            lemma_pow2_adds(shift as nat, extra as nat);
            lemma_pow2_adds(shift as nat, (len - 1) as nat);
            lemma_pow2_adds(shift as nat, len as nat);
            assert(pow2(52 + k) * d <= n * s) by (nonlinear_arith)
                requires
                    pow2((len - 1) as nat) * d <= n,
                    pow2(52 + k) == s * pow2((len - 1) as nat),
                    s > 0,
            ;
            assert(n * s < pow2(53 + k) * d) by (nonlinear_arith)
                requires
                    n < pow2(len as nat) * d,
                    pow2(53 + k) == s * pow2(len as nat),
                    s > 0,
            ;
            lemma_nearest_encoding_in_binade(n * s, d, k);
            lemma_round_half_even_scales(n, divisor as nat, s);
            assert(s * n == n * s) by (nonlinear_arith);
            assert(s * (d * step) == d * pow2(k)) by (nonlinear_arith)
                requires
                    pow2(k) == s * step,
            ;
            // The rounded significand has at most one bit more than 53.
            assert(n < pow2(53) * divisor) by (nonlinear_arith)
                requires
                    n < pow2(len as nat) * d,
                    pow2(len as nat) == step * pow2(53),
                    divisor == d * step,
            ;
            lemma_quotient_between(n, divisor as nat, 0, pow2(53));
            assert(q <= pow2(53));
            if k >= 2047 {
                assert(k * pow2(52) >= INFINITY) by (nonlinear_arith)
                    requires
                        k >= 2047,
                        pow2(52) == 0x0010_0000_0000_0000,
                        INFINITY == 0x7ff0_0000_0000_0000,
                ;
            } else {
                assert(k * HIDDEN_BIT + q < 0x8000_0000_0000_0000_0000) by (nonlinear_arith)
                    requires
                        k < 2047,
                        HIDDEN_BIT == 0x0010_0000_0000_0000,
                        q <= 0x0020_0000_0000_0000,
                ;
            }
        }
        if shift >= 2047 || shift + extra as u64 >= 2047 {
            INFINITY
        } else {
            let encoding: u64 = (shift + extra as u64) * HIDDEN_BIT + q as u64;
            if encoding < INFINITY {
                encoding
            } else {
                INFINITY
            }
        }
    }
}

/// The encoding, sign bit clear, of the binary64 number nearest to
/// `num / den` times two to the power `shift - 1074`; of two equally near,
/// the one with the even significand; infinity where the ratio is too large.
pub fn encode_ratio(num: u128, den: u64, shift: u64) -> (r: u64)
    requires
        den > 0,
        num < NUMERATOR_LIMIT,
    ensures
        r == nearest_encoding(num as nat * pow2(shift as nat), den as nat),
        r <= INFINITY,
{
    if num == 0 {
        proof {
            lemma_pow2_pos(53);
            assert(0 * pow2(shift as nat) == 0);
            assert(0 < pow2(53) * den) by (nonlinear_arith)
                requires
                    pow2(53) > 0,
                    den > 0,
            ;
            assert(0nat / den as nat == 0 && 0nat % den as nat == 0);
        }
        return 0;
    }
    // Bring the leading bits of the ratio before the point while there is a
    // shift to take them from.
    assert(HIDDEN_BIT * den < 0x0010_0000_0000_0000_0000_0000_0000_0000) by (nonlinear_arith)
        requires
            HIDDEN_BIT == 0x0010_0000_0000_0000,
            den < 0x1_0000_0000_0000_0000,
    ;
    let aligned: u128 = HIDDEN_BIT as u128 * den as u128;
    let mut n: u128 = num;
    let mut s: u64 = shift;
    while s > 0 && n < aligned
        invariant
            n as nat * pow2(s as nat) == num as nat * pow2(shift as nat),
            n < NUMERATOR_LIMIT,
            aligned == HIDDEN_BIT * den,
            aligned < 0x0010_0000_0000_0000_0000_0000_0000_0000,
        decreases s,
    {
        proof {
            lemma_pow2_unfold(s as nat);
            assert((2 * n) * pow2((s - 1) as nat) == n * (2 * pow2((s - 1) as nat)))
                by (nonlinear_arith);
        }
        n = n * 2;
        s = s - 1;
    }
    encode_aligned(n, den as u128, s)
}

} // verus!
