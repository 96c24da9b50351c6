use series_circuit::binary64::arithmetic::reciprocal;
use series_circuit::binary64::arithmetic::sum;
use series_circuit::binary64::encode::bit_length;
use series_circuit::binary64::encode::encode_ratio;
use series_circuit::binary64::encode::nearest_integer;
use series_circuit::binary64::encode::power_of_two;
use series_circuit::binary64::format::decode;
use series_circuit::binary64::format::equal;
use series_circuit::binary64::format::HIDDEN_BIT;
use series_circuit::binary64::format::INFINITY;
use series_circuit::binary64::format::QUIET_NAN;
use series_circuit::binary64::format::SIGN_BIT;

fn next(state: &mut u64) -> u64 {
    *state ^= *state << 13;
    *state ^= *state >> 7;
    *state ^= *state << 17;
    *state
}

fn same(ours: u64, theirs: f64) -> bool {
    if theirs.is_nan() {
        ours == QUIET_NAN
    } else {
        ours == theirs.to_bits()
    }
}

fn check_sum(a: u64, b: u64) {
    let theirs = f64::from_bits(a) + f64::from_bits(b);
    assert!(same(sum(a, b), theirs), "{:#018x} + {:#018x}", a, b);
}

fn check_reciprocal(a: u64) {
    let theirs = 1.0 / f64::from_bits(a);
    assert!(same(reciprocal(a), theirs), "1 / {:#018x}", a);
}

fn edge_cases() -> Vec<u64> {
    let mut edges = vec![];
    for magnitude in [
        0u64,
        1,
        2,
        3,
        HIDDEN_BIT - 1,
        HIDDEN_BIT,
        HIDDEN_BIT + 1,
        2 * HIDDEN_BIT - 1,
        2 * HIDDEN_BIT,
        2 * HIDDEN_BIT + 1,
        0x0008_0000_0000_0000,
        0x0004_0000_0000_0000,
        0x0004_0000_0000_0001,
        0x0003_ffff_ffff_ffff,
        0x3ff0_0000_0000_0000,
        0x3ff0_0000_0000_0001,
        0x3fef_ffff_ffff_ffff,
        0x3ff8_0000_0000_0000,
        0x4000_0000_0000_0000,
        0x4340_0000_0000_0000,
        0x4340_0000_0000_0001,
        0x433f_ffff_ffff_ffff,
        0x7fd0_0000_0000_0000,
        0x7fdf_ffff_ffff_ffff,
        0x7fe0_0000_0000_0000,
        0x7fe0_0000_0000_0001,
        0x7fef_ffff_ffff_fffe,
        0x7fef_ffff_ffff_ffff,
        INFINITY,
        INFINITY + 1,
        QUIET_NAN,
        0x7fff_ffff_ffff_ffff,
    ] {
        edges.push(magnitude);
        edges.push(SIGN_BIT + magnitude);
    }
    edges
}

#[test]
fn constants_are_the_encodings_they_name() {
    assert_eq!(SIGN_BIT, (-0.0f64).to_bits());
    assert_eq!(INFINITY, f64::INFINITY.to_bits());
    assert!(f64::from_bits(QUIET_NAN).is_nan());
    assert_eq!(HIDDEN_BIT, 1u64 << 52);
    assert_eq!(HIDDEN_BIT, f64::MIN_POSITIVE.to_bits());
}

#[test]
fn equal_agrees_with_the_hardware_on_edges() {
    let edges = edge_cases();
    for &a in &edges {
        for &b in &edges {
            assert_eq!(equal(a, b), f64::from_bits(a) == f64::from_bits(b), "{:#x} {:#x}", a, b);
        }
    }
}

#[test]
fn equal_agrees_with_the_hardware_on_scattered_numbers() {
    let mut state = 0x9e37_79b9_7f4a_7c15u64;
    for _ in 0..200_000 {
        let a = next(&mut state);
        let b = if next(&mut state) % 4 == 0 { a } else { next(&mut state) };
        assert_eq!(equal(a, b), f64::from_bits(a) == f64::from_bits(b));
    }
}

#[test]
fn sum_agrees_with_the_hardware_on_edges() {
    let edges = edge_cases();
    for &a in &edges {
        for &b in &edges {
            check_sum(a, b);
        }
    }
}

#[test]
fn sum_agrees_with_the_hardware_on_scattered_numbers() {
    let mut state = 0x2545_f491_4f6c_dd1du64;
    for _ in 0..300_000 {
        check_sum(next(&mut state), next(&mut state));
    }
}

#[test]
fn sum_agrees_with_the_hardware_on_neighbouring_exponents() {
    let mut state = 0x1234_5678_9abc_def1u64;
    for _ in 0..400_000 {
        let a = next(&mut state);
        let exponent = (a >> 52) & 0x7ff;
        let shift = next(&mut state) % 140;
        let other = (exponent + shift).saturating_sub(70).min(0x7ff);
        let fraction = match next(&mut state) % 4 {
            0 => a & (HIDDEN_BIT - 1),
            1 => 0,
            2 => HIDDEN_BIT - 1,
            _ => next(&mut state) & (HIDDEN_BIT - 1),
        };
        let b = (next(&mut state) & SIGN_BIT) | (other << 52) | fraction;
        check_sum(a, b);
        check_sum(b, a);
    }
}

#[test]
fn sum_agrees_with_the_hardware_on_ties() {
    let mut state = 0x0f0f_1234_8765_4321u64;
    for _ in 0..200_000 {
        let exponent = 1 + next(&mut state) % 2040;
        let a = (exponent << 52) | (next(&mut state) & (HIDDEN_BIT - 1));
        let below = next(&mut state) % 60;
        if exponent > below {
            let half_steps = ((exponent - below) << 52) | (next(&mut state) % 4 * (HIDDEN_BIT / 4));
            check_sum(a, half_steps);
            check_sum(a, SIGN_BIT | half_steps);
            check_sum(SIGN_BIT | a, half_steps);
        }
    }
}

#[test]
fn sum_agrees_with_the_hardware_on_subnormal_numbers() {
    let mut state = 0x7777_1111_3333_5555u64;
    for _ in 0..200_000 {
        let a = next(&mut state) & (4 * HIDDEN_BIT - 1) | (next(&mut state) & SIGN_BIT);
        let b = next(&mut state) & (4 * HIDDEN_BIT - 1) | (next(&mut state) & SIGN_BIT);
        check_sum(a, b);
    }
}

#[test]
fn reciprocal_agrees_with_the_hardware_on_edges() {
    for a in edge_cases() {
        check_reciprocal(a);
    }
}

#[test]
fn reciprocal_agrees_with_the_hardware_on_scattered_numbers() {
    let mut state = 0xdead_beef_cafe_f00du64;
    for _ in 0..400_000 {
        check_reciprocal(next(&mut state));
    }
}

#[test]
fn reciprocal_agrees_with_the_hardware_at_both_ends_of_the_range() {
    let mut state = 0x0123_4567_89ab_cdefu64;
    for _ in 0..200_000 {
        let small = next(&mut state) & (8 * HIDDEN_BIT - 1);
        check_reciprocal(small);
        check_reciprocal(SIGN_BIT | small);
        let large = 0x7fb0_0000_0000_0000 + (next(&mut state) & (4 * HIDDEN_BIT - 1));
        check_reciprocal(large);
    }
}

#[test]
fn reciprocal_agrees_with_the_hardware_on_powers_of_two() {
    for exponent in 0..2047u64 {
        check_reciprocal(exponent << 52);
        check_reciprocal((exponent << 52) | 1);
        check_reciprocal((exponent << 52) | (HIDDEN_BIT - 1));
    }
    for bit in 0..52 {
        check_reciprocal(1u64 << bit);
    }
}

#[test]
fn decode_splits_a_magnitude() {
    assert_eq!(decode(1.0f64.to_bits()), (HIDDEN_BIT, 1022));
    assert_eq!(decode((-1.5f64).to_bits()), (HIDDEN_BIT + HIDDEN_BIT / 2, 1022));
    assert_eq!(decode(f64::MIN_POSITIVE.to_bits()), (HIDDEN_BIT, 0));
    assert_eq!(decode(5), (5, 0));
    assert_eq!(decode(0), (0, 0));
    assert_eq!(decode(f64::MAX.to_bits()), (2 * HIDDEN_BIT - 1, 2045));
}

#[test]
fn power_of_two_and_bit_length_are_inverse() {
    for e in 0..=126u32 {
        assert_eq!(power_of_two(e), 1u128 << e);
        assert_eq!(bit_length(1u128 << e), e + 1);
        assert_eq!(bit_length((1u128 << e) - 1), e);
    }
    assert_eq!(power_of_two(127), 1u128 << 127);
    assert_eq!(bit_length(0), 0);
    assert_eq!(bit_length(u128::MAX), 128);
    assert_eq!(bit_length(1u128 << 127), 128);
    assert_eq!(bit_length(5), 3);
}

#[test]
fn nearest_integer_rounds_halves_to_even() {
    assert_eq!(nearest_integer(7, 2), 4);
    assert_eq!(nearest_integer(5, 2), 2);
    assert_eq!(nearest_integer(1, 2), 0);
    assert_eq!(nearest_integer(3, 2), 2);
    assert_eq!(nearest_integer(10, 4), 2);
    assert_eq!(nearest_integer(14, 4), 4);
    assert_eq!(nearest_integer(7, 3), 2);
    assert_eq!(nearest_integer(8, 3), 3);
    assert_eq!(nearest_integer(9, 3), 3);
    assert_eq!(nearest_integer(0, 5), 0);
    assert_eq!(nearest_integer(u128::MAX, 1), u128::MAX);
    assert_eq!(nearest_integer(u128::MAX, u128::MAX), 1);
}

#[test]
fn encode_ratio_of_an_integer_gives_the_nearest_number() {
    assert_eq!(encode_ratio(0, 1, 7), 0);
    assert_eq!(encode_ratio(1, 1, 0), 1);
    assert_eq!(encode_ratio(1, 1, 1074), 1.0f64.to_bits());
    assert_eq!(encode_ratio(3, 1, 1074), 3.0f64.to_bits());
    assert_eq!(encode_ratio(1 << 60, 1, 1074 - 60), 1.0f64.to_bits());
    assert_eq!(encode_ratio((1 << 53) + 1, 1, 1074), 9007199254740992.0f64.to_bits());
    assert_eq!(encode_ratio((1 << 53) + 3, 1, 1074), 9007199254740996.0f64.to_bits());
    assert_eq!(encode_ratio(1, 1, 2097), 2.0f64.powi(1023).to_bits());
    assert_eq!(encode_ratio(1, 1, 2098), INFINITY);
    assert_eq!(encode_ratio((1 << 54) - 1, 1, 2044), INFINITY);
    assert_eq!(encode_ratio((1 << 54) - 2, 1, 2044), f64::MAX.to_bits());
    assert_eq!(encode_ratio((1 << 54) - 3, 1, 2044), f64::MAX.to_bits() - 1);
    assert_eq!(encode_ratio((1 << 54) - 5, 1, 2044), f64::MAX.to_bits() - 1);
}

#[test]
fn encode_ratio_gives_the_nearest_number() {
    assert_eq!(encode_ratio(1, 3, 0), 0);
    assert_eq!(encode_ratio(2, 3, 0), 1);
    assert_eq!(encode_ratio(1, 2, 0), 0);
    assert_eq!(encode_ratio(3, 2, 0), 2);
    assert_eq!(encode_ratio(1 << 105, 3 << 51, 1020), (1.0f64 / 3.0).to_bits());
    assert_eq!(encode_ratio(1 << 105, 3 << 51, 1021), (2.0f64 / 3.0).to_bits());
    assert_eq!(encode_ratio(1 << 105, 1 << 52, 1021), 1.0f64.to_bits());
    assert_eq!(encode_ratio(10 << 60, 1 << 60, 0), 10);
    assert_eq!(encode_ratio(1, 3, 1074), (1.0f64 / 3.0).to_bits());
    assert_eq!(encode_ratio(1, 10, 1074), 0.1f64.to_bits());
    assert_eq!(encode_ratio(22, 7, 1074), (22.0f64 / 7.0).to_bits());
    assert_eq!(encode_ratio(1, 3, 1), 1);
    assert_eq!(encode_ratio(1, 3, 2), 1);
    assert_eq!(encode_ratio(1, 3, 3), 3);
    assert_eq!(encode_ratio(1, u64::MAX, 64), 1);
    assert_eq!(encode_ratio(1, 1, u64::MAX), INFINITY);
    assert_eq!(encode_ratio(0, 1, u64::MAX), 0);
}
