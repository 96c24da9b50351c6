use series_circuit::units::farad::Farad;
use series_circuit::units::henry::Henry;
use series_circuit::units::ohm::Ohm;
use series_circuit::units::volt::Volt;

fn magnitude(farad: Farad) -> f64 {
    f64::from_bits(farad.to_bits())
}

fn farads(magnitude: f64) -> Farad {
    Farad::new(magnitude.to_bits())
}

#[test]
fn a_quantity_keeps_its_magnitude() {
    assert_eq!(f64::from_bits(Ohm::new(4.7e3f64.to_bits()).to_bits()), 4.7e3);
    assert_eq!(f64::from_bits(Henry::new(1.0e-3f64.to_bits()).to_bits()), 1.0e-3);
    assert_eq!(f64::from_bits(Volt::new((-12.0f64).to_bits()).to_bits()), -12.0);
    assert_eq!(magnitude(farads(0.0)), 0.0);
}

#[test]
fn a_quantity_equals_itself_and_one_built_alike() {
    for m in [0.0f64, -0.0, 1.0, -1.0, 5.0, 1.0e-310, 1.7e308, f64::INFINITY, f64::NEG_INFINITY] {
        let ohm = Ohm::new(m.to_bits());
        assert_eq!(ohm, ohm);
        assert_eq!(ohm, Ohm::new(m.to_bits()));
        let farad = farads(m);
        assert_eq!(farad, farad);
        assert_eq!(farad, farads(m));
        let henry = Henry::new(m.to_bits());
        assert_eq!(henry, henry);
        assert_eq!(henry, Henry::new(m.to_bits()));
        let volt = Volt::new(m.to_bits());
        assert_eq!(volt, volt);
        assert_eq!(volt, Volt::new(m.to_bits()));
    }
}

#[test]
fn equality_is_that_of_the_numbers() {
    assert_eq!(Ohm::new(0.0f64.to_bits()), Ohm::new((-0.0f64).to_bits()));
    assert_ne!(Ohm::new(f64::NAN.to_bits()), Ohm::new(f64::NAN.to_bits()));
    assert_ne!(Volt::new(1.0f64.to_bits()), Volt::new((-1.0f64).to_bits()));
    assert_ne!(farads(0.1 + 0.2), farads(0.3));
    assert_eq!(farads(0.1 + 0.2), farads(0.30000000000000004));
    assert_ne!(Henry::new(1.0f64.to_bits()), Henry::new(1.0000000000000002f64.to_bits()));
}

#[test]
fn reciprocal_divides_one_by_the_magnitude() {
    assert_eq!(magnitude(farads(4.0).reciprocal()), 0.25);
    assert_eq!(magnitude(farads(0.25).reciprocal()), 4.0);
    assert_eq!(magnitude(farads(-2.0).reciprocal()), -0.5);
    assert_eq!(magnitude(farads(3.0).reciprocal()), 1.0 / 3.0);
    assert_eq!(magnitude(farads(4.7e-6).reciprocal()), 1.0 / 4.7e-6);
    assert_eq!(magnitude(farads(1.0).reciprocal()), 1.0);
}

#[test]
fn reciprocal_of_zero_is_infinite() {
    assert_eq!(magnitude(farads(0.0).reciprocal()), f64::INFINITY);
    assert_eq!(magnitude(farads(-0.0).reciprocal()), f64::NEG_INFINITY);
    assert_eq!(farads(f64::INFINITY).reciprocal().to_bits(), 0.0f64.to_bits());
    assert_eq!(farads(f64::NEG_INFINITY).reciprocal().to_bits(), (-0.0f64).to_bits());
    assert!(magnitude(farads(f64::NAN).reciprocal()).is_nan());
}

#[test]
fn reciprocal_of_a_reciprocal_comes_back() {
    for c in [1.0f64, 2.0, 4.0, 0.5, 0.125, 1024.0, -8.0, 10.0, 1.0e-6, 4.7e-6, 2.2e-9] {
        assert_eq!(magnitude(farads(c).reciprocal().reciprocal()), c);
    }
    for c in [3.0f64, 7.0, 1.0e-12, 47.0e-9, 0.1, 123456.789] {
        let back = magnitude(farads(c).reciprocal().reciprocal());
        assert!((back - c).abs() <= c.abs() * f64::EPSILON);
        assert_eq!(back, 1.0 / (1.0 / c));
    }
}

#[test]
fn sum_adds_the_magnitudes() {
    assert_eq!(magnitude(farads(0.25) + farads(0.25)), 0.5);
    assert_eq!(magnitude(farads(0.0) + farads(0.25)), 0.25);
    assert_eq!(magnitude(farads(0.1) + farads(0.2)), 0.1 + 0.2);
    assert_eq!(magnitude(farads(1.0) + farads(-1.0)), 0.0);
    assert_eq!(magnitude(farads(1.0e16) + farads(1.0)), 1.0e16 + 1.0);
    assert_eq!(magnitude(farads(f64::MAX) + farads(f64::MAX)), f64::INFINITY);
    assert!(magnitude(farads(f64::INFINITY) + farads(f64::NEG_INFINITY)).is_nan());
}

#[test]
fn accumulating_adds_in_place() {
    let mut total = farads(0.0);
    total += farads(4.0).reciprocal();
    assert_eq!(magnitude(total), 0.25);
    total += farads(4.0).reciprocal();
    assert_eq!(magnitude(total), 0.5);
    total += farads(-0.5);
    assert_eq!(total.to_bits(), 0.0f64.to_bits());
}

#[test]
fn reciprocal_of_a_reciprocal_is_within_one_unit_in_the_last_place() {
    let mut state = 0x6a09_e667_f3bc_c908u64;
    for _ in 0..200_000 {
        state ^= state << 13;
        state ^= state >> 7;
        state ^= state << 17;
        let exponent = 1 + (state >> 52) % 2044;
        let bits = (state & 0x800f_ffff_ffff_ffff) | (exponent << 52);
        let back = Farad::new(bits).reciprocal().reciprocal().to_bits();
        assert!(back.abs_diff(bits) <= 1, "{:#018x} {:#018x}", bits, back);
        let c = f64::from_bits(bits);
        assert_eq!(back, (1.0 / (1.0 / c)).to_bits());
    }
}

#[test]
fn reciprocal_of_a_power_of_two_is_exact() {
    for exponent in 1..=2045u64 {
        let bits = exponent << 52;
        let once = Farad::new(bits).reciprocal();
        assert_eq!(once.to_bits(), (2046 - exponent) << 52);
        assert_eq!(once.reciprocal().to_bits(), bits);
    }
}

#[test]
fn reciprocal_of_a_reciprocal_gives_a_subnormal_number_back() {
    let mut state = 0x510e_527f_ade6_82d1u64;
    let mut seen = 0;
    for _ in 0..200_000 {
        state ^= state << 13;
        state ^= state >> 7;
        state ^= state << 17;
        let bits = (state & 0x8000_0000_0000_0000) | (1 + (state >> 12) % ((1u64 << 52) - 1));
        let once = Farad::new(bits).reciprocal();
        assert_eq!(once.to_bits(), (1.0 / f64::from_bits(bits)).to_bits());
        if f64::from_bits(once.to_bits()).is_finite() {
            assert_eq!(once.reciprocal().to_bits(), bits);
            seen += 1;
        } else {
            assert_eq!(once.reciprocal().to_bits(), bits & 0x8000_0000_0000_0000);
        }
    }
    assert!(seen > 100_000);
    let smallest = (1u64 << 50) + 1;
    assert_eq!(Farad::new(smallest).reciprocal().reciprocal().to_bits(), smallest);
    assert_eq!(Farad::new(1u64 << 50).reciprocal().to_bits(), f64::INFINITY.to_bits());
    assert_eq!(Farad::new(1u64 << 51).reciprocal().to_bits(), 2046u64 << 52);
}

#[test]
fn reciprocal_of_the_largest_power_of_two_is_subnormal_and_comes_back() {
    let bits = 2046u64 << 52;
    assert_eq!(f64::from_bits(bits), 2.0f64.powi(1023));
    let once = Farad::new(bits).reciprocal();
    assert_eq!(once.to_bits(), 1u64 << 51);
    assert_eq!(once.reciprocal().to_bits(), bits);
    let negative = Farad::new(bits | (1 << 63)).reciprocal();
    assert_eq!(negative.to_bits(), (1u64 << 51) | (1 << 63));
    assert_eq!(negative.reciprocal().to_bits(), bits | (1 << 63));
}

#[test]
fn reciprocal_of_a_number_past_the_normal_reciprocals_is_subnormal() {
    let mut state = 0x9b05_688c_2b3e_6c1fu64;
    for _ in 0..100_000 {
        state ^= state << 13;
        state ^= state >> 7;
        state ^= state << 17;
        let exponent = 2045 + (state >> 60) % 2;
        let fraction = state & 0x000f_ffff_ffff_ffff;
        if exponent == 2045 && fraction == 0 {
            continue;
        }
        let once = Farad::new((exponent << 52) | fraction).reciprocal().to_bits();
        assert!(once < (1 << 52));
        assert!(once > 0);
    }
    assert_eq!(Farad::new(2045u64 << 52).reciprocal().to_bits(), 1u64 << 52);
}

#[test]
fn a_subnormal_number_added_to_itself_doubles_exactly() {
    for bits in [0u64, 1, 3, (1 << 51) - 1, 1 << 51, (1 << 52) - 1] {
        assert_eq!((farads(f64::from_bits(bits)) + farads(f64::from_bits(bits))).to_bits(), 2 * bits);
        let negative = bits | (1 << 63);
        assert_eq!(
            (Farad::new(negative) + Farad::new(negative)).to_bits(),
            (2 * bits) | (1 << 63)
        );
    }
}
