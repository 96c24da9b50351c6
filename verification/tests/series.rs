use series_circuit::circuits::components::Components;
use series_circuit::circuits::series::Series;
use series_circuit::units::farad::Farad;
use series_circuit::units::henry::Henry;
use series_circuit::units::ohm::Ohm;
use series_circuit::units::volt::Volt;

fn capacitor(magnitude: f64) -> Components {
    Components::new_capacitor(magnitude.to_bits())
}

fn resistor(magnitude: f64) -> Components {
    Components::new_resistor(magnitude.to_bits())
}

fn capacitance(series: &Series) -> f64 {
    f64::from_bits(series.capacitance().to_bits())
}

#[test]
fn test_new() {
    let resistor = Series::new(Components::from_resistor(Ohm::new(1.0f64.to_bits())));
    let capacitor = Series::new(Components::from_capacitor(Farad::new(1.0f64.to_bits())));
    let inductor = Series::new(Components::from_inductor(Henry::new(1.0f64.to_bits())));
    let voltage = Series::new(Components::from_voltage(Volt::new(1.0f64.to_bits())));
    assert_eq!(*resistor.components(), vec![Components::Resistor(Ohm::new(1.0f64.to_bits()))]);
    assert_eq!(*capacitor.components(), vec![Components::Capacitor(Farad::new(1.0f64.to_bits()))]);
    assert_eq!(*inductor.components(), vec![Components::Inductor(Henry::new(1.0f64.to_bits()))]);
    assert_eq!(*voltage.components(), vec![Components::Voltage(Volt::new(1.0f64.to_bits()))]);
}

#[test]
fn the_constructors_of_one_component_agree() {
    let bits = 2.5f64.to_bits();
    assert_eq!(Series::from_resistor(Ohm::new(bits)), Series::new(Components::new_resistor(bits)));
    assert_eq!(Series::from_capacitor(Farad::new(bits)), Series::new(Components::new_capacitor(bits)));
    assert_eq!(Series::from_inductor(Henry::new(bits)), Series::new(Components::new_inductor(bits)));
    assert_eq!(Series::from_voltage(Volt::new(bits)), Series::new(Components::new_voltage(bits)));
    assert_eq!(Series::new_resistor(bits), Series::from_resistor(Ohm::new(bits)));
    assert_eq!(Series::new_capacitor(bits), Series::from_capacitor(Farad::new(bits)));
    assert_eq!(Series::new_inductor(bits), Series::from_inductor(Henry::new(bits)));
    assert_eq!(Series::new_voltage(bits), Series::from_voltage(Volt::new(bits)));
    assert_eq!(Series::new_voltage(bits).components().len(), 1);
}

#[test]
fn series_differ_by_length_kind_and_magnitude() {
    let mut longer = Series::new(resistor(1.0));
    longer.add(resistor(1.0));
    assert_ne!(longer, Series::new(resistor(1.0)));
    assert_ne!(Series::new(resistor(1.0)), Series::new(capacitor(1.0)));
    assert_ne!(Series::new(resistor(1.0)), Series::new(resistor(2.0)));
    let mut other = Series::new(resistor(1.0));
    other.add(resistor(3.0));
    assert_ne!(longer, other);
    assert_eq!(longer.clone(), longer);
}

#[test]
fn components_stay_in_the_order_they_were_added() {
    let a = resistor(1.0);
    let b = capacitor(2.0);
    let c = Components::new_inductor(3.0f64.to_bits());
    let mut series = Series::new(a);
    series.add(b);
    series.add(c);
    assert_eq!(*series.components(), vec![a, b, c]);
    series.add(a);
    assert_eq!(*series.components(), vec![a, b, c, a]);
}

#[test]
fn one_capacitor_has_its_own_capacitance() {
    for c in [1.0f64, 2.0, 4.0, 0.5, 1.0e-6, 4.7e-6, 1024.0] {
        assert_eq!(capacitance(&Series::new(capacitor(c))), c);
        assert_eq!(capacitance(&Series::new_capacitor(c.to_bits())), c);
        assert_eq!(capacitance(&Series::from_capacitor(Farad::new(c.to_bits()))), c);
    }
}

#[test]
fn two_equal_capacitors_halve_the_capacitance() {
    let mut series = Series::new(capacitor(2.0));
    series.add(capacitor(2.0));
    assert_eq!(capacitance(&series), 1.0);
    let mut series = Series::new(capacitor(4.0));
    series.add(capacitor(4.0));
    assert_eq!(capacitance(&series), 2.0);
    let mut series = Series::new(capacitor(1.0e-6));
    series.add(capacitor(1.0e-6));
    assert_eq!(capacitance(&series), 0.5e-6);
}

#[test]
fn capacitors_combine_by_the_sum_of_reciprocals() {
    let mut series = Series::new(capacitor(3.0));
    series.add(capacitor(6.0));
    assert_eq!(capacitance(&series), 1.0 / (1.0 / 3.0 + 1.0 / 6.0));
    series.add(capacitor(2.0));
    assert_eq!(capacitance(&series), 1.0 / (1.0 / 3.0 + 1.0 / 6.0 + 1.0 / 2.0));
    let mut series = Series::new(capacitor(1.0));
    series.add(capacitor(1.0));
    series.add(capacitor(0.5));
    assert_eq!(capacitance(&series), 0.25);
}

#[test]
fn what_is_no_capacitor_is_passed_over() {
    let mut series = Series::new(resistor(100.0));
    series.add(capacitor(4.0));
    assert_eq!(capacitance(&series), 4.0);
    let mut series = Series::new(capacitor(4.0));
    series.add(Components::new_inductor(0.5f64.to_bits()));
    series.add(capacitor(4.0));
    series.add(Components::new_voltage(9.0f64.to_bits()));
    series.add(resistor(0.0));
    assert_eq!(capacitance(&series), 2.0);
}

#[test]
fn without_a_capacitor_the_capacitance_is_infinite() {
    assert_eq!(capacitance(&Series::new(resistor(1.0))), f64::INFINITY);
    let mut series = Series::new_voltage(5.0f64.to_bits());
    series.add(Components::new_inductor(1.0f64.to_bits()));
    assert_eq!(series.capacitance().to_bits(), f64::INFINITY.to_bits());
}

#[test]
fn a_capacitor_of_zero_makes_the_capacitance_zero() {
    let mut series = Series::new(capacitor(0.0));
    assert_eq!(series.capacitance().to_bits(), 0.0f64.to_bits());
    series.add(capacitor(4.0));
    assert_eq!(series.capacitance().to_bits(), 0.0f64.to_bits());
    let mut series = Series::new(capacitor(f64::INFINITY));
    series.add(capacitor(4.0));
    assert_eq!(capacitance(&series), 4.0);
}

#[test]
fn capacitance_follows_the_sum_of_reciprocals_on_scattered_series() {
    let mut state = 0xbb67_ae85_84ca_a73bu64;
    let mut step = move || {
        state ^= state << 13;
        state ^= state >> 7;
        state ^= state << 17;
        state
    };
    for _ in 0..2_000 {
        let length = 1 + step() % 12;
        let mut series = Series::new_resistor(47.0f64.to_bits());
        let mut total = 0.0f64;
        for _ in 0..length {
            let exponent = 900 + step() % 200;
            let bits = (step() & 0x000f_ffff_ffff_ffff) | (exponent << 52);
            match step() % 4 {
                0 => series.add(Components::new_resistor(bits)),
                1 => series.add(Components::new_inductor(bits)),
                _ => {
                    series.add(Components::new_capacitor(bits));
                    total += 1.0 / f64::from_bits(bits);
                }
            }
        }
        assert_eq!(series.capacitance().to_bits(), (1.0 / total).to_bits());
        assert_eq!(series.components().len() as u64, length + 1);
    }
}

#[test]
fn one_capacitor_is_within_one_unit_in_the_last_place_of_itself() {
    for c in [3.0f64, 7.0, 0.1, 4.7e-6, 2.2e-9, 47.0e-12, 123456.789, 1.0e-15] {
        let bits = Series::new_capacitor(c.to_bits()).capacitance().to_bits();
        assert!(bits.abs_diff(c.to_bits()) <= 1);
        assert_eq!(bits, (1.0 / (0.0 + 1.0 / c)).to_bits());
    }
}

#[test]
fn two_capacitors_of_a_power_of_two_halve_exactly() {
    for exponent in 2..=2045u64 {
        let bits = exponent << 52;
        let mut series = Series::new_capacitor(bits);
        series.add(Components::new_capacitor(bits));
        assert_eq!(series.capacitance().to_bits(), bits - (1 << 52));
    }
}

#[test]
fn a_nan_among_the_capacitors_makes_the_capacitance_a_nan() {
    let mut series = Series::new(capacitor(2.0));
    series.add(capacitor(f64::NAN));
    assert!(capacitance(&series).is_nan());
    let mut series = Series::new(capacitor(0.0));
    series.add(capacitor(-0.0));
    assert!(capacitance(&series).is_nan());
}

#[test]
fn two_equal_capacitors_are_within_one_unit_in_the_last_place_of_half() {
    let mut state = 0x3c6e_f372_fe94_f82bu64;
    for _ in 0..100_000 {
        state ^= state << 13;
        state ^= state >> 7;
        state ^= state << 17;
        let exponent = 2 + (state >> 52) % 2043;
        let bits = (state & 0x800f_ffff_ffff_ffff) | (exponent << 52);
        let mut series = Series::new_capacitor(bits);
        series.add(Components::new_capacitor(bits));
        let half = bits - (1 << 52);
        assert_eq!(f64::from_bits(half), f64::from_bits(bits) / 2.0);
        assert!(series.capacitance().to_bits().abs_diff(half) <= 1);
    }
}

#[test]
fn one_subnormal_capacitor_has_its_own_capacitance() {
    for bits in [(1u64 << 50) + 1, 1 << 51, (1 << 51) + 12345, (1 << 52) - 1] {
        assert_eq!(Series::new_capacitor(bits).capacitance().to_bits(), bits);
    }
    assert_eq!(capacitance(&Series::new(capacitor(2.0f64.powi(-1023)))), 2.0f64.powi(-1023));
}

#[test]
fn a_capacitance_whose_reciprocal_overflows_gives_zero() {
    assert_eq!(Series::new_capacitor(1).capacitance().to_bits(), 0);
    assert_eq!(capacitance(&Series::new(capacitor(2.0f64.powi(-1074)))), 0.0);
    let mut series = Series::new(capacitor(2.0f64.powi(-1073)));
    series.add(capacitor(2.0f64.powi(-1073)));
    assert_eq!(series.capacitance().to_bits(), 0);
}

#[test]
fn two_equal_capacitors_halve_exactly_where_two_reciprocals_come_back() {
    let mut state = 0x1f83_d9ab_fb41_bd6bu64;
    let mut exact = 0;
    for _ in 0..100_000 {
        state ^= state << 13;
        state ^= state >> 7;
        state ^= state << 17;
        let exponent = 2 + (state >> 52) % 2043;
        let bits = (state & 0x800f_ffff_ffff_ffff) | (exponent << 52);
        let back = Farad::new(bits).reciprocal().reciprocal().to_bits();
        let mut series = Series::new_capacitor(bits);
        series.add(Components::new_capacitor(bits));
        assert_eq!(series.capacitance().to_bits(), back - (1 << 52));
        if back == bits {
            assert_eq!(capacitance(&series), f64::from_bits(bits) / 2.0);
            exact += 1;
        }
    }
    assert!(exact > 10_000);
    let mut series = Series::new(capacitor(1.0e-6));
    series.add(capacitor(1.0e-6));
    assert_eq!(capacitance(&series), 0.5e-6);
}

#[test]
fn two_capacitors_of_the_largest_power_of_two_halve_exactly() {
    let bits = 2046u64 << 52;
    let mut series = Series::new_capacitor(bits);
    series.add(Components::new_capacitor(bits));
    assert_eq!(series.capacitance().to_bits(), 2045u64 << 52);
}
