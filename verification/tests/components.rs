use series_circuit::circuits::components::Components;
use series_circuit::units::farad::Farad;
use series_circuit::units::henry::Henry;
use series_circuit::units::ohm::Ohm;
use series_circuit::units::volt::Volt;

#[test]
fn test_new_resistor() {
    let resistor = Components::from_resistor(Ohm::new(1.0f64.to_bits()));
    assert_eq!(resistor, Components::Resistor(Ohm::new(1.0f64.to_bits())));
}

#[test]
fn test_new_capacitor() {
    let capacitor = Components::from_capacitor(Farad::new(1.0f64.to_bits()));
    assert_eq!(capacitor, Components::Capacitor(Farad::new(1.0f64.to_bits())));
}

#[test]
fn test_new_inductor() {
    let inductor = Components::from_inductor(Henry::new(1.0f64.to_bits()));
    assert_eq!(inductor, Components::Inductor(Henry::new(1.0f64.to_bits())));
}

#[test]
fn test_new_voltage() {
    let voltage = Components::from_voltage(Volt::new(1.0f64.to_bits()));
    assert_eq!(voltage, Components::Voltage(Volt::new(1.0f64.to_bits())));
}

#[test]
fn wrapping_a_quantity_equals_building_from_its_magnitude() {
    assert_eq!(
        Components::from_resistor(Ohm::new(5.0f64.to_bits())),
        Components::new_resistor(5.0f64.to_bits())
    );
    assert_eq!(
        Components::from_capacitor(Farad::new(5.0f64.to_bits())),
        Components::new_capacitor(5.0f64.to_bits())
    );
    assert_eq!(
        Components::from_inductor(Henry::new(5.0f64.to_bits())),
        Components::new_inductor(5.0f64.to_bits())
    );
    assert_eq!(
        Components::from_voltage(Volt::new(5.0f64.to_bits())),
        Components::new_voltage(5.0f64.to_bits())
    );
}

#[test]
fn components_of_different_kinds_differ() {
    let bits = 1.0f64.to_bits();
    assert_ne!(Components::new_resistor(bits), Components::new_capacitor(bits));
    assert_ne!(Components::new_capacitor(bits), Components::new_inductor(bits));
    assert_ne!(Components::new_inductor(bits), Components::new_voltage(bits));
    assert_ne!(Components::new_voltage(bits), Components::new_resistor(bits));
}

#[test]
fn components_of_one_kind_differ_by_magnitude() {
    assert_ne!(
        Components::new_resistor(1.0f64.to_bits()),
        Components::new_resistor(2.0f64.to_bits())
    );
    assert_eq!(
        Components::new_voltage(0.0f64.to_bits()),
        Components::new_voltage((-0.0f64).to_bits())
    );
    assert_ne!(
        Components::new_inductor(f64::NAN.to_bits()),
        Components::new_inductor(f64::NAN.to_bits())
    );
}

#[test]
fn a_component_is_copied_by_value() {
    let first = Components::new_capacitor(3.5f64.to_bits());
    let second = first;
    assert_eq!(first, second);
    assert_eq!(first.clone(), second);
}
