//! One labelled component of a circuit.
use vstd::prelude::*;
use crate::binary64::format::equal_spec;
use crate::units::farad::Farad;
use crate::units::henry::Henry;
use crate::units::ohm::Ohm;
use crate::units::volt::Volt;

verus! {

/// A component of a circuit: one of four kinds, each with the quantity that
/// measures it.
#[derive(Debug, Copy, Clone)]
pub enum Components {
    Resistor(Ohm),
    Capacitor(Farad),
    Inductor(Henry),
    Voltage(Volt),
}

impl Components {
    /// A resistor of the given resistance.
    pub fn from_resistor(ohm: Ohm) -> (r: Components)
        ensures
            r == Components::Resistor(ohm),
    {
        Components::Resistor(ohm)
    }

    /// A capacitor of the given capacitance.
    pub fn from_capacitor(farad: Farad) -> (r: Components)
        ensures
            r == Components::Capacitor(farad),
    {
        Components::Capacitor(farad)
    }

    /// An inductor of the given inductance.
    pub fn from_inductor(henry: Henry) -> (r: Components)
        ensures
            r == Components::Inductor(henry),
    {
        Components::Inductor(henry)
    }

    /// A voltage source of the given voltage.
    pub fn from_voltage(volt: Volt) -> (r: Components)
        ensures
            r == Components::Voltage(volt),
    {
        Components::Voltage(volt)
    }

    /// A resistor whose resistance in ohms has the encoding `ohm_bits`.
    pub fn new_resistor(ohm_bits: u64) -> (r: Components)
        ensures
            r == Components::Resistor(Ohm { bits: ohm_bits }),
    {
        Components::Resistor(Ohm::new(ohm_bits))
    }

    /// A capacitor whose capacitance in farads has the encoding `farad_bits`.
    pub fn new_capacitor(farad_bits: u64) -> (r: Components)
        ensures
            r == Components::Capacitor(Farad { bits: farad_bits }),
    {
        Components::Capacitor(Farad::new(farad_bits))
    }

    /// An inductor whose inductance in henries has the encoding `henry_bits`.
    pub fn new_inductor(henry_bits: u64) -> (r: Components)
        ensures
            r == Components::Inductor(Henry { bits: henry_bits }),
    {
        Components::Inductor(Henry::new(henry_bits))
    }

    /// A voltage source whose voltage in volts has the encoding `volt_bits`.
    pub fn new_voltage(volt_bits: u64) -> (r: Components)
        ensures
            r == Components::Voltage(Volt { bits: volt_bits }),
    {
        Components::Voltage(Volt::new(volt_bits))
    }

    /// Whether two components are of one kind and measure the same.
    pub open spec fn same(self, other: Components) -> bool {
        match (self, other) {
            (Components::Resistor(a), Components::Resistor(b)) => equal_spec(a.bits, b.bits),
            (Components::Capacitor(a), Components::Capacitor(b)) => equal_spec(a.bits, b.bits),
            (Components::Inductor(a), Components::Inductor(b)) => equal_spec(a.bits, b.bits),
            (Components::Voltage(a), Components::Voltage(b)) => equal_spec(a.bits, b.bits),
            _ => false,
        }
    }
}

impl PartialEq for Components {
    /// Two components are equal when they are of one kind and their
    /// quantities are equal.
    fn eq(&self, other: &Components) -> (r: bool) {
        match (self, other) {
            (Components::Resistor(a), Components::Resistor(b)) => a == b,
            (Components::Capacitor(a), Components::Capacitor(b)) => a == b,
            (Components::Inductor(a), Components::Inductor(b)) => a == b,
            (Components::Voltage(a), Components::Voltage(b)) => a == b,
            _ => false,
        }
    }
}

impl vstd::std_specs::cmp::PartialEqSpecImpl for Components {
    open spec fn obeys_eq_spec() -> bool {
        true
    }

    open spec fn eq_spec(&self, other: &Components) -> bool {
        self.same(*other)
    }
}

} // verus!
