//! Components connected end to end.
use vstd::prelude::*;
use crate::binary64::arithmetic::reciprocal_spec;
use crate::binary64::arithmetic::sum_spec;
use crate::circuits::components::Components;
use crate::units::farad::Farad;
use crate::units::henry::Henry;
use crate::units::ohm::Ohm;
use crate::units::volt::Volt;

verus! {

/// The sum of the reciprocals of the capacitances among `components`, added
/// up from the first to the last, each reciprocal and each sum rounded. The
/// result is the encoding of the sum; with no capacitor it is positive zero.
pub open spec fn reciprocal_sum(components: Seq<Components>) -> u64
    decreases components.len(),
{
    if components.len() == 0 {
        0
    } else {
        let before = reciprocal_sum(components.drop_last());
        match components.last() {
            Components::Capacitor(farad) => sum_spec(before, reciprocal_spec(farad.bits)),
            _ => before,
        }
    }
}

/// The capacitance that stands for all the capacitors among `components`
/// when they are connected in series: the reciprocal of the sum of their
/// reciprocals.
pub open spec fn series_capacitance(components: Seq<Components>) -> u64 {
    reciprocal_spec(reciprocal_sum(components))
}

/// Whether two sequences hold equal components at each place.
pub open spec fn same_components(a: Seq<Components>, b: Seq<Components>) -> bool {
    &&& a.len() == b.len()
    &&& forall|i: int| 0 <= i < a.len() ==> (#[trigger] a[i]).same(b[i])
}

/// Components connected in series, in the order of the wiring. A series is
/// made with one component and only ever grows, so it holds at least one.
#[derive(Debug)]
pub struct Series {
    components: Vec<Components>,
}

impl View for Series {
    type V = Seq<Components>;

    closed spec fn view(&self) -> Seq<Components> {
        self.components@
    }
}

impl Series {
    /// What every series that this library hands out satisfies: it holds at
    /// least one component.
    pub open spec fn well_formed(&self) -> bool {
        self@.len() > 0
    }

    /// The series that holds the one component.
    pub fn new(component: Components) -> (r: Series)
        ensures
            r@ == seq![component],
            r.well_formed(),
    {
        let mut components: Vec<Components> = Vec::new();
        components.push(component);
        assert(components@ =~= seq![component]);
        Series { components }
    }

    /// Connects one more component behind the last. Any component may follow
    /// any other.
    pub fn add(&mut self, component: Components)
        ensures
            final(self)@ == old(self)@.push(component),
            final(self).well_formed(),
    {
        self.components.push(component)
    }

    /// The components, from the first to the last.
    pub fn components(&self) -> (r: &Vec<Components>)
        ensures
            r@ == self@,
    {
        &self.components
    }

    /// The equivalent capacitance of the capacitors in the series; what is no
    /// capacitor is passed over. Without a capacitor the sum of reciprocals
    /// is zero and the result is its reciprocal, positive infinity.
    pub fn capacitance(&self) -> (r: Farad)
        ensures
            r.bits == series_capacitance(self@),
    {
        let mut total = Farad::new(0);
        let mut i: usize = 0;
        while i < self.components.len()
            invariant
                i <= self.components@.len(),
                total.bits == reciprocal_sum(self.components@.take(i as int)),
            decreases self.components@.len() - i,
        {
            assert(self.components@.take(i + 1).drop_last() =~= self.components@.take(i as int));
            match self.components[i] {
                Components::Capacitor(farad) => {
                    total = total + farad.reciprocal();
                },
                _ => {},
            }
            i = i + 1;
        }
        assert(self.components@.take(i as int) =~= self.components@);
        total.reciprocal()
    }

    /// The series that holds one resistor.
    pub fn from_resistor(ohm: Ohm) -> (r: Series)
        ensures
            r@ == seq![Components::Resistor(ohm)],
            r.well_formed(),
    {
        let component = Components::from_resistor(ohm);
        Series::new(component)
    }

    /// The series that holds one capacitor.
    pub fn from_capacitor(farad: Farad) -> (r: Series)
        ensures
            r@ == seq![Components::Capacitor(farad)],
            r.well_formed(),
    {
        let component = Components::from_capacitor(farad);
        Series::new(component)
    }

    /// The series that holds one inductor.
    pub fn from_inductor(henry: Henry) -> (r: Series)
        ensures
            r@ == seq![Components::Inductor(henry)],
            r.well_formed(),
    {
        let component = Components::from_inductor(henry);
        Series::new(component)
    }

    /// The series that holds one voltage source.
    pub fn from_voltage(volt: Volt) -> (r: Series)
        ensures
            r@ == seq![Components::Voltage(volt)],
            r.well_formed(),
    {
        let component = Components::from_voltage(volt);
        Series::new(component)
    }

    /// The series that holds one resistor, of the resistance in ohms whose
    /// encoding is `ohm_bits`.
    pub fn new_resistor(ohm_bits: u64) -> (r: Series)
        ensures
            r@ == seq![Components::Resistor(Ohm { bits: ohm_bits })],
            r.well_formed(),
    {
        let component = Components::new_resistor(ohm_bits);
        Series::new(component)
    }

    /// The series that holds one capacitor, of the capacitance in farads
    /// whose encoding is `farad_bits`.
    pub fn new_capacitor(farad_bits: u64) -> (r: Series)
        ensures
            r@ == seq![Components::Capacitor(Farad { bits: farad_bits })],
            r.well_formed(),
    {
        let component = Components::new_capacitor(farad_bits);
        Series::new(component)
    }

    /// The series that holds one inductor, of the inductance in henries whose
    /// encoding is `henry_bits`.
    pub fn new_inductor(henry_bits: u64) -> (r: Series)
        ensures
            r@ == seq![Components::Inductor(Henry { bits: henry_bits })],
            r.well_formed(),
    {
        let component = Components::new_inductor(henry_bits);
        Series::new(component)
    }

    /// The series that holds one voltage source, of the voltage in volts
    /// whose encoding is `volt_bits`.
    pub fn new_voltage(volt_bits: u64) -> (r: Series)
        ensures
            r@ == seq![Components::Voltage(Volt { bits: volt_bits })],
            r.well_formed(),
    {
        let component = Components::new_voltage(volt_bits);
        Series::new(component)
    }
}

impl Clone for Series {
    /// A series of its own that holds the same components in the same order.
    fn clone(&self) -> (r: Series)
        ensures
            r@ == self@,
    {
        let mut components: Vec<Components> = Vec::new();
        let mut i: usize = 0;
        while i < self.components.len()
            invariant
                i <= self.components@.len(),
                components@ == self.components@.take(i as int),
            decreases self.components@.len() - i,
        {
            components.push(self.components[i]);
            assert(self.components@.take(i + 1) =~= self.components@.take(i as int).push(
                self.components@[i as int],
            ));
            i = i + 1;
        }
        assert(self.components@.take(i as int) =~= self.components@);
        Series { components }
    }
}

impl PartialEq for Series {
    /// Two series are equal when they hold as many components and, place by
    /// place, equal ones.
    fn eq(&self, other: &Series) -> (r: bool) {
        if self.components.len() != other.components.len() {
            return false;
        }
        let mut i: usize = 0;
        while i < self.components.len()
            invariant
                i <= self.components@.len(),
                self.components@.len() == other.components@.len(),
                forall|j: int| 0 <= j < i ==> (#[trigger] self.components@[j]).same(other.components@[j]),
            decreases self.components@.len() - i,
        {
            if !(self.components[i] == other.components[i]) {
                return false;
            }
            i = i + 1;
        }
        true
    }
}

impl vstd::std_specs::cmp::PartialEqSpecImpl for Series {
    open spec fn obeys_eq_spec() -> bool {
        true
    }

    open spec fn eq_spec(&self, other: &Series) -> bool {
        same_components(self@, other@)
    }
}

} // verus!
