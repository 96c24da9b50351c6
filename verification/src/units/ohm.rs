//! Resistance in ohms.
use vstd::prelude::*;
use vstd::std_specs::cmp::PartialEqSpec;
use crate::binary64::format::equal;
use crate::binary64::format::equal_spec;
use crate::binary64::format::is_nan;

verus! {

/// A resistance in ohms: one binary64 magnitude, held by its encoding.
#[derive(Debug, Clone, Copy)]
pub struct Ohm {
    pub bits: u64,
}

impl Ohm {
    /// The quantity whose magnitude has the encoding `bits`. Every magnitude
    /// is taken as it is: zero, a negative number, an infinity or a NaN too.
    pub fn new(bits: u64) -> (r: Ohm)
        ensures
            r.bits == bits,
    {
        Ohm { bits }
    }

    /// The encoding of the magnitude.
    pub fn to_bits(&self) -> (r: u64)
        ensures
            r == self.bits,
    {
        self.bits
    }

    /// A quantity whose magnitude is a number equals itself and every
    /// quantity made from the same magnitude. One whose magnitude is a NaN
    /// equals nothing.
    pub proof fn lemma_equals_its_like(self, other: Ohm)
        requires
            other.bits == self.bits,
        ensures
            self.eq_spec(&self) <==> !is_nan(self.bits),
            self.eq_spec(&other) <==> !is_nan(self.bits),
    {
    }
}

impl PartialEq for Ohm {
    /// Two quantities are equal when their magnitudes are equal numbers.
    fn eq(&self, other: &Ohm) -> (r: bool) {
        equal(self.bits, other.bits)
    }
}

impl vstd::std_specs::cmp::PartialEqSpecImpl for Ohm {
    open spec fn obeys_eq_spec() -> bool {
        true
    }

    open spec fn eq_spec(&self, other: &Ohm) -> bool {
        equal_spec(self.bits, other.bits)
    }
}

} // verus!
