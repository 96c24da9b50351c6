//! Inductance in henries.
use vstd::prelude::*;
use vstd::std_specs::cmp::PartialEqSpec;
use crate::binary64::format::equal;
use crate::binary64::format::equal_spec;
use crate::binary64::format::is_nan;

verus! {

/// An inductance in henries: one binary64 magnitude, held by its encoding.
#[derive(Debug, Clone, Copy)]
pub struct Henry {
    pub bits: u64,
}

impl Henry {
    /// The quantity whose magnitude has the encoding `bits`. Every magnitude
    /// is taken as it is: zero, a negative number, an infinity or a NaN too.
    pub fn new(bits: u64) -> (r: Henry)
        ensures
            r.bits == bits,
    {
        Henry { bits }
    }

    /// The encoding of the magnitude.
    pub fn to_bits(&self) -> (r: u64)
        ensures
            r == self.bits,
    {
        self.bits
    }

    /// A quantity whose magnitude is a number equals itself and every
    /// quantity made from the same magnitude. One whose magnitude is a NaN
    /// equals nothing.
    pub proof fn lemma_equals_its_like(self, other: Henry)
        requires
            other.bits == self.bits,
        ensures
            self.eq_spec(&self) <==> !is_nan(self.bits),
            self.eq_spec(&other) <==> !is_nan(self.bits),
    {
    }
}

impl PartialEq for Henry {
    /// Two quantities are equal when their magnitudes are equal numbers.
    fn eq(&self, other: &Henry) -> (r: bool) {
        equal(self.bits, other.bits)
    }
}

impl vstd::std_specs::cmp::PartialEqSpecImpl for Henry {
    open spec fn obeys_eq_spec() -> bool {
        true
    }

    open spec fn eq_spec(&self, other: &Henry) -> bool {
        equal_spec(self.bits, other.bits)
    }
}

} // verus!
