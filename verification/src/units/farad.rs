//! Capacitance in farads.
use vstd::prelude::*;
use vstd::std_specs::cmp::PartialEqSpec;
use crate::binary64::format::equal;
use crate::binary64::format::equal_spec;
use crate::binary64::format::is_nan;
use crate::binary64::arithmetic::reciprocal;
use crate::binary64::arithmetic::reciprocal_spec;
use crate::binary64::arithmetic::sum;
use crate::binary64::arithmetic::sum_spec;

verus! {

/// A capacitance in farads: one binary64 magnitude, held by its encoding.
#[derive(Debug, Clone, Copy)]
pub struct Farad {
    pub bits: u64,
}

impl Farad {
    /// The quantity whose magnitude has the encoding `bits`. Every magnitude
    /// is taken as it is: zero, a negative number, an infinity or a NaN too.
    pub fn new(bits: u64) -> (r: Farad)
        ensures
            r.bits == bits,
    {
        Farad { bits }
    }

    /// The encoding of the magnitude.
    pub fn to_bits(&self) -> (r: u64)
        ensures
            r == self.bits,
    {
        self.bits
    }

    /// A quantity whose magnitude is a number equals itself and every
    /// quantity made from the same magnitude. One whose magnitude is a NaN
    /// equals nothing.
    pub proof fn lemma_equals_its_like(self, other: Farad)
        requires
            other.bits == self.bits,
        ensures
            self.eq_spec(&self) <==> !is_nan(self.bits),
            self.eq_spec(&other) <==> !is_nan(self.bits),
    {
    }

    /// The capacitance whose magnitude is one divided by this magnitude,
    /// rounded to the nearest binary64 number. A magnitude of zero has an
    /// infinite reciprocal; no magnitude is refused.
    pub fn reciprocal(&self) -> (r: Farad)
        ensures
            r.bits == reciprocal_spec(self.bits),
    {
        Farad { bits: reciprocal(self.bits) }
    }
}

impl core::ops::Add for Farad {
    type Output = Farad;

    /// The capacitance whose magnitude is the sum of the two magnitudes,
    /// rounded to the nearest binary64 number.
    fn add(self, rhs: Farad) -> (r: Farad) {
        Farad { bits: sum(self.bits, rhs.bits) }
    }
}

impl core::ops::AddAssign for Farad {
    /// Adds the magnitude of `rhs` to this one, rounded to the nearest
    /// binary64 number.
    fn add_assign(&mut self, rhs: Farad)
        ensures
            final(self).bits == sum_spec(old(self).bits, rhs.bits),
    {
        self.bits = sum(self.bits, rhs.bits);
    }
}

impl vstd::std_specs::ops::AddSpecImpl for Farad {
    open spec fn obeys_add_spec() -> bool {
        true
    }

    open spec fn add_req(self, rhs: Farad) -> bool {
        true
    }

    open spec fn add_spec(self, rhs: Farad) -> Farad {
        Farad { bits: sum_spec(self.bits, rhs.bits) }
    }
}

impl PartialEq for Farad {
    /// Two quantities are equal when their magnitudes are equal numbers.
    fn eq(&self, other: &Farad) -> (r: bool) {
        equal(self.bits, other.bits)
    }
}

impl vstd::std_specs::cmp::PartialEqSpecImpl for Farad {
    open spec fn obeys_eq_spec() -> bool {
        true
    }

    open spec fn eq_spec(&self, other: &Farad) -> bool {
        equal_spec(self.bits, other.bits)
    }
}

} // verus!
