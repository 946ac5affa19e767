//! Blinding factors.
use crate::field::Field;
use vstd::prelude::*;

verus! {

/// Wrapper type around a blinding factor.
#[derive(Copy, Clone, Debug)]
pub struct Blind<F>(pub F);

impl<F: Field> Default for Blind<F> {
    /// The blinding factor one.
    fn default() -> (r: Self)
        ensures
            r.0.val() == 1,
    {
        Blind(F::one())
    }
}

impl<F: Field> Blind<F> {
    /// The sum of two blinding factors.
    pub fn add(self, rhs: Blind<F>) -> (r: Self)
        ensures
            r.0.val() == (self.0.val() + rhs.0.val()) % F::order(),
    {
        Blind(self.0.add(rhs.0))
    }

    /// The product of two blinding factors.
    pub fn mul(self, rhs: Blind<F>) -> (r: Self)
        ensures
            r.0.val() == (self.0.val() * rhs.0.val()) % F::order(),
    {
        Blind(self.0.mul(rhs.0))
    }

    /// Adds another blinding factor.
    pub fn add_assign(&mut self, rhs: Blind<F>)
        ensures
            final(self).0.val() == (old(self).0.val() + rhs.0.val()) % F::order(),
    {
        self.0 = self.0.add(rhs.0);
    }

    /// Multiplies by another blinding factor.
    pub fn mul_assign_blind(&mut self, rhs: Blind<F>)
        ensures
            final(self).0.val() == (old(self).0.val() * rhs.0.val()) % F::order(),
    {
        self.0 = self.0.mul(rhs.0);
    }

    /// Adds a field element.
    pub fn add_assign_scalar(&mut self, rhs: F)
        ensures
            final(self).0.val() == (old(self).0.val() + rhs.val()) % F::order(),
    {
        self.0 = self.0.add(rhs);
    }

    /// Multiplies by a field element.
    pub fn mul_assign(&mut self, rhs: F)
        ensures
            final(self).0.val() == (old(self).0.val() * rhs.val()) % F::order(),
    {
        self.0 = self.0.mul(rhs);
    }
}

} // verus!
