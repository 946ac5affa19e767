//! Polynomials, the bases they are written in, and rotations.
use crate::field::Field;
use core::marker::PhantomData;
use vstd::prelude::*;

verus! {

/// Describes the relative rotation of a vector. Negative numbers represent
/// reverse (leftmost) rotations and positive numbers represent forward (rightmost)
/// rotations. Zero represents no rotation.
#[derive(Copy, Clone, Debug, PartialEq, Eq, Structural)]
pub struct Rotation(pub i32);

impl Rotation {
    /// The current location in the evaluation domain
    pub fn cur() -> (r: Rotation)
        ensures
            r == Rotation(0),
    {
        Rotation(0)
    }

    /// The previous location in the evaluation domain
    pub fn prev() -> (r: Rotation)
        ensures
            r == Rotation(-1i32),
    {
        Rotation(-1)
    }

    /// The next location in the evaluation domain
    pub fn next() -> (r: Rotation)
        ensures
            r == Rotation(1),
    {
        Rotation(1)
    }
}

/// The basis over which a polynomial is described.
pub trait Basis: Sized {

}

/// The polynomial is defined as coefficients
#[derive(Clone, Copy, Debug)]
pub struct Coeff;

impl Basis for Coeff {

}

/// The polynomial is defined as coefficients of Lagrange basis polynomials
#[derive(Clone, Copy, Debug)]
pub struct LagrangeCoeff;

impl Basis for LagrangeCoeff {

}

/// The polynomial is defined as coefficients of Lagrange basis polynomials in
/// an extended size domain which supports multiplication
#[derive(Clone, Copy, Debug)]
pub struct ExtendedLagrangeCoeff;

impl Basis for ExtendedLagrangeCoeff {

}

/// Represents a univariate polynomial defined over a field and a particular
/// basis.
#[derive(Debug)]
pub struct Polynomial<F, B> {
    pub values: Vec<F>,
    pub _marker: PhantomData<B>,
}

impl<F, B> Polynomial<F, B> {
    /// Wraps coefficients, or evaluations, in order.
    pub fn new(values: Vec<F>) -> (r: Self)
        ensures
            r.values@ == values@,
    {
        Polynomial { values, _marker: PhantomData }
    }

    /// Gets the size of this polynomial in terms of the number of coefficients used
    /// to describe it.
    pub fn len(&self) -> (r: usize)
        ensures
            r == self.values@.len(),
    {
        self.values.len()
    }
}

/// A copy of `values`.
pub fn copy_values<F: Field>(values: &[F]) -> (r: Vec<F>)
    ensures
        r@ == values@,
{
    let mut r: Vec<F> = Vec::with_capacity(values.len());
    let mut i: usize = 0;
    while i < values.len()
        invariant
            i <= values@.len(),
            r@ == values@.take(i as int),
        decreases values@.len() - i,
    {
        r.push(values[i]);
        i += 1;
        assert(r@ =~= values@.take(i as int));
    }
    assert(values@.take(i as int) =~= values@);
    r
}

impl<F: Field, B> Clone for Polynomial<F, B> {
    fn clone(&self) -> (r: Self)
        ensures
            r.values@ == self.values@,
    {
        Polynomial { values: copy_values(self.values.as_slice()), _marker: PhantomData }
    }
}

/// The canonical representatives of a sequence of field elements.
pub open spec fn vals<F: Field>(s: Seq<F>) -> Seq<int> {
    Seq::new(s.len(), |i: int| s[i].val())
}

} // verus!
