//! Evaluation domains: the roots of unity at which polynomials are evaluated.
use crate::field::{Field, TWO_ADICITY};
use crate::poly;
use crate::poly::{Coeff, ExtendedLagrangeCoeff, LagrangeCoeff, Polynomial};
use vstd::arithmetic::power2::*;
use vstd::prelude::*;

verus! {

/// This structure contains precomputed constants and other details needed for
/// performing operations on an evaluation domain of size $2^k$ and an extended
/// domain of size $2^{k} * j$ with $j \neq 0$.
pub struct EvaluationDomain<F> {
    pub n: u64,
    pub k: u32,
    pub extended_k: u32,
    pub omega: F,
    pub omega_inv: F,
    pub orchard_last_omega: F,
    pub extended_omega: F,
    pub extended_omega_inv: F,
    pub g_coset: F,
    pub g_coset_inv: F,
    pub quotient_poly_degree: u64,
    pub ifft_divisor: F,
    pub extended_ifft_divisor: F,
    pub sparse_vanishing_divisor: F,
    pub t_evaluations: Vec<F>,
    pub barycentric_weight: F,
}

/// What the rows of polynomials over a domain depend on.
pub struct DomainView {
    pub k: nat,
    pub extended_k: nat,
    pub omega: int,
    pub extended_omega: int,
    pub coset: int,
}

impl DomainView {
    pub open spec fn size(self) -> nat {
        pow2(self.k)
    }

    pub open spec fn extended_size(self) -> nat {
        pow2(self.extended_k)
    }

    /// How many steps of the extended domain make one step of the domain.
    pub open spec fn extension(self) -> nat {
        pow2((self.extended_k - self.k) as nat)
    }
}

impl<F: Field> EvaluationDomain<F> {
    pub open spec fn view(&self) -> DomainView {
        DomainView {
            k: self.k as nat,
            extended_k: self.extended_k as nat,
            omega: self.omega.val(),
            extended_omega: self.extended_omega.val(),
            coset: F::cube_root(),
        }
    }

    /// The sizes of the domain and of its extension.
    pub open spec fn sized(self) -> bool {
        &&& self.k <= self.extended_k <= TWO_ADICITY
        &&& self.n == pow2(self.k as nat)
        &&& pow2(self.extended_k as nat) <= usize::MAX
    }
}

/// `2^k` as a machine integer.
pub fn power_of_two(k: u32) -> (r: usize)
    requires
        pow2(k as nat) <= usize::MAX,
        k <= TWO_ADICITY,
    ensures
        r == pow2(k as nat),
{
    let mut r: usize = 1;
    let mut i: u32 = 0;
    proof {
        lemma2_to64();
    }
    while i < k
        invariant
            i <= k <= TWO_ADICITY,
            r == pow2(i as nat),
            pow2(k as nat) <= usize::MAX,
        decreases k - i,
    {
        proof {
            lemma_pow2_unfold((i + 1) as nat);
            if i + 1 < k {
                lemma_pow2_strictly_increases((i + 1) as nat, k as nat);
            }
        }
        r = r * 2;
        i += 1;
    }
    r
}

/// The same element many times.
pub fn repeated<F: Field>(value: F, n: usize) -> (r: Vec<F>)
    ensures
        r@.len() == n,
        forall|i: int| 0 <= i < n ==> #[trigger] r@[i] == value,
{
    let mut r: Vec<F> = Vec::with_capacity(n);
    let mut i: usize = 0;
    while i < n
        invariant
            i <= n,
            r@.len() == i,
            forall|k: int| 0 <= k < i ==> #[trigger] r@[k] == value,
        decreases n - i,
    {
        r.push(value);
        i += 1;
    }
    r
}

pub proof fn lemma_sizes(k: nat, extended_k: nat)
    requires
        k <= extended_k,
    ensures
        pow2(extended_k) == pow2(k) * pow2((extended_k - k) as nat),
        pow2(k) <= pow2(extended_k),
        pow2(k) >= 1,
{
    lemma_pow2_adds(k, (extended_k - k) as nat);
    lemma_pow2_pos(k);
    if k < extended_k {
        lemma_pow2_strictly_increases(k, extended_k);
    }
}

impl<F: Field> EvaluationDomain<F> {
    /// Get the size of the extended domain
    pub fn extended_len(&self) -> (r: usize)
        requires
            self.sized(),
        ensures
            r == self.view().extended_size(),
    {
        power_of_two(self.extended_k)
    }

    /// Get $\omega$, the generator of the $2^k$ order multiplicative subgroup.
    pub fn get_omega(&self) -> (r: F)
        ensures
            r == self.omega,
    {
        self.omega
    }

    /// Get $\omega^{-1}$, the inverse of the generator of the $2^k$ order
    /// multiplicative subgroup.
    pub fn get_omega_inv(&self) -> (r: F)
        ensures
            r == self.omega_inv,
    {
        self.omega_inv
    }

    /// Get the generator of the extended domain's multiplicative subgroup.
    pub fn get_extended_omega(&self) -> (r: F)
        ensures
            r == self.extended_omega,
    {
        self.extended_omega
    }

    /// Gets the quotient polynomial's degree (as a multiple of n)
    pub fn get_quotient_poly_degree(&self) -> (r: u64)
        ensures
            r == self.quotient_poly_degree,
    {
        self.quotient_poly_degree
    }

    /// Obtains a polynomial in Lagrange form from its `n` evaluations.
    pub fn lagrange_from_vec(&self, values: Vec<F>) -> (r: Polynomial<F, LagrangeCoeff>)
        requires
            values@.len() == self.n,
        ensures
            r.values@ == values@,
    {
        Polynomial::new(values)
    }

    /// Obtains a polynomial in coefficient form from its `n` coefficients.
    pub fn coeff_from_vec(&self, values: Vec<F>) -> (r: Polynomial<F, Coeff>)
        requires
            values@.len() == self.n,
        ensures
            r.values@ == values@,
    {
        Polynomial::new(values)
    }

    /// Returns an empty (zero) polynomial in the coefficient basis
    pub fn empty_coeff(&self) -> (r: Polynomial<F, Coeff>)
        requires
            self.n <= usize::MAX,
        ensures
            poly::vals(r.values@) == Seq::new(self.n as nat, |i: int| 0int),
    {
        let r = Polynomial::new(repeated(F::zero(), self.n as usize));
        assert(poly::vals(r.values@) =~= Seq::new(self.n as nat, |i: int| 0int));
        r
    }

    /// Returns an empty (zero) polynomial in the Lagrange coefficient basis
    pub fn empty_lagrange(&self) -> (r: Polynomial<F, LagrangeCoeff>)
        requires
            self.n <= usize::MAX,
        ensures
            poly::vals(r.values@) == Seq::new(self.n as nat, |i: int| 0int),
    {
        let r = Polynomial::new(repeated(F::zero(), self.n as usize));
        assert(poly::vals(r.values@) =~= Seq::new(self.n as nat, |i: int| 0int));
        r
    }

    /// Returns a constant polynomial in the Lagrange coefficient basis
    pub fn constant_lagrange(&self, scalar: F) -> (r: Polynomial<F, LagrangeCoeff>)
        requires
            self.n <= usize::MAX,
        ensures
            poly::vals(r.values@) == Seq::new(self.n as nat, |i: int| scalar.val()),
    {
        let r = Polynomial::new(repeated(scalar, self.n as usize));
        assert(poly::vals(r.values@) =~= Seq::new(self.n as nat, |i: int| scalar.val()));
        r
    }

    /// Returns an empty (zero) polynomial in the extended Lagrange coefficient
    /// basis
    pub fn empty_extended(&self) -> (r: Polynomial<F, ExtendedLagrangeCoeff>)
        requires
            self.sized(),
        ensures
            poly::vals(r.values@) == Seq::new(self.view().extended_size(), |i: int| 0int),
    {
        let r = Polynomial::new(repeated(F::zero(), self.extended_len()));
        assert(poly::vals(r.values@) =~= Seq::new(self.view().extended_size(), |i: int| 0int));
        r
    }

    /// Returns a constant polynomial in the extended Lagrange coefficient
    /// basis
    pub fn constant_extended(&self, scalar: F) -> (r: Polynomial<F, ExtendedLagrangeCoeff>)
        requires
            self.sized(),
        ensures
            poly::vals(r.values@) == Seq::new(self.view().extended_size(), |i: int| scalar.val()),
    {
        let r = Polynomial::new(repeated(scalar, self.extended_len()));
        assert(poly::vals(r.values@) =~= Seq::new(self.view().extended_size(), |i: int| scalar.val()));
        r
    }
}

} // verus!
