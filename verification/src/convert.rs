//! Changes of basis, and the operations on extended polynomials.
use crate::arith;
use crate::ast::share;
use crate::dft;
use crate::domain;
use crate::domain::{EvaluationDomain, power_of_two};
use crate::fft;
use crate::fft::{
    bitreverse_permute, butterfly_twiddle_tables, fft_zero_padded, fft_zero_padded_with_twiddles,
    ifft, recursive_butterfly_after_prefix, scale_all, twiddle_table,
};
use crate::field::{Field, TWO_ADICITY};
use crate::poly;
use crate::poly::{Coeff, ExtendedLagrangeCoeff, LagrangeCoeff, Polynomial, Rotation};
use crate::transform;
use crate::transform::power_of_two_difference;
use std::sync::Arc;
use vstd::arithmetic::div_mod::*;
use vstd::arithmetic::mul::*;
use vstd::arithmetic::power::*;
use vstd::arithmetic::power2::*;
use vstd::prelude::*;

verus! {

/// FFT twiddles retained by a proving key.
///
/// Clones share all retained allocations. This matters because proving keys are
/// cloneable and these tables are intended to be retained, not rebuilt.
pub struct ProvingKeyTwiddles<F> {
    pub base_inverse: Arc<Vec<F>>,
    pub extended_forward: Arc<Vec<F>>,
    pub base_inverse_tables: Arc<Vec<Vec<F>>>,
    pub extended_forward_tables: Arc<Vec<Vec<F>>>,
}

impl<F> Clone for ProvingKeyTwiddles<F> {
    fn clone(&self) -> (r: Self)
        ensures
            r == *self,
    {
        ProvingKeyTwiddles {
            base_inverse: share(&self.base_inverse),
            extended_forward: share(&self.extended_forward),
            base_inverse_tables: share(&self.base_inverse_tables),
            extended_forward_tables: share(&self.extended_forward_tables),
        }
    }
}

impl<F: Field> ProvingKeyTwiddles<F> {
    /// The tables are those of the domain.
    pub open spec fn fits(&self, domain: &EvaluationDomain<F>) -> bool {
        &&& fft::powers_of(self.base_inverse@, domain.omega_inv.val())
        &&& self.base_inverse@.len() == pow2(domain.k as nat) as int / 2
        &&& fft::tables_fit(
            self.base_inverse_tables@,
            self.base_inverse@,
            pow2(domain.k as nat) as int,
            0,
            1,
        )
        &&& fft::powers_of(self.extended_forward@, domain.extended_omega.val())
        &&& self.extended_forward@.len() == pow2(domain.extended_k as nat) as int / 2
        &&& fft::tables_fit(
            self.extended_forward_tables@,
            self.extended_forward@,
            pow2(domain.extended_k as nat) as int,
            0,
            1,
        )
    }
}

/// Represents the minimal parameters that determine an `EvaluationDomain`.
#[derive(Debug)]
pub struct PinnedEvaluationDomain<'a, F> {
    pub k: &'a u32,
    pub extended_k: &'a u32,
    pub omega: &'a F,
}

/// Transforms with the twiddles of a root.
pub fn fft_with_twiddles<F: Field>(
    a: &mut Vec<F>,
    log_n: u32,
    twiddles: &Vec<F>,
    tables: &Vec<Vec<F>>,
    Ghost(w): Ghost<int>,
)
    requires
        log_n <= TWO_ADICITY,
        old(a)@.len() == pow2(log_n as nat),
        fft::has_order(w, log_n as nat, F::order()),
        fft::powers_of(twiddles@, w),
        twiddles@.len() == pow2(log_n as nat) as int / 2,
        fft::tables_fit(tables@, twiddles@, pow2(log_n as nat) as int, 0, 1),
    ensures
        final(a)@.len() == old(a)@.len(),
        fft::transformed(poly::vals(final(a)@), poly::vals(old(a)@), w, 1, F::order()),
{
    let ghost l = log_n as nat;
    let ghost s = poly::vals(a@);
    bitreverse_permute(a.as_mut_slice(), log_n);
    proof {
        F::lemma_order();
        let v = poly::vals(a@);
        assert forall|i: int| 0 <= i < v.len() implies #[trigger] v[i] == s[fft::reversed(
            i as nat,
            l,
        ) as int] by {
            fft::lemma_reversed_bound(i as nat, l);
            assert(a@[i] == old(a)@[fft::reversed(i as nat, l) as int]);
        }
        fft::lemma_reversed_done(v, s, l, w, 1, F::order());
        lemma2_to64();
        if l > 0 {
            lemma_pow2_unfold(l);
        }
    }
    recursive_butterfly_after_prefix(
        a.as_mut_slice(),
        1,
        1,
        twiddles.as_slice(),
        tables,
        0,
        Ghost(s),
        Ghost(w),
        Ghost(l),
        Ghost(0nat),
    );
}

pub proof fn lemma_vals_reduced<F: Field>(s: Seq<F>)
    ensures
        forall|i: int| 0 <= i < s.len() ==> 0 <= #[trigger] poly::vals(s)[i] < F::order(),
        forall|i: int| 0 <= i < s.len() ==> #[trigger] poly::vals(s)[i] % F::order() == poly::vals(s)[i],
{
    assert forall|i: int| 0 <= i < s.len() implies 0 <= #[trigger] poly::vals(s)[i] < F::order() by {
        F::lemma_val(s[i]);
    }
    assert forall|i: int| 0 <= i < s.len() implies #[trigger] poly::vals(s)[i] % F::order() == poly::vals(
        s,
    )[i] by {
        F::lemma_val(s[i]);
        arith::lemma_mod_small(s[i].val(), F::order());
    }
}

impl<F: Field> EvaluationDomain<F> {
    /// The coefficients give the values at the powers of $\omega$.
    pub open spec fn interpolates(&self, c: Seq<int>, a: Seq<int>) -> bool {
        &&& c.len() == pow2(self.k as nat)
        &&& a.len() == pow2(self.k as nat)
        &&& fft::transformed_back(c, a, self.omega.val(), F::order())
    }

    /// The coefficients, all below the order, give the values on the extended coset.
    pub open spec fn interpolates_coset(&self, c: Seq<int>, a: Seq<int>) -> bool {
        &&& c.len() == pow2(self.extended_k as nat)
        &&& a.len() == pow2(self.extended_k as nat)
        &&& forall|i: int| 0 <= i < c.len() ==> 0 <= #[trigger] c[i] < F::order()
        &&& forall|i: int|
            0 <= i < a.len() ==> arith::eqm(arith::poly_at(c, self.point(i)), #[trigger] a[i], F::order())
    }

    /// The coefficients, all below the order, give on the extended coset the quotients
    /// of the values by the vanishing polynomial of the domain.
    pub open spec fn is_quotient(&self, c: Seq<int>, a: Seq<int>) -> bool {
        &&& c.len() == pow2(self.extended_k as nat)
        &&& a.len() == pow2(self.extended_k as nat)
        &&& forall|i: int| 0 <= i < c.len() ==> 0 <= #[trigger] c[i] < F::order()
        &&& forall|i: int|
            0 <= i < a.len() ==> arith::eqm(
                arith::poly_at(c, self.point(i)) * self.vanishing(i),
                #[trigger] a[i],
                F::order(),
            )
    }

    /// This takes us from an n-length vector into the coefficient form.
    pub fn lagrange_to_coeff(&self, a: Polynomial<F, LagrangeCoeff>) -> (r: Polynomial<F, Coeff>)
        requires
            self.wf(),
            a.values@.len() == self.n,
        ensures
            self.interpolates(poly::vals(r.values@), poly::vals(a.values@)),
    {
        let mut values = a.values;
        proof {
            self.lemma_roots();
        }
        ifft(&mut values, self.omega_inv, self.k, self.ifft_divisor, Ghost(self.omega.val()));
        Polynomial::new(values)
    }

    /// Converts a Lagrange polynomial to coefficient form using proving-key
    /// twiddles.
    pub fn lagrange_to_coeff_with_twiddles(
        &self,
        polynomial: Polynomial<F, LagrangeCoeff>,
        twiddles: &ProvingKeyTwiddles<F>,
    ) -> (r: Polynomial<F, Coeff>)
        requires
            self.wf(),
            twiddles.fits(self),
            polynomial.values@.len() == self.n,
        ensures
            self.interpolates(poly::vals(r.values@), poly::vals(polynomial.values@)),
    {
        let mut values = polynomial.values;
        let ghost a = poly::vals(values@);
        let ghost v = self.omega_inv.val();
        let ghost l = self.k as nat;
        let ghost p = F::order();
        proof {
            self.lemma_roots();
            dft::lemma_root_pair_swap(self.omega.val(), v, l, p);
        }
        fft_with_twiddles(
            &mut values,
            self.k,
            &twiddles.base_inverse,
            &twiddles.base_inverse_tables,
            Ghost(v),
        );
        let ghost b = poly::vals(values@);
        scale_all(&mut values, self.ifft_divisor);
        proof {
            let d = self.ifft_divisor.val();
            let c = poly::vals(values@);
            assert forall|m: int| 0 <= m < c.len() implies arith::eqm(
                #[trigger] c[m],
                arith::poly_at(a, pow(v, m as nat)) * d,
                p,
            ) by {
                assert(values@[m].val() == (b[m] * d) % p);
                assert(arith::eqm(b[m], arith::poly_at(a, pow(v, (1 * m) as nat)), p));
                arith::lemma_eqm_mul(b[m], arith::poly_at(a, pow(v, m as nat)), d, d, p);
                arith::lemma_mod_range(b[m] * d, p);
            }
            fft::lemma_interpolates(c, a, self.omega.val(), v, d, l, p);
        }
        Polynomial::new(values)
    }

    /// Multiplies `a[i]` by `zeta^i`, or by its inverse, which repeat after three.
    pub fn distribute_powers_zeta(&self, a: &mut Vec<F>, into_coset: bool)
        requires
            self.wf(),
        ensures
            final(a)@.len() == old(a)@.len(),
            forall|i: int|
                0 <= i < final(a)@.len() ==> arith::eqm(
                    (#[trigger] final(a)@[i]).val(),
                    old(a)@[i].val() * pow(
                        if into_coset {
                            F::cube_root()
                        } else {
                            F::cube_root() * F::cube_root()
                        },
                        i as nat,
                    ),
                    F::order(),
                ),
    {
        let first = if into_coset {
            self.g_coset
        } else {
            self.g_coset_inv
        };
        let second = if into_coset {
            self.g_coset_inv
        } else {
            self.g_coset
        };
        let n: usize = a.len();
        let mut i: usize = 0;
        let ghost p = F::order();
        let ghost g = F::cube_root();
        let ghost h = if into_coset {
            g
        } else {
            g * g
        };
        proof {
            F::lemma_order();
            transform::lemma_cube::<F>();
            arith::lemma_mod_range(g * g, p);
            assert((g * g) * ((g * g) * (g * g)) == (g * (g * g)) * (g * (g * g)))
                by (nonlinear_arith);
            arith::lemma_eqm_mul(g * (g * g), 1, g * (g * g), 1, p);
            assert((g * g) * (g * g) == (g * (g * g)) * g) by (nonlinear_arith);
            arith::lemma_eqm_mul(g * (g * g), 1, g, g, p);
            lemma_mul_basics(g);
            assert(arith::eqm(first.val(), h, p));
            assert(arith::eqm(second.val(), h * h, p));
        }
        while i < n
            invariant
                i <= n,
                n == a@.len(),
                n == old(a)@.len(),
                p == F::order(),
                p > 2,
                arith::eqm(h * (h * h), 1, p),
                arith::eqm(first.val(), h, p),
                arith::eqm(second.val(), h * h, p),
                forall|k: int| i <= k < n ==> #[trigger] a@[k] == old(a)@[k],
                forall|k: int|
                    0 <= k < i ==> arith::eqm(
                        (#[trigger] a@[k]).val(),
                        old(a)@[k].val() * pow(h, k as nat),
                        p,
                    ),
            decreases n - i,
        {
            let x = a[i];
            let rest: usize = i % 3;
            let y = if rest == 0 {
                x
            } else if rest == 1 {
                x.mul(first)
            } else {
                x.mul(second)
            };
            proof {
                transform::lemma_cube_powers(h, i as nat, p);
                let e = pow(h, i as nat);
                let v = x.val();
                if rest == 0 {
                    arith::lemma_eqm_mul(v, v, e, 1, p);
                    lemma_mul_basics(v);
                } else if rest == 1 {
                    arith::lemma_eqm_mul(v, v, first.val(), e, p);
                    arith::lemma_mod_range(v * first.val(), p);
                } else {
                    arith::lemma_eqm_mul(v, v, second.val(), e, p);
                    arith::lemma_mod_range(v * second.val(), p);
                }
            }
            a.set(i, y);
            i += 1;
        }
    }

    /// The values of a twisted polynomial at the powers of a root.
    proof fn lemma_extended(&self, v: Seq<int>, t: Seq<int>, a: Seq<int>)
        requires
            self.wf(),
            t.len() == a.len(),
            forall|i: int|
                0 <= i < t.len() ==> arith::eqm(
                    #[trigger] t[i],
                    a[i] * pow(F::cube_root(), i as nat),
                    F::order(),
                ),
            fft::transformed(v, t, self.extended_omega.val(), 1, F::order()),
        ensures
            forall|i: int|
                0 <= i < v.len() ==> arith::eqm(#[trigger] v[i], arith::poly_at(a, self.point(i)), F::order()),
    {
        F::lemma_order();
        let p = F::order();
        let g = F::cube_root();
        let w = self.extended_omega.val();
        assert forall|i: int| 0 <= i < v.len() implies arith::eqm(
            #[trigger] v[i],
            arith::poly_at(a, self.point(i)),
            p,
        ) by {
            let x = pow(w, i as nat);
            assert(arith::eqm(v[i], arith::poly_at(t, pow(w, (1 * i) as nat)), p));
            assert forall|k: int| 0 <= k < t.len() implies arith::eqm(
                #[trigger] t[k],
                dft::twisted(a, g)[k],
                p,
            ) by {
                assert(arith::eqm(t[k], a[k] * pow(g, k as nat), p));
            }
            arith::lemma_poly_at_eqm(t, dft::twisted(a, g), x, x, p);
            dft::lemma_poly_at_twisted(a, g, x);
        }
    }

    /// This takes us from an n-length coefficient vector into a coset of the extended
    /// evaluation domain.
    pub fn coeff_to_extended(&self, a: Polynomial<F, Coeff>) -> (r: Polynomial<
        F,
        ExtendedLagrangeCoeff,
    >)
        requires
            self.wf(),
            a.values@.len() == self.n,
        ensures
            self.evaluates(poly::vals(r.values@), poly::vals(a.values@)),
    {
        let mut values = a.values;
        let ghost s = poly::vals(values@);
        self.distribute_powers_zeta(&mut values, true);
        let ghost t = poly::vals(values@);
        proof {
            self.lemma_roots();
            assert forall|i: int| 0 <= i < t.len() implies arith::eqm(
                #[trigger] t[i],
                s[i] * pow(F::cube_root(), i as nat),
                F::order(),
            ) by {
                assert(arith::eqm(
                    values@[i].val(),
                    a.values@[i].val() * pow(F::cube_root(), i as nat),
                    F::order(),
                ));
            }
        }
        fft_zero_padded(&mut values, self.extended_omega, self.k, self.extended_k);
        proof {
            self.lemma_extended(poly::vals(values@), t, s);
            lemma_vals_reduced(values@);
        }
        Polynomial::new(values)
    }

    /// The values of the coefficients on the extended coset.
    pub open spec fn evaluates(&self, v: Seq<int>, c: Seq<int>) -> bool {
        &&& v.len() == pow2(self.extended_k as nat)
        &&& forall|i: int|
            0 <= i < v.len() ==> #[trigger] v[i] == arith::poly_at(c, self.point(i)) % F::order()
    }

    /// Converts a coefficient polynomial to extended-coset form using
    /// proving-key twiddles.
    pub fn coeff_to_extended_with_twiddles(
        &self,
        polynomial: Polynomial<F, Coeff>,
        twiddles: &ProvingKeyTwiddles<F>,
    ) -> (r: Polynomial<F, ExtendedLagrangeCoeff>)
        requires
            self.wf(),
            twiddles.fits(self),
            polynomial.values@.len() == self.n,
        ensures
            self.evaluates(poly::vals(r.values@), poly::vals(polynomial.values@)),
    {
        let mut values = polynomial.values;
        let ghost s = poly::vals(values@);
        self.distribute_powers_zeta(&mut values, true);
        let ghost t = poly::vals(values@);
        proof {
            self.lemma_roots();
            assert forall|i: int| 0 <= i < t.len() implies arith::eqm(
                #[trigger] t[i],
                s[i] * pow(F::cube_root(), i as nat),
                F::order(),
            ) by {
                assert(arith::eqm(
                    values@[i].val(),
                    polynomial.values@[i].val() * pow(F::cube_root(), i as nat),
                    F::order(),
                ));
            }
        }
        fft_zero_padded_with_twiddles(
            &mut values,
            self.k,
            self.extended_k,
            twiddles.extended_forward.as_slice(),
            &twiddles.extended_forward_tables,
            Ghost(self.extended_omega.val()),
        );
        proof {
            self.lemma_extended(poly::vals(values@), t, s);
            lemma_vals_reduced(values@);
        }
        Polynomial::new(values)
    }

    /// Builds the FFT twiddles retained by a proving key.
    pub fn proving_key_twiddles(&self) -> (r: ProvingKeyTwiddles<F>)
        requires
            self.wf(),
        ensures
            r.fits(self),
    {
        proof {
            domain::lemma_sizes(self.k as nat, self.extended_k as nat);
        }
        let n: usize = power_of_two(self.k);
        let extended: usize = self.extended_len();
        let base_inverse = twiddle_table(self.omega_inv, n);
        let extended_forward = twiddle_table(self.extended_omega, extended);
        let base_inverse_tables = butterfly_twiddle_tables(
            base_inverse.as_slice(),
            n,
            Ghost(self.k as nat),
        );
        let extended_forward_tables = butterfly_twiddle_tables(
            extended_forward.as_slice(),
            extended,
            Ghost(self.extended_k as nat),
        );
        ProvingKeyTwiddles {
            base_inverse: Arc::new(base_inverse),
            extended_forward: Arc::new(extended_forward),
            base_inverse_tables: Arc::new(base_inverse_tables),
            extended_forward_tables: Arc::new(extended_forward_tables),
        }
    }

    /// Converts several Lagrange polynomials to coefficient and
    /// extended-coset form.
    pub fn batch_lagrange_to_coeff_and_extended(
        &self,
        polynomials: &Vec<Polynomial<F, LagrangeCoeff>>,
        twiddles: &ProvingKeyTwiddles<F>,
    ) -> (r: (Vec<Polynomial<F, Coeff>>, Vec<Polynomial<F, ExtendedLagrangeCoeff>>))
        requires
            self.wf(),
            twiddles.fits(self),
            forall|i: int|
                0 <= i < polynomials@.len() ==> (#[trigger] polynomials@[i]).values@.len()
                    == self.n,
        ensures
            r.0@.len() == polynomials@.len(),
            r.1@.len() == polynomials@.len(),
            forall|i: int|
                0 <= i < polynomials@.len() ==> self.interpolates(
                    poly::vals((#[trigger] r.0@[i]).values@),
                    poly::vals(polynomials@[i].values@),
                ),
            forall|i: int|
                0 <= i < polynomials@.len() ==> self.evaluates(
                    poly::vals((#[trigger] r.1@[i]).values@),
                    poly::vals(r.0@[i].values@),
                ),
    {
        let mut coefficients: Vec<Polynomial<F, Coeff>> = Vec::with_capacity(polynomials.len());
        let mut extended: Vec<Polynomial<F, ExtendedLagrangeCoeff>> = Vec::with_capacity(
            polynomials.len(),
        );
        let mut i: usize = 0;
        while i < polynomials.len()
            invariant
                i <= polynomials@.len(),
                self.wf(),
                twiddles.fits(self),
                forall|k: int|
                    0 <= k < polynomials@.len() ==> (#[trigger] polynomials@[k]).values@.len()
                        == self.n,
                coefficients@.len() == i,
                extended@.len() == i,
                forall|k: int|
                    0 <= k < i ==> self.interpolates(
                        poly::vals((#[trigger] coefficients@[k]).values@),
                        poly::vals(polynomials@[k].values@),
                    ),
                forall|k: int|
                    0 <= k < i ==> self.evaluates(
                        poly::vals((#[trigger] extended@[k]).values@),
                        poly::vals(coefficients@[k].values@),
                    ),
            decreases polynomials@.len() - i,
        {
            let c = self.lagrange_to_coeff_with_twiddles(polynomials[i].clone(), twiddles);
            let e = self.coeff_to_extended_with_twiddles(c.clone(), twiddles);
            coefficients.push(c);
            extended.push(e);
            i += 1;
        }
        (coefficients, extended)
    }

    /// Rotate the extended domain polynomial over the original domain.
    pub fn rotate_extended(
        &self,
        poly: &Polynomial<F, ExtendedLagrangeCoeff>,
        rotation: Rotation,
    ) -> (r: Polynomial<F, ExtendedLagrangeCoeff>)
        requires
            self.sized(),
            poly.values@.len() == self.view().extended_size(),
            self.view().extension() * rotation.0 <= poly.values@.len(),
            -(self.view().extension() * rotation.0) <= poly.values@.len(),
        ensures
            r.values@.len() == poly.values@.len(),
            forall|i: int|
                0 <= i < r.values@.len() ==> #[trigger] r.values@[i] == poly.values@[(i
                    + self.view().extension() * rotation.0) % (poly.values@.len() as int)],
    {
        let n: usize = poly.values.len();
        let extension: usize = power_of_two_difference(self.k, self.extended_k);
        let ghost shift = extension * rotation.0;
        let start: usize = if rotation.0 >= 0 {
            extension * (rotation.0 as usize)
        } else {
            let back: usize = (-(rotation.0 as i64)) as usize;
            proof {
                assert(extension * back == -(extension * rotation.0)) by (nonlinear_arith)
                    requires
                        back == -rotation.0,
                ;
            }
            n - extension * back
        };
        let mut values: Vec<F> = Vec::with_capacity(n);
        let mut i: usize = 0;
        while i < n
            invariant
                i <= n,
                n == poly.values@.len(),
                start <= n,
                start == shift || start == shift + n,
                values@.len() == i,
                forall|k: int|
                    0 <= k < i ==> #[trigger] values@[k] == poly.values@[(k + shift) % (n as int)],
            decreases n - i,
        {
            let at: usize = if i < n - start {
                start + i
            } else {
                i - (n - start)
            };
            proof {
                let x = i + shift;
                arith::lemma_mod_small(at as int, n as int);
                if x == at + n {
                    lemma_mod_add_multiples_vanish(at as int, n as int);
                } else if x == at - n {
                    lemma_mod_sub_multiples_vanish(at as int, n as int);
                }
            }
            values.push(poly.values[at]);
            i += 1;
        }
        Polynomial::new(values)
    }

    /// The inverse transform out of the coset.
    pub proof fn lemma_from_coset(&self, c: Seq<int>, b: Seq<int>, a: Seq<int>)
        requires
            self.wf(),
            a.len() == pow2(self.extended_k as nat),
            b.len() == a.len(),
            c.len() == a.len(),
            fft::transformed_back(b, a, self.extended_omega.val(), F::order()),
            forall|i: int|
                0 <= i < c.len() ==> arith::eqm(
                    #[trigger] c[i],
                    b[i] * pow(F::cube_root() * F::cube_root(), i as nat),
                    F::order(),
                ),
        ensures
            forall|i: int|
                0 <= i < a.len() ==> arith::eqm(
                    arith::poly_at(c, self.point(i)),
                    #[trigger] a[i],
                    F::order(),
                ),
    {
        F::lemma_order();
        transform::lemma_cube::<F>();
        let p = F::order();
        let g = F::cube_root();
        let h = g * g;
        let w = self.extended_omega.val();
        assert forall|i: int| 0 <= i < a.len() implies arith::eqm(
            arith::poly_at(c, self.point(i)),
            #[trigger] a[i],
            p,
        ) by {
            let x = pow(w, i as nat);
            assert(arith::eqm(arith::poly_at(b, x), a[i], p));
            dft::lemma_poly_at_twisted(c, g, x);
            assert forall|k: int| 0 <= k < c.len() implies arith::eqm(
                #[trigger] dft::twisted(c, g)[k],
                b[k],
                p,
            ) by {
                let e = k as nat;
                assert(arith::eqm(c[k], b[k] * pow(h, e), p));
                lemma_mul_is_commutative(g, h);
                dft::lemma_inverse_power(h, g, e, p);
                arith::lemma_eqm_mul(c[k], b[k] * pow(h, e), pow(g, e), pow(g, e), p);
                let (u, v, y) = (b[k], pow(h, e), pow(g, e));
                assert((u * v) * y == u * (v * y)) by (nonlinear_arith);
                arith::lemma_eqm_mul(u, u, v * y, 1, p);
                lemma_mul_basics(u);
            }
            arith::lemma_poly_at_eqm(dft::twisted(c, g), b, x, x, p);
        }
    }

    /// This takes us from the extended evaluation domain and gets us the
    /// quotient polynomial coefficients.
    pub fn extended_to_coeff(&self, a: Polynomial<F, ExtendedLagrangeCoeff>) -> (r: Vec<F>)
        requires
            self.wf(),
            a.values@.len() == self.view().extended_size(),
        ensures
            exists|c: Seq<int>| #[trigger]
                self.interpolates_coset(c, poly::vals(a.values@)) && poly::vals(r@) == c.take(
                    self.n * self.quotient_poly_degree,
                ),
    {
        let mut values = a.values;
        let ghost v = poly::vals(values@);
        proof {
            self.lemma_roots();
            F::lemma_order();
        }
        ifft(
            &mut values,
            self.extended_omega_inv,
            self.extended_k,
            self.extended_ifft_divisor,
            Ghost(self.extended_omega.val()),
        );
        let ghost b = poly::vals(values@);
        self.distribute_powers_zeta(&mut values, false);
        let ghost c = poly::vals(values@);
        proof {
            assert forall|i: int| 0 <= i < c.len() implies arith::eqm(
                #[trigger] c[i],
                b[i] * pow(F::cube_root() * F::cube_root(), i as nat),
                F::order(),
            ) by {
                assert(arith::eqm(
                    values@[i].val(),
                    b[i] * pow(F::cube_root() * F::cube_root(), i as nat),
                    F::order(),
                ));
            }
            self.lemma_from_coset(c, b, v);
            lemma_vals_reduced(values@);
            lemma_mul_nonnegative(self.n as int, self.quotient_poly_degree as int);
        }
        let keep: usize = (self.n * self.quotient_poly_degree) as usize;
        values.truncate(keep);
        proof {
            assert(self.interpolates_coset(c, v));
            assert(poly::vals(values@) =~= c.take(keep as int));
        }
        values
    }

    /// The vanishing polynomial repeats over the coset.
    pub proof fn lemma_vanishing_repeats(&self, i: nat, m: nat)
        requires
            self.wf(),
            m == pow2((self.extended_k - self.k) as nat),
        ensures
            arith::eqm(self.vanishing(i as int), self.vanishing((i % m) as int), F::order()),
    {
        F::lemma_order();
        transform::lemma_unity_root::<F>(self.extended_k as nat);
        let p = F::order();
        let w = self.extended_omega.val();
        let g = F::cube_root();
        let n = self.n as nat;
        lemma_pow2_pos((self.extended_k - self.k) as nat);
        let q = i / m;
        let r = i % m;
        lemma_fundamental_div_mod(i as int, m as int);
        transform::lemma_coset_value(g, w, n, i);
        transform::lemma_coset_value(g, w, n, r);
        let y = pow(w, n);
        lemma_mul_nonnegative(m as int, q as int);
        lemma_pow_adds(y, (m * q) as nat, r);
        lemma_pow_multiplies(y, m, q);
        lemma_pow_multiplies(w, n, m);
        domain::lemma_sizes(self.k as nat, self.extended_k as nat);
        assert(arith::eqm(pow(y, m), 1, p));
        arith::lemma_eqm_pow(pow(y, m), 1, q, p);
        transform::lemma_pow_ones(q);
        arith::lemma_eqm_mul(pow(y, (m * q) as nat), 1, pow(y, r), pow(y, r), p);
        lemma_mul_basics(pow(y, r));
        arith::lemma_eqm_mul(pow(g, n), pow(g, n), pow(y, i), pow(y, r), p);
        arith::lemma_eqm_sub(pow(g, n) * pow(y, i), pow(g, n) * pow(y, r), 1, 1, p);
    }

    /// This divides the polynomial (in the extended domain) by the vanishing
    /// polynomial of the $2^k$ size domain.
    pub fn divide_by_vanishing_poly(&self, a: Polynomial<F, ExtendedLagrangeCoeff>) -> (r:
        Polynomial<F, ExtendedLagrangeCoeff>)
        requires
            self.wf(),
            a.values@.len() == self.view().extended_size(),
        ensures
            r.values@.len() == a.values@.len(),
            forall|i: int|
                0 <= i < r.values@.len() ==> arith::eqm(
                    (#[trigger] r.values@[i]).val() * self.vanishing(i),
                    a.values@[i].val(),
                    F::order(),
                ),
    {
        let mut values = a.values;
        let n: usize = values.len();
        let m: usize = self.t_evaluations.len();
        let ghost p = F::order();
        let mut i: usize = 0;
        proof {
            F::lemma_order();
            lemma_pow2_pos((self.extended_k - self.k) as nat);
        }
        while i < n
            invariant
                i <= n,
                n == values@.len(),
                n == a.values@.len(),
                m > 0,
                m == self.t_evaluations@.len(),
                self.wf(),
                p == F::order(),
                p > 2,
                forall|k: int| i <= k < n ==> #[trigger] values@[k] == a.values@[k],
                forall|k: int|
                    0 <= k < i ==> arith::eqm(
                        (#[trigger] values@[k]).val() * self.vanishing(k),
                        a.values@[k].val(),
                        p,
                    ),
            decreases n - i,
        {
            let x = values[i];
            let t = self.t_evaluations[i % m];
            let y = x.mul(t);
            proof {
                let k = i as int % m as int;
                self.lemma_vanishing_repeats(i as nat, m as nat);
                assert(arith::eqm(self.t_evaluations@[k].val() * self.vanishing(k), 1, p));
                let (u, v, z) = (x.val(), t.val(), self.vanishing(i as int));
                arith::lemma_eqm_mul(v, v, z, self.vanishing(k), p);
                arith::lemma_eqm_mul(u, u, v * z, 1, p);
                assert((u * v) * z == u * (v * z)) by (nonlinear_arith);
                lemma_mul_basics(u);
                arith::lemma_mod_range(u * v, p);
                arith::lemma_eqm_mul((u * v) % p, u * v, z, z, p);
            }
            values.set(i, y);
            i += 1;
        }
        Polynomial::new(values)
    }

    /// Obtain a pinned version of this evaluation domain; a structure with the
    /// minimal parameters needed to determine the rest of the evaluation
    /// domain.
    pub fn pinned(&self) -> (r: PinnedEvaluationDomain<'_, F>)
        ensures
            *r.k == self.k,
            *r.extended_k == self.extended_k,
            *r.omega == self.omega,
    {
        PinnedEvaluationDomain { k: &self.k, extended_k: &self.extended_k, omega: &self.omega }
    }
}

} // verus!
