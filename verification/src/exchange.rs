//! What the changes of basis give, point by point.
use crate::arith;
use crate::dft;
use crate::domain;
use crate::domain::EvaluationDomain;
use crate::field::Field;
use crate::points;
use crate::poly;
use crate::poly::{Coeff, ExtendedLagrangeCoeff, LagrangeCoeff, Polynomial};
use crate::transform;
use vstd::arithmetic::div_mod::*;
use vstd::arithmetic::mul::*;
use vstd::arithmetic::power::*;
use vstd::arithmetic::power2::*;
use vstd::prelude::*;

verus! {

/// The extended domain is the smallest that has room, and is no smaller than the domain.
pub proof fn law_extended_size(m: nat, k: nat)
    ensures
        transform::extended_log(m, k) >= k,
        pow2(transform::extended_log(m, k)) >= m,
        forall|e: nat| k <= e < transform::extended_log(m, k) ==> #[trigger] pow2(e) < m,
    decreases
            (if pow2(k) >= m {
                0
            } else {
                m - pow2(k)
            }),
{
    if pow2(k) < m {
        lemma_pow2_pos(k);
        lemma_pow2_unfold(k + 1);
        law_extended_size(m, k + 1);
    }
}

impl<F: Field> EvaluationDomain<F> {
    /// $\omega$ is the power of the field's root of unity whose order is the size of the
    /// domain, and that of the extended domain likewise.
    pub proof fn law_roots(&self)
        requires
            self.wf(),
        ensures
            self.omega.val() == pow(F::root(), pow2((32 - self.k) as nat)) % F::order(),
            self.extended_omega.val() == pow(F::root(), pow2((32 - self.extended_k) as nat))
                % F::order(),
            self.n * self.quotient_poly_degree <= pow2(self.extended_k as nat),
    {
    }

    /// The coefficients that [`EvaluationDomain::lagrange_to_coeff`] gives are as many as the
    /// values, and the polynomial has value `j` at $\omega^j$.
    pub proof fn law_coefficients_have_the_values(
        &self,
        values: Polynomial<F, LagrangeCoeff>,
        coefficients: Polynomial<F, Coeff>,
        j: nat,
    )
        requires
            self.wf(),
            self.interpolates(poly::vals(coefficients.values@), poly::vals(values.values@)),
            j < self.n,
        ensures
            values.values@.len() == self.n,
            coefficients.values@.len() == self.n,
            arith::poly_at(poly::vals(coefficients.values@), pow(self.omega.val(), j)) % F::order()
                == values.values@[j as int].val(),
    {
        let v = values.values@;
        assert(poly::vals(v).len() == v.len());
        assert(poly::vals(coefficients.values@).len() == coefficients.values@.len());
        assert(poly::vals(v)[j as int] == v[j as int].val());
        assert(arith::eqm(
            arith::poly_at(poly::vals(coefficients.values@), pow(self.omega.val(), j)),
            poly::vals(v)[j as int],
            F::order(),
        ));
        F::lemma_order();
        F::lemma_val(v[j as int]);
        arith::lemma_mod_small(v[j as int].val(), F::order());
    }

    /// What [`EvaluationDomain::coeff_to_extended`] gives are the values of the polynomial at
    /// the points of the coset, the cube root of unity times the powers of the extended
    /// $\omega$.
    pub proof fn law_extended_values(
        &self,
        coefficients: Polynomial<F, Coeff>,
        extended: Polynomial<F, ExtendedLagrangeCoeff>,
        i: nat,
    )
        requires
            self.wf(),
            self.evaluates(poly::vals(extended.values@), poly::vals(coefficients.values@)),
            i < extended.values@.len(),
        ensures
            extended.values@.len() == pow2(self.extended_k as nat),
            extended.values@[i as int].val() == arith::poly_at(
                poly::vals(coefficients.values@),
                F::cube_root() * pow(self.extended_omega.val(), i),
            ) % F::order(),
    {
        assert(poly::vals(extended.values@).len() == extended.values@.len());
        assert(poly::vals(extended.values@)[i as int] == extended.values@[i as int].val());
    }

    /// The coefficients that a change back from the extended basis gives are canonical, as
    /// many as the values, and the polynomial has the values at the points of the coset.
    pub proof fn law_coset_coefficients_have_the_values(&self, c: Seq<int>, v: Seq<int>, i: nat)
        requires
            self.wf(),
            self.interpolates_coset(c, v),
            i < v.len(),
        ensures
            c.len() == pow2(self.extended_k as nat),
            v.len() == pow2(self.extended_k as nat),
            0 <= c[i as int] < F::order(),
            arith::poly_at(c, F::cube_root() * pow(self.extended_omega.val(), i)) % F::order()
                == v[i as int] % F::order(),
    {
        assert(arith::eqm(arith::poly_at(c, self.point(i as int)), v[i as int], F::order()));
    }

    /// A quotient by the vanishing polynomial times `x^n - 1` is the numerator at every point
    /// `x` of the coset, where `x^n - 1` is not zero.
    pub proof fn law_quotient_times_vanishing(&self, c: Seq<int>, v: Seq<int>, i: nat, x: int)
        requires
            self.wf(),
            self.is_quotient(c, v),
            i < v.len(),
            x == F::cube_root() * pow(self.extended_omega.val(), i),
        ensures
            c.len() == pow2(self.extended_k as nat),
            v.len() == pow2(self.extended_k as nat),
            0 <= c[i as int] < F::order(),
            (arith::poly_at(c, x) * (pow(x, self.n as nat) - 1)) % F::order() == v[i as int]
                % F::order(),
            (pow(x, self.n as nat) - 1) % F::order() != 0,
    {
        assert(arith::eqm(
            arith::poly_at(c, self.point(i as int)) * self.vanishing(i as int),
            v[i as int],
            F::order(),
        ));
        self.lemma_vanishing_nonzero(i);
    }

    proof fn lemma_vanishing_nonzero(&self, i: nat)
        requires
            self.wf(),
        ensures
            !arith::eqm(self.vanishing(i as int), 0, F::order()),
    {
        let p = F::order();
        F::lemma_order();
        let m = pow2((self.extended_k - self.k) as nat);
        lemma_pow2_pos((self.extended_k - self.k) as nat);
        let k = (i as int) % (m as int);
        lemma_mod_bound(i as int, m as int);
        self.lemma_vanishing_repeats(i, m);
        let t = self.t_evaluations@[k].val();
        assert(arith::eqm(t * self.vanishing(k), 1, p));
        if arith::eqm(self.vanishing(i as int), 0, p) {
            arith::lemma_eqm_mul(t, t, self.vanishing(k), 0, p);
            lemma_mul_basics(t);
            arith::lemma_mod_small(0, p);
            arith::lemma_mod_small(1, p);
        }
    }

    /// What [`EvaluationDomain::divide_by_vanishing_poly`] gives times `x^n - 1` is what was
    /// divided, at every point `x` of the coset.
    pub proof fn law_divided_values(
        &self,
        numerator: Polynomial<F, ExtendedLagrangeCoeff>,
        r: Polynomial<F, ExtendedLagrangeCoeff>,
        i: nat,
        x: int,
    )
        requires
            self.wf(),
            r.values@.len() == numerator.values@.len(),
            arith::eqm(
                r.values@[i as int].val() * self.vanishing(i as int),
                numerator.values@[i as int].val(),
                F::order(),
            ),
            i < r.values@.len(),
            x == F::cube_root() * pow(self.extended_omega.val(), i),
        ensures
            (r.values@[i as int].val() * (pow(x, self.n as nat) - 1)) % F::order()
                == numerator.values@[i as int].val(),
            (pow(x, self.n as nat) - 1) % F::order() != 0,
    {
        F::lemma_order();
        F::lemma_val(numerator.values@[i as int]);
        arith::lemma_mod_small(numerator.values@[i as int].val(), F::order());
        self.lemma_vanishing_nonzero(i);
    }

    /// The pieces of a quotient are its coefficients, `n` by `n`.
    pub proof fn law_pieces(&self, r: Seq<Polynomial<F, Coeff>>, c: Seq<int>, b: int, j: int)
        requires
            self.wf(),
            self.pieces_of(r, c),
            r.len() == self.quotient_poly_degree,
            c.len() == pow2(self.extended_k as nat),
            0 <= b < r.len(),
            0 <= j < self.n,
        ensures
            r[b].values@.len() == self.n,
            r[b].values@[j].val() == c[self.n * b + j],
    {
        let n = self.n as int;
        assert(poly::vals(r[b].values@) == dft::block(c, n, b));
        assert(n * b + n <= c.len()) by (nonlinear_arith)
            requires
                0 <= b < r.len(),
                r.len() == self.quotient_poly_degree,
                n == self.n,
                n >= 0,
                self.n * self.quotient_poly_degree <= c.len(),
        ;
        assert(b * n == n * b) by (nonlinear_arith);
        assert((b + 1) * n == n * b + n) by (nonlinear_arith);
        assert(0 <= n * b) by (nonlinear_arith)
            requires
                0 <= b,
                0 <= n,
        ;
        assert(poly::vals(r[b].values@).len() == n);
        assert(poly::vals(r[b].values@)[j] == r[b].values@[j].val());
    }

    /// Values over the extended domain that are moved by a rotation are those of the
    /// polynomial that is at every point what the first is at the point times that power of
    /// $\omega$.
    pub proof fn law_extended_rotation_is_a_substitution(
        &self,
        c: Seq<int>,
        values: Seq<int>,
        rotation: int,
        m: nat,
        row: nat,
    )
        requires
            self.wf(),
            values.len() == pow2(self.extended_k as nat),
            forall|i: nat|
                i < values.len() ==> arith::poly_at(
                    c,
                    F::cube_root() * #[trigger] pow(self.extended_omega.val(), i),
                ) % F::order() == values[i as int] % F::order(),
            (m - rotation) % (self.n as int) == 0,
            row < values.len(),
        ensures
            values[(row + rotation * pow2((self.extended_k - self.k) as nat)) % (
            values.len() as int)] % F::order() == arith::poly_at(
                c,
                pow(self.omega.val(), m) * (F::cube_root() * pow(self.extended_omega.val(), row)),
            ) % F::order(),
    {
        let p = F::order();
        let (e, k) = (self.extended_k as nat, self.k as nat);
        let n = pow2(e) as int;
        let t = pow2((e - k) as nat);
        let w = self.extended_omega.val();
        let g = F::cube_root();
        F::lemma_order();
        self.lemma_roots();
        self.law_points();
        domain::lemma_sizes(k, e);
        lemma_pow2_pos(e);
        let at = ((row + rotation * t) % n) as nat;
        lemma_mod_bound(row + rotation * t, n);
        let h = (t * m + row) as nat;
        assert((h - at) % n == 0) by {
            lemma_fundamental_div_mod(row + rotation * t, n);
            lemma_fundamental_div_mod(m - rotation, self.n as int);
            let q = (row + rotation * t) / n;
            let d = (m - rotation) / (self.n as int);
            assert(h - at == (q + d) * n) by (nonlinear_arith)
                requires
                    row + rotation * t == n * q + at,
                    m - rotation == self.n * d,
                    n == self.n * t,
                    h == t * m + row,
            ;
            lemma_mod_multiples_basic(q + d, n);
        }
        points::lemma_power_repeats(w, pow2(e), at, h, p);
        // The power of the extended root.
        lemma_pow_adds(w, (t * m) as nat, row);
        lemma_pow_multiplies(w, t, m);
        arith::lemma_mod_range(pow(w, t), p);
        arith::lemma_eqm_pow(pow(w, t), self.omega.val(), m, p);
        let (a, b) = (pow(self.omega.val(), m), pow(w, row));
        arith::lemma_eqm_mul(pow(w, (t * m) as nat), a, b, b, p);
        arith::lemma_eqm_mul(g, g, pow(w, at), a * b, p);
        assert(g * (a * b) == a * (g * b)) by (nonlinear_arith);
        arith::lemma_poly_at_eqm(c, c, g * pow(w, at), a * (g * b), p);
        assert(arith::poly_at(c, g * pow(w, at)) % p == values[at as int] % p);
    }
}

/// The sizes of a domain and of its extension, and how many rows of the extension make a step
/// of the domain.
pub proof fn law_sizes<F: Field>(domain: EvaluationDomain<F>)
    requires
        domain.sized(),
    ensures
        domain.view().size() == domain.n,
        domain.view().extended_size() == pow2(domain.extended_k as nat),
        domain.view().extension() * domain.n == pow2(domain.extended_k as nat),
        domain.view().extension() == pow2((domain.extended_k - domain.k) as nat),
{
    domain::lemma_sizes(domain.k as nat, domain.extended_k as nat);
    lemma_mul_is_commutative(domain.view().extension() as int, domain.n as int);
}

} // verus!
