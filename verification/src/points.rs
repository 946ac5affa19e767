//! The points of a domain, and what rotations and the Lagrange basis are in terms of them.
use crate::arith;
use crate::dft;
use crate::domain::EvaluationDomain;
use crate::field::Field;
use crate::lagrange;
use crate::poly::Rotation;
use crate::transform;
use vstd::arithmetic::div_mod::*;
use vstd::arithmetic::mul::*;
use vstd::arithmetic::power::*;
use vstd::arithmetic::power2::*;
use vstd::prelude::*;

verus! {

/// Powers of a root of unity repeat.
pub proof fn lemma_power_repeats(w: int, n: nat, a: nat, b: nat, p: int)
    requires
        p > 1,
        n > 0,
        arith::eqm(pow(w, n), 1, p),
        (b - a) % (n as int) == 0,
    ensures
        arith::eqm(pow(w, a), pow(w, b), p),
{
    if a <= b {
        lemma_power_ahead(w, n, a, b, p);
    } else {
        lemma_fundamental_div_mod(b - a, n as int);
        let q = (b - a) / (n as int);
        assert(a - b == (n as int) * (-q)) by (nonlinear_arith)
            requires
                b - a == (n as int) * q,
        ;
        lemma_mod_multiples_basic(-q, n as int);
        lemma_mul_is_commutative(-q, n as int);
        lemma_power_ahead(w, n, b, a, p);
    }
}

proof fn lemma_power_ahead(w: int, n: nat, a: nat, b: nat, p: int)
    requires
        p > 1,
        n > 0,
        arith::eqm(pow(w, n), 1, p),
        a <= b,
        (b - a) % (n as int) == 0,
    ensures
        arith::eqm(pow(w, a), pow(w, b), p),
{
    lemma_fundamental_div_mod(b - a, n as int);
    let q = (b - a) / (n as int);
    assert(q >= 0) by {
        lemma_div_pos_is_pos(b - a, n as int);
    }
    let q = q as nat;
    lemma_pow_adds(w, a, (n * q) as nat);
    lemma_pow_multiplies(w, n, q);
    arith::lemma_eqm_pow(pow(w, n), 1, q, p);
    transform::lemma_pow_ones(q);
    arith::lemma_eqm_mul(pow(w, a), pow(w, a), pow(w, (n * q) as nat), 1, p);
    lemma_mul_basics(pow(w, a));
}

impl<F: Field> EvaluationDomain<F> {
    /// The domain is the `2^k` powers of $\omega$, which are all different, and the
    /// extended domain refines it.
    pub proof fn law_points(&self)
        requires
            self.wf(),
        ensures
            self.n == pow2(self.k as nat),
            pow(self.omega.val(), self.n as nat) % F::order() == 1,
            forall|i: nat, j: nat|
                i < j < self.n ==> #[trigger] pow(self.omega.val(), i) % F::order()
                    != #[trigger] pow(self.omega.val(), j) % F::order(),
            (self.omega.val() * self.omega_inv.val()) % F::order() == 1,
            pow(
                self.extended_omega.val(),
                pow2((self.extended_k - self.k) as nat),
            ) % F::order() == self.omega.val(),
            (self.extended_omega.val() * self.extended_omega_inv.val()) % F::order() == 1,
    {
        let p = F::order();
        let n = self.n as nat;
        let w = self.omega.val();
        self.lemma_roots();
        F::lemma_order();
        arith::lemma_mod_small(1, p);
        lemma_pow2_pos(self.k as nat);
        assert forall|i: nat, j: nat| i < j < self.n implies #[trigger] pow(w, i) % p
            != #[trigger] pow(w, j) % p by {
            if pow(w, i) % p == pow(w, j) % p {
                // The difference of the exponents would be a smaller order.
                let d = (j - i) as nat;
                let v = self.omega_inv.val();
                dft::lemma_inverse_power(w, v, i, p);
                lemma_pow_adds(w, i, d);
                arith::lemma_eqm_mul(pow(w, i), pow(w, j), pow(v, i), pow(v, i), p);
                let (a, b, c) = (pow(w, i), pow(w, d), pow(v, i));
                assert((a * b) * c == (a * c) * b) by (nonlinear_arith);
                arith::lemma_eqm_mul(a * c, 1, b, b, p);
                lemma_mul_basics(b);
                assert(arith::eqm(b, 1, p));
                self.lemma_proper_power(d);
            }
        }
        let (e, k) = (self.extended_k as nat, self.k as nat);
        let (r, s, t) = (F::root(), pow2((32 - e) as nat), pow2((e - k) as nat));
        arith::lemma_mod_range(pow(r, s), p);
        arith::lemma_eqm_pow(self.extended_omega.val(), pow(r, s), t, p);
        lemma_pow_multiplies(r, s, t);
        lemma_pow2_adds((32 - e) as nat, (e - k) as nat);
        assert(((32 - e) as nat) + ((e - k) as nat) == 32 - k);
    }

    proof fn lemma_proper_power(&self, d: nat)
        requires
            self.wf(),
            0 < d < self.n,
        ensures
            !arith::eqm(pow(self.omega.val(), d), 1, F::order()),
    {
        let p = F::order();
        let n = self.n as nat;
        let w = self.omega.val();
        self.lemma_roots();
        F::lemma_order();
        lemma2_to64();
        if arith::eqm(pow(w, d), 1, p) {
            assert(self.k > 0);
            dft::lemma_geo_zero(w, d, self.k as nat, p);
            dft::lemma_geo_eqm(pow(w, d), 1, n, p);
            dft::lemma_geo_one(n);
            let u = self.barycentric_weight.val();
            assert(arith::eqm(n as int, 0, p));
            arith::lemma_eqm_mul(u, u, n as int, 0, p);
            lemma_mul_basics(u);
            arith::lemma_mod_small(0, p);
            arith::lemma_mod_small(1, p);
        }
    }

    /// The factor of a rotation is the power of $\omega$ whose exponent is the rotation, in
    /// the integers modulo the size of the domain.
    pub proof fn law_rotation_factor(&self, rotation: int, m: nat)
        requires
            self.wf(),
            (m - rotation) % (self.n as int) == 0,
        ensures
            self.rotation_factor(rotation) % F::order() == pow(self.omega.val(), m) % F::order(),
    {
        let p = F::order();
        let n = self.n as nat;
        let (w, v) = (self.omega.val(), self.omega_inv.val());
        self.lemma_roots();
        F::lemma_order();
        lemma_pow2_pos(self.k as nat);
        if rotation >= 0 {
            lemma_power_repeats(w, n, rotation as nat, m, p);
        } else {
            let e = (-rotation) as nat;
            lemma_pow0(w);
            lemma_power_repeats(w, n, 0, m + e, p);
            dft::lemma_inverse_power(w, v, e, p);
            lemma_pow_adds(w, m, e);
            let (a, b, c) = (pow(w, m), pow(w, e), pow(v, e));
            arith::lemma_eqm_mul(a * b, 1, c, c, p);
            lemma_mul_basics(c);
            assert((a * b) * c == a * (b * c)) by (nonlinear_arith);
            arith::lemma_eqm_mul(a, a, b * c, 1, p);
            lemma_mul_basics(a);
        }
    }

    /// What [`EvaluationDomain::rotate_omega`] gives is the value times the power of
    /// $\omega$ whose exponent is the rotation.
    pub proof fn law_rotated_value(&self, value: F, r: F, rotation: Rotation, m: nat)
        requires
            self.wf(),
            r.val() == (value.val() * self.rotation_factor(rotation.0 as int)) % F::order(),
            (m - rotation.0) % (self.n as int) == 0,
        ensures
            r.val() == (value.val() * pow(self.omega.val(), m)) % F::order(),
    {
        let p = F::order();
        F::lemma_order();
        self.law_rotation_factor(rotation.0 as int, m);
        arith::lemma_eqm_mul(
            value.val(),
            value.val(),
            self.rotation_factor(rotation.0 as int),
            pow(self.omega.val(), m),
            p,
        );
    }

    /// The value that [`EvaluationDomain::l_i_range`] gives for a rotation is the value at
    /// `x` of every polynomial of degree below `n` that is one at the point of the rotation
    /// and zero at the other points of the domain. At a point of the domain it is one if the
    /// point is that of the rotation, and zero otherwise. Times `n` and the distance from
    /// the point of the rotation it is `x^n - 1` times that point.
    pub proof fn law_lagrange_value(
        &self,
        value: int,
        x: int,
        xn: int,
        rotation: int,
        c: Seq<int>,
        m: nat,
    )
        requires
            self.wf(),
            self.basis_at(value, x, xn, rotation),
            (m - rotation) % (self.n as int) == 0,
        ensures
            xn % F::order() == pow(x, self.n as nat) % F::order() && c.len() == self.n && (forall|
                j: nat,
            |
                j < self.n ==> #[trigger] arith::poly_at(c, pow(self.omega.val(), j)) % F::order() == (
                if (j - rotation) % (self.n as int) == 0 {
                    1int
                } else {
                    0
                })) ==> value == arith::poly_at(c, x) % F::order(),
            xn % F::order() == pow(x, self.n as nat) % F::order() ==> forall|j: nat|
                j < self.n && #[trigger] pow(self.omega.val(), j) % F::order() == x % F::order()
                    ==> value == (if (j - rotation) % (self.n as int) == 0 {
                    1int
                } else {
                    0
                }),
            x % F::order() == pow(self.omega.val(), m) % F::order() ==> value == 1,
            x % F::order() != pow(self.omega.val(), m) % F::order() ==> (self.n * value * (x - pow(
                self.omega.val(),
                m,
            ))) % F::order() == ((xn - 1) * pow(self.omega.val(), m)) % F::order(),
    {
        let p = F::order();
        let n = self.n as nat;
        let w = self.omega.val();
        let f = self.rotation_factor(rotation);
        let y = pow(w, m);
        F::lemma_order();
        self.law_points();
        lemma_pow2_pos(self.k as nat);
        self.law_rotation_factor(rotation, m);
        // The place of the rotation in the domain.
        let i = (rotation % (n as int)) as nat;
        lemma_mod_bound(rotation, n as int);
        assert((i - rotation) % (n as int) == 0) by {
            lemma_fundamental_div_mod(rotation, n as int);
            lemma_mod_multiples_basic(-(rotation / (n as int)), n as int);
            assert(i - rotation == (-(rotation / (n as int))) * (n as int)) by (nonlinear_arith)
                requires
                    rotation == (n as int) * (rotation / (n as int)) + (i as int),
            ;
        }
        self.law_rotation_factor(rotation, i);
        let basis = self.lagrange_basis(rotation);
        self.lemma_basis_of_rotation(rotation, i);
        arith::lemma_mod_small(1, p);
        arith::lemma_mod_small(0, p);
        assert forall|j: nat| j < n implies #[trigger] arith::poly_at(basis, pow(w, j)) % p == (if (j
            - rotation) % (n as int) == 0 {
            1int
        } else {
            0
        }) by {
            self.law_lagrange_basis(i, j);
            let b = self.lagrange_basis(i as int);
            arith::lemma_poly_at_eqm(basis, b, pow(w, j), pow(w, j), p);
            lemma_same_place(i as int, j as int, rotation, n as int);
        }
        if arith::eqm(xn, pow(x, n), p) {
            assert forall|j: nat|
                j < n && #[trigger] pow(w, j) % p == x % p implies value == (if (j - rotation) % (
            n as int) == 0 {
                1int
            } else {
                0
            }) by {
                arith::lemma_poly_at_eqm(basis, basis, pow(w, j), x, p);
                assert(arith::poly_at(basis, pow(w, j)) % p == arith::poly_at(basis, x) % p);
            }
            if c.len() == n && (forall|j: nat|
                j < self.n ==> #[trigger] arith::poly_at(c, pow(w, j)) % p == (if (j - rotation) % (
                n as int) == 0 {
                    1int
                } else {
                    0
                })) {
                let a = Seq::new(
                    n,
                    |j: int|
                        if (j - rotation) % (n as int) == 0 {
                            1int
                        } else {
                            0
                        },
                );
                assert forall|j: int| 0 <= j < a.len() implies arith::eqm(
                    arith::poly_at(c, pow(w, j as nat)),
                    #[trigger] a[j],
                    p,
                ) && arith::eqm(arith::poly_at(basis, pow(w, j as nat)), a[j], p) by {
                    assert(arith::poly_at(c, pow(w, j as nat)) % p == a[j]);
                    assert(arith::poly_at(basis, pow(w, j as nat)) % p == a[j]);
                }
                self.lemma_same_values(c, basis, a);
                arith::lemma_poly_at_eqm(c, basis, x, x, p);
            }
        }
        if !arith::eqm(x, y, p) {
            let u = self.barycentric_weight.val();
            assert(arith::eqm(value * (x - f), ((xn - 1) * u) * f, p));
            arith::lemma_eqm_sub(x, x, f, y, p);
            arith::lemma_eqm_mul(value, value, x - f, x - y, p);
            arith::lemma_eqm_mul((xn - 1) * u, (xn - 1) * u, f, y, p);
            arith::lemma_eqm_mul(n as int, n as int, value * (x - y), ((xn - 1) * u) * y, p);
            assert((n as int) * (value * (x - y)) == n * value * (x - y)) by (nonlinear_arith);
            assert((n as int) * (((xn - 1) * u) * y) == (u * n) * ((xn - 1) * y))
                by (nonlinear_arith);
            arith::lemma_eqm_mul(u * n, 1, (xn - 1) * y, (xn - 1) * y, p);
            lemma_mul_basics((xn - 1) * y);
        }
    }

    proof fn lemma_same_values(&self, c: Seq<int>, d: Seq<int>, a: Seq<int>)
        requires
            self.wf(),
            c.len() == self.n,
            d.len() == self.n,
            a.len() == self.n,
            forall|j: int|
                0 <= j < a.len() ==> arith::eqm(
                    arith::poly_at(c, pow(self.omega.val(), j as nat)),
                    #[trigger] a[j],
                    F::order(),
                ) && arith::eqm(arith::poly_at(d, pow(self.omega.val(), j as nat)), a[j], F::order()),
        ensures
            forall|i: int| 0 <= i < c.len() ==> arith::eqm(#[trigger] c[i], d[i], F::order()),
    {
        self.lemma_roots();
        lagrange::lemma_values_determine(
            c,
            d,
            a,
            self.omega.val(),
            self.omega_inv.val(),
            self.ifft_divisor.val(),
            self.k as nat,
            F::order(),
        );
    }

    /// The basis polynomials of rotations to the same point agree.
    proof fn lemma_basis_of_rotation(&self, rotation: int, i: nat)
        requires
            self.wf(),
            i < self.n,
            (i - rotation) % (self.n as int) == 0,
        ensures
            self.lagrange_basis(rotation).len() == self.lagrange_basis(i as int).len(),
            forall|j: int|
                0 <= j < self.n ==> arith::eqm(
                    #[trigger] self.lagrange_basis(rotation)[j],
                    self.lagrange_basis(i as int)[j],
                    F::order(),
                ),
    {
        let p = F::order();
        let n = self.n as int;
        F::lemma_order();
        let m = (n - i) as nat;
        assert((m - -(i as int)) % n == 0) by {
            lemma_mod_self_0(n);
        }
        assert((m - -rotation) % n == 0) by {
            lemma_sub_mod_noop(n, i - rotation, n);
            lemma_mod_self_0(n);
            arith::lemma_mod_small(0, n);
            assert(m - -rotation == n - (i - rotation));
        }
        self.law_rotation_factor(-rotation, m);
        self.law_rotation_factor(-(i as int), m);
        let u = self.barycentric_weight.val();
        assert forall|j: int| 0 <= j < n implies arith::eqm(
            #[trigger] self.lagrange_basis(rotation)[j],
            self.lagrange_basis(i as int)[j],
            p,
        ) by {
            let (a, b) = (self.rotation_factor(-rotation), self.rotation_factor(-(i as int)));
            arith::lemma_eqm_pow(a, b, j as nat, p);
            arith::lemma_eqm_mul(pow(a, j as nat), pow(b, j as nat), u, u, p);
        }
    }
}

/// A place of the domain is that of a rotation if it differs by a multiple of the size.
proof fn lemma_same_place(i: int, j: int, rotation: int, n: int)
    requires
        0 <= i < n,
        0 <= j < n,
        (i - rotation) % n == 0,
    ensures
        (j - rotation) % n == 0 <==> i == j,
{
    if (j - rotation) % n == 0 {
        lemma_sub_mod_noop(i - rotation, j - rotation, n);
        assert((i - j) % n == 0) by {
            arith::lemma_mod_small(0, n);
        }
        if i > j {
            arith::lemma_mod_small(i - j, n);
        } else if i < j {
            lemma_mod_add_multiples_vanish(i - j, n);
            arith::lemma_mod_small(n + (i - j), n);
        }
    }
}

} // verus!
