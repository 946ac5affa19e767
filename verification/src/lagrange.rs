//! Rotations over the domain, the Lagrange basis, and laws of the transforms.
use crate::arith;
use crate::collapse;
use crate::dft;
use crate::division;
use crate::domain;
use crate::domain::EvaluationDomain;
use crate::fft;
use crate::field::Field;
use crate::poly::Rotation;
use crate::transform;
use crate::transform::ORCHARD_LAST_ROTATION;
use vstd::arithmetic::div_mod::*;
use vstd::arithmetic::mul::*;
use vstd::arithmetic::power::*;
use vstd::arithmetic::power2::*;
use vstd::prelude::*;

verus! {

/// The entries are below the order.
pub open spec fn reduced(s: Seq<int>, p: int) -> bool {
    forall|i: int| 0 <= i < s.len() ==> 0 <= #[trigger] s[i] < p
}

/// Coefficients with zeros behind them.
pub open spec fn padded(s: Seq<int>, n: nat) -> Seq<int> {
    Seq::new(
        n,
        |i: int|
            if i < s.len() {
                s[i]
            } else {
                0
            },
    )
}

pub proof fn lemma_padded(s: Seq<int>, n: nat, x: int)
    requires
        s.len() <= n,
    ensures
        arith::poly_at(padded(s, n), x) == arith::poly_at(s, x),
    decreases n,
{
    let t = padded(s, n);
    if n == s.len() {
        assert(t =~= s);
    } else {
        let k = (n - 1) as nat;
        lemma_padded(s, k, x);
        assert(t.drop_last() =~= padded(s, k));
        lemma_mul_basics(pow(x, k));
    }
}

/// Coefficients are determined by the values at the powers of a root of unity.
pub proof fn lemma_values_determine(
    c: Seq<int>,
    d: Seq<int>,
    a: Seq<int>,
    w: int,
    v: int,
    inv: int,
    l: nat,
    p: int,
)
    requires
        dft::root_pair(w, v, l, p),
        arith::eqm(inv * pow2(l), 1, p),
        c.len() == pow2(l),
        d.len() == pow2(l),
        a.len() == pow2(l),
        fft::transformed_back(c, a, w, p),
        fft::transformed_back(d, a, w, p),
    ensures
        forall|m: int| 0 <= m < c.len() ==> arith::eqm(#[trigger] c[m], d[m], p),
{
    assert forall|m: int| 0 <= m < c.len() implies arith::eqm(#[trigger] c[m], d[m], p) by {
        lemma_coefficient_from_values(c, a, w, v, inv, l, m as nat, p);
        lemma_coefficient_from_values(d, a, w, v, inv, l, m as nat, p);
    }
}

proof fn lemma_coefficient_from_values(
    c: Seq<int>,
    a: Seq<int>,
    w: int,
    v: int,
    inv: int,
    l: nat,
    m: nat,
    p: int,
)
    requires
        dft::root_pair(w, v, l, p),
        arith::eqm(inv * pow2(l), 1, p),
        c.len() == pow2(l),
        a.len() == pow2(l),
        m < pow2(l),
        fft::transformed_back(c, a, w, p),
    ensures
        arith::eqm(c[m as int], arith::poly_at(a, pow(v, m)) * inv, p),
{
    let n = pow2(l);
    let x = pow(v, m);
    let t = dft::dft(c, w, n);
    dft::lemma_dft_inverse(c, w, v, l, m, p);
    assert forall|i: int| 0 <= i < a.len() implies arith::eqm(#[trigger] a[i], t[i], p) by {
        assert(arith::eqm(arith::poly_at(c, pow(w, i as nat)), a[i], p));
    }
    arith::lemma_poly_at_eqm(a, t, x, x, p);
    let y = c[m as int];
    arith::lemma_eqm_mul(arith::poly_at(a, x), n * y, inv, inv, p);
    assert((n * y) * inv == (inv * n) * y) by (nonlinear_arith);
    arith::lemma_eqm_mul(inv * n, 1, y, y, p);
    lemma_mul_basics(y);
}

proof fn lemma_reduced_equal(c: Seq<int>, d: Seq<int>, p: int)
    requires
        c.len() == d.len(),
        reduced(c, p),
        reduced(d, p),
        forall|m: int| 0 <= m < c.len() ==> arith::eqm(#[trigger] c[m], d[m], p),
    ensures
        c == d,
{
    assert forall|m: int| 0 <= m < c.len() implies c[m] == d[m] by {
        assert(arith::eqm(c[m], d[m], p));
        assert(0 <= c[m] < p && 0 <= d[m] < p);
        arith::lemma_mod_small(c[m], p);
        arith::lemma_mod_small(d[m], p);
    }
    assert(c =~= d);
}

impl<F: Field> EvaluationDomain<F> {
    /// There is one polynomial of degree below `n` with given values over the domain, so
    /// that the transforms with and without retained twiddles agree.
    pub proof fn law_interpolation_unique(&self, c: Seq<int>, d: Seq<int>, a: Seq<int>)
        requires
            self.wf(),
            self.interpolates(c, a),
            self.interpolates(d, a),
            reduced(c, F::order()),
            reduced(d, F::order()),
        ensures
            c == d,
    {
        self.lemma_roots();
        lemma_values_determine(
            c,
            d,
            a,
            self.omega.val(),
            self.omega_inv.val(),
            self.ifft_divisor.val(),
            self.k as nat,
            F::order(),
        );
        lemma_reduced_equal(c, d, F::order());
    }

    proof fn lemma_coset_values(&self, c: Seq<int>, a: Seq<int>)
        requires
            self.interpolates_coset(c, a),
        ensures
            fft::transformed_back(
                dft::twisted(c, F::cube_root()),
                a,
                self.extended_omega.val(),
                F::order(),
            ),
    {
        let w = self.extended_omega.val();
        let g = F::cube_root();
        assert forall|i: int| 0 <= i < a.len() implies arith::eqm(
            arith::poly_at(dft::twisted(c, g), pow(w, i as nat)),
            #[trigger] a[i],
            F::order(),
        ) by {
            assert(arith::eqm(arith::poly_at(c, self.point(i)), a[i], F::order()));
            dft::lemma_poly_at_twisted(c, g, pow(w, i as nat));
        }
    }

    /// There is one polynomial of degree below the extended size with given values on
    /// the coset.
    pub proof fn law_coset_interpolation_unique(&self, c: Seq<int>, d: Seq<int>, a: Seq<int>)
        requires
            self.wf(),
            self.interpolates_coset(c, a),
            self.interpolates_coset(d, a),
        ensures
            c == d,
    {
        let p = F::order();
        let g = F::cube_root();
        self.lemma_roots();
        F::lemma_order();
        transform::lemma_cube::<F>();
        self.lemma_coset_values(c, a);
        self.lemma_coset_values(d, a);
        let (s, t) = (dft::twisted(c, g), dft::twisted(d, g));
        lemma_values_determine(
            s,
            t,
            a,
            self.extended_omega.val(),
            self.extended_omega_inv.val(),
            self.extended_ifft_divisor.val(),
            self.extended_k as nat,
            p,
        );
        assert forall|m: int| 0 <= m < c.len() implies arith::eqm(#[trigger] c[m], d[m], p) by {
            assert(arith::eqm(s[m], t[m], p));
            let e = m as nat;
            let h = g * g;
            dft::lemma_inverse_power(g, h, e, p);
            let (x, y) = (pow(g, e), pow(h, e));
            arith::lemma_eqm_mul(c[m] * x, d[m] * x, y, y, p);
            assert((c[m] * x) * y == c[m] * (x * y)) by (nonlinear_arith);
            assert((d[m] * x) * y == d[m] * (x * y)) by (nonlinear_arith);
            arith::lemma_eqm_mul(c[m], c[m], x * y, 1, p);
            arith::lemma_eqm_mul(d[m], d[m], x * y, 1, p);
            lemma_mul_basics(c[m]);
            lemma_mul_basics(d[m]);
        }
        lemma_reduced_equal(c, d, p);
    }

    /// What is extended to the coset and taken back is what it was.
    pub proof fn law_extension_round_trip(&self, c: Seq<int>, v: Seq<int>, d: Seq<int>)
        requires
            self.wf(),
            c.len() == self.n,
            reduced(c, F::order()),
            self.evaluates(v, c),
            self.interpolates_coset(d, v),
        ensures
            d == padded(c, pow2(self.extended_k as nat)),
    {
        let n = pow2(self.extended_k as nat);
        let p = F::order();
        let e = padded(c, n);
        F::lemma_order();
        domain::lemma_sizes(self.k as nat, self.extended_k as nat);
        assert forall|i: int| 0 <= i < e.len() implies 0 <= #[trigger] e[i] < p by {
            if i < c.len() {
                assert(0 <= c[i] < p);
            }
        }
        assert forall|i: int| 0 <= i < v.len() implies arith::eqm(
            arith::poly_at(e, self.point(i)),
            #[trigger] v[i],
            p,
        ) by {
            lemma_padded(c, n, self.point(i));
            arith::lemma_mod_range(arith::poly_at(c, self.point(i)), p);
        }
        assert(self.interpolates_coset(e, v));
        self.law_coset_interpolation_unique(d, e, v);
    }

    /// Division in coefficient form gives the coefficients of the pointwise quotient,
    /// for arbitrary numerators.
    pub proof fn law_sparse_quotient_is_pointwise(
        &self,
        c: Seq<int>,
        d: Seq<int>,
        q: Seq<int>,
        a: Seq<int>,
    )
        requires
            self.wf(),
            self.is_quotient(c, a),
            q.len() == a.len(),
            forall|i: int|
                0 <= i < q.len() ==> arith::eqm(#[trigger] q[i] * self.vanishing(i), a[i], F::order()),
            self.interpolates_coset(d, q),
        ensures
            c == d,
    {
        let p = F::order();
        F::lemma_order();
        let m = pow2((self.extended_k - self.k) as nat);
        lemma_pow2_pos((self.extended_k - self.k) as nat);
        assert forall|i: int| 0 <= i < q.len() implies arith::eqm(
            arith::poly_at(c, self.point(i)),
            #[trigger] q[i],
            p,
        ) by {
            let z = self.vanishing(i);
            let k = i % (m as int);
            self.lemma_vanishing_repeats(i as nat, m);
            let t = self.t_evaluations@[k].val();
            assert(arith::eqm(t * self.vanishing(k), 1, p));
            arith::lemma_eqm_mul(t, t, z, self.vanishing(k), p);
            let y = arith::poly_at(c, self.point(i));
            assert(arith::eqm(y * z, a[i], p));
            assert(arith::eqm(q[i] * z, a[i], p));
            arith::lemma_eqm_mul(y * z, q[i] * z, t, t, p);
            assert((y * z) * t == y * (t * z)) by (nonlinear_arith);
            assert((q[i] * z) * t == q[i] * (t * z)) by (nonlinear_arith);
            arith::lemma_eqm_mul(y, y, t * z, 1, p);
            arith::lemma_eqm_mul(q[i], q[i], t * z, 1, p);
            lemma_mul_basics(y);
            lemma_mul_basics(q[i]);
        }
        assert(self.interpolates_coset(c, q));
        self.law_coset_interpolation_unique(c, d, q);
    }

    /// $\omega$ to the power of a rotation.
    pub open spec fn rotation_factor(&self, rotation: int) -> int {
        if rotation >= 0 {
            pow(self.omega.val(), rotation as nat)
        } else {
            pow(self.omega_inv.val(), (-rotation) as nat)
        }
    }

    /// Opposite rotations undo each other.
    pub proof fn law_opposite_rotations(&self, rotation: int)
        requires
            self.wf(),
        ensures
            arith::eqm(self.rotation_factor(rotation) * self.rotation_factor(-rotation), 1, F::order()),
    {
        F::lemma_order();
        let (w, v) = (self.omega.val(), self.omega_inv.val());
        let e: nat = if rotation >= 0 {
            rotation as nat
        } else {
            (-rotation) as nat
        };
        dft::lemma_inverse_power(w, v, e, F::order());
        lemma_mul_is_commutative(pow(w, e), pow(v, e));
        if rotation == 0 {
            lemma_pow0(w);
            lemma_pow0(v);
        }
    }

    /// Multiplies a value by some power of $\omega$, essentially rotating over
    /// the domain.
    pub fn rotate_omega(&self, value: F, rotation: Rotation) -> (r: F)
        requires
            self.wf(),
        ensures
            r.val() == (value.val() * self.rotation_factor(rotation.0 as int)) % F::order(),
    {
        let t: i32 = rotation.0;
        let ghost p = F::order();
        proof {
            F::lemma_order();
            F::lemma_val(value);
            lemma_pow0(self.omega.val());
            lemma_pow1(self.omega.val());
            lemma_pow1(self.omega_inv.val());
            lemma_mul_basics(value.val());
            arith::lemma_mod_small(value.val(), p);
        }
        if t == 0 {
            value
        } else if t == 1 {
            value.mul(self.get_omega())
        } else if t == -1 {
            value.mul(self.get_omega_inv())
        } else if t == ORCHARD_LAST_ROTATION {
            proof {
                arith::lemma_mod_mul(value.val(), pow(self.omega_inv.val(), 6), p);
            }
            value.mul(self.orchard_last_omega)
        } else if t > 0 {
            proof {
                arith::lemma_mod_mul(value.val(), pow(self.omega.val(), t as nat), p);
            }
            value.mul(self.get_omega().pow_vartime(t as u64))
        } else {
            let e: u64 = (-(t as i64)) as u64;
            proof {
                arith::lemma_mod_mul(value.val(), pow(self.omega_inv.val(), e as nat), p);
            }
            value.mul(self.get_omega_inv().pow_vartime(e))
        }
    }

    /// The coefficients of the Lagrange basis polynomial `l_i(X)` of a rotation `i`.
    pub open spec fn lagrange_basis(&self, rotation: int) -> Seq<int> {
        Seq::new(
            self.n as nat,
            |j: int|
                pow(self.rotation_factor(-rotation), j as nat) * self.barycentric_weight.val(),
        )
    }

    proof fn lemma_basis_value(&self, rotation: int, x: int, n: nat)
        ensures
            arith::poly_at(
                Seq::new(
                    n,
                    |j: int|
                        pow(self.rotation_factor(-rotation), j as nat)
                            * self.barycentric_weight.val(),
                ),
                x,
            ) == dft::geo(x * self.rotation_factor(-rotation), n) * self.barycentric_weight.val(),
        decreases n,
    {
        let f = self.rotation_factor(-rotation);
        let u = self.barycentric_weight.val();
        let s = Seq::new(n, |j: int| pow(f, j as nat) * u);
        if n > 0 {
            let k = (n - 1) as nat;
            self.lemma_basis_value(rotation, x, k);
            assert(s.drop_last() =~= Seq::new(k, |j: int| pow(f, j as nat) * u));
            lemma_pow_distributes(x, f, k);
            let (a, b, h) = (pow(f, k), pow(x, k), dft::geo(x * f, k));
            assert((a * u) * b == (b * a) * u) by (nonlinear_arith);
            assert((h + b * a) * u == h * u + (b * a) * u) by (nonlinear_arith);
        } else {
            lemma_mul_basics(u);
        }
    }

    /// `l_i` is one at $\omega^i$ and zero at the other points of the domain.
    pub proof fn law_lagrange_basis(&self, i: nat, j: nat)
        requires
            self.wf(),
            i < self.n,
            j < self.n,
        ensures
            arith::eqm(
                arith::poly_at(self.lagrange_basis(i as int), pow(self.omega.val(), j)),
                if i == j {
                    1
                } else {
                    0
                },
                F::order(),
            ),
    {
        let p = F::order();
        let n = self.n as nat;
        let u = self.barycentric_weight.val();
        let (w, v) = (self.omega.val(), self.omega_inv.val());
        self.lemma_roots();
        self.lemma_basis_value(i as int, pow(w, j), n);
        dft::lemma_cross_sum(w, v, self.k as nat, j, i, p);
        if i == 0 {
            lemma_pow0(w);
            lemma_pow0(v);
        }
        assert(self.rotation_factor(-(i as int)) == pow(v, i));
        let h = dft::geo(pow(w, j) * pow(v, i), n);
        if i == j {
            arith::lemma_eqm_mul(h, n as int, u, u, p);
            lemma_mul_is_commutative(n as int, u);
        } else {
            arith::lemma_eqm_mul(h, 0, u, u, p);
            lemma_mul_basics(u);
        }
    }

    /// What the formula for `l_i(x)` gives.
    proof fn lemma_basis_formula(&self, rotation: int, x: int, xn: int, d: int, inv: int)
        requires
            self.wf(),
            arith::eqm(xn, pow(x, self.n as nat), F::order()),
            arith::eqm(d, x - self.rotation_factor(rotation), F::order()),
            arith::eqm(inv * d, 1, F::order()),
        ensures
            arith::eqm(
                ((inv * ((xn - 1) * self.barycentric_weight.val())) * self.rotation_factor(rotation)),
                arith::poly_at(self.lagrange_basis(rotation), x),
                F::order(),
            ),
    {
        F::lemma_order();
        let p = F::order();
        let n = self.n as nat;
        let u = self.barycentric_weight.val();
        let f = self.rotation_factor(rotation);
        let e = self.rotation_factor(-rotation);
        let y = x * e;
        let b = dft::geo(y, n);
        self.law_opposite_rotations(rotation);
        self.lemma_basis_value(rotation, x, n);
        dft::lemma_geo_closed(y, n);
        // y^n == x^n
        self.lemma_factor_order(rotation);
        lemma_pow_distributes(x, e, n);
        arith::lemma_eqm_mul(pow(x, n), xn, pow(e, n), 1, p);
        lemma_mul_basics(xn);
        arith::lemma_eqm_sub(pow(y, n), xn, 1, 1, p);
        // d e == y - 1
        arith::lemma_eqm_mul(d, x - f, e, e, p);
        assert((x - f) * e == x * e - f * e) by (nonlinear_arith);
        arith::lemma_eqm_sub(x * e, x * e, f * e, 1, p);
        assert(arith::eqm(d * e, y - 1, p));
        // b == inv d e f b
        arith::lemma_eqm_mul(d * e, y - 1, b, b, p);
        assert(arith::eqm((d * e) * b, xn - 1, p));
        let t = (inv * ((xn - 1) * u)) * f;
        arith::lemma_eqm_mul(inv * u * f, inv * u * f, xn - 1, (d * e) * b, p);
        assert((inv * ((xn - 1) * u)) * f == (inv * u * f) * (xn - 1)) by (nonlinear_arith);
        assert((inv * u * f) * ((d * e) * b) == ((inv * d) * (f * e)) * (b * u))
            by (nonlinear_arith);
        arith::lemma_eqm_mul(inv * d, 1, f * e, 1, p);
        arith::lemma_eqm_mul((inv * d) * (f * e), 1, b * u, b * u, p);
        lemma_mul_basics(b * u);
    }

    /// `l_i` is one at the point of its rotation.
    proof fn lemma_basis_at_own_point(&self, rotation: int, x: int)
        requires
            self.wf(),
            arith::eqm(x, self.rotation_factor(rotation), F::order()),
        ensures
            arith::poly_at(self.lagrange_basis(rotation), x) % F::order() == 1,
    {
        F::lemma_order();
        let p = F::order();
        let n = self.n as nat;
        let u = self.barycentric_weight.val();
        let f = self.rotation_factor(rotation);
        let e = self.rotation_factor(-rotation);
        self.lemma_roots();
        self.law_opposite_rotations(rotation);
        self.lemma_basis_value(rotation, x, n);
        arith::lemma_eqm_mul(x, f, e, e, p);
        dft::lemma_geo_eqm(x * e, 1, n, p);
        dft::lemma_geo_one(n);
        arith::lemma_eqm_mul(dft::geo(x * e, n), n as int, u, u, p);
        lemma_mul_is_commutative(n as int, u);
        arith::lemma_mod_small(1, p);
    }

    proof fn lemma_factor_order(&self, rotation: int)
        requires
            self.wf(),
        ensures
            arith::eqm(pow(self.rotation_factor(-rotation), self.n as nat), 1, F::order()),
    {
        self.lemma_roots();
        let p = F::order();
        let n = self.n as nat;
        let (w, v) = (self.omega.val(), self.omega_inv.val());
        dft::lemma_root_pair_swap(w, v, self.k as nat, p);
        let (base, e): (int, nat) = if -rotation >= 0 {
            (w, (-rotation) as nat)
        } else {
            (v, rotation as nat)
        };
        lemma_pow_multiplies(base, e, n);
        lemma_pow_multiplies(base, n, e);
        lemma_mul_is_commutative(e as int, n as int);
        arith::lemma_eqm_pow(pow(base, n), 1, e, p);
        transform::lemma_pow_ones(e);
    }

    /// Whether `value` is `l_i(x)`, where `xn` is `x^n`. It is one at the point of the
    /// rotation, and elsewhere what the formula gives.
    pub open spec fn basis_at(&self, value: int, x: int, xn: int, rotation: int) -> bool {
        let f = self.rotation_factor(rotation);
        let p = F::order();
        &&& arith::eqm(xn, pow(x, self.n as nat), p) ==> value == arith::poly_at(
            self.lagrange_basis(rotation),
            x,
        ) % p
        &&& arith::eqm(x, f, p) ==> value == 1
        &&& !arith::eqm(x, f, p) ==> arith::eqm(
            value * (x - f),
            ((xn - 1) * self.barycentric_weight.val()) * f,
            p,
        )
    }

    /// Computes evaluations (at the point `x`, where `xn = x^n`) of Lagrange
    /// basis polynomials `l_i(X)` defined such that `l_i(omega^i) = 1` and
    /// `l_i(omega^j) = 0` for all `j != i` at each provided rotation `i`.
    ///
    /// # Implementation
    ///
    /// The polynomial
    ///     $$\prod_{j=0,j \neq i}^{n - 1} (X - \omega^j)$$
    /// has a root at all points in the domain except $\omega^i$, where it evaluates to
    ///     $$\prod_{j=0,j \neq i}^{n - 1} (\omega^i - \omega^j)$$
    /// and so we divide that polynomial by this value to obtain $l_i(X)$. Since
    ///     $$\prod_{j=0,j \neq i}^{n - 1} (X - \omega^j)
    ///       = \frac{X^n - 1}{X - \omega^i}$$
    /// then $l_i(x)$ for some $x$ is evaluated as
    ///     $$\left(\frac{x^n - 1}{x - \omega^i}\right)
    ///       \cdot \left(\frac{1}{\prod_{j=0,j \neq i}^{n - 1} (\omega^i - \omega^j)}\right).$$
    /// We refer to
    ///     $$1 \over \prod_{j=0,j \neq i}^{n - 1} (\omega^i - \omega^j)$$
    /// as the barycentric weight of $\omega^i$, which is $\omega^i / n$. Where $x$ is
    /// $\omega^i$ itself there is nothing to divide by, and $l_i(x)$ is one.
    pub fn l_i_range(&self, x: F, xn: F, rotations: &Vec<i32>) -> (r: Vec<F>)
        requires
            self.wf(),
        ensures
            r@.len() == rotations@.len(),
            forall|i: int|
                0 <= i < r@.len() ==> self.basis_at(
                    (#[trigger] r@[i]).val(),
                    x.val(),
                    xn.val(),
                    rotations@[i] as int,
                ),
    {
        let ghost p = F::order();
        let n: usize = rotations.len();
        let mut results: Vec<F> = Vec::with_capacity(n);
        let mut i: usize = 0;
        proof {
            F::lemma_order();
        }
        while i < n
            invariant
                i <= n,
                n == rotations@.len(),
                self.wf(),
                p == F::order(),
                p > 2,
                results@.len() == i,
                forall|k: int|
                    0 <= k < i ==> (#[trigger] results@[k]).val() == (x.val()
                        - self.rotation_factor(rotations@[k] as int)) % p,
            decreases n - i,
        {
            let f = self.rotate_omega(F::one(), Rotation(rotations[i]));
            proof {
                let e = self.rotation_factor(rotations@[i as int] as int);
                lemma_mul_basics(e);
                arith::lemma_mod_sub(x.val(), e, p);
            }
            results.push(x.sub(f));
            i += 1;
        }
        let ghost before = results@;
        F::batch_invert(&mut results);
        let ghost inverted = results@;
        let common = xn.sub(F::one()).mul(self.barycentric_weight);
        let mut j: usize = 0;
        while j < n
            invariant
                j <= n,
                n == rotations@.len(),
                self.wf(),
                p == F::order(),
                results@.len() == n,
                forall|k: int| j <= k < n ==> #[trigger] results@[k] == inverted[k],
                forall|k: int|
                    0 <= k < j ==> (#[trigger] results@[k]).val() == (if inverted[k].val() == 0 {
                        1
                    } else {
                        (((inverted[k].val() * common.val()) % p) * self.rotation_factor(
                            rotations@[k] as int,
                        )) % p
                    }),
            decreases n - j,
        {
            let y = if results[j].is_zero() {
                F::one()
            } else {
                self.rotate_omega(results[j].mul(common), Rotation(rotations[j]))
            };
            results.set(j, y);
            j += 1;
        }
        proof {
            let u = self.barycentric_weight.val();
            assert forall|k: int| 0 <= k < results@.len() implies self.basis_at(
                (#[trigger] results@[k]).val(),
                x.val(),
                xn.val(),
                rotations@[k] as int,
            ) by {
                let f = self.rotation_factor(rotations@[k] as int);
                let (a, b) = (x.val(), xn.val());
                let inv = inverted[k].val();
                let d = before[k].val();
                arith::lemma_mod_range(a - f, p);
                let q = (b - 1) * u;
                assert(arith::eqm(common.val(), q, p)) by {
                    arith::lemma_mod_range(b - 1, p);
                    arith::lemma_eqm_mul((b - 1) % p, b - 1, u, u, p);
                    arith::lemma_mod_range(((b - 1) % p) * u, p);
                }
                arith::lemma_mod_mul(inv * common.val(), f, p);
                arith::lemma_eqm_mul(inv, inv, common.val(), q, p);
                arith::lemma_eqm_mul(inv * common.val(), inv * q, f, f, p);
                let value = results@[k].val();
                if arith::eqm(a, f, p) {
                    arith::lemma_eqm_sub(a, f, f, f, p);
                    arith::lemma_mod_small(0, p);
                    assert(d == 0);
                    assert(inv == 0);
                    self.lemma_basis_at_own_point(rotations@[k] as int, a);
                } else {
                    if d == 0 {
                        arith::lemma_mod_small(0, p);
                        arith::lemma_eqm_add(a - f, 0, f, f, p);
                    }
                    arith::lemma_mod_small(1, p);
                    assert(arith::eqm(inv * d, 1, p));
                    if inv == 0 {
                        lemma_mul_basics(d);
                        arith::lemma_mod_small(0, p);
                    }
                    assert(value == ((inv * q) * f) % p);
                    arith::lemma_mod_range((inv * q) * f, p);
                    arith::lemma_eqm_mul(value, (inv * q) * f, a - f, d, p);
                    assert(((inv * q) * f) * d == (inv * d) * (q * f)) by (nonlinear_arith);
                    arith::lemma_eqm_mul(inv * d, 1, q * f, q * f, p);
                    lemma_mul_basics(q * f);
                    if arith::eqm(b, pow(a, self.n as nat), p) {
                        self.lemma_basis_formula(rotations@[k] as int, a, b, d, inv);
                    }
                }
            }
        }
        results
    }
}

/// The transform of coefficients into a larger domain is the transform of the coefficients
/// padded with zeros.
pub proof fn law_zero_padded_transform(
    coefficients: Seq<int>,
    u: Seq<int>,
    v: Seq<int>,
    w: int,
    p: int,
)
    requires
        p > 0,
        coefficients.len() <= u.len(),
        u.len() == v.len(),
        reduced(u, p),
        reduced(v, p),
        fft::transformed(u, coefficients, w, 1, p),
        fft::transformed(v, Seq::new(v.len(), |i: int| collapse::coeff_at(coefficients, i)), w, 1, p),
    ensures
        u == v,
{
    assert forall|i: int| 0 <= i < u.len() implies u[i] == v[i] by {
        division::lemma_poly_at_padding(coefficients, v.len(), pow(w, (1 * i) as nat));
        arith::lemma_mod_small(u[i], p);
        arith::lemma_mod_small(v[i], p);
    }
    assert(u =~= v);
}

} // verus!
