//! Quotients by the vanishing polynomial in coefficient form, rotations, and the
//! Lagrange basis.
use crate::arith;
use crate::convert;
use crate::convert::{ProvingKeyTwiddles, fft_with_twiddles};
use crate::dft;
use crate::domain;
use crate::domain::EvaluationDomain;
use crate::fft;
use crate::field::Field;
use crate::poly;
use crate::poly::{Coeff, ExtendedLagrangeCoeff, Polynomial};
use crate::transform;
use crate::transform::power_of_two_difference;
use vstd::arithmetic::div_mod::*;
use vstd::arithmetic::mul::*;
use vstd::arithmetic::power::*;
use vstd::arithmetic::power2::*;
use vstd::prelude::*;

verus! {

/// The coefficients of the sum of the blocks of a polynomial.
spec fn block_sum(s: Seq<int>, n: nat, m: nat) -> Seq<int> {
    Seq::new(n, |j: int| arith::seq_sum(Seq::new(m, |b: int| s[b * n + j])))
}

proof fn lemma_poly_at_sum(a: Seq<int>, b: Seq<int>, c: Seq<int>, x: int, p: int)
    requires
        p > 0,
        a.len() == b.len(),
        a.len() == c.len(),
        forall|i: int| 0 <= i < a.len() ==> arith::eqm(#[trigger] a[i], b[i] + c[i], p),
    ensures
        arith::eqm(arith::poly_at(a, x), arith::poly_at(b, x) + arith::poly_at(c, x), p),
    decreases a.len(),
{
    if a.len() > 0 {
        lemma_poly_at_sum(a.drop_last(), b.drop_last(), c.drop_last(), x, p);
        let k = (a.len() - 1) as nat;
        let e = pow(x, k);
        let (u, v, w) = (a.last(), b.last(), c.last());
        assert(arith::eqm(a[k as int], b[k as int] + c[k as int], p));
        arith::lemma_eqm_mul(u, v + w, e, e, p);
        assert((v + w) * e == v * e + w * e) by (nonlinear_arith);
        arith::lemma_eqm_add(
            arith::poly_at(a.drop_last(), x),
            arith::poly_at(b.drop_last(), x) + arith::poly_at(c.drop_last(), x),
            u * e,
            v * e + w * e,
            p,
        );
    }
}

/// The values of the blocks add up to the value of the sum of the blocks.
proof fn lemma_block_sum(s: Seq<int>, n: nat, m: nat, x: int, p: int)
    requires
        p > 0,
        s.len() >= m * n,
    ensures
        arith::eqm(arith::seq_sum(dft::block_values(s, n as int, m, x)), arith::poly_at(block_sum(s, n, m), x), p),
    decreases m,
{
    let v = dft::block_values(s, n as int, m, x);
    let t = block_sum(s, n, m);
    if m == 0 {
        assert(v =~= Seq::<int>::empty());
        assert forall|i: int| 0 <= i < t.len() implies arith::eqm(#[trigger] t[i], 0int, p) by {
            assert(Seq::new(m, |b: int| s[b * n + i]) =~= Seq::<int>::empty());
        }
        let z = Seq::new(n, |i: int| 0int);
        lemma_poly_at_sum(t, z, z, x, p);
        lemma_poly_at_zeros(z, x);
    } else {
        let k = (m - 1) as nat;
        assert(m * n == k * n + n) by (nonlinear_arith)
            requires
                m == k + 1,
        ;
        lemma_block_sum(s, n, k, x, p);
        assert(v.drop_last() =~= dft::block_values(s, n as int, k, x));
        let last = dft::block(s, n as int, k as int);
        assert((k + 1) * n == k * n + n) by (nonlinear_arith);
        assert(0 <= k * n) by (nonlinear_arith);
        let prev = block_sum(s, n, k);
        assert forall|j: int| 0 <= j < t.len() implies arith::eqm(
            #[trigger] t[j],
            prev[j] + last[j],
            p,
        ) by {
            let a = Seq::new(m, |b: int| s[b * n + j]);
            assert(a.drop_last() =~= Seq::new(k, |b: int| s[b * n + j]));
            assert(a.last() == s[k * n + j]);
        }
        lemma_poly_at_sum(t, prev, last, x, p);
        let c = arith::seq_sum(dft::block_values(s, n as int, k, x));
        arith::lemma_eqm_add(c, arith::poly_at(prev, x), arith::poly_at(last, x), arith::poly_at(last, x), p);
    }
}

proof fn lemma_poly_at_zeros(s: Seq<int>, x: int)
    requires
        forall|i: int| 0 <= i < s.len() ==> #[trigger] s[i] == 0,
    ensures
        arith::poly_at(s, x) == 0,
    decreases s.len(),
{
    if s.len() > 0 {
        lemma_poly_at_zeros(s.drop_last(), x);
        lemma_mul_basics(pow(x, (s.len() - 1) as nat));
    }
}

/// One column of a quotient: `h[b]` from the column `d` of its numerator.
spec fn column_divided<F: Field>(h: Seq<F>, d: Seq<F>, c: int) -> bool {
    &&& h.len() == d.len()
    &&& h.len() > 0
    &&& arith::eqm((c - 1) * h.last().val(), arith::seq_sum(poly::vals(d)), F::order())
    &&& forall|b: int|
        1 <= b < h.len() ==> arith::eqm(
            (#[trigger] h[b - 1]).val(),
            d[b].val() + h[b].val(),
            F::order(),
        )
}

/// Entry `b` of column `j` is a coefficient of block `b`.
spec fn placed<F: Field>(
    q: Seq<int>,
    d: Seq<int>,
    cols: Seq<Seq<F>>,
    nums: Seq<Seq<F>>,
    n: int,
    j: int,
    b: int,
) -> bool {
    q[b * n + j] == cols[j][b].val() && d[b * n + j] == nums[j][b].val()
}

/// Divides one column.
fn divide_column<F: Field>(numerators: &Vec<F>, divisor: F, Ghost(c): Ghost<int>) -> (h: Vec<F>)
    requires
        numerators@.len() > 0,
        arith::eqm(divisor.val() * (c - 1), 1, F::order()),
    ensures
        column_divided(h@, numerators@, c),
{
    let m: usize = numerators.len();
    let ghost p = F::order();
    let ghost d = poly::vals(numerators@);
    let mut sum = F::zero();
    let mut i: usize = 0;
    proof {
        F::lemma_order();
        arith::lemma_mod_small(0, p);
        assert(d.take(0) =~= Seq::<int>::empty());
    }
    while i < m
        invariant
            i <= m,
            m == numerators@.len(),
            d == poly::vals(numerators@),
            p == F::order(),
            p > 2,
            arith::eqm(sum.val(), arith::seq_sum(d.take(i as int)), p),
        decreases m - i,
    {
        let ghost before = sum.val();
        sum = sum.add(numerators[i]);
        proof {
            assert(d.take(i + 1) =~= d.take(i as int).push(d[i as int]));
            arith::lemma_seq_sum_push(d.take(i as int), d[i as int]);
            arith::lemma_mod_range(before + d[i as int], p);
            arith::lemma_eqm_add(before, arith::seq_sum(d.take(i as int)), d[i as int], d[i as int], p);
        }
        i += 1;
    }
    assert(d.take(m as int) =~= d);
    let last = sum.mul(divisor);
    let mut h: Vec<F> = Vec::with_capacity(m);
    let mut k: usize = 0;
    while k < m
        invariant
            k <= m,
            h@.len() == k,
            forall|t: int| 0 <= t < k ==> #[trigger] h@[t] == last,
        decreases m - k,
    {
        h.push(last);
        k += 1;
    }
    let mut b: usize = m - 1;
    while b > 0
        invariant
            b < m,
            m == h@.len(),
            m == numerators@.len(),
            p == F::order(),
            p > 2,
            h@[m - 1] == last,
            forall|t: int|
                b < t < m ==> arith::eqm(
                    (#[trigger] h@[t - 1]).val(),
                    numerators@[t].val() + h@[t].val(),
                    p,
                ),
        decreases b,
    {
        let previous = numerators[b].add(h[b]);
        let ghost now = h@;
        h.set(b - 1, previous);
        proof {
            arith::lemma_mod_range(numerators@[b as int].val() + now[b as int].val(), p);
            assert forall|t: int| b - 1 < t < m implies arith::eqm(
                (#[trigger] h@[t - 1]).val(),
                numerators@[t].val() + h@[t].val(),
                p,
            ) by {
                if t > b {
                    assert(h@[t - 1] == now[t - 1]);
                    assert(arith::eqm(now[t - 1].val(), numerators@[t].val() + now[t].val(), p));
                }
            }
        }
        b -= 1;
    }
    proof {
        let (s, v) = (sum.val(), divisor.val());
        arith::lemma_mod_range(s * v, p);
        arith::lemma_eqm_mul(c - 1, c - 1, (s * v) % p, s * v, p);
        assert((c - 1) * (s * v) == s * (v * (c - 1))) by (nonlinear_arith);
        arith::lemma_eqm_mul(s, arith::seq_sum(d), v * (c - 1), 1, p);
        lemma_mul_basics(arith::seq_sum(d));
    }
    h
}

impl<F: Field> EvaluationDomain<F> {
    /// Coefficient `m` of the polynomial with the values `a` on the coset.
    pub open spec fn coset_coefficient(&self, a: Seq<int>, m: int) -> int {
        (arith::poly_at(a, pow(self.extended_omega_inv.val(), m as nat)) * self.extended_ifft_divisor.val())
            * pow(F::cube_root() * F::cube_root(), m as nat)
    }

    /// These coefficients give the values.
    proof fn lemma_coset_coefficients(&self, c: Seq<int>, a: Seq<int>)
        requires
            self.wf(),
            a.len() == pow2(self.extended_k as nat),
            c.len() == a.len(),
            forall|m: int|
                0 <= m < c.len() ==> arith::eqm(
                    #[trigger] c[m],
                    self.coset_coefficient(a, m),
                    F::order(),
                ),
        ensures
            forall|i: int|
                0 <= i < a.len() ==> arith::eqm(
                    arith::poly_at(c, self.point(i)),
                    #[trigger] a[i],
                    F::order(),
                ),
    {
        self.lemma_roots();
        let v = self.extended_omega_inv.val();
        let d = self.extended_ifft_divisor.val();
        let b = Seq::new(a.len(), |m: int| arith::poly_at(a, pow(v, m as nat)) * d);
        fft::lemma_interpolates(
            b,
            a,
            self.extended_omega.val(),
            v,
            d,
            self.extended_k as nat,
            F::order(),
        );
        assert forall|i: int| 0 <= i < c.len() implies arith::eqm(
            #[trigger] c[i],
            b[i] * pow(F::cube_root() * F::cube_root(), i as nat),
            F::order(),
        ) by {
            assert(arith::eqm(c[i], self.coset_coefficient(a, i), F::order()));
        }
        self.lemma_from_coset(c, b, a);
    }

    /// Coefficient `m` from the forward transform of the values: an inverse transform
    /// reads output zero unchanged and every other output in reverse order.
    fn coefficient_at(&self, transform: &Vec<F>, m: usize, Ghost(a): Ghost<Seq<int>>) -> (r: F)
        requires
            self.wf(),
            a.len() == pow2(self.extended_k as nat),
            transform@.len() == a.len(),
            m < transform@.len(),
            fft::transformed(poly::vals(transform@), a, self.extended_omega.val(), 1, F::order()),
        ensures
            arith::eqm(r.val(), self.coset_coefficient(a, m as int), F::order()),
    {
        let n: usize = transform.len();
        let at: usize = if m == 0 {
            0
        } else {
            n - m
        };
        let x = transform[at];
        let y = x.mul(self.extended_ifft_divisor);
        let rest: usize = m % 3;
        let r = if rest == 0 {
            y
        } else if rest == 1 {
            y.mul(self.g_coset_inv)
        } else {
            y.mul(self.g_coset)
        };
        proof {
            let p = F::order();
            let w = self.extended_omega.val();
            let v = self.extended_omega_inv.val();
            let d = self.extended_ifft_divisor.val();
            let g = F::cube_root();
            let h = g * g;
            self.lemma_roots();
            F::lemma_order();
            transform::lemma_cube::<F>();
            assert(poly::vals(transform@)[at as int] == x.val());
            assert(arith::eqm(poly::vals(transform@)[at as int], arith::poly_at(a, pow(w, (1 * at) as nat)), p));
            assert(arith::eqm(pow(w, at as nat), pow(v, m as nat), p)) by {
                dft::lemma_inverse_power(w, v, m as nat, p);
                if m == 0 {
                    lemma_pow0(w);
                    lemma_pow0(v);
                } else {
                    lemma_pow_adds(w, at as nat, m as nat);
                    let (s, t, u) = (pow(w, at as nat), pow(w, m as nat), pow(v, m as nat));
                    assert(arith::eqm(s * t, 1, p));
                    arith::lemma_eqm_mul(s * t, 1, u, u, p);
                    lemma_mul_basics(u);
                    assert((s * t) * u == s * (t * u)) by (nonlinear_arith);
                    arith::lemma_eqm_mul(s, s, t * u, 1, p);
                    lemma_mul_basics(s);
                }
            }
            arith::lemma_poly_at_eqm(a, a, pow(w, at as nat), pow(v, m as nat), p);
            let e = arith::poly_at(a, pow(v, m as nat));
            arith::lemma_eqm_mul(x.val(), e, d, d, p);
            arith::lemma_mod_range(x.val() * d, p);
            let z = pow(h, m as nat);
            assert(h * (h * h) == (g * h) * (g * h)) by (nonlinear_arith)
                requires
                    h == g * g,
            ;
            arith::lemma_eqm_mul(g * h, 1, g * h, 1, p);
            transform::lemma_cube_powers(h, m as nat, p);
            arith::lemma_mod_range(h, p);
            if rest == 0 {
                arith::lemma_eqm_mul(e * d, e * d, z, 1, p);
                lemma_mul_basics(e * d);
            } else if rest == 1 {
                arith::lemma_eqm_mul(y.val(), e * d, self.g_coset_inv.val(), z, p);
                arith::lemma_mod_range(y.val() * self.g_coset_inv.val(), p);
            } else {
                assert(h * h == (g * h) * g) by (nonlinear_arith)
                    requires
                        h == g * g,
                ;
                arith::lemma_eqm_mul(g * h, 1, g, g, p);
                lemma_mul_basics(g);
                arith::lemma_eqm_mul(y.val(), e * d, self.g_coset.val(), z, p);
                arith::lemma_mod_range(y.val() * self.g_coset.val(), p);
            }
        }
        r
    }

    /// Converts an extended-domain polynomial to untruncated coefficient form
    /// using the proving key's forward twiddles.
    ///
    /// An inverse DFT is a forward DFT with every nonzero output index
    /// reversed, followed by the usual scaling. This avoids retaining a
    /// separate extended-inverse table.
    pub fn extended_to_coeff_full_with_twiddles(
        &self,
        polynomial: Polynomial<F, ExtendedLagrangeCoeff>,
        twiddles: &ProvingKeyTwiddles<F>,
    ) -> (r: Vec<F>)
        requires
            self.wf(),
            twiddles.fits(self),
            polynomial.values@.len() == self.view().extended_size(),
        ensures
            self.interpolates_coset(poly::vals(r@), poly::vals(polynomial.values@)),
    {
        let ghost a = poly::vals(polynomial.values@);
        let mut transform = polynomial.values;
        proof {
            self.lemma_roots();
        }
        fft_with_twiddles(
            &mut transform,
            self.extended_k,
            &twiddles.extended_forward,
            &twiddles.extended_forward_tables,
            Ghost(self.extended_omega.val()),
        );
        let n: usize = transform.len();
        let mut r: Vec<F> = Vec::with_capacity(n);
        let mut m: usize = 0;
        while m < n
            invariant
                m <= n,
                n == transform@.len(),
                n == a.len(),
                self.wf(),
                a.len() == pow2(self.extended_k as nat),
                fft::transformed(poly::vals(transform@), a, self.extended_omega.val(), 1, F::order()),
                r@.len() == m,
                forall|i: int|
                    0 <= i < m ==> arith::eqm(
                        (#[trigger] r@[i]).val(),
                        self.coset_coefficient(a, i),
                        F::order(),
                    ),
            decreases n - m,
        {
            r.push(self.coefficient_at(&transform, m, Ghost(a)));
            m += 1;
        }
        proof {
            let c = poly::vals(r@);
            assert forall|i: int| 0 <= i < c.len() implies arith::eqm(
                #[trigger] c[i],
                self.coset_coefficient(a, i),
                F::order(),
            ) by {
                assert(arith::eqm(r@[i].val(), self.coset_coefficient(a, i), F::order()));
            }
            self.lemma_coset_coefficients(c, a);
            convert::lemma_vals_reduced(r@);
        }
        r
    }

    /// Divided columns are a quotient.
    proof fn lemma_columns(
        &self,
        q: Seq<int>,
        d: Seq<int>,
        a: Seq<int>,
        nums: Seq<Seq<F>>,
        cols: Seq<Seq<F>>,
    )
        requires
            self.wf(),
            a.len() == pow2(self.extended_k as nat),
            q.len() == a.len(),
            d.len() == a.len(),
            forall|m: int|
                0 <= m < d.len() ==> arith::eqm(#[trigger] d[m], self.coset_coefficient(a, m), F::order()),
            nums.len() == self.n,
            cols.len() == self.n,
            forall|j: int|
                0 <= j < self.n ==> (#[trigger] cols[j]).len() == pow2(
                    (self.extended_k - self.k) as nat,
                ),
            forall|j: int|
                0 <= j < self.n ==> #[trigger] column_divided(
                    cols[j],
                    nums[j],
                    pow(F::cube_root(), pow2(self.extended_k as nat)),
                ),
            forall|j: int, b: int|
                0 <= j < self.n && 0 <= b < pow2((self.extended_k - self.k) as nat) ==> #[trigger]
                    placed(q, d, cols, nums, self.n as int, j, b),
        ensures
            forall|i: int|
                0 <= i < a.len() ==> arith::eqm(
                    arith::poly_at(q, self.point(i)) * self.vanishing(i),
                    #[trigger] a[i],
                    F::order(),
                ),
    {
        F::lemma_order();
        transform::lemma_unity_root::<F>(self.extended_k as nat);
        let p = F::order();
        let n = self.n as nat;
        let m = pow2((self.extended_k - self.k) as nat);
        let big = pow2(self.extended_k as nat);
        let g = F::cube_root();
        let w = self.extended_omega.val();
        let c = pow(g, big);
        domain::lemma_sizes(self.k as nat, self.extended_k as nat);
        lemma_pow2_pos((self.extended_k - self.k) as nat);
        lemma_mul_is_commutative(m as int, n as int);
        self.lemma_coset_coefficients(d, a);
        assert forall|i: int| 0 <= i < a.len() implies arith::eqm(
            arith::poly_at(q, self.point(i)) * self.vanishing(i),
            #[trigger] a[i],
            p,
        ) by {
            let x = self.point(i);
            let u = dft::block_values(q, n as int, m, x);
            let v = dft::block_values(d, n as int, m, x);
            let y = pow(x, n);
            assert forall|b: int| 1 <= b < u.len() implies arith::eqm(
                #[trigger] u[b - 1],
                v[b] + u[b],
                p,
            ) by {
                fft::lemma_chunk_inside(b - 1, n as int, m as int);
                fft::lemma_chunk_inside(b, n as int, m as int);
                let (e, f, h) = (
                    dft::block(q, n as int, b - 1),
                    dft::block(d, n as int, b),
                    dft::block(q, n as int, b),
                );
                assert forall|j: int| 0 <= j < e.len() implies arith::eqm(
                    #[trigger] e[j],
                    f[j] + h[j],
                    p,
                ) by {
                    assert(column_divided(cols[j], nums[j], c));
                    assert(placed(q, d, cols, nums, self.n as int, j, b - 1));
                    assert(placed(q, d, cols, nums, self.n as int, j, b));
                }
                lemma_poly_at_sum(e, f, h, x, p);
            }
            assert(arith::eqm((c - 1) * u.last(), arith::seq_sum(v), p)) by {
                let last = dft::block(q, n as int, m - 1);
                fft::lemma_chunk_inside(m - 1, n as int, m as int);
                let total = block_sum(d, n, m);
                lemma_block_sum(d, n, m, x, p);
                dft::lemma_poly_at_scaled(last, c - 1, x);
                lemma_mul_is_commutative(c - 1, u.last());
                assert forall|j: int| 0 <= j < n implies arith::eqm(
                    #[trigger] dft::scaled(last, c - 1)[j],
                    total[j],
                    p,
                ) by {
                    assert(column_divided(cols[j], nums[j], c));
                    assert(placed(q, d, cols, nums, self.n as int, j, m - 1));
                    let column = Seq::new(m, |b: int| d[b * n + j]);
                    assert(column =~= poly::vals(nums[j])) by {
                        assert forall|b: int| 0 <= b < m implies column[b] == poly::vals(nums[j])[b] by {
                            assert(placed(q, d, cols, nums, self.n as int, j, b));
                        }
                    }
                    lemma_mul_is_commutative(c - 1, last[j]);
                }
                arith::lemma_poly_at_eqm(dft::scaled(last, c - 1), total, x, x, p);
            }
            assert(arith::eqm(pow(y, m), c, p)) by {
                lemma_pow_multiplies(x, n, m);
                transform::lemma_coset_value(g, w, big, i as nat);
                arith::lemma_eqm_pow(pow(w, big), 1, i as nat, p);
                transform::lemma_pow_ones(i as nat);
                arith::lemma_eqm_mul(c, c, pow(pow(w, big), i as nat), 1, p);
                lemma_mul_basics(c);
            }
            dft::lemma_sparse_division(u, v, y, c, p);
            dft::lemma_poly_at_blocks(q, n, m, x);
            dft::lemma_poly_at_blocks(d, n, m, x);
            lemma_mul_is_commutative(self.vanishing(i), arith::poly_at(q, x));
            assert(arith::eqm(arith::poly_at(d, self.point(i)), a[i], p));
        }
    }

    /// Converts a quotient numerator from the extended evaluation domain into
    /// the coefficient-form quotient pieces.
    ///
    /// If the extended domain has size `N = m * n`, its coset coefficient ring
    /// is `F[X] / (X^N - c)` for `c = g^N`. In that ring,
    ///
    /// ```text
    /// (X^n - 1)^-1 = (1 + X^n + ... + X^((m - 1)n)) / (c - 1).
    /// ```
    ///
    /// This is equivalent for arbitrary numerator evaluations, not
    /// only for numerators that are polynomially divisible by `X^n - 1`.
    pub fn quotient_numerator_to_pieces_with_twiddles(
        &self,
        polynomial: Polynomial<F, ExtendedLagrangeCoeff>,
        twiddles: &ProvingKeyTwiddles<F>,
    ) -> (r: Vec<Polynomial<F, Coeff>>)
        requires
            self.wf(),
            twiddles.fits(self),
            polynomial.values@.len() == self.view().extended_size(),
        ensures
            r@.len() == self.quotient_poly_degree,
            self.quotient_poly_degree > 0 ==> exists|c: Seq<int>| #[trigger]
                self.is_quotient(c, poly::vals(polynomial.values@)) && self.pieces_of(r@, c),
    {
        if self.quotient_poly_degree == 0 {
            return Vec::new();
        }
        let ghost a = poly::vals(polynomial.values@);
        let mut transform = polynomial.values;
        proof {
            self.lemma_roots();
            domain::lemma_sizes(self.k as nat, self.extended_k as nat);
            lemma_pow2_pos((self.extended_k - self.k) as nat);
            let (n, q, m) = (
                self.n as int,
                self.quotient_poly_degree as int,
                pow2((self.extended_k - self.k) as nat) as int,
            );
            assert(q <= m) by (nonlinear_arith)
                requires
                    n * q <= n * m,
                    n >= 1,
            ;
        }
        fft_with_twiddles(
            &mut transform,
            self.extended_k,
            &twiddles.extended_forward,
            &twiddles.extended_forward_tables,
            Ghost(self.extended_omega.val()),
        );
        let block_len: usize = self.n as usize;
        let block_count: usize = power_of_two_difference(self.k, self.extended_k);
        let piece_count: usize = self.quotient_poly_degree as usize;
        let total: usize = transform.len();
        let mut pieces: Vec<Vec<F>> = Vec::with_capacity(piece_count);
        let mut b: usize = 0;
        while b < piece_count
            invariant
                b <= piece_count,
                pieces@.len() == b,
                forall|t: int| 0 <= t < b ==> (#[trigger] pieces@[t])@.len() == 0,
            decreases piece_count - b,
        {
            pieces.push(Vec::with_capacity(block_len));
            b += 1;
        }
        let ghost mut nums: Seq<Seq<F>> = Seq::empty();
        let ghost mut cols: Seq<Seq<F>> = Seq::empty();
        let ghost c = pow(F::cube_root(), pow2(self.extended_k as nat));
        let mut column: usize = 0;
        proof {
            lemma_mul_is_commutative(self.n as int, block_count as int);
        }
        while column < block_len
            invariant
                column <= block_len,
                self.wf(),
                block_len == self.n,
                block_count == pow2((self.extended_k - self.k) as nat),
                block_count > 0,
                piece_count <= block_count,
                total == transform@.len(),
                total == a.len(),
                total == block_count * block_len,
                a.len() == pow2(self.extended_k as nat),
                fft::transformed(poly::vals(transform@), a, self.extended_omega.val(), 1, F::order()),
                c == pow(F::cube_root(), pow2(self.extended_k as nat)),
                nums.len() == column,
                cols.len() == column,
                pieces@.len() == piece_count,
                forall|t: int| 0 <= t < piece_count ==> (#[trigger] pieces@[t])@.len() == column,
                forall|j: int| 0 <= j < column ==> (#[trigger] cols[j]).len() == block_count,
                forall|j: int|
                    0 <= j < column ==> #[trigger] column_divided(cols[j], nums[j], c),
                forall|j: int, t: int|
                    0 <= j < column && 0 <= t < block_count ==> arith::eqm(
                        (#[trigger] nums[j][t]).val(),
                        self.coset_coefficient(a, t * block_len + j),
                        F::order(),
                    ),
                forall|j: int, t: int|
                    0 <= j < column && 0 <= t < piece_count ==> #[trigger] pieces@[t]@[j]
                        == cols[j][t],
            decreases block_len - column,
        {
            let mut numerators: Vec<F> = Vec::with_capacity(block_count);
            let mut at: usize = 0;
            while at < block_count
                invariant
                    at <= block_count,
                    column < block_len,
                    self.wf(),
                    total == transform@.len(),
                    total == a.len(),
                    total == block_count * block_len,
                    a.len() == pow2(self.extended_k as nat),
                    fft::transformed(poly::vals(transform@), a, self.extended_omega.val(), 1, F::order()),
                    numerators@.len() == at,
                    forall|t: int|
                        0 <= t < at ==> arith::eqm(
                            (#[trigger] numerators@[t]).val(),
                            self.coset_coefficient(a, t * block_len + column),
                            F::order(),
                        ),
                decreases block_count - at,
            {
                proof {
                    fft::lemma_chunk_inside(at as int, block_len as int, block_count as int);
                }
                let index: usize = at * block_len + column;
                numerators.push(self.coefficient_at(&transform, index, Ghost(a)));
                at += 1;
            }
            let h = divide_column(&numerators, self.sparse_vanishing_divisor, Ghost(c));
            let ghost before = pieces@;
            append_column(&mut pieces, &h);
            proof {
                nums = nums.push(numerators@);
                cols = cols.push(h@);
                assert forall|j: int, t: int|
                    0 <= j < column + 1 && 0 <= t < block_count implies arith::eqm(
                    (#[trigger] nums[j][t]).val(),
                    self.coset_coefficient(a, t * block_len + j),
                    F::order(),
                ) by {
                    if j == column {
                        assert(nums[j][t] == numerators@[t]);
                    }
                }
                assert forall|j: int, t: int|
                    0 <= j < column + 1 && 0 <= t < piece_count implies #[trigger] pieces@[t]@[j]
                    == cols[j][t] by {
                    if j < column {
                        assert(before[t]@[j] == cols[j][t]);
                    }
                }
            }
            column += 1;
        }
        let ghost n = block_len as int;
        let ghost q = Seq::new(total as nat, |x: int| cols[x % n][x / n].val());
        let ghost d = Seq::new(total as nat, |x: int| nums[x % n][x / n].val());
        proof {
            assert forall|j: int, t: int| 0 <= j < n && 0 <= t < block_count implies #[trigger]
                placed(q, d, cols, nums, n, j, t) by {
                fft::lemma_chunk_inside(t, n, block_count as int);
                lemma_fundamental_div_mod_converse(t * n + j, n, t, j);
                lemma_mul_is_commutative(t, n);
            }
            assert forall|x: int| 0 <= x < d.len() implies arith::eqm(
                #[trigger] d[x],
                self.coset_coefficient(a, x),
                F::order(),
            ) by {
                lemma_fundamental_div_mod(x, n);
                arith::lemma_mod_range(x, n);
                lemma_mul_is_commutative(n, x / n);
                assert(0 <= x / n < block_count) by (nonlinear_arith)
                    requires
                        0 <= x < block_count * n,
                        n > 0,
                ;
                assert(arith::eqm(
                    nums[x % n][x / n].val(),
                    self.coset_coefficient(a, (x / n) * block_len + x % n),
                    F::order(),
                ));
            }
            self.lemma_columns(q, d, a, nums, cols);
            assert forall|x: int| 0 <= x < q.len() implies 0 <= #[trigger] q[x] < F::order() by {
                F::lemma_val(cols[x % n][x / n]);
            }
            assert(self.is_quotient(q, a));
        }
        let r = as_polynomials(pieces);
        proof {
            assert forall|t: int| 0 <= t < r@.len() implies poly::vals((#[trigger] r@[t]).values@)
                == dft::block(q, n, t) by {
                fft::lemma_chunk_inside(t, n, block_count as int);
                assert forall|j: int| 0 <= j < n implies poly::vals(r@[t].values@)[j] == dft::block(
                    q,
                    n,
                    t,
                )[j] by {
                    assert(pieces@[t]@[j] == cols[j][t]);
                    assert(placed(q, d, cols, nums, n, j, t));
                }
                assert(poly::vals(r@[t].values@) =~= dft::block(q, n, t));
            }
            assert(self.pieces_of(r@, q));
        }
        r
    }

    /// The polynomials are the blocks of `n` coefficients.
    pub open spec fn pieces_of(&self, r: Seq<Polynomial<F, Coeff>>, c: Seq<int>) -> bool {
        forall|b: int|
            0 <= b < r.len() ==> poly::vals((#[trigger] r[b]).values@) == dft::block(c, self.n as int, b)
    }
}

/// Appends one element to each piece.
fn append_column<F: Field>(pieces: &mut Vec<Vec<F>>, h: &Vec<F>)
    requires
        old(pieces)@.len() <= h@.len(),
    ensures
        final(pieces)@.len() == old(pieces)@.len(),
        forall|t: int|
            0 <= t < final(pieces)@.len() ==> (#[trigger] final(pieces)@[t])@ == old(
                pieces)@[t]@.push(h@[t]),
{
    let mut rest: Vec<Vec<F>> = Vec::with_capacity(pieces.len());
    core::mem::swap(&mut rest, pieces);
    let ghost before = rest@;
    let mut out: Vec<Vec<F>> = Vec::with_capacity(rest.len());
    let mut i: usize = 0;
    let n: usize = rest.len();
    while i < n
        invariant
            i <= n,
            n == before.len(),
            n == rest@.len(),
            n <= h@.len(),
            out@.len() == i,
            forall|t: int| i <= t < n ==> #[trigger] rest@[t] == before[t],
            forall|t: int| 0 <= t < i ==> (#[trigger] out@[t])@ == before[t]@.push(h@[t]),
        decreases n - i,
    {
        let mut piece: Vec<F> = Vec::new();
        core::mem::swap(&mut piece, &mut rest[i]);
        piece.push(h[i]);
        out.push(piece);
        i += 1;
    }
    *pieces = out;
}

fn as_polynomials<F: Field>(pieces: Vec<Vec<F>>) -> (r: Vec<Polynomial<F, Coeff>>)
    ensures
        r@.len() == pieces@.len(),
        forall|t: int| 0 <= t < r@.len() ==> (#[trigger] r@[t]).values@ == pieces@[t]@,
{
    let mut pieces = pieces;
    let ghost before = pieces@;
    let n: usize = pieces.len();
    let mut r: Vec<Polynomial<F, Coeff>> = Vec::with_capacity(n);
    let mut i: usize = 0;
    while i < n
        invariant
            i <= n,
            n == before.len(),
            n == pieces@.len(),
            r@.len() == i,
            forall|t: int| i <= t < n ==> #[trigger] pieces@[t] == before[t],
            forall|t: int| 0 <= t < i ==> (#[trigger] r@[t]).values@ == before[t]@,
        decreases n - i,
    {
        let mut piece: Vec<F> = Vec::new();
        core::mem::swap(&mut piece, &mut pieces[i]);
        r.push(Polynomial::new(piece));
        i += 1;
    }
    r
}

} // verus!
