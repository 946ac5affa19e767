//! Division of polynomials in coefficient form by monic polynomials.
use crate::arith;
use crate::collapse;
use crate::field::Field;
use crate::poly;
use crate::poly::{Coeff, Polynomial, copy_values};
use vstd::arithmetic::mul::*;
use vstd::arithmetic::power::*;
use vstd::prelude::*;

verus! {

/// The product of the differences `x - points[i]`.
pub open spec fn vanishing_at(points: Seq<int>, x: int) -> int
    decreases points.len(),
{
    if points.len() == 0 {
        1
    } else {
        vanishing_at(points.drop_last(), x) * (x - points.last())
    }
}

/// Whether `quotient * divisor + remainder` is `polynomial`, in value at every point.
pub open spec fn divides(
    polynomial: Seq<int>,
    points: Seq<int>,
    quotient: Seq<int>,
    remainder: Seq<int>,
    p: int,
) -> bool {
    &&& points.len() <= polynomial.len()
    &&& quotient.len() == polynomial.len() - points.len()
    &&& remainder.len() == points.len()
    &&& forall|x: int|
        #![trigger arith::poly_at(polynomial, x)]
        arith::eqm(
            arith::poly_at(polynomial, x),
            arith::poly_at(quotient, x) * vanishing_at(points, x) + arith::poly_at(remainder, x),
            p,
        )
}

/// `a[lo] b[c - lo] + .. + a[hi - 1] b[c - hi + 1]`: part of coefficient `c` of a product.
pub open spec fn convolved(a: Seq<int>, b: Seq<int>, c: int, lo: int, hi: int) -> int
    decreases hi - lo,
{
    if hi <= lo {
        0
    } else {
        convolved(a, b, c, lo, hi - 1) + collapse::coeff_at(a, hi - 1) * collapse::coeff_at(b, c - hi + 1)
    }
}

/// The coefficients of a product.
pub open spec fn product(a: Seq<int>, b: Seq<int>, n: nat) -> Seq<int> {
    Seq::new(n, |c: int| convolved(a, b, c, 0, c + 1))
}

proof fn lemma_convolved_split(a: Seq<int>, b: Seq<int>, c: int, lo: int, mid: int, hi: int)
    requires
        lo <= mid <= hi,
    ensures
        convolved(a, b, c, lo, hi) == convolved(a, b, c, lo, mid) + convolved(a, b, c, mid, hi),
    decreases hi - mid,
{
    if mid < hi {
        lemma_convolved_split(a, b, c, lo, mid, hi - 1);
    }
}

/// A part without a pair of coefficients is zero.
proof fn lemma_convolved_zero(a: Seq<int>, b: Seq<int>, c: int, lo: int, hi: int)
    requires
        forall|t: int|
            lo <= t < hi ==> #[trigger] collapse::coeff_at(a, t) == 0 || collapse::coeff_at(b, c - t) == 0,
    ensures
        convolved(a, b, c, lo, hi) == 0,
    decreases hi - lo,
{
    if lo < hi {
        lemma_convolved_zero(a, b, c, lo, hi - 1);
        assert(collapse::coeff_at(a, hi - 1) == 0 || collapse::coeff_at(b, c - (hi - 1)) == 0);
        lemma_mul_basics(collapse::coeff_at(a, hi - 1));
        lemma_mul_basics(collapse::coeff_at(b, c - hi + 1));
    }
}

/// One more coefficient of the first factor adds a multiple of the second.
proof fn lemma_convolved_push(a: Seq<int>, t: int, b: Seq<int>, c: int, hi: int)
    requires
        0 <= hi,
    ensures
        convolved(a.push(t), b, c, 0, hi) == convolved(a, b, c, 0, hi) + (if a.len() < hi {
            t * collapse::coeff_at(b, c - a.len())
        } else {
            0
        }),
    decreases hi,
{
    if hi > 0 {
        lemma_convolved_push(a, t, b, c, hi - 1);
        let i = hi - 1;
        if i == a.len() {
            lemma_mul_basics(collapse::coeff_at(b, c - i));
        }
    }
}

/// The coefficients of `x^k b`.
spec fn shifted(b: Seq<int>, k: int, n: nat) -> Seq<int> {
    Seq::new(n, |c: int| collapse::coeff_at(b, c - k))
}

spec fn zeros(n: nat) -> Seq<int> {
    Seq::new(n, |i: int| 0)
}

proof fn lemma_poly_at_zeros(n: nat, x: int)
    ensures
        arith::poly_at(zeros(n), x) == 0,
    decreases n,
{
    if n > 0 {
        lemma_poly_at_zeros((n - 1) as nat, x);
        assert(zeros(n).drop_last() =~= zeros((n - 1) as nat));
        lemma_mul_basics(pow(x, (n - 1) as nat));
    }
}

proof fn lemma_poly_at_shifted(b: Seq<int>, k: nat, n: nat, x: int)
    requires
        k + b.len() <= n,
    ensures
        arith::poly_at(shifted(b, k as int, n), x) == pow(x, k) * arith::poly_at(b, x),
{
    let back = zeros((n - k - b.len()) as nat);
    assert(shifted(b, k as int, n) =~= zeros(k) + (b + back));
    arith::lemma_poly_at_concat(zeros(k), b + back, x);
    arith::lemma_poly_at_concat(b, back, x);
    lemma_poly_at_zeros(k, x);
    lemma_poly_at_zeros(back.len(), x);
    lemma_mul_basics(pow(x, b.len()));
}

/// Zeros behind the last coefficient do not count.
pub proof fn lemma_poly_at_padding(b: Seq<int>, n: nat, x: int)
    requires
        b.len() <= n,
    ensures
        arith::poly_at(Seq::new(n, |i: int| collapse::coeff_at(b, i)), x) == arith::poly_at(b, x),
{
    lemma_poly_at_shifted(b, 0, n, x);
    lemma_pow0(x);
    assert(shifted(b, 0, n) =~= Seq::new(n, |i: int| collapse::coeff_at(b, i)));
    lemma_mul_basics(arith::poly_at(b, x));
}

pub proof fn lemma_poly_at_axpy(a: Seq<int>, b: Seq<int>, t: int, x: int)
    requires
        a.len() == b.len(),
    ensures
        arith::poly_at(Seq::new(a.len(), |i: int| a[i] + t * b[i]), x) == arith::poly_at(a, x) + t * arith::poly_at(
            b,
            x,
        ),
    decreases a.len(),
{
    let s = Seq::new(a.len(), |i: int| a[i] + t * b[i]);
    if a.len() == 0 {
        lemma_mul_basics(t);
    } else {
        let (c, d) = (a.drop_last(), b.drop_last());
        lemma_poly_at_axpy(c, d, t, x);
        assert(s.drop_last() =~= Seq::new(c.len(), |i: int| c[i] + t * d[i]));
        let q = pow(x, (a.len() - 1) as nat);
        let (u, v, r) = (a.last(), b.last(), arith::poly_at(d, x));
        assert((u + t * v) * q == u * q + t * (v * q)) by (nonlinear_arith);
        assert(t * (r + v * q) == t * r + t * (v * q)) by (nonlinear_arith);
    }
}

/// The coefficients of a product evaluate to the product of the values.
pub proof fn lemma_product(a: Seq<int>, b: Seq<int>, n: nat, x: int)
    requires
        a.len() + b.len() <= n,
    ensures
        arith::poly_at(product(a, b, n), x) == arith::poly_at(a, x) * arith::poly_at(b, x),
    decreases a.len(),
{
    if a.len() == 0 {
        assert forall|c: int| 0 <= c < n implies product(a, b, n)[c] == 0 by {
            lemma_convolved_zero(a, b, c, 0, c + 1);
        }
        assert(product(a, b, n) =~= zeros(n));
        lemma_poly_at_zeros(n, x);
        lemma_mul_basics(arith::poly_at(b, x));
    } else {
        let f = a.drop_last();
        let t = a.last();
        let k = f.len();
        lemma_product(f, b, n, x);
        assert(a =~= f.push(t));
        let u = product(f, b, n);
        let v = shifted(b, k as int, n);
        assert forall|c: int| 0 <= c < n implies product(a, b, n)[c] == u[c] + t * v[c] by {
            lemma_convolved_push(f, t, b, c, c + 1);
            lemma_mul_basics(t);
        }
        assert(product(a, b, n) =~= Seq::new(n, |i: int| u[i] + t * v[i]));
        lemma_poly_at_axpy(u, v, t, x);
        lemma_poly_at_shifted(b, k, n, x);
        let (r, q, w) = (arith::poly_at(f, x), pow(x, k), arith::poly_at(b, x));
        assert((r + t * q) * w == r * w + t * (q * w)) by (nonlinear_arith);
    }
}

/// Whether the quotient's coefficients produce the dividend's leading ones.
pub open spec fn leading_fits(
    polynomial: Seq<int>,
    divisor: Seq<int>,
    quotient: Seq<int>,
    from: int,
    p: int,
) -> bool {
    forall|i: int|
        from <= i < quotient.len() ==> #[trigger] leading_at(polynomial, divisor, quotient, i, p)
}

/// Whether a coefficient of the dividend is that of the product.
pub open spec fn leading_at(
    polynomial: Seq<int>,
    divisor: Seq<int>,
    quotient: Seq<int>,
    i: int,
    p: int,
) -> bool {
    let d = divisor.len() - 1;
    arith::eqm(polynomial[i + d], convolved(divisor, quotient, i + d, 0, i + d + 1), p)
}

/// Coefficient `i + d` of the product reads the quotient from `i` on, and up to the
/// divisor's degree.
proof fn lemma_leading(divisor: Seq<int>, quotient: Seq<int>, i: int, low: int)
    requires
        divisor.len() > 0,
        0 <= i < quotient.len(),
        0 <= low <= divisor.len() - 1,
        low == 0 || i + (divisor.len() - 1) - (low - 1) >= quotient.len(),
        divisor.last() == 1,
    ensures
        ({
            let d = divisor.len() - 1;
            convolved(divisor, quotient, i + d, 0, i + d + 1) == convolved(
                divisor,
                quotient,
                i + d,
                low,
                d,
            ) + quotient[i]
        }),
{
    let d = divisor.len() - 1;
    lemma_convolved_split(divisor, quotient, i + d, 0, low, i + d + 1);
    lemma_convolved_split(divisor, quotient, i + d, low, d, i + d + 1);
    lemma_convolved_split(divisor, quotient, i + d, d, d + 1, i + d + 1);
    lemma_convolved_zero(divisor, quotient, i + d, 0, low);
    lemma_convolved_zero(divisor, quotient, i + d, d + 1, i + d + 1);
    assert(convolved(divisor, quotient, i + d, d, d) == 0);
    assert(collapse::coeff_at(divisor, d) == 1);
    lemma_mul_basics(quotient[i]);
}

/// The leading part of the product depends only on the quotient from `from` on.
proof fn lemma_convolved_same(a: Seq<int>, b: Seq<int>, e: Seq<int>, c: int, lo: int, hi: int)
    requires
        forall|t: int| lo <= t < hi ==> collapse::coeff_at(b, c - t) == #[trigger] collapse::coeff_at(e, c - t),
    ensures
        convolved(a, b, c, lo, hi) == convolved(a, e, c, lo, hi),
    decreases hi - lo,
{
    if lo < hi {
        lemma_convolved_same(a, b, e, c, lo, hi - 1);
        assert(collapse::coeff_at(b, c - (hi - 1)) == collapse::coeff_at(e, c - (hi - 1)));
    }
}

/// Changing a coefficient of the quotient leaves the leading coefficients above it.
proof fn lemma_leading_update(
    polynomial: Seq<int>,
    divisor: Seq<int>,
    before: Seq<int>,
    after: Seq<int>,
    from: int,
    p: int,
)
    requires
        divisor.len() > 0,
        divisor.last() == 1,
        before.len() == after.len(),
        0 <= from,
        forall|k: int| from <= k < after.len() ==> before[k] == #[trigger] after[k],
        leading_fits(polynomial, divisor, before, from, p),
    ensures
        leading_fits(polynomial, divisor, after, from, p),
{
    let d = divisor.len() - 1;
    assert forall|i: int| from <= i < after.len() implies #[trigger] leading_at(
        polynomial,
        divisor,
        after,
        i,
        p,
    ) by {
        assert(leading_at(polynomial, divisor, before, i, p));
        lemma_leading_full(divisor, before, i);
        lemma_leading_full(divisor, after, i);
        lemma_convolved_same(divisor, before, after, i + d, 0, d);
    }
}

proof fn lemma_leading_full(divisor: Seq<int>, quotient: Seq<int>, i: int)
    requires
        divisor.len() > 0,
        0 <= i < quotient.len(),
        divisor.last() == 1,
    ensures
        ({
            let d = divisor.len() - 1;
            convolved(divisor, quotient, i + d, 0, i + d + 1) == convolved(
                divisor,
                quotient,
                i + d,
                0,
                d,
            ) + quotient[i]
        }),
{
    lemma_leading(divisor, quotient, i, 0);
}

/// Divides by `X - point` in place and returns the remainder.
pub fn kate_division_in_place<F: Field>(polynomial: &mut Vec<F>, point: F) -> (r: F)
    requires
        old(polynomial)@.len() > 0,
    ensures
        final(polynomial)@.len() == old(polynomial)@.len() - 1,
        r.val() == arith::poly_at(poly::vals(old(polynomial)@), point.val()) % F::order(),
        forall|x: int|
            #![trigger arith::poly_at(poly::vals(old(polynomial)@), x)]
            arith::eqm(
                arith::poly_at(poly::vals(old(polynomial)@), x),
                arith::poly_at(poly::vals(final(polynomial)@), x) * (x - point.val()) + r.val(),
                F::order(),
            ),
{
    let ghost before = polynomial@;
    let ghost s = poly::vals(before);
    let ghost p = F::order();
    let ghost z = point.val();
    let n: usize = polynomial.len();
    let mut i: usize = n - 1;
    let mut carry = polynomial[i];
    proof {
        F::lemma_order();
        F::lemma_val(carry);
        assert(s.skip(n - 1) =~= seq![carry.val()]);
        assert(poly::vals(polynomial@.subrange(i as int, n - 1)) =~= Seq::<int>::empty());
        assert forall|x: int|
            #![trigger arith::poly_at(s.skip(i as int), x)]
            arith::eqm(
                arith::poly_at(s.skip(i as int), x),
                arith::poly_at(poly::vals(polynomial@.subrange(i as int, n - 1)), x) * (x - z) + carry.val(),
                p,
            ) by {
            arith::lemma_poly_at_first(s.skip(n - 1), x);
            assert(s.skip(n - 1).skip(1) =~= Seq::<int>::empty());
            lemma_mul_basics(x);
            lemma_mul_basics(x - z);
        }
    }
    while i > 0
        invariant
            i < n,
            n == polynomial@.len(),
            n == before.len(),
            s == poly::vals(before),
            p == F::order(),
            p > 2,
            z == point.val(),
            forall|k: int| 0 <= k < i ==> #[trigger] polynomial@[k] == before[k],
            forall|x: int|
                #![trigger arith::poly_at(s.skip(i as int), x)]
                arith::eqm(
                    arith::poly_at(s.skip(i as int), x),
                    arith::poly_at(poly::vals(polynomial@.subrange(i as int, n - 1)), x) * (x - z)
                        + carry.val(),
                    p,
                ),
        decreases i,
    {
        let ghost now = polynomial@;
        let ghost high = carry.val();
        i -= 1;
        let coefficient = polynomial[i];
        polynomial[i] = carry;
        let product = carry.mul(point);
        carry = coefficient.add(product);
        proof {
            let t = s.skip(i as int);
            assert(t.skip(1) =~= s.skip(i + 1));
            let q = poly::vals(polynomial@.subrange(i as int, n - 1));
            let u = poly::vals(now.subrange(i + 1, n - 1));
            assert(q.skip(1) =~= u);
            assert(q[0] == high);
            assert forall|x: int|
                #![trigger arith::poly_at(t, x)]
                arith::eqm(arith::poly_at(t, x), arith::poly_at(q, x) * (x - z) + carry.val(), p) by {
                arith::lemma_poly_at_first(t, x);
                arith::lemma_poly_at_first(q, x);
                let a = arith::poly_at(s.skip(i + 1), x);
                let b = arith::poly_at(u, x);
                let c = coefficient.val();
                // The carry is the coefficient and the point times the former carry.
                arith::lemma_mod_mul(high, z, p);
                arith::lemma_mod_add(c, (high * z) % p, p);
                arith::lemma_mod_add(c, high * z, p);
                arith::lemma_mod_range(c + high * z, p);
                assert(carry.val() == (c + high * z) % p);
                arith::lemma_eqm_mul(x, x, a, b * (x - z) + high, p);
                arith::lemma_eqm_add(c, c, x * a, x * (b * (x - z) + high), p);
                arith::lemma_eqm_add(
                    (high + x * b) * (x - z),
                    (high + x * b) * (x - z),
                    carry.val(),
                    c + high * z,
                    p,
                );
                assert(c + x * (b * (x - z) + high) == (high + x * b) * (x - z) + (c + high * z))
                    by (nonlinear_arith);
            }
        }
    }
    let remainder = carry;
    polynomial.truncate(n - 1);
    proof {
        assert(s.skip(0) =~= s);
        assert(polynomial@.subrange(0, n - 1) =~= polynomial@);
        assert forall|x: int|
            #![trigger arith::poly_at(s, x)]
            arith::eqm(arith::poly_at(s, x), arith::poly_at(poly::vals(polynomial@), x) * (x - z) + remainder.val(), p) by {
            assert(arith::poly_at(s.skip(0), x) == arith::poly_at(s, x));
        }
        assert(arith::eqm(
            arith::poly_at(s, z),
            arith::poly_at(poly::vals(polynomial@), z) * (z - z) + remainder.val(),
            p,
        ));
        lemma_mul_basics(arith::poly_at(poly::vals(polynomial@), z));
        F::lemma_val(remainder);
        arith::lemma_mod_small(remainder.val(), p);
    }
    remainder
}

/// The monic polynomial that vanishes at the points.
pub fn vanishing_polynomial<F: Field>(points: &[F]) -> (r: Vec<F>)
    requires
        points@.len() < usize::MAX,
    ensures
        r@.len() == points@.len() + 1,
        r@.last().val() == 1,
        forall|x: int|
            #![trigger arith::poly_at(poly::vals(r@), x)]
            arith::eqm(arith::poly_at(poly::vals(r@), x), vanishing_at(poly::vals(points@), x), F::order()),
{
    let ghost p = F::order();
    let ghost s = poly::vals(points@);
    let mut coefficients: Vec<F> = Vec::with_capacity(points.len() + 1);
    coefficients.push(F::one());
    let mut j: usize = 0;
    proof {
        F::lemma_order();
        assert(s.take(0) =~= Seq::<int>::empty());
        assert forall|x: int|
            #![trigger arith::poly_at(poly::vals(coefficients@), x)]
            arith::eqm(arith::poly_at(poly::vals(coefficients@), x), vanishing_at(s.take(0), x), p) by {
            arith::lemma_poly_at_first(poly::vals(coefficients@), x);
            assert(poly::vals(coefficients@).skip(1) =~= Seq::<int>::empty());
            lemma_mul_basics(x);
        }
    }
    while j < points.len()
        invariant
            j <= points@.len(),
            s == poly::vals(points@),
            p == F::order(),
            p > 2,
            coefficients@.len() == j + 1,
            points@.len() < usize::MAX,
            coefficients@.last().val() == 1,
            forall|x: int|
                #![trigger arith::poly_at(poly::vals(coefficients@), x)]
                arith::eqm(arith::poly_at(poly::vals(coefficients@), x), vanishing_at(s.take(j as int), x), p),
        decreases points@.len() - j,
    {
        let ghost before = coefficients@;
        let ghost f = poly::vals(before);
        let point = points[j];
        let degree: usize = coefficients.len();
        coefficients.push(F::zero());
        let mut i: usize = degree;
        // Multiply by (X - point) in place.
        while i > 0
            invariant
                i <= degree,
                degree == before.len(),
                coefficients@.len() == degree + 1,
                p == F::order(),
                p > 2,
                forall|k: int| 0 <= k < i && k < degree ==> #[trigger] coefficients@[k] == before[k],
                i == degree ==> coefficients@[degree as int].val() == 0,
                i < degree ==> coefficients@[i as int] == before[i as int],
                forall|k: int|
                    i < k <= degree ==> (#[trigger] coefficients@[k]).val() == (before[k - 1].val()
                        - collapse::coeff_at(poly::vals(before), k) * point.val()) % p,
            decreases i,
        {
            let high = coefficients[i];
            let low = coefficients[i - 1];
            let product = high.mul(point);
            coefficients[i] = low.sub(product);
            proof {
                assert(collapse::coeff_at(poly::vals(before), i as int) == high.val());
                arith::lemma_mod_sub(low.val(), high.val() * point.val(), p);
            }
            i -= 1;
        }
        let first = coefficients[0].mul(point);
        coefficients[0] = first.neg();
        proof {
            let z = point.val();
            let d = degree as int;
            let g = poly::vals(coefficients@);
            lemma_mul_basics(z);
            arith::lemma_mod_sub(0, f[0] * z, p);
            assert(g[0] == (0 - f[0] * z) % p) by {
                arith::lemma_mod_range(f[0] * z, p);
            }
            // The last is the former last.
            assert(g[d] == (f[d - 1] - 0 * z) % p);
            arith::lemma_mod_small(1, p);
            let up = shifted(f, 1, (d + 1) as nat);
            let same = shifted(f, 0, (d + 1) as nat);
            let exact = Seq::new((d + 1) as nat, |i: int| up[i] + (-z) * same[i]);
            assert forall|k: int| 0 <= k < g.len() implies arith::eqm(#[trigger] g[k], exact[k], p) by {
                let a = collapse::coeff_at(f, k - 1);
                let b = collapse::coeff_at(f, k);
                assert(a + (-z) * b == a - b * z) by (nonlinear_arith);
                arith::lemma_mod_range(a - b * z, p);
            }
            assert(s.take(j + 1) =~= s.take(j as int).push(s[j as int]));
            assert(s.take(j + 1).drop_last() =~= s.take(j as int));
            assert forall|x: int|
                #![trigger arith::poly_at(g, x)]
                arith::eqm(arith::poly_at(g, x), vanishing_at(s.take(j + 1), x), p) by {
                arith::lemma_poly_at_eqm(g, exact, x, x, p);
                lemma_poly_at_axpy(up, same, -z, x);
                lemma_poly_at_shifted(f, 1, (d + 1) as nat, x);
                lemma_poly_at_shifted(f, 0, (d + 1) as nat, x);
                lemma_pow0(x);
                lemma_pow1(x);
                let v = arith::poly_at(f, x);
                let w = vanishing_at(s.take(j as int), x);
                assert(arith::eqm(v, w, p));
                arith::lemma_eqm_mul(v, w, x - z, x - z, p);
                assert(x * v + (-z) * (1 * v) == v * (x - z)) by (nonlinear_arith);
            }
        }
        j += 1;
    }
    assert(s.take(j as int) =~= s);
    coefficients
}

/// Divides by a monic quadratic polynomial.
pub fn divide_by_monic_quadratic<F: Field>(polynomial: &[F], divisor: &Vec<F>, quotient: &mut Vec<F>)
    requires
        divisor@.len() == 3,
        divisor@[2].val() == 1,
        old(quotient)@.len() + 2 == polynomial@.len(),
    ensures
        final(quotient)@.len() == old(quotient)@.len(),
        leading_fits(poly::vals(polynomial@), poly::vals(divisor@), poly::vals(final(quotient)@), 0, F::order()),
{
    let ghost p = F::order();
    let n: usize = quotient.len();
    let ghost s = poly::vals(polynomial@);
    let ghost f = poly::vals(divisor@);
    let total: usize = polynomial.len();
    let mut i: usize = n;
    let mut higher_1 = F::zero();
    let mut higher_2 = F::zero();
    proof {
        F::lemma_order();
    }
    while i > 0
        invariant
            i <= n,
            n == quotient@.len(),
            n + 2 == polynomial@.len(),
            n + 2 <= usize::MAX,
            p == F::order(),
            p > 2,
            s == poly::vals(polynomial@),
            f == poly::vals(divisor@),
            f.len() == 3,
            f[2] == 1,
            higher_1.val() == collapse::coeff_at(poly::vals(quotient@), i as int),
            higher_2.val() == collapse::coeff_at(poly::vals(quotient@), i + 1),
            leading_fits(s, f, poly::vals(quotient@), i as int, p),
        decreases i,
    {
        let ghost before = poly::vals(quotient@);
        i -= 1;
        let by_1 = divisor[1].mul(higher_1);
        let by_0 = divisor[0].mul(higher_2);
        let reduced = polynomial[i + 2].sub(by_1);
        let coefficient = reduced.sub(by_0);
        quotient[i] = coefficient;
        proof {
            let after = poly::vals(quotient@);
            let (h1, h2) = (higher_1.val(), higher_2.val());
            lemma_leading_update(s, f, before, after, i + 1, p);
            lemma_leading(f, after, i as int, 0);
            let c = i + 2;
            reveal_with_fuel(convolved, 3);
            assert(collapse::coeff_at(after, c - 1) == h1);
            assert(collapse::coeff_at(after, c) == h2);
            assert(convolved(f, after, c, 0, 2) == f[0] * h2 + f[1] * h1);
            let a = s[i + 2];
            arith::lemma_mod_sub(a, f[1] * h1, p);
            arith::lemma_mod_sub((a - f[1] * h1) % p, f[0] * h2, p);
            arith::lemma_mod_sub(a - f[1] * h1, f[0] * h2, p);
            let t = a - f[1] * h1 - f[0] * h2;
            arith::lemma_mod_range(t, p);
            assert(after[i as int] == t % p);
            let k = f[0] * h2 + f[1] * h1;
            arith::lemma_eqm_add(k, k, t % p, t, p);
            assert(leading_at(s, f, after, i as int, p));
        }
        higher_2 = higher_1;
        higher_1 = coefficient;
    }
}

/// Divides by a monic cubic polynomial.
pub fn divide_by_monic_cubic<F: Field>(polynomial: &[F], divisor: &Vec<F>, quotient: &mut Vec<F>)
    requires
        divisor@.len() == 4,
        divisor@[3].val() == 1,
        old(quotient)@.len() + 3 == polynomial@.len(),
    ensures
        final(quotient)@.len() == old(quotient)@.len(),
        leading_fits(poly::vals(polynomial@), poly::vals(divisor@), poly::vals(final(quotient)@), 0, F::order()),
{
    let ghost p = F::order();
    let n: usize = quotient.len();
    let ghost s = poly::vals(polynomial@);
    let ghost f = poly::vals(divisor@);
    let total: usize = polynomial.len();
    let mut i: usize = n;
    let mut higher_1 = F::zero();
    let mut higher_2 = F::zero();
    let mut higher_3 = F::zero();
    proof {
        F::lemma_order();
    }
    while i > 0
        invariant
            i <= n,
            n == quotient@.len(),
            n + 3 == polynomial@.len(),
            n + 3 <= usize::MAX,
            p == F::order(),
            p > 2,
            s == poly::vals(polynomial@),
            f == poly::vals(divisor@),
            f.len() == 4,
            f[3] == 1,
            higher_1.val() == collapse::coeff_at(poly::vals(quotient@), i as int),
            higher_2.val() == collapse::coeff_at(poly::vals(quotient@), i + 1),
            higher_3.val() == collapse::coeff_at(poly::vals(quotient@), i + 2),
            leading_fits(s, f, poly::vals(quotient@), i as int, p),
        decreases i,
    {
        let ghost before = poly::vals(quotient@);
        i -= 1;
        let by_2 = divisor[2].mul(higher_1);
        let by_1 = divisor[1].mul(higher_2);
        let by_0 = divisor[0].mul(higher_3);
        let once = polynomial[i + 3].sub(by_2);
        let twice = once.sub(by_1);
        let coefficient = twice.sub(by_0);
        quotient[i] = coefficient;
        proof {
            let after = poly::vals(quotient@);
            let (h1, h2, h3) = (higher_1.val(), higher_2.val(), higher_3.val());
            lemma_leading_update(s, f, before, after, i + 1, p);
            lemma_leading(f, after, i as int, 0);
            let c = i + 3;
            reveal_with_fuel(convolved, 4);
            assert(collapse::coeff_at(after, c - 2) == h1);
            assert(collapse::coeff_at(after, c - 1) == h2);
            assert(collapse::coeff_at(after, c) == h3);
            let k = f[0] * h3 + f[1] * h2 + f[2] * h1;
            assert(convolved(f, after, c, 0, 3) == k);
            let a = s[i + 3];
            let a1 = a - f[2] * h1;
            let a2 = a1 - f[1] * h2;
            let t = a2 - f[0] * h3;
            arith::lemma_mod_sub(a, f[2] * h1, p);
            arith::lemma_mod_sub(a1 % p, f[1] * h2, p);
            arith::lemma_mod_sub(a1, f[1] * h2, p);
            arith::lemma_mod_sub(a2 % p, f[0] * h3, p);
            arith::lemma_mod_sub(a2, f[0] * h3, p);
            arith::lemma_mod_range(t, p);
            assert(after[i as int] == t % p);
            arith::lemma_eqm_add(k, k, t % p, t, p);
            assert(leading_at(s, f, after, i as int, p));
        }
        higher_3 = higher_2;
        higher_2 = higher_1;
        higher_1 = coefficient;
    }
}

/// Divides by a monic polynomial of any degree.
pub fn divide_by_monic<F: Field>(polynomial: &[F], divisor: &Vec<F>, quotient: &mut Vec<F>)
    requires
        divisor@.len() > 0,
        divisor@.last().val() == 1,
        old(quotient)@.len() + divisor@.len() - 1 == polynomial@.len(),
    ensures
        final(quotient)@.len() == old(quotient)@.len(),
        leading_fits(poly::vals(polynomial@), poly::vals(divisor@), poly::vals(final(quotient)@), 0, F::order()),
{
    let ghost p = F::order();
    let n: usize = quotient.len();
    let ghost s = poly::vals(polynomial@);
    let ghost f = poly::vals(divisor@);
    let total: usize = polynomial.len();
    let degree: usize = divisor.len() - 1;
    let mut i: usize = n;
    proof {
        F::lemma_order();
    }
    while i > 0
        invariant
            i <= n,
            n == quotient@.len(),
            n + degree == polynomial@.len(),
            n + degree <= usize::MAX,
            degree + 1 == divisor@.len(),
            p == F::order(),
            p > 2,
            s == poly::vals(polynomial@),
            f == poly::vals(divisor@),
            f.last() == 1,
            leading_fits(s, f, poly::vals(quotient@), i as int, p),
        decreases i,
    {
        let ghost before = poly::vals(quotient@);
        i -= 1;
        let mut coefficient = polynomial[i + degree];
        let left: usize = n - 1 - i;
        let higher_count: usize = if degree < left {
            degree
        } else {
            left
        };
        let mut h: usize = 0;
        proof {
            F::lemma_val(coefficient);
            arith::lemma_mod_small(coefficient.val(), p);
            assert(convolved(f, before, i + degree, degree as int, degree as int) == 0);
        }
        while h < higher_count
            invariant
                h <= higher_count,
                higher_count <= degree,
                higher_count <= n - 1 - i,
                i < n,
                n == quotient@.len(),
                n + degree <= usize::MAX,
                degree + 1 == divisor@.len(),
                p == F::order(),
                p > 2,
                f == poly::vals(divisor@),
                before == poly::vals(quotient@),
                coefficient.val() == (s[i + degree] - convolved(
                    f,
                    before,
                    i + degree,
                    degree - h,
                    degree as int,
                )) % p,
            decreases higher_count - h,
        {
            let divisor_coefficient = divisor[degree - 1 - h];
            let higher = quotient[i + 1 + h];
            let product = divisor_coefficient.mul(higher);
            proof {
                let c = i + degree;
                let lo = degree - h - 1;
                lemma_convolved_split(f, before, c, lo, lo + 1, degree as int);
                assert(convolved(f, before, c, lo, lo) == 0);
                let t = f[lo] * before[i + 1 + h];
                assert(convolved(f, before, c, lo, lo + 1) == t);
                let a = s[i + degree] - convolved(f, before, c, lo + 1, degree as int);
                arith::lemma_mod_sub(a % p, t, p);
                arith::lemma_mod_sub(a, t, p);
            }
            coefficient = coefficient.sub(product);
            h += 1;
        }
        quotient[i] = coefficient;
        proof {
            let after = poly::vals(quotient@);
            let d = degree as int;
            let low = d - higher_count;
            lemma_leading_update(s, f, before, after, i + 1, p);
            lemma_convolved_same(f, before, after, i + d, low, d);
            lemma_leading(f, after, i as int, low);
            let k = convolved(f, before, i + d, low, d);
            let a = s[i + d];
            arith::lemma_mod_range(a - k, p);
            arith::lemma_eqm_add(k, k, (a - k) % p, a - k, p);
            assert(leading_at(s, f, after, i as int, p));
        }
    }
}

/// The low coefficients that the product of divisor and quotient leaves over.
fn low_remainder<F: Field>(polynomial: &[F], divisor: &Vec<F>, quotient: &Vec<F>) -> (r: Vec<F>)
    requires
        divisor@.len() > 0,
        quotient@.len() + divisor@.len() - 1 == polynomial@.len(),
    ensures
        r@.len() == divisor@.len() - 1,
        forall|c: int|
            0 <= c < r@.len() ==> (#[trigger] r@[c]).val() == (polynomial@[c].val() - convolved(
                poly::vals(divisor@),
                poly::vals(quotient@),
                c,
                0,
                c + 1,
            )) % F::order(),
{
    let ghost p = F::order();
    let ghost s = poly::vals(polynomial@);
    let ghost f = poly::vals(divisor@);
    let ghost q = poly::vals(quotient@);
    let degree: usize = divisor.len() - 1;
    let total: usize = polynomial.len();
    let mut remainder: Vec<F> = Vec::with_capacity(degree);
    proof {
        F::lemma_order();
    }
    while remainder.len() < degree
        invariant
            degree + 1 == divisor@.len(),
            remainder@.len() <= degree,
            quotient@.len() + degree == polynomial@.len(),
            p == F::order(),
            p > 2,
            s == poly::vals(polynomial@),
            f == poly::vals(divisor@),
            q == poly::vals(quotient@),
            forall|c: int|
                0 <= c < remainder@.len() ==> (#[trigger] remainder@[c]).val() == (s[c]
                    - convolved(f, q, c, 0, c + 1)) % p,
        decreases degree - remainder@.len(),
    {
        let c: usize = remainder.len();
        let mut coefficient = polynomial[c];
        let mut t: usize = 0;
        proof {
            F::lemma_val(coefficient);
            arith::lemma_mod_small(coefficient.val(), p);
        }
        while t <= c
            invariant
                t <= c + 1,
                c < degree,
                degree + 1 == divisor@.len(),
                p == F::order(),
                p > 2,
                f == poly::vals(divisor@),
                q == poly::vals(quotient@),
                coefficient.val() == (s[c as int] - convolved(f, q, c as int, 0, t as int)) % p,
            decreases c + 1 - t,
        {
            let ghost a = s[c as int] - convolved(f, q, c as int, 0, t as int);
            if c - t < quotient.len() {
                let product = divisor[t].mul(quotient[c - t]);
                proof {
                    let u = f[t as int] * q[c - t];
                    arith::lemma_mod_sub(a % p, u, p);
                    arith::lemma_mod_sub(a, u, p);
                }
                coefficient = coefficient.sub(product);
            } else {
                proof {
                    lemma_mul_basics(f[t as int]);
                }
            }
            t += 1;
        }
        remainder.push(coefficient);
    }
    remainder
}

/// The quotient and the remainder of a division by the polynomial that vanishes at the
/// points.
pub fn divide_by_vanishing_polynomial<F: Field>(polynomial: &Polynomial<F, Coeff>, points: &[F]) -> (r: (
    Vec<F>,
    Vec<F>,
))
    requires
        points@.len() <= polynomial.values@.len(),
        points@.len() < usize::MAX,
    ensures
        divides(poly::vals(polynomial.values@), poly::vals(points@), poly::vals(r.0@), poly::vals(r.1@), F::order()),
{
    let ghost p = F::order();
    let ghost s = poly::vals(polynomial.values@);
    let ghost z = poly::vals(points@);
    let degree: usize = points.len();
    let total: usize = polynomial.values.len();
    proof {
        F::lemma_order();
    }
    if degree == 0 {
        let quotient = copy_values(polynomial.values.as_slice());
        let remainder: Vec<F> = Vec::new();
        proof {
            assert forall|x: int|
                #![trigger arith::poly_at(s, x)]
                arith::eqm(arith::poly_at(s, x), arith::poly_at(s, x) * vanishing_at(z, x) + arith::poly_at(
                    poly::vals(remainder@),
                    x,
                ), p) by {
                lemma_mul_basics(arith::poly_at(s, x));
            }
        }
        return (quotient, remainder);
    }
    if degree == 1 {
        let mut quotient = copy_values(polynomial.values.as_slice());
        let value = kate_division_in_place(&mut quotient, points[0]);
        let mut remainder: Vec<F> = Vec::with_capacity(1);
        remainder.push(value);
        proof {
            assert(z.drop_last() =~= Seq::<int>::empty());
            assert forall|x: int|
                #![trigger arith::poly_at(s, x)]
                arith::eqm(arith::poly_at(s, x), arith::poly_at(poly::vals(quotient@), x) * vanishing_at(z, x) + arith::poly_at(
                    poly::vals(remainder@),
                    x,
                ), p) by {
                reveal_with_fuel(vanishing_at, 2);
                assert(vanishing_at(z, x) == 1 * (x - z[0]));
                arith::lemma_poly_at_first(poly::vals(remainder@), x);
                assert(poly::vals(remainder@).skip(1) =~= Seq::<int>::empty());
                lemma_mul_basics(x);
            }
        }
        return (quotient, remainder);
    }
    let divisor = vanishing_polynomial(points);
    let mut quotient: Vec<F> = Vec::with_capacity(total - degree);
    while quotient.len() < total - degree
        invariant
            quotient@.len() <= total - degree,
            degree <= total,
        decreases total - degree - quotient@.len(),
    {
        quotient.push(F::zero());
    }
    if degree == 2 {
        divide_by_monic_quadratic(polynomial.values.as_slice(), &divisor, &mut quotient);
    } else if degree == 3 {
        divide_by_monic_cubic(polynomial.values.as_slice(), &divisor, &mut quotient);
    } else {
        divide_by_monic(polynomial.values.as_slice(), &divisor, &mut quotient);
    }
    let remainder = low_remainder(polynomial.values.as_slice(), &divisor, &quotient);
    proof {
        let f = poly::vals(divisor@);
        let q = poly::vals(quotient@);
        let r = poly::vals(remainder@);
        let d = degree as int;
        let n = total as nat;
        // The product is as long as the dividend; it is padded by one.
        let w = product(f, q, n + 1);
        let low = Seq::new(n + 1, |c: int| collapse::coeff_at(r, c));
        let exact = Seq::new(n + 1, |i: int| w[i] + 1 * low[i]);
        let padded = Seq::new(n + 1, |c: int| collapse::coeff_at(s, c));
        assert forall|c: int| 0 <= c < n + 1 implies arith::eqm(#[trigger] padded[c], exact[c], p) by {
            if c < d {
                let k = convolved(f, q, c, 0, c + 1);
                arith::lemma_mod_range(s[c] - k, p);
                arith::lemma_eqm_add(k, k, (s[c] - k) % p, s[c] - k, p);
                assert(r[c] == remainder@[c].val());
            } else if c < n {
                let i = c - d;
                assert(leading_at(s, f, q, i, p));
            } else {
                lemma_convolved_zero(f, q, c, 0, c + 1);
            }
        }
        assert forall|x: int|
            #![trigger arith::poly_at(s, x)]
            arith::eqm(arith::poly_at(s, x), arith::poly_at(q, x) * vanishing_at(z, x) + arith::poly_at(r, x), p) by {
            lemma_poly_at_padding(s, n + 1, x);
            lemma_poly_at_padding(r, n + 1, x);
            arith::lemma_poly_at_eqm(padded, exact, x, x, p);
            lemma_poly_at_axpy(w, low, 1, x);
            lemma_product(f, q, n + 1, x);
            let (a, b, c) = (arith::poly_at(f, x), arith::poly_at(q, x), vanishing_at(z, x));
            assert(arith::eqm(a, c, p));
            arith::lemma_eqm_mul(a, c, b, b, p);
            lemma_mul_is_commutative(c, b);
            arith::lemma_eqm_add(a * b, b * c, arith::poly_at(r, x), arith::poly_at(r, x), p);
        }
    }
    (quotient, remainder)
}

} // verus!
