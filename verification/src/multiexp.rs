//! Sums of multiples of points.
use crate::arith;
use crate::curve;
use crate::curve::CurveAffine;
use crate::field::Field;
use crate::poly;
use vstd::arithmetic::mul::*;
use vstd::prelude::*;

verus! {

/// `a[0] * b[0] + a[1] * b[1] + ..`, as far as `a` goes.
pub open spec fn dot(a: Seq<int>, b: Seq<int>) -> int
    decreases a.len(),
{
    if a.len() == 0 {
        0
    } else {
        dot(a.drop_last(), b) + a.last() * b[a.len() - 1]
    }
}

pub proof fn lemma_dot_push(a: Seq<int>, b: Seq<int>, s: int, t: int)
    requires
        a.len() == b.len(),
    ensures
        dot(a.push(s), b.push(t)) == dot(a, b) + s * t,
{
    assert(a.push(s).drop_last() =~= a);
    lemma_dot_same(a, b, b.push(t));
}

/// Only the first elements of the longer sequence count.
pub proof fn lemma_dot_same(a: Seq<int>, b: Seq<int>, c: Seq<int>)
    requires
        a.len() <= b.len(),
        a.len() <= c.len(),
        forall|i: int| 0 <= i < a.len() ==> #[trigger] b[i] == c[i],
    ensures
        dot(a, b) == dot(a, c),
    decreases a.len(),
{
    if a.len() > 0 {
        lemma_dot_same(a.drop_last(), b, c);
        assert(b[a.len() - 1] == c[a.len() - 1]);
    }
}

pub proof fn lemma_dot_concat(a: Seq<int>, b: Seq<int>, c: Seq<int>, d: Seq<int>)
    requires
        a.len() == b.len(),
        c.len() == d.len(),
    ensures
        dot(a + c, b + d) == dot(a, b) + dot(c, d),
    decreases c.len(),
{
    if c.len() == 0 {
        assert(a + c =~= a);
        assert(b + d =~= b);
    } else {
        lemma_dot_concat(a, b, c.drop_last(), d.drop_last());
        assert((a + c).drop_last() =~= a + c.drop_last());
        lemma_dot_same(a + c.drop_last(), b + d.drop_last(), b + d);
        lemma_dot_same(c.drop_last(), d.drop_last(), d);
    }
}

pub proof fn lemma_dot_eqm(a: Seq<int>, b: Seq<int>, c: Seq<int>, d: Seq<int>, p: int)
    requires
        p > 0,
        a.len() == c.len(),
        a.len() <= b.len(),
        a.len() <= d.len(),
        forall|i: int| 0 <= i < a.len() ==> arith::eqm(#[trigger] a[i], c[i], p),
        forall|i: int| 0 <= i < a.len() ==> arith::eqm(#[trigger] b[i], d[i], p),
    ensures
        arith::eqm(dot(a, b), dot(c, d), p),
    decreases a.len(),
{
    if a.len() > 0 {
        let n = a.len() - 1;
        lemma_dot_eqm(a.drop_last(), b, c.drop_last(), d, p);
        assert(arith::eqm(a[n], c[n], p));
        assert(arith::eqm(b[n], d[n], p));
        arith::lemma_eqm_mul(a[n], c[n], b[n], d[n], p);
        arith::lemma_eqm_add(dot(a.drop_last(), b), dot(c.drop_last(), d), a[n] * b[n], c[n] * d[n], p);
    }
}

/// Linear in the first factor.
pub proof fn lemma_dot_linear(a: Seq<int>, c: Seq<int>, t: int, b: Seq<int>)
    requires
        a.len() == c.len(),
    ensures
        dot(Seq::new(a.len(), |i: int| a[i] + t * c[i]), b) == dot(a, b) + t * dot(c, b),
    decreases a.len(),
{
    let s = Seq::new(a.len(), |i: int| a[i] + t * c[i]);
    if a.len() == 0 {
        lemma_mul_basics(t);
    } else {
        let (e, f) = (a.drop_last(), c.drop_last());
        lemma_dot_linear(e, f, t, b);
        assert(s.drop_last() =~= Seq::new(e.len(), |i: int| e[i] + t * f[i]));
        let (u, v, w, r) = (a.last(), c.last(), b[a.len() - 1], dot(f, b));
        assert((u + t * v) * w == u * w + t * (v * w)) by (nonlinear_arith);
        assert(t * (r + v * w) == t * r + t * (v * w)) by (nonlinear_arith);
    }
}

/// Linear in the second factor.
pub proof fn lemma_dot_linear_right(a: Seq<int>, b: Seq<int>, c: Seq<int>, t: int)
    requires
        a.len() <= b.len(),
        b.len() == c.len(),
    ensures
        dot(a, Seq::new(b.len(), |i: int| b[i] + t * c[i])) == dot(a, b) + t * dot(a, c),
    decreases a.len(),
{
    let s = Seq::new(b.len(), |i: int| b[i] + t * c[i]);
    if a.len() == 0 {
        lemma_mul_basics(t);
    } else {
        let e = a.drop_last();
        lemma_dot_linear_right(e, b, c, t);
        let n = a.len() - 1;
        let (u, v, w, r) = (a[n], b[n], c[n], dot(e, c));
        assert(u * (v + t * w) == u * v + t * (u * w)) by (nonlinear_arith);
        assert(t * (r + u * w) == t * r + t * (u * w)) by (nonlinear_arith);
    }
}

pub proof fn lemma_dot_zero(a: Seq<int>, b: Seq<int>)
    requires
        forall|i: int| 0 <= i < a.len() ==> #[trigger] a[i] == 0,
    ensures
        dot(a, b) == 0,
    decreases a.len(),
{
    if a.len() > 0 {
        lemma_dot_zero(a.drop_last(), b);
        lemma_mul_basics(b[a.len() - 1]);
    }
}

/// The sum of the multiples of the bases.
pub fn best_multiexp<C: CurveAffine>(coeffs: &[C::ScalarExt], bases: &[C]) -> (r: C)
    requires
        coeffs@.len() == bases@.len(),
        curve::all_on_curve(bases@),
    ensures
        r.on_curve(),
        curve::log(r) == dot(poly::vals(coeffs@), curve::logs(bases@)) % C::ScalarExt::order(),
{
    let ghost q = C::ScalarExt::order();
    let ghost s = poly::vals(coeffs@);
    let ghost b = curve::logs(bases@);
    let mut acc = C::identity();
    let mut i: usize = 0;
    proof {
        C::ScalarExt::lemma_order();
        assert(s.take(0) =~= Seq::<int>::empty());
        arith::lemma_mod_small(0, q);
    }
    while i < coeffs.len()
        invariant
            i <= coeffs@.len(),
            coeffs@.len() == bases@.len(),
            curve::all_on_curve(bases@),
            q == C::ScalarExt::order(),
            q > 2,
            s == poly::vals(coeffs@),
            b == curve::logs(bases@),
            acc.on_curve(),
            curve::log(acc) == dot(s.take(i as int), b) % q,
        decreases coeffs@.len() - i,
    {
        assert(bases@[i as int].on_curve());
        proof {
            let d = dot(s.take(i as int), b);
            let (l, c) = (b[i as int], s[i as int]);
            assert(s.take(i + 1).drop_last() =~= s.take(i as int));
            lemma_mul_is_commutative(l, c);
            arith::lemma_mod_add(d, l * c, q);
            lemma_mul_basics(l);
        }
        if !coeffs[i].is_zero() {
            acc = acc.add(bases[i].mul(coeffs[i]));
        }
        i += 1;
    }
    assert(s.take(i as int) =~= s);
    acc
}

} // verus!
