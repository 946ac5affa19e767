//! Facts about integers modulo a positive number, powers and finite sums that
//! the rest of the library reasons with.
use vstd::arithmetic::div_mod::*;
use vstd::arithmetic::mul::*;
use vstd::arithmetic::power::*;
use vstd::prelude::*;

verus! {

/// `a` and `b` leave the same remainder modulo `p`.
pub open spec fn eqm(a: int, b: int, p: int) -> bool {
    a % p == b % p
}

/// The sum of a sequence of integers.
pub open spec fn seq_sum(s: Seq<int>) -> int
    decreases s.len(),
{
    if s.len() == 0 {
        0
    } else {
        seq_sum(s.drop_last()) + s.last()
    }
}

/// `s[0] * x^(n-1) + s[1] * x^(n-2) + .. + s[n-1]`: the terms of `s` weighted by
/// descending powers of `x`.
pub open spec fn descending(s: Seq<int>, x: int) -> int
    decreases s.len(),
{
    if s.len() == 0 {
        0
    } else {
        descending(s.drop_last(), x) * x + s.last()
    }
}

/// `s[0] + s[1] * x + .. + s[n-1] * x^(n-1)`: the value at `x` of the polynomial
/// with coefficients `s`.
pub open spec fn poly_at(s: Seq<int>, x: int) -> int
    decreases s.len(),
{
    if s.len() == 0 {
        0
    } else {
        poly_at(s.drop_last(), x) + s.last() * pow(x, (s.len() - 1) as nat)
    }
}

/// The integer that little-endian bytes spell.
pub open spec fn bytes_val(bytes: Seq<u8>) -> int {
    poly_at(Seq::new(bytes.len(), |i: int| bytes[i] as int), 256)
}

pub proof fn lemma_mod_range(a: int, p: int)
    requires
        p > 0,
    ensures
        0 <= a % p < p,
        eqm(a % p, a, p),
{
    lemma_mod_bound(a, p);
    lemma_mod_twice(a, p);
}

pub proof fn lemma_mod_small(a: int, p: int)
    requires
        0 <= a < p,
    ensures
        a % p == a,
{
    lemma_small_mod(a as nat, p as nat);
}

pub proof fn lemma_eqm_add(a: int, b: int, c: int, d: int, p: int)
    requires
        p > 0,
        eqm(a, b, p),
        eqm(c, d, p),
    ensures
        eqm(a + c, b + d, p),
{
    lemma_add_mod_noop(a, c, p);
    lemma_add_mod_noop(b, d, p);
}

pub proof fn lemma_eqm_sub(a: int, b: int, c: int, d: int, p: int)
    requires
        p > 0,
        eqm(a, b, p),
        eqm(c, d, p),
    ensures
        eqm(a - c, b - d, p),
{
    lemma_sub_mod_noop(a, c, p);
    lemma_sub_mod_noop(b, d, p);
}

pub proof fn lemma_eqm_mul(a: int, b: int, c: int, d: int, p: int)
    requires
        p > 0,
        eqm(a, b, p),
        eqm(c, d, p),
    ensures
        eqm(a * c, b * d, p),
{
    lemma_mul_mod_noop(a, c, p);
    lemma_mul_mod_noop(b, d, p);
}

pub proof fn lemma_eqm_pow(a: int, b: int, e: nat, p: int)
    requires
        p > 0,
        eqm(a, b, p),
    ensures
        eqm(pow(a, e), pow(b, e), p),
    decreases e,
{
    reveal(pow);
    if e > 0 {
        lemma_eqm_pow(a, b, (e - 1) as nat, p);
        lemma_eqm_mul(a, b, pow(a, (e - 1) as nat), pow(b, (e - 1) as nat), p);
    }
}

pub proof fn lemma_pow_step(x: int, e: nat)
    ensures
        pow(x, e + 1) == pow(x, e) * x,
        pow(x, e + 1) == x * pow(x, e),
        pow(x, 0) == 1,
{
    reveal(pow);
    lemma_mul_is_commutative(x, pow(x, e));
}

pub proof fn lemma_seq_sum_push(s: Seq<int>, x: int)
    ensures
        seq_sum(s.push(x)) == seq_sum(s) + x,
{
    assert(s.push(x).drop_last() =~= s);
}

pub proof fn lemma_seq_sum_concat(a: Seq<int>, b: Seq<int>)
    ensures
        seq_sum(a + b) == seq_sum(a) + seq_sum(b),
    decreases b.len(),
{
    if b.len() == 0 {
        assert(a + b =~= a);
    } else {
        lemma_seq_sum_concat(a, b.drop_last());
        assert((a + b).drop_last() =~= a + b.drop_last());
    }
}

/// One more term in a sum that is kept reduced.
pub proof fn lemma_sum_push_mod(s: Seq<int>, x: int, p: int)
    requires
        p > 0,
    ensures
        seq_sum(s.push(x)) % p == (seq_sum(s) % p + x) % p,
{
    lemma_seq_sum_push(s, x);
    lemma_mod_add(seq_sum(s), x, p);
}

pub proof fn lemma_descending_push(s: Seq<int>, x: int, t: int)
    ensures
        descending(s.push(t), x) == descending(s, x) * x + t,
{
    assert(s.push(t).drop_last() =~= s);
}

/// Descending weights of a concatenation: the front is shifted by the length of
/// the back.
pub proof fn lemma_descending_concat(a: Seq<int>, b: Seq<int>, x: int)
    ensures
        descending(a + b, x) == descending(a, x) * pow(x, b.len()) + descending(b, x),
    decreases b.len(),
{
    if b.len() == 0 {
        assert(a + b =~= a);
        lemma_pow0(x);
        lemma_mul_basics(descending(a, x));
    } else {
        lemma_descending_concat(a, b.drop_last(), x);
        assert((a + b).drop_last() =~= a + b.drop_last());
        let l = (b.len() - 1) as nat;
        lemma_pow_step(x, l);
        let da = descending(a, x);
        let db = descending(b.drop_last(), x);
        assert((da * pow(x, l) + db) * x == da * (pow(x, l) * x) + db * x) by (nonlinear_arith);
    }
}

pub proof fn lemma_poly_at_push(s: Seq<int>, x: int, t: int)
    ensures
        poly_at(s.push(t), x) == poly_at(s, x) + t * pow(x, s.len()),
{
    assert(s.push(t).drop_last() =~= s);
}

/// Horner's step: prepending a coefficient multiplies the rest by `x`.
pub proof fn lemma_poly_at_first(s: Seq<int>, x: int)
    requires
        s.len() > 0,
    ensures
        poly_at(s, x) == s[0] + x * poly_at(s.skip(1), x),
    decreases s.len(),
{
    if s.len() == 1 {
        assert(s.drop_last() =~= Seq::<int>::empty());
        assert(s.skip(1) =~= Seq::<int>::empty());
        lemma_pow0(x);
        lemma_mul_basics(s[0]);
        lemma_mul_basics(x);
    } else {
        let n = s.len();
        lemma_poly_at_first(s.drop_last(), x);
        assert(s.drop_last().skip(1) =~= s.skip(1).drop_last());
        lemma_pow_step(x, (n - 2) as nat);
        let r = poly_at(s.skip(1).drop_last(), x);
        let q = pow(x, (n - 2) as nat);
        let t = s.last();
        assert(s.skip(1).last() == t);
        assert(x * r + t * (x * q) == x * (r + t * q)) by (nonlinear_arith);
    }
}

pub proof fn lemma_poly_at_concat(a: Seq<int>, b: Seq<int>, x: int)
    ensures
        poly_at(a + b, x) == poly_at(a, x) + pow(x, a.len()) * poly_at(b, x),
    decreases b.len(),
{
    if b.len() == 0 {
        assert(a + b =~= a);
        lemma_mul_basics(pow(x, a.len()));
    } else {
        lemma_poly_at_concat(a, b.drop_last(), x);
        assert((a + b).drop_last() =~= a + b.drop_last());
        lemma_pow_adds(x, a.len(), (b.len() - 1) as nat);
        let pa = pow(x, a.len());
        let pb = pow(x, (b.len() - 1) as nat);
        let r = poly_at(b.drop_last(), x);
        let t = b.last();
        assert(pa * r + t * (pa * pb) == pa * (r + t * pb)) by (nonlinear_arith);
    }
}

/// Terms that agree modulo `p` have descending combinations that agree.
pub proof fn lemma_descending_eqm(a: Seq<int>, b: Seq<int>, x: int, y: int, p: int)
    requires
        p > 0,
        a.len() == b.len(),
        eqm(x, y, p),
        forall|i: int| 0 <= i < a.len() ==> eqm(#[trigger] a[i], b[i], p),
    ensures
        eqm(descending(a, x), descending(b, y), p),
    decreases a.len(),
{
    if a.len() > 0 {
        lemma_descending_eqm(a.drop_last(), b.drop_last(), x, y, p);
        let (c, d) = (descending(a.drop_last(), x), descending(b.drop_last(), y));
        lemma_eqm_mul(c, d, x, y, p);
        assert(a.last() == a[a.len() - 1]);
        lemma_eqm_add(c * x, d * y, a.last(), b.last(), p);
    }
}

pub proof fn lemma_poly_at_eqm(a: Seq<int>, b: Seq<int>, x: int, y: int, p: int)
    requires
        p > 0,
        a.len() == b.len(),
        eqm(x, y, p),
        forall|i: int| 0 <= i < a.len() ==> eqm(#[trigger] a[i], b[i], p),
    ensures
        eqm(poly_at(a, x), poly_at(b, y), p),
    decreases a.len(),
{
    if a.len() > 0 {
        lemma_poly_at_eqm(a.drop_last(), b.drop_last(), x, y, p);
        let e = (a.len() - 1) as nat;
        lemma_eqm_pow(x, y, e, p);
        assert(a.last() == a[a.len() - 1]);
        lemma_eqm_mul(a.last(), b.last(), pow(x, e), pow(y, e), p);
        lemma_eqm_add(
            poly_at(a.drop_last(), x),
            poly_at(b.drop_last(), y),
            a.last() * pow(x, e),
            b.last() * pow(y, e),
            p,
        );
    }
}

/// Reducing inside a sum, a difference or a product does not change the
/// remainder.
pub proof fn lemma_mod_add(a: int, b: int, p: int)
    requires
        p > 0,
    ensures
        (a % p + b % p) % p == (a + b) % p,
        (a % p + b) % p == (a + b) % p,
        (a + b % p) % p == (a + b) % p,
{
    lemma_mod_range(a, p);
    lemma_mod_range(b, p);
    lemma_eqm_add(a % p, a, b % p, b, p);
    lemma_eqm_add(a % p, a, b, b, p);
    lemma_eqm_add(a, a, b % p, b, p);
}

pub proof fn lemma_mod_sub(a: int, b: int, p: int)
    requires
        p > 0,
    ensures
        (a % p - b % p) % p == (a - b) % p,
        (a % p - b) % p == (a - b) % p,
        (a - b % p) % p == (a - b) % p,
{
    lemma_mod_range(a, p);
    lemma_mod_range(b, p);
    lemma_eqm_sub(a % p, a, b % p, b, p);
    lemma_eqm_sub(a % p, a, b, b, p);
    lemma_eqm_sub(a, a, b % p, b, p);
}

pub proof fn lemma_mod_mul(a: int, b: int, p: int)
    requires
        p > 0,
    ensures
        ((a % p) * (b % p)) % p == (a * b) % p,
        ((a % p) * b) % p == (a * b) % p,
        (a * (b % p)) % p == (a * b) % p,
{
    lemma_mod_range(a, p);
    lemma_mod_range(b, p);
    lemma_eqm_mul(a % p, a, b % p, b, p);
    lemma_eqm_mul(a % p, a, b, b, p);
    lemma_eqm_mul(a, a, b % p, b, p);
}

} // verus!
