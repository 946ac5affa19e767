//! Polynomials at the powers of a root of unity.
use crate::arith;
use vstd::arithmetic::div_mod::*;
use vstd::arithmetic::mul::*;
use vstd::arithmetic::power::*;
use vstd::arithmetic::power2::*;
use vstd::prelude::*;

verus! {

/// The coefficients of even degree.
pub open spec fn evens(s: Seq<int>) -> Seq<int> {
    Seq::new(((s.len() + 1) / 2) as nat, |i: int| s[2 * i])
}

/// The coefficients of odd degree.
pub open spec fn odds(s: Seq<int>) -> Seq<int> {
    Seq::new((s.len() / 2) as nat, |i: int| s[2 * i + 1])
}

/// A polynomial from its even and its odd part.
pub proof fn lemma_even_odd(s: Seq<int>, x: int)
    ensures
        arith::poly_at(s, x) == arith::poly_at(evens(s), x * x) + x * arith::poly_at(odds(s), x * x),
    decreases s.len(),
{
    if s.len() == 0 {
        assert(evens(s) =~= Seq::<int>::empty());
        assert(odds(s) =~= Seq::<int>::empty());
        lemma_mul_basics(x);
    } else {
        let rest = s.skip(1);
        lemma_even_odd(rest, x);
        arith::lemma_poly_at_first(s, x);
        let e = evens(s);
        assert(e.skip(1) =~= odds(rest));
        assert(odds(s) =~= evens(rest));
        arith::lemma_poly_at_first(e, x * x);
        let (a, b) = (arith::poly_at(evens(rest), x * x), arith::poly_at(odds(rest), x * x));
        assert(x * (a + x * b) == x * a + (x * x) * b) by (nonlinear_arith);
    }
}

/// `1 + r + .. + r^(n - 1)`.
pub open spec fn geo(r: int, n: nat) -> int
    decreases n,
{
    if n == 0 {
        0
    } else {
        geo(r, (n - 1) as nat) + pow(r, (n - 1) as nat)
    }
}

pub proof fn lemma_geo_add(r: int, m: nat, n: nat)
    ensures
        geo(r, m + n) == geo(r, m) + pow(r, m) * geo(r, n),
    decreases n,
{
    if n == 0 {
        lemma_mul_basics(pow(r, m));
    } else {
        let k = (n - 1) as nat;
        lemma_geo_add(r, m, k);
        lemma_pow_adds(r, m, k);
        assert(pow(r, m) * (geo(r, k) + pow(r, k)) == pow(r, m) * geo(r, k) + pow(r, m) * pow(r, k))
            by (nonlinear_arith);
    }
}

/// `(r - 1) * (1 + r + .. + r^(n - 1)) == r^n - 1`.
pub proof fn lemma_geo_closed(r: int, n: nat)
    ensures
        (r - 1) * geo(r, n) == pow(r, n) - 1,
    decreases n,
{
    if n == 0 {
        lemma_pow0(r);
        lemma_mul_basics(r - 1);
    } else {
        let k = (n - 1) as nat;
        lemma_geo_closed(r, k);
        arith::lemma_pow_step(r, k);
        let (g, q) = (geo(r, k), pow(r, k));
        assert((r - 1) * (g + q) == (r - 1) * g + r * q - q) by (nonlinear_arith);
    }
}

pub proof fn lemma_geo_eqm(r: int, s: int, n: nat, p: int)
    requires
        p > 0,
        arith::eqm(r, s, p),
    ensures
        arith::eqm(geo(r, n), geo(s, n), p),
    decreases n,
{
    if n > 0 {
        let k = (n - 1) as nat;
        lemma_geo_eqm(r, s, k, p);
        arith::lemma_eqm_pow(r, s, k, p);
        arith::lemma_eqm_add(geo(r, k), geo(s, k), pow(r, k), pow(s, k), p);
    }
}

/// An odd power of minus one.
proof fn lemma_odd_power(x: int, d: nat, p: int)
    requires
        p > 0,
        arith::eqm(x, -1, p),
    ensures
        d % 2 == 1 ==> arith::eqm(pow(x, d), -1, p),
        d % 2 == 0 ==> arith::eqm(pow(x, d), 1, p),
    decreases d,
{
    if d == 0 {
        lemma_pow0(x);
    } else {
        let k = (d - 1) as nat;
        lemma_odd_power(x, k, p);
        arith::lemma_pow_step(x, k);
        if d % 2 == 1 {
            arith::lemma_eqm_mul(x, -1, pow(x, k), 1, p);
        } else {
            arith::lemma_eqm_mul(x, -1, pow(x, k), -1, p);
        }
    }
}

/// The powers of a root of unity of order `2^l` that is not one add up to zero.
pub proof fn lemma_geo_zero(w: int, d: nat, l: nat, p: int)
    requires
        p > 0,
        l > 0,
        arith::eqm(pow(w, pow2((l - 1) as nat)), -1, p),
        0 < d < pow2(l),
    ensures
        arith::eqm(geo(pow(w, d), pow2(l)), 0, p),
    decreases l,
{
    let k = (l - 1) as nat;
    let h = pow2(k);
    let r = pow(w, d);
    lemma_pow2_unfold(l);
    lemma_geo_add(r, h, h);
    let g = geo(r, h);
    assert(geo(r, pow2(l)) == g + pow(r, h) * g);
    lemma_pow_multiplies(w, d, h);
    lemma_pow_multiplies(w, h, d);
    lemma_mul_is_commutative(d as int, h as int);
    if d % 2 == 1 {
        lemma_odd_power(pow(w, h), d, p);
        assert(arith::eqm(pow(r, h), -1, p));
        arith::lemma_eqm_mul(pow(r, h), -1, g, g, p);
        arith::lemma_eqm_add(g, g, pow(r, h) * g, -1 * g, p);
        assert(g + -1 * g == 0);
    } else {
        let e = (d / 2) as nat;
        assert(k > 0) by {
            if k == 0 {
                lemma2_to64();
            }
        }
        let v = w * w;
        lemma_pow2_unfold(k);
        let q = pow2((k - 1) as nat);
        reveal(pow);
        assert(pow(w, 2) == v) by {
            reveal_with_fuel(pow, 3);
            lemma_mul_basics(w);
        }
        lemma_pow_multiplies(w, 2, q);
        lemma_pow_multiplies(w, 2, e);
        assert(2 * q == h);
        assert(2 * e == d);
        lemma_geo_zero(v, e, k, p);
        assert(arith::eqm(g, 0, p));
        arith::lemma_eqm_mul(pow(r, h), pow(r, h), g, 0, p);
        lemma_mul_basics(pow(r, h));
        arith::lemma_eqm_add(g, 0, pow(r, h) * g, 0, p);
    }
}

/// The values of a polynomial at the first `n` powers of `w`.
pub open spec fn dft(s: Seq<int>, w: int, n: nat) -> Seq<int> {
    Seq::new(n, |i: int| arith::poly_at(s, pow(w, i as nat)))
}

/// `w` is a root of unity of order `2^l`, with inverse `v`.
pub open spec fn root_pair(w: int, v: int, l: nat, p: int) -> bool {
    &&& p > 2
    &&& arith::eqm(w * v, 1, p)
    &&& arith::eqm(pow(w, pow2(l)), 1, p)
    &&& l > 0 ==> arith::eqm(pow(w, pow2((l - 1) as nat)), -1, p)
}

/// The inverse of a root of unity is one.
pub proof fn lemma_root_pair_swap(w: int, v: int, l: nat, p: int)
    requires
        root_pair(w, v, l, p),
    ensures
        root_pair(v, w, l, p),
{
    lemma_mul_is_commutative(w, v);
    lemma_inverse_power(w, v, pow2(l), p);
    let a = pow(w, pow2(l));
    let b = pow(v, pow2(l));
    arith::lemma_eqm_mul(a, 1, b, b, p);
    lemma_mul_basics(b);
    if l > 0 {
        let k = (l - 1) as nat;
        lemma_inverse_power(w, v, pow2(k), p);
        let c = pow(w, pow2(k));
        let d = pow(v, pow2(k));
        arith::lemma_eqm_mul(c, -1, d, d, p);
        assert(arith::eqm(-1 * d, 1, p));
        arith::lemma_eqm_mul(-1, -1, -1 * d, 1, p);
        assert(-1 * (-1 * d) == d);
    }
}

/// `(w v)^e == 1`.
pub proof fn lemma_inverse_power(w: int, v: int, e: nat, p: int)
    requires
        p > 1,
        arith::eqm(w * v, 1, p),
    ensures
        arith::eqm(pow(w, e) * pow(v, e), 1, p),
    decreases e,
{
    if e == 0 {
        lemma_pow0(w);
        lemma_pow0(v);
    } else {
        let k = (e - 1) as nat;
        lemma_inverse_power(w, v, k, p);
        arith::lemma_pow_step(w, k);
        arith::lemma_pow_step(v, k);
        arith::lemma_eqm_mul(w * v, 1, pow(w, k) * pow(v, k), 1, p);
        let (a, b) = (pow(w, k), pow(v, k));
        assert((w * a) * (v * b) == (w * v) * (a * b)) by (nonlinear_arith);
    }
}

/// `w^j v^m` is a power of `w`, and one only if `j == m`.
pub proof fn lemma_cross_sum(w: int, v: int, l: nat, j: nat, m: nat, p: int)
    requires
        root_pair(w, v, l, p),
        j < pow2(l),
        m < pow2(l),
    ensures
        j != m ==> arith::eqm(geo(pow(w, j) * pow(v, m), pow2(l)), 0, p),
        j == m ==> arith::eqm(geo(pow(w, j) * pow(v, m), pow2(l)), pow2(l) as int, p),
{
    let n = pow2(l);
    let r = pow(w, j) * pow(v, m);
    if j == m {
        lemma_inverse_power(w, v, j, p);
        lemma_geo_eqm(r, 1, n, p);
        lemma_geo_one(n);
    } else {
        if l == 0 {
            lemma2_to64();
        }
        let d: nat = if j > m {
            (j - m) as nat
        } else {
            (n + j - m) as nat
        };
        assert(arith::eqm(r, pow(w, d), p)) by {
            lemma_inverse_power(w, v, m, p);
            let b = pow(w, m) * pow(v, m);
            lemma_pow_adds(w, d, m);
            let full = pow(w, d + m);
            if j > m {
                assert(d + m == j);
            } else {
                assert(d + m == n + j);
                lemma_pow_adds(w, n, j);
                arith::lemma_eqm_mul(pow(w, n), 1, pow(w, j), pow(w, j), p);
                lemma_mul_basics(pow(w, j));
            }
            assert(arith::eqm(full, pow(w, j), p));
            arith::lemma_eqm_mul(full, pow(w, j), pow(v, m), pow(v, m), p);
            let (a, c, e) = (pow(w, d), pow(w, m), pow(v, m));
            assert((a * c) * e == a * (c * e)) by (nonlinear_arith);
            arith::lemma_eqm_mul(a, a, c * e, 1, p);
            lemma_mul_basics(a);
        }
        lemma_geo_eqm(r, pow(w, d), n, p);
        lemma_geo_zero(w, d, l, p);
    }
}

pub proof fn lemma_geo_one(n: nat)
    ensures
        geo(1, n) == n,
    decreases n,
{
    if n > 0 {
        lemma_geo_one((n - 1) as nat);
        lemma_pow1_any((n - 1) as nat);
    }
}

proof fn lemma_pow1_any(n: nat)
    ensures
        pow(1, n) == 1,
    decreases n,
{
    reveal(pow);
    if n > 0 {
        lemma_pow1_any((n - 1) as nat);
    }
}

/// What one coefficient adds to a transform that is transformed again.
proof fn lemma_dft_push(s: Seq<int>, t: int, w: int, x: int, n: nat)
    ensures
        arith::poly_at(dft(s.push(t), w, n), x) == arith::poly_at(dft(s, w, n), x) + t * geo(
            pow(w, s.len()) * x,
            n,
        ),
    decreases n,
{
    if n == 0 {
        lemma_mul_basics(t);
        assert(dft(s.push(t), w, n) =~= Seq::<int>::empty());
        assert(dft(s, w, n) =~= Seq::<int>::empty());
    } else {
        let k = (n - 1) as nat;
        lemma_dft_push(s, t, w, x, k);
        let a = dft(s.push(t), w, n);
        let b = dft(s, w, n);
        assert(a.drop_last() =~= dft(s.push(t), w, k));
        assert(b.drop_last() =~= dft(s, w, k));
        let e = pow(w, k);
        arith::lemma_poly_at_push(s, e, t);
        lemma_pow_multiplies(w, k, s.len());
        lemma_pow_multiplies(w, s.len(), k);
        lemma_mul_is_commutative(k as int, s.len() as int);
        lemma_pow_distributes(pow(w, s.len()), x, k);
        let (u, f, g) = (arith::poly_at(s, e), pow(e, s.len()), pow(x, k));
        assert((u + t * f) * g == u * g + t * (f * g)) by (nonlinear_arith);
        let h = geo(pow(w, s.len()) * x, k);
        assert(t * (h + f * g) == t * h + t * (f * g)) by (nonlinear_arith);
    }
}

/// A transform, transformed with the inverse root, gives the coefficients `2^l` times.
pub proof fn lemma_dft_inverse(s: Seq<int>, w: int, v: int, l: nat, m: nat, p: int)
    requires
        root_pair(w, v, l, p),
        s.len() <= pow2(l),
        m < pow2(l),
    ensures
        arith::eqm(
            arith::poly_at(dft(s, w, pow2(l)), pow(v, m)),
            pow2(l) * (if m < s.len() {
                s[m as int]
            } else {
                0
            }),
            p,
        ),
    decreases s.len(),
{
    let n = pow2(l);
    let x = pow(v, m);
    if s.len() == 0 {
        assert(s =~= Seq::<int>::empty());
        lemma_dft_empty(w, x, n);
        lemma_mul_basics(n as int);
    } else {
        let front = s.drop_last();
        let t = s.last();
        lemma_dft_inverse(front, w, v, l, m, p);
        lemma_dft_push(front, t, w, x, n);
        assert(front.push(t) =~= s);
        lemma_cross_sum(w, v, l, front.len(), m, p);
        let g = geo(pow(w, front.len()) * x, n);
        let a = arith::poly_at(dft(front, w, n), x);
        if m < front.len() {
            assert(front[m as int] == s[m as int]);
            arith::lemma_eqm_mul(t, t, g, 0, p);
            lemma_mul_basics(t);
            arith::lemma_eqm_add(a, n * s[m as int], t * g, 0, p);
        } else if m == front.len() {
            arith::lemma_eqm_mul(t, t, g, n as int, p);
            lemma_mul_is_commutative(t, n as int);
            lemma_mul_basics(n as int);
            arith::lemma_eqm_add(a, 0, t * g, n * t, p);
        } else {
            arith::lemma_eqm_mul(t, t, g, 0, p);
            lemma_mul_basics(t);
            lemma_mul_basics(n as int);
            arith::lemma_eqm_add(a, 0, t * g, 0, p);
        }
    }
}

proof fn lemma_dft_empty(w: int, x: int, n: nat)
    ensures
        arith::poly_at(dft(Seq::empty(), w, n), x) == 0,
    decreases n,
{
    let s = dft(Seq::empty(), w, n);
    if n > 0 {
        let k = (n - 1) as nat;
        lemma_dft_empty(w, x, k);
        assert(s.drop_last() =~= dft(Seq::empty(), w, k));
        lemma_mul_basics(pow(x, k));
    }
}

/// The coefficients times a constant.
pub open spec fn scaled(s: Seq<int>, c: int) -> Seq<int> {
    Seq::new(s.len(), |i: int| s[i] * c)
}

pub proof fn lemma_poly_at_scaled(s: Seq<int>, c: int, x: int)
    ensures
        arith::poly_at(scaled(s, c), x) == arith::poly_at(s, x) * c,
    decreases s.len(),
{
    if s.len() > 0 {
        lemma_poly_at_scaled(s.drop_last(), c, x);
        assert(scaled(s, c).drop_last() =~= scaled(s.drop_last(), c));
        let (a, t, e) = (arith::poly_at(s.drop_last(), x), s.last(), pow(x, (s.len() - 1) as nat));
        assert((a + t * e) * c == a * c + (t * c) * e) by (nonlinear_arith);
    } else {
        lemma_mul_basics(c);
    }
}

/// The coefficients times the powers of a constant.
pub open spec fn twisted(s: Seq<int>, g: int) -> Seq<int> {
    Seq::new(s.len(), |i: int| s[i] * pow(g, i as nat))
}

pub proof fn lemma_poly_at_twisted(s: Seq<int>, g: int, x: int)
    ensures
        arith::poly_at(twisted(s, g), x) == arith::poly_at(s, g * x),
    decreases s.len(),
{
    if s.len() > 0 {
        let k = (s.len() - 1) as nat;
        lemma_poly_at_twisted(s.drop_last(), g, x);
        assert(twisted(s, g).drop_last() =~= twisted(s.drop_last(), g));
        lemma_pow_distributes(g, x, k);
        let (t, a, b) = (s.last(), pow(g, k), pow(x, k));
        assert((t * a) * b == t * (a * b)) by (nonlinear_arith);
    }
}

/// Block `b` of `n` coefficients.
pub open spec fn block(s: Seq<int>, n: int, b: int) -> Seq<int> {
    s.subrange(b * n, (b + 1) * n)
}

/// The values of the blocks at `x`.
pub open spec fn block_values(s: Seq<int>, n: int, m: nat, x: int) -> Seq<int> {
    Seq::new(m, |b: int| arith::poly_at(block(s, n, b), x))
}

/// A polynomial from its blocks.
pub proof fn lemma_poly_at_blocks(s: Seq<int>, n: nat, m: nat, x: int)
    requires
        s.len() == m * n,
    ensures
        arith::poly_at(s, x) == arith::poly_at(block_values(s, n as int, m, x), pow(x, n)),
    decreases m,
{
    let v = block_values(s, n as int, m, x);
    if m == 0 {
        assert(s =~= Seq::<int>::empty()) by {
            lemma_mul_basics(n as int);
        }
        assert(v =~= Seq::<int>::empty());
    } else {
        let k = (m - 1) as nat;
        assert(m * n == k * n + n) by (nonlinear_arith)
            requires
                m == k + 1,
        ;
        assert(k * n >= 0) by (nonlinear_arith);
        let front = s.take((k * n) as int);
        let last = block(s, n as int, k as int);
        assert((k + 1) * n == k * n + n) by (nonlinear_arith);
        assert(s =~= front + last);
        arith::lemma_poly_at_concat(front, last, x);
        lemma_poly_at_blocks(front, n, k, x);
        assert(v.drop_last() =~= block_values(front, n as int, k, x)) by {
            assert forall|b: int| 0 <= b < k implies block(front, n as int, b) == block(
                s,
                n as int,
                b,
            ) by {
                assert((b + 1) * n <= k * n) by (nonlinear_arith)
                    requires
                        b + 1 <= k,
                        n >= 0,
                ;
                assert(0 <= b * n <= (b + 1) * n) by (nonlinear_arith)
                    requires
                        b >= 0,
                        n >= 0,
                ;
                assert(block(front, n as int, b) =~= block(s, n as int, b));
            }
        }
        lemma_pow_multiplies(x, n, k);
        lemma_mul_is_commutative(k as int, n as int);
        lemma_mul_is_commutative(pow(x, (k * n) as nat), arith::poly_at(last, x));
    }
}

/// Division by `y - 1` where `y^m == c`, from the last coefficient to the first.
pub proof fn lemma_sparse_division(u: Seq<int>, v: Seq<int>, y: int, c: int, p: int)
    requires
        p > 0,
        u.len() == v.len(),
        u.len() > 0,
        forall|b: int| 1 <= b < u.len() ==> arith::eqm(#[trigger] u[b - 1], v[b] + u[b], p),
        arith::eqm((c - 1) * u.last(), arith::seq_sum(v), p),
        arith::eqm(pow(y, u.len()), c, p),
    ensures
        arith::eqm((y - 1) * arith::poly_at(u, y), arith::poly_at(v, y), p),
{
    let m = u.len();
    lemma_sparse_partial(u, v, y, m, p);
    lemma_sparse_first(u, v, m, p);
    assert(u.take(m as int) =~= u);
    assert(v.take(m as int) =~= v);
    let (z, f, s, q) = (u.last(), u[0], arith::seq_sum(v), arith::poly_at(v, y));
    assert(u[m - 1] == z);
    arith::lemma_eqm_mul(z, z, pow(y, m), c, p);
    let left = (y - 1) * arith::poly_at(u, y);
    // left == z y^m - f + q - v0 and f + v0 == z + s
    arith::lemma_eqm_add(z * pow(y, m), z * c, q - (f + v[0]), q - (f + v[0]), p);
    arith::lemma_eqm_sub(z * c + q, z * c + q, f + v[0], z + s, p);
    assert((c - 1) * z == z * c - z) by (nonlinear_arith);
    arith::lemma_eqm_add((c - 1) * z, s, q, q, p);
    arith::lemma_eqm_sub((c - 1) * z + q, s + q, s, s, p);
}

proof fn lemma_sparse_partial(u: Seq<int>, v: Seq<int>, y: int, k: nat, p: int)
    requires
        p > 0,
        u.len() == v.len(),
        0 < k <= u.len(),
        forall|b: int| 1 <= b < u.len() ==> arith::eqm(#[trigger] u[b - 1], v[b] + u[b], p),
    ensures
        arith::eqm(
            (y - 1) * arith::poly_at(u.take(k as int), y),
            u[k - 1] * pow(y, k) - u[0] + arith::poly_at(v.take(k as int), y) - v[0],
            p,
        ),
    decreases k,
{
    let h = (k - 1) as nat;
    let uk = u.take(k as int);
    let vk = v.take(k as int);
    assert(uk.drop_last() =~= u.take(h as int));
    assert(vk.drop_last() =~= v.take(h as int));
    arith::lemma_pow_step(y, h);
    let e = pow(y, h);
    let x = u[h as int];
    assert(uk.last() == x && vk.last() == v[h as int]);
    assert(arith::poly_at(uk, y) == arith::poly_at(u.take(h as int), y) + x * e);
    assert(arith::poly_at(vk, y) == arith::poly_at(v.take(h as int), y) + v[h as int] * e);
    if k == 1 {
        assert(u.take(0) =~= Seq::<int>::empty());
        assert(v.take(0) =~= Seq::<int>::empty());
        lemma_pow0(y);
        assert(arith::poly_at(u.take(0), y) == 0 && arith::poly_at(v.take(0), y) == 0);
        assert((y - 1) * (0 + x * 1) == x * (y * 1) - x) by (nonlinear_arith);
        lemma_mul_basics(v[0]);
        assert((y - 1) * arith::poly_at(uk, y) == u[k - 1] * pow(y, k) - u[0]);
        assert(arith::poly_at(vk, y) == v[0]);
    } else {
        lemma_sparse_partial(u, v, y, h, p);
        let a = arith::poly_at(u.take(h as int), y);
        let b = arith::poly_at(v.take(h as int), y);
        let t = v[h as int];
        assert((y - 1) * (a + x * e) == (y - 1) * a + (x * (y * e) - x * e)) by (nonlinear_arith);
        let w = u[h - 1];
        assert(arith::eqm(u[h as int - 1], v[h as int] + u[h as int], p));
        arith::lemma_eqm_add(
            (y - 1) * a,
            w * e - u[0] + b - v[0],
            x * (y * e) - x * e,
            x * (y * e) - x * e,
            p,
        );
        arith::lemma_eqm_mul(w, t + x, e, e, p);
        assert((t + x) * e == t * e + x * e) by (nonlinear_arith);
        let rest = x * (y * e) - x * e - u[0] + b - v[0];
        arith::lemma_eqm_add(w * e, t * e + x * e, rest, rest, p);
        let left = (y - 1) * arith::poly_at(uk, y);
        assert(left == (y - 1) * a + (x * (y * e) - x * e));
        assert(arith::eqm(left, w * e + rest, p));
        assert(pow(y, k) == y * e);
        assert(t * e + x * e + rest == u[k - 1] * pow(y, k) - u[0] + arith::poly_at(vk, y) - v[0]);
    }
}

/// `u[0] + v[0]` is the last of `u` and the sum of `v`.
proof fn lemma_sparse_first(u: Seq<int>, v: Seq<int>, k: nat, p: int)
    requires
        p > 0,
        u.len() == v.len(),
        0 < k <= u.len(),
        forall|b: int| 1 <= b < u.len() ==> arith::eqm(#[trigger] u[b - 1], v[b] + u[b], p),
    ensures
        arith::eqm(u[0] + v[0], u[k - 1] + arith::seq_sum(v.take(k as int)), p),
    decreases k,
{
    let vk = v.take(k as int);
    assert(vk.drop_last() =~= v.take(k - 1));
    if k == 1 {
        assert(v.take(0) =~= Seq::<int>::empty());
    } else {
        lemma_sparse_first(u, v, (k - 1) as nat, p);
        let h = k - 1;
        assert(arith::eqm(u[h - 1], v[h] + u[h], p));
        let s = arith::seq_sum(v.take(h));
        arith::lemma_eqm_add(u[h - 1], v[h] + u[h], s, s, p);
    }
}

} // verus!
