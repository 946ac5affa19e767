//! The construction of an evaluation domain, and the transforms between the bases of
//! polynomials.
use crate::arith;
use crate::dft;
use crate::domain;
use crate::domain::{EvaluationDomain, power_of_two};
use crate::fft;
use crate::field::{Field, TWO_ADICITY};
use std::sync::Arc;
use vstd::arithmetic::div_mod::*;
use vstd::arithmetic::mul::*;
use vstd::arithmetic::power::*;
use vstd::arithmetic::power2::*;
use vstd::prelude::*;

verus! {

/// The current Orchard circuit's last queried row is six rows behind the
/// challenge point.
pub const ORCHARD_LAST_ROTATION: i32 = -6;

/// The smallest exponent from `e` on with `2^e >= m`.
pub open spec fn extended_log(m: nat, e: nat) -> nat
    decreases
            (if pow2(e) >= m {
                0
            } else {
                m - pow2(e)
            }),
{
    if pow2(e) >= m {
        e
    } else {
        proof {
            lemma_pow2_pos(e);
            lemma_pow2_unfold(e + 1);
        }
        extended_log(m, e + 1)
    }
}

/// The root of unity of order `2^e`.
pub open spec fn unity_root<F: Field>(e: nat) -> int {
    pow(F::root(), pow2((32 - e) as nat)) % F::order()
}

pub proof fn lemma_unity_root<F: Field>(e: nat)
    requires
        e <= 32,
    ensures
        fft::has_order(unity_root::<F>(e), e, F::order()),
        arith::eqm(pow(unity_root::<F>(e), pow2(e)), 1, F::order()),
        0 <= unity_root::<F>(e) < F::order(),
{
    F::lemma_order();
    let p = F::order();
    let r = F::root();
    let t = (32 - e) as nat;
    let x = pow(r, pow2(t));
    let w = unity_root::<F>(e);
    arith::lemma_mod_range(x, p);
    // r^(2^31) == -1
    let m = pow(r, pow2(31));
    arith::lemma_mod_range(m, p);
    assert(arith::eqm(m, -1, p)) by {
        lemma_mod_add_multiples_vanish(-1, p);
        arith::lemma_mod_small(p - 1, p);
    }
    if e > 0 {
        let k = (e - 1) as nat;
        arith::lemma_eqm_pow(w, x, pow2(k), p);
        lemma_pow_multiplies(r, pow2(t), pow2(k));
        lemma_pow2_adds(t, k);
        lemma_pow2_unfold(e);
        lemma_pow_adds(w, pow2(k), pow2(k));
        let y = pow(w, pow2(k));
        arith::lemma_eqm_mul(y, -1, y, -1, p);
    } else {
        lemma2_to64();
        lemma_pow1(w);
        lemma_pow2_unfold(32);
        lemma_pow_adds(r, pow2(31), pow2(31));
        arith::lemma_eqm_mul(m, -1, m, -1, p);
    }
}

/// `-1` and `1` differ, and powers of the coset generator with a power of two as the
/// exponent are not one.
pub proof fn lemma_coset_power<F: Field>(e: nat)
    ensures
        !arith::eqm(pow(F::cube_root(), pow2(e)), 1, F::order()),
        arith::eqm(pow(F::cube_root(), pow2(e)), F::cube_root(), F::order()) || arith::eqm(
            pow(F::cube_root(), pow2(e)),
            F::cube_root() * F::cube_root(),
            F::order(),
        ),
    decreases e,
{
    F::lemma_order();
    let p = F::order();
    let g = F::cube_root();
    lemma_cube::<F>();
    if e == 0 {
        lemma2_to64();
        lemma_pow1(g);
    } else {
        let k = (e - 1) as nat;
        lemma_coset_power::<F>(k);
        lemma_pow2_unfold(e);
        lemma_pow_adds(g, pow2(k), pow2(k));
        let x = pow(g, pow2(k));
        if arith::eqm(x, g, p) {
            arith::lemma_eqm_mul(x, g, x, g, p);
        } else {
            arith::lemma_eqm_mul(x, g * g, x, g * g, p);
            assert((g * g) * (g * g) == (g * (g * g)) * g) by (nonlinear_arith);
            arith::lemma_eqm_mul(g * (g * g), 1, g, g, p);
            lemma_mul_basics(g);
        }
    }
}

/// The coset generator is a cube root of one, and neither it nor its square is one.
pub proof fn lemma_cube<F: Field>()
    ensures
        arith::eqm(F::cube_root() * (F::cube_root() * F::cube_root()), 1, F::order()),
        !arith::eqm(F::cube_root(), 1, F::order()),
        !arith::eqm(F::cube_root() * F::cube_root(), 1, F::order()),
{
    F::lemma_order();
    let p = F::order();
    let g = F::cube_root();
    assert(pow(g, 3) == g * (g * g)) by {
        lemma_pow1(g);
        arith::lemma_pow_step(g, 1);
        arith::lemma_pow_step(g, 2);
    }
    arith::lemma_mod_small(1, p);
    arith::lemma_mod_small(g, p);
    if arith::eqm(g * g, 1, p) {
        arith::lemma_eqm_mul(g, g, g * g, 1, p);
        lemma_mul_basics(g);
    }
}

/// The powers of a cube root of one repeat.
pub proof fn lemma_cube_powers(g: int, i: nat, p: int)
    requires
        p > 1,
        arith::eqm(g * (g * g), 1, p),
    ensures
        i % 3 == 0 ==> arith::eqm(pow(g, i), 1, p),
        i % 3 == 1 ==> arith::eqm(pow(g, i), g, p),
        i % 3 == 2 ==> arith::eqm(pow(g, i), g * g, p),
    decreases i,
{
    if i == 0 {
        lemma_pow0(g);
    } else {
        let k = (i - 1) as nat;
        lemma_cube_powers(g, k, p);
        arith::lemma_pow_step(g, k);
        let x = pow(g, k);
        if i % 3 == 1 {
            arith::lemma_eqm_mul(g, g, x, 1, p);
            lemma_mul_basics(g);
        } else if i % 3 == 2 {
            arith::lemma_eqm_mul(g, g, x, g, p);
        } else {
            arith::lemma_eqm_mul(g, g, x, g * g, p);
        }
    }
}

impl<F: Field> EvaluationDomain<F> {
    /// Point `i` of the coset over which extended polynomials are evaluated.
    pub open spec fn point(&self, i: int) -> int {
        F::cube_root() * pow(self.extended_omega.val(), i as nat)
    }

    /// The vanishing polynomial of the domain at a point of the coset.
    pub open spec fn vanishing(&self, i: int) -> int {
        pow(self.point(i), self.n as nat) - 1
    }

    /// The roots of unity and their inverses.
    pub open spec fn rooted(&self) -> bool {
        let p = F::order();
        &&& self.omega.val() == unity_root::<F>(self.k as nat)
        &&& self.extended_omega.val() == unity_root::<F>(self.extended_k as nat)
        &&& arith::eqm(self.omega.val() * self.omega_inv.val(), 1, p)
        &&& arith::eqm(self.extended_omega.val() * self.extended_omega_inv.val(), 1, p)
        &&& self.orchard_last_omega.val() == pow(self.omega_inv.val(), 6) % p
        &&& self.g_coset.val() == F::cube_root()
        &&& self.g_coset_inv.val() == (F::cube_root() * F::cube_root()) % p
    }

    /// The constants by which transforms are scaled.
    pub open spec fn scaling(&self) -> bool {
        let p = F::order();
        &&& arith::eqm(self.ifft_divisor.val() * pow2(self.k as nat), 1, p)
        &&& arith::eqm(self.extended_ifft_divisor.val() * pow2(self.extended_k as nat), 1, p)
        &&& arith::eqm(self.barycentric_weight.val() * pow2(self.k as nat), 1, p)
        &&& arith::eqm(
            self.sparse_vanishing_divisor.val() * (pow(
                F::cube_root(),
                pow2(self.extended_k as nat),
            ) - 1),
            1,
            p,
        )
        &&& self.t_evaluations@.len() == pow2((self.extended_k - self.k) as nat)
        &&& forall|i: int|
            0 <= i < self.t_evaluations@.len() ==> arith::eqm(
                (#[trigger] self.t_evaluations@[i]).val() * self.vanishing(i),
                1,
                p,
            )
    }

    pub open spec fn wf(&self) -> bool {
        &&& self.sized()
        &&& self.rooted()
        &&& self.scaling()
        &&& self.n * self.quotient_poly_degree <= pow2(self.extended_k as nat)
    }

    pub proof fn lemma_roots(&self)
        requires
            self.wf(),
        ensures
            dft::root_pair(self.omega.val(), self.omega_inv.val(), self.k as nat, F::order()),
            dft::root_pair(
                self.extended_omega.val(),
                self.extended_omega_inv.val(),
                self.extended_k as nat,
                F::order(),
            ),
            fft::has_order(self.omega.val(), self.k as nat, F::order()),
            fft::has_order(self.extended_omega.val(), self.extended_k as nat, F::order()),
    {
        F::lemma_order();
        lemma_unity_root::<F>(self.k as nat);
        lemma_unity_root::<F>(self.extended_k as nat);
    }

    /// This constructs a new evaluation domain object based on the provided
    /// values $j, k$.
    pub fn new(j: u32, k: u32) -> (r: Self)
        requires
            j >= 1,
            k <= TWO_ADICITY,
            pow2(k as nat) * (j - 1) <= pow2(32),
            pow2(extended_log((pow2(k as nat) * (j - 1)) as nat, k as nat)) <= usize::MAX,
        ensures
            r.wf(),
            r.k == k,
            r.quotient_poly_degree == j - 1,
            r.extended_k == extended_log((pow2(k as nat) * (j - 1)) as nat, k as nat),
    {
        let ghost p = F::order();
        let ghost root = F::root();
        // quotient_poly_degree * n - 1 is the degree of the quotient polynomial
        let quotient_poly_degree: u64 = (j - 1) as u64;
        proof {
            F::lemma_order();
            lemma2_to64();
            if k < 32 {
                lemma_pow2_strictly_increases(k as nat, 32);
            }
            lemma_pow2_pos(k as nat);
            lemma_mul_is_commutative(pow2(k as nat) as int, (j - 1) as int);
        }
        let n: u64 = exact_power(k);
        let ghost m = (pow2(k as nat) * (j - 1)) as nat;
        // The extended domain is large enough to describe the quotient polynomial.
        let mut extended_k: u32 = k;
        let mut size: u64 = n;
        let least: u64 = n * quotient_poly_degree;
        while size < least
            invariant
                k <= extended_k <= TWO_ADICITY,
                size == pow2(extended_k as nat),
                least == m,
                m <= pow2(32),
                extended_log(m, k as nat) == extended_log(m, extended_k as nat),
            decreases 32 - extended_k,
        {
            proof {
                lemma2_to64();
                lemma_pow2_unfold((extended_k + 1) as nat);
                if extended_k >= 32 {
                    assert(extended_k == 32);
                }
                if extended_k + 1 < 32 {
                    lemma_pow2_strictly_increases((extended_k + 1) as nat, 32);
                }
            }
            size = size * 2;
            extended_k += 1;
        }
        let ghost big_n = pow2(extended_k as nat);
        let extended_omega: F = square_times(F::root_of_unity(), TWO_ADICITY - extended_k);
        let omega: F = square_times(extended_omega, extended_k - k);
        let ghost steps = pow2((extended_k - k) as nat);
        proof {
            lemma_pow1(root);
            arith::lemma_mod_small(root, p);
            lemma_pow_mod_noop_root::<F>(
                (32 - extended_k) as nat,
                (extended_k - k) as nat,
            );
            domain::lemma_sizes(k as nat, extended_k as nat);
            lemma_unity_root::<F>(extended_k as nat);
            lemma_unity_root::<F>(k as nat);
        }
        let g_coset = F::zeta();
        let g_coset_inv = g_coset.square();
        let extension: usize = power_of_two_difference(k, extended_k);
        let ghost w = extended_omega.val();
        let ghost g = F::cube_root();
        // t(X) = X^n - 1 on the coset, which repeats.
        let mut inversions: Vec<F> = Vec::with_capacity(extension);
        let orig = g_coset.pow_vartime(n);
        let step = extended_omega.pow_vartime(n);
        let mut cur = orig;
        let mut i: usize = 0;
        proof {
            lemma_pow0(pow(w, n as nat));
            arith::lemma_mod_range(pow(g, n as nat), p);
            lemma_mul_basics(pow(g, n as nat));
        }
        while i < extension
            invariant
                i <= extension,
                p == F::order(),
                p > 2,
                n == pow2(k as nat),
                step.val() == pow(w, n as nat) % p,
                cur.val() == (pow(g, n as nat) * pow(pow(w, n as nat), i as nat)) % p,
                inversions@.len() == i,
                forall|t: int|
                    0 <= t < i ==> arith::eqm(
                        (#[trigger] inversions@[t]).val(),
                        pow(g * pow(w, t as nat), n as nat) - 1,
                        p,
                    ),
            decreases extension - i,
        {
            inversions.push(cur.sub(F::one()));
            proof {
                let a = pow(g, n as nat);
                let b = pow(w, n as nat);
                let c = pow(b, i as nat);
                lemma_coset_value(g, w, n as nat, i as nat);
                arith::lemma_mod_range(a * c, p);
                arith::lemma_eqm_sub((a * c) % p, a * c, 1, 1, p);
                arith::lemma_mod_range((a * c) % p - 1, p);
                arith::lemma_pow_step(b, i as nat);
                arith::lemma_mod_mul(a * c, b, p);
                assert((a * c) * b == a * (c * b)) by (nonlinear_arith);
            }
            cur = cur.mul(step);
            i += 1;
        }
        let divisor = F::from_u64(n);
        let extended_divisor = F::from_u64(size);
        let sparse = g_coset.pow_vartime(size).sub(F::one());
        inversions.push(divisor);
        inversions.push(extended_divisor);
        inversions.push(sparse);
        inversions.push(extended_omega);
        inversions.push(omega);
        let ghost before = inversions@;
        proof {
            arith::lemma_mod_small(n as int, p);
            arith::lemma_mod_small(size as int, p);
            lemma_pow2_pos(extended_k as nat);
            assert forall|t: int| 0 <= t < before.len() implies (#[trigger] before[t]).val() != 0 by {
                if t < extension {
                    lemma_vanishing_nonzero::<F>(w, k as nat, extended_k as nat, t as nat);
                    if before[t].val() == 0 {
                        arith::lemma_mod_small(0, p);
                    }
                } else if t == extension + 2 {
                    lemma_coset_power::<F>(extended_k as nat);
                    let x = pow(g, size as nat);
                    arith::lemma_mod_range(x, p);
                    if sparse.val() == 0 {
                        arith::lemma_eqm_sub(x % p, x, 1, 1, p);
                        arith::lemma_mod_range(x % p - 1, p);
                        arith::lemma_eqm_add(x - 1, 0, 1, 1, p);
                    }
                } else if t >= extension + 3 {
                    lemma_root_nonzero::<F>(k as nat);
                    lemma_root_nonzero::<F>(extended_k as nat);
                }
            }
        }
        F::batch_invert(&mut inversions);
        let ghost after = inversions@;
        proof {
            assert forall|t: int| 0 <= t < before.len() implies arith::eqm(
                (#[trigger] after[t]).val() * before[t].val(),
                1,
                p,
            ) by {
                assert(before[t].val() != 0);
                arith::lemma_mod_small(1, p);
            }
        }
        let omega_inv: F = inversions[extension + 4];
        let extended_omega_inv: F = inversions[extension + 3];
        let sparse_vanishing_divisor: F = inversions[extension + 2];
        let extended_ifft_divisor: F = inversions[extension + 1];
        let ifft_divisor: F = inversions[extension];
        inversions.truncate(extension);
        let orchard_last_omega = omega_inv.pow_vartime(6);
        let r = EvaluationDomain {
            n,
            k,
            extended_k,
            omega,
            omega_inv,
            orchard_last_omega,
            extended_omega,
            extended_omega_inv,
            g_coset,
            g_coset_inv,
            quotient_poly_degree,
            ifft_divisor,
            extended_ifft_divisor,
            sparse_vanishing_divisor,
            t_evaluations: inversions,
            barycentric_weight: ifft_divisor,
        };
        proof {
            let e = extension as int;
            assert(arith::eqm(after[e].val() * before[e].val(), 1, p));
            assert(arith::eqm(after[e + 1].val() * before[e + 1].val(), 1, p));
            assert(arith::eqm(after[e + 3].val() * before[e + 3].val(), 1, p));
            assert(arith::eqm(after[e + 4].val() * before[e + 4].val(), 1, p));
            lemma_mul_is_commutative(omega_inv.val(), omega.val());
            lemma_mul_is_commutative(extended_omega_inv.val(), extended_omega.val());
            assert(arith::eqm(after[e + 2].val() * before[e + 2].val(), 1, p));
            let x = pow(g, size as nat);
            arith::lemma_mod_range(x, p);
            arith::lemma_eqm_sub(x % p, x, 1, 1, p);
            arith::lemma_mod_range(x % p - 1, p);
            arith::lemma_eqm_mul(
                after[e + 2].val(),
                after[e + 2].val(),
                sparse.val(),
                x - 1,
                p,
            );
            assert forall|t: int| 0 <= t < r.t_evaluations@.len() implies arith::eqm(
                (#[trigger] r.t_evaluations@[t]).val() * r.vanishing(t),
                1,
                p,
            ) by {
                assert(r.t_evaluations@[t] == after[t]);
                assert(arith::eqm(after[t].val() * before[t].val(), 1, p));
                assert(arith::eqm(before[t].val(), r.vanishing(t), p));
                arith::lemma_eqm_mul(
                    after[t].val(),
                    after[t].val(),
                    before[t].val(),
                    r.vanishing(t),
                    p,
                );
            }
        }
        r
    }
}

/// `2^k` as a 64-bit integer.
pub fn exact_power(k: u32) -> (r: u64)
    requires
        k < 64,
    ensures
        r == pow2(k as nat),
{
    let mut r: u64 = 1;
    let mut i: u32 = 0;
    proof {
        lemma2_to64();
    }
    while i < k
        invariant
            i <= k < 64,
            r == pow2(i as nat),
        decreases k - i,
    {
        proof {
            lemma2_to64();
            lemma_pow2_unfold((i + 1) as nat);
            lemma_pow2_strictly_increases((i + 1) as nat, 64);
        }
        r = r * 2;
        i += 1;
    }
    r
}

/// The number of cosets of the domain in its extension.
pub fn power_of_two_difference(k: u32, extended_k: u32) -> (r: usize)
    requires
        k <= extended_k <= TWO_ADICITY,
        pow2(extended_k as nat) <= usize::MAX,
    ensures
        r == pow2((extended_k - k) as nat),
{
    proof {
        if k > 0 {
            lemma_pow2_strictly_increases((extended_k - k) as nat, extended_k as nat);
        }
    }
    power_of_two(extended_k - k)
}

/// Squares an element `t` times.
pub fn square_times<F: Field>(x: F, t: u32) -> (r: F)
    ensures
        r.val() == pow(x.val(), pow2(t as nat)) % F::order(),
{
    let mut r = x;
    let mut i: u32 = 0;
    let ghost p = F::order();
    proof {
        F::lemma_order();
        F::lemma_val(x);
        lemma2_to64();
        lemma_pow1(x.val());
        arith::lemma_mod_small(x.val(), p);
    }
    while i < t
        invariant
            i <= t,
            p == F::order(),
            p > 2,
            r.val() == pow(x.val(), pow2(i as nat)) % p,
        decreases t - i,
    {
        proof {
            lemma_pow2_unfold((i + 1) as nat);
            let a = pow(x.val(), pow2(i as nat));
            lemma_pow_adds(x.val(), pow2(i as nat), pow2(i as nat));
            arith::lemma_mod_mul(a, a, p);
        }
        r = r.square();
        i += 1;
    }
    r
}

proof fn lemma_pow_mod_noop_root<F: Field>(a: nat, b: nat)
    ensures
        pow(pow(F::root(), pow2(a)) % F::order(), pow2(b)) % F::order() == pow(
            F::root(),
            pow2(a + b),
        ) % F::order(),
{
    F::lemma_order();
    let p = F::order();
    let x = pow(F::root(), pow2(a));
    arith::lemma_mod_range(x, p);
    arith::lemma_eqm_pow(x % p, x, pow2(b), p);
    lemma_pow_multiplies(F::root(), pow2(a), pow2(b));
    lemma_pow2_adds(a, b);
}

pub proof fn lemma_coset_value(g: int, w: int, n: nat, i: nat)
    ensures
        pow(g * pow(w, i), n) == pow(g, n) * pow(pow(w, n), i),
{
    lemma_pow_distributes(g, pow(w, i), n);
    lemma_pow_multiplies(w, i, n);
    lemma_pow_multiplies(w, n, i);
    lemma_mul_is_commutative(i as int, n as int);
}

/// No point of the coset is in the domain.
proof fn lemma_vanishing_nonzero<F: Field>(w: int, k: nat, e: nat, i: nat)
    requires
        k <= e <= 32,
        w == unity_root::<F>(e),
    ensures
        !arith::eqm(pow(F::cube_root() * pow(w, i), pow2(k)) - 1, 0, F::order()),
{
    F::lemma_order();
    let p = F::order();
    let g = F::cube_root();
    let x = g * pow(w, i);
    let m = pow2((e - k) as nat);
    if arith::eqm(pow(x, pow2(k)) - 1, 0, p) {
        arith::lemma_eqm_add(pow(x, pow2(k)) - 1, 0, 1, 1, p);
        arith::lemma_eqm_pow(pow(x, pow2(k)), 1, m, p);
        lemma_pow_ones(m);
        lemma_pow_multiplies(x, pow2(k), m);
        lemma_pow2_adds(k, (e - k) as nat);
        let n = pow2(e);
        assert(arith::eqm(pow(x, n), 1, p));
        lemma_coset_value(g, w, n, i);
        lemma_unity_root::<F>(e);
        arith::lemma_eqm_pow(pow(w, n), 1, i, p);
        lemma_pow_ones(i);
        arith::lemma_eqm_mul(pow(g, n), pow(g, n), pow(pow(w, n), i), 1, p);
        lemma_mul_basics(pow(g, n));
        lemma_coset_power::<F>(e);
    }
}

pub proof fn lemma_pow_ones(n: nat)
    ensures
        pow(1, n) == 1,
    decreases n,
{
    reveal(pow);
    if n > 0 {
        lemma_pow_ones((n - 1) as nat);
    }
}

proof fn lemma_root_nonzero<F: Field>(e: nat)
    requires
        e <= 32,
    ensures
        unity_root::<F>(e) != 0,
{
    F::lemma_order();
    lemma_unity_root::<F>(e);
    let p = F::order();
    let w = unity_root::<F>(e);
    if w == 0 {
        lemma_pow2_pos(e);
        let n = pow2(e);
        arith::lemma_pow_step(0, (n - 1) as nat);
        lemma_mul_basics(pow(0, (n - 1) as nat));
        arith::lemma_mod_small(0, p);
        arith::lemma_mod_small(1, p);
    }
}

} // verus!
