//! The public parameters of the polynomial commitment scheme, and commitments.
use crate::arith;
use crate::commit::{copy_points, MAX_PREPARED_COMMITMENT_K};
use crate::curve;
use crate::curve::CurveAffine;
use crate::dft;
use crate::fft;
use crate::field::{Field, TWO_ADICITY};
use crate::multiexp;
use crate::instance::{
    InstanceWindows, PREPARED_INSTANCE_BOOLEAN_ROWS, PREPARED_INSTANCE_DENSE_ROWS,
    PreparedInstanceTable,
};
use crate::shared::{Holds, SharedTable};
use crate::tables::{FixedBasePairTable, PREPARED_SPARSE_COMMITMENT_K, SparseCommitmentTable};
use crate::transform;
use crate::transform::{exact_power, square_times};
use crate::windows::FIXED_BASE_WINDOW_MAGNITUDES;
use vstd::arithmetic::mul::*;
use vstd::arithmetic::power::*;
use vstd::arithmetic::power2::*;
use vstd::prelude::*;

verus! {

/// The widest thread pool on which prepared tables stay engaged.
pub const PREPARED_MSM_MAX_THREADS: usize = 8;

/// The size of parameters whose tables stay ahead on wider pools of Apple's systems.
pub const APPLE_TEN_WORKER_PREPARED_COMMITMENT_K: u32 = 11;

/// The widest thread pool for parameters of that size on those systems.
pub const APPLE_PREPARED_COMMITMENT_MAX_THREADS: usize = 10;

/// The domain in which the generators are hashed.
pub open spec fn domain() -> Seq<char> {
    "Halo2-Parameters"@
}

/// The message of generator `i`: a zero, and the number in four little-endian bytes.
pub open spec fn generator_message(i: int) -> Seq<u8> {
    seq![
        0u8,
        (i % 256) as u8,
        (i / 256 % 256) as u8,
        (i / 65536 % 256) as u8,
        (i / 16777216 % 256) as u8,
    ]
}

/// Where the parameters are used, as far as the measured thread pools depend on it.
#[derive(Clone, Copy, Debug, PartialEq, Eq, Structural)]
pub enum Platform {
    AArch64MacOs,
    Other,
}

/// The tables of the multiples of `w` and `u`, for parameters that are not too large.
pub struct PairRule<C: CurveAffine> {
    pub k: u32,
    pub w: C,
    pub u: C,
}

impl<C: CurveAffine> Holds<FixedBasePairTable<C>> for PairRule<C> {
    open spec fn holds(self, table: FixedBasePairTable<C>) -> bool {
        &&& self.k <= MAX_PREPARED_COMMITMENT_K
        &&& table.wf()
        &&& table.table.bases@ == seq![self.w, self.u]
        &&& table.table.half == FIXED_BASE_WINDOW_MAGNITUDES
    }
}

/// The tables of the bases that masking polynomials are committed to with, for parameters
/// of the one size that has them.
pub struct SparseRule<C: CurveAffine> {
    pub bases: Seq<C>,
}

impl<C: CurveAffine> Holds<SparseCommitmentTable<C>> for SparseRule<C> {
    open spec fn holds(self, table: SparseCommitmentTable<C>) -> bool {
        &&& self.bases.len() == PREPARED_SPARSE_COMMITMENT_K + 2
        &&& table.wf()
        &&& table.table.bases@ == self.bases
        &&& table.byte_order is LittleEndian
    }
}

/// The tables of the rows of public inputs.
pub struct InstanceRule<C: CurveAffine> {
    pub rows: Seq<C>,
    pub w: C,
}

impl<C: CurveAffine> Holds<PreparedInstanceTable<C>> for InstanceRule<C> {
    open spec fn holds(self, table: PreparedInstanceTable<C>) -> bool {
        table.fits(
            self.rows,
            self.w,
            PREPARED_INSTANCE_DENSE_ROWS as int,
            PREPARED_INSTANCE_BOOLEAN_ROWS as nat,
        )
    }
}

/// The multiples of the first rows, for any number of rows and any number of multiples.
pub struct WindowsRule<C: CurveAffine> {
    pub rows: Seq<C>,
}

impl<C: CurveAffine> Holds<InstanceWindows<C>> for WindowsRule<C> {
    open spec fn holds(self, table: InstanceWindows<C>) -> bool {
        table.fits(self.rows)
    }
}

/// These are the public parameters for the polynomial commitment scheme. The prepared
/// tables are shared with all clones and are not serialized.
pub struct Params<C: CurveAffine> {
    pub k: u32,
    pub n: u64,
    pub g: Vec<C>,
    pub g_lagrange: Vec<C>,
    pub w: C,
    pub u: C,
    pub platform: Platform,
    pub fixed_bases: SharedTable<FixedBasePairTable<C>, PairRule<C>>,
    pub sparse_commitment: SharedTable<SparseCommitmentTable<C>, SparseRule<C>>,
    pub prepared_instance: SharedTable<PreparedInstanceTable<C>, InstanceRule<C>>,
    pub instance_windows: SharedTable<InstanceWindows<C>, WindowsRule<C>>,
}

impl<C: CurveAffine> Clone for Params<C> {
    /// A copy that shares the prepared tables, also those that are prepared later.
    fn clone(&self) -> (r: Self)
        ensures
            r.k == self.k,
            r.n == self.n,
            r.g@ == self.g@,
            r.g_lagrange@ == self.g_lagrange@,
            r.w == self.w,
            r.u == self.u,
            r.platform == self.platform,
            r.fixed_bases == self.fixed_bases,
            r.sparse_commitment == self.sparse_commitment,
            r.prepared_instance == self.prepared_instance,
            r.instance_windows == self.instance_windows,
    {
        Params {
            k: self.k,
            n: self.n,
            g: copy_points(&self.g),
            g_lagrange: copy_points(&self.g_lagrange),
            w: self.w,
            u: self.u,
            platform: self.platform,
            fixed_bases: self.fixed_bases.clone(),
            sparse_commitment: self.sparse_commitment.clone(),
            prepared_instance: self.prepared_instance.clone(),
            instance_windows: self.instance_windows.clone(),
        }
    }
}

/// The inverse of the root of unity of order `2^k`.
pub open spec fn is_inverse_root<F: Field>(v: int, k: nat) -> bool {
    dft::root_pair(transform::unity_root::<F>(k), v, k, F::order())
}

/// Whether the second points are the inverse transform of the first: those by which
/// evaluations are committed to.
pub open spec fn is_lagrange<C: CurveAffine>(g: Seq<C>, g_lagrange: Seq<C>, k: nat) -> bool {
    exists|v: int|
        #![trigger is_inverse_root::<C::ScalarExt>(v, k)]
        is_inverse_root::<C::ScalarExt>(v, k) && forall|i: int|
            0 <= i < g.len() ==> arith::eqm(
                pow2(k) * curve::log(#[trigger] g_lagrange[i]),
                arith::poly_at(curve::logs(g), pow(v, i as nat)),
                C::ScalarExt::order(),
            )
}

/// `2^k` times the `k`th power of the half of one is one.
proof fn lemma_two_inverse(h: int, m: int, k: nat, q: int)
    requires
        q > 2,
        arith::eqm(h * 2, 1, q),
        m == pow(h, k) % q,
    ensures
        arith::eqm(m * pow2(k), 1, q),
{
    lemma_pow2(k);
    lemma_pow_distributes(h, 2, k);
    arith::lemma_eqm_pow(h * 2, 1, k, q);
    lemma1_pow(k);
    arith::lemma_mod_range(pow(h, k), q);
    arith::lemma_eqm_mul(m, pow(h, k), pow2(k) as int, pow2(k) as int, q);
}

/// The power of the inverse of the root is the inverse of the power.
proof fn lemma_inverse_root<F: Field>(r: int, v: int, k: nat)
    requires
        k <= 32,
        arith::eqm(r * F::root(), 1, F::order()),
        v == pow(r, pow2((32 - k) as nat)) % F::order(),
    ensures
        is_inverse_root::<F>(v, k),
{
    F::lemma_order();
    let q = F::order();
    let e = pow2((32 - k) as nat);
    let w = transform::unity_root::<F>(k);
    transform::lemma_unity_root::<F>(k);
    let (a, b) = (pow(F::root(), e), pow(r, e));
    arith::lemma_mod_range(a, q);
    arith::lemma_mod_range(b, q);
    arith::lemma_eqm_mul(w, a, v, b, q);
    lemma_pow_distributes(F::root(), r, e);
    lemma_mul_is_commutative(r, F::root());
    arith::lemma_eqm_pow(F::root() * r, 1, e, q);
    lemma1_pow(e);
}

/// The two values that a butterfly gives.
proof fn lemma_butterfly(s: Seq<int>, w: int, v: int, i: nat, l: nat, q: int)
    requires
        q > 2,
        l > 0,
        fft::has_order(w, l, q),
        v == (w * w) % q,
    ensures
        ({
            let (e, o) = (arith::poly_at(dft::evens(s), pow(v, i)), arith::poly_at(dft::odds(s), pow(v, i)));
            let t = pow(w, i);
            &&& arith::eqm(arith::poly_at(s, pow(w, i)), e + t * o, q)
            &&& arith::eqm(arith::poly_at(s, pow(w, i + pow2((l - 1) as nat))), e - t * o, q)
        }),
{
    let half = pow2((l - 1) as nat);
    let t = pow(w, i);
    let u = pow(w, i + half);
    let (e, o) = (arith::poly_at(dft::evens(s), pow(v, i)), arith::poly_at(dft::odds(s), pow(v, i)));
    arith::lemma_mod_range(w * w, q);
    arith::lemma_eqm_pow(v, w * w, i, q);
    lemma_pow_distributes(w, w, i);
    assert(arith::eqm(pow(v, i), t * t, q));
    lemma_pow_adds(w, i, half);
    let m = pow(w, half);
    arith::lemma_eqm_mul(t, t, m, -1, q);
    assert(arith::eqm(u, -t, q)) by {
        assert(t * (-1) == -t);
    }
    arith::lemma_eqm_mul(u, -t, u, -t, q);
    assert((-t) * (-t) == t * t) by (nonlinear_arith);
    dft::lemma_even_odd(s, t);
    dft::lemma_even_odd(s, u);
    let (ev, od) = (dft::evens(s), dft::odds(s));
    arith::lemma_poly_at_eqm(ev, ev, t * t, pow(v, i), q);
    arith::lemma_poly_at_eqm(od, od, t * t, pow(v, i), q);
    arith::lemma_poly_at_eqm(ev, ev, u * u, pow(v, i), q);
    arith::lemma_poly_at_eqm(od, od, u * u, pow(v, i), q);
    arith::lemma_eqm_mul(t, t, arith::poly_at(od, t * t), o, q);
    arith::lemma_eqm_add(arith::poly_at(ev, t * t), e, t * arith::poly_at(od, t * t), t * o, q);
    arith::lemma_eqm_mul(u, -t, arith::poly_at(od, u * u), o, q);
    arith::lemma_eqm_add(arith::poly_at(ev, u * u), e, u * arith::poly_at(od, u * u), (-t) * o, q);
    assert((-t) * o == -(t * o)) by (nonlinear_arith);
}

/// A multiple of a point, by a public scalar.
fn turned_by<C: CurveAffine>(point: C, twiddle: C::ScalarExt) -> (r: C)
    requires
        point.on_curve(),
    ensures
        r.on_curve(),
        curve::log(r) == (curve::log(point) * twiddle.val()) % C::ScalarExt::order(),
{
    if twiddle.equals(&C::ScalarExt::one()) {
        proof {
            point.lemma_point();
            C::ScalarExt::lemma_order();
            lemma_mul_basics(curve::log(point));
            arith::lemma_mod_small(curve::log(point), C::ScalarExt::order());
        }
        return point;
    }
    let mut points: Vec<C> = Vec::with_capacity(1);
    points.push(point);
    let products = C::batch_mul_same_scalar_vartime(&points, twiddle);
    assert(products@[0].on_curve());
    products[0]
}

/// The transform of points: the value, at each power of the root, of the polynomial with
/// the points as its coefficients.
pub fn curve_fft<C: CurveAffine>(points: &Vec<C>, omega: C::ScalarExt, log_n: u32) -> (r: Vec<C>)
    requires
        log_n <= TWO_ADICITY,
        points@.len() == pow2(log_n as nat),
        curve::all_on_curve(points@),
        fft::has_order(omega.val(), log_n as nat, C::ScalarExt::order()),
    ensures
        r@.len() == points@.len(),
        curve::all_on_curve(r@),
        forall|i: int|
            0 <= i < r@.len() ==> curve::log(#[trigger] r@[i]) == arith::poly_at(
                curve::logs(points@),
                pow(omega.val(), i as nat),
            ) % C::ScalarExt::order(),
    decreases log_n,
{
    let ghost q = C::ScalarExt::order();
    let ghost s = curve::logs(points@);
    let ghost w = omega.val();
    proof {
        C::ScalarExt::lemma_order();
        lemma2_to64();
    }
    if log_n == 0 {
        let mut r: Vec<C> = Vec::with_capacity(1);
        assert(points@[0].on_curve());
        r.push(points[0]);
        proof {
            let x = pow(w, 0);
            fft::lemma_poly_at_constant(s, x);
            points@[0].lemma_point();
            arith::lemma_mod_small(s[0], q);
        }
        return r;
    }
    let ghost l = log_n as nat;
    let total: usize = points.len();
    let half: usize = total / 2;
    proof {
        lemma_pow2_unfold(l);
    }
    let mut even: Vec<C> = Vec::with_capacity(half);
    let mut odd: Vec<C> = Vec::with_capacity(half);
    let mut j: usize = 0;
    while j < half
        invariant
            j <= half,
            2 * half == total,
            total == points@.len(),
            curve::all_on_curve(points@),
            even@.len() == j,
            odd@.len() == j,
            forall|i: int| 0 <= i < j ==> #[trigger] even@[i] == points@[2 * i],
            forall|i: int| 0 <= i < j ==> #[trigger] odd@[i] == points@[2 * i + 1],
            curve::all_on_curve(even@),
            curve::all_on_curve(odd@),
        decreases half - j,
    {
        assert(points@[2 * j as int].on_curve());
        assert(points@[2 * j + 1].on_curve());
        even.push(points[2 * j]);
        odd.push(points[2 * j + 1]);
        j += 1;
    }
    let squared = omega.square();
    let ghost v = squared.val();
    proof {
        assert(curve::logs(even@) =~= dft::evens(s));
        assert(curve::logs(odd@) =~= dft::odds(s));
        if l > 1 {
            // The square has half the order.
            let e = pow2((l - 2) as nat);
            lemma_pow2_unfold((l - 1) as nat);
            arith::lemma_mod_range(w * w, q);
            arith::lemma_eqm_pow(v, w * w, e, q);
            lemma_pow_distributes(w, w, e);
            lemma_pow_adds(w, e, e);
        }
    }
    let low = curve_fft(&even, squared, log_n - 1);
    let high = curve_fft(&odd, squared, log_n - 1);
    let mut front: Vec<C> = Vec::with_capacity(total);
    let mut back: Vec<C> = Vec::with_capacity(half);
    let mut twiddle = C::ScalarExt::one();
    let mut i: usize = 0;
    proof {
        lemma_pow0(w);
        arith::lemma_mod_small(1, q);
    }
    while i < half
        invariant
            i <= half,
            half == pow2((l - 1) as nat),
            l == log_n,
            l > 0,
            q == C::ScalarExt::order(),
            q > 2,
            w == omega.val(),
            v == (w * w) % q,
            fft::has_order(w, l, q),
            low@.len() == half,
            high@.len() == half,
            curve::all_on_curve(low@),
            curve::all_on_curve(high@),
            forall|k: int|
                0 <= k < half ==> curve::log(#[trigger] low@[k]) == arith::poly_at(dft::evens(s), pow(v, k as nat))
                    % q,
            forall|k: int|
                0 <= k < half ==> curve::log(#[trigger] high@[k]) == arith::poly_at(dft::odds(s), pow(v, k as nat))
                    % q,
            twiddle.val() == pow(w, i as nat) % q,
            front@.len() == i,
            back@.len() == i,
            curve::all_on_curve(front@),
            curve::all_on_curve(back@),
            forall|k: int|
                0 <= k < i ==> curve::log(#[trigger] front@[k]) == arith::poly_at(s, pow(w, k as nat)) % q,
            forall|k: int|
                0 <= k < i ==> curve::log(#[trigger] back@[k]) == arith::poly_at(s, pow(w, (k + half) as nat))
                    % q,
        decreases half - i,
    {
        assert(low@[i as int].on_curve());
        assert(high@[i as int].on_curve());
        let turned = turned_by(high[i], twiddle);
        let sum = low[i].add(turned);
        let difference = low[i].add(turned.neg());
        proof {
            let e = arith::poly_at(dft::evens(s), pow(v, i as nat));
            let o = arith::poly_at(dft::odds(s), pow(v, i as nat));
            let t = pow(w, i as nat);
            lemma_butterfly(s, w, v, i as nat, l, q);
            arith::lemma_mod_mul(o, t, q);
            lemma_mul_is_commutative(o, t);
            assert(curve::log(turned) == (t * o) % q);
            arith::lemma_mod_add(e, t * o, q);
            arith::lemma_mod_sub(0, t * o, q);
            arith::lemma_mod_add(e, -(t * o), q);
            arith::lemma_pow_step(w, i as nat);
            arith::lemma_mod_mul(t, w, q);
        }
        front.push(sum);
        back.push(difference);
        twiddle = twiddle.mul(omega);
        i += 1;
    }
    let ghost f = front@;
    let mut m: usize = 0;
    while m < half
        invariant
            m <= half,
            back@.len() == half,
            f.len() == half,
            curve::all_on_curve(back@),
            curve::all_on_curve(front@),
            front@ == f + back@.take(m as int),
        decreases half - m,
    {
        assert(back@[m as int].on_curve());
        front.push(back[m]);
        m += 1;
        assert(front@ =~= f + back@.take(m as int));
    }
    proof {
        assert(back@.take(m as int) =~= back@);
        assert forall|k: int| 0 <= k < front@.len() implies curve::log(#[trigger] front@[k]) == arith::poly_at(
            s,
            pow(w, k as nat),
        ) % q by {
            if k < half {
                assert(front@[k] == f[k]);
            } else {
                assert(front@[k] == back@[k - half]);
            }
        }
    }
    front
}

/// The first generator and those of the powers of two, and the blind's.
pub open spec fn mask_bases<C: CurveAffine>(k: u32, g: Seq<C>, w: C) -> Seq<C> {
    Seq::new(
        (k + 2) as nat,
        |i: int|
            if i == 0 {
                g[0]
            } else if i <= k {
                g[pow2((i - 1) as nat) as int]
            } else {
                w
            },
    )
}

impl<C: CurveAffine> Params<C> {
    pub open spec fn wf(&self) -> bool {
        &&& self.k < 32
        &&& self.n == pow2(self.k as nat)
        &&& self.n <= usize::MAX
        &&& self.g@.len() == self.n
        &&& self.g_lagrange@.len() == self.n
        &&& curve::all_on_curve(self.g@)
        &&& curve::all_on_curve(self.g_lagrange@)
        &&& self.w.on_curve()
        &&& self.u.on_curve()
        &&& self.fixed_bases.rule() == (PairRule { k: self.k, w: self.w, u: self.u })
        &&& self.sparse_commitment.rule() == (SparseRule { bases: self.sparse_bases() })
        &&& self.prepared_instance.rule() == (InstanceRule {
            rows: self.g_lagrange@,
            w: self.w,
        })
        &&& self.instance_windows.rule() == (WindowsRule { rows: self.g_lagrange@ })
    }

    /// The generators that masking polynomials are committed to with: those of the
    /// constant and of the powers of two, and the blind's.
    pub open spec fn sparse_bases(&self) -> Seq<C> {
        mask_bases(self.k, self.g@, self.w)
    }

    /// Whether the generators are those that the scheme hashes.
    pub open spec fn hashed(&self) -> bool {
        &&& forall|i: int|
            0 <= i < self.g@.len() ==> (#[trigger] self.g@[i]).at() == C::hash_of(
                domain(),
                generator_message(i),
            )
        &&& self.w.at() == C::hash_of(domain(), seq![1u8])
        &&& self.u.at() == C::hash_of(domain(), seq![2u8])
        &&& is_lagrange(self.g@, self.g_lagrange@, self.k as nat)
    }

    /// The logarithm of the commitment to coefficients.
    pub open spec fn committed(&self, coefficients: Seq<int>, blind: int) -> int {
        (multiexp::dot(coefficients, curve::logs(self.g@)) + blind * curve::log(self.w)) % C::ScalarExt::order()
    }

    /// The logarithm of the commitment to evaluations.
    pub open spec fn committed_lagrange(&self, values: Seq<int>, blind: int) -> int {
        (multiexp::dot(values, curve::logs(self.g_lagrange@)) + blind * curve::log(self.w)) % C::ScalarExt::order()
    }

    /// Initializes parameters for the curve, given a random oracle to draw points from.
    pub fn new(k: u32) -> (r: Self)
        requires
            k < 32,
        ensures
            r.wf(),
            r.k == k,
            r.hashed(),
            r.platform is Other,
            r.w.at() == C::hash_of("Halo2-Parameters"@, seq![1u8]),
            r.u.at() == C::hash_of("Halo2-Parameters"@, seq![2u8]),
            forall|i: int|
                0 <= i < r.g@.len() ==> (#[trigger] r.g@[i]).at() == C::hash_of(
                    "Halo2-Parameters"@,
                    seq![
                        0u8,
                        (i % 256) as u8,
                        (i / 256 % 256) as u8,
                        (i / 65536 % 256) as u8,
                        (i / 16777216 % 256) as u8,
                    ],
                ),
    {
        let ghost q = C::ScalarExt::order();
        let n: u64 = exact_power(k);
        proof {
            lemma2_to64();
            lemma_pow2_strictly_increases(k as nat, 32);
            C::ScalarExt::lemma_order();
            reveal_strlit("Halo2-Parameters");
        }
        let mut g: Vec<C> = Vec::with_capacity(n as usize);
        let mut i: u64 = 0;
        while i < n
            invariant
                i <= n,
                n < 0x1_0000_0000,
                domain().len() == 16,
                g@.len() == i,
                curve::all_on_curve(g@),
                forall|j: int|
                    0 <= j < i ==> (#[trigger] g@[j]).at() == C::hash_of(
                        domain(),
                        generator_message(j),
                    ),
            decreases n - i,
        {
            let mut message: Vec<u8> = Vec::with_capacity(5);
            message.push(0);
            message.push((i % 256) as u8);
            message.push((i / 256 % 256) as u8);
            message.push((i / 65536 % 256) as u8);
            message.push((i / 16777216 % 256) as u8);
            assert(message@ =~= generator_message(i as int));
            g.push(C::hash_to_curve("Halo2-Parameters", &message));
            i += 1;
        }
        // Evaluate all of the Lagrange basis polynomials using an inverse transform,
        // normalized by scaling its inputs.
        let root_inv = C::ScalarExt::root_of_unity_inv();
        let alpha_inv: C::ScalarExt = square_times(root_inv, TWO_ADICITY - k);
        let half = C::ScalarExt::two_inv();
        let minv = half.pow_vartime(k as u64);
        proof {
            arith::lemma_mod_small(1, q);
            lemma_two_inverse(half.val(), minv.val(), k as nat, q);
            lemma_inverse_root::<C::ScalarExt>(root_inv.val(), alpha_inv.val(), k as nat);
            dft::lemma_root_pair_swap(
                transform::unity_root::<C::ScalarExt>(k as nat),
                alpha_inv.val(),
                k as nat,
                q,
            );
        }
        let shrunk = C::batch_mul_same_scalar_vartime(&g, minv);
        let g_lagrange = curve_fft(&shrunk, alpha_inv, k);
        let mut one: Vec<u8> = Vec::with_capacity(1);
        one.push(1);
        let w = C::hash_to_curve("Halo2-Parameters", &one);
        let mut two: Vec<u8> = Vec::with_capacity(1);
        two.push(2);
        let u = C::hash_to_curve("Halo2-Parameters", &two);
        assert(one@ =~= seq![1u8]);
        assert(two@ =~= seq![2u8]);
        proof {
            let v = alpha_inv.val();
            let m = minv.val();
            let s = curve::logs(g@);
            let t = curve::logs(shrunk@);
            assert forall|i: int| 0 <= i < g@.len() implies arith::eqm(
                pow2(k as nat) * curve::log(#[trigger] g_lagrange@[i]),
                arith::poly_at(s, pow(v, i as nat)),
                q,
            ) by {
                let x = pow(v, i as nat);
                let exact = dft::scaled(s, m);
                assert forall|j: int| 0 <= j < t.len() implies arith::eqm(#[trigger] t[j], exact[j], q) by {
                    assert(t[j] == curve::log(shrunk@[j]));
                    arith::lemma_mod_range(s[j] * m, q);
                }
                arith::lemma_poly_at_eqm(t, exact, x, x, q);
                dft::lemma_poly_at_scaled(s, m, x);
                let a = arith::poly_at(s, x);
                let b = arith::poly_at(t, x);
                arith::lemma_mod_range(b, q);
                let e = pow2(k as nat) as int;
                arith::lemma_eqm_mul(e, e, b % q, a * m, q);
                assert(e * (a * m) == (m * e) * a) by (nonlinear_arith);
                arith::lemma_eqm_mul(m * e, 1, a, a, q);
                lemma_mul_basics(a);
            }
        }
        Params::without_tables(k, n, g, g_lagrange, w, u)
    }

    /// The parameters with these generators, for which nothing is prepared.
    pub fn without_tables(k: u32, n: u64, g: Vec<C>, g_lagrange: Vec<C>, w: C, u: C) -> (r: Self)
        ensures
            r.k == k,
            r.n == n,
            r.g == g,
            r.g_lagrange == g_lagrange,
            r.w == w,
            r.u == u,
            r.platform is Other,
            r.fixed_bases.rule() == (PairRule { k, w, u }),
            r.sparse_commitment.rule() == (SparseRule { bases: r.sparse_bases() }),
            r.prepared_instance.rule() == (InstanceRule { rows: g_lagrange@, w }),
            r.instance_windows.rule() == (WindowsRule { rows: g_lagrange@ }),
    {
        let ghost pair = PairRule { k, w, u };
        let ghost masked = SparseRule { bases: mask_bases(k, g@, w) };
        let ghost instance = InstanceRule { rows: g_lagrange@, w };
        let ghost multiples = WindowsRule { rows: g_lagrange@ };
        Params {
            k,
            n,
            g,
            g_lagrange,
            w,
            u,
            platform: Platform::Other,
            fixed_bases: SharedTable::new(Ghost(pair)),
            sparse_commitment: SharedTable::new(Ghost(masked)),
            prepared_instance: SharedTable::new(Ghost(instance)),
            instance_windows: SharedTable::new(Ghost(multiples)),
        }
    }

    /// The same parameters for use on a platform.
    pub fn on_platform(self, platform: Platform) -> (r: Self)
        ensures
            r == (Params { platform, ..self }),
    {
        Params {
            k: self.k,
            n: self.n,
            g: self.g,
            g_lagrange: self.g_lagrange,
            w: self.w,
            u: self.u,
            platform,
            fixed_bases: self.fixed_bases,
            sparse_commitment: self.sparse_commitment,
            prepared_instance: self.prepared_instance,
            instance_windows: self.instance_windows,
        }
    }
}

} // verus!
