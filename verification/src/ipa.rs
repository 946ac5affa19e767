//! The prover of the inner product argument, as steps between which challenges are
//! drawn.
use crate::arith;
use crate::basis::current_num_threads;
use crate::blind::Blind;
use crate::commit;
use crate::commit::{MAX_PREPARED_COMMITMENT_K, copy_points, prepared_commitment_max_threads};
use crate::curve;
use crate::curve::CurveAffine;
use crate::division;
use crate::fft;
use crate::field::Field;
use crate::multiexp;
use crate::multiexp::best_multiexp;
use crate::params::Params;
use crate::poly;
use crate::poly::{Coeff, Polynomial, copy_values};
use crate::shared::Holds;
use crate::qprime;
use crate::qprime::evaluate_polynomial_with_powers;
use crate::tables::FixedBasePairTable;
use vstd::arithmetic::mul::*;
use vstd::arithmetic::power::*;
use vstd::arithmetic::power2::*;
use std::sync::Arc;
use vstd::prelude::*;

verus! {

/// Whether the terms are those of a masking polynomial: the constant and each power of
/// two below the size.
pub open spec fn is_mask<F: Field>(terms: Seq<(usize, F)>, k: nat) -> bool {
    &&& terms.len() == k + 1
    &&& terms[0].0 == 0
    &&& forall|t: int| 0 <= t < k ==> (#[trigger] terms[t + 1]).0 == pow2(t as nat)
}

/// The coefficient of `X^i` of a sparse polynomial.
pub open spec fn sparse_coeff<F: Field>(terms: Seq<(usize, F)>, i: int) -> int
    decreases terms.len(),
{
    if terms.len() == 0 {
        0
    } else {
        sparse_coeff(terms.drop_last(), i) + (if terms.last().0 == i {
            terms.last().1.val()
        } else {
            0
        })
    }
}

/// `alpha_0 x + alpha_1 x^2 + alpha_2 x^4 + ..`
pub open spec fn mask_sum(alphas: Seq<int>, x: int) -> int
    decreases alphas.len(),
{
    if alphas.len() == 0 {
        0
    } else {
        mask_sum(alphas.drop_last(), x) + alphas.last() * pow(x, pow2((alphas.len() - 1) as nat))
    }
}

/// The powers of two below the number of bits fit.
proof fn lemma_index_fits(t: nat)
    requires
        t < usize::BITS,
    ensures
        pow2(t) <= usize::MAX,
{
    lemma2_to64();
    lemma_pow2_strictly_increases(t, usize::BITS as nat);
    assert(usize::BITS == 32 || usize::BITS == 64);
}

/// The sparse polynomial that masks the final folded scalar: its coefficients of the
/// powers of two are the given ones, and the constant makes `x` a root.
pub fn sample_ipa_masking_polynomial<F: Field>(k: u32, x: F, alphas: &Vec<F>) -> (r: Vec<(usize, F)>)
    requires
        k < usize::BITS,
        alphas@.len() == k,
    ensures
        is_mask(r@, k as nat),
        forall|t: int| 0 <= t < k ==> (#[trigger] r@[t + 1]).1 == alphas@[t],
        r@[0].1.val() == (-mask_sum(poly::vals(alphas@), x.val())) % F::order(),
        arith::eqm(commit::sparse_at(r@, x.val()), 0, F::order()),
{
    let ghost p = F::order();
    let ghost a = poly::vals(alphas@);
    let ghost z = x.val();
    let mut constant = F::zero();
    let mut coefficients: Vec<(usize, F)> = Vec::with_capacity(k as usize + 1);
    coefficients.push((0, F::zero()));
    let mut x_power = x;
    let mut index: usize = 1;
    let mut t: u32 = 0;
    proof {
        F::lemma_order();
        F::lemma_val(x);
        lemma2_to64();
        lemma_pow1(z);
        arith::lemma_mod_small(z, p);
        arith::lemma_mod_small(0, p);
        assert(a.take(0) =~= Seq::<int>::empty());
        assert(coefficients@.skip(1) =~= Seq::<(usize, F)>::empty());
    }
    while t < k
        invariant
            t <= k < usize::BITS,
            alphas@.len() == k,
            p == F::order(),
            p > 2,
            a == poly::vals(alphas@),
            z == x.val(),
            t < k ==> index == pow2(t as nat),
            x_power.val() == pow(z, pow2(t as nat)) % p,
            constant.val() == (-mask_sum(a.take(t as int), z)) % p,
            coefficients@.len() == t + 1,
            coefficients@[0].0 == 0,
            forall|i: int| 0 <= i < t ==> (#[trigger] coefficients@[i + 1]).0 == pow2(i as nat),
            forall|i: int| 0 <= i < t ==> (#[trigger] coefficients@[i + 1]).1 == alphas@[i],
            commit::sparse_at(coefficients@.skip(1), z) == mask_sum(a.take(t as int), z),
        decreases k - t,
    {
        let alpha = alphas[t as usize];
        let term = alpha.mul(x_power);
        let ghost before = coefficients@;
        let ghost e = pow(z, pow2(t as nat));
        let ghost s = mask_sum(a.take(t as int), z);
        constant = constant.sub(term);
        coefficients.push((index, alpha));
        proof {
            assert(a.take(t + 1).drop_last() =~= a.take(t as int));
            arith::lemma_mod_mul(alpha.val(), e, p);
            arith::lemma_mod_sub(-s, alpha.val() * e, p);
            assert(coefficients@.skip(1) =~= before.skip(1).push((index, alpha)));
            assert(coefficients@.skip(1).drop_last() =~= before.skip(1));
            lemma_pow2_unfold((t + 1) as nat);
            lemma_pow_adds(z, pow2(t as nat), pow2(t as nat));
            arith::lemma_mod_mul(e, e, p);
            lemma2_to64();
            if t + 1 < k {
                lemma_index_fits((t + 1) as nat);
            }
        }
        x_power = x_power.square();
        if t + 1 < k {
            index = index * 2;
        }
        t += 1;
    }
    let ghost rest = coefficients@;
    coefficients[0] = (0, constant);
    proof {
        assert(a.take(t as int) =~= a);
        let r = coefficients@;
        assert(r.skip(1) =~= rest.skip(1));
        lemma_sparse_first(r, z);
        let s = mask_sum(a, z);
        arith::lemma_mod_range(-s, p);
        lemma_pow0(z);
        arith::lemma_eqm_add((-s) % p, -s, s, s, p);
        lemma_mul_basics(constant.val());
    }
    coefficients
}

/// The value of a sparse polynomial from its first term.
proof fn lemma_sparse_first<F: Field>(terms: Seq<(usize, F)>, x: int)
    requires
        terms.len() > 0,
    ensures
        commit::sparse_at(terms, x) == terms[0].1.val() * pow(x, terms[0].0 as nat) + commit::sparse_at(
            terms.skip(1),
            x,
        ),
    decreases terms.len(),
{
    if terms.len() == 1 {
        assert(terms.skip(1) =~= Seq::<(usize, F)>::empty());
        assert(terms.drop_last() =~= Seq::<(usize, F)>::empty());
        assert(commit::sparse_at(Seq::<(usize, F)>::empty(), x) == 0);
    } else {
        lemma_sparse_first(terms.drop_last(), x);
        assert(terms.skip(1).drop_last() =~= terms.drop_last().skip(1));
        assert(terms.skip(1).last() == terms.last());
    }
}

/// The commitment to a masking polynomial.
pub fn ipa_masking_commitment<C: CurveAffine>(
    coefficients: &Vec<(usize, C::ScalarExt)>,
    blind: Blind<C::ScalarExt>,
    params: &Params<C>,
) -> (r: C)
    requires
        params.wf(),
        is_mask(coefficients@, params.k as nat),
    ensures
        r.on_curve(),
        curve::log(r) == (commit::sparse_dot(coefficients@, curve::logs(params.g@)) + blind.0.val() * curve::log(params.w))
            % C::ScalarExt::order(),
{
    if let Some(commitment) = params.commit_sparse(coefficients, blind) {
        return commitment;
    }
    let ghost ls = curve::logs(params.g@);
    let mut scalars: Vec<C::ScalarExt> = Vec::new();
    let mut bases: Vec<C> = Vec::new();
    let mut i: usize = 0;
    proof {
        assert(poly::vals(scalars@) =~= Seq::<int>::empty());
        assert(coefficients@.take(0) =~= Seq::<(usize, C::ScalarExt)>::empty());
    }
    while i < coefficients.len()
        invariant
            i <= coefficients@.len(),
            params.wf(),
            is_mask(coefficients@, params.k as nat),
            ls == curve::logs(params.g@),
            scalars@.len() == i,
            bases@.len() == i,
            curve::all_on_curve(bases@),
            multiexp::dot(poly::vals(scalars@), curve::logs(bases@)) == commit::sparse_dot(coefficients@.take(i as int), ls),
        decreases coefficients@.len() - i,
    {
        let (index, coefficient) = coefficients[i];
        let ghost (s, b) = (scalars@, bases@);
        proof {
            lemma_pow2_pos(params.k as nat);
            if i > 0 {
                assert(coefficients@[i - 1 + 1].0 == pow2((i - 1) as nat));
                lemma_pow2_strictly_increases((i - 1) as nat, params.k as nat);
            }
            assert(params.g@[index as int].on_curve());
            assert(coefficients@.take(i + 1).drop_last() =~= coefficients@.take(i as int));
        }
        scalars.push(coefficient);
        bases.push(params.g[index]);
        proof {
            assert(poly::vals(scalars@) =~= poly::vals(s).push(coefficient.val()));
            assert(curve::logs(bases@) =~= curve::logs(b).push(ls[index as int]));
            multiexp::lemma_dot_push(poly::vals(s), curve::logs(b), coefficient.val(), ls[index as int]);
        }
        i += 1;
    }
    let ghost (s, b) = (scalars@, bases@);
    scalars.push(blind.0);
    bases.push(params.w);
    proof {
        assert(coefficients@.take(i as int) =~= coefficients@);
        assert(poly::vals(scalars@) =~= poly::vals(s).push(blind.0.val()));
        assert(curve::logs(bases@) =~= curve::logs(b).push(curve::log(params.w)));
        multiexp::lemma_dot_push(poly::vals(s), curve::logs(b), blind.0.val(), curve::log(params.w));
    }
    best_multiexp(scalars.as_slice(), bases.as_slice())
}

/// The logarithm of a round's point: the inner product of coefficients and bases, the
/// inner product with the powers on `u`, and the randomness on `w`.
pub open spec fn round_log<C: CurveAffine>(
    params: Params<C>,
    coeffs: Seq<int>,
    bases: Seq<int>,
    value: int,
    randomness: int,
    z: int,
) -> int {
    multiexp::dot(coeffs, bases) + (value * z) * curve::log(params.u) + randomness * curve::log(params.w)
}

/// A point of a round.
pub fn ipa_round_multiexp<C: CurveAffine>(
    coeffs: &[C::ScalarExt],
    bases: &[C],
    value: C::ScalarExt,
    randomness: C::ScalarExt,
    params: &Params<C>,
    z: C::ScalarExt,
) -> (r: C)
    requires
        params.wf(),
        coeffs@.len() == bases@.len(),
        curve::all_on_curve(bases@),
    ensures
        r.on_curve(),
        curve::log(r) == round_log(
            *params,
            poly::vals(coeffs@),
            curve::logs(bases@),
            value.val(),
            randomness.val(),
            z.val(),
        ) % C::ScalarExt::order(),
{
    let ghost q = C::ScalarExt::order();
    let mut round_coeffs = copy_values(coeffs);
    let mut round_bases: Vec<C> = Vec::new();
    let mut i: usize = 0;
    while i < bases.len()
        invariant
            i <= bases@.len(),
            curve::all_on_curve(bases@),
            curve::all_on_curve(round_bases@),
            round_bases@ == bases@.take(i as int),
        decreases bases@.len() - i,
    {
        assert(bases@[i as int].on_curve());
        round_bases.push(bases[i]);
        i += 1;
        assert(round_bases@ =~= bases@.take(i as int));
    }
    assert(bases@.take(i as int) =~= bases@);
    let scaled_value = value.mul(z);
    round_coeffs.push(scaled_value);
    round_coeffs.push(randomness);
    round_bases.push(params.u);
    round_bases.push(params.w);
    proof {
        C::ScalarExt::lemma_order();
        let (s, b) = (poly::vals(coeffs@), curve::logs(bases@));
        let (v, r) = (scaled_value.val(), randomness.val());
        let (u, w) = (curve::log(params.u), curve::log(params.w));
        assert(poly::vals(round_coeffs@) =~= s.push(v).push(r));
        assert(curve::logs(round_bases@) =~= b.push(u).push(w));
        multiexp::lemma_dot_push(s, b, v, u);
        multiexp::lemma_dot_push(s.push(v), b.push(u), r, w);
        let t = value.val() * z.val();
        arith::lemma_mod_range(t, q);
        arith::lemma_eqm_mul(v, t, u, u, q);
        arith::lemma_eqm_add(v * u, t * u, multiexp::dot(s, b) + r * w, multiexp::dot(s, b) + r * w, q);
    }
    best_multiexp(round_coeffs.as_slice(), round_bases.as_slice())
}

/// What a round's point is made of.
pub struct IpaRoundTerms<'a, C: CurveAffine> {
    pub coeffs: &'a [C::ScalarExt],
    pub bases: &'a [C],
    pub value: C::ScalarExt,
    pub randomness: C::ScalarExt,
}

impl<'a, C: CurveAffine> IpaRoundTerms<'a, C> {
    pub open spec fn wf(&self) -> bool {
        &&& self.coeffs@.len() == self.bases@.len()
        &&& curve::all_on_curve(self.bases@)
    }

    pub open spec fn point_log(&self, params: Params<C>, z: int) -> int {
        round_log(
            params,
            poly::vals(self.coeffs@),
            curve::logs(self.bases@),
            self.value.val(),
            self.randomness.val(),
            z,
        ) % C::ScalarExt::order()
    }
}

/// Both points of a round. Where the multiples of `u` and `w` are prepared, they come
/// from the table.
pub fn ipa_round_multiexps<'a, C: CurveAffine>(
    l: IpaRoundTerms<'a, C>,
    r: IpaRoundTerms<'a, C>,
    params: &Params<C>,
    z: C::ScalarExt,
) -> (s: (C, C))
    requires
        params.wf(),
        l.wf(),
        r.wf(),
    ensures
        s.0.on_curve(),
        s.1.on_curve(),
        curve::log(s.0) == l.point_log(*params, z.val()),
        curve::log(s.1) == r.point_log(*params, z.val()),
{
    if let Some(fixed_bases) = params.fixed_base_table() {
        let l_body = best_multiexp(l.coeffs, l.bases);
        let r_body = best_multiexp(r.coeffs, r.bases);
        let l_value = l.value.mul(z);
        let r_value = r.value.mul(z);
        let (l_auxiliary, r_auxiliary) = fixed_bases.multiply_ipa_rounds(
            l_value,
            l.randomness,
            r_value,
            r.randomness,
        );
        proof {
            assert(seq![params.w, params.u][0] == params.w);
            assert(seq![params.w, params.u][1] == params.u);
            lemma_split_round(*params, l, z.val(), l_value.val());
            lemma_split_round(*params, r, z.val(), r_value.val());
        }
        return (l_body.add(l_auxiliary), r_body.add(r_auxiliary));
    }
    (
        ipa_round_multiexp(l.coeffs, l.bases, l.value, l.randomness, params, z),
        ipa_round_multiexp(r.coeffs, r.bases, r.value, r.randomness, params, z),
    )
}

/// The body and the multiples of the fixed points add up.
proof fn lemma_split_round<'a, C: CurveAffine>(
    params: Params<C>,
    terms: IpaRoundTerms<'a, C>,
    z: int,
    scaled_value: int,
)
    requires
        scaled_value == (terms.value.val() * z) % C::ScalarExt::order(),
    ensures
        (multiexp::dot(poly::vals(terms.coeffs@), curve::logs(terms.bases@)) % C::ScalarExt::order() + (curve::log(params.u)
            * scaled_value + curve::log(params.w) * terms.randomness.val()) % C::ScalarExt::order())
            % C::ScalarExt::order() == terms.point_log(params, z),
{
    C::ScalarExt::lemma_order();
    let q = C::ScalarExt::order();
    let d = multiexp::dot(poly::vals(terms.coeffs@), curve::logs(terms.bases@));
    let (u, w, r) = (curve::log(params.u), curve::log(params.w), terms.randomness.val());
    let t = terms.value.val() * z;
    arith::lemma_mod_range(t, q);
    arith::lemma_eqm_mul(u, u, scaled_value, t, q);
    lemma_mul_is_commutative(u, t);
    lemma_mul_is_commutative(w, r);
    arith::lemma_eqm_add(u * scaled_value, t * u, w * r, r * w, q);
    arith::lemma_mod_add(d, u * scaled_value + w * r, q);
    arith::lemma_eqm_add(d, d, u * scaled_value + w * r, t * u + r * w, q);
}

impl<C: CurveAffine> Params<C> {
    /// Both points of the first round from the prepared table, if it is there, on narrow
    /// pools alone.
    pub fn prepared_first_ipa_round(
        &self,
        table: Option<Arc<FixedBasePairTable<C>>>,
        thread_count: usize,
        p_hi: &[C::ScalarExt],
        p_lo: &[C::ScalarExt],
        l_u: C::ScalarExt,
        l_w: C::ScalarExt,
        r_u: C::ScalarExt,
        r_w: C::ScalarExt,
    ) -> (s: Option<(C, C)>)
        requires
            self.wf(),
            self.k > 0,
            p_hi@.len() == self.n / 2,
            p_lo@.len() == self.n / 2,
            table matches Some(held) ==> self.fixed_bases.rule().holds(*held),
        ensures
            s is Some <==> table is Some && thread_count <= commit::widest_pool(self.platform, self.k),
            s matches Some((l, r)) ==> {
                let half = (self.n / 2) as int;
                &&& l.on_curve()
                &&& r.on_curve()
                &&& curve::log(l) == (multiexp::dot(poly::vals(p_hi@), curve::logs(self.g@).take(half)) + (l_u.val() * curve::log(
                    self.u,
                ) + l_w.val() * curve::log(self.w))) % C::ScalarExt::order()
                &&& curve::log(r) == (multiexp::dot(poly::vals(p_lo@), curve::logs(self.g@).skip(half)) + (r_u.val() * curve::log(
                    self.u,
                ) + r_w.val() * curve::log(self.w))) % C::ScalarExt::order()
            },
    {
        if thread_count > prepared_commitment_max_threads(self.platform, self.k) {
            return None;
        }
        match table {
            None => None,
            Some(fixed_bases) => {
                let ghost q = C::ScalarExt::order();
                let half: usize = (self.n / 2) as usize;
                let n: usize = self.g.len();
                proof {
                    C::ScalarExt::lemma_order();
                    lemma2_to64();
                    lemma_pow2_unfold(self.k as nat);
                }
                let lo = vstd::slice::slice_subrange(self.g.as_slice(), 0, half);
                let hi = vstd::slice::slice_subrange(self.g.as_slice(), half, n);
                proof {
                    assert(curve::all_on_curve(lo@)) by {
                        assert forall|i: int| 0 <= i < lo@.len() implies (#[trigger] lo@[i]).on_curve() by {
                            assert(lo@[i] == self.g@[i]);
                        }
                    }
                    assert(curve::all_on_curve(hi@)) by {
                        assert forall|i: int| 0 <= i < hi@.len() implies (#[trigger] hi@[i]).on_curve() by {
                            assert(hi@[i] == self.g@[half + i]);
                        }
                    }
                    assert(curve::logs(lo@) =~= curve::logs(self.g@).take(half as int));
                    assert(curve::logs(hi@) =~= curve::logs(self.g@).skip(half as int));
                }
                let l_body = best_multiexp(p_hi, lo);
                let r_body = best_multiexp(p_lo, hi);
                let (l_auxiliary, r_auxiliary) = fixed_bases.multiply_ipa_rounds(
                    l_u,
                    l_w,
                    r_u,
                    r_w,
                );
                proof {
                    assert(seq![self.w, self.u][0] == self.w);
                    assert(seq![self.w, self.u][1] == self.u);
                    let (u, w) = (curve::log(self.u), curve::log(self.w));
                    lemma_mul_is_commutative(u, l_u.val());
                    lemma_mul_is_commutative(w, l_w.val());
                    lemma_mul_is_commutative(u, r_u.val());
                    lemma_mul_is_commutative(w, r_w.val());
                    arith::lemma_mod_add(
                        multiexp::dot(poly::vals(p_hi@), curve::logs(lo@)),
                        u * l_u.val() + w * l_w.val(),
                        q,
                    );
                    arith::lemma_mod_add(
                        multiexp::dot(poly::vals(p_lo@), curve::logs(hi@)),
                        u * r_u.val() + w * r_w.val(),
                        q,
                    );
                }
                Some((l_body.add(l_auxiliary), r_body.add(r_auxiliary)))
            },
        }
    }

    /// As [`Params::prepared_first_ipa_round`], with the table that is there and the threads
    /// of the current pool.
    pub fn try_prepared_first_ipa_round(
        &self,
        p_hi: &[C::ScalarExt],
        p_lo: &[C::ScalarExt],
        l_u: C::ScalarExt,
        l_w: C::ScalarExt,
        r_u: C::ScalarExt,
        r_w: C::ScalarExt,
    ) -> (s: Option<(C, C)>)
        requires
            self.wf(),
            self.k > 0,
            p_hi@.len() == self.n / 2,
            p_lo@.len() == self.n / 2,
        ensures
            s is Some ==> self.k <= MAX_PREPARED_COMMITMENT_K,
            s matches Some((l, r)) ==> {
                let half = (self.n / 2) as int;
                &&& l.on_curve()
                &&& r.on_curve()
                &&& curve::log(l) == (multiexp::dot(poly::vals(p_hi@), curve::logs(self.g@).take(half)) + (l_u.val() * curve::log(
                    self.u,
                ) + l_w.val() * curve::log(self.w))) % C::ScalarExt::order()
                &&& curve::log(r) == (multiexp::dot(poly::vals(p_lo@), curve::logs(self.g@).skip(half)) + (r_u.val() * curve::log(
                    self.u,
                ) + r_w.val() * curve::log(self.w))) % C::ScalarExt::order()
            },
    {
        self.prepared_first_ipa_round(
            self.fixed_base_table(),
            current_num_threads(),
            p_hi,
            p_lo,
            l_u,
            l_w,
            r_u,
            r_w,
        )
    }
}

/// The inner product of the high half of a polynomial and the powers.
pub fn compute_ipa_hi_evaluation<F: Field>(polynomial: &Vec<F>, powers: &Vec<F>, half: usize) -> (r: F)
    requires
        polynomial@.len() == 2 * half,
        powers@.len() >= half,
    ensures
        r.val() == multiexp::dot(poly::vals(polynomial@).skip(half as int), poly::vals(powers@)) % F::order(),
{
    let high = vstd::slice::slice_subrange(polynomial.as_slice(), half, polynomial.len());
    assert(poly::vals(high@) =~= poly::vals(polynomial@).skip(half as int));
    evaluate_polynomial_with_powers(high, powers)
}

/// Adds the challenge's multiples of the high half to the low half.
pub fn parallel_generator_collapse<C: CurveAffine>(g: &mut Vec<C>, challenge: C::ScalarExt)
    requires
        old(g)@.len() >= 2,
        curve::all_on_curve(old(g)@),
    ensures
        final(g)@.len() == old(g)@.len(),
        curve::all_on_curve(final(g)@),
        forall|i: int|
            0 <= i < old(g)@.len() / 2 ==> curve::log(#[trigger] final(g)@[i]) == (curve::log(old(g)@[i])
                + challenge.val() * curve::log(old(g)@[i + old(g)@.len() / 2])) % C::ScalarExt::order(),
        forall|i: int|
            old(g)@.len() / 2 <= i < old(g)@.len() ==> #[trigger] final(g)@[i] == old(g)@[i],
{
    let ghost q = C::ScalarExt::order();
    let ghost before = g@;
    let total: usize = g.len();
    let len: usize = total / 2;
    let mut high: Vec<C> = Vec::with_capacity(len);
    let mut k: usize = 0;
    while k < len
        invariant
            k <= len,
            2 * len <= total,
            total == g@.len(),
            g@ == before,
            curve::all_on_curve(g@),
            high@.len() == k,
            curve::all_on_curve(high@),
            forall|i: int| 0 <= i < k ==> #[trigger] high@[i] == before[i + len],
        decreases len - k,
    {
        assert(g@[len + k].on_curve());
        high.push(g[len + k]);
        k += 1;
    }
    let scaled_points = C::batch_mul_same_scalar_vartime(&high, challenge);
    let mut i: usize = 0;
    proof {
        C::ScalarExt::lemma_order();
    }
    while i < len
        invariant
            i <= len,
            2 * len <= total,
            total == g@.len(),
            g@.len() == before.len(),
            q == C::ScalarExt::order(),
            q > 2,
            curve::all_on_curve(g@),
            curve::all_on_curve(before),
            high@.len() == len,
            scaled_points@.len() == len,
            forall|j: int| 0 <= j < len ==> #[trigger] high@[j] == before[j + len],
            forall|j: int|
                0 <= j < len ==> (#[trigger] scaled_points@[j]).on_curve() && curve::log(scaled_points@[j]) == (curve::log(
                    high@[j],
                ) * challenge.val()) % q,
            forall|j: int| i <= j < g@.len() ==> #[trigger] g@[j] == before[j],
            forall|j: int|
                0 <= j < i ==> curve::log(#[trigger] g@[j]) == (curve::log(before[j]) + challenge.val() * curve::log(
                    before[j + len],
                )) % q,
        decreases len - i,
    {
        assert(g@[i as int].on_curve());
        assert(scaled_points@[i as int].on_curve());
        let sum = scaled_points[i].add(g[i]);
        proof {
            let (a, b, c) = (curve::log(before[i as int]), curve::log(before[i + len]), challenge.val());
            assert(high@[i as int] == before[i + len]);
            lemma_mul_is_commutative(b, c);
            arith::lemma_mod_add(b * c, a, q);
        }
        g[i] = sum;
        i += 1;
    }
}

/// The opening of a polynomial, before the first challenges.
pub struct IpaOpening<'a, C: CurveAffine> {
    pub params: &'a Params<C>,
    pub p_poly: Polynomial<C::ScalarExt, Coeff>,
    pub p_blind: Blind<C::ScalarExt>,
    pub x_3: C::ScalarExt,
    pub powers: Vec<C::ScalarExt>,
    pub s_poly: Vec<(usize, C::ScalarExt)>,
    pub s_poly_blind: Blind<C::ScalarExt>,
}

impl<'a, C: CurveAffine> IpaOpening<'a, C> {
    pub open spec fn wf(&self) -> bool {
        &&& self.params.wf()
        &&& self.p_poly.values@.len() == self.params.n
        &&& self.powers@.len() == self.params.n
        &&& fft::powers_of(self.powers@, self.x_3.val())
        &&& is_mask(self.s_poly@, self.params.k as nat)
        &&& arith::eqm(commit::sparse_at(self.s_poly@, self.x_3.val()), 0, C::ScalarExt::order())
    }

    /// The logarithm of the mask's commitment.
    pub open spec fn mask_log(&self) -> int {
        (commit::sparse_dot(self.s_poly@, curve::logs(self.params.g@)) + self.s_poly_blind.0.val() * curve::log(
            self.params.w,
        )) % C::ScalarExt::order()
    }

    /// The commitment without the value at `x_3`, with the mask.
    pub open spec fn masked_log(&self, xi: int) -> int {
        self.params.committed(poly::vals(self.p_poly.values@), self.p_blind.0.val()) - arith::poly_at(
            poly::vals(self.p_poly.values@),
            self.x_3.val(),
        ) * curve::log(self.params.g@[0]) + xi * self.mask_log()
    }

    /// The coefficient of `X^i` of `p - p(x_3) + xi s`.
    pub open spec fn masked_coeff(&self, xi: int, i: int) -> int {
        (self.p_poly.values@[i].val() + xi * sparse_coeff(self.s_poly@, i) - (if i == 0 {
            arith::poly_at(poly::vals(self.p_poly.values@), self.x_3.val())
        } else {
            0
        })) % C::ScalarExt::order()
    }

    /// Starts the opening of a polynomial at `x_3`, whose powers are given, with the
    /// coefficients of the masking polynomial and its blind. The commitment to the masking
    /// polynomial is the first message.
    pub fn new(
        params: &'a Params<C>,
        p_poly: Polynomial<C::ScalarExt, Coeff>,
        p_blind: Blind<C::ScalarExt>,
        x_3: C::ScalarExt,
        powers: Vec<C::ScalarExt>,
        alphas: &Vec<C::ScalarExt>,
        s_poly_blind: Blind<C::ScalarExt>,
    ) -> (r: (Self, C))
        requires
            params.wf(),
            p_poly.values@.len() == params.n,
            powers@.len() == params.n,
            fft::powers_of(powers@, x_3.val()),
            alphas@.len() == params.k,
        ensures
            r.0.wf(),
            r.0.params == params,
            r.0.p_poly == p_poly,
            r.0.p_blind == p_blind,
            r.0.x_3 == x_3,
            r.0.powers == powers,
            r.0.s_poly_blind == s_poly_blind,
            forall|t: int| 0 <= t < params.k ==> (#[trigger] r.0.s_poly@[t + 1]).1 == alphas@[t],
            r.1.on_curve(),
            curve::log(r.1) == r.0.mask_log(),
    {
        let s_poly = sample_ipa_masking_polynomial(params.k, x_3, alphas);
        let commitment = ipa_masking_commitment(&s_poly, s_poly_blind, params);
        (IpaOpening { params, p_poly, p_blind, x_3, powers, s_poly, s_poly_blind }, commitment)
    }

    /// Takes the first two challenges: what is opened is `p - p(x_3) + xi s`, which has a
    /// root at `x_3`.
    pub fn begin(self, xi: C::ScalarExt, z: C::ScalarExt) -> (r: IpaRounds<'a, C>)
        requires
            self.wf(),
        ensures
            r.wf(),
            r.params == self.params,
            r.x_3 == self.x_3,
            r.z == z,
            r.round == 0,
            curve::logs(r.g_prime@) == curve::logs(self.params.g@),
            r.b_scale.val() == 1,
            r.powers@ == self.powers@,
            forall|i: int|
                0 <= i < self.params.n ==> (#[trigger] r.p_prime@[i]).val() == self.masked_coeff(
                    xi.val(),
                    i,
                ),
            r.f.val() == (self.s_poly_blind.0.val() * xi.val() + self.p_blind.0.val())
                % C::ScalarExt::order(),
            arith::eqm(r.value(), self.masked_log(xi.val()), C::ScalarExt::order()),
            arith::eqm(arith::poly_at(poly::vals(r.p_prime@), self.x_3.val()), 0, C::ScalarExt::order()),
    {
        let ghost q = C::ScalarExt::order();
        let ghost me = self;
        let ghost x = self.x_3.val();
        let ghost b = curve::logs(self.params.g@);
        let ghost w = poly::vals(self.powers@);
        let IpaOpening { params, p_poly, p_blind, x_3, powers, s_poly, s_poly_blind } = self;
        let ghost p0 = poly::vals(p_poly.values@);
        let mut p_prime = p_poly.values;
        proof {
            C::ScalarExt::lemma_order();
            lemma_pow2_pos(params.k as nat);
        }
        add_sparse(&mut p_prime, &s_poly, xi, params.k, Ghost(b), Ghost(w));
        let ghost p1 = poly::vals(p_prime@);
        let v = evaluate_polynomial_with_powers(p_prime.as_slice(), &powers);
        let first = p_prime[0].sub(v);
        p_prime[0] = first;
        let ghost p2 = poly::vals(p_prime@);
        let scaled_blind = s_poly_blind.mul(Blind(xi));
        let p_prime_blind = scaled_blind.add(p_blind);
        let g_prime = copy_points(&params.g);
        let r = IpaRounds {
            params,
            x_3,
            z,
            powers,
            p_prime,
            g_prime,
            p_prime_at_x_3: C::ScalarExt::zero(),
            b_scale: C::ScalarExt::one(),
            f: p_prime_blind.0,
            round: 0,
        };
        proof {
            // The value taken off the constant is p(x).
            qprime::lemma_dot_powers(p1, powers@, x);
            qprime::lemma_dot_powers(p0, powers@, x);
            qprime::lemma_dot_powers(p2, powers@, x);
            lemma_sparse_powers(s_poly@, powers@, x, params.k as nat);
            let (vx, xv) = (v.val(), xi.val());
            let (dw0, dw1) = (multiexp::dot(p0, w), multiexp::dot(p1, w));
            let sw = commit::sparse_dot(s_poly@, w);
            arith::lemma_eqm_mul(xv, xv, sw, 0, q);
            lemma_mul_basics(xv);
            arith::lemma_eqm_add(dw0, arith::poly_at(p0, x), xv * sw, 0, q);
            arith::lemma_mod_range(dw1, q);
            let px = arith::poly_at(p0, x);
            assert(arith::eqm(vx, px, q));
            // The coefficients.
            assert forall|i: int| 0 <= i < params.n implies (#[trigger] r.p_prime@[i]).val()
                == me.masked_coeff(xv, i) by {
                if i == 0 {
                    let c = p0[0] + xv * sparse_coeff(s_poly@, 0);
                    arith::lemma_mod_range(c, q);
                    arith::lemma_eqm_sub(c % q, c, vx, px, q);
                } else {
                    assert(p2[i] == p1[i]);
                }
            }
            // The change of the constant.
            assert(p2 =~= p1.update(0, first.val()));
            lemma_dot_constant(p1, first.val(), b);
            lemma_dot_constant(p1, first.val(), w);
            arith::lemma_mod_range(p1[0] - vx, q);
            arith::lemma_eqm_sub(first.val(), p1[0] - vx, p1[0], p1[0], q);
            arith::lemma_eqm_mul(first.val() - p1[0], -vx, b[0], b[0], q);
            arith::lemma_eqm_mul(first.val() - p1[0], -vx, w[0], w[0], q);
            lemma_pow0(x);
            arith::lemma_mod_small(1, q);
            assert(w[0] == powers@[0].val());
            assert(w[0] == 1);
            lemma_mul_basics(-vx);
            arith::lemma_eqm_add(dw1, vx, (first.val() - p1[0]) * w[0], -vx, q);
            assert(arith::eqm(multiexp::dot(p2, w), 0, q));
            assert(arith::eqm(arith::poly_at(p2, x), 0, q));
            // The sum.
            let (d0, d1, s) = (multiexp::dot(p0, b), multiexp::dot(p1, b), commit::sparse_dot(s_poly@, b));
            arith::lemma_eqm_mul(vx, px, b[0], b[0], q);
            assert((-vx) * b[0] == -(vx * b[0])) by (nonlinear_arith);
            arith::lemma_eqm_sub(0, 0, vx * b[0], px * b[0], q);
            arith::lemma_eqm_add(d1, d0 + xv * s, (first.val() - p1[0]) * b[0], -(px * b[0]), q);
            assert(arith::eqm(multiexp::dot(p2, b), d0 + xv * s - px * b[0], q));
            let wl = curve::log(params.w);
            let (sb, pb, f) = (s_poly_blind.0.val(), p_blind.0.val(), r.f.val());
            arith::lemma_mod_range(sb * xv, q);
            arith::lemma_mod_add(sb * xv, pb, q);
            arith::lemma_eqm_add((sb * xv) % q, sb * xv, pb, pb, q);
            arith::lemma_mod_range((sb * xv) % q + pb, q);
            arith::lemma_eqm_mul(f, sb * xv + pb, wl, wl, q);
            arith::lemma_eqm_add(multiexp::dot(p2, b), d0 + xv * s - px * b[0], f * wl, (sb * xv + pb) * wl, q);
            // The inner product with the powers vanishes.
            let e = r.z.val() * (1 * arith::poly_at(p2, x));
            arith::lemma_eqm_mul(r.z.val(), r.z.val(), arith::poly_at(p2, x), 0, q);
            lemma_mul_basics(r.z.val());
            lemma_mul_basics(arith::poly_at(p2, x));
            arith::lemma_eqm_mul(e, 0, curve::log(params.u), curve::log(params.u), q);
            lemma_mul_basics(curve::log(params.u));
            arith::lemma_eqm_add(
                multiexp::dot(p2, b) + f * wl,
                d0 + xv * s - px * b[0] + (sb * xv + pb) * wl,
                e * curve::log(params.u),
                0,
                q,
            );
            let (cp, cs) = (d0 + pb * wl, s + sb * wl);
            assert(d0 + xv * s - px * b[0] + (sb * xv + pb) * wl == cp - px * b[0] + xv * cs)
                by (nonlinear_arith)
                requires
                    cp == d0 + pb * wl,
                    cs == s + sb * wl,
            ;
            arith::lemma_mod_range(cp, q);
            arith::lemma_mod_range(cs, q);
            arith::lemma_eqm_mul(xv, xv, cs % q, cs, q);
            arith::lemma_eqm_sub(cp % q, cp, px * b[0], px * b[0], q);
            arith::lemma_eqm_add(cp % q - px * b[0], cp - px * b[0], xv * (cs % q), xv * cs, q);
            assert(curve::log(params.g@[0]) == b[0]);
            assert(curve::logs(r.g_prime@) =~= b);
            assert(r.p_prime@.len() == pow2((params.k - 0) as nat));
            arith::lemma_mod_small(0, q);
        }
        r
    }
}

/// Adds a multiple of a sparse polynomial.
fn add_sparse<F: Field>(
    values: &mut Vec<F>,
    terms: &Vec<(usize, F)>,
    factor: F,
    k: u32,
    Ghost(b): Ghost<Seq<int>>,
    Ghost(w): Ghost<Seq<int>>,
)
    requires
        is_mask(terms@, k as nat),
        old(values)@.len() == pow2(k as nat),
        b.len() == old(values)@.len(),
        w.len() == old(values)@.len(),
    ensures
        final(values)@.len() == old(values)@.len(),
        forall|i: int|
            0 <= i < final(values)@.len() ==> (#[trigger] final(values)@[i]).val() == (
            old(values)@[i].val() + factor.val() * sparse_coeff(terms@, i)) % F::order(),
        arith::eqm(
            multiexp::dot(poly::vals(final(values)@), b),
            multiexp::dot(poly::vals(old(values)@), b) + factor.val() * commit::sparse_dot(terms@, b),
            F::order(),
        ),
        arith::eqm(
            multiexp::dot(poly::vals(final(values)@), w),
            multiexp::dot(poly::vals(old(values)@), w) + factor.val() * commit::sparse_dot(terms@, w),
            F::order(),
        ),
{
    let ghost q = F::order();
    let ghost before = poly::vals(values@);
    let ghost f = factor.val();
    let mut i: usize = 0;
    proof {
        F::lemma_order();
        assert(terms@.take(0) =~= Seq::<(usize, F)>::empty());
        lemma_mul_basics(f);
        assert forall|c: int| 0 <= c < values@.len() implies (#[trigger] values@[c]).val() == (
        before[c] + f * sparse_coeff(terms@.take(0), c)) % q by {
            F::lemma_val(values@[c]);
            arith::lemma_mod_small(values@[c].val(), q);
        }
    }
    while i < terms.len()
        invariant
            i <= terms@.len(),
            is_mask(terms@, k as nat),
            values@.len() == pow2(k as nat),
            values@.len() == before.len(),
            forall|c: int|
                0 <= c < values@.len() ==> (#[trigger] values@[c]).val() == (before[c] + f
                    * sparse_coeff(terms@.take(i as int), c)) % q,
            b.len() == values@.len(),
            w.len() == values@.len(),
            q == F::order(),
            q > 2,
            f == factor.val(),
            arith::eqm(
                multiexp::dot(poly::vals(values@), b),
                multiexp::dot(before, b) + f * commit::sparse_dot(terms@.take(i as int), b),
                q,
            ),
            arith::eqm(
                multiexp::dot(poly::vals(values@), w),
                multiexp::dot(before, w) + f * commit::sparse_dot(terms@.take(i as int), w),
                q,
            ),
        decreases terms@.len() - i,
    {
        let (index, mask) = terms[i];
        let ghost now = poly::vals(values@);
        proof {
            lemma_pow2_pos(k as nat);
            if i > 0 {
                assert(terms@[i - 1 + 1].0 == pow2((i - 1) as nat));
                lemma_pow2_strictly_increases((i - 1) as nat, k as nat);
            }
            assert(terms@.take(i + 1).drop_last() =~= terms@.take(i as int));
        }
        let sum = values[index].add(mask.mul(factor));
        values[index] = sum;
        proof {
            assert(poly::vals(values@) =~= now.update(index as int, sum.val()));
            let (a, m) = (now[index as int], mask.val());
            arith::lemma_mod_add(a, m * f, q);
            arith::lemma_mod_range(a + m * f, q);
            assert(sum.val() == (a + m * f) % q);
            assert forall|c: int| 0 <= c < values@.len() implies (#[trigger] values@[c]).val() == (
            before[c] + f * sparse_coeff(terms@.take(i + 1), c)) % q by {
                let s = sparse_coeff(terms@.take(i as int), c);
                if c == index {
                    arith::lemma_mod_add(before[c] + f * s, m * f, q);
                    assert(f * (s + m) == f * s + m * f) by (nonlinear_arith);
                } else {
                    assert(poly::vals(values@)[c] == now[c]);
                }
            }
            lemma_sparse_step(now, index as int, sum.val(), m, f, b, q);
            lemma_sparse_step(now, index as int, sum.val(), m, f, w, q);
            let (sb, sw) = (commit::sparse_dot(terms@.take(i as int), b), commit::sparse_dot(
                terms@.take(i as int),
                w,
            ));
            let (tb, tw) = (m * b[index as int], m * w[index as int]);
            arith::lemma_eqm_add(multiexp::dot(now, b), multiexp::dot(before, b) + f * sb, f * tb, f * tb, q);
            arith::lemma_eqm_add(multiexp::dot(now, w), multiexp::dot(before, w) + f * sw, f * tw, f * tw, q);
            assert(f * (sb + tb) == f * sb + f * tb) by (nonlinear_arith);
            assert(f * (sw + tw) == f * sw + f * tw) by (nonlinear_arith);
        }
        i += 1;
    }
    assert(terms@.take(i as int) =~= terms@);
}

proof fn lemma_sparse_step(a: Seq<int>, i: int, t: int, m: int, f: int, b: Seq<int>, q: int)
    requires
        q > 2,
        0 <= i < a.len(),
        a.len() == b.len(),
        arith::eqm(t, a[i] + m * f, q),
    ensures
        arith::eqm(multiexp::dot(a.update(i, t), b), multiexp::dot(a, b) + f * (m * b[i]), q),
{
    commit::lemma_dot_update(a, i, t, b);
    arith::lemma_eqm_sub(t, a[i] + m * f, a[i], a[i], q);
    arith::lemma_eqm_mul(t - a[i], m * f, b[i], b[i], q);
    let v = b[i];
    assert((m * f) * v == f * (m * v)) by (nonlinear_arith);
    arith::lemma_eqm_add(multiexp::dot(a, b), multiexp::dot(a, b), (t - a[i]) * v, f * (m * v), q);
}

proof fn lemma_dot_constant(a: Seq<int>, t: int, b: Seq<int>)
    requires
        a.len() > 0,
        a.len() <= b.len(),
    ensures
        multiexp::dot(a.update(0, t), b) == multiexp::dot(a, b) + (t - a[0]) * b[0],
{
    commit::lemma_dot_update(a, 0, t, b);
}

/// With the powers of a point, a sparse polynomial's inner product is its value.
proof fn lemma_sparse_powers<F: Field>(terms: Seq<(usize, F)>, powers: Seq<F>, x: int, k: nat)
    requires
        is_mask(terms, k),
        powers.len() == pow2(k),
        fft::powers_of(powers, x),
    ensures
        arith::eqm(commit::sparse_dot(terms, poly::vals(powers)), commit::sparse_at(terms, x), F::order()),
{
    lemma_pow2_pos(k);
    assert forall|i: int| 0 <= i < terms.len() implies (#[trigger] terms[i]).0 < powers.len() by {
        if i > 0 {
            assert(terms[i - 1 + 1].0 == pow2((i - 1) as nat));
            lemma_pow2_strictly_increases((i - 1) as nat, k);
        }
    }
    lemma_sparse_powers_prefix(terms, powers, x, terms.len() as int);
    assert(terms.take(terms.len() as int) =~= terms);
}

proof fn lemma_sparse_powers_prefix<F: Field>(
    terms: Seq<(usize, F)>,
    powers: Seq<F>,
    x: int,
    n: int,
)
    requires
        0 <= n <= terms.len(),
        fft::powers_of(powers, x),
        forall|i: int| 0 <= i < terms.len() ==> (#[trigger] terms[i]).0 < powers.len(),
    ensures
        arith::eqm(commit::sparse_dot(terms.take(n), poly::vals(powers)), commit::sparse_at(terms.take(n), x), F::order()),
    decreases n,
{
    F::lemma_order();
    let p = F::order();
    if n > 0 {
        lemma_sparse_powers_prefix(terms, powers, x, n - 1);
        assert(terms.take(n).drop_last() =~= terms.take(n - 1));
        let (index, coefficient) = terms[n - 1];
        let e = pow(x, index as nat);
        assert(powers[index as int].val() == e % p);
        arith::lemma_mod_range(e, p);
        arith::lemma_eqm_mul(coefficient.val(), coefficient.val(), e % p, e, p);
        arith::lemma_eqm_add(
            commit::sparse_dot(terms.take(n - 1), poly::vals(powers)),
            commit::sparse_at(terms.take(n - 1), x),
            coefficient.val() * (e % p),
            coefficient.val() * e,
            p,
        );
    } else {
        assert(terms.take(0) =~= Seq::<(usize, F)>::empty());
    }
}

/// The rounds of the argument. The vector of powers is `b_scale` times the powers of
/// `x_3`, and is not held.
pub struct IpaRounds<'a, C: CurveAffine> {
    pub params: &'a Params<C>,
    pub x_3: C::ScalarExt,
    pub z: C::ScalarExt,
    pub powers: Vec<C::ScalarExt>,
    pub p_prime: Vec<C::ScalarExt>,
    pub g_prime: Vec<C>,
    pub p_prime_at_x_3: C::ScalarExt,
    pub b_scale: C::ScalarExt,
    pub f: C::ScalarExt,
    pub round: u32,
}

/// The points of a round, and what folding needs of it.
#[derive(Debug)]
pub struct IpaRound<C: CurveAffine> {
    pub l_j: C,
    pub r_j: C,
    pub p_hi_at_x_3: C::ScalarExt,
    pub p_lo_at_x_3: C::ScalarExt,
    pub l_j_randomness: C::ScalarExt,
    pub r_j_randomness: C::ScalarExt,
}

/// What an opening's state stands for: coefficients on generators, their inner product
/// with the powers on `u`, and the synthetic blind on `w`.
pub open spec fn state_value<C: CurveAffine>(
    params: Params<C>,
    p_prime: Seq<int>,
    g_prime: Seq<int>,
    b_scale: int,
    x: int,
    z: int,
    f: int,
) -> int {
    multiexp::dot(p_prime, g_prime) + f * curve::log(params.w) + (z * (b_scale * arith::poly_at(p_prime, x))) * curve::log(
        params.u,
    )
}

impl<'a, C: CurveAffine> IpaRounds<'a, C> {
    /// How many coefficients are left.
    pub open spec fn size(&self) -> nat {
        pow2((self.params.k - self.round) as nat)
    }

    /// Before the last fold, generators and evaluations are tracked.
    pub open spec fn wf(&self) -> bool {
        &&& self.params.wf()
        &&& self.round <= self.params.k
        &&& self.powers@.len() == self.params.n
        &&& fft::powers_of(self.powers@, self.x_3.val())
        &&& self.p_prime@.len() == self.size()
        &&& self.round == 0 ==> curve::logs(self.g_prime@) == curve::logs(self.params.g@)
        &&& self.round < self.params.k || self.params.k == 0 ==> {
            &&& self.g_prime@.len() == self.size()
            &&& curve::all_on_curve(self.g_prime@)
            &&& arith::eqm(
                self.p_prime_at_x_3.val(),
                arith::poly_at(poly::vals(self.p_prime@), self.x_3.val()),
                C::ScalarExt::order(),
            )
        }
    }

    pub open spec fn value(&self) -> int {
        state_value(
            *self.params,
            poly::vals(self.p_prime@),
            curve::logs(self.g_prime@),
            self.b_scale.val(),
            self.x_3.val(),
            self.z.val(),
            self.f.val(),
        )
    }

    /// Whether the points are those of the current round.
    pub open spec fn is_round(&self, round: IpaRound<C>) -> bool {
        let q = C::ScalarExt::order();
        let half = (self.size() / 2) as int;
        let (lo, hi) = (poly::vals(self.p_prime@).take(half), poly::vals(self.p_prime@).skip(half));
        let (g_lo, g_hi) = (curve::logs(self.g_prime@).take(half), curve::logs(self.g_prime@).skip(half));
        let (x, b) = (self.x_3.val(), self.b_scale.val());
        &&& round.l_j.on_curve()
        &&& round.r_j.on_curve()
        &&& arith::eqm(round.p_hi_at_x_3.val(), arith::poly_at(hi, x), q)
        &&& arith::eqm(round.p_lo_at_x_3.val(), arith::poly_at(lo, x), q)
        &&& arith::eqm(
            curve::log(round.l_j),
            round_log(
                *self.params,
                hi,
                g_lo,
                b * arith::poly_at(hi, x),
                round.l_j_randomness.val(),
                self.z.val(),
            ),
            q,
        )
        &&& arith::eqm(
            curve::log(round.r_j),
            round_log(
                *self.params,
                lo,
                g_hi,
                (b * pow(x, half as nat)) * arith::poly_at(lo, x),
                round.r_j_randomness.val(),
                self.z.val(),
            ),
            q,
        )
    }

    /// The points of the next round.
    pub fn next_round(
        &self,
        l_j_randomness: C::ScalarExt,
        r_j_randomness: C::ScalarExt,
    ) -> (r: IpaRound<C>)
        requires
            self.wf(),
            self.round < self.params.k,
        ensures
            self.is_round(r),
            r.l_j_randomness == l_j_randomness,
            r.r_j_randomness == r_j_randomness,
    {
        let ghost q = C::ScalarExt::order();
        let ghost x = self.x_3.val();
        let total: usize = self.p_prime.len();
        let half: usize = total / 2;
        let ghost p = poly::vals(self.p_prime@);
        let ghost (lo, hi) = (p.take(half as int), p.skip(half as int));
        let ghost e = pow(x, half as nat);
        proof {
            C::ScalarExt::lemma_order();
            lemma2_to64();
            let k = (self.params.k - self.round) as nat;
            lemma_pow2_unfold(k);
            if k < self.params.k {
                lemma_pow2_strictly_increases(k, self.params.k as nat);
            }
            lemma_pow2_pos((k - 1) as nat);
        }
        let x_3_to_half = self.powers[half];
        let p_hi_at_x_3 = compute_ipa_hi_evaluation(&self.p_prime, &self.powers, half);
        let shifted_hi = x_3_to_half.mul(p_hi_at_x_3);
        let p_lo_at_x_3 = self.p_prime_at_x_3.sub(shifted_hi);
        let b_hi_scale = self.b_scale.mul(x_3_to_half);
        let value_l_j = self.b_scale.mul(p_hi_at_x_3);
        let value_r_j = b_hi_scale.mul(p_lo_at_x_3);
        let ghost (ph, pl) = (arith::poly_at(hi, x), arith::poly_at(lo, x));
        let ghost b = self.b_scale.val();
        proof {
            // One half's value and the whole's give the other half's.
            qprime::lemma_dot_powers(hi, self.powers@, x);
            arith::lemma_mod_range(multiexp::dot(hi, poly::vals(self.powers@)), q);
            assert(arith::eqm(p_hi_at_x_3.val(), ph, q));
            arith::lemma_mod_range(e, q);
            assert(x_3_to_half.val() == e % q);
            arith::lemma_eqm_mul(x_3_to_half.val(), e, p_hi_at_x_3.val(), ph, q);
            arith::lemma_mod_range(x_3_to_half.val() * p_hi_at_x_3.val(), q);
            assert(lo + hi =~= p);
            arith::lemma_poly_at_concat(lo, hi, x);
            arith::lemma_eqm_sub(self.p_prime_at_x_3.val(), pl + e * ph, shifted_hi.val(), e * ph, q);
            arith::lemma_mod_range(self.p_prime_at_x_3.val() - shifted_hi.val(), q);
            assert(arith::eqm(p_lo_at_x_3.val(), pl, q));
            arith::lemma_eqm_mul(b, b, x_3_to_half.val(), e, q);
            arith::lemma_mod_range(b * x_3_to_half.val(), q);
            arith::lemma_eqm_mul(b_hi_scale.val(), b * e, p_lo_at_x_3.val(), pl, q);
            arith::lemma_mod_range(b_hi_scale.val() * p_lo_at_x_3.val(), q);
            assert(arith::eqm(value_r_j.val(), (b * e) * pl, q));
            arith::lemma_eqm_mul(b, b, p_hi_at_x_3.val(), ph, q);
            arith::lemma_mod_range(b * p_hi_at_x_3.val(), q);
            assert(arith::eqm(value_l_j.val(), b * ph, q));
        }
        let p_lo = vstd::slice::slice_subrange(self.p_prime.as_slice(), 0, half);
        let p_hi = vstd::slice::slice_subrange(self.p_prime.as_slice(), half, total);
        let g_lo = vstd::slice::slice_subrange(self.g_prime.as_slice(), 0, half);
        let g_hi = vstd::slice::slice_subrange(self.g_prime.as_slice(), half, total);
        proof {
            assert(poly::vals(p_lo@) =~= lo);
            assert(poly::vals(p_hi@) =~= hi);
            assert(curve::logs(g_lo@) =~= curve::logs(self.g_prime@).take(half as int));
            assert(curve::logs(g_hi@) =~= curve::logs(self.g_prime@).skip(half as int));
            assert forall|i: int| 0 <= i < g_lo@.len() implies (#[trigger] g_lo@[i]).on_curve() by {
                assert(g_lo@[i] == self.g_prime@[i]);
            }
            assert forall|i: int| 0 <= i < g_hi@.len() implies (#[trigger] g_hi@[i]).on_curve() by {
                assert(g_hi@[i] == self.g_prime@[half + i]);
            }
        }
        // The first round uses the original generators, for which tables may be prepared.
        let prepared = if self.round == 0 {
            self.params.try_prepared_first_ipa_round(
                p_hi,
                p_lo,
                value_l_j.mul(self.z),
                l_j_randomness,
                value_r_j.mul(self.z),
                r_j_randomness,
            )
        } else {
            None
        };
        let (l_j, r_j) = match prepared {
            Some(points) => points,
            None => ipa_round_multiexps(
                IpaRoundTerms {
                    coeffs: p_hi,
                    bases: g_lo,
                    value: value_l_j,
                    randomness: l_j_randomness,
                },
                IpaRoundTerms {
                    coeffs: p_lo,
                    bases: g_hi,
                    value: value_r_j,
                    randomness: r_j_randomness,
                },
                self.params,
                self.z,
            ),
        };
        proof {
            let z = self.z.val();
            if self.round == 0 {
                lemma_prepared_round(
                    *self.params,
                    hi,
                    curve::logs(g_lo@),
                    value_l_j.val(),
                    l_j_randomness.val(),
                    z,
                );
                lemma_prepared_round(
                    *self.params,
                    lo,
                    curve::logs(g_hi@),
                    value_r_j.val(),
                    r_j_randomness.val(),
                    z,
                );
            }
        }
        proof {
            let z = self.z.val();
            lemma_round_value(
                *self.params,
                hi,
                curve::logs(g_lo@),
                value_l_j.val(),
                b * ph,
                l_j_randomness.val(),
                z,
            );
            lemma_round_value(
                *self.params,
                lo,
                curve::logs(g_hi@),
                value_r_j.val(),
                (b * e) * pl,
                r_j_randomness.val(),
                z,
            );
        }
        IpaRound { l_j, r_j, p_hi_at_x_3, p_lo_at_x_3, l_j_randomness, r_j_randomness }
    }

    /// Folds with the round's challenge.
    pub fn fold(&mut self, round: &IpaRound<C>, u_j: C::ScalarExt)
        requires
            old(self).wf(),
            old(self).round < old(self).params.k,
            old(self).is_round(*round),
            u_j.val() != 0,
        ensures
            final(self).wf(),
            final(self).params == old(self).params,
            final(self).x_3 == old(self).x_3,
            final(self).z == old(self).z,
            final(self).round == old(self).round + 1,
            exists|u_inv: int| #[trigger]
                old(self).folds_to(*round, u_j.val(), u_inv, *final(self)),
    {
        let ghost q = C::ScalarExt::order();
        let ghost start = *self;
        let total: usize = self.p_prime.len();
        let half: usize = total / 2;
        let ghost p = poly::vals(self.p_prime@);
        let ghost x = self.x_3.val();
        let ghost e = pow(x, half as nat);
        proof {
            C::ScalarExt::lemma_order();
            lemma2_to64();
            let k = (self.params.k - self.round) as nat;
            lemma_pow2_unfold(k);
            if k < self.params.k {
                lemma_pow2_strictly_increases(k, self.params.k as nat);
            }
            lemma_pow2_pos((k - 1) as nat);
            arith::lemma_mod_small(1, q);
        }
        if let Some(u_j_inv) = u_j.invert() {
            let ghost v = u_j_inv.val();
            let mut i: usize = 0;
            while i < half
                invariant
                    i <= half,
                    total == 2 * half,
                    self.p_prime@.len() == total,
                    p.len() == total,
                    q == C::ScalarExt::order(),
                    q > 2,
                    v == u_j_inv.val(),
                    start.p_prime@.len() == total,
                    p == poly::vals(start.p_prime@),
                    self.params == start.params,
                    self.x_3 == start.x_3,
                    self.z == start.z,
                    self.powers == start.powers,
                    self.g_prime == start.g_prime,
                    self.p_prime_at_x_3 == start.p_prime_at_x_3,
                    self.b_scale == start.b_scale,
                    self.f == start.f,
                    self.round == start.round,
                    forall|j: int|
                        i <= j < total ==> #[trigger] self.p_prime@[j] == start.p_prime@[j],
                    forall|j: int|
                        0 <= j < i ==> (#[trigger] self.p_prime@[j]).val() == (p[j] + p[j + half]
                            * v) % q,
                decreases half - i,
            {
                let term = self.p_prime[i + half].mul(u_j_inv);
                let sum = self.p_prime[i].add(term);
                proof {
                    arith::lemma_mod_add(p[i as int], p[i + half] * v, q);
                }
                self.p_prime[i] = sum;
                i += 1;
            }
            self.p_prime.truncate(half);
            if self.round + 1 < self.params.k {
                let x_3_to_half = self.powers[half];
                let b_hi_scale = self.b_scale.mul(x_3_to_half);
                let turned = u_j_inv.mul(round.p_hi_at_x_3);
                let stepped = b_hi_scale.mul(u_j);
                self.p_prime_at_x_3 = round.p_lo_at_x_3.add(turned);
                self.b_scale = self.b_scale.add(stepped);
                proof {
                    let b = start.b_scale.val();
                    let u = u_j.val();
                    arith::lemma_mod_range(e, q);
                    assert(x_3_to_half.val() == e % q);
                    arith::lemma_eqm_mul(b, b, x_3_to_half.val(), e, q);
                    arith::lemma_mod_range(b * x_3_to_half.val(), q);
                    arith::lemma_eqm_mul(b_hi_scale.val(), b * e, u, u, q);
                    arith::lemma_mod_range(b_hi_scale.val() * u, q);
                    arith::lemma_eqm_add(b, b, stepped.val(), (b * e) * u, q);
                    arith::lemma_mod_range(b + stepped.val(), q);
                    assert(arith::eqm(self.b_scale.val(), b + (b * e) * u, q));
                    // The folded polynomial's value.
                    let (lo, hi) = (p.take(half as int), p.skip(half as int));
                    let (ph, pl) = (round.p_hi_at_x_3.val(), round.p_lo_at_x_3.val());
                    arith::lemma_eqm_mul(v, v, ph, arith::poly_at(hi, x), q);
                    arith::lemma_mod_range(v * ph, q);
                    arith::lemma_eqm_add(pl, arith::poly_at(lo, x), turned.val(), v * arith::poly_at(hi, x), q);
                    arith::lemma_mod_range(pl + turned.val(), q);
                    lemma_folded_value(p, poly::vals(self.p_prime@), v, half as int, x, q);
                }
            }
            if half > 1 {
                parallel_generator_collapse(&mut self.g_prime, u_j);
                self.g_prime.truncate(half);
            }
            let l_part = round.l_j_randomness.mul(u_j_inv);
            let r_part = round.r_j_randomness.mul(u_j);
            let with_l = self.f.add(l_part);
            self.f = with_l.add(r_part);
            proof {
                let (f0, l, r, u) = (
                    start.f.val(),
                    round.l_j_randomness.val(),
                    round.r_j_randomness.val(),
                    u_j.val(),
                );
                arith::lemma_mod_range(l * v, q);
                arith::lemma_mod_range(r * u, q);
                arith::lemma_eqm_add(f0, f0, l_part.val(), l * v, q);
                arith::lemma_mod_range(f0 + l_part.val(), q);
                arith::lemma_eqm_add(with_l.val(), f0 + l * v, r_part.val(), r * u, q);
                arith::lemma_mod_range(with_l.val() + r_part.val(), q);
                assert(arith::eqm(self.f.val(), f0 + l * v + r * u, q));
                if half == 1 {
                    let k = (self.params.k - self.round) as nat;
                    if k > 1 {
                        lemma_pow2_strictly_increases(1, k);
                    }
                } else {
                    let k = (self.params.k - self.round) as nat;
                    if k == 1 {
                        assert(pow2(1) == 2);
                    }
                }
            }
            self.round = self.round + 1;
            proof {
                assert(start.folds_to(*round, u_j.val(), v, *self));
            }
        }
    }

    /// What a fold does: the halves are combined with the challenge and its inverse. The
    /// powers' scale and the generators, which nothing reads any more, are left after the
    /// last.
    pub open spec fn folds_to(
        &self,
        round: IpaRound<C>,
        u: int,
        u_inv: int,
        next: IpaRounds<'a, C>,
    ) -> bool {
        let q = C::ScalarExt::order();
        let half = (self.size() / 2) as int;
        let p = poly::vals(self.p_prime@);
        let g = curve::logs(self.g_prime@);
        &&& arith::eqm(u * u_inv, 1, q)
        &&& next.p_prime@.len() == half
        &&& forall|i: int|
            0 <= i < half ==> (#[trigger] next.p_prime@[i]).val() == (p[i] + p[i + half] * u_inv)
                % q
        &&& arith::eqm(
            next.f.val(),
            self.f.val() + round.l_j_randomness.val() * u_inv + round.r_j_randomness.val() * u,
            q,
        )
        &&& next.round < next.params.k ==> {
            &&& next.g_prime@.len() == half
            &&& forall|i: int|
                0 <= i < half ==> curve::log(#[trigger] next.g_prime@[i]) == (g[i] + u * g[i + half]) % q
            &&& arith::eqm(
                next.b_scale.val(),
                self.b_scale.val() + (self.b_scale.val() * pow(self.x_3.val(), half as nat)) * u,
                q,
            )
        }
    }

    /// The last two messages: the coefficient that is left and the synthetic blind.
    pub fn finish(self) -> (r: (C::ScalarExt, C::ScalarExt))
        requires
            self.wf(),
            self.round == self.params.k,
        ensures
            r.0 == self.p_prime@[0],
            r.1 == self.f,
    {
        proof {
            lemma2_to64();
        }
        (self.p_prime[0], self.f)
    }
}

/// The multiple on `u` may be reduced first.
proof fn lemma_prepared_round<C: CurveAffine>(
    params: Params<C>,
    coeffs: Seq<int>,
    bases: Seq<int>,
    value: int,
    randomness: int,
    z: int,
)
    ensures
        (multiexp::dot(coeffs, bases) + (((value * z) % C::ScalarExt::order()) * curve::log(params.u) + randomness
            * curve::log(params.w))) % C::ScalarExt::order() == round_log(
            params,
            coeffs,
            bases,
            value,
            randomness,
            z,
        ) % C::ScalarExt::order(),
{
    C::ScalarExt::lemma_order();
    let q = C::ScalarExt::order();
    let u = curve::log(params.u);
    let rest = multiexp::dot(coeffs, bases) + randomness * curve::log(params.w);
    arith::lemma_mod_range(value * z, q);
    arith::lemma_eqm_mul((value * z) % q, value * z, u, u, q);
    arith::lemma_eqm_add(((value * z) % q) * u, (value * z) * u, rest, rest, q);
}

/// Congruent inner products give congruent points.
proof fn lemma_round_value<C: CurveAffine>(
    params: Params<C>,
    coeffs: Seq<int>,
    bases: Seq<int>,
    a: int,
    b: int,
    randomness: int,
    z: int,
)
    requires
        arith::eqm(a, b, C::ScalarExt::order()),
    ensures
        arith::eqm(
            round_log(params, coeffs, bases, a, randomness, z) % C::ScalarExt::order(),
            round_log(params, coeffs, bases, b, randomness, z),
            C::ScalarExt::order(),
        ),
{
    C::ScalarExt::lemma_order();
    let q = C::ScalarExt::order();
    let u = curve::log(params.u);
    arith::lemma_eqm_mul(a, b, z, z, q);
    arith::lemma_eqm_mul(a * z, b * z, u, u, q);
    let d = multiexp::dot(coeffs, bases);
    let w = randomness * curve::log(params.w);
    arith::lemma_eqm_add(d + w, d + w, (a * z) * u, (b * z) * u, q);
    arith::lemma_mod_range(round_log(params, coeffs, bases, a, randomness, z), q);
}

/// The value of a folded polynomial.
proof fn lemma_folded_value(p: Seq<int>, next: Seq<int>, v: int, half: int, x: int, q: int)
    requires
        q > 2,
        0 <= half,
        p.len() == 2 * half,
        next.len() == half,
        forall|i: int| 0 <= i < half ==> #[trigger] next[i] == (p[i] + p[i + half] * v) % q,
    ensures
        arith::eqm(arith::poly_at(next, x), arith::poly_at(p.take(half), x) + v * arith::poly_at(p.skip(half), x), q),
{
    let (lo, hi) = (p.take(half), p.skip(half));
    let exact = Seq::new(half as nat, |i: int| lo[i] + v * hi[i]);
    assert forall|i: int| 0 <= i < next.len() implies arith::eqm(#[trigger] next[i], exact[i], q) by {
        arith::lemma_mod_range(p[i] + p[i + half] * v, q);
        lemma_mul_is_commutative(p[i + half], v);
    }
    arith::lemma_poly_at_eqm(next, exact, x, x, q);
    division::lemma_poly_at_axpy(lo, hi, v, x);
}

/// Each round keeps the opening: with its two points, weighted with the challenge's
/// inverse and the challenge, what the state stood for is what the folded coefficients,
/// generators and powers stand for.
pub proof fn law_round_keeps_opening<'a, C: CurveAffine>(
    state: IpaRounds<'a, C>,
    round: IpaRound<C>,
    u: int,
    u_inv: int,
    p_next: Seq<int>,
    g_next: Seq<int>,
    b_next: int,
    f_next: int,
)
    requires
        state.wf(),
        state.round < state.params.k,
        state.is_round(round),
        arith::eqm(u * u_inv, 1, C::ScalarExt::order()),
        p_next.len() == state.size() / 2,
        g_next.len() == state.size() / 2,
        forall|i: int|
            0 <= i < p_next.len() ==> arith::eqm(
                #[trigger] p_next[i],
                poly::vals(state.p_prime@)[i] + poly::vals(state.p_prime@)[i + state.size() / 2] * u_inv,
                C::ScalarExt::order(),
            ),
        forall|i: int|
            0 <= i < g_next.len() ==> arith::eqm(
                #[trigger] g_next[i],
                curve::logs(state.g_prime@)[i] + u * curve::logs(state.g_prime@)[i + state.size() / 2],
                C::ScalarExt::order(),
            ),
        arith::eqm(
            b_next,
            state.b_scale.val() + (state.b_scale.val() * pow(
                state.x_3.val(),
                (state.size() / 2) as nat,
            )) * u,
            C::ScalarExt::order(),
        ),
        arith::eqm(
            f_next,
            state.f.val() + round.l_j_randomness.val() * u_inv + round.r_j_randomness.val() * u,
            C::ScalarExt::order(),
        ),
    ensures
        arith::eqm(
            state_value(
                *state.params,
                p_next,
                g_next,
                b_next,
                state.x_3.val(),
                state.z.val(),
                f_next,
            ),
            state.value() + u_inv * curve::log(round.l_j) + u * curve::log(round.r_j),
            C::ScalarExt::order(),
        ),
{
    let q = C::ScalarExt::order();
    C::ScalarExt::lemma_order();
    let half = (state.size() / 2) as int;
    lemma_pow2_unfold((state.params.k - state.round) as nat);
    let (p, g) = (poly::vals(state.p_prime@), curve::logs(state.g_prime@));
    let (lo, hi) = (p.take(half), p.skip(half));
    let (g_lo, g_hi) = (g.take(half), g.skip(half));
    let (x, z, b, f) = (state.x_3.val(), state.z.val(), state.b_scale.val(), state.f.val());
    let e = pow(x, half as nat);
    let (ul, wl) = (curve::log(state.params.u), curve::log(state.params.w));
    let (lr, rr) = (round.l_j_randomness.val(), round.r_j_randomness.val());
    let v = u_inv;
    // The folded vectors, exactly.
    let pe = Seq::new(half as nat, |i: int| lo[i] + v * hi[i]);
    let ge = Seq::new(half as nat, |i: int| g_lo[i] + u * g_hi[i]);
    assert forall|i: int| 0 <= i < p_next.len() implies arith::eqm(#[trigger] p_next[i], pe[i], q) by {
        lemma_mul_is_commutative(p[i + half], v);
    }
    assert forall|i: int| 0 <= i < p_next.len() implies arith::eqm(#[trigger] g_next[i], ge[i], q) by {}
    multiexp::lemma_dot_eqm(p_next, g_next, pe, ge, q);
    multiexp::lemma_dot_linear(lo, hi, v, ge);
    multiexp::lemma_dot_linear_right(lo, g_lo, g_hi, u);
    multiexp::lemma_dot_linear_right(hi, g_lo, g_hi, u);
    let (d1, d2, d3, d4) = (multiexp::dot(lo, g_lo), multiexp::dot(lo, g_hi), multiexp::dot(hi, g_lo), multiexp::dot(hi, g_hi));
    assert(multiexp::dot(pe, ge) == d1 + u * d2 + v * (d3 + u * d4));
    assert(lo + hi =~= p);
    assert(g_lo + g_hi =~= g);
    multiexp::lemma_dot_concat(lo, g_lo, hi, g_hi);
    // u v d4 is d4.
    assert(v * (d3 + u * d4) == v * d3 + (u * v) * d4) by (nonlinear_arith);
    arith::lemma_eqm_mul(u * v, 1, d4, d4, q);
    lemma_mul_basics(d4);
    arith::lemma_eqm_add(d1 + u * d2 + v * d3, d1 + u * d2 + v * d3, (u * v) * d4, d4, q);
    let bodies = d1 + d4 + v * d3 + u * d2;
    assert(arith::eqm(multiexp::dot(p_next, g_next), bodies, q));
    // The values on u.
    arith::lemma_poly_at_eqm(p_next, pe, x, x, q);
    division::lemma_poly_at_axpy(lo, hi, v, x);
    arith::lemma_poly_at_concat(lo, hi, x);
    let (pl, ph) = (arith::poly_at(lo, x), arith::poly_at(hi, x));
    let bn = b + (b * e) * u;
    arith::lemma_eqm_mul(b_next, bn, arith::poly_at(p_next, x), pl + v * ph, q);
    let (t, w) = (b * e, v * ph);
    let su = t * u;
    assert((b + su) * (pl + w) == b * pl + b * w + su * pl + su * w) by (nonlinear_arith);
    assert(b * (v * ph) == v * (b * ph)) by (nonlinear_arith);
    assert((t * u) * pl == u * (t * pl)) by (nonlinear_arith);
    assert((t * u) * (v * ph) == (t * ph) * (u * v)) by (nonlinear_arith);
    let c = (b * e) * ph;
    arith::lemma_eqm_mul(c, c, u * v, 1, q);
    lemma_mul_basics(c);
    let lv = b * ph;
    let rv = (b * e) * pl;
    arith::lemma_eqm_add(
        b * pl + v * lv + u * rv,
        b * pl + v * lv + u * rv,
        c * (u * v),
        c,
        q,
    );
    let inner = b * (pl + e * ph) + v * lv + u * rv;
    assert(b * pl + v * lv + u * rv + c == inner) by (nonlinear_arith)
        requires
            c == (b * e) * ph,
            inner == b * (pl + e * ph) + v * lv + u * rv,
    ;
    let ni = b_next * arith::poly_at(p_next, x);
    assert(arith::eqm(ni, inner, q));
    arith::lemma_eqm_mul(z, z, ni, inner, q);
    arith::lemma_eqm_mul(z * ni, z * inner, ul, ul, q);
    // The blinds on w.
    let fe = f + lr * v + rr * u;
    arith::lemma_eqm_mul(f_next, fe, wl, wl, q);
    arith::lemma_eqm_add(multiexp::dot(p_next, g_next), bodies, f_next * wl, fe * wl, q);
    arith::lemma_eqm_add(
        multiexp::dot(p_next, g_next) + f_next * wl,
        bodies + fe * wl,
        (z * ni) * ul,
        (z * inner) * ul,
        q,
    );
    // The round's points.
    let l_log = d3 + (lv * z) * ul + lr * wl;
    let r_log = d2 + (rv * z) * ul + rr * wl;
    arith::lemma_eqm_mul(v, v, curve::log(round.l_j), l_log, q);
    arith::lemma_eqm_mul(u, u, curve::log(round.r_j), r_log, q);
    let now = d1 + d4 + f * wl + (z * (b * (pl + e * ph))) * ul;
    assert(state.value() == now);
    arith::lemma_eqm_add(now, now, v * curve::log(round.l_j), v * l_log, q);
    arith::lemma_eqm_add(now + v * curve::log(round.l_j), now + v * l_log, u * curve::log(round.r_j), u * r_log, q);
    let whole = b * (pl + e * ph);
    lemma_round_algebra(d1, d2, d3, d4, f, lr, rr, v, u, wl, ul, z, whole, lv, rv);
}

/// The terms of a round, collected.
proof fn lemma_round_algebra(
    d1: int,
    d2: int,
    d3: int,
    d4: int,
    f: int,
    lr: int,
    rr: int,
    v: int,
    u: int,
    wl: int,
    ul: int,
    z: int,
    whole: int,
    lv: int,
    rv: int,
)
    ensures
        (d1 + d4 + v * d3 + u * d2) + (f + lr * v + rr * u) * wl + (z * (whole + v * lv + u * rv))
            * ul == (d1 + d4 + f * wl + (z * whole) * ul) + v * (d3 + (lv * z) * ul + lr * wl) + u
            * (d2 + (rv * z) * ul + rr * wl),
{
    assert((f + lr * v + rr * u) * wl == f * wl + v * (lr * wl) + u * (rr * wl))
        by (nonlinear_arith);
    let (vl, ur) = (v * lv, u * rv);
    assert(z * (whole + vl + ur) == z * whole + z * vl + z * ur) by (nonlinear_arith);
    let (z1, z2, z3) = (z * whole, z * vl, z * ur);
    assert((z1 + z2 + z3) * ul == z1 * ul + z2 * ul + z3 * ul) by (nonlinear_arith);
    assert((z * (v * lv)) * ul == v * ((lv * z) * ul)) by (nonlinear_arith);
    assert((z * (u * rv)) * ul == u * ((rv * z) * ul)) by (nonlinear_arith);
    let (a, b) = ((lv * z) * ul, lr * wl);
    let (c, d) = ((rv * z) * ul, rr * wl);
    assert(v * (d3 + a + b) == v * d3 + v * a + v * b) by (nonlinear_arith);
    assert(u * (d2 + c + d) == u * d2 + u * c + u * d) by (nonlinear_arith);
}

} // verus!
