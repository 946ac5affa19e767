//! What a verifier of an opening checks.
use crate::arith;
use crate::curve;
use crate::curve::CurveAffine;
use crate::fft;
use crate::field::Field;
use crate::ipa;
use crate::ipa::{IpaOpening, IpaRound, IpaRounds};
use crate::multiexp;
use crate::params::Params;
use crate::poly;
use vstd::arithmetic::mul::*;
use vstd::arithmetic::power::*;
use vstd::arithmetic::power2::*;
use vstd::prelude::*;

verus! {

/// The halves combined with a challenge.
pub open spec fn folded(s: Seq<int>, u: int) -> Seq<int> {
    Seq::new((s.len() / 2) as nat, |i: int| s[i] + u * s[i + s.len() / 2])
}

/// The halves combined with each challenge in turn.
pub open spec fn folded_by(s: Seq<int>, us: Seq<int>) -> Seq<int>
    decreases us.len(),
{
    if us.len() == 0 {
        s
    } else {
        folded(folded_by(s, us.drop_last()), us.last())
    }
}

/// By what the first powers of `x` are multiplied where the `2^k` powers are folded.
pub open spec fn power_scale(x: int, k: nat, us: Seq<int>) -> int
    decreases us.len(),
{
    if us.len() == 0 {
        1
    } else {
        let b = power_scale(x, k, us.drop_last());
        b + (b * pow(x, pow2((k - us.len()) as nat))) * us.last()
    }
}

/// The points of the rounds, weighted with the challenges' inverses and the challenges.
pub open spec fn rounds_sum<C: CurveAffine>(
    rounds: Seq<IpaRound<C>>,
    us: Seq<int>,
    invs: Seq<int>,
) -> int
    decreases rounds.len(),
{
    if rounds.len() == 0 {
        0
    } else {
        let j = rounds.len() - 1;
        rounds_sum(rounds.drop_last(), us, invs) + invs[j] * curve::log(rounds[j].l_j) + us[j] * curve::log(
            rounds[j].r_j,
        )
    }
}

/// Round `j` gives its points and is folded.
pub open spec fn is_step<'a, C: CurveAffine>(
    states: Seq<IpaRounds<'a, C>>,
    rounds: Seq<IpaRound<C>>,
    us: Seq<int>,
    invs: Seq<int>,
    j: int,
) -> bool {
    &&& states[j].is_round(rounds[j])
    &&& states[j].folds_to(rounds[j], us[j], invs[j], states[j + 1])
}

/// All rounds of an opening.
pub open spec fn is_run<'a, C: CurveAffine>(
    states: Seq<IpaRounds<'a, C>>,
    rounds: Seq<IpaRound<C>>,
    us: Seq<int>,
    invs: Seq<int>,
) -> bool {
    &&& states.len() == rounds.len() + 1
    &&& us.len() == rounds.len()
    &&& invs.len() == rounds.len()
    &&& states[0].params.k == rounds.len()
    &&& states[0].b_scale.val() == 1
    &&& forall|j: int|
        0 <= j < states.len() ==> {
            &&& (#[trigger] states[j]).wf()
            &&& states[j].round == j
            &&& states[j].params == states[0].params
            &&& states[j].x_3 == states[0].x_3
            &&& states[j].z == states[0].z
        }
    &&& forall|j: int| 0 <= j < rounds.len() ==> #[trigger] is_step(states, rounds, us, invs, j)
}

/// The generators and the scale of the powers, before the last fold, and what the state
/// stands for.
proof fn lemma_run<'a, C: CurveAffine>(
    states: Seq<IpaRounds<'a, C>>,
    rounds: Seq<IpaRound<C>>,
    us: Seq<int>,
    invs: Seq<int>,
    j: int,
)
    requires
        is_run(states, rounds, us, invs),
        0 <= j < rounds.len(),
    ensures
        folded_by(curve::logs(states[0].params.g@), us.take(j)).len() == states[j].size(),
        forall|i: int|
            0 <= i < states[j].size() ==> arith::eqm(
                #[trigger] curve::logs(states[j].g_prime@)[i],
                folded_by(curve::logs(states[0].params.g@), us.take(j))[i],
                C::ScalarExt::order(),
            ),
        arith::eqm(
            states[j].b_scale.val(),
            power_scale(states[0].x_3.val(), rounds.len(), us.take(j)),
            C::ScalarExt::order(),
        ),
        arith::eqm(
            states[j].value(),
            states[0].value() + rounds_sum(rounds.take(j), us, invs),
            C::ScalarExt::order(),
        ),
    decreases j,
{
    let q = C::ScalarExt::order();
    C::ScalarExt::lemma_order();
    let g = curve::logs(states[0].params.g@);
    let x = states[0].x_3.val();
    assert(states[j].wf() && states[j].round == j);
    if j == 0 {
        assert(us.take(0) =~= Seq::<int>::empty());
        assert(rounds.take(0) =~= Seq::<IpaRound<C>>::empty());
    } else {
        let before = states[j - 1];
        let after = states[j];
        let round = rounds[j - 1];
        let (u, v) = (us[j - 1], invs[j - 1]);
        assert(before.wf() && before.round == j - 1);
        assert(is_step(states, rounds, us, invs, j - 1));
        lemma_run(states, rounds, us, invs, j - 1);
        lemma_pow2_unfold((before.params.k - before.round) as nat);
        let half = (before.size() / 2) as int;
        assert(half == after.size());
        let (p_next, g_next) = (poly::vals(after.p_prime@), curve::logs(after.g_prime@));
        assert forall|i: int| 0 <= i < p_next.len() implies arith::eqm(
            #[trigger] p_next[i],
            poly::vals(before.p_prime@)[i] + poly::vals(before.p_prime@)[i + half] * v,
            q,
        ) by {
            assert(p_next[i] == after.p_prime@[i].val());
            arith::lemma_mod_range(poly::vals(before.p_prime@)[i] + poly::vals(before.p_prime@)[i + half] * v, q);
        }
        assert forall|i: int| 0 <= i < g_next.len() implies arith::eqm(
            #[trigger] g_next[i],
            curve::logs(before.g_prime@)[i] + u * curve::logs(before.g_prime@)[i + half],
            q,
        ) by {
            assert(g_next[i] == curve::log(after.g_prime@[i]));
            arith::lemma_mod_range(curve::logs(before.g_prime@)[i] + u * curve::logs(before.g_prime@)[i + half], q);
        }
        ipa::law_round_keeps_opening(
            before,
            round,
            u,
            v,
            p_next,
            g_next,
            after.b_scale.val(),
            after.f.val(),
        );
        assert(us.take(j).drop_last() =~= us.take(j - 1));
        assert(us.take(j).last() == u);
        assert(rounds.take(j).drop_last() =~= rounds.take(j - 1));
        let folded_before = folded_by(g, us.take(j - 1));
        lemma_folded_eqm(curve::logs(before.g_prime@), folded_before, g_next, u, q);
        assert(folded_by(g, us.take(j)) == folded(folded_before, u));
        let b = power_scale(x, rounds.len(), us.take(j - 1));
        lemma_scale_eqm(before.b_scale.val(), b, pow(x, half as nat), u, q);
        let sum = states[0].value() + rounds_sum(rounds.take(j - 1), us, invs);
        arith::lemma_eqm_add(before.value(), sum, v * curve::log(round.l_j), v * curve::log(round.l_j), q);
        arith::lemma_eqm_add(
            before.value() + v * curve::log(round.l_j),
            sum + v * curve::log(round.l_j),
            u * curve::log(round.r_j),
            u * curve::log(round.r_j),
            q,
        );
    }
}

/// Folds of congruent values are congruent.
proof fn lemma_folded_eqm(a: Seq<int>, b: Seq<int>, next: Seq<int>, u: int, q: int)
    requires
        q > 0,
        a.len() == b.len(),
        next.len() == a.len() / 2,
        forall|i: int| 0 <= i < a.len() ==> arith::eqm(#[trigger] a[i], b[i], q),
        forall|i: int|
            0 <= i < next.len() ==> arith::eqm(#[trigger] next[i], a[i] + u * a[i + a.len() / 2], q),
    ensures
        forall|i: int| 0 <= i < next.len() ==> arith::eqm(#[trigger] next[i], folded(b, u)[i], q),
{
    let half = (a.len() / 2) as int;
    assert forall|i: int| 0 <= i < next.len() implies arith::eqm(
        #[trigger] next[i],
        folded(b, u)[i],
        q,
    ) by {
        assert(arith::eqm(a[i], b[i], q));
        assert(arith::eqm(a[i + half], b[i + half], q));
        arith::lemma_eqm_mul(u, u, a[i + half], b[i + half], q);
        arith::lemma_eqm_add(a[i], b[i], u * a[i + half], u * b[i + half], q);
    }
}

proof fn lemma_scale_eqm(a: int, b: int, e: int, u: int, q: int)
    requires
        q > 0,
        arith::eqm(a, b, q),
    ensures
        arith::eqm(a + (a * e) * u, b + (b * e) * u, q),
{
    arith::lemma_eqm_mul(a, b, e, e, q);
    arith::lemma_eqm_mul(a * e, b * e, u, u, q);
    arith::lemma_eqm_add(a, b, (a * e) * u, (b * e) * u, q);
}

/// One coefficient on one generator.
proof fn lemma_last_value<C: CurveAffine>(
    params: Params<C>,
    p: Seq<int>,
    g: Seq<int>,
    b: int,
    x: int,
    z: int,
    f: int,
)
    requires
        p.len() == 1,
        g.len() == 1,
    ensures
        ipa::state_value(params, p, g, b, x, z, f) == p[0] * g[0] + (z * (b * p[0])) * curve::log(params.u) + f
            * curve::log(params.w),
{
    fft::lemma_poly_at_constant(p, x);
    assert(p.drop_last() =~= Seq::<int>::empty());
    reveal_with_fuel(multiexp::dot, 2);
}

impl<'a, C: CurveAffine> IpaOpening<'a, C> {
    /// What the verifier expects of the last messages: `c` on the generator folded by the
    /// challenges, `c` times the folded powers on `u`, and `f` on `w`.
    pub open spec fn expected_log(&self, z: int, c: int, f: int, us: Seq<int>) -> int {
        let b = power_scale(self.x_3.val(), us.len(), us);
        c * folded_by(curve::logs(self.params.g@), us)[0] + (z * (b * c)) * curve::log(self.params.u) + f * curve::log(
            self.params.w,
        )
    }
}

/// An opening is accepted: with the commitment, the claimed value at `x_3`, the mask and
/// the points of the rounds, the verifier finds the coefficient that is left on the
/// generator folded by the challenges, that coefficient with the folded powers on `u`, and
/// the synthetic blind on `w`.
pub proof fn law_opening_is_accepted<'a, C: CurveAffine>(
    opening: IpaOpening<'a, C>,
    xi: int,
    states: Seq<IpaRounds<'a, C>>,
    rounds: Seq<IpaRound<C>>,
    us: Seq<int>,
    invs: Seq<int>,
)
    requires
        opening.wf(),
        is_run(states, rounds, us, invs),
        states[0].params == opening.params,
        states[0].x_3 == opening.x_3,
        arith::eqm(states[0].value(), opening.masked_log(xi), C::ScalarExt::order()),
    ensures
        arith::eqm(
            opening.masked_log(xi) + rounds_sum(rounds, us, invs),
            opening.expected_log(
                states[rounds.len() as int].z.val(),
                states[rounds.len() as int].p_prime@[0].val(),
                states[rounds.len() as int].f.val(),
                us,
            ),
            C::ScalarExt::order(),
        ),
{
    let q = C::ScalarExt::order();
    C::ScalarExt::lemma_order();
    let params = *opening.params;
    let g = curve::logs(params.g@);
    let x = opening.x_3.val();
    let k = rounds.len() as int;
    let last = states[k];
    let p = poly::vals(last.p_prime@);
    assert(last.wf() && last.round == k);
    assert(states[0].wf() && states[0].round == 0);
    lemma2_to64();
    assert(us.take(k) =~= us);
    assert(rounds.take(k) =~= rounds);
    let b = power_scale(x, rounds.len(), us);
    let z = last.z.val();
    let f = last.f.val();
    arith::lemma_eqm_add(
        states[0].value(),
        opening.masked_log(xi),
        rounds_sum(rounds, us, invs),
        rounds_sum(rounds, us, invs),
        q,
    );
    if k == 0 {
        lemma_last_value(params, p, g, 1, x, z, f);
    } else {
        let before = states[k - 1];
        let round = rounds[k - 1];
        let (u, v) = (us[k - 1], invs[k - 1]);
        assert(before.wf() && before.round == k - 1);
        assert(is_step(states, rounds, us, invs, k - 1));
        lemma_run(states, rounds, us, invs, k - 1);
        assert(before.size() == 2);
        assert(us.drop_last() =~= us.take(k - 1));
        assert(rounds.drop_last() =~= rounds.take(k - 1));
        let folded_before = folded_by(g, us.take(k - 1));
        let g_next = folded_by(g, us);
        assert(g_next == folded(folded_before, u));
        let exact = folded(curve::logs(before.g_prime@), u);
        lemma_folded_eqm(curve::logs(before.g_prime@), folded_before, exact, u, q);
        assert forall|i: int| 0 <= i < g_next.len() implies arith::eqm(
            #[trigger] g_next[i],
            curve::logs(before.g_prime@)[i] + u * curve::logs(before.g_prime@)[i + before.size() / 2],
            q,
        ) by {
            assert(arith::eqm(exact[i], g_next[i], q));
        }
        assert forall|i: int| 0 <= i < p.len() implies arith::eqm(
            #[trigger] p[i],
            poly::vals(before.p_prime@)[i] + poly::vals(before.p_prime@)[i + before.size() / 2] * v,
            q,
        ) by {
            assert(p[i] == last.p_prime@[i].val());
            arith::lemma_mod_range(
                poly::vals(before.p_prime@)[i] + poly::vals(before.p_prime@)[i + before.size() / 2] * v,
                q,
            );
        }
        let scale = power_scale(x, rounds.len(), us.take(k - 1));
        lemma_scale_eqm(before.b_scale.val(), scale, pow(x, 1), u, q);
        ipa::law_round_keeps_opening(before, round, u, v, p, g_next, b, f);
        lemma_last_value(params, p, g_next, b, x, z, f);
        let sum = states[0].value() + rounds_sum(rounds.take(k - 1), us, invs);
        arith::lemma_eqm_add(before.value(), sum, v * curve::log(round.l_j), v * curve::log(round.l_j), q);
        arith::lemma_eqm_add(
            before.value() + v * curve::log(round.l_j),
            sum + v * curve::log(round.l_j),
            u * curve::log(round.r_j),
            u * curve::log(round.r_j),
            q,
        );
    }
}

/// The coefficients after some rounds are the first ones, folded with the inverses of the
/// challenges.
proof fn lemma_folded_coefficients<'a, C: CurveAffine>(
    states: Seq<IpaRounds<'a, C>>,
    rounds: Seq<IpaRound<C>>,
    us: Seq<int>,
    invs: Seq<int>,
    j: int,
)
    requires
        is_run(states, rounds, us, invs),
        0 <= j <= rounds.len(),
    ensures
        folded_by(poly::vals(states[0].p_prime@), invs.take(j)).len() == states[j].p_prime@.len(),
        forall|i: int|
            0 <= i < states[j].p_prime@.len() ==> arith::eqm(
                #[trigger] poly::vals(states[j].p_prime@)[i],
                folded_by(poly::vals(states[0].p_prime@), invs.take(j))[i],
                C::ScalarExt::order(),
            ),
    decreases j,
{
    let q = C::ScalarExt::order();
    C::ScalarExt::lemma_order();
    assert(states[j].wf() && states[j].round == j);
    if j == 0 {
        assert(invs.take(0) =~= Seq::<int>::empty());
    } else {
        let (before, after) = (states[j - 1], states[j]);
        let v = invs[j - 1];
        assert(before.wf() && before.round == j - 1);
        assert(is_step(states, rounds, us, invs, j - 1));
        lemma_folded_coefficients(states, rounds, us, invs, j - 1);
        lemma_pow2_unfold((before.params.k - before.round) as nat);
        let half = (before.size() / 2) as int;
        let (p, next) = (poly::vals(before.p_prime@), poly::vals(after.p_prime@));
        assert forall|i: int| 0 <= i < next.len() implies arith::eqm(
            #[trigger] next[i],
            p[i] + v * p[i + p.len() / 2],
            q,
        ) by {
            assert(next[i] == after.p_prime@[i].val());
            arith::lemma_mod_range(p[i] + p[i + half] * v, q);
            lemma_mul_is_commutative(p[i + half], v);
        }
        assert(invs.take(j).drop_last() =~= invs.take(j - 1));
        assert(invs.take(j).last() == v);
        lemma_folded_eqm(p, folded_by(poly::vals(states[0].p_prime@), invs.take(j - 1)), next, v, q);
    }
}

/// The scalar that is sent last is the polynomial `p - p(x_3) + xi s`, folded with the
/// inverses of the challenges in turn.
pub proof fn law_final_scalar<'a, C: CurveAffine>(
    opening: IpaOpening<'a, C>,
    xi: int,
    states: Seq<IpaRounds<'a, C>>,
    rounds: Seq<IpaRound<C>>,
    us: Seq<int>,
    invs: Seq<int>,
)
    requires
        opening.wf(),
        is_run(states, rounds, us, invs),
        states[0].params == opening.params,
        forall|i: int|
            0 <= i < opening.params.n ==> (#[trigger] states[0].p_prime@[i]).val()
                == opening.masked_coeff(xi, i),
    ensures
        states[rounds.len() as int].p_prime@[0].val() == folded_by(
            Seq::new(opening.params.n as nat, |i: int| opening.masked_coeff(xi, i)),
            invs,
        )[0] % C::ScalarExt::order(),
{
    let q = C::ScalarExt::order();
    let k = rounds.len() as int;
    let last = states[k];
    assert(states[0].wf() && states[0].round == 0);
    assert(last.wf() && last.round == k);
    lemma2_to64();
    lemma_folded_coefficients(states, rounds, us, invs, k);
    assert(invs.take(k) =~= invs);
    assert(poly::vals(states[0].p_prime@) =~= Seq::new(
        opening.params.n as nat,
        |i: int| opening.masked_coeff(xi, i),
    ));
    assert(poly::vals(last.p_prime@)[0] == last.p_prime@[0].val());
    C::ScalarExt::lemma_order();
    C::ScalarExt::lemma_val(last.p_prime@[0]);
    arith::lemma_mod_small(last.p_prime@[0].val(), q);
}

} // verus!
