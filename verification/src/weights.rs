//! What a verifier finds of an opening, written out over all generators.
use crate::acceptance;
use crate::arith;
use crate::commit;
use crate::curve;
use crate::curve::CurveAffine;
use crate::field::Field;
use crate::ipa::{IpaOpening, IpaRound, IpaRounds};
use crate::multiexp;
use crate::poly;
use crate::sums;
use vstd::arithmetic::div_mod::*;
use vstd::arithmetic::mul::*;
use vstd::arithmetic::power::*;
use vstd::arithmetic::power2::*;
use vstd::prelude::*;

verus! {

/// The product of the challenges of the bits of `h`, the first challenge being that of the
/// most significant bit.
spec fn weight(us: Seq<int>, h: int) -> int
    decreases us.len(),
{
    if us.len() == 0 {
        1
    } else {
        weight(us.drop_last(), h / 2) * (if h % 2 == 1 {
            us.last()
        } else {
            1
        })
    }
}

proof fn lemma_weight(us: Seq<int>, h: int)
    requires
        h >= 0,
    ensures
        weight(us, h) == Seq::new(
            us.len(),
            |j: int|
                if (h / (pow2((us.len() - 1 - j) as nat) as int)) % 2 == 1 {
                    us[j]
                } else {
                    1
                },
        ).fold_left(1int, |a: int, b: int| a * b),
    decreases us.len(),
{
    let t = Seq::new(
        us.len(),
        |j: int|
            if (h / (pow2((us.len() - 1 - j) as nat) as int)) % 2 == 1 {
                us[j]
            } else {
                1
            },
    );
    if us.len() > 0 {
        let f = us.drop_last();
        lemma_weight(f, h / 2);
        let u = Seq::new(
            f.len(),
            |j: int|
                if ((h / 2) / (pow2((f.len() - 1 - j) as nat) as int)) % 2 == 1 {
                    f[j]
                } else {
                    1
                },
        );
        assert forall|j: int| 0 <= j < f.len() implies #[trigger] t[j] == u[j] by {
            let e = (f.len() - 1 - j) as nat;
            lemma_pow2_unfold(e + 1);
            lemma_pow2_pos(e);
            lemma_div_denominator(h, 2, pow2(e) as int);
            assert((us.len() - 1 - j) as nat == e + 1);
        }
        assert(t.drop_last() =~= u);
        lemma2_to64();
        assert(h / 1 == h);
        assert(t.last() == if h % 2 == 1 {
            us.last()
        } else {
            1
        });
    }
}

/// A sum by pairs.
proof fn lemma_sum_pairs(s: Seq<int>, t: Seq<int>)
    requires
        s.len() == 2 * t.len(),
        forall|h: int| 0 <= h < t.len() ==> #[trigger] t[h] == s[2 * h] + s[2 * h + 1],
    ensures
        arith::seq_sum(s) == arith::seq_sum(t),
    decreases t.len(),
{
    if t.len() > 0 {
        let (a, b) = (s.drop_last(), t.drop_last());
        assert forall|h: int| 0 <= h < b.len() implies #[trigger] b[h] == a.drop_last()[2 * h]
            + a.drop_last()[2 * h + 1] by {
            assert(t[h] == s[2 * h] + s[2 * h + 1]);
        }
        lemma_sum_pairs(a.drop_last(), b);
        let h = t.len() - 1;
        assert(t[h] == s[2 * h] + s[2 * h + 1]);
        assert(a.last() == s[2 * h] && s.last() == s[2 * h + 1]);
        assert(arith::seq_sum(a) == arith::seq_sum(a.drop_last()) + a.last());
    }
}

/// The entries that are folded into entry `i`, with their weights.
spec fn weighted(v: Seq<int>, us: Seq<int>, n: nat, stride: int, i: int) -> Seq<int> {
    Seq::new(n, |h: int| weight(us, h) * v[h * stride + i])
}

/// Sums of weighted sums.
proof fn lemma_sum_add(a: Seq<int>, b: Seq<int>, u: int)
    requires
        a.len() == b.len(),
    ensures
        arith::seq_sum(a) + u * arith::seq_sum(b) == arith::seq_sum(Seq::new(a.len(), |h: int| a[h] + u * b[h])),
    decreases a.len(),
{
    let t = Seq::new(a.len(), |h: int| a[h] + u * b[h]);
    if a.len() > 0 {
        let (f, g) = (a.drop_last(), b.drop_last());
        lemma_sum_add(f, g, u);
        assert(t.drop_last() =~= Seq::new(f.len(), |h: int| f[h] + u * g[h]));
        lemma_mul_is_distributive_add(u, arith::seq_sum(g), b.last());
    } else {
        lemma_mul_basics(u);
    }
}

/// An entry of a folded list is the sum of the entries that stand a stride apart, with the
/// weights of the challenges.
proof fn lemma_folded_by(v: Seq<int>, us: Seq<int>, k: nat, i: int)
    requires
        us.len() <= k,
        v.len() == pow2(k),
        0 <= i < pow2((k - us.len()) as nat),
    ensures
        acceptance::folded_by(v, us).len() == pow2((k - us.len()) as nat),
        acceptance::folded_by(v, us)[i] == arith::seq_sum(
            weighted(v, us, pow2(us.len()), pow2((k - us.len()) as nat) as int, i),
        ),
    decreases us.len(),
{
    if us.len() == 0 {
        lemma2_to64();
        let s = weighted(v, us, 1, pow2(k) as int, i);
        lemma_mul_basics(pow2(k) as int);
        assert(s[0] == v[i]);
        assert(s.drop_last() =~= Seq::<int>::empty());
        assert(arith::seq_sum(s) == arith::seq_sum(s.drop_last()) + s.last());
        assert(pow2(us.len()) == 1);
    } else {
        let f = us.drop_last();
        let u = us.last();
        let t = f.len();
        let half = pow2((k - us.len()) as nat) as int;
        let full = pow2((k - t) as nat) as int;
        lemma_pow2_unfold((k - t) as nat);
        assert((k - t - 1) as nat == (k - us.len()) as nat);
        assert(full == 2 * half);
        lemma_pow2_unfold(us.len());
        let n = pow2(t);
        assert(pow2(us.len()) == 2 * n);
        lemma_folded_by(v, f, k, i);
        lemma_folded_by(v, f, k, i + half);
        let (a, b) = (weighted(v, f, n, full, i), weighted(v, f, n, full, i + half));
        lemma_sum_add(a, b, u);
        let pairs = Seq::new(a.len(), |h: int| a[h] + u * b[h]);
        let s = weighted(v, us, pow2(us.len()), half, i);
        assert forall|h: int| 0 <= h < pairs.len() implies #[trigger] pairs[h] == s[2 * h] + s[2 * h
            + 1] by {
            let w = weight(f, h);
            assert((2 * h) / 2 == h && (2 * h) % 2 == 0);
            assert((2 * h + 1) / 2 == h && (2 * h + 1) % 2 == 1);
            assert(weight(us, 2 * h) == w * 1);
            assert(weight(us, 2 * h + 1) == w * u);
            assert((2 * h) * half + i == h * full + i) by (nonlinear_arith)
                requires
                    full == 2 * half,
            ;
            assert((2 * h + 1) * half + i == h * full + (i + half)) by (nonlinear_arith)
                requires
                    full == 2 * half,
            ;
            let y = v[h * full + (i + half)];
            assert(u * (w * y) == (w * u) * y) by (nonlinear_arith);
        }
        lemma_sum_pairs(s, pairs);
        assert(acceptance::folded_by(v, us) == acceptance::folded(acceptance::folded_by(v, f), u));
        assert(acceptance::folded_by(v, f).len() / 2 == half);
    }
}

/// Folded powers of `x` are the first powers times the scale.
proof fn lemma_folded_powers(x: int, us: Seq<int>, k: nat, i: int)
    requires
        us.len() <= k,
        0 <= i < pow2((k - us.len()) as nat),
    ensures
        acceptance::folded_by(Seq::new(pow2(k), |h: int| pow(x, h as nat)), us).len() == pow2(
            (k - us.len()) as nat,
        ),
        acceptance::folded_by(Seq::new(pow2(k), |h: int| pow(x, h as nat)), us)[i] == acceptance::power_scale(x, k, us)
            * pow(x, i as nat),
    decreases us.len(),
{
    let v = Seq::new(pow2(k), |h: int| pow(x, h as nat));
    if us.len() == 0 {
        lemma_mul_basics(pow(x, i as nat));
    } else {
        let f = us.drop_last();
        let u = us.last();
        let half = pow2((k - us.len()) as nat) as int;
        lemma_pow2_unfold((k - f.len()) as nat);
        assert((k - f.len() - 1) as nat == (k - us.len()) as nat);
        lemma_folded_powers(x, f, k, i);
        lemma_folded_powers(x, f, k, i + half);
        let b = acceptance::power_scale(x, k, f);
        lemma_pow_adds(x, i as nat, half as nat);
        let (c, d) = (pow(x, i as nat), pow(x, half as nat));
        assert(b * c + u * (b * (c * d)) == (b + (b * d) * u) * c) by (nonlinear_arith);
        assert(acceptance::folded_by(v, us) == acceptance::folded(acceptance::folded_by(v, f), u));
        assert(acceptance::folded_by(v, f).len() / 2 == half);
    }
}

/// The points of the rounds, round by round.
proof fn lemma_rounds_sum<C: CurveAffine>(rounds: Seq<IpaRound<C>>, us: Seq<int>, invs: Seq<int>)
    requires
        us.len() >= rounds.len(),
        invs.len() >= rounds.len(),
    ensures
        acceptance::rounds_sum(rounds, us, invs) == Seq::new(
            rounds.len(),
            |j: int| invs[j] * curve::log(rounds[j].l_j) + us[j] * curve::log(rounds[j].r_j),
        ).fold_left(0int, |a: int, b: int| a + b),
    decreases rounds.len(),
{
    let t = Seq::new(
        rounds.len(),
        |j: int| invs[j] * curve::log(rounds[j].l_j) + us[j] * curve::log(rounds[j].r_j),
    );
    if rounds.len() > 0 {
        let f = rounds.drop_last();
        lemma_rounds_sum(f, us, invs);
        assert(t.drop_last() =~= Seq::new(
            f.len(),
            |j: int| invs[j] * curve::log(f[j].l_j) + us[j] * curve::log(f[j].r_j),
        ));
    }
}

/// A verifier finds what it expects of an opening. Take the commitment to the polynomial,
/// less its value at the point times the first generator, plus a multiple of the commitment
/// to the mask, plus the two points of each round with the inverse of the round's challenge
/// and the challenge. This is the coefficient that is sent last times the sum of all
/// generators, each with its power of the point times `z` on `u`, and each weighted with the
/// product of the challenges of the bits of its number, from the most significant bit on;
/// plus the synthetic blind on `w`.
pub proof fn law_verifier_accepts<'a, C: CurveAffine>(
    opening: IpaOpening<'a, C>,
    xi: int,
    states: Seq<IpaRounds<'a, C>>,
    rounds: Seq<IpaRound<C>>,
    us: Seq<int>,
    invs: Seq<int>,
)
    requires
        opening.wf(),
        acceptance::is_run(states, rounds, us, invs),
        states[0].params == opening.params,
        states[0].x_3 == opening.x_3,
        arith::eqm(states[0].value(), opening.masked_log(xi), C::ScalarExt::order()),
    ensures
        ({
            let params = opening.params;
            let x = opening.x_3.val();
            let k = rounds.len();
            let p = opening.p_poly.values@;
            let q = C::ScalarExt::order();
            let last = states[k as int];
            let polynomial = Seq::new(p.len(), |i: int| p[i].val() * curve::log(params.g@[i])).fold_left(
                0int,
                |a: int, b: int| a + b,
            ) + opening.p_blind.0.val() * curve::log(params.w);
            let value = Seq::new(p.len(), |i: int| p[i].val() * pow(x, i as nat)).fold_left(
                0int,
                |a: int, b: int| a + b,
            );
            let mask = Seq::new(
                opening.s_poly@.len(),
                |t: int| opening.s_poly@[t].1.val() * curve::log(params.g@[opening.s_poly@[t].0 as int]),
            ).fold_left(0int, |a: int, b: int| a + b) + opening.s_poly_blind.0.val() * curve::log(
                params.w,
            );
            let messages = Seq::new(
                k,
                |j: int| invs[j] * curve::log(rounds[j].l_j) + us[j] * curve::log(rounds[j].r_j),
            ).fold_left(0int, |a: int, b: int| a + b);
            let generators = Seq::new(
                params.n as nat,
                |i: int|
                    Seq::new(
                        k,
                        |j: int|
                            if (i / (pow2((k - 1 - j) as nat) as int)) % 2 == 1 {
                                us[j]
                            } else {
                                1
                            },
                    ).fold_left(1int, |a: int, b: int| a * b) * (curve::log(params.g@[i]) + (last.z.val()
                        * pow(x, i as nat)) * curve::log(params.u)),
            ).fold_left(0int, |a: int, b: int| a + b);
            (polynomial - value * curve::log(params.g@[0]) + xi * mask + messages) % q == (
            last.p_prime@[0].val() * generators + last.f.val() * curve::log(params.w)) % q
        }),
        forall|j: int|
            0 <= j < rounds.len() ==> (us[j] * #[trigger] invs[j]) % C::ScalarExt::order() == 1,
{
    let params = opening.params;
    let x = opening.x_3.val();
    let k = rounds.len();
    let p = opening.p_poly.values@;
    let q = C::ScalarExt::order();
    C::ScalarExt::lemma_order();
    arith::lemma_mod_small(1, q);
    let last = states[k as int];
    let g = curve::logs(params.g@);
    assert(states[0].wf());
    assert(params.k == k);
    acceptance::law_opening_is_accepted(opening, xi, states, rounds, us, invs);
    assert forall|j: int| 0 <= j < rounds.len() implies (us[j] * #[trigger] invs[j]) % q == 1 by {
        assert(acceptance::is_step(states, rounds, us, invs, j));
    }
    // The left side.
    sums::law_inner_product(poly::vals(p), g);
    assert(Seq::new(poly::vals(p).len(), |i: int| poly::vals(p)[i] * g[i]) =~= Seq::new(
        p.len(),
        |i: int| p[i].val() * curve::log(params.g@[i]),
    ));
    sums::law_polynomial_value(poly::vals(p), x);
    assert(Seq::new(poly::vals(p).len(), |i: int| poly::vals(p)[i] * pow(x, i as nat)) =~= Seq::new(
        p.len(),
        |i: int| p[i].val() * pow(x, i as nat),
    ));
    sums::law_sparse_inner_product(opening.s_poly@, g);
    lemma_mask_places(opening);
    assert(Seq::new(
        opening.s_poly@.len(),
        |t: int| opening.s_poly@[t].1.val() * g[opening.s_poly@[t].0 as int],
    ) =~= Seq::new(
        opening.s_poly@.len(),
        |t: int| opening.s_poly@[t].1.val() * curve::log(params.g@[opening.s_poly@[t].0 as int]),
    ));
    lemma_rounds_sum(rounds, us, invs);
    let polynomial = multiexp::dot(poly::vals(p), g) + opening.p_blind.0.val() * curve::log(params.w);
    let value = arith::poly_at(poly::vals(p), x);
    let mask = commit::sparse_dot(opening.s_poly@, g) + opening.s_poly_blind.0.val() * curve::log(params.w);
    let messages = acceptance::rounds_sum(rounds, us, invs);
    let g0 = curve::log(params.g@[0]);
    assert(arith::eqm(
        polynomial - value * g0 + xi * mask + messages,
        opening.masked_log(xi) + messages,
        q,
    )) by {
        arith::lemma_mod_range(polynomial, q);
        arith::lemma_mod_range(mask, q);
        arith::lemma_eqm_mul(xi, xi, mask % q, mask, q);
        arith::lemma_eqm_sub(polynomial % q, polynomial, value * g0, value * g0, q);
        arith::lemma_eqm_add(
            polynomial % q - value * g0,
            polynomial - value * g0,
            xi * (mask % q),
            xi * mask,
            q,
        );
        arith::lemma_eqm_add(
            polynomial % q - value * g0 + xi * (mask % q),
            polynomial - value * g0 + xi * mask,
            messages,
            messages,
            q,
        );
    }
    // The right side.
    let (c, z, f, u) = (last.p_prime@[0].val(), last.z.val(), last.f.val(), curve::log(params.u));
    lemma2_to64();
    lemma_pow2_pos(0);
    assert((k - us.len()) as nat == 0);
    lemma_folded_by(g, us, k, 0);
    let powers = Seq::new(pow2(k), |h: int| pow(x, h as nat));
    lemma_folded_by(powers, us, k, 0);
    lemma_folded_powers(x, us, k, 0);
    lemma_pow0(x);
    let b = acceptance::power_scale(x, k, us);
    lemma_mul_basics(b);
    let (wg, wx) = (weighted(g, us, pow2(k), 1, 0), weighted(powers, us, pow2(k), 1, 0));
    lemma_sum_add(wg, wx, z * u);
    let generators = Seq::new(
        params.n as nat,
        |i: int|
            Seq::new(
                k,
                |j: int|
                    if (i / (pow2((k - 1 - j) as nat) as int)) % 2 == 1 {
                        us[j]
                    } else {
                        1
                    },
            ).fold_left(1int, |a: int, b: int| a * b) * (curve::log(params.g@[i]) + (last.z.val() * pow(
                x,
                i as nat,
            )) * curve::log(params.u)),
    );
    assert(generators =~= Seq::new(wg.len(), |h: int| wg[h] + (z * u) * wx[h])) by {
        assert forall|i: int| 0 <= i < generators.len() implies #[trigger] generators[i] == wg[i]
            + (z * u) * wx[i] by {
            lemma_weight(us, i);
            let w = weight(us, i);
            assert(Seq::new(
                k,
                |j: int|
                    if (i / (pow2((k - 1 - j) as nat) as int)) % 2 == 1 {
                        us[j]
                    } else {
                        1
                    },
            ) =~= Seq::new(
                us.len(),
                |j: int|
                    if (i / (pow2((us.len() - 1 - j) as nat) as int)) % 2 == 1 {
                        us[j]
                    } else {
                        1
                    },
            ));
            assert(i * 1 + 0 == i);
            assert(wg[i] == w * g[i]);
            assert(wx[i] == w * pow(x, i as nat));
            let (l, y) = (g[i], pow(x, i as nat));
            assert(w * (l + (z * y) * u) == w * l + (z * u) * (w * y)) by (nonlinear_arith);
        }
    }
    sums::law_sum(generators);
    let (sg, sx) = (arith::seq_sum(wg), arith::seq_sum(wx));
    assert(sx == b);
    assert(c * (sg + (z * u) * b) == c * sg + (z * (b * c)) * u) by (nonlinear_arith);
}

/// The mask's terms are on generators that there are.
proof fn lemma_mask_places<'a, C: CurveAffine>(opening: IpaOpening<'a, C>)
    requires
        opening.wf(),
    ensures
        forall|t: int|
            0 <= t < opening.s_poly@.len() ==> (#[trigger] opening.s_poly@[t]).0
                < opening.params.g@.len(),
{
    let k = opening.params.k as nat;
    lemma_pow2_pos(k);
    assert forall|t: int| 0 <= t < opening.s_poly@.len() implies (#[trigger] opening.s_poly@[t]).0
        < opening.params.g@.len() by {
        if t > 0 {
            assert(opening.s_poly@[(t - 1) + 1].0 == pow2((t - 1) as nat));
            lemma_pow2_strictly_increases((t - 1) as nat, k);
        }
    }
}

} // verus!
