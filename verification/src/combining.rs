//! What the later steps of a batch of openings combine.
use crate::arith;
use crate::collapse;
use crate::curve;
use crate::curve::CurveAffine;
use crate::division;
use crate::field::Field;
use crate::multiopen;
use crate::multiopen::{CombinedOpening, EvaluatedOpening, MultiopenOpening};
use crate::params::Params;
use crate::poly;
use crate::poly::{Coeff, Polynomial};
use crate::qprime;
use crate::qprime::{PreparedQPrime, QPrimeEvaluationTerm};
use crate::sums;
use vstd::arithmetic::mul::*;
use vstd::arithmetic::power::*;
use vstd::prelude::*;

verus! {

/// The vanishing polynomial of points is the product of the distances from them.
pub proof fn law_vanishing_product(points: Seq<int>, x: int)
    ensures
        division::vanishing_at(points, x) == Seq::new(points.len(), |i: int| x - points[i]).fold_left(
            1int,
            |a: int, b: int| a * b,
        ),
    decreases points.len(),
{
    let t = Seq::new(points.len(), |i: int| x - points[i]);
    if points.len() > 0 {
        let f = points.drop_last();
        law_vanishing_product(f, x);
        assert(t.drop_last() =~= Seq::new(f.len(), |i: int| x - f[i]));
    }
}

/// The vanishing polynomial of points is zero at each of them.
pub proof fn law_vanishing_at_points(points: Seq<int>, i: int)
    requires
        0 <= i < points.len(),
    ensures
        division::vanishing_at(points, points[i]) == 0,
    decreases points.len(),
{
    let f = points.drop_last();
    let x = points[i];
    if i < f.len() {
        law_vanishing_at_points(f, i);
        lemma_mul_basics(x - points.last());
    } else {
        lemma_mul_basics(division::vanishing_at(f, x));
    }
}

/// The combined quotient of a batch of openings: each group's polynomial is a quotient times
/// the product of the distances from the group's points, plus a remainder of fewer
/// coefficients than there are points, which has the polynomial's value at each point; and
/// the combined quotient is the sum of the quotients, each times a power of the second
/// challenge, the last with the power zero.
pub proof fn law_combined_quotient<'a, C: CurveAffine>(opening: MultiopenOpening<'a, C>) -> (
    quotients: Seq<Seq<int>>)
    requires
        opening.wf(),
    ensures
        quotients.len() == opening.point_sets@.len(),
        opening.q_prime.monomial_remainders@.len() == opening.point_sets@.len(),
        forall|s: int|
            0 <= s < quotients.len() ==> {
                &&& (#[trigger] quotients[s]).len() + opening.point_sets@[s]@.len()
                    == opening.params.n
                &&& opening.q_prime.monomial_remainders@[s]@.len() == opening.point_sets@[s]@.len()
            },
        forall|s: int, x: int|
            0 <= s < quotients.len() ==> arith::poly_at(poly::vals(opening.q_polys@[s].values@), x)
                % C::ScalarExt::order() == (#[trigger] arith::poly_at(quotients[s], x) * Seq::new(
                opening.point_sets@[s]@.len(),
                |i: int| x - opening.point_sets@[s]@[i].val(),
            ).fold_left(1int, |a: int, b: int| a * b) + arith::poly_at(
                poly::vals(opening.q_prime.monomial_remainders@[s]@),
                x,
            )) % C::ScalarExt::order(),
        forall|s: int, i: int|
            0 <= s < quotients.len() && 0 <= i < opening.point_sets@[s]@.len() ==> arith::poly_at(
                poly::vals(opening.q_prime.monomial_remainders@[s]@),
                (#[trigger] opening.point_sets@[s]@[i]).val(),
            ) % C::ScalarExt::order() == arith::poly_at(
                poly::vals(opening.q_polys@[s].values@),
                opening.point_sets@[s]@[i].val(),
            ) % C::ScalarExt::order(),
        opening.q_prime.polynomial.values@.len() == opening.params.n,
        forall|i: int|
            0 <= i < opening.params.n ==> (
            #[trigger] opening.q_prime.polynomial.values@[i]).val() == Seq::new(
                quotients.len(),
                |s: int|
                    (if i < quotients[s].len() {
                        quotients[s][i]
                    } else {
                        0
                    }) * pow(opening.x_2.val(), (quotients.len() - 1 - s) as nat),
            ).fold_left(0int, |a: int, b: int| a + b) % C::ScalarExt::order(),
{
    let p = C::ScalarExt::order();
    C::ScalarExt::lemma_order();
    let polys = qprime::owned_vals(opening.q_polys@);
    let sets = qprime::vec_vals(opening.point_sets@);
    let rems = qprime::vec_vals(opening.q_prime.monomial_remainders@);
    let quotients = choose|quotients: Seq<Seq<int>>| #[trigger]
        opening.q_prime.prepared(
            polys,
            sets,
            opening.x_2.val(),
            opening.params.n as int,
            quotients,
        );
    assert(rems.len() == opening.q_prime.monomial_remainders@.len());
    assert forall|s: int| 0 <= s < quotients.len() implies {
        &&& (#[trigger] quotients[s]).len() + opening.point_sets@[s]@.len() == opening.params.n
        &&& opening.q_prime.monomial_remainders@[s]@.len() == opening.point_sets@[s]@.len()
    } by {
        assert(division::divides(polys[s], sets[s], quotients[s], rems[s], p));
        assert(polys[s].len() == opening.q_polys@[s].values@.len());
        assert(rems[s].len() == opening.q_prime.monomial_remainders@[s]@.len());
        assert(sets[s].len() == opening.point_sets@[s]@.len());
    }
    assert forall|s: int, x: int| 0 <= s < quotients.len() implies arith::poly_at(
        poly::vals(opening.q_polys@[s].values@),
        x,
    ) % p == (#[trigger] arith::poly_at(quotients[s], x) * Seq::new(
        opening.point_sets@[s]@.len(),
        |i: int| x - opening.point_sets@[s]@[i].val(),
    ).fold_left(1int, |a: int, b: int| a * b) + arith::poly_at(
        poly::vals(opening.q_prime.monomial_remainders@[s]@),
        x,
    )) % p by {
        assert(division::divides(polys[s], sets[s], quotients[s], rems[s], p));
        assert(polys[s] == poly::vals(opening.q_polys@[s].values@));
        assert(rems[s] == poly::vals(opening.q_prime.monomial_remainders@[s]@));
        law_vanishing_product(sets[s], x);
        assert(Seq::new(sets[s].len(), |i: int| x - sets[s][i]) =~= Seq::new(
            opening.point_sets@[s]@.len(),
            |i: int| x - opening.point_sets@[s]@[i].val(),
        ));
        assert(arith::eqm(
            arith::poly_at(polys[s], x),
            arith::poly_at(quotients[s], x) * division::vanishing_at(sets[s], x) + arith::poly_at(rems[s], x),
            p,
        ));
    }
    assert forall|s: int, i: int|
        0 <= s < quotients.len() && 0 <= i < opening.point_sets@[s]@.len() implies arith::poly_at(
        poly::vals(opening.q_prime.monomial_remainders@[s]@),
        (#[trigger] opening.point_sets@[s]@[i]).val(),
    ) % p == arith::poly_at(poly::vals(opening.q_polys@[s].values@), opening.point_sets@[s]@[i].val()) % p by {
        let x = opening.point_sets@[s]@[i].val();
        assert(division::divides(polys[s], sets[s], quotients[s], rems[s], p));
        assert(polys[s] == poly::vals(opening.q_polys@[s].values@));
        assert(rems[s] == poly::vals(opening.q_prime.monomial_remainders@[s]@));
        assert(sets[s][i] == x);
        law_vanishing_at_points(sets[s], i);
        lemma_mul_basics(arith::poly_at(quotients[s], x));
        assert(arith::eqm(
            arith::poly_at(polys[s], x),
            arith::poly_at(quotients[s], x) * division::vanishing_at(sets[s], x) + arith::poly_at(rems[s], x),
            p,
        ));
    }
    assert forall|i: int| 0 <= i < opening.params.n implies (
    #[trigger] opening.q_prime.polynomial.values@[i]).val() == Seq::new(
        quotients.len(),
        |s: int|
            (if i < quotients[s].len() {
                quotients[s][i]
            } else {
                0
            }) * pow(opening.x_2.val(), (quotients.len() - 1 - s) as nat),
    ).fold_left(0int, |a: int, b: int| a + b) % p by {
        let c = collapse::column(quotients, i);
        let x = opening.x_2.val();
        sums::law_descending_powers(c, x);
        assert(Seq::new(c.len(), |j: int| c[j] * pow(x, (c.len() - 1 - j) as nat)) =~= Seq::new(
            quotients.len(),
            |s: int|
                (if i < quotients[s].len() {
                    quotients[s][i]
                } else {
                    0
                }) * pow(opening.x_2.val(), (quotients.len() - 1 - s) as nat),
        ));
    }
    quotients
}

/// The values that are sent are those of the groups' polynomials at the third challenge, and
/// the value that goes with them is that of the combined quotient there.
pub proof fn law_sent_values<'a, C: CurveAffine>(evaluated: EvaluatedOpening<'a, C>, s: int)
    requires
        evaluated.wf(),
        0 <= s < evaluated.opening.q_polys@.len(),
    ensures
        evaluated.q_evaluations@.len() == evaluated.opening.q_polys@.len(),
        evaluated.q_evaluations@[s].val() == Seq::new(
            evaluated.opening.q_polys@[s].values@.len(),
            |i: int|
                evaluated.opening.q_polys@[s].values@[i].val() * pow(
                    evaluated.x_3.val(),
                    i as nat,
                ),
        ).fold_left(0int, |a: int, b: int| a + b) % C::ScalarExt::order(),
        evaluated.q_prime_evaluation.val() == Seq::new(
            evaluated.opening.q_prime.polynomial.values@.len(),
            |i: int|
                evaluated.opening.q_prime.polynomial.values@[i].val() * pow(
                    evaluated.x_3.val(),
                    i as nat,
                ),
        ).fold_left(0int, |a: int, b: int| a + b) % C::ScalarExt::order(),
{
    let w = poly::vals(evaluated.opening.q_prime.polynomial.values@);
    sums::law_polynomial_value(w, evaluated.x_3.val());
    assert(Seq::new(w.len(), |i: int| w[i] * pow(evaluated.x_3.val(), i as nat)) =~= Seq::new(
        evaluated.opening.q_prime.polynomial.values@.len(),
        |i: int|
            evaluated.opening.q_prime.polynomial.values@[i].val() * pow(
                evaluated.x_3.val(),
                i as nat,
            ),
    ));
    let v = poly::vals(evaluated.opening.q_polys@[s].values@);
    sums::law_polynomial_value(v, evaluated.x_3.val());
    assert(Seq::new(v.len(), |i: int| v[i] * pow(evaluated.x_3.val(), i as nat)) =~= Seq::new(
        evaluated.opening.q_polys@[s].values@.len(),
        |i: int|
            evaluated.opening.q_polys@[s].values@[i].val() * pow(evaluated.x_3.val(), i as nat),
    ));
    let e = evaluated.q_evaluations@[s];
}

/// The polynomial that is opened in the end is the sum of the combined quotient and of the
/// groups' polynomials, each times a power of the fourth challenge, the last with the power
/// zero, and so are its blind and the commitment to it.
pub proof fn law_opened_polynomial<'a, C: CurveAffine>(
    evaluated: EvaluatedOpening<'a, C>,
    combined: CombinedOpening<C>,
    x_4: int,
)
    requires
        evaluated.wf(),
        combined.p_poly.values@.len() == evaluated.opening.params.n,
        forall|i: int|
            0 <= i < combined.p_poly.values@.len() ==> (#[trigger] combined.p_poly.values@[i]).val()
                == arith::descending(collapse::column(evaluated.parts(), i), x_4) % C::ScalarExt::order(),
        combined.p_blind.0.val() == arith::descending(evaluated.blinds(), x_4) % C::ScalarExt::order(),
    ensures
        ({
            let m = evaluated.opening.q_polys@.len();
            let q = C::ScalarExt::order();
            let params = evaluated.opening.params;
            let poly = |j: int|
                if j == 0 {
                    evaluated.opening.q_prime.polynomial.values@
                } else {
                    evaluated.opening.q_polys@[j - 1].values@
                };
            let blind = |j: int|
                if j == 0 {
                    evaluated.opening.q_prime_blind.0.val()
                } else {
                    evaluated.opening.q_blinds@[j - 1].0.val()
                };
            &&& forall|i: int|
                0 <= i < params.n ==> (#[trigger] combined.p_poly.values@[i]).val() == Seq::new(
                    m + 1,
                    |j: int| poly(j)[i].val() * pow(x_4, (m - j) as nat),
                ).fold_left(0int, |a: int, b: int| a + b) % q
            &&& combined.p_blind.0.val() == Seq::new(
                m + 1,
                |j: int| blind(j) * pow(x_4, (m - j) as nat),
            ).fold_left(0int, |a: int, b: int| a + b) % q
            &&& params.committed(poly::vals(combined.p_poly.values@), combined.p_blind.0.val())
                == Seq::new(
                m + 1,
                |j: int| params.committed(poly::vals(poly(j)), blind(j)) * pow(x_4, (m - j) as nat),
            ).fold_left(0int, |a: int, b: int| a + b) % q
        }),
{
    let m = evaluated.opening.q_polys@.len();
    let q = C::ScalarExt::order();
    C::ScalarExt::lemma_order();
    let params = evaluated.opening.params;
    let poly = |j: int|
        if j == 0 {
            evaluated.opening.q_prime.polynomial.values@
        } else {
            evaluated.opening.q_polys@[j - 1].values@
        };
    let blind = |j: int|
        if j == 0 {
            evaluated.opening.q_prime_blind.0.val()
        } else {
            evaluated.opening.q_blinds@[j - 1].0.val()
        };
    let (parts, blinds) = (evaluated.parts(), evaluated.blinds());
    assert forall|j: int| 0 <= j < m + 1 implies #[trigger] parts[j] == poly::vals(poly(j)) && blinds[j]
        == blind(j) by {}
    assert forall|i: int| 0 <= i < params.n implies (#[trigger] combined.p_poly.values@[i]).val()
        == Seq::new(m + 1, |j: int| poly(j)[i].val() * pow(x_4, (m - j) as nat)).fold_left(
        0int,
        |a: int, b: int| a + b,
    ) % q by {
        let c = collapse::column(parts, i);
        sums::law_descending_powers(c, x_4);
        assert(Seq::new(c.len(), |j: int| c[j] * pow(x_4, (c.len() - 1 - j) as nat)) =~= Seq::new(
            m + 1,
            |j: int| poly(j)[i].val() * pow(x_4, (m - j) as nat),
        )) by {
            assert forall|j: int| 0 <= j < m + 1 implies #[trigger] c[j] == poly(j)[i].val() by {
                assert(parts[j] == poly::vals(poly(j)));
                if j > 0 {
                    assert(evaluated.opening.q_polys@[j - 1].values@.len() == params.n);
                }
            }
        }
    }
    sums::law_descending_powers(blinds, x_4);
    assert(Seq::new(blinds.len(), |j: int| blinds[j] * pow(x_4, (blinds.len() - 1 - j) as nat))
        =~= Seq::new(m + 1, |j: int| blind(j) * pow(x_4, (m - j) as nat)));
    multiopen::law_combined_commitment(evaluated, combined, x_4);
    let logs_of = Seq::new(parts.len(), |j: int| params.committed(parts[j], blinds[j]));
    sums::law_descending_powers(logs_of, x_4);
    assert(Seq::new(logs_of.len(), |j: int| logs_of[j] * pow(x_4, (logs_of.len() - 1 - j) as nat))
        =~= Seq::new(
        m + 1,
        |j: int| params.committed(poly::vals(poly(j)), blind(j)) * pow(x_4, (m - j) as nat),
    )) by {
        assert forall|j: int| 0 <= j < m + 1 implies #[trigger] logs_of[j] == params.committed(
            poly::vals(poly(j)),
            blind(j),
        ) by {
            assert(parts[j] == poly::vals(poly(j)));
        }
    }
    let committed = params.committed(poly::vals(combined.p_poly.values@), combined.p_blind.0.val());
    arith::lemma_mod_range(committed, q);
    arith::lemma_mod_range(arith::descending(logs_of, x_4), q);
    vstd::arithmetic::div_mod::lemma_mod_twice(
        crate::multiexp::dot(poly::vals(combined.p_poly.values@), curve::logs(params.g@))
            + combined.p_blind.0.val() * curve::log(params.w),
        q,
    );
}

/// A commitment to coefficients is the sum of the generators, each as often as the
/// coefficient at its place says, and of the blind's base as often as the blind says.
pub proof fn law_commitment<C: CurveAffine>(params: Params<C>, c: Seq<int>, blind: int)
    requires
        c.len() == params.g@.len(),
        params.g_lagrange@.len() == params.g@.len(),
    ensures
        params.committed(c, blind) == (Seq::new(
            c.len(),
            |i: int| c[i] * curve::log(params.g@[i]),
        ).fold_left(0int, |a: int, b: int| a + b) + blind * curve::log(params.w)) % C::ScalarExt::order(),
        params.committed_lagrange(c, blind) == (Seq::new(
            c.len(),
            |i: int| c[i] * curve::log(params.g_lagrange@[i]),
        ).fold_left(0int, |a: int, b: int| a + b) + blind * curve::log(params.w)) % C::ScalarExt::order(),
{
    sums::law_inner_product(c, curve::logs(params.g@));
    sums::law_inner_product(c, curve::logs(params.g_lagrange@));
    assert(Seq::new(c.len(), |i: int| c[i] * curve::logs(params.g@)[i]) =~= Seq::new(
        c.len(),
        |i: int| c[i] * curve::log(params.g@[i]),
    ));
    assert(Seq::new(c.len(), |i: int| c[i] * curve::logs(params.g_lagrange@)[i]) =~= Seq::new(
        c.len(),
        |i: int| c[i] * curve::log(params.g_lagrange@[i]),
    ));
}

/// A collapsed group has the length of its first polynomial, and each coefficient is the sum
/// of those of the group, each times a power of the challenge, the last with the power zero.
pub proof fn law_collapsed_group<F: Field>(
    r: Seq<F>,
    group: Seq<&Polynomial<F, Coeff>>,
    x: int,
    i: int,
)
    requires
        group.len() > 0,
        collapse::group_collapsed(r, collapse::poly_vals(group), x),
        0 <= i < r.len(),
    ensures
        r.len() == group[0].values@.len(),
        r[i].val() == Seq::new(
            group.len(),
            |j: int|
                (if i < group[j].values@.len() {
                    group[j].values@[i].val()
                } else {
                    0
                }) * pow(x, (group.len() - 1 - j) as nat),
        ).fold_left(0int, |a: int, b: int| a + b) % F::order(),
{
    let c = collapse::column(collapse::poly_vals(group), i);
    sums::law_descending_powers(c, x);
    assert(Seq::new(c.len(), |j: int| c[j] * pow(x, (c.len() - 1 - j) as nat)) =~= Seq::new(
        group.len(),
        |j: int|
            (if i < group[j].values@.len() {
                group[j].values@[i].val()
            } else {
                0
            }) * pow(x, (group.len() - 1 - j) as nat),
    )) by {
        assert forall|j: int| 0 <= j < group.len() implies #[trigger] c[j] == (if i
            < group[j].values@.len() {
            group[j].values@[i].val()
        } else {
            0
        }) by {
            assert(collapse::poly_vals(group)[j] == poly::vals(group[j].values@));
        }
    }
}

/// Polynomials that are folded into an accumulator leave the accumulator times the highest
/// power of the challenge and each polynomial times the next lower one, the last with the
/// power zero.
pub proof fn law_folded_polynomials<F: Field>(
    after: Seq<F>,
    before: Seq<F>,
    start: int,
    polys: Seq<Seq<int>>,
    x: int,
    o: int,
)
    requires
        collapse::folded(after, before, start, polys, x),
        0 <= o < after.len(),
    ensures
        after.len() == before.len(),
        after[o].val() == (before[o].val() * pow(x, polys.len()) + Seq::new(
            polys.len(),
            |j: int|
                (if 0 <= start + o < polys[j].len() {
                    polys[j][start + o]
                } else {
                    0
                }) * pow(x, (polys.len() - 1 - j) as nat),
        ).fold_left(0int, |a: int, b: int| a + b)) % F::order(),
{
    let c = collapse::column(polys, start + o);
    let all = seq![before[o].val()] + c;
    lemma_descending_first(before[o].val(), c, x);
    sums::law_descending_powers(c, x);
    assert(Seq::new(c.len(), |j: int| c[j] * pow(x, (c.len() - 1 - j) as nat)) =~= Seq::new(
        polys.len(),
        |j: int|
            (if 0 <= start + o < polys[j].len() {
                polys[j][start + o]
            } else {
                0
            }) * pow(x, (polys.len() - 1 - j) as nat),
    ));
    assert(after[o].val() == arith::descending(all, x) % F::order());
}

proof fn lemma_descending_first(a: int, c: Seq<int>, x: int)
    ensures
        arith::descending(seq![a] + c, x) == a * pow(x, c.len()) + arith::descending(c, x),
    decreases c.len(),
{
    let s = seq![a] + c;
    if c.len() == 0 {
        assert(s.drop_last() =~= Seq::<int>::empty());
        lemma_pow0(x);
        lemma_mul_basics(a);
        lemma_mul_basics(x);
        assert(arith::descending(s, x) == arith::descending(s.drop_last(), x) * x + s.last());
    } else {
        let f = c.drop_last();
        lemma_descending_first(a, f, x);
        assert(s.drop_last() =~= seq![a] + f);
        arith::lemma_pow_step(x, f.len());
        let (b, d) = (pow(x, f.len()), arith::descending(f, x));
        assert((a * b + d) * x == a * (x * b) + d * x) by (nonlinear_arith);
    }
}

/// A polynomial is its quotient by points times the product of the distances from them, plus
/// a remainder of fewer coefficients than there are points, which has the polynomial's value
/// at each of them.
pub proof fn law_division<F: Field>(
    polynomial: Seq<F>,
    points: Seq<F>,
    quotient: Seq<F>,
    remainder: Seq<F>,
    x: int,
    i: int,
)
    requires
        division::divides(poly::vals(polynomial), poly::vals(points), poly::vals(quotient), poly::vals(remainder), F::order()),
        0 <= i < points.len(),
    ensures
        quotient.len() + points.len() == polynomial.len(),
        remainder.len() == points.len(),
        arith::poly_at(poly::vals(polynomial), x) % F::order() == (arith::poly_at(poly::vals(quotient), x) * Seq::new(
            points.len(),
            |k: int| x - points[k].val(),
        ).fold_left(1int, |a: int, b: int| a * b) + arith::poly_at(poly::vals(remainder), x)) % F::order(),
        arith::poly_at(poly::vals(remainder), points[i].val()) % F::order() == arith::poly_at(
            poly::vals(polynomial),
            points[i].val(),
        ) % F::order(),
{
    let p = F::order();
    let (a, b, c, d) = (poly::vals(polynomial), poly::vals(points), poly::vals(quotient), poly::vals(remainder));
    law_vanishing_product(b, x);
    assert(Seq::new(b.len(), |k: int| x - b[k]) =~= Seq::new(
        points.len(),
        |k: int| x - points[k].val(),
    ));
    assert(arith::eqm(arith::poly_at(a, x), arith::poly_at(c, x) * division::vanishing_at(b, x) + arith::poly_at(d, x), p));
    let y = points[i].val();
    assert(b[i] == y);
    law_vanishing_at_points(b, i);
    lemma_mul_basics(arith::poly_at(c, y));
    assert(arith::eqm(arith::poly_at(a, y), arith::poly_at(c, y) * division::vanishing_at(b, y) + arith::poly_at(d, y), p));
}

/// The leading coefficients of a polynomial are those of the product of the divisor and the
/// quotient.
pub proof fn law_leading_coefficients(
    polynomial: Seq<int>,
    divisor: Seq<int>,
    quotient: Seq<int>,
    i: int,
    p: int,
)
    requires
        divisor.len() > 0,
        division::leading_fits(polynomial, divisor, quotient, 0, p),
        0 <= i < quotient.len(),
    ensures
        polynomial[i + divisor.len() - 1] % p == Seq::new(
            (i + divisor.len()) as nat,
            |j: int|
                if j < divisor.len() && i + divisor.len() - 1 - j < quotient.len() {
                    divisor[j] * quotient[i + divisor.len() - 1 - j]
                } else {
                    0
                },
        ).fold_left(0int, |a: int, b: int| a + b) % p,
{
    let c = i + divisor.len() - 1;
    assert(division::leading_at(polynomial, divisor, quotient, i, p));
    lemma_convolved(divisor, quotient, c, c + 1);
}

proof fn lemma_convolved(a: Seq<int>, b: Seq<int>, c: int, hi: int)
    requires
        0 <= hi <= c + 1,
    ensures
        division::convolved(a, b, c, 0, hi) == Seq::new(
            hi as nat,
            |j: int|
                if j < a.len() && c - j < b.len() {
                    a[j] * b[c - j]
                } else {
                    0
                },
        ).fold_left(0int, |s: int, t: int| s + t),
    decreases hi,
{
    let t = Seq::new(
        hi as nat,
        |j: int|
            if j < a.len() && c - j < b.len() {
                a[j] * b[c - j]
            } else {
                0
            },
    );
    if hi > 0 {
        lemma_convolved(a, b, c, hi - 1);
        assert(t.drop_last() =~= Seq::new(
            (hi - 1) as nat,
            |j: int|
                if j < a.len() && c - j < b.len() {
                    a[j] * b[c - j]
                } else {
                    0
                },
        ));
        lemma_mul_basics(collapse::coeff_at(a, hi - 1));
        lemma_mul_basics(collapse::coeff_at(b, c - hi + 1));
    }
}

/// The value of a combined quotient from the evaluations: each evaluation less the
/// remainder's value, divided by the product of the distances from the set's points, times a
/// power of the challenge, the last with the power zero.
pub proof fn law_quotient_value<F: Field>(
    terms: Seq<QPrimeEvaluationTerm<F>>,
    sets: Seq<Vec<F>>,
    remainders: Seq<Vec<F>>,
    point: int,
    evaluations: Seq<F>,
    x: int,
    j: int,
)
    requires
        qprime::terms_fit(terms, qprime::vec_vals(sets), qprime::vec_vals(remainders), point),
        remainders.len() == sets.len(),
        evaluations.len() == terms.len(),
        0 <= j < terms.len(),
    ensures
        terms.len() == sets.len(),
        terms[j].remainder.val() == arith::poly_at(poly::vals(remainders[j]@), point) % F::order(),
        (terms[j].vanishing_inverse.val() * Seq::new(
            sets[j]@.len(),
            |i: int| point - sets[j]@[i].val(),
        ).fold_left(1int, |a: int, b: int| a * b)) % F::order() == 1,
        arith::descending(qprime::quotient_values(terms, evaluations), x) == Seq::new(
            terms.len(),
            |k: int|
                (evaluations[k].val() - terms[k].remainder.val())
                    * terms[k].vanishing_inverse.val() * pow(x, (terms.len() - 1 - k) as nat),
        ).fold_left(0int, |a: int, b: int| a + b),
{
    F::lemma_order();
    arith::lemma_mod_small(1, F::order());
    let t = terms[j];
    let s = qprime::vec_vals(sets)[j];
    assert(s == poly::vals(sets[j]@));
    assert(qprime::vec_vals(remainders)[j] == poly::vals(remainders[j]@));
    law_vanishing_product(s, point);
    assert(Seq::new(s.len(), |i: int| point - s[i]) =~= Seq::new(
        sets[j]@.len(),
        |i: int| point - sets[j]@[i].val(),
    ));
    let q = qprime::quotient_values(terms, evaluations);
    sums::law_descending_powers(q, x);
    assert(Seq::new(q.len(), |k: int| q[k] * pow(x, (q.len() - 1 - k) as nat)) =~= Seq::new(
        terms.len(),
        |k: int|
            (evaluations[k].val() - terms[k].remainder.val()) * terms[k].vanishing_inverse.val()
                * pow(x, (terms.len() - 1 - k) as nat),
    ));
}

/// How many elements the quotients take: for each polynomial as many as the longer of it and
/// of the domain.
pub proof fn law_quotient_elements(polynomials: Seq<Seq<int>>, domain_len: int)
    ensures
        qprime::quotient_elements(polynomials, domain_len) == Seq::new(
            polynomials.len(),
            |j: int|
                if polynomials[j].len() < domain_len {
                    domain_len
                } else {
                    polynomials[j].len() as int
                },
        ).fold_left(0int, |a: int, b: int| a + b),
    decreases polynomials.len(),
{
    let t = Seq::new(
        polynomials.len(),
        |j: int|
            if polynomials[j].len() < domain_len {
                domain_len
            } else {
                polynomials[j].len() as int
            },
    );
    if polynomials.len() > 0 {
        let f = polynomials.drop_last();
        law_quotient_elements(f, domain_len);
        assert(t.drop_last() =~= Seq::new(
            f.len(),
            |j: int|
                if f[j].len() < domain_len {
                    domain_len
                } else {
                    f[j].len() as int
                },
        ));
    }
}

/// A prepared quotient has as many coefficients as the domain has rows, each the sum of those
/// of the quotients, each times a power of the challenge, the last with the power zero; and
/// each quotient and remainder are those of a division.
pub proof fn law_prepared_quotient<F: Field>(
    prepared: PreparedQPrime<F>,
    polynomials: Seq<Polynomial<F, Coeff>>,
    sets: Seq<Vec<F>>,
    x: int,
    domain_len: int,
    quotients: Seq<Seq<int>>,
    i: int,
    s: int,
)
    requires
        prepared.prepared(qprime::owned_vals(polynomials), qprime::vec_vals(sets), x, domain_len, quotients),
        polynomials.len() == sets.len(),
        0 <= i < domain_len,
        0 <= s < sets.len(),
    ensures
        quotients.len() == sets.len(),
        prepared.monomial_remainders@.len() == sets.len(),
        prepared.polynomial.values@.len() == domain_len,
        prepared.polynomial.values@[i].val() == Seq::new(
            quotients.len(),
            |j: int|
                (if i < quotients[j].len() {
                    quotients[j][i]
                } else {
                    0
                }) * pow(x, (quotients.len() - 1 - j) as nat),
        ).fold_left(0int, |a: int, b: int| a + b) % F::order(),
        division::divides(
            poly::vals(polynomials[s].values@),
            poly::vals(sets[s]@),
            quotients[s],
            poly::vals(prepared.monomial_remainders@[s]@),
            F::order(),
        ),
{
    let c = collapse::column(quotients, i);
    sums::law_descending_powers(c, x);
    assert(Seq::new(c.len(), |j: int| c[j] * pow(x, (c.len() - 1 - j) as nat)) =~= Seq::new(
        quotients.len(),
        |j: int|
            (if i < quotients[j].len() {
                quotients[j][i]
            } else {
                0
            }) * pow(x, (quotients.len() - 1 - j) as nat),
    ));
    let v = prepared.polynomial.values@[i];
    let q = quotients[s];
    assert(qprime::vec_vals(prepared.monomial_remainders@).len()
        == prepared.monomial_remainders@.len());
    assert(qprime::vec_vals(prepared.monomial_remainders@)[s] == poly::vals(
        prepared.monomial_remainders@[s]@,
    ));
    assert(qprime::vec_vals(sets)[s] == poly::vals(sets[s]@));
    assert(qprime::owned_vals(polynomials)[s] == poly::vals(polynomials[s].values@));
}

} // verus!
