//! What a sum of multiples of points stands for, and how its terms are merged.
use crate::arith;
use crate::curve;
use crate::curve::CurveAffine;
use crate::field::Field;
use crate::msm;
use crate::msm::{ArbitraryTerm, MSM, Term};
use crate::multiexp;
use crate::poly;
use crate::sums;
use vstd::arithmetic::mul::*;
use vstd::prelude::*;

verus! {

proof fn lemma_terms_sum<C: CurveAffine>(terms: Seq<ArbitraryTerm<C>>)
    ensures
        msm::terms_sum::<C>(msm::term_vals::<C>(terms)) == Seq::new(
            terms.len(),
            |i: int| terms[i].1.0.val() * C::log_of((terms[i].0.val(), terms[i].1.1.val())),
        ).fold_left(0int, |a: int, b: int| a + b),
    decreases terms.len(),
{
    let t = Seq::new(
        terms.len(),
        |i: int| terms[i].1.0.val() * C::log_of((terms[i].0.val(), terms[i].1.1.val())),
    );
    if terms.len() > 0 {
        let f = terms.drop_last();
        lemma_terms_sum::<C>(f);
        assert(msm::term_vals::<C>(terms).drop_last() =~= msm::term_vals::<C>(f));
        assert(t.drop_last() =~= Seq::new(
            f.len(),
            |i: int| f[i].1.0.val() * C::log_of((f[i].0.val(), f[i].1.1.val())),
        ));
    }
}

/// A sum stands for all its terms, the merged and the batched ones, each the point with its
/// coordinates as often as its scalar says, and for the multiples of `w`, of `u` and of
/// every generator. What is not there counts zero times.
pub proof fn law_total<'a, C: CurveAffine>(msm: MSM<'a, C>)
    requires
        msm.wf(),
    ensures
        msm.total() == Seq::new(
            msm.other@.len(),
            |i: int|
                msm.other@[i].1.0.val() * C::log_of(
                    (msm.other@[i].0.val(), msm.other@[i].1.1.val()),
                ),
        ).fold_left(0int, |a: int, b: int| a + b) + Seq::new(
            msm.batched_other@.len(),
            |i: int|
                msm.batched_other@[i].1.0.val() * C::log_of(
                    (msm.batched_other@[i].0.val(), msm.batched_other@[i].1.1.val()),
                ),
        ).fold_left(0int, |a: int, b: int| a + b) + (match msm.w_scalar {
            Some(scalar) => scalar.val() * curve::log(msm.params.w),
            None => 0,
        }) + (match msm.u_scalar {
            Some(scalar) => scalar.val() * curve::log(msm.params.u),
            None => 0,
        }) + (match msm.g_scalars {
            Some(scalars) => Seq::new(
                msm.params.n as nat,
                |i: int| scalars@[i].val() * curve::log(msm.params.g@[i]),
            ).fold_left(0int, |a: int, b: int| a + b),
            None => 0,
        }),
{
    lemma_terms_sum::<C>(msm.other@);
    lemma_terms_sum::<C>(msm.batched_other@);
    lemma_mul_basics(curve::log(msm.params.w));
    lemma_mul_basics(curve::log(msm.params.u));
    let g = curve::logs(msm.params.g@);
    match msm.g_scalars {
        Some(scalars) => {
            let v = poly::vals(scalars@);
            sums::law_inner_product(v, g);
            assert(Seq::new(v.len(), |i: int| v[i] * g[i]) =~= Seq::new(
                msm.params.n as nat,
                |i: int| scalars@[i].val() * curve::log(msm.params.g@[i]),
            ));
        },
        None => {
            let z = Seq::new(msm.params.n as nat, |i: int| 0int);
            assert forall|i: int| 0 <= i < z.len() implies #[trigger] z[i] == 0 by {}
            multiexp::lemma_dot_zero(z, g);
        },
    }
}

/// A term is merged with the one that has the same first coordinate, by adding the scalar
/// where the points are the same and by taking it off where they are mirror images, and is
/// put in where there is none. The other terms stay, and the terms stay in the order of the
/// first coordinates.
pub proof fn law_merged_term(terms: Seq<Term>, t: Term, q: int, u: Term)
    requires
        forall|i: int, j: int|
            0 <= i < j < terms.len() ==> (#[trigger] terms[i]).x < (#[trigger] terms[j]).x,
    ensures
        msm::with_term(terms, t, q).contains(u) <==> (u.x != t.x && terms.contains(u)) || (u.x == t.x
            && if exists|i: int| 0 <= i < terms.len() && (#[trigger] terms[i]).x == t.x {
            exists|i: int|
                0 <= i < terms.len() && (#[trigger] terms[i]).x == t.x && u.y == terms[i].y
                    && u.scalar == (if terms[i].y == t.y {
                    terms[i].scalar + t.scalar
                } else {
                    terms[i].scalar - t.scalar
                }) % q
        } else {
            u == t
        }),
    decreases terms.len(),
{
    let r = msm::with_term(terms, t, q);
    if terms.len() == 0 {
        assert(r == seq![t]);
        if u == t {
            assert(r[0] == u);
        }
    } else {
        let rest = terms.skip(1);
        if terms[0].x < t.x {
            assert forall|i: int, j: int| 0 <= i < j < rest.len() implies (#[trigger] rest[i]).x < (
            #[trigger] rest[j]).x by {
                assert(terms[i + 1].x < terms[j + 1].x);
            }
            law_merged_term(rest, t, q, u);
            let tail = msm::with_term(rest, t, q);
            assert(r == seq![terms[0]] + tail);
            assert(r.contains(u) <==> u == terms[0] || tail.contains(u)) by {
                if r.contains(u) {
                    let i = choose|i: int| 0 <= i < r.len() && r[i] == u;
                    if i > 0 {
                        assert(tail[i - 1] == u);
                    }
                }
                if u == terms[0] {
                    assert(r[0] == u);
                }
                if tail.contains(u) {
                    let i = choose|i: int| 0 <= i < tail.len() && tail[i] == u;
                    assert(r[i + 1] == u);
                }
            }
            lemma_rest(terms, u);
            lemma_rest_places(terms, t);
            if exists|i: int|
                0 <= i < terms.len() && (#[trigger] terms[i]).x == t.x && u.y == terms[i].y
                    && u.scalar == (if terms[i].y == t.y {
                    terms[i].scalar + t.scalar
                } else {
                    terms[i].scalar - t.scalar
                }) % q {
                let i = choose|i: int|
                    0 <= i < terms.len() && (#[trigger] terms[i]).x == t.x && u.y == terms[i].y
                        && u.scalar == (if terms[i].y == t.y {
                        terms[i].scalar + t.scalar
                    } else {
                        terms[i].scalar - t.scalar
                    }) % q;
                assert(rest[i - 1] == terms[i]);
            }
            if exists|i: int|
                0 <= i < rest.len() && (#[trigger] rest[i]).x == t.x && u.y == rest[i].y && u.scalar
                    == (if rest[i].y == t.y {
                    rest[i].scalar + t.scalar
                } else {
                    rest[i].scalar - t.scalar
                }) % q {
                let i = choose|i: int|
                    0 <= i < rest.len() && (#[trigger] rest[i]).x == t.x && u.y == rest[i].y
                        && u.scalar == (if rest[i].y == t.y {
                        rest[i].scalar + t.scalar
                    } else {
                        rest[i].scalar - t.scalar
                    }) % q;
                assert(terms[i + 1] == rest[i]);
            }
        } else if terms[0].x == t.x {
            let m = msm::merged(terms[0], t, q);
            assert(r == seq![m] + rest);
            assert forall|i: int| 0 < i < terms.len() implies (#[trigger] terms[i]).x != t.x by {
                assert(terms[0].x < terms[i].x);
            }
            lemma_rest(terms, u);
            assert(r.contains(u) <==> u == m || rest.contains(u)) by {
                if r.contains(u) {
                    let i = choose|i: int| 0 <= i < r.len() && r[i] == u;
                    if i > 0 {
                        assert(rest[i - 1] == u);
                    }
                }
                if u == m {
                    assert(r[0] == u);
                }
                if rest.contains(u) {
                    let i = choose|i: int| 0 <= i < rest.len() && rest[i] == u;
                    assert(r[i + 1] == u);
                }
            }
            if rest.contains(u) {
                let i = choose|i: int| 0 <= i < rest.len() && rest[i] == u;
                assert(terms[i + 1] == u);
            }
            assert(terms[0].x == t.x);
        } else {
            assert(r == seq![t] + terms);
            assert forall|i: int| 0 <= i < terms.len() implies (#[trigger] terms[i]).x != t.x by {
                if i > 0 {
                    assert(terms[0].x < terms[i].x);
                }
            }
            if r.contains(u) {
                let i = choose|i: int| 0 <= i < r.len() && r[i] == u;
                if i > 0 {
                    assert(terms[i - 1] == u);
                }
            }
            if u == t {
                assert(r[0] == u);
            }
            if terms.contains(u) {
                let i = choose|i: int| 0 <= i < terms.len() && terms[i] == u;
                assert(r[i + 1] == u);
            }
        }
    }
}

proof fn lemma_rest(terms: Seq<Term>, u: Term)
    requires
        terms.len() > 0,
    ensures
        terms.contains(u) <==> u == terms[0] || terms.skip(1).contains(u),
{
    let rest = terms.skip(1);
    if terms.contains(u) {
        let i = choose|i: int| 0 <= i < terms.len() && terms[i] == u;
        if i > 0 {
            assert(rest[i - 1] == u);
        }
    }
    if rest.contains(u) {
        let i = choose|i: int| 0 <= i < rest.len() && rest[i] == u;
        assert(terms[i + 1] == u);
    }
    assert(terms[0] == terms[0]);
}

proof fn lemma_rest_places(terms: Seq<Term>, t: Term)
    requires
        terms.len() > 0,
        terms[0].x != t.x,
    ensures
        (exists|i: int| 0 <= i < terms.len() && (#[trigger] terms[i]).x == t.x) <==> exists|i: int|
            0 <= i < terms.skip(1).len() && (#[trigger] terms.skip(1)[i]).x == t.x,
{
    let rest = terms.skip(1);
    if exists|i: int| 0 <= i < terms.len() && (#[trigger] terms[i]).x == t.x {
        let i = choose|i: int| 0 <= i < terms.len() && (#[trigger] terms[i]).x == t.x;
        assert(rest[i - 1].x == t.x);
    }
    if exists|i: int| 0 <= i < rest.len() && (#[trigger] rest[i]).x == t.x {
        let i = choose|i: int| 0 <= i < rest.len() && (#[trigger] rest[i]).x == t.x;
        assert(terms[i + 1].x == t.x);
    }
}

/// The scalars of the fixed bases, in the order of the generators, `w` and `u`. What is not
/// there counts zero times.
pub proof fn law_fixed_scalars<'a, C: CurveAffine>(msm: MSM<'a, C>, i: int)
    requires
        msm.wf(),
        0 <= i < msm.params.n,
    ensures
        msm.fixed_scalars().len() == msm.params.n + 2,
        msm.g_vals().len() == msm.params.n,
        msm.g_vals()[i] == (match msm.g_scalars {
            Some(scalars) => scalars@[i].val(),
            None => 0,
        }),
        msm.fixed_scalars()[i] == msm.g_vals()[i],
        msm.fixed_scalars()[msm.params.n as int] == (match msm.w_scalar {
            Some(scalar) => scalar.val(),
            None => 0,
        }),
        msm.fixed_scalars()[msm.params.n + 1] == (match msm.u_scalar {
            Some(scalar) => scalar.val(),
            None => 0,
        }),
{
}

/// Sums of fixed bases add up base by base.
pub proof fn law_added_scalars<'a, C: CurveAffine>(
    before: MSM<'a, C>,
    other: MSM<'a, C>,
    after: MSM<'a, C>,
    i: int,
)
    requires
        before.wf(),
        other.wf(),
        after.wf(),
        other.params == before.params,
        after.params == before.params,
        before.combined(other.fixed_scalars(), after.fixed_scalars()),
        0 <= i < before.params.n + 2,
    ensures
        after.fixed_scalars()[i] == (before.fixed_scalars()[i] + other.fixed_scalars()[i])
            % C::ScalarExt::order(),
{
}

/// A scalar that is added to one that may not be there leaves the sum.
pub proof fn law_added_scalar<F: Field>(before: Option<F>, scalar: F, after: Option<F>)
    requires
        msm::summed(before, scalar, after),
    ensures
        after is Some,
        before matches Some(b) ==> after->0.val() == (b.val() + scalar.val()) % F::order(),
        before is None ==> after->0.val() == scalar.val(),
{
    F::lemma_order();
    F::lemma_val(scalar);
    arith::lemma_mod_small(scalar.val(), F::order());
}

/// Scaled terms are of the same points, each with its scalar times the factor.
pub proof fn law_scaled_terms<C: CurveAffine>(
    after: Seq<ArbitraryTerm<C>>,
    before: Seq<ArbitraryTerm<C>>,
    factor: int,
    i: int,
)
    requires
        msm::scaled_terms::<C>(after, before, factor),
        0 <= i < before.len(),
    ensures
        after.len() == before.len(),
        after[i].0.val() == before[i].0.val(),
        after[i].1.1.val() == before[i].1.1.val(),
        after[i].1.0.val() == (before[i].1.0.val() * factor) % C::ScalarExt::order(),
{
    let t = msm::term_val::<C>(after[i]);
}

/// Terms are merged one after the other, and merged terms are in the order of their first
/// coordinates, which are all different.
pub proof fn law_merged_terms(terms: Seq<Term>, more: Seq<Term>, t: Term, q: int)
    requires
        forall|i: int, j: int|
            0 <= i < j < terms.len() ==> (#[trigger] terms[i]).x < (#[trigger] terms[j]).x,
    ensures
        msm::with_terms(terms, Seq::empty(), q) == terms,
        msm::with_terms(terms, more.push(t), q) == msm::with_term(msm::with_terms(terms, more, q), t, q),
        forall|i: int, j: int|
            0 <= i < j < msm::with_terms(terms, more, q).len() ==> (#[trigger] msm::with_terms(
                terms,
                more,
                q,
            )[i]).x < (#[trigger] msm::with_terms(terms, more, q)[j]).x,
{
    assert(more.push(t).drop_last() =~= more);
    msm::lemma_with_terms_sorted(terms, more, q);
}

/// Merged terms of a list are what is left when the list is merged into nothing, and the
/// values of a term are its coordinates and its scalar.
pub proof fn law_canonical_terms<C: CurveAffine>(terms: Seq<ArbitraryTerm<C>>, q: int, i: int)
    requires
        0 <= i < terms.len(),
    ensures
        msm::canonical(msm::term_vals::<C>(terms), q) == msm::with_terms(
            Seq::empty(),
            msm::term_vals::<C>(terms),
            q,
        ),
        msm::term_vals::<C>(terms).len() == terms.len(),
        msm::term_vals::<C>(terms)[i].x == terms[i].0.val(),
        msm::term_vals::<C>(terms)[i].scalar == terms[i].1.0.val(),
        msm::term_vals::<C>(terms)[i].y == terms[i].1.1.val(),
{
}

} // verus!
