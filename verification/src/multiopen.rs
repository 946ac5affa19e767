//! The prover of a batch of openings, as steps between which challenges are drawn.
use crate::arith;
use crate::blind::Blind;
use crate::collapse;
use crate::collapse::{collapse_polynomials, fold_polynomials, power_vector};
use crate::curve;
use crate::curve::CurveAffine;
use crate::division;
use crate::fft;
use crate::field::Field;
use crate::multiexp;
use crate::params::Params;
use crate::poly;
use crate::poly::{Coeff, Polynomial, copy_values};
use crate::qprime;
use crate::qprime::{
    PreparedQPrime, PreparedQPrimeEvaluation, evaluate_polynomial_with_powers,
    evaluate_polynomials_with_side_work, finish_q_prime_evaluation, prepare_q_prime,
    prepare_q_prime_evaluation,
};
use crate::queries;
use crate::queries::{PolynomialPointer, ProverIntermediateSets, ProverQuery, intermediate_sets};
use vstd::arithmetic::mul::*;
use vstd::arithmetic::power::*;
use vstd::arithmetic::power2::*;
use vstd::prelude::*;

verus! {

/// Why there is no opening.
#[derive(Clone, Copy, Debug, PartialEq, Eq, Structural)]
pub enum OpeningError {
    /// There are no queries, or two are the same.
    InvalidQueries,
}

/// The polynomials with a set's number, in order.
pub open spec fn members<'a, C: CurveAffine>(
    commitments: Seq<(PolynomialPointer<'a, C>, usize)>,
    s: int,
) -> Seq<PolynomialPointer<'a, C>>
    decreases commitments.len(),
{
    if commitments.len() == 0 {
        Seq::empty()
    } else {
        let before = members(commitments.drop_last(), s);
        if commitments.last().1 == s {
            before.push(commitments.last().0)
        } else {
            before
        }
    }
}

/// The coefficients of the pointed-to polynomials.
pub open spec fn pointer_polys<'a, C: CurveAffine>(
    pointers: Seq<PolynomialPointer<'a, C>>,
) -> Seq<Seq<int>> {
    Seq::new(pointers.len(), |j: int| poly::vals(pointers[j].poly.values@))
}

pub open spec fn pointer_blinds<'a, C: CurveAffine>(
    pointers: Seq<PolynomialPointer<'a, C>>,
) -> Seq<int> {
    Seq::new(pointers.len(), |j: int| pointers[j].blind.0.val())
}

/// Whether a polynomial of the parameters' size combines a group, as far as the group's
/// first polynomial goes.
pub open spec fn group_padded<F: Field>(r: Seq<F>, group: Seq<Seq<int>>, x: int, n: int) -> bool {
    &&& group.len() > 0
    &&& r.len() == n
    &&& forall|i: int|
        0 <= i < n ==> (#[trigger] r[i]).val() == if i < group[0].len() {
            arith::descending(collapse::column(group, i), x) % F::order()
        } else {
            0
        }
}

/// Every set has a polynomial.
pub proof fn lemma_members_nonempty<'a, C: CurveAffine>(
    sets: ProverIntermediateSets<'a, C>,
    queries: Seq<ProverQuery<'a, C>>,
    s: int,
)
    requires
        sets.groups(queries),
        0 <= s < sets.point_sets@.len(),
    ensures
        exists|c: int| 0 <= c < sets.commitments@.len() && (#[trigger] sets.commitments@[c]).1 == s,
{
    let ks = queries::keys(queries);
    let all = Seq::new(queries::identities(ks).len(), |c: int| queries::point_set(ks, queries::identities(ks)[c]));
    let listed = qprime::vec_vals(sets.point_sets@);
    queries::lemma_first_seen(all);
    assert(listed.contains(listed[s]));
    assert(queries::first_seen(all).contains(listed[s]));
    let c = choose|c: int| 0 <= c < all.len() && all[c] == listed[s];
    let set = sets.commitments@[c].1;
    assert(listed[set as int] == poly::vals(sets.point_sets@[set as int]@));
    assert(listed[set as int] == listed[s]);
    assert(sets.commitments@[c].1 == s);
}

proof fn lemma_members<'a, C: CurveAffine>(
    commitments: Seq<(PolynomialPointer<'a, C>, usize)>,
    s: int,
    c: int,
)
    requires
        0 <= c < commitments.len(),
        commitments[c].1 == s,
    ensures
        members(commitments, s).len() > 0,
    decreases commitments.len(),
{
    if c < commitments.len() - 1 {
        lemma_members(commitments.drop_last(), s, c);
    }
}

/// A member is one of the polynomials.
proof fn lemma_member_of<'a, C: CurveAffine>(
    commitments: Seq<(PolynomialPointer<'a, C>, usize)>,
    s: int,
    j: int,
)
    requires
        0 <= j < members(commitments, s).len(),
    ensures
        exists|c: int|
            0 <= c < commitments.len() && (#[trigger] commitments[c]).0 == members(commitments, s)[j],
    decreases commitments.len(),
{
    if commitments.len() > 0 {
        let before = members(commitments.drop_last(), s);
        if j < before.len() {
            lemma_member_of(commitments.drop_last(), s, j);
            let c = choose|c: int|
                0 <= c < commitments.drop_last().len() && (#[trigger] commitments.drop_last()[c]).0
                    == before[j];
            assert(commitments[c].0 == before[j]);
        } else {
            assert(commitments[commitments.len() - 1].0 == members(commitments, s)[j]);
        }
    }
}

/// The polynomials of each set, and the combination of their blinds.
fn group_polynomials<'a, C: CurveAffine>(
    commitments: &Vec<(PolynomialPointer<'a, C>, usize)>,
    set_count: usize,
    x_1: C::ScalarExt,
) -> (r: (Vec<Vec<&'a Polynomial<C::ScalarExt, Coeff>>>, Vec<Blind<C::ScalarExt>>))
    requires
        forall|c: int|
            0 <= c < commitments@.len() ==> (#[trigger] commitments@[c]).1 < set_count,
    ensures
        r.0@.len() == set_count,
        r.1@.len() == set_count,
        forall|s: int|
            0 <= s < set_count ==> collapse::poly_vals((#[trigger] r.0@[s])@) == pointer_polys(
                members(commitments@, s),
            ),
        forall|s: int|
            0 <= s < set_count ==> (#[trigger] r.1@[s]).0.val() == arith::descending(
                pointer_blinds(members(commitments@, s)),
                x_1.val(),
            ) % C::ScalarExt::order(),
{
    let ghost q = C::ScalarExt::order();
    let ghost x = x_1.val();
    let mut groups: Vec<Vec<&'a Polynomial<C::ScalarExt, Coeff>>> = Vec::with_capacity(set_count);
    let mut blinds: Vec<Blind<C::ScalarExt>> = Vec::with_capacity(set_count);
    proof {
        C::ScalarExt::lemma_order();
        arith::lemma_mod_small(0, q);
        assert(commitments@.take(0) =~= Seq::<(PolynomialPointer<'a, C>, usize)>::empty());
    }
    while groups.len() < set_count
        invariant
            groups@.len() <= set_count,
            blinds@.len() == groups@.len(),
            forall|s: int| 0 <= s < groups@.len() ==> (#[trigger] groups@[s])@.len() == 0,
            forall|s: int| 0 <= s < groups@.len() ==> (#[trigger] blinds@[s]).0.val() == 0,
        decreases set_count - groups@.len(),
    {
        groups.push(Vec::new());
        blinds.push(Blind(C::ScalarExt::zero()));
    }
    let mut c: usize = 0;
    proof {
        assert forall|s: int| 0 <= s < set_count implies collapse::poly_vals((#[trigger] groups@[s])@)
            == pointer_polys(members(commitments@.take(0), s)) by {
            assert(collapse::poly_vals(groups@[s]@) =~= pointer_polys(members(commitments@.take(0), s)));
        }
        assert forall|s: int| 0 <= s < set_count implies (#[trigger] blinds@[s]).0.val()
            == arith::descending(pointer_blinds(members(commitments@.take(0), s)), x) % q by {
            assert(pointer_blinds(members(commitments@.take(0), s)) =~= Seq::<int>::empty());
        }
    }
    while c < commitments.len()
        invariant
            c <= commitments@.len(),
            q == C::ScalarExt::order(),
            q > 2,
            x == x_1.val(),
            groups@.len() == set_count,
            blinds@.len() == set_count,
            forall|d: int|
                0 <= d < commitments@.len() ==> (#[trigger] commitments@[d]).1 < set_count,
            forall|s: int|
                0 <= s < set_count ==> collapse::poly_vals((#[trigger] groups@[s])@) == pointer_polys(
                    members(commitments@.take(c as int), s),
                ),
            forall|s: int|
                0 <= s < set_count ==> (#[trigger] blinds@[s]).0.val() == arith::descending(
                    pointer_blinds(members(commitments@.take(c as int), s)),
                    x,
                ) % q,
        decreases commitments@.len() - c,
    {
        assert(commitments@[c as int].1 < set_count);
        let (commitment, set_index) = commitments[c];
        let ghost (g0, b0) = (groups@, blinds@);
        groups[set_index].push(commitment.poly);
        let raised = blinds[set_index].mul(Blind(x_1));
        blinds[set_index] = raised.add(commitment.blind);
        proof {
            let (before, after) = (commitments@.take(c as int), commitments@.take(c + 1));
            assert(after.drop_last() =~= before);
            let m = members(before, set_index as int);
            let d = arith::descending(pointer_blinds(m), x);
            let b = commitment.blind.0.val();
            arith::lemma_mod_mul(d, x, q);
            arith::lemma_mod_add(d * x, b, q);
            assert(pointer_blinds(m.push(commitment)) =~= pointer_blinds(m).push(b));
            arith::lemma_descending_push(pointer_blinds(m), x, b);
            assert forall|s: int| 0 <= s < set_count implies collapse::poly_vals((#[trigger] groups@[s])@)
                == pointer_polys(members(after, s)) by {
                if s == set_index {
                    assert(groups@[s]@ =~= g0[s]@.push(commitment.poly));
                    assert(collapse::poly_vals(groups@[s]@) =~= collapse::poly_vals(g0[s]@).push(
                        poly::vals(commitment.poly.values@),
                    ));
                    assert(pointer_polys(m.push(commitment)) =~= pointer_polys(m).push(
                        poly::vals(commitment.poly.values@),
                    ));
                } else {
                    assert(groups@[s] == g0[s]);
                }
            }
            assert forall|s: int| 0 <= s < set_count implies (#[trigger] blinds@[s]).0.val()
                == arith::descending(pointer_blinds(members(after, s)), x) % q by {
                if s != set_index {
                    assert(blinds@[s] == b0[s]);
                }
            }
        }
        c += 1;
    }
    assert(commitments@.take(c as int) =~= commitments@);
    (groups, blinds)
}

/// Extends a polynomial with zeros.
fn pad<F: Field>(values: &mut Vec<F>, n: usize)
    requires
        old(values)@.len() <= n,
    ensures
        final(values)@.len() == n,
        forall|i: int|
            0 <= i < n ==> (#[trigger] final(values)@[i]).val() == collapse::coeff_at(
                poly::vals(old(values)@),
                i,
            ),
{
    let ghost before = values@;
    while values.len() < n
        invariant
            before.len() <= values@.len() <= n,
            forall|i: int|
                0 <= i < values@.len() ==> (#[trigger] values@[i]).val() == collapse::coeff_at(
                    poly::vals(before),
                    i,
                ),
        decreases n - values@.len(),
    {
        values.push(F::zero());
    }
}

/// A batch of openings, with the polynomials of each set of points combined.
pub struct MultiopenOpening<'a, C: CurveAffine> {
    pub params: &'a Params<C>,
    pub point_sets: Vec<Vec<C::ScalarExt>>,
    pub q_polys: Vec<Polynomial<C::ScalarExt, Coeff>>,
    pub q_blinds: Vec<Blind<C::ScalarExt>>,
    pub q_prime: PreparedQPrime<C::ScalarExt>,
    pub q_prime_blind: Blind<C::ScalarExt>,
    pub x_2: C::ScalarExt,
}

impl<'a, C: CurveAffine> MultiopenOpening<'a, C> {
    pub open spec fn wf(&self) -> bool {
        &&& self.params.wf()
        &&& self.q_polys@.len() == self.point_sets@.len()
        &&& self.q_blinds@.len() == self.point_sets@.len()
        &&& forall|s: int|
            0 <= s < self.q_polys@.len() ==> (#[trigger] self.q_polys@[s]).values@.len()
                == self.params.n
        &&& self.q_prime.polynomial.values@.len() == self.params.n
        &&& exists|quotients: Seq<Seq<int>>| #[trigger]
            self.q_prime.prepared(
                qprime::owned_vals(self.q_polys@),
                qprime::vec_vals(self.point_sets@),
                self.x_2.val(),
                self.params.n as int,
                quotients,
            )
    }

    /// Whether the combined polynomials and blinds are those of the grouped queries.
    pub open spec fn combines(
        &self,
        sets: ProverIntermediateSets<'a, C>,
        queries: Seq<ProverQuery<'a, C>>,
        x_1: int,
    ) -> bool {
        &&& sets.groups(queries)
        &&& qprime::vec_vals(self.point_sets@) == queries::point_sets_of(queries::keys(queries))
        &&& forall|s: int|
            0 <= s < self.q_polys@.len() ==> group_padded(
                (#[trigger] self.q_polys@[s]).values@,
                pointer_polys(members(sets.commitments@, s)),
                x_1,
                self.params.n as int,
            )
        &&& forall|s: int|
            0 <= s < self.q_blinds@.len() ==> (#[trigger] self.q_blinds@[s]).0.val() == arith::descending(
                pointer_blinds(members(sets.commitments@, s)),
                x_1,
            ) % C::ScalarExt::order()
    }

    /// Combines the queries' polynomials with the first challenge and their quotients with
    /// the second. The first message is the commitment to the combined quotient.
    pub fn new(
        params: &'a Params<C>,
        queries: &Vec<ProverQuery<'a, C>>,
        x_1: C::ScalarExt,
        x_2: C::ScalarExt,
        q_prime_blind: Blind<C::ScalarExt>,
    ) -> (r: Result<(Self, C), OpeningError>)
        requires
            params.wf(),
            forall|i: int|
                0 <= i < queries@.len() ==> (#[trigger] queries@[i]).commitment.poly.values@.len()
                    <= params.n,
            forall|s: int|
                0 <= s < queries::point_sets_of(queries::keys(queries@)).len() ==> (#[trigger] queries::point_sets_of(
                    queries::keys(queries@),
                )[s]).len() <= params.n,
        ensures
            r is Err <==> queries@.len() == 0 || exists|k: int|
                0 <= k < queries@.len() && #[trigger] queries::repeats(queries::keys(queries@), k),
            r matches Ok((opening, commitment)) ==> {
                &&& opening.wf()
                &&& opening.params == params
                &&& opening.x_2 == x_2
                &&& opening.q_prime_blind == q_prime_blind
                &&& exists|sets: ProverIntermediateSets<'a, C>| #[trigger]
                    opening.combines(sets, queries@, x_1.val())
                &&& commitment.on_curve()
                &&& curve::log(commitment) == params.committed(
                    poly::vals(opening.q_prime.polynomial.values@),
                    q_prime_blind.0.val(),
                )
            },
    {
        let ghost q = C::ScalarExt::order();
        let ghost ks = queries::keys(queries@);
        let n: usize = params.n as usize;
        let sets = match intermediate_sets(queries) {
            None => {
                return Err(OpeningError::InvalidQueries);
            },
            Some(sets) => sets,
        };
        proof {
            lemma2_to64();
            lemma_pow2_strictly_increases(params.k as nat, 32);
            assert forall|c: int| 0 <= c < sets.commitments@.len() implies (#[trigger] sets.commitments@[c]).1
                < sets.point_sets@.len() by {
                let (pointer, set) = sets.commitments@[c];
            }
        }
        let set_count: usize = sets.point_sets.len();
        let (groups, q_blinds) = group_polynomials(&sets.commitments, set_count, x_1);
        proof {
            assert forall|s: int| 0 <= s < groups@.len() implies (#[trigger] groups@[s])@.len() > 0 by {
                lemma_members_nonempty(sets, queries@, s);
                let c = choose|c: int|
                    0 <= c < sets.commitments@.len() && (#[trigger] sets.commitments@[c]).1 == s;
                lemma_members(sets.commitments@, s, c);
                assert(collapse::poly_vals(groups@[s]@).len() == groups@[s]@.len());
                assert(pointer_polys(members(sets.commitments@, s)).len() > 0);
            }
        }
        let mut q_polys = collapse_polynomials(&groups, x_1);
        let ghost collapsed = q_polys@;
        let mut s: usize = 0;
        proof {
            assert forall|t: int| 0 <= t < collapsed.len() implies (#[trigger] collapsed[t]).values@.len()
                <= n by {
                let m = members(sets.commitments@, t);
                assert(groups@[t]@.len() > 0);
                assert(collapse::poly_vals(groups@[t]@) == pointer_polys(m));
                assert(pointer_polys(m).len() == m.len());
                assert(collapse::poly_vals(groups@[t]@).len() == groups@[t]@.len());
                lemma_member_of(sets.commitments@, t, 0);
                let c = choose|c: int|
                    0 <= c < sets.commitments@.len() && (#[trigger] sets.commitments@[c]).0 == m[0];
                let (pointer, set) = sets.commitments@[c];
                assert(queries::first_pointer(queries@, pointer));
                let i = choose|i: int|
                    0 <= i < queries@.len() && (#[trigger] queries@[i]).commitment == pointer
                        && forall|j: int|
                        0 <= j < i ==> (#[trigger] queries@[j]).commitment.identity
                            != pointer.identity;
                assert(queries@[i].commitment.poly.values@.len() <= n);
            }
        }
        while s < q_polys.len()
            invariant
                s <= q_polys@.len(),
                q_polys@.len() == collapsed.len(),
                forall|t: int| 0 <= t < collapsed.len() ==> (#[trigger] collapsed[t]).values@.len() <= n,
                forall|t: int| s <= t < q_polys@.len() ==> #[trigger] q_polys@[t] == collapsed[t],
                forall|t: int|
                    0 <= t < s ==> (#[trigger] q_polys@[t]).values@.len() == n && forall|i: int|
                        0 <= i < n ==> (#[trigger] q_polys@[t].values@[i]).val() == collapse::coeff_at(
                            poly::vals(collapsed[t].values@),
                            i,
                        ),
            decreases q_polys@.len() - s,
        {
            assert(collapsed[s as int].values@.len() <= n);
            let mut padded: Vec<C::ScalarExt> = copy_values(q_polys[s].values.as_slice());
            pad(&mut padded, n);
            q_polys[s] = Polynomial::new(padded);
            s += 1;
        }
        let point_sets = sets.point_sets;
        let ghost listed = qprime::vec_vals(point_sets@);
        proof {
            assert forall|t: int| 0 <= t < q_polys@.len() implies (#[trigger] point_sets@[t])@.len()
                <= q_polys@[t].values@.len() && point_sets@[t]@.len() < usize::MAX by {
                assert(listed[t].len() <= n);
                assert(queries::point_sets_of(ks)[t].len() <= params.n);
                assert(q_polys@[t].values@.len() == n);
            }
        }
        let q_prime = prepare_q_prime(&point_sets, &q_polys, x_2, n);
        let commitment = params.commit(&q_prime.polynomial, q_prime_blind);
        let opening = MultiopenOpening {
            params,
            point_sets,
            q_polys,
            q_blinds,
            q_prime,
            q_prime_blind,
            x_2,
        };
        proof {
            assert forall|t: int| 0 <= t < q_polys@.len() implies group_padded(
                (#[trigger] opening.q_polys@[t]).values@,
                pointer_polys(members(sets.commitments@, t)),
                x_1.val(),
                params.n as int,
            ) by {
                let group = pointer_polys(members(sets.commitments@, t));
                assert(collapse::poly_vals(groups@[t]@) == group);
                assert(groups@[t]@.len() > 0);
                assert(collapse::group_collapsed(collapsed[t].values@, group, x_1.val()));
            }
            assert(opening.combines(sets, queries@, x_1.val()));
            let quotients = choose|quotients: Seq<Seq<int>>| #[trigger]
                q_prime.prepared(
                    qprime::owned_vals(q_polys@),
                    qprime::vec_vals(point_sets@),
                    x_2.val(),
                    n as int,
                    quotients,
                );
            assert(opening.q_prime.prepared(
                qprime::owned_vals(opening.q_polys@),
                qprime::vec_vals(opening.point_sets@),
                opening.x_2.val(),
                params.n as int,
                quotients,
            ));
            assert(opening.wf());
        }
        Ok((opening, commitment))
    }

    /// Takes the third challenge: the combined polynomials' values there, which are the next
    /// messages, and that of the combined quotient.
    pub fn evaluate(self, x_3: C::ScalarExt) -> (r: EvaluatedOpening<'a, C>)
        requires
            self.wf(),
        ensures
            r.wf(),
            r.opening == self,
            r.x_3 == x_3,
    {
        let ghost q = C::ScalarExt::order();
        let ghost x = x_3.val();
        let n: usize = self.params.n as usize;
        let powers = power_vector(x_3, n);
        let ghost quotients = choose|quotients: Seq<Seq<int>>| #[trigger]
            self.q_prime.prepared(
                qprime::owned_vals(self.q_polys@),
                qprime::vec_vals(self.point_sets@),
                self.x_2.val(),
                self.params.n as int,
                quotients,
            );
        proof {
            C::ScalarExt::lemma_order();
        }
        assert forall|t: int| 0 <= t < self.q_polys@.len() implies (
        #[trigger] self.q_polys@[t]).values@.len() <= powers@.len() by {}
        let point_sets = &self.point_sets;
        let remainders = &self.q_prime.monomial_remainders;
        let side_work = || -> (prepared: Option<PreparedQPrimeEvaluation<C::ScalarExt>>)
            requires
                point_sets@.len() == remainders@.len(),
            ensures
                prepared matches Some(prepared) ==> qprime::terms_fit(
                    prepared.terms@,
                    qprime::vec_vals(point_sets@),
                    qprime::vec_vals(remainders@),
                    x_3.val(),
                ),
            { prepare_q_prime_evaluation(point_sets, remainders, x_3) };
        let (q_evaluations, prepared) = evaluate_polynomials_with_side_work(
            &self.q_polys,
            &powers,
            side_work,
        );
        proof {
            assert forall|t: int| 0 <= t < self.q_polys@.len() implies (
            #[trigger] q_evaluations@[t]).val() == arith::poly_at(poly::vals(self.q_polys@[t].values@), x)
                % q by {
                assert(self.q_polys@[t].values@.len() == n);
                qprime::lemma_dot_powers(poly::vals(self.q_polys@[t].values@), powers@, x);
            }
        }
        let ghost qp = poly::vals(self.q_prime.polynomial.values@);
        // The remainders give the combined quotient's value, outside the queried points.
        let q_prime_evaluation = match prepared {
            Some(prepared) => {
                let value = finish_q_prime_evaluation(&prepared, &q_evaluations, self.x_2);
                proof {
                    let polys = qprime::owned_vals(self.q_polys@);
                    assert forall|t: int| 0 <= t < self.point_sets@.len() implies (
                    #[trigger] quotients[t]).len() <= n by {
                        assert(polys[t].len() == self.q_polys@[t].values@.len());
                        assert(division::divides(
                            polys[t],
                            qprime::vec_vals(self.point_sets@)[t],
                            quotients[t],
                            qprime::vec_vals(self.q_prime.monomial_remainders@)[t],
                            q,
                        ));
                    }
                    assert forall|t: int| 0 <= t < polys.len() implies (
                    #[trigger] q_evaluations@[t]).val() == arith::poly_at(polys[t], x) % q by {}
                    qprime::law_q_prime_evaluation(
                        self.q_prime,
                        prepared,
                        polys,
                        qprime::vec_vals(self.point_sets@),
                        quotients,
                        self.x_2.val(),
                        n as int,
                        x,
                        q_evaluations@,
                    );
                }
                value
            },
            None => {
                let value = evaluate_polynomial_with_powers(
                    self.q_prime.polynomial.values.as_slice(),
                    &powers,
                );
                proof {
                    qprime::lemma_dot_powers(qp, powers@, x);
                }
                value
            },
        };
        EvaluatedOpening { opening: self, x_3, powers, q_evaluations, q_prime_evaluation }
    }
}

/// A batch of openings with the values at the third challenge.
pub struct EvaluatedOpening<'a, C: CurveAffine> {
    pub opening: MultiopenOpening<'a, C>,
    pub x_3: C::ScalarExt,
    pub powers: Vec<C::ScalarExt>,
    pub q_evaluations: Vec<C::ScalarExt>,
    pub q_prime_evaluation: C::ScalarExt,
}

/// The one polynomial that is opened in the end, with its blind and its value.
pub struct CombinedOpening<C: CurveAffine> {
    pub p_poly: Polynomial<C::ScalarExt, Coeff>,
    pub p_blind: Blind<C::ScalarExt>,
    pub x_3: C::ScalarExt,
    pub powers: Vec<C::ScalarExt>,
    pub p_evaluation: C::ScalarExt,
}

impl<'a, C: CurveAffine> EvaluatedOpening<'a, C> {
    pub open spec fn wf(&self) -> bool {
        let q = C::ScalarExt::order();
        &&& self.opening.wf()
        &&& self.powers@.len() == self.opening.params.n
        &&& fft::powers_of(self.powers@, self.x_3.val())
        &&& self.q_evaluations@.len() == self.opening.q_polys@.len()
        &&& forall|s: int|
            0 <= s < self.q_evaluations@.len() ==> (#[trigger] self.q_evaluations@[s]).val()
                == arith::poly_at(poly::vals(self.opening.q_polys@[s].values@), self.x_3.val()) % q
        &&& self.q_prime_evaluation.val() == arith::poly_at(
            poly::vals(self.opening.q_prime.polynomial.values@),
            self.x_3.val(),
        ) % q
    }

    /// The combined quotient and the combined polynomials.
    pub open spec fn parts(&self) -> Seq<Seq<int>> {
        seq![poly::vals(self.opening.q_prime.polynomial.values@)] + qprime::owned_vals(self.opening.q_polys@)
    }

    pub open spec fn blinds(&self) -> Seq<int> {
        seq![self.opening.q_prime_blind.0.val()] + Seq::new(
            self.opening.q_blinds@.len(),
            |s: int| self.opening.q_blinds@[s].0.val(),
        )
    }

    /// Takes the fourth challenge: the combined quotient and the combined polynomials become
    /// one polynomial, to be opened at the third.
    pub fn combine(self, x_4: C::ScalarExt) -> (r: CombinedOpening<C>)
        requires
            self.wf(),
        ensures
            r.x_3 == self.x_3,
            r.powers == self.powers,
            r.p_poly.values@.len() == self.opening.params.n,
            forall|i: int|
                0 <= i < r.p_poly.values@.len() ==> (#[trigger] r.p_poly.values@[i]).val()
                    == arith::descending(collapse::column(self.parts(), i), x_4.val()) % C::ScalarExt::order(),
            r.p_blind.0.val() == arith::descending(self.blinds(), x_4.val()) % C::ScalarExt::order(),
            r.p_evaluation.val() == arith::poly_at(poly::vals(r.p_poly.values@), self.x_3.val())
                % C::ScalarExt::order(),
    {
        let ghost q = C::ScalarExt::order();
        let ghost me = self;
        let ghost (x, y) = (self.x_3.val(), x_4.val());
        let ghost n = self.opening.params.n as int;
        let EvaluatedOpening { opening, x_3, powers, q_evaluations, q_prime_evaluation } = self;
        let MultiopenOpening {
            params,
            point_sets: _,
            q_polys,
            q_blinds,
            q_prime,
            q_prime_blind,
            x_2: _,
        } = opening;
        let ghost parts = me.parts();
        let ghost values = Seq::new(parts.len(), |j: int| arith::poly_at(parts[j], x));
        let ghost blinds = me.blinds();
        let mut p_evaluation = q_prime_evaluation;
        let mut p_blind = q_prime_blind;
        let mut s: usize = 0;
        proof {
            C::ScalarExt::lemma_order();
            assert(values.take(1) =~= Seq::<int>::empty().push(values[0]));
            arith::lemma_descending_push(Seq::empty(), y, values[0]);
            assert(blinds.take(1) =~= Seq::<int>::empty().push(blinds[0]));
            arith::lemma_descending_push(Seq::empty(), y, blinds[0]);
            lemma_mul_basics(y);
            C::ScalarExt::lemma_val(q_prime_blind.0);
            arith::lemma_mod_small(q_prime_blind.0.val(), q);
        }
        while s < q_evaluations.len()
            invariant
                s <= q_evaluations@.len(),
                me.wf(),
                q_evaluations == me.q_evaluations,
                q_blinds == me.opening.q_blinds,
                q == C::ScalarExt::order(),
                q > 2,
                x == me.x_3.val(),
                y == x_4.val(),
                parts == me.parts(),
                values == Seq::new(parts.len(), |j: int| arith::poly_at(parts[j], x)),
                blinds == me.blinds(),
                p_evaluation.val() == arith::descending(values.take(s + 1), y) % q,
                p_blind.0.val() == arith::descending(blinds.take(s + 1), y) % q,
            decreases q_evaluations@.len() - s,
        {
            let raised = p_evaluation.mul(x_4);
            p_evaluation = raised.add(q_evaluations[s]);
            let raised_blind = p_blind.mul(Blind(x_4));
            p_blind = raised_blind.add(q_blinds[s]);
            proof {
                let (d, e) = (arith::descending(values.take(s + 1), y), arith::descending(blinds.take(s + 1), y));
                let (v, b) = (values[s + 1], blinds[s + 1]);
                assert(values.take(s + 2) =~= values.take(s + 1).push(v));
                assert(blinds.take(s + 2) =~= blinds.take(s + 1).push(b));
                arith::lemma_descending_push(values.take(s + 1), y, v);
                arith::lemma_descending_push(blinds.take(s + 1), y, b);
                assert(parts[s + 1] == poly::vals(me.opening.q_polys@[s as int].values@));
                assert(q_evaluations@[s as int].val() == v % q);
                assert(b == q_blinds@[s as int].0.val());
                arith::lemma_mod_mul(d, y, q);
                arith::lemma_mod_mul(e, y, q);
                arith::lemma_mod_add(d * y, v, q);
                arith::lemma_mod_add(e * y, b, q);
            }
            s += 1;
        }
        proof {
            assert(values.take(s + 1) =~= values);
            assert(blinds.take(s + 1) =~= blinds);
            assert forall|j: int| 0 <= j < q_polys@.len() implies (#[trigger] q_polys@[j]).values@.len()
                == q_prime.polynomial.values@.len() by {
                assert(me.opening.q_polys@[j].values@.len() == n);
            }
        }
        let p_poly = fold_polynomials(q_prime.polynomial, x_4, &q_polys);
        proof {
            let pp = poly::vals(p_poly.values@);
            let exact = Seq::new(n as nat, |i: int| arith::descending(collapse::column(parts, i), y));
            let first = q_prime.polynomial.values@;
            assert(qprime::owned_vals(q_polys@) =~= Seq::new(
                q_polys@.len(),
                |j: int| poly::vals(q_polys@[j].values@),
            ));
            assert forall|i: int| 0 <= i < n implies (#[trigger] p_poly.values@[i]).val() == exact[i]
                % q by {
                assert(seq![first[i].val()] + collapse::column(qprime::owned_vals(q_polys@), 0 + i) =~= collapse::column(
                    parts,
                    i,
                ));
            }
            assert forall|i: int| 0 <= i < pp.len() implies arith::eqm(#[trigger] pp[i], exact[i], q) by {
                assert(pp[i] == p_poly.values@[i].val());
                arith::lemma_mod_range(exact[i], q);
            }
            arith::lemma_poly_at_eqm(pp, exact, x, x, q);
            assert forall|j: int| 0 <= j < parts.len() implies (#[trigger] parts[j]).len() <= n by {
                if j > 0 {
                    assert(me.opening.q_polys@[j - 1].values@.len() == n);
                }
            }
            qprime::lemma_combined_value(parts, n as nat, y, x);
            assert(Seq::new(parts.len(), |j: int| arith::poly_at(parts[j], x)) =~= values);
        }
        CombinedOpening { p_poly, p_blind, x_3, powers, p_evaluation }
    }
}

/// An inner product of a combination is the combination of the inner products.
pub proof fn lemma_combined_dot(qs: Seq<Seq<int>>, n: nat, x: int, b: Seq<int>)
    requires
        forall|j: int| 0 <= j < qs.len() ==> (#[trigger] qs[j]).len() == n,
        b.len() == n,
    ensures
        multiexp::dot(Seq::new(n, |i: int| arith::descending(collapse::column(qs, i), x)), b) == arith::descending(
            Seq::new(qs.len(), |j: int| multiexp::dot(qs[j], b)),
            x,
        ),
    decreases qs.len(),
{
    let s = Seq::new(n, |i: int| arith::descending(collapse::column(qs, i), x));
    let v = Seq::new(qs.len(), |j: int| multiexp::dot(qs[j], b));
    if qs.len() == 0 {
        assert forall|i: int| 0 <= i < s.len() implies #[trigger] s[i] == 0 by {
            assert(collapse::column(qs, i) =~= Seq::<int>::empty());
        }
        multiexp::lemma_dot_zero(s, b);
    } else {
        let f = qs.drop_last();
        let t = qs.last();
        assert(t == qs[qs.len() - 1]);
        lemma_combined_dot(f, n, x, b);
        let u = Seq::new(n, |i: int| arith::descending(collapse::column(f, i), x));
        let exact = Seq::new(t.len(), |i: int| t[i] + x * u[i]);
        assert forall|i: int| 0 <= i < n implies s[i] == exact[i] by {
            assert(collapse::column(qs, i) =~= collapse::column(f, i).push(t[i]));
            arith::lemma_descending_push(collapse::column(f, i), x, t[i]);
            lemma_mul_is_commutative(x, u[i]);
        }
        assert(s =~= exact);
        multiexp::lemma_dot_linear(t, u, x, b);
        let g = Seq::new(f.len(), |j: int| multiexp::dot(f[j], b));
        assert(v =~= g.push(multiexp::dot(t, b)));
        arith::lemma_descending_push(g, x, multiexp::dot(t, b));
        lemma_mul_is_commutative(x, arith::descending(g, x));
    }
}

/// The commitment to the polynomial that is opened in the end is the combination of the
/// commitments to its parts, with the same challenge.
pub proof fn law_combined_commitment<'a, C: CurveAffine>(
    evaluated: EvaluatedOpening<'a, C>,
    combined: CombinedOpening<C>,
    x_4: int,
)
    requires
        evaluated.wf(),
        combined.p_poly.values@.len() == evaluated.opening.params.n,
        forall|i: int|
            0 <= i < combined.p_poly.values@.len() ==> (#[trigger] combined.p_poly.values@[i]).val()
                == arith::descending(collapse::column(evaluated.parts(), i), x_4) % C::ScalarExt::order(),
        combined.p_blind.0.val() == arith::descending(evaluated.blinds(), x_4) % C::ScalarExt::order(),
    ensures
        arith::eqm(
            evaluated.opening.params.committed(
                poly::vals(combined.p_poly.values@),
                combined.p_blind.0.val(),
            ),
            arith::descending(
                Seq::new(
                    evaluated.parts().len(),
                    |j: int|
                        evaluated.opening.params.committed(
                            evaluated.parts()[j],
                            evaluated.blinds()[j],
                        ),
                ),
                x_4,
            ),
            C::ScalarExt::order(),
        ),
{
    let q = C::ScalarExt::order();
    C::ScalarExt::lemma_order();
    let params = evaluated.opening.params;
    let n = params.n as nat;
    let (parts, blinds) = (evaluated.parts(), evaluated.blinds());
    let b = curve::logs(params.g@);
    let w = curve::log(params.w);
    let pp = poly::vals(combined.p_poly.values@);
    let exact = Seq::new(n, |i: int| arith::descending(collapse::column(parts, i), x_4));
    assert forall|i: int| 0 <= i < pp.len() implies arith::eqm(#[trigger] pp[i], exact[i], q) by {
        assert(pp[i] == combined.p_poly.values@[i].val());
        arith::lemma_mod_range(exact[i], q);
    }
    multiexp::lemma_dot_eqm(pp, b, exact, b, q);
    assert forall|j: int| 0 <= j < parts.len() implies (#[trigger] parts[j]).len() == n by {
        if j > 0 {
            assert(evaluated.opening.q_polys@[j - 1].values@.len() == n);
        }
    }
    lemma_combined_dot(parts, n, x_4, b);
    let d = arith::descending(blinds, x_4);
    arith::lemma_mod_range(d, q);
    arith::lemma_eqm_mul(combined.p_blind.0.val(), d, w, w, q);
    let dots = Seq::new(parts.len(), |j: int| multiexp::dot(parts[j], b));
    arith::lemma_eqm_add(multiexp::dot(pp, b), arith::descending(dots, x_4), combined.p_blind.0.val() * w, d * w, q);
    arith::lemma_mod_range(multiexp::dot(pp, b) + combined.p_blind.0.val() * w, q);
    lemma_descending_sum(dots, blinds, w, x_4);
    let sums = Seq::new(parts.len(), |j: int| dots[j] + blinds[j] * w);
    let commitments = Seq::new(parts.len(), |j: int| params.committed(parts[j], blinds[j]));
    assert forall|j: int| 0 <= j < sums.len() implies arith::eqm(#[trigger] sums[j], commitments[j], q) by {
        arith::lemma_mod_range(sums[j], q);
    }
    arith::lemma_descending_eqm(sums, commitments, x_4, x_4, q);
}

pub proof fn lemma_descending_sum(a: Seq<int>, b: Seq<int>, w: int, x: int)
    requires
        a.len() == b.len(),
    ensures
        arith::descending(Seq::new(a.len(), |j: int| a[j] + b[j] * w), x) == arith::descending(a, x)
            + arith::descending(b, x) * w,
    decreases a.len(),
{
    let s = Seq::new(a.len(), |j: int| a[j] + b[j] * w);
    if a.len() > 0 {
        let (f, g) = (a.drop_last(), b.drop_last());
        lemma_descending_sum(f, g, w, x);
        assert(s.drop_last() =~= Seq::new(f.len(), |j: int| f[j] + g[j] * w));
        let (d, e, u, v) = (arith::descending(f, x), arith::descending(g, x), a.last(), b.last());
        assert((d + e * w) * x + (u + v * w) == (d * x + u) + (e * x + v) * w) by (nonlinear_arith);
    } else {
        lemma_mul_basics(w);
    }
}

} // verus!
