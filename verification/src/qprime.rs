//! The combined quotient polynomial of a batch of openings.
use crate::arith;
use crate::collapse;
use crate::collapse::fold_polynomial_range;
use crate::division;
use crate::division::divide_by_vanishing_polynomial;
use crate::fft;
use crate::field::Field;
use crate::multiexp;
use crate::poly;
use crate::poly::{Coeff, Polynomial};
use vstd::arithmetic::mul::*;
use vstd::arithmetic::power::*;
use vstd::prelude::*;

verus! {

/// Keep no more than this many bytes of quotients at a time.
pub const MAX_PARALLEL_Q_PRIME_BYTES: usize = 8_388_608;

/// The bytes of a field element.
pub const FIELD_BYTES: usize = 32;

/// The combined quotient and what each division left over.
#[derive(Debug)]
pub struct PreparedQPrime<F: Field> {
    pub polynomial: Polynomial<F, Coeff>,
    pub monomial_remainders: Vec<Vec<F>>,
}

/// What one opening adds to the value of the combined quotient.
#[derive(Clone, Copy, Debug)]
pub struct QPrimeEvaluationTerm<F: Field> {
    pub remainder: F,
    pub vanishing_inverse: F,
}

/// The terms of the combined quotient's value, but for the openings' evaluations.
#[derive(Debug)]
pub struct PreparedQPrimeEvaluation<F: Field> {
    pub terms: Vec<QPrimeEvaluationTerm<F>>,
}

/// The values in a sequence of sequences.
pub open spec fn vec_vals<F: Field>(s: Seq<Vec<F>>) -> Seq<Seq<int>> {
    Seq::new(s.len(), |j: int| poly::vals(s[j]@))
}

/// The coefficients of polynomials.
pub open spec fn owned_vals<F: Field>(s: Seq<Polynomial<F, Coeff>>) -> Seq<Seq<int>> {
    Seq::new(s.len(), |j: int| poly::vals(s[j].values@))
}

/// Whether each quotient and remainder is that of the opening's division.
pub open spec fn all_divide(
    polynomials: Seq<Seq<int>>,
    sets: Seq<Seq<int>>,
    quotients: Seq<Seq<int>>,
    remainders: Seq<Seq<int>>,
    p: int,
) -> bool {
    &&& quotients.len() == sets.len()
    &&& remainders.len() == sets.len()
    &&& forall|j: int|
        0 <= j < sets.len() ==> division::divides(
            polynomials[j],
            sets[j],
            #[trigger] quotients[j],
            remainders[j],
            p,
        )
}

impl<F: Field> PreparedQPrime<F> {
    /// The first `domain_len` coefficients of the combination of the openings' quotients,
    /// and the remainders.
    pub open spec fn prepared(
        &self,
        polynomials: Seq<Seq<int>>,
        sets: Seq<Seq<int>>,
        x: int,
        domain_len: int,
        quotients: Seq<Seq<int>>,
    ) -> bool {
        &&& all_divide(
            polynomials,
            sets,
            quotients,
            vec_vals(self.monomial_remainders@),
            F::order(),
        )
        &&& self.polynomial.values@.len() == domain_len
        &&& forall|i: int|
            0 <= i < domain_len ==> (#[trigger] self.polynomial.values@[i]).val() == arith::descending(
                collapse::column(quotients, i),
                x,
            ) % F::order()
    }
}

/// The value of a polynomial from the powers of the point.
pub fn evaluate_polynomial_with_powers<F: Field>(values: &[F], powers: &Vec<F>) -> (r: F)
    requires
        values@.len() <= powers@.len(),
    ensures
        r.val() == multiexp::dot(poly::vals(values@), poly::vals(powers@)) % F::order(),
{
    let ghost s = poly::vals(values@);
    let ghost w = poly::vals(powers@);
    let mut accumulator = F::accumulator();
    let mut i: usize = 0;
    proof {
        F::lemma_order();
        assert(terms_of(s, w, 0) =~= Seq::<int>::empty());
        arith::lemma_mod_small(0, F::order());
    }
    while i < values.len()
        invariant
            i <= values@.len(),
            values@.len() <= powers@.len(),
            s == poly::vals(values@),
            w == poly::vals(powers@),
            F::order() > 2,
            F::accumulated(accumulator) == arith::seq_sum(terms_of(s, w, i as int)) % F::order(),
            F::carries(accumulator) <= i,
        decreases values@.len() - i,
    {
        F::mul_accumulate(&mut accumulator, &values[i], &powers[i]);
        proof {
            let terms = terms_of(s, w, i as int);
            let t = s[i as int] * w[i as int];
            assert(terms_of(s, w, i + 1) =~= terms.push(t));
            arith::lemma_sum_push_mod(terms, t, F::order());
        }
        i += 1;
    }
    proof {
        lemma_terms_of(s, w, i as int);
        assert(s.take(i as int) =~= s);
    }
    F::reduce(accumulator)
}

/// The terms of an inner product.
spec fn terms_of(s: Seq<int>, w: Seq<int>, k: int) -> Seq<int> {
    Seq::new(k as nat, |i: int| s[i] * w[i])
}

proof fn lemma_terms_of(s: Seq<int>, w: Seq<int>, k: int)
    requires
        0 <= k <= s.len(),
    ensures
        arith::seq_sum(terms_of(s, w, k)) == multiexp::dot(s.take(k), w),
    decreases k,
{
    if k > 0 {
        lemma_terms_of(s, w, k - 1);
        assert(terms_of(s, w, k).drop_last() =~= terms_of(s, w, k - 1));
        assert(s.take(k).drop_last() =~= s.take(k - 1));
    }
}

/// With the powers of a point, the inner product is the value at the point.
pub proof fn lemma_dot_powers<F: Field>(s: Seq<int>, powers: Seq<F>, x: int)
    requires
        s.len() <= powers.len(),
        fft::powers_of(powers, x),
    ensures
        arith::eqm(multiexp::dot(s, poly::vals(powers)), arith::poly_at(s, x), F::order()),
    decreases s.len(),
{
    F::lemma_order();
    let p = F::order();
    if s.len() > 0 {
        let f = s.drop_last();
        lemma_dot_powers(f, powers, x);
        let e = (s.len() - 1) as nat;
        let q = pow(x, e);
        let t = s.last();
        assert(powers[e as int].val() == q % p);
        arith::lemma_mod_range(q, p);
        arith::lemma_eqm_mul(t, t, q % p, q, p);
        arith::lemma_eqm_add(multiexp::dot(f, poly::vals(powers)), arith::poly_at(f, x), t * (q % p), t * q, p);
    }
}

/// The values of polynomials at a point, and the result of work that does not depend on
/// them.
pub fn evaluate_polynomials_with_side_work<F: Field, T, W: FnOnce() -> T>(
    polynomials: &Vec<Polynomial<F, Coeff>>,
    powers: &Vec<F>,
    side_work: W,
) -> (r: (Vec<F>, T))
    requires
        forall|j: int|
            0 <= j < polynomials@.len() ==> (#[trigger] polynomials@[j]).values@.len()
                <= powers@.len(),
        side_work.requires(()),
    ensures
        r.0@.len() == polynomials@.len(),
        forall|j: int|
            0 <= j < polynomials@.len() ==> (#[trigger] r.0@[j]).val() == multiexp::dot(
                poly::vals(polynomials@[j].values@),
                poly::vals(powers@),
            ) % F::order(),
        side_work.ensures((), r.1),
{
    let mut evaluations: Vec<F> = Vec::with_capacity(polynomials.len());
    let mut j: usize = 0;
    while j < polynomials.len()
        invariant
            j <= polynomials@.len(),
            evaluations@.len() == j,
            forall|k: int|
                0 <= k < polynomials@.len() ==> (#[trigger] polynomials@[k]).values@.len()
                    <= powers@.len(),
            forall|k: int|
                0 <= k < j ==> (#[trigger] evaluations@[k]).val() == multiexp::dot(
                    poly::vals(polynomials@[k].values@),
                    poly::vals(powers@),
                ) % F::order(),
        decreases polynomials@.len() - j,
    {
        assert(polynomials@[j as int].values@.len() <= powers@.len());
        let value = evaluate_polynomial_with_powers(polynomials[j].values.as_slice(), powers);
        evaluations.push(value);
        j += 1;
    }
    (evaluations, side_work())
}

/// The difference of a point to each of the points, multiplied.
fn vanishing_value<F: Field>(points: &Vec<F>, point: F) -> (r: F)
    ensures
        r.val() == division::vanishing_at(poly::vals(points@), point.val()) % F::order(),
{
    let ghost s = poly::vals(points@);
    let ghost p = F::order();
    let mut value = F::one();
    let mut i: usize = 0;
    proof {
        F::lemma_order();
        assert(s.take(0) =~= Seq::<int>::empty());
        arith::lemma_mod_small(1, p);
    }
    while i < points.len()
        invariant
            i <= points@.len(),
            s == poly::vals(points@),
            p == F::order(),
            p > 2,
            value.val() == division::vanishing_at(s.take(i as int), point.val()) % p,
        decreases points@.len() - i,
    {
        let difference = point.sub(points[i]);
        proof {
            let a = division::vanishing_at(s.take(i as int), point.val());
            let b = point.val() - s[i as int];
            assert(s.take(i + 1).drop_last() =~= s.take(i as int));
            arith::lemma_mod_mul(a, b, p);
        }
        value = value.mul(difference);
        i += 1;
    }
    assert(s.take(i as int) =~= s);
    value
}

/// A value of a polynomial by Horner's rule.
pub fn eval_polynomial<F: Field>(values: &[F], point: F) -> (r: F)
    ensures
        r.val() == arith::poly_at(poly::vals(values@), point.val()) % F::order(),
{
    let ghost s = poly::vals(values@);
    let ghost p = F::order();
    let ghost x = point.val();
    let mut value = F::zero();
    let mut i: usize = values.len();
    proof {
        F::lemma_order();
        assert(s.skip(i as int) =~= Seq::<int>::empty());
        arith::lemma_mod_small(0, p);
    }
    while i > 0
        invariant
            i <= values@.len(),
            s == poly::vals(values@),
            p == F::order(),
            p > 2,
            x == point.val(),
            value.val() == arith::poly_at(s.skip(i as int), x) % p,
        decreases i,
    {
        i -= 1;
        let raised = value.mul(point);
        proof {
            let a = arith::poly_at(s.skip(i + 1), x);
            assert(s.skip(i as int).skip(1) =~= s.skip(i + 1));
            arith::lemma_poly_at_first(s.skip(i as int), x);
            arith::lemma_mod_mul(a, x, p);
            lemma_mul_is_commutative(a, x);
            arith::lemma_mod_add(x * a, s[i as int], p);
        }
        value = raised.add(values[i]);
    }
    assert(s.skip(0) =~= s);
    value
}

/// Divides one opening and pads or cuts the quotient to the domain.
fn prepare_q_prime_term<F: Field>(
    polynomial: &Polynomial<F, Coeff>,
    points: &Vec<F>,
) -> (r: (Polynomial<F, Coeff>, Vec<F>))
    requires
        points@.len() <= polynomial.values@.len(),
        points@.len() < usize::MAX,
    ensures
        division::divides(
            poly::vals(polynomial.values@),
            poly::vals(points@),
            poly::vals(r.0.values@),
            poly::vals(r.1@),
            F::order(),
        ),
{
    let (quotient, remainder) = divide_by_vanishing_polynomial(polynomial, points.as_slice());
    (Polynomial::new(quotient), remainder)
}

/// Whether the quotients of all openings can be kept at once: each as long as its
/// polynomial, or as the domain where that is longer.
pub fn parallel_q_prime_terms_fit<F: Field>(
    polynomials: &Vec<Polynomial<F, Coeff>>,
    domain_len: usize,
) -> (r: bool)
    ensures
        r == (quotient_elements(owned_vals(polynomials@), domain_len as int) * FIELD_BYTES
            <= MAX_PARALLEL_Q_PRIME_BYTES),
{
    let ghost s = owned_vals(polynomials@);
    let mut elements: usize = 0;
    let mut j: usize = 0;
    assert(s.take(0) =~= Seq::<Seq<int>>::empty());
    while j < polynomials.len()
        invariant
            j <= polynomials@.len(),
            s == owned_vals(polynomials@),
            elements == quotient_elements(s.take(j as int), domain_len as int),
        decreases polynomials@.len() - j,
    {
        let len: usize = polynomials[j].values.len();
        let wider: usize = if len < domain_len {
            domain_len
        } else {
            len
        };
        proof {
            assert(s.take(j + 1).drop_last() =~= s.take(j as int));
            lemma_quotient_elements(s, domain_len as int, j + 1);
            assert(s.take(s.len() as int) =~= s);
        }
        match elements.checked_add(wider) {
            Some(sum) => {
                elements = sum;
            },
            None => {
                return false;
            },
        }
        j += 1;
    }
    assert(s.take(j as int) =~= s);
    match elements.checked_mul(FIELD_BYTES) {
        Some(bytes) => bytes <= MAX_PARALLEL_Q_PRIME_BYTES,
        None => false,
    }
}

/// The field elements that the quotients of all openings take.
pub open spec fn quotient_elements(polynomials: Seq<Seq<int>>, domain_len: int) -> int
    decreases polynomials.len(),
{
    if polynomials.len() == 0 {
        0
    } else {
        let len = polynomials.last().len() as int;
        quotient_elements(polynomials.drop_last(), domain_len) + (if len < domain_len {
            domain_len
        } else {
            len
        })
    }
}

proof fn lemma_quotient_elements(s: Seq<Seq<int>>, domain_len: int, k: int)
    requires
        0 <= k <= s.len(),
        domain_len >= 0,
    ensures
        quotient_elements(s.take(k), domain_len) <= quotient_elements(s, domain_len),
    decreases s.len() - k,
{
    if k < s.len() {
        lemma_quotient_elements(s, domain_len, k + 1);
        assert(s.take(k + 1).drop_last() =~= s.take(k));
    } else {
        assert(s.take(k) =~= s);
    }
}

/// A zero polynomial of the given length.
fn zero_polynomial<F: Field>(len: usize) -> (r: Vec<F>)
    ensures
        r@.len() == len,
        forall|i: int| 0 <= i < len ==> (#[trigger] r@[i]).val() == 0,
{
    let mut values: Vec<F> = Vec::with_capacity(len);
    while values.len() < len
        invariant
            values@.len() <= len,
            forall|i: int| 0 <= i < values@.len() ==> (#[trigger] values@[i]).val() == 0,
        decreases len - values@.len(),
    {
        values.push(F::zero());
    }
    values
}

/// Folds the quotients, in order, into a zero polynomial of the domain's length.
fn fold_q_prime_range<F: Field>(
    quotients: &Vec<Polynomial<F, Coeff>>,
    challenge: F,
    domain_len: usize,
) -> (r: Vec<F>)
    ensures
        r@.len() == domain_len,
        forall|i: int|
            0 <= i < domain_len ==> (#[trigger] r@[i]).val() == arith::descending(
                collapse::column(owned_vals(quotients@), i),
                challenge.val(),
            ) % F::order(),
{
    let mut values = zero_polynomial::<F>(domain_len);
    let ghost before = values@;
    let mut refs: Vec<&Polynomial<F, Coeff>> = Vec::with_capacity(quotients.len());
    let mut j: usize = 0;
    while j < quotients.len()
        invariant
            j <= quotients@.len(),
            refs@.len() == j,
            forall|k: int| 0 <= k < j ==> *(#[trigger] refs@[k]) == quotients@[k],
        decreases quotients@.len() - j,
    {
        refs.push(&quotients[j]);
        j += 1;
    }
    fold_polynomial_range(values.as_mut_slice(), 0, refs.as_slice(), challenge);
    proof {
        assert(collapse::poly_vals(refs@) =~= owned_vals(quotients@));
        assert forall|i: int| 0 <= i < domain_len implies (#[trigger] values@[i]).val()
            == arith::descending(collapse::column(owned_vals(quotients@), i), challenge.val()) % F::order() by {
            let c = collapse::column(owned_vals(quotients@), i);
            let x = challenge.val();
            assert(before[i].val() == 0);
            arith::lemma_descending_concat(seq![0int], c, x);
            assert(seq![0int] =~= Seq::<int>::empty().push(0));
            arith::lemma_descending_push(Seq::empty(), x, 0);
            lemma_mul_basics(x);
            lemma_mul_basics(pow(x, c.len()));
            assert(0 + i == i);
        }
    }
    values
}

/// Divides each opening's polynomial by the one that vanishes at its points, and
/// combines the quotients. Where the quotients fit at once they are kept and folded
/// together; else each is folded and dropped.
pub fn prepare_q_prime<F: Field>(
    point_sets: &Vec<Vec<F>>,
    polynomials: &Vec<Polynomial<F, Coeff>>,
    challenge: F,
    domain_len: usize,
) -> (r: PreparedQPrime<F>)
    requires
        point_sets@.len() == polynomials@.len(),
        forall|j: int|
            0 <= j < polynomials@.len() ==> (#[trigger] point_sets@[j])@.len()
                <= polynomials@[j].values@.len() && point_sets@[j]@.len() < usize::MAX,
    ensures
        exists|quotients: Seq<Seq<int>>| #[trigger]
            r.prepared(
                owned_vals(polynomials@),
                vec_vals(point_sets@),
                challenge.val(),
                domain_len as int,
                quotients,
            ),
{
    let ghost p = F::order();
    let ghost x = challenge.val();
    let ghost s = owned_vals(polynomials@);
    let ghost z = vec_vals(point_sets@);
    let mut monomial_remainders: Vec<Vec<F>> = Vec::with_capacity(polynomials.len());
    let ghost mut qs: Seq<Seq<int>> = Seq::empty();
    let mut j: usize = 0;
    proof {
        F::lemma_order();
    }
    if parallel_q_prime_terms_fit(polynomials, domain_len) {
        let mut quotients: Vec<Polynomial<F, Coeff>> = Vec::with_capacity(polynomials.len());
        while j < polynomials.len()
            invariant
                j <= polynomials@.len(),
                point_sets@.len() == polynomials@.len(),
                forall|k: int|
                    0 <= k < polynomials@.len() ==> (#[trigger] point_sets@[k])@.len()
                        <= polynomials@[k].values@.len() && point_sets@[k]@.len() < usize::MAX,
                p == F::order(),
                s == owned_vals(polynomials@),
                z == vec_vals(point_sets@),
                quotients@.len() == j,
                monomial_remainders@.len() == j,
                forall|k: int|
                    0 <= k < j ==> division::divides(
                        s[k],
                        z[k],
                        poly::vals((#[trigger] quotients@[k]).values@),
                        poly::vals(monomial_remainders@[k]@),
                        p,
                    ),
            decreases polynomials@.len() - j,
        {
            assert(point_sets@[j as int]@.len() <= polynomials@[j as int].values@.len());
            let (quotient, remainder) = prepare_q_prime_term(&polynomials[j], &point_sets[j]);
            quotients.push(quotient);
            monomial_remainders.push(remainder);
            j += 1;
        }
        let values = fold_q_prime_range(&quotients, challenge, domain_len);
        let r = PreparedQPrime { polynomial: Polynomial::new(values), monomial_remainders };
        proof {
            let q = owned_vals(quotients@);
            assert forall|k: int| 0 <= k < z.len() implies division::divides(
                s[k],
                z[k],
                #[trigger] q[k],
                vec_vals(r.monomial_remainders@)[k],
                p,
            ) by {
                let t = quotients@[k];
            }
            assert(r.prepared(s, z, x, domain_len as int, q));
        }
        return r;
    }
    let mut values = zero_polynomial::<F>(domain_len);
    proof {
        assert forall|i: int| 0 <= i < domain_len implies (#[trigger] values@[i]).val()
            == arith::descending(collapse::column(qs, i), x) % p by {
            arith::lemma_mod_small(0, p);
        }
    }
    while j < polynomials.len()
        invariant
            j <= polynomials@.len(),
            point_sets@.len() == polynomials@.len(),
            forall|k: int|
                0 <= k < polynomials@.len() ==> (#[trigger] point_sets@[k])@.len()
                    <= polynomials@[k].values@.len() && point_sets@[k]@.len() < usize::MAX,
            p == F::order(),
            p > 2,
            x == challenge.val(),
            s == owned_vals(polynomials@),
            z == vec_vals(point_sets@),
            qs.len() == j,
            monomial_remainders@.len() == j,
            values@.len() == domain_len,
            forall|k: int|
                0 <= k < j ==> division::divides(
                    s[k],
                    z[k],
                    #[trigger] qs[k],
                    poly::vals(monomial_remainders@[k]@),
                    p,
                ),
            forall|i: int|
                0 <= i < domain_len ==> (#[trigger] values@[i]).val() == arith::descending(
                    collapse::column(qs, i),
                    x,
                ) % p,
        decreases polynomials@.len() - j,
    {
        assert(point_sets@[j as int]@.len() <= polynomials@[j as int].values@.len());
        let (quotient, remainder) = prepare_q_prime_term(&polynomials[j], &point_sets[j]);
        let ghost before = values@;
        let ghost former = qs;
        let mut one: Vec<&Polynomial<F, Coeff>> = Vec::with_capacity(1);
        one.push(&quotient);
        fold_polynomial_range(values.as_mut_slice(), 0, one.as_slice(), challenge);
        proof {
            let q = poly::vals(quotient.values@);
            qs = former.push(q);
            assert(collapse::poly_vals(one@) =~= seq![q]);
            assert forall|i: int| 0 <= i < domain_len implies (#[trigger] values@[i]).val()
                == arith::descending(collapse::column(qs, i), x) % p by {
                let c = collapse::coeff_at(q, i);
                let d = arith::descending(collapse::column(former, i), x);
                assert(before[i].val() == d % p);
                assert(collapse::column(seq![q], 0 + i) =~= seq![c]);
                assert(seq![before[i].val()] + seq![c] =~= seq![before[i].val()].push(c));
                arith::lemma_descending_push(seq![before[i].val()], x, c);
                assert(seq![before[i].val()] =~= Seq::<int>::empty().push(before[i].val()));
                arith::lemma_descending_push(Seq::empty(), x, before[i].val());
                lemma_mul_basics(x);
                assert(collapse::column(qs, i) =~= collapse::column(former, i).push(c));
                arith::lemma_descending_push(collapse::column(former, i), x, c);
                arith::lemma_mod_mul(d, x, p);
                arith::lemma_mod_add((d % p) * x, c, p);
                arith::lemma_mod_add(d * x, c, p);
            }
        }
        monomial_remainders.push(remainder);
        j += 1;
    }
    let r = PreparedQPrime { polynomial: Polynomial::new(values), monomial_remainders };
    proof {
        assert forall|k: int| 0 <= k < z.len() implies division::divides(
            s[k],
            z[k],
            #[trigger] qs[k],
            vec_vals(r.monomial_remainders@)[k],
            p,
        ) by {}
        assert(r.prepared(s, z, x, domain_len as int, qs));
    }
    r
}

/// Whether the terms hold the remainder's value and the inverse of the divisor's, for
/// the first `k` openings.
pub open spec fn terms_fit<F: Field>(
    terms: Seq<QPrimeEvaluationTerm<F>>,
    sets: Seq<Seq<int>>,
    remainders: Seq<Seq<int>>,
    point: int,
) -> bool {
    &&& terms.len() == sets.len()
    &&& forall|j: int|
        0 <= j < terms.len() ==> (#[trigger] terms[j]).remainder.val() == arith::poly_at(
            remainders[j],
            point,
        ) % F::order() && arith::eqm(
            terms[j].vanishing_inverse.val() * division::vanishing_at(sets[j], point),
            1,
            F::order(),
        )
}

/// What the value of the combined quotient at a point needs besides the openings'
/// evaluations. There is none where the point is among an opening's points.
pub fn prepare_q_prime_evaluation<F: Field>(
    point_sets: &Vec<Vec<F>>,
    monomial_remainders: &Vec<Vec<F>>,
    point: F,
) -> (r: Option<PreparedQPrimeEvaluation<F>>)
    requires
        point_sets@.len() == monomial_remainders@.len(),
    ensures
        r is None <==> exists|j: int|
            0 <= j < point_sets@.len() && arith::eqm(
                division::vanishing_at(#[trigger] vec_vals(point_sets@)[j], point.val()),
                0,
                F::order(),
            ),
        r matches Some(prepared) ==> terms_fit(
            prepared.terms@,
            vec_vals(point_sets@),
            vec_vals(monomial_remainders@),
            point.val(),
        ),
{
    let ghost p = F::order();
    let ghost sets = vec_vals(point_sets@);
    let ghost rems = vec_vals(monomial_remainders@);
    let mut inverses: Vec<F> = Vec::with_capacity(point_sets.len());
    let mut j: usize = 0;
    proof {
        F::lemma_order();
        arith::lemma_mod_small(0, p);
    }
    while j < point_sets.len()
        invariant
            j <= point_sets@.len(),
            p == F::order(),
            p > 2,
            0int % p == 0,
            sets == vec_vals(point_sets@),
            inverses@.len() == j,
            forall|k: int|
                0 <= k < j ==> (#[trigger] inverses@[k]).val() == division::vanishing_at(
                    sets[k],
                    point.val(),
                ) % p && inverses@[k].val() != 0,
        decreases point_sets@.len() - j,
    {
        let value = vanishing_value(&point_sets[j], point);
        assert(sets[j as int] == poly::vals(point_sets@[j as int]@));
        if value.is_zero() {
            return None;
        }
        inverses.push(value);
        j += 1;
    }
    let ghost before = inverses@;
    F::batch_invert(&mut inverses);
    let mut terms: Vec<QPrimeEvaluationTerm<F>> = Vec::with_capacity(point_sets.len());
    let mut i: usize = 0;
    while i < point_sets.len()
        invariant
            i <= point_sets@.len(),
            point_sets@.len() == monomial_remainders@.len(),
            inverses@.len() == point_sets@.len(),
            before.len() == inverses@.len(),
            p == F::order(),
            p > 2,
            sets == vec_vals(point_sets@),
            rems == vec_vals(monomial_remainders@),
            forall|k: int|
                0 <= k < before.len() ==> (#[trigger] before[k]).val() == division::vanishing_at(
                    sets[k],
                    point.val(),
                ) % p && before[k].val() != 0,
            forall|k: int|
                0 <= k < before.len() ==> (before[k].val() != 0 ==> (before[k].val()
                    * (#[trigger] inverses@[k]).val()) % p == 1),
            terms@.len() == i,
            forall|k: int|
                0 <= k < i ==> (#[trigger] terms@[k]).remainder.val() == arith::poly_at(
                    rems[k],
                    point.val(),
                ) % p && arith::eqm(
                    terms@[k].vanishing_inverse.val() * division::vanishing_at(sets[k], point.val()),
                    1,
                    p,
                ),
        decreases point_sets@.len() - i,
    {
        let remainder = eval_polynomial(monomial_remainders[i].as_slice(), point);
        let vanishing_inverse = inverses[i];
        proof {
            let a = division::vanishing_at(sets[i as int], point.val());
            let b = vanishing_inverse.val();
            assert(before[i as int].val() == a % p);
            arith::lemma_mod_mul(a, b, p);
            lemma_mul_is_commutative(a, b);
            arith::lemma_mod_small(1, p);
        }
        terms.push(QPrimeEvaluationTerm { remainder, vanishing_inverse });
        i += 1;
    }
    proof {
        assert forall|k: int| 0 <= k < point_sets@.len() implies !arith::eqm(
            division::vanishing_at(#[trigger] vec_vals(point_sets@)[k], point.val()),
            0,
            p,
        ) by {
            assert(before[k].val() != 0);
        }
    }
    Some(PreparedQPrimeEvaluation { terms })
}

/// The terms of the combined quotient's value.
pub open spec fn quotient_values<F: Field>(
    terms: Seq<QPrimeEvaluationTerm<F>>,
    evaluations: Seq<F>,
) -> Seq<int> {
    Seq::new(
        terms.len(),
        |j: int|
            (evaluations[j].val() - terms[j].remainder.val()) * terms[j].vanishing_inverse.val(),
    )
}

/// The value of the combined quotient from the openings' evaluations.
pub fn finish_q_prime_evaluation<F: Field>(
    prepared: &PreparedQPrimeEvaluation<F>,
    evaluations: &Vec<F>,
    challenge: F,
) -> (r: F)
    requires
        evaluations@.len() == prepared.terms@.len(),
    ensures
        r.val() == arith::descending(
            quotient_values(prepared.terms@, evaluations@),
            challenge.val(),
        ) % F::order(),
{
    let ghost p = F::order();
    let ghost x = challenge.val();
    let ghost s = quotient_values(prepared.terms@, evaluations@);
    let mut value = F::zero();
    let mut j: usize = 0;
    proof {
        F::lemma_order();
        assert(s.take(0) =~= Seq::<int>::empty());
        arith::lemma_mod_small(0, p);
    }
    while j < evaluations.len()
        invariant
            j <= evaluations@.len(),
            evaluations@.len() == prepared.terms@.len(),
            p == F::order(),
            p > 2,
            x == challenge.val(),
            s == quotient_values(prepared.terms@, evaluations@),
            value.val() == arith::descending(s.take(j as int), x) % p,
        decreases evaluations@.len() - j,
    {
        let difference = evaluations[j].sub(prepared.terms[j].remainder);
        let quotient = difference.mul(prepared.terms[j].vanishing_inverse);
        let raised = value.mul(challenge);
        proof {
            let a = arith::descending(s.take(j as int), x);
            let d = evaluations@[j as int].val() - prepared.terms@[j as int].remainder.val();
            let v = prepared.terms@[j as int].vanishing_inverse.val();
            assert(s.take(j + 1) =~= s.take(j as int).push(s[j as int]));
            arith::lemma_descending_push(s.take(j as int), x, s[j as int]);
            arith::lemma_mod_mul(d, v, p);
            arith::lemma_mod_mul(a, x, p);
            arith::lemma_mod_add(a * x, d * v, p);
        }
        value = raised.add(quotient);
        j += 1;
    }
    assert(s.take(j as int) =~= s);
    value
}

/// The value of a combination of quotients is the combination of their values.
pub proof fn lemma_combined_value(qs: Seq<Seq<int>>, n: nat, x: int, z: int)
    requires
        forall|j: int| 0 <= j < qs.len() ==> (#[trigger] qs[j]).len() <= n,
    ensures
        arith::poly_at(Seq::new(n, |i: int| arith::descending(collapse::column(qs, i), x)), z) == arith::descending(
            Seq::new(qs.len(), |j: int| arith::poly_at(qs[j], z)),
            x,
        ),
    decreases qs.len(),
{
    let s = Seq::new(n, |i: int| arith::descending(collapse::column(qs, i), x));
    let v = Seq::new(qs.len(), |j: int| arith::poly_at(qs[j], z));
    if qs.len() == 0 {
        let w = Seq::new(n, |i: int| collapse::coeff_at(Seq::<int>::empty(), i));
        assert forall|i: int| 0 <= i < n implies s[i] == w[i] by {
            assert(collapse::column(qs, i) =~= Seq::<int>::empty());
        }
        assert(s =~= w);
        division::lemma_poly_at_padding(Seq::empty(), n, z);
    } else {
        let f = qs.drop_last();
        let q = qs.last();
        lemma_combined_value(f, n, x, z);
        let u = Seq::new(n, |i: int| arith::descending(collapse::column(f, i), x));
        let w = Seq::new(n, |i: int| collapse::coeff_at(q, i));
        let exact = Seq::new(n, |i: int| w[i] + x * u[i]);
        assert forall|i: int| 0 <= i < n implies s[i] == exact[i] by {
            assert(collapse::column(qs, i) =~= collapse::column(f, i).push(collapse::coeff_at(q, i)));
            arith::lemma_descending_push(collapse::column(f, i), x, collapse::coeff_at(q, i));
            lemma_mul_is_commutative(x, u[i]);
        }
        assert(s =~= exact);
        division::lemma_poly_at_axpy(w, u, x, z);
        assert(q == qs[qs.len() - 1]);
        division::lemma_poly_at_padding(q, n, z);
        let g = Seq::new(f.len(), |j: int| arith::poly_at(f[j], z));
        assert(v =~= g.push(arith::poly_at(q, z)));
        arith::lemma_descending_push(g, x, arith::poly_at(q, z));
        lemma_mul_is_commutative(x, arith::descending(g, x));
    }
}

/// Outside the openings' points, the value that the openings' evaluations give is the
/// value of the combined quotient, where no quotient was cut.
pub proof fn law_q_prime_evaluation<F: Field>(
    prepared: PreparedQPrime<F>,
    evaluation: PreparedQPrimeEvaluation<F>,
    polynomials: Seq<Seq<int>>,
    sets: Seq<Seq<int>>,
    quotients: Seq<Seq<int>>,
    x: int,
    domain_len: int,
    point: int,
    evaluations: Seq<F>,
)
    requires
        prepared.prepared(polynomials, sets, x, domain_len, quotients),
        polynomials.len() == sets.len(),
        forall|j: int| 0 <= j < sets.len() ==> (#[trigger] quotients[j]).len() <= domain_len,
        terms_fit(evaluation.terms@, sets, vec_vals(prepared.monomial_remainders@), point),
        evaluations.len() == sets.len(),
        forall|j: int|
            0 <= j < sets.len() ==> (#[trigger] evaluations[j]).val() == arith::poly_at(
                polynomials[j],
                point,
            ) % F::order(),
    ensures
        arith::eqm(
            arith::poly_at(poly::vals(prepared.polynomial.values@), point),
            arith::descending(quotient_values(evaluation.terms@, evaluations), x),
            F::order(),
        ),
{
    let p = F::order();
    F::lemma_order();
    let n = domain_len as nat;
    let exact = Seq::new(n, |i: int| arith::descending(collapse::column(quotients, i), x));
    let c = poly::vals(prepared.polynomial.values@);
    assert forall|i: int| 0 <= i < c.len() implies arith::eqm(#[trigger] c[i], exact[i], p) by {
        assert(c[i] == prepared.polynomial.values@[i].val());
        arith::lemma_mod_range(exact[i], p);
    }
    arith::lemma_poly_at_eqm(c, exact, point, point, p);
    lemma_combined_value(quotients, n, x, point);
    let direct = Seq::new(quotients.len(), |j: int| arith::poly_at(quotients[j], point));
    let given = quotient_values(evaluation.terms@, evaluations);
    let rems = vec_vals(prepared.monomial_remainders@);
    assert forall|j: int| 0 <= j < direct.len() implies arith::eqm(#[trigger] direct[j], given[j], p) by {
        let term = evaluation.terms@[j];
        let q = arith::poly_at(quotients[j], point);
        let z = division::vanishing_at(sets[j], point);
        let r = arith::poly_at(rems[j], point);
        let e = arith::poly_at(polynomials[j], point);
        let v = term.vanishing_inverse.val();
        assert(division::divides(polynomials[j], sets[j], quotients[j], rems[j], p));
        assert(arith::eqm(e, q * z + r, p));
        assert(evaluations[j].val() == e % p);
        arith::lemma_mod_range(e, p);
        arith::lemma_mod_range(r, p);
        arith::lemma_eqm_sub(e % p, q * z + r, r % p, r, p);
        arith::lemma_eqm_mul(e % p - r % p, q * z, v, v, p);
        assert((q * z) * v == q * (v * z)) by (nonlinear_arith);
        arith::lemma_eqm_mul(q, q, v * z, 1, p);
        lemma_mul_basics(q);
    }
    arith::lemma_descending_eqm(direct, given, x, x, p);
}

} // verus!
