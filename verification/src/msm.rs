//! Multiscalar multiplications in the polynomial commitment scheme.
use crate::arith;
use crate::curve;
use crate::curve::CurveAffine;
use crate::field::Field;
use crate::multiexp;
use crate::multiexp::best_multiexp;
use crate::params::Params;
use crate::poly;
use crate::poly::copy_values;
use vstd::arithmetic::mul::*;
use vstd::arithmetic::power2::*;
use vstd::prelude::*;

verus! {

/// A multiple of a point: the first coordinate, the scalar and the second coordinate.
pub type ArbitraryTerm<C> = (
    <C as CurveAffine>::Base,
    (<C as CurveAffine>::ScalarExt, <C as CurveAffine>::Base),
);

/// A multiple of a point, by values.
pub struct Term {
    pub x: int,
    pub scalar: int,
    pub y: int,
}

/// The values of terms.
pub open spec fn term_vals<C: CurveAffine>(terms: Seq<ArbitraryTerm<C>>) -> Seq<Term> {
    Seq::new(terms.len(), |i: int| term_val::<C>(terms[i]))
}

pub open spec fn term_val<C: CurveAffine>(term: ArbitraryTerm<C>) -> Term {
    Term { x: term.0.val(), scalar: term.1.0.val(), y: term.1.1.val() }
}

/// Whether the coordinates are those of a point other than the identity, whose mirror image
/// has the opposite logarithm.
pub open spec fn is_other<C: CurveAffine>(x: int, y: int) -> bool {
    &&& curve::is_point(x, y, C::Base::order())
    &&& (x, y) != (0int, 0int)
    &&& C::log_of((x, (-y) % C::Base::order())) == (-C::log_of((x, y))) % C::ScalarExt::order()
}

pub open spec fn all_others<C: CurveAffine>(terms: Seq<Term>) -> bool {
    forall|i: int| 0 <= i < terms.len() ==> is_other::<C>((#[trigger] terms[i]).x, terms[i].y)
}

/// Whether terms with the same first coordinate have equal or opposite second ones.
pub open spec fn mirrored_only(terms: Seq<Term>, p: int) -> bool {
    forall|i: int, j: int|
        0 <= i < terms.len() && 0 <= j < terms.len() && (#[trigger] terms[i]).x == (
        #[trigger] terms[j]).x ==> terms[i].y == terms[j].y || terms[i].y == (-terms[j].y) % p
}

/// Whether the terms are of distinct points but for orientation, in the order of their
/// first coordinates.
pub open spec fn sorted(terms: Seq<Term>) -> bool {
    forall|i: int, j: int| 0 <= i < j < terms.len() ==> (#[trigger] terms[i]).x < (#[trigger] terms[j]).x
}

/// Two terms of the same first coordinate as one, which keeps the first's orientation.
pub open spec fn merged(a: Term, t: Term, q: int) -> Term {
    Term {
        x: a.x,
        scalar: if a.y == t.y {
            (a.scalar + t.scalar) % q
        } else {
            (a.scalar - t.scalar) % q
        },
        y: a.y,
    }
}

/// The terms with one more, which is merged with the one of the same first coordinate.
pub open spec fn with_term(terms: Seq<Term>, t: Term, q: int) -> Seq<Term>
    decreases terms.len(),
{
    if terms.len() == 0 {
        seq![t]
    } else if terms[0].x < t.x {
        seq![terms[0]] + with_term(terms.skip(1), t, q)
    } else if terms[0].x == t.x {
        seq![merged(terms[0], t, q)] + terms.skip(1)
    } else {
        seq![t] + terms
    }
}

/// The terms with more, one after the other.
pub open spec fn with_terms(terms: Seq<Term>, more: Seq<Term>, q: int) -> Seq<Term>
    decreases more.len(),
{
    if more.len() == 0 {
        terms
    } else {
        with_term(with_terms(terms, more.drop_last(), q), more.last(), q)
    }
}

/// The logarithm of the sum of the terms.
pub open spec fn terms_sum<C: CurveAffine>(terms: Seq<Term>) -> int
    decreases terms.len(),
{
    if terms.len() == 0 {
        0
    } else {
        terms_sum::<C>(terms.drop_last()) + terms.last().scalar * C::log_of(
            (terms.last().x, terms.last().y),
        )
    }
}

/// The terms merged, in order.
pub open spec fn canonical(terms: Seq<Term>, q: int) -> Seq<Term> {
    with_terms(Seq::empty(), terms, q)
}

proof fn lemma_terms_sum_concat<C: CurveAffine>(a: Seq<Term>, b: Seq<Term>)
    ensures
        terms_sum::<C>(a + b) == terms_sum::<C>(a) + terms_sum::<C>(b),
    decreases b.len(),
{
    if b.len() == 0 {
        assert(a + b =~= a);
    } else {
        lemma_terms_sum_concat::<C>(a, b.drop_last());
        assert((a + b).drop_last() =~= a + b.drop_last());
    }
}

proof fn lemma_terms_sum_one<C: CurveAffine>(t: Term)
    ensures
        terms_sum::<C>(seq![t]) == t.scalar * C::log_of((t.x, t.y)),
{
    assert(seq![t].drop_last() =~= Seq::<Term>::empty());
    assert(terms_sum::<C>(Seq::<Term>::empty()) == 0);
}

/// Where a term goes.
proof fn lemma_with_term(terms: Seq<Term>, t: Term, q: int, i: int)
    requires
        0 <= i <= terms.len(),
        forall|j: int| 0 <= j < i ==> (#[trigger] terms[j]).x < t.x,
        i < terms.len() ==> terms[i].x >= t.x,
    ensures
        with_term(terms, t, q) == if i < terms.len() && terms[i].x == t.x {
            terms.update(i, merged(terms[i], t, q))
        } else {
            terms.take(i) + seq![t] + terms.skip(i)
        },
    decreases terms.len(),
{
    if terms.len() == 0 {
        assert(terms.take(i) + seq![t] + terms.skip(i) =~= seq![t]);
    } else if i == 0 {
        if terms[0].x == t.x {
            assert(terms.update(0, merged(terms[0], t, q)) =~= seq![merged(terms[0], t, q)]
                + terms.skip(1));
        } else {
            assert(terms.take(0) + seq![t] + terms.skip(0) =~= seq![t] + terms);
        }
    } else {
        let f = terms.skip(1);
        assert(terms[0].x < t.x);
        assert forall|j: int| 0 <= j < i - 1 implies (#[trigger] f[j]).x < t.x by {
            assert(f[j] == terms[j + 1]);
        }
        lemma_with_term(f, t, q, i - 1);
        if i < terms.len() && terms[i].x == t.x {
            assert(seq![terms[0]] + f.update(i - 1, merged(f[i - 1], t, q)) =~= terms.update(
                i,
                merged(terms[i], t, q),
            ));
        } else {
            assert(seq![terms[0]] + (f.take(i - 1) + seq![t] + f.skip(i - 1)) =~= terms.take(i)
                + seq![t] + terms.skip(i));
        }
    }
}

/// The opposite second coordinates are the only two with a first coordinate.
proof fn lemma_opposite(x: int, y: int, z: int, inverse: int, p: int)
    requires
        p > 2,
        0 <= y < p,
        0 <= z < p,
        arith::eqm(y * y, x * x * x + 5, p),
        arith::eqm(z * z, x * x * x + 5, p),
        arith::eqm((y - z) * inverse, 1, p),
    ensures
        y == (-z) % p,
{
    let d = y - z;
    let s = y + z;
    arith::lemma_eqm_sub(y * y, x * x * x + 5, z * z, x * x * x + 5, p);
    assert(y * y - z * z == d * s) by (nonlinear_arith)
        requires
            d == y - z,
            s == y + z,
    ;
    arith::lemma_eqm_mul(d * s, 0, inverse, inverse, p);
    assert((d * s) * inverse == (d * inverse) * s) by (nonlinear_arith);
    arith::lemma_eqm_mul(d * inverse, 1, s, s, p);
    lemma_mul_basics(s);
    lemma_mul_basics(inverse);
    assert(arith::eqm(s, 0, p));
    arith::lemma_eqm_sub(s, 0, z, z, p);
    arith::lemma_mod_small(y, p);
}

/// Adds a term to sorted terms.
fn add_term<C: CurveAffine>(
    terms: &mut Vec<ArbitraryTerm<C>>,
    x: C::Base,
    scalar: C::ScalarExt,
    y: C::Base,
)
    requires
        sorted(term_vals::<C>(old(terms)@)),
    ensures
        term_vals::<C>(final(terms)@) == with_term(
            term_vals::<C>(old(terms)@),
            (Term { x: x.val(), scalar: scalar.val(), y: y.val() }),
            C::ScalarExt::order(),
        ),
        sorted(term_vals::<C>(final(terms)@)),
        all_others::<C>(term_vals::<C>(old(terms)@)) && is_other::<C>(x.val(), y.val()) ==> {
            &&& all_others::<C>(term_vals::<C>(final(terms)@))
            &&& arith::eqm(
                terms_sum::<C>(term_vals::<C>(final(terms)@)),
                terms_sum::<C>(term_vals::<C>(old(terms)@)) + scalar.val() * C::log_of(
                    (x.val(), y.val()),
                ),
                C::ScalarExt::order(),
            )
        },
{
    let ghost good = all_others::<C>(term_vals::<C>(terms@)) && is_other::<C>(x.val(), y.val());
    let ghost q = C::ScalarExt::order();
    let ghost p = C::Base::order();
    let ghost s = term_vals::<C>(terms@);
    let ghost t = Term { x: x.val(), scalar: scalar.val(), y: y.val() };
    let ghost l = C::log_of((x.val(), y.val()));
    let mut i: usize = 0;
    while i < terms.len() && terms[i].0.less(&x)
        invariant
            i <= terms@.len(),
            s == term_vals::<C>(terms@),
            t.x == x.val(),
            forall|j: int| 0 <= j < i ==> (#[trigger] s[j]).x < t.x,
        decreases terms@.len() - i,
    {
        assert(s[i as int].x == terms@[i as int].0.val());
        i += 1;
    }
    proof {
        C::ScalarExt::lemma_order();
        C::Base::lemma_order();
        if i < s.len() {
            assert(s[i as int].x == terms@[i as int].0.val());
        }
        lemma_with_term(s, t, q, i as int);
    }
    if i < terms.len() && terms[i].0.equals(&x) {
        let (our_x, (our_scalar, our_y)) = terms[i];
        let ghost a = s[i as int];
        assert(a == term_val::<C>(terms@[i as int]));
        let ghost m = merged(a, t, q);
        let (sum, negated) = if our_y.equals(&y) {
            (our_scalar.add(scalar), false)
        } else {
            (our_scalar.sub(scalar), true)
        };
        if negated {
            // Points with one first coordinate are equal or opposite.
            if !our_y.equals(&y.neg()) {
                let inverse = our_y.sub(y).invert();
                proof {
                    C::Base::lemma_val(our_y);
                    C::Base::lemma_val(y);
                    let d = our_y.val() - y.val();
                    // Different representatives are not congruent.
                    if d % p == 0 {
                        arith::lemma_mod_small(0, p);
                        arith::lemma_eqm_add(d, 0, y.val(), y.val(), p);
                        arith::lemma_mod_small(our_y.val(), p);
                        arith::lemma_mod_small(y.val(), p);
                    }
                    let inverse = inverse->0;
                    arith::lemma_mod_mul(d, inverse.val(), p);
                    arith::lemma_mod_small(1, p);
                    // No point but the identity is written with two zeros.
                    if good {
                        assert(is_other::<C>(a.x, a.y));
                        lemma_curve_equation::<C>(a.x, a.y);
                        lemma_curve_equation::<C>(t.x, t.y);
                        lemma_opposite(a.x, a.y, t.y, inverse.val(), p);
                    }
                }
            }
            proof {
                let b = C::log_of((a.x, a.y));
                if good {
                    assert(a.y == (-t.y) % p);
                    assert(b == (-l) % q);
                }
                // The scalar's multiple of the point is the negated scalar's of the other.
                arith::lemma_mod_range(-l, q);
                if good {
                    arith::lemma_eqm_mul(scalar.val(), scalar.val(), b, -l, q);
                }
                let (u, v) = (our_scalar.val(), scalar.val());
                arith::lemma_mod_range(u - v, q);
                arith::lemma_eqm_mul((u - v) % q, u - v, b, b, q);
                assert((u - v) * b == u * b - v * b) by (nonlinear_arith);
                assert(v * (-l) == -(v * l)) by (nonlinear_arith);
                if good {
                    arith::lemma_eqm_sub(u * b, u * b, v * b, -(v * l), q);
                    assert(arith::eqm(m.scalar * b, u * b + v * l, q));
                }
            }
        } else {
            proof {
                let (u, v) = (our_scalar.val(), scalar.val());
                arith::lemma_mod_range(u + v, q);
                arith::lemma_eqm_mul((u + v) % q, u + v, l, l, q);
                assert((u + v) * l == u * l + v * l) by (nonlinear_arith);
            }
        }
        terms[i] = (our_x, (sum, our_y));
        proof {
            let r = term_vals::<C>(terms@);
            assert(r =~= s.update(i as int, m));
            lemma_terms_update::<C>(s, i as int, m);
            let b = C::log_of((a.x, a.y));
            let (u, v) = (our_scalar.val(), scalar.val());
            let rest = terms_sum::<C>(s) - u * b;
            if good {
                arith::lemma_eqm_add(rest, rest, m.scalar * b, u * b + v * l, q);
            }
            assert(sorted(r)) by {
                assert forall|j: int, k: int| 0 <= j < k < r.len() implies (#[trigger] r[j]).x < (
                #[trigger] r[k]).x by {
                    assert(s[j].x < s[k].x);
                }
            }
            assert forall|j: int| good && 0 <= j < r.len() implies is_other::<C>(
                (#[trigger] r[j]).x,
                r[j].y,
            ) by {
                assert(is_other::<C>(s[j].x, s[j].y));
            }
        }
    } else {
        let ghost before = terms@;
        terms.insert(i, (x, (scalar, y)));
        proof {
            let r = term_vals::<C>(terms@);
            let (f, b) = (s.take(i as int), s.skip(i as int));
            assert(r =~= f + seq![t] + b);
            assert(s =~= f + b);
            lemma_terms_sum_concat::<C>(f, b);
            lemma_terms_sum_concat::<C>(f, seq![t]);
            lemma_terms_sum_concat::<C>(f + seq![t], b);
            lemma_terms_sum_one::<C>(t);
            if i < s.len() {
                assert(s[i as int].x != t.x);
            }
            assert(sorted(r)) by {
                assert forall|j: int, k: int| 0 <= j < k < r.len() implies (#[trigger] r[j]).x < (
                #[trigger] r[k]).x by {
                    let u = if j < i {
                        s[j]
                    } else {
                        s[j - 1]
                    };
                    let v = if k < i {
                        s[k]
                    } else {
                        s[k - 1]
                    };
                    if k > i {
                        assert(s[i as int].x <= s[k - 1].x);
                    }
                }
            }
            assert forall|j: int| good && 0 <= j < r.len() implies is_other::<C>(
                (#[trigger] r[j]).x,
                r[j].y,
            ) by {
                if j < i {
                    assert(is_other::<C>(s[j].x, s[j].y));
                } else if j > i {
                    assert(is_other::<C>(s[j - 1].x, s[j - 1].y));
                }
            }
        }
    }
}

/// A point other than the identity satisfies the curve's equation.
proof fn lemma_curve_equation<C: CurveAffine>(x: int, y: int)
    requires
        is_other::<C>(x, y),
    ensures
        arith::eqm(y * y, x * x * x + 5, C::Base::order()),
{
}

proof fn lemma_terms_update<C: CurveAffine>(s: Seq<Term>, i: int, t: Term)
    requires
        0 <= i < s.len(),
    ensures
        terms_sum::<C>(s.update(i, t)) == terms_sum::<C>(s) - s[i].scalar * C::log_of(
            (s[i].x, s[i].y),
        ) + t.scalar * C::log_of((t.x, t.y)),
    decreases s.len(),
{
    if i == s.len() - 1 {
        assert(s.update(i, t).drop_last() =~= s.drop_last());
    } else {
        lemma_terms_update::<C>(s.drop_last(), i, t);
        assert(s.update(i, t).drop_last() =~= s.drop_last().update(i, t));
    }
}

/// Adds terms to sorted terms.
fn add_terms<C: CurveAffine>(terms: &mut Vec<ArbitraryTerm<C>>, more: &Vec<ArbitraryTerm<C>>)
    requires
        sorted(term_vals::<C>(old(terms)@)),
    ensures
        term_vals::<C>(final(terms)@) == with_terms(
            term_vals::<C>(old(terms)@),
            term_vals::<C>(more@),
            C::ScalarExt::order(),
        ),
        sorted(term_vals::<C>(final(terms)@)),
        all_others::<C>(term_vals::<C>(old(terms)@)) && all_others::<C>(term_vals::<C>(more@))
            ==> {
            &&& all_others::<C>(term_vals::<C>(final(terms)@))
            &&& arith::eqm(
                terms_sum::<C>(term_vals::<C>(final(terms)@)),
                terms_sum::<C>(term_vals::<C>(old(terms)@)) + terms_sum::<C>(
                    term_vals::<C>(more@),
                ),
                C::ScalarExt::order(),
            )
        },
{
    let ghost good = all_others::<C>(term_vals::<C>(terms@)) && all_others::<C>(
        term_vals::<C>(more@),
    );
    let ghost q = C::ScalarExt::order();
    let ghost s = term_vals::<C>(terms@);
    let ghost m = term_vals::<C>(more@);
    let mut i: usize = 0;
    proof {
        C::ScalarExt::lemma_order();
        assert(m.take(0) =~= Seq::<Term>::empty());
    }
    while i < more.len()
        invariant
            i <= more@.len(),
            q == C::ScalarExt::order(),
            q > 2,
            m == term_vals::<C>(more@),
            good ==> all_others::<C>(m),
            term_vals::<C>(terms@) == with_terms(s, m.take(i as int), q),
            sorted(term_vals::<C>(terms@)),
            good ==> all_others::<C>(term_vals::<C>(terms@)) && arith::eqm(
                terms_sum::<C>(term_vals::<C>(terms@)),
                terms_sum::<C>(s) + terms_sum::<C>(m.take(i as int)),
                q,
            ),
        decreases more@.len() - i,
    {
        let (x, (scalar, y)) = more[i];
        let ghost before = term_vals::<C>(terms@);
        proof {
            assert(m[i as int] == term_val::<C>(more@[i as int]));
            assert(good ==> is_other::<C>(m[i as int].x, m[i as int].y));
            assert(m.take(i + 1).drop_last() =~= m.take(i as int));
            assert(m.take(i + 1).last() == m[i as int]);
        }
        add_term::<C>(terms, x, scalar, y);
        proof {
            let t = m[i as int].scalar * C::log_of((m[i as int].x, m[i as int].y));
            if good {
                arith::lemma_eqm_add(
                    terms_sum::<C>(before),
                    terms_sum::<C>(s) + terms_sum::<C>(m.take(i as int)),
                    t,
                    t,
                    q,
                );
            }
        }
        i += 1;
    }
    assert(m.take(i as int) =~= m);
}

/// Terms with those of the same first coordinate merged, in the order of the first
/// coordinates. Which orientation is kept, that of the first, does not change the sum.
pub fn canonicalize_other<C: CurveAffine>(terms: Vec<ArbitraryTerm<C>>) -> (r: Vec<ArbitraryTerm<C>>)
    requires
        mirrored_only(term_vals::<C>(terms@), C::Base::order()),
    ensures
        term_vals::<C>(r@) == canonical(term_vals::<C>(terms@), C::ScalarExt::order()),
        sorted(term_vals::<C>(r@)),
        all_others::<C>(term_vals::<C>(terms@)) ==> all_others::<C>(term_vals::<C>(r@)) && arith::eqm(
            terms_sum::<C>(term_vals::<C>(r@)),
            terms_sum::<C>(term_vals::<C>(terms@)),
            C::ScalarExt::order(),
        ),
{
    merge_terms::<C>(&terms)
}

/// Merges terms. Those of points meet the condition on the second coordinates of their own.
fn merge_terms<C: CurveAffine>(terms: &Vec<ArbitraryTerm<C>>) -> (r: Vec<ArbitraryTerm<C>>)
    ensures
        term_vals::<C>(r@) == canonical(term_vals::<C>(terms@), C::ScalarExt::order()),
        sorted(term_vals::<C>(r@)),
        all_others::<C>(term_vals::<C>(terms@)) ==> all_others::<C>(term_vals::<C>(r@)) && arith::eqm(
            terms_sum::<C>(term_vals::<C>(r@)),
            terms_sum::<C>(term_vals::<C>(terms@)),
            C::ScalarExt::order(),
        ),
{
    let mut merged: Vec<ArbitraryTerm<C>> = Vec::with_capacity(terms.len());
    assert(term_vals::<C>(merged@) =~= Seq::<Term>::empty());
    add_terms::<C>(&mut merged, terms);
    merged
}

/// A multiscalar multiplication in the polynomial commitment scheme
#[derive(Clone)]
pub struct MSM<'a, C: CurveAffine> {
    pub params: &'a Params<C>,
    pub g_scalars: Option<Vec<C::ScalarExt>>,
    pub w_scalar: Option<C::ScalarExt>,
    pub u_scalar: Option<C::ScalarExt>,
    /// Terms of arbitrary points, merged and in the order of the first coordinates.
    pub other: Vec<ArbitraryTerm<C>>,
    /// Terms that are merged when the sum is computed.
    pub batched_other: Vec<ArbitraryTerm<C>>,
}

/// The value of a scalar, or zero where there is none.
pub open spec fn scalar_or_zero<F: Field>(scalar: Option<F>) -> int {
    match scalar {
        Some(scalar) => scalar.val(),
        None => 0,
    }
}

/// The sum of two scalars, where there is one.
pub open spec fn summed<F: Field>(before: Option<F>, scalar: F, after: Option<F>) -> bool {
    after matches Some(sum) && sum.val() == (scalar_or_zero(before) + scalar.val()) % F::order()
}

impl<'a, C: CurveAffine> MSM<'a, C> {
    pub open spec fn wf(&self) -> bool {
        &&& self.params.wf()
        &&& self.g_scalars matches Some(scalars) ==> scalars@.len() == self.params.n
        &&& sorted(term_vals::<C>(self.other@))
        &&& all_others::<C>(term_vals::<C>(self.other@))
        &&& all_others::<C>(term_vals::<C>(self.batched_other@))
    }

    /// The scalars of the generators.
    pub open spec fn g_vals(&self) -> Seq<int> {
        match self.g_scalars {
            Some(scalars) => poly::vals(scalars@),
            None => Seq::new(self.params.n as nat, |i: int| 0),
        }
    }

    /// The scalars of the generators, of `w` and of `u`.
    pub open spec fn fixed_scalars(&self) -> Seq<int> {
        self.g_vals() + seq![scalar_or_zero(self.w_scalar), scalar_or_zero(self.u_scalar)]
    }

    /// Whether the scalars are those of the fixed points, with more added.
    pub open spec fn combined(&self, more: Seq<int>, sums: Seq<int>) -> bool {
        &&& sums.len() == self.fixed_scalars().len()
        &&& forall|i: int|
            0 <= i < sums.len() ==> #[trigger] sums[i] == (self.fixed_scalars()[i] + more[i])
                % C::ScalarExt::order()
    }

    proof fn lemma_fixed_scalars(&self)
        ensures
            forall|i: int|
                0 <= i < self.fixed_scalars().len() ==> 0 <= #[trigger] self.fixed_scalars()[i]
                    < C::ScalarExt::order(),
    {
        C::ScalarExt::lemma_order();
        assert forall|i: int| 0 <= i < self.fixed_scalars().len() implies 0
            <= #[trigger] self.fixed_scalars()[i] < C::ScalarExt::order() by {
            if i < self.g_vals().len() {
                if let Some(scalars) = self.g_scalars {
                    C::ScalarExt::lemma_val(scalars@[i]);
                }
            } else {
                if let Some(scalar) = self.w_scalar {
                    C::ScalarExt::lemma_val(scalar);
                }
                if let Some(scalar) = self.u_scalar {
                    C::ScalarExt::lemma_val(scalar);
                }
            }
        }
    }

    /// The logarithm of the sum.
    pub open spec fn total(&self) -> int {
        terms_sum::<C>(term_vals::<C>(self.other@)) + terms_sum::<C>(
            term_vals::<C>(self.batched_other@),
        ) + scalar_or_zero(self.w_scalar) * curve::log(self.params.w) + scalar_or_zero(self.u_scalar)
            * curve::log(self.params.u) + multiexp::dot(self.g_vals(), curve::logs(self.params.g@))
    }

    /// Create a new, empty MSM using the provided parameters.
    pub fn new(params: &'a Params<C>) -> (r: Self)
        requires
            params.wf(),
        ensures
            r.wf(),
            r.params == params,
            r.g_scalars is None,
            r.w_scalar is None,
            r.u_scalar is None,
            r.other@.len() == 0,
            r.batched_other@.len() == 0,
            r.total() == 0,
    {
        let r = MSM {
            params,
            g_scalars: None,
            w_scalar: None,
            u_scalar: None,
            other: Vec::new(),
            batched_other: Vec::new(),
        };
        proof {
            assert(term_vals::<C>(r.other@) =~= Seq::<Term>::empty());
            assert(term_vals::<C>(r.batched_other@) =~= Seq::<Term>::empty());
            multiexp::lemma_dot_zero(r.g_vals(), curve::logs(params.g@));
            lemma_mul_basics(curve::log(params.w));
            lemma_mul_basics(curve::log(params.u));
        }
        r
    }

    fn add_other(&mut self, x: C::Base, scalar: C::ScalarExt, y: C::Base)
        requires
            old(self).wf(),
            is_other::<C>(x.val(), y.val()),
        ensures
            final(self).wf(),
            final(self).params == old(self).params,
            final(self).g_scalars == old(self).g_scalars,
            final(self).w_scalar == old(self).w_scalar,
            final(self).u_scalar == old(self).u_scalar,
            final(self).batched_other == old(self).batched_other,
            term_vals::<C>(final(self).other@) == with_term(
                term_vals::<C>(old(self).other@),
                (Term { x: x.val(), scalar: scalar.val(), y: y.val() }),
                C::ScalarExt::order(),
            ),
            arith::eqm(
                final(self).total(),
                old(self).total() + scalar.val() * C::log_of((x.val(), y.val())),
                C::ScalarExt::order(),
            ),
    {
        let ghost before = term_vals::<C>(self.other@);
        let ghost rest = self.total() - terms_sum::<C>(before);
        add_term::<C>(&mut self.other, x, scalar, y);
        proof {
            C::ScalarExt::lemma_order();
            arith::lemma_eqm_add(
                terms_sum::<C>(term_vals::<C>(self.other@)),
                terms_sum::<C>(before) + scalar.val() * C::log_of((x.val(), y.val())),
                rest,
                rest,
                C::ScalarExt::order(),
            );
        }
    }

    /// Add another multiexp into this one
    pub fn add_msm(&mut self, other: &Self)
        requires
            old(self).wf(),
            other.wf(),
            other.params == old(self).params,
        ensures
            final(self).wf(),
            final(self).params == old(self).params,
            final(self).batched_other == old(self).batched_other,
            term_vals::<C>(final(self).other@) == with_terms(
                with_terms(
                    term_vals::<C>(old(self).other@),
                    term_vals::<C>(other.other@),
                    C::ScalarExt::order(),
                ),
                term_vals::<C>(other.batched_other@),
                C::ScalarExt::order(),
            ),
            old(self).combined(other.fixed_scalars(), final(self).fixed_scalars()),
            arith::eqm(final(self).total(), old(self).total() + other.total(), C::ScalarExt::order()),
    {
        let ghost q = C::ScalarExt::order();
        let ghost before = self.total();
        let ghost a = terms_sum::<C>(term_vals::<C>(self.other@));
        add_terms::<C>(&mut self.other, &other.other);
        let ghost b = terms_sum::<C>(term_vals::<C>(self.other@));
        add_terms::<C>(&mut self.other, &other.batched_other);
        let ghost c = terms_sum::<C>(term_vals::<C>(self.other@));
        let ghost d = terms_sum::<C>(term_vals::<C>(other.other@));
        let ghost e = terms_sum::<C>(term_vals::<C>(other.batched_other@));
        proof {
            C::ScalarExt::lemma_order();
            arith::lemma_eqm_add(b, a + d, e, e, q);
            arith::lemma_eqm_add(c, a + d + e, before - a, before - a, q);
            assert(arith::eqm(self.total(), before + d + e, q));
            multiexp::lemma_dot_zero(
                Seq::new(self.params.n as nat, |i: int| 0),
                curve::logs(self.params.g@),
            );
            lemma_mul_basics(curve::log(self.params.w));
            lemma_mul_basics(curve::log(self.params.u));
        }
        let ghost t1 = self.total();
        let ghost g = multiexp::dot(other.g_vals(), curve::logs(self.params.g@));
        if let Some(g_scalars) = &other.g_scalars {
            self.add_to_g_scalars(g_scalars);
        }
        let ghost t2 = self.total();
        let ghost w = scalar_or_zero(other.w_scalar) * curve::log(self.params.w);
        if let Some(w_scalar) = other.w_scalar {
            self.add_to_w_scalar(w_scalar);
        }
        let ghost t3 = self.total();
        let ghost u = scalar_or_zero(other.u_scalar) * curve::log(self.params.u);
        if let Some(u_scalar) = other.u_scalar {
            self.add_to_u_scalar(u_scalar);
        }
        proof {
            arith::lemma_eqm_add(t1, before + d + e, g, g, q);
            arith::lemma_eqm_add(t2, before + d + e + g, w, w, q);
            arith::lemma_eqm_add(t3, before + d + e + g + w, u, u, q);
            let (a, b, c) = (
                old(self).fixed_scalars(),
                other.fixed_scalars(),
                self.fixed_scalars(),
            );
            old(self).lemma_fixed_scalars();
            assert forall|i: int| 0 <= i < c.len() implies #[trigger] c[i] == (a[i] + b[i]) % q by {
                arith::lemma_mod_small(a[i], q);
                if i < self.g_vals().len() {
                    assert(c[i] == self.g_vals()[i]);
                }
            }
        }
    }

    /// Adds an owned MSM while deferring the merging of arbitrary points until the
    /// completed batch is evaluated.
    pub fn add_msm_batch(&mut self, other: Self)
        requires
            old(self).wf(),
            other.wf(),
            other.params == old(self).params,
        ensures
            final(self).wf(),
            final(self).params == old(self).params,
            final(self).other == old(self).other,
            final(self).batched_other@ == old(self).batched_other@ + other.other@
                + other.batched_other@,
            old(self).combined(other.fixed_scalars(), final(self).fixed_scalars()),
            arith::eqm(final(self).total(), old(self).total() + other.total(), C::ScalarExt::order()),
    {
        let ghost q = C::ScalarExt::order();
        let ghost before = self.total();
        let ghost g = multiexp::dot(other.g_vals(), curve::logs(self.params.g@));
        let ghost more = other.fixed_scalars();
        let MSM { params: _, g_scalars, w_scalar, u_scalar, other, batched_other } = other;
        let ghost s = term_vals::<C>(self.batched_other@);
        let ghost start = self.batched_other@;
        let ghost d = term_vals::<C>(other@);
        let ghost e = term_vals::<C>(batched_other@);
        let mut i: usize = 0;
        while i < other.len()
            invariant
                i <= other@.len(),
                self.params == old(self).params,
                self.g_scalars == old(self).g_scalars,
                self.w_scalar == old(self).w_scalar,
                self.u_scalar == old(self).u_scalar,
                self.other == old(self).other,
                self.batched_other@ == start + other@.take(i as int),
            decreases other@.len() - i,
        {
            self.batched_other.push(other[i]);
            i += 1;
            assert(self.batched_other@ =~= start + other@.take(i as int));
        }
        assert(other@.take(i as int) =~= other@);
        let mut j: usize = 0;
        assert(self.batched_other@ =~= start + other@ + batched_other@.take(0));
        while j < batched_other.len()
            invariant
                j <= batched_other@.len(),
                self.params == old(self).params,
                self.g_scalars == old(self).g_scalars,
                self.w_scalar == old(self).w_scalar,
                self.u_scalar == old(self).u_scalar,
                self.other == old(self).other,
                self.batched_other@ == start + other@ + batched_other@.take(j as int),
            decreases batched_other@.len() - j,
        {
            self.batched_other.push(batched_other[j]);
            j += 1;
            assert(self.batched_other@ =~= start + other@ + batched_other@.take(j as int));
        }
        proof {
            assert(batched_other@.take(j as int) =~= batched_other@);
            C::ScalarExt::lemma_order();
            let r = term_vals::<C>(self.batched_other@);
            assert(r =~= s + d + e);
            lemma_terms_sum_concat::<C>(s, d);
            lemma_terms_sum_concat::<C>(s + d, e);
            assert forall|k: int| 0 <= k < r.len() implies is_other::<C>(
                (#[trigger] r[k]).x,
                r[k].y,
            ) by {
                if k < s.len() {
                    assert(r[k] == s[k]);
                } else if k < s.len() + d.len() {
                    assert(r[k] == d[k - s.len()]);
                } else {
                    assert(r[k] == e[k - s.len() - d.len()]);
                }
            }
            multiexp::lemma_dot_zero(
                Seq::new(self.params.n as nat, |i: int| 0),
                curve::logs(self.params.g@),
            );
            lemma_mul_basics(curve::log(self.params.w));
            lemma_mul_basics(curve::log(self.params.u));
        }
        let ghost sums = terms_sum::<C>(d) + terms_sum::<C>(e);
        let ghost t1 = self.total();
        assert(t1 == before + sums);
        if let Some(g_scalars) = &g_scalars {
            self.add_to_g_scalars(g_scalars);
        }
        let ghost t2 = self.total();
        let ghost w = scalar_or_zero(w_scalar) * curve::log(self.params.w);
        if let Some(w_scalar) = w_scalar {
            self.add_to_w_scalar(w_scalar);
        }
        let ghost t3 = self.total();
        let ghost u = scalar_or_zero(u_scalar) * curve::log(self.params.u);
        if let Some(u_scalar) = u_scalar {
            self.add_to_u_scalar(u_scalar);
        }
        proof {
            arith::lemma_eqm_add(t1, before + sums, g, g, q);
            arith::lemma_eqm_add(t2, before + sums + g, w, w, q);
            arith::lemma_eqm_add(t3, before + sums + g + w, u, u, q);
            let (a, b, c) = (old(self).fixed_scalars(), more, self.fixed_scalars());
            old(self).lemma_fixed_scalars();
            assert forall|i: int| 0 <= i < c.len() implies #[trigger] c[i] == (a[i] + b[i]) % q by {
                arith::lemma_mod_small(a[i], q);
                if i < self.g_vals().len() {
                    assert(c[i] == self.g_vals()[i]);
                }
            }
        }
    }

    /// Add arbitrary term (the scalar and the point)
    pub fn append_term(&mut self, scalar: C::ScalarExt, point: C)
        requires
            old(self).wf(),
            point.on_curve(),
        ensures
            final(self).wf(),
            final(self).params == old(self).params,
            final(self).g_scalars == old(self).g_scalars,
            final(self).w_scalar == old(self).w_scalar,
            final(self).u_scalar == old(self).u_scalar,
            final(self).batched_other == old(self).batched_other,
            term_vals::<C>(final(self).other@) == if point.at() == (0int, 0int) {
                term_vals::<C>(old(self).other@)
            } else {
                with_term(
                    term_vals::<C>(old(self).other@),
                    (Term { x: point.at().0, scalar: scalar.val(), y: point.at().1 }),
                    C::ScalarExt::order(),
                )
            },
            arith::eqm(
                final(self).total(),
                old(self).total() + scalar.val() * curve::log(point),
                C::ScalarExt::order(),
            ),
    {
        if !point.is_identity() {
            let (x, y) = point.xy();
            proof {
                point.lemma_point();
            }
            self.add_other(x, scalar, y);
        } else {
            // The identity's multiples are the identity.
            proof {
                point.lemma_point();
                lemma_mul_basics(scalar.val());
            }
        }
    }

    /// Add a value to the first entry of `g_scalars`.
    pub fn add_constant_term(&mut self, constant: C::ScalarExt)
        requires
            old(self).wf(),
        ensures
            final(self).wf(),
            final(self).params == old(self).params,
            final(self).other == old(self).other,
            final(self).batched_other == old(self).batched_other,
            final(self).w_scalar == old(self).w_scalar,
            final(self).u_scalar == old(self).u_scalar,
            final(self).g_scalars is Some,
            final(self).g_vals() == old(self).g_vals().update(
                0,
                (old(self).g_vals()[0] + constant.val()) % C::ScalarExt::order(),
            ),
            arith::eqm(
                final(self).total(),
                old(self).total() + constant.val() * curve::log(old(self).params.g@[0]),
                C::ScalarExt::order(),
            ),
    {
        let ghost q = C::ScalarExt::order();
        let ghost before = self.g_vals();
        let n: usize = self.params.n as usize;
        proof {
            lemma_pow2_pos(self.params.k as nat);
            C::ScalarExt::lemma_order();
        }
        let mut scalars: Vec<C::ScalarExt> = match self.g_scalars.take() {
            Some(scalars) => scalars,
            None => {
                let mut zeros: Vec<C::ScalarExt> = Vec::with_capacity(n);
                while zeros.len() < n
                    invariant
                        zeros@.len() <= n,
                        forall|i: int| 0 <= i < zeros@.len() ==> (#[trigger] zeros@[i]).val() == 0,
                    decreases n - zeros@.len(),
                {
                    zeros.push(C::ScalarExt::zero());
                }
                zeros
            },
        };
        assert(poly::vals(scalars@) =~= before);
        let first = scalars[0].add(constant);
        scalars[0] = first;
        self.g_scalars = Some(scalars);
        proof {
            let after = before.update(0, first.val());
            assert(self.g_vals() =~= after);
            let b = curve::logs(self.params.g@);
            lemma_dot_single(before, first.val(), b);
            let (u, v, l) = (before[0], constant.val(), b[0]);
            arith::lemma_mod_range(u + v, q);
            arith::lemma_eqm_sub((u + v) % q, u + v, u, u, q);
            arith::lemma_eqm_mul(first.val() - u, v, l, l, q);
            let rest = old(self).total();
            arith::lemma_eqm_add(rest, rest, (first.val() - u) * l, v * l, q);
        }
    }

    /// Add a vector of scalars to `g_scalars`.
    pub fn add_to_g_scalars(&mut self, scalars: &Vec<C::ScalarExt>)
        requires
            old(self).wf(),
            scalars@.len() == old(self).params.n,
        ensures
            final(self).wf(),
            final(self).params == old(self).params,
            final(self).other == old(self).other,
            final(self).batched_other == old(self).batched_other,
            final(self).w_scalar == old(self).w_scalar,
            final(self).u_scalar == old(self).u_scalar,
            final(self).g_scalars is Some,
            forall|i: int|
                0 <= i < scalars@.len() ==> #[trigger] final(self).g_vals()[i] == (old(
                    self,
                ).g_vals()[i] + scalars@[i].val()) % C::ScalarExt::order(),
            arith::eqm(
                final(self).total(),
                old(self).total() + multiexp::dot(poly::vals(scalars@), curve::logs(old(self).params.g@)),
                C::ScalarExt::order(),
            ),
    {
        let ghost q = C::ScalarExt::order();
        let ghost before = self.g_vals();
        let ghost more = poly::vals(scalars@);
        let ghost b = curve::logs(self.params.g@);
        proof {
            C::ScalarExt::lemma_order();
        }
        match self.g_scalars.take() {
            Some(ours) => {
                let mut sums: Vec<C::ScalarExt> = Vec::with_capacity(ours.len());
                let mut i: usize = 0;
                while i < ours.len()
                    invariant
                        i <= ours@.len(),
                        ours@.len() == scalars@.len(),
                        q == C::ScalarExt::order(),
                        sums@.len() == i,
                        forall|j: int|
                            0 <= j < i ==> (#[trigger] sums@[j]).val() == (ours@[j].val()
                                + scalars@[j].val()) % q,
                    decreases ours@.len() - i,
                {
                    sums.push(ours[i].add(scalars[i]));
                    i += 1;
                }
                self.g_scalars = Some(sums);
            },
            None => {
                let copied = copy_values(scalars.as_slice());
                proof {
                    assert forall|i: int| 0 <= i < more.len() implies poly::vals(copied@)[i] == (before[i]
                        + more[i]) % q by {
                        C::ScalarExt::lemma_val(scalars@[i]);
                        arith::lemma_mod_small(more[i], q);
                    }
                }
                self.g_scalars = Some(copied);
            },
        }
        proof {
            let after = self.g_vals();
            let exact = Seq::new(before.len(), |i: int| before[i] + 1 * more[i]);
            assert forall|i: int| 0 <= i < after.len() implies arith::eqm(#[trigger] after[i], exact[i], q) by {
                arith::lemma_mod_range(before[i] + more[i], q);
            }
            multiexp::lemma_dot_eqm(after, b, exact, b, q);
            multiexp::lemma_dot_linear(before, more, 1, b);
            let rest = old(self).total() - multiexp::dot(before, b);
            arith::lemma_eqm_add(rest, rest, multiexp::dot(after, b), multiexp::dot(before, b) + multiexp::dot(more, b), q);
        }
    }

    /// Add to `w_scalar`
    pub fn add_to_w_scalar(&mut self, scalar: C::ScalarExt)
        requires
            old(self).wf(),
        ensures
            final(self).wf(),
            final(self).params == old(self).params,
            final(self).other == old(self).other,
            final(self).batched_other == old(self).batched_other,
            final(self).g_scalars == old(self).g_scalars,
            final(self).u_scalar == old(self).u_scalar,
            summed(old(self).w_scalar, scalar, final(self).w_scalar),
            arith::eqm(
                final(self).total(),
                old(self).total() + scalar.val() * curve::log(old(self).params.w),
                C::ScalarExt::order(),
            ),
    {
        let sum = add_scalar(self.w_scalar, scalar);
        proof {
            lemma_scalar_added::<C::ScalarExt>(
                scalar_or_zero(self.w_scalar),
                scalar.val(),
                sum.val(),
                curve::log(self.params.w),
                self.total(),
            );
        }
        self.w_scalar = Some(sum);
    }

    /// Add to `u_scalar`
    pub fn add_to_u_scalar(&mut self, scalar: C::ScalarExt)
        requires
            old(self).wf(),
        ensures
            final(self).wf(),
            final(self).params == old(self).params,
            final(self).other == old(self).other,
            final(self).batched_other == old(self).batched_other,
            final(self).g_scalars == old(self).g_scalars,
            final(self).w_scalar == old(self).w_scalar,
            summed(old(self).u_scalar, scalar, final(self).u_scalar),
            arith::eqm(
                final(self).total(),
                old(self).total() + scalar.val() * curve::log(old(self).params.u),
                C::ScalarExt::order(),
            ),
    {
        let sum = add_scalar(self.u_scalar, scalar);
        proof {
            lemma_scalar_added::<C::ScalarExt>(
                scalar_or_zero(self.u_scalar),
                scalar.val(),
                sum.val(),
                curve::log(self.params.u),
                self.total(),
            );
        }
        self.u_scalar = Some(sum);
    }

    /// Scale all scalars in the MSM by some scaling factor
    pub fn scale(&mut self, factor: C::ScalarExt)
        requires
            old(self).wf(),
        ensures
            final(self).wf(),
            final(self).params == old(self).params,
            scaled_terms::<C>(final(self).other@, old(self).other@, factor.val()),
            scaled_terms::<C>(final(self).batched_other@, old(self).batched_other@, factor.val()),
            final(self).g_scalars is Some <==> old(self).g_scalars is Some,
            final(self).w_scalar is Some <==> old(self).w_scalar is Some,
            final(self).u_scalar is Some <==> old(self).u_scalar is Some,
            final(self).fixed_scalars().len() == old(self).fixed_scalars().len(),
            forall|i: int|
                0 <= i < old(self).fixed_scalars().len()
                    ==> #[trigger] final(self).fixed_scalars()[i] == (old(
                    self,
                ).fixed_scalars()[i] * factor.val()) % C::ScalarExt::order(),
            arith::eqm(
                final(self).total(),
                old(self).total() * factor.val(),
                C::ScalarExt::order(),
            ),
    {
        let ghost q = C::ScalarExt::order();
        let ghost f = factor.val();
        let ghost b = curve::logs(self.params.g@);
        let ghost before = self.g_vals();
        let ghost start = *self;
        proof {
            C::ScalarExt::lemma_order();
            lemma_mul_basics(f);
            arith::lemma_mod_small(0, q);
        }
        if let Some(ours) = self.g_scalars.take() {
            let scaled_scalars = scale_values::<C::ScalarExt>(&ours, factor);
            self.g_scalars = Some(scaled_scalars);
        }
        let ghost after = self.g_vals();
        scale_terms::<C>(&mut self.other, factor);
        scale_terms::<C>(&mut self.batched_other, factor);
        self.w_scalar = match self.w_scalar {
            Some(scalar) => Some(scalar.mul(factor)),
            None => None,
        };
        self.u_scalar = match self.u_scalar {
            Some(scalar) => Some(scalar.mul(factor)),
            None => None,
        };
        proof {
            assert forall|i: int| 0 <= i < start.fixed_scalars().len() implies #[trigger] self.fixed_scalars()[i]
                == (start.fixed_scalars()[i] * f) % q by {
                if i < before.len() {
                    assert(self.fixed_scalars()[i] == after[i]);
                }
            }
            let zero = Seq::new(before.len(), |i: int| 0int);
            let exact = Seq::new(before.len(), |i: int| zero[i] + f * before[i]);
            assert forall|i: int| 0 <= i < after.len() implies arith::eqm(#[trigger] after[i], exact[i], q) by {
                lemma_mul_is_commutative(before[i], f);
                arith::lemma_mod_range(before[i] * f, q);
            }
            multiexp::lemma_dot_eqm(after, b, exact, b, q);
            multiexp::lemma_dot_linear(zero, before, f, b);
            multiexp::lemma_dot_zero(zero, b);
            let (w, u) = (curve::log(self.params.w), curve::log(self.params.u));
            let (w0, u0) = (scalar_or_zero(start.w_scalar), scalar_or_zero(start.u_scalar));
            let (w1, u1) = (scalar_or_zero(self.w_scalar), scalar_or_zero(self.u_scalar));
            arith::lemma_mod_range(w0 * f, q);
            arith::lemma_mod_range(u0 * f, q);
            arith::lemma_eqm_mul(w1, w0 * f, w, w, q);
            arith::lemma_eqm_mul(u1, u0 * f, u, u, q);
            let (o0, o1) = (
                terms_sum::<C>(term_vals::<C>(start.other@)),
                terms_sum::<C>(term_vals::<C>(self.other@)),
            );
            let (c0, c1) = (
                terms_sum::<C>(term_vals::<C>(start.batched_other@)),
                terms_sum::<C>(term_vals::<C>(self.batched_other@)),
            );
            let (d0, d1) = (multiexp::dot(before, b), multiexp::dot(after, b));
            arith::lemma_eqm_add(o1, o0 * f, c1, c0 * f, q);
            arith::lemma_eqm_add(o1 + c1, o0 * f + c0 * f, w1 * w, (w0 * f) * w, q);
            arith::lemma_eqm_add(
                o1 + c1 + w1 * w,
                o0 * f + c0 * f + (w0 * f) * w,
                u1 * u,
                (u0 * f) * u,
                q,
            );
            arith::lemma_eqm_add(
                o1 + c1 + w1 * w + u1 * u,
                o0 * f + c0 * f + (w0 * f) * w + (u0 * f) * u,
                d1,
                f * d0,
                q,
            );
            assert((w0 * f) * w == (w0 * w) * f) by (nonlinear_arith);
            assert((u0 * f) * u == (u0 * u) * f) by (nonlinear_arith);
            lemma_mul_is_commutative(f, d0);
            lemma_mul_is_distributive_add_other_way(f, o0, c0);
            lemma_mul_is_distributive_add_other_way(f, o0 + c0, w0 * w);
            lemma_mul_is_distributive_add_other_way(f, o0 + c0 + w0 * w, u0 * u);
            lemma_mul_is_distributive_add_other_way(f, o0 + c0 + w0 * w + u0 * u, d0);
        }
    }

    /// The scalars and bases of the sum: the terms of arbitrary points, merged, then those
    /// of `w` and `u`, then the generators'.
    pub fn multiexp_terms(self) -> (r: (Vec<C::ScalarExt>, Vec<C>))
        requires
            self.wf(),
        ensures
            r.0@.len() == r.1@.len(),
            curve::all_on_curve(r.1@),
            arith::eqm(multiexp::dot(poly::vals(r.0@), curve::logs(r.1@)), self.total(), C::ScalarExt::order()),
    {
        let ghost q = C::ScalarExt::order();
        let ghost me = self;
        let MSM { params, g_scalars, w_scalar, u_scalar, other, batched_other } = self;
        let ghost sums = terms_sum::<C>(term_vals::<C>(other@)) + terms_sum::<C>(
            term_vals::<C>(batched_other@),
        );
        proof {
            C::ScalarExt::lemma_order();
        }
        let canonical: Vec<ArbitraryTerm<C>> = if batched_other.len() == 0 {
            assert(term_vals::<C>(batched_other@) =~= Seq::<Term>::empty());
            other
        } else {
            let combined = concat_terms::<C>(batched_other, &other);
            proof {
                let (s, t) = (term_vals::<C>(batched_other@), term_vals::<C>(other@));
                let r = term_vals::<C>(combined@);
                assert(r =~= s + t);
                lemma_terms_sum_concat::<C>(s, t);
                assert forall|i: int| 0 <= i < r.len() implies is_other::<C>(
                    (#[trigger] r[i]).x,
                    r[i].y,
                ) by {
                    if i < s.len() {
                        assert(r[i] == s[i]);
                    } else {
                        assert(r[i] == t[i - s.len()]);
                    }
                }
            }
            merge_terms::<C>(&combined)
        };
        let ghost c = term_vals::<C>(canonical@);
        let mut scalars: Vec<C::ScalarExt> = Vec::new();
        let mut bases: Vec<C> = Vec::new();
        let mut i: usize = 0;
        proof {
            assert(poly::vals(scalars@) =~= Seq::<int>::empty());
            assert(c.take(0) =~= Seq::<Term>::empty());
        }
        while i < canonical.len()
            invariant
                i <= canonical@.len(),
                c == term_vals::<C>(canonical@),
                all_others::<C>(c),
                scalars@.len() == i,
                bases@.len() == i,
                curve::all_on_curve(bases@),
                multiexp::dot(poly::vals(scalars@), curve::logs(bases@)) == terms_sum::<C>(c.take(i as int)),
            decreases canonical@.len() - i,
        {
            let (x, (scalar, y)) = canonical[i];
            let ghost (s, b) = (scalars@, bases@);
            proof {
                assert(c[i as int] == term_val::<C>(canonical@[i as int]));
                assert(is_other::<C>(c[i as int].x, c[i as int].y));
                assert(c.take(i + 1).drop_last() =~= c.take(i as int));
            }
            if let Some(point) = C::from_xy(x, y) {
                scalars.push(scalar);
                bases.push(point);
                proof {
                    assert(poly::vals(scalars@) =~= poly::vals(s).push(scalar.val()));
                    assert(curve::logs(bases@) =~= curve::logs(b).push(curve::log(point)));
                    multiexp::lemma_dot_push(poly::vals(s), curve::logs(b), scalar.val(), curve::log(point));
                }
            }
            i += 1;
        }
        assert(c.take(i as int) =~= c);
        let ghost d1 = multiexp::dot(poly::vals(scalars@), curve::logs(bases@));
        let ghost w = scalar_or_zero(w_scalar) * curve::log(params.w);
        let ghost u = scalar_or_zero(u_scalar) * curve::log(params.u);
        proof {
            lemma_mul_basics(curve::log(params.w));
            lemma_mul_basics(curve::log(params.u));
        }
        if let Some(w_scalar) = w_scalar {
            push_base(&mut scalars, &mut bases, w_scalar, params.w);
        }
        if let Some(u_scalar) = u_scalar {
            push_base(&mut scalars, &mut bases, u_scalar, params.u);
        }
        let ghost d2 = multiexp::dot(poly::vals(scalars@), curve::logs(bases@));
        assert(d2 == d1 + w + u);
        let ghost g = multiexp::dot(me.g_vals(), curve::logs(params.g@));
        match g_scalars {
            Some(g_scalars) => {
                let mut j: usize = 0;
                let ghost (s, b) = (poly::vals(scalars@), curve::logs(bases@));
                let ghost (gs, gl) = (poly::vals(g_scalars@), curve::logs(params.g@));
                proof {
                    assert(s + gs.take(0) =~= s);
                    assert(b + gl.take(0) =~= b);
                }
                while j < g_scalars.len()
                    invariant
                        j <= g_scalars@.len(),
                        g_scalars@.len() == params.g@.len(),
                        curve::all_on_curve(params.g@),
                        curve::all_on_curve(bases@),
                        gs == poly::vals(g_scalars@),
                        gl == curve::logs(params.g@),
                        scalars@.len() == bases@.len(),
                        poly::vals(scalars@) == s + gs.take(j as int),
                        curve::logs(bases@) == b + gl.take(j as int),
                    decreases g_scalars@.len() - j,
                {
                    assert(params.g@[j as int].on_curve());
                    let ghost (s1, b1) = (scalars@, bases@);
                    scalars.push(g_scalars[j]);
                    bases.push(params.g[j]);
                    proof {
                        assert(poly::vals(scalars@) =~= poly::vals(s1).push(gs[j as int]));
                        assert(curve::logs(bases@) =~= curve::logs(b1).push(gl[j as int]));
                        assert(poly::vals(scalars@) =~= s + gs.take(j + 1));
                        assert(curve::logs(bases@) =~= b + gl.take(j + 1));
                    }
                    j += 1;
                }
                proof {
                    assert(gs.take(j as int) =~= gs);
                    assert(gl.take(j as int) =~= gl);
                    multiexp::lemma_dot_concat(s, b, gs, gl);
                }
            },
            None => {
                proof {
                    multiexp::lemma_dot_zero(me.g_vals(), curve::logs(params.g@));
                }
            },
        }
        proof {
            arith::lemma_eqm_add(terms_sum::<C>(c), sums, w + u + g, w + u + g, q);
        }
        (scalars, bases)
    }

    /// Computes the sum.
    pub fn multiexp(self) -> (r: C)
        requires
            self.wf(),
        ensures
            r.on_curve(),
            curve::log(r) == self.total() % C::ScalarExt::order(),
    {
        let (scalars, bases) = self.multiexp_terms();
        best_multiexp(scalars.as_slice(), bases.as_slice())
    }

    /// Perform multiexp and check that it results in zero.
    pub fn eval(self) -> (r: bool)
        requires
            self.wf(),
        ensures
            r <==> self.total() % C::ScalarExt::order() == 0,
    {
        let sum = self.multiexp();
        sum.equals(&C::identity())
    }

    /// Evaluates an MSM whose scalars are expected to be random-like and full-width.
    pub fn eval_full_width(self) -> (r: bool)
        requires
            self.wf(),
        ensures
            r <==> self.total() % C::ScalarExt::order() == 0,
    {
        let (scalars, bases) = self.multiexp_terms();
        best_multiexp(scalars.as_slice(), bases.as_slice()).equals(&C::identity())
    }

    /// The accumulated terms of arbitrary points, merged and in the order of the first
    /// coordinates, without consuming the sum.
    pub fn fingerprint_terms(&self) -> (r: Vec<ArbitraryTerm<C>>)
        requires
            self.wf(),
        ensures
            term_vals::<C>(r@) == if self.batched_other@.len() == 0 {
                term_vals::<C>(self.other@)
            } else {
                with_terms(
                    Seq::empty(),
                    term_vals::<C>(self.batched_other@) + term_vals::<C>(self.other@),
                    C::ScalarExt::order(),
                )
            },
    {
        let empty: Vec<ArbitraryTerm<C>> = Vec::new();
        if self.batched_other.len() == 0 {
            let copied = concat_terms::<C>(empty, &self.other);
            assert(copied@ =~= self.other@);
            return copied;
        }
        let first = concat_terms::<C>(empty, &self.batched_other);
        let combined = concat_terms::<C>(first, &self.other);
        proof {
            assert(first@ =~= self.batched_other@);
            let (s, t) = (term_vals::<C>(self.batched_other@), term_vals::<C>(self.other@));
            let r = term_vals::<C>(combined@);
            assert(r =~= s + t);
            assert forall|i: int| 0 <= i < r.len() implies is_other::<C>(
                (#[trigger] r[i]).x,
                r[i].y,
            ) by {
                if i < s.len() {
                    assert(r[i] == s[i]);
                } else {
                    assert(r[i] == t[i - s.len()]);
                }
            }
        }
        merge_terms::<C>(&combined)
    }
}

impl<C: CurveAffine> Params<C> {
    /// Generates an empty multiscalar multiplication struct using the appropriate params.
    pub fn empty_msm(&self) -> (r: MSM<'_, C>)
        requires
            self.wf(),
        ensures
            r.wf(),
            r.params == self,
            r.total() == 0,
            r.g_scalars is None,
            r.w_scalar is None,
            r.u_scalar is None,
            r.other@.len() == 0,
            r.batched_other@.len() == 0,
    {
        MSM::new(self)
    }
}

/// The sum with the scalar, or the scalar.
fn add_scalar<F: Field>(before: Option<F>, scalar: F) -> (r: F)
    ensures
        r.val() == (scalar_or_zero(before) + scalar.val()) % F::order(),
{
    match before {
        Some(ours) => ours.add(scalar),
        None => {
            proof {
                F::lemma_val(scalar);
                arith::lemma_mod_small(scalar.val(), F::order());
            }
            scalar
        },
    }
}

proof fn lemma_scalar_added<F: Field>(a: int, t: int, s: int, l: int, total: int)
    requires
        s == (a + t) % F::order(),
    ensures
        arith::eqm(total - a * l + s * l, total + t * l, F::order()),
{
    F::lemma_order();
    let q = F::order();
    arith::lemma_mod_range(a + t, q);
    arith::lemma_eqm_mul(s, a + t, l, l, q);
    assert((a + t) * l == a * l + t * l) by (nonlinear_arith);
    arith::lemma_eqm_add(total - a * l, total - a * l, s * l, a * l + t * l, q);
}

proof fn lemma_dot_single(a: Seq<int>, t: int, b: Seq<int>)
    requires
        a.len() > 0,
        a.len() <= b.len(),
    ensures
        multiexp::dot(a.update(0, t), b) == multiexp::dot(a, b) + (t - a[0]) * b[0],
    decreases a.len(),
{
    if a.len() == 1 {
        assert(a.update(0, t).drop_last() =~= a.drop_last());
        let (u, v) = (a[0], b[0]);
        assert(t * v == u * v + (t - u) * v) by (nonlinear_arith);
    } else {
        lemma_dot_single(a.drop_last(), t, b);
        assert(a.update(0, t).drop_last() =~= a.drop_last().update(0, t));
    }
}

/// Whether the scalars are multiplied and the points kept.
pub open spec fn scaled_terms<C: CurveAffine>(
    after: Seq<ArbitraryTerm<C>>,
    before: Seq<ArbitraryTerm<C>>,
    factor: int,
) -> bool {
    &&& after.len() == before.len()
    &&& forall|i: int|
        0 <= i < after.len() ==> term_val::<C>(#[trigger] after[i]) == (Term {
            x: before[i].0.val(),
            scalar: (before[i].1.0.val() * factor) % C::ScalarExt::order(),
            y: before[i].1.1.val(),
        })
}

fn scale_terms<C: CurveAffine>(terms: &mut Vec<ArbitraryTerm<C>>, factor: C::ScalarExt)
    ensures
        scaled_terms::<C>(final(terms)@, old(terms)@, factor.val()),
        sorted(term_vals::<C>(old(terms)@)) ==> sorted(term_vals::<C>(final(terms)@)),
        all_others::<C>(term_vals::<C>(old(terms)@)) ==> all_others::<C>(
            term_vals::<C>(final(terms)@),
        ),
        arith::eqm(
            terms_sum::<C>(term_vals::<C>(final(terms)@)),
            terms_sum::<C>(term_vals::<C>(old(terms)@)) * factor.val(),
            C::ScalarExt::order(),
        ),
{
    let ghost q = C::ScalarExt::order();
    let ghost f = factor.val();
    let ghost before = terms@;
    let mut i: usize = 0;
    while i < terms.len()
        invariant
            i <= terms@.len(),
            terms@.len() == before.len(),
            q == C::ScalarExt::order(),
            f == factor.val(),
            forall|j: int| i <= j < terms@.len() ==> #[trigger] terms@[j] == before[j],
            forall|j: int|
                0 <= j < i ==> term_val::<C>(#[trigger] terms@[j]) == (Term {
                    x: before[j].0.val(),
                    scalar: (before[j].1.0.val() * f) % q,
                    y: before[j].1.1.val(),
                }),
        decreases terms@.len() - i,
    {
        let (x, (scalar, y)) = terms[i];
        terms[i] = (x, (scalar.mul(factor), y));
        i += 1;
    }
    proof {
        C::ScalarExt::lemma_order();
        let (s, r) = (term_vals::<C>(before), term_vals::<C>(terms@));
        assert forall|j: int| 0 <= j < r.len() implies (#[trigger] r[j]) == (Term {
            x: s[j].x,
            scalar: (s[j].scalar * f) % q,
            y: s[j].y,
        }) by {
            assert(r[j] == term_val::<C>(terms@[j]));
        }
        lemma_terms_scaled::<C>(s, r, f);
        if sorted(s) {
            assert forall|j: int, k: int| 0 <= j < k < r.len() implies (#[trigger] r[j]).x < (
            #[trigger] r[k]).x by {
                assert(s[j].x < s[k].x);
            }
        }
        if all_others::<C>(s) {
            assert forall|j: int| 0 <= j < r.len() implies is_other::<C>(
                (#[trigger] r[j]).x,
                r[j].y,
            ) by {
                assert(is_other::<C>(s[j].x, s[j].y));
            }
        }
    }
}

proof fn lemma_terms_scaled<C: CurveAffine>(s: Seq<Term>, r: Seq<Term>, f: int)
    requires
        s.len() == r.len(),
        forall|j: int|
            0 <= j < r.len() ==> (#[trigger] r[j]) == (Term {
                x: s[j].x,
                scalar: (s[j].scalar * f) % C::ScalarExt::order(),
                y: s[j].y,
            }),
    ensures
        arith::eqm(terms_sum::<C>(r), terms_sum::<C>(s) * f, C::ScalarExt::order()),
    decreases s.len(),
{
    C::ScalarExt::lemma_order();
    let q = C::ScalarExt::order();
    if s.len() == 0 {
        lemma_mul_basics(f);
    } else {
        lemma_terms_scaled::<C>(s.drop_last(), r.drop_last(), f);
        assert(r.last() == r[r.len() - 1]);
        let a = s.last().scalar;
        let l = C::log_of((s.last().x, s.last().y));
        let t = terms_sum::<C>(s.drop_last());
        arith::lemma_mod_range(a * f, q);
        arith::lemma_eqm_mul((a * f) % q, a * f, l, l, q);
        arith::lemma_eqm_add(terms_sum::<C>(r.drop_last()), t * f, ((a * f) % q) * l, (a * f) * l, q);
        assert((t + a * l) * f == t * f + (a * f) * l) by (nonlinear_arith);
    }
}

/// Multiplies the values that are not zero.
fn scale_values<F: Field>(values: &Vec<F>, factor: F) -> (r: Vec<F>)
    ensures
        r@.len() == values@.len(),
        forall|i: int|
            0 <= i < r@.len() ==> (#[trigger] r@[i]).val() == (values@[i].val() * factor.val())
                % F::order(),
{
    let mut r: Vec<F> = Vec::with_capacity(values.len());
    let mut i: usize = 0;
    while i < values.len()
        invariant
            i <= values@.len(),
            r@.len() == i,
            forall|j: int|
                0 <= j < i ==> (#[trigger] r@[j]).val() == (values@[j].val() * factor.val())
                    % F::order(),
        decreases values@.len() - i,
    {
        if values[i].is_zero() {
            proof {
                F::lemma_order();
                lemma_mul_basics(factor.val());
                arith::lemma_mod_small(0, F::order());
            }
            r.push(values[i]);
        } else {
            r.push(values[i].mul(factor));
        }
        i += 1;
    }
    r
}

fn concat_terms<C: CurveAffine>(terms: Vec<ArbitraryTerm<C>>, more: &Vec<ArbitraryTerm<C>>) -> (r: Vec<
    ArbitraryTerm<C>,
>)
    ensures
        r@ == terms@ + more@,
{
    let mut r = terms;
    let mut i: usize = 0;
    assert(terms@ + more@.take(0) =~= terms@);
    while i < more.len()
        invariant
            i <= more@.len(),
            r@ == terms@ + more@.take(i as int),
        decreases more@.len() - i,
    {
        r.push(more[i]);
        i += 1;
        assert(r@ =~= terms@ + more@.take(i as int));
    }
    assert(more@.take(i as int) =~= more@);
    r
}

fn push_base<C: CurveAffine>(
    scalars: &mut Vec<C::ScalarExt>,
    bases: &mut Vec<C>,
    scalar: C::ScalarExt,
    base: C,
)
    requires
        old(scalars)@.len() == old(bases)@.len(),
        curve::all_on_curve(old(bases)@),
        base.on_curve(),
    ensures
        final(scalars)@.len() == final(bases)@.len(),
        curve::all_on_curve(final(bases)@),
        multiexp::dot(poly::vals(final(scalars)@), curve::logs(final(bases)@)) == multiexp::dot(
            poly::vals(old(scalars)@),
            curve::logs(old(bases)@),
        ) + scalar.val() * curve::log(base),
{
    let ghost (s, b) = (scalars@, bases@);
    scalars.push(scalar);
    bases.push(base);
    proof {
        assert(poly::vals(scalars@) =~= poly::vals(s).push(scalar.val()));
        assert(curve::logs(bases@) =~= curve::logs(b).push(curve::log(base)));
        multiexp::lemma_dot_push(poly::vals(s), curve::logs(b), scalar.val(), curve::log(base));
    }
}

/// Part `i` is added to the sum before it.
pub open spec fn accumulates<'a, C: CurveAffine>(
    sums: Seq<MSM<'a, C>>,
    parts: Seq<MSM<'a, C>>,
    i: int,
) -> bool {
    arith::eqm(sums[i + 1].total(), sums[i].total() + parts[i].total(), C::ScalarExt::order())
}

/// Sums that start equal and take up the same parts, one by one or in batches, stay equal.
pub proof fn law_batch_aggregation_matches_incremental<'a, C: CurveAffine>(
    incremental: Seq<MSM<'a, C>>,
    batched: Seq<MSM<'a, C>>,
    parts: Seq<MSM<'a, C>>,
)
    requires
        incremental.len() == parts.len() + 1,
        batched.len() == parts.len() + 1,
        arith::eqm(incremental[0].total(), batched[0].total(), C::ScalarExt::order()),
        forall|i: int| 0 <= i < parts.len() ==> #[trigger] accumulates(incremental, parts, i),
        forall|i: int| 0 <= i < parts.len() ==> #[trigger] accumulates(batched, parts, i),
    ensures
        arith::eqm(
            incremental[parts.len() as int].total(),
            batched[parts.len() as int].total(),
            C::ScalarExt::order(),
        ),
    decreases parts.len(),
{
    let q = C::ScalarExt::order();
    C::ScalarExt::lemma_order();
    if parts.len() > 0 {
        let last = parts.len() - 1;
        let (a, b, c) = (incremental.drop_last(), batched.drop_last(), parts.drop_last());
        assert forall|i: int| 0 <= i < c.len() implies #[trigger] accumulates(a, c, i) by {
            assert(accumulates(incremental, parts, i));
        }
        assert forall|i: int| 0 <= i < c.len() implies #[trigger] accumulates(b, c, i) by {
            assert(accumulates(batched, parts, i));
        }
        law_batch_aggregation_matches_incremental(a, b, c);
        assert(accumulates(incremental, parts, last));
        assert(accumulates(batched, parts, last));
        arith::lemma_eqm_add(
            incremental[last].total(),
            batched[last].total(),
            parts[last].total(),
            parts[last].total(),
            q,
        );
    }
}

/// A term goes behind sorted terms with smaller first coordinates.
proof fn lemma_with_term_last(terms: Seq<Term>, t: Term, q: int)
    requires
        forall|j: int| 0 <= j < terms.len() ==> (#[trigger] terms[j]).x < t.x,
    ensures
        with_term(terms, t, q) == terms.push(t),
{
    lemma_with_term(terms, t, q, terms.len() as int);
    assert(terms.take(terms.len() as int) + seq![t] + terms.skip(terms.len() as int)
        =~= terms.push(t));
}

/// Merging leaves sorted terms as they are.
proof fn lemma_canonical_sorted(terms: Seq<Term>, n: int, q: int)
    requires
        sorted(terms),
        0 <= n <= terms.len(),
    ensures
        canonical(terms.take(n), q) == terms.take(n),
    decreases n,
{
    if n > 0 {
        lemma_canonical_sorted(terms, n - 1, q);
        let s = terms.take(n);
        assert(s.drop_last() =~= terms.take(n - 1));
        lemma_with_term_last(terms.take(n - 1), terms[n - 1], q);
        assert(terms.take(n - 1).push(terms[n - 1]) =~= s);
    } else {
        assert(terms.take(0) =~= Seq::<Term>::empty());
    }
}

/// One more term keeps terms sorted.
proof fn lemma_with_term_sorted(terms: Seq<Term>, t: Term, q: int)
    requires
        sorted(terms),
    ensures
        sorted(with_term(terms, t, q)),
        forall|j: int|
            0 <= j < with_term(terms, t, q).len() ==> (#[trigger] with_term(terms, t, q)[j]).x
                == t.x || exists|i: int|
                0 <= i < terms.len() && (#[trigger] terms[i]).x == with_term(terms, t, q)[j].x,
    decreases terms.len(),
{
    let r = with_term(terms, t, q);
    if terms.len() > 0 {
        let f = terms.skip(1);
        assert forall|i: int, j: int| 0 <= i < j < f.len() implies (#[trigger] f[i]).x < (
        #[trigger] f[j]).x by {
            assert(f[i] == terms[i + 1] && f[j] == terms[j + 1]);
        }
        assert forall|i: int| 0 <= i < f.len() implies terms[0].x < (#[trigger] f[i]).x by {
            assert(f[i] == terms[i + 1]);
        }
        if terms[0].x < t.x {
            lemma_with_term_sorted(f, t, q);
            let g = with_term(f, t, q);
            assert forall|j: int| 0 <= j < r.len() implies (#[trigger] r[j]).x == t.x || exists|
                i: int,
            |
                0 <= i < terms.len() && (#[trigger] terms[i]).x == r[j].x by {
                if j == 0 {
                    assert(terms[0].x == r[0].x);
                } else {
                    assert(r[j] == g[j - 1]);
                    if g[j - 1].x != t.x {
                        let i = choose|i: int|
                            0 <= i < f.len() && (#[trigger] f[i]).x == g[j - 1].x;
                        assert(terms[i + 1].x == r[j].x);
                    }
                }
            }
            assert forall|i: int, j: int| 0 <= i < j < r.len() implies (#[trigger] r[i]).x < (
            #[trigger] r[j]).x by {
                assert(r[j] == g[j - 1]);
                if i > 0 {
                    assert(r[i] == g[i - 1]);
                } else if g[j - 1].x != t.x {
                    let k = choose|k: int| 0 <= k < f.len() && (#[trigger] f[k]).x == g[j - 1].x;
                }
            }
        } else if terms[0].x == t.x {
            assert forall|j: int| 0 <= j < r.len() implies (#[trigger] r[j]).x == t.x || exists|
                i: int,
            |
                0 <= i < terms.len() && (#[trigger] terms[i]).x == r[j].x by {
                if j > 0 {
                    assert(r[j] == terms[j]);
                }
            }
            assert forall|i: int, j: int| 0 <= i < j < r.len() implies (#[trigger] r[i]).x < (
            #[trigger] r[j]).x by {
                assert(r[j] == terms[j]);
                assert(r[i].x == terms[i].x);
            }
        } else {
            assert forall|j: int| 0 <= j < r.len() implies (#[trigger] r[j]).x == t.x || exists|
                i: int,
            |
                0 <= i < terms.len() && (#[trigger] terms[i]).x == r[j].x by {
                if j > 0 {
                    assert(r[j] == terms[j - 1]);
                }
            }
            assert forall|i: int, j: int| 0 <= i < j < r.len() implies (#[trigger] r[i]).x < (
            #[trigger] r[j]).x by {
                assert(r[j] == terms[j - 1]);
                if i > 0 {
                    assert(r[i] == terms[i - 1]);
                } else if j > 1 {
                    assert(terms[0].x < terms[j - 1].x);
                }
            }
        }
    }
}

pub proof fn lemma_with_terms_sorted(terms: Seq<Term>, more: Seq<Term>, q: int)
    requires
        sorted(terms),
    ensures
        sorted(with_terms(terms, more, q)),
    decreases more.len(),
{
    if more.len() > 0 {
        lemma_with_terms_sorted(terms, more.drop_last(), q);
        lemma_with_term_sorted(with_terms(terms, more.drop_last(), q), more.last(), q);
    }
}

/// Merging terms that are merged changes nothing.
pub proof fn law_merging_twice(terms: Seq<Term>, q: int)
    ensures
        canonical(canonical(terms, q), q) == canonical(terms, q),
{
    lemma_with_terms_sorted(Seq::empty(), terms, q);
    let s = canonical(terms, q);
    lemma_canonical_sorted(s, s.len() as int, q);
    assert(s.take(s.len() as int) =~= s);
}

/// A sum does not depend on the order.
proof fn lemma_sum_permuted(a: Seq<int>, b: Seq<int>)
    requires
        a.to_multiset() == b.to_multiset(),
    ensures
        arith::seq_sum(a) == arith::seq_sum(b),
    decreases a.len(),
{
    broadcast use vstd::seq_lib::group_to_multiset_ensures;

    assert(a.len() == a.to_multiset().len() && b.len() == b.to_multiset().len());
    if a.len() > 0 {
        let x = a.last();
        assert(a.contains(x)) by {
            assert(a[a.len() - 1] == x);
        }
        assert(b.contains(x)) by {
            assert(a.to_multiset().count(x) > 0);
            assert(b.to_multiset().count(x) > 0);
        }
        let i = choose|i: int| 0 <= i < b.len() && b[i] == x;
        assert(a.drop_last() =~= a.remove(a.len() - 1));
        lemma_sum_permuted(a.drop_last(), b.remove(i));
        lemma_sum_removed(b, i);
    }
}

proof fn lemma_sum_removed(s: Seq<int>, i: int)
    requires
        0 <= i < s.len(),
    ensures
        arith::seq_sum(s) == arith::seq_sum(s.remove(i)) + s[i],
    decreases s.len(),
{
    if i == s.len() - 1 {
        assert(s.remove(i) =~= s.drop_last());
    } else {
        lemma_sum_removed(s.drop_last(), i);
        assert(s.remove(i).drop_last() =~= s.drop_last().remove(i));
        assert(s.remove(i).last() == s.last());
    }
}

/// What each term adds.
pub open spec fn term_logs<C: CurveAffine>(terms: Seq<Term>) -> Seq<int> {
    Seq::new(terms.len(), |i: int| terms[i].scalar * C::log_of((terms[i].x, terms[i].y)))
}

proof fn lemma_terms_sum_logs<C: CurveAffine>(terms: Seq<Term>)
    ensures
        terms_sum::<C>(terms) == arith::seq_sum(term_logs::<C>(terms)),
    decreases terms.len(),
{
    if terms.len() > 0 {
        lemma_terms_sum_logs::<C>(terms.drop_last());
        assert(term_logs::<C>(terms).drop_last() =~= term_logs::<C>(terms.drop_last()));
    }
}

/// The sum of merged terms does not depend on the order in which they were given.
pub proof fn law_order_of_terms<C: CurveAffine>(
    a: Seq<Term>,
    b: Seq<Term>,
    merged_a: Seq<Term>,
    merged_b: Seq<Term>,
)
    requires
        a.to_multiset() == b.to_multiset(),
        arith::eqm(terms_sum::<C>(merged_a), terms_sum::<C>(a), C::ScalarExt::order()),
        arith::eqm(terms_sum::<C>(merged_b), terms_sum::<C>(b), C::ScalarExt::order()),
    ensures
        arith::eqm(terms_sum::<C>(merged_a), terms_sum::<C>(merged_b), C::ScalarExt::order()),
{
    lemma_terms_sum_permuted::<C>(a, b);
}

proof fn lemma_terms_sum_permuted<C: CurveAffine>(a: Seq<Term>, b: Seq<Term>)
    requires
        a.to_multiset() == b.to_multiset(),
    ensures
        terms_sum::<C>(a) == terms_sum::<C>(b),
    decreases a.len(),
{
    broadcast use vstd::seq_lib::group_to_multiset_ensures;

    assert(a.len() == a.to_multiset().len() && b.len() == b.to_multiset().len());
    if a.len() > 0 {
        let x = a.last();
        assert(a.contains(x)) by {
            assert(a[a.len() - 1] == x);
        }
        assert(b.contains(x)) by {
            assert(a.to_multiset().count(x) > 0);
            assert(b.to_multiset().count(x) > 0);
        }
        let i = choose|i: int| 0 <= i < b.len() && b[i] == x;
        assert(a.drop_last() =~= a.remove(a.len() - 1));
        lemma_terms_sum_permuted::<C>(a.drop_last(), b.remove(i));
        lemma_terms_sum_logs::<C>(b);
        lemma_terms_sum_logs::<C>(b.remove(i));
        lemma_sum_removed(term_logs::<C>(b), i);
        assert(term_logs::<C>(b.remove(i)) =~= term_logs::<C>(b).remove(i));
    }
}

/// How sums were aggregated: a sum, or one sum added to another, with the total that came
/// out.
pub enum SumTree {
    Part(int),
    Added(Box<SumTree>, Box<SumTree>, int),
}

impl SumTree {
    /// The total at the root.
    pub open spec fn total(self) -> int {
        match self {
            SumTree::Part(total) => total,
            SumTree::Added(_, _, total) => total,
        }
    }

    /// The totals of the parts.
    pub open spec fn parts(self) -> Seq<int>
        decreases self,
    {
        match self {
            SumTree::Part(total) => seq![total],
            SumTree::Added(a, b, _) => a.parts() + b.parts(),
        }
    }

    /// Whether every total is that of the two sums it comes from.
    pub open spec fn adds_up(self, q: int) -> bool
        decreases self,
    {
        match self {
            SumTree::Part(_) => true,
            SumTree::Added(a, b, total) => a.adds_up(q) && b.adds_up(q) && arith::eqm(
                total,
                a.total() + b.total(),
                q,
            ),
        }
    }

    proof fn lemma_total(self, q: int)
        requires
            q > 0,
            self.adds_up(q),
        ensures
            arith::eqm(self.total(), arith::seq_sum(self.parts()), q),
        decreases self,
    {
        match self {
            SumTree::Part(total) => {
                assert(seq![total].drop_last() =~= Seq::<int>::empty());
                reveal_with_fuel(arith::seq_sum, 2);
            },
            SumTree::Added(a, b, total) => {
                a.lemma_total(q);
                b.lemma_total(q);
                arith::lemma_seq_sum_concat(a.parts(), b.parts());
                arith::lemma_eqm_add(a.total(), arith::seq_sum(a.parts()), b.total(), arith::seq_sum(b.parts()), q);
            },
        }
    }
}

/// Sums of the same parts have the same total, in whatever order and as whatever tree they
/// were aggregated.
pub proof fn law_aggregation_in_any_order(a: SumTree, b: SumTree, q: int)
    requires
        q > 0,
        a.adds_up(q),
        b.adds_up(q),
        a.parts().to_multiset() == b.parts().to_multiset(),
    ensures
        arith::eqm(a.total(), b.total(), q),
{
    a.lemma_total(q);
    b.lemma_total(q);
    lemma_sum_permuted(a.parts(), b.parts());
}

} // verus!
