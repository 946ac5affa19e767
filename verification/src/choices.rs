//! What is counted, chosen and weighted, written out place by place.
use crate::arith;
use crate::ast;
use crate::ast::{Ast, AstView, IndexedLeaf, RowEnv};
use crate::basis::BasisOps;
use crate::commit;
use crate::curve;
use crate::curve::CurveAffine;
use crate::domain::DomainView;
use crate::evaluator::Evaluator;
use crate::evaluate;
use crate::field::Field;
use crate::instance;
use crate::instance::PreparedInstanceTable;
use crate::ipa;
use crate::ipa::{IpaOpening, IpaRoundTerms};
use crate::meaning;
use crate::poly;
use crate::poly::Polynomial;
use crate::scalars;
use crate::scalars::{EvaluationChallenge, EvaluationChallenges, PlanScalar};
use crate::selectors;
use crate::selectors::CompressedSelectorShape;
use crate::shapes;
use crate::sums;
use crate::tables;
use crate::values;
use vstd::arithmetic::div_mod::*;
use vstd::arithmetic::mul::*;
use vstd::arithmetic::power::*;
use vstd::arithmetic::power2::*;
use vstd::prelude::*;

verus! {

/// How often a value occurs is how many places hold it.
pub proof fn law_occurrences(s: Seq<int>, x: int)
    ensures
        commit::occurrences(s, x) == s.filter(|y: int| y == x).len(),
    decreases s.len(),
{
    reveal(Seq::filter);
    if s.len() > 0 {
        law_occurrences(s.drop_last(), x);
    }
}

/// The product over the roots of a combination, without the assigned one.
proof fn lemma_other_factors(n: nat, j: int, q: int)
    ensures
        values::other_factors(n, j, q) == Seq::new(
            n,
            |r: int|
                if r + 1 == j {
                    1
                } else {
                    r + 1 - q
                },
        ).fold_left(1int, |a: int, b: int| a * b),
    decreases n,
{
    let t = Seq::new(
        n,
        |r: int|
            if r + 1 == j {
                1
            } else {
                r + 1 - q
            },
    );
    if n > 0 {
        let m = (n - 1) as nat;
        lemma_other_factors(m, j, q);
        assert(t.drop_last() =~= Seq::new(
            m,
            |r: int|
                if r + 1 == j {
                    1
                } else {
                    r + 1 - q
                },
        ));
        lemma_mul_basics(values::other_factors(m, j, q));
    }
}

/// Where the polynomials that are registered for selectors hold, row by row, the value `q`
/// of the combined column times the product of `r - q` over the roots `r` of the combination
/// but the assigned one, an evaluator with the selectors gives what one without them gives.
pub proof fn law_selectors_keep_the_rows<'p, 'q, E, F: Field, B: BasisOps>(
    e: Evaluator<'p, E, F, B>,
    plain: Evaluator<'q, E, F, B>,
    a: AstView,
    queries: Seq<Polynomial<F, B>>,
    selectors: Seq<Polynomial<F, B>>,
    x: Polynomial<F, B>,
    y: Polynomial<F, B>,
    domain: DomainView,
    challenges: EvaluationChallenges<F>,
)
    requires
        forall|row: int| 0 <= row < B::rows(domain) ==> #[trigger] B::unit_at(row) == 1,
        plain.compressed_selectors@.len() == 0,
        evaluate::poly_rows(plain.polys@) == evaluate::poly_rows(e.polys@),
        queries.len() == e.compressed_selectors@.len(),
        selectors.len() == e.compressed_selectors@.len(),
        forall|i: int|
            0 <= i < queries.len() ==> plain.rows_of(
                #[trigger] queries[i],
                plain.resolved(
                    Ast::<E, F, B>::Poly(e.compressed_selectors@[i].query).view(),
                ),
                domain,
                challenges.view(),
            ),
        forall|i: int|
            0 <= i < selectors.len() ==> plain.rows_of(
                #[trigger] selectors[i],
                plain.resolved(
                    Ast::<E, F, B>::Poly(e.compressed_selectors@[i].selector).view(),
                ),
                domain,
                challenges.view(),
            ),
        forall|i: int, row: int|
            0 <= i < selectors.len() && 0 <= row < B::rows(domain) ==> {
                let q = queries[i].values@[row].val();
                (#[trigger] selectors[i].values@[row]).val() == (q * Seq::new(
                    e.compressed_selectors@[i].combination_len as nat,
                    |r: int|
                        if r + 1 == e.compressed_selectors@[i].assigned_root {
                            1
                        } else {
                            r + 1 - q
                        },
                ).fold_left(1int, |s: int, t: int| s * t)) % F::order()
            },
        e.rows_of(x, e.resolved(a), domain, challenges.view()),
        plain.rows_of(y, plain.resolved(a), domain, challenges.view()),
    ensures
        x.values@.len() == y.values@.len(),
        forall|row: int|
            0 <= row < x.values@.len() ==> (#[trigger] x.values@[row]).val()
                == y.values@[row].val(),
{
    let p = F::order();
    let ch = challenges.view();
    F::lemma_order();
    meaning::lemma_unresolved(plain, a);
    assert forall|row: int| 0 <= row < x.values@.len() implies (#[trigger] x.values@[row]).val()
        == y.values@[row].val() by {
        let env = e.env(domain, ch, row);
        assert(env == plain.env(domain, ch, row));
        let s = e.selectors();
        assert forall|i: int| 0 <= i < s.len() implies #[trigger] selectors::selector_holds(s[i], env) by {
            let shape = e.compressed_selectors@[i];
            let (qa, sa) = (
                Ast::<E, F, B>::Poly(shape.query).view(),
                Ast::<E, F, B>::Poly(shape.selector).view(),
            );
            meaning::lemma_unresolved(plain, qa);
            meaning::lemma_unresolved(plain, sa);
            assert(plain.rows_of(queries[i], qa, domain, ch));
            assert(plain.rows_of(selectors[i], sa, domain, ch));
            let q = queries[i].values@[row].val();
            let v = selectors[i].values@[row].val();
            assert(q == ast::ast_value(qa, env));
            assert(v == ast::ast_value(sa, env));
            let (lq, lv) = ((env.leaf)(s[i].query), (env.leaf)(s[i].selector));
            assert(q == lq % p && v == lv % p);
            let (len, root) = (s[i].combination_len as nat, s[i].assigned_root as int);
            lemma_other_factors(len, root, q);
            assert(v == (q * values::other_factors(len, root, q)) % p);
            arith::lemma_mod_range(lq, p);
            lemma_other_factors_eqm(len, root, q, lq, p);
            arith::lemma_eqm_mul(q, lq, values::other_factors(len, root, q), values::other_factors(len, root, lq), p);
        }
        selectors::law_replaced_selectors_keep_values(a, s, env);
        assert(x.values@[row].val() == ast::ast_value(e.resolved(a), env));
        assert(y.values@[row].val() == ast::ast_value(a, env));
    }
}

/// The expression of a registered selector is read from the selector's polynomial, whatever
/// that holds, where no earlier selector has the same expression.
pub proof fn law_selector_is_read<'p, 'q, E, F: Field, B: BasisOps>(
    e: Evaluator<'p, E, F, B>,
    plain: Evaluator<'q, E, F, B>,
    i: int,
    x: Polynomial<F, B>,
    y: Polynomial<F, B>,
    domain: DomainView,
    challenges: EvaluationChallenges<F>,
)
    requires
        plain.compressed_selectors@.len() == 0,
        evaluate::poly_rows(plain.polys@) == evaluate::poly_rows(e.polys@),
        0 <= i < e.compressed_selectors@.len(),
        4 <= e.compressed_selectors@[i].combination_len,
        1 <= e.compressed_selectors@[i].assigned_root <= e.compressed_selectors@[i].combination_len,
        forall|j: int|
            0 <= j < i ==> shapes::selector_node(
                (#[trigger] e.compressed_selectors@[j]).query.view(),
                e.compressed_selectors@[j].combination_len as int,
                e.compressed_selectors@[j].assigned_root as int,
                F::order(),
            ) != shapes::selector_node(
                e.compressed_selectors@[i].query.view(),
                e.compressed_selectors@[i].combination_len as int,
                e.compressed_selectors@[i].assigned_root as int,
                F::order(),
            ),
        e.rows_of(
            x,
            e.resolved(
                shapes::selector_node(
                    e.compressed_selectors@[i].query.view(),
                    e.compressed_selectors@[i].combination_len as int,
                    e.compressed_selectors@[i].assigned_root as int,
                    F::order(),
                ),
            ),
            domain,
            challenges.view(),
        ),
        plain.rows_of(
            y,
            plain.resolved(Ast::<E, F, B>::Poly(e.compressed_selectors@[i].selector).view()),
            domain,
            challenges.view(),
        ),
    ensures
        x.values@.len() == y.values@.len(),
        forall|row: int|
            0 <= row < x.values@.len() ==> (#[trigger] x.values@[row]).val()
                == y.values@[row].val(),
{
    let shape = e.compressed_selectors@[i];
    let a = shapes::selector_node(
        shape.query.view(),
        shape.combination_len as int,
        shape.assigned_root as int,
        F::order(),
    );
    let s = e.selectors();
    assert forall|j: int| 0 <= j < i implies !#[trigger] selectors::selects(a, s[j], F::order()) by {
        let other = e.compressed_selectors@[j];
    }
    assert(selectors::selects(a, s[i], F::order()));
    lemma_first_selector(a, s, F::order(), i);
    let leaf = Ast::<E, F, B>::Poly(shape.selector).view();
    meaning::lemma_unresolved(plain, leaf);
    assert forall|row: int| 0 <= row < x.values@.len() implies (#[trigger] x.values@[row]).val()
        == y.values@[row].val() by {
        let env = e.env(domain, challenges.view(), row);
        assert(env == plain.env(domain, challenges.view(), row));
        assert(x.values@[row].val() == ast::ast_value(e.resolved(a), env));
        assert(y.values@[row].val() == ast::ast_value(leaf, env));
    }
}

proof fn lemma_first_selector(a: AstView, s: Seq<CompressedSelectorShape>, p: int, i: int)
    requires
        0 <= i < s.len(),
        selectors::selects(a, s[i], p),
        forall|j: int| 0 <= j < i ==> !#[trigger] selectors::selects(a, s[j], p),
    ensures
        selectors::selector_for(a, s, p) == Some(s[i].selector),
    decreases i,
{
    if i > 0 {
        assert(!selectors::selects(a, s[0], p));
        let t = s.skip(1);
        assert forall|j: int| 0 <= j < i - 1 implies !#[trigger] selectors::selects(a, t[j], p) by {
            assert(!selectors::selects(a, s[j + 1], p));
        }
        lemma_first_selector(a, t, p, i - 1);
    }
}

/// The expression of a selector is `q` times the product of `r - q` over the roots `r` of the
/// combination but the assigned one, where `q` is the value of the combined column.
pub proof fn law_selector_expression(query: IndexedLeaf, len: nat, root: int, env: RowEnv)
    requires
        env.p > 2,
        env.unit == 1,
    ensures
        ast::ast_value(shapes::selector_node(query, len as int, root, env.p), env) == ((env.leaf)(query)
            * Seq::new(
            len,
            |r: int|
                if r + 1 == root {
                    1
                } else {
                    r + 1 - (env.leaf)(query)
                },
        ).fold_left(1int, |s: int, t: int| s * t)) % env.p,
{
    let a = shapes::selector_node(query, len as int, root, env.p);
    values::lemma_selector_value(query, len, root, env);
    lemma_other_factors(len, root, (env.leaf)(query));
    let v = ast::ast_combine(a.op, ast::ast_values(a.children, env), env);
    assert(ast::ast_value(a, env) == v % env.p);
    arith::lemma_mod_range(v, env.p);
}

proof fn lemma_other_factors_eqm(n: nat, j: int, a: int, b: int, p: int)
    requires
        p > 0,
        arith::eqm(a, b, p),
    ensures
        arith::eqm(values::other_factors(n, j, a), values::other_factors(n, j, b), p),
    decreases n,
{
    if n > 0 {
        let m = (n - 1) as nat;
        lemma_other_factors_eqm(m, j, a, b, p);
        arith::lemma_eqm_sub(n as int, n as int, a, b, p);
        arith::lemma_eqm_mul(values::other_factors(m, j, a), values::other_factors(m, j, b), n - a, n - b, p);
    }
}

/// The last of the flags adds its point.
proof fn lemma_chosen_last(points: Seq<int>, first: int, mask: int, flags: nat)
    requires
        mask >= 0,
        flags > 0,
    ensures
        instance::chosen_sum(points, first, mask, flags) == instance::chosen_sum(
            points,
            first,
            mask,
            (flags - 1) as nat,
        ) + (if (mask / (pow2((flags - 1) as nat) as int)) % 2 == 1 {
            points[first + flags - 1]
        } else {
            0
        }),
    decreases flags,
{
    lemma2_to64();
    if flags == 1 {
        reveal_with_fuel(instance::chosen_sum, 2);
        assert(mask / 1 == mask);
    } else {
        let f = (flags - 1) as nat;
        let e = (flags - 2) as nat;
        lemma_chosen_last(points, first + 1, mask / 2, f);
        lemma_pow2_unfold(f);
        lemma_pow2_pos(e);
        lemma_div_denominator(mask, 2, pow2(e) as int);
        assert((f - 1) as nat == e);
        assert(instance::chosen_sum(points, first, mask, f) == (if mask % 2 == 1 {
            points[first]
        } else {
            0
        }) + instance::chosen_sum(points, first + 1, mask / 2, e));
    }
}

proof fn lemma_chosen_sum(points: Seq<int>, first: int, mask: int, flags: nat)
    requires
        mask >= 0,
    ensures
        instance::chosen_sum(points, first, mask, flags) == Seq::new(
            flags,
            |i: int|
                if (mask / (pow2(i as nat) as int)) % 2 == 1 {
                    points[first + i]
                } else {
                    0
                },
        ).fold_left(0int, |a: int, b: int| a + b),
    decreases flags,
{
    let t = Seq::new(
        flags,
        |i: int|
            if (mask / (pow2(i as nat) as int)) % 2 == 1 {
                points[first + i]
            } else {
                0
            },
    );
    if flags > 0 {
        let f = (flags - 1) as nat;
        lemma_chosen_sum(points, first, mask, f);
        lemma_chosen_last(points, first, mask, flags);
        assert(t.drop_last() =~= Seq::new(
            f,
            |i: int|
                if (mask / (pow2(i as nat) as int)) % 2 == 1 {
                    points[first + i]
                } else {
                    0
                },
        ));
    }
}

/// The prepared table of public inputs holds the first rows, and for every choice among the
/// rows behind them the sum of the blind's base and of the chosen rows. Row by row, a choice
/// is a bit of the number of the sum.
pub proof fn law_instance_table<C: CurveAffine>(
    table: PreparedInstanceTable<C>,
    rows: Seq<C>,
    blind: C,
    dense_rows: int,
    boolean_rows: nat,
    mask: int,
)
    requires
        table.fits(rows, blind, dense_rows, boolean_rows),
        0 <= dense_rows,
        0 <= mask < pow2(boolean_rows),
    ensures
        table.table.bases@.len() == dense_rows,
        forall|b: int| 0 <= b < dense_rows ==> #[trigger] table.table.bases@[b] == rows[b],
        table.offsets@.len() == pow2(boolean_rows),
        table.offsets@[mask].on_curve(),
        curve::log(table.offsets@[mask]) == (curve::log(blind) + Seq::new(
            boolean_rows,
            |i: int|
                if (mask / (pow2(i as nat) as int)) % 2 == 1 {
                    curve::log(rows[dense_rows + i])
                } else {
                    0
                },
        ).fold_left(0int, |a: int, b: int| a + b)) % C::ScalarExt::order(),
{
    lemma_chosen_sum(curve::logs(rows), dense_rows, mask, boolean_rows);
    assert(Seq::new(
        boolean_rows,
        |i: int|
            if (mask / (pow2(i as nat) as int)) % 2 == 1 {
                curve::logs(rows)[dense_rows + i]
            } else {
                0
            },
    ) =~= Seq::new(
        boolean_rows,
        |i: int|
            if (mask / (pow2(i as nat) as int)) % 2 == 1 {
                curve::log(rows[dense_rows + i])
            } else {
                0
            },
    ));
}

/// A sparse sum over a table's bases is the sum of its terms, each the base that it names as
/// often as its scalar says.
pub proof fn law_sparse_sum<C: CurveAffine>(bases: Seq<C>, terms: Seq<(usize, C::ScalarExt)>)
    ensures
        tables::sparse_sum(bases, terms) == Seq::new(
            terms.len(),
            |i: int| curve::log(bases[terms[i].0 as int]) * terms[i].1.val(),
        ).fold_left(0int, |a: int, b: int| a + b),
    decreases terms.len(),
{
    let t = Seq::new(terms.len(), |i: int| curve::log(bases[terms[i].0 as int]) * terms[i].1.val());
    if terms.len() > 0 {
        let f = terms.drop_last();
        law_sparse_sum(bases, f);
        assert(t.drop_last() =~= Seq::new(
            f.len(),
            |i: int| curve::log(bases[f[i].0 as int]) * f[i].1.val(),
        ));
    }
}

/// A masking polynomial has a term of the constant and one of each power of two below the
/// size, and is zero at the point that it was made for.
pub proof fn law_mask<'a, C: CurveAffine>(opening: IpaOpening<'a, C>)
    requires
        opening.wf(),
    ensures
        opening.s_poly@.len() == opening.params.k + 1,
        opening.s_poly@[0].0 == 0,
        forall|t: int|
            0 <= t < opening.params.k ==> (#[trigger] opening.s_poly@[t + 1]).0 == pow2(t as nat),
        Seq::new(
            opening.s_poly@.len(),
            |t: int|
                opening.s_poly@[t].1.val() * pow(
                    opening.x_3.val(),
                    opening.s_poly@[t].0 as nat,
                ),
        ).fold_left(0int, |a: int, b: int| a + b) % C::ScalarExt::order() == 0,
{
    C::ScalarExt::lemma_order();
    sums::law_sparse_polynomial_value(opening.s_poly@, opening.x_3.val());
    arith::lemma_mod_small(0, C::ScalarExt::order());
}

/// What a mask adds to a coefficient.
proof fn lemma_sparse_coeff<F: Field>(terms: Seq<(usize, F)>, i: int)
    ensures
        ipa::sparse_coeff(terms, i) == Seq::new(
            terms.len(),
            |t: int|
                if terms[t].0 == i {
                    terms[t].1.val()
                } else {
                    0
                },
        ).fold_left(0int, |a: int, b: int| a + b),
    decreases terms.len(),
{
    let s = Seq::new(
        terms.len(),
        |t: int|
            if terms[t].0 == i {
                terms[t].1.val()
            } else {
                0
            },
    );
    if terms.len() > 0 {
        let f = terms.drop_last();
        lemma_sparse_coeff(f, i);
        assert(s.drop_last() =~= Seq::new(
            f.len(),
            |t: int|
                if f[t].0 == i {
                    f[t].1.val()
                } else {
                    0
                },
        ));
    }
}

/// The coefficients that an opening starts from are those of the polynomial, plus a multiple
/// of the mask's terms at their places, less the polynomial's value in the constant.
pub proof fn law_masked_coefficients<'a, C: CurveAffine>(opening: IpaOpening<'a, C>, xi: int, i: int)
    requires
        opening.wf(),
        0 <= i < opening.params.n,
    ensures
        opening.masked_coeff(xi, i) == (opening.p_poly.values@[i].val() + xi * Seq::new(
            opening.s_poly@.len(),
            |t: int|
                if opening.s_poly@[t].0 == i {
                    opening.s_poly@[t].1.val()
                } else {
                    0
                },
        ).fold_left(0int, |a: int, b: int| a + b) - (if i == 0 {
            Seq::new(
                opening.p_poly.values@.len(),
                |j: int| opening.p_poly.values@[j].val() * pow(opening.x_3.val(), j as nat),
            ).fold_left(0int, |a: int, b: int| a + b)
        } else {
            0
        })) % C::ScalarExt::order(),
{
    let p = opening.p_poly.values@;
    lemma_sparse_coeff(opening.s_poly@, i);
    sums::law_polynomial_value(poly::vals(p), opening.x_3.val());
    assert(Seq::new(poly::vals(p).len(), |j: int| poly::vals(p)[j] * pow(opening.x_3.val(), j as nat))
        =~= Seq::new(p.len(), |j: int| p[j].val() * pow(opening.x_3.val(), j as nat)));
}

/// What a mask takes off the constant: each drawn scalar times the power of the point whose
/// exponent is the power of two of its place.
pub proof fn law_sampled_mask(alphas: Seq<int>, x: int)
    ensures
        ipa::mask_sum(alphas, x) == Seq::new(
            alphas.len(),
            |t: int| alphas[t] * pow(x, pow2(t as nat)),
        ).fold_left(0int, |a: int, b: int| a + b),
    decreases alphas.len(),
{
    let s = Seq::new(alphas.len(), |t: int| alphas[t] * pow(x, pow2(t as nat)));
    if alphas.len() > 0 {
        let f = alphas.drop_last();
        law_sampled_mask(f, x);
        assert(s.drop_last() =~= Seq::new(f.len(), |t: int| f[t] * pow(x, pow2(t as nat))));
    }
}

/// A mask's terms are of the constant and of the powers of two, in order.
pub proof fn law_mask_places<F: Field>(terms: Seq<(usize, F)>, k: nat, t: int)
    requires
        ipa::is_mask(terms, k),
        0 <= t < k,
    ensures
        terms.len() == k + 1,
        terms[0].0 == 0,
        terms[t + 1].0 == pow2(t as nat),
{
}

/// The commitment to a mask is the sum of the generators that its terms name, each as often
/// as the term says, and of the blind's base as often as the mask's blind says.
pub proof fn law_mask_commitment<'a, C: CurveAffine>(opening: IpaOpening<'a, C>)
    ensures
        opening.mask_log() == (Seq::new(
            opening.s_poly@.len(),
            |t: int|
                opening.s_poly@[t].1.val() * curve::logs(
                    opening.params.g@,
                )[opening.s_poly@[t].0 as int],
        ).fold_left(0int, |a: int, b: int| a + b) + opening.s_poly_blind.0.val() * curve::log(
            opening.params.w,
        )) % C::ScalarExt::order(),
{
    sums::law_sparse_inner_product(opening.s_poly@, curve::logs(opening.params.g@));
}

/// A round's point is the sum of the bases, each as often as its coefficient says, of `u` as
/// often as the value times `z` says, and of `w` as often as the randomness says.
pub proof fn law_round_point<'a, C: CurveAffine>(
    terms: IpaRoundTerms<'a, C>,
    params: crate::params::Params<C>,
    z: int,
)
    requires
        terms.wf(),
    ensures
        terms.point_log(params, z) == (Seq::new(
            terms.coeffs@.len(),
            |i: int| terms.coeffs@[i].val() * curve::log(terms.bases@[i]),
        ).fold_left(0int, |a: int, b: int| a + b) + (terms.value.val() * z) * curve::log(params.u)
            + terms.randomness.val() * curve::log(params.w)) % C::ScalarExt::order(),
{
    let (c, b) = (poly::vals(terms.coeffs@), curve::logs(terms.bases@));
    sums::law_inner_product(c, b);
    assert(Seq::new(c.len(), |i: int| c[i] * b[i]) =~= Seq::new(
        terms.coeffs@.len(),
        |i: int| terms.coeffs@[i].val() * curve::log(terms.bases@[i]),
    ));
}

/// The value of a scalar of a plan, once the challenges are known.
pub proof fn law_scalar_values<F: Field>(scalar: PlanScalar<F>, challenges: EvaluationChallenges<F>)
    ensures
        ({
            let of = |c: EvaluationChallenge|
                match c {
                    EvaluationChallenge::Theta => challenges.theta.val(),
                    EvaluationChallenge::Beta => challenges.beta.val(),
                    EvaluationChallenge::Gamma => challenges.gamma.val(),
                    EvaluationChallenge::Y => challenges.y.val(),
                };
            scalars::scalar_value(scalar.view(), challenges.view(), F::order()) == (match scalar {
                PlanScalar::Literal(v) => v.val(),
                PlanScalar::Challenge(c) => of(c),
                PlanScalar::ScaledChallenge { challenge, factor } => (of(challenge)
                    * factor.val()) % F::order(),
                PlanScalar::ChallengePower { challenge, exponent } => pow(
                    of(challenge),
                    exponent as nat,
                ) % F::order(),
            })
        }),
{
}

/// What is recognised as a selector is of a combination of at least four, is assigned one of
/// its roots, and is worth the combined column times the product over the other roots.
pub proof fn law_recognised_selector(
    a: AstView,
    query: IndexedLeaf,
    len: int,
    assigned_root: int,
    env: RowEnv,
)
    requires
        env.p > 2,
        env.unit == 1,
        shapes::is_selector(a, query, len, assigned_root, env.p),
    ensures
        len >= 4,
        1 <= assigned_root <= len,
        ast::ast_value(a, env) == ((env.leaf)(query) * Seq::new(
            len as nat,
            |r: int|
                if r + 1 == assigned_root {
                    1
                } else {
                    r + 1 - (env.leaf)(query)
                },
        ).fold_left(1int, |s: int, t: int| s * t)) % env.p,
{
    law_selector_expression(query, len as nat, assigned_root, env);
}

} // verus!
