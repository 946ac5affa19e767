//! What the rows of an evaluated expression are, operation by operation.
use crate::arith;
use crate::ast;
use crate::ast::{Ast, AstLeaf, AstMul, AstOp, AstView};
use crate::basis;
use crate::basis::BasisOps;
use crate::domain::{DomainView, EvaluationDomain};
use crate::evaluate;
use crate::evaluator;
use crate::evaluator::Evaluator;
use crate::field::Field;
use crate::poly;
use crate::poly::{Coeff, ExtendedLagrangeCoeff, LagrangeCoeff, Polynomial, Rotation};
use crate::scalars::{BaseView, ChallengeView, EvaluationChallenge, EvaluationChallenges};
use crate::selectors;
use crate::selectors::CompressedSelectorShape;
use crate::sums;
use std::sync::Arc;
use vstd::arithmetic::div_mod::*;
use vstd::arithmetic::mul::*;
use vstd::arithmetic::power::*;
use vstd::arithmetic::power2::*;
use vstd::prelude::*;

verus! {

/// Without selectors nothing is replaced.
pub proof fn law_nothing_is_replaced(a: AstView, s: Seq<CompressedSelectorShape>, p: int)
    requires
        s.len() == 0,
    ensures
        selectors::replaced(a, s, p) == a,
    decreases a,
{
    lemma_none_replaced(a.children, s, p);
}

proof fn lemma_none_replaced(c: Seq<AstView>, s: Seq<CompressedSelectorShape>, p: int)
    requires
        s.len() == 0,
    ensures
        selectors::all_replaced(c, s, p) == c,
    decreases c,
{
    if c.len() > 0 {
        lemma_none_replaced(c.drop_last(), s, p);
        law_nothing_is_replaced(c.last(), s, p);
        assert(c =~= c.drop_last().push(c.last()));
    }
    assert(selectors::all_replaced(c, s, p) =~= c);
}

pub proof fn lemma_unresolved<'poly, E, F: Field, B: BasisOps>(
    e: Evaluator<'poly, E, F, B>,
    a: AstView,
)
    requires
        e.compressed_selectors@.len() == 0,
    ensures
        e.resolved(a) == a,
{
    law_nothing_is_replaced(a, e.selectors(), F::order());
}

/// A polynomial given by its values over the domain, read at a rotation, has at each row
/// the value that it has as many rows further, counted around the domain.
pub proof fn law_rotated_rows<'poly, E, F: Field>(
    e: Evaluator<'poly, E, F, LagrangeCoeff>,
    leaf: AstLeaf<E, LagrangeCoeff>,
    r: Polynomial<F, LagrangeCoeff>,
    domain: EvaluationDomain<F>,
    challenges: EvaluationChallenges<F>,
)
    requires
        e.compressed_selectors@.len() == 0,
        e.filled(&domain),
        leaf.index < e.polys@.len(),
        e.rows_of(
            r,
            e.resolved(Ast::<E, F, LagrangeCoeff>::Poly(leaf).view()),
            domain.view(),
            challenges.view(),
        ),
    ensures
        r.values@.len() == domain.n,
        forall|row: int|
            0 <= row < domain.n ==> (#[trigger] r.values@[row]).val()
                == e.polys@[leaf.index as int].poly().values@[(row + leaf.rotation.0) % (
            domain.n as int)].val(),
{
    let a = Ast::<E, F, LagrangeCoeff>::Poly(leaf).view();
    lemma_unresolved(e, a);
    F::lemma_order();
    let n = domain.n as int;
    let poly = e.polys@[leaf.index as int].poly();
    lemma_pow2_pos(domain.k as nat);
    assert forall|row: int| 0 <= row < n implies (#[trigger] r.values@[row]).val()
        == poly.values@[(row + leaf.rotation.0) % n].val() by {
        let at = (row + leaf.rotation.0) % n;
        lemma_mod_bound(row + leaf.rotation.0, n);
        let env = e.env(domain.view(), challenges.view(), row);
        assert(r.values@[row].val() == ast::ast_value(a, env));
        assert(poly.values@.len() == n);
        assert(evaluate::poly_rows(e.polys@)[leaf.index as int] == poly::vals(poly.values@));
        F::lemma_val(poly.values@[at]);
        arith::lemma_mod_small(poly.values@[at].val(), F::order());
    }
}

/// A polynomial given by its values over the extended domain, read at a rotation, has at
/// each row the value that it has as many steps of the domain further, each of them as many
/// rows as the extended domain is larger, counted around the extended domain.
pub proof fn law_rotated_extended_rows<'poly, E, F: Field>(
    e: Evaluator<'poly, E, F, ExtendedLagrangeCoeff>,
    leaf: AstLeaf<E, ExtendedLagrangeCoeff>,
    r: Polynomial<F, ExtendedLagrangeCoeff>,
    domain: EvaluationDomain<F>,
    challenges: EvaluationChallenges<F>,
)
    requires
        e.compressed_selectors@.len() == 0,
        e.filled(&domain),
        leaf.index < e.polys@.len(),
        e.rows_of(
            r,
            e.resolved(Ast::<E, F, ExtendedLagrangeCoeff>::Poly(leaf).view()),
            domain.view(),
            challenges.view(),
        ),
    ensures
        r.values@.len() == pow2(domain.extended_k as nat),
        forall|row: int|
            0 <= row < r.values@.len() ==> (#[trigger] r.values@[row]).val()
                == e.polys@[leaf.index as int].poly().values@[(row + leaf.rotation.0 * pow2(
                (domain.extended_k - domain.k) as nat,
            )) % (pow2(domain.extended_k as nat) as int)].val(),
{
    let a = Ast::<E, F, ExtendedLagrangeCoeff>::Poly(leaf).view();
    lemma_unresolved(e, a);
    F::lemma_order();
    let n = pow2(domain.extended_k as nat) as int;
    let step = leaf.rotation.0 * pow2((domain.extended_k - domain.k) as nat);
    let poly = e.polys@[leaf.index as int].poly();
    lemma_pow2_pos(domain.extended_k as nat);
    assert forall|row: int| 0 <= row < n implies (#[trigger] r.values@[row]).val()
        == poly.values@[(row + step) % n].val() by {
        let at = (row + step) % n;
        lemma_mod_bound(row + step, n);
        let env = e.env(domain.view(), challenges.view(), row);
        assert(r.values@[row].val() == ast::ast_value(a, env));
        assert(poly.values@.len() == n);
        assert(evaluate::poly_rows(e.polys@)[leaf.index as int] == poly::vals(poly.values@));
        F::lemma_val(poly.values@[at]);
        arith::lemma_mod_small(poly.values@[at].val(), F::order());
    }
}

/// A chunk of a polynomial over the domain, read at a rotation, starts as many rows further,
/// counted around the domain, and goes on from there.
pub proof fn law_rotated_chunk<F: Field>(
    domain: EvaluationDomain<F>,
    chunk_size: usize,
    chunk_index: usize,
    poly: Polynomial<F, LagrangeCoeff>,
    rotation: Rotation,
    i: int,
)
    requires
        domain.sized(),
        poly.values@.len() == LagrangeCoeff::rows(domain.view()),
    ensures
        poly.values@.len() == domain.n,
        basis::rotated_row(
            chunk_size * chunk_index + i,
            LagrangeCoeff::rotation_rows(domain.view(), rotation),
            poly.values@.len() as int,
        ) == (chunk_size * chunk_index + i + rotation.0) % (domain.n as int),
        LagrangeCoeff::readable(domain.view(), rotation) <==> -domain.n <= rotation.0 <= domain.n,
{
}

/// A chunk of a polynomial over the extended domain, read at a rotation, starts as many steps
/// of the domain further, counted around the extended domain, and goes on from there.
pub proof fn law_rotated_extended_chunk<F: Field>(
    domain: EvaluationDomain<F>,
    chunk_size: usize,
    chunk_index: usize,
    poly: Polynomial<F, ExtendedLagrangeCoeff>,
    rotation: Rotation,
    i: int,
)
    requires
        domain.sized(),
        poly.values@.len() == ExtendedLagrangeCoeff::rows(domain.view()),
    ensures
        poly.values@.len() == pow2(domain.extended_k as nat),
        basis::rotated_row(
            chunk_size * chunk_index + i,
            ExtendedLagrangeCoeff::rotation_rows(domain.view(), rotation),
            poly.values@.len() as int,
        ) == (chunk_size * chunk_index + i + rotation.0 * pow2(
            (domain.extended_k - domain.k) as nat,
        )) % (pow2(domain.extended_k as nat) as int),
        ExtendedLagrangeCoeff::readable(domain.view(), rotation),
{
}

/// Values over the domain that are moved by a rotation are those of the polynomial that is
/// at every point what the first is at the point times that power of $\omega$.
pub proof fn law_rotation_is_a_substitution<F: Field>(
    domain: EvaluationDomain<F>,
    c: Seq<int>,
    values: Seq<int>,
    rotation: int,
    m: nat,
    row: nat,
)
    requires
        domain.wf(),
        values.len() == domain.n,
        forall|i: nat|
            i < domain.n ==> #[trigger] arith::poly_at(c, pow(domain.omega.val(), i)) % F::order()
                == values[i as int] % F::order(),
        (m - rotation) % (domain.n as int) == 0,
        row < domain.n,
    ensures
        values[(row + rotation) % (domain.n as int)] % F::order() == arith::poly_at(
            c,
            pow(domain.omega.val(), m) * pow(domain.omega.val(), row),
        ) % F::order(),
{
    let p = F::order();
    let n = domain.n as int;
    let w = domain.omega.val();
    F::lemma_order();
    lemma_pow2_pos(domain.k as nat);
    let at = ((row + rotation) % n) as nat;
    lemma_mod_bound(row + rotation, n);
    assert((m + row - at) % n == 0) by {
        lemma_fundamental_div_mod(row + rotation, n);
        lemma_mod_multiples_basic((row + rotation) / n, n);
        let q = (row + rotation) / n;
        assert(m + row - at == (m - rotation) + q * n) by (nonlinear_arith)
            requires
                row + rotation == n * q + at,
        ;
        lemma_mod_multiples_vanish(q, m - rotation, n);
        lemma_mul_is_commutative(q, n);
    }
    domain.law_rotation_factor(at as int, (m + row) as nat);
    lemma_pow_adds(w, m, row);
    arith::lemma_poly_at_eqm(c, c, pow(w, at), pow(w, m) * pow(w, row), p);
    assert(arith::poly_at(c, pow(w, at)) % p == values[at as int] % p);
}

/// The rows of a sum, a product and a multiple are the sums, products and multiples of the
/// rows.
pub proof fn law_rows_of_operations<'poly, E, F: Field, B: BasisOps>(
    e: Evaluator<'poly, E, F, B>,
    a: Arc<Ast<E, F, B>>,
    b: Arc<Ast<E, F, B>>,
    scalar: F,
    x: Polynomial<F, B>,
    y: Polynomial<F, B>,
    sum: Polynomial<F, B>,
    product: Polynomial<F, B>,
    multiple: Polynomial<F, B>,
    domain: DomainView,
    challenges: EvaluationChallenges<F>,
)
    requires
        e.compressed_selectors@.len() == 0,
        e.rows_of(x, e.resolved(a.view()), domain, challenges.view()),
        e.rows_of(y, e.resolved(b.view()), domain, challenges.view()),
        e.rows_of(sum, e.resolved(Ast::Add(a, b).view()), domain, challenges.view()),
        e.rows_of(product, e.resolved(Ast::Mul(AstMul(a, b)).view()), domain, challenges.view()),
        e.rows_of(multiple, e.resolved(Ast::Scale(a, scalar).view()), domain, challenges.view()),
    ensures
        sum.values@.len() == x.values@.len() == y.values@.len(),
        product.values@.len() == x.values@.len(),
        multiple.values@.len() == x.values@.len(),
        forall|row: int|
            0 <= row < x.values@.len() ==> (#[trigger] sum.values@[row]).val() == (
            x.values@[row].val() + y.values@[row].val()) % F::order(),
        forall|row: int|
            0 <= row < x.values@.len() ==> (#[trigger] product.values@[row]).val() == (
            x.values@[row].val() * y.values@[row].val()) % F::order(),
        forall|row: int|
            0 <= row < x.values@.len() ==> (#[trigger] multiple.values@[row]).val() == (
            x.values@[row].val() * scalar.val()) % F::order(),
{
    lemma_unresolved(e, a.view());
    lemma_unresolved(e, b.view());
    lemma_unresolved(e, Ast::Add(a, b).view());
    lemma_unresolved(e, Ast::Mul(AstMul(a, b)).view());
    lemma_unresolved(e, Ast::Scale(a, scalar).view());
    assert forall|row: int| 0 <= row < x.values@.len() implies (#[trigger] sum.values@[row]).val()
        == (x.values@[row].val() + y.values@[row].val()) % F::order() && product.values@[row].val()
        == (x.values@[row].val() * y.values@[row].val()) % F::order() && multiple.values@[row].val()
        == (x.values@[row].val() * scalar.val()) % F::order() by {
        let env = e.env(domain, challenges.view(), row);
        let c = seq![a.view(), b.view()];
        ast::lemma_ast_values(c, env);
        ast::lemma_ast_values(seq![a.view()], env);
        assert(x.values@[row].val() == ast::ast_value(a.view(), env));
        assert(y.values@[row].val() == ast::ast_value(b.view(), env));
        assert(sum.values@[row].val() == ast::ast_value(Ast::Add(a, b).view(), env));
        assert(product.values@[row].val() == ast::ast_value(Ast::Mul(AstMul(a, b)).view(), env));
        assert(multiple.values@[row].val() == ast::ast_value(Ast::Scale(a, scalar).view(), env));
        assert(ast::ast_values(c, env)[0] == ast::ast_value(c[0], env));
        assert(ast::ast_values(c, env)[1] == ast::ast_value(c[1], env));
        assert(ast::ast_values(seq![a.view()], env)[0] == ast::ast_value(seq![a.view()][0], env));
    }
    assert forall|row: int| 0 <= row < x.values@.len() implies (#[trigger] product.values@[row]).val()
        == (x.values@[row].val() * y.values@[row].val()) % F::order() by {
        let s = sum.values@[row];
    }
    assert forall|row: int| 0 <= row < x.values@.len() implies (
    #[trigger] multiple.values@[row]).val() == (x.values@[row].val() * scalar.val())
        % F::order() by {
        let s = sum.values@[row];
    }
}

/// The rows of a negation and of a difference are the negated rows and the differences of
/// the rows.
pub proof fn law_rows_of_differences<'poly, E, F: Field, B: BasisOps>(
    e: Evaluator<'poly, E, F, B>,
    a: Ast<E, F, B>,
    b: Ast<E, F, B>,
    x: Polynomial<F, B>,
    y: Polynomial<F, B>,
    negation: Polynomial<F, B>,
    difference: Polynomial<F, B>,
    domain: DomainView,
    challenges: EvaluationChallenges<F>,
)
    requires
        e.compressed_selectors@.len() == 0,
        e.rows_of(x, e.resolved(a.view()), domain, challenges.view()),
        e.rows_of(y, e.resolved(b.view()), domain, challenges.view()),
        e.rows_of(
            negation,
            e.resolved(ast::scale_node(b.view(), F::order() - 1)),
            domain,
            challenges.view(),
        ),
        e.rows_of(
            difference,
            e.resolved(ast::add_node(a.view(), ast::scale_node(b.view(), F::order() - 1))),
            domain,
            challenges.view(),
        ),
    ensures
        negation.values@.len() == y.values@.len(),
        difference.values@.len() == y.values@.len(),
        forall|row: int|
            0 <= row < y.values@.len() ==> (#[trigger] negation.values@[row]).val() == (
            -y.values@[row].val()) % F::order(),
        forall|row: int|
            0 <= row < y.values@.len() ==> (#[trigger] difference.values@[row]).val() == (
            x.values@[row].val() - y.values@[row].val()) % F::order(),
{
    let p = F::order();
    F::lemma_order();
    let n = ast::scale_node(b.view(), p - 1);
    let d = ast::add_node(a.view(), n);
    lemma_unresolved(e, a.view());
    lemma_unresolved(e, b.view());
    lemma_unresolved(e, n);
    lemma_unresolved(e, d);
    assert forall|row: int| 0 <= row < y.values@.len() implies (#[trigger] negation.values@[row]).val()
        == (-y.values@[row].val()) % p && difference.values@[row].val() == (x.values@[row].val()
        - y.values@[row].val()) % p by {
        let env = e.env(domain, challenges.view(), row);
        let (u, v) = (x.values@[row].val(), y.values@[row].val());
        assert(u == ast::ast_value(a.view(), env));
        assert(v == ast::ast_value(b.view(), env));
        assert(negation.values@[row].val() == ast::ast_value(n, env));
        assert(difference.values@[row].val() == ast::ast_value(d, env));
        ast::lemma_ast_values(seq![b.view()], env);
        ast::lemma_ast_values(seq![a.view(), n], env);
        assert(ast::ast_values(seq![b.view()], env)[0] == ast::ast_value(seq![b.view()][0], env));
        assert(ast::ast_values(seq![a.view(), n], env)[0] == ast::ast_value(seq![a.view(), n][0], env));
        assert(ast::ast_values(seq![a.view(), n], env)[1] == ast::ast_value(seq![a.view(), n][1], env));
        assert(v * (p - 1) == p * v + (-v)) by (nonlinear_arith);
        lemma_mod_multiples_vanish(v, -v, p);
        let m = ast::ast_value(n, env);
        assert(m == (-v) % p);
        arith::lemma_mod_range(-v, p);
        arith::lemma_eqm_add(u, u, m, -v, p);
    }
    assert forall|row: int| 0 <= row < y.values@.len() implies (
    #[trigger] difference.values@[row]).val() == (x.values@[row].val() - y.values@[row].val())
        % p by {
        let s = negation.values@[row];
    }
}

/// The value that a challenge has in a proof.
proof fn lemma_challenge<F: Field>(challenges: EvaluationChallenges<F>)
    ensures
        challenges.view().of(EvaluationChallenge::Theta) == challenges.theta.val(),
        challenges.view().of(EvaluationChallenge::Beta) == challenges.beta.val(),
        challenges.view().of(EvaluationChallenge::Gamma) == challenges.gamma.val(),
        challenges.view().of(EvaluationChallenge::Y) == challenges.y.val(),
{
}

proof fn lemma_distributed_row<'poly, E, F: Field, B: BasisOps>(
    e: Evaluator<'poly, E, F, B>,
    terms: Seq<Ast<E, F, B>>,
    x: Seq<Polynomial<F, B>>,
    base: BaseView,
    domain: DomainView,
    ch: ChallengeView,
    row: int,
)
    requires
        x.len() == terms.len(),
        forall|j: int|
            0 <= j < terms.len() ==> e.rows_of(#[trigger] x[j], terms[j].view(), domain, ch),
        0 <= row < B::rows(domain),
    ensures
        ast::ast_value(
            AstView { op: AstOp::Distribute(base), children: ast::ast_views(terms) },
            e.env(domain, ch, row),
        ) == Seq::new(
            terms.len(),
            |j: int| x[j].values@[row].val() * pow(base.value(ch), (terms.len() - 1 - j) as nat),
        ).fold_left(0int, |s: int, t: int| s + t) % F::order(),
{
    let env = e.env(domain, ch, row);
    let v = ast::ast_values(ast::ast_views(terms), env);
    ast::lemma_ast_views(terms);
    ast::lemma_ast_values(ast::ast_views(terms), env);
    sums::law_descending_powers(v, base.value(ch));
    assert(Seq::new(v.len(), |j: int| v[j] * pow(base.value(ch), (v.len() - 1 - j) as nat))
        =~= Seq::new(
        terms.len(),
        |j: int| x[j].values@[row].val() * pow(base.value(ch), (terms.len() - 1 - j) as nat),
    )) by {
        assert forall|j: int| 0 <= j < terms.len() implies v[j] == #[trigger] x[j].values@[row].val() by {
            assert(e.rows_of(x[j], terms[j].view(), domain, ch));
            assert(x[j].values@[row].val() == ast::ast_value(terms[j].view(), env));
            assert(ast::ast_views(terms)[j] == terms[j].view());
        }
    }
}

/// The rows of expressions that are combined with the powers of a field element are the
/// rows of the expressions, each times a power, the last with the power zero.
pub proof fn law_rows_of_distribution<'poly, E, F: Field, B: BasisOps>(
    e: Evaluator<'poly, E, F, B>,
    terms: Arc<Vec<Ast<E, F, B>>>,
    base: F,
    x: Seq<Polynomial<F, B>>,
    r: Polynomial<F, B>,
    domain: DomainView,
    challenges: EvaluationChallenges<F>,
)
    requires
        e.compressed_selectors@.len() == 0,
        x.len() == terms@.len(),
        forall|j: int|
            0 <= j < terms@.len() ==> e.rows_of(
                #[trigger] x[j],
                e.resolved(terms@[j].view()),
                domain,
                challenges.view(),
            ),
        e.rows_of(
            r,
            e.resolved(Ast::DistributePowers(terms, base).view()),
            domain,
            challenges.view(),
        ),
    ensures
        forall|row: int|
            0 <= row < r.values@.len() ==> (#[trigger] r.values@[row]).val() == Seq::new(
                terms@.len(),
                |j: int|
                    x[j].values@[row].val() * pow(base.val(), (terms@.len() - 1 - j) as nat),
            ).fold_left(0int, |s: int, t: int| s + t) % F::order(),
{
    let ch = challenges.view();
    lemma_unresolved(e, Ast::DistributePowers(terms, base).view());
    assert forall|j: int| 0 <= j < terms@.len() implies e.rows_of(
        #[trigger] x[j],
        terms@[j].view(),
        domain,
        ch,
    ) by {
        lemma_unresolved(e, terms@[j].view());
    }
    assert forall|row: int| 0 <= row < r.values@.len() implies (#[trigger] r.values@[row]).val()
        == Seq::new(
        terms@.len(),
        |j: int| x[j].values@[row].val() * pow(base.val(), (terms@.len() - 1 - j) as nat),
    ).fold_left(0int, |s: int, t: int| s + t) % F::order() by {
        lemma_distributed_row(e, terms@, x, BaseView::Literal(base.val()), domain, ch, row);
    }
}

/// The rows of a quotient's expressions are those of the expressions, each times a power of
/// the challenge `y`, the last with the power zero. They are the same whether a plan for
/// the expressions is retained or not.
pub proof fn law_rows_of_quotient<'poly, E, F: Field, B: BasisOps>(
    e: Evaluator<'poly, E, F, B>,
    expressions: Seq<Ast<E, F, B>>,
    x: Seq<Polynomial<F, B>>,
    r: Polynomial<F, B>,
    domain: DomainView,
    challenges: EvaluationChallenges<F>,
)
    requires
        e.compressed_selectors@.len() == 0,
        x.len() == expressions.len(),
        forall|j: int|
            0 <= j < expressions.len() ==> e.rows_of(
                #[trigger] x[j],
                e.resolved(expressions[j].view()),
                domain,
                challenges.view(),
            ),
        e.rows_of(
            r,
            e.resolved(evaluator::quotient_node(ast::ast_views(expressions))),
            domain,
            challenges.view(),
        ),
    ensures
        forall|row: int|
            0 <= row < r.values@.len() ==> (#[trigger] r.values@[row]).val() == Seq::new(
                expressions.len(),
                |j: int|
                    x[j].values@[row].val() * pow(
                        challenges.y.val(),
                        (expressions.len() - 1 - j) as nat,
                    ),
            ).fold_left(0int, |s: int, t: int| s + t) % F::order(),
{
    let ch = challenges.view();
    lemma_unresolved(e, evaluator::quotient_node(ast::ast_views(expressions)));
    assert forall|j: int| 0 <= j < expressions.len() implies e.rows_of(
        #[trigger] x[j],
        expressions[j].view(),
        domain,
        ch,
    ) by {
        lemma_unresolved(e, expressions[j].view());
    }
    assert forall|row: int| 0 <= row < r.values@.len() implies (#[trigger] r.values@[row]).val()
        == Seq::new(
        expressions.len(),
        |j: int|
            x[j].values@[row].val() * pow(challenges.y.val(), (expressions.len() - 1 - j) as nat),
    ).fold_left(0int, |s: int, t: int| s + t) % F::order() by {
        lemma_distributed_row(
            e,
            expressions,
            x,
            BaseView::Challenge(EvaluationChallenge::Y),
            domain,
            ch,
            row,
        );
    }
}

/// As [`law_rows_of_distribution`], with the value of a challenge in this proof as the base.
pub proof fn law_rows_of_challenge_distribution<'poly, E, F: Field, B: BasisOps>(
    e: Evaluator<'poly, E, F, B>,
    terms: Arc<Vec<Ast<E, F, B>>>,
    challenge: EvaluationChallenge,
    x: Seq<Polynomial<F, B>>,
    r: Polynomial<F, B>,
    domain: DomainView,
    challenges: EvaluationChallenges<F>,
    base: F,
)
    requires
        e.compressed_selectors@.len() == 0,
        base == (match challenge {
            EvaluationChallenge::Theta => challenges.theta,
            EvaluationChallenge::Beta => challenges.beta,
            EvaluationChallenge::Gamma => challenges.gamma,
            EvaluationChallenge::Y => challenges.y,
        }),
        x.len() == terms@.len(),
        forall|j: int|
            0 <= j < terms@.len() ==> e.rows_of(
                #[trigger] x[j],
                e.resolved(terms@[j].view()),
                domain,
                challenges.view(),
            ),
        e.rows_of(
            r,
            e.resolved(Ast::DistributeChallengePowers(terms, challenge).view()),
            domain,
            challenges.view(),
        ),
    ensures
        forall|row: int|
            0 <= row < r.values@.len() ==> (#[trigger] r.values@[row]).val() == Seq::new(
                terms@.len(),
                |j: int|
                    x[j].values@[row].val() * pow(base.val(), (terms@.len() - 1 - j) as nat),
            ).fold_left(0int, |s: int, t: int| s + t) % F::order(),
{
    let ch = challenges.view();
    lemma_challenge(challenges);
    lemma_unresolved(e, Ast::DistributeChallengePowers(terms, challenge).view());
    assert forall|j: int| 0 <= j < terms@.len() implies e.rows_of(
        #[trigger] x[j],
        terms@[j].view(),
        domain,
        ch,
    ) by {
        lemma_unresolved(e, terms@[j].view());
    }
    assert forall|row: int| 0 <= row < r.values@.len() implies (#[trigger] r.values@[row]).val()
        == Seq::new(
        terms@.len(),
        |j: int| x[j].values@[row].val() * pow(base.val(), (terms@.len() - 1 - j) as nat),
    ).fold_left(0int, |s: int, t: int| s + t) % F::order() by {
        lemma_distributed_row(e, terms@, x, BaseView::Challenge(challenge), domain, ch, row);
    }
}

/// Over the domain a constant is the same at every row, and the polynomial `X` is at each row
/// the power of $\omega$ of that row.
pub proof fn law_rows_of_terms<'poly, E, F: Field>(
    e: Evaluator<'poly, E, F, LagrangeCoeff>,
    scalar: F,
    challenge: EvaluationChallenge,
    constant: Polynomial<F, LagrangeCoeff>,
    linear: Polynomial<F, LagrangeCoeff>,
    drawn: Polynomial<F, LagrangeCoeff>,
    drawn_linear: Polynomial<F, LagrangeCoeff>,
    domain: EvaluationDomain<F>,
    challenges: EvaluationChallenges<F>,
    value: F,
)
    requires
        e.compressed_selectors@.len() == 0,
        domain.sized(),
        value == (match challenge {
            EvaluationChallenge::Theta => challenges.theta,
            EvaluationChallenge::Beta => challenges.beta,
            EvaluationChallenge::Gamma => challenges.gamma,
            EvaluationChallenge::Y => challenges.y,
        }),
        e.rows_of(
            constant,
            e.resolved(Ast::<E, F, LagrangeCoeff>::ConstantTerm(scalar).view()),
            domain.view(),
            challenges.view(),
        ),
        e.rows_of(
            linear,
            e.resolved(Ast::<E, F, LagrangeCoeff>::LinearTerm(scalar).view()),
            domain.view(),
            challenges.view(),
        ),
        e.rows_of(
            drawn,
            e.resolved(Ast::<E, F, LagrangeCoeff>::ChallengeTerm(challenge).view()),
            domain.view(),
            challenges.view(),
        ),
        e.rows_of(
            drawn_linear,
            e.resolved(
                (Ast::<E, F, LagrangeCoeff>::LinearChallengeTerm { challenge, factor: scalar }).view(),
            ),
            domain.view(),
            challenges.view(),
        ),
    ensures
        constant.values@.len() == domain.n,
        linear.values@.len() == domain.n,
        drawn.values@.len() == domain.n,
        drawn_linear.values@.len() == domain.n,
        forall|row: int|
            0 <= row < domain.n ==> (#[trigger] constant.values@[row]).val()
                == scalar.val() % F::order(),
        forall|row: int|
            0 <= row < domain.n ==> (#[trigger] linear.values@[row]).val()
                == (scalar.val() * pow(
                    domain.omega.val(),
                    row as nat,
                )) % F::order(),
        forall|row: int|
            0 <= row < domain.n ==> (#[trigger] drawn.values@[row]).val()
                == value.val() % F::order(),
        forall|row: int|
            0 <= row < domain.n ==> (#[trigger] drawn_linear.values@[row]).val()
                == ((value.val() * scalar.val()) * pow(
                    domain.omega.val(),
                    row as nat,
                )) % F::order(),
{
    lemma_challenge(challenges);
    lemma_unresolved(e, Ast::<E, F, LagrangeCoeff>::ConstantTerm(scalar).view());
    lemma_unresolved(e, Ast::<E, F, LagrangeCoeff>::LinearTerm(scalar).view());
    lemma_unresolved(e, Ast::<E, F, LagrangeCoeff>::ChallengeTerm(challenge).view());
    lemma_unresolved(
        e,
        (Ast::<E, F, LagrangeCoeff>::LinearChallengeTerm { challenge, factor: scalar }).view(),
    );
}

/// Over the extended domain a constant is the same at every row, and the polynomial `X` is at
/// each row the point of the coset of that row.
pub proof fn law_extended_rows_of_terms<'poly, E, F: Field>(
    e: Evaluator<'poly, E, F, ExtendedLagrangeCoeff>,
    scalar: F,
    challenge: EvaluationChallenge,
    constant: Polynomial<F, ExtendedLagrangeCoeff>,
    linear: Polynomial<F, ExtendedLagrangeCoeff>,
    drawn: Polynomial<F, ExtendedLagrangeCoeff>,
    drawn_linear: Polynomial<F, ExtendedLagrangeCoeff>,
    domain: EvaluationDomain<F>,
    challenges: EvaluationChallenges<F>,
    value: F,
)
    requires
        e.compressed_selectors@.len() == 0,
        domain.sized(),
        value == (match challenge {
            EvaluationChallenge::Theta => challenges.theta,
            EvaluationChallenge::Beta => challenges.beta,
            EvaluationChallenge::Gamma => challenges.gamma,
            EvaluationChallenge::Y => challenges.y,
        }),
        e.rows_of(
            constant,
            e.resolved(Ast::<E, F, ExtendedLagrangeCoeff>::ConstantTerm(scalar).view()),
            domain.view(),
            challenges.view(),
        ),
        e.rows_of(
            linear,
            e.resolved(Ast::<E, F, ExtendedLagrangeCoeff>::LinearTerm(scalar).view()),
            domain.view(),
            challenges.view(),
        ),
        e.rows_of(
            drawn,
            e.resolved(Ast::<E, F, ExtendedLagrangeCoeff>::ChallengeTerm(challenge).view()),
            domain.view(),
            challenges.view(),
        ),
        e.rows_of(
            drawn_linear,
            e.resolved(
                (Ast::<E, F, ExtendedLagrangeCoeff>::LinearChallengeTerm { challenge, factor: scalar }).view(),
            ),
            domain.view(),
            challenges.view(),
        ),
    ensures
        constant.values@.len() == pow2(domain.extended_k as nat),
        linear.values@.len() == pow2(domain.extended_k as nat),
        drawn.values@.len() == pow2(domain.extended_k as nat),
        drawn_linear.values@.len() == pow2(domain.extended_k as nat),
        forall|row: int|
            0 <= row < pow2(domain.extended_k as nat) ==> (#[trigger] constant.values@[row]).val()
                == scalar.val() % F::order(),
        forall|row: int|
            0 <= row < pow2(domain.extended_k as nat) ==> (#[trigger] linear.values@[row]).val()
                == (scalar.val() * (F::cube_root() * pow(
                    domain.extended_omega.val(),
                    row as nat,
                ))) % F::order(),
        forall|row: int|
            0 <= row < pow2(domain.extended_k as nat) ==> (#[trigger] drawn.values@[row]).val()
                == value.val() % F::order(),
        forall|row: int|
            0 <= row < pow2(domain.extended_k as nat) ==> (#[trigger] drawn_linear.values@[row]).val()
                == ((value.val() * scalar.val()) * (F::cube_root() * pow(
                    domain.extended_omega.val(),
                    row as nat,
                ))) % F::order(),
{
    lemma_challenge(challenges);
    lemma_unresolved(e, Ast::<E, F, ExtendedLagrangeCoeff>::ConstantTerm(scalar).view());
    lemma_unresolved(e, Ast::<E, F, ExtendedLagrangeCoeff>::LinearTerm(scalar).view());
    lemma_unresolved(e, Ast::<E, F, ExtendedLagrangeCoeff>::ChallengeTerm(challenge).view());
    lemma_unresolved(
        e,
        (Ast::<E, F, ExtendedLagrangeCoeff>::LinearChallengeTerm { challenge, factor: scalar }).view(),
    );
}

/// A constant has one coefficient, the first, and a multiple of `X` has one, the second.
pub proof fn law_coefficients_of_terms<'poly, E, F: Field>(
    e: Evaluator<'poly, E, F, Coeff>,
    scalar: F,
    challenge: EvaluationChallenge,
    constant: Polynomial<F, Coeff>,
    linear: Polynomial<F, Coeff>,
    drawn: Polynomial<F, Coeff>,
    drawn_linear: Polynomial<F, Coeff>,
    domain: EvaluationDomain<F>,
    challenges: EvaluationChallenges<F>,
    value: F,
)
    requires
        e.compressed_selectors@.len() == 0,
        domain.sized(),
        value == (match challenge {
            EvaluationChallenge::Theta => challenges.theta,
            EvaluationChallenge::Beta => challenges.beta,
            EvaluationChallenge::Gamma => challenges.gamma,
            EvaluationChallenge::Y => challenges.y,
        }),
        e.rows_of(
            constant,
            e.resolved(Ast::<E, F, Coeff>::ConstantTerm(scalar).view()),
            domain.view(),
            challenges.view(),
        ),
        e.rows_of(
            linear,
            e.resolved(Ast::<E, F, Coeff>::LinearTerm(scalar).view()),
            domain.view(),
            challenges.view(),
        ),
        e.rows_of(
            drawn,
            e.resolved(Ast::<E, F, Coeff>::ChallengeTerm(challenge).view()),
            domain.view(),
            challenges.view(),
        ),
        e.rows_of(
            drawn_linear,
            e.resolved(
                (Ast::<E, F, Coeff>::LinearChallengeTerm { challenge, factor: scalar }).view(),
            ),
            domain.view(),
            challenges.view(),
        ),
    ensures
        constant.values@.len() == domain.n,
        linear.values@.len() == domain.n,
        drawn.values@.len() == domain.n,
        drawn_linear.values@.len() == domain.n,
        forall|row: int|
            0 <= row < domain.n ==> (#[trigger] constant.values@[row]).val()
                == (scalar.val() * (if row == 0 {
                    1int
                } else {
                    0
                })) % F::order(),
        forall|row: int|
            0 <= row < domain.n ==> (#[trigger] linear.values@[row]).val()
                == (scalar.val() * (if row == 1 {
                    1int
                } else {
                    0
                })) % F::order(),
        forall|row: int|
            0 <= row < domain.n ==> (#[trigger] drawn.values@[row]).val()
                == (value.val() * (if row == 0 {
                    1int
                } else {
                    0
                })) % F::order(),
        forall|row: int|
            0 <= row < domain.n ==> (#[trigger] drawn_linear.values@[row]).val()
                == ((value.val() * scalar.val()) * (if row == 1 {
                    1int
                } else {
                    0
                })) % F::order(),
{
    lemma_challenge(challenges);
    lemma_unresolved(e, Ast::<E, F, Coeff>::ConstantTerm(scalar).view());
    lemma_unresolved(e, Ast::<E, F, Coeff>::LinearTerm(scalar).view());
    lemma_unresolved(e, Ast::<E, F, Coeff>::ChallengeTerm(challenge).view());
    lemma_unresolved(
        e,
        (Ast::<E, F, Coeff>::LinearChallengeTerm { challenge, factor: scalar }).view(),
    );
}

} // verus!
