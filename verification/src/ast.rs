//! Polynomial expressions over registered polynomials, and the shapes in them that
//! are worth planning for.
use crate::arith;
use crate::field::Field;
use crate::poly::{Basis, ExtendedLagrangeCoeff, LagrangeCoeff, Rotation};
use crate::scalars::{BaseView, ChallengeView, EvaluationChallenge};
use core::marker::PhantomData;
use std::sync::Arc;
use vstd::prelude::*;

verus! {

/// A reference to a polynomial registered with an evaluator.
#[derive(Debug)]
pub struct AstLeaf<E, B> {
    pub index: usize,
    pub rotation: Rotation,
    pub _evaluator: PhantomData<(E, B)>,
}

impl<E, B> Clone for AstLeaf<E, B> {
    fn clone(&self) -> (r: Self)
        ensures
            r == *self,
    {
        *self
    }
}

impl<E, B> Copy for AstLeaf<E, B> {

}

/// A registered polynomial and the rotation at which it is read.
#[derive(Clone, Copy, Debug, PartialEq, Eq, Structural)]
pub struct IndexedLeaf {
    pub index: usize,
    pub rotation: Rotation,
}

impl<E, B> AstLeaf<E, B> {
    pub open spec fn view(self) -> IndexedLeaf {
        IndexedLeaf { index: self.index, rotation: self.rotation }
    }

    /// Produces a new `AstLeaf` node corresponding to the underlying polynomial at a
    /// _new_ rotation. Existing rotations applied to this leaf node are ignored and the
    /// returned polynomial is not rotated _relative_ to the previous structure.
    pub fn with_rotation(&self, rotation: Rotation) -> (r: Self)
        ensures
            r.view() == (IndexedLeaf { index: self.index, rotation }),
    {
        AstLeaf { index: self.index, rotation, _evaluator: PhantomData }
    }

    /// The polynomial and rotation, without the type of the evaluator.
    pub fn indexed(&self) -> (r: IndexedLeaf)
        ensures
            r == self.view(),
    {
        IndexedLeaf { index: self.index, rotation: self.rotation }
    }

    /// Whether two leaves are the same polynomial at the same rotation offset.
    pub fn equals(&self, other: &Self) -> (r: bool)
        ensures
            r <==> self.view() == other.view(),
    {
        self.index == other.index && self.rotation.0 == other.rotation.0
    }
}

/// Struct representing the [`Ast::Mul`] case.
///
/// Products are built by [`Ast::product`], which exists only for bases in which a
/// product is taken point by point.
pub struct AstMul<E, F, B>(pub Arc<Ast<E, F, B>>, pub Arc<Ast<E, F, B>>);

/// A polynomial operation backed by an evaluator.
pub enum Ast<E, F, B> {
    Poly(AstLeaf<E, B>),
    Add(Arc<Ast<E, F, B>>, Arc<Ast<E, F, B>>),
    Mul(AstMul<E, F, B>),
    Scale(Arc<Ast<E, F, B>>, F),
    /// Represents a linear combination of a vector of nodes and the powers of a
    /// field element, where the nodes are ordered from highest to lowest degree
    /// terms.
    DistributePowers(Arc<Vec<Ast<E, F, B>>>, F),
    /// As [`Ast::DistributePowers`], with a proof challenge as the base.
    DistributeChallengePowers(Arc<Vec<Ast<E, F, B>>>, EvaluationChallenge),
    /// The degree-1 term of a polynomial.
    ///
    /// The field element is the coefficient of the term in the standard basis, not the
    /// coefficient basis.
    LinearTerm(F),
    /// A degree-1 term scaled by a proof challenge and a static factor.
    LinearChallengeTerm { challenge: EvaluationChallenge, factor: F },
    /// The degree-0 term of a polynomial.
    ///
    /// The field element is the same in both the standard and evaluation bases.
    ConstantTerm(F),
    /// A proof challenge represented as a constant polynomial.
    ChallengeTerm(EvaluationChallenge),
}

/// The operation at one node of an expression.
pub enum AstOp {
    Poly(IndexedLeaf),
    Add,
    Mul,
    Scale(int),
    Distribute(BaseView),
    LinearTerm(int),
    LinearChallengeTerm(EvaluationChallenge, int),
    ConstantTerm(int),
    ChallengeTerm(EvaluationChallenge),
}

/// An expression as a tree of operations.
pub struct AstView {
    pub op: AstOp,
    pub children: Seq<AstView>,
}

pub open spec fn leaf_node(op: AstOp) -> AstView {
    AstView { op, children: Seq::empty() }
}

pub open spec fn poly_node(leaf: IndexedLeaf) -> AstView {
    leaf_node(AstOp::Poly(leaf))
}

pub open spec fn constant_node(v: int) -> AstView {
    leaf_node(AstOp::ConstantTerm(v))
}

pub open spec fn add_node(a: AstView, b: AstView) -> AstView {
    AstView { op: AstOp::Add, children: seq![a, b] }
}

pub open spec fn mul_node(a: AstView, b: AstView) -> AstView {
    AstView { op: AstOp::Mul, children: seq![a, b] }
}

pub open spec fn scale_node(a: AstView, v: int) -> AstView {
    AstView { op: AstOp::Scale(v), children: seq![a] }
}

impl<E, F: Field, B> Ast<E, F, B> {
    pub open spec fn view(&self) -> AstView
        decreases self,
    {
        match *self {
            Ast::Poly(leaf) => poly_node(leaf.view()),
            Ast::Add(a, b) => add_node(a.view(), b.view()),
            Ast::Mul(AstMul(a, b)) => mul_node(a.view(), b.view()),
            Ast::Scale(a, s) => scale_node(a.view(), s.val()),
            Ast::DistributePowers(terms, base) => AstView {
                op: AstOp::Distribute(BaseView::Literal(base.val())),
                children: ast_views(terms@),
            },
            Ast::DistributeChallengePowers(terms, c) => AstView {
                op: AstOp::Distribute(BaseView::Challenge(c)),
                children: ast_views(terms@),
            },
            Ast::LinearTerm(s) => leaf_node(AstOp::LinearTerm(s.val())),
            Ast::LinearChallengeTerm { challenge, factor } => leaf_node(
                AstOp::LinearChallengeTerm(challenge, factor.val()),
            ),
            Ast::ConstantTerm(s) => constant_node(s.val()),
            Ast::ChallengeTerm(c) => leaf_node(AstOp::ChallengeTerm(c)),
        }
    }
}

/// The trees of a sequence of expressions.
pub open spec fn ast_views<E, F: Field, B>(s: Seq<Ast<E, F, B>>) -> Seq<AstView>
    decreases s,
{
    if s.len() == 0 {
        Seq::empty()
    } else {
        ast_views(s.drop_last()).push(s.last().view())
    }
}

pub proof fn lemma_ast_views<E, F: Field, B>(s: Seq<Ast<E, F, B>>)
    ensures
        ast_views(s).len() == s.len(),
        forall|i: int| 0 <= i < s.len() ==> #[trigger] ast_views(s)[i] == s[i].view(),
    decreases s.len(),
{
    if s.len() > 0 {
        lemma_ast_views(s.drop_last());
    }
}

/// The trees of a sequence of borrowed expressions.
pub open spec fn ref_views<'a, E, F: Field, B>(s: Seq<&'a Ast<E, F, B>>) -> Seq<AstView> {
    Seq::new(s.len(), |i: int| s[i].view())
}

/// What one row of the registered polynomials, the basis and the challenges supply
/// to an expression.
pub struct RowEnv {
    /// The order of the field.
    pub p: int,
    /// The value of a registered polynomial at this row.
    pub leaf: spec_fn(IndexedLeaf) -> int,
    /// The value of the constant polynomial one at this row.
    pub unit: int,
    /// The value of the polynomial `X` at this row.
    pub lin: int,
    pub ch: ChallengeView,
}

/// The value of a node from the values of its children.
pub open spec fn ast_combine(op: AstOp, v: Seq<int>, env: RowEnv) -> int {
    match op {
        AstOp::Poly(leaf) => (env.leaf)(leaf),
        AstOp::Add => v[0] + v[1],
        AstOp::Mul => v[0] * v[1],
        AstOp::Scale(s) => v[0] * s,
        AstOp::Distribute(base) => arith::descending(v, base.value(env.ch)),
        AstOp::LinearTerm(s) => s * env.lin,
        AstOp::LinearChallengeTerm(c, f) => (env.ch.of(c) * f) * env.lin,
        AstOp::ConstantTerm(s) => s * env.unit,
        AstOp::ChallengeTerm(c) => env.ch.of(c) * env.unit,
    }
}

/// The value of an expression at one row.
pub open spec fn ast_value(a: AstView, env: RowEnv) -> int
    decreases a,
{
    ast_combine(a.op, ast_values(a.children, env), env) % env.p
}

pub open spec fn ast_values(s: Seq<AstView>, env: RowEnv) -> Seq<int>
    decreases s,
{
    if s.len() == 0 {
        Seq::empty()
    } else {
        ast_values(s.drop_last(), env).push(ast_value(s.last(), env))
    }
}

pub proof fn lemma_ast_values(s: Seq<AstView>, env: RowEnv)
    ensures
        ast_values(s, env).len() == s.len(),
        forall|i: int| 0 <= i < s.len() ==> #[trigger] ast_values(s, env)[i] == ast_value(s[i], env),
    decreases s.len(),
{
    if s.len() > 0 {
        lemma_ast_values(s.drop_last(), env);
    }
}

/// The number of nodes of an expression.
pub open spec fn ast_size(a: AstView) -> nat
    decreases a,
{
    1 + ast_sizes(a.children)
}

pub open spec fn ast_sizes(s: Seq<AstView>) -> nat
    decreases s,
{
    if s.len() == 0 {
        0
    } else {
        ast_sizes(s.drop_last()) + ast_size(s.last())
    }
}

/// Whether an expression holds no product.
pub open spec fn product_free(a: AstView) -> bool
    decreases a,
{
    a.op != AstOp::Mul && all_product_free(a.children)
}

pub open spec fn all_product_free(s: Seq<AstView>) -> bool
    decreases s,
{
    s.len() == 0 || (all_product_free(s.drop_last()) && product_free(s.last()))
}

pub proof fn lemma_pair(a: AstView, b: AstView, c: AstView, d: AstView)
    ensures
        seq![a, b] == seq![c, d] <==> (a == c && b == d),
        seq![a] == seq![c] <==> a == c,
{
    assert(seq![a, b][0] == a && seq![a, b][1] == b);
    assert(seq![c, d][0] == c && seq![c, d][1] == d);
    assert(seq![a][0] == a);
    assert(seq![c][0] == c);
}

/// `Arc::clone`: another reference to the same value.
#[verifier::external_body]
pub(crate) fn share<T>(a: &Arc<T>) -> (r: Arc<T>)
    ensures
        r == *a,
{
    Arc::clone(a)
}

impl<E, F: Field, B> Clone for Ast<E, F, B> {
    /// A copy that shares the operands.
    fn clone(&self) -> (r: Self)
        ensures
            r.view() == self.view(),
    {
        match self {
            Ast::Poly(leaf) => Ast::Poly(*leaf),
            Ast::Add(a, b) => Ast::Add(share(a), share(b)),
            Ast::Mul(AstMul(a, b)) => Ast::Mul(AstMul(share(a), share(b))),
            Ast::Scale(a, s) => Ast::Scale(share(a), *s),
            Ast::DistributePowers(terms, base) => Ast::DistributePowers(share(terms), *base),
            Ast::DistributeChallengePowers(terms, c) => Ast::DistributeChallengePowers(
                share(terms),
                *c,
            ),
            Ast::LinearTerm(s) => Ast::LinearTerm(*s),
            Ast::LinearChallengeTerm { challenge, factor } => Ast::LinearChallengeTerm {
                challenge: *challenge,
                factor: *factor,
            },
            Ast::ConstantTerm(s) => Ast::ConstantTerm(*s),
            Ast::ChallengeTerm(c) => Ast::ChallengeTerm(*c),
        }
    }
}

impl<E, F: Field, B> Ast<E, F, B> {
    /// The terms, weighted with the powers of a base, the last with the power zero.
    pub fn distribute_powers(terms: Vec<Self>, base: F) -> (r: Self)
        ensures
            r.view() == (AstView {
                op: AstOp::Distribute(BaseView::Literal(base.val())),
                children: ast_views(terms@),
            }),
    {
        Ast::DistributePowers(Arc::new(terms), base)
    }

    /// As [`Ast::distribute_powers`], with a proof challenge as the base.
    pub fn distribute_challenge_powers(terms: Vec<Self>, challenge: EvaluationChallenge) -> (r:
        Self)
        ensures
            r.view() == (AstView {
                op: AstOp::Distribute(BaseView::Challenge(challenge)),
                children: ast_views(terms@),
            }),
    {
        Ast::DistributeChallengePowers(Arc::new(terms), challenge)
    }

    /// A polynomial that an evaluator knows.
    pub fn from_leaf(leaf: AstLeaf<E, B>) -> (r: Self)
        ensures
            r.view() == poly_node(leaf.view()),
    {
        Ast::Poly(leaf)
    }

    /// The constant one.
    pub fn one() -> (r: Self)
        ensures
            r.view() == constant_node(1),
    {
        Ast::ConstantTerm(F::one())
    }

    /// The negation, as a scale by minus one.
    pub fn neg(self) -> (r: Self)
        ensures
            r.view() == scale_node(self.view(), F::order() - 1),
    {
        let minus_one = F::one().neg();
        proof {
            lemma_minus_one::<F>();
        }
        Ast::Scale(Arc::new(self), minus_one)
    }

    /// The sum.
    pub fn add(self, other: Self) -> (r: Self)
        ensures
            r.view() == add_node(self.view(), other.view()),
    {
        Ast::Add(Arc::new(self), Arc::new(other))
    }

    /// The difference, as a sum with the negation.
    pub fn sub(self, other: Self) -> (r: Self)
        ensures
            r.view() == add_node(self.view(), scale_node(other.view(), F::order() - 1)),
    {
        self.add(other.neg())
    }

    /// The multiple by a field element.
    pub fn scale(self, scalar: F) -> (r: Self)
        ensures
            r.view() == scale_node(self.view(), scalar.val()),
    {
        Ast::Scale(Arc::new(self), scalar)
    }
}

/// A basis in which a product of polynomials is taken point by point.
pub trait PointwiseBasis: Basis {

}

impl PointwiseBasis for LagrangeCoeff {

}

impl PointwiseBasis for ExtendedLagrangeCoeff {

}

impl<E, F: Field, B: PointwiseBasis> Ast<E, F, B> {
    /// The product, taken point by point.
    pub fn product(self, other: Self) -> (r: Self)
        ensures
            r.view() == mul_node(self.view(), other.view()),
    {
        Ast::Mul(AstMul(Arc::new(self), Arc::new(other)))
    }
}

pub proof fn lemma_minus_one<F: Field>()
    ensures
        (-1int) % F::order() == F::order() - 1,
{
    F::lemma_order();
    let p = F::order();
    vstd::arithmetic::div_mod::lemma_mod_add_multiples_vanish(-1, p);
    arith::lemma_mod_small(p - 1, p);
}

/// Whether two expressions are the same tree.
pub fn same_ast<E, F: Field, B>(lhs: &Ast<E, F, B>, rhs: &Ast<E, F, B>) -> (r: bool)
    ensures
        r <==> lhs.view() == rhs.view(),
    decreases lhs,
{
    match (lhs, rhs) {
        (Ast::Poly(a), Ast::Poly(b)) => a.equals(b),
        (Ast::Add(a, b), Ast::Add(c, d)) => {
            proof {
                lemma_pair(a.view(), b.view(), c.view(), d.view());
            }
            same_ast(a, c) && same_ast(b, d)
        },
        (Ast::Mul(AstMul(a, b)), Ast::Mul(AstMul(c, d))) => {
            proof {
                lemma_pair(a.view(), b.view(), c.view(), d.view());
            }
            same_ast(a, c) && same_ast(b, d)
        },
        (Ast::Scale(a, s), Ast::Scale(b, t)) => {
            proof {
                lemma_pair(a.view(), a.view(), b.view(), b.view());
            }
            s.equals(t) && same_ast(a, b)
        },
        (Ast::DistributePowers(a, s), Ast::DistributePowers(b, t)) => {
            s.equals(t) && same_asts(a, b)
        },
        (Ast::DistributeChallengePowers(a, s), Ast::DistributeChallengePowers(b, t)) => {
            *s == *t && same_asts(a, b)
        },
        (Ast::LinearTerm(s), Ast::LinearTerm(t)) => s.equals(t),
        (Ast::ConstantTerm(s), Ast::ConstantTerm(t)) => s.equals(t),
        (
            Ast::LinearChallengeTerm { challenge: c, factor: f },
            Ast::LinearChallengeTerm { challenge: d, factor: g },
        ) => *c == *d && f.equals(g),
        (Ast::ChallengeTerm(s), Ast::ChallengeTerm(t)) => *s == *t,
        _ => false,
    }
}

fn same_asts<E, F: Field, B>(a: &Vec<Ast<E, F, B>>, b: &Vec<Ast<E, F, B>>) -> (r: bool)
    ensures
        r <==> ast_views(a@) == ast_views(b@),
    decreases a,
{
    proof {
        lemma_ast_views(a@);
        lemma_ast_views(b@);
    }
    if a.len() != b.len() {
        return false;
    }
    let mut i: usize = 0;
    while i < a.len()
        invariant
            a@.len() == b@.len(),
            i <= a@.len(),
            ast_views(a@).len() == a@.len(),
            ast_views(b@).len() == b@.len(),
            forall|k: int| 0 <= k < a@.len() ==> #[trigger] ast_views(a@)[k] == a@[k].view(),
            forall|k: int| 0 <= k < b@.len() ==> #[trigger] ast_views(b@)[k] == b@[k].view(),
            forall|k: int| 0 <= k < i ==> (#[trigger] a@[k]).view() == b@[k].view(),
            decreases_to!(*a => a@),
        decreases a@.len() - i,
    {
        if !same_ast(&a[i], &b[i]) {
            assert(ast_views(a@)[i as int] != ast_views(b@)[i as int]);
            return false;
        }
        i += 1;
    }
    assert(ast_views(a@) =~= ast_views(b@));
    true
}

/// The operands of a product.
pub fn mul_terms<'a, E, F: Field, B>(term: &'a Ast<E, F, B>) -> (r: Option<
    (&'a Ast<E, F, B>, &'a Ast<E, F, B>),
>)
    ensures
        r is Some <==> term.view().op == AstOp::Mul,
        r matches Some((a, b)) ==> {
            &&& term.view() == mul_node(a.view(), b.view())
            &&& decreases_to!(term => a)
            &&& decreases_to!(term => b)
        },
{
    match term {
        Ast::Mul(AstMul(lhs, rhs)) => Some((lhs, rhs)),
        _ => None,
    }
}

/// The side of a product on which a shared factor stands.
#[derive(Clone, Copy, Debug, PartialEq, Eq, Structural)]
pub enum FactorSide {
    Left,
    Right,
}

/// The product of `factor` and `body`, with the factor on the given side.
pub open spec fn product_node(side: FactorSide, factor: AstView, body: AstView) -> AstView {
    match side {
        FactorSide::Left => mul_node(factor, body),
        FactorSide::Right => mul_node(body, factor),
    }
}

/// The factor on one side of a product.
pub open spec fn factor_of(term: AstView, side: FactorSide) -> AstView {
    match side {
        FactorSide::Left => term.children[0],
        FactorSide::Right => term.children[1],
    }
}

/// Whether `term` is a product with `factor` on the given side.
pub open spec fn has_factor(term: AstView, side: FactorSide, factor: AstView) -> bool {
    term.op == AstOp::Mul && factor_of(term, side) == factor
}

/// The factor of a product on the given side, and what it multiplies.
pub fn factor_terms<'a, E, F: Field, B>(term: &'a Ast<E, F, B>, side: FactorSide) -> (r: Option<
    (&'a Ast<E, F, B>, &'a Ast<E, F, B>),
>)
    ensures
        r is Some <==> term.view().op == AstOp::Mul,
        r matches Some((factor, body)) ==> {
            &&& term.view() == product_node(side, factor.view(), body.view())
            &&& has_factor(term.view(), side, factor.view())
            &&& decreases_to!(term => factor)
            &&& decreases_to!(term => body)
        },
{
    match mul_terms(term) {
        None => None,
        Some((lhs, rhs)) => {
            match side {
                FactorSide::Left => Some((lhs, rhs)),
                FactorSide::Right => Some((rhs, lhs)),
            }
        },
    }
}

} // verus!
