//! The plan of an expression, whatever positions its scalars have: with each scalar written
//! as a number of its own, it is a function of the expression.
use crate::ast;
use crate::ast::{AstOp, AstView, FactorSide, IndexedLeaf};
use crate::lowering;
use crate::partition;
use crate::partition::Piece;
use crate::pieces;
use crate::pieces::RunFact;
use crate::plan;
use crate::plan::{BodyShape, FactorShape, PlanOp, PlanView, RunShape, WorkShape};
use crate::scalars::{BaseView, ScalarView};
use crate::shapes;
use crate::shapes::{MIN_HORNER_COEFFICIENTS, RunView};
use crate::unique;
use vstd::prelude::*;

verus! {

/// A number for each scalar.
pub open spec fn scalar_code(d: ScalarView) -> int {
    match d {
        ScalarView::Literal(v) => 10 * v,
        ScalarView::Challenge(c) => 10 * c.spec_index() + 1,
        ScalarView::ScaledChallenge(c, v) => 10 * v + 2 + c.spec_index(),
        ScalarView::ChallengePower(c, e) => 10 * e + 6 + c.spec_index(),
    }
}

/// Different scalars have different numbers.
pub proof fn lemma_code(a: ScalarView, b: ScalarView)
    requires
        scalar_code(a) == scalar_code(b),
    ensures
        a == b,
{
}

/// The numbers of the scalars at the positions of a list.
pub open spec fn scalar_codes(descs: Seq<ScalarView>) -> spec_fn(int) -> int {
    |id: int| scalar_code(descs[id])
}

// A plan with its scalars named anew.

pub open spec fn renamed_all(s: Seq<int>, m: spec_fn(int) -> int) -> Seq<int> {
    Seq::new(s.len(), |i: int| m(s[i]))
}

pub open spec fn renamed_factor(f: FactorShape, m: spec_fn(int) -> int) -> FactorShape {
    match f {
        FactorShape::Term(power) => FactorShape::Term(m(power)),
        FactorShape::Shared(powers) => FactorShape::Shared(renamed_all(powers, m)),
    }
}

pub open spec fn renamed_body(b: BodyShape, m: spec_fn(int) -> int) -> BodyShape {
    match b {
        BodyShape::Sequential(n) => BodyShape::Sequential(n),
        BodyShape::Factored(work) => BodyShape::Factored(
            Seq::new(work.len(), |i: int| renamed_factor(work[i], m)),
        ),
    }
}

pub open spec fn renamed_run(r: RunShape, m: spec_fn(int) -> int) -> RunShape {
    RunShape { power: m(r.power), body: renamed_body(r.body, m) }
}

pub open spec fn renamed_work(w: WorkShape, m: spec_fn(int) -> int) -> WorkShape {
    match w {
        WorkShape::Term(power) => WorkShape::Term(m(power)),
        WorkShape::Shared(powers) => WorkShape::Shared(renamed_all(powers, m)),
        WorkShape::Family(query, runs) => WorkShape::Family(
            query,
            Seq::new(runs.len(), |i: int| renamed_run(runs[i], m)),
        ),
    }
}

pub open spec fn renamed_works(work: Seq<WorkShape>, m: spec_fn(int) -> int) -> Seq<WorkShape> {
    Seq::new(work.len(), |i: int| renamed_work(work[i], m))
}

pub open spec fn renamed_op(op: PlanOp, m: spec_fn(int) -> int) -> PlanOp {
    match op {
        PlanOp::Scale(s) => PlanOp::Scale(m(s)),
        PlanOp::LinearTerm(s) => PlanOp::LinearTerm(m(s)),
        PlanOp::ConstantTerm(s) => PlanOp::ConstantTerm(m(s)),
        PlanOp::Distribute(work, base) => PlanOp::Distribute(renamed_works(work, m), m(base)),
        _ => op,
    }
}

pub open spec fn renamed(a: PlanView, m: spec_fn(int) -> int) -> PlanView
    decreases a,
{
    PlanView { op: renamed_op(a.op, m), children: renamed_plans(a.children, m) }
}

pub open spec fn renamed_plans(s: Seq<PlanView>, m: spec_fn(int) -> int) -> Seq<PlanView>
    decreases s,
{
    if s.len() == 0 {
        Seq::empty()
    } else {
        renamed_plans(s.drop_last(), m).push(renamed(s.last(), m))
    }
}

pub proof fn lemma_renamed_plans(s: Seq<PlanView>, m: spec_fn(int) -> int)
    ensures
        renamed_plans(s, m).len() == s.len(),
        forall|i: int|
            0 <= i < s.len() ==> #[trigger] renamed_plans(s, m)[i] == renamed(s[i], m),
    decreases s.len(),
{
    if s.len() > 0 {
        lemma_renamed_plans(s.drop_last(), m);
        assert forall|i: int| 0 <= i < s.len() implies #[trigger] renamed_plans(s, m)[i]
            == renamed(s[i], m) by {
            if i < s.len() - 1 {
                assert(s.drop_last()[i] == s[i]);
            }
        }
    }
}

pub proof fn lemma_renamed_concat(s: Seq<PlanView>, t: Seq<PlanView>, m: spec_fn(int) -> int)
    ensures
        renamed_plans(s + t, m) == renamed_plans(s, m) + renamed_plans(t, m),
{
    lemma_renamed_plans(s, m);
    lemma_renamed_plans(t, m);
    lemma_renamed_plans(s + t, m);
    assert(renamed_plans(s + t, m) =~= renamed_plans(s, m) + renamed_plans(t, m)) by {
        assert forall|i: int| 0 <= i < s.len() + t.len() implies renamed_plans(s + t, m)[i] == (
        renamed_plans(s, m) + renamed_plans(t, m))[i] by {
            if i < s.len() {
                assert((s + t)[i] == s[i]);
            } else {
                assert((s + t)[i] == t[i - s.len()]);
            }
        }
    }
}

pub proof fn lemma_renamed_pair(a: PlanView, b: PlanView, m: spec_fn(int) -> int)
    ensures
        renamed_plans(seq![a, b], m) == seq![renamed(a, m), renamed(b, m)],
        renamed_plans(seq![a], m) == seq![renamed(a, m)],
        renamed_plans(Seq::empty(), m) == Seq::<PlanView>::empty(),
{
    lemma_renamed_plans(seq![a, b], m);
    lemma_renamed_plans(seq![a], m);
    assert(renamed_plans(seq![a, b], m) =~= seq![renamed(a, m), renamed(b, m)]) by {
        assert(renamed_plans(seq![a, b], m)[0] == renamed(seq![a, b][0], m));
        assert(renamed_plans(seq![a, b], m)[1] == renamed(seq![a, b][1], m));
    }
    assert(renamed_plans(seq![a], m) =~= seq![renamed(a, m)]) by {
        assert(renamed_plans(seq![a], m)[0] == renamed(seq![a][0], m));
    }
}

/// Two ways of naming that agree below `n`.
pub open spec fn agree_below(m: spec_fn(int) -> int, k: spec_fn(int) -> int, n: int) -> bool {
    forall|i: int| 0 <= i < n ==> #[trigger] m(i) == k(i)
}

proof fn lemma_renamed_body_same(
    b: BodyShape,
    m: spec_fn(int) -> int,
    k: spec_fn(int) -> int,
    n: int,
)
    requires
        plan::body_in_bounds(b, n),
        agree_below(m, k, n),
    ensures
        renamed_body(b, m) == renamed_body(b, k),
{
    match b {
        BodyShape::Sequential(_) => {},
        BodyShape::Factored(work) => {
            let (x, y) = (
                Seq::new(work.len(), |i: int| renamed_factor(work[i], m)),
                Seq::new(work.len(), |i: int| renamed_factor(work[i], k)),
            );
            assert forall|i: int| 0 <= i < work.len() implies x[i] == y[i] by {
                assert(plan::factor_in_bounds(work[i], n));
                match work[i] {
                    FactorShape::Term(_) => {},
                    FactorShape::Shared(powers) => {
                        assert(renamed_all(powers, m) =~= renamed_all(powers, k));
                    },
                }
            }
            assert(x =~= y);
        },
    }
}

proof fn lemma_renamed_work_same(
    w: WorkShape,
    m: spec_fn(int) -> int,
    k: spec_fn(int) -> int,
    n: int,
    polys: spec_fn(IndexedLeaf) -> bool,
)
    requires
        plan::work_in_bounds(w, n, polys),
        agree_below(m, k, n),
    ensures
        renamed_work(w, m) == renamed_work(w, k),
{
    match w {
        WorkShape::Term(_) => {},
        WorkShape::Shared(powers) => {
            assert(renamed_all(powers, m) =~= renamed_all(powers, k));
        },
        WorkShape::Family(query, runs) => {
            let (x, y) = (
                Seq::new(runs.len(), |i: int| renamed_run(runs[i], m)),
                Seq::new(runs.len(), |i: int| renamed_run(runs[i], k)),
            );
            assert forall|i: int| 0 <= i < runs.len() implies x[i] == y[i] by {
                assert(0 <= runs[i].power < n);
                lemma_renamed_body_same(runs[i].body, m, k, n);
            }
            assert(x =~= y);
        },
    }
}

/// A plan that names only the first scalars is the same under names that agree on them.
pub proof fn lemma_renamed_same(
    a: PlanView,
    m: spec_fn(int) -> int,
    k: spec_fn(int) -> int,
    n: int,
    polys: spec_fn(IndexedLeaf) -> bool,
)
    requires
        plan::plan_in_bounds(a, n, polys, 0),
        agree_below(m, k, n),
    ensures
        renamed(a, m) == renamed(a, k),
    decreases a,
{
    lemma_renamed_plans_same(a.children, m, k, n, polys);
    match a.op {
        PlanOp::Distribute(work, base) => {
            assert forall|i: int| 0 <= i < work.len() implies renamed_works(work, m)[i]
                == renamed_works(work, k)[i] by {
                lemma_renamed_work_same(work[i], m, k, n, polys);
            }
            assert(renamed_works(work, m) =~= renamed_works(work, k));
        },
        _ => {},
    }
}

proof fn lemma_renamed_plans_same(
    s: Seq<PlanView>,
    m: spec_fn(int) -> int,
    k: spec_fn(int) -> int,
    n: int,
    polys: spec_fn(IndexedLeaf) -> bool,
)
    requires
        plan::plans_in_bounds(s, n, polys, 0),
        agree_below(m, k, n),
    ensures
        renamed_plans(s, m) == renamed_plans(s, k),
    decreases s,
{
    if s.len() > 0 {
        lemma_renamed_plans_same(s.drop_last(), m, k, n, polys);
        lemma_renamed_same(s.last(), m, k, n, polys);
    }
}

// The plan of an expression.

/// What a product's factor on one side multiplies.
pub open spec fn body_of(term: AstView, side: FactorSide) -> AstView {
    match side {
        FactorSide::Left => term.children[1],
        FactorSide::Right => term.children[0],
    }
}

/// The number of a power of the base.
pub open spec fn power_code(base: BaseView, e: int, p: int) -> int {
    scalar_code(pieces::power_desc(base, e as nat, p))
}

/// A piece that is no selector family, with the plans and the powers of its terms.
pub open spec fn filled_plain(
    piece: Piece,
    terms: Seq<AstView>,
    base: BaseView,
    p: int,
    f: spec_fn(AstView) -> PlanView,
) -> Piece {
    let n = terms.len();
    match piece {
        Piece::Family { query, runs } => piece,
        Piece::Shared { side, factor, plan, bodies, positions, plans, ids } => Piece::Shared {
            side,
            factor: ast::factor_of(terms[positions[0]], side),
            plan: f(ast::factor_of(terms[positions[0]], side)),
            bodies: Seq::new(positions.len(), |k: int| body_of(terms[positions[k]], side)),
            positions,
            plans: Seq::new(positions.len(), |k: int| f(body_of(terms[positions[k]], side))),
            ids: Seq::new(positions.len(), |k: int| power_code(base, n - 1 - positions[k], p)),
        },
        Piece::Term { position, plan, id } => Piece::Term {
            position,
            plan: f(terms[position]),
            id: power_code(base, n - 1 - position, p),
        },
    }
}

pub open spec fn filled_plains(
    list: Seq<Piece>,
    terms: Seq<AstView>,
    base: BaseView,
    p: int,
    f: spec_fn(AstView) -> PlanView,
) -> Seq<Piece> {
    Seq::new(list.len(), |g: int| filled_plain(list[g], terms, base, p, f))
}

/// A piece as a piece of a factored body.
pub open spec fn as_factor(piece: Piece) -> FactorShape {
    match piece {
        Piece::Family { query, runs } => FactorShape::Term(0),
        Piece::Shared { side, factor, plan, bodies, positions, plans, ids } => FactorShape::Shared(
            ids,
        ),
        Piece::Term { position, plan, id } => FactorShape::Term(id),
    }
}

pub open spec fn as_factors(list: Seq<Piece>) -> Seq<FactorShape> {
    Seq::new(list.len(), |g: int| as_factor(list[g]))
}

/// The pieces into which the bodies of a selector are factored.
pub open spec fn factoring_of(terms: Seq<AstView>) -> Seq<Piece> {
    let (left, right, singles) = choose|
        left: Seq<Piece>,
        right: Seq<Piece>,
        singles: Seq<Piece>,
    | #[trigger]
        partition::is_factoring(left, right, singles, terms);
    (left + right) + singles
}

/// How the bodies of a selector are planned, and the plans of the bodies.
pub open spec fn filled_body(
    terms: Seq<AstView>,
    base: BaseView,
    p: int,
    f: spec_fn(AstView) -> PlanView,
) -> (BodyShape, Seq<PlanView>) {
    if partition::nothing_shared(terms) {
        (BodyShape::Sequential(terms.len()), Seq::new(terms.len(), |i: int| f(terms[i])))
    } else {
        let list = filled_plains(factoring_of(terms), terms, base, p, f);
        (BodyShape::Factored(as_factors(list)), partition::pieces_kids(list))
    }
}

/// The bodies of a run.
pub open spec fn bodies_of(run: RunFact, terms: Seq<AstView>) -> Seq<AstView> {
    Seq::new(
        (run.end - run.start) as nat,
        |i: int| body_of(terms[run.start + i], run.side),
    )
}

pub open spec fn filled_run(
    run: RunFact,
    terms: Seq<AstView>,
    base: BaseView,
    p: int,
    f: spec_fn(AstView) -> PlanView,
) -> RunFact {
    let bodies = bodies_of(run, terms);
    let (body, children) = filled_body(bodies, base, p, f);
    RunFact {
        shape: RunShape { power: power_code(base, terms.len() - run.end, p), body },
        children,
        bodies,
        start: run.start,
        end: run.end,
        side: run.side,
    }
}

/// A piece with the plans and the powers of its terms.
pub open spec fn filled_piece(
    piece: Piece,
    terms: Seq<AstView>,
    base: BaseView,
    p: int,
    f: spec_fn(AstView) -> PlanView,
) -> Piece {
    match piece {
        Piece::Family { query, runs } => Piece::Family {
            query,
            runs: Seq::new(runs.len(), |j: int| filled_run(runs[j], terms, base, p, f)),
        },
        _ => filled_plain(piece, terms, base, p, f),
    }
}

pub open spec fn filled_all(
    list: Seq<Piece>,
    terms: Seq<AstView>,
    base: BaseView,
    p: int,
    f: spec_fn(AstView) -> PlanView,
) -> Seq<Piece> {
    Seq::new(list.len(), |g: int| filled_piece(list[g], terms, base, p, f))
}

/// The pieces into which the terms of a combination are divided.
pub open spec fn division_of(terms: Seq<AstView>, p: int) -> Seq<Piece> {
    let (families, left, right, singles) = choose|
        families: Seq<Piece>,
        left: Seq<Piece>,
        right: Seq<Piece>,
        singles: Seq<Piece>,
    | #[trigger]
        partition::is_division(families, left, right, singles, terms, p);
    families + (left + right) + singles
}

/// Whether an expression is a polynomial written out in powers that is long enough to be
/// evaluated by Horner's rule.
pub open spec fn is_expansion(a: AstView, base: AstView, coefficients: Seq<IndexedLeaf>) -> bool {
    coefficients.len() >= MIN_HORNER_COEFFICIENTS && a == shapes::expanded_node(base, coefficients)
}

/// The plan of an expression, where `f` gives those of the expressions within it.
pub open spec fn plan_step(a: AstView, p: int, f: spec_fn(AstView) -> PlanView) -> PlanView {
    match a.op {
        AstOp::Poly(leaf) => plan::plan_leaf(PlanOp::Poly(leaf)),
        AstOp::Add => if exists|base: AstView, coefficients: Seq<IndexedLeaf>| #[trigger]
            is_expansion(a, base, coefficients) {
            let (base, coefficients) = choose|base: AstView, coefficients: Seq<IndexedLeaf>|
                #[trigger]
                is_expansion(a, base, coefficients);
            plan::plan_node1(PlanOp::Horner(coefficients), f(base))
        } else {
            plan::plan_node2(PlanOp::Add, f(a.children[0]), f(a.children[1]))
        },
        AstOp::Mul => if a.children[0] == a.children[1] {
            plan::plan_node1(PlanOp::Square, f(a.children[0]))
        } else {
            plan::plan_node2(PlanOp::Mul, f(a.children[0]), f(a.children[1]))
        },
        AstOp::Scale(s) => plan::plan_node1(
            PlanOp::Scale(scalar_code(ScalarView::Literal(s))),
            f(a.children[0]),
        ),
        AstOp::Distribute(base) => if a.children.len() == 0 {
            plan::plan_leaf(PlanOp::ConstantTerm(scalar_code(ScalarView::Literal(0))))
        } else if a.children.len() == 1 {
            f(a.children[0])
        } else {
            let list = filled_all(division_of(a.children, p), a.children, base, p, f);
            PlanView {
                op: PlanOp::Distribute(partition::piece_shapes(list), scalar_code(partition::base_desc(base))),
                children: partition::pieces_kids(list),
            }
        },
        AstOp::LinearTerm(s) => plan::plan_leaf(PlanOp::LinearTerm(scalar_code(ScalarView::Literal(s)))),
        AstOp::LinearChallengeTerm(c, s) => plan::plan_leaf(
            PlanOp::LinearTerm(scalar_code(ScalarView::ScaledChallenge(c, s))),
        ),
        AstOp::ConstantTerm(s) => plan::plan_leaf(PlanOp::ConstantTerm(scalar_code(ScalarView::Literal(s)))),
        AstOp::ChallengeTerm(c) => plan::plan_leaf(
            PlanOp::ConstantTerm(scalar_code(ScalarView::Challenge(c))),
        ),
    }
}

/// The plan of an expression, with each scalar written as its number: terms are divided
/// into selector families, common factors and single terms, squares are told from products,
/// and polynomials written out in powers are evaluated by Horner's rule.
pub open spec fn plan_of(a: AstView, p: int) -> PlanView
    decreases ast::ast_size(a), 1nat,
{
    plan_step(a, p, plans_below(ast::ast_size(a), p))
}

/// The plans of the expressions below a size.
pub open spec fn plans_below(n: nat, p: int) -> spec_fn(AstView) -> PlanView
    decreases n, 0nat,
{
    |x: AstView|
        if ast::ast_size(x) < n {
            plan_of(x, p)
        } else {
            plan::plan_leaf(PlanOp::Add)
        }
}

pub proof fn lemma_plan_of(a: AstView, p: int)
    ensures
        plan_of(a, p) == plan_step(a, p, plans_below(ast::ast_size(a), p)),
{
}

pub proof fn lemma_plans_below(n: nat, p: int)
    ensures
        forall|x: AstView|
            ast::ast_size(x) < n ==> #[trigger] plans_below(n, p)(x) == plan_of(x, p),
{
}

/// The plan is that of the expression, with the scalars of the list at its positions.
#[verifier::opaque]
pub open spec fn written_as(plan: PlanView, a: AstView, descs: Seq<ScalarView>, p: int) -> bool {
    renamed(plan, scalar_codes(descs)) == plan_of(a, p)
}

proof fn lemma_written_step(a: AstView, p: int)
    ensures
        plan_of(a, p) == plan_step(a, p, plans_below(ast::ast_size(a), p)),
        forall|x: AstView|
            ast::ast_size(x) < ast::ast_size(a) ==> #[trigger] plans_below(ast::ast_size(a), p)(x) == plan_of(
                x,
                p,
            ),
{
    lemma_plan_of(a, p);
    lemma_plans_below(ast::ast_size(a), p);
}

/// More scalars behind the list leave the plan as it is written.
pub proof fn lemma_written_mono(
    plan: PlanView,
    a: AstView,
    descs: Seq<ScalarView>,
    later: Seq<ScalarView>,
    p: int,
    polys: spec_fn(IndexedLeaf) -> bool,
)
    requires
        written_as(plan, a, descs, p),
        lowering::extends(later, descs),
        plan::plan_in_bounds(plan, descs.len() as int, polys, 0),
    ensures
        written_as(plan, a, later, p),
{
    reveal(written_as);
    let n = descs.len() as int;
    let (m, k) = (scalar_codes(descs), scalar_codes(later));
    assert forall|i: int| 0 <= i < n implies #[trigger] m(i) == k(i) by {
        assert(later.take(n)[i] == descs[i]);
    }
    lemma_renamed_same(plan, m, k, n, polys);
}

pub proof fn lemma_written_poly(leaf: IndexedLeaf, descs: Seq<ScalarView>, p: int)
    ensures
        written_as(plan::plan_leaf(PlanOp::Poly(leaf)), ast::poly_node(leaf), descs, p),
{
    reveal(written_as);
    let plan = plan::plan_leaf(PlanOp::Poly(leaf));
    lemma_written_step(ast::poly_node(leaf), p);
    lemma_renamed_pair(plan, plan, scalar_codes(descs));
}

pub proof fn lemma_written_add(
    x: PlanView,
    y: PlanView,
    a: AstView,
    b: AstView,
    descs: Seq<ScalarView>,
    p: int,
)
    requires
        written_as(x, a, descs, p),
        written_as(y, b, descs, p),
        forall|base: AstView, coefficients: Seq<IndexedLeaf>|
            !#[trigger] is_expansion(ast::add_node(a, b), base, coefficients),
    ensures
        written_as(plan::plan_node2(PlanOp::Add, x, y), ast::add_node(a, b), descs, p),
{
    reveal(written_as);
    lemma_written_step(ast::add_node(a, b), p);
    shapes::lemma_ast_size_pair(AstOp::Add, a, b);
    lemma_renamed_pair(x, y, scalar_codes(descs));
    assert(ast::add_node(a, b).children[0] == a && ast::add_node(a, b).children[1] == b);
}

pub proof fn lemma_written_horner(
    x: PlanView,
    base: AstView,
    coefficients: Seq<IndexedLeaf>,
    descs: Seq<ScalarView>,
    p: int,
)
    requires
        written_as(x, base, descs, p),
        coefficients.len() >= MIN_HORNER_COEFFICIENTS,
    ensures
        written_as(
            plan::plan_node1(PlanOp::Horner(coefficients), x),
            shapes::expanded_node(base, coefficients),
            descs,
            p,
        ),
{
    reveal(written_as);
    let a = shapes::expanded_node(base, coefficients);
    lemma_written_step(a, p);
    lowering::lemma_expanded_size(base, coefficients);
    lemma_renamed_pair(x, x, scalar_codes(descs));
    assert(is_expansion(a, base, coefficients));
    let (other, cs) = choose|other: AstView, cs: Seq<IndexedLeaf>| #[trigger]
        is_expansion(a, other, cs);
    assert(is_expansion(a, other, cs));
    shapes::lemma_expanded_injective(base, coefficients, other, cs);
}

pub proof fn lemma_written_mul(
    x: PlanView,
    y: PlanView,
    a: AstView,
    b: AstView,
    descs: Seq<ScalarView>,
    p: int,
)
    requires
        written_as(x, a, descs, p),
        written_as(y, b, descs, p),
    ensures
        a != b ==> written_as(plan::plan_node2(PlanOp::Mul, x, y), ast::mul_node(a, b), descs, p),
        a == b ==> written_as(plan::plan_node1(PlanOp::Square, x), ast::mul_node(a, b), descs, p),
{
    reveal(written_as);
    lemma_written_step(ast::mul_node(a, b), p);
    shapes::lemma_ast_size_pair(AstOp::Mul, a, b);
    lemma_renamed_pair(x, y, scalar_codes(descs));
    assert(ast::mul_node(a, b).children[0] == a && ast::mul_node(a, b).children[1] == b);
}

pub proof fn lemma_written_scale(
    x: PlanView,
    id: int,
    a: AstView,
    s: int,
    descs: Seq<ScalarView>,
    p: int,
)
    requires
        written_as(x, a, descs, p),
        0 <= id < descs.len(),
        descs[id] == ScalarView::Literal(s),
    ensures
        written_as(plan::plan_node1(PlanOp::Scale(id), x), ast::scale_node(a, s), descs, p),
{
    reveal(written_as);
    lemma_written_step(ast::scale_node(a, s), p);
    shapes::lemma_ast_sizes_bound(ast::scale_node(a, s).children, 0);
    lemma_renamed_pair(x, x, scalar_codes(descs));
    assert(ast::scale_node(a, s).children[0] == a);
}

pub proof fn lemma_written_term(id: int, op: AstOp, descs: Seq<ScalarView>, p: int)
    requires
        0 <= id < descs.len(),
        match op {
            AstOp::LinearTerm(s) => descs[id] == ScalarView::Literal(s),
            AstOp::LinearChallengeTerm(c, f) => descs[id] == ScalarView::ScaledChallenge(c, f),
            AstOp::ConstantTerm(s) => descs[id] == ScalarView::Literal(s),
            AstOp::ChallengeTerm(c) => descs[id] == ScalarView::Challenge(c),
            _ => false,
        },
    ensures
        match op {
            AstOp::LinearTerm(_) | AstOp::LinearChallengeTerm(_, _) => written_as(
                plan::plan_leaf(PlanOp::LinearTerm(id)),
                ast::leaf_node(op),
                descs,
                p,
            ),
            _ => written_as(plan::plan_leaf(PlanOp::ConstantTerm(id)), ast::leaf_node(op), descs, p),
        },
{
    reveal(written_as);
    let plan = plan::plan_leaf(PlanOp::LinearTerm(id));
    lemma_written_step(ast::leaf_node(op), p);
    lemma_renamed_pair(plan, plan, scalar_codes(descs));
}

pub proof fn lemma_written_empty(id: int, base: BaseView, descs: Seq<ScalarView>, p: int)
    requires
        0 <= id < descs.len(),
        descs[id] == ScalarView::Literal(0),
    ensures
        written_as(
            plan::plan_leaf(PlanOp::ConstantTerm(id)),
            AstView { op: AstOp::Distribute(base), children: Seq::empty() },
            descs,
            p,
        ),
{
    reveal(written_as);
    let plan = plan::plan_leaf(PlanOp::ConstantTerm(id));
    lemma_written_step(AstView { op: AstOp::Distribute(base), children: Seq::empty() }, p);
    lemma_renamed_pair(plan, plan, scalar_codes(descs));
}

pub proof fn lemma_written_single(
    plan: PlanView,
    a: AstView,
    base: BaseView,
    descs: Seq<ScalarView>,
    p: int,
)
    requires
        written_as(plan, a, descs, p),
    ensures
        written_as(plan, AstView { op: AstOp::Distribute(base), children: seq![a] }, descs, p),
{
    reveal(written_as);
    let node = AstView { op: AstOp::Distribute(base), children: seq![a] };
    lemma_written_step(node, p);
    shapes::lemma_ast_sizes_bound(node.children, 0);
    assert(node.children[0] == a);
}

// Pieces with their scalars named anew.

spec fn renamed_fact(run: RunFact, m: spec_fn(int) -> int) -> RunFact {
    RunFact {
        shape: renamed_run(run.shape, m),
        children: renamed_plans(run.children, m),
        bodies: run.bodies,
        start: run.start,
        end: run.end,
        side: run.side,
    }
}

spec fn renamed_facts(runs: Seq<RunFact>, m: spec_fn(int) -> int) -> Seq<RunFact> {
    Seq::new(runs.len(), |j: int| renamed_fact(runs[j], m))
}

spec fn renamed_piece(piece: Piece, m: spec_fn(int) -> int) -> Piece {
    match piece {
        Piece::Family { query, runs } => Piece::Family { query, runs: renamed_facts(runs, m) },
        Piece::Shared { side, factor, plan, bodies, positions, plans, ids } => Piece::Shared {
            side,
            factor,
            plan: renamed(plan, m),
            bodies,
            positions,
            plans: renamed_plans(plans, m),
            ids: renamed_all(ids, m),
        },
        Piece::Term { position, plan, id } => Piece::Term {
            position,
            plan: renamed(plan, m),
            id: m(id),
        },
    }
}

spec fn renamed_pieces(list: Seq<Piece>, m: spec_fn(int) -> int) -> Seq<Piece> {
    Seq::new(list.len(), |g: int| renamed_piece(list[g], m))
}

proof fn lemma_renamed_shapes(list: Seq<Piece>, m: spec_fn(int) -> int)
    ensures
        partition::piece_shapes(renamed_pieces(list, m)) == renamed_works(partition::piece_shapes(list), m),
{
    assert forall|g: int| 0 <= g < list.len() implies partition::piece_shapes(renamed_pieces(list, m))[g]
        == renamed_works(partition::piece_shapes(list), m)[g] by {
        match list[g] {
            Piece::Family { query, runs } => {
                let shapes = pieces::fact_shapes(runs);
                assert(pieces::fact_shapes(renamed_facts(runs, m)) =~= Seq::new(
                    shapes.len(),
                    |i: int| renamed_run(shapes[i], m),
                ));
            },
            _ => {},
        }
    }
    assert(partition::piece_shapes(renamed_pieces(list, m)) =~= renamed_works(partition::piece_shapes(list), m));
}

proof fn lemma_renamed_fact_children(runs: Seq<RunFact>, m: spec_fn(int) -> int)
    ensures
        pieces::fact_children(renamed_facts(runs, m)) == renamed_plans(pieces::fact_children(runs), m),
    decreases runs.len(),
{
    if runs.len() > 0 {
        let front = runs.drop_last();
        lemma_renamed_fact_children(front, m);
        assert(renamed_facts(runs, m).drop_last() =~= renamed_facts(front, m));
        lemma_renamed_concat(runs.last().children, pieces::fact_children(front), m);
    }
}

proof fn lemma_renamed_kids(list: Seq<Piece>, m: spec_fn(int) -> int)
    ensures
        partition::pieces_kids(renamed_pieces(list, m)) == renamed_plans(partition::pieces_kids(list), m),
    decreases list.len(),
{
    if list.len() > 0 {
        let front = list.drop_last();
        let last = list.last();
        lemma_renamed_kids(front, m);
        assert(renamed_pieces(list, m).drop_last() =~= renamed_pieces(front, m));
        lemma_renamed_concat(partition::pieces_kids(front), partition::piece_kids(last), m);
        assert(partition::piece_kids(renamed_piece(last, m)) == renamed_plans(partition::piece_kids(last), m)) by {
            match last {
                Piece::Family { query, runs } => {
                    lemma_renamed_fact_children(runs, m);
                },
                Piece::Shared { side, factor, plan, bodies, positions, plans, ids } => {
                    lemma_renamed_concat(seq![plan], plans, m);
                    lemma_renamed_pair(plan, plan, m);
                },
                Piece::Term { position, plan, id } => {
                    lemma_renamed_pair(plan, plan, m);
                },
            }
        }
    }
}

/// `f` gives the plans of all expressions below the size `n`.
spec fn plans_all(f: spec_fn(AstView) -> PlanView, n: int, p: int) -> bool {
    forall|x: AstView| ast::ast_size(x) < n ==> #[trigger] f(x) == plan_of(x, p)
}

/// The operands of a product are smaller than it.
proof fn lemma_product_sizes(side: FactorSide, factor: AstView, body: AstView)
    ensures
        ast::ast_size(factor) < ast::ast_size(ast::product_node(side, factor, body)),
        ast::ast_size(body) < ast::ast_size(ast::product_node(side, factor, body)),
        ast::factor_of(ast::product_node(side, factor, body), side) == factor,
        body_of(ast::product_node(side, factor, body), side) == body,
        ast::has_factor(ast::product_node(side, factor, body), side, factor),
{
    match side {
        FactorSide::Left => {
            shapes::lemma_ast_size_pair(AstOp::Mul, factor, body);
            assert(ast::mul_node(factor, body).children[0] == factor);
            assert(ast::mul_node(factor, body).children[1] == body);
        },
        FactorSide::Right => {
            shapes::lemma_ast_size_pair(AstOp::Mul, body, factor);
            assert(ast::mul_node(body, factor).children[0] == body);
            assert(ast::mul_node(body, factor).children[1] == factor);
        },
    }
}

/// A planned piece is the filled one, with the scalars at its positions.
proof fn lemma_filled_plain(
    piece: Piece,
    other: Piece,
    terms: Seq<AstView>,
    base: BaseView,
    descs: Seq<ScalarView>,
    p: int,
    f: spec_fn(AstView) -> PlanView,
    n: int,
)
    requires
        partition::plain_fits(piece, terms, base, descs, p),
        unique::same_place(piece, other),
        piece is Shared ==> piece->positions.len() > 0,
        plans_all(f, n, p),
        ast::ast_sizes(terms) < n,
    ensures
        renamed_piece(piece, scalar_codes(descs)) == filled_plain(other, terms, base, p, f),
{
    let m = scalar_codes(descs);
    let len = terms.len() as int;
    match piece {
        Piece::Family { query, runs } => {},
        Piece::Shared { side, factor, plan, bodies, positions, plans, ids } => {
            let full = filled_plain(other, terms, base, p, f);
            lemma_renamed_plans(plans, m);
            assert forall|k: int| 0 <= k < positions.len() implies {
                &&& bodies[k] == body_of(terms[#[trigger] positions[k]], side)
                &&& factor == ast::factor_of(terms[positions[k]], side)
                &&& renamed_plans(plans, m)[k] == f(bodies[k])
                &&& renamed_all(ids, m)[k] == power_code(base, len - 1 - positions[k], p)
            } by {
                lemma_product_sizes(side, factor, bodies[k]);
                shapes::lemma_ast_sizes_bound(terms, positions[k]);
                assert(lowering::compiled(plans[k], bodies[k], descs, p));
                reveal(written_as);
                assert(f(bodies[k]) == plan_of(bodies[k], p));
                assert(pieces::is_power(ids[k], base, len - 1 - positions[k], descs, p));
            }
            let first = positions[0];
            lemma_product_sizes(side, factor, bodies[0]);
            shapes::lemma_ast_sizes_bound(terms, first);
            reveal(written_as);
            assert(f(factor) == plan_of(factor, p));
            assert(full->bodies =~= bodies);
            assert(full->plans =~= renamed_plans(plans, m));
            assert(full->ids =~= renamed_all(ids, m));
        },
        Piece::Term { position, plan, id } => {
            shapes::lemma_ast_sizes_bound(terms, position);
            reveal(written_as);
            assert(f(terms[position]) == plan_of(terms[position], p));
        },
    }
}

/// The planned bodies of a selector are the filled ones.
proof fn lemma_filled_body(
    body: BodyShape,
    kids: Seq<PlanView>,
    terms: Seq<AstView>,
    base: BaseView,
    descs: Seq<ScalarView>,
    p: int,
    f: spec_fn(AstView) -> PlanView,
    n: int,
)
    requires
        partition::body_divided(body, kids, terms, base, descs, p),
        plans_all(f, n, p),
        ast::ast_sizes(terms) < n,
    ensures
        (renamed_body(body, scalar_codes(descs)), renamed_plans(kids, scalar_codes(descs))) == filled_body(
            terms,
            base,
            p,
            f,
        ),
{
    let m = scalar_codes(descs);
    match body {
        BodyShape::Sequential(count) => {
            lemma_renamed_plans(kids, m);
            let full = Seq::new(terms.len(), |i: int| f(terms[i]));
            assert forall|i: int| 0 <= i < kids.len() implies renamed_plans(kids, m)[i]
                == full[i] by {
                assert(lowering::compiled(kids[i], terms[i], descs, p));
                reveal(written_as);
                shapes::lemma_ast_sizes_bound(terms, i);
                assert(f(terms[i]) == plan_of(terms[i], p));
            }
            assert(renamed_plans(kids, m) =~= full);
        },
        BodyShape::Factored(shapes) => {
            let (left, right, singles) = choose|
                left: Seq<Piece>,
                right: Seq<Piece>,
                singles: Seq<Piece>,
            |
                {
                    &&& #[trigger] partition::is_factoring(left, right, singles, terms)
                    &&& pieces::as_works(shapes) == partition::piece_shapes((left + right) + singles)
                    &&& kids == partition::pieces_kids((left + right) + singles)
                    &&& partition::all_plain((left + right) + singles, terms, base, descs, p)
                };
            let list = (left + right) + singles;
            unique::lemma_factoring_shares(left, right, singles, terms);
            let (l, r, s) = choose|l: Seq<Piece>, r: Seq<Piece>, s: Seq<Piece>| #[trigger]
                partition::is_factoring(l, r, s, terms);
            assert(partition::is_factoring(l, r, s, terms));
            let others = (l + r) + s;
            assert(others == factoring_of(terms));
            unique::lemma_factoring_unique(left, right, singles, l, r, s, terms);
            let full = filled_plains(others, terms, base, p, f);
            assert forall|g: int| 0 <= g < list.len() implies renamed_pieces(list, m)[g]
                == full[g] by {
                assert(partition::plain_fits(list[g], terms, base, descs, p)) by {
                    reveal(partition::all_plain);
                }
                assert(unique::same_place(list[g], others[g]));
                if list[g] is Shared {
                    lemma_shared_nonempty(left, right, singles, terms, g);
                }
                lemma_filled_plain(list[g], others[g], terms, base, descs, p, f, n);
            }
            assert(renamed_pieces(list, m) =~= full);
            lemma_renamed_kids(list, m);
            let named = Seq::new(shapes.len(), |i: int| renamed_factor(shapes[i], m));
            assert(pieces::as_works(shapes).len() == partition::piece_shapes(list).len());
            assert(shapes.len() == list.len());
            assert forall|g: int| 0 <= g < list.len() implies named[g] == as_factors(full)[g] by {
                assert(pieces::as_works(shapes)[g] == pieces::as_work(shapes[g]));
                assert(partition::piece_shapes(list)[g] == partition::piece_shape(list[g]));
                assert(pieces::as_work(shapes[g]) == partition::piece_shape(list[g]));
                assert(partition::plain_fits(list[g], terms, base, descs, p)) by {
                    reveal(partition::all_plain);
                }
                assert(full[g] == renamed_piece(list[g], m));
                assert(as_factors(full)[g] == as_factor(full[g]));
            }
            assert(named =~= as_factors(full));
        },
    }
}

/// Groups of a factoring have terms.
proof fn lemma_shared_nonempty(
    left: Seq<Piece>,
    right: Seq<Piece>,
    singles: Seq<Piece>,
    terms: Seq<AstView>,
    g: int,
)
    requires
        partition::is_factoring(left, right, singles, terms),
        0 <= g < ((left + right) + singles).len(),
        ((left + right) + singles)[g] is Shared,
    ensures
        ((left + right) + singles)[g]->positions.len() > 0,
{
    if g < left.len() {
        assert(left[g]->positions.len() >= 2);
    } else if g < left.len() + right.len() {
        assert(right[g - left.len()]->positions.len() >= 2);
    } else {
        assert(singles[g - left.len() - right.len()] is Term);
    }
}

/// The runs of a planned family are the filled ones.
proof fn lemma_filled_run(
    run: RunFact,
    other: RunFact,
    j: int,
    query: IndexedLeaf,
    len: int,
    terms: Seq<AstView>,
    base: BaseView,
    descs: Seq<ScalarView>,
    p: int,
    f: spec_fn(AstView) -> PlanView,
    n: int,
)
    requires
        pieces::run_computes(run, j, query, len, terms, base, descs, p),
        partition::body_divided(run.shape.body, run.children, run.bodies, base, descs, p),
        unique::same_run(run, other),
        plans_all(f, n, p),
        ast::ast_sizes(terms) < n,
    ensures
        renamed_fact(run, scalar_codes(descs)) == filled_run(other, terms, base, p, f),
{
    let bodies = bodies_of(other, terms);
    let sel = shapes::selector_node(query, len, j + 1, p);
    assert forall|i: int| 0 <= i < bodies.len() implies bodies[i] == run.bodies[i] by {
        let k = run.start + i;
        assert(terms[k] == ast::product_node(run.side, sel, run.bodies[k - run.start]));
        lemma_product_sizes(run.side, sel, run.bodies[i]);
    }
    assert(bodies =~= run.bodies);
    lemma_run_size(run, j, query, len, terms, base, descs, p);
    lemma_filled_body(run.shape.body, run.children, run.bodies, base, descs, p, f, n);
}

/// The bodies of a run are smaller than its terms.
proof fn lemma_run_size(
    run: RunFact,
    j: int,
    query: IndexedLeaf,
    len: int,
    terms: Seq<AstView>,
    base: BaseView,
    descs: Seq<ScalarView>,
    p: int,
)
    requires
        pieces::run_computes(run, j, query, len, terms, base, descs, p),
    ensures
        ast::ast_sizes(run.bodies) <= ast::ast_sizes(terms),
{
    let sel = shapes::selector_node(query, len, j + 1, p);
    let part = terms.subrange(run.start, run.end);
    assert forall|i: int| 0 <= i < part.len() implies ast::ast_size(#[trigger] run.bodies[i])
        <= ast::ast_size(part[i]) by {
        let k = run.start + i;
        assert(terms[k] == ast::product_node(run.side, sel, run.bodies[k - run.start]));
        lemma_product_sizes(run.side, sel, run.bodies[i]);
    }
    lemma_sizes_each(run.bodies, part);
    lemma_sizes_part(terms, run.start, run.end);
}

proof fn lemma_sizes_each(s: Seq<AstView>, t: Seq<AstView>)
    requires
        s.len() == t.len(),
        forall|i: int| 0 <= i < s.len() ==> ast::ast_size(#[trigger] s[i]) <= ast::ast_size(t[i]),
    ensures
        ast::ast_sizes(s) <= ast::ast_sizes(t),
    decreases s.len(),
{
    if s.len() > 0 {
        let (a, b) = (s.drop_last(), t.drop_last());
        assert forall|i: int| 0 <= i < a.len() implies ast::ast_size(#[trigger] a[i])
            <= ast::ast_size(b[i]) by {
            assert(ast::ast_size(s[i]) <= ast::ast_size(t[i]));
        }
        lemma_sizes_each(a, b);
        assert(ast::ast_size(s[s.len() - 1]) <= ast::ast_size(t[s.len() - 1]));
    }
}

proof fn lemma_sizes_part(s: Seq<AstView>, start: int, end: int)
    requires
        0 <= start <= end <= s.len(),
    ensures
        ast::ast_sizes(s.subrange(start, end)) <= ast::ast_sizes(s),
    decreases s.len(),
{
    let part = s.subrange(start, end);
    if start < end {
        if end == s.len() {
            assert(part.drop_last() =~= s.drop_last().subrange(start, end - 1));
            lemma_sizes_part(s.drop_last(), start, end - 1);
        } else {
            assert(part =~= s.drop_last().subrange(start, end));
            lemma_sizes_part(s.drop_last(), start, end);
        }
    }
}

proof fn lemma_filled(
    piece: Piece,
    other: Piece,
    terms: Seq<AstView>,
    base: BaseView,
    descs: Seq<ScalarView>,
    p: int,
    f: spec_fn(AstView) -> PlanView,
    n: int,
)
    requires
        partition::piece_fits(piece, terms, base, descs, p),
        unique::same_place(piece, other),
        piece is Shared ==> piece->positions.len() > 0,
        plans_all(f, n, p),
        ast::ast_sizes(terms) < n,
    ensures
        renamed_piece(piece, scalar_codes(descs)) == filled_piece(other, terms, base, p, f),
{
    let m = scalar_codes(descs);
    match piece {
        Piece::Family { query, runs } => {
            let full = filled_piece(other, terms, base, p, f);
            assert forall|j: int| 0 <= j < runs.len() implies renamed_facts(runs, m)[j]
                == full->runs[j] by {
                assert(unique::same_run(runs[j], other->runs[j]));
                assert(pieces::run_computes(
                    runs[j],
                    j,
                    query,
                    runs.len() as int,
                    terms,
                    base,
                    descs,
                    p,
                ));
                assert(partition::body_divided(
                    runs[j].shape.body,
                    runs[j].children,
                    runs[j].bodies,
                    base,
                    descs,
                    p,
                )) by {
                    reveal(partition::bodies_divided);
                }
                lemma_filled_run(
                    runs[j],
                    other->runs[j],
                    j,
                    query,
                    runs.len() as int,
                    terms,
                    base,
                    descs,
                    p,
                    f,
                    n,
                );
            }
            assert(renamed_facts(runs, m) =~= full->runs);
        },
        _ => {
            lemma_filled_plain(piece, other, terms, base, descs, p, f, n);
        },
    }
}

/// Groups of a division have terms.
proof fn lemma_division_nonempty(
    families: Seq<Piece>,
    left: Seq<Piece>,
    right: Seq<Piece>,
    singles: Seq<Piece>,
    terms: Seq<AstView>,
    p: int,
    g: int,
)
    requires
        partition::is_division(families, left, right, singles, terms, p),
        0 <= g < (families + (left + right) + singles).len(),
        (families + (left + right) + singles)[g] is Shared,
    ensures
        (families + (left + right) + singles)[g]->positions.len() > 0,
{
    let (a, b, c) = (families.len() as int, left.len() as int, right.len() as int);
    let list = families + (left + right) + singles;
    if g < a {
        let runs = choose|runs: Seq<RunView>|
            shapes::is_scan(terms, terms.len() as int, runs, p) && #[trigger] partition::families_listed(
                families,
                runs,
            );
        assert(list[g] == families[g]);
        assert(families[g] is Family);
    } else if g < a + b {
        assert(list[g] == left[g - a]);
        assert(left[g - a]->positions.len() >= 2);
    } else if g < a + b + c {
        assert(list[g] == right[g - a - b]);
        assert(right[g - a - b]->positions.len() >= 2);
    } else {
        assert(list[g] == singles[g - a - b - c]);
        assert(singles[g - a - b - c] is Term);
    }
}

/// A plan that evaluates the pieces of the division is that of the combination.
pub proof fn lemma_written_distribute(
    plan: PlanView,
    families: Seq<Piece>,
    left: Seq<Piece>,
    right: Seq<Piece>,
    singles: Seq<Piece>,
    terms: Seq<AstView>,
    base: BaseView,
    descs: Seq<ScalarView>,
    p: int,
)
    requires
        p > 2,
        terms.len() >= 2,
        partition::is_division(families, left, right, singles, terms, p),
        partition::evaluates_pieces(
            plan,
            families + (left + right) + singles,
            terms,
            base,
            descs,
            p,
        ),
    ensures
        written_as(
            plan,
            AstView { op: AstOp::Distribute(base), children: terms },
            descs,
            p,
        ),
{
    let a = AstView { op: AstOp::Distribute(base), children: terms };
    let m = scalar_codes(descs);
    let list = families + (left + right) + singles;
    let n = ast::ast_size(a);
    let f = plans_below(n, p);
    lemma_written_step(a, p);
    let (x, y, z, w) = choose|
        x: Seq<Piece>,
        y: Seq<Piece>,
        z: Seq<Piece>,
        w: Seq<Piece>,
    | #[trigger]
        partition::is_division(x, y, z, w, terms, p);
    assert(partition::is_division(x, y, z, w, terms, p));
    let others = x + (y + z) + w;
    assert(others == division_of(terms, p));
    unique::lemma_division_unique(families, left, right, singles, x, y, z, w, terms, p);
    let full = filled_all(others, terms, base, p, f);
    assert forall|g: int| 0 <= g < list.len() implies renamed_pieces(list, m)[g] == full[g] by {
        assert(partition::piece_fits(list[g], terms, base, descs, p)) by {
            reveal(partition::all_fit);
        }
        assert(unique::same_place(list[g], others[g]));
        if list[g] is Shared {
            lemma_division_nonempty(families, left, right, singles, terms, p, g);
        }
        lemma_filled(list[g], others[g], terms, base, descs, p, f, n as int);
    }
    assert(renamed_pieces(list, m) =~= full);
    lemma_renamed_shapes(list, m);
    lemma_renamed_kids(list, m);
    reveal(written_as);
}

} // verus!
