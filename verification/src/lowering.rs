//! What it means for a plan to compute an expression, and how plans for the operands
//! of an expression make a plan for the whole.
use crate::arith;
use crate::ast;
use crate::ast::{AstOp, AstView, IndexedLeaf, RowEnv};
use crate::plan;
use crate::plan::{BodyShape, PlanOp, PlanView, WorkShape};
use crate::scalars;
use crate::scalars::{ChallengeView, ScalarView};
use crate::schedule;
use crate::shapes;
use crate::shapes::MIN_HORNER_COEFFICIENTS;
use crate::values;
use crate::written;
use vstd::arithmetic::power::*;
use vstd::prelude::*;

verus! {

/// Whether an expression reads only polynomials that it may read.
pub open spec fn leaves_below(a: AstView, polys: spec_fn(IndexedLeaf) -> bool) -> bool
    decreases a,
{
    &&& (a.op matches AstOp::Poly(leaf) ==> polys(leaf))
    &&& all_leaves_below(a.children, polys)
}

pub open spec fn all_leaves_below(s: Seq<AstView>, polys: spec_fn(IndexedLeaf) -> bool) -> bool
    decreases s,
{
    s.len() == 0 || (all_leaves_below(s.drop_last(), polys) && leaves_below(s.last(), polys))
}

pub proof fn lemma_all_leaves_below(s: Seq<AstView>, polys: spec_fn(IndexedLeaf) -> bool, i: int)
    requires
        all_leaves_below(s, polys),
        0 <= i < s.len(),
    ensures
        leaves_below(s[i], polys),
    decreases s.len(),
{
    if i < s.len() - 1 {
        lemma_all_leaves_below(s.drop_last(), polys, i);
    }
}

pub proof fn lemma_all_product_free(s: Seq<AstView>, i: int)
    requires
        ast::all_product_free(s),
        0 <= i < s.len(),
    ensures
        ast::product_free(s[i]),
    decreases s.len(),
{
    if i < s.len() - 1 {
        lemma_all_product_free(s.drop_last(), i);
    }
}

/// Whether a plan holds no product of two operands.
pub open spec fn mul_free(a: PlanView) -> bool
    decreases a,
{
    a.op != PlanOp::Mul && all_mul_free(a.children)
}

pub open spec fn all_mul_free(s: Seq<PlanView>) -> bool
    decreases s,
{
    s.len() == 0 || (all_mul_free(s.drop_last()) && mul_free(s.last()))
}

pub proof fn lemma_all_mul_free(s: Seq<PlanView>)
    ensures
        all_mul_free(s) <==> forall|i: int| 0 <= i < s.len() ==> mul_free(#[trigger] s[i]),
    decreases s.len(),
{
    if s.len() > 0 {
        let front = s.drop_last();
        lemma_all_mul_free(front);
        assert(forall|i: int| 0 <= i < front.len() ==> front[i] == s[i]);
        if all_mul_free(s) {
            assert forall|i: int| 0 <= i < s.len() implies mul_free(#[trigger] s[i]) by {
                if i < front.len() {
                    assert(mul_free(front[i]));
                }
            }
        }
        if forall|i: int| 0 <= i < s.len() ==> mul_free(#[trigger] s[i]) {
            assert forall|i: int| 0 <= i < front.len() implies mul_free(#[trigger] front[i]) by {
                assert(mul_free(s[i]));
            }
            assert(mul_free(s[s.len() - 1]));
        }
    }
}

/// Whether a row belongs to the field of order `p` and gives products of constants
/// their meaning, where the expression has products.
pub open spec fn env_fits(env: RowEnv, a: AstView, p: int) -> bool {
    env.p == p && (env.unit == 1 || ast::product_free(a))
}

pub open spec fn env_fits_all(env: RowEnv, s: Seq<AstView>, p: int) -> bool {
    env.p == p && (env.unit == 1 || ast::all_product_free(s))
}

/// The plan has the value of the expression at every row, whatever the challenges.
pub open spec fn implements(plan: PlanView, a: AstView, descs: Seq<ScalarView>, p: int) -> bool {
    forall|sv: Seq<int>, env: RowEnv|
        scalars::scalars_bound(sv, descs, env.ch, p) && env_fits(env, a, p) ==> #[trigger] plan::plan_value(
            plan,
            sv,
            env,
        ) == ast::ast_value(a, env)
}

/// The plan is that of the expression, with the scalars `descs`, and computes it without a
/// cache.
pub open spec fn compiled(plan: PlanView, a: AstView, descs: Seq<ScalarView>, p: int) -> bool {
    &&& lowered(plan, a, descs, p)
    &&& written::written_as(plan, a, descs, p)
}

/// The plan computes the expression, with the scalars `descs` and without a cache.
#[verifier::opaque]
pub open spec fn lowered(plan: PlanView, a: AstView, descs: Seq<ScalarView>, p: int) -> bool {
    &&& implements(plan, a, descs, p)
    &&& forall|polys: spec_fn(IndexedLeaf) -> bool|
        leaves_below(a, polys) ==> #[trigger] plan::plan_in_bounds(plan, descs.len() as int, polys, 0)
    &&& ast::product_free(a) ==> mul_free(plan)
    &&& schedule::plan_size(plan) <= ast::ast_size(a)
}

/// `later` lists the descriptors of `descs` first.
pub open spec fn extends(later: Seq<ScalarView>, descs: Seq<ScalarView>) -> bool {
    descs.len() <= later.len() && later.take(descs.len() as int) == descs
}

pub proof fn lemma_extends(a: Seq<ScalarView>, b: Seq<ScalarView>, c: Seq<ScalarView>)
    requires
        extends(b, a),
        extends(c, b),
    ensures
        extends(c, a),
{
    assert(c.take(a.len() as int) =~= b.take(a.len() as int));
}

/// An interned descriptor extends the list.
pub proof fn lemma_interned(before: Seq<ScalarView>, after: Seq<ScalarView>, d: ScalarView)
    requires
        after == (if before.contains(d) {
            before
        } else {
            before.push(d)
        }),
    ensures
        extends(after, before),
        after.len() <= before.len() + 1,
{
    assert(after.take(before.len() as int) =~= before);
}

pub proof fn lemma_bound_mono(
    sv: Seq<int>,
    descs: Seq<ScalarView>,
    later: Seq<ScalarView>,
    ch: ChallengeView,
    p: int,
)
    requires
        extends(later, descs),
        scalars::scalars_bound(sv, later, ch, p),
    ensures
        scalars::scalars_bound(sv, descs, ch, p),
{
    assert forall|i: int| 0 <= i < descs.len() implies #[trigger] sv[i] == scalars::scalar_value(
        descs[i],
        ch,
        p,
    ) by {
        assert(later.take(descs.len() as int)[i] == later[i]);
    }
}

pub proof fn lemma_work_bounds_mono(w: WorkShape, n: int, m: int, polys: spec_fn(IndexedLeaf) -> bool)
    requires
        n <= m,
        plan::work_in_bounds(w, n, polys),
    ensures
        plan::work_in_bounds(w, m, polys),
{
    match w {
        WorkShape::Family(query, runs) => {
            assert forall|i: int| 0 <= i < runs.len() implies 0 <= (#[trigger] runs[i]).power < m
                && plan::body_in_bounds(runs[i].body, m) by {
                lemma_body_bounds_mono(runs[i].body, n, m);
            }
        },
        _ => {},
    }
}

pub proof fn lemma_body_bounds_mono(b: BodyShape, n: int, m: int)
    requires
        n <= m,
        plan::body_in_bounds(b, n),
    ensures
        plan::body_in_bounds(b, m),
{
    match b {
        BodyShape::Factored(work) => {
            assert forall|i: int| 0 <= i < work.len() implies plan::factor_in_bounds(
                #[trigger] work[i],
                m,
            ) by {
                assert(plan::factor_in_bounds(work[i], n));
            }
        },
        _ => {},
    }
}

/// More scalars do not put a plan out of bounds.
pub proof fn lemma_plan_bounds_mono(a: PlanView, n: int, m: int, polys: spec_fn(IndexedLeaf) -> bool, slots: int)
    requires
        n <= m,
        plan::plan_in_bounds(a, n, polys, slots),
    ensures
        plan::plan_in_bounds(a, m, polys, slots),
    decreases a,
{
    lemma_plans_bounds_mono(a.children, n, m, polys, slots);
    match a.op {
        PlanOp::Distribute(work, base) => {
            assert forall|i: int| 0 <= i < work.len() implies plan::work_in_bounds(
                #[trigger] work[i],
                m,
                polys,
            ) by {
                lemma_work_bounds_mono(work[i], n, m, polys);
            }
        },
        _ => {},
    }
}

pub proof fn lemma_plans_bounds_mono(s: Seq<PlanView>, n: int, m: int, polys: spec_fn(IndexedLeaf) -> bool, slots: int)
    requires
        n <= m,
        plan::plans_in_bounds(s, n, polys, slots),
    ensures
        plan::plans_in_bounds(s, m, polys, slots),
    decreases s,
{
    if s.len() > 0 {
        lemma_plans_bounds_mono(s.drop_last(), n, m, polys, slots);
        lemma_plan_bounds_mono(s.last(), n, m, polys, slots);
    }
}

pub proof fn lemma_any_leaves(a: AstView)
    ensures
        leaves_below(a, plan::any_leaf()),
    decreases a,
{
    lemma_all_any_leaves(a.children);
}

proof fn lemma_all_any_leaves(s: Seq<AstView>)
    ensures
        all_leaves_below(s, plan::any_leaf()),
    decreases s,
{
    if s.len() > 0 {
        lemma_all_any_leaves(s.drop_last());
        lemma_any_leaves(s.last());
    }
}

pub proof fn lemma_compiled_mono(
    plan: PlanView,
    a: AstView,
    descs: Seq<ScalarView>,
    later: Seq<ScalarView>,
    p: int,
)
    requires
        compiled(plan, a, descs, p),
        extends(later, descs),
    ensures
        compiled(plan, a, later, p),
{
    reveal(lowered);
    lemma_any_leaves(a);
    assert(plan::plan_in_bounds(plan, descs.len() as int, plan::any_leaf(), 0));
    written::lemma_written_mono(plan, a, descs, later, p, plan::any_leaf());
    assert forall|sv: Seq<int>, env: RowEnv|
        scalars::scalars_bound(sv, later, env.ch, p) && env_fits(env, a, p) implies #[trigger] plan::plan_value(
        plan,
        sv,
        env,
    ) == ast::ast_value(a, env) by {
        lemma_bound_mono(sv, descs, later, env.ch, p);
    }
    assert forall|polys: spec_fn(IndexedLeaf) -> bool| leaves_below(a, polys) implies #[trigger] plan::plan_in_bounds(
        plan,
        later.len() as int,
        polys,
        0,
    ) by {
        assert(plan::plan_in_bounds(plan, descs.len() as int, polys, 0));
        lemma_plan_bounds_mono(plan, descs.len() as int, later.len() as int, polys, 0);
    }
}

pub proof fn lemma_pair_facts(a: AstView, b: AstView, polys: spec_fn(IndexedLeaf) -> bool)
    ensures
        all_leaves_below(seq![a, b], polys) <==> leaves_below(a, polys) && leaves_below(b, polys),
        all_leaves_below(seq![a], polys) <==> leaves_below(a, polys),
        ast::all_product_free(seq![a, b]) <==> ast::product_free(a) && ast::product_free(b),
        ast::all_product_free(seq![a]) <==> ast::product_free(a),
{
    assert(seq![a, b].drop_last() =~= seq![a]);
    assert(seq![a].drop_last() =~= Seq::<AstView>::empty());
    assert(all_leaves_below(seq![a].drop_last(), polys));
    assert(ast::all_product_free(seq![a].drop_last()));
    assert(all_leaves_below(seq![a], polys) <==> leaves_below(seq![a].last(), polys));
    assert(ast::all_product_free(seq![a]) <==> ast::product_free(seq![a].last()));
    assert(all_leaves_below(seq![a, b], polys) <==> (all_leaves_below(
        seq![a, b].drop_last(),
        polys,
    ) && leaves_below(seq![a, b].last(), polys)));
    assert(ast::all_product_free(seq![a, b]) <==> (ast::all_product_free(seq![a, b].drop_last())
        && ast::product_free(seq![a, b].last())));
}

pub proof fn lemma_plan_pair(a: PlanView, b: PlanView, sv: Seq<int>, env: RowEnv)
    ensures
        plan::plan_values(seq![a, b], sv, env) == seq![plan::plan_value(a, sv, env), plan::plan_value(b, sv, env)],
        plan::plan_values(seq![a], sv, env) == seq![plan::plan_value(a, sv, env)],
{
    plan::lemma_plan_values(seq![a, b], sv, env);
    plan::lemma_plan_values(seq![a], sv, env);
    assert(plan::plan_values(seq![a, b], sv, env) =~= seq![
        plan::plan_value(a, sv, env),
        plan::plan_value(b, sv, env),
    ]);
    assert(plan::plan_values(seq![a], sv, env) =~= seq![plan::plan_value(a, sv, env)]);
}

pub proof fn lemma_plan_pair_facts(a: PlanView, b: PlanView, n: int, polys: spec_fn(IndexedLeaf) -> bool)
    ensures
        plan::plans_in_bounds(seq![a, b], n, polys, 0) <==> plan::plan_in_bounds(a, n, polys, 0)
            && plan::plan_in_bounds(b, n, polys, 0),
        plan::plans_in_bounds(seq![a], n, polys, 0) <==> plan::plan_in_bounds(a, n, polys, 0),
        all_mul_free(seq![a, b]) <==> mul_free(a) && mul_free(b),
        all_mul_free(seq![a]) <==> mul_free(a),
{
    plan::lemma_plans_in_bounds(seq![a, b], n, polys, 0);
    plan::lemma_plans_in_bounds(seq![a], n, polys, 0);
    lemma_all_mul_free(seq![a, b]);
    lemma_all_mul_free(seq![a]);
    assert(seq![a, b][0] == a && seq![a, b][1] == b);
    assert(seq![a][0] == a);
}

pub proof fn lemma_compiled_poly(leaf: IndexedLeaf, descs: Seq<ScalarView>, p: int)
    ensures
        compiled(plan::plan_leaf(PlanOp::Poly(leaf)), ast::poly_node(leaf), descs, p),
{
    reveal(lowered);
    written::lemma_written_poly(leaf, descs, p);
}

proof fn lemma_node_sizes(x: PlanView, y: PlanView, a: AstView, b: AstView)
    ensures
        schedule::plan_sizes(seq![x, y]) == schedule::plan_size(x) + schedule::plan_size(y),
        schedule::plan_sizes(seq![x]) == schedule::plan_size(x),
        ast::ast_sizes(seq![a, b]) == ast::ast_size(a) + ast::ast_size(b),
        ast::ast_sizes(seq![a]) == ast::ast_size(a),
{
    schedule::lemma_plan_sizes_one(x);
    schedule::lemma_plan_sizes_one(y);
    schedule::lemma_plan_sizes_add(seq![x], seq![y]);
    assert(seq![x] + seq![y] =~= seq![x, y]);
    assert(seq![a, b].drop_last() =~= seq![a]);
    assert(seq![a].drop_last() =~= Seq::<AstView>::empty());
    assert(ast::ast_sizes(seq![a].drop_last()) == 0);
    assert(ast::ast_sizes(seq![a]) == ast::ast_sizes(seq![a].drop_last()) + ast::ast_size(seq![a].last()));
    assert(ast::ast_sizes(seq![a, b]) == ast::ast_sizes(seq![a, b].drop_last()) + ast::ast_size(
        seq![a, b].last(),
    ));
}

pub proof fn lemma_expanded_size(base: AstView, coefficients: Seq<IndexedLeaf>)
    requires
        coefficients.len() >= 2,
    ensures
        ast::ast_size(base) < ast::ast_size(shapes::expanded_node(base, coefficients)),
{
    let front = coefficients.drop_last();
    let e = front.len();
    let power = shapes::power_node(base, e);
    let leaf = ast::poly_node(coefficients.last());
    shapes::lemma_ast_size_pair(AstOp::Add, shapes::expanded_node(base, front), ast::mul_node(power, leaf));
    shapes::lemma_ast_size_pair(AstOp::Mul, power, leaf);
    shapes::lemma_ast_size_pair(AstOp::Mul, shapes::power_node(base, (e - 1) as nat), base);
}

pub proof fn lemma_compiled_add(
    x: PlanView,
    y: PlanView,
    a: AstView,
    b: AstView,
    descs: Seq<ScalarView>,
    p: int,
)
    requires
        compiled(x, a, descs, p),
        compiled(y, b, descs, p),
        forall|base: AstView, coefficients: Seq<IndexedLeaf>|
            !#[trigger] written::is_expansion(ast::add_node(a, b), base, coefficients),
    ensures
        compiled(plan::plan_node2(PlanOp::Add, x, y), ast::add_node(a, b), descs, p),
{
    reveal(lowered);
    written::lemma_written_add(x, y, a, b, descs, p);
    let plan = plan::plan_node2(PlanOp::Add, x, y);
    let node = ast::add_node(a, b);
    lemma_node_sizes(x, y, a, b);
    lemma_pair_facts(a, b, plan::any_leaf());
    lemma_plan_pair_facts(x, y, descs.len() as int, plan::any_leaf());
    assert forall|sv: Seq<int>, env: RowEnv|
        scalars::scalars_bound(sv, descs, env.ch, p) && env_fits(env, node, p) implies #[trigger] plan::plan_value(
        plan,
        sv,
        env,
    ) == ast::ast_value(node, env) by {
        lemma_plan_pair(x, y, sv, env);
        values::lemma_pair_values(a, b, env);
        assert(plan::plan_value(x, sv, env) == ast::ast_value(a, env));
        assert(plan::plan_value(y, sv, env) == ast::ast_value(b, env));
    }
    assert forall|polys: spec_fn(IndexedLeaf) -> bool| leaves_below(node, polys) implies #[trigger] plan::plan_in_bounds(
        plan,
        descs.len() as int,
        polys,
        0,
    ) by {
        lemma_pair_facts(a, b, polys);
        lemma_plan_pair_facts(x, y, descs.len() as int, polys);
        assert(plan::plan_in_bounds(x, descs.len() as int, polys, 0));
        assert(plan::plan_in_bounds(y, descs.len() as int, polys, 0));
    }
}

pub proof fn lemma_compiled_mul(
    x: PlanView,
    y: PlanView,
    a: AstView,
    b: AstView,
    descs: Seq<ScalarView>,
    p: int,
)
    requires
        compiled(x, a, descs, p),
        compiled(y, b, descs, p),
    ensures
        a != b ==> compiled(plan::plan_node2(PlanOp::Mul, x, y), ast::mul_node(a, b), descs, p),
        a == b ==> compiled(plan::plan_node1(PlanOp::Square, x), ast::mul_node(a, b), descs, p),
{
    reveal(lowered);
    written::lemma_written_mul(x, y, a, b, descs, p);
    let plan = plan::plan_node2(PlanOp::Mul, x, y);
    let square = plan::plan_node1(PlanOp::Square, x);
    let node = ast::mul_node(a, b);
    lemma_node_sizes(x, y, a, b);
    assert forall|sv: Seq<int>, env: RowEnv|
        scalars::scalars_bound(sv, descs, env.ch, p) && env_fits(env, node, p) implies #[trigger] plan::plan_value(
        plan,
        sv,
        env,
    ) == ast::ast_value(node, env) by {
        lemma_plan_pair(x, y, sv, env);
        values::lemma_pair_values(a, b, env);
        assert(plan::plan_value(x, sv, env) == ast::ast_value(a, env));
        assert(plan::plan_value(y, sv, env) == ast::ast_value(b, env));
    }
    if a == b {
        assert forall|sv: Seq<int>, env: RowEnv|
            scalars::scalars_bound(sv, descs, env.ch, p) && env_fits(env, node, p) implies #[trigger]
        plan::plan_value(square, sv, env) == ast::ast_value(node, env) by {
            lemma_plan_pair(x, y, sv, env);
            values::lemma_pair_values(a, b, env);
            assert(plan::plan_value(x, sv, env) == ast::ast_value(a, env));
        }
    }
    assert forall|polys: spec_fn(IndexedLeaf) -> bool| leaves_below(node, polys) implies #[trigger] plan::plan_in_bounds(
        plan,
        descs.len() as int,
        polys,
        0,
    ) by {
        lemma_pair_facts(a, b, polys);
        lemma_plan_pair_facts(x, y, descs.len() as int, polys);
        assert(plan::plan_in_bounds(x, descs.len() as int, polys, 0));
        assert(plan::plan_in_bounds(y, descs.len() as int, polys, 0));
    }
    assert forall|polys: spec_fn(IndexedLeaf) -> bool| leaves_below(node, polys) implies #[trigger] plan::plan_in_bounds(
        square,
        descs.len() as int,
        polys,
        0,
    ) by {
        lemma_pair_facts(a, b, polys);
        lemma_plan_pair_facts(x, y, descs.len() as int, polys);
        assert(plan::plan_in_bounds(x, descs.len() as int, polys, 0));
    }
}

pub proof fn lemma_compiled_scale(
    x: PlanView,
    id: int,
    a: AstView,
    s: int,
    descs: Seq<ScalarView>,
    p: int,
)
    requires
        compiled(x, a, descs, p),
        0 <= id < descs.len(),
        descs[id] == ScalarView::Literal(s),
    ensures
        compiled(plan::plan_node1(PlanOp::Scale(id), x), ast::scale_node(a, s), descs, p),
{
    reveal(lowered);
    written::lemma_written_scale(x, id, a, s, descs, p);
    let plan = plan::plan_node1(PlanOp::Scale(id), x);
    let node = ast::scale_node(a, s);
    lemma_node_sizes(x, x, a, a);
    lemma_pair_facts(a, a, plan::any_leaf());
    lemma_plan_pair_facts(x, x, descs.len() as int, plan::any_leaf());
    assert forall|sv: Seq<int>, env: RowEnv|
        scalars::scalars_bound(sv, descs, env.ch, p) && env_fits(env, node, p) implies #[trigger] plan::plan_value(
        plan,
        sv,
        env,
    ) == ast::ast_value(node, env) by {
        lemma_plan_pair(x, x, sv, env);
        values::lemma_pair_values(a, a, env);
        assert(plan::plan_value(x, sv, env) == ast::ast_value(a, env));
        assert(sv[id] == s);
    }
    assert forall|polys: spec_fn(IndexedLeaf) -> bool| leaves_below(node, polys) implies #[trigger] plan::plan_in_bounds(
        plan,
        descs.len() as int,
        polys,
        0,
    ) by {
        lemma_pair_facts(a, a, polys);
        lemma_plan_pair_facts(x, x, descs.len() as int, polys);
        assert(plan::plan_in_bounds(x, descs.len() as int, polys, 0));
    }
}

/// A term of degree zero or one, whose scalar is a descriptor of the plan.
pub proof fn lemma_compiled_term(id: int, op: AstOp, descs: Seq<ScalarView>, p: int)
    requires
        p > 0,
        0 <= id < descs.len(),
        match op {
            AstOp::LinearTerm(s) => descs[id] == ScalarView::Literal(s),
            AstOp::LinearChallengeTerm(c, f) => descs[id] == ScalarView::ScaledChallenge(c, f),
            AstOp::ConstantTerm(s) => descs[id] == ScalarView::Literal(s),
            AstOp::ChallengeTerm(c) => descs[id] == ScalarView::Challenge(c),
            _ => false,
        },
    ensures
        match op {
            AstOp::LinearTerm(_) | AstOp::LinearChallengeTerm(_, _) => compiled(
                plan::plan_leaf(PlanOp::LinearTerm(id)),
                ast::leaf_node(op),
                descs,
                p,
            ),
            _ => compiled(plan::plan_leaf(PlanOp::ConstantTerm(id)), ast::leaf_node(op), descs, p),
        },
{
    reveal(lowered);
    written::lemma_written_term(id, op, descs, p);
    let plan = match op {
        AstOp::LinearTerm(_) | AstOp::LinearChallengeTerm(_, _) => plan::plan_leaf(
            PlanOp::LinearTerm(id),
        ),
        _ => plan::plan_leaf(PlanOp::ConstantTerm(id)),
    };
    let node = ast::leaf_node(op);
    assert forall|sv: Seq<int>, env: RowEnv|
        scalars::scalars_bound(sv, descs, env.ch, p) && env_fits(env, node, p) implies #[trigger] plan::plan_value(
        plan,
        sv,
        env,
    ) == ast::ast_value(node, env) by {
        assert(sv[id] == scalars::scalar_value(descs[id], env.ch, p));
        match op {
            AstOp::LinearChallengeTerm(c, f) => {
                let s = env.ch.of(c) * f;
                arith::lemma_mod_range(s, p);
                arith::lemma_eqm_mul(s % p, s, env.lin, env.lin, p);
            },
            _ => {},
        }
    }
}

proof fn lemma_expanded_shape(base: AstView, coefficients: Seq<IndexedLeaf>, polys: spec_fn(IndexedLeaf) -> bool)
    requires
        coefficients.len() > 0,
    ensures
        !ast::product_free(shapes::expanded_node(base, coefficients)),
        leaves_below(shapes::expanded_node(base, coefficients), polys) ==> forall|i: int|
            0 <= i < coefficients.len() ==> polys(#[trigger] coefficients[i]),
        leaves_below(shapes::expanded_node(base, coefficients), polys) && coefficients.len() >= 2
            ==> leaves_below(base, polys),
    decreases coefficients.len(),
{
    let front = coefficients.drop_last();
    let e = front.len();
    let power = shapes::power_node(base, e);
    let leaf = ast::poly_node(coefficients.last());
    lemma_pair_facts(shapes::expanded_node(base, front), ast::mul_node(power, leaf), polys);
    lemma_pair_facts(power, leaf, polys);
    if front.len() > 0 {
        lemma_expanded_shape(base, front, polys);
        lemma_pair_facts(shapes::power_node(base, (e - 1) as nat), base, polys);
    }
    if leaves_below(shapes::expanded_node(base, coefficients), polys) {
        assert forall|i: int| 0 <= i < coefficients.len() implies polys(
        #[trigger] coefficients[i]) by {
            if i < front.len() {
                assert(front[i] == coefficients[i]);
            }
        }
    }
}

pub proof fn lemma_compiled_horner(
    x: PlanView,
    base: AstView,
    coefficients: Seq<IndexedLeaf>,
    descs: Seq<ScalarView>,
    p: int,
)
    requires
        p > 2,
        coefficients.len() >= MIN_HORNER_COEFFICIENTS,
        compiled(x, base, descs, p),
    ensures
        compiled(
            plan::plan_node1(PlanOp::Horner(coefficients), x),
            shapes::expanded_node(base, coefficients),
            descs,
            p,
        ),
{
    reveal(lowered);
    written::lemma_written_horner(x, base, coefficients, descs, p);
    let plan = plan::plan_node1(PlanOp::Horner(coefficients), x);
    let node = shapes::expanded_node(base, coefficients);
    lemma_node_sizes(x, x, base, base);
    lemma_expanded_size(base, coefficients);
    lemma_expanded_shape(base, coefficients, plan::any_leaf());
    assert forall|sv: Seq<int>, env: RowEnv|
        scalars::scalars_bound(sv, descs, env.ch, p) && env_fits(env, node, p) implies #[trigger] plan::plan_value(
        plan,
        sv,
        env,
    ) == ast::ast_value(node, env) by {
        lemma_plan_pair(x, x, sv, env);
        assert(plan::plan_value(x, sv, env) == ast::ast_value(base, env));
        values::lemma_expanded_value(base, coefficients, env);
        arith::lemma_mod_small(ast::ast_value(node, env), p);
    }
    assert forall|polys: spec_fn(IndexedLeaf) -> bool| leaves_below(node, polys) implies #[trigger] plan::plan_in_bounds(
        plan,
        descs.len() as int,
        polys,
        0,
    ) by {
        lemma_expanded_shape(base, coefficients, polys);
        lemma_plan_pair_facts(x, x, descs.len() as int, polys);
        assert(plan::plan_in_bounds(x, descs.len() as int, polys, 0));
    }
}

} // verus!
