//! The pieces of a distribution, and what part of the distribution each of them
//! computes.
use crate::arith;
use crate::ast;
use crate::ast::{AstOp, AstView, FactorSide, IndexedLeaf, RowEnv};
use crate::lowering;
use crate::plan;
use crate::plan::{BodyShape, FactorShape, PlanOp, PlanView, RunShape, WorkShape};
use crate::scalars;
use crate::scalars::{BaseView, ScalarView};
use crate::schedule;
use crate::shapes;
use crate::values;
use vstd::arithmetic::mul::*;
use vstd::arithmetic::power::*;
use vstd::prelude::*;

verus! {

/// The descriptor of a power of the base.
pub open spec fn power_desc(base: BaseView, e: nat, p: int) -> ScalarView {
    match base {
        BaseView::Literal(v) => ScalarView::Literal(pow(v, e) % p),
        BaseView::Challenge(c) => ScalarView::ChallengePower(c, e),
    }
}

/// The scalar `id` is the power `e` of the base.
pub open spec fn is_power(
    id: int,
    base: BaseView,
    e: int,
    descs: Seq<ScalarView>,
    p: int,
) -> bool {
    0 <= id < descs.len() && e >= 0 && descs[id] == power_desc(base, e as nat, p)
}

pub proof fn lemma_is_power_mono(
    id: int,
    base: BaseView,
    e: int,
    descs: Seq<ScalarView>,
    later: Seq<ScalarView>,
    p: int,
)
    requires
        is_power(id, base, e, descs, p),
        lowering::extends(later, descs),
    ensures
        is_power(id, base, e, later, p),
{
    assert(later.take(descs.len() as int)[id] == later[id]);
}

/// The pieces of a distribution name only scalars and polynomials that there are.
pub open spec fn works_in_bounds(s: Seq<WorkShape>, n: int, polys: spec_fn(IndexedLeaf) -> bool) -> bool {
    forall|i: int| 0 <= i < s.len() ==> plan::work_in_bounds(#[trigger] s[i], n, polys)
}

/// The number of nodes of the claimed terms.
pub open spec fn claimed_size(terms: Seq<AstView>, claimed: Seq<bool>) -> nat
    decreases terms.len(),
{
    if terms.len() == 0 {
        0
    } else {
        claimed_size(terms.drop_last(), claimed.drop_last()) + (if claimed.last() {
            ast::ast_size(terms.last())
        } else {
            0
        })
    }
}

pub proof fn lemma_claim_size(terms: Seq<AstView>, claimed: Seq<bool>, i: int)
    requires
        claimed.len() == terms.len(),
        0 <= i < terms.len(),
        !claimed[i],
    ensures
        claimed_size(terms, claimed.update(i, true)) == claimed_size(terms, claimed) + ast::ast_size(
            terms[i],
        ),
    decreases terms.len(),
{
    let after = claimed.update(i, true);
    if i == terms.len() - 1 {
        assert(after.drop_last() =~= claimed.drop_last());
    } else {
        assert(after.drop_last() =~= claimed.drop_last().update(i, true));
        lemma_claim_size(terms.drop_last(), claimed.drop_last(), i);
    }
}

pub proof fn lemma_claimed_size_bound(terms: Seq<AstView>, claimed: Seq<bool>)
    requires
        claimed.len() == terms.len(),
    ensures
        claimed_size(terms, claimed) <= ast::ast_sizes(terms),
        terms.len() <= ast::ast_sizes(terms),
    decreases terms.len(),
{
    if terms.len() > 0 {
        lemma_claimed_size_bound(terms.drop_last(), claimed.drop_last());
        assert(ast::ast_size(terms.last()) >= 1);
    }
}

pub proof fn lemma_unclaimed_size(terms: Seq<AstView>, claimed: Seq<bool>)
    requires
        claimed.len() == terms.len(),
        forall|i: int| 0 <= i < claimed.len() ==> !#[trigger] claimed[i],
    ensures
        claimed_size(terms, claimed) == 0,
    decreases terms.len(),
{
    if terms.len() > 0 {
        lemma_unclaimed_size(terms.drop_last(), claimed.drop_last());
    }
}

pub proof fn lemma_claim_range_size(
    terms: Seq<AstView>,
    claimed: Seq<bool>,
    start: int,
    end: int,
    bodies: Seq<AstView>,
)
    requires
        claimed.len() == terms.len(),
        0 <= start <= end <= terms.len(),
        bodies.len() == end - start,
        forall|i: int| start <= i < end ==> !#[trigger] claimed[i],
        forall|i: int|
            start <= i < end ==> ast::ast_size(#[trigger] terms[i]) > ast::ast_size(bodies[i - start]),
    ensures
        claimed_size(terms, claim_range(claimed, start, end)) >= claimed_size(terms, claimed)
            + ast::ast_sizes(bodies) + (end - start),
    decreases end - start,
{
    if start == end {
        assert(claim_range(claimed, start, end) =~= claimed);
    } else {
        let m = end - 1;
        lemma_claim_range_size(terms, claimed, start, m, bodies.drop_last());
        let mid = claim_range(claimed, start, m);
        assert(claim_range(claimed, start, end) =~= mid.update(m, true));
        assert(!claimed[m]);
        assert(ast::ast_size(terms[m]) > ast::ast_size(bodies[m - start]));
        lemma_claim_size(terms, mid, m);
    }
}

/// The value of the pieces is that of the claimed terms.
pub open spec fn sums_to(
    shapes: Seq<WorkShape>,
    children: Seq<PlanView>,
    terms: Seq<AstView>,
    claimed: Seq<bool>,
    base: BaseView,
    descs: Seq<ScalarView>,
    p: int,
) -> bool {
    forall|sv: Seq<int>, env: RowEnv|
        scalars::scalars_bound(sv, descs, env.ch, p) && lowering::env_fits_all(env, terms, p) ==> arith::eqm(
            plan::works_value(
                shapes,
                #[trigger] plan::plan_values(children, sv, env),
                base.value(env.ch),
                sv,
                env,
            ),
            values::claimed_sum(
                ast::ast_values(terms, env),
                claimed,
                base.value(env.ch),
                terms.len() as int,
            ),
            p,
        )
}

/// The pieces compute the claimed terms, each weighted with the power that its
/// position has among all terms.
#[verifier::opaque]
pub open spec fn pieces(
    shapes: Seq<WorkShape>,
    children: Seq<PlanView>,
    terms: Seq<AstView>,
    claimed: Seq<bool>,
    base: BaseView,
    descs: Seq<ScalarView>,
    p: int,
) -> bool {
    &&& p > 2
    &&& claimed.len() == terms.len()
    &&& children.len() == plan::works_arity(shapes)
    &&& sums_to(shapes, children, terms, claimed, base, descs, p)
    &&& forall|polys: spec_fn(IndexedLeaf) -> bool|
        lowering::all_leaves_below(terms, polys) ==> #[trigger] works_in_bounds(
            shapes,
            descs.len() as int,
            polys,
        ) && plan::plans_in_bounds(children, descs.len() as int, polys, 0)
    &&& ast::all_product_free(terms) ==> lowering::all_mul_free(children)
    &&& schedule::plan_sizes(children) <= claimed_size(terms, claimed)
}

pub proof fn lemma_pieces_empty(
    terms: Seq<AstView>,
    claimed: Seq<bool>,
    base: BaseView,
    descs: Seq<ScalarView>,
    p: int,
)
    requires
        p > 2,
        claimed.len() == terms.len(),
        forall|i: int| 0 <= i < claimed.len() ==> !#[trigger] claimed[i],
    ensures
        pieces(Seq::empty(), Seq::empty(), terms, claimed, base, descs, p),
{
    reveal(pieces);
    let shapes = Seq::<WorkShape>::empty();
    let children = Seq::<PlanView>::empty();
    assert forall|sv: Seq<int>, env: RowEnv|
        scalars::scalars_bound(sv, descs, env.ch, p) && lowering::env_fits_all(env, terms, p) implies arith::eqm(
        plan::works_value(
            shapes,
            #[trigger] plan::plan_values(children, sv, env),
            base.value(env.ch),
            sv,
            env,
        ),
        values::claimed_sum(ast::ast_values(terms, env), claimed, base.value(env.ch), terms.len() as int),
        p,
    ) by {
        ast::lemma_ast_values(terms, env);
        values::lemma_none_claimed(
            ast::ast_values(terms, env),
            claimed,
            base.value(env.ch),
            terms.len() as int,
        );
    }
}

pub proof fn lemma_pieces_mono(
    shapes: Seq<WorkShape>,
    children: Seq<PlanView>,
    terms: Seq<AstView>,
    claimed: Seq<bool>,
    base: BaseView,
    descs: Seq<ScalarView>,
    later: Seq<ScalarView>,
    p: int,
)
    requires
        pieces(shapes, children, terms, claimed, base, descs, p),
        lowering::extends(later, descs),
    ensures
        pieces(shapes, children, terms, claimed, base, later, p),
{
    reveal(pieces);
    assert forall|sv: Seq<int>, env: RowEnv|
        scalars::scalars_bound(sv, later, env.ch, p) && lowering::env_fits_all(env, terms, p) implies arith::eqm(
        plan::works_value(
            shapes,
            #[trigger] plan::plan_values(children, sv, env),
            base.value(env.ch),
            sv,
            env,
        ),
        values::claimed_sum(ast::ast_values(terms, env), claimed, base.value(env.ch), terms.len() as int),
        p,
    ) by {
        lowering::lemma_bound_mono(sv, descs, later, env.ch, p);
    }
    assert forall|polys: spec_fn(IndexedLeaf) -> bool| lowering::all_leaves_below(terms, polys) implies #[trigger] works_in_bounds(
        shapes,
        later.len() as int,
        polys,
    ) && plan::plans_in_bounds(children, later.len() as int, polys, 0) by {
        assert(works_in_bounds(shapes, descs.len() as int, polys));
        assert forall|i: int| 0 <= i < shapes.len() implies plan::work_in_bounds(
            #[trigger] shapes[i],
            later.len() as int,
            polys,
        ) by {
            lowering::lemma_work_bounds_mono(shapes[i], descs.len() as int, later.len() as int, polys);
        }
        lowering::lemma_plans_bounds_mono(children, descs.len() as int, later.len() as int, polys, 0);
    }
}

/// One more piece: what it adds at every row is what the newly claimed terms add.
pub proof fn lemma_pieces_push(
    shapes: Seq<WorkShape>,
    children: Seq<PlanView>,
    terms: Seq<AstView>,
    claimed: Seq<bool>,
    after: Seq<bool>,
    base: BaseView,
    descs: Seq<ScalarView>,
    p: int,
    w: WorkShape,
    kids: Seq<PlanView>,
)
    requires
        pieces(shapes, children, terms, claimed, base, descs, p),
        after.len() == terms.len(),
        kids.len() == plan::work_arity(w),
        forall|sv: Seq<int>, env: RowEnv|
            scalars::scalars_bound(sv, descs, env.ch, p) && lowering::env_fits_all(env, terms, p) ==> arith::eqm(
                plan::work_value(
                    w,
                    #[trigger] plan::plan_values(kids, sv, env),
                    base.value(env.ch),
                    sv,
                    env,
                ),
                values::claimed_sum(
                    ast::ast_values(terms, env),
                    after,
                    base.value(env.ch),
                    terms.len() as int,
                ) - values::claimed_sum(
                    ast::ast_values(terms, env),
                    claimed,
                    base.value(env.ch),
                    terms.len() as int,
                ),
                p,
            ),
        forall|polys: spec_fn(IndexedLeaf) -> bool|
            lowering::all_leaves_below(terms, polys) ==> #[trigger] plan::work_in_bounds(
                w,
                descs.len() as int,
                polys,
            ) && plan::plans_in_bounds(kids, descs.len() as int, polys, 0),
        ast::all_product_free(terms) ==> lowering::all_mul_free(kids),
        claimed_size(terms, claimed) + schedule::plan_sizes(kids) <= claimed_size(terms, after),
    ensures
        pieces(shapes.push(w), children + kids, terms, after, base, descs, p),
{
    reveal(pieces);
    let shapes2 = shapes.push(w);
    let children2 = children + kids;
    schedule::lemma_plan_sizes_add(children, kids);
    assert(shapes2.drop_last() =~= shapes);
    assert forall|sv: Seq<int>, env: RowEnv|
        scalars::scalars_bound(sv, descs, env.ch, p) && lowering::env_fits_all(env, terms, p) implies arith::eqm(
        plan::works_value(
            shapes2,
            #[trigger] plan::plan_values(children2, sv, env),
            base.value(env.ch),
            sv,
            env,
        ),
        values::claimed_sum(ast::ast_values(terms, env), after, base.value(env.ch), terms.len() as int),
        p,
    ) by {
        let b = base.value(env.ch);
        let v = ast::ast_values(terms, env);
        let n = terms.len() as int;
        plan::lemma_plan_values_add(children, kids, sv, env);
        plan::lemma_plan_values(children, sv, env);
        plan::lemma_plan_values(kids, sv, env);
        let va = plan::plan_values(children, sv, env);
        let vk = plan::plan_values(kids, sv, env);
        let at = plan::works_arity(shapes) as int;
        assert((va + vk).take(at) =~= va);
        assert((va + vk).skip(at) =~= vk);
        arith::lemma_eqm_add(
            plan::works_value(shapes, va, b, sv, env),
            values::claimed_sum(v, claimed, b, n),
            plan::work_value(w, vk, b, sv, env),
            values::claimed_sum(v, after, b, n) - values::claimed_sum(v, claimed, b, n),
            p,
        );
    }
    assert forall|polys: spec_fn(IndexedLeaf) -> bool| lowering::all_leaves_below(terms, polys) implies #[trigger] works_in_bounds(
        shapes2,
        descs.len() as int,
        polys,
    ) && plan::plans_in_bounds(children2, descs.len() as int, polys, 0) by {
        let n = descs.len() as int;
        assert(works_in_bounds(shapes, n, polys));
        assert(plan::work_in_bounds(w, n, polys));
        plan::lemma_plans_in_bounds(children, n, polys, 0);
        plan::lemma_plans_in_bounds(kids, n, polys, 0);
        plan::lemma_plans_in_bounds(children2, n, polys, 0);
    }
    lowering::lemma_all_mul_free(children);
    lowering::lemma_all_mul_free(kids);
    lowering::lemma_all_mul_free(children2);
}

/// A single term as a piece.
pub proof fn lemma_piece_term(
    shapes: Seq<WorkShape>,
    children: Seq<PlanView>,
    terms: Seq<AstView>,
    claimed: Seq<bool>,
    base: BaseView,
    descs: Seq<ScalarView>,
    p: int,
    position: int,
    x: PlanView,
    id: int,
)
    requires
        pieces(shapes, children, terms, claimed, base, descs, p),
        0 <= position < terms.len(),
        !claimed[position],
        lowering::compiled(x, terms[position], descs, p),
        is_power(id, base, terms.len() - 1 - position, descs, p),
    ensures
        pieces(
            shapes.push(WorkShape::Term(id)),
            children + seq![x],
            terms,
            claimed.update(position, true),
            base,
            descs,
            p,
        ),
{
    reveal(lowering::lowered);
    reveal(pieces);
    let w = WorkShape::Term(id);
    let kids = seq![x];
    let after = claimed.update(position, true);
    let n = terms.len() as int;
    assert forall|sv: Seq<int>, env: RowEnv|
        scalars::scalars_bound(sv, descs, env.ch, p) && lowering::env_fits_all(env, terms, p) implies arith::eqm(
        plan::work_value(w, #[trigger] plan::plan_values(kids, sv, env), base.value(env.ch), sv, env),
        values::claimed_sum(ast::ast_values(terms, env), after, base.value(env.ch), n) - values::claimed_sum(
            ast::ast_values(terms, env),
            claimed,
            base.value(env.ch),
            n,
        ),
        p,
    ) by {
        let b = base.value(env.ch);
        let v = ast::ast_values(terms, env);
        ast::lemma_ast_values(terms, env);
        lowering::lemma_plan_pair(x, x, sv, env);
        if ast::all_product_free(terms) {
            lowering::lemma_all_product_free(terms, position);
        }
        assert(plan::plan_value(x, sv, env) == ast::ast_value(terms[position], env));
        values::lemma_claim(v, claimed, b, n, position);
        let w = pow(b, (n - 1 - position) as nat);
        arith::lemma_mod_range(w, p);
        arith::lemma_eqm_mul(v[position], v[position], sv[id], w, p);
    }
    lowering::lemma_all_mul_free(kids);
    assert(kids[0] == x);
    schedule::lemma_plan_sizes_one(x);
    lemma_claim_size(terms, claimed, position);
    if ast::all_product_free(terms) {
        lowering::lemma_all_product_free(terms, position);
    }
    assert forall|polys: spec_fn(IndexedLeaf) -> bool| lowering::all_leaves_below(terms, polys) implies #[trigger] plan::work_in_bounds(
        w,
        descs.len() as int,
        polys,
    ) && plan::plans_in_bounds(kids, descs.len() as int, polys, 0) by {
        lowering::lemma_all_leaves_below(terms, polys, position);
        plan::lemma_plans_in_bounds(kids, descs.len() as int, polys, 0);
        assert(plan::plan_in_bounds(x, descs.len() as int, polys, 0));
    }
    lemma_pieces_push(shapes, children, terms, claimed, after, base, descs, p, w, kids);
}

/// The claims after those at the listed positions.
pub open spec fn claim_all(claimed: Seq<bool>, positions: Seq<int>) -> Seq<bool>
    decreases positions.len(),
{
    if positions.len() == 0 {
        claimed
    } else {
        claim_all(claimed, positions.drop_last()).update(positions.last(), true)
    }
}

pub proof fn lemma_claim_all(claimed: Seq<bool>, positions: Seq<int>)
    requires
        forall|k: int| 0 <= k < positions.len() ==> 0 <= #[trigger] positions[k] < claimed.len(),
    ensures
        claim_all(claimed, positions).len() == claimed.len(),
        forall|i: int|
            0 <= i < claimed.len() ==> (#[trigger] claim_all(claimed, positions)[i] <==> claimed[i]
                || positions.contains(i)),
    decreases positions.len(),
{
    if positions.len() > 0 {
        let front = positions.drop_last();
        lemma_claim_all(claimed, front);
        assert forall|i: int| 0 <= i < claimed.len() implies (#[trigger] claim_all(
            claimed,
            positions,
        )[i] <==> claimed[i] || positions.contains(i)) by {
            assert(positions[positions.len() - 1] == positions.last());
            if front.contains(i) {
                let k = choose|k: int| 0 <= k < front.len() && front[k] == i;
                assert(positions[k] == i);
            }
            if positions.contains(i) && i != positions.last() {
                let k = choose|k: int| 0 <= k < positions.len() && positions[k] == i;
                assert(front[k] == i);
            }
        }
    }
}

/// The listed weighted terms are those at `positions`, without their shared factor.
pub open spec fn shared_terms(
    ids: Seq<int>,
    plans: Seq<PlanView>,
    bodies: Seq<AstView>,
    positions: Seq<int>,
    n: int,
    base: BaseView,
    descs: Seq<ScalarView>,
    p: int,
) -> bool {
    &&& ids.len() == plans.len()
    &&& bodies.len() == plans.len()
    &&& positions.len() == plans.len()
    &&& forall|k: int|
        #![trigger positions[k]]
        0 <= k < plans.len() ==> {
            &&& 0 <= positions[k] < n
            &&& lowering::compiled(plans[k], bodies[k], descs, p)
            &&& is_power(ids[k], base, n - 1 - positions[k], descs, p)
        }
}

pub proof fn lemma_shared_terms_mono(
    ids: Seq<int>,
    plans: Seq<PlanView>,
    bodies: Seq<AstView>,
    positions: Seq<int>,
    n: int,
    base: BaseView,
    descs: Seq<ScalarView>,
    later: Seq<ScalarView>,
    p: int,
)
    requires
        shared_terms(ids, plans, bodies, positions, n, base, descs, p),
        lowering::extends(later, descs),
    ensures
        shared_terms(ids, plans, bodies, positions, n, base, later, p),
{
    reveal(lowering::lowered);
    assert forall|k: int|
        #![trigger positions[k]]
        0 <= k < plans.len() implies {
        &&& 0 <= positions[k] < n
        &&& lowering::compiled(plans[k], bodies[k], later, p)
        &&& is_power(ids[k], base, n - 1 - positions[k], later, p)
    } by {
        assert(0 <= positions[k] < n);
        lowering::lemma_compiled_mono(plans[k], bodies[k], descs, later, p);
        lemma_is_power_mono(ids[k], base, n - 1 - positions[k], descs, later, p);
    }
}

proof fn lemma_shared_value(
    ids: Seq<int>,
    vals: Seq<int>,
    v: Seq<int>,
    positions: Seq<int>,
    claimed: Seq<bool>,
    b: int,
    f: int,
    sv: Seq<int>,
    p: int,
)
    requires
        p > 2,
        v.len() == claimed.len(),
        ids.len() == vals.len(),
        positions.len() == vals.len(),
        forall|k: int, l: int|
            0 <= k < l < positions.len() ==> #[trigger] positions[k] < #[trigger] positions[l],
        forall|k: int|
            #![trigger positions[k]]
            0 <= k < positions.len() ==> {
                &&& 0 <= positions[k] < v.len()
                &&& !claimed[positions[k]]
                &&& sv[ids[k]] == pow(b, (v.len() - 1 - positions[k]) as nat) % p
                &&& arith::eqm(v[positions[k]], f * vals[k], p)
            },
    ensures
        arith::eqm(
            f * plan::weighted_sum(ids, vals, sv),
            values::claimed_sum(v, claim_all(claimed, positions), b, v.len() as int) - values::claimed_sum(
                v,
                claimed,
                b,
                v.len() as int,
            ),
            p,
        ),
    decreases positions.len(),
{
    let n = v.len() as int;
    if positions.len() == 0 {
        lemma_mul_basics(f);
    } else {
        let pf = positions.drop_last();
        let m = positions.len() - 1;
        let at = positions.last();
        assert forall|k: int|
            #![trigger pf[k]]
            0 <= k < pf.len() implies {
            &&& 0 <= pf[k] < v.len()
            &&& !claimed[pf[k]]
            &&& sv[ids.drop_last()[k]] == pow(b, (v.len() - 1 - pf[k]) as nat) % p
            &&& arith::eqm(v[pf[k]], f * vals.drop_last()[k], p)
        } by {
            assert(pf[k] == positions[k]);
        }
        lemma_shared_value(ids.drop_last(), vals.drop_last(), v, pf, claimed, b, f, sv, p);
        lemma_claim_all(claimed, pf);
        let mid = claim_all(claimed, pf);
        assert(at == positions[m]);
        assert(!pf.contains(at)) by {
            if pf.contains(at) {
                let k = choose|k: int| 0 <= k < pf.len() && pf[k] == at;
                assert(positions[k] < positions[m]);
            }
        }
        values::lemma_claim(v, mid, b, n, at);
        let w = pow(b, (n - 1 - at) as nat);
        arith::lemma_mod_range(w, p);
        values::lemma_shared_piece(
            f,
            plan::weighted_sum(ids.drop_last(), vals.drop_last(), sv),
            values::claimed_sum(v, mid, b, n) - values::claimed_sum(v, claimed, b, n),
            vals.last(),
            sv[ids.last()],
            v[at],
            w,
            p,
        );
    }
}

proof fn lemma_product_value(side: FactorSide, f: AstView, g: AstView, env: RowEnv)
    requires
        env.p > 2,
    ensures
        arith::eqm(
            ast::ast_value(ast::product_node(side, f, g), env),
            ast::ast_value(f, env) * ast::ast_value(g, env),
            env.p,
        ),
{
    values::lemma_pair_values(f, g, env);
    values::lemma_pair_values(g, f, env);
    lemma_mul_is_commutative(ast::ast_value(f, env), ast::ast_value(g, env));
    arith::lemma_mod_range(ast::ast_value(f, env) * ast::ast_value(g, env), env.p);
}

pub proof fn lemma_product_facts(side: FactorSide, f: AstView, g: AstView, polys: spec_fn(IndexedLeaf) -> bool)
    ensures
        !ast::product_free(ast::product_node(side, f, g)),
        lowering::leaves_below(ast::product_node(side, f, g), polys) <==> lowering::leaves_below(f, polys) && lowering::leaves_below(
            g,
            polys,
        ),
        ast::ast_size(ast::product_node(side, f, g)) == 1 + ast::ast_size(f) + ast::ast_size(g),
{
    lowering::lemma_pair_facts(f, g, polys);
    lowering::lemma_pair_facts(g, f, polys);
    shapes::lemma_ast_size_pair(AstOp::Mul, f, g);
    shapes::lemma_ast_size_pair(AstOp::Mul, g, f);
}

/// Claiming products with a shared factor claims the factor and the bodies.
proof fn lemma_shared_size(
    terms: Seq<AstView>,
    claimed: Seq<bool>,
    positions: Seq<int>,
    side: FactorSide,
    factor: AstView,
    bodies: Seq<AstView>,
)
    requires
        claimed.len() == terms.len(),
        bodies.len() == positions.len(),
        forall|k: int, l: int|
            0 <= k < l < positions.len() ==> #[trigger] positions[k] < #[trigger] positions[l],
        forall|k: int|
            #![trigger positions[k]]
            0 <= k < positions.len() ==> 0 <= positions[k] < terms.len() && !claimed[positions[k]]
                && terms[positions[k]] == ast::product_node(side, factor, bodies[k]),
    ensures
        claimed_size(terms, claim_all(claimed, positions)) >= claimed_size(terms, claimed)
            + ast::ast_sizes(bodies) + (if positions.len() > 0 {
            ast::ast_size(factor)
        } else {
            0
        }),
    decreases positions.len(),
{
    if positions.len() > 0 {
        let front = positions.drop_last();
        let m = positions.len() - 1;
        assert forall|k: int|
            #![trigger front[k]]
            0 <= k < front.len() implies 0 <= front[k] < terms.len() && !claimed[front[k]]
            && terms[front[k]] == ast::product_node(side, factor, bodies.drop_last()[k]) by {
            assert(front[k] == positions[k]);
        }
        lemma_shared_size(terms, claimed, front, side, factor, bodies.drop_last());
        lemma_claim_all(claimed, front);
        let mid = claim_all(claimed, front);
        let at = positions[m];
        assert(!front.contains(at)) by {
            if front.contains(at) {
                let k = choose|k: int| 0 <= k < front.len() && front[k] == at;
                assert(positions[k] < positions[m]);
            }
        }
        lemma_claim_size(terms, mid, at);
        lemma_product_facts(side, factor, bodies[m], plan::any_leaf());
    }
}

/// Plans are no larger than what they are compiled from.
proof fn lemma_compiled_sizes(
    plans: Seq<PlanView>,
    bodies: Seq<AstView>,
    descs: Seq<ScalarView>,
    p: int,
)
    requires
        plans.len() == bodies.len(),
        forall|k: int|
            0 <= k < plans.len() ==> lowering::compiled(#[trigger] plans[k], bodies[k], descs, p),
    ensures
        schedule::plan_sizes(plans) <= ast::ast_sizes(bodies),
    decreases plans.len(),
{
    reveal(lowering::lowered);
    if plans.len() > 0 {
        let front = plans.drop_last();
        assert forall|k: int| 0 <= k < front.len() implies lowering::compiled(
            #[trigger] front[k],
            bodies.drop_last()[k],
            descs,
            p,
        ) by {
            assert(front[k] == plans[k]);
        }
        lemma_compiled_sizes(front, bodies.drop_last(), descs, p);
        assert(lowering::compiled(plans[plans.len() - 1], bodies[plans.len() - 1], descs, p));
    }
}

/// Terms with a shared factor as a piece.
pub proof fn lemma_piece_shared(
    shapes: Seq<WorkShape>,
    children: Seq<PlanView>,
    terms: Seq<AstView>,
    claimed: Seq<bool>,
    base: BaseView,
    descs: Seq<ScalarView>,
    p: int,
    side: FactorSide,
    factor: AstView,
    x: PlanView,
    ids: Seq<int>,
    plans: Seq<PlanView>,
    bodies: Seq<AstView>,
    positions: Seq<int>,
)
    requires
        pieces(shapes, children, terms, claimed, base, descs, p),
        lowering::compiled(x, factor, descs, p),
        positions.len() > 0,
        shared_terms(ids, plans, bodies, positions, terms.len() as int, base, descs, p),
        forall|k: int, l: int|
            0 <= k < l < positions.len() ==> #[trigger] positions[k] < #[trigger] positions[l],
        forall|k: int|
            #![trigger positions[k]]
            0 <= k < positions.len() ==> !claimed[positions[k]] && terms[positions[k]]
                == ast::product_node(side, factor, bodies[k]),
    ensures
        pieces(
            shapes.push(WorkShape::Shared(ids)),
            children + (seq![x] + plans),
            terms,
            claim_all(claimed, positions),
            base,
            descs,
            p,
        ),
{
    reveal(lowering::lowered);
    reveal(pieces);
    let w = WorkShape::Shared(ids);
    let kids = seq![x] + plans;
    assert forall|k: int| 0 <= k < plans.len() implies lowering::compiled(
        #[trigger] plans[k],
        bodies[k],
        descs,
        p,
    ) by {
        assert(0 <= positions[k]);
    }
    assert forall|k: int|
        #![trigger positions[k]]
        0 <= k < positions.len() implies 0 <= positions[k] < terms.len() && !claimed[positions[k]]
        && terms[positions[k]] == ast::product_node(side, factor, bodies[k]) by {}
    let after = claim_all(claimed, positions);
    let n = terms.len() as int;
    lemma_claim_all(claimed, positions);
    lemma_shared_size(terms, claimed, positions, side, factor, bodies);
    lemma_compiled_sizes(plans, bodies, descs, p);
    schedule::lemma_plan_sizes_add(seq![x], plans);
    schedule::lemma_plan_sizes_one(x);
    lemma_product_facts(side, factor, bodies[0], plan::any_leaf());
    assert(terms[positions[0]] == ast::product_node(side, factor, bodies[0]));
    assert(!ast::all_product_free(terms)) by {
        if ast::all_product_free(terms) {
            lowering::lemma_all_product_free(terms, positions[0]);
        }
    }
    assert forall|sv: Seq<int>, env: RowEnv|
        scalars::scalars_bound(sv, descs, env.ch, p) && lowering::env_fits_all(env, terms, p) implies arith::eqm(
        plan::work_value(w, #[trigger] plan::plan_values(kids, sv, env), base.value(env.ch), sv, env),
        values::claimed_sum(ast::ast_values(terms, env), after, base.value(env.ch), n) - values::claimed_sum(
            ast::ast_values(terms, env),
            claimed,
            base.value(env.ch),
            n,
        ),
        p,
    ) by {
        let b = base.value(env.ch);
        let v = ast::ast_values(terms, env);
        ast::lemma_ast_values(terms, env);
        plan::lemma_plan_values_add(seq![x], plans, sv, env);
        lowering::lemma_plan_pair(x, x, sv, env);
        plan::lemma_plan_values(plans, sv, env);
        let vals = plan::plan_values(plans, sv, env);
        let f = plan::plan_value(x, sv, env);
        assert((seq![f] + vals).skip(1) =~= vals);
        assert(f == ast::ast_value(factor, env));
        assert forall|k: int|
            #![trigger positions[k]]
            0 <= k < positions.len() implies {
            &&& 0 <= positions[k] < v.len()
            &&& !claimed[positions[k]]
            &&& sv[ids[k]] == pow(b, (v.len() - 1 - positions[k]) as nat) % p
            &&& arith::eqm(v[positions[k]], f * vals[k], p)
        } by {
            assert(vals[k] == plan::plan_value(plans[k], sv, env));
            assert(0 <= positions[k] < n);
            assert(lowering::compiled(plans[k], bodies[k], descs, p));
            assert(vals[k] == ast::ast_value(bodies[k], env));
            lemma_product_value(side, factor, bodies[k], env);
        }
        lemma_shared_value(ids, vals, v, positions, claimed, b, f, sv, p);
    }
    assert forall|polys: spec_fn(IndexedLeaf) -> bool| lowering::all_leaves_below(terms, polys) implies #[trigger] plan::work_in_bounds(
        w,
        descs.len() as int,
        polys,
    ) && plan::plans_in_bounds(kids, descs.len() as int, polys, 0) by {
        let m = descs.len() as int;
        lowering::lemma_all_leaves_below(terms, polys, positions[0]);
        lemma_product_facts(side, factor, bodies[0], polys);
        assert(plan::plan_in_bounds(x, m, polys, 0));
        assert forall|k: int| 0 <= k < ids.len() implies 0 <= #[trigger] ids[k] < m by {
            assert(0 <= positions[k]);
        }
        assert forall|k: int| 0 <= k < kids.len() implies plan::plan_in_bounds(
            #[trigger] kids[k],
            m,
            polys,
            0,
        ) by {
            if k > 0 {
                assert(kids[k] == plans[k - 1]);
                assert(0 <= positions[k - 1]);
                lowering::lemma_all_leaves_below(terms, polys, positions[k - 1]);
                lemma_product_facts(side, factor, bodies[k - 1], polys);
                assert(plan::plan_in_bounds(plans[k - 1], m, polys, 0));
            }
        }
        plan::lemma_plans_in_bounds(kids, m, polys, 0);
    }
    lemma_pieces_push(shapes, children, terms, claimed, after, base, descs, p, w, kids);
}

/// The bodies of one selector have the value of the terms without the selector.
#[verifier::opaque]
pub open spec fn body_computes(
    body: BodyShape,
    children: Seq<PlanView>,
    terms: Seq<AstView>,
    base: BaseView,
    descs: Seq<ScalarView>,
    p: int,
) -> bool {
    &&& p > 2
    &&& children.len() == plan::body_arity(body)
    &&& forall|sv: Seq<int>, env: RowEnv|
        scalars::scalars_bound(sv, descs, env.ch, p) && lowering::env_fits_all(env, terms, p) ==> arith::eqm(
            plan::body_value(body, #[trigger] plan::plan_values(children, sv, env), base.value(env.ch), sv),
            arith::descending(ast::ast_values(terms, env), base.value(env.ch)),
            p,
        )
    &&& forall|polys: spec_fn(IndexedLeaf) -> bool|
        lowering::all_leaves_below(terms, polys) ==> #[trigger] plan::plans_in_bounds(
            children,
            descs.len() as int,
            polys,
            0,
        )
    &&& plan::body_in_bounds(body, descs.len() as int)
    &&& schedule::plan_sizes(children) <= ast::ast_sizes(terms)
}

pub proof fn lemma_body_mono(
    body: BodyShape,
    children: Seq<PlanView>,
    terms: Seq<AstView>,
    base: BaseView,
    descs: Seq<ScalarView>,
    later: Seq<ScalarView>,
    p: int,
)
    requires
        body_computes(body, children, terms, base, descs, p),
        lowering::extends(later, descs),
    ensures
        body_computes(body, children, terms, base, later, p),
{
    reveal(body_computes);
    assert forall|sv: Seq<int>, env: RowEnv|
        scalars::scalars_bound(sv, later, env.ch, p) && lowering::env_fits_all(env, terms, p) implies arith::eqm(
        plan::body_value(body, #[trigger] plan::plan_values(children, sv, env), base.value(env.ch), sv),
        arith::descending(ast::ast_values(terms, env), base.value(env.ch)),
        p,
    ) by {
        lowering::lemma_bound_mono(sv, descs, later, env.ch, p);
    }
    assert forall|polys: spec_fn(IndexedLeaf) -> bool| lowering::all_leaves_below(terms, polys) implies #[trigger] plan::plans_in_bounds(
        children,
        later.len() as int,
        polys,
        0,
    ) by {
        assert(plan::plans_in_bounds(children, descs.len() as int, polys, 0));
        lowering::lemma_plans_bounds_mono(children, descs.len() as int, later.len() as int, polys, 0);
    }
    lowering::lemma_body_bounds_mono(body, descs.len() as int, later.len() as int);
}

/// Plans for all bodies in turn.
pub proof fn lemma_body_sequential(
    children: Seq<PlanView>,
    terms: Seq<AstView>,
    base: BaseView,
    descs: Seq<ScalarView>,
    p: int,
)
    requires
        p > 2,
        terms.len() > 0,
        children.len() == terms.len(),
        forall|k: int|
            0 <= k < terms.len() ==> lowering::compiled(#[trigger] children[k], terms[k], descs, p),
    ensures
        body_computes(BodyShape::Sequential(terms.len()), children, terms, base, descs, p),
{
    lemma_compiled_sizes(children, terms, descs, p);
    reveal(lowering::lowered);
    reveal(body_computes);
    assert forall|sv: Seq<int>, env: RowEnv|
        scalars::scalars_bound(sv, descs, env.ch, p) && lowering::env_fits_all(env, terms, p) implies arith::eqm(
        plan::body_value(
            BodyShape::Sequential(terms.len()),
            #[trigger] plan::plan_values(children, sv, env),
            base.value(env.ch),
            sv,
        ),
        arith::descending(ast::ast_values(terms, env), base.value(env.ch)),
        p,
    ) by {
        plan::lemma_plan_values(children, sv, env);
        ast::lemma_ast_values(terms, env);
        assert forall|k: int| 0 <= k < terms.len() implies plan::plan_values(children, sv, env)[k]
            == ast::ast_values(terms, env)[k] by {
            assert(lowering::compiled(children[k], terms[k], descs, p));
            if ast::all_product_free(terms) {
                lowering::lemma_all_product_free(terms, k);
            }
            assert(plan::plan_value(children[k], sv, env) == ast::ast_value(terms[k], env));
        }
        assert(plan::plan_values(children, sv, env) =~= ast::ast_values(terms, env));
    }
    assert forall|polys: spec_fn(IndexedLeaf) -> bool| lowering::all_leaves_below(terms, polys) implies #[trigger] plan::plans_in_bounds(
        children,
        descs.len() as int,
        polys,
        0,
    ) by {
        assert forall|k: int| 0 <= k < children.len() implies plan::plan_in_bounds(
            #[trigger] children[k],
            descs.len() as int,
            polys,
            0,
        ) by {
            lowering::lemma_all_leaves_below(terms, polys, k);
        }
        plan::lemma_plans_in_bounds(children, descs.len() as int, polys, 0);
    }
}

/// A piece of a factored body as a piece of a distribution.
pub open spec fn as_work(f: FactorShape) -> WorkShape {
    match f {
        FactorShape::Term(power) => WorkShape::Term(power),
        FactorShape::Shared(powers) => WorkShape::Shared(powers),
    }
}

pub open spec fn as_works(s: Seq<FactorShape>) -> Seq<WorkShape> {
    Seq::new(s.len(), |i: int| as_work(s[i]))
}

pub proof fn lemma_as_works(
    s: Seq<FactorShape>,
    v: Seq<int>,
    base: int,
    sv: Seq<int>,
    env: RowEnv,
)
    ensures
        plan::works_arity(as_works(s)) == plan::factors_arity(s),
        plan::works_value(as_works(s), v, base, sv, env) == plan::factors_value(s, v, sv),
    decreases s.len(),
{
    if s.len() > 0 {
        let front = s.drop_last();
        assert(as_works(s).drop_last() =~= as_works(front));
        lemma_as_works(front, v.take(plan::factors_arity(front) as int), base, sv, env);
    }
}

/// Pieces that claim all bodies of a selector.
pub proof fn lemma_body_factored(
    factors: Seq<FactorShape>,
    children: Seq<PlanView>,
    terms: Seq<AstView>,
    claimed: Seq<bool>,
    base: BaseView,
    descs: Seq<ScalarView>,
    p: int,
)
    requires
        pieces(as_works(factors), children, terms, claimed, base, descs, p),
        forall|i: int| 0 <= i < claimed.len() ==> #[trigger] claimed[i],
        plan::body_in_bounds(BodyShape::Factored(factors), descs.len() as int),
    ensures
        body_computes(BodyShape::Factored(factors), children, terms, base, descs, p),
{
    reveal(pieces);
    reveal(body_computes);
    let body = BodyShape::Factored(factors);
    reveal(pieces);
    lemma_claimed_size_bound(terms, claimed);
    let some_env = arbitrary();
    lemma_as_works(factors, Seq::empty(), 0, Seq::empty(), some_env);
    assert forall|sv: Seq<int>, env: RowEnv|
        scalars::scalars_bound(sv, descs, env.ch, p) && lowering::env_fits_all(env, terms, p) implies arith::eqm(
        plan::body_value(body, #[trigger] plan::plan_values(children, sv, env), base.value(env.ch), sv),
        arith::descending(ast::ast_values(terms, env), base.value(env.ch)),
        p,
    ) by {
        let b = base.value(env.ch);
        lemma_as_works(factors, plan::plan_values(children, sv, env), b, sv, env);
        ast::lemma_ast_values(terms, env);
        values::lemma_all_claimed(ast::ast_values(terms, env), claimed, b, terms.len() as int);
        lemma_pow0(b);
    }
    assert forall|polys: spec_fn(IndexedLeaf) -> bool| lowering::all_leaves_below(terms, polys) implies #[trigger] plan::plans_in_bounds(
        children,
        descs.len() as int,
        polys,
        0,
    ) by {
        assert(works_in_bounds(as_works(factors), descs.len() as int, polys));
    }
}

pub proof fn lemma_factored_push(s: Seq<FactorShape>, f: FactorShape, n: int, m: int)
    requires
        n <= m,
        plan::factors_in_bounds(s, n),
        plan::factor_in_bounds(f, m),
    ensures
        as_works(s.push(f)) == as_works(s).push(as_work(f)),
        plan::factors_in_bounds(s.push(f), m),
{
    assert(as_works(s.push(f)) =~= as_works(s).push(as_work(f)));
    let t = s.push(f);
    assert forall|i: int| 0 <= i < t.len() implies plan::factor_in_bounds(#[trigger] t[i], m) by {
        if i < s.len() {
            assert(t[i] == s[i]);
            assert(plan::factor_in_bounds(s[i], n));
        } else {
            assert(t[i] == f);
        }
    }
}

/// The claims after those of the range `start .. end`.
pub open spec fn claim_range(claimed: Seq<bool>, start: int, end: int) -> Seq<bool> {
    Seq::new(claimed.len(), |i: int| (start <= i < end) || claimed[i])
}

/// Consecutive terms with a common factor.
proof fn lemma_run_claim(
    v: Seq<int>,
    claimed: Seq<bool>,
    start: int,
    end: int,
    b: int,
    s: int,
    bodies: Seq<int>,
    p: int,
)
    requires
        p > 2,
        v.len() == claimed.len(),
        0 <= start <= end <= v.len(),
        bodies.len() == end - start,
        forall|i: int| start <= i < end ==> !#[trigger] claimed[i],
        forall|i: int| start <= i < end ==> arith::eqm(#[trigger] v[i], s * bodies[i - start], p),
    ensures
        arith::eqm(
            s * (arith::descending(bodies, b) * pow(b, (v.len() - end) as nat)),
            values::claimed_sum(v, claim_range(claimed, start, end), b, v.len() as int) - values::claimed_sum(
                v,
                claimed,
                b,
                v.len() as int,
            ),
            p,
        ),
    decreases end - start,
{
    let n = v.len() as int;
    if start == end {
        assert(claim_range(claimed, start, end) =~= claimed);
        lemma_mul_basics(s);
        lemma_mul_basics(pow(b, (n - end) as nat));
    } else {
        let m = end - 1;
        let front = bodies.drop_last();
        let x = bodies.last();
        lemma_run_claim(v, claimed, start, m, b, s, front, p);
        let mid = claim_range(claimed, start, m);
        assert(claim_range(claimed, start, end) =~= mid.update(m, true));
        assert(!claimed[m]);
        values::lemma_claim(v, mid, b, n, m);
        let w = pow(b, (n - end) as nat);
        arith::lemma_pow_step(b, (n - end) as nat);
        let d = arith::descending(front, b);
        assert(arith::eqm(v[m], s * x, p));
        arith::lemma_eqm_mul(v[m], s * x, w, w, p);
        arith::lemma_eqm_add(
            s * (d * (b * w)),
            values::claimed_sum(v, mid, b, n) - values::claimed_sum(v, claimed, b, n),
            (s * x) * w,
            v[m] * w,
            p,
        );
        assert(s * ((d * b + x) * w) == s * (d * (b * w)) + (s * x) * w) by (nonlinear_arith);
    }
}

/// One run of a selector family that is planned.
pub struct RunFact {
    pub shape: RunShape,
    pub children: Seq<PlanView>,
    pub bodies: Seq<AstView>,
    pub start: int,
    pub end: int,
    pub side: FactorSide,
}

/// Run `j` of the family of `len` selectors over `query`: its terms are the products
/// of the selector with its bodies, and its plan computes the bodies.
pub open spec fn run_computes(
    run: RunFact,
    j: int,
    query: IndexedLeaf,
    len: int,
    terms: Seq<AstView>,
    base: BaseView,
    descs: Seq<ScalarView>,
    p: int,
) -> bool {
    &&& 0 <= run.start < run.end <= terms.len()
    &&& run.bodies.len() == run.end - run.start
    &&& body_computes(run.shape.body, run.children, run.bodies, base, descs, p)
    &&& is_power(run.shape.power, base, terms.len() - run.end, descs, p)
    &&& forall|i: int|
        run.start <= i < run.end ==> #[trigger] terms[i] == ast::product_node(
            run.side,
            shapes::selector_node(query, len, j + 1, p),
            run.bodies[i - run.start],
        )
}

pub proof fn lemma_run_mono(
    run: RunFact,
    j: int,
    query: IndexedLeaf,
    len: int,
    terms: Seq<AstView>,
    base: BaseView,
    descs: Seq<ScalarView>,
    later: Seq<ScalarView>,
    p: int,
)
    requires
        run_computes(run, j, query, len, terms, base, descs, p),
        lowering::extends(later, descs),
    ensures
        run_computes(run, j, query, len, terms, base, later, p),
{
    lemma_body_mono(run.shape.body, run.children, run.bodies, base, descs, later, p);
    lemma_is_power_mono(run.shape.power, base, terms.len() - run.end, descs, later, p);
}

/// The claims after those of the runs.
pub open spec fn claim_runs(claimed: Seq<bool>, runs: Seq<RunFact>) -> Seq<bool>
    decreases runs.len(),
{
    if runs.len() == 0 {
        claimed
    } else {
        claim_range(claim_runs(claimed, runs.drop_last()), runs.last().start, runs.last().end)
    }
}

/// One more planned run.
pub proof fn lemma_runs_push(
    claimed: Seq<bool>,
    runs: Seq<RunFact>,
    run: RunFact,
    query: IndexedLeaf,
    len: int,
    terms: Seq<AstView>,
    base: BaseView,
    descs: Seq<ScalarView>,
    later: Seq<ScalarView>,
    p: int,
)
    requires
        lowering::extends(later, descs),
        runs_fresh(claimed, runs),
        forall|k: int|
            0 <= k < runs.len() ==> run_computes(
                #[trigger] runs[k],
                k,
                query,
                len,
                terms,
                base,
                descs,
                p,
            ),
        run_computes(run, runs.len() as int, query, len, terms, base, later, p),
        forall|i: int| run.start <= i < run.end ==> !#[trigger] claim_runs(claimed, runs)[i],
    ensures
        claim_runs(claimed, runs.push(run)) == claim_range(
            claim_runs(claimed, runs),
            run.start,
            run.end,
        ),
        runs_fresh(claimed, runs.push(run)),
        forall|k: int|
            0 <= k < runs.len() + 1 ==> run_computes(
                #[trigger] runs.push(run)[k],
                k,
                query,
                len,
                terms,
                base,
                later,
                p,
            ),
        fact_children(runs.push(run)) == run.children + fact_children(runs),
        fact_shapes(runs.push(run)) == fact_shapes(runs).push(run.shape),
{
    let next = runs.push(run);
    assert(next.drop_last() =~= runs);
    assert(fact_shapes(next) =~= fact_shapes(runs).push(run.shape));
    assert forall|k: int| 0 <= k < next.len() implies run_computes(
        #[trigger] next[k],
        k,
        query,
        len,
        terms,
        base,
        later,
        p,
    ) by {
        if k < runs.len() {
            assert(next[k] == runs[k]);
            lemma_run_mono(runs[k], k, query, len, terms, base, descs, later, p);
        }
    }
    assert forall|k: int, i: int|
        0 <= k < next.len() && (#[trigger] next[k]).start <= i < next[k].end implies !#[trigger]
    claim_runs(claimed, next.take(k))[i] by {
        if k < runs.len() {
            assert(next[k] == runs[k]);
            assert(next.take(k) =~= runs.take(k));
        } else {
            assert(next.take(k) =~= runs);
        }
    }
}

pub open spec fn fact_shapes(runs: Seq<RunFact>) -> Seq<RunShape> {
    Seq::new(runs.len(), |j: int| runs[j].shape)
}

/// The operands of the runs, from the last run to the first.
pub open spec fn fact_children(runs: Seq<RunFact>) -> Seq<PlanView>
    decreases runs.len(),
{
    if runs.len() == 0 {
        Seq::empty()
    } else {
        runs.last().children + fact_children(runs.drop_last())
    }
}

pub proof fn lemma_claim_runs_len(claimed: Seq<bool>, runs: Seq<RunFact>)
    ensures
        claim_runs(claimed, runs).len() == claimed.len(),
    decreases runs.len(),
{
    if runs.len() > 0 {
        lemma_claim_runs_len(claimed, runs.drop_last());
    }
}

/// The terms of a run are not claimed by the runs before it.
pub open spec fn runs_fresh(claimed: Seq<bool>, runs: Seq<RunFact>) -> bool {
    forall|j: int, i: int|
        0 <= j < runs.len() && (#[trigger] runs[j]).start <= i < runs[j].end
            ==> !#[trigger] claim_runs(claimed, runs.take(j))[i]
}

/// What a planned run contributes at one row.
proof fn lemma_run_at(
    run: RunFact,
    j: int,
    query: IndexedLeaf,
    len: int,
    terms: Seq<AstView>,
    base: BaseView,
    descs: Seq<ScalarView>,
    p: int,
    sv: Seq<int>,
    env: RowEnv,
)
    requires
        run_computes(run, j, query, len, terms, base, descs, p),
        scalars::scalars_bound(sv, descs, env.ch, p),
        env.p == p,
        env.unit == 1,
    ensures
        run.children.len() == plan::body_arity(run.shape.body),
        arith::eqm(
            plan::body_value(
                run.shape.body,
                plan::plan_values(run.children, sv, env),
                base.value(env.ch),
                sv,
            ),
            arith::descending(ast::ast_values(run.bodies, env), base.value(env.ch)),
            p,
        ),
        sv[run.shape.power] == pow(base.value(env.ch), (terms.len() - run.end) as nat) % p,
{
    reveal(body_computes);
}

proof fn lemma_runs_value(
    runs: Seq<RunFact>,
    query: IndexedLeaf,
    len: nat,
    terms: Seq<AstView>,
    claimed: Seq<bool>,
    base: BaseView,
    descs: Seq<ScalarView>,
    p: int,
    sv: Seq<int>,
    env: RowEnv,
)
    requires
        p > 2,
        claimed.len() == terms.len(),
        runs.len() <= len,
        forall|j: int|
            0 <= j < runs.len() ==> run_computes(
                #[trigger] runs[j],
                j,
                query,
                len as int,
                terms,
                base,
                descs,
                p,
            ),
        runs_fresh(claimed, runs),
        scalars::scalars_bound(sv, descs, env.ch, p),
        env.p == p,
        env.unit == 1,
    ensures
        fact_children(runs).len() == plan::runs_arity(fact_shapes(runs)),
        plan::run_weights(
            fact_shapes(runs),
            plan::plan_values(fact_children(runs), sv, env),
            base.value(env.ch),
            sv,
        ).len() == runs.len(),
        arith::eqm(
            values::partial_family(
                plan::run_weights(
                    fact_shapes(runs),
                    plan::plan_values(fact_children(runs), sv, env),
                    base.value(env.ch),
                    sv,
                ),
                len,
                (env.leaf)(query),
            ) * (env.leaf)(query),
            values::claimed_sum(
                ast::ast_values(terms, env),
                claim_runs(claimed, runs),
                base.value(env.ch),
                terms.len() as int,
            ) - values::claimed_sum(
                ast::ast_values(terms, env),
                claimed,
                base.value(env.ch),
                terms.len() as int,
            ),
            p,
        ),
    decreases runs.len(),
{
    let b = base.value(env.ch);
    let q = (env.leaf)(query);
    let v = ast::ast_values(terms, env);
    let n = terms.len() as int;
    if runs.len() == 0 {
        lemma_mul_basics(q);
    } else {
        let front = runs.drop_last();
        let m = runs.len() - 1;
        let run = runs.last();
        assert(run == runs[m]);
        assert forall|j: int| 0 <= j < front.len() implies run_computes(
            #[trigger] front[j],
            j,
            query,
            len as int,
            terms,
            base,
            descs,
            p,
        ) by {
            assert(front[j] == runs[j]);
        }
        assert forall|j: int, i: int|
            0 <= j < front.len() && (#[trigger] front[j]).start <= i
                < front[j].end implies !#[trigger] claim_runs(claimed, front.take(j))[i] by {
            assert(front[j] == runs[j]);
            assert(front.take(j) =~= runs.take(j));
        }
        lemma_runs_value(front, query, len, terms, claimed, base, descs, p, sv, env);
        let shapes = fact_shapes(runs);
        assert(shapes.drop_last() =~= fact_shapes(front));
        lemma_run_at(run, m, query, len as int, terms, base, descs, p, sv, env);
        plan::lemma_plan_values_add(run.children, fact_children(front), sv, env);
        plan::lemma_plan_values(run.children, sv, env);
        plan::lemma_plan_values(fact_children(front), sv, env);
        let vb = plan::plan_values(run.children, sv, env);
        let vf = plan::plan_values(fact_children(front), sv, env);
        let at = plan::body_arity(run.shape.body) as int;
        assert((vb + vf).take(at) =~= vb);
        assert((vb + vf).skip(at) =~= vf);
        let ws = plan::run_weights(fact_shapes(front), vf, b, sv);
        let bv = plan::body_value(run.shape.body, vb, b, sv);
        let ps = sv[run.shape.power];
        let all = plan::run_weights(shapes, vb + vf, b, sv);
        assert(all == ws.push(bv * ps));
        assert(all.drop_last() =~= ws);
        let before = claim_runs(claimed, front);
        lemma_claim_runs_len(claimed, front);
        assert(runs.take(m) =~= front);
        let bodies = ast::ast_values(run.bodies, env);
        ast::lemma_ast_values(run.bodies, env);
        ast::lemma_ast_values(terms, env);
        let s = q * values::other_factors(len, m + 1, q);
        let sel = shapes::selector_node(query, len as int, m + 1, p);
        values::lemma_selector_value(query, len, m + 1, env);
        assert forall|i: int| run.start <= i < run.end implies arith::eqm(
            #[trigger] v[i],
            s * bodies[i - run.start],
            p,
        ) by {
            assert(v[i] == ast::ast_value(terms[i], env));
            let g = run.bodies[i - run.start];
            lemma_product_value(run.side, sel, g, env);
            arith::lemma_eqm_mul(ast::ast_value(sel, env), s, ast::ast_value(g, env), ast::ast_value(g, env), p);
        }
        assert forall|i: int| run.start <= i < run.end implies !#[trigger] before[i] by {
            assert(!claim_runs(claimed, runs.take(m))[i]);
        }
        lemma_run_claim(v, before, run.start, run.end, b, s, bodies, p);
        let d = arith::descending(bodies, b);
        let w = pow(b, (n - run.end) as nat);
        arith::lemma_mod_range(w, p);
        arith::lemma_eqm_mul(bv, d, ps, w, p);
        arith::lemma_eqm_mul(s, s, bv * ps, d * w, p);
        let of = values::other_factors(len, m + 1, q);
        let pf = values::partial_family(ws, len, q);
        assert(values::partial_family(all, len, q) == pf + (bv * ps) * of);
        arith::lemma_eqm_add(
            pf * q,
            values::claimed_sum(v, before, b, n) - values::claimed_sum(v, claimed, b, n),
            s * (bv * ps),
            values::claimed_sum(v, claim_runs(claimed, runs), b, n) - values::claimed_sum(v, before, b, n),
            p,
        );
        let t = bv * ps;
        assert((pf + t * of) * q == pf * q + (q * of) * t) by (nonlinear_arith);
    }
}

proof fn lemma_fact_children(
    runs: Seq<RunFact>,
    query: IndexedLeaf,
    len: int,
    terms: Seq<AstView>,
    base: BaseView,
    descs: Seq<ScalarView>,
    p: int,
    polys: spec_fn(IndexedLeaf) -> bool,
)
    requires
        forall|j: int|
            0 <= j < runs.len() ==> run_computes(
                #[trigger] runs[j],
                j,
                query,
                len,
                terms,
                base,
                descs,
                p,
            ),
    ensures
        fact_children(runs).len() == plan::runs_arity(fact_shapes(runs)),
        schedule::plan_sizes(fact_children(runs)) == runs_sizes(runs),
        lowering::all_leaves_below(terms, polys) ==> plan::plans_in_bounds(
            fact_children(runs),
            descs.len() as int,
            polys,
            0,
        ),
    decreases runs.len(),
{
    reveal(body_computes);
    if runs.len() > 0 {
        let front = runs.drop_last();
        let m = runs.len() - 1;
        let run = runs[m];
        assert forall|j: int| 0 <= j < front.len() implies run_computes(
            #[trigger] front[j],
            j,
            query,
            len,
            terms,
            base,
            descs,
            p,
        ) by {
            assert(front[j] == runs[j]);
        }
        lemma_fact_children(front, query, len, terms, base, descs, p, polys);
        schedule::lemma_plan_sizes_add(run.children, fact_children(front));
        assert(fact_shapes(runs).drop_last() =~= fact_shapes(front));
        if lowering::all_leaves_below(terms, polys) {
            let n = descs.len() as int;
            assert(lowering::all_leaves_below(run.bodies, polys)) by {
                assert forall|k: int| 0 <= k < run.bodies.len() implies lowering::leaves_below(
                    #[trigger] run.bodies[k],
                    polys,
                ) by {
                    let i = run.start + k;
                    lowering::lemma_all_leaves_below(terms, polys, i);
                    assert(terms[i] == ast::product_node(
                        run.side,
                        shapes::selector_node(query, len, m + 1, p),
                        run.bodies[i - run.start],
                    ));
                    lemma_product_facts(
                        run.side,
                        shapes::selector_node(query, len, m + 1, p),
                        run.bodies[k],
                        polys,
                    );
                }
                lemma_leaves_from_each(run.bodies, polys);
            }
            assert(plan::plans_in_bounds(run.children, n, polys, 0));
            plan::lemma_plans_in_bounds(run.children, n, polys, 0);
            plan::lemma_plans_in_bounds(fact_children(front), n, polys, 0);
            plan::lemma_plans_in_bounds(fact_children(runs), n, polys, 0);
        }
    }
}

/// The sizes of the plans of the runs.
spec fn runs_sizes(runs: Seq<RunFact>) -> nat
    decreases runs.len(),
{
    if runs.len() == 0 {
        0
    } else {
        runs_sizes(runs.drop_last()) + schedule::plan_sizes(runs.last().children)
    }
}

proof fn lemma_runs_size(
    runs: Seq<RunFact>,
    query: IndexedLeaf,
    len: int,
    terms: Seq<AstView>,
    claimed: Seq<bool>,
    base: BaseView,
    descs: Seq<ScalarView>,
    p: int,
)
    requires
        claimed.len() == terms.len(),
        runs_fresh(claimed, runs),
        forall|j: int|
            0 <= j < runs.len() ==> run_computes(
                #[trigger] runs[j],
                j,
                query,
                len,
                terms,
                base,
                descs,
                p,
            ),
    ensures
        claimed_size(terms, claim_runs(claimed, runs)) >= claimed_size(terms, claimed)
            + runs_sizes(runs),
    decreases runs.len(),
{
    reveal(body_computes);
    if runs.len() > 0 {
        let front = runs.drop_last();
        let m = runs.len() - 1;
        let run = runs[m];
        assert forall|j: int| 0 <= j < front.len() implies run_computes(
            #[trigger] front[j],
            j,
            query,
            len,
            terms,
            base,
            descs,
            p,
        ) by {
            assert(front[j] == runs[j]);
        }
        assert forall|j: int, i: int|
            0 <= j < front.len() && (#[trigger] front[j]).start <= i
                < front[j].end implies !#[trigger] claim_runs(claimed, front.take(j))[i] by {
            assert(front[j] == runs[j]);
            assert(front.take(j) =~= runs.take(j));
        }
        lemma_runs_size(front, query, len, terms, claimed, base, descs, p);
        lemma_claim_runs_len(claimed, front);
        let before = claim_runs(claimed, front);
        assert(runs.take(m) =~= front);
        assert forall|i: int| run.start <= i < run.end implies !#[trigger] before[i] by {
            assert(!claim_runs(claimed, runs.take(m))[i]);
        }
        let sel = shapes::selector_node(query, len, m + 1, p);
        assert forall|i: int| run.start <= i < run.end implies ast::ast_size(#[trigger] terms[i])
            > ast::ast_size(run.bodies[i - run.start]) by {
            lemma_product_facts(run.side, sel, run.bodies[i - run.start], plan::any_leaf());
        }
        lemma_claim_range_size(terms, before, run.start, run.end, run.bodies);
    }
}

pub proof fn lemma_leaves_from_each(s: Seq<AstView>, polys: spec_fn(IndexedLeaf) -> bool)
    requires
        forall|k: int| 0 <= k < s.len() ==> lowering::leaves_below(#[trigger] s[k], polys),
    ensures
        lowering::all_leaves_below(s, polys),
    decreases s.len(),
{
    if s.len() > 0 {
        lemma_leaves_from_each(s.drop_last(), polys);
    }
}

proof fn lemma_root_product_leaves(query: IndexedLeaf, roots: Seq<int>, p: int, polys: spec_fn(IndexedLeaf) -> bool)
    ensures
        lowering::leaves_below(shapes::root_product(query, roots, p), polys) ==> polys(query),
    decreases roots.len(),
{
    if roots.len() > 0 {
        lemma_root_product_leaves(query, roots.drop_last(), p, polys);
        lowering::lemma_pair_facts(
            shapes::root_product(query, roots.drop_last(), p),
            shapes::difference_node(roots.last(), query, p),
            polys,
        );
    }
}

/// A selector family as a piece.
pub proof fn lemma_piece_family(
    shapes: Seq<WorkShape>,
    children: Seq<PlanView>,
    terms: Seq<AstView>,
    claimed: Seq<bool>,
    base: BaseView,
    descs: Seq<ScalarView>,
    p: int,
    query: IndexedLeaf,
    runs: Seq<RunFact>,
)
    requires
        pieces(shapes, children, terms, claimed, base, descs, p),
        runs.len() >= 2,
        forall|j: int|
            0 <= j < runs.len() ==> run_computes(
                #[trigger] runs[j],
                j,
                query,
                runs.len() as int,
                terms,
                base,
                descs,
                p,
            ),
        runs_fresh(claimed, runs),
    ensures
        pieces(
            shapes.push(WorkShape::Family(query, fact_shapes(runs))),
            children + fact_children(runs),
            terms,
            claim_runs(claimed, runs),
            base,
            descs,
            p,
        ),
{
    reveal(body_computes);
    reveal(pieces);
    let w = WorkShape::Family(query, fact_shapes(runs));
    let kids = fact_children(runs);
    let after = claim_runs(claimed, runs);
    let n = terms.len() as int;
    let len = runs.len();
    lemma_claim_runs_len(claimed, runs);
    lemma_fact_children(runs, query, len as int, terms, base, descs, p, plan::any_leaf());
    lemma_runs_size(runs, query, len as int, terms, claimed, base, descs, p);
    let first = runs[0];
    let sel = shapes::selector_node(query, len as int, 1, p);
    assert(terms[first.start] == ast::product_node(first.side, sel, first.bodies[0]));
    lemma_product_facts(first.side, sel, first.bodies[0], plan::any_leaf());
    assert(!ast::all_product_free(terms)) by {
        if ast::all_product_free(terms) {
            lowering::lemma_all_product_free(terms, first.start);
        }
    }
    assert forall|sv: Seq<int>, env: RowEnv|
        scalars::scalars_bound(sv, descs, env.ch, p) && lowering::env_fits_all(env, terms, p) implies arith::eqm(
        plan::work_value(w, #[trigger] plan::plan_values(kids, sv, env), base.value(env.ch), sv, env),
        values::claimed_sum(ast::ast_values(terms, env), after, base.value(env.ch), n) - values::claimed_sum(
            ast::ast_values(terms, env),
            claimed,
            base.value(env.ch),
            n,
        ),
        p,
    ) by {
        lemma_runs_value(runs, query, len, terms, claimed, base, descs, p, sv, env);
        values::lemma_family_sum(
            plan::run_weights(fact_shapes(runs), plan::plan_values(kids, sv, env), base.value(env.ch), sv),
            (env.leaf)(query),
        );
    }
    assert forall|polys: spec_fn(IndexedLeaf) -> bool| lowering::all_leaves_below(terms, polys) implies #[trigger] plan::work_in_bounds(
        w,
        descs.len() as int,
        polys,
    ) && plan::plans_in_bounds(kids, descs.len() as int, polys, 0) by {
        lemma_fact_children(runs, query, len as int, terms, base, descs, p, polys);
        lowering::lemma_all_leaves_below(terms, polys, first.start);
        lemma_product_facts(first.side, sel, first.bodies[0], polys);
        lemma_root_product_leaves(query, shapes::other_roots(len, 1, p), p, polys);
        let rs = fact_shapes(runs);
        assert forall|j: int| 0 <= j < rs.len() implies 0 <= (#[trigger] rs[j]).power
            < descs.len() && plan::body_in_bounds(rs[j].body, descs.len() as int) by {
            assert(rs[j] == runs[j].shape);
        }
    }
    lemma_pieces_push(shapes, children, terms, claimed, after, base, descs, p, w, kids);
}

/// Pieces that claim every term compute the distribution.
pub proof fn lemma_lowered_distribute(
    shapes: Seq<WorkShape>,
    children: Seq<PlanView>,
    terms: Seq<AstView>,
    claimed: Seq<bool>,
    base: BaseView,
    id: int,
    descs: Seq<ScalarView>,
    p: int,
)
    requires
        pieces(shapes, children, terms, claimed, base, descs, p),
        forall|i: int| 0 <= i < claimed.len() ==> #[trigger] claimed[i],
        0 <= id < descs.len(),
        descs[id] == (match base {
            BaseView::Literal(v) => ScalarView::Literal(v),
            BaseView::Challenge(c) => ScalarView::Challenge(c),
        }),
    ensures
        lowering::lowered(
            PlanView { op: PlanOp::Distribute(shapes, id), children },
            AstView { op: AstOp::Distribute(base), children: terms },
            descs,
            p,
        ),
{
    reveal(lowering::lowered);
    reveal(pieces);
    let plan = PlanView { op: PlanOp::Distribute(shapes, id), children };
    let node = AstView { op: AstOp::Distribute(base), children: terms };
    lemma_claimed_size_bound(terms, claimed);
    assert forall|sv: Seq<int>, env: RowEnv|
        scalars::scalars_bound(sv, descs, env.ch, p) && lowering::env_fits(env, node, p) implies #[trigger] plan::plan_value(
        plan,
        sv,
        env,
    ) == ast::ast_value(node, env) by {
        let b = base.value(env.ch);
        assert(sv[id] == b);
        let kids = plan::plan_values(children, sv, env);
        assert(plan::plan_value(plan, sv, env) == plan::works_value(shapes, kids, b, sv, env) % p);
        ast::lemma_ast_values(terms, env);
        values::lemma_all_claimed(ast::ast_values(terms, env), claimed, b, terms.len() as int);
        lemma_pow0(b);
    }
    assert forall|polys: spec_fn(IndexedLeaf) -> bool| lowering::leaves_below(node, polys) implies #[trigger] plan::plan_in_bounds(
        plan,
        descs.len() as int,
        polys,
        0,
    ) by {
        assert(works_in_bounds(shapes, descs.len() as int, polys));
    }
}

} // verus!
