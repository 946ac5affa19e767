//! When a retained plan is used again, and what it gives then.
use crate::ast;
use crate::ast::AstView;
use crate::basis::BasisOps;
use crate::domain::DomainView;
use crate::evaluator;
use crate::evaluator::{CompiledEvaluationPlan, Evaluator};
use crate::field::Field;
use crate::poly::{Basis, Polynomial};
use crate::scalars::{EvaluationChallenges, EvaluationPolyTag};
use vstd::prelude::*;

verus! {

/// A registration with a tag puts the tag behind those that were there.
pub proof fn law_registered_tag<'poly, E, F: Field, B: Basis>(
    before: Evaluator<'poly, E, F, B>,
    after: Evaluator<'poly, E, F, B>,
    tag: EvaluationPolyTag,
)
    requires
        before.wf(),
        before.takes_tag(Some(tag)),
        evaluator::tags_view(after.polynomial_tags) == before.tagged(Some(tag)),
    ensures
        after.polynomial_tags is Some,
        after.polynomial_tags->0@.len() == before.count() + 1,
        after.polynomial_tags->0@.last().role == tag.role,
        after.polynomial_tags->0@.last().first == tag.first,
        after.polynomial_tags->0@.last().second == tag.second,
        before.polynomial_tags is None <==> before.count() == 0,
        before.polynomial_tags is Some ==> after.polynomial_tags->0@.drop_last()
            == before.polynomial_tags->0@,
{
    if before.polynomial_tags is Some {
        assert(after.polynomial_tags->0@.drop_last() =~= before.polynomial_tags->0@);
    }
}

/// A registration without a tag leaves an evaluator without tags, and is only possible for
/// one.
pub proof fn law_registered_without_tag<'poly, E, F: Field, B: Basis>(
    before: Evaluator<'poly, E, F, B>,
    after: Evaluator<'poly, E, F, B>,
)
    requires
        before.wf(),
        before.takes_tag(None),
        evaluator::tags_view(after.polynomial_tags) == before.tagged(None),
    ensures
        before.polynomial_tags is None,
        after.polynomial_tags is None,
{
}

/// A plan is used by an evaluator only if the evaluator has as many polynomials as the one
/// that the plan was compiled for, with the same tags (role and both indices), of the same
/// lengths, the same selectors and the same reused sources, each in the same place.
pub proof fn law_used_plan_fits<'p, 'q, E, G, F: Field, B: BasisOps>(
    made: Evaluator<'p, G, F, B>,
    user: Evaluator<'q, E, F, B>,
    plan: CompiledEvaluationPlan<F, B>,
    poly_len: usize,
)
    requires
        plan.evaluator_shape.view() == made.shape(poly_len),
        user.virtual_poly_count is None,
        user.accepts(Some(&plan)),
    ensures
        made.polynomial_tags is Some,
        user.polynomial_tags is Some,
        made.polynomial_tags->0@.len() == user.polynomial_tags->0@.len(),
        forall|i: int|
            0 <= i < user.polynomial_tags->0@.len() ==> {
                let (a, b) = (made.polynomial_tags->0@[i], #[trigger] user.polynomial_tags->0@[i]);
                a.role == b.role && a.first == b.first && a.second == b.second
            },
        made.virtual_poly_count is None ==> made.polys@.len() == user.polys@.len() && forall|
            i: int,
        |
            0 <= i < user.polys@.len() ==> (#[trigger] user.polys@[i]).poly().values@.len()
                == made.polys@[i].poly().values@.len(),
        made.virtual_poly_count matches Some(count) ==> count == user.polys@.len() && forall|
            i: int,
        |
            0 <= i < user.polys@.len() ==> (#[trigger] user.polys@[i]).poly().values@.len()
                == poly_len,
        made.compressed_selectors@.len() == user.compressed_selectors@.len(),
        forall|i: int|
            0 <= i < user.compressed_selectors@.len() ==> {
                let (a, b) = (
                    made.compressed_selectors@[i],
                    #[trigger] user.compressed_selectors@[i],
                );
                &&& a.query.index == b.query.index
                &&& a.query.rotation.0 == b.query.rotation.0
                &&& a.combination_len == b.combination_len
                &&& a.assigned_root == b.assigned_root
                &&& a.selector.index == b.selector.index
                &&& a.selector.rotation.0 == b.selector.rotation.0
            },
        made.reused_compressed_selector_sources@ == user.reused_compressed_selector_sources@,
{
    let (x, y) = (made.shape(poly_len), user.shape(0));
    assert(x == y);
    assert(x.lengths.len() == y.lengths.len());
    assert forall|i: int| 0 <= i < user.polys@.len() implies {
        let n = (#[trigger] user.polys@[i]).poly().values@.len();
        &&& made.virtual_poly_count is None ==> n == made.polys@[i].poly().values@.len()
        &&& made.virtual_poly_count is Some ==> n == poly_len
    } by {
        assert(y.lengths[i] == x.lengths[i]);
        assert(user.polys@[i].poly().values.len() == user.polys@[i].poly().values@.len());
        if made.virtual_poly_count is None {
            assert(made.polys@[i].poly().values.len() == made.polys@[i].poly().values@.len());
        }
    }
    assert(x.selectors.len() == y.selectors.len());
    assert forall|i: int| 0 <= i < user.compressed_selectors@.len() implies {
        let (a, b) = (made.compressed_selectors@[i], #[trigger] user.compressed_selectors@[i]);
        &&& a.query.index == b.query.index
        &&& a.query.rotation.0 == b.query.rotation.0
        &&& a.combination_len == b.combination_len
        &&& a.assigned_root == b.assigned_root
        &&& a.selector.index == b.selector.index
        &&& a.selector.rotation.0 == b.selector.rotation.0
    } by {
        assert(x.selectors[i] == y.selectors[i]);
    }
}

/// Evaluators whose tags differ anywhere do not use each other's plans.
pub proof fn law_other_tags_are_refused<'p, 'q, E, G, F: Field, B: BasisOps>(
    made: Evaluator<'p, G, F, B>,
    user: Evaluator<'q, E, F, B>,
    plan: CompiledEvaluationPlan<F, B>,
    poly_len: usize,
    i: int,
)
    requires
        plan.evaluator_shape.view() == made.shape(poly_len),
        user.virtual_poly_count is None,
        made.polynomial_tags is Some,
        user.polynomial_tags is Some,
        0 <= i < made.polynomial_tags->0@.len(),
        0 <= i < user.polynomial_tags->0@.len(),
        ({
            let (a, b) = (made.polynomial_tags->0@[i], user.polynomial_tags->0@[i]);
            a.role != b.role || a.first != b.first || a.second != b.second
        }),
    ensures
        !user.accepts(Some(&plan)),
{
    if user.accepts(Some(&plan)) {
        law_used_plan_fits(made, user, plan, poly_len);
        let b = user.polynomial_tags->0@[i];
    }
}

/// A plan is used by every evaluator with tags that is like the one that the plan was
/// compiled for.
pub proof fn law_fitting_plan_is_used<'p, 'q, E, G, F: Field, B: BasisOps>(
    made: Evaluator<'p, G, F, B>,
    user: Evaluator<'q, E, F, B>,
    plan: CompiledEvaluationPlan<F, B>,
    poly_len: usize,
)
    requires
        plan.evaluator_shape.view() == made.shape(poly_len),
        user.virtual_poly_count is None,
        made.polynomial_tags is Some,
        user.polynomial_tags is Some,
        made.polynomial_tags->0@ == user.polynomial_tags->0@,
        made.count() == user.polys@.len(),
        forall|i: int|
            0 <= i < user.polys@.len() ==> (#[trigger] user.polys@[i]).poly().values@.len() == (
            if made.virtual_poly_count is Some {
                poly_len as nat
            } else {
                made.polys@[i].poly().values@.len()
            }),
        made.compressed_selectors@.len() == user.compressed_selectors@.len(),
        forall|i: int|
            0 <= i < user.compressed_selectors@.len() ==> {
                let (a, b) = (
                    made.compressed_selectors@[i],
                    #[trigger] user.compressed_selectors@[i],
                );
                &&& a.query.index == b.query.index
                &&& a.query.rotation == b.query.rotation
                &&& a.combination_len == b.combination_len
                &&& a.assigned_root == b.assigned_root
                &&& a.selector.index == b.selector.index
                &&& a.selector.rotation == b.selector.rotation
            },
        made.reused_compressed_selector_sources@ == user.reused_compressed_selector_sources@,
    ensures
        user.accepts(Some(&plan)),
{
    let (x, y) = (made.shape(poly_len), user.shape(0));
    assert(x.lengths =~= y.lengths) by {
        assert forall|i: int| 0 <= i < x.lengths.len() implies x.lengths[i] == y.lengths[i] by {
            let s = user.polys@[i];
        }
    }
    assert(x.selectors =~= y.selectors) by {
        assert forall|i: int| 0 <= i < x.selectors.len() implies x.selectors[i]
            == y.selectors[i] by {
            let b = user.compressed_selectors@[i];
        }
    }
}

/// What a plan that was compiled for expressions gives to a later evaluator that uses it is
/// what a plan that the later evaluator compiled for them would give.
pub proof fn law_used_plan_gives_the_rows<'p, 'q, E, G, F: Field, B: BasisOps>(
    made: Evaluator<'p, G, F, B>,
    user: Evaluator<'q, E, F, B>,
    plan: CompiledEvaluationPlan<F, B>,
    poly_len: usize,
    expression: AstView,
    used: Polynomial<F, B>,
    compiled_anew: Polynomial<F, B>,
    domain: DomainView,
    challenges: EvaluationChallenges<F>,
)
    requires
        plan.evaluator_shape.view() == made.shape(poly_len),
        plan.source@ == made.resolved(expression),
        user.virtual_poly_count is None,
        user.accepts(Some(&plan)),
        user.rows_of(used, plan.source@, domain, challenges.view()),
        user.rows_of(compiled_anew, user.resolved(expression), domain, challenges.view()),
    ensures
        used.values@.len() == compiled_anew.values@.len(),
        forall|row: int|
            0 <= row < used.values@.len() ==> (#[trigger] used.values@[row]).val()
                == compiled_anew.values@[row].val(),
{
    assert(made.shape(poly_len).selectors == user.shape(0).selectors);
    assert(made.selectors() == user.selectors());
    assert forall|row: int| 0 <= row < used.values@.len() implies (#[trigger] used.values@[row]).val()
        == compiled_anew.values@[row].val() by {
        assert(compiled_anew.values@[row].val() == ast::ast_value(
            user.resolved(expression),
            user.env(domain, challenges.view(), row),
        ));
    }
}

} // verus!
