//! Rewriting a plan so that it follows a cache schedule.
use crate::plan;
use crate::plan::{
    DistributionWork, EvaluationPlan, FactorBodyPlan, FactorBodyWork, PlanView, SelectorFamilyRun,
    WeightedTerm,
};
use crate::schedule;
use crate::schedule::CacheAction;
use vstd::prelude::*;

verus! {

/// Every action on the nodes `list`, the first of which is number `o`, knows where its
/// occurrence ends.
pub open spec fn ends_fit(
    list: Seq<PlanView>,
    actions: Seq<Option<CacheAction>>,
    o: int,
) -> bool {
    &&& 0 <= o
    &&& o + list.len() <= actions.len()
    &&& forall|k: int|
        #![trigger list[k]]
        0 <= k < list.len() ==> (actions[o + k] matches Some(action) ==> action.end == o + k
            + schedule::plan_size(list[k]))
}

proof fn lemma_ends_split(
    a: Seq<PlanView>,
    b: Seq<PlanView>,
    actions: Seq<Option<CacheAction>>,
    o: int,
)
    requires
        ends_fit(a + b, actions, o),
    ensures
        ends_fit(a, actions, o),
        ends_fit(b, actions, o + a.len()),
{
    assert forall|k: int|
        #![trigger a[k]]
        0 <= k < a.len() implies (actions[o + k] matches Some(action) ==> action.end == o + k
        + schedule::plan_size(a[k])) by {
        assert((a + b)[k] == a[k]);
    }
    assert forall|k: int|
        #![trigger b[k]]
        0 <= k < b.len() implies (actions[o + a.len() + k] matches Some(action) ==> action.end == o
        + a.len() + k + schedule::plan_size(b[k])) by {
        assert((a + b)[a.len() + k] == b[k]);
    }
}

proof fn lemma_ends_children(
    a: Seq<PlanView>,
    b: Seq<PlanView>,
    actions: Seq<Option<CacheAction>>,
    o: int,
)
    requires
        ends_fit(schedule::all_occurrences(a + b), actions, o),
    ensures
        ends_fit(schedule::all_occurrences(a), actions, o),
        ends_fit(schedule::all_occurrences(b), actions, o + schedule::plan_sizes(a)),
        schedule::all_applied(a + b, actions, o) == schedule::all_applied(a, actions, o) + schedule::all_applied(
            b,
            actions,
            o + schedule::plan_sizes(a),
        ),
        schedule::plan_sizes(a + b) == schedule::plan_sizes(a) + schedule::plan_sizes(b),
{
    schedule::lemma_plan_sizes_add(a, b);
    schedule::lemma_all_occurrences_len(a);
    lemma_ends_split(schedule::all_occurrences(a), schedule::all_occurrences(b), actions, o);
    schedule::lemma_all_applied_add(a, b, actions, o);
}

proof fn lemma_ends_one(a: PlanView, actions: Seq<Option<CacheAction>>, o: int)
    ensures
        ends_fit(schedule::all_occurrences(seq![a]), actions, o) <==> ends_fit(schedule::occurrences(a), actions, o),
        schedule::all_applied(seq![a], actions, o) == seq![schedule::applied(a, actions, o)],
        schedule::plan_sizes(seq![a]) == schedule::plan_size(a),
        schedule::occurrences(a).len() == schedule::plan_size(a),
{
    schedule::lemma_plan_sizes_one(a);
    schedule::lemma_all_applied_one(a, actions, o);
    schedule::lemma_occurrences_len(a);
}

/// The same elements from the last to the first.
fn reversed<T>(list: Vec<T>) -> (r: Vec<T>)
    ensures
        r@ == list@.reverse(),
{
    let mut list = list;
    let ghost all = list@;
    let mut r: Vec<T> = Vec::with_capacity(list.len());
    while list.len() > 0
        invariant
            r@.len() + list@.len() == all.len(),
            list@ == all.take(list@.len() as int),
            forall|k: int| 0 <= k < r@.len() ==> #[trigger] r@[k] == all[all.len() - 1 - k],
        decreases list@.len(),
    {
        if let Some(x) = list.pop() {
            r.push(x);
            assert(list@ =~= all.take(list@.len() as int));
        }
    }
    assert(r@ =~= all.reverse());
    r
}

proof fn lemma_take_ends_plan_views(
    s: Seq<EvaluationPlan>,
    k: int,
    actions: Seq<Option<CacheAction>>,
    o: int,
)
    requires
        0 <= k < s.len(),
        ends_fit(schedule::all_occurrences(plan::plan_views(s)), actions, o),
    ensures
        ends_fit(schedule::all_occurrences(plan::plan_views(s.take(k + 1))), actions, o),
    decreases s.len() - k,
{
    if k + 1 == s.len() {
        assert(s.take(k + 1) =~= s);
    } else {
        lemma_take_ends_plan_views(s, k + 1, actions, o);
        plan::lemma_children_take_plans(s, k + 1);
        schedule::lemma_plan_sizes_add(
            plan::plan_views(s.take(k + 1)),
            seq![s[k + 1].view()],
        );
        lemma_ends_split(
            schedule::all_occurrences(plan::plan_views(s.take(k + 1))),
            schedule::all_occurrences(seq![s[k + 1].view()]),
            actions,
            o,
        );
    }
}

proof fn lemma_take_ends_term_views(
    s: Seq<WeightedTerm>,
    k: int,
    actions: Seq<Option<CacheAction>>,
    o: int,
)
    requires
        0 <= k < s.len(),
        ends_fit(schedule::all_occurrences(plan::term_views(s)), actions, o),
    ensures
        ends_fit(schedule::all_occurrences(plan::term_views(s.take(k + 1))), actions, o),
    decreases s.len() - k,
{
    if k + 1 == s.len() {
        assert(s.take(k + 1) =~= s);
    } else {
        lemma_take_ends_term_views(s, k + 1, actions, o);
        plan::lemma_children_take_terms(s, k + 1);
        schedule::lemma_plan_sizes_add(
            plan::term_views(s.take(k + 1)),
            seq![s[k + 1].term.view()],
        );
        lemma_ends_split(
            schedule::all_occurrences(plan::term_views(s.take(k + 1))),
            schedule::all_occurrences(seq![s[k + 1].term.view()]),
            actions,
            o,
        );
    }
}

proof fn lemma_take_ends_factors_children(
    s: Seq<FactorBodyWork>,
    k: int,
    actions: Seq<Option<CacheAction>>,
    o: int,
)
    requires
        0 <= k < s.len(),
        ends_fit(schedule::all_occurrences(plan::factors_children(s)), actions, o),
    ensures
        ends_fit(schedule::all_occurrences(plan::factors_children(s.take(k + 1))), actions, o),
    decreases s.len() - k,
{
    if k + 1 == s.len() {
        assert(s.take(k + 1) =~= s);
    } else {
        lemma_take_ends_factors_children(s, k + 1, actions, o);
        plan::lemma_children_take_factors(s, k + 1);
        schedule::lemma_plan_sizes_add(
            plan::factors_children(s.take(k + 1)),
            plan::factor_children(s[k + 1]),
        );
        lemma_ends_split(
            schedule::all_occurrences(plan::factors_children(s.take(k + 1))),
            schedule::all_occurrences(plan::factor_children(s[k + 1])),
            actions,
            o,
        );
    }
}

proof fn lemma_take_ends_works_children(
    s: Seq<DistributionWork>,
    k: int,
    actions: Seq<Option<CacheAction>>,
    o: int,
)
    requires
        0 <= k < s.len(),
        ends_fit(schedule::all_occurrences(plan::works_children(s)), actions, o),
    ensures
        ends_fit(schedule::all_occurrences(plan::works_children(s.take(k + 1))), actions, o),
    decreases s.len() - k,
{
    if k + 1 == s.len() {
        assert(s.take(k + 1) =~= s);
    } else {
        lemma_take_ends_works_children(s, k + 1, actions, o);
        plan::lemma_children_take_works(s, k + 1);
        schedule::lemma_plan_sizes_add(
            plan::works_children(s.take(k + 1)),
            plan::work_children(s[k + 1]),
        );
        lemma_ends_split(
            schedule::all_occurrences(plan::works_children(s.take(k + 1))),
            schedule::all_occurrences(plan::work_children(s[k + 1])),
            actions,
            o,
        );
    }
}

/// Rewrites a plan, of which the first occurrence is number `occurrence`, and counts
/// its occurrences.
pub fn apply_cache_actions(
    plan: EvaluationPlan,
    actions: &[Option<CacheAction>],
    occurrence: &mut usize,
) -> (r: EvaluationPlan)
    requires
        ends_fit(schedule::occurrences(plan.view()), actions@, *old(occurrence) as int),
    ensures
        r.view() == schedule::applied(plan.view(), actions@, *old(occurrence) as int),
        *final(occurrence) == *old(occurrence) + schedule::plan_size(plan.view()),
    decreases plan,
{
    let ghost whole = plan.view();
    let ghost o = *occurrence as int;
    let ghost kids = whole.children;
    proof {
        schedule::lemma_occurrences_len(whole);
        schedule::lemma_all_occurrences_len(kids);
        assert(schedule::occurrences(whole)[0] == whole);
        lemma_ends_split(seq![whole], schedule::all_occurrences(kids), actions@, o);
    }
    let action = actions[*occurrence];
    *occurrence = *occurrence + 1;
    if let Some(action) = action {
        if !action.store {
            *occurrence = action.end;
            return EvaluationPlan::CacheLoad { slot: action.slot };
        }
    }
    let inner: EvaluationPlan = match plan {
        EvaluationPlan::Add(lhs, rhs) => {
            proof {
                lemma_ends_pair(lhs.view(), rhs.view(), actions@, o + 1);
            }
            let a = apply_cache_actions(*lhs, actions, occurrence);
            let b = apply_cache_actions(*rhs, actions, occurrence);
            EvaluationPlan::Add(Box::new(a), Box::new(b))
        },
        EvaluationPlan::Mul(lhs, rhs) => {
            proof {
                lemma_ends_pair(lhs.view(), rhs.view(), actions@, o + 1);
            }
            let a = apply_cache_actions(*lhs, actions, occurrence);
            let b = apply_cache_actions(*rhs, actions, occurrence);
            EvaluationPlan::Mul(Box::new(a), Box::new(b))
        },
        EvaluationPlan::Square(inner) => {
            proof {
                lemma_ends_one(inner.view(), actions@, o + 1);
            }
            let a = apply_cache_actions(*inner, actions, occurrence);
            EvaluationPlan::Square(Box::new(a))
        },
        EvaluationPlan::Scale(inner, scalar) => {
            proof {
                lemma_ends_one(inner.view(), actions@, o + 1);
            }
            let a = apply_cache_actions(*inner, actions, occurrence);
            EvaluationPlan::Scale(Box::new(a), scalar)
        },
        EvaluationPlan::Horner { base, coefficients } => {
            proof {
                lemma_ends_one(base.view(), actions@, o + 1);
            }
            let a = apply_cache_actions(*base, actions, occurrence);
            EvaluationPlan::Horner { base: Box::new(a), coefficients }
        },
        EvaluationPlan::DistributePowers { work, base } => {
            let work = apply_works(work, actions, occurrence);
            EvaluationPlan::DistributePowers { work, base }
        },
        EvaluationPlan::CacheStore { slot, inner } => {
            proof {
                lemma_ends_one(inner.view(), actions@, o + 1);
            }
            let a = apply_cache_actions(*inner, actions, occurrence);
            EvaluationPlan::CacheStore { slot, inner: Box::new(a) }
        },
        EvaluationPlan::Poly(leaf) => EvaluationPlan::Poly(leaf),
        EvaluationPlan::LinearTerm(scalar) => EvaluationPlan::LinearTerm(scalar),
        EvaluationPlan::ConstantTerm(scalar) => EvaluationPlan::ConstantTerm(scalar),
        EvaluationPlan::CacheLoad { slot } => EvaluationPlan::CacheLoad { slot },
    };
    proof {
        schedule::lemma_all_applied_one(whole, actions@, o + 1);
        assert(inner.view() == (PlanView {
            op: whole.op,
            children: schedule::all_applied(kids, actions@, o + 1),
        }));
    }
    match action {
        Some(action) => EvaluationPlan::CacheStore { slot: action.slot, inner: Box::new(inner) },
        None => inner,
    }
}

proof fn lemma_ends_pair(a: PlanView, b: PlanView, actions: Seq<Option<CacheAction>>, o: int)
    requires
        ends_fit(schedule::all_occurrences(seq![a, b]), actions, o),
    ensures
        ends_fit(schedule::occurrences(a), actions, o),
        ends_fit(schedule::occurrences(b), actions, o + schedule::plan_size(a)),
        schedule::all_applied(seq![a, b], actions, o) == seq![
            schedule::applied(a, actions, o),
            schedule::applied(b, actions, o + schedule::plan_size(a)),
        ],
        schedule::plan_sizes(seq![a, b]) == schedule::plan_size(a) + schedule::plan_size(b),
{
    lemma_ends_one(a, actions, o);
    lemma_ends_one(b, actions, o + schedule::plan_size(a));
    assert(seq![a, b] =~= seq![a] + seq![b]);
    lemma_ends_children(seq![a], seq![b], actions, o);
    assert(schedule::all_applied(seq![a, b], actions, o) =~= seq![
        schedule::applied(a, actions, o),
        schedule::applied(b, actions, o + schedule::plan_size(a)),
    ]);
}

fn apply_plans(list: Vec<EvaluationPlan>, actions: &[Option<CacheAction>], occurrence: &mut usize) -> (r: Vec<
    EvaluationPlan,
>)
    requires
        ends_fit(schedule::all_occurrences(plan::plan_views(list@)), actions@, *old(occurrence) as int),
    ensures
        plan::plan_views(r@) == schedule::all_applied(plan::plan_views(list@), actions@, *old(occurrence) as int),
        r@.len() == list@.len(),
        
        *final(occurrence) == *old(occurrence) + schedule::plan_sizes(plan::plan_views(list@)),
    decreases list,
{
    let ghost all = list@;
    let ghost whole = list;
    let ghost o = *occurrence as int;
    let mut rest = reversed(list);
    let mut r: Vec<EvaluationPlan> = Vec::with_capacity(rest.len());
    proof {
        assert(all.take(0) =~= Seq::<EvaluationPlan>::empty());
        schedule::lemma_all_applied_len(Seq::<PlanView>::empty(), actions@, o);
        assert(plan::plan_views(r@) =~= schedule::all_applied(plan::plan_views(all.take(0)), actions@, o));
        
    }
    while rest.len() > 0
        invariant
            r@.len() + rest@.len() == all.len(),
            forall|k: int| 0 <= k < rest@.len() ==> #[trigger] rest@[k] == all[all.len() - 1 - k],
            ends_fit(schedule::all_occurrences(plan::plan_views(all)), actions@, o),
            plan::plan_views(r@) == schedule::all_applied(
                plan::plan_views(all.take(r@.len() as int)),
                actions@,
                o,
            ),
            
            *occurrence == o + schedule::plan_sizes(plan::plan_views(all.take(r@.len() as int))),
            all == whole@,
            whole == list,
            decreases_to!(whole => whole@),
        decreases rest@.len(),
    {
        let ghost i = r@.len() as int;
        if let Some(x) = rest.pop() {
            proof {
                assert(x == whole@[i]);
                assert(decreases_to!(whole => whole@[i]));
                lemma_take_ends_plan_views(all, i, actions@, o);
                plan::lemma_children_take_plans(all, i);
                lemma_ends_children(
                    plan::plan_views(all.take(i)),
                    seq![all[i].view()],
                    actions@,
                    o,
                );
            }
            proof {
                lemma_ends_one(x.view(), actions@, *occurrence as int);
            }
            let y = apply_cache_actions(x, actions, occurrence);
            let ghost old_r = r@;
            r.push(y);
            proof {
                assert(r@.drop_last() =~= old_r);
                assert(plan::plan_views(r@) =~= plan::plan_views(old_r) + seq![y.view()]);
            }
        }
    }
    assert(all.take(r@.len() as int) =~= all);
    r
}

fn apply_terms(list: Vec<WeightedTerm>, actions: &[Option<CacheAction>], occurrence: &mut usize) -> (r: Vec<
    WeightedTerm,
>)
    requires
        ends_fit(schedule::all_occurrences(plan::term_views(list@)), actions@, *old(occurrence) as int),
    ensures
        plan::term_views(r@) == schedule::all_applied(plan::term_views(list@), actions@, *old(occurrence) as int),
        r@.len() == list@.len(),
        plan::term_powers(r@) == plan::term_powers(list@),
        *final(occurrence) == *old(occurrence) + schedule::plan_sizes(plan::term_views(list@)),
    decreases list,
{
    let ghost all = list@;
    let ghost whole = list;
    let ghost o = *occurrence as int;
    let mut rest = reversed(list);
    let mut r: Vec<WeightedTerm> = Vec::with_capacity(rest.len());
    proof {
        assert(all.take(0) =~= Seq::<WeightedTerm>::empty());
        schedule::lemma_all_applied_len(Seq::<PlanView>::empty(), actions@, o);
        assert(plan::term_views(r@) =~= schedule::all_applied(plan::term_views(all.take(0)), actions@, o));
        assert(plan::term_powers(r@) =~= plan::term_powers(all.take(0)));
    }
    while rest.len() > 0
        invariant
            r@.len() + rest@.len() == all.len(),
            forall|k: int| 0 <= k < rest@.len() ==> #[trigger] rest@[k] == all[all.len() - 1 - k],
            ends_fit(schedule::all_occurrences(plan::term_views(all)), actions@, o),
            plan::term_views(r@) == schedule::all_applied(
                plan::term_views(all.take(r@.len() as int)),
                actions@,
                o,
            ),
            plan::term_powers(r@) == plan::term_powers(all.take(r@.len() as int)),
            *occurrence == o + schedule::plan_sizes(plan::term_views(all.take(r@.len() as int))),
            all == whole@,
            whole == list,
            decreases_to!(whole => whole@),
        decreases rest@.len(),
    {
        let ghost i = r@.len() as int;
        if let Some(x) = rest.pop() {
            proof {
                assert(x == whole@[i]);
                assert(decreases_to!(whole => whole@[i]));
                lemma_take_ends_term_views(all, i, actions@, o);
                plan::lemma_children_take_terms(all, i);
                lemma_ends_children(
                    plan::term_views(all.take(i)),
                    seq![all[i].term.view()],
                    actions@,
                    o,
                );
            }
            proof {
                lemma_ends_one(x.term.view(), actions@, *occurrence as int);
            }
            let WeightedTerm { term, power } = x;
            let y = apply_cache_actions(term, actions, occurrence);
            let ghost old_r = r@;
            r.push(WeightedTerm { term: y, power });
            proof {
                assert(r@.drop_last() =~= old_r);
                assert(plan::term_views(r@) =~= plan::term_views(old_r) + seq![y.view()]);
                assert(plan::term_powers(r@) =~= plan::term_powers(all.take(i + 1)));
            }
        }
    }
    assert(all.take(r@.len() as int) =~= all);
    r
}

fn apply_factors(list: Vec<FactorBodyWork>, actions: &[Option<CacheAction>], occurrence: &mut usize) -> (r: Vec<
    FactorBodyWork,
>)
    requires
        ends_fit(schedule::all_occurrences(plan::factors_children(list@)), actions@, *old(occurrence) as int),
    ensures
        plan::factors_children(r@) == schedule::all_applied(plan::factors_children(list@), actions@, *old(occurrence) as int),
        r@.len() == list@.len(),
        plan::factor_shapes(r@) == plan::factor_shapes(list@),
        *final(occurrence) == *old(occurrence) + schedule::plan_sizes(plan::factors_children(list@)),
    decreases list,
{
    let ghost all = list@;
    let ghost whole = list;
    let ghost o = *occurrence as int;
    let mut rest = reversed(list);
    let mut r: Vec<FactorBodyWork> = Vec::with_capacity(rest.len());
    proof {
        assert(all.take(0) =~= Seq::<FactorBodyWork>::empty());
        schedule::lemma_all_applied_len(Seq::<PlanView>::empty(), actions@, o);
        assert(plan::factors_children(r@) =~= schedule::all_applied(plan::factors_children(all.take(0)), actions@, o));
        assert(plan::factor_shapes(r@) =~= plan::factor_shapes(all.take(0)));
    }
    while rest.len() > 0
        invariant
            r@.len() + rest@.len() == all.len(),
            forall|k: int| 0 <= k < rest@.len() ==> #[trigger] rest@[k] == all[all.len() - 1 - k],
            ends_fit(schedule::all_occurrences(plan::factors_children(all)), actions@, o),
            plan::factors_children(r@) == schedule::all_applied(
                plan::factors_children(all.take(r@.len() as int)),
                actions@,
                o,
            ),
            plan::factor_shapes(r@) == plan::factor_shapes(all.take(r@.len() as int)),
            *occurrence == o + schedule::plan_sizes(plan::factors_children(all.take(r@.len() as int))),
            all == whole@,
            whole == list,
            decreases_to!(whole => whole@),
        decreases rest@.len(),
    {
        let ghost i = r@.len() as int;
        if let Some(x) = rest.pop() {
            proof {
                assert(x == whole@[i]);
                assert(decreases_to!(whole => whole@[i]));
                lemma_take_ends_factors_children(all, i, actions@, o);
                plan::lemma_children_take_factors(all, i);
                lemma_ends_children(
                    plan::factors_children(all.take(i)),
                    plan::factor_children(all[i]),
                    actions@,
                    o,
                );
            }
            let y = apply_factor(x, actions, occurrence);
            proof {
                plan::lemma_factors_push(r@, y);
                assert(r@.push(y).drop_last() =~= r@);
            }
            r.push(y);
        }
    }
    assert(all.take(r@.len() as int) =~= all);
    r
}

fn apply_works(list: Vec<DistributionWork>, actions: &[Option<CacheAction>], occurrence: &mut usize) -> (r: Vec<
    DistributionWork,
>)
    requires
        ends_fit(schedule::all_occurrences(plan::works_children(list@)), actions@, *old(occurrence) as int),
    ensures
        plan::works_children(r@) == schedule::all_applied(plan::works_children(list@), actions@, *old(occurrence) as int),
        r@.len() == list@.len(),
        plan::work_shapes(r@) == plan::work_shapes(list@),
        *final(occurrence) == *old(occurrence) + schedule::plan_sizes(plan::works_children(list@)),
    decreases list,
{
    let ghost all = list@;
    let ghost whole = list;
    let ghost o = *occurrence as int;
    let mut rest = reversed(list);
    let mut r: Vec<DistributionWork> = Vec::with_capacity(rest.len());
    proof {
        assert(all.take(0) =~= Seq::<DistributionWork>::empty());
        schedule::lemma_all_applied_len(Seq::<PlanView>::empty(), actions@, o);
        assert(plan::works_children(r@) =~= schedule::all_applied(plan::works_children(all.take(0)), actions@, o));
        assert(plan::work_shapes(r@) =~= plan::work_shapes(all.take(0)));
    }
    while rest.len() > 0
        invariant
            r@.len() + rest@.len() == all.len(),
            forall|k: int| 0 <= k < rest@.len() ==> #[trigger] rest@[k] == all[all.len() - 1 - k],
            ends_fit(schedule::all_occurrences(plan::works_children(all)), actions@, o),
            plan::works_children(r@) == schedule::all_applied(
                plan::works_children(all.take(r@.len() as int)),
                actions@,
                o,
            ),
            plan::work_shapes(r@) == plan::work_shapes(all.take(r@.len() as int)),
            *occurrence == o + schedule::plan_sizes(plan::works_children(all.take(r@.len() as int))),
            all == whole@,
            whole == list,
            decreases_to!(whole => whole@),
        decreases rest@.len(),
    {
        let ghost i = r@.len() as int;
        if let Some(x) = rest.pop() {
            proof {
                assert(x == whole@[i]);
                assert(decreases_to!(whole => whole@[i]));
                lemma_take_ends_works_children(all, i, actions@, o);
                plan::lemma_children_take_works(all, i);
                lemma_ends_children(
                    plan::works_children(all.take(i)),
                    plan::work_children(all[i]),
                    actions@,
                    o,
                );
            }
            let y = apply_work(x, actions, occurrence);
            proof {
                plan::lemma_works_push(r@, y);
                assert(r@.push(y).drop_last() =~= r@);
            }
            r.push(y);
        }
    }
    assert(all.take(r@.len() as int) =~= all);
    r
}

fn apply_factor(work: FactorBodyWork, actions: &[Option<CacheAction>], occurrence: &mut usize) -> (r: FactorBodyWork)
    requires
        ends_fit(schedule::all_occurrences(plan::factor_children(work)), actions@, *old(occurrence) as int),
    ensures
        plan::factor_children(r) == schedule::all_applied(plan::factor_children(work), actions@, *old(occurrence) as int),
        r.shape() == work.shape(),
        *final(occurrence) == *old(occurrence) + schedule::plan_sizes(plan::factor_children(work)),
    decreases work,
{
    let ghost o = *occurrence as int;
    match work {
        FactorBodyWork::Term(term) => {
            let WeightedTerm { term, power } = term;
            proof {
                lemma_ends_one(term.view(), actions@, o);
            }
            let y = apply_cache_actions(term, actions, occurrence);
            FactorBodyWork::Term(WeightedTerm { term: y, power })
        },
        FactorBodyWork::SharedFactor { factor, terms } => {
            proof {
                lemma_ends_one(factor.view(), actions@, o);
                lemma_ends_children(seq![factor.view()], plan::term_views(terms@), actions@, o);
            }
            let factor = apply_cache_actions(factor, actions, occurrence);
            let terms = apply_terms(terms, actions, occurrence);
            FactorBodyWork::SharedFactor { factor, terms }
        },
    }
}

fn apply_factor_body_cache_actions(work: FactorBodyPlan, actions: &[Option<CacheAction>], occurrence: &mut usize) -> (r: FactorBodyPlan)
    requires
        ends_fit(schedule::all_occurrences(plan::body_children(work)), actions@, *old(occurrence) as int),
    ensures
        plan::body_children(r) == schedule::all_applied(plan::body_children(work), actions@, *old(occurrence) as int),
        r.shape() == work.shape(),
        *final(occurrence) == *old(occurrence) + schedule::plan_sizes(plan::body_children(work)),
    decreases work,
{
    let ghost o = *occurrence as int;
    match work {
        FactorBodyPlan::Sequential(bodies) => {
            let bodies = apply_plans(bodies, actions, occurrence);
            FactorBodyPlan::Sequential(bodies)
        },
        FactorBodyPlan::Factored(work) => {
            let work = apply_factors(work, actions, occurrence);
            FactorBodyPlan::Factored(work)
        },
    }
}

fn apply_work(work: DistributionWork, actions: &[Option<CacheAction>], occurrence: &mut usize) -> (r: DistributionWork)
    requires
        ends_fit(schedule::all_occurrences(plan::work_children(work)), actions@, *old(occurrence) as int),
    ensures
        plan::work_children(r) == schedule::all_applied(plan::work_children(work), actions@, *old(occurrence) as int),
        r.shape() == work.shape(),
        *final(occurrence) == *old(occurrence) + schedule::plan_sizes(plan::work_children(work)),
    decreases work,
{
    let ghost o = *occurrence as int;
    match work {
        DistributionWork::Term { term, power } => {
            proof {
                lemma_ends_one(term.view(), actions@, o);
            }
            let term = apply_cache_actions(term, actions, occurrence);
            DistributionWork::Term { term, power }
        },
        DistributionWork::WeightedSharedFactor { factor, terms } => {
            proof {
                lemma_ends_one(factor.view(), actions@, o);
                lemma_ends_children(seq![factor.view()], plan::term_views(terms@), actions@, o);
            }
            let factor = apply_cache_actions(factor, actions, occurrence);
            let terms = apply_terms(terms, actions, occurrence);
            DistributionWork::WeightedSharedFactor { factor, terms }
        },
        DistributionWork::SelectorFamily { query, runs } => {
            let runs = apply_runs(runs, actions, occurrence);
            DistributionWork::SelectorFamily { query, runs }
        },
    }
}

proof fn lemma_runs_prepend(run: SelectorFamilyRun, s: Seq<SelectorFamilyRun>)
    ensures
        plan::runs_children(seq![run] + s) == plan::runs_children(s) + plan::body_children(run.bodies),
    decreases s.len(),
{
    let t = seq![run] + s;
    if s.len() == 0 {
        assert(t.drop_last() =~= Seq::<SelectorFamilyRun>::empty());
        assert(plan::runs_children(t.drop_last()) =~= Seq::<PlanView>::empty());
        assert(plan::runs_children(t) =~= plan::body_children(run.bodies));
        assert(plan::runs_children(s) + plan::body_children(run.bodies) =~= plan::body_children(run.bodies));
    } else {
        assert(t.drop_last() =~= seq![run] + s.drop_last());
        lemma_runs_prepend(run, s.drop_last());
        assert(t.last() == s.last());
        assert(plan::runs_children(t) =~= plan::runs_children(s) + plan::body_children(run.bodies));
    }
}

proof fn lemma_run_before(
    all: Seq<SelectorFamilyRun>,
    i: int,
    done: Seq<PlanView>,
    actions: Seq<Option<CacheAction>>,
    o: int,
)
    requires
        0 <= i < all.len(),
        plan::runs_children(all) == done + plan::runs_children(all.take(i + 1)),
        ends_fit(schedule::all_occurrences(plan::runs_children(all)), actions, o),
    ensures
        ({
            let kids = plan::body_children(all[i].bodies);
            &&& ends_fit(schedule::all_occurrences(kids), actions, o + schedule::plan_sizes(done))
            &&& plan::runs_children(all) == (done + kids) + plan::runs_children(all.take(i))
            &&& schedule::all_applied(done + kids, actions, o) == schedule::all_applied(done, actions, o)
                + schedule::all_applied(kids, actions, o + schedule::plan_sizes(done))
            &&& schedule::plan_sizes(done + kids) == schedule::plan_sizes(done) + schedule::plan_sizes(kids)
        }),
{
    let kids = plan::body_children(all[i].bodies);
    let more = plan::runs_children(all.take(i));
    plan::lemma_children_take_runs(all, i);
    assert(done + (kids + more) =~= (done + kids) + more);
    lemma_ends_children(done + kids, more, actions, o);
    lemma_ends_children(done, kids, actions, o);
}

proof fn lemma_run_after(y: SelectorFamilyRun, out: Seq<SelectorFamilyRun>)
    ensures
        plan::runs_children(out.push(y).reverse()) == plan::runs_children(out.reverse()) + plan::body_children(
            y.bodies,
        ),
{
    lemma_runs_prepend(y, out.reverse());
    assert(out.push(y).reverse() =~= seq![y] + out.reverse());
}

/// The runs of a family are visited from the last to the first.
fn apply_runs(
    list: Vec<SelectorFamilyRun>,
    actions: &[Option<CacheAction>],
    occurrence: &mut usize,
) -> (r: Vec<SelectorFamilyRun>)
    requires
        ends_fit(schedule::all_occurrences(plan::runs_children(list@)), actions@, *old(occurrence) as int),
    ensures
        plan::runs_children(r@) == schedule::all_applied(
            plan::runs_children(list@),
            actions@,
            *old(occurrence) as int,
        ),
        plan::run_shapes(r@) == plan::run_shapes(list@),
        *final(occurrence) == *old(occurrence) + schedule::plan_sizes(plan::runs_children(list@)),
    decreases list,
{
    let ghost all = list@;
    let ghost whole = list;
    let ghost o = *occurrence as int;
    let ghost mut done: Seq<PlanView> = Seq::empty();
    let mut rest = list;
    let mut out: Vec<SelectorFamilyRun> = Vec::with_capacity(rest.len());
    proof {
        assert(all.take(all.len() as int) =~= all);
        assert(done + plan::runs_children(all) =~= plan::runs_children(all));
        schedule::lemma_all_applied_len(done, actions@, o);
        assert(schedule::all_applied(done, actions@, o) =~= Seq::<PlanView>::empty());
        assert(out@.reverse() =~= Seq::<SelectorFamilyRun>::empty());
    }
    while rest.len() > 0
        invariant
            out@.len() + rest@.len() == all.len(),
            rest@ == all.take(rest@.len() as int),
            plan::runs_children(all) == done + plan::runs_children(rest@),
            ends_fit(schedule::all_occurrences(plan::runs_children(all)), actions@, o),
            plan::runs_children(out@.reverse()) == schedule::all_applied(done, actions@, o),
            forall|k: int|
                #![trigger out@[k]]
                0 <= k < out@.len() ==> out@[k].power == all[all.len() - 1 - k].power
                    && out@[k].bodies.shape() == all[all.len() - 1 - k].bodies.shape(),
            *occurrence == o + schedule::plan_sizes(done),
            all == whole@,
            whole == list,
            decreases_to!(whole => whole@),
        decreases rest@.len(),
    {
        let ghost before = rest@;
        if let Some(x) = rest.pop() {
            let ghost i = rest@.len() as int;
            proof {
                assert(rest@ =~= all.take(i));
                assert(x == whole@[i]);
                assert(decreases_to!(whole => whole@[i]));
                lemma_run_before(all, i, done, actions@, o);
            }
            let SelectorFamilyRun { bodies, power } = x;
            let bodies = apply_factor_body_cache_actions(bodies, actions, occurrence);
            let y = SelectorFamilyRun { bodies, power };
            let ghost old_out = out@;
            out.push(y);
            proof {
                lemma_run_after(y, old_out);
                done = done + plan::body_children(all[i].bodies);
            }
        }
    }
    proof {
        assert(rest@ =~= Seq::<SelectorFamilyRun>::empty());
        assert(done + plan::runs_children(rest@) =~= done);
        let r = out@.reverse();
        assert forall|k: int| 0 <= k < r.len() implies #[trigger] plan::run_shapes(r)[k] == plan::run_shapes(
            all,
        )[k] by {
            assert(r[k] == out@[out@.len() - 1 - k]);
        }
        assert(plan::run_shapes(r) =~= plan::run_shapes(all));
    }
    reversed(out)
}

} // verus!
