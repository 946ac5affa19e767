//! How many chunk-sized buffers the evaluation of a plan needs.
use crate::ast::IndexedLeaf;
use crate::plan;
use crate::plan::{
    DistributionWork, EvaluationPlan, FactorBodyPlan, FactorBodyWork, PlanView, SelectorFamilyRun,
    WeightedTerm,
};
use crate::schedule;
use vstd::prelude::*;

verus! {

pub open spec fn larger(a: nat, b: nat) -> nat {
    if a >= b {
        a
    } else {
        b
    }
}

fn max(a: usize, b: usize) -> (r: usize)
    ensures
        r == larger(a as nat, b as nat),
{
    if a >= b {
        a
    } else {
        b
    }
}

impl EvaluationPlan {
    /// The number of buffers, beside the output, for the evaluation of a plan.
    pub open spec fn scratch(&self) -> nat
        decreases self,
    {
        match *self {
            EvaluationPlan::Add(lhs, rhs) => larger(lhs.scratch(), 1 + rhs.scratch()),
            EvaluationPlan::Mul(lhs, rhs) => larger(lhs.scratch(), 1 + rhs.scratch()),
            EvaluationPlan::Square(inner) => inner.scratch(),
            EvaluationPlan::Scale(inner, _) => inner.scratch(),
            EvaluationPlan::Horner { base, coefficients } => 1 + larger(base.scratch(), 1),
            EvaluationPlan::DistributePowers { work, base } => works_scratch(work@),
            EvaluationPlan::CacheStore { slot, inner } => inner.scratch(),
            _ => 0,
        }
    }
}

pub open spec fn plans_scratch(s: Seq<EvaluationPlan>) -> nat
    decreases s,
{
    if s.len() == 0 {
        0
    } else {
        larger(plans_scratch(s.drop_last()), s.last().scratch())
    }
}

pub open spec fn terms_scratch(s: Seq<WeightedTerm>) -> nat
    decreases s,
{
    if s.len() == 0 {
        0
    } else {
        larger(terms_scratch(s.drop_last()), s.last().term.scratch())
    }
}

pub open spec fn factor_scratch(w: FactorBodyWork) -> nat
    decreases w,
{
    match w {
        FactorBodyWork::Term(term) => term.term.scratch(),
        FactorBodyWork::SharedFactor { factor, terms } => larger(
            factor.scratch(),
            terms_scratch(terms@),
        ),
    }
}

pub open spec fn factors_scratch(s: Seq<FactorBodyWork>) -> nat
    decreases s,
{
    if s.len() == 0 {
        0
    } else {
        larger(factors_scratch(s.drop_last()), factor_scratch(s.last()))
    }
}

pub open spec fn body_scratch(b: FactorBodyPlan) -> nat
    decreases b,
{
    match b {
        FactorBodyPlan::Sequential(bodies) => 1 + plans_scratch(bodies@),
        FactorBodyPlan::Factored(work) => factors_scratch(work@),
    }
}

pub open spec fn runs_scratch(s: Seq<SelectorFamilyRun>) -> nat
    decreases s,
{
    if s.len() == 0 {
        0
    } else {
        larger(runs_scratch(s.drop_last()), body_scratch(s.last().bodies))
    }
}

pub open spec fn work_scratch(w: DistributionWork) -> nat
    decreases w,
{
    match w {
        DistributionWork::Term { term, power } => term.scratch(),
        DistributionWork::WeightedSharedFactor { factor, terms } => larger(
            factor.scratch(),
            terms_scratch(terms@),
        ),
        DistributionWork::SelectorFamily { query, runs } => runs@.len() + 1 + runs_scratch(runs@),
    }
}

pub open spec fn works_scratch(s: Seq<DistributionWork>) -> nat
    decreases s,
{
    if s.len() == 0 {
        0
    } else {
        larger(works_scratch(s.drop_last()), work_scratch(s.last()))
    }
}

pub proof fn lemma_plans_scratch(s: Seq<EvaluationPlan>, k: int)
    requires
        0 <= k < s.len(),
    ensures
        plans_scratch(s.take(k + 1)) == larger(plans_scratch(s.take(k)), s[k].scratch()),
        plans_scratch(s.take(k + 1)) <= plans_scratch(s),
        s[k].scratch() <= plans_scratch(s),
    decreases s.len() - k,
{
    assert(s.take(k + 1).drop_last() =~= s.take(k));
    if k + 1 < s.len() {
        lemma_plans_scratch(s, k + 1);
    } else {
        assert(s.take(k + 1) =~= s);
    }
}

fn required_plans(list: &Vec<EvaluationPlan>) -> (r: usize)
    requires
        plans_scratch(list@) <= usize::MAX,
    ensures
        r == plans_scratch(list@),
    decreases list,
{
    let mut r: usize = 0;
    let mut i: usize = 0;
    assert(list@.take(0) =~= Seq::<EvaluationPlan>::empty());
    while i < list.len()
        invariant
            i <= list@.len(),
            plans_scratch(list@) <= usize::MAX,
            r == plans_scratch(list@.take(i as int)),
            decreases_to!(*list => list@),
        decreases list@.len() - i,
    {
        proof {
            lemma_plans_scratch(list@, i as int);
        }
        r = max(r, list[i].required_scratch_slots());
        i += 1;
    }
    assert(list@.take(i as int) =~= list@);
    r
}

pub proof fn lemma_terms_scratch(s: Seq<WeightedTerm>, k: int)
    requires
        0 <= k < s.len(),
    ensures
        terms_scratch(s.take(k + 1)) == larger(terms_scratch(s.take(k)), s[k].term.scratch()),
        terms_scratch(s.take(k + 1)) <= terms_scratch(s),
        s[k].term.scratch() <= terms_scratch(s),
    decreases s.len() - k,
{
    assert(s.take(k + 1).drop_last() =~= s.take(k));
    if k + 1 < s.len() {
        lemma_terms_scratch(s, k + 1);
    } else {
        assert(s.take(k + 1) =~= s);
    }
}

fn required_terms(list: &Vec<WeightedTerm>) -> (r: usize)
    requires
        terms_scratch(list@) <= usize::MAX,
    ensures
        r == terms_scratch(list@),
    decreases list,
{
    let mut r: usize = 0;
    let mut i: usize = 0;
    assert(list@.take(0) =~= Seq::<WeightedTerm>::empty());
    while i < list.len()
        invariant
            i <= list@.len(),
            terms_scratch(list@) <= usize::MAX,
            r == terms_scratch(list@.take(i as int)),
            decreases_to!(*list => list@),
        decreases list@.len() - i,
    {
        proof {
            lemma_terms_scratch(list@, i as int);
        }
        r = max(r, list[i].term.required_scratch_slots());
        i += 1;
    }
    assert(list@.take(i as int) =~= list@);
    r
}

pub proof fn lemma_factors_scratch(s: Seq<FactorBodyWork>, k: int)
    requires
        0 <= k < s.len(),
    ensures
        factors_scratch(s.take(k + 1)) == larger(factors_scratch(s.take(k)), factor_scratch(s[k])),
        factors_scratch(s.take(k + 1)) <= factors_scratch(s),
        factor_scratch(s[k]) <= factors_scratch(s),
    decreases s.len() - k,
{
    assert(s.take(k + 1).drop_last() =~= s.take(k));
    if k + 1 < s.len() {
        lemma_factors_scratch(s, k + 1);
    } else {
        assert(s.take(k + 1) =~= s);
    }
}

fn required_factors(list: &Vec<FactorBodyWork>) -> (r: usize)
    requires
        factors_scratch(list@) <= usize::MAX,
    ensures
        r == factors_scratch(list@),
    decreases list,
{
    let mut r: usize = 0;
    let mut i: usize = 0;
    assert(list@.take(0) =~= Seq::<FactorBodyWork>::empty());
    while i < list.len()
        invariant
            i <= list@.len(),
            factors_scratch(list@) <= usize::MAX,
            r == factors_scratch(list@.take(i as int)),
            decreases_to!(*list => list@),
        decreases list@.len() - i,
    {
        proof {
            lemma_factors_scratch(list@, i as int);
        }
        r = max(r, list[i].required_scratch_slots());
        i += 1;
    }
    assert(list@.take(i as int) =~= list@);
    r
}

pub proof fn lemma_runs_scratch(s: Seq<SelectorFamilyRun>, k: int)
    requires
        0 <= k < s.len(),
    ensures
        runs_scratch(s.take(k + 1)) == larger(runs_scratch(s.take(k)), body_scratch(s[k].bodies)),
        runs_scratch(s.take(k + 1)) <= runs_scratch(s),
        body_scratch(s[k].bodies) <= runs_scratch(s),
    decreases s.len() - k,
{
    assert(s.take(k + 1).drop_last() =~= s.take(k));
    if k + 1 < s.len() {
        lemma_runs_scratch(s, k + 1);
    } else {
        assert(s.take(k + 1) =~= s);
    }
}

fn required_runs(list: &Vec<SelectorFamilyRun>) -> (r: usize)
    requires
        runs_scratch(list@) <= usize::MAX,
    ensures
        r == runs_scratch(list@),
    decreases list,
{
    let mut r: usize = 0;
    let mut i: usize = 0;
    assert(list@.take(0) =~= Seq::<SelectorFamilyRun>::empty());
    while i < list.len()
        invariant
            i <= list@.len(),
            runs_scratch(list@) <= usize::MAX,
            r == runs_scratch(list@.take(i as int)),
            decreases_to!(*list => list@),
        decreases list@.len() - i,
    {
        proof {
            lemma_runs_scratch(list@, i as int);
        }
        r = max(r, list[i].bodies.required_scratch_slots());
        i += 1;
    }
    assert(list@.take(i as int) =~= list@);
    r
}

pub proof fn lemma_works_scratch(s: Seq<DistributionWork>, k: int)
    requires
        0 <= k < s.len(),
    ensures
        works_scratch(s.take(k + 1)) == larger(works_scratch(s.take(k)), work_scratch(s[k])),
        works_scratch(s.take(k + 1)) <= works_scratch(s),
        work_scratch(s[k]) <= works_scratch(s),
    decreases s.len() - k,
{
    assert(s.take(k + 1).drop_last() =~= s.take(k));
    if k + 1 < s.len() {
        lemma_works_scratch(s, k + 1);
    } else {
        assert(s.take(k + 1) =~= s);
    }
}

fn required_works(list: &Vec<DistributionWork>) -> (r: usize)
    requires
        works_scratch(list@) <= usize::MAX,
    ensures
        r == works_scratch(list@),
    decreases list,
{
    let mut r: usize = 0;
    let mut i: usize = 0;
    assert(list@.take(0) =~= Seq::<DistributionWork>::empty());
    while i < list.len()
        invariant
            i <= list@.len(),
            works_scratch(list@) <= usize::MAX,
            r == works_scratch(list@.take(i as int)),
            decreases_to!(*list => list@),
        decreases list@.len() - i,
    {
        proof {
            lemma_works_scratch(list@, i as int);
        }
        r = max(r, list[i].required_scratch_slots());
        i += 1;
    }
    assert(list@.take(i as int) =~= list@);
    r
}

impl FactorBodyWork {
    pub fn required_scratch_slots(&self) -> (r: usize)
        requires
            factor_scratch(*self) <= usize::MAX,
        ensures
            r == factor_scratch(*self),
        decreases self,
    {
        match self {
            FactorBodyWork::Term(term) => term.term.required_scratch_slots(),
            FactorBodyWork::SharedFactor { factor, terms } => max(
                factor.required_scratch_slots(),
                required_terms(terms),
            ),
        }
    }
}

impl FactorBodyPlan {
    pub fn required_scratch_slots(&self) -> (r: usize)
        requires
            body_scratch(*self) <= usize::MAX,
        ensures
            r == body_scratch(*self),
        decreases self,
    {
        match self {
            FactorBodyPlan::Sequential(bodies) => 1 + required_plans(bodies),
            FactorBodyPlan::Factored(work) => required_factors(work),
        }
    }
}

impl DistributionWork {
    pub fn required_scratch_slots(&self) -> (r: usize)
        requires
            work_scratch(*self) <= usize::MAX,
        ensures
            r == work_scratch(*self),
        decreases self,
    {
        match self {
            DistributionWork::Term { term, power } => term.required_scratch_slots(),
            DistributionWork::WeightedSharedFactor { factor, terms } => max(
                factor.required_scratch_slots(),
                required_terms(terms),
            ),
            DistributionWork::SelectorFamily { query, runs } => runs.len() + 1 + required_runs(
                runs,
            ),
        }
    }
}

impl EvaluationPlan {
    /// The number of chunk-sized buffers, beside the output, that evaluation needs.
    pub fn required_scratch_slots(&self) -> (r: usize)
        requires
            self.scratch() <= usize::MAX,
        ensures
            r == self.scratch(),
        decreases self,
    {
        match self {
            EvaluationPlan::Add(lhs, rhs) => max(
                lhs.required_scratch_slots(),
                1 + rhs.required_scratch_slots(),
            ),
            EvaluationPlan::Mul(lhs, rhs) => max(
                lhs.required_scratch_slots(),
                1 + rhs.required_scratch_slots(),
            ),
            EvaluationPlan::Square(inner) => inner.required_scratch_slots(),
            EvaluationPlan::Scale(inner, scalar) => inner.required_scratch_slots(),
            EvaluationPlan::Horner { base, coefficients } => 1 + max(
                base.required_scratch_slots(),
                1,
            ),
            EvaluationPlan::DistributePowers { work, base } => required_works(work),
            EvaluationPlan::CacheStore { slot, inner } => inner.required_scratch_slots(),
            _ => 0,
        }
    }
}

proof fn lemma_plans_scratch_bound(s: Seq<EvaluationPlan>, n: int, polys: spec_fn(IndexedLeaf) -> bool, slots: int)
    requires
        plan::plans_in_bounds(plan::plan_views(s), n, polys, slots),
    ensures
        plans_scratch(s) <= 2 * schedule::plan_sizes(plan::plan_views(s)),
    decreases s,
{
    if s.len() > 0 {
        let kids = plan::plan_views(s);
        assert(kids.drop_last() =~= plan::plan_views(s.drop_last()));
        lemma_plans_scratch_bound(s.drop_last(), n, polys, slots);
        lemma_scratch_bound(s.last(), n, polys, slots);
    }
}

proof fn lemma_terms_scratch_bound(s: Seq<WeightedTerm>, n: int, polys: spec_fn(IndexedLeaf) -> bool, slots: int)
    requires
        plan::plans_in_bounds(plan::term_views(s), n, polys, slots),
    ensures
        terms_scratch(s) <= 2 * schedule::plan_sizes(plan::term_views(s)),
    decreases s,
{
    if s.len() > 0 {
        let kids = plan::term_views(s);
        assert(kids.drop_last() =~= plan::term_views(s.drop_last()));
        lemma_terms_scratch_bound(s.drop_last(), n, polys, slots);
        lemma_scratch_bound(s.last().term, n, polys, slots);
    }
}

proof fn lemma_split_bounds(
    a: Seq<PlanView>,
    b: Seq<PlanView>,
    n: int,
    polys: spec_fn(IndexedLeaf) -> bool,
    slots: int,
)
    ensures
        plan::plans_in_bounds(a + b, n, polys, slots) <==> plan::plans_in_bounds(a, n, polys, slots)
            && plan::plans_in_bounds(b, n, polys, slots),
        schedule::plan_sizes(a + b) == schedule::plan_sizes(a) + schedule::plan_sizes(b),
    decreases b.len(),
{
    schedule::lemma_plan_sizes_add(a, b);
    if b.len() == 0 {
        assert(a + b =~= a);
    } else {
        lemma_split_bounds(a, b.drop_last(), n, polys, slots);
        assert((a + b).drop_last() =~= a + b.drop_last());
    }
}

proof fn lemma_one_bound(a: PlanView, n: int, polys: spec_fn(IndexedLeaf) -> bool, slots: int)
    ensures
        plan::plans_in_bounds(seq![a], n, polys, slots) <==> plan::plan_in_bounds(a, n, polys, slots),
        schedule::plan_sizes(seq![a]) == schedule::plan_size(a),
{
    schedule::lemma_plan_sizes_one(a);
    assert(seq![a].drop_last() =~= Seq::<PlanView>::empty());
    assert(plan::plans_in_bounds(seq![a].drop_last(), n, polys, slots));
    assert(plan::plans_in_bounds(seq![a], n, polys, slots) <==> plan::plan_in_bounds(
        seq![a].last(),
        n,
        polys,
        slots,
    ));
}

proof fn lemma_factor_scratch_bound(
    w: FactorBodyWork,
    n: int,
    polys: spec_fn(IndexedLeaf) -> bool,
    slots: int,
)
    requires
        plan::plans_in_bounds(plan::factor_children(w), n, polys, slots),
    ensures
        factor_scratch(w) <= 2 * schedule::plan_sizes(plan::factor_children(w)),
        schedule::plan_sizes(plan::factor_children(w)) >= 1,
    decreases w,
{
    match w {
        FactorBodyWork::Term(term) => {
            lemma_one_bound(term.term.view(), n, polys, slots);
            lemma_scratch_bound(term.term, n, polys, slots);
        },
        FactorBodyWork::SharedFactor { factor, terms } => {
            lemma_one_bound(factor.view(), n, polys, slots);
            lemma_split_bounds(seq![factor.view()], plan::term_views(terms@), n, polys, slots);
            lemma_scratch_bound(factor, n, polys, slots);
            lemma_terms_scratch_bound(terms@, n, polys, slots);
        },
    }
}

proof fn lemma_factors_scratch_bound(
    s: Seq<FactorBodyWork>,
    n: int,
    polys: spec_fn(IndexedLeaf) -> bool,
    slots: int,
)
    requires
        plan::plans_in_bounds(plan::factors_children(s), n, polys, slots),
    ensures
        factors_scratch(s) <= 2 * schedule::plan_sizes(plan::factors_children(s)),
        s.len() > 0 ==> schedule::plan_sizes(plan::factors_children(s)) >= 1,
    decreases s,
{
    if s.len() > 0 {
        lemma_split_bounds(
            plan::factors_children(s.drop_last()),
            plan::factor_children(s.last()),
            n,
            polys,
            slots,
        );
        lemma_factors_scratch_bound(s.drop_last(), n, polys, slots);
        lemma_factor_scratch_bound(s.last(), n, polys, slots);
    }
}

proof fn lemma_body_scratch_bound(
    b: FactorBodyPlan,
    n: int,
    polys: spec_fn(IndexedLeaf) -> bool,
    slots: int,
)
    requires
        plan::plans_in_bounds(plan::body_children(b), n, polys, slots),
        plan::body_in_bounds(b.shape(), n),
    ensures
        body_scratch(b) <= 1 + 2 * schedule::plan_sizes(plan::body_children(b)),
        schedule::plan_sizes(plan::body_children(b)) >= 1,
    decreases b,
{
    match b {
        FactorBodyPlan::Sequential(bodies) => {
            lemma_plans_scratch_bound(bodies@, n, polys, slots);
            schedule::lemma_occurrences_len(bodies@.last().view());
        },
        FactorBodyPlan::Factored(work) => {
            lemma_factors_scratch_bound(work@, n, polys, slots);
        },
    }
}

proof fn lemma_runs_scratch_bound(
    s: Seq<SelectorFamilyRun>,
    n: int,
    polys: spec_fn(IndexedLeaf) -> bool,
    slots: int,
)
    requires
        plan::plans_in_bounds(plan::runs_children(s), n, polys, slots),
        forall|i: int| 0 <= i < s.len() ==> plan::body_in_bounds((#[trigger] s[i]).bodies.shape(), n),
    ensures
        s.len() > 0 ==> s.len() + runs_scratch(s) <= 2 + 2 * schedule::plan_sizes(plan::runs_children(s)),
        s.len() >= 2 ==> s.len() + runs_scratch(s) <= 1 + 2 * schedule::plan_sizes(plan::runs_children(s)),
        schedule::plan_sizes(plan::runs_children(s)) >= s.len(),
        s.len() == 0 ==> runs_scratch(s) == 0,
        s.len() > 0 ==> runs_scratch(s) <= 1 + 2 * (schedule::plan_sizes(plan::runs_children(s)) - (s.len() - 1)),
    decreases s,
{
    if s.len() > 0 {
        lemma_split_bounds(
            plan::body_children(s.last().bodies),
            plan::runs_children(s.drop_last()),
            n,
            polys,
            slots,
        );
        assert forall|i: int| 0 <= i < s.drop_last().len() implies plan::body_in_bounds(
            (#[trigger] s.drop_last()[i]).bodies.shape(),
            n,
        ) by {
            assert(s.drop_last()[i] == s[i]);
        }
        lemma_runs_scratch_bound(s.drop_last(), n, polys, slots);
        assert(plan::body_in_bounds(s[s.len() - 1].bodies.shape(), n));
        lemma_body_scratch_bound(s.last().bodies, n, polys, slots);
    }
}

proof fn lemma_work_scratch_bound(
    w: DistributionWork,
    n: int,
    polys: spec_fn(IndexedLeaf) -> bool,
    slots: int,
)
    requires
        plan::plans_in_bounds(plan::work_children(w), n, polys, slots),
        plan::work_in_bounds(w.shape(), n, polys),
    ensures
        work_scratch(w) <= 2 + 2 * schedule::plan_sizes(plan::work_children(w)),
    decreases w,
{
    match w {
        DistributionWork::Term { term, power } => {
            lemma_one_bound(term.view(), n, polys, slots);
            lemma_scratch_bound(term, n, polys, slots);
        },
        DistributionWork::WeightedSharedFactor { factor, terms } => {
            lemma_one_bound(factor.view(), n, polys, slots);
            lemma_split_bounds(seq![factor.view()], plan::term_views(terms@), n, polys, slots);
            lemma_scratch_bound(factor, n, polys, slots);
            lemma_terms_scratch_bound(terms@, n, polys, slots);
        },
        DistributionWork::SelectorFamily { query, runs } => {
            let shapes = plan::run_shapes(runs@);
            assert forall|i: int| 0 <= i < runs@.len() implies plan::body_in_bounds(
                (#[trigger] runs@[i]).bodies.shape(),
                n,
            ) by {
                assert(shapes[i].body == runs@[i].bodies.shape());
            }
            lemma_runs_scratch_bound(runs@, n, polys, slots);
        },
    }
}

proof fn lemma_works_scratch_bound(
    s: Seq<DistributionWork>,
    n: int,
    polys: spec_fn(IndexedLeaf) -> bool,
    slots: int,
)
    requires
        plan::plans_in_bounds(plan::works_children(s), n, polys, slots),
        forall|i: int| 0 <= i < s.len() ==> plan::work_in_bounds((#[trigger] s[i]).shape(), n, polys),
    ensures
        works_scratch(s) <= 2 + 2 * schedule::plan_sizes(plan::works_children(s)),
    decreases s,
{
    if s.len() > 0 {
        lemma_split_bounds(
            plan::works_children(s.drop_last()),
            plan::work_children(s.last()),
            n,
            polys,
            slots,
        );
        assert forall|i: int| 0 <= i < s.drop_last().len() implies plan::work_in_bounds(
            (#[trigger] s.drop_last()[i]).shape(),
            n,
            polys,
        ) by {
            assert(s.drop_last()[i] == s[i]);
        }
        lemma_works_scratch_bound(s.drop_last(), n, polys, slots);
        assert(plan::work_in_bounds(s[s.len() - 1].shape(), n, polys));
        lemma_work_scratch_bound(s.last(), n, polys, slots);
    }
}

/// Evaluation needs at most two buffers for each node of a plan.
pub proof fn lemma_scratch_bound(
    plan: EvaluationPlan,
    n: int,
    polys: spec_fn(IndexedLeaf) -> bool,
    slots: int,
)
    requires
        plan::plan_in_bounds(plan.view(), n, polys, slots),
    ensures
        plan.scratch() <= 2 * schedule::plan_size(plan.view()),
        schedule::plan_size(plan.view()) >= 1,
    decreases plan,
{
    schedule::lemma_occurrences_len(plan.view());
    match plan {
        EvaluationPlan::Add(lhs, rhs) => {
            lemma_pair_bound(lhs.view(), rhs.view(), n, polys, slots);
            lemma_scratch_bound(*lhs, n, polys, slots);
            lemma_scratch_bound(*rhs, n, polys, slots);
        },
        EvaluationPlan::Mul(lhs, rhs) => {
            lemma_pair_bound(lhs.view(), rhs.view(), n, polys, slots);
            lemma_scratch_bound(*lhs, n, polys, slots);
            lemma_scratch_bound(*rhs, n, polys, slots);
        },
        EvaluationPlan::Square(inner) => {
            lemma_one_bound(inner.view(), n, polys, slots);
            lemma_scratch_bound(*inner, n, polys, slots);
        },
        EvaluationPlan::Scale(inner, scalar) => {
            lemma_one_bound(inner.view(), n, polys, slots);
            lemma_scratch_bound(*inner, n, polys, slots);
        },
        EvaluationPlan::Horner { base, coefficients } => {
            lemma_one_bound(base.view(), n, polys, slots);
            lemma_scratch_bound(*base, n, polys, slots);
        },
        EvaluationPlan::DistributePowers { work, base } => {
            let shapes = plan::work_shapes(work@);
            assert forall|i: int| 0 <= i < work@.len() implies plan::work_in_bounds(
                (#[trigger] work@[i]).shape(),
                n,
                polys,
            ) by {
                let op = plan.view().op;
                assert(plan::op_in_bounds(op, n, polys, slots));
                assert(plan::work_in_bounds(op->Distribute_0[i], n, polys));
                assert(shapes[i] == work@[i].shape());
            }
            lemma_works_scratch_bound(work@, n, polys, slots);
        },
        EvaluationPlan::CacheStore { slot, inner } => {
            lemma_one_bound(inner.view(), n, polys, slots);
            lemma_scratch_bound(*inner, n, polys, slots);
        },
        _ => {},
    }
}

proof fn lemma_pair_bound(
    a: PlanView,
    b: PlanView,
    n: int,
    polys: spec_fn(IndexedLeaf) -> bool,
    slots: int,
)
    ensures
        plan::plans_in_bounds(seq![a, b], n, polys, slots) <==> plan::plan_in_bounds(a, n, polys, slots)
            && plan::plan_in_bounds(b, n, polys, slots),
        schedule::plan_sizes(seq![a, b]) == schedule::plan_size(a) + schedule::plan_size(b),
{
    lemma_one_bound(a, n, polys, slots);
    lemma_one_bound(b, n, polys, slots);
    lemma_split_bounds(seq![a], seq![b], n, polys, slots);
    assert(seq![a] + seq![b] =~= seq![a, b]);
}

} // verus!
