//! Evaluation plans: what an expression is compiled to, and what a plan computes at
//! one row.
use crate::arith;
use crate::ast::{IndexedLeaf, RowEnv};
use crate::scalars::ScalarId;
use vstd::prelude::*;

verus! {

/// A private evaluation plan compiled once before chunk evaluation. Structural
/// expression matching and challenge-power calculation happen only while constructing
/// this plan.
pub enum EvaluationPlan {
    Poly(IndexedLeaf),
    Add(Box<EvaluationPlan>, Box<EvaluationPlan>),
    Mul(Box<EvaluationPlan>, Box<EvaluationPlan>),
    Square(Box<EvaluationPlan>),
    Scale(Box<EvaluationPlan>, ScalarId),
    Horner { base: Box<EvaluationPlan>, coefficients: Vec<IndexedLeaf> },
    DistributePowers { work: Vec<DistributionWork>, base: ScalarId },
    CacheStore { slot: usize, inner: Box<EvaluationPlan> },
    CacheLoad { slot: usize },
    LinearTerm(ScalarId),
    ConstantTerm(ScalarId),
}

pub enum DistributionWork {
    Term { term: EvaluationPlan, power: ScalarId },
    WeightedSharedFactor { factor: EvaluationPlan, terms: Vec<WeightedTerm> },
    SelectorFamily { query: IndexedLeaf, runs: Vec<SelectorFamilyRun> },
}

pub struct SelectorFamilyRun {
    pub bodies: FactorBodyPlan,
    pub power: ScalarId,
}

pub enum FactorBodyPlan {
    Sequential(Vec<EvaluationPlan>),
    Factored(Vec<FactorBodyWork>),
}

pub enum FactorBodyWork {
    Term(WeightedTerm),
    SharedFactor { factor: EvaluationPlan, terms: Vec<WeightedTerm> },
}

pub struct WeightedTerm {
    pub term: EvaluationPlan,
    pub power: ScalarId,
}

/// The scalars of one piece of a factored body.
pub enum FactorShape {
    Term(int),
    Shared(Seq<int>),
}

/// How the bodies of one selector are combined.
pub enum BodyShape {
    Sequential(nat),
    Factored(Seq<FactorShape>),
}

pub struct RunShape {
    pub power: int,
    pub body: BodyShape,
}

/// How the plans of one piece of a distribution are combined.
pub enum WorkShape {
    Term(int),
    Shared(Seq<int>),
    Family(IndexedLeaf, Seq<RunShape>),
}

/// The operation at one node of a plan.
pub enum PlanOp {
    Poly(IndexedLeaf),
    Add,
    Mul,
    Square,
    Scale(int),
    Horner(Seq<IndexedLeaf>),
    Distribute(Seq<WorkShape>, int),
    Store(int),
    Load(int),
    LinearTerm(int),
    ConstantTerm(int),
}

/// A plan as a tree of operations, with the operands of each node in the order in
/// which they are evaluated.
pub struct PlanView {
    pub op: PlanOp,
    pub children: Seq<PlanView>,
}

/// The scalars that weight a sequence of terms.
pub open spec fn term_powers(s: Seq<WeightedTerm>) -> Seq<int> {
    Seq::new(s.len(), |i: int| s[i].power.at())
}

impl FactorBodyWork {
    pub open spec fn shape(&self) -> FactorShape {
        match *self {
            FactorBodyWork::Term(term) => FactorShape::Term(term.power.at()),
            FactorBodyWork::SharedFactor { factor, terms } => FactorShape::Shared(
                term_powers(terms@),
            ),
        }
    }
}

pub open spec fn factor_shapes(s: Seq<FactorBodyWork>) -> Seq<FactorShape> {
    Seq::new(s.len(), |i: int| s[i].shape())
}

impl FactorBodyPlan {
    pub open spec fn shape(&self) -> BodyShape {
        match *self {
            FactorBodyPlan::Sequential(bodies) => BodyShape::Sequential(bodies@.len()),
            FactorBodyPlan::Factored(work) => BodyShape::Factored(factor_shapes(work@)),
        }
    }
}

pub open spec fn run_shapes(s: Seq<SelectorFamilyRun>) -> Seq<RunShape> {
    Seq::new(s.len(), |i: int| RunShape { power: s[i].power.at(), body: s[i].bodies.shape() })
}

impl DistributionWork {
    pub open spec fn shape(&self) -> WorkShape {
        match *self {
            DistributionWork::Term { term, power } => WorkShape::Term(power.at()),
            DistributionWork::WeightedSharedFactor { factor, terms } => WorkShape::Shared(
                term_powers(terms@),
            ),
            DistributionWork::SelectorFamily { query, runs } => WorkShape::Family(
                query,
                run_shapes(runs@),
            ),
        }
    }
}

pub open spec fn work_shapes(s: Seq<DistributionWork>) -> Seq<WorkShape> {
    Seq::new(s.len(), |i: int| s[i].shape())
}

pub open spec fn plan_node1(op: PlanOp, a: PlanView) -> PlanView {
    PlanView { op, children: seq![a] }
}

pub open spec fn plan_node2(op: PlanOp, a: PlanView, b: PlanView) -> PlanView {
    PlanView { op, children: seq![a, b] }
}

pub open spec fn plan_leaf(op: PlanOp) -> PlanView {
    PlanView { op, children: Seq::empty() }
}

impl EvaluationPlan {
    pub open spec fn view(&self) -> PlanView
        decreases self,
    {
        match *self {
            EvaluationPlan::Poly(leaf) => plan_leaf(PlanOp::Poly(leaf)),
            EvaluationPlan::Add(a, b) => plan_node2(PlanOp::Add, a.view(), b.view()),
            EvaluationPlan::Mul(a, b) => plan_node2(PlanOp::Mul, a.view(), b.view()),
            EvaluationPlan::Square(a) => plan_node1(PlanOp::Square, a.view()),
            EvaluationPlan::Scale(a, s) => plan_node1(PlanOp::Scale(s.at()), a.view()),
            EvaluationPlan::Horner { base, coefficients } => plan_node1(
                PlanOp::Horner(coefficients@),
                base.view(),
            ),
            EvaluationPlan::DistributePowers { work, base } => PlanView {
                op: PlanOp::Distribute(work_shapes(work@), base.at()),
                children: works_children(work@),
            },
            EvaluationPlan::CacheStore { slot, inner } => plan_node1(
                PlanOp::Store(slot as int),
                inner.view(),
            ),
            EvaluationPlan::CacheLoad { slot } => plan_leaf(PlanOp::Load(slot as int)),
            EvaluationPlan::LinearTerm(s) => plan_leaf(PlanOp::LinearTerm(s.at())),
            EvaluationPlan::ConstantTerm(s) => plan_leaf(PlanOp::ConstantTerm(s.at())),
        }
    }
}

pub open spec fn plan_views(s: Seq<EvaluationPlan>) -> Seq<PlanView>
    decreases s,
{
    if s.len() == 0 {
        Seq::empty()
    } else {
        plan_views(s.drop_last()).push(s.last().view())
    }
}

pub open spec fn term_views(s: Seq<WeightedTerm>) -> Seq<PlanView>
    decreases s,
{
    if s.len() == 0 {
        Seq::empty()
    } else {
        term_views(s.drop_last()).push(s.last().term.view())
    }
}

pub open spec fn factor_children(w: FactorBodyWork) -> Seq<PlanView>
    decreases w,
{
    match w {
        FactorBodyWork::Term(term) => seq![term.term.view()],
        FactorBodyWork::SharedFactor { factor, terms } => seq![factor.view()] + term_views(terms@),
    }
}

pub open spec fn factors_children(s: Seq<FactorBodyWork>) -> Seq<PlanView>
    decreases s,
{
    if s.len() == 0 {
        Seq::empty()
    } else {
        factors_children(s.drop_last()) + factor_children(s.last())
    }
}

pub open spec fn body_children(b: FactorBodyPlan) -> Seq<PlanView>
    decreases b,
{
    match b {
        FactorBodyPlan::Sequential(bodies) => plan_views(bodies@),
        FactorBodyPlan::Factored(work) => factors_children(work@),
    }
}

/// The bodies of a selector family, which are evaluated from the last run to the
/// first.
pub open spec fn runs_children(s: Seq<SelectorFamilyRun>) -> Seq<PlanView>
    decreases s,
{
    if s.len() == 0 {
        Seq::empty()
    } else {
        body_children(s.last().bodies) + runs_children(s.drop_last())
    }
}

pub open spec fn work_children(w: DistributionWork) -> Seq<PlanView>
    decreases w,
{
    match w {
        DistributionWork::Term { term, power } => seq![term.view()],
        DistributionWork::WeightedSharedFactor { factor, terms } => seq![factor.view()]
            + term_views(terms@),
        DistributionWork::SelectorFamily { query, runs } => runs_children(runs@),
    }
}

pub open spec fn works_children(s: Seq<DistributionWork>) -> Seq<PlanView>
    decreases s,
{
    if s.len() == 0 {
        Seq::empty()
    } else {
        works_children(s.drop_last()) + work_children(s.last())
    }
}

// The number of operands of the pieces of a distribution.

pub open spec fn factor_arity(f: FactorShape) -> nat {
    match f {
        FactorShape::Term(_) => 1,
        FactorShape::Shared(powers) => 1 + powers.len(),
    }
}

pub open spec fn factors_arity(s: Seq<FactorShape>) -> nat
    decreases s.len(),
{
    if s.len() == 0 {
        0
    } else {
        factors_arity(s.drop_last()) + factor_arity(s.last())
    }
}

pub open spec fn body_arity(b: BodyShape) -> nat {
    match b {
        BodyShape::Sequential(n) => n,
        BodyShape::Factored(work) => factors_arity(work),
    }
}

pub open spec fn runs_arity(s: Seq<RunShape>) -> nat
    decreases s.len(),
{
    if s.len() == 0 {
        0
    } else {
        body_arity(s.last().body) + runs_arity(s.drop_last())
    }
}

pub open spec fn work_arity(w: WorkShape) -> nat {
    match w {
        WorkShape::Term(_) => 1,
        WorkShape::Shared(powers) => 1 + powers.len(),
        WorkShape::Family(_, runs) => runs_arity(runs),
    }
}

pub open spec fn works_arity(s: Seq<WorkShape>) -> nat
    decreases s.len(),
{
    if s.len() == 0 {
        0
    } else {
        works_arity(s.drop_last()) + work_arity(s.last())
    }
}

// The values of the pieces of a distribution, from the values `v` of their operands.

/// The terms `v`, each multiplied by its scalar.
pub open spec fn weighted_sum(powers: Seq<int>, v: Seq<int>, sv: Seq<int>) -> int
    decreases powers.len(),
{
    if powers.len() == 0 {
        0
    } else {
        weighted_sum(powers.drop_last(), v.drop_last(), sv) + v.last() * sv[powers.last()]
    }
}

pub open spec fn factor_value(f: FactorShape, v: Seq<int>, sv: Seq<int>) -> int {
    match f {
        FactorShape::Term(power) => v[0] * sv[power],
        FactorShape::Shared(powers) => v[0] * weighted_sum(powers, v.skip(1), sv),
    }
}

pub open spec fn factors_value(s: Seq<FactorShape>, v: Seq<int>, sv: Seq<int>) -> int
    decreases s.len(),
{
    if s.len() == 0 {
        0
    } else {
        let at = factors_arity(s.drop_last()) as int;
        factors_value(s.drop_last(), v.take(at), sv) + factor_value(s.last(), v.skip(at), sv)
    }
}

pub open spec fn body_value(b: BodyShape, v: Seq<int>, base: int, sv: Seq<int>) -> int {
    match b {
        BodyShape::Sequential(_) => arith::descending(v, base),
        BodyShape::Factored(work) => factors_value(work, v, sv),
    }
}

/// The bodies of a family, each with its power, in the order of the runs.
pub open spec fn run_weights(s: Seq<RunShape>, v: Seq<int>, base: int, sv: Seq<int>) -> Seq<int>
    decreases s.len(),
{
    if s.len() == 0 {
        Seq::empty()
    } else {
        let at = body_arity(s.last().body) as int;
        run_weights(s.drop_last(), v.skip(at), base, sv).push(
            body_value(s.last().body, v.take(at), base, sv) * sv[s.last().power],
        )
    }
}

/// `(1 - q) * (2 - q) * .. * (n - q)`.
pub open spec fn root_factors(n: nat, q: int) -> int
    decreases n,
{
    if n == 0 {
        1
    } else {
        root_factors((n - 1) as nat, q) * (n - q)
    }
}

/// The sum over `j` of `w[j]` times the factors `i - q` of all roots `i` but `j + 1`.
pub open spec fn family_sum(w: Seq<int>, q: int) -> int
    decreases w.len(),
{
    if w.len() == 0 {
        0
    } else {
        family_sum(w.drop_last(), q) * (w.len() - q) + w.last() * root_factors(
            (w.len() - 1) as nat,
            q,
        )
    }
}

pub open spec fn work_value(w: WorkShape, v: Seq<int>, base: int, sv: Seq<int>, env: RowEnv) -> int {
    match w {
        WorkShape::Term(power) => v[0] * sv[power],
        WorkShape::Shared(powers) => v[0] * weighted_sum(powers, v.skip(1), sv),
        WorkShape::Family(query, runs) => {
            let q = (env.leaf)(query);
            family_sum(run_weights(runs, v, base, sv), q) * q
        },
    }
}

pub open spec fn works_value(
    s: Seq<WorkShape>,
    v: Seq<int>,
    base: int,
    sv: Seq<int>,
    env: RowEnv,
) -> int
    decreases s.len(),
{
    if s.len() == 0 {
        0
    } else {
        let at = works_arity(s.drop_last()) as int;
        works_value(s.drop_last(), v.take(at), base, sv, env) + work_value(
            s.last(),
            v.skip(at),
            base,
            sv,
            env,
        )
    }
}

/// The values of polynomials at one row.
pub open spec fn leaf_values(s: Seq<IndexedLeaf>, env: RowEnv) -> Seq<int> {
    Seq::new(s.len(), |i: int| (env.leaf)(s[i]))
}

/// The value of a node from the values of its operands.
pub open spec fn plan_combine(op: PlanOp, v: Seq<int>, sv: Seq<int>, env: RowEnv) -> int {
    match op {
        PlanOp::Poly(leaf) => (env.leaf)(leaf),
        PlanOp::Add => v[0] + v[1],
        PlanOp::Mul => v[0] * v[1],
        PlanOp::Square => v[0] * v[0],
        PlanOp::Scale(s) => v[0] * sv[s],
        PlanOp::Horner(coefficients) => arith::poly_at(leaf_values(coefficients, env), v[0]),
        PlanOp::Distribute(work, base) => works_value(work, v, sv[base], sv, env),
        PlanOp::Store(_) => v[0],
        PlanOp::Load(_) => 0,
        PlanOp::LinearTerm(s) => sv[s] * env.lin,
        PlanOp::ConstantTerm(s) => sv[s] * env.unit,
    }
}

/// The value of a plan without cache at one row, for the scalars `sv`.
pub open spec fn plan_value(a: PlanView, sv: Seq<int>, env: RowEnv) -> int
    decreases a,
{
    plan_combine(a.op, plan_values(a.children, sv, env), sv, env) % env.p
}

pub open spec fn plan_values(s: Seq<PlanView>, sv: Seq<int>, env: RowEnv) -> Seq<int>
    decreases s,
{
    if s.len() == 0 {
        Seq::empty()
    } else {
        plan_values(s.drop_last(), sv, env).push(plan_value(s.last(), sv, env))
    }
}

/// The value of a plan with cache at one row, and the cache that it leaves.
pub open spec fn cached_value(a: PlanView, sv: Seq<int>, env: RowEnv, cache: Seq<int>) -> (
    int,
    Seq<int>,
)
    decreases a,
{
    match a.op {
        PlanOp::Load(slot) => (cache[slot], cache),
        PlanOp::Store(slot) => {
            let (v, c) = cached_values(a.children, sv, env, cache);
            (v[0], c.update(slot, v[0]))
        },
        _ => {
            let (v, c) = cached_values(a.children, sv, env, cache);
            (plan_combine(a.op, v, sv, env) % env.p, c)
        },
    }
}

pub open spec fn cached_values(s: Seq<PlanView>, sv: Seq<int>, env: RowEnv, cache: Seq<int>) -> (
    Seq<int>,
    Seq<int>,
)
    decreases s,
{
    if s.len() == 0 {
        (Seq::empty(), cache)
    } else {
        let (v, c) = cached_values(s.drop_last(), sv, env, cache);
        let (x, d) = cached_value(s.last(), sv, env, c);
        (v.push(x), d)
    }
}

pub proof fn lemma_plan_values(s: Seq<PlanView>, sv: Seq<int>, env: RowEnv)
    ensures
        plan_values(s, sv, env).len() == s.len(),
        forall|i: int|
            0 <= i < s.len() ==> #[trigger] plan_values(s, sv, env)[i] == plan_value(s[i], sv, env),
    decreases s.len(),
{
    if s.len() > 0 {
        lemma_plan_values(s.drop_last(), sv, env);
    }
}

pub proof fn lemma_plan_values_add(a: Seq<PlanView>, b: Seq<PlanView>, sv: Seq<int>, env: RowEnv)
    ensures
        plan_values(a + b, sv, env) == plan_values(a, sv, env) + plan_values(b, sv, env),
{
    lemma_plan_values(a, sv, env);
    lemma_plan_values(b, sv, env);
    lemma_plan_values(a + b, sv, env);
    assert(plan_values(a + b, sv, env) =~= plan_values(a, sv, env) + plan_values(b, sv, env));
}

pub proof fn lemma_cached_values_len(s: Seq<PlanView>, sv: Seq<int>, env: RowEnv, cache: Seq<int>)
    ensures
        cached_values(s, sv, env, cache).0.len() == s.len(),
    decreases s.len(),
{
    if s.len() > 0 {
        lemma_cached_values_len(s.drop_last(), sv, env, cache);
    }
}

/// Operands are evaluated one after the other, each with the cache that the one
/// before it left.
pub proof fn lemma_cached_values_add(
    a: Seq<PlanView>,
    b: Seq<PlanView>,
    sv: Seq<int>,
    env: RowEnv,
    cache: Seq<int>,
)
    ensures
        ({
            let (va, ca) = cached_values(a, sv, env, cache);
            let (vb, cb) = cached_values(b, sv, env, ca);
            cached_values(a + b, sv, env, cache) == (va + vb, cb)
        }),
    decreases b.len(),
{
    let (va, ca) = cached_values(a, sv, env, cache);
    if b.len() == 0 {
        assert(a + b =~= a);
        assert(va + Seq::<int>::empty() =~= va);
    } else {
        lemma_cached_values_add(a, b.drop_last(), sv, env, cache);
        assert((a + b).drop_last() =~= a + b.drop_last());
        let (vb, cb) = cached_values(b.drop_last(), sv, env, ca);
        let (x, d) = cached_value(b.last(), sv, env, cb);
        assert((va + vb).push(x) =~= va + vb.push(x));
    }
}

pub proof fn lemma_cached_values_one(a: PlanView, sv: Seq<int>, env: RowEnv, cache: Seq<int>)
    ensures
        cached_values(seq![a], sv, env, cache) == (
            seq![cached_value(a, sv, env, cache).0],
            cached_value(a, sv, env, cache).1,
        ),
{
    assert(seq![a].drop_last() =~= Seq::<PlanView>::empty());
    assert(cached_values(Seq::<PlanView>::empty(), sv, env, cache) == (
        Seq::<int>::empty(),
        cache,
    ));
    assert(Seq::<int>::empty().push(cached_value(a, sv, env, cache).0) =~= seq![
        cached_value(a, sv, env, cache).0,
    ]);
}

/// Every polynomial may be read.
pub open spec fn any_leaf() -> spec_fn(IndexedLeaf) -> bool {
    |leaf: IndexedLeaf| true
}

/// Whether a piece of a factored body names only the first `n` scalars.
pub open spec fn factor_in_bounds(f: FactorShape, n: int) -> bool {
    match f {
        FactorShape::Term(power) => 0 <= power < n,
        FactorShape::Shared(powers) => forall|i: int|
            0 <= i < powers.len() ==> 0 <= #[trigger] powers[i] < n,
    }
}

pub open spec fn body_in_bounds(b: BodyShape, n: int) -> bool {
    match b {
        BodyShape::Sequential(count) => count > 0,
        BodyShape::Factored(work) => work.len() > 0 && factors_in_bounds(work, n),
    }
}

pub open spec fn factors_in_bounds(work: Seq<FactorShape>, n: int) -> bool {
    forall|i: int| 0 <= i < work.len() ==> factor_in_bounds(#[trigger] work[i], n)
}

pub open spec fn work_in_bounds(w: WorkShape, n: int, polys: spec_fn(IndexedLeaf) -> bool) -> bool {
    match w {
        WorkShape::Term(power) => 0 <= power < n,
        WorkShape::Shared(powers) => forall|i: int|
            0 <= i < powers.len() ==> 0 <= #[trigger] powers[i] < n,
        WorkShape::Family(query, runs) => {
            &&& polys(query)
            &&& runs.len() >= 2
            &&& forall|i: int|
                0 <= i < runs.len() ==> 0 <= (#[trigger] runs[i]).power < n && body_in_bounds(
                    runs[i].body,
                    n,
                )
        },
    }
}

/// Whether an operation names only scalars, polynomials and cache slots that there
/// are.
pub open spec fn op_in_bounds(op: PlanOp, n: int, polys: spec_fn(IndexedLeaf) -> bool, slots: int) -> bool {
    match op {
        PlanOp::Poly(leaf) => polys(leaf),
        PlanOp::Scale(s) | PlanOp::LinearTerm(s) | PlanOp::ConstantTerm(s) => 0 <= s < n,
        PlanOp::Horner(coefficients) => coefficients.len() > 0 && forall|i: int|
            0 <= i < coefficients.len() ==> polys(#[trigger] coefficients[i]),
        PlanOp::Distribute(work, base) => 0 <= base < n && forall|i: int|
            0 <= i < work.len() ==> work_in_bounds(#[trigger] work[i], n, polys),
        PlanOp::Store(slot) | PlanOp::Load(slot) => 0 <= slot < slots,
        _ => true,
    }
}

/// Whether a plan names only the first `n` scalars, polynomials that may be read
/// and `slots` cache slots.
pub open spec fn plan_in_bounds(a: PlanView, n: int, polys: spec_fn(IndexedLeaf) -> bool, slots: int) -> bool
    decreases a,
{
    &&& op_in_bounds(a.op, n, polys, slots)
    &&& plans_in_bounds(a.children, n, polys, slots)
}

pub open spec fn plans_in_bounds(s: Seq<PlanView>, n: int, polys: spec_fn(IndexedLeaf) -> bool, slots: int) -> bool
    decreases s,
{
    s.len() == 0 || (plans_in_bounds(s.drop_last(), n, polys, slots) && plan_in_bounds(
        s.last(),
        n,
        polys,
        slots,
    ))
}

pub proof fn lemma_plans_in_bounds(s: Seq<PlanView>, n: int, polys: spec_fn(IndexedLeaf) -> bool, slots: int)
    ensures
        plans_in_bounds(s, n, polys, slots) <==> forall|i: int|
            0 <= i < s.len() ==> plan_in_bounds(#[trigger] s[i], n, polys, slots),
    decreases s.len(),
{
    if s.len() > 0 {
        lemma_plans_in_bounds(s.drop_last(), n, polys, slots);
        if plans_in_bounds(s, n, polys, slots) {
            assert forall|i: int| 0 <= i < s.len() implies plan_in_bounds(
                #[trigger] s[i],
                n,
                polys,
                slots,
            ) by {
                if i < s.len() - 1 {
                    assert(s.drop_last()[i] == s[i]);
                }
            }
        }
        if forall|i: int|
            0 <= i < s.len() ==> plan_in_bounds(#[trigger] s[i], n, polys, slots) {
            assert forall|i: int| 0 <= i < s.len() - 1 implies plan_in_bounds(
                #[trigger] s.drop_last()[i],
                n,
                polys,
                slots,
            ) by {
                assert(s.drop_last()[i] == s[i]);
            }
            assert(plan_in_bounds(s[s.len() - 1], n, polys, slots));
        }
    }
}

pub proof fn lemma_plan_views(s: Seq<EvaluationPlan>)
    ensures
        plan_views(s).len() == s.len(),
        forall|i: int| 0 <= i < s.len() ==> #[trigger] plan_views(s)[i] == s[i].view(),
    decreases s.len(),
{
    if s.len() > 0 {
        lemma_plan_views(s.drop_last());
    }
}

pub proof fn lemma_term_views(s: Seq<WeightedTerm>)
    ensures
        term_views(s).len() == s.len(),
        forall|i: int| 0 <= i < s.len() ==> #[trigger] term_views(s)[i] == s[i].term.view(),
    decreases s.len(),
{
    if s.len() > 0 {
        lemma_term_views(s.drop_last());
    }
}

// The operands that the pieces of a distribution list are as many as their shapes
// say.

pub proof fn lemma_factor_children_len(w: FactorBodyWork)
    ensures
        factor_children(w).len() == factor_arity(w.shape()),
{
    match w {
        FactorBodyWork::Term(term) => {},
        FactorBodyWork::SharedFactor { factor, terms } => {
            lemma_term_views(terms@);
        },
    }
}

pub proof fn lemma_factors_children_len(s: Seq<FactorBodyWork>)
    ensures
        factors_children(s).len() == factors_arity(factor_shapes(s)),
    decreases s.len(),
{
    if s.len() > 0 {
        lemma_factors_children_len(s.drop_last());
        lemma_factor_children_len(s.last());
        assert(factor_shapes(s).drop_last() =~= factor_shapes(s.drop_last()));
    }
}

pub proof fn lemma_body_children_len(b: FactorBodyPlan)
    ensures
        body_children(b).len() == body_arity(b.shape()),
{
    match b {
        FactorBodyPlan::Sequential(bodies) => {
            lemma_plan_views(bodies@);
        },
        FactorBodyPlan::Factored(work) => {
            lemma_factors_children_len(work@);
        },
    }
}

pub proof fn lemma_runs_children_len(s: Seq<SelectorFamilyRun>)
    ensures
        runs_children(s).len() == runs_arity(run_shapes(s)),
    decreases s.len(),
{
    if s.len() > 0 {
        lemma_runs_children_len(s.drop_last());
        lemma_body_children_len(s.last().bodies);
        assert(run_shapes(s).drop_last() =~= run_shapes(s.drop_last()));
    }
}

pub proof fn lemma_work_children_len(w: DistributionWork)
    ensures
        work_children(w).len() == work_arity(w.shape()),
{
    match w {
        DistributionWork::Term { term, power } => {},
        DistributionWork::WeightedSharedFactor { factor, terms } => {
            lemma_term_views(terms@);
        },
        DistributionWork::SelectorFamily { query, runs } => {
            lemma_runs_children_len(runs@);
        },
    }
}

pub proof fn lemma_works_children_len(s: Seq<DistributionWork>)
    ensures
        works_children(s).len() == works_arity(work_shapes(s)),
    decreases s.len(),
{
    if s.len() > 0 {
        lemma_works_children_len(s.drop_last());
        lemma_work_children_len(s.last());
        assert(work_shapes(s).drop_last() =~= work_shapes(s.drop_last()));
    }
}

/// The lists of children of the prefixes of a list.
pub proof fn lemma_children_take_works(s: Seq<DistributionWork>, k: int)
    requires
        0 <= k < s.len(),
    ensures
        works_children(s.take(k + 1)) == works_children(s.take(k)) + work_children(s[k]),
        work_shapes(s.take(k + 1)) == work_shapes(s.take(k)).push(s[k].shape()),
{
    assert(s.take(k + 1) =~= s.take(k).push(s[k]));
    lemma_works_push(s.take(k), s[k]);
}

pub proof fn lemma_children_take_factors(s: Seq<FactorBodyWork>, k: int)
    requires
        0 <= k < s.len(),
    ensures
        factors_children(s.take(k + 1)) == factors_children(s.take(k)) + factor_children(s[k]),
        factor_shapes(s.take(k + 1)) == factor_shapes(s.take(k)).push(s[k].shape()),
{
    assert(s.take(k + 1) =~= s.take(k).push(s[k]));
    lemma_factors_push(s.take(k), s[k]);
}

pub proof fn lemma_children_take_terms(s: Seq<WeightedTerm>, k: int)
    requires
        0 <= k < s.len(),
    ensures
        term_views(s.take(k + 1)) == term_views(s.take(k)) + seq![s[k].term.view()],
        term_powers(s.take(k + 1)) == term_powers(s.take(k)).push(s[k].power.at()),
{
    assert(s.take(k + 1).drop_last() =~= s.take(k));
    assert(term_views(s.take(k + 1)) =~= term_views(s.take(k)) + seq![s[k].term.view()]);
    assert(term_powers(s.take(k + 1)) =~= term_powers(s.take(k)).push(s[k].power.at()));
}

pub proof fn lemma_children_take_plans(s: Seq<EvaluationPlan>, k: int)
    requires
        0 <= k < s.len(),
    ensures
        plan_views(s.take(k + 1)) == plan_views(s.take(k)) + seq![s[k].view()],
{
    assert(s.take(k + 1).drop_last() =~= s.take(k));
    assert(plan_views(s.take(k + 1)) =~= plan_views(s.take(k)) + seq![s[k].view()]);
}

pub proof fn lemma_children_take_runs(s: Seq<SelectorFamilyRun>, k: int)
    requires
        0 <= k < s.len(),
    ensures
        runs_children(s.take(k + 1)) == body_children(s[k].bodies) + runs_children(s.take(k)),
        run_shapes(s.take(k + 1)) == run_shapes(s.take(k)).push(
            RunShape { power: s[k].power.at(), body: s[k].bodies.shape() },
        ),
{
    assert(s.take(k + 1).drop_last() =~= s.take(k));
    assert(run_shapes(s.take(k + 1)) =~= run_shapes(s.take(k)).push(
        RunShape { power: s[k].power.at(), body: s[k].bodies.shape() },
    ));
}

pub proof fn lemma_works_push(s: Seq<DistributionWork>, w: DistributionWork)
    ensures
        works_children(s.push(w)) == works_children(s) + work_children(w),
        work_shapes(s.push(w)) == work_shapes(s).push(w.shape()),
{
    assert(s.push(w).drop_last() =~= s);
    assert(work_shapes(s.push(w)) =~= work_shapes(s).push(w.shape()));
}

pub proof fn lemma_factors_push(s: Seq<FactorBodyWork>, w: FactorBodyWork)
    ensures
        factors_children(s.push(w)) == factors_children(s) + factor_children(w),
        factor_shapes(s.push(w)) == factor_shapes(s).push(w.shape()),
{
    assert(s.push(w).drop_last() =~= s);
    assert(factor_shapes(s.push(w)) =~= factor_shapes(s).push(w.shape()));
}

} // verus!
