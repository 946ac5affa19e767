//! Retained layouts across evaluations: which layouts fit is a function of the expression.
use crate::ast::{AstView, IndexedLeaf};
use crate::cse;
use crate::lowering;
use crate::occurrence;
use crate::plan;
use crate::plan::{BodyShape, FactorShape, PlanOp, PlanView, WorkShape};
use crate::retained;
use crate::retained::{CacheEvent, EvaluationCacheLayout};
use crate::scalars::ScalarView;
use crate::schedule;
use crate::written;
use vstd::prelude::*;

verus! {

/// Different positions below `n` have different names.
pub open spec fn distinct_below(m: spec_fn(int) -> int, n: int) -> bool {
    forall|i: int, j: int|
        0 <= i < n && 0 <= j < n && #[trigger] m(i) == #[trigger] m(j) ==> i == j
}

proof fn lemma_names_same(s: Seq<int>, t: Seq<int>, m: spec_fn(int) -> int, n: int)
    requires
        distinct_below(m, n),
        forall|i: int| 0 <= i < s.len() ==> 0 <= #[trigger] s[i] < n,
        forall|i: int| 0 <= i < t.len() ==> 0 <= #[trigger] t[i] < n,
        written::renamed_all(s, m) == written::renamed_all(t, m),
    ensures
        s == t,
{
    let (x, y) = (written::renamed_all(s, m), written::renamed_all(t, m));
    assert(x.len() == y.len());
    assert forall|i: int| 0 <= i < s.len() implies s[i] == t[i] by {
        assert(x[i] == y[i]);
        assert(m(s[i]) == m(t[i]));
    }
    assert(s =~= t);
}

proof fn lemma_factor_same(a: FactorShape, b: FactorShape, m: spec_fn(int) -> int, n: int)
    requires
        distinct_below(m, n),
        plan::factor_in_bounds(a, n),
        plan::factor_in_bounds(b, n),
        written::renamed_factor(a, m) == written::renamed_factor(b, m),
    ensures
        a == b,
{
    match a {
        FactorShape::Term(x) => {
            assert(b is Term);
            assert(m(x) == m(b->Term_0));
        },
        FactorShape::Shared(x) => {
            assert(b is Shared);
            lemma_names_same(x, b->Shared_0, m, n);
        },
    }
}

proof fn lemma_body_same(a: BodyShape, b: BodyShape, m: spec_fn(int) -> int, n: int)
    requires
        distinct_below(m, n),
        plan::body_in_bounds(a, n),
        plan::body_in_bounds(b, n),
        written::renamed_body(a, m) == written::renamed_body(b, m),
    ensures
        a == b,
{
    match a {
        BodyShape::Sequential(_) => {},
        BodyShape::Factored(work) => {
            assert(b is Factored);
            let other = b->Factored_0;
            let (x, y) = (
                Seq::new(work.len(), |i: int| written::renamed_factor(work[i], m)),
                Seq::new(other.len(), |i: int| written::renamed_factor(other[i], m)),
            );
            assert(x == y);
            assert(x.len() == y.len());
            assert forall|i: int| 0 <= i < work.len() implies work[i] == other[i] by {
                assert(x[i] == y[i]);
                assert(plan::factor_in_bounds(work[i], n) && plan::factor_in_bounds(other[i], n));
                lemma_factor_same(work[i], other[i], m, n);
            }
            assert(work =~= other);
        },
    }
}

proof fn lemma_work_same(
    a: WorkShape,
    b: WorkShape,
    m: spec_fn(int) -> int,
    n: int,
    polys: spec_fn(IndexedLeaf) -> bool,
)
    requires
        distinct_below(m, n),
        plan::work_in_bounds(a, n, polys),
        plan::work_in_bounds(b, n, polys),
        written::renamed_work(a, m) == written::renamed_work(b, m),
    ensures
        a == b,
{
    match a {
        WorkShape::Term(x) => {
            assert(b is Term);
            assert(m(x) == m(b->Term_0));
        },
        WorkShape::Shared(x) => {
            assert(b is Shared);
            lemma_names_same(x, b->Shared_0, m, n);
        },
        WorkShape::Family(query, runs) => {
            assert(b is Family);
            let other = b->Family_1;
            let (x, y) = (
                Seq::new(runs.len(), |i: int| written::renamed_run(runs[i], m)),
                Seq::new(other.len(), |i: int| written::renamed_run(other[i], m)),
            );
            assert(x == y);
            assert(x.len() == y.len());
            assert forall|i: int| 0 <= i < runs.len() implies runs[i] == other[i] by {
                assert(x[i] == y[i]);
                assert(0 <= runs[i].power < n && 0 <= other[i].power < n);
                assert(m(runs[i].power) == m(other[i].power));
                lemma_body_same(runs[i].body, other[i].body, m, n);
            }
            assert(runs =~= other);
        },
    }
}

proof fn lemma_op_same(
    a: PlanOp,
    b: PlanOp,
    m: spec_fn(int) -> int,
    n: int,
    polys: spec_fn(IndexedLeaf) -> bool,
)
    requires
        distinct_below(m, n),
        plan::op_in_bounds(a, n, polys, 0),
        plan::op_in_bounds(b, n, polys, 0),
        written::renamed_op(a, m) == written::renamed_op(b, m),
    ensures
        a == b,
{
    match a {
        PlanOp::Scale(x) => {
            assert(b is Scale);
            assert(m(x) == m(b->Scale_0));
        },
        PlanOp::LinearTerm(x) => {
            assert(b is LinearTerm);
            assert(m(x) == m(b->LinearTerm_0));
        },
        PlanOp::ConstantTerm(x) => {
            assert(b is ConstantTerm);
            assert(m(x) == m(b->ConstantTerm_0));
        },
        PlanOp::Distribute(work, base) => {
            assert(b is Distribute);
            let (other, other_base) = (b->Distribute_0, b->Distribute_1);
            assert(m(base) == m(other_base));
            let (x, y) = (written::renamed_works(work, m), written::renamed_works(other, m));
            assert(x == y);
            assert(x.len() == y.len());
            assert forall|i: int| 0 <= i < work.len() implies work[i] == other[i] by {
                assert(x[i] == y[i]);
                assert(plan::work_in_bounds(work[i], n, polys) && plan::work_in_bounds(other[i], n, polys));
                lemma_work_same(work[i], other[i], m, n, polys);
            }
            assert(work =~= other);
        },
        _ => {},
    }
}

/// Plans that are the same under other names are the same.
proof fn lemma_renamed_injective(
    a: PlanView,
    b: PlanView,
    m: spec_fn(int) -> int,
    n: int,
    polys: spec_fn(IndexedLeaf) -> bool,
)
    requires
        distinct_below(m, n),
        plan::plan_in_bounds(a, n, polys, 0),
        plan::plan_in_bounds(b, n, polys, 0),
        written::renamed(a, m) == written::renamed(b, m),
    ensures
        a == b,
    decreases a,
{
    lemma_op_same(a.op, b.op, m, n, polys);
    lemma_renamed_plans_injective(a.children, b.children, m, n, polys);
}

proof fn lemma_renamed_plans_injective(
    s: Seq<PlanView>,
    t: Seq<PlanView>,
    m: spec_fn(int) -> int,
    n: int,
    polys: spec_fn(IndexedLeaf) -> bool,
)
    requires
        distinct_below(m, n),
        plan::plans_in_bounds(s, n, polys, 0),
        plan::plans_in_bounds(t, n, polys, 0),
        written::renamed_plans(s, m) == written::renamed_plans(t, m),
    ensures
        s == t,
    decreases s,
{
    written::lemma_renamed_plans(s, m);
    written::lemma_renamed_plans(t, m);
    assert(s.len() == t.len());
    if s.len() > 0 {
        let (x, y) = (written::renamed_plans(s, m), written::renamed_plans(t, m));
        assert(x.drop_last() =~= written::renamed_plans(s.drop_last(), m));
        assert(y.drop_last() =~= written::renamed_plans(t.drop_last(), m));
        assert(x.last() == written::renamed(s.last(), m));
        assert(y.last() == written::renamed(t.last(), m));
        lemma_renamed_plans_injective(s.drop_last(), t.drop_last(), m, n, polys);
        lemma_renamed_injective(s.last(), t.last(), m, n, polys);
        assert(s =~= s.drop_last().push(s.last()));
        assert(t =~= t.drop_last().push(t.last()));
    } else {
        assert(s =~= t);
    }
}

/// The nodes of a renamed plan are the renamed nodes.
proof fn lemma_renamed_occurrences(a: PlanView, m: spec_fn(int) -> int)
    ensures
        schedule::occurrences(written::renamed(a, m)) == written::renamed_plans(schedule::occurrences(a), m),
        schedule::plan_size(written::renamed(a, m)) == schedule::plan_size(a),
        occurrence::arithmetic(written::renamed(a, m)) <==> occurrence::arithmetic(a),
    decreases a,
{
    lemma_renamed_all_occurrences(a.children, m);
    written::lemma_renamed_concat(seq![a], schedule::all_occurrences(a.children), m);
    written::lemma_renamed_pair(a, a, m);
}

proof fn lemma_renamed_all_occurrences(s: Seq<PlanView>, m: spec_fn(int) -> int)
    ensures
        schedule::all_occurrences(written::renamed_plans(s, m)) == written::renamed_plans(schedule::all_occurrences(s), m),
        schedule::plan_sizes(written::renamed_plans(s, m)) == schedule::plan_sizes(s),
        occurrence::all_arithmetic(written::renamed_plans(s, m)) <==> occurrence::all_arithmetic(s),
    decreases s,
{
    if s.len() > 0 {
        let x = written::renamed_plans(s, m);
        lemma_renamed_all_occurrences(s.drop_last(), m);
        lemma_renamed_occurrences(s.last(), m);
        written::lemma_renamed_concat(schedule::all_occurrences(s.drop_last()), schedule::occurrences(s.last()), m);
        assert(x.drop_last() =~= written::renamed_plans(s.drop_last(), m));
        assert(x.last() == written::renamed(s.last(), m));
    }
}

proof fn lemma_event_renamed(
    nodes: Seq<PlanView>,
    named: Seq<PlanView>,
    events: Seq<CacheEvent>,
    slots: int,
    i: int,
    m: spec_fn(int) -> int,
    n: int,
    polys: spec_fn(IndexedLeaf) -> bool,
)
    requires
        0 <= i < events.len(),
        distinct_below(m, n),
        named == written::renamed_plans(nodes, m),
        forall|o: int| 0 <= o < nodes.len() ==> plan::plan_in_bounds(#[trigger] nodes[o], n, polys, 0),
        forall|j: int|
            0 <= j < i ==> (#[trigger] events[j]).occurrence < nodes.len(),
    ensures
        retained::event_fits(nodes, events, slots, i) <==> retained::event_fits(named, events, slots, i),
{
    written::lemma_renamed_plans(nodes, m);
    let event = events[i];
    if event.occurrence < nodes.len() {
        let o = event.occurrence as int;
        lemma_renamed_occurrences(nodes[o], m);
        assert(named[o] == written::renamed(nodes[o], m));
        assert forall|j: int| #[trigger] retained::event_source(events, j, i) implies (
        nodes[events[j].occurrence as int] == nodes[o] <==> named[events[j].occurrence as int]
            == named[o]) by {
            let q = events[j].occurrence as int;
            assert(q < nodes.len());
            assert(named[q] == written::renamed(nodes[q], m));
            if named[q] == named[o] {
                lemma_renamed_injective(nodes[q], nodes[o], m, n, polys);
            }
        }
    }
}

/// A layout fits a plan just where it fits the plan under other names.
proof fn lemma_layout_renamed(
    plan: PlanView,
    layout: EvaluationCacheLayout,
    m: spec_fn(int) -> int,
    n: int,
    polys: spec_fn(IndexedLeaf) -> bool,
)
    requires
        distinct_below(m, n),
        plan::plan_in_bounds(plan, n, polys, 0),
    ensures
        retained::layout_fits(plan, layout) <==> retained::layout_fits(written::renamed(plan, m), layout),
{
    let nodes = schedule::occurrences(plan);
    let named = schedule::occurrences(written::renamed(plan, m));
    let (events, slots) = (layout.events@, layout.cache_slots as int);
    lemma_renamed_occurrences(plan, m);
    written::lemma_renamed_plans(nodes, m);
    cse::lemma_occurrences_in_bounds(plan, n, polys);
    assert(schedule::uncached(nodes) <==> schedule::uncached(named)) by {
        assert forall|o: int| 0 <= o < nodes.len() implies (#[trigger] nodes[o].op is Store <==> named[o].op is Store)
            && (nodes[o].op is Load <==> named[o].op is Load) by {
            assert(named[o] == written::renamed(nodes[o], m));
        }
        if schedule::uncached(nodes) {
            assert forall|o: int| 0 <= o < named.len() implies !((
            #[trigger] named[o]).op is Store) && !(named[o].op is Load) by {
                assert(!(nodes[o].op is Store));
            }
        }
        if schedule::uncached(named) {
            assert forall|o: int| 0 <= o < nodes.len() implies !((
            #[trigger] nodes[o]).op is Store) && !(nodes[o].op is Load) by {
                assert(!(named[o].op is Store));
            }
        }
    }
    if retained::layout_fits(plan, layout) {
        assert forall|i: int| 0 <= i < events.len() implies #[trigger] retained::event_fits(
            named,
            events,
            slots,
            i,
        ) by {
            assert forall|j: int| 0 <= j < i implies (#[trigger] events[j]).occurrence
                < nodes.len() by {
                assert(retained::event_fits(nodes, events, slots, j));
            }
            assert(retained::event_fits(nodes, events, slots, i));
            lemma_event_renamed(nodes, named, events, slots, i, m, n, polys);
        }
    }
    if retained::layout_fits(written::renamed(plan, m), layout) {
        assert forall|i: int| 0 <= i < events.len() implies #[trigger] retained::event_fits(
            nodes,
            events,
            slots,
            i,
        ) by {
            assert forall|j: int| 0 <= j < i implies (#[trigger] events[j]).occurrence
                < nodes.len() by {
                assert(retained::event_fits(named, events, slots, j));
            }
            assert(retained::event_fits(named, events, slots, i));
            lemma_event_renamed(nodes, named, events, slots, i, m, n, polys);
        }
    }
}

/// A layout fits the plan that an expression is compiled to just where it fits the plan of
/// the expression, whatever positions the scalars have.
pub proof fn lemma_fits_expression(
    plan: PlanView,
    a: AstView,
    descs: Seq<ScalarView>,
    p: int,
    layout: EvaluationCacheLayout,
)
    requires
        lowering::compiled(plan, a, descs, p),
        descs.no_duplicates(),
    ensures
        retained::layout_fits(plan, layout) <==> retained::layout_fits(written::plan_of(a, p), layout),
{
    reveal(lowering::lowered);
    reveal(written::written_as);
    lowering::lemma_any_leaves(a);
    let n = descs.len() as int;
    let m = written::scalar_codes(descs);
    assert(plan::plan_in_bounds(plan, n, plan::any_leaf(), 0));
    assert forall|i: int, j: int|
        0 <= i < n && 0 <= j < n && #[trigger] m(i) == #[trigger] m(j) implies i == j by {
        written::lemma_code(descs[i], descs[j]);
    }
    lemma_layout_renamed(plan, layout, m, n, plan::any_leaf());
}

/// The plan that an expression is compiled to has as many nodes as the plan of the
/// expression.
pub proof fn lemma_plan_nodes(plan: PlanView, a: AstView, descs: Seq<ScalarView>, p: int)
    requires
        lowering::compiled(plan, a, descs, p),
    ensures
        schedule::plan_size(plan) == schedule::plan_size(written::plan_of(a, p)),
{
    reveal(written::written_as);
    lemma_renamed_occurrences(plan, written::scalar_codes(descs));
}

} // verus!
