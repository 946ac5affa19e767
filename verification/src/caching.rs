//! What a schedule of cached subexpressions does, occurrence by occurrence.
use crate::cse;
use crate::layout::LinearTermCacheBudget;
use crate::occurrence;
use crate::plan::{PlanOp, PlanView};
use crate::retained;
use crate::retained::EvaluationCacheLayout;
use crate::scalars::ScalarView;
use crate::schedule;
use crate::schedule::CacheAction;
use vstd::arithmetic::mul::*;
use vstd::prelude::*;

verus! {

/// A plan occurs first, and the occurrences below each operand follow those below the
/// operands before it.
pub proof fn law_occurrences_in_order(a: PlanView, k: int)
    requires
        0 <= k < a.children.len(),
    ensures
        schedule::occurrences(a).len() == schedule::plan_size(a),
        schedule::occurrences(a)[0] == a,
        ({
            let at = 1 + Seq::new(
                k as nat,
                |i: int| schedule::occurrences(a.children[i]).len() as int,
            ).fold_left(0int, |s: int, t: int| s + t);
            let child = schedule::occurrences(a.children[k]);
            &&& at + child.len() <= schedule::occurrences(a).len()
            &&& forall|i: int|
                0 <= i < child.len() ==> #[trigger] child[i] == schedule::occurrences(a)[at + i]
        }),
{
    schedule::lemma_occurrences_len(a);
    lemma_child_occurrences(a.children, k);
    assert(schedule::occurrences(a) == seq![a] + schedule::all_occurrences(a.children));
    let at = Seq::new(k as nat, |i: int| schedule::occurrences(a.children[i]).len() as int).fold_left(
        0int,
        |s: int, t: int| s + t,
    );
    let child = schedule::occurrences(a.children[k]);
    assert forall|i: int| 0 <= i < child.len() implies #[trigger] child[i] == schedule::occurrences(a)[1 + at
        + i] by {
        assert(child[i] == schedule::all_occurrences(a.children)[at + i]);
    }
}

proof fn lemma_child_occurrences(s: Seq<PlanView>, k: int)
    requires
        0 <= k < s.len(),
    ensures
        ({
            let at = Seq::new(k as nat, |i: int| schedule::occurrences(s[i]).len() as int).fold_left(
                0int,
                |s: int, t: int| s + t,
            );
            let child = schedule::occurrences(s[k]);
            &&& 0 <= at
            &&& at + child.len() <= schedule::all_occurrences(s).len()
            &&& forall|i: int|
                0 <= i < child.len() ==> #[trigger] child[i] == schedule::all_occurrences(s)[at + i]
        }),
    decreases s.len(),
{
    let f = s.drop_last();
    let at = Seq::new(k as nat, |i: int| schedule::occurrences(s[i]).len() as int);
    if k < f.len() {
        lemma_child_occurrences(f, k);
        assert(at =~= Seq::new(k as nat, |i: int| schedule::occurrences(f[i]).len() as int));
    } else {
        lemma_all_occurrences_len(f);
        assert(at =~= Seq::new(f.len(), |i: int| schedule::occurrences(f[i]).len() as int));
    }
}

proof fn lemma_all_occurrences_len(s: Seq<PlanView>)
    ensures
        schedule::all_occurrences(s).len() == Seq::new(
            s.len(),
            |i: int| schedule::occurrences(s[i]).len() as int,
        ).fold_left(0int, |a: int, b: int| a + b),
    decreases s.len(),
{
    let t = Seq::new(s.len(), |i: int| schedule::occurrences(s[i]).len() as int);
    if s.len() > 0 {
        let f = s.drop_last();
        lemma_all_occurrences_len(f);
        assert(t.drop_last() =~= Seq::new(f.len(), |i: int| schedule::occurrences(f[i]).len() as int));
    }
}

/// How many multiplications a node of a plan takes: those of its operands, and one for a
/// product or a square, one for a multiple unless it is by one, minus one or two, and one for
/// each coefficient but the first of an evaluation at a base.
pub proof fn law_multiplications(a: PlanView, descs: Seq<ScalarView>, p: int)
    requires
        match a.op {
            PlanOp::Add | PlanOp::Mul | PlanOp::Square | PlanOp::Scale(_) => true,
            PlanOp::Horner(coefficients) => coefficients.len() > 0,
            _ => false,
        },
    ensures
        cse::cost_of(a, descs, p).0 == (match a.op {
            PlanOp::Mul | PlanOp::Square => 1int,
            PlanOp::Scale(s) => match descs[s] {
                ScalarView::Literal(v) => if v == (-1int) % p || v == 1 || v == 2int % p {
                    0
                } else {
                    1
                },
                _ => 1,
            },
            PlanOp::Horner(coefficients) => coefficients.len() - 1,
            _ => 0,
        }) + Seq::new(
            a.children.len(),
            |i: int| cse::cost_of(a.children[i], descs, p).0 as int,
        ).fold_left(0int, |s: int, t: int| s + t),
{
    lemma_costs(a.children, descs, p);
}

proof fn lemma_costs(s: Seq<PlanView>, descs: Seq<ScalarView>, p: int)
    ensures
        cse::costs_of(s, descs, p).0 == Seq::new(
            s.len(),
            |i: int| cse::cost_of(s[i], descs, p).0 as int,
        ).fold_left(0int, |a: int, b: int| a + b),
    decreases s.len(),
{
    let t = Seq::new(s.len(), |i: int| cse::cost_of(s[i], descs, p).0 as int);
    if s.len() > 0 {
        let f = s.drop_last();
        lemma_costs(f, descs, p);
        assert(t.drop_last() =~= Seq::new(f.len(), |i: int| cse::cost_of(f[i], descs, p).0 as int));
    }
}

/// What is cached or taken from the cache is neither a combination with powers nor a cached
/// node, and neither is anything below it.
pub proof fn law_arithmetic(a: PlanView)
    ensures
        occurrence::arithmetic(a) <==> forall|i: int|
            0 <= i < schedule::occurrences(a).len() ==> {
                let op = (#[trigger] schedule::occurrences(a)[i]).op;
                !(op is Distribute) && !(op is Store) && !(op is Load)
            },
    decreases a,
{
    lemma_all_arithmetic(a.children);
    let (nodes, below) = (schedule::occurrences(a), schedule::all_occurrences(a.children));
    assert(nodes == seq![a] + below);
    assert(nodes[0] == a);
    if occurrence::arithmetic(a) {
        assert forall|i: int| 0 <= i < nodes.len() implies {
            let op = (#[trigger] nodes[i]).op;
            !(op is Distribute) && !(op is Store) && !(op is Load)
        } by {
            if i > 0 {
                assert(below[i - 1] == nodes[i]);
            }
        }
    }
    if forall|i: int|
        0 <= i < nodes.len() ==> {
            let op = (#[trigger] nodes[i]).op;
            !(op is Distribute) && !(op is Store) && !(op is Load)
        } {
        assert forall|i: int| 0 <= i < below.len() implies {
            let op = (#[trigger] below[i]).op;
            !(op is Distribute) && !(op is Store) && !(op is Load)
        } by {
            assert(nodes[i + 1] == below[i]);
        }
    }
}

proof fn lemma_all_arithmetic(s: Seq<PlanView>)
    ensures
        occurrence::all_arithmetic(s) <==> forall|i: int|
            0 <= i < schedule::all_occurrences(s).len() ==> {
                let op = (#[trigger] schedule::all_occurrences(s)[i]).op;
                !(op is Distribute) && !(op is Store) && !(op is Load)
            },
    decreases s,
{
    if s.len() > 0 {
        let f = s.drop_last();
        lemma_all_arithmetic(f);
        law_arithmetic(s.last());
        let (x, y, z) = (schedule::all_occurrences(f), schedule::occurrences(s.last()), schedule::all_occurrences(s));
        assert(z == x + y);
        if occurrence::all_arithmetic(s) {
            assert forall|i: int| 0 <= i < z.len() implies {
                let op = (#[trigger] z[i]).op;
                !(op is Distribute) && !(op is Store) && !(op is Load)
            } by {
                if i < x.len() {
                    assert(x[i] == z[i]);
                } else {
                    assert(y[i - x.len()] == z[i]);
                }
            }
        }
        if forall|i: int|
            0 <= i < z.len() ==> {
                let op = (#[trigger] z[i]).op;
                !(op is Distribute) && !(op is Store) && !(op is Load)
            } {
            assert forall|i: int| 0 <= i < x.len() implies {
                let op = (#[trigger] x[i]).op;
                !(op is Distribute) && !(op is Store) && !(op is Load)
            } by {
                assert(z[i] == x[i]);
            }
            assert forall|i: int| 0 <= i < y.len() implies {
                let op = (#[trigger] y[i]).op;
                !(op is Distribute) && !(op is Store) && !(op is Load)
            } by {
                assert(z[i + x.len()] == y[i]);
            }
        }
    }
}

/// Whatever is taken from a slot was stored there before, at an earlier occurrence of the
/// same subexpression, and nothing was stored there in between.
pub proof fn law_loads_follow_stores(
    plan: PlanView,
    actions: Seq<Option<CacheAction>>,
    slots: int,
    o: int,
) -> (s: int)
    requires
        schedule::valid_schedule(schedule::occurrences(plan), actions, slots),
        0 <= o < actions.len(),
        actions[o] is Some,
        !actions[o]->0.store,
    ensures
        actions.len() == schedule::occurrences(plan).len(),
        0 <= s < o,
        actions[s] is Some,
        actions[s]->0.store,
        actions[s]->0.slot == actions[o]->0.slot,
        actions[o]->0.slot < slots,
        schedule::occurrences(plan)[s] == schedule::occurrences(plan)[o],
        forall|t: int|
            s < t < o && (#[trigger] actions[t]) is Some && actions[t]->0.store ==> actions[t]->0.slot
                != actions[o]->0.slot,
{
    assert(schedule::is_action(actions, o));
    let slot = actions[o]->0.slot as int;
    let s = choose|s: int| #[trigger]
        schedule::last_store(actions, s, o, slot) && schedule::occurrences(plan)[s] == schedule::occurrences(plan)[o];
    assert forall|t: int|
        s < t < o && (#[trigger] actions[t]) is Some && actions[t]->0.store implies actions[t]->0.slot
        != actions[o]->0.slot by {
        assert(!schedule::is_store(actions, t, slot));
    }
    s
}

/// Where a subexpression that takes a multiplication occurs twice, one of the
/// occurrences is cached, or lies in or around something that is.
pub proof fn law_repeats_are_cached(
    plan: PlanView,
    actions: Seq<Option<CacheAction>>,
    slots: int,
    descs: Seq<ScalarView>,
    p: int,
    budget: LinearTermCacheBudget,
    i: int,
    j: int,
) -> (o: int)
    requires
        cse::good_schedule(plan, actions, slots, descs, p, budget),
        0 <= i < j < schedule::occurrences(plan).len(),
        schedule::occurrences(plan)[i] == schedule::occurrences(plan)[j],
        occurrence::arithmetic(schedule::occurrences(plan)[i]),
        cse::cost_of(schedule::occurrences(plan)[i], descs, p).0 >= 1,
    ensures
        0 <= o < actions.len(),
        actions[o] is Some,
        ({
            let n = schedule::occurrences(schedule::occurrences(plan)[i]).len();
            ||| o < i + n && i < actions[o]->0.end
            ||| o < j + n && j < actions[o]->0.end
        }),
        actions[o]->0.end == o + schedule::occurrences(schedule::occurrences(plan)[o]).len(),
        ({
            let nodes = schedule::occurrences(plan);
            let (m, n) = (cse::cost_of(nodes[i], descs, p).0, cse::cost_of(nodes[o], descs, p).0);
            m <= usize::MAX && n <= usize::MAX ==> (nodes.filter(
                |a: PlanView| a == nodes[i],
            ).len() - 1) * m <= (nodes.filter(|a: PlanView| a == nodes[o]).len() - 1) * n
        }),
{
    let nodes = schedule::occurrences(plan);
    assert(cse::repeats(nodes, i, j));
    schedule::lemma_occurrences_len(nodes[i]);
    let at = if cse::touched(nodes, actions, i, descs, p) {
        i
    } else {
        j
    };
    assert(cse::touched(nodes, actions, at, descs, p));
    let o = choose|o: int| #[trigger]
        schedule::is_action(actions, o) && o < at + schedule::plan_size(nodes[at]) && at < actions[o]->0.end
            && !cse::goes_first(nodes, nodes[at], nodes[o], descs, p);
    schedule::lemma_occurrences_len(nodes[o]);
    lemma_times(nodes, nodes[i], nodes.len() as int);
    lemma_times(nodes, nodes[o], nodes.len() as int);
    assert(nodes.take(nodes.len() as int) =~= nodes);
    let (f, g) = (|a: PlanView| a == nodes[i], |a: PlanView| a == nodes[o]);
    lemma_same_filter(nodes, f, nodes[i]);
    lemma_same_filter(nodes, g, nodes[o]);
    let (x, y) = (cse::savings(nodes, nodes[at], descs, p), cse::savings(nodes, nodes[o], descs, p));
    assert(x.0 <= y.0);
    o
}

proof fn lemma_same_filter(nodes: Seq<PlanView>, f: spec_fn(PlanView) -> bool, x: PlanView)
    requires
        forall|a: PlanView| #[trigger] f(a) == (a == x),
    ensures
        nodes.filter(f) == nodes.filter(|b: PlanView| b == x),
    decreases nodes.len(),
{
    reveal(Seq::filter);
    if nodes.len() > 0 {
        lemma_same_filter(nodes.drop_last(), f, x);
    }
}

proof fn lemma_times(nodes: Seq<PlanView>, a: PlanView, n: int)
    requires
        0 <= n <= nodes.len(),
    ensures
        cse::times_of(nodes, a, n) == nodes.take(n).filter(|b: PlanView| b == a).len(),
    decreases n,
{
    reveal(Seq::filter);
    let t = nodes.take(n);
    if n > 0 {
        lemma_times(nodes, a, n - 1);
        assert(t.drop_last() =~= nodes.take(n - 1));
        assert(t.last() == nodes[n - 1]);
    }
}

/// No more linear terms are stored than the budget has entries.
pub proof fn law_linear_terms_within_budget(
    plan: PlanView,
    actions: Seq<Option<CacheAction>>,
    slots: int,
    descs: Seq<ScalarView>,
    p: int,
    budget: LinearTermCacheBudget,
)
    requires
        cse::good_schedule(plan, actions, slots, descs, p, budget),
    ensures
        Seq::new(
            schedule::occurrences(plan).len(),
            |o: int|
                if actions[o] is Some && actions[o]->0.store && schedule::occurrences(
                    plan,
                )[o].op is LinearTerm {
                    1int
                } else {
                    0
                },
        ).fold_left(0int, |a: int, b: int| a + b) <= budget.max_entries,
{
    lemma_linear_stores(schedule::occurrences(plan), actions, schedule::occurrences(plan).len() as int);
}

proof fn lemma_linear_stores(nodes: Seq<PlanView>, actions: Seq<Option<CacheAction>>, n: int)
    requires
        0 <= n <= nodes.len(),
        actions.len() == nodes.len(),
    ensures
        cse::linear_stores(nodes, actions, n) == Seq::new(
            n as nat,
            |o: int|
                if actions[o] is Some && actions[o]->0.store && nodes[o].op is LinearTerm {
                    1int
                } else {
                    0
                },
        ).fold_left(0int, |a: int, b: int| a + b),
    decreases n,
{
    let t = Seq::new(
        n as nat,
        |o: int|
            if actions[o] is Some && actions[o]->0.store && nodes[o].op is LinearTerm {
                1int
            } else {
                0
            },
    );
    if n > 0 {
        lemma_linear_stores(nodes, actions, n - 1);
        assert(t.drop_last() =~= Seq::new(
            (n - 1) as nat,
            |o: int|
                if actions[o] is Some && actions[o]->0.store && nodes[o].op is LinearTerm {
                    1int
                } else {
                    0
                },
        ));
    }
}

/// A retained layout is accepted for a plan that has as many nodes as the layout counts, and
/// none that is cached, where each event is at a node, ends behind it and before the next
/// event, and uses a slot that there is, and each load follows a store in its slot, with no
/// other store there in between, of an equal node that is not a combination with powers. The
/// store's place is given for each load.
pub proof fn law_layout_is_accepted(
    plan: PlanView,
    layout: EvaluationCacheLayout,
    sources: Seq<int>,
)
    requires
        schedule::occurrences(plan).len() == layout.occurrence_count,
        forall|o: int|
            0 <= o < schedule::occurrences(plan).len() ==> {
                let op = (#[trigger] schedule::occurrences(plan)[o]).op;
                !(op is Store) && !(op is Load)
            },
        sources.len() == layout.events@.len(),
        forall|i: int|
            0 <= i < layout.events@.len() ==> {
                let event = #[trigger] layout.events@[i];
                let node = schedule::occurrences(plan)[event.occurrence as int];
                &&& event.reserved == 0
                &&& event.kind == 0 || event.kind == 1
                &&& event.slot < layout.cache_slots
                &&& event.occurrence < schedule::occurrences(plan).len()
                &&& event.end == event.occurrence + schedule::occurrences(node).len()
                &&& i + 1 < layout.events@.len() ==> event.end <= layout.events@[i + 1].occurrence
                &&& event.kind == 0 ==> {
                    let store = layout.events@[sources[i]];
                    &&& 0 <= sources[i] < i
                    &&& store.kind == 1
                    &&& store.slot == event.slot
                    &&& schedule::occurrences(plan)[store.occurrence as int] == node
                    &&& occurrence::arithmetic(node)
                    &&& forall|k: int|
                        sources[i] < k < i && (#[trigger] layout.events@[k]).kind == 1
                            ==> layout.events@[k].slot != event.slot
                }
            },
    ensures
        retained::layout_fits(plan, layout),
{
    let nodes = schedule::occurrences(plan);
    let events = layout.events@;
    assert forall|i: int| 0 <= i < events.len() implies #[trigger] retained::event_fits(
        nodes,
        events,
        layout.cache_slots as int,
        i,
    ) by {
        let event = events[i];
        schedule::lemma_occurrences_len(nodes[event.occurrence as int]);
        if event.kind == 0 {
            assert(retained::event_source(events, sources[i], i));
        }
    }
}

/// What holds of every event of a layout that is accepted for a plan, and where the store of
/// a load stands.
pub proof fn law_accepted_layout(plan: PlanView, layout: EvaluationCacheLayout, i: int) -> (j: int)
    requires
        retained::layout_fits(plan, layout),
        0 <= i < layout.events@.len(),
    ensures
        schedule::occurrences(plan).len() == layout.occurrence_count,
        forall|o: int|
            0 <= o < schedule::occurrences(plan).len() ==> {
                let op = (#[trigger] schedule::occurrences(plan)[o]).op;
                !(op is Store) && !(op is Load)
            },
        ({
            let event = layout.events@[i];
            let node = schedule::occurrences(plan)[event.occurrence as int];
            &&& event.reserved == 0
            &&& event.kind == 0 || event.kind == 1
            &&& event.slot < layout.cache_slots
            &&& event.occurrence < schedule::occurrences(plan).len()
            &&& event.end == event.occurrence + schedule::occurrences(node).len()
            &&& i + 1 < layout.events@.len() ==> event.end <= layout.events@[i + 1].occurrence
            &&& event.kind == 0 ==> {
                let store = layout.events@[j];
                &&& 0 <= j < i
                &&& store.kind == 1
                &&& store.slot == event.slot
                &&& schedule::occurrences(plan)[store.occurrence as int] == node
                &&& occurrence::arithmetic(node)
                &&& forall|k: int|
                    j < k < i && (#[trigger] layout.events@[k]).kind == 1 ==> layout.events@[k].slot
                        != event.slot
            }
        }),
{
    let nodes = schedule::occurrences(plan);
    let events = layout.events@;
    assert(retained::event_fits(nodes, events, layout.cache_slots as int, i));
    let event = events[i];
    schedule::lemma_occurrences_len(nodes[event.occurrence as int]);
    choose|j: int| #[trigger]
        retained::event_source(events, j, i) && nodes[events[j].occurrence as int]
            == nodes[event.occurrence as int] && occurrence::arithmetic(nodes[event.occurrence as int])
}

} // verus!
