//! Schedules for a cache of repeated sub-plans: which occurrences of a plan are stored
//! and which are loaded, and why this leaves the value of the plan as it is.
use crate::ast::RowEnv;
use crate::plan;
use crate::plan::{PlanOp, PlanView};
use vstd::prelude::*;

verus! {

/// The number of nodes of a plan.
pub open spec fn plan_size(a: PlanView) -> nat
    decreases a,
{
    1 + plan_sizes(a.children)
}

pub open spec fn plan_sizes(s: Seq<PlanView>) -> nat
    decreases s,
{
    if s.len() == 0 {
        0
    } else {
        plan_sizes(s.drop_last()) + plan_size(s.last())
    }
}

/// The nodes of a plan in the order in which they are entered.
pub open spec fn occurrences(a: PlanView) -> Seq<PlanView>
    decreases a,
{
    seq![a] + all_occurrences(a.children)
}

pub open spec fn all_occurrences(s: Seq<PlanView>) -> Seq<PlanView>
    decreases s,
{
    if s.len() == 0 {
        Seq::empty()
    } else {
        all_occurrences(s.drop_last()) + occurrences(s.last())
    }
}

pub proof fn lemma_occurrences_len(a: PlanView)
    ensures
        occurrences(a).len() == plan_size(a),
        plan_size(a) >= 1,
    decreases a,
{
    lemma_all_occurrences_len(a.children);
}

pub proof fn lemma_all_occurrences_len(s: Seq<PlanView>)
    ensures
        all_occurrences(s).len() == plan_sizes(s),
    decreases s,
{
    if s.len() > 0 {
        lemma_all_occurrences_len(s.drop_last());
        lemma_occurrences_len(s.last());
    }
}

pub proof fn lemma_plan_sizes_add(a: Seq<PlanView>, b: Seq<PlanView>)
    ensures
        plan_sizes(a + b) == plan_sizes(a) + plan_sizes(b),
        all_occurrences(a + b) == all_occurrences(a) + all_occurrences(b),
    decreases b.len(),
{
    if b.len() == 0 {
        assert(a + b =~= a);
        assert(all_occurrences(a) + all_occurrences(b) =~= all_occurrences(a));
    } else {
        assert((a + b).drop_last() =~= a + b.drop_last());
        lemma_plan_sizes_add(a, b.drop_last());
        assert(all_occurrences(a) + all_occurrences(b.drop_last()) + occurrences(b.last())
            =~= all_occurrences(a) + (all_occurrences(b.drop_last()) + occurrences(b.last())));
    }
}

pub proof fn lemma_plan_sizes_one(a: PlanView)
    ensures
        plan_sizes(seq![a]) == plan_size(a),
        all_occurrences(seq![a]) == occurrences(a),
        plan_sizes(Seq::<PlanView>::empty()) == 0,
        all_occurrences(Seq::<PlanView>::empty()) == Seq::<PlanView>::empty(),
{
    assert(seq![a].drop_last() =~= Seq::<PlanView>::empty());
    assert(all_occurrences(seq![a]) == all_occurrences(seq![a].drop_last()) + occurrences(
        seq![a].last(),
    ));
    assert(plan_sizes(seq![a]) == plan_sizes(seq![a].drop_last()) + plan_size(seq![a].last()));
    assert(Seq::<PlanView>::empty() + occurrences(a) =~= occurrences(a));
}

/// What is done at one occurrence of a cached plan.
#[derive(Clone, Copy, Debug)]
pub struct CacheAction {
    pub slot: usize,
    pub store: bool,
    /// The occurrence after the last one below this.
    pub end: usize,
}

/// The plan under `actions`, of which the first occurrence is number `o`.
pub open spec fn applied(a: PlanView, actions: Seq<Option<CacheAction>>, o: int) -> PlanView
    decreases a,
{
    match actions[o] {
        Some(action) => if action.store {
            plan::plan_node1(
                PlanOp::Store(action.slot as int),
                PlanView { op: a.op, children: all_applied(a.children, actions, o + 1) },
            )
        } else {
            plan::plan_leaf(PlanOp::Load(action.slot as int))
        },
        None => PlanView { op: a.op, children: all_applied(a.children, actions, o + 1) },
    }
}

pub open spec fn all_applied(s: Seq<PlanView>, actions: Seq<Option<CacheAction>>, o: int) -> Seq<
    PlanView,
>
    decreases s,
{
    if s.len() == 0 {
        Seq::empty()
    } else {
        all_applied(s.drop_last(), actions, o).push(
            applied(s.last(), actions, o + plan_sizes(s.drop_last())),
        )
    }
}

pub proof fn lemma_all_applied_len(s: Seq<PlanView>, actions: Seq<Option<CacheAction>>, o: int)
    ensures
        all_applied(s, actions, o).len() == s.len(),
    decreases s.len(),
{
    if s.len() > 0 {
        lemma_all_applied_len(s.drop_last(), actions, o);
    }
}

pub proof fn lemma_all_applied_add(
    a: Seq<PlanView>,
    b: Seq<PlanView>,
    actions: Seq<Option<CacheAction>>,
    o: int,
)
    ensures
        all_applied(a + b, actions, o) == all_applied(a, actions, o) + all_applied(
            b,
            actions,
            o + plan_sizes(a),
        ),
    decreases b.len(),
{
    if b.len() == 0 {
        assert(a + b =~= a);
        assert(all_applied(a, actions, o) + Seq::<PlanView>::empty() =~= all_applied(
            a,
            actions,
            o,
        ));
    } else {
        let front = b.drop_last();
        assert((a + b).drop_last() =~= a + front);
        lemma_all_applied_add(a, front, actions, o);
        lemma_plan_sizes_add(a, front);
        let at = o + plan_sizes(a);
        assert(all_applied(a + b, actions, o) =~= all_applied(a, actions, o) + all_applied(
            b,
            actions,
            at,
        ));
    }
}

pub proof fn lemma_all_applied_one(a: PlanView, actions: Seq<Option<CacheAction>>, o: int)
    ensures
        all_applied(seq![a], actions, o) == seq![applied(a, actions, o)],
        all_applied(Seq::<PlanView>::empty(), actions, o) == Seq::<PlanView>::empty(),
{
    assert(seq![a].drop_last() =~= Seq::<PlanView>::empty());
    assert(all_applied(seq![a], actions, o) == all_applied(seq![a].drop_last(), actions, o).push(
        applied(seq![a].last(), actions, o + plan_sizes(seq![a].drop_last())),
    ));
    assert(all_applied(seq![a], actions, o) =~= seq![applied(a, actions, o)]);
}

pub open spec fn is_action(actions: Seq<Option<CacheAction>>, o: int) -> bool {
    0 <= o < actions.len() && actions[o] is Some
}

/// Occurrence `o` is stored in the given slot.
pub open spec fn is_store(actions: Seq<Option<CacheAction>>, o: int, slot: int) -> bool {
    is_action(actions, o) && actions[o]->0.store && actions[o]->0.slot == slot
}

/// Occurrence `s` is the last one before `o` that is stored in its slot.
pub open spec fn last_store(
    actions: Seq<Option<CacheAction>>,
    s: int,
    o: int,
    slot: int,
) -> bool {
    &&& s < o
    &&& is_store(actions, s, slot)
    &&& forall|t: int| s < t < o ==> !#[trigger] is_store(actions, t, slot)
}

/// Every load takes what an equal occurrence before it stored last in its slot, and
/// nothing below an occurrence with an action has an action of its own.
pub open spec fn valid_schedule(
    nodes: Seq<PlanView>,
    actions: Seq<Option<CacheAction>>,
    slots: int,
) -> bool {
    &&& actions.len() == nodes.len()
    &&& forall|o: int|
        #[trigger] is_action(actions, o) ==> actions[o]->0.slot < slots && actions[o]->0.end == o
            + plan_size(nodes[o])
    &&& forall|o: int, t: int|
        #[trigger] is_action(actions, o) && #[trigger] is_action(actions, t) && o < t
            ==> actions[o]->0.end <= t
    &&& forall|o: int|
        #[trigger] is_action(actions, o) && !actions[o]->0.store ==> exists|s: int|
            #[trigger] last_store(actions, s, o, actions[o]->0.slot as int) && nodes[s] == nodes[o]
}

/// The plan reads and writes no cache.
pub open spec fn uncached(nodes: Seq<PlanView>) -> bool {
    forall|o: int|
        0 <= o < nodes.len() ==> !((#[trigger] nodes[o]).op is Store) && !(nodes[o].op is Load)
}

/// Before occurrence `o`, the slots hold the values of the occurrences that were
/// stored in them last.
pub open spec fn cache_holds(
    nodes: Seq<PlanView>,
    actions: Seq<Option<CacheAction>>,
    o: int,
    sv: Seq<int>,
    env: RowEnv,
    cache: Seq<int>,
) -> bool {
    forall|s: int, slot: int|
        #[trigger] last_store(actions, s, o, slot) ==> cache[slot] == plan::plan_value(nodes[s], sv, env)
}

/// Evaluation under a schedule gives the values without it, whatever the cache holds
/// at first.
proof fn lemma_applied_value(
    a: PlanView,
    nodes: Seq<PlanView>,
    actions: Seq<Option<CacheAction>>,
    slots: int,
    o: int,
    sv: Seq<int>,
    env: RowEnv,
    cache: Seq<int>,
)
    requires
        env.p > 0,
        valid_schedule(nodes, actions, slots),
        uncached(nodes),
        0 <= o,
        o + plan_size(a) <= nodes.len(),
        nodes.subrange(o, o + plan_size(a)) == occurrences(a),
        cache.len() >= slots,
        cache_holds(nodes, actions, o, sv, env, cache),
    ensures
        ({
            let (v, c) = plan::cached_value(applied(a, actions, o), sv, env, cache);
            &&& v == plan::plan_value(a, sv, env)
            &&& c.len() == cache.len()
            &&& cache_holds(nodes, actions, o + plan_size(a), sv, env, c)
        }),
    decreases a,
{
    lemma_occurrences_len(a);
    let end = o + plan_size(a);
    assert(nodes[o] == nodes.subrange(o, end)[0]);
    assert(nodes[o] == a);
    assert(is_action(actions, o) <==> actions[o] is Some);
    let plain = PlanView { op: a.op, children: all_applied(a.children, actions, o + 1) };
    assert(nodes.subrange(o + 1, end) =~= nodes.subrange(o, end).skip(1));
    assert(occurrences(a).skip(1) =~= all_occurrences(a.children));
    if actions[o] is None {
        assert(cache_holds(nodes, actions, o + 1, sv, env, cache)) by {
            lemma_holds_shift(nodes, actions, o, o + 1, sv, env, cache);
        }
        lemma_all_applied_value(
            a.children,
            nodes,
            actions,
            slots,
            o + 1,
            sv,
            env,
            cache,
        );
        assert(plan::cached_value(plain, sv, env, cache).0 == plan::plan_value(a, sv, env));
    } else {
        let action = actions[o]->0;
        let slot = action.slot as int;
        assert(action.end == end);
        if action.store {
            // No action stands below this one, so the operands neither read nor
            // write the cache.
            lemma_quiet(a.children, nodes, actions, slots, o, o + 1, sv, env, cache);
            let (v, c) = plan::cached_values(plain.children, sv, env, cache);
            let x = plan::cached_value(plain, sv, env, cache);
            assert(x.0 == plan::plan_value(a, sv, env) && x.1 == cache);
            let whole = applied(a, actions, o);
            plan::lemma_cached_values_one(plain, sv, env, cache);
            let after = cache.update(slot, x.0);
            assert(plan::cached_value(whole, sv, env, cache) == (x.0, after));
            assert forall|s: int, k: int|
                #[trigger] last_store(actions, s, end, k) implies after[k] == plan::plan_value(
                nodes[s],
                sv,
                env,
            ) by {
                assert(is_action(actions, s));
                assert(is_store(actions, o, slot));
                if s > o {
                    assert(actions[o]->0.end <= s);
                } else if s == o {
                } else {
                    if k == slot {
                        assert(!is_store(actions, o, k));
                    }
                    assert(last_store(actions, s, o, k));
                    assert(k < slots);
                }
            }
        } else {
            let s = choose|s: int|
                #[trigger] last_store(actions, s, o, slot) && nodes[s] == nodes[o];
            assert(last_store(actions, s, o, slot));
            assert(cache[slot] == plan::plan_value(nodes[s], sv, env));
            lemma_holds_shift(nodes, actions, o, end, sv, env, cache);
        }
    }
}

/// The slots hold the same over a range without stores.
proof fn lemma_holds_shift(
    nodes: Seq<PlanView>,
    actions: Seq<Option<CacheAction>>,
    o: int,
    end: int,
    sv: Seq<int>,
    env: RowEnv,
    cache: Seq<int>,
)
    requires
        o <= end,
        cache_holds(nodes, actions, o, sv, env, cache),
        forall|t: int, k: int| o <= t < end ==> !#[trigger] is_store(actions, t, k) || {
            &&& is_action(actions, o)
            &&& is_action(actions, t)
            &&& o < t
            &&& actions[o]->0.end <= t
            &&& actions[o]->0.end >= end
        },
    ensures
        cache_holds(nodes, actions, end, sv, env, cache),
{
    assert forall|s: int, k: int| #[trigger] last_store(actions, s, end, k) implies cache[k]
        == plan::plan_value(nodes[s], sv, env) by {
        assert(is_store(actions, s, k));
        assert(s < o);
        assert(last_store(actions, s, o, k));
    }
}

proof fn lemma_all_applied_value(
    s: Seq<PlanView>,
    nodes: Seq<PlanView>,
    actions: Seq<Option<CacheAction>>,
    slots: int,
    o: int,
    sv: Seq<int>,
    env: RowEnv,
    cache: Seq<int>,
)
    requires
        env.p > 0,
        valid_schedule(nodes, actions, slots),
        uncached(nodes),
        0 <= o,
        o + plan_sizes(s) <= nodes.len(),
        nodes.subrange(o, o + plan_sizes(s)) == all_occurrences(s),
        cache.len() >= slots,
        cache_holds(nodes, actions, o, sv, env, cache),
    ensures
        ({
            let (v, c) = plan::cached_values(all_applied(s, actions, o), sv, env, cache);
            &&& v == plan::plan_values(s, sv, env)
            &&& c.len() == cache.len()
            &&& cache_holds(nodes, actions, o + plan_sizes(s), sv, env, c)
        }),
    decreases s,
{
    if s.len() > 0 {
        let front = s.drop_last();
        let mid = o + plan_sizes(front);
        let end = o + plan_sizes(s);
        lemma_all_occurrences_len(front);
        lemma_occurrences_len(s.last());
        assert(nodes.subrange(o, mid) =~= nodes.subrange(o, end).take(mid - o));
        assert(all_occurrences(s).take(mid - o) =~= all_occurrences(front));
        lemma_all_applied_value(front, nodes, actions, slots, o, sv, env, cache);
        let list = all_applied(s, actions, o);
        assert(list.drop_last() =~= all_applied(front, actions, o));
        let (v, c) = plan::cached_values(list.drop_last(), sv, env, cache);
        assert(nodes.subrange(mid, end) =~= nodes.subrange(o, end).skip(mid - o));
        assert(all_occurrences(s).skip(mid - o) =~= occurrences(s.last()));
        lemma_applied_value(s.last(), nodes, actions, slots, mid, sv, env, c);
    }
}

/// Below an occurrence with an action, evaluation leaves the cache alone.
proof fn lemma_quiet(
    s: Seq<PlanView>,
    nodes: Seq<PlanView>,
    actions: Seq<Option<CacheAction>>,
    slots: int,
    top: int,
    o: int,
    sv: Seq<int>,
    env: RowEnv,
    cache: Seq<int>,
)
    requires
        valid_schedule(nodes, actions, slots),
        uncached(nodes),
        is_action(actions, top),
        top < o,
        o + plan_sizes(s) <= actions[top]->0.end <= nodes.len(),
        nodes.subrange(o, o + plan_sizes(s)) == all_occurrences(s),
    ensures
        plan::cached_values(all_applied(s, actions, o), sv, env, cache) == (
            plan::plan_values(s, sv, env),
            cache,
        ),
    decreases s,
{
    if s.len() > 0 {
        let front = s.drop_last();
        let last = s.last();
        let mid = o + plan_sizes(front);
        let end = o + plan_sizes(s);
        lemma_all_occurrences_len(front);
        lemma_occurrences_len(last);
        assert(nodes.subrange(o, mid) =~= nodes.subrange(o, end).take(mid - o));
        assert(all_occurrences(s).take(mid - o) =~= all_occurrences(front));
        lemma_quiet(front, nodes, actions, slots, top, o, sv, env, cache);
        let list = all_applied(s, actions, o);
        assert(list.drop_last() =~= all_applied(front, actions, o));
        assert(nodes.subrange(mid, end) =~= nodes.subrange(o, end).skip(mid - o));
        assert(all_occurrences(s).skip(mid - o) =~= occurrences(last));
        assert(actions[mid] is None) by {
            if actions[mid] is Some {
                assert(is_action(actions, mid));
            }
        }
        assert(nodes[mid] == nodes.subrange(mid, end)[0]);
        assert(nodes[mid] == last);
        assert(nodes.subrange(mid + 1, end) =~= nodes.subrange(mid, end).skip(1));
        assert(occurrences(last).skip(1) =~= all_occurrences(last.children));
        lemma_quiet(last.children, nodes, actions, slots, top, mid + 1, sv, env, cache);
        let plain = PlanView { op: last.op, children: all_applied(last.children, actions, mid + 1) };
        assert(applied(last, actions, mid) == plain);
        assert(list.last() == plain);
        assert(plan::cached_value(plain, sv, env, cache) == (plan::plan_value(last, sv, env), cache));
    }
}

/// A cached plan has the value of the plan that it comes from, at every row, for all
/// scalars and whatever the cache holds at first.
pub proof fn law_cached_plan_keeps_values(
    plan: PlanView,
    actions: Seq<Option<CacheAction>>,
    slots: int,
    sv: Seq<int>,
    env: RowEnv,
    cache: Seq<int>,
)
    requires
        env.p > 0,
        valid_schedule(occurrences(plan), actions, slots),
        uncached(occurrences(plan)),
        cache.len() >= slots,
    ensures
        plan::cached_value(applied(plan, actions, 0), sv, env, cache).0 == plan::plan_value(plan, sv, env),
        plan::cached_value(applied(plan, actions, 0), sv, env, cache).1.len() == cache.len(),
{
    lemma_occurrences_len(plan);
    let nodes = occurrences(plan);
    assert(nodes.subrange(0, plan_size(plan) as int) =~= nodes);
    assert forall|s: int, slot: int| !#[trigger] last_store(actions, s, 0, slot) by {
    }
    lemma_applied_value(plan, nodes, actions, slots, 0, sv, env, cache);
}

/// Caching at most doubles a plan.
pub proof fn lemma_applied_size(a: PlanView, actions: Seq<Option<CacheAction>>, o: int)
    ensures
        plan_size(applied(a, actions, o)) <= 2 * plan_size(a),
    decreases a,
{
    lemma_all_applied_size(a.children, actions, o + 1);
    let inner = PlanView { op: a.op, children: all_applied(a.children, actions, o + 1) };
    lemma_plan_sizes_one(inner);
    lemma_occurrences_len(a);
}

proof fn lemma_all_applied_size(s: Seq<PlanView>, actions: Seq<Option<CacheAction>>, o: int)
    ensures
        plan_sizes(all_applied(s, actions, o)) <= 2 * plan_sizes(s),
    decreases s,
{
    if s.len() > 0 {
        lemma_all_applied_size(s.drop_last(), actions, o);
        lemma_applied_size(s.last(), actions, o + plan_sizes(s.drop_last()));
        let t = all_applied(s, actions, o);
        assert(t.drop_last() =~= all_applied(s.drop_last(), actions, o));
    }
}

} // verus!
