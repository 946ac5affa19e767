//! Retained cache schedules: a sparse list of events that can be applied again to the
//! plan of another proof, once it is shown to fit.
use crate::apply;
use crate::apply::apply_cache_actions;
use crate::occurrence;
use crate::occurrence::{PlanOccurrence, collect_plan_occurrences, same_plan};
use crate::plan::{EvaluationPlan, PlanView};
use crate::schedule;
use crate::schedule::CacheAction;
use vstd::prelude::*;

verus! {

pub const CACHE_EVENT_LOAD: u8 = 0;

pub const CACHE_EVENT_STORE: u8 = 1;

/// One action of a retained schedule.
#[derive(Clone, Copy, Debug)]
pub struct CacheEvent {
    pub occurrence: u32,
    pub end: u32,
    pub slot: u16,
    pub kind: u8,
    pub reserved: u8,
}

impl CacheEvent {
    pub open spec fn action(self) -> CacheAction {
        CacheAction {
            slot: self.slot as usize,
            store: self.kind == CACHE_EVENT_STORE,
            end: self.end as usize,
        }
    }
}

/// A sparse, circuit-count-specific evaluator cache schedule.
pub struct EvaluationCacheLayout {
    pub events: Vec<CacheEvent>,
    pub occurrence_count: u32,
    pub cache_slots: u16,
}

/// One of the events is at occurrence `o`.
pub open spec fn has_event(events: Seq<CacheEvent>, o: int) -> bool {
    exists|i: int| 0 <= i < events.len() && (#[trigger] events[i]).occurrence == o
}

/// The actions that the events stand for.
pub open spec fn event_actions(events: Seq<CacheEvent>, n: int) -> Seq<Option<CacheAction>> {
    Seq::new(
        n as nat,
        |o: int|
            if has_event(events, o) {
                let i = choose|i: int|
                    0 <= i < events.len() && (#[trigger] events[i]).occurrence == o;
                Some(events[i].action())
            } else {
                None
            },
    )
}

/// The events are in the order of their occurrences.
pub open spec fn in_order(events: Seq<CacheEvent>) -> bool {
    forall|i: int, j: int|
        0 <= i < j < events.len() ==> (#[trigger] events[i]).occurrence < (
        #[trigger] events[j]).occurrence
}

proof fn lemma_event_at(events: Seq<CacheEvent>, n: int, i: int)
    requires
        in_order(events),
        0 <= i < events.len(),
        events[i].occurrence < n,
    ensures
        event_actions(events, n)[events[i].occurrence as int] == Some(events[i].action()),
{
    let o = events[i].occurrence as int;
    assert(has_event(events, o));
    let j = choose|j: int| 0 <= j < events.len() && (#[trigger] events[j]).occurrence == o;
    if i < j {
        assert(events[i].occurrence < events[j].occurrence);
    }
    if j < i {
        assert(events[j].occurrence < events[i].occurrence);
    }
}

/// Whether an action can be retained.
pub open spec fn retainable(action: CacheAction) -> bool {
    action.slot <= u16::MAX && action.end <= u32::MAX
}

/// Event `j` is the last store in its slot before event `i`.
pub open spec fn event_source(events: Seq<CacheEvent>, j: int, i: int) -> bool {
    &&& 0 <= j < i
    &&& events[j].kind == CACHE_EVENT_STORE
    &&& events[j].slot == events[i].slot
    &&& forall|k: int|
        #![trigger events[k]]
        j < k < i ==> !(events[k].kind == CACHE_EVENT_STORE && events[k].slot == events[i].slot)
}

/// Event `i` fits the nodes of a plan.
pub open spec fn event_fits(
    nodes: Seq<PlanView>,
    events: Seq<CacheEvent>,
    cache_slots: int,
    i: int,
) -> bool {
    let event = events[i];
    &&& event.reserved == 0
    &&& event.kind <= CACHE_EVENT_STORE
    &&& event.slot < cache_slots
    &&& event.occurrence < nodes.len()
    &&& event.end == event.occurrence + schedule::plan_size(nodes[event.occurrence as int])
    &&& i + 1 < events.len() ==> event.end <= events[i + 1].occurrence
    &&& event.kind == CACHE_EVENT_LOAD ==> exists|j: int| #[trigger]
        event_source(events, j, i) && nodes[events[j].occurrence as int]
            == nodes[event.occurrence as int] && occurrence::arithmetic(nodes[event.occurrence as int])
}

/// The layout fits a plan: it counts its nodes, and every load takes what an equal
/// occurrence stored last in its slot.
pub open spec fn layout_fits(plan: PlanView, layout: EvaluationCacheLayout) -> bool {
    let nodes = schedule::occurrences(plan);
    &&& nodes.len() == layout.occurrence_count
    &&& schedule::uncached(nodes)
    &&& forall|i: int|
        0 <= i < layout.events@.len() ==> #[trigger] event_fits(
            nodes,
            layout.events@,
            layout.cache_slots as int,
            i,
        )
}

impl EvaluationCacheLayout {
    /// Retains a schedule, unless its numbers do not fit the retained form.
    pub fn from_actions(actions: &[Option<CacheAction>], cache_slots: usize) -> (r: Option<Self>)
        ensures
            r is Some <==> {
                &&& actions@.len() <= u32::MAX
                &&& cache_slots <= u16::MAX
                &&& forall|o: int|
                    0 <= o < actions@.len() ==> (#[trigger] actions@[o] matches Some(action)
                        ==> retainable(action))
            },
            r matches Some(layout) ==> {
                &&& layout.occurrence_count == actions@.len()
                &&& layout.cache_slots == cache_slots
                &&& in_order(layout.events@)
                &&& forall|i: int|
                    0 <= i < layout.events@.len() ==> (#[trigger] layout.events@[i]).occurrence
                        < actions@.len() && layout.events@[i].reserved == 0
                        && layout.events@[i].kind <= CACHE_EVENT_STORE
                &&& event_actions(layout.events@, actions@.len() as int) == actions@
            },
    {
        if actions.len() > u32::MAX as usize || cache_slots > u16::MAX as usize {
            return None;
        }
        let mut events: Vec<CacheEvent> = Vec::new();
        let mut o: usize = 0;
        while o < actions.len()
            invariant
                o <= actions@.len() <= u32::MAX,
                forall|k: int|
                    0 <= k < o ==> (#[trigger] actions@[k] matches Some(action) ==> retainable(
                        action,
                    ) && has_event(events@, k)),
                forall|i: int|
                    #![trigger events@[i]]
                    0 <= i < events@.len() ==> {
                        &&& events@[i].occurrence < o
                        &&& events@[i].reserved == 0
                        &&& events@[i].kind <= CACHE_EVENT_STORE
                        &&& actions@[events@[i].occurrence as int] == Some(events@[i].action())
                    },
                in_order(events@),
            decreases actions@.len() - o,
        {
            let ghost before = events@;
            if let Some(action) = actions[o] {
                if action.slot > u16::MAX as usize || action.end > u32::MAX as usize {
                    assert(!retainable(actions@[o as int]->0));
                    return None;
                }
                let kind = if action.store {
                    CACHE_EVENT_STORE
                } else {
                    CACHE_EVENT_LOAD
                };
                events.push(
                    CacheEvent {
                        occurrence: o as u32,
                        end: action.end as u32,
                        slot: action.slot as u16,
                        kind,
                        reserved: 0,
                    },
                );
                proof {
                    assert(events@[before.len() as int].occurrence == o);
                    assert(has_event(events@, o as int));
                    assert forall|k: int| 0 <= k < o + 1 implies (
                    #[trigger] actions@[k] matches Some(action) ==> retainable(action)
                        && has_event(events@, k)) by {
                        if k < o && actions@[k] is Some {
                            let i = choose|i: int|
                                0 <= i < before.len() && (#[trigger] before[i]).occurrence == k;
                            assert(events@[i].occurrence == k);
                        }
                    }
                }
            }
            o += 1;
        }
        proof {
            let n = actions@.len() as int;
            assert forall|k: int| 0 <= k < n implies #[trigger] event_actions(events@, n)[k]
                == actions@[k] by {
                if has_event(events@, k) {
                    let i = choose|i: int|
                        0 <= i < events@.len() && (#[trigger] events@[i]).occurrence == k;
                    lemma_event_at(events@, n, i);
                } else {
                    assert(actions@[k] is None);
                }
            }
            assert(event_actions(events@, n) =~= actions@);
        }
        Some(
            EvaluationCacheLayout {
                events,
                occurrence_count: actions.len() as u32,
                cache_slots: cache_slots as u16,
            },
        )
    }

    pub fn is_valid_for(&self, plan: &EvaluationPlan) -> (r: bool)
        ensures
            r <==> layout_fits(plan.view(), *self),
    {
        validate_cache_events(plan, self)
    }
}

/// Every event so far fits, and the slots hold the plans that were stored last.
spec fn stores_kept<'a>(
    nodes: Seq<PlanView>,
    events: Seq<CacheEvent>,
    k: int,
    stores: Seq<Option<&'a EvaluationPlan>>,
) -> bool {
    forall|slot: int|
        0 <= slot < stores.len() ==> match #[trigger] stores[slot] {
            None => forall|j: int|
                #![trigger events[j]]
                0 <= j < k ==> !(events[j].kind == CACHE_EVENT_STORE && events[j].slot == slot),
            Some(plan) => exists|j: int| #[trigger]
                stored_at(events, j, k, slot) && plan.view()
                    == nodes[events[j].occurrence as int],
        }
}

/// Event `j` is the last store in the slot among the first `k` events.
spec fn stored_at(events: Seq<CacheEvent>, j: int, k: int, slot: int) -> bool {
    &&& 0 <= j < k
    &&& events[j].kind == CACHE_EVENT_STORE
    &&& events[j].slot == slot
    &&& forall|l: int|
        #![trigger events[l]]
        j < l < k ==> !(events[l].kind == CACHE_EVENT_STORE && events[l].slot == slot)
}

/// Whether a retained layout fits a plan.
pub fn validate_cache_events(plan: &EvaluationPlan, layout: &EvaluationCacheLayout) -> (r: bool)
    ensures
        r <==> layout_fits(plan.view(), *layout),
{
    let ghost list = schedule::occurrences(plan.view());
    let ghost events = layout.events@;
    let mut nodes: Vec<PlanOccurrence> = Vec::new();
    collect_plan_occurrences(plan, &mut nodes);
    proof {
        schedule::lemma_occurrences_len(plan.view());
    }
    if nodes.len() != layout.occurrence_count as usize {
        return false;
    }
    let mut o: usize = 0;
    while o < nodes.len()
        invariant
            o <= nodes@.len(),
            list == schedule::occurrences(plan.view()),
            nodes@.len() == list.len(),
            occurrence::lists(nodes@, 0, list),
            forall|k: int| 0 <= k < o ==> !((#[trigger] list[k]).op is Store) && !(list[k].op is Load),
        decreases nodes@.len() - o,
    {
        assert(occurrence::node_fits(nodes@[0 + o as int], list[o as int], 0 + o as int));
        match nodes[o].plan {
            EvaluationPlan::CacheStore { slot, inner } => {
                return false;
            },
            EvaluationPlan::CacheLoad { slot } => {
                return false;
            },
            _ => {},
        }
        o += 1;
    }
    let slots: usize = layout.cache_slots as usize;
    let mut stores: Vec<Option<&EvaluationPlan>> = Vec::with_capacity(slots);
    let mut s: usize = 0;
    while s < slots
        invariant
            s <= slots,
            stores@.len() == s,
            forall|k: int| 0 <= k < s ==> #[trigger] stores@[k] is None,
        decreases slots - s,
    {
        stores.push(None);
        s += 1;
    }
    let mut i: usize = 0;
    while i < layout.events.len()
        invariant
            i <= events.len(),
            events == layout.events@,
            list == schedule::occurrences(plan.view()),
            list.len() == layout.occurrence_count,
            nodes@.len() == list.len(),
            occurrence::lists(nodes@, 0, list),
            schedule::uncached(list),
            slots == layout.cache_slots,
            stores@.len() == slots,
            stores_kept(list, events, i as int, stores@),
            forall|k: int|
                0 <= k < i ==> #[trigger] event_fits(list, events, slots as int, k),
        decreases events.len() - i,
    {
        let event = layout.events[i];
        let ghost fits = event_fits(list, events, slots as int, i as int);
        if event.reserved != 0 || event.kind > CACHE_EVENT_STORE || event.slot
            >= layout.cache_slots || event.occurrence >= layout.occurrence_count {
            assert(!fits);
            return false;
        }
        let at: usize = event.occurrence as usize;
        proof {
            assert(occurrence::node_fits(nodes@[0 + at as int], list[at as int], 0 + at as int));
        }
        if event.end as usize != nodes[at].end {
            assert(!fits);
            return false;
        }
        if i + 1 < layout.events.len() {
            if layout.events[i + 1].occurrence < event.end {
                assert(!fits);
                return false;
            }
        }
        let slot: usize = event.slot as usize;
        let ghost before = stores@;
        let ghost k = slot as int;
        if event.kind == CACHE_EVENT_STORE {
            stores.set(slot, Some(nodes[at].plan));
            proof {
                assert(stored_at(events, i as int, i + 1, k));
            }
        } else {
            let fine: bool = match stores[slot] {
                None => false,
                Some(stored) => same_plan(stored, nodes[at].plan),
            };
            proof {
                lemma_load(list, events, slots as int, i as int, stores@, fine);
            }
            if !fine {
                assert(!fits);
                return false;
            }
        }
        proof {
            assert forall|slot: int| 0 <= slot < stores@.len() implies match #[trigger] stores@[slot] {
                None => forall|j: int|
                    #![trigger events[j]]
                    0 <= j < i + 1 ==> !(events[j].kind == CACHE_EVENT_STORE && events[j].slot
                        == slot),
                Some(plan) => exists|j: int| #[trigger]
                    stored_at(events, j, i + 1, slot) && plan.view()
                        == list[events[j].occurrence as int],
            } by {
                if !(slot == k && event.kind == CACHE_EVENT_STORE) {
                    assert(stores@[slot] == before[slot]);
                    if before[slot] is Some {
                        let j = choose|j: int| #[trigger]
                            stored_at(events, j, i as int, slot) && before[slot]->0.view()
                                == list[events[j].occurrence as int];
                        assert(stored_at(events, j, i + 1, slot));
                    }
                }
            }
        }
        i += 1;
    }
    true
}

proof fn lemma_load<'a>(
    nodes: Seq<PlanView>,
    events: Seq<CacheEvent>,
    slots: int,
    i: int,
    stores: Seq<Option<&'a EvaluationPlan>>,
    fine: bool,
)
    requires
        0 <= i < events.len(),
        events[i].kind == CACHE_EVENT_LOAD,
        events[i].slot < stores.len(),
        stores_kept(nodes, events, i, stores),
        fine <==> (stores[events[i].slot as int] matches Some(stored) && stored.view()
            == nodes[events[i].occurrence as int] && occurrence::arithmetic(stored.view())),
    ensures
        fine <==> exists|j: int| #[trigger]
            event_source(events, j, i) && nodes[events[j].occurrence as int]
                == nodes[events[i].occurrence as int] && occurrence::arithmetic(
                nodes[events[i].occurrence as int],
            ),
{
    let slot = events[i].slot as int;
    match stores[slot] {
        None => {
            assert forall|j: int| !#[trigger] event_source(events, j, i) by {
                if event_source(events, j, i) {
                    assert(!(events[j].kind == CACHE_EVENT_STORE && events[j].slot == slot));
                }
            }
        },
        Some(stored) => {
            let j = choose|j: int| #[trigger]
                stored_at(events, j, i, slot) && stored.view()
                    == nodes[events[j].occurrence as int];
            assert(event_source(events, j, i));
            assert forall|l: int| #[trigger] event_source(events, l, i) implies l == j by {
                if l < j {
                    assert(!(events[j].kind == CACHE_EVENT_STORE && events[j].slot == slot));
                }
                if j < l {
                    assert(!(events[l].kind == CACHE_EVENT_STORE && events[l].slot == slot));
                }
            }
        },
    }
}

/// A layout that fits a plan is a valid schedule for it.
pub proof fn lemma_layout_valid(plan: PlanView, layout: EvaluationCacheLayout)
    requires
        layout_fits(plan, layout),
    ensures
        in_order(layout.events@),
        schedule::valid_schedule(
            schedule::occurrences(plan),
            event_actions(layout.events@, layout.occurrence_count as int),
            layout.cache_slots as int,
        ),
{
    let nodes = schedule::occurrences(plan);
    let events = layout.events@;
    let n = layout.occurrence_count as int;
    let slots = layout.cache_slots as int;
    let actions = event_actions(events, n);
    assert forall|i: int, j: int| 0 <= i < j < events.len() implies (#[trigger] events[i]).end <= (
    #[trigger] events[j]).occurrence by {
        lemma_events_apart(nodes, events, slots, i, j);
    }
    assert forall|i: int, j: int| 0 <= i < j < events.len() implies (
    #[trigger] events[i]).occurrence < (#[trigger] events[j]).occurrence by {
        assert(event_fits(nodes, events, slots, i));
        lemma_occurrences_size_positive(nodes[events[i].occurrence as int]);
    }
    assert forall|o: int| #[trigger] schedule::is_action(actions, o) implies has_event(events, o) by {}
    assert forall|o: int| #[trigger] schedule::is_action(actions, o) implies actions[o]->0.slot < slots
        && actions[o]->0.end == o + schedule::plan_size(nodes[o]) by {
        let i = choose|i: int| 0 <= i < events.len() && (#[trigger] events[i]).occurrence == o;
        lemma_event_at(events, n, i);
        assert(event_fits(nodes, events, slots, i));
    }
    assert forall|o: int, t: int|
        #[trigger] schedule::is_action(actions, o) && #[trigger] schedule::is_action(actions, t) && o
            < t implies actions[o]->0.end <= t by {
        let i = choose|i: int| 0 <= i < events.len() && (#[trigger] events[i]).occurrence == o;
        let j = choose|j: int| 0 <= j < events.len() && (#[trigger] events[j]).occurrence == t;
        lemma_event_at(events, n, i);
        if j < i {
            assert(events[j].occurrence < events[i].occurrence);
        }
        assert(i < j);
    }
    assert forall|o: int| #[trigger] schedule::is_action(actions, o) && !actions[o]->0.store implies exists|
        s: int,
    |
        #[trigger] schedule::last_store(actions, s, o, actions[o]->0.slot as int) && nodes[s] == nodes[o] by {
        let i = choose|i: int| 0 <= i < events.len() && (#[trigger] events[i]).occurrence == o;
        lemma_event_at(events, n, i);
        assert(event_fits(nodes, events, slots, i));
        assert(events[i].kind == CACHE_EVENT_LOAD);
        let j = choose|j: int| #[trigger]
            event_source(events, j, i) && nodes[events[j].occurrence as int] == nodes[o]
                && occurrence::arithmetic(nodes[o]);
        let s = events[j].occurrence as int;
        let slot = events[i].slot as int;
        assert(event_fits(nodes, events, slots, j));
        lemma_event_at(events, n, j);
        assert(schedule::is_store(actions, s, slot));
        assert(s < o) by {
            assert(events[j].occurrence < events[i].occurrence);
        }
        assert forall|t: int| s < t < o implies !#[trigger] schedule::is_store(actions, t, slot) by {
            if schedule::is_store(actions, t, slot) {
                assert(schedule::is_action(actions, t));
                let l = choose|l: int|
                    0 <= l < events.len() && (#[trigger] events[l]).occurrence == t;
                lemma_event_at(events, n, l);
                if l < j {
                    assert(events[l].occurrence < events[j].occurrence);
                }
                if i < l {
                    assert(events[i].occurrence < events[l].occurrence);
                }
                assert(j < l < i);
                assert(!(events[l].kind == CACHE_EVENT_STORE && events[l].slot
                    == events[i].slot));
            }
        }
        assert(schedule::last_store(actions, s, o, slot));
    }
}

proof fn lemma_occurrences_size_positive(a: PlanView)
    ensures
        schedule::plan_size(a) >= 1,
{
    schedule::lemma_occurrences_len(a);
}

proof fn lemma_events_apart(
    nodes: Seq<PlanView>,
    events: Seq<CacheEvent>,
    slots: int,
    i: int,
    j: int,
)
    requires
        0 <= i < j < events.len(),
        forall|k: int|
            0 <= k < events.len() ==> #[trigger] event_fits(nodes, events, slots, k),
    ensures
        events[i].end <= events[j].occurrence,
    decreases j - i,
{
    assert(event_fits(nodes, events, slots, i));
    if i + 1 < j {
        lemma_events_apart(nodes, events, slots, i + 1, j);
        assert(event_fits(nodes, events, slots, i + 1));
        lemma_occurrences_size_positive(nodes[events[i + 1].occurrence as int]);
    }
}

/// Applies a retained layout to a plan that it fits.
pub fn apply_cache_events(plan: EvaluationPlan, layout: &EvaluationCacheLayout) -> (r:
    EvaluationPlan)
    requires
        layout_fits(plan.view(), *layout),
    ensures
        r.view() == schedule::applied(
            plan.view(),
            event_actions(layout.events@, layout.occurrence_count as int),
            0,
        ),
{
    let ghost view = plan.view();
    let ghost events = layout.events@;
    let ghost nodes = schedule::occurrences(view);
    proof {
        lemma_layout_valid(view, *layout);
    }
    let n: usize = layout.occurrence_count as usize;
    let ghost goal = event_actions(events, n as int);
    let mut actions: Vec<Option<CacheAction>> = Vec::with_capacity(n);
    let mut next: usize = 0;
    let mut o: usize = 0;
    while o < n
        invariant
            o <= n,
            n == layout.occurrence_count,
            n == nodes.len(),
            events == layout.events@,
            goal == event_actions(events, n as int),
            in_order(events),
            next <= events.len(),
            forall|i: int| 0 <= i < next ==> (#[trigger] events[i]).occurrence < o,
            forall|i: int| next <= i < events.len() ==> (#[trigger] events[i]).occurrence >= o,
            forall|i: int|
                0 <= i < events.len() ==> #[trigger] event_fits(
                    nodes,
                    events,
                    layout.cache_slots as int,
                    i,
                ),
            actions@.len() == o,
            forall|k: int| 0 <= k < o ==> #[trigger] actions@[k] == goal[k],
        decreases n - o,
    {
        if next < layout.events.len() && layout.events[next].occurrence as usize == o {
            let event = layout.events[next];
            proof {
                lemma_event_at(events, n as int, next as int);
                assert(event_fits(nodes, events, layout.cache_slots as int, next as int));
                assert forall|i: int| next < i < events.len() implies (
                #[trigger] events[i]).occurrence >= o + 1 by {
                    assert(events[next as int].occurrence < events[i].occurrence);
                }
            }
            actions.push(
                Some(
                    CacheAction {
                        slot: event.slot as usize,
                        store: event.kind == CACHE_EVENT_STORE,
                        end: event.end as usize,
                    },
                ),
            );
            next += 1;
        } else {
            proof {
                assert(!has_event(events, o as int)) by {
                    if has_event(events, o as int) {
                        let i = choose|i: int|
                            0 <= i < events.len() && (#[trigger] events[i]).occurrence == o;
                        if next < i {
                            assert(events[next as int].occurrence < events[i].occurrence);
                        }
                    }
                }
                assert forall|i: int| next <= i < events.len() implies (
                #[trigger] events[i]).occurrence >= o + 1 by {
                    if next < i {
                        assert(events[next as int].occurrence < events[i].occurrence);
                    }
                }
            }
            actions.push(None);
        }
        o += 1;
    }
    let mut occurrence: usize = 0;
    proof {
        assert(actions@ =~= goal);
        lemma_valid_ends(nodes, goal, layout.cache_slots as int);
    }
    apply_cache_actions(plan, actions.as_slice(), &mut occurrence)
}

/// The actions of a valid schedule know where their occurrences end.
pub proof fn lemma_valid_ends(
    nodes: Seq<PlanView>,
    actions: Seq<Option<CacheAction>>,
    slots: int,
)
    requires
        schedule::valid_schedule(nodes, actions, slots),
    ensures
        apply::ends_fit(nodes, actions, 0),
{
    assert forall|k: int|
        #![trigger nodes[k]]
        0 <= k < nodes.len() implies (actions[0 + k] matches Some(action) ==> action.end == 0 + k
        + schedule::plan_size(nodes[k])) by {
        if actions[0 + k] is Some {
            assert(schedule::is_action(actions, k));
        }
    }
}

/// A layout that was retained from a schedule of a plan fits that plan again.
pub proof fn lemma_retained_fits(
    plan: PlanView,
    layout: EvaluationCacheLayout,
    actions: Seq<Option<CacheAction>>,
)
    requires
        schedule::uncached(schedule::occurrences(plan)),
        schedule::valid_schedule(schedule::occurrences(plan), actions, layout.cache_slots as int),
        occurrence::acts_on_arithmetic(schedule::occurrences(plan), actions),
        layout.occurrence_count == actions.len(),
        in_order(layout.events@),
        forall|i: int|
            0 <= i < layout.events@.len() ==> (#[trigger] layout.events@[i]).occurrence
                < actions.len() && layout.events@[i].reserved == 0 && layout.events@[i].kind
                <= CACHE_EVENT_STORE,
        event_actions(layout.events@, actions.len() as int) == actions,
    ensures
        layout_fits(plan, layout),
{
    let nodes = schedule::occurrences(plan);
    let events = layout.events@;
    let n = actions.len() as int;
    let slots = layout.cache_slots as int;
    assert forall|i: int| 0 <= i < events.len() implies #[trigger] event_fits(
        nodes,
        events,
        slots,
        i,
    ) by {
        let o = events[i].occurrence as int;
        lemma_event_at(events, n, i);
        assert(schedule::is_action(actions, o));
        if i + 1 < events.len() {
            lemma_event_at(events, n, i + 1);
            assert(events[i].occurrence < events[i + 1].occurrence);
            assert(schedule::is_action(actions, events[i + 1].occurrence as int));
        }
        if events[i].kind == CACHE_EVENT_LOAD {
            let slot = actions[o]->0.slot as int;
            let s = choose|s: int| #[trigger]
                schedule::last_store(actions, s, o, slot) && nodes[s] == nodes[o];
            assert(has_event(events, s));
            let j = choose|j: int| 0 <= j < events.len() && (#[trigger] events[j]).occurrence == s;
            lemma_event_at(events, n, j);
            if i < j {
                assert(events[i].occurrence < events[j].occurrence);
            }
            assert forall|k: int|
                #![trigger events[k]]
                j < k < i implies !(events[k].kind == CACHE_EVENT_STORE && events[k].slot
                == events[i].slot) by {
                lemma_event_at(events, n, k);
                assert(events[j].occurrence < events[k].occurrence);
                assert(events[k].occurrence < events[i].occurrence);
                assert(!schedule::is_store(actions, events[k].occurrence as int, slot));
            }
            assert(event_source(events, j, i));
        }
    }
}

} // verus!
