//! Cache slots: their lifetimes, their reuse, and the retained form of a schedule.
use crate::plan::PlanView;
use crate::schedule;
use crate::schedule::CacheAction;
use vstd::prelude::*;

verus! {

/// The number of repeated linear terms that may be cached, and the number of slots that
/// may be added for them.
#[derive(Clone, Copy, Debug)]
pub struct LinearTermCacheBudget {
    pub max_additional_slots: usize,
    pub max_entries: usize,
}

/// Occurrence `o` uses the given slot.
pub open spec fn in_slot(actions: Seq<Option<CacheAction>>, o: int, slot: int) -> bool {
    schedule::is_action(actions, o) && actions[o]->0.slot == slot
}

/// `start` is the last occurrence that is stored in the slot, and `end` the last one
/// that uses it. A slot that is not used lives from the largest number to zero.
pub open spec fn is_interval(
    actions: Seq<Option<CacheAction>>,
    slot: int,
    start: int,
    end: int,
) -> bool {
    &&& (schedule::is_store(actions, start, slot) || (start == usize::MAX && forall|t: int|
        !#[trigger] schedule::is_store(actions, t, slot)))
    &&& forall|t: int| t > start ==> !#[trigger] schedule::is_store(actions, t, slot)
    &&& (in_slot(actions, end, slot) || (end == 0 && forall|t: int|
        !#[trigger] in_slot(actions, t, slot)))
    &&& forall|t: int| t > end ==> !#[trigger] in_slot(actions, t, slot)
}

/// The lifetimes of all slots.
pub fn cache_slot_intervals(actions: &[Option<CacheAction>], cache_slots: usize) -> (r: Vec<
    (usize, usize),
>)
    requires
        forall|o: int| #[trigger] schedule::is_action(actions@, o) ==> actions@[o]->0.slot < cache_slots,
    ensures
        r@.len() == cache_slots,
        forall|slot: int|
            0 <= slot < cache_slots ==> is_interval(
                actions@,
                slot,
                (#[trigger] r@[slot]).0 as int,
                r@[slot].1 as int,
            ),
{
    let mut intervals: Vec<(usize, usize)> = Vec::with_capacity(cache_slots);
    let mut i: usize = 0;
    while i < cache_slots
        invariant
            i <= cache_slots,
            intervals@.len() == i,
            forall|k: int| 0 <= k < i ==> #[trigger] intervals@[k] == (usize::MAX, 0usize),
        decreases cache_slots - i,
    {
        intervals.push((usize::MAX, 0));
        i += 1;
    }
    let mut o: usize = 0;
    assert forall|slot: int| 0 <= slot < cache_slots implies is_interval(
        actions@.take(0),
        slot,
        (#[trigger] intervals@[slot]).0 as int,
        intervals@[slot].1 as int,
    ) by {}
    while o < actions.len()
        invariant
            o <= actions@.len(),
            intervals@.len() == cache_slots,
            forall|k: int|
                #[trigger] schedule::is_action(actions@, k) ==> actions@[k]->0.slot < cache_slots,
            forall|slot: int|
                0 <= slot < cache_slots ==> is_interval(
                    actions@.take(o as int),
                    slot,
                    (#[trigger] intervals@[slot]).0 as int,
                    intervals@[slot].1 as int,
                ),
        decreases actions@.len() - o,
    {
        let ghost before = intervals@;
        let ghost seen = actions@.take(o as int);
        let ghost now = actions@.take(o + 1);
        proof {
            assert forall|t: int, s: int| t != o implies (#[trigger] schedule::is_store(now, t, s)
                <==> schedule::is_store(seen, t, s)) by {
                assert(0 <= t < o ==> now[t] == seen[t]);
            }
            assert forall|t: int, s: int| t != o implies (#[trigger] in_slot(now, t, s)
                <==> in_slot(seen, t, s)) by {
                assert(0 <= t < o ==> now[t] == seen[t]);
            }
            assert(forall|s: int| !schedule::is_store(seen, o as int, s) && !in_slot(seen, o as int, s));
            assert(now[o as int] == actions@[o as int]);
        }
        if let Some(action) = actions[o] {
            assert(schedule::is_action(actions@, o as int));
            let old_start = intervals[action.slot].0;
            let start = if action.store {
                o
            } else {
                old_start
            };
            intervals.set(action.slot, (start, o));
        }
        proof {
            assert forall|slot: int| 0 <= slot < cache_slots implies is_interval(
                now,
                slot,
                (#[trigger] intervals@[slot]).0 as int,
                intervals@[slot].1 as int,
            ) by {
                let b = before[slot];
                assert(is_interval(seen, slot, b.0 as int, b.1 as int));
                if in_slot(now, o as int, slot) {
                    if actions@[o as int]->0.store {
                        assert(schedule::is_store(now, o as int, slot));
                    } else {
                        assert(!schedule::is_store(now, o as int, slot));
                    }
                } else {
                    assert(intervals@[slot] == b);
                    assert(!schedule::is_store(now, o as int, slot));
                }
                assert(b.0 as int == o ==> schedule::is_store(seen, o as int, slot) || b.0 == usize::MAX);
                assert(b.1 as int == o ==> in_slot(seen, o as int, slot) || b.1 == 0);
            }
        }
        o += 1;
    }
    assert(actions@.take(o as int) =~= actions@);
    intervals
}

pub open spec fn stored_somewhere(actions: Seq<Option<CacheAction>>, slot: int) -> bool {
    exists|o: int| #[trigger] schedule::is_store(actions, o, slot)
}

/// Every slot is stored once, before it is loaded.
pub open spec fn single_stores(actions: Seq<Option<CacheAction>>, slots: int) -> bool {
    &&& forall|o: int| #[trigger] schedule::is_action(actions, o) ==> actions[o]->0.slot < slots
    &&& forall|slot: int|
        0 <= slot < slots ==> #[trigger] stored_somewhere(actions, slot)
    &&& forall|s: int, o: int, slot: int|
        #[trigger] schedule::is_store(actions, s, slot) && #[trigger] in_slot(actions, o, slot) ==> s <= o
            && (schedule::is_store(actions, o, slot) ==> s == o)
}

/// A slot is alive at occurrence `t`: it is stored by then, and still used.
pub open spec fn alive(actions: Seq<Option<CacheAction>>, slot: int, t: int) -> bool {
    &&& exists|s: int| s <= t && #[trigger] schedule::is_store(actions, s, slot)
    &&& exists|e: int| e >= t && #[trigger] in_slot(actions, e, slot)
}

/// The same actions in other slots: slots that are alive together stay apart.
pub open spec fn remapped(
    before: Seq<Option<CacheAction>>,
    after: Seq<Option<CacheAction>>,
    remap: Seq<usize>,
    slots: int,
    n: int,
) -> bool {
    &&& after.len() == before.len()
    &&& remap.len() == slots
    &&& forall|o: int|
        #![trigger after[o]]
        #![trigger before[o]]
        0 <= o < before.len() ==> match before[o] {
            None => after[o] is None,
            Some(a) => after[o] == Some(
                CacheAction { slot: remap[a.slot as int], store: a.store, end: a.end },
            ),
        }
    &&& forall|s: int| 0 <= s < slots ==> #[trigger] remap[s] < n
    &&& forall|s: int, t: int, o: int|
        0 <= s < slots && 0 <= t < slots && s != t && #[trigger] alive(before, s, o)
            && #[trigger] alive(before, t, o) ==> remap[s] != remap[t]
}

/// `n` slots are alive together at some occurrence, if there are any.
pub open spec fn needs_slots(actions: Seq<Option<CacheAction>>, slots: int, n: int) -> bool {
    n == 0 || exists|t: int, chosen: Seq<int>| #[trigger] all_alive(actions, slots, n, t, chosen)
}

/// `chosen` lists `n` slots that are alive at `t`.
pub open spec fn all_alive(
    actions: Seq<Option<CacheAction>>,
    slots: int,
    n: int,
    t: int,
    chosen: Seq<int>,
) -> bool {
    &&& chosen.len() == n
    &&& chosen.no_duplicates()
    &&& forall|i: int|
        0 <= i < n ==> 0 <= #[trigger] chosen[i] < slots && alive(actions, chosen[i], t)
}

/// The slots that are taken and the slots that are free are different numbers below
/// `next`, and there are `next` of them.
spec fn slots_kept(active: Seq<(usize, usize)>, free: Seq<usize>, next: int) -> bool {
    &&& active.len() + free.len() == next
    &&& forall|i: int| 0 <= i < active.len() ==> (#[trigger] active[i]).1 < next
    &&& forall|i: int| 0 <= i < free.len() ==> #[trigger] free[i] < next
    &&& forall|i: int, j: int|
        0 <= i < j < active.len() ==> (#[trigger] active[i]).1 != (#[trigger] active[j]).1
    &&& forall|i: int, j: int| 0 <= i < j < free.len() ==> #[trigger] free[i] != #[trigger] free[j]
    &&& forall|i: int, j: int|
        0 <= i < active.len() && 0 <= j < free.len() ==> (#[trigger] active[i]).1
            != #[trigger] free[j]
}

/// `owners[i]` is the slot that lives in the physical slot of `active[i]`.
spec fn owned_by(
    active: Seq<(usize, usize)>,
    owners: Seq<int>,
    intervals: Seq<(usize, usize)>,
    remap: Seq<usize>,
    o: int,
) -> bool {
    &&& owners.len() == active.len()
    &&& forall|i: int|
        #![trigger owners[i]]
        #![trigger active[i]]
        0 <= i < active.len() ==> {
            &&& 0 <= owners[i] < intervals.len()
            &&& intervals[owners[i]].0 < o
            &&& active[i] == (intervals[owners[i]].1, remap[owners[i]])
        }
}

/// A slot that was handed out before `o` is still owned, or its lifetime is over.
spec fn kept_or_over(
    owners: Seq<int>,
    intervals: Seq<(usize, usize)>,
    o: int,
) -> bool {
    forall|s: int|
        0 <= s < intervals.len() && (#[trigger] intervals[s]).0 < o ==> owners.contains(s)
            || intervals[s].1 < o
}

/// Slots with overlapping lifetimes that were handed out before `o` differ.
spec fn apart(intervals: Seq<(usize, usize)>, remap: Seq<usize>, o: int) -> bool {
    forall|s: int, t: int|
        0 <= s < intervals.len() && 0 <= t < intervals.len() && s != t && (
        #[trigger] intervals[s]).0 < o && (#[trigger] intervals[t]).0 < o && intervals[s].0
            <= intervals[t].0 <= intervals[s].1 ==> remap[s] != remap[t]
}

/// Frees the physical slots whose lifetimes ended before `start`.
fn release(
    active: &mut Vec<(usize, usize)>,
    free: &mut Vec<usize>,
    start: usize,
    Ghost(owners): Ghost<Seq<int>>,
    Ghost(intervals): Ghost<Seq<(usize, usize)>>,
    Ghost(remap): Ghost<Seq<usize>>,
    Ghost(next): Ghost<int>,
) -> (r: Ghost<Seq<int>>)
    requires
        slots_kept(old(active)@, old(free)@, next),
        owned_by(old(active)@, owners, intervals, remap, start as int),
        kept_or_over(owners, intervals, start as int),
    ensures
        slots_kept(final(active)@, final(free)@, next),
        owned_by(final(active)@, r@, intervals, remap, start as int),
        kept_or_over(r@, intervals, start as int),
        forall|i: int| 0 <= i < final(active)@.len() ==> (#[trigger] final(active)@[i]).0 >= start,
{
    let ghost mut owners = owners;
    let mut index: usize = 0;
    while index < active.len()
        invariant
            index <= active@.len(),
            slots_kept(active@, free@, next),
            owned_by(active@, owners, intervals, remap, start as int),
            kept_or_over(owners, intervals, start as int),
            forall|i: int| 0 <= i < index ==> (#[trigger] active@[i]).0 >= start,
        decreases active@.len() - index,
    {
        if active[index].0 < start {
            let ghost a0 = active@;
            let ghost f0 = free@;
            let ghost o0 = owners;
            let ghost last = a0.len() - 1;
            let entry = active.swap_remove(index);
            free.push(entry.1);
            proof {
                owners = o0.update(index as int, o0[last]).drop_last();
                let gone = o0[index as int];
                assert(a0[index as int] == entry);
                assert forall|s: int|
                    0 <= s < intervals.len() && (#[trigger] intervals[s]).0
                        < start implies owners.contains(s) || intervals[s].1 < start by {
                    if o0.contains(s) && s != gone {
                        let i = choose|i: int| 0 <= i < o0.len() && o0[i] == s;
                        if i == last {
                            assert(owners[index as int] == s);
                        } else {
                            assert(owners[i] == s);
                        }
                    }
                }
                assert forall|i: int|
                    #![trigger owners[i]]
                    #![trigger active@[i]]
                    0 <= i < active@.len() implies {
                    &&& 0 <= owners[i] < intervals.len()
                    &&& intervals[owners[i]].0 < start
                    &&& active@[i] == (intervals[owners[i]].1, remap[owners[i]])
                } by {
                    let j = if i == index {
                        last
                    } else {
                        i
                    };
                    assert(owners[i] == o0[j]);
                    assert(active@[i] == a0[j]);
                }
                lemma_released(a0, f0, active@, free@, index as int, next);
            }
        } else {
            index += 1;
        }
    }
    Ghost(owners)
}

proof fn lemma_released(
    a0: Seq<(usize, usize)>,
    f0: Seq<usize>,
    a1: Seq<(usize, usize)>,
    f1: Seq<usize>,
    index: int,
    next: int,
)
    requires
        slots_kept(a0, f0, next),
        0 <= index < a0.len(),
        a1 == a0.update(index, a0.last()).drop_last(),
        f1 == f0.push(a0[index].1),
    ensures
        slots_kept(a1, f1, next),
{
    let last = a0.len() - 1;
    assert forall|i: int| 0 <= i < a1.len() implies (#[trigger] a1[i]).1 < next by {
        assert(a1[i] == a0[if i == index {
            last
        } else {
            i
        }]);
    }
    assert forall|i: int, j: int| 0 <= i < j < a1.len() implies (#[trigger] a1[i]).1 != (
    #[trigger] a1[j]).1 by {
        let x = if i == index {
            last
        } else {
            i
        };
        let y = if j == index {
            last
        } else {
            j
        };
        assert(a1[i] == a0[x] && a1[j] == a0[y]);
        if x < y {
            assert(a0[x].1 != a0[y].1);
        } else {
            assert(a0[y].1 != a0[x].1);
        }
    }
    assert forall|i: int| 0 <= i < f1.len() implies #[trigger] f1[i] < next by {
        if i < f0.len() {
            assert(f1[i] == f0[i]);
        } else {
            assert(f1[i] == a0[index].1);
        }
    }
    assert forall|i: int, j: int| 0 <= i < j < f1.len() implies #[trigger] f1[i]
        != #[trigger] f1[j] by {
        assert(f1[i] == f0[i]);
        if j < f0.len() {
            assert(f1[j] == f0[j]);
        } else {
            assert(a0[index].1 != f0[i]);
        }
    }
    assert forall|i: int, j: int| 0 <= i < a1.len() && 0 <= j < f1.len() implies (
    #[trigger] a1[i]).1 != #[trigger] f1[j] by {
        let x = if i == index {
            last
        } else {
            i
        };
        assert(a1[i] == a0[x]);
        if j < f0.len() {
            assert(f1[j] == f0[j]);
        } else {
            assert(f1[j] == a0[index].1);
            if x < index {
                assert(a0[x].1 != a0[index].1);
            } else {
                assert(a0[index].1 != a0[x].1);
            }
        }
    }
}

/// The lifetime that an interval describes.
pub proof fn lemma_alive(
    actions: Seq<Option<CacheAction>>,
    slots: int,
    slot: int,
    start: int,
    end: int,
    t: int,
)
    requires
        single_stores(actions, slots),
        0 <= slot < slots,
        is_interval(actions, slot, start, end),
    ensures
        alive(actions, slot, t) <==> start <= t <= end,
        schedule::is_store(actions, start, slot),
        start <= end < actions.len(),
{
    assert(stored_somewhere(actions, slot));
    let s = choose|o: int| #[trigger] schedule::is_store(actions, o, slot);
    assert(schedule::is_store(actions, s, slot));
    assert(schedule::is_store(actions, start, slot));
    assert(in_slot(actions, start, slot));
    assert(in_slot(actions, end, slot));
    assert(start <= end);
    if alive(actions, slot, t) {
        let a = choose|a: int| a <= t && #[trigger] schedule::is_store(actions, a, slot);
        let e = choose|e: int| e >= t && #[trigger] in_slot(actions, e, slot);
        assert(in_slot(actions, a, slot));
        assert(a == start);
    }
}

/// Reuses physical cache slots whose lifetimes in the order of evaluation do not
/// overlap. Which occurrences are stored and loaded remains unchanged, and no more
/// slots are used than are alive together.
pub fn reuse_cache_slots(actions: &mut Vec<Option<CacheAction>>, cache_slots: usize) -> (n: usize)
    requires
        single_stores(old(actions)@, cache_slots as int),
    ensures
        exists|remap: Seq<usize>| #[trigger]
            remapped(old(actions)@, final(actions)@, remap, cache_slots as int, n as int),
        needs_slots(old(actions)@, cache_slots as int, n as int),
        n <= cache_slots,
{
    let ghost before = actions@;
    let ghost slots = cache_slots as int;
    let intervals = cache_slot_intervals(actions.as_slice(), cache_slots);
    let ghost iv = intervals@;
    let mut remap: Vec<usize> = Vec::with_capacity(cache_slots);
    let mut i: usize = 0;
    while i < cache_slots
        invariant
            i <= cache_slots,
            remap@.len() == i,
        decreases cache_slots - i,
    {
        remap.push(0);
        i += 1;
    }
    let mut active: Vec<(usize, usize)> = Vec::new();
    let mut free: Vec<usize> = Vec::new();
    let mut next_slot: usize = 0;
    let ghost mut owners: Seq<int> = Seq::empty();
    let ghost mut handed: Seq<int> = Seq::empty();
    let mut o: usize = 0;
    while o < actions.len()
        invariant
            o <= before.len(),
            actions@ == before,
            slots == cache_slots,
            iv == intervals@,
            iv.len() == slots,
            remap@.len() == slots,
            single_stores(before, slots),
            forall|s: int|
                0 <= s < slots ==> is_interval(
                    before,
                    s,
                    (#[trigger] iv[s]).0 as int,
                    iv[s].1 as int,
                ),
            slots_kept(active@, free@, next_slot as int),
            owned_by(active@, owners, iv, remap@, o as int),
            kept_or_over(owners, iv, o as int),
            apart(iv, remap@, o as int),
            forall|s: int|
                0 <= s < slots && (#[trigger] iv[s]).0 < o ==> remap@[s] < next_slot,
            needs_slots(before, slots, next_slot as int),
            handed.len() == next_slot,
            handed.no_duplicates(),
            forall|k: int|
                0 <= k < handed.len() ==> 0 <= #[trigger] handed[k] < slots && iv[handed[k]].0 < o,
        decreases before.len() - o,
    {
        let mut starts: Option<usize> = None;
        if let Some(action) = actions[o] {
            assert(schedule::is_action(before, o as int));
            if action.store {
                starts = Some(action.slot);
            }
        }
        match starts {
            Some(slot) => {
                let (start, end) = intervals[slot];
                proof {
                    assert(schedule::is_store(before, o as int, slot as int));
                    assert(in_slot(before, o as int, slot as int));
                    lemma_alive(before, slots, slot as int, start as int, end as int, 0);
                    assert(start == o);
                }
                let Ghost(kept) = release(
                    &mut active,
                    &mut free,
                    start,
                    Ghost(owners),
                    Ghost(iv),
                    Ghost(remap@),
                    Ghost(next_slot as int),
                );
                let ghost a0 = active@;
                let ghost f0 = free@;
                let ghost m0 = remap@;
                let ghost n0 = next_slot;
                let new_slot: usize = match free.pop() {
                    Some(k) => k,
                    None => {
                        proof {
                            lemma_fresh_slot(
                                before,
                                slots,
                                iv,
                                kept,
                                slot as int,
                                o as int,
                                handed,
                            );
                            assert forall|i: int, j: int|
                                0 <= i < j < kept.len() implies kept[i] != kept[j] by {
                                assert(a0[i].1 != a0[j].1);
                            }
                            let chosen = kept.push(slot as int);
                            assert forall|i: int|
                                0 <= i < chosen.len() implies 0 <= #[trigger] chosen[i] < slots
                                && alive(before, chosen[i], o as int) by {
                                if i < kept.len() {
                                    let s = kept[i];
                                    assert(a0[i] == (iv[s].1, m0[s]));
                                    lemma_alive(
                                        before,
                                        slots,
                                        s,
                                        iv[s].0 as int,
                                        iv[s].1 as int,
                                        o as int,
                                    );
                                } else {
                                    lemma_alive(
                                        before,
                                        slots,
                                        slot as int,
                                        start as int,
                                        end as int,
                                        o as int,
                                    );
                                }
                            }
                            assert(all_alive(before, slots, n0 + 1, o as int, chosen));
                            handed = handed.push(slot as int);
                            lemma_distinct_bound(handed, slots);
                        }
                        let k = next_slot;
                        next_slot = next_slot + 1;
                        k
                    },
                };
                remap.set(slot, new_slot);
                active.push((end, new_slot));
                proof {
                    owners = kept.push(slot as int);
                    lemma_taken(a0, f0, active@, free@, new_slot, end, n0 as int, next_slot as int);
                    lemma_handed_out(
                        before,
                        slots,
                        iv,
                        kept,
                        a0,
                        m0,
                        remap@,
                        slot as int,
                        new_slot,
                        o as int,
                    );
                }
            },
            None => {
                proof {
                    assert forall|s: int| 0 <= s < slots implies (#[trigger] iv[s]).0 != o by {
                        lemma_alive(before, slots, s, iv[s].0 as int, iv[s].1 as int, 0);
                    }
                }
            },
        }
        o += 1;
    }
    proof {
        assert forall|s: int| 0 <= s < slots implies (#[trigger] iv[s]).0 < before.len() by {
            lemma_alive(before, slots, s, iv[s].0 as int, iv[s].1 as int, 0);
        }
        assert forall|s: int, t: int, x: int|
            0 <= s < slots && 0 <= t < slots && s != t && #[trigger] alive(before, s, x)
                && #[trigger] alive(before, t, x) implies remap@[s] != remap@[t] by {
            lemma_alive(before, slots, s, iv[s].0 as int, iv[s].1 as int, x);
            lemma_alive(before, slots, t, iv[t].0 as int, iv[t].1 as int, x);
            if iv[s].0 <= iv[t].0 {
                assert(remap@[s] != remap@[t]);
            } else {
                assert(remap@[t] != remap@[s]);
            }
        }
        assert forall|s: int| 0 <= s < slots implies #[trigger] remap@[s] < next_slot by {
            assert(iv[s].0 < before.len());
        }
        lemma_distinct_bound(handed, slots);
    }
    let mut o: usize = 0;
    while o < actions.len()
        invariant
            o <= before.len(),
            actions@.len() == before.len(),
            slots == cache_slots,
            remap@.len() == slots,
            single_stores(before, slots),
            forall|k: int| o <= k < before.len() ==> #[trigger] actions@[k] == before[k],
            forall|k: int|
                #![trigger actions@[k]]
                #![trigger before[k]]
                0 <= k < o ==> match before[k] {
                    None => actions@[k] is None,
                    Some(a) => actions@[k] == Some(
                        CacheAction { slot: remap@[a.slot as int], store: a.store, end: a.end },
                    ),
                },
        decreases before.len() - o,
    {
        if let Some(action) = actions[o] {
            assert(schedule::is_action(before, o as int));
            actions.set(
                o,
                Some(
                    CacheAction {
                        slot: remap[action.slot],
                        store: action.store,
                        end: action.end,
                    },
                ),
            );
        }
        o += 1;
    }
    assert(remapped(before, actions@, remap@, slots, next_slot as int));
    next_slot
}

pub proof fn lemma_distinct_bound(s: Seq<int>, n: int)
    requires
        0 <= n,
        s.no_duplicates(),
        forall|k: int| 0 <= k < s.len() ==> 0 <= #[trigger] s[k] < n,
    ensures
        s.len() <= n,
    decreases n,
{
    if n == 0 {
        if s.len() > 0 {
            assert(0 <= s[0] < n);
        }
    } else if s.contains(n - 1) {
        let k = choose|k: int| 0 <= k < s.len() && s[k] == n - 1;
        let t = s.remove(k);
        assert forall|i: int| 0 <= i < t.len() implies 0 <= #[trigger] t[i] < n - 1 by {
            let j = if i < k {
                i
            } else {
                i + 1
            };
            assert(t[i] == s[j]);
        }
        assert forall|i: int, j: int| 0 <= i < j < t.len() implies t[i] != t[j] by {
            let x = if i < k {
                i
            } else {
                i + 1
            };
            let y = if j < k {
                j
            } else {
                j + 1
            };
            assert(t[i] == s[x] && t[j] == s[y]);
        }
        lemma_distinct_bound(t, n - 1);
    } else {
        assert forall|k: int| 0 <= k < s.len() implies 0 <= #[trigger] s[k] < n - 1 by {
            assert(s.contains(s[k]));
        }
        lemma_distinct_bound(s, n - 1);
    }
}

/// A slot that starts now was not handed out before.
proof fn lemma_fresh_slot(
    actions: Seq<Option<CacheAction>>,
    slots: int,
    iv: Seq<(usize, usize)>,
    kept: Seq<int>,
    slot: int,
    o: int,
    handed: Seq<int>,
)
    requires
        0 <= slot < slots,
        iv.len() == slots,
        iv[slot].0 == o,
        forall|i: int|
            #![trigger kept[i]]
            0 <= i < kept.len() ==> 0 <= kept[i] < slots && iv[kept[i]].0 < o,
        forall|k: int|
            0 <= k < handed.len() ==> 0 <= #[trigger] handed[k] < slots && iv[handed[k]].0 < o,
        handed.no_duplicates(),
        forall|i: int, j: int| 0 <= i < j < kept.len() ==> kept[i] != kept[j],
    ensures
        handed.push(slot).no_duplicates(),
        kept.push(slot).no_duplicates(),
{
    let h = handed.push(slot);
    assert forall|i: int, j: int| 0 <= i < h.len() && 0 <= j < h.len() && i != j implies h[i]
        != h[j] by {
        if i < handed.len() {
            assert(iv[handed[i]].0 < o);
        }
        if j < handed.len() {
            assert(iv[handed[j]].0 < o);
        }
    }
    let k = kept.push(slot);
    assert forall|i: int, j: int| 0 <= i < k.len() && 0 <= j < k.len() && i != j implies k[i]
        != k[j] by {
        if i < kept.len() {
            assert(iv[kept[i]].0 < o);
        }
        if j < kept.len() {
            assert(iv[kept[j]].0 < o);
        }
    }
}

proof fn lemma_taken(
    a0: Seq<(usize, usize)>,
    f0: Seq<usize>,
    a1: Seq<(usize, usize)>,
    f1: Seq<usize>,
    k: usize,
    end: usize,
    n0: int,
    n1: int,
)
    requires
        slots_kept(a0, f0, n0),
        a1 == a0.push((end, k)),
        (f0.len() > 0 && k == f0.last() && f1 == f0.drop_last() && n1 == n0) || (f0.len() == 0
            && f1 == f0 && k == n0 && n1 == n0 + 1),
    ensures
        slots_kept(a1, f1, n1),
        forall|i: int| 0 <= i < a0.len() ==> (#[trigger] a0[i]).1 != k,
{
    assert forall|i: int| 0 <= i < a0.len() implies (#[trigger] a0[i]).1 != k by {
        if f0.len() > 0 {
            assert(a0[i].1 != f0[f0.len() - 1]);
        }
    }
    if f0.len() > 0 {
        assert forall|i: int| 0 <= i < f1.len() implies #[trigger] f1[i] != k by {
            assert(f0[i] != f0[f0.len() - 1]);
        }
    }
}

/// The invariants after the slot that starts at `o` got its physical slot.
proof fn lemma_handed_out(
    actions: Seq<Option<CacheAction>>,
    slots: int,
    iv: Seq<(usize, usize)>,
    kept: Seq<int>,
    a0: Seq<(usize, usize)>,
    m0: Seq<usize>,
    m1: Seq<usize>,
    slot: int,
    new_slot: usize,
    o: int,
)
    requires
        single_stores(actions, slots),
        iv.len() == slots,
        m0.len() == slots,
        0 <= slot < slots,
        iv[slot].0 == o,
        forall|s: int|
            0 <= s < slots ==> is_interval(
                actions,
                s,
                (#[trigger] iv[s]).0 as int,
                iv[s].1 as int,
            ),
        owned_by(a0, kept, iv, m0, o),
        kept_or_over(kept, iv, o),
        apart(iv, m0, o),
        m1 == m0.update(slot, new_slot),
        forall|i: int| 0 <= i < a0.len() ==> (#[trigger] a0[i]).1 != new_slot,
    ensures
        owned_by(a0.push((iv[slot].1, new_slot)), kept.push(slot), iv, m1, o + 1),
        kept_or_over(kept.push(slot), iv, o + 1),
        apart(iv, m1, o + 1),
{
    let next = kept.push(slot);
    let a1 = a0.push((iv[slot].1, new_slot));
    assert forall|i: int|
        #![trigger next[i]]
        #![trigger a1[i]]
        0 <= i < a1.len() implies {
        &&& 0 <= next[i] < iv.len()
        &&& iv[next[i]].0 < o + 1
        &&& a1[i] == (iv[next[i]].1, m1[next[i]])
    } by {
        if i < a0.len() {
            assert(next[i] == kept[i]);
            assert(a1[i] == a0[i]);
            assert(kept[i] != slot);
        }
    }
    assert forall|s: int| 0 <= s < slots && (#[trigger] iv[s]).0 < o + 1 && s != slot implies iv[s].0
        < o by {
        lemma_alive(actions, slots, s, iv[s].0 as int, iv[s].1 as int, 0);
        lemma_alive(actions, slots, slot, iv[slot].0 as int, iv[slot].1 as int, 0);
    }
    assert forall|s: int| 0 <= s < iv.len() && (#[trigger] iv[s]).0 < o + 1 implies next.contains(s)
        || iv[s].1 < o + 1 by {
        if s == slot {
            assert(next[kept.len() as int] == slot);
        } else {
            assert(iv[s].0 < o);
            if kept.contains(s) {
                let i = choose|i: int| 0 <= i < kept.len() && kept[i] == s;
                assert(next[i] == s);
            }
        }
    }
    assert forall|s: int, t: int|
        0 <= s < iv.len() && 0 <= t < iv.len() && s != t && (#[trigger] iv[s]).0 < o + 1 && (
        #[trigger] iv[t]).0 < o + 1 && iv[s].0 <= iv[t].0 <= iv[s].1 implies m1[s] != m1[t] by {
        if s == slot {
            assert(iv[t].0 < o);
        } else if t == slot {
            assert(iv[s].0 < o);
            assert(kept.contains(s));
            let i = choose|i: int| 0 <= i < kept.len() && kept[i] == s;
            assert(a0[i] == (iv[s].1, m0[s]));
        } else {
            assert(iv[s].0 < o && iv[t].0 < o);
        }
    }
}

/// A schedule stays valid in other slots.
pub proof fn lemma_remapped_valid(
    nodes: Seq<PlanView>,
    before: Seq<Option<CacheAction>>,
    after: Seq<Option<CacheAction>>,
    remap: Seq<usize>,
    slots: int,
    n: int,
)
    requires
        schedule::valid_schedule(nodes, before, slots),
        single_stores(before, slots),
        remapped(before, after, remap, slots, n),
    ensures
        schedule::valid_schedule(nodes, after, n),
{
    assert forall|o: int| #[trigger] schedule::is_action(after, o) implies schedule::is_action(before, o) by {
        assert(after[o] is Some);
    }
    assert forall|o: int| #[trigger] schedule::is_action(after, o) implies after[o]->0.slot < n
        && after[o]->0.end == o + schedule::plan_size(nodes[o]) by {
        assert(schedule::is_action(before, o));
    }
    assert forall|o: int, t: int|
        #[trigger] schedule::is_action(after, o) && #[trigger] schedule::is_action(after, t) && o
            < t implies after[o]->0.end <= t by {
        assert(schedule::is_action(before, o) && schedule::is_action(before, t));
    }
    assert forall|o: int| #[trigger] schedule::is_action(after, o) && !after[o]->0.store implies exists|s: int|
        #[trigger] schedule::last_store(after, s, o, after[o]->0.slot as int) && nodes[s] == nodes[o] by {
        assert(schedule::is_action(before, o));
        let old = before[o]->0.slot as int;
        let s = choose|s: int| #[trigger] schedule::last_store(before, s, o, old) && nodes[s] == nodes[o];
        let k = after[o]->0.slot as int;
        assert(schedule::last_store(before, s, o, old));
        assert(schedule::is_store(after, s, k)) by {
            assert(schedule::is_action(before, s));
            assert(after[s] is Some);
        }
        assert forall|t: int| s < t < o implies !#[trigger] schedule::is_store(after, t, k) by {
            if schedule::is_store(after, t, k) {
                assert(schedule::is_action(before, t));
                let other = before[t]->0.slot as int;
                assert(schedule::is_store(before, t, other));
                assert(in_slot(before, t, other));
                assert(!schedule::is_store(before, t, old));
                assert(other != old);
                assert(in_slot(before, o, old));
                assert(schedule::is_store(before, s, old));
                assert(alive(before, old, t));
                assert(alive(before, other, t));
                assert(remap[old] != remap[other]);
            }
        }
        assert(schedule::last_store(after, s, o, k));
    }
}

} // verus!
