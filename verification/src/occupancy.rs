//! How many cache slots are alive at each occurrence, and how many more linear terms
//! fit beside them.
use crate::layout;
use crate::layout::{LinearTermCacheBudget, cache_slot_intervals};
use crate::schedule::CacheAction;
use vstd::prelude::*;

verus! {

/// The number of the first `slots` slots that are alive at occurrence `t`.
pub open spec fn live_slots(actions: Seq<Option<CacheAction>>, slots: int, t: int) -> nat
    decreases slots,
{
    if slots <= 0 {
        0
    } else {
        live_slots(actions, slots - 1, t) + (if layout::alive(actions, slots - 1, t) {
            1nat
        } else {
            0
        })
    }
}

/// The slots that are alive at each occurrence, and the room that is left for repeated
/// linear terms.
pub struct LinearTermCacheOccupancy {
    pub active_slots: Vec<usize>,
    pub max_allowed_slots: usize,
    pub remaining_entries: usize,
}

/// The number of the first `k` values that are at most `x`.
spec fn count_upto(v: Seq<int>, x: int, k: int) -> nat
    decreases k,
{
    if k <= 0 {
        0
    } else {
        count_upto(v, x, k - 1) + (if v[k - 1] <= x {
            1nat
        } else {
            0
        })
    }
}

spec fn count_equal(v: Seq<int>, x: int, k: int) -> nat
    decreases k,
{
    if k <= 0 {
        0
    } else {
        count_equal(v, x, k - 1) + (if v[k - 1] == x {
            1nat
        } else {
            0
        })
    }
}

proof fn lemma_count_step(v: Seq<int>, x: int, k: int)
    ensures
        count_upto(v, x, k) == count_upto(v, x - 1, k) + count_equal(v, x, k),
        count_upto(v, x, k) <= (if k < 0 {
            0
        } else {
            k
        }),
        count_equal(v, x, k) <= (if k < 0 {
            0
        } else {
            k
        }),
    decreases k,
{
    if k > 0 {
        lemma_count_step(v, x, k - 1);
    }
}

proof fn lemma_count_negative(v: Seq<int>, k: int)
    requires
        k <= v.len(),
        forall|i: int| 0 <= i < v.len() ==> #[trigger] v[i] >= 0,
    ensures
        count_upto(v, -1, k) == 0,
    decreases k,
{
    if k > 0 {
        lemma_count_negative(v, k - 1);
    }
}

/// The starts and one past the ends of the first lifetimes.
spec fn starts_of(iv: Seq<(usize, usize)>) -> Seq<int> {
    Seq::new(iv.len(), |i: int| iv[i].0 as int)
}

spec fn ends_of(iv: Seq<(usize, usize)>) -> Seq<int> {
    Seq::new(iv.len(), |i: int| iv[i].1 + 1)
}

proof fn lemma_live(
    actions: Seq<Option<CacheAction>>,
    slots: int,
    iv: Seq<(usize, usize)>,
    t: int,
    k: int,
)
    requires
        layout::single_stores(actions, slots),
        iv.len() == slots,
        0 <= k <= slots,
        forall|s: int|
            0 <= s < slots ==> layout::is_interval(
                actions,
                s,
                (#[trigger] iv[s]).0 as int,
                iv[s].1 as int,
            ),
    ensures
        live_slots(actions, k, t) == count_upto(starts_of(iv), t, k) - count_upto(
            ends_of(iv),
            t,
            k,
        ),
        live_slots(actions, k, t) <= k,
    decreases k,
{
    if k > 0 {
        lemma_live(actions, slots, iv, t, k - 1);
        layout::lemma_alive(actions, slots, k - 1, iv[k - 1].0 as int, iv[k - 1].1 as int, t);
    }
}

fn zeros(n: usize) -> (r: Vec<usize>)
    ensures
        r@.len() == n,
        forall|i: int| 0 <= i < n ==> #[trigger] r@[i] == 0,
{
    let mut r: Vec<usize> = Vec::with_capacity(n);
    let mut i: usize = 0;
    while i < n
        invariant
            i <= n,
            r@.len() == i,
            forall|k: int| 0 <= k < i ==> #[trigger] r@[k] == 0,
        decreases n - i,
    {
        r.push(0);
        i += 1;
    }
    r
}

impl LinearTermCacheOccupancy {
    /// The slots in use at each occurrence, and what the budget leaves.
    pub fn new(
        actions: &[Option<CacheAction>],
        cache_slots: usize,
        budget: LinearTermCacheBudget,
    ) -> (r: Self)
        requires
            layout::single_stores(actions@, cache_slots as int),
            actions@.len() < usize::MAX,
        ensures
            r.active_slots@.len() == actions@.len(),
            forall|t: int|
                0 <= t < actions@.len() ==> #[trigger] r.active_slots@[t] == live_slots(
                    actions@,
                    cache_slots as int,
                    t,
                ),
            exists|most: int|
                #[trigger] is_most(r.active_slots@, most) && r.max_allowed_slots == capped(
                    most + budget.max_additional_slots,
                ),
            r.remaining_entries == budget.max_entries,
    {
        let ghost slots = cache_slots as int;
        let n: usize = actions.len();
        let intervals = cache_slot_intervals(actions, cache_slots);
        let ghost iv = intervals@;
        let ghost sv = starts_of(iv);
        let ghost ev = ends_of(iv);
        let mut starts = zeros(n);
        let mut ends = zeros(n + 1);
        let mut s: usize = 0;
        while s < intervals.len()
            invariant
                s <= slots,
                slots == cache_slots,
                n == actions@.len(),
                n < usize::MAX,
                iv == intervals@,
                iv.len() == slots,
                sv == starts_of(iv),
                ev == ends_of(iv),
                layout::single_stores(actions@, slots),
                forall|k: int|
                    0 <= k < slots ==> layout::is_interval(
                        actions@,
                        k,
                        (#[trigger] iv[k]).0 as int,
                        iv[k].1 as int,
                    ),
                starts@.len() == n,
                ends@.len() == n + 1,
                forall|x: int|
                    0 <= x < n ==> #[trigger] starts@[x] == count_equal(sv, x, s as int),
                forall|x: int|
                    0 <= x < n + 1 ==> #[trigger] ends@[x] == count_equal(ev, x, s as int),
            decreases slots - s,
        {
            let (start, end) = intervals[s];
            proof {
                layout::lemma_alive(actions@, slots, s as int, start as int, end as int, 0);
                lemma_count_step(sv, start as int, s as int);
                lemma_count_step(ev, end + 1, s as int);
                assert(iv[s as int] == (start, end));
            }
            let a = starts[start];
            starts.set(start, a + 1);
            let b = ends[end + 1];
            ends.set(end + 1, b + 1);
            s += 1;
        }
        let mut active: usize = 0;
        let mut most: usize = 0;
        let mut active_slots: Vec<usize> = Vec::with_capacity(n);
        proof {
            assert forall|k: int| 0 <= k < sv.len() implies #[trigger] sv[k] >= 0 by {}
            assert forall|k: int| 0 <= k < ev.len() implies #[trigger] ev[k] >= 0 by {}
            lemma_count_negative(sv, slots);
            lemma_count_negative(ev, slots);
            lemma_live(actions@, slots, iv, -1, slots);
        }
        let mut t: usize = 0;
        while t < n
            invariant
                t <= n,
                slots == cache_slots,
                n == actions@.len(),
                iv == intervals@,
                iv.len() == slots,
                sv == starts_of(iv),
                ev == ends_of(iv),
                layout::single_stores(actions@, slots),
                forall|k: int|
                    0 <= k < slots ==> layout::is_interval(
                        actions@,
                        k,
                        (#[trigger] iv[k]).0 as int,
                        iv[k].1 as int,
                    ),
                starts@.len() == n,
                ends@.len() == n + 1,
                forall|x: int|
                    0 <= x < n ==> #[trigger] starts@[x] == count_equal(sv, x, slots),
                forall|x: int|
                    0 <= x < n + 1 ==> #[trigger] ends@[x] == count_equal(ev, x, slots),
                active == live_slots(actions@, slots, t - 1),
                active_slots@.len() == t,
                forall|x: int|
                    0 <= x < t ==> #[trigger] active_slots@[x] == live_slots(actions@, slots, x),
                forall|x: int| 0 <= x < t ==> #[trigger] active_slots@[x] <= most,
                most == 0 || exists|x: int| 0 <= x < t && #[trigger] active_slots@[x] == most,
            decreases n - t,
        {
            proof {
                lemma_live(actions@, slots, iv, t - 1, slots);
                lemma_live(actions@, slots, iv, t as int, slots);
                lemma_count_step(sv, t as int, slots);
                lemma_count_step(ev, t as int, slots);
                // What ends here was alive just before.
                lemma_ended(actions@, slots, iv, t as int, slots);
            }
            active = active - ends[t];
            active = active + starts[t];
            let ghost old_slots = active_slots@;
            active_slots.push(active);
            if active > most {
                most = active;
                assert(active_slots@[t as int] == most);
            } else {
                proof {
                    if most != 0 {
                        let x = choose|x: int| 0 <= x < t && #[trigger] old_slots[x] == most;
                        assert(active_slots@[x] == most);
                    }
                }
            }
            t += 1;
        }
        proof {
            assert(is_most(active_slots@, most as int));
        }
        let max_allowed_slots: usize = most.saturating_add(budget.max_additional_slots);
        let r = LinearTermCacheOccupancy {
            active_slots,
            max_allowed_slots,
            remaining_entries: budget.max_entries,
        };
        assert(is_most(r.active_slots@, most as int) && r.max_allowed_slots == capped(
            most + budget.max_additional_slots,
        ));
        r
    }

    /// Reserves a slot from `start` to `end`, if there is room for it.
    pub fn try_reserve(&mut self, start: usize, end: usize) -> (r: bool)
        requires
            start <= end < old(self).active_slots@.len(),
        ensures
            r <==> old(self).remaining_entries > 0 && forall|t: int|
                start <= t <= end ==> #[trigger] old(self).active_slots@[t] < old(self).max_allowed_slots,
            !r ==> *final(self) == *old(self),
            r ==> {
                &&& final(self).remaining_entries == old(self).remaining_entries - 1
                &&& final(self).max_allowed_slots == old(self).max_allowed_slots
                &&& final(self).active_slots@.len() == old(self).active_slots@.len()
                &&& forall|t: int|
                    0 <= t < old(self).active_slots@.len() ==> #[trigger] final(self).active_slots@[t] == old(self).active_slots@[t] + (if start <= t <= end {
                        1int
                    } else {
                        0
                    })
            },
    {
        if self.remaining_entries == 0 {
            return false;
        }
        let n: usize = self.active_slots.len();
        let mut t: usize = start;
        while t <= end
            invariant
                n == self.active_slots@.len(),
                start <= t <= end + 1,
                *self == *old(self),
                end < self.active_slots@.len(),
                forall|k: int|
                    start <= k < t ==> #[trigger] self.active_slots@[k] < self.max_allowed_slots,
            decreases end + 1 - t,
        {
            if self.active_slots[t] >= self.max_allowed_slots {
                return false;
            }
            t += 1;
        }
        let mut t: usize = start;
        while t <= end
            invariant
                n == self.active_slots@.len(),
                start <= t <= end + 1,
                self.max_allowed_slots == old(self).max_allowed_slots,
                self.remaining_entries == old(self).remaining_entries,
                self.active_slots@.len() == old(self).active_slots@.len(),
                end < self.active_slots@.len(),
                forall|k: int|
                    start <= k <= end ==> #[trigger] old(self).active_slots@[k] < old(self).max_allowed_slots,
                forall|k: int|
                    0 <= k < self.active_slots@.len() ==> #[trigger] self.active_slots@[k] == old(self).active_slots@[k] + (if start <= k < t {
                        1int
                    } else {
                        0
                    }),
            decreases end + 1 - t,
        {
            assert(old(self).active_slots@[t as int] < old(self).max_allowed_slots);
            let active = self.active_slots[t];
            self.active_slots.set(t, active + 1);
            t += 1;
        }
        self.remaining_entries = self.remaining_entries - 1;
        true
    }
}

/// A number, or the largest that a `usize` holds.
pub open spec fn capped(x: int) -> int {
    if x > usize::MAX {
        usize::MAX as int
    } else {
        x
    }
}

/// `most` is the largest of the numbers, or zero if there are none.
pub open spec fn is_most(s: Seq<usize>, most: int) -> bool {
    &&& forall|i: int| 0 <= i < s.len() ==> #[trigger] s[i] <= most
    &&& most == 0 || exists|i: int| 0 <= i < s.len() && #[trigger] s[i] == most
}

proof fn lemma_ended(
    actions: Seq<Option<CacheAction>>,
    slots: int,
    iv: Seq<(usize, usize)>,
    t: int,
    k: int,
)
    requires
        layout::single_stores(actions, slots),
        iv.len() == slots,
        0 <= k <= slots,
        forall|s: int|
            0 <= s < slots ==> layout::is_interval(
                actions,
                s,
                (#[trigger] iv[s]).0 as int,
                iv[s].1 as int,
            ),
    ensures
        count_equal(ends_of(iv), t, k) <= live_slots(actions, k, t - 1),
    decreases k,
{
    if k > 0 {
        lemma_ended(actions, slots, iv, t, k - 1);
        layout::lemma_alive(actions, slots, k - 1, iv[k - 1].0 as int, iv[k - 1].1 as int, t - 1);
    }
}

} // verus!
