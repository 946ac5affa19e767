//! Common subexpressions: which repeated sub-plans are cached.
use crate::apply::apply_cache_actions;
use crate::ast::{IndexedLeaf, RowEnv};
use crate::field::Field;
use crate::layout;
use crate::layout::{LinearTermCacheBudget, reuse_cache_slots};
use crate::lowering;
use crate::occupancy;
use crate::occupancy::LinearTermCacheOccupancy;
use crate::occurrence;
use crate::occurrence::{PlanOccurrence, collect_plan_occurrences, same_plan};
use crate::plan;
use crate::plan::{EvaluationPlan, PlanOp, PlanView};
use crate::retained;
use crate::retained::{EvaluationCacheLayout, apply_cache_events};
use crate::scalars;
use crate::scalars::{PlanScalar, ScalarView};
use crate::schedule;
use crate::schedule::CacheAction;
use std::collections::HashMap;
use vstd::prelude::*;

verus! {

/// Each cached polynomial occupies one chunk-sized buffer. One avoided field
/// multiplication amortizes storing and loading that buffer; copy-only shapes remain
/// uncached.
pub const MIN_CSE_SAVED_MULTIPLICATIONS: usize = 1;

/// The multiplications that a scalar costs: literals that only negate, keep or double
/// cost none.
pub open spec fn scale_cost(s: ScalarView, p: int) -> nat {
    match s {
        ScalarView::Literal(v) => if v == (-1int) % p || v == 1 || v == 2int % p {
            0
        } else {
            1
        },
        _ => 1,
    }
}

/// The multiplications and the node visits of an arithmetic plan.
pub open spec fn cost_of(a: PlanView, descs: Seq<ScalarView>, p: int) -> (nat, nat)
    decreases a,
{
    let c = costs_of(a.children, descs, p);
    match a.op {
        PlanOp::Add => c_plus(c, 0),
        PlanOp::Mul | PlanOp::Square => c_plus(c, 1),
        PlanOp::Scale(s) => c_plus(c, scale_cost(descs[s], p)),
        PlanOp::Horner(coefficients) => (
            (c.0 + coefficients.len() - 1) as nat,
            1 + c.1 + coefficients.len(),
        ),
        _ => (0, 1),
    }
}

pub open spec fn c_plus(c: (nat, nat), multiplications: nat) -> (nat, nat) {
    (multiplications + c.0, 1 + c.1)
}

pub open spec fn costs_of(s: Seq<PlanView>, descs: Seq<ScalarView>, p: int) -> (nat, nat)
    decreases s,
{
    if s.len() == 0 {
        (0, 0)
    } else {
        let c = costs_of(s.drop_last(), descs, p);
        let d = cost_of(s.last(), descs, p);
        (c.0 + d.0, c.1 + d.1)
    }
}

proof fn lemma_costs_pair(a: PlanView, b: PlanView, descs: Seq<ScalarView>, p: int)
    ensures
        ({
            let x = cost_of(a, descs, p);
            let y = cost_of(b, descs, p);
            &&& costs_of(seq![a, b], descs, p) == (x.0 + y.0, x.1 + y.1)
            &&& costs_of(seq![a], descs, p) == x
        }),
{
    assert(seq![a, b].drop_last() =~= seq![a]);
    assert(seq![a].drop_last() =~= Seq::<PlanView>::empty());
    assert(costs_of(seq![a].drop_last(), descs, p) == (0nat, 0nat));
    assert(costs_of(seq![a], descs, p) == ({
        let c = costs_of(seq![a].drop_last(), descs, p);
        let d = cost_of(seq![a].last(), descs, p);
        (c.0 + d.0, c.1 + d.1)
    }));
    assert(costs_of(seq![a, b], descs, p) == ({
        let c = costs_of(seq![a, b].drop_last(), descs, p);
        let d = cost_of(seq![a, b].last(), descs, p);
        (c.0 + d.0, c.1 + d.1)
    }));
}

/// The multiplications and the node visits that evaluating a plan takes.
fn plan_cost<F: Field>(
    plan: &EvaluationPlan,
    scalars: &[PlanScalar<F>],
    Ghost(polys): Ghost<spec_fn(IndexedLeaf) -> bool>,
) -> (r: (usize, usize))
    requires
        plan::plan_in_bounds(plan.view(), scalars@.len() as int, polys, 0),
    ensures
        r.0 == occupancy::capped(cost_of(plan.view(), scalars::scalar_views(scalars@), F::order()).0 as int),
        r.1 == occupancy::capped(cost_of(plan.view(), scalars::scalar_views(scalars@), F::order()).1 as int),
    decreases plan,
{
    let ghost n = scalars@.len() as int;
    let ghost descs = scalars::scalar_views(scalars@);
    let ghost p = F::order();
    proof {
        F::lemma_order();
    }
    match plan {
        EvaluationPlan::Add(lhs, rhs) => {
            proof {
                lemma_costs_pair(lhs.view(), rhs.view(), descs, p);
                lowering::lemma_plan_pair_facts(lhs.view(), rhs.view(), n, polys);
            }
            let a = plan_cost(lhs, scalars, Ghost(polys));
            let b = plan_cost(rhs, scalars, Ghost(polys));
            (a.0.saturating_add(b.0), a.1.saturating_add(b.1).saturating_add(1))
        },
        EvaluationPlan::Mul(lhs, rhs) => {
            proof {
                lemma_costs_pair(lhs.view(), rhs.view(), descs, p);
                lowering::lemma_plan_pair_facts(lhs.view(), rhs.view(), n, polys);
            }
            let a = plan_cost(lhs, scalars, Ghost(polys));
            let b = plan_cost(rhs, scalars, Ghost(polys));
            (
                a.0.saturating_add(b.0).saturating_add(1),
                a.1.saturating_add(b.1).saturating_add(1),
            )
        },
        EvaluationPlan::Square(inner) => {
            proof {
                lemma_costs_pair(inner.view(), inner.view(), descs, p);
                lowering::lemma_plan_pair_facts(inner.view(), inner.view(), n, polys);
            }
            let a = plan_cost(inner, scalars, Ghost(polys));
            (a.0.saturating_add(1), a.1.saturating_add(1))
        },
        EvaluationPlan::Scale(inner, scalar) => {
            proof {
                lemma_costs_pair(inner.view(), inner.view(), descs, p);
                lowering::lemma_plan_pair_facts(inner.view(), inner.view(), n, polys);
            }
            let a = plan_cost(inner, scalars, Ghost(polys));
            let multiplication: usize = match scalars[scalar.index()] {
                PlanScalar::Literal(v) => {
                    let one = F::one();
                    if v.equals(&one.neg()) || v.equals(&one) || v.equals(&one.double()) {
                        0
                    } else {
                        1
                    }
                },
                _ => 1,
            };
            assert(multiplication == scale_cost(descs[scalar.at()], p));
            (a.0.saturating_add(multiplication), a.1.saturating_add(1))
        },
        EvaluationPlan::Horner { base, coefficients } => {
            proof {
                lemma_costs_pair(base.view(), base.view(), descs, p);
                lowering::lemma_plan_pair_facts(base.view(), base.view(), n, polys);
            }
            let a = plan_cost(base, scalars, Ghost(polys));
            (
                a.0.saturating_add(coefficients.len() - 1),
                a.1.saturating_add(coefficients.len()).saturating_add(1),
            )
        },
        _ => (0, 1),
    }
}

/// Equal arithmetic occurs at `i` and at `j`.
pub open spec fn repeats(nodes: Seq<PlanView>, i: int, j: int) -> bool {
    &&& 0 <= i < nodes.len()
    &&& 0 <= j < nodes.len()
    &&& nodes[i] == nodes[j]
    &&& occurrence::arithmetic(nodes[i])
}

/// How often `a` is among the first `n` nodes.
pub open spec fn times_of(nodes: Seq<PlanView>, a: PlanView, n: int) -> nat
    decreases n,
{
    if n <= 0 {
        0
    } else {
        times_of(nodes, a, n - 1) + (if nodes[n - 1] == a {
            1nat
        } else {
            0
        })
    }
}

/// `f` is where `a` occurs first.
pub open spec fn is_first(nodes: Seq<PlanView>, a: PlanView, f: int) -> bool {
    &&& 0 <= f < nodes.len()
    &&& nodes[f] == a
    &&& forall|j: int| 0 <= j < f ==> #[trigger] nodes[j] != a
}

/// The multiplications and the visits that are saved where all occurrences of `a` but one
/// are loaded.
pub open spec fn savings(nodes: Seq<PlanView>, a: PlanView, descs: Seq<ScalarView>, p: int) -> (
    int,
    int,
) {
    let times = times_of(nodes, a, nodes.len() as int) - 1;
    let cost = cost_of(a, descs, p);
    (times * occupancy::capped(cost.0 as int), times * occupancy::capped(cost.1 as int))
}

/// `a` is cached before `b`: what saves more multiplications goes first, then what saves
/// more visits, then what occurs first.
pub open spec fn goes_first(
    nodes: Seq<PlanView>,
    a: PlanView,
    b: PlanView,
    descs: Seq<ScalarView>,
    p: int,
) -> bool {
    let x = savings(nodes, a, descs, p);
    let y = savings(nodes, b, descs, p);
    if x.0 != y.0 {
        x.0 > y.0
    } else if x.1 != y.1 {
        x.1 > y.1
    } else {
        exists|f: int, g: int| #[trigger]
            is_first(nodes, a, f) && #[trigger] is_first(nodes, b, g) && f < g
    }
}

/// The positions of `a` that lie before `n` are as many as `a` occurs there.
proof fn lemma_times(nodes: Seq<PlanView>, positions: Seq<usize>, a: PlanView, n: int, k: int)
    requires
        0 <= n <= nodes.len() <= usize::MAX,
        0 <= k <= positions.len(),
        forall|l: int|
            0 <= l < positions.len() ==> (#[trigger] positions[l]) < nodes.len()
                && nodes[positions[l] as int] == a,
        forall|l: int, m: int|
            0 <= l < m < positions.len() ==> #[trigger] positions[l] < #[trigger] positions[m],
        forall|j: int|
            0 <= j < nodes.len() && #[trigger] nodes[j] == a ==> positions.contains(j as usize),
        forall|l: int| 0 <= l < k ==> #[trigger] positions[l] < n,
        forall|l: int| k <= l < positions.len() ==> #[trigger] positions[l] >= n,
    ensures
        times_of(nodes, a, n) == k,
    decreases n,
{
    if n > 0 {
        if nodes[n - 1] == a {
            assert(positions.contains((n - 1) as usize));
            let m = choose|m: int| 0 <= m < positions.len() && positions[m] == (n - 1) as usize;
            assert(positions[m] == n - 1);
            if m < k - 1 {
                assert(positions[m] < positions[k - 1]);
            }
            assert(m == k - 1);
            assert forall|l: int| 0 <= l < k - 1 implies #[trigger] positions[l] < n - 1 by {
                assert(positions[l] < positions[m]);
            }
            lemma_times(nodes, positions, a, n - 1, k - 1);
        } else {
            lemma_times(nodes, positions, a, n - 1, k);
        }
    } else if k > 0 {
        assert(positions[0] < n);
    }
}

/// The occurrences of one repeated sub-plan, and what caching them saves.
pub struct RepeatShape {
    pub saved_multiplications: u128,
    pub saved_visits: u128,
    pub first_occurrence: usize,
    pub positions: Vec<usize>,
}

impl RepeatShape {
    /// Whether this shape is cached before `other`: what saves more goes first.
    fn goes_before(&self, other: &Self) -> (r: bool)
        ensures
            r == self.precedes(*other),
    {
        if self.saved_multiplications != other.saved_multiplications {
            self.saved_multiplications > other.saved_multiplications
        } else if self.saved_visits != other.saved_visits {
            self.saved_visits > other.saved_visits
        } else {
            self.first_occurrence < other.first_occurrence
        }
    }

    spec fn precedes(self, other: Self) -> bool {
        if self.saved_multiplications != other.saved_multiplications {
            self.saved_multiplications > other.saved_multiplications
        } else if self.saved_visits != other.saved_visits {
            self.saved_visits > other.saved_visits
        } else {
            self.first_occurrence < other.first_occurrence
        }
    }
}

/// The positions are increasing, and the same arithmetic occurs at all of them.
spec fn matches_in(nodes: Seq<PlanView>, positions: Seq<usize>, first: int) -> bool {
    &&& forall|k: int| 0 <= k < positions.len() ==> repeats(nodes, first, #[trigger] positions[k] as int)
    &&& forall|k: int, l: int|
        0 <= k < l < positions.len() ==> #[trigger] positions[k] < #[trigger] positions[l]
}

spec fn shape_fits(nodes: Seq<PlanView>, shape: RepeatShape, descs: Seq<ScalarView>, p: int) -> bool {
    &&& shape.positions@.len() >= 2
    &&& shape.first_occurrence < nodes.len()
    &&& matches_in(nodes, shape.positions@, shape.first_occurrence as int)
    &&& times_of(nodes, nodes[shape.first_occurrence as int], nodes.len() as int)
        == shape.positions@.len()
    &&& is_first(nodes, nodes[shape.first_occurrence as int], shape.first_occurrence as int)
    &&& savings(nodes, nodes[shape.first_occurrence as int], descs, p) == (
        shape.saved_multiplications as int,
        shape.saved_visits as int,
    )
}

/// The order of two shapes is that of what they hold.
proof fn lemma_precedes(
    nodes: Seq<PlanView>,
    x: RepeatShape,
    y: RepeatShape,
    descs: Seq<ScalarView>,
    p: int,
)
    requires
        shape_fits(nodes, x, descs, p),
        shape_fits(nodes, y, descs, p),
        !x.precedes(y),
    ensures
        !goes_first(
            nodes,
            nodes[x.first_occurrence as int],
            nodes[y.first_occurrence as int],
            descs,
            p,
        ),
{
    let a = nodes[x.first_occurrence as int];
    let b = nodes[y.first_occurrence as int];
    assert forall|f: int, g: int| #[trigger] is_first(nodes, a, f) && #[trigger] is_first(nodes, b, g) implies f
        == x.first_occurrence && g == y.first_occurrence by {
        if f < x.first_occurrence {
            assert(nodes[f] != a);
        }
        if f > x.first_occurrence {
            assert(nodes[x.first_occurrence as int] != a);
        }
        if g < y.first_occurrence {
            assert(nodes[g] != b);
        }
        if g > y.first_occurrence {
            assert(nodes[y.first_occurrence as int] != b);
        }
    }
}

/// `class[i]` is the shape that lists occurrence `i`, or negative if none does.
spec fn classes_fit(nodes: Seq<PlanView>, shapes: Seq<RepeatShape>, class: Seq<int>, upto: int) -> bool {
    &&& class.len() == nodes.len()
    &&& forall|i: int|
        #![trigger class[i]]
        0 <= i < nodes.len() && class[i] >= 0 ==> class[i] < shapes.len()
            && shapes[class[i]].positions@.contains(i as usize)
    &&& forall|i: int, j: int|
        0 <= i < j && i < upto && repeats(nodes, i, j) ==> #[trigger] together(class, i, j)
}

/// One shape lists both occurrences.
spec fn together(class: Seq<int>, i: int, j: int) -> bool {
    class[i] >= 0 && class[i] == class[j]
}

/// The positions of each fingerprint among the first `n` occurrences.
spec fn groups_fit<'a>(
    nodes: Seq<PlanOccurrence<'a>>,
    groups: Map<u64, Vec<usize>>,
    n: int,
) -> bool {
    &&& forall|print: u64, k: int|
        #![trigger groups[print]@[k]]
        groups.contains_key(print) && 0 <= k < groups[print]@.len() ==> groups[print]@[k] < n
            && nodes[groups[print]@[k] as int].fingerprint == print
    &&& forall|print: u64, k: int, l: int|
        #![trigger groups[print]@[k], groups[print]@[l]]
        groups.contains_key(print) && 0 <= k < l < groups[print]@.len() ==> groups[print]@[k]
            < groups[print]@[l]
    &&& forall|i: int|
        #![trigger nodes[i]]
        0 <= i < n ==> groups.contains_key(nodes[i].fingerprint)
            && groups[nodes[i].fingerprint]@.contains(i as usize)
}

fn fingerprint_groups<'a>(nodes: &Vec<PlanOccurrence<'a>>) -> (groups: HashMap<u64, Vec<usize>>)
    ensures
        groups_fit(nodes@, groups@, nodes@.len() as int),
{
    let mut groups: HashMap<u64, Vec<usize>> = HashMap::new();
    let mut i: usize = 0;
    while i < nodes.len()
        invariant
            i <= nodes@.len(),
            groups_fit(nodes@, groups@, i as int),
        decreases nodes@.len() - i,
    {
        let print = nodes[i].fingerprint;
        let ghost before = groups@;
        let mut list: Vec<usize> = match groups.remove(&print) {
            Some(list) => list,
            None => Vec::new(),
        };
        let ghost old_list = list@;
        list.push(i);
        groups.insert(print, list);
        proof {
            let now = groups@;
            assert(old_list == (if before.contains_key(print) {
                before[print]@
            } else {
                Seq::empty()
            }));
            assert(now == before.insert(print, list));
            assert forall|q: u64, k: int|
                #![trigger now[q]@[k]]
                now.contains_key(q) && 0 <= k < now[q]@.len() implies now[q]@[k] < i + 1
                && nodes@[now[q]@[k] as int].fingerprint == q by {
                if q == print {
                    if k < old_list.len() {
                        assert(now[q]@[k] == before[print]@[k]);
                    }
                } else {
                    assert(now[q] == before[q]);
                    assert(before[q]@[k] < i);
                }
            }
            assert forall|q: u64, k: int, l: int|
                #![trigger now[q]@[k], now[q]@[l]]
                now.contains_key(q) && 0 <= k < l < now[q]@.len() implies now[q]@[k]
                < now[q]@[l] by {
                if q == print {
                    assert(now[q]@[k] == before[print]@[k]);
                    if l < old_list.len() {
                        assert(now[q]@[l] == before[print]@[l]);
                    }
                } else {
                    assert(now[q] == before[q]);
                    assert(before[q]@[k] < before[q]@[l]);
                }
            }
            assert forall|j: int|
                #![trigger nodes@[j]]
                0 <= j < i + 1 implies now.contains_key(nodes@[j].fingerprint)
                && now[nodes@[j].fingerprint]@.contains(j as usize) by {
                if j == i {
                    assert(list@[old_list.len() as int] == i);
                } else {
                    assert(before[nodes@[j].fingerprint]@.contains(j as usize));
                    if nodes@[j].fingerprint == print {
                        let k = choose|k: int|
                            0 <= k < old_list.len() && old_list[k] == j as usize;
                        assert(list@[k] == j as usize);
                    }
                }
            }
        }
        i += 1;
    }
    groups
}

/// The ungrouped candidates at which the same arithmetic as at `index` occurs.
fn matching_candidates<'a>(
    nodes: &Vec<PlanOccurrence<'a>>,
    candidates: &Vec<usize>,
    grouped: &Vec<bool>,
    index: usize,
    Ghost(list): Ghost<Seq<PlanView>>,
) -> (r: Vec<usize>)
    requires
        occurrence::lists(nodes@, 0, list),
        nodes@.len() == list.len(),
        grouped@.len() == list.len(),
        index < list.len(),
        forall|k: int| 0 <= k < candidates@.len() ==> #[trigger] candidates@[k] < list.len(),
        forall|k: int, l: int|
            0 <= k < l < candidates@.len() ==> #[trigger] candidates@[k] < #[trigger] candidates@[l],
    ensures
        matches_in(list, r@, index as int),
        forall|k: int| 0 <= k < r@.len() ==> !grouped@[(#[trigger] r@[k]) as int],
        forall|j: int|
            candidates@.contains(j as usize) && 0 <= j < list.len() && !grouped@[j] && repeats(
                list,
                index as int,
                j,
            ) ==> #[trigger] r@.contains(j as usize),
{
    let mut r: Vec<usize> = Vec::new();
    let mut k: usize = 0;
    proof {
        assert(occurrence::node_fits(nodes@[0 + index as int], list[index as int], 0 + index as int));
    }
    while k < candidates.len()
        invariant
            k <= candidates@.len(),
            occurrence::lists(nodes@, 0, list),
            nodes@.len() == list.len(),
            grouped@.len() == list.len(),
            index < list.len(),
            nodes@[index as int].plan.view() == list[index as int],
            forall|k: int| 0 <= k < candidates@.len() ==> #[trigger] candidates@[k] < list.len(),
            forall|k: int, l: int|
                0 <= k < l < candidates@.len() ==> #[trigger] candidates@[k]
                    < #[trigger] candidates@[l],
            matches_in(list, r@, index as int),
            forall|l: int| 0 <= l < r@.len() ==> !grouped@[(#[trigger] r@[l]) as int],
            forall|l: int|
                0 <= l < r@.len() && k < candidates@.len() ==> #[trigger] r@[l]
                    < candidates@[k as int],
            forall|l: int|
                #![trigger candidates@[l]]
                0 <= l < k && !grouped@[candidates@[l] as int] && repeats(
                    list,
                    index as int,
                    candidates@[l] as int,
                ) ==> r@.contains(candidates@[l]),
        decreases candidates@.len() - k,
    {
        let candidate = candidates[k];
        let ghost before = r@;
        proof {
            assert(occurrence::node_fits(
                nodes@[0 + candidate as int],
                list[candidate as int],
                0 + candidate as int,
            ));
            if k + 1 < candidates@.len() {
                assert(candidates@[k as int] < candidates@[k + 1]);
            }
        }
        if !grouped[candidate] && same_plan(nodes[index].plan, nodes[candidate].plan) {
            r.push(candidate);
            proof {
                assert(r@[before.len() as int] == candidate);
            }
        }
        proof {
            assert forall|l: int|
                #![trigger candidates@[l]]
                0 <= l < k + 1 && !grouped@[candidates@[l] as int] && repeats(
                    list,
                    index as int,
                    candidates@[l] as int,
                ) implies r@.contains(candidates@[l]) by {
                if l < k {
                    let m = choose|m: int| 0 <= m < before.len() && before[m] == candidates@[l];
                    assert(r@[m] == candidates@[l]);
                } else {
                    assert(r@[before.len() as int] == candidate);
                }
            }
        }
        k += 1;
    }
    proof {
        assert forall|j: int|
            candidates@.contains(j as usize) && 0 <= j < list.len() && !grouped@[j] && repeats(
                list,
                index as int,
                j,
            ) implies #[trigger] r@.contains(j as usize) by {
            let l = choose|l: int| 0 <= l < candidates@.len() && candidates@[l] == j as usize;
            assert(candidates@[l] == j);
        }
    }
    r
}

spec fn ungrouped(grouped: Seq<bool>, class: Seq<int>) -> bool {
    &&& grouped.len() == class.len()
    &&& forall|i: int| 0 <= i < class.len() ==> (#[trigger] grouped[i] <==> class[i] >= 0)
}

/// Finds the repeated sub-plans. Only structural equality counts: fingerprints limit the
/// comparisons, and a collision can only add one.
fn repeat_shapes<'a, F: Field>(
    nodes: &Vec<PlanOccurrence<'a>>,
    scalars: &[PlanScalar<F>],
    Ghost(list): Ghost<Seq<PlanView>>,
    Ghost(polys): Ghost<spec_fn(IndexedLeaf) -> bool>,
) -> (r: (Vec<RepeatShape>, Ghost<Seq<int>>))
    requires
        occurrence::lists(nodes@, 0, list),
        nodes@.len() == list.len(),
        forall|i: int|
            0 <= i < list.len() ==> plan::plan_in_bounds(
                #[trigger] list[i],
                scalars@.len() as int,
                polys,
                0,
            ),
    ensures
        forall|k: int|
            0 <= k < r.0@.len() ==> shape_fits(
                list,
                #[trigger] r.0@[k],
                scalars::scalar_views(scalars@),
                F::order(),
            ),
        classes_fit(list, r.0@, r.1@, list.len() as int),
{
    let ghost descs = scalars::scalar_views(scalars@);
    let ghost p = F::order();
    let groups = fingerprint_groups(nodes);
    let n: usize = nodes.len();
    let mut grouped: Vec<bool> = Vec::with_capacity(n);
    let mut i: usize = 0;
    while i < n
        invariant
            i <= n,
            grouped@.len() == i,
            forall|k: int| 0 <= k < i ==> !#[trigger] grouped@[k],
        decreases n - i,
    {
        grouped.push(false);
        i += 1;
    }
    let mut shapes: Vec<RepeatShape> = Vec::new();
    let ghost mut class: Seq<int> = Seq::new(n as nat, |i: int| -1int);
    let mut index: usize = 0;
    while index < n
        invariant
            index <= n,
            n == nodes@.len(),
            n == list.len(),
            descs == scalars::scalar_views(scalars@),
            p == F::order(),
            occurrence::lists(nodes@, 0, list),
            forall|i: int|
                0 <= i < list.len() ==> plan::plan_in_bounds(
                    #[trigger] list[i],
                    scalars@.len() as int,
                    polys,
                    0,
                ),
            groups_fit(nodes@, groups@, n as int),
            ungrouped(grouped@, class),
            forall|k: int|
                0 <= k < shapes@.len() ==> shape_fits(list, #[trigger] shapes@[k], descs, p),
            classes_fit(list, shapes@, class, index as int),
            forall|k: int|
                0 <= k < shapes@.len() ==> (#[trigger] shapes@[k]).first_occurrence < index,
            grouped@.len() == n,
        decreases n - index,
    {
        let ghost c0 = class;
        let ghost s0 = shapes@;
        if !grouped[index] {
            let print = nodes[index].fingerprint;
            proof {
                assert(occurrence::node_fits(nodes@[0 + index as int], list[index as int], 0 + index as int));
            }
            let matching: Vec<usize> = match groups.get(&print) {
                Some(candidates) => {
                    proof {
                        let m = groups@[print];
                        assert(m == *candidates);
                        assert forall|k: int| 0 <= k < candidates@.len() implies
                            #[trigger] candidates@[k] < list.len() by {
                            assert(groups@[print]@[k] < n);
                        }
                        assert forall|k: int, l: int|
                            0 <= k < l < candidates@.len() implies #[trigger] candidates@[k]
                            < #[trigger] candidates@[l] by {
                            assert(groups@[print]@[k] < groups@[print]@[l]);
                        }
                    }
                    matching_candidates(nodes, candidates, &grouped, index, Ghost(list))
                },
                None => Vec::new(),
            };
            proof {
                // Every later occurrence of the same arithmetic has the same
                // fingerprint, and is not in another shape.
                assert forall|j: int| index <= j < n && repeats(list, index as int, j) implies
                    #[trigger] matching@.contains(j as usize) by {
                    assert(occurrence::node_fits(nodes@[0 + j], list[j], 0 + j));
                    assert(nodes@[j].fingerprint == print);
                    assert(groups@[nodes@[j].fingerprint]@.contains(j as usize));
                    assert(!grouped@[j]) by {
                        if grouped@[j] {
                            lemma_class_first(list, shapes@, class, index as int, j, descs, p);
                        }
                    }
                }
            }
            if matching.len() > 1 {
                let mut k: usize = 0;
                let ghost g0 = grouped@;
                while k < matching.len()
                    invariant
                        k <= matching@.len(),
                        grouped@.len() == n,
                        n == list.len(),
                        matches_in(list, matching@, index as int),
                        ungrouped(g0, c0),
                        c0.len() == n,
                        forall|i: int|
                            0 <= i < n ==> (#[trigger] grouped@[i] <==> g0[i]
                                || matching@.take(k as int).contains(i as usize)),
                    decreases matching@.len() - k,
                {
                    let ghost before = grouped@;
                    assert(repeats(list, index as int, matching@[k as int] as int));
                    grouped.set(matching[k], true);
                    proof {
                        let now = matching@.take(k + 1);
                        let was = matching@.take(k as int);
                        assert forall|i: int| 0 <= i < n implies (#[trigger] grouped@[i] <==> g0[i]
                            || now.contains(i as usize)) by {
                            if was.contains(i as usize) {
                                let l = choose|l: int| 0 <= l < was.len() && was[l] == i as usize;
                                assert(now[l] == i as usize);
                            }
                            if i == matching@[k as int] {
                                assert(now[k as int] == i as usize);
                            }
                            if now.contains(i as usize) && i != matching@[k as int] {
                                let l = choose|l: int| 0 <= l < now.len() && now[l] == i as usize;
                                assert(was[l] == i as usize);
                            }
                            assert(grouped@[i] == (before[i] || i == matching@[k as int]));
                        }
                    }
                    k += 1;
                }
                let cost = plan_cost(nodes[index].plan, scalars, Ghost(polys));
                let times: u128 = (matching.len() - 1) as u128;
                let a: u128 = cost.0 as u128;
                let b: u128 = cost.1 as u128;
                proof {
                    lemma_product_fits(times, a);
                    lemma_product_fits(times, b);
                    let node = list[index as int];
                    assert(repeats(list, index as int, matching@[0] as int));
                    assert forall|j: int| 0 <= j < index implies #[trigger] list[j] != node by {
                        if list[j] == node {
                            assert(repeats(list, j, index as int));
                            lemma_same_class(list, s0, c0, index as int, j, index as int);
                        }
                    }
                    assert forall|j: int| 0 <= j < list.len() && #[trigger] list[j] == node implies matching@.contains(
                        j as usize,
                    ) by {
                        assert(repeats(list, index as int, j));
                    }
                    assert forall|l: int| 0 <= l < matching@.len() implies (
                    #[trigger] matching@[l]) < list.len() && list[matching@[l] as int] == node by {
                        assert(repeats(list, index as int, matching@[l] as int));
                    }
                    lemma_times(list, matching@, node, list.len() as int, matching@.len() as int);
                }
                proof {
                    class = Seq::new(
                        n as nat,
                        |i: int|
                            if matching@.contains(i as usize) {
                                s0.len() as int
                            } else {
                                c0[i]
                            },
                    );
                    assert(matching@.take(matching@.len() as int) =~= matching@);
                }
                let ghost mm = matching@;
                shapes.push(
                    RepeatShape {
                        saved_multiplications: times * a,
                        saved_visits: times * b,
                        first_occurrence: index,
                        positions: matching,
                    },
                );
                proof {
                    assert(shape_fits(list, shapes@[s0.len() as int], descs, p));
                    lemma_class_push(list, s0, shapes@, c0, class, index as int, mm);
                    assert(classes_fit(list, shapes@, class, index + 1));
                }
            } else {
                proof {
                    assert forall|i: int, j: int|
                        #![trigger together(class, i, j)]
                        0 <= i < j && i < index + 1 && repeats(list, i, j) implies together(class, i, j) by {
                        if i == index {
                            assert(repeats(list, index as int, index as int));
                            assert(matching@.contains(index as usize));
                            assert(matching@.contains(j as usize));
                            let x = choose|x: int|
                                0 <= x < matching@.len() && matching@[x] == index;
                            let y = choose|y: int|
                                0 <= y < matching@.len() && matching@[y] == j as usize;
                            assert(x == y);
                        } else {
                            lemma_same_class(list, shapes@, class, index as int, i, j);
                        }
                    }
                    assert(classes_fit(list, shapes@, class, index + 1));
                }
            }
        } else {
            proof {
                assert forall|i: int, j: int|
                    #![trigger together(class, i, j)]
                    0 <= i < j && i < index + 1 && repeats(list, i, j) implies together(class, i, j) by {
                    if i == index {
                        lemma_class_of_grouped(list, shapes@, class, index as int, j, descs, p);
                    } else {
                        lemma_same_class(list, shapes@, class, index as int, i, j);
                    }
                }
                assert(classes_fit(list, shapes@, class, index + 1));
            }
        }
        index += 1;
    }
    (shapes, Ghost(class))
}

proof fn lemma_product_fits(a: u128, b: u128)
    requires
        a <= u64::MAX,
        b <= u64::MAX,
    ensures
        a * b <= u128::MAX,
{
    assert(a * b <= 0xffff_ffff_ffff_ffff * 0xffff_ffff_ffff_ffff) by (nonlinear_arith)
        requires
            a <= 0xffff_ffff_ffff_ffff,
            b <= 0xffff_ffff_ffff_ffff,
    ;
}

proof fn lemma_same_class(
    nodes: Seq<PlanView>,
    shapes: Seq<RepeatShape>,
    class: Seq<int>,
    upto: int,
    i: int,
    j: int,
)
    requires
        classes_fit(nodes, shapes, class, upto),
        0 <= i < j,
        i < upto,
        repeats(nodes, i, j),
    ensures
        class[i] >= 0,
        class[i] == class[j],
{
    assert(together(class, i, j));
}

/// An occurrence that is grouped before its first equal one was reached would have
/// grouped that one too.
proof fn lemma_class_first(
    nodes: Seq<PlanView>,
    shapes: Seq<RepeatShape>,
    class: Seq<int>,
    index: int,
    j: int,
    descs: Seq<ScalarView>,
    p: int,
)
    requires
        nodes.len() <= usize::MAX,
        classes_fit(nodes, shapes, class, index),
        0 <= index <= j < nodes.len(),
        repeats(nodes, index, j),
        forall|k: int| 0 <= k < shapes.len() ==> shape_fits(nodes, #[trigger] shapes[k], descs, p),
        class[j] >= 0,
        forall|k: int|
            0 <= k < shapes.len() ==> (#[trigger] shapes[k]).first_occurrence < index,
    ensures
        class[index] >= 0,
{
    let k = class[j];
    let f = shapes[k].first_occurrence as int;
    assert(shape_fits(nodes, shapes[k], descs, p));
    let l = choose|l: int|
        0 <= l < shapes[k].positions@.len() && shapes[k].positions@[l] == j as usize;
    assert(repeats(nodes, f, shapes[k].positions@[l] as int));
    assert(repeats(nodes, f, index));
    lemma_same_class(nodes, shapes, class, index, f, index);
}

proof fn lemma_class_of_grouped(
    nodes: Seq<PlanView>,
    shapes: Seq<RepeatShape>,
    class: Seq<int>,
    index: int,
    j: int,
    descs: Seq<ScalarView>,
    p: int,
)
    requires
        nodes.len() <= usize::MAX,
        classes_fit(nodes, shapes, class, index),
        0 <= index < j < nodes.len(),
        repeats(nodes, index, j),
        forall|k: int| 0 <= k < shapes.len() ==> shape_fits(nodes, #[trigger] shapes[k], descs, p),
        forall|k: int|
            0 <= k < shapes.len() ==> (#[trigger] shapes[k]).first_occurrence < index,
        class[index] >= 0,
    ensures
        class[index] == class[j],
{
    let k = class[index];
    let f = shapes[k].first_occurrence as int;
    assert(shape_fits(nodes, shapes[k], descs, p));
    let l = choose|l: int|
        0 <= l < shapes[k].positions@.len() && shapes[k].positions@[l] == index as usize;
    assert(repeats(nodes, f, shapes[k].positions@[l] as int));
    assert(repeats(nodes, f, index));
    assert(repeats(nodes, f, j));
    lemma_same_class(nodes, shapes, class, index, f, index);
    lemma_same_class(nodes, shapes, class, index, f, j);
}

/// One more shape.
proof fn lemma_class_push(
    nodes: Seq<PlanView>,
    s0: Seq<RepeatShape>,
    s1: Seq<RepeatShape>,
    c0: Seq<int>,
    c1: Seq<int>,
    index: int,
    matching: Seq<usize>,
)
    requires
        classes_fit(nodes, s0, c0, index),
        nodes.len() <= usize::MAX,
        s1.len() == s0.len() + 1,
        forall|k: int| 0 <= k < s0.len() ==> #[trigger] s1[k] == s0[k],
        s1[s0.len() as int].positions@ == matching,
        0 <= index < nodes.len(),
        forall|k: int| 0 <= k < matching.len() ==> repeats(nodes, index, #[trigger] matching[k] as int),
        forall|k: int| 0 <= k < matching.len() ==> c0[(#[trigger] matching[k]) as int] < 0,
        forall|j: int|
            index <= j < nodes.len() && repeats(nodes, index, j) ==> #[trigger] matching.contains(
                j as usize,
            ),
        c1 == Seq::new(
            nodes.len(),
            |i: int|
                if matching.contains(i as usize) {
                    s0.len() as int
                } else {
                    c0[i]
                },
        ),
    ensures
        classes_fit(nodes, s1, c1, index + 1),
{
    assert forall|i: int|
        #![trigger c1[i]]
        0 <= i < nodes.len() && c1[i] >= 0 implies c1[i] < s1.len()
        && s1[c1[i]].positions@.contains(i as usize) by {
        if !matching.contains(i as usize) {
            assert(c1[i] == c0[i]);
            assert(s1[c0[i]] == s0[c0[i]]);
        }
    }
    assert forall|i: int, j: int|
        #![trigger together(c1, i, j)]
        0 <= i < j && i < index + 1 && repeats(nodes, i, j) implies together(c1, i, j) by {
        if i == index {
            assert(matching.contains(i as usize));
            assert(matching.contains(j as usize));
        } else {
            lemma_same_class(nodes, s0, c0, index, i, j);
            if matching.contains(i as usize) {
                let k = choose|k: int| 0 <= k < matching.len() && matching[k] == i as usize;
                assert(c0[matching[k] as int] < 0);
            }
            if matching.contains(j as usize) {
                let k = choose|k: int| 0 <= k < matching.len() && matching[k] == j as usize;
                assert(c0[matching[k] as int] < 0);
            }
        }
    }
}

/// The order in which the shapes are cached.
fn order_shapes(shapes: &Vec<RepeatShape>) -> (order: Vec<usize>)
    ensures
        order@.len() == shapes@.len(),
        forall|a: int| 0 <= a < order@.len() ==> #[trigger] order@[a] < shapes@.len(),
        forall|k: int| 0 <= k < shapes@.len() ==> #[trigger] order@.contains(k as usize),
        in_saving_order(shapes@, order@),
{
    let mut order: Vec<usize> = Vec::with_capacity(shapes.len());
    let mut i: usize = 0;
    while i < shapes.len()
        invariant
            i <= shapes@.len(),
            order@.len() == i,
            forall|a: int| 0 <= a < order@.len() ==> #[trigger] order@[a] < i,
            forall|k: int| 0 <= k < i ==> #[trigger] order@.contains(k as usize),
            in_saving_order(shapes@, order@),
        decreases shapes@.len() - i,
    {
        let mut at: usize = 0;
        while at < order.len() && !shapes[i].goes_before(&shapes[order[at]])
            invariant
                i < shapes@.len(),
                at <= order@.len(),
                forall|a: int| 0 <= a < order@.len() ==> #[trigger] order@[a] < i,
                forall|a: int|
                    0 <= a < at ==> !shapes@[i as int].precedes(
                        shapes@[(#[trigger] order@[a]) as int],
                    ),
            decreases order@.len() - at,
        {
            at += 1;
        }
        let ghost before = order@;
        order.insert(at, i);
        proof {
            let now = order@;
            assert forall|a: int| 0 <= a < now.len() implies #[trigger] now[a] < i + 1 by {
                if a != at {
                    let b = if a < at {
                        a
                    } else {
                        a - 1
                    };
                    assert(now[a] == before[b]);
                }
            }
            assert forall|k: int| 0 <= k < i + 1 implies #[trigger] now.contains(k as usize) by {
                if k == i {
                    assert(now[at as int] == i);
                } else {
                    assert(before.contains(k as usize));
                    let b = choose|b: int| 0 <= b < before.len() && before[b] == k as usize;
                    assert(now[if b < at {
                        b
                    } else {
                        b + 1
                    }] == k as usize);
                }
            }
            assert forall|a: int, b: int| 0 <= a < b < now.len() implies !shapes@[(
            #[trigger] now[b]) as int].precedes(shapes@[(#[trigger] now[a]) as int]) by {
                if a != at && b != at {
                    let x = if a < at {
                        a
                    } else {
                        a - 1
                    };
                    let y = if b < at {
                        b
                    } else {
                        b - 1
                    };
                    assert(now[a] == before[x] && now[b] == before[y]);
                } else if b == at {
                    assert(now[a] == before[a]);
                } else {
                    let first = before[at as int];
                    let other = before[b - 1];
                    assert(now[b] == other);
                    if b - 1 > at {
                        assert(!shapes@[before[b - 1] as int].precedes(
                            shapes@[before[at as int] as int],
                        ));
                    }
                }
            }
        }
        i += 1;
    }
    order
}

/// No shape stands behind one that saves less.
spec fn in_saving_order(shapes: Seq<RepeatShape>, order: Seq<usize>) -> bool {
    forall|a: int, b: int|
        0 <= a < b < order.len() ==> !shapes[(#[trigger] order[b]) as int].precedes(
            shapes[(#[trigger] order[a]) as int],
        )
}

/// Occurrence `x` lies at or below an occurrence with an action.
pub open spec fn covers(actions: Seq<Option<CacheAction>>, x: int) -> bool {
    exists|o: int| #[trigger] schedule::is_action(actions, o) && o <= x < actions[o]->0.end
}

/// Something that reaches into occurrence `i` is cached, and what is cached there does not
/// come behind `nodes[i]` in the order of caching.
pub open spec fn touched(
    nodes: Seq<PlanView>,
    actions: Seq<Option<CacheAction>>,
    i: int,
    descs: Seq<ScalarView>,
    p: int,
) -> bool {
    exists|o: int| #[trigger]
        schedule::is_action(actions, o) && o < i + schedule::plan_size(nodes[i]) && i < actions[o]->0.end
            && !goes_first(nodes, nodes[i], nodes[o], descs, p)
}

/// A partial schedule: each slot is stored once and holds equal occurrences, which do
/// not overlap.
spec fn partial(
    nodes: Seq<PlanView>,
    actions: Seq<Option<CacheAction>>,
    covered: Seq<bool>,
    slots: int,
) -> bool {
    &&& actions.len() == nodes.len()
    &&& covered.len() == nodes.len()
    &&& layout::single_stores(actions, slots)
    &&& forall|o: int|
        #[trigger] schedule::is_action(actions, o) ==> actions[o]->0.end == o + schedule::plan_size(nodes[o])
            && actions[o]->0.end <= nodes.len()
    &&& occurrence::acts_on_arithmetic(nodes, actions)
    &&& forall|o: int, t: int|
        #[trigger] schedule::is_action(actions, o) && #[trigger] schedule::is_action(actions, t) && o < t
            ==> actions[o]->0.end <= t
    &&& forall|s: int, o: int, slot: int|
        #[trigger] schedule::is_store(actions, s, slot) && #[trigger] layout::in_slot(actions, o, slot) ==> nodes[s]
            == nodes[o]
    &&& forall|x: int| 0 <= x < nodes.len() ==> (#[trigger] covered[x] <==> covers(actions, x))
}

proof fn lemma_partial_valid(
    nodes: Seq<PlanView>,
    actions: Seq<Option<CacheAction>>,
    covered: Seq<bool>,
    slots: int,
)
    requires
        partial(nodes, actions, covered, slots),
    ensures
        schedule::valid_schedule(nodes, actions, slots),
{
    assert forall|o: int| #[trigger] schedule::is_action(actions, o) && !actions[o]->0.store implies exists|
        s: int,
    |
        #[trigger] schedule::last_store(actions, s, o, actions[o]->0.slot as int) && nodes[s] == nodes[o] by {
        let slot = actions[o]->0.slot as int;
        assert(layout::in_slot(actions, o, slot));
        assert(layout::stored_somewhere(actions, slot));
        let s = choose|s: int| #[trigger] schedule::is_store(actions, s, slot);
        assert forall|t: int| s < t < o implies !#[trigger] schedule::is_store(actions, t, slot) by {
            if schedule::is_store(actions, t, slot) {
                assert(layout::in_slot(actions, t, slot));
            }
        }
        assert(schedule::last_store(actions, s, o, slot));
    }
}

/// One of the positions holds a node that reaches over `x`.
spec fn reached(nodes: Seq<PlanView>, positions: Seq<usize>, x: int) -> bool {
    exists|k: int|
        0 <= k < positions.len() && (#[trigger] positions[k]) <= x < positions[k] + schedule::plan_size(
            nodes[positions[k] as int],
        )
}

/// Marks the positions as one slot: the first is stored, the others are loaded.
fn assign_slot<'a>(
    nodes: &Vec<PlanOccurrence<'a>>,
    positions: &Vec<usize>,
    slot: usize,
    actions: &mut Vec<Option<CacheAction>>,
    covered: &mut Vec<bool>,
    Ghost(list): Ghost<Seq<PlanView>>,
)
    requires
        occurrence::lists(nodes@, 0, list),
        nodes@.len() == list.len(),
        old(actions)@.len() == list.len(),
        old(covered)@.len() == list.len(),
        ends_inside(list),
        forall|k: int| 0 <= k < positions@.len() ==> #[trigger] positions@[k] < list.len(),
        forall|k: int, l: int|
            0 <= k < l < positions@.len() ==> #[trigger] positions@[k] < #[trigger] positions@[l],
    ensures
        final(actions)@.len() == list.len(),
        final(covered)@.len() == list.len(),
        forall|k: int|
            #![trigger positions@[k]]
            0 <= k < positions@.len() ==> final(actions)@[positions@[k] as int] == Some(
                CacheAction {
                    slot,
                    store: k == 0,
                    end: (positions@[k] + schedule::plan_size(list[positions@[k] as int])) as usize,
                },
            ) && positions@[k] + schedule::plan_size(list[positions@[k] as int]) <= list.len(),
        forall|o: int|
            0 <= o < list.len() && !positions@.contains(o as usize) ==> #[trigger] final(actions)@[o] == old(actions)@[o],
        forall|x: int|
            0 <= x < list.len() ==> (#[trigger] final(covered)@[x] <==> old(covered)@[x]
                || reached(list, positions@, x)),
{
    let n: usize = nodes.len();
    let mut k: usize = 0;
    while k < positions.len()
        invariant
            k <= positions@.len(),
            n == list.len(),
            occurrence::lists(nodes@, 0, list),
            nodes@.len() == list.len(),
            ends_inside(list),
            old(actions)@.len() == list.len(),
            old(covered)@.len() == list.len(),
            actions@.len() == list.len(),
            covered@.len() == list.len(),
            forall|l: int| 0 <= l < positions@.len() ==> #[trigger] positions@[l] < list.len(),
            forall|l: int, m: int|
                0 <= l < m < positions@.len() ==> #[trigger] positions@[l]
                    < #[trigger] positions@[m],
            forall|l: int|
                #![trigger positions@[l]]
                0 <= l < k ==> actions@[positions@[l] as int] == Some(
                    CacheAction {
                        slot,
                        store: l == 0,
                        end: (positions@[l] + schedule::plan_size(list[positions@[l] as int])) as usize,
                    },
                ) && positions@[l] + schedule::plan_size(list[positions@[l] as int]) <= list.len(),
            forall|o: int|
                0 <= o < list.len() && !positions@.take(k as int).contains(o as usize)
                    ==> #[trigger] actions@[o] == old(actions)@[o],
            forall|x: int|
                0 <= x < list.len() ==> (#[trigger] covered@[x] <==> old(covered)@[x] || reached(
                    list,
                    positions@.take(k as int),
                    x,
                )),
        decreases positions@.len() - k,
    {
        let position = positions[k];
        proof {
            assert(occurrence::node_fits(
                nodes@[0 + position as int],
                list[position as int],
                0 + position as int,
            ));
            assert(position + schedule::plan_size(list[position as int]) <= list.len());
        }
        let end = nodes[position].end;
        let ghost a0 = actions@;
        let ghost c0 = covered@;
        actions.set(position, Some(CacheAction { slot, store: k == 0, end }));
        let mut x: usize = position;
        while x < end
            invariant
                position <= x <= end <= n,
                n == list.len(),
                covered@.len() == list.len(),
                c0.len() == list.len(),
                forall|y: int|
                    0 <= y < list.len() ==> (#[trigger] covered@[y] <==> c0[y] || position <= y
                        < x),
            decreases end - x,
        {
            covered.set(x, true);
            x += 1;
        }
        proof {
            let was = positions@.take(k as int);
            let now = positions@.take(k + 1);
            assert(now =~= was.push(position));
            assert forall|o: int|
                0 <= o < list.len() && !now.contains(o as usize) implies #[trigger] actions@[o]
                == old(actions)@[o] by {
                assert(!was.contains(o as usize)) by {
                    if was.contains(o as usize) {
                        let l = choose|l: int| 0 <= l < was.len() && was[l] == o as usize;
                        assert(now[l] == o as usize);
                    }
                }
                assert(o != position) by {
                    if o == position {
                        assert(now[k as int] == o as usize);
                    }
                }
                assert(actions@[o] == a0[o]);
            }
            assert forall|y: int| 0 <= y < list.len() implies (#[trigger] covered@[y] <==> old(covered)@[y] || reached(list, now, y)) by {
                assert(covered@[y] <==> c0[y] || position <= y < end);
                if reached(list, was, y) {
                    let l = choose|l: int|
                        0 <= l < was.len() && (#[trigger] was[l]) <= y < was[l] + schedule::plan_size(
                            list[was[l] as int],
                        );
                    assert(now[l] == was[l]);
                }
                if position <= y < end {
                    assert(now[k as int] == position);
                }
                if reached(list, now, y) && !(position <= y < end) {
                    let l = choose|l: int|
                        0 <= l < now.len() && (#[trigger] now[l]) <= y < now[l] + schedule::plan_size(
                            list[now[l] as int],
                        );
                    assert(l < k);
                    assert(was[l] == now[l]);
                }
            }
            assert forall|l: int|
                #![trigger positions@[l]]
                0 <= l < k + 1 implies actions@[positions@[l] as int] == Some(
                CacheAction {
                    slot,
                    store: l == 0,
                    end: (positions@[l] + schedule::plan_size(list[positions@[l] as int])) as usize,
                },
            ) && positions@[l] + schedule::plan_size(list[positions@[l] as int]) <= list.len() by {
                if l < k {
                    assert(positions@[l] < positions@[k as int]);
                    assert(actions@[positions@[l] as int] == a0[positions@[l] as int]);
                }
            }
        }
        k += 1;
    }
    proof {
        assert(positions@.take(k as int) =~= positions@);
    }
}

/// No node reaches beyond the last one, and nodes below another are smaller.
spec fn ends_inside(nodes: Seq<PlanView>) -> bool {
    &&& forall|o: int|
        0 <= o < nodes.len() ==> o + schedule::plan_size(#[trigger] nodes[o]) <= nodes.len()
    &&& forall|o: int, t: int|
        0 <= o < t < nodes.len() && t < o + schedule::plan_size(#[trigger] nodes[o]) ==> schedule::plan_size(
            #[trigger] nodes[t],
        ) < schedule::plan_size(nodes[o])
}

proof fn lemma_ends_inside(a: PlanView)
    ensures
        ends_inside(schedule::occurrences(a)),
    decreases a,
{
    let kids = schedule::all_occurrences(a.children);
    let nodes = schedule::occurrences(a);
    lemma_all_ends_inside(a.children);
    schedule::lemma_all_occurrences_len(a.children);
    assert forall|o: int| 0 <= o < nodes.len() implies o + schedule::plan_size(#[trigger] nodes[o])
        <= nodes.len() by {
        if o > 0 {
            assert(nodes[o] == kids[o - 1]);
        }
    }
    assert forall|o: int, t: int|
        0 <= o < t < nodes.len() && t < o + schedule::plan_size(#[trigger] nodes[o]) implies schedule::plan_size(
        #[trigger] nodes[t],
    ) < schedule::plan_size(nodes[o]) by {
        assert(nodes[t] == kids[t - 1]);
        if o > 0 {
            assert(nodes[o] == kids[o - 1]);
        } else {
            assert((t - 1) + schedule::plan_size(kids[t - 1]) <= kids.len());
        }
    }
}

/// No node reaches beyond the last one.
pub proof fn lemma_node_end(a: PlanView, o: int)
    requires
        0 <= o < schedule::occurrences(a).len(),
    ensures
        o + schedule::plan_size(schedule::occurrences(a)[o]) <= schedule::occurrences(a).len(),
{
    lemma_ends_inside(a);
}

proof fn lemma_all_ends_inside(s: Seq<PlanView>)
    ensures
        ends_inside(schedule::all_occurrences(s)),
    decreases s,
{
    if s.len() > 0 {
        let a = schedule::all_occurrences(s.drop_last());
        let b = schedule::occurrences(s.last());
        let nodes = a + b;
        lemma_all_ends_inside(s.drop_last());
        lemma_ends_inside(s.last());
        assert(schedule::all_occurrences(s) == nodes);
        assert forall|o: int| 0 <= o < nodes.len() implies o + schedule::plan_size(#[trigger] nodes[o])
            <= nodes.len() by {
            if o < a.len() {
                assert(nodes[o] == a[o]);
            } else {
                assert(nodes[o] == b[o - a.len()]);
            }
        }
        assert forall|o: int, t: int|
            0 <= o < t < nodes.len() && t < o + schedule::plan_size(#[trigger] nodes[o]) implies schedule::plan_size(
            #[trigger] nodes[t],
        ) < schedule::plan_size(nodes[o]) by {
            if o < a.len() {
                assert(nodes[o] == a[o]);
                assert(o + schedule::plan_size(a[o]) <= a.len());
                assert(nodes[t] == a[t]);
            } else {
                assert(nodes[o] == b[o - a.len()]);
                assert(nodes[t] == b[t - a.len()]);
            }
        }
    }
}

/// One more slot keeps a partial schedule.
proof fn lemma_partial_push(
    nodes: Seq<PlanView>,
    a0: Seq<Option<CacheAction>>,
    a1: Seq<Option<CacheAction>>,
    c0: Seq<bool>,
    c1: Seq<bool>,
    slot: usize,
    positions: Seq<usize>,
    first: int,
)
    requires
        nodes.len() <= usize::MAX,
        partial(nodes, a0, c0, slot as int),
        ends_inside(nodes),
        slot < usize::MAX,
        positions.len() >= 2,
        matches_in(nodes, positions, first),
        forall|k: int, x: int|
            #![trigger positions[k], c0[x]]
            0 <= k < positions.len() && positions[k] <= x < positions[k] + schedule::plan_size(
                nodes[positions[k] as int],
            ) ==> !c0[x],
        a1.len() == nodes.len(),
        c1.len() == nodes.len(),
        forall|k: int|
            #![trigger positions[k]]
            0 <= k < positions.len() ==> a1[positions[k] as int] == Some(
                CacheAction {
                    slot,
                    store: k == 0,
                    end: (positions[k] + schedule::plan_size(nodes[positions[k] as int])) as usize,
                },
            ) && positions[k] + schedule::plan_size(nodes[positions[k] as int]) <= nodes.len(),
        forall|o: int|
            0 <= o < nodes.len() && !positions.contains(o as usize) ==> #[trigger] a1[o] == a0[o],
        forall|x: int|
            0 <= x < nodes.len() ==> (#[trigger] c1[x] <==> c0[x] || reached(nodes, positions, x)),
    ensures
        partial(nodes, a1, c1, slot + 1),
        forall|o: int| positions.contains(o as usize) && 0 <= o < nodes.len() ==> a0[o] is None,
{
    let sl = slot as int;
    // No position had an action, and the positions do not overlap.
    assert forall|k: int| 0 <= k < positions.len() implies a0[(#[trigger] positions[k]) as int]
        is None by {
        let o = positions[k] as int;
        assert(repeats(nodes, first, o));
        if a0[o] is Some {
            assert(schedule::is_action(a0, o));
            schedule::lemma_occurrences_len(nodes[o]);
            assert(covers(a0, o));
            assert(!c0[o]);
        }
    }
    assert forall|o: int| positions.contains(o as usize) && 0 <= o < nodes.len() implies a0[o]
        is None by {
        let k = choose|k: int| 0 <= k < positions.len() && positions[k] == o as usize;
        assert(a0[positions[k] as int] is None);
    }
    // Whether an action is old or new.
    assert forall|o: int| #[trigger] schedule::is_action(a1, o) implies (schedule::is_action(a0, o) && a1[o] == a0[o]
        && !positions.contains(o as usize)) || positions.contains(o as usize) by {}
    assert forall|o: int| #[trigger] schedule::is_action(a0, o) implies schedule::is_action(a1, o) && a1[o]
        == a0[o] by {
        assert(!positions.contains(o as usize));
        assert(a1[o] == a0[o]);
    }
    assert forall|o: int| #[trigger] schedule::is_action(a1, o) implies a1[o]->0.end == o + schedule::plan_size(
        nodes[o],
    ) && a1[o]->0.end <= nodes.len() && a1[o]->0.slot < slot + 1 by {
        if positions.contains(o as usize) {
            let k = choose|k: int| 0 <= k < positions.len() && positions[k] == o as usize;
            assert(positions[k] == o);
        } else {
            assert(schedule::is_action(a0, o));
        }
    }
    assert forall|o: int, t: int|
        #[trigger] schedule::is_action(a1, o) && #[trigger] schedule::is_action(a1, t) && o < t implies a1[o]->0.end
        <= t by {
        lemma_actions_apart(nodes, a0, a1, c0, slot, positions, first, o, t);
    }
    // Stores.
    assert forall|s: int, k: int| #[trigger] schedule::is_store(a1, s, k) implies (k < slot && schedule::is_store(
        a0,
        s,
        k,
    )) || (k == slot && s == positions[0]) by {
        assert(schedule::is_action(a1, s));
        if positions.contains(s as usize) {
            let l = choose|l: int| 0 <= l < positions.len() && positions[l] == s as usize;
            assert(positions[l] == s);
        } else {
            assert(schedule::is_action(a0, s));
        }
    }
    assert forall|s: int, k: int| #[trigger] layout::in_slot(a1, s, k) implies (k < slot && layout::in_slot(
        a0,
        s,
        k,
    )) || (k == slot && positions.contains(s as usize)) by {
        assert(schedule::is_action(a1, s));
        if positions.contains(s as usize) {
            let l = choose|l: int| 0 <= l < positions.len() && positions[l] == s as usize;
            assert(positions[l] == s);
        } else {
            assert(schedule::is_action(a0, s));
        }
    }
    assert forall|k: int| 0 <= k < slot + 1 implies #[trigger] layout::stored_somewhere(a1, k) by {
        if k < slot {
            assert(layout::stored_somewhere(a0, k));
            let o = choose|o: int| #[trigger] schedule::is_store(a0, o, k);
            assert(schedule::is_action(a0, o));
            assert(schedule::is_store(a1, o, k));
        } else {
            assert(positions[0] < nodes.len());
            assert(schedule::is_store(a1, positions[0] as int, k));
        }
    }
    assert forall|s: int, o: int, k: int|
        #[trigger] schedule::is_store(a1, s, k) && #[trigger] layout::in_slot(a1, o, k) implies s <= o && (schedule::is_store(
        a1,
        o,
        k,
    ) ==> s == o) && nodes[s] == nodes[o] by {
        if k < slot {
            assert(schedule::is_store(a0, s, k) && layout::in_slot(a0, o, k));
            if schedule::is_store(a1, o, k) {
                assert(schedule::is_store(a0, o, k));
            }
        } else {
            let l = choose|l: int| 0 <= l < positions.len() && positions[l] == o as usize;
            assert(positions[l] == o);
            assert(repeats(nodes, first, positions[l] as int));
            assert(repeats(nodes, first, positions[0] as int));
            if l > 0 {
                assert(positions[0] < positions[l]);
            }
        }
    }
    assert forall|x: int| 0 <= x < nodes.len() implies (#[trigger] c1[x] <==> covers(a1, x)) by {
        if c0[x] {
            assert(covers(a0, x));
            let o = choose|o: int| #[trigger] schedule::is_action(a0, o) && o <= x < a0[o]->0.end;
            assert(schedule::is_action(a1, o) && a1[o] == a0[o]);
        }
        if reached(nodes, positions, x) {
            let k = choose|k: int|
                0 <= k < positions.len() && (#[trigger] positions[k]) <= x < positions[k]
                    + schedule::plan_size(nodes[positions[k] as int]);
            assert(schedule::is_action(a1, positions[k] as int));
        }
        if covers(a1, x) {
            let o = choose|o: int| #[trigger] schedule::is_action(a1, o) && o <= x < a1[o]->0.end;
            if positions.contains(o as usize) {
                let k = choose|k: int| 0 <= k < positions.len() && positions[k] == o as usize;
                assert(positions[k] == o);
                assert(reached(nodes, positions, x));
            } else {
                assert(schedule::is_action(a0, o));
                assert(covers(a0, x));
            }
        }
    }
}

proof fn lemma_actions_apart(
    nodes: Seq<PlanView>,
    a0: Seq<Option<CacheAction>>,
    a1: Seq<Option<CacheAction>>,
    c0: Seq<bool>,
    slot: usize,
    positions: Seq<usize>,
    first: int,
    o: int,
    t: int,
)
    requires
        nodes.len() <= usize::MAX,
        partial(nodes, a0, c0, slot as int),
        ends_inside(nodes),
        matches_in(nodes, positions, first),
        forall|k: int, x: int|
            #![trigger positions[k], c0[x]]
            0 <= k < positions.len() && positions[k] <= x < positions[k] + schedule::plan_size(
                nodes[positions[k] as int],
            ) ==> !c0[x],
        a1.len() == nodes.len(),
        schedule::is_action(a1, o),
        schedule::is_action(a1, t),
        o < t,
        a1[o]->0.end == o + schedule::plan_size(nodes[o]),
        !positions.contains(o as usize) ==> schedule::is_action(a0, o) && a1[o] == a0[o],
        !positions.contains(t as usize) ==> schedule::is_action(a0, t) && a1[t] == a0[t],
    ensures
        a1[o]->0.end <= t,
{
    if positions.contains(o as usize) {
        let k = choose|k: int| 0 <= k < positions.len() && positions[k] == o as usize;
        assert(positions[k] == o);
        if a1[o]->0.end > t {
            if positions.contains(t as usize) {
                let l = choose|l: int| 0 <= l < positions.len() && positions[l] == t as usize;
                assert(repeats(nodes, first, positions[k] as int));
                assert(repeats(nodes, first, positions[l] as int));
                assert(schedule::plan_size(nodes[t]) < schedule::plan_size(nodes[o]));
            } else {
                schedule::lemma_occurrences_len(nodes[t]);
                assert(covers(a0, t));
                assert(!c0[t]);
            }
        }
    } else if positions.contains(t as usize) {
        let l = choose|l: int| 0 <= l < positions.len() && positions[l] == t as usize;
        assert(positions[l] == t);
        if a1[o]->0.end > t {
            schedule::lemma_occurrences_len(nodes[t]);
            assert(covers(a0, t));
            assert(!c0[t]);
        }
    }
}

/// The positions of a shape below which nothing is cached yet.
fn untouched_positions<'a>(
    nodes: &Vec<PlanOccurrence<'a>>,
    positions: &Vec<usize>,
    covered: &Vec<bool>,
    Ghost(list): Ghost<Seq<PlanView>>,
    Ghost(first): Ghost<int>,
) -> (r: Vec<usize>)
    requires
        occurrence::lists(nodes@, 0, list),
        nodes@.len() == list.len(),
        covered@.len() == list.len(),
        ends_inside(list),
        matches_in(list, positions@, first),
    ensures
        matches_in(list, r@, first),
        forall|k: int| 0 <= k < r@.len() ==> positions@.contains(#[trigger] r@[k]),
        forall|k: int, x: int|
            #![trigger r@[k], covered@[x]]
            0 <= k < r@.len() && r@[k] <= x < r@[k] + schedule::plan_size(list[r@[k] as int])
                ==> !covered@[x],
        forall|k: int|
            #![trigger positions@[k]]
            0 <= k < positions@.len() ==> r@.contains(positions@[k]) || some_covered(
                covered@,
                positions@[k] as int,
                positions@[k] + schedule::plan_size(list[positions@[k] as int]),
            ),
{
    let mut r: Vec<usize> = Vec::new();
    let mut k: usize = 0;
    while k < positions.len()
        invariant
            k <= positions@.len(),
            occurrence::lists(nodes@, 0, list),
            nodes@.len() == list.len(),
            covered@.len() == list.len(),
            ends_inside(list),
            matches_in(list, positions@, first),
            matches_in(list, r@, first),
            forall|l: int| 0 <= l < r@.len() ==> positions@.contains(#[trigger] r@[l]),
            forall|l: int|
                0 <= l < r@.len() && k < positions@.len() ==> #[trigger] r@[l] < positions@[k as int],
            forall|l: int, x: int|
                #![trigger r@[l], covered@[x]]
                0 <= l < r@.len() && r@[l] <= x < r@[l] + schedule::plan_size(list[r@[l] as int])
                    ==> !covered@[x],
            forall|l: int|
                #![trigger positions@[l]]
                0 <= l < k ==> r@.contains(positions@[l]) || some_covered(
                    covered@,
                    positions@[l] as int,
                    positions@[l] + schedule::plan_size(list[positions@[l] as int]),
                ),
        decreases positions@.len() - k,
    {
        let position = positions[k];
        assert(repeats(list, first, positions@[k as int] as int));
        assert(occurrence::node_fits(nodes@[0 + position as int], list[position as int], 0 + position as int));
        let end = nodes[position].end;
        let mut x: usize = position;
        let mut clear: bool = true;
        while x < end && clear
            invariant
                position <= x <= end <= covered@.len(),
                clear ==> forall|y: int| position <= y < x ==> !#[trigger] covered@[y],
                !clear ==> some_covered(covered@, position as int, end as int),
            decreases end - x, clear as int,
        {
            if covered[x] {
                clear = false;
                assert(covered@[x as int]);
            } else {
                x += 1;
            }
        }
        let ghost before = r@;
        if clear {
            r.push(position);
            assert(r@[before.len() as int] == position);
        }
        proof {
            if k + 1 < positions@.len() {
                assert(positions@[k as int] < positions@[k + 1]);
            }
            assert forall|l: int|
                #![trigger positions@[l]]
                0 <= l < k + 1 implies r@.contains(positions@[l]) || some_covered(
                covered@,
                positions@[l] as int,
                positions@[l] + schedule::plan_size(list[positions@[l] as int]),
            ) by {
                if l < k && before.contains(positions@[l]) {
                    let m = choose|m: int| 0 <= m < before.len() && before[m] == positions@[l];
                    assert(r@[m] == positions@[l]);
                }
            }
        }
        k += 1;
    }
    r
}

spec fn some_covered(covered: Seq<bool>, start: int, end: int) -> bool {
    exists|x: int| start <= x < end && #[trigger] covered[x]
}

/// The number of linear terms among the first `n` occurrences that are stored.
pub open spec fn linear_stores(
    nodes: Seq<PlanView>,
    actions: Seq<Option<CacheAction>>,
    n: int,
) -> nat
    decreases n,
{
    if n <= 0 {
        0
    } else {
        linear_stores(nodes, actions, n - 1) + (if schedule::is_action(actions, n - 1)
            && actions[n - 1]->0.store && nodes[n - 1].op is LinearTerm {
            1nat
        } else {
            0
        })
    }
}

proof fn lemma_linear_push(
    nodes: Seq<PlanView>,
    a0: Seq<Option<CacheAction>>,
    a1: Seq<Option<CacheAction>>,
    positions: Seq<usize>,
    first: int,
    n: int,
)
    requires
        nodes.len() <= usize::MAX,
        a0.len() == nodes.len(),
        a1.len() == nodes.len(),
        0 <= n <= nodes.len(),
        positions.len() >= 1,
        matches_in(nodes, positions, first),
        forall|k: int|
            #![trigger positions[k]]
            0 <= k < positions.len() ==> (a1[positions[k] as int] matches Some(action)
                && action.store == (k == 0)),
        forall|o: int|
            0 <= o < nodes.len() && !positions.contains(o as usize) ==> #[trigger] a1[o] == a0[o],
        forall|o: int| positions.contains(o as usize) && 0 <= o < nodes.len() ==> a0[o] is None,
    ensures
        linear_stores(nodes, a1, n) == linear_stores(nodes, a0, n) + (if positions[0] < n
            && nodes[first].op is LinearTerm {
            1nat
        } else {
            0
        }),
    decreases n,
{
    if n > 0 {
        let o = n - 1;
        lemma_linear_push(nodes, a0, a1, positions, first, o);
        assert(repeats(nodes, first, positions[0] as int));
        if positions.contains(o as usize) {
            let k = choose|k: int| 0 <= k < positions.len() && positions[k] == o as usize;
            assert(positions[k] == o);
            assert(repeats(nodes, first, positions[k] as int));
            if k > 0 {
                assert(positions[0] < positions[k]);
            }
        } else {
            assert(a1[o] == a0[o]);
            if positions[0] == o {
                assert(positions.contains(positions[0]));
            }
        }
    }
}

/// No two equal occurrences that cost a multiplication are left without anything
/// cached, and they are only passed over for what does not save less.
pub open spec fn repeats_cached(
    nodes: Seq<PlanView>,
    actions: Seq<Option<CacheAction>>,
    descs: Seq<ScalarView>,
    p: int,
) -> bool {
    forall|i: int, j: int|
        #[trigger] repeats(nodes, i, j) && i < j && cost_of(nodes[i], descs, p).0
            >= MIN_CSE_SAVED_MULTIPLICATIONS ==> touched(nodes, actions, i, descs, p) || touched(
            nodes,
            actions,
            j,
            descs,
            p,
        )
}

/// The shape needs no further caching.
spec fn settled(
    nodes: Seq<PlanView>,
    covered: Seq<bool>,
    shape: RepeatShape,
    descs: Seq<ScalarView>,
    p: int,
) -> bool {
    cost_of(nodes[shape.first_occurrence as int], descs, p).0 > 0 ==> pairs_covered(
        nodes,
        covered,
        shape,
    )
}

/// Fewer than two positions of the shape are untouched.
proof fn lemma_settled_few(
    nodes: Seq<PlanView>,
    covered: Seq<bool>,
    shape: RepeatShape,
    left: Seq<usize>,
)
    requires
        left.len() < 2,
        matches_in(nodes, shape.positions@, shape.first_occurrence as int),
        forall|k: int|
            #![trigger shape.positions@[k]]
            0 <= k < shape.positions@.len() ==> left.contains(shape.positions@[k])
                || some_covered(
                covered,
                shape.positions@[k] as int,
                shape.positions@[k] + schedule::plan_size(nodes[shape.positions@[k] as int]),
            ),
    ensures
        pairs_covered(nodes, covered, shape),
{
    let s = shape.positions@;
    assert forall|k: int, l: int|
        #![trigger s[k], s[l]]
        0 <= k < l < s.len() implies some_covered(
        covered,
        s[k] as int,
        s[k] + schedule::plan_size(nodes[s[k] as int]),
    ) || some_covered(covered, s[l] as int, s[l] + schedule::plan_size(nodes[s[l] as int])) by {
        if left.contains(s[k]) && left.contains(s[l]) {
            let a = choose|a: int| 0 <= a < left.len() && left[a] == s[k];
            let b = choose|b: int| 0 <= b < left.len() && left[b] == s[l];
            assert(a == b);
            assert(s[k] < s[l]);
        }
    }
}

/// All untouched positions of the shape became covered.
proof fn lemma_settled_all(
    nodes: Seq<PlanView>,
    c0: Seq<bool>,
    c1: Seq<bool>,
    shape: RepeatShape,
    left: Seq<usize>,
)
    requires
        c0.len() == nodes.len(),
        ends_inside(nodes),
        matches_in(nodes, shape.positions@, shape.first_occurrence as int),
        forall|k: int|
            #![trigger shape.positions@[k]]
            0 <= k < shape.positions@.len() ==> left.contains(shape.positions@[k])
                || some_covered(
                c0,
                shape.positions@[k] as int,
                shape.positions@[k] + schedule::plan_size(nodes[shape.positions@[k] as int]),
            ),
        forall|x: int|
            0 <= x < nodes.len() ==> (#[trigger] c1[x] <==> c0[x] || reached(nodes, left, x)),
    ensures
        pairs_covered(nodes, c1, shape),
{
    let s = shape.positions@;
    assert forall|k: int, l: int|
        #![trigger s[k], s[l]]
        0 <= k < l < s.len() implies some_covered(
        c1,
        s[k] as int,
        s[k] + schedule::plan_size(nodes[s[k] as int]),
    ) || some_covered(c1, s[l] as int, s[l] + schedule::plan_size(nodes[s[l] as int])) by {
        let a = s[k] as int;
        let e = a + schedule::plan_size(nodes[a]);
        assert(repeats(nodes, shape.first_occurrence as int, s[k] as int));
        schedule::lemma_occurrences_len(nodes[a]);
        if left.contains(s[k]) {
            let m = choose|m: int| 0 <= m < left.len() && left[m] == s[k];
            assert(reached(nodes, left, a));
            assert(c1[a]);
        } else {
            let x = choose|x: int| a <= x < e && #[trigger] c0[x];
            assert(c1[x]);
        }
    }
}

/// Only linear terms and what costs a multiplication are cached: shapes that are merely
/// copied are not.
pub open spec fn worth_caching(
    nodes: Seq<PlanView>,
    actions: Seq<Option<CacheAction>>,
    descs: Seq<ScalarView>,
    p: int,
) -> bool {
    forall|o: int| #[trigger]
        schedule::is_action(actions, o) ==> nodes[o].op is LinearTerm || cost_of(nodes[o], descs, p).0
            >= MIN_CSE_SAVED_MULTIPLICATIONS
}

/// The schedule without the linear terms.
pub open spec fn without_linear(
    nodes: Seq<PlanView>,
    actions: Seq<Option<CacheAction>>,
) -> Seq<Option<CacheAction>> {
    Seq::new(
        actions.len(),
        |o: int|
            if nodes[o].op is LinearTerm {
                None
            } else {
                actions[o]
            },
    )
}

/// The most slots that are alive together at one of the first `n` occurrences.
pub open spec fn most_live(actions: Seq<Option<CacheAction>>, slots: int, n: int) -> nat
    decreases n,
{
    if n <= 0 {
        0
    } else {
        let most = most_live(actions, slots, n - 1);
        let live = occupancy::live_slots(actions, slots, n - 1);
        if live > most {
            live
        } else {
            most
        }
    }
}

/// As many slots may be alive together as are without the linear terms, and as the budget
/// adds to them.
pub open spec fn slot_limit(
    nodes: Seq<PlanView>,
    actions: Seq<Option<CacheAction>>,
    slots: int,
    budget: LinearTermCacheBudget,
) -> int {
    occupancy::capped(
        most_live(without_linear(nodes, actions), slots, actions.len() as int)
            + budget.max_additional_slots,
    )
}

/// At `t`, between two occurrences of `a`, as many slots are alive as may be.
pub open spec fn crowded(
    nodes: Seq<PlanView>,
    actions: Seq<Option<CacheAction>>,
    slots: int,
    limit: int,
    a: PlanView,
    t: int,
    f: int,
    l: int,
) -> bool {
    &&& 0 <= f <= t <= l < nodes.len()
    &&& nodes[f] == a
    &&& nodes[l] == a
    &&& occupancy::live_slots(actions, slots, t) >= limit
}

/// There is no room for the linear term `a` beside the actions: as many linear terms are
/// stored as may be, or as many slots are alive.
pub open spec fn no_room(
    nodes: Seq<PlanView>,
    actions: Seq<Option<CacheAction>>,
    slots: int,
    limit: int,
    a: PlanView,
    budget: LinearTermCacheBudget,
) -> bool {
    linear_stores(nodes, actions, nodes.len() as int) == budget.max_entries || exists|
        t: int,
        f: int,
        l: int,
    |
        #[trigger] crowded(nodes, actions, slots, limit, a, t, f, l)
}

/// The actions that do not come behind `a` in the order of caching.
pub open spec fn not_behind(
    nodes: Seq<PlanView>,
    actions: Seq<Option<CacheAction>>,
    a: PlanView,
    descs: Seq<ScalarView>,
    p: int,
) -> Seq<Option<CacheAction>> {
    Seq::new(
        actions.len(),
        |o: int|
            if goes_first(nodes, a, nodes[o], descs, p) {
                None
            } else {
                actions[o]
            },
    )
}

/// The budget leaves no room for the linear term `a` beside what does not come behind it.
pub open spec fn spent(
    nodes: Seq<PlanView>,
    actions: Seq<Option<CacheAction>>,
    slots: int,
    a: PlanView,
    descs: Seq<ScalarView>,
    p: int,
    budget: LinearTermCacheBudget,
) -> bool {
    no_room(
        nodes,
        not_behind(nodes, actions, a, descs, p),
        slots,
        slot_limit(nodes, actions, slots, budget),
        a,
        budget,
    )
}

/// The slots of actions that are kept stay alive.
proof fn lemma_live_kept(
    a0: Seq<Option<CacheAction>>,
    k: int,
    a1: Seq<Option<CacheAction>>,
    l: int,
    t: int,
)
    requires
        a0.len() == a1.len(),
        k <= l,
        forall|o: int| 0 <= o < a0.len() && #[trigger] a0[o] is Some ==> a1[o] == a0[o],
    ensures
        occupancy::live_slots(a0, k, t) <= occupancy::live_slots(a1, l, t),
    decreases l,
{
    if l > 0 {
        if k == l {
            lemma_live_kept(a0, k - 1, a1, l - 1, t);
            let slot = k - 1;
            if layout::alive(a0, slot, t) {
                let s = choose|s: int| s <= t && #[trigger] schedule::is_store(a0, s, slot);
                let e = choose|e: int| e >= t && #[trigger] layout::in_slot(a0, e, slot);
                assert(a0[s] is Some && a0[e] is Some);
                assert(schedule::is_store(a1, s, slot));
                assert(layout::in_slot(a1, e, slot));
            }
        } else {
            lemma_live_kept(a0, k, a1, l - 1, t);
        }
    }
}

proof fn lemma_stores_kept(
    nodes: Seq<PlanView>,
    a0: Seq<Option<CacheAction>>,
    a1: Seq<Option<CacheAction>>,
    n: int,
)
    requires
        a0.len() == a1.len(),
        n <= a0.len(),
        forall|o: int| 0 <= o < a0.len() && #[trigger] a0[o] is Some ==> a1[o] == a0[o],
    ensures
        linear_stores(nodes, a0, n) <= linear_stores(nodes, a1, n),
    decreases n,
{
    if n > 0 {
        lemma_stores_kept(nodes, a0, a1, n - 1);
        if schedule::is_action(a0, n - 1) {
            assert(a0[n - 1] is Some);
        }
    }
}

/// Where there was no room for a linear term, there is none later.
proof fn lemma_spent_later(
    nodes: Seq<PlanView>,
    a0: Seq<Option<CacheAction>>,
    k: int,
    a1: Seq<Option<CacheAction>>,
    l: int,
    a: PlanView,
    descs: Seq<ScalarView>,
    p: int,
    budget: LinearTermCacheBudget,
)
    requires
        a0.len() == nodes.len(),
        a1.len() == nodes.len(),
        k <= l,
        forall|o: int| #[trigger] schedule::is_action(a0, o) ==> a1[o] == a0[o],
        slot_limit(nodes, a1, l, budget) == slot_limit(nodes, a0, k, budget),
        linear_stores(nodes, a1, nodes.len() as int) <= budget.max_entries,
        spent(nodes, a0, k, a, descs, p, budget),
    ensures
        spent(nodes, a1, l, a, descs, p, budget),
{
    let b0 = not_behind(nodes, a0, a, descs, p);
    let b1 = not_behind(nodes, a1, a, descs, p);
    let n = nodes.len() as int;
    let limit = slot_limit(nodes, a0, k, budget);
    assert forall|o: int| 0 <= o < b0.len() && #[trigger] b0[o] is Some implies b1[o] == b0[o] by {
        assert(schedule::is_action(a0, o));
    }
    lemma_stores_kept(nodes, b0, b1, n);
    lemma_stores_kept(nodes, b1, a1, n);
    if linear_stores(nodes, b0, n) != budget.max_entries {
        let (t, f, e) = choose|t: int, f: int, e: int| #[trigger]
            crowded(nodes, b0, k, limit, a, t, f, e);
        lemma_live_kept(b0, k, b1, l, t);
        assert(crowded(nodes, b1, l, limit, a, t, f, e));
    }
}

proof fn lemma_most_live(actions: Seq<Option<CacheAction>>, slots: int, n: int)
    ensures
        forall|t: int|
            0 <= t < n ==> #[trigger] occupancy::live_slots(actions, slots, t) <= most_live(
                actions,
                slots,
                n,
            ),
        most_live(actions, slots, n) == 0 || exists|t: int|
            0 <= t < n && #[trigger] occupancy::live_slots(actions, slots, t) == most_live(actions, slots, n),
        most_live(actions, slots, n) <= (if slots < 0 {
            0
        } else {
            slots
        }),
    decreases n,
{
    if n > 0 {
        lemma_most_live(actions, slots, n - 1);
        lemma_live_bound(actions, slots, n - 1);
        assert(occupancy::live_slots(actions, slots, n - 1) <= most_live(actions, slots, n));
        if occupancy::live_slots(actions, slots, n - 1) <= most_live(actions, slots, n - 1) {
            let most = most_live(actions, slots, n - 1);
            if most != 0 {
                let t = choose|t: int|
                    0 <= t < n - 1 && #[trigger] occupancy::live_slots(actions, slots, t) == most;
                assert(occupancy::live_slots(actions, slots, t) == most_live(actions, slots, n));
            }
        }
    }
}

proof fn lemma_live_bound(actions: Seq<Option<CacheAction>>, slots: int, t: int)
    ensures
        occupancy::live_slots(actions, slots, t) <= (if slots < 0 {
            0
        } else {
            slots
        }),
    decreases slots,
{
    if slots > 0 {
        lemma_live_bound(actions, slots - 1, t);
    }
}

/// Slots that are alive at the same occurrences are as many.
proof fn lemma_most_same(
    a0: Seq<Option<CacheAction>>,
    k: int,
    a1: Seq<Option<CacheAction>>,
    l: int,
    n: int,
)
    requires
        forall|t: int| #[trigger] occupancy::live_slots(a0, k, t) == occupancy::live_slots(a1, l, t),
    ensures
        most_live(a0, k, n) == most_live(a1, l, n),
    decreases n,
{
    if n > 0 {
        lemma_most_same(a0, k, a1, l, n - 1);
        assert(occupancy::live_slots(a0, k, n - 1) == occupancy::live_slots(a1, l, n - 1));
    }
}

/// Slots whose actions are the same are alive at the same occurrences.
proof fn lemma_live_same(
    a0: Seq<Option<CacheAction>>,
    a1: Seq<Option<CacheAction>>,
    k: int,
    t: int,
)
    requires
        forall|o: int, s: int|
            s < k ==> (#[trigger] layout::in_slot(a0, o, s) <==> layout::in_slot(a1, o, s)),
        forall|o: int, s: int|
            s < k ==> (#[trigger] schedule::is_store(a0, o, s) <==> schedule::is_store(a1, o, s)),
    ensures
        occupancy::live_slots(a0, k, t) == occupancy::live_slots(a1, k, t),
    decreases k,
{
    if k > 0 {
        lemma_live_same(a0, a1, k - 1, t);
        let s = k - 1;
        if layout::alive(a0, s, t) {
            let x = choose|x: int| x <= t && #[trigger] schedule::is_store(a0, x, s);
            let e = choose|e: int| e >= t && #[trigger] layout::in_slot(a0, e, s);
            assert(schedule::is_store(a1, x, s) && layout::in_slot(a1, e, s));
        }
        if layout::alive(a1, s, t) {
            let x = choose|x: int| x <= t && #[trigger] schedule::is_store(a1, x, s);
            let e = choose|e: int| e >= t && #[trigger] layout::in_slot(a1, e, s);
            assert(schedule::is_store(a0, x, s) <==> schedule::is_store(a1, x, s));
            assert(layout::in_slot(a0, e, s) <==> layout::in_slot(a1, e, s));
        }
    }
}

/// One more slot for a linear term is alive from its first position to its last, and
/// leaves the limit as it is.
proof fn lemma_linear_slot(
    nodes: Seq<PlanView>,
    a0: Seq<Option<CacheAction>>,
    a1: Seq<Option<CacheAction>>,
    slot: usize,
    positions: Seq<usize>,
    first: int,
    budget: LinearTermCacheBudget,
)
    requires
        nodes.len() <= usize::MAX,
        a0.len() == nodes.len(),
        a1.len() == nodes.len(),
        positions.len() >= 2,
        matches_in(nodes, positions, first),
        nodes[first].op is LinearTerm,
        forall|o: int| #[trigger] schedule::is_action(a0, o) ==> a0[o]->0.slot < slot,
        forall|k: int|
            #![trigger positions[k]]
            0 <= k < positions.len() ==> (a1[positions[k] as int] matches Some(action)
                && action.slot == slot && action.store == (k == 0)),
        forall|o: int|
            0 <= o < nodes.len() && !positions.contains(o as usize) ==> #[trigger] a1[o] == a0[o],
        forall|o: int| positions.contains(o as usize) && 0 <= o < nodes.len() ==> a0[o] is None,
    ensures
        forall|t: int| #[trigger]
            occupancy::live_slots(a1, slot + 1, t) == occupancy::live_slots(a0, slot as int, t) + (if positions[0] <= t
                <= positions.last() {
                1nat
            } else {
                0
            }),
        slot_limit(nodes, a1, slot + 1, budget) == slot_limit(nodes, a0, slot as int, budget),
{
    let sl = slot as int;
    assert(repeats(nodes, first, positions[0] as int));
    assert(repeats(nodes, first, positions[positions.len() - 1] as int));
    assert forall|o: int| positions.contains(o as usize) && 0 <= o < nodes.len() implies #[trigger] a1[o] is Some
        && a1[o]->0.slot == slot && positions[0] <= o <= positions.last()
        && nodes[o].op is LinearTerm && (a1[o]->0.store ==> o == positions[0]) by {
        let k = choose|k: int| 0 <= k < positions.len() && positions[k] == o as usize;
        assert(positions[k] == o);
        assert(repeats(nodes, first, positions[k] as int));
        if k > 0 {
            assert(positions[0] < positions[k]);
        }
        if k < positions.len() - 1 {
            assert(positions[k] < positions[positions.len() - 1]);
        }
    }
    assert forall|o: int, s: int| s < sl implies (#[trigger] layout::in_slot(a1, o, s) <==> layout::in_slot(
        a0,
        o,
        s,
    )) by {
        if 0 <= o < nodes.len() {
            if positions.contains(o as usize) {
                assert(a1[o] is Some);
            } else {
                assert(a1[o] == a0[o]);
            }
        }
    }
    assert forall|o: int, s: int| s < sl implies (#[trigger] schedule::is_store(a1, o, s) <==> schedule::is_store(
        a0,
        o,
        s,
    )) by {
        if 0 <= o < nodes.len() {
            if positions.contains(o as usize) {
                assert(a1[o] is Some);
            } else {
                assert(a1[o] == a0[o]);
            }
        }
    }
    assert forall|t: int| #[trigger] occupancy::live_slots(a1, slot + 1, t) == occupancy::live_slots(a0, sl, t) + (
    if positions[0] <= t <= positions.last() {
        1nat
    } else {
        0
    }) by {
        lemma_live_same(a1, a0, sl, t);
        if positions[0] <= t <= positions.last() {
            assert(schedule::is_store(a1, positions[0] as int, sl));
            assert(layout::in_slot(a1, positions[positions.len() - 1] as int, sl));
            assert(layout::alive(a1, sl, t));
        } else if layout::alive(a1, sl, t) {
            let x = choose|x: int| x <= t && #[trigger] schedule::is_store(a1, x, sl);
            let e = choose|e: int| e >= t && #[trigger] layout::in_slot(a1, e, sl);
            assert(schedule::is_action(a1, x) && schedule::is_action(a1, e));
            if !positions.contains(x as usize) {
                assert(a1[x] == a0[x]);
                assert(schedule::is_action(a0, x));
            }
            if !positions.contains(e as usize) {
                assert(a1[e] == a0[e]);
                assert(schedule::is_action(a0, e));
            }
            assert(positions[0] <= x && e <= positions.last());
        }
    }
    let w0 = without_linear(nodes, a0);
    let w1 = without_linear(nodes, a1);
    assert forall|o: int| 0 <= o < w0.len() implies w0[o] == w1[o] by {
        if positions.contains(o as usize) {
            assert(a1[o] is Some);
        } else {
            assert(a1[o] == a0[o]);
        }
    }
    assert(w0 =~= w1);
    assert forall|t: int| #[trigger] occupancy::live_slots(w1, slot + 1, t) == occupancy::live_slots(w0, sl, t) by {
        if layout::alive(w1, sl, t) {
            let x = choose|x: int| x <= t && #[trigger] schedule::is_store(w1, x, sl);
            assert(schedule::is_action(a0, x));
        }
    }
    lemma_most_same(w1, slot + 1, w0, sl, nodes.len() as int);
}

/// No two equal linear terms are left without anything cached while the budget has room
/// for them, and they are only passed over for what does not save less.
pub open spec fn linear_terms_cached(
    nodes: Seq<PlanView>,
    actions: Seq<Option<CacheAction>>,
    slots: int,
    descs: Seq<ScalarView>,
    p: int,
    budget: LinearTermCacheBudget,
) -> bool {
    forall|i: int, j: int|
        #[trigger] repeats(nodes, i, j) && i < j && nodes[i].op is LinearTerm ==> touched(
            nodes,
            actions,
            i,
            descs,
            p,
        ) || touched(nodes, actions, j, descs, p) || spent(
            nodes,
            actions,
            slots,
            nodes[i],
            descs,
            p,
            budget,
        )
}

/// Two positions of the shape are never both untouched, in the order of caching.
spec fn pairs_touched(
    nodes: Seq<PlanView>,
    actions: Seq<Option<CacheAction>>,
    shape: RepeatShape,
    descs: Seq<ScalarView>,
    p: int,
) -> bool {
    forall|k: int, l: int|
        #![trigger shape.positions@[k], shape.positions@[l]]
        0 <= k < l < shape.positions@.len() ==> touched(
            nodes,
            actions,
            shape.positions@[k] as int,
            descs,
            p,
        ) || touched(nodes, actions, shape.positions@[l] as int, descs, p)
}

/// The action at `o` was made for one of the first `n` shapes in their order.
spec fn from_shapes(shapes: Seq<RepeatShape>, order: Seq<usize>, n: int, o: int) -> bool {
    exists|b: int|
        0 <= b < n && shapes[(#[trigger] order[b]) as int].positions@.contains(o as usize)
}

/// Something that was cached for an earlier shape, or for this one, reaches into the
/// position.
proof fn lemma_touched_at(
    nodes: Seq<PlanView>,
    actions: Seq<Option<CacheAction>>,
    covered: Seq<bool>,
    slots: int,
    shapes: Seq<RepeatShape>,
    order: Seq<usize>,
    a: int,
    k: int,
    descs: Seq<ScalarView>,
    p: int,
)
    requires
        nodes.len() <= usize::MAX,
        partial(nodes, actions, covered, slots),
        ends_inside(nodes),
        0 <= a < order.len(),
        forall|b: int| 0 <= b < order.len() ==> #[trigger] order[b] < shapes.len(),
        forall|s: int| 0 <= s < shapes.len() ==> shape_fits(nodes, #[trigger] shapes[s], descs, p),
        in_saving_order(shapes, order),
        forall|o: int| #[trigger] schedule::is_action(actions, o) ==> from_shapes(shapes, order, a + 1, o),
        0 <= k < shapes[order[a] as int].positions@.len(),
        ({
            let i = shapes[order[a] as int].positions@[k] as int;
            some_covered(covered, i, i + schedule::plan_size(nodes[i]))
        }),
    ensures
        touched(nodes, actions, shapes[order[a] as int].positions@[k] as int, descs, p),
{
    let shape = shapes[order[a] as int];
    let i = shape.positions@[k] as int;
    assert(shape_fits(nodes, shape, descs, p));
    assert(repeats(nodes, shape.first_occurrence as int, shape.positions@[k] as int));
    let x = choose|x: int| i <= x < i + schedule::plan_size(nodes[i]) && #[trigger] covered[x];
    assert(covers(actions, x));
    let o = choose|o: int| #[trigger] schedule::is_action(actions, o) && o <= x < actions[o]->0.end;
    lemma_not_behind(nodes, shapes, order, a, o, descs, p);
}

/// What was cached for an earlier shape, or for this one, does not come behind it.
proof fn lemma_not_behind(
    nodes: Seq<PlanView>,
    shapes: Seq<RepeatShape>,
    order: Seq<usize>,
    a: int,
    o: int,
    descs: Seq<ScalarView>,
    p: int,
)
    requires
        0 <= o < nodes.len() <= usize::MAX,
        0 <= a < order.len(),
        forall|b: int| 0 <= b < order.len() ==> #[trigger] order[b] < shapes.len(),
        forall|s: int| 0 <= s < shapes.len() ==> shape_fits(nodes, #[trigger] shapes[s], descs, p),
        in_saving_order(shapes, order),
        from_shapes(shapes, order, a + 1, o),
    ensures
        !goes_first(
            nodes,
            nodes[shapes[order[a] as int].first_occurrence as int],
            nodes[o],
            descs,
            p,
        ),
{
    let shape = shapes[order[a] as int];
    assert(shape_fits(nodes, shape, descs, p));
    let b = choose|b: int|
        0 <= b < a + 1 && shapes[(#[trigger] order[b]) as int].positions@.contains(o as usize);
    let other = shapes[order[b] as int];
    assert(shape_fits(nodes, other, descs, p));
    let l = choose|l: int| 0 <= l < other.positions@.len() && other.positions@[l] == o as usize;
    assert(repeats(nodes, other.first_occurrence as int, other.positions@[l] as int));
    assert(!shape.precedes(other));
    lemma_precedes(nodes, shape, other, descs, p);
}

/// A shape whose positions are covered is covered in the order of caching.
proof fn lemma_pairs_touched(
    nodes: Seq<PlanView>,
    actions: Seq<Option<CacheAction>>,
    covered: Seq<bool>,
    slots: int,
    shapes: Seq<RepeatShape>,
    order: Seq<usize>,
    a: int,
    descs: Seq<ScalarView>,
    p: int,
)
    requires
        nodes.len() <= usize::MAX,
        partial(nodes, actions, covered, slots),
        ends_inside(nodes),
        0 <= a < order.len(),
        forall|b: int| 0 <= b < order.len() ==> #[trigger] order[b] < shapes.len(),
        forall|s: int| 0 <= s < shapes.len() ==> shape_fits(nodes, #[trigger] shapes[s], descs, p),
        in_saving_order(shapes, order),
        forall|o: int| #[trigger] schedule::is_action(actions, o) ==> from_shapes(shapes, order, a + 1, o),
        pairs_covered(nodes, covered, shapes[order[a] as int]),
    ensures
        pairs_touched(nodes, actions, shapes[order[a] as int], descs, p),
{
    let s = shapes[order[a] as int].positions@;
    assert forall|k: int, l: int|
        #![trigger s[k], s[l]]
        0 <= k < l < s.len() implies touched(nodes, actions, s[k] as int, descs, p) || touched(
        nodes,
        actions,
        s[l] as int,
        descs,
        p,
    ) by {
        if some_covered(covered, s[k] as int, s[k] + schedule::plan_size(nodes[s[k] as int])) {
            lemma_touched_at(nodes, actions, covered, slots, shapes, order, a, k, descs, p);
        } else {
            lemma_touched_at(nodes, actions, covered, slots, shapes, order, a, l, descs, p);
        }
    }
}

/// What is touched stays touched where the actions keep their place.
proof fn lemma_touched_later(
    nodes: Seq<PlanView>,
    a0: Seq<Option<CacheAction>>,
    a1: Seq<Option<CacheAction>>,
    descs: Seq<ScalarView>,
    p: int,
)
    requires
        forall|o: int| #[trigger]
            schedule::is_action(a0, o) ==> schedule::is_action(a1, o) && a1[o]->0.end == a0[o]->0.end,
    ensures
        forall|i: int| #[trigger]
            touched(nodes, a0, i, descs, p) ==> touched(nodes, a1, i, descs, p),
{
    assert forall|i: int| #[trigger] touched(nodes, a0, i, descs, p) implies touched(
        nodes,
        a1,
        i,
        descs,
        p,
    ) by {
        let o = choose|o: int| #[trigger]
            schedule::is_action(a0, o) && o < i + schedule::plan_size(nodes[i]) && i < a0[o]->0.end && !goes_first(
                nodes,
                nodes[i],
                nodes[o],
                descs,
                p,
            );
        assert(schedule::is_action(a1, o));
    }
}

/// Two positions of the shape are never both untouched.
spec fn pairs_covered(nodes: Seq<PlanView>, covered: Seq<bool>, shape: RepeatShape) -> bool {
    forall|k: int, l: int|
        #![trigger shape.positions@[k], shape.positions@[l]]
        0 <= k < l < shape.positions@.len() ==> some_covered(
            covered,
            shape.positions@[k] as int,
            shape.positions@[k] + schedule::plan_size(nodes[shape.positions@[k] as int]),
        ) || some_covered(
            covered,
            shape.positions@[l] as int,
            shape.positions@[l] + schedule::plan_size(nodes[shape.positions@[l] as int]),
        )
}

/// What the selection has decided so far.
struct Selection {
    actions: Vec<Option<CacheAction>>,
    covered: Vec<bool>,
    slots: usize,
    occupancy: Option<LinearTermCacheOccupancy>,
}

impl Selection {
    spec fn wf(self, nodes: Seq<PlanView>, budget: LinearTermCacheBudget) -> bool {
        &&& partial(nodes, self.actions@, self.covered@, self.slots as int)
        &&& self.slots <= nodes.len()
        &&& match self.occupancy {
            None => {
                &&& linear_stores(nodes, self.actions@, nodes.len() as int) == 0
                &&& without_linear(nodes, self.actions@) == self.actions@
            },
            Some(occupancy) => {
                &&& occupancy.active_slots@.len() == nodes.len()
                &&& occupancy.max_allowed_slots == slot_limit(
                    nodes,
                    self.actions@,
                    self.slots as int,
                    budget,
                )
                &&& forall|t: int|
                    0 <= t < nodes.len() ==> #[trigger] occupancy.active_slots@[t] == occupancy::live_slots(
                        self.actions@,
                        self.slots as int,
                        t,
                    ) && occupancy.active_slots@[t] <= occupancy.max_allowed_slots
                &&& occupancy.remaining_entries + linear_stores(
                    nodes,
                    self.actions@,
                    nodes.len() as int,
                ) == budget.max_entries
            },
        }
    }
}

/// The number of slots is bounded by the number of occurrences, as each slot has its
/// own store.
proof fn lemma_slots_bound(nodes: Seq<PlanView>, actions: Seq<Option<CacheAction>>, covered: Seq<bool>, slots: int)
    requires
        partial(nodes, actions, covered, slots),
        0 <= slots,
    ensures
        slots <= nodes.len(),
{
    let stores = Seq::new(
        slots as nat,
        |k: int| choose|o: int| #[trigger] schedule::is_store(actions, o, k),
    );
    assert forall|k: int| 0 <= k < stores.len() implies 0 <= #[trigger] stores[k] < nodes.len()
        && schedule::is_store(actions, stores[k], k) by {
        assert(layout::stored_somewhere(actions, k));
    }
    assert forall|i: int, j: int|
        0 <= i < stores.len() && 0 <= j < stores.len() && i != j implies stores[i]
        != stores[j] by {
        assert(schedule::is_store(actions, stores[i], i));
        assert(schedule::is_store(actions, stores[j], j));
    }
    layout::lemma_distinct_bound(stores, nodes.len() as int);
}

/// Decides one shape.
fn select_shape<'a, F: Field>(
    nodes: &Vec<PlanOccurrence<'a>>,
    shape: &RepeatShape,
    scalars: &[PlanScalar<F>],
    budget: LinearTermCacheBudget,
    state: &mut Selection,
    Ghost(list): Ghost<Seq<PlanView>>,
    Ghost(polys): Ghost<spec_fn(IndexedLeaf) -> bool>,
)
    requires
        occurrence::lists(nodes@, 0, list),
        nodes@.len() == list.len(),
        list.len() < usize::MAX,
        ends_inside(list),
        forall|i: int|
            0 <= i < list.len() ==> plan::plan_in_bounds(
                #[trigger] list[i],
                scalars@.len() as int,
                polys,
                0,
            ),
        shape_fits(list, *shape, scalars::scalar_views(scalars@), F::order()),
        old(state).wf(list, budget),
        worth_caching(list, old(state).actions@, scalars::scalar_views(scalars@), F::order()),
        old(state).occupancy is Some ==> cost_of(
            list[shape.first_occurrence as int],
            scalars::scalar_views(scalars@),
            F::order(),
        ).0 == 0,
    ensures
        final(state).wf(list, budget),
        worth_caching(list, final(state).actions@, scalars::scalar_views(scalars@), F::order()),
        settled(list, final(state).covered@, *shape, scalars::scalar_views(scalars@), F::order()),
        list[shape.first_occurrence as int].op is LinearTerm ==> pairs_covered(
            list,
            final(state).covered@,
            *shape,
        ) || final(state).occupancy is Some && no_room(
            list,
            final(state).actions@,
            final(state).slots as int,
            slot_limit(list, final(state).actions@, final(state).slots as int, budget),
            list[shape.first_occurrence as int],
            budget,
        ),
        old(state).slots <= final(state).slots,
        old(state).occupancy is Some ==> final(state).occupancy is Some && slot_limit(
            list,
            final(state).actions@,
            final(state).slots as int,
            budget,
        ) == slot_limit(list, old(state).actions@, old(state).slots as int, budget),
        final(state).occupancy is Some ==> old(state).occupancy is Some
            || list[shape.first_occurrence as int].op is LinearTerm,
        forall|o: int| #[trigger]
            schedule::is_action(old(state).actions@, o) ==> schedule::is_action(final(state).actions@, o)
                && final(state).actions@[o] == old(state).actions@[o],
        forall|o: int| #[trigger]
            schedule::is_action(final(state).actions@, o) ==> schedule::is_action(old(state).actions@, o)
                || shape.positions@.contains(o as usize),
{
    let ghost descs = scalars::scalar_views(scalars@);
    let ghost p = F::order();
    let ghost first = shape.first_occurrence as int;
    let ghost c0 = state.covered@;
    let positions = untouched_positions(
        nodes,
        &shape.positions,
        &state.covered,
        Ghost(list),
        Ghost(first),
    );
    if positions.len() < 2 {
        proof {
            lemma_settled_few(list, c0, *shape, positions@);
        }
        return ;
    }
    proof {
        assert(repeats(list, first, positions@[0] as int));
        assert(repeats(list, first, positions@[positions@.len() - 1] as int));
        assert(occurrence::node_fits(
            nodes@[0 + positions@[0] as int],
            list[positions@[0] as int],
            0 + positions@[0] as int,
        ));
    }
    let plan = nodes[positions[0]].plan;
    let cost = plan_cost(plan, scalars, Ghost(polys));
    let is_linear_term: bool = match plan {
        EvaluationPlan::LinearTerm(_) => true,
        _ => false,
    };
    assert(is_linear_term <==> list[first].op is LinearTerm);
    let ghost mut room = arbitrary::<LinearTermCacheOccupancy>();
    if is_linear_term {
        if state.occupancy.is_none() {
            let occupancy = LinearTermCacheOccupancy::new(
                state.actions.as_slice(),
                state.slots,
                budget,
            );
            proof {
                let most = choose|most: int| #[trigger]
                    occupancy::is_most(occupancy.active_slots@, most) && occupancy.max_allowed_slots == occupancy::capped(
                        most + budget.max_additional_slots,
                    );
                let n = list.len() as int;
                let reached = most_live(state.actions@, state.slots as int, n);
                lemma_most_live(state.actions@, state.slots as int, n);
                if reached != 0 {
                    let t = choose|t: int|
                        0 <= t < n && #[trigger] occupancy::live_slots(state.actions@, state.slots as int, t)
                            == reached;
                    assert(occupancy.active_slots@[t] <= most);
                }
                if most != 0 {
                    let t = choose|t: int|
                        0 <= t < n && #[trigger] occupancy.active_slots@[t] == most;
                    assert(occupancy::live_slots(state.actions@, state.slots as int, t) <= reached);
                }
                assert(most == reached);
            }
            state.occupancy = Some(occupancy);
        }
        proof {
            room = state.occupancy->0;
            assert(state.wf(list, budget));
            assert(state.occupancy is Some);
            if positions@.len() > 1 {
                assert(positions@[0] < positions@[positions@.len() - 1]);
            }
        }
        let last = positions[positions.len() - 1];
        let reserved: bool = match &mut state.occupancy {
            Some(occupancy) => occupancy.try_reserve(positions[0], last),
            None => false,
        };
        if !reserved {
            proof {
                if room.remaining_entries > 0 {
                    let t = choose|t: int|
                        positions@[0] <= t <= last && #[trigger] room.active_slots@[t]
                            >= room.max_allowed_slots;
                    assert(crowded(
                        list,
                        state.actions@,
                        state.slots as int,
                        slot_limit(list, state.actions@, state.slots as int, budget),
                        list[first],
                        t,
                        positions@[0] as int,
                        last as int,
                    ));
                }
            }
            return ;
        }
    } else if cost.0 < MIN_CSE_SAVED_MULTIPLICATIONS {
        return ;
    }
    let ghost before = *state;
    let slot = state.slots;
    assign_slot(
        nodes,
        &positions,
        slot,
        &mut state.actions,
        &mut state.covered,
        Ghost(list),
    );
    proof {
        lemma_partial_push(
            list,
            before.actions@,
            state.actions@,
            before.covered@,
            state.covered@,
            slot,
            positions@,
            first,
        );
        lemma_slots_bound(list, state.actions@, state.covered@, slot + 1);
        lemma_linear_push(
            list,
            before.actions@,
            state.actions@,
            positions@,
            first,
            list.len() as int,
        );
        if is_linear_term {
            lemma_linear_slot(
                list,
                before.actions@,
                state.actions@,
                slot,
                positions@,
                first,
                budget,
            );
            assert forall|t: int| 0 <= t < list.len() implies #[trigger] state.occupancy->0.active_slots@[t] == occupancy::live_slots(
                state.actions@,
                slot + 1,
                t,
            ) && state.occupancy->0.active_slots@[t] <= state.occupancy->0.max_allowed_slots by {
                assert(room.active_slots@[t] == occupancy::live_slots(before.actions@, slot as int, t));
                assert(occupancy::live_slots(state.actions@, slot + 1, t) == occupancy::live_slots(
                    before.actions@,
                    slot as int,
                    t,
                ) + (if positions@[0] <= t <= positions@.last() {
                    1nat
                } else {
                    0
                }));
            }
        } else {
            assert(without_linear(list, state.actions@) =~= state.actions@) by {
                assert forall|o: int| 0 <= o < list.len() && list[o].op is LinearTerm implies #[trigger] state.actions@[o] is None by {
                    if positions@.contains(o as usize) {
                        let k = choose|k: int|
                            0 <= k < positions@.len() && positions@[k] == o as usize;
                        assert(repeats(list, first, positions@[k] as int));
                    } else {
                        assert(without_linear(list, before.actions@)[o] is None);
                    }
                }
            }
        }
        lemma_settled_all(list, c0, state.covered@, *shape, positions@);
        assert forall|o: int| #[trigger] schedule::is_action(state.actions@, o) implies list[o].op is LinearTerm
            || cost_of(list[o], descs, p).0 >= MIN_CSE_SAVED_MULTIPLICATIONS by {
            if positions@.contains(o as usize) {
                let k = choose|k: int| 0 <= k < positions@.len() && positions@[k] == o as usize;
                assert(repeats(list, first, positions@[0] as int));
                assert(repeats(list, first, positions@[k] as int));
            } else {
                assert(schedule::is_action(before.actions@, o));
            }
        }
        assert forall|o: int| #[trigger] schedule::is_action(before.actions@, o) implies schedule::is_action(
            state.actions@,
            o,
        ) && state.actions@[o] == before.actions@[o] by {
            assert(!positions@.contains(o as usize));
        }
        assert forall|o: int| #[trigger] schedule::is_action(state.actions@, o) implies schedule::is_action(
            before.actions@,
            o,
        ) || shape.positions@.contains(o as usize) by {
            if positions@.contains(o as usize) {
                let k = choose|k: int| 0 <= k < positions@.len() && positions@[k] == o as usize;
                assert(shape.positions@.contains(positions@[k]));
            }
        }
    }
    state.slots = slot + 1;
}

pub proof fn lemma_occurrences_in_bounds(a: PlanView, n: int, polys: spec_fn(IndexedLeaf) -> bool)
    requires
        plan::plan_in_bounds(a, n, polys, 0),
    ensures
        forall|i: int|
            0 <= i < schedule::occurrences(a).len() ==> plan::plan_in_bounds(
                #[trigger] schedule::occurrences(a)[i],
                n,
                polys,
                0,
            ),
    decreases a,
{
    lemma_all_in_bounds(a.children, n, polys);
    let kids = schedule::all_occurrences(a.children);
    assert forall|i: int| 0 <= i < schedule::occurrences(a).len() implies plan::plan_in_bounds(
        #[trigger] schedule::occurrences(a)[i],
        n,
        polys,
        0,
    ) by {
        if i > 0 {
            assert(schedule::occurrences(a)[i] == kids[i - 1]);
        }
    }
}

proof fn lemma_all_in_bounds(s: Seq<PlanView>, n: int, polys: spec_fn(IndexedLeaf) -> bool)
    requires
        plan::plans_in_bounds(s, n, polys, 0),
    ensures
        forall|i: int|
            0 <= i < schedule::all_occurrences(s).len() ==> plan::plan_in_bounds(
                #[trigger] schedule::all_occurrences(s)[i],
                n,
                polys,
                0,
            ),
    decreases s,
{
    if s.len() > 0 {
        lemma_all_in_bounds(s.drop_last(), n, polys);
        lemma_occurrences_in_bounds(s.last(), n, polys);
        let a = schedule::all_occurrences(s.drop_last());
        let b = schedule::occurrences(s.last());
        assert forall|i: int| 0 <= i < schedule::all_occurrences(s).len() implies plan::plan_in_bounds(
            #[trigger] schedule::all_occurrences(s)[i],
            n,
            polys,
            0,
        ) by {
            if i < a.len() {
                assert(schedule::all_occurrences(s)[i] == a[i]);
            } else {
                assert(schedule::all_occurrences(s)[i] == b[i - a.len()]);
            }
        }
    }
}

/// A plan that names no cache slot is uncached.
pub proof fn lemma_in_bounds_uncached(a: PlanView, n: int, polys: spec_fn(IndexedLeaf) -> bool)
    requires
        plan::plan_in_bounds(a, n, polys, 0),
    ensures
        schedule::uncached(schedule::occurrences(a)),
{
    lemma_occurrences_in_bounds(a, n, polys);
    assert forall|o: int| 0 <= o < schedule::occurrences(a).len() implies !((
    #[trigger] schedule::occurrences(a)[o]).op is Store) && !(schedule::occurrences(a)[o].op is Load) by {
        assert(plan::plan_in_bounds(schedule::occurrences(a)[o], n, polys, 0));
    }
}

/// Caching keeps a plan in bounds, and adds no product.
pub proof fn lemma_applied_in_bounds(
    a: PlanView,
    actions: Seq<Option<CacheAction>>,
    o: int,
    n: int,
    polys: spec_fn(IndexedLeaf) -> bool,
    slots: int,
)
    requires
        plan::plan_in_bounds(a, n, polys, 0),
        0 <= o,
        o + schedule::plan_size(a) <= actions.len(),
        forall|k: int| #[trigger] schedule::is_action(actions, k) ==> actions[k]->0.slot < slots,
    ensures
        plan::plan_in_bounds(schedule::applied(a, actions, o), n, polys, slots),
        lowering::mul_free(a) ==> lowering::mul_free(schedule::applied(a, actions, o)),
    decreases a,
{
    lemma_all_applied_in_bounds(a.children, actions, o + 1, n, polys, slots);
    let plain = PlanView { op: a.op, children: schedule::all_applied(a.children, actions, o + 1) };
    assert(plan::plan_in_bounds(plain, n, polys, slots)) by {
        match a.op {
            PlanOp::Distribute(work, base) => {},
            _ => {},
        }
    }
    assert(lowering::mul_free(a) ==> lowering::mul_free(plain));
    lemma_one_in_bounds(plain, n, polys, slots);
    if actions[o] is Some {
        assert(schedule::is_action(actions, o));
    }
}

proof fn lemma_one_in_bounds(a: PlanView, n: int, polys: spec_fn(IndexedLeaf) -> bool, slots: int)
    ensures
        plan::plans_in_bounds(seq![a], n, polys, slots) <==> plan::plan_in_bounds(a, n, polys, slots),
        lowering::all_mul_free(seq![a]) <==> lowering::mul_free(a),
        plan::plans_in_bounds(Seq::<PlanView>::empty(), n, polys, slots),
        lowering::all_mul_free(Seq::<PlanView>::empty()),
{
    plan::lemma_plans_in_bounds(seq![a], n, polys, slots);
    lowering::lemma_all_mul_free(seq![a]);
    assert(seq![a][0] == a);
}

proof fn lemma_all_applied_in_bounds(
    s: Seq<PlanView>,
    actions: Seq<Option<CacheAction>>,
    o: int,
    n: int,
    polys: spec_fn(IndexedLeaf) -> bool,
    slots: int,
)
    requires
        plan::plans_in_bounds(s, n, polys, 0),
        0 <= o,
        o + schedule::plan_sizes(s) <= actions.len(),
        forall|k: int| #[trigger] schedule::is_action(actions, k) ==> actions[k]->0.slot < slots,
    ensures
        plan::plans_in_bounds(schedule::all_applied(s, actions, o), n, polys, slots),
        lowering::all_mul_free(s) ==> lowering::all_mul_free(schedule::all_applied(s, actions, o)),
    decreases s,
{
    if s.len() > 0 {
        let front = s.drop_last();
        lemma_all_applied_in_bounds(front, actions, o, n, polys, slots);
        lemma_applied_in_bounds(s.last(), actions, o + schedule::plan_sizes(front), n, polys, slots);
        let list = schedule::all_applied(s, actions, o);
        assert(list.drop_last() =~= schedule::all_applied(front, actions, o));
    }
}

/// A schedule that caches what is worth caching, within the budget for linear terms.
pub open spec fn good_schedule(
    plan: PlanView,
    actions: Seq<Option<CacheAction>>,
    slots: int,
    descs: Seq<ScalarView>,
    p: int,
    budget: LinearTermCacheBudget,
) -> bool {
    let nodes = schedule::occurrences(plan);
    &&& schedule::valid_schedule(nodes, actions, slots)
    &&& occurrence::acts_on_arithmetic(nodes, actions)
    &&& repeats_cached(nodes, actions, descs, p)
    &&& worth_caching(nodes, actions, descs, p)
    &&& linear_stores(nodes, actions, nodes.len() as int) <= budget.max_entries
    &&& slots <= nodes.len()
    &&& exists|plain: Seq<Option<CacheAction>>, n: int, remap: Seq<usize>| #[trigger]
        reuses(nodes, plain, n, actions, remap, slots, descs, p, budget)
}

/// A schedule in which each slot is stored once keeps to the budget for linear terms, and
/// uses it up.
pub open spec fn within_budget(
    nodes: Seq<PlanView>,
    plain: Seq<Option<CacheAction>>,
    n: int,
    descs: Seq<ScalarView>,
    p: int,
    budget: LinearTermCacheBudget,
) -> bool {
    &&& layout::single_stores(plain, n)
    &&& linear_stores(nodes, plain, nodes.len() as int) <= budget.max_entries
    &&& forall|t: int|
        0 <= t < plain.len() ==> #[trigger] occupancy::live_slots(plain, n, t) <= slot_limit(
            nodes,
            plain,
            n,
            budget,
        )
    &&& linear_terms_cached(nodes, plain, n, descs, p, budget)
}

/// `actions` is such a schedule in no more slots than are alive together at some
/// occurrence.
pub open spec fn reuses(
    nodes: Seq<PlanView>,
    plain: Seq<Option<CacheAction>>,
    n: int,
    actions: Seq<Option<CacheAction>>,
    remap: Seq<usize>,
    slots: int,
    descs: Seq<ScalarView>,
    p: int,
    budget: LinearTermCacheBudget,
) -> bool {
    &&& within_budget(nodes, plain, n, descs, p, budget)
    &&& layout::remapped(plain, actions, remap, n, slots)
    &&& layout::needs_slots(plain, n, slots)
}

/// What is ordered behind a linear term costs no multiplication.
proof fn lemma_behind_linear(
    nodes: Seq<PlanView>,
    x: RepeatShape,
    y: RepeatShape,
    descs: Seq<ScalarView>,
    p: int,
)
    requires
        shape_fits(nodes, x, descs, p),
        shape_fits(nodes, y, descs, p),
        nodes[x.first_occurrence as int].op is LinearTerm,
        !y.precedes(x),
    ensures
        cost_of(nodes[y.first_occurrence as int], descs, p).0 == 0,
{
    let a = nodes[x.first_occurrence as int];
    let b = nodes[y.first_occurrence as int];
    let none = occupancy::capped(cost_of(a, descs, p).0 as int);
    let others = times_of(nodes, a, nodes.len() as int) - 1;
    assert(none == 0);
    assert(others * none == 0) by (nonlinear_arith)
        requires
            none == 0,
    ;
    let times = times_of(nodes, b, nodes.len() as int) - 1;
    let cost = occupancy::capped(cost_of(b, descs, p).0 as int);
    assert(times * cost == 0);
    assert(cost == 0) by (nonlinear_arith)
        requires
            times >= 1,
            cost >= 0,
            times * cost == 0,
    ;
}

/// The plan names only the first `n` scalars, and no cache slot.
pub open spec fn plain_plan(plan: PlanView, n: int) -> bool {
    exists|polys: spec_fn(IndexedLeaf) -> bool| #[trigger] plan::plan_in_bounds(plan, n, polys, 0)
}

impl EvaluationPlan {
    /// Decides which occurrences are stored and loaded, and in how many slots.
    pub fn cache_common_subexpression_actions<F: Field>(
        &self,
        linear_term_budget: LinearTermCacheBudget,
        scalars: &[PlanScalar<F>],
    ) -> (r: (Vec<Option<CacheAction>>, usize))
        requires
            schedule::plan_size(self.view()) < usize::MAX,
            plain_plan(self.view(), scalars@.len() as int),
        ensures
            good_schedule(
                self.view(),
                r.0@,
                r.1 as int,
                scalars::scalar_views(scalars@),
                F::order(),
                linear_term_budget,
            ),
    {
        let ghost list = schedule::occurrences(self.view());
        let ghost descs = scalars::scalar_views(scalars@);
        let ghost p = F::order();
        let ghost polys = choose|polys: spec_fn(IndexedLeaf) -> bool| #[trigger]
            plan::plan_in_bounds(self.view(), scalars@.len() as int, polys, 0);
        let mut nodes: Vec<PlanOccurrence> = Vec::new();
        collect_plan_occurrences(self, &mut nodes);
        proof {
            schedule::lemma_occurrences_len(self.view());
            lemma_occurrences_in_bounds(self.view(), scalars@.len() as int, polys);
            lemma_ends_inside(self.view());
        }
        let (shapes, Ghost(class)) = repeat_shapes(&nodes, scalars, Ghost(list), Ghost(polys));
        let order = order_shapes(&shapes);
        let n: usize = nodes.len();
        let mut actions: Vec<Option<CacheAction>> = Vec::with_capacity(n);
        let mut covered: Vec<bool> = Vec::with_capacity(n);
        let mut i: usize = 0;
        while i < n
            invariant
                i <= n,
                actions@.len() == i,
                covered@.len() == i,
                forall|k: int| 0 <= k < i ==> #[trigger] actions@[k] is None,
                forall|k: int| 0 <= k < i ==> !#[trigger] covered@[k],
            decreases n - i,
        {
            actions.push(None);
            covered.push(false);
            i += 1;
        }
        proof {
            lemma_no_linear(list, actions@, n as int);
            assert(without_linear(list, actions@) =~= actions@);
            assert forall|o: int| !#[trigger] schedule::is_action(actions@, o) by {}
        }
        let mut state = Selection { actions, covered, slots: 0, occupancy: None };
        let mut a: usize = 0;
        while a < order.len()
            invariant
                a <= order@.len(),
                order@.len() == shapes@.len(),
                forall|b: int| 0 <= b < order@.len() ==> #[trigger] order@[b] < shapes@.len(),
                occurrence::lists(nodes@, 0, list),
                nodes@.len() == list.len(),
                list.len() < usize::MAX,
                ends_inside(list),
                descs == scalars::scalar_views(scalars@),
                p == F::order(),
                forall|i: int|
                    0 <= i < list.len() ==> plan::plan_in_bounds(
                        #[trigger] list[i],
                        scalars@.len() as int,
                        polys,
                        0,
                    ),
                forall|k: int|
                    0 <= k < shapes@.len() ==> shape_fits(list, #[trigger] shapes@[k], descs, p),
                state.wf(list, linear_term_budget),
                worth_caching(list, state.actions@, descs, p),
                in_saving_order(shapes@, order@),
                forall|o: int| #[trigger]
                    schedule::is_action(state.actions@, o) ==> from_shapes(shapes@, order@, a as int, o),
                forall|b: int|
                    0 <= b < a && cost_of(
                        list[shapes@[(#[trigger] order@[b]) as int].first_occurrence as int],
                        descs,
                        p,
                    ).0 > 0 ==> pairs_touched(
                        list,
                        state.actions@,
                        shapes@[order@[b] as int],
                        descs,
                        p,
                    ),
                state.occupancy is Some ==> exists|b: int|
                    0 <= b < a && list[shapes@[(
                    #[trigger] order@[b]) as int].first_occurrence as int].op is LinearTerm,
                forall|b: int|
                    0 <= b < a && list[shapes@[(
                    #[trigger] order@[b]) as int].first_occurrence as int].op is LinearTerm
                        ==> pairs_touched(list, state.actions@, shapes@[order@[b] as int], descs, p)
                        || state.occupancy is Some && spent(
                        list,
                        state.actions@,
                        state.slots as int,
                        list[shapes@[order@[b] as int].first_occurrence as int],
                        descs,
                        p,
                        linear_term_budget,
                    ),
            decreases order@.len() - a,
        {
            let ghost before_state = state;
            assert(order@[a as int] < shapes@.len());
            proof {
                if state.occupancy is Some {
                    let b = choose|b: int|
                        0 <= b < a && list[shapes@[(
                        #[trigger] order@[b]) as int].first_occurrence as int].op is LinearTerm;
                    lemma_behind_linear(
                        list,
                        shapes@[order@[b] as int],
                        shapes@[order@[a as int] as int],
                        descs,
                        p,
                    );
                }
            }
            select_shape(
                &nodes,
                &shapes[order[a]],
                scalars,
                linear_term_budget,
                &mut state,
                Ghost(list),
                Ghost(polys),
            );
            proof {
                assert forall|o: int| #[trigger] schedule::is_action(state.actions@, o) implies from_shapes(
                    shapes@,
                    order@,
                    a + 1,
                    o,
                ) by {
                    if schedule::is_action(before_state.actions@, o) {
                        assert(from_shapes(shapes@, order@, a as int, o));
                        let b = choose|b: int|
                            0 <= b < a && shapes@[(
                            #[trigger] order@[b]) as int].positions@.contains(o as usize);
                        assert(shapes@[order@[b] as int].positions@.contains(o as usize));
                    } else {
                        assert(shapes@[order@[a as int] as int].positions@.contains(o as usize));
                    }
                }
                lemma_touched_later(list, before_state.actions@, state.actions@, descs, p);
                let current = shapes@[order@[a as int] as int];
                if pairs_covered(list, state.covered@, current) {
                    lemma_pairs_touched(
                        list,
                        state.actions@,
                        state.covered@,
                        state.slots as int,
                        shapes@,
                        order@,
                        a as int,
                        descs,
                        p,
                    );
                }
                assert forall|b: int|
                    0 <= b < a && pairs_touched(
                        list,
                        before_state.actions@,
                        shapes@[(#[trigger] order@[b]) as int],
                        descs,
                        p,
                    ) implies pairs_touched(
                    list,
                    state.actions@,
                    shapes@[order@[b] as int],
                    descs,
                    p,
                ) by {}
                let now = state.actions@;
                let width = state.slots as int;
                assert forall|b: int|
                    0 <= b < a && before_state.occupancy is Some && spent(
                        list,
                        before_state.actions@,
                        before_state.slots as int,
                        list[shapes@[(#[trigger] order@[b]) as int].first_occurrence as int],
                        descs,
                        p,
                        linear_term_budget,
                    ) implies spent(
                    list,
                    now,
                    width,
                    list[shapes@[order@[b] as int].first_occurrence as int],
                    descs,
                    p,
                    linear_term_budget,
                ) by {
                    lemma_spent_later(
                        list,
                        before_state.actions@,
                        before_state.slots as int,
                        now,
                        width,
                        list[shapes@[order@[b] as int].first_occurrence as int],
                        descs,
                        p,
                        linear_term_budget,
                    );
                }
                let node = list[current.first_occurrence as int];
                assert forall|o: int| #[trigger] schedule::is_action(now, o) implies !goes_first(
                    list,
                    node,
                    list[o],
                    descs,
                    p,
                ) by {
                    lemma_not_behind(list, shapes@, order@, a as int, o, descs, p);
                }
                assert(not_behind(list, now, node, descs, p) =~= now) by {
                    assert forall|o: int| 0 <= o < now.len() && goes_first(
                        list,
                        node,
                        list[o],
                        descs,
                        p,
                    ) implies #[trigger] now[o] is None by {
                        if now[o] is Some {
                            assert(schedule::is_action(now, o));
                        }
                    }
                }
            }
            a += 1;
        }
        let mut actions = state.actions;
        let ghost before = actions@;
        let slots = state.slots;
        let cache_slots = reuse_cache_slots(&mut actions, slots);
        proof {
            let covered = state.covered@;
            lemma_partial_valid(list, before, covered, slots as int);
            let remap = choose|remap: Seq<usize>| #[trigger]
                layout::remapped(before, actions@, remap, slots as int, cache_slots as int);
            layout::lemma_remapped_valid(
                list,
                before,
                actions@,
                remap,
                slots as int,
                cache_slots as int,
            );
            lemma_remapped_counts(
                list,
                before,
                actions@,
                remap,
                slots as int,
                cache_slots as int,
                list.len() as int,
            );
            assert forall|o: int| #[trigger] schedule::is_action(before, o) implies schedule::is_action(actions@, o)
                && actions@[o]->0.end == before[o]->0.end by {
                assert(actions@[o] is Some);
            }
            lemma_touched_later(list, before, actions@, descs, p);
            assert forall|i: int, j: int|
                #[trigger] repeats(list, i, j) && i < j && list[i].op is LinearTerm implies touched(
                list,
                before,
                i,
                descs,
                p,
            ) || touched(list, before, j, descs, p) || spent(
                list,
                before,
                slots as int,
                list[i],
                descs,
                p,
                linear_term_budget,
            ) by {
                lemma_same_class(list, shapes@, class, list.len() as int, i, j);
                let k = class[i];
                assert(shape_fits(list, shapes@[k], descs, p));
                assert(order@.contains(k as usize));
                let b = choose|b: int| 0 <= b < order@.len() && order@[b] == k as usize;
                let s = shapes@[k].positions@;
                let x = choose|x: int| 0 <= x < s.len() && s[x] == i as usize;
                assert(repeats(list, shapes@[k].first_occurrence as int, s[x] as int));
                assert(order@[b] == k);
                if pairs_touched(list, before, shapes@[k], descs, p) {
                    lemma_touched(list, before, shapes@[k], descs, p, i, j);
                }
            }
            lemma_most_live(before, slots as int, list.len() as int);
            assert forall|t: int| 0 <= t < before.len() implies #[trigger] occupancy::live_slots(
                before,
                slots as int,
                t,
            ) <= slot_limit(list, before, slots as int, linear_term_budget) by {
                if state.occupancy is Some {
                    assert(state.occupancy->0.active_slots@[t] == occupancy::live_slots(
                        before,
                        slots as int,
                        t,
                    ));
                }
            }
            assert(layout::single_stores(before, slots as int));
            assert(linear_terms_cached(
                list,
                before,
                slots as int,
                descs,
                p,
                linear_term_budget,
            ));
            assert(within_budget(list, before, slots as int, descs, p, linear_term_budget));
            assert(reuses(
                list,
                before,
                slots as int,
                actions@,
                remap,
                cache_slots as int,
                descs,
                p,
                linear_term_budget,
            ));
            assert forall|i: int, j: int|
                #[trigger] repeats(list, i, j) && i < j && cost_of(list[i], descs, p).0
                    >= MIN_CSE_SAVED_MULTIPLICATIONS implies touched(
                list,
                actions@,
                i,
                descs,
                p,
            ) || touched(list, actions@, j, descs, p) by {
                lemma_same_class(list, shapes@, class, list.len() as int, i, j);
                let k = class[i];
                assert(shape_fits(list, shapes@[k], descs, p));
                assert(order@.contains(k as usize));
                let b = choose|b: int| 0 <= b < order@.len() && order@[b] == k as usize;
                let s = shapes@[k].positions@;
                let x = choose|x: int| 0 <= x < s.len() && s[x] == i as usize;
                assert(repeats(list, shapes@[k].first_occurrence as int, s[x] as int));
                assert(pairs_touched(list, before, shapes@[order@[b] as int], descs, p));
                lemma_touched(list, before, shapes@[k], descs, p, i, j);
            }
            assert forall|o: int| #[trigger] schedule::is_action(actions@, o) implies occurrence::arithmetic(list[o]) && (
            list[o].op is LinearTerm || cost_of(list[o], descs, p).0
                >= MIN_CSE_SAVED_MULTIPLICATIONS) by {
                assert(schedule::is_action(before, o));
            }
        }
        (actions, cache_slots)
    }

    /// Rewrites the plan with a retained layout, if it fits, and else with a schedule
    /// of its own. Returns the number of slots, and the layout if it is to be retained
    /// and can be.
    pub fn cache_with_layout<F: Field>(
        self,
        linear_term_budget: LinearTermCacheBudget,
        cached: Option<&EvaluationCacheLayout>,
        retain_layout: bool,
        scalars: &[PlanScalar<F>],
    ) -> (r: (EvaluationPlan, usize, Option<EvaluationCacheLayout>))
        requires
            schedule::plan_size(self.view()) < usize::MAX,
            plain_plan(self.view(), scalars@.len() as int),
        ensures
            cached_with(
                self.view(),
                r.0.view(),
                r.1 as int,
                r.2,
                cached,
                retain_layout,
                scalars::scalar_views(scalars@),
                F::order(),
                linear_term_budget,
            ),
            cached_plan(self.view(), r.0.view(), r.1 as int),
    {
        let ghost view = self.view();
        let ghost nodes = schedule::occurrences(view);
        proof {
            schedule::lemma_occurrences_len(view);
            let polys = choose|polys: spec_fn(IndexedLeaf) -> bool| #[trigger]
                plan::plan_in_bounds(view, scalars@.len() as int, polys, 0);
            lemma_in_bounds_uncached(view, scalars@.len() as int, polys);
        }
        if let Some(layout) = cached {
            if layout.is_valid_for(&self) {
                proof {
                    retained::lemma_layout_valid(view, *layout);
                    let actions = retained::event_actions(layout.events@, layout.occurrence_count as int);
                    assert(scheduled(view, schedule::applied(view, actions, 0), actions, layout.cache_slots as int));
                }
                let plan = apply_cache_events(self, layout);
                return (plan, layout.cache_slots as usize, None);
            }
        }
        let (actions, cache_slots) = self.cache_common_subexpression_actions(
            linear_term_budget,
            scalars,
        );
        let layout: Option<EvaluationCacheLayout> = if retain_layout {
            EvaluationCacheLayout::from_actions(actions.as_slice(), cache_slots)
        } else {
            None
        };
        let mut occurrence: usize = 0;
        proof {
            retained::lemma_valid_ends(nodes, actions@, cache_slots as int);
            assert(scheduled(view, schedule::applied(view, actions@, 0), actions@, cache_slots as int));
        }
        let plan = apply_cache_actions(self, actions.as_slice(), &mut occurrence);
        proof {
            if layout is Some {
                retained::lemma_retained_fits(view, layout->0, actions@);
            }
            assert(made_with(
                view,
                plan.view(),
                cache_slots as int,
                layout,
                retain_layout,
                scalars::scalar_views(scalars@),
                F::order(),
                linear_term_budget,
                actions@,
            ));
        }
        (plan, cache_slots, layout)
    }
}

/// Whether there is a retained layout, and it fits the plan.
pub open spec fn fits_again(cached: Option<&EvaluationCacheLayout>, plan: PlanView) -> bool {
    cached is Some && retained::layout_fits(plan, *cached->0)
}

/// Whether a schedule has a retained form.
pub open spec fn retains(actions: Seq<Option<CacheAction>>, slots: int) -> bool {
    &&& actions.len() <= u32::MAX
    &&& slots <= u16::MAX
    &&& forall|o: int|
        0 <= o < actions.len() ==> (#[trigger] actions[o] matches Some(action) ==> retained::retainable(
            action,
        ))
}

/// `cached` is `plan` under the schedule `actions`, which is retained as `layout` if it
/// is to be retained and can be.
pub open spec fn made_with(
    plan: PlanView,
    cached: PlanView,
    slots: int,
    layout: Option<EvaluationCacheLayout>,
    retain: bool,
    descs: Seq<ScalarView>,
    p: int,
    budget: LinearTermCacheBudget,
    actions: Seq<Option<CacheAction>>,
) -> bool {
    &&& good_schedule(plan, actions, slots, descs, p, budget)
    &&& cached == schedule::applied(plan, actions, 0)
    &&& layout is Some <==> retain && retains(actions, slots)
    &&& layout is Some ==> {
        &&& retained::event_actions(layout->0.events@, layout->0.occurrence_count as int) == actions
        &&& layout->0.cache_slots == slots
        &&& retained::layout_fits(plan, layout->0)
    }
}

/// `cached` is `plan` with the given layout, if that fits, and else with a schedule of
/// its own.
pub open spec fn cached_with(
    plan: PlanView,
    cached: PlanView,
    slots: int,
    layout: Option<EvaluationCacheLayout>,
    given: Option<&EvaluationCacheLayout>,
    retain: bool,
    descs: Seq<ScalarView>,
    p: int,
    budget: LinearTermCacheBudget,
) -> bool {
    if fits_again(given, plan) {
        &&& cached == schedule::applied(
            plan,
            retained::event_actions(given->0.events@, given->0.occurrence_count as int),
            0,
        )
        &&& slots == given->0.cache_slots
        &&& layout is None
    } else {
        exists|actions: Seq<Option<CacheAction>>| #[trigger]
            made_with(plan, cached, slots, layout, retain, descs, p, budget, actions)
    }
}

/// A layout that is retained for a plan fits the plan again, and then gives the same plan
/// in the same number of slots.
pub proof fn law_retained_layout_fits_again(
    plan: PlanView,
    first: PlanView,
    slots: int,
    layout: EvaluationCacheLayout,
    given: Option<&EvaluationCacheLayout>,
    second: PlanView,
    second_slots: int,
    second_layout: Option<EvaluationCacheLayout>,
    retain: bool,
    descs: Seq<ScalarView>,
    p: int,
    budget: LinearTermCacheBudget,
)
    requires
        cached_with(plan, first, slots, Some(layout), given, true, descs, p, budget),
        cached_with(
            plan,
            second,
            second_slots,
            second_layout,
            Some(&layout),
            retain,
            descs,
            p,
            budget,
        ),
    ensures
        fits_again(Some(&layout), plan),
        second == first,
        second_slots == slots,
        second_layout is None,
{
    let actions = choose|actions: Seq<Option<CacheAction>>| #[trigger]
        made_with(plan, first, slots, Some(layout), true, descs, p, budget, actions);
    assert(made_with(plan, first, slots, Some(layout), true, descs, p, budget, actions));
}

/// `cached` is `plan` under a valid schedule.
pub open spec fn scheduled(
    plan: PlanView,
    cached: PlanView,
    actions: Seq<Option<CacheAction>>,
    slots: int,
) -> bool {
    &&& schedule::uncached(schedule::occurrences(plan))
    &&& schedule::valid_schedule(schedule::occurrences(plan), actions, slots)
    &&& cached == schedule::applied(plan, actions, 0)
}

/// `cached` is `plan` under some valid schedule of `slots` slots.
pub open spec fn cached_plan(plan: PlanView, cached: PlanView, slots: int) -> bool {
    exists|actions: Seq<Option<CacheAction>>| #[trigger] scheduled(plan, cached, actions, slots)
}

/// What is cached has the value of what it was made from, whatever the cache holds at
/// first.
pub proof fn lemma_cached_plan(
    plan: PlanView,
    cached: PlanView,
    slots: int,
    sv: Seq<int>,
    env: RowEnv,
    cache: Seq<int>,
)
    requires
        env.p > 0,
        cached_plan(plan, cached, slots),
        cache.len() >= slots,
    ensures
        plan::cached_value(cached, sv, env, cache).0 == plan::plan_value(plan, sv, env),
        plan::cached_value(cached, sv, env, cache).1.len() == cache.len(),
{
    let actions = choose|actions: Seq<Option<CacheAction>>| #[trigger]
        scheduled(plan, cached, actions, slots);
    schedule::law_cached_plan_keeps_values(plan, actions, slots, sv, env, cache);
}

pub proof fn lemma_cached_in_bounds(
    plan: PlanView,
    cached: PlanView,
    slots: int,
    n: int,
    polys: spec_fn(IndexedLeaf) -> bool,
)
    requires
        cached_plan(plan, cached, slots),
        plan::plan_in_bounds(plan, n, polys, 0),
    ensures
        plan::plan_in_bounds(cached, n, polys, slots),
        lowering::mul_free(plan) ==> lowering::mul_free(cached),
{
    let actions = choose|actions: Seq<Option<CacheAction>>| #[trigger]
        scheduled(plan, cached, actions, slots);
    schedule::lemma_occurrences_len(plan);
    lemma_applied_in_bounds(plan, actions, 0, n, polys, slots);
}

proof fn lemma_no_linear(nodes: Seq<PlanView>, actions: Seq<Option<CacheAction>>, n: int)
    requires
        n <= actions.len(),
        forall|k: int| 0 <= k < actions.len() ==> #[trigger] actions[k] is None,
    ensures
        linear_stores(nodes, actions, n) == 0,
    decreases n,
{
    if n > 0 {
        lemma_no_linear(nodes, actions, n - 1);
    }
}

proof fn lemma_remapped_counts(
    nodes: Seq<PlanView>,
    before: Seq<Option<CacheAction>>,
    after: Seq<Option<CacheAction>>,
    remap: Seq<usize>,
    slots: int,
    k: int,
    n: int,
)
    requires
        layout::remapped(before, after, remap, slots, k),
        n <= before.len(),
    ensures
        linear_stores(nodes, after, n) == linear_stores(nodes, before, n),
    decreases n,
{
    if n > 0 {
        lemma_remapped_counts(nodes, before, after, remap, slots, k, n - 1);
        assert(after[n - 1] is Some <==> before[n - 1] is Some);
    }
}

/// Of two occurrences of such a shape, one is touched.
proof fn lemma_touched(
    nodes: Seq<PlanView>,
    actions: Seq<Option<CacheAction>>,
    shape: RepeatShape,
    descs: Seq<ScalarView>,
    p: int,
    i: int,
    j: int,
)
    requires
        nodes.len() <= usize::MAX,
        matches_in(nodes, shape.positions@, shape.first_occurrence as int),
        pairs_touched(nodes, actions, shape, descs, p),
        repeats(nodes, i, j),
        i < j,
        shape.positions@.contains(i as usize),
        shape.positions@.contains(j as usize),
    ensures
        touched(nodes, actions, i, descs, p) || touched(nodes, actions, j, descs, p),
{
    let s = shape.positions@;
    let k = choose|k: int| 0 <= k < s.len() && s[k] == i as usize;
    let l = choose|l: int| 0 <= l < s.len() && s[l] == j as usize;
    assert(s[k] == i && s[l] == j);
    if l < k {
        assert(s[l] < s[k]);
    }
}

} // verus!
