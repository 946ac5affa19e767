//! The occurrences of sub-plans in a plan: listing them, comparing them, and what each
//! of them costs.
use crate::ast::IndexedLeaf;
use crate::plan;
use crate::plan::{
    DistributionWork, EvaluationPlan, FactorBodyPlan, FactorBodyWork, PlanOp, PlanView,
    SelectorFamilyRun, WeightedTerm,
};
use crate::poly::Rotation;
use crate::schedule;
use crate::schedule::CacheAction;
use std::collections::hash_map::DefaultHasher;
use std::hash::Hasher;
use vstd::bytes::*;
use vstd::prelude::*;
use vstd::std_specs::hash::*;

verus! {

/// Whether a plan is made of arithmetic alone: it holds neither a distribution nor
/// cache accesses.
pub open spec fn arithmetic(a: PlanView) -> bool
    decreases a,
{
    &&& !(a.op is Distribute)
    &&& !(a.op is Store)
    &&& !(a.op is Load)
    &&& all_arithmetic(a.children)
}

pub open spec fn all_arithmetic(s: Seq<PlanView>) -> bool
    decreases s,
{
    s.len() == 0 || (all_arithmetic(s.drop_last()) && arithmetic(s.last()))
}

proof fn lemma_arithmetic_pair(a: PlanView, b: PlanView)
    ensures
        all_arithmetic(seq![a, b]) <==> arithmetic(a) && arithmetic(b),
        all_arithmetic(seq![a]) <==> arithmetic(a),
        all_arithmetic(Seq::<PlanView>::empty()),
{
    assert(seq![a, b].drop_last() =~= seq![a]);
    assert(seq![a].drop_last() =~= Seq::<PlanView>::empty());
    assert(all_arithmetic(seq![a].drop_last()));
    assert(all_arithmetic(seq![a]) <==> arithmetic(seq![a].last()));
    assert(all_arithmetic(seq![a, b]) <==> (all_arithmetic(seq![a, b].drop_last()) && arithmetic(
        seq![a, b].last(),
    )));
}

proof fn lemma_same_pair(a: PlanView, b: PlanView, c: PlanView, d: PlanView)
    ensures
        seq![a, b] == seq![c, d] <==> (a == c && b == d),
        seq![a] == seq![c] <==> a == c,
{
    assert(seq![a, b][0] == a && seq![a, b][1] == b);
    assert(seq![c, d][0] == c && seq![c, d][1] == d);
    assert(seq![a][0] == a);
    assert(seq![c][0] == c);
}

fn same_leaves(a: &Vec<IndexedLeaf>, b: &Vec<IndexedLeaf>) -> (r: bool)
    ensures
        r <==> a@ == b@,
{
    if a.len() != b.len() {
        return false;
    }
    let mut i: usize = 0;
    while i < a.len()
        invariant
            a@.len() == b@.len(),
            i <= a@.len(),
            forall|k: int| 0 <= k < i ==> a@[k] == b@[k],
        decreases a@.len() - i,
    {
        if a[i] != b[i] {
            return false;
        }
        i += 1;
    }
    assert(a@ =~= b@);
    true
}

/// Whether two plans are the same arithmetic. Distributions are never the same.
pub fn same_plan(lhs: &EvaluationPlan, rhs: &EvaluationPlan) -> (r: bool)
    ensures
        r <==> lhs.view() == rhs.view() && arithmetic(lhs.view()),
    decreases lhs,
{
    match (lhs, rhs) {
        (EvaluationPlan::Poly(a), EvaluationPlan::Poly(b)) => *a == *b,
        (EvaluationPlan::Add(a, b), EvaluationPlan::Add(c, d)) => {
            proof {
                lemma_same_pair(a.view(), b.view(), c.view(), d.view());
                lemma_arithmetic_pair(a.view(), b.view());
            }
            same_plan(a, c) && same_plan(b, d)
        },
        (EvaluationPlan::Mul(a, b), EvaluationPlan::Mul(c, d)) => {
            proof {
                lemma_same_pair(a.view(), b.view(), c.view(), d.view());
                lemma_arithmetic_pair(a.view(), b.view());
            }
            same_plan(a, c) && same_plan(b, d)
        },
        (EvaluationPlan::Square(a), EvaluationPlan::Square(c)) => {
            proof {
                lemma_same_pair(a.view(), a.view(), c.view(), c.view());
                lemma_arithmetic_pair(a.view(), a.view());
            }
            same_plan(a, c)
        },
        (EvaluationPlan::Scale(a, s), EvaluationPlan::Scale(c, t)) => {
            proof {
                lemma_same_pair(a.view(), a.view(), c.view(), c.view());
                lemma_arithmetic_pair(a.view(), a.view());
            }
            s.0 == t.0 && same_plan(a, c)
        },
        (
            EvaluationPlan::Horner { base: a, coefficients: s },
            EvaluationPlan::Horner { base: c, coefficients: t },
        ) => {
            proof {
                lemma_same_pair(a.view(), a.view(), c.view(), c.view());
                lemma_arithmetic_pair(a.view(), a.view());
            }
            same_plan(a, c) && same_leaves(s, t)
        },
        (EvaluationPlan::LinearTerm(s), EvaluationPlan::LinearTerm(t)) => s.0 == t.0,
        (EvaluationPlan::ConstantTerm(s), EvaluationPlan::ConstantTerm(t)) => s.0 == t.0,
        _ => false,
    }
}

/// The words that are written to a hasher.
pub open spec fn written(words: Seq<u64>) -> Seq<Seq<u8>> {
    Seq::new(words.len(), |i: int| spec_u64_to_le_bytes(words[i]))
}

/// The hash of a sequence of words.
pub open spec fn fingerprint_of(words: Seq<u64>) -> u64 {
    DefaultHasher::spec_finish(written(words))
}

/// Hashes a sequence of words.
pub fn fingerprint(words: &[u64]) -> (r: u64)
    ensures
        r == fingerprint_of(words@),
{
    let mut hasher = DefaultHasher::new();
    let mut i: usize = 0;
    assert(hasher@ =~= written(words@.take(0)));
    while i < words.len()
        invariant
            i <= words@.len(),
            hasher@ == written(words@.take(i as int)),
        decreases words@.len() - i,
    {
        let bytes = u64_to_le_bytes(words[i]);
        hasher.write(bytes.as_slice());
        i += 1;
        assert(hasher@ =~= written(words@.take(i as int)));
    }
    assert(words@.take(i as int) =~= words@);
    hasher.finish()
}

/// The words of a leaf.
spec fn leaf_words(leaf: IndexedLeaf) -> Seq<u64> {
    seq![leaf.index as u64, rotation_word(leaf.rotation)]
}

spec fn rotation_word(rotation: Rotation) -> u64 {
    (rotation.0 + 0x8000_0000) as u64
}

spec fn leaves_words(s: Seq<IndexedLeaf>) -> Seq<u64>
    decreases s.len(),
{
    if s.len() == 0 {
        Seq::empty()
    } else {
        leaves_words(s.drop_last()) + leaf_words(s.last())
    }
}

/// The fingerprint of arithmetic. Other plans share one for each kind of node, so
/// that nothing is learned from it.
pub closed spec fn print_of(a: PlanView) -> u64
    decreases a,
{
    let v = prints_of(a.children);
    match a.op {
        PlanOp::Add => fingerprint_of(seq![0, v[0], v[1]]),
        PlanOp::Mul => fingerprint_of(seq![1, v[0], v[1]]),
        PlanOp::Square => fingerprint_of(seq![2, v[0]]),
        PlanOp::Scale(s) => fingerprint_of(seq![3, v[0], s as u64]),
        PlanOp::Horner(coefficients) => fingerprint_of(seq![4, v[0]] + leaves_words(coefficients)),
        PlanOp::Poly(leaf) => fingerprint_of(seq![6u64] + leaf_words(leaf)),
        PlanOp::LinearTerm(s) => fingerprint_of(seq![7, s as u64]),
        PlanOp::ConstantTerm(s) => fingerprint_of(seq![8, s as u64]),
        _ => 0,
    }
}

closed spec fn prints_of(s: Seq<PlanView>) -> Seq<u64>
    decreases s,
{
    if s.len() == 0 {
        Seq::empty()
    } else {
        prints_of(s.drop_last()).push(print_of(s.last()))
    }
}

proof fn lemma_prints_pair(a: PlanView, b: PlanView)
    ensures
        prints_of(seq![a, b]) == seq![print_of(a), print_of(b)],
        prints_of(seq![a]) == seq![print_of(a)],
{
    assert(seq![a, b].drop_last() =~= seq![a]);
    assert(seq![a].drop_last() =~= Seq::<PlanView>::empty());
    assert(prints_of(seq![a]) == prints_of(seq![a].drop_last()).push(print_of(seq![a].last())));
    assert(prints_of(seq![a, b]) == prints_of(seq![a, b].drop_last()).push(
        print_of(seq![a, b].last()),
    ));
    assert(prints_of(seq![a]) =~= seq![print_of(a)]);
    assert(prints_of(seq![a, b]) =~= seq![print_of(a), print_of(b)]);
}

/// One node of a plan, with the number of the node after the last one below it.
pub struct PlanOccurrence<'a> {
    pub plan: &'a EvaluationPlan,
    pub end: usize,
    pub fingerprint: u64,
}

/// Node number `i` of a plan is listed.
pub open spec fn node_fits<'a>(node: PlanOccurrence<'a>, a: PlanView, i: int) -> bool {
    &&& node.plan.view() == a
    &&& node.end == i + schedule::plan_size(a)
    &&& arithmetic(a) ==> node.fingerprint == print_of(a)
}

/// The nodes `list` are listed from position `at`.
pub open spec fn lists<'a>(
    nodes: Seq<PlanOccurrence<'a>>,
    at: int,
    list: Seq<PlanView>,
) -> bool {
    &&& at + list.len() <= nodes.len()
    &&& forall|k: int|
        #![trigger list[k]]
        0 <= k < list.len() ==> node_fits(nodes[at + k], list[k], at + k)
}

/// The nodes after a listing of `list`.
spec fn grows<'a>(
    before: Seq<PlanOccurrence<'a>>,
    after: Seq<PlanOccurrence<'a>>,
    list: Seq<PlanView>,
) -> bool {
    &&& after.len() == before.len() + list.len()
    &&& forall|k: int| 0 <= k < before.len() ==> #[trigger] after[k] == before[k]
    &&& lists(after, before.len() as int, list)
}

proof fn lemma_grows<'a>(
    a: Seq<PlanOccurrence<'a>>,
    b: Seq<PlanOccurrence<'a>>,
    c: Seq<PlanOccurrence<'a>>,
    s: Seq<PlanView>,
    t: Seq<PlanView>,
)
    requires
        grows(a, b, s),
        grows(b, c, t),
    ensures
        grows(a, c, s + t),
{
    let list = s + t;
    let at = a.len() as int;
    assert forall|k: int|
        #![trigger list[k]]
        0 <= k < list.len() implies node_fits(c[at + k], list[k], at + k) by {
        if k < s.len() {
            assert(list[k] == s[k]);
            assert(c[at + k] == b[at + k]);
        } else {
            assert(list[k] == t[k - s.len()]);
        }
    }
}

proof fn lemma_grows_none<'a>(a: Seq<PlanOccurrence<'a>>)
    ensures
        grows(a, a, Seq::empty()),
{
}

fn push_leaf(words: &mut Vec<u64>, leaf: IndexedLeaf)
    ensures
        final(words)@ == old(words)@ + leaf_words(leaf),
{
    words.push(leaf.index as u64);
    words.push((leaf.rotation.0 as i64 + 0x8000_0000) as u64);
    assert(words@ =~= old(words)@ + leaf_words(leaf));
}

fn word3(a: u64, b: u64, c: u64) -> (r: u64)
    ensures
        r == fingerprint_of(seq![a, b, c]),
{
    let words: [u64; 3] = [a, b, c];
    assert(words@ =~= seq![a, b, c]);
    fingerprint(&words)
}

fn word2(a: u64, b: u64) -> (r: u64)
    ensures
        r == fingerprint_of(seq![a, b]),
{
    let words: [u64; 2] = [a, b];
    assert(words@ =~= seq![a, b]);
    fingerprint(&words)
}

/// Lists the nodes of a plan in the order in which they are entered, and returns its
/// fingerprint.
pub fn collect_plan_occurrences<'a>(
    plan: &'a EvaluationPlan,
    nodes: &mut Vec<PlanOccurrence<'a>>,
) -> (r: u64)
    ensures
        final(nodes)@.len() == old(nodes)@.len() + schedule::plan_size(plan.view()),
        forall|k: int|
            0 <= k < old(nodes)@.len() ==> #[trigger] final(nodes)@[k] == old(nodes)@[k],
        lists(final(nodes)@, old(nodes)@.len() as int, schedule::occurrences(plan.view())),
        arithmetic(plan.view()) ==> r == print_of(plan.view()),
    decreases plan,
{
    let index: usize = nodes.len();
    let ghost before = nodes@;
    nodes.push(PlanOccurrence { plan, end: usize::MAX, fingerprint: 0 });
    let ghost start = nodes@;
    let ghost kids = plan.view().children;
    proof {
        schedule::lemma_plan_sizes_one(plan.view());
        lemma_grows_none(start);
        schedule::lemma_occurrences_len(plan.view());
        lemma_arithmetic_pair(plan.view(), plan.view());
    }
    let print: u64 = match plan {
        EvaluationPlan::Add(lhs, rhs) => {
            let a = collect_plan_occurrences(lhs, nodes);
            let ghost mid = nodes@;
            let b = collect_plan_occurrences(rhs, nodes);
            proof {
                schedule::lemma_occurrences_len(lhs.view());
                schedule::lemma_occurrences_len(rhs.view());
                lemma_grows(
                    start,
                    mid,
                    nodes@,
                    schedule::occurrences(lhs.view()),
                    schedule::occurrences(rhs.view()),
                );
                lemma_pair_occurrences(lhs.view(), rhs.view());
                lemma_arithmetic_pair(lhs.view(), rhs.view());
                lemma_prints_pair(lhs.view(), rhs.view());
            }
            word3(0, a, b)
        },
        EvaluationPlan::Mul(lhs, rhs) => {
            let a = collect_plan_occurrences(lhs, nodes);
            let ghost mid = nodes@;
            let b = collect_plan_occurrences(rhs, nodes);
            proof {
                schedule::lemma_occurrences_len(lhs.view());
                schedule::lemma_occurrences_len(rhs.view());
                lemma_grows(
                    start,
                    mid,
                    nodes@,
                    schedule::occurrences(lhs.view()),
                    schedule::occurrences(rhs.view()),
                );
                lemma_pair_occurrences(lhs.view(), rhs.view());
                lemma_arithmetic_pair(lhs.view(), rhs.view());
                lemma_prints_pair(lhs.view(), rhs.view());
            }
            word3(1, a, b)
        },
        EvaluationPlan::Square(inner) => {
            let a = collect_plan_occurrences(inner, nodes);
            proof {
                schedule::lemma_plan_sizes_one(inner.view());
                schedule::lemma_occurrences_len(inner.view());
                lemma_arithmetic_pair(inner.view(), inner.view());
                lemma_prints_pair(inner.view(), inner.view());
            }
            word2(2, a)
        },
        EvaluationPlan::Scale(inner, scalar) => {
            let a = collect_plan_occurrences(inner, nodes);
            proof {
                schedule::lemma_plan_sizes_one(inner.view());
                schedule::lemma_occurrences_len(inner.view());
                lemma_arithmetic_pair(inner.view(), inner.view());
                lemma_prints_pair(inner.view(), inner.view());
            }
            word3(3, a, scalar.0 as u64)
        },
        EvaluationPlan::Horner { base, coefficients } => {
            let a = collect_plan_occurrences(base, nodes);
            proof {
                schedule::lemma_plan_sizes_one(base.view());
                schedule::lemma_occurrences_len(base.view());
                lemma_arithmetic_pair(base.view(), base.view());
                lemma_prints_pair(base.view(), base.view());
            }
            let mut words: Vec<u64> = Vec::new();
            words.push(4);
            words.push(a);
            let ghost head = words@;
            assert(head =~= seq![4u64, a]);
            let mut i: usize = 0;
            assert(words@ =~= head + leaves_words(coefficients@.take(0)));
            while i < coefficients.len()
                invariant
                    i <= coefficients@.len(),
                    words@ == head + leaves_words(coefficients@.take(i as int)),
                decreases coefficients@.len() - i,
            {
                push_leaf(&mut words, coefficients[i]);
                i += 1;
                assert(coefficients@.take(i as int).drop_last() =~= coefficients@.take(i - 1));
                assert(words@ =~= head + leaves_words(coefficients@.take(i as int)));
            }
            assert(coefficients@.take(i as int) =~= coefficients@);
            fingerprint(words.as_slice())
        },
        EvaluationPlan::DistributePowers { work, base } => {
            collect_works(work, nodes);
            0
        },
        EvaluationPlan::Poly(leaf) => {
            let mut words: Vec<u64> = Vec::new();
            words.push(6);
            assert(words@ =~= seq![6u64]);
            push_leaf(&mut words, *leaf);
            fingerprint(words.as_slice())
        },
        EvaluationPlan::LinearTerm(scalar) => word2(7, scalar.0 as u64),
        EvaluationPlan::ConstantTerm(scalar) => word2(8, scalar.0 as u64),
        EvaluationPlan::CacheStore { slot, inner } => {
            collect_plan_occurrences(inner, nodes);
            proof {
                schedule::lemma_plan_sizes_one(inner.view());
                schedule::lemma_occurrences_len(inner.view());
            }
            0
        },
        EvaluationPlan::CacheLoad { slot } => 0,
    };
    assert(grows(start, nodes@, schedule::all_occurrences(kids)));
    let ghost listed = nodes@;
    let end: usize = nodes.len();
    nodes.set(index, PlanOccurrence { plan, end, fingerprint: print });
    proof {
        let list = schedule::occurrences(plan.view());
        schedule::lemma_all_occurrences_len(kids);
        assert forall|k: int|
            #![trigger list[k]]
            0 <= k < list.len() implies node_fits(nodes@[index + k], list[k], index + k) by {
            if k > 0 {
                assert(list[k] == schedule::all_occurrences(kids)[k - 1]);
                assert(nodes@[index + k] == listed[start.len() + (k - 1)]);
            }
        }
    }
    print
}

proof fn lemma_pair_occurrences(a: PlanView, b: PlanView)
    ensures
        schedule::all_occurrences(seq![a, b]) == schedule::occurrences(a) + schedule::occurrences(b),
        schedule::plan_sizes(seq![a, b]) == schedule::plan_size(a) + schedule::plan_size(b),
{
    schedule::lemma_plan_sizes_one(a);
    schedule::lemma_plan_sizes_one(b);
    schedule::lemma_plan_sizes_add(seq![a], seq![b]);
    assert(seq![a] + seq![b] =~= seq![a, b]);
}

/// One more list of operands.
proof fn lemma_grows_children<'a>(
    a: Seq<PlanOccurrence<'a>>,
    b: Seq<PlanOccurrence<'a>>,
    c: Seq<PlanOccurrence<'a>>,
    s: Seq<PlanView>,
    t: Seq<PlanView>,
)
    requires
        grows(a, b, schedule::all_occurrences(s)),
        grows(b, c, schedule::all_occurrences(t)),
    ensures
        grows(a, c, schedule::all_occurrences(s + t)),
{
    lemma_grows(a, b, c, schedule::all_occurrences(s), schedule::all_occurrences(t));
    schedule::lemma_plan_sizes_add(s, t);
}

fn collect_plans<'a>(list: &'a Vec<EvaluationPlan>, nodes: &mut Vec<PlanOccurrence<'a>>)
    ensures
        grows(old(nodes)@, final(nodes)@, schedule::all_occurrences(plan::plan_views(list@))),
    decreases list,
{
    let ghost start = nodes@;
    let mut i: usize = 0;
    proof {
        lemma_grows_none(start);
        assert(list@.take(0) =~= Seq::<EvaluationPlan>::empty());
    }
    while i < list.len()
        invariant
            i <= list@.len(),
            start == old(nodes)@,
            grows(start, nodes@, schedule::all_occurrences(plan::plan_views(list@.take(i as int)))),
            decreases_to!(*list => list@),
        decreases list@.len() - i,
    {
        let ghost mid = nodes@;
        let ghost done = plan::plan_views(list@.take(i as int));
        collect_plan_occurrences(&list[i], nodes);
        proof {
            plan::lemma_children_take_plans(list@, i as int);
            schedule::lemma_plan_sizes_one(list@[i as int].view());
            schedule::lemma_occurrences_len(list@[i as int].view());
            lemma_grows_children(start, mid, nodes@, done, seq![list@[i as int].view()]);
        }
        i += 1;
    }
    assert(list@.take(i as int) =~= list@);
}

fn collect_terms<'a>(list: &'a Vec<WeightedTerm>, nodes: &mut Vec<PlanOccurrence<'a>>)
    ensures
        grows(old(nodes)@, final(nodes)@, schedule::all_occurrences(plan::term_views(list@))),
    decreases list,
{
    let ghost start = nodes@;
    let mut i: usize = 0;
    proof {
        lemma_grows_none(start);
        assert(list@.take(0) =~= Seq::<WeightedTerm>::empty());
    }
    while i < list.len()
        invariant
            i <= list@.len(),
            start == old(nodes)@,
            grows(start, nodes@, schedule::all_occurrences(plan::term_views(list@.take(i as int)))),
            decreases_to!(*list => list@),
        decreases list@.len() - i,
    {
        let ghost mid = nodes@;
        let ghost done = plan::term_views(list@.take(i as int));
        collect_plan_occurrences(&list[i].term, nodes);
        proof {
            plan::lemma_children_take_terms(list@, i as int);
            schedule::lemma_plan_sizes_one(list@[i as int].term.view());
            schedule::lemma_occurrences_len(list@[i as int].term.view());
            lemma_grows_children(start, mid, nodes@, done, seq![list@[i as int].term.view()]);
        }
        i += 1;
    }
    assert(list@.take(i as int) =~= list@);
}

fn collect_factors<'a>(list: &'a Vec<FactorBodyWork>, nodes: &mut Vec<PlanOccurrence<'a>>)
    ensures
        grows(old(nodes)@, final(nodes)@, schedule::all_occurrences(plan::factors_children(list@))),
    decreases list,
{
    let ghost start = nodes@;
    let mut i: usize = 0;
    proof {
        lemma_grows_none(start);
        assert(list@.take(0) =~= Seq::<FactorBodyWork>::empty());
    }
    while i < list.len()
        invariant
            i <= list@.len(),
            start == old(nodes)@,
            grows(start, nodes@, schedule::all_occurrences(plan::factors_children(list@.take(i as int)))),
            decreases_to!(*list => list@),
        decreases list@.len() - i,
    {
        let ghost mid = nodes@;
        let ghost done = plan::factors_children(list@.take(i as int));
        collect_factor(&list[i], nodes);
        proof {
            plan::lemma_children_take_factors(list@, i as int);
            lemma_grows_children(start, mid, nodes@, done, plan::factor_children(list@[i as int]));
        }
        i += 1;
    }
    assert(list@.take(i as int) =~= list@);
}

fn collect_works<'a>(list: &'a Vec<DistributionWork>, nodes: &mut Vec<PlanOccurrence<'a>>)
    ensures
        grows(old(nodes)@, final(nodes)@, schedule::all_occurrences(plan::works_children(list@))),
    decreases list,
{
    let ghost start = nodes@;
    let mut i: usize = 0;
    proof {
        lemma_grows_none(start);
        assert(list@.take(0) =~= Seq::<DistributionWork>::empty());
    }
    while i < list.len()
        invariant
            i <= list@.len(),
            start == old(nodes)@,
            grows(start, nodes@, schedule::all_occurrences(plan::works_children(list@.take(i as int)))),
            decreases_to!(*list => list@),
        decreases list@.len() - i,
    {
        let ghost mid = nodes@;
        let ghost done = plan::works_children(list@.take(i as int));
        collect_work(&list[i], nodes);
        proof {
            plan::lemma_children_take_works(list@, i as int);
            lemma_grows_children(start, mid, nodes@, done, plan::work_children(list@[i as int]));
        }
        i += 1;
    }
    assert(list@.take(i as int) =~= list@);
}

fn collect_factor<'a>(work: &'a FactorBodyWork, nodes: &mut Vec<PlanOccurrence<'a>>)
    ensures
        grows(old(nodes)@, final(nodes)@, schedule::all_occurrences(plan::factor_children(*work))),
    decreases work,
{
    let ghost start = nodes@;
    match work {
        FactorBodyWork::Term(term) => {
            collect_plan_occurrences(&term.term, nodes);
            proof {
                schedule::lemma_plan_sizes_one(term.term.view());
                schedule::lemma_occurrences_len(term.term.view());
            }
        },
        FactorBodyWork::SharedFactor { factor, terms } => {
            collect_plan_occurrences(factor, nodes);
            let ghost mid = nodes@;
            collect_terms(terms, nodes);
            proof {
                schedule::lemma_plan_sizes_one(factor.view());
                schedule::lemma_occurrences_len(factor.view());
                lemma_grows_children(start, mid, nodes@, seq![factor.view()], plan::term_views(terms@));
            }
        },
    }
}

/// Lists the nodes of the bodies that a selector multiplies.
fn collect_factor_body_occurrences<'a>(
    plan: &'a FactorBodyPlan,
    nodes: &mut Vec<PlanOccurrence<'a>>,
)
    ensures
        grows(old(nodes)@, final(nodes)@, schedule::all_occurrences(plan::body_children(*plan))),
    decreases plan,
{
    match plan {
        FactorBodyPlan::Sequential(bodies) => collect_plans(bodies, nodes),
        FactorBodyPlan::Factored(work) => collect_factors(work, nodes),
    }
}

fn collect_runs<'a>(list: &'a Vec<SelectorFamilyRun>, nodes: &mut Vec<PlanOccurrence<'a>>)
    ensures
        grows(old(nodes)@, final(nodes)@, schedule::all_occurrences(plan::runs_children(list@))),
    decreases list,
{
    let ghost start = nodes@;
    let ghost mut done: Seq<PlanView> = Seq::empty();
    let mut i: usize = list.len();
    proof {
        lemma_grows_none(start);
        assert(list@.take(i as int) =~= list@);
        assert(done + plan::runs_children(list@) =~= plan::runs_children(list@));
        assert(schedule::all_occurrences(done) =~= Seq::<PlanView>::empty());
    }
    while i > 0
        invariant
            i <= list@.len(),
            start == old(nodes)@,
            plan::runs_children(list@) == done + plan::runs_children(list@.take(i as int)),
            grows(start, nodes@, schedule::all_occurrences(done)),
            decreases_to!(*list => list@),
        decreases i,
    {
        i -= 1;
        let ghost mid = nodes@;
        collect_factor_body_occurrences(&list[i].bodies, nodes);
        proof {
            let kids = plan::body_children(list@[i as int].bodies);
            plan::lemma_children_take_runs(list@, i as int);
            lemma_grows_children(start, mid, nodes@, done, kids);
            assert(done + (kids + plan::runs_children(list@.take(i as int))) =~= (done + kids)
                + plan::runs_children(list@.take(i as int)));
            done = done + kids;
        }
    }
    proof {
        assert(list@.take(0) =~= Seq::<SelectorFamilyRun>::empty());
        assert(done + plan::runs_children(list@.take(0)) =~= done);
    }
}

fn collect_work<'a>(work: &'a DistributionWork, nodes: &mut Vec<PlanOccurrence<'a>>)
    ensures
        grows(old(nodes)@, final(nodes)@, schedule::all_occurrences(plan::work_children(*work))),
    decreases work,
{
    let ghost start = nodes@;
    match work {
        DistributionWork::Term { term, power } => {
            collect_plan_occurrences(term, nodes);
            proof {
                schedule::lemma_plan_sizes_one(term.view());
                schedule::lemma_occurrences_len(term.view());
            }
        },
        DistributionWork::WeightedSharedFactor { factor, terms } => {
            collect_plan_occurrences(factor, nodes);
            let ghost mid = nodes@;
            collect_terms(terms, nodes);
            proof {
                schedule::lemma_plan_sizes_one(factor.view());
                schedule::lemma_occurrences_len(factor.view());
                lemma_grows_children(start, mid, nodes@, seq![factor.view()], plan::term_views(terms@));
            }
        },
        DistributionWork::SelectorFamily { query, runs } => collect_runs(runs, nodes),
    }
}

/// Only arithmetic is stored and loaded.
pub open spec fn acts_on_arithmetic(nodes: Seq<PlanView>, actions: Seq<Option<CacheAction>>) -> bool {
    forall|o: int| #[trigger] schedule::is_action(actions, o) ==> arithmetic(nodes[o])
}

} // verus!
