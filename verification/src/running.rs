//! What it means for a chunk of rows to be evaluated by a plan, row by row, with a
//! cache that is passed along.
use crate::ast::RowEnv;
use crate::field::Field;
use crate::plan;
use crate::plan::{PlanOp, PlanView};
use vstd::prelude::*;

verus! {

/// The scalars of a plan, the rows of a chunk, their number, and the number of cache
/// slots.
pub struct JobView {
    pub p: int,
    pub sv: Seq<int>,
    pub env: spec_fn(int) -> RowEnv,
    pub len: int,
    pub slots: int,
}

/// One row of a cache in which each slot holds `len` consecutive rows.
pub open spec fn cache_row<F: Field>(cache: Seq<F>, job: JobView, i: int) -> Seq<int> {
    Seq::new(job.slots as nat, |s: int| cache[s * job.len + i].val())
}

/// All rows belong to the field.
pub open spec fn job_fits(job: JobView) -> bool {
    &&& job.p > 2
    &&& job.len >= 0
    &&& job.slots >= 0
    &&& forall|i: int| 0 <= i < job.len ==> (#[trigger] (job.env)(i)).p == job.p
}

/// Row `i`: the value and the cache after it are those of the plan.
pub open spec fn ran_at(
    a: PlanView,
    job: JobView,
    v: int,
    before: Seq<int>,
    after: Seq<int>,
    i: int,
) -> bool {
    plan::cached_value(a, job.sv, (job.env)(i), before) == (v, after)
}

/// The rows `v` are the values of the plan, and the cache went from `c0` to `c1`.
pub open spec fn ran<F: Field>(
    a: PlanView,
    job: JobView,
    v: Seq<int>,
    c0: Seq<F>,
    c1: Seq<F>,
) -> bool {
    &&& v.len() == job.len
    &&& c0.len() == c1.len()
    &&& forall|i: int|
        0 <= i < job.len ==> #[trigger] ran_at(
            a,
            job,
            v[i],
            cache_row(c0, job, i),
            cache_row(c1, job, i),
            i,
        )
}

/// The values of the operands at row `i`, evaluated one after the other.
pub open spec fn row_values<F: Field>(s: Seq<PlanView>, job: JobView, c0: Seq<F>, i: int) -> Seq<
    int,
> {
    plan::cached_values(s, job.sv, (job.env)(i), cache_row(c0, job, i)).0
}

/// The operands were evaluated one after the other, and the cache went from `c0` to
/// `c1`.
pub open spec fn ran_all<F: Field>(
    s: Seq<PlanView>,
    job: JobView,
    c0: Seq<F>,
    c1: Seq<F>,
) -> bool {
    &&& c0.len() == c1.len()
    &&& forall|i: int|
        0 <= i < job.len ==> #[trigger] cache_row(c1, job, i) == plan::cached_values(
            s,
            job.sv,
            (job.env)(i),
            cache_row(c0, job, i),
        ).1
}

pub proof fn lemma_ran_none<F: Field>(job: JobView, c: Seq<F>)
    ensures
        ran_all(Seq::empty(), job, c, c),
        forall|i: int|
            #[trigger] row_values(Seq::<PlanView>::empty(), job, c, i) == Seq::<int>::empty(),
{
}

/// One operand after others.
pub proof fn lemma_ran_push<F: Field>(
    s: Seq<PlanView>,
    a: PlanView,
    job: JobView,
    v: Seq<int>,
    c0: Seq<F>,
    c1: Seq<F>,
    c2: Seq<F>,
)
    requires
        ran_all(s, job, c0, c1),
        ran(a, job, v, c1, c2),
    ensures
        ran_all(s + seq![a], job, c0, c2),
        forall|i: int|
            0 <= i < job.len ==> #[trigger] row_values(s + seq![a], job, c0, i) == row_values(
                s,
                job,
                c0,
                i,
            ).push(v[i]),
{
    let t = s + seq![a];
    assert(t.drop_last() =~= s);
    assert forall|i: int| 0 <= i < job.len implies #[trigger] cache_row(c2, job, i)
        == plan::cached_values(t, job.sv, (job.env)(i), cache_row(c0, job, i)).1 by {
        assert(cache_row(c1, job, i) == plan::cached_values(
            s,
            job.sv,
            (job.env)(i),
            cache_row(c0, job, i),
        ).1);
        assert(ran_at(a, job, v[i], cache_row(c1, job, i), cache_row(c2, job, i), i));
    }
    assert forall|i: int| 0 <= i < job.len implies #[trigger] row_values(t, job, c0, i)
        == row_values(s, job, c0, i).push(v[i]) by {
        assert(cache_row(c1, job, i) == plan::cached_values(
            s,
            job.sv,
            (job.env)(i),
            cache_row(c0, job, i),
        ).1);
        assert(ran_at(a, job, v[i], cache_row(c1, job, i), cache_row(c2, job, i), i));
    }
}

/// Operands after others.
pub proof fn lemma_ran_append<F: Field>(
    s: Seq<PlanView>,
    t: Seq<PlanView>,
    job: JobView,
    c0: Seq<F>,
    c1: Seq<F>,
    c2: Seq<F>,
)
    requires
        ran_all(s, job, c0, c1),
        ran_all(t, job, c1, c2),
    ensures
        ran_all(s + t, job, c0, c2),
        forall|i: int|
            0 <= i < job.len ==> #[trigger] row_values(s + t, job, c0, i) == row_values(
                s,
                job,
                c0,
                i,
            ) + row_values(t, job, c1, i),
{
    assert forall|i: int| 0 <= i < job.len implies #[trigger] cache_row(c2, job, i)
        == plan::cached_values(s + t, job.sv, (job.env)(i), cache_row(c0, job, i)).1 by {
        plan::lemma_cached_values_add(s, t, job.sv, (job.env)(i), cache_row(c0, job, i));
        assert(cache_row(c1, job, i) == plan::cached_values(
            s,
            job.sv,
            (job.env)(i),
            cache_row(c0, job, i),
        ).1);
    }
    assert forall|i: int| 0 <= i < job.len implies #[trigger] row_values(s + t, job, c0, i)
        == row_values(s, job, c0, i) + row_values(t, job, c1, i) by {
        plan::lemma_cached_values_add(s, t, job.sv, (job.env)(i), cache_row(c0, job, i));
        assert(cache_row(c1, job, i) == plan::cached_values(
            s,
            job.sv,
            (job.env)(i),
            cache_row(c0, job, i),
        ).1);
    }
}

/// A single operand.
pub proof fn lemma_ran_single<F: Field>(
    a: PlanView,
    job: JobView,
    v: Seq<int>,
    c0: Seq<F>,
    c1: Seq<F>,
)
    requires
        ran(a, job, v, c0, c1),
    ensures
        ran_all(seq![a], job, c0, c1),
        forall|i: int|
            0 <= i < job.len ==> #[trigger] row_values(seq![a], job, c0, i) == seq![v[i]],
{
    lemma_ran_none(job, c0);
    lemma_ran_push(Seq::empty(), a, job, v, c0, c0, c1);
    assert(Seq::<PlanView>::empty() + seq![a] =~= seq![a]);
    assert forall|i: int| 0 <= i < job.len implies #[trigger] row_values(seq![a], job, c0, i)
        == seq![v[i]] by {
        let e = Seq::<PlanView>::empty();
        assert(row_values(e + seq![a], job, c0, i) == row_values(e, job, c0, i).push(v[i]));
        assert(Seq::<int>::empty().push(v[i]) =~= seq![v[i]]);
    }
}

pub open spec fn plain_op(op: PlanOp) -> bool {
    !(op is Store) && !(op is Load)
}

/// A node whose operands were evaluated: its rows combine theirs.
pub proof fn lemma_ran_node<F: Field>(
    op: PlanOp,
    s: Seq<PlanView>,
    job: JobView,
    w: Seq<int>,
    c0: Seq<F>,
    c1: Seq<F>,
)
    requires
        job_fits(job),
        plain_op(op),
        ran_all(s, job, c0, c1),
        w.len() == job.len,
        forall|i: int|
            0 <= i < job.len ==> #[trigger] w[i] == plan::plan_combine(
                op,
                row_values(s, job, c0, i),
                job.sv,
                (job.env)(i),
            ) % job.p,
    ensures
        ran(PlanView { op, children: s }, job, w, c0, c1),
{
    let a = PlanView { op, children: s };
    assert forall|i: int| 0 <= i < job.len implies #[trigger] ran_at(
        a,
        job,
        w[i],
        cache_row(c0, job, i),
        cache_row(c1, job, i),
        i,
    ) by {
        assert((job.env)(i).p == job.p);
        assert(cache_row(c1, job, i) == plan::cached_values(
            s,
            job.sv,
            (job.env)(i),
            cache_row(c0, job, i),
        ).1);
        assert(w[i] == plan::plan_combine(op, row_values(s, job, c0, i), job.sv, (job.env)(i)) % job.p);
    }
}

pub proof fn lemma_ran_leaf<F: Field>(op: PlanOp, job: JobView, w: Seq<int>, c: Seq<F>)
    requires
        job_fits(job),
        plain_op(op),
        w.len() == job.len,
        forall|i: int|
            0 <= i < job.len ==> #[trigger] w[i] == plan::plan_combine(
                op,
                Seq::empty(),
                job.sv,
                (job.env)(i),
            ) % job.p,
    ensures
        ran(plan::plan_leaf(op), job, w, c, c),
{
    lemma_ran_none(job, c);
    assert forall|i: int| 0 <= i < job.len implies #[trigger] w[i] == plan::plan_combine(
        op,
        row_values(Seq::<PlanView>::empty(), job, c, i),
        job.sv,
        (job.env)(i),
    ) % job.p by {
        assert(row_values(Seq::<PlanView>::empty(), job, c, i) == Seq::<int>::empty());
    }
    lemma_ran_node(op, Seq::empty(), job, w, c, c);
}

pub proof fn lemma_ran_one<F: Field>(
    op: PlanOp,
    a: PlanView,
    job: JobView,
    v: Seq<int>,
    w: Seq<int>,
    c0: Seq<F>,
    c1: Seq<F>,
)
    requires
        job_fits(job),
        plain_op(op),
        ran(a, job, v, c0, c1),
        w.len() == job.len,
        forall|i: int|
            0 <= i < job.len ==> #[trigger] w[i] == plan::plan_combine(
                op,
                seq![v[i]],
                job.sv,
                (job.env)(i),
            ) % job.p,
    ensures
        ran(plan::plan_node1(op, a), job, w, c0, c1),
{
    lemma_ran_single(a, job, v, c0, c1);
    assert forall|i: int| 0 <= i < job.len implies #[trigger] w[i] == plan::plan_combine(
        op,
        row_values(seq![a], job, c0, i),
        job.sv,
        (job.env)(i),
    ) % job.p by {
        assert(row_values(seq![a], job, c0, i) == seq![v[i]]);
    }
    lemma_ran_node(op, seq![a], job, w, c0, c1);
}

pub proof fn lemma_ran_two<F: Field>(
    op: PlanOp,
    a: PlanView,
    b: PlanView,
    job: JobView,
    u: Seq<int>,
    v: Seq<int>,
    w: Seq<int>,
    c0: Seq<F>,
    c1: Seq<F>,
    c2: Seq<F>,
)
    requires
        job_fits(job),
        plain_op(op),
        ran(a, job, u, c0, c1),
        ran(b, job, v, c1, c2),
        w.len() == job.len,
        forall|i: int|
            0 <= i < job.len ==> #[trigger] w[i] == plan::plan_combine(
                op,
                seq![u[i], v[i]],
                job.sv,
                (job.env)(i),
            ) % job.p,
    ensures
        ran(plan::plan_node2(op, a, b), job, w, c0, c2),
{
    lemma_ran_single(a, job, u, c0, c1);
    lemma_ran_push(seq![a], b, job, v, c0, c1, c2);
    assert(seq![a] + seq![b] =~= seq![a, b]);
    assert forall|i: int| 0 <= i < job.len implies #[trigger] w[i] == plan::plan_combine(
        op,
        row_values(seq![a, b], job, c0, i),
        job.sv,
        (job.env)(i),
    ) % job.p by {
        assert(row_values(seq![a] + seq![b], job, c0, i) == row_values(seq![a], job, c0, i).push(
            v[i],
        ));
        assert(row_values(seq![a], job, c0, i) == seq![u[i]]);
        assert(seq![u[i]].push(v[i]) =~= seq![u[i], v[i]]);
    }
    lemma_ran_node(op, seq![a, b], job, w, c0, c2);
}

/// The rows of a slot.
pub open spec fn in_slot_rows(job: JobView, slot: int, k: int) -> bool {
    slot * job.len <= k < (slot + 1) * job.len
}

pub proof fn lemma_ran_store<F: Field>(
    slot: int,
    a: PlanView,
    job: JobView,
    v: Seq<int>,
    c0: Seq<F>,
    c1: Seq<F>,
    c2: Seq<F>,
)
    requires
        job_fits(job),
        0 <= slot < job.slots,
        ran(a, job, v, c0, c1),
        c1.len() == job.slots * job.len,
        c2.len() == c1.len(),
        forall|k: int|
            0 <= k < c2.len() ==> (#[trigger] c2[k]).val() == (if in_slot_rows(job, slot, k) {
                v[k - slot * job.len]
            } else {
                c1[k].val()
            }),
    ensures
        ran(plan::plan_node1(PlanOp::Store(slot), a), job, v, c0, c2),
{
    let whole = plan::plan_node1(PlanOp::Store(slot), a);
    assert forall|i: int| 0 <= i < job.len implies #[trigger] ran_at(
        whole,
        job,
        v[i],
        cache_row(c0, job, i),
        cache_row(c2, job, i),
        i,
    ) by {
        assert(ran_at(a, job, v[i], cache_row(c0, job, i), cache_row(c1, job, i), i));
        plan::lemma_cached_values_one(a, job.sv, (job.env)(i), cache_row(c0, job, i));
        let r1 = cache_row(c1, job, i);
        let r2 = cache_row(c2, job, i);
        assert forall|s: int| 0 <= s < job.slots implies r2[s] == r1.update(slot, v[i])[s] by {
            let k = s * job.len + i;
            lemma_slot_index(s, i, job.len, job.slots);
            if s == slot {
                assert((slot + 1) * job.len == slot * job.len + job.len) by (nonlinear_arith);
            } else if s < slot {
                assert((s + 1) * job.len == s * job.len + job.len) by (nonlinear_arith);
                assert((s + 1) * job.len <= slot * job.len) by (nonlinear_arith)
                    requires
                        s + 1 <= slot,
                        job.len >= 0,
                ;
            } else {
                assert((slot + 1) * job.len <= s * job.len) by (nonlinear_arith)
                    requires
                        slot + 1 <= s,
                        job.len >= 0,
                ;
            }
            assert(c2[k].val() == (if in_slot_rows(job, slot, k) {
                v[k - slot * job.len]
            } else {
                c1[k].val()
            }));
        }
        assert(r2 =~= r1.update(slot, v[i]));
    }
}

pub proof fn lemma_slot_index(s: int, i: int, len: int, slots: int)
    requires
        0 <= s < slots,
        0 <= i < len,
    ensures
        0 <= s * len + i < slots * len,
        s * len <= (slots - 1) * len,
{
    assert(s * len + i < slots * len) by (nonlinear_arith)
        requires
            s + 1 <= slots,
            0 <= i < len,
    ;
    assert(0 <= s * len) by (nonlinear_arith)
        requires
            0 <= s,
            0 <= len,
    ;
    assert(s * len <= (slots - 1) * len) by (nonlinear_arith)
        requires
            s <= slots - 1,
            0 <= len,
    ;
}

pub proof fn lemma_ran_load<F: Field>(slot: int, job: JobView, v: Seq<int>, c: Seq<F>)
    requires
        job_fits(job),
        0 <= slot < job.slots,
        v.len() == job.len,
        forall|i: int| 0 <= i < job.len ==> #[trigger] v[i] == c[slot * job.len + i].val(),
    ensures
        ran(plan::plan_leaf(PlanOp::Load(slot)), job, v, c, c),
{
    let whole = plan::plan_leaf(PlanOp::Load(slot));
    assert forall|i: int| 0 <= i < job.len implies #[trigger] ran_at(
        whole,
        job,
        v[i],
        cache_row(c, job, i),
        cache_row(c, job, i),
        i,
    ) by {
        assert(v[i] == c[slot * job.len + i].val());
    }
}

} // verus!
