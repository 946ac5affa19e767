//! Evaluation of a plan on one chunk of rows.
use crate::arith;
use crate::ast::{IndexedLeaf, RowEnv};
use crate::basis;
use crate::basis::{BasisOps, RotatedChunk};
use crate::domain::{DomainView, EvaluationDomain};
use crate::field::Field;
use crate::fold::ReusablePowerFold;
use crate::lowering;
use crate::plan;
use crate::plan::{
    DistributionWork, EvaluationPlan, FactorBodyPlan, FactorBodyWork, FactorShape, PlanOp,
    PlanView, RunShape, SelectorFamilyRun, WeightedTerm, WorkShape,
};
use crate::poly;
use crate::poly::Polynomial;
use crate::rows::{
    add_chunk, add_constant, add_plain_constant, add_scaled, copy_chunk, mul_chunk, scale_rows,
    scale_value, set_rows, set_scaled, square_rows, whole_chunk,
};
use crate::running;
use crate::running::JobView;
use crate::scalars::{BoundPlanScalars, ChallengeView, ScalarId};
use crate::scratch;
use vstd::prelude::*;

verus! {

/// A polynomial that an evaluator owns or reads from elsewhere.
pub enum PolySource<'a, F, B> {
    Borrowed(&'a Polynomial<F, B>),
    Owned(Polynomial<F, B>),
}

impl<'a, F, B> PolySource<'a, F, B> {
    pub open spec fn poly(&self) -> Polynomial<F, B> {
        match *self {
            PolySource::Borrowed(poly) => *poly,
            PolySource::Owned(poly) => poly,
        }
    }

    /// The polynomial.
    pub fn get(&self) -> (r: &Polynomial<F, B>)
        ensures
            *r == self.poly(),
    {
        match self {
            PolySource::Borrowed(poly) => poly,
            PolySource::Owned(poly) => poly,
        }
    }
}

/// The rows of the polynomials.
pub open spec fn poly_rows<'a, F: Field, B>(polys: Seq<PolySource<'a, F, B>>) -> Seq<Seq<int>> {
    Seq::new(polys.len(), |i: int| poly::vals(polys[i].poly().values@))
}

/// What an expression reads at one row.
pub open spec fn row_env<B: BasisOps>(
    p: int,
    domain: DomainView,
    polys: Seq<Seq<int>>,
    ch: ChallengeView,
    row: int,
) -> RowEnv {
    RowEnv {
        p,
        leaf: |leaf: IndexedLeaf|
            polys[leaf.index as int][basis::rotated_row(
                row,
                B::rotation_rows(domain, leaf.rotation),
                B::rows(domain) as int,
            )],
        unit: B::unit_at(row),
        lin: B::linear_at(domain, row),
        ch,
    }
}

/// The leaves that can be read from `count` polynomials.
pub open spec fn readable_leaves<B: BasisOps>(domain: DomainView, count: int) -> spec_fn(
    IndexedLeaf,
) -> bool {
    |leaf: IndexedLeaf| leaf.index < count && B::readable(domain, leaf.rotation)
}

/// What the evaluation of one chunk reads.
pub struct AstContext<'a, F: Field, B: BasisOps> {
    pub domain: &'a EvaluationDomain<F>,
    pub chunk_size: usize,
    pub chunk_index: usize,
    pub polys: &'a Vec<PolySource<'a, F, B>>,
    pub scalars: &'a BoundPlanScalars<F>,
    pub challenges: Ghost<ChallengeView>,
}

impl<'a, F: Field, B: BasisOps> AstContext<'a, F, B> {
    pub open spec fn env_at(&self, i: int) -> RowEnv {
        row_env::<B>(
            F::order(),
            self.domain.view(),
            poly_rows(self.polys@),
            self.challenges@,
            self.chunk_size * self.chunk_index + i,
        )
    }

    pub open spec fn job(&self, len: int, slots: int) -> JobView {
        JobView { p: F::order(), sv: self.scalars.view(), env: |i: int| self.env_at(i), len, slots }
    }

    /// The rows of the chunk are rows of all polynomials.
    pub open spec fn fits(&self, len: int) -> bool {
        &&& self.domain.sized()
        &&& self.scalars.wf()
        &&& self.chunk_size * self.chunk_index + len <= B::rows(self.domain.view())
        &&& B::rows(self.domain.view()) <= usize::MAX
        &&& forall|i: int|
            0 <= i < self.polys@.len() ==> (#[trigger] self.polys@[i]).poly().values@.len()
                == B::rows(self.domain.view())
    }

    /// A chunk of `len` rows can be evaluated with `slots` cached rows for each.
    pub open spec fn ready(&self, len: int, cached: int, slots: int) -> bool {
        &&& self.fits(len)
        &&& slots >= 0
        &&& cached == slots * len
    }

    /// The plan can be evaluated: it reads what there is, and multiplies only where a
    /// constant has the same value at every row.
    pub open spec fn accepts(&self, a: PlanView, len: int, slots: int) -> bool {
        &&& plan::plan_in_bounds(
            a,
            self.scalars.values@.len() as int,
            readable_leaves::<B>(self.domain.view(), self.polys@.len() as int),
            slots,
        )
        &&& (self.unit_rows(len) || lowering::mul_free(a))
    }

    pub open spec fn accepts_all(&self, s: Seq<PlanView>, len: int, slots: int) -> bool {
        forall|i: int| 0 <= i < s.len() ==> self.accepts(#[trigger] s[i], len, slots)
    }

    pub open spec fn unit_rows(&self, len: int) -> bool {
        forall|i: int| 0 <= i < len ==> (#[trigger] self.env_at(i)).unit == 1
    }

    /// The first row of the chunk.
    pub fn start(&self, Ghost(len): Ghost<int>) -> (r: usize)
        requires
            self.fits(len),
            len >= 0,
        ensures
            r == self.chunk_size * self.chunk_index,
            r + len <= usize::MAX,
    {
        proof {
            vstd::arithmetic::mul::lemma_mul_nonnegative(
                self.chunk_size as int,
                self.chunk_index as int,
            );
        }
        self.chunk_size * self.chunk_index
    }

    pub proof fn lemma_accepts(&self, a: PlanView, len: int, slots: int)
        requires
            self.accepts(a, len, slots),
        ensures
            self.accepts_all(a.children, len, slots),
            a.op == PlanOp::Mul ==> self.unit_rows(len),
            plan::op_in_bounds(
                a.op,
                self.scalars.values@.len() as int,
                readable_leaves::<B>(self.domain.view(), self.polys@.len() as int),
                slots,
            ),
    {
        plan::lemma_plans_in_bounds(
            a.children,
            self.scalars.values@.len() as int,
            readable_leaves::<B>(self.domain.view(), self.polys@.len() as int),
            slots,
        );
        lowering::lemma_all_mul_free(a.children);
    }

    pub proof fn lemma_job(&self, len: int, slots: int)
        requires
            len >= 0,
            slots >= 0,
        ensures
            running::job_fits(self.job(len, slots)),
            forall|s: int|
                0 <= s < self.scalars.values@.len() ==> 0 <= #[trigger] self.scalars.view()[s]
                    < F::order(),
    {
        F::lemma_order();
        assert forall|s: int| 0 <= s < self.scalars.values@.len() implies 0
            <= #[trigger] self.scalars.view()[s] < F::order() by {
            F::lemma_val(self.scalars.values@[s]);
        }
    }

    /// The rows of a polynomial are those of a plan that reads it.
    pub proof fn lemma_poly_ran(
        &self,
        leaf: IndexedLeaf,
        rows: Seq<F>,
        len: int,
        slots: int,
        c: Seq<F>,
    )
        requires
            len >= 0,
            slots >= 0,
            rows.len() == len,
            forall|i: int|
                0 <= i < len ==> (#[trigger] rows[i]).val() == (self.env_at(i).leaf)(leaf),
        ensures
            running::ran(plan::plan_leaf(PlanOp::Poly(leaf)), self.job(len, slots), poly::vals(rows), c, c),
    {
        let job = self.job(len, slots);
        self.lemma_job(len, slots);
        assert forall|i: int| 0 <= i < len implies #[trigger] poly::vals(rows)[i] == plan::plan_combine(
            PlanOp::Poly(leaf),
            Seq::empty(),
            job.sv,
            (job.env)(i),
        ) % job.p by {
            assert(rows[i].val() == (self.env_at(i).leaf)(leaf));
            F::lemma_val(rows[i]);
            arith::lemma_mod_small(rows[i].val(), job.p);
        }
        running::lemma_ran_leaf(PlanOp::Poly(leaf), job, poly::vals(rows), c);
    }

    /// The rows of a constant.
    pub open spec fn constant_rows(&self, s: int, len: int) -> Seq<int> {
        Seq::new(
            len as nat,
            |i: int| (self.scalars.view()[s] * self.env_at(i).unit) % F::order(),
        )
    }

    pub proof fn lemma_constant_ran(&self, s: int, len: int, slots: int, c: Seq<F>)
        requires
            len >= 0,
            slots >= 0,
        ensures
            running::ran(
                plan::plan_leaf(PlanOp::ConstantTerm(s)),
                self.job(len, slots),
                self.constant_rows(s, len),
                c,
                c,
            ),
    {
        self.lemma_job(len, slots);
        running::lemma_ran_leaf(
            PlanOp::ConstantTerm(s),
            self.job(len, slots),
            self.constant_rows(s, len),
            c,
        );
    }

    /// The rows `v`, multiplied by a scalar.
    pub open spec fn scaled_rows(&self, v: Seq<int>, s: int) -> Seq<int> {
        Seq::new(v.len(), |i: int| (v[i] * self.scalars.view()[s]) % F::order())
    }

    pub proof fn lemma_scaled_ran(
        &self,
        a: PlanView,
        v: Seq<int>,
        s: int,
        len: int,
        slots: int,
        c0: Seq<F>,
        c1: Seq<F>,
    )
        requires
            len >= 0,
            slots >= 0,
            running::ran(a, self.job(len, slots), v, c0, c1),
        ensures
            running::ran(
                plan::plan_node1(PlanOp::Scale(s), a),
                self.job(len, slots),
                self.scaled_rows(v, s),
                c0,
                c1,
            ),
    {
        self.lemma_job(len, slots);
        running::lemma_ran_one(
            PlanOp::Scale(s),
            a,
            self.job(len, slots),
            v,
            self.scaled_rows(v, s),
            c0,
            c1,
        );
    }

    /// Where constants are the same at every row, their rows are the scalar.
    pub proof fn lemma_unit_constant(&self, s: int, len: int)
        requires
            self.unit_rows(len),
            0 <= s < self.scalars.values@.len(),
        ensures
            forall|i: int|
                0 <= i < len ==> #[trigger] self.constant_rows(s, len)[i] == self.scalars.view()[s],
    {
        self.lemma_job(0, 0);
        assert forall|i: int| 0 <= i < len implies #[trigger] self.constant_rows(s, len)[i]
            == self.scalars.view()[s] by {
            assert(self.env_at(i).unit == 1);
            vstd::arithmetic::mul::lemma_mul_basics(self.scalars.view()[s]);
            arith::lemma_mod_small(self.scalars.view()[s], F::order());
        }
    }
}

/// A chunk of a registered polynomial.
fn leaf_chunk<'a, F: Field, B: BasisOps>(
    leaf: &IndexedLeaf,
    ctx: &AstContext<'a, F, B>,
    chunk_len: usize,
) -> (r: RotatedChunk<'a, F>)
    requires
        ctx.fits(chunk_len as int),
        readable_leaves::<B>(ctx.domain.view(), ctx.polys@.len() as int)(*leaf),
    ensures
        r.view().len() == chunk_len,
        forall|i: int|
            0 <= i < chunk_len ==> (#[trigger] r.view()[i]).val() == (ctx.env_at(i).leaf)(*leaf),
{
    assert(ctx.polys@[leaf.index as int].poly().values@.len() == B::rows(ctx.domain.view()));
    let polys = ctx.polys;
    let poly = polys[leaf.index].get();
    let r = B::rotated_chunk(
        ctx.domain,
        ctx.chunk_size,
        ctx.chunk_index,
        poly,
        leaf.rotation,
        chunk_len,
    );
    proof {
        assert forall|i: int| 0 <= i < chunk_len implies (#[trigger] r.view()[i]).val() == (
        ctx.env_at(i).leaf)(*leaf) by {
            let n = B::rows(ctx.domain.view()) as int;
            let at = basis::rotated_row(
                ctx.chunk_size * ctx.chunk_index + i,
                B::rotation_rows(ctx.domain.view(), leaf.rotation),
                n,
            );
            arith::lemma_mod_range(
                ctx.chunk_size * ctx.chunk_index + i + B::rotation_rows(
                    ctx.domain.view(),
                    leaf.rotation,
                ),
                n,
            );
            assert(r.view()[i] == poly.values@[at]);
            assert(poly_rows(ctx.polys@)[leaf.index as int][at] == poly.values@[at].val());
        }
    }
    r
}

/// Copies a chunk of a registered polynomial.
fn copy_leaf<'a, F: Field, B: BasisOps>(
    leaf: &IndexedLeaf,
    ctx: &AstContext<'a, F, B>,
    output: &mut [F],
)
    requires
        ctx.fits(old(output)@.len() as int),
        readable_leaves::<B>(ctx.domain.view(), ctx.polys@.len() as int)(*leaf),
    ensures
        final(output)@.len() == old(output)@.len(),
        forall|i: int|
            0 <= i < final(output)@.len() ==> (#[trigger] final(output)@[i]).val() == (ctx.env_at(
                i,
            ).leaf)(*leaf),
{
    let chunk = leaf_chunk(leaf, ctx, output.len());
    copy_chunk(output, &chunk);
}

/// Evaluates a plan, multiplied by a scalar.
fn recurse_scaled_into<'a, F: Field, B: BasisOps>(
    plan: &EvaluationPlan,
    id: ScalarId,
    ctx: &AstContext<'a, F, B>,
    output: &mut [F],
    cache: &mut [F],
    scratch: &mut [F],
    Ghost(slots): Ghost<int>,
)
    requires
        ctx.ready(old(output)@.len() as int, old(cache)@.len() as int, slots),
        ctx.accepts(plan.view(), old(output)@.len() as int, slots),
        old(scratch)@.len() >= plan.scratch() * old(output)@.len(),
        id.at() < ctx.scalars.values@.len(),
    ensures
        final(output)@.len() == old(output)@.len(),
        final(scratch)@.len() == old(scratch)@.len(),
        exists|v: Seq<int>| #[trigger]
            running::ran(
                plan.view(),
                ctx.job(old(output)@.len() as int, slots),
                v,
                old(cache)@,
                final(cache)@,
            ) && poly::vals(final(output)@) == ctx.scaled_rows(v, id.at()),
    decreases plan, 3nat,
{
    let (scalar, kind) = ctx.scalars.scale(id);
    let n: usize = output.len();
    if let EvaluationPlan::Poly(leaf) = plan {
        proof {
            ctx.lemma_accepts(plan.view(), n as int, slots);
        }
        let chunk = leaf_chunk(leaf, ctx, n);
        set_scaled(output, &chunk, scalar, kind);
        proof {
            ctx.lemma_poly_ran(*leaf, chunk.view(), n as int, slots, cache@);
            assert(poly::vals(output@) =~= ctx.scaled_rows(poly::vals(chunk.view()), id.at()));
        }
        return ;
    }
    recurse_into(plan, ctx, output, cache, scratch, Ghost(slots));
    let ghost v = poly::vals(output@);
    scale_rows(output, scalar, kind);
    proof {
        assert(poly::vals(output@) =~= ctx.scaled_rows(v, id.at()));
    }
}

proof fn lemma_room(k: nat, total: nat, len: nat, room: nat)
    requires
        k <= total,
        total * len <= room,
    ensures
        k * len <= room,
        k >= 1 ==> len <= room && (k - 1) * len <= room - len,
{
    assert(k * len <= total * len) by (nonlinear_arith)
        requires
            k <= total,
    ;
    if k >= 1 {
        assert(k * len == (k - 1) * len + len) by (nonlinear_arith);
        assert((k - 1) * len >= 0) by (nonlinear_arith)
            requires
                k >= 1,
                len >= 0,
        ;
    }
}

/// Evaluates a plan on a chunk of rows. `scratch` is preallocated workspace whose size
/// is derived from the plan.
pub fn recurse_into<'a, F: Field, B: BasisOps>(
    plan: &EvaluationPlan,
    ctx: &AstContext<'a, F, B>,
    output: &mut [F],
    cache: &mut [F],
    scratch: &mut [F],
    Ghost(slots): Ghost<int>,
)
    requires
        ctx.ready(old(output)@.len() as int, old(cache)@.len() as int, slots),
        ctx.accepts(plan.view(), old(output)@.len() as int, slots),
        old(scratch)@.len() >= plan.scratch() * old(output)@.len(),
    ensures
        final(output)@.len() == old(output)@.len(),
        final(scratch)@.len() == old(scratch)@.len(),
        running::ran(
            plan.view(),
            ctx.job(old(output)@.len() as int, slots),
            poly::vals(final(output)@),
            old(cache)@,
            final(cache)@,
        ),
    decreases plan, 2nat,
{
    let ghost len = output@.len() as int;
    proof {
        ctx.lemma_accepts(plan.view(), len, slots);
        ctx.lemma_job(len, slots);
    }
    match plan {
        EvaluationPlan::Poly(leaf) => {
            copy_leaf(leaf, ctx, output);
            proof {
                ctx.lemma_poly_ran(*leaf, output@, len, slots, cache@);
            }
        },
        EvaluationPlan::Add(_, _) => recurse_sum(plan, ctx, output, cache, scratch, Ghost(slots)),
        EvaluationPlan::Mul(_, _) => recurse_product(
            plan,
            ctx,
            output,
            cache,
            scratch,
            Ghost(slots),
        ),
        EvaluationPlan::Square(inner) => {
            proof {
                assert(plan.view().children[0] == inner.view());
            }
            recurse_into(inner, ctx, output, cache, scratch, Ghost(slots));
            let ghost v = poly::vals(output@);
            square_rows(output);
            proof {
                running::lemma_ran_one(
                    PlanOp::Square,
                    inner.view(),
                    ctx.job(len, slots),
                    v,
                    poly::vals(output@),
                    old(cache)@,
                    cache@,
                );
            }
        },
        EvaluationPlan::Scale(inner, scalar) => {
            proof {
                assert(plan.view().children[0] == inner.view());
            }
            recurse_scaled_into(inner, *scalar, ctx, output, cache, scratch, Ghost(slots));
            proof {
                let v = choose|v: Seq<int>| #[trigger]
                    running::ran(inner.view(), ctx.job(len, slots), v, old(cache)@, cache@) && poly::vals(output@)
                        == ctx.scaled_rows(v, scalar.at());
                ctx.lemma_scaled_ran(
                    inner.view(),
                    v,
                    scalar.at(),
                    len,
                    slots,
                    old(cache)@,
                    cache@,
                );
            }
        },
        EvaluationPlan::Horner { .. } => recurse_horner(
            plan,
            ctx,
            output,
            cache,
            scratch,
            Ghost(slots),
        ),
        EvaluationPlan::DistributePowers { .. } => recurse_distribution(
            plan,
            ctx,
            output,
            cache,
            scratch,
            Ghost(slots),
        ),
        EvaluationPlan::CacheStore { slot, inner } => {
            proof {
                assert(plan.view().children[0] == inner.view());
            }
            recurse_into(inner, ctx, output, cache, scratch, Ghost(slots));
            let ghost stored = cache@;
            store_rows(*slot, output, cache, Ghost(slots));
            proof {
                assert forall|k: int| 0 <= k < cache@.len() implies (#[trigger] cache@[k]).val()
                    == (if running::in_slot_rows(ctx.job(len, slots), *slot as int, k) {
                    poly::vals(output@)[k - *slot * len]
                } else {
                    stored[k].val()
                }) by {
                    assert((*slot + 1) * len == *slot * len + len) by (nonlinear_arith);
                }
                running::lemma_ran_store(
                    *slot as int,
                    inner.view(),
                    ctx.job(len, slots),
                    poly::vals(output@),
                    old(cache)@,
                    stored,
                    cache@,
                );
            }
        },
        EvaluationPlan::CacheLoad { slot } => {
            load_rows(*slot, output, cache, Ghost(slots));
            proof {
                running::lemma_ran_load(*slot as int, ctx.job(len, slots), poly::vals(output@), cache@);
            }
        },
        EvaluationPlan::LinearTerm(scalar) => {
            B::fill_linear(
                ctx.domain,
                ctx.chunk_size,
                ctx.chunk_index,
                ctx.scalars.get(*scalar),
                output,
            );
            proof {
                running::lemma_ran_leaf(
                    PlanOp::LinearTerm(scalar.at()),
                    ctx.job(len, slots),
                    poly::vals(output@),
                    cache@,
                );
            }
        },
        EvaluationPlan::ConstantTerm(scalar) => {
            B::fill_constant(ctx.start(Ghost(len)), ctx.scalars.get(*scalar), output);
            proof {
                ctx.lemma_constant_ran(scalar.at(), len, slots, cache@);
                assert(poly::vals(output@) =~= ctx.constant_rows(scalar.at(), len));
            }
        },
    }
}

/// Copies the rows to a slot of the cache.
fn store_rows<F: Field>(slot: usize, rows: &[F], cache: &mut [F], Ghost(slots): Ghost<int>)
    requires
        slot < slots,
        old(cache)@.len() == slots * rows@.len(),
    ensures
        final(cache)@.len() == old(cache)@.len(),
        forall|k: int|
            0 <= k < final(cache)@.len() ==> #[trigger] final(cache)@[k] == (if slot * rows@.len()
                <= k < (slot + 1) * rows@.len() {
                rows@[k - slot * rows@.len()]
            } else {
                old(cache)@[k]
            }),
{
    let n: usize = rows.len();
    let total: usize = cache.len();
    if n == 0 {
        return ;
    }
    proof {
        running::lemma_slot_index(slot as int, n - 1, n as int, slots);
        assert((slot + 1) * n == slot * n + n) by (nonlinear_arith);
    }
    let start: usize = slot * n;
    let mut i: usize = 0;
    while i < n
        invariant
            i <= n,
            n == rows@.len(),
            start == slot * n,
            (slot + 1) * n == start + n,
            start + n <= total,
            total == cache@.len(),
            cache@.len() == old(cache)@.len(),
            forall|k: int|
                0 <= k < cache@.len() ==> #[trigger] cache@[k] == (if start <= k < start + i {
                    rows@[k - start]
                } else {
                    old(cache)@[k]
                }),
        decreases n - i,
    {
        cache[start + i] = rows[i];
        i += 1;
    }
}

/// Copies a slot of the cache.
fn load_rows<F: Field>(slot: usize, output: &mut [F], cache: &[F], Ghost(slots): Ghost<int>)
    requires
        slot < slots,
        cache@.len() == slots * old(output)@.len(),
    ensures
        final(output)@.len() == old(output)@.len(),
        forall|i: int|
            0 <= i < final(output)@.len() ==> #[trigger] final(output)@[i] == cache@[slot * old(
                output)@.len() + i],
{
    let n: usize = output.len();
    let total: usize = cache.len();
    if n == 0 {
        return ;
    }
    proof {
        running::lemma_slot_index(slot as int, n - 1, n as int, slots);
    }
    let start: usize = slot * n;
    let mut i: usize = 0;
    while i < n
        invariant
            i <= n,
            n == output@.len(),
            n == old(output)@.len(),
            start == slot * n,
            start + n <= total,
            total == cache@.len(),
            forall|k: int| 0 <= k < i ==> #[trigger] output@[k] == cache@[start + k],
        decreases n - i,
    {
        output[i] = cache[start + i];
        i += 1;
    }
}

/// Evaluates a sum. A constant operand has no cache event, so evaluating its sibling
/// directly preserves the plan's cache order.
fn recurse_sum<'a, F: Field, B: BasisOps>(
    plan: &EvaluationPlan,
    ctx: &AstContext<'a, F, B>,
    output: &mut [F],
    cache: &mut [F],
    scratch: &mut [F],
    Ghost(slots): Ghost<int>,
)
    requires
        plan is Add,
        ctx.ready(old(output)@.len() as int, old(cache)@.len() as int, slots),
        ctx.accepts(plan.view(), old(output)@.len() as int, slots),
        old(scratch)@.len() >= plan.scratch() * old(output)@.len(),
    ensures
        final(output)@.len() == old(output)@.len(),
        final(scratch)@.len() == old(scratch)@.len(),
        running::ran(
            plan.view(),
            ctx.job(old(output)@.len() as int, slots),
            poly::vals(final(output)@),
            old(cache)@,
            final(cache)@,
        ),
    decreases plan, 1nat,
{
    match plan {
        EvaluationPlan::Add(a, b) => {
            let n: usize = output.len();
            let ghost len = n as int;
            let ghost job = ctx.job(len, slots);
            proof {
                ctx.lemma_accepts(plan.view(), len, slots);
                assert(plan.view().children[0] == a.view());
                assert(plan.view().children[1] == b.view());
                ctx.lemma_accepts(a.view(), len, slots);
                ctx.lemma_accepts(b.view(), len, slots);
                ctx.lemma_job(len, slots);
                lemma_room(a.scratch(), plan.scratch(), n as nat, scratch@.len());
                lemma_room(1 + b.scratch(), plan.scratch(), n as nat, scratch@.len());
            }
            if let EvaluationPlan::ConstantTerm(constant) = &**a {
                let scalar = ctx.scalars.get(*constant);
                let ghost u = ctx.constant_rows(constant.at(), len);
                proof {
                    ctx.lemma_constant_ran(constant.at(), len, slots, cache@);
                }
                if let EvaluationPlan::Scale(scaled_rhs, id) = &**b {
                    let (factor, kind) = ctx.scalars.scale(*id);
                    proof {
                        assert(b.view().children[0] == scaled_rhs.view());
                    }
                    recurse_into(scaled_rhs, ctx, output, cache, scratch, Ghost(slots));
                    let ghost v = poly::vals(output@);
                    add_constant::<F, B>(ctx.start(Ghost(len)), scalar, output, factor, kind);
                    proof {
                        let x = ctx.scaled_rows(v, id.at());
                        ctx.lemma_scaled_ran(
                            scaled_rhs.view(),
                            v,
                            id.at(),
                            len,
                            slots,
                            old(cache)@,
                            cache@,
                        );
                        running::lemma_ran_two(
                            PlanOp::Add,
                            a.view(),
                            b.view(),
                            job,
                            u,
                            x,
                            poly::vals(output@),
                            old(cache)@,
                            old(cache)@,
                            cache@,
                        );
                    }
                    return ;
                }
                recurse_into(b, ctx, output, cache, scratch, Ghost(slots));
                let ghost v = poly::vals(output@);
                add_plain_constant::<F, B>(ctx.start(Ghost(len)), scalar, output);
                proof {
                    running::lemma_ran_two(
                        PlanOp::Add,
                        a.view(),
                        b.view(),
                        job,
                        u,
                        v,
                        poly::vals(output@),
                        old(cache)@,
                        old(cache)@,
                        cache@,
                    );
                }
                return ;
            }
            recurse_into(a, ctx, output, cache, scratch, Ghost(slots));
            recurse_addend(
                plan,
                ctx,
                output,
                cache,
                scratch,
                Ghost(slots),
                Ghost(old(cache)@),
            );
        },
        _ => {},
    }
}

/// Adds the second operand of a sum to the first.
fn recurse_addend<'a, F: Field, B: BasisOps>(
    plan: &EvaluationPlan,
    ctx: &AstContext<'a, F, B>,
    output: &mut [F],
    cache: &mut [F],
    scratch: &mut [F],
    Ghost(slots): Ghost<int>,
    Ghost(c0): Ghost<Seq<F>>,
)
    requires
        plan is Add,
        ctx.ready(old(output)@.len() as int, old(cache)@.len() as int, slots),
        ctx.accepts(plan.view(), old(output)@.len() as int, slots),
        old(scratch)@.len() >= plan.scratch() * old(output)@.len(),
        running::ran(
            plan->Add_0.view(),
            ctx.job(old(output)@.len() as int, slots),
            poly::vals(old(output)@),
            c0,
            old(cache)@,
        ),
    ensures
        final(output)@.len() == old(output)@.len(),
        final(scratch)@.len() == old(scratch)@.len(),
        running::ran(
            plan.view(),
            ctx.job(old(output)@.len() as int, slots),
            poly::vals(final(output)@),
            c0,
            final(cache)@,
        ),
    decreases plan, 0nat,
{
    match plan {
        EvaluationPlan::Add(a, b) => {
            let n: usize = output.len();
            let ghost len = n as int;
            let ghost job = ctx.job(len, slots);
            let ghost u = poly::vals(output@);
            let ghost c1 = cache@;
            proof {
                ctx.lemma_accepts(plan.view(), len, slots);
                assert(plan.view().children[1] == b.view());
                ctx.lemma_accepts(b.view(), len, slots);
                ctx.lemma_job(len, slots);
                lemma_room(1 + b.scratch(), plan.scratch(), n as nat, scratch@.len());
            }
            let ghost mut v = Seq::<int>::empty();
            match &**b {
                EvaluationPlan::Scale(scaled_rhs, id) => {
                    let (scalar, kind) = ctx.scalars.scale(*id);
                    proof {
                        assert(b.view().children[0] == scaled_rhs.view());
                        ctx.lemma_accepts(scaled_rhs.view(), len, slots);
                    }
                    if let EvaluationPlan::ConstantTerm(constant) = &**scaled_rhs {
                        let c = scale_value(ctx.scalars.get(*constant), scalar, kind);
                        add_plain_constant::<F, B>(ctx.start(Ghost(len)), c, output);
                        proof {
                            let w = ctx.constant_rows(constant.at(), len);
                            v = ctx.scaled_rows(w, id.at());
                            ctx.lemma_constant_ran(constant.at(), len, slots, c1);
                            ctx.lemma_scaled_ran(
                                scaled_rhs.view(),
                                w,
                                id.at(),
                                len,
                                slots,
                                c1,
                                c1,
                            );
                            assert forall|i: int| 0 <= i < len implies (#[trigger] output@[i]).val()
                                == (u[i] + v[i]) % F::order() by {
                                lemma_constant_scaled(
                                    ctx.scalars.view()[constant.at()],
                                    ctx.scalars.view()[id.at()],
                                    ctx.env_at(i).unit,
                                    F::order(),
                                );
                            }
                        }
                    } else if let EvaluationPlan::Poly(leaf) = &**scaled_rhs {
                        let chunk = leaf_chunk(leaf, ctx, n);
                        add_scaled(output, &chunk, scalar, kind);
                        proof {
                            v = ctx.scaled_rows(poly::vals(chunk.view()), id.at());
                            ctx.lemma_poly_ran(*leaf, chunk.view(), len, slots, c1);
                            ctx.lemma_scaled_ran(
                                scaled_rhs.view(),
                                poly::vals(chunk.view()),
                                id.at(),
                                len,
                                slots,
                                c1,
                                c1,
                            );
                        }
                    } else {
                        let (rhs_values, rhs_scratch) = scratch.split_at_mut(n);
                        recurse_into(scaled_rhs, ctx, rhs_values, cache, rhs_scratch, Ghost(slots));
                        let chunk = whole_chunk(rhs_values);
                        add_scaled(output, &chunk, scalar, kind);
                        proof {
                            let w = poly::vals(chunk.view());
                            v = ctx.scaled_rows(w, id.at());
                            ctx.lemma_scaled_ran(
                                scaled_rhs.view(),
                                w,
                                id.at(),
                                len,
                                slots,
                                c1,
                                cache@,
                            );
                        }
                    }
                },
                EvaluationPlan::ConstantTerm(constant) => {
                    add_plain_constant::<F, B>(
                        ctx.start(Ghost(len)),
                        ctx.scalars.get(*constant),
                        output,
                    );
                    proof {
                        v = ctx.constant_rows(constant.at(), len);
                        ctx.lemma_constant_ran(constant.at(), len, slots, c1);
                    }
                },
                EvaluationPlan::Poly(leaf) => {
                    let chunk = leaf_chunk(leaf, ctx, n);
                    add_chunk(output, &chunk);
                    proof {
                        v = poly::vals(chunk.view());
                        ctx.lemma_poly_ran(*leaf, chunk.view(), len, slots, c1);
                    }
                },
                _ => {
                    let (rhs_values, rhs_scratch) = scratch.split_at_mut(n);
                    recurse_into(b, ctx, rhs_values, cache, rhs_scratch, Ghost(slots));
                    let chunk = whole_chunk(rhs_values);
                    add_chunk(output, &chunk);
                    proof {
                        v = poly::vals(chunk.view());
                    }
                },
            }
            proof {
                assert forall|i: int| 0 <= i < len implies #[trigger] poly::vals(output@)[i]
                    == plan::plan_combine(PlanOp::Add, seq![u[i], v[i]], job.sv, (job.env)(i))
                    % job.p by {
                    assert(output@[i].val() == (u[i] + v[i]) % F::order());
                }
                running::lemma_ran_two(
                    PlanOp::Add,
                    a.view(),
                    b.view(),
                    job,
                    u,
                    v,
                    poly::vals(output@),
                    c0,
                    c1,
                    cache@,
                );
            }
        },
        _ => {},
    }
}

proof fn lemma_constant_scaled(c: int, f: int, unit: int, p: int)
    requires
        p > 0,
    ensures
        (((c * f) % p) * unit) % p == (((c * unit) % p) * f) % p,
{
    arith::lemma_mod_mul(c * f, unit, p);
    arith::lemma_mod_mul(c * unit, f, p);
    assert((c * f) * unit == (c * unit) * f) by (nonlinear_arith);
}

/// Evaluates a product.
fn recurse_product<'a, F: Field, B: BasisOps>(
    plan: &EvaluationPlan,
    ctx: &AstContext<'a, F, B>,
    output: &mut [F],
    cache: &mut [F],
    scratch: &mut [F],
    Ghost(slots): Ghost<int>,
)
    requires
        plan is Mul,
        ctx.ready(old(output)@.len() as int, old(cache)@.len() as int, slots),
        ctx.accepts(plan.view(), old(output)@.len() as int, slots),
        old(scratch)@.len() >= plan.scratch() * old(output)@.len(),
    ensures
        final(output)@.len() == old(output)@.len(),
        final(scratch)@.len() == old(scratch)@.len(),
        running::ran(
            plan.view(),
            ctx.job(old(output)@.len() as int, slots),
            poly::vals(final(output)@),
            old(cache)@,
            final(cache)@,
        ),
    decreases plan, 0nat,
{
    match plan {
        EvaluationPlan::Mul(a, b) => {
            let n: usize = output.len();
            let ghost len = n as int;
            let ghost job = ctx.job(len, slots);
            let ghost p = F::order();
            let ghost c0 = cache@;
            proof {
                ctx.lemma_accepts(plan.view(), len, slots);
                assert(plan.view().children[0] == a.view());
                assert(plan.view().children[1] == b.view());
                ctx.lemma_accepts(a.view(), len, slots);
                ctx.lemma_accepts(b.view(), len, slots);
                ctx.lemma_job(len, slots);
                lemma_room(a.scratch(), plan.scratch(), n as nat, scratch@.len());
                lemma_room(1 + b.scratch(), plan.scratch(), n as nat, scratch@.len());
            }
            let ghost mut u = Seq::<int>::empty();
            let ghost mut v = Seq::<int>::empty();
            let ghost mut c1 = cache@;
            match (&**a, &**b) {
                (EvaluationPlan::ConstantTerm(constant), _) => {
                    recurse_scaled_into(b, *constant, ctx, output, cache, scratch, Ghost(slots));
                    proof {
                        let x = choose|v: Seq<int>| #[trigger]
                            running::ran(b.view(), job, v, c0, cache@) && poly::vals(output@) == ctx.scaled_rows(
                                v,
                                constant.at(),
                            );
                        u = ctx.constant_rows(constant.at(), len);
                        v = x;
                        ctx.lemma_constant_ran(constant.at(), len, slots, c0);
                        ctx.lemma_unit_constant(constant.at(), len);
                        assert forall|i: int| 0 <= i < len implies (#[trigger] output@[i]).val()
                            == (u[i] * v[i]) % p by {
                            assert(poly::vals(output@)[i] == ctx.scaled_rows(x, constant.at())[i]);
                            vstd::arithmetic::mul::lemma_mul_is_commutative(u[i], v[i]);
                        }
                    }
                },
                (_, EvaluationPlan::ConstantTerm(constant)) => {
                    recurse_scaled_into(a, *constant, ctx, output, cache, scratch, Ghost(slots));
                    proof {
                        let x = choose|v: Seq<int>| #[trigger]
                            running::ran(a.view(), job, v, c0, cache@) && poly::vals(output@) == ctx.scaled_rows(
                                v,
                                constant.at(),
                            );
                        u = x;
                        c1 = cache@;
                        v = ctx.constant_rows(constant.at(), len);
                        ctx.lemma_constant_ran(constant.at(), len, slots, cache@);
                        ctx.lemma_unit_constant(constant.at(), len);
                        assert forall|i: int| 0 <= i < len implies (#[trigger] output@[i]).val()
                            == (u[i] * v[i]) % p by {
                            assert(poly::vals(output@)[i] == ctx.scaled_rows(x, constant.at())[i]);
                        }
                    }
                },
                (_, EvaluationPlan::Poly(leaf)) => {
                    recurse_into(a, ctx, output, cache, scratch, Ghost(slots));
                    proof {
                        u = poly::vals(output@);
                        c1 = cache@;
                    }
                    let chunk = leaf_chunk(leaf, ctx, n);
                    mul_chunk(output, &chunk);
                    proof {
                        v = poly::vals(chunk.view());
                        ctx.lemma_poly_ran(*leaf, chunk.view(), len, slots, cache@);
                    }
                },
                (EvaluationPlan::Poly(leaf), _) => {
                    recurse_into(b, ctx, output, cache, scratch, Ghost(slots));
                    proof {
                        v = poly::vals(output@);
                    }
                    let chunk = leaf_chunk(leaf, ctx, n);
                    mul_chunk(output, &chunk);
                    proof {
                        u = poly::vals(chunk.view());
                        ctx.lemma_poly_ran(*leaf, chunk.view(), len, slots, c0);
                        assert forall|i: int| 0 <= i < len implies (#[trigger] output@[i]).val()
                            == (u[i] * v[i]) % p by {
                            vstd::arithmetic::mul::lemma_mul_is_commutative(u[i], v[i]);
                        }
                    }
                },
                (_, _) => {
                    recurse_into(a, ctx, output, cache, scratch, Ghost(slots));
                    proof {
                        u = poly::vals(output@);
                        c1 = cache@;
                    }
                    let (rhs_values, rhs_scratch) = scratch.split_at_mut(n);
                    recurse_into(b, ctx, rhs_values, cache, rhs_scratch, Ghost(slots));
                    let chunk = whole_chunk(rhs_values);
                    mul_chunk(output, &chunk);
                    proof {
                        v = poly::vals(chunk.view());
                    }
                },
            }
            proof {
                assert forall|i: int| 0 <= i < len implies #[trigger] poly::vals(output@)[i]
                    == plan::plan_combine(PlanOp::Mul, seq![u[i], v[i]], job.sv, (job.env)(i))
                    % job.p by {
                    assert(output@[i].val() == (u[i] * v[i]) % p);
                }
                running::lemma_ran_two(
                    PlanOp::Mul,
                    a.view(),
                    b.view(),
                    job,
                    u,
                    v,
                    poly::vals(output@),
                    c0,
                    c1,
                    cache@,
                );
            }
        },
        _ => {},
    }
}

/// Evaluates a polynomial with registered polynomials as coefficients.
fn recurse_horner<'a, F: Field, B: BasisOps>(
    plan: &EvaluationPlan,
    ctx: &AstContext<'a, F, B>,
    output: &mut [F],
    cache: &mut [F],
    scratch: &mut [F],
    Ghost(slots): Ghost<int>,
)
    requires
        plan is Horner,
        ctx.ready(old(output)@.len() as int, old(cache)@.len() as int, slots),
        ctx.accepts(plan.view(), old(output)@.len() as int, slots),
        old(scratch)@.len() >= plan.scratch() * old(output)@.len(),
    ensures
        final(output)@.len() == old(output)@.len(),
        final(scratch)@.len() == old(scratch)@.len(),
        running::ran(
            plan.view(),
            ctx.job(old(output)@.len() as int, slots),
            poly::vals(final(output)@),
            old(cache)@,
            final(cache)@,
        ),
    decreases plan, 0nat,
{
    match plan {
        EvaluationPlan::Horner { base, coefficients } => {
            let n: usize = output.len();
            let ghost len = n as int;
            let ghost job = ctx.job(len, slots);
            let ghost p = F::order();
            proof {
                ctx.lemma_accepts(plan.view(), len, slots);
                assert(plan.view().children[0] == base.view());
                ctx.lemma_job(len, slots);
                lemma_room(1 + base.scratch(), plan.scratch(), n as nat, scratch@.len());
                assert(plan::op_in_bounds(
                    plan.view().op,
                    ctx.scalars.values@.len() as int,
                    readable_leaves::<B>(ctx.domain.view(), ctx.polys@.len() as int),
                    slots,
                ));
                assert forall|i: int| 0 <= i < coefficients@.len() implies readable_leaves::<B>(
                    ctx.domain.view(),
                    ctx.polys@.len() as int,
                )(#[trigger] coefficients@[i]) by {
                    assert(plan.view().op->Horner_0[i] == coefficients@[i]);
                }
            }
            let count: usize = coefficients.len();
            copy_leaf(&coefficients[count - 1], ctx, output);
            let (base_values, rest) = scratch.split_at_mut(n);
            recurse_into(base, ctx, base_values, cache, rest, Ghost(slots));
            let chunk = whole_chunk(base_values);
            let ghost v = poly::vals(chunk.view());
            let mut at: usize = count - 1;
            proof {
                assert forall|i: int| 0 <= i < len implies (#[trigger] output@[i]).val()
                    == arith::poly_at(plan::leaf_values(coefficients@, ctx.env_at(i)).skip(at as int), v[i])
                    % p by {
                    lemma_horner_start(plan::leaf_values(coefficients@, ctx.env_at(i)), v[i]);
                    F::lemma_val(output@[i]);
                    arith::lemma_mod_small(output@[i].val(), p);
                }
            }
            while at > 0
                invariant
                    at < count,
                    count == coefficients@.len(),
                    n == output@.len(),
                    len == n,
                    p == F::order(),
                    p > 2,
                    ctx.fits(len),
                    chunk.view().len() == n,
                    v == poly::vals(chunk.view()),
                    forall|i: int|
                        0 <= i < coefficients@.len() ==> readable_leaves::<B>(
                            ctx.domain.view(),
                            ctx.polys@.len() as int,
                        )(#[trigger] coefficients@[i]),
                    forall|i: int|
                        0 <= i < len ==> (#[trigger] output@[i]).val() == arith::poly_at(
                            plan::leaf_values(coefficients@, ctx.env_at(i)).skip(at as int),
                            v[i],
                        ) % p,
                decreases at,
            {
                at -= 1;
                let ghost before = output@;
                mul_chunk(output, &chunk);
                let ghost scaled = output@;
                let next = leaf_chunk(&coefficients[at], ctx, n);
                add_chunk(output, &next);
                proof {
                    assert forall|i: int| 0 <= i < len implies (#[trigger] output@[i]).val()
                        == arith::poly_at(plan::leaf_values(coefficients@, ctx.env_at(i)).skip(at as int), v[i])
                        % p by {
                        let c = plan::leaf_values(coefficients@, ctx.env_at(i));
                        assert(before[i].val() == arith::poly_at(c.skip(at + 1), v[i]) % p);
                        assert(scaled[i].val() == (before[i].val() * v[i]) % p);
                        assert(output@[i].val() == (scaled[i].val() + next.view()[i].val()) % p);
                        assert(next.view()[i].val() == c[at as int]);
                        lemma_horner_step(c, at as int, v[i], p);
                    }
                }
            }
            proof {
                assert forall|i: int| 0 <= i < len implies #[trigger] poly::vals(output@)[i]
                    == plan::plan_combine(
                    PlanOp::Horner(coefficients@),
                    seq![v[i]],
                    job.sv,
                    (job.env)(i),
                ) % job.p by {
                    assert(output@[i].val() == arith::poly_at(
                        plan::leaf_values(coefficients@, ctx.env_at(i)).skip(0),
                        v[i],
                    ) % p);
                    assert(plan::leaf_values(coefficients@, ctx.env_at(i)).skip(0) =~= plan::leaf_values(
                        coefficients@,
                        ctx.env_at(i),
                    ));
                }
                running::lemma_ran_one(
                    PlanOp::Horner(coefficients@),
                    base.view(),
                    job,
                    v,
                    poly::vals(output@),
                    old(cache)@,
                    cache@,
                );
            }
        },
        _ => {},
    }
}

proof fn lemma_horner_start(c: Seq<int>, x: int)
    requires
        c.len() > 0,
    ensures
        arith::poly_at(c.skip(c.len() - 1), x) == c.last(),
{
    let s = c.skip(c.len() - 1);
    arith::lemma_poly_at_first(s, x);
    assert(s.skip(1) =~= Seq::<int>::empty());
    vstd::arithmetic::mul::lemma_mul_basics(x);
}

proof fn lemma_horner_step(c: Seq<int>, at: int, x: int, p: int)
    requires
        0 <= at < c.len(),
        p > 0,
    ensures
        ((((arith::poly_at(c.skip(at + 1), x) % p) * x) % p) + c[at]) % p == arith::poly_at(c.skip(at), x) % p,
{
    let r = arith::poly_at(c.skip(at + 1), x);
    let s = c.skip(at);
    arith::lemma_poly_at_first(s, x);
    assert(s.skip(1) =~= c.skip(at + 1));
    arith::lemma_mod_mul(r, x, p);
    arith::lemma_mod_add(r * x, c[at], p);
    vstd::arithmetic::mul::lemma_mul_is_commutative(r, x);
}

pub open spec fn fold_ready<F: Field>(fold: ReusablePowerFold<F>, len: int) -> bool {
    fold.wf() && fold.len() == len
}

pub open spec fn spare_ready<F: Field>(fold: Option<ReusablePowerFold<F>>, len: int) -> bool {
    fold is Some ==> fold_ready(fold->0, len)
}

proof fn lemma_weighted_push(powers: Seq<int>, v: Seq<int>, sv: Seq<int>, s: int, x: int)
    requires
        powers.len() == v.len(),
    ensures
        plan::weighted_sum(powers.push(s), v.push(x), sv) == plan::weighted_sum(powers, v, sv) + x * sv[s],
{
    assert(powers.push(s).drop_last() =~= powers);
    assert(v.push(x).drop_last() =~= v);
}

proof fn lemma_row_values_len<F: Field>(s: Seq<PlanView>, job: JobView, c0: Seq<F>, i: int)
    ensures
        running::row_values(s, job, c0, i).len() == s.len(),
{
    plan::lemma_cached_values_len(s, job.sv, (job.env)(i), running::cache_row(c0, job, i));
}

/// Evaluates terms, each multiplied by its scalar, and adds them up.
fn recurse_weighted_terms<'a, F: Field, B: BasisOps>(
    terms: &Vec<WeightedTerm>,
    ctx: &AstContext<'a, F, B>,
    output: &mut [F],
    cache: &mut [F],
    scratch: &mut [F],
    fold: &mut ReusablePowerFold<F>,
    Ghost(slots): Ghost<int>,
)
    requires
        ctx.ready(old(output)@.len() as int, old(cache)@.len() as int, slots),
        ctx.accepts_all(plan::term_views(terms@), old(output)@.len() as int, slots),
        forall|i: int|
            0 <= i < terms@.len() ==> (#[trigger] terms@[i]).power.at()
                < ctx.scalars.values@.len(),
        old(scratch)@.len() >= scratch::terms_scratch(terms@) * old(output)@.len(),
        fold_ready(*old(fold), old(output)@.len() as int),
    ensures
        final(output)@.len() == old(output)@.len(),
        final(scratch)@.len() == old(scratch)@.len(),
        fold_ready(*final(fold), old(output)@.len() as int),
        running::ran_all(
            plan::term_views(terms@),
            ctx.job(old(output)@.len() as int, slots),
            old(cache)@,
            final(cache)@,
        ),
        forall|i: int|
            0 <= i < final(output)@.len() ==> (#[trigger] final(output)@[i]).val() == plan::weighted_sum(
                plan::term_powers(terms@),
                running::row_values(
                    plan::term_views(terms@),
                    ctx.job(old(output)@.len() as int, slots),
                    old(cache)@,
                    i,
                ),
                ctx.scalars.view(),
            ) % F::order(),
    decreases terms, 1nat,
{
    let ghost len = output@.len() as int;
    let ghost job = ctx.job(len, slots);
    let ghost c0 = cache@;
    let ghost p = F::order();
    let n: usize = output.len();
    fold.reset();
    let mut k: usize = 0;
    proof {
        F::lemma_order();
        assert(terms@.take(0) =~= Seq::<WeightedTerm>::empty());
        running::lemma_ran_none(job, c0);
        assert(plan::term_powers(terms@.take(0)) =~= Seq::<int>::empty());
    }
    while k < terms.len()
        invariant
            k <= terms@.len(),
            decreases_to!(*terms => terms@),
            n == len,
            len == output@.len(),
            p == F::order(),
            p > 2,
            job == ctx.job(len, slots),
            ctx.ready(len, cache@.len() as int, slots),
            ctx.accepts_all(plan::term_views(terms@), len, slots),
            forall|i: int|
                0 <= i < terms@.len() ==> (#[trigger] terms@[i]).power.at()
                    < ctx.scalars.values@.len(),
            scratch@.len() >= scratch::terms_scratch(terms@) * len,
            scratch@.len() == old(scratch)@.len(),
            fold_ready(*fold, len),
            fold.folded@ <= k,
            running::ran_all(plan::term_views(terms@.take(k as int)), job, c0, cache@),
            forall|i: int|
                0 <= i < len ==> arith::eqm(
                    #[trigger] fold.total(i),
                    plan::weighted_sum(
                        plan::term_powers(terms@.take(k as int)),
                        running::row_values(plan::term_views(terms@.take(k as int)), job, c0, i),
                        ctx.scalars.view(),
                    ),
                    p,
                ),
        decreases terms@.len() - k,
    {
        let ghost done = terms@.take(k as int);
        let ghost before = *fold;
        let ghost c1 = cache@;
        proof {
            plan::lemma_term_views(terms@);
            assert(plan::term_views(terms@)[k as int] == terms@[k as int].term.view());
            scratch::lemma_terms_scratch(terms@, k as int);
            lemma_room(
                terms@[k as int].term.scratch(),
                scratch::terms_scratch(terms@),
                len as nat,
                scratch@.len(),
            );
        }
        recurse_into(
            &terms[k].term,
            ctx,
            fold.terms.as_mut_slice(),
            cache,
            scratch,
            Ghost(slots),
        );
        let ghost evaluated = *fold;
        fold.accumulate(ctx.scalars.get(terms[k].power));
        proof {
            let term = terms@[k as int];
            let v = poly::vals(evaluated.terms@);
            plan::lemma_children_take_terms(terms@, k as int);
            running::lemma_ran_push(plan::term_views(done), term.term.view(), job, v, c0, c1, cache@);
            plan::lemma_term_views(done);
            assert forall|i: int| 0 <= i < len implies arith::eqm(
                #[trigger] fold.total(i),
                plan::weighted_sum(
                    plan::term_powers(terms@.take(k + 1)),
                    running::row_values(plan::term_views(terms@.take(k + 1)), job, c0, i),
                    ctx.scalars.view(),
                ),
                p,
            ) by {
                let r = running::row_values(plan::term_views(done), job, c0, i);
                lemma_row_values_len(plan::term_views(done), job, c0, i);
                assert(running::row_values(plan::term_views(done) + seq![term.term.view()], job, c0, i) == r.push(
                    v[i],
                ));
                lemma_weighted_push(
                    plan::term_powers(done),
                    r,
                    ctx.scalars.view(),
                    term.power.at(),
                    v[i],
                );
                assert(before.total(i) == evaluated.total(i));
                arith::lemma_eqm_add(
                    evaluated.total(i),
                    plan::weighted_sum(plan::term_powers(done), r, ctx.scalars.view()),
                    v[i] * ctx.scalars.view()[term.power.at()],
                    v[i] * ctx.scalars.view()[term.power.at()],
                    p,
                );
            }
        }
        k += 1;
    }
    assert(terms@.take(k as int) =~= terms@);
    fold.finish_into(output);
}

proof fn lemma_factors_value_push(
    s: Seq<FactorShape>,
    v: Seq<int>,
    f: FactorShape,
    w: Seq<int>,
    sv: Seq<int>,
)
    requires
        v.len() == plan::factors_arity(s),
    ensures
        plan::factors_value(s.push(f), v + w, sv) == plan::factors_value(s, v, sv) + plan::factor_value(f, w, sv),
{
    assert(s.push(f).drop_last() =~= s);
    assert((v + w).take(v.len() as int) =~= v);
    assert((v + w).skip(v.len() as int) =~= w);
}

proof fn lemma_works_value_push(
    s: Seq<WorkShape>,
    v: Seq<int>,
    f: WorkShape,
    w: Seq<int>,
    base: int,
    sv: Seq<int>,
    env: RowEnv,
)
    requires
        v.len() == plan::works_arity(s),
    ensures
        plan::works_value(s.push(f), v + w, base, sv, env) == plan::works_value(s, v, base, sv, env)
            + plan::work_value(f, w, base, sv, env),
{
    assert(s.push(f).drop_last() =~= s);
    assert((v + w).take(v.len() as int) =~= v);
    assert((v + w).skip(v.len() as int) =~= w);
}

/// Evaluates a shared factor and its terms, and adds their product.
proof fn lemma_shared_ran<F: Field>(
    factor: PlanView,
    terms: Seq<PlanView>,
    job: JobView,
    f: Seq<int>,
    c0: Seq<F>,
    c1: Seq<F>,
    c2: Seq<F>,
)
    requires
        running::ran(factor, job, f, c0, c1),
        running::ran_all(terms, job, c1, c2),
    ensures
        running::ran_all(seq![factor] + terms, job, c0, c2),
        forall|i: int|
            0 <= i < job.len ==> (#[trigger] running::row_values(seq![factor] + terms, job, c0, i))[0] == f[i]
                && running::row_values(seq![factor] + terms, job, c0, i).skip(1) == running::row_values(
                terms,
                job,
                c1,
                i,
            ),
{
    running::lemma_ran_single(factor, job, f, c0, c1);
    running::lemma_ran_append(seq![factor], terms, job, c0, c1, c2);
    assert forall|i: int| 0 <= i < job.len implies (#[trigger] running::row_values(
        seq![factor] + terms,
        job,
        c0,
        i,
    ))[0] == f[i] && running::row_values(seq![factor] + terms, job, c0, i).skip(1) == running::row_values(
        terms,
        job,
        c1,
        i,
    ) by {
        assert(running::row_values(seq![factor], job, c0, i) == seq![f[i]]);
        assert((seq![f[i]] + running::row_values(terms, job, c1, i)).skip(1) =~= running::row_values(
            terms,
            job,
            c1,
            i,
        ));
    }
}

/// What a product of a factor and a weighted sum adds.
proof fn lemma_shared_total(t: int, f: int, sum: int, w: int, p: int)
    requires
        p > 0,
        sum == w % p,
    ensures
        arith::eqm(t + f * sum, t + f * w, p),
{
    arith::lemma_mod_range(w, p);
    arith::lemma_eqm_mul(f, f, sum, w, p);
    arith::lemma_eqm_add(t, t, f * sum, f * w, p);
}

/// Evaluates one piece of a factored body and adds it.
fn accumulate_factor<'a, F: Field, B: BasisOps>(
    work: &FactorBodyWork,
    ctx: &AstContext<'a, F, B>,
    cache: &mut [F],
    scratch: &mut [F],
    fold: &mut ReusablePowerFold<F>,
    spare: &mut Option<ReusablePowerFold<F>>,
    Ghost(slots): Ghost<int>,
)
    requires
        ctx.ready(old(fold).len() as int, old(cache)@.len() as int, slots),
        ctx.accepts_all(plan::factor_children(*work), old(fold).len() as int, slots),
        plan::factor_in_bounds(work.shape(), ctx.scalars.values@.len() as int),
        old(scratch)@.len() >= scratch::factor_scratch(*work) * old(fold).len(),
        old(fold).wf(),
        old(fold).folded@ < u64::MAX,
        spare_ready(*old(spare), old(fold).len() as int),
    ensures
        final(scratch)@.len() == old(scratch)@.len(),
        fold_ready(*final(fold), old(fold).len() as int),
        final(fold).folded@ <= old(fold).folded@ + 1,
        spare_ready(*final(spare), old(fold).len() as int),
        running::ran_all(
            plan::factor_children(*work),
            ctx.job(old(fold).len() as int, slots),
            old(cache)@,
            final(cache)@,
        ),
        forall|i: int|
            0 <= i < old(fold).len() ==> arith::eqm(
                #[trigger] final(fold).total(i),
                old(fold).total(i) + plan::factor_value(
                    work.shape(),
                    running::row_values(
                        plan::factor_children(*work),
                        ctx.job(old(fold).len() as int, slots),
                        old(cache)@,
                        i,
                    ),
                    ctx.scalars.view(),
                ),
                F::order(),
            ),
    decreases work, 1nat,
{
    let n: usize = fold.terms.len();
    let ghost len = n as int;
    let ghost job = ctx.job(len, slots);
    let ghost c0 = cache@;
    let ghost p = F::order();
    let ghost before = *fold;
    proof {
        F::lemma_order();
    }
    match work {
        FactorBodyWork::Term(term) => {
            proof {
                assert(plan::factor_children(*work)[0] == term.term.view());
            }
            recurse_into(
                &term.term,
                ctx,
                fold.terms.as_mut_slice(),
                cache,
                scratch,
                Ghost(slots),
            );
            let ghost evaluated = *fold;
            fold.accumulate(ctx.scalars.get(term.power));
            proof {
                running::lemma_ran_single(term.term.view(), job, poly::vals(evaluated.terms@), c0, cache@);
                assert forall|i: int| 0 <= i < len implies arith::eqm(
                    #[trigger] fold.total(i),
                    before.total(i) + plan::factor_value(
                        work.shape(),
                        running::row_values(plan::factor_children(*work), job, c0, i),
                        ctx.scalars.view(),
                    ),
                    p,
                ) by {
                    assert(before.total(i) == evaluated.total(i));
                    assert(running::row_values(seq![term.term.view()], job, c0, i) == seq![
                        poly::vals(evaluated.terms@)[i],
                    ]);
                }
            }
        },
        FactorBodyWork::SharedFactor { factor, terms } => {
            proof {
                plan::lemma_term_views(terms@);
                assert(plan::factor_children(*work)[0] == factor.view());
                assert(ctx.accepts_all(plan::term_views(terms@), len, slots)) by {
                    assert forall|i: int| 0 <= i < terms@.len() implies ctx.accepts(
                        #[trigger] plan::term_views(terms@)[i],
                        len,
                        slots,
                    ) by {
                        assert(plan::factor_children(*work)[i + 1] == plan::term_views(terms@)[i]);
                    }
                }
                assert forall|i: int| 0 <= i < terms@.len() implies (
                #[trigger] terms@[i]).power.at() < ctx.scalars.values@.len() by {
                    assert(work.shape()->Shared_0[i] == terms@[i].power.at());
                }
                lemma_room(
                    factor.scratch(),
                    scratch::factor_scratch(*work),
                    len as nat,
                    scratch@.len(),
                );
                lemma_room(
                    scratch::terms_scratch(terms@),
                    scratch::factor_scratch(*work),
                    len as nat,
                    scratch@.len(),
                );
            }
            recurse_into(
                factor,
                ctx,
                fold.factors.as_mut_slice(),
                cache,
                scratch,
                Ghost(slots),
            );
            let ghost c1 = cache@;
            if spare.is_none() {
                *spare = Some(ReusablePowerFold::new(n));
            }
            match spare {
                Some(weighted) => {
                    recurse_weighted_terms(
                        terms,
                        ctx,
                        fold.terms.as_mut_slice(),
                        cache,
                        scratch,
                        weighted,
                        Ghost(slots),
                    );
                },
                None => {},
            }
            let ghost evaluated = *fold;
            fold.accumulate_products();
            proof {
                let f = poly::vals(evaluated.factors@);
                lemma_shared_ran(factor.view(), plan::term_views(terms@), job, f, c0, c1, cache@);
                assert forall|i: int| 0 <= i < len implies arith::eqm(
                    #[trigger] fold.total(i),
                    before.total(i) + plan::factor_value(
                        work.shape(),
                        running::row_values(plan::factor_children(*work), job, c0, i),
                        ctx.scalars.view(),
                    ),
                    p,
                ) by {
                    let v = running::row_values(plan::factor_children(*work), job, c0, i);
                    let w = plan::weighted_sum(
                        plan::term_powers(terms@),
                        running::row_values(plan::term_views(terms@), job, c1, i),
                        ctx.scalars.view(),
                    );
                    assert(evaluated.terms@[i].val() == w % p);
                    assert(v[0] == f[i] && v.skip(1) == running::row_values(
                        plan::term_views(terms@),
                        job,
                        c1,
                        i,
                    ));
                    assert(before.total(i) == evaluated.total(i));
                    lemma_shared_total(
                        before.total(i),
                        f[i],
                        evaluated.terms@[i].val(),
                        w,
                        p,
                    );
                }
            }
        },
    }
}

/// Multiplies the rows by `base` and adds the terms.
fn horner_rows<F: Field>(output: &mut [F], base: F, terms: &[F])
    requires
        terms@.len() == old(output)@.len(),
    ensures
        final(output)@.len() == old(output)@.len(),
        forall|i: int|
            0 <= i < final(output)@.len() ==> (#[trigger] final(output)@[i]).val() == (old(
                output)@[i].val() * base.val() + terms@[i].val()) % F::order(),
{
    let n: usize = output.len();
    let mut i: usize = 0;
    while i < n
        invariant
            i <= n,
            n == output@.len(),
            n == old(output)@.len(),
            n == terms@.len(),
            forall|k: int| i <= k < n ==> #[trigger] output@[k] == old(output)@[k],
            forall|k: int|
                0 <= k < i ==> (#[trigger] output@[k]).val() == (old(output)@[k].val() * base.val()
                    + terms@[k].val()) % F::order(),
        decreases n - i,
    {
        let x = output[i];
        proof {
            F::lemma_order();
            arith::lemma_mod_add(x.val() * base.val(), terms@[i as int].val(), F::order());
        }
        output[i] = x.mul(base).add(terms[i]);
        i += 1;
    }
}

/// Evaluates the bodies of one selector.
fn recurse_factor_body<'a, F: Field, B: BasisOps>(
    plan: &FactorBodyPlan,
    base: F,
    ctx: &AstContext<'a, F, B>,
    output: &mut [F],
    cache: &mut [F],
    scratch: &mut [F],
    Ghost(slots): Ghost<int>,
)
    requires
        ctx.ready(old(output)@.len() as int, old(cache)@.len() as int, slots),
        ctx.accepts_all(plan::body_children(*plan), old(output)@.len() as int, slots),
        plan::body_in_bounds(plan.shape(), ctx.scalars.values@.len() as int),
        old(scratch)@.len() >= scratch::body_scratch(*plan) * old(output)@.len(),
    ensures
        final(output)@.len() == old(output)@.len(),
        final(scratch)@.len() == old(scratch)@.len(),
        running::ran_all(
            plan::body_children(*plan),
            ctx.job(old(output)@.len() as int, slots),
            old(cache)@,
            final(cache)@,
        ),
        forall|i: int|
            0 <= i < final(output)@.len() ==> (#[trigger] final(output)@[i]).val() == plan::body_value(
                plan.shape(),
                running::row_values(
                    plan::body_children(*plan),
                    ctx.job(old(output)@.len() as int, slots),
                    old(cache)@,
                    i,
                ),
                base.val(),
                ctx.scalars.view(),
            ) % F::order(),
    decreases plan, 1nat,
{
    match plan {
        FactorBodyPlan::Sequential(bodies) => {
            recurse_bodies(bodies, base, ctx, output, cache, scratch, Ghost(slots));
        },
        FactorBodyPlan::Factored(work) => {
            let n: usize = output.len();
            let ghost len = n as int;
            let ghost job = ctx.job(len, slots);
            let ghost c0 = cache@;
            let ghost p = F::order();
            let mut fold = ReusablePowerFold::<F>::new(n);
            let mut spare: Option<ReusablePowerFold<F>> = None;
            let mut k: usize = 0;
            proof {
                F::lemma_order();
                assert(work@.take(0) =~= Seq::<FactorBodyWork>::empty());
                running::lemma_ran_none(job, c0);
                assert(plan::factor_shapes(work@.take(0)) =~= Seq::<FactorShape>::empty());
            }
            while k < work.len()
                invariant
                    k <= work@.len(),
                    *plan == FactorBodyPlan::Factored(*work),
                    decreases_to!(*plan => work@),
                    n == len,
                    len == output@.len(),
                    p == F::order(),
                    p > 2,
                    job == ctx.job(len, slots),
                    ctx.ready(len, cache@.len() as int, slots),
                    ctx.accepts_all(plan::body_children(*plan), len, slots),
                    plan::body_in_bounds(plan.shape(), ctx.scalars.values@.len() as int),
                    scratch@.len() >= scratch::body_scratch(*plan) * len,
                    scratch@.len() == old(scratch)@.len(),
                    fold_ready(fold, len),
                    fold.folded@ <= k,
                    spare_ready(spare, len),
                    running::ran_all(plan::factors_children(work@.take(k as int)), job, c0, cache@),
                    forall|i: int|
                        0 <= i < len ==> arith::eqm(
                            #[trigger] fold.total(i),
                            plan::factors_value(
                                plan::factor_shapes(work@.take(k as int)),
                                running::row_values(plan::factors_children(work@.take(k as int)), job, c0, i),
                                ctx.scalars.view(),
                            ),
                            p,
                        ),
                decreases work@.len() - k,
            {
                let ghost done = work@.take(k as int);
                let ghost before = fold;
                let ghost c1 = cache@;
                proof {
                    lemma_factors_at(work@, k as int);
                    assert forall|i: int| 0 <= i < plan::factor_children(work@[k as int]).len() implies
                        ctx.accepts(#[trigger] plan::factor_children(work@[k as int])[i], len, slots) by {
                        assert(plan::body_children(*plan)[plan::factors_children(done).len() + i]
                            == plan::factor_children(work@[k as int])[i]);
                    }
                    let b = plan.shape();
                    assert(b->Factored_0[k as int] == work@[k as int].shape());
                    scratch::lemma_factors_scratch(work@, k as int);
                    lemma_room(
                        scratch::factor_scratch(work@[k as int]),
                        scratch::factors_scratch(work@),
                        len as nat,
                        scratch@.len(),
                    );
                }
                accumulate_factor(
                    &work[k],
                    ctx,
                    cache,
                    scratch,
                    &mut fold,
                    &mut spare,
                    Ghost(slots),
                );
                proof {
                    let w = work@[k as int];
                    plan::lemma_children_take_factors(work@, k as int);
                    running::lemma_ran_append(
                        plan::factors_children(done),
                        plan::factor_children(w),
                        job,
                        c0,
                        c1,
                        cache@,
                    );
                    plan::lemma_factors_children_len(done);
                    assert forall|i: int| 0 <= i < len implies arith::eqm(
                        #[trigger] fold.total(i),
                        plan::factors_value(
                            plan::factor_shapes(work@.take(k + 1)),
                            running::row_values(plan::factors_children(work@.take(k + 1)), job, c0, i),
                            ctx.scalars.view(),
                        ),
                        p,
                    ) by {
                        let r = running::row_values(plan::factors_children(done), job, c0, i);
                        let t = running::row_values(plan::factor_children(w), job, c1, i);
                        lemma_row_values_len(plan::factors_children(done), job, c0, i);
                        lemma_factors_value_push(
                            plan::factor_shapes(done),
                            r,
                            w.shape(),
                            t,
                            ctx.scalars.view(),
                        );
                        assert(running::row_values(
                            plan::factors_children(done) + plan::factor_children(w),
                            job,
                            c0,
                            i,
                        ) == r + t);
                        let x = plan::factor_value(w.shape(), t, ctx.scalars.view());
                        arith::lemma_eqm_add(
                            before.total(i),
                            plan::factors_value(plan::factor_shapes(done), r, ctx.scalars.view()),
                            x,
                            x,
                            p,
                        );
                    }
                }
                k += 1;
            }
            assert(work@.take(k as int) =~= work@);
            fold.finish_into(output);
        },
    }
}

proof fn lemma_factors_at(s: Seq<FactorBodyWork>, k: int)
    requires
        0 <= k < s.len(),
    ensures
        plan::factors_children(s.take(k)).len() + plan::factor_children(s[k]).len() <= plan::factors_children(
            s,
        ).len(),
        forall|i: int|
            0 <= i < plan::factor_children(s[k]).len() ==> #[trigger] plan::factors_children(
                s,
            )[plan::factors_children(s.take(k)).len() + i] == plan::factor_children(s[k])[i],
    decreases s.len(),
{
    if k == s.len() - 1 {
        assert(s.take(k) =~= s.drop_last());
    } else {
        lemma_factors_at(s.drop_last(), k);
        assert(s.drop_last().take(k) =~= s.take(k));
        let f = plan::factors_children(s.drop_last());
        assert forall|i: int| 0 <= i < plan::factor_children(s[k]).len() implies
            #[trigger] plan::factors_children(s)[plan::factors_children(s.take(k)).len() + i]
            == plan::factor_children(s[k])[i] by {
            assert(f[plan::factors_children(s.take(k)).len() + i] == plan::factor_children(
                s.drop_last()[k],
            )[i]);
        }
    }
}

/// Evaluates bodies one after the other, each after a multiplication by `base`.
fn recurse_bodies<'a, F: Field, B: BasisOps>(
    bodies: &Vec<EvaluationPlan>,
    base: F,
    ctx: &AstContext<'a, F, B>,
    output: &mut [F],
    cache: &mut [F],
    scratch: &mut [F],
    Ghost(slots): Ghost<int>,
)
    requires
        bodies@.len() > 0,
        ctx.ready(old(output)@.len() as int, old(cache)@.len() as int, slots),
        ctx.accepts_all(plan::plan_views(bodies@), old(output)@.len() as int, slots),
        old(scratch)@.len() >= (1 + scratch::plans_scratch(bodies@)) * old(output)@.len(),
    ensures
        final(output)@.len() == old(output)@.len(),
        final(scratch)@.len() == old(scratch)@.len(),
        running::ran_all(
            plan::plan_views(bodies@),
            ctx.job(old(output)@.len() as int, slots),
            old(cache)@,
            final(cache)@,
        ),
        forall|i: int|
            0 <= i < final(output)@.len() ==> (#[trigger] final(output)@[i]).val() == arith::descending(
                running::row_values(
                    plan::plan_views(bodies@),
                    ctx.job(old(output)@.len() as int, slots),
                    old(cache)@,
                    i,
                ),
                base.val(),
            ) % F::order(),
    decreases bodies, 1nat,
{
    let n: usize = output.len();
    let ghost len = n as int;
    let ghost job = ctx.job(len, slots);
    let ghost c0 = cache@;
    let ghost p = F::order();
    proof {
        F::lemma_order();
        plan::lemma_plan_views(bodies@);
        assert(plan::plan_views(bodies@)[0] == bodies@[0].view());
        scratch::lemma_plans_scratch(bodies@, 0);
        lemma_room(
            bodies@[0].scratch(),
            1 + scratch::plans_scratch(bodies@),
            len as nat,
            scratch@.len(),
        );
        lemma_room(
            1 + scratch::plans_scratch(bodies@),
            1 + scratch::plans_scratch(bodies@),
            len as nat,
            scratch@.len(),
        );
    }
    recurse_into(&bodies[0], ctx, output, cache, scratch, Ghost(slots));
    proof {
        let v = poly::vals(output@);
        running::lemma_ran_single(bodies@[0].view(), job, v, c0, cache@);
        assert(bodies@.take(1).drop_last() =~= Seq::<EvaluationPlan>::empty());
        plan::lemma_children_take_plans(bodies@, 0);
        assert(bodies@.take(0) =~= Seq::<EvaluationPlan>::empty());
        assert(plan::plan_views(bodies@.take(1)) =~= seq![bodies@[0].view()]);
        assert forall|i: int| 0 <= i < len implies (#[trigger] output@[i]).val() == arith::descending(
            running::row_values(plan::plan_views(bodies@.take(1)), job, c0, i),
            base.val(),
        ) % p by {
            let e = Seq::<int>::empty();
            assert(running::row_values(seq![bodies@[0].view()], job, c0, i) == seq![v[i]]);
            assert(e.push(v[i]) =~= seq![v[i]]);
            arith::lemma_descending_push(e, base.val(), v[i]);
            vstd::arithmetic::mul::lemma_mul_basics(base.val());
            F::lemma_val(output@[i]);
            arith::lemma_mod_small(v[i], p);
        }
    }
    let (term_values, recurse_scratch) = scratch.split_at_mut(n);
    recurse_more_bodies(
        bodies,
        base,
        ctx,
        output,
        term_values,
        cache,
        recurse_scratch,
        Ghost(slots),
        Ghost(c0),
    );
}

/// Evaluates the bodies after the first.
fn recurse_more_bodies<'a, F: Field, B: BasisOps>(
    bodies: &Vec<EvaluationPlan>,
    base: F,
    ctx: &AstContext<'a, F, B>,
    output: &mut [F],
    term_values: &mut [F],
    cache: &mut [F],
    recurse_scratch: &mut [F],
    Ghost(slots): Ghost<int>,
    Ghost(c0): Ghost<Seq<F>>,
)
    requires
        bodies@.len() > 0,
        ctx.ready(old(output)@.len() as int, old(cache)@.len() as int, slots),
        ctx.accepts_all(plan::plan_views(bodies@), old(output)@.len() as int, slots),
        old(term_values)@.len() == old(output)@.len(),
        old(recurse_scratch)@.len() >= scratch::plans_scratch(bodies@) * old(output)@.len(),
        running::ran_all(
            plan::plan_views(bodies@.take(1)),
            ctx.job(old(output)@.len() as int, slots),
            c0,
            old(cache)@,
        ),
        forall|i: int|
            0 <= i < old(output)@.len() ==> (#[trigger] old(output)@[i]).val() == arith::descending(
                running::row_values(
                    plan::plan_views(bodies@.take(1)),
                    ctx.job(old(output)@.len() as int, slots),
                    c0,
                    i,
                ),
                base.val(),
            ) % F::order(),
    ensures
        final(output)@.len() == old(output)@.len(),
        final(term_values)@.len() == old(term_values)@.len(),
        final(recurse_scratch)@.len() == old(recurse_scratch)@.len(),
        running::ran_all(
            plan::plan_views(bodies@),
            ctx.job(old(output)@.len() as int, slots),
            c0,
            final(cache)@,
        ),
        forall|i: int|
            0 <= i < final(output)@.len() ==> (#[trigger] final(output)@[i]).val() == arith::descending(
                running::row_values(
                    plan::plan_views(bodies@),
                    ctx.job(old(output)@.len() as int, slots),
                    c0,
                    i,
                ),
                base.val(),
            ) % F::order(),
    decreases bodies, 0nat,
{
    let n: usize = output.len();
    let ghost len = n as int;
    let ghost job = ctx.job(len, slots);
    let ghost p = F::order();
    proof {
        F::lemma_order();
    }
    let mut k: usize = 1;
    while k < bodies.len()
        invariant
            1 <= k <= bodies@.len(),
            decreases_to!(*bodies => bodies@),
            n == len,
            len == output@.len(),
            len == term_values@.len(),
            p == F::order(),
            p > 2,
            job == ctx.job(len, slots),
            ctx.ready(len, cache@.len() as int, slots),
            ctx.accepts_all(plan::plan_views(bodies@), len, slots),
            recurse_scratch@.len() >= scratch::plans_scratch(bodies@) * len,
            running::ran_all(plan::plan_views(bodies@.take(k as int)), job, c0, cache@),
            forall|i: int|
                0 <= i < len ==> (#[trigger] output@[i]).val() == arith::descending(
                    running::row_values(plan::plan_views(bodies@.take(k as int)), job, c0, i),
                    base.val(),
                ) % p,
            old(output)@.len() == n,
            old(term_values)@.len() == n,
            recurse_scratch@.len() == old(recurse_scratch)@.len(),
        decreases bodies@.len() - k,
    {
        let ghost done = bodies@.take(k as int);
        let ghost before = output@;
        let ghost c1 = cache@;
        proof {
            plan::lemma_plan_views(bodies@);
            assert(plan::plan_views(bodies@)[k as int] == bodies@[k as int].view());
            scratch::lemma_plans_scratch(bodies@, k as int);
            lemma_room(
                bodies@[k as int].scratch(),
                scratch::plans_scratch(bodies@),
                len as nat,
                recurse_scratch@.len(),
            );
        }
        recurse_into(&bodies[k], ctx, term_values, cache, recurse_scratch, Ghost(slots));
        horner_rows(output, base, term_values);
        proof {
            let v = poly::vals(term_values@);
            plan::lemma_children_take_plans(bodies@, k as int);
            running::lemma_ran_push(plan::plan_views(done), bodies@[k as int].view(), job, v, c0, c1, cache@);
            assert forall|i: int| 0 <= i < len implies (#[trigger] output@[i]).val() == arith::descending(
                running::row_values(plan::plan_views(bodies@.take(k + 1)), job, c0, i),
                base.val(),
            ) % p by {
                let r = running::row_values(plan::plan_views(done), job, c0, i);
                assert(running::row_values(
                    plan::plan_views(done) + seq![bodies@[k as int].view()],
                    job,
                    c0,
                    i,
                ) == r.push(v[i]));
                arith::lemma_descending_push(r, base.val(), v[i]);
                let d = arith::descending(r, base.val());
                assert(before[i].val() == d % p);
                arith::lemma_mod_mul(d, base.val(), p);
                arith::lemma_mod_add((d % p) * base.val(), v[i], p);
                arith::lemma_mod_add(d * base.val(), v[i], p);
            }
        }
        k += 1;
    }
    assert(bodies@.take(k as int) =~= bodies@);
}

// A selector family is evaluated from the last run to the first.

/// The number of operands of the runs from `j` on.
pub open spec fn tail_arity(s: Seq<RunShape>, j: int) -> nat
    decreases s.len() - j,
{
    if j >= s.len() {
        0
    } else {
        tail_arity(s, j + 1) + plan::body_arity(s[j].body)
    }
}

/// The operands of the runs from `j` on, in the order in which they are evaluated.
pub open spec fn tail_children(s: Seq<SelectorFamilyRun>, j: int) -> Seq<PlanView>
    decreases s.len() - j,
{
    if j >= s.len() {
        Seq::empty()
    } else {
        tail_children(s, j + 1) + plan::body_children(s[j].bodies)
    }
}

/// The weights of the runs from `j` on.
pub open spec fn tail_weights(
    s: Seq<RunShape>,
    v: Seq<int>,
    base: int,
    sv: Seq<int>,
    j: int,
) -> Seq<int>
    decreases s.len() - j,
{
    if j >= s.len() {
        Seq::empty()
    } else {
        let at = tail_arity(s, j + 1) as int;
        seq![
            plan::body_value(s[j].body, v.subrange(at, at + plan::body_arity(s[j].body)), base, sv)
                * sv[s[j].power],
        ] + tail_weights(s, v, base, sv, j + 1)
    }
}

/// `(j + 1 - q) * .. * (n - q)`.
pub open spec fn tail_product(n: int, q: int, j: int) -> int
    decreases n - j,
{
    if j >= n {
        1
    } else {
        tail_product(n, q, j + 1) * (j + 1 - q)
    }
}

/// The weights of the runs from `j` on, each with the factors of the others of them.
pub open spec fn tail_sum(w: Seq<int>, q: int, j: int) -> int
    decreases w.len(),
{
    if w.len() == 0 {
        0
    } else {
        tail_sum(w.skip(1), q, j + 1) * (j + 1 - q) + w[0] * tail_product(j + w.len(), q, j + 1)
    }
}

proof fn lemma_tail_children(s: Seq<SelectorFamilyRun>, j: int)
    requires
        0 <= j <= s.len(),
    ensures
        plan::runs_children(s) == tail_children(s, j) + plan::runs_children(s.take(j)),
        tail_children(s, j).len() == tail_arity(plan::run_shapes(s), j),
    decreases s.len() - j,
{
    if j == s.len() {
        assert(s.take(j) =~= s);
        assert(Seq::<PlanView>::empty() + plan::runs_children(s) =~= plan::runs_children(s));
    } else {
        lemma_tail_children(s, j + 1);
        plan::lemma_children_take_runs(s, j);
        plan::lemma_body_children_len(s[j].bodies);
        assert(tail_children(s, j + 1) + (plan::body_children(s[j].bodies) + plan::runs_children(s.take(j)))
            =~= (tail_children(s, j + 1) + plan::body_children(s[j].bodies)) + plan::runs_children(s.take(j)));
    }
}

/// Later values do not change the weights.
proof fn lemma_tail_weights_more(
    s: Seq<RunShape>,
    v: Seq<int>,
    t: Seq<int>,
    base: int,
    sv: Seq<int>,
    j: int,
)
    requires
        0 <= j <= s.len(),
        v.len() >= tail_arity(s, j),
    ensures
        tail_weights(s, v + t, base, sv, j) == tail_weights(s, v, base, sv, j),
    decreases s.len() - j,
{
    if j < s.len() {
        lemma_tail_weights_more(s, v, t, base, sv, j + 1);
        let at = tail_arity(s, j + 1) as int;
        let to = at + plan::body_arity(s[j].body);
        assert((v + t).subrange(at, to) =~= v.subrange(at, to));
    }
}

proof fn lemma_tail_weights(
    s: Seq<RunShape>,
    v: Seq<int>,
    base: int,
    sv: Seq<int>,
    j: int,
)
    requires
        0 <= j <= s.len(),
        v.len() >= tail_arity(s, 0),
    ensures
        plan::run_weights(s, v, base, sv) == plan::run_weights(
            s.take(j),
            v.skip(tail_arity(s, j) as int),
            base,
            sv,
        ) + tail_weights(s, v, base, sv, j),
        tail_arity(s, j) <= tail_arity(s, 0),
    decreases s.len() - j,
{
    if j == s.len() {
        assert(s.take(j) =~= s);
        assert(v.skip(0) =~= v);
        assert(plan::run_weights(s, v, base, sv) + Seq::<int>::empty() =~= plan::run_weights(s, v, base, sv));
    } else {
        lemma_tail_weights(s, v, base, sv, j + 1);
        lemma_tail_arity(s, 0, j);
        let at = tail_arity(s, j + 1) as int;
        let n = plan::body_arity(s[j].body) as int;
        let rest = v.skip(at);
        let t = s.take(j + 1);
        assert(t.drop_last() =~= s.take(j));
        assert(t.last() == s[j]);
        assert(rest.take(n) =~= v.subrange(at, at + n));
        assert(rest.skip(n) =~= v.skip(at + n));
        let x = plan::body_value(s[j].body, v.subrange(at, at + n), base, sv) * sv[s[j].power];
        let a = plan::run_weights(s.take(j), v.skip(at + n), base, sv);
        let b = tail_weights(s, v, base, sv, j + 1);
        assert(a.push(x) + b =~= a + (seq![x] + b));
    }
}

proof fn lemma_tail_arity(s: Seq<RunShape>, i: int, j: int)
    requires
        0 <= i <= j,
    ensures
        tail_arity(s, j) <= tail_arity(s, i),
    decreases j - i,
{
    if i < j && i < s.len() {
        lemma_tail_arity(s, i + 1, j);
    }
}

proof fn lemma_tail_sum(a: Seq<int>, b: Seq<int>, q: int)
    ensures
        plan::family_sum(a + b, q) == plan::family_sum(a, q) * tail_product(
            (a.len() + b.len()) as int,
            q,
            a.len() as int,
        ) + plan::root_factors(a.len(), q) * tail_sum(b, q, a.len() as int),
    decreases b.len(),
{
    let j = a.len() as int;
    let n = (a.len() + b.len()) as int;
    if b.len() == 0 {
        assert(a + b =~= a);
        vstd::arithmetic::mul::lemma_mul_basics(plan::family_sum(a, q));
        vstd::arithmetic::mul::lemma_mul_basics(plan::root_factors(a.len(), q));
    } else {
        let w = b[0];
        let c = b.skip(1);
        let d = a.push(w);
        assert(a + b =~= d + c);
        lemma_tail_sum(d, c, q);
        assert(d.drop_last() =~= a);
        let f = plan::family_sum(a, q);
        let r = plan::root_factors(a.len(), q);
        let t = tail_product(n, q, j + 1);
        let k = j + 1 - q;
        let u = tail_sum(c, q, j + 1);
        assert(plan::root_factors(d.len(), q) == r * k);
        assert((f * k + w * r) * t == f * (t * k) + r * (w * t)) by (nonlinear_arith);
        assert((r * k) * u + r * (w * t) == r * (u * k + w * t)) by (nonlinear_arith);
    }
}

/// Takes one run into the product and the sum of those after it.
fn combine_run<'a, F: Field>(
    body: &[F],
    product: &mut [F],
    sum: &mut [F],
    query: &RotatedChunk<'a, F>,
    root: F,
    power: F,
)
    requires
        body@.len() == query.view().len(),
        old(product)@.len() == query.view().len(),
        old(sum)@.len() == query.view().len(),
    ensures
        final(product)@.len() == query.view().len(),
        final(sum)@.len() == query.view().len(),
        forall|i: int|
            0 <= i < query.view().len() ==> (#[trigger] final(product)@[i]).val() == (old(
                product)@[i].val() * (root.val() - query.view()[i].val())) % F::order(),
        forall|i: int|
            0 <= i < query.view().len() ==> (#[trigger] final(sum)@[i]).val() == (old(sum)@[i].val()
                * (root.val() - query.view()[i].val()) + (body@[i].val() * power.val()) * old(
                product)@[i].val()) % F::order(),
{
    let n: usize = body.len();
    let mut i: usize = 0;
    while i < n
        invariant
            i <= n,
            n == body@.len(),
            n == query.view().len(),
            n == product@.len(),
            n == sum@.len(),
            n == old(product)@.len(),
            n == old(sum)@.len(),
            forall|k: int| i <= k < n ==> #[trigger] product@[k] == old(product)@[k],
            forall|k: int| i <= k < n ==> #[trigger] sum@[k] == old(sum)@[k],
            forall|k: int|
                0 <= k < i ==> (#[trigger] product@[k]).val() == (old(product)@[k].val() * (
                root.val() - query.view()[k].val())) % F::order(),
            forall|k: int|
                0 <= k < i ==> (#[trigger] sum@[k]).val() == (old(sum)@[k].val() * (root.val()
                    - query.view()[k].val()) + (body@[k].val() * power.val()) * old(
                    product)@[k].val()) % F::order(),
        decreases n - i,
    {
        let factor = root.sub(query.get(i));
        let weighted = body[i].mul(power);
        let p0 = product[i];
        let s0 = sum[i];
        proof {
            let p = F::order();
            F::lemma_order();
            let d = root.val() - query.view()[i as int].val();
            arith::lemma_mod_mul(p0.val(), d, p);
            arith::lemma_mod_mul(s0.val(), d, p);
            let w = body@[i as int].val() * power.val();
            arith::lemma_mod_mul(w, p0.val(), p);
            arith::lemma_mod_add(s0.val() * d, w * p0.val(), p);
        }
        product[i] = p0.mul(factor);
        sum[i] = s0.mul(factor).add(weighted.mul(p0));
        i += 1;
    }
}

proof fn lemma_runs_at(s: Seq<SelectorFamilyRun>, k: int)
    requires
        0 <= k < s.len(),
    ensures
        tail_children(s, k + 1).len() + plan::body_children(s[k].bodies).len() <= plan::runs_children(s).len(),
        forall|i: int|
            0 <= i < plan::body_children(s[k].bodies).len() ==> #[trigger] plan::runs_children(
                s,
            )[tail_children(s, k + 1).len() + i] == plan::body_children(s[k].bodies)[i],
{
    lemma_tail_children(s, k);
    let t = tail_children(s, k + 1);
    let b = plan::body_children(s[k].bodies);
    assert forall|i: int| 0 <= i < b.len() implies #[trigger] plan::runs_children(s)[t.len() + i]
        == b[i] by {
        assert(((t + b) + plan::runs_children(s.take(k)))[t.len() + i] == b[i]);
    }
}

/// One step of a selector family, up to multiples of `p`.
proof fn lemma_run_step(w: Seq<int>, x: int, b: int, power: int, q: int, root: int, j: int, p: int)
    requires
        p > 0,
        arith::eqm(x, b * power, p),
        arith::eqm(root, j + 1, p),
    ensures
        ((tail_product(j + 1 + w.len(), q, j + 1) % p) * (root - q)) % p == tail_product(
            j + 1 + w.len(),
            q,
            j,
        ) % p,
        ((tail_sum(w, q, j + 1) % p) * (root - q) + x * (tail_product(
            j + 1 + w.len(),
            q,
            j + 1,
        ) % p)) % p == tail_sum(seq![b * power] + w, q, j) % p,
{
    let t = tail_product(j + 1 + w.len(), q, j + 1);
    let u = tail_sum(w, q, j + 1);
    let k = j + 1 - q;
    let y = b * power;
    arith::lemma_eqm_sub(root, j + 1, q, q, p);
    arith::lemma_mod_range(t, p);
    arith::lemma_mod_range(u, p);
    arith::lemma_eqm_mul(t % p, t, root - q, k, p);
    arith::lemma_eqm_mul(u % p, u, root - q, k, p);
    arith::lemma_eqm_mul(x, y, t % p, t, p);
    arith::lemma_eqm_add((u % p) * (root - q), u * k, x * (t % p), y * t, p);
    let z = seq![y] + w;
    assert(z.skip(1) =~= w);
}

/// The weights of the runs from `j` on, at one row.
pub open spec fn row_weights<F: Field>(
    runs: Seq<SelectorFamilyRun>,
    base: int,
    job: JobView,
    c0: Seq<F>,
    i: int,
    j: int,
) -> Seq<int> {
    tail_weights(plan::run_shapes(runs), running::row_values(tail_children(runs, j), job, c0, i), base, job.sv, j)
}

/// The weights of the runs from `j` on, from those from `j + 1` on.
proof fn lemma_row_weights<F: Field>(
    runs: Seq<SelectorFamilyRun>,
    base: int,
    job: JobView,
    c0: Seq<F>,
    c1: Seq<F>,
    c2: Seq<F>,
    i: int,
    j: int,
)
    requires
        0 <= j < runs.len(),
        0 <= i < job.len,
        running::ran_all(tail_children(runs, j + 1), job, c0, c1),
        running::ran_all(plan::body_children(runs[j].bodies), job, c1, c2),
    ensures
        row_weights(runs, base, job, c0, i, j) == seq![
            plan::body_value(
                runs[j].bodies.shape(),
                running::row_values(plan::body_children(runs[j].bodies), job, c1, i),
                base,
                job.sv,
            ) * job.sv[runs[j].power.at()],
        ] + row_weights(runs, base, job, c0, i, j + 1),
        row_weights(runs, base, job, c0, i, j + 1).len() == runs.len() - j - 1,
{
    let shapes = plan::run_shapes(runs);
    let tail = tail_children(runs, j + 1);
    let own = plan::body_children(runs[j].bodies);
    running::lemma_ran_append(tail, own, job, c0, c1, c2);
    lemma_tail_children(runs, j + 1);
    plan::lemma_body_children_len(runs[j].bodies);
    let r = running::row_values(tail, job, c0, i);
    let t = running::row_values(own, job, c1, i);
    assert(running::row_values(tail + own, job, c0, i) == r + t);
    lemma_row_values_len(tail, job, c0, i);
    lemma_row_values_len(own, job, c1, i);
    let at = tail_arity(shapes, j + 1) as int;
    assert((r + t).subrange(at, at + plan::body_arity(shapes[j].body)) =~= t);
    lemma_tail_weights_more(shapes, r, t, base, job.sv, j + 1);
    lemma_tail_weights_len(shapes, r, base, job.sv, j + 1);
}

/// Evaluates the runs from the last to the first.
#[verifier::rlimit(60)]
fn fold_runs<'a, F: Field, B: BasisOps>(
    runs: &Vec<SelectorFamilyRun>,
    base: F,
    ctx: &AstContext<'a, F, B>,
    query_rows: &RotatedChunk<'a, F>,
    product: &mut [F],
    sum: &mut [F],
    body: &mut [F],
    cache: &mut [F],
    inner_scratch: &mut [F],
    Ghost(slots): Ghost<int>,
    Ghost(query): Ghost<IndexedLeaf>,
)
    requires
        ctx.ready(query_rows.view().len() as int, old(cache)@.len() as int, slots),
        ctx.accepts_all(plan::runs_children(runs@), query_rows.view().len() as int, slots),
        plan::work_in_bounds(
            WorkShape::Family(query, plan::run_shapes(runs@)),
            ctx.scalars.values@.len() as int,
            readable_leaves::<B>(ctx.domain.view(), ctx.polys@.len() as int),
        ),
        old(product)@.len() == query_rows.view().len(),
        old(sum)@.len() == query_rows.view().len(),
        old(body)@.len() == query_rows.view().len(),
        old(inner_scratch)@.len() >= scratch::runs_scratch(runs@) * query_rows.view().len(),
    ensures
        final(product)@.len() == query_rows.view().len(),
        final(sum)@.len() == query_rows.view().len(),
        final(body)@.len() == query_rows.view().len(),
        final(inner_scratch)@.len() == old(inner_scratch)@.len(),
        running::ran_all(
            tail_children(runs@, 0),
            ctx.job(query_rows.view().len() as int, slots),
            old(cache)@,
            final(cache)@,
        ),
        forall|i: int|
            0 <= i < final(sum)@.len() ==> (#[trigger] final(sum)@[i]).val() == tail_sum(
                row_weights(
                    runs@,
                    base.val(),
                    ctx.job(query_rows.view().len() as int, slots),
                    old(cache)@,
                    i,
                    0,
                ),
                query_rows.view()[i].val(),
                0,
            ) % F::order(),
    decreases runs, 0nat,
{
    let ghost len = query_rows.view().len() as int;
    let ghost job = ctx.job(len, slots);
    let ghost c0 = cache@;
    let ghost p = F::order();
    set_rows(product, F::one());
    set_rows(sum, F::zero());
    let count: usize = runs.len();
    let mut j: usize = count;
    proof {
        F::lemma_order();
        running::lemma_ran_none(job, c0);
        arith::lemma_mod_small(1, p);
        arith::lemma_mod_small(0, p);
    }
    while j > 0
        invariant
            j <= count,
            count == runs@.len(),
            decreases_to!(*runs => runs@),
            p == F::order(),
            p > 2,
            job == ctx.job(len, slots),
            ctx.ready(len, cache@.len() as int, slots),
            ctx.accepts_all(plan::runs_children(runs@), len, slots),
            plan::work_in_bounds(
                WorkShape::Family(query, plan::run_shapes(runs@)),
                ctx.scalars.values@.len() as int,
                readable_leaves::<B>(ctx.domain.view(), ctx.polys@.len() as int),
            ),
            query_rows.view().len() == len,
            product@.len() == len,
            sum@.len() == len,
            body@.len() == len,
            inner_scratch@.len() == old(inner_scratch)@.len(),
            inner_scratch@.len() >= scratch::runs_scratch(runs@) * len,
            running::ran_all(tail_children(runs@, j as int), job, c0, cache@),
            forall|i: int|
                0 <= i < len ==> (#[trigger] product@[i]).val() == tail_product(
                    count as int,
                    query_rows.view()[i].val(),
                    j as int,
                ) % p,
            forall|i: int|
                0 <= i < len ==> (#[trigger] sum@[i]).val() == tail_sum(
                    row_weights(runs@, base.val(), job, c0, i, j as int),
                    query_rows.view()[i].val(),
                    j as int,
                ) % p,
        decreases j,
    {
        j -= 1;
        let ghost c1 = cache@;
        let ghost product0 = product@;
        let ghost sum0 = sum@;
        let ghost run = runs@[j as int];
        proof {
            lemma_runs_at(runs@, j as int);
            assert forall|i: int| 0 <= i < plan::body_children(run.bodies).len() implies ctx.accepts(
                #[trigger] plan::body_children(run.bodies)[i],
                len,
                slots,
            ) by {
                assert(plan::runs_children(runs@)[tail_children(runs@, j + 1).len() + i]
                    == plan::body_children(run.bodies)[i]);
            }
            assert(0 <= plan::run_shapes(runs@)[j as int].power < ctx.scalars.values@.len());
            scratch::lemma_runs_scratch(runs@, j as int);
            lemma_room(
                scratch::body_scratch(run.bodies),
                scratch::runs_scratch(runs@),
                len as nat,
                inner_scratch@.len(),
            );
        }
        recurse_factor_body(&runs[j].bodies, base, ctx, body, cache, inner_scratch, Ghost(slots));
        let root = F::from_u64((j + 1) as u64);
        let power = ctx.scalars.get(runs[j].power);
        combine_run(body, product, sum, query_rows, root, power);
        proof {
            let own = plan::body_children(run.bodies);
            running::lemma_ran_append(tail_children(runs@, j + 1), own, job, c0, c1, cache@);
            arith::lemma_mod_range((j + 1) as int, p);
            assert forall|i: int| 0 <= i < len implies run_step_holds(
                #[trigger] product@[i],
                sum@[i],
                query_rows.view()[i].val(),
                row_weights(runs@, base.val(), job, c0, i, j as int),
                count as int,
                j as int,
            ) by {
                let q = query_rows.view()[i].val();
                lemma_row_weights(runs@, base.val(), job, c0, c1, cache@, i, j as int);
                let w = row_weights(runs@, base.val(), job, c0, i, j + 1);
                let b = plan::body_value(
                    run.bodies.shape(),
                    running::row_values(own, job, c1, i),
                    base.val(),
                    job.sv,
                );
                assert(body@[i].val() == b % p);
                arith::lemma_mod_range(b, p);
                arith::lemma_eqm_mul(b % p, b, power.val(), power.val(), p);
                assert(product0[i].val() == tail_product(count as int, q, j + 1) % p);
                assert(sum0[i].val() == tail_sum(w, q, j + 1) % p);
                lemma_run_step(
                    w,
                    body@[i].val() * power.val(),
                    b,
                    power.val(),
                    q,
                    root.val(),
                    j as int,
                    p,
                );
            }
            assert forall|i: int| 0 <= i < len implies (#[trigger] sum@[i]).val() == tail_sum(
                row_weights(runs@, base.val(), job, c0, i, j as int),
                query_rows.view()[i].val(),
                j as int,
            ) % p by {
                assert(run_step_holds(
                    product@[i],
                    sum@[i],
                    query_rows.view()[i].val(),
                    row_weights(runs@, base.val(), job, c0, i, j as int),
                    count as int,
                    j as int,
                ));
            }
        }
    }
}

/// What is known of a row when the runs from `j` on were evaluated.
spec fn run_step_holds<F: Field>(
    product: F,
    sum: F,
    q: int,
    w: Seq<int>,
    count: int,
    j: int,
) -> bool {
    &&& product.val() == tail_product(count, q, j) % F::order()
    &&& sum.val() == tail_sum(w, q, j) % F::order()
}

/// Adds a family of selectors that exclude each other.
fn accumulate_selector_family<'a, F: Field, B: BasisOps>(
    query: &IndexedLeaf,
    runs: &Vec<SelectorFamilyRun>,
    base: F,
    ctx: &AstContext<'a, F, B>,
    cache: &mut [F],
    scratch: &mut [F],
    fold: &mut ReusablePowerFold<F>,
    Ghost(slots): Ghost<int>,
)
    requires
        ctx.ready(old(fold).len() as int, old(cache)@.len() as int, slots),
        ctx.accepts_all(plan::runs_children(runs@), old(fold).len() as int, slots),
        plan::work_in_bounds(
            WorkShape::Family(*query, plan::run_shapes(runs@)),
            ctx.scalars.values@.len() as int,
            readable_leaves::<B>(ctx.domain.view(), ctx.polys@.len() as int),
        ),
        old(scratch)@.len() >= (runs@.len() + 1 + scratch::runs_scratch(runs@)) * old(fold).len(),
        old(fold).wf(),
    ensures
        final(scratch)@.len() == old(scratch)@.len(),
        fold_ready(*final(fold), old(fold).len() as int),
        final(fold).folded@ == old(fold).folded@,
        running::ran_all(
            plan::runs_children(runs@),
            ctx.job(old(fold).len() as int, slots),
            old(cache)@,
            final(cache)@,
        ),
        forall|i: int|
            0 <= i < old(fold).len() ==> arith::eqm(
                #[trigger] final(fold).total(i),
                old(fold).total(i) + plan::work_value(
                    WorkShape::Family(*query, plan::run_shapes(runs@)),
                    running::row_values(
                        plan::runs_children(runs@),
                        ctx.job(old(fold).len() as int, slots),
                        old(cache)@,
                        i,
                    ),
                    base.val(),
                    ctx.scalars.view(),
                    ctx.env_at(i),
                ),
                F::order(),
            ),
    decreases runs, 1nat,
{
    let n: usize = fold.terms.len();
    let ghost len = n as int;
    let ghost job = ctx.job(len, slots);
    let ghost c0 = cache@;
    let ghost p = F::order();
    let ghost before = *fold;
    let ghost shapes = plan::run_shapes(runs@);
    let ghost sv = ctx.scalars.view();
    proof {
        F::lemma_order();
        lemma_room(
            (3 + scratch::runs_scratch(runs@)) as nat,
            (runs@.len() + 1 + scratch::runs_scratch(runs@)) as nat,
            len as nat,
            scratch@.len(),
        );
        lemma_room(
            (2 + scratch::runs_scratch(runs@)) as nat,
            (2 + scratch::runs_scratch(runs@)) as nat,
            len as nat,
            (scratch@.len() - len) as nat,
        );
        lemma_room(
            (1 + scratch::runs_scratch(runs@)) as nat,
            (1 + scratch::runs_scratch(runs@)) as nat,
            len as nat,
            (scratch@.len() - 2 * len) as nat,
        );
    }
    let query_rows = leaf_chunk(query, ctx, n);
    let (product, rest) = scratch.split_at_mut(n);
    let (sum, rest) = rest.split_at_mut(n);
    let (body, inner_scratch) = rest.split_at_mut(n);
    fold_runs(
        runs,
        base,
        ctx,
        &query_rows,
        product,
        sum,
        body,
        cache,
        inner_scratch,
        Ghost(slots),
        Ghost(*query),
    );
    let sum_rows = whole_chunk(sum);
    copy_chunk(fold.terms.as_mut_slice(), &sum_rows);
    mul_chunk(fold.terms.as_mut_slice(), &query_rows);
    let ghost evaluated = *fold;
    fold.accumulate_addends();
    proof {
        lemma_tail_children(runs@, 0);
        assert(runs@.take(0) =~= Seq::<SelectorFamilyRun>::empty());
        assert(tail_children(runs@, 0) + Seq::<PlanView>::empty() =~= tail_children(runs@, 0));
        assert forall|i: int| 0 <= i < len implies arith::eqm(
            #[trigger] fold.total(i),
            before.total(i) + plan::work_value(
                WorkShape::Family(*query, shapes),
                running::row_values(plan::runs_children(runs@), job, c0, i),
                base.val(),
                sv,
                ctx.env_at(i),
            ),
            p,
        ) by {
            let q = query_rows.view()[i].val();
            let v = running::row_values(plan::runs_children(runs@), job, c0, i);
            lemma_row_values_len(plan::runs_children(runs@), job, c0, i);
            let w = tail_weights(shapes, v, base.val(), sv, 0);
            assert(w == row_weights(runs@, base.val(), job, c0, i, 0));
            lemma_tail_weights(shapes, v, base.val(), sv, 0);
            assert(shapes.take(0) =~= Seq::<RunShape>::empty());
            assert(Seq::<int>::empty() + w =~= w);
            lemma_tail_sum(Seq::empty(), w, q);
            let f = plan::family_sum(w, q);
            vstd::arithmetic::mul::lemma_mul_basics(tail_sum(w, q, 0));
            vstd::arithmetic::mul::lemma_mul_basics(tail_product(w.len() as int, q, 0));
            assert(f == tail_sum(w, q, 0));
            assert(sum_rows.view()[i].val() == f % p);
            assert(evaluated.terms@[i].val() == ((f % p) * q) % p);
            arith::lemma_mod_mul(f, q, p);
            arith::lemma_mod_range(f * q, p);
            assert(before.total(i) == evaluated.total(i));
            arith::lemma_eqm_add(
                before.total(i),
                before.total(i),
                evaluated.terms@[i].val(),
                f * q,
                p,
            );
        }
    }
}

proof fn lemma_tail_weights_len(
    s: Seq<RunShape>,
    v: Seq<int>,
    base: int,
    sv: Seq<int>,
    j: int,
)
    requires
        0 <= j <= s.len(),
    ensures
        tail_weights(s, v, base, sv, j).len() == s.len() - j,
    decreases s.len() - j,
{
    if j < s.len() {
        lemma_tail_weights_len(s, v, base, sv, j + 1);
    }
}

/// Evaluates one piece of a distribution and adds it.
fn accumulate_work<'a, F: Field, B: BasisOps>(
    work: &DistributionWork,
    base: F,
    ctx: &AstContext<'a, F, B>,
    cache: &mut [F],
    scratch: &mut [F],
    fold: &mut ReusablePowerFold<F>,
    spare: &mut Option<ReusablePowerFold<F>>,
    Ghost(slots): Ghost<int>,
)
    requires
        ctx.ready(old(fold).len() as int, old(cache)@.len() as int, slots),
        ctx.accepts_all(plan::work_children(*work), old(fold).len() as int, slots),
        plan::work_in_bounds(
            work.shape(),
            ctx.scalars.values@.len() as int,
            readable_leaves::<B>(ctx.domain.view(), ctx.polys@.len() as int),
        ),
        old(scratch)@.len() >= scratch::work_scratch(*work) * old(fold).len(),
        old(fold).wf(),
        old(fold).folded@ < u64::MAX,
        spare_ready(*old(spare), old(fold).len() as int),
    ensures
        final(scratch)@.len() == old(scratch)@.len(),
        fold_ready(*final(fold), old(fold).len() as int),
        final(fold).folded@ <= old(fold).folded@ + 1,
        spare_ready(*final(spare), old(fold).len() as int),
        running::ran_all(
            plan::work_children(*work),
            ctx.job(old(fold).len() as int, slots),
            old(cache)@,
            final(cache)@,
        ),
        forall|i: int|
            0 <= i < old(fold).len() ==> arith::eqm(
                #[trigger] final(fold).total(i),
                old(fold).total(i) + plan::work_value(
                    work.shape(),
                    running::row_values(
                        plan::work_children(*work),
                        ctx.job(old(fold).len() as int, slots),
                        old(cache)@,
                        i,
                    ),
                    base.val(),
                    ctx.scalars.view(),
                    ctx.env_at(i),
                ),
                F::order(),
            ),
    decreases work, 1nat,
{
    let n: usize = fold.terms.len();
    let ghost len = n as int;
    let ghost job = ctx.job(len, slots);
    let ghost c0 = cache@;
    let ghost p = F::order();
    let ghost before = *fold;
    proof {
        F::lemma_order();
    }
    match work {
        DistributionWork::Term { term, power } => {
            proof {
                assert(plan::work_children(*work)[0] == term.view());
            }
            recurse_into(term, ctx, fold.terms.as_mut_slice(), cache, scratch, Ghost(slots));
            let ghost evaluated = *fold;
            fold.accumulate(ctx.scalars.get(*power));
            proof {
                running::lemma_ran_single(term.view(), job, poly::vals(evaluated.terms@), c0, cache@);
                assert forall|i: int| 0 <= i < len implies arith::eqm(
                    #[trigger] fold.total(i),
                    before.total(i) + plan::work_value(
                        work.shape(),
                        running::row_values(plan::work_children(*work), job, c0, i),
                        base.val(),
                        ctx.scalars.view(),
                        ctx.env_at(i),
                    ),
                    p,
                ) by {
                    assert(before.total(i) == evaluated.total(i));
                    assert(running::row_values(seq![term.view()], job, c0, i) == seq![
                        poly::vals(evaluated.terms@)[i],
                    ]);
                }
            }
        },
        DistributionWork::WeightedSharedFactor { factor, terms } => {
            proof {
                plan::lemma_term_views(terms@);
                assert(plan::work_children(*work)[0] == factor.view());
                assert(ctx.accepts_all(plan::term_views(terms@), len, slots)) by {
                    assert forall|i: int| 0 <= i < terms@.len() implies ctx.accepts(
                        #[trigger] plan::term_views(terms@)[i],
                        len,
                        slots,
                    ) by {
                        assert(plan::work_children(*work)[i + 1] == plan::term_views(terms@)[i]);
                    }
                }
                assert forall|i: int| 0 <= i < terms@.len() implies (
                #[trigger] terms@[i]).power.at() < ctx.scalars.values@.len() by {
                    assert(work.shape()->Shared_0[i] == terms@[i].power.at());
                }
                lemma_room(factor.scratch(), scratch::work_scratch(*work), len as nat, scratch@.len());
                lemma_room(
                    scratch::terms_scratch(terms@),
                    scratch::work_scratch(*work),
                    len as nat,
                    scratch@.len(),
                );
            }
            recurse_into(
                factor,
                ctx,
                fold.factors.as_mut_slice(),
                cache,
                scratch,
                Ghost(slots),
            );
            let ghost c1 = cache@;
            if spare.is_none() {
                *spare = Some(ReusablePowerFold::new(n));
            }
            match spare {
                Some(weighted) => {
                    recurse_weighted_terms(
                        terms,
                        ctx,
                        fold.terms.as_mut_slice(),
                        cache,
                        scratch,
                        weighted,
                        Ghost(slots),
                    );
                },
                None => {},
            }
            let ghost evaluated = *fold;
            fold.accumulate_products();
            proof {
                let f = poly::vals(evaluated.factors@);
                lemma_shared_ran(factor.view(), plan::term_views(terms@), job, f, c0, c1, cache@);
                assert forall|i: int| 0 <= i < len implies arith::eqm(
                    #[trigger] fold.total(i),
                    before.total(i) + plan::work_value(
                        work.shape(),
                        running::row_values(plan::work_children(*work), job, c0, i),
                        base.val(),
                        ctx.scalars.view(),
                        ctx.env_at(i),
                    ),
                    p,
                ) by {
                    let v = running::row_values(plan::work_children(*work), job, c0, i);
                    let w = plan::weighted_sum(
                        plan::term_powers(terms@),
                        running::row_values(plan::term_views(terms@), job, c1, i),
                        ctx.scalars.view(),
                    );
                    assert(evaluated.terms@[i].val() == w % p);
                    assert(v[0] == f[i] && v.skip(1) == running::row_values(
                        plan::term_views(terms@),
                        job,
                        c1,
                        i,
                    ));
                    assert(before.total(i) == evaluated.total(i));
                    lemma_shared_total(
                        before.total(i),
                        f[i],
                        evaluated.terms@[i].val(),
                        w,
                        p,
                    );
                }
            }
        },
        DistributionWork::SelectorFamily { query, runs } => {
            accumulate_selector_family(query, runs, base, ctx, cache, scratch, fold, Ghost(slots));
        },
    }
}

proof fn lemma_works_at(s: Seq<DistributionWork>, k: int)
    requires
        0 <= k < s.len(),
    ensures
        plan::works_children(s.take(k)).len() + plan::work_children(s[k]).len() <= plan::works_children(s).len(),
        forall|i: int|
            0 <= i < plan::work_children(s[k]).len() ==> #[trigger] plan::works_children(
                s,
            )[plan::works_children(s.take(k)).len() + i] == plan::work_children(s[k])[i],
    decreases s.len(),
{
    if k == s.len() - 1 {
        assert(s.take(k) =~= s.drop_last());
    } else {
        lemma_works_at(s.drop_last(), k);
        assert(s.drop_last().take(k) =~= s.take(k));
        let f = plan::works_children(s.drop_last());
        assert forall|i: int| 0 <= i < plan::work_children(s[k]).len() implies #[trigger] plan::works_children(
            s,
        )[plan::works_children(s.take(k)).len() + i] == plan::work_children(s[k])[i] by {
            assert(f[plan::works_children(s.take(k)).len() + i] == plan::work_children(s.drop_last()[k])[i]);
        }
    }
}

/// Evaluates a sum of pieces, each with its scalars.
fn recurse_distribution<'a, F: Field, B: BasisOps>(
    plan: &EvaluationPlan,
    ctx: &AstContext<'a, F, B>,
    output: &mut [F],
    cache: &mut [F],
    scratch: &mut [F],
    Ghost(slots): Ghost<int>,
)
    requires
        plan is DistributePowers,
        ctx.ready(old(output)@.len() as int, old(cache)@.len() as int, slots),
        ctx.accepts(plan.view(), old(output)@.len() as int, slots),
        old(scratch)@.len() >= plan.scratch() * old(output)@.len(),
    ensures
        final(output)@.len() == old(output)@.len(),
        final(scratch)@.len() == old(scratch)@.len(),
        running::ran(
            plan.view(),
            ctx.job(old(output)@.len() as int, slots),
            poly::vals(final(output)@),
            old(cache)@,
            final(cache)@,
        ),
    decreases plan, 1nat,
{
    match plan {
        EvaluationPlan::DistributePowers { work, base } => {
            let n: usize = output.len();
            let ghost len = n as int;
            let ghost job = ctx.job(len, slots);
            let ghost c0 = cache@;
            let ghost p = F::order();
            let ghost sv = ctx.scalars.view();
            proof {
                F::lemma_order();
                ctx.lemma_accepts(plan.view(), len, slots);
                ctx.lemma_job(len, slots);
            }
            let base_value = ctx.scalars.get(*base);
            let mut fold = ReusablePowerFold::<F>::new(n);
            let mut spare: Option<ReusablePowerFold<F>> = None;
            let mut k: usize = 0;
            proof {
                assert(work@.take(0) =~= Seq::<DistributionWork>::empty());
                running::lemma_ran_none(job, c0);
                assert(plan::work_shapes(work@.take(0)) =~= Seq::<WorkShape>::empty());
            }
            while k < work.len()
                invariant
                    k <= work@.len(),
                    *plan == (EvaluationPlan::DistributePowers { work: *work, base: *base }),
                    decreases_to!(*plan => work@),
                    n == len,
                    len == output@.len(),
                    p == F::order(),
                    p > 2,
                    job == ctx.job(len, slots),
                    sv == ctx.scalars.view(),
                    base_value.val() == sv[base.at()],
                    ctx.ready(len, cache@.len() as int, slots),
                    ctx.accepts_all(plan::works_children(work@), len, slots),
                    plan::op_in_bounds(
                        plan.view().op,
                        ctx.scalars.values@.len() as int,
                        readable_leaves::<B>(ctx.domain.view(), ctx.polys@.len() as int),
                        slots,
                    ),
                    scratch@.len() >= scratch::works_scratch(work@) * len,
                    scratch@.len() == old(scratch)@.len(),
                    fold_ready(fold, len),
                    fold.folded@ <= k,
                    spare_ready(spare, len),
                    running::ran_all(plan::works_children(work@.take(k as int)), job, c0, cache@),
                    forall|i: int|
                        0 <= i < len ==> arith::eqm(
                            #[trigger] fold.total(i),
                            plan::works_value(
                                plan::work_shapes(work@.take(k as int)),
                                running::row_values(plan::works_children(work@.take(k as int)), job, c0, i),
                                sv[base.at()],
                                sv,
                                ctx.env_at(i),
                            ),
                            p,
                        ),
                decreases work@.len() - k,
            {
                let ghost done = work@.take(k as int);
                let ghost before = fold;
                let ghost c1 = cache@;
                proof {
                    lemma_works_at(work@, k as int);
                    assert forall|i: int| 0 <= i < plan::work_children(work@[k as int]).len() implies
                        ctx.accepts(#[trigger] plan::work_children(work@[k as int])[i], len, slots) by {
                        assert(plan::works_children(work@)[plan::works_children(done).len() + i]
                            == plan::work_children(work@[k as int])[i]);
                    }
                    let op = plan.view().op;
                    assert(op->Distribute_0[k as int] == work@[k as int].shape());
                    scratch::lemma_works_scratch(work@, k as int);
                    lemma_room(
                        scratch::work_scratch(work@[k as int]),
                        scratch::works_scratch(work@),
                        len as nat,
                        scratch@.len(),
                    );
                }
                accumulate_work(
                    &work[k],
                    base_value,
                    ctx,
                    cache,
                    scratch,
                    &mut fold,
                    &mut spare,
                    Ghost(slots),
                );
                proof {
                    let w = work@[k as int];
                    plan::lemma_children_take_works(work@, k as int);
                    running::lemma_ran_append(plan::works_children(done), plan::work_children(w), job, c0, c1, cache@);
                    plan::lemma_works_children_len(done);
                    assert forall|i: int| 0 <= i < len implies arith::eqm(
                        #[trigger] fold.total(i),
                        plan::works_value(
                            plan::work_shapes(work@.take(k + 1)),
                            running::row_values(plan::works_children(work@.take(k + 1)), job, c0, i),
                            sv[base.at()],
                            sv,
                            ctx.env_at(i),
                        ),
                        p,
                    ) by {
                        let r = running::row_values(plan::works_children(done), job, c0, i);
                        let t = running::row_values(plan::work_children(w), job, c1, i);
                        lemma_row_values_len(plan::works_children(done), job, c0, i);
                        lemma_works_value_push(
                            plan::work_shapes(done),
                            r,
                            w.shape(),
                            t,
                            sv[base.at()],
                            sv,
                            ctx.env_at(i),
                        );
                        assert(running::row_values(plan::works_children(done) + plan::work_children(w), job, c0, i) == r
                            + t);
                        let x = plan::work_value(w.shape(), t, sv[base.at()], sv, ctx.env_at(i));
                        arith::lemma_eqm_add(
                            before.total(i),
                            plan::works_value(
                                plan::work_shapes(done),
                                r,
                                sv[base.at()],
                                sv,
                                ctx.env_at(i),
                            ),
                            x,
                            x,
                            p,
                        );
                    }
                }
                k += 1;
            }
            assert(work@.take(k as int) =~= work@);
            fold.finish_into(output);
            proof {
                let op = PlanOp::Distribute(plan::work_shapes(work@), base.at());
                assert forall|i: int| 0 <= i < len implies #[trigger] poly::vals(output@)[i]
                    == plan::plan_combine(
                    op,
                    running::row_values(plan::works_children(work@), job, c0, i),
                    job.sv,
                    (job.env)(i),
                ) % job.p by {
                    assert(output@[i].val() == fold.total(i) % p);
                }
                running::lemma_ran_node(op, plan::works_children(work@), job, poly::vals(output@), c0, cache@);
            }
        },
        _ => {},
    }
}

} // verus!
