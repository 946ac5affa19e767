//! The evaluator: polynomials are registered, expressions over them are compiled to
//! plans, and plans are evaluated row by row.
use crate::again;
use crate::ast;
use crate::ast::{Ast, AstLeaf, AstOp, AstView, IndexedLeaf, RowEnv};
use crate::basis;
use crate::basis::{BasisOps, current_num_threads, get_chunk_params, linear_term_cache_budget};
use crate::compile;
use crate::cse;
use crate::domain::{DomainView, EvaluationDomain, repeated};
use crate::evaluate;
use crate::evaluate::{AstContext, PolySource, recurse_into};
use crate::field::Field;
use crate::layout::LinearTermCacheBudget;
use crate::lowering;
use crate::partition;
use crate::plan;
use crate::plan::{EvaluationPlan, PlanView};
use crate::poly;
use crate::poly::{Basis, Polynomial, Rotation};
use crate::retained;
use crate::retained::EvaluationCacheLayout;
use crate::running;
use crate::scalars;
use crate::scalars::{
    BaseView, BoundPlanScalars, ChallengeView, EVALUATION_CHALLENGE_COUNT, EvaluationChallenge,
    EvaluationChallenges, EvaluationPolyTag, PlanScalar, PlanScalarInterner, ScalarView,
    max_challenge_exponents,
};
use crate::schedule;
use crate::schedule::CacheAction;
use crate::scratch;
use crate::selectors;
use crate::selectors::{
    CompressedSelectorLeaf, CompressedSelectorShape, record_source, replace_selectors,
};
use core::marker::PhantomData;
use crate::written;
use vstd::prelude::*;

verus! {

/// An evaluation context for polynomial operations.
///
/// This context enables us to de-duplicate queries of circuit columns (and the rotations
/// they might require), by storing a list of all the underlying polynomials involved in
/// any query (which are almost certainly column polynomials). We use the context like so:
///
/// - We register each underlying polynomial with the evaluator, which returns a reference
///   to it as a [`AstLeaf`].
/// - The references are then used to build up a [`Ast`] that represents the overall
///   operations to be applied to the polynomials.
/// - Finally, we call [`Evaluator::evaluate`] passing in the [`Ast`].
///
/// Polynomials registered with [`Evaluator::register_poly`] are owned by the
/// evaluator. Polynomials registered with [`Evaluator::register_poly_ref`] are
/// borrowed and must outlive it.
pub struct Evaluator<'poly, E, F: Field, B: Basis> {
    pub polys: Vec<PolySource<'poly, F, B>>,
    pub virtual_poly_count: Option<usize>,
    /// Registration is all-or-none: `Some` always contains one tag per registered
    /// polynomial.
    pub polynomial_tags: Option<Vec<EvaluationPolyTag>>,
    pub compressed_selectors: Vec<CompressedSelectorLeaf<E, B>>,
    pub reused_compressed_selector_sources: Vec<usize>,
    pub _context: E,
}

/// What a retained plan depends on, of the evaluator that it was compiled for.
pub struct EvaluatorShape {
    pub polynomial_lengths: Vec<usize>,
    pub polynomial_tags: Option<Vec<EvaluationPolyTag>>,
    pub compressed_selectors: Vec<CompressedSelectorShape>,
    pub reused_compressed_selector_sources: Vec<usize>,
}

pub struct ShapeView {
    pub lengths: Seq<usize>,
    pub tags: Option<Seq<EvaluationPolyTag>>,
    pub selectors: Seq<CompressedSelectorShape>,
    pub reused: Seq<usize>,
}

pub open spec fn tags_view(tags: Option<Vec<EvaluationPolyTag>>) -> Option<Seq<EvaluationPolyTag>> {
    match tags {
        Some(list) => Some(list@),
        None => None,
    }
}

impl EvaluatorShape {
    pub open spec fn view(&self) -> ShapeView {
        ShapeView {
            lengths: self.polynomial_lengths@,
            tags: tags_view(self.polynomial_tags),
            selectors: self.compressed_selectors@,
            reused: self.reused_compressed_selector_sources@,
        }
    }
}

/// A plan that can be evaluated again, for other values of the same polynomials and
/// other challenges.
pub struct CompiledEvaluationPlan<F: Field, B> {
    pub plan: EvaluationPlan,
    pub scalar_descriptors: Vec<PlanScalar<F>>,
    pub evaluator_shape: EvaluatorShape,
    pub cache_slots: usize,
    pub scratch_slots: usize,
    pub max_challenge_exponents: [u32; EVALUATION_CHALLENGE_COUNT],
    /// The expression that the plan computes.
    pub source: Ghost<AstView>,
    pub _basis: PhantomData<B>,
}

impl<F: Field, B> CompiledEvaluationPlan<F, B> {
    /// The plan was compiled from the expression, as `plain` before it was cached.
    pub open spec fn made_from(&self, plain: PlanView) -> bool {
        &&& lowering::compiled(plain, self.source@, scalars::scalar_views(self.scalar_descriptors@), F::order())
        &&& scalars::scalar_views(self.scalar_descriptors@).no_duplicates()
        &&& compile::root_fits(self.source@, plain.op)
        &&& partition::distributes(plain, self.source@, scalars::scalar_views(self.scalar_descriptors@), F::order())
        &&& cse::cached_plan(plain, self.plan.view(), self.cache_slots as int)
    }

    /// The plan is cached with a schedule of its own, within the budget for polynomials of
    /// the length.
    pub open spec fn cached_for(&self, budget: LinearTermCacheBudget) -> bool {
        exists|plain: PlanView| #[trigger]
            self.made_from(plain) && cse::cached_with(
                plain,
                self.plan.view(),
                self.cache_slots as int,
                None,
                None,
                false,
                scalars::scalar_views(self.scalar_descriptors@),
                F::order(),
                budget,
            )
    }

    pub open spec fn wf(&self) -> bool {
        &&& self.scratch_slots == self.plan.scratch()
        &&& scalars::exponents_cover(scalars::scalar_views(self.scalar_descriptors@), self.max_challenge_exponents@)
        &&& forall|i: int| 0 <= i < 4 ==> #[trigger] self.max_challenge_exponents@[i] < usize::MAX
        &&& exists|plain: PlanView| #[trigger] self.made_from(plain)
    }

    /// Returns whether every polynomial in this plan has an exact semantic
    /// tag. Only such plans are safe to retain across prover calls.
    pub fn has_exact_polynomial_tags(&self) -> (r: bool)
        ensures
            r <==> self.evaluator_shape.view().tags is Some
                && self.evaluator_shape.view().tags->0.len()
                == self.evaluator_shape.view().lengths.len(),
    {
        match &self.evaluator_shape.polynomial_tags {
            Some(tags) => tags.len() == self.evaluator_shape.polynomial_lengths.len(),
            None => false,
        }
    }

    /// Exchanges two tags.
    pub fn swap_polynomial_tags(self, lhs: EvaluationPolyTag, rhs: EvaluationPolyTag) -> (r: Self)
        requires
            self.evaluator_shape.view().tags is Some,
            self.evaluator_shape.view().tags->0.contains(lhs),
            self.evaluator_shape.view().tags->0.contains(rhs),
        ensures
            r.evaluator_shape.view().tags is Some,
            ({
                let before = self.evaluator_shape.view().tags->0;
                let after = r.evaluator_shape.view().tags->0;
                exists|i: int, j: int|
                    #![trigger before[i], before[j]]
                    {
                        &&& 0 <= i < before.len()
                        &&& 0 <= j < before.len()
                        &&& before[i] == lhs
                        &&& before[j] == rhs
                        &&& forall|k: int| 0 <= k < i ==> before[k] != lhs
                        &&& forall|k: int| 0 <= k < j ==> before[k] != rhs
                        &&& after == before.update(i, rhs).update(j, lhs)
                    }
            }),
            r.plan == self.plan,
            r.scalar_descriptors == self.scalar_descriptors,
            r.evaluator_shape.view().lengths == self.evaluator_shape.view().lengths,
            r.evaluator_shape.view().selectors == self.evaluator_shape.view().selectors,
            r.evaluator_shape.view().reused == self.evaluator_shape.view().reused,
            r.cache_slots == self.cache_slots,
            r.scratch_slots == self.scratch_slots,
            r.max_challenge_exponents == self.max_challenge_exponents,
            r.source == self.source,
    {
        let mut r = self;
        let ghost before = self.evaluator_shape.view().tags->0;
        let taken = r.evaluator_shape.polynomial_tags;
        let tags = match taken {
            Some(list) => {
                let mut list = list;
                let i = tag_position(&list, lhs);
                let j = tag_position(&list, rhs);
                list.set(i, rhs);
                list.set(j, lhs);
                assert(before[i as int] == lhs && before[j as int] == rhs);
                Some(list)
            },
            None => None,
        };
        r.evaluator_shape = EvaluatorShape {
            polynomial_lengths: r.evaluator_shape.polynomial_lengths,
            polynomial_tags: tags,
            compressed_selectors: r.evaluator_shape.compressed_selectors,
            reused_compressed_selector_sources:
                r.evaluator_shape.reused_compressed_selector_sources,
        };
        r
    }
}

/// The first position of a tag.
fn tag_position(tags: &Vec<EvaluationPolyTag>, tag: EvaluationPolyTag) -> (r: usize)
    requires
        tags@.contains(tag),
    ensures
        r < tags@.len(),
        tags@[r as int] == tag,
        forall|k: int| 0 <= k < r ==> tags@[k] != tag,
{
    let n: usize = tags.len();
    let mut i: usize = 0;
    while tags[i] != tag
        invariant
            i < n,
            n == tags@.len(),
            tags@.contains(tag),
            forall|k: int| 0 <= k < i ==> tags@[k] != tag,
        decreases tags@.len() - i,
    {
        proof {
            let at = choose|k: int| 0 <= k < tags@.len() && tags@[k] == tag;
            assert(at > i);
        }
        i += 1;
    }
    i
}

/// Constructs a new `Evaluator`.
///
/// The `context` parameter is used to provide type safety for evaluators. It ensures that
/// an evaluator will only be used to evaluate [`Ast`]s containing [`AstLeaf`]s obtained
/// from itself. It should be set to the empty closure `|| {}`, because anonymous closures
/// all have unique types.
pub fn new_evaluator<'poly, E, F: Field, B: Basis>(context: E) -> (r: Evaluator<'poly, E, F, B>)
    ensures
        r.wf(),
        r.polys@.len() == 0,
        r.virtual_poly_count is None,
        r.polynomial_tags is None,
        r.selectors().len() == 0,
        r.reused_compressed_selector_sources@.len() == 0,
{
    Evaluator {
        polys: Vec::new(),
        virtual_poly_count: None,
        polynomial_tags: None,
        compressed_selectors: Vec::new(),
        reused_compressed_selector_sources: Vec::new(),
        _context: context,
    }
}

/// Constructs an [`Evaluator`] that registers polynomial topology without
/// retaining polynomial values. The returned evaluator accepts only virtual
/// leaves and cannot evaluate rows.
pub fn new_virtual_evaluator<E, F: Field, B: Basis>(context: E) -> (r: Evaluator<'static, E, F, B>)
    ensures
        r.wf(),
        r.polys@.len() == 0,
        r.virtual_poly_count == Some(0usize),
        r.polynomial_tags is None,
        r.selectors().len() == 0,
        r.reused_compressed_selector_sources@.len() == 0,
{
    Evaluator {
        polys: Vec::new(),
        virtual_poly_count: Some(0),
        polynomial_tags: None,
        compressed_selectors: Vec::new(),
        reused_compressed_selector_sources: Vec::new(),
        _context: context,
    }
}

impl<'poly, E, F: Field, B: Basis> Evaluator<'poly, E, F, B> {
    /// The number of registered polynomials.
    pub open spec fn count(&self) -> int {
        match self.virtual_poly_count {
            Some(count) => count as int,
            None => self.polys@.len() as int,
        }
    }

    /// Every polynomial has a tag, or none has.
    pub open spec fn wf(&self) -> bool {
        &&& self.polynomial_tags is Some ==> self.polynomial_tags->0@.len() == self.count()
            && self.count() > 0
        &&& self.virtual_poly_count is Some ==> self.polys@.len() == 0
    }

    pub open spec fn selectors(&self) -> Seq<CompressedSelectorShape> {
        selectors::selector_shapes(self.compressed_selectors@)
    }

    /// What the evaluator makes of an expression.
    pub open spec fn resolved(&self, a: AstView) -> AstView {
        selectors::replaced(a, self.selectors(), F::order())
    }

    pub open spec fn resolves(&self, a: AstView) -> bool {
        selectors::sources_gone(
            a,
            self.selectors(),
            self.reused_compressed_selector_sources@,
            F::order(),
        )
    }

    /// A polynomial with the given tag, or without, can be registered next.
    pub open spec fn takes_tag(&self, tag: Option<EvaluationPolyTag>) -> bool {
        tag is Some <==> self.polynomial_tags is Some || (self.count() == 0 && tag is Some)
    }

    /// The tags after a registration.
    pub open spec fn tagged(&self, tag: Option<EvaluationPolyTag>) -> Option<
        Seq<EvaluationPolyTag>,
    > {
        match tag {
            Some(tag) => Some(
                match tags_view(self.polynomial_tags) {
                    Some(tags) => tags.push(tag),
                    None => seq![tag],
                },
            ),
            None => None,
        }
    }

    /// Whether every registered polynomial has a tag.
    pub fn has_complete_polynomial_tags(&self) -> (r: bool)
        ensures
            r <==> self.polynomial_tags is Some && self.polynomial_tags->0@.len() == self.count(),
    {
        let count: usize = match self.virtual_poly_count {
            Some(count) => count,
            None => self.polys.len(),
        };
        match &self.polynomial_tags {
            Some(tags) => tags.len() == count,
            None => false,
        }
    }

    fn leaf(index: usize) -> (r: AstLeaf<E, B>)
        ensures
            r.view() == (IndexedLeaf { index, rotation: Rotation(0) }),
    {
        AstLeaf { index, rotation: Rotation::cur(), _evaluator: PhantomData }
    }

    /// Starting tagged registration requires the first polynomial, and
    /// every later registration must remain tagged. Untagged registration
    /// likewise cannot opt into tags after the first polynomial.
    fn record_polynomial_tag(
        tags: Option<Vec<EvaluationPolyTag>>,
        tag: Option<EvaluationPolyTag>,
    ) -> (r: Option<Vec<EvaluationPolyTag>>)
        requires
            tags is Some ==> tag is Some,
        ensures
            tag is None ==> r == tags,
            tag is Some ==> r is Some && r->0@ == (match tags_view(tags) {
                Some(list) => list.push(tag->0),
                None => seq![tag->0],
            }),
    {
        match (tags, tag) {
            (None, Some(tag)) => {
                let list: Vec<EvaluationPolyTag> = vec![tag];
                assert(list@ =~= seq![tag]);
                Some(list)
            },
            (Some(list), Some(tag)) => {
                let mut list = list;
                list.push(tag);
                Some(list)
            },
            (tags, None) => tags,
        }
    }

    fn register(&mut self, poly: PolySource<'poly, F, B>, tag: Option<EvaluationPolyTag>) -> (r:
        AstLeaf<E, B>)
        requires
            old(self).wf(),
            old(self).virtual_poly_count is None,
            old(self).takes_tag(tag),
        ensures
            final(self).wf(),
            final(self).polys@ == old(self).polys@.push(poly),
            r.view() == (IndexedLeaf {
                index: old(self).polys@.len() as usize,
                rotation: Rotation(0),
            }),
            final(self).virtual_poly_count == old(self).virtual_poly_count,
            tags_view(final(self).polynomial_tags) == old(self).tagged(tag),
            final(self).compressed_selectors == old(self).compressed_selectors,
            final(self).reused_compressed_selector_sources == old(
                self,
            ).reused_compressed_selector_sources,
    {
        let index: usize = self.polys.len();
        let mut tags: Option<Vec<EvaluationPolyTag>> = None;
        core::mem::swap(&mut tags, &mut self.polynomial_tags);
        self.polynomial_tags = Self::record_polynomial_tag(tags, tag);
        self.polys.push(poly);
        Self::leaf(index)
    }

    /// Registers the given polynomial for use in this evaluation context.
    ///
    /// This API treats each registered polynomial as unique, even if the same polynomial
    /// is added multiple times.
    pub fn register_poly(&mut self, poly: Polynomial<F, B>) -> (r: AstLeaf<E, B>)
        requires
            old(self).wf(),
            old(self).virtual_poly_count is None,
            old(self).takes_tag(None),
        ensures
            final(self).wf(),
            final(self).polys@ == old(self).polys@.push(PolySource::Owned(poly)),
            r.view() == (IndexedLeaf {
                index: old(self).polys@.len() as usize,
                rotation: Rotation(0),
            }),
            final(self).virtual_poly_count == old(self).virtual_poly_count,
            tags_view(final(self).polynomial_tags) == old(self).tagged(None),
            final(self).compressed_selectors == old(self).compressed_selectors,
            final(self).reused_compressed_selector_sources == old(
                self,
            ).reused_compressed_selector_sources,
    {
        self.register(PolySource::Owned(poly), None)
    }

    /// Registers an owned polynomial with an exact semantic tag.
    pub fn register_poly_with_tag(&mut self, poly: Polynomial<F, B>, tag: EvaluationPolyTag) -> (r:
        AstLeaf<E, B>)
        requires
            old(self).wf(),
            old(self).virtual_poly_count is None,
            old(self).takes_tag(Some(tag)),
        ensures
            final(self).wf(),
            final(self).polys@ == old(self).polys@.push(PolySource::Owned(poly)),
            r.view() == (IndexedLeaf {
                index: old(self).polys@.len() as usize,
                rotation: Rotation(0),
            }),
            final(self).virtual_poly_count == old(self).virtual_poly_count,
            tags_view(final(self).polynomial_tags) == old(self).tagged(Some(tag)),
            final(self).compressed_selectors == old(self).compressed_selectors,
            final(self).reused_compressed_selector_sources == old(
                self,
            ).reused_compressed_selector_sources,
    {
        self.register(PolySource::Owned(poly), Some(tag))
    }

    /// Reserves a tagged owned-polynomial slot whose values will be supplied
    /// before evaluation. This preserves semantic leaf ordering across work
    /// that is deliberately deferred past transcript-adjacent phases.
    pub fn register_deferred_poly_with_tag(&mut self, tag: EvaluationPolyTag) -> (r: AstLeaf<E, B>)
        requires
            old(self).wf(),
            old(self).virtual_poly_count is None,
            old(self).takes_tag(Some(tag)),
        ensures
            final(self).wf(),
            final(self).polys@.len() == old(self).polys@.len() + 1,
            final(self).polys@.drop_last() == old(self).polys@,
            final(self).polys@.last().poly().values@.len() == 0,
            r.view() == (IndexedLeaf {
                index: old(self).polys@.len() as usize,
                rotation: Rotation(0),
            }),
            final(self).virtual_poly_count == old(self).virtual_poly_count,
            tags_view(final(self).polynomial_tags) == old(self).tagged(Some(tag)),
            final(self).compressed_selectors == old(self).compressed_selectors,
            final(self).reused_compressed_selector_sources == old(
                self,
            ).reused_compressed_selector_sources,
    {
        let r = self.register(
            PolySource::Owned(Polynomial { values: Vec::new(), _marker: PhantomData }),
            Some(tag),
        );
        assert(self.polys@.drop_last() =~= old(self).polys@);
        r
    }

    /// Supplies the values for a slot from
    /// [`Self::register_deferred_poly_with_tag`].
    pub fn fill_deferred_poly(&mut self, leaf: AstLeaf<E, B>, poly: Polynomial<F, B>)
        requires
            old(self).wf(),
            old(self).virtual_poly_count is None,
            leaf.index < old(self).polys@.len(),
            old(self).polys@[leaf.index as int].poly().values@.len() == 0,
        ensures
            final(self).wf(),
            final(self).polys@ == old(self).polys@.update(
                leaf.index as int,
                PolySource::Owned(poly),
            ),
            final(self).virtual_poly_count == old(self).virtual_poly_count,
            final(self).polynomial_tags == old(self).polynomial_tags,
            final(self).compressed_selectors == old(self).compressed_selectors,
            final(self).reused_compressed_selector_sources == old(
                self,
            ).reused_compressed_selector_sources,
    {
        self.polys.set(leaf.index, PolySource::Owned(poly));
    }

    /// Registers a borrowed polynomial for use in this evaluation context.
    ///
    /// This API treats each registered polynomial as unique, even if the same
    /// polynomial is added multiple times.
    pub fn register_poly_ref(&mut self, poly: &'poly Polynomial<F, B>) -> (r: AstLeaf<E, B>)
        requires
            old(self).wf(),
            old(self).virtual_poly_count is None,
            old(self).takes_tag(None),
        ensures
            final(self).wf(),
            final(self).polys@ == old(self).polys@.push(PolySource::Borrowed(poly)),
            r.view() == (IndexedLeaf {
                index: old(self).polys@.len() as usize,
                rotation: Rotation(0),
            }),
            final(self).virtual_poly_count == old(self).virtual_poly_count,
            tags_view(final(self).polynomial_tags) == old(self).tagged(None),
            final(self).compressed_selectors == old(self).compressed_selectors,
            final(self).reused_compressed_selector_sources == old(
                self,
            ).reused_compressed_selector_sources,
    {
        self.register(PolySource::Borrowed(poly), None)
    }

    /// Registers a borrowed polynomial with an exact semantic tag.
    pub fn register_poly_ref_with_tag(
        &mut self,
        poly: &'poly Polynomial<F, B>,
        tag: EvaluationPolyTag,
    ) -> (r: AstLeaf<E, B>)
        requires
            old(self).wf(),
            old(self).virtual_poly_count is None,
            old(self).takes_tag(Some(tag)),
        ensures
            final(self).wf(),
            final(self).polys@ == old(self).polys@.push(PolySource::Borrowed(poly)),
            r.view() == (IndexedLeaf {
                index: old(self).polys@.len() as usize,
                rotation: Rotation(0),
            }),
            final(self).virtual_poly_count == old(self).virtual_poly_count,
            tags_view(final(self).polynomial_tags) == old(self).tagged(Some(tag)),
            final(self).compressed_selectors == old(self).compressed_selectors,
            final(self).reused_compressed_selector_sources == old(
                self,
            ).reused_compressed_selector_sources,
    {
        self.register(PolySource::Borrowed(poly), Some(tag))
    }

    fn register_virtual(&mut self, tag: Option<EvaluationPolyTag>) -> (r: AstLeaf<E, B>)
        requires
            old(self).wf(),
            old(self).virtual_poly_count is Some,
            old(self).virtual_poly_count->0 < usize::MAX,
            old(self).takes_tag(tag),
        ensures
            final(self).wf(),
            final(self).polys == old(self).polys,
            final(self).virtual_poly_count is Some,
            final(self).virtual_poly_count->0 == old(self).virtual_poly_count->0 + 1,
            r.view() == (IndexedLeaf {
                index: old(self).virtual_poly_count->0,
                rotation: Rotation(0),
            }),
            tags_view(final(self).polynomial_tags) == old(self).tagged(tag),
            final(self).compressed_selectors == old(self).compressed_selectors,
            final(self).reused_compressed_selector_sources == old(
                self,
            ).reused_compressed_selector_sources,
    {
        let index: usize = self.virtual_poly_count.unwrap();
        self.virtual_poly_count = Some(index + 1);
        let mut tags: Option<Vec<EvaluationPolyTag>> = None;
        core::mem::swap(&mut tags, &mut self.polynomial_tags);
        self.polynomial_tags = Self::record_polynomial_tag(tags, tag);
        Self::leaf(index)
    }

    /// Registers a distinct polynomial leaf without retaining its row values.
    ///
    /// This requires an evaluator constructed by [`new_virtual_evaluator`].
    pub fn register_virtual_poly(&mut self) -> (r: AstLeaf<E, B>)
        requires
            old(self).wf(),
            old(self).virtual_poly_count is Some,
            old(self).virtual_poly_count->0 < usize::MAX,
            old(self).takes_tag(None),
        ensures
            final(self).wf(),
            final(self).polys == old(self).polys,
            final(self).virtual_poly_count is Some,
            final(self).virtual_poly_count->0 == old(self).virtual_poly_count->0 + 1,
            r.view() == (IndexedLeaf {
                index: old(self).virtual_poly_count->0,
                rotation: Rotation(0),
            }),
            tags_view(final(self).polynomial_tags) == old(self).tagged(None),
            final(self).compressed_selectors == old(self).compressed_selectors,
            final(self).reused_compressed_selector_sources == old(
                self,
            ).reused_compressed_selector_sources,
    {
        self.register_virtual(None)
    }

    /// Registers a virtual polynomial with an exact semantic tag.
    pub fn register_virtual_poly_with_tag(&mut self, tag: EvaluationPolyTag) -> (r: AstLeaf<E, B>)
        requires
            old(self).wf(),
            old(self).virtual_poly_count is Some,
            old(self).virtual_poly_count->0 < usize::MAX,
            old(self).takes_tag(Some(tag)),
        ensures
            final(self).wf(),
            final(self).polys == old(self).polys,
            final(self).virtual_poly_count is Some,
            final(self).virtual_poly_count->0 == old(self).virtual_poly_count->0 + 1,
            r.view() == (IndexedLeaf {
                index: old(self).virtual_poly_count->0,
                rotation: Rotation(0),
            }),
            tags_view(final(self).polynomial_tags) == old(self).tagged(Some(tag)),
            final(self).compressed_selectors == old(self).compressed_selectors,
            final(self).reused_compressed_selector_sources == old(
                self,
            ).reused_compressed_selector_sources,
    {
        self.register_virtual(Some(tag))
    }

    /// Names a polynomial that holds the values of a selector of a combined column.
    pub fn register_compressed_selector(
        &mut self,
        query: AstLeaf<E, B>,
        combination_len: usize,
        assigned_root: usize,
        selector: AstLeaf<E, B>,
    )
        requires
            old(self).wf(),
        ensures
            final(self).wf(),
            final(self).polys == old(self).polys,
            final(self).virtual_poly_count == old(self).virtual_poly_count,
            final(self).polynomial_tags == old(self).polynomial_tags,
            final(self).selectors() == old(self).selectors().push(
                (CompressedSelectorShape {
                    query: query.view(),
                    combination_len,
                    assigned_root,
                    selector: selector.view(),
                }),
            ),
            final(self).reused_compressed_selector_sources@ == (if query.index == selector.index
                && !old(self).reused_compressed_selector_sources@.contains(query.index) {
                old(self).reused_compressed_selector_sources@.push(query.index)
            } else {
                old(self).reused_compressed_selector_sources@
            }),
    {
        if query.index == selector.index {
            record_source(&mut self.reused_compressed_selector_sources, query.index);
        }
        self.compressed_selectors.push(
            CompressedSelectorLeaf { query, combination_len, assigned_root, selector },
        );
        assert(self.selectors() =~= old(self).selectors().push(
            (CompressedSelectorShape {
                query: query.view(),
                combination_len,
                assigned_root,
                selector: selector.view(),
            }),
        ));
    }

    /// Returns `None` when this subtree needs no replacement, so its parent can
    /// retain the existing `Arc` instead of rebuilding it.
    pub fn replace_compressed_selectors(&self, ast: &Ast<E, F, B>) -> (r: Option<Ast<E, F, B>>)
        requires
            ast::ast_size(ast.view()) < usize::MAX,
            self.resolves(ast.view()),
        ensures
            r is Some <==> selectors::has_selector(ast.view(), self.selectors(), F::order()),
            r matches Some(x) ==> x.view() == self.resolved(ast.view()),
            r is None ==> self.resolved(ast.view()) == ast.view(),
    {
        replace_selectors(ast, &self.compressed_selectors, &self.reused_compressed_selector_sources)
    }

    /// The lengths of the polynomials, or of virtual ones.
    pub open spec fn lengths(&self, poly_len: usize) -> Seq<usize> {
        match self.virtual_poly_count {
            Some(count) => Seq::new(count as nat, |i: int| poly_len),
            None => Seq::new(
                self.polys@.len(),
                |i: int| self.polys@[i].poly().values@.len() as usize,
            ),
        }
    }

    /// What a retained plan depends on.
    pub open spec fn shape(&self, poly_len: usize) -> ShapeView {
        ShapeView {
            lengths: self.lengths(poly_len),
            tags: tags_view(self.polynomial_tags),
            selectors: self.selectors(),
            reused: self.reused_compressed_selector_sources@,
        }
    }

    /// What a retained plan depends on, with a length for polynomials that are not there.
    pub fn shape_with_virtual_poly_len(&self, virtual_poly_len: Option<usize>) -> (r:
        EvaluatorShape)
        requires
            virtual_poly_len is Some <==> self.virtual_poly_count is Some,
        ensures
            r.view() == self.shape(
                if virtual_poly_len is Some {
                    virtual_poly_len->0
                } else {
                    0
                },
            ),
            r.polynomial_tags is Some <==> self.polynomial_tags is Some,
            r.polynomial_tags matches Some(tags) ==> tags@ == self.polynomial_tags->0@,
    {
        let mut lengths: Vec<usize> = Vec::new();
        match self.virtual_poly_count {
            Some(count) => {
                let poly_len: usize = virtual_poly_len.unwrap();
                let mut i: usize = 0;
                while i < count
                    invariant
                        i <= count,
                        lengths@ =~= Seq::new(i as nat, |k: int| poly_len),
                    decreases count - i,
                {
                    lengths.push(poly_len);
                    i += 1;
                }
            },
            None => {
                let mut i: usize = 0;
                while i < self.polys.len()
                    invariant
                        i <= self.polys@.len(),
                        lengths@ =~= Seq::new(
                            i as nat,
                            |k: int| self.polys@[k].poly().values@.len() as usize,
                        ),
                    decreases self.polys@.len() - i,
                {
                    lengths.push(self.polys[i].get().len());
                    i += 1;
                }
            },
        }
        let mut selectors: Vec<CompressedSelectorShape> = Vec::with_capacity(
            self.compressed_selectors.len(),
        );
        let mut i: usize = 0;
        while i < self.compressed_selectors.len()
            invariant
                i <= self.compressed_selectors@.len(),
                selectors@ =~= self.selectors().take(i as int),
            decreases self.compressed_selectors@.len() - i,
        {
            selectors.push(self.compressed_selectors[i].shape());
            i += 1;
        }
        assert(self.selectors().take(i as int) =~= self.selectors());
        EvaluatorShape {
            polynomial_lengths: lengths,
            polynomial_tags: copy_tags(&self.polynomial_tags),
            compressed_selectors: selectors,
            reused_compressed_selector_sources: copy_indices(
                &self.reused_compressed_selector_sources,
            ),
        }
    }

    /// Whether a retained plan for `shape` fits. Untagged shapes are valid only for an
    /// evaluator's ephemeral within-call plan; they can never authorize a retained hit.
    pub fn matches_shape(&self, shape: &EvaluatorShape) -> (r: bool)
        requires
            self.virtual_poly_count is None,
        ensures
            r <==> shape.view() == self.shape(0) && self.polynomial_tags is Some,
            r ==> shape.polynomial_tags is Some && shape.polynomial_tags->0@
                == self.polynomial_tags->0@,
            r ==> shape.polynomial_lengths@.len() == self.polys@.len() && forall|i: int|
                0 <= i < self.polys@.len() ==> (#[trigger] self.polys@[i]).poly().values@.len()
                    == shape.polynomial_lengths@[i],
    {
        let ghost mine = self.shape(0);
        match (&self.polynomial_tags, &shape.polynomial_tags) {
            (Some(tags), Some(expected)) => {
                if !same_tags(tags, expected) {
                    return false;
                }
            },
            _ => {
                return false;
            },
        }
        if self.polys.len() != shape.polynomial_lengths.len() {
            assert(mine.lengths.len() != shape.view().lengths.len());
            return false;
        }
        let mut i: usize = 0;
        while i < self.polys.len()
            invariant
                i <= self.polys@.len(),
                self.virtual_poly_count is None,
                mine == self.shape(0),
                self.polys@.len() == shape.polynomial_lengths@.len(),
                forall|k: int|
                    0 <= k < i ==> #[trigger] shape.polynomial_lengths@[k] == mine.lengths[k],
                forall|k: int|
                    0 <= k < i ==> (#[trigger] self.polys@[k]).poly().values@.len()
                        == shape.polynomial_lengths@[k],
            decreases self.polys@.len() - i,
        {
            if self.polys[i].get().len() != shape.polynomial_lengths[i] {
                assert(mine.lengths[i as int] != shape.view().lengths[i as int]);
                return false;
            }
            i += 1;
        }
        assert(shape.view().lengths =~= mine.lengths);
        if self.compressed_selectors.len() != shape.compressed_selectors.len() {
            assert(mine.selectors.len() != shape.view().selectors.len());
            return false;
        }
        let mut j: usize = 0;
        while j < self.compressed_selectors.len()
            invariant
                j <= self.compressed_selectors@.len(),
                mine.selectors == self.selectors(),
                self.compressed_selectors@.len() == shape.compressed_selectors@.len(),
                forall|k: int|
                    0 <= k < j ==> #[trigger] shape.compressed_selectors@[k] == mine.selectors[k],
            decreases self.compressed_selectors@.len() - j,
        {
            if self.compressed_selectors[j].shape() != shape.compressed_selectors[j] {
                assert(mine.selectors[j as int] != shape.view().selectors[j as int]);
                return false;
            }
            j += 1;
        }
        assert(shape.view().selectors =~= mine.selectors);
        same_indices(
            &self.reused_compressed_selector_sources,
            &shape.reused_compressed_selector_sources,
        )
    }

    /// Returns whether this evaluator can execute a retained quotient plan.
    pub fn accepts_compiled_plan(&self, plan: &CompiledEvaluationPlan<F, B>) -> (r: bool)
        requires
            self.virtual_poly_count is None,
        ensures
            r <==> plan.evaluator_shape.view() == self.shape(0) && self.polynomial_tags is Some,
            r ==> plan.evaluator_shape.polynomial_tags is Some
                && plan.evaluator_shape.polynomial_tags->0@ == self.polynomial_tags->0@,
    {
        self.matches_shape(&plan.evaluator_shape)
    }
}

fn copy_tags(tags: &Option<Vec<EvaluationPolyTag>>) -> (r: Option<Vec<EvaluationPolyTag>>)
    ensures
        tags_view(r) == tags_view(*tags),
{
    match tags {
        Some(list) => {
            let mut r: Vec<EvaluationPolyTag> = Vec::with_capacity(list.len());
            let mut i: usize = 0;
            while i < list.len()
                invariant
                    i <= list@.len(),
                    r@ =~= list@.take(i as int),
                decreases list@.len() - i,
            {
                r.push(list[i]);
                i += 1;
            }
            assert(list@.take(i as int) =~= list@);
            Some(r)
        },
        None => None,
    }
}

fn copy_indices(list: &Vec<usize>) -> (r: Vec<usize>)
    ensures
        r@ == list@,
{
    let mut r: Vec<usize> = Vec::with_capacity(list.len());
    let mut i: usize = 0;
    while i < list.len()
        invariant
            i <= list@.len(),
            r@ =~= list@.take(i as int),
        decreases list@.len() - i,
    {
        r.push(list[i]);
        i += 1;
    }
    assert(list@.take(i as int) =~= list@);
    r
}

fn same_tags(a: &Vec<EvaluationPolyTag>, b: &Vec<EvaluationPolyTag>) -> (r: bool)
    ensures
        r <==> a@ == b@,
{
    if a.len() != b.len() {
        return false;
    }
    let mut i: usize = 0;
    while i < a.len()
        invariant
            i <= a@.len(),
            a@.len() == b@.len(),
            forall|k: int| 0 <= k < i ==> #[trigger] a@[k] == b@[k],
        decreases a@.len() - i,
    {
        if a[i] != b[i] {
            return false;
        }
        i += 1;
    }
    assert(a@ =~= b@);
    true
}

fn same_indices(a: &Vec<usize>, b: &Vec<usize>) -> (r: bool)
    ensures
        r <==> a@ == b@,
{
    if a.len() != b.len() {
        return false;
    }
    let mut i: usize = 0;
    while i < a.len()
        invariant
            i <= a@.len(),
            a@.len() == b@.len(),
            forall|k: int| 0 <= k < i ==> #[trigger] a@[k] == b@[k],
        decreases a@.len() - i,
    {
        if a[i] != b[i] {
            return false;
        }
        i += 1;
    }
    assert(a@ =~= b@);
    true
}

/// The rows at which a plan is evaluated give products their meaning, where the
/// expression has products.
pub open spec fn products_fit<B: BasisOps>(domain: DomainView, a: AstView) -> bool {
    ast::product_free(a) || forall|row: int|
        0 <= row < B::rows(domain) ==> #[trigger] B::unit_at(row) == 1
}

impl<'poly, E, F: Field, B: BasisOps> Evaluator<'poly, E, F, B> {
    /// The row that an expression reads.
    pub open spec fn env(&self, domain: DomainView, ch: ChallengeView, row: int) -> RowEnv {
        evaluate::row_env::<B>(F::order(), domain, evaluate::poly_rows(self.polys@), ch, row)
    }

    /// All polynomials have values over the domain.
    pub open spec fn filled(&self, domain: &EvaluationDomain<F>) -> bool {
        &&& self.virtual_poly_count is None
        &&& self.polys@.len() > 0
        &&& domain.sized()
        &&& 0 < B::rows(domain.view()) <= usize::MAX
        &&& forall|i: int|
            0 <= i < self.polys@.len() ==> (#[trigger] self.polys@[i]).poly().values@.len()
                == B::rows(domain.view())
    }

    /// An expression reads polynomials that there are, at rotations that the basis has.
    pub open spec fn readable(&self, domain: DomainView, a: AstView) -> bool {
        &&& lowering::leaves_below(a, evaluate::readable_leaves::<B>(domain, self.polys@.len() as int))
        &&& products_fit::<B>(domain, a)
    }

    /// The rows are the values of an expression.
    pub open spec fn rows_of(
        &self,
        poly: Polynomial<F, B>,
        a: AstView,
        domain: DomainView,
        ch: ChallengeView,
    ) -> bool {
        &&& poly.values@.len() == B::rows(domain)
        &&& forall|row: int|
            0 <= row < poly.values@.len() ==> (#[trigger] poly.values@[row]).val() == ast::ast_value(
                a,
                self.env(domain, ch, row),
            )
    }

    /// Compiles an expression.
    pub fn compile_quotient_plan(
        &self,
        ast: &Ast<E, F, B>,
        poly_len: usize,
        cache_layout: Option<&EvaluationCacheLayout>,
        retain_layout: bool,
    ) -> (r: (CompiledEvaluationPlan<F, B>, Option<EvaluationCacheLayout>))
        requires
            self.resolves(ast.view()),
            2 * ast::ast_size(ast.view()) <= u32::MAX,
            4 * ast::ast_size(ast.view()) <= usize::MAX,
        ensures
            r.0.wf(),
            r.0.source@ == self.resolved(ast.view()),
            r.0.evaluator_shape.view() == self.shape(
                if self.virtual_poly_count is Some {
                    poly_len
                } else {
                    0
                },
            ),
            r.0.scratch_slots <= 4 * ast::ast_size(ast.view()),
            r.0.cache_slots <= u16::MAX + ast::ast_size(ast.view()),
            cache_layout is None ==> r.0.cache_slots <= ast::ast_size(ast.view()),
            exists|plain: PlanView| #[trigger]
                r.0.made_from(plain) && cse::cached_with(
                    plain,
                    r.0.plan.view(),
                    r.0.cache_slots as int,
                    r.1,
                    cache_layout,
                    retain_layout,
                    scalars::scalar_views(r.0.scalar_descriptors@),
                    F::order(),
                    basis::linear_term_budget::<B>(poly_len),
                ),
    {
        let ghost p = F::order();
        let ghost a = self.resolved(ast.view());
        proof {
            selectors::lemma_replaced_size(ast.view(), self.selectors(), p);
        }
        let resolved = match self.replace_compressed_selectors(ast) {
            Some(x) => x,
            None => ast.clone(),
        };
        let mut interner = PlanScalarInterner::<F>::new();
        let plain = EvaluationPlan::compile(&resolved, &mut interner);
        let ghost plain_view = plain.view();
        let ghost views = interner.view();
        let scalar_descriptors = interner.finish();
        proof {
            reveal(lowering::lowered);
            lowering::lemma_any_leaves(a);
            assert(plan::plan_in_bounds(plain_view, views.len() as int, plan::any_leaf(), 0));
            assert(scalars::scalar_views(scalar_descriptors@).len() == scalar_descriptors@.len());
        }
        let (plan, cache_slots, layout) = plain.cache_with_layout(
            linear_term_cache_budget::<B>(poly_len),
            cache_layout,
            retain_layout,
            scalar_descriptors.as_slice(),
        );
        proof {
            cse::lemma_cached_in_bounds(
                plain_view,
                plan.view(),
                cache_slots as int,
                views.len() as int,
                plan::any_leaf(),
            );
            scratch::lemma_scratch_bound(plan, views.len() as int, plan::any_leaf(), cache_slots as int);
            let actions = choose|actions: Seq<Option<CacheAction>>| #[trigger]
                cse::scheduled(plain_view, plan.view(), actions, cache_slots as int);
            schedule::lemma_applied_size(plain_view, actions, 0);
            schedule::lemma_occurrences_len(plain_view);
        }
        let scratch_slots = plan.required_scratch_slots();
        let max_challenge_exponents = max_challenge_exponents(scalar_descriptors.as_slice());
        proof {
            assert forall|i: int| 0 <= i < 4 implies #[trigger] max_challenge_exponents@[i]
                < usize::MAX by {
                lemma_exponent_small(views, max_challenge_exponents@, i);
            }
        }
        let evaluator_shape = self.shape_with_virtual_poly_len(
            match self.virtual_poly_count {
                Some(_) => Some(poly_len),
                None => None,
            },
        );
        let r = CompiledEvaluationPlan {
            plan,
            scalar_descriptors,
            evaluator_shape,
            cache_slots,
            scratch_slots,
            max_challenge_exponents,
            source: Ghost(a),
            _basis: PhantomData,
        };
        assert(r.made_from(plain_view));
        (r, layout)
    }

    /// Evaluates a plan on one chunk of rows.
    pub fn evaluate_chunk(
        &self,
        compiled_plan: &CompiledEvaluationPlan<F, B>,
        domain: &EvaluationDomain<F>,
        scalars: &BoundPlanScalars<F>,
        chunk_size: usize,
        chunk_index: usize,
        out: &mut [F],
        challenges: Ghost<ChallengeView>,
    )
        requires
            compiled_plan.wf(),
            self.filled(domain),
            self.readable(domain.view(), compiled_plan.source@),
            scalars.wf(),
            scalars.values@.len() == compiled_plan.scalar_descriptors@.len(),
            scalars::scalars_bound(
                scalars.view(),
                scalars::scalar_views(compiled_plan.scalar_descriptors@),
                challenges@,
                F::order(),
            ),
            chunk_size * chunk_index + old(out)@.len() <= B::rows(domain.view()),
            (compiled_plan.cache_slots + compiled_plan.scratch_slots) * old(out)@.len()
                <= usize::MAX,
        ensures
            final(out)@.len() == old(out)@.len(),
            forall|i: int|
                0 <= i < final(out)@.len() ==> (#[trigger] final(out)@[i]).val() == ast::ast_value(
                    compiled_plan.source@,
                    self.env(domain.view(), challenges@, chunk_size * chunk_index + i),
                ),
    {
        let n: usize = out.len();
        let ghost slots = compiled_plan.cache_slots as int;
        let ghost len = n as int;
        let ghost a = compiled_plan.source@;
        let ghost plain = choose|plain: PlanView| #[trigger] compiled_plan.made_from(plain);
        let ctx = AstContext {
            domain,
            chunk_size,
            chunk_index,
            polys: &self.polys,
            scalars,
            challenges,
        };
        proof {
            let (x, y) = (compiled_plan.cache_slots as int, compiled_plan.scratch_slots as int);
            assert((x + y) * len == x * len + y * len) by (nonlinear_arith);
            assert(0 <= x * len) by (nonlinear_arith)
                requires
                    x >= 0,
                    len >= 0,
            ;
            assert(0 <= y * len) by (nonlinear_arith)
                requires
                    y >= 0,
                    len >= 0,
            ;
            if len >= 1 {
                assert(x + y <= (x + y) * len) by (nonlinear_arith)
                    requires
                        x + y >= 0,
                        len >= 1,
                ;
            }
        }
        if n == 0 {
            return ;
        }
        let total: usize = (compiled_plan.cache_slots + compiled_plan.scratch_slots) * n;
        let mut storage = repeated(F::zero(), total);
        let (cache, scratch) = storage.as_mut_slice().split_at_mut(compiled_plan.cache_slots * n);
        let ghost cache0 = cache@;
        proof {
            reveal(lowering::lowered);
            let count = self.polys@.len() as int;
            let leaves = evaluate::readable_leaves::<B>(domain.view(), count);
            let m = scalars.values@.len() as int;
            assert(plan::plan_in_bounds(plain, m, leaves, 0));
            cse::lemma_cached_in_bounds(plain, compiled_plan.plan.view(), slots, m, leaves);
            if !ast::product_free(a) {
                assert forall|i: int| 0 <= i < len implies (#[trigger] ctx.env_at(i)).unit == 1 by {
                    assert(B::unit_at(chunk_size * chunk_index + i) == 1);
                }
            }
        }
        recurse_into(&compiled_plan.plan, &ctx, out, cache, scratch, Ghost(slots));
        proof {
            reveal(lowering::lowered);
            let job = ctx.job(len, slots);
            F::lemma_order();
            assert forall|i: int| 0 <= i < len implies (#[trigger] out@[i]).val() == ast::ast_value(
                a,
                self.env(domain.view(), challenges@, chunk_size * chunk_index + i),
            ) by {
                let env = ctx.env_at(i);
                let row = running::cache_row(cache0, job, i);
                assert(poly::vals(out@)[i] == out@[i].val());
                assert(running::ran_at(
                    compiled_plan.plan.view(),
                    job,
                    poly::vals(out@)[i],
                    row,
                    running::cache_row(cache@, job, i),
                    i,
                ));
                cse::lemma_cached_plan(plain, compiled_plan.plan.view(), slots, job.sv, env, row);
                if !ast::product_free(a) {
                    assert(B::unit_at(chunk_size * chunk_index + i) == 1);
                }
                assert(plan::plan_value(plain, job.sv, env) == ast::ast_value(a, env));
            }
        }
    }

    /// Evaluates a plan at all rows, chunk by chunk.
    pub fn evaluate_plan(
        &self,
        compiled_plan: &CompiledEvaluationPlan<F, B>,
        domain: &EvaluationDomain<F>,
        challenges: EvaluationChallenges<F>,
    ) -> (r: Polynomial<F, B>)
        requires
            compiled_plan.wf(),
            self.filled(domain),
            self.readable(domain.view(), compiled_plan.source@),
            (compiled_plan.cache_slots + compiled_plan.scratch_slots) * B::rows(domain.view())
                <= usize::MAX,
        ensures
            self.rows_of(r, compiled_plan.source@, domain.view(), challenges.view()),
    {
        assert(self.polys@[0].poly().values@.len() == B::rows(domain.view()));
        let poly_len: usize = self.polys[0].get().len();
        let (chunk_size, num_chunks) = get_chunk_params(poly_len, current_num_threads());
        let scalars = BoundPlanScalars::new(
            compiled_plan.scalar_descriptors.as_slice(),
            challenges,
            compiled_plan.max_challenge_exponents,
        );
        let mut result: Polynomial<F, B> = B::empty_poly(domain);
        let mut start: usize = 0;
        let mut chunk_index: usize = 0;
        let ghost ch = challenges.view();
        let ghost a = compiled_plan.source@;
        while start < poly_len
            invariant
                poly_len > 0 ==> chunk_size > 0,
                start == (if chunk_size * chunk_index <= poly_len {
                    chunk_size * chunk_index
                } else {
                    poly_len as int
                }),
                chunk_index <= start,
                result.values@.len() == poly_len,
                poly_len == B::rows(domain.view()),
                ch == challenges.view(),
                a == compiled_plan.source@,
                compiled_plan.wf(),
                self.filled(domain),
                self.readable(domain.view(), a),
                scalars.wf(),
                scalars.view().len() == compiled_plan.scalar_descriptors@.len(),
                scalars::scalars_bound(
                    scalars.view(),
                    scalars::scalar_views(compiled_plan.scalar_descriptors@),
                    ch,
                    F::order(),
                ),
                (compiled_plan.cache_slots + compiled_plan.scratch_slots) * poly_len <= usize::MAX,
                forall|row: int|
                    0 <= row < start ==> (#[trigger] result.values@[row]).val() == ast::ast_value(
                        a,
                        self.env(domain.view(), ch, row),
                    ),
            decreases poly_len - start,
        {
            let left: usize = poly_len - start;
            let n: usize = if chunk_size < left {
                chunk_size
            } else {
                left
            };
            let ghost before = result.values@;
            proof {
                let k = compiled_plan.cache_slots + compiled_plan.scratch_slots;
                assert(k * n <= k * poly_len) by (nonlinear_arith)
                    requires
                        k >= 0,
                        0 <= n <= poly_len,
                ;
                assert(chunk_size * (chunk_index + 1) == chunk_size * chunk_index + chunk_size)
                    by (nonlinear_arith);
            }
            let mut out = repeated(F::zero(), n);
            self.evaluate_chunk(
                compiled_plan,
                domain,
                &scalars,
                chunk_size,
                chunk_index,
                out.as_mut_slice(),
                Ghost(ch),
            );
            store_chunk(&mut result.values, start, out.as_slice());
            proof {
                assert forall|row: int| 0 <= row < start + n implies (
                #[trigger] result.values@[row]).val() == ast::ast_value(
                    a,
                    self.env(domain.view(), ch, row),
                ) by {
                    if row >= start {
                        let i = row - start;
                        assert(out@[i].val() == ast::ast_value(
                            a,
                            self.env(domain.view(), ch, chunk_size * chunk_index + i),
                        ));
                    } else {
                        assert(before[row].val() == ast::ast_value(
                            a,
                            self.env(domain.view(), ch, row),
                        ));
                    }
                }
            }
            start += n;
            chunk_index += 1;
        }
        result
    }

    /// Evaluates the given polynomial operation against this context.
    pub fn evaluate(&self, ast: &Ast<E, F, B>, domain: &EvaluationDomain<F>) -> (r: Polynomial<
        F,
        B,
    >)
        requires
            self.filled(domain),
            self.resolves(ast.view()),
            self.readable(domain.view(), self.resolved(ast.view())),
            2 * ast::ast_size(ast.view()) <= u32::MAX,
            4 * ast::ast_size(ast.view()) <= usize::MAX,
            5 * ast::ast_size(ast.view()) * B::rows(domain.view()) <= usize::MAX,
        ensures
            self.rows_of(
                r,
                self.resolved(ast.view()),
                domain.view(),
                ChallengeView { theta: 0, beta: 0, gamma: 0, y: 0 },
            ),
    {
        assert(self.polys@[0].poly().values@.len() == B::rows(domain.view()));
        let poly_len: usize = self.polys[0].get().len();
        let (plan, layout) = self.compile_quotient_plan(ast, poly_len, None, false);
        proof {
            lemma_storage(
                plan.cache_slots + plan.scratch_slots,
                (5 * ast::ast_size(ast.view())) as int,
                poly_len as int,
            );
        }
        self.evaluate_plan(&plan, domain, no_challenges())
    }

    /// Evaluates an expression, with a retained cache layout if it fits, and returns a
    /// layout to retain if there was none that did.
    pub fn evaluate_with_cache_layout(
        &self,
        ast: &Ast<E, F, B>,
        domain: &EvaluationDomain<F>,
        cache_layout: Option<&EvaluationCacheLayout>,
    ) -> (r: (Polynomial<F, B>, Option<EvaluationCacheLayout>))
        requires
            self.filled(domain),
            self.resolves(ast.view()),
            self.readable(domain.view(), self.resolved(ast.view())),
            2 * ast::ast_size(ast.view()) <= u32::MAX,
            4 * ast::ast_size(ast.view()) <= usize::MAX,
            (u16::MAX + 5 * ast::ast_size(ast.view())) * B::rows(domain.view()) <= usize::MAX,
        ensures
            self.rows_of(
                r.0,
                self.resolved(ast.view()),
                domain.view(),
                ChallengeView { theta: 0, beta: 0, gamma: 0, y: 0 },
            ),
            planned(
                self.resolved(ast.view()),
                r.1,
                cache_layout,
                F::order(),
                basis::linear_term_budget::<B>(B::rows(domain.view()) as usize),
            ),
    {
        assert(self.polys@[0].poly().values@.len() == B::rows(domain.view()));
        let poly_len: usize = self.polys[0].get().len();
        let (plan, layout) = self.compile_quotient_plan(ast, poly_len, cache_layout, true);
        proof {
            lemma_storage(
                plan.cache_slots + plan.scratch_slots,
                u16::MAX + 5 * ast::ast_size(ast.view()),
                poly_len as int,
            );
        }
        proof {
            lemma_planned(plan, layout, cache_layout, basis::linear_term_budget::<B>(poly_len));
        }
        (self.evaluate_plan(&plan, domain, no_challenges()), layout)
    }

    /// Evaluates a quotient: with the retained plan, if it was compiled for this
    /// evaluator, and else with a plan for the expressions, which is returned if every
    /// polynomial has a tag.
    pub fn evaluate_quotient_with_compiled_plan(
        &self,
        expressions: Vec<Ast<E, F, B>>,
        domain: &EvaluationDomain<F>,
        compiled_plan: Option<&CompiledEvaluationPlan<F, B>>,
        challenges: EvaluationChallenges<F>,
    ) -> (r: (Polynomial<F, B>, Option<CompiledEvaluationPlan<F, B>>))
        requires
            self.filled(domain),
            self.accepts(compiled_plan) ==> {
                &&& compiled_plan->0.wf()
                &&& self.readable(domain.view(), compiled_plan->0.source@)
                &&& (compiled_plan->0.cache_slots + compiled_plan->0.scratch_slots) * B::rows(
                    domain.view(),
                ) <= usize::MAX
            },
            !self.accepts(compiled_plan) ==> {
                let a = quotient_node(ast::ast_views(expressions@));
                &&& self.resolves(a)
                &&& self.readable(domain.view(), self.resolved(a))
                &&& 2 * ast::ast_size(a) <= u32::MAX
                &&& 4 * ast::ast_size(a) <= usize::MAX
                &&& 5 * ast::ast_size(a) * B::rows(domain.view()) <= usize::MAX
            },
        ensures
            self.accepts(compiled_plan) ==> r.1 is None && self.rows_of(
                r.0,
                compiled_plan->0.source@,
                domain.view(),
                challenges.view(),
            ),
            !self.accepts(compiled_plan) ==> self.rows_of(
                r.0,
                self.resolved(quotient_node(ast::ast_views(expressions@))),
                domain.view(),
                challenges.view(),
            ) && (r.1 is Some <==> self.polynomial_tags is Some && self.polynomial_tags->0@.len()
                == self.polys@.len()),
            !self.accepts(compiled_plan) ==> (r.1 matches Some(plan) ==> plan.wf()
                && plan.source@ == self.resolved(quotient_node(ast::ast_views(expressions@)))
                && self.accepts(Some(&plan)) && plan.scratch_slots <= 4 * ast::ast_size(
                quotient_node(ast::ast_views(expressions@)),
            ) && plan.cache_slots <= ast::ast_size(quotient_node(ast::ast_views(expressions@)))
                && plan.cached_for(basis::linear_term_budget::<B>(B::rows(domain.view()) as usize))),
    {
        if let Some(plan) = compiled_plan {
            if self.matches_shape(&plan.evaluator_shape) {
                return (self.evaluate_plan(plan, domain, challenges), None);
            }
        }
        assert(self.polys@[0].poly().values@.len() == B::rows(domain.view()));
        let poly_len: usize = self.polys[0].get().len();
        let ast = Ast::distribute_challenge_powers(expressions, EvaluationChallenge::Y);
        let (plan, layout) = self.compile_quotient_plan(&ast, poly_len, None, false);
        proof {
            lemma_cached_for(plan, layout, basis::linear_term_budget::<B>(poly_len));
            lemma_storage(
                plan.cache_slots + plan.scratch_slots,
                (5 * ast::ast_size(ast.view())) as int,
                poly_len as int,
            );
        }
        let result = self.evaluate_plan(&plan, domain, challenges);
        if self.has_complete_polynomial_tags() {
            (result, Some(plan))
        } else {
            (result, None)
        }
    }

    /// The retained plan was compiled for this evaluator.
    pub open spec fn accepts(&self, plan: Option<&CompiledEvaluationPlan<F, B>>) -> bool {
        &&& plan is Some
        &&& plan->0.evaluator_shape.view() == self.shape(0)
        &&& self.polynomial_tags is Some
    }

    /// Plans a cache layout without evaluating any polynomial rows.
    ///
    /// This requires an evaluator constructed by [`new_virtual_evaluator`].
    pub fn prepare_cache_layout(&self, ast: &Ast<E, F, B>, poly_len: usize) -> (r: Option<
        EvaluationCacheLayout,
    >)
        requires
            self.virtual_poly_count is Some,
            self.resolves(ast.view()),
            2 * ast::ast_size(ast.view()) <= u32::MAX,
            4 * ast::ast_size(ast.view()) <= usize::MAX,
        ensures
            planned(
                self.resolved(ast.view()),
                r,
                None,
                F::order(),
                basis::linear_term_budget::<B>(poly_len),
            ),
    {
        let (plan, layout) = self.compile_quotient_plan(ast, poly_len, None, true);
        proof {
            lemma_planned(plan, layout, None, basis::linear_term_budget::<B>(poly_len));
        }
        layout
    }

    /// Compiles a challenge-independent quotient plan without evaluating
    /// polynomial rows.
    ///
    /// This requires an evaluator constructed by [`new_virtual_evaluator`].
    pub fn prepare_compiled_quotient_plan(&self, ast: &Ast<E, F, B>, poly_len: usize) -> (r:
        CompiledEvaluationPlan<F, B>)
        requires
            self.virtual_poly_count is Some,
            self.polynomial_tags is Some,
            self.polynomial_tags->0@.len() == self.count(),
            self.resolves(ast.view()),
            2 * ast::ast_size(ast.view()) <= u32::MAX,
            4 * ast::ast_size(ast.view()) <= usize::MAX,
        ensures
            r.wf(),
            r.source@ == self.resolved(ast.view()),
            r.evaluator_shape.view() == self.shape(poly_len),
            r.scratch_slots <= 4 * ast::ast_size(ast.view()),
            r.cache_slots <= ast::ast_size(ast.view()),
            r.cached_for(basis::linear_term_budget::<B>(poly_len)),
    {
        let (plan, layout) = self.compile_quotient_plan(ast, poly_len, None, false);
        proof {
            lemma_cached_for(plan, layout, basis::linear_term_budget::<B>(poly_len));
        }
        plan
    }
}

/// Nothing is retained where nothing is asked to be.
proof fn lemma_cached_for<F: Field, B>(
    plan: CompiledEvaluationPlan<F, B>,
    layout: Option<EvaluationCacheLayout>,
    budget: LinearTermCacheBudget,
)
    requires
        exists|plain: PlanView| #[trigger]
            plan.made_from(plain) && cse::cached_with(
                plain,
                plan.plan.view(),
                plan.cache_slots as int,
                layout,
                None,
                false,
                scalars::scalar_views(plan.scalar_descriptors@),
                F::order(),
                budget,
            ),
    ensures
        plan.cached_for(budget),
{
    let plain = choose|plain: PlanView| #[trigger]
        plan.made_from(plain) && cse::cached_with(
            plain,
            plan.plan.view(),
            plan.cache_slots as int,
            layout,
            None,
            false,
            scalars::scalar_views(plan.scalar_descriptors@),
            F::order(),
            budget,
        );
    assert(layout is None);
    assert(plan.made_from(plain));
}

/// `layout` is what a plan for the expression leaves to retain, when it is cached with
/// the given layout, if that fits, and else with a schedule of its own.
pub open spec fn planned(
    a: AstView,
    layout: Option<EvaluationCacheLayout>,
    given: Option<&EvaluationCacheLayout>,
    p: int,
    budget: LinearTermCacheBudget,
) -> bool {
    exists|plain: PlanView, cached: PlanView, slots: int, descs: Seq<ScalarView>|
        lowering::compiled(plain, a, descs, p) && descs.no_duplicates() && compile::root_fits(a, plain.op)
            && partition::distributes(plain, a, descs, p) && #[trigger] cse::cached_with(
            plain,
            cached,
            slots,
            layout,
            given,
            true,
            descs,
            p,
            budget,
        )
}

/// A layout is returned only where the given one does not fit the plan of the expression,
/// and fits that plan itself. There it is returned, unless the plan is too large to be
/// retained.
pub proof fn law_layout_is_returned(
    a: AstView,
    layout: Option<EvaluationCacheLayout>,
    given: Option<&EvaluationCacheLayout>,
    p: int,
    budget: LinearTermCacheBudget,
)
    requires
        planned(a, layout, given, p, budget),
    ensures
        cse::fits_again(given, written::plan_of(a, p)) ==> layout is None,
        layout matches Some(fresh) ==> retained::layout_fits(written::plan_of(a, p), fresh),
        !cse::fits_again(given, written::plan_of(a, p)) && schedule::plan_size(written::plan_of(a, p)) <= u16::MAX
            ==> layout is Some,
{
    let (plain, cached, slots, descs) = choose|
        plain: PlanView,
        cached: PlanView,
        slots: int,
        descs: Seq<ScalarView>,
    |
        lowering::compiled(plain, a, descs, p) && descs.no_duplicates() && compile::root_fits(a, plain.op)
            && partition::distributes(plain, a, descs, p) && #[trigger] cse::cached_with(
            plain,
            cached,
            slots,
            layout,
            given,
            true,
            descs,
            p,
            budget,
        );
    if given is Some {
        again::lemma_fits_expression(plain, a, descs, p, *given->0);
    }
    if !cse::fits_again(given, plain) {
        let actions = choose|actions: Seq<Option<CacheAction>>| #[trigger]
            cse::made_with(plain, cached, slots, layout, true, descs, p, budget, actions);
        assert(cse::made_with(plain, cached, slots, layout, true, descs, p, budget, actions));
        if layout is Some {
            again::lemma_fits_expression(plain, a, descs, p, layout->0);
        }
        if schedule::plan_size(written::plan_of(a, p)) <= u16::MAX {
            let nodes = schedule::occurrences(plain);
            again::lemma_plan_nodes(plain, a, descs, p);
            schedule::lemma_occurrences_len(plain);
            retained::lemma_valid_ends(nodes, actions, slots);
            assert forall|o: int| 0 <= o < actions.len() implies (
            #[trigger] actions[o] matches Some(action) ==> retained::retainable(action)) by {
                if actions[o] is Some {
                    assert(schedule::is_action(actions, o));
                    cse::lemma_node_end(plain, o);
                }
            }
            assert(cse::retains(actions, slots));
        }
    }
}

/// A layout that an evaluation of an expression returns is accepted at the next one, also
/// for polynomials of another length, and nothing is returned then.
pub proof fn law_returned_layout_is_accepted(
    a: AstView,
    layout: EvaluationCacheLayout,
    given: Option<&EvaluationCacheLayout>,
    next: Option<EvaluationCacheLayout>,
    p: int,
    budget: LinearTermCacheBudget,
    next_budget: LinearTermCacheBudget,
)
    requires
        planned(a, Some(layout), given, p, budget),
        planned(a, next, Some(&layout), p, next_budget),
    ensures
        cse::fits_again(Some(&layout), written::plan_of(a, p)),
        next is None,
{
    law_layout_is_returned(a, Some(layout), given, p, budget);
    law_layout_is_returned(a, next, Some(&layout), p, next_budget);
}

/// The rows of an expression do not depend on the plan, nor on the layout with which the
/// plan is cached: what a retained plan gives for new challenges is what a new plan gives.
pub proof fn law_rows_do_not_depend_on_the_plan<'poly, E, F: Field, B: BasisOps>(
    evaluator: Evaluator<'poly, E, F, B>,
    x: Polynomial<F, B>,
    y: Polynomial<F, B>,
    a: AstView,
    domain: DomainView,
    ch: ChallengeView,
)
    requires
        evaluator.rows_of(x, a, domain, ch),
        evaluator.rows_of(y, a, domain, ch),
    ensures
        poly::vals(x.values@) == poly::vals(y.values@),
{
    assert(poly::vals(x.values@) =~= poly::vals(y.values@)) by {
        assert forall|row: int| 0 <= row < x.values@.len() implies poly::vals(x.values@)[row] == poly::vals(
            y.values@,
        )[row] by {
            assert(x.values@[row].val() == ast::ast_value(a, evaluator.env(domain, ch, row)));
            assert(y.values@[row].val() == ast::ast_value(a, evaluator.env(domain, ch, row)));
        }
    }
}

proof fn lemma_planned<F: Field, B>(
    plan: CompiledEvaluationPlan<F, B>,
    layout: Option<EvaluationCacheLayout>,
    given: Option<&EvaluationCacheLayout>,
    budget: LinearTermCacheBudget,
)
    requires
        exists|plain: PlanView| #[trigger]
            plan.made_from(plain) && cse::cached_with(
                plain,
                plan.plan.view(),
                plan.cache_slots as int,
                layout,
                given,
                true,
                scalars::scalar_views(plan.scalar_descriptors@),
                F::order(),
                budget,
            ),
    ensures
        planned(plan.source@, layout, given, F::order(), budget),
{
}

/// The sum of expressions with powers of the challenge `y`.
pub open spec fn quotient_node(s: Seq<AstView>) -> AstView {
    AstView {
        op: AstOp::Distribute(BaseView::Challenge(EvaluationChallenge::Y)),
        children: s,
    }
}

fn no_challenges<F: Field>() -> (r: EvaluationChallenges<F>)
    ensures
        r.view() == (ChallengeView { theta: 0, beta: 0, gamma: 0, y: 0 }),
{
    EvaluationChallenges::new(F::zero(), F::zero(), F::zero(), F::zero())
}

proof fn lemma_storage(slots: int, bound: int, rows: int)
    requires
        0 <= slots <= bound,
        rows >= 0,
        bound * rows <= usize::MAX,
    ensures
        slots * rows <= usize::MAX,
{
    assert(slots * rows <= bound * rows) by (nonlinear_arith)
        requires
            slots <= bound,
            rows >= 0,
    ;
}

proof fn lemma_exponent_small(views: Seq<ScalarView>, max: Seq<u32>, i: int)
    requires
        0 <= i < 4,
        forall|c: EvaluationChallenge|
            max[#[trigger] c.spec_index()] == 0 || views.contains(
                ScalarView::ChallengePower(c, max[c.spec_index()] as nat),
            ),
        forall|c: EvaluationChallenge, e: nat|
            #[trigger] views.contains(ScalarView::ChallengePower(c, e)) ==> e < usize::MAX,
    ensures
        max[i] < usize::MAX,
{
    let c = if i == 0 {
        EvaluationChallenge::Theta
    } else if i == 1 {
        EvaluationChallenge::Beta
    } else if i == 2 {
        EvaluationChallenge::Gamma
    } else {
        EvaluationChallenge::Y
    };
    assert(c.spec_index() == i);
}

/// Copies a chunk to its rows.
fn store_chunk<F: Field>(values: &mut Vec<F>, start: usize, chunk: &[F])
    requires
        start + chunk@.len() <= old(values)@.len(),
    ensures
        final(values)@.len() == old(values)@.len(),
        forall|k: int|
            0 <= k < final(values)@.len() ==> #[trigger] final(values)@[k] == (if start <= k < start
                + chunk@.len() {
                chunk@[k - start]
            } else {
                old(values)@[k]
            }),
{
    let n: usize = chunk.len();
    let total: usize = values.len();
    let mut i: usize = 0;
    while i < n
        invariant
            i <= n,
            n == chunk@.len(),
            start + n <= total,
            total == values@.len(),
            values@.len() == old(values)@.len(),
            forall|k: int|
                0 <= k < values@.len() ==> #[trigger] values@[k] == (if start <= k < start + i {
                    chunk@[k - start]
                } else {
                    old(values)@[k]
                }),
        decreases n - i,
    {
        values.set(start + i, chunk[i]);
        i += 1;
    }
}

} // verus!
