//! Compilation of expressions to evaluation plans.
use crate::arith;
use crate::ast;
use crate::ast::{
    Ast, AstMul, AstOp, AstView, FactorSide, IndexedLeaf, RowEnv, factor_terms, same_ast,
};
use crate::field::Field;
use crate::lowering;
use crate::partition;
use crate::partition::Piece;
use crate::pieces;
use crate::pieces::RunFact;
use crate::plan;
use crate::plan::{
    DistributionWork, EvaluationPlan, FactorBodyPlan, FactorBodyWork, FactorShape, PlanOp,
    PlanView, RunShape, SelectorFamilyRun, WeightedTerm, WorkShape,
};
use crate::scalars;
use crate::scalars::{BaseView, PlanScalar, PlanScalarInterner, PowerBase, ScalarView};
use crate::shapes;
use crate::shapes::{
    FactorGroup, MIN_HORNER_COEFFICIENTS, RunView, SelectorFamilyMatch, SelectorRunMatch,
    expanded_polynomial, factor_groups, selector_family_matches,
};
use crate::values;
use crate::written;
use vstd::prelude::*;

verus! {

/// `powers` lists the powers of the base, from the lowest.
spec fn lists_powers<F: Field>(powers: Seq<PlanScalar<F>>, base: BaseView) -> bool {
    forall|e: int|
        0 <= e < powers.len() ==> (#[trigger] powers[e]).view() == pieces::power_desc(
            base,
            e as nat,
            F::order(),
        )
}

/// What the root of a plan is, for the expression it is compiled from: polynomials
/// written out in powers are evaluated by Horner's rule, and a product of equal
/// operands is a square.
pub open spec fn root_fits(a: AstView, op: PlanOp) -> bool
    decreases a,
{
    match a.op {
        AstOp::Poly(leaf) => op == PlanOp::Poly(leaf),
        AstOp::Add => match op {
            PlanOp::Horner(coefficients) => coefficients.len() >= MIN_HORNER_COEFFICIENTS && exists|
                base: AstView,
            |
                a == #[trigger] shapes::expanded_node(base, coefficients),
            _ => op == PlanOp::Add && forall|base: AstView, coefficients: Seq<IndexedLeaf>|
                coefficients.len() >= MIN_HORNER_COEFFICIENTS ==> a != #[trigger] shapes::expanded_node(
                    base,
                    coefficients,
                ),
        },
        AstOp::Mul => op == (if a.children[0] == a.children[1] {
            PlanOp::Square
        } else {
            PlanOp::Mul
        }),
        AstOp::Scale(_) => op is Scale,
        AstOp::Distribute(_) => if a.children.len() == 0 {
            op is ConstantTerm
        } else if a.children.len() == 1 {
            root_fits(a.children[0], op)
        } else {
            op is Distribute
        },
        AstOp::LinearTerm(_) | AstOp::LinearChallengeTerm(_, _) => op is LinearTerm,
        AstOp::ConstantTerm(_) | AstOp::ChallengeTerm(_) => op is ConstantTerm,
    }
}

spec fn group_bodies<'a, E, F: Field, B>(terms: Seq<(usize, &'a Ast<E, F, B>)>) -> Seq<AstView> {
    Seq::new(terms.len(), |k: int| terms[k].1.view())
}

/// The terms of the group are unclaimed products with its factor, in order.
spec fn group_open<'a, E, F: Field, B>(
    group: FactorGroup<'a, E, F, B>,
    places: Seq<usize>,
    terms: Seq<AstView>,
    claimed: Seq<bool>,
) -> bool {
    &&& group.terms@.len() > 0
    &&& forall|k: int|
        #![trigger group.terms@[k]]
        0 <= k < group.terms@.len() ==> {
            &&& group.terms@[k].0 < places.len()
            &&& places[group.terms@[k].0 as int] < terms.len()
            &&& !claimed[places[group.terms@[k].0 as int] as int]
            &&& terms[places[group.terms@[k].0 as int] as int] == ast::product_node(
                group.side,
                group.factor.view(),
                group.terms@[k].1.view(),
            )
        }
    &&& forall|k: int, l: int|
        0 <= k < l < group.terms@.len() ==> places[(#[trigger] group.terms@[k]).0 as int]
            < places[(#[trigger] group.terms@[l]).0 as int]
}

impl EvaluationPlan {
    /// Compiles an expression, and collects its scalars.
    pub fn compile<E, F: Field, B>(
        ast: &Ast<E, F, B>,
        scalars: &mut PlanScalarInterner<F>,
    ) -> (r: Self)
        requires
            old(scalars).wf(),
            old(scalars).view().len() + 2 * ast::ast_size(ast.view()) <= u32::MAX,
        ensures
            final(scalars).wf(),
            lowering::extends(final(scalars).view(), old(scalars).view()),
            final(scalars).view().len() < old(scalars).view().len() + 2 * ast::ast_size(ast.view()),
            lowering::compiled(r.view(), ast.view(), final(scalars).view(), F::order()),
            root_fits(ast.view(), r.view().op),
            partition::distributes(r.view(), ast.view(), final(scalars).view(), F::order()),
        decreases 2 * ast::ast_size(ast.view()), 1int,
    {
        let ghost p = F::order();
        let ghost start = scalars.view();
        proof {
            F::lemma_order();
            assert(lowering::extends(start, start)) by {
                assert(start.take(start.len() as int) =~= start);
            }
        }
        match ast {
            Ast::Poly(leaf) => {
                proof {
                    lowering::lemma_compiled_poly(leaf.view(), start, p);
                }
                EvaluationPlan::Poly(leaf.indexed())
            },
            Ast::Add(lhs, rhs) => {
                proof {
                    shapes::lemma_ast_size_pair(AstOp::Add, lhs.view(), rhs.view());
                }
                match expanded_polynomial(ast) {
                    Some(polynomial) => {
                        let ghost base_view = polynomial.base.view();
                        proof {
                            lowering::lemma_expanded_size(base_view, polynomial.coefficients@);
                        }
                        let base = EvaluationPlan::compile(polynomial.base, scalars);
                        proof {
                            lowering::lemma_compiled_horner(
                                base.view(),
                                base_view,
                                polynomial.coefficients@,
                                scalars.view(),
                                p,
                            );
                        }
                        EvaluationPlan::Horner {
                            base: Box::new(base),
                            coefficients: polynomial.coefficients,
                        }
                    },
                    None => {
                        let x = EvaluationPlan::compile(lhs, scalars);
                        let ghost mid = scalars.view();
                        let y = EvaluationPlan::compile(rhs, scalars);
                        proof {
                            lowering::lemma_extends(start, mid, scalars.view());
                            lowering::lemma_compiled_mono(x.view(), lhs.view(), mid, scalars.view(), p);
                            lowering::lemma_compiled_add(
                                x.view(),
                                y.view(),
                                lhs.view(),
                                rhs.view(),
                                scalars.view(),
                                p,
                            );
                        }
                        EvaluationPlan::Add(Box::new(x), Box::new(y))
                    },
                }
            },
            Ast::Mul(AstMul(lhs, rhs)) => {
                proof {
                    shapes::lemma_ast_size_pair(AstOp::Mul, lhs.view(), rhs.view());
                }
                let x = EvaluationPlan::compile(lhs, scalars);
                let ghost mid = scalars.view();
                if same_ast(lhs, rhs) {
                    proof {
                        lowering::lemma_compiled_mul(x.view(), x.view(), lhs.view(), rhs.view(), mid, p);
                    }
                    EvaluationPlan::Square(Box::new(x))
                } else {
                    let y = EvaluationPlan::compile(rhs, scalars);
                    proof {
                        lowering::lemma_extends(start, mid, scalars.view());
                        lowering::lemma_compiled_mono(x.view(), lhs.view(), mid, scalars.view(), p);
                        lowering::lemma_compiled_mul(
                            x.view(),
                            y.view(),
                            lhs.view(),
                            rhs.view(),
                            scalars.view(),
                            p,
                        );
                    }
                    EvaluationPlan::Mul(Box::new(x), Box::new(y))
                }
            },
            Ast::Scale(inner, scalar) => {
                proof {
                    lemma_single_size(AstOp::Scale(scalar.val()), inner.view());
                }
                let x = EvaluationPlan::compile(inner, scalars);
                let ghost mid = scalars.view();
                let id = scalars.intern(PlanScalar::Literal(*scalar));
                proof {
                    lowering::lemma_interned(mid, scalars.view(), ScalarView::Literal(scalar.val()));
                    lowering::lemma_extends(start, mid, scalars.view());
                    lowering::lemma_compiled_mono(x.view(), inner.view(), mid, scalars.view(), p);
                    lowering::lemma_compiled_scale(
                        x.view(),
                        id.at(),
                        inner.view(),
                        scalar.val(),
                        scalars.view(),
                        p,
                    );
                }
                EvaluationPlan::Scale(Box::new(x), id)
            },
            Ast::DistributePowers(terms, base) => {
                EvaluationPlan::compile_distribute_powers(
                    terms.as_slice(),
                    PowerBase::Literal(*base),
                    scalars,
                )
            },
            Ast::DistributeChallengePowers(terms, challenge) => {
                EvaluationPlan::compile_distribute_powers(
                    terms.as_slice(),
                    PowerBase::Challenge(*challenge),
                    scalars,
                )
            },
            Ast::LinearTerm(scalar) => {
                let id = scalars.intern(PlanScalar::Literal(*scalar));
                proof {
                    lowering::lemma_interned(start, scalars.view(), ScalarView::Literal(scalar.val()));
                    lowering::lemma_compiled_term(
                        id.at(),
                        AstOp::LinearTerm(scalar.val()),
                        scalars.view(),
                        p,
                    );
                }
                EvaluationPlan::LinearTerm(id)
            },
            Ast::LinearChallengeTerm { challenge, factor } => {
                let id = scalars.intern(
                    PlanScalar::ScaledChallenge { challenge: *challenge, factor: *factor },
                );
                proof {
                    lowering::lemma_interned(
                        start,
                        scalars.view(),
                        ScalarView::ScaledChallenge(*challenge, factor.val()),
                    );
                    lowering::lemma_compiled_term(
                        id.at(),
                        AstOp::LinearChallengeTerm(*challenge, factor.val()),
                        scalars.view(),
                        p,
                    );
                }
                EvaluationPlan::LinearTerm(id)
            },
            Ast::ConstantTerm(scalar) => {
                let id = scalars.intern(PlanScalar::Literal(*scalar));
                proof {
                    lowering::lemma_interned(start, scalars.view(), ScalarView::Literal(scalar.val()));
                    lowering::lemma_compiled_term(
                        id.at(),
                        AstOp::ConstantTerm(scalar.val()),
                        scalars.view(),
                        p,
                    );
                }
                EvaluationPlan::ConstantTerm(id)
            },
            Ast::ChallengeTerm(challenge) => {
                let id = scalars.intern(PlanScalar::Challenge(*challenge));
                proof {
                    lowering::lemma_interned(start, scalars.view(), ScalarView::Challenge(*challenge));
                    lowering::lemma_compiled_term(
                        id.at(),
                        AstOp::ChallengeTerm(*challenge),
                        scalars.view(),
                        p,
                    );
                }
                EvaluationPlan::ConstantTerm(id)
            },
        }
    }

    /// Compiles a linear combination of terms with the powers of `base`, the last term
    /// having power zero.
    pub fn compile_distribute_powers<E, F: Field, B>(
        terms: &[Ast<E, F, B>],
        base: PowerBase<F>,
        scalars: &mut PlanScalarInterner<F>,
    ) -> (r: Self)
        requires
            old(scalars).wf(),
            old(scalars).view().len() + 2 * ast::ast_sizes(ast::ast_views(terms@)) + 2 <= u32::MAX,
        ensures
            final(scalars).wf(),
            lowering::extends(final(scalars).view(), old(scalars).view()),
            final(scalars).view().len() <= old(scalars).view().len() + 2 * ast::ast_sizes(
                ast::ast_views(terms@),
            ) + 1,
            lowering::compiled(
                r.view(),
                AstView { op: AstOp::Distribute(base.view()), children: ast::ast_views(terms@) },
                final(scalars).view(),
                F::order(),
            ),
            root_fits(
                AstView { op: AstOp::Distribute(base.view()), children: ast::ast_views(terms@) },
                r.view().op,
            ),
            partition::distributes(
                r.view(),
                AstView { op: AstOp::Distribute(base.view()), children: ast::ast_views(terms@) },
                final(scalars).view(),
                F::order(),
            ),
        decreases 2 * ast::ast_sizes(ast::ast_views(terms@)) + 1, 2int,
    {
        let ghost p = F::order();
        let ghost start = scalars.view();
        let ghost views = ast::ast_views(terms@);
        let ghost bv = base.view();
        proof {
            F::lemma_order();
            ast::lemma_ast_views(terms@);
        }
        if terms.len() == 0 {
            let id = scalars.intern(PlanScalar::Literal(F::zero()));
            proof {
                lowering::lemma_interned(start, scalars.view(), ScalarView::Literal(0));
                lemma_compiled_empty(id.at(), bv, scalars.view(), p);
                assert(views =~= Seq::<AstView>::empty());
            }
            return EvaluationPlan::ConstantTerm(id);
        }
        if terms.len() == 1 {
            proof {
                shapes::lemma_ast_sizes_bound(views, 0);
                assert(views =~= seq![terms@[0].view()]);
            }
            let r = EvaluationPlan::compile(&terms[0], scalars);
            proof {
                lemma_compiled_single(r.view(), terms@[0].view(), bv, scalars.view(), p);
            }
            return r;
        }
        proof {
            pieces::lemma_claimed_size_bound(views, Seq::new(views.len(), |i: int| false));
        }
        let n: usize = terms.len();
        let powers = base.powers(n);
        let minus_one = F::one().neg();
        proof {
            ast::lemma_minus_one::<F>();
        }
        let families = selector_family_matches(terms, minus_one);
        let ghost runs = choose|runs: Seq<RunView>|
            #![trigger shapes::families_match(families@, runs)]
            shapes::is_scan(views, n as int, runs, p) && shapes::families_match(families@, runs);
        let mut claimed: Vec<bool> = unclaimed(n);
        let mut work: Vec<DistributionWork> = Vec::new();
        let ghost mut list: Seq<Piece> = Seq::empty();
        proof {
            pieces::lemma_unclaimed_size(views, claimed@);
            pieces::lemma_pieces_empty(views, claimed@, bv, start, p);
            partition::lemma_all_fit_empty(views, bv, start, p);
            assert(plan::work_shapes(work@) =~= Seq::<WorkShape>::empty());
            assert(start.take(start.len() as int) =~= start);
        }
        let mut f: usize = 0;
        while f < families.len()
            invariant
                f <= families@.len(),
                terms@.len() == n,
                n >= 2,
                p == F::order(),
                p > 2,
                bv == base.view(),
                views == ast::ast_views(terms@),
                views.len() == n,
                forall|i: int| 0 <= i < n ==> #[trigger] views[i] == terms@[i].view(),
                powers@.len() == n,
                lists_powers(powers@, bv),
                shapes::is_scan(views, n as int, runs, p),
                shapes::families_match(families@, runs),
                start.len() + 2 * ast::ast_sizes(views) + 2 <= u32::MAX,
                scalars.wf(),
                lowering::extends(scalars.view(), start),
                scalars.view().len() <= start.len() + 2 * pieces::claimed_size(views, claimed@),
                pieces::pieces(
                    plan::work_shapes(work@),
                    plan::works_children(work@),
                    views,
                    claimed@,
                    bv,
                    scalars.view(),
                    p,
                ),
                claimed@.len() == n,
                forall|i: int|
                    0 <= i < n && #[trigger] claimed@[i] ==> taken(families@, f as int, 0, i),
                list.len() == f,
                plan::work_shapes(work@) == partition::piece_shapes(list),
                plan::works_children(work@) == partition::pieces_kids(list),
                partition::all_fit(list, views, bv, scalars.view(), p),
                forall|g: int|
                    #![trigger families@[g]]
                    0 <= g < f ==> is_family(list[g], families@[g]),
                forall|i: int| 0 <= i < n ==> (#[trigger] claimed@[i] <==> partition::in_pieces(list, i)),
            decreases families@.len() - f,
        {
            let ghost descs = scalars.view();
            let ghost before = claimed@;
            let ghost before_list = list;
            let family = &families[f];
            assert(families@[f as int] == *family);
            let (family_runs, Ghost(facts)) = EvaluationPlan::compile_family(
                terms,
                base,
                &powers,
                &families,
                f,
                &mut claimed,
                scalars,
                Ghost(runs),
                Ghost(start.len()),
            );
            let query = family.query.indexed();
            proof {
                lowering::lemma_extends(start, descs, scalars.view());
                pieces::lemma_pieces_mono(
                    plan::work_shapes(work@),
                    plan::works_children(work@),
                    views,
                    before,
                    bv,
                    descs,
                    scalars.view(),
                    p,
                );
                pieces::lemma_piece_family(
                    plan::work_shapes(work@),
                    plan::works_children(work@),
                    views,
                    before,
                    bv,
                    scalars.view(),
                    p,
                    query,
                    facts,
                );
            }
            let ghost entry = Piece::Family { query, runs: facts };
            let piece = DistributionWork::SelectorFamily { query, runs: family_runs };
            proof {
                plan::lemma_works_push(work@, piece);
                assert(plan::work_children(piece) == pieces::fact_children(facts));
                assert(partition::piece_fits(entry, views, bv, scalars.view(), p));
                partition::lemma_all_fit_push(list, entry, views, bv, descs, scalars.view(), p);
                list = list.push(entry);
                assert(is_family(entry, families@[f as int]));
                assert forall|g: int|
                    #![trigger families@[g]]
                    0 <= g < f + 1 implies is_family(list[g], families@[g]) by {
                    if g < f {
                        assert(list[g] == before_list[g]);
                    }
                }
                assert forall|i: int| 0 <= i < n implies (#[trigger] claimed@[i] <==> partition::in_pieces(
                    list,
                    i,
                )) by {
                    partition::lemma_claim_runs(before, facts, i);
                }
            }
            work.push(piece);
            f += 1;
        }
        proof {
            lemma_family_pieces(list, families@, runs, views, p);
        }
        let (r, Ghost(left), Ghost(right), Ghost(singles)) = EvaluationPlan::compile_rest(
            terms,
            base,
            &powers,
            claimed,
            work,
            scalars,
            Ghost(start),
            Ghost(list),
        );
        proof {
            assert(partition::is_division(list, left, right, singles, views, p));
            written::lemma_written_distribute(
                r.view(),
                list,
                left,
                right,
                singles,
                views,
                bv,
                scalars.view(),
                p,
            );
        }
        r
    }

    /// The runs of one selector family.
    fn compile_family<E, F: Field, B>(
        terms: &[Ast<E, F, B>],
        base: PowerBase<F>,
        powers: &Vec<PlanScalar<F>>,
        families: &Vec<SelectorFamilyMatch<E, B>>,
        f: usize,
        claimed: &mut Vec<bool>,
        scalars: &mut PlanScalarInterner<F>,
        Ghost(scan): Ghost<Seq<RunView>>,
        Ghost(start): Ghost<nat>,
    ) -> (r: (Vec<SelectorFamilyRun>, Ghost<Seq<RunFact>>))
        requires
            terms@.len() >= 2,
            powers@.len() == terms@.len(),
            lists_powers(powers@, base.view()),
            shapes::is_scan(ast::ast_views(terms@), terms@.len() as int, scan, F::order()),
            shapes::families_match(families@, scan),
            f < families@.len(),
            start + 2 * ast::ast_sizes(ast::ast_views(terms@)) + 2 <= u32::MAX,
            old(scalars).wf(),
            old(scalars).view().len() <= start + 2 * pieces::claimed_size(
                ast::ast_views(terms@),
                old(claimed)@,
            ),
            old(claimed)@.len() == terms@.len(),
            forall|i: int|
                0 <= i < terms@.len() && #[trigger] old(claimed)@[i] ==> taken(
                    families@,
                    f as int,
                    0,
                    i,
                ),
        ensures
            final(scalars).wf(),
            lowering::extends(final(scalars).view(), old(scalars).view()),
            final(scalars).view().len() <= start + 2 * pieces::claimed_size(
                ast::ast_views(terms@),
                final(claimed)@,
            ),
            final(claimed)@ == pieces::claim_runs(old(claimed)@, r.1@),
            final(claimed)@.len() == terms@.len(),
            forall|i: int|
                0 <= i < terms@.len() && #[trigger] final(claimed)@[i] ==> taken(
                    families@,
                    f + 1,
                    0,
                    i,
                ),
            r.1@.len() >= 2,
            pieces::runs_fresh(old(claimed)@, r.1@),
            forall|j: int|
                0 <= j < r.1@.len() ==> pieces::run_computes(
                    #[trigger] r.1@[j],
                    j,
                    families@[f as int].query.view(),
                    r.1@.len() as int,
                    ast::ast_views(terms@),
                    base.view(),
                    final(scalars).view(),
                    F::order(),
                ),
            plan::run_shapes(r.0@) == pieces::fact_shapes(r.1@),
            plan::runs_children(r.0@) == pieces::fact_children(r.1@),
            r.1@.len() == families@[f as int].runs@.len(),
            forall|j: int|
                0 <= j < r.1@.len() ==> at_match(#[trigger] r.1@[j], families@[f as int].runs@[j]),
            partition::bodies_divided(r.1@, base.view(), final(scalars).view(), F::order()),
        decreases 2 * ast::ast_sizes(ast::ast_views(terms@)) + 1, 1int,
    {
        let ghost p = F::order();
        let ghost views = ast::ast_views(terms@);
        let ghost bv = base.view();
        let ghost query = families@[f as int].query.view();
        let ghost len = families@[f as int].combination_len as int;
        let ghost begin = scalars.view();
        let n: usize = terms.len();
        let ghost mut facts: Seq<RunFact> = Seq::empty();
        let mut out: Vec<SelectorFamilyRun> = Vec::new();
        proof {
            F::lemma_order();
            ast::lemma_ast_views(terms@);
            assert(begin.take(begin.len() as int) =~= begin);
            assert(plan::run_shapes(out@) =~= pieces::fact_shapes(facts));
        }
        let mut j: usize = 0;
        while j < families[f].runs.len()
            invariant
                f < families@.len(),
                j <= families@[f as int].runs@.len(),
                terms@.len() == n,
                n >= 2,
                p == F::order(),
                p > 2,
                bv == base.view(),
                views == ast::ast_views(terms@),
                views.len() == n,
                forall|i: int| 0 <= i < n ==> #[trigger] views[i] == terms@[i].view(),
                powers@.len() == n,
                lists_powers(powers@, bv),
                shapes::is_scan(views, n as int, scan, p),
                shapes::families_match(families@, scan),
                query == families@[f as int].query.view(),
                len == families@[f as int].combination_len,
                start + 2 * ast::ast_sizes(views) + 2 <= u32::MAX,
                scalars.wf(),
                lowering::extends(scalars.view(), begin),
                scalars.view().len() <= start + 2 * pieces::claimed_size(views, claimed@),
                claimed@.len() == n,
                claimed@ == pieces::claim_runs(old(claimed)@, facts),
                forall|i: int|
                    0 <= i < n && #[trigger] claimed@[i] ==> taken(
                        families@,
                        f as int,
                        j as int,
                        i,
                    ),
                facts.len() == j,
                out@.len() == j,
                pieces::runs_fresh(old(claimed)@, facts),
                forall|k: int|
                    0 <= k < j ==> pieces::run_computes(
                        #[trigger] facts[k],
                        k,
                        query,
                        len,
                        views,
                        bv,
                        scalars.view(),
                        p,
                    ),
                plan::run_shapes(out@) == pieces::fact_shapes(facts),
                plan::runs_children(out@) == pieces::fact_children(facts),
                forall|k: int|
                    0 <= k < j ==> at_match(#[trigger] facts[k], families@[f as int].runs@[k]),
                j > 0 ==> partition::bodies_divided(facts, bv, scalars.view(), p),
            decreases families@[f as int].runs@.len() - j,
        {
            let ghost descs = scalars.view();
            let ghost before = claimed@;
            let run = families[f].runs[j];
            let ghost sel = shapes::selector_node(query, len, j + 1, p);
            proof {
                lemma_run_setup(families@, f as int, j as int, scan, terms@, claimed@, p);
            }
            let bodies = run_bodies(terms, run, claimed, Ghost(sel));
            let ghost body_views = ast::ref_views(bodies@);
            proof {
                assert forall|k: int| run.start <= k < run.end implies #[trigger] views[k]
                    == ast::product_node(run.side, sel, body_views[k - run.start]) by {
                    assert(views[k] == terms@[k].view());
                }
                assert(claimed@ == pieces::claim_range(before, run.start as int, run.end as int));
                assert forall|k: int| run.start <= k < run.end implies ast::ast_size(#[trigger] views[k])
                    > ast::ast_size(body_views[k - run.start]) by {
                    pieces::lemma_product_facts(run.side, sel, body_views[k - run.start], plan::any_leaf());
                }
                pieces::lemma_claim_range_size(
                    views,
                    before,
                    run.start as int,
                    run.end as int,
                    body_views,
                );
                pieces::lemma_claimed_size_bound(views, claimed@);
            }
            let body_plan = FactorBodyPlan::compile(&bodies, base, scalars);
            let ghost mid = scalars.view();
            let power = scalars.intern(powers[n - run.end]);
            let ghost fact = RunFact {
                shape: RunShape { power: power.at(), body: body_plan.shape() },
                children: plan::body_children(body_plan),
                bodies: body_views,
                start: run.start as int,
                end: run.end as int,
                side: run.side,
            };
            proof {
                let now = scalars.view();
                lowering::lemma_interned(mid, now, powers@[n - run.end].view());
                lowering::lemma_extends(descs, mid, now);
                lowering::lemma_extends(begin, descs, now);
                pieces::lemma_body_mono(
                    body_plan.shape(),
                    plan::body_children(body_plan),
                    body_views,
                    bv,
                    mid,
                    now,
                    p,
                );
                partition::lemma_body_divided_mono(
                    body_plan.shape(),
                    plan::body_children(body_plan),
                    body_views,
                    bv,
                    mid,
                    now,
                    p,
                );
                partition::lemma_bodies_push(facts, fact, bv, descs, now, p);
                assert(pieces::run_computes(fact, j as int, query, len, views, bv, now, p));
                pieces::lemma_runs_push(
                    old(claimed)@,
                    facts,
                    fact,
                    query,
                    len,
                    views,
                    bv,
                    descs,
                    now,
                    p,
                );
                lemma_taken_push(families@, f as int, j as int, before, claimed@);
            }
            let piece = SelectorFamilyRun { bodies: body_plan, power };
            proof {
                lemma_runs_children_push(out@, piece);
                facts = facts.push(fact);
            }
            out.push(piece);
            j += 1;
        }
        proof {
            assert forall|i: int| 0 <= i < n && #[trigger] claimed@[i] implies taken(
                families@,
                f + 1,
                0,
                i,
            ) by {
                let (g, k) = choose|g: int, k: int|
                    before_match(f as int, j as int, g, k) && #[trigger] in_match(
                        families@,
                        g,
                        k,
                        i,
                    );
                assert(before_match(f + 1, 0, g, k) && in_match(families@, g, k, i));
            }
        }
        (out, Ghost(facts))
    }

    /// The terms of one group, and then its factor.
    fn compile_group<'a, E, F: Field, B>(
        group: &FactorGroup<'a, E, F, B>,
        places: &Vec<usize>,
        powers: &Vec<PlanScalar<F>>,
        claimed: &mut Vec<bool>,
        scalars: &mut PlanScalarInterner<F>,
        Ghost(terms): Ghost<Seq<AstView>>,
        Ghost(base): Ghost<BaseView>,
        Ghost(start): Ghost<nat>,
    ) -> (r: (EvaluationPlan, Vec<WeightedTerm>))
        requires
            terms.len() <= usize::MAX,
            powers@.len() == terms.len(),
            lists_powers(powers@, base),
            old(claimed)@.len() == terms.len(),
            group_open(*group, places@, terms, old(claimed)@),
            start + 2 * ast::ast_sizes(terms) <= u32::MAX,
            old(scalars).wf(),
            old(scalars).view().len() <= start + 2 * pieces::claimed_size(terms, old(claimed)@),
        ensures
            final(scalars).wf(),
            lowering::extends(final(scalars).view(), old(scalars).view()),
            final(scalars).view().len() <= start + 2 * pieces::claimed_size(terms, final(claimed)@),
            final(claimed)@ == pieces::claim_all(
                old(claimed)@,
                partition::group_places(group.terms@, places@),
            ),
            final(claimed)@.len() == terms.len(),
            lowering::compiled(r.0.view(), group.factor.view(), final(scalars).view(), F::order()),
            pieces::shared_terms(
                plan::term_powers(r.1@),
                plan::term_views(r.1@),
                group_bodies(group.terms@),
                partition::group_places(group.terms@, places@),
                terms.len() as int,
                base,
                final(scalars).view(),
                F::order(),
            ),
        decreases 2 * ast::ast_sizes(terms) + 1, 0int,
    {
        let ghost p = F::order();
        let ghost begin = scalars.view();
        let ghost positions = partition::group_places(group.terms@, places@);
        let ghost bodies = group_bodies(group.terms@);
        let ghost fsize = ast::ast_size(group.factor.view());
        let n: usize = powers.len();
        let mut out: Vec<WeightedTerm> = Vec::new();
        proof {
            F::lemma_order();
            assert(begin.take(begin.len() as int) =~= begin);
            assert(positions.take(0) =~= Seq::<int>::empty());
        }
        let mut k: usize = 0;
        while k < group.terms.len()
            invariant
                k <= group.terms@.len(),
                n == terms.len(),
                p == F::order(),
                p > 2,
                powers@.len() == terms.len(),
                lists_powers(powers@, base),
                group_open(*group, places@, terms, old(claimed)@),
                positions == partition::group_places(group.terms@, places@),
                bodies == group_bodies(group.terms@),
                fsize == ast::ast_size(group.factor.view()),
                start + 2 * ast::ast_sizes(terms) <= u32::MAX,
                scalars.wf(),
                lowering::extends(scalars.view(), begin),
                scalars.view().len() + (if k > 0 {
                    2 * fsize
                } else {
                    0
                }) <= start + 2 * pieces::claimed_size(terms, claimed@),
                claimed@.len() == terms.len(),
                old(claimed)@.len() == terms.len(),
                claimed@ == pieces::claim_all(old(claimed)@, positions.take(k as int)),
                out@.len() == k,
                pieces::shared_terms(
                    plan::term_powers(out@),
                    plan::term_views(out@),
                    bodies.take(k as int),
                    positions.take(k as int),
                    n as int,
                    base,
                    scalars.view(),
                    p,
                ),
            decreases group.terms@.len() - k,
        {
            let (available, body) = group.terms[k];
            let position = places[available];
            let ghost descs = scalars.view();
            let ghost before = claimed@;
            proof {
                assert(group.terms@[k as int].0 == available);
                assert(positions[k as int] == position);
                let pk = positions.take(k as int);
                assert forall|l: int| 0 <= l < pk.len() implies 0 <= #[trigger] pk[l]
                    < terms.len() by {
                    assert(group.terms@[l].0 < places@.len());
                }
                pieces::lemma_claim_all(old(claimed)@, pk);
                assert(!before[position as int]) by {
                    if pk.contains(position as int) {
                        let l = choose|l: int| 0 <= l < pk.len() && pk[l] == position;
                        assert(places@[group.terms@[l].0 as int]
                            < places@[group.terms@[k as int].0 as int]);
                    }
                }
                pieces::lemma_claim_size(terms, before, position as int);
                pieces::lemma_claimed_size_bound(terms, before.update(position as int, true));
                pieces::lemma_product_facts(group.side, group.factor.view(), body.view(), plan::any_leaf());
            }
            claimed.set(position, true);
            let term = EvaluationPlan::compile(body, scalars);
            let ghost mid = scalars.view();
            let power = scalars.intern(powers[n - 1 - position]);
            proof {
                let now = scalars.view();
                lowering::lemma_interned(mid, now, powers@[n - 1 - position].view());
                lowering::lemma_extends(descs, mid, now);
                lowering::lemma_extends(begin, descs, now);
                pieces::lemma_shared_terms_mono(
                    plan::term_powers(out@),
                    plan::term_views(out@),
                    bodies.take(k as int),
                    positions.take(k as int),
                    n as int,
                    base,
                    descs,
                    now,
                    p,
                );
                lowering::lemma_compiled_mono(term.view(), body.view(), mid, now, p);
            }
            let ghost old_out = out@;
            out.push(WeightedTerm { term, power });
            proof {
                plan::lemma_term_views(old_out);
                assert(out@.drop_last() =~= old_out);
                assert(plan::term_powers(out@) =~= plan::term_powers(old_out).push(power.at()));
                assert(plan::term_views(out@) == plan::term_views(old_out).push(term.view()));
                let pk = positions.take(k as int);
                let pn = positions.take(k + 1);
                assert(pn =~= pk.push(position as int));
                assert(pn.drop_last() =~= pk);
                assert(bodies.take(k + 1) =~= bodies.take(k as int).push(body.view()));
                assert forall|l: int|
                    #![trigger pn[l]]
                    0 <= l < out@.len() implies {
                    &&& 0 <= pn[l] < n
                    &&& lowering::compiled(
                        plan::term_views(out@)[l],
                        bodies.take(k + 1)[l],
                        scalars.view(),
                        p,
                    )
                    &&& pieces::is_power(
                        plan::term_powers(out@)[l],
                        base,
                        n - 1 - pn[l],
                        scalars.view(),
                        p,
                    )
                } by {
                    if l < k {
                        assert(pn[l] == pk[l]);
                    }
                }
            }
            k += 1;
        }
        let ghost descs = scalars.view();
        proof {
            assert(positions.take(k as int) =~= positions);
            assert(bodies.take(k as int) =~= bodies);
            pieces::lemma_claimed_size_bound(terms, claimed@);
            let first = group.terms@[0];
            pieces::lemma_product_facts(group.side, group.factor.view(), first.1.view(), plan::any_leaf());
            shapes::lemma_ast_sizes_bound(terms, places@[first.0 as int] as int);
        }
        let factor = EvaluationPlan::compile(group.factor, scalars);
        proof {
            lowering::lemma_extends(begin, descs, scalars.view());
            pieces::lemma_shared_terms_mono(
                plan::term_powers(out@),
                plan::term_views(out@),
                bodies,
                positions,
                n as int,
                base,
                descs,
                scalars.view(),
                p,
            );
        }
        (factor, out)
    }

    /// The terms that no selector family claims: first those with shared factors, then
    /// the others.
    fn compile_rest<E, F: Field, B>(
        terms: &[Ast<E, F, B>],
        base: PowerBase<F>,
        powers: &Vec<PlanScalar<F>>,
        claimed: Vec<bool>,
        work: Vec<DistributionWork>,
        scalars: &mut PlanScalarInterner<F>,
        Ghost(start): Ghost<Seq<ScalarView>>,
        Ghost(families): Ghost<Seq<Piece>>,
    ) -> (r: (EvaluationPlan, Ghost<Seq<Piece>>, Ghost<Seq<Piece>>, Ghost<Seq<Piece>>))
        requires
            terms@.len() >= 2,
            powers@.len() == terms@.len(),
            lists_powers(powers@, base.view()),
            start.len() + 2 * ast::ast_sizes(ast::ast_views(terms@)) + 2 <= u32::MAX,
            old(scalars).wf(),
            lowering::extends(old(scalars).view(), start),
            old(scalars).view().len() <= start.len() + 2 * pieces::claimed_size(
                ast::ast_views(terms@),
                claimed@,
            ),
            claimed@.len() == terms@.len(),
            pieces::pieces(
                plan::work_shapes(work@),
                plan::works_children(work@),
                ast::ast_views(terms@),
                claimed@,
                base.view(),
                old(scalars).view(),
                F::order(),
            ),
            plan::work_shapes(work@) == partition::piece_shapes(families),
            plan::works_children(work@) == partition::pieces_kids(families),
            partition::all_fit(families, ast::ast_views(terms@), base.view(), old(scalars).view(), F::order()),
            forall|i: int|
                0 <= i < terms@.len() ==> (#[trigger] claimed@[i] <==> partition::in_pieces(families, i)),
        ensures
            final(scalars).wf(),
            lowering::extends(final(scalars).view(), start),
            final(scalars).view().len() <= start.len() + 2 * ast::ast_sizes(ast::ast_views(terms@)) + 1,
            lowering::lowered(
                r.0.view(),
                AstView { op: AstOp::Distribute(base.view()), children: ast::ast_views(terms@) },
                final(scalars).view(),
                F::order(),
            ),
            partition::shared_pieces(families, r.1@, r.2@, ast::ast_views(terms@)),
            partition::single_pieces(families + (r.1@ + r.2@), r.3@, ast::ast_views(terms@), true),
            partition::evaluates_pieces(
                r.0.view(),
                families + (r.1@ + r.2@) + r.3@,
                ast::ast_views(terms@),
                base.view(),
                final(scalars).view(),
                F::order(),
            ),
        decreases 2 * ast::ast_sizes(ast::ast_views(terms@)) + 1, 1int,
    {
        let mut claimed = claimed;
        let mut work = work;
        let ghost p = F::order();
        let ghost views = ast::ast_views(terms@);
        let ghost bv = base.view();
        let n: usize = terms.len();
        proof {
            F::lemma_order();
            ast::lemma_ast_views(terms@);
        }
        // The positions that are left, in order, and the terms at them.
        let mut places: Vec<usize> = Vec::new();
        let mut available: Vec<&Ast<E, F, B>> = Vec::new();
        let mut i: usize = 0;
        while i < n
            invariant
                i <= n,
                n == terms@.len(),
                claimed@.len() == n,
                available@.len() == places@.len(),
                forall|k: int|
                    #![trigger places@[k]]
                    0 <= k < places@.len() ==> places@[k] < i && !claimed@[places@[k] as int]
                        && available@[k] == terms@[places@[k] as int],
                forall|k: int, l: int|
                    0 <= k < l < places@.len() ==> #[trigger] places@[k] < #[trigger] places@[l],
                forall|x: int| 0 <= x < i && !#[trigger] claimed@[x] ==> places@.contains(x as usize),
            decreases n - i,
        {
            let ghost listed = places@;
            if !claimed[i] {
                places.push(i);
                available.push(&terms[i]);
            }
            proof {
                assert forall|x: int| 0 <= x < i + 1 && !#[trigger] claimed@[x] implies places@.contains(
                    x as usize,
                ) by {
                    if x < i {
                        let k = choose|k: int| 0 <= k < listed.len() && listed[k] == x as usize;
                        assert(places@[k] == x as usize);
                    } else {
                        assert(places@[places@.len() - 1] == x as usize);
                    }
                }
            }
            i += 1;
        }
        let ghost open = claimed@;
        let groups = factor_groups(available.as_slice());
        let ghost seen = ast::ref_views(available@);
        let ghost mut shared: Seq<Piece> = Seq::empty();
        proof {
            assert(families + shared =~= families);
            assert forall|k: int| #![trigger places@[k]] 0 <= k < places@.len() implies places@[k]
                < views.len() && !partition::in_pieces(families, places@[k] as int) && seen[k]
                == views[places@[k] as int] by {
                assert(!claimed@[places@[k] as int]);
                assert(available@[k] == terms@[places@[k] as int]);
            }
            assert forall|x: int| 0 <= x < views.len() && !#[trigger] partition::in_pieces(
                families,
                x,
            ) implies places@.contains(x as usize) by {
                assert(!claimed@[x]);
            }
            assert(partition::lists_open(places@, families, views, seen));
        }
        let mut g: usize = 0;
        while g < groups.len()
            invariant
                g <= groups@.len(),
                n == terms@.len(),
                n >= 2,
                p == F::order(),
                p > 2,
                bv == base.view(),
                views == ast::ast_views(terms@),
                views.len() == n,
                forall|k: int| 0 <= k < n ==> #[trigger] views[k] == terms@[k].view(),
                powers@.len() == n,
                lists_powers(powers@, bv),
                start.len() + 2 * ast::ast_sizes(views) + 2 <= u32::MAX,
                scalars.wf(),
                lowering::extends(scalars.view(), start),
                scalars.view().len() <= start.len() + 2 * pieces::claimed_size(views, claimed@),
                pieces::pieces(
                    plan::work_shapes(work@),
                    plan::works_children(work@),
                    views,
                    claimed@,
                    bv,
                    scalars.view(),
                    p,
                ),
                claimed@.len() == n,
                available@.len() == places@.len(),
                seen == ast::ref_views(available@),
                forall|k: int|
                    #![trigger places@[k]]
                    0 <= k < places@.len() ==> places@[k] < n && !open[places@[k] as int]
                        && available@[k] == terms@[places@[k] as int],
                forall|k: int, l: int|
                    0 <= k < l < places@.len() ==> #[trigger] places@[k] < #[trigger] places@[l],
                forall|h: int| 0 <= h < groups@.len() ==> (#[trigger] groups@[h]).fits(seen),
                shapes::groups_disjoint(groups@),
                forall|k: int|
                    #![trigger places@[k]]
                    0 <= k < places@.len() && claimed@[places@[k] as int] ==> shapes::grouped(
                        groups@,
                        g as int,
                        k,
                    ),
                shared.len() == g,
                plan::work_shapes(work@) == partition::piece_shapes(families + shared),
                plan::works_children(work@) == partition::pieces_kids(families + shared),
                partition::all_fit(families + shared, views, bv, scalars.view(), p),
                forall|h: int|
                    #![trigger groups@[h]]
                    0 <= h < g ==> partition::is_group(shared[h], groups@[h], places@),
                forall|k: int|
                    0 <= k < n ==> (#[trigger] claimed@[k] <==> partition::in_pieces(families + shared, k)),
            decreases groups@.len() - g,
        {
            let ghost descs = scalars.view();
            let ghost before = claimed@;
            let ghost before_shared = shared;
            let group = &groups[g];
            assert(groups@[g as int] == *group);
            let ghost positions = partition::group_places(group.terms@, places@);
            let ghost bodies = group_bodies(group.terms@);
            proof {
                lemma_group_open(*group, g as int, groups@, places@, views, seen, claimed@);
            }
            let (factor, group_terms) = EvaluationPlan::compile_group(
                group,
                &places,
                powers,
                &mut claimed,
                scalars,
                Ghost(views),
                Ghost(bv),
                Ghost(start.len()),
            );
            proof {
                lowering::lemma_extends(start, descs, scalars.view());
                pieces::lemma_pieces_mono(
                    plan::work_shapes(work@),
                    plan::works_children(work@),
                    views,
                    before,
                    bv,
                    descs,
                    scalars.view(),
                    p,
                );
                lemma_group_positions(*group, places@, views, before);
                pieces::lemma_piece_shared(
                    plan::work_shapes(work@),
                    plan::works_children(work@),
                    views,
                    before,
                    bv,
                    scalars.view(),
                    p,
                    group.side,
                    group.factor.view(),
                    factor.view(),
                    plan::term_powers(group_terms@),
                    plan::term_views(group_terms@),
                    bodies,
                    positions,
                );
                pieces::lemma_claim_all(before, positions);
                lemma_claimed_grouped(*group, g as int, groups@, places@, before, claimed@);
            }
            let ghost kids = seq![factor.view()] + plan::term_views(group_terms@);
            let ghost entry = Piece::Shared {
                side: group.side,
                factor: group.factor.view(),
                plan: factor.view(),
                bodies,
                positions,
                plans: plan::term_views(group_terms@),
                ids: plan::term_powers(group_terms@),
            };
            let piece = DistributionWork::WeightedSharedFactor { factor, terms: group_terms };
            proof {
                plan::lemma_works_push(work@, piece);
                assert(plan::work_children(piece) == kids);
                assert(partition::piece_fits(entry, views, bv, scalars.view(), p));
                partition::lemma_all_fit_push(
                    families + shared,
                    entry,
                    views,
                    bv,
                    descs,
                    scalars.view(),
                    p,
                );
                shared = shared.push(entry);
                assert(families + shared =~= (families + before_shared).push(entry));
                assert(partition::is_group(entry, groups@[g as int], places@));
                assert forall|h: int|
                    #![trigger groups@[h]]
                    0 <= h < g + 1 implies partition::is_group(shared[h], groups@[h], places@) by {
                    if h < g {
                        assert(shared[h] == before_shared[h]);
                    }
                }
                assert forall|k: int| 0 <= k < n implies (#[trigger] claimed@[k] <==> partition::in_pieces(
                    families + shared,
                    k,
                )) by {}
            }
            work.push(piece);
            g += 1;
        }
        let ghost count = choose|c: int|
            {
                &&& 0 <= c <= groups@.len()
                &&& forall|g: int| 0 <= g < c ==> (#[trigger] groups@[g]).side == FactorSide::Left
                &&& forall|g: int|
                    c <= g < groups@.len() ==> (#[trigger] groups@[g]).side == FactorSide::Right
                &&& shapes::groups_ordered(groups@, 0, c)
                &&& shapes::groups_ordered(groups@, c, groups@.len() as int)
                &&& shapes::side_complete(groups@.take(c), 0, seen, FactorSide::Left)
                &&& shapes::side_complete(groups@, c, seen, FactorSide::Right)
            };
        let ghost left = shared.take(count);
        let ghost right = shared.skip(count);
        let ghost above = families + (left + right);
        let ghost taken_before = claimed@;
        let ghost mut singles: Seq<Piece> = Seq::empty();
        proof {
            partition::lemma_shared_pieces(families, shared, groups@, count, places@, seen, views);
            assert(above + singles =~= families + shared);
        }
        // Every repeated factor was claimed above, so append the remaining independent
        // terms from the lowest power to the highest.
        let mut position: usize = n;
        while position > 0
            invariant
                position <= n,
                n == terms@.len(),
                n >= 2,
                p == F::order(),
                p > 2,
                bv == base.view(),
                views == ast::ast_views(terms@),
                views.len() == n,
                forall|k: int| 0 <= k < n ==> #[trigger] views[k] == terms@[k].view(),
                powers@.len() == n,
                lists_powers(powers@, bv),
                start.len() + 2 * ast::ast_sizes(views) + 2 <= u32::MAX,
                scalars.wf(),
                lowering::extends(scalars.view(), start),
                scalars.view().len() <= start.len() + 2 * pieces::claimed_size(views, claimed@),
                pieces::pieces(
                    plan::work_shapes(work@),
                    plan::works_children(work@),
                    views,
                    claimed@,
                    bv,
                    scalars.view(),
                    p,
                ),
                claimed@.len() == n,
                forall|k: int| position <= k < n ==> #[trigger] claimed@[k],
                plan::work_shapes(work@) == partition::piece_shapes(above + singles),
                plan::works_children(work@) == partition::pieces_kids(above + singles),
                partition::all_fit(above + singles, views, bv, scalars.view(), p),
                taken_before.len() == n,
                forall|k: int|
                    0 <= k < n ==> (#[trigger] taken_before[k] <==> partition::in_pieces(above, k)),
                forall|k: int| 0 <= k < position ==> #[trigger] claimed@[k] == taken_before[k],
                forall|h: int|
                    0 <= h < singles.len() ==> (#[trigger] singles[h]) is Term && position
                        <= singles[h]->position < n && !taken_before[singles[h]->position],
                forall|g: int, h: int|
                    0 <= g < h < singles.len() ==> (#[trigger] singles[g])->position > (
                    #[trigger] singles[h])->position,
                forall|k: int|
                    position <= k < n && !#[trigger] taken_before[k] ==> partition::in_pieces(singles, k),
            decreases position,
        {
            position -= 1;
            let ghost before_singles = singles;
            if !claimed[position] {
                let ghost descs = scalars.view();
                let ghost before = claimed@;
                proof {
                    pieces::lemma_claim_size(views, before, position as int);
                    pieces::lemma_claimed_size_bound(views, before.update(position as int, true));
                    shapes::lemma_ast_sizes_bound(views, position as int);
                    assert(views[position as int] == terms@[position as int].view());
                }
                let term = EvaluationPlan::compile(&terms[position], scalars);
                let ghost mid = scalars.view();
                let power = scalars.intern(powers[n - 1 - position]);
                claimed.set(position, true);
                proof {
                    let now = scalars.view();
                    lowering::lemma_interned(mid, now, powers@[n - 1 - position].view());
                    lowering::lemma_extends(descs, mid, now);
                    lowering::lemma_extends(start, descs, now);
                    lowering::lemma_compiled_mono(term.view(), views[position as int], mid, now, p);
                    pieces::lemma_pieces_mono(
                        plan::work_shapes(work@),
                        plan::works_children(work@),
                        views,
                        before,
                        bv,
                        descs,
                        now,
                        p,
                    );
                    pieces::lemma_piece_term(
                        plan::work_shapes(work@),
                        plan::works_children(work@),
                        views,
                        before,
                        bv,
                        now,
                        p,
                        position as int,
                        term.view(),
                        power.at(),
                    );
                }
                let ghost kids = seq![term.view()];
                let ghost entry = Piece::Term {
                    position: position as int,
                    plan: term.view(),
                    id: power.at(),
                };
                let piece = DistributionWork::Term { term, power };
                proof {
                    plan::lemma_works_push(work@, piece);
                    assert(plan::work_children(piece) == kids);
                    assert(partition::piece_fits(entry, views, bv, scalars.view(), p));
                    partition::lemma_all_fit_push(
                        above + singles,
                        entry,
                        views,
                        bv,
                        descs,
                        scalars.view(),
                        p,
                    );
                    partition::lemma_in_pieces_push(singles, entry);
                    singles = singles.push(entry);
                    assert(above + singles =~= (above + before_singles).push(entry));
                }
                work.push(piece);
            }
        }
        let ghost descs = scalars.view();
        proof {
            pieces::lemma_claimed_size_bound(views, claimed@);
        }
        let id = scalars.intern(base.scalar());
        proof {
            let now = scalars.view();
            lowering::lemma_interned(
                descs,
                now,
                match bv {
                    BaseView::Literal(v) => ScalarView::Literal(v),
                    BaseView::Challenge(c) => ScalarView::Challenge(c),
                },
            );
            lowering::lemma_extends(start, descs, now);
            pieces::lemma_pieces_mono(
                plan::work_shapes(work@),
                plan::works_children(work@),
                views,
                claimed@,
                bv,
                descs,
                now,
                p,
            );
            pieces::lemma_lowered_distribute(
                plan::work_shapes(work@),
                plan::works_children(work@),
                views,
                claimed@,
                bv,
                id.at(),
                now,
                p,
            );
        }
        let ghost now = scalars.view();
        proof {
            partition::lemma_all_fit_mono(above + singles, views, bv, descs, now, p);
            assert(partition::single_pieces(above, singles, views, true)) by {
                assert forall|i: int| 0 <= i < n && !#[trigger] partition::in_pieces(above, i) implies partition::in_pieces(
                    singles,
                    i,
                ) by {
                    assert(!taken_before[i]);
                }
            }
        }
        let plan = EvaluationPlan::DistributePowers { work, base: id };
        (plan, Ghost(left), Ghost(right), Ghost(singles))
    }
}

impl FactorBodyPlan {
    /// Compiles the bodies that a selector multiplies, combined with the powers of
    /// `base`.
    pub fn compile<'a, E, F: Field, B>(
        terms: &Vec<&'a Ast<E, F, B>>,
        base: PowerBase<F>,
        scalars: &mut PlanScalarInterner<F>,
    ) -> (r: Self)
        requires
            terms@.len() > 0,
            old(scalars).wf(),
            old(scalars).view().len() + 2 * ast::ast_sizes(ast::ref_views(terms@)) <= u32::MAX,
        ensures
            final(scalars).wf(),
            lowering::extends(final(scalars).view(), old(scalars).view()),
            final(scalars).view().len() <= old(scalars).view().len() + 2 * ast::ast_sizes(
                ast::ref_views(terms@),
            ),
            pieces::body_computes(
                r.shape(),
                plan::body_children(r),
                ast::ref_views(terms@),
                base.view(),
                final(scalars).view(),
                F::order(),
            ),
            partition::body_divided(
                r.shape(),
                plan::body_children(r),
                ast::ref_views(terms@),
                base.view(),
                final(scalars).view(),
                F::order(),
            ),
        decreases 2 * ast::ast_sizes(ast::ref_views(terms@)) + 1, 1int,
    {
        let ghost p = F::order();
        let ghost start = scalars.view();
        let ghost views = ast::ref_views(terms@);
        let ghost bv = base.view();
        let n: usize = terms.len();
        let groups = factor_groups(terms.as_slice());
        let mut claimed: Vec<bool> = unclaimed(n);
        proof {
            F::lemma_order();
            assert(start.take(start.len() as int) =~= start);
            pieces::lemma_claimed_size_bound(views, claimed@);
            pieces::lemma_unclaimed_size(views, claimed@);
        }
        if groups.len() == 0 {
            let mut bodies: Vec<EvaluationPlan> = Vec::new();
            let mut i: usize = 0;
            while i < n
                invariant
                    i <= n,
                    n == terms@.len(),
                    p == F::order(),
                    p > 2,
                    views == ast::ref_views(terms@),
                    start.len() + 2 * ast::ast_sizes(views) <= u32::MAX,
                    scalars.wf(),
                    lowering::extends(scalars.view(), start),
                    scalars.view().len() <= start.len() + 2 * ast::ast_sizes(views.take(i as int)),
                    plan::plan_views(bodies@).len() == i,
                    bodies@.len() == i,
                    forall|k: int|
                        0 <= k < i ==> lowering::compiled(
                            #[trigger] plan::plan_views(bodies@)[k],
                            views[k],
                            scalars.view(),
                            p,
                        ),
                decreases n - i,
            {
                let ghost descs = scalars.view();
                proof {
                    lemma_sizes_take(views, i as int);
                    shapes::lemma_ast_sizes_bound(views, i as int);
                }
                let body = EvaluationPlan::compile(terms[i], scalars);
                let ghost old_bodies = bodies@;
                let ghost tv = body.view();
                bodies.push(body);
                proof {
                    let now = scalars.view();
                    lowering::lemma_extends(start, descs, now);
                    assert(bodies@.drop_last() =~= old_bodies);
                    assert(plan::plan_views(bodies@) == plan::plan_views(old_bodies).push(tv));
                    assert forall|k: int| 0 <= k < i + 1 implies lowering::compiled(
                        #[trigger] plan::plan_views(bodies@)[k],
                        views[k],
                        now,
                        p,
                    ) by {
                        if k < i {
                            assert(plan::plan_views(bodies@)[k] == plan::plan_views(old_bodies)[k]);
                            lowering::lemma_compiled_mono(
                                plan::plan_views(old_bodies)[k],
                                views[k],
                                descs,
                                now,
                                p,
                            );
                        }
                    }
                }
                i += 1;
            }
            proof {
                assert(views.take(n as int) =~= views);
                pieces::lemma_body_sequential(plan::plan_views(bodies@), views, bv, scalars.view(), p);
                assert(groups@.take(0) =~= groups@);
                partition::lemma_nothing_shared(groups@, views);
            }
            return FactorBodyPlan::Sequential(bodies);
        }
        let powers = base.powers(n);
        let mut places: Vec<usize> = Vec::new();
        let mut i: usize = 0;
        while i < n
            invariant
                i <= n,
                places@.len() == i,
                forall|k: int| 0 <= k < i ==> #[trigger] places@[k] == k,
            decreases n - i,
        {
            places.push(i);
            i += 1;
        }
        let mut work: Vec<FactorBodyWork> = Vec::new();
        let ghost nothing = Seq::<Piece>::empty();
        let ghost mut shared: Seq<Piece> = Seq::empty();
        proof {
            partition::lemma_all_plain_empty(views, bv, start, p);
            assert forall|k: int| 0 <= k < n && !#[trigger] partition::in_pieces(
                nothing,
                k,
            ) implies places@.contains(k as usize) by {
                assert(places@[k] == k as usize);
            }
            assert(partition::lists_open(places@, nothing, views, views));
            pieces::lemma_pieces_empty(views, claimed@, bv, start, p);
            assert(pieces::as_works(plan::factor_shapes(work@)) =~= Seq::<WorkShape>::empty());
        }
        let mut g: usize = 0;
        while g < groups.len()
            invariant
                g <= groups@.len(),
                n == terms@.len(),
                p == F::order(),
                p > 2,
                bv == base.view(),
                views == ast::ref_views(terms@),
                powers@.len() == n,
                lists_powers(powers@, bv),
                start.len() + 2 * ast::ast_sizes(views) <= u32::MAX,
                scalars.wf(),
                lowering::extends(scalars.view(), start),
                scalars.view().len() <= start.len() + 2 * pieces::claimed_size(views, claimed@),
                pieces::pieces(
                    pieces::as_works(plan::factor_shapes(work@)),
                    plan::factors_children(work@),
                    views,
                    claimed@,
                    bv,
                    scalars.view(),
                    p,
                ),
                plan::factors_in_bounds(plan::factor_shapes(work@), scalars.view().len() as int),
                work@.len() == g,
                claimed@.len() == n,
                places@.len() == n,
                forall|k: int| 0 <= k < n ==> #[trigger] places@[k] == k,
                forall|h: int| 0 <= h < groups@.len() ==> (#[trigger] groups@[h]).fits(views),
                shapes::groups_disjoint(groups@),
                forall|k: int|
                    #![trigger places@[k]]
                    0 <= k < places@.len() && claimed@[places@[k] as int] ==> shapes::grouped(
                        groups@,
                        g as int,
                        k,
                    ),
                shared.len() == g,
                pieces::as_works(plan::factor_shapes(work@)) == partition::piece_shapes(shared),
                plan::factors_children(work@) == partition::pieces_kids(shared),
                partition::all_plain(shared, views, bv, scalars.view(), p),
                forall|h: int|
                    #![trigger groups@[h]]
                    0 <= h < g ==> partition::is_group(shared[h], groups@[h], places@),
                forall|k: int| 0 <= k < n ==> (#[trigger] claimed@[k] <==> partition::in_pieces(shared, k)),
            decreases groups@.len() - g,
        {
            let ghost descs = scalars.view();
            let ghost before = claimed@;
            let ghost before_shared = shared;
            let group = &groups[g];
            assert(groups@[g as int] == *group);
            let ghost positions = partition::group_places(group.terms@, places@);
            let ghost bodies = group_bodies(group.terms@);
            proof {
                lemma_group_open(*group, g as int, groups@, places@, views, views, claimed@);
            }
            let (factor, group_terms) = EvaluationPlan::compile_group(
                group,
                &places,
                &powers,
                &mut claimed,
                scalars,
                Ghost(views),
                Ghost(bv),
                Ghost(start.len()),
            );
            let ghost ids = plan::term_powers(group_terms@);
            proof {
                let now = scalars.view();
                lowering::lemma_extends(start, descs, now);
                pieces::lemma_pieces_mono(
                    pieces::as_works(plan::factor_shapes(work@)),
                    plan::factors_children(work@),
                    views,
                    before,
                    bv,
                    descs,
                    now,
                    p,
                );
                lemma_group_positions(*group, places@, views, before);
                pieces::lemma_piece_shared(
                    pieces::as_works(plan::factor_shapes(work@)),
                    plan::factors_children(work@),
                    views,
                    before,
                    bv,
                    now,
                    p,
                    group.side,
                    group.factor.view(),
                    factor.view(),
                    ids,
                    plan::term_views(group_terms@),
                    bodies,
                    positions,
                );
                pieces::lemma_claim_all(before, positions);
                lemma_claimed_grouped(*group, g as int, groups@, places@, before, claimed@);
                assert forall|k: int| 0 <= k < ids.len() implies 0 <= #[trigger] ids[k]
                    < now.len() by {
                    assert(0 <= positions[k]);
                }
            }
            let ghost kids = seq![factor.view()] + plan::term_views(group_terms@);
            let ghost entry = Piece::Shared {
                side: group.side,
                factor: group.factor.view(),
                plan: factor.view(),
                bodies,
                positions,
                plans: plan::term_views(group_terms@),
                ids,
            };
            let piece = FactorBodyWork::SharedFactor { factor, terms: group_terms };
            proof {
                assert(partition::plain_fits(entry, views, bv, scalars.view(), p));
                partition::lemma_all_plain_push(shared, entry, views, bv, descs, scalars.view(), p);
                shared = shared.push(entry);
                assert(partition::is_group(entry, groups@[g as int], places@));
                assert forall|h: int|
                    #![trigger groups@[h]]
                    0 <= h < g + 1 implies partition::is_group(shared[h], groups@[h], places@) by {
                    if h < g {
                        assert(shared[h] == before_shared[h]);
                    }
                }
                assert forall|k: int| 0 <= k < n implies (#[trigger] claimed@[k] <==> partition::in_pieces(
                    shared,
                    k,
                )) by {}
                plan::lemma_factors_push(work@, piece);
                pieces::lemma_factored_push(
                    plan::factor_shapes(work@),
                    FactorShape::Shared(ids),
                    descs.len() as int,
                    scalars.view().len() as int,
                );
                assert(plan::factor_children(piece) == kids);
            }
            work.push(piece);
            g += 1;
        }
        let ghost count = choose|c: int|
            {
                &&& 0 <= c <= groups@.len()
                &&& forall|g: int| 0 <= g < c ==> (#[trigger] groups@[g]).side == FactorSide::Left
                &&& forall|g: int|
                    c <= g < groups@.len() ==> (#[trigger] groups@[g]).side == FactorSide::Right
                &&& shapes::groups_ordered(groups@, 0, c)
                &&& shapes::groups_ordered(groups@, c, groups@.len() as int)
                &&& shapes::side_complete(groups@.take(c), 0, views, FactorSide::Left)
                &&& shapes::side_complete(groups@, c, views, FactorSide::Right)
            };
        let ghost left = shared.take(count);
        let ghost right = shared.skip(count);
        let ghost above = left + right;
        let ghost taken_before = claimed@;
        let ghost mut singles: Seq<Piece> = Seq::empty();
        proof {
            partition::lemma_shared_pieces(nothing, shared, groups@, count, places@, views, views);
            assert(above + singles =~= shared);
        }
        let mut position: usize = 0;
        while position < n
            invariant
                position <= n,
                n == terms@.len(),
                p == F::order(),
                p > 2,
                bv == base.view(),
                views == ast::ref_views(terms@),
                powers@.len() == n,
                lists_powers(powers@, bv),
                start.len() + 2 * ast::ast_sizes(views) <= u32::MAX,
                scalars.wf(),
                lowering::extends(scalars.view(), start),
                scalars.view().len() <= start.len() + 2 * pieces::claimed_size(views, claimed@),
                pieces::pieces(
                    pieces::as_works(plan::factor_shapes(work@)),
                    plan::factors_children(work@),
                    views,
                    claimed@,
                    bv,
                    scalars.view(),
                    p,
                ),
                plan::factors_in_bounds(plan::factor_shapes(work@), scalars.view().len() as int),
                work@.len() > 0,
                claimed@.len() == n,
                forall|k: int| 0 <= k < position ==> #[trigger] claimed@[k],
                pieces::as_works(plan::factor_shapes(work@)) == partition::piece_shapes(above + singles),
                plan::factors_children(work@) == partition::pieces_kids(above + singles),
                partition::all_plain(above + singles, views, bv, scalars.view(), p),
                taken_before.len() == n,
                forall|k: int|
                    0 <= k < n ==> (#[trigger] taken_before[k] <==> partition::in_pieces(above, k)),
                forall|k: int| position <= k < n ==> #[trigger] claimed@[k] == taken_before[k],
                forall|h: int|
                    0 <= h < singles.len() ==> (#[trigger] singles[h]) is Term && 0
                        <= singles[h]->position < position && !taken_before[singles[h]->position],
                forall|g: int, h: int|
                    0 <= g < h < singles.len() ==> (#[trigger] singles[g])->position < (
                    #[trigger] singles[h])->position,
                forall|k: int|
                    0 <= k < position && !#[trigger] taken_before[k] ==> partition::in_pieces(singles, k),
            decreases n - position,
        {
            let ghost before_singles = singles;
            if !claimed[position] {
                let ghost descs = scalars.view();
                let ghost before = claimed@;
                proof {
                    pieces::lemma_claim_size(views, before, position as int);
                    pieces::lemma_claimed_size_bound(views, before.update(position as int, true));
                    shapes::lemma_ast_sizes_bound(views, position as int);
                }
                let term = EvaluationPlan::compile(terms[position], scalars);
                let ghost mid = scalars.view();
                let power = scalars.intern(powers[n - 1 - position]);
                claimed.set(position, true);
                proof {
                    let now = scalars.view();
                    lowering::lemma_interned(mid, now, powers@[n - 1 - position].view());
                    lowering::lemma_extends(descs, mid, now);
                    lowering::lemma_extends(start, descs, now);
                    lowering::lemma_compiled_mono(term.view(), views[position as int], mid, now, p);
                    pieces::lemma_pieces_mono(
                        pieces::as_works(plan::factor_shapes(work@)),
                        plan::factors_children(work@),
                        views,
                        before,
                        bv,
                        descs,
                        now,
                        p,
                    );
                    pieces::lemma_piece_term(
                        pieces::as_works(plan::factor_shapes(work@)),
                        plan::factors_children(work@),
                        views,
                        before,
                        bv,
                        now,
                        p,
                        position as int,
                        term.view(),
                        power.at(),
                    );
                }
                let ghost kids = seq![term.view()];
                let ghost entry = Piece::Term {
                    position: position as int,
                    plan: term.view(),
                    id: power.at(),
                };
                let piece = FactorBodyWork::Term(WeightedTerm { term, power });
                proof {
                    assert(partition::plain_fits(entry, views, bv, scalars.view(), p));
                    partition::lemma_all_plain_push(
                        above + singles,
                        entry,
                        views,
                        bv,
                        descs,
                        scalars.view(),
                        p,
                    );
                    partition::lemma_in_pieces_push(singles, entry);
                    singles = singles.push(entry);
                    assert(above + singles =~= (above + before_singles).push(entry));
                    plan::lemma_factors_push(work@, piece);
                    pieces::lemma_factored_push(
                        plan::factor_shapes(work@),
                        FactorShape::Term(power.at()),
                        descs.len() as int,
                        scalars.view().len() as int,
                    );
                    assert(plan::factor_children(piece) == kids);
                }
                work.push(piece);
            }
            position += 1;
        }
        proof {
            pieces::lemma_claimed_size_bound(views, claimed@);
            pieces::lemma_body_factored(
                plan::factor_shapes(work@),
                plan::factors_children(work@),
                views,
                claimed@,
                bv,
                scalars.view(),
                p,
            );
            assert forall|i: int| 0 <= i < n && !#[trigger] partition::in_pieces(above, i) implies partition::in_pieces(
                singles,
                i,
            ) by {
                assert(!taken_before[i]);
            }
            assert(partition::single_pieces(above, singles, views, false));
            assert(partition::is_factoring(left, right, singles, views));
        }
        FactorBodyPlan::Factored(work)
    }
}

/// The bodies that the selector of a run multiplies. Their terms are claimed.
fn run_bodies<'a, E, F: Field, B>(
    terms: &'a [Ast<E, F, B>],
    run: SelectorRunMatch,
    claimed: &mut Vec<bool>,
    Ghost(sel): Ghost<AstView>,
) -> (bodies: Vec<&'a Ast<E, F, B>>)
    requires
        old(claimed)@.len() == terms@.len(),
        run.start <= run.end <= terms@.len(),
        forall|k: int|
            run.start <= k < run.end ==> ast::has_factor((#[trigger] terms@[k]).view(), run.side, sel),
    ensures
        final(claimed)@ == pieces::claim_range(old(claimed)@, run.start as int, run.end as int),
        bodies@.len() == run.end - run.start,
        forall|k: int|
            run.start <= k < run.end ==> (#[trigger] terms@[k]).view() == ast::product_node(
                run.side,
                sel,
                bodies@[k - run.start].view(),
            ),
{
    let mut bodies: Vec<&'a Ast<E, F, B>> = Vec::new();
    let mut i: usize = run.start;
    proof {
        assert(claimed@ =~= pieces::claim_range(claimed@, i as int, i as int));
    }
    while i < run.end
        invariant
            run.start <= i <= run.end,
            run.end <= terms@.len(),
            claimed@.len() == terms@.len(),
            bodies@.len() == i - run.start,
            forall|k: int|
                run.start <= k < run.end ==> ast::has_factor(
                    (#[trigger] terms@[k]).view(),
                    run.side,
                    sel,
                ),
            forall|k: int|
                run.start <= k < i ==> (#[trigger] terms@[k]).view() == ast::product_node(
                    run.side,
                    sel,
                    bodies@[k - run.start].view(),
                ),
            claimed@ == pieces::claim_range(old(claimed)@, run.start as int, i as int),
        decreases run.end - i,
    {
        claimed.set(i, true);
        match factor_terms(&terms[i], run.side) {
            Some((factor, body)) => {
                bodies.push(body);
            },
            None => {},
        }
        i += 1;
        assert(claimed@ =~= pieces::claim_range(old(claimed)@, run.start as int, i as int));
    }
    bodies
}

fn unclaimed(n: usize) -> (r: Vec<bool>)
    ensures
        r@.len() == n,
        forall|i: int| 0 <= i < n ==> !#[trigger] r@[i],
{
    let mut r: Vec<bool> = Vec::with_capacity(n);
    let mut i: usize = 0;
    while i < n
        invariant
            i <= n,
            r@.len() == i,
            forall|k: int| 0 <= k < i ==> !#[trigger] r@[k],
        decreases n - i,
    {
        r.push(false);
        i += 1;
    }
    r
}

/// Run `k` of family `g` comes before run `j` of family `f`.
spec fn before_match(f: int, j: int, g: int, k: int) -> bool {
    0 <= g && 0 <= k && (g < f || (g == f && k < j))
}

/// Position `i` belongs to run `k` of family `g`.
spec fn in_match<E, B>(families: Seq<SelectorFamilyMatch<E, B>>, g: int, k: int, i: int) -> bool {
    g < families.len() && k < families[g].runs@.len() && families[g].runs@[k].start <= i
        < families[g].runs@[k].end
}

/// Position `i` belongs to a run before run `j` of family `f`.
spec fn taken<E, B>(families: Seq<SelectorFamilyMatch<E, B>>, f: int, j: int, i: int) -> bool {
    exists|g: int, k: int| before_match(f, j, g, k) && #[trigger] in_match(families, g, k, i)
}

/// The terms of a run have its selector, and none of them is claimed by another run.
proof fn lemma_run_setup<E, F: Field, B>(
    families: Seq<SelectorFamilyMatch<E, B>>,
    f: int,
    j: int,
    scan: Seq<RunView>,
    terms: Seq<Ast<E, F, B>>,
    claimed: Seq<bool>,
    p: int,
)
    requires
        shapes::families_match(families, scan),
        shapes::is_scan(ast::ast_views(terms), terms.len() as int, scan, p),
        0 <= f < families.len(),
        0 <= j < families[f].runs@.len(),
        forall|i: int|
            0 <= i < terms.len() && #[trigger] claimed[i] ==> taken(families, f, j, i),
    ensures
        ({
            let run = families[f].runs@[j];
            let sel = shapes::selector_node(
                families[f].query.view(),
                families[f].combination_len as int,
                j + 1,
                p,
            );
            &&& run.start < run.end <= terms.len()
            &&& forall|k: int|
                run.start <= k < run.end ==> ast::has_factor(
                    (#[trigger] terms[k]).view(),
                    run.side,
                    sel,
                )
            &&& forall|k: int| run.start <= k < run.end ==> !#[trigger] claimed[k]
        }),
{
    let run = families[f].runs@[j];
    let query = families[f].query.view();
    let len = families[f].combination_len;
    let views = ast::ast_views(terms);
    ast::lemma_ast_views(terms);
    let rv = shapes::run_view(query, len, run);
    assert(run.assigned_root == j + 1);
    assert(scan.contains(rv));
    let at = choose|k: int| 0 <= k < scan.len() && scan[k] == rv;
    assert(shapes::is_run(views, scan[at], p));
    let sel = shapes::selector_node(query, len as int, j + 1, p);
    assert forall|k: int| run.start <= k < run.end implies ast::has_factor(
        (#[trigger] terms[k]).view(),
        run.side,
        sel,
    ) by {
        assert(ast::has_factor(views[k], run.side, sel));
    }
    assert forall|i: int| run.start <= i < run.end implies !#[trigger] claimed[i] by {
        if claimed[i] {
            lemma_taken_twice(families, f, j, scan, views, i, p);
        }
    }
}

proof fn lemma_taken_push<E, B>(
    families: Seq<SelectorFamilyMatch<E, B>>,
    f: int,
    j: int,
    before: Seq<bool>,
    after: Seq<bool>,
)
    requires
        0 <= f < families.len(),
        0 <= j < families[f].runs@.len(),
        forall|i: int| 0 <= i < before.len() && #[trigger] before[i] ==> taken(families, f, j, i),
        after == pieces::claim_range(
            before,
            families[f].runs@[j].start as int,
            families[f].runs@[j].end as int,
        ),
    ensures
        forall|i: int|
            0 <= i < before.len() && #[trigger] after[i] ==> taken(families, f, j + 1, i),
{
    assert forall|i: int| 0 <= i < before.len() && #[trigger] after[i] implies taken(
        families,
        f,
        j + 1,
        i,
    ) by {
        if before[i] {
            lemma_taken_later(families, f, j, i);
        } else {
            assert(in_match(families, f, j, i));
            assert(before_match(f, j + 1, f, j));
        }
    }
}

proof fn lemma_runs_children_push(s: Seq<SelectorFamilyRun>, run: SelectorFamilyRun)
    ensures
        plan::runs_children(s.push(run)) == plan::body_children(run.bodies) + plan::runs_children(s),
        plan::run_shapes(s.push(run)) == plan::run_shapes(s).push(
            RunShape { power: run.power.at(), body: run.bodies.shape() },
        ),
{
    assert(s.push(run).drop_last() =~= s);
    assert(plan::run_shapes(s.push(run)) =~= plan::run_shapes(s).push(
        RunShape { power: run.power.at(), body: run.bodies.shape() },
    ));
}

proof fn lemma_taken_later<E, B>(
    families: Seq<SelectorFamilyMatch<E, B>>,
    f: int,
    j: int,
    i: int,
)
    requires
        taken(families, f, j, i),
    ensures
        taken(families, f, j + 1, i),
{
    let (g, k) = choose|g: int, k: int|
        before_match(f, j, g, k) && #[trigger] in_match(families, g, k, i);
    assert(before_match(f, j + 1, g, k) && in_match(families, g, k, i));
}

/// A position of a run belongs to no run before it.
proof fn lemma_taken_twice<E, B>(
    families: Seq<SelectorFamilyMatch<E, B>>,
    f: int,
    j: int,
    scan: Seq<RunView>,
    views: Seq<AstView>,
    i: int,
    p: int,
)
    requires
        shapes::families_match(families, scan),
        shapes::is_scan(views, views.len() as int, scan, p),
        0 <= f < families.len(),
        0 <= j < families[f].runs@.len(),
        families[f].runs@[j].start <= i < families[f].runs@[j].end,
    ensures
        !taken(families, f, j, i),
{
    if taken(families, f, j, i) {
        let (g, k) = choose|g: int, k: int|
            before_match(f, j, g, k) && #[trigger] in_match(families, g, k, i);
        let a = shapes::run_view(families[f].query.view(), families[f].combination_len, families[f].runs@[j]);
        let b = shapes::run_view(families[g].query.view(), families[g].combination_len, families[g].runs@[k]);
        assert(families[f].runs@[j].assigned_root == j + 1);
        assert(families[g].runs@[k].assigned_root == k + 1);
        assert(scan.contains(a) && scan.contains(b));
        let s = choose|s: int| 0 <= s < scan.len() && scan[s] == a;
        let t = choose|t: int| 0 <= t < scan.len() && scan[t] == b;
        assert(s == t);
        assert(a == b);
        if g < f {
            assert(families[g].query.view() != families[f].query.view()
                || families[g].combination_len != families[f].combination_len);
        }
    }
}

proof fn lemma_sizes_take(s: Seq<AstView>, i: int)
    requires
        0 <= i < s.len(),
    ensures
        ast::ast_sizes(s.take(i + 1)) == ast::ast_sizes(s.take(i)) + ast::ast_size(s[i]),
        ast::ast_sizes(s.take(i + 1)) <= ast::ast_sizes(s),
    decreases s.len() - i,
{
    assert(s.take(i + 1).drop_last() =~= s.take(i));
    if i + 1 < s.len() {
        lemma_sizes_take(s, i + 1);
    } else {
        assert(s.take(i + 1) =~= s);
    }
}

proof fn lemma_single_size(op: AstOp, a: AstView)
    ensures
        ast::ast_size(AstView { op, children: seq![a] }) == 1 + ast::ast_size(a),
{
    let s = seq![a];
    assert(s.drop_last() =~= Seq::<AstView>::empty());
    assert(ast::ast_sizes(s.drop_last()) == 0);
    assert(ast::ast_sizes(s) == ast::ast_sizes(s.drop_last()) + ast::ast_size(s.last()));
}

/// The empty combination is zero.
proof fn lemma_compiled_empty(id: int, base: BaseView, descs: Seq<ScalarView>, p: int)
    requires
        p > 2,
        0 <= id < descs.len(),
        descs[id] == ScalarView::Literal(0),
    ensures
        lowering::compiled(
            plan::plan_leaf(PlanOp::ConstantTerm(id)),
            AstView { op: AstOp::Distribute(base), children: Seq::empty() },
            descs,
            p,
        ),
{
    reveal(lowering::lowered);
    written::lemma_written_empty(id, base, descs, p);
    let plan = plan::plan_leaf(PlanOp::ConstantTerm(id));
    let node = AstView { op: AstOp::Distribute(base), children: Seq::empty() };
    assert forall|sv: Seq<int>, env: RowEnv|
        scalars::scalars_bound(sv, descs, env.ch, p) && lowering::env_fits(env, node, p) implies #[trigger] plan::plan_value(
        plan,
        sv,
        env,
    ) == ast::ast_value(node, env) by {
        assert(sv[id] == 0);
        vstd::arithmetic::mul::lemma_mul_basics(env.unit);
    }
}

/// A single term has power zero.
proof fn lemma_compiled_single(
    x: PlanView,
    a: AstView,
    base: BaseView,
    descs: Seq<ScalarView>,
    p: int,
)
    requires
        p > 2,
        lowering::compiled(x, a, descs, p),
    ensures
        lowering::compiled(x, AstView { op: AstOp::Distribute(base), children: seq![a] }, descs, p),
{
    reveal(lowering::lowered);
    written::lemma_written_single(x, a, base, descs, p);
    let node = AstView { op: AstOp::Distribute(base), children: seq![a] };
    lemma_single_size(AstOp::Distribute(base), a);
    lowering::lemma_pair_facts(a, a, plan::any_leaf());
    assert forall|sv: Seq<int>, env: RowEnv|
        scalars::scalars_bound(sv, descs, env.ch, p) && lowering::env_fits(env, node, p) implies #[trigger] plan::plan_value(
        x,
        sv,
        env,
    ) == ast::ast_value(node, env) by {
        values::lemma_pair_values(a, a, env);
        let v = seq![ast::ast_value(a, env)];
        let b = base.value(env.ch);
        assert(v.drop_last() =~= Seq::<int>::empty());
        assert(arith::descending(v.drop_last(), b) == 0);
        vstd::arithmetic::mul::lemma_mul_basics(b);
        assert(arith::descending(v, b) == ast::ast_value(a, env));
        arith::lemma_mod_small(ast::ast_value(a, env), p);
    }
    assert forall|polys: spec_fn(IndexedLeaf) -> bool| lowering::leaves_below(node, polys) implies #[trigger] plan::plan_in_bounds(
        x,
        descs.len() as int,
        polys,
        0,
    ) by {
        lowering::lemma_pair_facts(a, a, polys);
    }
}

/// Where a run of a family stands.
spec fn at_match(fact: RunFact, run: SelectorRunMatch) -> bool {
    fact.start == run.start && fact.end == run.end && fact.side == run.side
}

/// The piece stands for the runs of the family.
spec fn is_family<E, B>(piece: Piece, family: SelectorFamilyMatch<E, B>) -> bool {
    &&& piece is Family
    &&& piece->query == family.query.view()
    &&& piece->runs.len() == family.runs@.len()
    &&& forall|j: int|
        0 <= j < piece->runs.len() ==> at_match(#[trigger] piece->runs[j], family.runs@[j])
}

proof fn lemma_family_pieces<E, B>(
    list: Seq<Piece>,
    families: Seq<SelectorFamilyMatch<E, B>>,
    runs: Seq<RunView>,
    terms: Seq<AstView>,
    p: int,
)
    requires
        list.len() == families.len(),
        shapes::is_scan(terms, terms.len() as int, runs, p),
        shapes::families_match(families, runs),
        forall|g: int|
            #![trigger families[g]]
            0 <= g < families.len() ==> is_family(list[g], families[g]),
    ensures
        partition::family_pieces(list, terms, p),
{
    assert forall|f: int| 0 <= f < list.len() implies (#[trigger] list[f]) is Family
        && shapes::complete_family(runs, list[f]->query, list[f]->runs.len() as int) by {
        assert(is_family(list[f], families[f]));
    }
    assert forall|f: int, j: int|
        #![trigger list[f]->runs[j]]
        0 <= f < list.len() && 0 <= j < list[f]->runs.len() implies runs.contains(
        partition::fact_view(list[f]->query, list[f]->runs.len() as int, j, list[f]->runs[j]),
    ) by {
        let family = families[f];
        assert(is_family(list[f], family));
        assert(at_match(list[f]->runs[j], family.runs@[j]));
        assert(families[f].runs@[j].assigned_root == j + 1);
        assert(partition::fact_view(list[f]->query, list[f]->runs.len() as int, j, list[f]->runs[j])
            == shapes::run_view(family.query.view(), family.combination_len, family.runs@[j]));
    }
    assert forall|f: int, g: int| 0 <= f < g < list.len() implies (#[trigger] list[f])->query != (
    #[trigger] list[g])->query || list[f]->runs.len() != list[g]->runs.len() by {
        assert(is_family(list[f], families[f]) && is_family(list[g], families[g]));
    }
    assert forall|query: IndexedLeaf, len: int| #[trigger]
        shapes::complete_family(runs, query, len) implies exists|f: int|
        0 <= f < list.len() && (#[trigger] list[f])->query == query && list[f]->runs.len()
            == len by {
        let f = choose|f: int|
            0 <= f < families.len() && (#[trigger] families[f]).query.view() == query
                && families[f].combination_len == len;
        assert(is_family(list[f], families[f]));
    }
    assert(partition::families_listed(list, runs));
}

/// A group of available terms is open where the groups before it claimed only their
/// own terms.
proof fn lemma_group_open<'a, E, F: Field, B>(
    group: FactorGroup<'a, E, F, B>,
    g: int,
    groups: Seq<FactorGroup<'a, E, F, B>>,
    places: Seq<usize>,
    terms: Seq<AstView>,
    seen: Seq<AstView>,
    claimed: Seq<bool>,
)
    requires
        0 <= g < groups.len(),
        group == groups[g],
        group.fits(seen),
        shapes::groups_disjoint(groups),
        seen.len() == places.len(),
        forall|k: int|
            #![trigger places[k]]
            0 <= k < places.len() ==> places[k] < terms.len() && seen[k]
                == terms[places[k] as int] && (claimed[places[k] as int] ==> shapes::grouped(groups, g, k)),
        forall|k: int, l: int|
            0 <= k < l < places.len() ==> #[trigger] places[k] < #[trigger] places[l],
    ensures
        group_open(group, places, terms, claimed),
{
    assert forall|k: int|
        #![trigger group.terms@[k]]
        0 <= k < group.terms@.len() implies {
        &&& group.terms@[k].0 < places.len()
        &&& places[group.terms@[k].0 as int] < terms.len()
        &&& !claimed[places[group.terms@[k].0 as int] as int]
        &&& terms[places[group.terms@[k].0 as int] as int] == ast::product_node(
            group.side,
            group.factor.view(),
            group.terms@[k].1.view(),
        )
    } by {
        let a = group.terms@[k].0 as int;
        assert(places[a] < terms.len());
        assert(group.positions()[k] == a);
        assert(groups[g].positions().contains(a));
        if claimed[places[a] as int] {
            let h = choose|h: int| 0 <= h < g && (#[trigger] groups[h]).positions().contains(a);
            assert(groups[h].positions().contains(a));
        }
    }
    assert forall|k: int, l: int| 0 <= k < l < group.terms@.len() implies places[(
    #[trigger] group.terms@[k]).0 as int] < places[(#[trigger] group.terms@[l]).0 as int] by {
        let a = group.terms@[k].0 as int;
        let b = group.terms@[l].0 as int;
        assert(a < b);
        assert(places[a] < places[b]);
    }
}

/// The places of an open group, as positions.
proof fn lemma_group_positions<'a, E, F: Field, B>(
    group: FactorGroup<'a, E, F, B>,
    places: Seq<usize>,
    terms: Seq<AstView>,
    claimed: Seq<bool>,
)
    requires
        group_open(group, places, terms, claimed),
    ensures
        ({
            let positions = partition::group_places(group.terms@, places);
            let bodies = group_bodies(group.terms@);
            &&& forall|k: int, l: int|
                0 <= k < l < positions.len() ==> #[trigger] positions[k] < #[trigger] positions[l]
            &&& forall|k: int|
                #![trigger positions[k]]
                0 <= k < positions.len() ==> 0 <= positions[k] < terms.len()
                    && !claimed[positions[k]] && terms[positions[k]] == ast::product_node(
                    group.side,
                    group.factor.view(),
                    bodies[k],
                )
        }),
{
    let positions = partition::group_places(group.terms@, places);
    let bodies = group_bodies(group.terms@);
    assert forall|k: int, l: int| 0 <= k < l < positions.len() implies #[trigger] positions[k]
        < #[trigger] positions[l] by {
        assert(places[group.terms@[k].0 as int] < places[group.terms@[l].0 as int]);
    }
    assert forall|k: int|
        #![trigger positions[k]]
        0 <= k < positions.len() implies 0 <= positions[k] < terms.len() && !claimed[positions[k]]
        && terms[positions[k]] == ast::product_node(group.side, group.factor.view(), bodies[k]) by {
        assert(places[group.terms@[k].0 as int] < terms.len());
    }
}

/// After a group is claimed, the claimed places are those of the groups so far.
proof fn lemma_claimed_grouped<'a, E, F: Field, B>(
    group: FactorGroup<'a, E, F, B>,
    g: int,
    groups: Seq<FactorGroup<'a, E, F, B>>,
    places: Seq<usize>,
    before: Seq<bool>,
    after: Seq<bool>,
)
    requires
        0 <= g < groups.len(),
        group == groups[g],
        forall|k: int|
            #![trigger places[k]]
            0 <= k < places.len() ==> places[k] < before.len() && (before[places[k] as int]
                ==> shapes::grouped(groups, g, k)),
        forall|k: int, l: int|
            0 <= k < l < places.len() ==> #[trigger] places[k] < #[trigger] places[l],
        forall|k: int|
            #![trigger group.terms@[k]]
            0 <= k < group.terms@.len() ==> group.terms@[k].0 < places.len(),
        forall|i: int|
            0 <= i < before.len() ==> (#[trigger] after[i] <==> before[i] || partition::group_places(
                group.terms@,
                places,
            ).contains(i)),
    ensures
        forall|k: int|
            #![trigger places[k]]
            0 <= k < places.len() && after[places[k] as int] ==> shapes::grouped(groups, g + 1, k),
{
    assert forall|k: int|
        #![trigger places[k]]
        0 <= k < places.len() && after[places[k] as int] implies shapes::grouped(groups, g + 1, k) by {
        if before[places[k] as int] {
            let h = choose|h: int| 0 <= h < g && (#[trigger] groups[h]).positions().contains(k);
            assert(groups[h].positions().contains(k));
        } else {
            let positions = partition::group_places(group.terms@, places);
            let l = choose|l: int| 0 <= l < positions.len() && positions[l] == places[k];
            let a = group.terms@[l].0 as int;
            assert(places[a] == places[k]);
            assert(a == k) by {
                if a < k {
                    assert(places[a] < places[k]);
                }
                if k < a {
                    assert(places[k] < places[a]);
                }
            }
            assert(group.positions()[l] == k);
            assert(groups[g].positions().contains(k));
        }
    }
}

} // verus!
