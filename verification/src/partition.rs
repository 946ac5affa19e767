//! How the terms of a linear combination are divided among the pieces of its plan.
use crate::ast;
use crate::ast::{Ast, AstOp, AstView, FactorSide, IndexedLeaf};
use crate::field::Field;
use crate::lowering;
use crate::pieces;
use crate::pieces::RunFact;
use crate::plan::{BodyShape, PlanOp, PlanView, WorkShape};
use crate::scalars::{BaseView, ScalarView};
use crate::shapes;
use crate::shapes::{FactorGroup, RunView};
use vstd::prelude::*;

verus! {

/// A piece of a planned combination, and the terms that it stands for.
pub enum Piece {
    /// The runs of a complete combination of selectors over `query`, in the order of
    /// their roots.
    Family { query: IndexedLeaf, runs: Seq<RunFact> },
    /// The terms at `positions`, which have one factor on one side.
    Shared {
        side: FactorSide,
        factor: AstView,
        plan: PlanView,
        bodies: Seq<AstView>,
        positions: Seq<int>,
        plans: Seq<PlanView>,
        ids: Seq<int>,
    },
    /// The term at one position.
    Term { position: int, plan: PlanView, id: int },
}

pub open spec fn piece_shape(piece: Piece) -> WorkShape {
    match piece {
        Piece::Family { query, runs } => WorkShape::Family(query, pieces::fact_shapes(runs)),
        Piece::Shared { side, factor, plan, bodies, positions, plans, ids } => WorkShape::Shared(ids),
        Piece::Term { position, plan, id } => WorkShape::Term(id),
    }
}

/// The operands of a piece.
pub open spec fn piece_kids(piece: Piece) -> Seq<PlanView> {
    match piece {
        Piece::Family { query, runs } => pieces::fact_children(runs),
        Piece::Shared { side, factor, plan, bodies, positions, plans, ids } => seq![plan] + plans,
        Piece::Term { position, plan, id } => seq![plan],
    }
}

pub open spec fn piece_shapes(list: Seq<Piece>) -> Seq<WorkShape> {
    Seq::new(list.len(), |i: int| piece_shape(list[i]))
}

/// The operands of the pieces in turn.
pub open spec fn pieces_kids(list: Seq<Piece>) -> Seq<PlanView>
    decreases list.len(),
{
    if list.len() == 0 {
        Seq::empty()
    } else {
        pieces_kids(list.drop_last()) + piece_kids(list.last())
    }
}

pub open spec fn in_run(run: RunFact, i: int) -> bool {
    run.start <= i < run.end
}

/// The piece stands for the term at position `i`.
pub open spec fn in_piece(piece: Piece, i: int) -> bool {
    match piece {
        Piece::Family { query, runs } => exists|j: int|
            0 <= j < runs.len() && #[trigger] in_run(runs[j], i),
        Piece::Shared { side, factor, plan, bodies, positions, plans, ids } => positions.contains(i),
        Piece::Term { position, plan, id } => position == i,
    }
}

/// One of the pieces stands for the term at position `i`.
pub open spec fn in_pieces(list: Seq<Piece>, i: int) -> bool {
    exists|g: int| 0 <= g < list.len() && in_piece(#[trigger] list[g], i)
}

/// The piece, which is no selector family, is planned from its terms, with the powers
/// that their positions have.
pub open spec fn plain_fits(
    piece: Piece,
    terms: Seq<AstView>,
    base: BaseView,
    descs: Seq<ScalarView>,
    p: int,
) -> bool {
    match piece {
        Piece::Family { query, runs } => false,
        Piece::Shared { side, factor, plan, bodies, positions, plans, ids } => {
            &&& lowering::compiled(plan, factor, descs, p)
            &&& pieces::shared_terms(ids, plans, bodies, positions, terms.len() as int, base, descs, p)
            &&& forall|k: int|
                0 <= k < positions.len() ==> terms[#[trigger] positions[k]] == ast::product_node(
                    side,
                    factor,
                    bodies[k],
                )
        },
        Piece::Term { position, plan, id } => {
            &&& 0 <= position < terms.len()
            &&& lowering::compiled(plan, terms[position], descs, p)
            &&& pieces::is_power(id, base, terms.len() - 1 - position, descs, p)
        },
    }
}

#[verifier::opaque]
pub open spec fn all_plain(
    list: Seq<Piece>,
    terms: Seq<AstView>,
    base: BaseView,
    descs: Seq<ScalarView>,
    p: int,
) -> bool {
    forall|g: int| 0 <= g < list.len() ==> plain_fits(#[trigger] list[g], terms, base, descs, p)
}

/// No two terms have a factor in common on the same side.
pub open spec fn nothing_shared(terms: Seq<AstView>) -> bool {
    forall|i: int, j: int, side: FactorSide|
        0 <= i < j < terms.len() ==> !#[trigger] share_factor(terms, i, j, side)
}

/// How the bodies of a selector are divided where some have a factor in common.
pub open spec fn is_factoring(
    left: Seq<Piece>,
    right: Seq<Piece>,
    singles: Seq<Piece>,
    terms: Seq<AstView>,
) -> bool {
    &&& left.len() + right.len() > 0
    &&& shared_pieces(Seq::empty(), left, right, terms)
    &&& single_pieces(left + right, singles, terms, false)
}

/// The bodies of a selector are planned one by one where no two have a factor in common,
/// and else with the factors shared.
pub open spec fn body_divided(
    body: BodyShape,
    kids: Seq<PlanView>,
    terms: Seq<AstView>,
    base: BaseView,
    descs: Seq<ScalarView>,
    p: int,
) -> bool {
    match body {
        BodyShape::Sequential(n) => {
            &&& nothing_shared(terms)
            &&& n == terms.len()
            &&& kids.len() == n
            &&& forall|i: int| 0 <= i < n ==> lowering::compiled(#[trigger] kids[i], terms[i], descs, p)
        },
        BodyShape::Factored(shapes) => exists|
            left: Seq<Piece>,
            right: Seq<Piece>,
            singles: Seq<Piece>,
        |
            {
                &&& #[trigger] is_factoring(left, right, singles, terms)
                &&& pieces::as_works(shapes) == piece_shapes((left + right) + singles)
                &&& kids == pieces_kids((left + right) + singles)
                &&& all_plain((left + right) + singles, terms, base, descs, p)
            },
    }
}

/// The bodies of every run are divided so.
#[verifier::opaque]
pub open spec fn bodies_divided(
    runs: Seq<RunFact>,
    base: BaseView,
    descs: Seq<ScalarView>,
    p: int,
) -> bool {
    forall|j: int|
        0 <= j < runs.len() ==> body_divided(
            (#[trigger] runs[j]).shape.body,
            runs[j].children,
            runs[j].bodies,
            base,
            descs,
            p,
        )
}

/// The piece is planned from its terms.
pub open spec fn piece_fits(
    piece: Piece,
    terms: Seq<AstView>,
    base: BaseView,
    descs: Seq<ScalarView>,
    p: int,
) -> bool {
    match piece {
        Piece::Family { query, runs } => {
            &&& bodies_divided(runs, base, descs, p)
            &&& forall|j: int|
                0 <= j < runs.len() ==> pieces::run_computes(
                    #[trigger] runs[j],
                    j,
                    query,
                    runs.len() as int,
                    terms,
                    base,
                    descs,
                    p,
                )
        },
        _ => plain_fits(piece, terms, base, descs, p),
    }
}

#[verifier::opaque]
pub open spec fn all_fit(
    list: Seq<Piece>,
    terms: Seq<AstView>,
    base: BaseView,
    descs: Seq<ScalarView>,
    p: int,
) -> bool {
    forall|g: int| 0 <= g < list.len() ==> piece_fits(#[trigger] list[g], terms, base, descs, p)
}

/// The selector of a run, and where it stands.
pub open spec fn fact_view(query: IndexedLeaf, len: int, j: int, run: RunFact) -> RunView {
    RunView { query, len, root: j + 1, start: run.start, end: run.end, side: run.side }
}

/// The families are those of the complete combinations among the runs, each once, in the
/// order in which the combinations appear.
pub open spec fn families_listed(families: Seq<Piece>, runs: Seq<RunView>) -> bool {
    &&& forall|f: int|
        0 <= f < families.len() ==> (#[trigger] families[f]) is Family && shapes::complete_family(
            runs,
            families[f]->query,
            families[f]->runs.len() as int,
        )
    &&& forall|f: int, j: int|
        #![trigger families[f]->runs[j]]
        0 <= f < families.len() && 0 <= j < families[f]->runs.len() ==> runs.contains(
            fact_view(
                families[f]->query,
                families[f]->runs.len() as int,
                j,
                families[f]->runs[j],
            ),
        )
    &&& forall|f: int, g: int|
        0 <= f < g < families.len() ==> (#[trigger] families[f])->query != (
        #[trigger] families[g])->query || families[f]->runs.len() != families[g]->runs.len()
    &&& forall|f: int, g: int|
        #![trigger families[f], families[g]]
        0 <= f < g < families.len() ==> shapes::appears_first(
            runs,
            families[f]->query,
            families[f]->runs.len() as int,
            families[g]->query,
            families[g]->runs.len() as int,
        )
    &&& forall|query: IndexedLeaf, len: int|
        #[trigger] shapes::complete_family(runs, query, len) ==> exists|f: int|
            0 <= f < families.len() && (#[trigger] families[f])->query == query
                && families[f]->runs.len() == len
}

/// The selector families of the terms.
pub open spec fn family_pieces(families: Seq<Piece>, terms: Seq<AstView>, p: int) -> bool {
    exists|runs: Seq<RunView>|
        shapes::is_scan(terms, terms.len() as int, runs, p) && #[trigger] families_listed(families, runs)
}

/// The terms at `i` and `j` have the same factor on one side.
pub open spec fn share_factor(terms: Seq<AstView>, i: int, j: int, side: FactorSide) -> bool {
    terms[i].op == AstOp::Mul && ast::has_factor(terms[j], side, ast::factor_of(terms[i], side))
}

/// The groups of terms that have a factor in common on one side, among the terms that
/// the pieces before leave: by the first of their terms, which are in order.
pub open spec fn side_pieces(
    before: Seq<Piece>,
    list: Seq<Piece>,
    terms: Seq<AstView>,
    side: FactorSide,
) -> bool {
    &&& forall|g: int|
        0 <= g < list.len() ==> (#[trigger] list[g]) is Shared && list[g]->side == side
            && list[g]->positions.len() >= 2
    &&& forall|g: int, k: int, l: int|
        0 <= g < list.len() && 0 <= k < l < list[g]->positions.len()
            ==> #[trigger] list[g]->positions[k] < #[trigger] list[g]->positions[l]
    &&& forall|g: int, k: int|
        #![trigger list[g]->positions[k]]
        0 <= g < list.len() && 0 <= k < list[g]->positions.len() ==> ast::has_factor(
            terms[list[g]->positions[k]],
            side,
            ast::factor_of(terms[list[g]->positions[0]], side),
        )
    &&& forall|g: int, i: int|
        0 <= g < list.len() && #[trigger] in_piece(list[g], i) ==> 0 <= i < terms.len()
            && !in_pieces(before, i)
    &&& forall|g: int, h: int|
        0 <= g < h < list.len() ==> (#[trigger] list[g])->positions[0] < (
        #[trigger] list[h])->positions[0]
    &&& forall|g: int, h: int, i: int|
        0 <= g < h < list.len() && #[trigger] in_piece(list[g], i) ==> !#[trigger] in_piece(
            list[h],
            i,
        )
    &&& forall|i: int, j: int|
        0 <= i < j < terms.len() && #[trigger] share_factor(terms, i, j, side) && !in_pieces(
            before,
            i,
        ) && !in_pieces(before, j) ==> exists|g: int|
            0 <= g < list.len() && #[trigger] in_piece(list[g], i) && in_piece(list[g], j)
}

/// The groups of terms with a common factor: those on the left, and among what they
/// leave those on the right.
pub open spec fn shared_pieces(
    families: Seq<Piece>,
    left: Seq<Piece>,
    right: Seq<Piece>,
    terms: Seq<AstView>,
) -> bool {
    &&& side_pieces(families, left, terms, FactorSide::Left)
    &&& side_pieces(families + left, right, terms, FactorSide::Right)
}

/// The terms that the pieces before leave, one by one, from the last or from the first.
pub open spec fn single_pieces(
    before: Seq<Piece>,
    list: Seq<Piece>,
    terms: Seq<AstView>,
    from_last: bool,
) -> bool {
    &&& forall|g: int|
        0 <= g < list.len() ==> (#[trigger] list[g]) is Term && 0 <= list[g]->position
            < terms.len() && !in_pieces(before, list[g]->position)
    &&& forall|g: int, h: int|
        0 <= g < h < list.len() ==> if from_last {
            (#[trigger] list[g])->position > (#[trigger] list[h])->position
        } else {
            list[g]->position < list[h]->position
        }
    &&& forall|i: int|
        0 <= i < terms.len() && !#[trigger] in_pieces(before, i) ==> in_pieces(list, i)
}

/// How a combination is divided: the selector families, the terms with a common factor,
/// and the other terms, from the lowest power to the highest.
pub open spec fn is_division(
    families: Seq<Piece>,
    left: Seq<Piece>,
    right: Seq<Piece>,
    singles: Seq<Piece>,
    terms: Seq<AstView>,
    p: int,
) -> bool {
    &&& family_pieces(families, terms, p)
    &&& shared_pieces(families, left, right, terms)
    &&& single_pieces(families + (left + right), singles, terms, true)
}

/// The descriptor of the base.
pub open spec fn base_desc(base: BaseView) -> ScalarView {
    match base {
        BaseView::Literal(v) => ScalarView::Literal(v),
        BaseView::Challenge(c) => ScalarView::Challenge(c),
    }
}

/// The plan evaluates the pieces in turn.
pub open spec fn evaluates_pieces(
    plan: PlanView,
    list: Seq<Piece>,
    terms: Seq<AstView>,
    base: BaseView,
    descs: Seq<ScalarView>,
    p: int,
) -> bool {
    &&& plan.op matches PlanOp::Distribute(shapes, id) && shapes == piece_shapes(list) && 0 <= id
        < descs.len() && descs[id] == base_desc(base)
    &&& plan.children == pieces_kids(list)
    &&& all_fit(list, terms, base, descs, p)
}

/// Whether the plan of a combination of several terms is divided as it should be.
pub open spec fn distributes(plan: PlanView, a: AstView, descs: Seq<ScalarView>, p: int) -> bool
    decreases a,
{
    match a.op {
        AstOp::Distribute(base) => if a.children.len() == 0 {
            plan.op matches PlanOp::ConstantTerm(id) && 0 <= id < descs.len() && descs[id]
                == ScalarView::Literal(0)
        } else if a.children.len() == 1 {
            distributes(plan, a.children[0], descs, p)
        } else {
            exists|
                families: Seq<Piece>,
                left: Seq<Piece>,
                right: Seq<Piece>,
                singles: Seq<Piece>,
            | #[trigger]
                is_division(families, left, right, singles, a.children, p) && evaluates_pieces(
                    plan,
                    families + (left + right) + singles,
                    a.children,
                    base,
                    descs,
                    p,
                )
        },
        _ => true,
    }
}

pub proof fn lemma_all_fit_empty(terms: Seq<AstView>, base: BaseView, descs: Seq<ScalarView>, p: int)
    ensures
        all_fit(Seq::empty(), terms, base, descs, p),
        piece_shapes(Seq::empty()) == Seq::<WorkShape>::empty(),
{
    reveal(all_fit);
    assert(piece_shapes(Seq::empty()) =~= Seq::<WorkShape>::empty());
}

proof fn lemma_plain_mono(
    piece: Piece,
    terms: Seq<AstView>,
    base: BaseView,
    descs: Seq<ScalarView>,
    later: Seq<ScalarView>,
    p: int,
)
    requires
        plain_fits(piece, terms, base, descs, p),
        lowering::extends(later, descs),
    ensures
        plain_fits(piece, terms, base, later, p),
{
    match piece {
        Piece::Family { query, runs } => {},
        Piece::Shared { side, factor, plan, bodies, positions, plans, ids } => {
            lowering::lemma_compiled_mono(plan, factor, descs, later, p);
            pieces::lemma_shared_terms_mono(
                ids,
                plans,
                bodies,
                positions,
                terms.len() as int,
                base,
                descs,
                later,
                p,
            );
        },
        Piece::Term { position, plan, id } => {
            lowering::lemma_compiled_mono(plan, terms[position], descs, later, p);
            pieces::lemma_is_power_mono(id, base, terms.len() - 1 - position, descs, later, p);
        },
    }
}

pub proof fn lemma_all_plain_empty(
    terms: Seq<AstView>,
    base: BaseView,
    descs: Seq<ScalarView>,
    p: int,
)
    ensures
        all_plain(Seq::empty(), terms, base, descs, p),
        piece_shapes(Seq::empty()) == Seq::<WorkShape>::empty(),
{
    reveal(all_plain);
    assert(piece_shapes(Seq::empty()) =~= Seq::<WorkShape>::empty());
}

proof fn lemma_all_plain_mono(
    list: Seq<Piece>,
    terms: Seq<AstView>,
    base: BaseView,
    descs: Seq<ScalarView>,
    later: Seq<ScalarView>,
    p: int,
)
    requires
        all_plain(list, terms, base, descs, p),
        lowering::extends(later, descs),
    ensures
        all_plain(list, terms, base, later, p),
{
    reveal(all_plain);
    assert forall|g: int| 0 <= g < list.len() implies plain_fits(
        #[trigger] list[g],
        terms,
        base,
        later,
        p,
    ) by {
        lemma_plain_mono(list[g], terms, base, descs, later, p);
    }
}

/// One more piece that is no selector family.
pub proof fn lemma_all_plain_push(
    list: Seq<Piece>,
    piece: Piece,
    terms: Seq<AstView>,
    base: BaseView,
    descs: Seq<ScalarView>,
    later: Seq<ScalarView>,
    p: int,
)
    requires
        all_plain(list, terms, base, descs, p),
        lowering::extends(later, descs),
        plain_fits(piece, terms, base, later, p),
    ensures
        all_plain(list.push(piece), terms, base, later, p),
        piece_shapes(list.push(piece)) == piece_shapes(list).push(piece_shape(piece)),
        pieces_kids(list.push(piece)) == pieces_kids(list) + piece_kids(piece),
        forall|i: int| #[trigger]
            in_pieces(list.push(piece), i) <==> in_pieces(list, i) || in_piece(piece, i),
{
    lemma_all_plain_mono(list, terms, base, descs, later, p);
    reveal(all_plain);
    let next = list.push(piece);
    assert(next.drop_last() =~= list);
    assert(piece_shapes(next) =~= piece_shapes(list).push(piece_shape(piece)));
    assert forall|g: int| 0 <= g < next.len() implies plain_fits(
        #[trigger] next[g],
        terms,
        base,
        later,
        p,
    ) by {
        if g < list.len() {
            assert(next[g] == list[g]);
        }
    }
    lemma_in_pieces_push(list, piece);
}

pub proof fn lemma_body_divided_mono(
    body: BodyShape,
    kids: Seq<PlanView>,
    terms: Seq<AstView>,
    base: BaseView,
    descs: Seq<ScalarView>,
    later: Seq<ScalarView>,
    p: int,
)
    requires
        body_divided(body, kids, terms, base, descs, p),
        lowering::extends(later, descs),
    ensures
        body_divided(body, kids, terms, base, later, p),
{
    match body {
        BodyShape::Sequential(n) => {
            assert forall|i: int| 0 <= i < n implies lowering::compiled(
                #[trigger] kids[i],
                terms[i],
                later,
                p,
            ) by {
                lowering::lemma_compiled_mono(kids[i], terms[i], descs, later, p);
            }
        },
        BodyShape::Factored(shapes) => {
            let (left, right, singles) = choose|
                left: Seq<Piece>,
                right: Seq<Piece>,
                singles: Seq<Piece>,
            |
                {
                    &&& #[trigger] is_factoring(left, right, singles, terms)
                    &&& pieces::as_works(shapes) == piece_shapes((left + right) + singles)
                    &&& kids == pieces_kids((left + right) + singles)
                    &&& all_plain((left + right) + singles, terms, base, descs, p)
                };
            lemma_all_plain_mono((left + right) + singles, terms, base, descs, later, p);
            assert(is_factoring(left, right, singles, terms));
        },
    }
}

pub proof fn lemma_bodies_mono(
    runs: Seq<RunFact>,
    base: BaseView,
    descs: Seq<ScalarView>,
    later: Seq<ScalarView>,
    p: int,
)
    requires
        bodies_divided(runs, base, descs, p),
        lowering::extends(later, descs),
    ensures
        bodies_divided(runs, base, later, p),
{
    reveal(bodies_divided);
    assert forall|j: int| 0 <= j < runs.len() implies body_divided(
        (#[trigger] runs[j]).shape.body,
        runs[j].children,
        runs[j].bodies,
        base,
        later,
        p,
    ) by {
        lemma_body_divided_mono(
            runs[j].shape.body,
            runs[j].children,
            runs[j].bodies,
            base,
            descs,
            later,
            p,
        );
    }
}

/// One more run.
pub proof fn lemma_bodies_push(
    runs: Seq<RunFact>,
    run: RunFact,
    base: BaseView,
    descs: Seq<ScalarView>,
    later: Seq<ScalarView>,
    p: int,
)
    requires
        runs.len() > 0 ==> bodies_divided(runs, base, descs, p),
        lowering::extends(later, descs),
        body_divided(run.shape.body, run.children, run.bodies, base, later, p),
    ensures
        bodies_divided(runs.push(run), base, later, p),
{
    if runs.len() > 0 {
        lemma_bodies_mono(runs, base, descs, later, p);
    }
    reveal(bodies_divided);
    let next = runs.push(run);
    assert forall|j: int| 0 <= j < next.len() implies body_divided(
        (#[trigger] next[j]).shape.body,
        next[j].children,
        next[j].bodies,
        base,
        later,
        p,
    ) by {
        if j < runs.len() {
            assert(next[j] == runs[j]);
        }
    }
}

/// Where nothing is grouped, no two terms have a factor in common.
pub proof fn lemma_nothing_shared<'a, E, F: Field, B>(
    groups: Seq<FactorGroup<'a, E, F, B>>,
    terms: Seq<AstView>,
)
    requires
        groups.len() == 0,
        shapes::side_complete(groups, 0, terms, FactorSide::Left),
        shapes::side_complete(groups, 0, terms, FactorSide::Right),
    ensures
        nothing_shared(terms),
{
    assert forall|i: int, j: int, side: FactorSide|
        0 <= i < j < terms.len() implies !#[trigger] share_factor(terms, i, j, side) by {
        assert(!shapes::grouped(groups, 0, i) && !shapes::grouped(groups, 0, j));
        let (a, b) = (terms[i], terms[j]);
        match side {
            FactorSide::Left => {},
            FactorSide::Right => {},
        }
    }
}

pub proof fn lemma_all_fit_mono(
    list: Seq<Piece>,
    terms: Seq<AstView>,
    base: BaseView,
    descs: Seq<ScalarView>,
    later: Seq<ScalarView>,
    p: int,
)
    requires
        all_fit(list, terms, base, descs, p),
        lowering::extends(later, descs),
    ensures
        all_fit(list, terms, base, later, p),
{
    reveal(all_fit);
    assert forall|g: int| 0 <= g < list.len() implies piece_fits(
        #[trigger] list[g],
        terms,
        base,
        later,
        p,
    ) by {
        assert(piece_fits(list[g], terms, base, descs, p));
        match list[g] {
            Piece::Family { query, runs } => {
                lemma_bodies_mono(runs, base, descs, later, p);
                assert forall|j: int| 0 <= j < runs.len() implies pieces::run_computes(
                    #[trigger] runs[j],
                    j,
                    query,
                    runs.len() as int,
                    terms,
                    base,
                    later,
                    p,
                ) by {
                    pieces::lemma_run_mono(
                        runs[j],
                        j,
                        query,
                        runs.len() as int,
                        terms,
                        base,
                        descs,
                        later,
                        p,
                    );
                }
            },
            _ => {
                lemma_plain_mono(list[g], terms, base, descs, later, p);
            },
        }
    }
}

/// One more piece.
pub proof fn lemma_all_fit_push(
    list: Seq<Piece>,
    piece: Piece,
    terms: Seq<AstView>,
    base: BaseView,
    descs: Seq<ScalarView>,
    later: Seq<ScalarView>,
    p: int,
)
    requires
        all_fit(list, terms, base, descs, p),
        lowering::extends(later, descs),
        piece_fits(piece, terms, base, later, p),
    ensures
        all_fit(list.push(piece), terms, base, later, p),
        piece_shapes(list.push(piece)) == piece_shapes(list).push(piece_shape(piece)),
        pieces_kids(list.push(piece)) == pieces_kids(list) + piece_kids(piece),
        forall|i: int| #[trigger]
            in_pieces(list.push(piece), i) <==> in_pieces(list, i) || in_piece(piece, i),
{
    lemma_all_fit_mono(list, terms, base, descs, later, p);
    reveal(all_fit);
    let next = list.push(piece);
    assert(next.drop_last() =~= list);
    assert(piece_shapes(next) =~= piece_shapes(list).push(piece_shape(piece)));
    assert forall|g: int| 0 <= g < next.len() implies piece_fits(
        #[trigger] next[g],
        terms,
        base,
        later,
        p,
    ) by {
        if g < list.len() {
            assert(next[g] == list[g]);
        }
    }
    lemma_in_pieces_push(list, piece);
}

pub proof fn lemma_in_pieces_push(list: Seq<Piece>, piece: Piece)
    ensures
        forall|i: int| #[trigger]
            in_pieces(list.push(piece), i) <==> in_pieces(list, i) || in_piece(piece, i),
{
    let next = list.push(piece);
    assert forall|i: int| #[trigger] in_pieces(next, i) <==> in_pieces(list, i) || in_piece(
        piece,
        i,
    ) by {
        if in_pieces(list, i) {
            let g = choose|g: int| 0 <= g < list.len() && in_piece(#[trigger] list[g], i);
            assert(in_piece(next[g], i));
        }
        if in_piece(piece, i) {
            assert(in_piece(next[list.len() as int], i));
        }
        if in_pieces(next, i) {
            let g = choose|g: int| 0 <= g < next.len() && in_piece(#[trigger] next[g], i);
            if g < list.len() {
                assert(in_piece(list[g], i));
            }
        }
    }
}

pub proof fn lemma_in_pieces_concat(a: Seq<Piece>, b: Seq<Piece>, i: int)
    ensures
        in_pieces(a + b, i) <==> in_pieces(a, i) || in_pieces(b, i),
{
    let c = a + b;
    if in_pieces(a, i) {
        let g = choose|g: int| 0 <= g < a.len() && in_piece(#[trigger] a[g], i);
        assert(in_piece(c[g], i));
    }
    if in_pieces(b, i) {
        let g = choose|g: int| 0 <= g < b.len() && in_piece(#[trigger] b[g], i);
        assert(in_piece(c[g + a.len()], i));
    }
    if in_pieces(c, i) {
        let g = choose|g: int| 0 <= g < c.len() && in_piece(#[trigger] c[g], i);
        if g < a.len() {
            assert(in_piece(a[g], i));
        } else {
            assert(in_piece(b[g - a.len()], i));
        }
    }
}

/// The claims of runs are those of their terms.
pub proof fn lemma_claim_runs(claimed: Seq<bool>, runs: Seq<RunFact>, i: int)
    requires
        0 <= i < claimed.len(),
    ensures
        pieces::claim_runs(claimed, runs).len() == claimed.len(),
        pieces::claim_runs(claimed, runs)[i] <==> claimed[i] || exists|j: int|
            0 <= j < runs.len() && #[trigger] in_run(runs[j], i),
    decreases runs.len(),
{
    if runs.len() > 0 {
        let front = runs.drop_last();
        lemma_claim_runs(claimed, front, i);
        if exists|j: int| 0 <= j < front.len() && #[trigger] in_run(front[j], i) {
            let j = choose|j: int| 0 <= j < front.len() && #[trigger] in_run(front[j], i);
            assert(in_run(runs[j], i));
        }
        if in_run(runs.last(), i) {
            assert(in_run(runs[runs.len() - 1], i));
        }
        if exists|j: int| 0 <= j < runs.len() && #[trigger] in_run(runs[j], i) {
            let j = choose|j: int| 0 <= j < runs.len() && #[trigger] in_run(runs[j], i);
            if j < front.len() {
                assert(in_run(front[j], i));
            }
        }
    }
}

/// Where the terms of a group stand.
pub open spec fn group_places<'a, E, F: Field, B>(
    terms: Seq<(usize, &'a Ast<E, F, B>)>,
    places: Seq<usize>,
) -> Seq<int> {
    Seq::new(terms.len(), |k: int| places[terms[k].0 as int] as int)
}

/// The piece stands for the terms of the group.
pub open spec fn is_group<'a, E, F: Field, B>(
    piece: Piece,
    group: FactorGroup<'a, E, F, B>,
    places: Seq<usize>,
) -> bool {
    piece is Shared && piece->side == group.side && piece->positions == group_places(
        group.terms@,
        places,
    )
}

/// The places list, in order, the positions that the pieces before leave.
pub open spec fn lists_open(
    places: Seq<usize>,
    before: Seq<Piece>,
    terms: Seq<AstView>,
    seen: Seq<AstView>,
) -> bool {
    &&& seen.len() == places.len()
    &&& forall|k: int|
        #![trigger places[k]]
        0 <= k < places.len() ==> places[k] < terms.len() && !in_pieces(before, places[k] as int)
            && seen[k] == terms[places[k] as int]
    &&& forall|k: int, l: int|
        0 <= k < l < places.len() ==> #[trigger] places[k] < #[trigger] places[l]
    &&& forall|i: int|
        0 <= i < terms.len() && !#[trigger] in_pieces(before, i) ==> places.contains(i as usize)
}

/// The pieces of the groups on one side, among the positions that the first `n` groups
/// leave.
#[verifier::rlimit(40)]
#[verifier::spinoff_prover]
proof fn lemma_side_pieces<'a, E, F: Field, B>(
    before: Seq<Piece>,
    list: Seq<Piece>,
    groups: Seq<FactorGroup<'a, E, F, B>>,
    n: int,
    m: int,
    places: Seq<usize>,
    base: Seq<Piece>,
    seen: Seq<AstView>,
    terms: Seq<AstView>,
    side: FactorSide,
)
    requires
        terms.len() <= usize::MAX,
        0 <= n <= m <= groups.len(),
        list.len() == m - n,
        forall|g: int| 0 <= g < groups.len() ==> (#[trigger] groups[g]).fits(seen),
        shapes::groups_disjoint(groups),
        forall|g: int| n <= g < m ==> (#[trigger] groups[g]).side == side,
        forall|g: int|
            #![trigger groups[g]]
            n <= g < m ==> is_group(list[g - n], groups[g], places),
        shapes::groups_ordered(groups, n, m),
        shapes::side_complete(groups.take(m), n, seen, side),
        lists_open(places, base, terms, seen),
        forall|k: int|
            #![trigger places[k]]
            0 <= k < places.len() ==> (in_pieces(before, places[k] as int) <==> shapes::grouped(
                groups,
                n,
                k,
            )),
        forall|i: int| #[trigger] in_pieces(base, i) ==> in_pieces(before, i),
    ensures
        side_pieces(before, list, terms, side),
{
    assert forall|g: int| 0 <= g < list.len() implies (#[trigger] list[g]) is Shared
        && list[g]->side == side && list[g]->positions.len() >= 2 by {
        assert(groups[g + n].fits(seen));
        assert(is_group(list[g], groups[g + n], places));
    }
    assert forall|g: int, k: int, l: int|
        0 <= g < list.len() && 0 <= k < l < list[g]->positions.len() implies #[trigger] list[g]->positions[k]
        < #[trigger] list[g]->positions[l] by {
        let group = groups[g + n];
        assert(group.fits(seen) && is_group(list[g], group, places));
        let (a, b) = (group.terms@[k].0 as int, group.terms@[l].0 as int);
        assert(a < b && b < places.len());
        assert(places[a] < places[b]);
    }
    assert forall|g: int, k: int|
        #![trigger list[g]->positions[k]]
        0 <= g < list.len() && 0 <= k < list[g]->positions.len() implies ast::has_factor(
        terms[list[g]->positions[k]],
        side,
        ast::factor_of(terms[list[g]->positions[0]], side),
    ) by {
        let group = groups[g + n];
        assert(group.fits(seen) && is_group(list[g], group, places));
        lemma_group_factor(list[g], group, places, base, seen, terms, k);
    }
    assert forall|g: int, i: int| 0 <= g < list.len() && #[trigger] in_piece(list[g], i) implies 0
        <= i < terms.len() && !in_pieces(before, i) by {
        let k = lemma_in_group(list[g], groups, g + n, places, seen, i);
        assert(places[k] < terms.len());
        if shapes::grouped(groups, n, k) {
            let h = choose|h: int| 0 <= h < n && (#[trigger] groups[h]).positions().contains(k);
            assert(groups[h].positions().contains(k) && groups[g + n].positions().contains(k));
        }
    }
    assert forall|g: int, h: int| 0 <= g < h < list.len() implies (#[trigger] list[g])->positions[0]
        < (#[trigger] list[h])->positions[0] by {
        let (x, y) = (groups[g + n], groups[h + n]);
        assert(x.fits(seen) && is_group(list[g], x, places));
        assert(y.fits(seen) && is_group(list[h], y, places));
        let (a, b) = (x.terms@[0].0 as int, y.terms@[0].0 as int);
        assert(a < b && b < places.len());
        assert(places[a] < places[b]);
    }
    assert forall|g: int, h: int, i: int|
        0 <= g < h < list.len() && #[trigger] in_piece(list[g], i) implies !#[trigger] in_piece(
        list[h],
        i,
    ) by {
        if in_piece(list[h], i) {
            let k = lemma_in_group(list[g], groups, g + n, places, seen, i);
            let l = lemma_in_group(list[h], groups, h + n, places, seen, i);
            lemma_same_place(places, k, l);
            assert(groups[g + n].positions().contains(k) && groups[h + n].positions().contains(k));
        }
    }
    assert forall|i: int, j: int|
        0 <= i < j < terms.len() && #[trigger] share_factor(terms, i, j, side) && !in_pieces(
            before,
            i,
        ) && !in_pieces(before, j) implies exists|g: int|
        0 <= g < list.len() && #[trigger] in_piece(list[g], i) && in_piece(list[g], j) by {
        assert(!in_pieces(base, i) && !in_pieces(base, j));
        assert(places.contains(i as usize) && places.contains(j as usize));
        let k = choose|k: int| 0 <= k < places.len() && places[k] == i as usize;
        let l = choose|l: int| 0 <= l < places.len() && places[l] == j as usize;
        assert(places[k] == i && places[l] == j);
        if l <= k {
            if l < k {
                assert(places[l] < places[k]);
            }
        }
        assert(seen[k] == terms[i] && seen[l] == terms[j]);
        let part = groups.take(m);
        assert(!shapes::grouped(part, n, k)) by {
            if shapes::grouped(part, n, k) {
                let h = choose|h: int| 0 <= h < n && (#[trigger] part[h]).positions().contains(k);
                assert(groups[h].positions().contains(k));
            }
        }
        assert(!shapes::grouped(part, n, l)) by {
            if shapes::grouped(part, n, l) {
                let h = choose|h: int| 0 <= h < n && (#[trigger] part[h]).positions().contains(l);
                assert(groups[h].positions().contains(l));
            }
        }
        let g = choose|g: int|
            n <= g < part.len() && (#[trigger] part[g]).positions().contains(k)
                && part[g].positions().contains(l);
        assert(groups[g] == part[g]);
        lemma_group_has(list[g - n], groups[g], places, k);
        lemma_group_has(list[g - n], groups[g], places, l);
        assert(in_piece(list[g - n], i) && in_piece(list[g - n], j));
    }
}

/// The terms of a group have its factor.
proof fn lemma_group_factor<'a, E, F: Field, B>(
    piece: Piece,
    group: FactorGroup<'a, E, F, B>,
    places: Seq<usize>,
    base: Seq<Piece>,
    seen: Seq<AstView>,
    terms: Seq<AstView>,
    k: int,
)
    requires
        group.fits(seen),
        is_group(piece, group, places),
        lists_open(places, base, terms, seen),
        0 <= k < piece->positions.len(),
    ensures
        ast::has_factor(
            terms[piece->positions[k]],
            group.side,
            ast::factor_of(terms[piece->positions[0]], group.side),
        ),
{
    let (a, b) = (group.terms@[0].0 as int, group.terms@[k].0 as int);
    assert(places[a] < terms.len() && places[b] < terms.len());
    assert(seen[a] == ast::product_node(group.side, group.factor.view(), group.terms@[0].1.view()));
    assert(seen[b] == ast::product_node(group.side, group.factor.view(), group.terms@[k].1.view()));
}

proof fn lemma_group_has<'a, E, F: Field, B>(
    piece: Piece,
    group: FactorGroup<'a, E, F, B>,
    places: Seq<usize>,
    k: int,
)
    requires
        is_group(piece, group, places),
        group.positions().contains(k),
    ensures
        in_piece(piece, places[k] as int),
{
    let t = choose|t: int| 0 <= t < group.positions().len() && group.positions()[t] == k;
    assert(piece->positions[t] == places[k]);
}

proof fn lemma_in_group<'a, E, F: Field, B>(
    piece: Piece,
    groups: Seq<FactorGroup<'a, E, F, B>>,
    g: int,
    places: Seq<usize>,
    seen: Seq<AstView>,
    i: int,
) -> (k: int)
    requires
        0 <= g < groups.len(),
        groups[g].fits(seen),
        is_group(piece, groups[g], places),
        seen.len() == places.len(),
        in_piece(piece, i),
    ensures
        0 <= k < places.len(),
        places[k] == i,
        groups[g].positions().contains(k),
{
    let positions = piece->positions;
    let t = choose|t: int| 0 <= t < positions.len() && positions[t] == i;
    let k = groups[g].terms@[t].0 as int;
    assert(groups[g].positions()[t] == k);
    k
}

proof fn lemma_same_place(places: Seq<usize>, k: int, l: int)
    requires
        forall|k: int, l: int|
            0 <= k < l < places.len() ==> #[trigger] places[k] < #[trigger] places[l],
        0 <= k < places.len(),
        0 <= l < places.len(),
        places[k] == places[l],
    ensures
        k == l,
{
    if k < l {
        assert(places[k] < places[l]);
    }
    if l < k {
        assert(places[l] < places[k]);
    }
}

/// The groups of repeated factors are the pieces on the left and on the right.
pub proof fn lemma_shared_pieces<'a, E, F: Field, B>(
    families: Seq<Piece>,
    shared: Seq<Piece>,
    groups: Seq<FactorGroup<'a, E, F, B>>,
    n: int,
    places: Seq<usize>,
    seen: Seq<AstView>,
    terms: Seq<AstView>,
)
    requires
        terms.len() <= usize::MAX,
        0 <= n <= groups.len(),
        shared.len() == groups.len(),
        forall|g: int| 0 <= g < groups.len() ==> (#[trigger] groups[g]).fits(seen),
        shapes::groups_disjoint(groups),
        forall|g: int| 0 <= g < n ==> (#[trigger] groups[g]).side == FactorSide::Left,
        forall|g: int| n <= g < groups.len() ==> (#[trigger] groups[g]).side == FactorSide::Right,
        forall|g: int|
            #![trigger groups[g]]
            0 <= g < groups.len() ==> is_group(shared[g], groups[g], places),
        shapes::groups_ordered(groups, 0, n),
        shapes::groups_ordered(groups, n, groups.len() as int),
        shapes::side_complete(groups.take(n), 0, seen, FactorSide::Left),
        shapes::side_complete(groups, n, seen, FactorSide::Right),
        lists_open(places, families, terms, seen),
    ensures
        shared_pieces(families, shared.take(n), shared.skip(n), terms),
        shared == shared.take(n) + shared.skip(n),
{
    let (left, right) = (shared.take(n), shared.skip(n));
    assert(shared =~= left + right);
    assert forall|k: int|
        #![trigger places[k]]
        0 <= k < places.len() implies (in_pieces(families, places[k] as int) <==> shapes::grouped(
        groups,
        0,
        k,
    )) by {}
    lemma_side_pieces(
        families,
        left,
        groups,
        0,
        n,
        places,
        families,
        seen,
        terms,
        FactorSide::Left,
    );
    let before = families + left;
    assert forall|k: int|
        #![trigger places[k]]
        0 <= k < places.len() implies (in_pieces(before, places[k] as int) <==> shapes::grouped(
        groups,
        n,
        k,
    )) by {
        lemma_in_pieces_concat(families, left, places[k] as int);
        if in_pieces(left, places[k] as int) {
            let g = choose|g: int|
                0 <= g < left.len() && in_piece(#[trigger] left[g], places[k] as int);
            assert(groups[g].fits(seen) && is_group(shared[g], groups[g], places));
            let l = lemma_in_group(left[g], groups, g, places, seen, places[k] as int);
            lemma_same_place(places, k, l);
        }
        if shapes::grouped(groups, n, k) {
            let g = choose|g: int| 0 <= g < n && (#[trigger] groups[g]).positions().contains(k);
            assert(is_group(shared[g], groups[g], places));
            lemma_group_has(left[g], groups[g], places, k);
            assert(in_piece(left[g], places[k] as int));
        }
    }
    assert forall|i: int| #[trigger] in_pieces(families, i) implies in_pieces(before, i) by {
        lemma_in_pieces_concat(families, left, i);
    }
    assert(groups.take(groups.len() as int) =~= groups);
    lemma_side_pieces(
        before,
        right,
        groups,
        n,
        groups.len() as int,
        places,
        families,
        seen,
        terms,
        FactorSide::Right,
    );
}

} // verus!
