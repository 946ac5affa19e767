//! Recognition of the expression shapes that a plan evaluates faster than node by
//! node: shared factors, compressed selectors and expanded polynomials.
use crate::arith;
use crate::ast;
use crate::ast::{
    Ast, AstLeaf, AstMul, AstOp, AstView, FactorSide, IndexedLeaf, factor_terms, mul_terms,
    same_ast,
};
use crate::field::Field;
use crate::poly;
use vstd::prelude::*;

verus! {

/// Selector families with fewer selectors than this are not planned together.
pub const MIN_SELECTOR_FAMILY_LEN: usize = 4;

/// Polynomials with fewer coefficients than this do not recover the recognition and
/// evaluation overhead.
pub const MIN_HORNER_COEFFICIENTS: usize = 4;

/// Product terms that share a factor on one side, with the positions they come from.
pub struct FactorGroup<'a, E, F, B> {
    pub factor: &'a Ast<E, F, B>,
    pub side: FactorSide,
    pub terms: Vec<(usize, &'a Ast<E, F, B>)>,
}

impl<'a, E, F: Field, B> FactorGroup<'a, E, F, B> {
    /// The positions of the group's terms.
    pub open spec fn positions(&self) -> Seq<int> {
        Seq::new(self.terms@.len(), |k: int| self.terms@[k].0 as int)
    }

    /// The group lists terms of `views`, in order, as products with its factor.
    pub open spec fn fits(&self, views: Seq<AstView>) -> bool {
        &&& self.terms@.len() >= 2
        &&& forall|k: int|
            #![trigger self.terms@[k]]
            0 <= k < self.terms@.len() ==> {
                &&& self.terms@[k].0 < views.len()
                &&& views[self.terms@[k].0 as int] == ast::product_node(
                    self.side,
                    self.factor.view(),
                    self.terms@[k].1.view(),
                )
            }
        &&& forall|k: int, l: int|
            0 <= k < l < self.terms@.len() ==> (#[trigger] self.terms@[k]).0
                < (#[trigger] self.terms@[l]).0
    }
}

/// Position `i` is listed by one of the first `n` groups.
pub open spec fn grouped<'a, E, F: Field, B>(
    groups: Seq<FactorGroup<'a, E, F, B>>,
    n: int,
    i: int,
) -> bool {
    exists|g: int| 0 <= g < n && (#[trigger] groups[g]).positions().contains(i)
}

/// No two of the groups list the same position.
pub open spec fn groups_disjoint<'a, E, F: Field, B>(
    groups: Seq<FactorGroup<'a, E, F, B>>,
) -> bool {
    forall|g: int, h: int, i: int|
        0 <= g < h < groups.len() && #[trigger] groups[g].positions().contains(i)
            ==> !#[trigger] groups[h].positions().contains(i)
}

/// The groups on one side, among the positions that the first `n` groups leave: two
/// terms with the same factor are always in the same group.
pub open spec fn side_complete<'a, E, F: Field, B>(
    groups: Seq<FactorGroup<'a, E, F, B>>,
    n: int,
    views: Seq<AstView>,
    side: FactorSide,
) -> bool {
    forall|i: int, j: int|
        #![trigger views[i], views[j]]
        0 <= i < j < views.len() && views[i].op == AstOp::Mul && ast::has_factor(
            views[j],
            side,
            ast::factor_of(views[i], side),
        ) && !grouped(groups, n, i) && !grouped(groups, n, j) ==> exists|g: int|
            n <= g < groups.len() && (#[trigger] groups[g]).positions().contains(i)
                && groups[g].positions().contains(j)
}

/// The groups from `n` to `m` are in the order of their first terms.
pub open spec fn groups_ordered<'a, E, F: Field, B>(
    groups: Seq<FactorGroup<'a, E, F, B>>,
    n: int,
    m: int,
) -> bool {
    forall|g: int, h: int|
        n <= g < h < m ==> (#[trigger] groups[g]).terms@[0].0 < (#[trigger] groups[h]).terms@[0].0
}

/// Partitions product terms into repeated left factors, followed by repeated right
/// factors among terms that were not claimed by a left-factor group.
pub fn factor_groups<'a, E, F: Field, B>(terms: &[&'a Ast<E, F, B>]) -> (groups: Vec<
    FactorGroup<'a, E, F, B>,
>)
    ensures
        forall|g: int|
            0 <= g < groups@.len() ==> (#[trigger] groups@[g]).fits(ast::ref_views(terms@)),
        groups_disjoint(groups@),
        exists|n: int|
            {
                &&& 0 <= n <= groups@.len()
                &&& forall|g: int| 0 <= g < n ==> (#[trigger] groups@[g]).side == FactorSide::Left
                &&& forall|g: int|
                    n <= g < groups@.len() ==> (#[trigger] groups@[g]).side == FactorSide::Right
                &&& groups_ordered(groups@, 0, n)
                &&& groups_ordered(groups@, n, groups@.len() as int)
                &&& side_complete(groups@.take(n), 0, ast::ref_views(terms@), FactorSide::Left)
                &&& side_complete(groups@, n, ast::ref_views(terms@), FactorSide::Right)
            },
        forall|g: int, k: int|
            #![trigger groups@[g].terms@[k]]
            0 <= g < groups@.len() && 0 <= k < groups@[g].terms@.len() ==> decreases_to!(
                terms@[groups@[g].terms@[k].0 as int] => groups@[g].terms@[k].1
            ),
        forall|g: int|
            0 <= g < groups@.len() ==> decreases_to!(
                terms@[(#[trigger] groups@[g]).terms@[0].0 as int] => groups@[g].factor
            ),
{
    let mut claimed: Vec<bool> = Vec::with_capacity(terms.len());
    let mut i: usize = 0;
    while i < terms.len()
        invariant
            i <= terms@.len(),
            claimed@.len() == i,
            forall|k: int| 0 <= k < i ==> !#[trigger] claimed@[k],
        decreases terms@.len() - i,
    {
        claimed.push(false);
        i += 1;
    }
    let mut groups: Vec<FactorGroup<'a, E, F, B>> = Vec::new();
    factor_groups_on(terms, FactorSide::Left, &mut claimed, &mut groups);
    let ghost left = groups@;
    assert(groups_ordered(left, 0, left.len() as int));
    factor_groups_on(terms, FactorSide::Right, &mut claimed, &mut groups);
    proof {
        assert(groups@.take(left.len() as int) =~= left);
        assert forall|g: int| left.len() <= g < groups@.len() implies (#[trigger] groups@[g]).side
            == FactorSide::Right by {}
        assert forall|g: int| 0 <= g < left.len() implies (#[trigger] groups@[g]).side
            == FactorSide::Left by {
            assert(groups@[g] == left[g]);
        }
        assert forall|g: int, h: int| 0 <= g < h < left.len() implies (
        #[trigger] groups@[g]).terms@[0].0 < (#[trigger] groups@[h]).terms@[0].0 by {
            assert(groups@[g] == left[g] && groups@[h] == left[h]);
        }
        assert(groups_ordered(groups@, 0, left.len() as int));
    }
    groups
}

/// What holds of the groups found so far and the marks of the positions they list.
spec fn groups_ok<'a, E, F: Field, B>(
    terms: Seq<&'a Ast<E, F, B>>,
    claimed: Seq<bool>,
    groups: Seq<FactorGroup<'a, E, F, B>>,
) -> bool {
    &&& claimed.len() == terms.len()
    &&& forall|g: int| 0 <= g < groups.len() ==> (#[trigger] groups[g]).fits(ast::ref_views(terms))
    &&& groups_disjoint(groups)
    &&& forall|i: int|
        0 <= i < claimed.len() ==> (#[trigger] claimed[i] <==> grouped(
            groups,
            groups.len() as int,
            i,
        ))
    &&& forall|g: int, k: int|
        #![trigger groups[g].terms@[k]]
        0 <= g < groups.len() && 0 <= k < groups[g].terms@.len() ==> decreases_to!(
            terms[groups[g].terms@[k].0 as int] => groups[g].terms@[k].1
        )
    &&& forall|g: int|
        0 <= g < groups.len() ==> decreases_to!(
            terms[(#[trigger] groups[g]).terms@[0].0 as int] => groups[g].factor
        )
}

/// Every group after the first `n` lists all the terms with its factor that the first
/// `n` groups leave.
spec fn groups_maximal<'a, E, F: Field, B>(
    groups: Seq<FactorGroup<'a, E, F, B>>,
    n: int,
    views: Seq<AstView>,
    side: FactorSide,
) -> bool {
    forall|g: int, j: int|
        #![trigger groups[g], views[j]]
        n <= g < groups.len() && 0 <= j < views.len() && ast::has_factor(
            views[j],
            side,
            groups[g].factor.view(),
        ) && !grouped(groups, n, j) ==> groups[g].positions().contains(j)
}

/// Every term before `index` that shares its factor with a later one is claimed.
spec fn repeats_claimed<'a, E, F: Field, B>(
    groups: Seq<FactorGroup<'a, E, F, B>>,
    n: int,
    views: Seq<AstView>,
    side: FactorSide,
    claimed: Seq<bool>,
    index: int,
) -> bool {
    forall|i: int, j: int|
        #![trigger views[i], views[j]]
        0 <= i < j < views.len() && i < index && views[i].op == AstOp::Mul && ast::has_factor(
            views[j],
            side,
            ast::factor_of(views[i], side),
        ) && !grouped(groups, n, i) && !grouped(groups, n, j) ==> claimed[i]
}

proof fn lemma_product_factor(side: FactorSide, factor: AstView, body: AstView)
    ensures
        ast::has_factor(ast::product_node(side, factor, body), side, factor),
{
    assert(seq![factor, body][0] == factor);
    assert(seq![body, factor][1] == factor);
}

/// A claimed term that the first `n` groups leave is listed by a group with the
/// term's own factor.
proof fn lemma_claimed_group<'a, E, F: Field, B>(
    terms: Seq<&'a Ast<E, F, B>>,
    side: FactorSide,
    claimed: Seq<bool>,
    groups: Seq<FactorGroup<'a, E, F, B>>,
    n: int,
    i: int,
) -> (g: int)
    requires
        groups_ok(terms, claimed, groups),
        0 <= n <= groups.len(),
        forall|g: int| n <= g < groups.len() ==> (#[trigger] groups[g]).side == side,
        0 <= i < terms.len(),
        claimed[i],
        !grouped(groups, n, i),
    ensures
        n <= g < groups.len(),
        groups[g].positions().contains(i),
        ast::has_factor(ast::ref_views(terms)[i], side, groups[g].factor.view()),
{
    assert(grouped(groups, groups.len() as int, i));
    let g = choose|g: int|
        0 <= g < groups.len() && (#[trigger] groups[g]).positions().contains(i);
    if g < n {
        assert(grouped(groups, n, i));
    }
    let group = groups[g];
    assert(group.fits(ast::ref_views(terms)));
    let k = choose|k: int| 0 <= k < group.positions().len() && group.positions()[k] == i;
    assert(group.terms@[k].0 == i);
    lemma_product_factor(side, group.factor.view(), group.terms@[k].1.view());
    g
}

/// Adds the groups of repeated factors on one side.
fn factor_groups_on<'a, E, F: Field, B>(
    terms: &[&'a Ast<E, F, B>],
    side: FactorSide,
    claimed: &mut Vec<bool>,
    groups: &mut Vec<FactorGroup<'a, E, F, B>>,
)
    requires
        groups_ok(terms@, old(claimed)@, old(groups)@),
    ensures
        groups_ok(terms@, final(claimed)@, final(groups)@),
        old(groups)@.len() <= final(groups)@.len(),
        final(groups)@.take(old(groups)@.len() as int) == old(groups)@,
        forall|g: int|
            old(groups)@.len() <= g < final(groups)@.len() ==> (#[trigger] final(groups)@[g]).side
                == side,
        side_complete(final(groups)@, old(groups)@.len() as int, ast::ref_views(terms@), side),
        groups_ordered(
            final(groups)@,
            old(groups)@.len() as int,
            final(groups)@.len() as int,
        ),
{
    let ghost before = groups@;
    let ghost n = before.len() as int;
    let ghost views = ast::ref_views(terms@);
    let mut index: usize = 0;
    assert(groups@.take(n) =~= before);
    while index < terms.len()
        invariant
            index <= terms@.len(),
            views == ast::ref_views(terms@),
            n == before.len(),
            groups_ok(terms@, claimed@, groups@),
            n <= groups@.len(),
            groups@.take(n) == before,
            forall|g: int| n <= g < groups@.len() ==> (#[trigger] groups@[g]).side == side,
            groups_maximal(groups@, n, views, side),
            repeats_claimed(groups@, n, views, side, claimed@, index as int),
            groups_ordered(groups@, n, groups@.len() as int),
            forall|g: int|
                n <= g < groups@.len() ==> (#[trigger] groups@[g]).terms@[0].0 < index,
        decreases terms@.len() - index,
    {
        let ghost groups_in = groups@;
        let ghost claimed_in = claimed@;
        if claimed[index] {
            index += 1;
            continue ;
        }
        let factor = match factor_terms(terms[index], side) {
            Some((factor, _)) => factor,
            None => {
                assert(views[index as int].op != AstOp::Mul);
                index += 1;
                continue ;
            },
        };
        assert(views[index as int] == terms@[index as int].view());
        let mut matching: Vec<(usize, &'a Ast<E, F, B>)> = Vec::new();
        let mut candidate: usize = index;
        while candidate < terms.len()
            invariant
                index <= candidate <= terms@.len(),
                index < terms@.len(),
                views == ast::ref_views(terms@),
                claimed@ == claimed_in,
                claimed@.len() == terms@.len(),
                ast::has_factor(views[index as int], side, factor.view()),
                !claimed_in[index as int],
                candidate > index ==> matching@.len() >= 1 && matching@[0].0 == index,
                forall|k: int|
                    #![trigger matching@[k]]
                    0 <= k < matching@.len() ==> {
                        &&& index <= matching@[k].0 < candidate
                        &&& !claimed_in[matching@[k].0 as int]
                        &&& views[matching@[k].0 as int] == ast::product_node(
                            side,
                            factor.view(),
                            matching@[k].1.view(),
                        )
                        &&& decreases_to!(terms@[matching@[k].0 as int] => matching@[k].1)
                    },
                forall|k: int, l: int|
                    0 <= k < l < matching@.len() ==> (#[trigger] matching@[k]).0
                        < (#[trigger] matching@[l]).0,
                forall|i: int|
                    #![trigger views[i]]
                    index <= i < candidate && !claimed_in[i] && ast::has_factor(
                        views[i],
                        side,
                        factor.view(),
                    ) ==> exists|k: int| 0 <= k < matching@.len() && (#[trigger] matching@[k]).0 == i,
            decreases terms@.len() - candidate,
        {
            let ghost listed = matching@;
            let mut found = false;
            assert(views[candidate as int] == terms@[candidate as int].view());
            if !claimed[candidate] {
                if let Some((other, body)) = factor_terms(terms[candidate], side) {
                    if same_ast(factor, other) {
                        matching.push((candidate, body));
                        found = true;
                    }
                }
            }
            proof {
                assert forall|i: int|
                    #![trigger views[i]]
                    index <= i < candidate + 1 && !claimed_in[i] && ast::has_factor(
                        views[i],
                        side,
                        factor.view(),
                    ) implies exists|k: int|
                    0 <= k < matching@.len() && (#[trigger] matching@[k]).0 == i by {
                    if i < candidate {
                        let k = choose|k: int| 0 <= k < listed.len() && (#[trigger] listed[k]).0 == i;
                        assert(matching@[k].0 == i);
                    } else {
                        assert(found);
                        assert(matching@[matching@.len() - 1].0 == i);
                    }
                }
            }
            candidate += 1;
        }
        proof {
            // No claimed term that the earlier groups leave has this factor: its group
            // would list `index` too.
            assert forall|j: int|
                #![trigger views[j]]
                0 <= j < views.len() && ast::has_factor(views[j], side, factor.view()) && !grouped(
                    groups_in,
                    n,
                    j,
                ) implies !claimed_in[j] by {
                if claimed_in[j] {
                    let h = lemma_claimed_group(terms@, side, claimed_in, groups_in, n, j);
                    assert(groups_in[h].factor.view() == factor.view());
                    assert(!grouped(groups_in, n, index as int)) by {
                        if grouped(groups_in, n, index as int) {
                            assert(grouped(groups_in, groups_in.len() as int, index as int));
                        }
                    }
                    assert(groups_in[h].positions().contains(index as int));
                    assert(grouped(groups_in, groups_in.len() as int, index as int));
                }
            }
        }
        if matching.len() < 2 {
            proof {
                assert forall|i: int, j: int|
                    #![trigger views[i], views[j]]
                    0 <= i < j < views.len() && i < index + 1 && views[i].op == AstOp::Mul
                        && ast::has_factor(views[j], side, ast::factor_of(views[i], side)) && !grouped(
                        groups@,
                        n,
                        i,
                    ) && !grouped(groups@, n, j) implies claimed@[i] by {
                    if i == index {
                        assert(!claimed_in[j]);
                        let k = choose|k: int|
                            0 <= k < matching@.len() && (#[trigger] matching@[k]).0 == j;
                        assert(matching@[0].0 == index && matching@[k].0 == j);
                    }
                }
            }
            index += 1;
            continue ;
        }
        let mut m: usize = 0;
        while m < matching.len()
            invariant
                m <= matching@.len(),
                claimed@.len() == claimed_in.len(),
                forall|k: int|
                    #![trigger matching@[k]]
                    0 <= k < matching@.len() ==> matching@[k].0 < claimed_in.len(),
                forall|i: int|
                    0 <= i < claimed@.len() ==> (#[trigger] claimed@[i] <==> (claimed_in[i]
                        || exists|k: int| 0 <= k < m && (#[trigger] matching@[k]).0 == i)),
            decreases matching@.len() - m,
        {
            let ghost claimed_mid = claimed@;
            claimed.set(matching[m].0, true);
            proof {
                assert forall|i: int| 0 <= i < claimed@.len() implies (#[trigger] claimed@[i] <==> (
                claimed_in[i] || exists|k: int| 0 <= k < m + 1 && (#[trigger] matching@[k]).0 == i)) by {
                    if claimed_mid[i] && !claimed_in[i] {
                        let k = choose|k: int| 0 <= k < m && (#[trigger] matching@[k]).0 == i;
                        assert(matching@[k].0 == i);
                    }
                    if i == matching@[m as int].0 {
                        assert(matching@[m as int].0 == i);
                    }
                }
            }
            m += 1;
        }
        let ghost listed = matching@;
        let group = FactorGroup { factor, side, terms: matching };
        let ghost new_group = group;
        groups.push(group);
        proof {
            assert(groups@ =~= groups_in.push(new_group));
            assert(groups@.take(n) =~= groups_in.take(n));
            let last = groups_in.len() as int;
            assert forall|i: int| #[trigger] new_group.positions().contains(i) <==> exists|k: int|
                0 <= k < listed.len() && (#[trigger] listed[k]).0 == i by {
                if new_group.positions().contains(i) {
                    let k = choose|k: int|
                        0 <= k < new_group.positions().len() && new_group.positions()[k] == i;
                    assert(listed[k].0 == i);
                }
                if exists|k: int| 0 <= k < listed.len() && (#[trigger] listed[k]).0 == i {
                    let k = choose|k: int| 0 <= k < listed.len() && (#[trigger] listed[k]).0 == i;
                    assert(new_group.positions()[k] == i);
                }
            }
            assert(new_group.fits(views));
            assert forall|i: int| #[trigger] grouped(groups@, n, i) == grouped(groups_in, n, i) by {
                if grouped(groups@, n, i) {
                    let g = choose|g: int|
                        0 <= g < n && (#[trigger] groups@[g]).positions().contains(i);
                    assert(groups_in[g].positions().contains(i));
                }
                if grouped(groups_in, n, i) {
                    let g = choose|g: int|
                        0 <= g < n && (#[trigger] groups_in[g]).positions().contains(i);
                    assert(groups@[g].positions().contains(i));
                }
            }
            assert forall|i: int| 0 <= i < claimed@.len() implies (#[trigger] claimed@[i] <==> grouped(
                groups@,
                last + 1,
                i,
            )) by {
                if claimed_in[i] {
                    let g = choose|g: int|
                        0 <= g < last && (#[trigger] groups_in[g]).positions().contains(i);
                    assert(groups@[g].positions().contains(i));
                } else if claimed@[i] {
                    assert(groups@[last].positions().contains(i));
                }
                if grouped(groups@, last + 1, i) {
                    let g = choose|g: int|
                        0 <= g < last + 1 && (#[trigger] groups@[g]).positions().contains(i);
                    if g < last {
                        assert(groups_in[g].positions().contains(i));
                        assert(grouped(groups_in, last, i));
                    }
                }
            }
            assert forall|g: int, h: int, i: int|
                0 <= g < h < groups@.len() && #[trigger] groups@[g].positions().contains(
                    i,
                ) implies !#[trigger] groups@[h].positions().contains(i) by {
                assert(groups_in[g].positions().contains(i));
                if h == last {
                    if new_group.positions().contains(i) {
                        let k = choose|k: int|
                            0 <= k < listed.len() && (#[trigger] listed[k]).0 == i;
                        assert(listed[k].0 == i);
                        assert(grouped(groups_in, last, i));
                        assert(claimed_in[i]);
                    }
                } else {
                    assert(!groups_in[h].positions().contains(i));
                }
            }
            assert forall|g: int, k: int|
                #![trigger groups@[g].terms@[k]]
                0 <= g < groups@.len() && 0 <= k < groups@[g].terms@.len() implies decreases_to!(
                terms@[groups@[g].terms@[k].0 as int] => groups@[g].terms@[k].1
            ) by {
                if g < last {
                    assert(groups_in[g].terms@[k] == groups@[g].terms@[k]);
                } else {
                    assert(listed[k] == groups@[g].terms@[k]);
                }
            }
            assert forall|g: int| 0 <= g < groups@.len() implies decreases_to!(
                terms@[(#[trigger] groups@[g]).terms@[0].0 as int] => groups@[g].factor
            ) by {
                if g < last {
                    assert(groups_in[g] == groups@[g]);
                }
            }
            assert(groups_ok(terms@, claimed@, groups@));
            assert forall|g: int, j: int|
                #![trigger groups@[g], views[j]]
                n <= g < groups@.len() && 0 <= j < views.len() && ast::has_factor(
                    views[j],
                    side,
                    groups@[g].factor.view(),
                ) && !grouped(groups@, n, j) implies groups@[g].positions().contains(j) by {
                if g < last {
                    assert(groups_in[g] == groups@[g]);
                } else {
                    assert(!claimed_in[j]);
                    if j < index {
                        // An earlier term with this factor would have been claimed
                        // together with `index`.
                        assert(views[j].op == AstOp::Mul);
                        assert(ast::has_factor(views[index as int], side, ast::factor_of(views[j], side)));
                        assert(!grouped(groups_in, n, index as int)) by {
                            if grouped(groups_in, n, index as int) {
                                assert(grouped(groups_in, last, index as int));
                            }
                        }
                        assert(claimed_in[j]);
                    }
                    let k = choose|k: int| 0 <= k < listed.len() && (#[trigger] listed[k]).0 == j;
                    assert(new_group.positions().contains(j));
                }
            }
            assert forall|i: int, j: int|
                #![trigger views[i], views[j]]
                0 <= i < j < views.len() && i < index + 1 && views[i].op == AstOp::Mul
                    && ast::has_factor(views[j], side, ast::factor_of(views[i], side)) && !grouped(
                    groups@,
                    n,
                    i,
                ) && !grouped(groups@, n, j) implies claimed@[i] by {
                if i == index {
                    assert(listed[0].0 == index);
                }
            }
        }
        index += 1;
    }
    proof {
        assert forall|i: int, j: int|
            #![trigger views[i], views[j]]
            0 <= i < j < views.len() && views[i].op == AstOp::Mul && ast::has_factor(
                views[j],
                side,
                ast::factor_of(views[i], side),
            ) && !grouped(groups@, n, i) && !grouped(groups@, n, j) implies exists|g: int|
            n <= g < groups@.len() && (#[trigger] groups@[g]).positions().contains(i)
                && groups@[g].positions().contains(j) by {
            let g = lemma_claimed_group(terms@, side, claimed@, groups@, n, i);
            assert(groups@[g].positions().contains(j));
        }
    }
}

/// `root - query`, as a compressed selector writes it.
pub open spec fn difference_node(root: int, query: IndexedLeaf, p: int) -> AstView {
    ast::add_node(ast::constant_node(root), ast::scale_node(ast::poly_node(query), p - 1))
}

/// `query * (roots[0] - query) * (roots[1] - query) * ..`, nested to the left.
pub open spec fn root_product(query: IndexedLeaf, roots: Seq<int>, p: int) -> AstView
    decreases roots.len(),
{
    if roots.len() == 0 {
        ast::poly_node(query)
    } else {
        ast::mul_node(
            root_product(query, roots.drop_last(), p),
            difference_node(roots.last(), query, p),
        )
    }
}

/// The roots `1 ..= n` without `assigned_root`, as field elements.
pub open spec fn other_roots(n: nat, assigned_root: int, p: int) -> Seq<int>
    decreases n,
{
    if n == 0 {
        Seq::empty()
    } else if n == assigned_root {
        other_roots((n - 1) as nat, assigned_root, p)
    } else {
        other_roots((n - 1) as nat, assigned_root, p).push(n as int % p)
    }
}

/// The expression of the compressed selector with the given root, in a combination
/// of `len` selectors that share the column `query`.
pub open spec fn selector_node(query: IndexedLeaf, len: int, assigned_root: int, p: int) -> AstView {
    root_product(query, other_roots(len as nat, assigned_root, p), p)
}

pub open spec fn is_selector(
    a: AstView,
    query: IndexedLeaf,
    len: int,
    assigned_root: int,
    p: int,
) -> bool {
    &&& len >= MIN_SELECTOR_FAMILY_LEN
    &&& 1 <= assigned_root <= len
    &&& a == selector_node(query, len, assigned_root, p)
}

/// Recognizes `root - query`.
pub fn selector_difference<'a, E, F: Field, B>(ast: &'a Ast<E, F, B>, minus_one: F) -> (r: Option<
    (F, &'a AstLeaf<E, B>),
>)
    requires
        minus_one.val() == F::order() - 1,
    ensures
        r matches Some((root, query)) ==> ast.view() == difference_node(
            root.val(),
            query.view(),
            F::order(),
        ),
        r is None ==> forall|root: int, query: IndexedLeaf|
            ast.view() != #[trigger] difference_node(root, query, F::order()),
{
    match ast {
        Ast::Add(constant, negated_query) => {
            let constant: &Ast<E, F, B> = constant;
            let negated_query: &Ast<E, F, B> = negated_query;
            proof {
                assert(ast.view() == ast::add_node(constant.view(), negated_query.view()));
                assert forall|root: int, query: IndexedLeaf|
                    ast.view() == #[trigger] difference_node(root, query, F::order()) implies {
                    &&& constant.view() == ast::constant_node(root)
                    &&& negated_query.view() == ast::scale_node(ast::poly_node(query), F::order() - 1)
                } by {
                    ast::lemma_pair(
                        constant.view(),
                        negated_query.view(),
                        ast::constant_node(root),
                        ast::scale_node(ast::poly_node(query), F::order() - 1),
                    );
                }
            }
            match (constant, negated_query) {
                (Ast::ConstantTerm(root), Ast::Scale(query, scalar)) => {
                    assert(constant.view() == ast::constant_node(root.val()));
                    assert(negated_query.view() == ast::scale_node(query.view(), scalar.val()));
                    if !scalar.equals(&minus_one) {
                        return None;
                    }
                    let query: &Ast<E, F, B> = query;
                    match query {
                        Ast::Poly(leaf) => {
                            assert(query.view() == ast::poly_node(leaf.view()));
                            Some((*root, leaf))
                        },
                        _ => {
                            proof {
                                assert forall|leaf: IndexedLeaf| ast::scale_node(query.view(), scalar.val())
                                    != ast::scale_node(#[trigger] ast::poly_node(leaf), F::order() - 1) by {
                                    ast::lemma_pair(
                                        query.view(),
                                        query.view(),
                                        ast::poly_node(leaf),
                                        ast::poly_node(leaf),
                                    );
                                }
                            }
                            None
                        },
                    }
                },
                _ => None,
            }
        },
        _ => None,
    }
}

proof fn lemma_difference_injective(r: int, q: IndexedLeaf, s: int, t: IndexedLeaf, p: int)
    requires
        difference_node(r, q, p) == difference_node(s, t, p),
    ensures
        r == s,
        q == t,
{
    ast::lemma_pair(
        ast::constant_node(r),
        ast::scale_node(ast::poly_node(q), p - 1),
        ast::constant_node(s),
        ast::scale_node(ast::poly_node(t), p - 1),
    );
    ast::lemma_pair(ast::poly_node(q), ast::poly_node(q), ast::poly_node(t), ast::poly_node(t));
}

pub proof fn lemma_other_roots(n: nat, assigned_root: int, p: int)
    requires
        p > 2,
    ensures
        1 <= assigned_root <= n ==> other_roots(n, assigned_root, p).len() == n - 1,
        !(1 <= assigned_root <= n) ==> other_roots(n, assigned_root, p).len() == n,
        forall|i: int|
            0 <= i < other_roots(n, assigned_root, p).len() ==> #[trigger] other_roots(
                n,
                assigned_root,
                p,
            )[i] == (if 1 <= assigned_root && i + 1 >= assigned_root {
                (i + 2) % p
            } else {
                (i + 1) % p
            }),
    decreases n,
{
    if n > 0 {
        lemma_other_roots((n - 1) as nat, assigned_root, p);
    }
}

/// Matches ascending roots against `1 ..= roots.len() + 1` with one number left out,
/// which is returned.
fn missing_root<F: Field>(roots: &Vec<F>) -> (r: Option<usize>)
    requires
        roots@.len() < usize::MAX,
    ensures
        r matches Some(a) ==> 1 <= a <= roots@.len() + 1 && poly::vals(roots@) == other_roots(
            roots@.len() + 1,
            a as int,
            F::order(),
        ),
        r is None ==> forall|a: int|
            1 <= a <= roots@.len() + 1 ==> poly::vals(roots@) != #[trigger] other_roots(
                roots@.len() + 1,
                a,
                F::order(),
            ),
{
    let len: usize = roots.len() + 1;
    let ghost p = F::order();
    let mut expected = F::one();
    let mut used: usize = 0;
    let mut assigned: Option<usize> = None;
    let mut root_index: usize = 1;
    proof {
        F::lemma_order();
        arith::lemma_mod_small(1, p);
    }
    loop
        invariant
            len == roots@.len() + 1,
            p == F::order(),
            p > 2,
            1 <= root_index <= len,
            used <= roots@.len(),
            expected.val() == root_index as int % p,
            match assigned {
                None => used + 1 == root_index && forall|i: int|
                    0 <= i < used ==> (#[trigger] roots@[i]).val() == (i + 1) % p,
                Some(a) => {
                    &&& 1 <= a < root_index
                    &&& used + 2 == root_index
                    &&& forall|i: int|
                        0 <= i < used ==> (#[trigger] roots@[i]).val() == (if i + 1 >= a {
                            (i + 2) % p
                        } else {
                            (i + 1) % p
                        })
                    &&& a <= roots@.len() ==> roots@[a - 1].val() != a as int % p
                },
            },
        decreases len - root_index,
    {
        proof {
            arith::lemma_mod_range(root_index as int, p);
            arith::lemma_mod_add(root_index as int, 1, p);
            arith::lemma_mod_small(1, p);
        }
        if used < roots.len() && roots[used].equals(&expected) {
            used += 1;
        } else if assigned.is_none() {
            assigned = Some(root_index);
        } else {
            proof {
                let b = assigned->Some_0 as int;
                assert forall|a: int| 1 <= a <= len implies poly::vals(roots@) != #[trigger] other_roots(
                    len as nat,
                    a,
                    p,
                ) by {
                    lemma_other_roots(len as nat, a, p);
                    if poly::vals(roots@) == other_roots(len as nat, a, p) {
                        let o = other_roots(len as nat, a, p);
                        assert(used < roots@.len());
                        assert(poly::vals(roots@)[used as int] == o[used as int]);
                        if a > b {
                            assert(poly::vals(roots@)[b - 1] == o[b - 1]);
                        }
                        if a < b {
                            assert(poly::vals(roots@)[a - 1] == o[a - 1]);
                            lemma_consecutive(a, p);
                        }
                    }
                }
            }
            return None;
        }
        if root_index < len {
            expected = expected.add(F::one());
            root_index += 1;
        } else {
            // Past the last root there is nothing left to compare.
            proof {
                F::lemma_order();
            }
            match assigned {
                None => {
                    assert(used == len);
                    return None;
                },
                Some(a) => {
                    proof {
                        lemma_other_roots(len as nat, a as int, p);
                        assert(poly::vals(roots@) =~= other_roots(len as nat, a as int, p));
                    }
                    return Some(a);
                },
            }
        }
    }
}

pub proof fn lemma_consecutive(a: int, p: int)
    requires
        p > 2,
        a >= 0,
    ensures
        a % p != (a + 1) % p,
{
    arith::lemma_mod_range(a, p);
    arith::lemma_mod_add(a, 1, p);
    arith::lemma_mod_small(1, p);
    let x = a % p;
    if x + 1 < p {
        arith::lemma_mod_small(x + 1, p);
    } else {
        vstd::arithmetic::div_mod::lemma_mod_self_0(p);
    }
}

/// A product of differences determines its column and its roots.
pub proof fn lemma_root_product_injective(q: IndexedLeaf, rs: Seq<int>, t: IndexedLeaf, ts: Seq<int>, p: int)
    requires
        root_product(q, rs, p) == root_product(t, ts, p),
    ensures
        q == t,
        rs == ts,
    decreases rs.len(),
{
    if rs.len() == 0 || ts.len() == 0 {
        assert(rs =~= ts);
    } else {
        ast::lemma_pair(
            root_product(q, rs.drop_last(), p),
            difference_node(rs.last(), q, p),
            root_product(t, ts.drop_last(), p),
            difference_node(ts.last(), t, p),
        );
        lemma_root_product_injective(q, rs.drop_last(), t, ts.drop_last(), p);
        lemma_difference_injective(rs.last(), q, ts.last(), t, p);
        assert(rs =~= rs.drop_last().push(rs.last()));
        assert(ts =~= ts.drop_last().push(ts.last()));
    }
}

/// Whether `a` is a product of differences, for some column and roots.
spec fn is_root_product(a: AstView, p: int) -> bool {
    exists|q: IndexedLeaf, rs: Seq<int>| a == #[trigger] root_product(q, rs, p)
}

proof fn lemma_no_selector(whole: AstView, p: int)
    requires
        !is_root_product(whole, p),
    ensures
        forall|query: IndexedLeaf, len: int, assigned_root: int|
            !#[trigger] is_selector(whole, query, len, assigned_root, p),
{
    assert forall|query: IndexedLeaf, len: int, assigned_root: int| !#[trigger] is_selector(
        whole,
        query,
        len,
        assigned_root,
        p,
    ) by {
        let rs = other_roots(len as nat, assigned_root, p);
        if whole == selector_node(query, len, assigned_root, p) {
            assert(whole == root_product(query, rs, p));
        }
    }
}

/// `prefix` multiplied by the differences of the peeled roots, which are listed from
/// the outermost one.
pub open spec fn rebuilt(prefix: AstView, query: IndexedLeaf, peeled: Seq<int>, p: int) -> AstView
    decreases peeled.len(),
{
    if peeled.len() == 0 {
        prefix
    } else {
        rebuilt(
            ast::mul_node(prefix, difference_node(peeled.last(), query, p)),
            query,
            peeled.drop_last(),
            p,
        )
    }
}

proof fn lemma_rebuilt_poly(query: IndexedLeaf, done: Seq<int>, peeled: Seq<int>, p: int)
    ensures
        rebuilt(root_product(query, done, p), query, peeled, p) == root_product(
            query,
            done + peeled.reverse(),
            p,
        ),
    decreases peeled.len(),
{
    if peeled.len() == 0 {
        assert(done + peeled.reverse() =~= done);
    } else {
        let next = done.push(peeled.last());
        assert(next.drop_last() =~= done);
        lemma_rebuilt_poly(query, next, peeled.drop_last(), p);
        assert(next + peeled.drop_last().reverse() =~= done + peeled.reverse());
    }
}

/// Recognizes the exact expression emitted for a compressed selector.
pub fn compressed_selector<'a, E, F: Field, B>(ast: &'a Ast<E, F, B>, minus_one: F) -> (r: Option<
    (&'a AstLeaf<E, B>, usize, usize),
>)
    requires
        minus_one.val() == F::order() - 1,
        ast::ast_size(ast.view()) < usize::MAX,
    ensures
        r matches Some((query, len, assigned_root)) ==> is_selector(
            ast.view(),
            query.view(),
            len as int,
            assigned_root as int,
            F::order(),
        ),
        r is None ==> forall|query: IndexedLeaf, len: int, assigned_root: int|
            !#[trigger] is_selector(ast.view(), query, len, assigned_root, F::order()),
{
    let ghost p = F::order();
    let ghost whole = ast.view();
    let ghost (q0, rs0) = choose|q: IndexedLeaf, rs: Seq<int>| whole == #[trigger] root_product(
        q,
        rs,
        p,
    );
    let ghost exact = is_root_product(whole, p);
    let mut prefix: &'a Ast<E, F, B> = ast;
    let mut query: Option<&'a AstLeaf<E, B>> = None;
    let mut roots: Vec<F> = Vec::new();
    proof {
        F::lemma_order();
        assert(rs0.take(rs0.len() as int) =~= rs0);
    }
    loop
        invariant
            p == F::order(),
            p > 2,
            minus_one.val() == p - 1,
            whole == ast.view(),
            exact == is_root_product(whole, p),
            ast::ast_size(whole) < usize::MAX,
            ast::ast_size(prefix.view()) + roots@.len() <= ast::ast_size(whole),
            query is None <==> roots@.len() == 0,
            query matches Some(q) ==> whole == rebuilt(prefix.view(), q.view(), poly::vals(roots@), p),
            query is None ==> whole == prefix.view(),
            exact ==> roots@.len() <= rs0.len() && prefix.view() == root_product(
                q0,
                rs0.take(rs0.len() - roots@.len()),
                p,
            ),
            exact && query is Some ==> query->Some_0.view() == q0,
            exact ==> forall|k: int|
                0 <= k < roots@.len() ==> (#[trigger] roots@[k]).val() == rs0[rs0.len() - 1 - k],
        ensures
            !(prefix is Mul),
        decreases prefix,
    {
        let (lhs, rhs) = match prefix {
            Ast::Mul(AstMul(lhs, rhs)) => (lhs, rhs),
            _ => break ,
        };
        let ghost k = roots@.len() as int;
        let ghost roots_in = roots@;
        let ghost left = rs0.take(rs0.len() - k);
        proof {
            assert(prefix.view() == ast::mul_node(lhs.view(), rhs.view()));
            if exact {
                assert(left.len() > 0);
                assert(left.drop_last() =~= rs0.take(rs0.len() - k - 1));
                assert(left.last() == rs0[rs0.len() - 1 - k]);
                ast::lemma_pair(
                    lhs.view(),
                    rhs.view(),
                    root_product(q0, left.drop_last(), p),
                    difference_node(left.last(), q0, p),
                );
                assert(rhs.view() == difference_node(left.last(), q0, p));
            }
        }
        let (root, candidate) = match selector_difference(rhs, minus_one) {
            Some(found) => found,
            None => {
                proof {
                    lemma_no_selector(whole, p);
                }
                return None;
            },
        };
        proof {
            if exact {
                lemma_difference_injective(root.val(), candidate.view(), left.last(), q0, p);
            }
        }
        match query {
            Some(known) => {
                if !known.equals(candidate) {
                    proof {
                        lemma_no_selector(whole, p);
                    }
                    return None;
                }
            },
            None => {
                query = Some(candidate);
            },
        }
        roots.push(root);
        proof {
            assert(poly::vals(roots@) =~= poly::vals(roots_in).push(root.val()));
            assert(poly::vals(roots@).drop_last() =~= poly::vals(roots_in));
            lemma_ast_size_pair(AstOp::Mul, lhs.view(), rhs.view());
            let q = query->Some_0.view();
            assert(q == candidate.view());
            assert(prefix.view() == ast::mul_node(lhs.view(), difference_node(root.val(), q, p)));
            assert(rebuilt(lhs.view(), q, poly::vals(roots@), p) == rebuilt(
                ast::mul_node(lhs.view(), difference_node(poly::vals(roots@).last(), q, p)),
                q,
                poly::vals(roots@).drop_last(),
                p,
            ));
            if roots_in.len() == 0 {
                assert(poly::vals(roots_in) =~= Seq::<int>::empty());
                assert(rebuilt(prefix.view(), q, poly::vals(roots_in), p) == prefix.view());
            }
        }
        prefix = lhs;
    }
    let ghost left = rs0.take(rs0.len() - roots@.len());
    let prefix_query = match prefix {
        Ast::Poly(query) => query,
        _ => {
            proof {
                if exact {
                    lemma_root_product_shape(q0, left, p);
                }
                lemma_no_selector(whole, p);
            }
            return None;
        },
    };
    proof {
        if exact {
            lemma_root_product_shape(q0, left, p);
            assert(left.len() == 0);
            assert(rs0 =~= poly::vals(roots@).reverse());
            assert(q0 == prefix_query.view());
        }
        assert forall|q: IndexedLeaf, len: int, a: int| #[trigger] is_selector(
            whole,
            q,
            len,
            a,
            p,
        ) implies exact && poly::vals(roots@).reverse() == other_roots(len as nat, a, p) && len
            == roots@.len() + 1 by {
            let rs = other_roots(len as nat, a, p);
            assert(whole == root_product(q, rs, p));
            lemma_root_product_injective(q, rs, q0, rs0, p);
            lemma_other_roots(len as nat, a, p);
        }
    }
    if let Some(known) = query {
        if !known.equals(prefix_query) {
            return None;
        }
    }
    let combination_len: usize = roots.len() + 1;
    if combination_len < MIN_SELECTOR_FAMILY_LEN {
        return None;
    }
    // Roots are appended in ascending order, but peeling the left-nested product
    // above encounters them in reverse.
    let mut ascending: Vec<F> = Vec::with_capacity(roots.len());
    let mut i: usize = roots.len();
    while i > 0
        invariant
            i <= roots@.len(),
            ascending@.len() == roots@.len() - i,
            forall|k: int|
                0 <= k < ascending@.len() ==> #[trigger] ascending@[k] == roots@[roots@.len() - 1
                    - k],
        decreases i,
    {
        i -= 1;
        ascending.push(roots[i]);
    }
    proof {
        assert(poly::vals(ascending@) =~= poly::vals(roots@).reverse());
    }
    match missing_root(&ascending) {
        None => None,
        Some(assigned_root) => {
            proof {
                lemma_rebuilt_poly(prefix_query.view(), Seq::empty(), poly::vals(roots@), p);
                assert(Seq::<int>::empty() + poly::vals(roots@).reverse() =~= poly::vals(roots@).reverse());
            }
            Some((prefix_query, combination_len, assigned_root))
        },
    }
}

proof fn lemma_root_product_shape(q: IndexedLeaf, rs: Seq<int>, p: int)
    ensures
        rs.len() == 0 ==> root_product(q, rs, p) == ast::poly_node(q),
        rs.len() > 0 ==> root_product(q, rs, p).op == AstOp::Mul,
{
}

pub proof fn lemma_ast_size_pair(op: AstOp, a: AstView, b: AstView)
    ensures
        ast::ast_size(AstView { op, children: seq![a, b] }) == 1 + ast::ast_size(a) + ast::ast_size(b),
{
    let s = seq![a, b];
    assert(s.drop_last() =~= seq![a]);
    assert(seq![a].drop_last() =~= Seq::<AstView>::empty());
    assert(ast::ast_sizes(Seq::<AstView>::empty()) == 0);
    assert(ast::ast_sizes(seq![a]) == ast::ast_sizes(seq![a].drop_last()) + ast::ast_size(seq![a].last()));
    assert(ast::ast_sizes(s) == ast::ast_sizes(s.drop_last()) + ast::ast_size(s.last()));
}

/// `1 * base * base * ..` with `n` factors `base`, nested to the left.
pub open spec fn power_node(base: AstView, n: nat) -> AstView
    decreases n,
{
    if n == 0 {
        ast::constant_node(1)
    } else {
        ast::mul_node(power_node(base, (n - 1) as nat), base)
    }
}

/// `0 + 1 * c_0 + (1 * x) * c_1 + ((1 * x) * x) * c_2 + ..`: a polynomial assembled
/// from independently constructed powers of `base`.
pub open spec fn expanded_node(base: AstView, coefficients: Seq<IndexedLeaf>) -> AstView
    decreases coefficients.len(),
{
    if coefficients.len() == 0 {
        ast::constant_node(0)
    } else {
        ast::add_node(
            expanded_node(base, coefficients.drop_last()),
            ast::mul_node(
                power_node(base, (coefficients.len() - 1) as nat),
                ast::poly_node(coefficients.last()),
            ),
        )
    }
}

/// The base and the coefficients of an expanded polynomial.
pub struct ExpandedPolynomial<'a, E, F, B> {
    pub base: &'a Ast<E, F, B>,
    pub coefficients: Vec<IndexedLeaf>,
}

/// `rest + t[n-1] + .. + t[0]`: sums nested to the left, with the terms listed from
/// the outermost one.
spec fn sum_node(rest: AstView, outer: Seq<AstView>) -> AstView
    decreases outer.len(),
{
    if outer.len() == 0 {
        rest
    } else {
        sum_node(ast::add_node(rest, outer.last()), outer.drop_last())
    }
}

/// The terms of an expanded polynomial.
spec fn expanded_term(base: AstView, coefficients: Seq<IndexedLeaf>, i: int) -> AstView {
    ast::mul_node(power_node(base, i as nat), ast::poly_node(coefficients[i]))
}

proof fn lemma_sum_expanded(base: AstView, coefficients: Seq<IndexedLeaf>, n: int, outer: Seq<AstView>)
    requires
        0 <= n,
        n + outer.len() == coefficients.len(),
        forall|k: int|
            0 <= k < outer.len() ==> #[trigger] outer[k] == expanded_term(
                base,
                coefficients,
                coefficients.len() - 1 - k,
            ),
    ensures
        sum_node(expanded_node(base, coefficients.take(n)), outer) == expanded_node(
            base,
            coefficients,
        ),
    decreases outer.len(),
{
    if outer.len() == 0 {
        assert(coefficients.take(n) =~= coefficients);
    } else {
        let next = coefficients.take(n + 1);
        assert(next.drop_last() =~= coefficients.take(n));
        assert(outer.last() == outer[outer.len() - 1]);
        lemma_sum_expanded(base, coefficients, n + 1, outer.drop_last());
    }
}

/// An expanded polynomial determines its coefficients, and its base if it has one.
pub proof fn lemma_expanded_injective(
    x: AstView,
    a: Seq<IndexedLeaf>,
    y: AstView,
    b: Seq<IndexedLeaf>,
)
    requires
        expanded_node(x, a) == expanded_node(y, b),
    ensures
        a == b,
        a.len() >= 2 ==> x == y,
    decreases a.len(),
{
    if a.len() == 0 || b.len() == 0 {
        assert(a =~= b);
    } else {
        let (i, j) = ((a.len() - 1) as nat, (b.len() - 1) as nat);
        ast::lemma_pair(
            expanded_node(x, a.drop_last()),
            ast::mul_node(power_node(x, i), ast::poly_node(a.last())),
            expanded_node(y, b.drop_last()),
            ast::mul_node(power_node(y, j), ast::poly_node(b.last())),
        );
        lemma_expanded_injective(x, a.drop_last(), y, b.drop_last());
        ast::lemma_pair(power_node(x, i), ast::poly_node(a.last()), power_node(y, j), ast::poly_node(b.last()));
        assert(a =~= a.drop_last().push(a.last()));
        assert(b =~= b.drop_last().push(b.last()));
        if i >= 1 {
            ast::lemma_pair(power_node(x, (i - 1) as nat), x, power_node(y, (j - 1) as nat), y);
        }
    }
}

spec fn is_expanded(a: AstView) -> bool {
    exists|base: AstView, cs: Seq<IndexedLeaf>| a == #[trigger] expanded_node(base, cs)
}

/// Recognizes a polynomial assembled from independently constructed powers.
///
/// This exact shape is emitted by fixed-base coordinate interpolation constraints.
/// The compiled plan evaluates it with Horner's method while the constraint
/// expression remains unchanged.
pub fn expanded_polynomial<'a, E, F: Field, B>(ast: &'a Ast<E, F, B>) -> (r: Option<
    ExpandedPolynomial<'a, E, F, B>,
>)
    ensures
        r matches Some(e) ==> {
            &&& e.coefficients@.len() >= MIN_HORNER_COEFFICIENTS
            &&& ast.view() == expanded_node(e.base.view(), e.coefficients@)
            &&& decreases_to!(ast => e.base)
        },
        r is None ==> forall|base: AstView, coefficients: Seq<IndexedLeaf>|
            coefficients.len() >= MIN_HORNER_COEFFICIENTS ==> ast.view() != #[trigger] expanded_node(
                base,
                coefficients,
            ),
{
    let ghost whole = ast.view();
    let ghost exact = is_expanded(whole);
    let ghost (b0, cs0) = choose|base: AstView, cs: Seq<IndexedLeaf>| whole
        == #[trigger] expanded_node(base, cs);
    proof {
        F::lemma_order();
        assert(cs0.take(cs0.len() as int) =~= cs0);
        assert forall|base: AstView, cs: Seq<IndexedLeaf>| whole == #[trigger] expanded_node(
            base,
            cs,
        ) implies exact && cs == cs0 && (cs.len() >= 2 ==> base == b0) by {
            lemma_expanded_injective(base, cs, b0, cs0);
        }
    }
    // The terms, from the outermost sum.
    let mut outer: Vec<&'a Ast<E, F, B>> = Vec::new();
    let mut prefix: &'a Ast<E, F, B> = ast;
    loop
        invariant
            whole == sum_node(prefix.view(), ast::ref_views(outer@)),
            exact ==> {
                &&& outer@.len() <= cs0.len()
                &&& prefix.view() == expanded_node(b0, cs0.take(cs0.len() - outer@.len()))
                &&& forall|k: int|
                    0 <= k < outer@.len() ==> (#[trigger] outer@[k]).view() == expanded_term(
                        b0,
                        cs0,
                        cs0.len() - 1 - k,
                    )
            },
            forall|k: int| 0 <= k < outer@.len() ==> decreases_to!(ast => #[trigger] outer@[k]),
            prefix == ast || decreases_to!(ast => prefix),
        ensures
            !(prefix is Add),
        decreases prefix,
    {
        let (lhs, rhs) = match prefix {
            Ast::Add(lhs, rhs) => (lhs, rhs),
            _ => break ,
        };
        let ghost outer_in = outer@;
        let ghost left = cs0.take(cs0.len() - outer_in.len());
        let rhs: &'a Ast<E, F, B> = rhs;
        proof {
            assert(prefix.view() == ast::add_node(lhs.view(), rhs.view()));
            if exact {
                assert(left.len() > 0);
                assert(left.drop_last() =~= cs0.take(cs0.len() - outer_in.len() - 1));
                ast::lemma_pair(
                    lhs.view(),
                    rhs.view(),
                    expanded_node(b0, left.drop_last()),
                    ast::mul_node(power_node(b0, (left.len() - 1) as nat), ast::poly_node(left.last())),
                );
            }
        }
        outer.push(rhs);
        proof {
            assert(ast::ref_views(outer@).drop_last() =~= ast::ref_views(outer_in));
            assert(ast::ref_views(outer@).last() == rhs.view());
        }
        prefix = lhs;
    }
    let ghost left = cs0.take(cs0.len() - outer@.len());
    match prefix {
        Ast::ConstantTerm(constant) => {
            assert(prefix.view() == ast::constant_node(constant.val()));
            if !constant.equals(&F::zero()) {
                return None;
            }
        },
        _ => {
            proof {
                if exact {
                    assert(left.len() == 0);
                }
            }
            return None;
        },
    }
    proof {
        if exact {
            assert(left.len() == 0);
        }
    }
    let count: usize = outer.len();
    // Small polynomials do not recover the recognition and evaluation overhead.
    if count < MIN_HORNER_COEFFICIENTS {
        return None;
    }
    let mut base: Option<&'a Ast<E, F, B>> = None;
    let mut previous_power: Option<&'a Ast<E, F, B>> = None;
    let mut coefficients: Vec<IndexedLeaf> = Vec::with_capacity(count);
    let mut degree: usize = 0;
    while degree < count
        invariant
            degree <= count,
            count == outer@.len(),
            count >= 4,
            exact ==> cs0.len() == count,
            exact ==> forall|k: int|
                0 <= k < outer@.len() ==> (#[trigger] outer@[k]).view() == expanded_term(
                    b0,
                    cs0,
                    cs0.len() - 1 - k,
                ),
            forall|k: int| 0 <= k < outer@.len() ==> decreases_to!(ast => #[trigger] outer@[k]),
            forall|b: AstView, cs: Seq<IndexedLeaf>|
                whole == #[trigger] expanded_node(b, cs) ==> exact && cs == cs0 && (cs.len() >= 2
                    ==> b == b0),
            whole == ast.view(),
            coefficients@.len() == degree,
            base is Some <==> degree >= 2,
            previous_power is Some <==> degree >= 1,
            base matches Some(b) ==> decreases_to!(ast => b),
            degree == 1 ==> previous_power->Some_0.view() == ast::constant_node(1),
            degree >= 2 ==> previous_power->Some_0.view() == power_node(
                base->Some_0.view(),
                (degree - 1) as nat,
            ),
            degree == 1 ==> outer@[count - 1].view() == ast::mul_node(
                ast::constant_node(1),
                ast::poly_node(coefficients@[0]),
            ),
            degree >= 2 ==> forall|k: int|
                count - degree <= k < count ==> (#[trigger] outer@[k]).view() == expanded_term(
                    base->Some_0.view(),
                    coefficients@,
                    count - 1 - k,
                ),
            exact && degree >= 2 ==> base->Some_0.view() == b0,
        decreases count - degree,
    {
        let ghost coefficients_in = coefficients@;
        let ghost base_in = base;
        let ghost at = count - 1 - degree;
        let term: &'a Ast<E, F, B> = outer[count - 1 - degree];
        proof {
            if exact {
                assert(outer@[at].view() == expanded_term(b0, cs0, degree as int));
            }
        }
        let (power, coefficient) = match mul_terms(term) {
            Some(found) => found,
            None => return None,
        };
        proof {
            if exact {
                ast::lemma_pair(
                    power.view(),
                    coefficient.view(),
                    power_node(b0, degree as nat),
                    ast::poly_node(cs0[degree as int]),
                );
            }
        }
        let leaf: IndexedLeaf = match coefficient {
            Ast::Poly(leaf) => leaf.indexed(),
            _ => return None,
        };
        assert(coefficient.view() == ast::poly_node(leaf));
        if degree == 0 {
            match power {
                Ast::ConstantTerm(constant) => {
                    assert(power.view() == ast::constant_node(constant.val()));
                    if !constant.equals(&F::one()) {
                        return None;
                    }
                },
                _ => return None,
            }
        } else {
            let (power_prefix, candidate_base) = match mul_terms(power) {
                Some(found) => found,
                None => return None,
            };
            proof {
                if exact {
                    ast::lemma_pair(
                        power_prefix.view(),
                        candidate_base.view(),
                        power_node(b0, (degree - 1) as nat),
                        b0,
                    );
                }
            }
            if !same_ast(power_prefix, previous_power.unwrap()) {
                return None;
            }
            match base {
                Some(known) => {
                    if !same_ast(known, candidate_base) {
                        return None;
                    }
                },
                None => {
                    base = Some(candidate_base);
                },
            }
        }
        previous_power = Some(power);
        coefficients.push(leaf);
        proof {
            if degree >= 1 {
                let b = base->Some_0.view();
                assert(power.view() == power_node(b, degree as nat)) by {
                    if degree == 1 {
                        assert(power_node(b, 0) == ast::constant_node(1));
                    }
                }
                assert forall|k: int| at <= k < count implies (#[trigger] outer@[k]).view()
                    == expanded_term(b, coefficients@, count - 1 - k) by {
                    if k > at {
                        assert(coefficients@[count - 1 - k] == coefficients_in[count - 1 - k]);
                        if degree == 1 {
                            assert(power_node(b, 0) == ast::constant_node(1));
                        } else {
                            assert(outer@[k].view() == expanded_term(
                                b,
                                coefficients_in,
                                count - 1 - k,
                            ));
                        }
                    }
                }
            }
        }
        degree += 1;
    }
    proof {
        let b = base->Some_0.view();
        let views = ast::ref_views(outer@);
        assert forall|k: int| 0 <= k < views.len() implies #[trigger] views[k] == expanded_term(
            b,
            coefficients@,
            coefficients@.len() - 1 - k,
        ) by {
            assert(outer@[k].view() == views[k]);
        }
        assert(coefficients@.take(0) =~= Seq::<IndexedLeaf>::empty());
        lemma_sum_expanded(b, coefficients@, 0, views);
    }
    Some(ExpandedPolynomial { base: base.unwrap(), coefficients })
}

/// Consecutive terms that share a compressed selector as a factor.
#[derive(Clone, Copy, Debug)]
pub struct SelectorRunMatch {
    pub assigned_root: usize,
    pub start: usize,
    pub end: usize,
    pub side: FactorSide,
}

/// A family of runs, one for each selector of a combination, in the order of the
/// roots.
pub struct SelectorFamilyMatch<E, B> {
    pub query: AstLeaf<E, B>,
    pub combination_len: usize,
    pub runs: Vec<SelectorRunMatch>,
}

/// A run together with the selector that it shares.
pub struct RunView {
    pub query: IndexedLeaf,
    pub len: int,
    pub root: int,
    pub start: int,
    pub end: int,
    pub side: FactorSide,
}

pub open spec fn run_view(query: IndexedLeaf, len: usize, run: SelectorRunMatch) -> RunView {
    RunView {
        query,
        len: len as int,
        root: run.assigned_root as int,
        start: run.start as int,
        end: run.end as int,
        side: run.side,
    }
}

/// Whether a term has a compressed selector on the given side.
pub open spec fn selector_on(term: AstView, side: FactorSide, p: int) -> bool {
    term.op == AstOp::Mul && exists|query: IndexedLeaf, len: int, root: int|
        #[trigger] is_selector(ast::factor_of(term, side), query, len, root, p)
}

/// A maximal run of terms with the same compressed selector on the same side, where
/// a selector on the left goes before one on the right.
pub open spec fn is_run(views: Seq<AstView>, run: RunView, p: int) -> bool {
    let factor = selector_node(run.query, run.len, run.root, p);
    &&& 0 <= run.start < run.end <= views.len()
    &&& is_selector(factor, run.query, run.len, run.root, p)
    &&& run.side == FactorSide::Right ==> !selector_on(views[run.start], FactorSide::Left, p)
    &&& forall|i: int|
        #![trigger views[i]]
        run.start <= i < run.end ==> ast::has_factor(views[i], run.side, factor)
    &&& run.end < views.len() ==> !ast::has_factor(views[run.end], run.side, factor)
}

/// The runs found by scanning the first `upto` terms from the start: they do not
/// overlap, and no term between them has a selector.
pub open spec fn is_scan(views: Seq<AstView>, upto: int, runs: Seq<RunView>, p: int) -> bool {
    &&& forall|k: int| 0 <= k < runs.len() ==> is_run(views, #[trigger] runs[k], p) && runs[k].end <= upto
    &&& forall|k: int, l: int|
        0 <= k < l < runs.len() ==> (#[trigger] runs[k]).end <= (#[trigger] runs[l]).start
    &&& forall|i: int|
        #![trigger views[i]]
        0 <= i < upto && (forall|k: int|
            0 <= k < runs.len() ==> !((#[trigger] runs[k]).start <= i < runs[k].end))
            ==> !selector_on(views[i], FactorSide::Left, p) && !selector_on(
            views[i],
            FactorSide::Right,
            p,
        )
}

/// Run `k` belongs to the combination of `len` selectors over `query`.
pub open spec fn in_family(run: RunView, query: IndexedLeaf, len: int) -> bool {
    run.query == query && run.len == len
}

/// One of the runs is that of the given selector.
pub open spec fn has_run(runs: Seq<RunView>, query: IndexedLeaf, len: int, root: int) -> bool {
    exists|k: int|
        0 <= k < runs.len() && in_family(#[trigger] runs[k], query, len) && runs[k].root == root
}

/// Each root of the combination has exactly one run.
pub open spec fn complete_family(runs: Seq<RunView>, query: IndexedLeaf, len: int) -> bool {
    &&& len >= MIN_SELECTOR_FAMILY_LEN
    &&& forall|root: int| 1 <= root <= len ==> #[trigger] has_run(runs, query, len, root)
    &&& forall|k: int, l: int|
        0 <= k < l < runs.len() && in_family(#[trigger] runs[k], query, len) && in_family(
            #[trigger] runs[l],
            query,
            len,
        ) ==> runs[k].root != runs[l].root
}

/// A run of the first combination comes before all runs of the second.
pub open spec fn appears_first(
    runs: Seq<RunView>,
    query: IndexedLeaf,
    len: int,
    other: IndexedLeaf,
    other_len: int,
) -> bool {
    exists|k: int|
        0 <= k < runs.len() && in_family(#[trigger] runs[k], query, len) && forall|m: int|
            0 <= m <= k ==> !in_family(#[trigger] runs[m], other, other_len)
}

/// The families are those of the complete combinations, in the order in which the
/// combinations appear, with their runs in the order of the roots.
pub open spec fn families_match<E, B>(
    families: Seq<SelectorFamilyMatch<E, B>>,
    runs: Seq<RunView>,
) -> bool {
    &&& forall|f: int|
        #![trigger families[f]]
        0 <= f < families.len() ==> {
            &&& complete_family(runs, families[f].query.view(), families[f].combination_len as int)
            &&& families[f].runs@.len() == families[f].combination_len
        }
    &&& forall|f: int, j: int|
        #![trigger families[f].runs@[j]]
        0 <= f < families.len() && 0 <= j < families[f].runs@.len() ==> {
            &&& families[f].runs@[j].assigned_root == j + 1
            &&& runs.contains(
                run_view(
                    families[f].query.view(),
                    families[f].combination_len,
                    families[f].runs@[j],
                ),
            )
        }
    &&& forall|f: int, g: int|
        0 <= f < g < families.len() ==> (#[trigger] families[f]).query.view() != (
        #[trigger] families[g]).query.view() || families[f].combination_len
            != families[g].combination_len
    &&& forall|f: int, g: int|
        #![trigger families[f], families[g]]
        0 <= f < g < families.len() ==> appears_first(
            runs,
            families[f].query.view(),
            families[f].combination_len as int,
            families[g].query.view(),
            families[g].combination_len as int,
        )
    &&& forall|query: IndexedLeaf, len: int|
        #[trigger] complete_family(runs, query, len) ==> exists|f: int|
            0 <= f < families.len() && (#[trigger] families[f]).query.view() == query
                && families[f].combination_len == len
}

/// The selector of one term: its side, the factor, the column, the combination length
/// and the root.
fn selector_candidate<'a, E, F: Field, B>(term: &'a Ast<E, F, B>, minus_one: F) -> (r: Option<
    (FactorSide, &'a Ast<E, F, B>, AstLeaf<E, B>, usize, usize),
>)
    requires
        minus_one.val() == F::order() - 1,
        ast::ast_size(term.view()) < usize::MAX,
    ensures
        r matches Some((side, factor, query, len, root)) ==> {
            &&& ast::has_factor(term.view(), side, factor.view())
            &&& is_selector(factor.view(), query.view(), len as int, root as int, F::order())
            &&& side == FactorSide::Right ==> !selector_on(
                term.view(),
                FactorSide::Left,
                F::order(),
            )
        },
        r is None ==> !selector_on(term.view(), FactorSide::Left, F::order()) && !selector_on(
            term.view(),
            FactorSide::Right,
            F::order(),
        ),
{
    match factor_terms(term, FactorSide::Left) {
        None => None,
        Some((left, right)) => {
            proof {
                assert(term.view() == ast::mul_node(left.view(), right.view()));
                lemma_ast_size_pair(AstOp::Mul, left.view(), right.view());
            }
            if let Some((query, len, root)) = compressed_selector(left, minus_one) {
                return Some((FactorSide::Left, left, *query, len, root));
            }
            match factor_terms(term, FactorSide::Right) {
                None => None,
                Some((factor, body)) => {
                    proof {
                        assert(term.view() == ast::mul_node(body.view(), factor.view()));
                        ast::lemma_pair(left.view(), right.view(), body.view(), factor.view());
                    }
                    match compressed_selector(factor, minus_one) {
                        None => None,
                        Some((query, len, root)) => Some(
                            (FactorSide::Right, factor, *query, len, root),
                        ),
                    }
                },
            }
        },
    }
}

/// The families under construction list all the scanned runs, in order.
spec fn families_list<E, B>(
    families: Seq<SelectorFamilyMatch<E, B>>,
    runs: Seq<RunView>,
    idx: Seq<Seq<int>>,
) -> bool {
    &&& idx.len() == families.len()
    &&& forall|f: int|
        #![trigger families[f]]
        0 <= f < families.len() ==> idx[f].len() == families[f].runs@.len()
            && families[f].runs@.len() > 0
    &&& forall|f: int, j: int|
        #![trigger families[f].runs@[j]]
        0 <= f < families.len() && 0 <= j < families[f].runs@.len() ==> listed_at(
            runs,
            idx[f][j],
            run_view(families[f].query.view(), families[f].combination_len, families[f].runs@[j]),
        )
    &&& forall|f: int, i: int, j: int|
        #![trigger idx[f][i], idx[f][j]]
        0 <= f < families.len() && 0 <= i < j < families[f].runs@.len() ==> idx[f][i] != idx[f][j]
    &&& forall|f: int, g: int|
        0 <= f < g < families.len() ==> (#[trigger] families[f]).query.view() != (
        #[trigger] families[g]).query.view() || families[f].combination_len
            != families[g].combination_len
    &&& forall|f: int, g: int|
        #![trigger families[f], families[g]]
        0 <= f < g < families.len() ==> appears_first(
            runs,
            families[f].query.view(),
            families[f].combination_len as int,
            families[g].query.view(),
            families[g].combination_len as int,
        )
    &&& forall|k: int| 0 <= k < runs.len() ==> #[trigger] owned(families, idx, k)
}

/// One more run at the end does not change which combination appears first.
proof fn lemma_appears_push(
    runs: Seq<RunView>,
    view: RunView,
    query: IndexedLeaf,
    len: int,
    other: IndexedLeaf,
    other_len: int,
)
    requires
        appears_first(runs, query, len, other, other_len),
    ensures
        appears_first(runs.push(view), query, len, other, other_len),
{
    let all = runs.push(view);
    let k = choose|k: int|
        0 <= k < runs.len() && in_family(#[trigger] runs[k], query, len) && forall|m: int|
            0 <= m <= k ==> !in_family(#[trigger] runs[m], other, other_len);
    assert(in_family(all[k], query, len));
    assert forall|m: int| 0 <= m <= k implies !in_family(#[trigger] all[m], other, other_len) by {
        assert(all[m] == runs[m]);
    }
}

/// Run `k` is `view`.
spec fn listed_at(runs: Seq<RunView>, k: int, view: RunView) -> bool {
    0 <= k < runs.len() && runs[k] == view
}

/// Run `k` is listed by one of the families.
spec fn owned<E, B>(
    families: Seq<SelectorFamilyMatch<E, B>>,
    idx: Seq<Seq<int>>,
    k: int,
) -> bool {
    exists|f: int, j: int|
        0 <= f < families.len() && 0 <= j < families[f].runs@.len() && #[trigger] idx[f][j] == k
}

/// Finds the terms whose products share the compressed selectors of a complete
/// combination.
pub fn selector_family_matches<E, F: Field, B>(terms: &[Ast<E, F, B>], minus_one: F) -> (r: Vec<
    SelectorFamilyMatch<E, B>,
>)
    requires
        minus_one.val() == F::order() - 1,
        ast::ast_sizes(ast::ast_views(terms@)) < usize::MAX,
    ensures
        exists|runs: Seq<RunView>|
            #![trigger families_match(r@, runs)]
            is_scan(ast::ast_views(terms@), terms@.len() as int, runs, F::order()) && families_match(
                r@,
                runs,
            ),
{
    let ghost p = F::order();
    let ghost views = ast::ast_views(terms@);
    let mut families: Vec<SelectorFamilyMatch<E, B>> = Vec::new();
    let ghost mut runs: Seq<RunView> = Seq::empty();
    let ghost mut idx: Seq<Seq<int>> = Seq::empty();
    let mut start: usize = 0;
    proof {
        ast::lemma_ast_views(terms@);
    }
    while start < terms.len()
        invariant
            start <= terms@.len(),
            p == F::order(),
            minus_one.val() == p - 1,
            views == ast::ast_views(terms@),
            views.len() == terms@.len(),
            forall|i: int| 0 <= i < terms@.len() ==> #[trigger] views[i] == terms@[i].view(),
            ast::ast_sizes(views) < usize::MAX,
            is_scan(views, start as int, runs, p),
            families_list(families@, runs, idx),
        decreases terms@.len() - start,
    {
        proof {
            lemma_ast_sizes_bound(views, start as int);
        }
        match selector_candidate(&terms[start], minus_one) {
            None => {
                start += 1;
            },
            Some((side, factor, query, combination_len, assigned_root)) => {
                let mut end: usize = start + 1;
                let mut more = true;
                while more
                    invariant
                        start < end <= terms@.len(),
                        views.len() == terms@.len(),
                        forall|i: int| 0 <= i < terms@.len() ==> #[trigger] views[i] == terms@[i].view(),
                        forall|i: int|
                            #![trigger views[i]]
                            start <= i < end ==> ast::has_factor(views[i], side, factor.view()),
                        !more && end < terms@.len() ==> !ast::has_factor(
                            views[end as int],
                            side,
                            factor.view(),
                        ),
                    decreases terms@.len() - end + (if more { 1int } else { 0 }),
                {
                    more = false;
                    if end < terms.len() {
                        if let Some((candidate, _)) = factor_terms(&terms[end], side) {
                            if same_ast(factor, candidate) {
                                end += 1;
                                more = true;
                            }
                        }
                    }
                }
                let run = SelectorRunMatch { assigned_root, start, end, side };
                let ghost view = run_view(query.view(), combination_len, run);
                let ghost runs_in = runs;
                proof {
                    runs = runs_in.push(view);
                    lemma_scan_push(views, start as int, runs_in, view, p);
                }
                let ghost families_in = families@;
                let ghost idx_in = idx;
                let mut at: usize = 0;
                while at < families.len() && !(families[at].combination_len == combination_len
                    && families[at].query.equals(&query))
                    invariant
                        at <= families@.len(),
                        families@ == families_in,
                        forall|f: int|
                            0 <= f < at ==> (#[trigger] families@[f]).query.view() != query.view()
                                || families@[f].combination_len != combination_len,
                    decreases families@.len() - at,
                {
                    at += 1;
                }
                if at < families.len() {
                    families[at].runs.push(run);
                    proof {
                        idx = idx_in.update(at as int, idx_in[at as int].push(runs_in.len() as int));
                        lemma_families_extend(families_in, families@, runs_in, view, idx_in, at as int, run);
                    }
                } else {
                    families.push(
                        SelectorFamilyMatch { query, combination_len, runs: vec![run] },
                    );
                    proof {
                        idx = idx_in.push(seq![runs_in.len() as int]);
                        lemma_families_new(families_in, families@, runs_in, view, idx_in);
                    }
                }
                start = end;
            },
        }
    }
    proof {
        assert forall|k: int| 0 <= k < runs.len() implies 1 <= (#[trigger] runs[k]).root
            <= runs[k].len && runs[k].len >= MIN_SELECTOR_FAMILY_LEN by {
            assert(is_run(views, runs[k], p));
        }
    }
    let kept = retain_complete(&families, Ghost(runs), Ghost(idx));
    assert(families_match(kept@, runs));
    kept
}

/// What holds of the families kept from the first `f`: `from` and `to` say which of
/// the families each kept one is, and back.
spec fn kept_ok<E, B>(
    kept: Seq<SelectorFamilyMatch<E, B>>,
    families: Seq<SelectorFamilyMatch<E, B>>,
    runs: Seq<RunView>,
    f: int,
    from: Seq<int>,
    to: Seq<int>,
) -> bool {
    &&& from.len() == kept.len()
    &&& to.len() == f
    &&& forall|h: int|
        #![trigger from[h]]
        0 <= h < kept.len() ==> {
            &&& 0 <= from[h] < f
            &&& kept[h].query.view() == families[from[h]].query.view()
            &&& kept[h].combination_len == families[from[h]].combination_len
            &&& complete_family(runs, kept[h].query.view(), kept[h].combination_len as int)
            &&& kept[h].runs@.len() == kept[h].combination_len
        }
    &&& forall|h: int, j: int|
        #![trigger kept[h].runs@[j]]
        0 <= h < kept.len() && 0 <= j < kept[h].runs@.len() ==> {
            &&& kept[h].runs@[j].assigned_root == j + 1
            &&& runs.contains(
                run_view(kept[h].query.view(), kept[h].combination_len, kept[h].runs@[j]),
            )
        }
    &&& forall|h: int, g: int|
        0 <= h < g < kept.len() ==> #[trigger] from[h] < #[trigger] from[g]
    &&& forall|g: int|
        #![trigger to[g]]
        0 <= g < f && complete_family(
            runs,
            families[g].query.view(),
            families[g].combination_len as int,
        ) ==> {
            &&& 0 <= to[g] < kept.len()
            &&& kept[to[g]].query.view() == families[g].query.view()
            &&& kept[to[g]].combination_len == families[g].combination_len
        }
}

/// Keeps the families whose combination is complete.
fn retain_complete<E, B>(
    families: &Vec<SelectorFamilyMatch<E, B>>,
    Ghost(runs): Ghost<Seq<RunView>>,
    Ghost(idx): Ghost<Seq<Seq<int>>>,
) -> (kept: Vec<SelectorFamilyMatch<E, B>>)
    requires
        families_list(families@, runs, idx),
        forall|k: int|
            0 <= k < runs.len() ==> 1 <= (#[trigger] runs[k]).root <= runs[k].len && runs[k].len
                >= MIN_SELECTOR_FAMILY_LEN,
    ensures
        families_match(kept@, runs),
{
    let mut kept: Vec<SelectorFamilyMatch<E, B>> = Vec::new();
    let ghost mut from: Seq<int> = Seq::empty();
    let ghost mut to: Seq<int> = Seq::empty();
    let mut f: usize = 0;
    while f < families.len()
        invariant
            f <= families@.len(),
            families_list(families@, runs, idx),
            forall|k: int|
                0 <= k < runs.len() ==> 1 <= (#[trigger] runs[k]).root <= runs[k].len
                    && runs[k].len >= MIN_SELECTOR_FAMILY_LEN,
            kept_ok(kept@, families@, runs, f as int, from, to),
        decreases families@.len() - f,
    {
        let ghost kept_in = kept@;
        let ghost from_in = from;
        let ghost to_in = to;
        let query = families[f].query;
        let combination_len: usize = families[f].combination_len;
        match runs_by_root(&families[f].runs, combination_len) {
            Some(sorted) => {
                proof {
                    lemma_family_length(families@, runs, idx, f as int);
                    lemma_sorted_complete(families@, runs, idx, f as int, sorted@);
                }
                kept.push(SelectorFamilyMatch { query, combination_len, runs: sorted });
                proof {
                    from = from_in.push(f as int);
                    to = to_in.push(kept_in.len() as int);
                    lemma_keep(kept_in, kept@, families@, runs, f as int, from_in, to_in);
                }
            },
            None => {
                proof {
                    lemma_unsorted_incomplete(families@, runs, idx, f as int);
                    to = to_in.push(0);
                    lemma_skip(kept@, families@, runs, f as int, from_in, to_in);
                }
            },
        }
        f += 1;
    }
    proof {
        assert forall|query: IndexedLeaf, len: int| #[trigger] complete_family(
            runs,
            query,
            len,
        ) implies exists|h: int|
            0 <= h < kept@.len() && (#[trigger] kept@[h]).query.view() == query
                && kept@[h].combination_len == len by {
            assert(has_run(runs, query, len, 1));
            let k = choose|k: int|
                0 <= k < runs.len() && in_family(#[trigger] runs[k], query, len) && runs[k].root == 1;
            let (g, j) = lemma_run_owner(families@, runs, idx, k);
            assert(families@[g].query.view() == query);
            assert(0 <= to[g] < kept@.len());
            assert(kept@[to[g]].query.view() == query);
        }
        assert forall|h: int, g: int| 0 <= h < g < kept@.len() implies (
        #[trigger] kept@[h]).query.view() != (#[trigger] kept@[g]).query.view()
            || kept@[h].combination_len != kept@[g].combination_len by {
            assert(from[h] < from[g]);
            assert(families@[from[h]].query.view() != families@[from[g]].query.view()
                || families@[from[h]].combination_len != families@[from[g]].combination_len);
        }
        assert forall|h: int, g: int|
            #![trigger kept@[h], kept@[g]]
            0 <= h < g < kept@.len() implies appears_first(
            runs,
            kept@[h].query.view(),
            kept@[h].combination_len as int,
            kept@[g].query.view(),
            kept@[g].combination_len as int,
        ) by {
            assert(from[h] < from[g]);
            let (x, y) = (families@[from[h]], families@[from[g]]);
            assert(appears_first(
                runs,
                x.query.view(),
                x.combination_len as int,
                y.query.view(),
                y.combination_len as int,
            ));
        }
        assert forall|h: int|
            #![trigger kept@[h]]
            0 <= h < kept@.len() implies complete_family(
            runs,
            kept@[h].query.view(),
            kept@[h].combination_len as int,
        ) && kept@[h].runs@.len() == kept@[h].combination_len by {
            assert(0 <= from[h]);
        }
    }
    kept
}

proof fn lemma_keep<E, B>(
    before: Seq<SelectorFamilyMatch<E, B>>,
    after: Seq<SelectorFamilyMatch<E, B>>,
    families: Seq<SelectorFamilyMatch<E, B>>,
    runs: Seq<RunView>,
    f: int,
    from: Seq<int>,
    to: Seq<int>,
)
    requires
        kept_ok(before, families, runs, f, from, to),
        0 <= f < families.len(),
        after.len() == before.len() + 1,
        forall|h: int| 0 <= h < before.len() ==> #[trigger] after[h] == before[h],
        after.last().query.view() == families[f].query.view(),
        after.last().combination_len == families[f].combination_len,
        complete_family(runs, families[f].query.view(), families[f].combination_len as int),
        after.last().runs@.len() == families[f].combination_len,
        forall|j: int|
            #![trigger after.last().runs@[j]]
            0 <= j < after.last().runs@.len() ==> {
                &&& after.last().runs@[j].assigned_root == j + 1
                &&& runs.contains(
                    run_view(
                        families[f].query.view(),
                        families[f].combination_len,
                        after.last().runs@[j],
                    ),
                )
            },
    ensures
        kept_ok(after, families, runs, f + 1, from.push(f), to.push(before.len() as int)),
{
    let n = before.len() as int;
    let (from2, to2) = (from.push(f), to.push(n));
    assert forall|h: int|
        #![trigger from2[h]]
        0 <= h < after.len() implies {
        &&& 0 <= from2[h] < f + 1
        &&& after[h].query.view() == families[from2[h]].query.view()
        &&& after[h].combination_len == families[from2[h]].combination_len
        &&& complete_family(runs, after[h].query.view(), after[h].combination_len as int)
        &&& after[h].runs@.len() == after[h].combination_len
    } by {
        if h < n {
            assert(from2[h] == from[h]);
            assert(after[h] == before[h]);
        }
    }
    assert forall|h: int, j: int|
        #![trigger after[h].runs@[j]]
        0 <= h < after.len() && 0 <= j < after[h].runs@.len() implies {
        &&& after[h].runs@[j].assigned_root == j + 1
        &&& runs.contains(
            run_view(after[h].query.view(), after[h].combination_len, after[h].runs@[j]),
        )
    } by {
        if h < n {
            assert(before[h].runs@[j] == after[h].runs@[j]);
        } else {
            assert(after.last().runs@[j] == after[h].runs@[j]);
        }
    }
    assert forall|h: int, g: int| 0 <= h < g < after.len() implies #[trigger] from2[h]
        < #[trigger] from2[g] by {
        assert(from2[h] == from[h]);
        if g < n {
            assert(from2[g] == from[g]);
        }
    }
    assert forall|g: int|
        #![trigger to2[g]]
        0 <= g < f + 1 && complete_family(
            runs,
            families[g].query.view(),
            families[g].combination_len as int,
        ) implies {
        &&& 0 <= to2[g] < after.len()
        &&& after[to2[g]].query.view() == families[g].query.view()
        &&& after[to2[g]].combination_len == families[g].combination_len
    } by {
        if g < f {
            assert(to2[g] == to[g]);
            assert(after[to[g]] == before[to[g]]);
        }
    }
}

proof fn lemma_skip<E, B>(
    kept: Seq<SelectorFamilyMatch<E, B>>,
    families: Seq<SelectorFamilyMatch<E, B>>,
    runs: Seq<RunView>,
    f: int,
    from: Seq<int>,
    to: Seq<int>,
)
    requires
        0 <= f,
        kept_ok(kept, families, runs, f, from, to),
        !complete_family(runs, families[f].query.view(), families[f].combination_len as int),
    ensures
        kept_ok(kept, families, runs, f + 1, from, to.push(0)),
{
    let to2 = to.push(0);
    assert forall|g: int|
        #![trigger to2[g]]
        0 <= g < f + 1 && complete_family(
            runs,
            families[g].query.view(),
            families[g].combination_len as int,
        ) implies {
        &&& 0 <= to2[g] < kept.len()
        &&& kept[to2[g]].query.view() == families[g].query.view()
        &&& kept[to2[g]].combination_len == families[g].combination_len
    } by {
        if g < f {
            assert(to2[g] == to[g]);
        }
    }
}

/// A family always has a run, and a run has a selector of a combination that is long
/// enough.
proof fn lemma_family_length<E, B>(
    families: Seq<SelectorFamilyMatch<E, B>>,
    runs: Seq<RunView>,
    idx: Seq<Seq<int>>,
    f: int,
)
    requires
        families_list(families, runs, idx),
        0 <= f < families.len(),
        forall|k: int|
            0 <= k < runs.len() ==> 1 <= (#[trigger] runs[k]).root <= runs[k].len && runs[k].len
                >= MIN_SELECTOR_FAMILY_LEN,
    ensures
        families[f].combination_len >= MIN_SELECTOR_FAMILY_LEN,
{
    assert(families[f].runs@.len() > 0);
    let r = families[f].runs@[0];
    assert(runs[idx[f][0]].len == families[f].combination_len);
}

pub proof fn lemma_ast_sizes_bound(s: Seq<AstView>, i: int)
    requires
        0 <= i < s.len(),
    ensures
        ast::ast_size(s[i]) <= ast::ast_sizes(s),
    decreases s.len(),
{
    if i < s.len() - 1 {
        lemma_ast_sizes_bound(s.drop_last(), i);
    }
}

/// A run found at the end of a scan extends it.
proof fn lemma_scan_push(views: Seq<AstView>, start: int, runs: Seq<RunView>, run: RunView, p: int)
    requires
        is_scan(views, start, runs, p),
        run.start == start,
        is_run(views, run, p),
    ensures
        is_scan(views, run.end, runs.push(run), p),
{
    let all = runs.push(run);
    assert forall|k: int| 0 <= k < all.len() implies is_run(views, #[trigger] all[k], p) && all[k].end
        <= run.end by {
        if k < runs.len() {
            assert(all[k] == runs[k]);
        }
    }
    assert forall|k: int, l: int| 0 <= k < l < all.len() implies (#[trigger] all[k]).end <= (
    #[trigger] all[l]).start by {
        assert(all[k] == runs[k]);
        if l < runs.len() {
            assert(all[l] == runs[l]);
        }
    }
    assert forall|i: int|
        #![trigger views[i]]
        0 <= i < run.end && (forall|k: int|
            0 <= k < all.len() ==> !((#[trigger] all[k]).start <= i < all[k].end)) implies !selector_on(
        views[i],
        FactorSide::Left,
        p,
    ) && !selector_on(views[i], FactorSide::Right, p) by {
        assert(!(all[runs.len() as int].start <= i < all[runs.len() as int].end));
        assert(i < start);
        assert forall|k: int| 0 <= k < runs.len() implies !((#[trigger] runs[k]).start <= i
            < runs[k].end) by {
            assert(all[k] == runs[k]);
        }
    }
}

proof fn lemma_families_extend<E, B>(
    before: Seq<SelectorFamilyMatch<E, B>>,
    after: Seq<SelectorFamilyMatch<E, B>>,
    runs: Seq<RunView>,
    view: RunView,
    idx: Seq<Seq<int>>,
    at: int,
    run: SelectorRunMatch,
)
    requires
        families_list(before, runs, idx),
        0 <= at < before.len(),
        after.len() == before.len(),
        forall|f: int| 0 <= f < before.len() && f != at ==> #[trigger] after[f] == before[f],
        after[at].query == before[at].query,
        after[at].combination_len == before[at].combination_len,
        after[at].runs@ == before[at].runs@.push(run),
        view == run_view(before[at].query.view(), before[at].combination_len, run),
    ensures
        families_list(
            after,
            runs.push(view),
            idx.update(at, idx[at].push(runs.len() as int)),
        ),
{
    let all = runs.push(view);
    let idx2 = idx.update(at, idx[at].push(runs.len() as int));
    assert forall|f: int, j: int|
        #![trigger after[f].runs@[j]]
        0 <= f < after.len() && 0 <= j < after[f].runs@.len() implies listed_at(
        all,
        idx2[f][j],
        run_view(after[f].query.view(), after[f].combination_len, after[f].runs@[j]),
    ) by {
        if f == at && j == before[at].runs@.len() {
        } else {
            assert(before[f].runs@[j] == after[f].runs@[j]);
            assert(idx2[f][j] == idx[f][j]);
        }
    }
    assert forall|f: int, i: int, j: int|
        #![trigger idx2[f][i], idx2[f][j]]
        0 <= f < after.len() && 0 <= i < j < after[f].runs@.len() implies idx2[f][i] != idx2[f][j] by {
        assert(before[f].runs@[i] == after[f].runs@[i]);
        assert(idx2[f][i] == idx[f][i]);
        if f == at && j == before[at].runs@.len() {
        } else {
            assert(before[f].runs@[j] == after[f].runs@[j]);
            assert(idx2[f][j] == idx[f][j]);
        }
    }
    assert forall|k: int| 0 <= k < all.len() implies #[trigger] owned(after, idx2, k) by {
        if k < runs.len() {
            assert(owned(before, idx, k));
            let (f, j) = choose|f: int, j: int|
                0 <= f < before.len() && 0 <= j < before[f].runs@.len() && #[trigger] idx[f][j] == k;
            assert(idx2[f][j] == k);
        } else {
            assert(idx2[at][before[at].runs@.len() as int] == k);
        }
    }
    assert forall|f: int|
        #![trigger after[f]]
        0 <= f < after.len() implies idx2[f].len() == after[f].runs@.len() && after[f].runs@.len()
        > 0 by {
        assert(idx[f].len() == before[f].runs@.len());
    }
    assert forall|f: int, g: int| 0 <= f < g < after.len() implies (
    #[trigger] after[f]).query.view() != (#[trigger] after[g]).query.view()
        || after[f].combination_len != after[g].combination_len by {
        assert(before[f].query.view() != before[g].query.view() || before[f].combination_len
            != before[g].combination_len);
    }
    assert forall|f: int, g: int|
        #![trigger after[f], after[g]]
        0 <= f < g < after.len() implies appears_first(
        all,
        after[f].query.view(),
        after[f].combination_len as int,
        after[g].query.view(),
        after[g].combination_len as int,
    ) by {
        let (x, y) = (before[f], before[g]);
        lemma_appears_push(
            runs,
            view,
            x.query.view(),
            x.combination_len as int,
            y.query.view(),
            y.combination_len as int,
        );
    }
}

proof fn lemma_families_new<E, B>(
    before: Seq<SelectorFamilyMatch<E, B>>,
    after: Seq<SelectorFamilyMatch<E, B>>,
    runs: Seq<RunView>,
    view: RunView,
    idx: Seq<Seq<int>>,
)
    requires
        families_list(before, runs, idx),
        after.len() == before.len() + 1,
        forall|f: int| 0 <= f < before.len() ==> #[trigger] after[f] == before[f],
        after.last().runs@.len() == 1,
        view == run_view(
            after.last().query.view(),
            after.last().combination_len,
            after.last().runs@[0],
        ),
        forall|f: int|
            0 <= f < before.len() ==> (#[trigger] before[f]).query.view()
                != after.last().query.view() || before[f].combination_len
                != after.last().combination_len,
    ensures
        families_list(after, runs.push(view), idx.push(seq![runs.len() as int])),
{
    let all = runs.push(view);
    let idx2 = idx.push(seq![runs.len() as int]);
    let n = before.len() as int;
    assert forall|f: int, j: int|
        #![trigger after[f].runs@[j]]
        0 <= f < after.len() && 0 <= j < after[f].runs@.len() implies listed_at(
        all,
        idx2[f][j],
        run_view(after[f].query.view(), after[f].combination_len, after[f].runs@[j]),
    ) by {
        if f < n {
            assert(before[f].runs@[j] == after[f].runs@[j]);
            assert(idx2[f][j] == idx[f][j]);
        }
    }
    assert forall|f: int, i: int, j: int|
        #![trigger idx2[f][i], idx2[f][j]]
        0 <= f < after.len() && 0 <= i < j < after[f].runs@.len() implies idx2[f][i] != idx2[f][j] by {
        if f < n {
            assert(idx2[f][i] == idx[f][i]);
            assert(idx2[f][j] == idx[f][j]);
        }
    }
    assert forall|k: int| 0 <= k < all.len() implies #[trigger] owned(after, idx2, k) by {
        if k < runs.len() {
            assert(owned(before, idx, k));
            let (f, j) = choose|f: int, j: int|
                0 <= f < before.len() && 0 <= j < before[f].runs@.len() && #[trigger] idx[f][j] == k;
            assert(idx2[f][j] == k);
        } else {
            assert(idx2[n][0] == k);
        }
    }
    assert forall|f: int, g: int| 0 <= f < g < after.len() implies (
    #[trigger] after[f]).query.view() != (#[trigger] after[g]).query.view()
        || after[f].combination_len != after[g].combination_len by {
        assert(after[f] == before[f]);
        if g < n {
            assert(after[g] == before[g]);
        }
    }
    assert forall|f: int, g: int|
        #![trigger after[f], after[g]]
        0 <= f < g < after.len() implies appears_first(
        all,
        after[f].query.view(),
        after[f].combination_len as int,
        after[g].query.view(),
        after[g].combination_len as int,
    ) by {
        let x = before[f];
        assert(after[f] == x);
        if g < n {
            let y = before[g];
            assert(after[g] == y);
            lemma_appears_push(
                runs,
                view,
                x.query.view(),
                x.combination_len as int,
                y.query.view(),
                y.combination_len as int,
            );
        } else {
            // No earlier run is of the new combination.
            assert(x.runs@.len() > 0);
            let first = x.runs@[0];
            let k = idx[f][0];
            assert(listed_at(runs, k, run_view(x.query.view(), x.combination_len, first)));
            assert(in_family(all[k], x.query.view(), x.combination_len as int));
            let y = after.last();
            assert forall|m: int| 0 <= m <= k implies !in_family(
                #[trigger] all[m],
                y.query.view(),
                y.combination_len as int,
            ) by {
                assert(all[m] == runs[m]);
                assert(owned(before, idx, m));
                let (h, j) = choose|h: int, j: int|
                    0 <= h < before.len() && 0 <= j < before[h].runs@.len() && #[trigger] idx[h][j]
                        == m;
                let listed = before[h].runs@[j];
                assert(listed_at(
                    runs,
                    m,
                    run_view(before[h].query.view(), before[h].combination_len, listed),
                ));
            }
        }
    }
    assert forall|f: int|
        #![trigger after[f]]
        0 <= f < after.len() implies idx2[f].len() == after[f].runs@.len() && after[f].runs@.len()
        > 0 by {
        if f < n {
            assert(idx[f].len() == before[f].runs@.len());
        }
    }
}

/// None of the runs has the given root.
spec fn root_missing(runs: Seq<SelectorRunMatch>, root: int) -> bool {
    forall|i: int| 0 <= i < runs.len() ==> (#[trigger] runs[i]).assigned_root != root
}

/// Puts the runs of a family in the order of their roots, if every root from one to
/// `len` has exactly one run.
fn runs_by_root(runs: &Vec<SelectorRunMatch>, len: usize) -> (r: Option<Vec<SelectorRunMatch>>)
    ensures
        r matches Some(sorted) ==> {
            &&& sorted@.len() == len
            &&& forall|j: int|
                #![trigger sorted@[j]]
                0 <= j < len ==> sorted@[j].assigned_root == j + 1 && runs@.contains(sorted@[j])
            &&& forall|i: int, j: int|
                0 <= i < j < runs@.len() ==> (#[trigger] runs@[i]).assigned_root != (
                #[trigger] runs@[j]).assigned_root
        },
        r is None ==> {
            ||| exists|i: int|
                0 <= i < runs@.len() && !(1 <= (#[trigger] runs@[i]).assigned_root <= len)
            ||| exists|i: int, j: int|
                0 <= i < j < runs@.len() && (#[trigger] runs@[i]).assigned_root == (
                #[trigger] runs@[j]).assigned_root
            ||| exists|root: int| 1 <= root <= len && #[trigger] root_missing(runs@, root)
        },
{
    let mut slots: Vec<Option<SelectorRunMatch>> = Vec::with_capacity(len);
    let mut i: usize = 0;
    while i < len
        invariant
            i <= len,
            slots@.len() == i,
            forall|k: int| 0 <= k < i ==> #[trigger] slots@[k] is None,
        decreases len - i,
    {
        slots.push(None);
        i += 1;
    }
    let mut k: usize = 0;
    while k < runs.len()
        invariant
            k <= runs@.len(),
            slots@.len() == len,
            forall|j: int|
                #![trigger slots@[j]]
                0 <= j < len ==> match slots@[j] {
                    Some(run) => run.assigned_root == j + 1 && exists|i: int|
                        0 <= i < k && #[trigger] runs@[i] == run,
                    None => forall|i: int|
                        0 <= i < k ==> (#[trigger] runs@[i]).assigned_root != j + 1,
                },
            forall|i: int| 0 <= i < k ==> 1 <= (#[trigger] runs@[i]).assigned_root <= len,
            forall|i: int, j: int|
                0 <= i < j < k ==> (#[trigger] runs@[i]).assigned_root != (
                #[trigger] runs@[j]).assigned_root,
        decreases runs@.len() - k,
    {
        let run = runs[k];
        if run.assigned_root < 1 || run.assigned_root > len {
            assert(!(1 <= runs@[k as int].assigned_root <= len));
            return None;
        }
        let ghost slots_in = slots@;
        if slots[run.assigned_root - 1].is_some() {
            proof {
                let j = run.assigned_root - 1;
                let other = slots_in[j]->Some_0;
                let i = choose|i: int| 0 <= i < k && #[trigger] runs@[i] == other;
                assert(runs@[i].assigned_root == runs@[k as int].assigned_root);
            }
            return None;
        }
        slots.set(run.assigned_root - 1, Some(run));
        proof {
            assert forall|j: int|
                #![trigger slots@[j]]
                0 <= j < len implies match slots@[j] {
                Some(run) => run.assigned_root == j + 1 && exists|i: int|
                    0 <= i < k + 1 && #[trigger] runs@[i] == run,
                None => forall|i: int|
                    0 <= i < k + 1 ==> (#[trigger] runs@[i]).assigned_root != j + 1,
            } by {
                if j == run.assigned_root - 1 {
                    assert(runs@[k as int] == run);
                } else {
                    assert(slots@[j] == slots_in[j]);
                    if slots_in[j] is Some {
                        let other = slots_in[j]->Some_0;
                        let i = choose|i: int| 0 <= i < k && #[trigger] runs@[i] == other;
                        assert(runs@[i] == other);
                    }
                }
            }
            assert forall|i: int, j: int| 0 <= i < j < k + 1 implies (
            #[trigger] runs@[i]).assigned_root != (#[trigger] runs@[j]).assigned_root by {
                if j == k {
                    assert(slots_in[run.assigned_root - 1] is None);
                }
            }
        }
        k += 1;
    }
    let mut sorted: Vec<SelectorRunMatch> = Vec::with_capacity(len);
    let mut j: usize = 0;
    while j < len
        invariant
            j <= len,
            slots@.len() == len,
            sorted@.len() == j,
            forall|j: int|
                #![trigger slots@[j]]
                0 <= j < len ==> match slots@[j] {
                    Some(run) => run.assigned_root == j + 1 && exists|i: int|
                        0 <= i < runs@.len() && #[trigger] runs@[i] == run,
                    None => forall|i: int|
                        0 <= i < runs@.len() ==> (#[trigger] runs@[i]).assigned_root != j + 1,
                },
            forall|i: int|
                #![trigger sorted@[i]]
                0 <= i < j ==> sorted@[i].assigned_root == i + 1 && runs@.contains(sorted@[i]),
        decreases len - j,
    {
        match slots[j] {
            Some(run) => {
                sorted.push(run);
            },
            None => {
                assert(slots@[j as int] is None);
                assert(root_missing(runs@, j + 1));
                return None;
            },
        }
        j += 1;
    }
    Some(sorted)
}

proof fn lemma_sorted_complete<E, B>(
    families: Seq<SelectorFamilyMatch<E, B>>,
    runs: Seq<RunView>,
    idx: Seq<Seq<int>>,
    f: int,
    sorted: Seq<SelectorRunMatch>,
)
    requires
        families_list(families, runs, idx),
        0 <= f < families.len(),
        sorted.len() == families[f].combination_len,
        forall|j: int|
            #![trigger sorted[j]]
            0 <= j < sorted.len() ==> sorted[j].assigned_root == j + 1 && families[f].runs@.contains(
                sorted[j],
            ),
        forall|i: int, j: int|
            0 <= i < j < families[f].runs@.len() ==> (#[trigger] families[f].runs@[i]).assigned_root
                != (#[trigger] families[f].runs@[j]).assigned_root,
        families[f].combination_len >= MIN_SELECTOR_FAMILY_LEN,
    ensures
        complete_family(runs, families[f].query.view(), families[f].combination_len as int),
        forall|j: int|
            #![trigger sorted[j]]
            0 <= j < sorted.len() ==> runs.contains(
                run_view(families[f].query.view(), families[f].combination_len, sorted[j]),
            ),
{
    let fam = families[f];
    let (query, len) = (fam.query.view(), fam.combination_len as int);
    assert forall|j: int|
        #![trigger sorted[j]]
        0 <= j < sorted.len() implies runs.contains(
        run_view(query, fam.combination_len, sorted[j]),
    ) by {
        let i = choose|i: int| 0 <= i < fam.runs@.len() && fam.runs@[i] == sorted[j];
        assert(families[f].runs@[i] == sorted[j]);
        assert(runs[idx[f][i]] == run_view(query, fam.combination_len, sorted[j]));
    }
    assert forall|root: int| 1 <= root <= len implies #[trigger] has_run(
        runs,
        query,
        len,
        root,
    ) by {
        let v = run_view(query, fam.combination_len, sorted[root - 1]);
        assert(runs.contains(v));
        let k = choose|k: int| 0 <= k < runs.len() && runs[k] == v;
        assert(in_family(runs[k], query, len));
    }
    assert forall|k: int, l: int|
        0 <= k < l < runs.len() && in_family(#[trigger] runs[k], query, len) && in_family(
            #[trigger] runs[l],
            query,
            len,
        ) implies runs[k].root != runs[l].root by {
        let (a, i) = lemma_run_owner(families, runs, idx, k);
        let (b, j) = lemma_run_owner(families, runs, idx, l);
        lemma_same_key(families, runs, idx, f, a);
        lemma_same_key(families, runs, idx, f, b);
        assert(a == f && b == f);
        assert(i != j);
        assert(families[f].runs@[i].assigned_root != families[f].runs@[j].assigned_root);
    }
}

proof fn lemma_run_owner<E, B>(
    families: Seq<SelectorFamilyMatch<E, B>>,
    runs: Seq<RunView>,
    idx: Seq<Seq<int>>,
    k: int,
) -> (r: (int, int))
    requires
        families_list(families, runs, idx),
        0 <= k < runs.len(),
    ensures
        0 <= r.0 < families.len(),
        0 <= r.1 < families[r.0].runs@.len(),
        idx[r.0][r.1] == k,
        runs[k] == run_view(
            families[r.0].query.view(),
            families[r.0].combination_len,
            families[r.0].runs@[r.1],
        ),
{
    assert(owned(families, idx, k));
    let (f, j) = choose|f: int, j: int|
        0 <= f < families.len() && 0 <= j < families[f].runs@.len() && #[trigger] idx[f][j] == k;
    assert(families[f].runs@[j] == families[f].runs@[j]);
    (f, j)
}

proof fn lemma_same_key<E, B>(
    families: Seq<SelectorFamilyMatch<E, B>>,
    runs: Seq<RunView>,
    idx: Seq<Seq<int>>,
    f: int,
    g: int,
)
    requires
        families_list(families, runs, idx),
        0 <= f < families.len(),
        0 <= g < families.len(),
        families[f].query.view() == families[g].query.view(),
        families[f].combination_len == families[g].combination_len,
    ensures
        f == g,
{
    if f < g {
        assert(families[f].query.view() != families[g].query.view() || families[f].combination_len
            != families[g].combination_len);
    }
    if g < f {
        assert(families[g].query.view() != families[f].query.view() || families[g].combination_len
            != families[f].combination_len);
    }
}

proof fn lemma_unsorted_incomplete<E, B>(
    families: Seq<SelectorFamilyMatch<E, B>>,
    runs: Seq<RunView>,
    idx: Seq<Seq<int>>,
    f: int,
)
    requires
        families_list(families, runs, idx),
        0 <= f < families.len(),
        forall|k: int|
            0 <= k < runs.len() ==> 1 <= (#[trigger] runs[k]).root <= runs[k].len,
        ({
            let fam = families[f];
            ||| exists|i: int|
                0 <= i < fam.runs@.len() && !(1 <= (#[trigger] fam.runs@[i]).assigned_root
                    <= fam.combination_len)
            ||| exists|i: int, j: int|
                0 <= i < j < fam.runs@.len() && (#[trigger] fam.runs@[i]).assigned_root == (
                #[trigger] fam.runs@[j]).assigned_root
            ||| exists|root: int|
                1 <= root <= fam.combination_len && #[trigger] root_missing(fam.runs@, root)
        }),
    ensures
        !complete_family(runs, families[f].query.view(), families[f].combination_len as int),
{
    let fam = families[f];
    let (query, len) = (fam.query.view(), fam.combination_len as int);
    if complete_family(runs, query, len) {
        assert forall|i: int| 0 <= i < fam.runs@.len() implies 1 <= (
        #[trigger] fam.runs@[i]).assigned_root <= len by {
            assert(families[f].runs@[i] == fam.runs@[i]);
            assert(1 <= runs[idx[f][i]].root <= runs[idx[f][i]].len);
        }
        assert forall|i: int, j: int| 0 <= i < j < fam.runs@.len() implies (
        #[trigger] fam.runs@[i]).assigned_root != (#[trigger] fam.runs@[j]).assigned_root by {
            assert(families[f].runs@[i] == fam.runs@[i]);
            assert(families[f].runs@[j] == fam.runs@[j]);
            let (k, l) = (idx[f][i], idx[f][j]);
            assert(k != l);
            assert(in_family(runs[k], query, len) && in_family(runs[l], query, len));
            if k < l {
                assert(runs[k].root != runs[l].root);
            } else {
                assert(runs[l].root != runs[k].root);
            }
        }
        let root = choose|root: int|
            1 <= root <= fam.combination_len && #[trigger] root_missing(fam.runs@, root);
        assert(has_run(runs, query, len, root));
        let k = choose|k: int|
            0 <= k < runs.len() && in_family(#[trigger] runs[k], query, len) && runs[k].root == root;
        let (g, j) = lemma_run_owner(families, runs, idx, k);
        lemma_same_key(families, runs, idx, f, g);
        assert(fam.runs@[j].assigned_root == root);
    }
}

} // verus!
