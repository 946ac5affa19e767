//! What the shapes that plans are built around are.
use crate::arith;
use crate::ast;
use crate::ast::{AstView, FactorSide, IndexedLeaf, RowEnv};
use crate::field::Field;
use crate::plan;
use crate::shapes;
use crate::shapes::FactorGroup;
use crate::sums;
use crate::values;
use vstd::arithmetic::power::*;
use vstd::prelude::*;

verus! {

/// A group lists at least two products, in order, each with the group's factor on the group's
/// side and the listed expression on the other.
pub proof fn law_group_of_products<'a, E, F: Field, B>(
    group: FactorGroup<'a, E, F, B>,
    views: Seq<AstView>,
    k: int,
    l: int,
)
    requires
        group.fits(views),
        0 <= k < l < group.terms@.len(),
    ensures
        group.terms@.len() >= 2,
        group.terms@[k].0 < group.terms@[l].0 < views.len(),
        ({
            let term = views[group.terms@[k].0 as int];
            &&& term.op is Mul
            &&& term.children.len() == 2
            &&& group.side is Left ==> term.children[0] == group.factor.view()
                && term.children[1] == group.terms@[k].1.view()
            &&& group.side is Right ==> term.children[1] == group.factor.view()
                && term.children[0] == group.terms@[k].1.view()
        }),
{
    let (a, b) = (group.terms@[k], group.terms@[l]);
}

/// Two products with the same first factor are in one group of first factors, and two with
/// the same second factor, neither of which is in such a group, are in one group of second
/// factors.
pub proof fn law_equal_factors_are_grouped<'a, E, F: Field, B>(
    groups: Seq<FactorGroup<'a, E, F, B>>,
    n: int,
    views: Seq<AstView>,
    i: int,
    j: int,
) -> (g: int)
    requires
        0 <= n <= groups.len(),
        shapes::side_complete(groups.take(n), 0, views, FactorSide::Left),
        shapes::side_complete(groups, n, views, FactorSide::Right),
        0 <= i < j < views.len(),
        views[i].op is Mul,
        views[j].op is Mul,
        views[i].children[0] == views[j].children[0] || (views[i].children[1]
            == views[j].children[1] && forall|h: int, k: int|
            0 <= h < n && 0 <= k < groups[h].terms@.len() ==> (#[trigger] groups[h].terms@[k]).0 != i
                && groups[h].terms@[k].0 != j),
    ensures
        0 <= g < groups.len(),
        views[i].children[0] == views[j].children[0] ==> g < n,
        views[i].children[0] != views[j].children[0] ==> n <= g,
        exists|k: int, l: int|
            0 <= k < groups[g].terms@.len() && 0 <= l < groups[g].terms@.len() && (
            #[trigger] groups[g].terms@[k]).0 == i && (#[trigger] groups[g].terms@[l]).0 == j,
{
    let (a, b) = (views[i], views[j]);
    let g = if a.children[0] == b.children[0] {
        let left = groups.take(n);
        assert(ast::has_factor(b, FactorSide::Left, ast::factor_of(a, FactorSide::Left)));
        let g = choose|g: int|
            0 <= g < left.len() && (#[trigger] left[g]).positions().contains(i)
                && left[g].positions().contains(j);
        assert(left[g] == groups[g]);
        g
    } else {
        assert(ast::has_factor(b, FactorSide::Right, ast::factor_of(a, FactorSide::Right)));
        assert forall|h: int| 0 <= h < n implies !(#[trigger] groups[h]).positions().contains(i)
            && !groups[h].positions().contains(j) by {
            let at = groups[h].positions();
            if at.contains(i) {
                let k = choose|k: int| 0 <= k < at.len() && at[k] == i;
                assert(groups[h].terms@[k].0 == i);
            }
            if at.contains(j) {
                let k = choose|k: int| 0 <= k < at.len() && at[k] == j;
                assert(groups[h].terms@[k].0 == j);
            }
        }
        assert(!shapes::grouped(groups, n, i));
        assert(!shapes::grouped(groups, n, j));
        choose|g: int|
            n <= g < groups.len() && (#[trigger] groups[g]).positions().contains(i)
                && groups[g].positions().contains(j)
    };
    let at = groups[g].positions();
    let k = choose|k: int| 0 <= k < at.len() && at[k] == i;
    let l = choose|l: int| 0 <= l < at.len() && at[l] == j;
    assert(groups[g].terms@[k].0 == i && groups[g].terms@[l].0 == j);
    g
}

/// An expanded polynomial is worth the sum of its coefficients, each times the power of the
/// base of its place.
pub proof fn law_expanded_polynomial(base: AstView, coefficients: Seq<IndexedLeaf>, env: RowEnv)
    requires
        env.p > 2,
        env.unit == 1,
    ensures
        ast::ast_value(shapes::expanded_node(base, coefficients), env) == Seq::new(
            coefficients.len(),
            |i: int| (env.leaf)(coefficients[i]) * pow(ast::ast_value(base, env), i as nat),
        ).fold_left(0int, |a: int, b: int| a + b) % env.p,
{
    let x = ast::ast_value(base, env);
    let v = plan::leaf_values(coefficients, env);
    let a = shapes::expanded_node(base, coefficients);
    values::lemma_expanded_value(base, coefficients, env);
    sums::law_polynomial_value(v, x);
    assert(Seq::new(v.len(), |i: int| v[i] * pow(x, i as nat)) =~= Seq::new(
        coefficients.len(),
        |i: int| (env.leaf)(coefficients[i]) * pow(ast::ast_value(base, env), i as nat),
    ));
    let w = ast::ast_combine(a.op, ast::ast_values(a.children, env), env);
    arith::lemma_mod_range(w, env.p);
}

} // verus!
