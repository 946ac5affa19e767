//! Selectors of a shared column that were evaluated beforehand.
use crate::arith;
use crate::ast;
use crate::ast::{Ast, AstLeaf, AstMul, AstOp, AstView, IndexedLeaf, RowEnv, share};
use crate::field::Field;
use crate::shapes;
use crate::shapes::compressed_selector;
use crate::values;
use std::sync::Arc;
use vstd::prelude::*;

verus! {

/// A selector of a combined column, and the polynomial that holds its values.
pub struct CompressedSelectorLeaf<E, B> {
    pub query: AstLeaf<E, B>,
    pub combination_len: usize,
    pub assigned_root: usize,
    pub selector: AstLeaf<E, B>,
}

/// A selector without the type of its evaluator.
#[derive(Clone, Copy, Debug, PartialEq, Eq, Structural)]
pub struct CompressedSelectorShape {
    pub query: IndexedLeaf,
    pub combination_len: usize,
    pub assigned_root: usize,
    pub selector: IndexedLeaf,
}

impl<E, B> CompressedSelectorLeaf<E, B> {
    pub open spec fn view(&self) -> CompressedSelectorShape {
        CompressedSelectorShape {
            query: self.query.view(),
            combination_len: self.combination_len,
            assigned_root: self.assigned_root,
            selector: self.selector.view(),
        }
    }

    pub fn shape(&self) -> (r: CompressedSelectorShape)
        ensures
            r == self.view(),
    {
        CompressedSelectorShape {
            query: self.query.indexed(),
            combination_len: self.combination_len,
            assigned_root: self.assigned_root,
            selector: self.selector.indexed(),
        }
    }
}

pub open spec fn selector_shapes<E, B>(s: Seq<CompressedSelectorLeaf<E, B>>) -> Seq<
    CompressedSelectorShape,
> {
    Seq::new(s.len(), |i: int| s[i].view())
}

/// The expression is that of the selector.
pub open spec fn selects(a: AstView, s: CompressedSelectorShape, p: int) -> bool {
    shapes::is_selector(a, s.query, s.combination_len as int, s.assigned_root as int, p)
}

/// The polynomial that holds the values of an expression, if it is a selector of the
/// list.
pub open spec fn selector_for(a: AstView, s: Seq<CompressedSelectorShape>, p: int) -> Option<
    IndexedLeaf,
>
    decreases s.len(),
{
    if s.len() == 0 {
        None
    } else if selects(a, s[0], p) {
        Some(s[0].selector)
    } else {
        selector_for(a, s.skip(1), p)
    }
}

/// The expression with the selectors of the list replaced.
pub open spec fn replaced(a: AstView, s: Seq<CompressedSelectorShape>, p: int) -> AstView
    decreases a,
{
    match selector_for(a, s, p) {
        Some(leaf) => ast::poly_node(leaf),
        None => AstView { op: a.op, children: all_replaced(a.children, s, p) },
    }
}

pub open spec fn all_replaced(c: Seq<AstView>, s: Seq<CompressedSelectorShape>, p: int) -> Seq<
    AstView,
>
    decreases c,
{
    if c.len() == 0 {
        Seq::empty()
    } else {
        all_replaced(c.drop_last(), s, p).push(replaced(c.last(), s, p))
    }
}

/// No source that was reused for a selector is read outside of a replaced selector.
pub open spec fn sources_gone(
    a: AstView,
    s: Seq<CompressedSelectorShape>,
    reused: Seq<usize>,
    p: int,
) -> bool
    decreases a,
{
    selector_for(a, s, p) is Some || {
        &&& (a.op matches AstOp::Poly(leaf) ==> !reused.contains(leaf.index))
        &&& all_sources_gone(a.children, s, reused, p)
    }
}

pub open spec fn all_sources_gone(
    c: Seq<AstView>,
    s: Seq<CompressedSelectorShape>,
    reused: Seq<usize>,
    p: int,
) -> bool
    decreases c,
{
    c.len() == 0 || (all_sources_gone(c.drop_last(), s, reused, p) && sources_gone(
        c.last(),
        s,
        reused,
        p,
    ))
}

/// Whether the expression, or one below it, is one of the selectors.
pub open spec fn has_selector(a: AstView, s: Seq<CompressedSelectorShape>, p: int) -> bool
    decreases a,
{
    selector_for(a, s, p) is Some || any_has_selector(a.children, s, p)
}

pub open spec fn any_has_selector(c: Seq<AstView>, s: Seq<CompressedSelectorShape>, p: int) -> bool
    decreases c,
{
    c.len() > 0 && (any_has_selector(c.drop_last(), s, p) || has_selector(c.last(), s, p))
}

proof fn lemma_any_has_selector(c: Seq<AstView>, s: Seq<CompressedSelectorShape>, p: int, n: int)
    requires
        0 <= n <= c.len(),
    ensures
        any_has_selector(c.take(n), s, p) <==> exists|i: int|
            0 <= i < n && #[trigger] has_selector(c[i], s, p),
    decreases n,
{
    if n > 0 {
        lemma_any_has_selector(c, s, p, n - 1);
        let t = c.take(n);
        assert(t.drop_last() =~= c.take(n - 1));
        assert(t.last() == c[n - 1]);
        assert(any_has_selector(t, s, p) == (any_has_selector(t.drop_last(), s, p)
            || has_selector(t.last(), s, p)));
        if any_has_selector(t.drop_last(), s, p) {
            let i = choose|i: int| 0 <= i < n - 1 && #[trigger] has_selector(c[i], s, p);
            assert(has_selector(c[i], s, p));
        }
        if exists|i: int| 0 <= i < n && #[trigger] has_selector(c[i], s, p) {
            let i = choose|i: int| 0 <= i < n && #[trigger] has_selector(c[i], s, p);
            if i < n - 1 {
                assert(has_selector(c[i], s, p));
            }
        }
    } else {
        assert(c.take(n).len() == 0);
    }
}

proof fn lemma_all_sources_gone(
    c: Seq<AstView>,
    s: Seq<CompressedSelectorShape>,
    reused: Seq<usize>,
    p: int,
    i: int,
)
    requires
        all_sources_gone(c, s, reused, p),
        0 <= i < c.len(),
    ensures
        sources_gone(c[i], s, reused, p),
    decreases c.len(),
{
    if i < c.len() - 1 {
        lemma_all_sources_gone(c.drop_last(), s, reused, p, i);
    }
}

pub proof fn lemma_all_replaced(c: Seq<AstView>, s: Seq<CompressedSelectorShape>, p: int)
    ensures
        all_replaced(c, s, p).len() == c.len(),
        forall|i: int|
            0 <= i < c.len() ==> #[trigger] all_replaced(c, s, p)[i] == replaced(c[i], s, p),
    decreases c.len(),
{
    if c.len() > 0 {
        lemma_all_replaced(c.drop_last(), s, p);
    }
}

/// Replacing selectors does not make an expression larger.
pub proof fn lemma_replaced_size(a: AstView, s: Seq<CompressedSelectorShape>, p: int)
    ensures
        ast::ast_size(replaced(a, s, p)) <= ast::ast_size(a),
        ast::product_free(a) ==> ast::product_free(replaced(a, s, p)),
    decreases a,
{
    lemma_all_replaced_size(a.children, s, p);
    if selector_for(a, s, p) is Some {
        let leaf = selector_for(a, s, p)->0;
        assert(ast::ast_sizes(ast::poly_node(leaf).children) == 0);
    }
}

proof fn lemma_all_replaced_size(c: Seq<AstView>, s: Seq<CompressedSelectorShape>, p: int)
    ensures
        ast::ast_sizes(all_replaced(c, s, p)) <= ast::ast_sizes(c),
        ast::all_product_free(c) ==> ast::all_product_free(all_replaced(c, s, p)),
    decreases c,
{
    if c.len() > 0 {
        lemma_all_replaced_size(c.drop_last(), s, p);
        lemma_replaced_size(c.last(), s, p);
        let t = all_replaced(c, s, p);
        assert(t.drop_last() =~= all_replaced(c.drop_last(), s, p));
    }
}

/// The polynomial of the selector holds its values at this row.
pub open spec fn selector_holds(s: CompressedSelectorShape, env: RowEnv) -> bool {
    arith::eqm(
        (env.leaf)(s.selector),
        (env.leaf)(s.query) * values::other_factors(
            s.combination_len as nat,
            s.assigned_root as int,
            (env.leaf)(s.query),
        ),
        env.p,
    )
}

/// Replacing selectors by polynomials that hold their values keeps the value of an
/// expression.
pub proof fn law_replaced_selectors_keep_values(
    a: AstView,
    s: Seq<CompressedSelectorShape>,
    env: RowEnv,
)
    requires
        env.p > 2,
        env.unit == 1,
        forall|i: int| 0 <= i < s.len() ==> #[trigger] selector_holds(s[i], env),
    ensures
        ast::ast_value(replaced(a, s, env.p), env) == ast::ast_value(a, env),
    decreases a,
{
    match selector_for(a, s, env.p) {
        Some(leaf) => {
            lemma_selector_value_for(a, s, env);
        },
        None => {
            lemma_replaced_values(a.children, s, env);
        },
    }
}

proof fn lemma_replaced_values(c: Seq<AstView>, s: Seq<CompressedSelectorShape>, env: RowEnv)
    requires
        env.p > 2,
        env.unit == 1,
        forall|i: int| 0 <= i < s.len() ==> #[trigger] selector_holds(s[i], env),
    ensures
        ast::ast_values(all_replaced(c, s, env.p), env) == ast::ast_values(c, env),
    decreases c,
{
    if c.len() > 0 {
        lemma_replaced_values(c.drop_last(), s, env);
        law_replaced_selectors_keep_values(c.last(), s, env);
        let t = all_replaced(c, s, env.p);
        assert(t.drop_last() =~= all_replaced(c.drop_last(), s, env.p));
    }
}

proof fn lemma_selector_value_for(a: AstView, s: Seq<CompressedSelectorShape>, env: RowEnv)
    requires
        env.p > 2,
        env.unit == 1,
        forall|i: int| 0 <= i < s.len() ==> #[trigger] selector_holds(s[i], env),
        selector_for(a, s, env.p) is Some,
    ensures
        ast::ast_value(ast::poly_node(selector_for(a, s, env.p)->0), env) == ast::ast_value(a, env),
    decreases s.len(),
{
    if selects(a, s[0], env.p) {
        let x = s[0];
        assert(selector_holds(x, env));
        values::lemma_selector_value(x.query, x.combination_len as nat, x.assigned_root as int, env);
        arith::lemma_mod_range(ast::ast_combine(a.op, ast::ast_values(a.children, env), env), env.p);
        arith::lemma_mod_small(ast::ast_value(a, env), env.p);
    } else {
        assert forall|i: int| 0 <= i < s.skip(1).len() implies #[trigger] selector_holds(
            s.skip(1)[i],
            env,
        ) by {
            assert(selector_holds(s[i + 1], env));
        }
        lemma_selector_value_for(a, s.skip(1), env);
    }
}

/// A selector expression names its column, its combination and its root.
proof fn lemma_selector_unique(
    a: AstView,
    q: IndexedLeaf,
    n: int,
    r: int,
    t: IndexedLeaf,
    m: int,
    u: int,
    p: int,
)
    requires
        shapes::is_selector(a, q, n, r, p),
        shapes::is_selector(a, t, m, u, p),
        n < p,
        m < p,
    ensures
        q == t,
        n == m,
        r == u,
{
    shapes::lemma_root_product_injective(q, shapes::other_roots(n as nat, r, p), t, shapes::other_roots(m as nat, u, p), p);
    lemma_other_roots(n as nat, r, p);
    lemma_other_roots(m as nat, u, p);
    if r < u {
        assert(shapes::other_roots(n as nat, r, p)[r - 1] == r + 1);
        assert(shapes::other_roots(m as nat, u, p)[r - 1] == r);
    } else if u < r {
        assert(shapes::other_roots(n as nat, r, p)[u - 1] == u);
        assert(shapes::other_roots(m as nat, u, p)[u - 1] == u + 1);
    }
}

proof fn lemma_other_roots(n: nat, r: int, p: int)
    requires
        n < p,
        1 <= r,
    ensures
        shapes::other_roots(n, r, p).len() == (if r <= n {
            n - 1
        } else {
            n as int
        }),
        forall|i: int|
            0 <= i < shapes::other_roots(n, r, p).len() ==> #[trigger] shapes::other_roots(n, r, p)[i] == (if i + 1
                < r {
                i + 1
            } else {
                i + 2
            }),
    decreases n,
{
    if n > 0 {
        lemma_other_roots((n - 1) as nat, r, p);
        arith::lemma_mod_small(n as int, p);
    }
}

/// The polynomial that stands for a selector expression.
fn find_selector<E, F: Field, B>(
    ast: &Ast<E, F, B>,
    selectors: &Vec<CompressedSelectorLeaf<E, B>>,
) -> (r: Option<AstLeaf<E, B>>)
    requires
        ast::ast_size(ast.view()) < usize::MAX,
    ensures
        r is Some <==> selector_for(ast.view(), selector_shapes(selectors@), F::order()) is Some,
        r matches Some(leaf) ==> selector_for(
            ast.view(),
            selector_shapes(selectors@),
            F::order(),
        ) == Some(leaf.view()),
{
    let ghost shapes = selector_shapes(selectors@);
    let ghost p = F::order();
    let ghost a = ast.view();
    let minus_one = F::one().neg();
    proof {
        ast::lemma_minus_one::<F>();
        F::lemma_order();
    }
    let found = compressed_selector(ast, minus_one);
    let mut i: usize = 0;
    assert(shapes.skip(0) =~= shapes);
    while i < selectors.len()
        invariant
            i <= selectors@.len(),
            shapes == selector_shapes(selectors@),
            p == F::order(),
            p > u64::MAX,
            a == ast.view(),
            selector_for(a, shapes.skip(i as int), p) == selector_for(a, shapes, p),
            found matches Some((query, len, root)) ==> shapes::is_selector(
                a,
                query.view(),
                len as int,
                root as int,
                p,
            ),
            found is None ==> forall|query: IndexedLeaf, len: int, root: int|
                !#[trigger] shapes::is_selector(a, query, len, root, p),
        decreases selectors@.len() - i,
    {
        let s = &selectors[i];
        proof {
            let rest = shapes.skip(i as int);
            assert(rest[0] == s.view());
            assert(rest.skip(1) =~= shapes.skip(i + 1));
        }
        if let Some((query, len, root)) = found {
            if s.query.equals(query) && s.combination_len == len && s.assigned_root == root {
                return Some(s.selector);
            }
            proof {
                if selects(a, s.view(), p) {
                    lemma_selector_unique(
                        a,
                        query.view(),
                        len as int,
                        root as int,
                        s.query.view(),
                        s.combination_len as int,
                        s.assigned_root as int,
                        p,
                    );
                }
            }
        }
        i += 1;
    }
    assert(shapes.skip(i as int) =~= Seq::<CompressedSelectorShape>::empty());
    None
}

fn holds_index(list: &Vec<usize>, index: usize) -> (r: bool)
    ensures
        r <==> list@.contains(index),
{
    let mut i: usize = 0;
    while i < list.len()
        invariant
            i <= list@.len(),
            forall|k: int| 0 <= k < i ==> #[trigger] list@[k] != index,
        decreases list@.len() - i,
    {
        if list[i] == index {
            return true;
        }
        i += 1;
    }
    false
}

/// Adds a source to the list of those that hold a selector.
pub fn record_source(list: &mut Vec<usize>, index: usize)
    ensures
        final(list)@ == (if old(list)@.contains(index) {
            old(list)@
        } else {
            old(list)@.push(index)
        }),
{
    if !holds_index(list, index) {
        list.push(index);
    }
}

/// Replaces the selectors of the list. Returns `None` when the expression needs no
/// replacement, so that what holds it can keep it.
pub fn replace_selectors<E, F: Field, B>(
    ast: &Ast<E, F, B>,
    selectors: &Vec<CompressedSelectorLeaf<E, B>>,
    reused: &Vec<usize>,
) -> (r: Option<Ast<E, F, B>>)
    requires
        ast::ast_size(ast.view()) < usize::MAX,
        sources_gone(ast.view(), selector_shapes(selectors@), reused@, F::order()),
    ensures
        r matches Some(x) ==> x.view() == replaced(
            ast.view(),
            selector_shapes(selectors@),
            F::order(),
        ),
        r is Some <==> has_selector(ast.view(), selector_shapes(selectors@), F::order()),
        r is None ==> replaced(ast.view(), selector_shapes(selectors@), F::order()) == ast.view(),
    decreases ast, 1nat,
{
    let ghost s = selector_shapes(selectors@);
    let ghost p = F::order();
    if let Some(leaf) = find_selector(ast, selectors) {
        return Some(Ast::Poly(leaf));
    }
    match ast {
        Ast::Poly(_)
        | Ast::LinearTerm(_)
        | Ast::LinearChallengeTerm { .. }
        | Ast::ConstantTerm(_)
        | Ast::ChallengeTerm(_) => {
            assert(all_replaced(ast.view().children, s, p) =~= ast.view().children);
            None
        },
        Ast::Add(lhs, rhs) => {
            proof {
                lemma_pair_replaced(AstOp::Add, lhs.view(), rhs.view(), s, reused@, p);
            }
            match replace_pair(ast, lhs, rhs, selectors, reused) {
                None => None,
                Some((a, b)) => Some(Ast::Add(a, b)),
            }
        },
        Ast::Mul(AstMul(lhs, rhs)) => {
            proof {
                lemma_pair_replaced(AstOp::Mul, lhs.view(), rhs.view(), s, reused@, p);
            }
            match replace_pair(ast, lhs, rhs, selectors, reused) {
                None => None,
                Some((a, b)) => Some(Ast::Mul(AstMul(a, b))),
            }
        },
        Ast::Scale(inner, scalar) => {
            proof {
                let c = ast.view().children;
                assert(c == seq![inner.view()]);
                lemma_all_sources_gone(c, s, reused@, p, 0);
                lemma_ast_sizes_at(c, 0);
                lemma_all_replaced(c, s, p);
                assert(all_replaced(c, s, p) =~= seq![replaced(inner.view(), s, p)]);
                assert(c.drop_last() =~= Seq::<AstView>::empty());
                assert(!any_has_selector(c.drop_last(), s, p));
            }
            match replace_selectors(&**inner, selectors, reused) {
                None => None,
                Some(x) => Some(Ast::Scale(Arc::new(x), *scalar)),
            }
        },
        Ast::DistributePowers(terms, base) => {
            match replace_terms(terms, selectors, reused) {
                None => None,
                Some(list) => Some(Ast::DistributePowers(Arc::new(list), *base)),
            }
        },
        Ast::DistributeChallengePowers(terms, challenge) => {
            match replace_terms(terms, selectors, reused) {
                None => None,
                Some(list) => Some(Ast::DistributeChallengePowers(Arc::new(list), *challenge)),
            }
        },
    }
}

pub proof fn lemma_ast_sizes_at(s: Seq<AstView>, i: int)
    requires
        0 <= i < s.len(),
    ensures
        ast::ast_size(s[i]) <= ast::ast_sizes(s),
    decreases s.len(),
{
    if i < s.len() - 1 {
        lemma_ast_sizes_at(s.drop_last(), i);
    }
}

proof fn lemma_pair_replaced(
    op: AstOp,
    a: AstView,
    b: AstView,
    s: Seq<CompressedSelectorShape>,
    reused: Seq<usize>,
    p: int,
)
    ensures
        all_replaced(seq![a, b], s, p) == seq![replaced(a, s, p), replaced(b, s, p)],
        any_has_selector(seq![a, b], s, p) <==> has_selector(a, s, p) || has_selector(b, s, p),
        all_sources_gone(seq![a, b], s, reused, p) ==> sources_gone(a, s, reused, p)
            && sources_gone(b, s, reused, p),
        ast::ast_size(a) <= ast::ast_sizes(seq![a, b]),
        ast::ast_size(b) <= ast::ast_sizes(seq![a, b]),
{
    let c = seq![a, b];
    lemma_any_has_selector(c, s, p, 2);
    assert(c.take(2) =~= c);
    assert(c[0] == a && c[1] == b);
    lemma_all_replaced(c, s, p);
    assert(all_replaced(c, s, p) =~= seq![replaced(a, s, p), replaced(b, s, p)]);
    if all_sources_gone(c, s, reused, p) {
        lemma_all_sources_gone(c, s, reused, p, 0);
        lemma_all_sources_gone(c, s, reused, p, 1);
    }
    lemma_ast_sizes_at(c, 0);
    lemma_ast_sizes_at(c, 1);
}

/// Replaces the selectors of two operands.
fn replace_pair<E, F: Field, B>(
    whole: &Ast<E, F, B>,
    lhs: &Arc<Ast<E, F, B>>,
    rhs: &Arc<Ast<E, F, B>>,
    selectors: &Vec<CompressedSelectorLeaf<E, B>>,
    reused: &Vec<usize>,
) -> (r: Option<(Arc<Ast<E, F, B>>, Arc<Ast<E, F, B>>)>)
    requires
        ast::ast_size(lhs.view()) < usize::MAX,
        ast::ast_size(rhs.view()) < usize::MAX,
        sources_gone(lhs.view(), selector_shapes(selectors@), reused@, F::order()),
        sources_gone(rhs.view(), selector_shapes(selectors@), reused@, F::order()),
        decreases_to!(*whole => **lhs),
        decreases_to!(*whole => **rhs),
    ensures
        r matches Some((a, b)) ==> {
            &&& a.view() == replaced(lhs.view(), selector_shapes(selectors@), F::order())
            &&& b.view() == replaced(rhs.view(), selector_shapes(selectors@), F::order())
        },
        r is Some <==> has_selector(lhs.view(), selector_shapes(selectors@), F::order())
            || has_selector(rhs.view(), selector_shapes(selectors@), F::order()),
        r is None ==> {
            &&& replaced(lhs.view(), selector_shapes(selectors@), F::order()) == lhs.view()
            &&& replaced(rhs.view(), selector_shapes(selectors@), F::order()) == rhs.view()
        },
    decreases whole, 0nat,
{
    let a = replace_selectors(&**lhs, selectors, reused);
    let b = replace_selectors(&**rhs, selectors, reused);
    if a.is_none() && b.is_none() {
        return None;
    }
    let a = match a {
        Some(x) => Arc::new(x),
        None => share(lhs),
    };
    let b = match b {
        Some(x) => Arc::new(x),
        None => share(rhs),
    };
    Some((a, b))
}

/// Replaces the selectors of terms.
fn replace_terms<E, F: Field, B>(
    terms: &Vec<Ast<E, F, B>>,
    selectors: &Vec<CompressedSelectorLeaf<E, B>>,
    reused: &Vec<usize>,
) -> (r: Option<Vec<Ast<E, F, B>>>)
    requires
        ast::ast_sizes(ast::ast_views(terms@)) < usize::MAX,
        all_sources_gone(ast::ast_views(terms@), selector_shapes(selectors@), reused@, F::order()),
    ensures
        r matches Some(list) ==> ast::ast_views(list@) == all_replaced(
            ast::ast_views(terms@),
            selector_shapes(selectors@),
            F::order(),
        ),
        r is Some <==> any_has_selector(
            ast::ast_views(terms@),
            selector_shapes(selectors@),
            F::order(),
        ),
        r is None ==> all_replaced(ast::ast_views(terms@), selector_shapes(selectors@), F::order())
            == ast::ast_views(terms@),
    decreases terms, 0nat,
{
    let ghost s = selector_shapes(selectors@);
    let ghost p = F::order();
    let ghost views = ast::ast_views(terms@);
    let ghost goal = all_replaced(views, s, p);
    let mut output: Option<Vec<Ast<E, F, B>>> = None;
    let mut i: usize = 0;
    proof {
        ast::lemma_ast_views(terms@);
        lemma_all_replaced(views, s, p);
    }
    while i < terms.len()
        invariant
            i <= terms@.len(),
            decreases_to!(*terms => terms@),
            views == ast::ast_views(terms@),
            views.len() == terms@.len(),
            forall|k: int| 0 <= k < terms@.len() ==> #[trigger] views[k] == terms@[k].view(),
            s == selector_shapes(selectors@),
            p == F::order(),
            goal == all_replaced(views, s, p),
            goal.len() == views.len(),
            forall|k: int| 0 <= k < views.len() ==> #[trigger] goal[k] == replaced(views[k], s, p),
            ast::ast_sizes(views) < usize::MAX,
            all_sources_gone(views, s, reused@, p),
            output is None ==> forall|k: int| 0 <= k < i ==> #[trigger] goal[k] == views[k],
            output is Some <==> any_has_selector(views.take(i as int), s, p),
            output matches Some(list) ==> list@.len() == i && forall|k: int|
                0 <= k < i ==> (#[trigger] list@[k]).view() == goal[k],
        decreases terms@.len() - i,
    {
        proof {
            lemma_all_sources_gone(views, s, reused@, p, i as int);
            lemma_ast_sizes_at(views, i as int);
            assert(views[i as int] == terms@[i as int].view());
            assert(goal[i as int] == replaced(views[i as int], s, p));
            assert(views.take(i + 1).drop_last() =~= views.take(i as int));
            assert(views.take(i + 1).last() == views[i as int]);
        }
        let replacement = replace_selectors(&terms[i], selectors, reused);
        match output {
            None => {
                match replacement {
                    None => {
                        output = None;
                    },
                    Some(x) => {
                        let mut list = copy_terms(terms, i);
                        list.push(x);
                        output = Some(list);
                    },
                }
            },
            Some(list0) => {
                let mut list = list0;
                match replacement {
                    None => {
                        list.push(terms[i].clone());
                    },
                    Some(x) => {
                        list.push(x);
                    },
                }
                output = Some(list);
            },
        }
        i += 1;
    }
    proof {
        assert(views.take(i as int) =~= views);
        if output is None {
            assert(goal =~= views);
        } else {
            ast::lemma_ast_views(output->0@);
            assert(ast::ast_views(output->0@) =~= goal);
        }
    }
    output
}

/// The first terms.
fn copy_terms<E, F: Field, B>(terms: &Vec<Ast<E, F, B>>, n: usize) -> (r: Vec<Ast<E, F, B>>)
    requires
        n <= terms@.len(),
    ensures
        r@.len() == n,
        forall|k: int| 0 <= k < n ==> (#[trigger] r@[k]).view() == terms@[k].view(),
{
    let mut r: Vec<Ast<E, F, B>> = Vec::with_capacity(terms.len());
    let mut i: usize = 0;
    while i < n
        invariant
            i <= n <= terms@.len(),
            r@.len() == i,
            forall|k: int| 0 <= k < i ==> (#[trigger] r@[k]).view() == terms@[k].view(),
        decreases n - i,
    {
        r.push(terms[i].clone());
        i += 1;
    }
    r
}

} // verus!
