//! Identities between the values of expressions and of the pieces of a plan.
use crate::arith;
use crate::ast;
use crate::ast::{AstView, IndexedLeaf, RowEnv};
use crate::plan;
use crate::shapes;
use vstd::arithmetic::mul::*;
use vstd::arithmetic::power::*;
use vstd::prelude::*;

verus! {

/// The claimed terms among `v`, weighted by the powers that their positions have in
/// a distribution of `n` terms.
pub open spec fn claimed_sum(v: Seq<int>, claimed: Seq<bool>, b: int, n: int) -> int
    decreases v.len(),
{
    if v.len() == 0 {
        0
    } else {
        claimed_sum(v.drop_last(), claimed.drop_last(), b, n) + (if claimed.last() {
            v.last() * pow(b, (n - v.len()) as nat)
        } else {
            0
        })
    }
}

pub proof fn lemma_claim(v: Seq<int>, claimed: Seq<bool>, b: int, n: int, i: int)
    requires
        v.len() == claimed.len(),
        v.len() <= n,
        0 <= i < v.len(),
        !claimed[i],
    ensures
        claimed_sum(v, claimed.update(i, true), b, n) == claimed_sum(v, claimed, b, n) + v[i] * pow(
            b,
            (n - 1 - i) as nat,
        ),
    decreases v.len(),
{
    let after = claimed.update(i, true);
    if i == v.len() - 1 {
        assert(after.drop_last() =~= claimed.drop_last());
    } else {
        assert(after.drop_last() =~= claimed.drop_last().update(i, true));
        lemma_claim(v.drop_last(), claimed.drop_last(), b, n, i);
    }
}

pub proof fn lemma_none_claimed(v: Seq<int>, claimed: Seq<bool>, b: int, n: int)
    requires
        v.len() == claimed.len(),
        forall|i: int| 0 <= i < claimed.len() ==> !#[trigger] claimed[i],
    ensures
        claimed_sum(v, claimed, b, n) == 0,
    decreases v.len(),
{
    if v.len() > 0 {
        lemma_none_claimed(v.drop_last(), claimed.drop_last(), b, n);
    }
}

pub proof fn lemma_all_claimed(v: Seq<int>, claimed: Seq<bool>, b: int, n: int)
    requires
        v.len() == claimed.len(),
        v.len() <= n,
        forall|i: int| 0 <= i < claimed.len() ==> #[trigger] claimed[i],
    ensures
        claimed_sum(v, claimed, b, n) == arith::descending(v, b) * pow(b, (n - v.len()) as nat),
    decreases v.len(),
{
    if v.len() == 0 {
        lemma_mul_basics(pow(b, n as nat));
    } else {
        lemma_all_claimed(v.drop_last(), claimed.drop_last(), b, n);
        let e = (n - v.len()) as nat;
        arith::lemma_pow_step(b, e);
        let d = arith::descending(v.drop_last(), b);
        let t = v.last();
        let w = pow(b, e);
        assert(d * (b * w) + t * w == (d * b + t) * w) by (nonlinear_arith);
    }
}

/// One more term of a shared factor `f`: the term at position `i` is `f * g`.
pub proof fn lemma_shared_piece(f: int, w: int, d: int, g: int, s: int, t: int, power: int, p: int)
    requires
        p > 0,
        arith::eqm(f * w, d, p),
        arith::eqm(t, f * g, p),
        arith::eqm(s, power, p),
    ensures
        arith::eqm(f * (w + g * s), d + t * power, p),
{
    arith::lemma_eqm_mul(t, f * g, power, s, p);
    arith::lemma_eqm_add(f * w, d, (f * g) * s, t * power, p);
    assert(f * (w + g * s) == f * w + (f * g) * s) by (nonlinear_arith);
}

/// `product of (i - q)` over the roots `1 ..= n` but `j`.
pub open spec fn other_factors(n: nat, j: int, q: int) -> int
    decreases n,
{
    if n == 0 {
        1
    } else if n == j {
        other_factors((n - 1) as nat, j, q)
    } else {
        other_factors((n - 1) as nat, j, q) * (n - q)
    }
}

pub proof fn lemma_other_factors_all(n: nat, j: int, q: int)
    requires
        j > n,
    ensures
        other_factors(n, j, q) == plan::root_factors(n, q),
    decreases n,
{
    if n > 0 {
        lemma_other_factors_all((n - 1) as nat, j, q);
    }
}

/// The first selectors of a combination of `n`, weighted.
pub open spec fn partial_family(w: Seq<int>, n: nat, q: int) -> int
    decreases w.len(),
{
    if w.len() == 0 {
        0
    } else {
        partial_family(w.drop_last(), n, q) + w.last() * other_factors(n, w.len() as int, q)
    }
}

proof fn lemma_partial_family_step(w: Seq<int>, n: nat, q: int)
    requires
        w.len() <= n,
    ensures
        partial_family(w, n + 1, q) == partial_family(w, n, q) * (n + 1 - q),
    decreases w.len(),
{
    if w.len() > 0 {
        lemma_partial_family_step(w.drop_last(), n, q);
        let a = partial_family(w.drop_last(), n, q);
        let o = other_factors(n, w.len() as int, q);
        let k = n + 1 - q;
        let t = w.last();
        assert(other_factors(n + 1, w.len() as int, q) == o * k);
        assert(a * k + t * (o * k) == (a + t * o) * k) by (nonlinear_arith);
    } else {
        lemma_mul_basics(n + 1 - q);
    }
}

pub proof fn lemma_family_sum(w: Seq<int>, q: int)
    ensures
        partial_family(w, w.len(), q) == plan::family_sum(w, q),
    decreases w.len(),
{
    if w.len() > 0 {
        let m = (w.len() - 1) as nat;
        lemma_family_sum(w.drop_last(), q);
        lemma_partial_family_step(w.drop_last(), m, q);
        assert(other_factors(w.len(), w.len() as int, q) == other_factors(m, w.len() as int, q));
        lemma_other_factors_all(m, w.len() as int, q);
    }
}

/// The value of `query * (roots[0] - query) * ..`.
pub open spec fn root_product_value(q: int, roots: Seq<int>) -> int
    decreases roots.len(),
{
    if roots.len() == 0 {
        q
    } else {
        root_product_value(q, roots.drop_last()) * (roots.last() - q)
    }
}

pub proof fn lemma_pair_values(a: AstView, b: AstView, env: RowEnv)
    ensures
        ast::ast_values(seq![a, b], env) == seq![ast::ast_value(a, env), ast::ast_value(b, env)],
        ast::ast_values(seq![a], env) == seq![ast::ast_value(a, env)],
        ast::ast_values(Seq::<AstView>::empty(), env) == Seq::<int>::empty(),
{
    ast::lemma_ast_values(seq![a, b], env);
    ast::lemma_ast_values(seq![a], env);
    assert(ast::ast_values(seq![a, b], env) =~= seq![ast::ast_value(a, env), ast::ast_value(b, env)]);
    assert(ast::ast_values(seq![a], env) =~= seq![ast::ast_value(a, env)]);
}

pub proof fn lemma_difference_value(root: int, query: IndexedLeaf, env: RowEnv)
    requires
        env.p > 2,
        env.unit == 1,
    ensures
        arith::eqm(
            ast::ast_value(shapes::difference_node(root, query, env.p), env),
            root - (env.leaf)(query),
            env.p,
        ),
{
    let p = env.p;
    let q = (env.leaf)(query);
    let c = ast::constant_node(root);
    let s = ast::scale_node(ast::poly_node(query), p - 1);
    lemma_pair_values(c, s, env);
    lemma_pair_values(ast::poly_node(query), ast::poly_node(query), env);
    let cv = ast::ast_value(c, env);
    let sv = ast::ast_value(s, env);
    let qv = ast::ast_value(ast::poly_node(query), env);
    assert(cv == root % p) by {
        lemma_mul_basics(root);
    }
    assert(qv == q % p);
    assert(sv == (qv * (p - 1)) % p);
    arith::lemma_mod_range(root, p);
    arith::lemma_mod_range(q, p);
    arith::lemma_eqm_mul(qv, q, p - 1, p - 1, p);
    arith::lemma_mod_range(qv * (p - 1), p);
    assert(arith::eqm(q * (p - 1), -q, p)) by {
        assert(q * (p - 1) == p * q + (-q)) by (nonlinear_arith);
        vstd::arithmetic::div_mod::lemma_mod_multiples_vanish(q, -q, p);
    }
    arith::lemma_eqm_add(cv, root, sv, -q, p);
    arith::lemma_mod_range(cv + sv, p);
}

pub proof fn lemma_root_product_value(query: IndexedLeaf, roots: Seq<int>, env: RowEnv)
    requires
        env.p > 2,
        env.unit == 1,
    ensures
        arith::eqm(
            ast::ast_value(shapes::root_product(query, roots, env.p), env),
            root_product_value((env.leaf)(query), roots),
            env.p,
        ),
    decreases roots.len(),
{
    let p = env.p;
    let q = (env.leaf)(query);
    if roots.len() == 0 {
        arith::lemma_mod_range(q, p);
    } else {
        lemma_root_product_value(query, roots.drop_last(), env);
        lemma_difference_value(roots.last(), query, env);
        let a = shapes::root_product(query, roots.drop_last(), p);
        let d = shapes::difference_node(roots.last(), query, p);
        lemma_pair_values(a, d, env);
        arith::lemma_eqm_mul(
            ast::ast_value(a, env),
            root_product_value(q, roots.drop_last()),
            ast::ast_value(d, env),
            roots.last() - q,
            p,
        );
        arith::lemma_mod_range(ast::ast_value(a, env) * ast::ast_value(d, env), p);
    }
}

proof fn lemma_other_roots_value(n: nat, j: int, q: int, p: int)
    requires
        p > 2,
    ensures
        arith::eqm(root_product_value(q, shapes::other_roots(n, j, p)), q * other_factors(n, j, q), p),
    decreases n,
{
    if n == 0 {
        lemma_mul_basics(q);
    } else {
        let m = (n - 1) as nat;
        lemma_other_roots_value(m, j, q, p);
        if n != j {
            let before = shapes::other_roots(m, j, p);
            let after = shapes::other_roots(n, j, p);
            assert(after.drop_last() =~= before);
            arith::lemma_mod_range(n as int, p);
            arith::lemma_eqm_sub(n as int % p, n as int, q, q, p);
            arith::lemma_eqm_mul(
                root_product_value(q, before),
                q * other_factors(m, j, q),
                n as int % p - q,
                n - q,
                p,
            );
            lemma_mul_is_associative(q, other_factors(m, j, q), n - q);
        }
    }
}

/// The value of a compressed selector.
pub proof fn lemma_selector_value(query: IndexedLeaf, len: nat, root: int, env: RowEnv)
    requires
        env.p > 2,
        env.unit == 1,
    ensures
        arith::eqm(
            ast::ast_value(shapes::selector_node(query, len as int, root, env.p), env),
            (env.leaf)(query) * other_factors(len, root, (env.leaf)(query)),
            env.p,
        ),
{
    lemma_root_product_value(query, shapes::other_roots(len, root, env.p), env);
    lemma_other_roots_value(len, root, (env.leaf)(query), env.p);
}

proof fn lemma_power_value(base: AstView, n: nat, env: RowEnv)
    requires
        env.p > 2,
        env.unit == 1,
    ensures
        arith::eqm(ast::ast_value(shapes::power_node(base, n), env), pow(ast::ast_value(base, env), n), env.p),
    decreases n,
{
    let p = env.p;
    let x = ast::ast_value(base, env);
    if n == 0 {
        lemma_pow0(x);
        arith::lemma_mod_range(1, p);
    } else {
        let m = (n - 1) as nat;
        lemma_power_value(base, m, env);
        arith::lemma_pow_step(x, m);
        lemma_pair_values(shapes::power_node(base, m), base, env);
        let a = ast::ast_value(shapes::power_node(base, m), env);
        arith::lemma_eqm_mul(a, pow(x, m), x, x, p);
        arith::lemma_mod_range(a * x, p);
    }
}

/// The value of an expanded polynomial.
pub proof fn lemma_expanded_value(base: AstView, coefficients: Seq<IndexedLeaf>, env: RowEnv)
    requires
        env.p > 2,
        env.unit == 1,
    ensures
        arith::eqm(
            ast::ast_value(shapes::expanded_node(base, coefficients), env),
            arith::poly_at(plan::leaf_values(coefficients, env), ast::ast_value(base, env)),
            env.p,
        ),
    decreases coefficients.len(),
{
    let p = env.p;
    let x = ast::ast_value(base, env);
    if coefficients.len() == 0 {
        assert(plan::leaf_values(coefficients, env) =~= Seq::<int>::empty());
        arith::lemma_mod_range(0, p);
    } else {
        let front = coefficients.drop_last();
        let e = front.len();
        let c = (env.leaf)(coefficients.last());
        lemma_expanded_value(base, front, env);
        lemma_power_value(base, e, env);
        let power = shapes::power_node(base, e);
        let leaf = ast::poly_node(coefficients.last());
        let term = ast::mul_node(power, leaf);
        let rest = shapes::expanded_node(base, front);
        lemma_pair_values(power, leaf, env);
        lemma_pair_values(rest, term, env);
        assert(ast::ast_value(leaf, env) == c % p);
        arith::lemma_mod_range(c, p);
        arith::lemma_eqm_mul(ast::ast_value(power, env), pow(x, e), ast::ast_value(leaf, env), c, p);
        lemma_mul_is_commutative(pow(x, e), c);
        arith::lemma_mod_range(ast::ast_value(power, env) * ast::ast_value(leaf, env), p);
        assert(plan::leaf_values(coefficients, env).drop_last() =~= plan::leaf_values(front, env));
        arith::lemma_eqm_add(
            ast::ast_value(rest, env),
            arith::poly_at(plan::leaf_values(front, env), x),
            ast::ast_value(term, env),
            c * pow(x, e),
            p,
        );
        arith::lemma_mod_range(ast::ast_value(rest, env) + ast::ast_value(term, env), p);
    }
}

} // verus!
