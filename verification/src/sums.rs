//! What the sums in the contracts are, written out term by term.
use crate::arith;
use crate::commit;
use crate::curve;
use crate::curve::CurveAffine;
use crate::field::Field;
use crate::multiexp;
use crate::poly;
use vstd::arithmetic::mul::*;
use vstd::arithmetic::power::*;
use vstd::prelude::*;

verus! {

/// The values of a list are those of its elements, place by place.
pub proof fn law_values<F: Field>(s: Seq<F>, i: int)
    requires
        0 <= i < s.len(),
    ensures
        poly::vals(s).len() == s.len(),
        poly::vals(s)[i] == s[i].val(),
{
}

/// The logarithms of a list of points are those of the points, place by place.
pub proof fn law_logs<C: CurveAffine>(points: Seq<C>, i: int)
    requires
        0 <= i < points.len(),
    ensures
        curve::logs(points).len() == points.len(),
        curve::logs(points)[i] == C::log_of(points[i].at()),
        curve::log(points[i]) == C::log_of(points[i].at()),
{
}

/// A sum adds every term.
pub proof fn law_sum(s: Seq<int>)
    ensures
        arith::seq_sum(s) == s.fold_left(0int, |a: int, b: int| a + b),
    decreases s.len(),
{
    if s.len() > 0 {
        law_sum(s.drop_last());
    }
}

/// The value of a polynomial is the sum of each coefficient times the power of its place.
pub proof fn law_polynomial_value(s: Seq<int>, x: int)
    ensures
        arith::poly_at(s, x) == Seq::new(s.len(), |i: int| s[i] * pow(x, i as nat)).fold_left(
            0int,
            |a: int, b: int| a + b,
        ),
    decreases s.len(),
{
    let t = Seq::new(s.len(), |i: int| s[i] * pow(x, i as nat));
    if s.len() > 0 {
        let f = s.drop_last();
        law_polynomial_value(f, x);
        assert(t.drop_last() =~= Seq::new(f.len(), |i: int| f[i] * pow(x, i as nat)));
    }
}

/// In a combination with descending powers the last term counts once, and each term before
/// it one power more than the next.
pub proof fn law_descending_powers(s: Seq<int>, x: int)
    ensures
        arith::descending(s, x) == Seq::new(
            s.len(),
            |j: int| s[j] * pow(x, (s.len() - 1 - j) as nat),
        ).fold_left(0int, |a: int, b: int| a + b),
    decreases s.len(),
{
    let t = Seq::new(s.len(), |j: int| s[j] * pow(x, (s.len() - 1 - j) as nat));
    if s.len() > 0 {
        let f = s.drop_last();
        law_descending_powers(f, x);
        let u = Seq::new(f.len(), |j: int| f[j] * pow(x, (f.len() - 1 - j) as nat));
        assert(t.drop_last() =~= Seq::new(u.len(), |j: int| u[j] * x)) by {
            assert forall|j: int| 0 <= j < u.len() implies t[j] == #[trigger] u[j] * x by {
                let e = (f.len() - 1 - j) as nat;
                arith::lemma_pow_step(x, e);
                let (a, b) = (f[j], pow(x, e));
                assert(a * (x * b) == (a * b) * x) by (nonlinear_arith);
            }
        }
        lemma_scaled_sum(u, x);
        lemma_pow0(x);
        lemma_mul_basics(s.last());
    }
}

proof fn lemma_scaled_sum(u: Seq<int>, x: int)
    ensures
        Seq::new(u.len(), |j: int| u[j] * x).fold_left(0int, |a: int, b: int| a + b)
            == u.fold_left(0int, |a: int, b: int| a + b) * x,
    decreases u.len(),
{
    let t = Seq::new(u.len(), |j: int| u[j] * x);
    if u.len() > 0 {
        let f = u.drop_last();
        lemma_scaled_sum(f, x);
        assert(t.drop_last() =~= Seq::new(f.len(), |j: int| f[j] * x));
        let a = f.fold_left(0int, |a: int, b: int| a + b);
        lemma_mul_is_distributive_add_other_way(x, a, u.last());
    } else {
        lemma_mul_basics(x);
    }
}

/// An inner product is the sum of the products of the terms at the same places.
pub proof fn law_inner_product(a: Seq<int>, b: Seq<int>)
    ensures
        multiexp::dot(a, b) == Seq::new(a.len(), |i: int| a[i] * b[i]).fold_left(
            0int,
            |s: int, t: int| s + t,
        ),
    decreases a.len(),
{
    let t = Seq::new(a.len(), |i: int| a[i] * b[i]);
    if a.len() > 0 {
        let f = a.drop_last();
        law_inner_product(f, b);
        assert(t.drop_last() =~= Seq::new(f.len(), |i: int| f[i] * b[i]));
    }
}

/// An inner product with a sparse vector is the sum of its terms, each times the entry that
/// it names.
pub proof fn law_sparse_inner_product<F: Field>(terms: Seq<(usize, F)>, bases: Seq<int>)
    ensures
        commit::sparse_dot(terms, bases) == Seq::new(
            terms.len(),
            |i: int| terms[i].1.val() * bases[terms[i].0 as int],
        ).fold_left(0int, |s: int, t: int| s + t),
    decreases terms.len(),
{
    let t = Seq::new(terms.len(), |i: int| terms[i].1.val() * bases[terms[i].0 as int]);
    if terms.len() > 0 {
        let f = terms.drop_last();
        law_sparse_inner_product(f, bases);
        assert(t.drop_last() =~= Seq::new(
            f.len(),
            |i: int| f[i].1.val() * bases[f[i].0 as int],
        ));
    }
}

/// The value of a sparse polynomial is the sum of its terms, each times the power that it
/// names.
pub proof fn law_sparse_polynomial_value<F: Field>(terms: Seq<(usize, F)>, x: int)
    ensures
        commit::sparse_at(terms, x) == Seq::new(
            terms.len(),
            |i: int| terms[i].1.val() * pow(x, terms[i].0 as nat),
        ).fold_left(0int, |s: int, t: int| s + t),
    decreases terms.len(),
{
    let t = Seq::new(terms.len(), |i: int| terms[i].1.val() * pow(x, terms[i].0 as nat));
    if terms.len() > 0 {
        let f = terms.drop_last();
        law_sparse_polynomial_value(f, x);
        assert(t.drop_last() =~= Seq::new(
            f.len(),
            |i: int| f[i].1.val() * pow(x, f[i].0 as nat),
        ));
    }
}

/// Bytes spell a number from the least significant one on.
pub proof fn law_bytes_spell(bytes: Seq<u8>)
    ensures
        bytes.len() == 0 ==> arith::bytes_val(bytes) == 0,
        bytes.len() > 0 ==> arith::bytes_val(bytes) == bytes[0] + 256 * arith::bytes_val(bytes.skip(1)),
{
    let s = Seq::new(bytes.len(), |i: int| bytes[i] as int);
    if bytes.len() > 0 {
        arith::lemma_poly_at_first(s, 256);
        assert(s.skip(1) =~= Seq::new(bytes.skip(1).len(), |i: int| bytes.skip(1)[i] as int));
    }
}

} // verus!
