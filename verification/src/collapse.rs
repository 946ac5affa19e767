//! Random linear combinations of polynomials in coefficient form.
use crate::arith;
use crate::basis;
use crate::basis::current_num_threads;
use crate::fft;
use crate::field::Field;
use crate::poly;
use crate::poly::{Coeff, Polynomial, copy_values};
use vstd::arithmetic::mul::*;
use vstd::arithmetic::power::*;
use vstd::prelude::*;

verus! {

/// Amortize task scheduling over at least this many field operations per
/// worker.
pub const MIN_PARALLEL_FIELD_OPERATIONS_PER_THREAD: usize = 1_024;

pub const DEFERRED_FOLD_LANES: usize = 2;

/// How many terms of an inner product are gathered before they are reduced.
pub const AARCH64_INNER_PRODUCT_GATHER_SIZE: usize = 64;

/// A coefficient, or zero behind the last.
pub open spec fn coeff_at(s: Seq<int>, i: int) -> int {
    if 0 <= i < s.len() {
        s[i]
    } else {
        0
    }
}

/// The coefficients of the polynomials.
pub open spec fn poly_vals<'a, F: Field>(polys: Seq<&'a Polynomial<F, Coeff>>) -> Seq<Seq<int>> {
    Seq::new(polys.len(), |j: int| poly::vals(polys[j].values@))
}

/// Coefficient `i` of each polynomial.
pub open spec fn column(s: Seq<Seq<int>>, i: int) -> Seq<int> {
    Seq::new(s.len(), |j: int| coeff_at(s[j], i))
}

/// The coefficient of a polynomial, or zero.
fn coefficient<F: Field>(poly: &Polynomial<F, Coeff>, i: usize) -> (r: F)
    ensures
        r.val() == coeff_at(poly::vals(poly.values@), i as int),
{
    if i < poly.values.len() {
        poly.values[i]
    } else {
        F::zero()
    }
}

proof fn lemma_column_take(s: Seq<Seq<int>>, i: int, k: int)
    requires
        0 <= k < s.len(),
    ensures
        column(s.take(k + 1), i) == column(s.take(k), i).push(coeff_at(s[k], i)),
        column(s.take(s.len() as int), i) == column(s, i),
        column(s.take(0), i) == Seq::<int>::empty(),
{
    assert(column(s.take(k + 1), i) =~= column(s.take(k), i).push(coeff_at(s[k], i)));
    assert(s.take(s.len() as int) =~= s);
    assert(column(s.take(0), i) =~= Seq::<int>::empty());
}

/// The range `start ..` of the accumulated polynomial and the following ones, folded.
pub open spec fn folded<F: Field>(
    after: Seq<F>,
    before: Seq<F>,
    start: int,
    polys: Seq<Seq<int>>,
    x: int,
) -> bool {
    &&& after.len() == before.len()
    &&& forall|o: int|
        0 <= o < after.len() ==> (#[trigger] after[o]).val() == arith::descending(
            seq![before[o].val()] + column(polys, start + o),
            x,
        ) % F::order()
}

/// Folds polynomials into the range `start ..` of an accumulator, one after the other.
pub fn fold_polynomial_range<'a, F: Field>(
    values: &mut [F],
    start: usize,
    polynomials: &[&'a Polynomial<F, Coeff>],
    challenge: F,
)
    requires
        start + old(values)@.len() <= usize::MAX,
    ensures
        folded(final(values)@, old(values)@, start as int, poly_vals(polynomials@), challenge.val()),
{
    let ghost s = poly_vals(polynomials@);
    let ghost x = challenge.val();
    let ghost p = F::order();
    let ghost before = values@;
    let n: usize = values.len();
    let mut j: usize = 0;
    proof {
        F::lemma_order();
        assert forall|o: int| 0 <= o < n implies (#[trigger] values@[o]).val() == arith::descending(
            seq![before[o].val()] + column(s.take(0), start + o),
            x,
        ) % p by {
            let v = before[o].val();
            assert(column(s.take(0), start + o) =~= Seq::<int>::empty());
            assert(seq![v] + Seq::<int>::empty() =~= Seq::<int>::empty().push(v));
            arith::lemma_descending_push(Seq::empty(), x, v);
            lemma_mul_basics(x);
            F::lemma_val(before[o]);
            arith::lemma_mod_small(v, p);
        }
    }
    while j < polynomials.len()
        invariant
            j <= polynomials@.len(),
            s == poly_vals(polynomials@),
            x == challenge.val(),
            p == F::order(),
            p > 2,
            n == values@.len(),
            n == before.len(),
            before == old(values)@,
            start + n <= usize::MAX,
            forall|o: int|
                0 <= o < n ==> (#[trigger] values@[o]).val() == arith::descending(
                    seq![before[o].val()] + column(s.take(j as int), start + o),
                    x,
                ) % p,
        decreases polynomials@.len() - j,
    {
        let polynomial = polynomials[j];
        let ghost now = values@;
        let mut o: usize = 0;
        while o < n
            invariant
                o <= n,
                n == values@.len(),
                n == now.len(),
                start + n <= usize::MAX,
                x == challenge.val(),
                p == F::order(),
                p > 2,
                forall|k: int| o <= k < n ==> #[trigger] values@[k] == now[k],
                forall|k: int|
                    0 <= k < o ==> (#[trigger] values@[k]).val() == (now[k].val() * x + coeff_at(
                        poly::vals(polynomial.values@),
                        start + k,
                    )) % p,
            decreases n - o,
        {
            let v = values[o].mul(challenge);
            let c = coefficient(polynomial, start + o);
            proof {
                arith::lemma_mod_add(now[o as int].val() * x, c.val(), p);
            }
            values[o] = v.add(c);
            o += 1;
        }
        proof {
            assert forall|o: int| 0 <= o < n implies (#[trigger] values@[o]).val() == arith::descending(
                seq![before[o].val()] + column(s.take(j + 1), start + o),
                x,
            ) % p by {
                let a = seq![before[o].val()] + column(s.take(j as int), start + o);
                let c = coeff_at(s[j as int], start + o);
                lemma_column_take(s, start + o, j as int);
                assert(seq![before[o].val()] + column(s.take(j + 1), start + o) =~= a.push(c));
                arith::lemma_descending_push(a, x, c);
                let d = arith::descending(a, x);
                assert(now[o].val() == d % p);
                arith::lemma_mod_mul(d, x, p);
                arith::lemma_mod_add((d % p) * x, c, p);
                arith::lemma_mod_add(d * x, c, p);
            }
        }
        j += 1;
    }
    assert(s.take(j as int) =~= s);
}

/// The products of coefficients with their powers, but for the last.
spec fn weighted_column(c: Seq<int>, x: int, p: int, k: int) -> Seq<int> {
    Seq::new(k as nat, |j: int| c[j] * (pow(x, (c.len() - 1 - j) as nat) % p))
}

proof fn lemma_weighted_column(c: Seq<int>, x: int, p: int, k: int)
    requires
        p > 0,
        0 <= k < c.len(),
    ensures
        arith::eqm(
            arith::seq_sum(weighted_column(c, x, p, k)),
            arith::descending(c.take(k), x) * pow(x, (c.len() - k) as nat),
            p,
        ),
    decreases k,
{
    let s = weighted_column(c, x, p, k);
    if k == 0 {
        assert(c.take(0) =~= Seq::<int>::empty());
        lemma_mul_basics(pow(x, c.len()));
    } else {
        let h = k - 1;
        lemma_weighted_column(c, x, p, h);
        assert(s.drop_last() =~= weighted_column(c, x, p, h));
        assert(c.take(k) =~= c.take(h).push(c[h]));
        arith::lemma_descending_push(c.take(h), x, c[h]);
        let e = (c.len() - k) as nat;
        arith::lemma_pow_step(x, e);
        let (d, q, t) = (arith::descending(c.take(h), x), pow(x, e), c[h]);
        assert((c.len() - 1 - h) as nat == e);
        arith::lemma_mod_range(q, p);
        arith::lemma_eqm_mul(t, t, q % p, q, p);
        arith::lemma_eqm_add(
            arith::seq_sum(weighted_column(c, x, p, h)),
            d * pow(x, (e + 1) as nat),
            t * (q % p),
            t * q,
            p,
        );
        assert((d * x + t) * q == d * (x * q) + t * q) by (nonlinear_arith);
    }
}

/// Folds polynomials with powers of the challenge, reducing once for each coefficient.
fn fold_polynomial_range_deferred<'a, F: Field>(
    values: &mut [F],
    start: usize,
    polynomials: &[&'a Polynomial<F, Coeff>],
    powers: &Vec<F>,
    Ghost(x): Ghost<int>,
)
    requires
        start + old(values)@.len() <= usize::MAX,
        0 < polynomials@.len() <= powers@.len(),
        fft::powers_of(powers@, x),
    ensures
        final(values)@.len() == old(values)@.len(),
        forall|o: int|
            0 <= o < final(values)@.len() ==> (#[trigger] final(values)@[o]).val() == arith::descending(
                column(poly_vals(polynomials@), start + o),
                x,
            ) % F::order(),
{
    let ghost s = poly_vals(polynomials@);
    let ghost p = F::order();
    let n: usize = values.len();
    let m: usize = polynomials.len();
    let mut o: usize = 0;
    proof {
        F::lemma_order();
    }
    while o < n
        invariant
            o <= n,
            n == values@.len(),
            n == old(values)@.len(),
            start + n <= usize::MAX,
            m == polynomials@.len(),
            0 < m <= powers@.len(),
            fft::powers_of(powers@, x),
            s == poly_vals(polynomials@),
            p == F::order(),
            p > 2,
            forall|k: int|
                0 <= k < o ==> (#[trigger] values@[k]).val() == arith::descending(
                    column(s, start + k),
                    x,
                ) % p,
        decreases n - o,
    {
        let ghost c = column(s, start + o);
        let mut accumulator = F::accumulator();
        let mut j: usize = 0;
        proof {
            assert(weighted_column(c, x, p, 0) =~= Seq::<int>::empty());
            arith::lemma_mod_small(0, p);
        }
        while j < m - 1
            invariant
                j <= m - 1,
                m == polynomials@.len(),
                0 < m <= powers@.len(),
                fft::powers_of(powers@, x),
                start + o <= usize::MAX,
                s == poly_vals(polynomials@),
                c == column(s, start + o),
                p == F::order(),
                p > 2,
                F::accumulated(accumulator) == arith::seq_sum(weighted_column(c, x, p, j as int)) % p,
                F::carries(accumulator) <= j,
            decreases m - j,
        {
            let term = coefficient(polynomials[j], start + o);
            F::mul_accumulate(&mut accumulator, &term, &powers[m - 1 - j]);
            proof {
                let w = weighted_column(c, x, p, j as int);
                let t = term.val() * powers@[m - 1 - j].val();
                assert(weighted_column(c, x, p, j + 1) =~= w.push(t));
                arith::lemma_sum_push_mod(w, t, p);
            }
            j += 1;
        }
        let sum = F::reduce(accumulator);
        let last = coefficient(polynomials[m - 1], start + o);
        values[o] = sum.add(last);
        proof {
            let k = m - 1;
            lemma_weighted_column(c, x, p, k);
            assert(c =~= c.take(k).push(c[k]));
            arith::lemma_descending_push(c.take(k), x, c[k]);
            lemma_pow1(x);
            let a = arith::seq_sum(weighted_column(c, x, p, k));
            arith::lemma_mod_add(a, c[k], p);
            arith::lemma_eqm_add(a, arith::descending(c.take(k), x) * x, c[k], c[k], p);
        }
        o += 1;
    }
}

/// Folds polynomials in blocks, each with one reduction. A block continues Horner as
///
/// A x^k + P_0 x^(k-1) + ... + P_(k-2) x + P_(k-1).
fn fold_polynomial_range_blocked_inner_product<'a, F: Field>(
    values: &mut [F],
    start: usize,
    polynomials: &[&'a Polynomial<F, Coeff>],
    powers: &Vec<F>,
    Ghost(x): Ghost<int>,
)
    requires
        start + old(values)@.len() <= usize::MAX,
        powers@.len() > AARCH64_INNER_PRODUCT_GATHER_SIZE,
        fft::powers_of(powers@, x),
    ensures
        folded(final(values)@, old(values)@, start as int, poly_vals(polynomials@), x),
{
    let ghost s = poly_vals(polynomials@);
    let ghost p = F::order();
    let n: usize = values.len();
    let m: usize = polynomials.len();
    let mut o: usize = 0;
    proof {
        F::lemma_order();
    }
    while o < n
        invariant
            o <= n,
            n == values@.len(),
            n == old(values)@.len(),
            start + n <= usize::MAX,
            m == polynomials@.len(),
            powers@.len() > AARCH64_INNER_PRODUCT_GATHER_SIZE,
            fft::powers_of(powers@, x),
            s == poly_vals(polynomials@),
            p == F::order(),
            p > 2,
            forall|k: int| o <= k < n ==> #[trigger] values@[k] == old(values)@[k],
            forall|k: int|
                0 <= k < o ==> (#[trigger] values@[k]).val() == arith::descending(
                    seq![old(values)@[k].val()] + column(s, start + k),
                    x,
                ) % p,
        decreases n - o,
    {
        let ghost c = seq![values@[o as int].val()] + column(s, start + o);
        let mut value = values[o];
        let mut at: usize = 0;
        proof {
            let v = value.val();
            assert(c.take(1) =~= Seq::<int>::empty().push(v));
            arith::lemma_descending_push(Seq::empty(), x, v);
            lemma_mul_basics(x);
            F::lemma_val(value);
            arith::lemma_mod_small(v, p);
        }
        while at < m
            invariant
                at <= m,
                m == polynomials@.len(),
                powers@.len() > AARCH64_INNER_PRODUCT_GATHER_SIZE,
                fft::powers_of(powers@, x),
                start + o <= usize::MAX,
                s == poly_vals(polynomials@),
                c.len() == m + 1,
                forall|k: int| 0 <= k < m ==> c[k + 1] == coeff_at(#[trigger] s[k], start + o),
                p == F::order(),
                p > 2,
                value.val() == arith::descending(c.take(at + 1), x) % p,
            decreases m - at,
        {
            let left: usize = m - at;
            let len: usize = if left < AARCH64_INNER_PRODUCT_GATHER_SIZE {
                left
            } else {
                AARCH64_INNER_PRODUCT_GATHER_SIZE
            };
            // The block with the accumulator in front.
            let ghost b = seq![value.val()] + c.subrange(at + 1, at + len + 1);
            let mut accumulator = F::accumulator();
            F::mul_accumulate(&mut accumulator, &value, &powers[len]);
            let mut j: usize = 0;
            proof {
                let t = value.val() * powers@[len as int].val();
                assert(weighted_column(b, x, p, 1) =~= Seq::<int>::empty().push(t));
                arith::lemma_mod_small(0, p);
                arith::lemma_sum_push_mod(Seq::empty(), t, p);
            }
            while j < len - 1
                invariant
                    j <= len - 1,
                    at + len <= m,
                    0 < len <= AARCH64_INNER_PRODUCT_GATHER_SIZE,
                    m == polynomials@.len(),
                    powers@.len() > AARCH64_INNER_PRODUCT_GATHER_SIZE,
                    fft::powers_of(powers@, x),
                    start + o <= usize::MAX,
                    s == poly_vals(polynomials@),
                    c.len() == m + 1,
                    forall|k: int| 0 <= k < m ==> c[k + 1] == coeff_at(#[trigger] s[k], start + o),
                    b == seq![value.val()] + c.subrange(at + 1, at + len + 1),
                    p == F::order(),
                    p > 2,
                    F::accumulated(accumulator) == arith::seq_sum(weighted_column(b, x, p, j + 1)) % p,
                    F::carries(accumulator) <= j + 1,
                decreases len - j,
            {
                let term = coefficient(polynomials[at + j], start + o);
                F::mul_accumulate(&mut accumulator, &term, &powers[len - 1 - j]);
                proof {
                    assert(s[at + j] == poly::vals(polynomials@[at + j].values@));
                    assert(b[j + 1] == c[at + j + 1]);
                    let w = weighted_column(b, x, p, j + 1);
                    let t = term.val() * powers@[len - 1 - j].val();
                    assert(weighted_column(b, x, p, j + 2) =~= w.push(t));
                    arith::lemma_sum_push_mod(w, t, p);
                }
                j += 1;
            }
            let sum = F::reduce(accumulator);
            let last = coefficient(polynomials[at + len - 1], start + o);
            proof {
                assert(s[at + len - 1] == poly::vals(polynomials@[at + len - 1].values@));
                let k = len as int;
                lemma_weighted_column(b, x, p, k);
                assert(b[k] == last.val());
                assert(b =~= b.take(k).push(b[k]));
                arith::lemma_descending_push(b.take(k), x, b[k]);
                lemma_pow1(x);
                let a = arith::seq_sum(weighted_column(b, x, p, k));
                arith::lemma_mod_add(a, b[k], p);
                arith::lemma_eqm_add(a, arith::descending(b.take(k), x) * x, b[k], b[k], p);
                // The accumulator stands for the front of the column.
                let front = c.take(at + 1);
                let back = c.subrange(at + 1, at + len + 1);
                assert(c.take(at + len + 1) =~= front + back);
                arith::lemma_descending_concat(front, back, x);
                arith::lemma_descending_concat(seq![value.val()], back, x);
                let e = Seq::<int>::empty();
                assert(seq![value.val()] =~= e.push(value.val()));
                arith::lemma_descending_push(e, x, value.val());
                lemma_mul_basics(x);
                let d = arith::descending(front, x);
                arith::lemma_mod_range(d, p);
                let q = pow(x, back.len());
                arith::lemma_eqm_mul(d % p, d, q, q, p);
                arith::lemma_eqm_add(
                    (d % p) * q,
                    d * q,
                    arith::descending(back, x),
                    arith::descending(back, x),
                    p,
                );
            }
            value = sum.add(last);
            at += len;
        }
        proof {
            assert(c.take(m + 1) =~= c);
        }
        values[o] = value;
        o += 1;
    }
}

/// How a group of polynomials is folded.
#[derive(Clone, Copy, Debug, PartialEq, Eq, Structural)]
pub enum FoldMethod {
    Horner,
    Deferred,
    Blocked,
}

/// The first `n` powers of `x`.
pub fn power_vector<F: Field>(x: F, n: usize) -> (r: Vec<F>)
    ensures
        r@.len() == n,
        fft::powers_of(r@, x.val()),
{
    let mut r: Vec<F> = Vec::with_capacity(n);
    let mut power = F::one();
    let mut i: usize = 0;
    let ghost p = F::order();
    proof {
        F::lemma_order();
        lemma_pow0(x.val());
        arith::lemma_mod_small(1, p);
    }
    while i < n
        invariant
            i <= n,
            p == F::order(),
            p > 2,
            r@.len() == i,
            power.val() == pow(x.val(), i as nat) % p,
            fft::powers_of(r@, x.val()),
        decreases n - i,
    {
        r.push(power);
        power = power.mul(x);
        proof {
            arith::lemma_pow_step(x.val(), i as nat);
            arith::lemma_mod_mul(pow(x.val(), i as nat), x.val(), p);
        }
        i += 1;
    }
    r
}

/// The combination of a group, with the length of its first polynomial.
pub open spec fn group_collapsed<F: Field>(r: Seq<F>, group: Seq<Seq<int>>, x: int) -> bool {
    &&& r.len() == group[0].len()
    &&& forall|i: int|
        0 <= i < r.len() ==> (#[trigger] r[i]).val() == arith::descending(column(group, i), x)
            % F::order()
}

/// Folds one range of a group into a copy of its first polynomial.
fn fold_group_range<'a, F: Field>(
    values: &mut [F],
    start: usize,
    group: &Vec<&'a Polynomial<F, Coeff>>,
    challenge: F,
    powers: &Vec<F>,
    method: FoldMethod,
)
    requires
        group@.len() > 0,
        start + old(values)@.len() <= group@[0].values@.len(),
        forall|o: int|
            0 <= o < old(values)@.len() ==> #[trigger] old(values)@[o] == group@[0].values@[start
                + o],
        fft::powers_of(powers@, challenge.val()),
        method == FoldMethod::Deferred ==> powers@.len() >= group@.len(),
        method == FoldMethod::Blocked ==> powers@.len() > AARCH64_INNER_PRODUCT_GATHER_SIZE,
    ensures
        final(values)@.len() == old(values)@.len(),
        forall|o: int|
            0 <= o < final(values)@.len() ==> (#[trigger] final(values)@[o]).val() == arith::descending(
                column(poly_vals(group@), start + o),
                challenge.val(),
            ) % F::order(),
{
    let ghost s = poly_vals(group@);
    let ghost before = values@;
    let first: usize = group[0].values.len();
    let following = vstd::slice::slice_subrange(group.as_slice(), 1, group.len());
    if method == FoldMethod::Deferred && group.len() > DEFERRED_FOLD_LANES {
        fold_polynomial_range_deferred(
            values,
            start,
            group.as_slice(),
            powers,
            Ghost(challenge.val()),
        );
        return ;
    }
    if method == FoldMethod::Blocked && following.len() > DEFERRED_FOLD_LANES {
        fold_polynomial_range_blocked_inner_product(
            values,
            start,
            following,
            powers,
            Ghost(challenge.val()),
        );
    } else {
        fold_polynomial_range(values, start, following, challenge);
    }
    proof {
        assert forall|o: int| 0 <= o < values@.len() implies (#[trigger] values@[o]).val()
            == arith::descending(column(s, start + o), challenge.val()) % F::order() by {
            let v = before[o];
            assert(v == group@[0].values@[start + o]);
            assert(seq![v.val()] + column(poly_vals(following@), start + o) =~= column(
                s,
                start + o,
            ));
        }
    }
}

/// Combines the polynomials of each group, in chunks of `work_per_task` operations.
pub fn collapse_polynomials_with<'a, F: Field>(
    groups: &Vec<Vec<&'a Polynomial<F, Coeff>>>,
    challenge: F,
    powers: &Vec<F>,
    method: FoldMethod,
    thread_count: usize,
) -> (r: Vec<Polynomial<F, Coeff>>)
    requires
        thread_count >= 1,
        forall|g: int| 0 <= g < groups@.len() ==> (#[trigger] groups@[g])@.len() > 0,
        fft::powers_of(powers@, challenge.val()),
        method == FoldMethod::Deferred ==> forall|g: int|
            0 <= g < groups@.len() ==> powers@.len() >= (#[trigger] groups@[g])@.len(),
        method == FoldMethod::Blocked ==> powers@.len() > AARCH64_INNER_PRODUCT_GATHER_SIZE,
    ensures
        r@.len() == groups@.len(),
        forall|g: int|
            0 <= g < groups@.len() ==> group_collapsed(
                (#[trigger] r@[g]).values@,
                poly_vals(groups@[g]@),
                challenge.val(),
            ),
{
    let mut total_work: usize = 0;
    let mut g: usize = 0;
    while g < groups.len()
        invariant
            g <= groups@.len(),
            forall|k: int| 0 <= k < groups@.len() ==> (#[trigger] groups@[k])@.len() > 0,
        decreases groups@.len() - g,
    {
        assert(groups@[g as int]@.len() > 0);
        let work: usize = match groups[g][0].values.len().checked_mul(groups[g].len() - 1) {
            Some(work) => work,
            None => usize::MAX,
        };
        total_work = total_work.saturating_add(work);
        g += 1;
    }
    let share: usize = div_ceil(total_work, thread_count);
    let whole: bool = thread_count == 1 || share < MIN_PARALLEL_FIELD_OPERATIONS_PER_THREAD;
    let mut collapsed: Vec<Polynomial<F, Coeff>> = Vec::with_capacity(groups.len());
    let mut i: usize = 0;
    while i < groups.len()
        invariant
            i <= groups@.len(),
            collapsed@.len() == i,
            forall|k: int| 0 <= k < groups@.len() ==> (#[trigger] groups@[k])@.len() > 0,
            fft::powers_of(powers@, challenge.val()),
            method == FoldMethod::Deferred ==> forall|k: int|
                0 <= k < groups@.len() ==> powers@.len() >= (#[trigger] groups@[k])@.len(),
            method == FoldMethod::Blocked ==> powers@.len() > AARCH64_INNER_PRODUCT_GATHER_SIZE,
            forall|k: int|
                0 <= k < i ==> group_collapsed(
                    (#[trigger] collapsed@[k]).values@,
                    poly_vals(groups@[k]@),
                    challenge.val(),
                ),
        decreases groups@.len() - i,
    {
        let group = &groups[i];
        assert(groups@[i as int]@.len() > 0);
        let first = group[0];
        let len: usize = first.values.len();
        let folds: usize = group.len() - 1;
        let chunk_size: usize = if whole || folds == 0 {
            len
        } else {
            div_ceil(share, folds)
        };
        let ghost s = poly_vals(group@);
        let mut values: Vec<F> = Vec::with_capacity(len);
        while values.len() < len
            invariant
                group@.len() > 0,
                first == group@[0],
                group == groups@[i as int],
                s == poly_vals(group@),
                len == first.values@.len(),
                values@.len() <= len,
                fft::powers_of(powers@, challenge.val()),
                method == FoldMethod::Deferred ==> powers@.len() >= group@.len(),
                method == FoldMethod::Blocked ==> powers@.len()
                    > AARCH64_INNER_PRODUCT_GATHER_SIZE,
                forall|k: int|
                    0 <= k < values@.len() ==> (#[trigger] values@[k]).val() == arith::descending(
                        column(s, k),
                        challenge.val(),
                    ) % F::order(),
            decreases len - values@.len(),
        {
            let start: usize = values.len();
            let left: usize = len - start;
            let size: usize = if chunk_size == 0 {
                1
            } else if chunk_size < left {
                chunk_size
            } else {
                left
            };
            let mut chunk = copy_values(
                vstd::slice::slice_subrange(first.values.as_slice(), start, start + size),
            );
            fold_group_range(
                chunk.as_mut_slice(),
                start,
                group,
                challenge,
                powers,
                method,
            );
            let ghost before = values@;
            append_values(&mut values, &chunk);
            proof {
                assert forall|k: int| 0 <= k < values@.len() implies (#[trigger] values@[k]).val()
                    == arith::descending(column(s, k), challenge.val()) % F::order() by {
                    if k >= start {
                        assert(values@[k] == chunk@[k - start]);
                    } else {
                        assert(values@[k] == before[k]);
                    }
                }
            }
        }
        collapsed.push(Polynomial::new(values));
        i += 1;
    }
    collapsed
}

/// Appends a copy of the elements.
pub fn append_values<F: Field>(values: &mut Vec<F>, more: &Vec<F>)
    ensures
        final(values)@ == old(values)@ + more@,
{
    let mut i: usize = 0;
    let ghost before = values@;
    while i < more.len()
        invariant
            i <= more@.len(),
            values@ =~= before + more@.take(i as int),
        decreases more@.len() - i,
    {
        values.push(more[i]);
        i += 1;
    }
    assert(more@.take(i as int) =~= more@);
}

/// The quotient, rounded up.
pub fn div_ceil(a: usize, b: usize) -> (r: usize)
    requires
        b > 0,
    ensures
        r == basis::ceil_div(a as int, b as int),
{
    let q: usize = a / b;
    proof {
        vstd::arithmetic::div_mod::lemma_fundamental_div_mod(a as int, b as int);
        let rest = a as int % b as int;
        lemma_mul_is_commutative(b as int, q as int);
        lemma_mul_is_commutative(b as int, q + 1);
        vstd::arithmetic::div_mod::lemma_mod_bound(a as int, b as int);
        if rest == 0 {
            vstd::arithmetic::div_mod::lemma_fundamental_div_mod_converse(
                a + b - 1,
                b as int,
                q as int,
                b - 1,
            );
        } else {
            assert(b * (q + 1) == b * q + b) by (nonlinear_arith);
            vstd::arithmetic::div_mod::lemma_fundamental_div_mod_converse(
                a + b - 1,
                b as int,
                q + 1,
                rest - 1,
            );
            assert(q < a) by (nonlinear_arith)
                requires
                    a == b * q + rest,
                    rest > 0,
                    b >= 1,
                    q >= 0,
            ;
        }
    }
    if a % b == 0 {
        q
    } else {
        q + 1
    }
}

/// The length of the longest group.
fn longest_group<'a, F: Field>(groups: &Vec<Vec<&'a Polynomial<F, Coeff>>>) -> (r: usize)
    ensures
        forall|g: int| 0 <= g < groups@.len() ==> (#[trigger] groups@[g])@.len() <= r,
{
    let mut r: usize = 0;
    let mut g: usize = 0;
    while g < groups.len()
        invariant
            g <= groups@.len(),
            forall|k: int| 0 <= k < g ==> (#[trigger] groups@[k])@.len() <= r,
        decreases groups@.len() - g,
    {
        if groups[g].len() > r {
            r = groups[g].len();
        }
        g += 1;
    }
    r
}

/// Combines the polynomials of each group by Horner's rule.
pub fn collapse_polynomials_horner<'a, F: Field>(
    groups: &Vec<Vec<&'a Polynomial<F, Coeff>>>,
    challenge: F,
) -> (r: Vec<Polynomial<F, Coeff>>)
    requires
        forall|g: int| 0 <= g < groups@.len() ==> (#[trigger] groups@[g])@.len() > 0,
    ensures
        r@.len() == groups@.len(),
        forall|g: int|
            0 <= g < groups@.len() ==> group_collapsed(
                (#[trigger] r@[g]).values@,
                poly_vals(groups@[g]@),
                challenge.val(),
            ),
{
    let powers: Vec<F> = Vec::new();
    collapse_polynomials_with(
        groups,
        challenge,
        &powers,
        FoldMethod::Horner,
        current_num_threads(),
    )
}

/// Combines the polynomials of each group in blocks of inner products.
pub fn collapse_polynomials_blocked_inner_product<'a, F: Field>(
    groups: &Vec<Vec<&'a Polynomial<F, Coeff>>>,
    challenge: F,
) -> (r: Vec<Polynomial<F, Coeff>>)
    requires
        forall|g: int| 0 <= g < groups@.len() ==> (#[trigger] groups@[g])@.len() > 0,
    ensures
        r@.len() == groups@.len(),
        forall|g: int|
            0 <= g < groups@.len() ==> group_collapsed(
                (#[trigger] r@[g]).values@,
                poly_vals(groups@[g]@),
                challenge.val(),
            ),
{
    if longest_group(groups) <= DEFERRED_FOLD_LANES + 1 {
        return collapse_polynomials_horner(groups, challenge);
    }
    let powers = power_vector(challenge, AARCH64_INNER_PRODUCT_GATHER_SIZE + 1);
    collapse_polynomials_with(
        groups,
        challenge,
        &powers,
        FoldMethod::Blocked,
        current_num_threads(),
    )
}

/// Combines the polynomials of each group: with several threads by Horner's rule, and
/// else with deferred reductions.
pub fn collapse_polynomials<'a, F: Field>(
    groups: &Vec<Vec<&'a Polynomial<F, Coeff>>>,
    challenge: F,
) -> (r: Vec<Polynomial<F, Coeff>>)
    requires
        forall|g: int| 0 <= g < groups@.len() ==> (#[trigger] groups@[g])@.len() > 0,
    ensures
        r@.len() == groups@.len(),
        forall|g: int|
            0 <= g < groups@.len() ==> group_collapsed(
                (#[trigger] r@[g]).values@,
                poly_vals(groups@[g]@),
                challenge.val(),
            ),
{
    let thread_count: usize = current_num_threads();
    if thread_count > 1 {
        return collapse_polynomials_horner(groups, challenge);
    }
    let powers = power_vector(challenge, longest_group(groups));
    collapse_polynomials_with(groups, challenge, &powers, FoldMethod::Deferred, thread_count)
}

/// Combines polynomials of one length, with the accumulator in front.
pub fn fold_polynomials<F: Field>(
    accumulator: Polynomial<F, Coeff>,
    challenge: F,
    polynomials: &Vec<Polynomial<F, Coeff>>,
) -> (r: Polynomial<F, Coeff>)
    requires
        forall|j: int|
            0 <= j < polynomials@.len() ==> (#[trigger] polynomials@[j]).values@.len()
                == accumulator.values@.len(),
    ensures
        folded(
            r.values@,
            accumulator.values@,
            0,
            Seq::new(polynomials@.len(), |j: int| poly::vals(polynomials@[j].values@)),
            challenge.val(),
        ),
{
    let mut refs: Vec<&Polynomial<F, Coeff>> = Vec::with_capacity(polynomials.len());
    let mut j: usize = 0;
    while j < polynomials.len()
        invariant
            j <= polynomials@.len(),
            refs@.len() == j,
            forall|k: int| 0 <= k < j ==> *(#[trigger] refs@[k]) == polynomials@[k],
        decreases polynomials@.len() - j,
    {
        refs.push(&polynomials[j]);
        j += 1;
    }
    let mut values = accumulator.values;
    let len: usize = values.len();
    fold_polynomial_range(values.as_mut_slice(), 0, refs.as_slice(), challenge);
    assert(poly_vals(refs@) =~= Seq::new(
        polynomials@.len(),
        |j: int| poly::vals(polynomials@[j].values@),
    ));
    Polynomial::new(values)
}

} // verus!
