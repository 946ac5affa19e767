//! Fast Fourier transforms.
use crate::arith;
use crate::dft;
use crate::domain::power_of_two;
use crate::field::{Field, TWO_ADICITY};
use crate::poly;
use vstd::arithmetic::div_mod::*;
use vstd::arithmetic::mul::*;
use vstd::arithmetic::power::*;
use vstd::arithmetic::power2::*;
use vstd::prelude::*;

verus! {

/// Node half-lengths at or below this size use the strided scalar combine
/// loop; larger nodes use a contiguous per-level twiddle table.
pub const CACHED_TWIDDLE_MIN_HALF: usize = 32;

/// The number whose `l` bits are those of `i` in reverse.
pub open spec fn reversed(i: nat, l: nat) -> nat
    decreases l,
{
    if l == 0 {
        0
    } else {
        let h = pow2((l - 1) as nat);
        if i < h {
            2 * reversed(i, (l - 1) as nat)
        } else {
            2 * reversed((i - h) as nat, (l - 1) as nat) + 1
        }
    }
}

pub proof fn lemma_reversed_bound(i: nat, l: nat)
    requires
        i < pow2(l),
    ensures
        reversed(i, l) < pow2(l),
    decreases l,
{
    if l == 0 {
        lemma2_to64();
    } else {
        lemma_pow2_unfold(l);
        let h = pow2((l - 1) as nat);
        if i < h {
            lemma_reversed_bound(i, (l - 1) as nat);
        } else {
            lemma_reversed_bound((i - h) as nat, (l - 1) as nat);
        }
    }
}

/// The lowest bit of a number is the highest of the reversed one.
proof fn lemma_reversed_low(m: nat, b: nat, l: nat)
    requires
        l > 0,
        b < 2,
        2 * m + b < pow2(l),
    ensures
        reversed(2 * m + b, l) == reversed(m, (l - 1) as nat) + b * pow2((l - 1) as nat),
    decreases l,
{
    let k = (l - 1) as nat;
    lemma_pow2_unfold(l);
    if k == 0 {
        lemma2_to64();
        reveal_with_fuel(reversed, 2);
    } else {
        lemma_pow2_unfold(k);
        let h = pow2(k);
        let q = pow2((k - 1) as nat);
        if 2 * m + b < h {
            lemma_reversed_low(m, b, k);
            assert(m < q);
        } else {
            let n = (m - q) as nat;
            assert(2 * m + b - h == 2 * n + b);
            lemma_reversed_low(n, b, k);
        }
        assert(2 * (b * q) == b * h) by (nonlinear_arith)
            requires
                h == 2 * q,
        ;
    }
}

/// Reversing the bits twice changes nothing.
pub proof fn lemma_reversed_twice(i: nat, l: nat)
    requires
        i < pow2(l),
    ensures
        reversed(reversed(i, l), l) == i,
    decreases l,
{
    if l == 0 {
        lemma2_to64();
    } else {
        let k = (l - 1) as nat;
        lemma_pow2_unfold(l);
        let h = pow2(k);
        lemma_reversed_bound(i, l);
        if i < h {
            lemma_reversed_twice(i, k);
            lemma_reversed_low(reversed(i, k), 0, l);
        } else {
            let j = (i - h) as nat;
            lemma_reversed_twice(j, k);
            lemma_reversed_low(reversed(j, k), 1, l);
        }
    }
}

/// Reverses the lowest `bits` bits.
pub fn bitreverse(value: usize, bits: u32) -> (r: usize)
    requires
        value < pow2(bits as nat),
        pow2(bits as nat) <= usize::MAX,
    ensures
        r == reversed(value as nat, bits as nat),
        r < pow2(bits as nat),
{
    let mut r: usize = 0;
    let mut v: usize = value;
    let mut t: u32 = 0;
    proof {
        lemma_reversed_bound(value as nat, bits as nat);
        lemma_mul_basics(pow2(bits as nat) as int);
    }
    while t < bits
        invariant
            t <= bits,
            v < pow2((bits - t) as nat),
            r * pow2((bits - t) as nat) + reversed(v as nat, (bits - t) as nat) == reversed(
                value as nat,
                bits as nat,
            ),
            reversed(value as nat, bits as nat) < pow2(bits as nat),
            pow2(bits as nat) <= usize::MAX,
        decreases bits - t,
    {
        let low: usize = v % 2;
        let ghost l = (bits - t) as nat;
        proof {
            let k = (l - 1) as nat;
            let m = (v / 2) as nat;
            lemma_reversed_low(m, low as nat, l);
            lemma_pow2_unfold(l);
            lemma_pow2_pos(k);
            let q = pow2(k);
            assert(r * (2 * q) + low * q == (2 * r + low) * q) by (nonlinear_arith);
            assert(2 * r + low <= (2 * r + low) * q) by (nonlinear_arith)
                requires
                    q >= 1,
                    r >= 0,
                    low >= 0,
            ;
        }
        r = 2 * r + low;
        v = v / 2;
        t += 1;
    }
    proof {
        lemma2_to64();
        assert((bits - t) as nat == 0);
        lemma_mul_basics(r as int);
    }
    r
}

/// Puts the values in the order of the reversed indices.
pub fn bitreverse_permute<F: Field>(values: &mut [F], log_n: u32)
    requires
        old(values)@.len() == pow2(log_n as nat),
    ensures
        final(values)@.len() == old(values)@.len(),
        forall|i: int|
            0 <= i < final(values)@.len() ==> #[trigger] final(values)@[i] == old(
                values)@[reversed(i as nat, log_n as nat) as int],
{
    let n: usize = values.len();
    let ghost l = log_n as nat;
    let ghost before = values@;
    let mut index: usize = 0;
    while index < n
        invariant
            index <= n,
            l == log_n,
            n == values@.len(),
            n == pow2(l),
            before == old(values)@,
            before.len() == n,
            forall|j: int|
                0 <= j < n ==> #[trigger] values@[j] == (if j < index || reversed(j as nat, l)
                    < index {
                    before[reversed(j as nat, l) as int]
                } else {
                    before[j]
                }),
        decreases n - index,
    {
        let other: usize = bitreverse(index, log_n);
        let ghost now = values@;
        if index < other {
            let a = values[index];
            let b = values[other];
            values[index] = b;
            values[other] = a;
        }
        proof {
            lemma_reversed_twice(index as nat, l);
            assert forall|j: int| 0 <= j < n implies #[trigger] values@[j] == (if j < index + 1
                || reversed(j as nat, l) < index + 1 {
                before[reversed(j as nat, l) as int]
            } else {
                before[j]
            }) by {
                lemma_reversed_bound(j as nat, l);
                lemma_reversed_twice(j as nat, l);
                assert(now[j] == (if j < index || reversed(j as nat, l) < index {
                    before[reversed(j as nat, l) as int]
                } else {
                    before[j]
                }));
                assert(now[index as int] == (if reversed(index as nat, l) < index {
                    before[reversed(index as nat, l) as int]
                } else {
                    before[index as int]
                }));
                assert(now[other as int] == (if other < index || reversed(other as nat, l) < index {
                    before[reversed(other as nat, l) as int]
                } else {
                    before[other as int]
                }));
            }
        }
        index += 1;
    }
    proof {
        assert forall|i: int| 0 <= i < n implies #[trigger] values@[i] == before[reversed(
            i as nat,
            l,
        ) as int] by {}
    }
}

/// The powers of `omega` below `n / 2`.
pub fn twiddle_table<F: Field>(omega: F, n: usize) -> (r: Vec<F>)
    ensures
        powers_of(r@, omega.val()),
        r@.len() == n as int / 2,
{
    let half: usize = n / 2;
    let mut r: Vec<F> = Vec::with_capacity(half);
    let mut twiddle = F::one();
    let mut index: usize = 0;
    let ghost w = omega.val();
    let ghost p = F::order();
    proof {
        F::lemma_order();
        lemma_pow0(w);
        arith::lemma_mod_small(1, p);
    }
    while index < half
        invariant
            index <= half,
            r@.len() == index,
            w == omega.val(),
            p == F::order(),
            p > 2,
            twiddle.val() == pow(w, index as nat) % p,
            powers_of(r@, w),
        decreases half - index,
    {
        r.push(twiddle);
        twiddle = twiddle.mul(omega);
        proof {
            arith::lemma_pow_step(w, index as nat);
            arith::lemma_mod_mul(pow(w, index as nat), w, p);
        }
        index += 1;
    }
    r
}

/// The elements are the first powers of `w`.
pub open spec fn powers_of<F: Field>(s: Seq<F>, w: int) -> bool {
    forall|i: int| 0 <= i < s.len() ==> (#[trigger] s[i]).val() == pow(w, i as nat) % F::order()
}

/// The per-level tables list the twiddles that each level uses, but the first.
pub open spec fn tables_fit<F: Field>(
    tables: Seq<Vec<F>>,
    twiddles: Seq<F>,
    len: int,
    level: int,
    chunk: int,
) -> bool
    decreases tables.len() - level,
{
    level >= tables.len() || {
        &&& tables[level]@.len() == len / 2 - 1
        &&& forall|i: int|
            0 <= i < len / 2 - 1 ==> #[trigger] tables[level]@[i] == twiddles[(i + 1) * chunk]
        &&& tables_fit(tables, twiddles, len / 2, level + 1, chunk * 2)
    }
}

/// The polynomial `s` is transformed in chunks of `2^done` of the `2^l` values: each of
/// them holds the values of its part at the powers of its root.
pub open spec fn chunks_done(
    v: Seq<int>,
    s: Seq<int>,
    l: nat,
    done: nat,
    w: int,
    stride: nat,
    p: int,
) -> bool
    decreases l,
{
    if l <= done {
        transformed(v, s, w, stride, p)
    } else {
        let h = pow2((l - 1) as nat) as int;
        &&& chunks_done(v.take(h), dft::evens(s), (l - 1) as nat, done, w, 2 * stride, p)
        &&& chunks_done(v.skip(h), dft::odds(s), (l - 1) as nat, done, w, 2 * stride, p)
    }
}

/// The values of `s` at the powers of `w^stride`.
pub open spec fn transformed(v: Seq<int>, s: Seq<int>, w: int, stride: nat, p: int) -> bool {
    forall|i: int|
        0 <= i < v.len() ==> arith::eqm(#[trigger] v[i], arith::poly_at(s, pow(w, (stride * i) as nat)), p)
}

/// The value of a polynomial at one of the points of a butterfly.
proof fn lemma_butterfly(
    s: Seq<int>,
    w: int,
    stride: nat,
    j: nat,
    half: nat,
    e: int,
    o: int,
    p: int,
)
    requires
        p > 2,
        arith::eqm(pow(w, (stride * half) as nat), -1, p),
        arith::eqm(e, arith::poly_at(dft::evens(s), pow(w, (2 * stride * j) as nat)), p),
        arith::eqm(o, arith::poly_at(dft::odds(s), pow(w, (2 * stride * j) as nat)), p),
    ensures
        arith::eqm(e + pow(w, (stride * j) as nat) * o, arith::poly_at(s, pow(w, (stride * j) as nat)), p),
        arith::eqm(
            e - pow(w, (stride * j) as nat) * o,
            arith::poly_at(s, pow(w, (stride * (j + half)) as nat)),
            p,
        ),
{
    let x = pow(w, (stride * j) as nat);
    let y = pow(w, (stride * (j + half)) as nat);
    let m = pow(w, (stride * half) as nat);
    let z = pow(w, (2 * stride * j) as nat);
    assert(stride * j + stride * j == 2 * stride * j) by (nonlinear_arith);
    assert(stride * j + stride * half == stride * (j + half)) by (nonlinear_arith);
    assert(stride * j >= 0) by (nonlinear_arith);
    assert(stride * half >= 0) by (nonlinear_arith);
    lemma_pow_adds(w, (stride * j) as nat, (stride * j) as nat);
    lemma_pow_adds(w, (stride * j) as nat, (stride * half) as nat);
    dft::lemma_even_odd(s, x);
    dft::lemma_even_odd(s, y);
    let (a, b) = (arith::poly_at(dft::evens(s), z), arith::poly_at(dft::odds(s), z));
    assert(x * x == z);
    arith::lemma_eqm_mul(x, x, o, b, p);
    arith::lemma_eqm_add(e, a, x * o, x * b, p);
    // y == -x
    arith::lemma_eqm_mul(x, x, m, -1, p);
    assert(x * -1 == -x) by (nonlinear_arith);
    assert(arith::eqm(y, -x, p));
    arith::lemma_eqm_mul(y, -x, y, -x, p);
    assert((-x) * (-x) == x * x) by (nonlinear_arith);
    arith::lemma_poly_at_eqm(dft::evens(s), dft::evens(s), y * y, z, p);
    arith::lemma_poly_at_eqm(dft::odds(s), dft::odds(s), y * y, z, p);
    let (c, d) = (arith::poly_at(dft::evens(s), y * y), arith::poly_at(dft::odds(s), y * y));
    arith::lemma_eqm_mul(y, -x, d, b, p);
    arith::lemma_eqm_add(c, a, y * d, (-x) * b, p);
    arith::lemma_eqm_sub(e, a, x * o, x * b, p);
    assert((-x) * b == -(x * b)) by (nonlinear_arith);
}

/// Combines the transforms of the even and the odd part.
fn butterfly_chunk<F: Field>(
    left: &mut [F],
    right: &mut [F],
    twiddle_chunk: usize,
    twiddles: &[F],
    tables: &Vec<Vec<F>>,
    level: usize,
    Ghost(s): Ghost<Seq<int>>,
    Ghost(w): Ghost<int>,
)
    requires
        old(left)@.len() > 0,
        twiddle_chunk > 0,
        old(left)@.len() == old(right)@.len(),
        powers_of(twiddles@, w),
        old(left)@.len() * twiddle_chunk == twiddles@.len(),
        tables_fit(
            tables@,
            twiddles@,
            2 * old(left)@.len() as int,
            level as int,
            twiddle_chunk as int,
        ),
        arith::eqm(pow(w, twiddles@.len()), -1, F::order()),
        transformed(
            poly::vals(old(left)@),
            dft::evens(s),
            w,
            (2 * twiddle_chunk) as nat,
            F::order(),
        ),
        transformed(poly::vals(old(right)@), dft::odds(s), w, (2 * twiddle_chunk) as nat, F::order()),
    ensures
        final(left)@.len() == old(left)@.len(),
        final(right)@.len() == old(right)@.len(),
        transformed(
            poly::vals(final(left)@ + final(right)@),
            s,
            w,
            twiddle_chunk as nat,
            F::order(),
        ),
{
    let n: usize = left.len();
    let ghost p = F::order();
    let ghost l0 = left@;
    let ghost r0 = right@;
    let use_table: bool = level < tables.len();
    let total: usize = twiddles.len();
    proof {
        F::lemma_order();
        reveal_with_fuel(tables_fit, 2);
    }
    let mut j: usize = 0;
    while j < n
        invariant
            j <= n,
            n == left@.len(),
            n == right@.len(),
            n == l0.len(),
            n == r0.len(),
            p == F::order(),
            p > 2,
            powers_of(twiddles@, w),
            n * twiddle_chunk == total,
            total == twiddles@.len(),
            twiddle_chunk > 0,
            use_table <==> level < tables@.len(),
            use_table ==> tables@[level as int]@.len() == n - 1,
            use_table ==> forall|i: int|
                0 <= i < n - 1 ==> #[trigger] tables@[level as int]@[i] == twiddles@[(i + 1)
                    * twiddle_chunk],
            forall|k: int| j <= k < n ==> #[trigger] left@[k] == l0[k],
            forall|k: int| j <= k < n ==> #[trigger] right@[k] == r0[k],
            forall|k: int|
                0 <= k < j ==> (#[trigger] left@[k]).val() == (l0[k].val() + (r0[k].val() * (pow(
                    w,
                    (twiddle_chunk * k) as nat,
                ) % p)) % p) % p,
            forall|k: int|
                0 <= k < j ==> (#[trigger] right@[k]).val() == (l0[k].val() - (r0[k].val() * (pow(
                    w,
                    (twiddle_chunk * k) as nat,
                ) % p)) % p) % p,
        decreases n - j,
    {
        let a = left[j];
        let b = right[j];
        proof {
            assert(0 <= j * twiddle_chunk < n * twiddle_chunk) by (nonlinear_arith)
                requires
                    0 <= j < n,
                    twiddle_chunk > 0,
            ;
            lemma_mul_is_commutative(j as int, twiddle_chunk as int);
        }
        // The unity twiddle needs no multiplication.
        let t = if j == 0 {
            proof {
                lemma_mul_basics(twiddle_chunk as int);
                lemma_pow0(w);
                arith::lemma_mod_small(1, p);
                lemma_mul_basics(b.val());
                F::lemma_val(b);
                arith::lemma_mod_small(b.val(), p);
            }
            b
        } else if use_table {
            assert(tables@[level as int]@[j - 1] == twiddles@[(j - 1 + 1) * twiddle_chunk]);
            b.mul(tables[level][j - 1])
        } else {
            b.mul(twiddles[j * twiddle_chunk])
        };
        left[j] = a.add(t);
        right[j] = a.sub(t);
        j += 1;
    }
    proof {
        let v = poly::vals(left@ + right@);
        let stride = twiddle_chunk as nat;
        lemma_mul_is_commutative(n as int, twiddle_chunk as int);
        assert forall|i: int| 0 <= i < v.len() implies arith::eqm(
            #[trigger] v[i],
            arith::poly_at(s, pow(w, (stride * i) as nat)),
            p,
        ) by {
            let k = if i < n {
                i
            } else {
                i - n
            };
            let e = l0[k].val();
            let o = r0[k].val();
            assert(poly::vals(l0)[k] == e && poly::vals(r0)[k] == o);
            assert((2 * twiddle_chunk) * k == 2 * stride * k);
            lemma_butterfly(s, w, stride, k as nat, n as nat, e, o, p);
            let x = pow(w, (stride * k) as nat);
            arith::lemma_mod_mul(o, x, p);
            lemma_mul_is_commutative(o, x);
            arith::lemma_mod_range(x * o, p);
            let t = (x * o) % p;
            arith::lemma_eqm_add(e, e, t, x * o, p);
            arith::lemma_eqm_sub(e, e, t, x * o, p);
            if i < n {
                assert(v[i] == left@[k].val());
                arith::lemma_mod_range(e + t, p);
            } else {
                assert(v[i] == right@[k].val());
                arith::lemma_mod_range(e - t, p);
            }
        }
    }
}

/// Transforms chunk by chunk, from chunks that are transformed already.
pub fn recursive_butterfly_after_prefix<F: Field>(
    values: &mut [F],
    completed_chunk_len: usize,
    twiddle_chunk: usize,
    twiddles: &[F],
    tables: &Vec<Vec<F>>,
    level: usize,
    Ghost(s): Ghost<Seq<int>>,
    Ghost(w): Ghost<int>,
    Ghost(l): Ghost<nat>,
    Ghost(done): Ghost<nat>,
)
    requires
        old(values)@.len() == pow2(l),
        completed_chunk_len == pow2(done),
        done <= l,
        twiddle_chunk > 0,
        powers_of(twiddles@, w),
        l > done ==> old(values)@.len() * twiddle_chunk == 2 * twiddles@.len(),
        l > done ==> arith::eqm(pow(w, twiddles@.len()), -1, F::order()),
        tables_fit(
            tables@,
            twiddles@,
            old(values)@.len() as int,
            level as int,
            twiddle_chunk as int,
        ),
        chunks_done(
            poly::vals(old(values)@),
            s,
            l,
            done,
            w,
            twiddle_chunk as nat,
            F::order(),
        ),
        level + l <= 64,
    ensures
        final(values)@.len() == old(values)@.len(),
        transformed(poly::vals(final(values)@), s, w, twiddle_chunk as nat, F::order()),
    decreases l,
{
    let len: usize = values.len();
    proof {
        if done < l {
            lemma_pow2_strictly_increases(done, l);
        }
    }
    if len == completed_chunk_len {
        return ;
    }
    let ghost k = (l - 1) as nat;
    proof {
        lemma_pow2_unfold(l);
        lemma_pow2_pos(k);
        assert(poly::vals(values@).take(pow2(k) as int) =~= poly::vals(values@.take(pow2(k) as int)));
        assert(poly::vals(values@).skip(pow2(k) as int) =~= poly::vals(values@.skip(pow2(k) as int)));
    }
    let half: usize = len / 2;
    let ghost p = F::order();
    proof {
        assert(half * (2 * twiddle_chunk) == len * twiddle_chunk) by (nonlinear_arith)
            requires
                len == 2 * half,
        ;
        assert(half * twiddle_chunk == twiddles@.len()) by (nonlinear_arith)
            requires
                len * twiddle_chunk == 2 * twiddles@.len(),
                len == 2 * half,
        ;
    }
    let count: usize = twiddles.len();
    let (left, right) = values.split_at_mut(half);
    proof {
        assert(left@ =~= old(values)@.take(half as int));
        assert(right@ =~= old(values)@.skip(half as int));
        assert(chunks_done(
            poly::vals(left@),
            dft::evens(s),
            k,
            done,
            w,
            (2 * twiddle_chunk) as nat,
            p,
        ));
        assert(chunks_done(
            poly::vals(right@),
            dft::odds(s),
            k,
            done,
            w,
            (2 * twiddle_chunk) as nat,
            p,
        ));
    }
    if half > completed_chunk_len {
        proof {
            if done == k {
                assert(false);
            }
            // The stride is doubled, and stays below the number of twiddles.
            lemma_pow2_strictly_increases(done, k);
            lemma_pow2_pos(done);
            assert(2 * twiddle_chunk <= half * twiddle_chunk) by (nonlinear_arith)
                requires
                    half >= 2,
            ;
            lemma_tables_next(
                tables@,
                twiddles@,
                len as int,
                level as int,
                twiddle_chunk as int,
            );
        }
        recursive_butterfly_after_prefix(
            left,
            completed_chunk_len,
            twiddle_chunk * 2,
            twiddles,
            tables,
            level + 1,
            Ghost(dft::evens(s)),
            Ghost(w),
            Ghost(k),
            Ghost(done),
        );
        recursive_butterfly_after_prefix(
            right,
            completed_chunk_len,
            twiddle_chunk * 2,
            twiddles,
            tables,
            level + 1,
            Ghost(dft::odds(s)),
            Ghost(w),
            Ghost(k),
            Ghost(done),
        );
    } else {
        proof {
            if done < k {
                lemma_pow2_strictly_increases(done, k);
            }
        }
    }
    butterfly_chunk(
        left,
        right,
        twiddle_chunk,
        twiddles,
        tables,
        level,
        Ghost(s),
        Ghost(w),
    );
}

proof fn lemma_tables_next<F: Field>(
    tables: Seq<Vec<F>>,
    twiddles: Seq<F>,
    len: int,
    level: int,
    chunk: int,
)
    requires
        tables_fit(tables, twiddles, len, level, chunk),
    ensures
        tables_fit(tables, twiddles, len / 2, level + 1, chunk * 2),
{
    if level >= tables.len() {
        reveal_with_fuel(tables_fit, 2);
    }
}

/// One table: the twiddles `chunk`, `2 * chunk`, .. of a level of `len` values.
pub open spec fn table_fits<F: Field>(table: Seq<F>, twiddles: Seq<F>, len: int, chunk: int) -> bool {
    &&& table.len() == len / 2 - 1
    &&& forall|i: int| 0 <= i < len / 2 - 1 ==> #[trigger] table[i] == twiddles[(i + 1) * chunk]
}

/// Level `i` has `2^(l - i)` values.
pub open spec fn levels_fit<F: Field>(tables: Seq<Vec<F>>, twiddles: Seq<F>, l: nat) -> bool {
    &&& tables.len() <= l
    &&& forall|i: int|
        0 <= i < tables.len() ==> table_fits(
            (#[trigger] tables[i])@,
            twiddles,
            pow2((l - i) as nat) as int,
            pow2(i as nat) as int,
        )
}

proof fn lemma_levels_fit<F: Field>(tables: Seq<Vec<F>>, twiddles: Seq<F>, l: nat, i: int)
    requires
        levels_fit(tables, twiddles, l),
        0 <= i <= tables.len(),
    ensures
        tables_fit(tables, twiddles, pow2((l - i) as nat) as int, i, pow2(i as nat) as int),
    decreases tables.len() - i,
{
    if i < tables.len() {
        lemma_levels_fit(tables, twiddles, l, i + 1);
        lemma_pow2_unfold((l - i) as nat);
        lemma_pow2_unfold((i + 1) as nat);
        assert(table_fits(
            tables[i]@,
            twiddles,
            pow2((l - i) as nat) as int,
            pow2(i as nat) as int,
        ));
        assert((l - (i + 1)) as nat == ((l - i) as nat - 1) as nat);
    }
}

/// Builds contiguous per-level twiddle tables for the butterfly combine step.
pub fn butterfly_twiddle_tables<F: Field>(twiddles: &[F], len: usize, Ghost(l): Ghost<nat>) -> (r:
    Vec<Vec<F>>)
    requires
        len == pow2(l),
        twiddles@.len() == len as int / 2,
    ensures
        tables_fit(r@, twiddles@, len as int, 0, 1),
{
    let mut tables: Vec<Vec<F>> = Vec::new();
    let mut half: usize = len / 2;
    let mut chunk: usize = 1;
    proof {
        lemma2_to64();
        lemma_pow2_pos(l);
        if l > 0 {
            lemma_pow2_unfold(l);
        }
    }
    while half > CACHED_TWIDDLE_MIN_HALF
        invariant
            levels_fit(tables@, twiddles@, l),
            chunk == pow2(tables@.len()),
            half == pow2((l - tables@.len()) as nat) as int / 2,
            half > CACHED_TWIDDLE_MIN_HALF ==> half * chunk == twiddles@.len(),
            half > 0 ==> tables@.len() < l,
            len == pow2(l),
        decreases half,
    {
        let ghost level = tables@.len();
        let total: usize = twiddles.len();
        proof {
            lemma_pow2_pos(level);
        }
        let mut table: Vec<F> = Vec::with_capacity(half - 1);
        let mut index: usize = 1;
        while index < half
            invariant
                1 <= index <= half,
                chunk > 0,
                half * chunk == total,
                total == twiddles@.len(),
                table@.len() == index - 1,
                forall|i: int|
                    0 <= i < index - 1 ==> #[trigger] table@[i] == twiddles@[(i + 1) * chunk],
            decreases half - index,
        {
            proof {
                assert(0 <= index * chunk < half * chunk) by (nonlinear_arith)
                    requires
                        0 <= index < half,
                        chunk > 0,
                ;
            }
            table.push(twiddles[index * chunk]);
            index += 1;
        }
        proof {
            lemma_pow2_unfold((l - level) as nat);
            lemma_pow2_unfold(level + 1);
            assert((l - (level + 1)) as nat == ((l - level) as nat - 1) as nat);
            let h = pow2((l - level - 1) as nat);
            assert(half == h);
            assert(l - level - 1 > 0) by {
                if l - level - 1 == 0 {
                    lemma2_to64();
                }
            }
            lemma_pow2_unfold((l - level - 1) as nat);
            assert((half / 2) * (2 * chunk) == half * chunk) by (nonlinear_arith)
                requires
                    half == 2 * (half / 2),
            ;
            assert(2 * chunk <= half * chunk) by (nonlinear_arith)
                requires
                    half >= 2,
            ;
        }
        tables.push(table);
        half = half / 2;
        chunk = chunk * 2;
        proof {
            assert(levels_fit(tables@, twiddles@, l)) by {
                assert forall|i: int| 0 <= i < tables@.len() implies table_fits(
                    (#[trigger] tables@[i])@,
                    twiddles@,
                    pow2((l - i) as nat) as int,
                    pow2(i as nat) as int,
                ) by {
                    if i < level {
                        assert(table_fits(
                            tables@[i]@,
                            twiddles@,
                            pow2((l - i) as nat) as int,
                            pow2(i as nat) as int,
                        ));
                    }
                }
            }
        }
    }
    proof {
        lemma_levels_fit(tables@, twiddles@, l, 0);
    }
    tables
}

/// Values in the order of reversed indices are chunks of one value, transformed.
pub proof fn lemma_reversed_done(v: Seq<int>, s: Seq<int>, l: nat, w: int, stride: nat, p: int)
    requires
        p > 0,
        v.len() == pow2(l),
        s.len() == pow2(l),
        forall|i: int| 0 <= i < v.len() ==> #[trigger] v[i] == s[reversed(i as nat, l) as int],
    ensures
        chunks_done(v, s, l, 0, w, stride, p),
    decreases l,
{
    if l == 0 {
        lemma2_to64();
        assert forall|i: int| 0 <= i < v.len() implies arith::eqm(
            #[trigger] v[i],
            arith::poly_at(s, pow(w, (stride * i) as nat)),
            p,
        ) by {
            assert(v[0] == s[0]);
            lemma_poly_at_constant(s, pow(w, (stride * i) as nat));
        }
    } else {
        let k = (l - 1) as nat;
        let h = pow2(k);
        lemma_pow2_unfold(l);
        let a = v.take(h as int);
        let b = v.skip(h as int);
        assert forall|i: int| 0 <= i < a.len() implies #[trigger] a[i] == dft::evens(s)[reversed(
            i as nat,
            k,
        ) as int] by {
            lemma_reversed_bound(i as nat, k);
            assert(v[i] == s[reversed(i as nat, l) as int]);
        }
        assert forall|i: int| 0 <= i < b.len() implies #[trigger] b[i] == dft::odds(s)[reversed(
            i as nat,
            k,
        ) as int] by {
            lemma_reversed_bound(i as nat, k);
            assert(v[i + h] == s[reversed((i + h) as nat, l) as int]);
        }
        lemma_reversed_done(a, dft::evens(s), k, w, 2 * stride, p);
        lemma_reversed_done(b, dft::odds(s), k, w, 2 * stride, p);
    }
}

pub proof fn lemma_poly_at_constant(s: Seq<int>, x: int)
    requires
        s.len() == 1,
    ensures
        arith::poly_at(s, x) == s[0],
{
    arith::lemma_poly_at_first(s, x);
    assert(s.skip(1) =~= Seq::<int>::empty());
    lemma_mul_basics(x);
}

/// `w` has the order `2^l`.
pub open spec fn has_order(w: int, l: nat, p: int) -> bool {
    l > 0 ==> arith::eqm(pow(w, pow2((l - 1) as nat)), -1, p)
}

/// Replaces the coefficients of a polynomial by its values at the powers of `omega`.
pub fn best_fft<F: Field>(a: &mut Vec<F>, omega: F, log_n: u32)
    requires
        log_n <= TWO_ADICITY,
        old(a)@.len() == pow2(log_n as nat),
        has_order(omega.val(), log_n as nat, F::order()),
    ensures
        final(a)@.len() == old(a)@.len(),
        transformed(poly::vals(final(a)@), poly::vals(old(a)@), omega.val(), 1, F::order()),
{
    let n: usize = a.len();
    let ghost l = log_n as nat;
    let ghost s = poly::vals(a@);
    let ghost w = omega.val();
    let ghost p = F::order();
    let twiddles = twiddle_table(omega, n);
    let tables = butterfly_twiddle_tables(twiddles.as_slice(), n, Ghost(l));
    bitreverse_permute(a.as_mut_slice(), log_n);
    proof {
        F::lemma_order();
        let v = poly::vals(a@);
        assert forall|i: int| 0 <= i < v.len() implies #[trigger] v[i] == s[reversed(
            i as nat,
            l,
        ) as int] by {
            lemma_reversed_bound(i as nat, l);
            assert(a@[i] == old(a)@[reversed(i as nat, l) as int]);
        }
        lemma_reversed_done(v, s, l, w, 1, p);
        lemma2_to64();
        if l > 0 {
            lemma_pow2_unfold(l);
        }
    }
    recursive_butterfly_after_prefix(
        a.as_mut_slice(),
        1,
        1,
        twiddles.as_slice(),
        &tables,
        0,
        Ghost(s),
        Ghost(w),
        Ghost(l),
        Ghost(0nat),
    );
}

/// Multiplies every value by a constant.
pub fn scale_all<F: Field>(a: &mut Vec<F>, factor: F)
    ensures
        final(a)@.len() == old(a)@.len(),
        forall|i: int|
            0 <= i < final(a)@.len() ==> (#[trigger] final(a)@[i]).val() == (old(a)@[i].val()
                * factor.val()) % F::order(),
{
    let n: usize = a.len();
    let mut i: usize = 0;
    while i < n
        invariant
            i <= n,
            n == a@.len(),
            n == old(a)@.len(),
            forall|k: int| i <= k < n ==> #[trigger] a@[k] == old(a)@[k],
            forall|k: int|
                0 <= k < i ==> (#[trigger] a@[k]).val() == (old(a)@[k].val() * factor.val())
                    % F::order(),
        decreases n - i,
    {
        let x = a[i].mul(factor);
        a.set(i, x);
        i += 1;
    }
}

/// Finds the coefficients of the polynomial with the given values at the powers of the
/// inverse of `omega_inv`.
pub fn ifft<F: Field>(a: &mut Vec<F>, omega_inv: F, log_n: u32, divisor: F, Ghost(omega): Ghost<int>)
    requires
        log_n <= TWO_ADICITY,
        old(a)@.len() == pow2(log_n as nat),
        dft::root_pair(omega, omega_inv.val(), log_n as nat, F::order()),
        arith::eqm(divisor.val() * pow2(log_n as nat), 1, F::order()),
    ensures
        final(a)@.len() == old(a)@.len(),
        transformed_back(poly::vals(final(a)@), poly::vals(old(a)@), omega, F::order()),
        forall|m: int|
            0 <= m < final(a)@.len() ==> (#[trigger] final(a)@[m]).val() == (arith::poly_at(
                poly::vals(old(a)@),
                pow(omega_inv.val(), m as nat),
            ) * divisor.val()) % F::order(),
{
    let ghost l = log_n as nat;
    let ghost v = omega_inv.val();
    let ghost p = F::order();
    let ghost values = poly::vals(a@);
    proof {
        dft::lemma_root_pair_swap(omega, v, l, p);
    }
    best_fft(a, omega_inv, log_n);
    let ghost b = poly::vals(a@);
    scale_all(a, divisor);
    proof {
        let d = divisor.val();
        assert forall|m: int| 0 <= m < a@.len() implies (#[trigger] a@[m]).val() == (arith::poly_at(
            values,
            pow(v, m as nat),
        ) * d) % p by {
            assert(arith::eqm(b[m], arith::poly_at(values, pow(v, (1 * m) as nat)), p));
            arith::lemma_eqm_mul(b[m], arith::poly_at(values, pow(v, m as nat)), d, d, p);
        }
        assert forall|m: int| 0 <= m < a@.len() implies arith::eqm(
            #[trigger] poly::vals(a@)[m],
            arith::poly_at(values, pow(v, m as nat)) * d,
            p,
        ) by {
            assert(a@[m].val() == (arith::poly_at(values, pow(v, m as nat)) * d) % p);
            arith::lemma_mod_range(arith::poly_at(values, pow(v, m as nat)) * d, p);
        }
        lemma_interpolates(poly::vals(a@), values, omega, v, d, l, p);
    }
}

/// The coefficients `c` give the values `a` at the powers of `w`.
pub open spec fn transformed_back(c: Seq<int>, a: Seq<int>, w: int, p: int) -> bool {
    forall|i: int| 0 <= i < a.len() ==> arith::eqm(arith::poly_at(c, pow(w, i as nat)), #[trigger] a[i], p)
}

/// The inverse transform finds the polynomial with the given values.
pub proof fn lemma_interpolates(
    c: Seq<int>,
    a: Seq<int>,
    w: int,
    v: int,
    d: int,
    l: nat,
    p: int,
)
    requires
        dft::root_pair(w, v, l, p),
        arith::eqm(d * pow2(l), 1, p),
        a.len() == pow2(l),
        c.len() == pow2(l),
        forall|m: int|
            0 <= m < c.len() ==> arith::eqm(#[trigger] c[m], arith::poly_at(a, pow(v, m as nat)) * d, p),
    ensures
        transformed_back(c, a, w, p),
{
    let n = pow2(l);
    let t = dft::dft(a, v, n);
    dft::lemma_root_pair_swap(w, v, l, p);
    assert forall|i: int| 0 <= i < a.len() implies arith::eqm(
        arith::poly_at(c, pow(w, i as nat)),
        #[trigger] a[i],
        p,
    ) by {
        let x = pow(w, i as nat);
        assert forall|m: int| 0 <= m < c.len() implies arith::eqm(#[trigger] c[m], dft::scaled(t, d)[m], p) by {
            assert(arith::eqm(c[m], arith::poly_at(a, pow(v, m as nat)) * d, p));
        }
        arith::lemma_poly_at_eqm(c, dft::scaled(t, d), x, x, p);
        dft::lemma_poly_at_scaled(t, d, x);
        dft::lemma_dft_inverse(a, v, w, l, i as nat, p);
        let y = arith::poly_at(t, x);
        arith::lemma_eqm_mul(y, n * a[i], d, d, p);
        assert((n * a[i]) * d == (d * n) * a[i]) by (nonlinear_arith);
        arith::lemma_eqm_mul(d * n, 1, a[i], a[i], p);
        lemma_mul_basics(a[i]);
    }
}

/// A chunk of `c` values.
pub open spec fn chunk_at(v: Seq<int>, c: int, t: int) -> Seq<int> {
    v.subrange(t * c, (t + 1) * c)
}

/// Chunk `t` holds the values of two coefficients, in the order of reversed indices.
pub open spec fn pair_done(
    v: Seq<int>,
    s: Seq<int>,
    k: nat,
    c: int,
    t: int,
    w: int,
    stride: nat,
    p: int,
) -> bool {
    transformed(
        chunk_at(v, c, t),
        seq![
            s[reversed((2 * t) as nat, k) as int],
            s[reversed((2 * t + 1) as nat, k) as int],
        ],
        w,
        stride,
        p,
    )
}

/// Pairs of coefficients, transformed, are the first stage of a padded transform.
proof fn lemma_pairs_done(
    v: Seq<int>,
    s: Seq<int>,
    k: nat,
    done: nat,
    w: int,
    stride: nat,
    total: nat,
    p: int,
)
    requires
        p > 0,
        k > 0,
        s.len() == pow2(k),
        v.len() == pow2((k - 1 + done) as nat),
        total == stride * pow2((k - 1) as nat),
        forall|t: int|
            0 <= t < pow2((k - 1) as nat) ==> #[trigger] pair_done(
                v,
                s,
                k,
                pow2(done) as int,
                t,
                w,
                total,
                p,
            ),
    ensures
        chunks_done(v, s, (k - 1 + done) as nat, done, w, stride, p),
    decreases k,
{
    let c = pow2(done) as int;
    let l = (k - 1 + done) as nat;
    lemma2_to64();
    lemma_mul_basics(stride as int);
    if k == 1 {
        assert(pair_done(v, s, k, c, 0, w, total, p));
        lemma_mul_basics(c);
        assert(chunk_at(v, c, 0) =~= v);
        reveal_with_fuel(reversed, 2);
        assert(reversed(0, 1) == 0);
        assert(reversed(1, 1) == 1);
        assert(seq![s[0], s[1]] =~= s);
    } else {
        let j = (k - 1) as nat;
        let h = pow2((l - 1) as nat) as int;
        let q = pow2((j - 1) as nat) as int;
        lemma_pow2_unfold(k);
        lemma_pow2_unfold(j);
        lemma_pow2_unfold(l);
        lemma_pow2_adds((j - 1) as nat, done);
        assert((j - 1 + done) as nat == (l - 1) as nat);
        assert(q * c == h);
        assert((2 * stride) * q == stride * (2 * q)) by (nonlinear_arith);
        let a = v.take(h);
        let b = v.skip(h);
        assert forall|t: int| 0 <= t < q implies #[trigger] pair_done(
            a,
            dft::evens(s),
            j,
            c,
            t,
            w,
            total,
            p,
        ) by {
            assert(pair_done(v, s, k, c, t, w, total, p));
            lemma_chunk_inside(t, c, q);
            assert(chunk_at(a, c, t) =~= chunk_at(v, c, t));
            lemma_reversed_bound((2 * t) as nat, j);
            lemma_reversed_bound((2 * t + 1) as nat, j);
        }
        assert forall|t: int| 0 <= t < q implies #[trigger] pair_done(
            b,
            dft::odds(s),
            j,
            c,
            t,
            w,
            total,
            p,
        ) by {
            assert(pair_done(v, s, k, c, t + q, w, total, p));
            lemma_chunk_inside(t, c, q);
            assert((t + q) * c == t * c + q * c) by (nonlinear_arith);
            assert((t + q + 1) * c == (t + 1) * c + q * c) by (nonlinear_arith);
            assert(chunk_at(b, c, t) =~= chunk_at(v, c, t + q)) by {
                assert((2 * q) * c == q * c + q * c) by (nonlinear_arith);
            }
            lemma_reversed_bound((2 * t) as nat, j);
            lemma_reversed_bound((2 * t + 1) as nat, j);
            assert(2 * (t + q) - 2 * q == 2 * t);
        }
        lemma_pairs_done(a, dft::evens(s), j, done, w, 2 * stride, total, p);
        lemma_pairs_done(b, dft::odds(s), j, done, w, 2 * stride, total, p);
    }
}

pub proof fn lemma_chunk_inside(t: int, c: int, q: int)
    requires
        0 <= t < q,
        c >= 0,
    ensures
        0 <= t * c <= (t + 1) * c <= q * c,
        (t + 1) * c == t * c + c,
{
    assert((t + 1) * c <= q * c) by (nonlinear_arith)
        requires
            t + 1 <= q,
            c >= 0,
    ;
    assert((t + 1) * c == t * c + c) by (nonlinear_arith);
    assert(0 <= t * c) by (nonlinear_arith)
        requires
            t >= 0,
            c >= 0,
    ;
}

/// Appends the values of `left + right * X` at `2 * extension` points.
fn push_pair<F: Field>(
    values: &mut Vec<F>,
    left: F,
    right: F,
    twiddles: &[F],
    stride: usize,
    extension: usize,
    Ghost(w): Ghost<int>,
)
    requires
        extension > 0,
        stride > 0,
        powers_of(twiddles@, w),
        stride * extension == twiddles@.len(),
        arith::eqm(pow(w, twiddles@.len()), -1, F::order()),
    ensures
        final(values)@.len() == old(values)@.len() + 2 * extension,
        final(values)@.take(old(values)@.len() as int) == old(values)@,
        transformed(
            poly::vals(final(values)@.skip(old(values)@.len() as int)),
            seq![left.val(), right.val()],
            w,
            stride as nat,
            F::order(),
        ),
{
    let ghost before = values@;
    let ghost p = F::order();
    let total: usize = twiddles.len();
    let mut right_values: Vec<F> = Vec::with_capacity(extension);
    let mut index: usize = 0;
    proof {
        F::lemma_order();
    }
    while index < extension
        invariant
            index <= extension,
            stride > 0,
            total == twiddles@.len(),
            stride * extension == total,
            powers_of(twiddles@, w),
            p == F::order(),
            p > 2,
            before == old(values)@,
            values@.len() == before.len() + index,
            values@.take(before.len() as int) =~= before,
            right_values@.len() == index,
            forall|i: int|
                0 <= i < index ==> (#[trigger] values@[before.len() + i]).val() == (left.val() + (
                right.val() * (pow(w, (stride * i) as nat) % p)) % p) % p,
            forall|i: int|
                0 <= i < index ==> (#[trigger] right_values@[i]).val() == (left.val() - (
                right.val() * (pow(w, (stride * i) as nat) % p)) % p) % p,
        decreases extension - index,
    {
        proof {
            assert(0 <= index * stride < stride * extension) by (nonlinear_arith)
                requires
                    0 <= index < extension,
                    stride > 0,
            ;
            lemma_mul_is_commutative(index as int, stride as int);
        }
        let t = if index == 0 {
            proof {
                lemma_mul_basics(stride as int);
                lemma_pow0(w);
                arith::lemma_mod_small(1, p);
                lemma_mul_basics(right.val());
                F::lemma_val(right);
                arith::lemma_mod_small(right.val(), p);
            }
            right
        } else {
            right.mul(twiddles[index * stride])
        };
        let ghost now = values@;
        values.push(left.add(t));
        right_values.push(left.sub(t));
        proof {
            assert forall|i: int| 0 <= i < index + 1 implies (
            #[trigger] values@[before.len() + i]).val() == (left.val() + (right.val() * (pow(
                w,
                (stride * i) as nat,
            ) % p)) % p) % p by {
                if i < index {
                    assert(values@[before.len() + i] == now[before.len() + i]);
                }
            }
        }
        index += 1;
    }
    let ghost first = values@;
    let mut j: usize = 0;
    while j < extension
        invariant
            j <= extension,
            right_values@.len() == extension,
            first.len() == before.len() + extension,
            values@.len() == first.len() + j,
            values@.take(first.len() as int) =~= first,
            forall|i: int|
                0 <= i < j ==> #[trigger] values@[first.len() + i] == right_values@[i],
        decreases extension - j,
    {
        let ghost now = values@;
        values.push(right_values[j]);
        proof {
            assert forall|i: int| 0 <= i < j + 1 implies #[trigger] values@[first.len() + i]
                == right_values@[i] by {
                if i < j {
                    assert(values@[first.len() + i] == now[first.len() + i]);
                }
            }
        }
        j += 1;
    }
    proof {
        assert(values@.take(before.len() as int) =~= before) by {
            assert forall|i: int| 0 <= i < before.len() implies values@[i] == before[i] by {
                assert(values@.take(first.len() as int)[i] == first[i]);
                assert(first.take(before.len() as int)[i] == before[i]);
            }
        }
        let v = poly::vals(values@.skip(before.len() as int));
        let s = seq![left.val(), right.val()];
        let (a, b) = (left.val(), right.val());
        assert forall|i: int| 0 <= i < v.len() implies arith::eqm(
            #[trigger] v[i],
            arith::poly_at(s, pow(w, (stride * i) as nat)),
            p,
        ) by {
            let k = if i < extension {
                i
            } else {
                i - extension
            };
            let x = pow(w, (stride * k) as nat);
            let y = pow(w, (stride * i) as nat);
            lemma_poly_at_pair(a, b, y);
            let t = (b * (x % p)) % p;
            arith::lemma_mod_mul(b, x, p);
            arith::lemma_mod_range(b * x, p);
            if i < extension {
                assert(values@.take(first.len() as int)[before.len() + i] == first[before.len()
                    + i]);
                assert(first[before.len() + i].val() == (a + t) % p);
                arith::lemma_mod_range(a + t, p);
                arith::lemma_eqm_add(a, a, t, b * x, p);
            } else {
                assert(values@[first.len() + k] == right_values@[k]);
                arith::lemma_mod_range(a - t, p);
                arith::lemma_eqm_sub(a, a, t, b * x, p);
                assert(stride * k >= 0) by (nonlinear_arith)
                    requires
                        stride >= 0,
                        k >= 0,
                ;
                assert(stride * i == stride * k + stride * extension) by (nonlinear_arith)
                    requires
                        i == k + extension,
                ;
                lemma_pow_adds(w, (stride * k) as nat, (stride * extension) as nat);
                let m = pow(w, (stride * extension) as nat);
                arith::lemma_eqm_mul(x, x, m, -1, p);
                arith::lemma_eqm_mul(b, b, y, x * -1, p);
                assert(b * (x * -1) == -(b * x)) by (nonlinear_arith);
                arith::lemma_eqm_add(a, a, b * y, -(b * x), p);
            }
        }
    }
}

proof fn lemma_poly_at_pair(a: int, b: int, x: int)
    ensures
        arith::poly_at(seq![a, b], x) == a + b * x,
{
    let s = seq![a, b];
    arith::lemma_poly_at_first(s, x);
    assert(s.skip(1) =~= seq![b]);
    lemma_poly_at_constant(seq![b], x);
    lemma_mul_is_commutative(x, b);
}

/// Replaces the only coefficient by the values of the constant polynomial.
fn fill_constant_values<F: Field>(coefficients: &mut Vec<F>, n: usize, Ghost(w): Ghost<int>)
    requires
        old(coefficients)@.len() == 1,
        n >= 1,
    ensures
        final(coefficients)@.len() == n,
        transformed(poly::vals(final(coefficients)@), poly::vals(old(coefficients)@), w, 1, F::order()),
{
    let value = coefficients[0];
    let ghost s = poly::vals(coefficients@);
    while coefficients.len() < n
        invariant
            1 <= coefficients@.len() <= n,
            forall|i: int| 0 <= i < coefficients@.len() ==> #[trigger] coefficients@[i] == value,
        decreases n - coefficients@.len(),
    {
        coefficients.push(value);
    }
    proof {
        let v = poly::vals(coefficients@);
        assert forall|i: int| 0 <= i < v.len() implies arith::eqm(
            #[trigger] v[i],
            arith::poly_at(s, pow(w, (1 * i) as nat)),
            F::order(),
        ) by {
            assert(coefficients@[i] == value);
            lemma_poly_at_constant(s, pow(w, (1 * i) as nat));
        }
    }
}

/// Replaces `2^log_n` coefficients by the values of the polynomial at the
/// `2^extended_log_n` powers of the root whose powers `twiddles` lists.
///
/// The omitted radix-2 stages would copy each live coefficient across a chunk. The
/// first retained stage is materialized directly instead, so no butterfly
/// multiplication has an implicit zero operand, and only `log_n` stages remain.
pub fn fft_zero_padded_with_twiddles<F: Field>(
    coefficients: &mut Vec<F>,
    log_n: u32,
    extended_log_n: u32,
    twiddles: &[F],
    tables: &Vec<Vec<F>>,
    Ghost(w): Ghost<int>,
)
    requires
        log_n <= extended_log_n <= TWO_ADICITY,
        pow2(extended_log_n as nat) <= usize::MAX,
        old(coefficients)@.len() == pow2(log_n as nat),
        twiddles@.len() == pow2(extended_log_n as nat) as int / 2,
        powers_of(twiddles@, w),
        has_order(w, extended_log_n as nat, F::order()),
        tables_fit(
            tables@,
            twiddles@,
            pow2(extended_log_n as nat) as int,
            0,
            1,
        ),
    ensures
        final(coefficients)@.len() == pow2(extended_log_n as nat),
        transformed(poly::vals(final(coefficients)@), poly::vals(old(coefficients)@), w, 1, F::order()),
{
    let n: usize = coefficients.len();
    let extended_n: usize = power_of_two(extended_log_n);
    let ghost k = log_n as nat;
    let ghost e = extended_log_n as nat;
    let ghost p = F::order();
    let ghost s = poly::vals(coefficients@);
    proof {
        F::lemma_order();
        lemma2_to64();
        lemma_pow2_pos(k);
        lemma_pow2_pos(e);
    }
    if n == 1 {
        fill_constant_values(coefficients, extended_n, Ghost(w));
        return ;
    }
    let ghost d = (e - k) as nat;
    let ghost done = d + 1;
    proof {
        assert(k > 0);
        lemma_pow2_unfold(k);
        lemma_pow2_unfold(e);
        lemma_pow2_unfold(done);
        lemma_pow2_adds(d, k);
        lemma_pow2_adds((k - 1) as nat, done);
        lemma_pow2_pos(d);
        lemma_pow2_pos((k - 1) as nat);
        vstd::arithmetic::div_mod::lemma_div_multiples_vanish(pow2(d) as int, pow2(k) as int);
        lemma_mul_is_commutative(pow2(d) as int, pow2(k) as int);
    }
    let extension: usize = extended_n / n;
    let half: usize = n / 2;
    let mut values: Vec<F> = Vec::with_capacity(extended_n);
    let ghost c = pow2(done) as int;
    proof {
        assert(extension == pow2(d));
        assert(half * extension == twiddles@.len()) by (nonlinear_arith)
            requires
                2 * half == pow2(k),
                extension == pow2(d),
                pow2(d) * pow2(k) == pow2(e),
                twiddles@.len() == pow2(e) as int / 2,
        ;
    }
    let mut pair: usize = 0;
    while pair < half
        invariant
            pair <= half,
            n == 2 * half,
            n == pow2(k),
            k == log_n,
            k > 0,
            n <= usize::MAX,
            s == poly::vals(coefficients@),
            s.len() == n,
            extension > 0,
            half > 0,
            c == 2 * extension,
            c == pow2(done),
            half * extension == twiddles@.len(),
            powers_of(twiddles@, w),
            arith::eqm(pow(w, twiddles@.len()), -1, p),
            p == F::order(),
            p > 2,
            values@.len() == pair * c,
            forall|t: int|
                0 <= t < pair ==> #[trigger] pair_done(
                    poly::vals(values@),
                    s,
                    k,
                    c,
                    t,
                    w,
                    half as nat,
                    p,
                ),
        decreases half - pair,
    {
        let a: usize = bitreverse(2 * pair, log_n);
        let b: usize = bitreverse(2 * pair + 1, log_n);
        let left = coefficients[a];
        let right = coefficients[b];
        let ghost before = values@;
        push_pair(&mut values, left, right, twiddles, half, extension, Ghost(w));
        proof {
            assert((pair + 1) * c == pair * c + c) by (nonlinear_arith);
            assert forall|t: int| 0 <= t < pair + 1 implies #[trigger] pair_done(
                poly::vals(values@),
                s,
                k,
                c,
                t,
                w,
                half as nat,
                p,
            ) by {
                if t < pair {
                    assert(pair_done(poly::vals(before), s, k, c, t, w, half as nat, p));
                    lemma_chunk_inside(t, c, pair as int);
                    assert forall|i: int| 0 <= i < before.len() implies before[i] == values@[i] by {
                        assert(values@.take(before.len() as int)[i] == values@[i]);
                    }
                    assert(chunk_at(poly::vals(values@), c, t) =~= chunk_at(poly::vals(before), c, t));
                } else {
                    assert(chunk_at(poly::vals(values@), c, t) =~= poly::vals(
                        values@.skip(before.len() as int),
                    ));
                }
            }
        }
        pair += 1;
    }
    proof {
        lemma_mul_basics(half as int);
        lemma_pairs_done(poly::vals(values@), s, k, done, w, 1, half as nat, p);
        assert((k - 1 + done) as nat == e);
    }
    recursive_butterfly_after_prefix(
        values.as_mut_slice(),
        2 * extension,
        1,
        twiddles,
        tables,
        0,
        Ghost(s),
        Ghost(w),
        Ghost(e),
        Ghost(done),
    );
    *coefficients = values;
}

/// Replaces `2^log_n` coefficients by the values of the polynomial at the
/// `2^extended_log_n` powers of `omega`.
pub fn fft_zero_padded<F: Field>(
    coefficients: &mut Vec<F>,
    omega: F,
    log_n: u32,
    extended_log_n: u32,
)
    requires
        log_n <= extended_log_n <= TWO_ADICITY,
        pow2(extended_log_n as nat) <= usize::MAX,
        old(coefficients)@.len() == pow2(log_n as nat),
        has_order(omega.val(), extended_log_n as nat, F::order()),
    ensures
        final(coefficients)@.len() == pow2(extended_log_n as nat),
        transformed(
            poly::vals(final(coefficients)@),
            poly::vals(old(coefficients)@),
            omega.val(),
            1,
            F::order(),
        ),
{
    if log_n == extended_log_n {
        best_fft(coefficients, omega, log_n);
        return ;
    }
    let extended_n: usize = power_of_two(extended_log_n);
    proof {
        lemma_pow2_pos(extended_log_n as nat);
        lemma2_to64();
    }
    if coefficients.len() == 1 {
        fill_constant_values(coefficients, extended_n, Ghost(omega.val()));
        return ;
    }
    let twiddles = twiddle_table(omega, extended_n);
    let tables = butterfly_twiddle_tables(
        twiddles.as_slice(),
        extended_n,
        Ghost(extended_log_n as nat),
    );
    fft_zero_padded_with_twiddles(
        coefficients,
        log_n,
        extended_log_n,
        twiddles.as_slice(),
        &tables,
        Ghost(omega.val()),
    );
}

} // verus!
