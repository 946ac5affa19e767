//! Digits, orders and sizes, written out.
use crate::arith;
use crate::basis;
use crate::basis::FIELD_BYTES;
use crate::commit;
use crate::curve;
use crate::curve::CurveAffine;
use crate::fft;
use crate::field::Field;
use crate::layout::LinearTermCacheBudget;
use crate::params::Platform;
use crate::sums;
use crate::tables;
use crate::windows;
use crate::windows::WindowTable;
use vstd::arithmetic::div_mod::*;
use vstd::arithmetic::mul::*;
use vstd::arithmetic::power::*;
use vstd::arithmetic::power2::*;
use vstd::prelude::*;

verus! {

/// The signed digits of a scalar are no larger than half the radix, and spell the scalar.
pub proof fn law_signed_digits(bytes: Seq<u8>, half: int)
    requires
        half == 128 || half == 8,
        bytes.len() == 32,
        Seq::new(32, |i: int| bytes[i] * pow(256, i as nat)).fold_left(
            0int,
            |a: int, b: int| a + b,
        ) < 0x8000000000000000000000000000000000000000000000000000000000000000int,
    ensures
        forall|i: int|
            0 <= i < (if half == 128 {
                32int
            } else {
                64
            }) ==> -half <= #[trigger] windows::signed(windows::digits(bytes, half), half, i) <= half,
        Seq::new(
            if half == 128 {
                32nat
            } else {
                64
            },
            |i: int| windows::signed(windows::digits(bytes, half), half, i) * pow(2 * half, i as nat),
        ).fold_left(0int, |a: int, b: int| a + b) == Seq::new(
            32,
            |i: int| bytes[i] * pow(256, i as nat),
        ).fold_left(0int, |a: int, b: int| a + b),
{
    let s = Seq::new(bytes.len(), |i: int| bytes[i] as int);
    sums::law_polynomial_value(s, 256);
    assert(Seq::new(s.len(), |i: int| s[i] * pow(256, i as nat)) =~= Seq::new(
        32,
        |i: int| bytes[i] * pow(256, i as nat),
    ));
    windows::lemma_signed_scalar(bytes, half);
    let v = windows::digits(bytes, half);
    let t = windows::signed_digits(v, half);
    sums::law_polynomial_value(t, 2 * half);
    assert(Seq::new(t.len(), |i: int| t[i] * pow(2 * half, i as nat)) =~= Seq::new(
        if half == 128 {
            32nat
        } else {
            64
        },
        |i: int| windows::signed(windows::digits(bytes, half), half, i) * pow(2 * half, i as nat),
    ));
    assert forall|i: int| 0 <= i < v.len() implies -half <= #[trigger] windows::signed(v, half, i)
        <= half by {
        assert(0 <= v[i] < 2 * half);
    }
}

/// The entries of a window table are the multiples, up to half the radix, of each base times
/// each power of the radix.
pub proof fn law_window_table<C: CurveAffine>(table: WindowTable<C>, b: int, w: int, m: int)
    requires
        table.wf(),
        0 <= b < table.bases@.len(),
        0 <= w < (if table.half == 128 {
            32int
        } else {
            64
        }),
        1 <= m <= table.half,
    ensures
        ({
            let windows: int = if table.half == 128 {
                32
            } else {
                64
            };
            let at = (b * windows + w) * table.half + m - 1;
            &&& table.half == 128 || table.half == 8
            &&& table.points@.len() == table.bases@.len() * windows * table.half
            &&& 0 <= at < table.points@.len()
            &&& table.points@[at].on_curve()
            &&& curve::log(table.points@[at]) == (curve::log(table.bases@[b]) * (m * pow(
                2 * table.half,
                w as nat,
            ))) % C::ScalarExt::order()
        }),
{
    let windows: int = if table.half == 128 {
        32
    } else {
        64
    };
    let half = table.half as int;
    let n = table.bases@.len() as int;
    assert(table.windows() == windows);
    assert(table.base_positioned(b));
    let from = b * (windows * half);
    let at = from + w * half + m - 1;
    assert(at == (b * windows + w) * half + m - 1) by (nonlinear_arith)
        requires
            at == b * (windows * half) + w * half + m - 1,
    ;
    assert(0 <= from) by (nonlinear_arith)
        requires
            from == b * (windows * half),
            b >= 0,
            windows > 0,
            half > 0,
    ;
    assert(w * half + m - 1 < windows * half) by (nonlinear_arith)
        requires
            w < windows,
            m <= half,
            half > 0,
    ;
    assert(0 <= w * half) by (nonlinear_arith)
        requires
            w >= 0,
            half > 0,
    ;
    assert((b + 1) * (windows * half) == from + windows * half) by (nonlinear_arith)
        requires
            from == b * (windows * half),
    ;
    assert((b + 1) * (windows * half) <= n * windows * half) by (nonlinear_arith)
        requires
            b + 1 <= n,
            windows > 0,
            half > 0,
    ;
    let e = windows::entry(table.points@, from, half, w, m);
    assert(e == table.points@[at]);
}

/// Reversing exchanges the bits of a number from both ends.
pub proof fn law_reversed_bits(i: nat, l: nat, j: nat)
    requires
        i < pow2(l),
        j < l,
    ensures
        fft::reversed(i, l) < pow2(l),
        (fft::reversed(i, l) as int / pow2(j) as int) % 2 == (i as int / pow2((l - 1 - j) as nat) as int)
            % 2,
        fft::reversed(fft::reversed(i, l), l) == i,
    decreases l,
{
    fft::lemma_reversed_bound(i, l);
    fft::lemma_reversed_twice(i, l);
    let k = (l - 1) as nat;
    let h = pow2(k);
    lemma_pow2_unfold(l);
    lemma_pow2_pos(k);
    let (top, rest): (int, nat) = if i < h {
        (0, i)
    } else {
        (1, (i - h) as nat)
    };
    let r = fft::reversed(rest, k);
    assert(fft::reversed(i, l) == 2 * r + top);
    if j == 0 {
        lemma2_to64();
        assert((2 * r + top) / 1 == 2 * r + top);
        if top == 0 {
            lemma_basic_div(i as int, h as int);
        } else {
            lemma_div_plus_one(rest as int, h as int);
            lemma_basic_div(rest as int, h as int);
        }
    } else {
        let e = (j - 1) as nat;
        law_reversed_bits(rest, k, e);
        lemma_pow2_unfold(j);
        lemma_pow2_pos(e);
        lemma_div_denominator(2 * r + top, 2, pow2(e) as int);
        assert((2 * r + top) / 2 == r);
        let f = (k - 1 - e) as nat;
        assert((l - 1 - j) as nat == f);
        // The top bit does not reach the lower ones.
        if top == 1 {
            lemma_pow2_adds(f, (k - f) as nat);
            lemma_pow2_pos(f);
            lemma_pow2_unfold((k - f) as nat);
            let (a, b) = (pow2(f) as int, pow2((k - f) as nat) as int);
            let c = pow2((k - f - 1) as nat) as int;
            assert(i == rest + a * b);
            lemma_hoist_over_denominator(rest as int, b, a as nat);
            assert(b == 2 * c);
            assert(rest as int / a + b == (rest + b * a) / a);
            lemma_mul_is_commutative(a, b);
            assert((rest as int / a + 2 * c) % 2 == (rest as int / a) % 2);
        }
    }
}

/// A transform holds at each place the polynomial's value at that power of the root.
pub proof fn law_transform(v: Seq<int>, s: Seq<int>, w: int, p: int, i: nat)
    requires
        fft::transformed(v, s, w, 1, p),
        i < v.len(),
    ensures
        v[i as int] % p == Seq::new(s.len(), |j: int| s[j] * pow(pow(w, i), j as nat)).fold_left(
            0int,
            |a: int, b: int| a + b,
        ) % p,
{
    sums::law_polynomial_value(s, pow(w, i));
    assert(arith::eqm(v[i as int], arith::poly_at(s, pow(w, (1 * i) as nat)), p));
}

/// A list of powers starts with one, and each entry is the one before it times the base.
pub proof fn law_powers<F: Field>(s: Seq<F>, w: int, i: int)
    requires
        fft::powers_of(s, w),
        0 <= i < s.len(),
    ensures
        s[0].val() == 1,
        i + 1 < s.len() ==> s[i + 1].val() == (w * s[i].val()) % F::order(),
{
    F::lemma_order();
    lemma_pow0(w);
    arith::lemma_mod_small(1, F::order());
    if i + 1 < s.len() {
        arith::lemma_pow_step(w, i as nat);
        arith::lemma_mod_range(pow(w, i as nat), F::order());
        arith::lemma_eqm_mul(w, w, s[i].val(), pow(w, i as nat), F::order());
    }
}

/// In the bases of values, at most sixteen linear terms are cached, in as many additional
/// slots as four mebibytes hold columns of 32 bytes a row, and in no more than sixteen; in
/// the basis of coefficients none is.
pub proof fn law_linear_budget(poly_len: usize)
    ensures
        basis::linear_term_budget::<crate::poly::Coeff>(poly_len) == (LinearTermCacheBudget {
            max_entries: 0,
            max_additional_slots: 0,
        }),
        basis::linear_term_budget::<crate::poly::LagrangeCoeff>(poly_len).max_entries == 16,
        basis::linear_term_budget::<crate::poly::ExtendedLagrangeCoeff>(poly_len) == basis::linear_term_budget::<
            crate::poly::LagrangeCoeff,
        >(poly_len),
        ({
            let slots = basis::linear_term_budget::<crate::poly::LagrangeCoeff>(
                poly_len,
            ).max_additional_slots;
            &&& slots <= 16
            &&& slots * (poly_len * 32) <= 4194304
            &&& 0 < poly_len && poly_len * 32 <= usize::MAX && slots < 16 ==> (slots + 1) * (poly_len
                * 32) > 4194304
        }),
{
    let n = poly_len * 32;
    let slots = basis::linear_term_budget::<crate::poly::LagrangeCoeff>(poly_len).max_additional_slots
        as int;
    assert(FIELD_BYTES == 32);
    if 0 < poly_len && n <= usize::MAX {
        let d = 4194304int / n;
        lemma_fundamental_div_mod(4194304, n);
        lemma_mod_bound(4194304, n);
        assert(d >= 0) by {
            lemma_div_pos_is_pos(4194304, n);
        }
        lemma_mul_is_distributive_add_other_way(n, d, 1);
        lemma_mul_is_commutative(n, d);
        if slots < d {
            lemma_mul_inequality(slots, d, n);
        }
    } else {
        lemma_mul_basics(n);
    }
}

/// The widest pool that prepared commitments are measured for is ten threads on AArch64
/// macOS for `2^11` rows, and eight elsewhere.
pub proof fn law_widest_pool(platform: Platform, k: u32)
    ensures
        platform is AArch64MacOs && k == 11 ==> commit::widest_pool(platform, k) == 10,
        platform is AArch64MacOs && k != 11 ==> commit::widest_pool(platform, k) == commit::widest_pool(
            Platform::Other,
            k,
        ),
        platform is Other ==> commit::widest_pool(platform, k) == 8,
{
}

/// A quotient that is rounded up is the smallest number that is large enough.
pub proof fn law_rounded_up(a: int, b: int)
    requires
        a > 0,
        b > 0,
    ensures
        basis::ceil_div(a, b) * b >= a,
        (basis::ceil_div(a, b) - 1) * b < a,
{
    basis::lemma_ceil_div(a, b);
}

/// Points of which no neighbours have the same first coordinate can be added along chords
/// where the sums of the neighbours can, a last point without a neighbour staying as it is.
pub proof fn law_chord_level(s: Seq<(int, int)>, sums: Seq<(int, int)>, inverses: Seq<int>, p: int)
    requires
        p > 2,
        s.len() >= 2,
        sums.len() == (s.len() + 1) / 2,
        inverses.len() == s.len() / 2,
        forall|i: int|
            0 <= i < inverses.len() ==> {
                let (a, b, v) = (s[2 * i], s[2 * i + 1], #[trigger] inverses[i]);
                let slope = ((b.1 - a.1) * v) % p;
                let x = (slope * slope - a.0 - b.0) % p;
                &&& a.0 != b.0
                &&& 0 <= v < p
                &&& ((b.0 - a.0) * v) % p == 1
                &&& sums[i] == (x, (slope * (a.0 - x) - a.1) % p)
            },
        s.len() % 2 == 1 ==> sums.last() == s.last(),
    ensures
        tables::adds_along_chords(s, p) <==> tables::adds_along_chords(sums, p),
{
    assert forall|i: int| 0 <= i < s.len() / 2 implies #[trigger] tables::differ_at(s, i) by {
        let v = inverses[i];
    }
    assert(tables::next_level(s, p) =~= sums) by {
        assert forall|i: int| 0 <= i < sums.len() implies tables::next_level(s, p)[i] == sums[i] by {
            if 2 * i + 1 < s.len() {
                let v = inverses[i];
                let d = s[2 * i + 1].0 - s[2 * i].0;
                arith::lemma_mod_small(1, p);
                assert(tables::is_inverse(d, v, p));
                tables::lemma_inverse_unique(d, tables::inverse_of(d, p), v, p);
            }
        }
    }
}

/// Neighbours with the same first coordinate have no chord.
pub proof fn law_same_first_coordinate(s: Seq<(int, int)>, i: int, p: int)
    requires
        0 <= i < s.len() / 2,
        s[2 * i].0 == s[2 * i + 1].0,
    ensures
        !tables::adds_along_chords(s, p),
{
    assert(!tables::differ_at(s, i));
}

/// One point, or none, needs no chord.
pub proof fn law_no_chord(s: Seq<(int, int)>, p: int)
    requires
        s.len() <= 1,
    ensures
        tables::adds_along_chords(s, p),
{
}

/// What an inverse transform gives are coefficients whose polynomial has the values at the
/// powers of the root.
pub proof fn law_inverse_transform(c: Seq<int>, a: Seq<int>, w: int, p: int, i: nat)
    requires
        fft::transformed_back(c, a, w, p),
        i < a.len(),
    ensures
        Seq::new(c.len(), |j: int| c[j] * pow(pow(w, i), j as nat)).fold_left(
            0int,
            |s: int, t: int| s + t,
        ) % p == a[i as int] % p,
{
    sums::law_polynomial_value(c, pow(w, i));
    assert(arith::eqm(arith::poly_at(c, pow(w, i as nat)), a[i as int], p));
}

/// The rows of a chunk that come before the end are all of them, or those up to the end.
pub proof fn law_rows_before_end(row: int, offset: int, n: int, chunk_len: int)
    requires
        n > 0,
        chunk_len >= 0,
    ensures
        basis::rows_before_end(row, offset, n, chunk_len) <= chunk_len,
        basis::rows_before_end(row, offset, n, chunk_len) + (row + offset) % n <= n,
        basis::rows_before_end(row, offset, n, chunk_len) == chunk_len || basis::rows_before_end(
            row,
            offset,
            n,
            chunk_len,
        ) + (row + offset) % n == n,
{
}

} // verus!
