//! Fixed-window tables of multiples of points, and the signed digits that select from
//! them.
use crate::arith;
use crate::curve;
use crate::curve::CurveAffine;
use crate::field::Field;
use vstd::arithmetic::mul::*;
use vstd::arithmetic::power::*;
use vstd::prelude::*;

verus! {

/// The bytes of a scalar.
pub const SCALAR_BYTES: usize = 32;

/// Signed width-eight fixed-base windows.
pub const FIXED_BASE_WINDOW_BITS: usize = 8;

pub const FIXED_BASE_WINDOW_MAGNITUDES: usize = 128;

/// The measured memory/latency knee for the two sparse prover commitments.
pub const SPARSE_COMMITMENT_WINDOW_BITS: usize = 4;

pub const SPARSE_COMMITMENT_WINDOW_MAGNITUDES: usize = 8;

/// Whether digits of the given magnitudes are cut from bytes: one, or two from each.
pub open spec fn is_half(half: int) -> bool {
    half == 128 || half == 8
}

/// The number of windows in the bytes of a scalar.
pub open spec fn window_count(half: int) -> int {
    if half == 128 {
        32
    } else {
        64
    }
}

/// The unsigned digits of bytes, in the base of twice the magnitudes.
pub open spec fn digits(bytes: Seq<u8>, half: int) -> Seq<int> {
    if half == 128 {
        Seq::new(bytes.len(), |i: int| bytes[i] as int)
    } else {
        Seq::new(
            (2 * bytes.len()) as nat,
            |i: int|
                if i % 2 == 0 {
                    bytes[i / 2] as int % 16
                } else {
                    bytes[i / 2] as int / 16
                },
        )
    }
}

/// What a digit takes over from the one below: its high half becomes negative.
pub open spec fn carry(v: Seq<int>, half: int, i: int) -> int {
    if 0 < i <= v.len() && v[i - 1] >= half {
        1
    } else {
        0
    }
}

/// The signed digit: no larger than half the base.
pub open spec fn signed(v: Seq<int>, half: int, i: int) -> int {
    v[i] + carry(v, half, i) - 2 * half * carry(v, half, i + 1)
}

pub open spec fn signed_digits(v: Seq<int>, half: int) -> Seq<int> {
    Seq::new(v.len(), |i: int| signed(v, half, i))
}

/// The carries cancel between adjacent digits.
proof fn lemma_signed(v: Seq<int>, half: int, k: nat)
    requires
        k <= v.len(),
    ensures
        arith::poly_at(signed_digits(v, half).take(k as int), 2 * half) == arith::poly_at(
            v.take(k as int),
            2 * half,
        ) - carry(v, half, k as int) * pow(2 * half, k),
    decreases k,
{
    let r = 2 * half;
    let s = signed_digits(v, half);
    if k == 0 {
        assert(s.take(0) =~= Seq::<int>::empty());
        assert(v.take(0) =~= Seq::<int>::empty());
        lemma_mul_basics(pow(r, 0));
    } else {
        let h = (k - 1) as nat;
        lemma_signed(v, half, h);
        assert(s.take(k as int) =~= s.take(h as int).push(s[h as int]));
        assert(v.take(k as int) =~= v.take(h as int).push(v[h as int]));
        arith::lemma_poly_at_push(s.take(h as int), r, s[h as int]);
        arith::lemma_poly_at_push(v.take(h as int), r, v[h as int]);
        arith::lemma_pow_step(r, h);
        let (a, b, c, q) = (
            v[h as int],
            carry(v, half, h as int),
            carry(v, half, k as int),
            pow(r, h),
        );
        assert((a + b - r * c) * q == a * q + b * q - c * (r * q)) by (nonlinear_arith);
    }
}

/// Two digits to a byte spell what the bytes spell.
proof fn lemma_nibbles(bytes: Seq<u8>)
    ensures
        arith::poly_at(digits(bytes, 8), 16) == arith::bytes_val(bytes),
    decreases bytes.len(),
{
    let v = digits(bytes, 8);
    let b = Seq::new(bytes.len(), |i: int| bytes[i] as int);
    if bytes.len() == 0 {
        assert(v =~= Seq::<int>::empty());
        assert(b =~= Seq::<int>::empty());
    } else {
        let f = bytes.drop_last();
        lemma_nibbles(f);
        let n = f.len();
        let x = bytes.last() as int;
        let u = digits(f, 8);
        assert(v =~= u.push(x % 16).push(x / 16)) by {
            assert(v.len() == u.len() + 2);
            assert forall|i: int| 0 <= i < u.len() implies v[i] == u[i] by {
                assert(bytes[i / 2] == f[i / 2]);
            }
        }
        arith::lemma_poly_at_push(u, 16, x % 16);
        arith::lemma_poly_at_push(u.push(x % 16), 16, x / 16);
        let g = Seq::new(f.len(), |i: int| f[i] as int);
        assert(b =~= g.push(x));
        arith::lemma_poly_at_push(g, 256, x);
        arith::lemma_pow_step(16, 2 * n);
        lemma_pow_multiplies(16, 2, n);
        lemma_pow1(16);
        arith::lemma_pow_step(16, 1);
        assert(pow(16, 2) == 256);
        let q = pow(256, n);
        assert(pow(16, 2 * n) == q);
        assert((x % 16) * q + (x / 16) * (q * 16) == x * q) by (nonlinear_arith)
            requires
                x == 16 * (x / 16) + x % 16,
        ;
    }
}

/// The signed digits of a scalar's bytes spell the scalar.
pub proof fn lemma_signed_scalar(bytes: Seq<u8>, half: int)
    requires
        is_half(half),
        bytes.len() == SCALAR_BYTES,
        arith::bytes_val(bytes)
            < 0x8000000000000000000000000000000000000000000000000000000000000000int,
    ensures
        digits(bytes, half).len() == window_count(half),
        arith::poly_at(signed_digits(digits(bytes, half), half), 2 * half) == arith::bytes_val(bytes),
{
    let v = digits(bytes, half);
    let n = v.len();
    lemma_signed(v, half, n);
    assert(signed_digits(v, half).take(n as int) =~= signed_digits(v, half));
    assert(v.take(n as int) =~= v);
    if half == 8 {
        lemma_nibbles(bytes);
    }
    // The highest byte is below 128.
    let b = Seq::new(bytes.len(), |i: int| bytes[i] as int);
    let f = b.drop_last();
    lemma_poly_at_nonnegative(f, 256);
    let top = bytes[31] as int;
    assert(pow(256, 31)
        == 0x100000000000000000000000000000000000000000000000000000000000000int) by {
        lemma_pow256();
    }
    let unit = pow(256, 31);
    assert(b.last() == top);
    assert(arith::poly_at(b, 256) == arith::poly_at(f, 256) + top * unit);
    if top >= 128 {
        assert(top * unit >= 128 * unit) by (nonlinear_arith)
            requires
                top >= 128,
                unit > 0,
        ;
    }
    assert(top < 128);
    lemma_mul_basics(pow(2 * half, n));
}

proof fn lemma_poly_at_nonnegative(s: Seq<int>, x: int)
    requires
        x > 0,
        forall|i: int| 0 <= i < s.len() ==> #[trigger] s[i] >= 0,
    ensures
        arith::poly_at(s, x) >= 0,
    decreases s.len(),
{
    if s.len() > 0 {
        lemma_poly_at_nonnegative(s.drop_last(), x);
        let e = (s.len() - 1) as nat;
        lemma_pow_positive(x, e);
        let (a, b) = (s.last(), pow(x, e));
        assert(a == s[s.len() - 1]);
        assert(a * b >= 0) by (nonlinear_arith)
            requires
                a >= 0,
                b > 0,
        ;
    }
}

proof fn lemma_pow256()
    ensures
        pow(256, 31) == 0x100000000000000000000000000000000000000000000000000000000000000int,
{
    lemma_pow1(256);
    lemma_pow_adds(256, 1, 1);
    lemma_constant_product(pow(256, 1), pow(256, 1), 0x100int, 0x100int, 0x10000int);
    lemma_pow_adds(256, 2, 2);
    lemma_constant_product(pow(256, 2), pow(256, 2), 0x10000int, 0x10000int, 0x100000000int);
    lemma_pow_adds(256, 4, 4);
    lemma_constant_product(pow(256, 4), pow(256, 4), 0x100000000int, 0x100000000int, 0x10000000000000000int);
    lemma_pow_adds(256, 8, 8);
    lemma_constant_product(pow(256, 8), pow(256, 8), 0x10000000000000000int, 0x10000000000000000int, 0x100000000000000000000000000000000int);
    lemma_pow_adds(256, 16, 8);
    lemma_constant_product(pow(256, 16), pow(256, 8), 0x100000000000000000000000000000000int, 0x10000000000000000int, 0x1000000000000000000000000000000000000000000000000int);
    lemma_pow_adds(256, 24, 4);
    lemma_constant_product(pow(256, 24), pow(256, 4), 0x1000000000000000000000000000000000000000000000000int, 0x100000000int, 0x100000000000000000000000000000000000000000000000000000000int);
    lemma_pow_adds(256, 28, 2);
    lemma_constant_product(pow(256, 28), pow(256, 2), 0x100000000000000000000000000000000000000000000000000000000int, 0x10000int, 0x1000000000000000000000000000000000000000000000000000000000000int);
    lemma_pow_adds(256, 30, 1);
    lemma_constant_product(pow(256, 30), pow(256, 1), 0x1000000000000000000000000000000000000000000000000000000000000int, 0x100int, 0x100000000000000000000000000000000000000000000000000000000000000int);
}

proof fn lemma_constant_product(a: int, b: int, x: int, y: int, z: int)
    requires
        a == x,
        b == y,
        x * y == z,
    ensures
        a * b == z,
{
}

/// The unsigned digit of a window.
fn window_value(bytes: &[u8; 32], window: usize, half: usize) -> (r: usize)
    requires
        is_half(half as int),
        window < window_count(half as int),
    ensures
        r == digits(bytes@, half as int)[window as int],
        r < 2 * half,
{
    if half == FIXED_BASE_WINDOW_MAGNITUDES {
        bytes[window] as usize
    } else {
        let byte: usize = bytes[window / 2] as usize;
        if window % 2 == 0 {
            byte % 16
        } else {
            byte / 16
        }
    }
}

/// The magnitude of a window's signed digit, and whether it is negative.
pub fn signed_digit(bytes: &[u8; 32], window: usize, half: usize) -> (r: (usize, bool))
    requires
        is_half(half as int),
        window < window_count(half as int),
    ensures
        r.0 <= half,
        (if r.1 {
            -(r.0 as int)
        } else {
            r.0 as int
        }) == signed(digits(bytes@, half as int), half as int, window as int),
{
    let value: usize = window_value(bytes, window, half);
    let overlap: usize = if window == 0 {
        0
    } else {
        let below: usize = window_value(bytes, window - 1, half);
        if below >= half {
            1
        } else {
            0
        }
    };
    proof {
        let s = digits(bytes@, half as int);
        let (c, d) = (carry(s, half as int, window as int), carry(s, half as int, window + 1));
        let full = 2 * (half as int);
        assert(c == overlap);
        assert(d == if value < half {
            0int
        } else {
            1
        });
        assert(full * 0 == 0 && full * 1 == full) by (nonlinear_arith);
        assert(full * d == if value < half {
            0
        } else {
            full
        });
        assert(signed(s, half as int, window as int) == value + overlap - full * d);
    }
    if value < half {
        (value + overlap, false)
    } else {
        let magnitude: usize = 2 * half - value - overlap;
        (magnitude, magnitude != 0)
    }
}

/// The multiples of some bases by the magnitudes in each window.
#[derive(Clone, Debug)]
pub struct WindowTable<C: CurveAffine> {
    pub bases: Vec<C>,
    pub points: Vec<C>,
    pub half: usize,
}

/// Whether the points are the multiples of the base in the first windows.
pub open spec fn positioned<C: CurveAffine>(
    points: Seq<C>,
    from: int,
    half: int,
    base: int,
    count: int,
) -> bool {
    forall|w: int, m: int|
        #![trigger entry(points, from, half, w, m)]
        0 <= w && 1 <= m <= half && from + w * half + m - 1 < count ==> {
            &&& entry(points, from, half, w, m).on_curve()
            &&& curve::log(entry(points, from, half, w, m)) == (base * (m * pow(2 * half, w as nat)))
                % C::ScalarExt::order()
        }
}

/// The multiple by `m` in window `w` of a base whose multiples start at `from`.
pub open spec fn entry<C: CurveAffine>(points: Seq<C>, from: int, half: int, w: int, m: int) -> C {
    points[from + w * half + m - 1]
}

/// Appends the multiples of a base. The highest magnitude, doubled, is the base of the
/// next window.
pub fn extend_points<C: CurveAffine>(base: C, windows: usize, half: usize, points: &mut Vec<C>)
    requires
        base.on_curve(),
        half > 0,
        curve::all_on_curve(old(points)@),
        old(points)@.len() + windows * half <= usize::MAX,
    ensures
        final(points)@.len() == old(points)@.len() + windows * half,
        curve::all_on_curve(final(points)@),
        forall|i: int|
            0 <= i < old(points)@.len() ==> #[trigger] final(points)@[i] == old(points)@[i],
        positioned(
            final(points)@,
            old(points)@.len() as int,
            half as int,
            curve::log(base),
            final(points)@.len() as int,
        ),
{
    let ghost q = C::ScalarExt::order();
    let ghost l = curve::log(base);
    let ghost from = points@.len() as int;
    let ghost before = points@;
    let ghost h = half as int;
    let mut window_base = base;
    let mut window: usize = 0;
    proof {
        C::ScalarExt::lemma_order();
        base.lemma_point();
        lemma_pow0(2 * h);
        lemma_mul_basics(l);
        arith::lemma_mod_small(l, q);
        lemma_mul_basics(h);
    }
    while window < windows
        invariant
            window <= windows,
            half > 0,
            h == half,
            q == C::ScalarExt::order(),
            q > 2,
            l == curve::log(base),
            from == before.len(),
            from + windows * half <= usize::MAX,
            points@.len() == from + window * half,
            curve::all_on_curve(points@),
            forall|i: int| 0 <= i < from ==> #[trigger] points@[i] == before[i],
            window_base.on_curve(),
            window < windows ==> curve::log(window_base) == (l * pow(2 * h, window as nat)) % q,
            positioned(points@, from, h, l, points@.len() as int),
        decreases windows - window,
    {
        let ghost w = window as int;
        let ghost start = points@.len() as int;
        let ghost e = pow(2 * h, window as nat);
        let mut multiple = window_base;
        let mut magnitude: usize = 0;
        proof {
            lemma_mul_basics(e);
            assert(w * h + h <= windows * half) by (nonlinear_arith)
                requires
                    w + 1 <= windows,
                    h == half,
                    h > 0,
            ;
        }
        while magnitude < half
            invariant
                magnitude <= half,
                half > 0,
                h == half,
                w == window,
                q == C::ScalarExt::order(),
                q > 2,
                l == curve::log(base),
                from == before.len(),
                start == from + w * h,
                start + h <= usize::MAX,
                e == pow(2 * h, window as nat),
                points@.len() == start + magnitude,
                curve::all_on_curve(points@),
                forall|i: int| 0 <= i < from ==> #[trigger] points@[i] == before[i],
                window_base.on_curve(),
                curve::log(window_base) == (l * e) % q,
                multiple.on_curve(),
                magnitude < half ==> curve::log(multiple) == (l * ((magnitude + 1) * e)) % q,
                magnitude == half ==> curve::log(multiple) == (l * (h * e)) % q,
                positioned(points@, from, h, l, points@.len() as int),
            decreases half - magnitude,
        {
            let ghost now = points@;
            points.push(multiple);
            proof {
                let m = magnitude + 1;
                assert forall|v: int, n: int|
                    #![trigger entry(points@, from, h, v, n)]
                    0 <= v && 1 <= n <= h && from + v * h + n - 1 < points@.len() implies {
                    &&& entry(points@, from, h, v, n).on_curve()
                    &&& curve::log(entry(points@, from, h, v, n)) == (l * (n * pow(2 * h, v as nat))) % q
                } by {
                    let at = from + v * h + n - 1;
                    assert(0 <= v * h) by (nonlinear_arith)
                        requires
                            0 <= v,
                            h > 0,
                    ;
                    if at < now.len() {
                        assert(entry(points@, from, h, v, n) == entry(now, from, h, v, n));
                    } else {
                        // The last place has one window and one magnitude.
                        assert(v == w) by (nonlinear_arith)
                            requires
                                v * h + n - 1 == w * h + m - 1,
                                1 <= n <= h,
                                1 <= m <= h,
                                h > 0,
                        ;
                    }
                }
            }
            if magnitude + 1 != half {
                proof {
                    let (a, b, c) = (l * ((magnitude + 1) * e), l * e, magnitude as int);
                    arith::lemma_mod_add(a, b, q);
                    assert(l * ((c + 1) * e) + l * e == l * ((c + 2) * e)) by (nonlinear_arith);
                }
                multiple = multiple.add(window_base);
            }
            magnitude += 1;
        }
        if window + 1 != windows {
            proof {
                let a = l * (h * e);
                arith::lemma_mod_add(a, a, q);
                arith::lemma_pow_step(2 * h, window as nat);
                assert(a + a == l * ((2 * h) * e)) by (nonlinear_arith)
                    requires
                        a == l * (h * e),
                ;
            }
            window_base = multiple.add(multiple);
        }
        proof {
            assert((w + 1) * h == w * h + h) by (nonlinear_arith);
        }
        window += 1;
    }
}

impl<C: CurveAffine> WindowTable<C> {
    pub open spec fn windows(&self) -> int {
        window_count(self.half as int)
    }

    /// The table holds the multiples of its bases.
    pub open spec fn wf(&self) -> bool {
        &&& is_half(self.half as int)
        &&& self.points@.len() == self.bases@.len() * self.windows() * self.half
        &&& curve::all_on_curve(self.bases@)
        &&& curve::all_on_curve(self.points@)
        &&& forall|b: int| 0 <= b < self.bases@.len() ==> #[trigger] self.base_positioned(b)
    }

    pub open spec fn base_positioned(&self, b: int) -> bool {
        positioned(
            self.points@,
            b * (self.windows() * self.half),
            self.half as int,
            curve::log(self.bases@[b]),
            (b + 1) * (self.windows() * self.half),
        )
    }

    /// Builds the table of the bases.
    pub fn new(bases: Vec<C>, half: usize) -> (r: Self)
        requires
            curve::all_on_curve(bases@),
            is_half(half as int),
            bases@.len() * 4096 <= usize::MAX,
        ensures
            r.half == half,
            r.bases == bases,
            r.wf(),
    {
        let windows: usize = if half == FIXED_BASE_WINDOW_MAGNITUDES {
            32
        } else {
            64
        };
        let ghost ls = curve::logs(bases@);
        let ghost span = windows * half;
        let mut points: Vec<C> = Vec::new();
        let mut b: usize = 0;
        proof {
            lemma_mul_basics(span);
        }
        while b < bases.len()
            invariant
                b <= bases@.len(),
                curve::all_on_curve(bases@),
                is_half(half as int),
                bases@.len() * 4096 <= usize::MAX,
                windows == window_count(half as int),
                span == windows * half,
                span == 4096 || span == 512,
                ls == curve::logs(bases@),
                points@.len() == b * span,
                curve::all_on_curve(points@),
                forall|c: int|
                    0 <= c < b ==> positioned(
                        points@,
                        #[trigger] (c * span),
                        half as int,
                        ls[c],
                        (c + 1) * span,
                    ),
            decreases bases@.len() - b,
        {
            let ghost before = points@;
            proof {
                assert((b + 1) * span == b * span + span) by (nonlinear_arith);
                assert((b + 1) * span <= bases@.len() * 4096) by (nonlinear_arith)
                    requires
                        b + 1 <= bases@.len(),
                        span == 4096 || span == 512,
                ;
                assert(bases@[b as int].on_curve());
            }
            extend_points(bases[b], windows, half, &mut points);
            proof {
                let h = half as int;
                assert forall|c: int| 0 <= c < b + 1 implies positioned(
                    points@,
                    #[trigger] (c * span),
                    h,
                    ls[c],
                    (c + 1) * span,
                ) by {
                    if c < b {
                        assert((c + 1) * span <= b * span) by (nonlinear_arith)
                            requires
                                c + 1 <= b,
                                span > 0,
                        ;
                        assert(0 <= c * span) by (nonlinear_arith)
                            requires
                                c >= 0,
                                span > 0,
                        ;
                        assert(positioned(before, c * span, h, ls[c], (c + 1) * span));
                        assert forall|w: int, m: int|
                            #![trigger entry(points@, c * span, h, w, m)]
                            0 <= w && 1 <= m <= h && c * span + w * h + m - 1 < (c + 1)
                                * span implies {
                            &&& entry(points@, c * span, h, w, m).on_curve()
                            &&& curve::log(entry(points@, c * span, h, w, m)) == (ls[c] * (m * pow(
                                2 * h,
                                w as nat,
                            ))) % C::ScalarExt::order()
                        } by {
                            assert(0 <= w * h) by (nonlinear_arith)
                                requires
                                    w >= 0,
                                    h > 0,
                            ;
                            assert(entry(points@, c * span, h, w, m) == entry(
                                before,
                                c * span,
                                h,
                                w,
                                m,
                            ));
                        }
                    }
                }
            }
            b += 1;
        }
        let r = WindowTable { points, bases, half };
        proof {
            assert(r.points@.len() == r.bases@.len() * r.windows() * r.half) by (nonlinear_arith)
                requires
                    r.points@.len() == r.bases@.len() * span,
                    span == r.windows() * r.half,
            ;
            assert forall|c: int| 0 <= c < ls.len() implies #[trigger] r.base_positioned(c) by {
                assert(positioned(r.points@, c * span, half as int, ls[c], (c + 1) * span));
            }
        }
        r
    }

    /// The entry that a signed digit selects.
    fn select(&self, base: usize, window: usize, magnitude: usize) -> (r: C)
        requires
            self.wf(),
            base < self.bases@.len(),
            window < self.windows(),
            1 <= magnitude <= self.half,
        ensures
            r.on_curve(),
            curve::log(r) == (curve::log(self.bases@[base as int]) * (magnitude * pow(2 * self.half, window as nat)))
                % C::ScalarExt::order(),
    {
        let windows: usize = if self.half == FIXED_BASE_WINDOW_MAGNITUDES {
            32
        } else {
            64
        };
        let total: usize = self.points.len();
        let ghost span = windows * self.half;
        let ghost h = self.half as int;
        proof {
            assert((base + 1) * span <= self.bases@.len() * windows * self.half) by (nonlinear_arith)
                requires
                    base + 1 <= self.bases@.len(),
                    span == windows * self.half,
            ;
            assert((base + 1) * span == base * span + span) by (nonlinear_arith);
            assert((base * windows + window) * self.half == base * span + window * h)
                by (nonlinear_arith)
                requires
                    span == windows * self.half,
                    h == self.half,
            ;
            assert(window * h + h <= span) by (nonlinear_arith)
                requires
                    window + 1 <= windows,
                    span == windows * h,
                    h > 0,
            ;
            assert(0 <= window * h) by (nonlinear_arith)
                requires
                    h > 0,
            ;
            assert(0 <= base * span) by (nonlinear_arith)
                requires
                    span > 0,
            ;
            assert(base * windows + window <= base * span + window * h) by (nonlinear_arith)
                requires
                    span == windows * h,
                    h >= 1,
                    windows >= 0,
            ;
            assert(base * windows >= 0) by (nonlinear_arith)
                requires
                    windows >= 0,
            ;
            assert(self.base_positioned(base as int));
            let e = entry(self.points@, base * span, h, window as int, magnitude as int);
            assert(e.on_curve());
        }
        self.points[(base * windows + window) * self.half + magnitude - 1]
    }

    /// The multiple of a base by a scalar: one addition for each digit that is not zero.
    pub fn multiply(&self, base: usize, scalar: C::ScalarExt) -> (r: C)
        requires
            self.wf(),
            base < self.bases@.len(),
        ensures
            r.on_curve(),
            curve::log(r) == (curve::log(self.bases@[base as int]) * scalar.val()) % C::ScalarExt::order(),
    {
        let ghost q = C::ScalarExt::order();
        let ghost h = self.half as int;
        let ghost l = curve::log(self.bases@[base as int]);
        let bytes: [u8; 32] = scalar.to_repr();
        let ghost v = digits(bytes@, h);
        let ghost d = signed_digits(v, h);
        let windows: usize = if self.half == FIXED_BASE_WINDOW_MAGNITUDES {
            32
        } else {
            64
        };
        let mut acc = C::identity();
        let mut window: usize = 0;
        proof {
            C::ScalarExt::lemma_order();
            C::ScalarExt::lemma_val(scalar);
            lemma_signed_scalar(bytes@, h);
            assert(d.take(0) =~= Seq::<int>::empty());
            lemma_mul_basics(l);
            arith::lemma_mod_small(0, q);
        }
        while window < windows
            invariant
                window <= windows,
                self.wf(),
                base < self.bases@.len(),
                q == C::ScalarExt::order(),
                q > 2,
                h == self.half,
                l == curve::log(self.bases@[base as int]),
                v == digits(bytes@, h),
                d == signed_digits(v, h),
                windows == window_count(h),
                d.len() == windows,
                acc.on_curve(),
                curve::log(acc) == (l * arith::poly_at(d.take(window as int), 2 * h)) % q,
            decreases windows - window,
        {
            let (magnitude, negative) = signed_digit(&bytes, window, self.half);
            let ghost e = pow(2 * h, window as nat);
            let ghost s = arith::poly_at(d.take(window as int), 2 * h);
            let ghost t = d[window as int];
            proof {
                assert(d.take(window + 1) =~= d.take(window as int).push(t));
                arith::lemma_poly_at_push(d.take(window as int), 2 * h, t);
                assert(l * (s + t * e) == l * s + l * (t * e)) by (nonlinear_arith);
            }
            if magnitude != 0 {
                let point = self.select(base, window, magnitude);
                if negative {
                    proof {
                        let m = magnitude as int;
                        let a = l * (m * e);
                        assert(l * (t * e) == -a) by (nonlinear_arith)
                            requires
                                t == -m,
                                a == l * (m * e),
                        ;
                        arith::lemma_mod_sub(0, a, q);
                        arith::lemma_mod_add(l * s, -a, q);
                    }
                    acc = acc.add(point.neg());
                } else {
                    proof {
                        arith::lemma_mod_add(l * s, l * (t * e), q);
                    }
                    acc = acc.add(point);
                }
            } else {
                proof {
                    lemma_mul_basics(e);
                    lemma_mul_basics(l);
                }
            }
            window += 1;
        }
        assert(d.take(window as int) =~= d);
        acc
    }

    /// Appends the entries whose sum is the multiple of a base by a scalar, one for each
    /// digit that is not zero.
    pub fn extend_selected(&self, base: usize, scalar: C::ScalarExt, selected: &mut Vec<C>)
        requires
            self.wf(),
            base < self.bases@.len(),
            curve::all_on_curve(old(selected)@),
        ensures
            curve::all_on_curve(final(selected)@),
            arith::eqm(
                arith::seq_sum(curve::logs(final(selected)@)),
                arith::seq_sum(curve::logs(old(selected)@)) + curve::log(self.bases@[base as int]) * scalar.val(),
                C::ScalarExt::order(),
            ),
    {
        let ghost q = C::ScalarExt::order();
        let ghost h = self.half as int;
        let ghost l = curve::log(self.bases@[base as int]);
        let ghost start = arith::seq_sum(curve::logs(selected@));
        let bytes: [u8; 32] = scalar.to_repr();
        let ghost v = digits(bytes@, h);
        let ghost d = signed_digits(v, h);
        let windows: usize = if self.half == FIXED_BASE_WINDOW_MAGNITUDES {
            32
        } else {
            64
        };
        let mut window: usize = 0;
        proof {
            C::ScalarExt::lemma_order();
            C::ScalarExt::lemma_val(scalar);
            lemma_signed_scalar(bytes@, h);
            assert(d.take(0) =~= Seq::<int>::empty());
            lemma_mul_basics(l);
        }
        while window < windows
            invariant
                window <= windows,
                self.wf(),
                base < self.bases@.len(),
                q == C::ScalarExt::order(),
                q > 2,
                h == self.half,
                l == curve::log(self.bases@[base as int]),
                v == digits(bytes@, h),
                d == signed_digits(v, h),
                windows == window_count(h),
                d.len() == windows,
                curve::all_on_curve(selected@),
                arith::eqm(
                    arith::seq_sum(curve::logs(selected@)),
                    start + l * arith::poly_at(d.take(window as int), 2 * h),
                    q,
                ),
            decreases windows - window,
        {
            let (magnitude, negative) = signed_digit(&bytes, window, self.half);
            let ghost e = pow(2 * h, window as nat);
            let ghost s = arith::poly_at(d.take(window as int), 2 * h);
            let ghost t = d[window as int];
            proof {
                assert(d.take(window + 1) =~= d.take(window as int).push(t));
                arith::lemma_poly_at_push(d.take(window as int), 2 * h, t);
                assert(l * (s + t * e) == l * s + l * (t * e)) by (nonlinear_arith);
            }
            if magnitude != 0 {
                let ghost before = selected@;
                let point = self.select(base, window, magnitude);
                let chosen = if negative {
                    point.neg()
                } else {
                    point
                };
                selected.push(chosen);
                proof {
                    let m = magnitude as int;
                    let a = l * (m * e);
                    if negative {
                        assert(l * (t * e) == -a) by (nonlinear_arith)
                            requires
                                t == -m,
                                a == l * (m * e),
                        ;
                        arith::lemma_mod_sub(0, a, q);
                    }
                    arith::lemma_mod_range(l * (t * e), q);
                    assert(curve::log(chosen) == (l * (t * e)) % q);
                    assert(curve::logs(selected@) =~= curve::logs(before).push(curve::log(chosen)));
                    arith::lemma_seq_sum_push(curve::logs(before), curve::log(chosen));
                    arith::lemma_eqm_add(
                        arith::seq_sum(curve::logs(before)),
                        start + l * s,
                        curve::log(chosen),
                        l * (t * e),
                        q,
                    );
                }
            } else {
                proof {
                    lemma_mul_basics(e);
                    lemma_mul_basics(l);
                }
            }
            window += 1;
        }
        assert(d.take(window as int) =~= d);
    }
}

} // verus!
