//! Prepared multiples of the fixed generators of a commitment scheme.
use crate::arith;
use crate::basis::current_num_threads;
use crate::curve;
use crate::curve::CurveAffine;
use crate::field::Field;
use crate::windows;
use crate::windows::{
    FIXED_BASE_WINDOW_MAGNITUDES, SPARSE_COMMITMENT_WINDOW_MAGNITUDES, WindowTable, signed_digit,
};
use vstd::arithmetic::mul::*;
use vstd::prelude::*;

verus! {

pub const FIXED_BASE_W_INDEX: usize = 0;

pub const FIXED_BASE_U_INDEX: usize = 1;

/// The size of parameters for which sparse commitments are prepared.
pub const PREPARED_SPARSE_COMMITMENT_K: u32 = 11;

/// Below the full masking polynomial, mixed additions are faster than batched affine
/// reduction.
pub const SPARSE_COMMITMENT_AFFINE_REDUCTION_TERMS: usize = 13;

/// Positioned fixed-window tables for the commitment scheme's `w` and `u` generators.
#[derive(Clone, Debug)]
pub struct FixedBasePairTable<C: CurveAffine> {
    pub table: WindowTable<C>,
}

impl<C: CurveAffine> FixedBasePairTable<C> {
    pub open spec fn wf(&self) -> bool {
        &&& self.table.wf()
        &&& self.table.bases@.len() == 2
    }

    /// The logarithms of the two generators.
    pub open spec fn w_log(&self) -> int {
        curve::log(self.table.bases@[0])
    }

    pub open spec fn u_log(&self) -> int {
        curve::log(self.table.bases@[1])
    }

    pub fn new(w: C, u: C) -> (r: Self)
        requires
            w.on_curve(),
            u.on_curve(),
        ensures
            r.wf(),
            r.table.bases@ == seq![w, u],
            r.table.half == FIXED_BASE_WINDOW_MAGNITUDES,
    {
        let mut bases: Vec<C> = Vec::with_capacity(2);
        bases.push(w);
        bases.push(u);
        FixedBasePairTable { table: WindowTable::new(bases, FIXED_BASE_WINDOW_MAGNITUDES) }
    }

    /// Multiplies one cached base by `scalar`.
    pub fn multiply(&self, base: usize, scalar: C::ScalarExt) -> (r: C)
        requires
            self.wf(),
            base < 2,
        ensures
            r.on_curve(),
            curve::log(r) == (curve::log(self.table.bases@[base as int]) * scalar.val())
                % C::ScalarExt::order(),
    {
        self.table.multiply(base, scalar)
    }

    pub fn multiply_blind(&self, scalar: C::ScalarExt) -> (r: C)
        requires
            self.wf(),
        ensures
            r.on_curve(),
            curve::log(r) == (self.w_log() * scalar.val()) % C::ScalarExt::order(),
    {
        self.multiply(FIXED_BASE_W_INDEX, scalar)
    }

    pub fn multiply_ipa(&self, u_scalar: C::ScalarExt, w_scalar: C::ScalarExt) -> (r: C)
        requires
            self.wf(),
        ensures
            r.on_curve(),
            curve::log(r) == (self.u_log() * u_scalar.val() + self.w_log() * w_scalar.val())
                % C::ScalarExt::order(),
    {
        let by_u = self.multiply(FIXED_BASE_U_INDEX, u_scalar);
        let by_w = self.multiply(FIXED_BASE_W_INDEX, w_scalar);
        proof {
            C::ScalarExt::lemma_order();
            arith::lemma_mod_add(
                self.u_log() * u_scalar.val(),
                self.w_log() * w_scalar.val(),
                C::ScalarExt::order(),
            );
        }
        by_u.add(by_w)
    }

    /// Computes the fixed-base terms for both points of a round of the inner product
    /// argument.
    pub fn multiply_ipa_rounds(
        &self,
        l_u_scalar: C::ScalarExt,
        l_w_scalar: C::ScalarExt,
        r_u_scalar: C::ScalarExt,
        r_w_scalar: C::ScalarExt,
    ) -> (r: (C, C))
        requires
            self.wf(),
        ensures
            r.0.on_curve(),
            r.1.on_curve(),
            curve::log(r.0) == (self.u_log() * l_u_scalar.val() + self.w_log() * l_w_scalar.val())
                % C::ScalarExt::order(),
            curve::log(r.1) == (self.u_log() * r_u_scalar.val() + self.w_log() * r_w_scalar.val())
                % C::ScalarExt::order(),
    {
        (self.multiply_ipa(l_u_scalar, l_w_scalar), self.multiply_ipa(r_u_scalar, r_w_scalar))
    }
}

/// The end from which the bytes of an encoded scalar are read.
#[derive(Clone, Copy, Debug, PartialEq, Eq, Structural)]
pub enum ScalarByteOrder {
    LittleEndian,
    BigEndian,
    Unsupported,
}

/// A signed-width-four positioned-window table over the generators needed by the sparse
/// prover commitments.
#[derive(Clone, Debug)]
pub struct SparseCommitmentTable<C: CurveAffine> {
    pub table: WindowTable<C>,
    pub byte_order: ScalarByteOrder,
}

/// The sum of multiples of a table's bases.
pub open spec fn sparse_sum<C: CurveAffine>(bases: Seq<C>, terms: Seq<(usize, C::ScalarExt)>) -> int
    decreases terms.len(),
{
    if terms.len() == 0 {
        0
    } else {
        let (base, scalar) = terms.last();
        sparse_sum(bases, terms.drop_last()) + curve::log(bases[base as int]) * scalar.val()
    }
}

/// Whether every term is of one of the bases.
pub open spec fn in_table<C: CurveAffine>(bases: Seq<C>, terms: Seq<(usize, C::ScalarExt)>) -> bool {
    forall|i: int| 0 <= i < terms.len() ==> (#[trigger] terms[i]).0 < bases.len()
}

/// Whether the points are on the curve and none is the identity.
spec fn all_affine<C: CurveAffine>(points: Seq<C>) -> bool {
    forall|i: int|
        0 <= i < points.len() ==> (#[trigger] points[i]).on_curve() && points[i].at() != (
            0int,
            0int,
        )
}

/// The slope of a chord, from which its third point follows.
proof fn lemma_chord(
    a: (int, int),
    b: (int, int),
    c: (int, int),
    inverse: int,
    slope: int,
    p: int,
)
    requires
        p > 2,
        !arith::eqm(b.0 - a.0, 0, p),
        arith::eqm((b.0 - a.0) * inverse, 1, p),
        arith::eqm(slope, (b.1 - a.1) * inverse, p),
        arith::eqm(c.0, slope * slope - a.0 - b.0, p),
        arith::eqm(c.1, slope * (a.0 - c.0) - a.1, p),
    ensures
        curve::on_chord(a, b, c, p),
{
    let (dx, dy) = (b.0 - a.0, b.1 - a.1);
    arith::lemma_eqm_mul(slope, dy * inverse, dx, dx, p);
    assert((dy * inverse) * dx == dy * (dx * inverse)) by (nonlinear_arith);
    arith::lemma_eqm_mul(dy, dy, dx * inverse, 1, p);
    lemma_mul_basics(dy);
    assert(arith::eqm(slope * dx, dy, p));
    arith::lemma_eqm_mul(slope * dx, dy, slope * dx, dy, p);
    arith::lemma_eqm_add(c.0, slope * slope - a.0 - b.0, a.0 + b.0, a.0 + b.0, p);
    arith::lemma_eqm_mul(c.0 + a.0 + b.0, slope * slope, dx * dx, dx * dx, p);
    assert((slope * slope) * (dx * dx) == (slope * dx) * (slope * dx)) by (nonlinear_arith);
    arith::lemma_eqm_add(c.1, slope * (a.0 - c.0) - a.1, a.1, a.1, p);
    arith::lemma_eqm_mul(c.1 + a.1, slope * (a.0 - c.0), dx, dx, p);
    let e = a.0 - c.0;
    assert((slope * e) * dx == (slope * dx) * e) by (nonlinear_arith);
    arith::lemma_eqm_mul(slope * dx, dy, e, e, p);
}

/// Whether `i` is the inverse of `d` modulo the order.
pub open spec fn is_inverse(d: int, i: int, p: int) -> bool {
    0 <= i < p && arith::eqm(d * i, 1, p)
}

/// The inverse modulo the order.
pub open spec fn inverse_of(d: int, p: int) -> int {
    choose|i: int| #[trigger] is_inverse(d, i, p)
}

/// The third point of the chord through two points with distinct first coordinates,
/// mirrored.
pub open spec fn chord(a: (int, int), b: (int, int), p: int) -> (int, int) {
    let i = inverse_of(b.0 - a.0, p);
    let slope = ((b.1 - a.1) * i) % p;
    let x = (slope * slope - a.0 - b.0) % p;
    (x, (slope * (a.0 - x) - a.1) % p)
}

/// Neighbours `2 i` and `2 i + 1` have distinct first coordinates.
pub open spec fn differ_at(s: Seq<(int, int)>, i: int) -> bool {
    s[2 * i].0 != s[2 * i + 1].0
}

/// Every two neighbours have distinct first coordinates.
pub open spec fn neighbours_differ(s: Seq<(int, int)>) -> bool {
    forall|i: int| 0 <= i < s.len() / 2 ==> #[trigger] differ_at(s, i)
}

/// Neighbours replaced by the points of their chords, and one that is left over kept.
pub open spec fn next_level(s: Seq<(int, int)>, p: int) -> Seq<(int, int)> {
    Seq::new(
        (s.len() - s.len() / 2) as nat,
        |i: int|
            if 2 * i + 1 < s.len() {
                chord(s[2 * i], s[2 * i + 1], p)
            } else {
                s[2 * i]
            },
    )
}

/// Points can be added along chords, level by level, until one is left.
pub open spec fn adds_along_chords(s: Seq<(int, int)>, p: int) -> bool
    decreases s.len(),
{
    s.len() <= 1 || (neighbours_differ(s) && adds_along_chords(next_level(s, p), p))
}

/// There is one inverse.
pub proof fn lemma_inverse_unique(d: int, i: int, j: int, p: int)
    requires
        p > 2,
        is_inverse(d, i, p),
        is_inverse(d, j, p),
    ensures
        i == j,
{
    arith::lemma_eqm_mul(i, i, d * j, 1, p);
    arith::lemma_eqm_mul(j, j, d * i, 1, p);
    assert(i * (d * j) == j * (d * i)) by (nonlinear_arith);
    lemma_mul_basics(i);
    lemma_mul_basics(j);
    arith::lemma_mod_small(i, p);
    arith::lemma_mod_small(j, p);
}

/// The cubic along the line through a point, less its value there, at another place.
proof fn lemma_along_line(x1: int, y1: int, x2: int, s: int, x: int)
    ensures
        ({
            let x3 = s * s - x1 - x2;
            let a = x1 * x1 + (s * s) * x1 - 2 * (s * y1) - x2 * x3;
            let l = s * (x - x1) + y1;
            (x * x * x - l * l) - (x1 * x1 * x1 - y1 * y1) == (x - x1) * a + (x - x1) * ((x - x2)
                * (x - x3))
        }),
{
    let t = s * s;
    let x3 = t - x1 - x2;
    let d = x - x1;
    let sd = s * d;
    let w = s * y1;
    let l = sd + y1;
    assert(l * l == sd * sd + 2 * (sd * y1) + y1 * y1) by (nonlinear_arith)
        requires
            l == sd + y1,
    ;
    assert((s * d) * (s * d) == d * ((s * s) * d)) by (nonlinear_arith);
    assert((s * d) * y1 == d * (s * y1)) by (nonlinear_arith);
    let e = t * d;
    let cubes = x * x + x * x1 + x1 * x1;
    assert(x * x * x - x1 * x1 * x1 == d * cubes) by (nonlinear_arith)
        requires
            d == x - x1,
            cubes == x * x + x * x1 + x1 * x1,
    ;
    let left = cubes - e - 2 * w;
    assert(d * cubes - d * e - 2 * (d * w) == d * left) by (nonlinear_arith)
        requires
            left == cubes - e - 2 * w,
    ;
    let a = x1 * x1 + t * x1 - 2 * w - x2 * x3;
    let f = (x - x2) * (x - x3);
    assert(f == x * x - x * x3 - x2 * x + x2 * x3) by (nonlinear_arith)
        requires
            f == (x - x2) * (x - x3),
    ;
    assert(e == t * x - t * x1) by (nonlinear_arith)
        requires
            e == t * d,
            d == x - x1,
    ;
    assert(x * x3 == x * t - x * x1 - x * x2) by (nonlinear_arith)
        requires
            x3 == t - x1 - x2,
    ;
    lemma_mul_is_commutative(x, t);
    lemma_mul_is_commutative(x, x2);
    assert(left == a + f);
    lemma_mul_is_distributive_add(d, a, f);
}

/// The chord meets the curve again.
proof fn lemma_chord_on_curve(
    a: (int, int),
    b: (int, int),
    c: (int, int),
    inverse: int,
    slope: int,
    p: int,
)
    requires
        p > 5,
        arith::eqm((b.0 - a.0) * inverse, 1, p),
        arith::eqm(slope, (b.1 - a.1) * inverse, p),
        arith::eqm(a.1 * a.1, a.0 * a.0 * a.0 + 5, p),
        arith::eqm(b.1 * b.1, b.0 * b.0 * b.0 + 5, p),
        arith::eqm(c.0, slope * slope - a.0 - b.0, p),
        arith::eqm(c.1, slope * (a.0 - c.0) - a.1, p),
    ensures
        arith::eqm(c.1 * c.1, c.0 * c.0 * c.0 + 5, p),
        c != (0int, 0int),
{
    let (x1, y1, x2, y2, s) = (a.0, a.1, b.0, b.1, slope);
    let d = x2 - x1;
    let x3 = s * s - x1 - x2;
    let k = x1 * x1 + (s * s) * x1 - 2 * (s * y1) - x2 * x3;
    // The slope.
    let dy = y2 - y1;
    arith::lemma_eqm_mul(s, dy * inverse, d, d, p);
    assert((dy * inverse) * d == dy * (d * inverse)) by (nonlinear_arith);
    arith::lemma_eqm_mul(dy, dy, d * inverse, 1, p);
    lemma_mul_basics(dy);
    let l2 = s * d + y1;
    arith::lemma_eqm_add(s * d, dy, y1, y1, p);
    arith::lemma_eqm_mul(l2, y2, l2, y2, p);
    // The factor vanishes.
    lemma_along_line(x1, y1, x2, s, x2);
    assert(d * ((x2 - x2) * (x2 - x3)) == 0) by (nonlinear_arith);
    let (c1, c2) = (x1 * x1 * x1, x2 * x2 * x2);
    assert(d * k == (c2 - l2 * l2) - (c1 - y1 * y1));
    arith::lemma_eqm_sub(c2 + 5, y2 * y2, l2 * l2, y2 * y2, p);
    arith::lemma_eqm_sub(c1 + 5, y1 * y1, y1 * y1, y1 * y1, p);
    arith::lemma_eqm_sub(c2 + 5 - l2 * l2, 0, c1 + 5 - y1 * y1, 0, p);
    assert(arith::eqm(d * k, 0, p));
    arith::lemma_eqm_mul(d * k, 0, inverse, inverse, p);
    assert((d * k) * inverse == k * (d * inverse)) by (nonlinear_arith);
    arith::lemma_eqm_mul(k, k, d * inverse, 1, p);
    lemma_mul_basics(k);
    lemma_mul_basics(inverse);
    assert(arith::eqm(k, 0, p));
    // At the third point.
    lemma_along_line(x1, y1, x2, s, x3);
    let l3 = s * (x3 - x1) + y1;
    let c3 = x3 * x3 * x3;
    assert((x3 - x1) * ((x3 - x2) * (x3 - x3)) == 0) by (nonlinear_arith);
    assert((x3 - x1) * k == (c3 - l3 * l3) - (c1 - y1 * y1));
    arith::lemma_eqm_mul(x3 - x1, x3 - x1, k, 0, p);
    lemma_mul_basics(x3 - x1);
    arith::lemma_eqm_add((x3 - x1) * k, 0, c1 + 5 - y1 * y1, 0, p);
    assert(arith::eqm(c3 + 5 - l3 * l3, 0, p));
    arith::lemma_eqm_add(c3 + 5 - l3 * l3, 0, l3 * l3, l3 * l3, p);
    assert(arith::eqm(c3 + 5, l3 * l3, p));
    // The coordinates modulo the order.
    arith::lemma_eqm_sub(x1, x1, c.0, x3, p);
    arith::lemma_eqm_mul(s, s, x1 - c.0, x1 - x3, p);
    arith::lemma_eqm_sub(s * (x1 - c.0), s * (x1 - x3), y1, y1, p);
    let y3 = s * (x1 - x3) - y1;
    arith::lemma_eqm_mul(c.1, y3, c.1, y3, p);
    assert(s * (x1 - x3) == -(s * (x3 - x1))) by (nonlinear_arith);
    assert(y3 == -l3);
    assert((-l3) * (-l3) == l3 * l3) by (nonlinear_arith);
    arith::lemma_eqm_mul(c.0, x3, c.0, x3, p);
    arith::lemma_eqm_mul(c.0 * c.0, x3 * x3, c.0, x3, p);
    arith::lemma_eqm_add(c.0 * c.0 * c.0, c3, 5, 5, p);
    if c == (0int, 0int) {
        assert(0int * 0 == 0);
        arith::lemma_mod_small(0, p);
        arith::lemma_mod_small(5, p);
    }
}

/// The sum of two points by the chord through them, from the inverse of the difference
/// of their first coordinates.
fn chord_sum<C: CurveAffine>(left: C, right: C, inverse: C::Base) -> (r: C)
    requires
        left.on_curve(),
        right.on_curve(),
        left.at() != (0int, 0int),
        right.at() != (0int, 0int),
        right.at().0 != left.at().0,
        ((right.at().0 - left.at().0) * inverse.val()) % C::Base::order() == 1,
    ensures
        r.on_curve(),
        r.at() == chord(left.at(), right.at(), C::Base::order()),
        r.at() != (0int, 0int),
        curve::log(r) == (curve::log(left) + curve::log(right)) % C::ScalarExt::order(),
{
    let ghost p = C::Base::order();
    let (left_x, left_y) = left.xy();
    let (right_x, right_y) = right.xy();
    let slope = right_y.sub(left_y).mul(inverse);
    let x = slope.square().sub(left_x).sub(right_x);
    let y = slope.mul(left_x.sub(x)).sub(left_y);
    let point = C::from_xy(x, y);
    proof {
        C::Base::lemma_order();
        left.lemma_point();
        right.lemma_point();
        let (a, b, c) = (left.at(), right.at(), (x.val(), y.val()));
        let (dx, dy, s, i) = (b.0 - a.0, b.1 - a.1, slope.val(), inverse.val());
        // Distinct representatives are not congruent.
        if arith::eqm(dx, 0, p) {
            arith::lemma_eqm_add(dx, 0, a.0, a.0, p);
            arith::lemma_mod_small(a.0, p);
            arith::lemma_mod_small(b.0, p);
        }
        arith::lemma_mod_small(1, p);
        arith::lemma_mod_mul(dy, i, p);
        arith::lemma_mod_range(dy * i, p);
        assert(s == (dy * i) % p);
        let t = s * s;
        arith::lemma_mod_sub(t, a.0, p);
        arith::lemma_mod_sub((t - a.0) % p, b.0, p);
        arith::lemma_mod_sub(t - a.0, b.0, p);
        arith::lemma_mod_range(t - a.0 - b.0, p);
        assert(c.0 == (t - a.0 - b.0) % p);
        let e = a.0 - c.0;
        arith::lemma_mod_mul(s, e, p);
        arith::lemma_mod_sub(s * e, a.1, p);
        arith::lemma_mod_range(s * e - a.1, p);
        assert(c.1 == (s * e - a.1) % p);
        lemma_chord(a, b, c, i, s, p);
        arith::lemma_mod_range(i, p);
        C::Base::lemma_val(inverse);
        assert(is_inverse(dx, i, p));
        lemma_inverse_unique(dx, i, inverse_of(dx, p), p);
        assert(c == chord(a, b, p));
        lemma_chord_on_curve(a, b, c, i, s, p);
    }
    point.unwrap()
}

/// Representatives differ where their difference is not zero modulo the order.
proof fn lemma_difference(x: int, y: int, p: int)
    requires
        0 <= x < p,
        0 <= y < p,
    ensures
        x != y <==> (y - x) % p != 0,
{
    if x == y {
        arith::lemma_mod_small(0, p);
    } else if (y - x) % p == 0 {
        arith::lemma_mod_small(0, p);
        arith::lemma_eqm_add(y - x, 0, x, x, p);
        arith::lemma_mod_small(x, p);
        arith::lemma_mod_small(y, p);
    }
}

/// Adds neighbours, with one inversion for all. There is nothing where two neighbours
/// have the same first coordinate.
fn reduce_level<C: CurveAffine>(points: &Vec<C>) -> (r: Option<Vec<C>>)
    requires
        all_affine(points@),
        points@.len() > 1,
    ensures
        r is Some <==> neighbours_differ(curve::coordinates(points@)),
        r matches Some(next) ==> {
            &&& curve::coordinates(next@) == next_level(curve::coordinates(points@), C::Base::order())
            &&& next@.len() < points@.len()
            &&& next@.len() > 0
            &&& all_affine(next@)
            &&& arith::eqm(arith::seq_sum(curve::logs(next@)), arith::seq_sum(curve::logs(points@)), C::ScalarExt::order())
        },
{
    let ghost q = C::ScalarExt::order();
    let ghost p = C::Base::order();
    let ghost at = curve::coordinates(points@);
    let total: usize = points.len();
    let pairs: usize = total / 2;
    let mut denominators: Vec<C::Base> = Vec::with_capacity(pairs);
    let mut i: usize = 0;
    proof {
        C::Base::lemma_order();
    }
    while i < pairs
        invariant
            i <= pairs,
            2 * pairs <= total,
            total == points@.len(),
            at == curve::coordinates(points@),
            p == C::Base::order(),
            p > 2,
            denominators@.len() == i,
            forall|j: int| 0 <= j < i ==> #[trigger] differ_at(at, j),
            forall|j: int|
                0 <= j < i ==> (#[trigger] denominators@[j]).val() == (points@[2 * j + 1].at().0
                    - points@[2 * j].at().0) % C::Base::order() && denominators@[j].val() != 0,
        decreases pairs - i,
    {
        let (left_x, _left_y) = points[2 * i].xy();
        let (right_x, _right_y) = points[2 * i + 1].xy();
        let denominator = right_x.sub(left_x);
        proof {
            let (x, y) = (points@[2 * i as int], points@[2 * i + 1]);
            x.lemma_point();
            y.lemma_point();
            lemma_difference(x.at().0, y.at().0, p);
            assert(at[2 * i as int] == x.at() && at[2 * i + 1] == y.at());
            assert(differ_at(at, i as int) <==> denominator.val() != 0);
        }
        if denominator.is_zero() {
            return None;
        }
        denominators.push(denominator);
        i += 1;
    }
    let ghost differences = denominators@;
    C::Base::batch_invert(&mut denominators);
    let mut next: Vec<C> = Vec::with_capacity(pairs + 1);
    let mut k: usize = 0;
    proof {
        C::ScalarExt::lemma_order();
        C::Base::lemma_order();
        assert(curve::logs(next@) =~= Seq::<int>::empty());
        assert(curve::logs(points@).take(0) =~= Seq::<int>::empty());
    }
    while k < pairs
        invariant
            k <= pairs,
            2 * pairs <= total,
            total == points@.len(),
            q == C::ScalarExt::order(),
            q > 2,
            C::Base::order() > 2,
            all_affine(points@),
            differences.len() == pairs,
            denominators@.len() == pairs,
            forall|j: int|
                0 <= j < pairs ==> (#[trigger] differences[j]).val() == (points@[2 * j + 1].at().0
                    - points@[2 * j].at().0) % C::Base::order() && differences[j].val() != 0,
            forall|j: int|
                0 <= j < pairs ==> ((#[trigger] denominators@[j]).val() * differences[j].val())
                    % C::Base::order() == 1,
            at == curve::coordinates(points@),
            p == C::Base::order(),
            next@.len() == k,
            forall|j: int|
                0 <= j < k ==> (#[trigger] next@[j]).at() == chord(at[2 * j], at[2 * j + 1], p),
            all_affine(next@),
            arith::eqm(arith::seq_sum(curve::logs(next@)), arith::seq_sum(curve::logs(points@).take(2 * k)), q),
        decreases pairs - k,
    {
        let left = points[2 * k];
        let right = points[2 * k + 1];
        proof {
            let p = C::Base::order();
            let d = right.at().0 - left.at().0;
            let v = denominators@[k as int].val();
            assert(points@[2 * k as int].on_curve());
            assert(points@[2 * k + 1].on_curve());
            assert(differences[k as int].val() == d % p);
            arith::lemma_mod_mul(d, v, p);
            lemma_mul_is_commutative(v, d % p);
            if right.at().0 == left.at().0 {
                arith::lemma_mod_small(0, p);
            }
        }
        let sum = chord_sum(left, right, denominators[k]);
        assert(at[2 * k as int] == left.at() && at[2 * k + 1] == right.at());
        let ghost before = next@;
        next.push(sum);
        proof {
            let ls = curve::logs(points@);
            let (a, b) = (curve::log(left), curve::log(right));
            assert(curve::logs(next@) =~= curve::logs(before).push(curve::log(sum)));
            arith::lemma_seq_sum_push(curve::logs(before), curve::log(sum));
            assert(ls.take(2 * k + 2) =~= ls.take(2 * k as int).push(a).push(b));
            arith::lemma_seq_sum_push(ls.take(2 * k as int), a);
            arith::lemma_seq_sum_push(ls.take(2 * k as int).push(a), b);
            arith::lemma_mod_range(a + b, q);
            arith::lemma_eqm_add(
                arith::seq_sum(curve::logs(before)),
                arith::seq_sum(ls.take(2 * k as int)),
                (a + b) % q,
                a + b,
                q,
            );
        }
        k += 1;
    }
    if points.len() % 2 == 1 {
        let ghost before = next@;
        let last = points[points.len() - 1];
        next.push(last);
        proof {
            let ls = curve::logs(points@);
            assert(curve::logs(next@) =~= curve::logs(before).push(curve::log(last)));
            arith::lemma_seq_sum_push(curve::logs(before), curve::log(last));
            assert(ls =~= ls.take(2 * k as int).push(curve::log(last)));
            arith::lemma_seq_sum_push(ls.take(2 * k as int), curve::log(last));
            arith::lemma_eqm_add(
                arith::seq_sum(curve::logs(before)),
                arith::seq_sum(ls.take(2 * k as int)),
                curve::log(last),
                curve::log(last),
                q,
            );
        }
    } else {
        assert(curve::logs(points@).take(2 * k) =~= curve::logs(points@));
    }
    proof {
        assert(curve::coordinates(next@) =~= next_level(at, p)) by {
            assert forall|j: int| 0 <= j < curve::coordinates(next@).len() implies #[trigger] curve::coordinates(
                next@,
            )[j] == next_level(at, p)[j] by {
                assert(curve::coordinates(next@)[j] == next@[j].at());
            }
        }
    }
    Some(next)
}

impl<C: CurveAffine> SparseCommitmentTable<C> {
    /// The scalars of both curves are encoded from the low end, so that no table reads them
    /// from the high end.
    pub open spec fn wf(&self) -> bool {
        &&& self.table.wf()
        &&& self.table.half == SPARSE_COMMITMENT_WINDOW_MAGNITUDES
        &&& !(self.byte_order is BigEndian)
    }

    pub fn new(bases: Vec<C>) -> (r: Self)
        requires
            curve::all_on_curve(bases@),
            bases@.len() * 4096 <= usize::MAX,
        ensures
            r.wf(),
            r.table.bases == bases,
            r.byte_order is LittleEndian,
    {
        SparseCommitmentTable {
            table: WindowTable::new(bases, SPARSE_COMMITMENT_WINDOW_MAGNITUDES),
            byte_order: ScalarByteOrder::LittleEndian,
        }
    }

    /// The signed digit of a window of bytes, which are read from the low end where `little`
    /// is set and else from the high end.
    ///
    /// The bit below each window is its carry-in, while the window's high bit is its
    /// carry-out. These cancel between adjacent windows and leave a signed digit no larger
    /// than half the radix.
    pub fn digit(bytes: &[u8; 32], window: usize, little: bool) -> (r: isize)
        requires
            window < windows::window_count(SPARSE_COMMITMENT_WINDOW_MAGNITUDES as int),
        ensures
            r == windows::signed(
                windows::digits(
                    if little {
                        bytes@
                    } else {
                        bytes@.reverse()
                    },
                    SPARSE_COMMITMENT_WINDOW_MAGNITUDES as int,
                ),
                SPARSE_COMMITMENT_WINDOW_MAGNITUDES as int,
                window as int,
            ),
    {
        let mut from_low: [u8; 32] = *bytes;
        if !little {
            let mut i: usize = 0;
            while i < 32
                invariant
                    i <= 32,
                    forall|j: int| 0 <= j < i ==> #[trigger] from_low@[j] == bytes@[31 - j],
                decreases 32 - i,
            {
                from_low[i] = bytes[31 - i];
                i += 1;
            }
            assert(from_low@ =~= bytes@.reverse());
        }
        let (magnitude, negative) = signed_digit(
            &from_low,
            window,
            SPARSE_COMMITMENT_WINDOW_MAGNITUDES,
        );
        if negative {
            -(magnitude as isize)
        } else {
            magnitude as isize
        }
    }

    /// The entries whose sum is that of the terms. There is nothing where a term is of no
    /// base of the table.
    fn selected_points(&self, terms: &Vec<(usize, C::ScalarExt)>) -> (r: Option<Vec<C>>)
        requires
            self.wf(),
        ensures
            r is Some <==> self.byte_order is LittleEndian && in_table(
                self.table.bases@,
                terms@,
            ),
            r matches Some(points) ==> curve::all_on_curve(points@) && arith::eqm(
                arith::seq_sum(curve::logs(points@)),
                sparse_sum(self.table.bases@, terms@),
                C::ScalarExt::order(),
            ),
    {
        if self.byte_order == ScalarByteOrder::Unsupported {
            return None;
        }
        let ghost q = C::ScalarExt::order();
        let mut selected: Vec<C> = Vec::new();
        let mut i: usize = 0;
        proof {
            C::ScalarExt::lemma_order();
            assert(curve::logs(selected@) =~= Seq::<int>::empty());
            assert(terms@.take(0) =~= Seq::<(usize, C::ScalarExt)>::empty());
        }
        while i < terms.len()
            invariant
                i <= terms@.len(),
                self.wf(),
                q == C::ScalarExt::order(),
                q > 2,
                forall|j: int| 0 <= j < i ==> (#[trigger] terms@[j]).0 < self.table.bases@.len(),
                curve::all_on_curve(selected@),
                arith::eqm(
                    arith::seq_sum(curve::logs(selected@)),
                    sparse_sum(self.table.bases@, terms@.take(i as int)),
                    q,
                ),
            decreases terms@.len() - i,
        {
            let (base, scalar) = terms[i];
            if base >= self.table.bases.len() {
                return None;
            }
            let ghost before = selected@;
            self.table.extend_selected(base, scalar, &mut selected);
            proof {
                assert(terms@.take(i + 1).drop_last() =~= terms@.take(i as int));
                let l = curve::log(self.table.bases@[base as int]) * scalar.val();
                arith::lemma_eqm_add(
                    arith::seq_sum(curve::logs(before)),
                    sparse_sum(self.table.bases@, terms@.take(i as int)),
                    l,
                    l,
                    q,
                );
            }
            i += 1;
        }
        assert(terms@.take(i as int) =~= terms@);
        Some(selected)
    }

    /// The sum of points by batched affine additions. There is nothing where a point is
    /// the identity, or where two points to be added have the same first coordinate.
    pub fn reduce_affine(points: &Vec<C>) -> (r: Option<C>)
        requires
            curve::all_on_curve(points@),
        ensures
            r matches Some(sum) ==> sum.on_curve() && curve::log(sum) == arith::seq_sum(curve::logs(points@))
                % C::ScalarExt::order(),
            r is Some <==> !curve::coordinates(points@).contains((0int, 0int)) && adds_along_chords(
                curve::coordinates(points@),
                C::Base::order(),
            ),
    {
        let ghost q = C::ScalarExt::order();
        proof {
            C::ScalarExt::lemma_order();
            arith::lemma_mod_small(0, q);
        }
        if points.len() == 0 {
            assert(curve::logs(points@) =~= Seq::<int>::empty());
            return Some(C::identity());
        }
        let mut level: Vec<C> = Vec::with_capacity(points.len());
        while level.len() < points.len()
            invariant
                level@.len() <= points@.len(),
                curve::all_on_curve(points@),
                all_affine(level@),
                forall|i: int| 0 <= i < level@.len() ==> #[trigger] level@[i] == points@[i],
            decreases points@.len() - level@.len(),
        {
            let at: usize = level.len();
            assert(points@[at as int].on_curve());
            if points[at].is_identity() {
                assert(curve::coordinates(points@)[at as int] == (0int, 0int));
                return None;
            }
            level.push(points[at]);
        }
        assert(level@ =~= points@);
        proof {
            let c = curve::coordinates(points@);
            if c.contains((0int, 0int)) {
                let i = choose|i: int| 0 <= i < c.len() && c[i] == (0int, 0int);
                assert(level@[i].at() == (0int, 0int));
            }
        }
        while level.len() > 1
            invariant
                level@.len() > 0,
                adds_along_chords(curve::coordinates(points@), C::Base::order()) == adds_along_chords(
                    curve::coordinates(level@),
                    C::Base::order(),
                ),
                !curve::coordinates(points@).contains((0int, 0int)),
                level@.len() <= points@.len(),
                q == C::ScalarExt::order(),
                all_affine(level@),
                arith::eqm(arith::seq_sum(curve::logs(level@)), arith::seq_sum(curve::logs(points@)), q),
            decreases level@.len(),
        {
            match reduce_level(&level) {
                None => {
                    return None;
                },
                Some(next) => {
                    level = next;
                },
            }
        }
        proof {
            let l = curve::log(level@[0]);
            level@[0].lemma_point();
            assert(curve::logs(level@) =~= Seq::<int>::empty().push(l));
            arith::lemma_seq_sum_push(Seq::empty(), l);
            arith::lemma_mod_small(l, q);
        }
        Some(level[0])
    }

    /// The sum of the terms by additions of entries, one term at a time.
    fn evaluate_projective(&self, terms: &Vec<(usize, C::ScalarExt)>) -> (r: Option<C>)
        requires
            self.wf(),
        ensures
            r is Some <==> self.byte_order is LittleEndian && in_table(
                self.table.bases@,
                terms@,
            ),
            r matches Some(sum) ==> sum.on_curve() && curve::log(sum) == sparse_sum(
                self.table.bases@,
                terms@,
            ) % C::ScalarExt::order(),
    {
        if self.byte_order == ScalarByteOrder::Unsupported {
            return None;
        }
        let ghost q = C::ScalarExt::order();
        let mut sum = C::identity();
        let mut i: usize = 0;
        proof {
            C::ScalarExt::lemma_order();
            assert(terms@.take(0) =~= Seq::<(usize, C::ScalarExt)>::empty());
            arith::lemma_mod_small(0, q);
        }
        while i < terms.len()
            invariant
                i <= terms@.len(),
                self.wf(),
                q == C::ScalarExt::order(),
                q > 2,
                forall|j: int| 0 <= j < i ==> (#[trigger] terms@[j]).0 < self.table.bases@.len(),
                sum.on_curve(),
                curve::log(sum) == sparse_sum(self.table.bases@, terms@.take(i as int)) % q,
            decreases terms@.len() - i,
        {
            let (base, scalar) = terms[i];
            if base >= self.table.bases.len() {
                return None;
            }
            let term = self.table.multiply(base, scalar);
            proof {
                assert(terms@.take(i + 1).drop_last() =~= terms@.take(i as int));
                arith::lemma_mod_add(
                    sparse_sum(self.table.bases@, terms@.take(i as int)),
                    curve::log(self.table.bases@[base as int]) * scalar.val(),
                    q,
                );
            }
            sum = sum.add(term);
            i += 1;
        }
        assert(terms@.take(i as int) =~= terms@);
        Some(sum)
    }

    /// The sum of the terms. There is nothing where a term is of no base of the table, or
    /// where the table does not know how scalars are encoded.
    pub fn evaluate(&self, terms: &Vec<(usize, C::ScalarExt)>) -> (r: Option<C>)
        requires
            self.wf(),
        ensures
            r is Some <==> self.byte_order is LittleEndian && in_table(
                self.table.bases@,
                terms@,
            ),
            r matches Some(sum) ==> sum.on_curve() && curve::log(sum) == sparse_sum(
                self.table.bases@,
                terms@,
            ) % C::ScalarExt::order(),
    {
        if terms.len() >= SPARSE_COMMITMENT_AFFINE_REDUCTION_TERMS && current_num_threads() == 1 {
            if let Some(selected) = self.selected_points(terms) {
                if let Some(sum) = Self::reduce_affine(&selected) {
                    return Some(sum);
                }
            }
        }
        self.evaluate_projective(terms)
    }
}

} // verus!
