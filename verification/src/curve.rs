//! Points of the two Pasta curves.
//!
//! A point is held by its affine coordinates; the identity, which has none, by two
//! zeros. Both groups are cyclic of prime order, so a point is a multiple of a fixed
//! generator: `log()` is the multiple. Contracts speak of points by their logs, in
//! which the group's operation is addition modulo the order. The arithmetic itself is
//! done by the `pasta_curves` crate.
use crate::arith;
use crate::field;
use crate::field::{Field, Fp, Fq};
use ff::PrimeField as _;
use group::{Curve as _, CurveAffine as _, GroupEncoding as _};
use pasta_curves::arithmetic::{CurveAffine as _, CurveExt as _};
use vstd::prelude::*;

verus! {

/// Whether the coordinates are those of a point of `y^2 = x^3 + 5`, or the identity's.
pub open spec fn is_point(x: int, y: int, p: int) -> bool {
    (x == 0 && y == 0) || arith::eqm(y * y, x * x * x + 5, p)
}

/// Whether the coordinates, reduced, are those of a point other than the identity.
pub open spec fn is_affine(at: (int, int), p: int) -> bool {
    &&& 0 <= at.0 < p
    &&& 0 <= at.1 < p
    &&& at != (0int, 0int)
    &&& is_point(at.0, at.1, p)
}

/// Whether the line through two points with distinct first coordinates meets the curve
/// again in the mirror image of the third.
pub open spec fn on_chord(a: (int, int), b: (int, int), c: (int, int), p: int) -> bool {
    let (dx, dy) = (b.0 - a.0, b.1 - a.1);
    &&& !arith::eqm(dx, 0, p)
    &&& arith::eqm((c.0 + a.0 + b.0) * (dx * dx), dy * dy, p)
    &&& arith::eqm((c.1 + a.1) * dx, dy * (a.0 - c.0), p)
}

/// The integer that a point's encoding spells: the first coordinate, and above it the
/// parity of the second.
pub open spec fn encoded(at: (int, int)) -> int {
    at.0 + (at.1 % 2) * 0x8000000000000000000000000000000000000000000000000000000000000000int
}

/// Whether an integer is the encoding of the point with the coordinates.
pub open spec fn encodes(x: int, y: int, code: int, p: int) -> bool {
    &&& 0 <= x < p
    &&& 0 <= y < p
    &&& is_point(x, y, p)
    &&& encoded((x, y)) == code
}

/// The points of a curve whose group is cyclic of prime order.
pub trait CurveAffine: Sized + Copy {
    /// The field of the coordinates.
    type Base: Field;

    /// The field of the multipliers: its order is that of the group.
    type ScalarExt: Field;

    /// The coordinates of the point.
    spec fn at(self) -> (int, int);

    /// Whether the coordinates are those of a point.
    spec fn on_curve(self) -> bool;

    /// The discrete logarithm of the point with the coordinates.
    spec fn log_of(at: (int, int)) -> int;

    /// The coordinates of the point that a message is hashed to, in a domain.
    spec fn hash_of(domain: Seq<char>, message: Seq<u8>) -> (int, int);

    proof fn lemma_point(self)
        ensures
            self.on_curve() <==> {
                &&& is_point(self.at().0, self.at().1, Self::Base::order())
                &&& 0 <= Self::log_of(self.at()) < Self::ScalarExt::order()
                &&& Self::log_of((self.at().0, (-self.at().1) % Self::Base::order())) == (
                -Self::log_of(self.at())) % Self::ScalarExt::order()
                &&& self.at() == (0int, 0int) ==> Self::log_of(self.at()) == 0
            },
            0 <= self.at().0 < Self::Base::order(),
            0 <= self.at().1 < Self::Base::order(),
    ;

    /// The coordinates.
    fn xy(self) -> (r: (Self::Base, Self::Base))
        ensures
            r.0.val() == self.at().0,
            r.1.val() == self.at().1,
    ;

    /// The point with the coordinates, where there is one. The mirror image of the third
    /// point of a chord is the sum of the other two.
    fn from_xy(x: Self::Base, y: Self::Base) -> (r: Option<Self>)
        ensures
            r is Some <==> is_point(x.val(), y.val(), Self::Base::order()),
            r matches Some(point) ==> point.on_curve() && point.at() == (x.val(), y.val()),
            r matches Some(point) ==> forall|a: (int, int), b: (int, int)| #[trigger]
                on_chord(a, b, point.at(), Self::Base::order()) && is_affine(
                    a,
                    Self::Base::order(),
                ) && is_affine(b, Self::Base::order()) ==> Self::log_of(point.at()) == (Self::log_of(a) + Self::log_of(b))
                    % Self::ScalarExt::order(),
    ;

    fn identity() -> (r: Self)
        ensures
            r.on_curve(),
            r.at() == (0int, 0int),
            Self::log_of(r.at()) == 0,
    ;

    fn add(self, rhs: Self) -> (r: Self)
        requires
            self.on_curve(),
            rhs.on_curve(),
        ensures
            r.on_curve(),
            Self::log_of(r.at()) == (Self::log_of(self.at()) + Self::log_of(rhs.at()))
                % Self::ScalarExt::order(),
    ;

    fn neg(self) -> (r: Self)
        requires
            self.on_curve(),
        ensures
            r.on_curve(),
            r.at() == (self.at().0, (-self.at().1) % Self::Base::order()),
            Self::log_of(r.at()) == (-Self::log_of(self.at())) % Self::ScalarExt::order(),
    ;

    fn mul(self, scalar: Self::ScalarExt) -> (r: Self)
        requires
            self.on_curve(),
        ensures
            r.on_curve(),
            Self::log_of(r.at()) == (Self::log_of(self.at()) * scalar.val())
                % Self::ScalarExt::order(),
    ;

    /// Multiplies every point by the scalar.
    fn batch_mul_same_scalar_vartime(points: &Vec<Self>, scalar: Self::ScalarExt) -> (r: Vec<Self>)
        requires
            forall|i: int| 0 <= i < points@.len() ==> (#[trigger] points@[i]).on_curve(),
        ensures
            r@.len() == points@.len(),
            forall|i: int|
                0 <= i < r@.len() ==> (#[trigger] r@[i]).on_curve() && Self::log_of(r@[i].at())
                    == (Self::log_of(points@[i].at()) * scalar.val()) % Self::ScalarExt::order(),
    ;

    /// Whether two points are the same: exactly where their logarithms are.
    fn equals(&self, other: &Self) -> (r: bool)
        requires
            self.on_curve(),
            other.on_curve(),
        ensures
            r <==> self.at() == other.at(),
            r <==> Self::log_of(self.at()) == Self::log_of(other.at()),
    ;

    /// Hashes a message to a point.
    fn hash_to_curve(domain: &str, message: &Vec<u8>) -> (r: Self)
        requires
            4 * domain@.len() < 228,
        ensures
            r.on_curve(),
            r.at() == Self::hash_of(domain@, message@),
    ;

    fn to_bytes(&self) -> (r: [u8; 32])
        requires
            self.on_curve(),
        ensures
            arith::bytes_val(r@) == encoded(self.at()),
    ;

    /// The point with the encoding, where there is one.
    fn from_bytes(bytes: &[u8; 32]) -> (r: Option<Self>)
        ensures
            r matches Some(point) ==> point.on_curve() && encoded(point.at()) == arith::bytes_val(bytes@),
            forall|x: int, y: int| #[trigger]
                encodes(x, y, arith::bytes_val(bytes@), Self::Base::order()) ==> r is Some
                    && r->Some_0.at() == (x, y),
    ;

    fn is_identity(&self) -> (r: bool)
        ensures
            r <==> self.at() == (0int, 0int),
    {
        let (x, y) = self.xy();
        x.is_zero() && y.is_zero()
    }
}

/// The discrete logarithm of a point.
pub open spec fn log<C: CurveAffine>(point: C) -> int {
    C::log_of(point.at())
}

pub open spec fn all_on_curve<C: CurveAffine>(points: Seq<C>) -> bool {
    forall|i: int| 0 <= i < points.len() ==> (#[trigger] points[i]).on_curve()
}

/// The discrete logarithms of points.
pub open spec fn logs<C: CurveAffine>(points: Seq<C>) -> Seq<int> {
    Seq::new(points.len(), |i: int| log(points[i]))
}

/// The coordinates of points.
pub open spec fn coordinates<C: CurveAffine>(points: Seq<C>) -> Seq<(int, int)> {
    Seq::new(points.len(), |i: int| points[i].at())
}

/// The discrete logarithm, to the base of the generator of `pasta_curves::Ep`, of the
/// point with the coordinates. The group has the prime order of its scalars and every
/// point but the identity generates it, so each point has exactly one.
pub uninterp spec fn ep_log(x: int, y: int) -> int;

/// The coordinates of the point that `CurveExt::hash_to_curve` of `pasta_curves::Ep`
/// gives for a domain and a message.
pub uninterp spec fn ep_hash(domain: Seq<char>, message: Seq<u8>) -> (int, int);

/// A point of Pallas, or the identity.
#[derive(Clone, Copy, Debug)]
pub struct EpAffine {
    x: Fp,
    y: Fp,
}

impl EpAffine {
    /// Whether the coordinates are those of a point. Its logarithm is reduced, its mirror
    /// image has the opposite logarithm, and the identity's is zero.
    pub closed spec fn valid(self) -> bool {
        &&& is_point(self.x.val(), self.y.val(), field::fp_order())
        &&& 0 <= ep_log(self.x.val(), self.y.val()) < field::fq_order()
        &&& ep_log(self.x.val(), (-self.y.val()) % field::fp_order()) == (-ep_log(self.x.val(), self.y.val()))
            % field::fq_order()
        &&& self.x.val() == 0 && self.y.val() == 0 ==> ep_log(self.x.val(), self.y.val()) == 0
    }

    pub closed spec fn spec_at(self) -> (int, int) {
        (self.x.val(), self.y.val())
    }
}

/// `CurveAffine::from_xy` of `pasta_curves::EpAffine`: there is a point exactly where the
/// coordinates satisfy the curve's equation or are both zero. Logarithms are reduced,
/// that of the mirror image is the opposite, and that of the identity is zero. The
/// mirror image of the third point of a chord is the sum of the other two, as the group
/// law of the curve has it.
#[verifier::external_body]
fn ep_from_xy(x: Fp, y: Fp) -> (r: bool)
    ensures
        r <==> is_point(x.val(), y.val(), field::fp_order()),
        r ==> 0 <= ep_log(x.val(), y.val()) < field::fq_order(),
        r ==> ep_log(x.val(), (-y.val()) % field::fp_order()) == (-ep_log(x.val(), y.val())) % field::fq_order(),
        r && x.val() == 0 && y.val() == 0 ==> ep_log(x.val(), y.val()) == 0,
        r ==> forall|a: (int, int), b: (int, int)| #[trigger]
            on_chord(a, b, (x.val(), y.val()), field::fp_order()) && is_affine(a, field::fp_order())
                && is_affine(b, field::fp_order()) ==> ep_log(x.val(), y.val()) == (ep_log(a.0, a.1) + ep_log(b.0, b.1))
                % field::fq_order(),
{
    let x = pasta_curves::Fp::from_raw(x.0);
    let y = pasta_curves::Fp::from_raw(y.0);
    bool::from(pasta_curves::EpAffine::from_xy(x, y).is_some())
}

/// `group::CurveAffine::identity` of `pasta_curves::EpAffine`: both coordinates are zero, and it
/// is zero times the generator.
#[verifier::external_body]
fn ep_identity() -> (r: EpAffine)
    ensures
        r.x.val() == 0,
        r.y.val() == 0,
        ep_log(r.x.val(), r.y.val()) == 0,
{
    let limbs = |v: &pasta_curves::Fp| -> Fp {
        let b = v.to_repr();
        Fp(core::array::from_fn(|i| u64::from_le_bytes(b[8 * i..8 * i + 8].try_into().unwrap())))
    };
    let c = pasta_curves::EpAffine::identity().to_curve().jacobian_coordinates();
    EpAffine { x: limbs(&c.0), y: limbs(&c.1) }
}

/// `Add` of `pasta_curves::EpAffine`: the logarithms are added.
#[verifier::external_body]
fn ep_add(a: EpAffine, b: EpAffine) -> (r: EpAffine)
    requires
        a.valid(),
        b.valid(),
    ensures
        r.valid(),
        ep_log(r.x.val(), r.y.val()) == (ep_log(a.x.val(), a.y.val()) + ep_log(
            b.x.val(),
            b.y.val(),
        )) % field::fq_order(),
{
    let (f, g) = (pasta_curves::Fp::from_raw, pasta_curves::EpAffine::from_xy);
    let limbs = |v: &pasta_curves::Fp| -> Fp {
        let b = v.to_repr();
        Fp(core::array::from_fn(|i| u64::from_le_bytes(b[8 * i..8 * i + 8].try_into().unwrap())))
    };
    let s = g(f(a.x.0), f(a.y.0)).unwrap() + g(f(b.x.0), f(b.y.0)).unwrap();
    let c = s.to_affine().to_curve().jacobian_coordinates();
    EpAffine { x: limbs(&c.0), y: limbs(&c.1) }
}

/// `Neg` of `pasta_curves::EpAffine`: the second coordinate and the logarithm change sign.
#[verifier::external_body]
fn ep_neg(a: EpAffine) -> (r: EpAffine)
    requires
        a.valid(),
    ensures
        r.valid(),
        r.x.val() == a.x.val(),
        r.y.val() == (-a.y.val()) % field::fp_order(),
        ep_log(r.x.val(), r.y.val()) == (-ep_log(a.x.val(), a.y.val())) % field::fq_order(),
{
    let (f, g) = (pasta_curves::Fp::from_raw, pasta_curves::EpAffine::from_xy);
    let limbs = |v: &pasta_curves::Fp| -> Fp {
        let b = v.to_repr();
        Fp(core::array::from_fn(|i| u64::from_le_bytes(b[8 * i..8 * i + 8].try_into().unwrap())))
    };
    let s = -g(f(a.x.0), f(a.y.0)).unwrap();
    let c = s.to_curve().jacobian_coordinates();
    EpAffine { x: limbs(&c.0), y: limbs(&c.1) }
}

/// `Mul` of `pasta_curves::EpAffine` by a scalar: the logarithm is multiplied.
#[verifier::external_body]
fn ep_mul(a: EpAffine, scalar: Fq) -> (r: EpAffine)
    requires
        a.valid(),
    ensures
        r.valid(),
        ep_log(r.x.val(), r.y.val()) == (ep_log(a.x.val(), a.y.val()) * scalar.val())
            % field::fq_order(),
{
    let (f, g) = (pasta_curves::Fp::from_raw, pasta_curves::EpAffine::from_xy);
    let limbs = |v: &pasta_curves::Fp| -> Fp {
        let b = v.to_repr();
        Fp(core::array::from_fn(|i| u64::from_le_bytes(b[8 * i..8 * i + 8].try_into().unwrap())))
    };
    let s = g(f(a.x.0), f(a.y.0)).unwrap() * pasta_curves::Fq::from_raw(scalar.0);
    let c = s.to_affine().to_curve().jacobian_coordinates();
    EpAffine { x: limbs(&c.0), y: limbs(&c.1) }
}

/// Whether an integer is the encoding of the point with a logarithm.
pub open spec fn ep_encodes_log(code: int, log: int) -> bool {
    exists|x: int, y: int| #[trigger] encodes(x, y, code, field::fp_order()) && ep_log(x, y) == log
}

/// `CurveExt::batch_mul_same_scalar_vartime` of `pasta_curves::Ep`, with the products in
/// their encodings: every point is multiplied by the scalar.
#[verifier::external_body]
fn ep_batch_mul(points: &Vec<EpAffine>, scalar: Fq) -> (r: Vec<[u8; 32]>)
    requires
        forall|i: int| 0 <= i < points@.len() ==> (#[trigger] points@[i]).valid(),
    ensures
        r@.len() == points@.len(),
        forall|i: int|
            0 <= i < r@.len() ==> ep_encodes_log(
                arith::bytes_val((#[trigger] r@[i])@),
                (ep_log(points@[i].x.val(), points@[i].y.val()) * scalar.val()) % field::fq_order(),
            ),
{
    let (f, g) = (pasta_curves::Fp::from_raw, pasta_curves::EpAffine::from_xy);
    let p: Vec<_> = points.iter().map(|a| g(f(a.x.0), f(a.y.0)).unwrap()).collect();
    let mut q = vec![Default::default(); p.len()];
    let scalar = pasta_curves::Fq::from_raw(scalar.0);
    pasta_curves::Ep::batch_mul_same_scalar_vartime(&p, &scalar, &mut q);
    q.iter().map(|a| a.to_affine().to_bytes()).collect()
}

/// `PartialEq` of `pasta_curves::EpAffine`: points are equal where their coordinates are, and
/// different points have different logarithms.
#[verifier::external_body]
fn ep_eq(a: EpAffine, b: EpAffine) -> (r: bool)
    requires
        a.valid(),
        b.valid(),
    ensures
        r <==> (a.x.val(), a.y.val()) == (b.x.val(), b.y.val()),
        r <==> ep_log(a.x.val(), a.y.val()) == ep_log(b.x.val(), b.y.val()),
{
    let (f, g) = (pasta_curves::Fp::from_raw, pasta_curves::EpAffine::from_xy);
    g(f(a.x.0), f(a.y.0)).unwrap() == g(f(b.x.0), f(b.y.0)).unwrap()
}

/// `CurveExt::hash_to_curve` of `pasta_curves::Ep`: some point of the curve, which the
/// domain and the message decide. The domain has to be short.
#[verifier::external_body]
fn ep_hash_to_curve(domain: &str, message: &Vec<u8>) -> (r: EpAffine)
    requires
        4 * domain@.len() < 228,
    ensures
        r.valid(),
        (r.x.val(), r.y.val()) == ep_hash(domain@, message@),
{
    let limbs = |v: &pasta_curves::Fp| -> Fp {
        let b = v.to_repr();
        Fp(core::array::from_fn(|i| u64::from_le_bytes(b[8 * i..8 * i + 8].try_into().unwrap())))
    };
    let s = pasta_curves::Ep::hash_to_curve(domain)(message.as_slice());
    let c = s.to_affine().to_curve().jacobian_coordinates();
    EpAffine { x: limbs(&c.0), y: limbs(&c.1) }
}

/// `GroupEncoding::to_bytes` of `pasta_curves::EpAffine`: the first coordinate, and in the
/// highest bit the parity of the second.
#[verifier::external_body]
fn ep_to_bytes(a: EpAffine) -> (r: [u8; 32])
    requires
        a.valid(),
    ensures
        arith::bytes_val(r@) == encoded((a.x.val(), a.y.val())),
{
    let (f, g) = (pasta_curves::Fp::from_raw, pasta_curves::EpAffine::from_xy);
    g(f(a.x.0), f(a.y.0)).unwrap().to_bytes()
}

/// `GroupEncoding::from_bytes` of `pasta_curves::EpAffine`: the point with the encoding. Every
/// point has one, and no two the same.
#[verifier::external_body]
fn ep_from_bytes(bytes: &[u8; 32]) -> (r: Option<EpAffine>)
    ensures
        r matches Some(a) ==> a.valid(),
        r matches Some(a) ==> encoded((a.x.val(), a.y.val())) == arith::bytes_val(bytes@),
        forall|x: int, y: int| #[trigger]
            encodes(x, y, arith::bytes_val(bytes@), field::fp_order()) ==> r is Some && (
            r->Some_0.x.val(),
            r->Some_0.y.val(),
        ) == (x, y),
{
    let limbs = |v: &pasta_curves::Fp| -> Fp {
        let b = v.to_repr();
        Fp(core::array::from_fn(|i| u64::from_le_bytes(b[8 * i..8 * i + 8].try_into().unwrap())))
    };
    let a: Option<pasta_curves::EpAffine> = pasta_curves::EpAffine::from_bytes(bytes).into();
    let c = a.map(|a| a.to_curve().jacobian_coordinates());
    c.map(|c| EpAffine { x: limbs(&c.0), y: limbs(&c.1) })
}

impl CurveAffine for EpAffine {
    type Base = Fp;

    type ScalarExt = Fq;

    closed spec fn at(self) -> (int, int) {
        self.spec_at()
    }

    closed spec fn on_curve(self) -> bool {
        self.valid()
    }

    open spec fn log_of(at: (int, int)) -> int {
        ep_log(at.0, at.1)
    }

    open spec fn hash_of(domain: Seq<char>, message: Seq<u8>) -> (int, int) {
        ep_hash(domain, message)
    }

    proof fn lemma_point(self) {
        Fp::lemma_val(self.x);
        Fp::lemma_val(self.y);
    }

    fn xy(self) -> (r: (Fp, Fp)) {
        (self.x, self.y)
    }

    fn from_xy(x: Fp, y: Fp) -> (r: Option<EpAffine>) {
        if ep_from_xy(x, y) {
            Some(EpAffine { x, y })
        } else {
            None
        }
    }

    fn identity() -> (r: EpAffine) {
        let r = ep_identity();
        proof {
            Fp::lemma_order();
            Fq::lemma_order();
            arith::lemma_mod_small(0, field::fp_order());
            arith::lemma_mod_small(0, field::fq_order());
        }
        r
    }

    fn add(self, rhs: EpAffine) -> (r: EpAffine) {
        ep_add(self, rhs)
    }

    fn neg(self) -> (r: EpAffine) {
        ep_neg(self)
    }

    fn mul(self, scalar: Fq) -> (r: EpAffine) {
        ep_mul(self, scalar)
    }

    fn batch_mul_same_scalar_vartime(points: &Vec<EpAffine>, scalar: Fq) -> (r: Vec<EpAffine>) {
        assert(forall|i: int| 0 <= i < points@.len() ==> (#[trigger] points@[i]).on_curve());
        let codes = ep_batch_mul(points, scalar);
        let mut r: Vec<EpAffine> = Vec::with_capacity(codes.len());
        let mut i: usize = 0;
        while i < codes.len()
            invariant
                i <= codes@.len(),
                codes@.len() == points@.len(),
                r@.len() == i,
                forall|j: int|
                    0 <= j < codes@.len() ==> ep_encodes_log(
                        arith::bytes_val((#[trigger] codes@[j])@),
                        (ep_log(points@[j].x.val(), points@[j].y.val()) * scalar.val())
                            % field::fq_order(),
                    ),
                forall|j: int|
                    0 <= j < i ==> (#[trigger] r@[j]).on_curve() && Self::log_of(r@[j].at())
                        == (Self::log_of(points@[j].at()) * scalar.val()) % field::fq_order(),
            decreases codes@.len() - i,
        {
            assert(ep_encodes_log(
                arith::bytes_val(codes@[i as int]@),
                (ep_log(points@[i as int].x.val(), points@[i as int].y.val()) * scalar.val())
                    % field::fq_order(),
            ));
            if let Some(point) = ep_from_bytes(&codes[i]) {
                r.push(point);
            }
            i += 1;
        }
        r
    }

    fn equals(&self, other: &EpAffine) -> (r: bool) {
        ep_eq(*self, *other)
    }

    fn hash_to_curve(domain: &str, message: &Vec<u8>) -> (r: EpAffine) {
        ep_hash_to_curve(domain, message)
    }

    fn to_bytes(&self) -> (r: [u8; 32]) {
        ep_to_bytes(*self)
    }

    fn from_bytes(bytes: &[u8; 32]) -> (r: Option<EpAffine>) {
        ep_from_bytes(bytes)
    }
}

/// The discrete logarithm, to the base of the generator of `pasta_curves::Eq`, of the
/// point with the coordinates. The group has the prime order of its scalars and every
/// point but the identity generates it, so each point has exactly one.
pub uninterp spec fn eq_log(x: int, y: int) -> int;

/// The coordinates of the point that `CurveExt::hash_to_curve` of `pasta_curves::Eq`
/// gives for a domain and a message.
pub uninterp spec fn eq_hash(domain: Seq<char>, message: Seq<u8>) -> (int, int);

/// A point of Vesta, or the identity.
#[derive(Clone, Copy, Debug)]
pub struct EqAffine {
    x: Fq,
    y: Fq,
}

impl EqAffine {
    /// Whether the coordinates are those of a point. Its logarithm is reduced, its mirror
    /// image has the opposite logarithm, and the identity's is zero.
    pub closed spec fn valid(self) -> bool {
        &&& is_point(self.x.val(), self.y.val(), field::fq_order())
        &&& 0 <= eq_log(self.x.val(), self.y.val()) < field::fp_order()
        &&& eq_log(self.x.val(), (-self.y.val()) % field::fq_order()) == (-eq_log(self.x.val(), self.y.val()))
            % field::fp_order()
        &&& self.x.val() == 0 && self.y.val() == 0 ==> eq_log(self.x.val(), self.y.val()) == 0
    }

    pub closed spec fn spec_at(self) -> (int, int) {
        (self.x.val(), self.y.val())
    }
}

/// `CurveAffine::from_xy` of `pasta_curves::EqAffine`: there is a point exactly where the
/// coordinates satisfy the curve's equation or are both zero. Logarithms are reduced,
/// that of the mirror image is the opposite, and that of the identity is zero. The
/// mirror image of the third point of a chord is the sum of the other two, as the group
/// law of the curve has it.
#[verifier::external_body]
fn eq_from_xy(x: Fq, y: Fq) -> (r: bool)
    ensures
        r <==> is_point(x.val(), y.val(), field::fq_order()),
        r ==> 0 <= eq_log(x.val(), y.val()) < field::fp_order(),
        r ==> eq_log(x.val(), (-y.val()) % field::fq_order()) == (-eq_log(x.val(), y.val())) % field::fp_order(),
        r && x.val() == 0 && y.val() == 0 ==> eq_log(x.val(), y.val()) == 0,
        r ==> forall|a: (int, int), b: (int, int)| #[trigger]
            on_chord(a, b, (x.val(), y.val()), field::fq_order()) && is_affine(a, field::fq_order())
                && is_affine(b, field::fq_order()) ==> eq_log(x.val(), y.val()) == (eq_log(a.0, a.1) + eq_log(b.0, b.1))
                % field::fp_order(),
{
    let x = pasta_curves::Fq::from_raw(x.0);
    let y = pasta_curves::Fq::from_raw(y.0);
    bool::from(pasta_curves::EqAffine::from_xy(x, y).is_some())
}

/// `group::CurveAffine::identity` of `pasta_curves::EqAffine`: both coordinates are zero, and it
/// is zero times the generator.
#[verifier::external_body]
fn eq_identity() -> (r: EqAffine)
    ensures
        r.x.val() == 0,
        r.y.val() == 0,
        eq_log(r.x.val(), r.y.val()) == 0,
{
    let limbs = |v: &pasta_curves::Fq| -> Fq {
        let b = v.to_repr();
        Fq(core::array::from_fn(|i| u64::from_le_bytes(b[8 * i..8 * i + 8].try_into().unwrap())))
    };
    let c = pasta_curves::EqAffine::identity().to_curve().jacobian_coordinates();
    EqAffine { x: limbs(&c.0), y: limbs(&c.1) }
}

/// `Add` of `pasta_curves::EqAffine`: the logarithms are added.
#[verifier::external_body]
fn eq_add(a: EqAffine, b: EqAffine) -> (r: EqAffine)
    requires
        a.valid(),
        b.valid(),
    ensures
        r.valid(),
        eq_log(r.x.val(), r.y.val()) == (eq_log(a.x.val(), a.y.val()) + eq_log(
            b.x.val(),
            b.y.val(),
        )) % field::fp_order(),
{
    let (f, g) = (pasta_curves::Fq::from_raw, pasta_curves::EqAffine::from_xy);
    let limbs = |v: &pasta_curves::Fq| -> Fq {
        let b = v.to_repr();
        Fq(core::array::from_fn(|i| u64::from_le_bytes(b[8 * i..8 * i + 8].try_into().unwrap())))
    };
    let s = g(f(a.x.0), f(a.y.0)).unwrap() + g(f(b.x.0), f(b.y.0)).unwrap();
    let c = s.to_affine().to_curve().jacobian_coordinates();
    EqAffine { x: limbs(&c.0), y: limbs(&c.1) }
}

/// `Neg` of `pasta_curves::EqAffine`: the second coordinate and the logarithm change sign.
#[verifier::external_body]
fn eq_neg(a: EqAffine) -> (r: EqAffine)
    requires
        a.valid(),
    ensures
        r.valid(),
        r.x.val() == a.x.val(),
        r.y.val() == (-a.y.val()) % field::fq_order(),
        eq_log(r.x.val(), r.y.val()) == (-eq_log(a.x.val(), a.y.val())) % field::fp_order(),
{
    let (f, g) = (pasta_curves::Fq::from_raw, pasta_curves::EqAffine::from_xy);
    let limbs = |v: &pasta_curves::Fq| -> Fq {
        let b = v.to_repr();
        Fq(core::array::from_fn(|i| u64::from_le_bytes(b[8 * i..8 * i + 8].try_into().unwrap())))
    };
    let s = -g(f(a.x.0), f(a.y.0)).unwrap();
    let c = s.to_curve().jacobian_coordinates();
    EqAffine { x: limbs(&c.0), y: limbs(&c.1) }
}

/// `Mul` of `pasta_curves::EqAffine` by a scalar: the logarithm is multiplied.
#[verifier::external_body]
fn eq_mul(a: EqAffine, scalar: Fp) -> (r: EqAffine)
    requires
        a.valid(),
    ensures
        r.valid(),
        eq_log(r.x.val(), r.y.val()) == (eq_log(a.x.val(), a.y.val()) * scalar.val())
            % field::fp_order(),
{
    let (f, g) = (pasta_curves::Fq::from_raw, pasta_curves::EqAffine::from_xy);
    let limbs = |v: &pasta_curves::Fq| -> Fq {
        let b = v.to_repr();
        Fq(core::array::from_fn(|i| u64::from_le_bytes(b[8 * i..8 * i + 8].try_into().unwrap())))
    };
    let s = g(f(a.x.0), f(a.y.0)).unwrap() * pasta_curves::Fp::from_raw(scalar.0);
    let c = s.to_affine().to_curve().jacobian_coordinates();
    EqAffine { x: limbs(&c.0), y: limbs(&c.1) }
}

/// Whether an integer is the encoding of the point with a logarithm.
pub open spec fn eq_encodes_log(code: int, log: int) -> bool {
    exists|x: int, y: int| #[trigger] encodes(x, y, code, field::fq_order()) && eq_log(x, y) == log
}

/// `CurveExt::batch_mul_same_scalar_vartime` of `pasta_curves::Eq`, with the products in
/// their encodings: every point is multiplied by the scalar.
#[verifier::external_body]
fn eq_batch_mul(points: &Vec<EqAffine>, scalar: Fp) -> (r: Vec<[u8; 32]>)
    requires
        forall|i: int| 0 <= i < points@.len() ==> (#[trigger] points@[i]).valid(),
    ensures
        r@.len() == points@.len(),
        forall|i: int|
            0 <= i < r@.len() ==> eq_encodes_log(
                arith::bytes_val((#[trigger] r@[i])@),
                (eq_log(points@[i].x.val(), points@[i].y.val()) * scalar.val()) % field::fp_order(),
            ),
{
    let (f, g) = (pasta_curves::Fq::from_raw, pasta_curves::EqAffine::from_xy);
    let p: Vec<_> = points.iter().map(|a| g(f(a.x.0), f(a.y.0)).unwrap()).collect();
    let mut q = vec![Default::default(); p.len()];
    let scalar = pasta_curves::Fp::from_raw(scalar.0);
    pasta_curves::Eq::batch_mul_same_scalar_vartime(&p, &scalar, &mut q);
    q.iter().map(|a| a.to_affine().to_bytes()).collect()
}

/// `PartialEq` of `pasta_curves::EqAffine`: points are equal where their coordinates are, and
/// different points have different logarithms.
#[verifier::external_body]
fn eq_eq(a: EqAffine, b: EqAffine) -> (r: bool)
    requires
        a.valid(),
        b.valid(),
    ensures
        r <==> (a.x.val(), a.y.val()) == (b.x.val(), b.y.val()),
        r <==> eq_log(a.x.val(), a.y.val()) == eq_log(b.x.val(), b.y.val()),
{
    let (f, g) = (pasta_curves::Fq::from_raw, pasta_curves::EqAffine::from_xy);
    g(f(a.x.0), f(a.y.0)).unwrap() == g(f(b.x.0), f(b.y.0)).unwrap()
}

/// `CurveExt::hash_to_curve` of `pasta_curves::Eq`: some point of the curve, which the
/// domain and the message decide. The domain has to be short.
#[verifier::external_body]
fn eq_hash_to_curve(domain: &str, message: &Vec<u8>) -> (r: EqAffine)
    requires
        4 * domain@.len() < 228,
    ensures
        r.valid(),
        (r.x.val(), r.y.val()) == eq_hash(domain@, message@),
{
    let limbs = |v: &pasta_curves::Fq| -> Fq {
        let b = v.to_repr();
        Fq(core::array::from_fn(|i| u64::from_le_bytes(b[8 * i..8 * i + 8].try_into().unwrap())))
    };
    let s = pasta_curves::Eq::hash_to_curve(domain)(message.as_slice());
    let c = s.to_affine().to_curve().jacobian_coordinates();
    EqAffine { x: limbs(&c.0), y: limbs(&c.1) }
}

/// `GroupEncoding::to_bytes` of `pasta_curves::EqAffine`: the first coordinate, and in the
/// highest bit the parity of the second.
#[verifier::external_body]
fn eq_to_bytes(a: EqAffine) -> (r: [u8; 32])
    requires
        a.valid(),
    ensures
        arith::bytes_val(r@) == encoded((a.x.val(), a.y.val())),
{
    let (f, g) = (pasta_curves::Fq::from_raw, pasta_curves::EqAffine::from_xy);
    g(f(a.x.0), f(a.y.0)).unwrap().to_bytes()
}

/// `GroupEncoding::from_bytes` of `pasta_curves::EqAffine`: the point with the encoding. Every
/// point has one, and no two the same.
#[verifier::external_body]
fn eq_from_bytes(bytes: &[u8; 32]) -> (r: Option<EqAffine>)
    ensures
        r matches Some(a) ==> a.valid(),
        r matches Some(a) ==> encoded((a.x.val(), a.y.val())) == arith::bytes_val(bytes@),
        forall|x: int, y: int| #[trigger]
            encodes(x, y, arith::bytes_val(bytes@), field::fq_order()) ==> r is Some && (
            r->Some_0.x.val(),
            r->Some_0.y.val(),
        ) == (x, y),
{
    let limbs = |v: &pasta_curves::Fq| -> Fq {
        let b = v.to_repr();
        Fq(core::array::from_fn(|i| u64::from_le_bytes(b[8 * i..8 * i + 8].try_into().unwrap())))
    };
    let a: Option<pasta_curves::EqAffine> = pasta_curves::EqAffine::from_bytes(bytes).into();
    let c = a.map(|a| a.to_curve().jacobian_coordinates());
    c.map(|c| EqAffine { x: limbs(&c.0), y: limbs(&c.1) })
}

impl CurveAffine for EqAffine {
    type Base = Fq;

    type ScalarExt = Fp;

    closed spec fn at(self) -> (int, int) {
        self.spec_at()
    }

    closed spec fn on_curve(self) -> bool {
        self.valid()
    }

    open spec fn log_of(at: (int, int)) -> int {
        eq_log(at.0, at.1)
    }

    open spec fn hash_of(domain: Seq<char>, message: Seq<u8>) -> (int, int) {
        eq_hash(domain, message)
    }

    proof fn lemma_point(self) {
        Fq::lemma_val(self.x);
        Fq::lemma_val(self.y);
    }

    fn xy(self) -> (r: (Fq, Fq)) {
        (self.x, self.y)
    }

    fn from_xy(x: Fq, y: Fq) -> (r: Option<EqAffine>) {
        if eq_from_xy(x, y) {
            Some(EqAffine { x, y })
        } else {
            None
        }
    }

    fn identity() -> (r: EqAffine) {
        let r = eq_identity();
        proof {
            Fp::lemma_order();
            Fq::lemma_order();
            arith::lemma_mod_small(0, field::fp_order());
            arith::lemma_mod_small(0, field::fq_order());
        }
        r
    }

    fn add(self, rhs: EqAffine) -> (r: EqAffine) {
        eq_add(self, rhs)
    }

    fn neg(self) -> (r: EqAffine) {
        eq_neg(self)
    }

    fn mul(self, scalar: Fp) -> (r: EqAffine) {
        eq_mul(self, scalar)
    }

    fn batch_mul_same_scalar_vartime(points: &Vec<EqAffine>, scalar: Fp) -> (r: Vec<EqAffine>) {
        assert(forall|i: int| 0 <= i < points@.len() ==> (#[trigger] points@[i]).on_curve());
        let codes = eq_batch_mul(points, scalar);
        let mut r: Vec<EqAffine> = Vec::with_capacity(codes.len());
        let mut i: usize = 0;
        while i < codes.len()
            invariant
                i <= codes@.len(),
                codes@.len() == points@.len(),
                r@.len() == i,
                forall|j: int|
                    0 <= j < codes@.len() ==> eq_encodes_log(
                        arith::bytes_val((#[trigger] codes@[j])@),
                        (eq_log(points@[j].x.val(), points@[j].y.val()) * scalar.val())
                            % field::fp_order(),
                    ),
                forall|j: int|
                    0 <= j < i ==> (#[trigger] r@[j]).on_curve() && Self::log_of(r@[j].at())
                        == (Self::log_of(points@[j].at()) * scalar.val()) % field::fp_order(),
            decreases codes@.len() - i,
        {
            assert(eq_encodes_log(
                arith::bytes_val(codes@[i as int]@),
                (eq_log(points@[i as int].x.val(), points@[i as int].y.val()) * scalar.val())
                    % field::fp_order(),
            ));
            if let Some(point) = eq_from_bytes(&codes[i]) {
                r.push(point);
            }
            i += 1;
        }
        r
    }

    fn equals(&self, other: &EqAffine) -> (r: bool) {
        eq_eq(*self, *other)
    }

    fn hash_to_curve(domain: &str, message: &Vec<u8>) -> (r: EqAffine) {
        eq_hash_to_curve(domain, message)
    }

    fn to_bytes(&self) -> (r: [u8; 32]) {
        eq_to_bytes(*self)
    }

    fn from_bytes(bytes: &[u8; 32]) -> (r: Option<EqAffine>) {
        eq_from_bytes(bytes)
    }
}

} // verus!
