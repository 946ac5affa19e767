//! The two Pasta fields.
//!
//! An element is held as four little-endian 64-bit limbs of any integer congruent
//! to it, so every limb pattern is an element and nothing has to be kept in
//! canonical form. What an element *is* is `val()`, its representative in
//! `0 .. order()`. The arithmetic itself is done by the `pasta_curves` crate.
use crate::arith;
use ff::{Field as _, PrimeField as _, WithSmallOrderMulGroup as _};
use pasta_curves::deferred::DeferredField as _;
use vstd::arithmetic::power::*;
use vstd::arithmetic::power2::*;
use vstd::prelude::*;

verus! {

/// The integer that four little-endian 64-bit limbs spell.
pub open spec fn limbs_val(limbs: Seq<u64>) -> int {
    limbs[0] + limbs[1] * 0x1_0000_0000_0000_0000int + limbs[2]
        * 0x1_0000_0000_0000_0000_0000_0000_0000_0000int + limbs[3]
        * 0x1_0000_0000_0000_0000_0000_0000_0000_0000_0000_0000_0000_0000int
}

/// The 2-adicity of the multiplicative groups of both fields.
pub const TWO_ADICITY: u32 = 32;

/// A prime field with the roots of unity that polynomial arithmetic needs.
pub trait Field: Sized + Copy {
    /// A wide accumulator of products that are reduced once, at the end.
    type Accumulator: Copy;

    /// The number of elements of the field.
    spec fn order() -> int;

    /// The canonical representative of the element.
    spec fn val(self) -> int;

    /// What an accumulator has added up, modulo the order.
    spec fn accumulated(acc: Self::Accumulator) -> int;

    /// How often the sum of an accumulator has overflowed its limbs.
    spec fn carries(acc: Self::Accumulator) -> int;

    /// The fixed primitive root of unity of order `2^32`.
    spec fn root() -> int;

    /// The fixed cube root of unity other than one.
    spec fn cube_root() -> int;

    proof fn lemma_order()
        ensures
            Self::order() > u64::MAX,
            Self::order()
                < 0x8000000000000000000000000000000000000000000000000000000000000000int,
            Self::order() % 2 == 1,
            0 <= Self::root() < Self::order(),
            pow(Self::root(), pow2(31)) % Self::order() == Self::order() - 1,
            0 <= Self::cube_root() < Self::order(),
            pow(Self::cube_root(), 3) % Self::order() == 1,
            Self::cube_root() != 1,
    ;

    proof fn lemma_val(x: Self)
        ensures
            0 <= x.val() < Self::order(),
            Self::order() > 2,
    ;

    fn zero() -> (r: Self)
        ensures
            r.val() == 0,
    ;

    fn one() -> (r: Self)
        ensures
            r.val() == 1,
    ;

    fn from_u64(v: u64) -> (r: Self)
        ensures
            r.val() == v as int % Self::order(),
    ;

    fn add(self, rhs: Self) -> (r: Self)
        ensures
            r.val() == (self.val() + rhs.val()) % Self::order(),
    ;

    fn sub(self, rhs: Self) -> (r: Self)
        ensures
            r.val() == (self.val() - rhs.val()) % Self::order(),
    ;

    fn mul(self, rhs: Self) -> (r: Self)
        ensures
            r.val() == (self.val() * rhs.val()) % Self::order(),
    ;

    /// Whether two elements are the same element of the field.
    fn equals(&self, other: &Self) -> (r: bool)
        ensures
            r <==> self.val() == other.val(),
    ;

    /// Whether the element's representative is the smaller.
    fn less(&self, other: &Self) -> (r: bool)
        ensures
            r <==> self.val() < other.val(),
    ;

    /// The representative in little-endian bytes.
    fn to_repr(&self) -> (r: [u8; 32])
        ensures
            arith::bytes_val(r@) == self.val(),
    ;

    /// The multiplicative inverse, which every element but zero has.
    fn invert(self) -> (r: Option<Self>)
        ensures
            r is None <==> self.val() == 0,
            r matches Some(inv) ==> (self.val() * inv.val()) % Self::order() == 1,
    ;

    fn pow_vartime(self, exponent: u64) -> (r: Self)
        ensures
            r.val() == pow(self.val(), exponent as nat) % Self::order(),
    ;

    fn root_of_unity() -> (r: Self)
        ensures
            r.val() == Self::root(),
    ;

    fn root_of_unity_inv() -> (r: Self)
        ensures
            (r.val() * Self::root()) % Self::order() == 1,
    ;

    fn two_inv() -> (r: Self)
        ensures
            (r.val() * 2) % Self::order() == 1,
    ;

    fn zeta() -> (r: Self)
        ensures
            r.val() == Self::cube_root(),
    ;

    fn accumulator() -> (acc: Self::Accumulator)
        ensures
            Self::accumulated(acc) == 0,
            Self::carries(acc) == 0,
    ;

    fn mul_accumulate(acc: &mut Self::Accumulator, a: &Self, b: &Self)
        requires
            Self::carries(*old(acc)) < u64::MAX,
        ensures
            Self::accumulated(*final(acc)) == (Self::accumulated(*old(acc)) + a.val() * b.val())
                % Self::order(),
            Self::carries(*final(acc)) <= Self::carries(*old(acc)) + 1,
    ;

    fn reduce(acc: Self::Accumulator) -> (r: Self)
        ensures
            r.val() == Self::accumulated(acc),
    ;

    /// Inverts every nonzero element in place and leaves the zeros as they are.
    fn batch_invert(values: &mut Vec<Self>)
        ensures
            final(values)@.len() == old(values)@.len(),
            forall|i: int|
                0 <= i < old(values)@.len() ==> {
                    if old(values)@[i].val() == 0 {
                        (#[trigger] final(values)@[i]).val() == 0
                    } else {
                        (final(values)@[i].val() * old(values)@[i].val()) % Self::order() == 1
                    }
                },
    ;

    fn neg(self) -> (r: Self)
        ensures
            r.val() == (-self.val()) % Self::order(),
    {
        let r = Self::zero().sub(self);
        assert(0 - self.val() == -self.val());
        r
    }

    fn double(self) -> (r: Self)
        ensures
            r.val() == (2 * self.val()) % Self::order(),
    {
        self.add(self)
    }

    fn square(self) -> (r: Self)
        ensures
            r.val() == (self.val() * self.val()) % Self::order(),
    {
        self.mul(self)
    }

    fn is_zero(&self) -> (r: bool)
        ensures
            r <==> self.val() == 0,
    {
        self.equals(&Self::zero())
    }
}

/// Repeated squaring: `r` holds `root^(2^i)` for `i` up to the length of `r`.
proof fn lemma_square_chain(p: int, r: Seq<int>, i: nat)
    requires
        p > 0,
        i < r.len(),
        0 <= r[0] < p,
        forall|j: int| 0 <= j < r.len() - 1 ==> (#[trigger] r[j] * r[j]) % p == r[j + 1],
    ensures
        pow(r[0], pow2(i)) % p == r[i as int],
    decreases i,
{
    if i == 0 {
        lemma2_to64();
        lemma_pow1(r[0]);
        arith::lemma_mod_small(r[0], p);
    } else {
        let k = (i - 1) as nat;
        lemma_square_chain(p, r, k);
        lemma_pow2_unfold(i);
        lemma_pow_adds(r[0], pow2(k), pow2(k));
        let x = pow(r[0], pow2(k));
        assert(r[k as int] == x % p);
        arith::lemma_mod_mul(x, x, p);
        assert((r[k as int] * r[k as int]) % p == r[k as int + 1]);
    }
}

/// `pasta_curves::deferred::Product`: a wide accumulator of products, held opaquely.
#[verifier::external_type_specification]
#[verifier::external_body]
#[verifier::reject_recursive_types(F)]
pub struct ExProduct<F>(pasta_curves::deferred::Product<F>);

/// `pasta_curves::Fp`, the field of an accumulator's products, held opaquely.
#[verifier::external_type_specification]
#[verifier::external_body]
pub struct ExFp(pasta_curves::pallas::Base);

/// The order of [`Fp`].
pub open spec fn fp_order() -> int {
    0x40000000000000000000000000000000224698fc094cf91b992d30ed00000001int
}

/// An element of the Pallas base field, which is also the Vesta scalar field.
#[derive(Clone, Copy, Debug)]
pub struct Fp(pub [u64; 4]);

impl Fp {
    pub open spec fn spec_val(self) -> int {
        limbs_val(self.0@) % fp_order()
    }
}

/// `Add` for `pasta_curves::Fp`, on the elements congruent to the limbs
/// (`Fp::from_raw`): the sum modulo the order.
#[verifier::external_body]
fn fp_add(a: [u64; 4], b: [u64; 4]) -> (out: [u64; 4])
    ensures
        limbs_val(out@) == (limbs_val(a@) + limbs_val(b@)) % fp_order(),
{
    let r = pasta_curves::Fp::from_raw(a) + pasta_curves::Fp::from_raw(b);
    let b: [u8; 32] = r.to_repr();
    core::array::from_fn(|i| u64::from_le_bytes(b[8 * i..8 * i + 8].try_into().unwrap()))
}

/// `Sub` for `pasta_curves::Fp`: the difference modulo the order.
#[verifier::external_body]
fn fp_sub(a: [u64; 4], b: [u64; 4]) -> (out: [u64; 4])
    ensures
        limbs_val(out@) == (limbs_val(a@) - limbs_val(b@)) % fp_order(),
{
    let r = pasta_curves::Fp::from_raw(a) - pasta_curves::Fp::from_raw(b);
    let b: [u8; 32] = r.to_repr();
    core::array::from_fn(|i| u64::from_le_bytes(b[8 * i..8 * i + 8].try_into().unwrap()))
}

/// `Mul` for `pasta_curves::Fp`: the product modulo the order.
#[verifier::external_body]
fn fp_mul(a: [u64; 4], b: [u64; 4]) -> (out: [u64; 4])
    ensures
        limbs_val(out@) == (limbs_val(a@) * limbs_val(b@)) % fp_order(),
{
    let r = pasta_curves::Fp::from_raw(a) * pasta_curves::Fp::from_raw(b);
    let b: [u8; 32] = r.to_repr();
    core::array::from_fn(|i| u64::from_le_bytes(b[8 * i..8 * i + 8].try_into().unwrap()))
}

/// `PartialEq` for `pasta_curves::Fp`: equality modulo the order.
#[verifier::external_body]
fn fp_eq(a: [u64; 4], b: [u64; 4]) -> (r: bool)
    ensures
        r <==> limbs_val(a@) % fp_order() == limbs_val(b@) % fp_order(),
{
    pasta_curves::Fp::from_raw(a) == pasta_curves::Fp::from_raw(b)
}

/// `PartialOrd` for `pasta_curves::Fp`: the order of the representatives.
#[verifier::external_body]
fn fp_lt(a: [u64; 4], b: [u64; 4]) -> (r: bool)
    ensures
        r <==> limbs_val(a@) % fp_order() < limbs_val(b@) % fp_order(),
{
    pasta_curves::Fp::from_raw(a) < pasta_curves::Fp::from_raw(b)
}

/// `ff::PrimeField::to_repr` for `pasta_curves::Fp`: the representative in little-endian
/// bytes.
#[verifier::external_body]
fn fp_to_repr(a: [u64; 4]) -> (out: [u8; 32])
    ensures
        arith::bytes_val(out@) == limbs_val(a@) % fp_order(),
{
    pasta_curves::Fp::from_raw(a).to_repr()
}

/// `ff::Field::invert` for `pasta_curves::Fp`: the multiplicative inverse, which is
/// missing for zero alone.
#[verifier::external_body]
fn fp_invert(a: [u64; 4]) -> (out: Option<[u64; 4]>)
    ensures
        out is None <==> limbs_val(a@) % fp_order() == 0,
        out matches Some(inv) ==> (limbs_val(a@) * limbs_val(inv@)) % fp_order() == 1,
{
    let r: Option<pasta_curves::Fp> = pasta_curves::Fp::from_raw(a).invert().into();
    r.map(|r| {
        let b: [u8; 32] = r.to_repr();
        core::array::from_fn(|i| u64::from_le_bytes(b[8 * i..8 * i + 8].try_into().unwrap()))
    })
}

/// `ff::Field::pow_vartime` for `pasta_curves::Fp`, with an exponent of one limb.
#[verifier::external_body]
fn fp_pow(a: [u64; 4], exponent: u64) -> (out: [u64; 4])
    ensures
        limbs_val(out@) == pow(limbs_val(a@), exponent as nat) % fp_order(),
{
    let r = pasta_curves::Fp::from_raw(a).pow_vartime([exponent]);
    let b: [u8; 32] = r.to_repr();
    core::array::from_fn(|i| u64::from_le_bytes(b[8 * i..8 * i + 8].try_into().unwrap()))
}

/// `ff::BatchInvert::batch_invert` for `pasta_curves::Fp`: every nonzero element is
/// replaced by its inverse, and zeros stay zero.
#[verifier::external_body]
fn fp_batch_invert(values: &mut Vec<Fp>)
    ensures
        final(values)@.len() == old(values)@.len(),
        forall|i: int|
            0 <= i < old(values)@.len() ==> {
                if old(values)@[i].spec_val() == 0 {
                    (#[trigger] final(values)@[i]).spec_val() == 0
                } else {
                    (final(values)@[i].spec_val() * old(values)@[i].spec_val()) % fp_order() == 1
                }
            },
{
    let mut v: Vec<pasta_curves::Fp> =
        values.iter().map(|x| pasta_curves::Fp::from_raw(x.0)).collect();
    ff::BatchInvert::batch_invert(v.iter_mut());
    for (x, r) in values.iter_mut().zip(v) {
        let b: [u8; 32] = r.to_repr();
        x.0 = core::array::from_fn(|i| u64::from_le_bytes(b[8 * i..8 * i + 8].try_into().unwrap()));
    }
}

/// `ff::PrimeField::ROOT_OF_UNITY` for `pasta_curves::Fp`: the fixed root of unity of order `2^32`.
#[verifier::external_body]
fn fp_root_of_unity() -> (out: [u64; 4])
    ensures
        limbs_val(out@) == 0x2bce74deac30ebda362120830561f81aea322bf2b7bb7584bdad6fabd87ea32fint,
{
    let r = pasta_curves::Fp::ROOT_OF_UNITY;
    let b: [u8; 32] = r.to_repr();
    core::array::from_fn(|i| u64::from_le_bytes(b[8 * i..8 * i + 8].try_into().unwrap()))
}

/// `ff::PrimeField::ROOT_OF_UNITY_INV` for `pasta_curves::Fp`: the inverse of that root of unity.
#[verifier::external_body]
fn fp_root_of_unity_inv() -> (out: [u64; 4])
    ensures
        limbs_val(out@) == 0x2cd5282c53116b5cb4ed8e647196dad184a0a1d8859f066ff0b87c7db2ce91f6int,
{
    let r = pasta_curves::Fp::ROOT_OF_UNITY_INV;
    let b: [u8; 32] = r.to_repr();
    core::array::from_fn(|i| u64::from_le_bytes(b[8 * i..8 * i + 8].try_into().unwrap()))
}

/// `ff::PrimeField::TWO_INV` for `pasta_curves::Fp`: the inverse of two.
#[verifier::external_body]
fn fp_two_inv() -> (out: [u64; 4])
    ensures
        limbs_val(out@) == 0x2000000000000000000000000000000011234c7e04a67c8dcc96987680000001int,
{
    let r = pasta_curves::Fp::TWO_INV;
    let b: [u8; 32] = r.to_repr();
    core::array::from_fn(|i| u64::from_le_bytes(b[8 * i..8 * i + 8].try_into().unwrap()))
}

/// `ff::WithSmallOrderMulGroup::ZETA` for `pasta_curves::Fp`: the fixed cube root of
/// unity.
#[verifier::external_body]
fn fp_zeta() -> (out: [u64; 4])
    ensures
        limbs_val(out@) == 0x12ccca834acdba712caad5dc57aab1b01d1f8bd237ad31491dad5ebdfdfe4ab9int,
{
    let r = pasta_curves::Fp::ZETA;
    let b: [u8; 32] = r.to_repr();
    core::array::from_fn(|i| u64::from_le_bytes(b[8 * i..8 * i + 8].try_into().unwrap()))
}

/// The sum, modulo the order, that a `pasta_curves::deferred::Product<Fp>` holds in its
/// limbs and its carry.
pub uninterp spec fn fp_accumulated(
    acc: pasta_curves::deferred::Product<pasta_curves::Fp>,
) -> int;

/// The carry of a `pasta_curves::deferred::Product<Fp>`: how often its sum has overflowed
/// the eight limbs.
pub uninterp spec fn fp_carries(acc: pasta_curves::deferred::Product<pasta_curves::Fp>) -> int;

/// `Product::default`: the limbs and the carry are zero.
#[verifier::external_body]
fn fp_accumulator() -> (acc: pasta_curves::deferred::Product<pasta_curves::Fp>)
    ensures
        fp_accumulated(acc) == 0,
        fp_carries(acc) == 0,
{
    pasta_curves::deferred::Product::default()
}

/// `DeferredField::mul_accumulate` for `pasta_curves::Fp`: the product is added to the sum.
/// The carry grows by at most one, and has 64 bits.
#[verifier::external_body]
fn fp_mul_accumulate(
    acc: &mut pasta_curves::deferred::Product<pasta_curves::Fp>,
    a: [u64; 4],
    b: [u64; 4],
)
    requires
        fp_carries(*old(acc)) < u64::MAX,
    ensures
        fp_accumulated(*final(acc)) == (fp_accumulated(*old(acc)) + (limbs_val(a@) % fp_order()) * (
        limbs_val(b@) % fp_order())) % fp_order(),
        fp_carries(*final(acc)) <= fp_carries(*old(acc)) + 1,
{
    let (a, b) = (pasta_curves::Fp::from_raw(a), pasta_curves::Fp::from_raw(b));
    pasta_curves::Fp::mul_accumulate(acc, &a, &b);
}

/// `DeferredField::reduce` for `pasta_curves::Fp`: the sum modulo the order, reduced.
#[verifier::external_body]
fn fp_reduce(acc: pasta_curves::deferred::Product<pasta_curves::Fp>) -> (out: [u64; 4])
    ensures
        limbs_val(out@) == fp_accumulated(acc),
        limbs_val(out@) < fp_order(),
{
    let r = pasta_curves::Fp::reduce(acc);
    let b: [u8; 32] = r.to_repr();
    core::array::from_fn(|i| u64::from_le_bytes(b[8 * i..8 * i + 8].try_into().unwrap()))
}

/// The squarings that lead from the root of unity to minus one.
proof fn lemma_fp_root()
    ensures
        pow(0x2bce74deac30ebda362120830561f81aea322bf2b7bb7584bdad6fabd87ea32fint, pow2(31)) % fp_order() == fp_order() - 1,
{
    let p: int = 0x40000000000000000000000000000000224698fc094cf91b992d30ed00000001int;
    let r0: int = 0x2bce74deac30ebda362120830561f81aea322bf2b7bb7584bdad6fabd87ea32fint;
    let r1: int = 0x2c4273e5d2eb1de98c9176cb401abf06c4938ab16ac69c2b9645ee87acea193bint;
    let r2: int = 0x2e99e0eeba6afb04d748bb4c8f7746167a3163883882dd3401793e65f9e09bbdint;
    let r3: int = 0x223b10e2909d647727473e05119a70bf69fe5716194f8d1100e79397659a24edint;
    let r4: int = 0x88ef444b9a63e67dce3f521ea318e20d55a3e3fa4f0d2de615bd0d717c62c05int;
    let r5: int = 0x38bbffdbaedf01944c6fb4257565f4a05376d4d8ce7e86f50d96bb7262957d3int;
    let r6: int = 0x2b32b23c415d3e576c4d05c1b1d89d9ba57789d36d6a6e3726a28916f7e648e1int;
    let r7: int = 0x365bd233e19a77476101c7698b1c063f5b7353922f426d682549375fb22e49d3int;
    let r8: int = 0x31951d72cbf5ee0d78d9867098e13b79fb81505e6db526ce5190e23731a54569int;
    let r9: int = 0x1c6a098fa72833f405a8dc469477bbe65b995f8670713a0fc3831c6abcf38cb1int;
    let r10: int = 0xd8c20d3f81693b34d98347484bde7a92c9244a2a37a6ded9bfb7e07b75cb10cint;
    let r11: int = 0x44694ccde4116800af467b81f89c782f175600cc0aed539085db943eb10148eint;
    let r12: int = 0x3a4a077c9c0654e7e98d9f1c0b146bf64171285db283f84b463f4019b18ed31bint;
    let r13: int = 0x1c6807d58325da33dfb456db63dcf180e1491c6808fe947b90d867fbd3e61b7fint;
    let r14: int = 0x14078ea8cdee85a0950d9a272227e4f52c624e853d02ad879ec22f8bf80662c4int;
    let r15: int = 0xf971f9f81878a727f025b2aca0774ead6d1be12fb8a867820245ff86e558730int;
    let r16: int = 0x23222d06029d21a655392ad9dda387278c1c46359289a4d3d465aafc06d1cf1aint;
    let r17: int = 0x2fd0767705fa5b03402039fc9e89ad1de3c85d25401fd8dd898dce603d1c0f3eint;
    let r18: int = 0x1aa07732b05972abcadc042243371883e38cca91106ecac1e26a77c64bc5bec4int;
    let r19: int = 0x3b402c2cbd0a0660626f1948867533cfd2a80abd33d0e808075a3efc92d52d2int;
    let r20: int = 0x28961bbd9c63b7bd7c75f72e02a9727d14d99e7985184470d34cd1b8ef03001int;
    let r21: int = 0x181b50ad5f32119e31cbd395426d600b7a9b88bcaaa1c24eef28545aada17813int;
    let r22: int = 0x1421deb15f5ce205068512b010382353dc0aa1b40386a1c14774c65664bb8182int;
    let r23: int = 0xcb8102d0128ebb25343154773101eaf1a9daef679667eb4bd1e06b973e985e4int;
    let r24: int = 0x21d0b0a3be45b5ee2ff5140e6007a63bc5ac7dc51c50ed52ebf2f918f4d603c9int;
    let r25: int = 0xa31cd9ef8679794deeb656fd6b01c97550149e556476b314244fb708d44fc3int;
    let r26: int = 0x1868ca50534a180d97ff23a878e088b0b9569c85b0a15d666c23ded157fceebaint;
    let r27: int = 0xcc3380dc616f2e1daf29ad1560833ed3baea3393eceb7bc8fa36376929b78ccint;
    let r28: int = 0x17e6c570737897f385e789dcbc7a09bd4f82ab3e1182aecd80ec9d0beefa6c6dint;
    let r29: int = 0x3f8f1cc60c6da729d26301123de65ed9c73bfb511bf223ac1d15074e708ac5aeint;
    let r30: int = 0x36bdcc7b0f28b5df31744fb72326829dff98203a45f8ebf0e047f48898cdb6dbint;
    let r31: int = 0x40000000000000000000000000000000224698fc094cf91b992d30ed00000000int;
    let chain: Seq<int> = seq![r0, r1, r2, r3, r4, r5, r6, r7, r8, r9, r10, r11, r12, r13, r14, r15, r16, r17, r18, r19, r20, r21, r22, r23, r24, r25, r26, r27, r28, r29, r30, r31];
    assert(p > 0 && 0 <= r0 < p);
    assert((r0 * r0) % p == r1);
    assert((r1 * r1) % p == r2);
    assert((r2 * r2) % p == r3);
    assert((r3 * r3) % p == r4);
    assert((r4 * r4) % p == r5);
    assert((r5 * r5) % p == r6);
    assert((r6 * r6) % p == r7);
    assert((r7 * r7) % p == r8);
    assert((r8 * r8) % p == r9);
    assert((r9 * r9) % p == r10);
    assert((r10 * r10) % p == r11);
    assert((r11 * r11) % p == r12);
    assert((r12 * r12) % p == r13);
    assert((r13 * r13) % p == r14);
    assert((r14 * r14) % p == r15);
    assert((r15 * r15) % p == r16);
    assert((r16 * r16) % p == r17);
    assert((r17 * r17) % p == r18);
    assert((r18 * r18) % p == r19);
    assert((r19 * r19) % p == r20);
    assert((r20 * r20) % p == r21);
    assert((r21 * r21) % p == r22);
    assert((r22 * r22) % p == r23);
    assert((r23 * r23) % p == r24);
    assert((r24 * r24) % p == r25);
    assert((r25 * r25) % p == r26);
    assert((r26 * r26) % p == r27);
    assert((r27 * r27) % p == r28);
    assert((r28 * r28) % p == r29);
    assert((r29 * r29) % p == r30);
    assert((r30 * r30) % p == r31);
    assert forall|j: int| 0 <= j < chain.len() - 1 implies (#[trigger] chain[j] * chain[j]) % p
        == chain[j + 1] by {
        if j == 0 { assert(chain[0] == r0 && chain[1] == r1); }
        if j == 1 { assert(chain[1] == r1 && chain[2] == r2); }
        if j == 2 { assert(chain[2] == r2 && chain[3] == r3); }
        if j == 3 { assert(chain[3] == r3 && chain[4] == r4); }
        if j == 4 { assert(chain[4] == r4 && chain[5] == r5); }
        if j == 5 { assert(chain[5] == r5 && chain[6] == r6); }
        if j == 6 { assert(chain[6] == r6 && chain[7] == r7); }
        if j == 7 { assert(chain[7] == r7 && chain[8] == r8); }
        if j == 8 { assert(chain[8] == r8 && chain[9] == r9); }
        if j == 9 { assert(chain[9] == r9 && chain[10] == r10); }
        if j == 10 { assert(chain[10] == r10 && chain[11] == r11); }
        if j == 11 { assert(chain[11] == r11 && chain[12] == r12); }
        if j == 12 { assert(chain[12] == r12 && chain[13] == r13); }
        if j == 13 { assert(chain[13] == r13 && chain[14] == r14); }
        if j == 14 { assert(chain[14] == r14 && chain[15] == r15); }
        if j == 15 { assert(chain[15] == r15 && chain[16] == r16); }
        if j == 16 { assert(chain[16] == r16 && chain[17] == r17); }
        if j == 17 { assert(chain[17] == r17 && chain[18] == r18); }
        if j == 18 { assert(chain[18] == r18 && chain[19] == r19); }
        if j == 19 { assert(chain[19] == r19 && chain[20] == r20); }
        if j == 20 { assert(chain[20] == r20 && chain[21] == r21); }
        if j == 21 { assert(chain[21] == r21 && chain[22] == r22); }
        if j == 22 { assert(chain[22] == r22 && chain[23] == r23); }
        if j == 23 { assert(chain[23] == r23 && chain[24] == r24); }
        if j == 24 { assert(chain[24] == r24 && chain[25] == r25); }
        if j == 25 { assert(chain[25] == r25 && chain[26] == r26); }
        if j == 26 { assert(chain[26] == r26 && chain[27] == r27); }
        if j == 27 { assert(chain[27] == r27 && chain[28] == r28); }
        if j == 28 { assert(chain[28] == r28 && chain[29] == r29); }
        if j == 29 { assert(chain[29] == r29 && chain[30] == r30); }
        if j == 30 { assert(chain[30] == r30 && chain[31] == r31); }
    }
    lemma_square_chain(p, chain, 31);
    assert(chain[0] == r0 && chain[31] == r31);
}

impl Field for Fp {
    type Accumulator = pasta_curves::deferred::Product<pasta_curves::Fp>;

    open spec fn order() -> int {
        fp_order()
    }

    open spec fn val(self) -> int {
        self.spec_val()
    }

    open spec fn accumulated(acc: Self::Accumulator) -> int {
        fp_accumulated(acc)
    }

    open spec fn carries(acc: Self::Accumulator) -> int {
        fp_carries(acc)
    }

    open spec fn root() -> int {
        0x2bce74deac30ebda362120830561f81aea322bf2b7bb7584bdad6fabd87ea32fint
    }

    open spec fn cube_root() -> int {
        0x12ccca834acdba712caad5dc57aab1b01d1f8bd237ad31491dad5ebdfdfe4ab9int
    }

    proof fn lemma_order() {
        lemma_fp_root();
        let z: int = 0x12ccca834acdba712caad5dc57aab1b01d1f8bd237ad31491dad5ebdfdfe4ab9int;
        let z2: int = 0x2d33357cb532458ed3552a23a8554e5005270d29d19fc7d27b7fd22f0201b547int;
        let p: int = 0x40000000000000000000000000000000224698fc094cf91b992d30ed00000001int;
        assert((z * z) % p == z2);
        assert((z2 * z) % p == 1);
        lemma_pow1(z);
        arith::lemma_pow_step(z, 1);
        arith::lemma_pow_step(z, 2);
        assert(pow(z, 3) == (z * z) * z);
        arith::lemma_mod_mul(z * z, z, p);
    }

    proof fn lemma_val(x: Self) {
        arith::lemma_mod_range(limbs_val(x.0@), fp_order());
    }

    fn zero() -> Self {
        Fp([0, 0, 0, 0])
    }

    fn one() -> Self {
        Fp([1, 0, 0, 0])
    }

    fn from_u64(v: u64) -> Self {
        Fp([v, 0, 0, 0])
    }

    fn add(self, rhs: Self) -> Self {
        let r = Fp(fp_add(self.0, rhs.0));
        proof {
            let (a, b, p) = (limbs_val(self.0@), limbs_val(rhs.0@), fp_order());
            arith::lemma_mod_add(a, b, p);
            arith::lemma_mod_range(a + b, p);
        }
        r
    }

    fn sub(self, rhs: Self) -> Self {
        let r = Fp(fp_sub(self.0, rhs.0));
        proof {
            let (a, b, p) = (limbs_val(self.0@), limbs_val(rhs.0@), fp_order());
            arith::lemma_mod_sub(a, b, p);
            arith::lemma_mod_range(a - b, p);
        }
        r
    }

    fn mul(self, rhs: Self) -> Self {
        let r = Fp(fp_mul(self.0, rhs.0));
        proof {
            let (a, b, p) = (limbs_val(self.0@), limbs_val(rhs.0@), fp_order());
            arith::lemma_mod_mul(a, b, p);
            arith::lemma_mod_range(a * b, p);
        }
        r
    }

    fn equals(&self, other: &Self) -> bool {
        fp_eq(self.0, other.0)
    }

    fn less(&self, other: &Self) -> (r: bool) {
        fp_lt(self.0, other.0)
    }

    fn to_repr(&self) -> (r: [u8; 32]) {
        fp_to_repr(self.0)
    }

    fn invert(self) -> Option<Self> {
        match fp_invert(self.0) {
            None => None,
            Some(inv) => {
                proof {
                    arith::lemma_mod_mul(limbs_val(self.0@), limbs_val(inv@), fp_order());
                }
                Some(Fp(inv))
            }
        }
    }

    fn pow_vartime(self, exponent: u64) -> Self {
        let r = Fp(fp_pow(self.0, exponent));
        proof {
            let (a, p, e) = (limbs_val(self.0@), fp_order(), exponent as nat);
            arith::lemma_mod_range(a, p);
            arith::lemma_eqm_pow(a % p, a, e, p);
            arith::lemma_mod_range(pow(a, e), p);
        }
        r
    }

    fn root_of_unity() -> Self {
        Fp(fp_root_of_unity())
    }

    fn root_of_unity_inv() -> Self {
        let r = Fp(fp_root_of_unity_inv());
        proof {
            let a: int = 0x2cd5282c53116b5cb4ed8e647196dad184a0a1d8859f066ff0b87c7db2ce91f6int;
            let b: int = 0x2bce74deac30ebda362120830561f81aea322bf2b7bb7584bdad6fabd87ea32fint;
            let p: int = 0x40000000000000000000000000000000224698fc094cf91b992d30ed00000001int;
            assert((a * b) % p == 1);
        }
        r
    }

    fn two_inv() -> Self {
        Fp(fp_two_inv())
    }

    fn zeta() -> Self {
        Fp(fp_zeta())
    }

    fn accumulator() -> Self::Accumulator {
        fp_accumulator()
    }

    fn mul_accumulate(acc: &mut Self::Accumulator, a: &Self, b: &Self) {
        fp_mul_accumulate(acc, a.0, b.0)
    }

    fn reduce(acc: Self::Accumulator) -> Self {
        let r = Fp(fp_reduce(acc));
        proof {
            arith::lemma_mod_small(limbs_val(r.0@), fp_order());
        }
        r
    }

    fn batch_invert(values: &mut Vec<Self>) {
        fp_batch_invert(values)
    }
}

impl PartialEq for Fp {
    fn eq(&self, other: &Self) -> (r: bool) {
        self.equals(other)
    }
}

impl vstd::std_specs::cmp::PartialEqSpecImpl for Fp {
    open spec fn obeys_eq_spec() -> bool {
        true
    }

    open spec fn eq_spec(&self, other: &Self) -> bool {
        self.spec_val() == other.spec_val()
    }
}

impl Eq for Fp {
}

/// `pasta_curves::Fq`, the field of an accumulator's products, held opaquely.
#[verifier::external_type_specification]
#[verifier::external_body]
pub struct ExFq(pasta_curves::vesta::Base);

/// The order of [`Fq`].
pub open spec fn fq_order() -> int {
    0x40000000000000000000000000000000224698fc0994a8dd8c46eb2100000001int
}

/// An element of the Vesta base field, which is also the Pallas scalar field.
#[derive(Clone, Copy, Debug)]
pub struct Fq(pub [u64; 4]);

impl Fq {
    pub open spec fn spec_val(self) -> int {
        limbs_val(self.0@) % fq_order()
    }
}

/// `Add` for `pasta_curves::Fq`, on the elements congruent to the limbs
/// (`Fq::from_raw`): the sum modulo the order.
#[verifier::external_body]
fn fq_add(a: [u64; 4], b: [u64; 4]) -> (out: [u64; 4])
    ensures
        limbs_val(out@) == (limbs_val(a@) + limbs_val(b@)) % fq_order(),
{
    let r = pasta_curves::Fq::from_raw(a) + pasta_curves::Fq::from_raw(b);
    let b: [u8; 32] = r.to_repr();
    core::array::from_fn(|i| u64::from_le_bytes(b[8 * i..8 * i + 8].try_into().unwrap()))
}

/// `Sub` for `pasta_curves::Fq`: the difference modulo the order.
#[verifier::external_body]
fn fq_sub(a: [u64; 4], b: [u64; 4]) -> (out: [u64; 4])
    ensures
        limbs_val(out@) == (limbs_val(a@) - limbs_val(b@)) % fq_order(),
{
    let r = pasta_curves::Fq::from_raw(a) - pasta_curves::Fq::from_raw(b);
    let b: [u8; 32] = r.to_repr();
    core::array::from_fn(|i| u64::from_le_bytes(b[8 * i..8 * i + 8].try_into().unwrap()))
}

/// `Mul` for `pasta_curves::Fq`: the product modulo the order.
#[verifier::external_body]
fn fq_mul(a: [u64; 4], b: [u64; 4]) -> (out: [u64; 4])
    ensures
        limbs_val(out@) == (limbs_val(a@) * limbs_val(b@)) % fq_order(),
{
    let r = pasta_curves::Fq::from_raw(a) * pasta_curves::Fq::from_raw(b);
    let b: [u8; 32] = r.to_repr();
    core::array::from_fn(|i| u64::from_le_bytes(b[8 * i..8 * i + 8].try_into().unwrap()))
}

/// `PartialEq` for `pasta_curves::Fq`: equality modulo the order.
#[verifier::external_body]
fn fq_eq(a: [u64; 4], b: [u64; 4]) -> (r: bool)
    ensures
        r <==> limbs_val(a@) % fq_order() == limbs_val(b@) % fq_order(),
{
    pasta_curves::Fq::from_raw(a) == pasta_curves::Fq::from_raw(b)
}

/// `PartialOrd` for `pasta_curves::Fq`: the order of the representatives.
#[verifier::external_body]
fn fq_lt(a: [u64; 4], b: [u64; 4]) -> (r: bool)
    ensures
        r <==> limbs_val(a@) % fq_order() < limbs_val(b@) % fq_order(),
{
    pasta_curves::Fq::from_raw(a) < pasta_curves::Fq::from_raw(b)
}

/// `ff::PrimeField::to_repr` for `pasta_curves::Fq`: the representative in little-endian
/// bytes.
#[verifier::external_body]
fn fq_to_repr(a: [u64; 4]) -> (out: [u8; 32])
    ensures
        arith::bytes_val(out@) == limbs_val(a@) % fq_order(),
{
    pasta_curves::Fq::from_raw(a).to_repr()
}

/// `ff::Field::invert` for `pasta_curves::Fq`: the multiplicative inverse, which is
/// missing for zero alone.
#[verifier::external_body]
fn fq_invert(a: [u64; 4]) -> (out: Option<[u64; 4]>)
    ensures
        out is None <==> limbs_val(a@) % fq_order() == 0,
        out matches Some(inv) ==> (limbs_val(a@) * limbs_val(inv@)) % fq_order() == 1,
{
    let r: Option<pasta_curves::Fq> = pasta_curves::Fq::from_raw(a).invert().into();
    r.map(|r| {
        let b: [u8; 32] = r.to_repr();
        core::array::from_fn(|i| u64::from_le_bytes(b[8 * i..8 * i + 8].try_into().unwrap()))
    })
}

/// `ff::Field::pow_vartime` for `pasta_curves::Fq`, with an exponent of one limb.
#[verifier::external_body]
fn fq_pow(a: [u64; 4], exponent: u64) -> (out: [u64; 4])
    ensures
        limbs_val(out@) == pow(limbs_val(a@), exponent as nat) % fq_order(),
{
    let r = pasta_curves::Fq::from_raw(a).pow_vartime([exponent]);
    let b: [u8; 32] = r.to_repr();
    core::array::from_fn(|i| u64::from_le_bytes(b[8 * i..8 * i + 8].try_into().unwrap()))
}

/// `ff::BatchInvert::batch_invert` for `pasta_curves::Fq`: every nonzero element is
/// replaced by its inverse, and zeros stay zero.
#[verifier::external_body]
fn fq_batch_invert(values: &mut Vec<Fq>)
    ensures
        final(values)@.len() == old(values)@.len(),
        forall|i: int|
            0 <= i < old(values)@.len() ==> {
                if old(values)@[i].spec_val() == 0 {
                    (#[trigger] final(values)@[i]).spec_val() == 0
                } else {
                    (final(values)@[i].spec_val() * old(values)@[i].spec_val()) % fq_order() == 1
                }
            },
{
    let mut v: Vec<pasta_curves::Fq> =
        values.iter().map(|x| pasta_curves::Fq::from_raw(x.0)).collect();
    ff::BatchInvert::batch_invert(v.iter_mut());
    for (x, r) in values.iter_mut().zip(v) {
        let b: [u8; 32] = r.to_repr();
        x.0 = core::array::from_fn(|i| u64::from_le_bytes(b[8 * i..8 * i + 8].try_into().unwrap()));
    }
}

/// `ff::PrimeField::ROOT_OF_UNITY` for `pasta_curves::Fq`: the fixed root of unity of order `2^32`.
#[verifier::external_body]
fn fq_root_of_unity() -> (out: [u64; 4])
    ensures
        limbs_val(out@) == 0x2de6a9b8746d3f589e5c4dfd492ae26e9bb97ea3c106f049a70e2c1102b6d05fint,
{
    let r = pasta_curves::Fq::ROOT_OF_UNITY;
    let b: [u8; 32] = r.to_repr();
    core::array::from_fn(|i| u64::from_le_bytes(b[8 * i..8 * i + 8].try_into().unwrap()))
}

/// `ff::PrimeField::ROOT_OF_UNITY_INV` for `pasta_curves::Fq`: the inverse of that root of unity.
#[verifier::external_body]
fn fq_root_of_unity_inv() -> (out: [u64; 4])
    ensures
        limbs_val(out@) == 0x2235e1a7415bf936f4c8f353124086c14ad38b9084b8a80c57eecda0a84b6836int,
{
    let r = pasta_curves::Fq::ROOT_OF_UNITY_INV;
    let b: [u8; 32] = r.to_repr();
    core::array::from_fn(|i| u64::from_le_bytes(b[8 * i..8 * i + 8].try_into().unwrap()))
}

/// `ff::PrimeField::TWO_INV` for `pasta_curves::Fq`: the inverse of two.
#[verifier::external_body]
fn fq_two_inv() -> (out: [u64; 4])
    ensures
        limbs_val(out@) == 0x2000000000000000000000000000000011234c7e04ca546ec623759080000001int,
{
    let r = pasta_curves::Fq::TWO_INV;
    let b: [u8; 32] = r.to_repr();
    core::array::from_fn(|i| u64::from_le_bytes(b[8 * i..8 * i + 8].try_into().unwrap()))
}

/// `ff::WithSmallOrderMulGroup::ZETA` for `pasta_curves::Fq`: the fixed cube root of
/// unity.
#[verifier::external_body]
fn fq_zeta() -> (out: [u64; 4])
    ensures
        limbs_val(out@) == 0x6819a58283e528e511db4d81cf70f5a0fed467d47c033af2aa9d2e050aa0e4fint,
{
    let r = pasta_curves::Fq::ZETA;
    let b: [u8; 32] = r.to_repr();
    core::array::from_fn(|i| u64::from_le_bytes(b[8 * i..8 * i + 8].try_into().unwrap()))
}

/// The sum, modulo the order, that a `pasta_curves::deferred::Product<Fq>` holds in its
/// limbs and its carry.
pub uninterp spec fn fq_accumulated(
    acc: pasta_curves::deferred::Product<pasta_curves::Fq>,
) -> int;

/// The carry of a `pasta_curves::deferred::Product<Fq>`: how often its sum has overflowed
/// the eight limbs.
pub uninterp spec fn fq_carries(acc: pasta_curves::deferred::Product<pasta_curves::Fq>) -> int;

/// `Product::default`: the limbs and the carry are zero.
#[verifier::external_body]
fn fq_accumulator() -> (acc: pasta_curves::deferred::Product<pasta_curves::Fq>)
    ensures
        fq_accumulated(acc) == 0,
        fq_carries(acc) == 0,
{
    pasta_curves::deferred::Product::default()
}

/// `DeferredField::mul_accumulate` for `pasta_curves::Fq`: the product is added to the sum.
/// The carry grows by at most one, and has 64 bits.
#[verifier::external_body]
fn fq_mul_accumulate(
    acc: &mut pasta_curves::deferred::Product<pasta_curves::Fq>,
    a: [u64; 4],
    b: [u64; 4],
)
    requires
        fq_carries(*old(acc)) < u64::MAX,
    ensures
        fq_accumulated(*final(acc)) == (fq_accumulated(*old(acc)) + (limbs_val(a@) % fq_order()) * (
        limbs_val(b@) % fq_order())) % fq_order(),
        fq_carries(*final(acc)) <= fq_carries(*old(acc)) + 1,
{
    let (a, b) = (pasta_curves::Fq::from_raw(a), pasta_curves::Fq::from_raw(b));
    pasta_curves::Fq::mul_accumulate(acc, &a, &b);
}

/// `DeferredField::reduce` for `pasta_curves::Fq`: the sum modulo the order, reduced.
#[verifier::external_body]
fn fq_reduce(acc: pasta_curves::deferred::Product<pasta_curves::Fq>) -> (out: [u64; 4])
    ensures
        limbs_val(out@) == fq_accumulated(acc),
        limbs_val(out@) < fq_order(),
{
    let r = pasta_curves::Fq::reduce(acc);
    let b: [u8; 32] = r.to_repr();
    core::array::from_fn(|i| u64::from_le_bytes(b[8 * i..8 * i + 8].try_into().unwrap()))
}

/// The squarings that lead from the root of unity to minus one.
proof fn lemma_fq_root()
    ensures
        pow(0x2de6a9b8746d3f589e5c4dfd492ae26e9bb97ea3c106f049a70e2c1102b6d05fint, pow2(31)) % fq_order() == fq_order() - 1,
{
    let p: int = 0x40000000000000000000000000000000224698fc0994a8dd8c46eb2100000001int;
    let r0: int = 0x2de6a9b8746d3f589e5c4dfd492ae26e9bb97ea3c106f049a70e2c1102b6d05fint;
    let r1: int = 0x2454cd742eed7ef67537dcfa8861545dad889b9cbf75b98fa2e3cb0189b96940int;
    let r2: int = 0x29839b52d5dcf6b3b46faf306087325a425f8ef6d5daf4fc666cd37450354bfdint;
    let r3: int = 0x391c568ae730f9186fab3b892a14f4c2c54fa59855d303e08f56c7e2f7baea1fint;
    let r4: int = 0x3259338dfd6b479b91721c69a97084189cf843b3fae516cae8316602c44f2989int;
    let r5: int = 0x243373110039bf0838d3712a5c7d21d6ae7fcf04a0373d1b8232185f185ecc4eint;
    let r6: int = 0xf769a6248dc291bfebb3fe0a98b24be3b1462bcca508eefde7fff0de2fef236int;
    let r7: int = 0x2d68745baaeb95e8f869d3029268c3aed8040159ef7b5d4413d61370c2c53be5int;
    let r8: int = 0x144e6eba6d684acf84e02261743f788b2ae72b37bffdb012102c8c2f7fa53afeint;
    let r9: int = 0x3d98188dbd8b6cf4a8efd19190dd6201e860361e5f94fcfd89d1db8020a4e9dint;
    let r10: int = 0x347db234f82ecdd103d137276806465f588fade0760e9fd69a9dd83047ee3450int;
    let r11: int = 0x4a1bc274fdb738d084628c5e2a550aeb86bd32a2a7411da94e2302d3ecb4413int;
    let r12: int = 0x19e9df871f6c4b14a3615751d1f43923b5f9ce8d08f92d2629c2afb67fb34869int;
    let r13: int = 0x36c0b9b7293f1cd86391fec69fb965c54c0c9a15318bbb448c3a502501c9889cint;
    let r14: int = 0x18c8fb7d71146b9efc57b4553b1d6ac967ed98779b8f28bf8d205918a75258f4int;
    let r15: int = 0xfd6d647f549f3c7a5ddc35793aaf9765a029f199cb10369f40dccdb3a487e07int;
    let r16: int = 0x385e22fc1565ebd8a13142cc27b8876f05ec017404d761eff3a89df3fe315f99int;
    let r17: int = 0x130d1d6482b9c33536e280ae674431f85f4a103ef6af12c7ac4cdf0ad3edb265int;
    let r18: int = 0x1e5587687024253bb079b38d9c5371594958e496c605d3bd898b34d068afbee7int;
    let r19: int = 0xc4f5749d933a822edb1d70943daf2379fa2a51688418060e615350f17ecbd27int;
    let r20: int = 0xd22c941a0b04b71d4ce80179437306907072be91feb7c9acf2eecbb96072570int;
    let r21: int = 0x3a3b5103f6d0105d125b967f811966337bc1e694ef9d23f5fab7afba742345b6int;
    let r22: int = 0xd54c4d29ccd1de47f696cf29c89c9412a5e63e992d309699776a573c157dc6aint;
    let r23: int = 0xa76b3aee2746ca7248fbe7424b30fd0e56f60e1b61014b337c6cd0392662205int;
    let r24: int = 0xa81955d1b842bf9baa32f613be2e8a90afad96d7d4dabe3fb0d5b1b6b26f170int;
    let r25: int = 0xac2b27df9801aeeb00395097a12eba4f672421e7eec3017abae64af09e771c0int;
    let r26: int = 0x396578a156cd522a7133d40f77cca3c06bceb1fdb09aa3cf2e36062f68e08d79int;
    let r27: int = 0x3ccd3ef9d021fce51160f869c45a2797f50c987af189da55a42622b9918303ecint;
    let r28: int = 0x196249e6016990925bb6031a1cc6ac5dace79f8e05d27d7beb49261266c85a9bint;
    let r29: int = 0x3a57bee9fb370430aa5f610ed09c17fe7e538bca7c94ad2b1ba3a33bc04980a4int;
    let r30: int = 0x3691ce115adfa1187d65aa6313c354eb4a146505975fd3435d2f235b4abeb917int;
    let r31: int = 0x40000000000000000000000000000000224698fc0994a8dd8c46eb2100000000int;
    let chain: Seq<int> = seq![r0, r1, r2, r3, r4, r5, r6, r7, r8, r9, r10, r11, r12, r13, r14, r15, r16, r17, r18, r19, r20, r21, r22, r23, r24, r25, r26, r27, r28, r29, r30, r31];
    assert(p > 0 && 0 <= r0 < p);
    assert((r0 * r0) % p == r1);
    assert((r1 * r1) % p == r2);
    assert((r2 * r2) % p == r3);
    assert((r3 * r3) % p == r4);
    assert((r4 * r4) % p == r5);
    assert((r5 * r5) % p == r6);
    assert((r6 * r6) % p == r7);
    assert((r7 * r7) % p == r8);
    assert((r8 * r8) % p == r9);
    assert((r9 * r9) % p == r10);
    assert((r10 * r10) % p == r11);
    assert((r11 * r11) % p == r12);
    assert((r12 * r12) % p == r13);
    assert((r13 * r13) % p == r14);
    assert((r14 * r14) % p == r15);
    assert((r15 * r15) % p == r16);
    assert((r16 * r16) % p == r17);
    assert((r17 * r17) % p == r18);
    assert((r18 * r18) % p == r19);
    assert((r19 * r19) % p == r20);
    assert((r20 * r20) % p == r21);
    assert((r21 * r21) % p == r22);
    assert((r22 * r22) % p == r23);
    assert((r23 * r23) % p == r24);
    assert((r24 * r24) % p == r25);
    assert((r25 * r25) % p == r26);
    assert((r26 * r26) % p == r27);
    assert((r27 * r27) % p == r28);
    assert((r28 * r28) % p == r29);
    assert((r29 * r29) % p == r30);
    assert((r30 * r30) % p == r31);
    assert forall|j: int| 0 <= j < chain.len() - 1 implies (#[trigger] chain[j] * chain[j]) % p
        == chain[j + 1] by {
        if j == 0 { assert(chain[0] == r0 && chain[1] == r1); }
        if j == 1 { assert(chain[1] == r1 && chain[2] == r2); }
        if j == 2 { assert(chain[2] == r2 && chain[3] == r3); }
        if j == 3 { assert(chain[3] == r3 && chain[4] == r4); }
        if j == 4 { assert(chain[4] == r4 && chain[5] == r5); }
        if j == 5 { assert(chain[5] == r5 && chain[6] == r6); }
        if j == 6 { assert(chain[6] == r6 && chain[7] == r7); }
        if j == 7 { assert(chain[7] == r7 && chain[8] == r8); }
        if j == 8 { assert(chain[8] == r8 && chain[9] == r9); }
        if j == 9 { assert(chain[9] == r9 && chain[10] == r10); }
        if j == 10 { assert(chain[10] == r10 && chain[11] == r11); }
        if j == 11 { assert(chain[11] == r11 && chain[12] == r12); }
        if j == 12 { assert(chain[12] == r12 && chain[13] == r13); }
        if j == 13 { assert(chain[13] == r13 && chain[14] == r14); }
        if j == 14 { assert(chain[14] == r14 && chain[15] == r15); }
        if j == 15 { assert(chain[15] == r15 && chain[16] == r16); }
        if j == 16 { assert(chain[16] == r16 && chain[17] == r17); }
        if j == 17 { assert(chain[17] == r17 && chain[18] == r18); }
        if j == 18 { assert(chain[18] == r18 && chain[19] == r19); }
        if j == 19 { assert(chain[19] == r19 && chain[20] == r20); }
        if j == 20 { assert(chain[20] == r20 && chain[21] == r21); }
        if j == 21 { assert(chain[21] == r21 && chain[22] == r22); }
        if j == 22 { assert(chain[22] == r22 && chain[23] == r23); }
        if j == 23 { assert(chain[23] == r23 && chain[24] == r24); }
        if j == 24 { assert(chain[24] == r24 && chain[25] == r25); }
        if j == 25 { assert(chain[25] == r25 && chain[26] == r26); }
        if j == 26 { assert(chain[26] == r26 && chain[27] == r27); }
        if j == 27 { assert(chain[27] == r27 && chain[28] == r28); }
        if j == 28 { assert(chain[28] == r28 && chain[29] == r29); }
        if j == 29 { assert(chain[29] == r29 && chain[30] == r30); }
        if j == 30 { assert(chain[30] == r30 && chain[31] == r31); }
    }
    lemma_square_chain(p, chain, 31);
    assert(chain[0] == r0 && chain[31] == r31);
}

impl Field for Fq {
    type Accumulator = pasta_curves::deferred::Product<pasta_curves::Fq>;

    open spec fn order() -> int {
        fq_order()
    }

    open spec fn val(self) -> int {
        self.spec_val()
    }

    open spec fn accumulated(acc: Self::Accumulator) -> int {
        fq_accumulated(acc)
    }

    open spec fn carries(acc: Self::Accumulator) -> int {
        fq_carries(acc)
    }

    open spec fn root() -> int {
        0x2de6a9b8746d3f589e5c4dfd492ae26e9bb97ea3c106f049a70e2c1102b6d05fint
    }

    open spec fn cube_root() -> int {
        0x6819a58283e528e511db4d81cf70f5a0fed467d47c033af2aa9d2e050aa0e4fint
    }

    proof fn lemma_order() {
        lemma_fq_root();
        let z: int = 0x6819a58283e528e511db4d81cf70f5a0fed467d47c033af2aa9d2e050aa0e4fint;
        let z2: int = 0x397e65a7d7c1ad71aee24b27e308f0a61259527ec1d4752e619d1840af55f1b1int;
        let p: int = 0x40000000000000000000000000000000224698fc0994a8dd8c46eb2100000001int;
        assert((z * z) % p == z2);
        assert((z2 * z) % p == 1);
        lemma_pow1(z);
        arith::lemma_pow_step(z, 1);
        arith::lemma_pow_step(z, 2);
        assert(pow(z, 3) == (z * z) * z);
        arith::lemma_mod_mul(z * z, z, p);
    }

    proof fn lemma_val(x: Self) {
        arith::lemma_mod_range(limbs_val(x.0@), fq_order());
    }

    fn zero() -> Self {
        Fq([0, 0, 0, 0])
    }

    fn one() -> Self {
        Fq([1, 0, 0, 0])
    }

    fn from_u64(v: u64) -> Self {
        Fq([v, 0, 0, 0])
    }

    fn add(self, rhs: Self) -> Self {
        let r = Fq(fq_add(self.0, rhs.0));
        proof {
            let (a, b, p) = (limbs_val(self.0@), limbs_val(rhs.0@), fq_order());
            arith::lemma_mod_add(a, b, p);
            arith::lemma_mod_range(a + b, p);
        }
        r
    }

    fn sub(self, rhs: Self) -> Self {
        let r = Fq(fq_sub(self.0, rhs.0));
        proof {
            let (a, b, p) = (limbs_val(self.0@), limbs_val(rhs.0@), fq_order());
            arith::lemma_mod_sub(a, b, p);
            arith::lemma_mod_range(a - b, p);
        }
        r
    }

    fn mul(self, rhs: Self) -> Self {
        let r = Fq(fq_mul(self.0, rhs.0));
        proof {
            let (a, b, p) = (limbs_val(self.0@), limbs_val(rhs.0@), fq_order());
            arith::lemma_mod_mul(a, b, p);
            arith::lemma_mod_range(a * b, p);
        }
        r
    }

    fn equals(&self, other: &Self) -> bool {
        fq_eq(self.0, other.0)
    }

    fn less(&self, other: &Self) -> (r: bool) {
        fq_lt(self.0, other.0)
    }

    fn to_repr(&self) -> (r: [u8; 32]) {
        fq_to_repr(self.0)
    }

    fn invert(self) -> Option<Self> {
        match fq_invert(self.0) {
            None => None,
            Some(inv) => {
                proof {
                    arith::lemma_mod_mul(limbs_val(self.0@), limbs_val(inv@), fq_order());
                }
                Some(Fq(inv))
            }
        }
    }

    fn pow_vartime(self, exponent: u64) -> Self {
        let r = Fq(fq_pow(self.0, exponent));
        proof {
            let (a, p, e) = (limbs_val(self.0@), fq_order(), exponent as nat);
            arith::lemma_mod_range(a, p);
            arith::lemma_eqm_pow(a % p, a, e, p);
            arith::lemma_mod_range(pow(a, e), p);
        }
        r
    }

    fn root_of_unity() -> Self {
        Fq(fq_root_of_unity())
    }

    fn root_of_unity_inv() -> Self {
        let r = Fq(fq_root_of_unity_inv());
        proof {
            let a: int = 0x2235e1a7415bf936f4c8f353124086c14ad38b9084b8a80c57eecda0a84b6836int;
            let b: int = 0x2de6a9b8746d3f589e5c4dfd492ae26e9bb97ea3c106f049a70e2c1102b6d05fint;
            let p: int = 0x40000000000000000000000000000000224698fc0994a8dd8c46eb2100000001int;
            assert((a * b) % p == 1);
        }
        r
    }

    fn two_inv() -> Self {
        Fq(fq_two_inv())
    }

    fn zeta() -> Self {
        Fq(fq_zeta())
    }

    fn accumulator() -> Self::Accumulator {
        fq_accumulator()
    }

    fn mul_accumulate(acc: &mut Self::Accumulator, a: &Self, b: &Self) {
        fq_mul_accumulate(acc, a.0, b.0)
    }

    fn reduce(acc: Self::Accumulator) -> Self {
        let r = Fq(fq_reduce(acc));
        proof {
            arith::lemma_mod_small(limbs_val(r.0@), fq_order());
        }
        r
    }

    fn batch_invert(values: &mut Vec<Self>) {
        fq_batch_invert(values)
    }
}

impl PartialEq for Fq {
    fn eq(&self, other: &Self) -> (r: bool) {
        self.equals(other)
    }
}

impl vstd::std_specs::cmp::PartialEqSpecImpl for Fq {
    open spec fn obeys_eq_spec() -> bool {
        true
    }

    open spec fn eq_spec(&self, other: &Self) -> bool {
        self.spec_val() == other.spec_val()
    }
}

impl Eq for Fq {
}

} // verus!
