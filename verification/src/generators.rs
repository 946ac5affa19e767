//! Where the generators of the parameters come from.
use crate::arith;
use crate::commit;
use crate::curve;
use crate::curve::{CurveAffine, EpAffine, EqAffine};
use crate::dft;
use crate::field::{Field, Fp, Fq};
use crate::params;
use crate::params::Params;
use crate::sums;
use crate::transform;
use vstd::arithmetic::mul::*;
use vstd::arithmetic::power::*;
use vstd::arithmetic::power2::*;
use vstd::prelude::*;

verus! {

/// A number below `2^32` in four little-endian bytes.
proof fn lemma_four_bytes(i: int, a: u8, b: u8, c: u8, d: u8)
    requires
        i == a + 256 * b + 65536 * c + 16777216 * d,
    ensures
        params::generator_message(i) == seq![0u8, a, b, c, d],
{
    assert(i % 256 == a && i / 256 % 256 == b && i / 65536 % 256 == c && i / 16777216 % 256 == d);
    assert(params::generator_message(i) =~= seq![0u8, a, b, c, d]);
}

/// The generator with number `a + 256 b + 256^2 c + 256^3 d` is hashed from a zero and these
/// four bytes, the blind's base from the one byte 1, and the remaining one from the one
/// byte 2.
pub proof fn law_generators_are_hashed<C: CurveAffine>(
    params: Params<C>,
    i: int,
    a: u8,
    b: u8,
    c: u8,
    d: u8,
)
    requires
        params.hashed(),
        0 <= i < params.g@.len(),
        i == a + 256 * b + 65536 * c + 16777216 * d,
    ensures
        params.g@[i].at() == C::hash_of("Halo2-Parameters"@, seq![0u8, a, b, c, d]),
        params.w.at() == C::hash_of("Halo2-Parameters"@, seq![1u8]),
        params.u.at() == C::hash_of("Halo2-Parameters"@, seq![2u8]),
{
    lemma_four_bytes(i, a, b, c, d);
}

/// All generators, the blind's base and the remaining one are hashed from messages of which
/// no two are the same.
pub proof fn law_messages_differ<C: CurveAffine>(params: Params<C>) -> (messages: Seq<Seq<u8>>)
    requires
        params.wf(),
        params.hashed(),
    ensures
        messages.len() == params.n + 2,
        messages.no_duplicates(),
        forall|i: int|
            0 <= i < params.n ==> (#[trigger] params.g@[i]).at() == C::hash_of(
                "Halo2-Parameters"@,
                messages[i],
            ),
        params.w.at() == C::hash_of("Halo2-Parameters"@, messages[params.n as int]),
        params.u.at() == C::hash_of("Halo2-Parameters"@, messages[params.n + 1]),
{
    let n = params.n as int;
    lemma2_to64();
    lemma_pow2_strictly_increases(params.k as nat, 32);
    let messages = Seq::new(
        (n + 2) as nat,
        |i: int|
            if i < n {
                params::generator_message(i)
            } else if i == n {
                seq![1u8]
            } else {
                seq![2u8]
            },
    );
    assert forall|i: int, j: int| 0 <= i < messages.len() && 0 <= j < messages.len() && i != j implies messages[i]
        != messages[j] by {
        if i < n && j < n {
            let (s, t) = (params::generator_message(i), params::generator_message(j));
            if s == t {
                assert(i % 256 == s[1] && i / 256 % 256 == s[2] && i / 65536 % 256 == s[3] && i
                    / 16777216 % 256 == s[4]);
                assert(j % 256 == t[1] && j / 256 % 256 == t[2] && j / 65536 % 256 == t[3] && j
                    / 16777216 % 256 == t[4]);
                assert(i < 4294967296 && j < 4294967296);
            }
        } else if i < n {
            assert(messages[i].len() == 5 && messages[j].len() == 1);
        } else if j < n {
            assert(messages[j].len() == 5 && messages[i].len() == 1);
        } else {
            assert(messages[i][0] != messages[j][0]);
        }
    }
    messages
}

/// Generator `m` is the sum of those of the evaluation form, the one with number `i` as often
/// as the `m`th power of the `i`th power of the root of unity of the order of the size says.
pub proof fn law_evaluation_form<C: CurveAffine>(params: Params<C>, m: nat)
    requires
        params.wf(),
        params.hashed(),
        m < params.n,
    ensures
        curve::log(params.g@[m as int]) % C::ScalarExt::order() == Seq::new(
            params.n as nat,
            |i: int|
                curve::log(params.g_lagrange@[i]) * pow(
                    pow(
                        pow(C::ScalarExt::root(), pow2((32 - params.k) as nat))
                            % C::ScalarExt::order(),
                        m,
                    ),
                    i as nat,
                ),
        ).fold_left(0int, |a: int, b: int| a + b) % C::ScalarExt::order(),
{
    let q = C::ScalarExt::order();
    C::ScalarExt::lemma_order();
    let k = params.k as nat;
    let n = pow2(k);
    let w = transform::unity_root::<C::ScalarExt>(k);
    let v = choose|v: int|
        #![trigger params::is_inverse_root::<C::ScalarExt>(v, k)]
        params::is_inverse_root::<C::ScalarExt>(v, k) && forall|i: int|
            0 <= i < params.g@.len() ==> arith::eqm(
                pow2(k) * curve::log(#[trigger] params.g_lagrange@[i]),
                arith::poly_at(curve::logs(params.g@), pow(v, i as nat)),
                q,
            );
    let g = curve::logs(params.g@);
    let l = curve::logs(params.g_lagrange@);
    let x = pow(w, m);
    let t = dft::dft(g, v, n);
    dft::lemma_root_pair_swap(w, v, k, q);
    dft::lemma_dft_inverse(g, v, w, k, m, q);
    let nl = dft::scaled(l, n as int);
    assert forall|i: int| 0 <= i < nl.len() implies arith::eqm(#[trigger] nl[i], t[i], q) by {
        assert(l[i] == curve::log(params.g_lagrange@[i]));
        lemma_mul_is_commutative(l[i], n as int);
    }
    arith::lemma_poly_at_eqm(nl, t, x, x, q);
    dft::lemma_poly_at_scaled(l, n as int, x);
    let (a, b) = (arith::poly_at(l, x), g[m as int]);
    commit::lemma_size_inverse::<C::ScalarExt>(k);
    let h: int = choose|h: int| arith::eqm(#[trigger] (h * n), 1, q);
    arith::lemma_eqm_mul(h, h, a * n, n * b, q);
    assert(h * (a * n) == (h * n) * a) by (nonlinear_arith);
    assert(h * (n * b) == (h * n) * b) by (nonlinear_arith);
    arith::lemma_eqm_mul(h * n, 1, a, a, q);
    arith::lemma_eqm_mul(h * n, 1, b, b, q);
    lemma_mul_basics(a);
    lemma_mul_basics(b);
    sums::law_polynomial_value(l, x);
    assert(Seq::new(l.len(), |i: int| l[i] * pow(x, i as nat)) =~= Seq::new(
        params.n as nat,
        |i: int|
            curve::log(params.g_lagrange@[i]) * pow(
                pow(
                    pow(C::ScalarExt::root(), pow2((32 - params.k) as nat))
                        % C::ScalarExt::order(),
                    m,
                ),
                i as nat,
            ),
    ));
}

/// A message is hashed whole, with its prefix, and a point's logarithm is that of its
/// coordinates, on each of the two curves.
pub proof fn law_curve_names(prefix: Seq<char>, message: Seq<u8>, x: int, y: int)
    ensures
        <EpAffine as CurveAffine>::hash_of(prefix, message) == curve::ep_hash(prefix, message),
        <EqAffine as CurveAffine>::hash_of(prefix, message) == curve::eq_hash(prefix, message),
        <EpAffine as CurveAffine>::log_of((x, y)) == curve::ep_log(x, y),
        <EqAffine as CurveAffine>::log_of((x, y)) == curve::eq_log(x, y),
{
}

/// An element of either field is the number that its four words spell, the least significant
/// first, modulo the order of the field.
pub proof fn law_field_values(a: Fp, b: Fq)
    ensures
        a.val() == (a.0@[0] + a.0@[1] * 0x1_0000_0000_0000_0000int + a.0@[2]
            * 0x1_0000_0000_0000_0000_0000_0000_0000_0000int + a.0@[3]
            * 0x1_0000_0000_0000_0000_0000_0000_0000_0000_0000_0000_0000_0000int)
            % 0x40000000000000000000000000000000224698fc094cf91b992d30ed00000001int,
        b.val() == (b.0@[0] + b.0@[1] * 0x1_0000_0000_0000_0000int + b.0@[2]
            * 0x1_0000_0000_0000_0000_0000_0000_0000_0000int + b.0@[3]
            * 0x1_0000_0000_0000_0000_0000_0000_0000_0000_0000_0000_0000_0000int)
            % 0x40000000000000000000000000000000224698fc0994a8dd8c46eb2100000001int,
        <Fp as Field>::order()
            == 0x40000000000000000000000000000000224698fc094cf91b992d30ed00000001int,
        <Fq as Field>::order()
            == 0x40000000000000000000000000000000224698fc0994a8dd8c46eb2100000001int,
{
}

} // verus!
