//! How parameters are spelled in bytes.
use crate::arith;
use crate::curve;
use crate::curve::CurveAffine;
use crate::encoding;
use crate::encoding::ReadError;
use crate::field::Field;
use crate::params::Params;
use crate::sums;
use vstd::arithmetic::power::*;
use vstd::arithmetic::power2::*;
use vstd::prelude::*;

verus! {

proof fn lemma_code(bytes: Seq<u8>, i: int)
    requires
        0 <= i,
        36 + 32 * i <= bytes.len(),
    ensures
        arith::bytes_val(encoding::chunk(bytes, i)) == Seq::new(
            32,
            |j: int| bytes[4 + 32 * i + j] * pow(256, j as nat),
        ).fold_left(0int, |a: int, b: int| a + b),
{
    let c = encoding::chunk(bytes, i);
    let s = Seq::new(c.len(), |j: int| c[j] as int);
    sums::law_polynomial_value(s, 256);
    assert(Seq::new(s.len(), |j: int| s[j] * pow(256, j as nat)) =~= Seq::new(
        32,
        |j: int| bytes[4 + 32 * i + j] * pow(256, j as nat),
    ));
}

proof fn lemma_four(bytes: Seq<u8>)
    requires
        bytes.len() >= 4,
    ensures
        arith::bytes_val(bytes.take(4)) == bytes[0] + 256 * bytes[1] + 65536 * bytes[2] + 16777216
            * bytes[3],
{
    let b = bytes.take(4);
    sums::law_bytes_spell(b);
    sums::law_bytes_spell(b.skip(1));
    sums::law_bytes_spell(b.skip(1).skip(1));
    sums::law_bytes_spell(b.skip(1).skip(1).skip(1));
    sums::law_bytes_spell(b.skip(1).skip(1).skip(1).skip(1));
}

/// Parameters are written as the exponent in four little-endian bytes and, 32 bytes each,
/// the generators, those of the evaluation form, the blind's base and the remaining one. A
/// point is written as its first coordinate in little-endian bytes, with the parity of the
/// second as the most significant bit.
pub proof fn law_written_layout<C: CurveAffine>(params: Params<C>, bytes: Seq<u8>, i: int)
    requires
        params.wf(),
        encoding::encodes_points(bytes, params.k, encoding::all_points(params)),
        0 <= i < 2 * params.n + 2,
    ensures
        bytes.len() == 4 + 32 * (2 * params.n + 2),
        bytes[0] + 256 * bytes[1] + 65536 * bytes[2] + 16777216 * bytes[3] == params.k,
        ({
            let point = if i < params.n {
                params.g@[i]
            } else if i < 2 * params.n {
                params.g_lagrange@[i - params.n]
            } else if i == 2 * params.n {
                params.w
            } else {
                params.u
            };
            Seq::new(32, |j: int| bytes[4 + 32 * i + j] * pow(256, j as nat)).fold_left(
                0int,
                |a: int, b: int| a + b,
            ) == point.at().0 + (point.at().1 % 2)
                * 0x8000000000000000000000000000000000000000000000000000000000000000int
        }),
{
    let points = encoding::all_points(params);
    assert(points.len() == 2 * params.n + 2);
    lemma_four(bytes);
    lemma_code(bytes, i);
    assert(arith::bytes_val(encoding::chunk(bytes, i)) == curve::encoded(points[i].at()));
}

/// Parameters that are read are those that the bytes spell: the exponent, and at each place
/// a point on the curve with that code, which is the only such point.
pub proof fn law_read_layout<C: CurveAffine>(
    params: Params<C>,
    bytes: Seq<u8>,
    i: int,
    x: int,
    y: int,
)
    requires
        params.wf(),
        params.k == arith::bytes_val(bytes.take(4)),
        encoding::decoded(bytes, encoding::all_points(params)),
        0 <= i < 2 * params.n + 2,
    ensures
        bytes.len() >= 4 + 32 * (2 * params.n + 2),
        bytes[0] + 256 * bytes[1] + 65536 * bytes[2] + 16777216 * bytes[3] == params.k,
        ({
            let point = if i < params.n {
                params.g@[i]
            } else if i < 2 * params.n {
                params.g_lagrange@[i - params.n]
            } else if i == 2 * params.n {
                params.w
            } else {
                params.u
            };
            let code = Seq::new(32, |j: int| bytes[4 + 32 * i + j] * pow(256, j as nat)).fold_left(
                0int,
                |a: int, b: int| a + b,
            );
            &&& point.on_curve()
            &&& code == point.at().0 + (point.at().1 % 2)
                * 0x8000000000000000000000000000000000000000000000000000000000000000int
            &&& 0 <= x < C::Base::order() && 0 <= y < C::Base::order() && ((x == 0 && y == 0) || (y
                * y) % C::Base::order() == (x * x * x + 5) % C::Base::order()) && code == x + (y
                % 2) * 0x8000000000000000000000000000000000000000000000000000000000000000int
                ==> point.at() == (x, y)
        }),
{
    let points = encoding::all_points(params);
    assert(points.len() == 2 * params.n + 2);
    lemma_four(bytes);
    lemma_code(bytes, i);
    assert(arith::bytes_val(encoding::chunk(bytes, i)) == curve::encoded(points[i].at()));
    assert(points[i].on_curve());
    let _ = curve::encodes(x, y, arith::bytes_val(encoding::chunk(bytes, i)), C::Base::order());
}

/// Bytes that spell parameters are not refused: there are four for an exponent below 32 and
/// 32 for every point, and those of each point are its code.
pub proof fn law_spelled_params_are_not_refused<C: CurveAffine>(
    bytes: Seq<u8>,
    k: nat,
    points: Seq<(int, int)>,
    error: ReadError,
)
    requires
        bytes.len() >= 4,
        bytes[0] + 256 * bytes[1] + 65536 * bytes[2] + 16777216 * bytes[3] == k,
        k < 32,
        points.len() == 2 * pow2(k) + 2,
        bytes.len() >= 4 + 32 * points.len(),
        forall|i: int|
            0 <= i < points.len() ==> {
                let (x, y) = #[trigger] points[i];
                &&& 0 <= x < C::Base::order()
                &&& 0 <= y < C::Base::order()
                &&& (x == 0 && y == 0) || (y * y) % C::Base::order() == (x * x * x + 5)
                    % C::Base::order()
                &&& Seq::new(32, |j: int| bytes[4 + 32 * i + j] * pow(256, j as nat)).fold_left(
                    0int,
                    |a: int, b: int| a + b,
                ) == x + (y % 2)
                    * 0x8000000000000000000000000000000000000000000000000000000000000000int
            },
    ensures
        !(bytes.len() < 4 && error == ReadError::UnexpectedEof),
        !(arith::bytes_val(bytes.take(4)) < 64 && exists|i: int|
            0 <= i < 2 * pow2(arith::bytes_val(bytes.take(4)) as nat) + 2 && #[trigger] encoding::stops_at::<C>(
                bytes,
                i,
                error,
            )),
        !(error == ReadError::TooLarge && encoding::beyond_size::<C>(bytes)),
{
    lemma_four(bytes);
    assert forall|i: int| 0 <= i < points.len() implies #[trigger] encoding::decodable::<C>(bytes, i) by {
        let (x, y) = points[i];
        lemma_code(bytes, i);
        assert(curve::encodes(x, y, arith::bytes_val(encoding::chunk(bytes, i)), C::Base::order()));
    }
    if exists|i: int|
        0 <= i < 2 * pow2(k) + 2 && #[trigger] encoding::stops_at::<C>(bytes, i, error) {
        let i = choose|i: int|
            0 <= i < 2 * pow2(k) + 2 && #[trigger] encoding::stops_at::<C>(bytes, i, error);
        assert(encoding::decodable::<C>(bytes, i));
    }
}

/// Where reading stops at a point, the bytes end before it or no point on the curve has the
/// code that they spell.
pub proof fn law_refused_point<C: CurveAffine>(
    bytes: Seq<u8>,
    i: int,
    error: ReadError,
    x: int,
    y: int,
)
    requires
        0 <= i,
        encoding::stops_at::<C>(bytes, i, error),
    ensures
        error is UnexpectedEof <==> bytes.len() < 36 + 32 * i,
        error is InvalidPoint <==> bytes.len() >= 36 + 32 * i,
        error is InvalidPoint ==> !(0 <= x < C::Base::order() && 0 <= y < C::Base::order() && ((x
            == 0 && y == 0) || (y * y) % C::Base::order() == (x * x * x + 5) % C::Base::order())
            && Seq::new(32, |j: int| bytes[4 + 32 * i + j] * pow(256, j as nat)).fold_left(
            0int,
            |a: int, b: int| a + b,
        ) == x + (y % 2) * 0x8000000000000000000000000000000000000000000000000000000000000000int),
{
    if error is InvalidPoint {
        lemma_code(bytes, i);
        let _ = curve::encodes(x, y, arith::bytes_val(encoding::chunk(bytes, i)), C::Base::order());
    }
}

} // verus!
