//! The encoding of parameters.
use crate::arith;
use crate::curve;
use crate::curve::CurveAffine;
use crate::field::Field;
use crate::params::Params;
use crate::transform::exact_power;
use vstd::arithmetic::mul::*;
use vstd::arithmetic::power::*;
use vstd::arithmetic::power2::*;
use vstd::prelude::*;

verus! {

/// Why bytes are no encoding of parameters.
#[derive(Clone, Copy, Debug, PartialEq, Eq, Structural)]
pub enum ReadError {
    /// The bytes end before the parameters do.
    UnexpectedEof,
    /// A point's encoding is not that of a point.
    InvalidPoint,
    /// The size is beyond what parameters can have.
    TooLarge,
}

/// The bytes of point `i` of an encoding.
pub open spec fn chunk(bytes: Seq<u8>, i: int) -> Seq<u8> {
    bytes.subrange(4 + 32 * i, 36 + 32 * i)
}

/// The points of parameters, in the order in which they are encoded.
pub open spec fn all_points<C: CurveAffine>(params: Params<C>) -> Seq<C> {
    params.g@ + params.g_lagrange@ + seq![params.w, params.u]
}

/// Whether the bytes encode the points, behind the size.
pub open spec fn encodes_points<C: CurveAffine>(bytes: Seq<u8>, k: u32, points: Seq<C>) -> bool {
    &&& bytes.len() == 4 + 32 * points.len()
    &&& arith::bytes_val(bytes.take(4)) == k
    &&& forall|i: int|
        0 <= i < points.len() ==> arith::bytes_val(#[trigger] chunk(bytes, i)) == curve::encoded(points[i].at())
}

/// Whether point `i` of an encoding can be decoded.
pub open spec fn decodable<C: CurveAffine>(bytes: Seq<u8>, i: int) -> bool {
    exists|x: int, y: int| #[trigger]
        curve::encodes(x, y, arith::bytes_val(chunk(bytes, i)), C::Base::order())
}

/// Whether the first points are those encoded, and the only ones with their encodings.
pub open spec fn decoded<C: CurveAffine>(bytes: Seq<u8>, points: Seq<C>) -> bool {
    &&& 4 + 32 * points.len() <= bytes.len()
    &&& curve::all_on_curve(points)
    &&& forall|i: int|
        0 <= i < points.len() ==> arith::bytes_val(#[trigger] chunk(bytes, i)) == curve::encoded(points[i].at())
    &&& forall|i: int, x: int, y: int|
        #![trigger points[i], curve::encodes(x, y, arith::bytes_val(chunk(bytes, i)), C::Base::order())]
        0 <= i < points.len() && curve::encodes(
            x,
            y,
            arith::bytes_val(chunk(bytes, i)),
            C::Base::order(),
        ) ==> points[i].at() == (x, y)
}

/// What reading the points of an encoding comes to.
pub open spec fn read_points<C: CurveAffine>(
    bytes: Seq<u8>,
    count: int,
    result: Result<Seq<C>, ReadError>,
) -> bool {
    match result {
        Ok(points) => points.len() == count && decoded(bytes, points),
        Err(error) => exists|i: int|
            0 <= i < count && #[trigger] stops_at::<C>(bytes, i, error),
    }
}

/// Whether all points before point `i` can be decoded, and why that one cannot.
pub open spec fn stops_at<C: CurveAffine>(bytes: Seq<u8>, i: int, error: ReadError) -> bool {
    &&& forall|j: int|
        0 <= j < i ==> 36 + 32 * j <= bytes.len() && #[trigger] decodable::<C>(bytes, j)
    &&& match error {
        ReadError::UnexpectedEof => 36 + 32 * i > bytes.len(),
        ReadError::InvalidPoint => 36 + 32 * i <= bytes.len() && !decodable::<C>(bytes, i),
        ReadError::TooLarge => false,
    }
}

/// Whether the size is beyond what parameters can have, and the bytes do not end before
/// as many points.
pub open spec fn beyond_size<C: CurveAffine>(bytes: Seq<u8>) -> bool {
    let k = arith::bytes_val(bytes.take(4));
    ||| k >= 64
    ||| k >= 32 && forall|j: int|
        0 <= j < 2 * pow2(k as nat) + 2 ==> 36 + 32 * j <= bytes.len() && #[trigger] decodable::<C>(
            bytes,
            j,
        )
}

/// Appends bytes.
fn append_bytes(bytes: &mut Vec<u8>, more: &[u8; 32])
    ensures
        final(bytes)@ == old(bytes)@ + more@,
{
    let mut i: usize = 0;
    let ghost before = bytes@;
    while i < 32
        invariant
            i <= 32,
            bytes@ == before + more@.take(i as int),
        decreases 32 - i,
    {
        bytes.push(more[i]);
        i += 1;
        assert(bytes@ =~= before + more@.take(i as int));
    }
    assert(more@.take(32) =~= more@);
}

/// Appends the encodings of points.
fn append_points<C: CurveAffine>(bytes: &mut Vec<u8>, points: &Vec<C>, Ghost(before): Ghost<Seq<C>>)
    requires
        curve::all_on_curve(points@),
        old(bytes)@.len() == 4 + 32 * before.len(),
        forall|i: int|
            0 <= i < before.len() ==> arith::bytes_val(#[trigger] chunk(old(bytes)@, i)) == curve::encoded(
                before[i].at(),
            ),
    ensures
        final(bytes)@.len() == 4 + 32 * (before + points@).len(),
        final(bytes)@.take(4) == old(bytes)@.take(4),
        forall|i: int|
            0 <= i < (before + points@).len() ==> arith::bytes_val(#[trigger] chunk(final(bytes)@, i))
                == curve::encoded((before + points@)[i].at()),
{
    let ghost start = bytes@;
    let mut k: usize = 0;
    proof {
        assert(before + points@.take(0) =~= before);
    }
    while k < points.len()
        invariant
            k <= points@.len(),
            curve::all_on_curve(points@),
            start.len() == 4 + 32 * before.len(),
            bytes@.len() == 4 + 32 * (before + points@.take(k as int)).len(),
            bytes@.take(4) == start.take(4),
            forall|i: int|
                0 <= i < (before + points@.take(k as int)).len() ==> arith::bytes_val(
                    #[trigger] chunk(bytes@, i),
                ) == curve::encoded((before + points@.take(k as int))[i].at()),
        decreases points@.len() - k,
    {
        let ghost now = bytes@;
        let ghost done = before + points@.take(k as int);
        assert(points@[k as int].on_curve());
        let code: [u8; 32] = points[k].to_bytes();
        append_bytes(bytes, &code);
        proof {
            let next = before + points@.take(k + 1);
            assert(next =~= done.push(points@[k as int]));
            assert(bytes@.take(4) =~= now.take(4));
            assert forall|i: int| 0 <= i < next.len() implies arith::bytes_val(
                #[trigger] chunk(bytes@, i),
            ) == curve::encoded(next[i].at()) by {
                if i < done.len() {
                    assert(chunk(bytes@, i) =~= chunk(now, i));
                } else {
                    assert(chunk(bytes@, i) =~= code@);
                }
            }
        }
        k += 1;
    }
    assert(before + points@.take(k as int) =~= before + points@);
}

/// The bytes of a point of an encoding.
fn take_chunk(bytes: &Vec<u8>, offset: usize) -> (r: [u8; 32])
    requires
        offset + 32 <= bytes@.len(),
    ensures
        r@ == bytes@.subrange(offset as int, offset + 32),
{
    let total: usize = bytes.len();
    let mut r: [u8; 32] = [0; 32];
    let mut i: usize = 0;
    while i < 32
        invariant
            i <= 32,
            offset + 32 <= total,
            total == bytes@.len(),
            r@.len() == 32,
            forall|j: int| 0 <= j < i ==> #[trigger] r@[j] == bytes@[offset + j],
        decreases 32 - i,
    {
        r[i] = bytes[offset + i];
        i += 1;
    }
    assert(r@ =~= bytes@.subrange(offset as int, offset + 32));
    r
}

/// Reads points from behind the size.
fn take_points<C: CurveAffine>(bytes: &Vec<u8>, count: usize) -> (r: Result<Vec<C>, ReadError>)
    requires
        4 + 32 * count <= usize::MAX,
        bytes@.len() >= 4,
    ensures
        read_points(
            bytes@,
            count as int,
            match r {
                Ok(points) => Ok(points@),
                Err(error) => Err(error),
            },
        ),
{
    let mut points: Vec<C> = Vec::new();
    let mut i: usize = 0;
    while i < count
        invariant
            i <= count,
            4 + 32 * count <= usize::MAX,
            points@.len() == i,
            decoded(bytes@, points@),
            forall|j: int|
                0 <= j < i ==> 36 + 32 * j <= bytes@.len() && #[trigger] decodable::<C>(bytes@, j),
        decreases count - i,
    {
        let offset: usize = 4 + 32 * i;
        if bytes.len() - offset < 32 {
            assert(stops_at::<C>(bytes@, i as int, ReadError::UnexpectedEof));
            return Err(ReadError::UnexpectedEof);
        }
        let code = take_chunk(bytes, offset);
        assert(code@ =~= chunk(bytes@, i as int));
        match C::from_bytes(&code) {
            None => {
                assert(!decodable::<C>(bytes@, i as int));
                assert(stops_at::<C>(bytes@, i as int, ReadError::InvalidPoint));
                return Err(ReadError::InvalidPoint);
            },
            Some(point) => {
                let ghost before = points@;
                points.push(point);
                proof {
                    point.lemma_point();
                    assert(curve::encodes(
                        point.at().0,
                        point.at().1,
                        arith::bytes_val(chunk(bytes@, i as int)),
                        C::Base::order(),
                    ));
                    assert forall|j: int, x: int, y: int|
                        #![trigger points@[j], curve::encodes(x, y, arith::bytes_val(chunk(bytes@, j)), C::Base::order())]
                        0 <= j < points@.len() && curve::encodes(
                            x,
                            y,
                            arith::bytes_val(chunk(bytes@, j)),
                            C::Base::order(),
                        ) implies points@[j].at() == (x, y) by {
                        if j < before.len() {
                            assert(points@[j] == before[j]);
                        }
                    }
                    assert forall|j: int| 0 <= j < points@.len() implies arith::bytes_val(
                        #[trigger] chunk(bytes@, j),
                    ) == curve::encoded(points@[j].at()) by {
                        if j < before.len() {
                            assert(points@[j] == before[j]);
                        }
                    }
                }
            },
        }
        i += 1;
    }
    Ok(points)
}

/// The number that four bytes spell.
fn take_size(bytes: &Vec<u8>) -> (r: u32)
    requires
        bytes@.len() >= 4,
    ensures
        r == arith::bytes_val(bytes@.take(4)),
{
    let k: u32 = bytes[0] as u32 + 256 * (bytes[1] as u32) + 65536 * (bytes[2] as u32) + 16777216
        * (bytes[3] as u32);
    proof {
        let s = Seq::new(4, |i: int| bytes@[i] as int);
        assert(s =~= Seq::new(bytes@.take(4).len(), |i: int| bytes@.take(4)[i] as int));
        lemma_four_digits(s);
    }
    k
}

proof fn lemma_four_digits(s: Seq<int>)
    requires
        s.len() == 4,
    ensures
        arith::poly_at(s, 256) == s[0] + 256 * s[1] + 65536 * s[2] + 16777216 * s[3],
{
    arith::lemma_poly_at_first(s, 256);
    arith::lemma_poly_at_first(s.skip(1), 256);
    arith::lemma_poly_at_first(s.skip(1).skip(1), 256);
    arith::lemma_poly_at_first(s.skip(1).skip(1).skip(1), 256);
    assert(s.skip(1).skip(1).skip(1).skip(1) =~= Seq::<int>::empty());
}

impl<C: CurveAffine> Params<C> {
    /// Writes params to a buffer.
    pub fn write(&self) -> (r: Vec<u8>)
        requires
            self.wf(),
        ensures
            encodes_points(r@, self.k, all_points(*self)),
    {
        let mut bytes: Vec<u8> = Vec::new();
        bytes.push((self.k % 256) as u8);
        bytes.push((self.k / 256 % 256) as u8);
        bytes.push((self.k / 65536 % 256) as u8);
        bytes.push((self.k / 16777216 % 256) as u8);
        proof {
            let s = Seq::new(4, |i: int| bytes@[i] as int);
            assert(s =~= Seq::new(bytes@.take(4).len(), |i: int| bytes@.take(4)[i] as int));
            lemma_four_digits(s);
        }
        append_points(&mut bytes, &self.g, Ghost(Seq::empty()));
        assert(Seq::<C>::empty() + self.g@ =~= self.g@);
        append_points(&mut bytes, &self.g_lagrange, Ghost(self.g@));
        let mut rest: Vec<C> = Vec::with_capacity(2);
        rest.push(self.w);
        rest.push(self.u);
        append_points(&mut bytes, &rest, Ghost(self.g@ + self.g_lagrange@));
        assert(rest@ =~= seq![self.w, self.u]);
        bytes
    }

    /// Reads params from a buffer, and how many of its bytes they are.
    pub fn read(bytes: &Vec<u8>) -> (r: Result<(Self, usize), ReadError>)
        ensures
            r matches Ok((params, used)) ==> {
                &&& params.wf()
                &&& params.k == arith::bytes_val(bytes@.take(4))
                &&& used == 4 + 32 * all_points(params).len()
                &&& decoded(bytes@, all_points(params))
                &&& params.platform is Other
            },
            r matches Err(error) ==> {
                ||| bytes@.len() < 4 && error == ReadError::UnexpectedEof
                ||| bytes@.len() >= 4 && arith::bytes_val(bytes@.take(4)) < 64 && exists|i: int|
                    0 <= i < 2 * pow2(arith::bytes_val(bytes@.take(4)) as nat) + 2 && #[trigger] stops_at::<
                        C,
                    >(bytes@, i, error)
                ||| bytes@.len() >= 4 && error == ReadError::TooLarge && beyond_size::<C>(bytes@)
            },
    {
        if bytes.len() < 4 {
            return Err(ReadError::UnexpectedEof);
        }
        let k: u32 = take_size(bytes);
        if k >= 64 {
            return Err(ReadError::TooLarge);
        }
        let n: u64 = exact_power(k);
        proof {
            lemma2_to64();
            lemma_pow2_strictly_increases(k as nat, 64);
            lemma_pow2_pos(k as nat);
        }
        let total: usize = bytes.len();
        let space: usize = (total - 4) / 32;
        // No more points are read than there are bytes for, and one that is missing.
        let wanted: u128 = 2 * (n as u128) + 2;
        let count: usize = if (space as u128) < wanted {
            space
        } else {
            wanted as usize
        };
        match take_points::<C>(bytes, count) {
            Err(error) => {
                proof {
                    let i = choose|i: int|
                        0 <= i < count && #[trigger] stops_at::<C>(bytes@, i, error);
                    assert(stops_at::<C>(bytes@, i, error));
                }
                Err(error)
            },
            Ok(points) => {
                proof {
                    assert forall|j: int| 0 <= j < count implies 36 + 32 * j <= bytes@.len()
                        && #[trigger] decodable::<C>(bytes@, j) by {
                        points@[j].lemma_point();
                        assert(points@[j].on_curve());
                        assert(arith::bytes_val(chunk(bytes@, j)) == curve::encoded(points@[j].at()));
                        assert(curve::encodes(
                            points@[j].at().0,
                            points@[j].at().1,
                            arith::bytes_val(chunk(bytes@, j)),
                            C::Base::order(),
                        ));
                    }
                }
                if (count as u128) < wanted {
                    assert(stops_at::<C>(bytes@, count as int, ReadError::UnexpectedEof));
                    return Err(ReadError::UnexpectedEof);
                }
                if k >= 32 {
                    return Err(ReadError::TooLarge);
                }
                proof {
                    lemma_pow2_strictly_increases(k as nat, 32);
                }
                let len: usize = n as usize;
                let g = point_range(&points, 0, len);
                let g_lagrange = point_range(&points, len, 2 * len);
                let w = points[2 * len];
                let u = points[2 * len + 1];
                let params = Params::without_tables(k, n, g, g_lagrange, w, u);
                proof {
                    assert(points@[2 * len as int].on_curve());
                    assert(points@[2 * len + 1].on_curve());
                    assert(all_points(params) =~= points@);
                }
                Ok((params, 4 + 32 * count))
            },
        }
    }
}

/// Some consecutive points.
pub(crate) fn point_range<C: CurveAffine>(points: &Vec<C>, from: usize, to: usize) -> (r: Vec<C>)
    requires
        from <= to <= points@.len(),
        curve::all_on_curve(points@),
    ensures
        r@ == points@.subrange(from as int, to as int),
        curve::all_on_curve(r@),
{
    let mut r: Vec<C> = Vec::with_capacity(to - from);
    let mut i: usize = from;
    while i < to
        invariant
            from <= i <= to <= points@.len(),
            curve::all_on_curve(points@),
            r@ == points@.subrange(from as int, i as int),
            curve::all_on_curve(r@),
        decreases to - i,
    {
        assert(points@[i as int].on_curve());
        r.push(points[i]);
        i += 1;
        assert(r@ =~= points@.subrange(from as int, i as int));
    }
    r
}

/// What is read from the bytes that were written is what was written, whatever follows
/// them.
pub proof fn law_written_params_are_read<C: CurveAffine>(
    params: Params<C>,
    written: Seq<u8>,
    behind: Seq<u8>,
    read: Seq<C>,
)
    requires
        params.wf(),
        encodes_points(written, params.k, all_points(params)),
    ensures
        (written + behind).len() >= 4,
        arith::bytes_val((written + behind).take(4)) == params.k,
        forall|i: int, error: ReadError|
            0 <= i < all_points(params).len() ==> !(#[trigger] stops_at::<C>(
                written + behind,
                i,
                error,
            )),
        decoded(written + behind, read) && read.len() == all_points(params).len() ==> curve::coordinates(
            read,
        ) == curve::coordinates(all_points(params)),
{
    let points = all_points(params);
    let bytes = written + behind;
    assert(bytes.take(4) =~= written.take(4));
    assert forall|i: int| 0 <= i < points.len() implies #[trigger] decodable::<C>(bytes, i)
        && curve::encodes(
        points[i].at().0,
        points[i].at().1,
        arith::bytes_val(chunk(bytes, i)),
        C::Base::order(),
    ) by {
        points[i].lemma_point();
        assert(points[i].on_curve()) by {
            if i < params.g@.len() {
                assert(points[i] == params.g@[i]);
            } else if i < params.g@.len() + params.g_lagrange@.len() {
                assert(points[i] == params.g_lagrange@[i - params.g@.len()]);
            }
        }
        assert(chunk(bytes, i) =~= chunk(written, i));
        assert(arith::bytes_val(chunk(written, i)) == curve::encoded(points[i].at()));
        assert(curve::encodes(
            points[i].at().0,
            points[i].at().1,
            arith::bytes_val(chunk(bytes, i)),
            C::Base::order(),
        ));
    }
    if decoded(bytes, read) && read.len() == points.len() {
        assert forall|i: int| 0 <= i < points.len() implies curve::coordinates(read)[i] == curve::coordinates(
            points,
        )[i] by {
            assert(decodable::<C>(bytes, i));
            let r = read[i];
        }
        assert(curve::coordinates(read) =~= curve::coordinates(points));
    }
}

/// Bytes of the same number that spell the same integer are the same.
proof fn lemma_bytes_unique(a: Seq<u8>, b: Seq<u8>)
    requires
        a.len() == b.len(),
        arith::bytes_val(a) == arith::bytes_val(b),
    ensures
        a == b,
    decreases a.len(),
{
    if a.len() > 0 {
        let s = Seq::new(a.len(), |i: int| a[i] as int);
        let t = Seq::new(b.len(), |i: int| b[i] as int);
        arith::lemma_poly_at_first(s, 256);
        arith::lemma_poly_at_first(t, 256);
        let (x, y) = (a.skip(1), b.skip(1));
        assert(s.skip(1) =~= Seq::new(x.len(), |i: int| x[i] as int));
        assert(t.skip(1) =~= Seq::new(y.len(), |i: int| y[i] as int));
        assert(s[0] + 256 * arith::bytes_val(x) == t[0] + 256 * arith::bytes_val(y));
        lemma_bytes_unique(x, y);
        assert forall|i: int| 0 <= i < a.len() implies a[i] == b[i] by {
            if i > 0 {
                assert(x[i - 1] == y[i - 1]);
            }
        }
        assert(a =~= b);
    } else {
        assert(a =~= b);
    }
}

/// What was read is written with the same bytes again.
pub proof fn law_read_params_are_written<C: CurveAffine>(
    params: Params<C>,
    bytes: Seq<u8>,
    written: Seq<u8>,
)
    requires
        params.k == arith::bytes_val(bytes.take(4)),
        decoded(bytes, all_points(params)),
        encodes_points(written, params.k, all_points(params)),
    ensures
        written == bytes.take((4 + 32 * all_points(params).len()) as int),
{
    let points = all_points(params);
    let used = bytes.take((4 + 32 * points.len()) as int);
    lemma_bytes_unique(written.take(4), bytes.take(4));
    assert forall|j: int| 0 <= j < used.len() implies written[j] == used[j] by {
        if j < 4 {
            assert(written[j] == written.take(4)[j]);
            assert(used[j] == bytes.take(4)[j]);
        } else {
            let i = (j - 4) / 32;
            let o = (j - 4) % 32;
            assert(arith::bytes_val(chunk(written, i)) == curve::encoded(points[i].at()));
            assert(arith::bytes_val(chunk(bytes, i)) == curve::encoded(points[i].at()));
            lemma_bytes_unique(chunk(written, i), chunk(bytes, i));
            assert(chunk(written, i)[o] == written[j]);
            assert(chunk(bytes, i)[o] == bytes[j]);
        }
    }
    assert(written =~= used);
}

} // verus!
