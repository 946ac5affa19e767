//! Grouping of opening queries by the points that polynomials are opened at.
use crate::blind::Blind;
use crate::curve::CurveAffine;
use crate::field::Field;
use crate::poly;
use crate::poly::{Coeff, Polynomial};
use crate::qprime;
use vstd::prelude::*;

verus! {

/// A polynomial to be opened. Polynomials are told apart by their identity, not by what
/// they hold.
#[derive(Copy, Clone, Debug)]
pub struct PolynomialPointer<'a, C: CurveAffine> {
    pub identity: usize,
    pub poly: &'a Polynomial<C::ScalarExt, Coeff>,
    pub blind: Blind<C::ScalarExt>,
}

impl<'a, C: CurveAffine> PolynomialPointer<'a, C> {
    /// Whether two pointers are to the same polynomial.
    pub fn same(&self, other: &Self) -> (r: bool)
        ensures
            r <==> self.identity == other.identity,
    {
        self.identity == other.identity
    }
}

/// A polynomial query at a point
#[derive(Copy, Clone, Debug)]
pub struct ProverQuery<'a, C: CurveAffine> {
    /// point at which polynomial is queried
    pub point: C::ScalarExt,
    /// coefficients of polynomial
    pub commitment: PolynomialPointer<'a, C>,
}

impl<'a, C: CurveAffine> ProverQuery<'a, C> {
    /// The polynomial's identity and the point.
    pub open spec fn key(&self) -> (int, int) {
        (self.commitment.identity as int, self.point.val())
    }

    pub fn get_point(&self) -> (r: C::ScalarExt)
        ensures
            r == self.point,
    {
        self.point
    }

    pub fn get_commitment(&self) -> (r: PolynomialPointer<'a, C>)
        ensures
            r == self.commitment,
    {
        self.commitment
    }
}

pub open spec fn keys<'a, C: CurveAffine>(queries: Seq<ProverQuery<'a, C>>) -> Seq<(int, int)> {
    Seq::new(queries.len(), |i: int| queries[i].key())
}

/// The values of a sequence in the order in which they are first met.
pub open spec fn first_seen<T>(s: Seq<T>) -> Seq<T>
    decreases s.len(),
{
    if s.len() == 0 {
        Seq::empty()
    } else {
        let before = first_seen(s.drop_last());
        if s.drop_last().contains(s.last()) {
            before
        } else {
            before.push(s.last())
        }
    }
}

pub proof fn lemma_first_seen<T>(s: Seq<T>)
    ensures
        forall|x: T| #[trigger] first_seen(s).contains(x) <==> s.contains(x),
        first_seen(s).no_duplicates(),
        first_seen(s).len() <= s.len(),
    decreases s.len(),
{
    if s.len() > 0 {
        let f = s.drop_last();
        lemma_first_seen(f);
        let g = first_seen(f);
        assert(s =~= f.push(s.last()));
        assert forall|x: T| #[trigger] first_seen(s).contains(x) <==> s.contains(x) by {
            if s.contains(x) {
                let i = choose|i: int| 0 <= i < s.len() && s[i] == x;
                if i < f.len() {
                    assert(f[i] == x);
                    assert(f.contains(x));
                    assert(g.contains(x));
                    let j = choose|j: int| 0 <= j < g.len() && g[j] == x;
                    assert(first_seen(s)[j] == x);
                } else if !f.contains(s.last()) {
                    assert(first_seen(s)[g.len() as int] == x);
                } else {
                    assert(g.contains(x));
                }
            }
            if first_seen(s).contains(x) {
                let j = choose|j: int| 0 <= j < first_seen(s).len() && first_seen(s)[j] == x;
                if j < g.len() {
                    assert(g[j] == x);
                    assert(g.contains(x));
                    assert(f.contains(x));
                    let i = choose|i: int| 0 <= i < f.len() && f[i] == x;
                    assert(s[i] == x);
                } else {
                    assert(s[s.len() - 1] == x);
                }
            }
        }
        if !f.contains(s.last()) {
            assert(!g.contains(s.last()));
            assert forall|i: int, j: int|
                0 <= i < first_seen(s).len() && 0 <= j < first_seen(s).len() && i
                    != j implies first_seen(s)[i] != first_seen(s)[j] by {
                if i < g.len() && j == g.len() {
                    assert(g.contains(g[i]));
                }
                if j < g.len() && i == g.len() {
                    assert(g.contains(g[j]));
                }
            }
        }
    }
}

pub open spec fn points_of(keys: Seq<(int, int)>) -> Seq<int> {
    Seq::new(keys.len(), |i: int| keys[i].1)
}

pub open spec fn identities_of(keys: Seq<(int, int)>) -> Seq<int> {
    Seq::new(keys.len(), |i: int| keys[i].0)
}

/// The distinct points of queries, in the order in which they are first met.
pub open spec fn points(keys: Seq<(int, int)>) -> Seq<int> {
    first_seen(points_of(keys))
}

/// The distinct polynomials of queries, in the order in which they are first met.
pub open spec fn identities(keys: Seq<(int, int)>) -> Seq<int> {
    first_seen(identities_of(keys))
}

/// The points that a polynomial is opened at, in the order in which they are first met.
pub open spec fn point_set(keys: Seq<(int, int)>, identity: int) -> Seq<int> {
    points(keys).filter(|x: int| keys.contains((identity, x)))
}

/// The distinct sets of points, in the order in which they are first met.
pub open spec fn point_sets_of(keys: Seq<(int, int)>) -> Seq<Seq<int>> {
    first_seen(
        Seq::new(identities(keys).len(), |c: int| point_set(keys, identities(keys)[c])),
    )
}

/// Whether a query has been met before.
pub open spec fn repeats(keys: Seq<(int, int)>, k: int) -> bool {
    keys.take(k).contains(keys[k])
}

/// Whether more points than the limit have been met with query `k`.
pub open spec fn too_many(keys: Seq<(int, int)>, k: int, limit: int) -> bool {
    points(keys.take(k + 1)).len() > limit
}

/// Polynomials with the number of their set of points, and the sets.
#[derive(Debug)]
pub struct ProverIntermediateSets<'a, C: CurveAffine> {
    pub commitments: Vec<(PolynomialPointer<'a, C>, usize)>,
    pub point_sets: Vec<Vec<C::ScalarExt>>,
}

impl<'a, C: CurveAffine> ProverIntermediateSets<'a, C> {
    /// Whether the polynomials are those of the queries, in the order in which they are
    /// first met and as they are first met, each with the number of its set of points.
    pub open spec fn groups(&self, queries: Seq<ProverQuery<'a, C>>) -> bool {
        let ks = keys(queries);
        &&& self.commitments@.len() == identities(ks).len()
        &&& qprime::vec_vals(self.point_sets@) == point_sets_of(ks)
        &&& forall|c: int|
            0 <= c < self.commitments@.len() ==> {
                let (pointer, set) = #[trigger] self.commitments@[c];
                &&& pointer.identity == identities(ks)[c]
                &&& first_pointer(queries, pointer)
                &&& set < self.point_sets@.len()
                &&& poly::vals(self.point_sets@[set as int]@) == point_set(ks, identities(ks)[c])
            }
    }
}

/// Whether the pointer is that of the first query about its polynomial.
pub open spec fn first_pointer<'a, C: CurveAffine>(
    queries: Seq<ProverQuery<'a, C>>,
    pointer: PolynomialPointer<'a, C>,
) -> bool {
    exists|i: int|
        0 <= i < queries.len() && (#[trigger] queries[i]).commitment == pointer && forall|j: int|
            0 <= j < i ==> (#[trigger] queries[j]).commitment.identity != pointer.identity
}

/// The grouped queries, or that they have too many points for the representation.
pub enum ProverIntermediateSetsResult<'a, C: CurveAffine> {
    Complete(Option<ProverIntermediateSets<'a, C>>),
    TooManyPoints,
}

/// A set of small numbers.
pub trait PointSet: Sized {
    /// How many numbers there can be.
    spec fn limit() -> int;

    spec fn has(&self, i: int) -> bool;

    fn capacity() -> (r: usize)
        ensures
            r == Self::limit(),
            r > 0,
    ;

    fn empty() -> (r: Self)
        ensures
            forall|i: int| !(#[trigger] r.has(i)),
    ;

    fn contains(&self, i: usize) -> (r: bool)
        requires
            i < Self::limit(),
        ensures
            r == self.has(i as int),
    ;

    fn insert(&mut self, i: usize)
        requires
            i < Self::limit(),
        ensures
            forall|j: int|
                0 <= j < Self::limit() ==> (#[trigger] final(self).has(j) <==> old(self).has(j)
                    || j == i),
    ;

    fn same(&self, other: &Self) -> (r: bool)
        ensures
            r <==> forall|i: int|
                0 <= i < Self::limit() ==> (#[trigger] self.has(i) <==> other.has(i)),
    ;

    fn copy(&self) -> (r: Self)
        ensures
            forall|i: int|
                0 <= i < Self::limit() ==> (#[trigger] r.has(i) <==> self.has(i)),
    ;
}

/// A set of numbers below the bits of a word, held inline.
#[derive(Clone, Copy, Debug)]
pub struct PointMask(pub usize);

/// Bit `i` of a word.
spec fn bit(m: usize, i: usize) -> bool {
    (m >> i) & 1usize == 1usize
}

proof fn lemma_bit_set(m: usize, i: usize, j: usize)
    requires
        i < usize::BITS,
        j < usize::BITS,
    ensures
        bit(m | (1usize << i), j) <==> bit(m, j) || i == j,
        (m & (1usize << i) != 0) <==> bit(m, i),
{
    assert(((m | (1usize << i)) >> j) & 1usize == 1usize <==> (m >> j) & 1usize == 1usize || i
        == j) by (bit_vector)
        requires
            i < usize::BITS,
            j < usize::BITS,
    ;
    assert((m & (1usize << i) != 0) <==> (m >> i) & 1usize == 1usize) by (bit_vector)
        requires
            i < usize::BITS,
    ;
}

proof fn lemma_bit_zero(i: usize)
    requires
        i < usize::BITS,
    ensures
        !bit(0, i),
{
    assert((0usize >> i) & 1usize != 1usize) by (bit_vector)
        requires
            i < usize::BITS,
    ;
}

/// Words with the same bits from bit `k` on agree there.
proof fn lemma_bits_from(m: usize, n: usize, k: usize)
    requires
        k <= usize::BITS,
        forall|i: usize| #![trigger bit(m, i)] k <= i < usize::BITS ==> (bit(m, i) <==> bit(n, i)),
    ensures
        k < usize::BITS ==> m >> k == n >> k,
    decreases usize::BITS - k,
{
    if k < usize::BITS {
        let l: usize = (k + 1) as usize;
        lemma_bits_from(m, n, l);
        assert(bit(m, k) <==> bit(n, k));
        if l == usize::BITS {
            assert(m >> k == (m >> k) & 1) by (bit_vector)
                requires
                    k < usize::BITS,
                    l == k + 1,
                    l == usize::BITS,
            ;
            assert(n >> k == (n >> k) & 1) by (bit_vector)
                requires
                    k < usize::BITS,
                    l == k + 1,
                    l == usize::BITS,
            ;
            assert((m >> k) & 1 == 0 || (m >> k) & 1 == 1) by (bit_vector);
            assert((n >> k) & 1 == 0 || (n >> k) & 1 == 1) by (bit_vector);
        } else {
            assert((m >> k) & 1 == (n >> k) & 1) by {
                assert((m >> k) & 1 == 0 || (m >> k) & 1 == 1) by (bit_vector);
                assert((n >> k) & 1 == 0 || (n >> k) & 1 == 1) by (bit_vector);
            }
            assert(m >> k == n >> k) by (bit_vector)
                requires
                    k < usize::BITS,
                    l == k + 1,
                    l < usize::BITS,
                    m >> l == n >> l,
                    (m >> k) & 1 == (n >> k) & 1,
            ;
        }
    }
}

impl PointSet for PointMask {
    closed spec fn limit() -> int {
        usize::BITS as int
    }

    closed spec fn has(&self, i: int) -> bool {
        0 <= i < usize::BITS && bit(self.0, i as usize)
    }

    fn capacity() -> (r: usize) {
        usize::BITS as usize
    }

    fn empty() -> (r: Self) {
        let r = PointMask(0);
        proof {
            assert forall|i: int| !(#[trigger] r.has(i)) by {
                if 0 <= i < usize::BITS {
                    lemma_bit_zero(i as usize);
                }
            }
        }
        r
    }

    fn contains(&self, i: usize) -> (r: bool) {
        proof {
            lemma_bit_set(self.0, i, i);
        }
        self.0 & (1usize << i) != 0
    }

    fn insert(&mut self, i: usize) {
        let ghost before = *self;
        self.0 = self.0 | (1usize << i);
        proof {
            assert forall|j: int| 0 <= j < Self::limit() implies (#[trigger] self.has(j)
                <==> before.has(j) || j == i) by {
                lemma_bit_set(before.0, i, j as usize);
            }
        }
    }

    fn same(&self, other: &Self) -> (r: bool) {
        proof {
            if forall|i: int|
                0 <= i < Self::limit() ==> (#[trigger] self.has(i) <==> other.has(i)) {
                let (m, n) = (self.0, other.0);
                assert forall|i: usize| #![trigger bit(m, i)] 0 <= i < usize::BITS implies (bit(
                    m,
                    i,
                ) <==> bit(n, i)) by {
                    assert(self.has(i as int) <==> other.has(i as int));
                }
                lemma_bits_from(m, n, 0);
                assert(m >> 0 == m) by (bit_vector);
                assert(n >> 0 == n) by (bit_vector);
            }
        }
        self.0 == other.0
    }

    fn copy(&self) -> (r: Self) {
        *self
    }
}

/// A set of numbers without a bound, held as a list of flags.
#[derive(Debug)]
pub struct PointFlags(pub Vec<bool>);

impl PointSet for PointFlags {
    closed spec fn limit() -> int {
        usize::MAX as int
    }

    closed spec fn has(&self, i: int) -> bool {
        0 <= i < self.0@.len() && self.0@[i]
    }

    fn capacity() -> (r: usize) {
        usize::MAX
    }

    fn empty() -> (r: Self) {
        PointFlags(Vec::new())
    }

    fn contains(&self, i: usize) -> (r: bool) {
        i < self.0.len() && self.0[i]
    }

    fn insert(&mut self, i: usize) {
        let ghost before = *self;
        while self.0.len() <= i
            invariant
                i < usize::MAX,
                before.0@.len() <= self.0@.len(),
                forall|j: int|
                    0 <= j < self.0@.len() ==> #[trigger] self.0@[j] == (j < before.0@.len()
                        && before.0@[j]),
            decreases i + 1 - self.0@.len(),
        {
            self.0.push(false);
        }
        self.0[i] = true;
    }

    fn same(&self, other: &Self) -> (r: bool) {
        let longer: usize = if self.0.len() < other.0.len() {
            other.0.len()
        } else {
            self.0.len()
        };
        let mut i: usize = 0;
        while i < longer
            invariant
                i <= longer,
                longer >= self.0@.len(),
                longer >= other.0@.len(),
                forall|j: int| 0 <= j < i ==> (#[trigger] self.has(j) <==> other.has(j)),
            decreases longer - i,
        {
            let here: bool = i < self.0.len() && self.0[i];
            let there: bool = i < other.0.len() && other.0[i];
            if here != there {
                assert(self.has(i as int) != other.has(i as int));
                return false;
            }
            i += 1;
        }
        true
    }

    fn copy(&self) -> (r: Self) {
        let mut flags: Vec<bool> = Vec::with_capacity(self.0.len());
        let mut i: usize = 0;
        while i < self.0.len()
            invariant
                i <= self.0@.len(),
                flags@.len() == i,
                forall|j: int| 0 <= j < i ==> #[trigger] flags@[j] == self.0@[j],
            decreases self.0@.len() - i,
        {
            flags.push(self.0[i]);
            i += 1;
        }
        PointFlags(flags)
    }
}

/// Whether two sets hold the same numbers.
spec fn agree<S: PointSet>(a: S, b: S) -> bool {
    forall|i: int| 0 <= i < S::limit() ==> (#[trigger] a.has(i) <==> b.has(i))
}

/// The points whose numbers a set holds, in order.
spec fn selected<S: PointSet>(points: Seq<int>, set: S, k: int) -> Seq<int>
    decreases k,
{
    if k <= 0 {
        Seq::empty()
    } else {
        let before = selected(points, set, k - 1);
        if set.has(k - 1) {
            before.push(points[k - 1])
        } else {
            before
        }
    }
}

/// A selection holds the selected points alone.
proof fn lemma_selected_contains<S: PointSet>(points: Seq<int>, set: S, k: int, x: int)
    requires
        0 <= k <= points.len(),
    ensures
        selected(points, set, k).contains(x) <==> exists|i: int|
            0 <= i < k && set.has(i) && #[trigger] points[i] == x,
    decreases k,
{
    if k > 0 {
        lemma_selected_contains(points, set, k - 1, x);
        let before = selected(points, set, k - 1);
        let now = selected(points, set, k);
        if now.contains(x) {
            let j = choose|j: int| 0 <= j < now.len() && now[j] == x;
            if j < before.len() {
                assert(before[j] == x);
                assert(before.contains(x));
            }
        }
        if exists|i: int| 0 <= i < k && set.has(i) && #[trigger] points[i] == x {
            let i = choose|i: int| 0 <= i < k && set.has(i) && #[trigger] points[i] == x;
            if i < k - 1 {
                assert(before.contains(x));
                let j = choose|j: int| 0 <= j < before.len() && before[j] == x;
                assert(now[j] == x);
            } else {
                assert(now[now.len() - 1] == x);
            }
        }
    }
}

/// The selection by a set is the filter by the points that it stands for.
proof fn lemma_selected_filter<S: PointSet>(points: Seq<int>, set: S, keep: spec_fn(int) -> bool, k: int)
    requires
        0 <= k <= points.len(),
        forall|i: int| 0 <= i < points.len() ==> (set.has(i) <==> keep(#[trigger] points[i])),
    ensures
        selected(points, set, k) == points.take(k).filter(keep),
    decreases k,
{
    reveal(Seq::filter);
    if k > 0 {
        lemma_selected_filter(points, set, keep, k - 1);
        assert(points.take(k).drop_last() =~= points.take(k - 1));
        assert(points.take(k).last() == points[k - 1]);
    }
}

/// Sets that differ select differently.
proof fn lemma_selected_same<S: PointSet>(points: Seq<int>, a: S, b: S)
    requires
        points.no_duplicates(),
    ensures
        selected(points, a, points.len() as int) == selected(points, b, points.len() as int)
            <==> forall|i: int| 0 <= i < points.len() ==> (#[trigger] a.has(i) <==> b.has(i)),
{
    let n = points.len() as int;
    if forall|i: int| 0 <= i < n ==> (#[trigger] a.has(i) <==> b.has(i)) {
        lemma_selected_equal(points, a, b, n);
    }
    if selected(points, a, n) == selected(points, b, n) {
        assert forall|i: int| 0 <= i < n implies (#[trigger] a.has(i) <==> b.has(i)) by {
            lemma_selected_contains(points, a, n, points[i]);
            lemma_selected_contains(points, b, n, points[i]);
        }
    }
}

proof fn lemma_selected_equal<S: PointSet>(points: Seq<int>, a: S, b: S, k: int)
    requires
        0 <= k <= points.len(),
        forall|i: int| 0 <= i < k ==> (#[trigger] a.has(i) <==> b.has(i)),
    ensures
        selected(points, a, k) == selected(points, b, k),
    decreases k,
{
    if k > 0 {
        lemma_selected_equal(points, a, b, k - 1);
        assert(a.has(k - 1) <==> b.has(k - 1));
    }
}

/// The polynomials met so far, each with the numbers of its points.
spec fn tallied<'a, C: CurveAffine, S: PointSet>(
    queries: Seq<ProverQuery<'a, C>>,
    points: Seq<C::ScalarExt>,
    commitments: Seq<(PolynomialPointer<'a, C>, S)>,
) -> bool {
    let ks = keys(queries);
    &&& poly::vals(points) == self::points(ks)
    &&& commitments.len() == identities(ks).len()
    &&& forall|c: int|
        0 <= c < commitments.len() ==> (#[trigger] commitments[c]).0.identity == identities(ks)[c]
    &&& forall|c: int| 0 <= c < commitments.len() ==> first_pointer(queries, (#[trigger] commitments[c]).0)
    &&& forall|c: int, i: int|
        #![trigger commitments[c].1.has(i)]
        0 <= c < commitments.len() && 0 <= i < points.len() ==> (commitments[c].1.has(i)
            <==> ks.contains((identities(ks)[c], points[i].val())))
    &&& forall|c: int, i: int|
        #![trigger commitments[c].1.has(i)]
        0 <= c < commitments.len() && points.len() <= i < S::limit() ==> !commitments[c].1.has(i)
}

/// The number of a point among the points.
fn position<F: Field>(points: &Vec<F>, point: F) -> (r: Option<usize>)
    ensures
        r is None <==> !poly::vals(points@).contains(point.val()),
        r matches Some(i) ==> i < points@.len() && points@[i as int].val() == point.val(),
{
    let mut i: usize = 0;
    while i < points.len()
        invariant
            i <= points@.len(),
            forall|j: int| 0 <= j < i ==> (#[trigger] points@[j]).val() != point.val(),
        decreases points@.len() - i,
    {
        if points[i].equals(&point) {
            assert(poly::vals(points@)[i as int] == point.val());
            return Some(i);
        }
        i += 1;
    }
    None
}

/// The number of a polynomial among those met.
fn position_of<'a, C: CurveAffine, S: PointSet>(
    commitments: &Vec<(PolynomialPointer<'a, C>, S)>,
    commitment: &PolynomialPointer<'a, C>,
) -> (r: Option<usize>)
    ensures
        r matches Some(c) ==> c < commitments@.len() && commitments@[c as int].0.identity
            == commitment.identity,
        r is None ==> forall|c: int|
            0 <= c < commitments@.len() ==> (#[trigger] commitments@[c]).0.identity
                != commitment.identity,
{
    let mut c: usize = 0;
    while c < commitments.len()
        invariant
            c <= commitments@.len(),
            forall|j: int|
                0 <= j < c ==> (#[trigger] commitments@[j]).0.identity != commitment.identity,
        decreases commitments@.len() - c,
    {
        if commitments[c].0.same(commitment) {
            return Some(c);
        }
        c += 1;
    }
    None
}

proof fn lemma_tally_keys<'a, C: CurveAffine>(queries: Seq<ProverQuery<'a, C>>, k: int)
    requires
        0 <= k < queries.len(),
    ensures
        ({
            let before = keys(queries.take(k));
            let after = keys(queries.take(k + 1));
            let (identity, point) = queries[k].key();
            &&& keys(queries).take(k) == before
            &&& keys(queries).take(k + 1) == after
            &&& after == before.push((identity, point))
            &&& points(after) == if points(before).contains(point) {
                points(before)
            } else {
                points(before).push(point)
            }
            &&& identities(after) == if identities(before).contains(identity) {
                identities(before)
            } else {
                identities(before).push(identity)
            }
        }),
{
    let before = keys(queries.take(k));
    let after = keys(queries.take(k + 1));
    assert(keys(queries).take(k) =~= before);
    assert(keys(queries).take(k + 1) =~= after);
    assert(after =~= before.push(queries[k].key()));
    assert(points_of(after).drop_last() =~= points_of(before));
    assert(identities_of(after).drop_last() =~= identities_of(before));
    lemma_first_seen(points_of(before));
    lemma_first_seen(identities_of(before));
}

/// A key is met with its point and its polynomial.
proof fn lemma_key_parts(keys: Seq<(int, int)>, identity: int, point: int)
    requires
        keys.contains((identity, point)),
    ensures
        points(keys).contains(point),
        identities(keys).contains(identity),
{
    let i = choose|i: int| 0 <= i < keys.len() && keys[i] == (identity, point);
    assert(points_of(keys)[i] == point);
    assert(identities_of(keys)[i] == identity);
    lemma_first_seen(points_of(keys));
    lemma_first_seen(identities_of(keys));
}

/// Meets one more query. Returns whether it repeats an earlier one, which is left out.
fn tally<'a, C: CurveAffine, S: PointSet>(
    queries: &Vec<ProverQuery<'a, C>>,
    k: usize,
    point_index: usize,
    points: &Vec<C::ScalarExt>,
    commitments: &mut Vec<(PolynomialPointer<'a, C>, S)>,
    Ghost(former): Ghost<Seq<C::ScalarExt>>,
) -> (r: bool)
    requires
        k < queries@.len(),
        tallied(queries@.take(k as int), former, old(commitments)@),
        points@.len() <= S::limit(),
        point_index < points@.len(),
        points@[point_index as int].val() == queries@[k as int].point.val(),
        points@ == former || points@ == former.push(queries@[k as int].point) && point_index
            == former.len(),
        points@ == former <==> poly::vals(former).contains(queries@[k as int].point.val()),
    ensures
        r == repeats(keys(queries@), k as int),
        !r ==> tallied(queries@.take(k + 1), points@, final(commitments)@),
{
    let ghost before = keys(queries@.take(k as int));
    let ghost after = keys(queries@.take(k + 1));
    let ghost (identity, point) = queries@[k as int].key();
    proof {
        lemma_tally_keys(queries@, k as int);
        lemma_first_seen(identities_of(before));
        lemma_first_seen(points_of(before));
        lemma_first_seen(points_of(after));
        lemma_first_seen(identities_of(after));
        assert(poly::vals(points@) =~= self::points(after));
    }
    let commitment = queries[k].get_commitment();
    let ghost now = commitments@;
    let index: usize = match position_of(commitments, &commitment) {
        Some(c) => c,
        None => {
            let c: usize = commitments.len();
            commitments.push((commitment, S::empty()));
            c
        },
    };
    let ghost next = commitments@;
    proof {
        if index < now.len() {
            assert(identities(before)[index as int] == identity);
            assert(identities(before).contains(identity));
        } else {
            if identities(before).contains(identity) {
                let c = choose|c: int|
                    0 <= c < identities(before).len() && identities(before)[c] == identity;
                assert(now[c].0.identity == identity);
            }
        }
        assert(identities(after)[index as int] == identity);
        // A polynomial is met by its key's first part.
        if index == now.len() && before.contains((identity, point)) {
            lemma_key_parts(before, identity, point);
        }
        if point_index == former.len() && before.contains((identity, point)) {
            lemma_key_parts(before, identity, point);
        }
    }
    if commitments[index].1.contains(point_index) {
        proof {
            assert(now[index as int].1.has(point_index as int));
        }
        return true;
    }
    proof {
        if before.contains((identity, point)) {
            assert(now[index as int].1.has(point_index as int));
        }
    }
    commitments[index].1.insert(point_index);
    proof {
        let cs = commitments@;
        assert forall|c: int| 0 <= c < cs.len() implies (#[trigger] cs[c]).0 == next[c].0 by {}
        assert forall|c: int| 0 <= c < cs.len() implies (#[trigger] cs[c]).0.identity == identities(
            after,
        )[c] by {
            assert(cs[c].0 == next[c].0);
            if c < now.len() {
                assert(next[c] == now[c]);
            }
        }
        assert forall|c: int| 0 <= c < cs.len() implies first_pointer(
            queries@.take(k + 1),
            (#[trigger] cs[c]).0,
        ) by {
            assert(cs[c].0 == next[c].0);
            if c < now.len() {
                assert(first_pointer(queries@.take(k as int), now[c].0));
                let pointer = now[c].0;
                let i = choose|i: int|
                    0 <= i < k && (#[trigger] queries@.take(k as int)[i]).commitment == pointer
                        && forall|j: int|
                        0 <= j < i ==> (#[trigger] queries@.take(k as int)[j]).commitment.identity
                            != pointer.identity;
                assert(queries@.take(k + 1)[i].commitment == pointer);
                assert forall|j: int| 0 <= j < i implies (#[trigger] queries@.take(
                    k + 1,
                )[j]).commitment.identity != pointer.identity by {
                    assert(queries@.take(k as int)[j].commitment.identity != pointer.identity);
                }
            } else {
                assert(queries@.take(k + 1)[k as int].commitment == commitment);
                assert forall|j: int| 0 <= j < k implies (#[trigger] queries@.take(
                    k + 1,
                )[j]).commitment.identity != commitment.identity by {
                    assert(identities_of(before)[j] == queries@[j].commitment.identity);
                    assert(identities_of(before).contains(
                        queries@[j].commitment.identity as int,
                    ));
                }
            }
        }
        assert forall|c: int, i: int|
            #![trigger cs[c].1.has(i)]
            0 <= c < cs.len() && 0 <= i < points@.len() implies (cs[c].1.has(i) <==> after.contains(
            (identities(after)[c], points@[i].val()),
        )) by {
            let key = (identities(after)[c], points@[i].val());
            lemma_contains_push(before, (identity, point), key);
            lemma_distinct_positions(identities(after), c, index as int);
            lemma_distinct_positions(poly::vals(points@), i, point_index as int);
            assert(poly::vals(points@)[i] == points@[i].val());
            assert(poly::vals(points@)[point_index as int] == point);
            // What was there before.
            let had = next[c].1.has(i);
            if c < now.len() {
                assert(next[c] == now[c]);
                if i < former.len() {
                    assert(had <==> before.contains((identities(before)[c], former[i].val())));
                    assert(identities(before)[c] == identities(after)[c]);
                    assert(former[i] == points@[i]);
                } else {
                    assert(!now[c].1.has(i));
                    if before.contains(key) {
                        lemma_key_parts(before, key.0, key.1);
                    }
                }
            } else {
                assert(!had);
                if before.contains(key) {
                    lemma_key_parts(before, key.0, key.1);
                }
            }
            assert(had <==> before.contains(key));
        }
        assert forall|c: int, i: int|
            #![trigger cs[c].1.has(i)]
            0 <= c < cs.len() && points@.len() <= i < S::limit() implies !cs[c].1.has(i) by {
            if c < now.len() {
                assert(next[c] == now[c]);
                assert(!now[c].1.has(i));
            }
        }
    }
    false
}

proof fn lemma_contains_push<T>(s: Seq<T>, x: T, y: T)
    ensures
        s.push(x).contains(y) <==> s.contains(y) || x == y,
{
    let t = s.push(x);
    if s.contains(y) {
        let i = choose|i: int| 0 <= i < s.len() && s[i] == y;
        assert(t[i] == y);
    }
    if x == y {
        assert(t[s.len() as int] == y);
    }
    if t.contains(y) {
        let i = choose|i: int| 0 <= i < t.len() && t[i] == y;
        if i < s.len() {
            assert(s[i] == y);
        }
    }
}

proof fn lemma_distinct_positions(s: Seq<int>, i: int, j: int)
    requires
        s.no_duplicates(),
        0 <= i < s.len(),
        0 <= j < s.len(),
    ensures
        s[i] == s[j] <==> i == j,
{
}

/// The points whose numbers a set holds.
fn select<F: Field, S: PointSet>(points: &Vec<F>, set: &S) -> (r: Vec<F>)
    requires
        points@.len() <= S::limit(),
    ensures
        poly::vals(r@) == selected(poly::vals(points@), *set, points@.len() as int),
{
    let mut chosen: Vec<F> = Vec::new();
    let mut i: usize = 0;
    assert(poly::vals(chosen@) =~= Seq::<int>::empty());
    while i < points.len()
        invariant
            i <= points@.len(),
            points@.len() <= S::limit(),
            poly::vals(chosen@) == selected(poly::vals(points@), *set, i as int),
        decreases points@.len() - i,
    {
        if set.contains(i) {
            let ghost before = chosen@;
            chosen.push(points[i]);
            assert(poly::vals(chosen@) =~= poly::vals(before).push(points@[i as int].val()));
        }
        i += 1;
    }
    chosen
}

/// Numbers the distinct sets and lists their points.
fn number_sets<'a, C: CurveAffine, S: PointSet>(
    queries: &Vec<ProverQuery<'a, C>>,
    points: &Vec<C::ScalarExt>,
    tallies: &Vec<(PolynomialPointer<'a, C>, S)>,
) -> (r: ProverIntermediateSets<'a, C>)
    requires
        tallied(queries@, points@, tallies@),
        points@.len() <= S::limit(),
    ensures
        r.groups(queries@),
{
    let ghost ks = keys(queries@);
    let ghost all = poly::vals(points@);
    let ghost n = points@.len() as int;
    let ghost sets = Seq::new(tallies@.len(), |c: int| selected(all, tallies@[c].1, n));
    let mut commitments: Vec<(PolynomialPointer<'a, C>, usize)> = Vec::with_capacity(
        tallies.len(),
    );
    let mut masks: Vec<S> = Vec::new();
    let mut point_sets: Vec<Vec<C::ScalarExt>> = Vec::new();
    let mut c: usize = 0;
    proof {
        lemma_first_seen(points_of(ks));
        assert(sets.take(0) =~= Seq::<Seq<int>>::empty());
        assert(qprime::vec_vals(point_sets@) =~= first_seen(sets.take(0)));
    }
    while c < tallies.len()
        invariant
            c <= tallies@.len(),
            points@.len() <= S::limit(),
            all == poly::vals(points@),
            all.no_duplicates(),
            n == points@.len(),
            sets == Seq::new(tallies@.len(), |c: int| selected(all, tallies@[c].1, n)),
            forall|d: int, i: int|
                #![trigger tallies@[d].1.has(i)]
                0 <= d < tallies@.len() && n <= i < S::limit() ==> !tallies@[d].1.has(i),
            commitments@.len() == c,
            masks@.len() == point_sets@.len(),
            qprime::vec_vals(point_sets@) == first_seen(sets.take(c as int)),
            forall|m: int|
                0 <= m < masks@.len() ==> poly::vals((#[trigger] point_sets@[m])@) == selected(
                    all,
                    masks@[m],
                    n,
                ),
            forall|m: int, i: int|
                #![trigger masks@[m].has(i)]
                0 <= m < masks@.len() && n <= i < S::limit() ==> !masks@[m].has(i),
            forall|d: int|
                0 <= d < c ==> {
                    let (pointer, set) = #[trigger] commitments@[d];
                    &&& pointer == tallies@[d].0
                    &&& set < point_sets@.len()
                    &&& poly::vals(point_sets@[set as int]@) == sets[d]
                },
        decreases tallies@.len() - c,
    {
        let mask = &tallies[c].1;
        let mut m: usize = 0;
        while m < masks.len() && !masks[m].same(mask)
            invariant
                m <= masks@.len(),
                forall|j: int| 0 <= j < m ==> !agree(#[trigger] masks@[j], *mask),
            decreases masks@.len() - m,
        {
            m += 1;
        }
        let ghost here = sets[c as int];
        let ghost former = sets.take(c as int);
        let ghost listed = qprime::vec_vals(point_sets@);
        proof {
            assert(sets.take(c + 1).drop_last() =~= former);
            assert(sets.take(c + 1).last() == here);
            lemma_first_seen(former);
            assert forall|j: int| 0 <= j < masks@.len() implies (#[trigger] listed[j] == here
                <==> agree(masks@[j], *mask)) by {
                assert(listed[j] == poly::vals(point_sets@[j]@));
                lemma_selected_same(all, masks@[j], *mask);
                if forall|i: int| 0 <= i < n ==> (#[trigger] masks@[j].has(i) <==> mask.has(i)) {
                    assert forall|i: int| 0 <= i < S::limit() implies (#[trigger] masks@[j].has(i)
                        <==> mask.has(i)) by {
                        if i >= n {
                            assert(!tallies@[c as int].1.has(i));
                        }
                    }
                }
            }
        }
        if m == masks.len() {
            proof {
                if former.contains(here) {
                    assert(listed.contains(here));
                    let j = choose|j: int| 0 <= j < listed.len() && listed[j] == here;
                    assert(listed[j] == here);
                }
            }
            let chosen = select(points, mask);
            let ghost lists = point_sets@;
            let ghost flags = masks@;
            masks.push(mask.copy());
            point_sets.push(chosen);
            proof {
                assert(qprime::vec_vals(point_sets@) =~= listed.push(here));
                lemma_selected_equal(all, masks@[m as int], *mask, n);
                assert forall|j: int, i: int|
                    #![trigger masks@[j].has(i)]
                    0 <= j < masks@.len() && n <= i < S::limit() implies !masks@[j].has(i) by {
                    if j < m {
                        assert(masks@[j] == flags[j]);
                    } else {
                        assert(!tallies@[c as int].1.has(i));
                    }
                }
            }
        } else {
            proof {
                assert(listed[m as int] == here);
                assert(listed.contains(here));
            }
        }
        commitments.push((tallies[c].0, m));
        c += 1;
    }
    proof {
        assert(sets.take(c as int) =~= sets);
        let ids = identities(ks);
        assert forall|d: int| 0 <= d < sets.len() implies #[trigger] sets[d] == point_set(
            ks,
            ids[d],
        ) by {
            let keep = |x: int| ks.contains((ids[d], x));
            assert forall|i: int| 0 <= i < all.len() implies (tallies@[d].1.has(i) <==> keep(
                #[trigger] all[i],
            )) by {
                assert(all[i] == points@[i].val());
            }
            lemma_selected_filter(all, tallies@[d].1, keep, n);
            assert(all.take(n) =~= all);
        }
        assert(sets =~= Seq::new(ids.len(), |d: int| point_set(ks, ids[d])));
    }
    let r = ProverIntermediateSets { commitments, point_sets };
    proof {
        assert forall|d: int| 0 <= d < r.commitments@.len() implies {
            let (pointer, set) = #[trigger] r.commitments@[d];
            &&& pointer.identity == identities(ks)[d]
            &&& first_pointer(queries@, pointer)
            &&& set < r.point_sets@.len()
            &&& poly::vals(r.point_sets@[set as int]@) == point_set(ks, identities(ks)[d])
        } by {
            assert(tallies@[d].0.identity == identities(ks)[d]);
            assert(sets[d] == point_set(ks, identities(ks)[d]));
        }
    }
    r
}

/// What the queries come to where at most `limit` points can be held.
pub open spec fn grouped<'a, C: CurveAffine>(
    result: ProverIntermediateSetsResult<'a, C>,
    queries: Seq<ProverQuery<'a, C>>,
    limit: int,
) -> bool {
    let ks = keys(queries);
    match result {
        ProverIntermediateSetsResult::TooManyPoints => exists|k: int|
            0 <= k < ks.len() && #[trigger] too_many(ks, k, limit) && forall|j: int|
                0 <= j <= k ==> !(#[trigger] repeats(ks, j)),
        ProverIntermediateSetsResult::Complete(None) => ks.len() == 0 || exists|k: int|
            0 <= k < ks.len() && #[trigger] repeats(ks, k) && forall|j: int|
                0 <= j <= k ==> !(#[trigger] too_many(ks, j, limit)),
        ProverIntermediateSetsResult::Complete(Some(sets)) => {
            &&& ks.len() > 0
            &&& forall|k: int| 0 <= k < ks.len() ==> !(#[trigger] repeats(ks, k))
            &&& forall|k: int| 0 <= k < ks.len() ==> !(#[trigger] too_many(ks, k, limit))
            &&& sets.groups(queries)
        },
    }
}

/// Groups queries, with the sets of points held as `S`.
fn group_queries<'a, C: CurveAffine, S: PointSet>(queries: &Vec<ProverQuery<'a, C>>) -> (r:
    ProverIntermediateSetsResult<'a, C>)
    ensures
        grouped(r, queries@, S::limit()),
{
    let ghost ks = keys(queries@);
    let limit: usize = S::capacity();
    let mut points: Vec<C::ScalarExt> = Vec::new();
    let mut commitments: Vec<(PolynomialPointer<'a, C>, S)> = Vec::new();
    let mut k: usize = 0;
    proof {
        assert(keys(queries@.take(0)) =~= Seq::<(int, int)>::empty());
        assert(points_of(keys(queries@.take(0))) =~= Seq::<int>::empty());
        assert(identities_of(keys(queries@.take(0))) =~= Seq::<int>::empty());
        assert(poly::vals(points@) =~= Seq::<int>::empty());
    }
    while k < queries.len()
        invariant
            k <= queries@.len(),
            ks == keys(queries@),
            limit == S::limit(),
            points@.len() <= limit,
            tallied(queries@.take(k as int), points@, commitments@),
            forall|j: int| 0 <= j < k ==> !(#[trigger] repeats(ks, j)),
            forall|j: int| 0 <= j < k ==> !(#[trigger] too_many(ks, j, limit as int)),
        decreases queries@.len() - k,
    {
        let query = queries[k];
        let ghost former = points@;
        proof {
            lemma_tally_keys(queries@, k as int);
            assert(poly::vals(former) == self::points(keys(queries@.take(k as int))));
        }
        let point_index: usize = match position(&points, query.get_point()) {
            Some(i) => i,
            None => {
                if points.len() == limit {
                    proof {
                        assert(too_many(ks, k as int, limit as int));
                        assert(!repeats(ks, k as int)) by {
                            if repeats(ks, k as int) {
                                lemma_key_parts(
                                    keys(queries@.take(k as int)),
                                    ks[k as int].0,
                                    ks[k as int].1,
                                );
                            }
                        }
                        assert forall|j: int| 0 <= j <= k implies !(#[trigger] repeats(ks, j)) by {}
                    }
                    return ProverIntermediateSetsResult::TooManyPoints;
                }
                points.push(query.get_point());
                points.len() - 1
            },
        };
        proof {
            assert(!too_many(ks, k as int, limit as int)) by {
                if poly::vals(former).contains(query.point.val()) {
                    assert(points@ == former);
                } else {
                    assert(poly::vals(points@).len() <= limit);
                }
            }
        }
        if tally(queries, k, point_index, &points, &mut commitments, Ghost(former)) {
            proof {
                assert forall|j: int| 0 <= j <= k implies !(#[trigger] too_many(
                    ks,
                    j,
                    limit as int,
                )) by {}
            }
            return ProverIntermediateSetsResult::Complete(None);
        }
        k += 1;
    }
    assert(queries@.take(k as int) =~= queries@);
    if commitments.len() == 0 {
        proof {
            if ks.len() > 0 {
                lemma_first_seen(identities_of(ks));
                assert(identities_of(ks).contains(identities_of(ks)[0]));
                assert(identities(ks).contains(identities_of(ks)[0]));
            }
        }
        return ProverIntermediateSetsResult::Complete(None);
    }
    proof {
        if ks.len() == 0 {
            assert(identities_of(ks) =~= Seq::<int>::empty());
        }
    }
    ProverIntermediateSetsResult::Complete(Some(number_sets(queries, &points, &commitments)))
}

/// Groups the queries' polynomials by the points that they are opened at, where no more
/// points are met than a word has bits.
pub fn construct_prover_intermediate_sets<'a, C: CurveAffine>(
    queries: &Vec<ProverQuery<'a, C>>,
) -> (r: ProverIntermediateSetsResult<'a, C>)
    ensures
        grouped(r, queries@, usize::BITS as int),
{
    let r = group_queries::<C, PointMask>(queries);
    assert(PointMask::limit() == usize::BITS as int);
    r
}

/// Groups the queries' polynomials by the points that they are opened at. There is
/// nothing where there are no queries, or where two are the same.
pub fn construct_intermediate_sets<'a, C: CurveAffine>(queries: &Vec<ProverQuery<'a, C>>) -> (r:
    Option<ProverIntermediateSets<'a, C>>)
    ensures
        r is None <==> queries@.len() == 0 || exists|k: int|
            0 <= k < queries@.len() && #[trigger] repeats(keys(queries@), k),
        r matches Some(sets) ==> sets.groups(queries@),
{
    let ghost ks = keys(queries@);
    let total: usize = queries.len();
    let r = group_queries::<C, PointFlags>(queries);
    proof {
        assert(PointFlags::limit() == usize::MAX as int);
        assert forall|k: int| 0 <= k < ks.len() implies !(#[trigger] too_many(
            ks,
            k,
            usize::MAX as int,
        )) by {
            lemma_first_seen(points_of(ks.take(k + 1)));
        }
    }
    match r {
        ProverIntermediateSetsResult::Complete(sets) => sets,
        ProverIntermediateSetsResult::TooManyPoints => None,
    }
}

/// The groups of the queries, or nothing where there are no queries or two are the same.
pub fn intermediate_sets<'a, C: CurveAffine>(queries: &Vec<ProverQuery<'a, C>>) -> (r: Option<
    ProverIntermediateSets<'a, C>,
>)
    ensures
        r is None <==> queries@.len() == 0 || exists|k: int|
            0 <= k < queries@.len() && #[trigger] repeats(keys(queries@), k),
        r matches Some(sets) ==> sets.groups(queries@),
{
    match construct_prover_intermediate_sets(queries) {
        ProverIntermediateSetsResult::Complete(sets) => sets,
        ProverIntermediateSetsResult::TooManyPoints => construct_intermediate_sets(queries),
    }
}

} // verus!
