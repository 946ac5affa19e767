//! Commitments to polynomials.
use crate::arith;
use crate::basis::current_num_threads;
use crate::blind::Blind;
use crate::curve;
use crate::curve::CurveAffine;
use crate::dft;
use crate::field::Field;
use crate::multiexp;
use crate::multiexp::best_multiexp;
use crate::instance::{
    PREPARED_INSTANCE_BOOLEAN_ROWS, PREPARED_INSTANCE_DENSE_ROWS, PreparedInstanceTable,
};
use crate::params;
use crate::params::{
    APPLE_PREPARED_COMMITMENT_MAX_THREADS, APPLE_TEN_WORKER_PREPARED_COMMITMENT_K,
    PREPARED_MSM_MAX_THREADS, Params, Platform,
};
use crate::shared::Holds;
use crate::poly;
use crate::poly::{Coeff, LagrangeCoeff, Polynomial, copy_values};
use crate::tables;
use crate::tables::{FixedBasePairTable, PREPARED_SPARSE_COMMITMENT_K, SparseCommitmentTable};
use crate::transform;
use vstd::arithmetic::mul::*;
use vstd::arithmetic::power::*;
use vstd::arithmetic::power2::*;
use std::sync::Arc;
use vstd::prelude::*;

verus! {

/// The largest parameters whose tables are within their footprint.
pub const MAX_PREPARED_COMMITMENT_K: u32 = 12;

/// The widest measured pool for prepared prover commitments at `k`.
pub open spec fn widest_pool(platform: Platform, k: u32) -> int {
    if platform is AArch64MacOs && k == APPLE_TEN_WORKER_PREPARED_COMMITMENT_K {
        APPLE_PREPARED_COMMITMENT_MAX_THREADS as int
    } else {
        PREPARED_MSM_MAX_THREADS as int
    }
}

/// The widest measured pool for prepared prover commitments at `k`. Unmeasured shapes
/// keep the verifier's conservative bound.
pub fn prepared_commitment_max_threads(platform: Platform, k: u32) -> (r: usize)
    ensures
        r == widest_pool(platform, k),
{
    if platform == Platform::AArch64MacOs && k == APPLE_TEN_WORKER_PREPARED_COMMITMENT_K {
        return APPLE_PREPARED_COMMITMENT_MAX_THREADS;
    }
    PREPARED_MSM_MAX_THREADS
}

/// A copy of points.
pub fn copy_points<C: CurveAffine>(points: &Vec<C>) -> (r: Vec<C>)
    ensures
        r@ == points@,
{
    let mut r: Vec<C> = Vec::with_capacity(points.len());
    let mut i: usize = 0;
    while i < points.len()
        invariant
            i <= points@.len(),
            r@ == points@.take(i as int),
        decreases points@.len() - i,
    {
        r.push(points[i]);
        i += 1;
        assert(r@ =~= points@.take(i as int));
    }
    assert(points@.take(i as int) =~= points@);
    r
}

/// How often a value occurs.
pub open spec fn occurrences(s: Seq<int>, x: int) -> int
    decreases s.len(),
{
    if s.len() == 0 {
        0
    } else {
        occurrences(s.drop_last(), x) + (if s.last() == x {
            1int
        } else {
            0
        })
    }
}

/// The values with a value among the first `k` taken out.
spec fn masked(v: Seq<int>, x: int, k: int) -> Seq<int> {
    Seq::new(
        v.len(),
        |i: int|
            if i < k && v[i] == x {
                0
            } else {
                v[i]
            },
    )
}

/// The sum of the bases of the rows that hold a value, among the first `k`.
spec fn row_sum(v: Seq<int>, x: int, bases: Seq<int>, k: int) -> int
    decreases k,
{
    if k <= 0 {
        0
    } else {
        row_sum(v, x, bases, k - 1) + (if v[k - 1] == x {
            bases[k - 1]
        } else {
            0
        })
    }
}

pub proof fn lemma_dot_update(a: Seq<int>, i: int, t: int, b: Seq<int>)
    requires
        0 <= i < a.len(),
        a.len() <= b.len(),
    ensures
        multiexp::dot(a.update(i, t), b) == multiexp::dot(a, b) + (t - a[i]) * b[i],
    decreases a.len(),
{
    let n = a.len() - 1;
    if i == n {
        assert(a.update(i, t).drop_last() =~= a.drop_last());
        let (u, v) = (a[i], b[i]);
        assert(t * v == u * v + (t - u) * v) by (nonlinear_arith);
    } else {
        lemma_dot_update(a.drop_last(), i, t, b);
        assert(a.update(i, t).drop_last() =~= a.drop_last().update(i, t));
    }
}

/// The multiples of a value are one multiple of a sum.
proof fn lemma_masked(v: Seq<int>, x: int, bases: Seq<int>, k: int)
    requires
        0 <= k <= v.len(),
        v.len() <= bases.len(),
    ensures
        multiexp::dot(v, bases) == multiexp::dot(masked(v, x, k), bases) + x * row_sum(v, x, bases, k),
    decreases k,
{
    if k == 0 {
        assert(masked(v, x, 0) =~= v);
        lemma_mul_basics(x);
    } else {
        lemma_masked(v, x, bases, k - 1);
        let m = masked(v, x, k - 1);
        let r = row_sum(v, x, bases, k - 1);
        if v[k - 1] == x {
            assert(masked(v, x, k) =~= m.update(k - 1, 0));
            lemma_dot_update(m, k - 1, 0, bases);
            let b = bases[k - 1];
            assert(x * (r + b) == x * r + x * b) by (nonlinear_arith);
            assert((0 - x) * b == -(x * b)) by (nonlinear_arith);
        } else {
            assert(masked(v, x, k) =~= m);
        }
    }
}

/// The value at a point of a polynomial given by some of its coefficients.
pub open spec fn sparse_at<F: Field>(terms: Seq<(usize, F)>, x: int) -> int
    decreases terms.len(),
{
    if terms.len() == 0 {
        0
    } else {
        let (index, coefficient) = terms.last();
        sparse_at(terms.drop_last(), x) + coefficient.val() * pow(x, index as nat)
    }
}

/// The sum of multiples of generators.
pub open spec fn sparse_dot<F: Field>(terms: Seq<(usize, F)>, bases: Seq<int>) -> int
    decreases terms.len(),
{
    if terms.len() == 0 {
        0
    } else {
        let (index, coefficient) = terms.last();
        sparse_dot(terms.drop_last(), bases) + coefficient.val() * bases[index as int]
    }
}

/// The exponent of a power of two.
fn exponent_of(index: usize) -> (r: Option<u32>)
    ensures
        r matches Some(e) ==> e < 64 && index == pow2(e as nat),
        r is None ==> forall|e: nat| #[trigger] pow2(e) != index,
{
    let mut e: u32 = 0;
    let mut power: usize = 1;
    proof {
        lemma2_to64();
    }
    while power < index
        invariant
            e < 64,
            power == pow2(e as nat),
            forall|d: nat| d < e ==> #[trigger] pow2(d) != index,
        decreases 64 - e,
    {
        proof {
            lemma_pow2_unfold((e + 1) as nat);
            lemma_pow2_pos(e as nat);
        }
        match power.checked_mul(2) {
            Some(next) => {
                proof {
                    if e + 1 >= 64 {
                        lemma2_to64();
                        assert(pow2(64) > usize::MAX);
                    }
                }
                power = next;
            },
            None => {
                proof {
                    assert forall|d: nat| #[trigger] pow2(d) != index by {
                        if d > e {
                            if d > e + 1 {
                                lemma_pow2_strictly_increases((e + 1) as nat, d);
                            }
                        }
                    }
                }
                return None;
            },
        }
        e += 1;
    }
    if power == index {
        Some(e)
    } else {
        proof {
            assert forall|d: nat| #[trigger] pow2(d) != index by {
                if d > e {
                    lemma_pow2_strictly_increases(e as nat, d);
                }
            }
        }
        None
    }
}

/// The tables that are prepared for the prover's commitments.
pub struct HeldTables<C: CurveAffine> {
    pub fixed_bases: Arc<FixedBasePairTable<C>>,
    pub instance: Option<Arc<PreparedInstanceTable<C>>>,
    pub sparse: Option<Arc<SparseCommitmentTable<C>>>,
}

impl<C: CurveAffine> Params<C> {
    /// The blinded sum of multiples of the bases. Where tables are prepared and the pool
    /// is narrow, the blind's multiple comes from them.
    fn blinded_sum(&self, scalars: &Vec<C::ScalarExt>, bases: &Vec<C>, r: Blind<C::ScalarExt>) -> (s:
        C)
        requires
            self.wf(),
            scalars@.len() == bases@.len(),
            bases@.len() < usize::MAX,
            curve::all_on_curve(bases@),
        ensures
            s.on_curve(),
            curve::log(s) == (multiexp::dot(poly::vals(scalars@), curve::logs(bases@)) + r.0.val() * curve::log(self.w))
                % C::ScalarExt::order(),
    {
        let ghost q = C::ScalarExt::order();
        let ghost (a, b) = (poly::vals(scalars@), curve::logs(bases@));
        let ghost blind = r.0.val() * curve::log(self.w);
        proof {
            C::ScalarExt::lemma_order();
        }
        if current_num_threads() <= prepared_commitment_max_threads(self.platform, self.k) {
            if let Some(fixed_bases) = self.fixed_base_table() {
                let commitment = best_multiexp(scalars.as_slice(), bases.as_slice());
                let by_blind = fixed_bases.multiply_blind(r.0);
                proof {
                    assert(seq![self.w, self.u][0] == self.w);
                    lemma_mul_is_commutative(curve::log(self.w), r.0.val());
                    arith::lemma_mod_add(multiexp::dot(a, b), blind, q);
                }
                return commitment.add(by_blind);
            }
        }
        let mut tmp_scalars = copy_values(scalars.as_slice());
        let mut tmp_bases = copy_points(bases);
        tmp_scalars.push(r.0);
        tmp_bases.push(self.w);
        proof {
            assert(poly::vals(tmp_scalars@) =~= a.push(r.0.val()));
            assert(curve::logs(tmp_bases@) =~= b.push(curve::log(self.w)));
            multiexp::lemma_dot_push(a, b, r.0.val(), curve::log(self.w));
        }
        best_multiexp(tmp_scalars.as_slice(), tmp_bases.as_slice())
    }

    /// This computes a commitment to a polynomial described by the provided slice of
    /// coefficients. The commitment will be blinded by the blinding factor `r`.
    pub fn commit(&self, poly: &Polynomial<C::ScalarExt, Coeff>, r: Blind<C::ScalarExt>) -> (s: C)
        requires
            self.wf(),
            poly.values@.len() == self.n,
        ensures
            s.on_curve(),
            curve::log(s) == self.committed(poly::vals(poly.values@), r.0.val()),
    {
        proof {
            lemma2_to64();
            lemma_pow2_strictly_increases(self.k as nat, 32);
        }
        self.blinded_sum(&poly.values, &self.g, r)
    }

    /// This commits to a polynomial using its evaluations over the $2^k$ size evaluation
    /// domain. The commitment will be blinded by the blinding factor `r`.
    pub fn commit_lagrange(
        &self,
        poly: &Polynomial<C::ScalarExt, LagrangeCoeff>,
        r: Blind<C::ScalarExt>,
    ) -> (s: C)
        requires
            self.wf(),
            poly.values@.len() == self.n,
        ensures
            s.on_curve(),
            curve::log(s) == self.committed_lagrange(poly::vals(poly.values@), r.0.val()),
    {
        proof {
            lemma2_to64();
            lemma_pow2_strictly_increases(self.k as nat, 32);
        }
        self.blinded_sum(&poly.values, &self.g_lagrange, r)
    }

    /// The sum of some rows' bases.
    fn sum_rows(&self, rows: &Vec<usize>, from: usize, to: usize) -> (r: C)
        requires
            self.wf(),
            from <= to <= rows@.len(),
            forall|i: int| 0 <= i < rows@.len() ==> #[trigger] rows@[i] < self.g_lagrange@.len(),
        ensures
            r.on_curve(),
            curve::log(r) == rows_sum(curve::logs(self.g_lagrange@), rows@.subrange(from as int, to as int))
                % C::ScalarExt::order(),
    {
        let ghost q = C::ScalarExt::order();
        let ghost bases = curve::logs(self.g_lagrange@);
        let mut sum = C::identity();
        let mut i: usize = from;
        proof {
            C::ScalarExt::lemma_order();
            assert(rows@.subrange(from as int, i as int) =~= Seq::<usize>::empty());
            arith::lemma_mod_small(0, q);
        }
        while i < to
            invariant
                from <= i <= to <= rows@.len(),
                self.wf(),
                q == C::ScalarExt::order(),
                q > 2,
                bases == curve::logs(self.g_lagrange@),
                forall|j: int|
                    0 <= j < rows@.len() ==> #[trigger] rows@[j] < self.g_lagrange@.len(),
                sum.on_curve(),
                curve::log(sum) == rows_sum(bases, rows@.subrange(from as int, i as int)) % q,
            decreases to - i,
        {
            let row: usize = rows[i];
            assert(self.g_lagrange@[row as int].on_curve());
            let base = self.g_lagrange[row];
            proof {
                let s = rows@.subrange(from as int, i as int);
                assert(rows@.subrange(from as int, i + 1) =~= s.push(row));
                assert(s.push(row).drop_last() =~= s);
                arith::lemma_mod_add(rows_sum(bases, s), curve::log(base), q);
                base.lemma_point();
            }
            sum = sum.add(base);
            i += 1;
        }
        sum
    }

    /// Whether the rows hold a value just as often as given, and there is a table, on a pool
    /// that is not too wide.
    pub open spec fn factors(
        &self,
        prepared: bool,
        thread_count: int,
        values: Seq<int>,
        q_0: int,
        q_0_count: int,
        usable_rows: int,
    ) -> bool {
        &&& thread_count <= widest_pool(self.platform, self.k)
        &&& prepared
        &&& values.len() == self.n
        &&& 0 < q_0_count <= usable_rows <= self.n
        &&& q_0 != 0
        &&& occurrences(values.take(usable_rows), q_0) == q_0_count
    }

    /// The commitment to evaluations of which many hold the same value, with that
    /// value's multiples factored into one. There is nothing where the value does not
    /// occur as often as given, or without tables: `prepared` says whether they are there.
    pub fn commit_sinsemilla_table(
        &self,
        prepared: bool,
        thread_count: usize,
        poly: &Polynomial<C::ScalarExt, LagrangeCoeff>,
        r: Blind<C::ScalarExt>,
        q_0: C::ScalarExt,
        q_0_count: usize,
        usable_rows: usize,
    ) -> (s: Option<C>)
        requires
            self.wf(),
        ensures
            s is Some <==> self.factors(
                prepared,
                thread_count as int,
                poly::vals(poly.values@),
                q_0.val(),
                q_0_count as int,
                usable_rows as int,
            ),
            s matches Some(commitment) ==> commitment.on_curve() && curve::log(commitment)
                == self.committed_lagrange(poly::vals(poly.values@), r.0.val()),
    {
        let ghost q = C::ScalarExt::order();
        let ghost v = poly::vals(poly.values@);
        let ghost bases = curve::logs(self.g_lagrange@);
        let ghost x = q_0.val();
        proof {
            C::ScalarExt::lemma_order();
            lemma2_to64();
            lemma_pow2_strictly_increases(self.k as nat, 32);
        }
        if thread_count > prepared_commitment_max_threads(self.platform, self.k) || !prepared {
            return None;
        }
        let n: usize = self.n as usize;
        if poly.values.len() != n || q_0_count == 0 || q_0_count > usable_rows || usable_rows > n
            || q_0.is_zero() {
            return None;
        }
        let mut remaining = copy_values(poly.values.as_slice());
        let mut q_0_rows: Vec<usize> = Vec::new();
        let mut row: usize = 0;
        proof {
            assert(v.take(0) =~= Seq::<int>::empty());
            assert(poly::vals(remaining@) =~= masked(v, x, 0));
        }
        while row < usable_rows
            invariant
                row <= usable_rows <= n,
                n == poly.values@.len(),
                n == self.g_lagrange@.len(),
                v == poly::vals(poly.values@),
                x == q_0.val(),
                bases == curve::logs(self.g_lagrange@),
                remaining@.len() == n,
                poly::vals(remaining@) == masked(v, x, row as int),
                q_0_rows@.len() == occurrences(v.take(row as int), x),
                q_0_rows@.len() <= row,
                forall|i: int| 0 <= i < q_0_rows@.len() ==> #[trigger] q_0_rows@[i] < n,
                rows_sum(bases, q_0_rows@) == row_sum(v, x, bases, row as int),
            decreases usable_rows - row,
        {
            proof {
                assert(v.take(row + 1).drop_last() =~= v.take(row as int));
                assert(poly::vals(remaining@)[row as int] == masked(v, x, row as int)[row as int]);
            }
            let ghost before = remaining@;
            if remaining[row].equals(&q_0) {
                let ghost rows = q_0_rows@;
                remaining[row] = C::ScalarExt::zero();
                q_0_rows.push(row);
                assert(q_0_rows@.drop_last() =~= rows);
            }
            proof {
                let (m, next) = (masked(v, x, row as int), masked(v, x, row + 1));
                assert forall|i: int| 0 <= i < n implies poly::vals(remaining@)[i] == next[i] by {
                    assert(poly::vals(before)[i] == m[i]);
                    if i != row {
                        assert(remaining@[i] == before[i]);
                    }
                }
                assert(poly::vals(remaining@) =~= next);
            }
            row += 1;
        }
        if q_0_rows.len() != q_0_count {
            return None;
        }
        // The rows are summed in two halves.
        let midpoint: usize = q_0_rows.len() - q_0_rows.len() / 2;
        let left = self.sum_rows(&q_0_rows, 0, midpoint);
        let right = self.sum_rows(&q_0_rows, midpoint, q_0_rows.len());
        let selected_sum = left.add(right);
        let correction = selected_sum.mul(q_0);
        let rest = self.blinded_sum(&remaining, &self.g_lagrange, r);
        proof {
            let rows = q_0_rows@;
            let (a, b) = (
                rows.subrange(0, midpoint as int),
                rows.subrange(midpoint as int, rows.len() as int),
            );
            assert(a + b =~= rows);
            lemma_rows_sum(bases, a, b);
            arith::lemma_mod_add(rows_sum(bases, a), rows_sum(bases, b), q);
            let t = rows_sum(bases, rows);
            arith::lemma_mod_mul(t, x, q);
            lemma_mul_is_commutative(t, x);
            lemma_masked(v, x, bases, usable_rows as int);
            let d = multiexp::dot(masked(v, x, usable_rows as int), bases) + r.0.val() * curve::log(self.w);
            arith::lemma_mod_add(d, x * t, q);
        }
        Some(rest.add(correction))
    }

    /// Attempts the dedicated commitment for a permuted lookup table, in which one value
    /// is repeated. Whether the tables are there, and how many threads the pool has, is as
    /// it is found.
    pub fn try_commit_sinsemilla_table(
        &self,
        poly: &Polynomial<C::ScalarExt, LagrangeCoeff>,
        r: Blind<C::ScalarExt>,
        q_0: C::ScalarExt,
        q_0_count: usize,
        usable_rows: usize,
    ) -> (s: Option<C>)
        requires
            self.wf(),
        ensures
            s matches Some(commitment) ==> commitment.on_curve() && curve::log(commitment)
                == self.committed_lagrange(poly::vals(poly.values@), r.0.val()),
            s is Some ==> self.k <= MAX_PREPARED_COMMITMENT_K && self.factors(
                true,
                0,
                poly::vals(poly.values@),
                q_0.val(),
                q_0_count as int,
                usable_rows as int,
            ),
    {
        let prepared = self.fixed_base_table().is_some();
        self.commit_sinsemilla_table(
            prepared,
            current_num_threads(),
            poly,
            r,
            q_0,
            q_0_count,
            usable_rows,
        )
    }

    /// Getter for g generators
    pub fn get_g(&self) -> (r: Vec<C>)
        ensures
            r@ == self.g@,
    {
        copy_points(&self.g)
    }

    /// Get the circuit size parameter k
    pub fn k(&self) -> (r: u32)
        ensures
            r == self.k,
    {
        self.k
    }

    /// Prepared zero checks need a backend that is not built in: nothing is prepared.
    pub fn prepare_zero_checks(&self) -> (r: bool)
        ensures
            !r,
    {
        false
    }

    /// The table of sparse commitments, for parameters of the one size that has it.
    pub fn sparse_commitment_table(&self) -> (r: Option<SparseCommitmentTable<C>>)
        requires
            self.wf(),
        ensures
            r is Some <==> self.k == PREPARED_SPARSE_COMMITMENT_K,
            r matches Some(table) ==> self.sparse_commitment.rule().holds(table),
    {
        if self.k != PREPARED_SPARSE_COMMITMENT_K {
            return None;
        }
        let mut bases: Vec<C> = Vec::with_capacity(self.k as usize + 2);
        let mut exponent: u32 = 0;
        let mut index: usize = 1;
        proof {
            lemma2_to64();
            assert(self.g@[0].on_curve());
        }
        bases.push(self.g[0]);
        while exponent < self.k
            invariant
                self.wf(),
                self.k == 11,
                exponent <= self.k,
                index == pow2(exponent as nat),
                bases@.len() == exponent + 1,
                curve::all_on_curve(bases@),
                forall|i: int|
                    0 <= i < bases@.len() ==> #[trigger] bases@[i] == self.sparse_bases()[i],
            decreases self.k - exponent,
        {
            proof {
                lemma2_to64();
                lemma_pow2_strictly_increases(exponent as nat, 11);
                lemma_pow2_unfold((exponent + 1) as nat);
                assert(self.g@[index as int].on_curve());
            }
            bases.push(self.g[index]);
            index = index * 2;
            exponent += 1;
        }
        bases.push(self.w);
        assert(bases@ =~= self.sparse_bases());
        Some(SparseCommitmentTable::new(bases))
    }

    /// Builds the table of sparse commitments, unless it is there, and returns the one that
    /// is there.
    pub fn held_sparse_commitment_table(&self) -> (r: Option<Arc<SparseCommitmentTable<C>>>)
        requires
            self.wf(),
        ensures
            r is Some <==> self.k == PREPARED_SPARSE_COMMITMENT_K,
            r matches Some(table) ==> self.sparse_commitment.rule().holds(*table),
    {
        match self.sparse_commitment.get() {
            Some(table) => Some(table),
            None => match self.sparse_commitment_table() {
                Some(table) => Some(self.sparse_commitment.put(table)),
                None => None,
            },
        }
    }

    /// Prepares the table of sparse commitments, for all clones. Returns whether the
    /// parameters are of the one size that has it. That later calls find the table rests on
    /// the lock that holds it, and is not stated.
    pub fn prepare_sparse_commitment(&self) -> (r: bool)
        requires
            self.wf(),
        ensures
            r <==> self.k == PREPARED_SPARSE_COMMITMENT_K,
    {
        self.held_sparse_commitment_table().is_some()
    }

    /// Builds the prepared tables for the prover's commitments, unless they are there, and
    /// returns those that are there. Larger parameters do without.
    pub fn held_tables(&self) -> (r: Option<HeldTables<C>>)
        requires
            self.wf(),
        ensures
            r is Some <==> self.k <= MAX_PREPARED_COMMITMENT_K,
            r matches Some(tables) ==> {
                &&& self.fixed_bases.rule().holds(*tables.fixed_bases)
                &&& tables.instance is Some <==> PREPARED_INSTANCE_DENSE_ROWS
                    + PREPARED_INSTANCE_BOOLEAN_ROWS <= self.n
                &&& tables.instance matches Some(table)
                    ==> self.prepared_instance.rule().holds(*table)
                &&& tables.sparse is Some <==> self.k == PREPARED_SPARSE_COMMITMENT_K
                &&& tables.sparse matches Some(table) ==> self.sparse_commitment.rule().holds(
                    *table,
                )
            },
    {
        if self.k > MAX_PREPARED_COMMITMENT_K {
            return None;
        }
        let fixed_bases = match self.fixed_bases.get() {
            Some(table) => table,
            None => self.fixed_bases.put(FixedBasePairTable::new(self.w, self.u)),
        };
        let instance = self.held_instance_table();
        let sparse = self.held_sparse_commitment_table();
        Some(HeldTables { fixed_bases, instance, sparse })
    }

    /// Builds the prepared tables for the prover's commitments, which all clones share.
    /// Returns whether they are there: larger parameters do without. That later calls find
    /// the tables rests on the locks that hold them, and is not stated.
    pub fn prepare_commitments(&self) -> (r: bool)
        requires
            self.wf(),
        ensures
            r <==> self.k <= MAX_PREPARED_COMMITMENT_K,
    {
        self.held_tables().is_some()
    }

    /// The prepared table of `w` and `u`, which all clones share.
    pub fn fixed_base_table(&self) -> (r: Option<Arc<FixedBasePairTable<C>>>)
        ensures
            r matches Some(table) ==> self.fixed_bases.rule().holds(*table),
    {
        self.fixed_bases.get()
    }

    /// Whether the terms are of the constant and of powers of two below the size.
    pub open spec fn maskable(&self, terms: Seq<(usize, C::ScalarExt)>) -> bool {
        forall|i: int|
            0 <= i < terms.len() ==> (#[trigger] terms[i]).0 == 0 || exists|e: nat|
                e < self.k && #[trigger] pow2(e) == terms[i].0
    }

    /// The commitment to a sparse polynomial from the prepared table. There is nothing
    /// without the table, or where a term is of another generator.
    pub fn commit_sparse(
        &self,
        coefficients: &Vec<(usize, C::ScalarExt)>,
        blind: Blind<C::ScalarExt>,
    ) -> (r: Option<C>)
        requires
            self.wf(),
        ensures
            r is Some ==> self.k == PREPARED_SPARSE_COMMITMENT_K && self.maskable(coefficients@),
            r matches Some(commitment) ==> commitment.on_curve() && curve::log(commitment) == (sparse_dot(
                coefficients@,
                curve::logs(self.g@),
            ) + blind.0.val() * curve::log(self.w)) % C::ScalarExt::order(),
    {
        self.commit_sparse_with(self.sparse_commitment.get(), coefficients, blind)
    }

    /// The same from the given table.
    pub fn commit_sparse_with(
        &self,
        table: Option<Arc<SparseCommitmentTable<C>>>,
        coefficients: &Vec<(usize, C::ScalarExt)>,
        blind: Blind<C::ScalarExt>,
    ) -> (r: Option<C>)
        requires
            self.wf(),
            table matches Some(held) ==> self.sparse_commitment.rule().holds(*held),
        ensures
            r is Some <==> table is Some && self.maskable(coefficients@),
            r matches Some(commitment) ==> commitment.on_curve() && curve::log(commitment) == (sparse_dot(
                coefficients@,
                curve::logs(self.g@),
            ) + blind.0.val() * curve::log(self.w)) % C::ScalarExt::order(),
    {
        match table {
            None => None,
            Some(table) => {
                let ghost bases = self.sparse_bases();
                let ghost ls = curve::logs(self.g@);
                let mut terms: Vec<(usize, C::ScalarExt)> = Vec::new();
                let mut i: usize = 0;
                proof {
                    assert(coefficients@.take(0) =~= Seq::<(usize, C::ScalarExt)>::empty());
                    lemma2_to64();
                    lemma_pow2_strictly_increases(self.k as nat, 32);
                }
                while i < coefficients.len()
                    invariant
                        i <= coefficients@.len(),
                        self.wf(),
                        bases == self.sparse_bases(),
                        ls == curve::logs(self.g@),
                        terms@.len() == i,
                        tables::in_table(bases, terms@),
                        tables::sparse_sum(bases, terms@) == sparse_dot(coefficients@.take(i as int), ls),
                        forall|j: int|
                            0 <= j < i ==> (#[trigger] coefficients@[j]).0 == 0 || exists|e: nat|
                                e < self.k && #[trigger] pow2(e) == coefficients@[j].0,
                    decreases coefficients@.len() - i,
                {
                    let (index, coefficient) = coefficients[i];
                    let table_index: usize = if index == 0 {
                        0
                    } else {
                        match exponent_of(index) {
                            Some(exponent) => {
                                if exponent >= self.k {
                                    proof {
                                        assert(coefficients@[i as int].0 == index);
                                        assert forall|e: nat| e < self.k implies #[trigger] pow2(e)
                                            != index by {
                                            lemma_pow2_strictly_increases(e, exponent as nat);
                                        }
                                    }
                                    return None;
                                }
                                exponent as usize + 1
                            },
                            None => {
                                assert(coefficients@[i as int].0 == index);
                                return None;
                            },
                        }
                    };
                    let ghost before = terms@;
                    terms.push((table_index, coefficient));
                    proof {
                        assert(terms@.drop_last() =~= before);
                        assert(coefficients@.take(i + 1).drop_last() =~= coefficients@.take(
                            i as int,
                        ));
                        let (a, b) = (curve::log(bases[table_index as int]), coefficient.val());
                        if index != 0 {
                            lemma_pow2_strictly_increases((table_index - 1) as nat, self.k as nat);
                        } else {
                            lemma_pow2_pos(self.k as nat);
                        }
                        assert(bases[table_index as int] == self.g@[index as int]);
                        lemma_mul_is_commutative(a, b);
                    }
                    i += 1;
                }
                let ghost before = terms@;
                terms.push((self.k as usize + 1, blind.0));
                proof {
                    assert(terms@.drop_last() =~= before);
                    assert(coefficients@.take(i as int) =~= coefficients@);
                    lemma_mul_is_commutative(curve::log(self.w), blind.0.val());
                }
                table.evaluate(&terms)
            },
        }
    }
}

/// The sum of the bases of rows.
spec fn rows_sum(bases: Seq<int>, rows: Seq<usize>) -> int
    decreases rows.len(),
{
    if rows.len() == 0 {
        0
    } else {
        rows_sum(bases, rows.drop_last()) + bases[rows.last() as int]
    }
}

proof fn lemma_rows_sum(bases: Seq<int>, a: Seq<usize>, b: Seq<usize>)
    ensures
        rows_sum(bases, a + b) == rows_sum(bases, a) + rows_sum(bases, b),
    decreases b.len(),
{
    if b.len() == 0 {
        assert(a + b =~= a);
    } else {
        lemma_rows_sum(bases, a, b.drop_last());
        assert((a + b).drop_last() =~= a + b.drop_last());
    }
}

/// `v[0] poly_at(g, 1) + v[1] poly_at(g, x) + v[2] poly_at(g, x^2) + ..` is symmetric in
/// `v` and `g`.
proof fn lemma_cross_symmetric(v: Seq<int>, g: Seq<int>, x: int)
    ensures
        multiexp::dot(v, dft::dft(g, x, v.len())) == multiexp::dot(g, dft::dft(v, x, g.len())),
    decreases v.len(),
{
    let n = v.len();
    if n == 0 {
        assert forall|i: int| 0 <= i < g.len() implies dft::dft(v, x, g.len())[i] == 0 by {}
        lemma_dot_zero_right(g, dft::dft(v, x, g.len()));
    } else {
        let f = v.drop_last();
        let t = v.last();
        let k = (n - 1) as nat;
        lemma_cross_symmetric(f, g, x);
        multiexp::lemma_dot_same(f, dft::dft(g, x, k), dft::dft(g, x, n));
        // One more value adds a multiple of a power to each of the others' values.
        let a = dft::dft(f, x, g.len());
        let b = Seq::new(g.len(), |m: int| pow(x, (m * k) as nat));
        let c = dft::dft(v, x, g.len());
        assert forall|m: int| 0 <= m < g.len() implies c[m] == a[m] + t * #[trigger] b[m] by {
            let y = pow(x, m as nat);
            assert(v =~= f.push(t));
            arith::lemma_poly_at_push(f, y, t);
            lemma_pow_multiplies(x, m as nat, k);
            assert((m * k) as nat == (m as nat) * k);
        }
        assert(c =~= Seq::new(a.len(), |m: int| a[m] + t * b[m]));
        multiexp::lemma_dot_linear_right(g, a, b, t);
        lemma_powers_dot(g, x, k, g.len());
        let y = pow(x, k);
        assert(dft::dft(g, x, n)[k as int] == arith::poly_at(g, y));
    }
}

proof fn lemma_dot_zero_right(a: Seq<int>, b: Seq<int>)
    requires
        a.len() <= b.len(),
        forall|i: int| 0 <= i < a.len() ==> #[trigger] b[i] == 0,
    ensures
        multiexp::dot(a, b) == 0,
    decreases a.len(),
{
    if a.len() > 0 {
        lemma_dot_zero_right(a.drop_last(), b);
        lemma_mul_basics(a.last());
    }
}

proof fn lemma_powers_dot(g: Seq<int>, x: int, k: nat, n: nat)
    requires
        g.len() <= n,
    ensures
        multiexp::dot(g, Seq::new(n, |m: int| pow(x, (m * k) as nat))) == arith::poly_at(g, pow(x, k)),
    decreases g.len(),
{
    let b = Seq::new(n, |m: int| pow(x, (m * k) as nat));
    if g.len() > 0 {
        lemma_powers_dot(g.drop_last(), x, k, n);
        let e = (g.len() - 1) as nat;
        lemma_pow_multiplies(x, k, e);
        lemma_mul_is_commutative(e as int, k as int);
        assert(b[e as int] == pow(x, k * e));
    }
}

/// A commitment to a polynomial's evaluations is the commitment to its coefficients.
pub proof fn law_lagrange_commitment<C: CurveAffine>(
    params: Params<C>,
    coefficients: Seq<int>,
    values: Seq<int>,
    blind: int,
)
    requires
        params.wf(),
        params::is_lagrange(params.g@, params.g_lagrange@, params.k as nat),
        coefficients.len() == params.n,
        values.len() == params.n,
        forall|i: int|
            0 <= i < values.len() ==> arith::eqm(
                #[trigger] values[i],
                arith::poly_at(coefficients, pow(transform::unity_root::<C::ScalarExt>(params.k as nat), i as nat)),
                C::ScalarExt::order(),
            ),
    ensures
        params.committed_lagrange(values, blind) == params.committed(coefficients, blind),
{
    let q = C::ScalarExt::order();
    C::ScalarExt::lemma_order();
    let k = params.k as nat;
    let n = pow2(k);
    let w = transform::unity_root::<C::ScalarExt>(k);
    let v = choose|v: int|
        #![trigger params::is_inverse_root::<C::ScalarExt>(v, k)]
        params::is_inverse_root::<C::ScalarExt>(v, k) && forall|i: int|
            0 <= i < params.g@.len() ==> arith::eqm(
                pow2(k) * curve::log(#[trigger] params.g_lagrange@[i]),
                arith::poly_at(curve::logs(params.g@), pow(v, i as nat)),
                q,
            );
    let g = curve::logs(params.g@);
    let l = curve::logs(params.g_lagrange@);
    let exact = dft::dft(coefficients, w, n);
    let zero = Seq::new(n, |i: int| 0int);
    // n times the sum over the evaluations.
    let nl = Seq::new(n, |i: int| zero[i] + n * l[i]);
    multiexp::lemma_dot_linear_right(values, zero, l, n as int);
    lemma_dot_zero_right(values, zero);
    let t = dft::dft(g, v, n);
    assert forall|i: int| 0 <= i < values.len() implies arith::eqm(#[trigger] nl[i], t[i], q) by {
        assert(l[i] == curve::log(params.g_lagrange@[i]));
    }
    assert forall|i: int| 0 <= i < values.len() implies arith::eqm(#[trigger] values[i], exact[i], q) by {}
    multiexp::lemma_dot_eqm(values, nl, exact, t, q);
    lemma_cross_symmetric(exact, g, v);
    // The evaluations, transformed back, are n times the coefficients.
    let back = dft::dft(exact, v, n);
    let nc = Seq::new(n, |i: int| zero[i] + n * coefficients[i]);
    assert forall|i: int| 0 <= i < g.len() implies arith::eqm(#[trigger] back[i], nc[i], q) by {
        dft::lemma_dft_inverse(coefficients, w, v, k, i as nat, q);
    }
    multiexp::lemma_dot_eqm(g, back, g, nc, q);
    multiexp::lemma_dot_linear_right(g, zero, coefficients, n as int);
    lemma_dot_zero_right(g, zero);
    lemma_dot_commutes(g, coefficients);
    let (a, b) = (multiexp::dot(values, l), multiexp::dot(coefficients, g));
    assert(arith::eqm(n * a, n * b, q));
    // n has an inverse.
    let h: int = choose|h: int| arith::eqm(#[trigger] (h * n), 1, q);
    lemma_size_inverse::<C::ScalarExt>(k);
    arith::lemma_eqm_mul(h, h, n * a, n * b, q);
    lemma_mul_is_associative(h, n as int, a);
    lemma_mul_is_associative(h, n as int, b);
    arith::lemma_eqm_mul(h * n, 1, a, a, q);
    arith::lemma_eqm_mul(h * n, 1, b, b, q);
    lemma_mul_basics(a);
    lemma_mul_basics(b);
    arith::lemma_eqm_add(a, b, blind * curve::log(params.w), blind * curve::log(params.w), q);
}

proof fn lemma_dot_commutes(a: Seq<int>, b: Seq<int>)
    requires
        a.len() == b.len(),
    ensures
        multiexp::dot(a, b) == multiexp::dot(b, a),
    decreases a.len(),
{
    if a.len() > 0 {
        lemma_dot_commutes(a.drop_last(), b.drop_last());
        multiexp::lemma_dot_same(a.drop_last(), b.drop_last(), b);
        multiexp::lemma_dot_same(b.drop_last(), a.drop_last(), a);
        lemma_mul_is_commutative(a.last(), b.last());
    }
}

/// A power of two has an inverse.
pub proof fn lemma_size_inverse<F: Field>(k: nat)
    ensures
        exists|h: int| arith::eqm(#[trigger] (h * pow2(k)), 1, F::order()),
    decreases k,
{
    F::lemma_order();
    let q = F::order();
    // Half of one.
    let half = (q + 1) / 2;
    assert(half * 2 == q + 1);
    assert(arith::eqm(half * 2, 1, q)) by {
        vstd::arithmetic::div_mod::lemma_mod_add_multiples_vanish(1, q);
    }
    lemma2_to64();
    if k == 0 {
        assert(arith::eqm(1int * pow2(0), 1, q));
    } else {
        let m = (k - 1) as nat;
        lemma_size_inverse::<F>(m);
        let h = choose|h: int| arith::eqm(#[trigger] (h * pow2(m)), 1, q);
        lemma_pow2_unfold(k);
        let e = pow2(m) as int;
        arith::lemma_eqm_mul(h * e, 1, half * 2, 1, q);
        assert((h * e) * (half * 2) == (h * half) * (2 * e)) by (nonlinear_arith);
        assert(arith::eqm((h * half) * pow2(k), 1, q));
    }
}

} // verus!
