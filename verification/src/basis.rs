//! Rows of polynomials in each basis: constants, linear terms, and rotated reads.
use crate::arith;
use crate::domain;
use crate::domain::{DomainView, EvaluationDomain, power_of_two};
use crate::field::Field;
use crate::layout::LinearTermCacheBudget;
use crate::poly;
use crate::poly::{Basis, Coeff, ExtendedLagrangeCoeff, LagrangeCoeff, Polynomial, Rotation};
use vstd::arithmetic::power::*;
use vstd::arithmetic::power2::*;
use vstd::prelude::*;

verus! {

pub const EVALUATOR_CHUNKS_PER_THREAD: usize = 8;

/// Repeated linear terms save an evaluation-domain walk, but every additional
/// physical cache slot retains one field element per polynomial row. Bound both the
/// number of logical entries and the payload of physical slots that cannot reuse gaps
/// in the existing cache lifetimes.
pub const MAX_LINEAR_TERM_CACHE_ENTRIES: usize = 16;

pub const MAX_ADDITIONAL_LINEAR_TERM_CACHE_BYTES: usize = 4_194_304;

/// The size of one field element in memory.
pub const FIELD_BYTES: usize = 32;

/// A chunk of a polynomial's rows, read at a rotation: two runs of consecutive rows.
pub struct RotatedChunk<'a, F> {
    pub first: &'a [F],
    pub second: &'a [F],
}

/// The row that row `row` of a rotated polynomial is.
pub open spec fn rotated_row(row: int, offset: int, n: int) -> int {
    (row + offset) % n
}

/// How many of the rows of a chunk from row `row` on come before the end of the polynomial.
pub open spec fn rows_before_end(row: int, offset: int, n: int, chunk_len: int) -> int {
    let left = n - rotated_row(row, offset, n);
    if chunk_len < left {
        chunk_len
    } else {
        left
    }
}

impl<'a, F: Copy> RotatedChunk<'a, F> {
    pub open spec fn view(&self) -> Seq<F> {
        self.first@ + self.second@
    }

    /// The rows `chunk_size * chunk_index ..` of the polynomial, moved by
    /// `rotation_abs` rows forward, or backward. The first run ends at the end of the
    /// polynomial at the latest, and the second begins at its start.
    pub fn new(
        values: &'a [F],
        rotation_is_negative: bool,
        rotation_abs: usize,
        chunk_size: usize,
        chunk_index: usize,
        chunk_len: usize,
    ) -> (r: Self)
        requires
            rotation_abs <= values@.len(),
            chunk_size * chunk_index + chunk_len <= values@.len(),
        ensures
            r.view().len() == chunk_len,
            forall|i: int|
                0 <= i < chunk_len ==> #[trigger] r.view()[i] == values@[rotated_row(
                    chunk_size * chunk_index + i,
                    if rotation_is_negative {
                        -rotation_abs
                    } else {
                        rotation_abs as int
                    },
                    values@.len() as int,
                )],
            values@.len() > 0 ==> r.first@.len() == rows_before_end(
                chunk_size * chunk_index,
                if rotation_is_negative {
                    -rotation_abs
                } else {
                    rotation_abs as int
                },
                values@.len() as int,
                chunk_len as int,
            ),
    {
        let n: usize = values.len();
        proof {
            vstd::arithmetic::mul::lemma_mul_nonnegative(chunk_size as int, chunk_index as int);
        }
        let start: usize = chunk_size * chunk_index;
        let mid: usize = if rotation_is_negative {
            n - rotation_abs
        } else {
            rotation_abs
        };
        let source_start: usize = if mid >= n - start {
            mid - (n - start)
        } else {
            mid + start
        };
        let left: usize = n - source_start;
        let first_len: usize = if chunk_len < left {
            chunk_len
        } else {
            left
        };
        let r = RotatedChunk {
            first: vstd::slice::slice_subrange(values, source_start, source_start + first_len),
            second: vstd::slice::slice_subrange(values, 0, chunk_len - first_len),
        };
        proof {
            let offset = if rotation_is_negative {
                -rotation_abs
            } else {
                rotation_abs as int
            };
            if source_start < n {
                lemma_wrapped(start + offset, source_start as int, n as int);
            }
            assert forall|i: int| 0 <= i < chunk_len implies #[trigger] r.view()[i]
                == values@[rotated_row(start + i, offset, n as int)] by {
                let x = start + i + offset;
                if i < first_len {
                    let y = source_start + i;
                    lemma_wrapped(x, y, n as int);
                } else {
                    let y = i - first_len;
                    lemma_wrapped(x, y, n as int);
                }
            }
        }
        r
    }

    /// The rows in order.
    pub fn iter(&self) -> (r: Vec<F>)
        requires
            self.first@.len() + self.second@.len() <= usize::MAX,
        ensures
            r@ == self.view(),
    {
        let n: usize = self.first.len() + self.second.len();
        let mut r: Vec<F> = Vec::with_capacity(n);
        let mut i: usize = 0;
        while i < n
            invariant
                i <= n,
                n == self.first@.len() + self.second@.len(),
                r@ == self.view().take(i as int),
            decreases n - i,
        {
            r.push(self.get(i));
            i += 1;
            assert(r@ =~= self.view().take(i as int));
        }
        assert(self.view().take(n as int) =~= self.view());
        r
    }

    /// Row `i` of the chunk.
    pub fn get(&self, i: usize) -> (r: F)
        requires
            i < self.view().len(),
        ensures
            r == self.view()[i as int],
    {
        if i < self.first.len() {
            self.first[i]
        } else {
            self.second[i - self.first.len()]
        }
    }

    /// The two parts, in the order of the rows.
    pub fn into_slices(self) -> (r: (&'a [F], &'a [F]))
        ensures
            r.0@ == self.first@,
            r.1@ == self.second@,
    {
        (self.first, self.second)
    }
}

/// `x` wraps around to `y`.
proof fn lemma_wrapped(x: int, y: int, n: int)
    requires
        0 <= y < n,
        x == y || x == y + n || x == y - n,
    ensures
        x % n == y,
{
    arith::lemma_mod_small(y, n);
    if x == y + n {
        vstd::arithmetic::div_mod::lemma_mod_add_multiples_vanish(y, n);
    } else if x == y - n {
        vstd::arithmetic::div_mod::lemma_mod_sub_multiples_vanish(y, n);
    }
}

/// Operations which can be performed over a given basis.
pub trait BasisOps: Basis {
    /// The number of rows of a polynomial.
    spec fn rows(domain: DomainView) -> nat;

    /// The row of the constant polynomial one.
    spec fn unit_at(row: int) -> int;

    /// The row of the polynomial `X`.
    spec fn linear_at(domain: DomainView, row: int) -> int;

    /// Whether a polynomial can be read at a rotation.
    spec fn readable(domain: DomainView, rotation: Rotation) -> bool;

    /// By how many rows a rotation moves.
    spec fn rotation_rows(domain: DomainView, rotation: Rotation) -> int;

    spec fn caches_linear_terms() -> bool;

    /// Whether repeated dense evaluations of linear terms are worth retaining in the
    /// evaluator's bounded cache.
    fn cache_repeated_linear_terms() -> (r: bool)
        ensures
            r == Self::caches_linear_terms(),
    ;

    fn empty_poly<F: Field>(domain: &EvaluationDomain<F>) -> (r: Polynomial<F, Self>)
        requires
            domain.sized(),
        ensures
            r.values@.len() == Self::rows(domain.view()),
    ;

    /// Fills a chunk with the constant polynomial.
    fn fill_constant<F: Field>(start: usize, scalar: F, output: &mut [F])
        requires
            start + old(output)@.len() <= usize::MAX,
        ensures
            final(output)@.len() == old(output)@.len(),
            forall|i: int|
                0 <= i < final(output)@.len() ==> (#[trigger] final(output)@[i]).val() == (
                scalar.val() * Self::unit_at(start + i)) % F::order(),
    ;

    /// The constant polynomial at one row.
    fn constant_at<F: Field>(row: usize, scalar: F) -> (r: F)
        ensures
            r.val() == (scalar.val() * Self::unit_at(row as int)) % F::order(),
    ;

    /// Fills a chunk with a multiple of the polynomial `X`.
    fn fill_linear<F: Field>(
        domain: &EvaluationDomain<F>,
        chunk_size: usize,
        chunk_index: usize,
        scalar: F,
        output: &mut [F],
    )
        requires
            chunk_size * chunk_index + old(output)@.len() <= usize::MAX,
        ensures
            final(output)@.len() == old(output)@.len(),
            forall|i: int|
                0 <= i < final(output)@.len() ==> (#[trigger] final(output)@[i]).val() == (
                scalar.val() * Self::linear_at(domain.view(), chunk_size * chunk_index + i))
                    % F::order(),
    ;

    /// A chunk of a polynomial, read at a rotation.
    fn rotated_chunk<'a, F: Field>(
        domain: &EvaluationDomain<F>,
        chunk_size: usize,
        chunk_index: usize,
        poly: &'a Polynomial<F, Self>,
        rotation: Rotation,
        chunk_len: usize,
    ) -> (r: RotatedChunk<'a, F>)
        requires
            domain.sized(),
            Self::readable(domain.view(), rotation),
            poly.values@.len() == Self::rows(domain.view()),
            chunk_size * chunk_index + chunk_len <= poly.values@.len(),
        ensures
            r.view().len() == chunk_len,
            forall|i: int|
                0 <= i < chunk_len ==> #[trigger] r.view()[i] == poly.values@[rotated_row(
                    chunk_size * chunk_index + i,
                    Self::rotation_rows(domain.view(), rotation),
                    poly.values@.len() as int,
                )],
            r.first@.len() == rows_before_end(
                chunk_size * chunk_index,
                Self::rotation_rows(domain.view(), rotation),
                poly.values@.len() as int,
                chunk_len as int,
            ),
    ;
}

/// Copies a chunk of a polynomial, read at a rotation.
pub fn copy_rotated_chunk<F: Field, B: BasisOps>(
    domain: &EvaluationDomain<F>,
    chunk_size: usize,
    chunk_index: usize,
    poly: &Polynomial<F, B>,
    rotation: Rotation,
    output: &mut [F],
)
    requires
        domain.sized(),
        B::readable(domain.view(), rotation),
        poly.values@.len() == B::rows(domain.view()),
        chunk_size * chunk_index + old(output)@.len() <= poly.values@.len(),
    ensures
        final(output)@.len() == old(output)@.len(),
        forall|i: int|
            0 <= i < final(output)@.len() ==> #[trigger] final(output)@[i]
                == poly.values@[rotated_row(
                chunk_size * chunk_index + i,
                B::rotation_rows(domain.view(), rotation),
                poly.values@.len() as int,
            )],
{
    let n: usize = output.len();
    let chunk = B::rotated_chunk(domain, chunk_size, chunk_index, poly, rotation, n);
    let mut i: usize = 0;
    while i < n
        invariant
            i <= n,
            n == output@.len(),
            n == old(output)@.len(),
            chunk.view().len() == n,
            forall|k: int| 0 <= k < i ==> #[trigger] output@[k] == chunk.view()[k],
        decreases n - i,
    {
        output[i] = chunk.get(i);
        i += 1;
    }
}

/// Fills a chunk with `value`, `value * omega`, ..
fn fill_powers<F: Field>(value: F, omega: F, output: &mut [F], Ghost(start): Ghost<nat>, Ghost(c): Ghost<int>)
    requires
        arith::eqm(value.val(), c * pow(omega.val(), start), F::order()),
    ensures
        final(output)@.len() == old(output)@.len(),
        forall|i: int|
            0 <= i < final(output)@.len() ==> (#[trigger] final(output)@[i]).val() == (c * pow(
                omega.val(),
                (start + i) as nat,
            )) % F::order(),
{
    let ghost p = F::order();
    let ghost w = omega.val();
    let mut value = value;
    let n: usize = output.len();
    let mut i: usize = 0;
    proof {
        F::lemma_order();
    }
    while i < n
        invariant
            i <= n,
            n == output@.len(),
            n == old(output)@.len(),
            p == F::order(),
            p > 2,
            w == omega.val(),
            arith::eqm(value.val(), c * pow(w, (start + i) as nat), p),
            forall|k: int|
                0 <= k < i ==> (#[trigger] output@[k]).val() == (c * pow(w, (start + k) as nat))
                    % p,
        decreases n - i,
    {
        proof {
            F::lemma_val(value);
            arith::lemma_mod_small(value.val(), p);
        }
        output[i] = value;
        let ghost before = value.val();
        value = value.mul(omega);
        proof {
            let e = (start + i) as nat;
            arith::lemma_pow_step(w, e);
            arith::lemma_eqm_mul(before, c * pow(w, e), w, w, p);
            arith::lemma_mod_range(before * w, p);
            assert((c * pow(w, e)) * w == c * (w * pow(w, e))) by (nonlinear_arith);
            assert((start + (i + 1)) as nat == e + 1);
        }
        i += 1;
    }
}

impl BasisOps for Coeff {
    open spec fn rows(domain: DomainView) -> nat {
        domain.size()
    }

    open spec fn unit_at(row: int) -> int {
        if row == 0 {
            1
        } else {
            0
        }
    }

    open spec fn linear_at(domain: DomainView, row: int) -> int {
        if row == 1 {
            1
        } else {
            0
        }
    }

    /// Polynomials cannot be rotated in the standard basis.
    open spec fn readable(domain: DomainView, rotation: Rotation) -> bool {
        false
    }

    open spec fn rotation_rows(domain: DomainView, rotation: Rotation) -> int {
        0
    }

    open spec fn caches_linear_terms() -> bool {
        false
    }

    fn cache_repeated_linear_terms() -> bool {
        false
    }

    fn empty_poly<F: Field>(domain: &EvaluationDomain<F>) -> Polynomial<F, Self> {
        proof {
            domain::lemma_sizes(domain.k as nat, domain.extended_k as nat);
        }
        let r = domain.empty_coeff();
        assert(poly::vals(r.values@).len() == r.values@.len());
        r
    }

    fn fill_constant<F: Field>(start: usize, scalar: F, output: &mut [F]) {
        let n: usize = output.len();
        let mut i: usize = 0;
        while i < n
            invariant
                i <= n,
                n == output@.len(),
                n == old(output)@.len(),
                start + n <= usize::MAX,
                forall|k: int|
                    0 <= k < i ==> (#[trigger] output@[k]).val() == (scalar.val()
                        * Self::unit_at(start + k)) % F::order(),
            decreases n - i,
        {
            output[i] = Self::constant_at(start + i, scalar);
            i += 1;
        }
    }

    fn constant_at<F: Field>(row: usize, scalar: F) -> F {
        proof {
            F::lemma_order();
            F::lemma_val(scalar);
            arith::lemma_mod_small(scalar.val(), F::order());
            arith::lemma_mod_small(0, F::order());
            vstd::arithmetic::mul::lemma_mul_basics(scalar.val());
        }
        if row == 0 {
            scalar
        } else {
            F::zero()
        }
    }

    fn fill_linear<F: Field>(
        domain: &EvaluationDomain<F>,
        chunk_size: usize,
        chunk_index: usize,
        scalar: F,
        output: &mut [F],
    ) {
        proof {
            F::lemma_order();
            F::lemma_val(scalar);
            arith::lemma_mod_small(scalar.val(), F::order());
            arith::lemma_mod_small(0, F::order());
            vstd::arithmetic::mul::lemma_mul_basics(scalar.val());
            vstd::arithmetic::mul::lemma_mul_nonnegative(chunk_size as int, chunk_index as int);
        }
        let start: usize = chunk_size * chunk_index;
        let n: usize = output.len();
        let mut i: usize = 0;
        while i < n
            invariant
                i <= n,
                n == output@.len(),
                n == old(output)@.len(),
                start == chunk_size * chunk_index,
                start + n <= usize::MAX,
                scalar.val() % F::order() == scalar.val(),
                0int % F::order() == 0,
                scalar.val() * 0 == 0,
                scalar.val() * 1 == scalar.val(),
                forall|k: int|
                    0 <= k < i ==> (#[trigger] output@[k]).val() == (scalar.val()
                        * Self::linear_at(domain.view(), start + k)) % F::order(),
            decreases n - i,
        {
            output[i] = if start + i == 1 {
                scalar
            } else {
                F::zero()
            };
            i += 1;
        }
    }

    fn rotated_chunk<'a, F: Field>(
        domain: &EvaluationDomain<F>,
        chunk_size: usize,
        chunk_index: usize,
        poly: &'a Polynomial<F, Self>,
        rotation: Rotation,
        chunk_len: usize,
    ) -> RotatedChunk<'a, F> {
        RotatedChunk::new(poly.values.as_slice(), false, 0, chunk_size, chunk_index, chunk_len)
    }
}

/// Fills a chunk with the same element.
fn fill_same<F: Field>(scalar: F, output: &mut [F])
    ensures
        final(output)@.len() == old(output)@.len(),
        forall|i: int| 0 <= i < final(output)@.len() ==> #[trigger] final(output)@[i] == scalar,
{
    let n: usize = output.len();
    let mut i: usize = 0;
    while i < n
        invariant
            i <= n,
            n == output@.len(),
            n == old(output)@.len(),
            forall|k: int| 0 <= k < i ==> #[trigger] output@[k] == scalar,
        decreases n - i,
    {
        output[i] = scalar;
        i += 1;
    }
}

proof fn lemma_times_one<F: Field>(scalar: F)
    ensures
        (scalar.val() * 1) % F::order() == scalar.val(),
{
    F::lemma_order();
    F::lemma_val(scalar);
    arith::lemma_mod_small(scalar.val(), F::order());
}

impl BasisOps for LagrangeCoeff {
    open spec fn rows(domain: DomainView) -> nat {
        domain.size()
    }

    open spec fn unit_at(row: int) -> int {
        1
    }

    /// The powers of the root of unity.
    open spec fn linear_at(domain: DomainView, row: int) -> int {
        pow(domain.omega, row as nat)
    }

    open spec fn readable(domain: DomainView, rotation: Rotation) -> bool {
        -domain.size() <= rotation.0 <= domain.size()
    }

    open spec fn rotation_rows(domain: DomainView, rotation: Rotation) -> int {
        rotation.0 as int
    }

    open spec fn caches_linear_terms() -> bool {
        true
    }

    fn cache_repeated_linear_terms() -> bool {
        true
    }

    fn empty_poly<F: Field>(domain: &EvaluationDomain<F>) -> Polynomial<F, Self> {
        proof {
            domain::lemma_sizes(domain.k as nat, domain.extended_k as nat);
        }
        let r = domain.empty_lagrange();
        assert(poly::vals(r.values@).len() == r.values@.len());
        r
    }

    fn fill_constant<F: Field>(start: usize, scalar: F, output: &mut [F]) {
        proof {
            lemma_times_one(scalar);
        }
        fill_same(scalar, output);
    }

    fn constant_at<F: Field>(row: usize, scalar: F) -> F {
        proof {
            lemma_times_one(scalar);
        }
        scalar
    }

    fn fill_linear<F: Field>(
        domain: &EvaluationDomain<F>,
        chunk_size: usize,
        chunk_index: usize,
        scalar: F,
        output: &mut [F],
    ) {
        // Take every power of omega within the chunk, and multiply by scalar.
        proof {
            F::lemma_order();
            vstd::arithmetic::mul::lemma_mul_nonnegative(chunk_size as int, chunk_index as int);
        }
        let omega = domain.get_omega();
        let start: usize = chunk_size * chunk_index;
        let power = omega.pow_vartime(start as u64);
        let value = power.mul(scalar);
        proof {
            let p = F::order();
            let w = pow(omega.val(), start as nat);
            arith::lemma_mod_range(w, p);
            arith::lemma_eqm_mul(power.val(), w, scalar.val(), scalar.val(), p);
            arith::lemma_mod_range(power.val() * scalar.val(), p);
            vstd::arithmetic::mul::lemma_mul_is_commutative(w, scalar.val());
        }
        fill_powers(value, omega, output, Ghost(start as nat), Ghost(scalar.val()));
    }

    fn rotated_chunk<'a, F: Field>(
        domain: &EvaluationDomain<F>,
        chunk_size: usize,
        chunk_index: usize,
        poly: &'a Polynomial<F, Self>,
        rotation: Rotation,
        chunk_len: usize,
    ) -> RotatedChunk<'a, F> {
        let distance: usize = if rotation.0 < 0 {
            (-(rotation.0 as i64)) as usize
        } else {
            rotation.0 as usize
        };
        proof {
            lemma_pow2_pos(domain.k as nat);
        }
        RotatedChunk::new(
            poly.values.as_slice(),
            rotation.0 < 0,
            distance,
            chunk_size,
            chunk_index,
            chunk_len,
        )
    }
}

impl BasisOps for ExtendedLagrangeCoeff {
    open spec fn rows(domain: DomainView) -> nat {
        domain.extended_size()
    }

    open spec fn unit_at(row: int) -> int {
        1
    }

    /// The points of the coset of the extended domain.
    open spec fn linear_at(domain: DomainView, row: int) -> int {
        domain.coset * pow(domain.extended_omega, row as nat)
    }

    open spec fn readable(domain: DomainView, rotation: Rotation) -> bool {
        true
    }

    open spec fn rotation_rows(domain: DomainView, rotation: Rotation) -> int {
        rotation.0 * domain.extension()
    }

    open spec fn caches_linear_terms() -> bool {
        true
    }

    fn cache_repeated_linear_terms() -> bool {
        true
    }

    fn empty_poly<F: Field>(domain: &EvaluationDomain<F>) -> Polynomial<F, Self> {
        let r = domain.empty_extended();
        assert(poly::vals(r.values@).len() == r.values@.len());
        r
    }

    fn fill_constant<F: Field>(start: usize, scalar: F, output: &mut [F]) {
        proof {
            lemma_times_one(scalar);
        }
        fill_same(scalar, output);
    }

    fn constant_at<F: Field>(row: usize, scalar: F) -> F {
        proof {
            lemma_times_one(scalar);
        }
        scalar
    }

    fn fill_linear<F: Field>(
        domain: &EvaluationDomain<F>,
        chunk_size: usize,
        chunk_index: usize,
        scalar: F,
        output: &mut [F],
    ) {
        // Take every power of the extended omega within the chunk, and multiply by
        // scalar.
        proof {
            F::lemma_order();
            vstd::arithmetic::mul::lemma_mul_nonnegative(chunk_size as int, chunk_index as int);
        }
        let omega = domain.get_extended_omega();
        let start: usize = chunk_size * chunk_index;
        let power = omega.pow_vartime(start as u64);
        let shifted = power.mul(F::zeta());
        let value = shifted.mul(scalar);
        let ghost z = F::cube_root();
        let ghost c = scalar.val() * z;
        proof {
            let p = F::order();
            let w = pow(omega.val(), start as nat);
            let s = scalar.val();
            arith::lemma_mod_range(w, p);
            arith::lemma_eqm_mul(power.val(), w, z, z, p);
            arith::lemma_mod_range(power.val() * z, p);
            arith::lemma_eqm_mul(shifted.val(), w * z, s, s, p);
            arith::lemma_mod_range(shifted.val() * s, p);
            assert((w * z) * s == (s * z) * w) by (nonlinear_arith);
        }
        fill_powers(value, omega, output, Ghost(start as nat), Ghost(c));
        proof {
            assert forall|i: int| 0 <= i < output@.len() implies (#[trigger] output@[i]).val() == (
            scalar.val() * Self::linear_at(domain.view(), chunk_size * chunk_index + i))
                % F::order() by {
                let q = pow(omega.val(), (start + i) as nat);
                let s = scalar.val();
                assert((s * z) * q == s * (z * q)) by (nonlinear_arith);
            }
        }
    }

    fn rotated_chunk<'a, F: Field>(
        domain: &EvaluationDomain<F>,
        chunk_size: usize,
        chunk_index: usize,
        poly: &'a Polynomial<F, Self>,
        rotation: Rotation,
        chunk_len: usize,
    ) -> RotatedChunk<'a, F> {
        let ghost n = domain.view().extended_size() as int;
        let ghost scale = domain.view().extension() as int;
        let ghost period = domain.view().size() as int;
        proof {
            domain::lemma_sizes(domain.k as nat, domain.extended_k as nat);
            lemma_pow2_pos((domain.extended_k - domain.k) as nat);
            vstd::arithmetic::mul::lemma_mul_increases(period, scale);
        }
        let rotation_scale: usize = power_of_two(domain.extended_k - domain.k);
        let rotation_period: usize = power_of_two(domain.k);
        let magnitude: usize = if rotation.0 < 0 {
            (-(rotation.0 as i64)) as usize
        } else {
            rotation.0 as usize
        };
        let wrapped: usize = magnitude % rotation_period;
        proof {
            assert(wrapped * scale <= period * scale) by (nonlinear_arith)
                requires
                    wrapped <= period,
                    scale >= 1,
            ;
        }
        let distance: usize = wrapped * rotation_scale;
        let r = RotatedChunk::new(
            poly.values.as_slice(),
            rotation.0 < 0,
            distance,
            chunk_size,
            chunk_index,
            chunk_len,
        );
        proof {
            assert forall|i: int| 0 <= i < chunk_len implies #[trigger] r.view()[i]
                == poly.values@[rotated_row(
                chunk_size * chunk_index + i,
                Self::rotation_rows(domain.view(), rotation),
                n,
            )] by {
                let row = chunk_size * chunk_index + i;
                lemma_rotation_wraps(row, rotation.0 as int, magnitude as int, period, scale, n);
            }
            lemma_rotation_wraps(
                chunk_size * chunk_index,
                rotation.0 as int,
                magnitude as int,
                period,
                scale,
                n,
            );
        }
        r
    }
}

/// A rotation by a multiple of the period is none.
proof fn lemma_rotation_wraps(row: int, rotation: int, magnitude: int, period: int, scale: int, n: int)
    requires
        period > 0,
        scale > 0,
        n == period * scale,
        magnitude == (if rotation < 0 {
            -rotation
        } else {
            rotation
        }),
    ensures
        (row + (if rotation < 0 {
            -((magnitude % period) * scale)
        } else {
            (magnitude % period) * scale
        })) % n == (row + rotation * scale) % n,
{
    let q = magnitude / period;
    let m = magnitude % period;
    vstd::arithmetic::div_mod::lemma_fundamental_div_mod(magnitude, period);
    assert(n > 0) by (nonlinear_arith)
        requires
            period > 0,
            scale > 0,
            n == period * scale,
    ;
    assert((period * q + m) * scale == n * q + m * scale) by (nonlinear_arith)
        requires
            n == period * scale,
    ;
    assert(magnitude * scale == n * q + m * scale);
    if rotation < 0 {
        assert((-magnitude) * scale == -(magnitude * scale)) by (nonlinear_arith);
        assert(n * q + (-(n * q)) == 0);
        assert(row + rotation * scale == n * (-q) + (row - m * scale)) by (nonlinear_arith)
            requires
                rotation == -magnitude,
                magnitude * scale == n * q + m * scale,
        ;
        vstd::arithmetic::div_mod::lemma_mod_multiples_vanish(-q, row - m * scale, n);
    } else {
        vstd::arithmetic::div_mod::lemma_mod_multiples_vanish(q, row + m * scale, n);
    }
}

/// How many additional slots of `poly_len` rows the budget pays for.
pub open spec fn affordable_slots(poly_len: usize) -> int {
    if poly_len == 0 || poly_len * FIELD_BYTES > usize::MAX {
        0
    } else if MAX_ADDITIONAL_LINEAR_TERM_CACHE_BYTES as int / (poly_len * FIELD_BYTES)
        < MAX_LINEAR_TERM_CACHE_ENTRIES {
        MAX_ADDITIONAL_LINEAR_TERM_CACHE_BYTES as int / (poly_len * FIELD_BYTES)
    } else {
        MAX_LINEAR_TERM_CACHE_ENTRIES as int
    }
}

pub open spec fn linear_term_budget<B: BasisOps>(poly_len: usize) -> LinearTermCacheBudget {
    if B::caches_linear_terms() {
        LinearTermCacheBudget {
            max_entries: MAX_LINEAR_TERM_CACHE_ENTRIES,
            max_additional_slots: affordable_slots(poly_len) as usize,
        }
    } else {
        LinearTermCacheBudget { max_entries: 0, max_additional_slots: 0 }
    }
}

/// The budget for repeated linear terms of polynomials with `poly_len` rows.
pub fn linear_term_cache_budget<B: BasisOps>(poly_len: usize) -> (r: LinearTermCacheBudget)
    ensures
        r == linear_term_budget::<B>(poly_len),
{
    if !B::cache_repeated_linear_terms() {
        return LinearTermCacheBudget { max_entries: 0, max_additional_slots: 0 };
    }
    let max_additional_slots: usize = match poly_len.checked_mul(FIELD_BYTES) {
        None => 0,
        Some(bytes_per_slot) => {
            if bytes_per_slot == 0 {
                0
            } else {
                let slots: usize = MAX_ADDITIONAL_LINEAR_TERM_CACHE_BYTES / bytes_per_slot;
                if slots < MAX_LINEAR_TERM_CACHE_ENTRIES {
                    slots
                } else {
                    MAX_LINEAR_TERM_CACHE_ENTRIES
                }
            }
        },
    };
    LinearTermCacheBudget { max_entries: MAX_LINEAR_TERM_CACHE_ENTRIES, max_additional_slots }
}

/// The number of chunks, and their size, suitable for processing a polynomial of the
/// given length with `num_threads` threads.
///
/// The number of chunks is scaled by a constant factor, to ensure that if not all
/// threads are available, a more uniform throughput is achieved. Both divisions round
/// up, so that the chunk size is at least one unless there is nothing to process.
pub fn get_chunk_params(poly_len: usize, num_threads: usize) -> (r: (usize, usize))
    requires
        0 < poly_len,
        0 < num_threads,
    ensures
        r.0 == ceil_div(poly_len as int, num_threads * EVALUATOR_CHUNKS_PER_THREAD),
        r.1 == ceil_div(poly_len as int, r.0 as int),
        1 <= r.0 <= poly_len,
        (r.1 - 1) * r.0 < poly_len <= r.1 * r.0,
{
    let len: u128 = poly_len as u128;
    let num_chunks: u128 = num_threads as u128 * EVALUATOR_CHUNKS_PER_THREAD as u128;
    proof {
        lemma_ceil_div(len as int, num_chunks as int);
    }
    let chunk_size: u128 = (len + num_chunks - 1) / num_chunks;
    proof {
        lemma_ceil_div(len as int, chunk_size as int);
    }
    let num_chunks: u128 = (len + chunk_size - 1) / chunk_size;
    (chunk_size as usize, num_chunks as usize)
}

/// `maybe_rayon::current_num_threads`: the number of threads that work is spread over,
/// which is at least one. How many there are depends on the machine.
#[verifier::external_body]
pub(crate) fn current_num_threads() -> (r: usize)
    ensures
        r >= 1,
{
    maybe_rayon::current_num_threads()
}

/// `a / b`, rounded up.
pub open spec fn ceil_div(a: int, b: int) -> int {
    (a + b - 1) / b
}

pub proof fn lemma_ceil_div(a: int, b: int)
    requires
        a > 0,
        b > 0,
    ensures
        1 <= ceil_div(a, b) <= a,
        (ceil_div(a, b) - 1) * b < a <= ceil_div(a, b) * b,
{
    let q = ceil_div(a, b);
    vstd::arithmetic::div_mod::lemma_fundamental_div_mod(a + b - 1, b);
    vstd::arithmetic::div_mod::lemma_mod_bound(a + b - 1, b);
    assert((q - 1) * b == b * q - b) by (nonlinear_arith);
    assert(q * b == b * q) by (nonlinear_arith);
    assert(q >= 1) by (nonlinear_arith)
        requires
            a <= q * b,
            a > 0,
            b > 0,
    ;
    assert(q <= a) by (nonlinear_arith)
        requires
            (q - 1) * b < a,
            b > 0,
            a > 0,
    ;
}

} // verus!
