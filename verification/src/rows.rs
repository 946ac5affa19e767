//! Arithmetic on chunks of rows.
use crate::arith;
use crate::basis::{BasisOps, RotatedChunk};
use crate::field::Field;
use crate::scalars;
use crate::scalars::ScaleKind;
use vstd::prelude::*;

verus! {

/// A slice as a chunk.
pub fn whole_chunk<'a, F: Field>(values: &'a [F]) -> (r: RotatedChunk<'a, F>)
    ensures
        r.view() == values@,
{
    let r = RotatedChunk { first: values, second: vstd::slice::slice_subrange(values, 0, 0) };
    assert(r.view() =~= values@);
    r
}

/// What a kind of scalar makes of a value.
proof fn lemma_scaled<F: Field>(v: F, s: F, kind: ScaleKind)
    requires
        scalars::kind_fits(kind, s.val(), F::order()),
    ensures
        kind == ScaleKind::MinusOne ==> (v.val() * s.val()) % F::order() == (-v.val())
            % F::order(),
        kind == ScaleKind::One ==> (v.val() * s.val()) % F::order() == v.val(),
        kind == ScaleKind::Two ==> (v.val() * s.val()) % F::order() == (2 * v.val()) % F::order(),
{
    let p = F::order();
    let x = v.val();
    F::lemma_order();
    F::lemma_val(v);
    arith::lemma_mod_small(x, p);
    match kind {
        ScaleKind::MinusOne => {
            arith::lemma_mod_range(-1, p);
            arith::lemma_eqm_mul(x, x, s.val(), -1, p);
            assert(x * -1 == -x) by (nonlinear_arith);
        },
        ScaleKind::One => {
            vstd::arithmetic::mul::lemma_mul_basics(x);
        },
        ScaleKind::Two => {
            arith::lemma_mod_range(2, p);
            arith::lemma_eqm_mul(x, x, s.val(), 2, p);
            assert(x * 2 == 2 * x) by (nonlinear_arith);
        },
        ScaleKind::Other => {},
    }
}

/// Multiplies a value by a scalar of the given kind.
pub fn scale_value<F: Field>(value: F, scalar: F, kind: ScaleKind) -> (r: F)
    requires
        scalars::kind_fits(kind, scalar.val(), F::order()),
    ensures
        r.val() == (value.val() * scalar.val()) % F::order(),
{
    proof {
        lemma_scaled(value, scalar, kind);
    }
    match kind {
        ScaleKind::MinusOne => value.neg(),
        ScaleKind::One => value,
        ScaleKind::Two => value.double(),
        ScaleKind::Other => value.mul(scalar),
    }
}

/// Adds a multiple of a value.
fn add_scaled_value<F: Field>(sum: F, value: F, scalar: F, kind: ScaleKind) -> (r: F)
    requires
        scalars::kind_fits(kind, scalar.val(), F::order()),
    ensures
        r.val() == (sum.val() + (value.val() * scalar.val()) % F::order()) % F::order(),
{
    match kind {
        ScaleKind::MinusOne => {
            proof {
                let p = F::order();
                F::lemma_order();
                lemma_scaled(value, scalar, kind);
                arith::lemma_mod_range(-value.val(), p);
                arith::lemma_eqm_add(sum.val(), sum.val(), (-value.val()) % p, -value.val(), p);
            }
            sum.sub(value)
        },
        _ => sum.add(scale_value(value, scalar, kind)),
    }
}

/// Adds the chunk to the rows.
pub fn add_chunk<'a, F: Field>(output: &mut [F], chunk: &RotatedChunk<'a, F>)
    requires
        chunk.view().len() == old(output)@.len(),
    ensures
        final(output)@.len() == old(output)@.len(),
        forall|i: int|
            0 <= i < final(output)@.len() ==> (#[trigger] final(output)@[i]).val() == (old(
                output)@[i].val() + chunk.view()[i].val()) % F::order(),
{
    let n: usize = output.len();
    let mut i: usize = 0;
    while i < n
        invariant
            i <= n,
            n == output@.len(),
            n == old(output)@.len(),
            chunk.view().len() == n,
            forall|k: int| i <= k < n ==> #[trigger] output@[k] == old(output)@[k],
            forall|k: int|
                0 <= k < i ==> (#[trigger] output@[k]).val() == (old(output)@[k].val()
                    + chunk.view()[k].val()) % F::order(),
        decreases n - i,
    {
        let x = output[i];
        output[i] = x.add(chunk.get(i));
        i += 1;
    }
}

/// Multiplies the rows by the chunk.
pub fn mul_chunk<'a, F: Field>(output: &mut [F], chunk: &RotatedChunk<'a, F>)
    requires
        chunk.view().len() == old(output)@.len(),
    ensures
        final(output)@.len() == old(output)@.len(),
        forall|i: int|
            0 <= i < final(output)@.len() ==> (#[trigger] final(output)@[i]).val() == (old(
                output)@[i].val() * chunk.view()[i].val()) % F::order(),
{
    let n: usize = output.len();
    let mut i: usize = 0;
    while i < n
        invariant
            i <= n,
            n == output@.len(),
            n == old(output)@.len(),
            chunk.view().len() == n,
            forall|k: int| i <= k < n ==> #[trigger] output@[k] == old(output)@[k],
            forall|k: int|
                0 <= k < i ==> (#[trigger] output@[k]).val() == (old(output)@[k].val()
                    * chunk.view()[k].val()) % F::order(),
        decreases n - i,
    {
        let x = output[i];
        output[i] = x.mul(chunk.get(i));
        i += 1;
    }
}

/// Squares the rows.
pub fn square_rows<F: Field>(output: &mut [F])
    ensures
        final(output)@.len() == old(output)@.len(),
        forall|i: int|
            0 <= i < final(output)@.len() ==> (#[trigger] final(output)@[i]).val() == (old(
                output)@[i].val() * old(output)@[i].val()) % F::order(),
{
    let n: usize = output.len();
    let mut i: usize = 0;
    while i < n
        invariant
            i <= n,
            n == output@.len(),
            n == old(output)@.len(),
            forall|k: int| i <= k < n ==> #[trigger] output@[k] == old(output)@[k],
            forall|k: int|
                0 <= k < i ==> (#[trigger] output@[k]).val() == (old(output)@[k].val() * old(
                    output)@[k].val()) % F::order(),
        decreases n - i,
    {
        let x = output[i];
        output[i] = x.square();
        i += 1;
    }
}

/// Multiplies the rows by a scalar.
pub fn scale_rows<F: Field>(output: &mut [F], scalar: F, kind: ScaleKind)
    requires
        scalars::kind_fits(kind, scalar.val(), F::order()),
    ensures
        final(output)@.len() == old(output)@.len(),
        forall|i: int|
            0 <= i < final(output)@.len() ==> (#[trigger] final(output)@[i]).val() == (old(
                output)@[i].val() * scalar.val()) % F::order(),
{
    let n: usize = output.len();
    if kind == ScaleKind::One {
        proof {
            assert forall|i: int| 0 <= i < output@.len() implies (#[trigger] output@[i]).val() == (
            output@[i].val() * scalar.val()) % F::order() by {
                lemma_scaled(output@[i], scalar, kind);
            }
        }
        return ;
    }
    let mut i: usize = 0;
    while i < n
        invariant
            i <= n,
            n == output@.len(),
            n == old(output)@.len(),
            scalars::kind_fits(kind, scalar.val(), F::order()),
            forall|k: int| i <= k < n ==> #[trigger] output@[k] == old(output)@[k],
            forall|k: int|
                0 <= k < i ==> (#[trigger] output@[k]).val() == (old(output)@[k].val()
                    * scalar.val()) % F::order(),
        decreases n - i,
    {
        let x = output[i];
        output[i] = scale_value(x, scalar, kind);
        i += 1;
    }
}

/// Fills the rows with a multiple of the chunk.
pub fn set_scaled<'a, F: Field>(
    output: &mut [F],
    chunk: &RotatedChunk<'a, F>,
    scalar: F,
    kind: ScaleKind,
)
    requires
        scalars::kind_fits(kind, scalar.val(), F::order()),
        chunk.view().len() == old(output)@.len(),
    ensures
        final(output)@.len() == old(output)@.len(),
        forall|i: int|
            0 <= i < final(output)@.len() ==> (#[trigger] final(output)@[i]).val() == (
            chunk.view()[i].val() * scalar.val()) % F::order(),
{
    let n: usize = output.len();
    let mut i: usize = 0;
    while i < n
        invariant
            i <= n,
            n == output@.len(),
            n == old(output)@.len(),
            chunk.view().len() == n,
            scalars::kind_fits(kind, scalar.val(), F::order()),
            forall|k: int|
                0 <= k < i ==> (#[trigger] output@[k]).val() == (chunk.view()[k].val()
                    * scalar.val()) % F::order(),
        decreases n - i,
    {
        output[i] = scale_value(chunk.get(i), scalar, kind);
        i += 1;
    }
}

/// Adds a multiple of the chunk to the rows.
pub fn add_scaled<'a, F: Field>(
    sums: &mut [F],
    chunk: &RotatedChunk<'a, F>,
    scalar: F,
    kind: ScaleKind,
)
    requires
        scalars::kind_fits(kind, scalar.val(), F::order()),
        chunk.view().len() == old(sums)@.len(),
    ensures
        final(sums)@.len() == old(sums)@.len(),
        forall|i: int|
            0 <= i < final(sums)@.len() ==> (#[trigger] final(sums)@[i]).val() == (old(
                sums)@[i].val() + (chunk.view()[i].val() * scalar.val()) % F::order())
                % F::order(),
{
    let n: usize = sums.len();
    let mut i: usize = 0;
    while i < n
        invariant
            i <= n,
            n == sums@.len(),
            n == old(sums)@.len(),
            chunk.view().len() == n,
            scalars::kind_fits(kind, scalar.val(), F::order()),
            forall|k: int| i <= k < n ==> #[trigger] sums@[k] == old(sums)@[k],
            forall|k: int|
                0 <= k < i ==> (#[trigger] sums@[k]).val() == (old(sums)@[k].val() + (
                chunk.view()[k].val() * scalar.val()) % F::order()) % F::order(),
        decreases n - i,
    {
        let x = sums[i];
        sums[i] = add_scaled_value(x, chunk.get(i), scalar, kind);
        i += 1;
    }
}

/// Adds a constant polynomial to a multiple of the rows.
pub fn add_constant<F: Field, B: BasisOps>(
    start: usize,
    constant: F,
    output: &mut [F],
    scalar: F,
    kind: ScaleKind,
)
    requires
        scalars::kind_fits(kind, scalar.val(), F::order()),
        start + old(output)@.len() <= usize::MAX,
    ensures
        final(output)@.len() == old(output)@.len(),
        forall|i: int|
            0 <= i < final(output)@.len() ==> (#[trigger] final(output)@[i]).val() == ((
            constant.val() * B::unit_at(start + i)) % F::order() + (old(output)@[i].val()
                * scalar.val()) % F::order()) % F::order(),
{
    let n: usize = output.len();
    let mut i: usize = 0;
    while i < n
        invariant
            i <= n,
            n == output@.len(),
            n == old(output)@.len(),
            start + n <= usize::MAX,
            scalars::kind_fits(kind, scalar.val(), F::order()),
            forall|k: int| i <= k < n ==> #[trigger] output@[k] == old(output)@[k],
            forall|k: int|
                0 <= k < i ==> (#[trigger] output@[k]).val() == ((constant.val()
                    * B::unit_at(start + k)) % F::order() + (old(output)@[k].val()
                    * scalar.val()) % F::order()) % F::order(),
        decreases n - i,
    {
        let x = output[i];
        let c = B::constant_at(start + i, constant);
        output[i] = add_scaled_value(c, x, scalar, kind);
        i += 1;
    }
}

/// Copies the chunk.
pub fn copy_chunk<'a, F: Field>(output: &mut [F], chunk: &RotatedChunk<'a, F>)
    requires
        chunk.view().len() == old(output)@.len(),
    ensures
        final(output)@ == chunk.view(),
{
    let n: usize = output.len();
    let mut i: usize = 0;
    while i < n
        invariant
            i <= n,
            n == output@.len(),
            chunk.view().len() == n,
            forall|k: int| 0 <= k < i ==> #[trigger] output@[k] == chunk.view()[k],
        decreases n - i,
    {
        output[i] = chunk.get(i);
        i += 1;
    }
    assert(output@ =~= chunk.view());
}

/// Adds a constant polynomial to the rows.
pub fn add_plain_constant<F: Field, B: BasisOps>(start: usize, constant: F, output: &mut [F])
    requires
        start + old(output)@.len() <= usize::MAX,
    ensures
        final(output)@.len() == old(output)@.len(),
        forall|i: int|
            0 <= i < final(output)@.len() ==> (#[trigger] final(output)@[i]).val() == (old(
                output)@[i].val() + (constant.val() * B::unit_at(start + i)) % F::order())
                % F::order(),
{
    let n: usize = output.len();
    let mut i: usize = 0;
    while i < n
        invariant
            i <= n,
            n == output@.len(),
            n == old(output)@.len(),
            start + n <= usize::MAX,
            forall|k: int| i <= k < n ==> #[trigger] output@[k] == old(output)@[k],
            forall|k: int|
                0 <= k < i ==> (#[trigger] output@[k]).val() == (old(output)@[k].val() + (
                constant.val() * B::unit_at(start + k)) % F::order()) % F::order(),
        decreases n - i,
    {
        let x = output[i];
        output[i] = x.add(B::constant_at(start + i, constant));
        i += 1;
    }
}

/// Fills the rows with one value.
pub fn set_rows<F: Field>(output: &mut [F], value: F)
    ensures
        final(output)@.len() == old(output)@.len(),
        forall|i: int| 0 <= i < final(output)@.len() ==> #[trigger] final(output)@[i] == value,
{
    let n: usize = output.len();
    let mut i: usize = 0;
    while i < n
        invariant
            i <= n,
            n == output@.len(),
            n == old(output)@.len(),
            forall|k: int| 0 <= k < i ==> #[trigger] output@[k] == value,
        decreases n - i,
    {
        output[i] = value;
        i += 1;
    }
}

} // verus!
