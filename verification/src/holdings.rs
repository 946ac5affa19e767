//! What the prepared tables of parameters hold, and when they are used.
use crate::commit;
use crate::curve;
use crate::curve::CurveAffine;
use crate::field::Field;
use crate::instance;
use crate::instance::{InstanceWindows, PreparedInstanceTable};
use crate::params::Params;
use crate::shared::Holds;
use crate::choices;
use crate::tables::{FixedBasePairTable, SparseCommitmentTable};
use vstd::arithmetic::power2::*;
use vstd::prelude::*;

verus! {

/// The table that parameters hold of the fixed bases is of `w` and then `u`, in windows of
/// eight bits, and only parameters of up to `2^12` rows hold one.
pub proof fn law_held_fixed_bases<C: CurveAffine>(params: Params<C>, table: FixedBasePairTable<C>)
    requires
        params.wf(),
        params.fixed_bases.rule().holds(table),
    ensures
        params.k <= 12,
        table.wf(),
        table.table.half == 128,
        table.table.bases@.len() == 2,
        table.table.bases@[0] == params.w,
        table.table.bases@[1] == params.u,
        table.w_log() == curve::log(params.w),
        table.u_log() == curve::log(params.u),
{
}

/// The table that parameters hold for masking polynomials is of the generators of the constant
/// and of the powers of two, and of the blind's base, in windows of four bits, and only
/// parameters of `2^11` rows hold one.
pub proof fn law_held_sparse_bases<C: CurveAffine>(
    params: Params<C>,
    table: SparseCommitmentTable<C>,
    e: nat,
)
    requires
        params.wf(),
        params.sparse_commitment.rule().holds(table),
        e < params.k,
    ensures
        params.k == 11,
        table.wf(),
        table.table.half == 8,
        table.table.bases@.len() == params.k + 2,
        table.table.bases@[0] == params.g@[0],
        table.table.bases@[e as int + 1] == params.g@[pow2(e) as int],
        table.table.bases@[params.k + 1] == params.w,
{
    assert((e + 1 - 1) as nat == e);
}

/// The table that parameters hold for public inputs is of the first seven generators of the
/// evaluation form, with the sums of the blind's base and of any of the next two.
pub proof fn law_held_instance_rows<C: CurveAffine>(
    params: Params<C>,
    table: PreparedInstanceTable<C>,
    b: int,
)
    requires
        params.wf(),
        params.prepared_instance.rule().holds(table),
        0 <= b < 7,
    ensures
        params.n >= 9,
        table.table.bases@.len() == 7,
        table.table.bases@[b] == params.g_lagrange@[b],
        table.offsets@.len() == 4,
        curve::log(table.offsets@[0]) == curve::log(params.w) % C::ScalarExt::order(),
        curve::log(table.offsets@[1]) == (curve::log(params.w) + curve::log(params.g_lagrange@[7]))
            % C::ScalarExt::order(),
        curve::log(table.offsets@[2]) == (curve::log(params.w) + curve::log(params.g_lagrange@[8]))
            % C::ScalarExt::order(),
        curve::log(table.offsets@[3]) == (curve::log(params.w) + curve::log(params.g_lagrange@[7]) + curve::log(
            params.g_lagrange@[8],
        )) % C::ScalarExt::order(),
{
    lemma2_to64();
    let l = curve::logs(params.g_lagrange@);
    reveal_with_fuel(instance::chosen_sum, 3);
    assert forall|mask: int| 0 <= mask < 4 implies curve::log(#[trigger] table.offsets@[mask]) == (curve::log(
        params.w,
    ) + instance::chosen_sum(l, 7, mask, 2)) % C::ScalarExt::order() by {}
    assert(instance::chosen_sum(l, 7, 0, 2) == 0);
    assert(instance::chosen_sum(l, 7, 1, 2) == l[7]);
    assert(instance::chosen_sum(l, 7, 2, 2) == l[8]);
    assert(instance::chosen_sum(l, 7, 3, 2) == l[7] + l[8]);
    let (o0, o1, o2, o3) = (
        table.offsets@[0],
        table.offsets@[1],
        table.offsets@[2],
        table.offsets@[3],
    );
}

/// The multiples of rows, entry by entry.
pub proof fn law_row_multiples<C: CurveAffine>(
    windows: InstanceWindows<C>,
    rows: Seq<C>,
    b: int,
    e: int,
)
    requires
        windows.fits(rows),
        0 <= b < windows.base_count,
        0 <= e < windows.entries,
    ensures
        windows.points@.len() == windows.base_count * windows.entries,
        curve::log(windows.points@[b * windows.entries + e]) == ((e + 1) * curve::log(rows[b]))
            % C::ScalarExt::order(),
{
    assert(instance::is_multiple(windows.points@, rows, windows.entries as int, b, e));
}

/// A commitment is factored where a table is prepared, the pool is no wider than measured, the
/// column has as many values as there are generators, and the value that is factored out is
/// not zero and fills exactly the given number of the usable rows, which is not zero.
pub proof fn law_factored_commitment<C: CurveAffine>(
    params: Params<C>,
    prepared: bool,
    thread_count: int,
    values: Seq<int>,
    q_0: int,
    q_0_count: int,
    usable_rows: int,
)
    ensures
        params.factors(prepared, thread_count, values, q_0, q_0_count, usable_rows) <==> {
            &&& prepared
            &&& thread_count <= commit::widest_pool(params.platform, params.k)
            &&& values.len() == params.n
            &&& q_0 != 0
            &&& 0 < q_0_count
            &&& q_0_count <= usable_rows
            &&& usable_rows <= params.n
            &&& values.take(usable_rows).filter(|y: int| y == q_0).len() == q_0_count
        },
{
    choices::law_occurrences(values.take(usable_rows), q_0);
}

/// A sparse polynomial can be committed to from the table where each of its terms is of the
/// constant or of a power of two below the size.
pub proof fn law_maskable<C: CurveAffine>(
    params: Params<C>,
    terms: Seq<(usize, C::ScalarExt)>,
)
    ensures
        params.maskable(terms) <==> forall|i: int|
            0 <= i < terms.len() ==> (#[trigger] terms[i]).0 == 0 || exists|e: nat|
                e < params.k && terms[i].0 == #[trigger] pow2(e),
{
}

} // verus!
