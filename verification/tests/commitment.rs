//! Commitments, their tables and the encoding of the parameters.
use halo2_proofs::blind::Blind;
use halo2_proofs::commit::prepared_commitment_max_threads;
use halo2_proofs::curve::{CurveAffine, EpAffine, EqAffine};
use halo2_proofs::domain::EvaluationDomain;
use halo2_proofs::encoding::ReadError;
use halo2_proofs::field::{Field, Fp, Fq};
use halo2_proofs::instance::PREPARED_INSTANCE_DENSE_ROWS;
use halo2_proofs::multiexp::best_multiexp;
use halo2_proofs::params::{
    Params, Platform, APPLE_PREPARED_COMMITMENT_MAX_THREADS,
    APPLE_TEN_WORKER_PREPARED_COMMITMENT_K, PREPARED_MSM_MAX_THREADS,
};
use halo2_proofs::poly::Polynomial;
use halo2_proofs::tables::{
    FixedBasePairTable, ScalarByteOrder, SparseCommitmentTable, FIXED_BASE_U_INDEX, FIXED_BASE_W_INDEX,
    PREPARED_SPARSE_COMMITMENT_K,
};
use halo2_proofs::windows::{
    signed_digit, WindowTable, FIXED_BASE_WINDOW_MAGNITUDES, SPARSE_COMMITMENT_WINDOW_BITS,
    SPARSE_COMMITMENT_WINDOW_MAGNITUDES,
};

use std::sync::Arc;

const SCALAR_BYTE_ORDER_PROBE: u64 = 0x0102_0304_0506_0708;

fn next_word(state: &mut u64) -> u64 {
    *state = state.wrapping_add(0x9e37_79b9_7f4a_7c15);
    let mut word = *state;
    word = (word ^ (word >> 30)).wrapping_mul(0xbf58_476d_1ce4_e5b9);
    word = (word ^ (word >> 27)).wrapping_mul(0x94d0_49bb_1331_11eb);
    word ^ (word >> 31)
}

fn random<F: Field>(state: &mut u64) -> F {
    let radix = F::from_u64(1 << 63).double();
    (0..4).fold(F::zero(), |value, _| {
        value.mul(radix).add(F::from_u64(next_word(state)))
    })
}

fn assert_same<C: CurveAffine>(actual: C, expected: C, case: &str) {
    assert!(actual.equals(&expected), "{case}");
}

fn assert_ipa_rounds<C: CurveAffine>(
    table: &FixedBasePairTable<C>,
    bases: [C; 2],
    scalars: [C::ScalarExt; 4],
    case: &str,
) {
    let [l_u, l_w, r_u, r_w] = scalars;
    let (l, r) = table.multiply_ipa_rounds(l_u, l_w, r_u, r_w);
    let (w, u) = (bases[FIXED_BASE_W_INDEX], bases[FIXED_BASE_U_INDEX]);
    assert_same(l, u.mul(l_u).add(w.mul(l_w)), case);
    assert_same(r, u.mul(r_u).add(w.mul(r_w)), case);
    assert_same(table.multiply_ipa(l_u, l_w), l, case);
    assert_same(table.multiply_blind(l_w), w.mul(l_w), case);
}

fn exercise_fixed_bases<C: CurveAffine>(w: C, u: C) {
    let one = C::ScalarExt::one();
    let small = |value: u64| C::ScalarExt::from_u64(value);
    let table = FixedBasePairTable::new(w, u);
    let bases = [w, u];
    assert_same(table.table.bases[FIXED_BASE_W_INDEX], w, "first base");
    assert_same(table.table.bases[FIXED_BASE_U_INDEX], u, "second base");
    assert_eq!(
        table.table.points.len(),
        2 * 32 * FIXED_BASE_WINDOW_MAGNITUDES
    );
    let mut state = 0x626c_696e_642d_6d73;
    let mut scalars = vec![
        C::ScalarExt::zero(),
        one,
        one.neg(),
        small(SCALAR_BYTE_ORDER_PROBE),
        small(127),
        small(128),
        small(129),
        small(0x7f00),
        small(0x7f80),
        small(0x8000),
        small(0x8080),
    ];
    for exponent in [8, 16, 24, 32, 64, 128, 248, 254] {
        let radix_power = small(2).pow_vartime(exponent);
        scalars.extend([radix_power.sub(one), radix_power, radix_power.add(one)]);
    }
    scalars.extend((0..16).map(|_| random::<C::ScalarExt>(&mut state)));

    for (base_index, base) in bases.into_iter().enumerate() {
        for &scalar in &scalars {
            assert_same(
                table.multiply(base_index, scalar),
                base.mul(scalar),
                "fixed-base multiplication must match native multiplication",
            );
        }
    }

    let top_bit = small(2).pow_vartime(254);
    for (case, scalars) in [
        ("four-way", [small(3), small(5), small(7), small(11)]),
        (
            "signed carry",
            [small(0x7f), small(0x80), small(0xff), small(0x100)],
        ),
        (
            "top bit",
            [top_bit.sub(one), top_bit, top_bit.add(one), one.neg()],
        ),
    ] {
        assert_ipa_rounds(&table, bases, scalars, case);
    }
}

#[test]
fn fixed_base_pair_table_matches_native_multiplication() {
    let ep = Params::<EpAffine>::new(3);
    exercise_fixed_bases(ep.w, ep.u);
    let eq = Params::<EqAffine>::new(3);
    exercise_fixed_bases(eq.w, eq.u);
}

#[test]
fn fixed_base_pair_table_is_stable_across_worker_counts() {
    let params = Params::<EqAffine>::new(3);
    let build = |workers| {
        maybe_rayon::ThreadPoolBuilder::new()
            .num_threads(workers)
            .build()
            .expect("test pool must build")
            .install(|| FixedBasePairTable::new(params.w, params.u))
    };
    let single = build(1);
    for workers in [2, 6, 10] {
        let parallel = build(workers);
        assert_eq!(parallel.table.bases.len(), single.table.bases.len());
        assert_eq!(parallel.table.points.len(), single.table.points.len());
        assert!(parallel
            .table
            .points
            .iter()
            .zip(&single.table.points)
            .all(|(a, b)| a.equals(b)));
        assert_eq!(parallel.table.half, single.table.half);
    }
}

#[test]
fn fixed_base_table_cache_is_shared_by_clones_and_not_serialized() {
    let params = Params::<EqAffine>::new(3);
    let serialized_before = params.write();
    assert!(params.fixed_base_table().is_none());
    assert!(params.prepare_commitments());
    let table = params.fixed_base_table().unwrap();

    let cloned_table = params.clone().fixed_base_table().unwrap();
    assert!(Arc::ptr_eq(&table, &cloned_table));

    // Preparing again keeps the table that is there.
    assert!(params.prepare_commitments());
    assert!(Arc::ptr_eq(&table, &params.fixed_base_table().unwrap()));

    let serialized_after = params.write();
    assert_eq!(serialized_before, serialized_after);

    let (deserialized, used) = Params::<EqAffine>::read(&serialized_before).unwrap();
    assert_eq!(used, serialized_before.len());
    assert!(deserialized.fixed_base_table().is_none());
}

#[test]
fn tables_that_are_prepared_later_reach_earlier_clones() {
    let params = Params::<EqAffine>::new(PREPARED_SPARSE_COMMITMENT_K);
    let earlier = params.clone();
    let independent = Params::<EqAffine>::new(3);
    assert!(earlier.fixed_base_table().is_none());
    assert!(earlier.prepared_instance_table().is_none());
    assert!(earlier.sparse_commitment.get().is_none());

    assert!(params.prepare_commitments());
    assert!(Arc::ptr_eq(
        &params.fixed_base_table().unwrap(),
        &earlier.fixed_base_table().unwrap()
    ));
    assert!(Arc::ptr_eq(
        &params.prepared_instance_table().unwrap(),
        &earlier.prepared_instance_table().unwrap()
    ));
    assert!(Arc::ptr_eq(
        &params.sparse_commitment.get().unwrap(),
        &earlier.sparse_commitment.get().unwrap()
    ));
    let coefficients = vec![(0, Fp::one()), (4, Fp::from_u64(3))];
    let blind = Blind(Fp::from_u64(9));
    assert_same(
        earlier.commit_sparse(&coefficients, blind).unwrap(),
        params.commit_sparse(&coefficients, blind).unwrap(),
        "sparse commitment",
    );

    assert!(independent.fixed_base_table().is_none());
    // Eight rows are too few for the public inputs.
    assert!(independent.prepare_commitments());
    assert!(!independent.prepare_instance_table());
    assert!(independent.prepared_instance_table().is_none());
}

#[test]
fn instance_window_cache_is_shared_by_clones_only() {
    const K: u32 = 6;
    const BASE_COUNT: usize = 10;
    const ENTRIES: usize = 15;

    let params = Arc::new(Params::<EqAffine>::new(K));
    let serialized_before = params.write();
    assert!(params.prepared_instance_table().is_none());
    assert!(params.prepare_instance_table());
    let prepared = params.prepared_instance_table().unwrap();
    let expected_prepared_points = PREPARED_INSTANCE_DENSE_ROWS * 64 * 8;
    assert_eq!(prepared.table.points.len(), expected_prepared_points);

    let tables = (0..4)
        .map(|_| Arc::clone(&params).instance_window_table(BASE_COUNT, ENTRIES))
        .collect::<Vec<_>>();
    assert_eq!(tables[0].points.len(), BASE_COUNT * ENTRIES);
    assert!(tables
        .iter()
        .skip(1)
        .all(|table| Arc::ptr_eq(&tables[0], table)));

    let cloned = params.as_ref().clone();
    let cloned_table = cloned.instance_window_table(BASE_COUNT, ENTRIES);
    assert!(Arc::ptr_eq(&tables[0], &cloned_table));
    assert!(Arc::ptr_eq(
        &prepared,
        &cloned.prepared_instance_table().unwrap()
    ));

    assert_eq!(params.write(), serialized_before);

    let (deserialized, _) = Params::<EqAffine>::read(&serialized_before).unwrap();
    assert!(deserialized.prepared_instance_table().is_none());
    let smaller_table = params.instance_window_table(BASE_COUNT - 1, ENTRIES);
    assert!(Arc::ptr_eq(&tables[0], &smaller_table));

    let larger_table = params.instance_window_table(BASE_COUNT + 1, ENTRIES);
    assert!(!Arc::ptr_eq(&tables[0], &larger_table));
    let original_prefix = params.instance_window_table(BASE_COUNT, ENTRIES);
    assert!(Arc::ptr_eq(&larger_table, &original_prefix));
    assert_eq!(original_prefix.points.len(), (BASE_COUNT + 1) * ENTRIES);

    let deserialized_table = deserialized.instance_window_table(BASE_COUNT, ENTRIES);
    assert!(!Arc::ptr_eq(&larger_table, &deserialized_table));
    assert_eq!(deserialized_table.points.len(), BASE_COUNT * ENTRIES);
    for (larger, smaller) in larger_table.points.iter().zip(&deserialized_table.points) {
        assert_same(*larger, *smaller, "shared prefix");
    }
}

#[test]
fn sparse_commitment_signed_digit_boundaries() {
    const ENCODED_BYTES: usize = std::mem::size_of::<u64>();
    let half_radix: u64 = 1 << (SPARSE_COMMITMENT_WINDOW_BITS - 1);
    let radix: u64 = 1 << SPARSE_COMMITMENT_WINDOW_BITS;
    for (value, carry, expected) in [
        (0, 0, 0),
        (0, 1, 1),
        (half_radix - 1, 0, half_radix as isize - 1),
        (half_radix - 1, 1, half_radix as isize),
        (half_radix, 0, -(half_radix as isize)),
        (half_radix, 1, -(half_radix as isize) + 1),
        (radix - 1, 0, -1),
        (radix - 1, 1, 0),
    ] {
        let encoded = (value << SPARSE_COMMITMENT_WINDOW_BITS)
            | (carry << (SPARSE_COMMITMENT_WINDOW_BITS - 1));
        let mut little = [0; 32];
        little[..ENCODED_BYTES].copy_from_slice(&encoded.to_le_bytes());
        let mut big = [0; 32];
        big[32 - ENCODED_BYTES..].copy_from_slice(&encoded.to_be_bytes());
        assert_eq!(
            SparseCommitmentTable::<EqAffine>::digit(&little, 1, true),
            expected,
        );
        assert_eq!(
            SparseCommitmentTable::<EqAffine>::digit(&big, 1, false),
            expected,
        );
        let (magnitude, negative) =
            signed_digit(&little, 1, SPARSE_COMMITMENT_WINDOW_MAGNITUDES);
        assert_eq!(magnitude as isize, expected.abs());
        assert_eq!(negative, expected < 0);
    }

    let mut unsupported = SparseCommitmentTable::<EqAffine>::new(vec![]);
    unsupported.byte_order = ScalarByteOrder::Unsupported;
    assert!(unsupported.evaluate(&vec![]).is_none());
    let empty = SparseCommitmentTable::<EqAffine>::new(vec![]);
    assert!(empty.evaluate(&vec![]).unwrap().is_identity());
}

#[test]
fn sparse_commitment_table_matches_multiexp() {
    let params = Params::<EqAffine>::new(PREPARED_SPARSE_COMMITMENT_K);
    let mut state = 0x7370_6172_7365_2d33;
    let coefficients = std::iter::once((0, random(&mut state)))
        .chain((0..PREPARED_SPARSE_COMMITMENT_K).map(|exponent| (1 << exponent, random(&mut state))))
        .collect::<Vec<(usize, Fp)>>();
    let mut state = 5;
    let blind = Blind(random::<Fp>(&mut state));

    assert!(params.commit_sparse(&coefficients, blind).is_none());
    assert!(params.prepare_sparse_commitment());

    let mut scalars = coefficients
        .iter()
        .map(|(_, coefficient)| *coefficient)
        .collect::<Vec<_>>();
    scalars.push(blind.0);
    let mut bases = coefficients
        .iter()
        .map(|(index, _)| params.g[*index])
        .collect::<Vec<_>>();
    bases.push(params.w);
    let expected = best_multiexp(&scalars, &bases);

    for workers in [1, 6] {
        maybe_rayon::ThreadPoolBuilder::new()
            .num_threads(workers)
            .build()
            .expect("test pool must build")
            .install(|| {
                let actual = params.commit_sparse(&coefficients, blind).unwrap();
                assert_same(actual, expected, "sparse commitment");
            });
    }

    let quotient_coefficients = coefficients[..2].to_vec();
    let quotient_scalars = [
        quotient_coefficients[0].1,
        quotient_coefficients[1].1,
        blind.0,
    ];
    let quotient_bases = [params.g[0], params.g[1], params.w];
    assert_same(
        params.commit_sparse(&quotient_coefficients, blind).unwrap(),
        best_multiexp(&quotient_scalars, &quotient_bases),
        "two coefficients",
    );
    assert!(params
        .commit_sparse(&vec![(3, random(&mut state))], blind)
        .is_none());

    let held = params.sparse_commitment.get().unwrap();
    let table: &WindowTable<EqAffine> = &held.table;
    let mut selected = vec![];
    for (base, (_, scalar)) in coefficients.iter().enumerate() {
        table.extend_selected(base, *scalar, &mut selected);
    }
    table.extend_selected(
        PREPARED_SPARSE_COMMITMENT_K as usize + 1,
        blind.0,
        &mut selected,
    );
    assert_same(
        SparseCommitmentTable::reduce_affine(&selected).unwrap(),
        expected,
        "selected points",
    );
}

#[test]
fn points_without_a_chord_are_not_reduced() {
    let generators = Params::<EqAffine>::new(2).g;
    let (a, b, c) = (generators[0], generators[1], generators[2]);

    let sum = SparseCommitmentTable::reduce_affine(&vec![a, b, c]).unwrap();
    assert_same(sum, a.add(b).add(c), "distinct points");
    assert_same(
        SparseCommitmentTable::reduce_affine(&vec![a]).unwrap(),
        a,
        "one point",
    );

    let opposite = a.neg();
    assert!(SparseCommitmentTable::reduce_affine(&vec![a, a]).is_none());
    assert!(SparseCommitmentTable::reduce_affine(&vec![a, opposite, b]).is_none());
    assert!(SparseCommitmentTable::reduce_affine(&vec![a, EqAffine::identity()]).is_none());
    assert!(SparseCommitmentTable::reduce_affine(&vec![b, c, a.add(b).add(c), opposite]).is_none());
    let none: Vec<EqAffine> = vec![];
    let empty = SparseCommitmentTable::reduce_affine(&none).unwrap();
    assert_same(empty, EqAffine::identity(), "no points");
}

#[test]
fn only_one_size_prepares_sparse_commitments() {
    let params = Params::<EqAffine>::new(3);
    assert!(!params.prepare_sparse_commitment());
    assert!(params
        .commit_sparse(&vec![(0, Fp::one())], Blind(Fp::one()))
        .is_none());
    assert!(!params.prepare_zero_checks());
    assert_eq!(params.k(), 3);
    assert_eq!(params.get_g().len(), 8);
}

fn check_commit_lagrange<C: CurveAffine>() {
    const K: u32 = 6;
    let params = Params::<C>::new(K);
    let domain = EvaluationDomain::<C::ScalarExt>::new(1, K);

    let mut a = domain.empty_lagrange();
    for (i, a) in a.values.iter_mut().enumerate() {
        *a = C::ScalarExt::from_u64(i as u64);
    }
    let b = domain.lagrange_to_coeff(a.clone());
    let alpha = Blind(random::<C::ScalarExt>(&mut 41));

    assert_same(
        params.commit(&b, alpha),
        params.commit_lagrange(&a, alpha),
        "both bases",
    );
    let mut scalars = b.values.clone();
    scalars.push(alpha.0);
    let mut bases = params.get_g();
    bases.push(params.w);
    assert_same(
        params.commit(&b, alpha),
        best_multiexp(&scalars, &bases),
        "sum of the generators",
    );
}

#[test]
fn test_commit_lagrange_epaffine() {
    check_commit_lagrange::<EpAffine>();
}

#[test]
fn test_commit_lagrange_eqaffine() {
    check_commit_lagrange::<EqAffine>();
}

fn exercise_prepared(armed: &Params<EqAffine>, unarmed: &Params<EqAffine>, seed: u64) {
    let domain = EvaluationDomain::<Fp>::new(1, armed.k);
    let mut state = seed;
    let mut a = domain.empty_lagrange();
    for (i, a) in a.values.iter_mut().enumerate() {
        // A witness-like mix: zero padding, booleans, small values, and
        // full-width entries.
        *a = match i % 4 {
            0 => Fp::zero(),
            1 => Fp::from_u64((i as u64) & 1),
            2 => Fp::from_u64(seed + i as u64),
            _ => random(&mut state),
        };
    }
    let b = domain.lagrange_to_coeff(a.clone());
    let alpha = Blind(random::<Fp>(&mut state));
    assert_same(
        armed.commit(&b, alpha),
        unarmed.commit(&b, alpha),
        "coefficients",
    );
    assert_same(
        armed.commit_lagrange(&a, alpha),
        unarmed.commit_lagrange(&a, alpha),
        "evaluations",
    );
    assert_same(
        armed.commit(&b, alpha),
        armed.commit_lagrange(&a, alpha),
        "both bases",
    );
}

#[test]
fn prepared_commitments_match_unprepared() {
    const K: u32 = 6;
    let armed = Params::<EqAffine>::new(K);
    let unarmed = Params::<EqAffine>::new(K);
    assert!(armed.prepare_commitments());
    assert!(!armed.prepare_zero_checks());
    let fixed_bases = armed.fixed_base_table().unwrap();
    let instance = armed.prepared_instance_table().unwrap();
    let cloned = armed.clone();
    assert!(cloned.prepare_commitments());
    assert!(Arc::ptr_eq(
        &fixed_bases,
        &cloned.fixed_base_table().unwrap()
    ));
    assert!(Arc::ptr_eq(
        &instance,
        &cloned.prepared_instance_table().unwrap()
    ));
    assert!(armed.sparse_commitment.get().is_none());

    exercise_prepared(&armed, &unarmed, 7);
    // Two capped pools: one within the thread gate pins the prepared route
    // itself, and one just past it pins the armed fall-through.
    for num_threads in [
        prepared_commitment_max_threads(armed.platform, armed.k),
        prepared_commitment_max_threads(armed.platform, armed.k) + 1,
    ] {
        maybe_rayon::ThreadPoolBuilder::new()
            .num_threads(num_threads)
            .build()
            .expect("test pool must build")
            .install(|| exercise_prepared(&armed, &unarmed, 41 + num_threads as u64));
    }
}

#[test]
fn prepared_commitment_thread_policy_is_scoped() {
    for platform in [Platform::AArch64MacOs, Platform::Other] {
        assert_eq!(
            prepared_commitment_max_threads(platform, 4),
            PREPARED_MSM_MAX_THREADS
        );
    }
    assert_eq!(
        prepared_commitment_max_threads(
            Platform::AArch64MacOs,
            APPLE_TEN_WORKER_PREPARED_COMMITMENT_K
        ),
        APPLE_PREPARED_COMMITMENT_MAX_THREADS
    );
    assert_eq!(
        prepared_commitment_max_threads(
            Platform::AArch64MacOs,
            APPLE_TEN_WORKER_PREPARED_COMMITMENT_K + 1
        ),
        PREPARED_MSM_MAX_THREADS
    );
    assert_eq!(
        prepared_commitment_max_threads(Platform::Other, APPLE_TEN_WORKER_PREPARED_COMMITMENT_K),
        PREPARED_MSM_MAX_THREADS
    );
    assert_eq!(PREPARED_MSM_MAX_THREADS, 8);
    assert_eq!(APPLE_PREPARED_COMMITMENT_MAX_THREADS, 10);

    let params = Params::<EqAffine>::new(2).on_platform(Platform::AArch64MacOs);
    assert_eq!(params.clone().platform, Platform::AArch64MacOs);
}

#[test]
fn parameters_are_read_back_as_written() {
    let params = Params::<EpAffine>::new(3);
    let bytes = params.write();
    assert_eq!(bytes.len(), 4 + 32 * (2 * 8 + 2));
    assert_eq!(&bytes[..4], &[3, 0, 0, 0]);
    let mut longer = bytes.clone();
    longer.push(9);
    let (read, used) = Params::<EpAffine>::read(&longer).unwrap();
    assert_eq!(used, bytes.len());
    assert_eq!((read.k, read.n), (3, 8));
    assert!(read.g.iter().zip(&params.g).all(|(a, b)| a.equals(b)));
    assert!(read
        .g_lagrange
        .iter()
        .zip(&params.g_lagrange)
        .all(|(a, b)| a.equals(b)));
    assert!(read.w.equals(&params.w) && read.u.equals(&params.u));
    assert_eq!(read.write(), bytes);
}

#[test]
fn broken_encodings_are_rejected() {
    let bytes = Params::<EpAffine>::new(1).write();
    assert_eq!(
        Params::<EpAffine>::read(&bytes[..3].to_vec()).err(),
        Some(ReadError::UnexpectedEof)
    );
    assert_eq!(
        Params::<EpAffine>::read(&bytes[..bytes.len() - 1].to_vec()).err(),
        Some(ReadError::UnexpectedEof)
    );
    let mut invalid = bytes.clone();
    // The largest encoding is no coordinate.
    for byte in &mut invalid[4..36] {
        *byte = 0xff;
    }
    assert_eq!(
        Params::<EpAffine>::read(&invalid).err(),
        Some(ReadError::InvalidPoint)
    );
    for size in [32, 63] {
        let mut large = bytes.clone();
        large[0] = size;
        assert_eq!(
            Params::<EpAffine>::read(&large).err(),
            Some(ReadError::UnexpectedEof)
        );
    }
    let mut beyond = bytes;
    beyond[0] = 64;
    assert_eq!(
        Params::<EpAffine>::read(&beyond).err(),
        Some(ReadError::TooLarge)
    );
}

#[test]
fn bytes_behind_the_parameters_are_left() {
    let params = Params::<EpAffine>::new(2);
    let written = params.write();
    let mut bytes = written.clone();
    bytes.extend_from_slice(&[1, 2, 3]);
    let (read, used) = Params::<EpAffine>::read(&bytes).unwrap();
    assert_eq!(used, written.len());
    assert_eq!(read.write(), written);
}

#[test]
fn a_factored_table_commitment_matches_the_plain_one() {
    const K: u32 = 6;
    let params = Params::<EqAffine>::new(K);
    let domain = EvaluationDomain::<Fp>::new(1, K);
    let q_0 = Fp::from_u64(0x1234_5678_9abc);
    let usable_rows = 58;
    let mut column = domain.empty_lagrange();
    let mut state = 3;
    for row in 0..column.len() {
        column.values[row] = if row < 40 { q_0 } else { random(&mut state) };
    }
    let blind = Blind(Fp::from_u64(77));
    let commit = |params: &Params<EqAffine>, threads: usize, count: usize| {
        let prepared = params.fixed_base_table().is_some();
        params.commit_sinsemilla_table(prepared, threads, &column, blind, q_0, count, usable_rows)
    };
    assert!(commit(&params, 1, 40).is_none());

    assert!(params.prepare_commitments());
    let expected = params.commit_lagrange(&column, blind);
    for threads in [1, 4, PREPARED_MSM_MAX_THREADS] {
        let actual = commit(&params, threads, 40).unwrap();
        assert_same(actual, expected, "factored commitment");
    }
    assert!(commit(&params, PREPARED_MSM_MAX_THREADS + 1, 40).is_none());
    assert!(commit(&params, 1, 39).is_none());
    assert!(commit(&params, 1, 0).is_none());
    assert!(params
        .commit_sinsemilla_table(true, 1, &column, blind, Fp::zero(), 40, usable_rows)
        .is_none());
    let short = Polynomial::new(vec![Fp::one(); 3]);
    assert!(params
        .commit_sinsemilla_table(true, 1, &short, blind, Fp::one(), 3, 3)
        .is_none());
    if let Some(actual) = params.try_commit_sinsemilla_table(&column, blind, q_0, 40, usable_rows)
    {
        assert_same(actual, expected, "factored commitment");
    }
}

#[test]
fn instance_tables_hold_multiples_and_choices() {
    let params = Params::<EqAffine>::new(4);
    let windows = params.instance_window_table(10, 3);
    assert_eq!(windows.points.len(), 30);
    for (base, entries) in windows.points.chunks(3).enumerate() {
        for (entry, point) in entries.iter().enumerate() {
            let scalar = Fp::from_u64(entry as u64 + 1);
            assert_same(*point, params.g_lagrange[base].mul(scalar), "multiple");
        }
    }

    assert!(params.instance_table(7, 10).is_none());
    let prepared = params.instance_table(7, 2).unwrap();
    assert_eq!(prepared.table.bases.len(), 7);
    assert_eq!(prepared.offsets.len(), 4);
    let (first, second) = (params.g_lagrange[7], params.g_lagrange[8]);
    assert_same(prepared.offsets[0], params.w, "no row");
    assert_same(prepared.offsets[1], params.w.add(first), "first row");
    assert_same(prepared.offsets[2], params.w.add(second), "second row");
    assert_same(
        prepared.offsets[3],
        params.w.add(first).add(second),
        "both rows",
    );
    let scalar = random::<Fp>(&mut 13);
    assert_same(
        prepared.table.multiply(5, scalar),
        params.g_lagrange[5].mul(scalar),
        "dense row",
    );
}

#[test]
fn prepared_instance_table_is_stable_across_worker_counts() {
    let params = Params::<EqAffine>::new(4);
    let build = |workers| {
        maybe_rayon::ThreadPoolBuilder::new()
            .num_threads(workers)
            .build()
            .expect("test pool must build")
            .install(|| params.instance_table(7, 2).unwrap())
    };
    let (serial, parallel) = (build(1), build(7));
    assert_eq!(parallel.table.points.len(), serial.table.points.len());
    for (parallel, serial) in parallel.table.points.iter().zip(&serial.table.points) {
        assert_same(*parallel, *serial, "same points");
    }
    for (parallel, serial) in parallel.offsets.iter().zip(&serial.offsets) {
        assert_same(*parallel, *serial, "same offsets");
    }

    // Each window starts with a power of the radix, and ends with eight times that.
    let mut window_base = params.g_lagrange[0];
    for window in serial.table.points.chunks(8).take(64) {
        assert_same(window[0], window_base, "first multiple");
        assert_same(
            window[7],
            window_base.mul(Fp::from_u64(8)),
            "last multiple",
        );
        window_base = window_base.mul(Fp::from_u64(16));
    }
}

#[test]
fn blinds_add_and_multiply() {
    let mut blind = Blind(Fq::from_u64(3)).add(Blind(Fq::from_u64(4)));
    assert_eq!(blind.0, Fq::from_u64(7));
    blind = blind.mul(Blind(Fq::from_u64(2)));
    blind.add_assign(Blind(Fq::one()));
    blind.mul_assign(Fq::from_u64(10));
    assert_eq!(blind.0, Fq::from_u64(150));
    blind.add_assign_scalar(Fq::from_u64(2));
    blind.mul_assign_blind(Blind(Fq::from_u64(3)));
    assert_eq!(blind.0, Fq::from_u64(456));
    assert_eq!(Blind::<Fq>::default().0, Fq::one());
}

fn check_group<C: CurveAffine>() {
    let generator = C::from_xy(C::Base::one().neg(), C::Base::from_u64(2)).unwrap();
    assert!(C::from_xy(C::Base::one(), C::Base::one()).is_none());
    let seven = C::ScalarExt::from_u64(7);
    let mut sum = C::identity();
    for _ in 0..7 {
        sum = sum.add(generator);
    }
    assert_same(generator.mul(seven), sum, "seven times");
    assert!(!sum.is_identity());
    assert!(sum.add(sum.neg()).is_identity());
    let (x, y) = sum.xy();
    assert!(sum.neg().xy().0.equals(&x));
    assert!(sum.neg().xy().1.equals(&y.neg()));
    assert_same(C::from_bytes(&sum.to_bytes()).unwrap(), sum, "encoding");
    assert!(C::from_bytes(&[0xff; 32]).is_none());
    let points = vec![generator, C::identity(), sum];
    let scaled = C::batch_mul_same_scalar_vartime(&points, seven);
    for (point, scaled) in points.iter().zip(scaled) {
        assert_same(scaled, point.mul(seven), "batch");
    }
    let hashed = C::hash_to_curve("Halo2-Parameters", &vec![1]);
    assert!(!hashed.equals(&C::hash_to_curve("Halo2-Parameters", &vec![2])));
    assert!(!hashed.equals(&C::hash_to_curve("Other", &vec![1])));
}

#[test]
fn curves_are_groups_of_their_scalar_order() {
    check_group::<EpAffine>();
    check_group::<EqAffine>();
}
