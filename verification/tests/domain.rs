//! Transforms between the bases of a domain.
use std::sync::Arc;

use halo2_proofs::basis::copy_rotated_chunk;
use halo2_proofs::domain::EvaluationDomain;
use halo2_proofs::fft::best_fft;
use halo2_proofs::field::{Field, Fp, Fq};
use halo2_proofs::poly::{ExtendedLagrangeCoeff, LagrangeCoeff, Polynomial, Rotation};
use halo2_proofs::qprime::eval_polynomial;
use halo2_proofs::transform::ORCHARD_LAST_ROTATION;

trait Value: Field + PartialEq + std::fmt::Debug {}

impl Value for Fp {}

impl Value for Fq {}

fn fq(value: u64) -> Fq {
    Fq::from_u64(value)
}

fn next_word(state: &mut u64) -> u64 {
    *state = state.wrapping_add(0x9e37_79b9_7f4a_7c15);
    let mut word = *state;
    word = (word ^ (word >> 30)).wrapping_mul(0xbf58_476d_1ce4_e5b9);
    word = (word ^ (word >> 27)).wrapping_mul(0x94d0_49bb_1331_11eb);
    word ^ (word >> 31)
}

fn random<F: Field>(state: &mut u64) -> F {
    let radix = F::from_u64(1 << 63).double();
    (0..4).fold(F::zero(), |value, _| {
        value.mul(radix).add(F::from_u64(next_word(state)))
    })
}

/// Decimation-in-time stages, one after the other.
fn canonical_fft<F: Field>(values: &mut [F], omega: F, log_n: u32) {
    let n = values.len();
    for index in 0..n {
        let reversed = if log_n == 0 {
            0
        } else {
            index.reverse_bits() >> (usize::BITS - log_n)
        };
        if index < reversed {
            values.swap(index, reversed);
        }
    }
    let mut half = 1;
    while half < n {
        let step = omega.pow_vartime((n / (2 * half)) as u64);
        for chunk in values.chunks_mut(2 * half) {
            let mut twiddle = F::one();
            for index in 0..half {
                let turned = chunk[index + half].mul(twiddle);
                chunk[index + half] = chunk[index].sub(turned);
                chunk[index] = chunk[index].add(turned);
                twiddle = twiddle.mul(step);
            }
        }
        half *= 2;
    }
}

fn check_stages<F: Value>() {
    let mut state = 0x4646_542d_4c41_5a59;
    for k in 0..=11 {
        let domain = EvaluationDomain::<F>::new(3, k);
        let input: Vec<F> = (0..1usize << k)
            .map(|i| match i % 5 {
                0 => F::zero(),
                1 => F::one(),
                2 => F::one().neg(),
                _ => random(&mut state),
            })
            .collect();
        let mut expected = input.clone();
        canonical_fft(&mut expected, domain.omega, k);
        let mut actual = input.clone();
        best_fft(&mut actual, domain.omega, k);
        assert_eq!(actual, expected, "k={k}");
    }
}

#[test]
fn lazy_fft_matches_canonical_stages_on_both_fields() {
    check_stages::<Fp>();
    check_stages::<Fq>();
}

fn max_degree(extension_log: u32) -> u32 {
    if extension_log == 0 {
        2
    } else {
        (1 << extension_log) + 1
    }
}

#[test]
fn test_zero_padded_fft_matches_best_fft() {
    for k in 0..=8 {
        for extension_log in 0..=4 {
            let domain = EvaluationDomain::<Fq>::new(max_degree(extension_log), k);
            assert_eq!(domain.extended_k, k + extension_log);

            let coefficients = (1..=(1u64 << k)).map(fq).collect::<Vec<_>>();
            let mut expected = coefficients.clone();
            domain.distribute_powers_zeta(&mut expected, true);
            expected.resize(domain.extended_len(), Fq::zero());
            best_fft(&mut expected, domain.extended_omega, domain.extended_k);

            let coefficients = domain.coeff_from_vec(coefficients);
            let actual = domain.coeff_to_extended(coefficients);

            assert_eq!(actual.values, expected);
        }
    }
}

#[test]
fn test_batched_lagrange_transforms_match_independent_transforms() {
    for k in 0..=8 {
        for extension_log in 0..=4 {
            let domain = EvaluationDomain::<Fq>::new(max_degree(extension_log), k);
            let twiddles = domain.proving_key_twiddles();
            let polynomials = (0..5)
                .map(|polynomial| {
                    let values = (0..1u64 << k)
                        .map(|coefficient| fq((polynomial + 1) * (coefficient + 2)))
                        .collect();
                    domain.lagrange_from_vec(values)
                })
                .collect::<Vec<_>>();

            let expected_coefficients = polynomials
                .iter()
                .map(|polynomial| domain.lagrange_to_coeff(polynomial.clone()))
                .collect::<Vec<_>>();
            let expected_extended = expected_coefficients
                .iter()
                .map(|polynomial| domain.coeff_to_extended(polynomial.clone()))
                .collect::<Vec<_>>();
            let (coefficients, extended) =
                domain.batch_lagrange_to_coeff_and_extended(&polynomials, &twiddles);

            assert_eq!(coefficients.len(), expected_coefficients.len());
            assert_eq!(extended.len(), expected_extended.len());
            for ((polynomial, actual), expected) in polynomials
                .iter()
                .zip(&coefficients)
                .zip(&expected_coefficients)
            {
                assert_eq!(actual.values, expected.values);
                let cached = domain.lagrange_to_coeff_with_twiddles(polynomial.clone(), &twiddles);
                assert_eq!(cached.values, expected.values);
            }
            for ((coefficient, actual), expected) in expected_coefficients
                .iter()
                .zip(&extended)
                .zip(&expected_extended)
            {
                assert_eq!(actual.values, expected.values);
                let cached = domain.coeff_to_extended_with_twiddles(coefficient.clone(), &twiddles);
                assert_eq!(cached.values, expected.values);

                let expected_back = domain.extended_to_coeff(expected.clone());
                let mut cached_coefficients =
                    domain.extended_to_coeff_full_with_twiddles(expected.clone(), &twiddles);
                cached_coefficients.truncate(expected_back.len());
                assert_eq!(cached_coefficients, expected_back);
            }

            // Quotient construction applies the inverse transform to
            // arbitrary extended-domain evaluations, not only evaluations
            // produced by the zero-padded forward transform above.
            let mut arbitrary_extended = domain.empty_extended();
            for (index, value) in arbitrary_extended.values.iter_mut().enumerate() {
                *value = fq(index as u64 + 1);
            }
            let expected = domain.extended_to_coeff(arbitrary_extended.clone());
            let mut actual =
                domain.extended_to_coeff_full_with_twiddles(arbitrary_extended, &twiddles);
            actual.truncate(expected.len());
            assert_eq!(actual, expected);
        }
    }

    let domain = EvaluationDomain::<Fq>::new(9, 3);
    let twiddles = domain.proving_key_twiddles();
    let (coefficients, extended) =
        domain.batch_lagrange_to_coeff_and_extended(&vec![], &twiddles);
    assert!(coefficients.is_empty());
    assert!(extended.is_empty());
}

fn check_cached_inverse<F: Value>() {
    let domain = EvaluationDomain::<F>::new(9, 4);
    let twiddles = domain.proving_key_twiddles();
    let lagrange = domain.lagrange_from_vec((1..=1 << 4).map(F::from_u64).collect());
    let expected = domain.lagrange_to_coeff(lagrange.clone());
    let actual = domain.lagrange_to_coeff_with_twiddles(lagrange, &twiddles);
    assert_eq!(actual.values, expected.values);
}

#[test]
fn test_cached_base_inverse_transform_for_both_pasta_fields() {
    check_cached_inverse::<Fp>();
    check_cached_inverse::<Fq>();
}

fn quotient_coefficients<F: Field>(
    domain: &EvaluationDomain<F>,
    numerator: Polynomial<F, ExtendedLagrangeCoeff>,
) -> (Vec<F>, Vec<F>) {
    let twiddles = domain.proving_key_twiddles();
    let expected = domain.extended_to_coeff(domain.divide_by_vanishing_poly(numerator.clone()));
    let actual = domain
        .quotient_numerator_to_pieces_with_twiddles(numerator, &twiddles)
        .into_iter()
        .flat_map(|piece| piece.values)
        .collect::<Vec<_>>();
    (actual, expected)
}

#[test]
fn test_sparse_quotient_division_matches_pointwise_division() {
    // Cover the empty quotient, every extended-domain ratio through
    // Orchard's, a ratio-one domain, a non-power-of-two quotient degree
    // that is truncated after division, and the next larger ratio.
    for &(max_degree, k) in &[(1, 3), (2, 0), (3, 3), (4, 3), (6, 4), (9, 11), (10, 4)] {
        let domain = EvaluationDomain::<Fq>::new(max_degree, k);
        let mut numerator = domain.empty_extended();
        for (index, value) in numerator.values.iter_mut().enumerate() {
            *value = fq(((index as u64) + 1).wrapping_mul(0x9e37_79b9_7f4a_7c15));
        }
        let (actual, expected) = quotient_coefficients(&domain, numerator);
        assert_eq!(actual, expected);
    }
}

fn check_basis_vectors<F: Value>() {
    // Both division paths are linear in the numerator. Equality on every
    // standard basis vector therefore covers every possible numerator for
    // these small domains, without relying on a single dense fixture.
    for &(max_degree, k) in &[
        (1, 3),
        (2, 0),
        (2, 3),
        (3, 3),
        (4, 3),
        (5, 3),
        (6, 3),
        (9, 3),
        (10, 3),
    ] {
        let domain = EvaluationDomain::<F>::new(max_degree, k);
        for basis_index in 0..domain.extended_len() {
            let mut numerator = domain.empty_extended();
            numerator.values[basis_index] = F::one();
            let (actual, expected) = quotient_coefficients(&domain, numerator);
            assert_eq!(
                actual, expected,
                "max_degree={max_degree}, k={k}, basis_index={basis_index}"
            );
        }
    }
}

#[test]
fn test_sparse_quotient_division_matches_pointwise_on_basis_vectors() {
    check_basis_vectors::<Fq>();
    check_basis_vectors::<Fp>();
}

#[test]
fn test_orchard_proving_key_twiddle_cache_size_and_sharing() {
    const ORCHARD_DEGREE: u32 = 9;
    const ORCHARD_K: u32 = 11;
    const EXPECTED_FLAT_PAYLOAD_BYTES: usize = 288 * 1024;
    const EXPECTED_LEVEL_PAYLOAD_BYTES: usize = 585_312;

    let domain = EvaluationDomain::<Fq>::new(ORCHARD_DEGREE, ORCHARD_K);
    let twiddles = domain.proving_key_twiddles();
    assert_eq!(std::mem::size_of::<Fq>(), 32);
    assert_eq!(twiddles.base_inverse.len(), 1 << (ORCHARD_K - 1));
    assert_eq!(
        twiddles.extended_forward.len(),
        1 << (domain.extended_k - 1)
    );
    assert_eq!(
        (twiddles.base_inverse.len() + twiddles.extended_forward.len())
            * std::mem::size_of::<Fq>(),
        EXPECTED_FLAT_PAYLOAD_BYTES
    );

    let level_tables = twiddles
        .base_inverse_tables
        .iter()
        .chain(twiddles.extended_forward_tables.iter())
        .collect::<Vec<_>>();
    let level_payload_bytes =
        level_tables.iter().map(|table| table.len()).sum::<usize>() * std::mem::size_of::<Fq>();
    assert_eq!(level_payload_bytes, EXPECTED_LEVEL_PAYLOAD_BYTES);

    let cloned = twiddles.clone();
    assert!(Arc::ptr_eq(&twiddles.base_inverse, &cloned.base_inverse));
    assert!(Arc::ptr_eq(
        &twiddles.extended_forward,
        &cloned.extended_forward
    ));
    assert!(Arc::ptr_eq(
        &twiddles.base_inverse_tables,
        &cloned.base_inverse_tables
    ));
    assert!(Arc::ptr_eq(
        &twiddles.extended_forward_tables,
        &cloned.extended_forward_tables
    ));
}

fn rotated(
    domain: &EvaluationDomain<Fq>,
    poly: &Polynomial<Fq, LagrangeCoeff>,
    rotation: Rotation,
) -> Polynomial<Fq, LagrangeCoeff> {
    let mut values = vec![Fq::zero(); poly.len()];
    copy_rotated_chunk(domain, poly.len(), 0, poly, rotation, &mut values);
    domain.lagrange_from_vec(values)
}

#[test]
fn test_rotate() {
    let domain = EvaluationDomain::<Fq>::new(1, 3);
    let mut state = 11;

    let mut poly = domain.empty_lagrange();
    assert_eq!(poly.len(), 8);
    for value in poly.values.iter_mut() {
        *value = random(&mut state);
    }

    let poly_rotated_cur = rotated(&domain, &poly, Rotation::cur());
    let poly_rotated_next = rotated(&domain, &poly, Rotation::next());
    let poly_rotated_prev = rotated(&domain, &poly, Rotation::prev());

    let poly = domain.lagrange_to_coeff(poly);
    let poly_rotated_cur = domain.lagrange_to_coeff(poly_rotated_cur);
    let poly_rotated_next = domain.lagrange_to_coeff(poly_rotated_next);
    let poly_rotated_prev = domain.lagrange_to_coeff(poly_rotated_prev);

    let x: Fq = random(&mut state);

    assert_eq!(
        eval_polynomial(&poly.values, x),
        eval_polynomial(&poly_rotated_cur.values, x)
    );
    assert_eq!(
        eval_polynomial(&poly.values, x.mul(domain.omega)),
        eval_polynomial(&poly_rotated_next.values, x)
    );
    assert_eq!(
        eval_polynomial(&poly.values, x.mul(domain.omega_inv)),
        eval_polynomial(&poly_rotated_prev.values, x)
    );
}

#[test]
fn test_rotate_omega_fast_paths_match_exponentiation() {
    let domain = EvaluationDomain::<Fq>::new(1, 11);
    let value = fq(42);

    for rotation in [
        Rotation::cur(),
        Rotation::next(),
        Rotation::prev(),
        Rotation(ORCHARD_LAST_ROTATION),
        Rotation(2),
        Rotation(-2),
        Rotation(7),
        Rotation(-7),
    ] {
        let exponent = u64::from(rotation.0.unsigned_abs());
        let expected = if rotation.0 >= 0 {
            value.mul(domain.get_omega().pow_vartime(exponent))
        } else {
            value.mul(domain.get_omega_inv().pow_vartime(exponent))
        };
        assert_eq!(domain.rotate_omega(value, rotation), expected);
    }
}

/// The value at `x` of the polynomial that is one at point `i` and zero at the others.
fn lagrange_value(points: &[Fq], i: usize, x: Fq) -> Fq {
    let mut numerator = Fq::one();
    let mut denominator = Fq::one();
    for (j, point) in points.iter().enumerate() {
        if j != i {
            numerator = numerator.mul(x.sub(*point));
            denominator = denominator.mul(points[i].sub(*point));
        }
    }
    numerator.mul(denominator.invert().unwrap())
}

#[test]
fn test_l_i() {
    let domain = EvaluationDomain::<Fq>::new(1, 3);
    let points = (0..8)
        .map(|i| domain.omega.pow_vartime(i))
        .collect::<Vec<_>>();

    let x: Fq = random(&mut 17);
    let xn = x.pow_vartime(8);

    let rotations = (-7..=7).collect::<Vec<i32>>();
    let evaluations = domain.l_i_range(x, xn, &rotations);
    for i in 0..8 {
        assert_eq!(lagrange_value(&points, i, x), evaluations[7 + i]);
        assert_eq!(lagrange_value(&points, (8 - i) % 8, x), evaluations[7 - i]);
    }
}

#[test]
fn lagrange_basis_at_the_points_of_the_domain() {
    let domain = EvaluationDomain::<Fq>::new(1, 3);
    let at_one = domain.l_i_range(Fq::one(), Fq::one(), &vec![0, 1]);
    assert_eq!(at_one, vec![Fq::one(), Fq::zero()]);

    let point = domain.omega.pow_vartime(3);
    let at_point = domain.l_i_range(point, Fq::one(), &vec![2, 3, 4, -5]);
    assert_eq!(
        at_point,
        vec![Fq::zero(), Fq::one(), Fq::zero(), Fq::one()]
    );
}

#[test]
fn test_copy_rotated_chunk_extended() {
    let k = 11;
    let domain = EvaluationDomain::<Fp>::new(3, k);
    let mut state = 23;

    let mut poly = domain.empty_extended();
    for coefficient in poly.values.iter_mut() {
        *coefficient = random(&mut state);
    }

    // Pick a chunk size that is guaranteed to not be a multiple of the polynomial
    // length.
    let chunk_size = 7;

    for rotation in [
        Rotation(-6),
        Rotation::prev(),
        Rotation::cur(),
        Rotation::next(),
        Rotation(12),
    ] {
        for (chunk_index, chunk) in domain
            .rotate_extended(&poly, rotation)
            .values
            .chunks(chunk_size)
            .enumerate()
        {
            let mut actual = vec![Fp::zero(); chunk.len()];
            copy_rotated_chunk(&domain, chunk_size, chunk_index, &poly, rotation, &mut actual);
            assert_eq!(actual, chunk);
        }
    }
}

#[test]
fn a_small_domain_has_the_expected_parameters() {
    let domain = EvaluationDomain::<Fp>::new(5, 4);
    assert_eq!(domain.get_quotient_poly_degree(), 4);
    assert_eq!(domain.extended_len(), 64);
    assert_eq!(domain.get_omega().pow_vartime(8), Fp::one().neg());
    assert_eq!(domain.get_extended_omega().pow_vartime(4), domain.get_omega());
    assert_eq!(domain.get_omega().mul(domain.get_omega_inv()), Fp::one());
    let pinned = domain.pinned();
    assert_eq!((*pinned.k, *pinned.extended_k), (4, 6));
    assert_eq!(*pinned.omega, domain.get_omega());
    assert!(domain
        .constant_extended(Fp::from_u64(9))
        .values
        .iter()
        .all(|value| *value == Fp::from_u64(9)));
    assert_eq!(domain.constant_lagrange(Fp::from_u64(9)).len(), 16);
}

#[test]
fn fields_compute_modulo_their_orders() {
    // 5 * 13 = 65, and an inverse multiplies to one.
    assert_eq!(Fp::from_u64(5).mul(Fp::from_u64(13)), Fp::from_u64(65));
    assert_eq!(Fq::from_u64(5).sub(Fq::from_u64(7)), fq(2).neg());
    assert_eq!(fq(7).invert().unwrap().mul(fq(7)), Fq::one());
    assert!(Fq::zero().invert().is_none());
    assert!(fq(3).less(&fq(4)) && !fq(4).less(&fq(4)));
    assert_eq!(Fp::two_inv().double(), Fp::one());
    assert_eq!(Fq::two_inv().double(), Fq::one());
    assert_eq!(Fp::zeta().pow_vartime(3), Fp::one());
    assert_eq!(Fq::zeta().pow_vartime(3), Fq::one());
    assert_eq!(
        Fp::root_of_unity().mul(Fp::root_of_unity_inv()),
        Fp::one()
    );
    assert_eq!(Fq::root_of_unity().pow_vartime(1 << 31), Fq::one().neg());
    assert_eq!(Fq::root_of_unity_inv().mul(Fq::root_of_unity()), Fq::one());
    let mut values = vec![fq(2), Fq::zero(), fq(5)];
    Fq::batch_invert(&mut values);
    assert_eq!(values[0].double(), Fq::one());
    assert!(values[1].is_zero());
    assert_eq!(values[2].mul(fq(5)), Fq::one());
    let mut acc = Fp::accumulator();
    Fp::mul_accumulate(&mut acc, &Fp::from_u64(3), &Fp::from_u64(4));
    Fp::mul_accumulate(&mut acc, &Fp::from_u64(5), &Fp::from_u64(6));
    assert_eq!(Fp::reduce(acc), Fp::from_u64(42));
    let mut repr = [0u8; 32];
    repr[0] = 1;
    repr[1] = 2;
    assert_eq!(Fp::from_u64(513).to_repr(), repr);
    assert_eq!(Fq::from_u64(513).to_repr(), repr);
}
