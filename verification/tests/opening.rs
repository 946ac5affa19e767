//! The inner product argument.
use halo2_proofs::blind::Blind;
use halo2_proofs::collapse::power_vector;
use halo2_proofs::commit::prepared_commitment_max_threads;
use halo2_proofs::curve::{CurveAffine, EpAffine, EqAffine};
use halo2_proofs::domain::EvaluationDomain;
use halo2_proofs::field::{Field, Fp, Fq};
use halo2_proofs::ipa::{
    compute_ipa_hi_evaluation, ipa_masking_commitment, ipa_round_multiexp,
    parallel_generator_collapse, sample_ipa_masking_polynomial, IpaOpening,
};
use halo2_proofs::multiexp::best_multiexp;
use halo2_proofs::params::{Params, Platform};
use halo2_proofs::qprime::eval_polynomial;

trait Value: Field + PartialEq + std::fmt::Debug {}

impl Value for Fp {}

impl Value for Fq {}

fn next_word(state: &mut u64) -> u64 {
    *state = state.wrapping_add(0x9e37_79b9_7f4a_7c15);
    let mut word = *state;
    word = (word ^ (word >> 30)).wrapping_mul(0xbf58_476d_1ce4_e5b9);
    word = (word ^ (word >> 27)).wrapping_mul(0x94d0_49bb_1331_11eb);
    word ^ (word >> 31)
}

fn random<F: Field>(state: &mut u64) -> F {
    let radix = F::from_u64(1 << 63).double();
    (0..4).fold(F::zero(), |value, _| {
        value.mul(radix).add(F::from_u64(next_word(state)))
    })
}

fn full_width_scalar<F: Field>() -> F {
    F::from_u64(0x9E37_79B9_7F4A_7C15)
        .square()
        .add(F::from_u64(0x0123_4567_89AB_CDEF))
        .square()
}

fn compute_inner_product<F: Field>(a: &[F], b: &[F]) -> F {
    a.iter()
        .zip(b)
        .fold(F::zero(), |sum, (a, b)| sum.add(a.mul(*b)))
}

fn in_pool<R: Send>(workers: usize, work: impl FnOnce() -> R + Send) -> R {
    maybe_rayon::ThreadPoolBuilder::new()
        .num_threads(workers)
        .build()
        .unwrap()
        .install(work)
}

fn round_multiexp_matches_split<C: CurveAffine>() {
    let params = Params::<C>::new(3);
    let full_width: C::ScalarExt = full_width_scalar();
    let one = C::ScalarExt::one();
    let zero = C::ScalarExt::zero();
    let two = C::ScalarExt::from_u64(2);
    let coeffs = [zero, one, one.neg(), two, full_width];
    let bases = &params.g[..coeffs.len()];

    for (value, randomness, z) in [
        (zero, zero, zero),
        (one, one.neg(), two),
        (full_width, full_width.square(), one.neg()),
    ] {
        let expected = best_multiexp(&coeffs, bases).add(best_multiexp(
            &[value.mul(z), randomness],
            &[params.u, params.w],
        ));
        let actual = ipa_round_multiexp(&coeffs, bases, value, randomness, &params, z);
        assert!(actual.equals(&expected));
    }
}

#[test]
fn round_multiexp_matches_split_pallas() {
    round_multiexp_matches_split::<EpAffine>();
}

#[test]
fn round_multiexp_matches_split_vesta() {
    round_multiexp_matches_split::<EqAffine>();
}

fn prepared_first_round_matches_ordinary<C: CurveAffine + Send + Sync>()
where
    C::ScalarExt: Send + Sync,
{
    const K: u32 = 6;

    let params = Params::<C>::new(K);
    let half = 1usize << (K - 1);
    let small = |value: u64| C::ScalarExt::from_u64(value);
    let mut scalar: C::ScalarExt = full_width_scalar();
    let coefficients = (0..2 * half)
        .map(|index| {
            scalar = scalar.square().add(small(index as u64 + 1));
            scalar
        })
        .collect::<Vec<_>>();
    let (p_lo, p_hi) = coefficients.split_at(half);
    let l_value = scalar.square().add(small(71));
    let l_randomness = l_value.square().add(small(73));
    let r_value = l_randomness.square().add(small(79));
    let r_randomness = r_value.square().add(small(83));
    let z = r_randomness.square().add(small(89));

    let first_round = |params: &Params<C>| {
        params.try_prepared_first_ipa_round(
            p_hi,
            p_lo,
            l_value.mul(z),
            l_randomness,
            r_value.mul(z),
            r_randomness,
        )
    };
    let unprepared = first_round(&params).is_none();
    assert!(unprepared);

    assert!(params.prepare_commitments());
    let expected_l = ipa_round_multiexp(p_hi, &params.g[..half], l_value, l_randomness, &params, z);
    let expected_r = ipa_round_multiexp(p_lo, &params.g[half..], r_value, r_randomness, &params, z);
    for workers in [1, 4] {
        let (actual_l, actual_r) = maybe_rayon::ThreadPoolBuilder::new()
            .num_threads(workers)
            .build()
            .unwrap()
            .install(|| first_round(&params).unwrap());
        assert!(actual_l.equals(&expected_l));
        assert!(actual_r.equals(&expected_r));
    }

    let gated = in_pool(prepared_commitment_max_threads(Platform::Other, K) + 1, || {
        first_round(&params).is_none()
    });
    assert!(gated);

    let most_threads = prepared_commitment_max_threads(Platform::Other, K);
    for (thread_count, expected) in [(1, true), (most_threads, true), (most_threads + 1, false)] {
        let round = params.prepared_first_ipa_round(
            params.fixed_base_table(),
            thread_count,
            p_hi,
            p_lo,
            l_value.mul(z),
            l_randomness,
            r_value.mul(z),
            r_randomness,
        );
        assert_eq!(round.is_some(), expected);
    }
}

#[test]
fn prepared_first_round_matches_ordinary_pallas() {
    prepared_first_round_matches_ordinary::<EpAffine>();
}

#[test]
fn prepared_first_round_matches_ordinary_vesta() {
    prepared_first_round_matches_ordinary::<EqAffine>();
}

/// What an opening with fixed randomness and challenges writes, in order.
struct Transcript {
    points: Vec<EpAffine>,
    challenges: Vec<Fq>,
    xi: Fq,
    z: Fq,
    scalars: (Fq, Fq),
}

fn seeded_opening(
    params: &Params<EpAffine>,
    polynomial: &[Fq],
    blind: Blind<Fq>,
    x: Fq,
    seed: u64,
) -> Transcript {
    let mut state = seed;
    let powers = power_vector(x, polynomial.len());
    let alphas = (0..params.k).map(|_| random(&mut state)).collect();
    let s_poly_blind = Blind(random(&mut state));
    let domain = EvaluationDomain::<Fq>::new(1, params.k);
    let (opening, s_commitment) = IpaOpening::new(
        params,
        domain.coeff_from_vec(polynomial.to_vec()),
        blind,
        x,
        powers,
        &alphas,
        s_poly_blind,
    );
    let mut points = vec![s_commitment];
    let mut challenges = vec![];
    let xi: Fq = random(&mut state);
    let z: Fq = random(&mut state);
    let mut rounds = opening.begin(xi, z);
    for _ in 0..params.k {
        let round = rounds.next_round(random(&mut state), random(&mut state));
        points.push(round.l_j);
        points.push(round.r_j);
        let u_j: Fq = random(&mut state);
        assert!(!u_j.is_zero());
        rounds.fold(&round, u_j);
        challenges.push(u_j);
    }
    Transcript {
        points,
        challenges,
        xi,
        z,
        scalars: rounds.finish(),
    }
}

/// The check of a verifier that knows the commitment and the claimed value.
fn accepts(
    params: &Params<EpAffine>,
    commitment: EpAffine,
    x: Fq,
    value: Fq,
    transcript: &Transcript,
) -> bool {
    let (c, f) = transcript.scalars;
    let mut lhs = commitment
        .add(transcript.points[0].mul(transcript.xi))
        .add(params.g[0].mul(value.neg()));
    let mut g = params.get_g();
    let mut b = power_vector(x, g.len());
    for (j, u_j) in transcript.challenges.iter().enumerate() {
        let u_j_inv = u_j.invert().unwrap();
        lhs = lhs
            .add(transcript.points[1 + 2 * j].mul(u_j_inv))
            .add(transcript.points[2 + 2 * j].mul(*u_j));
        let half = g.len() / 2;
        parallel_generator_collapse(&mut g, *u_j);
        g.truncate(half);
        for index in 0..half {
            b[index] = b[index].add(b[index + half].mul(*u_j));
        }
        b.truncate(half);
    }
    let rhs = g[0]
        .mul(c)
        .add(params.u.mul(c.mul(b[0]).mul(transcript.z)))
        .add(params.w.mul(f));
    lhs.equals(&rhs)
}

#[test]
fn test_opening_proof() {
    const K: u32 = 6;

    let written = Params::<EpAffine>::new(K).write();
    let (params, _) = Params::<EpAffine>::read(&written).unwrap();
    // Arm the prepared commitment tables, so that the opening below goes
    // through them where the number of threads allows it.
    params.prepare_commitments();

    let domain = EvaluationDomain::<Fq>::new(1, K);
    let mut px = domain.empty_coeff();
    for (i, a) in px.values.iter_mut().enumerate() {
        *a = Fq::from_u64(i as u64);
    }
    let blind = Blind(random(&mut 3));
    let p = params.commit(&px, blind);
    let x: Fq = random(&mut 4);
    let v = eval_polynomial(&px.values, x);

    let transcript = seeded_opening(&params, &px.values, blind, x, 99);
    assert!(accepts(&params, p, x, v, &transcript));
    // A wrong value or another commitment is not accepted.
    assert!(!accepts(&params, p, x, v.add(Fq::one()), &transcript));
    assert!(!accepts(&params, p.add(params.w), x, v, &transcript));
}

fn assert_same_transcripts(actual: &Transcript, expected: &Transcript) {
    assert_eq!(actual.scalars, expected.scalars);
    assert_eq!(actual.challenges, expected.challenges);
    assert_eq!(actual.points.len(), expected.points.len());
    assert!(actual
        .points
        .iter()
        .zip(&expected.points)
        .all(|(actual, expected)| actual.equals(expected)));
}

#[test]
fn prepared_first_round_preserves_unprepared_opening_proof() {
    const K: u32 = 6;
    const PROOF_SEED: u64 = 0x4950_412d_524f_554e;

    let params = Params::<EpAffine>::new(K);
    let polynomial = (0..1 << K)
        .map(|index| Fq::from_u64(index + 1))
        .collect::<Vec<_>>();
    let blind = Blind(Fq::from_u64(17));
    let x: Fq = random(&mut 1);
    let prove =
        |params: &Params<EpAffine>| seeded_opening(params, &polynomial, blind, x, PROOF_SEED);

    let unprepared = in_pool(1, || prove(&params));
    assert!(params.prepare_commitments());
    let prepared = in_pool(1, || prove(&params));
    assert_same_transcripts(&prepared, &unprepared);
    let gated_fallback = in_pool(prepared_commitment_max_threads(Platform::Other, K) + 1, || prove(&params));
    assert_same_transcripts(&gated_fallback, &unprepared);
}

#[test]
fn prepared_fixed_base_ipa_rounds_match_unprepared_proof() {
    const K: u32 = 6;
    const THREADS: usize = 4;
    const RNG_SEED: u64 = 0x6970_612d_752d_7721;

    assert!(THREADS <= prepared_commitment_max_threads(Platform::Other, K));
    let params = Params::<EpAffine>::new(K);
    let polynomial = (0..1u64 << K)
        .map(|index| Fq::from_u64(index.wrapping_mul(17).wrapping_add(3)))
        .collect::<Vec<_>>();
    let blind = Blind(Fq::from_u64(0x7769_746e_6573_7321));
    let x: Fq = random(&mut 2);
    let prove = |params: &Params<EpAffine>| {
        assert_eq!(maybe_rayon::current_num_threads(), THREADS);
        seeded_opening(params, &polynomial, blind, x, RNG_SEED)
    };

    assert!(params.fixed_base_table().is_none());
    let unprepared = in_pool(THREADS, || prove(&params));
    assert!(params.prepare_commitments());
    assert!(params.fixed_base_table().is_some());
    let prepared = in_pool(THREADS, || prove(&params));
    assert_same_transcripts(&prepared, &unprepared);
}

fn masking_polynomial_is_sparse_and_commits_correctly<C: CurveAffine>()
where
    C::ScalarExt: Value,
{
    for k in [1u32, 6, 11] {
        let params = Params::<C>::new(k);
        let domain = EvaluationDomain::<C::ScalarExt>::new(1, k);
        let x: C::ScalarExt = full_width_scalar();
        let mut state = u64::from(k);
        let alphas = (0..k).map(|_| random(&mut state)).collect();
        let coefficients = sample_ipa_masking_polynomial(k, x, &alphas);

        let expected_support: Vec<usize> =
            std::iter::once(0).chain((0..k).map(|t| 1 << t)).collect();
        assert_eq!(
            coefficients
                .iter()
                .map(|(index, _)| *index)
                .collect::<Vec<_>>(),
            expected_support,
        );

        let mut full = domain.empty_coeff();
        for (index, coefficient) in &coefficients {
            full.values[*index] = *coefficient;
        }
        assert_eq!(eval_polynomial(&full.values, x), C::ScalarExt::zero());

        let blind = Blind(random(&mut state));
        let committed = params.commit(&full, blind);
        assert!(ipa_masking_commitment(&coefficients, blind, &params).equals(&committed));
        if params.prepare_sparse_commitment() {
            assert_eq!(k, 11);
            assert!(ipa_masking_commitment(&coefficients, blind, &params).equals(&committed));
        }
    }
}

#[test]
fn masking_polynomial_is_sparse_and_commits_correctly_pallas() {
    masking_polynomial_is_sparse_and_commits_correctly::<EpAffine>();
}

#[test]
fn masking_polynomial_is_sparse_and_commits_correctly_vesta() {
    masking_polynomial_is_sparse_and_commits_correctly::<EqAffine>();
}

/// Apply the prover's IPA collapse to the coefficient vector `s` and
/// return the fully folded scalar.
fn collapsed_scalar<F: Field>(mut s: Vec<F>, challenges: &[F]) -> F {
    let mut len = s.len();
    for u_j in challenges {
        let u_j_inv = u_j.invert().unwrap();
        let half = len / 2;
        for i in 0..half {
            let hi = s[i + half];
            s[i] = s[i].add(hi.mul(u_j_inv));
        }
        len = half;
    }
    s[0]
}

fn masking_basis_detects_every_non_evaluation_fold<F: Value>() {
    const K: u32 = 8;
    let n = 1usize << K;
    let x: F = full_width_scalar();
    let mut state = 6;

    // The challenge pattern under which the collapse is the evaluation
    // functional: u_{k-1-t} = x^{-2^t} for every t.
    let mut zero_case = vec![F::zero(); K as usize];
    let mut x_power = x;
    for t in 0..K as usize {
        zero_case[K as usize - 1 - t] = x_power.invert().unwrap();
        x_power = x_power.square();
    }

    let dense: Vec<F> = (0..n).map(|_| random(&mut state)).collect();
    assert_eq!(
        collapsed_scalar(dense.clone(), &zero_case),
        eval_polynomial(&dense, x),
    );

    // Each basis vector X^{2^t} - x^{2^t} of the mask folds to zero under
    // that pattern, and to something else the moment the one challenge
    // controlling index 2^t deviates.
    let two = F::from_u64(2);
    let mut x_power = x;
    for t in 0..K as usize {
        let mut basis_mask = vec![F::zero(); n];
        basis_mask[0] = x_power.neg();
        basis_mask[1 << t] = F::one();

        assert_eq!(collapsed_scalar(basis_mask.clone(), &zero_case), F::zero());

        let j = K as usize - 1 - t;
        let mut challenges = zero_case.clone();
        challenges[j] = challenges[j].mul(two);

        let expected = challenges[j].invert().unwrap().sub(x_power);
        assert_ne!(expected, F::zero());
        assert_eq!(collapsed_scalar(basis_mask, &challenges), expected);

        x_power = x_power.square();
    }

    // The sampled mask is supported on exactly those indices.
    let alphas = (0..K).map(|_| random(&mut state)).collect::<Vec<F>>();
    let mask = sample_ipa_masking_polynomial(K, x, &alphas);
    let mut s = vec![F::zero(); n];
    for (index, coefficient) in &mask {
        s[*index] = *coefficient;
    }
    assert_eq!(collapsed_scalar(s.clone(), &zero_case), F::zero());
    zero_case[0] = zero_case[0].mul(two);
    assert_ne!(collapsed_scalar(s, &zero_case), F::zero());
}

#[test]
fn masking_basis_detects_every_non_evaluation_fold_pallas() {
    masking_basis_detects_every_non_evaluation_fold::<Fq>();
}

#[test]
fn masking_basis_detects_every_non_evaluation_fold_vesta() {
    masking_basis_detects_every_non_evaluation_fold::<Fp>();
}

fn generator_collapse_matches_native<C: CurveAffine>() {
    let generator = C::from_xy(C::Base::one().neg(), C::Base::from_u64(2)).unwrap();
    let points: Vec<C> = (0..16u64)
        .map(|i| {
            if i == 3 || i == 12 {
                C::identity()
            } else {
                generator.mul(C::ScalarExt::from_u64(i + 1))
            }
        })
        .collect();
    let one = C::ScalarExt::one();

    for challenge in [
        C::ScalarExt::zero(),
        one,
        one.neg(),
        C::ScalarExt::from_u64(2),
        full_width_scalar(),
    ] {
        let half = points.len() / 2;
        let mut actual = points.clone();
        parallel_generator_collapse(&mut actual, challenge);
        for i in 0..half {
            let expected = points[i].add(points[i + half].mul(challenge));
            assert!(actual[i].equals(&expected));
        }
    }
}

#[test]
fn generator_collapse_matches_native_pallas() {
    generator_collapse_matches_native::<EpAffine>();
}

#[test]
fn generator_collapse_matches_native_vesta() {
    generator_collapse_matches_native::<EqAffine>();
}

fn deferred_hi_evaluation_matches_eager<F: Value>() {
    for half in [1usize, 2, 3, 31, 32, 2_048] {
        let mut value = F::from_u64(7);
        let polynomial = (0..half * 2)
            .map(|index| {
                value = value.square().add(F::from_u64(index as u64 + 1));
                value
            })
            .collect::<Vec<_>>();
        let mut value = F::from_u64(11);
        let powers = (0..half * 2)
            .map(|index| {
                value = value.square().add(F::from_u64(index as u64 + 3));
                value
            })
            .collect::<Vec<_>>();

        assert_eq!(
            compute_ipa_hi_evaluation(&polynomial, &powers, half),
            compute_inner_product(&polynomial[half..], &powers[..half]),
        );
    }
}

#[test]
fn deferred_hi_evaluation_matches_eager_pallas_base() {
    deferred_hi_evaluation_matches_eager::<Fp>();
}

#[test]
fn deferred_hi_evaluation_matches_eager_vesta_base() {
    deferred_hi_evaluation_matches_eager::<Fq>();
}

fn compact_b_state_matches_explicit_folds<F: Value>() {
    for k in [1usize, 2, 3, 6, 11] {
        let length = 1 << k;
        for point in [F::zero(), F::one(), F::one().neg(), F::from_u64(19)] {
            let powers = power_vector(point, length);
            let mut polynomial = (0..length)
                .map(|index| F::from_u64((index * 17 + 3) as u64))
                .collect::<Vec<_>>();
            let evaluation = eval_polynomial(&polynomial, point);
            polynomial[0] = polynomial[0].sub(evaluation);

            let mut b = powers.clone();
            let mut polynomial_at_point = F::zero();
            let mut b_scale = F::one();

            for round in 0..k {
                let half = 1 << (k - round - 1);
                let expected_l = compute_inner_product(&polynomial[half..], &b[..half]);
                let expected_r = compute_inner_product(&polynomial[..half], &b[half..]);

                let point_to_half = powers[half];
                let p_hi_at_point = compute_ipa_hi_evaluation(&polynomial, &powers, half);
                let p_lo_at_point = polynomial_at_point.sub(point_to_half.mul(p_hi_at_point));
                let b_hi_scale = b_scale.mul(point_to_half);

                assert_eq!(b_scale.mul(p_hi_at_point), expected_l);
                assert_eq!(b_hi_scale.mul(p_lo_at_point), expected_r);

                let challenge = if round == 0 {
                    F::one().neg()
                } else {
                    F::from_u64((round + 2) as u64)
                };
                let challenge_inverse = challenge.invert().unwrap();
                for index in 0..half {
                    let p_hi = polynomial[index + half];
                    let b_hi = b[index + half];
                    polynomial[index] = polynomial[index].add(p_hi.mul(challenge_inverse));
                    b[index] = b[index].add(b_hi.mul(challenge));
                }
                polynomial.truncate(half);
                b.truncate(half);

                polynomial_at_point =
                    p_lo_at_point.add(challenge_inverse.mul(p_hi_at_point));
                b_scale = b_scale.add(b_hi_scale.mul(challenge));
                assert_eq!(polynomial_at_point, eval_polynomial(&polynomial, point));

                for (index, value) in b.iter().enumerate() {
                    assert_eq!(*value, b_scale.mul(powers[index]));
                }
            }
        }
    }
}

#[test]
fn compact_b_state_matches_explicit_folds_pallas_base() {
    compact_b_state_matches_explicit_folds::<Fp>();
}

#[test]
fn compact_b_state_matches_explicit_folds_vesta_base() {
    compact_b_state_matches_explicit_folds::<Fq>();
}

#[test]
fn masking_polynomials_of_large_sizes() {
    let k = usize::BITS - 1;
    let mut state = 5;
    let alphas: Vec<Fq> = (0..k).map(|_| random(&mut state)).collect();
    let x = Fq::from_u64(3);
    let terms = sample_ipa_masking_polynomial(k, x, &alphas);
    assert_eq!(terms.len(), k as usize + 1);
    assert_eq!(terms[k as usize].0, 1 << (k - 1));
    let value = terms.iter().fold(Fq::zero(), |sum, (index, coefficient)| {
        sum.add(coefficient.mul(x.pow_vartime(*index as u64)))
    });
    assert_eq!(value, Fq::zero());
}

#[test]
fn the_last_scalar_is_the_folded_masked_polynomial() {
    const K: u32 = 3;
    const SEED: u64 = 41;

    let params = Params::<EpAffine>::new(K);
    let polynomial = (0..1u64 << K)
        .map(|index| Fq::from_u64(index * index + 5))
        .collect::<Vec<_>>();
    let x: Fq = random(&mut 6);
    let transcript = seeded_opening(&params, &polynomial, Blind(Fq::from_u64(9)), x, SEED);

    let mut state = SEED;
    let alphas: Vec<Fq> = (0..K).map(|_| random(&mut state)).collect();
    let s_poly_blind: Fq = random(&mut state);
    let mut masked = polynomial.clone();
    masked[0] = masked[0].sub(eval_polynomial(&polynomial, x));
    for (index, coefficient) in sample_ipa_masking_polynomial(K, x, &alphas) {
        masked[index] = masked[index].add(coefficient.mul(transcript.xi));
    }
    for u_j in &transcript.challenges {
        let half = masked.len() / 2;
        let inverse = u_j.invert().unwrap();
        for index in 0..half {
            masked[index] = masked[index].add(masked[index + half].mul(inverse));
        }
        masked.truncate(half);
    }
    assert_eq!(masked, vec![transcript.scalars.0]);

    let begun = {
        let powers = power_vector(x, polynomial.len());
        let domain = EvaluationDomain::<Fq>::new(1, K);
        let (opening, _) = IpaOpening::new(
            &params,
            domain.coeff_from_vec(polynomial),
            Blind(Fq::from_u64(9)),
            x,
            powers,
            &alphas,
            Blind(s_poly_blind),
        );
        opening.begin(transcript.xi, transcript.z)
    };
    assert_eq!(
        begun.f,
        s_poly_blind.mul(transcript.xi).add(Fq::from_u64(9))
    );
}
