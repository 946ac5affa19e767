//! Openings of several polynomials at several points.
use halo2_proofs::blind::Blind;
use halo2_proofs::collapse::{
    collapse_polynomials, collapse_polynomials_blocked_inner_product,
    collapse_polynomials_horner, fold_polynomials, power_vector,
    MIN_PARALLEL_FIELD_OPERATIONS_PER_THREAD,
};
use halo2_proofs::curve::{CurveAffine, EqAffine};
use halo2_proofs::division::{
    divide_by_vanishing_polynomial, kate_division_in_place, vanishing_polynomial,
};
use halo2_proofs::field::{Field, Fp, Fq};
use halo2_proofs::multiopen::{MultiopenOpening, OpeningError};
use halo2_proofs::params::Params;
use halo2_proofs::poly::{Coeff, Polynomial};
use halo2_proofs::qprime::{
    eval_polynomial, evaluate_polynomials_with_side_work, finish_q_prime_evaluation,
    prepare_q_prime, prepare_q_prime_evaluation,
};
use halo2_proofs::queries::{
    construct_intermediate_sets, construct_prover_intermediate_sets, intermediate_sets,
    PolynomialPointer, ProverIntermediateSetsResult, ProverQuery,
};

trait Value: Field + PartialEq + std::fmt::Debug + Send + Sync {}

impl Value for Fp {}

impl Value for Fq {}

type Poly<F> = Polynomial<F, Coeff>;

fn from_values<F: Field>(values: impl Iterator<Item = u64>) -> Poly<F> {
    Polynomial::new(values.map(F::from_u64).collect())
}

fn challenges<F: Field>() -> [F; 4] {
    [F::zero(), F::one(), F::one().neg(), F::from_u64(17)]
}

fn in_pool<R: Send>(workers: usize, work: impl FnOnce() -> R + Send) -> R {
    maybe_rayon::ThreadPoolBuilder::new()
        .num_threads(workers)
        .build()
        .unwrap()
        .install(work)
}

/// `a * challenge + b`, with the length of `a`.
fn scale_and_add<F: Field>(a: &[F], challenge: F, b: &[F]) -> Vec<F> {
    (0..a.len())
        .map(|i| {
            let addend = b.get(i).copied().unwrap_or(F::zero());
            a[i].mul(challenge).add(addend)
        })
        .collect()
}

fn reference_collapse<F: Field>(group: &[&Poly<F>], challenge: F) -> Vec<F> {
    group[1..]
        .iter()
        .fold(group[0].values.clone(), |accumulator, polynomial| {
            scale_and_add(&accumulator, challenge, &polynomial.values)
        })
}

fn values_of<F: Copy>(polynomials: &[Poly<F>]) -> Vec<Vec<F>> {
    polynomials
        .iter()
        .map(|polynomial| polynomial.values.clone())
        .collect()
}

fn streaming_collapse_matches_operator_collapse<F: Value>() {
    let long = MIN_PARALLEL_FIELD_OPERATIONS_PER_THREAD * 2 + 1;
    let lengths = [
        vec![long, long - 1, long + 1, long, long],
        vec![3],
        vec![6, 9],
    ];
    let groups = lengths
        .iter()
        .enumerate()
        .map(|(group_index, lengths)| {
            lengths
                .iter()
                .enumerate()
                .map(|(polynomial_index, length)| {
                    from_values((0..*length as u64).map(|coefficient_index| {
                        100 * group_index as u64
                            + 10 * polynomial_index as u64
                            + coefficient_index
                    }))
                })
                .collect::<Vec<Poly<F>>>()
        })
        .collect::<Vec<_>>();
    let group_refs = groups
        .iter()
        .map(|group| group.iter().collect::<Vec<_>>())
        .collect::<Vec<_>>();

    for challenge in challenges::<F>() {
        let expected = group_refs
            .iter()
            .map(|group| reference_collapse(group, challenge))
            .collect::<Vec<_>>();
        for thread_count in [1, 4] {
            let actual = in_pool(thread_count, || {
                values_of(&collapse_polynomials(&group_refs, challenge))
            });
            assert_eq!(actual, expected);
        }
    }
}

#[test]
fn streaming_collapse_matches_operator_collapse_fp() {
    streaming_collapse_matches_operator_collapse::<Fp>();
}

#[test]
fn streaming_collapse_matches_operator_collapse_fq() {
    streaming_collapse_matches_operator_collapse::<Fq>();
}

fn blocked_inner_product_boundaries_match_horner<F: Value>() {
    const POLYNOMIAL_LEN: usize = 257;
    const FOLLOWING_LENGTHS: [usize; 5] = [2, 3, 63, 64, 65];

    let groups = FOLLOWING_LENGTHS
        .iter()
        .enumerate()
        .map(|(group_index, following_len)| {
            let group_len = following_len + 1;
            (0..group_len)
                .map(|polynomial_index| {
                    let len = if group_index + 1 == FOLLOWING_LENGTHS.len()
                        && polynomial_index + 1 == group_len
                    {
                        2
                    } else {
                        POLYNOMIAL_LEN
                    };
                    from_values((0..len).map(|coefficient_index| {
                        1 + (group_index * 1_000_000
                            + polynomial_index * POLYNOMIAL_LEN
                            + coefficient_index) as u64
                    }))
                })
                .collect::<Vec<Poly<F>>>()
        })
        .collect::<Vec<_>>();
    let group_refs = groups
        .iter()
        .map(|group| group.iter().collect::<Vec<_>>())
        .collect::<Vec<_>>();
    let small_refs = group_refs[..1].to_vec();

    for challenge in challenges::<F>() {
        let expected = values_of(&collapse_polynomials_horner(&group_refs, challenge));
        let small_expected = values_of(&collapse_polynomials_horner(&small_refs, challenge));
        assert_eq!(
            expected[4],
            reference_collapse(&group_refs[4], challenge)
        );
        for thread_count in [1, 4, 10] {
            let (actual, small_actual) = in_pool(thread_count, || {
                (
                    collapse_polynomials_blocked_inner_product(&group_refs, challenge),
                    collapse_polynomials_blocked_inner_product(&small_refs, challenge),
                )
            });
            assert_eq!(values_of(&actual), expected);
            assert_eq!(values_of(&small_actual), small_expected);
        }
    }
}

#[test]
fn blocked_inner_product_boundaries_match_horner_fp() {
    blocked_inner_product_boundaries_match_horner::<Fp>();
}

#[test]
fn blocked_inner_product_boundaries_match_horner_fq() {
    blocked_inner_product_boundaries_match_horner::<Fq>();
}

fn zero_challenge_selects_last_polynomial<F: Value>() {
    let h: Poly<F> = from_values([2, 3, 5].into_iter());
    let r = from_values([7, 11, 13].into_iter());

    let collapsed = collapse_polynomials(&vec![vec![&h, &r]], F::zero());

    assert_eq!(collapsed.len(), 1);
    assert_eq!(collapsed[0].values, r.values);
}

#[test]
fn zero_challenge_selects_last_polynomial_fp() {
    zero_challenge_selects_last_polynomial::<Fp>();
}

#[test]
fn zero_challenge_selects_last_polynomial_fq() {
    zero_challenge_selects_last_polynomial::<Fq>();
}

fn short_trailing_polynomial_matches_zero_padding<F: Value>() {
    let len = MIN_PARALLEL_FIELD_OPERATIONS_PER_THREAD * 2 + 1;
    let first: Poly<F> = from_values((0..len as u64).map(|index| index + 1));
    let trailing = from_values([7, 11].into_iter());
    let mut padded = Polynomial::new(vec![F::zero(); len]);
    padded.values[..2].copy_from_slice(&trailing.values);

    for challenge in challenges::<F>() {
        let expected = collapse_polynomials(&vec![vec![&first, &padded]], challenge);
        for thread_count in [1, 4] {
            let actual = in_pool(thread_count, || {
                collapse_polynomials(&vec![vec![&first, &trailing]], challenge)
            });
            assert_eq!(actual[0].values, expected[0].values);
        }
    }
}

#[test]
fn short_trailing_polynomial_matches_zero_padding_fp() {
    short_trailing_polynomial_matches_zero_padding::<Fp>();
}

#[test]
fn short_trailing_polynomial_matches_zero_padding_fq() {
    short_trailing_polynomial_matches_zero_padding::<Fq>();
}

/// The quotient of a division by `X - point`.
fn kate_division<F: Field>(a: &[F], point: F) -> Vec<F> {
    let mut quotient = vec![F::zero(); a.len() - 1];
    let mut carried = F::zero();
    for i in (0..quotient.len()).rev() {
        carried = carried.mul(point).add(a[i + 1]);
        quotient[i] = carried;
    }
    quotient
}

fn in_place_kate_division_matches_allocating<F: Value>() {
    for (coefficients, points) in [
        (vec![F::from_u64(9)], vec![F::zero()]),
        (
            (0..8).map(|value| F::from_u64(value + 1)).collect(),
            vec![F::zero(), F::one(), F::one().neg(), F::from_u64(7)],
        ),
    ] {
        let mut expected = coefficients.clone();
        let mut expected_remainders = Vec::with_capacity(points.len());
        for point in &points {
            expected_remainders.push(eval_polynomial(&expected, *point));
            expected = kate_division(&expected, *point);
        }

        let mut actual = coefficients;
        let actual_remainders = points
            .iter()
            .map(|point| kate_division_in_place(&mut actual, *point))
            .collect::<Vec<_>>();
        assert_eq!(expected, actual);
        assert_eq!(expected_remainders, actual_remainders);
    }
}

#[test]
fn in_place_kate_division_matches_allocating_fp() {
    in_place_kate_division_matches_allocating::<Fp>();
}

#[test]
fn in_place_kate_division_matches_allocating_fq() {
    in_place_kate_division_matches_allocating::<Fq>();
}

fn direct_vanishing_division_matches_successive_division<F: Value>() {
    for coefficients in [Vec::new(), vec![F::from_u64(7), F::from_u64(11)]] {
        let (quotient, remainder) =
            divide_by_vanishing_polynomial(&Polynomial::new(coefficients.clone()), &[]);
        assert_eq!(quotient, coefficients);
        assert!(remainder.is_empty());
    }

    let small = F::from_u64;
    let point_sets = [
        vec![small(2)],
        vec![small(3), small(5)],
        vec![F::zero(), F::one().neg(), small(11)],
        vec![small(7), small(13), small(17), small(19)],
    ];

    for points in point_sets {
        let vanishing = vanishing_polynomial(&points);
        assert_eq!(vanishing.len(), points.len() + 1);
        assert_eq!(vanishing.last(), Some(&F::one()));

        for polynomial_len in [
            points.len(),
            points.len() + 1,
            points.len() + 2,
            points.len() + 3,
            17,
        ] {
            let coefficients = (0..polynomial_len)
                .map(|index| {
                    if index % 5 == 0 {
                        F::zero()
                    } else {
                        small((index * index + 3 * index + 7) as u64)
                    }
                })
                .collect::<Vec<_>>();
            let mut expected = coefficients.clone();
            for point in &points {
                expected = kate_division(&expected, *point);
            }

            let (actual, remainder) =
                divide_by_vanishing_polynomial(&Polynomial::new(coefficients.clone()), &points);
            assert_eq!(actual, expected);
            assert_eq!(remainder.len(), points.len());

            for evaluation_point in [F::zero(), F::one(), F::one().neg(), small(23), small(29)] {
                let expected_vanishing = points.iter().fold(F::one(), |value, point| {
                    value.mul(evaluation_point.sub(*point))
                });
                assert_eq!(
                    eval_polynomial(&vanishing, evaluation_point),
                    expected_vanishing,
                );
                assert_eq!(
                    eval_polynomial(&remainder, evaluation_point),
                    eval_polynomial(&coefficients, evaluation_point)
                        .sub(expected_vanishing.mul(eval_polynomial(&actual, evaluation_point))),
                );
            }
        }
    }
}

#[test]
fn direct_vanishing_division_matches_successive_division_fp() {
    direct_vanishing_division_matches_successive_division::<Fp>();
}

#[test]
fn direct_vanishing_division_matches_successive_division_fq() {
    direct_vanishing_division_matches_successive_division::<Fq>();
}

fn reference_q_prime<F: Field>(
    point_sets: &[Vec<F>],
    polynomials: &[Poly<F>],
    challenge: F,
    domain_len: usize,
) -> Vec<F> {
    let mut folded = vec![F::zero(); domain_len];
    for (points, polynomial) in point_sets.iter().zip(polynomials) {
        let mut values = polynomial.values.clone();
        for point in points {
            values = kate_division(&values, *point);
        }
        values.resize(domain_len, F::zero());
        folded = scale_and_add(&folded, challenge, &values);
    }
    folded
}

fn parallel_q_prime_matches_ordered_operator_fold<F: Value>() {
    // This is the exact point-set and polynomial-length shape of the
    // Orchard k = 11 prover, and crosses both parallel-work thresholds
    // with four workers.
    let domain_len = 1 << 11;
    let small = F::from_u64;
    let point_sets = vec![
        vec![small(2)],
        vec![small(3), small(5)],
        vec![F::zero(), F::one().neg(), small(11)],
        vec![small(7), small(13), small(17)],
        vec![small(19), small(23)],
    ];
    let polynomials = (0..point_sets.len() as u64)
        .map(|polynomial_index| {
            from_values((0..domain_len as u64).map(|coefficient_index| {
                1 + polynomial_index * domain_len as u64 + coefficient_index
            }))
        })
        .collect::<Vec<Poly<F>>>();

    for challenge in challenges::<F>() {
        let expected = reference_q_prime(&point_sets, &polynomials, challenge, domain_len);
        for thread_count in [1, 4] {
            in_pool(thread_count, || {
                let actual = prepare_q_prime(&point_sets, &polynomials, challenge, domain_len);
                assert_eq!(actual.polynomial.values, expected);

                for point in [small(29), small(31)] {
                    let q_evaluations = polynomials
                        .iter()
                        .map(|polynomial| eval_polynomial(&polynomial.values, point))
                        .collect::<Vec<_>>();
                    let prepared =
                        prepare_q_prime_evaluation(&point_sets, &actual.monomial_remainders, point)
                            .unwrap();
                    let derived = finish_q_prime_evaluation(&prepared, &q_evaluations, challenge);
                    assert_eq!(
                        derived,
                        eval_polynomial(&actual.polynomial.values, point)
                    );
                }

                let collision = point_sets[0][0];
                assert!(prepare_q_prime_evaluation(
                    &point_sets,
                    &actual.monomial_remainders,
                    collision,
                )
                .is_none());
            });
        }
    }
}

#[test]
fn parallel_q_prime_matches_ordered_operator_fold_fp() {
    parallel_q_prime_matches_ordered_operator_fold::<Fp>();
}

#[test]
fn parallel_q_prime_matches_ordered_operator_fold_fq() {
    parallel_q_prime_matches_ordered_operator_fold::<Fq>();
}

fn parallel_evaluations_match_serial_order<F: Value>() {
    let (empty_evaluations, side_output) =
        evaluate_polynomials_with_side_work::<F, _, _>(&vec![], &vec![], || 17);
    assert!(empty_evaluations.is_empty());
    assert_eq!(side_output, 17);

    let polynomial_len = MIN_PARALLEL_FIELD_OPERATIONS_PER_THREAD * 2 + 1;
    let polynomials = (0..5u64)
        .map(|polynomial_index| {
            from_values((0..polynomial_len as u64).map(|coefficient_index| {
                1 + polynomial_index * polynomial_len as u64 + coefficient_index
            }))
        })
        .collect::<Vec<Poly<F>>>();

    for point in challenges::<F>() {
        let powers = power_vector(point, polynomial_len);
        let expected = polynomials
            .iter()
            .map(|polynomial| eval_polynomial(&polynomial.values, point))
            .collect::<Vec<_>>();
        for thread_count in [1, 3, 4, 5, 10] {
            let (actual, side_output) = in_pool(thread_count, || {
                evaluate_polynomials_with_side_work(&polynomials, &powers, || 19)
            });
            assert_eq!(actual, expected);
            assert_eq!(side_output, 19);
        }
    }
}

#[test]
fn parallel_evaluations_match_serial_order_fp() {
    parallel_evaluations_match_serial_order::<Fp>();
}

#[test]
fn parallel_evaluations_match_serial_order_fq() {
    parallel_evaluations_match_serial_order::<Fq>();
}

fn chunk_major_fold_matches_operator_fold<F: Value>() {
    let len = MIN_PARALLEL_FIELD_OPERATIONS_PER_THREAD as u64 * 2 + 1;
    let accumulator: Poly<F> = from_values((0..len).map(|index| index + 1));
    let polynomials = (0..5)
        .map(|polynomial_index| {
            from_values((0..len).map(|index| polynomial_index * len + index * 3 + 2))
        })
        .collect::<Vec<Poly<F>>>();

    for polynomial_count in [0, 1, polynomials.len()] {
        for challenge in challenges::<F>() {
            let chosen = polynomials[..polynomial_count].to_vec();
            let expected = chosen
                .iter()
                .fold(accumulator.values.clone(), |accumulator, polynomial| {
                    scale_and_add(&accumulator, challenge, &polynomial.values)
                });
            for thread_count in [1, 4, 10] {
                let actual = in_pool(thread_count, || {
                    fold_polynomials(accumulator.clone(), challenge, &chosen)
                });
                assert_eq!(actual.values, expected);
            }
        }
    }
}

#[test]
fn chunk_major_fold_matches_operator_fold_fp() {
    chunk_major_fold_matches_operator_fold::<Fp>();
}

#[test]
fn chunk_major_fold_matches_operator_fold_fq() {
    chunk_major_fold_matches_operator_fold::<Fq>();
}

fn query(
    point: Fp,
    identity: usize,
    polynomials: &[Poly<Fp>],
    blind: Blind<Fp>,
) -> ProverQuery<'_, EqAffine> {
    ProverQuery {
        point,
        commitment: PolynomialPointer {
            identity,
            poly: &polynomials[identity],
            blind,
        },
    }
}

#[test]
fn prover_point_masks_match_generic_intermediate_sets() {
    let polynomials = (0..4)
        .map(|polynomial_index| from_values([polynomial_index + 1].into_iter()))
        .collect::<Vec<Poly<Fp>>>();
    let points = [5, 7, 11].map(Fp::from_u64);
    let blind = Blind(Fp::from_u64(13));
    let queries = [(2, 0), (0, 0), (0, 1), (2, 1), (1, 2), (1, 3), (2, 3)]
        .iter()
        .map(|(point, polynomial)| query(points[*point], *polynomial, &polynomials, blind))
        .collect::<Vec<_>>();

    let expected = construct_intermediate_sets(&queries).unwrap();
    let actual = match construct_prover_intermediate_sets(&queries) {
        ProverIntermediateSetsResult::Complete(Some(intermediate_sets)) => intermediate_sets,
        _ => panic!("the supported query set is valid"),
    };

    assert_eq!(actual.point_sets, expected.point_sets);
    assert_eq!(actual.commitments.len(), expected.commitments.len());
    for ((actual_commitment, actual_set_index), (commitment, set_index)) in
        actual.commitments.iter().zip(&expected.commitments)
    {
        assert!(actual_commitment.same(commitment));
        assert_eq!(actual_set_index, set_index);
    }

    // The first two polynomials are opened at the same two points.
    assert_eq!(actual.commitments[0].1, actual.commitments[1].1);
    assert_eq!(actual.point_sets.len(), 3);
    assert!(intermediate_sets(&queries).is_some());
}

#[test]
fn prover_point_masks_reject_duplicates() {
    let polynomials = vec![from_values([1].into_iter())];
    let query = query(Fp::from_u64(5), 0, &polynomials, Blind(Fp::zero()));

    assert!(matches!(
        construct_prover_intermediate_sets(&vec![query, query]),
        ProverIntermediateSetsResult::Complete(None),
    ));
    assert!(intermediate_sets(&vec![query, query]).is_none());
}

#[test]
fn prover_point_masks_fall_back_above_mask_width() {
    let polynomials = vec![from_values([1].into_iter())];
    let queries = (0..=u64::from(usize::BITS))
        .map(|index| {
            query(
                Fp::from_u64(index + 1),
                0,
                &polynomials,
                Blind(Fp::zero()),
            )
        })
        .collect::<Vec<_>>();

    assert!(construct_intermediate_sets(&queries).is_some());
    assert!(matches!(
        construct_prover_intermediate_sets(&queries),
        ProverIntermediateSetsResult::TooManyPoints,
    ));
    assert!(intermediate_sets(&queries).is_some());
}

#[test]
fn a_combined_opening_commits_to_its_parts() {
    const K: u32 = 4;
    let params = Params::<EqAffine>::new(K);
    let n = params.n;
    let polynomials = (0..3)
        .map(|index| from_values((0..n).map(|row| 5 * index + row * row + 1)))
        .collect::<Vec<Poly<Fp>>>();
    let blinds = [31, 37, 41].map(|value| Blind(Fp::from_u64(value)));
    let points = [5, 7].map(Fp::from_u64);
    let queries = vec![
        query(points[0], 0, &polynomials, blinds[0]),
        query(points[0], 1, &polynomials, blinds[1]),
        query(points[1], 1, &polynomials, blinds[1]),
        query(points[1], 2, &polynomials, blinds[2]),
        query(points[0], 2, &polynomials, blinds[2]),
    ];
    let [x_1, x_2, x_3, x_4] = [101, 103, 107, 109].map(Fp::from_u64);
    let q_prime_blind = Blind(Fp::from_u64(43));

    let (opening, q_prime) =
        MultiopenOpening::new(&params, &queries, x_1, x_2, q_prime_blind).unwrap();
    assert_eq!(opening.q_polys.len(), 2);
    let q_commitments = opening
        .q_polys
        .iter()
        .zip(&opening.q_blinds)
        .map(|(poly, blind)| params.commit(poly, *blind))
        .collect::<Vec<_>>();
    let commitments = polynomials
        .iter()
        .zip(&blinds)
        .map(|(poly, blind)| params.commit(poly, *blind))
        .collect::<Vec<_>>();
    // The second and the third polynomial share their points.
    assert!(q_commitments[0].equals(&commitments[0]));
    assert!(q_commitments[1].equals(&commitments[1].mul(x_1).add(commitments[2])));

    let evaluated = opening.evaluate(x_3);
    assert_eq!(
        evaluated.q_evaluations,
        evaluated
            .opening
            .q_polys
            .iter()
            .map(|poly| eval_polynomial(&poly.values, x_3))
            .collect::<Vec<_>>()
    );
    // The quotients at x_3, folded by x_2.
    let mut quotient_at_x_3 = Fp::zero();
    for (points, polynomial) in evaluated
        .opening
        .point_sets
        .iter()
        .zip(&evaluated.opening.q_polys)
    {
        let mut values = polynomial.values.clone();
        for point in points {
            values = kate_division(&values, *point);
        }
        quotient_at_x_3 = quotient_at_x_3
            .mul(x_2)
            .add(eval_polynomial(&values, x_3));
    }
    assert_eq!(evaluated.q_prime_evaluation, quotient_at_x_3);

    let combined = evaluated.combine(x_4);
    assert_eq!(
        combined.p_evaluation,
        eval_polynomial(&combined.p_poly.values, x_3)
    );
    let expected = q_prime
        .mul(x_4)
        .add(q_commitments[0])
        .mul(x_4)
        .add(q_commitments[1]);
    assert!(params
        .commit(&combined.p_poly, combined.p_blind)
        .equals(&expected));
}

#[test]
fn openings_without_or_with_repeated_queries_are_rejected() {
    let params = Params::<EqAffine>::new(2);
    let polynomials: Vec<Poly<Fp>> = vec![from_values([1, 2, 3, 4].into_iter())];
    let one = Fp::one();
    let query = query(Fp::from_u64(5), 0, &polynomials, Blind(one));
    for queries in [vec![], vec![query, query]] {
        let result = MultiopenOpening::new(&params, &queries, one, one, Blind(one));
        assert_eq!(result.err(), Some(OpeningError::InvalidQueries));
    }
    assert!(MultiopenOpening::new(&params, &vec![query], one, one, Blind(one)).is_ok());
}
