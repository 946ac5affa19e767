//! Evaluation of expressions: constants, scales, sums, rotations and bases.
use halo2_proofs::ast::{Ast, PointwiseBasis};
use halo2_proofs::basis::{copy_rotated_chunk, get_chunk_params, BasisOps, RotatedChunk};
use halo2_proofs::domain::EvaluationDomain;
use halo2_proofs::evaluate::PolySource;
use halo2_proofs::evaluator::{new_evaluator, Evaluator};
use halo2_proofs::field::{Field, Fp, Fq};
use halo2_proofs::fold::ReusablePowerFold;
use halo2_proofs::plan::EvaluationPlan;
use halo2_proofs::poly::{
    Basis, Coeff, ExtendedLagrangeCoeff, LagrangeCoeff, Polynomial, Rotation,
};
use halo2_proofs::scalars::{
    max_challenge_exponents, BoundPlanScalars, EvaluationChallenge, EvaluationChallenges,
    EvaluationPolyTag, PlanScalar, PlanScalarInterner, ScalarId, ScaleKind,
};

trait Value: Field + PartialEq + std::fmt::Debug {}

impl Value for Fp {}

impl Value for Fq {}

fn fp(value: u64) -> Fp {
    Fp::from_u64(value)
}

fn minus_one<F: Field>() -> F {
    F::one().neg()
}

fn filled<F: Field, B: BasisOps>(
    domain: &EvaluationDomain<F>,
    value: impl Fn(u64) -> u64,
) -> Polynomial<F, B> {
    let mut poly = B::empty_poly(domain);
    for (index, entry) in poly.values.iter_mut().enumerate() {
        *entry = F::from_u64(value(index as u64));
    }
    poly
}

fn compile_plan_only<F: Field, B: Basis>(ast: &Ast<(), F, B>) -> EvaluationPlan {
    let mut scalars = PlanScalarInterner::new();
    EvaluationPlan::compile(ast, &mut scalars)
}

fn check_reusable_power_fold<F: Value>() {
    let terms = |seed: u64| -> Vec<F> {
        (0..7).map(|offset| F::from_u64(seed + offset)).collect()
    };
    let cases = [
        vec![(terms(2), F::from_u64(3)), (terms(11), F::from_u64(5))],
        vec![(terms(17), F::one())],
        vec![(terms(23), F::one()), (terms(31), F::from_u64(7))],
        vec![(terms(41), F::from_u64(11)), (terms(47), F::one())],
        vec![(terms(53), F::one()), (terms(61), F::one())],
    ];
    let mut fold = ReusablePowerFold::<F>::new(7);
    for case in cases {
        fold.reset();
        let mut expected = vec![F::zero(); 7];
        for (terms, power) in case {
            fold.terms.copy_from_slice(&terms);
            fold.accumulate(power);
            for (expected, term) in expected.iter_mut().zip(terms) {
                *expected = expected.add(term.mul(power));
            }
        }
        let mut actual = vec![F::zero(); 7];
        fold.finish_into(&mut actual);
        assert_eq!(actual, expected);
    }
}

#[test]
fn reusable_power_fold_resets_every_buffer() {
    check_reusable_power_fold::<Fp>();
    check_reusable_power_fold::<Fq>();
}

#[test]
fn plan_scalars_are_exactly_interned_and_bound_once() {
    let descriptors = [
        PlanScalar::Literal(fp(3)),
        PlanScalar::Challenge(EvaluationChallenge::Theta),
        PlanScalar::Challenge(EvaluationChallenge::Beta),
        PlanScalar::Challenge(EvaluationChallenge::Gamma),
        PlanScalar::ScaledChallenge {
            challenge: EvaluationChallenge::Beta,
            factor: fp(5),
        },
        PlanScalar::ChallengePower {
            challenge: EvaluationChallenge::Y,
            exponent: 3,
        },
    ];
    let mut interner = PlanScalarInterner::new();
    let ids = descriptors.map(|descriptor| interner.intern(descriptor));
    assert_eq!(
        descriptors.map(|descriptor| interner.intern(descriptor)),
        ids
    );
    assert!(ids.windows(2).all(|pair| pair[0] != pair[1]));

    let stored = interner.finish();
    assert_eq!(stored.len(), descriptors.len());
    assert!(stored.iter().zip(&descriptors).all(|(a, b)| a.equals(b)));
    let exponents = max_challenge_exponents(&stored);
    let bound = BoundPlanScalars::new(
        &stored,
        EvaluationChallenges {
            // Equal challenge values must not coalesce their symbolic IDs.
            theta: fp(7),
            beta: fp(7),
            gamma: fp(7),
            y: fp(11),
        },
        exponents,
    );
    let expected = [
        fp(3),
        fp(7),
        fp(7),
        fp(7),
        fp(35),
        fp(11).pow_vartime(3),
    ];
    assert_eq!(ids.map(|id| bound.get(id)), expected);

    assert!(ScalarId::from_index(u32::MAX as usize).is_some());
    if usize::BITS > u32::BITS {
        assert!(ScalarId::from_index(u32::MAX as usize + 1).is_none());
    }
}

fn short_chunk_case<B: BasisOps>(k: u32) {
    let domain = EvaluationDomain::<Fp>::new(1, k);
    let mut evaluator: Evaluator<'_, (), Fp, B> = new_evaluator(());
    evaluator.register_poly(B::empty_poly(&domain));
    let _ = evaluator.evaluate(&Ast::ConstantTerm(Fp::zero()), &domain);
    let _ = evaluator.evaluate(&Ast::LinearTerm(Fp::zero()), &domain);
}

#[test]
fn short_chunk_regression_test() {
    let threads = maybe_rayon::current_num_threads();
    let found = (1..16)
        .map(|k| (k, get_chunk_params(1 << k, threads)))
        .find(|(k, (chunk_size, num_chunks))| (1usize << k) < chunk_size * num_chunks)
        .map(|(k, _)| k);
    // A power-of-two number of threads gives no short chunk.
    if let Some(k) = found {
        short_chunk_case::<Coeff>(k);
        short_chunk_case::<LagrangeCoeff>(k);
        short_chunk_case::<ExtendedLagrangeCoeff>(k);
    }
}

#[test]
fn chunks_cover_the_polynomial() {
    // Three threads, so eight chunks for each of them.
    assert_eq!(get_chunk_params(16, 3), (1, 16));
    assert_eq!(get_chunk_params(32, 3), (2, 16));
    assert_eq!(get_chunk_params(64, 3), (3, 22));
    assert_eq!(get_chunk_params(1 << 14, 8), (256, 64));
}

#[test]
fn borrowed_and_owned_polynomials_evaluate_together() {
    const K: u32 = 4;

    let domain = EvaluationDomain::<Fp>::new(1, K);
    let poly = domain.lagrange_from_vec((0..1 << K).map(|value| fp(value as u64)).collect());

    let mut evaluator = new_evaluator::<(), _, _>(());
    let borrowed_leaf = evaluator.register_poly_ref(&poly);
    assert!(matches!(
        &evaluator.polys[borrowed_leaf.index],
        PolySource::Borrowed(stored) if std::ptr::eq(*stored, &poly)
    ));

    let owned_leaf = evaluator.register_poly(poly.clone());
    assert!(matches!(
        &evaluator.polys[owned_leaf.index],
        PolySource::Owned(_)
    ));

    let sum = Ast::from_leaf(borrowed_leaf).add(Ast::from_leaf(owned_leaf));
    let mixed = evaluator.evaluate(&sum, &domain);
    let expected =
        domain.lagrange_from_vec(poly.values.iter().map(|value| value.double()).collect());

    assert_eq!(expected.values, mixed.values);
}

#[test]
fn scale_by_small_values() {
    let domain = EvaluationDomain::<Fp>::new(1, 4);
    let mut evaluator = new_evaluator::<(), _, ExtendedLagrangeCoeff>(());
    evaluator.register_poly(ExtendedLagrangeCoeff::empty_poly(&domain));

    let value = fp(42);
    for (scalar, expected) in [
        (Fp::one(), value),
        (minus_one(), value.neg()),
        (Fp::one().double(), value.double()),
    ] {
        let result = evaluator.evaluate(&Ast::ConstantTerm(value).scale(scalar), &domain);
        assert!(result.values.iter().all(|result| *result == expected));
    }
}

fn check_scaled_polynomials<B: BasisOps>() {
    let domain = EvaluationDomain::<Fp>::new(1, 4);
    let poly: Polynomial<Fp, B> = filled(&domain, |index| index + 7);
    let mut evaluator = new_evaluator::<(), _, B>(());
    let leaf = evaluator.register_poly(poly);

    for rotation in [Rotation::cur(), Rotation::prev(), Rotation::next()] {
        let leaf = leaf.with_rotation(rotation);
        let expected = evaluator.evaluate(&Ast::from_leaf(leaf), &domain);
        for scalar in [minus_one(), Fp::one(), Fp::one().double(), fp(7)] {
            let ast = Ast::from_leaf(leaf).scale(scalar);
            assert!(matches!(
                compile_plan_only(&ast),
                EvaluationPlan::Scale(inner, _)
                    if matches!(inner.as_ref(), EvaluationPlan::Poly(_))
            ));

            let result = evaluator.evaluate(&ast, &domain);
            assert!(result
                .values
                .iter()
                .zip(expected.values.iter())
                .all(|(result, value)| *result == value.mul(scalar)));
        }
    }
}

#[test]
fn scale_polynomials_by_small_values() {
    check_scaled_polynomials::<LagrangeCoeff>();
    check_scaled_polynomials::<ExtendedLagrangeCoeff>();
}

fn check_constant_products<B: BasisOps + PointwiseBasis>() {
    let domain = EvaluationDomain::<Fp>::new(1, 4);
    let poly: Polynomial<Fp, B> = filled(&domain, |index| index + 7);
    let expected = poly.clone();

    let mut evaluator = new_evaluator::<(), _, B>(());
    let leaf = evaluator.register_poly(poly);

    for scalar in [minus_one(), Fp::one(), Fp::one().double(), fp(7)] {
        let constant = Ast::ConstantTerm(scalar);
        let expression = Ast::from_leaf(leaf);
        let constant_lhs = constant.clone().product(expression.clone());
        let constant_rhs = expression.product(constant);

        for ast in [constant_lhs, constant_rhs] {
            assert!(matches!(&ast, Ast::Mul(_)));

            let result = evaluator.evaluate(&ast, &domain);
            assert!(result
                .values
                .iter()
                .zip(expected.values.iter())
                .all(|(result, value)| *result == value.mul(scalar)));
        }
    }
}

#[test]
fn multiply_by_constant_terms() {
    check_constant_products::<LagrangeCoeff>();
    check_constant_products::<ExtendedLagrangeCoeff>();
}

fn check_two_constants<B: BasisOps + PointwiseBasis>() {
    let domain = EvaluationDomain::<Fp>::new(3, 4);
    let mut evaluator = new_evaluator::<(), _, B>(());
    evaluator.register_poly_with_tag(B::empty_poly(&domain), EvaluationPolyTag::new(0, 0, 0));

    let pairs = [
        (minus_one(), fp(7)),
        (Fp::zero(), fp(11)),
        (Fp::one(), fp(13)),
        (fp(2), fp(17)),
    ];
    for (lhs, rhs) in pairs {
        let expected = lhs.mul(rhs);
        let ast = Ast::ConstantTerm(lhs).product(Ast::ConstantTerm(rhs));
        assert!(matches!(
            compile_plan_only(&ast),
            EvaluationPlan::Mul(lhs, rhs)
                if matches!(lhs.as_ref(), EvaluationPlan::ConstantTerm(_))
                    && matches!(rhs.as_ref(), EvaluationPlan::ConstantTerm(_))
        ));
        let actual = evaluator.evaluate(&ast, &domain);
        assert!(actual.values.iter().all(|value| *value == expected));
    }

    let ast = Ast::ChallengeTerm(EvaluationChallenge::Theta)
        .product(Ast::ChallengeTerm(EvaluationChallenge::Beta));
    let first = pairs[0];
    let (actual, plan) = evaluator.evaluate_quotient_with_compiled_plan(
        vec![ast],
        &domain,
        None,
        EvaluationChallenges::new(first.0, first.1, fp(19), fp(23)),
    );
    let expected = first.0.mul(first.1);
    assert!(actual.values.iter().all(|value| *value == expected));
    let plan = plan.expect("a tagged evaluation returns a retained plan");
    assert!(matches!(
        &plan.plan,
        EvaluationPlan::Mul(lhs, rhs)
            if matches!(lhs.as_ref(), EvaluationPlan::ConstantTerm(_))
                && matches!(rhs.as_ref(), EvaluationPlan::ConstantTerm(_))
    ));

    for (lhs, rhs) in &pairs[1..] {
        let (actual, replacement) = evaluator.evaluate_quotient_with_compiled_plan(
            vec![],
            &domain,
            Some(&plan),
            EvaluationChallenges::new(*lhs, *rhs, fp(29), fp(31)),
        );
        assert!(replacement.is_none());
        let expected = lhs.mul(*rhs);
        assert!(actual.values.iter().all(|value| *value == expected));
    }
}

#[test]
fn multiply_two_constant_terms() {
    check_two_constants::<LagrangeCoeff>();
    check_two_constants::<ExtendedLagrangeCoeff>();
}

fn assert_sum<B: BasisOps>(
    operation: usize,
    actual: &Polynomial<Fp, B>,
    value: &Polynomial<Fp, B>,
    constant: &Polynomial<Fp, B>,
) {
    assert!(actual
        .values
        .iter()
        .zip(value.values.iter().zip(constant.values.iter()))
        .all(|(actual, (value, constant))| {
            *actual
                == match operation {
                    0 | 1 => value.add(*constant),
                    2 => constant.sub(*value),
                    3 => value.sub(*constant),
                    _ => unreachable!(),
                }
        }));
}

fn sum_of<B: BasisOps>(
    operation: usize,
    constant: Ast<(), Fp, B>,
    value: Ast<(), Fp, B>,
) -> Ast<(), Fp, B> {
    match operation {
        0 => constant.add(value),
        1 => value.add(constant),
        2 => constant.sub(value),
        3 => value.sub(constant),
        _ => unreachable!(),
    }
}

fn assert_constant_add_sub_values<B: BasisOps>() {
    let domain = EvaluationDomain::<Fp>::new(3, 4);
    let mut evaluator = new_evaluator::<(), _, B>(());
    evaluator.register_poly_with_tag(B::empty_poly(&domain), EvaluationPolyTag::new(0, 0, 0));
    let value = Ast::LinearTerm(fp(11));
    let expected_value = evaluator.evaluate(&value, &domain);
    let scalars = [minus_one(), Fp::zero(), Fp::one(), fp(2), fp(7)];

    for scalar in scalars {
        let expected_constant = evaluator.evaluate(&Ast::ConstantTerm(scalar), &domain);
        for operation in 0..4 {
            let ast = sum_of(operation, Ast::ConstantTerm(scalar), value.clone());
            let actual = evaluator.evaluate(&ast, &domain);
            assert_sum(operation, &actual, &expected_value, &expected_constant);
        }

        // In the coefficient basis, multiplication by a constant is
        // represented by `Scale`, because pointwise `Mul` is only defined
        // for evaluation bases.
        let scaled = value.clone().scale(scalar);
        let actual = evaluator.evaluate(&scaled, &domain);
        assert!(actual
            .values
            .iter()
            .zip(expected_value.values.iter())
            .all(|(actual, value)| *actual == value.mul(scalar)));
    }

    for operation in 0..4 {
        let ast = sum_of(
            operation,
            Ast::ChallengeTerm(EvaluationChallenge::Theta),
            value.clone(),
        );
        let first_scalar = scalars[0];
        let first_challenges = EvaluationChallenges::new(first_scalar, fp(13), fp(17), fp(19));
        let (first, plan) = evaluator.evaluate_quotient_with_compiled_plan(
            vec![ast],
            &domain,
            None,
            first_challenges,
        );
        let plan = plan.expect("a tagged evaluation returns a retained plan");
        let expected_constant = evaluator.evaluate(&Ast::ConstantTerm(first_scalar), &domain);
        assert_sum(operation, &first, &expected_value, &expected_constant);

        for scalar in &scalars[1..] {
            let challenges = EvaluationChallenges::new(*scalar, fp(23), fp(29), fp(31));
            let (actual, replacement) = evaluator.evaluate_quotient_with_compiled_plan(
                vec![],
                &domain,
                Some(&plan),
                challenges,
            );
            assert!(replacement.is_none());
            let expected_constant = evaluator.evaluate(&Ast::ConstantTerm(*scalar), &domain);
            assert_sum(operation, &actual, &expected_value, &expected_constant);
        }
    }
}

#[test]
fn constant_add_sub_consumers_match_all_bases() {
    assert_constant_add_sub_values::<Coeff>();
    assert_constant_add_sub_values::<LagrangeCoeff>();
    assert_constant_add_sub_values::<ExtendedLagrangeCoeff>();
}

fn consumer<B: BasisOps + PointwiseBasis>(
    operation: usize,
    constant: Ast<(), Fp, B>,
    value: Ast<(), Fp, B>,
) -> Ast<(), Fp, B> {
    match operation {
        4 => constant.product(value),
        5 => value.product(constant),
        _ => sum_of(operation, constant, value),
    }
}

fn consumed(operation: usize, value: Fp, constant: Fp) -> Fp {
    match operation {
        0 | 1 => value.add(constant),
        2 => constant.sub(value),
        3 => value.sub(constant),
        4 | 5 => value.mul(constant),
        _ => unreachable!(),
    }
}

fn assert_consumed<B: Basis>(
    operation: usize,
    actual: &Polynomial<Fp, B>,
    value: &Polynomial<Fp, B>,
    scalar: Fp,
) {
    assert!(actual
        .values
        .iter()
        .zip(value.values.iter())
        .all(|(actual, value)| *actual == consumed(operation, *value, scalar)));
}

fn assert_cached_constant_consumers<B: BasisOps + PointwiseBasis>() {
    let domain = EvaluationDomain::<Fp>::new(3, 4);
    let values: Polynomial<Fp, B> = filled(&domain, |index| index + 3);
    let mut evaluator = new_evaluator::<(), _, B>(());
    let leaf = evaluator.register_poly_with_tag(values, EvaluationPolyTag::new(0, 0, 0));
    let value = Ast::from_leaf(leaf);
    let square = value.clone().product(value);
    let cached_value = square.clone().add(square);
    let expected_value = evaluator.evaluate(&cached_value, &domain);
    let scalars = [minus_one(), Fp::zero(), Fp::one(), fp(2), fp(7)];

    for scalar in scalars {
        // Keep the AST operand non-trivial while compiling it to a
        // `ConstantTerm`, so `Mul` retains its original plan shape.
        let constant = Ast::ConstantTerm(scalar).add(Ast::ConstantTerm(Fp::zero()));
        for operation in 0..6 {
            let ast = consumer(operation, constant.clone(), cached_value.clone());
            let (actual, plan) = evaluator.evaluate_quotient_with_compiled_plan(
                vec![ast],
                &domain,
                None,
                EvaluationChallenges::new(fp(11), fp(13), fp(17), fp(19)),
            );
            let plan = plan.expect("a tagged evaluation returns a retained plan");
            assert!(
                plan.cache_slots > 0,
                "the child is evaluated through the cache"
            );
            assert_consumed(operation, &actual, &expected_value, scalar);
        }
    }

    for operation in 0..6 {
        let ast = consumer(
            operation,
            Ast::ChallengeTerm(EvaluationChallenge::Theta),
            cached_value.clone(),
        );
        let first_scalar = scalars[0];
        let (first, plan) = evaluator.evaluate_quotient_with_compiled_plan(
            vec![ast],
            &domain,
            None,
            EvaluationChallenges::new(first_scalar, fp(13), fp(17), fp(19)),
        );
        let plan = plan.expect("a tagged evaluation returns a retained plan");
        assert!(
            plan.cache_slots > 0,
            "the child is evaluated through the cache"
        );
        assert_consumed(operation, &first, &expected_value, first_scalar);

        for scalar in &scalars[1..] {
            let (actual, replacement) = evaluator.evaluate_quotient_with_compiled_plan(
                vec![],
                &domain,
                Some(&plan),
                EvaluationChallenges::new(*scalar, fp(23), fp(29), fp(31)),
            );
            assert!(replacement.is_none());
            assert_consumed(operation, &actual, &expected_value, *scalar);
        }
    }
}

#[test]
fn cached_constant_consumers_match_pointwise_bases() {
    assert_cached_constant_consumers::<LagrangeCoeff>();
    assert_cached_constant_consumers::<ExtendedLagrangeCoeff>();
}

#[test]
fn subtract_polynomials() {
    let domain = EvaluationDomain::<Fp>::new(1, 4);
    let mut evaluator = new_evaluator::<(), _, ExtendedLagrangeCoeff>(());
    evaluator.register_poly(ExtendedLagrangeCoeff::empty_poly(&domain));

    let lhs = fp(42);
    let rhs = fp(17);
    let result = evaluator.evaluate(
        &Ast::ConstantTerm(lhs).sub(Ast::ConstantTerm(rhs)),
        &domain,
    );
    assert!(result.values.iter().all(|result| *result == lhs.sub(rhs)));
}

fn check_scaled_addends<F: Value, B: BasisOps>() {
    let domain = EvaluationDomain::<F>::new(3, 4);
    let mut evaluator = new_evaluator::<(), F, B>(());
    let mut leaves = vec![];
    for poly_index in 0..3 {
        let poly_len = B::empty_poly(&domain).len() as u64;
        let poly = filled(&domain, |row| poly_index * poly_len + row + 1);
        leaves.push(evaluator.register_poly(poly));
    }

    let lhs = Ast::from_leaf(leaves[0]);
    for rhs in [
        Ast::from_leaf(leaves[1]),
        Ast::from_leaf(leaves[1]).add(Ast::from_leaf(leaves[2])),
    ] {
        for scalar in [minus_one(), F::one(), F::one().double(), F::from_u64(7)] {
            let ast = lhs.clone().add(rhs.clone().scale(scalar));
            assert!(matches!(
                compile_plan_only(&ast),
                EvaluationPlan::Add(_, addend)
                    if matches!(addend.as_ref(), EvaluationPlan::Scale(_, _))
            ));

            let lhs_values = evaluator.evaluate(&lhs, &domain);
            let rhs_values = evaluator.evaluate(&rhs, &domain);
            let actual = evaluator.evaluate(&ast, &domain);
            assert!(actual
                .values
                .iter()
                .zip(lhs_values.values.iter().zip(rhs_values.values.iter()))
                .all(|(actual, (lhs, rhs))| *actual == lhs.add(rhs.mul(scalar))));
        }
    }
}

fn check_coefficient_scaled_addends<F: Value>() {
    let domain = EvaluationDomain::<F>::new(3, 4);
    let mut evaluator = new_evaluator::<(), F, Coeff>(());
    evaluator.register_poly(domain.empty_coeff());

    let lhs = Ast::ConstantTerm(F::from_u64(3));
    let rhs = Ast::ConstantTerm(F::from_u64(5)).add(Ast::LinearTerm(F::from_u64(7)));
    for scalar in [minus_one(), F::one(), F::one().double(), F::from_u64(11)] {
        let ast = lhs.clone().add(rhs.clone().scale(scalar));
        let lhs_values = evaluator.evaluate(&lhs, &domain);
        let rhs_values = evaluator.evaluate(&rhs, &domain);
        let actual = evaluator.evaluate(&ast, &domain);
        assert!(actual
            .values
            .iter()
            .zip(lhs_values.values.iter().zip(rhs_values.values.iter()))
            .all(|(actual, (lhs, rhs))| *actual == lhs.add(rhs.mul(scalar))));
    }
}

#[test]
fn scaled_addends_are_accumulated_in_place() {
    check_coefficient_scaled_addends::<Fp>();
    check_scaled_addends::<Fp, LagrangeCoeff>();
    check_scaled_addends::<Fp, ExtendedLagrangeCoeff>();
    check_coefficient_scaled_addends::<Fq>();
    check_scaled_addends::<Fq, LagrangeCoeff>();
    check_scaled_addends::<Fq, ExtendedLagrangeCoeff>();
}

#[test]
fn in_place_terms_match_basis_values() {
    let domain = EvaluationDomain::<Fp>::new(3, 4);
    let scalar = fp(17);

    let mut coeff_evaluator = new_evaluator::<(), _, Coeff>(());
    coeff_evaluator.register_poly(domain.empty_coeff());
    let mut expected = vec![Fp::zero(); 1 << 4];
    expected[0] = scalar;
    let actual = coeff_evaluator.evaluate(&Ast::ConstantTerm(scalar), &domain);
    assert_eq!(actual.values, expected);
    expected[0] = Fp::zero();
    expected[1] = scalar;
    let actual = coeff_evaluator.evaluate(&Ast::LinearTerm(scalar), &domain);
    assert_eq!(actual.values, expected);

    let mut lagrange_evaluator = new_evaluator::<(), _, LagrangeCoeff>(());
    lagrange_evaluator.register_poly(domain.empty_lagrange());
    assert!(lagrange_evaluator
        .evaluate(&Ast::ConstantTerm(scalar), &domain)
        .values
        .iter()
        .all(|value| *value == scalar));
    let mut value = scalar;
    let expected = (0..1 << 4)
        .map(|_| {
            let current = value;
            value = value.mul(domain.get_omega());
            current
        })
        .collect::<Vec<_>>();
    let actual = lagrange_evaluator.evaluate(&Ast::LinearTerm(scalar), &domain);
    assert_eq!(actual.values, expected);

    let mut extended_evaluator = new_evaluator::<(), _, ExtendedLagrangeCoeff>(());
    extended_evaluator.register_poly(domain.empty_extended());
    assert!(extended_evaluator
        .evaluate(&Ast::ConstantTerm(scalar), &domain)
        .values
        .iter()
        .all(|value| *value == scalar));
    let mut value = scalar.mul(Fp::zeta());
    let expected = (0..domain.extended_len())
        .map(|_| {
            let current = value;
            value = value.mul(domain.get_extended_omega());
            current
        })
        .collect::<Vec<_>>();
    let actual = extended_evaluator.evaluate(&Ast::LinearTerm(scalar), &domain);
    assert_eq!(actual.values, expected);
}

fn check_short_distributions<B: BasisOps>() {
    let domain = EvaluationDomain::<Fp>::new(3, 4);
    let mut evaluator = new_evaluator::<(), _, B>(());
    evaluator.register_poly(B::empty_poly(&domain));
    let base = fp(11);

    let empty = Ast::<(), Fp, B>::distribute_powers(vec![], base);
    let actual = evaluator.evaluate(&empty, &domain);
    assert!(actual.values.iter().all(|value| *value == Fp::zero()));

    let term = Ast::ConstantTerm(fp(17)).add(Ast::LinearTerm(fp(19)));
    let expected = evaluator.evaluate(&term, &domain);
    let singleton = Ast::distribute_powers(vec![term], base);
    let actual = evaluator.evaluate(&singleton, &domain);
    assert_eq!(actual.values, expected.values);
}

#[test]
fn empty_and_singleton_distribute_powers_match_direct_evaluation() {
    check_short_distributions::<Coeff>();
    check_short_distributions::<LagrangeCoeff>();
    check_short_distributions::<ExtendedLagrangeCoeff>();
}

fn assert_rotated_chunks<B: BasisOps>(
    domain: &EvaluationDomain<Fp>,
    poly: &Polynomial<Fp, B>,
    rotation: Rotation,
    expected: &[Fp],
    chunk_sizes: &[usize],
) {
    for chunk_size in chunk_sizes {
        for (chunk_index, expected) in expected.chunks(*chunk_size).enumerate() {
            let mut actual = vec![Fp::zero(); expected.len()];
            copy_rotated_chunk(
                domain,
                *chunk_size,
                chunk_index,
                poly,
                rotation,
                &mut actual,
            );
            assert_eq!(actual, expected);
        }
    }
}

#[test]
fn in_place_rotation_matches_existing_chunk_helpers() {
    let domain = EvaluationDomain::<Fp>::new(5, 4);
    let lagrange = domain.lagrange_from_vec((0..16).map(fp).collect());
    let extended: Polynomial<Fp, ExtendedLagrangeCoeff> = filled(&domain, |index| index);

    for rotation in [
        Rotation(-16),
        Rotation(-6),
        Rotation::prev(),
        Rotation::cur(),
        Rotation::next(),
        Rotation(12),
        Rotation(16),
    ] {
        let offset = rotation.0.rem_euclid(16) as usize;
        let mut rotated = lagrange.values.clone();
        rotated.rotate_left(offset);
        assert_rotated_chunks(&domain, &lagrange, rotation, &rotated, &[1, 3, 7, 16]);

        let rotated = domain.rotate_extended(&extended, rotation);
        let mut expected = extended.values.clone();
        expected.rotate_left(offset * 4);
        assert_eq!(rotated.values, expected);
        assert_rotated_chunks(
            &domain,
            &extended,
            rotation,
            &rotated.values,
            &[1, 3, 7, 16, 64],
        );
    }
}

#[test]
fn large_extended_rotations_are_cyclic() {
    let domain = EvaluationDomain::<Fp>::new(5, 4);
    let extended: Polynomial<Fp, ExtendedLagrangeCoeff> = filled(&domain, |index| index);

    let rotation_scale = domain.get_quotient_poly_degree().next_power_of_two() as usize;
    assert_eq!(rotation_scale, 4);
    assert_eq!(extended.len(), 64);
    let rotation_period = (extended.len() / rotation_scale) as i32;

    for rotation in [
        Rotation(1_073_741_825),
        Rotation(-1_073_741_825),
        Rotation(i32::MIN),
        Rotation(i32::MAX),
    ] {
        let offset = rotation.0.rem_euclid(rotation_period) as usize * rotation_scale;
        let mut expected = extended.values.clone();
        expected.rotate_left(offset);
        assert_rotated_chunks(&domain, &extended, rotation, &expected, &[7]);
    }
}

#[test]
fn scratch_evaluation_matches_rowwise_expression() {
    let domain = EvaluationDomain::<Fp>::new(5, 4);
    let lhs_poly: Polynomial<Fp, ExtendedLagrangeCoeff> = filled(&domain, |index| index + 1);
    let rhs_poly: Polynomial<Fp, ExtendedLagrangeCoeff> = filled(&domain, |index| 2 * index + 3);

    let lhs_cur = lhs_poly.clone();
    let lhs_prev = domain.rotate_extended(&lhs_poly, Rotation::prev());
    let rhs_prev = domain.rotate_extended(&rhs_poly, Rotation::prev());
    let rhs_next = domain.rotate_extended(&rhs_poly, Rotation::next());

    let mut evaluator = new_evaluator::<(), _, ExtendedLagrangeCoeff>(());
    let lhs = evaluator.register_poly(lhs_poly);
    let rhs = evaluator.register_poly(rhs_poly);
    let product = Ast::from_leaf(lhs.with_rotation(Rotation::prev()))
        .add(Ast::from_leaf(rhs.with_rotation(Rotation::next())))
        .product(
            Ast::from_leaf(lhs).sub(Ast::from_leaf(rhs.with_rotation(Rotation::prev()))),
        );
    let scaled = Ast::from_leaf(lhs).scale(fp(3));
    let constant = Ast::ConstantTerm(fp(7));
    let base = fp(11);
    let ast = Ast::distribute_powers(vec![product, scaled, constant], base);

    let actual = evaluator.evaluate(&ast, &domain);
    for index in 0..actual.len() {
        let product = lhs_prev.values[index]
            .add(rhs_next.values[index])
            .mul(lhs_cur.values[index].sub(rhs_prev.values[index]));
        let scaled = lhs_cur.values[index].mul(fp(3));
        let expected = product.mul(base).add(scaled).mul(base).add(fp(7));
        assert_eq!(actual.values[index], expected);
    }
}

fn check_repeated_subexpressions_use_squares<F: Value, B: BasisOps + PointwiseBasis>() {
    let domain = EvaluationDomain::<F>::new(3, 4);
    let values: Polynomial<F, B> = filled(&domain, |index| index + 3);

    let mut evaluator = new_evaluator::<(), _, B>(());
    let leaf = evaluator.register_poly(values);
    let repeated = Ast::from_leaf(leaf.with_rotation(Rotation::prev()))
        .add(Ast::ConstantTerm(F::from_u64(7)));
    let inner_square = repeated.clone().product(repeated.clone());
    let nested_square = inner_square.clone().product(inner_square);
    match &compile_plan_only(&nested_square) {
        EvaluationPlan::Square(inner) => {
            assert!(matches!(inner.as_ref(), EvaluationPlan::Square(_)));
        }
        _ => panic!("nested repeated operands compile to nested squares"),
    }

    let expected = evaluator.evaluate(&repeated, &domain);
    let actual = evaluator.evaluate(&nested_square, &domain);
    assert!(actual
        .values
        .iter()
        .zip(expected.values.iter())
        .all(|(actual, expected)| *actual == expected.square().square()));

    let lhs = Ast::from_leaf(leaf.with_rotation(Rotation::prev()));
    let rhs = Ast::from_leaf(leaf.with_rotation(Rotation::next()));
    let product = lhs.clone().product(rhs.clone());
    assert!(matches!(
        compile_plan_only(&product),
        EvaluationPlan::Mul(_, _)
    ));

    let expected_lhs = evaluator.evaluate(&lhs, &domain);
    let expected_rhs = evaluator.evaluate(&rhs, &domain);
    let actual = evaluator.evaluate(&product, &domain);
    assert!(actual
        .values
        .iter()
        .zip(expected_lhs.values.iter().zip(expected_rhs.values.iter()))
        .all(|(actual, (lhs, rhs))| *actual == lhs.mul(*rhs)));
}

#[test]
fn repeated_subexpressions_use_squares() {
    check_repeated_subexpressions_use_squares::<Fp, LagrangeCoeff>();
    check_repeated_subexpressions_use_squares::<Fp, ExtendedLagrangeCoeff>();
    check_repeated_subexpressions_use_squares::<Fq, LagrangeCoeff>();
    check_repeated_subexpressions_use_squares::<Fq, ExtendedLagrangeCoeff>();
}

#[test]
fn a_rotated_chunk_breaks_at_the_end_of_the_polynomial() {
    let values = [10, 11, 12, 13, 14];
    let chunk = RotatedChunk::new(&values, true, 1, 2, 0, 2);
    assert_eq!(chunk.first, &[14]);
    assert_eq!(chunk.second, &[10]);
    let chunk = RotatedChunk::new(&values, false, 1, 2, 1, 2);
    assert_eq!(chunk.into_slices(), (&[13, 14][..], &[][..]));
}

#[test]
fn bound_scalars_know_what_needs_no_multiplication() {
    let one = Fp::one();
    let stored = [one.neg(), one, one.double(), Fp::from_u64(3), Fp::zero()]
        .map(PlanScalar::Literal)
        .to_vec();
    let challenges = EvaluationChallenges {
        theta: one,
        beta: one,
        gamma: one,
        y: one,
    };
    let exponents = max_challenge_exponents(&stored);
    let bound = BoundPlanScalars::new(&stored, challenges, exponents);
    assert_eq!(
        bound.scale_kinds,
        vec![
            ScaleKind::MinusOne,
            ScaleKind::One,
            ScaleKind::Two,
            ScaleKind::Other,
            ScaleKind::Other,
        ]
    );
}
