//! Shared factors, selector families and expanded polynomials.
use std::sync::Arc;

use halo2_proofs::ast::{Ast, AstLeaf, AstMul, FactorSide};
use halo2_proofs::domain::EvaluationDomain;
use halo2_proofs::evaluator::new_evaluator;
use halo2_proofs::field::{Field, Fp, Fq};
use halo2_proofs::plan::{DistributionWork, EvaluationPlan, FactorBodyPlan};
use halo2_proofs::poly::{Basis, ExtendedLagrangeCoeff, LagrangeCoeff, Polynomial, Rotation};
use halo2_proofs::scalars::{PlanScalar, PlanScalarInterner, ScalarId};
use halo2_proofs::shapes::{compressed_selector, expanded_polynomial, selector_family_matches};

trait Value: Field + PartialEq + std::fmt::Debug {}

impl Value for Fp {}

impl Value for Fq {}

type Extended<F> = Ast<(), F, ExtendedLagrangeCoeff>;

type Leaf = AstLeaf<(), ExtendedLagrangeCoeff>;

fn fp(value: u64) -> Fp {
    Fp::from_u64(value)
}

fn minus_one<F: Field>() -> F {
    F::one().neg()
}

fn filled<F: Field>(
    domain: &EvaluationDomain<F>,
    value: impl Fn(u64) -> u64,
) -> Polynomial<F, ExtendedLagrangeCoeff> {
    let mut poly = domain.empty_extended();
    for (index, entry) in poly.values.iter_mut().enumerate() {
        *entry = F::from_u64(value(index as u64));
    }
    poly
}

fn compile_plan<F: Field, B: Basis>(
    ast: &Ast<(), F, B>,
) -> (EvaluationPlan, Vec<PlanScalar<F>>) {
    let mut scalars = PlanScalarInterner::new();
    let plan = EvaluationPlan::compile(ast, &mut scalars);
    (plan, scalars.finish())
}

fn is_literal<F: Field>(scalars: &[PlanScalar<F>], id: ScalarId, value: F) -> bool {
    scalars[id.index()].equals(&PlanScalar::Literal(value))
}

fn expanded_polynomial_expression<F: Field>(
    base: Extended<F>,
    coefficients: &[Leaf],
    prefix: F,
) -> Extended<F> {
    let mut polynomial = Ast::ConstantTerm(prefix);
    let mut power = Ast::ConstantTerm(F::one());
    for coefficient in coefficients {
        polynomial = polynomial.add(power.clone().product(Ast::from_leaf(*coefficient)));
        power = power.product(base.clone());
    }
    polynomial
}

fn polynomial_expression_from_powers<F: Field>(
    powers: &[Extended<F>],
    coefficients: &[Leaf],
) -> Extended<F> {
    powers.iter().zip(coefficients).fold(
        Ast::ConstantTerm(F::zero()),
        |polynomial, (power, coefficient)| {
            polynomial.add(power.clone().product(Ast::from_leaf(*coefficient)))
        },
    )
}

fn check_expanded_polynomials_use_horner<F: Value>() {
    const INTERPOLATION_WIDTH: u64 = 8;

    let domain = EvaluationDomain::<F>::new(3, 3);
    let to_extended = |value: &dyn Fn(u64) -> u64| {
        let values = (0..INTERPOLATION_WIDTH)
            .map(|row| F::from_u64(value(row)))
            .collect();
        domain.coeff_to_extended(domain.lagrange_to_coeff(domain.lagrange_from_vec(values)))
    };

    let direct_base = to_extended(&|row| row + 3);
    let left_base = to_extended(&|row| 2 * row + 5);
    let right_base = to_extended(&|row| 3 * row + 1);
    let coefficient_polys = (0..INTERPOLATION_WIDTH)
        .map(|degree| to_extended(&|row| (degree + 2) * (row + 7) + 1))
        .collect::<Vec<_>>();
    let direct_target = to_extended(&|row| 5 * row + 11);
    let compound_target = to_extended(&|row| 7 * row + 13);
    let selector = to_extended(&|row| row + 17);

    let direct_base_values = direct_base.values.clone();
    let left_base_values = left_base.values.clone();
    let right_base_values = right_base.values.clone();
    let coefficient_values = coefficient_polys
        .iter()
        .map(|coefficient| coefficient.values.clone())
        .collect::<Vec<_>>();
    let direct_target_values = direct_target.values.clone();
    let compound_target_values = compound_target.values.clone();
    let selector_values = selector.values.clone();

    let mut evaluator = new_evaluator::<(), F, ExtendedLagrangeCoeff>(());
    let direct_base = evaluator.register_poly(direct_base);
    let left_base = evaluator.register_poly(left_base);
    let right_base = evaluator.register_poly(right_base);
    let coefficients = coefficient_polys
        .into_iter()
        .map(|coefficient| evaluator.register_poly(coefficient))
        .collect::<Vec<_>>();
    let direct_target = evaluator.register_poly(direct_target);
    let compound_target = evaluator.register_poly(compound_target);
    let selector = evaluator.register_poly(selector);

    let direct_base = Ast::from_leaf(direct_base);
    let scale = F::from_u64(INTERPOLATION_WIDTH);
    let compound_base =
        Ast::from_leaf(left_base).sub(Ast::from_leaf(right_base).scale(scale));
    let direct = expanded_polynomial_expression(direct_base.clone(), &coefficients, F::zero())
        .sub(Ast::from_leaf(direct_target));
    let compound =
        expanded_polynomial_expression(compound_base.clone(), &coefficients, F::zero())
            .sub(Ast::from_leaf(compound_target));

    let challenge = F::from_u64(19);
    let selector = Ast::from_leaf(selector);
    let expression = Ast::distribute_powers(
        vec![
            selector.clone().product(direct),
            selector.product(compound),
        ],
        challenge,
    );
    let actual = evaluator.evaluate(&expression, &domain);
    for row in 0..actual.len() {
        let evaluate = |base: F| {
            coefficient_values
                .iter()
                .rev()
                .fold(F::zero(), |accumulator, coefficient| {
                    accumulator.mul(base).add(coefficient[row])
                })
        };
        let direct = evaluate(direct_base_values[row]).sub(direct_target_values[row]);
        let compound_base = left_base_values[row].sub(right_base_values[row].mul(scale));
        let compound = evaluate(compound_base).sub(compound_target_values[row]);
        let expected = selector_values[row].mul(direct.mul(challenge).add(compound));
        assert_eq!(actual.values[row], expected);
    }

    let direct_polynomial =
        expanded_polynomial_expression(direct_base.clone(), &coefficients, F::zero());
    assert!(matches!(
        compile_plan(&direct_polynomial).0,
        EvaluationPlan::Horner { .. }
    ));

    let nonzero_prefix =
        expanded_polynomial_expression(direct_base.clone(), &coefficients, F::one());
    assert!(expanded_polynomial(&nonzero_prefix).is_none());
    let short =
        expanded_polynomial_expression(direct_base.clone(), &coefficients[..3], F::zero());
    assert!(expanded_polynomial(&short).is_none());

    let mut powers = vec![];
    let mut power = Ast::ConstantTerm(F::one());
    for _ in &coefficients {
        powers.push(power.clone());
        power = power.product(compound_base.clone());
    }

    let mut broken_powers = powers.clone();
    broken_powers[4] = powers[2].clone();
    let broken = polynomial_expression_from_powers(&broken_powers, &coefficients);
    assert!(expanded_polynomial(&broken).is_none());

    let mut changed_base = powers;
    changed_base[4] = changed_base[3].clone().product(direct_base);
    let changed = polynomial_expression_from_powers(&changed_base, &coefficients);
    assert!(expanded_polynomial(&changed).is_none());
}

#[test]
fn expanded_polynomials_use_horner() {
    check_expanded_polynomials_use_horner::<Fp>();
    check_expanded_polynomials_use_horner::<Fq>();
}

#[test]
fn extended_shared_factors_support_nested_rotated_bodies() {
    let domain = EvaluationDomain::<Fp>::new(5, 4);
    let poly_len = domain.extended_len() as u64;
    let mut polys = (0..4)
        .map(|poly_index| filled(&domain, |row| poly_index * poly_len + row + 1))
        .collect::<Vec<_>>();

    let a_prev = domain.rotate_extended(&polys[0], Rotation::prev()).values;
    let b_next = domain.rotate_extended(&polys[1], Rotation::next()).values;
    let c_cur = polys[2].values.clone();
    let c_prev = domain.rotate_extended(&polys[2], Rotation::prev()).values;
    let c_next = domain.rotate_extended(&polys[2], Rotation::next()).values;
    let d_cur = polys[3].values.clone();
    let d_prev = domain.rotate_extended(&polys[3], Rotation::prev()).values;
    let d_next = domain.rotate_extended(&polys[3], Rotation::next()).values;

    let mut evaluator = new_evaluator::<(), _, ExtendedLagrangeCoeff>(());
    let a = evaluator.register_poly(polys.remove(0));
    let b = evaluator.register_poly(polys.remove(0));
    let c = evaluator.register_poly(polys.remove(0));
    let d = evaluator.register_poly(polys.remove(0));
    let prev = |leaf: Leaf| -> Extended<Fp> {
        Ast::from_leaf(leaf.with_rotation(Rotation::prev()))
    };
    let next = |leaf: Leaf| -> Extended<Fp> {
        Ast::from_leaf(leaf.with_rotation(Rotation::next()))
    };

    let factor = prev(a).add(next(b));
    let body_a = prev(c).add(next(d)).product(next(c).sub(prev(d)));
    let body_base = fp(13);
    let body_b = Ast::distribute_powers(
        vec![
            Ast::from_leaf(c).product(Ast::from_leaf(d)),
            prev(c).add(next(d)),
            Ast::ConstantTerm(fp(7)),
        ],
        body_base,
    );
    let outer_base = fp(19);
    let left = Ast::distribute_powers(
        vec![
            factor.clone().product(body_a.clone()),
            factor.clone().product(body_b.clone()),
        ],
        outer_base,
    );
    let right = Ast::distribute_powers(
        vec![body_a.product(factor.clone()), body_b.product(factor)],
        outer_base,
    );

    let actual_left = evaluator.evaluate(&left, &domain);
    let actual_right = evaluator.evaluate(&right, &domain);
    for row in 0..actual_left.len() {
        let factor = a_prev[row].add(b_next[row]);
        let body_a = c_prev[row]
            .add(d_next[row])
            .mul(c_next[row].sub(d_prev[row]));
        let body_b = c_cur[row]
            .mul(d_cur[row])
            .mul(body_base)
            .add(c_prev[row])
            .add(d_next[row])
            .mul(body_base)
            .add(fp(7));
        let expected = factor.mul(body_a).mul(outer_base).add(factor.mul(body_b));
        assert_eq!(actual_left.values[row], expected);
        assert_eq!(actual_right.values[row], expected);
    }
}

fn check_shared_factor_groups<F: Value>() {
    let domain = EvaluationDomain::<F>::new(1, 3);
    let factor_a_values = [2_u64, 3, 5, 7, 11, 13, 17, 19].map(F::from_u64);
    let factor_b_values = [23_u64, 29, 31, 37, 41, 43, 47, 53].map(F::from_u64);
    let body_values = [
        [59_u64, 61, 67, 71, 73, 79, 83, 89],
        [97, 101, 103, 107, 109, 113, 127, 131],
        [137, 139, 149, 151, 157, 163, 167, 173],
        [179, 181, 191, 193, 197, 199, 211, 223],
        [227, 229, 233, 239, 241, 251, 257, 263],
        [269, 271, 277, 281, 283, 293, 307, 311],
    ]
    .map(|values| values.map(F::from_u64));

    let mut evaluator = new_evaluator::<(), _, LagrangeCoeff>(());
    let factor_a = evaluator.register_poly(domain.lagrange_from_vec(factor_a_values.to_vec()));
    let factor_b = evaluator.register_poly(domain.lagrange_from_vec(factor_b_values.to_vec()));
    let bodies = body_values
        .iter()
        .map(|values| evaluator.register_poly(domain.lagrange_from_vec(values.to_vec())))
        .collect::<Vec<_>>();

    let common_factor = Ast::from_leaf(factor_a)
        .product(Ast::ConstantTerm(F::from_u64(2)).sub(Ast::from_leaf(factor_b)));
    let terms = vec![
        common_factor.clone().product(Ast::from_leaf(bodies[0])),
        common_factor.clone().product(Ast::from_leaf(bodies[1])),
        Ast::from_leaf(factor_b).product(Ast::from_leaf(bodies[2])),
        common_factor.clone().product(Ast::from_leaf(bodies[3])),
        common_factor.clone().product(Ast::from_leaf(bodies[4])),
        common_factor.clone().product(Ast::from_leaf(bodies[5])),
    ];

    let right_terms = bodies
        .iter()
        .take(4)
        .map(|body| Ast::from_leaf(*body).product(common_factor.clone()))
        .collect::<Vec<_>>();

    let base = F::from_u64(9);
    let planned_ast = Ast::distribute_powers(terms.clone(), base);
    let (plan, scalars) = compile_plan(&planned_ast);
    let work = match plan {
        EvaluationPlan::DistributePowers { work, .. } => work,
        _ => panic!("multiple terms compile to distributed work"),
    };
    match work.as_slice() {
        [DistributionWork::WeightedSharedFactor { terms, .. }, DistributionWork::Term {
            power: middle_power,
            ..
        }] => {
            assert_eq!(terms.len(), 5);
            assert!(is_literal(&scalars, terms[0].power, base.pow_vartime(5)));
            assert!(is_literal(&scalars, terms[1].power, base.pow_vartime(4)));
            assert!(is_literal(&scalars, terms[2].power, base.square()));
            assert!(is_literal(&scalars, terms[3].power, base));
            assert!(is_literal(&scalars, terms[4].power, F::one()));
            assert!(is_literal(
                &scalars,
                *middle_power,
                base.mul(base).mul(base)
            ));
        }
        _ => panic!("disjoint runs sharing a factor compile to shared work"),
    }

    for base in [F::zero(), F::one(), F::from_u64(9)] {
        let actual = evaluator.evaluate(&Ast::distribute_powers(terms.clone(), base), &domain);
        let actual_right =
            evaluator.evaluate(&Ast::distribute_powers(right_terms.clone(), base), &domain);
        for row in 0..actual.len() {
            let common_factor =
                factor_a_values[row].mul(F::from_u64(2).sub(factor_b_values[row]));
            let factors = [
                common_factor,
                common_factor,
                factor_b_values[row],
                common_factor,
                common_factor,
                common_factor,
            ];
            let expected = factors
                .iter()
                .zip(body_values.iter())
                .fold(F::zero(), |accumulator, (factor, body)| {
                    accumulator.mul(base).add(factor.mul(body[row]))
                });
            assert_eq!(actual.values[row], expected);

            let expected_right = body_values[..4].iter().fold(F::zero(), |accumulator, body| {
                accumulator.mul(base).add(body[row].mul(common_factor))
            });
            assert_eq!(actual_right.values[row], expected_right);
        }
    }
}

#[test]
fn shared_factor_groups_match_generic_evaluation() {
    check_shared_factor_groups::<Fp>();
    check_shared_factor_groups::<Fq>();
}

fn check_nested_shared_factor_groups<F: Value>() {
    let domain = EvaluationDomain::<F>::new(1, 3);
    let raw_values = (0..10)
        .map(|column| {
            (0..8)
                .map(|row| F::from_u64((column + 2) * (row + 3) + 1))
                .collect::<Vec<_>>()
        })
        .collect::<Vec<_>>();
    let mut evaluator = new_evaluator::<(), F, LagrangeCoeff>(());
    let leaves = raw_values
        .iter()
        .map(|values| evaluator.register_poly(domain.lagrange_from_vec(values.clone())))
        .collect::<Vec<_>>();
    let leaf = |index: usize| -> Ast<(), F, LagrangeCoeff> { Ast::from_leaf(leaves[index]) };

    let selector = leaf(0);
    let left_factor = leaf(1).add(leaf(2)).product(leaf(3));
    let right_factor = leaf(8).product(leaf(9).add(leaf(7)));
    let bodies = vec![
        left_factor.clone().product(leaf(5)),
        left_factor.clone().product(leaf(6)),
        leaf(2).product(leaf(7)),
        left_factor.product(leaf(8)),
        leaf(3).product(right_factor.clone()),
        leaf(4).product(right_factor),
    ];
    let terms = bodies
        .iter()
        .map(|body| selector.clone().product(body.clone()))
        .collect::<Vec<_>>();

    let base = F::from_u64(13);
    let (plan, scalars) = compile_plan(&Ast::distribute_powers(terms.clone(), base));
    let weighted_terms = match &plan {
        EvaluationPlan::DistributePowers { work, .. } => match work.as_slice() {
            [DistributionWork::WeightedSharedFactor { terms, .. }] => terms,
            _ => panic!("the common outer factor should be planned"),
        },
        _ => panic!("multiple terms compile to distributed work"),
    };
    assert_eq!(weighted_terms.len(), 6);
    for (index, term) in weighted_terms.iter().enumerate() {
        assert!(is_literal(
            &scalars,
            term.power,
            base.pow_vartime((5 - index) as u64)
        ));
    }

    for base in [F::zero(), F::one(), F::from_u64(13)] {
        let actual = evaluator.evaluate(&Ast::distribute_powers(terms.clone(), base), &domain);
        for row in 0..actual.len() {
            let left_factor_value = raw_values[1][row]
                .add(raw_values[2][row])
                .mul(raw_values[3][row]);
            let right_factor_value =
                raw_values[8][row].mul(raw_values[9][row].add(raw_values[7][row]));
            let body_values = [
                left_factor_value.mul(raw_values[5][row]),
                left_factor_value.mul(raw_values[6][row]),
                raw_values[2][row].mul(raw_values[7][row]),
                left_factor_value.mul(raw_values[8][row]),
                raw_values[3][row].mul(right_factor_value),
                raw_values[4][row].mul(right_factor_value),
            ];
            let expected = body_values.iter().fold(F::zero(), |accumulator, body| {
                accumulator.mul(base).add(raw_values[0][row].mul(*body))
            });
            assert_eq!(actual.values[row], expected);
        }
    }
}

#[test]
fn nested_shared_factor_groups_preserve_challenge_powers() {
    check_nested_shared_factor_groups::<Fp>();
    check_nested_shared_factor_groups::<Fq>();
}

fn compressed_selector_expression<F: Field>(
    query: Leaf,
    combination_len: usize,
    assigned_root: usize,
) -> Extended<F> {
    let mut expression = Ast::from_leaf(query);
    let mut root = F::one();
    for root_index in 1..=combination_len {
        if root_index != assigned_root {
            expression =
                expression.product(Ast::ConstantTerm(root).sub(Ast::from_leaf(query)));
        }
        root = root.add(F::one());
    }
    expression
}

#[test]
fn compressed_selector_replacement_reuses_unchanged_subtrees() {
    const COMBINATION_LEN: usize = 4;

    let domain = EvaluationDomain::<Fp>::new(3, 3);
    let mut evaluator = new_evaluator::<(), Fp, ExtendedLagrangeCoeff>(());
    let query = evaluator.register_poly(domain.empty_extended());
    let selector = evaluator.register_poly(domain.empty_extended());
    let unrelated = evaluator.register_poly(domain.empty_extended());
    evaluator.register_compressed_selector(query, COMBINATION_LEN, 1, selector);

    let unchanged = Arc::new(Ast::from_leaf(unrelated).add(Ast::ConstantTerm(Fp::one())));
    assert!(evaluator
        .replace_compressed_selectors(unchanged.as_ref())
        .is_none());

    let ast = Ast::Add(
        Arc::new(compressed_selector_expression(query, COMBINATION_LEN, 1)),
        Arc::clone(&unchanged),
    );
    let replaced = evaluator
        .replace_compressed_selectors(&ast)
        .expect("the compressed selector should be replaced");

    match replaced {
        Ast::Add(lhs, rhs) => {
            assert!(matches!(lhs.as_ref(), Ast::Poly(leaf) if leaf.equals(&selector)));
            assert!(Arc::ptr_eq(&rhs, &unchanged));
        }
        _ => panic!("the replacement should preserve the root addition"),
    }
}

#[test]
fn compressed_selector_replacement_handles_every_ast_container() {
    const COMBINATION_LEN: usize = 4;

    let domain = EvaluationDomain::<Fp>::new(3, 3);
    let mut evaluator = new_evaluator::<(), Fp, ExtendedLagrangeCoeff>(());
    let query_and_first_selector = evaluator.register_poly(domain.empty_extended());
    let unrelated = evaluator.register_poly(domain.empty_extended());
    evaluator.register_compressed_selector(
        query_and_first_selector,
        COMBINATION_LEN,
        1,
        query_and_first_selector,
    );

    let compressed =
        || compressed_selector_expression(query_and_first_selector, COMBINATION_LEN, 1);
    let unrelated = || Ast::from_leaf(unrelated);
    let cases = [
        compressed(),
        Ast::Add(Arc::new(compressed()), Arc::new(unrelated())),
        Ast::Add(Arc::new(unrelated()), Arc::new(compressed())),
        Ast::Mul(AstMul(Arc::new(compressed()), Arc::new(unrelated()))),
        Ast::Mul(AstMul(Arc::new(unrelated()), Arc::new(compressed()))),
        Ast::Scale(Arc::new(compressed()), fp(5)),
        Ast::DistributePowers(Arc::new(vec![unrelated(), compressed()]), fp(7)),
        Ast::DistributePowers(Arc::new(vec![compressed(), unrelated()]), fp(11)),
    ];

    for case in cases {
        assert!(evaluator.replace_compressed_selectors(&case).is_some());
    }
}

fn compressed_selector_value<F: Field>(
    query: F,
    combination_len: usize,
    assigned_root: usize,
) -> F {
    let mut value = query;
    let mut root = F::one();
    for root_index in 1..=combination_len {
        if root_index != assigned_root {
            value = value.mul(root.sub(query));
        }
        root = root.add(F::one());
    }
    value
}

fn check_compressed_selector_families<F: Value>() {
    const COMBINATION_LEN: usize = 5;

    let domain = EvaluationDomain::<F>::new(3, 3);
    let query_poly = filled(&domain, |row| row % 11 + 1);
    let query_values = domain.rotate_extended(&query_poly, Rotation::next()).values;

    let body_polys = (0..=COMBINATION_LEN as u64)
        .map(|body_index| filled(&domain, |row| body_index * 17 + row * 3 + 2))
        .collect::<Vec<_>>();
    let body_values = body_polys
        .iter()
        .map(|body| body.values.clone())
        .collect::<Vec<_>>();

    let mut evaluator = new_evaluator::<(), F, ExtendedLagrangeCoeff>(());
    let query = evaluator
        .register_poly(query_poly)
        .with_rotation(Rotation::next());
    let bodies = body_polys
        .into_iter()
        .map(|body| evaluator.register_poly(body))
        .collect::<Vec<_>>();
    let body = |index: usize| -> Extended<F> { Ast::from_leaf(bodies[index]) };

    for assigned_root in 1..=COMBINATION_LEN {
        let mut selector = domain.empty_extended();
        for (selector, query) in selector.values.iter_mut().zip(&query_values) {
            *selector = compressed_selector_value(*query, COMBINATION_LEN, assigned_root);
        }
        let selector = evaluator.register_poly(selector);
        evaluator.register_compressed_selector(query, COMBINATION_LEN, assigned_root, selector);
    }

    let mut terms: Vec<Extended<F>> = vec![];
    let mut control_terms = vec![];
    let mut term_inputs = vec![];
    for assigned_root in 1..=COMBINATION_LEN {
        let selector: Extended<F> =
            compressed_selector_expression(query, COMBINATION_LEN, assigned_root);
        let parsed = compressed_selector(&selector, minus_one())
            .expect("the exact compressed-selector shape should be recognized");
        assert_eq!(parsed.1, COMBINATION_LEN);
        assert_eq!(parsed.2, assigned_root);

        let repetitions = if assigned_root == 2 { 2 } else { 1 };
        for repetition in 0..repetitions {
            let body_index = if repetition == 0 {
                assigned_root - 1
            } else {
                COMBINATION_LEN
            };
            let body = if repetition == 0 {
                body(body_index)
            } else {
                let inner = body(body_index).add(body(0));
                inner.clone().product(inner)
            };
            terms.push(selector.clone().product(body.clone()));
            control_terms.push(
                selector
                    .clone()
                    .product(Ast::ConstantTerm(F::one()))
                    .product(body),
            );
            term_inputs.push(Some((assigned_root, body_index, repetition != 0)));
        }
    }

    // Keep one unrelated term after the planned family to ensure that
    // every original challenge power is retained.
    terms.push(body(0).add(body(COMBINATION_LEN - 1)));
    control_terms.push(body(0).add(body(COMBINATION_LEN - 1)));
    term_inputs.push(None);

    let families = selector_family_matches(&terms, minus_one());
    assert_eq!(families.len(), 1);
    assert_eq!(families[0].combination_len, COMBINATION_LEN);
    assert_eq!(families[0].runs.len(), COMBINATION_LEN);
    assert_eq!(families[0].runs[1].end - families[0].runs[1].start, 2);
    assert!(selector_family_matches(&control_terms, minus_one()).is_empty());

    let base = F::from_u64(19);
    let planned_ast = Ast::distribute_powers(terms.clone(), base);
    let (plan, scalars) = compile_plan(&planned_ast);
    let work = match plan {
        EvaluationPlan::DistributePowers { work, .. } => work,
        _ => panic!("multiple terms compile to distributed work"),
    };
    assert_eq!(work.len(), 2);
    let runs = work
        .iter()
        .find_map(|work| match work {
            DistributionWork::SelectorFamily {
                query: planned,
                runs,
            } => {
                assert_eq!(*planned, query.indexed());
                Some(runs)
            }
            _ => None,
        })
        .expect("the complete selector family is planned");
    assert_eq!(runs.len(), COMBINATION_LEN);
    match &runs[1].bodies {
        FactorBodyPlan::Sequential(bodies) => {
            assert_eq!(bodies.len(), 2);
            assert!(matches!(&bodies[1], EvaluationPlan::Square(_)));
        }
        FactorBodyPlan::Factored(_) => panic!("unrelated bodies remain sequential"),
    }
    assert!(is_literal(&scalars, runs[4].power, base));

    for base in [F::zero(), F::one(), F::from_u64(19)] {
        let actual = evaluator.evaluate(&Ast::distribute_powers(terms.clone(), base), &domain);
        let control = evaluator.evaluate(
            &Ast::distribute_powers(control_terms.clone(), base),
            &domain,
        );
        assert_eq!(actual.values, control.values);

        for row in 0..actual.len() {
            let expected = term_inputs.iter().fold(F::zero(), |accumulator, input| {
                let term = match input {
                    Some((assigned_root, body_index, squared)) => {
                        let mut body: F = body_values[*body_index][row];
                        if *squared {
                            body = body.add(body_values[0][row]).square();
                        }
                        compressed_selector_value(
                            query_values[row],
                            COMBINATION_LEN,
                            *assigned_root,
                        )
                        .mul(body)
                    }
                    None => body_values[0][row].add(body_values[COMBINATION_LEN - 1][row]),
                };
                accumulator.mul(base).add(term)
            });
            assert_eq!(actual.values[row], expected);
        }
    }

    let nested_base = F::from_u64(19);
    let outer_base = F::from_u64(23);
    let factor = body(0).add(Ast::ConstantTerm(F::from_u64(3)));
    let nested = Ast::distribute_powers(terms.clone(), nested_base);
    let nested_control = Ast::distribute_powers(control_terms.clone(), nested_base);
    let candidate = Ast::distribute_powers(
        vec![
            factor.clone().product(nested),
            factor.clone().product(body(1)),
        ],
        outer_base,
    );
    let control = Ast::distribute_powers(
        vec![
            factor.clone().product(nested_control),
            factor.product(body(1)),
        ],
        outer_base,
    );

    let (nested_plan, scalars) = compile_plan(&candidate);
    let shared_terms = match &nested_plan {
        EvaluationPlan::DistributePowers { work, .. } => work
            .iter()
            .find_map(|work| match work {
                DistributionWork::WeightedSharedFactor { terms, .. } => Some(terms),
                _ => None,
            })
            .expect("the outer shared factor is planned"),
        _ => panic!("the outer terms compile to distributed work"),
    };
    assert_eq!(shared_terms.len(), 2);
    assert!(is_literal(&scalars, shared_terms[0].power, outer_base));
    assert!(is_literal(&scalars, shared_terms[1].power, F::one()));
    let nested_work = match &shared_terms[0].term {
        EvaluationPlan::DistributePowers { work, .. } => work,
        _ => panic!("the first shared-factor body is distributed work"),
    };
    assert!(nested_work
        .iter()
        .any(|work| matches!(work, DistributionWork::SelectorFamily { .. })));
    // Five selector runs need eight slots. The outer shared factor uses
    // the distribution fold's buffers without adding scratch slots.
    assert_eq!(nested_plan.required_scratch_slots(), COMBINATION_LEN + 3);

    let actual = evaluator.evaluate(&candidate, &domain);
    let generic = evaluator.evaluate(&control, &domain);
    assert_eq!(actual.values, generic.values);

    let incomplete = terms[..terms.len() - 2].to_vec();
    assert!(selector_family_matches(&incomplete, minus_one()).is_empty());

    let right_hand = (1..=COMBINATION_LEN)
        .map(|assigned_root| {
            body(assigned_root - 1).product(compressed_selector_expression(
                query,
                COMBINATION_LEN,
                assigned_root,
            ))
        })
        .collect::<Vec<_>>();
    let right_hand_control = (1..=COMBINATION_LEN)
        .map(|assigned_root| {
            body(assigned_root - 1).product(
                compressed_selector_expression(query, COMBINATION_LEN, assigned_root)
                    .product(Ast::ConstantTerm(F::one())),
            )
        })
        .collect::<Vec<_>>();
    let right_hand_families = selector_family_matches(&right_hand, minus_one());
    assert_eq!(right_hand_families.len(), 1);
    assert!(right_hand_families[0]
        .runs
        .iter()
        .all(|run| matches!(run.side, FactorSide::Right)));

    // Reverse the roots and put the unrelated term before the family to
    // exercise non-root run order and leading unclaimed terms.
    let reversed = terms.iter().cloned().rev().collect::<Vec<_>>();
    let reversed_control = control_terms.iter().cloned().rev().collect::<Vec<_>>();
    assert_eq!(selector_family_matches(&reversed, minus_one()).len(), 1);
    for (candidate, control) in [
        (right_hand, right_hand_control),
        (reversed, reversed_control),
    ] {
        for base in [F::zero(), F::one(), F::from_u64(19)] {
            let candidate =
                evaluator.evaluate(&Ast::distribute_powers(candidate.clone(), base), &domain);
            let control =
                evaluator.evaluate(&Ast::distribute_powers(control.clone(), base), &domain);
            assert_eq!(candidate.values, control.values);
        }
    }

    let overlapping = (1..=COMBINATION_LEN)
        .map(|assigned_root| -> Extended<F> {
            compressed_selector_expression(query, COMBINATION_LEN, assigned_root).product(
                compressed_selector_expression(bodies[0], COMBINATION_LEN, assigned_root),
            )
        })
        .collect::<Vec<_>>();
    // Both factors form complete families, but each term can be claimed
    // only once. Deterministically preferring the left family is safe.
    let overlapping_families = selector_family_matches(&overlapping, minus_one());
    assert_eq!(overlapping_families.len(), 1);
    assert!(overlapping_families[0].query.equals(&query));

    let mut repeated_run = terms.clone();
    repeated_run
        .push(compressed_selector_expression(query, COMBINATION_LEN, 1).product(body(0)));
    assert!(selector_family_matches(&repeated_run, minus_one()).is_empty());

    let non_selector: Extended<F> =
        Ast::from_leaf(query).product(Ast::ConstantTerm(F::one()).add(Ast::from_leaf(query)));
    assert!(compressed_selector(&non_selector, minus_one()).is_none());
}

fn check_orchard_selector_family_lengths<F: Value>() {
    let domain = EvaluationDomain::<F>::new(3, 3);
    let mut evaluator = new_evaluator::<(), F, ExtendedLagrangeCoeff>(());
    let query = evaluator.register_poly(filled(&domain, |row| row % 11 + 1));
    let body = evaluator.register_poly(filled(&domain, |row| row * 7 + 3));

    // Orchard has compressed-selector families of lengths 4, 5, 6,
    // and 7. Exercise every product-tree shape used by the circuit.
    for combination_len in 4..=7 {
        let terms = (1..=combination_len)
            .map(|assigned_root| -> Extended<F> {
                compressed_selector_expression(query, combination_len, assigned_root)
                    .product(Ast::from_leaf(body))
            })
            .collect::<Vec<_>>();
        let control_terms = (1..=combination_len)
            .map(|assigned_root| -> Extended<F> {
                compressed_selector_expression(query, combination_len, assigned_root)
                    .product(Ast::ConstantTerm(F::one()))
                    .product(Ast::from_leaf(body))
            })
            .collect::<Vec<_>>();

        let families = selector_family_matches(&terms, minus_one());
        assert_eq!(families.len(), 1);
        assert_eq!(families[0].combination_len, combination_len);
        assert!(selector_family_matches(&control_terms, minus_one()).is_empty());

        for base in [F::zero(), F::one(), F::from_u64(19)] {
            let candidate =
                evaluator.evaluate(&Ast::distribute_powers(terms.clone(), base), &domain);
            let control = evaluator.evaluate(
                &Ast::distribute_powers(control_terms.clone(), base),
                &domain,
            );
            assert_eq!(candidate.values, control.values);
        }
    }
}

#[test]
fn compressed_selector_families_match_generic_evaluation() {
    check_compressed_selector_families::<Fp>();
    check_compressed_selector_families::<Fq>();
    check_orchard_selector_family_lengths::<Fp>();
    check_orchard_selector_family_lengths::<Fq>();
}
