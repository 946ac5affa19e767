//! Common subexpressions, cache slots and retained layouts and plans.
use halo2_proofs::ast::{Ast, AstLeaf};
use halo2_proofs::basis::{
    linear_term_cache_budget, BasisOps, MAX_ADDITIONAL_LINEAR_TERM_CACHE_BYTES,
    MAX_LINEAR_TERM_CACHE_ENTRIES,
};
use halo2_proofs::domain::EvaluationDomain;
use halo2_proofs::evaluator::{new_evaluator, new_virtual_evaluator, Evaluator};
use halo2_proofs::field::{Field, Fp, Fq};
use halo2_proofs::layout::{reuse_cache_slots, LinearTermCacheBudget};
use halo2_proofs::occupancy::LinearTermCacheOccupancy;
use halo2_proofs::plan::{DistributionWork, EvaluationPlan};
use halo2_proofs::poly::{
    Basis, Coeff, ExtendedLagrangeCoeff, LagrangeCoeff, Polynomial, Rotation,
};
use halo2_proofs::scalars::{
    EvaluationChallenge, EvaluationChallenges, EvaluationPolyTag, PlanScalar, PlanScalarInterner,
};
use halo2_proofs::schedule::CacheAction;

trait Value: Field + PartialEq + std::fmt::Debug {}

impl Value for Fp {}

impl Value for Fq {}

fn fp(value: u64) -> Fp {
    Fp::from_u64(value)
}

fn filled<F: Field>(
    domain: &EvaluationDomain<F>,
    value: impl Fn(u64) -> u64,
) -> Polynomial<F, ExtendedLagrangeCoeff> {
    let mut poly = domain.empty_extended();
    for (index, entry) in poly.values.iter_mut().enumerate() {
        *entry = F::from_u64(value(index as u64));
    }
    poly
}

fn compile_plan<F: Field, B: Basis>(
    ast: &Ast<(), F, B>,
) -> (EvaluationPlan, Vec<PlanScalar<F>>) {
    let mut scalars = PlanScalarInterner::new();
    let plan = EvaluationPlan::compile(ast, &mut scalars);
    (plan, scalars.finish())
}

fn no_linear_terms() -> LinearTermCacheBudget {
    LinearTermCacheBudget {
        max_additional_slots: 0,
        max_entries: 0,
    }
}

fn cached_slots<F: Field, B: Basis>(
    ast: &Ast<(), F, B>,
    budget: LinearTermCacheBudget,
) -> usize {
    let (plan, scalars) = compile_plan(ast);
    plan.cache_with_layout(budget, None, false, &scalars).1
}

fn check_repeated_squares_are_cached<F: Value>() {
    let domain = EvaluationDomain::<F>::new(3, 4);
    let values = filled(&domain, |index| index + 3);

    let mut evaluator = new_evaluator::<(), _, ExtendedLagrangeCoeff>(());
    let leaf = evaluator.register_poly(values.clone());
    let value = Ast::from_leaf(leaf);
    let square = value.clone().product(value);
    let ast = square.clone().add(square);

    let (plan, scalars) = compile_plan(&ast);
    let (plan, slots, _) = plan.cache_with_layout(no_linear_terms(), None, false, &scalars);
    assert_eq!(slots, 1);
    match plan {
        EvaluationPlan::Add(lhs, rhs) => match (*lhs, *rhs) {
            (
                EvaluationPlan::CacheStore { slot, inner },
                EvaluationPlan::CacheLoad { slot: loaded },
            ) => {
                assert_eq!(slot, loaded);
                assert!(matches!(*inner, EvaluationPlan::Square(_)));
            }
            _ => panic!("repeated square uses one cache store and one cache load"),
        },
        _ => panic!("repeated square preserves the addition plan"),
    }

    let actual = evaluator.evaluate(&ast, &domain);
    assert!(actual
        .values
        .iter()
        .zip(values.values.iter())
        .all(|(actual, value)| *actual == value.square().double()));
}

#[test]
fn repeated_squares_are_cached() {
    check_repeated_squares_are_cached::<Fp>();
    check_repeated_squares_are_cached::<Fq>();
}

fn shifted_square(
    leaf: AstLeaf<(), ExtendedLagrangeCoeff>,
    constant: u64,
) -> Ast<(), Fp, ExtendedLagrangeCoeff> {
    let value = Ast::from_leaf(leaf).add(Ast::ConstantTerm(fp(constant)));
    value.clone().product(value)
}

#[test]
fn retained_cache_layout_is_validated_against_the_current_plan() {
    let domain = EvaluationDomain::<Fp>::new(3, 4);
    let values = filled(&domain, |index| index + 3);

    let mut evaluator = new_evaluator::<(), _, ExtendedLagrangeCoeff>(());
    let leaf = evaluator.register_poly(values);
    let repeated = |constant| shifted_square(leaf, constant);
    let original = repeated(7).add(repeated(7));

    let mut planner = new_virtual_evaluator::<(), Fp, ExtendedLagrangeCoeff>(());
    let virtual_leaf = planner.register_virtual_poly();
    let virtual_original =
        shifted_square(virtual_leaf, 7).add(shifted_square(virtual_leaf, 7));
    let eager_layout = planner
        .prepare_cache_layout(&virtual_original, domain.extended_len())
        .expect("topology-only planning prepares a layout");
    let expected = evaluator.evaluate(&original, &domain);
    let (actual, replacement) =
        evaluator.evaluate_with_cache_layout(&original, &domain, Some(&eager_layout));
    assert_eq!(actual.values, expected.values);
    assert!(replacement.is_none());

    let (_, layout) = evaluator.evaluate_with_cache_layout(&original, &domain, None);
    let layout = layout.expect("the cold evaluation prepares a layout");
    assert!(!layout.events.is_empty());

    // Challenge-bound scalar values may differ between proofs. The
    // retained events remain valid because their current-plan store and
    // load shapes still compare exactly.
    let matching = repeated(11).add(repeated(11));
    let expected = evaluator.evaluate(&matching, &domain);
    let (actual, replacement) =
        evaluator.evaluate_with_cache_layout(&matching, &domain, Some(&layout));
    assert_eq!(actual.values, expected.values);
    assert!(replacement.is_none());

    // The same occurrence count is insufficient: a different load shape
    // invalidates the retained layout and safely falls back to planning.
    let mismatched = repeated(13).add(repeated(17));
    let expected = evaluator.evaluate(&mismatched, &domain);
    let (actual, replacement) =
        evaluator.evaluate_with_cache_layout(&mismatched, &domain, Some(&layout));
    assert_eq!(actual.values, expected.values);
    assert!(replacement.is_some());
}

fn rebound_expressions(
    leaf: AstLeaf<(), ExtendedLagrangeCoeff>,
) -> Vec<Ast<(), Fp, ExtendedLagrangeCoeff>> {
    vec![
        Ast::from_leaf(leaf)
            .product(Ast::ChallengeTerm(EvaluationChallenge::Theta))
            .add(Ast::ChallengeTerm(EvaluationChallenge::Beta)),
        Ast::LinearChallengeTerm {
            challenge: EvaluationChallenge::Beta,
            factor: fp(3),
        }
        .add(Ast::ChallengeTerm(EvaluationChallenge::Gamma)),
    ]
}

fn rebound_expected(
    evaluator: &Evaluator<'_, (), Fp, ExtendedLagrangeCoeff>,
    domain: &EvaluationDomain<Fp>,
    leaf: AstLeaf<(), ExtendedLagrangeCoeff>,
    challenges: EvaluationChallenges<Fp>,
) -> Vec<Fp> {
    evaluator
        .evaluate(
            &Ast::distribute_powers(
                vec![
                    Ast::from_leaf(leaf)
                        .product(Ast::ConstantTerm(challenges.theta))
                        .add(Ast::ConstantTerm(challenges.beta)),
                    Ast::LinearTerm(challenges.beta.mul(fp(3)))
                        .add(Ast::ConstantTerm(challenges.gamma)),
                ],
                challenges.y,
            ),
            domain,
        )
        .values
}

#[test]
fn compiled_plan_rebinds_challenges_and_rejects_a_shape_mismatch() {
    let domain = EvaluationDomain::<Fp>::new(3, 4);
    let values = filled(&domain, |index| index + 11);

    let value_tag = EvaluationPolyTag::new(0, 0, 0);
    let mut evaluator = new_evaluator::<(), _, ExtendedLagrangeCoeff>(());
    let leaf = evaluator.register_poly_with_tag(values.clone(), value_tag);
    // Deliberately collide the concrete challenge values. The compiled
    // plan must retain their distinct symbolic provenance.
    let first_challenges = EvaluationChallenges::new(fp(7), fp(7), fp(7), fp(7));
    let (first, plan) = evaluator.evaluate_quotient_with_compiled_plan(
        rebound_expressions(leaf),
        &domain,
        None,
        first_challenges,
    );
    assert_eq!(
        first.values,
        rebound_expected(&evaluator, &domain, leaf, first_challenges)
    );
    let plan = plan.expect("the cold evaluation returns a compiled plan");

    let second_challenges = EvaluationChallenges::new(fp(11), fp(13), fp(17), fp(19));
    let (second, replacement) = evaluator.evaluate_quotient_with_compiled_plan(
        vec![],
        &domain,
        Some(&plan),
        second_challenges,
    );
    assert_eq!(
        second.values,
        rebound_expected(&evaluator, &domain, leaf, second_challenges)
    );
    assert_ne!(second.values, first.values);
    assert!(replacement.is_none());

    for value in [Fp::zero(), Fp::one(), fp(2), Fp::one().neg()] {
        let colliding_challenges = EvaluationChallenges::new(value, value, value, value);
        let (actual, replacement) = evaluator.evaluate_quotient_with_compiled_plan(
            vec![],
            &domain,
            Some(&plan),
            colliding_challenges,
        );
        assert_eq!(
            actual.values,
            rebound_expected(&evaluator, &domain, leaf, colliding_challenges)
        );
        assert!(replacement.is_none());
    }

    // The same plan serves several evaluations with different challenges.
    let third_challenges = EvaluationChallenges::new(fp(23), fp(29), fp(31), fp(37));
    let (again_second, _) = evaluator.evaluate_quotient_with_compiled_plan(
        vec![],
        &domain,
        Some(&plan),
        second_challenges,
    );
    let (third, _) = evaluator.evaluate_quotient_with_compiled_plan(
        vec![],
        &domain,
        Some(&plan),
        third_challenges,
    );
    assert_eq!(again_second.values, second.values);
    assert_eq!(
        third.values,
        rebound_expected(&evaluator, &domain, leaf, third_challenges)
    );

    let mut mismatched = new_evaluator::<(), _, ExtendedLagrangeCoeff>(());
    let mismatched_leaf = mismatched.register_poly_with_tag(values.clone(), value_tag);
    mismatched.register_poly_with_tag(values, EvaluationPolyTag::new(1, 0, 0));
    let (actual, replacement) = mismatched.evaluate_quotient_with_compiled_plan(
        rebound_expressions(mismatched_leaf),
        &domain,
        Some(&plan),
        second_challenges,
    );
    assert_eq!(
        actual.values,
        rebound_expected(&mismatched, &domain, mismatched_leaf, second_challenges)
    );
    assert!(replacement.is_some());
}

fn tagged_expressions(
    lhs: AstLeaf<(), ExtendedLagrangeCoeff>,
    rhs: AstLeaf<(), ExtendedLagrangeCoeff>,
) -> Vec<Ast<(), Fp, ExtendedLagrangeCoeff>> {
    vec![Ast::from_leaf(lhs)
        .product(Ast::from_leaf(rhs))
        .add(Ast::from_leaf(lhs))]
}

#[test]
fn compiled_plan_rejects_swapped_polynomial_tags() {
    let domain = EvaluationDomain::<Fp>::new(3, 4);
    let lhs_values = filled(&domain, |index| index + 3);
    let rhs_values = filled(&domain, |index| index + 41);
    let lhs_tag = EvaluationPolyTag::new(0, 0, 0);
    let rhs_tag = EvaluationPolyTag::new(1, 0, 0);
    let challenges = EvaluationChallenges::new(fp(5), fp(7), fp(11), fp(13));

    let mut original = new_evaluator::<(), _, ExtendedLagrangeCoeff>(());
    let lhs = original.register_poly_with_tag(lhs_values.clone(), lhs_tag);
    let rhs = original.register_poly_with_tag(rhs_values.clone(), rhs_tag);
    let (_, plan) = original.evaluate_quotient_with_compiled_plan(
        tagged_expressions(lhs, rhs),
        &domain,
        None,
        challenges,
    );
    let plan = plan.expect("the cold evaluation returns a compiled plan");
    assert!(plan.has_exact_polynomial_tags());
    assert!(original.accepts_compiled_plan(&plan));

    let mut swapped = new_evaluator::<(), _, ExtendedLagrangeCoeff>(());
    let lhs = swapped.register_poly_with_tag(lhs_values.clone(), rhs_tag);
    let rhs = swapped.register_poly_with_tag(rhs_values.clone(), lhs_tag);
    let (expected, _) = swapped.evaluate_quotient_with_compiled_plan(
        tagged_expressions(lhs, rhs),
        &domain,
        None,
        challenges,
    );
    let (actual, replacement) = swapped.evaluate_quotient_with_compiled_plan(
        tagged_expressions(lhs, rhs),
        &domain,
        Some(&plan),
        challenges,
    );
    assert_eq!(actual.values, expected.values);
    assert!(replacement.is_some());

    let mut untagged = new_evaluator::<(), _, ExtendedLagrangeCoeff>(());
    let untagged_lhs = untagged.register_poly(lhs_values);
    let untagged_rhs = untagged.register_poly(rhs_values);
    assert!(!untagged.has_complete_polynomial_tags());
    assert!(!untagged.accepts_compiled_plan(&plan));
    let (_, replacement) = untagged.evaluate_quotient_with_compiled_plan(
        tagged_expressions(untagged_lhs, untagged_rhs),
        &domain,
        Some(&plan),
        challenges,
    );
    assert!(replacement.is_none());

    // Swapping the two tags of the plan lets the other evaluator use it.
    let plan = plan.swap_polynomial_tags(lhs_tag, rhs_tag);
    assert!(swapped.accepts_compiled_plan(&plan));
    assert!(!original.accepts_compiled_plan(&plan));
}

fn compressed_selector_expression(
    query: AstLeaf<(), ExtendedLagrangeCoeff>,
    combination_len: u64,
    assigned_root: u64,
) -> Ast<(), Fp, ExtendedLagrangeCoeff> {
    let mut expression = Ast::from_leaf(query);
    for root in 1..=combination_len {
        if root != assigned_root {
            expression = expression
                .product(Ast::ConstantTerm(fp(root)).sub(Ast::from_leaf(query)));
        }
    }
    expression
}

#[test]
fn compiled_plan_rejects_a_compressed_selector_shape_mismatch() {
    const ORIGINAL_COMBINATION_LEN: usize = 4;
    const MISMATCHED_COMBINATION_LEN: usize = 5;

    let domain = EvaluationDomain::<Fp>::new(3, 4);
    let query_values = filled(&domain, |index| index + 3);
    let selector_values = filled(&domain, |index| index + 37);

    let challenges = EvaluationChallenges::new(fp(3), fp(5), fp(7), fp(11));
    let query_tag = EvaluationPolyTag::new(0, 0, 0);
    let selector_tag = EvaluationPolyTag::new(1, 0, 0);
    let mut original = new_evaluator::<(), _, ExtendedLagrangeCoeff>(());
    let original_query = original.register_poly_with_tag(query_values.clone(), query_tag);
    let original_selector = original.register_poly_with_tag(selector_values.clone(), selector_tag);
    original.register_compressed_selector(
        original_query,
        ORIGINAL_COMBINATION_LEN,
        1,
        original_selector,
    );
    let (_, plan) = original.evaluate_quotient_with_compiled_plan(
        vec![compressed_selector_expression(
            original_query,
            ORIGINAL_COMBINATION_LEN as u64,
            1,
        )],
        &domain,
        None,
        challenges,
    );
    let plan = plan.expect("the cold evaluation returns a compiled plan");

    // Keep polynomial count and lengths identical while changing only the
    // compressed-selector mapping retained by the evaluator.
    let mut mismatched = new_evaluator::<(), _, ExtendedLagrangeCoeff>(());
    let mismatched_query = mismatched.register_poly_with_tag(query_values, query_tag);
    let mismatched_selector = mismatched.register_poly_with_tag(selector_values, selector_tag);
    mismatched.register_compressed_selector(
        mismatched_query,
        MISMATCHED_COMBINATION_LEN,
        1,
        mismatched_selector,
    );
    let (actual, replacement) = mismatched.evaluate_quotient_with_compiled_plan(
        vec![compressed_selector_expression(
            mismatched_query,
            MISMATCHED_COMBINATION_LEN as u64,
            1,
        )],
        &domain,
        Some(&plan),
        challenges,
    );
    let expected = mismatched.evaluate(&Ast::from_leaf(mismatched_selector), &domain);
    assert_eq!(actual.values, expected.values);
    assert!(replacement.is_some());
}

fn check_nested_arithmetic_and_linear_common_subexpressions_are_cached<F: Value>() {
    let domain = EvaluationDomain::<F>::new(3, 4);
    let mut evaluator = new_evaluator::<(), _, ExtendedLagrangeCoeff>(());
    let mut values = vec![];
    let mut leaves = vec![];
    let poly_len = domain.extended_len() as u64;
    for poly_index in 0..4 {
        let poly = filled(&domain, |row| poly_index * poly_len + row + 1);
        values.push(poly.values.clone());
        leaves.push(evaluator.register_poly(poly));
    }

    let repeated = Ast::from_leaf(leaves[0])
        .add(Ast::from_leaf(leaves[1]))
        .product(Ast::from_leaf(leaves[2]).add(Ast::from_leaf(leaves[3])));
    let linear_scalar = F::from_u64(13);
    let terms = (5..9)
        .map(|constant| {
            repeated
                .clone()
                .add(Ast::ConstantTerm(F::from_u64(constant)))
                .add(Ast::LinearTerm(linear_scalar))
        })
        .collect::<Vec<_>>();
    let base = F::from_u64(11);
    let ast = Ast::distribute_powers(terms.clone(), base);

    assert_eq!(
        cached_slots(
            &ast,
            linear_term_cache_budget::<ExtendedLagrangeCoeff>(values[0].len())
        ),
        2
    );

    let two_terms = Ast::distribute_powers(terms[..2].to_vec(), base);
    assert_eq!(cached_slots(&two_terms, no_linear_terms()), 1);

    let repeated_copy = Ast::<(), F, ExtendedLagrangeCoeff>::from_leaf(leaves[0]);
    let copy_only = Ast::distribute_powers(vec![repeated_copy.clone(), repeated_copy], base);
    assert_eq!(cached_slots(&copy_only, no_linear_terms()), 0);

    let actual = evaluator.evaluate(&ast, &domain);
    let mut linear_value = linear_scalar.mul(F::zeta());
    for row in 0..actual.len() {
        let repeated = values[0][row]
            .add(values[1][row])
            .mul(values[2][row].add(values[3][row]));
        let expected = (5..9).fold(F::zero(), |accumulator, constant| {
            accumulator
                .mul(base)
                .add(repeated)
                .add(F::from_u64(constant))
                .add(linear_value)
        });
        assert_eq!(actual.values[row], expected);
        linear_value = linear_value.mul(domain.get_extended_omega());
    }
}

#[test]
fn nested_arithmetic_and_linear_common_subexpressions_are_cached() {
    check_nested_arithmetic_and_linear_common_subexpressions_are_cached::<Fp>();
    check_nested_arithmetic_and_linear_common_subexpressions_are_cached::<Fq>();
}

#[test]
fn repeated_linear_terms_respect_cache_limits() {
    for (limit, expected_slots) in [(0, 0), (1, 1), (2, 2), (3, 3), (8, 3)] {
        let terms = [2, 3, 5, 2, 3, 5]
            .iter()
            .map(|scalar| Ast::LinearTerm(fp(*scalar)))
            .collect::<Vec<_>>();
        let ast: Ast<(), _, ExtendedLagrangeCoeff> = Ast::distribute_powers(terms, fp(7));
        assert_eq!(
            cached_slots(
                &ast,
                LinearTermCacheBudget {
                    max_entries: limit,
                    max_additional_slots: limit,
                }
            ),
            expected_slots
        );
    }
}

#[test]
fn repeated_linear_terms_prefer_more_reuse() {
    let less_reused = fp(2);
    let more_reused = fp(3);
    let ast: Ast<(), _, ExtendedLagrangeCoeff> = Ast::distribute_powers(
        [
            less_reused,
            more_reused,
            more_reused,
            less_reused,
            more_reused,
        ]
        .iter()
        .map(|scalar| Ast::LinearTerm(*scalar))
        .collect(),
        fp(5),
    );
    let (plan, scalars) = compile_plan(&ast);
    let (plan, slots, _) = plan.cache_with_layout(
        LinearTermCacheBudget {
            max_entries: 1,
            max_additional_slots: 1,
        },
        None,
        false,
        &scalars,
    );
    assert_eq!(slots, 1);

    let stored_scalar = match plan {
        EvaluationPlan::DistributePowers { work, .. } => work.into_iter().find_map(|work| {
            if let DistributionWork::Term {
                term: EvaluationPlan::CacheStore { inner, .. },
                ..
            } = work
            {
                if let EvaluationPlan::LinearTerm(scalar) = *inner {
                    return Some(scalar);
                }
            }
            None
        }),
        _ => None,
    };
    let stored = stored_scalar.expect("one linear term is stored");
    assert!(scalars[stored.index()].equals(&PlanScalar::Literal(more_reused)));
}

fn check_repeated_linear_term_evaluation<F: Value, B: BasisOps>() {
    let domain = EvaluationDomain::<F>::new(3, 4);
    let mut evaluator = new_evaluator::<(), F, B>(());
    evaluator.register_poly(B::empty_poly(&domain));

    let second = F::from_u64(3);
    let base = F::from_u64(5);
    for first in [F::zero(), F::from_u64(2)] {
        let scalars = [first, second, first, second];
        let terms = scalars.iter().map(|scalar| Ast::LinearTerm(*scalar));
        let ast = Ast::distribute_powers(terms.collect(), base);
        let actual = evaluator.evaluate(&ast, &domain);
        let direct =
            [first, second].map(|scalar| evaluator.evaluate(&Ast::LinearTerm(scalar), &domain));

        for (row, actual) in actual.values.iter().enumerate() {
            let expected = scalars.iter().fold(F::zero(), |accumulator, scalar| {
                let direct = if *scalar == first {
                    direct[0].values[row]
                } else {
                    direct[1].values[row]
                };
                accumulator.mul(base).add(direct)
            });
            assert_eq!(*actual, expected);
        }
    }
}

#[test]
fn repeated_linear_term_evaluation_matches_direct_values() {
    check_repeated_linear_term_evaluation::<Fp, LagrangeCoeff>();
    check_repeated_linear_term_evaluation::<Fp, ExtendedLagrangeCoeff>();
    check_repeated_linear_term_evaluation::<Fq, LagrangeCoeff>();
    check_repeated_linear_term_evaluation::<Fq, ExtendedLagrangeCoeff>();
}

#[test]
fn linear_term_cache_budget_is_bounded_to_evaluation_bases() {
    // A quotient evaluation with k = 11 uses a 2^14-row extended
    // domain, so each Pasta-field slot retains 512 KiB.
    let poly_len = 1 << 14;
    let bytes_per_slot = poly_len * std::mem::size_of::<Fp>();
    let expected_additional_slots = (MAX_ADDITIONAL_LINEAR_TERM_CACHE_BYTES / bytes_per_slot)
        .min(MAX_LINEAR_TERM_CACHE_ENTRIES);
    assert_eq!(expected_additional_slots, 8);

    assert_eq!(linear_term_cache_budget::<Coeff>(poly_len).max_entries, 0);
    for budget in [
        linear_term_cache_budget::<LagrangeCoeff>(poly_len),
        linear_term_cache_budget::<ExtendedLagrangeCoeff>(poly_len),
    ] {
        assert_eq!(budget.max_entries, MAX_LINEAR_TERM_CACHE_ENTRIES);
        assert_eq!(budget.max_additional_slots, expected_additional_slots);
        assert!(
            budget.max_additional_slots * bytes_per_slot <= MAX_ADDITIONAL_LINEAR_TERM_CACHE_BYTES
        );
    }

    let overflow = linear_term_cache_budget::<ExtendedLagrangeCoeff>(usize::MAX);
    assert_eq!(overflow.max_entries, MAX_LINEAR_TERM_CACHE_ENTRIES);
    assert_eq!(overflow.max_additional_slots, 0);
}

fn action(slot: usize, store: bool, end: usize) -> Option<CacheAction> {
    Some(CacheAction { slot, store, end })
}

#[test]
fn cache_slots_are_reused_after_their_last_load() {
    let mut actions = vec![
        action(0, true, 1),
        action(1, true, 2),
        action(0, false, 3),
        action(2, true, 4),
        action(2, false, 5),
        action(1, false, 6),
    ];

    assert_eq!(reuse_cache_slots(&mut actions, 3), 2);
    assert_eq!(actions[0].unwrap().slot, actions[2].unwrap().slot);
    assert_eq!(actions[3].unwrap().slot, actions[4].unwrap().slot);
    assert_eq!(actions[0].unwrap().slot, actions[3].unwrap().slot);
    assert_ne!(actions[0].unwrap().slot, actions[1].unwrap().slot);
}

#[test]
fn linear_term_cache_reuses_free_lifetime_gaps() {
    let mut actions = vec![None; 8];
    actions[0] = action(0, true, 1);
    actions[7] = action(0, false, 8);
    actions[2] = action(1, true, 3);
    actions[3] = action(1, false, 4);

    let mut occupancy = LinearTermCacheOccupancy::new(
        &actions,
        2,
        LinearTermCacheBudget {
            max_entries: 2,
            max_additional_slots: 0,
        },
    );
    assert!(occupancy.try_reserve(4, 5));
    assert!(!occupancy.try_reserve(5, 6));
}

#[test]
fn linear_term_cache_prunes_physical_slots_beyond_byte_budget() {
    let bytes_per_slot = MAX_ADDITIONAL_LINEAR_TERM_CACHE_BYTES / 2;
    let poly_len = bytes_per_slot / std::mem::size_of::<Fp>();
    let budget = linear_term_cache_budget::<ExtendedLagrangeCoeff>(poly_len);
    assert_eq!(budget.max_additional_slots, 2);

    let mut occupancy = LinearTermCacheOccupancy::new(&[None; 5], 0, budget);
    assert!(occupancy.try_reserve(0, 4));
    assert!(occupancy.try_reserve(1, 3));
    assert!(!occupancy.try_reserve(2, 2));
}

#[test]
fn deferred_polynomials_are_filled_before_evaluation() {
    let domain = EvaluationDomain::<Fp>::new(3, 4);
    let tag = EvaluationPolyTag::new(2, 1, 0);
    let mut evaluator = new_evaluator::<(), _, ExtendedLagrangeCoeff>(());
    let leaf = evaluator.register_deferred_poly_with_tag(tag);
    let values = filled(&domain, |index| 3 * index + 1);
    evaluator.fill_deferred_poly(leaf, values.clone());
    let leaf = leaf.with_rotation(Rotation::next());
    let actual = evaluator.evaluate(&Ast::from_leaf(leaf), &domain);
    let expected = domain.rotate_extended(&values, Rotation::next());
    assert_eq!(actual.values, expected.values);
}

#[test]
fn a_plan_prepared_without_polynomials_serves_an_evaluation() {
    let domain = EvaluationDomain::<Fp>::new(3, 4);
    let tag = EvaluationPolyTag::new(0, 0, 0);
    let mut planner = new_virtual_evaluator::<(), Fp, ExtendedLagrangeCoeff>(());
    let planned = planner.register_virtual_poly_with_tag(tag);
    let expression = Ast::distribute_challenge_powers(
        rebound_expressions(planned),
        EvaluationChallenge::Y,
    );
    let plan = planner.prepare_compiled_quotient_plan(&expression, domain.extended_len());

    let mut evaluator = new_evaluator::<(), _, ExtendedLagrangeCoeff>(());
    let leaf = evaluator.register_poly_with_tag(filled(&domain, |index| index + 5), tag);
    assert!(evaluator.accepts_compiled_plan(&plan));
    let challenges = EvaluationChallenges::new(fp(2), fp(3), fp(5), fp(7));
    let (actual, replacement) =
        evaluator.evaluate_quotient_with_compiled_plan(vec![], &domain, Some(&plan), challenges);
    assert!(replacement.is_none());
    assert_eq!(
        actual.values,
        rebound_expected(&evaluator, &domain, leaf, challenges)
    );
}
