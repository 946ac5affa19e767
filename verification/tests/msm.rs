//! Accumulated multiscalar multiplications.
use halo2_proofs::curve::{CurveAffine, EpAffine};
use halo2_proofs::field::{Field, Fp, Fq};
use halo2_proofs::msm::{canonicalize_other, MSM};
use halo2_proofs::params::Params;

fn fq(value: u64) -> Fq {
    Fq::from_u64(value)
}

fn cancelling_full_width_msm(params: &Params<EpAffine>) -> MSM<'_, EpAffine> {
    let g_scalars = (0..params.n)
        .map(|index| fq(index + 2).invert().unwrap())
        .collect::<Vec<_>>();
    let mut msm = MSM::new(params);
    msm.add_to_g_scalars(&g_scalars);
    let sum = msm.clone().multiexp();
    assert!(!sum.is_identity());
    msm.append_term(Fq::one().neg(), sum);
    msm
}

#[test]
fn eval_full_width_is_exact() {
    let params = Params::<EpAffine>::new(8);
    let valid = cancelling_full_width_msm(&params);
    assert!(valid.clone().eval_full_width());

    let mut invalid = valid;
    invalid.append_term(Fq::one(), params.w);
    assert!(!invalid.eval_full_width());
}

#[test]
fn eval_full_width_falls_back_below_glv_threshold() {
    let params = Params::<EpAffine>::new(4);
    let valid = cancelling_full_width_msm(&params);
    assert!(valid.clone().eval_full_width());

    let mut invalid = valid;
    invalid.append_term(Fq::one(), params.w);
    assert!(!invalid.eval_full_width());
}

#[test]
fn msm_arithmetic() {
    // Once plain, once after asking for the prepared zero-checks.
    let params = Params::<EpAffine>::new(4);
    exercise_msm_arithmetic(&params);
    params.prepare_zero_checks();
    exercise_msm_arithmetic(&params);
}

fn exercise_msm_arithmetic(params: &Params<EpAffine>) {
    let base = EpAffine::from_xy(Fp::one().neg(), Fp::from_u64(2)).unwrap();
    let base_viol = base.add(base);

    let mut a: MSM<'_, EpAffine> = MSM::new(params);
    a.append_term(Fq::one(), base);
    // a = [1] P
    assert!(!a.clone().eval());
    a.append_term(Fq::one(), base);
    // a = [1+1] P
    assert!(!a.clone().eval());
    a.append_term(Fq::one().neg(), base_viol);
    // a = [1+1] P + [-1] 2P
    assert!(a.clone().eval());
    let b = a.clone();

    // Append a point that is the negation of an existing one.
    a.append_term(fq(4), base.neg());
    // a = [1+1-4] P + [-1] 2P
    assert!(!a.clone().eval());
    a.append_term(fq(2), base_viol);
    // a = [1+1-4] P + [-1+2] 2P
    assert!(a.clone().eval());

    // Add two MSMs with common bases.
    a.scale(fq(3));
    a.add_msm(&b);
    // a = [3*(1+1)+(1+1-4)] P + [3*(-1)+(-1+2)] 2P
    assert!(a.clone().eval());

    let mut c: MSM<'_, EpAffine> = MSM::new(params);
    c.append_term(fq(2), base);
    c.append_term(Fq::one(), base_viol.neg());
    // c = [2] P + [1] (-2P)
    assert!(c.clone().eval());
    // Add two MSMs with bases that differ only in sign.
    a.add_msm(&c);
    assert!(a.eval());
}

/// The scalars of the generators, of `w` and of `u` land on their own points.
#[test]
fn eval_prepared_fixed_scalar_placement() {
    let params = Params::<EpAffine>::new(4);
    let n = params.n as usize;

    exercise_fixed_scalar_placement(&params, n);
    assert!(!params.prepare_zero_checks());
    exercise_fixed_scalar_placement(&params, n);
}

fn exercise_fixed_scalar_placement(params: &Params<EpAffine>, n: usize) {
    let s = fq(0xC0FF_EE11);

    // w cancelled against W accepts; against U rejects.
    let mut w_ok = MSM::new(params);
    w_ok.add_to_w_scalar(s);
    w_ok.append_term(s.neg(), params.w);
    assert!(w_ok.eval());
    let mut w_swapped = MSM::new(params);
    w_swapped.add_to_w_scalar(s);
    w_swapped.append_term(s.neg(), params.u);
    assert!(!w_swapped.eval());

    // u symmetric.
    let mut u_ok = MSM::new(params);
    u_ok.add_to_u_scalar(s);
    u_ok.append_term(s.neg(), params.u);
    assert!(u_ok.eval());
    let mut u_swapped = MSM::new(params);
    u_swapped.add_to_u_scalar(s);
    u_swapped.append_term(s.neg(), params.w);
    assert!(!u_swapped.eval());

    // g scalars land on their own generators (start and end of the
    // slice, catching any offset).
    let mut g_scalars = vec![Fq::zero(); n];
    g_scalars[0] = fq(3);
    g_scalars[n - 1] = fq(7);
    let mut g_ok = MSM::new(params);
    g_ok.add_to_g_scalars(&g_scalars);
    g_ok.append_term(g_scalars[0].neg(), params.g[0]);
    g_ok.append_term(g_scalars[n - 1].neg(), params.g[n - 1]);
    assert!(g_ok.eval());
    let mut g_off = MSM::new(params);
    let mut perturbed = g_scalars.clone();
    perturbed[0] = perturbed[0].add(Fq::one());
    g_off.add_to_g_scalars(&perturbed);
    g_off.append_term(g_scalars[0].neg(), params.g[0]);
    g_off.append_term(g_scalars[n - 1].neg(), params.g[n - 1]);
    assert!(!g_off.eval());

    // All three fixed parts at once, accumulated through the batched
    // buffer so `eval`'s in-place canonicalization path is covered.
    let mut fixed_part = MSM::new(params);
    fixed_part.add_to_g_scalars(&g_scalars);
    fixed_part.add_to_w_scalar(s);
    fixed_part.add_to_u_scalar(s.add(s));
    let mut extras_part = MSM::new(params);
    extras_part.append_term(g_scalars[0].neg(), params.g[0]);
    extras_part.append_term(g_scalars[n - 1].neg(), params.g[n - 1]);
    extras_part.append_term(s.neg(), params.w);
    extras_part.append_term(s.add(s).neg(), params.u);
    let mut batched = MSM::new(params);
    batched.add_msm_batch(fixed_part);
    batched.add_msm_batch(extras_part);
    let mut broken = batched.clone();
    assert!(batched.eval());
    broken.append_term(Fq::one(), params.g[1]);
    assert!(!broken.eval());
}

#[test]
fn batch_aggregation_matches_incremental_aggregation() {
    let params = Params::<EpAffine>::new(6);
    let mut components = Vec::with_capacity(64);

    for proof in 0..64u64 {
        let mut msm = MSM::new(&params);
        let g_scalars = (0..params.n)
            .map(|index| fq(index + proof + 1))
            .collect::<Vec<_>>();
        msm.add_to_g_scalars(&g_scalars);
        msm.add_to_w_scalar(fq(proof + 3));
        msm.add_to_u_scalar(fq(proof + 5));

        // Exercise common points, proof-specific points, repeated points,
        // and opposite orientations of the same point.
        msm.append_term(fq(proof + 7), params.g[1]);
        msm.append_term(fq(proof + 11), params.g[2]);
        msm.append_term(fq(proof + 13), params.g[2].neg());
        msm.append_term(fq(proof + 17), params.g[3 + proof as usize % 32]);
        if proof % 2 == 0 {
            msm.scale(fq(19));
        }
        components.push(msm);
    }

    let mut incremental = MSM::new(&params);
    for component in &components {
        incremental.add_msm(component);
    }

    let mut batched = MSM::new(&params);
    for component in components.iter().cloned() {
        batched.add_msm_batch(component);
    }

    let expected = incremental.multiexp();
    assert!(expected.equals(&batched.multiexp()));

    // Match the tree-shaped reduction used by a batch verifier: aggregate
    // proofs into worker-local MSMs, then aggregate the worker results.
    let mut workers = (0..4).map(|_| MSM::new(&params)).collect::<Vec<_>>();
    for (index, component) in components.into_iter().enumerate() {
        workers[index % 4].add_msm_batch(component);
    }
    let mut reduced = MSM::new(&params);
    for worker in workers {
        reduced.add_msm_batch(worker);
    }

    assert!(expected.equals(&reduced.multiexp()));
}

fn make_components(params: &Params<EpAffine>) -> Vec<MSM<'_, EpAffine>> {
    (0..6u64)
        .map(|index| {
            let mut msm = MSM::new(params);
            let g_scalars = (0..params.n)
                .map(|slot| fq(slot + index + 1))
                .collect::<Vec<_>>();
            msm.add_to_g_scalars(&g_scalars);
            msm.add_to_w_scalar(fq(2 * index + 1));
            msm.add_to_u_scalar(fq(3 * index + 1));
            msm.append_term(fq(index + 2), params.g[1]);
            // The same point in both orientations, with scalars that
            // cancel exactly once coalesced (three of each).
            if index % 2 == 0 {
                msm.append_term(fq(5), params.g[2]);
            } else {
                msm.append_term(fq(5), params.g[2].neg());
            }
            msm.append_term(fq(7 + index), params.g[3 + index as usize]);
            msm
        })
        .collect()
}

fn incremental(params: &Params<EpAffine>) -> MSM<'_, EpAffine> {
    let mut acc = MSM::new(params);
    for component in &make_components(params) {
        acc.add_msm(component);
    }
    acc
}

fn batched(params: &Params<EpAffine>) -> MSM<'_, EpAffine> {
    let mut acc = MSM::new(params);
    for component in make_components(params) {
        acc.add_msm_batch(component);
    }
    acc
}

#[test]
fn batched_msm_interoperates_with_incremental_paths() {
    let params = Params::<EpAffine>::new(4);
    let expected = incremental(&params).multiexp();

    // `add_msm` must drain a source whose terms live in the batched
    // buffer rather than among the merged terms.
    let mut via_add_msm = MSM::new(&params);
    via_add_msm.add_msm(&batched(&params));
    assert!(expected.equals(&via_add_msm.multiexp()));

    // Evaluation must merge both storages when terms were appended after
    // batch accumulation, including a fresh x and a new orientation of an
    // already-batched point.
    let mut mixed = batched(&params);
    mixed.append_term(fq(23), params.g[4]);
    mixed.append_term(fq(29), params.g[3].neg());
    let mut mixed_reference = incremental(&params);
    mixed_reference.append_term(fq(23), params.g[4]);
    mixed_reference.append_term(fq(29), params.g[3].neg());
    assert!(mixed_reference.multiexp().equals(&mixed.multiexp()));

    // Scaling must reach the batched buffer.
    let mut scaled = batched(&params);
    scaled.scale(fq(31));
    let mut scaled_reference = incremental(&params);
    scaled_reference.scale(fq(31));
    assert!(scaled_reference.multiexp().equals(&scaled.multiexp()));

    // The fingerprint must canonicalize the batched buffer to the exact
    // view the incremental accumulation exports; the insertion order above
    // pins the same first-encountered orientation for both.
    assert_eq!(
        batched(&params).fingerprint_terms(),
        incremental(&params).fingerprint_terms(),
    );

    // A batch whose only terms cancel exactly still evaluates, and to
    // the identity.
    let mut first = MSM::new(&params);
    first.append_term(fq(21), params.g[1]);
    let mut second = MSM::new(&params);
    second.append_term(fq(21), params.g[1].neg());
    let mut cancelled = MSM::new(&params);
    cancelled.add_msm_batch(first);
    cancelled.add_msm_batch(second);
    assert!(cancelled.eval());
}

#[test]
fn a_constant_term_lands_on_the_first_generator() {
    let params = Params::<EpAffine>::new(3);
    let mut msm = params.empty_msm();
    assert!(msm.clone().eval());
    msm.add_constant_term(fq(9));
    assert!(msm.clone().multiexp().equals(&params.g[0].mul(fq(9))));
    msm.append_term(fq(9).neg(), params.g[0]);
    assert!(msm.eval());
}

type Terms = Vec<(Fp, (Fq, Fp))>;

fn canonical(terms: &Terms) -> Vec<(u64, Fq, Fp)> {
    canonicalize_other::<EpAffine>(terms.clone())
        .into_iter()
        .map(|(x, (scalar, y))| {
            let index = (0..64).find(|value| Fp::from_u64(*value) == x).unwrap();
            (index, scalar, y)
        })
        .collect()
}

#[test]
fn terms_are_merged_by_their_first_coordinates() {
    let fp = Fp::from_u64;
    let terms: Terms = vec![
        (fp(5), (fq(2), fp(7))),
        (fp(3), (fq(1), fp(4))),
        (fp(5), (fq(6), fp(7).neg())),
    ];
    let expected = vec![(3, fq(1), fp(4)), (5, fq(4).neg(), fp(7))];
    assert_eq!(canonical(&terms), expected);

    // Merging again changes nothing.
    let merged = canonicalize_other::<EpAffine>(terms);
    assert_eq!(canonical(&merged), expected);

    // A scalar that sums to zero is kept.
    let cancelling: Terms = vec![(fp(5), (fq(2), fp(7))), (fp(5), (fq(2), fp(7).neg()))];
    assert_eq!(canonical(&cancelling), vec![(5, fq(0), fp(7))]);
}

#[test]
fn the_order_of_aggregation_does_not_matter() {
    let params = Params::<EpAffine>::new(3);
    let part = |index: u64| {
        let mut msm = MSM::new(&params);
        msm.add_to_w_scalar(fq(index + 3));
        msm.append_term(fq(index + 7), params.g[1]);
        msm.append_term(fq(index + 9), params.g[2 + index as usize % 3].neg());
        msm
    };
    let mut forward = MSM::new(&params);
    let mut backward = MSM::new(&params);
    for index in 0..5 {
        forward.add_msm(&part(index));
        backward.add_msm_batch(part(4 - index));
    }
    let mut left = part(3);
    left.add_msm(&part(0));
    let mut right = part(4);
    right.add_msm_batch(part(2));
    right.add_msm(&part(1));
    left.add_msm_batch(right);

    let expected = forward.multiexp();
    assert!(expected.equals(&backward.multiexp()));
    assert!(expected.equals(&left.multiexp()));
}
