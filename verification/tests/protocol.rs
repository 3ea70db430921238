use std::collections::BTreeMap;

use gkr_sumcheck::data_structures::{
    DenseMultilinearExtension, GKRVerifierProduct, GKRVerifierSumOfProducts, Product,
    SparseMultilinearExtension, SumOfProducts,
};
use gkr_sumcheck::field::PrimeField;
use gkr_sumcheck::fr::Fr;
use gkr_sumcheck::interpolation::interpolate_uni_poly;
use gkr_sumcheck::oracles::{CombinedPolyOracle, GKROracle, Oracle, PolyOracle};
use gkr_sumcheck::parties::{
    run_sumcheck_protocol, run_sumcheck_protocol_combined,
    run_sumcheck_protocol_combined_multiprod, run_sumcheck_protocol_combined_multiprod_with_sponge,
    run_sumcheck_protocol_combined_with_sponge, run_sumcheck_protocol_with_sponge, Prover, Verifier,
};
use gkr_sumcheck::sponge::{test_sponge, PoseidonConfig, PoseidonSponge};
use gkr_sumcheck::tables::{initialise_phase_1, initialise_phase_2};
use gkr_sumcheck::transcript::{draw_challenge, SumcheckProof};

fn elem(n: u64) -> Fr {
    Fr::from_u64(n)
}

fn elems(ns: &[u64]) -> Vec<Fr> {
    ns.iter().map(|n| elem(*n)).collect()
}

fn limbs(xs: &[Fr]) -> Vec<[u64; 4]> {
    xs.iter().map(|x| x.to_limbs()).collect()
}

/// A dense polynomial with arbitrary values.
fn dense(num_vars: usize, seed: u64) -> DenseMultilinearExtension<Fr> {
    let evaluations = (0..1u64 << num_vars).map(|i| elem((i + 3) * (i + seed) + seed)).collect();
    DenseMultilinearExtension { evaluations, num_vars }
}

/// A sparse polynomial with every third value.
fn sparse(num_vars: usize, seed: u64) -> SparseMultilinearExtension<Fr> {
    let mut evaluations = BTreeMap::new();
    let mut i = seed as usize % 3;
    while i < 1 << num_vars {
        evaluations.insert(i, elem((i as u64 + seed) * (i as u64 + 1)));
        i += 3;
    }
    SparseMultilinearExtension { evaluations, num_vars }
}

fn product(k: usize, seed: u64) -> Product<Fr> {
    Product(sparse(3 * k, seed), dense(k, seed + 1), dense(k, seed + 2))
}

fn sum_of(k: usize, seeds: &[u64]) -> SumOfProducts<Fr> {
    SumOfProducts { terms: seeds.iter().map(|s| product(k, *s)).collect() }
}

fn point(k: usize, seed: u64) -> Vec<Fr> {
    (0..k as u64).map(|i| elem(seed + 5 * i)).collect()
}

fn fixed_sponge() -> PoseidonSponge<Fr> {
    PoseidonSponge::new(PoseidonConfig {
        full_rounds: 8,
        partial_rounds: 31,
        alpha: 17,
        ark: (0..39).map(|i| elems(&[5 * i + 1, 7 * i + 2, 11 * i + 3])).collect(),
        mds: vec![elems(&[1, 0, 1]), elems(&[1, 1, 0]), elems(&[0, 1, 1])],
        rate: 2,
        capacity: 1,
    })
}

fn corner(i: usize, k: usize) -> Vec<Fr> {
    (0..k).map(|j| elem((i >> j) as u64 & 1)).collect()
}

/// The value of the summed polynomial.
fn value_at(
    sum: &SumOfProducts<Fr>,
    (g1, g2, alpha, beta): (&[Fr], &[Fr], Fr, Fr),
    x: &[Fr],
    y: &[Fr],
) -> Fr {
    let mut total = Fr::zero();
    for Product(f1, f2, f3) in &sum.terms {
        let at_1 = f1.evaluate(&[g1, x, y].concat()).unwrap();
        let at_2 = f1.evaluate(&[g2, x, y].concat()).unwrap();
        let wiring = alpha.mul(at_1).add(beta.mul(at_2));
        let rest = f2.evaluate(x).unwrap().mul(f3.evaluate(y).unwrap());
        total = total.add(wiring.mul(rest));
    }
    total
}

/// The sum over all corners.
fn cube_sum(sum: &SumOfProducts<Fr>, mix: (&[Fr], &[Fr], Fr, Fr), k: usize) -> Fr {
    let mut total = Fr::zero();
    for x in 0..1 << k {
        for y in 0..1 << k {
            total = total.add(value_at(sum, mix, &corner(x, k), &corner(y, k)));
        }
    }
    total
}

fn honest_proof(k: usize, seeds: &[u64]) -> (SumcheckProof<Fr>, Vec<Fr>) {
    let mut prover = Prover::new(sum_of(k, seeds), fixed_sponge());
    prover.run(&point(k, 2), &point(k, 9), elem(4), elem(6))
}

fn full_oracle(k: usize, seeds: &[u64]) -> CombinedPolyOracle<Fr> {
    CombinedPolyOracle::new(sum_of(k, seeds), point(k, 2), point(k, 9), elem(4), elem(6))
}

#[test]
fn honest_runs_are_accepted() {
    for k in 1..4 {
        let Product(f1, f2, f3) = product(k, 7);
        assert!(run_sumcheck_protocol(f1, f2, f3, &point(k, 3)));
        let Product(f1, f2, f3) = product(k, 8);
        assert!(run_sumcheck_protocol_combined(
            f1,
            f2,
            f3,
            &point(k, 3),
            &point(k, 11),
            elem(5),
            elem(13),
        ));
        assert!(run_sumcheck_protocol_combined_multiprod(
            sum_of(k, &[1, 2, 3]),
            &point(k, 3),
            &point(k, 11),
            elem(5),
            elem(13),
        ));
    }
}

#[test]
fn honest_runs_with_vanishing_factors_are_accepted() {
    let k = 2;
    let zero = DenseMultilinearExtension { evaluations: elems(&[0, 0, 0, 0]), num_vars: k };
    let nothing = SparseMultilinearExtension { evaluations: BTreeMap::new(), num_vars: 3 * k };
    assert!(run_sumcheck_protocol(nothing.clone(), dense(k, 1), dense(k, 2), &point(k, 3)));
    assert!(run_sumcheck_protocol(sparse(3 * k, 1), zero.clone(), dense(k, 2), &point(k, 3)));
    assert!(run_sumcheck_protocol_combined(
        nothing,
        zero,
        dense(k, 2),
        &point(k, 3),
        &point(k, 4),
        elem(0),
        elem(0),
    ));
}

#[test]
fn the_claim_is_the_sum_over_the_hypercube() {
    for k in 1..3 {
        let (g1, g2) = (point(k, 2), point(k, 9));
        let (alpha, beta) = (elem(4), elem(6));
        let (proof, _) = honest_proof(k, &[1, 2]);
        let expected = cube_sum(&sum_of(k, &[1, 2]), (&g1, &g2, alpha, beta), k);
        assert_eq!(proof.claim.unwrap().to_limbs(), expected.to_limbs());
    }
}

#[test]
fn a_claim_by_hand() {
    // f1 is 7 at z = 1, x = 0, y = 1, and zero elsewhere; the weight of z is 2 * 3 + 5.
    let mut evaluations = BTreeMap::new();
    evaluations.insert(5, elem(7));
    let f1 = SparseMultilinearExtension { evaluations, num_vars: 3 };
    let f2 = DenseMultilinearExtension { evaluations: elems(&[3, 4]), num_vars: 1 };
    let f3 = DenseMultilinearExtension { evaluations: elems(&[10, 20]), num_vars: 1 };
    let sum = SumOfProducts { terms: vec![Product(f1, f2, f3)] };
    let mut prover = Prover::new(sum, fixed_sponge());
    let (proof, challenges) = prover.run(&elems(&[3]), &elems(&[5]), elem(2), elem(1));
    assert_eq!(proof.claim.unwrap().to_limbs(), [11 * 7 * 3 * 20, 0, 0, 0]);
    // The first table is (1540, 0): at 2 the factors are -1540 and 5.
    let minus = elem(1540 * 5).neg();
    assert_eq!(limbs(&proof.values[0]), limbs(&[elem(4620), elem(0), minus]));
    assert_eq!(proof.values.len(), 2);
    assert_eq!(challenges.len(), 2);
}

#[test]
fn each_message_adds_up_to_the_last_polynomial_at_its_challenge() {
    let k = 3;
    let (proof, challenges) = honest_proof(k, &[1, 2]);
    let mut expected = proof.claim.unwrap();
    for (message, r) in proof.values.iter().zip(&challenges) {
        assert_eq!(message.len(), 3);
        assert_eq!(message[0].add(message[1]).to_limbs(), expected.to_limbs());
        expected = interpolate_uni_poly(message, *r);
    }
    let (g1, g2) = (point(k, 2), point(k, 9));
    let mix = (g1.as_slice(), g2.as_slice(), elem(4), elem(6));
    let last = value_at(&sum_of(k, &[1, 2]), mix, &challenges[..k], &challenges[k..]);
    assert_eq!(expected.to_limbs(), last.to_limbs());
}

#[test]
fn challenges_answer_the_messages() {
    let (proof, challenges) = honest_proof(2, &[1, 2]);
    let mut sponge = fixed_sponge();
    for (message, r) in proof.values.iter().zip(&challenges) {
        assert_eq!(draw_challenge(message, &mut sponge).to_limbs(), r.to_limbs());
    }
}

#[test]
fn both_parties_draw_the_same_challenges() {
    let (proof, challenges) = honest_proof(2, &[1, 2]);
    let mut verifier = Verifier::new(full_oracle(2, &[1, 2]), fixed_sponge(), proof);
    let (accepted, drawn) = verifier.run();
    assert!(accepted);
    assert_eq!(limbs(&drawn), limbs(&challenges));
}

#[test]
fn runs_from_a_given_sponge_are_reproducible() {
    let k = 2;
    let run = || {
        let Product(f1, f2, f3) = product(k, 7);
        run_sumcheck_protocol_with_sponge(f1, f2, f3, &point(k, 3), fixed_sponge())
    };
    let (a, b) = (run(), run());
    assert!(a.0 && b.0);
    assert_eq!(a.1.claim.unwrap().to_limbs(), b.1.claim.unwrap().to_limbs());
    assert_eq!(limbs(&a.2), limbs(&b.2));
    let mut prover = Prover::new(sum_of(k, &[7]), fixed_sponge());
    let (proof, challenges) = prover.run(&point(k, 3), &point(k, 3), elem(1), elem(0));
    assert_eq!(limbs(&a.2), limbs(&challenges));
    for (x, y) in a.1.values.iter().zip(&proof.values) {
        assert_eq!(limbs(x), limbs(y));
    }
}

#[test]
fn one_product_is_a_sum_of_products() {
    let k = 2;
    let Product(f1, f2, f3) = product(k, 7);
    let (g1, g2) = (point(k, 3), point(k, 8));
    let a = run_sumcheck_protocol_combined_with_sponge(
        f1,
        f2,
        f3,
        &g1,
        &g2,
        elem(5),
        elem(6),
        fixed_sponge(),
    );
    let b = run_sumcheck_protocol_combined_multiprod_with_sponge(
        sum_of(k, &[7]),
        &g1,
        &g2,
        elem(5),
        elem(6),
        fixed_sponge(),
    );
    assert!(a.0 && b.0);
    assert_eq!(a.1.claim.unwrap().to_limbs(), b.1.claim.unwrap().to_limbs());
    assert_eq!(limbs(&a.2), limbs(&b.2));
}

#[test]
fn a_single_point_is_a_mixture_with_coefficients_one_and_zero() {
    let k = 2;
    let simple = PolyOracle::new(sum_of(k, &[1, 2]), point(k, 4));
    let mixed = CombinedPolyOracle::new(
        sum_of(k, &[1, 2]),
        point(k, 4),
        point(k, 4),
        elem(1),
        elem(0),
    );
    let (x, y) = (elems(&[12, 34]), elems(&[56, 78]));
    assert_eq!(simple.num_rounds(), 4);
    assert_eq!(mixed.num_rounds(), 4);
    assert_eq!(simple.divinate(&x, &y).to_limbs(), mixed.divinate(&x, &y).to_limbs());
    let g = point(k, 4);
    let expected = value_at(&sum_of(k, &[1, 2]), (&g, &g, elem(1), elem(0)), &x, &y);
    assert_eq!(simple.divinate(&x, &y).to_limbs(), expected.to_limbs());
}

#[test]
fn the_reduced_oracle_agrees_when_its_values_are_right() {
    let k = 2;
    let (x, y) = (elems(&[12, 34]), elems(&[56, 78]));
    let terms = sum_of(k, &[1, 2])
        .terms
        .into_iter()
        .map(|Product(f1, f2, f3)| {
            let (w_u, w_v) = (f2.evaluate(&x).unwrap(), f3.evaluate(&y).unwrap());
            GKRVerifierProduct(f1, w_u, w_v)
        })
        .collect();
    let reduced = GKROracle::new(
        GKRVerifierSumOfProducts { terms },
        point(k, 2),
        point(k, 9),
        elem(4),
        elem(6),
    );
    assert_eq!(reduced.num_rounds(), 4);
    let full = full_oracle(k, &[1, 2]);
    assert_eq!(reduced.divinate(&x, &y).to_limbs(), full.divinate(&x, &y).to_limbs());
}

#[test]
fn a_wrong_claim_is_refused_in_the_first_round() {
    let (mut proof, _) = honest_proof(2, &[1, 2]);
    proof.claim = Some(proof.claim.unwrap().add(elem(1)));
    let mut verifier = Verifier::new(full_oracle(2, &[1, 2]), fixed_sponge(), proof);
    let (accepted, drawn) = verifier.run();
    assert!(!accepted);
    assert!(drawn.is_empty());
}

#[test]
fn a_message_with_a_wrong_sum_is_refused_in_its_round() {
    for round in 0..4 {
        let (mut proof, challenges) = honest_proof(2, &[1, 2]);
        proof.values[round][1] = proof.values[round][1].add(elem(1));
        let mut verifier = Verifier::new(full_oracle(2, &[1, 2]), fixed_sponge(), proof);
        let (accepted, drawn) = verifier.run();
        assert!(!accepted);
        assert_eq!(limbs(&drawn), limbs(&challenges[..round]));
    }
}

#[test]
fn a_wrong_polynomial_with_the_right_sum_is_refused_after_its_round() {
    let (mut proof, challenges) = honest_proof(2, &[1, 2]);
    proof.values[1][2] = proof.values[1][2].add(elem(1));
    let mut verifier = Verifier::new(full_oracle(2, &[1, 2]), fixed_sponge(), proof);
    let (accepted, drawn) = verifier.run();
    assert!(!accepted);
    assert_eq!(drawn.len(), 2);
    assert_eq!(drawn[0].to_limbs(), challenges[0].to_limbs());
    assert_ne!(drawn[1].to_limbs(), challenges[1].to_limbs());
}

#[test]
fn a_wrong_claim_with_a_message_to_match_is_refused_later() {
    let (mut proof, _) = honest_proof(2, &[1, 2]);
    proof.claim = Some(proof.claim.unwrap().add(elem(1)));
    proof.values[0][0] = proof.values[0][0].add(elem(1));
    let mut verifier = Verifier::new(full_oracle(2, &[1, 2]), fixed_sponge(), proof);
    let (accepted, drawn) = verifier.run();
    assert!(!accepted);
    assert_eq!(drawn.len(), 1);
}

#[test]
fn the_oracle_has_the_last_word() {
    let (proof, challenges) = honest_proof(2, &[1, 2]);
    let mut verifier = Verifier::new(full_oracle(2, &[1, 3]), fixed_sponge(), proof);
    let (accepted, drawn) = verifier.run();
    assert!(!accepted);
    assert_eq!(limbs(&drawn), limbs(&challenges));
}

#[test]
fn parties_with_different_sponges_disagree() {
    let (proof, _) = honest_proof(2, &[1, 2]);
    let mut sponge = fixed_sponge();
    draw_challenge(&elems(&[1]), &mut sponge);
    let mut verifier = Verifier::new(full_oracle(2, &[1, 2]), sponge, proof);
    let (accepted, drawn) = verifier.run();
    assert!(!accepted);
    assert_eq!(drawn.len(), 1);
}

#[test]
fn a_proof_that_ends_too_early_is_not_run() {
    let (mut proof, _) = honest_proof(2, &[1, 2]);
    proof.values.pop();
    let mut verifier = Verifier::new(full_oracle(2, &[1, 2]), fixed_sponge(), proof);
    assert!(!verifier.is_complete());
    assert!(verifier.try_run().is_none());
}

#[test]
fn a_message_that_is_too_short_is_not_read() {
    let (mut proof, _) = honest_proof(2, &[1, 2]);
    proof.values[2].truncate(1);
    let mut verifier = Verifier::new(full_oracle(2, &[1, 2]), fixed_sponge(), proof);
    assert!(!verifier.is_complete());
    assert!(verifier.try_run().is_none());
}

#[test]
fn what_comes_after_a_refusal_need_not_be_there() {
    let (mut proof, _) = honest_proof(2, &[1, 2]);
    proof.values[1][0] = proof.values[1][0].add(elem(1));
    proof.values.truncate(2);
    let mut verifier = Verifier::new(full_oracle(2, &[1, 2]), fixed_sponge(), proof);
    assert!(verifier.is_complete());
    let (accepted, drawn) = verifier.try_run().unwrap();
    assert!(!accepted);
    assert_eq!(drawn.len(), 1);
}

#[test]
fn a_complete_proof_is_run() {
    let (proof, challenges) = honest_proof(2, &[1, 2]);
    let mut verifier = Verifier::new(full_oracle(2, &[1, 2]), fixed_sponge(), proof);
    let (accepted, drawn) = verifier.try_run().unwrap();
    assert!(accepted);
    assert_eq!(limbs(&drawn), limbs(&challenges));
}

#[test]
fn messages_of_other_lengths_are_read() {
    // The same polynomials by their values at 0, 1, 2 and 3 in the last round.
    let (mut proof, _) = honest_proof(2, &[1, 2]);
    let longer = interpolate_uni_poly(&proof.values[3], elem(3));
    proof.values[3].push(longer);
    let mut verifier = Verifier::new(full_oracle(2, &[1, 2]), fixed_sponge(), proof);
    let (accepted, drawn) = verifier.run();
    assert!(accepted);
    assert_eq!(drawn.len(), 4);
}

#[test]
fn a_second_run_of_the_prover_goes_on_with_its_transcript() {
    let k = 1;
    let mut prover = Prover::new(sum_of(k, &[1]), fixed_sponge());
    let (first, _) = prover.run(&point(k, 2), &point(k, 9), elem(4), elem(6));
    let (second, challenges) = prover.run(&point(k, 2), &point(k, 9), elem(4), elem(6));
    assert_eq!(first.values.len(), 2);
    assert_eq!(second.values.len(), 4);
    assert_eq!(challenges.len(), 2);
    for i in 0..2 {
        assert_eq!(limbs(&second.values[i]), limbs(&first.values[i]));
    }
    assert_eq!(limbs(&second.values[2]), limbs(&first.values[0]));
    assert_eq!(second.claim.unwrap().to_limbs(), first.claim.unwrap().to_limbs());
}

#[test]
fn copies_of_a_sum_of_products_are_the_same() {
    let sum = sum_of(2, &[1, 2]);
    let copy = sum.clone();
    assert_eq!(copy.terms.len(), 2);
    for (a, b) in sum.terms.iter().zip(&copy.terms) {
        assert_eq!(a.0.num_vars, b.0.num_vars);
        assert_eq!(a.0.evaluations.len(), b.0.evaluations.len());
        assert_eq!(limbs(&a.1.evaluations), limbs(&b.1.evaluations));
        assert_eq!(limbs(&a.2.evaluations), limbs(&b.2.evaluations));
    }
}

#[test]
fn fresh_sponges_serve_as_well() {
    let k = 2;
    let sponge = test_sponge::<Fr>();
    let mut prover = Prover::new(sum_of(k, &[1, 2]), sponge.clone());
    let (proof, challenges) = prover.run(&point(k, 2), &point(k, 9), elem(4), elem(6));
    let mut verifier = Verifier::new(full_oracle(k, &[1, 2]), sponge, proof);
    let (accepted, drawn) = verifier.run();
    assert!(accepted);
    assert_eq!(limbs(&drawn), limbs(&challenges));
}

#[test]
fn a_mixture_is_the_sum_of_its_points() {
    let k = 2;
    let (x, y) = (elems(&[12, 34]), elems(&[56, 78]));
    let at = |seed| PolyOracle::new(sum_of(k, &[1, 2]), point(k, seed)).divinate(&x, &y);
    let expected = elem(4).mul(at(2)).add(elem(6).mul(at(9)));
    assert_eq!(full_oracle(k, &[1, 2]).divinate(&x, &y).to_limbs(), expected.to_limbs());
}

#[test]
fn claims_of_sums_of_products_add_up() {
    let claim = |seeds: &[u64]| honest_proof(2, seeds).0.claim.unwrap();
    let both = claim(&[1, 5]).add(claim(&[2]));
    assert_eq!(claim(&[1, 5, 2]).to_limbs(), both.to_limbs());
}

#[test]
fn a_run_has_one_outcome() {
    let run = || {
        let (mut proof, _) = honest_proof(2, &[1, 2]);
        proof.values[2][0] = proof.values[2][0].add(elem(1));
        Verifier::new(full_oracle(2, &[1, 2]), fixed_sponge(), proof).run()
    };
    let (a, b) = (run(), run());
    assert!(!a.0 && !b.0);
    assert_eq!(a.1.len(), 2);
    assert_eq!(limbs(&a.1), limbs(&b.1));
}

#[test]
fn the_order_of_the_products_does_not_matter() {
    let (a, rs) = honest_proof(2, &[1, 5, 2]);
    let (b, other_rs) = honest_proof(2, &[2, 1, 5]);
    assert_eq!(a.claim.unwrap().to_limbs(), b.claim.unwrap().to_limbs());
    assert_eq!(limbs(&rs), limbs(&other_rs));
    for (x, y) in a.values.iter().zip(&b.values) {
        assert_eq!(limbs(x), limbs(y));
    }
}

#[test]
fn sumcheck_does_not_tell_the_two_lists_of_tables_apart() {
    let fs = || vec![elems(&[1, 2, 3, 4, 99]), elems(&[5, 6, 7, 8])];
    let gs = || vec![elems(&[2, 7, 1, 8]), elems(&[3, 1, 4, 1, 5, 9])];
    let (mut xs, mut ys, mut xs_copy, mut ys_copy) = (fs(), gs(), fs(), gs());
    let mut prover = Prover::new(sum_of(2, &[1]), fixed_sponge());
    let mut other = Prover::new(sum_of(2, &[1]), fixed_sponge());
    let (claim, rs) = prover.sumcheck_prod(&mut xs, &mut ys, 2);
    let (other_claim, other_rs) = other.sumcheck_prod(&mut ys_copy, &mut xs_copy, 2);
    assert_eq!(claim.to_limbs(), [108, 0, 0, 0]);
    assert_eq!(claim.to_limbs(), other_claim.to_limbs());
    assert_eq!(rs.len(), 2);
    assert_eq!(limbs(&rs), limbs(&other_rs));
    for s in 0..2 {
        assert_eq!(limbs(&xs[s]), limbs(&xs_copy[s]));
        assert_eq!(limbs(&ys[s]), limbs(&ys_copy[s]));
        for (j, x) in fs()[s].iter().enumerate().filter(|(j, _)| j % 2 == 1 || *j >= 4) {
            assert_eq!(xs[s][j].to_limbs(), x.to_limbs());
        }
        // The first entry is the value of the polynomial at the challenges.
        let f = DenseMultilinearExtension { evaluations: fs()[s][..4].to_vec(), num_vars: 2 };
        assert_eq!(xs[s][0].to_limbs(), f.evaluate(&rs).unwrap().to_limbs());
    }
}

#[test]
fn sumcheck_without_tables_claims_zero() {
    let mut prover = Prover::new(sum_of(2, &[1]), fixed_sponge());
    let (claim, rs) = prover.sumcheck_prod(&mut vec![], &mut vec![], 3);
    assert_eq!(claim.to_limbs(), [0, 0, 0, 0]);
    assert_eq!(rs.len(), 3);
}

#[test]
fn messages_after_the_last_round_play_no_part() {
    let (mut proof, challenges) = honest_proof(2, &[1, 2]);
    proof.values.push(elems(&[1, 2, 3]));
    let mut verifier = Verifier::new(full_oracle(2, &[1, 2]), fixed_sponge(), proof);
    let (accepted, drawn) = verifier.run();
    assert!(accepted);
    assert_eq!(limbs(&drawn), limbs(&challenges));
    let (mut proof, _) = honest_proof(2, &[1, 2]);
    proof.values.push(elems(&[1, 2, 3]));
    proof.claim = Some(proof.claim.unwrap().add(elem(1)));
    let mut verifier = Verifier::new(full_oracle(2, &[1, 2]), fixed_sponge(), proof);
    assert!(!verifier.run().0);
}

#[test]
fn phase_tables_at_the_corners() {
    let k = 2;
    let Product(f1, _, f3) = product(k, 7);
    let (g1, g2, u) = (point(k, 2), point(k, 9), point(k, 20));
    let (alpha, beta) = (elem(4), elem(6));
    let wiring = |x: &[Fr], y: &[Fr]| {
        let at_1 = f1.evaluate(&[g1.as_slice(), x, y].concat()).unwrap();
        let at_2 = f1.evaluate(&[g2.as_slice(), x, y].concat()).unwrap();
        alpha.mul(at_1).add(beta.mul(at_2))
    };
    let first = initialise_phase_1(&f1, &f3, &g1, &g2, alpha, beta);
    let second = initialise_phase_2(&f1, &g1, &g2, &u, alpha, beta);
    for i in 0..1 << k {
        let mut total = Fr::zero();
        for y in 0..1 << k {
            total = total.add(f3.evaluations[y].mul(wiring(&corner(i, k), &corner(y, k))));
        }
        assert_eq!(first[i].to_limbs(), total.to_limbs());
        assert_eq!(second[i].to_limbs(), wiring(&u, &corner(i, k)).to_limbs());
    }
}
