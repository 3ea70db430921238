//! The two parties of the protocol, and runs of one against the other.

use vstd::arithmetic::power2::pow2;
use vstd::prelude::*;

use crate::completeness::{lemma_completeness, lemma_honest_messages_shape};
use crate::data_structures::{
    copy_slice, DenseMultilinearExtension, GKRVerifierProduct, GKRVerifierSumOfProducts,
    MultilinearField, Product, SparseMultilinearExtension, SumOfProducts, Term,
};
use crate::field::{lemma_cong_reduce, vals, vals2, PrimeField};
use crate::interpolation::lemma_interpolate_constant;
use crate::laws::{
    corner, cube_sum, lemma_claim_is_cube_sum, lemma_honest_run, lemma_reduced_is_combined,
    lemma_single_point, single_point,
};
use crate::meaning::lemma_honest_message;
use crate::multilinear::mle;
use crate::oracles::{combined_value, CombinedPolyOracle, GKROracle, Oracle, PolyOracle};
use crate::protocol::{honest_claim, honest_messages, round_ok, rounds_ok, terms_shaped};
use crate::proving::lemma_shapes;
use crate::rounds::challenges;
use crate::sponge::{test_sponge, Absorb, PoseidonSponge, RandomField, SpongeState};
use crate::sums::sum;
use crate::tables::mix_of;
use crate::transcript::SumcheckProof;
use crate::wiring::Mix;

pub use crate::proving::Prover;
pub use crate::verifying::Verifier;

verus! {

/// The outcome of a run in which both parties are honest: the verifier accepts, the proof is that
/// of an honest prover, and the challenges are those that answer its messages.
pub open spec fn is_honest_run<F: Absorb>(
    terms: Seq<Term>,
    mix: Mix,
    k: nat,
    sponge: SpongeState,
    accepted: bool,
    proof: SumcheckProof<F>,
    rs: Seq<int>,
) -> bool {
    &&& accepted
    &&& proof.messages() == honest_messages::<F>(terms, mix, k, sponge)
    &&& proof.claim_val() == Some(honest_claim(terms, mix, k, F::modulus()))
    &&& rs == challenges::<F>(sponge, proof.messages())
}

/// The proof of an honest run: it claims the sum over all corners, and its messages are consistent
/// with the claim and with each other. Each value of a message is the sum over the remaining corners
/// of the summed polynomial at the challenges so far and the node.
pub proof fn lemma_returned_claim<F: Absorb>(
    terms: Seq<Term>,
    mix: Mix,
    k: nat,
    sponge: SpongeState,
    accepted: bool,
    proof: SumcheckProof<F>,
    rs: Seq<int>,
)
    requires
        k > 0,
        terms_shaped(terms, k),
        mix.g1.len() == k,
        mix.g2.len() == k,
        is_honest_run(terms, mix, k, sponge, accepted, proof, rs),
    ensures
        accepted,
        proof.claim is Some,
        proof.claim->0.val() == cube_sum(terms, mix, k) % F::modulus(),
        proof.values@.len() == 2 * k,
        (proof.values@[0]@[0].val() + proof.values@[0]@[1].val()) % F::modulus()
            == proof.claim->0.val(),
        rounds_ok::<F>(proof.claim->0.val(), proof.messages(), sponge, 2 * k as int),
        rs.len() == 2 * k,
        rs == challenges::<F>(sponge, vals2(proof.values@)),
        forall|i: int| 0 <= i < 2 * k ==> (#[trigger] proof.values@[i])@.len() == 3,
        forall|i: int, t: int|
            0 <= i < 2 * k && 0 <= t < 3 ==> (#[trigger] proof.values@[i]@[t]).val() == sum(
            pow2((2 * k - i - 1) as nat),
            |b: int|
                combined_value(
                    terms,
                    mix,
                    (rs.take(i).push(t) + corner(b, (2 * k - i - 1) as nat)).take(k as int),
                    (rs.take(i).push(t) + corner(b, (2 * k - i - 1) as nat)).skip(k as int),
                ),
        ) % F::modulus(),
{
    let p = F::modulus();
    lemma_completeness::<F>(terms, mix, k, sponge);
    lemma_honest_messages_shape::<F>(terms, mix, k, sponge);
    lemma_claim_is_cube_sum(terms, mix, k, p);
    let claim = proof.claim->0.val();
    assert(round_ok::<F>(claim, proof.messages(), sponge, 0));
    lemma_interpolate_constant(claim, 1, p);
    proof.claim->0.lemma_val();
    vstd::arithmetic::div_mod::lemma_small_mod(claim as nat, p as nat);
    assert(proof.messages()[0].len() == 3);
    assert(proof.messages()[0][0] == proof.values@[0]@[0].val());
    assert(proof.messages()[0][1] == proof.values@[0]@[1].val());
    assert forall|i: int| 0 <= i < 2 * k implies (#[trigger] proof.values@[i])@.len() == 3 by {
        assert(proof.messages()[i].len() == 3);
    }
    assert forall|i: int, t: int| 0 <= i < 2 * k && 0 <= t < 3 implies (
    #[trigger] proof.values@[i]@[t]).val() == sum(
            pow2((2 * k - i - 1) as nat),
            |b: int|
                combined_value(
                    terms,
                    mix,
                    (rs.take(i).push(t) + corner(b, (2 * k - i - 1) as nat)).take(k as int),
                    (rs.take(i).push(t) + corner(b, (2 * k - i - 1) as nat)).skip(k as int),
                ),
        ) % F::modulus() by {
        lemma_honest_message::<F>(terms, mix, k, sponge, i);
        assert(proof.messages()[i][t] == proof.values@[i]@[t].val());
    }
}

/// A single product as a sum.
fn single_product<F: PrimeField>(
    f1: SparseMultilinearExtension<F>,
    f2: DenseMultilinearExtension<F>,
    f3: DenseMultilinearExtension<F>,
) -> (r: SumOfProducts<F>)
    requires
        f2.num_vars > 0,
        Product(f1, f2, f3).shaped(f2.num_vars as nat),
    ensures
        r.wf(),
        r.arity() == f2.num_vars,
        r@ == seq![Product(f1, f2, f3)@],
{
    let mut terms: Vec<Product<F>> = Vec::new();
    terms.push(Product(f1, f2, f3));
    let r = SumOfProducts { terms };
    assert(r@ =~= seq![Product(f1, f2, f3)@]);
    r
}

/// Checks the proof of an honest prover, with an oracle that gives the value of the summed
/// polynomial at the challenges.
fn check_honest_proof<F: Absorb, O: Oracle<F>>(
    oracle: O,
    sponge: PoseidonSponge<F>,
    proof: SumcheckProof<F>,
    Ghost(terms): Ghost<Seq<Term>>,
    Ghost(mix): Ghost<Mix>,
    Ghost(k): Ghost<nat>,
) -> (r: (bool, Vec<F>))
    requires
        k > 0,
        terms_shaped(terms, k),
        mix.g1.len() == k,
        mix.g2.len() == k,
        sponge@.wf(),
        proof.messages() == honest_messages::<F>(terms, mix, k, sponge@),
        proof.claim_val() == Some(honest_claim(terms, mix, k, F::modulus())),
        oracle.wf(),
        oracle.rounds() == 2 * k,
        ({
            let rs = challenges::<F>(sponge@, proof.messages());
            let (u, w) = (rs.take(k as int), rs.skip(k as int));
            oracle.value(u, w) == combined_value(terms, mix, u, w) % F::modulus()
        }),
    ensures
        r.0,
        vals(r.1@) == challenges::<F>(sponge@, proof.messages()),
{
    let ghost start = sponge@;
    proof {
        lemma_completeness::<F>(terms, mix, k, start);
    }
    let mut verifier = Verifier::new(oracle, sponge, proof);
    let (accepted, drawn) = verifier.run();
    proof {
        let rs = vals(drawn@);
        let value = oracle.value(rs.take(k as int), rs.skip(k as int));
        assert((2 * k as int) / 2 == k);
        lemma_honest_run::<F>(terms, mix, k, start, value, rs.len() as int, accepted);
    }
    (accepted, drawn)
}

/// Runs the protocol for one product and one point with the given sponge: the prover proves, and
/// the verifier checks with an oracle that knows all factors.
/// Returns whether the verifier accepts, the proof, and the challenges.
pub fn run_sumcheck_protocol_with_sponge<F: Absorb + MultilinearField>(
    f1: SparseMultilinearExtension<F>,
    f2: DenseMultilinearExtension<F>,
    f3: DenseMultilinearExtension<F>,
    g: &[F],
    sponge: PoseidonSponge<F>,
) -> (r: (bool, SumcheckProof<F>, Vec<F>))
    requires
        f2.num_vars > 0,
        Product(f1, f2, f3).shaped(f2.num_vars as nat),
        g@.len() == f2.num_vars,
        sponge@.wf(),
    ensures
        is_honest_run(
            seq![Product(f1, f2, f3)@],
            single_point(vals(g@)),
            f2.num_vars as nat,
            sponge@,
            r.0,
            r.1,
            vals(r.2@),
        ),
        r.1.claim is Some,
        r.1.claim->0.val() == cube_sum(
            seq![Product(f1, f2, f3)@],
            (Mix { g1: vals(g@), g2: vals(g@), alpha: 1, beta: 0 }),
            f2.num_vars as nat,
        ) % F::modulus(),
        r.1.values@.len() == 2 * f2.num_vars,
        (r.1.values@[0]@[0].val() + r.1.values@[0]@[1].val()) % F::modulus()
            == r.1.claim->0.val(),
        rounds_ok::<F>(r.1.claim->0.val(), r.1.messages(), sponge@, 2 * f2.num_vars as int),
{
    let ghost start = sponge@;
    let ghost terms = seq![Product(f1, f2, f3)@];
    let ghost k = f2.num_vars as nat;
    let ghost mix = single_point(vals(g@));
    let simple_sum = single_product(f1, f2, f3);
    let oracle = PolyOracle::new(simple_sum.clone(), copy_slice(g));
    proof {
        lemma_shapes(simple_sum);
    }
    let (one, zero) = (F::one(), F::zero());
    let mut prover = Prover::new(simple_sum, sponge.clone());
    let (proof, _) = prover.run(g, g, one, zero);
    let ghost messages = honest_messages::<F>(terms, mix, k, sponge@);
    proof {
        assert(mix_of(g@, g@, one, zero) == mix);
        assert(Seq::<Seq<int>>::empty() + messages =~= messages);
    }
    proof {
        let rs = challenges::<F>(sponge@, messages);
        lemma_single_point(terms, vals(g@), rs.take(k as int), rs.skip(k as int));
    }
    let (accepted, drawn) = check_honest_proof(
        oracle,
        sponge,
        proof.clone(),
        Ghost(terms),
        Ghost(mix),
        Ghost(k),
    );
    proof {
        lemma_returned_claim(terms, mix, k, start, accepted, proof, vals(drawn@));
    }
    (accepted, proof, drawn)
}

/// Runs the protocol for one product and a mixture of two points with the given sponge: the prover
/// proves, and the verifier checks with an oracle that takes the values of the second and third
/// factors at the challenges on trust.
/// Returns whether the verifier accepts, the proof, and the challenges.
pub fn run_sumcheck_protocol_combined_with_sponge<F: Absorb + MultilinearField>(
    f1: SparseMultilinearExtension<F>,
    f2: DenseMultilinearExtension<F>,
    f3: DenseMultilinearExtension<F>,
    g1: &[F],
    g2: &[F],
    alpha: F,
    beta: F,
    sponge: PoseidonSponge<F>,
) -> (r: (bool, SumcheckProof<F>, Vec<F>))
    requires
        f2.num_vars > 0,
        Product(f1, f2, f3).shaped(f2.num_vars as nat),
        g1@.len() == f2.num_vars,
        g2@.len() == f2.num_vars,
        sponge@.wf(),
    ensures
        is_honest_run(
            seq![Product(f1, f2, f3)@],
            mix_of(g1@, g2@, alpha, beta),
            f2.num_vars as nat,
            sponge@,
            r.0,
            r.1,
            vals(r.2@),
        ),
        r.1.claim is Some,
        r.1.claim->0.val() == cube_sum(
            seq![Product(f1, f2, f3)@],
            mix_of(g1@, g2@, alpha, beta),
            f2.num_vars as nat,
        ) % F::modulus(),
        r.1.values@.len() == 2 * f2.num_vars,
        (r.1.values@[0]@[0].val() + r.1.values@[0]@[1].val()) % F::modulus()
            == r.1.claim->0.val(),
        rounds_ok::<F>(r.1.claim->0.val(), r.1.messages(), sponge@, 2 * f2.num_vars as int),
{
    let ghost start = sponge@;
    let ghost terms = seq![Product(f1, f2, f3)@];
    let ghost k = f2.num_vars as nat;
    let ghost p = F::modulus();
    let ghost mix = mix_of(g1@, g2@, alpha, beta);
    let simple_sum = single_product(f1.clone(), f2.clone(), f3.clone());
    proof {
        assert(simple_sum@ =~= terms) by {
            assert(simple_sum@[0].f1 =~= f1@);
        }
        lemma_shapes(simple_sum);
        F::lemma_modulus();
    }
    let mut prover = Prover::new(simple_sum, sponge.clone());
    let (proof, random_challenges) = prover.run(g1, g2, alpha, beta);
    let ghost messages = honest_messages::<F>(terms, mix, k, sponge@);
    let ghost rs = vals(random_challenges@);
    proof {
        assert(Seq::<Seq<int>>::empty() + messages =~= messages);
        assert(rs.len() == random_challenges@.len());
        lemma_honest_messages_shape::<F>(terms, mix, k, sponge@);
    }
    let num_challenges = random_challenges.len();
    let b_star = vstd::slice::slice_subrange(random_challenges.as_slice(), 0, num_challenges / 2);
    let c_star = vstd::slice::slice_subrange(
        random_challenges.as_slice(),
        num_challenges / 2,
        num_challenges,
    );
    let w_u_i = f2.evaluate(b_star);
    let w_v_i = f3.evaluate(c_star);
    let gkr_prod = match (w_u_i, w_v_i) {
        (Some(w_u), Some(w_v)) => GKRVerifierProduct(f1, w_u, w_v),
        _ => {
            assert(false);
            GKRVerifierProduct(f1, F::zero(), F::zero())
        },
    };
    let mut gkr_terms: Vec<GKRVerifierProduct<F>> = Vec::new();
    gkr_terms.push(gkr_prod);
    let gkr_sum = GKRVerifierSumOfProducts { terms: gkr_terms };
    let ghost reduced = gkr_sum@;
    let oracle = GKROracle::new(gkr_sum, copy_slice(g1), copy_slice(g2), alpha, beta);
    proof {
        let (u, w) = (rs.take(k as int), rs.skip(k as int));
        assert(vals(b_star@) =~= u);
        assert(vals(c_star@) =~= w);
        lemma_cong_reduce(mle(f2@, u), p);
        lemma_cong_reduce(mle(f3@, w), p);
        lemma_reduced_is_combined(terms, reduced, mix, u, w, p);
    }
    let (accepted, drawn) = check_honest_proof(
        oracle,
        sponge,
        proof.clone(),
        Ghost(terms),
        Ghost(mix),
        Ghost(k),
    );
    proof {
        lemma_returned_claim(terms, mix, k, start, accepted, proof, vals(drawn@));
    }
    (accepted, proof, drawn)
}

/// Runs the protocol for a sum of products and a mixture of two points with the given sponge: the
/// prover proves, and the verifier checks with an oracle that knows all factors.
/// Returns whether the verifier accepts, the proof, and the challenges.
pub fn run_sumcheck_protocol_combined_multiprod_with_sponge<F: Absorb + MultilinearField>(
    sum_of_products: SumOfProducts<F>,
    g1: &[F],
    g2: &[F],
    alpha: F,
    beta: F,
    sponge: PoseidonSponge<F>,
) -> (r: (bool, SumcheckProof<F>, Vec<F>))
    requires
        sum_of_products.wf(),
        g1@.len() == sum_of_products.arity(),
        g2@.len() == sum_of_products.arity(),
        sponge@.wf(),
    ensures
        is_honest_run(
            sum_of_products@,
            mix_of(g1@, g2@, alpha, beta),
            sum_of_products.arity(),
            sponge@,
            r.0,
            r.1,
            vals(r.2@),
        ),
        r.1.claim is Some,
        r.1.claim->0.val() == cube_sum(
            sum_of_products@,
            mix_of(g1@, g2@, alpha, beta),
            sum_of_products.arity(),
        ) % F::modulus(),
        r.1.values@.len() == 2 * sum_of_products.arity(),
        (r.1.values@[0]@[0].val() + r.1.values@[0]@[1].val()) % F::modulus()
            == r.1.claim->0.val(),
        rounds_ok::<F>(
            r.1.claim->0.val(),
            r.1.messages(),
            sponge@,
            2 * sum_of_products.arity() as int,
        ),
{
    let ghost start = sponge@;
    let ghost terms = sum_of_products@;
    let ghost k = sum_of_products.arity();
    let ghost mix = mix_of(g1@, g2@, alpha, beta);
    proof {
        lemma_shapes(sum_of_products);
    }
    let mut prover = Prover::new(sum_of_products.clone(), sponge.clone());
    let (proof, _) = prover.run(g1, g2, alpha, beta);
    let ghost messages = honest_messages::<F>(terms, mix, k, sponge@);
    proof {
        assert(Seq::<Seq<int>>::empty() + messages =~= messages);
    }
    let oracle = CombinedPolyOracle::new(
        sum_of_products,
        copy_slice(g1),
        copy_slice(g2),
        alpha,
        beta,
    );
    let (accepted, drawn) = check_honest_proof(
        oracle,
        sponge,
        proof.clone(),
        Ghost(terms),
        Ghost(mix),
        Ghost(k),
    );
    proof {
        lemma_returned_claim(terms, mix, k, start, accepted, proof, vals(drawn@));
    }
    (accepted, proof, drawn)
}

/// Runs the protocol for one product and one point, and returns true iff the verifier does not
/// abort.
pub fn run_sumcheck_protocol<F: Absorb + MultilinearField + RandomField>(
    f1: SparseMultilinearExtension<F>,
    f2: DenseMultilinearExtension<F>,
    f3: DenseMultilinearExtension<F>,
    g: &[F],
) -> (accepted: bool)
    requires
        f2.num_vars > 0,
        Product(f1, f2, f3).shaped(f2.num_vars as nat),
        g@.len() == f2.num_vars,
    ensures
        accepted,
{
    run_sumcheck_protocol_with_sponge(f1, f2, f3, g, test_sponge()).0
}

/// Runs the protocol for one product and a mixture of two points, and returns true iff the verifier
/// does not abort.
pub fn run_sumcheck_protocol_combined<F: Absorb + MultilinearField + RandomField>(
    f1: SparseMultilinearExtension<F>,
    f2: DenseMultilinearExtension<F>,
    f3: DenseMultilinearExtension<F>,
    g1: &[F],
    g2: &[F],
    alpha: F,
    beta: F,
) -> (accepted: bool)
    requires
        f2.num_vars > 0,
        Product(f1, f2, f3).shaped(f2.num_vars as nat),
        g1@.len() == f2.num_vars,
        g2@.len() == f2.num_vars,
    ensures
        accepted,
{
    let sponge = test_sponge();
    run_sumcheck_protocol_combined_with_sponge(f1, f2, f3, g1, g2, alpha, beta, sponge).0
}

/// Runs the protocol for a sum of products and a mixture of two points, and returns true iff the
/// verifier does not abort.
pub fn run_sumcheck_protocol_combined_multiprod<F: Absorb + MultilinearField + RandomField>(
    sum_of_products: SumOfProducts<F>,
    g1: &[F],
    g2: &[F],
    alpha: F,
    beta: F,
) -> (accepted: bool)
    requires
        sum_of_products.wf(),
        g1@.len() == sum_of_products.arity(),
        g2@.len() == sum_of_products.arity(),
    ensures
        accepted,
{
    let sponge = test_sponge();
    run_sumcheck_protocol_combined_multiprod_with_sponge(
        sum_of_products,
        g1,
        g2,
        alpha,
        beta,
        sponge,
    ).0
}

} // verus!
