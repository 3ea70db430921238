//! The prover.

use vstd::arithmetic::power2::{lemma_pow2_adds, lemma_pow2_pos, pow2};
use vstd::prelude::*;

use crate::data_structures::{MultilinearField, SumOfProducts};
use crate::field::{
    cong, lemma_cong_add, lemma_cong_mul, lemma_cong_reduce, vals, vals2, PrimeField,
};
use crate::folding::{
    covers, fold_all, fold_step, folded, heads, lemma_fold_step_residues, lemma_folded, lemma_heads,
    live, live_each, reverses, round_values,
};
use crate::indices::{shifted_one, to_le_indices};
use crate::laws::corner;
use crate::meaning::lemma_claim_in_full;
use crate::multilinear::{bind_all, inner, mle};
use crate::protocol::{
    first_messages, honest_claim, honest_messages, phase_1_fs, phase_1_gs, phase_2_fs, phase_2_gs,
    scaled, second_messages, terms_shaped,
};
use crate::rounds::{
    all_of_size, bind_each, challenges, each_same_residues, lemma_challenges_concat,
    lemma_challenges_push, lemma_prover_messages_residues, lemma_round_poly_residues,
    lemma_total_residues, prover_messages, round_message, same_residues, sponge_after, total,
};
use crate::sponge::{Absorb, PoseidonSponge, SpongeState};
use crate::sums::{lemma_sum_eq, sum};
use crate::tables::{initialise_phase_1, initialise_phase_2, lemma_within_points, mix_of};
use crate::transcript::{SumcheckProof, Transcript};

verus! {

/// The prover.
pub struct Prover<F: PrimeField> {
    sum_of_products: SumOfProducts<F>,
    sponge: PoseidonSponge<F>,
    transcript: Transcript<F>,
}

/// The sum of the products of the used entries of all pairs of tables.
fn sum_of_table_products<F: PrimeField>(a_fs: &Vec<Vec<F>>, a_gs: &Vec<Vec<F>>, v: usize) -> (r: F)
    requires
        v < usize::BITS,
        a_fs@.len() == a_gs@.len(),
        covers(vals2(a_fs@), v as nat),
        covers(vals2(a_gs@), v as nat),
    ensures
        r.val() == total(heads(vals2(a_fs@), v as nat), heads(vals2(a_gs@), v as nat))
            % F::modulus(),
{
    let size = shifted_one(v);
    let ghost p = F::modulus();
    let ghost (fs, gs) = (heads(vals2(a_fs@), v as nat), heads(vals2(a_gs@), v as nat));
    let ghost row = |s: int| inner(fs[s], gs[s]);
    let mut acc = F::zero();
    proof {
        F::lemma_modulus();
        lemma_heads(vals2(a_fs@), v as nat);
        lemma_heads(vals2(a_gs@), v as nat);
        vstd::arithmetic::div_mod::lemma_small_mod(0, p as nat);
    }
    for s in 0..a_fs.len()
        invariant
            p == F::modulus(),
            p >= 3,
            0int % p == 0,
            size == pow2(v as nat),
            a_fs@.len() == a_gs@.len(),
            covers(vals2(a_fs@), v as nat),
            covers(vals2(a_gs@), v as nat),
            fs == heads(vals2(a_fs@), v as nat),
            gs == heads(vals2(a_gs@), v as nat),
            all_of_size(fs, v as nat),
            all_of_size(gs, v as nat),
            row == (|s: int| inner(fs[s], gs[s])),
            acc.val() == sum(s as nat, row) % p,
    {
        let ghost term = |j: int| fs[s as int][j] * gs[s as int][j];
        let mut part = F::zero();
        proof {
            assert(size <= vals2(a_fs@)[s as int].len() && size <= vals2(a_gs@)[s as int].len());
            assert(fs[s as int].len() == size && gs[s as int].len() == size);
        }
        for j in 0..size
            invariant
                p == F::modulus(),
                p >= 3,
                0 <= s < a_fs@.len(),
                a_fs@.len() == a_gs@.len(),
                size == pow2(v as nat),
                size <= a_fs@[s as int]@.len(),
                size <= a_gs@[s as int]@.len(),
                fs == heads(vals2(a_fs@), v as nat),
                gs == heads(vals2(a_gs@), v as nat),
                fs[s as int].len() == size,
                gs[s as int].len() == size,
                term == (|j: int| fs[s as int][j] * gs[s as int][j]),
                part.val() == sum(j as nat, term) % p,
        {
            let product = a_fs[s][j].mul(a_gs[s][j]);
            let ghost old_part = part.val();
            part = part.add(product);
            proof {
                lemma_cong_reduce(sum(j as nat, term), p);
                lemma_cong_reduce(term(j as int), p);
                lemma_cong_add(old_part, sum(j as nat, term), product.val(), term(j as int), p);
            }
        }
        let ghost old_acc = acc.val();
        acc = acc.add(part);
        proof {
            lemma_cong_reduce(sum(s as nat, row), p);
            lemma_cong_reduce(row(s as int), p);
            lemma_cong_add(old_acc, sum(s as nat, row), part.val(), row(s as int), p);
        }
    }
    acc
}

/// The live parts of tables that have been folded are the tables of the remaining variables.
proof fn lemma_live_is_bound<F: PrimeField>(
    tables: Seq<Seq<int>>,
    current: Seq<Seq<int>>,
    rs: Seq<int>,
    v: nat,
)
    requires
        rs.len() < v,
        all_of_size(tables, v),
        current.len() == tables.len(),
        forall|s: int|
            0 <= s < tables.len() ==> same_residues(
                #[trigger] current[s],
                folded(tables[s], rs),
                F::modulus(),
            ),
    ensures
        each_same_residues(
            live_each(current, v, rs.len() + 1),
            bind_each(tables, rs),
            F::modulus(),
        ),
        all_of_size(live_each(current, v, rs.len() + 1), (v - rs.len()) as nat),
{
    let i = rs.len() + 1;
    let p = F::modulus();
    let step = pow2((i - 1) as nat);
    let size = pow2((v - i + 1) as nat);
    lemma_pow2_adds((i - 1) as nat, (v - i + 1) as nat);
    lemma_pow2_pos((i - 1) as nat);
    assert forall|s: int| 0 <= s < tables.len() implies same_residues(
        #[trigger] live_each(current, v, i)[s],
        bind_each(tables, rs)[s],
        p,
    ) by {
        assert(tables[s].len() == pow2(v));
        lemma_folded(tables[s], rs, v);
        assert(same_residues(current[s], folded(tables[s], rs), p));
        let (x, y) = (live(current[s], v, i), bind_all(tables[s], rs));
        assert forall|j: int| 0 <= j < x.len() implies cong(#[trigger] x[j], y[j], p) by {
            assert(0 <= j * step < pow2(v)) by (nonlinear_arith)
                requires
                    0 <= j < size,
                    step > 0,
                    step * size == pow2(v),
            ;
            assert(cong(current[s][j * step], folded(tables[s], rs)[j * step], p));
        }
    }
}

impl<F: Absorb> Prover<F> {
    /// What the prover works on.
    pub closed spec fn statement(&self) -> SumOfProducts<F> {
        self.sum_of_products
    }

    /// The state of the sponge.
    pub closed spec fn sponge_state(&self) -> SpongeState {
        self.sponge@
    }

    /// The messages sent so far.
    pub closed spec fn messages(&self) -> Seq<Seq<int>> {
        self.transcript.proof.messages()
    }

    /// The value claimed so far.
    pub closed spec fn claim(&self) -> Option<int> {
        self.transcript.proof.claim_val()
    }

    /// A prover that has not sent anything.
    pub fn new(sum_of_products: SumOfProducts<F>, sponge: PoseidonSponge<F>) -> (r: Self)
        ensures
            r.statement() == sum_of_products,
            r.sponge_state() == sponge@,
            r.messages() == Seq::<Seq<int>>::empty(),
            r.claim() is None,
    {
        Prover { sum_of_products, sponge, transcript: Transcript::new() }
    }

    /// Sumcheck for the sum over all pairs of tables of the sums of the products of their first
    /// `2^v` entries: sends one message for each variable, and sets the variable to the challenge
    /// that comes back, in place. Odd entries, and those from `2^v` on, are left as they are.
    /// Returns the sum and the challenges.
    #[allow(non_snake_case)]
    pub fn sumcheck_prod(
        &mut self,
        A_fs: &mut Vec<Vec<F>>,
        A_gs: &mut Vec<Vec<F>>,
        v: usize,
    ) -> (r: (F, Vec<F>))
        requires
            0 < v < usize::BITS,
            old(self).sponge_state().wf(),
            old(A_fs)@.len() == old(A_gs)@.len(),
            covers(vals2(old(A_fs)@), v as nat),
            covers(vals2(old(A_gs)@), v as nat),
        ensures
            ({
                let n = v as nat;
                let (fs, gs) = (heads(vals2(old(A_fs)@), n), heads(vals2(old(A_gs)@), n));
                let sponge = old(self).sponge_state();
                let sent = prover_messages::<F>(fs, gs, sponge, n);
                let rs = challenges::<F>(sponge, sent);
                &&& r.0.val() == total(fs, gs) % F::modulus()
                &&& vals(r.1@) == rs
                &&& r.1@.len() == v
                &&& final(self).messages() == old(self).messages() + sent
                &&& final(self).sponge_state() == sponge_after::<F>(sponge, sent)
                &&& folded_in_place(old(A_fs)@, final(A_fs)@, rs, n)
                &&& folded_in_place(old(A_gs)@, final(A_gs)@, rs, n)
            }),
            r.0.val() == sum(
                old(A_fs)@.len(),
                |s: int|
                    sum(
                        pow2(v as nat),
                        |j: int| old(A_fs)@[s]@[j].val() * old(A_gs)@[s]@[j].val(),
                    ),
            ) % F::modulus(),
            final(self).messages().len() == old(self).messages().len() + v,
            final(self).sponge_state().wf(),
            final(self).statement() == old(self).statement(),
            final(self).claim() == old(self).claim(),
    {
        let claimed_value = sum_of_table_products(A_fs, A_gs, v);
        let le_indices = to_le_indices(v);
        let mut random_challenges: Vec<F> = Vec::new();
        let ghost n = v as nat;
        let ghost (first_f, first_g) = (A_fs@, A_gs@);
        let ghost (fs, gs) = (heads(vals2(A_fs@), n), heads(vals2(A_gs@), n));
        let ghost p = F::modulus();
        let ghost sponge = self.sponge@;
        let ghost earlier = self.transcript.proof.messages();
        proof {
            F::lemma_modulus();
            lemma_heads(vals2(A_fs@), n);
            lemma_heads(vals2(A_gs@), n);
            assert(earlier + prover_messages::<F>(fs, gs, sponge, 0) =~= earlier);
            assert(vals(random_challenges@) =~= challenges::<F>(
                sponge,
                prover_messages::<F>(fs, gs, sponge, 0),
            ));
        }
        for k in 0..v
            invariant
                0 < v < usize::BITS,
                n == v,
                p == F::modulus(),
                p >= 3,
                reverses(le_indices@, n),
                first_f == old(A_fs)@,
                first_g == old(A_gs)@,
                fs == heads(vals2(first_f), n),
                gs == heads(vals2(first_g), n),
                fs.len() == gs.len(),
                all_of_size(fs, n),
                all_of_size(gs, n),
                sponge.wf(),
                self.sponge@.wf(),
                covers(vals2(A_fs@), n),
                covers(vals2(A_gs@), n),
                rest_untouched(first_f, A_fs@, n),
                rest_untouched(first_g, A_gs@, n),
                self.sum_of_products == old(self).sum_of_products,
                self.transcript.proof.claim == old(self).transcript.proof.claim,
                self.transcript.proof.messages() == earlier + prover_messages::<F>(
                    fs,
                    gs,
                    sponge,
                    k as nat,
                ),
                self.sponge@ == sponge_after::<F>(
                    sponge,
                    prover_messages::<F>(fs, gs, sponge, k as nat),
                ),
                prover_messages::<F>(fs, gs, sponge, k as nat).len() == k,
                vals(random_challenges@) == challenges::<F>(
                    sponge,
                    prover_messages::<F>(fs, gs, sponge, k as nat),
                ),
                forall|s: int|
                    0 <= s < fs.len() ==> same_residues(
                        #[trigger] heads(vals2(A_fs@), n)[s],
                        folded(fs[s], vals(random_challenges@)),
                        p,
                    ),
                forall|s: int|
                    0 <= s < gs.len() ==> same_residues(
                        #[trigger] heads(vals2(A_gs@), n)[s],
                        folded(gs[s], vals(random_challenges@)),
                        p,
                    ),
        {
            let i = k + 1;
            let values = round_values(A_fs, A_gs, &le_indices, v, i);
            let ghost sent = prover_messages::<F>(fs, gs, sponge, k as nat);
            let ghost rs = vals(random_challenges@);
            let ghost message = vals(values@);
            let ghost (now_f, now_g) = (heads(vals2(A_fs@), n), heads(vals2(A_gs@), n));
            proof {
                lemma_heads(vals2(A_fs@), n);
                lemma_heads(vals2(A_gs@), n);
                lemma_live_is_bound::<F>(fs, now_f, rs, n);
                lemma_live_is_bound::<F>(gs, now_g, rs, n);
                let (lf, lg) = (live_each(now_f, n, i as nat), live_each(now_g, n, i as nat));
                let (bf, bg) = (bind_each(fs, rs), bind_each(gs, rs));
                let m = (n - k) as nat;
                lemma_round_poly_residues(lf, bf, lg, bg, 0, m, p);
                lemma_round_poly_residues(lf, bf, lg, bg, 1, m, p);
                lemma_round_poly_residues(lf, bf, lg, bg, 2, m, p);
                assert(message =~= round_message(bf, bg, p));
                lemma_challenges_push::<F>(sponge, sent, message);
                assert(earlier + sent.push(message) =~= (earlier + sent).push(message));
            }
            let r_i = self.transcript.update(values.as_slice(), &mut self.sponge);
            random_challenges.push(r_i);
            fold_all(A_fs, &le_indices, v, i, r_i);
            fold_all(A_gs, &le_indices, v, i, r_i);
            proof {
                let next = vals(random_challenges@);
                assert(next =~= rs.push(r_i.val()));
                assert(next.drop_last() =~= rs);
                lemma_heads(vals2(A_fs@), n);
                lemma_heads(vals2(A_gs@), n);
                let (after_f, after_g) = (heads(vals2(A_fs@), n), heads(vals2(A_gs@), n));
                assert forall|s: int| 0 <= s < fs.len() implies same_residues(
                    #[trigger] after_f[s],
                    folded(fs[s], next),
                    p,
                ) by {
                    assert(now_f[s].len() == pow2(n) && after_f[s].len() == pow2(n));
                    lemma_fold_residues(now_f[s], fs[s], after_f[s], rs, r_i.val(), n, p);
                }
                assert forall|s: int| 0 <= s < gs.len() implies same_residues(
                    #[trigger] after_g[s],
                    folded(gs[s], next),
                    p,
                ) by {
                    assert(now_g[s].len() == pow2(n) && after_g[s].len() == pow2(n));
                    lemma_fold_residues(now_g[s], gs[s], after_g[s], rs, r_i.val(), n, p);
                }
            }
        }
        proof {
            let rs = vals(random_challenges@);
            lemma_folded_in_place(first_f, A_fs@, rs, n);
            lemma_folded_in_place(first_g, A_gs@, rs, n);
            assert(rs.len() == random_challenges@.len());
            lemma_total_in_full(first_f, first_g, n);
        }
        (claimed_value, random_challenges)
    }
}

/// The total of the used entries of tables of field elements.
pub proof fn lemma_total_in_full<F: PrimeField>(a_fs: Seq<Vec<F>>, a_gs: Seq<Vec<F>>, v: nat)
    requires
        a_fs.len() == a_gs.len(),
        covers(vals2(a_fs), v),
        covers(vals2(a_gs), v),
    ensures
        total(heads(vals2(a_fs), v), heads(vals2(a_gs), v)) == sum(
            a_fs.len(),
            |s: int| sum(pow2(v), |j: int| a_fs[s]@[j].val() * a_gs[s]@[j].val()),
        ),
{
    let (fs, gs) = (heads(vals2(a_fs), v), heads(vals2(a_gs), v));
    let lhs = |s: int| inner(fs[s], gs[s]);
    let rhs = |s: int| sum(pow2(v), |j: int| a_fs[s]@[j].val() * a_gs[s]@[j].val());
    assert forall|s: int| 0 <= s < a_fs.len() implies #[trigger] lhs(s) == rhs(s) by {
        assert(pow2(v) <= vals2(a_fs)[s].len());
        assert(pow2(v) <= vals2(a_gs)[s].len());
        lemma_sum_eq(
            pow2(v),
            |j: int| fs[s][j] * gs[s][j],
            |j: int| a_fs[s]@[j].val() * a_gs[s]@[j].val(),
        );
    }
    lemma_sum_eq(a_fs.len(), lhs, rhs);
}

/// The tables have the shape that they had, and odd entries and those from `2^n` on are the same.
pub open spec fn rest_untouched<F: PrimeField>(
    before: Seq<Vec<F>>,
    after: Seq<Vec<F>>,
    n: nat,
) -> bool {
    &&& after.len() == before.len()
    &&& forall|s: int|
        0 <= s < before.len() ==> (#[trigger] after[s])@.len() == before[s]@.len()
    &&& forall|s: int, j: int|
        0 <= s < before.len() && 0 <= j < before[s]@.len() && (j >= pow2(n) || j % 2 == 1)
            ==> #[trigger] after[s]@[j] == before[s]@[j]
}

/// The used parts of the tables hold what setting one variable after the other to `rs` makes of
/// them, and the rest is untouched.
pub open spec fn folded_in_place<F: PrimeField>(
    before: Seq<Vec<F>>,
    after: Seq<Vec<F>>,
    rs: Seq<int>,
    n: nat,
) -> bool {
    &&& rest_untouched(before, after, n)
    &&& forall|s: int, j: int|
        0 <= s < before.len() && 0 <= j < pow2(n) ==> (#[trigger] after[s]@[j]).val() == folded(
            heads(vals2(before), n)[s],
            rs,
        )[j] % F::modulus()
}

/// Entries are reduced, so that their residues determine them.
proof fn lemma_folded_in_place<F: PrimeField>(
    before: Seq<Vec<F>>,
    after: Seq<Vec<F>>,
    rs: Seq<int>,
    n: nat,
)
    requires
        rest_untouched(before, after, n),
        covers(vals2(after), n),
        forall|s: int|
            0 <= s < before.len() ==> same_residues(
                #[trigger] heads(vals2(after), n)[s],
                folded(heads(vals2(before), n)[s], rs),
                F::modulus(),
            ),
    ensures
        folded_in_place(before, after, rs, n),
{
    let p = F::modulus();
    F::lemma_modulus();
    assert forall|s: int, j: int| 0 <= s < before.len() && 0 <= j < pow2(n) implies (
    #[trigger] after[s]@[j]).val() == folded(heads(vals2(before), n)[s], rs)[j] % p by {
        assert(pow2(n) <= vals2(after)[s].len());
        let (x, y) = (heads(vals2(after), n)[s], folded(heads(vals2(before), n)[s], rs));
        assert(same_residues(x, y, p));
        assert(x[j] == after[s]@[j].val());
        assert(cong(x[j], y[j], p));
        after[s]@[j].lemma_val();
        vstd::arithmetic::div_mod::lemma_small_mod(x[j] as nat, p as nat);
    }
}

/// Tables that hold the reduced entries of other tables.
proof fn lemma_reduced_tables(a: Seq<Seq<int>>, b: Seq<Seq<int>>, p: int)
    requires
        p > 0,
        a.len() == b.len(),
        forall|s: int| 0 <= s < a.len() ==> (#[trigger] a[s]).len() == b[s].len(),
        forall|s: int, j: int|
            0 <= s < a.len() && 0 <= j < a[s].len() ==> #[trigger] a[s][j] == b[s][j] % p,
    ensures
        each_same_residues(a, b, p),
{
    assert forall|s: int| 0 <= s < a.len() implies same_residues(#[trigger] a[s], b[s], p) by {
        assert forall|j: int| 0 <= j < a[s].len() implies cong(#[trigger] a[s][j], b[s][j], p) by {
            lemma_cong_reduce(b[s][j], p);
        }
    }
}

/// Multiplies all entries of a table.
fn scale_table<F: PrimeField>(table: &Vec<F>, c: F) -> (r: Vec<F>)
    ensures
        r@.len() == table@.len(),
        forall|j: int|
            0 <= j < r@.len() ==> (#[trigger] r@[j]).val() == (table@[j].val() * c.val())
                % F::modulus(),
{
    let mut r: Vec<F> = Vec::new();
    for j in 0..table.len()
        invariant
            r@.len() == j,
            forall|i: int|
                0 <= i < j ==> (#[trigger] r@[i]).val() == (table@[i].val() * c.val())
                    % F::modulus(),
    {
        r.push(table[j].mul(c));
    }
    r
}

/// Appends one vector to another.
fn concat<F: Copy>(a: Vec<F>, b: &Vec<F>) -> (r: Vec<F>)
    ensures
        r@ == a@ + b@,
{
    let mut r = a;
    for i in 0..b.len()
        invariant
            r@ == a@ + b@.take(i as int),
    {
        r.push(b[i]);
        assert(a@ + b@.take(i + 1) =~= (a@ + b@.take(i as int)).push(b@[i as int]));
    }
    assert(b@.take(b@.len() as int) =~= b@);
    r
}

impl<F: Absorb + MultilinearField> Prover<F> {
    /// Proves the value of the sum over `x` and `y` in the hypercube of
    /// `(alpha * f1(g1, x, y) + beta * f1(g2, x, y)) * f2(x) * f3(y)`, added up over all products:
    /// first sumcheck over `x`, with the challenges `u`, then over `y`.
    /// Returns the proof and all challenges.
    #[allow(non_snake_case)]
    pub fn run(&mut self, g1: &[F], g2: &[F], alpha: F, beta: F) -> (r: (SumcheckProof<F>, Vec<F>))
        requires
            old(self).statement().wf(),
            old(self).sponge_state().wf(),
            g1@.len() == old(self).statement().arity(),
            g2@.len() == old(self).statement().arity(),
        ensures
            ({
                let terms = old(self).statement()@;
                let k = old(self).statement().arity();
                let mix = mix_of(g1@, g2@, alpha, beta);
                let sponge = old(self).sponge_state();
                let sent = honest_messages::<F>(terms, mix, k, sponge);
                &&& r.0.messages() == old(self).messages() + sent
                &&& r.0.claim_val() == Some(honest_claim(terms, mix, k, F::modulus()))
                &&& r.0.claim is Some
                &&& r.0.claim->0.val() == sum(
                    pow2(g1@.len()),
                    |x: int|
                        sum(
                            pow2(g1@.len()),
                            |y: int|
                                sum(
                                    old(self).statement().terms@.len(),
                                    |s: int|
                                        (alpha.val() * mle(
                                            old(self).statement().terms@[s].0@,
                                            vals(g1@) + corner(x, g1@.len()) + corner(
                                                y,
                                                g1@.len(),
                                            ),
                                        ) + beta.val() * mle(
                                            old(self).statement().terms@[s].0@,
                                            vals(g2@) + corner(x, g1@.len()) + corner(
                                                y,
                                                g1@.len(),
                                            ),
                                        )) * mle(
                                            old(self).statement().terms@[s].1@,
                                            corner(x, g1@.len()),
                                        ) * mle(
                                            old(self).statement().terms@[s].2@,
                                            corner(y, g1@.len()),
                                        ),
                                ),
                        ),
                ) % F::modulus()
                &&& r.1@.len() == 2 * g1@.len()
                &&& vals(r.1@) == challenges::<F>(sponge, sent)
                &&& final(self).sponge_state() == sponge_after::<F>(sponge, sent)
            }),
            final(self).messages() == r.0.messages(),
            final(self).claim() == r.0.claim_val(),
            final(self).statement() == old(self).statement(),
            final(self).sponge_state().wf(),
    {
        let ghost p = F::modulus();
        let ghost statement = self.sum_of_products;
        let ghost terms = statement@;
        let ghost n = statement.arity();
        let ghost mix = mix_of(g1@, g2@, alpha, beta);
        let ghost sponge = self.sponge@;
        let count = self.sum_of_products.terms.len();
        assert(statement.terms@[0].shaped(n));
        let k = self.sum_of_products.terms[0].1.num_vars();
        proof {
            F::lemma_modulus();
        }

        // phase 1
        let mut A_hs: Vec<Vec<F>> = Vec::new();
        let mut A_f2s: Vec<Vec<F>> = Vec::new();
        for s in 0..count
            invariant
                self.sum_of_products == statement,
                self.sponge == old(self).sponge,
                self.transcript == old(self).transcript,
                statement.wf(),
                terms == statement@,
                n == statement.arity(),
                count == terms.len(),
                g1@.len() == n,
                g2@.len() == n,
                mix == mix_of(g1@, g2@, alpha, beta),
                p == F::modulus(),
                A_hs@.len() == s,
                A_f2s@.len() == s,
                forall|t: int| 0 <= t < s ==> (#[trigger] A_hs@[t])@.len() == pow2(n),
                forall|t: int, j: int|
                    0 <= t < s && 0 <= j < pow2(n) ==> (#[trigger] A_hs@[t]@[j]).val()
                        == phase_1_fs(terms, mix, n)[t][j] % p,
                forall|t: int| 0 <= t < s ==> vals((#[trigger] A_f2s@[t])@) == terms[t].f2,
        {
            let term = &self.sum_of_products.terms[s];
            assert(statement.terms@[s as int].shaped(n));
            assert(terms[s as int] == statement.terms@[s as int]@);
            proof {
                lemma_within_points(&term.0, g1@, g2@);
            }
            A_hs.push(initialise_phase_1(&term.0, &term.2, g1, g2, alpha, beta));
            A_f2s.push(term.1.to_evaluations());
        }
        let ghost (fs, gs) = (phase_1_fs(terms, mix, n), phase_1_gs(terms));
        proof {
            lemma_shapes(statement);
            assert forall|t: int| 0 <= t < count implies (#[trigger] vals2(A_hs@)[t]).len()
                == pow2(n) by {
                assert(A_hs@[t]@.len() == pow2(n));
            }
            assert(vals2(A_f2s@) =~= gs) by {
                assert forall|t: int| 0 <= t < count implies #[trigger] vals2(A_f2s@)[t]
                    == gs[t] by {
                    assert(vals(A_f2s@[t]@) == terms[t].f2);
                }
            }
            assert forall|t: int, j: int|
                0 <= t < count && 0 <= j < vals2(A_hs@)[t].len() implies #[trigger] vals2(
                A_hs@,
            )[t][j] == fs[t][j] % p by {
                assert(A_hs@[t]@[j].val() == fs[t][j] % p);
            }
            lemma_reduced_tables(vals2(A_hs@), fs, p);
            lemma_reflexive(gs, p);
            lemma_prover_messages_residues::<F>(vals2(A_hs@), fs, gs, gs, sponge, n, n);
            lemma_total_residues(vals2(A_hs@), fs, gs, gs, n, p);
        }
        proof {
            lemma_heads(vals2(A_hs@), n);
            lemma_heads(vals2(A_f2s@), n);
        }
        let (out, u) = self.sumcheck_prod(&mut A_hs, &mut A_f2s, k);

        // the claim comes from the first phase: the second sums over another table, with `x` fixed
        self.transcript.set_claim(out);

        let ghost first = first_messages::<F>(terms, mix, n, sponge);
        let ghost point = challenges::<F>(sponge, first);
        let ghost sponge_2 = sponge_after::<F>(sponge, first);
        assert(vals(u@) == point);
        assert(u@.len() == n) by {
            assert(vals(u@).len() == u@.len());
        }

        // phase 2
        let mut A_f1s: Vec<Vec<F>> = Vec::new();
        let mut A_f3_f2_us: Vec<Vec<F>> = Vec::new();
        let ghost (fs_2, gs_2) = (phase_2_fs(terms, mix, point, n), phase_2_gs(terms, point));
        let ghost middle = *self;
        for s in 0..count
            invariant
                *self == middle,
                self.sum_of_products == statement,
                statement.wf(),
                terms == statement@,
                n == statement.arity(),
                count == terms.len(),
                g1@.len() == n,
                g2@.len() == n,
                u@.len() == n,
                vals(u@) == point,
                mix == mix_of(g1@, g2@, alpha, beta),
                p == F::modulus(),
                p >= 3,
                fs_2 == phase_2_fs(terms, mix, point, n),
                gs_2 == phase_2_gs(terms, point),
                A_f1s@.len() == s,
                A_f3_f2_us@.len() == s,
                forall|t: int| 0 <= t < s ==> (#[trigger] A_f1s@[t])@.len() == pow2(n),
                forall|t: int| 0 <= t < s ==> (#[trigger] A_f3_f2_us@[t])@.len() == pow2(n),
                forall|t: int, j: int|
                    0 <= t < s && 0 <= j < pow2(n) ==> (#[trigger] A_f1s@[t]@[j]).val()
                        == fs_2[t][j] % p,
                forall|t: int, j: int|
                    0 <= t < s && 0 <= j < pow2(n) ==> (#[trigger] A_f3_f2_us@[t]@[j]).val()
                        == gs_2[t][j] % p,
        {
            let term = &self.sum_of_products.terms[s];
            assert(statement.terms@[s as int].shaped(n));
            assert(terms[s as int] == statement.terms@[s as int]@);
            let f2_u = match term.1.evaluate(u.as_slice()) {
                Some(value) => value,
                None => {
                    assert(false);
                    F::zero()
                },
            };
            let A_f3 = term.2.to_evaluations();
            proof {
                lemma_within_points(&term.0, g1@, g2@);
            }
            A_f1s.push(initialise_phase_2(&term.0, g1, g2, u.as_slice(), alpha, beta));
            let scaled_table = scale_table(&A_f3, f2_u);
            proof {
                let value = mle(terms[s as int].f2, point);
                let f3 = terms[s as int].f3;
                assert forall|j: int| 0 <= j < pow2(n) implies (#[trigger] scaled_table@[j]).val()
                    == gs_2[s as int][j] % p by {
                    lemma_cong_reduce(value, p);
                    lemma_cong_mul(f3[j], f3[j], value % p, value, p);
                    assert(scaled(f3, value)[j] == f3[j] * value);
                }
            }
            A_f3_f2_us.push(scaled_table);
        }
        proof {
            let (ef, eg) = (vals2(A_f1s@), vals2(A_f3_f2_us@));
            assert forall|t: int| 0 <= t < count implies (#[trigger] ef[t]).len() == pow2(n) by {
                assert(A_f1s@[t]@.len() == pow2(n));
            }
            assert forall|t: int| 0 <= t < count implies (#[trigger] eg[t]).len() == pow2(n) by {
                assert(A_f3_f2_us@[t]@.len() == pow2(n));
            }
            assert forall|t: int| 0 <= t < count implies (#[trigger] gs_2[t]).len() == pow2(n) by {
                assert(terms[t].shaped(n));
            }
            assert forall|t: int, j: int| 0 <= t < count && 0 <= j < ef[t].len() implies
                #[trigger] ef[t][j] == fs_2[t][j] % p by {
                assert(A_f1s@[t]@[j].val() == fs_2[t][j] % p);
            }
            assert forall|t: int, j: int| 0 <= t < count && 0 <= j < eg[t].len() implies
                #[trigger] eg[t][j] == gs_2[t][j] % p by {
                assert(A_f3_f2_us@[t]@[j].val() == gs_2[t][j] % p);
            }
            lemma_reduced_tables(ef, fs_2, p);
            lemma_reduced_tables(eg, gs_2, p);
            lemma_prover_messages_residues::<F>(ef, fs_2, eg, gs_2, sponge_2, n, n);
        }
        proof {
            lemma_heads(vals2(A_f1s@), n);
            lemma_heads(vals2(A_f3_f2_us@), n);
        }
        let (_, v) = self.sumcheck_prod(&mut A_f1s, &mut A_f3_f2_us, k);
        let ghost second = second_messages::<F>(terms, mix, n, point, sponge_2);
        proof {
            lemma_challenges_concat::<F>(sponge, first, second);
            let earlier = old(self).messages();
            assert(earlier + first + second =~= earlier + (first + second));
            assert(vals(u@ + v@) =~= vals(u@) + vals(v@));
            lemma_claim_in_full(statement, g1@, g2@, alpha, beta);
            assert(vals(v@).len() == v@.len());
        }
        (self.transcript.proof.clone(), concat(u, &v))
    }
}

/// Tables have the residues that they have.
proof fn lemma_reflexive(tables: Seq<Seq<int>>, p: int)
    ensures
        each_same_residues(tables, tables, p),
{
}

/// The tables of a sum of products have the sizes that its shape gives them.
pub proof fn lemma_shapes<F: PrimeField>(statement: SumOfProducts<F>)
    requires
        statement.wf(),
    ensures
        terms_shaped(statement@, statement.arity()),
        all_of_size(phase_1_gs(statement@), statement.arity()),
{
    let n = statement.arity();
    assert forall|s: int| 0 <= s < statement@.len() implies (#[trigger] statement@[s]).shaped(n) by {
        assert(statement.terms@[s].shaped(n));
    }
    assert forall|s: int| 0 <= s < statement@.len() implies (#[trigger] phase_1_gs(
        statement@,
    )[s]).len() == pow2(n) by {
        assert(statement@[s].shaped(n));
    }
}

/// One more fold of a table that stands for a folded one.
proof fn lemma_fold_residues(
    current: Seq<int>,
    table: Seq<int>,
    next: Seq<int>,
    rs: Seq<int>,
    r: int,
    v: nat,
    p: int,
)
    requires
        p > 0,
        rs.len() < v,
        current.len() == pow2(v),
        next.len() == pow2(v),
        same_residues(current, folded(table, rs), p),
        forall|j: int|
            0 <= j < next.len() ==> #[trigger] next[j] == fold_step(current, rs.len() + 1, r)[j]
                % p,
    ensures
        same_residues(next, folded(table, rs.push(r)), p),
{
    assert(rs.push(r).drop_last() =~= rs);
    lemma_fold_step_residues(current, folded(table, rs), rs.len() + 1, r, v, p);
    let stepped = fold_step(current, rs.len() + 1, r);
    let target = folded(table, rs.push(r));
    assert forall|j: int| 0 <= j < next.len() implies cong(#[trigger] next[j], target[j], p) by {
        lemma_cong_reduce(stepped[j], p);
        assert(cong(stepped[j], target[j], p));
    }
}

} // verus!
