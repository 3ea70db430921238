//! What the operations of the protocol come to: the prover's claim and messages as sums over the
//! hypercube, the challenges as output of the sponge, and the oracles' values as values of the
//! summed polynomial.

use vstd::arithmetic::power2::{lemma2_to64, lemma_pow2_pos, lemma_pow2_unfold, pow2};
use vstd::prelude::*;

use crate::completeness::{
    lemma_completeness, lemma_final_value, lemma_phases_meet, lemma_table_sizes,
};
use crate::data_structures::{MultilinearField, SumOfProducts, Term};
use crate::field::{cong, lemma_cong_reduce, vals, vals2, PrimeField};
use crate::interpolation::{interpolate, lemma_interpolate_constant};
use crate::laws::{
    corner, lemma_claim_is_cube_sum, lemma_honest_run, lemma_mixture, lemma_reduced_is_combined,
};
use crate::multilinear::{mle, weight};
use crate::oracles::{
    combined_value, mixed_value, simple_value, CombinedPolyOracle, GKROracle, Oracle, PolyOracle,
};
use crate::parties::is_honest_run;
use crate::protocol::{
    first_messages, honest_claim, honest_messages, phase_1_fs, phase_1_gs, phase_2_fs, phase_2_gs,
    second_messages, terms_shaped,
};
use crate::proving::lemma_shapes;
use crate::rounds::{
    bind_each, challenges, lemma_bind_each_size, lemma_challenges_concat, lemma_challenges_push,
    lemma_prover_messages, lemma_round_poly_is_next_total, lemma_total_is_round_sum, round_message,
    round_poly, sponge_after, total,
};
use crate::sponge::{Absorb, SpongeState};
use crate::sums::{lemma_sum_add, lemma_sum_eq, lemma_sum_pairs, lemma_sum_scale, sum};
use crate::tables::mix_of;
use crate::transcript::SumcheckProof;
use crate::verifying::Verifier;
use crate::wiring::Mix;

verus! {

/// Coordinate `j` of a corner is bit `j` of its index.
pub proof fn lemma_corner_bits(x: int, k: nat, j: int)
    requires
        0 <= x,
        0 <= j < k,
    ensures
        corner(x, k).len() == k,
        corner(x, k)[j] == (x / (pow2(j as nat) as int)) % 2,
    decreases k,
{
    lemma2_to64();
    let m = (k - 1) as nat;
    lemma_corner_len(x / 2, m);
    if j > 0 {
        lemma_corner_bits(x / 2, m, j - 1);
        lemma_pow2_unfold(j as nat);
        lemma_pow2_pos((j - 1) as nat);
        let h = pow2((j - 1) as nat) as int;
        vstd::arithmetic::div_mod::lemma_div_denominator(x, 2, h);
        assert((x / 2) / h == x / (2 * h));
        assert(pow2(j as nat) as int == 2 * h);
        assert(corner(x, k)[j] == corner(x / 2, m)[j - 1]);
    } else {
        assert(pow2(0) == 1);
        assert(x / 1 == x);
        assert(corner(x, k)[0] == x % 2);
    }
}

/// The dimension of a corner.
pub proof fn lemma_corner_len(x: int, k: nat)
    ensures
        corner(x, k).len() == k,
    decreases k,
{
    if k > 0 {
        lemma_corner_len(x / 2, (k - 1) as nat);
    }
}

/// The weight of an index is affine in each coordinate of the point.
proof fn lemma_weight_affine(i: int, point: Seq<int>, j: int, r: int)
    requires
        0 <= j < point.len(),
    ensures
        weight(i, point.update(j, r)) == (1 - r) * weight(i, point.update(j, 0)) + r * weight(
            i,
            point.update(j, 1),
        ),
    decreases point.len(),
{
    let rest = point.drop_first();
    if j == 0 {
        assert(point.update(0, r).drop_first() =~= rest);
        assert(point.update(0, 0).drop_first() =~= rest);
        assert(point.update(0, 1).drop_first() =~= rest);
        let w = weight(i / 2, rest);
        assert(r * w == (1 - r) * (0 * w) + r * (1 * w)) by (nonlinear_arith);
        assert((1 - r) * w == (1 - r) * (1 * w) + r * (0 * w)) by (nonlinear_arith);
    } else {
        assert(point.update(j, r).drop_first() =~= rest.update(j - 1, r));
        assert(point.update(j, 0).drop_first() =~= rest.update(j - 1, 0));
        assert(point.update(j, 1).drop_first() =~= rest.update(j - 1, 1));
        lemma_weight_affine(i / 2, rest, j - 1, r);
        let c = if i % 2 == 1 {
            point[0]
        } else {
            1 - point[0]
        };
        let (w0, w1) = (
            weight(i / 2, rest.update(j - 1, 0)),
            weight(i / 2, rest.update(j - 1, 1)),
        );
        assert(c * ((1 - r) * w0 + r * w1) == (1 - r) * (c * w0) + r * (c * w1))
            by (nonlinear_arith);
    }
}

/// The extension of a table is affine in each coordinate of the point. With its values at the
/// corners this determines it.
pub proof fn lemma_mle_affine(table: Seq<int>, point: Seq<int>, j: int, r: int)
    requires
        0 <= j < point.len(),
    ensures
        mle(table, point.update(j, r)) == (1 - r) * mle(table, point.update(j, 0)) + r * mle(
            table,
            point.update(j, 1),
        ),
{
    let n = pow2(point.len());
    let at_r = |i: int| table[i] * weight(i, point.update(j, r));
    let at_0 = |i: int| table[i] * weight(i, point.update(j, 0));
    let at_1 = |i: int| table[i] * weight(i, point.update(j, 1));
    let part_0 = |i: int| (1 - r) * at_0(i);
    let part_1 = |i: int| r * at_1(i);
    assert forall|i: int| 0 <= i < n implies #[trigger] at_r(i) == part_0(i) + part_1(i) by {
        lemma_weight_affine(i, point, j, r);
        let (a, w0, w1) = (
            table[i],
            weight(i, point.update(j, 0)),
            weight(i, point.update(j, 1)),
        );
        assert(a * ((1 - r) * w0 + r * w1) == (1 - r) * (a * w0) + r * (a * w1))
            by (nonlinear_arith);
    }
    lemma_sum_scale(n, 1 - r, at_0, part_0);
    lemma_sum_scale(n, r, at_1, part_1);
    lemma_sum_add(n, part_0, part_1, at_r);
}

/// What a sum of products and two points stand for: the sum over all products of
/// `(alpha * f1(g1, x, y) + beta * f1(g2, x, y)) * f2(x) * f3(y)`, in the representatives of the
/// given elements.
pub proof fn lemma_combined_in_full<F: PrimeField>(
    statement: SumOfProducts<F>,
    g1: Seq<F>,
    g2: Seq<F>,
    alpha: F,
    beta: F,
    x: Seq<int>,
    y: Seq<int>,
)
    ensures
        combined_value(statement@, mix_of(g1, g2, alpha, beta), x, y) == sum(
            statement.terms@.len(),
            |s: int|
                (alpha.val() * mle(statement.terms@[s].0@, vals(g1) + x + y) + beta.val() * mle(
                    statement.terms@[s].0@,
                    vals(g2) + x + y,
                )) * mle(statement.terms@[s].1@, x) * mle(statement.terms@[s].2@, y),
        ),
{
    let (terms, mix) = (statement@, mix_of(g1, g2, alpha, beta));
    lemma_sum_eq(
        terms.len(),
        |s: int| mixed_value(terms[s].f1, mix, x, y) * mle(terms[s].f2, x) * mle(terms[s].f3, y),
        |s: int|
            (alpha.val() * mle(statement.terms@[s].0@, vals(g1) + x + y) + beta.val() * mle(
                statement.terms@[s].0@,
                vals(g2) + x + y,
            )) * mle(statement.terms@[s].1@, x) * mle(statement.terms@[s].2@, y),
    );
}

/// What is left of the sum over the hypercube of dimension `2 * k` when the first variables are set
/// to `q`.
pub open spec fn rest_sum(terms: Seq<Term>, mix: Mix, k: nat, q: Seq<int>) -> int {
    sum(
        pow2((2 * k - q.len()) as nat),
        |b: int|
            combined_value(
                terms,
                mix,
                (q + corner(b, (2 * k - q.len()) as nat)).take(k as int),
                (q + corner(b, (2 * k - q.len()) as nat)).skip(k as int),
            ),
    )
}

/// Setting one more variable to zero and to one splits what is left.
proof fn lemma_rest_sum_splits(terms: Seq<Term>, mix: Mix, k: nat, q: Seq<int>)
    requires
        q.len() < 2 * k,
    ensures
        rest_sum(terms, mix, k, q) == rest_sum(terms, mix, k, q.push(0)) + rest_sum(
            terms,
            mix,
            k,
            q.push(1),
        ),
{
    let m = (2 * k - q.len()) as nat;
    let h = (m - 1) as nat;
    lemma_pow2_unfold(m);
    let f = |b: int|
        combined_value(
            terms,
            mix,
            (q + corner(b, m)).take(k as int),
            (q + corner(b, m)).skip(k as int),
        );
    let f0 = |b: int|
        combined_value(
            terms,
            mix,
            (q.push(0) + corner(b, h)).take(k as int),
            (q.push(0) + corner(b, h)).skip(k as int),
        );
    let f1 = |b: int|
        combined_value(
            terms,
            mix,
            (q.push(1) + corner(b, h)).take(k as int),
            (q.push(1) + corner(b, h)).skip(k as int),
        );
    lemma_sum_pairs(pow2(h), f);
    let pairs = |b: int| f(2 * b) + f(2 * b + 1);
    assert forall|b: int| 0 <= b < pow2(h) implies #[trigger] pairs(b) == f0(b) + f1(b) by {
        assert((2 * b) % 2 == 0 && (2 * b) / 2 == b);
        assert((2 * b + 1) % 2 == 1 && (2 * b + 1) / 2 == b);
        assert(q + corner(2 * b, m) =~= q.push(0) + corner(b, h));
        assert(q + corner(2 * b + 1, m) =~= q.push(1) + corner(b, h));
    }
    lemma_sum_add(pow2(h), f0, f1, pairs);
}

/// The total of the tables that the prover holds when the first variables are set to `q`.
spec fn table_total(terms: Seq<Term>, mix: Mix, k: nat, q: Seq<int>) -> int {
    let u = q.take(k as int);
    if q.len() < k {
        total(bind_each(phase_1_fs(terms, mix, k), q), bind_each(phase_1_gs(terms), q))
    } else {
        total(
            bind_each(phase_2_fs(terms, mix, u, k), q.skip(k as int)),
            bind_each(phase_2_gs(terms, u), q.skip(k as int)),
        )
    }
}

/// The polynomial that the prover sends when the first variables are set to `q`.
spec fn table_poly(terms: Seq<Term>, mix: Mix, k: nat, q: Seq<int>, t: int) -> int {
    let u = q.take(k as int);
    if q.len() < k {
        round_poly(bind_each(phase_1_fs(terms, mix, k), q), bind_each(phase_1_gs(terms), q), t)
    } else {
        round_poly(
            bind_each(phase_2_fs(terms, mix, u, k), q.skip(k as int)),
            bind_each(phase_2_gs(terms, u), q.skip(k as int)),
            t,
        )
    }
}

/// The polynomial of a round at `t` is the total after the variable is set to `t`.
proof fn lemma_table_poly(terms: Seq<Term>, mix: Mix, k: nat, q: Seq<int>, t: int)
    requires
        k > 0,
        q.len() < 2 * k,
        terms_shaped(terms, k),
    ensures
        table_poly(terms, mix, k, q, t) == table_total(terms, mix, k, q.push(t)),
        table_total(terms, mix, k, q) == table_poly(terms, mix, k, q, 0) + table_poly(
            terms,
            mix,
            k,
            q,
            1,
        ),
{
    let u = q.take(k as int);
    let next = q.push(t);
    if q.len() < k {
        let (fs, gs) = (phase_1_fs(terms, mix, k), phase_1_gs(terms));
        lemma_table_sizes(terms, mix, k, u);
        let m = (k - q.len()) as nat;
        assert(q.len() + m == k);
        lemma_bind_each_size(fs, q, m);
        lemma_bind_each_size(gs, q, m);
        lemma_total_is_round_sum(bind_each(fs, q), bind_each(gs, q), m);
        lemma_round_poly_is_next_total(fs, gs, q, t);
        if q.len() + 1 == k {
            assert(next.take(k as int) =~= next);
            lemma_phases_meet(terms, mix, k, next);
            let (fs_2, gs_2) = (phase_2_fs(terms, mix, next, k), phase_2_gs(terms, next));
            assert(next.skip(k as int).len() == 0);
            assert(bind_each(fs_2, next.skip(k as int)) =~= fs_2);
            assert(bind_each(gs_2, next.skip(k as int)) =~= gs_2);
        }
    } else {
        let (fs, gs) = (phase_2_fs(terms, mix, u, k), phase_2_gs(terms, u));
        lemma_table_sizes(terms, mix, k, u);
        let w = q.skip(k as int);
        let m = (2 * k - q.len()) as nat;
        assert(w.len() + m == k);
        lemma_bind_each_size(fs, w, m);
        lemma_bind_each_size(gs, w, m);
        lemma_total_is_round_sum(bind_each(fs, w), bind_each(gs, w), m);
        lemma_round_poly_is_next_total(fs, gs, w, t);
        assert(next.take(k as int) =~= u);
        assert(next.skip(k as int) =~= w.push(t));
    }
}

/// The total of the prover's tables is what is left of the sum.
proof fn lemma_table_total(terms: Seq<Term>, mix: Mix, k: nat, q: Seq<int>)
    requires
        k > 0,
        q.len() <= 2 * k,
        terms_shaped(terms, k),
        mix.g1.len() == k,
        mix.g2.len() == k,
    ensures
        table_total(terms, mix, k, q) == rest_sum(terms, mix, k, q),
    decreases 2 * k - q.len(),
{
    if q.len() == 2 * k {
        lemma2_to64();
        let (u, w) = (q.take(k as int), q.skip(k as int));
        lemma_final_value(terms, mix, k, u, w);
        let f = |b: int|
            combined_value(
                terms,
                mix,
                (q + corner(b, 0)).take(k as int),
                (q + corner(b, 0)).skip(k as int),
            );
        reveal_with_fuel(sum, 2);
        assert(q + corner(0, 0) =~= q);
        assert(sum(1, f) == f(0));
    } else {
        lemma_table_poly(terms, mix, k, q, 0);
        lemma_table_poly(terms, mix, k, q, 1);
        lemma_table_total(terms, mix, k, q.push(0));
        lemma_table_total(terms, mix, k, q.push(1));
        lemma_rest_sum_splits(terms, mix, k, q);
    }
}

/// The message of round `i` of an honest prover: its three values are, at `t` equal to 0, 1 and 2,
/// the sums over all corners `b` of the remaining dimensions of the summed polynomial at the
/// challenges so far, `t`, and `b`.
pub proof fn lemma_honest_message<F: Absorb>(
    terms: Seq<Term>,
    mix: Mix,
    k: nat,
    sponge: SpongeState,
    i: int,
)
    requires
        k > 0,
        0 <= i < 2 * k,
        terms_shaped(terms, k),
        mix.g1.len() == k,
        mix.g2.len() == k,
    ensures
        ({
            let messages = honest_messages::<F>(terms, mix, k, sponge);
            let before = challenges::<F>(sponge, messages).take(i);
            let m = (2 * k - i - 1) as nat;
            &&& messages.len() == 2 * k
            &&& messages[i].len() == 3
            &&& forall|t: int|
                0 <= t < 3 ==> #[trigger] messages[i][t] == sum(
                    pow2(m),
                    |b: int|
                        combined_value(
                            terms,
                            mix,
                            (before.push(t) + corner(b, m)).take(k as int),
                            (before.push(t) + corner(b, m)).skip(k as int),
                        ),
                ) % F::modulus()
        }),
{
    let messages = honest_messages::<F>(terms, mix, k, sponge);
    let rs = challenges::<F>(sponge, messages);
    let before = rs.take(i);
    let m = (2 * k - i - 1) as nat;
    lemma_message_of_tables::<F>(terms, mix, k, sponge, i);
    assert forall|t: int| 0 <= t < 3 implies #[trigger] messages[i][t] == sum(
        pow2(m),
        |b: int|
            combined_value(
                terms,
                mix,
                (before.push(t) + corner(b, m)).take(k as int),
                (before.push(t) + corner(b, m)).skip(k as int),
            ),
    ) % F::modulus() by {
        lemma_table_poly(terms, mix, k, before, t);
        lemma_table_total(terms, mix, k, before.push(t));
        assert(messages[i][t] == table_poly(terms, mix, k, before, t) % F::modulus());
        assert((2 * k - before.push(t).len()) as nat == m);
    }
}

/// The message of round `i` is made from the tables of the round.
proof fn lemma_message_of_tables<F: Absorb>(
    terms: Seq<Term>,
    mix: Mix,
    k: nat,
    sponge: SpongeState,
    i: int,
)
    requires
        k > 0,
        0 <= i < 2 * k,
        terms_shaped(terms, k),
    ensures
        ({
            let messages = honest_messages::<F>(terms, mix, k, sponge);
            let before = challenges::<F>(sponge, messages).take(i);
            let p = F::modulus();
            &&& messages.len() == 2 * k
            &&& before.len() == i
            &&& messages[i] == seq![
                table_poly(terms, mix, k, before, 0) % p,
                table_poly(terms, mix, k, before, 1) % p,
                table_poly(terms, mix, k, before, 2) % p,
            ]
        }),
{
    let messages = honest_messages::<F>(terms, mix, k, sponge);
    let rs = challenges::<F>(sponge, messages);
    let first = first_messages::<F>(terms, mix, k, sponge);
    let u = challenges::<F>(sponge, first);
    let middle = sponge_after::<F>(sponge, first);
    let second = second_messages::<F>(terms, mix, k, u, middle);
    let w = challenges::<F>(middle, second);
    let p = F::modulus();
    assert(first.len() == k && second.len() == k) by {
        lemma_prover_messages::<F>(phase_1_fs(terms, mix, k), phase_1_gs(terms), sponge, k, 0);
        lemma_prover_messages::<F>(
            phase_2_fs(terms, mix, u, k),
            phase_2_gs(terms, u),
            middle,
            k,
            0,
        );
    }
    assert(rs == u + w) by {
        lemma_challenges_concat::<F>(sponge, first, second);
    }
    let before = rs.take(i);
    if i < k {
        let (fs, gs) = (phase_1_fs(terms, mix, k), phase_1_gs(terms));
        assert(before =~= u.take(i));
        assert(messages[i] == first[i]);
        assert(first[i] == round_message(bind_each(fs, before), bind_each(gs, before), p)) by {
            lemma_prover_messages::<F>(fs, gs, sponge, k, i);
        }
    } else {
        let (fs, gs) = (phase_2_fs(terms, mix, u, k), phase_2_gs(terms, u));
        let tail = before.skip(k as int);
        assert(before.take(k as int) =~= u);
        assert(tail =~= w.take(i - k));
        assert(messages[i] == second[i - k]);
        assert(second[i - k] == round_message(bind_each(fs, tail), bind_each(gs, tail), p)) by {
            lemma_prover_messages::<F>(fs, gs, middle, k, i - k);
        }
    }
}

/// The claim of an honest prover is the sum over all corners of the hypercube of dimension
/// `2 * k`.
pub proof fn lemma_honest_claim(terms: Seq<Term>, mix: Mix, k: nat, p: int)
    requires
        k > 0,
        terms_shaped(terms, k),
        mix.g1.len() == k,
        mix.g2.len() == k,
    ensures
        honest_claim(terms, mix, k, p) == sum(
            pow2(2 * k),
            |b: int|
                combined_value(
                    terms,
                    mix,
                    corner(b, 2 * k).take(k as int),
                    corner(b, 2 * k).skip(k as int),
                ),
        ) % p,
{
    let q = Seq::<int>::empty();
    lemma_table_total(terms, mix, k, q);
    let (fs, gs) = (phase_1_fs(terms, mix, k), phase_1_gs(terms));
    assert(bind_each(fs, q) =~= fs);
    assert(bind_each(gs, q) =~= gs);
    let a = |b: int|
        combined_value(
            terms,
            mix,
            (q + corner(b, 2 * k)).take(k as int),
            (q + corner(b, 2 * k)).skip(k as int),
        );
    let c = |b: int|
        combined_value(
            terms,
            mix,
            corner(b, 2 * k).take(k as int),
            corner(b, 2 * k).skip(k as int),
        );
    assert forall|b: int| 0 <= b < pow2(2 * k) implies #[trigger] a(b) == c(b) by {
        assert(q + corner(b, 2 * k) =~= corner(b, 2 * k));
    }
    lemma_sum_eq(pow2(2 * k), a, c);
    assert((2 * k - q.len()) as nat == 2 * k);
}

/// What is left when all variables are set is the value of the summed polynomial.
proof fn lemma_nothing_left(terms: Seq<Term>, mix: Mix, k: nat, q: Seq<int>)
    requires
        q.len() == 2 * k,
    ensures
        rest_sum(terms, mix, k, q) == combined_value(terms, mix, q.take(k as int), q.skip(k as int)),
{
    lemma2_to64();
    let f = |b: int|
        combined_value(
            terms,
            mix,
            (q + corner(b, 0)).take(k as int),
            (q + corner(b, 0)).skip(k as int),
        );
    reveal_with_fuel(sum, 2);
    assert(q + corner(0, 0) =~= q);
    assert(sum(1, f) == f(0));
    assert((2 * k - q.len()) as nat == 0);
}

/// In some round the verifier was misled: the message adds up to something other than what is left
/// of the sum, but at the challenge it agrees with what is left then.
pub open spec fn misled<F: Absorb, O: Oracle<F>>(
    verifier: Verifier<F, O>,
    rs: Seq<int>,
    terms: Seq<Term>,
    mix: Mix,
    k: nat,
    i: int,
) -> bool {
    let m = verifier.messages();
    let p = F::modulus();
    &&& (m[i][0] + m[i][1]) % p != rest_sum(terms, mix, k, rs.take(i)) % p
    &&& interpolate(m[i], rs[i], p) == rest_sum(terms, mix, k, rs.take(i + 1)) % p
}

/// A message that adds up to something wrong leads to a round in which the verifier is misled, if
/// the last polynomial is right at the last challenge.
proof fn lemma_misled_later<F: Absorb, O: Oracle<F>>(
    verifier: Verifier<F, O>,
    rs: Seq<int>,
    terms: Seq<Term>,
    mix: Mix,
    k: nat,
    i: int,
)
    requires
        k > 0,
        0 <= i < 2 * k,
        rs.len() == 2 * k,
        ({
            let m = verifier.messages();
            let p = F::modulus();
            &&& (m[i][0] + m[i][1]) % p != rest_sum(terms, mix, k, rs.take(i)) % p
            &&& interpolate(m[2 * k - 1], rs[2 * k - 1], p) == rest_sum(terms, mix, k, rs) % p
            &&& forall|j: int|
                1 <= j < 2 * k ==> (#[trigger] m[j][0] + m[j][1]) % p == interpolate(
                    m[j - 1],
                    rs[j - 1],
                    p,
                )
        }),
    ensures
        exists|j: int|
            i <= j < 2 * k && #[trigger] misled::<F, O>(verifier, rs, terms, mix, k, j),
    decreases 2 * k - i,
{
    let m = verifier.messages();
    if !misled::<F, O>(verifier, rs, terms, mix, k, i) {
        if i + 1 == 2 * k {
            assert(rs.take(i + 1) =~= rs);
        } else {
            assert((m[i + 1][0] + m[i + 1][1]) % F::modulus() == interpolate(
                m[i],
                rs[i],
                F::modulus(),
            ));
            lemma_misled_later::<F, O>(verifier, rs, terms, mix, k, i + 1);
        }
    }
}

/// A run that accepts. If the oracle gives the values of the summed polynomial, then the verifier
/// has looked at all messages and at the oracle, and the claim is the sum over all corners, unless
/// in some round it was misled.
pub proof fn lemma_acceptance<F: Absorb, O: Oracle<F>>(
    verifier: Verifier<F, O>,
    rs: Seq<int>,
    terms: Seq<Term>,
    mix: Mix,
    k: nat,
)
    requires
        k > 0,
        verifier.source().rounds() == 2 * k,
        forall|x: Seq<int>, y: Seq<int>|
            x.len() == k && y.len() == k ==> #[trigger] verifier.source().value(x, y)
                == combined_value(terms, mix, x, y) % F::modulus(),
        verifier.has_outcome(true, rs),
    ensures
        rs.len() == 2 * k,
        interpolate(verifier.messages()[2 * k - 1], rs[2 * k - 1], F::modulus())
            == verifier.source().value(rs.take(k as int), rs.skip(k as int)),
        ({
            ||| verifier.claim()->0 % F::modulus() == rest_sum(terms, mix, k, Seq::empty())
                % F::modulus()
            ||| exists|i: int|
                0 <= i < 2 * k && #[trigger] misled::<F, O>(verifier, rs, terms, mix, k, i)
        }),
{
    let p = F::modulus();
    verifier.lemma_verdict(true, rs);
    assert((2 * k as int) / 2 == k);
    lemma_nothing_left(terms, mix, k, rs);
    let none = Seq::<int>::empty();
    if verifier.claim()->0 % p != rest_sum(terms, mix, k, none) % p {
        assert(rs.take(0) =~= none);
        lemma_misled_later::<F, O>(verifier, rs, terms, mix, k, 0);
    }
}

/// The challenges are what squeezing one element gives after each message has been absorbed as a
/// whole, one after the other.
pub proof fn lemma_challenges_of_sponge<F: Absorb>(
    sponge: SpongeState,
    messages: Seq<Seq<int>>,
    message: Seq<int>,
)
    ensures
        sponge_after::<F>(sponge, Seq::empty()) == sponge,
        sponge_after::<F>(sponge, messages.push(message)) == F::squeezed(
            F::absorbed(sponge_after::<F>(sponge, messages), message),
            1,
        ).0,
        challenges::<F>(sponge, messages.push(message)).len() == messages.len() + 1,
        challenges::<F>(sponge, messages.push(message)).take(messages.len() as int) == challenges::<
            F,
        >(sponge, messages),
        challenges::<F>(sponge, messages.push(message))[messages.len() as int] == F::squeezed(
            F::absorbed(sponge_after::<F>(sponge, messages), message),
            1,
        ).1[0],
{
    lemma_challenges_push::<F>(sponge, messages, message);
    assert(challenges::<F>(sponge, messages.push(message)).take(messages.len() as int)
        =~= challenges::<F>(sponge, messages));
}

/// What an oracle for one point gives: the sum over all products of
/// `f1(g, x, y) * f2(x) * f3(y)`.
pub proof fn lemma_poly_oracle<F: MultilinearField>(
    oracle: PolyOracle<F>,
    x: Seq<int>,
    y: Seq<int>,
)
    ensures
        oracle.rounds() == 2 * oracle.statement().terms@[0].1.num_vars,
        oracle.value(x, y) == sum(
            oracle.statement().terms@.len(),
            |s: int|
                mle(oracle.statement().terms@[s].0@, oracle.point() + x + y) * mle(
                    oracle.statement().terms@[s].1@,
                    x,
                ) * mle(oracle.statement().terms@[s].2@, y),
        ) % F::modulus(),
{
    let (terms, g) = (oracle.statement()@, oracle.point());
    lemma_sum_eq(
        terms.len(),
        |s: int| mle(terms[s].f1, g + x + y) * mle(terms[s].f2, x) * mle(terms[s].f3, y),
        |s: int|
            mle(oracle.statement().terms@[s].0@, oracle.point() + x + y) * mle(
                oracle.statement().terms@[s].1@,
                x,
            ) * mle(oracle.statement().terms@[s].2@, y),
    );
}

/// What an oracle for a mixture of two points gives: the sum over all products of
/// `(alpha * f1(g1, x, y) + beta * f1(g2, x, y)) * f2(x) * f3(y)`.
pub proof fn lemma_combined_oracle<F: MultilinearField>(
    oracle: CombinedPolyOracle<F>,
    x: Seq<int>,
    y: Seq<int>,
)
    ensures
        oracle.rounds() == 2 * oracle.statement().terms@[0].1.num_vars,
        oracle.value(x, y) == sum(
            oracle.statement().terms@.len(),
            |s: int|
                (oracle.mix().alpha * mle(
                    oracle.statement().terms@[s].0@,
                    oracle.mix().g1 + x + y,
                ) + oracle.mix().beta * mle(
                    oracle.statement().terms@[s].0@,
                    oracle.mix().g2 + x + y,
                )) * mle(oracle.statement().terms@[s].1@, x) * mle(
                    oracle.statement().terms@[s].2@,
                    y,
                ),
        ) % F::modulus(),
{
    let (terms, mix) = (oracle.statement()@, oracle.mix());
    lemma_sum_eq(
        terms.len(),
        |s: int| mixed_value(terms[s].f1, mix, x, y) * mle(terms[s].f2, x) * mle(terms[s].f3, y),
        |s: int|
            (oracle.mix().alpha * mle(oracle.statement().terms@[s].0@, oracle.mix().g1 + x + y)
                + oracle.mix().beta * mle(
                oracle.statement().terms@[s].0@,
                oracle.mix().g2 + x + y,
            )) * mle(oracle.statement().terms@[s].1@, x) * mle(oracle.statement().terms@[s].2@, y),
    );
}

/// What an oracle that takes the values of the second and third factors on trust gives: the sum over
/// all products of `(alpha * f1(g1, x, y) + beta * f1(g2, x, y)) * w_u * w_v`.
pub proof fn lemma_gkr_oracle<F: MultilinearField>(oracle: GKROracle<F>, x: Seq<int>, y: Seq<int>)
    ensures
        oracle.rounds() == 2 * oracle.mix().g1.len(),
        oracle.value(x, y) == sum(
            oracle.statement().terms@.len(),
            |s: int|
                (oracle.mix().alpha * mle(
                    oracle.statement().terms@[s].0@,
                    oracle.mix().g1 + x + y,
                ) + oracle.mix().beta * mle(
                    oracle.statement().terms@[s].0@,
                    oracle.mix().g2 + x + y,
                )) * oracle.statement().terms@[s].1.val() * oracle.statement().terms@[s].2.val(),
        ) % F::modulus(),
{
    let (terms, mix) = (oracle.statement()@, oracle.mix());
    lemma_sum_eq(
        terms.len(),
        |s: int| mixed_value(terms[s].f1, mix, x, y) * terms[s].w_u * terms[s].w_v,
        |s: int|
            (oracle.mix().alpha * mle(oracle.statement().terms@[s].0@, oracle.mix().g1 + x + y)
                + oracle.mix().beta * mle(
                oracle.statement().terms@[s].0@,
                oracle.mix().g2 + x + y,
            )) * oracle.statement().terms@[s].1.val() * oracle.statement().terms@[s].2.val(),
    );
}

/// An oracle that is given the values of the second and third factors agrees with one that knows
/// them, for any number of products.
pub proof fn lemma_gkr_oracle_agrees<F: MultilinearField>(
    reduced: GKROracle<F>,
    full: CombinedPolyOracle<F>,
    x: Seq<int>,
    y: Seq<int>,
)
    requires
        reduced.mix() == full.mix(),
        reduced.statement().terms@.len() == full.statement().terms@.len(),
        forall|s: int|
            0 <= s < full.statement().terms@.len() ==> {
                &&& (#[trigger] reduced.statement().terms@[s]).0@ == full.statement().terms@[s].0@
                &&& reduced.statement().terms@[s].1.val() == mle(
                    full.statement().terms@[s].1@,
                    x,
                ) % F::modulus()
                &&& reduced.statement().terms@[s].2.val() == mle(
                    full.statement().terms@[s].2@,
                    y,
                ) % F::modulus()
            },
    ensures
        reduced.value(x, y) == full.value(x, y),
{
    let p = F::modulus();
    F::lemma_modulus();
    let (terms, few) = (full.statement()@, reduced.statement()@);
    assert forall|s: int| 0 <= s < terms.len() implies (#[trigger] few[s]).f1 == terms[s].f1
        && cong(few[s].w_u, mle(terms[s].f2, x), p) && cong(
        few[s].w_v,
        mle(terms[s].f3, y),
        p,
    ) by {
        assert(reduced.statement().terms@[s].0@ == full.statement().terms@[s].0@);
        lemma_cong_reduce(mle(terms[s].f2, x), p);
        lemma_cong_reduce(mle(terms[s].f3, y), p);
    }
    lemma_reduced_is_combined(terms, few, full.mix(), x, y, p);
}

/// An oracle for one point agrees with one for a mixture with the coefficients one and zero.
pub proof fn lemma_poly_oracle_agrees<F: MultilinearField>(
    simple: PolyOracle<F>,
    mixed: CombinedPolyOracle<F>,
    x: Seq<int>,
    y: Seq<int>,
)
    requires
        simple.statement()@ == mixed.statement()@,
        mixed.mix().g1 == simple.point(),
        mixed.mix().alpha == 1,
        mixed.mix().beta == 0,
    ensures
        simple.value(x, y) == mixed.value(x, y),
{
    let terms = simple.statement()@;
    lemma_mixture(terms, mixed.mix(), x, y);
    let (a, b) = (
        simple_value(terms, mixed.mix().g1, x, y),
        simple_value(terms, mixed.mix().g2, x, y),
    );
    assert(1 * a + 0 * b == a);
}

/// The elements from which a mixture is made are its points and its coefficients.
pub proof fn lemma_mix_of<F: PrimeField>(g1: Seq<F>, g2: Seq<F>, alpha: F, beta: F)
    ensures
        mix_of(g1, g2, alpha, beta).g1.len() == g1.len(),
        mix_of(g1, g2, alpha, beta).g2.len() == g2.len(),
        forall|i: int|
            0 <= i < g1.len() ==> #[trigger] mix_of(g1, g2, alpha, beta).g1[i] == g1[i].val(),
        forall|i: int|
            0 <= i < g2.len() ==> #[trigger] mix_of(g1, g2, alpha, beta).g2[i] == g2[i].val(),
        mix_of(g1, g2, alpha, beta).alpha == alpha.val(),
        mix_of(g1, g2, alpha, beta).beta == beta.val(),
{
}

/// The claim of an honest prover in the representatives of what it is given: the sum over all
/// corners `x` and `y` and all products of
/// `(alpha * f1(g1, x, y) + beta * f1(g2, x, y)) * f2(x) * f3(y)`.
pub proof fn lemma_claim_in_full<F: PrimeField>(
    statement: SumOfProducts<F>,
    g1: Seq<F>,
    g2: Seq<F>,
    alpha: F,
    beta: F,
)
    requires
        statement.wf(),
        g1.len() == statement.arity(),
        g2.len() == statement.arity(),
    ensures
        honest_claim(
            statement@,
            mix_of(g1, g2, alpha, beta),
            statement.arity(),
            F::modulus(),
        ) == sum(
            pow2(g1.len()),
            |x: int|
                sum(
                    pow2(g1.len()),
                    |y: int|
                        sum(
                            statement.terms@.len(),
                            |s: int|
                                (alpha.val() * mle(
                                    statement.terms@[s].0@,
                                    vals(g1) + corner(x, g1.len()) + corner(y, g1.len()),
                                ) + beta.val() * mle(
                                    statement.terms@[s].0@,
                                    vals(g2) + corner(x, g1.len()) + corner(y, g1.len()),
                                )) * mle(statement.terms@[s].1@, corner(x, g1.len())) * mle(
                                    statement.terms@[s].2@,
                                    corner(y, g1.len()),
                                ),
                        ),
                ),
        ) % F::modulus(),
{
    let k = g1.len();
    let (terms, mix) = (statement@, mix_of(g1, g2, alpha, beta));
    lemma_shapes(statement);
    lemma_claim_is_cube_sum(terms, mix, k, F::modulus());
    let a = |x: int|
        sum(pow2(k), |y: int| combined_value(terms, mix, corner(x, k), corner(y, k)));
    let b = |x: int|
        sum(
            pow2(g1.len()),
            |y: int|
                sum(
                    statement.terms@.len(),
                    |s: int|
                        (alpha.val() * mle(
                            statement.terms@[s].0@,
                            vals(g1) + corner(x, g1.len()) + corner(y, g1.len()),
                        ) + beta.val() * mle(
                            statement.terms@[s].0@,
                            vals(g2) + corner(x, g1.len()) + corner(y, g1.len()),
                        )) * mle(statement.terms@[s].1@, corner(x, g1.len())) * mle(
                            statement.terms@[s].2@,
                            corner(y, g1.len()),
                        ),
                ),
        );
    assert forall|x: int| 0 <= x < pow2(k) implies #[trigger] a(x) == b(x) by {
        let c = |y: int| combined_value(terms, mix, corner(x, k), corner(y, k));
        let d = |y: int|
            sum(
                statement.terms@.len(),
                |s: int|
                    (alpha.val() * mle(
                        statement.terms@[s].0@,
                        vals(g1) + corner(x, g1.len()) + corner(y, g1.len()),
                    ) + beta.val() * mle(
                        statement.terms@[s].0@,
                        vals(g2) + corner(x, g1.len()) + corner(y, g1.len()),
                    )) * mle(statement.terms@[s].1@, corner(x, g1.len())) * mle(
                        statement.terms@[s].2@,
                        corner(y, g1.len()),
                    ),
            );
        assert forall|y: int| 0 <= y < pow2(k) implies #[trigger] c(y) == d(y) by {
            lemma_combined_in_full(statement, g1, g2, alpha, beta, corner(x, k), corner(y, k));
        }
        lemma_sum_eq(pow2(k), c, d);
    }
    lemma_sum_eq(pow2(k), a, b);
}

/// The proof that an honest run returns is one that every verifier accepts that starts from the same
/// sponge and has an oracle for the summed polynomial, and it draws the challenges of the run.
pub proof fn lemma_returned_proof<F: Absorb, O: Oracle<F>>(
    terms: Seq<Term>,
    mix: Mix,
    k: nat,
    accepted: bool,
    proof: SumcheckProof<F>,
    rs: Seq<int>,
    verifier: Verifier<F, O>,
)
    requires
        k > 0,
        terms_shaped(terms, k),
        mix.g1.len() == k,
        mix.g2.len() == k,
        is_honest_run(terms, mix, k, verifier.sponge_state(), accepted, proof, rs),
        verifier.messages() == vals2(proof.values@),
        proof.claim is Some && verifier.claim() == Some(proof.claim->0.val()),
        verifier.source().rounds() == 2 * k,
        forall|x: Seq<int>, y: Seq<int>|
            x.len() == k && y.len() == k ==> #[trigger] verifier.source().value(x, y)
                == combined_value(terms, mix, x, y) % F::modulus(),
    ensures
        accepted,
        verifier.complete(),
        forall|verdict: bool, drawn: Seq<int>| #[trigger]
            verifier.has_outcome(verdict, drawn) ==> verdict && drawn == rs,
        proof.values@.len() == 2 * k,
        proof.claim->0.val() == rest_sum(terms, mix, k, Seq::empty()) % F::modulus(),
        (proof.values@[0]@[0].val() + proof.values@[0]@[1].val()) % F::modulus()
            == proof.claim->0.val(),
        rs == challenges::<F>(verifier.sponge_state(), vals2(proof.values@)),
{
    let sponge = verifier.sponge_state();
    let p = F::modulus();
    let messages = honest_messages::<F>(terms, mix, k, sponge);
    lemma_completeness::<F>(terms, mix, k, sponge);
    lemma_honest_claim(terms, mix, k, p);
    let none = Seq::<int>::empty();
    lemma_table_total(terms, mix, k, none);
    let (fs, gs) = (phase_1_fs(terms, mix, k), phase_1_gs(terms));
    assert(bind_each(fs, none) =~= fs);
    assert(bind_each(gs, none) =~= gs);
    assert(proof.messages() == messages);
    assert forall|verdict: bool, drawn: Seq<int>| #[trigger]
        verifier.has_outcome(verdict, drawn) implies verdict && drawn == rs by {
        assert((2 * k as int) / 2 == k);
        let value = verifier.source().value(drawn.take(k as int), drawn.skip(k as int));
        lemma_honest_run::<F>(terms, mix, k, sponge, value, drawn.len() as int, verdict);
        assert(drawn.len() == 2 * k);
    }
    lemma_honest_message::<F>(terms, mix, k, sponge, 0);
    assert(crate::protocol::round_ok::<F>(proof.claim->0.val(), messages, sponge, 0));
    lemma_interpolate_constant(proof.claim->0.val(), 1, p);
    proof.claim->0.lemma_val();
    vstd::arithmetic::div_mod::lemma_small_mod(proof.claim->0.val() as nat, p as nat);
    assert(messages[0][0] == proof.values@[0]@[0].val());
    assert(messages[0][1] == proof.values@[0]@[1].val());
}

} // verus!
