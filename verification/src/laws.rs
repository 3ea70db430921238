//! What the protocol is about, and what can be relied on when it is run.

use vstd::arithmetic::power2::{lemma2_to64, lemma_pow2_unfold, pow2};
use vstd::prelude::*;

use crate::completeness::{
    lemma_completeness, lemma_final_value, lemma_mixed_value, lemma_phases_meet, lemma_table_sizes,
};
use crate::data_structures::Term;
use crate::field::{
    cong, lemma_cong_add, lemma_cong_mul, lemma_cong_reduce, vals, vals2, PrimeField,
};
use crate::folding::{covers, folded, heads, lemma_heads};
use crate::interpolation::{interpolate, lemma_interpolate_constant};
use crate::multilinear::{bind, bind_all, inner, mle, weight};
use crate::oracles::{combined_value, mixed_value, reduced_value, simple_value, ReducedTerm};
use crate::protocol::{
    expected, first_messages, honest_claim, honest_messages, outcome, phase_1_fs, phase_1_gs,
    phase_2_fs, phase_2_gs, round_ok, rounds_ok, scaled, terms_shaped,
};
use crate::proving::folded_in_place;
use crate::rounds::{
    all_of_size, bind_each, challenges, lemma_bind_each_size, lemma_challenges_take,
    lemma_round_poly_is_next_total, lemma_total_is_round_sum, prover_messages, round_message,
    round_poly, sponge_after, total,
};
use crate::sponge::{Absorb, SpongeState};
use crate::sums::{
    lemma_sum_add, lemma_sum_cong, lemma_sum_eq, lemma_sum_group, lemma_sum_pairs,
    lemma_sum_permuted, lemma_sum_scale, lemma_sum_single, lemma_sum_split, lemma_sum_swap, sum,
};
use crate::tables::is_weight_table;
use crate::wiring::{
    block_x, block_y, block_z, lemma_blocks, phase_1_table, phase_1_term, phase_2_table,
    phase_2_term, Mix,
};

verus! {

/// The corner of the hypercube of dimension `k` with the little-endian index `x`.
pub open spec fn corner(x: int, k: nat) -> Seq<int>
    decreases k,
{
    if k == 0 {
        Seq::empty()
    } else {
        seq![x % 2] + corner(x / 2, (k - 1) as nat)
    }
}

/// The weights at a corner single it out.
pub proof fn lemma_weight_at_corner(i: int, x: int, k: nat)
    requires
        0 <= i < pow2(k),
        0 <= x < pow2(k),
    ensures
        corner(x, k).len() == k,
        weight(i, corner(x, k)) == (if i == x {
            1int
        } else {
            0
        }),
    decreases k,
{
    lemma2_to64();
    if k > 0 {
        lemma_pow2_unfold(k);
        let m = (k - 1) as nat;
        lemma_weight_at_corner(i / 2, x / 2, m);
        assert(corner(x, k).drop_first() =~= corner(x / 2, m));
        let c = if i % 2 == 1 {
            x % 2
        } else {
            1 - x % 2
        };
        let w = weight(i / 2, corner(x / 2, m));
        assert(c * w == (if c == 1 && w == 1 {
            1int
        } else {
            0
        })) by (nonlinear_arith)
            requires
                c == 0 || c == 1,
                w == 0 || w == 1,
        ;
    }
}

/// A multilinear polynomial takes its given values at the corners.
pub proof fn lemma_mle_at_corner(table: Seq<int>, x: int, k: nat)
    requires
        0 <= x < pow2(k),
    ensures
        mle(table, corner(x, k)) == table[x],
{
    lemma_weight_at_corner(x, x, k);
    let term = |i: int| table[i] * weight(i, corner(x, k));
    assert forall|i: int| 0 <= i < pow2(k) && i != x implies #[trigger] term(i) == 0 by {
        lemma_weight_at_corner(i, x, k);
    }
    lemma_sum_single(pow2(k), x, term);
}

/// The weights at a point add up to one.
pub proof fn lemma_weights_add_up(point: Seq<int>)
    ensures
        sum(pow2(point.len()), |i: int| weight(i, point)) == 1,
    decreases point.len(),
{
    lemma2_to64();
    let f = |i: int| weight(i, point);
    if point.len() == 0 {
        reveal_with_fuel(sum, 2);
        assert(f(0) == 1);
    } else {
        let rest = point.drop_first();
        let m = pow2(rest.len());
        lemma_weights_add_up(rest);
        lemma_pow2_unfold(point.len());
        lemma_sum_pairs(m, f);
        let pairs = |j: int| f(2 * j) + f(2 * j + 1);
        let halves = |j: int| weight(j, rest);
        assert forall|j: int| 0 <= j < m implies #[trigger] pairs(j) == halves(j) by {
            assert((2 * j) % 2 == 0 && (2 * j) / 2 == j);
            assert((2 * j + 1) % 2 == 1 && (2 * j + 1) / 2 == j);
            let (r, w) = (point[0], weight(j, rest));
            assert((1 - r) * w + r * w == w) by (nonlinear_arith);
        }
        lemma_sum_eq(m, pairs, halves);
    }
}

/// There is one table of weights at a point: two ways to compute it agree.
pub proof fn lemma_one_weight_table<F: PrimeField>(
    table: Seq<F>,
    other: Seq<F>,
    point: Seq<int>,
)
    requires
        is_weight_table(table, point),
        is_weight_table(other, point),
    ensures
        vals(table) == vals(other),
{
    assert(vals(table) =~= vals(other));
}

/// The sum over all corners `x` and `y` of
/// `(alpha * f1(g1, x, y) + beta * f1(g2, x, y)) * f2(x) * f3(y)`, added up over all products.
pub open spec fn cube_sum(terms: Seq<Term>, mix: Mix, k: nat) -> int {
    sum(
        pow2(k),
        |x: int|
            sum(pow2(k), |y: int| combined_value(terms, mix, corner(x, k), corner(y, k))),
    )
}

/// The table of the second phase holds at `y` the value at `u` and the corner `y` of the mixture of
/// first factors.
pub proof fn lemma_phase_2_entry(f1: Seq<int>, u: Seq<int>, mix: Mix, k: nat, y: int)
    requires
        0 <= y < pow2(k),
        u.len() == k,
        mix.g1.len() == k,
        mix.g2.len() == k,
    ensures
        phase_2_table(f1, u, mix, k)[y] == mixed_value(f1, mix, u, corner(y, k)),
{
    let n = pow2(3 * k);
    lemma_weight_at_corner(y, y, k);
    lemma_mixed_value(f1, mix, k, u, corner(y, k));
    let members = |i: int|
        if block_y(i, k) == y {
            phase_2_term(f1, u, mix, k, i)
        } else {
            0
        };
    let weighted = |i: int| weight(block_y(i, k), corner(y, k)) * phase_2_term(f1, u, mix, k, i);
    assert forall|i: int| 0 <= i < n implies #[trigger] members(i) == weighted(i) by {
        lemma_blocks(i, k);
        lemma_weight_at_corner(block_y(i, k), y, k);
        let t = phase_2_term(f1, u, mix, k, i);
        assert(0 * t == 0 && 1 * t == t);
    }
    lemma_sum_eq(n, members, weighted);
}

/// The table of the first phase holds at `x` the sum over all corners `y` of `f3(y)` times the value
/// at the corners `x` and `y` of the mixture of first factors.
pub proof fn lemma_phase_1_entry(f1: Seq<int>, f3: Seq<int>, mix: Mix, k: nat, x: int)
    requires
        0 <= x < pow2(k),
        mix.g1.len() == k,
        mix.g2.len() == k,
    ensures
        phase_1_table(f1, f3, mix, k)[x] == sum(
            pow2(k),
            |y: int| f3[y] * mixed_value(f1, mix, corner(x, k), corner(y, k)),
        ),
{
    let n = pow2(3 * k);
    let point = corner(x, k);
    lemma_weight_at_corner(x, x, k);
    let group = |i: int| block_y(i, k);
    let t = |i: int| phase_2_term(f1, point, mix, k, i);
    let c = |y: int| f3[y];
    assert forall|i: int| 0 <= i < n implies 0 <= #[trigger] group(i) < pow2(k) by {
        lemma_blocks(i, k);
    }
    lemma_sum_group(n, pow2(k), group, t, c);
    let by_group = |y: int|
        c(y) * sum(
            n,
            |i: int|
                if group(i) == y {
                    t(i)
                } else {
                    0
                },
        );
    let direct = |y: int| f3[y] * mixed_value(f1, mix, point, corner(y, k));
    assert forall|y: int| 0 <= y < pow2(k) implies #[trigger] by_group(y) == direct(y) by {
        lemma_phase_2_entry(f1, point, mix, k, y);
        lemma_sum_eq(
            n,
            |i: int|
                if group(i) == y {
                    t(i)
                } else {
                    0
                },
            |i: int|
                if block_y(i, k) == y {
                    phase_2_term(f1, point, mix, k, i)
                } else {
                    0
                },
        );
    }
    lemma_sum_eq(pow2(k), by_group, direct);
    let flat = |i: int| c(group(i)) * t(i);
    let entry = |i: int|
        if block_x(i, k) == x {
            phase_1_term(f1, f3, mix, k, i)
        } else {
            0
        };
    assert forall|i: int| 0 <= i < n implies #[trigger] flat(i) == entry(i) by {
        lemma_blocks(i, k);
        lemma_weight_at_corner(block_x(i, k), x, k);
        let (w, a, b) = (mix.weight(block_z(i, k)), f1[i], f3[block_y(i, k)]);
        assert(b * (w * 1 * a) == w * a * b) by (nonlinear_arith);
        assert(b * (w * 0 * a) == 0) by (nonlinear_arith);
    }
    lemma_sum_eq(n, flat, entry);
}

/// The honest claim is the sum over all corners.
pub proof fn lemma_claim_is_cube_sum(terms: Seq<Term>, mix: Mix, k: nat, p: int)
    requires
        terms_shaped(terms, k),
        mix.g1.len() == k,
        mix.g2.len() == k,
    ensures
        honest_claim(terms, mix, k, p) == cube_sum(terms, mix, k) % p,
{
    let n = pow2(k);
    let count = terms.len();
    let value = |s: int, x: int, y: int|
        mixed_value(terms[s].f1, mix, corner(x, k), corner(y, k)) * mle(terms[s].f2, corner(x, k))
            * mle(terms[s].f3, corner(y, k));
    let row = |s: int, x: int| sum(n, |y: int| value(s, x, y));
    let rows = |x: int| sum(n, |y: int| combined_value(terms, mix, corner(x, k), corner(y, k)));
    let rows_by_term = |x: int| sum(count, |s: int| row(s, x));
    assert forall|x: int| 0 <= x < n implies #[trigger] rows(x) == rows_by_term(x) by {
        let cell = |y: int, s: int| value(s, x, y);
        lemma_sum_swap(n, count, cell);
        let by_point = |y: int| sum(count, |s: int| cell(y, s));
        let combined = |y: int| combined_value(terms, mix, corner(x, k), corner(y, k));
        assert forall|y: int| 0 <= y < n implies #[trigger] combined(y) == by_point(y) by {
            lemma_sum_eq(
                count,
                |s: int| cell(y, s),
                |s: int|
                    mixed_value(terms[s].f1, mix, corner(x, k), corner(y, k)) * mle(
                        terms[s].f2,
                        corner(x, k),
                    ) * mle(terms[s].f3, corner(y, k)),
            );
        }
        lemma_sum_eq(n, combined, by_point);
        let by_term = |s: int| sum(n, |y: int| cell(y, s));
        assert forall|s: int| 0 <= s < count implies #[trigger] by_term(s) == row(s, x) by {
            lemma_sum_eq(n, |y: int| cell(y, s), |y: int| value(s, x, y));
        }
        lemma_sum_eq(count, by_term, |s: int| row(s, x));
    }
    lemma_sum_eq(n, rows, rows_by_term);
    let swapped = |x: int, s: int| row(s, x);
    lemma_sum_swap(n, count, swapped);
    let by_row = |x: int| sum(count, |s: int| swapped(x, s));
    assert forall|x: int| 0 <= x < n implies #[trigger] rows_by_term(x) == by_row(x) by {
        lemma_sum_eq(count, |s: int| row(s, x), |s: int| swapped(x, s));
    }
    lemma_sum_eq(n, rows_by_term, by_row);
    let per_term = |s: int| sum(n, |x: int| swapped(x, s));
    let (fs, gs) = (phase_1_fs(terms, mix, k), phase_1_gs(terms));
    let inners = |s: int| inner(fs[s], gs[s]);
    assert forall|s: int| 0 <= s < count implies #[trigger] per_term(s) == inners(s) by {
        let (f1, f2, f3) = (terms[s].f1, terms[s].f2, terms[s].f3);
        let (f, g) = (fs[s], gs[s]);
        let product = |x: int| f[x] * g[x];
        let part = |x: int| swapped(x, s);
        assert forall|x: int| 0 <= x < n implies #[trigger] part(x) == product(x) by {
            lemma_phase_1_entry(f1, f3, mix, k, x);
            lemma_mle_at_corner(f2, x, k);
            let a = |y: int| f3[y] * mixed_value(f1, mix, corner(x, k), corner(y, k));
            let b = |y: int| value(s, x, y);
            let c = f2[x];
            assert forall|y: int| 0 <= y < n implies #[trigger] b(y) == c * a(y) by {
                lemma_mle_at_corner(f3, y, k);
                let (m, d) = (mixed_value(f1, mix, corner(x, k), corner(y, k)), f3[y]);
                assert(m * c * d == c * (d * m)) by (nonlinear_arith);
            }
            lemma_sum_scale(n, c, a, b);
            assert(c * f[x] == f[x] * c) by (nonlinear_arith);
        }
        lemma_sum_eq(n, part, product);
    }
    lemma_sum_eq(count, per_term, inners);
}

/// The mixture of a point with itself, with the coefficients one and zero.
pub open spec fn single_point(g: Seq<int>) -> Mix {
    Mix { g1: g, g2: g, alpha: 1, beta: 0 }
}

/// Running for a single point is running for the mixture with the coefficients one and zero.
pub proof fn lemma_single_point(terms: Seq<Term>, g: Seq<int>, x: Seq<int>, y: Seq<int>)
    ensures
        combined_value(terms, single_point(g), x, y) == simple_value(terms, g, x, y),
{
    let mix = single_point(g);
    let a = |s: int|
        mixed_value(terms[s].f1, mix, x, y) * mle(terms[s].f2, x) * mle(terms[s].f3, y);
    let b = |s: int| mle(terms[s].f1, g + x + y) * mle(terms[s].f2, x) * mle(terms[s].f3, y);
    assert forall|s: int| 0 <= s < terms.len() implies #[trigger] a(s) == b(s) by {
        let w = mle(terms[s].f1, g + x + y);
        assert(1 * w + 0 * w == w);
    }
    lemma_sum_eq(terms.len(), a, b);
}

/// A mixture stands for the sum of its two points with their coefficients.
pub proof fn lemma_mixture(terms: Seq<Term>, mix: Mix, x: Seq<int>, y: Seq<int>)
    ensures
        combined_value(terms, mix, x, y) == mix.alpha * simple_value(terms, mix.g1, x, y) + mix.beta
            * simple_value(terms, mix.g2, x, y),
{
    let n = terms.len();
    let whole = |s: int|
        mixed_value(terms[s].f1, mix, x, y) * mle(terms[s].f2, x) * mle(terms[s].f3, y);
    let at_1 = |s: int|
        mle(terms[s].f1, mix.g1 + x + y) * mle(terms[s].f2, x) * mle(terms[s].f3, y);
    let at_2 = |s: int|
        mle(terms[s].f1, mix.g2 + x + y) * mle(terms[s].f2, x) * mle(terms[s].f3, y);
    let part_1 = |s: int| mix.alpha * at_1(s);
    let part_2 = |s: int| mix.beta * at_2(s);
    assert forall|s: int| 0 <= s < n implies #[trigger] whole(s) == part_1(s) + part_2(s) by {
        let (a, b) = (mix.alpha, mix.beta);
        let (v, w) = (mle(terms[s].f1, mix.g1 + x + y), mle(terms[s].f1, mix.g2 + x + y));
        let (c, d) = (mle(terms[s].f2, x), mle(terms[s].f3, y));
        assert((a * v + b * w) * c == a * (v * c) + b * (w * c)) by (nonlinear_arith);
        let (e, f) = (v * c, w * c);
        assert((a * e + b * f) * d == a * (e * d) + b * (f * d)) by (nonlinear_arith);
    }
    lemma_sum_scale(n, mix.alpha, at_1, part_1);
    lemma_sum_scale(n, mix.beta, at_2, part_2);
    lemma_sum_add(n, part_1, part_2, whole);
}

/// The honest claim for two sums of products together is the sum of their honest claims.
pub proof fn lemma_claims_add_up(
    terms: Seq<Term>,
    more: Seq<Term>,
    mix: Mix,
    k: nat,
    p: int,
)
    requires
        p > 0,
    ensures
        honest_claim(terms + more, mix, k, p) == (honest_claim(terms, mix, k, p) + honest_claim(
            more,
            mix,
            k,
            p,
        )) % p,
{
    let all = terms + more;
    let (fs, gs) = (phase_1_fs(all, mix, k), phase_1_gs(all));
    let (fs_1, gs_1) = (phase_1_fs(terms, mix, k), phase_1_gs(terms));
    let (fs_2, gs_2) = (phase_1_fs(more, mix, k), phase_1_gs(more));
    let n = terms.len();
    let f = |s: int| inner(fs[s], gs[s]);
    lemma_sum_split(n, more.len(), f);
    lemma_sum_eq(n, f, |s: int| inner(fs_1[s], gs_1[s]));
    let upper = |s: int| f(n + s);
    let other = |s: int| inner(fs_2[s], gs_2[s]);
    assert forall|s: int| 0 <= s < more.len() implies #[trigger] upper(s) == other(s) by {
        assert(all[n + s] == more[s]);
    }
    lemma_sum_eq(more.len(), upper, other);
    let (a, b) = (total(fs_1, gs_1), total(fs_2, gs_2));
    lemma_cong_reduce(a, p);
    lemma_cong_reduce(b, p);
    lemma_cong_add(a % p, a, b % p, b, p);
}

/// With the right values of the second and third factors, the reduced sum is the full one.
pub proof fn lemma_reduced_is_combined(
    terms: Seq<Term>,
    reduced: Seq<ReducedTerm>,
    mix: Mix,
    x: Seq<int>,
    y: Seq<int>,
    p: int,
)
    requires
        p > 0,
        reduced.len() == terms.len(),
        forall|s: int|
            0 <= s < terms.len() ==> (#[trigger] reduced[s]).f1 == terms[s].f1 && cong(
                reduced[s].w_u,
                mle(terms[s].f2, x),
                p,
            ) && cong(reduced[s].w_v, mle(terms[s].f3, y), p),
    ensures
        cong(reduced_value(reduced, mix, x, y), combined_value(terms, mix, x, y), p),
{
    let a = |s: int| mixed_value(reduced[s].f1, mix, x, y) * reduced[s].w_u * reduced[s].w_v;
    let b = |s: int|
        mixed_value(terms[s].f1, mix, x, y) * mle(terms[s].f2, x) * mle(terms[s].f3, y);
    assert forall|s: int| 0 <= s < terms.len() implies cong(#[trigger] a(s), b(s), p) by {
        let m = mixed_value(terms[s].f1, mix, x, y);
        let (u, v) = (reduced[s].w_u, reduced[s].w_v);
        let (c, d) = (mle(terms[s].f2, x), mle(terms[s].f3, y));
        assert(reduced[s].f1 == terms[s].f1);
        lemma_cong_mul(m, m, u, c, p);
        lemma_cong_mul(m * u, m * c, v, d, p);
    }
    lemma_sum_cong(terms.len(), a, b, p);
}

/// Against the messages of an honest prover, a claim is refused in the first round exactly when it
/// is not the honest one.
pub proof fn lemma_only_the_honest_claim_passes<F: Absorb>(
    terms: Seq<Term>,
    mix: Mix,
    k: nat,
    sponge: SpongeState,
    claim: int,
)
    requires
        k > 0,
        terms_shaped(terms, k),
        mix.g1.len() == k,
        mix.g2.len() == k,
    ensures
        round_ok::<F>(claim, honest_messages::<F>(terms, mix, k, sponge), sponge, 0) <==> claim
            % F::modulus() == honest_claim(terms, mix, k, F::modulus()),
{
    let p = F::modulus();
    F::lemma_modulus();
    let messages = honest_messages::<F>(terms, mix, k, sponge);
    let honest = honest_claim(terms, mix, k, p);
    lemma_completeness::<F>(terms, mix, k, sponge);
    assert(round_ok::<F>(honest, messages, sponge, 0));
    lemma_interpolate_constant(claim, 1, p);
    lemma_interpolate_constant(honest, 1, p);
    lemma_cong_reduce(total(phase_1_fs(terms, mix, k), phase_1_gs(terms)), p);
}

/// A run on the proof of an honest prover goes through all rounds, draws the challenges that the
/// prover drew, and is accepted exactly when the oracle gives the value of the summed polynomial.
pub proof fn lemma_honest_run<F: Absorb>(
    terms: Seq<Term>,
    mix: Mix,
    k: nat,
    sponge: SpongeState,
    oracle_value: int,
    passed: int,
    accepted: bool,
)
    requires
        k > 0,
        terms_shaped(terms, k),
        mix.g1.len() == k,
        mix.g2.len() == k,
        outcome::<F>(
            honest_claim(terms, mix, k, F::modulus()),
            honest_messages::<F>(terms, mix, k, sponge),
            sponge,
            2 * k as int,
            oracle_value,
            passed,
            accepted,
        ),
    ensures
        ({
            let messages = honest_messages::<F>(terms, mix, k, sponge);
            let rs = challenges::<F>(sponge, messages);
            &&& passed == 2 * k
            &&& challenges::<F>(sponge, messages.take(passed)) == rs
            &&& accepted == (oracle_value == combined_value(
                terms,
                mix,
                rs.take(k as int),
                rs.skip(k as int),
            ) % F::modulus())
        }),
{
    lemma_completeness::<F>(terms, mix, k, sponge);
    let messages = honest_messages::<F>(terms, mix, k, sponge);
    if passed < 2 * k {
        assert(round_ok::<F>(
            honest_claim(terms, mix, k, F::modulus()),
            messages,
            sponge,
            passed,
        ));
    }
    assert(messages.take(passed) =~= messages);
}

/// A run has one outcome: it stops after the same number of messages and with the same answer.
pub proof fn lemma_one_outcome<F: Absorb>(
    claim: int,
    messages: Seq<Seq<int>>,
    sponge: SpongeState,
    n: int,
    oracle_value: spec_fn(int) -> int,
    passed: int,
    accepted: bool,
    other_passed: int,
    other_accepted: bool,
)
    requires
        outcome::<F>(claim, messages, sponge, n, oracle_value(passed), passed, accepted),
        outcome::<F>(
            claim,
            messages,
            sponge,
            n,
            oracle_value(other_passed),
            other_passed,
            other_accepted,
        ),
    ensures
        passed == other_passed,
        accepted == other_accepted,
{
    if passed < other_passed {
        assert(round_ok::<F>(claim, messages, sponge, passed));
    }
    if other_passed < passed {
        assert(round_ok::<F>(claim, messages, sponge, other_passed));
    }
}

/// A proof is accepted exactly when all messages are consistent and the oracle gives the value that
/// is expected after the last one.
pub proof fn lemma_accepted<F: Absorb>(
    claim: int,
    messages: Seq<Seq<int>>,
    sponge: SpongeState,
    n: int,
    oracle_value: int,
    passed: int,
    accepted: bool,
)
    requires
        outcome::<F>(claim, messages, sponge, n, oracle_value, passed, accepted),
    ensures
        accepted <==> passed == n && rounds_ok::<F>(claim, messages, sponge, n) && expected::<F>(
            claim,
            messages,
            sponge,
            n,
        ) == oracle_value,
{
}

/// Exchanging the two factors of all products changes nothing in a round.
proof fn lemma_exchanged_round(fs: Seq<Seq<int>>, gs: Seq<Seq<int>>, t: int, n: nat)
    requires
        fs.len() == gs.len(),
        all_of_size(fs, n),
        all_of_size(gs, n),
    ensures
        total(fs, gs) == total(gs, fs),
        round_poly(fs, gs, t) == round_poly(gs, fs, t),
{
    let (a, b) = (|s: int| inner(fs[s], gs[s]), |s: int| inner(gs[s], fs[s]));
    let c = |s: int| inner(bind(fs[s], t), bind(gs[s], t));
    let d = |s: int| inner(bind(gs[s], t), bind(fs[s], t));
    assert forall|s: int| 0 <= s < fs.len() implies #[trigger] a(s) == b(s) && c(s) == d(s) by {
        assert(fs[s].len() == pow2(n) && gs[s].len() == pow2(n));
        lemma_inner_commutes(fs[s], gs[s]);
        lemma_inner_commutes(bind(fs[s], t), bind(gs[s], t));
    }
    lemma_sum_eq(fs.len(), a, b);
    assert forall|s: int| 0 <= s < fs.len() implies #[trigger] c(s) == d(s) by {
        assert(a(s) == b(s));
    }
    lemma_sum_eq(fs.len(), c, d);
}

/// The order of two factors does not matter.
proof fn lemma_inner_commutes(f: Seq<int>, g: Seq<int>)
    requires
        f.len() == g.len(),
    ensures
        inner(f, g) == inner(g, f),
{
    let (a, b) = (|j: int| f[j] * g[j], |j: int| g[j] * f[j]);
    assert forall|j: int| 0 <= j < f.len() implies #[trigger] a(j) == b(j) by {
        let (x, y) = (f[j], g[j]);
        assert(x * y == y * x) by (nonlinear_arith);
    }
    lemma_sum_eq(f.len(), a, b);
}

/// Sumcheck for pairs of tables does not tell the two lists apart: exchanging them leaves the sum,
/// the messages, the challenges, the sponge and what becomes of every table as they are.
pub proof fn lemma_exchange<F: Absorb>(
    fs: Seq<Seq<int>>,
    gs: Seq<Seq<int>>,
    sponge: SpongeState,
    rounds: nat,
    n: nat,
)
    requires
        rounds <= n,
        fs.len() == gs.len(),
        all_of_size(fs, n),
        all_of_size(gs, n),
    ensures
        ({
            let messages = prover_messages::<F>(fs, gs, sponge, rounds);
            let exchanged = prover_messages::<F>(gs, fs, sponge, rounds);
            let rs = challenges::<F>(sponge, messages);
            let other_rs = challenges::<F>(sponge, exchanged);
            &&& total(fs, gs) == total(gs, fs)
            &&& messages == exchanged
            &&& messages.len() == rounds
            &&& rs == other_rs
            &&& sponge_after::<F>(sponge, messages) == sponge_after::<F>(sponge, exchanged)
            &&& forall|s: int|
                0 <= s < fs.len() ==> folded(#[trigger] fs[s], rs) == folded(fs[s], other_rs)
            &&& forall|s: int|
                0 <= s < gs.len() ==> folded(#[trigger] gs[s], rs) == folded(gs[s], other_rs)
        }),
    decreases rounds,
{
    lemma_exchanged_round(fs, gs, 0, n);
    if rounds > 0 {
        let k = (rounds - 1) as nat;
        lemma_exchange::<F>(fs, gs, sponge, k, n);
        let rs = challenges::<F>(sponge, prover_messages::<F>(fs, gs, sponge, k));
        let m = (n - k) as nat;
        assert(rs.len() + m == n);
        lemma_bind_each_size(fs, rs, m);
        lemma_bind_each_size(gs, rs, m);
        let (bf, bg) = (bind_each(fs, rs), bind_each(gs, rs));
        lemma_exchanged_round(bf, bg, 0, m);
        lemma_exchanged_round(bf, bg, 1, m);
        lemma_exchanged_round(bf, bg, 2, m);
        assert(round_message(bf, bg, F::modulus()) =~= round_message(bg, bf, F::modulus()));
    }
}

/// What setting variables in place leaves of tables depends on their values only.
proof fn lemma_one_fold<F: PrimeField>(
    before: Seq<Vec<F>>,
    after: Seq<Vec<F>>,
    copy: Seq<Vec<F>>,
    after_copy: Seq<Vec<F>>,
    rs: Seq<int>,
    n: nat,
)
    requires
        vals2(before) == vals2(copy),
        folded_in_place(before, after, rs, n),
        folded_in_place(copy, after_copy, rs, n),
    ensures
        vals2(after) == vals2(after_copy),
{
    assert(before.len() == vals2(before).len() && copy.len() == vals2(copy).len());
    assert forall|s: int| 0 <= s < before.len() implies #[trigger] vals2(after)[s] == vals2(
        after_copy,
    )[s] by {
        assert(vals2(before)[s] == vals2(copy)[s]);
        let (x, y) = (vals(before[s]@), vals(copy[s]@));
        assert(x == y && x.len() == before[s]@.len() && y.len() == copy[s]@.len());
        assert(after[s]@.len() == before[s]@.len() && after_copy[s]@.len() == copy[s]@.len());
        assert forall|j: int| 0 <= j < before[s]@.len() implies (#[trigger] after[s]@[j]).val()
            == after_copy[s]@[j].val() by {
            if j >= pow2(n) || j % 2 == 1 {
                assert(after[s]@[j] == before[s]@[j] && after_copy[s]@[j] == copy[s]@[j]);
                assert(x[j] == y[j]);
            } else {
                assert(after_copy[s]@[j].val() == folded(heads(vals2(copy), n)[s], rs)[j]
                    % F::modulus());
            }
        }
        assert(vals(after[s]@) =~= vals(after_copy[s]@));
    }
    assert(vals2(after) =~= vals2(after_copy));
}

/// Two provers that start from the same sponge and run sumcheck on the same two lists of tables,
/// one of them with the lists exchanged, claim the same sum, send the same messages, draw the same
/// challenges, and leave the same tables.
pub proof fn lemma_exchanged_provers<F: Absorb>(
    xs: Seq<Vec<F>>,
    ys: Seq<Vec<F>>,
    xs_copy: Seq<Vec<F>>,
    ys_copy: Seq<Vec<F>>,
    xs_after: Seq<Vec<F>>,
    ys_after: Seq<Vec<F>>,
    xs_copy_after: Seq<Vec<F>>,
    ys_copy_after: Seq<Vec<F>>,
    sponge: SpongeState,
    v: nat,
)
    requires
        xs.len() == ys.len(),
        covers(vals2(xs), v),
        covers(vals2(ys), v),
        vals2(xs_copy) == vals2(xs),
        vals2(ys_copy) == vals2(ys),
        ({
            let (fs, gs) = (heads(vals2(xs), v), heads(vals2(ys), v));
            let rs = challenges::<F>(sponge, prover_messages::<F>(fs, gs, sponge, v));
            folded_in_place(xs, xs_after, rs, v) && folded_in_place(ys, ys_after, rs, v)
        }),
        ({
            let (fs, gs) = (heads(vals2(ys_copy), v), heads(vals2(xs_copy), v));
            let rs = challenges::<F>(sponge, prover_messages::<F>(fs, gs, sponge, v));
            folded_in_place(ys_copy, ys_copy_after, rs, v) && folded_in_place(
                xs_copy,
                xs_copy_after,
                rs,
                v,
            )
        }),
    ensures
        ({
            let (fs, gs) = (heads(vals2(xs), v), heads(vals2(ys), v));
            let (other_fs, other_gs) = (heads(vals2(ys_copy), v), heads(vals2(xs_copy), v));
            let messages = prover_messages::<F>(fs, gs, sponge, v);
            let other_messages = prover_messages::<F>(other_fs, other_gs, sponge, v);
            &&& total(fs, gs) == total(other_fs, other_gs)
            &&& messages == other_messages
            &&& challenges::<F>(sponge, messages) == challenges::<F>(sponge, other_messages)
            &&& sponge_after::<F>(sponge, messages) == sponge_after::<F>(sponge, other_messages)
        }),
        vals2(xs_after) == vals2(xs_copy_after),
        vals2(ys_after) == vals2(ys_copy_after),
{
    let (fs, gs) = (heads(vals2(xs), v), heads(vals2(ys), v));
    lemma_heads(vals2(xs), v);
    lemma_heads(vals2(ys), v);
    lemma_exchange::<F>(fs, gs, sponge, v, v);
    let rs = challenges::<F>(sponge, prover_messages::<F>(fs, gs, sponge, v));
    lemma_one_fold(xs, xs_after, xs_copy, xs_copy_after, rs, v);
    lemma_one_fold(ys, ys_after, ys_copy, ys_copy_after, rs, v);
}

/// What `f` makes of every element.
pub open spec fn mapped<A>(a: Seq<A>, f: spec_fn(A) -> Seq<int>) -> Seq<Seq<int>> {
    Seq::new(a.len(), |s: int| f(a[s]))
}

/// The order of the pairs of tables does not matter in a round.
proof fn lemma_permuted_round<A>(
    a: Seq<A>,
    b: Seq<A>,
    f: spec_fn(A) -> Seq<int>,
    g: spec_fn(A) -> Seq<int>,
    rs: Seq<int>,
    t: int,
)
    requires
        a.to_multiset() == b.to_multiset(),
    ensures
        total(mapped(a, f), mapped(a, g)) == total(mapped(b, f), mapped(b, g)),
        round_poly(bind_each(mapped(a, f), rs), bind_each(mapped(a, g), rs), t) == round_poly(
            bind_each(mapped(b, f), rs),
            bind_each(mapped(b, g), rs),
            t,
        ),
{
    let whole = |x: A| inner(f(x), g(x));
    let bound = |x: A| inner(bind(bind_all(f(x), rs), t), bind(bind_all(g(x), rs), t));
    lemma_sum_permuted(a, b, whole);
    lemma_sum_permuted(a, b, bound);
    let (fa, ga) = (mapped(a, f), mapped(a, g));
    let (fb, gb) = (mapped(b, f), mapped(b, g));
    lemma_sum_eq(a.len(), |s: int| whole(a[s]), |s: int| inner(fa[s], ga[s]));
    lemma_sum_eq(b.len(), |s: int| whole(b[s]), |s: int| inner(fb[s], gb[s]));
    let (bfa, bga) = (bind_each(fa, rs), bind_each(ga, rs));
    let (bfb, bgb) = (bind_each(fb, rs), bind_each(gb, rs));
    lemma_sum_eq(
        a.len(),
        |s: int| bound(a[s]),
        |s: int| inner(bind(bfa[s], t), bind(bga[s], t)),
    );
    lemma_sum_eq(
        b.len(),
        |s: int| bound(b[s]),
        |s: int| inner(bind(bfb[s], t), bind(bgb[s], t)),
    );
}

/// The order of the pairs of tables does not matter for the messages.
proof fn lemma_permuted_messages<F: Absorb, A>(
    a: Seq<A>,
    b: Seq<A>,
    f: spec_fn(A) -> Seq<int>,
    g: spec_fn(A) -> Seq<int>,
    sponge: SpongeState,
    n: nat,
)
    requires
        a.to_multiset() == b.to_multiset(),
    ensures
        prover_messages::<F>(mapped(a, f), mapped(a, g), sponge, n) == prover_messages::<F>(
            mapped(b, f),
            mapped(b, g),
            sponge,
            n,
        ),
    decreases n,
{
    if n > 0 {
        let k = (n - 1) as nat;
        lemma_permuted_messages::<F, A>(a, b, f, g, sponge, k);
        let rs = challenges::<F>(
            sponge,
            prover_messages::<F>(mapped(a, f), mapped(a, g), sponge, k),
        );
        lemma_permuted_round(a, b, f, g, rs, 0);
        lemma_permuted_round(a, b, f, g, rs, 1);
        lemma_permuted_round(a, b, f, g, rs, 2);
    }
}

/// The order of the products does not matter: the claim and the messages of an honest prover are
/// the same.
pub proof fn lemma_order_of_products<F: Absorb>(
    terms: Seq<Term>,
    other: Seq<Term>,
    mix: Mix,
    k: nat,
    sponge: SpongeState,
)
    requires
        terms.to_multiset() == other.to_multiset(),
    ensures
        honest_claim(terms, mix, k, F::modulus()) == honest_claim(other, mix, k, F::modulus()),
        honest_messages::<F>(terms, mix, k, sponge) == honest_messages::<F>(other, mix, k, sponge),
{
    let f = |t: Term| phase_1_table(t.f1, t.f3, mix, k);
    let g = |t: Term| t.f2;
    assert(mapped(terms, f) =~= phase_1_fs(terms, mix, k));
    assert(mapped(other, f) =~= phase_1_fs(other, mix, k));
    assert(mapped(terms, g) =~= phase_1_gs(terms));
    assert(mapped(other, g) =~= phase_1_gs(other));
    lemma_permuted_round(terms, other, f, g, Seq::empty(), 0);
    lemma_permuted_messages::<F, Term>(terms, other, f, g, sponge, k);
    let first = first_messages::<F>(terms, mix, k, sponge);
    let u = challenges::<F>(sponge, first);
    let f_2 = |t: Term| phase_2_table(t.f1, u, mix, k);
    let g_2 = |t: Term| scaled(t.f3, mle(t.f2, u));
    assert(mapped(terms, f_2) =~= phase_2_fs(terms, mix, u, k));
    assert(mapped(other, f_2) =~= phase_2_fs(other, mix, u, k));
    assert(mapped(terms, g_2) =~= phase_2_gs(terms, u));
    assert(mapped(other, g_2) =~= phase_2_gs(other, u));
    let middle = sponge_after::<F>(sponge, first);
    lemma_permuted_messages::<F, Term>(terms, other, f_2, g_2, middle, k);
}

/// The tables that round `i` is about when the challenges before it are those of `rs`.
pub open spec fn tables_at(
    terms: Seq<Term>,
    mix: Mix,
    k: nat,
    rs: Seq<int>,
    i: int,
) -> (Seq<Seq<int>>, Seq<Seq<int>>) {
    let u = rs.take(k as int);
    if i < k {
        (
            bind_each(phase_1_fs(terms, mix, k), rs.take(i)),
            bind_each(phase_1_gs(terms), rs.take(i)),
        )
    } else {
        (
            bind_each(phase_2_fs(terms, mix, u, k), rs.subrange(k as int, i)),
            bind_each(phase_2_gs(terms, u), rs.subrange(k as int, i)),
        )
    }
}

/// The message of round `i` is wrong, as its sum shows, but agrees at the challenge with the right
/// polynomial.
pub open spec fn wrong_but_lucky(
    terms: Seq<Term>,
    mix: Mix,
    k: nat,
    messages: Seq<Seq<int>>,
    rs: Seq<int>,
    i: int,
    p: int,
) -> bool {
    let (fs, gs) = tables_at(terms, mix, k, rs, i);
    &&& (messages[i][0] + messages[i][1]) % p != (round_poly(fs, gs, 0) + round_poly(fs, gs, 1)) % p
    &&& interpolate(messages[i], rs[i], p) == round_poly(fs, gs, rs[i]) % p
}

/// What is left of the sum before and after round `i`.
proof fn lemma_left(terms: Seq<Term>, mix: Mix, k: nat, rs: Seq<int>, i: int)
    requires
        k > 0,
        0 <= i < 2 * k,
        rs.len() == 2 * k,
        terms_shaped(terms, k),
    ensures
        ({
            let (fs, gs) = tables_at(terms, mix, k, rs, i);
            let (next_fs, next_gs) = tables_at(terms, mix, k, rs, i + 1);
            &&& total(fs, gs) == round_poly(fs, gs, 0) + round_poly(fs, gs, 1)
            &&& total(next_fs, next_gs) == round_poly(fs, gs, rs[i])
        }),
{
    let u = rs.take(k as int);
    lemma_table_sizes(terms, mix, k, u);
    let (fs_1, gs_1) = (phase_1_fs(terms, mix, k), phase_1_gs(terms));
    let (fs_2, gs_2) = (phase_2_fs(terms, mix, u, k), phase_2_gs(terms, u));
    if i < k {
        let before = rs.take(i);
        let m = (k - i) as nat;
        assert(before.len() + m == k);
        lemma_bind_each_size(fs_1, before, m);
        lemma_bind_each_size(gs_1, before, m);
        lemma_total_is_round_sum(bind_each(fs_1, before), bind_each(gs_1, before), m);
        lemma_round_poly_is_next_total(fs_1, gs_1, before, rs[i]);
        assert(before.push(rs[i]) =~= rs.take(i + 1));
        if i + 1 == k {
            lemma_phases_meet(terms, mix, k, u);
            let empty = rs.subrange(k as int, k as int);
            assert(bind_each(fs_2, empty) =~= fs_2);
            assert(bind_each(gs_2, empty) =~= gs_2);
        }
    } else {
        let before = rs.subrange(k as int, i);
        let m = (2 * k - i) as nat;
        assert(before.len() + m == k);
        lemma_bind_each_size(fs_2, before, m);
        lemma_bind_each_size(gs_2, before, m);
        lemma_total_is_round_sum(bind_each(fs_2, before), bind_each(gs_2, before), m);
        lemma_round_poly_is_next_total(fs_2, gs_2, before, rs[i]);
        assert(before.push(rs[i]) =~= rs.subrange(k as int, i + 1));
    }
}

/// If the verifier expects something wrong before round `i`, and something right after the last
/// round, then it was misled in a round from `i` on.
proof fn lemma_misled<F: Absorb>(
    terms: Seq<Term>,
    mix: Mix,
    k: nat,
    claim: int,
    messages: Seq<Seq<int>>,
    sponge: SpongeState,
    i: int,
)
    requires
        k > 0,
        0 <= i <= 2 * k,
        terms_shaped(terms, k),
        messages.len() == 2 * k,
        rounds_ok::<F>(claim, messages, sponge, 2 * k as int),
        ({
            let rs = challenges::<F>(sponge, messages);
            let (fs, gs) = tables_at(terms, mix, k, rs, i);
            let (last_fs, last_gs) = tables_at(terms, mix, k, rs, 2 * k as int);
            &&& expected::<F>(claim, messages, sponge, i) != total(fs, gs) % F::modulus()
            &&& expected::<F>(claim, messages, sponge, 2 * k as int) == total(last_fs, last_gs)
                % F::modulus()
        }),
    ensures
        exists|j: int|
            i <= j < 2 * k && #[trigger] wrong_but_lucky(
                terms,
                mix,
                k,
                messages,
                challenges::<F>(sponge, messages),
                j,
                F::modulus(),
            ),
    decreases 2 * k - i,
{
    let p = F::modulus();
    let rs = challenges::<F>(sponge, messages);
    if i < 2 * k {
        lemma_left(terms, mix, k, rs, i);
        assert(round_ok::<F>(claim, messages, sponge, i));
        if !wrong_but_lucky(terms, mix, k, messages, rs, i, p) {
            lemma_misled::<F>(terms, mix, k, claim, messages, sponge, i + 1);
        }
    }
}

/// The verifier accepts a wrong claim only if in some round it received a wrong polynomial that
/// happens to agree with the right one at the challenge. Messages after those that it reads play no
/// part.
pub proof fn lemma_soundness<F: Absorb>(
    terms: Seq<Term>,
    mix: Mix,
    k: nat,
    claim: int,
    messages: Seq<Seq<int>>,
    sponge: SpongeState,
)
    requires
        k > 0,
        terms_shaped(terms, k),
        mix.g1.len() == k,
        mix.g2.len() == k,
        claim % F::modulus() != honest_claim(terms, mix, k, F::modulus()),
        ({
            let rs = challenges::<F>(sponge, messages.take(2 * k as int));
            let value = combined_value(terms, mix, rs.take(k as int), rs.skip(k as int))
                % F::modulus();
            outcome::<F>(claim, messages, sponge, 2 * k as int, value, 2 * k as int, true)
        }),
    ensures
        exists|i: int|
            0 <= i < 2 * k && #[trigger] wrong_but_lucky(
                terms,
                mix,
                k,
                messages,
                challenges::<F>(sponge, messages.take(2 * k as int)),
                i,
                F::modulus(),
            ),
{
    let p = F::modulus();
    let n = 2 * k as int;
    let used = messages.take(n);
    let rs = challenges::<F>(sponge, used);
    lemma_challenges_take::<F>(sponge, messages, n);
    assert forall|i: int| 0 <= i <= n implies expected::<F>(claim, used, sponge, i)
        == #[trigger] expected::<F>(claim, messages, sponge, i) by {
        if i > 0 {
            assert(challenges::<F>(sponge, messages)[i - 1] == rs[i - 1]);
        }
    }
    assert forall|i: int| 0 <= i < n implies #[trigger] round_ok::<F>(claim, used, sponge, i) by {
        assert(round_ok::<F>(claim, messages, sponge, i));
        assert(expected::<F>(claim, used, sponge, i) == expected::<F>(claim, messages, sponge, i));
    }
    let (u, w) = (rs.take(k as int), rs.skip(k as int));
    lemma_interpolate_constant(claim, 1, p);
    let (fs, gs) = (phase_1_fs(terms, mix, k), phase_1_gs(terms));
    assert(bind_each(fs, rs.take(0)) =~= fs);
    assert(bind_each(gs, rs.take(0)) =~= gs);
    assert(rs.subrange(k as int, 2 * k as int) =~= w);
    lemma_final_value(terms, mix, k, u, w);
    assert(expected::<F>(claim, used, sponge, n) == expected::<F>(claim, messages, sponge, n));
    lemma_misled::<F>(terms, mix, k, claim, used, sponge, 0);
    let j = choose|j: int|
        0 <= j < 2 * k && #[trigger] wrong_but_lucky(terms, mix, k, used, rs, j, p);
    assert(wrong_but_lucky(terms, mix, k, messages, rs, j, p));
}

} // verus!
