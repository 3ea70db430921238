//! Why an honest prover is believed.

use vstd::arithmetic::power2::pow2;
use vstd::prelude::*;

use crate::data_structures::Term;
use crate::field::{lemma_cong_add, lemma_cong_reduce};
use crate::interpolation::{interpolate, lemma_interpolate_constant};
use crate::multilinear::{inner, lemma_bind_all_is_mle, mle, weight};
use crate::oracles::{combined_value, mixed_value};
use crate::protocol::{
    complete, expected, first_messages, honest_claim, honest_messages, phase_1_fs, phase_1_gs,
    phase_2_fs, phase_2_gs, readable, round_ok, rounds_ok, scaled, second_messages, terms_shaped,
};
use crate::rounds::{
    all_of_size, bind_each, challenges, lemma_bind_each_size, lemma_challenges_concat,
    lemma_message_determines_round_poly, lemma_prover_messages, lemma_round_poly_is_next_total,
    lemma_total_is_round_sum, prover_messages, round_poly, sponge_after, total,
};
use crate::sponge::{Absorb, SpongeState};
use crate::sums::{lemma_sum_add, lemma_sum_eq, lemma_sum_group, lemma_sum_scale, sum};
use crate::wiring::{
    block_x, block_y, block_z, lemma_blocks, lemma_weight_blocks, phase_1_table, phase_1_term,
    phase_2_table, phase_2_term, Mix,
};

verus! {

/// The total of tables whose variables are all set.
pub proof fn lemma_total_of_bound(fs: Seq<Seq<int>>, gs: Seq<Seq<int>>, rs: Seq<int>)
    requires
        fs.len() == gs.len(),
        all_of_size(fs, rs.len()),
        all_of_size(gs, rs.len()),
    ensures
        total(bind_each(fs, rs), bind_each(gs, rs)) == sum(
            fs.len(),
            |s: int| mle(fs[s], rs) * mle(gs[s], rs),
        ),
{
    let (bf, bg) = (bind_each(fs, rs), bind_each(gs, rs));
    let a = |s: int| inner(bf[s], bg[s]);
    let b = |s: int| mle(fs[s], rs) * mle(gs[s], rs);
    assert forall|s: int| 0 <= s < fs.len() implies #[trigger] a(s) == b(s) by {
        assert(fs[s].len() == pow2(rs.len()) && gs[s].len() == pow2(rs.len()));
        lemma_bind_all_is_mle(fs[s], rs);
        lemma_bind_all_is_mle(gs[s], rs);
        let (x, y) = (bf[s], bg[s]);
        let product = |j: int| x[j] * y[j];
        reveal_with_fuel(sum, 2);
        assert(sum(1, product) == product(0));
    }
    lemma_sum_eq(fs.len(), a, b);
}

/// The value at `u` of the table of the first phase, as one sum.
proof fn lemma_phase_1_value(f1: Seq<int>, f3: Seq<int>, mix: Mix, k: nat, u: Seq<int>)
    requires
        u.len() == k,
    ensures
        mle(phase_1_table(f1, f3, mix, k), u) == sum(
            pow2(3 * k),
            |i: int| weight(block_x(i, k), u) * phase_1_term(f1, f3, mix, k, i),
        ),
{
    let n = pow2(3 * k);
    let m = pow2(k);
    let table = phase_1_table(f1, f3, mix, k);
    let group = |i: int| block_x(i, k);
    let t = |i: int| phase_1_term(f1, f3, mix, k, i);
    let c = |x: int| weight(x, u);
    assert forall|i: int| 0 <= i < n implies 0 <= #[trigger] group(i) < m by {
        lemma_blocks(i, k);
    }
    lemma_sum_group(n, m, group, t, c);
    let by_group = |x: int|
        c(x) * sum(
            n,
            |i: int|
                if group(i) == x {
                    t(i)
                } else {
                    0
                },
        );
    let plain = |x: int| table[x] * weight(x, u);
    assert forall|x: int| 0 <= x < m implies #[trigger] plain(x) == by_group(x) by {
        let members = |i: int|
            if block_x(i, k) == x {
                phase_1_term(f1, f3, mix, k, i)
            } else {
                0
            };
        lemma_sum_eq(
            n,
            members,
            |i: int|
                if group(i) == x {
                    t(i)
                } else {
                    0
                },
        );
        let (a, b) = (sum(n, members), weight(x, u));
        assert(a * b == b * a) by (nonlinear_arith);
    }
    lemma_sum_eq(m, plain, by_group);
    lemma_sum_eq(
        n,
        |i: int| c(group(i)) * t(i),
        |i: int| weight(block_x(i, k), u) * phase_1_term(f1, f3, mix, k, i),
    );
}

/// The sum of the entries of the table of the second phase with the factors `c`, as one sum.
proof fn lemma_phase_2_sum(f1: Seq<int>, mix: Mix, k: nat, u: Seq<int>, c: spec_fn(int) -> int)
    ensures
        sum(pow2(k), |y: int| phase_2_table(f1, u, mix, k)[y] * c(y)) == sum(
            pow2(3 * k),
            |i: int| c(block_y(i, k)) * phase_2_term(f1, u, mix, k, i),
        ),
{
    let n = pow2(3 * k);
    let m = pow2(k);
    let table = phase_2_table(f1, u, mix, k);
    let group = |i: int| block_y(i, k);
    let t = |i: int| phase_2_term(f1, u, mix, k, i);
    assert forall|i: int| 0 <= i < n implies 0 <= #[trigger] group(i) < m by {
        lemma_blocks(i, k);
    }
    lemma_sum_group(n, m, group, t, c);
    let by_group = |y: int|
        c(y) * sum(
            n,
            |i: int|
                if group(i) == y {
                    t(i)
                } else {
                    0
                },
        );
    let plain = |y: int| phase_2_table(f1, u, mix, k)[y] * c(y);
    assert forall|y: int| 0 <= y < m implies #[trigger] plain(y) == by_group(y) by {
        let members = |i: int|
            if block_y(i, k) == y {
                phase_2_term(f1, u, mix, k, i)
            } else {
                0
            };
        lemma_sum_eq(
            n,
            members,
            |i: int|
                if group(i) == y {
                    t(i)
                } else {
                    0
                },
        );
        let (a, b) = (sum(n, members), c(y));
        assert(a * b == b * a) by (nonlinear_arith);
    }
    lemma_sum_eq(m, plain, by_group);
    lemma_sum_eq(
        n,
        |i: int| c(group(i)) * t(i),
        |i: int| c(block_y(i, k)) * phase_2_term(f1, u, mix, k, i),
    );
}

/// The second phase starts from the value that the first phase ends with, for one product.
proof fn lemma_phases_meet_once(term: Term, mix: Mix, k: nat, u: Seq<int>)
    requires
        u.len() == k,
        term.shaped(k),
    ensures
        inner(
            phase_2_table(term.f1, u, mix, k),
            scaled(term.f3, mle(term.f2, u)),
        ) == mle(phase_1_table(term.f1, term.f3, mix, k), u) * mle(term.f2, u),
{
    let n = pow2(3 * k);
    let d = mle(term.f2, u);
    let (f1, f3) = (term.f1, term.f3);
    let c = |y: int| f3[y];
    lemma_phase_2_sum(f1, mix, k, u, c);
    lemma_phase_1_value(f1, f3, mix, k, u);
    let first = |i: int| weight(block_x(i, k), u) * phase_1_term(f1, f3, mix, k, i);
    let second = |i: int| c(block_y(i, k)) * phase_2_term(f1, u, mix, k, i);
    assert forall|i: int| 0 <= i < n implies #[trigger] first(i) == second(i) by {
        let w = mix.weight(block_z(i, k));
        let (wx, a, b) = (weight(block_x(i, k), u), f1[i], f3[block_y(i, k)]);
        assert(wx * (w * a * b) == b * (w * wx * a)) by (nonlinear_arith);
    }
    lemma_sum_eq(n, first, second);
    let table = phase_2_table(f1, u, mix, k);
    let other = scaled(f3, d);
    let plain = |y: int| table[y] * c(y);
    let product = |y: int| table[y] * other[y];
    assert forall|y: int| 0 <= y < pow2(k) implies #[trigger] product(y) == d * plain(y) by {
        let (a, b) = (table[y], f3[y]);
        assert(a * (b * d) == d * (a * b)) by (nonlinear_arith);
    }
    lemma_sum_scale(pow2(k), d, plain, product);
    let e = mle(phase_1_table(f1, f3, mix, k), u);
    lemma_sum_eq(pow2(k), plain, |y: int| phase_2_table(f1, u, mix, k)[y] * c(y));
    assert(d * e == e * d) by (nonlinear_arith);
}

/// The second phase starts from the value that the first phase ends with.
pub proof fn lemma_phases_meet(terms: Seq<Term>, mix: Mix, k: nat, u: Seq<int>)
    requires
        u.len() == k,
        terms_shaped(terms, k),
    ensures
        total(phase_2_fs(terms, mix, u, k), phase_2_gs(terms, u)) == total(
            bind_each(phase_1_fs(terms, mix, k), u),
            bind_each(phase_1_gs(terms), u),
        ),
{
    let (fs, gs) = (phase_1_fs(terms, mix, k), phase_1_gs(terms));
    let (fs_2, gs_2) = (phase_2_fs(terms, mix, u, k), phase_2_gs(terms, u));
    lemma_table_sizes(terms, mix, k, u);
    lemma_total_of_bound(fs, gs, u);
    let a = |s: int| inner(fs_2[s], gs_2[s]);
    let b = |s: int| mle(fs[s], u) * mle(gs[s], u);
    assert forall|s: int| 0 <= s < terms.len() implies #[trigger] a(s) == b(s) by {
        assert(terms[s].shaped(k));
        lemma_phases_meet_once(terms[s], mix, k, u);
    }
    lemma_sum_eq(terms.len(), a, b);
}

/// The sizes of the tables of both phases.
pub proof fn lemma_table_sizes(terms: Seq<Term>, mix: Mix, k: nat, u: Seq<int>)
    requires
        terms_shaped(terms, k),
    ensures
        all_of_size(phase_1_fs(terms, mix, k), k),
        all_of_size(phase_1_gs(terms), k),
        all_of_size(phase_2_fs(terms, mix, u, k), k),
        all_of_size(phase_2_gs(terms, u), k),
{
    assert forall|s: int| 0 <= s < terms.len() implies (#[trigger] phase_1_gs(terms)[s]).len()
        == pow2(k) by {
        assert(terms[s].shaped(k));
    }
    assert forall|s: int| 0 <= s < terms.len() implies (#[trigger] phase_2_gs(terms, u)[s]).len()
        == pow2(k) by {
        assert(terms[s].shaped(k));
    }
}

/// The value at `(x, y)` of the mixture of first factors, as one sum.
pub proof fn lemma_mixed_value(f1: Seq<int>, mix: Mix, k: nat, x: Seq<int>, y: Seq<int>)
    requires
        mix.g1.len() == k,
        mix.g2.len() == k,
        x.len() == k,
        y.len() == k,
    ensures
        mixed_value(f1, mix, x, y) == sum(
            pow2(3 * k),
            |i: int| weight(block_y(i, k), y) * phase_2_term(f1, x, mix, k, i),
        ),
{
    let n = pow2(3 * k);
    let (p1, p2) = (mix.g1 + x + y, mix.g2 + x + y);
    let t1 = |i: int| f1[i] * weight(i, p1);
    let t2 = |i: int| f1[i] * weight(i, p2);
    let s1 = |i: int| mix.alpha * t1(i);
    let s2 = |i: int| mix.beta * t2(i);
    let whole = |i: int| weight(block_y(i, k), y) * phase_2_term(f1, x, mix, k, i);
    assert forall|i: int| 0 <= i < n implies #[trigger] whole(i) == s1(i) + s2(i) by {
        lemma_weight_blocks(i, k, mix.g1, x, y);
        lemma_weight_blocks(i, k, mix.g2, x, y);
        let z = block_z(i, k);
        let (w1, w2) = (weight(z, mix.g1), weight(z, mix.g2));
        let (wx, wy, a) = (weight(block_x(i, k), x), weight(block_y(i, k), y), f1[i]);
        let (al, be) = (mix.alpha, mix.beta);
        let c = wx * wy * a;
        assert(wy * ((al * w1 + be * w2) * wx * a) == (al * w1 + be * w2) * c) by (nonlinear_arith)
            requires
                c == wx * wy * a,
        ;
        assert((al * w1 + be * w2) * c == (al * w1) * c + (be * w2) * c) by (nonlinear_arith);
        assert((al * w1) * c == al * (a * (w1 * wx * wy))) by (nonlinear_arith)
            requires
                c == wx * wy * a,
        ;
        assert((be * w2) * c == be * (a * (w2 * wx * wy))) by (nonlinear_arith)
            requires
                c == wx * wy * a,
        ;
    }
    lemma_sum_scale(n, mix.alpha, t1, s1);
    lemma_sum_scale(n, mix.beta, t2, s2);
    lemma_sum_add(n, s1, s2, whole);
    assert(p1.len() == 3 * k && p2.len() == 3 * k);
}

/// The second phase ends with the value of the summed polynomial at the final point.
pub proof fn lemma_final_value(terms: Seq<Term>, mix: Mix, k: nat, u: Seq<int>, w: Seq<int>)
    requires
        mix.g1.len() == k,
        mix.g2.len() == k,
        u.len() == k,
        w.len() == k,
        terms_shaped(terms, k),
    ensures
        total(
            bind_each(phase_2_fs(terms, mix, u, k), w),
            bind_each(phase_2_gs(terms, u), w),
        ) == combined_value(terms, mix, u, w),
{
    let (fs, gs) = (phase_2_fs(terms, mix, u, k), phase_2_gs(terms, u));
    lemma_table_sizes(terms, mix, k, u);
    lemma_total_of_bound(fs, gs, w);
    let a = |s: int| mle(fs[s], w) * mle(gs[s], w);
    let b = |s: int|
        mixed_value(terms[s].f1, mix, u, w) * mle(terms[s].f2, u) * mle(terms[s].f3, w);
    assert forall|s: int| 0 <= s < terms.len() implies #[trigger] a(s) == b(s) by {
        let (f1, f2, f3) = (terms[s].f1, terms[s].f2, terms[s].f3);
        assert(terms[s].shaped(k));
        let c = |y: int| weight(y, w);
        lemma_phase_2_sum(f1, mix, k, u, c);
        lemma_mixed_value(f1, mix, k, u, w);
        lemma_sum_eq(
            pow2(3 * k),
            |i: int| c(block_y(i, k)) * phase_2_term(f1, u, mix, k, i),
            |i: int| weight(block_y(i, k), w) * phase_2_term(f1, u, mix, k, i),
        );
        let table = fs[s];
        lemma_sum_eq(
            pow2(k),
            |y: int| phase_2_table(f1, u, mix, k)[y] * c(y),
            |y: int| table[y] * weight(y, w),
        );
        assert(mle(fs[s], w) == mixed_value(f1, mix, u, w));
        let d = mle(f2, u);
        let other = scaled(f3, d);
        let plain = |y: int| f3[y] * weight(y, w);
        let multiplied = |y: int| other[y] * weight(y, w);
        assert forall|y: int| 0 <= y < pow2(k) implies #[trigger] multiplied(y) == d * plain(y) by {
            let (p, q) = (f3[y], weight(y, w));
            assert((p * d) * q == d * (p * q)) by (nonlinear_arith);
        }
        lemma_sum_scale(pow2(k), d, plain, multiplied);
        let (m, e) = (mixed_value(f1, mix, u, w), mle(f3, w));
        assert(mle(gs[s], w) == d * e);
        assert(m * (d * e) == m * d * e) by (nonlinear_arith);
    }
    lemma_sum_eq(terms.len(), a, b);
}

/// In a phase, the message of each round adds up to what is left of the sum, and its polynomial at
/// the challenge is what is left after it.
proof fn lemma_phase<F: Absorb>(
    fs: Seq<Seq<int>>,
    gs: Seq<Seq<int>>,
    sponge: SpongeState,
    k: nat,
    i: int,
)
    requires
        0 <= i < k,
        fs.len() == gs.len(),
        all_of_size(fs, k),
        all_of_size(gs, k),
    ensures
        ({
            let messages = prover_messages::<F>(fs, gs, sponge, k);
            let rs = challenges::<F>(sponge, messages);
            let p = F::modulus();
            &&& messages.len() == k
            &&& messages[i].len() == 3
            &&& (messages[i][0] + messages[i][1]) % p == total(
                bind_each(fs, rs.take(i)),
                bind_each(gs, rs.take(i)),
            ) % p
            &&& interpolate(messages[i], rs[i], p) == total(
                bind_each(fs, rs.take(i + 1)),
                bind_each(gs, rs.take(i + 1)),
            ) % p
        }),
{
    let p = F::modulus();
    F::lemma_modulus();
    let messages = prover_messages::<F>(fs, gs, sponge, k);
    lemma_prover_messages::<F>(fs, gs, sponge, k, i);
    let rs = challenges::<F>(sponge, messages);
    let m = (k - i) as nat;
    let before = rs.take(i);
    assert(before.len() + m == k);
    lemma_bind_each_size(fs, before, m);
    lemma_bind_each_size(gs, before, m);
    let (bf, bg) = (bind_each(fs, before), bind_each(gs, before));
    lemma_total_is_round_sum(bf, bg, m);
    let (y0, y1) = (round_poly(bf, bg, 0), round_poly(bf, bg, 1));
    lemma_cong_reduce(y0, p);
    lemma_cong_reduce(y1, p);
    lemma_cong_add(y0 % p, y0, y1 % p, y1, p);
    lemma_message_determines_round_poly(bf, bg, rs[i], m, p);
    lemma_round_poly_is_next_total(fs, gs, before, rs[i]);
    assert(rs.take(i + 1) =~= before.push(rs[i]));
}

/// What is left of a sum when no variable is set.
proof fn lemma_nothing_bound(tables: Seq<Seq<int>>, rs: Seq<int>)
    ensures
        bind_each(tables, rs.take(0)) == tables,
{
    assert(bind_each(tables, rs.take(0)) =~= tables);
}

/// An honest prover sends as many messages as there are variables, each of three values.
pub proof fn lemma_honest_messages_shape<F: Absorb>(
    terms: Seq<Term>,
    mix: Mix,
    k: nat,
    sponge: SpongeState,
)
    requires
        k > 0,
        terms_shaped(terms, k),
    ensures
        honest_messages::<F>(terms, mix, k, sponge).len() == 2 * k,
        forall|i: int|
            0 <= i < 2 * k ==> (#[trigger] honest_messages::<F>(terms, mix, k, sponge)[i]).len()
                == 3,
{
    let first = first_messages::<F>(terms, mix, k, sponge);
    let u = challenges::<F>(sponge, first);
    let middle = sponge_after::<F>(sponge, first);
    let second = second_messages::<F>(terms, mix, k, u, middle);
    lemma_table_sizes(terms, mix, k, u);
    lemma_phase::<F>(phase_1_fs(terms, mix, k), phase_1_gs(terms), sponge, k, 0);
    lemma_phase::<F>(phase_2_fs(terms, mix, u, k), phase_2_gs(terms, u), middle, k, 0);
    assert forall|i: int| 0 <= i < 2 * k implies (#[trigger] honest_messages::<F>(
        terms,
        mix,
        k,
        sponge,
    )[i]).len() == 3 by {
        if i < k {
            lemma_phase::<F>(phase_1_fs(terms, mix, k), phase_1_gs(terms), sponge, k, i);
        } else {
            lemma_phase::<F>(phase_2_fs(terms, mix, u, k), phase_2_gs(terms, u), middle, k, i - k);
        }
    }
}

/// What the verifier expects from an honest prover before round `i`: what is left of the sum.
spec fn left<F: Absorb>(terms: Seq<Term>, mix: Mix, k: nat, sponge: SpongeState, i: int) -> int {
    let first = first_messages::<F>(terms, mix, k, sponge);
    let u = challenges::<F>(sponge, first);
    let middle = sponge_after::<F>(sponge, first);
    let w = challenges::<F>(middle, second_messages::<F>(terms, mix, k, u, middle));
    if i <= k {
        total(
            bind_each(phase_1_fs(terms, mix, k), u.take(i)),
            bind_each(phase_1_gs(terms), u.take(i)),
        )
    } else {
        total(
            bind_each(phase_2_fs(terms, mix, u, k), w.take(i - k)),
            bind_each(phase_2_gs(terms, u), w.take(i - k)),
        )
    }
}

/// Before each round, and after the last one, the verifier expects what is left of the sum.
proof fn lemma_expected_is_left<F: Absorb>(
    terms: Seq<Term>,
    mix: Mix,
    k: nat,
    sponge: SpongeState,
    i: int,
)
    requires
        k > 0,
        0 <= i <= 2 * k,
        terms_shaped(terms, k),
    ensures
        ({
            let messages = honest_messages::<F>(terms, mix, k, sponge);
            let claim = honest_claim(terms, mix, k, F::modulus());
            &&& expected::<F>(claim, messages, sponge, i) == left::<F>(terms, mix, k, sponge, i)
                % F::modulus()
            &&& i < 2 * k ==> round_ok::<F>(claim, messages, sponge, i)
        }),
{
    let p = F::modulus();
    F::lemma_modulus();
    let messages = honest_messages::<F>(terms, mix, k, sponge);
    let claim = honest_claim(terms, mix, k, p);
    let first = first_messages::<F>(terms, mix, k, sponge);
    let u = challenges::<F>(sponge, first);
    let middle = sponge_after::<F>(sponge, first);
    let second = second_messages::<F>(terms, mix, k, u, middle);
    let w = challenges::<F>(middle, second);
    let (fs_1, gs_1) = (phase_1_fs(terms, mix, k), phase_1_gs(terms));
    let (fs_2, gs_2) = (phase_2_fs(terms, mix, u, k), phase_2_gs(terms, u));
    lemma_table_sizes(terms, mix, k, u);
    lemma_phase::<F>(fs_1, gs_1, sponge, k, 0);
    lemma_phase::<F>(fs_2, gs_2, middle, k, 0);
    lemma_challenges_concat::<F>(sponge, first, second);
    lemma_nothing_bound(fs_1, u);
    lemma_nothing_bound(gs_1, u);
    lemma_nothing_bound(fs_2, w);
    lemma_nothing_bound(gs_2, w);
    assert(u.take(k as int) =~= u);
    lemma_phases_meet(terms, mix, k, u);
    if i == 0 {
        lemma_interpolate_constant(claim, 1, p);
        lemma_cong_reduce(total(fs_1, gs_1), p);
    } else if i <= k {
        lemma_phase::<F>(fs_1, gs_1, sponge, k, i - 1);
        assert(messages[i - 1] == first[i - 1]);
    } else {
        lemma_phase::<F>(fs_2, gs_2, middle, k, i - 1 - k);
        assert(messages[i - 1] == second[i - 1 - k]);
    }
    if i < k {
        lemma_phase::<F>(fs_1, gs_1, sponge, k, i);
        assert(messages[i] == first[i]);
    } else if i < 2 * k {
        lemma_phase::<F>(fs_2, gs_2, middle, k, i - k);
        assert(messages[i] == second[i - k]);
    }
}

/// Completeness: whatever the sponge, every message of an honest prover is readable and consistent
/// with what came before it, and after the last one the verifier expects the value of the summed
/// polynomial at the challenges.
pub proof fn lemma_completeness<F: Absorb>(terms: Seq<Term>, mix: Mix, k: nat, sponge: SpongeState)
    requires
        k > 0,
        terms_shaped(terms, k),
        mix.g1.len() == k,
        mix.g2.len() == k,
    ensures
        ({
            let messages = honest_messages::<F>(terms, mix, k, sponge);
            let claim = honest_claim(terms, mix, k, F::modulus());
            let rs = challenges::<F>(sponge, messages);
            let n = 2 * k as int;
            &&& messages.len() == n
            &&& complete::<F>(claim, messages, sponge, n)
            &&& rounds_ok::<F>(claim, messages, sponge, n)
            &&& expected::<F>(claim, messages, sponge, n) == combined_value(
                terms,
                mix,
                rs.take(k as int),
                rs.skip(k as int),
            ) % F::modulus()
        }),
{
    let p = F::modulus();
    F::lemma_modulus();
    let messages = honest_messages::<F>(terms, mix, k, sponge);
    let claim = honest_claim(terms, mix, k, p);
    let n = 2 * k as int;
    let rs = challenges::<F>(sponge, messages);
    let first = first_messages::<F>(terms, mix, k, sponge);
    let u = challenges::<F>(sponge, first);
    let middle = sponge_after::<F>(sponge, first);
    let second = second_messages::<F>(terms, mix, k, u, middle);
    let w = challenges::<F>(middle, second);
    lemma_honest_messages_shape::<F>(terms, mix, k, sponge);
    assert forall|i: int| 0 <= i < n implies #[trigger] round_ok::<F>(
        claim,
        messages,
        sponge,
        i,
    ) by {
        lemma_expected_is_left::<F>(terms, mix, k, sponge, i);
    }
    assert forall|i: int| 0 <= i < n implies #[trigger] readable::<F>(
        claim,
        messages,
        sponge,
        i,
    ) by {
        assert(messages[i].len() == 3);
    }
    lemma_expected_is_left::<F>(terms, mix, k, sponge, n);
    lemma_challenges_concat::<F>(sponge, first, second);
    lemma_table_sizes(terms, mix, k, u);
    lemma_phase::<F>(phase_1_fs(terms, mix, k), phase_1_gs(terms), sponge, k, 0);
    lemma_phase::<F>(phase_2_fs(terms, mix, u, k), phase_2_gs(terms, u), middle, k, 0);
    assert(rs.take(k as int) =~= u);
    assert(rs.skip(k as int) =~= w);
    assert(w.take(k as int) =~= w);
    lemma_final_value(terms, mix, k, u, w);
}

} // verus!
