//! What the models of the library's values are: sums, indices, weights, interpolation, and the
//! tables and states that values stand for.

use vstd::arithmetic::div_mod::{
    lemma_div_denominator, lemma_fundamental_div_mod, lemma_fundamental_div_mod_converse,
};
use vstd::arithmetic::power2::{
    lemma2_to64, lemma_pow2_adds, lemma_pow2_pos, lemma_pow2_unfold, pow2,
};
use vstd::prelude::*;

use crate::data_structures::{
    DenseMultilinearExtension, GKRVerifierSumOfProducts, SparseMultilinearExtension, SumOfProducts,
};
use crate::field::{cong, lemma_cong_mul, lemma_cong_reduce, vals, vals2, PrimeField};
use crate::folding::{folded, heads, lemma_folded, strided};
use crate::fr::{fr_modulus, limbs_value, poseidon_absorbed, poseidon_squeezed, Fr};
use crate::indices::rev;
use crate::interpolation::{basis, interpolate, inv, invertible};
use crate::laws::{corner, lemma_mle_at_corner};
use crate::meaning::lemma_corner_len;
use crate::multilinear::{bind_all, inner, lemma_bind_all, lemma_bind_all_is_mle, mle};
use crate::proving::folded_in_place;
use crate::rounds::{
    all_of_size, bind_each, challenges, lemma_prover_messages, lemma_round_poly_is_next_total,
    prover_messages,
};
use crate::sponge::{Absorb, PoseidonSponge, SpongeState};
use crate::sums::{lemma_sum_cong, lemma_sum_eq, sum};
use crate::tables::{is_weight_table, lemma_be_weight_push};
use crate::transcript::SumcheckProof;

verus! {

/// A sum of no terms is zero, and one more term is added to the sum.
pub proof fn lemma_sum_step(n: nat, f: spec_fn(int) -> int)
    ensures
        sum(0, f) == 0,
        sum(n + 1, f) == sum(n, f) + f(n as int),
{
}

/// Bit `j` of the reversal of `n` bits is bit `n - 1 - j`.
pub proof fn lemma_rev_bits(n: nat, i: nat, j: nat)
    requires
        j < n,
    ensures
        (rev(n, i) / pow2(j)) % 2 == (i / pow2((n - 1 - j) as nat)) % 2,
    decreases n,
{
    lemma2_to64();
    let m = (n - 1) as nat;
    crate::indices::lemma_rev_bound(m, i / 2);
    let (low, c) = (rev(m, i / 2) as int, (i % 2) as int);
    let whole = rev(n, i) as int;
    lemma_pow2_pos(j);
    if j == m {
        assert(whole == c * pow2(m) + low);
        lemma_fundamental_div_mod_converse(whole, pow2(m) as int, c, low);
        assert((n - 1 - j) as nat == 0 && pow2(0) == 1);
        assert(i / 1 == i);
    } else {
        lemma_rev_bits(m, i / 2, j);
        let d = (m - j) as nat;
        let e = (d - 1) as nat;
        lemma_pow2_adds(d, j);
        lemma_pow2_unfold(d);
        let (pj, pd, pe) = (pow2(j) as int, pow2(d) as int, pow2(e) as int);
        let q = low / pj;
        lemma_fundamental_div_mod(low, pj);
        assert(c * (pd * pj) + (pj * q + low % pj) == (c * pd + q) * pj + low % pj)
            by (nonlinear_arith);
        lemma_fundamental_div_mod_converse(whole, pj, c * pd + q, low % pj);
        assert(c * pd == 2 * (c * pe)) by (nonlinear_arith)
            requires
                pd == 2 * pe,
        ;
        assert((2 * (c * pe) + q) % 2 == q % 2);
        let k = (m - 1 - j) as nat;
        lemma_pow2_unfold(k + 1);
        lemma_pow2_pos(k);
        lemma_div_denominator(i as int, 2, pow2(k) as int);
        assert((n - 1 - j) as nat == k + 1);
        assert((i / 2) / pow2(k) == i / pow2(k + 1));
    }
}

/// The representatives of a sequence, element by element.
pub proof fn lemma_vals<F: PrimeField>(s: Seq<F>, i: int)
    requires
        0 <= i < s.len(),
    ensures
        vals(s).len() == s.len(),
        vals(s)[i] == s[i].val(),
{
}

/// The representatives of a sequence of vectors, element by element.
pub proof fn lemma_vals2<F: PrimeField>(s: Seq<Vec<F>>, i: int, j: int)
    requires
        0 <= i < s.len(),
        0 <= j < s[i]@.len(),
    ensures
        vals2(s).len() == s.len(),
        vals2(s)[i].len() == s[i]@.len(),
        vals2(s)[i][j] == s[i]@[j].val(),
{
}

/// What a dense polynomial stands for: its values, by index.
pub proof fn lemma_dense_view<F: PrimeField>(f: DenseMultilinearExtension<F>, i: int)
    requires
        0 <= i < f.evaluations@.len(),
    ensures
        f@.len() == f.evaluations@.len(),
        f@[i] == f.evaluations@[i].val(),
{
}

/// What a sparse polynomial stands for: its values, by index, and zero where there is none.
pub proof fn lemma_sparse_view<F: PrimeField>(f: SparseMultilinearExtension<F>, i: usize)
    requires
        i < pow2(f.num_vars as nat),
    ensures
        f@.len() == pow2(f.num_vars as nat),
        f.evaluations@.contains_key(i) ==> f@[i as int] == f.evaluations@[i].val(),
        !f.evaluations@.contains_key(i) ==> f@[i as int] == 0,
{
}

/// What a sum of products stands for: the tables of its factors.
pub proof fn lemma_sum_of_products_view<F: PrimeField>(sum: SumOfProducts<F>, s: int)
    requires
        0 <= s < sum.terms@.len(),
    ensures
        sum@.len() == sum.terms@.len(),
        sum@[s].f1 == sum.terms@[s].0@,
        sum@[s].f2 == sum.terms@[s].1@,
        sum@[s].f3 == sum.terms@[s].2@,
{
}

/// What a sum of reduced products stands for.
pub proof fn lemma_reduced_sum_view<F: PrimeField>(sum: GKRVerifierSumOfProducts<F>, s: int)
    requires
        0 <= s < sum.terms@.len(),
    ensures
        sum@.len() == sum.terms@.len(),
        sum@[s].f1 == sum.terms@[s].0@,
        sum@[s].w_u == sum.terms@[s].1.val(),
        sum@[s].w_v == sum.terms@[s].2.val(),
{
}

/// What a proof stands for: the representatives of its messages and of its claim.
pub proof fn lemma_proof_view<F: PrimeField>(proof: SumcheckProof<F>, i: int, j: int)
    requires
        0 <= i < proof.values@.len(),
        0 <= j < proof.values@[i]@.len(),
    ensures
        proof.messages().len() == proof.values@.len(),
        proof.messages()[i].len() == proof.values@[i]@.len(),
        proof.messages()[i][j] == proof.values@[i]@[j].val(),
        proof.claim is Some ==> proof.claim_val() == Some(proof.claim->0.val()),
        proof.claim is None ==> proof.claim_val() is None,
{
}

/// What a sponge stands for: its parameters, its state and its mode.
pub proof fn lemma_sponge_view<F: PrimeField>(sponge: PoseidonSponge<F>)
    ensures
        sponge@.full_rounds == sponge.parameters.full_rounds,
        sponge@.partial_rounds == sponge.parameters.partial_rounds,
        sponge@.alpha == sponge.parameters.alpha,
        sponge@.ark == vals2(sponge.parameters.ark@),
        sponge@.mds == vals2(sponge.parameters.mds@),
        sponge@.rate == sponge.parameters.rate,
        sponge@.capacity == sponge.parameters.capacity,
        sponge@.state == vals(sponge.state@),
        sponge@.mode == sponge.mode,
{
}

/// Over the scalar field of BLS12-381 the sponge is that of `ark_crypto_primitives`, whatever it
/// holds and whatever it is given.
pub proof fn lemma_fr_sponge(sponge: SpongeState, elements: Seq<int>, n: nat)
    ensures
        Fr::absorbed(sponge, elements) == poseidon_absorbed(sponge, elements),
        Fr::squeezed(sponge, n) == poseidon_squeezed(sponge, n),
{
}

/// What four limbs denote: a number to the base `2^64`, least significant limb first.
pub proof fn lemma_limbs_value(limbs: Seq<u64>)
    requires
        limbs.len() == 4,
    ensures
        limbs_value(limbs) == limbs[0] + limbs[1] * pow2(64) + limbs[2] * pow2(128) + limbs[3]
            * pow2(192),
{
    lemma2_to64();
    lemma_pow2_adds(64, 64);
    lemma_pow2_adds(128, 64);
    let w = pow2(64) as int;
    let (b, c, d) = (limbs[1] as int, limbs[2] as int, limbs[3] as int);
    assert(w * (b + w * (c + w * d)) == b * w + c * (w * w) + d * ((w * w) * w))
        by (nonlinear_arith);
}

/// The order of the groups of BLS12-381 is `x^4 - x^2 + 1`, where `x` is the parameter of the curve
/// without its sign.
pub proof fn lemma_fr_modulus(x: int)
    requires
        x == 0xd201000000010000,
    ensures
        fr_modulus() == (x * x) * (x * x) - x * x + 1,
        Fr::modulus() == fr_modulus(),
{
    assert((x * x) * (x * x) - x * x + 1 == fr_modulus()) by (nonlinear_arith)
        requires
            x == 0xd201000000010000,
    ;
}

/// A table of weights holds one for the empty point. One more coordinate `r` splits each entry into
/// the entry times `1 - r`, and the entry times `r`.
pub proof fn lemma_weight_table<F: PrimeField>(
    empty: Seq<F>,
    table: Seq<F>,
    longer: Seq<F>,
    point: Seq<int>,
    r: int,
    b: int,
)
    requires
        is_weight_table(empty, Seq::empty()),
        is_weight_table(table, point),
        is_weight_table(longer, point.push(r)),
        0 <= b < table.len(),
    ensures
        empty.len() == 1,
        empty[0].val() == 1,
        longer.len() == 2 * table.len(),
        longer[2 * b].val() == (table[b].val() * (1 - r)) % F::modulus(),
        longer[2 * b + 1].val() == (table[b].val() * r) % F::modulus(),
{
    let p = F::modulus();
    F::lemma_modulus();
    lemma2_to64();
    lemma_pow2_unfold(point.len() + 1);
    vstd::arithmetic::div_mod::lemma_small_mod(1, p as nat);
    lemma_be_weight_push(b, 0, point, r);
    lemma_be_weight_push(b, 1, point, r);
    let w = crate::tables::be_weight(b, point);
    lemma_cong_reduce(w, p);
    lemma_cong_mul(w % p, w, 1 - r, 1 - r, p);
    lemma_cong_mul(w % p, w, r, r, p);
    assert(empty[0].val() == crate::tables::be_weight(0, Seq::empty()) % p);
    assert(2 * b + 0 == 2 * b);
}

/// Setting variables in two goes.
proof fn lemma_bind_all_concat(t: Seq<int>, a: Seq<int>, b: Seq<int>)
    ensures
        bind_all(t, a + b) == bind_all(bind_all(t, a), b),
    decreases b.len(),
{
    if b.len() == 0 {
        assert(a + b =~= a);
    } else {
        assert((a + b).drop_last() =~= a + b.drop_last());
        lemma_bind_all_concat(t, a, b.drop_last());
    }
}

/// An entry of the table that is left when the first variables are set: the value at the point that
/// these and the corner of the entry make up.
pub proof fn lemma_bound_entry(t: Seq<int>, rs: Seq<int>, m: nat, c: int)
    requires
        t.len() == pow2(rs.len() + m),
        0 <= c < pow2(m),
    ensures
        bind_all(t, rs).len() == pow2(m),
        bind_all(t, rs)[c] == mle(t, rs + corner(c, m)),
{
    lemma_corner_len(c, m);
    lemma_bind_all(t, rs, m);
    let rest = bind_all(t, rs);
    lemma_bind_all_concat(t, rs, corner(c, m));
    lemma_bind_all_is_mle(t, rs + corner(c, m));
    lemma_bind_all_is_mle(rest, corner(c, m));
    lemma_mle_at_corner(rest, c, m);
}

/// What in-place folding leaves at every index. An index is an odd number times `2^a`, or, if it
/// takes part in every round, any number times `2^a`, where `a` is the number of rounds in which it
/// takes part: it holds the value at the challenges of these rounds and the corner that is left of
/// the index.
pub proof fn lemma_folded_entry(t: Seq<int>, rs: Seq<int>, v: nat, a: nat, c: int)
    requires
        t.len() == pow2(v),
        a <= rs.len() <= v,
        0 <= c < pow2((v - a) as nat),
        a == rs.len() || c % 2 == 1,
    ensures
        0 <= c * pow2(a) < pow2(v),
        folded(t, rs)[c * pow2(a)] == mle(t, rs.take(a as int) + corner(c, (v - a) as nat)),
    decreases rs.len(),
{
    let m = (v - a) as nat;
    lemma_pow2_adds(a, m);
    lemma_pow2_pos(a);
    let (pa, pm) = (pow2(a) as int, pow2(m) as int);
    assert(0 <= c * pa < pa * pm) by (nonlinear_arith)
        requires
            0 <= c < pm,
            pa > 0,
    ;
    lemma_folded(t, rs, v);
    if a == rs.len() {
        assert(a + m == v);
        lemma_bound_entry(t, rs, m, c);
        assert(rs.take(a as int) =~= rs);
        let s = strided(folded(t, rs), pow2(a), pow2(m));
        assert(s[c] == folded(t, rs)[c * pow2(a)]);
    } else {
        let n = rs.len();
        let d = (n - a) as nat;
        lemma_pow2_adds(a, d);
        lemma_pow2_unfold(d);
        lemma_pow2_pos((d - 1) as nat);
        lemma_pow2_pos(n);
        let j = c * pa;
        let (pn, pd, h) = (pow2(n) as int, pow2(d) as int, pow2((d - 1) as nat) as int);
        if j % pn == 0 {
            lemma_fundamental_div_mod(j, pn);
            let q = j / pn;
            assert(c == pd * q) by (nonlinear_arith)
                requires
                    c * pa == pn * q,
                    pn == pa * pd,
                    pa > 0,
            ;
            assert(pd * q == 2 * (h * q)) by (nonlinear_arith)
                requires
                    pd == 2 * h,
            ;
            assert(false);
        }
        lemma_folded(t, rs.drop_last(), v);
        lemma_folded_entry(t, rs.drop_last(), v, a, c);
        assert(rs.drop_last().take(a as int) =~= rs.take(a as int));
    }
}

/// What in-place folding of a list of tables leaves in each of them, in terms of the tables before.
pub proof fn lemma_folded_tables<F: PrimeField>(
    before: Seq<Vec<F>>,
    after: Seq<Vec<F>>,
    rs: Seq<int>,
    v: nat,
    s: int,
    a: nat,
    c: int,
)
    requires
        folded_in_place(before, after, rs, v),
        0 <= s < before.len(),
        pow2(v) <= before[s]@.len(),
        a <= rs.len() <= v,
        0 <= c < pow2((v - a) as nat),
        a == rs.len() || c % 2 == 1,
    ensures
        after.len() == before.len(),
        after[s]@.len() == before[s]@.len(),
        after[s]@[c * pow2(a)].val() == mle(
            vals(before[s]@).take(pow2(v) as int),
            rs.take(a as int) + corner(c, (v - a) as nat),
        ) % F::modulus(),
        forall|j: int|
            pow2(v) <= j < before[s]@.len() ==> #[trigger] after[s]@[j] == before[s]@[j],
        forall|j: int|
            0 <= j < before[s]@.len() && j % 2 == 1 ==> #[trigger] after[s]@[j] == before[s]@[j],
{
    let t = heads(vals2(before), v)[s];
    assert(t =~= vals(before[s]@).take(pow2(v) as int));
    lemma_folded_entry(t, rs, v, a, c);
    assert(after[s]@[c * pow2(a)].val() == folded(t, rs)[c * pow2(a)] % F::modulus());
}

/// The message of round `i` for any tables: its three values are, at `t` equal to 0, 1 and 2, the
/// sums over all pairs of tables and all corners `b` of the remaining dimensions of the products of
/// the two polynomials at the challenges so far, `t`, and `b`.
pub proof fn lemma_table_message<F: Absorb>(
    fs: Seq<Seq<int>>,
    gs: Seq<Seq<int>>,
    sponge: SpongeState,
    n: nat,
    i: int,
    t: int,
)
    requires
        fs.len() == gs.len(),
        all_of_size(fs, n),
        all_of_size(gs, n),
        0 <= i < n,
        0 <= t < 3,
    ensures
        ({
            let sent = prover_messages::<F>(fs, gs, sponge, n);
            let q = challenges::<F>(sponge, sent).take(i).push(t);
            let m = (n - i - 1) as nat;
            &&& sent.len() == n
            &&& sent[i].len() == 3
            &&& sent[i][t] == sum(
                fs.len(),
                |s: int|
                    sum(
                        pow2(m),
                        |b: int| mle(fs[s], q + corner(b, m)) * mle(gs[s], q + corner(b, m)),
                    ),
            ) % F::modulus()
        }),
{
    let sent = prover_messages::<F>(fs, gs, sponge, n);
    let before = challenges::<F>(sponge, sent).take(i);
    lemma_prover_messages::<F>(fs, gs, sponge, n, i);
    lemma_round_poly_is_next_total(fs, gs, before, t);
    let q = before.push(t);
    let m = (n - i - 1) as nat;
    let (bf, bg) = (bind_each(fs, q), bind_each(gs, q));
    let lhs = |s: int| inner(bf[s], bg[s]);
    let rhs = |s: int|
        sum(pow2(m), |b: int| mle(fs[s], q + corner(b, m)) * mle(gs[s], q + corner(b, m)));
    assert forall|s: int| 0 <= s < fs.len() implies #[trigger] lhs(s) == rhs(s) by {
        assert(fs[s].len() == pow2(n) && gs[s].len() == pow2(n));
        assert(q.len() + m == n);
        lemma_bind_all(fs[s], q, m);
        let a = |b: int| bf[s][b] * bg[s][b];
        let c = |b: int| mle(fs[s], q + corner(b, m)) * mle(gs[s], q + corner(b, m));
        assert forall|b: int| 0 <= b < pow2(m) implies #[trigger] a(b) == c(b) by {
            lemma_bound_entry(fs[s], q, m, b);
            lemma_bound_entry(gs[s], q, m, b);
        }
        lemma_sum_eq(pow2(m), a, c);
    }
    lemma_sum_eq(fs.len(), lhs, rhs);
}

/// The product over the nodes `m < bound` other than `j` of `r - m`.
pub open spec fn others(j: int, bound: nat, r: int) -> int
    decreases bound,
{
    if bound == 0 {
        1
    } else {
        others(j, (bound - 1) as nat, r) * (if bound - 1 == j {
            1
        } else {
            r - (bound - 1)
        })
    }
}

/// Lagrange's factor times the product of the differences of the nodes is the product of the
/// differences from the point.
proof fn lemma_basis_quotient(j: int, bound: nat, r: int, p: int)
    requires
        p > 0,
        forall|m: int| 0 <= m < bound && m != j ==> #[trigger] invertible(j - m, p),
    ensures
        cong(basis(j, bound, r, p) * others(j, bound, j), others(j, bound, r), p),
    decreases bound,
{
    if bound > 0 {
        let m = bound - 1;
        lemma_basis_quotient(j, m as nat, r, p);
        let (b, o, q) = (
            basis(j, m as nat, r, p),
            others(j, m as nat, j),
            others(j, m as nat, r),
        );
        if m != j {
            assert(invertible(j - m, p));
            let (d, e, i) = (j - m, r - m, inv(j - m, p));
            assert(cong(d * i, 1, p));
            lemma_cong_mul(b * o, q, e, e, p);
            lemma_cong_mul((b * o) * e, q * e, d * i, 1, p);
            assert((b * (e * i)) * (o * d) == ((b * o) * e) * (d * i)) by (nonlinear_arith);
            assert((q * e) * 1 == q * e);
        } else {
            assert(b * 1 == b && o * 1 == o && q * 1 == q);
        }
    }
}

/// Interpolation is Lagrange's: with any factors whose products with the differences of the nodes
/// are the differences from the point, the weighted values add up to it.
pub proof fn lemma_interpolate_is_lagrange(
    ys: Seq<int>,
    r: int,
    p: int,
    factor: spec_fn(int) -> int,
)
    requires
        p > 0,
        forall|j: int, m: int|
            0 <= j < ys.len() && 0 <= m < ys.len() && m != j ==> #[trigger] invertible(j - m, p),
        forall|j: int|
            0 <= j < ys.len() ==> cong(
                #[trigger] factor(j) * others(j, ys.len(), j),
                others(j, ys.len(), r),
                p,
            ),
    ensures
        interpolate(ys, r, p) == sum(ys.len(), |j: int| ys[j] * factor(j)) % p,
{
    let n = ys.len();
    let a = |j: int| ys[j] * basis(j, n, r, p);
    let b = |j: int| ys[j] * factor(j);
    assert forall|j: int| 0 <= j < n implies cong(#[trigger] a(j), b(j), p) by {
        assert forall|m: int| 0 <= m < n && m != j implies #[trigger] invertible(j - m, p) by {
            assert(invertible(j - m, p));
        }
        lemma_basis_quotient(j, n, r, p);
        let (x, y, d) = (basis(j, n, r, p), factor(j), others(j, n, j));
        assert(cong(y * d, others(j, n, r), p));
        let e = lemma_others_invertible(j, n, p);
        lemma_cong_mul(x * d, y * d, e, e, p);
        assert((x * d) * e == x * (d * e) && (y * d) * e == y * (d * e)) by (nonlinear_arith);
        lemma_cong_mul(x, x, d * e, 1, p);
        lemma_cong_mul(y, y, d * e, 1, p);
        assert(x * 1 == x && y * 1 == y);
        lemma_cong_mul(ys[j], ys[j], x, y, p);
    }
    lemma_sum_cong(n, a, b, p);
}

/// The product of the differences of the nodes has an inverse.
proof fn lemma_others_invertible(j: int, bound: nat, p: int) -> (e: int)
    requires
        p > 0,
        forall|m: int| 0 <= m < bound && m != j ==> #[trigger] invertible(j - m, p),
    ensures
        cong(others(j, bound, j) * e, 1, p),
    decreases bound,
{
    if bound == 0 {
        1
    } else {
        let m = bound - 1;
        let e = lemma_others_invertible(j, m as nat, p);
        let o = others(j, m as nat, j);
        if m == j {
            assert(o * 1 == o);
            e
        } else {
            assert(invertible(j - m, p));
            let (d, i) = (j - m, inv(j - m, p));
            lemma_cong_mul(o * e, 1, d * i, 1, p);
            assert((o * d) * (e * i) == (o * e) * (d * i)) by (nonlinear_arith);
            e * i
        }
    }
}

} // verus!
