//! The mathematics of a run of sumcheck for sums of products of two tables.

use vstd::arithmetic::power2::{lemma_pow2_unfold, pow2};
use vstd::prelude::*;

use crate::field::{cong, lemma_cong_add, lemma_cong_mul, lemma_cong_reduce};
use crate::interpolation::{interpolate, lemma_interpolate_quadratic};
use crate::multilinear::{bind, bind_all, inner, lemma_bind_all};
use crate::sponge::{Absorb, SpongeState};
use crate::sums::{
    lemma_sum_add, lemma_sum_cong, lemma_sum_eq, lemma_sum_pairs, lemma_sum_scale, sum,
};

verus! {

/// The sum over all pairs of tables and all indices of the products of the entries.
pub open spec fn total(fs: Seq<Seq<int>>, gs: Seq<Seq<int>>) -> int {
    sum(fs.len(), |s: int| inner(fs[s], gs[s]))
}

/// The round polynomial at `t`: what the total becomes when the first variable is set to `t`.
pub open spec fn round_poly(fs: Seq<Seq<int>>, gs: Seq<Seq<int>>, t: int) -> int {
    sum(fs.len(), |s: int| inner(bind(fs[s], t), bind(gs[s], t)))
}

/// The values of the round polynomial at 0, 1 and 2.
pub open spec fn round_message(fs: Seq<Seq<int>>, gs: Seq<Seq<int>>, p: int) -> Seq<int> {
    seq![round_poly(fs, gs, 0) % p, round_poly(fs, gs, 1) % p, round_poly(fs, gs, 2) % p]
}

/// All tables with their first variables set to `rs`.
pub open spec fn bind_each(tables: Seq<Seq<int>>, rs: Seq<int>) -> Seq<Seq<int>> {
    Seq::new(tables.len(), |s: int| bind_all(tables[s], rs))
}

/// All tables have `n` variables.
pub open spec fn all_of_size(tables: Seq<Seq<int>>, n: nat) -> bool {
    forall|s: int| 0 <= s < tables.len() ==> (#[trigger] tables[s]).len() == pow2(n)
}

/// The sponge after a message, and the challenge that answers the message.
pub open spec fn challenge<F: Absorb>(sponge: SpongeState, message: Seq<int>) -> (SpongeState, int) {
    let out = F::squeezed(F::absorbed(sponge, message), 1);
    (out.0, out.1[0])
}

/// The sponge after a sequence of messages.
pub open spec fn sponge_after<F: Absorb>(
    sponge: SpongeState,
    messages: Seq<Seq<int>>,
) -> SpongeState
    decreases messages.len(),
{
    if messages.len() == 0 {
        sponge
    } else {
        challenge::<F>(sponge_after::<F>(sponge, messages.drop_last()), messages.last()).0
    }
}

/// The challenges that answer a sequence of messages.
pub open spec fn challenges<F: Absorb>(sponge: SpongeState, messages: Seq<Seq<int>>) -> Seq<int> {
    Seq::new(
        messages.len(),
        |i: int| challenge::<F>(sponge_after::<F>(sponge, messages.take(i)), messages[i]).1,
    )
}

/// The first `n` messages of the prover for the given tables.
pub open spec fn prover_messages<F: Absorb>(
    fs: Seq<Seq<int>>,
    gs: Seq<Seq<int>>,
    sponge: SpongeState,
    n: nat,
) -> Seq<Seq<int>>
    decreases n,
{
    if n == 0 {
        Seq::empty()
    } else {
        let previous = prover_messages::<F>(fs, gs, sponge, (n - 1) as nat);
        let rs = challenges::<F>(sponge, previous);
        previous.push(round_message(bind_each(fs, rs), bind_each(gs, rs), F::modulus()))
    }
}

/// The challenges for one more message.
pub proof fn lemma_challenges_push<F: Absorb>(
    sponge: SpongeState,
    messages: Seq<Seq<int>>,
    message: Seq<int>,
)
    ensures
        challenges::<F>(sponge, messages.push(message)) == challenges::<F>(sponge, messages).push(
            challenge::<F>(sponge_after::<F>(sponge, messages), message).1,
        ),
        sponge_after::<F>(sponge, messages.push(message)) == challenge::<F>(
            sponge_after::<F>(sponge, messages),
            message,
        ).0,
{
    let longer = messages.push(message);
    assert(longer.drop_last() =~= messages);
    assert forall|i: int| 0 <= i < longer.len() implies #[trigger] challenges::<F>(
        sponge,
        longer,
    )[i] == challenges::<F>(sponge, messages).push(
        challenge::<F>(sponge_after::<F>(sponge, messages), message).1,
    )[i] by {
        if i < messages.len() {
            assert(longer.take(i) =~= messages.take(i));
        } else {
            assert(longer.take(i) =~= messages);
        }
    }
    assert(challenges::<F>(sponge, longer) =~= challenges::<F>(sponge, messages).push(
        challenge::<F>(sponge_after::<F>(sponge, messages), message).1,
    ));
}

/// The challenges that answer the first messages are the first challenges.
pub proof fn lemma_challenges_take<F: Absorb>(
    sponge: SpongeState,
    messages: Seq<Seq<int>>,
    n: int,
)
    requires
        0 <= n <= messages.len(),
    ensures
        challenges::<F>(sponge, messages.take(n)) == challenges::<F>(sponge, messages).take(n),
{
    assert forall|i: int| 0 <= i < n implies #[trigger] challenges::<F>(
        sponge,
        messages.take(n),
    )[i] == challenges::<F>(sponge, messages)[i] by {
        assert(messages.take(n).take(i) =~= messages.take(i));
    }
    assert(challenges::<F>(sponge, messages.take(n)) =~= challenges::<F>(sponge, messages).take(n));
}

/// The challenges for two sequences of messages, one after the other.
pub proof fn lemma_challenges_concat<F: Absorb>(
    sponge: SpongeState,
    first: Seq<Seq<int>>,
    second: Seq<Seq<int>>,
)
    ensures
        sponge_after::<F>(sponge, first + second) == sponge_after::<F>(
            sponge_after::<F>(sponge, first),
            second,
        ),
        challenges::<F>(sponge, first + second) == challenges::<F>(sponge, first) + challenges::<F>(
            sponge_after::<F>(sponge, first),
            second,
        ),
    decreases second.len(),
{
    let middle = sponge_after::<F>(sponge, first);
    if second.len() == 0 {
        assert(first + second =~= first);
        assert(challenges::<F>(sponge, first) + challenges::<F>(middle, second) =~= challenges::<F>(
            sponge,
            first,
        ));
    } else {
        let init = second.drop_last();
        lemma_challenges_concat::<F>(sponge, first, init);
        assert(first + second =~= (first + init).push(second.last()));
        assert(second =~= init.push(second.last()));
        lemma_challenges_push::<F>(sponge, first + init, second.last());
        lemma_challenges_push::<F>(middle, init, second.last());
        let r = challenge::<F>(sponge_after::<F>(middle, init), second.last()).1;
        assert(challenges::<F>(sponge, first) + challenges::<F>(middle, init).push(r) =~= (
        challenges::<F>(sponge, first) + challenges::<F>(middle, init)).push(r));
    }
}

/// There are as many messages as rounds, and earlier messages do not change.
pub proof fn lemma_prover_messages<F: Absorb>(
    fs: Seq<Seq<int>>,
    gs: Seq<Seq<int>>,
    sponge: SpongeState,
    n: nat,
    i: int,
)
    requires
        0 <= i < n,
    ensures
        prover_messages::<F>(fs, gs, sponge, n).len() == n,
        prover_messages::<F>(fs, gs, sponge, n).take(i) == prover_messages::<F>(
            fs,
            gs,
            sponge,
            i as nat,
        ),
        ({
            let messages = prover_messages::<F>(fs, gs, sponge, n);
            let rs = challenges::<F>(sponge, messages).take(i);
            messages[i] == round_message(bind_each(fs, rs), bind_each(gs, rs), F::modulus())
        }),
    decreases n,
{
    let messages = prover_messages::<F>(fs, gs, sponge, n);
    let previous = prover_messages::<F>(fs, gs, sponge, (n - 1) as nat);
    if n - 1 > 0 {
        lemma_prover_messages::<F>(fs, gs, sponge, (n - 1) as nat, 0);
    }
    if i < n - 1 {
        lemma_prover_messages::<F>(fs, gs, sponge, (n - 1) as nat, i);
        assert(messages.take(i) =~= previous.take(i));
        lemma_challenges_take::<F>(sponge, messages, i);
        lemma_challenges_take::<F>(sponge, previous, i);
    } else {
        assert(messages.take(i) =~= previous);
        lemma_challenges_take::<F>(sponge, messages, i);
    }
}

/// One more challenge sets one more variable.
pub proof fn lemma_bind_each_push(tables: Seq<Seq<int>>, rs: Seq<int>, r: int)
    ensures
        bind_each(tables, rs.push(r)) == Seq::new(
            tables.len(),
            |s: int| bind(bind_each(tables, rs)[s], r),
        ),
{
    assert(rs.push(r).drop_last() =~= rs);
    assert(bind_each(tables, rs.push(r)) =~= Seq::new(
        tables.len(),
        |s: int| bind(bind_each(tables, rs)[s], r),
    ));
}

/// Setting the first variables leaves tables of the remaining ones.
pub proof fn lemma_bind_each_size(tables: Seq<Seq<int>>, rs: Seq<int>, n: nat)
    requires
        all_of_size(tables, rs.len() + n),
    ensures
        bind_each(tables, rs).len() == tables.len(),
        all_of_size(bind_each(tables, rs), n),
{
    assert forall|s: int| 0 <= s < tables.len() implies (#[trigger] bind_each(tables, rs)[s]).len()
        == pow2(n) by {
        assert(tables[s].len() == pow2(rs.len() + n));
        lemma_bind_all(tables[s], rs, n);
    }
}

/// The total is the sum of the values at 0 and 1 of the round polynomial.
pub proof fn lemma_total_is_round_sum(fs: Seq<Seq<int>>, gs: Seq<Seq<int>>, n: nat)
    requires
        n > 0,
        fs.len() == gs.len(),
        all_of_size(fs, n),
        all_of_size(gs, n),
    ensures
        total(fs, gs) == round_poly(fs, gs, 0) + round_poly(fs, gs, 1),
{
    let m = pow2((n - 1) as nat);
    lemma_pow2_unfold(n);
    let zero = |s: int| inner(bind(fs[s], 0), bind(gs[s], 0));
    let one = |s: int| inner(bind(fs[s], 1), bind(gs[s], 1));
    let whole = |s: int| inner(fs[s], gs[s]);
    assert forall|s: int| 0 <= s < fs.len() implies #[trigger] whole(s) == zero(s) + one(s) by {
        let (f, g) = (fs[s], gs[s]);
        assert(f.len() == 2 * m && g.len() == 2 * m);
        let product = |j: int| f[j] * g[j];
        let pairs = |j: int| product(2 * j) + product(2 * j + 1);
        lemma_sum_pairs(m, product);
        let (f0, g0) = (bind(f, 0), bind(g, 0));
        let (f1, g1) = (bind(f, 1), bind(g, 1));
        let (p0, p1) = (|j: int| f0[j] * g0[j], |j: int| f1[j] * g1[j]);
        assert forall|j: int| 0 <= j < m implies #[trigger] pairs(j) == p0(j) + p1(j) by {
            assert(f0[j] == f[2 * j] * 1 + f[2 * j + 1] * 0);
            assert(g0[j] == g[2 * j] * 1 + g[2 * j + 1] * 0);
            assert(f1[j] == f[2 * j] * 0 + f[2 * j + 1] * 1);
            assert(g1[j] == g[2 * j] * 0 + g[2 * j + 1] * 1);
        }
        lemma_sum_add(m, p0, p1, pairs);
    }
    lemma_sum_add(fs.len(), zero, one, whole);
}

/// The constant coefficient of the round polynomial of one pair of tables.
pub open spec fn pair_constant(f: Seq<int>, g: Seq<int>) -> int {
    sum(f.len() / 2, |j: int| f[2 * j] * g[2 * j])
}

/// The linear coefficient of the round polynomial of one pair of tables.
pub open spec fn pair_linear(f: Seq<int>, g: Seq<int>) -> int {
    sum(
        f.len() / 2,
        |j: int| f[2 * j] * (g[2 * j + 1] - g[2 * j]) + (f[2 * j + 1] - f[2 * j]) * g[2 * j],
    )
}

/// The quadratic coefficient of the round polynomial of one pair of tables.
pub open spec fn pair_quadratic(f: Seq<int>, g: Seq<int>) -> int {
    sum(f.len() / 2, |j: int| (f[2 * j + 1] - f[2 * j]) * (g[2 * j + 1] - g[2 * j]))
}

/// The product of the values at `t` of two lines.
proof fn lemma_product_of_lines(f0: int, f1: int, g0: int, g1: int, t: int)
    ensures
        (f0 * (1 - t) + f1 * t) * (g0 * (1 - t) + g1 * t) == f0 * g0 + t * (f0 * (g1 - g0) + (f1
            - f0) * g0) + (t * t) * ((f1 - f0) * (g1 - g0)),
{
    let (d, e) = (f1 - f0, g1 - g0);
    assert(f0 * (1 - t) + f1 * t == f0 + d * t) by (nonlinear_arith)
        requires
            d == f1 - f0,
    ;
    assert(g0 * (1 - t) + g1 * t == g0 + e * t) by (nonlinear_arith)
        requires
            e == g1 - g0,
    ;
    assert((f0 + d * t) * (g0 + e * t) == f0 * g0 + f0 * (e * t) + (d * t) * g0 + (d * t) * (e
        * t)) by (nonlinear_arith);
    assert((d * t) * (e * t) == (t * t) * (d * e)) by (nonlinear_arith);
    assert(f0 * (e * t) + (d * t) * g0 == t * (f0 * e + d * g0)) by (nonlinear_arith);
}

proof fn lemma_pair_is_quadratic(f: Seq<int>, g: Seq<int>, t: int)
    requires
        f.len() == g.len(),
    ensures
        inner(bind(f, t), bind(g, t)) == pair_constant(f, g) + t * pair_linear(f, g) + (t * t)
            * pair_quadratic(f, g),
{
    let m = f.len() / 2;
    let c0 = |j: int| f[2 * j] * g[2 * j];
    let c1 = |j: int|
        f[2 * j] * (g[2 * j + 1] - g[2 * j]) + (f[2 * j + 1] - f[2 * j]) * g[2 * j];
    let c2 = |j: int| (f[2 * j + 1] - f[2 * j]) * (g[2 * j + 1] - g[2 * j]);
    let d1 = |j: int| t * c1(j);
    let d2 = |j: int| (t * t) * c2(j);
    let e = |j: int| c0(j) + d1(j);
    let (bf, bg) = (bind(f, t), bind(g, t));
    let product = |j: int| bf[j] * bg[j];
    assert forall|j: int| 0 <= j < m implies #[trigger] product(j) == e(j) + d2(j) by {
        lemma_product_of_lines(f[2 * j], f[2 * j + 1], g[2 * j], g[2 * j + 1], t);
    }
    lemma_sum_scale(m, t, c1, d1);
    lemma_sum_scale(m, t * t, c2, d2);
    lemma_sum_add(m, c0, d1, e);
    lemma_sum_add(m, e, d2, product);
}

/// The round polynomial has degree two, so that its values at 0, 1 and 2 determine it: the verifier
/// can recover its value at any challenge from the message.
pub proof fn lemma_message_determines_round_poly(
    fs: Seq<Seq<int>>,
    gs: Seq<Seq<int>>,
    r: int,
    n: nat,
    p: int,
)
    requires
        p >= 3,
        p % 2 == 1,
        fs.len() == gs.len(),
        all_of_size(fs, n),
        all_of_size(gs, n),
    ensures
        interpolate(round_message(fs, gs, p), r, p) == round_poly(fs, gs, r) % p,
{
    let count = fs.len();
    let c0 = |s: int| pair_constant(fs[s], gs[s]);
    let c1 = |s: int| pair_linear(fs[s], gs[s]);
    let c2 = |s: int| pair_quadratic(fs[s], gs[s]);
    let (k0, k1, k2) = (sum(count, c0), sum(count, c1), sum(count, c2));
    assert forall|t: int| #[trigger] round_poly(fs, gs, t) == k0 + t * k1 + (t * t) * k2 by {
        let d1 = |s: int| t * c1(s);
        let d2 = |s: int| (t * t) * c2(s);
        let e = |s: int| c0(s) + d1(s);
        let pair = |s: int| inner(bind(fs[s], t), bind(gs[s], t));
        assert forall|s: int| 0 <= s < count implies #[trigger] pair(s) == e(s) + d2(s) by {
            lemma_pair_is_quadratic(fs[s], gs[s], t);
        }
        lemma_sum_scale(count, t, c1, d1);
        lemma_sum_scale(count, t * t, c2, d2);
        lemma_sum_add(count, c0, d1, e);
        lemma_sum_add(count, e, d2, pair);
    }
    let message = round_message(fs, gs, p);
    assert(0 * k1 == 0 && (0 * 0) * k2 == 0 && 1 * k1 == k1 && (1 * 1) * k2 == k2);
    assert(2 * k1 == 2 * k1 && (2 * 2) * k2 == 4 * k2);
    assert(round_poly(fs, gs, 0) == k0);
    assert(round_poly(fs, gs, 1) == k0 + k1 + k2);
    assert(round_poly(fs, gs, 2) == k0 + 2 * k1 + 4 * k2);
    lemma_cong_reduce(k0, p);
    lemma_cong_reduce(k0 + k1 + k2, p);
    lemma_cong_reduce(k0 + 2 * k1 + 4 * k2, p);
    lemma_interpolate_quadratic(message, k0, k1, k2, r, p);
    assert(round_poly(fs, gs, r) == k0 + r * k1 + (r * r) * k2);
    assert(r * k1 == k1 * r && (r * r) * k2 == k2 * (r * r)) by (nonlinear_arith);
}

/// Setting the first variable to the challenge turns the round polynomial at the challenge into the
/// next total.
pub proof fn lemma_round_poly_is_next_total(
    fs: Seq<Seq<int>>,
    gs: Seq<Seq<int>>,
    rs: Seq<int>,
    r: int,
)
    requires
        fs.len() == gs.len(),
    ensures
        round_poly(bind_each(fs, rs), bind_each(gs, rs), r) == total(
            bind_each(fs, rs.push(r)),
            bind_each(gs, rs.push(r)),
        ),
{
    lemma_bind_each_push(fs, rs, r);
    lemma_bind_each_push(gs, rs, r);
    let (bf, bg) = (bind_each(fs, rs), bind_each(gs, rs));
    let (nf, ng) = (bind_each(fs, rs.push(r)), bind_each(gs, rs.push(r)));
    lemma_sum_eq(
        fs.len(),
        |s: int| inner(bind(bf[s], r), bind(bg[s], r)),
        |s: int| inner(nf[s], ng[s]),
    );
}

/// Two tables that are the same modulo `p`.
pub open spec fn same_residues(a: Seq<int>, b: Seq<int>, p: int) -> bool {
    &&& a.len() == b.len()
    &&& forall|i: int| 0 <= i < a.len() ==> cong(#[trigger] a[i], b[i], p)
}

/// Two sequences of tables that are the same modulo `p`.
pub open spec fn each_same_residues(a: Seq<Seq<int>>, b: Seq<Seq<int>>, p: int) -> bool {
    &&& a.len() == b.len()
    &&& forall|s: int| 0 <= s < a.len() ==> same_residues(#[trigger] a[s], b[s], p)
}

/// Setting a variable respects residues.
pub proof fn lemma_bind_residues(a: Seq<int>, b: Seq<int>, r: int, p: int)
    requires
        p > 0,
        same_residues(a, b, p),
    ensures
        same_residues(bind(a, r), bind(b, r), p),
{
    assert forall|j: int| 0 <= j < bind(a, r).len() implies cong(
        #[trigger] bind(a, r)[j],
        bind(b, r)[j],
        p,
    ) by {
        assert(cong(a[2 * j], b[2 * j], p));
        assert(cong(a[2 * j + 1], b[2 * j + 1], p));
        lemma_cong_mul(a[2 * j], b[2 * j], 1 - r, 1 - r, p);
        lemma_cong_mul(a[2 * j + 1], b[2 * j + 1], r, r, p);
        lemma_cong_add(
            a[2 * j] * (1 - r),
            b[2 * j] * (1 - r),
            a[2 * j + 1] * r,
            b[2 * j + 1] * r,
            p,
        );
    }
}

proof fn lemma_bind_all_residues(a: Seq<int>, b: Seq<int>, rs: Seq<int>, p: int)
    requires
        p > 0,
        same_residues(a, b, p),
    ensures
        same_residues(bind_all(a, rs), bind_all(b, rs), p),
    decreases rs.len(),
{
    if rs.len() > 0 {
        lemma_bind_all_residues(a, b, rs.drop_last(), p);
        lemma_bind_residues(
            bind_all(a, rs.drop_last()),
            bind_all(b, rs.drop_last()),
            rs.last(),
            p,
        );
    }
}

/// The sum of products respects residues.
pub proof fn lemma_inner_residues(
    a: Seq<int>,
    b: Seq<int>,
    c: Seq<int>,
    d: Seq<int>,
    p: int,
)
    requires
        p > 0,
        same_residues(a, b, p),
        same_residues(c, d, p),
        a.len() == c.len(),
    ensures
        cong(inner(a, c), inner(b, d), p),
{
    let f = |j: int| a[j] * c[j];
    let g = |j: int| b[j] * d[j];
    assert forall|j: int| 0 <= j < a.len() implies cong(#[trigger] f(j), g(j), p) by {
        assert(cong(a[j], b[j], p) && cong(c[j], d[j], p));
        lemma_cong_mul(a[j], b[j], c[j], d[j], p);
    }
    lemma_sum_cong(a.len(), f, g, p);
}

/// The total respects residues.
pub proof fn lemma_total_residues(
    fs: Seq<Seq<int>>,
    hs: Seq<Seq<int>>,
    gs: Seq<Seq<int>>,
    ks: Seq<Seq<int>>,
    n: nat,
    p: int,
)
    requires
        p > 0,
        fs.len() == gs.len(),
        all_of_size(fs, n),
        all_of_size(gs, n),
        each_same_residues(fs, hs, p),
        each_same_residues(gs, ks, p),
    ensures
        cong(total(fs, gs), total(hs, ks), p),
{
    let a = |s: int| inner(fs[s], gs[s]);
    let b = |s: int| inner(hs[s], ks[s]);
    assert forall|s: int| 0 <= s < fs.len() implies cong(#[trigger] a(s), b(s), p) by {
        assert(same_residues(fs[s], hs[s], p) && same_residues(gs[s], ks[s], p));
        lemma_inner_residues(fs[s], hs[s], gs[s], ks[s], p);
    }
    lemma_sum_cong(fs.len(), a, b, p);
}

/// The round polynomial respects residues.
pub proof fn lemma_round_poly_residues(
    fs: Seq<Seq<int>>,
    hs: Seq<Seq<int>>,
    gs: Seq<Seq<int>>,
    ks: Seq<Seq<int>>,
    t: int,
    n: nat,
    p: int,
)
    requires
        p > 0,
        fs.len() == gs.len(),
        all_of_size(fs, n),
        all_of_size(gs, n),
        each_same_residues(fs, hs, p),
        each_same_residues(gs, ks, p),
    ensures
        cong(round_poly(fs, gs, t), round_poly(hs, ks, t), p),
{
    let a = |s: int| inner(bind(fs[s], t), bind(gs[s], t));
    let b = |s: int| inner(bind(hs[s], t), bind(ks[s], t));
    assert forall|s: int| 0 <= s < fs.len() implies cong(#[trigger] a(s), b(s), p) by {
        assert(same_residues(fs[s], hs[s], p) && same_residues(gs[s], ks[s], p));
        lemma_bind_residues(fs[s], hs[s], t, p);
        lemma_bind_residues(gs[s], ks[s], t, p);
        lemma_inner_residues(bind(fs[s], t), bind(hs[s], t), bind(gs[s], t), bind(ks[s], t), p);
    }
    lemma_sum_cong(fs.len(), a, b, p);
}

/// Setting the first variables of all tables respects residues.
pub proof fn lemma_bind_each_residues(
    a: Seq<Seq<int>>,
    b: Seq<Seq<int>>,
    rs: Seq<int>,
    p: int,
)
    requires
        p > 0,
        each_same_residues(a, b, p),
    ensures
        each_same_residues(bind_each(a, rs), bind_each(b, rs), p),
{
    assert forall|s: int| 0 <= s < a.len() implies same_residues(
        #[trigger] bind_each(a, rs)[s],
        bind_each(b, rs)[s],
        p,
    ) by {
        assert(same_residues(a[s], b[s], p));
        lemma_bind_all_residues(a[s], b[s], rs, p);
    }
}

/// The messages of the prover depend on the residues of the tables only.
pub proof fn lemma_prover_messages_residues<F: Absorb>(
    fs: Seq<Seq<int>>,
    hs: Seq<Seq<int>>,
    gs: Seq<Seq<int>>,
    ks: Seq<Seq<int>>,
    sponge: SpongeState,
    rounds: nat,
    n: nat,
)
    requires
        rounds <= n,
        fs.len() == gs.len(),
        all_of_size(fs, n),
        all_of_size(gs, n),
        each_same_residues(fs, hs, F::modulus()),
        each_same_residues(gs, ks, F::modulus()),
    ensures
        prover_messages::<F>(fs, gs, sponge, rounds) == prover_messages::<F>(
            hs,
            ks,
            sponge,
            rounds,
        ),
        prover_messages::<F>(fs, gs, sponge, rounds).len() == rounds,
    decreases rounds,
{
    if rounds > 0 {
        let p = F::modulus();
        F::lemma_modulus();
        let k = (rounds - 1) as nat;
        lemma_prover_messages_residues::<F>(fs, hs, gs, ks, sponge, k, n);
        let rs = challenges::<F>(sponge, prover_messages::<F>(fs, gs, sponge, k));
        let m = (n - k) as nat;
        assert(rs.len() + m == n);
        lemma_bind_each_residues(fs, hs, rs, p);
        lemma_bind_each_residues(gs, ks, rs, p);
        lemma_bind_each_size(fs, rs, m);
        lemma_bind_each_size(gs, rs, m);
        let (bf, bh) = (bind_each(fs, rs), bind_each(hs, rs));
        let (bg, bk) = (bind_each(gs, rs), bind_each(ks, rs));
        lemma_round_poly_residues(bf, bh, bg, bk, 0, m, p);
        lemma_round_poly_residues(bf, bh, bg, bk, 1, m, p);
        lemma_round_poly_residues(bf, bh, bg, bk, 2, m, p);
        assert(round_message(bf, bg, p) =~= round_message(bh, bk, p));
    }
}

} // verus!
