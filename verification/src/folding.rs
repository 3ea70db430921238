//! Setting the variables of a polynomial one after the other, in place.
//!
//! After `i` rounds the table of the polynomial in the remaining variables stands at the multiples
//! of `2^i`; the other entries are left as they were.

use vstd::arithmetic::div_mod::{lemma_fundamental_div_mod, lemma_mod_multiples_basic};
use vstd::arithmetic::power2::{
    lemma2_to64, lemma_pow2_adds, lemma_pow2_pos, lemma_pow2_unfold, pow2,
};
use vstd::prelude::*;

use crate::field::{
    cong, lemma_cong_add, lemma_cong_mul, lemma_cong_reduce, vals, vals2, PrimeField,
};
use crate::indices::{
    lemma_rev_bound, lemma_rev_concat, lemma_rev_involutive, lemma_rev_zero, rev, shifted_one,
};
use crate::multilinear::{bind, bind_all, inner, lemma_bind_all};
use crate::rounds::{all_of_size, round_message, round_poly, same_residues};
use crate::sums::{lemma_sum_eq, lemma_sum_rev, sum};

verus! {

/// Every `step`-th entry of a table.
pub open spec fn strided(t: Seq<int>, step: nat, len: nat) -> Seq<int> {
    Seq::new(len, |j: int| t[j * step])
}

/// The table after round `i`, in which the variable that then comes first is set to `r`.
pub open spec fn fold_step(t: Seq<int>, i: nat, r: int) -> Seq<int> {
    Seq::new(
        t.len(),
        |j: int|
            if j % (pow2(i) as int) == 0 {
                t[j] * (1 - r) + t[j + pow2((i - 1) as nat)] * r
            } else {
                t[j]
            },
    )
}

/// The table after one round for each of the values `rs`.
pub open spec fn folded(t: Seq<int>, rs: Seq<int>) -> Seq<int>
    decreases rs.len(),
{
    if rs.len() == 0 {
        t
    } else {
        fold_step(folded(t, rs.drop_last()), rs.len(), rs.last())
    }
}

/// The multiples of `2^i` hold the table of the polynomial in the remaining variables.
pub proof fn lemma_folded(t: Seq<int>, rs: Seq<int>, v: nat)
    requires
        t.len() == pow2(v),
        rs.len() <= v,
    ensures
        folded(t, rs).len() == t.len(),
        strided(folded(t, rs), pow2(rs.len()), pow2((v - rs.len()) as nat)) == bind_all(t, rs),
    decreases rs.len(),
{
    lemma2_to64();
    let k = rs.len();
    let m = (v - k) as nat;
    lemma_bind_all(t, rs, m);
    let lhs = strided(folded(t, rs), pow2(k), pow2(m));
    if k == 0 {
        assert(lhs =~= t);
    } else {
        let init = rs.drop_last();
        let h = (k - 1) as nat;
        lemma_folded(t, init, v);
        lemma_bind_all(t, init, m + 1);
        lemma_pow2_unfold(k);
        lemma_pow2_unfold(m + 1);
        lemma_pow2_adds(k, m);
        let x = folded(t, init);
        let b = bind_all(t, init);
        assert((v - h) as nat == m + 1);
        assert(b == strided(x, pow2(h), pow2(m + 1)));
        lemma_pow2_pos(k);
        assert forall|j: int| 0 <= j < pow2(m) implies #[trigger] lhs[j] == bind_all(t, rs)[j] by {
            lemma_mod_multiples_basic(j, pow2(k) as int);
            assert(j * pow2(k) < pow2(v)) by (nonlinear_arith)
                requires
                    j < pow2(m),
                    pow2(k) * pow2(m) == pow2(v),
                    pow2(k) > 0,
            ;
            assert(j * pow2(k) >= 0) by (nonlinear_arith)
                requires
                    j >= 0,
            ;
            assert(j * pow2(k) == (2 * j) * pow2(h)) by (nonlinear_arith)
                requires
                    pow2(k) == 2 * pow2(h),
            ;
            assert(j * pow2(k) + pow2(h) == (2 * j + 1) * pow2(h)) by (nonlinear_arith)
                requires
                    pow2(k) == 2 * pow2(h),
            ;
            assert(b[2 * j] == x[(2 * j) * pow2(h)]);
            assert(b[2 * j + 1] == x[(2 * j + 1) * pow2(h)]);
        }
        assert(lhs =~= bind_all(t, rs));
    }
}

/// The entries of the pair with index `b` in round `i`.
pub proof fn lemma_pair_indices(v: nat, i: nat, b: nat)
    requires
        1 <= i <= v,
        b < pow2((v - i) as nat),
    ensures
        ({
            let j = rev((v - i) as nat, b);
            &&& j < pow2((v - i) as nat)
            &&& rev(v, b) == j * pow2(i)
            &&& rev(v, b + pow2((v - i) as nat)) == j * pow2(i) + pow2((i - 1) as nat)
            &&& b + pow2((v - i) as nat) < pow2(v)
            &&& j * pow2(i) + pow2((i - 1) as nat) < pow2(v)
        }),
{
    let m = (v - i) as nat;
    let j = rev(m, b);
    lemma_rev_bound(m, b);
    lemma_rev_concat(m, i, b, 0);
    lemma_rev_concat(m, i, b, 1);
    lemma_rev_zero(i);
    lemma_rev_zero((i - 1) as nat);
    assert(pow2(m) * 0 == 0 && pow2(m) * 1 == pow2(m));
    assert(1nat * pow2((i - 1) as nat) == pow2((i - 1) as nat)) by (nonlinear_arith);
    assert(rev(i, 1) == pow2((i - 1) as nat)) by {
        assert(1nat / 2 == 0 && 1nat % 2 == 1);
    }
    assert(m + i == v);
    lemma_rev_bound(v, b);
    lemma_rev_bound(v, b + pow2(m));
    lemma_pow2_adds(m, i);
    lemma_pow2_unfold(i);
    lemma_pow2_pos((i - 1) as nat);
    assert(pow2(m) * 2 <= pow2(m) * pow2(i)) by (nonlinear_arith)
        requires
            pow2(i) >= 2,
    ;
}

/// `table` holds the bit reversals of its indices.
pub open spec fn reverses(table: Seq<usize>, v: nat) -> bool {
    &&& table.len() == pow2(v)
    &&& forall|i: int| 0 <= i < table.len() ==> #[trigger] table[i] == rev(v, i as nat)
}

/// The entry that the pair with index `c` is folded into, where `m` variables remain after round
/// `i`.
pub open spec fn slot(m: nat, i: nat, c: int) -> int {
    (rev(m, c as nat) * pow2(i)) as int
}

/// The part of a table that holds a polynomial in `v` variables; what follows is not used.
pub open spec fn head(t: Seq<int>, v: nat) -> Seq<int> {
    t.take(pow2(v) as int)
}

/// The parts of all tables that hold polynomials in `v` variables.
pub open spec fn heads(tables: Seq<Seq<int>>, v: nat) -> Seq<Seq<int>> {
    Seq::new(tables.len(), |s: int| head(tables[s], v))
}

/// All tables have room for a polynomial in `v` variables.
pub open spec fn covers(tables: Seq<Seq<int>>, v: nat) -> bool {
    forall|s: int| 0 <= s < tables.len() ==> pow2(v) <= (#[trigger] tables[s]).len()
}

/// The sizes of the used parts, and tables of which every entry is used.
pub proof fn lemma_heads(tables: Seq<Seq<int>>, v: nat)
    ensures
        covers(tables, v) ==> all_of_size(heads(tables, v), v),
        all_of_size(tables, v) ==> covers(tables, v) && heads(tables, v) == tables,
{
    if covers(tables, v) {
        assert forall|s: int| 0 <= s < tables.len() implies (#[trigger] heads(tables, v)[s]).len()
            == pow2(v) by {
            assert(pow2(v) <= tables[s].len());
        }
    }
    if all_of_size(tables, v) {
        assert forall|s: int| 0 <= s < tables.len() implies #[trigger] heads(tables, v)[s]
            == tables[s] by {
            assert(tables[s].len() == pow2(v));
            assert(head(tables[s], v) =~= tables[s]);
        }
        assert(heads(tables, v) =~= tables);
    }
}

/// Sets to `r` the variable that comes first in round `i`, in the used part of the table.
pub fn fold_in_place<F: PrimeField>(
    table: &mut Vec<F>,
    le_indices: &Vec<usize>,
    v: usize,
    i: usize,
    r: F,
)
    requires
        1 <= i <= v < usize::BITS,
        reverses(le_indices@, v as nat),
        pow2(v as nat) <= old(table)@.len(),
    ensures
        final(table)@.len() == old(table)@.len(),
        forall|j: int|
            0 <= j < pow2(v as nat) ==> (#[trigger] final(table)@[j]).val() == fold_step(
                head(vals(old(table)@), v as nat),
                i as nat,
                r.val(),
            )[j] % F::modulus(),
        forall|j: int|
            0 <= j < final(table)@.len() && (j >= pow2(v as nat) || j % (pow2(i as nat) as int) != 0)
                ==> #[trigger] final(table)@[j] == old(table)@[j],
        forall|j: int|
            0 <= j < pow2(v as nat) && j % (pow2(i as nat) as int) == 0 ==> (
            #[trigger] final(table)@[j]).val() == (old(table)@[j].val() * (1 - r.val()) + old(
                table,
            )@[j + pow2((i - 1) as nat)].val() * r.val()) % F::modulus(),
{
    let half = shifted_one(v - i);
    let complement = F::one().sub(r);
    let ghost p = F::modulus();
    let ghost before = table@;
    let ghost m = (v - i) as nat;
    let ghost next = fold_step(head(vals(before), v as nat), i as nat, r.val());
    proof {
        F::lemma_modulus();
        lemma_cong_reduce(1 - r.val(), p);
        lemma_pow2_pos(i as nat);
    }
    for b in 0..half
        invariant
            1 <= i <= v < usize::BITS,
            m == v - i,
            p == F::modulus(),
            p >= 3,
            half == pow2(m),
            reverses(le_indices@, v as nat),
            before == old(table)@,
            pow2(v as nat) <= before.len(),
            table@.len() == before.len(),
            next == fold_step(head(vals(before), v as nat), i as nat, r.val()),
            pow2(i as nat) > 0,
            complement.val() == (1 - r.val()) % p,
            cong(complement.val(), 1 - r.val(), p),
            forall|c: int|
                0 <= c < b ==> (#[trigger] table@[slot(m, i as nat, c)]).val()
                    == next[slot(m, i as nat, c)] % p,
            forall|j: int|
                #![trigger table@[j]]
                0 <= j < before.len() && (forall|c: int|
                    0 <= c < b ==> #[trigger] slot(m, i as nat, c) != j) ==> table@[j]
                    == before[j],
    {
        proof {
            lemma_pair_indices(v as nat, i as nat, b as nat);
            vstd::bits::lemma_usize_pow2_no_overflow(v as nat);
        }
        let low = le_indices[b];
        let high = le_indices[b + half];
        let ghost j = rev(m, b as nat);
        let ghost step = pow2(i as nat);
        proof {
            lemma_rev_involutive(m, b as nat);
            assert forall|c: int| 0 <= c < b implies #[trigger] slot(m, i as nat, c) != j * step by {
                lemma_pow2_pos(i as nat);
                lemma_rev_involutive(m, c as nat);
                let other = rev(m, c as nat);
                assert(other != j);
                assert(other * step != j * step) by (nonlinear_arith)
                    requires
                        other != j,
                        step > 0,
                ;
            }
            assert forall|c: int| 0 <= c < b implies #[trigger] slot(m, i as nat, c) != high by {
                lemma_pow2_unfold(i as nat);
                lemma_pow2_pos((i - 1) as nat);
                let other = rev(m, c as nat);
                let q = pow2((i - 1) as nat);
                assert(other * step != j * step + q) by (nonlinear_arith)
                    requires
                        step == 2 * q,
                        q > 0,
                ;
            }
            assert(table@[low as int] == before[low as int]);
            assert(table@[high as int] == before[high as int]);
        }
        let kept = table[low].mul(complement);
        let moved = table[high].mul(r);
        let ghost current = table@;
        table.set(low, kept.add(moved));
        proof {
            let (x, y) = (before[low as int].val(), before[high as int].val());
            lemma_mod_multiples_basic(j as int, step as int);
            lemma_cong_mul(x, x, complement.val(), 1 - r.val(), p);
            lemma_cong_reduce(x * complement.val(), p);
            lemma_cong_reduce(y * r.val(), p);
            lemma_cong_add(kept.val(), x * (1 - r.val()), moved.val(), y * r.val(), p);
            assert(next[low as int] == x * (1 - r.val()) + y * r.val());
            assert forall|c: int| 0 <= c < b + 1 implies (#[trigger] table@[slot(
                m,
                i as nat,
                c,
            )]).val() == next[slot(m, i as nat, c)] % p by {
                if c < b {
                    lemma_pair_indices(v as nat, i as nat, c as nat);
                    assert(slot(m, i as nat, c) != j * step);
                    assert(current[slot(m, i as nat, c)].val() == next[slot(m, i as nat, c)] % p);
                }
            }
            assert forall|k: int|
                #![trigger table@[k]]
                0 <= k < before.len() && (forall|c: int|
                    0 <= c < b + 1 ==> #[trigger] slot(m, i as nat, c) != k) implies table@[k]
                == before[k] by {
                assert(slot(m, i as nat, b as int) != k);
                assert(forall|c: int| 0 <= c < b ==> #[trigger] slot(m, i as nat, c) != k);
                assert(current[k] == before[k]);
            }
        }
    }
    proof {
        assert forall|k: int|
            0 <= k < table@.len() && (k >= pow2(v as nat) || k % (pow2(i as nat) as int)
                != 0) implies #[trigger] table@[k] == before[k] by {
            assert forall|c: int| 0 <= c < half implies #[trigger] slot(m, i as nat, c) != k by {
                lemma_pair_indices(v as nat, i as nat, c as nat);
                lemma_mod_multiples_basic(rev(m, c as nat) as int, pow2(i as nat) as int);
            }
        }
        assert forall|k: int| 0 <= k < pow2(v as nat) implies (#[trigger] table@[k]).val()
            == next[k] % p by {
            let step = pow2(i as nat);
            if k % (step as int) == 0 {
                let j = (k / (step as int)) as nat;
                lemma_fundamental_div_mod(k, step as int);
                lemma_pow2_adds(m, i as nat);
                assert(k / (step as int) >= 0) by (nonlinear_arith)
                    requires
                        k >= 0,
                        step > 0,
                ;
                assert(step * j == j * step) by (nonlinear_arith);
                assert(j < pow2(m)) by (nonlinear_arith)
                    requires
                        j * step < pow2(m) * step,
                        step > 0,
                ;
                lemma_rev_involutive(m, j);
                lemma_rev_bound(m, j);
                let c = rev(m, j) as int;
                assert(table@[slot(m, i as nat, c)].val() == next[slot(m, i as nat, c)] % p);
            } else {
                assert(table@[k] == before[k]);
                before[k].lemma_val();
                vstd::arithmetic::div_mod::lemma_small_mod(before[k].val() as nat, p as nat);
            }
        }
        assert forall|k: int|
            0 <= k < pow2(v as nat) && k % (pow2(i as nat) as int) == 0 implies (
        #[trigger] table@[k]).val() == (before[k].val() * (1 - r.val()) + before[k + pow2(
            (i - 1) as nat,
        )].val() * r.val()) % p by {
            lemma_fold_step_entry(vals(before), i as nat, r.val(), v as nat, k);
        }
    }
}

/// An entry that takes part in round `i` becomes what the line through it and through the entry
/// `2^(i - 1)` further on takes at `r`.
pub proof fn lemma_fold_step_entry(t: Seq<int>, i: nat, r: int, v: nat, j: int)
    requires
        1 <= i <= v,
        pow2(v) <= t.len(),
        0 <= j < pow2(v),
        j % (pow2(i) as int) == 0,
    ensures
        j + pow2((i - 1) as nat) < pow2(v),
        fold_step(head(t, v), i, r)[j] == t[j] * (1 - r) + t[j + pow2((i - 1) as nat)] * r,
{
    let step = pow2(i) as int;
    let h = pow2((i - 1) as nat) as int;
    lemma_pow2_adds((v - i) as nat, i);
    lemma_pow2_unfold(i);
    lemma_pow2_pos((i - 1) as nat);
    lemma_fundamental_div_mod(j, step);
    let (q, m) = (j / step, pow2((v - i) as nat) as int);
    assert(j + h < m * step) by (nonlinear_arith)
        requires
            j == step * q,
            j < m * step,
            step == 2 * h,
            h > 0,
    ;
}

/// One round respects residues.
pub proof fn lemma_fold_step_residues(a: Seq<int>, b: Seq<int>, i: nat, r: int, v: nat, p: int)
    requires
        p > 0,
        1 <= i <= v,
        a.len() == pow2(v),
        same_residues(a, b, p),
    ensures
        same_residues(fold_step(a, i, r), fold_step(b, i, r), p),
{
    let (x, y) = (fold_step(a, i, r), fold_step(b, i, r));
    assert forall|j: int| 0 <= j < x.len() implies cong(#[trigger] x[j], y[j], p) by {
        assert(cong(a[j], b[j], p));
        let step = pow2(i) as int;
        let h = pow2((i - 1) as nat) as int;
        if j % step == 0 {
            // A multiple of 2^i is followed by at least 2^i - 1 more entries.
            lemma_pow2_adds((v - i) as nat, i);
            lemma_pow2_unfold(i);
            lemma_pow2_pos((i - 1) as nat);
            lemma_fundamental_div_mod(j, step);
            let (q, m) = (j / step, pow2((v - i) as nat) as int);
            assert(j + h < m * step) by (nonlinear_arith)
                requires
                    j == step * q,
                    j < m * step,
                    step == 2 * h,
                    h > 0,
            ;
            assert(cong(a[j + h], b[j + h], p));
            lemma_cong_mul(a[j], b[j], 1 - r, 1 - r, p);
            lemma_cong_mul(a[j + h], b[j + h], r, r, p);
            lemma_cong_add(a[j] * (1 - r), b[j] * (1 - r), a[j + h] * r, b[j + h] * r, p);
        }
    }
}

/// The part of a table that holds the polynomial in the remaining variables, before round `i`.
pub open spec fn live(t: Seq<int>, v: nat, i: nat) -> Seq<int> {
    strided(t, pow2((i - 1) as nat), pow2((v - i + 1) as nat))
}

/// The contributions of one pair of tables to the values at 0, 1 and 2 of the polynomial of round
/// `i`.
fn pair_round_values<F: PrimeField>(
    a_f: &Vec<F>,
    a_g: &Vec<F>,
    le_indices: &Vec<usize>,
    v: usize,
    i: usize,
) -> (r: (F, F, F))
    requires
        1 <= i <= v < usize::BITS,
        reverses(le_indices@, v as nat),
        pow2(v as nat) <= a_f@.len(),
        pow2(v as nat) <= a_g@.len(),
    ensures
        ({
            let (f, g) = (
                live(head(vals(a_f@), v as nat), v as nat, i as nat),
                live(head(vals(a_g@), v as nat), v as nat, i as nat),
            );
            &&& r.0.val() == inner(bind(f, 0), bind(g, 0)) % F::modulus()
            &&& r.1.val() == inner(bind(f, 1), bind(g, 1)) % F::modulus()
            &&& r.2.val() == inner(bind(f, 2), bind(g, 2)) % F::modulus()
        }),
{
    let half = shifted_one(v - i);
    let two = F::from_u64(2);
    let mut at_0 = F::zero();
    let mut at_1 = F::zero();
    let mut at_2 = F::zero();
    let ghost p = F::modulus();
    let ghost m = (v - i) as nat;
    let ghost f = live(head(vals(a_f@), v as nat), v as nat, i as nat);
    let ghost g = live(head(vals(a_g@), v as nat), v as nat, i as nat);
    let ghost term_0 = |j: int| bind(f, 0)[j] * bind(g, 0)[j];
    let ghost term_1 = |j: int| bind(f, 1)[j] * bind(g, 1)[j];
    let ghost term_2 = |j: int| bind(f, 2)[j] * bind(g, 2)[j];
    let ghost rev_0 = |c: int| term_0(rev(m, c as nat) as int);
    let ghost rev_1 = |c: int| term_1(rev(m, c as nat) as int);
    let ghost rev_2 = |c: int| term_2(rev(m, c as nat) as int);
    proof {
        F::lemma_modulus();
        vstd::arithmetic::div_mod::lemma_small_mod(0, p as nat);
        vstd::arithmetic::div_mod::lemma_small_mod(2, p as nat);
        vstd::bits::lemma_usize_pow2_no_overflow(v as nat);
        assert((v - i + 1) as nat == m + 1);
        lemma_pow2_unfold(m + 1);
        assert(bind(f, 0).len() == pow2(m));
    }
    for b in 0..half
        invariant
            1 <= i <= v < usize::BITS,
            m == v - i,
            p == F::modulus(),
            p >= 3,
            two.val() == 2,
            half == pow2(m),
            pow2(v as nat) <= usize::MAX,
            reverses(le_indices@, v as nat),
            pow2(v as nat) <= a_f@.len(),
            pow2(v as nat) <= a_g@.len(),
            f == live(head(vals(a_f@), v as nat), v as nat, i as nat),
            g == live(head(vals(a_g@), v as nat), v as nat, i as nat),
            f.len() == 2 * half,
            g.len() == 2 * half,
            term_0 == (|j: int| bind(f, 0)[j] * bind(g, 0)[j]),
            term_1 == (|j: int| bind(f, 1)[j] * bind(g, 1)[j]),
            term_2 == (|j: int| bind(f, 2)[j] * bind(g, 2)[j]),
            rev_0 == (|c: int| term_0(rev(m, c as nat) as int)),
            rev_1 == (|c: int| term_1(rev(m, c as nat) as int)),
            rev_2 == (|c: int| term_2(rev(m, c as nat) as int)),
            at_0.val() == sum(b as nat, rev_0) % p,
            at_1.val() == sum(b as nat, rev_1) % p,
            at_2.val() == sum(b as nat, rev_2) % p,
    {
        proof {
            lemma_pair_indices(v as nat, i as nat, b as nat);
        }
        let (low, high) = (le_indices[b], le_indices[b + half]);
        let (f_0, f_1) = (a_f[low], a_f[high]);
        let f_2 = f_0.neg().add(f_1.mul(two));
        let (g_0, g_1) = (a_g[low], a_g[high]);
        let g_2 = g_0.neg().add(g_1.mul(two));
        let (p_0, p_1, p_2) = (f_0.mul(g_0), f_1.mul(g_1), f_2.mul(g_2));
        let ghost (old_0, old_1, old_2) = (at_0.val(), at_1.val(), at_2.val());
        at_0 = at_0.add(p_0);
        at_1 = at_1.add(p_1);
        at_2 = at_2.add(p_2);
        proof {
            let j = rev(m, b as nat) as int;
            let (h, step) = (pow2((i - 1) as nat), pow2(i as nat));
            lemma_pow2_unfold(i as nat);
            assert(j * step == (2 * j) * h) by (nonlinear_arith)
                requires
                    step == 2 * h,
            ;
            assert(j * step + h == (2 * j + 1) * h) by (nonlinear_arith)
                requires
                    step == 2 * h,
            ;
            let (x0, x1) = (f_0.val(), f_1.val());
            let (y0, y1) = (g_0.val(), g_1.val());
            assert(f[2 * j] == x0 && f[2 * j + 1] == x1);
            assert(g[2 * j] == y0 && g[2 * j + 1] == y1);
            lemma_second_value(x0, x1, p);
            lemma_second_value(y0, y1, p);
            assert(bind(f, 0)[j] == x0 && bind(g, 0)[j] == y0);
            assert(bind(f, 1)[j] == x1 && bind(g, 1)[j] == y1);
            assert(bind(f, 2)[j] == 2 * x1 - x0 && bind(g, 2)[j] == 2 * y1 - y0);
            lemma_cong_mul(f_2.val(), 2 * x1 - x0, g_2.val(), 2 * y1 - y0, p);
            lemma_cong_reduce(x0 * y0, p);
            lemma_cong_reduce(x1 * y1, p);
            lemma_cong_reduce(f_2.val() * g_2.val(), p);
            lemma_cong_reduce(sum(b as nat, rev_0), p);
            lemma_cong_reduce(sum(b as nat, rev_1), p);
            lemma_cong_reduce(sum(b as nat, rev_2), p);
            lemma_cong_add(old_0, sum(b as nat, rev_0), p_0.val(), rev_0(b as int), p);
            lemma_cong_add(old_1, sum(b as nat, rev_1), p_1.val(), rev_1(b as int), p);
            lemma_cong_add(old_2, sum(b as nat, rev_2), p_2.val(), rev_2(b as int), p);
        }
    }
    proof {
        lemma_sum_rev(m, term_0);
        lemma_sum_rev(m, term_1);
        lemma_sum_rev(m, term_2);
    }
    (at_0, at_1, at_2)
}

/// The value at 2 of the line with the values `x0` and `x1` at 0 and 1.
proof fn lemma_second_value(x0: int, x1: int, p: int)
    requires
        p >= 3,
    ensures
        cong(((-x0) % p + (x1 * 2) % p) % p, 2 * x1 - x0, p),
{
    lemma_cong_reduce(-x0, p);
    lemma_cong_reduce(x1 * 2, p);
    lemma_cong_add((-x0) % p, -x0, (x1 * 2) % p, x1 * 2, p);
    lemma_cong_reduce((-x0) % p + (x1 * 2) % p, p);
}

/// The parts of all tables that hold the polynomials in the remaining variables, before round `i`.
pub open spec fn live_each(tables: Seq<Seq<int>>, v: nat, i: nat) -> Seq<Seq<int>> {
    Seq::new(tables.len(), |s: int| live(tables[s], v, i))
}

/// The values at 0, 1 and 2 of the polynomial of round `i`.
pub fn round_values<F: PrimeField>(
    a_fs: &Vec<Vec<F>>,
    a_gs: &Vec<Vec<F>>,
    le_indices: &Vec<usize>,
    v: usize,
    i: usize,
) -> (r: Vec<F>)
    requires
        1 <= i <= v < usize::BITS,
        reverses(le_indices@, v as nat),
        a_fs@.len() == a_gs@.len(),
        covers(vals2(a_fs@), v as nat),
        covers(vals2(a_gs@), v as nat),
    ensures
        vals(r@) == round_message(
            live_each(heads(vals2(a_fs@), v as nat), v as nat, i as nat),
            live_each(heads(vals2(a_gs@), v as nat), v as nat, i as nat),
            F::modulus(),
        ),
        r@.len() == 3,
        forall|t: int|
            0 <= t < 3 ==> (#[trigger] r@[t]).val() == sum(
                a_fs@.len(),
                |s: int|
                    sum(
                        pow2((v - i) as nat),
                        |j: int|
                            (a_fs@[s]@[(2 * j) * pow2((i - 1) as nat)].val() * (1 - t)
                                + a_fs@[s]@[(2 * j + 1) * pow2((i - 1) as nat)].val() * t) * (
                            a_gs@[s]@[(2 * j) * pow2((i - 1) as nat)].val() * (1 - t)
                                + a_gs@[s]@[(2 * j + 1) * pow2((i - 1) as nat)].val() * t),
                    ),
            ) % F::modulus(),
{
    let mut at_0 = F::zero();
    let mut at_1 = F::zero();
    let mut at_2 = F::zero();
    let ghost p = F::modulus();
    let ghost fs = live_each(heads(vals2(a_fs@), v as nat), v as nat, i as nat);
    let ghost gs = live_each(heads(vals2(a_gs@), v as nat), v as nat, i as nat);
    let ghost term_0 = |s: int| inner(bind(fs[s], 0), bind(gs[s], 0));
    let ghost term_1 = |s: int| inner(bind(fs[s], 1), bind(gs[s], 1));
    let ghost term_2 = |s: int| inner(bind(fs[s], 2), bind(gs[s], 2));
    proof {
        F::lemma_modulus();
        vstd::arithmetic::div_mod::lemma_small_mod(0, p as nat);
    }
    for s in 0..a_fs.len()
        invariant
            1 <= i <= v < usize::BITS,
            p == F::modulus(),
            p >= 3,
            reverses(le_indices@, v as nat),
            a_fs@.len() == a_gs@.len(),
            covers(vals2(a_fs@), v as nat),
            covers(vals2(a_gs@), v as nat),
            fs == live_each(heads(vals2(a_fs@), v as nat), v as nat, i as nat),
            gs == live_each(heads(vals2(a_gs@), v as nat), v as nat, i as nat),
            term_0 == (|s: int| inner(bind(fs[s], 0), bind(gs[s], 0))),
            term_1 == (|s: int| inner(bind(fs[s], 1), bind(gs[s], 1))),
            term_2 == (|s: int| inner(bind(fs[s], 2), bind(gs[s], 2))),
            at_0.val() == sum(s as nat, term_0) % p,
            at_1.val() == sum(s as nat, term_1) % p,
            at_2.val() == sum(s as nat, term_2) % p,
    {
        proof {
            assert(pow2(v as nat) <= vals2(a_fs@)[s as int].len());
            assert(pow2(v as nat) <= vals2(a_gs@)[s as int].len());
        }
        let (p_0, p_1, p_2) = pair_round_values(&a_fs[s], &a_gs[s], le_indices, v, i);
        let ghost (old_0, old_1, old_2) = (at_0.val(), at_1.val(), at_2.val());
        at_0 = at_0.add(p_0);
        at_1 = at_1.add(p_1);
        at_2 = at_2.add(p_2);
        proof {
            let n = s as nat;
            let k = s as int;
            lemma_cong_reduce(sum(n, term_0), p);
            lemma_cong_reduce(sum(n, term_1), p);
            lemma_cong_reduce(sum(n, term_2), p);
            lemma_cong_reduce(term_0(k), p);
            lemma_cong_reduce(term_1(k), p);
            lemma_cong_reduce(term_2(k), p);
            lemma_cong_add(old_0, sum(n, term_0), p_0.val(), term_0(k), p);
            lemma_cong_add(old_1, sum(n, term_1), p_1.val(), term_1(k), p);
            lemma_cong_add(old_2, sum(n, term_2), p_2.val(), term_2(k), p);
        }
    }
    let mut r: Vec<F> = Vec::new();
    r.push(at_0);
    r.push(at_1);
    r.push(at_2);
    assert(vals(r@) =~= round_message(fs, gs, p));
    proof {
        lemma_round_in_full(a_fs@, a_gs@, v as nat, i as nat, 0);
        lemma_round_in_full(a_fs@, a_gs@, v as nat, i as nat, 1);
        lemma_round_in_full(a_fs@, a_gs@, v as nat, i as nat, 2);
    }
    r
}

/// The polynomial of round `i` at `t`, in terms of the entries that take part in the round: those
/// at the multiples of `2^(i - 1)`, two by two, each pair with the line through it at `t`.
pub proof fn lemma_round_in_full<F: PrimeField>(
    a_fs: Seq<Vec<F>>,
    a_gs: Seq<Vec<F>>,
    v: nat,
    i: nat,
    t: int,
)
    requires
        1 <= i <= v,
        a_fs.len() == a_gs.len(),
        covers(vals2(a_fs), v),
        covers(vals2(a_gs), v),
    ensures
        round_poly(live_each(heads(vals2(a_fs), v), v, i), live_each(heads(vals2(a_gs), v), v, i), t)
            == sum(
            a_fs.len(),
            |s: int|
                sum(
                    pow2((v - i) as nat),
                    |j: int|
                        (a_fs[s]@[(2 * j) * pow2((i - 1) as nat)].val() * (1 - t)
                            + a_fs[s]@[(2 * j + 1) * pow2((i - 1) as nat)].val() * t) * (
                        a_gs[s]@[(2 * j) * pow2((i - 1) as nat)].val() * (1 - t)
                            + a_gs[s]@[(2 * j + 1) * pow2((i - 1) as nat)].val() * t),
                ),
        ),
{
    let (fs, gs) = (
        live_each(heads(vals2(a_fs), v), v, i),
        live_each(heads(vals2(a_gs), v), v, i),
    );
    let m = (v - i) as nat;
    let h = pow2((i - 1) as nat) as int;
    lemma_pow2_unfold(m + 1);
    lemma_pow2_adds(m + 1, (i - 1) as nat);
    lemma_pow2_pos((i - 1) as nat);
    let lhs = |s: int| inner(bind(fs[s], t), bind(gs[s], t));
    let rhs = |s: int|
        sum(
            pow2((v - i) as nat),
            |j: int|
                (a_fs[s]@[(2 * j) * pow2((i - 1) as nat)].val() * (1 - t) + a_fs[s]@[(2 * j + 1)
                    * pow2((i - 1) as nat)].val() * t) * (a_gs[s]@[(2 * j) * pow2(
                    (i - 1) as nat,
                )].val() * (1 - t) + a_gs[s]@[(2 * j + 1) * pow2((i - 1) as nat)].val() * t),
        );
    assert forall|s: int| 0 <= s < a_fs.len() implies #[trigger] lhs(s) == rhs(s) by {
        assert(pow2(v) <= vals2(a_fs)[s].len());
        assert(pow2(v) <= vals2(a_gs)[s].len());
        assert((v - i + 1) as nat == m + 1);
        assert forall|j: int| 0 <= j < pow2(m) implies 0 <= #[trigger] ((2 * j) * h) < pow2(v)
            && 0 <= (2 * j + 1) * h < pow2(v) by {
            let whole = pow2(m + 1) as int;
            assert(0 <= (2 * j) * h && (2 * j + 1) * h < whole * h && (2 * j) * h <= (2 * j + 1)
                * h) by (nonlinear_arith)
                requires
                    0 <= j,
                    2 * j + 1 < whole,
                    h > 0,
            ;
        }
        let a = |j: int| bind(fs[s], t)[j] * bind(gs[s], t)[j];
        let b = |j: int|
            (a_fs[s]@[(2 * j) * pow2((i - 1) as nat)].val() * (1 - t) + a_fs[s]@[(2 * j + 1) * pow2(
                (i - 1) as nat,
            )].val() * t) * (a_gs[s]@[(2 * j) * pow2((i - 1) as nat)].val() * (1 - t)
                + a_gs[s]@[(2 * j + 1) * pow2((i - 1) as nat)].val() * t);
        assert forall|j: int| 0 <= j < pow2(m) implies #[trigger] a(j) == b(j) by {
            assert(0 <= (2 * j) * h < pow2(v));
            assert(fs[s][2 * j] == a_fs[s]@[(2 * j) * h].val());
            assert(fs[s][2 * j + 1] == a_fs[s]@[(2 * j + 1) * h].val());
            assert(gs[s][2 * j] == a_gs[s]@[(2 * j) * h].val());
            assert(gs[s][2 * j + 1] == a_gs[s]@[(2 * j + 1) * h].val());
        }
        lemma_sum_eq(pow2(m), a, b);
        assert(bind(fs[s], t).len() == pow2(m));
    }
    lemma_sum_eq(a_fs.len(), lhs, rhs);
}

/// Sets to `r`, in the used parts of all tables, the variable that comes first in round `i`.
pub fn fold_all<F: PrimeField>(
    tables: &mut Vec<Vec<F>>,
    le_indices: &Vec<usize>,
    v: usize,
    i: usize,
    r: F,
)
    requires
        1 <= i <= v < usize::BITS,
        reverses(le_indices@, v as nat),
        covers(vals2(old(tables)@), v as nat),
    ensures
        final(tables)@.len() == old(tables)@.len(),
        forall|s: int|
            0 <= s < final(tables)@.len() ==> (#[trigger] final(tables)@[s])@.len() == old(
                tables,
            )@[s]@.len(),
        covers(vals2(final(tables)@), v as nat),
        forall|s: int, j: int|
            0 <= s < final(tables)@.len() && 0 <= j < pow2(v as nat) ==> #[trigger] vals2(
                final(tables)@,
            )[s][j] == fold_step(head(vals2(old(tables)@)[s], v as nat), i as nat, r.val())[j]
                % F::modulus(),
        forall|s: int, j: int|
            0 <= s < final(tables)@.len() && 0 <= j < final(tables)@[s]@.len() && (j >= pow2(
                v as nat,
            ) || j % 2 == 1) ==> #[trigger] final(tables)@[s]@[j] == old(tables)@[s]@[j],
        forall|s: int, j: int|
            0 <= s < final(tables)@.len() && 0 <= j < pow2(v as nat) && j % (pow2(i as nat) as int)
                == 0 ==> (#[trigger] final(tables)@[s]@[j]).val() == (old(tables)@[s]@[j].val() * (1
                - r.val()) + old(tables)@[s]@[j + pow2((i - 1) as nat)].val() * r.val())
                % F::modulus(),
{
    let ghost before = tables@;
    let count = tables.len();
    for s in 0..count
        invariant
            count == before.len(),
            1 <= i <= v < usize::BITS,
            reverses(le_indices@, v as nat),
            before == old(tables)@,
            covers(vals2(before), v as nat),
            tables@.len() == before.len(),
            forall|k: int| s <= k < before.len() ==> #[trigger] tables@[k] == before[k],
            forall|k: int|
                0 <= k < before.len() ==> (#[trigger] tables@[k])@.len() == before[k]@.len(),
            forall|k: int, j: int|
                0 <= k < s && 0 <= j < pow2(v as nat) ==> (#[trigger] tables@[k]@[j]).val()
                    == fold_step(head(vals(before[k]@), v as nat), i as nat, r.val())[j]
                    % F::modulus(),
            forall|k: int, j: int|
                0 <= k < before.len() && 0 <= j < before[k]@.len() && (j >= pow2(v as nat) || j % 2
                    == 1) ==> #[trigger] tables@[k]@[j] == before[k]@[j],
    {
        proof {
            assert(pow2(v as nat) <= vals2(before)[s as int].len());
            assert(tables@[s as int] == before[s as int]);
            assert forall|j: int| j % 2 == 1 implies #[trigger] (j % (pow2(i as nat) as int))
                != 0 by {
                lemma_odd_is_no_multiple(j, i as nat);
            }
        }
        fold_in_place(&mut tables[s], le_indices, v, i, r);
    }
    proof {
        assert forall|s: int| 0 <= s < tables@.len() implies pow2(v as nat) <= (#[trigger] vals2(
            tables@,
        )[s]).len() by {
            assert(tables@[s]@.len() == before[s]@.len());
            assert(pow2(v as nat) <= vals2(before)[s].len());
        }
        assert forall|s: int, j: int|
            0 <= s < tables@.len() && 0 <= j < pow2(v as nat) implies #[trigger] vals2(
            tables@,
        )[s][j] == fold_step(head(vals2(before)[s], v as nat), i as nat, r.val())[j]
            % F::modulus() by {
            assert(tables@[s]@.len() == before[s]@.len());
            assert(pow2(v as nat) <= vals2(before)[s].len());
            assert(tables@[s]@[j].val() == fold_step(
                head(vals(before[s]@), v as nat),
                i as nat,
                r.val(),
            )[j] % F::modulus());
        }
        assert forall|s: int, j: int|
            0 <= s < tables@.len() && 0 <= j < pow2(v as nat) && j % (pow2(i as nat) as int)
                == 0 implies (#[trigger] tables@[s]@[j]).val() == (before[s]@[j].val() * (1
            - r.val()) + before[s]@[j + pow2((i - 1) as nat)].val() * r.val()) % F::modulus() by {
            assert(pow2(v as nat) <= vals2(before)[s].len());
            lemma_fold_step_entry(vals(before[s]@), i as nat, r.val(), v as nat, j);
        }
    }
}

/// An odd number is no multiple of a larger power of two.
proof fn lemma_odd_is_no_multiple(j: int, i: nat)
    requires
        i >= 1,
        j % 2 == 1,
    ensures
        j % (pow2(i) as int) != 0,
{
    let h = pow2((i - 1) as nat) as int;
    lemma_pow2_unfold(i);
    lemma_pow2_pos((i - 1) as nat);
    lemma_fundamental_div_mod(j, 2 * h);
    let q = j / (2 * h);
    assert((2 * h) * q == 2 * (h * q)) by (nonlinear_arith);
}

} // verus!
