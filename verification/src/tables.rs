//! Tables of weights, and the tables that the two phases of the prover start from.

use vstd::arithmetic::power2::{
    lemma2_to64, lemma_pow2_pos, lemma_pow2_strictly_increases, lemma_pow2_unfold, pow2,
};
use vstd::prelude::*;

use crate::data_structures::{entries, DenseMultilinearExtension, SparseMultilinearExtension};
use crate::field::{cong, lemma_cong_add, lemma_cong_mul, lemma_cong_reduce, vals, PrimeField};
use crate::folding::reverses;
use crate::indices::{
    lemma_rev_bound, lemma_rev_involutive, rev, shifted_one, to_le_indices, usize_to_zxy,
};
use crate::multilinear::{lemma_weight_concat, lemma_weight_one, weight};
use crate::sums::{lemma_sum_eq, lemma_sum_update, lemma_sum_zero, sum};
use crate::wiring::{
    block_x, block_y, block_z, lemma_blocks, lemma_rev_blocks, phase_1_table, phase_1_term,
    phase_2_table, phase_2_term, Mix,
};

verus! {

/// A table of zeros.
fn zeros<F: PrimeField>(n: usize) -> (r: Vec<F>)
    ensures
        r@.len() == n,
        forall|i: int| 0 <= i < n ==> (#[trigger] r@[i]).val() == 0,
{
    let mut r: Vec<F> = Vec::new();
    for i in 0..n
        invariant
            r@.len() == i,
            forall|j: int| 0 <= j < i ==> (#[trigger] r@[j]).val() == 0,
    {
        r.push(F::zero());
    }
    r
}

/// The entry with big-endian index `b` of the table of weights at `point`.
pub open spec fn be_weight(b: int, point: Seq<int>) -> int {
    weight(rev(point.len(), b as nat) as int, point)
}

/// The table holds the weights at `point`, by big-endian index.
pub open spec fn is_weight_table<F: PrimeField>(table: Seq<F>, point: Seq<int>) -> bool {
    &&& table.len() == pow2(point.len())
    &&& forall|b: int|
        0 <= b < table.len() ==> (#[trigger] table[b]).val() == be_weight(b, point) % F::modulus()
}

/// The table of weights for one more coordinate.
pub proof fn lemma_be_weight_push(b: int, c: int, point: Seq<int>, r: int)
    requires
        0 <= b < pow2(point.len()),
        c == 0 || c == 1,
    ensures
        be_weight(2 * b + c, point.push(r)) == be_weight(b, point) * (if c == 1 {
            r
        } else {
            1 - r
        }),
{
    let n = point.len();
    let low = rev(n, b as nat);
    lemma_rev_bound(n, b as nat);
    assert((2 * b + c) as nat % 2 == c && (2 * b + c) as nat / 2 == b as nat);
    assert(c as nat * pow2(n) == pow2(n) * c) by (nonlinear_arith)
        requires
            c >= 0,
    ;
    lemma_weight_concat(low as int, c, point, seq![r]);
    lemma_weight_one(r);
    assert(point.push(r) =~= point + seq![r]);
}

/// The table of weights at the point `vals`, by big-endian index. The two tables of the loop are
/// not exchanged but copied, so that for an empty point the one that is never written is returned.
pub fn _old_precompute<F: PrimeField>(vals: &[F]) -> (r: Vec<F>)
    requires
        vals@.len() < usize::BITS,
    ensures
        r@.len() == pow2(vals@.len()),
        vals@.len() == 0 ==> r@[0].val() == 0,
        vals@.len() > 0 ==> is_weight_table(r@, crate::field::vals(vals@)),
        vals@.len() > 0 ==> forall|b: int|
            0 <= b < r@.len() ==> (#[trigger] r@[b]).val() == weight(
                rev(vals@.len(), b as nat) as int,
                crate::field::vals(vals@),
            ) % F::modulus(),
{
    let n = vals.len();
    let size = shifted_one(n);
    let mut table: Vec<F> = zeros(size);
    let mut new_table: Vec<F> = zeros(size);
    let ghost point = crate::field::vals(vals@);
    let ghost p = F::modulus();
    proof {
        F::lemma_modulus();
        lemma2_to64();
        lemma_pow2_pos(n as nat);
        vstd::arithmetic::div_mod::lemma_small_mod(1, p as nat);
    }
    table.set(0, F::one());
    for i in 0..n
        invariant
            n == vals@.len(),
            n < usize::BITS,
            size == pow2(n as nat),
            point == crate::field::vals(vals@),
            p == F::modulus(),
            p >= 3,
            1int % p == 1,
            table@.len() == size,
            new_table@.len() == size,
            i == 0 ==> new_table@[0].val() == 0,
            i > 0 ==> new_table@ == table@,
            forall|b: int|
                0 <= b < pow2(i as nat) ==> (#[trigger] table@[b]).val() == be_weight(
                    b,
                    point.take(i as int),
                ) % p,
    {
        let half = shifted_one(i);
        proof {
            lemma_pow2_unfold((i + 1) as nat);
            if i + 1 < n {
                lemma_pow2_strictly_increases((i + 1) as nat, n as nat);
            }
            assert(point.take(i + 1) =~= point.take(i as int).push(point[i as int]));
        }
        for b in 0..half
            invariant
                n == vals@.len(),
                i < n,
                half == pow2(i as nat),
                size == pow2(n as nat),
                2 * half <= size,
                point == crate::field::vals(vals@),
                p == F::modulus(),
                p >= 3,
                1int % p == 1,
                table@.len() == size,
                new_table@.len() == size,
                point.take(i + 1) == point.take(i as int).push(point[i as int]),
                forall|c: int|
                    0 <= c < half ==> (#[trigger] table@[c]).val() == be_weight(
                        c,
                        point.take(i as int),
                    ) % p,
                forall|c: int|
                    0 <= c < 2 * b ==> (#[trigger] new_table@[c]).val() == be_weight(
                        c,
                        point.take(i + 1),
                    ) % p,
        {
            let zero_side = table[b].mul(F::one().sub(vals[i]));
            let one_side = table[b].mul(vals[i]);
            new_table.set(2 * b, zero_side);
            new_table.set(2 * b + 1, one_side);
            proof {
                lemma_weight_step(
                    table@[b as int].val(),
                    b as int,
                    point.take(i as int),
                    point[i as int],
                    p,
                );
            }
        }
        table = crate::data_structures::copy_slice(new_table.as_slice());
    }
    assert(point.take(n as int) =~= point);
    new_table
}

/// One step of the computation of the table of weights, modulo `p`.
proof fn lemma_weight_step(entry: int, b: int, point: Seq<int>, r: int, p: int)
    requires
        p >= 3,
        0 <= b < pow2(point.len()),
        entry == be_weight(b, point) % p,
    ensures
        (entry * ((1 - r) % p)) % p == be_weight(2 * b, point.push(r)) % p,
        (entry * r) % p == be_weight(2 * b + 1, point.push(r)) % p,
{
    let w = be_weight(b, point);
    lemma_be_weight_push(b, 0, point, r);
    lemma_be_weight_push(b, 1, point, r);
    lemma_cong_reduce(w, p);
    lemma_cong_reduce(1 - r, p);
    lemma_cong_mul(entry, w, (1 - r) % p, 1 - r, p);
    lemma_cong_mul(entry, w, r, r, p);
}

/// The table of weights at the point `vals`, by big-endian index.
pub fn precompute<F: PrimeField>(vals: &[F]) -> (r: Vec<F>)
    requires
        vals@.len() < usize::BITS,
    ensures
        is_weight_table(r@, crate::field::vals(vals@)),
        r@.len() == pow2(vals@.len()),
        forall|b: int|
            0 <= b < r@.len() ==> (#[trigger] r@[b]).val() == weight(
                rev(vals@.len(), b as nat) as int,
                crate::field::vals(vals@),
            ) % F::modulus(),
{
    let n = vals.len();
    let size = shifted_one(n);
    let mut old_table: Vec<F> = zeros(size);
    let mut new_table: Vec<F> = zeros(size);
    let ghost point = crate::field::vals(vals@);
    let ghost p = F::modulus();
    proof {
        F::lemma_modulus();
        lemma2_to64();
        lemma_pow2_pos(n as nat);
        vstd::arithmetic::div_mod::lemma_small_mod(1, p as nat);
    }
    old_table.set(0, F::one());
    for i in 0..n
        invariant
            n == vals@.len(),
            n < usize::BITS,
            size == pow2(n as nat),
            point == crate::field::vals(vals@),
            p == F::modulus(),
            p >= 3,
            1int % p == 1,
            old_table@.len() == size,
            new_table@.len() == size,
            forall|b: int|
                0 <= b < pow2(i as nat) ==> (#[trigger] old_table@[b]).val() == be_weight(
                    b,
                    point.take(i as int),
                ) % p,
    {
        let half = shifted_one(i);
        proof {
            lemma_pow2_unfold((i + 1) as nat);
            if i + 1 < n {
                lemma_pow2_strictly_increases((i + 1) as nat, n as nat);
            }
            assert(point.take(i + 1) =~= point.take(i as int).push(point[i as int]));
        }
        for b in 0..half
            invariant
                n == vals@.len(),
                i < n,
                half == pow2(i as nat),
                size == pow2(n as nat),
                2 * half <= size,
                point == crate::field::vals(vals@),
                p == F::modulus(),
                p >= 3,
                1int % p == 1,
                old_table@.len() == size,
                new_table@.len() == size,
                point.take(i + 1) == point.take(i as int).push(point[i as int]),
                forall|c: int|
                    0 <= c < half ==> (#[trigger] old_table@[c]).val() == be_weight(
                        c,
                        point.take(i as int),
                    ) % p,
                forall|c: int|
                    0 <= c < 2 * b ==> (#[trigger] new_table@[c]).val() == be_weight(
                        c,
                        point.take(i + 1),
                    ) % p,
        {
            let zero_side = old_table[b].mul(F::one().sub(vals[i]));
            let one_side = old_table[b].mul(vals[i]);
            new_table.set(2 * b, zero_side);
            new_table.set(2 * b + 1, one_side);
            proof {
                lemma_weight_step(
                    old_table@[b as int].val(),
                    b as int,
                    point.take(i as int),
                    point[i as int],
                    p,
                );
            }
        }
        std::mem::swap(&mut old_table, &mut new_table);
    }
    assert(point.take(n as int) =~= point);
    old_table
}

/// `alpha` times the weight with big-endian index `z` at `g1` plus `beta` times that at `g2`.
pub open spec fn mixed_be_weight(mix: Mix, z: int) -> int {
    mix.alpha * be_weight(z, mix.g1) + mix.beta * be_weight(z, mix.g2)
}

/// The table of `alpha` times the weights at `g1` plus `beta` times the weights at `g2`, by
/// big-endian index, as far as both points have weights.
fn mixed_weights<F: PrimeField>(g1: &[F], g2: &[F], alpha: F, beta: F) -> (r: Vec<F>)
    requires
        g1@.len() < usize::BITS,
        g2@.len() < usize::BITS,
    ensures
        r@.len() == (if g1@.len() <= g2@.len() {
            pow2(g1@.len())
        } else {
            pow2(g2@.len())
        }),
        r@.len() <= pow2(g1@.len()),
        r@.len() <= pow2(g2@.len()),
        forall|b: int|
            0 <= b < r@.len() ==> (#[trigger] r@[b]).val() == mixed_be_weight(
                mix_of(g1@, g2@, alpha, beta),
                b,
            ) % F::modulus(),
{
    let table_g1 = precompute(g1);
    let table_g2 = precompute(g2);
    let size = if g1.len() <= g2.len() {
        table_g1.len()
    } else {
        table_g2.len()
    };
    proof {
        lemma_pow2_increases(g1@.len(), g2@.len());
        lemma_pow2_increases(g2@.len(), g1@.len());
    }
    let mut r: Vec<F> = Vec::new();
    let ghost mix = mix_of(g1@, g2@, alpha, beta);
    let ghost p = F::modulus();
    for b in 0..size
        invariant
            p == F::modulus(),
            mix == mix_of(g1@, g2@, alpha, beta),
            size <= table_g1@.len(),
            size <= table_g2@.len(),
            is_weight_table(table_g1@, mix.g1),
            is_weight_table(table_g2@, mix.g2),
            r@.len() == b,
            forall|c: int|
                0 <= c < b ==> (#[trigger] r@[c]).val() == mixed_be_weight(mix, c) % p,
    {
        let left = alpha.mul(table_g1[b]);
        let right = beta.mul(table_g2[b]);
        r.push(left.add(right));
        proof {
            F::lemma_modulus();
            let (w1, w2) = (be_weight(b as int, mix.g1), be_weight(b as int, mix.g2));
            assert(table_g1@[b as int].val() == w1 % p);
            assert(table_g2@[b as int].val() == w2 % p);
            lemma_scaled(mix.alpha, mix.alpha, table_g1@[b as int].val(), w1, p);
            lemma_scaled(mix.beta, mix.beta, table_g2@[b as int].val(), w2, p);
            lemma_cong_add(left.val(), mix.alpha * w1, right.val(), mix.beta * w2, p);
        }
    }
    r
}

/// A larger exponent gives no smaller power.
proof fn lemma_pow2_increases(a: nat, b: nat)
    ensures
        a <= b ==> pow2(a) <= pow2(b),
{
    if a < b {
        lemma_pow2_strictly_increases(a, b);
    }
}

/// The two points and their coefficients, by representatives.
pub open spec fn mix_of<F: PrimeField>(g1: Seq<F>, g2: Seq<F>, alpha: F, beta: F) -> Mix {
    Mix { g1: vals(g1), g2: vals(g2), alpha: alpha.val(), beta: beta.val() }
}

/// A reduced product of factors that are known up to their residues.
proof fn lemma_scaled(a: int, b: int, c: int, d: int, p: int)
    requires
        p > 0,
        cong(a, b, p),
        c == d % p,
    ensures
        cong((a * c) % p, b * d, p),
        (a * c) % p == (b * d) % p,
{
    lemma_cong_reduce(d, p);
    lemma_cong_mul(a, b, c, d, p);
    lemma_cong_reduce(a * c, p);
}

/// The block `z` of the little-endian index `i` of `n` bits, as a big-endian index: what stands
/// above the `2 * v` lowest bits after the reversal.
pub open spec fn be_z(i: int, n: nat, v: nat) -> int {
    (rev(n, i as nat) / pow2(2 * v)) as int
}

/// The block `x` of the little-endian index `i` of `n` bits, as a big-endian index.
pub open spec fn be_x(i: int, n: nat, v: nat) -> int {
    ((rev(n, i as nat) / pow2(v)) % pow2(v)) as int
}

/// The block `y` of the little-endian index `i` of `n` bits, as a big-endian index.
pub open spec fn be_y(i: int, n: nat, v: nat) -> int {
    (rev(n, i as nat) % pow2(v)) as int
}

/// The table of the first phase for a first factor of `n` variables, of which the last `2 * v` are
/// the blocks `x` and `y`.
pub open spec fn first_table(
    f1: Seq<int>,
    n: nat,
    f3: Seq<int>,
    mix: Mix,
    v: nat,
) -> Seq<int> {
    Seq::new(
        pow2(v),
        |x: int|
            sum(
                pow2(n),
                |i: int|
                    if rev(v, be_x(i, n, v) as nat) == x {
                        mixed_be_weight(mix, be_z(i, n, v)) * f1[i] * f3[rev(
                            v,
                            be_y(i, n, v) as nat,
                        ) as int]
                    } else {
                        0
                    },
            ),
    )
}

/// The table of the second phase for a first factor of `n` variables, of which the last `2 * v` are
/// the blocks `x` and `y`.
pub open spec fn second_table(
    f1: Seq<int>,
    n: nat,
    u: Seq<int>,
    mix: Mix,
    v: nat,
) -> Seq<int> {
    Seq::new(
        pow2(v),
        |y: int|
            sum(
                pow2(n),
                |i: int|
                    if rev(v, be_y(i, n, v) as nat) == y {
                        mixed_be_weight(mix, be_z(i, n, v)) * be_weight(be_x(i, n, v), u) * f1[i]
                    } else {
                        0
                    },
            ),
    )
}

/// The blocks of an index of three blocks of the same size, and the weights of `z` and `x`.
proof fn lemma_even_blocks(i: int, v: nat, mix: Mix, u: Seq<int>)
    requires
        0 <= i < pow2(3 * v),
    ensures
        0 <= be_z(i, 3 * v, v) < pow2(v),
        0 <= be_x(i, 3 * v, v) < pow2(v),
        rev(v, be_x(i, 3 * v, v) as nat) == block_x(i, v),
        rev(v, be_y(i, 3 * v, v) as nat) == block_y(i, v),
        mix.g1.len() == v && mix.g2.len() == v ==> mixed_be_weight(mix, be_z(i, 3 * v, v))
            == mix.weight(block_z(i, v)),
        u.len() == v ==> be_weight(be_x(i, 3 * v, v), u) == weight(block_x(i, v), u),
{
    lemma_blocks(i, v);
    lemma_rev_blocks(i, v);
    let (z, x, y) = (block_z(i, v) as nat, block_x(i, v) as nat, block_y(i, v) as nat);
    lemma_rev_bound(v, z);
    lemma_rev_bound(v, x);
    lemma_rev_involutive(v, z);
    lemma_rev_involutive(v, x);
    lemma_rev_involutive(v, y);
}

/// With three blocks of the same size, the general tables are the tables of the two phases.
proof fn lemma_even_tables(f1: Seq<int>, f3: Seq<int>, u: Seq<int>, mix: Mix, v: nat)
    requires
        mix.g1.len() == v,
        mix.g2.len() == v,
    ensures
        first_table(f1, 3 * v, f3, mix, v) == phase_1_table(f1, f3, mix, v),
        u.len() == v ==> second_table(f1, 3 * v, u, mix, v) == phase_2_table(f1, u, mix, v),
{
    let n = 3 * v;
    assert forall|x: int| 0 <= x < pow2(v) implies #[trigger] first_table(f1, n, f3, mix, v)[x]
        == phase_1_table(f1, f3, mix, v)[x] by {
        let a = |i: int|
            if rev(v, be_x(i, n, v) as nat) == x {
                mixed_be_weight(mix, be_z(i, n, v)) * f1[i] * f3[rev(
                    v,
                    be_y(i, n, v) as nat,
                ) as int]
            } else {
                0
            };
        let b = |i: int|
            if block_x(i, v) == x {
                phase_1_term(f1, f3, mix, v, i)
            } else {
                0
            };
        assert forall|i: int| 0 <= i < pow2(n) implies #[trigger] a(i) == b(i) by {
            lemma_even_blocks(i, v, mix, u);
        }
        lemma_sum_eq(pow2(n), a, b);
    }
    assert(first_table(f1, n, f3, mix, v) =~= phase_1_table(f1, f3, mix, v));
    if u.len() == v {
        assert forall|y: int| 0 <= y < pow2(v) implies #[trigger] second_table(
            f1,
            n,
            u,
            mix,
            v,
        )[y] == phase_2_table(f1, u, mix, v)[y] by {
            let a = |i: int|
                if rev(v, be_y(i, n, v) as nat) == y {
                    mixed_be_weight(mix, be_z(i, n, v)) * be_weight(be_x(i, n, v), u) * f1[i]
                } else {
                    0
                };
            let b = |i: int|
                if block_y(i, v) == y {
                    phase_2_term(f1, u, mix, v, i)
                } else {
                    0
                };
            assert forall|i: int| 0 <= i < pow2(n) implies #[trigger] a(i) == b(i) by {
                lemma_even_blocks(i, v, mix, u);
            }
            lemma_sum_eq(pow2(n), a, b);
        }
        assert(second_table(f1, n, u, mix, v) =~= phase_2_table(f1, u, mix, v));
    }
}

/// What one more value of the first factor does to the table of the first phase.
proof fn lemma_first_update(
    f1: Seq<int>,
    n: nat,
    f3: Seq<int>,
    mix: Mix,
    v: nat,
    k: int,
    value: int,
    x: int,
)
    requires
        f1.len() == pow2(n),
        0 <= k < f1.len(),
        f1[k] == 0,
        0 <= x < pow2(v),
    ensures
        first_table(f1.update(k, value), n, f3, mix, v)[x] == first_table(f1, n, f3, mix, v)[x] + (
        if rev(v, be_x(k, n, v) as nat) == x {
            mixed_be_weight(mix, be_z(k, n, v)) * value * f3[rev(v, be_y(k, n, v) as nat) as int]
        } else {
            0
        }),
{
    let g1 = f1.update(k, value);
    let before = |i: int|
        if rev(v, be_x(i, n, v) as nat) == x {
            mixed_be_weight(mix, be_z(i, n, v)) * f1[i] * f3[rev(v, be_y(i, n, v) as nat) as int]
        } else {
            0
        };
    let after = |i: int|
        if rev(v, be_x(i, n, v) as nat) == x {
            mixed_be_weight(mix, be_z(i, n, v)) * g1[i] * f3[rev(v, be_y(i, n, v) as nat) as int]
        } else {
            0
        };
    assert(before(k) == 0) by {
        let (a, b) = (
            mixed_be_weight(mix, be_z(k, n, v)),
            f3[rev(v, be_y(k, n, v) as nat) as int],
        );
        assert(a * 0 * b == 0) by (nonlinear_arith);
    }
    lemma_sum_update(pow2(n), k, before, after);
}

/// What one more value of the first factor does to the table of the second phase.
proof fn lemma_second_update(
    f1: Seq<int>,
    n: nat,
    u: Seq<int>,
    mix: Mix,
    v: nat,
    k: int,
    value: int,
    y: int,
)
    requires
        f1.len() == pow2(n),
        0 <= k < f1.len(),
        f1[k] == 0,
        0 <= y < pow2(v),
    ensures
        second_table(f1.update(k, value), n, u, mix, v)[y] == second_table(f1, n, u, mix, v)[y] + (
        if rev(v, be_y(k, n, v) as nat) == y {
            mixed_be_weight(mix, be_z(k, n, v)) * be_weight(be_x(k, n, v), u) * value
        } else {
            0
        }),
{
    let g1 = f1.update(k, value);
    let before = |i: int|
        if rev(v, be_y(i, n, v) as nat) == y {
            mixed_be_weight(mix, be_z(i, n, v)) * be_weight(be_x(i, n, v), u) * f1[i]
        } else {
            0
        };
    let after = |i: int|
        if rev(v, be_y(i, n, v) as nat) == y {
            mixed_be_weight(mix, be_z(i, n, v)) * be_weight(be_x(i, n, v), u) * g1[i]
        } else {
            0
        };
    assert(before(k) == 0) by {
        let a = mixed_be_weight(mix, be_z(k, n, v)) * be_weight(be_x(k, n, v), u);
        assert(a * 0 == 0) by (nonlinear_arith);
    }
    lemma_sum_update(pow2(n), k, before, after);
}

/// The tables of the phases for the polynomial zero.
proof fn lemma_tables_of_zero(
    f1: Seq<int>,
    n: nat,
    f3: Seq<int>,
    u: Seq<int>,
    mix: Mix,
    v: nat,
    x: int,
)
    requires
        f1.len() == pow2(n),
        forall|i: int| 0 <= i < f1.len() ==> #[trigger] f1[i] == 0,
        0 <= x < pow2(v),
    ensures
        first_table(f1, n, f3, mix, v)[x] == 0,
        second_table(f1, n, u, mix, v)[x] == 0,
{
    let first = |i: int|
        if rev(v, be_x(i, n, v) as nat) == x {
            mixed_be_weight(mix, be_z(i, n, v)) * f1[i] * f3[rev(v, be_y(i, n, v) as nat) as int]
        } else {
            0
        };
    let second = |i: int|
        if rev(v, be_y(i, n, v) as nat) == x {
            mixed_be_weight(mix, be_z(i, n, v)) * be_weight(be_x(i, n, v), u) * f1[i]
        } else {
            0
        };
    assert forall|i: int| 0 <= i < pow2(n) implies #[trigger] first(i) == 0 by {
        let (a, b) = (
            mixed_be_weight(mix, be_z(i, n, v)),
            f3[rev(v, be_y(i, n, v) as nat) as int],
        );
        assert(a * 0 * b == 0) by (nonlinear_arith);
        assert(f1[i] == 0);
    }
    assert forall|i: int| 0 <= i < pow2(n) implies #[trigger] second(i) == 0 by {
        let a = mixed_be_weight(mix, be_z(i, n, v)) * be_weight(be_x(i, n, v), u);
        assert(a * 0 == 0) by (nonlinear_arith);
        assert(f1[i] == 0);
    }
    lemma_sum_zero(pow2(n), first);
    lemma_sum_zero(pow2(n), second);
}

/// The table of the polynomial that has the first `n` of the given values and is zero elsewhere.
spec fn partial_table<F: PrimeField>(list: Seq<(usize, F)>, size: nat, n: nat) -> Seq<int>
    decreases n,
{
    if n == 0 {
        Seq::new(size, |i: int| 0int)
    } else {
        partial_table(list, size, (n - 1) as nat).update(
            list[n - 1].0 as int,
            list[n - 1].1.val(),
        )
    }
}

/// The entries of such a table.
proof fn lemma_partial_table<F: PrimeField>(list: Seq<(usize, F)>, size: nat, n: nat)
    requires
        n <= list.len(),
        forall|i: int| 0 <= i < list.len() ==> (#[trigger] list[i]).0 < size,
        forall|i: int, j: int|
            0 <= i < j < list.len() ==> (#[trigger] list[i]).0 != (#[trigger] list[j]).0,
    ensures
        partial_table(list, size, n).len() == size,
        forall|j: int|
            0 <= j < n ==> partial_table(list, size, n)[(#[trigger] list[j]).0 as int]
                == list[j].1.val(),
        forall|i: int|
            0 <= i < size && (forall|j: int| 0 <= j < n ==> (#[trigger] list[j]).0 != i)
                ==> #[trigger] partial_table(list, size, n)[i] == 0,
    decreases n,
{
    if n > 0 {
        let m = (n - 1) as nat;
        lemma_partial_table(list, size, m);
        assert(list[m as int].0 < size);
        assert forall|j: int| 0 <= j < n implies partial_table(list, size, n)[(
        #[trigger] list[j]).0 as int] == list[j].1.val() by {
            if j < m {
                assert(list[j].0 != list[m as int].0);
            }
        }
        assert forall|i: int|
            0 <= i < size && (forall|j: int| 0 <= j < n ==> (#[trigger] list[j]).0 != i) implies
            #[trigger] partial_table(list, size, n)[i] == 0 by {
            assert(list[m as int].0 != i);
            assert(partial_table(list, size, m)[i] == 0);
        }
    }
}

/// The table of all values is that of the polynomial.
proof fn lemma_full_table<F: PrimeField>(
    f: &SparseMultilinearExtension<F>,
    list: Seq<(usize, F)>,
)
    requires
        f.num_vars < usize::BITS,
        forall|i: usize|
            #[trigger] f.evaluations@.contains_key(i) ==> i < pow2(f.num_vars as nat),
        forall|i: int|
            0 <= i < list.len() ==> f.evaluations@.contains_key((#[trigger] list[i]).0)
                && f.evaluations@[list[i].0] == list[i].1,
        forall|k: usize|
            #[trigger] f.evaluations@.contains_key(k) ==> exists|i: int|
                0 <= i < list.len() && (#[trigger] list[i]).0 == k,
        forall|i: int, j: int|
            0 <= i < j < list.len() ==> (#[trigger] list[i]).0 != (#[trigger] list[j]).0,
    ensures
        partial_table(list, pow2(f.num_vars as nat), list.len()) == f@,
{
    let size = pow2(f.num_vars as nat);
    vstd::bits::lemma_usize_pow2_no_overflow(f.num_vars as nat);
    assert forall|i: int| 0 <= i < list.len() implies (#[trigger] list[i]).0 < size by {
        assert(f.evaluations@.contains_key(list[i].0));
    }
    lemma_partial_table(list, size, list.len());
    let t = partial_table(list, size, list.len());
    assert forall|i: int| 0 <= i < size implies #[trigger] t[i] == f@[i] by {
        if f.evaluations@.contains_key(i as usize) {
            let j = choose|j: int| 0 <= j < list.len() && (#[trigger] list[j]).0 == i as usize;
            assert(t[list[j].0 as int] == list[j].1.val());
        } else {
            assert forall|j: int| 0 <= j < list.len() implies (#[trigger] list[j]).0 != i by {
                assert(f.evaluations@.contains_key(list[j].0));
            }
        }
    }
    assert(t =~= f@);
}

/// No value of `f_1` is out of range: every index has `num_vars` bits, and its block `z` has weights
/// at both points.
pub open spec fn within_points<F: PrimeField>(
    f_1: &SparseMultilinearExtension<F>,
    v: nat,
    g1: Seq<F>,
    g2: Seq<F>,
) -> bool {
    forall|i: usize| #[trigger]
        f_1.evaluations@.contains_key(i) ==> {
            &&& 2 * v < usize::BITS
            &&& i < pow2(f_1.num_vars as nat)
            &&& be_z(i as int, f_1.num_vars as nat, v) < pow2(g1.len())
            &&& be_z(i as int, f_1.num_vars as nat, v) < pow2(g2.len())
        }
}

/// Polynomials of three blocks of the size of the points are within their range.
pub proof fn lemma_within_points<F: PrimeField>(
    f_1: &SparseMultilinearExtension<F>,
    g1: Seq<F>,
    g2: Seq<F>,
)
    requires
        f_1.wf(),
        f_1.num_vars == 3 * g1.len(),
        g2.len() == g1.len(),
    ensures
        within_points(f_1, g1.len(), g1, g2),
        forall|i: usize| #[trigger]
            f_1.evaluations@.contains_key(i) ==> be_x(
                i as int,
                f_1.num_vars as nat,
                g1.len(),
            ) < pow2(g1.len()),
{
    let v = g1.len();
    assert forall|i: usize| #[trigger] f_1.evaluations@.contains_key(i) implies {
        &&& 2 * v < usize::BITS
        &&& i < pow2(f_1.num_vars as nat)
        &&& be_z(i as int, f_1.num_vars as nat, v) < pow2(v)
        &&& be_x(i as int, f_1.num_vars as nat, v) < pow2(v)
    } by {
        let mix = Mix { g1: vals(g1), g2: vals(g2), alpha: 0, beta: 0 };
        lemma_even_blocks(i as int, v, mix, vals(g1));
    }
}

/// The table of the first phase: for each `x`, by little-endian index, the sum over all `z` and `y`
/// of `f_1(z, x, y) * f_3(y)` times the weight of `z` at `g1` and `g2`, mixed by `alpha` and
/// `beta`. The blocks `x` and `y` are the last variables of `f_1`, as many as those of `f_3` each.
pub fn initialise_phase_1<F: PrimeField>(
    f_1: &SparseMultilinearExtension<F>,
    f_3: &DenseMultilinearExtension<F>,
    g1: &[F],
    g2: &[F],
    alpha: F,
    beta: F,
) -> (ahg: Vec<F>)
    requires
        0 < f_1.num_vars < usize::BITS,
        f_3.wf(),
        f_3.num_vars > 0,
        g1@.len() < usize::BITS,
        g2@.len() < usize::BITS,
        within_points(f_1, f_3.num_vars as nat, g1@, g2@),
    ensures
        ahg@.len() == pow2(f_3.num_vars as nat),
        forall|x: int|
            0 <= x < ahg@.len() ==> (#[trigger] ahg@[x]).val() == first_table(
                f_1@,
                f_1.num_vars as nat,
                f_3@,
                mix_of(g1@, g2@, alpha, beta),
                f_3.num_vars as nat,
            )[x] % F::modulus(),
        f_1.num_vars == 3 * f_3.num_vars && g1@.len() == f_3.num_vars && g2@.len()
            == f_3.num_vars ==> forall|x: int|
            0 <= x < ahg@.len() ==> (#[trigger] ahg@[x]).val() == phase_1_table(
                f_1@,
                f_3@,
                mix_of(g1@, g2@, alpha, beta),
                f_3.num_vars as nat,
            )[x] % F::modulus(),
        (forall|i: usize| !#[trigger] f_1.evaluations@.contains_key(i)) ==> forall|x: int|
            0 <= x < ahg@.len() ==> (#[trigger] ahg@[x]).val() == 0,
        forall|x: int|
            0 <= x < ahg@.len() ==> (#[trigger] ahg@[x]).val() == sum(
                pow2(f_1.num_vars as nat),
                |i: int|
                    if rev(
                        f_3.num_vars as nat,
                        (rev(f_1.num_vars as nat, i as nat) / pow2(f_3.num_vars as nat)) % pow2(
                            f_3.num_vars as nat,
                        ),
                    ) == x {
                        (alpha.val() * weight(
                            rev(
                                g1@.len(),
                                rev(f_1.num_vars as nat, i as nat) / pow2(2 * f_3.num_vars as nat),
                            ) as int,
                            vals(g1@),
                        ) + beta.val() * weight(
                            rev(
                                g2@.len(),
                                rev(f_1.num_vars as nat, i as nat) / pow2(2 * f_3.num_vars as nat),
                            ) as int,
                            vals(g2@),
                        )) * f_1@[i] * f_3@[rev(
                            f_3.num_vars as nat,
                            rev(f_1.num_vars as nat, i as nat) % pow2(f_3.num_vars as nat),
                        ) as int]
                    } else {
                        0
                    },
            ) % F::modulus(),
{
    let v = f_3.num_vars();
    let le_indices_f1 = to_le_indices(f_1.num_vars);
    let le_indices_f3 = to_le_indices(v);
    let table_g = mixed_weights(g1, g2, alpha, beta);
    let f_3_evaluations = f_3.to_evaluations();
    let list = entries(&f_1.evaluations);
    let mut ahg: Vec<F> = zeros(shifted_one(v));
    let ghost p = F::modulus();
    let ghost n = v as nat;
    let ghost m = f_1.num_vars as nat;
    let ghost size = pow2(m);
    let ghost mix = mix_of(g1@, g2@, alpha, beta);
    let ghost f3 = f_3@;
    proof {
        F::lemma_modulus();
        lemma_list_fits(f_1, list@, n, g1@, g2@);
        assert forall|x: int| 0 <= x < ahg@.len() implies (#[trigger] ahg@[x]).val()
            == first_table(partial_table(list@, size, 0), m, f3, mix, n)[x] % p by {
            lemma_tables_of_zero(partial_table(list@, size, 0), m, f3, f3, mix, n, x);
            vstd::arithmetic::div_mod::lemma_small_mod(0, p as nat);
        }
    }
    for e in 0..list.len()
        invariant
            p == F::modulus(),
            p >= 3,
            n == v,
            0 < v < usize::BITS,
            size == pow2(m),
            f3 == vals(f_3_evaluations@),
            f3.len() == pow2(n),
            mix == mix_of(g1@, g2@, alpha, beta),
            reverses(le_indices_f1@, m),
            reverses(le_indices_f3@, n),
            list_fits(list@, m, n, table_g@.len()),
            forall|b: int|
                0 <= b < table_g@.len() ==> (#[trigger] table_g@[b]).val() == mixed_be_weight(
                    mix,
                    b,
                ) % p,
            forall|i: int, j: int|
                0 <= i < j < list@.len() ==> (#[trigger] list@[i]).0 != (#[trigger] list@[j]).0,
            ahg@.len() == pow2(n),
            forall|x: int|
                0 <= x < ahg@.len() ==> (#[trigger] ahg@[x]).val() == first_table(
                    partial_table(list@, size, e as nat),
                    m,
                    f3,
                    mix,
                    n,
                )[x] % p,
    {
        let (idx_le, val) = list[e];
        assert(list_fits(list@, m, n, table_g@.len()));
        assert(list@[e as int].0 < size);
        let idx = le_indices_f1[idx_le];
        let (z, x, y) = usize_to_zxy(idx, v);
        let ghost k = idx_le as int;
        let ghost part = partial_table(list@, size, e as nat);
        proof {
            lemma_pow2_pos(n);
            lemma_partial_table(list@, size, e as nat);
            lemma_rev_bound(n, x as nat);
            lemma_rev_bound(n, y as nat);
            assert(part[k] == 0) by {
                assert forall|j: int| 0 <= j < e implies (#[trigger] list@[j]).0 != k by {
                    assert(list@[j].0 != list@[e as int].0);
                }
            }
        }
        let target = le_indices_f3[x];
        let product = table_g[z].mul(val).mul(f_3_evaluations[le_indices_f3[y]]);
        let ghost before = ahg@;
        let updated = ahg[target].add(product);
        ahg.set(target, updated);
        proof {
            let w = mixed_be_weight(mix, z as int);
            let value = val.val();
            let t = f3[rev(n, y as nat) as int];
            lemma_cong_reduce(w, p);
            lemma_cong_mul(w % p, w, value, value, p);
            lemma_cong_reduce((w % p) * value, p);
            lemma_cong_mul(((w % p) * value) % p, w * value, t, t, p);
            lemma_cong_reduce((((w % p) * value) % p) * t, p);
            let next = partial_table(list@, size, (e + 1) as nat);
            assert forall|c: int| 0 <= c < ahg@.len() implies (#[trigger] ahg@[c]).val()
                == first_table(next, m, f3, mix, n)[c] % p by {
                lemma_first_update(part, m, f3, mix, n, k, value, c);
                let old_sum = first_table(part, m, f3, mix, n)[c];
                assert(before[c].val() == old_sum % p);
                if c == target {
                    lemma_cong_reduce(old_sum, p);
                    lemma_cong_add(old_sum % p, old_sum, product.val(), w * value * t, p);
                }
            }
        }
    }
    proof {
        lemma_full_table(f_1, list@);
        if f_1.num_vars == 3 * f_3.num_vars && g1@.len() == v && g2@.len() == v {
            lemma_even_tables(f_1@, f3, f3, mix, n);
        }
        if forall|i: usize| !#[trigger] f_1.evaluations@.contains_key(i) {
            assert forall|x: int| 0 <= x < ahg@.len() implies (#[trigger] ahg@[x]).val() == 0 by {
                lemma_tables_of_zero(f_1@, m, f3, f3, mix, n, x);
                vstd::arithmetic::div_mod::lemma_small_mod(0, p as nat);
            }
        }
        assert forall|x: int| 0 <= x < ahg@.len() implies (#[trigger] ahg@[x]).val() == sum(
            pow2(f_1.num_vars as nat),
            |i: int|
                if rev(
                    f_3.num_vars as nat,
                    (rev(f_1.num_vars as nat, i as nat) / pow2(f_3.num_vars as nat)) % pow2(
                        f_3.num_vars as nat,
                    ),
                ) == x {
                    (alpha.val() * weight(
                        rev(
                            g1@.len(),
                            rev(f_1.num_vars as nat, i as nat) / pow2(2 * f_3.num_vars as nat),
                        ) as int,
                        vals(g1@),
                    ) + beta.val() * weight(
                        rev(
                            g2@.len(),
                            rev(f_1.num_vars as nat, i as nat) / pow2(2 * f_3.num_vars as nat),
                        ) as int,
                        vals(g2@),
                    )) * f_1@[i] * f_3@[rev(
                        f_3.num_vars as nat,
                        rev(f_1.num_vars as nat, i as nat) % pow2(f_3.num_vars as nat),
                    ) as int]
                } else {
                    0
                },
        ) % p by {
            lemma_first_in_full(f_1@, m, f_3@, g1@, g2@, alpha, beta, n, x);
        }
    }
    ahg
}

/// The entry `x` of the table of the first phase: the values of the first factor at the indices
/// with block `x`, each with the mixed weight of its block `z` and the value of the third factor at
/// its block `y`.
pub proof fn lemma_first_in_full<F: PrimeField>(
    f1: Seq<int>,
    n: nat,
    f3: Seq<int>,
    g1: Seq<F>,
    g2: Seq<F>,
    alpha: F,
    beta: F,
    v: nat,
    x: int,
)
    requires
        0 <= x < pow2(v),
    ensures
        first_table(f1, n, f3, mix_of(g1, g2, alpha, beta), v)[x] == sum(
            pow2(n),
            |i: int|
                if rev(v, (rev(n, i as nat) / pow2(v)) % pow2(v)) == x {
                    (alpha.val() * weight(
                        rev(g1.len(), rev(n, i as nat) / pow2(2 * v)) as int,
                        vals(g1),
                    ) + beta.val() * weight(
                        rev(g2.len(), rev(n, i as nat) / pow2(2 * v)) as int,
                        vals(g2),
                    )) * f1[i] * f3[rev(v, rev(n, i as nat) % pow2(v)) as int]
                } else {
                    0
                },
        ),
{
    let mix = mix_of(g1, g2, alpha, beta);
    lemma_pow2_pos(v);
    lemma_pow2_pos(2 * v);
    assert forall|i: int| 0 <= i < pow2(n) implies be_z(i, n, v) >= 0 && be_x(i, n, v) >= 0
        && #[trigger] be_y(i, n, v) >= 0 by {
        let r = rev(n, i as nat) as int;
        vstd::arithmetic::div_mod::lemma_div_pos_is_pos(r, pow2(2 * v) as int);
        vstd::arithmetic::div_mod::lemma_mod_bound(r / (pow2(v) as int), pow2(v) as int);
        vstd::arithmetic::div_mod::lemma_mod_bound(r, pow2(v) as int);
    }
    lemma_sum_eq(
        pow2(n),
        |i: int|
            if rev(v, be_x(i, n, v) as nat) == x {
                mixed_be_weight(mix, be_z(i, n, v)) * f1[i] * f3[rev(
                    v,
                    be_y(i, n, v) as nat,
                ) as int]
            } else {
                0
            },
        |i: int|
            if rev(v, (rev(n, i as nat) / pow2(v)) % pow2(v)) == x {
                (alpha.val() * weight(
                    rev(g1.len(), rev(n, i as nat) / pow2(2 * v)) as int,
                    vals(g1),
                ) + beta.val() * weight(
                    rev(g2.len(), rev(n, i as nat) / pow2(2 * v)) as int,
                    vals(g2),
                )) * f1[i] * f3[rev(v, rev(n, i as nat) % pow2(v)) as int]
            } else {
                0
            },
    );
}

/// Every index of the list has `m` bits, and its block `z` is less than `bound`.
spec fn list_fits<F>(list: Seq<(usize, F)>, m: nat, v: nat, bound: nat) -> bool {
    &&& list.len() > 0 ==> 2 * v < usize::BITS
    &&& forall|i: int|
        0 <= i < list.len() ==> (#[trigger] list[i]).0 < pow2(m) && be_z(list[i].0 as int, m, v)
            < bound
}

/// The list of all values is within the range of the points.
proof fn lemma_list_fits<F: PrimeField>(
    f_1: &SparseMultilinearExtension<F>,
    list: Seq<(usize, F)>,
    v: nat,
    g1: Seq<F>,
    g2: Seq<F>,
)
    requires
        within_points(f_1, v, g1, g2),
        forall|i: int|
            0 <= i < list.len() ==> f_1.evaluations@.contains_key((#[trigger] list[i]).0),
    ensures
        list_fits(list, f_1.num_vars as nat, v, pow2(g1.len())),
        list_fits(list, f_1.num_vars as nat, v, pow2(g2.len())),
{
    if list.len() > 0 {
        assert(f_1.evaluations@.contains_key(list[0].0));
    }
    assert forall|i: int| 0 <= i < list.len() implies (#[trigger] list[i]).0 < pow2(
        f_1.num_vars as nat,
    ) && be_z(list[i].0 as int, f_1.num_vars as nat, v) < pow2(g1.len()) && be_z(
        list[i].0 as int,
        f_1.num_vars as nat,
        v,
    ) < pow2(g2.len()) by {
        assert(f_1.evaluations@.contains_key(list[i].0));
    }
}

/// The table of the second phase: for each `y`, by little-endian index, the sum over all `z` and `x`
/// of `f_1(z, x, y)` times the weight of `x` at `u` and that of `z` at `g1` and `g2`, mixed by
/// `alpha` and `beta`. The blocks `x` and `y` are the last variables of `f_1`, as many as `g1` has
/// coordinates each.
pub fn initialise_phase_2<F: PrimeField>(
    f_1: &SparseMultilinearExtension<F>,
    g1: &[F],
    g2: &[F],
    u: &[F],
    alpha: F,
    beta: F,
) -> (af1: Vec<F>)
    requires
        0 < f_1.num_vars < usize::BITS,
        0 < g1@.len() < usize::BITS,
        g2@.len() < usize::BITS,
        u@.len() < usize::BITS,
        within_points(f_1, g1@.len(), g1@, g2@),
        forall|i: usize| #[trigger]
            f_1.evaluations@.contains_key(i) ==> be_x(
                i as int,
                f_1.num_vars as nat,
                g1@.len(),
            ) < pow2(u@.len()),
    ensures
        af1@.len() == pow2(g1@.len()),
        forall|y: int|
            0 <= y < af1@.len() ==> (#[trigger] af1@[y]).val() == second_table(
                f_1@,
                f_1.num_vars as nat,
                vals(u@),
                mix_of(g1@, g2@, alpha, beta),
                g1@.len(),
            )[y] % F::modulus(),
        f_1.num_vars == 3 * g1@.len() && g2@.len() == g1@.len() && u@.len() == g1@.len()
            ==> forall|y: int|
            0 <= y < af1@.len() ==> (#[trigger] af1@[y]).val() == phase_2_table(
                f_1@,
                vals(u@),
                mix_of(g1@, g2@, alpha, beta),
                g1@.len(),
            )[y] % F::modulus(),
        (forall|i: usize| !#[trigger] f_1.evaluations@.contains_key(i)) ==> forall|y: int|
            0 <= y < af1@.len() ==> (#[trigger] af1@[y]).val() == 0,
        forall|y: int|
            0 <= y < af1@.len() ==> (#[trigger] af1@[y]).val() == sum(
                pow2(f_1.num_vars as nat),
                |i: int|
                    if rev(g1@.len(), rev(f_1.num_vars as nat, i as nat) % pow2(g1@.len())) == y {
                        (alpha.val() * weight(
                            rev(
                                g1@.len(),
                                rev(f_1.num_vars as nat, i as nat) / pow2(2 * g1@.len()),
                            ) as int,
                            vals(g1@),
                        ) + beta.val() * weight(
                            rev(
                                g2@.len(),
                                rev(f_1.num_vars as nat, i as nat) / pow2(2 * g1@.len()),
                            ) as int,
                            vals(g2@),
                        )) * weight(
                            rev(
                                u@.len(),
                                (rev(f_1.num_vars as nat, i as nat) / pow2(g1@.len())) % pow2(
                                    g1@.len(),
                                ),
                            ) as int,
                            vals(u@),
                        ) * f_1@[i]
                    } else {
                        0
                    },
            ) % F::modulus(),
{
    let v = g1.len();
    let le_indices_f_1 = to_le_indices(f_1.num_vars);
    let le_indices_g = to_le_indices(v);
    let table_g = mixed_weights(g1, g2, alpha, beta);
    let table_u = precompute(u);
    let list = entries(&f_1.evaluations);
    let mut af1: Vec<F> = zeros(shifted_one(v));
    let ghost p = F::modulus();
    let ghost n = v as nat;
    let ghost m = f_1.num_vars as nat;
    let ghost size = pow2(m);
    let ghost mix = mix_of(g1@, g2@, alpha, beta);
    let ghost point = vals(u@);
    proof {
        F::lemma_modulus();
        lemma_list_fits(f_1, list@, n, g1@, g2@);
        assert forall|i: int| 0 <= i < list@.len() implies be_x(
            (#[trigger] list@[i]).0 as int,
            m,
            n,
        ) < table_u@.len() by {
            assert(f_1.evaluations@.contains_key(list@[i].0));
        }
        assert forall|y: int| 0 <= y < af1@.len() implies (#[trigger] af1@[y]).val()
            == second_table(partial_table(list@, size, 0), m, point, mix, n)[y] % p by {
            lemma_tables_of_zero(partial_table(list@, size, 0), m, point, point, mix, n, y);
            vstd::arithmetic::div_mod::lemma_small_mod(0, p as nat);
        }
    }
    for e in 0..list.len()
        invariant
            p == F::modulus(),
            p >= 3,
            n == v,
            0 < v < usize::BITS,
            size == pow2(m),
            mix == mix_of(g1@, g2@, alpha, beta),
            reverses(le_indices_f_1@, m),
            reverses(le_indices_g@, n),
            list_fits(list@, m, n, table_g@.len()),
            forall|b: int|
                0 <= b < table_g@.len() ==> (#[trigger] table_g@[b]).val() == mixed_be_weight(
                    mix,
                    b,
                ) % p,
            is_weight_table(table_u@, point),
            forall|i: int|
                0 <= i < list@.len() ==> be_x((#[trigger] list@[i]).0 as int, m, n)
                    < table_u@.len(),
            forall|i: int, j: int|
                0 <= i < j < list@.len() ==> (#[trigger] list@[i]).0 != (#[trigger] list@[j]).0,
            af1@.len() == pow2(n),
            forall|y: int|
                0 <= y < af1@.len() ==> (#[trigger] af1@[y]).val() == second_table(
                    partial_table(list@, size, e as nat),
                    m,
                    point,
                    mix,
                    n,
                )[y] % p,
    {
        let (idx_le, val) = list[e];
        assert(list_fits(list@, m, n, table_g@.len()));
        assert(list@[e as int].0 < size);
        let idx = le_indices_f_1[idx_le];
        let (z, x, y) = usize_to_zxy(idx, v);
        let ghost k = idx_le as int;
        let ghost part = partial_table(list@, size, e as nat);
        proof {
            lemma_pow2_pos(n);
            lemma_partial_table(list@, size, e as nat);
            lemma_rev_bound(n, y as nat);
            assert(part[k] == 0) by {
                assert forall|j: int| 0 <= j < e implies (#[trigger] list@[j]).0 != k by {
                    assert(list@[j].0 != list@[e as int].0);
                }
            }
        }
        let target = le_indices_g[y];
        let product = table_g[z].mul(table_u[x]).mul(val);
        let ghost before = af1@;
        let updated = af1[target].add(product);
        af1.set(target, updated);
        proof {
            let w = mixed_be_weight(mix, z as int);
            let t = be_weight(x as int, point);
            let value = val.val();
            lemma_cong_reduce(w, p);
            lemma_scaled(w % p, w, t % p, t, p);
            let wt = ((w % p) * (t % p)) % p;
            lemma_cong_mul(wt, w * t, value, value, p);
            lemma_cong_reduce(wt * value, p);
            let next = partial_table(list@, size, (e + 1) as nat);
            assert forall|c: int| 0 <= c < af1@.len() implies (#[trigger] af1@[c]).val()
                == second_table(next, m, point, mix, n)[c] % p by {
                lemma_second_update(part, m, point, mix, n, k, value, c);
                let old_sum = second_table(part, m, point, mix, n)[c];
                assert(before[c].val() == old_sum % p);
                if c == target {
                    lemma_cong_reduce(old_sum, p);
                    lemma_cong_add(old_sum % p, old_sum, product.val(), w * t * value, p);
                }
            }
        }
    }
    proof {
        lemma_full_table(f_1, list@);
        if f_1.num_vars == 3 * v && g2@.len() == v && u@.len() == v {
            lemma_even_tables(f_1@, point, point, mix, n);
        }
        if forall|i: usize| !#[trigger] f_1.evaluations@.contains_key(i) {
            assert forall|y: int| 0 <= y < af1@.len() implies (#[trigger] af1@[y]).val() == 0 by {
                lemma_tables_of_zero(f_1@, m, point, point, mix, n, y);
                vstd::arithmetic::div_mod::lemma_small_mod(0, p as nat);
            }
        }
        assert forall|y: int| 0 <= y < af1@.len() implies (#[trigger] af1@[y]).val() == sum(
            pow2(f_1.num_vars as nat),
            |i: int|
                if rev(g1@.len(), rev(f_1.num_vars as nat, i as nat) % pow2(g1@.len())) == y {
                    (alpha.val() * weight(
                        rev(
                            g1@.len(),
                            rev(f_1.num_vars as nat, i as nat) / pow2(2 * g1@.len()),
                        ) as int,
                        vals(g1@),
                    ) + beta.val() * weight(
                        rev(
                            g2@.len(),
                            rev(f_1.num_vars as nat, i as nat) / pow2(2 * g1@.len()),
                        ) as int,
                        vals(g2@),
                    )) * weight(
                        rev(
                            u@.len(),
                            (rev(f_1.num_vars as nat, i as nat) / pow2(g1@.len())) % pow2(
                                g1@.len(),
                            ),
                        ) as int,
                        vals(u@),
                    ) * f_1@[i]
                } else {
                    0
                },
        ) % p by {
            lemma_second_in_full(f_1@, m, u@, g1@, g2@, alpha, beta, g1@.len(), y);
        }
    }
    af1
}

/// The entry `y` of the table of the second phase: the values of the first factor at the indices
/// with block `y`, each with the mixed weight of its block `z` and the weight at `u` of its block
/// `x`.
pub proof fn lemma_second_in_full<F: PrimeField>(
    f1: Seq<int>,
    n: nat,
    u: Seq<F>,
    g1: Seq<F>,
    g2: Seq<F>,
    alpha: F,
    beta: F,
    v: nat,
    y: int,
)
    requires
        0 <= y < pow2(v),
    ensures
        second_table(f1, n, vals(u), mix_of(g1, g2, alpha, beta), v)[y] == sum(
            pow2(n),
            |i: int|
                if rev(v, rev(n, i as nat) % pow2(v)) == y {
                    (alpha.val() * weight(
                        rev(g1.len(), rev(n, i as nat) / pow2(2 * v)) as int,
                        vals(g1),
                    ) + beta.val() * weight(
                        rev(g2.len(), rev(n, i as nat) / pow2(2 * v)) as int,
                        vals(g2),
                    )) * weight(
                        rev(u.len(), (rev(n, i as nat) / pow2(v)) % pow2(v)) as int,
                        vals(u),
                    ) * f1[i]
                } else {
                    0
                },
        ),
{
    let mix = mix_of(g1, g2, alpha, beta);
    let point = vals(u);
    lemma_pow2_pos(v);
    lemma_pow2_pos(2 * v);
    assert forall|i: int| 0 <= i < pow2(n) implies be_z(i, n, v) >= 0 && be_x(i, n, v) >= 0
        && #[trigger] be_y(i, n, v) >= 0 by {
        let r = rev(n, i as nat) as int;
        vstd::arithmetic::div_mod::lemma_div_pos_is_pos(r, pow2(2 * v) as int);
        vstd::arithmetic::div_mod::lemma_mod_bound(r / (pow2(v) as int), pow2(v) as int);
        vstd::arithmetic::div_mod::lemma_mod_bound(r, pow2(v) as int);
    }
    lemma_sum_eq(
        pow2(n),
        |i: int|
            if rev(v, be_y(i, n, v) as nat) == y {
                mixed_be_weight(mix, be_z(i, n, v)) * be_weight(be_x(i, n, v), point) * f1[i]
            } else {
                0
            },
        |i: int|
            if rev(v, rev(n, i as nat) % pow2(v)) == y {
                (alpha.val() * weight(
                    rev(g1.len(), rev(n, i as nat) / pow2(2 * v)) as int,
                    vals(g1),
                ) + beta.val() * weight(
                    rev(g2.len(), rev(n, i as nat) / pow2(2 * v)) as int,
                    vals(g2),
                )) * weight(
                    rev(u.len(), (rev(n, i as nat) / pow2(v)) % pow2(v)) as int,
                    vals(u),
                ) * f1[i]
            } else {
                0
            },
    );
}

} // verus!
