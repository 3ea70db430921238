//! The tables that the two phases of the prover run on.
//!
//! The first factor `f1(z, x, y)` has three blocks of `v` variables. In a little-endian index the
//! block `z` is the lowest, and `y` the highest.

use vstd::arithmetic::div_mod::{
    lemma_fundamental_div_mod, lemma_fundamental_div_mod_converse, lemma_mod_bound,
};
use vstd::arithmetic::power2::{lemma_pow2_adds, lemma_pow2_pos, pow2};
use vstd::prelude::*;

use crate::indices::{lemma_rev_bound, lemma_rev_concat, rev};
use crate::multilinear::{lemma_weight_concat, weight};
use crate::sums::sum;

verus! {

/// The block `z` of a little-endian index.
pub open spec fn block_z(i: int, v: nat) -> int {
    i % (pow2(v) as int)
}

/// The block `x` of a little-endian index.
pub open spec fn block_x(i: int, v: nat) -> int {
    (i / (pow2(v) as int)) % (pow2(v) as int)
}

/// The block `y` of a little-endian index.
pub open spec fn block_y(i: int, v: nat) -> int {
    (i / (pow2(v) as int)) / (pow2(v) as int)
}

/// The two points at which the block `z` is fixed, and the coefficients with which they count.
pub struct Mix {
    pub g1: Seq<int>,
    pub g2: Seq<int>,
    pub alpha: int,
    pub beta: int,
}

impl Mix {
    /// `alpha` times the weight of `z` at `g1` plus `beta` times its weight at `g2`.
    pub open spec fn weight(self, z: int) -> int {
        self.alpha * weight(z, self.g1) + self.beta * weight(z, self.g2)
    }
}

/// A term of the table of the first phase.
pub open spec fn phase_1_term(f1: Seq<int>, f3: Seq<int>, mix: Mix, v: nat, i: int) -> int {
    mix.weight(block_z(i, v)) * f1[i] * f3[block_y(i, v)]
}

/// The table of the first phase: at `x`, the sum over all `z` and `y` of
/// `f1(z, x, y) * f3(y)` times the weight of `z`.
pub open spec fn phase_1_table(f1: Seq<int>, f3: Seq<int>, mix: Mix, v: nat) -> Seq<int> {
    Seq::new(
        pow2(v),
        |x: int|
            sum(
                pow2(3 * v),
                |i: int|
                    if block_x(i, v) == x {
                        phase_1_term(f1, f3, mix, v, i)
                    } else {
                        0
                    },
            ),
    )
}

/// A term of the table of the second phase.
pub open spec fn phase_2_term(f1: Seq<int>, u: Seq<int>, mix: Mix, v: nat, i: int) -> int {
    mix.weight(block_z(i, v)) * weight(block_x(i, v), u) * f1[i]
}

/// The table of the second phase: at `y`, the sum over all `z` and `x` of `f1(z, x, y)` times the
/// weights of `z` and of `x` at `u`.
pub open spec fn phase_2_table(f1: Seq<int>, u: Seq<int>, mix: Mix, v: nat) -> Seq<int> {
    Seq::new(
        pow2(v),
        |y: int|
            sum(
                pow2(3 * v),
                |i: int|
                    if block_y(i, v) == y {
                        phase_2_term(f1, u, mix, v, i)
                    } else {
                        0
                    },
            ),
    )
}

/// An index is made of its blocks.
pub proof fn lemma_blocks(i: int, v: nat)
    requires
        0 <= i < pow2(3 * v),
    ensures
        0 <= block_z(i, v) < pow2(v),
        0 <= block_x(i, v) < pow2(v),
        0 <= block_y(i, v) < pow2(v),
        i == block_z(i, v) + pow2(v) * (block_x(i, v) + pow2(v) * block_y(i, v)),
{
    let s = pow2(v) as int;
    lemma_pow2_pos(v);
    lemma_pow2_adds(v, v);
    lemma_pow2_adds(2 * v, v);
    assert(v + v == 2 * v && 2 * v + v == 3 * v);
    lemma_mod_bound(i, s);
    lemma_mod_bound(i / s, s);
    lemma_fundamental_div_mod(i, s);
    lemma_fundamental_div_mod(i / s, s);
    assert(i / s >= 0) by (nonlinear_arith)
        requires
            i >= 0,
            s > 0,
    ;
    assert((i / s) / s >= 0) by (nonlinear_arith)
        requires
            i / s >= 0,
            s > 0,
    ;
    let y = (i / s) / s;
    if y >= s {
        assert(s * (i / s) >= s * (s * s)) by (nonlinear_arith)
            requires
                i / s >= s * y,
                y >= s,
                s > 0,
        ;
        assert(s * (s * s) == (s * s) * s) by (nonlinear_arith);
        assert(false);
    }
}

/// Reversing all bits of an index reverses the bits in each block and the order of the blocks.
pub proof fn lemma_rev_blocks(i: int, v: nat)
    requires
        0 <= i < pow2(3 * v),
    ensures
        ({
            let r = rev(3 * v, i as nat);
            &&& r / pow2(2 * v) == rev(v, block_z(i, v) as nat)
            &&& (r / pow2(v)) % pow2(v) == rev(v, block_x(i, v) as nat)
            &&& r % pow2(v) == rev(v, block_y(i, v) as nat)
        }),
{
    lemma_blocks(i, v);
    let (z, x, y) = (block_z(i, v) as nat, block_x(i, v) as nat, block_y(i, v) as nat);
    let s = pow2(v);
    lemma_pow2_pos(v);
    lemma_pow2_adds(v, v);
    assert(v + v == 2 * v && v + 2 * v == 3 * v);
    lemma_rev_concat(v, 2 * v, z, x + s * y);
    lemma_rev_concat(v, v, x, y);
    lemma_rev_bound(v, z);
    lemma_rev_bound(v, x);
    lemma_rev_bound(v, y);
    let (rz, rx, ry) = (rev(v, z) as int, rev(v, x) as int, rev(v, y) as int);
    let r = rev(3 * v, i as nat) as int;
    let low = rx * s + ry;
    assert(r == rz * (s * s) + low);
    assert(0 <= low < s * s) by (nonlinear_arith)
        requires
            low == rx * s + ry,
            0 <= rx <= s - 1,
            0 <= ry < s,
    ;
    assert(s * s > 0) by (nonlinear_arith)
        requires
            s > 0,
    ;
    lemma_fundamental_div_mod_converse(r, (s * s) as int, rz, low);
    assert(rz * (s * s) + rx * s == (rz * s + rx) * s) by (nonlinear_arith);
    lemma_fundamental_div_mod_converse(r, s as int, rz * s + rx, ry);
    lemma_fundamental_div_mod_converse(rz * s + rx, s as int, rz, rx);
}

/// The weight of an index at a point that is given in three blocks.
pub proof fn lemma_weight_blocks(i: int, v: nat, g: Seq<int>, x: Seq<int>, y: Seq<int>)
    requires
        0 <= i < pow2(3 * v),
        g.len() == v,
        x.len() == v,
        y.len() == v,
    ensures
        weight(i, g + x + y) == weight(block_z(i, v), g) * weight(block_x(i, v), x) * weight(
            block_y(i, v),
            y,
        ),
{
    lemma_blocks(i, v);
    let (bz, bx, by) = (block_z(i, v), block_x(i, v), block_y(i, v));
    assert(bx + pow2(v) * by >= 0) by (nonlinear_arith)
        requires
            bx >= 0,
            by >= 0,
    ;
    lemma_weight_concat(bz, bx + pow2(v) * by, g, x + y);
    lemma_weight_concat(bx, by, x, y);
    assert(g + x + y =~= g + (x + y));
    let (a, b, c) = (weight(bz, g), weight(bx, x), weight(by, y));
    assert(a * (b * c) == a * b * c) by (nonlinear_arith);
}

} // verus!
