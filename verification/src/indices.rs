//! Indices into tables of evaluations: bit reversal, and the split into three blocks of bits.

use vstd::arithmetic::div_mod::{lemma_div_denominator, lemma_fundamental_div_mod};
use vstd::arithmetic::power2::{
    lemma2_to64, lemma_pow2_adds, lemma_pow2_pos, lemma_pow2_unfold, pow2,
};
use vstd::bits::{lemma_usize_pow2_no_overflow, lemma_usize_shl_is_mul, lemma_usize_shr_is_div};
use vstd::prelude::*;

verus! {

/// The number whose `n` lowest bits are those of `i` in reverse order.
pub open spec fn rev(n: nat, i: nat) -> nat
    decreases n,
{
    if n == 0 {
        0
    } else {
        (i % 2) * pow2((n - 1) as nat) + rev((n - 1) as nat, i / 2)
    }
}

/// `usize::reverse_bits` turns the least significant bit into the most significant one, the second
/// least into the second most, and so on over the whole width of `usize`.
pub assume_specification[ usize::reverse_bits ](i: usize) -> (r: usize)
    ensures
        r as nat == rev(usize::BITS as nat, i as nat),
;

/// A reversal of `n` bits has `n` bits.
pub proof fn lemma_rev_bound(n: nat, i: nat)
    ensures
        rev(n, i) < pow2(n),
    decreases n,
{
    lemma2_to64();
    if n > 0 {
        let m = (n - 1) as nat;
        lemma_rev_bound(m, i / 2);
        lemma_pow2_unfold(n);
        assert((i % 2) * pow2(m) <= pow2(m)) by (nonlinear_arith)
            requires
                i % 2 == 0 || i % 2 == 1,
        ;
    }
}

/// Reversal of a number given by its `a` low bits and the `b` bits above them.
pub proof fn lemma_rev_concat(a: nat, b: nat, i: nat, j: nat)
    requires
        i < pow2(a),
    ensures
        rev(a + b, i + pow2(a) * j) == rev(a, i) * pow2(b) + rev(b, j),
    decreases a,
{
    lemma2_to64();
    if a == 0 {
        assert(i + pow2(0) * j == j);
        assert(rev(a, i) * pow2(b) == 0) by (nonlinear_arith)
            requires
                rev(a, i) == 0,
        ;
    } else {
        let m = (a - 1) as nat;
        lemma_pow2_unfold(a);
        let whole = i + pow2(a) * j;
        let step = pow2(m) * j;
        assert(pow2(a) * j == 2 * step) by (nonlinear_arith)
            requires
                pow2(a) == 2 * pow2(m),
                step == pow2(m) * j,
        ;
        assert(whole % 2 == i % 2 && whole / 2 == i / 2 + step);
        lemma_rev_concat(m, b, i / 2, j);
        lemma_pow2_adds(m, b);
        assert((a + b - 1) as nat == m + b);
        let c = i % 2;
        let x = rev(m, i / 2);
        assert(c * (pow2(m) * pow2(b)) + x * pow2(b) == (c * pow2(m) + x) * pow2(b))
            by (nonlinear_arith);
    }
}

/// Reversing twice gives back the number.
pub proof fn lemma_rev_involutive(n: nat, i: nat)
    requires
        i < pow2(n),
    ensures
        rev(n, rev(n, i)) == i,
    decreases n,
{
    lemma2_to64();
    if n > 0 {
        let m = (n - 1) as nat;
        lemma_pow2_unfold(n);
        lemma_rev_involutive(m, i / 2);
        lemma_rev_bound(m, i / 2);
        lemma_rev_concat(m, 1, rev(m, i / 2), i % 2);
        assert(pow2(m) * (i % 2) == (i % 2) * pow2(m)) by (nonlinear_arith);
        reveal_with_fuel(rev, 2);
        assert(rev(1, i % 2) == i % 2);
        assert(m + 1 == n);
    }
}

/// Reversal of zero.
pub proof fn lemma_rev_zero(n: nat)
    ensures
        rev(n, 0) == 0,
    decreases n,
{
    if n > 0 {
        lemma_rev_zero((n - 1) as nat);
        assert(0 * pow2((n - 1) as nat) == 0) by (nonlinear_arith);
    }
}

/// `1 << n` is a power of two.
pub fn shifted_one(n: usize) -> (r: usize)
    requires
        n < usize::BITS,
    ensures
        r == pow2(n as nat),
{
    proof {
        lemma_usize_pow2_no_overflow(n as nat);
        lemma_usize_shl_is_mul(1, n);
    }
    1usize << n
}

/// The index conversion between big-endian and little-endian numbering of the points of the
/// Boolean hypercube of dimension `v`.
pub fn to_le_indices(v: usize) -> (r: Vec<usize>)
    requires
        0 < v < usize::BITS,
    ensures
        r@.len() == pow2(v as nat),
        forall|i: int| 0 <= i < r@.len() ==> #[trigger] r@[i] == rev(v as nat, i as nat),
{
    let size = shifted_one(v);
    let shift: usize = usize::BITS as usize - v;
    let mut r: Vec<usize> = Vec::new();
    for i in 0..size
        invariant
            0 < v < usize::BITS,
            size == pow2(v as nat),
            shift == usize::BITS - v,
            r@.len() == i,
            forall|j: int| 0 <= j < i ==> #[trigger] r@[j] == rev(v as nat, j as nat),
    {
        let reversed = i.reverse_bits();
        proof {
            let (n, w) = (v as nat, shift as nat);
            lemma_rev_concat(n, w, i as nat, 0);
            assert(pow2(n) * 0 == 0);
            lemma_rev_zero(w);
            lemma_pow2_pos(w);
            lemma_usize_shr_is_div(reversed, shift);
            vstd::arithmetic::div_mod::lemma_div_by_multiple(rev(n, i as nat) as int, pow2(w) as int);
            lemma_rev_bound(n, i as nat);
        }
        r.push(reversed >> shift);
    }
    r
}

/// Splits a big-endian index of `3 * v` bits into the blocks `z`, `x` and `y` of `v` bits each,
/// most significant block first.
pub fn usize_to_zxy(idx: usize, v: usize) -> (r: (usize, usize, usize))
    requires
        2 * v < usize::BITS,
    ensures
        r.0 == idx as nat / pow2(2 * v as nat),
        r.1 == (idx as nat / pow2(v as nat)) % pow2(v as nat),
        r.2 == idx as nat % pow2(v as nat),
{
    let size = shifted_one(v);
    let square = shifted_one(2 * v);
    proof {
        lemma_pow2_pos(v as nat);
        lemma_pow2_pos(2 * v as nat);
    }
    (idx / square, (idx / size) % size, idx % size)
}

/// An index is put together again from its blocks `z`, `x` and `y`, most significant block first.
pub proof fn lemma_zxy(idx: nat, v: nat)
    ensures
        idx == (idx / pow2(2 * v)) * pow2(2 * v) + ((idx / pow2(v)) % pow2(v)) * pow2(v) + idx
            % pow2(v),
{
    let s = pow2(v) as int;
    lemma_pow2_pos(v);
    lemma_pow2_adds(v, v);
    assert(v + v == 2 * v);
    let i = idx as int;
    lemma_fundamental_div_mod(i, s);
    lemma_fundamental_div_mod(i / s, s);
    lemma_div_denominator(i, s, s);
    let (q, x) = ((i / s) / s, (i / s) % s);
    assert(s * (s * q + x) == q * (s * s) + x * s) by (nonlinear_arith);
}

} // verus!
