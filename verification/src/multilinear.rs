//! Multilinear polynomials over the integers, given by their values on the Boolean hypercube.
//!
//! Bit `k` of an index is the value of variable `k`: indices are little-endian.

use vstd::arithmetic::power2::{lemma2_to64, lemma_pow2_unfold, pow2};
use vstd::prelude::*;

use crate::sums::{lemma_sum_eq, lemma_sum_scale, lemma_sum_split, sum};

verus! {

/// The value at `point` of the multilinear polynomial that is one at the hypercube point `i` and
/// zero at the others.
pub open spec fn weight(i: int, point: Seq<int>) -> int
    decreases point.len(),
{
    if point.len() == 0 {
        1
    } else {
        (if i % 2 == 1 {
            point[0]
        } else {
            1 - point[0]
        }) * weight(i / 2, point.drop_first())
    }
}

/// The value at `point` of the multilinear polynomial with the given values on the hypercube.
pub open spec fn mle(table: Seq<int>, point: Seq<int>) -> int {
    sum(pow2(point.len()), |i: int| table[i] * weight(i, point))
}

/// The table of the polynomial whose first variable is set to `r`.
pub open spec fn bind(table: Seq<int>, r: int) -> Seq<int> {
    Seq::new(table.len() / 2, |j: int| table[2 * j] * (1 - r) + table[2 * j + 1] * r)
}

/// The table of the polynomial whose first variables are set to `rs`.
pub open spec fn bind_all(table: Seq<int>, rs: Seq<int>) -> Seq<int>
    decreases rs.len(),
{
    if rs.len() == 0 {
        table
    } else {
        bind(bind_all(table, rs.drop_last()), rs.last())
    }
}

/// The sum over all indices of the product of two tables.
pub open spec fn inner(f: Seq<int>, g: Seq<int>) -> int {
    sum(f.len(), |j: int| f[j] * g[j])
}

/// The weight at a point that is given in two parts.
pub proof fn lemma_weight_concat(i: int, j: int, a: Seq<int>, b: Seq<int>)
    requires
        0 <= i < pow2(a.len()),
        0 <= j,
    ensures
        weight(i + pow2(a.len()) * j, a + b) == weight(i, a) * weight(j, b),
    decreases a.len(),
{
    lemma2_to64();
    if a.len() == 0 {
        assert(a + b =~= b);
        assert(i + pow2(0) * j == j);
    } else {
        let m = (a.len() - 1) as nat;
        let rest = a.drop_first();
        lemma_pow2_unfold(a.len());
        let step = pow2(m) * j;
        assert(pow2(a.len()) * j == 2 * step) by (nonlinear_arith)
            requires
                pow2(a.len()) == 2 * pow2(m),
                step == pow2(m) * j,
        ;
        let whole = i + pow2(a.len()) * j;
        assert(step >= 0) by (nonlinear_arith)
            requires
                step == pow2(m) * j,
                j >= 0,
                pow2(m) >= 0,
        ;
        assert(whole % 2 == i % 2 && whole / 2 == i / 2 + step);
        assert((a + b).drop_first() =~= rest + b);
        lemma_weight_concat(i / 2, j, rest, b);
        let c = if i % 2 == 1 {
            a[0]
        } else {
            1 - a[0]
        };
        assert(c * (weight(i / 2, rest) * weight(j, b)) == (c * weight(i / 2, rest)) * weight(j, b))
            by (nonlinear_arith);
    }
}

/// The weight at a point of one coordinate.
pub proof fn lemma_weight_one(r: int)
    ensures
        weight(0, seq![r]) == 1 - r,
        weight(1, seq![r]) == r,
{
    reveal_with_fuel(weight, 2);
}

/// What setting the first variables of a polynomial makes of its table.
pub proof fn lemma_bind_all(table: Seq<int>, rs: Seq<int>, m: nat)
    requires
        table.len() == pow2(rs.len() + m),
    ensures
        bind_all(table, rs).len() == pow2(m),
        forall|j: int|
            0 <= j < pow2(m) ==> #[trigger] bind_all(table, rs)[j] == sum(
                pow2(rs.len()),
                |i: int| table[i + pow2(rs.len()) * j] * weight(i, rs),
            ),
    decreases rs.len(),
{
    lemma2_to64();
    if rs.len() == 0 {
        assert forall|j: int| 0 <= j < pow2(m) implies #[trigger] bind_all(table, rs)[j] == sum(
            pow2(0),
            |i: int| table[i + pow2(0) * j] * weight(i, rs),
        ) by {
            let f = |i: int| table[i + pow2(0) * j] * weight(i, rs);
            reveal_with_fuel(sum, 2);
            assert(0 + pow2(0) * j == j);
            assert(f(0) == table[j]);
        }
    } else {
        let k = (rs.len() - 1) as nat;
        let init = rs.drop_last();
        let r = rs.last();
        assert(k + (m + 1) == rs.len() + m);
        lemma_bind_all(table, init, m + 1);
        lemma_pow2_unfold(m + 1);
        lemma_pow2_unfold(rs.len());
        let prev = bind_all(table, init);
        let size = pow2(k);
        assert(rs =~= init + seq![r]);
        lemma_weight_one(r);
        assert forall|j: int| 0 <= j < pow2(m) implies #[trigger] bind_all(table, rs)[j] == sum(
            pow2(rs.len()),
            |i: int| table[i + pow2(rs.len()) * j] * weight(i, rs),
        ) by {
            let f = |i: int| table[i + pow2(rs.len()) * j] * weight(i, rs);
            let even = |i: int| table[i + size * (2 * j)] * weight(i, init);
            let odd = |i: int| table[i + size * (2 * j + 1)] * weight(i, init);
            assert(prev[2 * j] == sum(size, even));
            assert(prev[2 * j + 1] == sum(size, odd));
            lemma_sum_split(size, size, f);
            assert(pow2(rs.len()) * j == size * (2 * j)) by (nonlinear_arith)
                requires
                    pow2(rs.len()) == 2 * size,
            ;
            assert(size + pow2(rs.len()) * j == size * (2 * j + 1)) by (nonlinear_arith)
                requires
                    pow2(rs.len()) == 2 * size,
            ;
            assert forall|i: int| 0 <= i < size implies #[trigger] f(i) == (1 - r) * even(i) by {
                lemma_weight_concat(i, 0, init, seq![r]);
                let (t, w) = (table[i + size * (2 * j)], weight(i, init));
                assert(size * 0 == 0) by (nonlinear_arith);
                assert(t * (w * (1 - r)) == (1 - r) * (t * w)) by (nonlinear_arith);
            }
            let upper = |i: int| f(size + i);
            assert forall|i: int| 0 <= i < size implies #[trigger] upper(i) == r * odd(i) by {
                lemma_weight_concat(i, 1, init, seq![r]);
                let (t, w) = (table[i + size * (2 * j + 1)], weight(i, init));
                assert(size * 1 == size) by (nonlinear_arith);
                assert(t * (w * r) == r * (t * w)) by (nonlinear_arith);
            }
            lemma_sum_scale(size, 1 - r, even, f);
            lemma_sum_scale(size, r, odd, upper);
            let (x, y) = (sum(size, even), sum(size, odd));
            assert(x * (1 - r) == (1 - r) * x && y * r == r * y) by (nonlinear_arith);
        }
    }
}

/// Setting all variables leaves the value of the polynomial.
pub proof fn lemma_bind_all_is_mle(table: Seq<int>, rs: Seq<int>)
    requires
        table.len() == pow2(rs.len()),
    ensures
        bind_all(table, rs).len() == 1,
        bind_all(table, rs)[0] == mle(table, rs),
{
    lemma2_to64();
    lemma_bind_all(table, rs, 0);
    let f = |i: int| table[i + pow2(rs.len()) * 0] * weight(i, rs);
    assert(pow2(rs.len()) * 0 == 0);
    lemma_sum_eq(pow2(rs.len()), f, |i: int| table[i] * weight(i, rs));
}

} // verus!
