//! Finite sums of integers.

use vstd::arithmetic::power2::{lemma2_to64, lemma_pow2_unfold, pow2};
use vstd::prelude::*;

use crate::field::{cong, lemma_cong_add};
use crate::indices::rev;

verus! {

/// `f(0) + f(1) + .. + f(n - 1)`.
pub open spec fn sum(n: nat, f: spec_fn(int) -> int) -> int
    decreases n,
{
    if n == 0 {
        0
    } else {
        sum((n - 1) as nat, f) + f(n - 1)
    }
}

/// Sums of equal terms are equal.
pub proof fn lemma_sum_eq(n: nat, f: spec_fn(int) -> int, g: spec_fn(int) -> int)
    requires
        forall|i: int| 0 <= i < n ==> #[trigger] f(i) == g(i),
    ensures
        sum(n, f) == sum(n, g),
    decreases n,
{
    if n > 0 {
        lemma_sum_eq((n - 1) as nat, f, g);
        assert(f(n - 1) == g(n - 1));
    }
}

/// Sums of congruent terms are congruent.
pub proof fn lemma_sum_cong(n: nat, f: spec_fn(int) -> int, g: spec_fn(int) -> int, p: int)
    requires
        p > 0,
        forall|i: int| 0 <= i < n ==> cong(#[trigger] f(i), g(i), p),
    ensures
        cong(sum(n, f), sum(n, g), p),
    decreases n,
{
    if n > 0 {
        lemma_sum_cong((n - 1) as nat, f, g, p);
        assert(cong(f(n - 1), g(n - 1), p));
        lemma_cong_add(sum((n - 1) as nat, f), sum((n - 1) as nat, g), f(n - 1), g(n - 1), p);
    }
}

/// A sum of zeros.
pub proof fn lemma_sum_zero(n: nat, f: spec_fn(int) -> int)
    requires
        forall|i: int| 0 <= i < n ==> #[trigger] f(i) == 0,
    ensures
        sum(n, f) == 0,
    decreases n,
{
    if n > 0 {
        lemma_sum_zero((n - 1) as nat, f);
        assert(f(n - 1) == 0);
    }
}

/// The sum of the terms of two sums, added index by index.
pub proof fn lemma_sum_add(
    n: nat,
    f: spec_fn(int) -> int,
    g: spec_fn(int) -> int,
    h: spec_fn(int) -> int,
)
    requires
        forall|i: int| 0 <= i < n ==> #[trigger] h(i) == f(i) + g(i),
    ensures
        sum(n, h) == sum(n, f) + sum(n, g),
    decreases n,
{
    if n > 0 {
        lemma_sum_add((n - 1) as nat, f, g, h);
        assert(h(n - 1) == f(n - 1) + g(n - 1));
    }
}

/// A common factor can be taken out of a sum.
pub proof fn lemma_sum_scale(n: nat, c: int, f: spec_fn(int) -> int, h: spec_fn(int) -> int)
    requires
        forall|i: int| 0 <= i < n ==> #[trigger] h(i) == c * f(i),
    ensures
        sum(n, h) == c * sum(n, f),
    decreases n,
{
    if n > 0 {
        let m = (n - 1) as nat;
        lemma_sum_scale(m, c, f, h);
        assert(h(n - 1) == c * f(n - 1));
        assert(c * sum(m, f) + c * f(n - 1) == c * (sum(m, f) + f(n - 1))) by (nonlinear_arith);
    } else {
        assert(c * 0 == 0) by (nonlinear_arith);
    }
}

/// The order of two sums can be exchanged.
pub proof fn lemma_sum_swap(n: nat, m: nat, f: spec_fn(int, int) -> int)
    ensures
        sum(n, |i: int| sum(m, |j: int| f(i, j))) == sum(m, |j: int| sum(n, |i: int| f(i, j))),
    decreases n,
{
    let by_row = |i: int| sum(m, |j: int| f(i, j));
    let by_column = |j: int| sum(n, |i: int| f(i, j));
    if n == 0 {
        lemma_sum_zero(m, by_column);
    } else {
        let k = (n - 1) as nat;
        lemma_sum_swap(k, m, f);
        lemma_sum_add(
            m,
            |j: int| sum(k, |i: int| f(i, j)),
            |j: int| f(k as int, j),
            by_column,
        );
    }
}

/// A sum cut in two.
pub proof fn lemma_sum_split(n: nat, m: nat, f: spec_fn(int) -> int)
    ensures
        sum(n + m, f) == sum(n, f) + sum(m, |i: int| f(n + i)),
    decreases m,
{
    if m > 0 {
        lemma_sum_split(n, (m - 1) as nat, f);
        assert((n + m - 1) as nat == n + (m - 1) as nat);
    }
}

/// A sum over an even number of terms, taken in pairs.
pub proof fn lemma_sum_pairs(n: nat, f: spec_fn(int) -> int)
    ensures
        sum(2 * n, f) == sum(n, |i: int| f(2 * i) + f(2 * i + 1)),
    decreases n,
{
    if n > 0 {
        lemma_sum_pairs((n - 1) as nat, f);
        reveal_with_fuel(sum, 3);
        assert((2 * n - 2) as nat == 2 * (n - 1) as nat);
    }
}

/// A sum with at most one term that is not zero.
pub proof fn lemma_sum_single(n: nat, k: int, f: spec_fn(int) -> int)
    requires
        0 <= k < n,
        forall|i: int| 0 <= i < n && i != k ==> #[trigger] f(i) == 0,
    ensures
        sum(n, f) == f(k),
    decreases n,
{
    if k == n - 1 {
        lemma_sum_zero((n - 1) as nat, f);
    } else {
        lemma_sum_single((n - 1) as nat, k, f);
        assert(f(n - 1) == 0);
    }
}

/// What a change of one term does to a sum.
pub proof fn lemma_sum_update(n: nat, k: int, f: spec_fn(int) -> int, g: spec_fn(int) -> int)
    requires
        0 <= k < n,
        forall|i: int| 0 <= i < n && i != k ==> #[trigger] g(i) == f(i),
    ensures
        sum(n, g) == sum(n, f) + g(k) - f(k),
    decreases n,
{
    if k == n - 1 {
        lemma_sum_eq((n - 1) as nat, g, f);
    } else {
        lemma_sum_update((n - 1) as nat, k, f, g);
        assert(g(n - 1) == f(n - 1));
    }
}

/// Summing group by group, with a factor for each group.
pub proof fn lemma_sum_group(
    n: nat,
    m: nat,
    group: spec_fn(int) -> int,
    t: spec_fn(int) -> int,
    c: spec_fn(int) -> int,
)
    requires
        forall|i: int| 0 <= i < n ==> 0 <= #[trigger] group(i) < m,
    ensures
        sum(
            m,
            |x: int|
                c(x) * sum(
                    n,
                    |i: int|
                        if group(i) == x {
                            t(i)
                        } else {
                            0
                        },
                ),
        ) == sum(n, |i: int| c(group(i)) * t(i)),
{
    let f = |x: int, i: int|
        if group(i) == x {
            c(x) * t(i)
        } else {
            0
        };
    let by_group = |x: int|
        c(x) * sum(
            n,
            |i: int|
                if group(i) == x {
                    t(i)
                } else {
                    0
                },
        );
    let rows = |x: int| sum(n, |i: int| f(x, i));
    let columns = |i: int| sum(m, |x: int| f(x, i));
    let flat = |i: int| c(group(i)) * t(i);
    assert forall|x: int| 0 <= x < m implies #[trigger] by_group(x) == rows(x) by {
        let members = |i: int|
            if group(i) == x {
                t(i)
            } else {
                0
            };
        let row = |i: int| f(x, i);
        assert(c(x) * 0 == 0) by (nonlinear_arith);
        lemma_sum_scale(n, c(x), members, row);
    }
    lemma_sum_eq(m, by_group, rows);
    lemma_sum_swap(m, n, f);
    assert forall|i: int| 0 <= i < n implies #[trigger] columns(i) == flat(i) by {
        assert(0 <= group(i) < m);
        let column = |x: int| f(x, i);
        lemma_sum_single(m, group(i), column);
    }
    lemma_sum_eq(n, columns, flat);
}

/// The order of the terms of a sum does not matter.
pub proof fn lemma_sum_permuted<A>(a: Seq<A>, b: Seq<A>, f: spec_fn(A) -> int)
    requires
        a.to_multiset() == b.to_multiset(),
    ensures
        a.len() == b.len(),
        sum(a.len(), |i: int| f(a[i])) == sum(b.len(), |i: int| f(b[i])),
    decreases a.len(),
{
    a.to_multiset_ensures();
    b.to_multiset_ensures();
    if a.len() > 0 {
        let n = (a.len() - 1) as nat;
        let (front, last) = (a.drop_last(), a.last());
        assert(a.contains(last)) by {
            assert(a[n as int] == last);
        }
        assert(b.to_multiset().count(last) > 0);
        assert(b.contains(last));
        let k = choose|k: int| 0 <= k < b.len() && b[k] == last;
        let rest = b.remove(k);
        assert(a.remove(n as int) =~= front);
        assert(front.to_multiset() =~= rest.to_multiset());
        lemma_sum_permuted(front, rest, f);
        let (fa, fb) = (|i: int| f(a[i]), |i: int| f(b[i]));
        let (front_terms, rest_terms) = (|i: int| f(front[i]), |i: int| f(rest[i]));
        lemma_sum_eq(n, fa, front_terms);
        let upper = (n - k) as nat;
        assert(k as nat + (upper + 1) == b.len());
        lemma_sum_split(k as nat, upper + 1, fb);
        lemma_sum_split(k as nat, upper, rest_terms);
        lemma_sum_eq(k as nat, fb, rest_terms);
        let from_k = |i: int| fb(k as nat + i);
        lemma_sum_split(1, upper, from_k);
        reveal_with_fuel(sum, 2);
        assert(sum(1, from_k) == f(last));
        lemma_sum_eq(
            upper,
            |i: int| from_k(1 + i),
            |i: int| rest_terms(k as nat + i),
        );
    }
}

/// Summing over the bit reversals of all indices is summing over all indices.
pub proof fn lemma_sum_rev(n: nat, f: spec_fn(int) -> int)
    ensures
        sum(pow2(n), |i: int| f(rev(n, i as nat) as int)) == sum(pow2(n), f),
    decreases n,
{
    let reversed = |i: int| f(rev(n, i as nat) as int);
    lemma2_to64();
    if n == 0 {
        lemma_sum_eq(1, reversed, f);
    } else {
        let m = (n - 1) as nat;
        let half = pow2(m);
        lemma_pow2_unfold(n);
        let low = |i: int| f(rev(m, i as nat) as int);
        let high = |i: int| f(half + rev(m, i as nat) as int);
        let shifted = |i: int| f(half + i);
        let pairs = |i: int| reversed(2 * i) + reversed(2 * i + 1);
        lemma_sum_pairs(half, reversed);
        assert forall|i: int| 0 <= i < half implies #[trigger] pairs(i) == low(i) + high(i) by {
            assert((2 * i) as nat % 2 == 0 && (2 * i) as nat / 2 == i as nat);
            assert((2 * i + 1) as nat % 2 == 1 && (2 * i + 1) as nat / 2 == i as nat);
            assert(0 * half == 0 && 1 * half == half) by (nonlinear_arith);
        }
        lemma_sum_add(half, low, high, pairs);
        lemma_sum_rev(m, f);
        lemma_sum_rev(m, shifted);
        lemma_sum_eq(half, high, |i: int| shifted(rev(m, i as nat) as int));
        lemma_sum_split(half, half, f);
        assert(half + half == pow2(n));
    }
}

} // verus!
