//! Lagrange interpolation at the nodes `0, 1, .., n - 1`.

use vstd::arithmetic::div_mod::lemma_small_mod;
use vstd::prelude::*;

use crate::field::{
    cong, lemma_cong_add, lemma_cong_mul, lemma_cong_reduce, lemma_cong_small, lemma_cong_sub, vals,
    PrimeField,
};
use crate::sums::{lemma_sum_single, sum};

verus! {

/// The inverse of `a` modulo `p`, reduced, where there is one.
pub open spec fn inv(a: int, p: int) -> int {
    choose|x: int| 0 <= x < p && #[trigger] cong(a * x, 1, p)
}

/// The product over the nodes `m < bound` other than `j` of `(r - m) / (j - m)` modulo `p`.
pub open spec fn basis(j: int, bound: nat, r: int, p: int) -> int
    decreases bound,
{
    if bound == 0 {
        1
    } else {
        let m = bound - 1;
        basis(j, m as nat, r, p) * (if m == j {
            1
        } else {
            (r - m) * inv(j - m, p)
        })
    }
}

/// The value at `r`, modulo `p`, of the polynomial of degree less than `ys.len()` that takes the
/// value `ys[j]` at each node `j`: Lagrange's formula.
pub open spec fn interpolate(ys: Seq<int>, r: int, p: int) -> int {
    sum(ys.len(), |j: int| ys[j] * basis(j, ys.len(), r, p)) % p
}

/// An inverse is unique.
pub proof fn lemma_inv(a: int, x: int, p: int)
    requires
        0 <= x < p,
        cong(a * x, 1, p),
    ensures
        inv(a, p) == x,
{
    let y = inv(a, p);
    assert(0 <= y < p && cong(a * y, 1, p));
    lemma_cong_mul(a * y, 1, x, x, p);
    lemma_cong_mul(a * x, 1, y, y, p);
    assert((a * y) * x == (a * x) * y) by (nonlinear_arith);
    assert(1 * x == x && 1 * y == y);
    lemma_cong_small(x, y, p);
}

/// Interpolation through the values at 0, 1 and 2 of a polynomial of degree two gives back its
/// values.
pub proof fn lemma_interpolate_quadratic(ys: Seq<int>, c0: int, c1: int, c2: int, r: int, p: int)
    requires
        p >= 3,
        p % 2 == 1,
        ys.len() == 3,
        cong(ys[0], c0, p),
        cong(ys[1], c0 + c1 + c2, p),
        cong(ys[2], c0 + 2 * c1 + 4 * c2, p),
    ensures
        interpolate(ys, r, p) == (c0 + c1 * r + c2 * (r * r)) % p,
{
    let h = (p + 1) / 2;
    assert(2 * h == p + 1);
    vstd::arithmetic::div_mod::lemma_mod_add_multiples_vanish(1, p);
    lemma_inv(2, h, p);
    lemma_inv(1, 1, p);
    assert(-1 * (p - 1) == 1 + p * (-1)) by (nonlinear_arith);
    vstd::arithmetic::div_mod::lemma_mod_multiples_vanish(-1, 1, p);
    lemma_inv(-1, p - 1, p);
    let k = p - h;
    assert(-2 * k == 1 + p * (-1)) by (nonlinear_arith)
        requires
            k == p - h,
            2 * h == p + 1,
    ;
    lemma_inv(-2, k, p);
    reveal_with_fuel(basis, 4);
    reveal_with_fuel(sum, 4);
    let term = |j: int| ys[j] * basis(j, 3, r, p);
    let b0 = 1 * ((r - 1) * (p - 1)) * ((r - 2) * k);
    let b1 = (r * 1) * ((r - 2) * (p - 1));
    let b2 = (r * h) * ((r - 1) * 1);
    assert(basis(0, 3, r, p) == b0);
    assert(basis(1, 3, r, p) == b1);
    assert(basis(2, 3, r, p) == b2);
    let (y0, y1, y2) = (c0, c0 + c1 + c2, c0 + 2 * c1 + 4 * c2);
    lemma_cong_mul(ys[0], y0, b0, b0, p);
    lemma_cong_mul(ys[1], y1, b1, b1, p);
    lemma_cong_mul(ys[2], y2, b2, b2, p);
    lemma_cong_add(ys[0] * b0, y0 * b0, ys[1] * b1, y1 * b1, p);
    lemma_cong_add(ys[0] * b0 + ys[1] * b1, y0 * b0 + y1 * b1, ys[2] * b2, y2 * b2, p);
    let target = c0 + c1 * r + c2 * (r * r);
    // The inverses that occur are p - 1, h and p - h, so that the sum is the target up to a
    // multiple of p.
    let x = c0 * ((r - 1) * (r - 1)) + (c1 + 2 * c2) * (r * (r - 1));
    let u0 = y0 * ((r - 1) * (r - 2));
    let u1 = y1 * (r * (r - 2));
    let q = u0 * (p - 1 - h) + u1 + x;
    assert(y0 * b0 == u0 * ((p - 1) * (p - h))) by (nonlinear_arith)
        requires
            b0 == 1 * ((r - 1) * (p - 1)) * ((r - 2) * (p - h)),
            u0 == y0 * ((r - 1) * (r - 2)),
    ;
    assert((p - 1) * (p - h) == p * (p - 1 - h) + h) by (nonlinear_arith);
    assert(u0 * (p * (p - 1 - h) + h) == p * (u0 * (p - 1 - h)) + u0 * h) by (nonlinear_arith);
    assert(y1 * b1 == p * u1 - u1) by (nonlinear_arith)
        requires
            b1 == (r * 1) * ((r - 2) * (p - 1)),
            u1 == y1 * (r * (r - 2)),
    ;
    let u2 = y2 * (r * (r - 1));
    assert(y2 * b2 == u2 * h) by (nonlinear_arith)
        requires
            b2 == (r * h) * ((r - 1) * 1),
            u2 == y2 * (r * (r - 1)),
    ;
    assert(u0 + u2 == 2 * x) by (nonlinear_arith)
        requires
            u0 == c0 * ((r - 1) * (r - 2)),
            u2 == (c0 + 2 * c1 + 4 * c2) * (r * (r - 1)),
            x == c0 * ((r - 1) * (r - 1)) + (c1 + 2 * c2) * (r * (r - 1)),
    ;
    assert(x - u1 == target) by (nonlinear_arith)
        requires
            u1 == (c0 + c1 + c2) * (r * (r - 2)),
            x == c0 * ((r - 1) * (r - 1)) + (c1 + 2 * c2) * (r * (r - 1)),
            target == c0 + c1 * r + c2 * (r * r),
    ;
    assert(u0 * h + u2 * h == p * x + x) by (nonlinear_arith)
        requires
            u0 + u2 == 2 * x,
            2 * h == p + 1,
    ;
    assert(p * q == p * (u0 * (p - 1 - h)) + p * u1 + p * x) by (nonlinear_arith)
        requires
            q == u0 * (p - 1 - h) + u1 + x,
    ;
    assert(y0 * b0 + y1 * b1 + y2 * b2 == p * q + target);
    vstd::arithmetic::div_mod::lemma_mod_multiples_vanish(q, target, p);
    assert(sum(3, term) == ys[0] * b0 + ys[1] * b1 + ys[2] * b2);
}

/// Interpolation through a single value.
pub proof fn lemma_interpolate_constant(c: int, r: int, p: int)
    ensures
        interpolate(seq![c], r, p) == c % p,
{
    reveal_with_fuel(sum, 2);
    reveal_with_fuel(basis, 2);
    let f = |j: int| seq![c][j] * basis(j, 1, r, p);
    assert(basis(0, 1, r, p) == 1);
    assert(f(0) == c * 1);
}

/// `a` has an inverse modulo `p`.
pub open spec fn invertible(a: int, p: int) -> bool {
    exists|x: int| 0 <= x < p && #[trigger] cong(a * x, 1, p)
}

/// The factor of node `j` vanishes at every other node.
proof fn lemma_basis_at_other_node(j: int, bound: nat, r: int, p: int)
    requires
        0 <= r < bound,
        r != j,
    ensures
        basis(j, bound, r, p) == 0,
    decreases bound,
{
    let m = bound - 1;
    let rest = basis(j, m as nat, r, p);
    let factor = (r - m) * inv(j - m, p);
    if r == m {
        assert(factor == 0) by (nonlinear_arith)
            requires
                factor == (r - m) * inv(j - m, p),
                r == m,
        ;
        assert(rest * 0 == 0);
    } else {
        lemma_basis_at_other_node(j, m as nat, r, p);
        assert(0 * factor == 0);
    }
}

/// The factor of node `j` is one at this node.
proof fn lemma_basis_at_its_node(j: int, bound: nat, p: int)
    requires
        p > 0,
        forall|m: int| 0 <= m < bound && m != j ==> #[trigger] invertible(j - m, p),
    ensures
        cong(basis(j, bound, j, p), 1, p),
    decreases bound,
{
    if bound > 0 {
        let m = bound - 1;
        lemma_basis_at_its_node(j, m as nat, p);
        let rest = basis(j, m as nat, j, p);
        if m != j {
            assert(invertible(j - m, p));
            lemma_cong_mul(rest, 1, (j - m) * inv(j - m, p), 1, p);
        }
    }
}

/// Interpolation gives back the values at the nodes, if their differences have inverses.
pub proof fn lemma_interpolate_at_node(ys: Seq<int>, j: int, p: int)
    requires
        p > 0,
        0 <= j < ys.len(),
        forall|m: int| 0 <= m < ys.len() && m != j ==> #[trigger] invertible(j - m, p),
    ensures
        interpolate(ys, j, p) == ys[j] % p,
{
    let n = ys.len();
    let term = |i: int| ys[i] * basis(i, n, j, p);
    assert forall|i: int| 0 <= i < n && i != j implies #[trigger] term(i) == 0 by {
        lemma_basis_at_other_node(i, n, j, p);
        assert(ys[i] * 0 == 0) by (nonlinear_arith);
    }
    lemma_sum_single(n, j, term);
    lemma_basis_at_its_node(j, n, p);
    lemma_cong_mul(ys[j], ys[j], basis(j, n, j, p), 1, p);
}

/// Evaluates at `eval_at` the polynomial of degree less than `p_i.len()` that takes the values
/// `p_i` at `0, 1, ..`.
pub fn interpolate_uni_poly<F: PrimeField>(p_i: &[F], eval_at: F) -> (r: F)
    requires
        p_i@.len() <= F::modulus(),
    ensures
        r.val() == interpolate(vals(p_i@), eval_at.val(), F::modulus()),
{
    let n = p_i.len();
    let ghost p = F::modulus();
    let ghost ys = vals(p_i@);
    let ghost x = eval_at.val();
    let ghost term = |j: int| ys[j] * basis(j, ys.len(), x, p);
    let mut acc = F::zero();
    proof {
        F::lemma_modulus();
        lemma_small_mod(0, p as nat);
        lemma_small_mod(1, p as nat);
    }
    for j in 0..n
        invariant
            n == p_i@.len(),
            n <= p,
            p == F::modulus(),
            p >= 3,
            1int % p == 1,
            ys == vals(p_i@),
            x == eval_at.val(),
            term == (|j: int| ys[j] * basis(j, ys.len(), x, p)),
            acc.val() == sum(j as nat, term) % p,
    {
        let mut prod = F::one();
        for m in 0..n
            invariant
                n == p_i@.len(),
                j < n,
                n <= p,
                p == F::modulus(),
                p >= 3,
                1int % p == 1,
                x == eval_at.val(),
                prod.val() == basis(j as int, m as nat, x, p) % p,
        {
            if m != j {
                let node = F::from_u64(m as u64);
                let diff = F::from_u64(j as u64).sub(node);
                proof {
                    lemma_cong_reduce(m as int, p);
                    lemma_cong_reduce(j as int, p);
                    lemma_cong_sub(j as int % p, j as int, m as int % p, m as int, p);
                    lemma_cong_reduce(j as int % p - m as int % p, p);
                    if j > m {
                        lemma_small_mod((j - m) as nat, p as nat);
                    } else {
                        vstd::arithmetic::div_mod::lemma_mod_add_multiples_vanish(j - m, p);
                        lemma_small_mod((j - m + p) as nat, p as nat);
                    }
                }
                match diff.inverse() {
                    Some(quotient) => {
                        let factor = eval_at.sub(node).mul(quotient);
                        let ghost old_prod = prod.val();
                        prod = prod.mul(factor);
                        proof {
                            quotient.lemma_val();
                            let i = quotient.val();
                            lemma_cong_mul(diff.val(), j - m, i, i, p);
                            lemma_inv(j - m, i, p);
                            lemma_cong_sub(x, x, m as int % p, m as int, p);
                            lemma_cong_reduce(x - m as int % p, p);
                            let d = (x - m as int % p) % p;
                            lemma_cong_mul(d, x - m, i, i, p);
                            lemma_cong_reduce(d * i, p);
                            let b = basis(j as int, m as nat, x, p);
                            lemma_cong_reduce(b, p);
                            lemma_cong_mul(old_prod, b, factor.val(), (x - m) * i, p);
                        }
                    },
                    None => {
                        assert(false);
                    },
                }
            } else {
                assert(basis(j as int, m as nat, x, p) * 1 == basis(j as int, m as nat, x, p));
            }
        }
        let scaled = p_i[j].mul(prod);
        let ghost old_acc = acc.val();
        acc = acc.add(scaled);
        proof {
            let b = basis(j as int, n as nat, x, p);
            lemma_cong_reduce(b, p);
            lemma_cong_mul(ys[j as int], ys[j as int], prod.val(), b, p);
            lemma_cong_reduce(ys[j as int] * prod.val(), p);
            lemma_cong_reduce(sum(j as nat, term), p);
            lemma_cong_add(old_acc, sum(j as nat, term), scaled.val(), term(j as int), p);
        }
    }
    acc
}

} // verus!
