//! Where the verifier gets the value of the summed polynomial at the final point from.

use vstd::prelude::*;

use crate::data_structures::{
    GKRVerifierSumOfProducts, MultilinearField, SparseMultilinearExtension, SumOfProducts, Term,
};
use crate::field::{cong, lemma_cong_add, lemma_cong_mul, lemma_cong_reduce, vals, PrimeField};
use crate::multilinear::mle;
use crate::sums::sum;
use crate::tables::mix_of;
use crate::wiring::Mix;

verus! {

/// A source of values of the polynomial that is summed over.
pub trait Oracle<F: PrimeField> {
    /// The parts of the oracle fit together.
    spec fn wf(&self) -> bool;

    /// The number of variables that are summed over.
    spec fn rounds(&self) -> nat;

    /// The value at the point given by its first and second half.
    spec fn value(&self, x: Seq<int>, y: Seq<int>) -> int;

    /// The number of rounds of the protocol.
    fn num_rounds(&self) -> (n: usize)
        requires
            self.wf(),
        ensures
            n == self.rounds(),
    ;

    /// Reveals the value at a point.
    fn divinate(&self, x: &[F], y: &[F]) -> (r: F)
        requires
            self.wf(),
            x@.len() == self.rounds() / 2,
            y@.len() == self.rounds() - self.rounds() / 2,
        ensures
            r.val() == self.value(vals(x@), vals(y@)),
    ;
}

/// `alpha * f1(g1, x, y) + beta * f1(g2, x, y)`.
pub open spec fn mixed_value(f1: Seq<int>, mix: Mix, x: Seq<int>, y: Seq<int>) -> int {
    mix.alpha * mle(f1, mix.g1 + x + y) + mix.beta * mle(f1, mix.g2 + x + y)
}

/// The sum over all products of `f1(g, x, y) * f2(x) * f3(y)`, where the point `g` is the mixture
/// of two.
pub open spec fn combined_value(terms: Seq<Term>, mix: Mix, x: Seq<int>, y: Seq<int>) -> int {
    sum(
        terms.len(),
        |s: int| mixed_value(terms[s].f1, mix, x, y) * mle(terms[s].f2, x) * mle(terms[s].f3, y),
    )
}

/// The sum over all products of `f1(g, x, y) * f2(x) * f3(y)`.
pub open spec fn simple_value(terms: Seq<Term>, g: Seq<int>, x: Seq<int>, y: Seq<int>) -> int {
    sum(
        terms.len(),
        |s: int| mle(terms[s].f1, g + x + y) * mle(terms[s].f2, x) * mle(terms[s].f3, y),
    )
}

/// The product of three factors that are known up to their residues, added to a sum.
proof fn lemma_accumulate(
    acc: int,
    total: int,
    a: int,
    x: int,
    b: int,
    y: int,
    c: int,
    z: int,
    p: int,
)
    requires
        p > 0,
        acc == total % p,
        cong(a, x, p),
        cong(b, y, p),
        cong(c, z, p),
    ensures
        (acc + (((a * b) % p) * c) % p) % p == (total + x * y * z) % p,
{
    lemma_cong_mul(a, x, b, y, p);
    lemma_cong_reduce(a * b, p);
    lemma_cong_mul((a * b) % p, x * y, c, z, p);
    lemma_cong_reduce(((a * b) % p) * c, p);
    lemma_cong_reduce(total, p);
    lemma_cong_add(acc, total, (((a * b) % p) * c) % p, x * y * z, p);
}

/// The point that consists of three parts.
fn join<F: Copy>(g: &[F], x: &[F], y: &[F]) -> (r: Vec<F>)
    ensures
        r@ == g@ + x@ + y@,
{
    let mut r = crate::data_structures::copy_slice(g);
    for i in 0..x.len()
        invariant
            r@ == g@ + x@.take(i as int),
    {
        r.push(x[i]);
        assert(g@ + x@.take(i + 1) =~= (g@ + x@.take(i as int)).push(x@[i as int]));
    }
    assert(x@.take(x@.len() as int) =~= x@);
    for i in 0..y.len()
        invariant
            r@ == g@ + x@ + y@.take(i as int),
    {
        r.push(y[i]);
        assert(g@ + x@ + y@.take(i + 1) =~= (g@ + x@ + y@.take(i as int)).push(y@[i as int]));
    }
    assert(y@.take(y@.len() as int) =~= y@);
    r
}

/// The value of `f1` at `(g, x, y)`.
fn evaluate_joined<F: MultilinearField>(
    f1: &SparseMultilinearExtension<F>,
    g: &[F],
    x: &[F],
    y: &[F],
) -> (r: F)
    requires
        f1.wf(),
        f1.num_vars == g@.len() + x@.len() + y@.len(),
    ensures
        r.val() == mle(f1@, vals(g@) + vals(x@) + vals(y@)) % F::modulus(),
{
    let point = join(g, x, y);
    assert(vals(point@) =~= vals(g@) + vals(x@) + vals(y@));
    match f1.evaluate(point.as_slice()) {
        Some(value) => value,
        None => {
            assert(false);
            F::zero()
        },
    }
}

/// `alpha * f1(g1, x, y) + beta * f1(g2, x, y)`.
fn evaluate_mixed<F: MultilinearField>(
    f1: &SparseMultilinearExtension<F>,
    g1: &[F],
    g2: &[F],
    alpha: F,
    beta: F,
    x: &[F],
    y: &[F],
) -> (r: F)
    requires
        f1.wf(),
        f1.num_vars == g1@.len() + x@.len() + y@.len(),
        g2@.len() == g1@.len(),
    ensures
        r.val() == mixed_value(f1@, mix_of(g1@, g2@, alpha, beta), vals(x@), vals(y@))
            % F::modulus(),
{
    let at_1 = evaluate_joined(f1, g1, x, y);
    let at_2 = evaluate_joined(f1, g2, x, y);
    let left = alpha.mul(at_1);
    let right = beta.mul(at_2);
    let r = left.add(right);
    proof {
        F::lemma_modulus();
        let p = F::modulus();
        let mix = mix_of(g1@, g2@, alpha, beta);
        let w1 = mle(f1@, mix.g1 + vals(x@) + vals(y@));
        let w2 = mle(f1@, mix.g2 + vals(x@) + vals(y@));
        lemma_cong_reduce(w1, p);
        lemma_cong_reduce(w2, p);
        lemma_cong_mul(mix.alpha, mix.alpha, w1 % p, w1, p);
        lemma_cong_mul(mix.beta, mix.beta, w2 % p, w2, p);
        lemma_cong_reduce(mix.alpha * (w1 % p), p);
        lemma_cong_reduce(mix.beta * (w2 % p), p);
        lemma_cong_add(left.val(), mix.alpha * w1, right.val(), mix.beta * w2, p);
    }
    r
}

/// An oracle that knows all factors, for a single point `g`.
pub struct PolyOracle<F: PrimeField> {
    sum_of_products: SumOfProducts<F>,
    g: Vec<F>,
}

impl<F: PrimeField> PolyOracle<F> {
    /// The products that the oracle evaluates.
    pub closed spec fn statement(&self) -> SumOfProducts<F> {
        self.sum_of_products
    }

    /// The point at which the first block of variables is fixed.
    pub closed spec fn point(&self) -> Seq<int> {
        vals(self.g@)
    }

    /// An oracle for the given products and point.
    pub fn new(sum_of_products: SumOfProducts<F>, g: Vec<F>) -> (r: Self)
        ensures
            r.statement() == sum_of_products,
            r.point() == vals(g@),
    {
        PolyOracle { sum_of_products, g }
    }
}

impl<F: MultilinearField> Oracle<F> for PolyOracle<F> {
    open spec fn wf(&self) -> bool {
        self.statement().wf() && self.point().len() == self.statement().arity()
    }

    open spec fn rounds(&self) -> nat {
        2 * self.statement().arity()
    }

    open spec fn value(&self, x: Seq<int>, y: Seq<int>) -> int {
        simple_value(self.statement()@, self.point(), x, y) % F::modulus()
    }

    fn num_rounds(&self) -> (n: usize) {
        assert(self.sum_of_products.terms@[0].shaped(self.sum_of_products.arity()));
        2 * self.sum_of_products.terms[0].1.num_vars()
    }

    fn divinate(&self, x: &[F], y: &[F]) -> (r: F) {
        let ghost p = F::modulus();
        let ghost terms = self.sum_of_products@;
        let ghost k = self.sum_of_products.arity();
        let ghost (g, px, py) = (vals(self.g@), vals(x@), vals(y@));
        let ghost term = |s: int|
            mle(terms[s].f1, g + px + py) * mle(terms[s].f2, px) * mle(terms[s].f3, py);
        let mut acc = F::zero();
        proof {
            F::lemma_modulus();
            vstd::arithmetic::div_mod::lemma_small_mod(0, p as nat);
        }
        for s in 0..self.sum_of_products.terms.len()
            invariant
                p == F::modulus(),
                p >= 3,
                self.sum_of_products.wf(),
                terms == self.sum_of_products@,
                k == self.sum_of_products.arity(),
                self.g@.len() == k,
                x@.len() == k,
                y@.len() == k,
                g == vals(self.g@),
                px == vals(x@),
                py == vals(y@),
                term == (|s: int|
                    mle(terms[s].f1, g + px + py) * mle(terms[s].f2, px) * mle(terms[s].f3, py)),
                acc.val() == sum(s as nat, term) % p,
        {
            let product = &self.sum_of_products.terms[s];
            assert(self.sum_of_products.terms@[s as int].shaped(k));
            assert(terms[s as int] == product@);
            let v1 = evaluate_joined(&product.0, self.g.as_slice(), x, y);
            if let (Some(v2), Some(v3)) = (product.1.evaluate(x), product.2.evaluate(y)) {
                let ghost old_acc = acc.val();
                acc = acc.add(v1.mul(v2).mul(v3));
                proof {
                    let (w1, w2, w3) = (
                        mle(terms[s as int].f1, g + px + py),
                        mle(terms[s as int].f2, px),
                        mle(terms[s as int].f3, py),
                    );
                    lemma_cong_reduce(w1, p);
                    lemma_cong_reduce(w2, p);
                    lemma_cong_reduce(w3, p);
                    lemma_accumulate(
                        old_acc,
                        sum(s as nat, term),
                        v1.val(),
                        w1,
                        v2.val(),
                        w2,
                        v3.val(),
                        w3,
                        p,
                    );
                }
            }
        }
        acc
    }
}

/// An oracle that knows all factors, for a mixture of two points.
pub struct CombinedPolyOracle<F: PrimeField> {
    sum_of_products: SumOfProducts<F>,
    g1: Vec<F>,
    g2: Vec<F>,
    alpha: F,
    beta: F,
}

impl<F: PrimeField> CombinedPolyOracle<F> {
    /// The products that the oracle evaluates.
    pub closed spec fn statement(&self) -> SumOfProducts<F> {
        self.sum_of_products
    }

    /// The points at which the first block of variables is fixed.
    pub closed spec fn mix(&self) -> Mix {
        mix_of(self.g1@, self.g2@, self.alpha, self.beta)
    }

    /// An oracle for the given products and mixture of points.
    pub fn new(
        sum_of_products: SumOfProducts<F>,
        g1: Vec<F>,
        g2: Vec<F>,
        alpha: F,
        beta: F,
    ) -> (r: Self)
        ensures
            r.statement() == sum_of_products,
            r.mix() == mix_of(g1@, g2@, alpha, beta),
    {
        CombinedPolyOracle { sum_of_products, g1, g2, alpha, beta }
    }
}

impl<F: MultilinearField> Oracle<F> for CombinedPolyOracle<F> {
    open spec fn wf(&self) -> bool {
        &&& self.statement().wf()
        &&& self.mix().g1.len() == self.statement().arity()
        &&& self.mix().g2.len() == self.statement().arity()
    }

    open spec fn rounds(&self) -> nat {
        2 * self.statement().arity()
    }

    open spec fn value(&self, x: Seq<int>, y: Seq<int>) -> int {
        combined_value(self.statement()@, self.mix(), x, y) % F::modulus()
    }

    fn num_rounds(&self) -> (n: usize) {
        assert(self.sum_of_products.terms@[0].shaped(self.sum_of_products.arity()));
        2 * self.sum_of_products.terms[0].1.num_vars()
    }

    fn divinate(&self, x: &[F], y: &[F]) -> (r: F) {
        let ghost p = F::modulus();
        let ghost terms = self.sum_of_products@;
        let ghost k = self.sum_of_products.arity();
        let ghost mix = self.mix();
        let ghost (px, py) = (vals(x@), vals(y@));
        let ghost term = |s: int|
            mixed_value(terms[s].f1, mix, px, py) * mle(terms[s].f2, px) * mle(terms[s].f3, py);
        let mut acc = F::zero();
        proof {
            F::lemma_modulus();
            vstd::arithmetic::div_mod::lemma_small_mod(0, p as nat);
        }
        for s in 0..self.sum_of_products.terms.len()
            invariant
                p == F::modulus(),
                p >= 3,
                self.sum_of_products.wf(),
                terms == self.sum_of_products@,
                k == self.sum_of_products.arity(),
                self.g1@.len() == k,
                self.g2@.len() == k,
                x@.len() == k,
                y@.len() == k,
                mix == mix_of(self.g1@, self.g2@, self.alpha, self.beta),
                px == vals(x@),
                py == vals(y@),
                term == (|s: int|
                    mixed_value(terms[s].f1, mix, px, py) * mle(terms[s].f2, px) * mle(
                        terms[s].f3,
                        py,
                    )),
                acc.val() == sum(s as nat, term) % p,
        {
            let product = &self.sum_of_products.terms[s];
            assert(self.sum_of_products.terms@[s as int].shaped(k));
            assert(terms[s as int] == product@);
            let v1 = evaluate_mixed(
                &product.0,
                self.g1.as_slice(),
                self.g2.as_slice(),
                self.alpha,
                self.beta,
                x,
                y,
            );
            if let (Some(v2), Some(v3)) = (product.1.evaluate(x), product.2.evaluate(y)) {
                let ghost old_acc = acc.val();
                acc = acc.add(v1.mul(v2).mul(v3));
                proof {
                    let (w1, w2, w3) = (
                        mixed_value(terms[s as int].f1, mix, px, py),
                        mle(terms[s as int].f2, px),
                        mle(terms[s as int].f3, py),
                    );
                    lemma_cong_reduce(w1, p);
                    lemma_cong_reduce(w2, p);
                    lemma_cong_reduce(w3, p);
                    lemma_accumulate(
                        old_acc,
                        sum(s as nat, term),
                        v1.val(),
                        w1,
                        v2.val(),
                        w2,
                        v3.val(),
                        w3,
                        p,
                    );
                }
            }
        }
        acc
    }
}

/// A first factor, and the values of the other two.
pub struct ReducedTerm {
    pub f1: Seq<int>,
    pub w_u: int,
    pub w_v: int,
}

impl<F: PrimeField> View for GKRVerifierSumOfProducts<F> {
    type V = Seq<ReducedTerm>;

    open spec fn view(&self) -> Seq<ReducedTerm> {
        Seq::new(
            self.terms@.len(),
            |s: int|
                ReducedTerm {
                    f1: self.terms@[s].0@,
                    w_u: self.terms@[s].1.val(),
                    w_v: self.terms@[s].2.val(),
                },
        )
    }
}

impl<F: PrimeField> GKRVerifierSumOfProducts<F> {
    /// There is a product, and the first factors have `k` variables in each of three blocks.
    pub open spec fn shaped(&self, k: nat) -> bool {
        &&& self.terms@.len() > 0
        &&& forall|s: int|
            0 <= s < self.terms@.len() ==> (#[trigger] self.terms@[s]).0.wf()
                && self.terms@[s].0.num_vars == 3 * k
    }
}

/// The sum over all products of `f1(g, x, y) * w_u * w_v`, where the point `g` is the mixture of
/// two.
pub open spec fn reduced_value(
    terms: Seq<ReducedTerm>,
    mix: Mix,
    x: Seq<int>,
    y: Seq<int>,
) -> int {
    sum(
        terms.len(),
        |s: int| mixed_value(terms[s].f1, mix, x, y) * terms[s].w_u * terms[s].w_v,
    )
}

/// An oracle that knows the first factors, and takes the values of the other two on trust.
pub struct GKROracle<F: PrimeField> {
    sum_of_products: GKRVerifierSumOfProducts<F>,
    g1: Vec<F>,
    g2: Vec<F>,
    alpha: F,
    beta: F,
}

impl<F: PrimeField> GKROracle<F> {
    /// The products that the oracle evaluates.
    pub closed spec fn statement(&self) -> GKRVerifierSumOfProducts<F> {
        self.sum_of_products
    }

    /// The points at which the first block of variables is fixed.
    pub closed spec fn mix(&self) -> Mix {
        mix_of(self.g1@, self.g2@, self.alpha, self.beta)
    }

    /// An oracle for the given products and mixture of points.
    pub fn new(
        sum_of_products: GKRVerifierSumOfProducts<F>,
        g1: Vec<F>,
        g2: Vec<F>,
        alpha: F,
        beta: F,
    ) -> (r: Self)
        ensures
            r.statement() == sum_of_products,
            r.mix() == mix_of(g1@, g2@, alpha, beta),
    {
        GKROracle { sum_of_products, g1, g2, alpha, beta }
    }
}

impl<F: MultilinearField> Oracle<F> for GKROracle<F> {
    open spec fn wf(&self) -> bool {
        &&& self.statement().shaped(self.mix().g1.len())
        &&& self.mix().g2.len() == self.mix().g1.len()
    }

    open spec fn rounds(&self) -> nat {
        2 * self.mix().g1.len()
    }

    open spec fn value(&self, x: Seq<int>, y: Seq<int>) -> int {
        reduced_value(self.statement()@, self.mix(), x, y) % F::modulus()
    }

    fn num_rounds(&self) -> (n: usize) {
        assert(self.sum_of_products.terms@[0].0.num_vars == 3 * self.g1@.len());
        2 * self.g1.len()
    }

    fn divinate(&self, x: &[F], y: &[F]) -> (r: F) {
        let ghost p = F::modulus();
        let ghost terms = self.sum_of_products@;
        let ghost k = self.g1@.len();
        let ghost mix = self.mix();
        let ghost (px, py) = (vals(x@), vals(y@));
        let ghost term = |s: int|
            mixed_value(terms[s].f1, mix, px, py) * terms[s].w_u * terms[s].w_v;
        let mut acc = F::zero();
        proof {
            F::lemma_modulus();
            vstd::arithmetic::div_mod::lemma_small_mod(0, p as nat);
        }
        for s in 0..self.sum_of_products.terms.len()
            invariant
                p == F::modulus(),
                p >= 3,
                self.sum_of_products.shaped(k),
                terms == self.sum_of_products@,
                self.g1@.len() == k,
                self.g2@.len() == k,
                x@.len() == k,
                y@.len() == k,
                mix == mix_of(self.g1@, self.g2@, self.alpha, self.beta),
                px == vals(x@),
                py == vals(y@),
                term == (|s: int|
                    mixed_value(terms[s].f1, mix, px, py) * terms[s].w_u * terms[s].w_v),
                acc.val() == sum(s as nat, term) % p,
        {
            let product = &self.sum_of_products.terms[s];
            assert(self.sum_of_products.terms@[s as int].0.wf());
            let v1 = evaluate_mixed(
                &product.0,
                self.g1.as_slice(),
                self.g2.as_slice(),
                self.alpha,
                self.beta,
                x,
                y,
            );
            let ghost old_acc = acc.val();
            acc = acc.add(v1.mul(product.1).mul(product.2));
            proof {
                let w1 = mixed_value(terms[s as int].f1, mix, px, py);
                let (w2, w3) = (terms[s as int].w_u, terms[s as int].w_v);
                lemma_cong_reduce(w1, p);
                lemma_accumulate(
                    old_acc,
                    sum(s as nat, term),
                    v1.val(),
                    w1,
                    w2,
                    w2,
                    w3,
                    w3,
                    p,
                );
            }
        }
        acc
    }
}

} // verus!
