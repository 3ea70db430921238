//! Multilinear polynomials and the sums of products that the protocol runs on.

use std::collections::BTreeMap;

use vstd::arithmetic::power2::pow2;
use vstd::prelude::*;
use vstd::std_specs::iter::IteratorSpec;

use crate::field::{vals, PrimeField};
use crate::multilinear::mle;

verus! {

/// A multilinear polynomial by those of its values on the Boolean hypercube that are not zero.
pub struct SparseMultilinearExtension<F: PrimeField> {
    /// The values, by little-endian index.
    pub evaluations: BTreeMap<usize, F>,
    /// The number of variables.
    pub num_vars: usize,
}

/// A multilinear polynomial by all its values on the Boolean hypercube.
pub struct DenseMultilinearExtension<F: PrimeField> {
    /// The values, by little-endian index.
    pub evaluations: Vec<F>,
    /// The number of variables.
    pub num_vars: usize,
}

/// A table over the hypercube of dimension `n` can be allocated.
pub open spec fn tabulable(n: nat) -> bool {
    n + 7 <= usize::BITS
}

impl<F: PrimeField> SparseMultilinearExtension<F> {
    /// The value at the hypercube point `i`.
    pub open spec fn at(&self, i: int) -> int {
        if self.evaluations@.contains_key(i as usize) {
            self.evaluations@[i as usize].val()
        } else {
            0
        }
    }

    /// Every index has `num_vars` bits.
    pub open spec fn wf(&self) -> bool {
        &&& tabulable(self.num_vars as nat)
        &&& forall|i: usize|
            #[trigger] self.evaluations@.contains_key(i) ==> i < pow2(self.num_vars as nat)
    }
}

impl<F: PrimeField> View for SparseMultilinearExtension<F> {
    type V = Seq<int>;

    /// All values on the hypercube.
    open spec fn view(&self) -> Seq<int> {
        Seq::new(pow2(self.num_vars as nat), |i: int| self.at(i))
    }
}

impl<F: PrimeField> DenseMultilinearExtension<F> {
    /// There is one value for each point of the hypercube.
    pub open spec fn wf(&self) -> bool {
        &&& tabulable(self.num_vars as nat)
        &&& self.evaluations@.len() == pow2(self.num_vars as nat)
    }
}

impl<F: PrimeField> View for DenseMultilinearExtension<F> {
    type V = Seq<int>;

    /// All values on the hypercube.
    open spec fn view(&self) -> Seq<int> {
        vals(self.evaluations@)
    }
}

/// A prime field over which multilinear polynomials can be evaluated.
pub trait MultilinearField: PrimeField {
    /// Evaluates a polynomial in dense form; there is no value at a point of another dimension.
    fn evaluate_dense(poly: &DenseMultilinearExtension<Self>, point: &[Self]) -> (r: Option<Self>)
        requires
            poly.wf(),
        ensures
            match r {
                Some(y) => point@.len() == poly.num_vars && y.val() == mle(poly@, vals(point@))
                    % Self::modulus(),
                None => point@.len() != poly.num_vars,
            },
    ;

    /// Evaluates a polynomial in sparse form; there is no value at a point of another dimension.
    fn evaluate_sparse(poly: &SparseMultilinearExtension<Self>, point: &[Self]) -> (r: Option<Self>)
        requires
            poly.wf(),
        ensures
            match r {
                Some(y) => point@.len() == poly.num_vars && y.val() == mle(poly@, vals(point@))
                    % Self::modulus(),
                None => point@.len() != poly.num_vars,
            },
    ;
}

/// The entries of a map.
pub fn entries<F: Copy>(map: &BTreeMap<usize, F>) -> (r: Vec<(usize, F)>)
    ensures
        forall|i: int|
            0 <= i < r@.len() ==> map@.contains_key((#[trigger] r@[i]).0) && map@[r@[i].0]
                == r@[i].1,
        forall|k: usize|
            #[trigger] map@.contains_key(k) ==> exists|i: int|
                0 <= i < r@.len() && (#[trigger] r@[i]).0 == k,
        forall|i: int, j: int|
            0 <= i < j < r@.len() ==> (#[trigger] r@[i]).0 != (#[trigger] r@[j]).0,
{
    broadcast use vstd::std_specs::btree::group_btree_axioms;
    broadcast use vstd::laws_cmp::group_laws_cmp;

    assert(vstd::std_specs::btree::key_obeys_cmp_spec::<usize>());
    let iter = map.iter();
    let ghost all = iter.remaining();
    let mut r: Vec<(usize, F)> = Vec::new();
    for entry in it: iter
        invariant
            it.seq() == all,
            r@.len() == it.index(),
            forall|i: int| 0 <= i < r@.len() ==> #[trigger] r@[i] == (*all[i].0, *all[i].1),
    {
        r.push((*entry.0, *entry.1));
    }
    proof {
        assert forall|k: usize| #[trigger] map@.contains_key(k) implies exists|i: int|
            0 <= i < r@.len() && (#[trigger] r@[i]).0 == k by {
            assert(all.contains((&k, &map@[k])));
            let i = choose|i: int| 0 <= i < all.len() && all[i] == (&k, &map@[k]);
            assert(r@[i].0 == k);
        }
        assert forall|i: int, j: int| 0 <= i < j < r@.len() implies (#[trigger] r@[i]).0 != (
        #[trigger] r@[j]).0 by {
            assert(map@[*all[i].0] == *all[i].1 && map@[*all[j].0] == *all[j].1);
            assert(all[i] != all[j]);
        }
    }
    r
}

/// Copies a slice.
pub fn copy_slice<F: Copy>(s: &[F]) -> (r: Vec<F>)
    ensures
        r@ == s@,
{
    let mut r: Vec<F> = Vec::new();
    for i in 0..s.len()
        invariant
            r@ == s@.take(i as int),
    {
        r.push(s[i]);
        assert(s@.take(i + 1) =~= s@.take(i as int).push(s@[i as int]));
    }
    assert(s@.take(s@.len() as int) =~= s@);
    r
}

impl<F: PrimeField> Clone for SparseMultilinearExtension<F> {
    fn clone(&self) -> (r: Self)
        ensures
            r.num_vars == self.num_vars,
            r.evaluations@ == self.evaluations@,
    {
        SparseMultilinearExtension {
            evaluations: self.evaluations.clone(),
            num_vars: self.num_vars,
        }
    }
}

impl<F: PrimeField> Clone for DenseMultilinearExtension<F> {
    fn clone(&self) -> (r: Self)
        ensures
            r.num_vars == self.num_vars,
            r.evaluations@ == self.evaluations@,
    {
        DenseMultilinearExtension {
            evaluations: copy_slice(self.evaluations.as_slice()),
            num_vars: self.num_vars,
        }
    }
}

impl<F: PrimeField> DenseMultilinearExtension<F> {
    /// The number of variables.
    pub fn num_vars(&self) -> (n: usize)
        ensures
            n == self.num_vars,
    {
        self.num_vars
    }

    /// All values on the hypercube, by little-endian index.
    pub fn to_evaluations(&self) -> (r: Vec<F>)
        ensures
            r@ == self.evaluations@,
    {
        copy_slice(self.evaluations.as_slice())
    }
}

impl<F: MultilinearField> DenseMultilinearExtension<F> {
    /// The value at `point`, if it has the right dimension.
    pub fn evaluate(&self, point: &[F]) -> (r: Option<F>)
        requires
            self.wf(),
        ensures
            match r {
                Some(y) => point@.len() == self.num_vars && y.val() == mle(self@, vals(point@))
                    % F::modulus(),
                None => point@.len() != self.num_vars,
            },
    {
        F::evaluate_dense(self, point)
    }
}

impl<F: MultilinearField> SparseMultilinearExtension<F> {
    /// The value at `point`, if it has the right dimension.
    pub fn evaluate(&self, point: &[F]) -> (r: Option<F>)
        requires
            self.wf(),
        ensures
            match r {
                Some(y) => point@.len() == self.num_vars && y.val() == mle(self@, vals(point@))
                    % F::modulus(),
                None => point@.len() != self.num_vars,
            },
    {
        F::evaluate_sparse(self, point)
    }
}

/// The product `f1(z, x, y) * f2(x) * f3(y)`.
pub struct Product<F: PrimeField>(
    pub SparseMultilinearExtension<F>,
    pub DenseMultilinearExtension<F>,
    pub DenseMultilinearExtension<F>,
);

/// A sum of products.
pub struct SumOfProducts<F: PrimeField> {
    /// The products.
    pub terms: Vec<Product<F>>,
}

/// The product `f1(z, x, y) * w_u * w_v` with the values `w_u` and `w_v` given.
pub struct GKRVerifierProduct<F: PrimeField>(pub SparseMultilinearExtension<F>, pub F, pub F);

/// A sum of products with given values of the second and third factors.
pub struct GKRVerifierSumOfProducts<F: PrimeField> {
    /// The products.
    pub terms: Vec<GKRVerifierProduct<F>>,
}

/// The tables of the three factors of a product.
pub struct Term {
    pub f1: Seq<int>,
    pub f2: Seq<int>,
    pub f3: Seq<int>,
}

impl Term {
    /// `z`, `x` and `y` stand for `k` variables each.
    pub open spec fn shaped(self, k: nat) -> bool {
        &&& self.f1.len() == pow2(3 * k)
        &&& self.f2.len() == pow2(k)
        &&& self.f3.len() == pow2(k)
    }
}

impl<F: PrimeField> Product<F> {
    /// `z`, `x` and `y` stand for `k` variables each.
    pub open spec fn shaped(&self, k: nat) -> bool {
        &&& self.0.wf() && self.0.num_vars == 3 * k
        &&& self.1.wf() && self.1.num_vars == k
        &&& self.2.wf() && self.2.num_vars == k
    }
}

impl<F: PrimeField> View for Product<F> {
    type V = Term;

    open spec fn view(&self) -> Term {
        Term { f1: self.0@, f2: self.1@, f3: self.2@ }
    }
}

impl<F: PrimeField> Product<F> {
    /// The factors have the same numbers of variables and the same values.
    pub open spec fn same_as(self, other: Self) -> bool {
        &&& self.0.num_vars == other.0.num_vars
        &&& self.0.evaluations@ == other.0.evaluations@
        &&& self.1.num_vars == other.1.num_vars
        &&& self.1.evaluations@ == other.1.evaluations@
        &&& self.2.num_vars == other.2.num_vars
        &&& self.2.evaluations@ == other.2.evaluations@
    }
}

impl<F: PrimeField> Clone for Product<F> {
    fn clone(&self) -> (r: Self)
        ensures
            r@ == self@,
            forall|k: nat| #[trigger] self.shaped(k) ==> r.shaped(k),
            r.same_as(*self),
    {
        let r = Product(self.0.clone(), self.1.clone(), self.2.clone());
        assert(r.0@ =~= self.0@);
        r
    }
}

impl<F: PrimeField> SumOfProducts<F> {
    /// Every block of variables has `k` variables in every product.
    pub open spec fn shaped(&self, k: nat) -> bool {
        forall|s: int| 0 <= s < self.terms@.len() ==> (#[trigger] self.terms@[s]).shaped(k)
    }

    /// The number of variables in each block, as the first product has it.
    pub open spec fn arity(&self) -> nat {
        self.terms@[0].1.num_vars as nat
    }

    /// There is a product, and all have the same shape, with a variable in each block.
    pub open spec fn wf(&self) -> bool {
        &&& self.terms@.len() > 0
        &&& self.arity() > 0
        &&& self.shaped(self.arity())
    }
}

impl<F: PrimeField> View for SumOfProducts<F> {
    type V = Seq<Term>;

    open spec fn view(&self) -> Seq<Term> {
        Seq::new(self.terms@.len(), |s: int| self.terms@[s]@)
    }
}

impl<F: PrimeField> Clone for SumOfProducts<F> {
    fn clone(&self) -> (r: Self)
        ensures
            r@ == self@,
            forall|k: nat| #[trigger] self.shaped(k) ==> r.shaped(k),
            self.wf() ==> r.wf() && r.arity() == self.arity(),
            r.terms@.len() == self.terms@.len(),
            forall|s: int|
                0 <= s < r.terms@.len() ==> (#[trigger] r.terms@[s]).same_as(self.terms@[s]),
    {
        let mut terms: Vec<Product<F>> = Vec::new();
        for i in 0..self.terms.len()
            invariant
                terms@.len() == i,
                forall|s: int| 0 <= s < i ==> (#[trigger] terms@[s])@ == self.terms@[s]@,
                forall|s: int| 0 <= s < i ==> (#[trigger] terms@[s]).same_as(self.terms@[s]),
                forall|s: int, k: nat|
                    0 <= s < i && (#[trigger] self.terms@[s]).shaped(k) ==> #[trigger] terms@[s].shaped(
                        k,
                    ),
        {
            terms.push(self.terms[i].clone());
        }
        let r = SumOfProducts { terms };
        proof {
            assert(r@ =~= self@);
            if self.wf() {
                assert(self.terms@[0].shaped(self.arity()));
                assert(r.terms@[0].shaped(self.arity()));
            }
        }
        r
    }
}

} // verus!
