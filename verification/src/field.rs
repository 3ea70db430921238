//! Prime fields: the arithmetic that the protocol needs, specified over the integers.

use vstd::arithmetic::div_mod::*;
use vstd::prelude::*;

verus! {

/// A prime field of odd characteristic.
///
/// `val` maps an element to its canonical representative in `0..modulus()`, and every operation is
/// specified by what it does to representatives.
pub trait PrimeField: Copy {
    /// The characteristic of the field.
    spec fn modulus() -> int;

    /// The representative of `self` in `0..modulus()`.
    spec fn val(self) -> int;

    /// The characteristic is odd and larger than one.
    proof fn lemma_modulus()
        ensures
            Self::modulus() >= 3,
            Self::modulus() % 2 == 1,
    ;

    /// Representatives are reduced.
    proof fn lemma_val(self)
        ensures
            0 <= self.val() < Self::modulus(),
    ;

    /// The additive identity.
    fn zero() -> (r: Self)
        ensures
            r.val() == 0,
    ;

    /// The multiplicative identity.
    fn one() -> (r: Self)
        ensures
            r.val() == 1,
    ;

    /// The image of an integer in the field.
    fn from_u64(n: u64) -> (r: Self)
        ensures
            r.val() == n as int % Self::modulus(),
    ;

    /// Addition.
    fn add(self, other: Self) -> (r: Self)
        ensures
            r.val() == (self.val() + other.val()) % Self::modulus(),
    ;

    /// Subtraction.
    fn sub(self, other: Self) -> (r: Self)
        ensures
            r.val() == (self.val() - other.val()) % Self::modulus(),
    ;

    /// Negation.
    fn neg(self) -> (r: Self)
        ensures
            r.val() == (-self.val()) % Self::modulus(),
    ;

    /// Multiplication.
    fn mul(self, other: Self) -> (r: Self)
        ensures
            r.val() == (self.val() * other.val()) % Self::modulus(),
    ;

    /// Whether two elements are the same.
    fn equals(self, other: Self) -> (b: bool)
        ensures
            b == (self.val() == other.val()),
    ;

    /// The multiplicative inverse; there is none exactly for zero.
    fn inverse(self) -> (r: Option<Self>)
        ensures
            match r {
                Some(x) => (self.val() * x.val()) % Self::modulus() == 1,
                None => self.val() == 0,
            },
    ;
}

/// The representatives of a sequence of elements.
pub open spec fn vals<F: PrimeField>(s: Seq<F>) -> Seq<int> {
    Seq::new(s.len(), |i: int| s[i].val())
}

/// The representatives of a sequence of vectors of elements.
pub open spec fn vals2<F: PrimeField>(s: Seq<Vec<F>>) -> Seq<Seq<int>> {
    Seq::new(s.len(), |i: int| vals(s[i]@))
}

/// `a` and `b` have the same residue modulo `p`.
pub open spec fn cong(a: int, b: int, p: int) -> bool {
    a % p == b % p
}

/// Addition respects residues.
pub proof fn lemma_cong_add(a: int, b: int, c: int, d: int, p: int)
    requires
        p > 0,
        cong(a, b, p),
        cong(c, d, p),
    ensures
        cong(a + c, b + d, p),
{
    lemma_add_mod_noop(a, c, p);
    lemma_add_mod_noop(b, d, p);
}

/// Subtraction respects residues.
pub proof fn lemma_cong_sub(a: int, b: int, c: int, d: int, p: int)
    requires
        p > 0,
        cong(a, b, p),
        cong(c, d, p),
    ensures
        cong(a - c, b - d, p),
{
    lemma_sub_mod_noop(a, c, p);
    lemma_sub_mod_noop(b, d, p);
}

/// Multiplication respects residues.
pub proof fn lemma_cong_mul(a: int, b: int, c: int, d: int, p: int)
    requires
        p > 0,
        cong(a, b, p),
        cong(c, d, p),
    ensures
        cong(a * c, b * d, p),
{
    lemma_mul_mod_noop(a, c, p);
    lemma_mul_mod_noop(b, d, p);
}

/// Reducing does not change the residue.
pub proof fn lemma_cong_reduce(a: int, p: int)
    requires
        p > 0,
    ensures
        cong(a % p, a, p),
        0 <= a % p < p,
{
    lemma_mod_twice(a, p);
    lemma_mod_bound(a, p);
}

/// The two representatives in `0..p` of one residue are equal.
pub proof fn lemma_cong_small(a: int, b: int, p: int)
    requires
        0 <= a < p,
        0 <= b < p,
        cong(a, b, p),
    ensures
        a == b,
{
    lemma_small_mod(a as nat, p as nat);
    lemma_small_mod(b as nat, p as nat);
}

} // verus!
