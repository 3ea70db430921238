//! The scalar field of the curve BLS12-381.

use ark_bls12_381::Fr as ArkFr;
use ark_crypto_primitives::sponge::poseidon::{
    PoseidonConfig as ArkConfig, PoseidonSponge as ArkSponge,
};
use ark_crypto_primitives::sponge::CryptographicSponge;
use ark_crypto_primitives::sponge::DuplexSpongeMode::{
    Absorbing as ArkAbsorbing, Squeezing as ArkSqueezing,
};
use ark_ff::{BigInt, Field as ArkField, PrimeField as ArkPrimeField};
use ark_poly::{
    DenseMultilinearExtension as ArkDense, MultilinearExtension as ArkMultilinear,
    SparseMultilinearExtension as ArkSparse,
};
use ark_std::UniformRand;
use vstd::prelude::*;

use crate::data_structures::{
    copy_slice, tabulable, DenseMultilinearExtension, MultilinearField, SparseMultilinearExtension,
};
use crate::field::{vals, vals2, PrimeField};
use crate::multilinear::mle;
use crate::sponge::DuplexSpongeMode::{Absorbing, Squeezing};
use crate::sponge::{Absorb, DuplexSpongeMode, PoseidonSponge, RandomField, SpongeState};

verus! {

/// The integer that four limbs of 64 bits denote, least significant limb first.
pub open spec fn limbs_value(limbs: Seq<u64>) -> int {
    limbs[0] + 0x1_0000_0000_0000_0000 * (limbs[1] + 0x1_0000_0000_0000_0000 * (limbs[2]
        + 0x1_0000_0000_0000_0000 * limbs[3]))
}

/// The order of the groups of BLS12-381, a prime.
pub open spec fn fr_modulus() -> int {
    0x73eda753299d7d483339d80809a1d80553bda402fffe5bfeffffffff00000001int
}

/// An element of the scalar field of BLS12-381, kept as the limbs of its canonical representative.
#[derive(Clone, Copy, Debug)]
pub struct Fr([u64; 4]);

impl Fr {
    #[verifier::type_invariant]
    spec fn reduced(self) -> bool {
        limbs_value(self.0@) < fr_modulus()
    }

    /// The element with the given representative, unless it is not reduced.
    pub fn from_limbs(limbs: [u64; 4]) -> (r: Option<Fr>)
        ensures
            match r {
                Some(x) => x.val() == limbs_value(limbs@),
                None => limbs_value(limbs@) >= fr_modulus(),
            },
    {
        let (a, b, c, d) = (limbs[3], limbs[2], limbs[1], limbs[0]);
        let reduced = a < 0x73eda753299d7d48 || a == 0x73eda753299d7d48 && (b < 0x3339d80809a1d805
            || b == 0x3339d80809a1d805 && (c < 0x53bda402fffe5bfe || c == 0x53bda402fffe5bfe && d
            < 0xffffffff00000001));
        if reduced {
            proof {
                vstd::arithmetic::div_mod::lemma_small_mod(
                    limbs_value(limbs@) as nat,
                    fr_modulus() as nat,
                );
            }
            Some(Fr(limbs))
        } else {
            None
        }
    }

    /// The limbs of the representative.
    pub fn to_limbs(self) -> (r: [u64; 4])
        ensures
            limbs_value(r@) == self.val(),
    {
        proof {
            use_type_invariant(self);
            lemma_reduced(self.0);
        }
        self.0
    }
}

/// A reduced representative is its own residue.
proof fn lemma_reduced(limbs: [u64; 4])
    requires
        limbs_value(limbs@) < fr_modulus(),
    ensures
        limbs_value(limbs@) % fr_modulus() == limbs_value(limbs@),
        limbs_value(limbs@) >= 0,
{
    vstd::arithmetic::div_mod::lemma_small_mod(limbs_value(limbs@) as nat, fr_modulus() as nat);
}

/// The lowest limb and the rest are determined by the integer that they denote.
proof fn lemma_lowest_limb(a: u64, x: int, b: u64, y: int)
    requires
        a + 0x1_0000_0000_0000_0000 * x == b + 0x1_0000_0000_0000_0000 * y,
    ensures
        a == b,
        x == y,
{
}

/// Limbs are determined by the integer that they denote.
proof fn lemma_limbs_unique(a: [u64; 4], b: [u64; 4])
    requires
        limbs_value(a@) == limbs_value(b@),
    ensures
        a@[0] == b@[0],
        a@[1] == b@[1],
        a@[2] == b@[2],
        a@[3] == b@[3],
{
    let base = 0x1_0000_0000_0000_0000int;
    let (a2, b2) = (a@[2] + base * a@[3], b@[2] + base * b@[3]);
    let (a1, b1) = (a@[1] + base * a2, b@[1] + base * b2);
    lemma_lowest_limb(a@[0], a1, b@[0], b1);
    lemma_lowest_limb(a@[1], a2, b@[1], b2);
    lemma_lowest_limb(a@[2], a@[3] as int, b@[2], b@[3] as int);
}

/// `From<u64>` of `ark_bls12_381::Fr`: the element that the integer stands for. Every `u64` is less
/// than the modulus, so that the integer is the representative.
#[verifier::external_body]
fn fr_from_u64(n: u64) -> (r: [u64; 4])
    ensures
        limbs_value(r@) == n,
{
    ArkFr::from(n).into_bigint().0
}

/// `+` of `ark_bls12_381::Fr`, on reduced representatives.
#[verifier::external_body]
fn fr_add(a: [u64; 4], b: [u64; 4]) -> (r: [u64; 4])
    requires
        limbs_value(a@) < fr_modulus(),
        limbs_value(b@) < fr_modulus(),
    ensures
        limbs_value(r@) == (limbs_value(a@) + limbs_value(b@)) % fr_modulus(),
{
    (ArkFr::from(BigInt(a)) + ArkFr::from(BigInt(b))).into_bigint().0
}

/// `-` of `ark_bls12_381::Fr` with two operands, on reduced representatives.
#[verifier::external_body]
fn fr_sub(a: [u64; 4], b: [u64; 4]) -> (r: [u64; 4])
    requires
        limbs_value(a@) < fr_modulus(),
        limbs_value(b@) < fr_modulus(),
    ensures
        limbs_value(r@) == (limbs_value(a@) - limbs_value(b@)) % fr_modulus(),
{
    (ArkFr::from(BigInt(a)) - ArkFr::from(BigInt(b))).into_bigint().0
}

/// `-` of `ark_bls12_381::Fr` with one operand, on reduced representatives.
#[verifier::external_body]
fn fr_neg(a: [u64; 4]) -> (r: [u64; 4])
    requires
        limbs_value(a@) < fr_modulus(),
    ensures
        limbs_value(r@) == (-limbs_value(a@)) % fr_modulus(),
{
    (-ArkFr::from(BigInt(a))).into_bigint().0
}

/// `*` of `ark_bls12_381::Fr`, on reduced representatives.
#[verifier::external_body]
fn fr_mul(a: [u64; 4], b: [u64; 4]) -> (r: [u64; 4])
    requires
        limbs_value(a@) < fr_modulus(),
        limbs_value(b@) < fr_modulus(),
    ensures
        limbs_value(r@) == (limbs_value(a@) * limbs_value(b@)) % fr_modulus(),
{
    (ArkFr::from(BigInt(a)) * ArkFr::from(BigInt(b))).into_bigint().0
}

/// `inverse` of `ark_bls12_381::Fr`, on reduced representatives: none for zero, and for every other
/// element the reduced representative whose product with the given one is one.
#[verifier::external_body]
fn fr_inverse(a: [u64; 4]) -> (r: Option<[u64; 4]>)
    requires
        limbs_value(a@) < fr_modulus(),
    ensures
        match r {
            Some(x) => limbs_value(x@) < fr_modulus() && (limbs_value(a@) * limbs_value(x@))
                % fr_modulus() == 1,
            None => limbs_value(a@) == 0,
        },
{
    ArkFr::from(BigInt(a)).inverse().map(|x| x.into_bigint().0)
}

impl PrimeField for Fr {
    open spec fn modulus() -> int {
        fr_modulus()
    }

    closed spec fn val(self) -> int {
        limbs_value(self.0@) % fr_modulus()
    }

    proof fn lemma_modulus() {
    }

    proof fn lemma_val(self) {
        vstd::arithmetic::div_mod::lemma_mod_bound(limbs_value(self.0@), fr_modulus());
    }

    fn zero() -> (r: Self) {
        Fr([0, 0, 0, 0])
    }

    fn one() -> (r: Self) {
        Fr([1, 0, 0, 0])
    }

    fn from_u64(n: u64) -> (r: Self) {
        Fr(fr_from_u64(n))
    }

    fn add(self, other: Self) -> (r: Self) {
        proof {
            use_type_invariant(self);
            use_type_invariant(other);
            lemma_reduced(self.0);
            lemma_reduced(other.0);
        }
        let limbs = fr_add(self.0, other.0);
        proof {
            lemma_reduced(limbs);
        }
        Fr(limbs)
    }

    fn sub(self, other: Self) -> (r: Self) {
        proof {
            use_type_invariant(self);
            use_type_invariant(other);
            lemma_reduced(self.0);
            lemma_reduced(other.0);
        }
        let limbs = fr_sub(self.0, other.0);
        proof {
            lemma_reduced(limbs);
        }
        Fr(limbs)
    }

    fn neg(self) -> (r: Self) {
        proof {
            use_type_invariant(self);
            lemma_reduced(self.0);
        }
        let limbs = fr_neg(self.0);
        proof {
            lemma_reduced(limbs);
        }
        Fr(limbs)
    }

    fn mul(self, other: Self) -> (r: Self) {
        proof {
            use_type_invariant(self);
            use_type_invariant(other);
            lemma_reduced(self.0);
            lemma_reduced(other.0);
        }
        let limbs = fr_mul(self.0, other.0);
        proof {
            lemma_reduced(limbs);
        }
        Fr(limbs)
    }

    fn equals(self, other: Self) -> (b: bool) {
        proof {
            use_type_invariant(self);
            use_type_invariant(other);
            lemma_reduced(self.0);
            lemma_reduced(other.0);
            if limbs_value(self.0@) == limbs_value(other.0@) {
                lemma_limbs_unique(self.0, other.0);
            }
        }
        let (a, b) = (self.0, other.0);
        a[0] == b[0] && a[1] == b[1] && a[2] == b[2] && a[3] == b[3]
    }

    fn inverse(self) -> (r: Option<Self>) {
        proof {
            use_type_invariant(self);
            lemma_reduced(self.0);
        }
        match fr_inverse(self.0) {
            Some(limbs) => {
                proof {
                    lemma_reduced(limbs);
                }
                Some(Fr(limbs))
            },
            None => None,
        }
    }
}

/// `DenseMultilinearExtension::from_evaluations_vec` and then `evaluate`: the value at `point` of
/// the multilinear polynomial with the given values on the hypercube, by little-endian index; none
/// if `point` does not have one coordinate for each variable.
#[verifier::external_body]
fn dense_evaluate(num_vars: usize, evaluations: &Vec<Fr>, point: &[Fr]) -> (r: Option<Fr>)
    requires
        tabulable(num_vars as nat),
        evaluations@.len() == vstd::arithmetic::power2::pow2(num_vars as nat),
    ensures
        match r {
            Some(y) => point@.len() == num_vars && y.val() == mle(
                vals(evaluations@),
                vals(point@),
            ) % fr_modulus(),
            None => point@.len() != num_vars,
        },
{
    let up = |r: &[Fr]| r.iter().map(|x| BigInt(x.0).into()).collect::<Vec<ArkFr>>();
    let poly = ArkDense::from_evaluations_vec(num_vars, up(evaluations));
    poly.evaluate(&up(point)).map(|y| Fr(y.into_bigint().0))
}

/// `SparseMultilinearExtension::from_evaluations` and then `evaluate`: the value at `point` of the
/// multilinear polynomial with the given values on the hypercube, by little-endian index, and zero
/// elsewhere on it; none if `point` does not have one coordinate for each variable.
#[verifier::external_body]
fn sparse_evaluate(poly: &SparseMultilinearExtension<Fr>, point: &[Fr]) -> (r: Option<Fr>)
    requires
        poly.wf(),
    ensures
        match r {
            Some(y) => point@.len() == poly.num_vars && y.val() == mle(poly@, vals(point@))
                % fr_modulus(),
            None => point@.len() != poly.num_vars,
        },
{
    let entries = poly.evaluations.iter().map(|(i, x)| (*i, BigInt(x.0).into()));
    let entries: Vec<(usize, ArkFr)> = entries.collect();
    let at: Vec<ArkFr> = point.iter().map(|x| BigInt(x.0).into()).collect();
    let poly = ArkSparse::from_evaluations(poly.num_vars, &entries);
    poly.evaluate(&at).map(|y| Fr(y.into_bigint().0))
}

impl MultilinearField for Fr {
    fn evaluate_dense(poly: &DenseMultilinearExtension<Self>, point: &[Self]) -> (r: Option<Self>) {
        dense_evaluate(poly.num_vars, &poly.evaluations, point)
    }

    fn evaluate_sparse(poly: &SparseMultilinearExtension<Self>, point: &[Self]) -> (r: Option<
        Self,
    >) {
        sparse_evaluate(poly, point)
    }
}

/// The model of a sponge that is given by its parts.
pub open spec fn sponge_of(
    full_rounds: usize,
    partial_rounds: usize,
    alpha: u64,
    ark: Seq<Vec<Fr>>,
    mds: Seq<Vec<Fr>>,
    rate: usize,
    capacity: usize,
    state: Seq<Fr>,
    mode: DuplexSpongeMode,
) -> SpongeState {
    SpongeState {
        full_rounds: full_rounds as nat,
        partial_rounds: partial_rounds as nat,
        alpha: alpha as nat,
        ark: vals2(ark),
        mds: vals2(mds),
        rate: rate as nat,
        capacity: capacity as nat,
        state: vals(state),
        mode,
    }
}

/// What `PoseidonSponge::absorb` of `ark_crypto_primitives` makes of a sponge and input elements.
pub uninterp spec fn poseidon_absorbed(sponge: SpongeState, elements: Seq<int>) -> SpongeState;

/// What `PoseidonSponge::squeeze_field_elements` of `ark_crypto_primitives` makes of a sponge and a
/// number of elements: the sponge afterwards, and the elements.
pub uninterp spec fn poseidon_squeezed(sponge: SpongeState, n: nat) -> (SpongeState, Seq<int>);

/// `PoseidonSponge::absorb` of `ark_crypto_primitives`, for the sponge with the given parts: the
/// state and the mode afterwards, as `poseidon_absorbed` names them. The parameters stay, the state
/// keeps its length, and the position in the mode is at most the rate.
#[verifier::external_body]
fn poseidon_absorb(
    full_rounds: usize,
    partial_rounds: usize,
    alpha: u64,
    ark: &Vec<Vec<Fr>>,
    mds: &Vec<Vec<Fr>>,
    rate: usize,
    capacity: usize,
    state: &Vec<Fr>,
    mode: DuplexSpongeMode,
    elements: &Vec<Fr>,
) -> (r: (Vec<Fr>, DuplexSpongeMode))
    requires
        sponge_of(
            full_rounds,
            partial_rounds,
            alpha,
            ark@,
            mds@,
            rate,
            capacity,
            state@,
            mode,
        ).wf(),
    ensures
        sponge_of(
            full_rounds,
            partial_rounds,
            alpha,
            ark@,
            mds@,
            rate,
            capacity,
            r.0@,
            r.1,
        ) == poseidon_absorbed(
            sponge_of(
                full_rounds,
                partial_rounds,
                alpha,
                ark@,
                mds@,
                rate,
                capacity,
                state@,
                mode,
            ),
            vals(elements@),
        ),
        sponge_of(
            full_rounds,
            partial_rounds,
            alpha,
            ark@,
            mds@,
            rate,
            capacity,
            r.0@,
            r.1,
        ).wf(),
{
    let up = |r: &Vec<Fr>| r.iter().map(|x| BigInt(x.0).into()).collect();
    let mut sponge = ArkSponge {
        parameters: ArkConfig::new(full_rounds, partial_rounds, alpha,
            mds.iter().map(up).collect(), ark.iter().map(up).collect(), rate, capacity),
        state: up(state),
        mode: match mode {
            Absorbing { next_absorb_index } => ArkAbsorbing { next_absorb_index },
            Squeezing { next_squeeze_index } => ArkSqueezing { next_squeeze_index },
        },
    };
    sponge.absorb(&up(elements));
    (sponge.state.iter().map(|x: &ArkFr| Fr(x.into_bigint().0)).collect(), match sponge.mode {
        ArkAbsorbing { next_absorb_index } => Absorbing { next_absorb_index },
        ArkSqueezing { next_squeeze_index } => Squeezing { next_squeeze_index },
    })
}

/// `PoseidonSponge::squeeze_field_elements` of `ark_crypto_primitives`, for the sponge with the
/// given parts: the state afterwards, followed by the `n` squeezed elements, and the position in
/// the mode afterwards, as `poseidon_squeezed` names them. The parameters stay, the state keeps its
/// length, and the sponge is left squeezing, at a position that is at most the rate.
#[verifier::external_body]
fn poseidon_squeeze(
    full_rounds: usize,
    partial_rounds: usize,
    alpha: u64,
    ark: &Vec<Vec<Fr>>,
    mds: &Vec<Vec<Fr>>,
    rate: usize,
    capacity: usize,
    state: &Vec<Fr>,
    mode: DuplexSpongeMode,
    n: usize,
) -> (r: (Vec<Fr>, usize))
    requires
        sponge_of(
            full_rounds,
            partial_rounds,
            alpha,
            ark@,
            mds@,
            rate,
            capacity,
            state@,
            mode,
        ).wf(),
        state@.len() + n <= usize::MAX / 64,
    ensures
        r.0@.len() == state@.len() + n,
        (
            sponge_of(
                full_rounds,
                partial_rounds,
                alpha,
                ark@,
                mds@,
                rate,
                capacity,
                r.0@.take(state@.len() as int),
                (Squeezing { next_squeeze_index: r.1 }),
            ),
            vals(r.0@.skip(state@.len() as int)),
        ) == poseidon_squeezed(
            sponge_of(
                full_rounds,
                partial_rounds,
                alpha,
                ark@,
                mds@,
                rate,
                capacity,
                state@,
                mode,
            ),
            n as nat,
        ),
        sponge_of(
            full_rounds,
            partial_rounds,
            alpha,
            ark@,
            mds@,
            rate,
            capacity,
            r.0@.take(state@.len() as int),
            (Squeezing { next_squeeze_index: r.1 }),
        ).wf(),
{
    let up = |r: &Vec<Fr>| r.iter().map(|x| BigInt(x.0).into()).collect();
    let mut sponge = ArkSponge {
        parameters: ArkConfig::new(full_rounds, partial_rounds, alpha,
            mds.iter().map(up).collect(), ark.iter().map(up).collect(), rate, capacity),
        state: up(state),
        mode: match mode {
            Absorbing { next_absorb_index } => ArkAbsorbing { next_absorb_index },
            Squeezing { next_squeeze_index } => ArkSqueezing { next_squeeze_index },
        },
    };
    let out = sponge.squeeze_field_elements(n);
    (
        sponge.state.iter().chain(&out).map(|x: &ArkFr| Fr(x.into_bigint().0)).collect(),
        match sponge.mode { ArkAbsorbing { next_absorb_index: i } |
            ArkSqueezing { next_squeeze_index: i } => i })
}

impl Absorb for Fr {
    open spec fn absorbed(sponge: SpongeState, elements: Seq<int>) -> SpongeState {
        poseidon_absorbed(sponge, elements)
    }

    open spec fn squeezed(sponge: SpongeState, n: nat) -> (SpongeState, Seq<int>) {
        poseidon_squeezed(sponge, n)
    }

    fn absorb(sponge: &mut PoseidonSponge<Self>, elements: &[Self]) {
        let p = &sponge.parameters;
        let (state, mode) = poseidon_absorb(
            p.full_rounds,
            p.partial_rounds,
            p.alpha,
            &p.ark,
            &p.mds,
            p.rate,
            p.capacity,
            &sponge.state,
            sponge.mode,
            &copy_slice(elements),
        );
        sponge.state = state;
        sponge.mode = mode;
    }

    fn squeeze_field_elements(sponge: &mut PoseidonSponge<Self>, n: usize) -> (r: Vec<Self>) {
        let p = &sponge.parameters;
        let width = sponge.state.len();
        let (mut state, next_squeeze_index) = poseidon_squeeze(
            p.full_rounds,
            p.partial_rounds,
            p.alpha,
            &p.ark,
            &p.mds,
            p.rate,
            p.capacity,
            &sponge.state,
            sponge.mode,
            n,
        );
        let ghost all = state@;
        let squeezed = state.split_off(width);
        proof {
            assert(state@ =~= all.take(width as int));
            assert(squeezed@ =~= all.skip(width as int));
        }
        sponge.state = state;
        sponge.mode = Squeezing { next_squeeze_index };
        squeezed
    }
}

/// `ark_std::test_rng` and then, `n` times, `UniformRand::rand` of `ark_bls12_381::Fr`. Whether the
/// generator starts from a fixed seed depends on how `ark_std` is built and on the environment, so
/// that nothing is relied on but the number of elements.
#[verifier::external_body]
fn fr_sample(n: usize) -> (r: Vec<Fr>)
    requires
        n <= usize::MAX / 64,
    ensures
        r@.len() == n,
{
    let mut rng = ark_std::test_rng();
    (0..n).map(|_| Fr(ArkFr::rand(&mut rng).into_bigint().0)).collect()
}

impl RandomField for Fr {
    fn sample(n: usize) -> (r: Vec<Self>) {
        fr_sample(n)
    }
}

} // verus!
