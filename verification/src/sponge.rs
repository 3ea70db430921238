//! The Poseidon duplex sponge that turns prover messages into challenges.

use vstd::prelude::*;

use crate::data_structures::copy_slice;
use crate::field::{vals, vals2, PrimeField};

verus! {

/// Round constants, matrix and shape of the Poseidon permutation.
pub struct PoseidonConfig<F: PrimeField> {
    /// Number of rounds that apply the S-box to the whole state.
    pub full_rounds: usize,
    /// Number of rounds that apply the S-box to the first element of the state only.
    pub partial_rounds: usize,
    /// Exponent of the S-box.
    pub alpha: u64,
    /// Round constants, by round and state position.
    pub ark: Vec<Vec<F>>,
    /// The matrix of the linear layer.
    pub mds: Vec<Vec<F>>,
    /// Number of state elements that absorb input and yield output.
    pub rate: usize,
    /// Number of state elements that do neither.
    pub capacity: usize,
}

/// What a duplex sponge did last, and where in the state it goes on.
#[derive(Clone, Copy, Debug)]
pub enum DuplexSpongeMode {
    /// The sponge takes input next at this position of the rate.
    Absorbing {
        /// The position.
        next_absorb_index: usize,
    },
    /// The sponge yields output next from this position of the rate.
    Squeezing {
        /// The position.
        next_squeeze_index: usize,
    },
}

/// A Poseidon sponge: its parameters, its state and its mode.
pub struct PoseidonSponge<F: PrimeField> {
    /// The parameters of the permutation.
    pub parameters: PoseidonConfig<F>,
    /// The state, capacity elements first.
    pub state: Vec<F>,
    /// What the sponge did last.
    pub mode: DuplexSpongeMode,
}

/// The mathematical model of a sponge.
#[verifier::ext_equal]
pub struct SpongeState {
    pub full_rounds: nat,
    pub partial_rounds: nat,
    pub alpha: nat,
    pub ark: Seq<Seq<int>>,
    pub mds: Seq<Seq<int>>,
    pub rate: nat,
    pub capacity: nat,
    pub state: Seq<int>,
    pub mode: DuplexSpongeMode,
}

impl<F: PrimeField> View for PoseidonSponge<F> {
    type V = SpongeState;

    open spec fn view(&self) -> SpongeState {
        SpongeState {
            full_rounds: self.parameters.full_rounds as nat,
            partial_rounds: self.parameters.partial_rounds as nat,
            alpha: self.parameters.alpha as nat,
            ark: vals2(self.parameters.ark@),
            mds: vals2(self.parameters.mds@),
            rate: self.parameters.rate as nat,
            capacity: self.parameters.capacity as nat,
            state: vals(self.state@),
            mode: self.mode,
        }
    }
}

impl SpongeState {
    /// The parts fit together: one row of round constants per round, a square matrix, a state of
    /// `rate + capacity` elements, with room in memory for one more, and a position that is at most
    /// the rate.
    pub open spec fn wf(self) -> bool {
        let width = self.rate + self.capacity;
        &&& self.rate > 0
        &&& width < usize::MAX / 64
        &&& self.ark.len() == self.full_rounds + self.partial_rounds
        &&& self.mds.len() == width
        &&& self.state.len() == width
        &&& forall|i: int| 0 <= i < self.ark.len() ==> (#[trigger] self.ark[i]).len() == width
        &&& forall|i: int| 0 <= i < self.mds.len() ==> (#[trigger] self.mds[i]).len() == width
        &&& match self.mode {
            DuplexSpongeMode::Absorbing { next_absorb_index } => next_absorb_index <= self.rate,
            DuplexSpongeMode::Squeezing { next_squeeze_index } => next_squeeze_index <= self.rate,
        }
    }
}

impl<F: PrimeField> Clone for PoseidonSponge<F> {
    fn clone(&self) -> (r: Self)
        ensures
            r@ == self@,
            r.mode == self.mode,
            r.state@ == self.state@,
            r.parameters.full_rounds == self.parameters.full_rounds,
            r.parameters.partial_rounds == self.parameters.partial_rounds,
            r.parameters.alpha == self.parameters.alpha,
            r.parameters.rate == self.parameters.rate,
            r.parameters.capacity == self.parameters.capacity,
            vals2(r.parameters.ark@) == vals2(self.parameters.ark@),
            vals2(r.parameters.mds@) == vals2(self.parameters.mds@),
    {
        let r = PoseidonSponge {
            parameters: PoseidonConfig {
                full_rounds: self.parameters.full_rounds,
                partial_rounds: self.parameters.partial_rounds,
                alpha: self.parameters.alpha,
                ark: copy_rows(&self.parameters.ark),
                mds: copy_rows(&self.parameters.mds),
                rate: self.parameters.rate,
                capacity: self.parameters.capacity,
            },
            state: copy_slice(self.state.as_slice()),
            mode: self.mode,
        };
        assert(r@ =~= self@);
        r
    }
}

/// Copies a matrix.
fn copy_rows<F: PrimeField>(rows: &Vec<Vec<F>>) -> (r: Vec<Vec<F>>)
    ensures
        vals2(r@) == vals2(rows@),
{
    let mut r: Vec<Vec<F>> = Vec::new();
    for i in 0..rows.len()
        invariant
            r@.len() == i,
            forall|j: int| 0 <= j < i ==> (#[trigger] r@[j])@ == rows@[j]@,
    {
        r.push(copy_slice(rows[i].as_slice()));
    }
    assert(vals2(r@) =~= vals2(rows@));
    r
}

/// A prime field over which the Poseidon sponge can be run.
pub trait Absorb: PrimeField {
    /// The sponge after it has absorbed `elements`.
    spec fn absorbed(sponge: SpongeState, elements: Seq<int>) -> SpongeState;

    /// The sponge after it has yielded `n` elements, and these elements.
    spec fn squeezed(sponge: SpongeState, n: nat) -> (SpongeState, Seq<int>);

    /// Feeds `elements` to the sponge.
    fn absorb(sponge: &mut PoseidonSponge<Self>, elements: &[Self])
        requires
            old(sponge)@.wf(),
        ensures
            final(sponge)@ == Self::absorbed(old(sponge)@, vals(elements@)),
            final(sponge)@.wf(),
    ;

    /// Draws `n` elements from the sponge; there is room for them beside the state.
    fn squeeze_field_elements(sponge: &mut PoseidonSponge<Self>, n: usize) -> (r: Vec<Self>)
        requires
            old(sponge)@.wf(),
            old(sponge)@.state.len() + n <= usize::MAX / 64,
        ensures
            (final(sponge)@, vals(r@)) == Self::squeezed(old(sponge)@, n as nat),
            r@.len() == n,
            final(sponge)@.wf(),
    ;
}

/// A prime field from which elements can be sampled for tests.
pub trait RandomField: PrimeField {
    /// Samples `n` elements.
    fn sample(n: usize) -> (r: Vec<Self>)
        requires
            n <= usize::MAX / 64,
        ensures
            r@.len() == n,
    ;
}

impl<F: PrimeField> PoseidonSponge<F> {
    /// A sponge that has not absorbed anything.
    pub fn new(parameters: PoseidonConfig<F>) -> (r: Self)
        requires
            parameters.rate + parameters.capacity <= usize::MAX,
        ensures
            r.parameters == parameters,
            r@.state == Seq::new(
                (parameters.rate + parameters.capacity) as nat,
                |i: int| 0int,
            ),
            r.mode == (DuplexSpongeMode::Absorbing { next_absorb_index: 0 }),
    {
        let width = parameters.rate + parameters.capacity;
        let mut state: Vec<F> = Vec::new();
        for i in 0..width
            invariant
                state@.len() == i,
                forall|j: int| 0 <= j < i ==> (#[trigger] state@[j]).val() == 0,
        {
            state.push(F::zero());
        }
        let mode = DuplexSpongeMode::Absorbing { next_absorb_index: 0 };
        let r = PoseidonSponge { parameters, state, mode };
        assert(r@.state =~= Seq::new(width as nat, |i: int| 0int));
        r
    }
}

/// The matrix of the sponge for tests.
pub open spec fn test_matrix() -> Seq<Seq<int>> {
    seq![seq![1, 0, 1], seq![1, 1, 0], seq![0, 1, 1]]
}

/// A row of three elements.
fn row<F: PrimeField>(a: F, b: F, c: F) -> (r: Vec<F>)
    ensures
        vals(r@) == seq![a.val(), b.val(), c.val()],
{
    let mut r: Vec<F> = Vec::new();
    r.push(a);
    r.push(b);
    r.push(c);
    assert(vals(r@) =~= seq![a.val(), b.val(), c.val()]);
    r
}

/// A fresh sponge of width three for tests, with sampled round constants. Two calls need not give
/// the same constants: parties that are to agree start from copies of one sponge.
pub fn test_sponge<F: RandomField>() -> (r: PoseidonSponge<F>)
    ensures
        r@.wf(),
        r@.full_rounds == 8,
        r@.partial_rounds == 31,
        r@.alpha == 17,
        r@.mds == test_matrix(),
        r@.mds == seq![seq![1int, 0, 1], seq![1int, 1, 0], seq![0int, 1, 1]],
        r@.rate == 2,
        r@.capacity == 1,
        r@.state == seq![0int, 0, 0],
        r.mode == (DuplexSpongeMode::Absorbing { next_absorb_index: 0 }),
{
    let full_rounds: usize = 8;
    let partial_rounds: usize = 31;
    let rounds = full_rounds + partial_rounds;
    let sampled: Vec<F> = F::sample(3 * rounds);
    let mut ark: Vec<Vec<F>> = Vec::new();
    for i in 0..rounds
        invariant
            rounds == 39,
            sampled@.len() == 3 * rounds,
            ark@.len() == i,
            forall|j: int| 0 <= j < i ==> (#[trigger] ark@[j])@.len() == 3,
    {
        ark.push(row(sampled[3 * i], sampled[3 * i + 1], sampled[3 * i + 2]));
        assert(vals(ark@[i as int]@).len() == 3);
    }
    let (zero, one) = (F::zero(), F::one());
    let mut mds: Vec<Vec<F>> = Vec::new();
    mds.push(row(one, zero, one));
    mds.push(row(one, one, zero));
    mds.push(row(zero, one, one));
    assert(vals2(mds@) =~= test_matrix());
    let parameters = PoseidonConfig {
        full_rounds,
        partial_rounds,
        alpha: 17,
        ark,
        mds,
        rate: 2,
        capacity: 1,
    };
    let r = PoseidonSponge::new(parameters);
    proof {
        assert(r@.state =~= seq![0int, 0, 0]);
        assert forall|i: int| 0 <= i < r@.ark.len() implies (#[trigger] r@.ark[i]).len() == 3 by {
            assert(ark@[i]@.len() == 3);
        }
        assert forall|i: int| 0 <= i < r@.mds.len() implies (#[trigger] r@.mds[i]).len() == 3 by {
            assert(test_matrix()[i].len() == 3);
        }
    }
    r
}

} // verus!
