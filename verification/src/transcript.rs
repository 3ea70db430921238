//! The transcript of a run: the messages of the prover, and the challenges drawn from them.

use vstd::prelude::*;

use crate::data_structures::copy_slice;
use crate::field::{vals, vals2, PrimeField};
use crate::rounds::challenge;
use crate::sponge::{Absorb, PoseidonSponge};

verus! {

/// A proof: the messages of the prover and the value that it claims for the sum.
pub struct SumcheckProof<F: PrimeField> {
    /// One message for each round.
    pub values: Vec<Vec<F>>,
    /// The claimed value.
    pub claim: Option<F>,
}

/// A proof in the making.
pub struct Transcript<F: PrimeField> {
    /// What the proof holds so far.
    pub proof: SumcheckProof<F>,
}

impl<F: PrimeField> SumcheckProof<F> {
    /// The messages, by representatives.
    pub open spec fn messages(&self) -> Seq<Seq<int>> {
        vals2(self.values@)
    }

    /// The representative of the claim.
    pub open spec fn claim_val(&self) -> Option<int> {
        match self.claim {
            Some(c) => Some(c.val()),
            None => None,
        }
    }
}

impl<F: PrimeField> Clone for SumcheckProof<F> {
    fn clone(&self) -> (r: Self)
        ensures
            r.messages() == self.messages(),
            r.claim == self.claim,
            r.values@.len() == self.values@.len(),
            forall|i: int|
                0 <= i < r.values@.len() ==> (#[trigger] r.values@[i])@ == self.values@[i]@,
    {
        let mut values: Vec<Vec<F>> = Vec::new();
        for i in 0..self.values.len()
            invariant
                values@.len() == i,
                forall|j: int| 0 <= j < i ==> (#[trigger] values@[j])@ == self.values@[j]@,
        {
            values.push(copy_slice(self.values[i].as_slice()));
        }
        let r = SumcheckProof { values, claim: self.claim };
        assert(r.messages() =~= self.messages());
        r
    }
}

impl<F: PrimeField> Transcript<F> {
    /// An empty transcript.
    pub fn new() -> (r: Self)
        ensures
            r.proof.messages() == Seq::<Seq<int>>::empty(),
            r.proof.claim is None,
    {
        let r = Transcript { proof: SumcheckProof { values: Vec::new(), claim: None } };
        assert(r.proof.messages() =~= Seq::<Seq<int>>::empty());
        r
    }

    /// Records the claimed value.
    pub fn set_claim(&mut self, claim: F)
        ensures
            final(self).proof.claim == Some(claim),
            final(self).proof.messages() == old(self).proof.messages(),
    {
        self.proof.claim = Some(claim);
    }
}

/// Draws the challenge that answers a message.
pub fn draw_challenge<F: Absorb>(elements: &[F], sponge: &mut PoseidonSponge<F>) -> (r: F)
    requires
        old(sponge)@.wf(),
    ensures
        (final(sponge)@, r.val()) == challenge::<F>(old(sponge)@, vals(elements@)),
        final(sponge)@ == F::squeezed(F::absorbed(old(sponge)@, vals(elements@)), 1).0,
        r.val() == F::squeezed(F::absorbed(old(sponge)@, vals(elements@)), 1).1[0],
        final(sponge)@.wf(),
{
    F::absorb(sponge, elements);
    let drawn = F::squeeze_field_elements(sponge, 1);
    assert(vals(drawn@)[0] == drawn@[0].val());
    drawn[0]
}

impl<F: Absorb> Transcript<F> {
    /// Records a message, and draws the challenge that answers it.
    pub fn update(&mut self, elements: &[F], sponge: &mut PoseidonSponge<F>) -> (r: F)
        requires
            old(sponge)@.wf(),
        ensures
            final(self).proof.messages() == old(self).proof.messages().push(vals(elements@)),
            final(self).proof.claim == old(self).proof.claim,
            (final(sponge)@, r.val()) == challenge::<F>(old(sponge)@, vals(elements@)),
            final(sponge)@ == F::squeezed(F::absorbed(old(sponge)@, vals(elements@)), 1).0,
            r.val() == F::squeezed(F::absorbed(old(sponge)@, vals(elements@)), 1).1[0],
            final(sponge)@.wf(),
    {
        self.proof.values.push(copy_slice(elements));
        assert(self.proof.messages() =~= old(self).proof.messages().push(vals(elements@)));
        draw_challenge(elements, sponge)
    }
}

} // verus!
