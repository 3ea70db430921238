//! The verifier.

use vstd::prelude::*;
use vstd::slice::slice_subrange;

use crate::data_structures::copy_slice;
use crate::field::{vals, vals2, PrimeField};
use crate::interpolation::{interpolate, interpolate_uni_poly, lemma_interpolate_constant};
use crate::oracles::Oracle;
use crate::protocol::{
    complete, last_challenge, last_values, outcome, readable, round_ok, rounds_ok,
};
use crate::rounds::{challenges, lemma_challenges_push, lemma_challenges_take, sponge_after};
use crate::sponge::{Absorb, PoseidonSponge, SpongeState};
use crate::transcript::{draw_challenge, SumcheckProof, Transcript};

verus! {

/// The verifier.
pub struct Verifier<F: PrimeField, O: Oracle<F>> {
    oracle: O,
    sponge: PoseidonSponge<F>,
    transcript: Transcript<F>,
}

/// Whether the nodes `0, .., n - 1` are different elements of the field.
fn nodes_are_distinct<F: PrimeField>(n: usize) -> (b: bool)
    ensures
        b == (n <= F::modulus()),
{
    let zero = F::zero();
    let ghost p = F::modulus();
    proof {
        F::lemma_modulus();
    }
    let mut i: usize = 1;
    while i < n
        invariant
            zero.val() == 0,
            p == F::modulus(),
            p >= 3,
            1 <= i <= p,
            i <= n || n == 0,
        decreases n - i,
    {
        if F::from_u64(i as u64).equals(zero) {
            proof {
                if i < p {
                    vstd::arithmetic::div_mod::lemma_small_mod(i as nat, p as nat);
                }
            }
            return false;
        }
        proof {
            if i == p {
                vstd::arithmetic::div_mod::lemma_mod_self_0(p);
            }
        }
        i = i + 1;
    }
    true
}

impl<F: Absorb, O: Oracle<F>> Verifier<F, O> {
    /// The oracle that is asked after the last round.
    pub closed spec fn source(&self) -> O {
        self.oracle
    }

    /// The state of the sponge.
    pub closed spec fn sponge_state(&self) -> SpongeState {
        self.sponge@
    }

    /// The messages of the proof, and those that the verifier has recorded.
    pub closed spec fn messages(&self) -> Seq<Seq<int>> {
        self.transcript.proof.messages()
    }

    /// The claim of the proof.
    pub closed spec fn claim(&self) -> Option<int> {
        self.transcript.proof.claim_val()
    }

    /// The oracle and the sponge can be used, and there is a claim.
    pub open spec fn wf(&self) -> bool {
        &&& self.source().wf()
        &&& self.sponge_state().wf()
        &&& self.claim() is Some
    }

    /// Every message that the verifier comes to look at is there.
    pub open spec fn complete(&self) -> bool {
        complete::<F>(
            self.claim()->0,
            self.messages(),
            self.sponge_state(),
            self.source().rounds() as int,
        )
    }

    /// The outcome of a run from this state.
    pub open spec fn has_outcome(&self, accepted: bool, rs: Seq<int>) -> bool {
        let n = self.source().rounds() as int;
        let value = self.source().value(rs.take(n / 2), rs.skip(n / 2));
        &&& outcome::<F>(
            self.claim()->0,
            self.messages(),
            self.sponge_state(),
            n,
            value,
            rs.len() as int,
            accepted,
        )
        &&& rs == challenges::<F>(self.sponge_state(), self.messages().take(rs.len() as int))
    }

    /// What an outcome says. The messages that were passed are consistent: the first adds up to the
    /// claim, and each later one to the value at the last challenge of the polynomial before it. If
    /// not all are passed, the next one is not consistent, and the proof is refused. If all are,
    /// the proof is accepted exactly when the value of the last polynomial at the last challenge is
    /// the oracle's value at the two halves of the challenges.
    pub proof fn lemma_verdict(&self, accepted: bool, rs: Seq<int>)
        requires
            self.has_outcome(accepted, rs),
        ensures
            ({
                let n = self.source().rounds() as int;
                let m = self.messages();
                let p = F::modulus();
                let claim = self.claim()->0;
                let last = rs.len() - 1;
                &&& rs.len() <= n
                &&& rs.len() <= m.len()
                &&& rs == challenges::<F>(self.sponge_state(), m.take(rs.len() as int))
                &&& accepted ==> rs.len() == n
                &&& rs.len() > 0 ==> (m[0][0] + m[0][1]) % p == claim % p
                &&& forall|i: int|
                    1 <= i < rs.len() ==> (#[trigger] m[i][0] + m[i][1]) % p == interpolate(
                        m[i - 1],
                        rs[i - 1],
                        p,
                    )
                &&& rs.len() < n && rs.len() == 0 ==> (m[0][0] + m[0][1]) % p != claim % p
                &&& rs.len() < n && rs.len() > 0 ==> (m[last + 1][0] + m[last + 1][1]) % p
                    != interpolate(m[last], rs[last], p)
                &&& rs.len() == n && n > 0 ==> accepted == (interpolate(m[last], rs[last], p)
                    == self.source().value(rs.take(n / 2), rs.skip(n / 2)))
                &&& rs.len() == n && n == 0 ==> accepted == (claim % p == self.source().value(
                    rs.take(n / 2),
                    rs.skip(n / 2),
                ))
            }),
    {
        let n = self.source().rounds() as int;
        let (m, sponge, claim) = (self.messages(), self.sponge_state(), self.claim()->0);
        let passed = rs.len() as int;
        lemma_interpolate_constant(claim, 1, F::modulus());
        lemma_challenges_take::<F>(sponge, m, passed);
        let all = challenges::<F>(sponge, m);
        assert(rs =~= all.take(passed));
        assert forall|i: int| 1 <= i < passed implies (#[trigger] m[i][0] + m[i][1]) % F::modulus()
            == interpolate(m[i - 1], rs[i - 1], F::modulus()) by {
            assert(round_ok::<F>(claim, m, sponge, i));
            assert(all[i - 1] == rs[i - 1]);
        }
        if passed > 0 {
            assert(round_ok::<F>(claim, m, sponge, 0));
            assert(all[passed - 1] == rs[passed - 1]);
        }
    }

    /// In a complete proof, each message that follows consistent ones is there with two values or
    /// more and, if it is consistent too, with no more values than the field has elements. The first
    /// message is consistent if it adds up to the claim, and a later one if it adds up to the value at
    /// the last challenge of the polynomial before it.
    pub proof fn lemma_complete(&self, i: int)
        requires
            self.complete(),
            0 <= i < self.source().rounds(),
            ({
                let m = self.messages();
                let p = F::modulus();
                let claim = self.claim()->0;
                let rs = challenges::<F>(self.sponge_state(), m);
                forall|j: int|
                    0 <= j < i ==> (#[trigger] m[j][0] + m[j][1]) % p == (if j == 0 {
                        claim % p
                    } else {
                        interpolate(m[j - 1], rs[j - 1], p)
                    })
            }),
        ensures
            ({
                let m = self.messages();
                let p = F::modulus();
                let claim = self.claim()->0;
                let rs = challenges::<F>(self.sponge_state(), m);
                &&& i < m.len()
                &&& m[i].len() >= 2
                &&& (m[i][0] + m[i][1]) % p == (if i == 0 {
                    claim % p
                } else {
                    interpolate(m[i - 1], rs[i - 1], p)
                }) ==> m[i].len() <= p
            }),
    {
        let (m, sponge, claim) = (self.messages(), self.sponge_state(), self.claim()->0);
        let p = F::modulus();
        let rs = challenges::<F>(sponge, m);
        lemma_interpolate_constant(claim, 1, p);
        assert forall|j: int| 0 <= j < i implies #[trigger] round_ok::<F>(claim, m, sponge, j) by {
            assert((m[j][0] + m[j][1]) % p == (if j == 0 {
                claim % p
            } else {
                interpolate(m[j - 1], rs[j - 1], p)
            }));
        }
        assert(readable::<F>(claim, m, sponge, i));
    }

    /// A proof that is not complete lacks a message that follows consistent ones: it is not there, or
    /// has fewer than two values, or is consistent and has more values than the field has elements.
    pub proof fn lemma_incomplete(&self) -> (i: int)
        requires
            !self.complete(),
        ensures
            0 <= i < self.source().rounds(),
            ({
                let m = self.messages();
                let p = F::modulus();
                let claim = self.claim()->0;
                let rs = challenges::<F>(self.sponge_state(), m);
                forall|j: int|
                    0 <= j < i ==> (#[trigger] m[j][0] + m[j][1]) % p == (if j == 0 {
                        claim % p
                    } else {
                        interpolate(m[j - 1], rs[j - 1], p)
                    })
            }),
            ({
                let m = self.messages();
                let p = F::modulus();
                let claim = self.claim()->0;
                let rs = challenges::<F>(self.sponge_state(), m);
                ||| i >= m.len()
                ||| m[i].len() < 2
                ||| (m[i][0] + m[i][1]) % p == (if i == 0 {
                    claim % p
                } else {
                    interpolate(m[i - 1], rs[i - 1], p)
                }) && m[i].len() > p
            }),
    {
        let n = self.source().rounds() as int;
        let (m, sponge, claim) = (self.messages(), self.sponge_state(), self.claim()->0);
        let p = F::modulus();
        let rs = challenges::<F>(sponge, m);
        lemma_interpolate_constant(claim, 1, p);
        let i = choose|i: int|
            0 <= i < n && rounds_ok::<F>(claim, m, sponge, i) && !#[trigger] readable::<F>(
                claim,
                m,
                sponge,
                i,
            );
        assert forall|j: int| 0 <= j < i implies (#[trigger] m[j][0] + m[j][1]) % p == (if j == 0 {
            claim % p
        } else {
            interpolate(m[j - 1], rs[j - 1], p)
        }) by {
            assert(round_ok::<F>(claim, m, sponge, j));
        }
        i
    }

    /// A verifier of the given proof.
    pub fn new(oracle: O, sponge: PoseidonSponge<F>, proof: SumcheckProof<F>) -> (r: Self)
        ensures
            r.source() == oracle,
            r.sponge_state() == sponge@,
            r.messages() == proof.messages(),
            r.claim() == proof.claim_val(),
    {
        Verifier { oracle, sponge, transcript: Transcript { proof } }
    }

    /// Checks the proof. Returns whether it is accepted, and the challenges that were drawn.
    pub fn run(&mut self) -> (r: (bool, Vec<F>))
        requires
            old(self).wf(),
            old(self).complete(),
        ensures
            old(self).has_outcome(r.0, vals(r.1@)),
            ({
                let n = old(self).source().rounds() as int;
                let m = old(self).messages();
                let p = F::modulus();
                let claim = old(self).claim()->0;
                let rs = vals(r.1@);
                let last = rs.len() - 1;
                &&& rs.len() <= n
                &&& r.0 ==> rs.len() == n
                &&& rs.len() > 0 ==> (m[0][0] + m[0][1]) % p == claim % p
                &&& forall|i: int|
                    1 <= i < rs.len() ==> (#[trigger] m[i][0] + m[i][1]) % p == interpolate(
                        m[i - 1],
                        rs[i - 1],
                        p,
                    )
                &&& rs.len() < n && rs.len() == 0 ==> (m[0][0] + m[0][1]) % p != claim % p
                &&& rs.len() < n && rs.len() > 0 ==> (m[last + 1][0] + m[last + 1][1]) % p
                    != interpolate(m[last], rs[last], p)
                &&& rs.len() == n && n > 0 ==> r.0 == (interpolate(m[last], rs[last], p) == old(
                    self,
                ).source().value(rs.take(n / 2), rs.skip(n / 2)))
                &&& rs.len() == n && n == 0 ==> r.0 == (claim % p == old(self).source().value(
                    rs.take(n / 2),
                    rs.skip(n / 2),
                ))
                &&& rs.len() <= m.len()
                &&& rs == challenges::<F>(old(self).sponge_state(), m.take(rs.len() as int))
            }),
            final(self).source() == old(self).source(),
            final(self).claim() == old(self).claim(),
            final(self).messages() == old(self).messages() + old(self).messages().take(
                r.1@.len() as int,
            ),
            final(self).sponge_state() == sponge_after::<F>(
                old(self).sponge_state(),
                old(self).messages().take(r.1@.len() as int),
            ),
            final(self).sponge_state().wf(),
    {
        let v = self.oracle.num_rounds();
        let ghost messages = self.transcript.proof.messages();
        let ghost sponge = self.sponge@;
        let ghost claim = self.claim()->0;
        let ghost n = v as int;
        let ghost p = F::modulus();
        let mut last_pol: Vec<F> = Vec::new();
        match self.transcript.proof.claim {
            Some(value) => last_pol.push(value),
            None => {
                assert(false);
            },
        }
        // a dummy scalar at which the constant polynomial is evaluated in the first round
        let mut last_sent_scalar = F::one();
        let mut random_challenges: Vec<F> = Vec::new();
        proof {
            F::lemma_modulus();
            assert(messages + messages.take(0) =~= messages);
            assert(vals(last_pol@) =~= seq![claim]);
            assert(vals(random_challenges@) =~= challenges::<F>(sponge, messages.take(0)));
        }
        for r in 0..v
            invariant
                self.oracle == old(self).oracle,
                self.oracle.wf(),
                n == v,
                v == self.oracle.rounds(),
                p == F::modulus(),
                p >= 3,
                self.transcript.proof.claim == old(self).transcript.proof.claim,
                claim == old(self).claim()->0,
                messages == old(self).messages(),
                sponge == old(self).sponge_state(),
                old(self).complete(),
                r <= messages.len(),
                self.transcript.proof.messages() == messages + messages.take(r as int),
                self.sponge@ == sponge_after::<F>(sponge, messages.take(r as int)),
                self.sponge@.wf(),
                rounds_ok::<F>(claim, messages, sponge, r as int),
                vals(last_pol@) == last_values(claim, messages, r as int),
                last_pol@.len() <= p,
                last_sent_scalar.val() == last_challenge::<F>(messages, sponge, r as int),
                vals(random_challenges@) == challenges::<F>(sponge, messages.take(r as int)),
                random_challenges@.len() == r,
        {
            proof {
                assert(readable::<F>(claim, messages, sponge, r as int));
                assert(self.transcript.proof.messages()[r as int] == messages[r as int]);
                assert(self.transcript.proof.messages().len() == self.transcript.proof.values@.len());
            }
            let new_pol_evals = copy_slice(self.transcript.proof.values[r].as_slice());
            assert(vals(new_pol_evals@) == messages[r as int]);
            let claimed_sum = new_pol_evals[0].add(new_pol_evals[1]);
            if !claimed_sum.equals(interpolate_uni_poly(last_pol.as_slice(), last_sent_scalar)) {
                proof {
                    old(self).lemma_verdict(false, vals(random_challenges@));
                }
                return (false, random_challenges);
            }
            proof {
                let k = r as int;
                assert(messages[k][0] == new_pol_evals@[0].val());
                assert(messages[k][1] == new_pol_evals@[1].val());
                assert(round_ok::<F>(claim, messages, sponge, k));
                lemma_challenges_push::<F>(sponge, messages.take(k), messages[k]);
                assert(messages.take(k + 1) =~= messages.take(k).push(messages[k]));
                assert(messages + messages.take(k + 1) =~= (messages + messages.take(k)).push(
                    messages[k],
                ));
            }
            last_sent_scalar = self.transcript.update(new_pol_evals.as_slice(), &mut self.sponge);
            random_challenges.push(last_sent_scalar);
            last_pol = new_pol_evals;
            proof {
                assert(vals(random_challenges@) =~= challenges::<F>(
                    sponge,
                    messages.take(r as int),
                ).push(last_sent_scalar.val()));
            }
        }
        let half = v / 2;
        let value = self.oracle.divinate(
            slice_subrange(random_challenges.as_slice(), 0, half),
            slice_subrange(random_challenges.as_slice(), half, v),
        );
        proof {
            let rs = vals(random_challenges@);
            let h = half as int;
            assert(vals(random_challenges@.subrange(0, h)) =~= rs.take(n / 2));
            assert(vals(random_challenges@.subrange(h, n)) =~= rs.skip(n / 2));
        }
        let accepted = interpolate_uni_poly(last_pol.as_slice(), last_sent_scalar).equals(value);
        proof {
            old(self).lemma_verdict(accepted, vals(random_challenges@));
        }
        (accepted, random_challenges)
    }

    /// Whether every message that a run would come to look at is there.
    pub fn is_complete(&self) -> (b: bool)
        requires
            self.wf(),
        ensures
            b == self.complete(),
    {
        let v = self.oracle.num_rounds();
        let values = &self.transcript.proof.values;
        let mut sponge = self.sponge.clone();
        let ghost messages = self.transcript.proof.messages();
        let ghost start = self.sponge@;
        let ghost claim = self.claim()->0;
        let ghost n = v as int;
        let ghost p = F::modulus();
        let mut last_pol: Vec<F> = Vec::new();
        match self.transcript.proof.claim {
            Some(value) => last_pol.push(value),
            None => {
                assert(false);
            },
        }
        let mut last_sent_scalar = F::one();
        proof {
            F::lemma_modulus();
            assert(vals(last_pol@) =~= seq![claim]);
        }
        for r in 0..v
            invariant
                n == v,
                p == F::modulus(),
                p >= 3,
                messages == vals2(values@),
                sponge@ == sponge_after::<F>(start, messages.take(r as int)),
                sponge@.wf(),
                r <= messages.len(),
                rounds_ok::<F>(claim, messages, start, r as int),
                complete::<F>(claim, messages, start, r as int),
                vals(last_pol@) == last_values(claim, messages, r as int),
                last_pol@.len() <= p,
                last_sent_scalar.val() == last_challenge::<F>(messages, start, r as int),
                n == self.source().rounds(),
                claim == self.claim()->0,
                messages == self.messages(),
                start == self.sponge_state(),
        {
            let ghost k = r as int;
            if r >= values.len() || values[r].len() < 2 {
                proof {
                    assert(!readable::<F>(claim, messages, start, k));
                }
                return false;
            }
            let message = copy_slice(values[r].as_slice());
            assert(messages[k] == vals(message@));
            let claimed_sum = message[0].add(message[1]);
            proof {
                assert(messages[k][0] == message@[0].val());
                assert(messages[k][1] == message@[1].val());
            }
            if !claimed_sum.equals(interpolate_uni_poly(last_pol.as_slice(), last_sent_scalar)) {
                proof {
                    assert(!round_ok::<F>(claim, messages, start, k));
                    assert forall|i: int|
                        0 <= i < n && rounds_ok::<F>(claim, messages, start, i) implies
                        #[trigger] readable::<F>(claim, messages, start, i) by {
                        if i > k {
                            assert(round_ok::<F>(claim, messages, start, k));
                        }
                    }
                }
                return true;
            }
            if !nodes_are_distinct::<F>(message.len()) {
                proof {
                    assert(!readable::<F>(claim, messages, start, k));
                }
                return false;
            }
            proof {
                assert(round_ok::<F>(claim, messages, start, k));
                lemma_challenges_push::<F>(start, messages.take(k), messages[k]);
                assert(messages.take(k + 1) =~= messages.take(k).push(messages[k]));
            }
            last_sent_scalar = draw_challenge(message.as_slice(), &mut sponge);
            last_pol = message;
        }
        true
    }

    /// Checks the proof if every message that the run comes to look at is there.
    pub fn try_run(&mut self) -> (r: Option<(bool, Vec<F>)>)
        requires
            old(self).wf(),
        ensures
            r is Some == old(self).complete(),
            r matches Some(out) ==> {
                &&& old(self).has_outcome(out.0, vals(out.1@))
                &&& {
                    let n = old(self).source().rounds() as int;
                    let m = old(self).messages();
                    let p = F::modulus();
                    let claim = old(self).claim()->0;
                    let rs = vals(out.1@);
                    let last = rs.len() - 1;
                    &&& rs.len() <= n
                    &&& out.0 ==> rs.len() == n
                    &&& rs.len() > 0 ==> (m[0][0] + m[0][1]) % p == claim % p
                    &&& forall|i: int|
                        1 <= i < rs.len() ==> (#[trigger] m[i][0] + m[i][1]) % p == interpolate(
                            m[i - 1],
                            rs[i - 1],
                            p,
                        )
                    &&& rs.len() < n && rs.len() == 0 ==> (m[0][0] + m[0][1]) % p != claim % p
                    &&& rs.len() < n && rs.len() > 0 ==> (m[last + 1][0] + m[last + 1][1]) % p
                        != interpolate(m[last], rs[last], p)
                    &&& rs.len() == n && n > 0 ==> out.0 == (interpolate(m[last], rs[last], p) == old(
                        self,
                    ).source().value(rs.take(n / 2), rs.skip(n / 2)))
                    &&& rs.len() == n && n == 0 ==> out.0 == (claim % p == old(self).source().value(
                        rs.take(n / 2),
                        rs.skip(n / 2),
                    ))
                    &&& rs.len() <= m.len()
                    &&& rs == challenges::<F>(old(self).sponge_state(), m.take(rs.len() as int))
                }
                &&& final(self).source() == old(self).source()
                &&& final(self).claim() == old(self).claim()
                &&& final(self).messages() == old(self).messages() + old(self).messages().take(
                    out.1@.len() as int,
                )
                &&& final(self).sponge_state() == sponge_after::<F>(
                    old(self).sponge_state(),
                    old(self).messages().take(out.1@.len() as int),
                )
                &&& final(self).sponge_state().wf()
            },
            r is None ==> *final(self) == *old(self),
    {
        if self.is_complete() {
            Some(self.run())
        } else {
            None
        }
    }
}

} // verus!
