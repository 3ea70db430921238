//! What an honest prover sends, and what the verifier makes of what it receives.

use vstd::prelude::*;

use crate::data_structures::Term;
use crate::interpolation::interpolate;
use crate::multilinear::mle;
use crate::rounds::{challenges, prover_messages, sponge_after, total};
use crate::sponge::{Absorb, SpongeState};
use crate::wiring::{phase_1_table, phase_2_table, Mix};

verus! {

/// All products have `k` variables in each block.
pub open spec fn terms_shaped(terms: Seq<Term>, k: nat) -> bool {
    forall|s: int| 0 <= s < terms.len() ==> (#[trigger] terms[s]).shaped(k)
}

/// The first factors of the tables of the first phase.
pub open spec fn phase_1_fs(terms: Seq<Term>, mix: Mix, k: nat) -> Seq<Seq<int>> {
    Seq::new(terms.len(), |s: int| phase_1_table(terms[s].f1, terms[s].f3, mix, k))
}

/// The second factors of the tables of the first phase.
pub open spec fn phase_1_gs(terms: Seq<Term>) -> Seq<Seq<int>> {
    Seq::new(terms.len(), |s: int| terms[s].f2)
}

/// The first factors of the tables of the second phase.
pub open spec fn phase_2_fs(terms: Seq<Term>, mix: Mix, u: Seq<int>, k: nat) -> Seq<Seq<int>> {
    Seq::new(terms.len(), |s: int| phase_2_table(terms[s].f1, u, mix, k))
}

/// A table times a number.
pub open spec fn scaled(table: Seq<int>, c: int) -> Seq<int> {
    Seq::new(table.len(), |y: int| table[y] * c)
}

/// The second factors of the tables of the second phase.
pub open spec fn phase_2_gs(terms: Seq<Term>, u: Seq<int>) -> Seq<Seq<int>> {
    Seq::new(terms.len(), |s: int| scaled(terms[s].f3, mle(terms[s].f2, u)))
}

/// The messages of the first phase.
pub open spec fn first_messages<F: Absorb>(
    terms: Seq<Term>,
    mix: Mix,
    k: nat,
    sponge: SpongeState,
) -> Seq<Seq<int>> {
    prover_messages::<F>(phase_1_fs(terms, mix, k), phase_1_gs(terms), sponge, k)
}

/// The messages of the second phase, given the sponge and the challenges of the first.
pub open spec fn second_messages<F: Absorb>(
    terms: Seq<Term>,
    mix: Mix,
    k: nat,
    u: Seq<int>,
    sponge: SpongeState,
) -> Seq<Seq<int>> {
    prover_messages::<F>(phase_2_fs(terms, mix, u, k), phase_2_gs(terms, u), sponge, k)
}

/// All messages of an honest prover.
pub open spec fn honest_messages<F: Absorb>(
    terms: Seq<Term>,
    mix: Mix,
    k: nat,
    sponge: SpongeState,
) -> Seq<Seq<int>> {
    let first = first_messages::<F>(terms, mix, k, sponge);
    let u = challenges::<F>(sponge, first);
    first + second_messages::<F>(terms, mix, k, u, sponge_after::<F>(sponge, first))
}

/// The value that an honest prover claims.
pub open spec fn honest_claim(terms: Seq<Term>, mix: Mix, k: nat, p: int) -> int {
    total(phase_1_fs(terms, mix, k), phase_1_gs(terms)) % p
}

/// The values from which the verifier interpolates before round `i`: the claim before the first
/// round, and the last message after it.
pub open spec fn last_values(claim: int, messages: Seq<Seq<int>>, i: int) -> Seq<int> {
    if i == 0 {
        seq![claim]
    } else {
        messages[i - 1]
    }
}

/// The last challenge before round `i`; before the first round, when a constant is interpolated,
/// an arbitrary value.
pub open spec fn last_challenge<F: Absorb>(
    messages: Seq<Seq<int>>,
    sponge: SpongeState,
    i: int,
) -> int {
    if i == 0 {
        1
    } else {
        challenges::<F>(sponge, messages)[i - 1]
    }
}

/// The value that the verifier expects in round `i`, and from the oracle after the last round: the
/// value at the last challenge of the polynomial that was sent last.
pub open spec fn expected<F: Absorb>(
    claim: int,
    messages: Seq<Seq<int>>,
    sponge: SpongeState,
    i: int,
) -> int {
    interpolate(
        last_values(claim, messages, i),
        last_challenge::<F>(messages, sponge, i),
        F::modulus(),
    )
}

/// The message of round `i` is consistent with what came before: the sum of its values at 0 and 1
/// is the expected one.
pub open spec fn round_ok<F: Absorb>(
    claim: int,
    messages: Seq<Seq<int>>,
    sponge: SpongeState,
    i: int,
) -> bool {
    (messages[i][0] + messages[i][1]) % F::modulus() == expected::<F>(claim, messages, sponge, i)
}

/// The first `n` messages are consistent.
pub open spec fn rounds_ok<F: Absorb>(
    claim: int,
    messages: Seq<Seq<int>>,
    sponge: SpongeState,
    n: int,
) -> bool {
    forall|i: int| 0 <= i < n ==> #[trigger] round_ok::<F>(claim, messages, sponge, i)
}

/// A message that the verifier can read: it has values at 0 and 1 and, if the run goes on after it,
/// no more values than the field has elements.
pub open spec fn readable<F: Absorb>(
    claim: int,
    messages: Seq<Seq<int>>,
    sponge: SpongeState,
    i: int,
) -> bool {
    &&& i < messages.len()
    &&& messages[i].len() >= 2
    &&& round_ok::<F>(claim, messages, sponge, i) ==> messages[i].len() <= F::modulus()
}

/// The verifier, in a run of `n` rounds, finds every message that it comes to look at.
pub open spec fn complete<F: Absorb>(
    claim: int,
    messages: Seq<Seq<int>>,
    sponge: SpongeState,
    n: int,
) -> bool {
    forall|i: int|
        0 <= i < n && rounds_ok::<F>(claim, messages, sponge, i) ==> #[trigger] readable::<F>(
            claim,
            messages,
            sponge,
            i,
        )
}

/// The outcome of a run of `n` rounds that stopped after `passed` consistent messages: it stops at
/// the first message that is not consistent; if there is none, the oracle decides.
pub open spec fn outcome<F: Absorb>(
    claim: int,
    messages: Seq<Seq<int>>,
    sponge: SpongeState,
    n: int,
    oracle_value: int,
    passed: int,
    accepted: bool,
) -> bool {
    &&& 0 <= passed <= n
    &&& passed <= messages.len()
    &&& rounds_ok::<F>(claim, messages, sponge, passed)
    &&& passed < n ==> !round_ok::<F>(claim, messages, sponge, passed) && !accepted
    &&& passed == n ==> accepted == (expected::<F>(claim, messages, sponge, n) == oracle_value)
}

} // verus!
