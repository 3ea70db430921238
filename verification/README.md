# gkr_sumcheck

Sumcheck for sums of products `f1(z, x, y) * f2(x) * f3(y)` of multilinear polynomials over a prime
field, with `z` fixed at a mixture of two points: the protocol that the layers of GKR run. The
library is written in Verus. Its executable code is proved against contracts over the integers.

- `src/field.rs`, `src/sponge.rs`, `src/data_structures.rs`: fields, the Poseidon sponge and
  multilinear polynomials, as the protocol needs them. `src/fr.rs` provides all three for the scalar
  field of BLS12-381, with arkworks underneath.
- `src/sums.rs`, `src/multilinear.rs`, `src/interpolation.rs`, `src/indices.rs`, `src/wiring.rs`,
  `src/rounds.rs`, `src/protocol.rs`: the mathematics.
- `src/tables.rs`, `src/folding.rs`, `src/transcript.rs`, `src/oracles.rs`, `src/proving.rs`,
  `src/verifying.rs`, `src/parties.rs`: the prover, the verifier, and runs of one against the other.
- `src/completeness.rs`, `src/laws.rs`: what can be relied on. An honest prover is always accepted,
  its claim is the sum over the hypercube, and a wrong claim is accepted only if a wrong polynomial
  happens to agree with the right one at a challenge.
- `app/`: the protocol on arkworks types, with a report of every run.
