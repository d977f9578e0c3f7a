# circuits

Poseidon2 over the Mersenne-31 field, a small arithmetic-circuit builder, and
the Poseidon gate component of a STARK AIR, with their contracts proved by
Verus.

- `src/field.rs`: `M31`, `CM31`, `QM31` and their arithmetic.
- `src/poseidon_hash.rs`: the Poseidon2 permutation as a specification over
  any field operations, its constants, and the round matrices.
- `src/poseidon2.rs`: Poseidon2 on field values and as gates of a circuit.
- `src/circuit.rs`, `src/context.rs`, `src/ops.rs`: circuits, the context that
  builds one with the values of its variables, and the basic gates.
- `src/finalize.rs`: hashing the constants, padding the components, and
  zero-knowledge blinding.
- `src/witness.rs`, `src/air.rs`: the trace rows of the Poseidon gate
  component, its constraints, and the proof that a row satisfies them exactly
  when it is the row of its inputs.
- `src/channel.rs`: the Blake2s channel into which claims are mixed.
- `src/attestation.rs`, `src/merkle_membership.rs`,
  `src/balance_commitment.rs`, `src/bytes.rs`: circuits built on the above.
- `app/`: conversions to and from `stwo`'s types.
