//! Poseidon2 over the Mersenne-31 field and a small arithmetic-circuit builder
//! whose gates are checked against the field semantics.

pub mod field;
pub mod poseidon_hash;
pub mod poseidon2;
pub mod circuit;
pub mod context;
pub mod ops;
pub mod channel;
pub mod air;
pub mod witness;
pub mod finalize;
pub mod bytes;
pub mod attestation;
pub mod merkle_membership;
pub mod balance_commitment;
pub mod eval_component;
