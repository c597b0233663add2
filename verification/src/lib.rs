//! Verified core of a compliant privacy stablecoin: field elements, Poseidon
//! commitments, Merkle membership, transfer constraints, a note wallet and
//! threshold EC-ElGamal auditing.
pub mod field;
pub mod curve;
pub mod poseidon;
pub mod note;
pub mod merkle;
pub mod joinsplit;
pub mod wallet;
pub mod lagrange;
pub mod dkg;
pub mod audit;
pub mod audit_error;
pub mod encoding;
pub mod wasm;
pub mod audit_replay;
