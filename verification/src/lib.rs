//! Multiset channels over a circuit's cell space, verified.

pub mod argument_laws;
pub mod balance;
pub mod challenge_laws;
pub mod challenger;
pub mod channel;
pub mod circuit;
pub mod collisions;
pub mod determinism;
pub mod extension_laws;
pub mod field;
pub mod fingerprint_challenge;
pub mod inverse;
pub mod multilinear;
pub mod pcs;
pub mod product_gkr;
pub mod prove;
pub mod recombination;
pub mod roots;
pub mod soundness;
pub mod spec_laws;
pub mod sumcheck;
pub mod sums;
pub mod tuple_laws;
pub mod tuples;
pub mod verdict_laws;
pub mod verify;
