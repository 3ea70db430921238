//! Sumcheck for sums of products of multilinear polynomials, as used in the GKR protocol.

pub mod completeness;
pub mod data_structures;
pub mod field;
pub mod folding;
pub mod fr;
pub mod indices;
pub mod interpolation;
pub mod laws;
pub mod meaning;
pub mod multilinear;
pub mod oracles;
pub mod parties;
pub mod protocol;
pub mod proving;
pub mod representation;
pub mod rounds;
pub mod sponge;
pub mod sums;
pub mod tables;
pub mod transcript;
pub mod verifying;
pub mod wiring;
