//! Publicly verifiable e-voting on threshold secret sharing over the
//! Ristretto group, in two variants of the share-correctness proof.

pub mod dleq;
pub mod error;
pub mod evoting_pi_s_ppvss;
pub mod evoting_schoenmakers;
pub mod field;
pub mod lagrange;
pub mod outcome;
pub mod parallel;
pub mod pi_s_ppvss;
pub mod point;
pub mod polynomial;
pub mod random;
pub mod scalar;
pub mod schoenmakers;
pub mod tally;
pub mod transcript;
pub mod utils;
pub mod vote_proof;
