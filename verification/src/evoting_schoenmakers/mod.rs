//! Voting on top of the sharing with commitments: a ballot is a dealing of
//! a blinding secret, the vote encrypted under it, and a proof that the
//! vote is zero or one.

pub mod bulletin_board;
pub mod tallier;
pub mod voter;
