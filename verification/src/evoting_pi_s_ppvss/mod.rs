//! Voting on top of the sharing without commitments: the vote is bound to
//! the dealing by the encrypted share of place zero.

pub mod bulletin_board;
pub mod tallier;
pub mod voter;
