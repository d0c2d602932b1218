//! Secret sharing without commitments: the dealer's proof is one scalar and
//! one polynomial, and the share vector has a slot of its own, at place
//! zero, for the point that binds the vote to the dealing.

pub mod dealer;
pub mod party;
pub mod utils;
