//! Secret sharing with commitments to the polynomial's coefficients: the
//! dealer publishes `C_j = a_j * H` beside the encrypted shares.

pub mod dealer;
pub mod party;
pub mod utils;
