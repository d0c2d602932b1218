//! Randomness: scalars and points drawn from a ChaCha20 generator.

use crate::field::{group_order, le_nat};
use crate::point::Point;
use crate::scalar::Scalar;
use crate::transcript::zeroize_buffer;
use rand_chacha::rand_core::RngCore;
use rand_chacha::ChaCha20Rng;
use vstd::prelude::*;

verus! {

/// `ChaCha20Rng` of rand_chacha: the state of a generator, of which nothing
/// is read here.
#[verifier::external_type_specification]
#[verifier::external_body]
pub struct ExChaCha20Rng(ChaCha20Rng);

/// `RngCore::fill_bytes` on a `ChaCha20Rng`: the next 64 bytes of the
/// generator's stream.  Nothing is claimed of them.
#[verifier::external_body]
fn next_wide(rng: &mut ChaCha20Rng) -> (r: [u8; 64]) {
    let mut out = [0u8; 64];
    rng.fill_bytes(&mut out);
    out
}

/// The scalar that 64 drawn bytes give: their little-endian integer reduced
/// modulo the group order.
pub open spec fn wide_reduction(wide: Seq<u8>) -> nat {
    le_nat(wide) % group_order()
}

/// Whether the integer is what some 64 bytes give by wide reduction: what
/// holds of every scalar that is drawn, whatever the generator hands out.
pub open spec fn is_drawn(value: nat) -> bool {
    exists|wide: Seq<u8>| wide.len() == 64 && value == #[trigger] wide_reduction(wide)
}

/// A scalar drawn from the generator: 64 fresh bytes, reduced modulo the
/// group order.  The bytes are zeroized afterwards.
pub fn random_scalar(rng: &mut ChaCha20Rng) -> (r: Scalar)
    ensures
        is_drawn(r@),
{
    let mut wide = next_wide(rng);
    let r = Scalar::from_bytes_mod_order_wide(&wide);
    proof {
        assert(wide@.len() == 64);
        assert(r@ == wide_reduction(wide@));
    }
    zeroize_buffer(&mut wide);
    r
}

/// A point drawn from the generator: the basepoint multiplied by a scalar
/// that is drawn from it, so that the point's exponent is that scalar.
pub fn random_point(rng: &mut ChaCha20Rng) -> (r: Point)
    ensures
        is_drawn(r@),
{
    let s = random_scalar(rng);
    Point::mul_base(&s)
}

} // verus!
