//! Scalars: elements of the field of integers modulo the group order, held as
//! their canonical 32-byte little-endian encoding.  The arithmetic is that of
//! `curve25519_dalek::Scalar`.

use crate::field::{add_mod, group_order, inv_mod, is_inverse, le_nat, mul_mod, neg_mod, sub_mod};
use crate::field::lemma_inverse_unique;
use vstd::prelude::*;

verus! {

/// `Scalar::from(u64)` of curve25519-dalek: the encoding of the integer
/// itself, which is below the group order.
#[verifier::external_body]
fn dalek_scalar_from_u64(x: u64) -> (r: [u8; 32])
    ensures
        le_nat(r@) == x,
{
    curve25519_dalek::Scalar::from(x).to_bytes()
}

/// `Scalar::from_bytes_mod_order` of curve25519-dalek: the canonical encoding
/// of the 256-bit little-endian integer reduced modulo the group order.
#[verifier::external_body]
fn dalek_scalar_reduce(bytes: &[u8; 32]) -> (r: [u8; 32])
    ensures
        le_nat(r@) == le_nat(bytes@) % group_order(),
{
    curve25519_dalek::Scalar::from_bytes_mod_order(*bytes).to_bytes()
}

/// `Scalar::from_bytes_mod_order_wide` of curve25519-dalek: the canonical
/// encoding of the 512-bit little-endian integer reduced modulo the group
/// order.
#[verifier::external_body]
fn dalek_scalar_reduce_wide(bytes: &[u8; 64]) -> (r: [u8; 32])
    ensures
        le_nat(r@) == le_nat(bytes@) % group_order(),
{
    curve25519_dalek::Scalar::from_bytes_mod_order_wide(bytes).to_bytes()
}

/// `Scalar::from_canonical_bytes` of curve25519-dalek, asked only whether it
/// accepts: it does exactly when the integer is below the group order.
#[verifier::external_body]
fn dalek_scalar_is_canonical(bytes: &[u8; 32]) -> (r: bool)
    ensures
        r == (le_nat(bytes@) < group_order()),
{
    bool::from(curve25519_dalek::Scalar::from_canonical_bytes(*bytes).is_some())
}

/// `Scalar + Scalar` of curve25519-dalek, on canonical encodings: the
/// encoding of the sum modulo the group order.
#[verifier::external_body]
fn dalek_scalar_add(a: &[u8; 32], b: &[u8; 32]) -> (r: [u8; 32])
    requires
        le_nat(a@) < group_order(),
        le_nat(b@) < group_order(),
    ensures
        le_nat(r@) == add_mod(le_nat(a@), le_nat(b@)),
{
    let x = curve25519_dalek::Scalar::from_canonical_bytes(*a).unwrap();
    let y = curve25519_dalek::Scalar::from_canonical_bytes(*b).unwrap();
    (x + y).to_bytes()
}

/// `Scalar - Scalar` of curve25519-dalek, on canonical encodings: the
/// encoding of the difference modulo the group order.
#[verifier::external_body]
fn dalek_scalar_sub(a: &[u8; 32], b: &[u8; 32]) -> (r: [u8; 32])
    requires
        le_nat(a@) < group_order(),
        le_nat(b@) < group_order(),
    ensures
        le_nat(r@) == sub_mod(le_nat(a@), le_nat(b@)),
{
    let x = curve25519_dalek::Scalar::from_canonical_bytes(*a).unwrap();
    let y = curve25519_dalek::Scalar::from_canonical_bytes(*b).unwrap();
    (x - y).to_bytes()
}

/// `Scalar * Scalar` of curve25519-dalek, on canonical encodings: the
/// encoding of the product modulo the group order.
#[verifier::external_body]
fn dalek_scalar_mul(a: &[u8; 32], b: &[u8; 32]) -> (r: [u8; 32])
    requires
        le_nat(a@) < group_order(),
        le_nat(b@) < group_order(),
    ensures
        le_nat(r@) == mul_mod(le_nat(a@), le_nat(b@)),
{
    let x = curve25519_dalek::Scalar::from_canonical_bytes(*a).unwrap();
    let y = curve25519_dalek::Scalar::from_canonical_bytes(*b).unwrap();
    (x * y).to_bytes()
}

/// `-Scalar` of curve25519-dalek, on a canonical encoding: the encoding of
/// the additive inverse modulo the group order.
#[verifier::external_body]
fn dalek_scalar_neg(a: &[u8; 32]) -> (r: [u8; 32])
    requires
        le_nat(a@) < group_order(),
    ensures
        le_nat(r@) == neg_mod(le_nat(a@)),
{
    (-curve25519_dalek::Scalar::from_canonical_bytes(*a).unwrap()).to_bytes()
}

/// `Scalar::invert` of curve25519-dalek, on a canonical encoding: a reduced
/// scalar whose product with a nonzero argument is one.  The crate raises its
/// argument to the power of the group order less two, so zero comes back as
/// zero.
#[verifier::external_body]
fn dalek_scalar_invert(a: &[u8; 32]) -> (r: [u8; 32])
    requires
        le_nat(a@) < group_order(),
    ensures
        le_nat(r@) < group_order(),
        le_nat(a@) != 0 ==> mul_mod(le_nat(a@), le_nat(r@)) == 1,
        le_nat(a@) == 0 ==> le_nat(r@) == 0,
{
    curve25519_dalek::Scalar::from_canonical_bytes(*a).unwrap().invert().to_bytes()
}

/// `Scalar == Scalar` of curve25519-dalek, on canonical encodings: a
/// constant-time comparison of the two integers.
#[verifier::external_body]
fn dalek_scalar_eq(a: &[u8; 32], b: &[u8; 32]) -> (r: bool)
    requires
        le_nat(a@) < group_order(),
        le_nat(b@) < group_order(),
    ensures
        r == (le_nat(a@) == le_nat(b@)),
{
    let x = curve25519_dalek::Scalar::from_canonical_bytes(*a).unwrap();
    let y = curve25519_dalek::Scalar::from_canonical_bytes(*b).unwrap();
    x == y
}

/// `Zeroize::zeroize` of the zeroize crate on the scalar's 32 bytes: every
/// byte is overwritten with zero, so that the scalar is zero afterwards.
#[verifier::external_body]
fn wipe(scalar: &mut Scalar)
    ensures
        final(scalar)@ == 0,
{
    zeroize::Zeroize::zeroize(&mut scalar.bytes)
}

/// An element of the scalar field.
#[derive(Clone, Copy, Debug)]
pub struct Scalar {
    bytes: [u8; 32],
}

impl View for Scalar {
    type V = nat;

    /// The integer below the group order that the scalar stands for.
    closed spec fn view(&self) -> nat {
        le_nat(self.bytes@)
    }
}

impl Scalar {
    /// Every scalar is reduced modulo the group order.
    #[verifier::type_invariant]
    pub open spec fn reduced(&self) -> bool {
        self@ < group_order()
    }

    /// The canonical encoding: 32 bytes, least significant first.
    pub closed spec fn encoding(&self) -> Seq<u8> {
        self.bytes@
    }

    /// The encoding spells the scalar's integer.
    pub proof fn lemma_encoding(&self)
        ensures
            self.encoding().len() == 32,
            le_nat(self.encoding()) == self@,
    {
    }

    /// Zero.
    pub fn zero() -> (r: Scalar)
        ensures
            r@ == 0,
    {
        Scalar { bytes: dalek_scalar_from_u64(0) }
    }

    /// One.
    pub fn one() -> (r: Scalar)
        ensures
            r@ == 1,
    {
        Scalar { bytes: dalek_scalar_from_u64(1) }
    }

    /// The scalar of a small integer.
    pub fn from_u64(x: u64) -> (r: Scalar)
        ensures
            r@ == x,
    {
        Scalar { bytes: dalek_scalar_from_u64(x) }
    }

    /// The scalar of a 256-bit little-endian integer, reduced.
    pub fn from_bytes_mod_order(bytes: &[u8; 32]) -> (r: Scalar)
        ensures
            r@ == le_nat(bytes@) % group_order(),
    {
        Scalar { bytes: dalek_scalar_reduce(bytes) }
    }

    /// The scalar of a 512-bit little-endian integer, reduced.
    pub fn from_bytes_mod_order_wide(bytes: &[u8; 64]) -> (r: Scalar)
        ensures
            r@ == le_nat(bytes@) % group_order(),
    {
        Scalar { bytes: dalek_scalar_reduce_wide(bytes) }
    }

    /// The scalar that 32 bytes encode, if they are a canonical encoding.
    pub fn from_canonical_bytes(bytes: &[u8; 32]) -> (r: Option<Scalar>)
        ensures
            r is Some <==> le_nat(bytes@) < group_order(),
            r is Some ==> r.unwrap()@ == le_nat(bytes@) && r.unwrap().encoding() == bytes@,
    {
        if dalek_scalar_is_canonical(bytes) {
            Some(Scalar { bytes: *bytes })
        } else {
            None
        }
    }

    /// The canonical encoding.
    pub fn to_bytes(&self) -> (r: [u8; 32])
        ensures
            r@ == self.encoding(),
            le_nat(r@) == self@,
    {
        self.bytes
    }

    /// The sum of two scalars.
    pub fn add(&self, other: &Scalar) -> (r: Scalar)
        ensures
            r@ == add_mod(self@, other@),
    {
        proof {
            use_type_invariant(self);
            use_type_invariant(other);
        }
        Scalar { bytes: dalek_scalar_add(&self.bytes, &other.bytes) }
    }

    /// The difference of two scalars.
    pub fn sub(&self, other: &Scalar) -> (r: Scalar)
        ensures
            r@ == sub_mod(self@, other@),
    {
        proof {
            use_type_invariant(self);
            use_type_invariant(other);
        }
        Scalar { bytes: dalek_scalar_sub(&self.bytes, &other.bytes) }
    }

    /// The product of two scalars.
    pub fn mul(&self, other: &Scalar) -> (r: Scalar)
        ensures
            r@ == mul_mod(self@, other@),
    {
        proof {
            use_type_invariant(self);
            use_type_invariant(other);
        }
        Scalar { bytes: dalek_scalar_mul(&self.bytes, &other.bytes) }
    }

    /// The additive inverse.
    pub fn neg(&self) -> (r: Scalar)
        ensures
            r@ == neg_mod(self@),
    {
        proof {
            use_type_invariant(self);
        }
        Scalar { bytes: dalek_scalar_neg(&self.bytes) }
    }

    /// The multiplicative inverse; zero is sent to zero.
    pub fn invert(&self) -> (r: Scalar)
        ensures
            r@ == inv_mod(self@),
            self@ != 0 ==> is_inverse(self@, r@),
    {
        proof {
            use_type_invariant(self);
        }
        let r = Scalar { bytes: dalek_scalar_invert(&self.bytes) };
        proof {
            if self@ != 0 {
                assert(is_inverse(self@, r@));
                lemma_inverse_unique(self@, r@, inv_mod(self@));
            }
        }
        r
    }

    /// Whether two scalars are the same element, decided in constant time.
    pub fn eq(&self, other: &Scalar) -> (r: bool)
        ensures
            r == (self@ == other@),
    {
        proof {
            use_type_invariant(self);
            use_type_invariant(other);
        }
        dalek_scalar_eq(&self.bytes, &other.bytes)
    }

    /// Overwrites the scalar with zero, so that a secret does not stay in
    /// memory.
    pub fn zeroize(&mut self)
        ensures
            final(self)@ == 0,
    {
        wipe(self)
    }

    /// Whether the scalar is zero.
    pub fn is_zero(&self) -> (r: bool)
        ensures
            r == (self@ == 0),
    {
        let z = Scalar::zero();
        self.eq(&z)
    }
}

/// The integers that a sequence of scalars stands for.
pub open spec fn values(scalars: Seq<Scalar>) -> Seq<nat> {
    Seq::new(scalars.len(), |i: int| scalars[i]@)
}

/// Overwrites every scalar of the run with zero.
pub fn zeroize_all(scalars: &mut Vec<Scalar>)
    ensures
        final(scalars)@.len() == old(scalars)@.len(),
        forall|k: int| 0 <= k < final(scalars)@.len() ==> (#[trigger] final(scalars)@[k])@ == 0,
{
    let mut j: usize = 0;
    while j < scalars.len()
        invariant
            j <= scalars.len(),
            scalars@.len() == old(scalars)@.len(),
            forall|k: int| 0 <= k < j ==> (#[trigger] scalars@[k])@ == 0,
        decreases scalars.len() - j,
    {
        scalars[j].zeroize();
        j += 1;
    }
}

/// A copy of a run of scalars.
pub fn copy_scalars(scalars: &Vec<Scalar>) -> (r: Vec<Scalar>)
    ensures
        r@ == scalars@,
{
    let mut out: Vec<Scalar> = Vec::new();
    let mut i: usize = 0;
    while i < scalars.len()
        invariant
            i <= scalars.len(),
            out@ == scalars@.subrange(0, i as int),
        decreases scalars.len() - i,
    {
        out.push(scalars[i]);
        proof {
            assert(out@ =~= scalars@.subrange(0, i + 1));
        }
        i += 1;
    }
    proof {
        assert(out@ =~= scalars@);
    }
    out
}

} // verus!
