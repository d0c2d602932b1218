//! The group: Ristretto points, held as their canonical 32-byte encoding.
//!
//! The group is cyclic of prime order and the basepoint `B` generates it, so
//! every element is `k * B` for exactly one `k` below the order.  A point is
//! modeled by that exponent `k`: adding points adds exponents, and
//! multiplying a point by a scalar multiplies its exponent, all modulo the
//! order.  The arithmetic itself is that of
//! `curve25519_dalek::RistrettoPoint`.

use crate::field::{add_mod, group_order, le_nat, mul_mod, sub_mod};
use crate::scalar::Scalar;
use vstd::prelude::*;

verus! {

/// The canonical encoding of `k * B`: the bytes of
/// `RistrettoPoint::mul_base` of the scalar `k`, compressed.
pub uninterp spec fn basepoint_multiple(k: nat) -> Seq<u8>;

/// Whether the bytes are the canonical encoding of a group element.
pub open spec fn is_element(bytes: Seq<u8>) -> bool {
    exists|k: nat| k < group_order() && bytes == #[trigger] basepoint_multiple(k)
}

/// The exponent of the element that the bytes encode.
pub open spec fn exponent_of(bytes: Seq<u8>) -> nat {
    choose|k: nat| k < group_order() && bytes == #[trigger] basepoint_multiple(k)
}

/// The bytes encode `k * B`, and `k` is the exponent that stands for them:
/// no other exponent below the order gives the same bytes.
pub open spec fn encodes(bytes: Seq<u8>, k: nat) -> bool {
    &&& k < group_order()
    &&& bytes == basepoint_multiple(k)
    &&& exponent_of(bytes) == k
}

/// `RistrettoPoint::mul_base` of curve25519-dalek, then `compress`: the
/// encoding of the scalar's multiple of the basepoint.  Distinct scalars give
/// distinct elements, so the scalar is the exponent of the result.
#[verifier::external_body]
fn dalek_mul_base(s: &[u8; 32]) -> (r: [u8; 32])
    requires
        le_nat(s@) < group_order(),
    ensures
        r@ == basepoint_multiple(le_nat(s@)),
        exponent_of(r@) == le_nat(s@),
{
    let k = curve25519_dalek::Scalar::from_canonical_bytes(*s).unwrap();
    curve25519_dalek::RistrettoPoint::mul_base(&k).compress().to_bytes()
}

/// `RistrettoPoint::identity` of curve25519-dalek, compressed: the neutral
/// element, which is the zeroth multiple of the basepoint.
#[verifier::external_body]
fn dalek_identity() -> (r: [u8; 32])
    ensures
        encodes(r@, 0),
{
    let e = <curve25519_dalek::RistrettoPoint as curve25519_dalek::traits::Identity>::identity();
    e.compress().to_bytes()
}

/// `CompressedRistretto::decompress` of curve25519-dalek, asked only whether
/// it accepts: it does exactly on the canonical encodings of group elements.
#[verifier::external_body]
fn dalek_is_element(bytes: &[u8; 32]) -> (r: bool)
    ensures
        r == is_element(bytes@),
{
    curve25519_dalek::ristretto::CompressedRistretto(*bytes).decompress().is_some()
}

/// `RistrettoPoint + RistrettoPoint` of curve25519-dalek, between encodings:
/// the element whose exponent is the sum of the two exponents modulo the
/// order, by the group law and the order of the basepoint.
#[verifier::external_body]
fn dalek_point_add(a: &[u8; 32], b: &[u8; 32]) -> (r: [u8; 32])
    requires
        is_element(a@),
        is_element(b@),
    ensures
        encodes(r@, add_mod(exponent_of(a@), exponent_of(b@))),
{
    let x = curve25519_dalek::ristretto::CompressedRistretto(*a).decompress().unwrap();
    let y = curve25519_dalek::ristretto::CompressedRistretto(*b).decompress().unwrap();
    (x + y).compress().to_bytes()
}

/// `RistrettoPoint - RistrettoPoint` of curve25519-dalek, between encodings:
/// the element whose exponent is the difference of the two exponents modulo
/// the order.
#[verifier::external_body]
fn dalek_point_sub(a: &[u8; 32], b: &[u8; 32]) -> (r: [u8; 32])
    requires
        is_element(a@),
        is_element(b@),
    ensures
        encodes(r@, sub_mod(exponent_of(a@), exponent_of(b@))),
{
    let x = curve25519_dalek::ristretto::CompressedRistretto(*a).decompress().unwrap();
    let y = curve25519_dalek::ristretto::CompressedRistretto(*b).decompress().unwrap();
    (x - y).compress().to_bytes()
}

/// `RistrettoPoint * Scalar` of curve25519-dalek, between encodings: the
/// element whose exponent is the point's exponent times the scalar modulo
/// the order.
#[verifier::external_body]
fn dalek_point_mul(p: &[u8; 32], s: &[u8; 32]) -> (r: [u8; 32])
    requires
        is_element(p@),
        le_nat(s@) < group_order(),
    ensures
        encodes(r@, mul_mod(exponent_of(p@), le_nat(s@))),
{
    let x = curve25519_dalek::ristretto::CompressedRistretto(*p).decompress().unwrap();
    let k = curve25519_dalek::Scalar::from_canonical_bytes(*s).unwrap();
    (x * k).compress().to_bytes()
}

/// `RistrettoPoint == RistrettoPoint` of curve25519-dalek, between
/// encodings: a constant-time test that the two are one element.
#[verifier::external_body]
fn dalek_point_eq(a: &[u8; 32], b: &[u8; 32]) -> (r: bool)
    requires
        is_element(a@),
        is_element(b@),
    ensures
        r == (exponent_of(a@) == exponent_of(b@)),
{
    let x = curve25519_dalek::ristretto::CompressedRistretto(*a).decompress().unwrap();
    let y = curve25519_dalek::ristretto::CompressedRistretto(*b).decompress().unwrap();
    x == y
}

/// Thirty-two bytes that claim to encode a group element: the wire form of a
/// point, not yet checked.
#[derive(Clone, Copy, Debug)]
pub struct CompressedPoint {
    pub bytes: [u8; 32],
}

impl View for CompressedPoint {
    type V = Seq<u8>;

    open spec fn view(&self) -> Seq<u8> {
        self.bytes@
    }
}

/// An element of the group.
#[derive(Clone, Copy, Debug)]
pub struct Point {
    bytes: [u8; 32],
}

impl View for Point {
    type V = nat;

    /// The exponent `k` below the group order with `self == k * B`.
    closed spec fn view(&self) -> nat {
        exponent_of(self.bytes@)
    }
}

impl CompressedPoint {
    /// The wire form made of the given bytes.
    pub fn from_bytes(bytes: [u8; 32]) -> (r: CompressedPoint)
        ensures
            r@ == bytes@,
    {
        CompressedPoint { bytes }
    }

    /// The bytes.
    pub fn to_bytes(&self) -> (r: [u8; 32])
        ensures
            r@ == self@,
    {
        self.bytes
    }

    /// The element that the bytes encode, if they are the canonical encoding
    /// of one.
    pub fn decompress(&self) -> (r: Option<Point>)
        ensures
            r is Some <==> is_element(self@),
            r is Some ==> r.unwrap().encoding() == self@ && r.unwrap()@ == exponent_of(self@),
    {
        if dalek_is_element(&self.bytes) {
            Some(Point { bytes: self.bytes })
        } else {
            None
        }
    }

    /// Whether two wire forms are the same bytes.
    pub fn eq(&self, other: &CompressedPoint) -> (r: bool)
        ensures
            r == (self@ == other@),
    {
        let mut i: usize = 0;
        let mut same = true;
        while i < 32
            invariant
                i <= 32,
                same <==> (forall|j: int| 0 <= j < i ==> self.bytes@[j] == other.bytes@[j]),
            decreases 32 - i,
        {
            if self.bytes[i] != other.bytes[i] {
                same = false;
            }
            i += 1;
        }
        proof {
            if same {
                assert(self.bytes@ =~= other.bytes@);
            }
        }
        same
    }
}

impl Point {
    /// Every point holds the canonical encoding of a group element.
    #[verifier::type_invariant]
    pub open spec fn valid(&self) -> bool {
        encodes(self.encoding(), self@)
    }

    /// The canonical encoding: 32 bytes.
    pub closed spec fn encoding(&self) -> Seq<u8> {
        self.bytes@
    }

    /// The neutral element.
    pub fn identity() -> (r: Point)
        ensures
            r@ == 0,
    {
        Point { bytes: dalek_identity() }
    }

    /// The scalar's multiple of the basepoint.
    pub fn mul_base(s: &Scalar) -> (r: Point)
        ensures
            r@ == s@,
    {
        proof {
            use_type_invariant(s);
            s.lemma_encoding();
        }
        let bytes = s.to_bytes();
        Point { bytes: dalek_mul_base(&bytes) }
    }

    /// The sum of two points.
    pub fn add(&self, other: &Point) -> (r: Point)
        ensures
            r@ == add_mod(self@, other@),
    {
        proof {
            use_type_invariant(self);
            use_type_invariant(other);
        }
        Point { bytes: dalek_point_add(&self.bytes, &other.bytes) }
    }

    /// The difference of two points.
    pub fn sub(&self, other: &Point) -> (r: Point)
        ensures
            r@ == sub_mod(self@, other@),
    {
        proof {
            use_type_invariant(self);
            use_type_invariant(other);
        }
        Point { bytes: dalek_point_sub(&self.bytes, &other.bytes) }
    }

    /// The point multiplied by a scalar.
    pub fn mul(&self, s: &Scalar) -> (r: Point)
        ensures
            r@ == mul_mod(self@, s@),
    {
        proof {
            use_type_invariant(self);
            use_type_invariant(s);
            s.lemma_encoding();
        }
        let k = s.to_bytes();
        Point { bytes: dalek_point_mul(&self.bytes, &k) }
    }

    /// Whether two points are the same element, decided in constant time.
    pub fn eq(&self, other: &Point) -> (r: bool)
        ensures
            r == (self@ == other@),
    {
        proof {
            use_type_invariant(self);
            use_type_invariant(other);
        }
        dalek_point_eq(&self.bytes, &other.bytes)
    }

    /// The wire form of the point.
    pub fn compress(&self) -> (r: CompressedPoint)
        ensures
            r@ == self.encoding(),
            encodes(r@, self@),
    {
        proof {
            use_type_invariant(self);
        }
        CompressedPoint { bytes: self.bytes }
    }
}

/// The exponents that a sequence of points stands for.
pub open spec fn exponents(points: Seq<Point>) -> Seq<nat> {
    Seq::new(points.len(), |i: int| points[i]@)
}

/// Compressing and then decompressing gives the point back: the encoding
/// of a point is the canonical encoding of a group element, and the element
/// that it encodes has the point's exponent.
pub proof fn lemma_compress_then_decompress(p: Point)
    requires
        p.valid(),
    ensures
        is_element(p.encoding()),
        exponent_of(p.encoding()) == p@,
{
}

/// Decompressing and then compressing gives the bytes back: bytes that
/// encode a group element are the encoding of the element with their
/// exponent, and bytes that encode none are what `decompress` refuses.
pub proof fn lemma_decompress_then_compress(bytes: Seq<u8>)
    ensures
        is_element(bytes) ==> encodes(bytes, exponent_of(bytes)),
        !is_element(bytes) ==> forall|k: nat| k < group_order() ==> bytes != #[trigger] basepoint_multiple(k),
{
}

/// Whether the wire forms encode, one by one, the elements with the given
/// exponents.
pub open spec fn all_encode(wire: Seq<CompressedPoint>, exponents: Seq<nat>) -> bool {
    &&& wire.len() == exponents.len()
    &&& forall|i: int| 0 <= i < wire.len() ==> encodes((#[trigger] wire[i])@, exponents[i])
}

/// The wire forms of a run of points.
pub fn compress_all(points: &Vec<Point>) -> (r: Vec<CompressedPoint>)
    ensures
        all_encode(r@, exponents(points@)),
{
    let mut out: Vec<CompressedPoint> = Vec::new();
    let mut i: usize = 0;
    while i < points.len()
        invariant
            i <= points.len(),
            out@.len() == i,
            forall|k: int| 0 <= k < i ==> encodes((#[trigger] out@[k])@, points@[k]@),
        decreases points.len() - i,
    {
        out.push(points[i].compress());
        i += 1;
    }
    out
}

/// A copy of a run of points.
pub fn copy_points(points: &Vec<Point>) -> (r: Vec<Point>)
    ensures
        r@ == points@,
{
    let mut out: Vec<Point> = Vec::new();
    let mut i: usize = 0;
    while i < points.len()
        invariant
            i <= points.len(),
            out@ == points@.subrange(0, i as int),
        decreases points.len() - i,
    {
        out.push(points[i]);
        proof {
            assert(out@ =~= points@.subrange(0, i + 1));
        }
        i += 1;
    }
    proof {
        assert(out@ =~= points@);
    }
    out
}

} // verus!
