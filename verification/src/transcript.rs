//! Fiat-Shamir transcripts: the bytes that a proof absorbs, and the challenge
//! that comes out of them through the BLAKE3 extendable-output function and a
//! wide reduction modulo the group order.

use crate::field::{group_order, le_nat};
use crate::point::{basepoint_multiple, exponents, CompressedPoint, Point};
use crate::scalar::Scalar;
use vstd::prelude::*;

verus! {

/// The first 64 bytes of the BLAKE3 extendable output on the given input:
/// what `Hasher::new`, `update`, `finalize_xof` and `fill` of the blake3 crate
/// give between them.
pub uninterp spec fn blake3_xof64(input: Seq<u8>) -> Seq<u8>;

/// The challenge that a transcript yields: its 64 output bytes read as a
/// little-endian integer and reduced modulo the group order.
pub open spec fn challenge_of(input: Seq<u8>) -> nat {
    le_nat(blake3_xof64(input)) % group_order()
}

/// The encodings of the points with the given exponents, one after the other.
pub open spec fn encode_points(exponents: Seq<nat>) -> Seq<u8>
    decreases exponents.len(),
{
    if exponents.len() == 0 {
        Seq::empty()
    } else {
        encode_points(exponents.drop_last()) + basepoint_multiple(exponents.last())
    }
}

/// `blake3::Hasher` on one input, from `new` to `finalize_xof` and `fill`: 64
/// bytes of extendable output, a function of the input alone.
#[verifier::external_body]
fn blake3_fill64(input: &Vec<u8>) -> (r: [u8; 64])
    ensures
        r@ == blake3_xof64(input@),
{
    let mut out = [0u8; 64];
    blake3::Hasher::new().update(input.as_slice()).finalize_xof().fill(&mut out);
    out
}

/// `Zeroize::zeroize` of the zeroize crate on a byte array: every byte is
/// overwritten with zero.
#[verifier::external_body]
pub(crate) fn zeroize_buffer(buf: &mut [u8; 64])
    ensures
        forall|i: int| 0 <= i < 64 ==> final(buf)@[i] == 0,
{
    zeroize::Zeroize::zeroize(buf)
}

/// `Zeroize::zeroize` of the zeroize crate on a byte vector: the bytes are
/// overwritten with zero and the vector is cleared.
#[verifier::external_body]
fn zeroize_bytes(bytes: &mut Vec<u8>)
    ensures
        final(bytes)@.len() == 0,
{
    zeroize::Zeroize::zeroize(bytes)
}

/// A transcript in the making: the bytes absorbed since the last challenge,
/// and the buffer that receives the hash output.
#[derive(Debug)]
pub struct Transcript {
    absorbed: Vec<u8>,
    buffer: [u8; 64],
}

impl View for Transcript {
    type V = Seq<u8>;

    /// The bytes absorbed so far.
    closed spec fn view(&self) -> Seq<u8> {
        self.absorbed@
    }
}

impl Transcript {
    /// The 64 bytes of the output buffer.
    pub closed spec fn output(&self) -> Seq<u8> {
        self.buffer@
    }

    /// Nothing is absorbed and the output buffer holds only zeros.
    pub open spec fn is_clear(&self) -> bool {
        &&& self@.len() == 0
        &&& self.output().len() == 64
        &&& forall|i: int| 0 <= i < 64 ==> self.output()[i] == 0
    }

    /// A clear transcript has absorbed nothing.
    pub proof fn lemma_clear_is_empty(&self)
        requires
            self.is_clear(),
        ensures
            self@ == Seq::<u8>::empty(),
    {
        assert(self.absorbed@ =~= Seq::<u8>::empty());
    }

    /// A fresh, clear transcript.
    pub fn new() -> (r: Transcript)
        ensures
            r.is_clear(),
            r@ == Seq::<u8>::empty(),
    {
        let r = Transcript { absorbed: Vec::new(), buffer: [0u8; 64] };
        assert(r.absorbed@ =~= Seq::<u8>::empty());
        r
    }

    /// Whether nothing is absorbed and the output buffer holds only zeros.
    pub fn cleared(&self) -> (r: bool)
        ensures
            r == self.is_clear(),
    {
        if self.absorbed.len() != 0 {
            return false;
        }
        let mut i: usize = 0;
        while i < 64
            invariant
                i <= 64,
                forall|k: int| 0 <= k < i ==> self.buffer@[k] == 0,
            decreases 64 - i,
        {
            if self.buffer[i] != 0 {
                return false;
            }
            i += 1;
        }
        true
    }

    /// Absorbs a run of bytes.
    pub fn absorb_bytes(&mut self, bytes: &[u8])
        ensures
            final(self)@ == old(self)@ + bytes@,
            final(self).output() == old(self).output(),
    {
        let mut i: usize = 0;
        while i < bytes.len()
            invariant
                i <= bytes.len(),
                self.absorbed@ == old(self).absorbed@ + bytes@.subrange(0, i as int),
                self.buffer == old(self).buffer,
            decreases bytes.len() - i,
        {
            self.absorbed.push(bytes[i]);
            proof {
                assert(bytes@.subrange(0, i + 1) =~= bytes@.subrange(0, i as int).push(bytes@[i as int]));
                assert(self.absorbed@ =~= old(self).absorbed@ + bytes@.subrange(0, i + 1));
            }
            i += 1;
        }
        proof {
            assert(bytes@.subrange(0, bytes@.len() as int) =~= bytes@);
        }
    }

    /// Absorbs the wire form of a point.
    pub fn absorb_compressed(&mut self, point: &CompressedPoint)
        ensures
            final(self)@ == old(self)@ + point@,
            final(self).output() == old(self).output(),
    {
        let bytes = point.to_bytes();
        self.absorb_bytes(bytes.as_slice());
    }

    /// Absorbs the encoding of a point.
    pub fn absorb_point(&mut self, point: &Point)
        ensures
            final(self)@ == old(self)@ + basepoint_multiple(point@),
            final(self).output() == old(self).output(),
    {
        let c = point.compress();
        self.absorb_compressed(&c);
    }

    /// Absorbs the encodings of a run of points, in order.
    pub fn absorb_points(&mut self, points: &Vec<Point>)
        ensures
            final(self)@ == old(self)@ + encode_points(exponents(points@)),
            final(self).output() == old(self).output(),
    {
        let ghost all = exponents(points@);
        let mut i: usize = 0;
        proof {
            assert(all.subrange(0, 0) =~= Seq::<nat>::empty());
            assert(self@ =~= old(self)@ + encode_points(all.subrange(0, 0)));
        }
        while i < points.len()
            invariant
                i <= points.len(),
                all == exponents(points@),
                self@ == old(self)@ + encode_points(all.subrange(0, i as int)),
                self.output() == old(self).output(),
            decreases points.len() - i,
        {
            let ghost before = self@;
            self.absorb_point(&points[i]);
            proof {
                let next = all.subrange(0, i + 1);
                assert(next.drop_last() =~= all.subrange(0, i as int));
                assert(next.last() == points@[i as int]@);
                assert(self@ =~= old(self)@ + encode_points(next));
            }
            i += 1;
        }
        proof {
            assert(all.subrange(0, points.len() as int) =~= all);
        }
    }

    /// The challenge of what was absorbed.  The transcript is left clear: the
    /// absorbed bytes and the output buffer are zeroized.
    pub fn challenge(&mut self) -> (r: Scalar)
        ensures
            r@ == challenge_of(old(self)@),
            final(self).is_clear(),
    {
        self.buffer = blake3_fill64(&self.absorbed);
        let r = Scalar::from_bytes_mod_order_wide(&self.buffer);
        zeroize_buffer(&mut self.buffer);
        zeroize_bytes(&mut self.absorbed);
        r
    }
}

} // verus!
