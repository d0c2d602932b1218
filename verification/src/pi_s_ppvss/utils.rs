//! The public check of a dealer's encrypted shares against the proof
//! polynomial.

use crate::error::{Error, ErrorKind};
use crate::field::{mul_mod, sub_mod};
use crate::parallel::par_map;
use crate::point::{exponents, Point};
use crate::polynomial::{eval_multiply, poly_eval, Polynomial};
use crate::scalar::Scalar;
use crate::transcript::{challenge_of, encode_points, Transcript};
use vstd::prelude::*;

verus! {

/// The constant that every transcript of this variant absorbs before its
/// fields.
pub const DOMAIN: [u8; 9] = [112, 118, 115, 115, 47, 112, 105, 95, 115];

/// The commitments that the check rebuilds: for the key at place `i`, from
/// zero, the point `z(i) * pk_i - d * Y_i`.
pub open spec fn rebuilt_commitments(pks: Seq<nat>, ys: Seq<nat>, z: Seq<nat>, d: nat) -> Seq<nat> {
    Seq::new(pks.len(), |i: int| sub_mod(mul_mod(pks[i], poly_eval(z, i as nat)), mul_mod(ys[i], d)))
}

/// What a share-correctness proof hashes: what the transcript held before,
/// the variant's constant, then the encodings of all encrypted shares and
/// of all commitments.
pub open spec fn share_transcript(prefix: Seq<u8>, ys: Seq<nat>, a: Seq<nat>) -> Seq<u8> {
    prefix + DOMAIN@ + encode_points(ys) + encode_points(a)
}

/// Whether the proof `(d, z)` is accepted for the encrypted shares `ys`
/// under the keys `pks`, the first of which is the key of place zero: the
/// challenge recomputed from the rebuilt commitments is `d`.
pub open spec fn shares_accepted(prefix: Seq<u8>, ys: Seq<nat>, pks: Seq<nat>, d: nat, z: Seq<nat>) -> bool {
    d == challenge_of(share_transcript(prefix, ys, rebuilt_commitments(pks, ys, z, d)))
}

/// The commitment for the key at place `i`.
fn rebuild_commitment(blinded: &Point, share: &Point, d: &Scalar) -> (r: Point)
    ensures
        r@ == sub_mod(blinded@, mul_mod(share@, d@)),
{
    blinded.sub(&share.mul(d))
}

/// Checks the proof `(d, z)` that the encrypted shares lie on one
/// polynomial.  The keys are those of the places from zero on, as many as
/// there are shares; a different count is refused with `CountMismatch`.
/// The commitments are rebuilt in parallel.  The transcript is left clear.
pub fn verify_encrypted_shares_standalone(
    encrypted_shares: &Vec<Point>,
    public_keys: &Vec<Point>,
    proof: (&Scalar, &Polynomial),
    transcript: &mut Transcript,
) -> (r: Result<bool, Error>)
    ensures
        match r {
            Ok(accepted) => {
                &&& public_keys@.len() == encrypted_shares@.len()
                &&& accepted == shares_accepted(
                    old(transcript)@,
                    exponents(encrypted_shares@),
                    exponents(public_keys@),
                    proof.0@,
                    proof.1@,
                )
                &&& final(transcript).is_clear()
            },
            Err(e) => {
                &&& public_keys@.len() != encrypted_shares@.len()
                &&& e.kind == ErrorKind::CountMismatch(
                    public_keys@.len() as usize,
                    "public_keys",
                    encrypted_shares@.len() as usize,
                    "encrypted_shares",
                )
                &&& *final(transcript) == *old(transcript)
            },
        },
{
    let (d, z) = proof;
    if public_keys.len() != encrypted_shares.len() {
        return Err(
            Error::from_kind(
                ErrorKind::CountMismatch(
                    public_keys.len(),
                    "public_keys",
                    encrypted_shares.len(),
                    "encrypted_shares",
                ),
            ),
        );
    }
    let n = public_keys.len();
    let (_, blinded) = z.evaluate_multiply(public_keys, 0);
    proof {
        assert(blinded@.len() == exponents(blinded@).len());
    }
    let task = |i: usize| -> (r: Point)
        requires
            i < n,
        ensures
            r@ == sub_mod(blinded@[i as int]@, mul_mod(encrypted_shares@[i as int]@, d@)),
        { rebuild_commitment(&blinded[i], &encrypted_shares[i], d) };
    let commitments = par_map(n, task);
    proof {
        assert forall|k: int| 0 <= k < n implies (#[trigger] commitments@[k])@ == rebuilt_commitments(
            exponents(public_keys@),
            exponents(encrypted_shares@),
            z@,
            d@,
        )[k] by {
            let at = k as usize;
            assert(call_ensures(task, (at,), commitments@[at as int]));
            assert(exponents(blinded@)[k] == eval_multiply(z@, exponents(public_keys@), 0)[k]);
        }
        assert(exponents(commitments@) =~= rebuilt_commitments(
            exponents(public_keys@),
            exponents(encrypted_shares@),
            z@,
            d@,
        ));
    }
    transcript.absorb_bytes(DOMAIN.as_slice());
    transcript.absorb_points(encrypted_shares);
    transcript.absorb_points(&commitments);
    let challenge = transcript.challenge();
    Ok(d.eq(&challenge))
}

} // verus!
