//! The proof that a party decrypted its share correctly: the decrypted
//! share relates to the encrypted share as the generator to the party's
//! public key.

use crate::field::{add_mod, cong, group_order, inv_mod, is_inverse, mul_mod, sub_mod};
use crate::field::{lemma_cong_add, lemma_cong_mul, lemma_cong_reduced, lemma_cong_sub, lemma_field_ops};
use crate::point::{basepoint_multiple, Point};
use crate::scalar::Scalar;
use crate::transcript::{challenge_of, Transcript};
use vstd::prelude::*;

verus! {

/// What a proof of decryption hashes: what the transcript held before, the
/// variant's constant, then the public key, the encrypted share and the two
/// commitments.
pub open spec fn dleq_transcript(domain: Seq<u8>, prefix: Seq<u8>, pk: nat, y: nat, a: nat, b: nat) -> Seq<u8> {
    prefix + domain + basepoint_multiple(pk) + basepoint_multiple(y) + basepoint_multiple(a)
        + basepoint_multiple(b)
}

/// The proof of decryption made with the randomizer `r`: the challenge `d`
/// over the commitments `r * G` and `r * S`, and `z = r + d * sk`.
pub open spec fn dleq_proof(
    domain: Seq<u8>,
    prefix: Seq<u8>,
    g: nat,
    sk: nat,
    pk: nat,
    y: nat,
    s: nat,
    r: nat,
) -> (nat, nat) {
    let d = challenge_of(dleq_transcript(domain, prefix, pk, y, mul_mod(g, r), mul_mod(s, r)));
    (d, add_mod(r, mul_mod(d, sk)))
}

/// Whether the proof `(d, z)` is accepted for the decrypted share `s` of
/// the encrypted share `y` under the public key `pk`: the challenge
/// recomputed over `z * G - d * pk` and `z * S - d * Y`, on a fresh
/// transcript, is `d`.
pub open spec fn dleq_accepted(domain: Seq<u8>, g: nat, pk: nat, y: nat, s: nat, d: nat, z: nat) -> bool {
    d == challenge_of(
        dleq_transcript(
            domain,
            Seq::empty(),
            pk,
            y,
            sub_mod(mul_mod(g, z), mul_mod(pk, d)),
            sub_mod(mul_mod(s, z), mul_mod(y, d)),
        ),
    )
}

/// The verifier's combination `z * B - d * P` gives back the commitment
/// `r * B` whenever `z = r + d * k` and `P` is `k * B`.
proof fn lemma_opening(b: nat, p: nat, r: nat, d: nat, k: nat)
    requires
        cong(p as int, (b * k) as int),
    ensures
        sub_mod(mul_mod(b, add_mod(r, mul_mod(d, k))), mul_mod(p, d)) == mul_mod(b, r),
{
    let dk = mul_mod(d, k);
    let z = add_mod(r, dk);
    let bz = mul_mod(b, z);
    let pd = mul_mod(p, d);
    lemma_field_ops(d, k);
    lemma_field_ops(r, dk);
    lemma_field_ops(b, z);
    lemma_field_ops(p, d);
    lemma_field_ops(bz, pd);
    lemma_field_ops(b, r);
    let (bi, ri, di, ki) = (b as int, r as int, d as int, k as int);
    lemma_cong_add(ri, ri, dk as int, di * ki);
    lemma_cong_mul(bi, bi, z as int, ri + di * ki);
    lemma_cong_mul(p as int, bi * ki, di, di);
    lemma_cong_sub(bz as int, bi * (ri + di * ki), pd as int, (bi * ki) * di);
    assert(bi * (ri + di * ki) - (bi * ki) * di == bi * ri) by (nonlinear_arith);
    lemma_cong_reduced(sub_mod(bz, pd) as int, mul_mod(b, r) as int);
}

/// An honest proof of decryption is accepted: for a private key `sk` that
/// has an inverse, the public key `sk * G` and the decrypted share
/// `y / sk`, the proof made on a transcript that held nothing passes the
/// check, whatever the randomizer.
pub proof fn lemma_honest_decryption_accepted(domain: Seq<u8>, g: nat, sk: nat, y: nat, r: nat)
    requires
        is_inverse(sk, inv_mod(sk)),
        y < group_order(),
    ensures
        ({
            let pk = mul_mod(g, sk);
            let s = mul_mod(y, inv_mod(sk));
            let made = dleq_proof(domain, Seq::empty(), g, sk, pk, y, s, r);
            dleq_accepted(domain, g, pk, y, s, made.0, made.1)
        }),
{
    let pk = mul_mod(g, sk);
    let inv = inv_mod(sk);
    let s = mul_mod(y, inv);
    let made = dleq_proof(domain, Seq::empty(), g, sk, pk, y, s, r);
    lemma_field_ops(g, sk);
    lemma_opening(g, pk, r, made.0, sk);
    // s * sk is y, since the inverse times sk is one
    lemma_field_ops(y, inv);
    lemma_field_ops(sk, inv);
    let (yi, ii, ki) = (y as int, inv as int, sk as int);
    lemma_cong_mul(s as int, yi * ii, ki, ki);
    assert((yi * ii) * ki == yi * (ki * ii)) by (nonlinear_arith);
    lemma_cong_mul(yi, yi, ki * ii, 1);
    assert(yi * 1 == yi) by (nonlinear_arith);
    assert(cong(y as int, (s * sk) as int));
    lemma_opening(s, y, r, made.0, sk);
}

/// Decryption undoes encryption: a share `e * pk` that was encrypted under
/// the public key `pk = sk * G` decrypts, with the inverse of `sk`, to the
/// share `e * G`.
pub proof fn lemma_decryption_undoes_encryption(g: nat, sk: nat, e: nat)
    requires
        is_inverse(sk, inv_mod(sk)),
    ensures
        mul_mod(mul_mod(mul_mod(g, sk), e), inv_mod(sk)) == mul_mod(g, e),
{
    let pk = mul_mod(g, sk);
    let y = mul_mod(pk, e);
    let inv = inv_mod(sk);
    let (gi, ki, ei, ii) = (g as int, sk as int, e as int, inv as int);
    lemma_field_ops(g, sk);
    lemma_field_ops(pk, e);
    lemma_field_ops(y, inv);
    lemma_field_ops(sk, inv);
    lemma_field_ops(g, e);
    lemma_cong_mul(pk as int, gi * ki, ei, ei);
    lemma_cong_mul(y as int, (gi * ki) * ei, ii, ii);
    assert(((gi * ki) * ei) * ii == (gi * ei) * (ki * ii)) by (nonlinear_arith);
    lemma_cong_mul(gi * ei, gi * ei, ki * ii, 1);
    assert((gi * ei) * 1 == gi * ei) by (nonlinear_arith);
    lemma_cong_reduced(mul_mod(y, inv) as int, mul_mod(g, e) as int);
}

/// Makes the proof of decryption with the randomizer `r`.  The transcript
/// is left clear.
pub fn prove_dleq(
    domain: &[u8],
    transcript: &mut Transcript,
    g: &Point,
    private_key: &Scalar,
    public_key: &Point,
    encrypted_share: &Point,
    decrypted_share: &Point,
    r: &Scalar,
) -> (made: (Scalar, Scalar))
    ensures
        (made.0@, made.1@) == dleq_proof(
            domain@,
            old(transcript)@,
            g@,
            private_key@,
            public_key@,
            encrypted_share@,
            decrypted_share@,
            r@,
        ),
        final(transcript).is_clear(),
{
    transcript.absorb_bytes(domain);
    transcript.absorb_point(public_key);
    transcript.absorb_point(encrypted_share);
    transcript.absorb_point(&g.mul(r));
    transcript.absorb_point(&decrypted_share.mul(r));
    let d = transcript.challenge();
    let z = r.add(&d.mul(private_key));
    (d, z)
}

/// Checks a proof of decryption, on a transcript of its own.
pub fn check_dleq(
    domain: &[u8],
    g: &Point,
    public_key: &Point,
    encrypted_share: &Point,
    decrypted_share: &Point,
    proof_pair: &(Scalar, Scalar),
) -> (r: bool)
    ensures
        r == dleq_accepted(
            domain@,
            g@,
            public_key@,
            encrypted_share@,
            decrypted_share@,
            proof_pair.0@,
            proof_pair.1@,
        ),
{
    let d = &proof_pair.0;
    let z = &proof_pair.1;
    let mut transcript = Transcript::new();
    proof {
        assert(transcript@ + domain@ =~= Seq::<u8>::empty() + domain@);
    }
    transcript.absorb_bytes(domain);
    transcript.absorb_point(public_key);
    transcript.absorb_point(encrypted_share);
    transcript.absorb_point(&g.mul(z).sub(&public_key.mul(d)));
    transcript.absorb_point(&decrypted_share.mul(z).sub(&encrypted_share.mul(d)));
    let challenge = transcript.challenge();
    d.eq(&challenge)
}

/// Whether the indices are below `n` and strictly increasing.
pub open spec fn increasing_below(indices: Seq<usize>, n: nat) -> bool {
    &&& forall|i: int| 0 <= i < indices.len() ==> #[trigger] indices[i] < n
    &&& forall|i: int, j: int| 0 <= i < j < indices.len() ==> indices[i] < indices[j]
}

/// The indices at which the verdict is true, in increasing order.
pub fn accepting_indices(verdicts: &Vec<bool>) -> (r: Vec<usize>)
    ensures
        increasing_below(r@, verdicts@.len()),
        forall|j: int| 0 <= j < verdicts@.len() ==> (r@.contains(j as usize) <==> verdicts@[j]),
{
    let mut out: Vec<usize> = Vec::new();
    let mut i: usize = 0;
    while i < verdicts.len()
        invariant
            i <= verdicts.len(),
            increasing_below(out@, i as nat),
            forall|j: int| 0 <= j < i ==> (out@.contains(j as usize) <==> verdicts@[j]),
        decreases verdicts.len() - i,
    {
        let ghost before = out@;
        if verdicts[i] {
            out.push(i);
            proof {
                assert(out@[before.len() as int] == i);
                assert forall|j: int| 0 <= j < i + 1 implies (out@.contains(j as usize) <==> verdicts@[j]) by {
                    if before.contains(j as usize) {
                        let k = choose|k: int| 0 <= k < before.len() && before[k] == j as usize;
                        assert(out@[k] == j as usize);
                    }
                    if out@.contains(j as usize) && j < i {
                        let k = choose|k: int| 0 <= k < out@.len() && out@[k] == j as usize;
                        assert(k < before.len());
                        assert(before[k] == j as usize);
                    }
                }
            }
        } else {
            proof {
                assert forall|j: int| 0 <= j < i + 1 implies (out@.contains(j as usize) <==> verdicts@[j]) by {
                    if out@.contains(i) {
                        let k = choose|k: int| 0 <= k < out@.len() && out@[k] == i;
                        assert(out@[k] < i);
                    }
                }
            }
        }
        i += 1;
    }
    out
}

} // verus!
