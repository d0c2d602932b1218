//! The one-of-two proof that an encrypted vote hides zero or one: a
//! disjunction of two discrete-log equalities, of which the voter answers
//! the one that holds and simulates the other.

use crate::field::{add_mod, cong, group_order, inv_mod, is_inverse, mul_mod, neg_mod, sub_mod};
use crate::field::{lemma_cancel_factor, lemma_cancel_summand, lemma_cong_add, lemma_cong_mul};
use crate::field::{lemma_cong_reduced, lemma_cong_sub, lemma_field_ops};
use crate::point::{basepoint_multiple, Point};
use crate::scalar::Scalar;
use crate::tally::encrypted_vote_of;
use crate::transcript::{challenge_of, Transcript};
use vstd::prelude::*;

verus! {

/// A proof that a vote is zero or one, as numbers: the exponents of its
/// four commitments and the integers of its four scalars.
pub struct VoteProofView {
    pub a0: nat,
    pub a1: nat,
    pub b0: nat,
    pub b1: nat,
    pub d0: nat,
    pub d1: nat,
    pub r0: nat,
    pub r1: nat,
}

/// What a vote proof hashes: what the transcript held before, the
/// variant's constant, then the encrypted vote, the point `C0` that binds
/// it to the dealing, and the proof's commitments `a0`, `b0`, `a1`, `b1`.
pub open spec fn vote_transcript(
    domain: Seq<u8>,
    prefix: Seq<u8>,
    u: nat,
    c0: nat,
    a0: nat,
    b0: nat,
    a1: nat,
    b1: nat,
) -> Seq<u8> {
    prefix + domain + basepoint_multiple(u) + basepoint_multiple(c0) + basepoint_multiple(a0)
        + basepoint_multiple(b0) + basepoint_multiple(a1) + basepoint_multiple(b1)
}

/// Whether the proof is accepted for the encrypted vote `U` and the point
/// `C0`, with the bases `G` and `H`: the challenge is the sum of `d0` and
/// `d1`, and the four commitments are what the responses give back.
pub open spec fn disjunction_accepted(
    domain: Seq<u8>,
    prefix: Seq<u8>,
    g: nat,
    h: nat,
    u: nat,
    c0: nat,
    p: VoteProofView,
) -> bool {
    let c = challenge_of(vote_transcript(domain, prefix, u, c0, p.a0, p.b0, p.a1, p.b1));
    &&& c == add_mod(p.d0, p.d1)
    &&& p.a0 == add_mod(mul_mod(h, p.r0), mul_mod(c0, p.d0))
    &&& p.a1 == add_mod(mul_mod(h, p.r1), mul_mod(c0, p.d1))
    &&& p.b0 == add_mod(mul_mod(g, p.r0), mul_mod(u, p.d0))
    &&& p.b1 == add_mod(mul_mod(g, p.r1), mul_mod(sub_mod(u, g), p.d1))
}

/// The proof that a voter makes for the vote `yes` under the secret `s`,
/// with the randomizers `w`, `d` and `r`: the branch of the other vote is
/// simulated with `d` and `r`, the branch of the vote itself is answered
/// with `w` once the challenge is known.
pub open spec fn disjunction_of(
    domain: Seq<u8>,
    prefix: Seq<u8>,
    g: nat,
    h: nat,
    u: nat,
    c0: nat,
    s: nat,
    yes: bool,
    w: nat,
    d: nat,
    r: nat,
) -> VoteProofView {
    let a_sim = add_mod(mul_mod(h, r), mul_mod(c0, d));
    let a_real = mul_mod(h, w);
    let b_real = mul_mod(g, w);
    if yes {
        let b_sim = add_mod(mul_mod(g, r), mul_mod(u, d));
        let c = challenge_of(vote_transcript(domain, prefix, u, c0, a_sim, b_sim, a_real, b_real));
        let d1 = add_mod(neg_mod(d), c);
        VoteProofView {
            a0: a_sim,
            a1: a_real,
            b0: b_sim,
            b1: b_real,
            d0: d,
            d1: d1,
            r0: r,
            r1: sub_mod(w, mul_mod(s, d1)),
        }
    } else {
        let b_sim = add_mod(mul_mod(g, r), mul_mod(sub_mod(u, g), d));
        let c = challenge_of(vote_transcript(domain, prefix, u, c0, a_real, b_real, a_sim, b_sim));
        let d0 = add_mod(neg_mod(d), c);
        VoteProofView {
            a0: a_real,
            a1: a_sim,
            b0: b_real,
            b1: b_sim,
            d0: d0,
            d1: d,
            r0: sub_mod(w, mul_mod(s, d0)),
            r1: r,
        }
    }
}

/// The sum of the two partial challenges is the challenge, when one of them
/// is the other's negative plus the challenge.
proof fn lemma_challenge_split(d: nat, c: nat)
    requires
        c < group_order(),
    ensures
        add_mod(d, add_mod(neg_mod(d), c)) == c,
        add_mod(add_mod(neg_mod(d), c), d) == c,
{
    let nd = neg_mod(d);
    let e = add_mod(nd, c);
    lemma_field_ops(d, 0);
    lemma_field_ops(nd, c);
    lemma_field_ops(d, e);
    lemma_field_ops(e, d);
    lemma_cong_add(nd as int, -(d as int), c as int, c as int);
    lemma_cong_add(d as int, d as int, e as int, -(d as int) + c);
    lemma_cong_add(e as int, -(d as int) + c, d as int, d as int);
    lemma_cong_reduced(add_mod(d, e) as int, c as int);
    lemma_cong_reduced(add_mod(e, d) as int, c as int);
}

/// The answer `r = w - s * d` opens the commitment `w * B` against the
/// point `P` whenever `P` is `s * B`.
proof fn lemma_answer(b: nat, p: nat, w: nat, s: nat, d: nat)
    requires
        cong(p as int, (b * s) as int),
    ensures
        add_mod(mul_mod(b, sub_mod(w, mul_mod(s, d))), mul_mod(p, d)) == mul_mod(b, w),
{
    let sd = mul_mod(s, d);
    let r = sub_mod(w, sd);
    let br = mul_mod(b, r);
    let pd = mul_mod(p, d);
    lemma_field_ops(s, d);
    lemma_field_ops(w, sd);
    lemma_field_ops(b, r);
    lemma_field_ops(p, d);
    lemma_field_ops(br, pd);
    lemma_field_ops(b, w);
    let (bi, wi, si, di) = (b as int, w as int, s as int, d as int);
    lemma_cong_sub(wi, wi, sd as int, si * di);
    lemma_cong_mul(bi, bi, r as int, wi - si * di);
    lemma_cong_mul(p as int, bi * si, di, di);
    lemma_cong_add(br as int, bi * (wi - si * di), pd as int, (bi * si) * di);
    assert(bi * (wi - si * di) + (bi * si) * di == bi * wi) by (nonlinear_arith);
    lemma_cong_reduced(add_mod(br, pd) as int, mul_mod(b, w) as int);
}

/// An honest vote proof is accepted: for the encrypted vote of a voter's
/// choice under the secret `s`, and the point `C0 = s * H` of the dealing,
/// the proof that the voter makes passes the check, whatever the
/// randomizers.
pub proof fn lemma_honest_disjunction_accepted(
    domain: Seq<u8>,
    prefix: Seq<u8>,
    g: nat,
    h: nat,
    s: nat,
    yes: bool,
    w: nat,
    d: nat,
    r: nat,
)
    ensures
        disjunction_accepted(
            domain,
            prefix,
            g,
            h,
            encrypted_vote_of(g, s, yes),
            mul_mod(h, s),
            disjunction_of(domain, prefix, g, h, encrypted_vote_of(g, s, yes), mul_mod(h, s), s, yes, w, d, r),
        ),
{
    let u = encrypted_vote_of(g, s, yes);
    let c0 = mul_mod(h, s);
    let p = disjunction_of(domain, prefix, g, h, u, c0, s, yes, w, d, r);
    let c = challenge_of(vote_transcript(domain, prefix, u, c0, p.a0, p.b0, p.a1, p.b1));
    crate::field::lemma_cong_mod(0);
    assert(c < group_order()) by {
        crate::field::lemma_cong_mod(crate::field::le_nat(crate::transcript::blake3_xof64(
            vote_transcript(domain, prefix, u, c0, p.a0, p.b0, p.a1, p.b1),
        )) as int);
    }
    lemma_challenge_split(d, c);
    lemma_field_ops(h, s);
    let v: nat = if yes { 1 } else { 0 };
    let sv = add_mod(s, v);
    lemma_field_ops(s, v);
    lemma_field_ops(g, sv);
    lemma_cong_mul(g as int, g as int, sv as int, (s + v) as int);
    if yes {
        // the real branch is the second: its base point is U - G = s * G
        let ug = sub_mod(u, g);
        lemma_field_ops(u, g);
        lemma_cong_sub(u as int, g as int * ((s + 1) as int), g as int, g as int);
        assert(g as int * ((s + 1) as int) - g as int == (g * s) as int) by (nonlinear_arith);
        lemma_answer(h, c0, w, s, p.d1);
        lemma_answer(g, ug, w, s, p.d1);
    } else {
        // the real branch is the first: its base point is U = s * G
        assert(g as int * ((s + 0) as int) == (g * s) as int) by (nonlinear_arith);
        lemma_answer(h, c0, w, s, p.d0);
        lemma_answer(g, u, w, s, p.d0);
    }
}

/// Whether the four scalars of the proof are reduced modulo the group
/// order, as the scalars of every proof in memory are.
pub open spec fn scalars_reduced(p: VoteProofView) -> bool {
    &&& p.d0 < group_order()
    &&& p.d1 < group_order()
    &&& p.r0 < group_order()
    &&& p.r1 < group_order()
}

/// The number of fields in which two proofs differ.
pub open spec fn fields_changed(p: VoteProofView, q: VoteProofView) -> nat {
    let one = |changed: bool| -> nat {
        if changed {
            1nat
        } else {
            0nat
        }
    };
    one(p.a0 != q.a0) + one(p.a1 != q.a1) + one(p.b0 != q.b0) + one(p.b1 != q.b1) + one(p.d0 != q.d0) + one(
        p.d1 != q.d1,
    ) + one(p.r0 != q.r0) + one(p.r1 != q.r1)
}

/// A changed proof is rejected: where a proof is accepted and the
/// generator `G` has an inverse, as every element but the neutral one has,
/// a proof that differs from it in exactly one field, commitment or
/// scalar, is not accepted for the same encrypted vote.
pub proof fn lemma_changed_proof_rejected(
    domain: Seq<u8>,
    prefix: Seq<u8>,
    g: nat,
    h: nat,
    u: nat,
    c0: nat,
    p: VoteProofView,
    q: VoteProofView,
)
    requires
        disjunction_accepted(domain, prefix, g, h, u, c0, p),
        scalars_reduced(p),
        scalars_reduced(q),
        fields_changed(p, q) == 1,
        is_inverse(g, inv_mod(g)),
    ensures
        !disjunction_accepted(domain, prefix, g, h, u, c0, q),
{
    if disjunction_accepted(domain, prefix, g, h, u, c0, q) {
        if p.d0 != q.d0 {
            // the commitments are the same, and so is the challenge
            lemma_field_ops(p.d0, p.d1);
            lemma_field_ops(q.d0, p.d1);
            lemma_field_ops(p.d1, p.d0);
            lemma_field_ops(p.d1, q.d0);
            assert(add_mod(p.d0, p.d1) == add_mod(q.d0, p.d1));
            lemma_cancel_summand(p.d0, q.d0, p.d1);
        } else if p.d1 != q.d1 {
            assert(add_mod(p.d0, p.d1) == add_mod(p.d0, q.d1));
            assert(add_mod(p.d1, p.d0) == add_mod(p.d0, p.d1));
            assert(add_mod(q.d1, p.d0) == add_mod(p.d0, q.d1));
            lemma_cancel_summand(p.d1, q.d1, p.d0);
        } else if p.r0 != q.r0 {
            let rest = mul_mod(u, p.d0);
            lemma_field_ops(g, p.r0);
            lemma_field_ops(g, q.r0);
            lemma_cancel_summand(mul_mod(g, p.r0), mul_mod(g, q.r0), rest);
            lemma_cancel_factor(g, p.r0, q.r0);
        } else if p.r1 != q.r1 {
            let rest = mul_mod(sub_mod(u, g), p.d1);
            lemma_field_ops(g, p.r1);
            lemma_field_ops(g, q.r1);
            lemma_cancel_summand(mul_mod(g, p.r1), mul_mod(g, q.r1), rest);
            lemma_cancel_factor(g, p.r1, q.r1);
        }
    }
}

/// A changed vote is rejected: where a proof is accepted for an encrypted
/// vote and one of its partial challenges has an inverse, as every scalar
/// but zero has, the same proof is not accepted for another encrypted vote.
pub proof fn lemma_changed_vote_rejected(
    domain: Seq<u8>,
    prefix: Seq<u8>,
    g: nat,
    h: nat,
    u: nat,
    other: nat,
    c0: nat,
    p: VoteProofView,
)
    requires
        disjunction_accepted(domain, prefix, g, h, u, c0, p),
        u < group_order(),
        other < group_order(),
        u != other,
        is_inverse(p.d0, inv_mod(p.d0)) || is_inverse(p.d1, inv_mod(p.d1)),
    ensures
        !disjunction_accepted(domain, prefix, g, h, other, c0, p),
{
    if disjunction_accepted(domain, prefix, g, h, other, c0, p) {
        if is_inverse(p.d0, inv_mod(p.d0)) {
            let (a, b, x) = (mul_mod(u, p.d0), mul_mod(other, p.d0), mul_mod(g, p.r0));
            lemma_field_ops(u, p.d0);
            lemma_field_ops(other, p.d0);
            assert(add_mod(a, x) == add_mod(x, a) && add_mod(b, x) == add_mod(x, b));
            lemma_cancel_summand(a, b, x);
            assert(u * p.d0 == p.d0 * u && other * p.d0 == p.d0 * other) by (nonlinear_arith);
            lemma_cancel_factor(p.d0, u, other);
        } else {
            let (v, w) = (sub_mod(u, g), sub_mod(other, g));
            let (a, b, x) = (mul_mod(v, p.d1), mul_mod(w, p.d1), mul_mod(g, p.r1));
            lemma_field_ops(v, p.d1);
            lemma_field_ops(w, p.d1);
            lemma_field_ops(u, g);
            lemma_field_ops(other, g);
            assert(add_mod(a, x) == add_mod(x, a) && add_mod(b, x) == add_mod(x, b));
            lemma_cancel_summand(a, b, x);
            assert(v * p.d1 == p.d1 * v && w * p.d1 == p.d1 * w) by (nonlinear_arith);
            lemma_cancel_factor(p.d1, v, w);
            // u - g and other - g are the same residue, and so are u and other
            lemma_cong_add(u as int - g as int, other as int - g as int, g as int, g as int);
            lemma_cong_reduced(u as int, other as int);
        }
    }
}

/// The commitments and scalars of a vote proof.
#[derive(Clone, Copy, Debug)]
pub struct Disjunction {
    pub a0: Point,
    pub a1: Point,
    pub b0: Point,
    pub b1: Point,
    pub d0: Scalar,
    pub d1: Scalar,
    pub r0: Scalar,
    pub r1: Scalar,
}

impl View for Disjunction {
    type V = VoteProofView;

    open spec fn view(&self) -> VoteProofView {
        VoteProofView {
            a0: self.a0@,
            a1: self.a1@,
            b0: self.b0@,
            b1: self.b1@,
            d0: self.d0@,
            d1: self.d1@,
            r0: self.r0@,
            r1: self.r1@,
        }
    }
}

/// Checks a vote proof for the encrypted vote `U` against the point `C0`.
/// All five equations are evaluated before the verdict is formed.  The
/// transcript is left clear.
pub fn verify_disjunction(
    domain: &[u8],
    transcript: &mut Transcript,
    g: &Point,
    h: &Point,
    encrypted_vote: &Point,
    c0: &Point,
    proof: &Disjunction,
) -> (r: bool)
    ensures
        r == disjunction_accepted(domain@, old(transcript)@, g@, h@, encrypted_vote@, c0@, proof@),
        final(transcript).is_clear(),
{
    transcript.absorb_bytes(domain);
    transcript.absorb_point(encrypted_vote);
    transcript.absorb_point(c0);
    transcript.absorb_point(&proof.a0);
    transcript.absorb_point(&proof.b0);
    transcript.absorb_point(&proof.a1);
    transcript.absorb_point(&proof.b1);
    let c = transcript.challenge();
    let sum_ok = c.eq(&proof.d0.add(&proof.d1));
    let a0_ok = proof.a0.eq(&h.mul(&proof.r0).add(&c0.mul(&proof.d0)));
    let a1_ok = proof.a1.eq(&h.mul(&proof.r1).add(&c0.mul(&proof.d1)));
    let b0_ok = proof.b0.eq(&g.mul(&proof.r0).add(&encrypted_vote.mul(&proof.d0)));
    let b1_ok = proof.b1.eq(&g.mul(&proof.r1).add(&encrypted_vote.sub(g).mul(&proof.d1)));
    sum_ok && a0_ok && a1_ok && b0_ok && b1_ok
}

/// Makes the vote proof for the vote `yes` under the secret `s`, with the
/// randomizers `w`, `d` and `r`.  The transcript is left clear.
pub fn prove_disjunction(
    domain: &[u8],
    transcript: &mut Transcript,
    g: &Point,
    h: &Point,
    encrypted_vote: &Point,
    c0: &Point,
    s: &Scalar,
    yes: bool,
    w: &Scalar,
    d: &Scalar,
    r: &Scalar,
) -> (proof: Disjunction)
    ensures
        proof@ == disjunction_of(
            domain@,
            old(transcript)@,
            g@,
            h@,
            encrypted_vote@,
            c0@,
            s@,
            yes,
            w@,
            d@,
            r@,
        ),
        final(transcript).is_clear(),
{
    transcript.absorb_bytes(domain);
    transcript.absorb_point(encrypted_vote);
    transcript.absorb_point(c0);
    let a_sim = h.mul(r).add(&c0.mul(d));
    let a_real = h.mul(w);
    let b_real = g.mul(w);
    let neg_d = d.neg();
    if yes {
        let b_sim = g.mul(r).add(&encrypted_vote.mul(d));
        transcript.absorb_point(&a_sim);
        transcript.absorb_point(&b_sim);
        transcript.absorb_point(&a_real);
        transcript.absorb_point(&b_real);
        let c = transcript.challenge();
        let d1 = neg_d.add(&c);
        let r1 = w.sub(&s.mul(&d1));
        Disjunction { a0: a_sim, a1: a_real, b0: b_sim, b1: b_real, d0: *d, d1, r0: *r, r1 }
    } else {
        let b_sim = g.mul(r).add(&encrypted_vote.sub(g).mul(d));
        transcript.absorb_point(&a_real);
        transcript.absorb_point(&b_real);
        transcript.absorb_point(&a_sim);
        transcript.absorb_point(&b_sim);
        let c = transcript.challenge();
        let d0 = neg_d.add(&c);
        let r0 = w.sub(&s.mul(&d0));
        Disjunction { a0: a_real, a1: a_sim, b0: b_real, b1: b_sim, d0, d1: *d, r0, r1: *r }
    }
}

} // verus!
