//! The voter: deals a blinding secret, encrypts a vote under it and proves
//! that the vote is zero or one.

use crate::error::{Error, ErrorKind};
use crate::field::{add_mod, mul_mod};
use crate::pi_s_ppvss::dealer::{dealing, lemma_honest_dealing_accepted, Dealer};
use crate::pi_s_ppvss::utils::{shares_accepted, DOMAIN};
use crate::point::{all_encode, encodes, exponent_of, is_element, CompressedPoint, Point};
use crate::polynomial::{lemma_eval_at_zero, poly_eval, Polynomial};
use crate::random::random_scalar;
use crate::scalar::Scalar;
use crate::tally::encrypted_vote_of;
use crate::transcript::Transcript;
use crate::vote_proof::{disjunction_accepted, disjunction_of, lemma_honest_disjunction_accepted};
use crate::vote_proof::{prove_disjunction, verify_disjunction, Disjunction, VoteProofView};
use rand_chacha::ChaCha20Rng;
use vstd::prelude::*;

verus! {

/// Whether the proof is accepted for the encrypted vote `U` and the
/// encrypted share `Y0` of place zero, in this variant: see
/// `disjunction_accepted`.
pub open spec fn vote_accepted(prefix: Seq<u8>, g: nat, pk0: nat, u: nat, y0: nat, p: VoteProofView) -> bool {
    disjunction_accepted(DOMAIN@, prefix, g, pk0, u, y0, p)
}

/// The proof that a voter of this variant makes: see `disjunction_of`.
pub open spec fn vote_proof_of(
    prefix: Seq<u8>,
    g: nat,
    pk0: nat,
    u: nat,
    y0: nat,
    s: nat,
    yes: bool,
    w: nat,
    d: nat,
    r: nat,
) -> VoteProofView {
    disjunction_of(DOMAIN@, prefix, g, pk0, u, y0, s, yes, w, d, r)
}

/// An honest vote proof is accepted: for the encrypted vote of a voter's
/// choice under the secret `s`, and the encrypted share `Y0 = s * pk0` of
/// the dealing, the proof that the voter makes passes the check, whatever
/// the randomizers.
pub proof fn lemma_honest_vote_accepted(
    prefix: Seq<u8>,
    g: nat,
    pk0: nat,
    s: nat,
    yes: bool,
    w: nat,
    d: nat,
    r: nat,
)
    ensures
        vote_accepted(
            prefix,
            g,
            pk0,
            encrypted_vote_of(g, s, yes),
            mul_mod(pk0, s),
            vote_proof_of(prefix, g, pk0, encrypted_vote_of(g, s, yes), mul_mod(pk0, s), s, yes, w, d, r),
        ),
{
    lemma_honest_disjunction_accepted(DOMAIN@, prefix, g, pk0, s, yes, w, d, r);
}

/// A vote proof in wire form: the four commitments compressed, the five
/// scalars as they are.
#[derive(Clone, Copy, Debug)]
pub struct CompressedVoteProof {
    pub a0: CompressedPoint,
    pub a1: CompressedPoint,
    pub b0: CompressedPoint,
    pub b1: CompressedPoint,
    pub c: Scalar,
    pub d0: Scalar,
    pub d1: Scalar,
    pub r0: Scalar,
    pub r1: Scalar,
}

/// A vote proof: a one-of-two proof that the encrypted vote hides zero or
/// one under the secret of the dealing.  The challenge `c` is carried
/// along; the check recomputes it.
#[derive(Clone, Copy, Debug)]
pub struct VoteProof {
    pub a0: Point,
    pub a1: Point,
    pub b0: Point,
    pub b1: Point,
    pub c: Scalar,
    pub d0: Scalar,
    pub d1: Scalar,
    pub r0: Scalar,
    pub r1: Scalar,
}

impl View for VoteProof {
    type V = VoteProofView;

    open spec fn view(&self) -> VoteProofView {
        VoteProofView {
            a0: self.a0@,
            a1: self.a1@,
            b0: self.b0@,
            b1: self.b1@,
            d0: self.d0@,
            d1: self.d1@,
            r0: self.r0@,
            r1: self.r1@,
        }
    }
}

/// Whether the wire form holds the encodings of the proof's commitments
/// and the proof's partial challenges and responses.
pub open spec fn wire_form_of(c: CompressedVoteProof, p: VoteProofView) -> bool {
    &&& encodes(c.a0@, p.a0)
    &&& encodes(c.a1@, p.a1)
    &&& encodes(c.b0@, p.b0)
    &&& encodes(c.b1@, p.b1)
    &&& c.d0@ == p.d0
    &&& c.d1@ == p.d1
    &&& c.r0@ == p.r0
    &&& c.r1@ == p.r1
}

/// The first of the four commitments, in the order `a0`, `a1`, `b0`, `b1`,
/// that encodes no group element, if there is one.
pub open spec fn first_bad_commitment(c: CompressedVoteProof) -> Option<CompressedPoint> {
    if !is_element(c.a0@) {
        Some(c.a0)
    } else if !is_element(c.a1@) {
        Some(c.a1)
    } else if !is_element(c.b0@) {
        Some(c.b0)
    } else if !is_element(c.b1@) {
        Some(c.b1)
    } else {
        None
    }
}

impl CompressedVoteProof {
    /// The wire form made of the given commitments, partial challenges and
    /// responses; its challenge is the sum of the partial challenges.
    pub fn new(
        a0: CompressedPoint,
        a1: CompressedPoint,
        b0: CompressedPoint,
        b1: CompressedPoint,
        d0: Scalar,
        d1: Scalar,
        r0: Scalar,
        r1: Scalar,
    ) -> (r: CompressedVoteProof)
        ensures
            r.a0 == a0 && r.a1 == a1 && r.b0 == b0 && r.b1 == b1,
            r.d0 == d0 && r.d1 == d1 && r.r0 == r0 && r.r1 == r1,
            r.c@ == add_mod(d0@, d1@),
    {
        CompressedVoteProof { a0, a1, b0, b1, c: d0.add(&d1), d0, d1, r0, r1 }
    }

    /// The proof that the wire form encodes.  A commitment that is no group
    /// element is refused with `PointDecompressionError`.
    pub fn decompress(self) -> (r: Result<VoteProof, Error>)
        ensures
            match r {
                Ok(p) => first_bad_commitment(self) is None && wire_form_of(self, p@) && p.c@ == self.c@,
                Err(e) => first_bad_commitment(self) is Some && e.kind == ErrorKind::PointDecompressionError(
                    first_bad_commitment(self).unwrap().bytes,
                ),
            },
    {
        let a0 = match crate::utils::decompress_ristretto_point(self.a0) {
            Ok(p) => p,
            Err(e) => {
                return Err(e);
            },
        };
        let a1 = match crate::utils::decompress_ristretto_point(self.a1) {
            Ok(p) => p,
            Err(e) => {
                return Err(e);
            },
        };
        let b0 = match crate::utils::decompress_ristretto_point(self.b0) {
            Ok(p) => p,
            Err(e) => {
                return Err(e);
            },
        };
        let b1 = match crate::utils::decompress_ristretto_point(self.b1) {
            Ok(p) => p,
            Err(e) => {
                return Err(e);
            },
        };
        proof {
            assert(is_element(self.a0@) && is_element(self.a1@) && is_element(self.b0@) && is_element(self.b1@));
        }
        Ok(VoteProof { a0, a1, b0, b1, c: self.c, d0: self.d0, d1: self.d1, r0: self.r0, r1: self.r1 })
    }
}

impl VoteProof {
    /// Checks the proof for the encrypted vote `U` against the encrypted
    /// share `Y0` of place zero, under the key `pk0`.  All five equations
    /// are evaluated before the verdict is formed.  The transcript is left
    /// clear.
    pub fn verify(
        &self,
        transcript: &mut Transcript,
        g: &Point,
        encrypted_vote: &Point,
        pk0: &Point,
        y0: &Point,
    ) -> (r: bool)
        ensures
            r == vote_accepted(old(transcript)@, g@, pk0@, encrypted_vote@, y0@, self@),
            final(transcript).is_clear(),
    {
        verify_disjunction(DOMAIN.as_slice(), transcript, g, pk0, encrypted_vote, y0, &self.parts())
    }

    /// The commitments, partial challenges and responses of the proof.
    pub fn parts(&self) -> (r: Disjunction)
        ensures
            r@ == self@,
    {
        Disjunction {
            a0: self.a0,
            a1: self.a1,
            b0: self.b0,
            b1: self.b1,
            d0: self.d0,
            d1: self.d1,
            r0: self.r0,
            r1: self.r1,
        }
    }

    /// The wire form of the proof.
    pub fn compress(&self) -> (r: CompressedVoteProof)
        ensures
            wire_form_of(r, self@),
            r.c@ == self.c@,
    {
        CompressedVoteProof {
            a0: self.a0.compress(),
            a1: self.a1.compress(),
            b0: self.b0.compress(),
            b1: self.b1.compress(),
            c: self.c,
            d0: self.d0,
            d1: self.d1,
            r0: self.r0,
            r1: self.r1,
        }
    }
}

/// An encrypted vote with its proof.
#[derive(Clone, Copy, Debug)]
pub struct Vote {
    pub encrypted_vote: Point,
    pub proof: VoteProof,
}

/// An encrypted vote with its proof, in wire form.
#[derive(Clone, Copy, Debug)]
pub struct CompressedVote {
    pub encrypted_vote: CompressedPoint,
    pub proof: CompressedVoteProof,
}

impl Vote {
    /// The wire form of the vote.
    pub fn compress(&self) -> (r: CompressedVote)
        ensures
            encodes(r.encrypted_vote@, self.encrypted_vote@),
            wire_form_of(r.proof, self.proof@),
            r.proof.c@ == self.proof.c@,
    {
        CompressedVote { encrypted_vote: self.encrypted_vote.compress(), proof: self.proof.compress() }
    }
}

/// What a voter publishes: the encrypted shares in wire form and as
/// points, that of place zero first, the dealer's proof, the encrypted vote
/// in wire form, and the vote proof in wire form.
pub type Ballot = (Vec<(CompressedPoint, Point)>, (Scalar, Polynomial), CompressedPoint, CompressedVoteProof);

/// The exponents of the points of a run of pairs.
pub open spec fn pair_exponents(pairs: Seq<(CompressedPoint, Point)>) -> Seq<nat> {
    Seq::new(pairs.len(), |i: int| pairs[i].1@)
}

/// Whether each pair holds a point and its own wire form.
pub open spec fn pairs_agree(pairs: Seq<(CompressedPoint, Point)>) -> bool {
    forall|i: int| 0 <= i < pairs.len() ==> encodes((#[trigger] pairs[i]).0@, pairs[i].1@)
}

/// Whether the ballot is the one that a voter with the generator `G` and
/// the dealer's keys makes for the vote `yes` from the polynomial `f`,
/// whose constant term is the blinding secret, the blinding polynomial `r`
/// and the vote proof's randomizers `w`, `d`, `rr`.  The dealing is made on
/// a transcript that held `prefix`, the vote proof on the clear transcript
/// that the dealing leaves.
pub open spec fn is_ballot(
    ballot: Ballot,
    prefix: Seq<u8>,
    g: nat,
    pks: Seq<nat>,
    f: Seq<nat>,
    r: Seq<nat>,
    yes: bool,
    w: nat,
    d: nat,
    rr: nat,
) -> bool {
    let dl = dealing(prefix, pks, f, r);
    let u = encrypted_vote_of(g, f[0], yes);
    let made = vote_proof_of(Seq::empty(), g, pks[0], u, dl.0[0], f[0], yes, w, d, rr);
    &&& pair_exponents(ballot.0@) == dl.0
    &&& pairs_agree(ballot.0@)
    &&& ballot.1.0@ == dl.1
    &&& ballot.1.1@ == dl.2
    &&& encodes(ballot.2@, u)
    &&& wire_form_of(ballot.3, made)
    &&& ballot.3.c@ == add_mod(made.d0, made.d1)
}

/// A voter: a dealer of blinding secrets with a vote to cast.
#[derive(Debug)]
pub struct Voter {
    pub dealer: Dealer,
    pub vote: Option<Scalar>,
    pub encrypted_vote: Option<Point>,
}

impl Voter {
    /// The vote that was generated last, as a scalar: one for yes, zero
    /// for no.
    pub open spec fn choice(&self) -> Option<nat> {
        match self.vote {
            Some(v) => Some(v@),
            None => None,
        }
    }

    /// Whether the vote that was generated last is yes.
    pub open spec fn voted_yes(&self) -> bool {
        self.choice() == Some(1nat)
    }

    /// The exponent of the encrypted vote that was generated last.
    pub open spec fn ciphertext(&self) -> Option<nat> {
        match self.encrypted_vote {
            Some(u) => Some(u@),
            None => None,
        }
    }

    /// A voter for the parties with the given public keys and the key
    /// `pk0` of place zero.  What `Dealer::new` refuses is refused.
    pub fn new(n: usize, t: usize, public_keys: &[CompressedPoint], pk0: &Point) -> (r: Result<Voter, Error>)
        ensures
            match r {
                Ok(voter) => {
                    &&& Dealer::refusal(n, t, public_keys@) is None
                    &&& voter.dealer.parties() == n
                    &&& voter.dealer.threshold() == t
                    &&& voter.dealer.keys().len() == n + 1
                    &&& voter.dealer.keys()[0] == pk0@
                    &&& all_encode(public_keys@, voter.dealer.keys().subrange(1, n + 1))
                    &&& voter.dealer.dealt() is None
                    &&& voter.choice() is None
                    &&& voter.ciphertext() is None
                },
                Err(e) => Dealer::refusal(n, t, public_keys@) == Some(e.kind),
            },
    {
        match Dealer::new(n, t, public_keys, pk0) {
            Ok(dealer) => Ok(Voter { dealer, vote: None, encrypted_vote: None }),
            Err(e) => Err(e),
        }
    }

    /// Sets the vote and encrypts it under the secret `s`: the encrypted
    /// vote is `G * (s + 1)` for yes and `G * s` for no.
    pub fn generate_vote(&mut self, g: &Point, s: &Scalar, choice: bool)
        ensures
            final(self).dealer == old(self).dealer,
            final(self).choice() == Some(if choice { 1nat } else { 0nat }),
            final(self).ciphertext() == Some(encrypted_vote_of(g@, s@, choice)),
    {
        let v = if choice {
            Scalar::one()
        } else {
            Scalar::zero()
        };
        self.vote = Some(v);
        self.encrypted_vote = Some(g.mul(&s.add(&v)));
    }

    /// The vote proof for the generated vote under the secret `s` and the
    /// encrypted share `y0` of place zero, made with the randomizers `w`,
    /// `d` and `r`, in wire form; its `c` is the sum of the two partial
    /// challenges.  The transcript is left clear.  A voter without a
    /// generated vote refuses with `UninitializedValue`.
    pub fn dleq_vote_with(
        &self,
        g: &Point,
        w: &Scalar,
        d: &Scalar,
        r: &Scalar,
        y0: &Point,
        s: &Scalar,
        transcript: &mut Transcript,
    ) -> (out: Result<CompressedVoteProof, Error>)
        ensures
            match out {
                Ok(proof) => {
                    let made = vote_proof_of(
                        old(transcript)@,
                        g@,
                        self.dealer.keys()[0],
                        self.ciphertext().unwrap(),
                        y0@,
                        s@,
                        self.voted_yes(),
                        w@,
                        d@,
                        r@,
                    );
                    &&& self.choice() is Some
                    &&& self.ciphertext() is Some
                    &&& wire_form_of(proof, made)
                    &&& proof.c@ == add_mod(made.d0, made.d1)
                    &&& final(transcript).is_clear()
                },
                Err(e) => {
                    &&& e.kind == vote_missing(self.choice() is Some, self.ciphertext() is Some)
                    &&& self.choice() is None || self.ciphertext() is None
                    &&& *final(transcript) == *old(transcript)
                },
            },
    {
        let pk0 = self.dealer.get_pk0();
        match (self.vote, self.encrypted_vote) {
            (Some(v), Some(u)) => {
                let yes = v.eq(&Scalar::one());
                let proof = prove_disjunction(DOMAIN.as_slice(), transcript, g, &pk0, &u, y0, s, yes, w, d, r);
                Ok(
                    CompressedVoteProof {
                        a0: proof.a0.compress(),
                        a1: proof.a1.compress(),
                        b0: proof.b0.compress(),
                        b1: proof.b1.compress(),
                        c: proof.d0.add(&proof.d1),
                        d0: proof.d0,
                        d1: proof.d1,
                        r0: proof.r0,
                        r1: proof.r1,
                    },
                )
            },
            (None, None) => Err(Error::from_kind(ErrorKind::UninitializedValue("voter.{vote,encrypted_vote}"))),
            (None, _) => Err(Error::from_kind(ErrorKind::UninitializedValue("voter.vote"))),
            (_, None) => Err(Error::from_kind(ErrorKind::UninitializedValue("voter.encrypted_vote"))),
        }
    }

    /// The vote proof of `dleq_vote_with`, with randomizers drawn from the
    /// generator and zeroized after use.
    pub fn dleq_vote(
        &self,
        rng: &mut ChaCha20Rng,
        g: &Point,
        y0: &Point,
        s: &Scalar,
        transcript: &mut Transcript,
    ) -> (out: Result<CompressedVoteProof, Error>)
        ensures
            match out {
                Ok(proof) => {
                    &&& self.choice() is Some
                    &&& self.ciphertext() is Some
                    &&& exists|w: nat, d: nat, r: nat|
                        wire_form_of(
                            proof,
                            #[trigger] vote_proof_of(
                                old(transcript)@,
                                g@,
                                self.dealer.keys()[0],
                                self.ciphertext().unwrap(),
                                y0@,
                                s@,
                                self.voted_yes(),
                                w,
                                d,
                                r,
                            ),
                        )
                    &&& proof.c@ == add_mod(proof.d0@, proof.d1@)
                    &&& final(transcript).is_clear()
                },
                Err(e) => {
                    &&& e.kind == vote_missing(self.choice() is Some, self.ciphertext() is Some)
                    &&& self.choice() is None || self.ciphertext() is None
                    &&& *final(transcript) == *old(transcript)
                },
            },
    {
        let mut w = random_scalar(rng);
        let mut d = random_scalar(rng);
        let mut r = random_scalar(rng);
        let out = self.dleq_vote_with(g, &w, &d, &r, y0, s, transcript);
        let ghost drawn = (w@, d@, r@);
        w.zeroize();
        d.zeroize();
        r.zeroize();
        proof {
            if out is Ok {
                assert(wire_form_of(
                    out.unwrap(),
                    vote_proof_of(
                        old(transcript)@,
                        g@,
                        self.dealer.keys()[0],
                        self.ciphertext().unwrap(),
                        y0@,
                        s@,
                        self.voted_yes(),
                        drawn.0,
                        drawn.1,
                        drawn.2,
                    ),
                ));
            }
        }
        out
    }

    /// Casts the vote `choice` from given randomness: the polynomial `f`,
    /// whose constant term is the blinding secret, the blinding polynomial
    /// `r` of the dealer's proof, and the vote proof's randomizers `w`, `d`,
    /// `rr`.  The secret is dealt, the vote is encrypted under it and proved
    /// against the encrypted share of place zero.  Polynomials that have not
    /// `t + 1` coefficients each are refused with `CountMismatch`; then
    /// nothing has changed.
    pub fn vote_with(
        &mut self,
        g: &Point,
        transcript: &mut Transcript,
        choice: bool,
        f: &Polynomial,
        r: &Polynomial,
        w: &Scalar,
        d: &Scalar,
        rr: &Scalar,
    ) -> (out: Result<Ballot, Error>)
        ensures
            final(self).dealer.keys() == old(self).dealer.keys(),
            final(self).dealer.parties() == old(self).dealer.parties(),
            final(self).dealer.threshold() == old(self).dealer.threshold(),
            match out {
                Ok(ballot) => {
                    &&& f@.len() == old(self).dealer.threshold() + 1
                    &&& r@.len() == old(self).dealer.threshold() + 1
                    &&& is_ballot(
                        ballot,
                        old(transcript)@,
                        g@,
                        old(self).dealer.keys(),
                        f@,
                        r@,
                        choice,
                        w@,
                        d@,
                        rr@,
                    )
                    &&& final(transcript).is_clear()
                    &&& final(self).dealer.dealt() == Some(f@[0])
                    &&& final(self).choice() == Some(if choice { 1nat } else { 0nat })
                    &&& final(self).ciphertext() == Some(encrypted_vote_of(g@, f@[0], choice))
                },
                Err(e) => {
                    &&& e.kind == (if f@.len() != old(self).dealer.threshold() + 1 {
                        ErrorKind::CountMismatch(
                            (old(self).dealer.threshold() + 1) as usize,
                            "coefficients",
                            f@.len() as usize,
                            "polynomial",
                        )
                    } else {
                        ErrorKind::CountMismatch(
                            (old(self).dealer.threshold() + 1) as usize,
                            "coefficients",
                            r@.len() as usize,
                            "blinding polynomial",
                        )
                    })
                    &&& f@.len() != old(self).dealer.threshold() + 1 || r@.len() != old(
                        self,
                    ).dealer.threshold() + 1
                    &&& *final(self) == *old(self)
                    &&& *final(transcript) == *old(transcript)
                },
            },
    {
        let t = self.dealer.t();
        let n = self.dealer.n();
        if f.len() != t + 1 {
            return Err(Error::from_kind(ErrorKind::CountMismatch(t + 1, "coefficients", f.len(), "polynomial")));
        }
        if r.len() != t + 1 {
            return Err(
                Error::from_kind(ErrorKind::CountMismatch(t + 1, "coefficients", r.len(), "blinding polynomial")),
            );
        }
        let s = match f.coef_at(0) {
            Some(s) => s,
            None => {
                proof {
                    // this arm is never taken
                    assert(false);
                }
                Scalar::zero()
            },
        };
        let ghost dl = dealing(old(transcript)@, old(self).dealer.keys(), f@, r@);
        proof {
            use_type_invariant(&self.dealer);
            self.dealer.lemma_keys_len();
        }
        match self.dealer.deal_polynomials(transcript, f, r) {
            Ok(dealt) => {
                let (wire_shares, share_proof) = dealt;
                proof {
                    transcript.lemma_clear_is_empty();
                    assert(dl.0.len() == old(self).dealer.keys().len());
                }
                let shares = match crate::utils::batch_decompress_ristretto_points(wire_shares.as_slice()) {
                    Ok(points) => points,
                    Err(e) => {
                        proof {
                            let k = choose|k: int| crate::utils::first_refused(wire_shares@, k);
                            assert(is_element(wire_shares@[k]@));
                            // this arm is never taken
                            assert(false);
                        }
                        return Err(e);
                    },
                };
                let y0 = shares[0];
                self.generate_vote(g, &s, choice);
                let vote_proof = match self.dleq_vote_with(g, w, d, rr, &y0, &s, transcript) {
                    Ok(p) => p,
                    Err(e) => {
                        proof {
                            // this arm is never taken
                            assert(false);
                        }
                        return Err(e);
                    },
                };
                let mut pairs: Vec<(CompressedPoint, Point)> = Vec::new();
                let mut i: usize = 0;
                while i < shares.len()
                    invariant
                        i <= shares.len(),
                        shares@.len() == wire_shares@.len(),
                        all_encode(wire_shares@, dl.0),
                        forall|k: int|
                            0 <= k < shares@.len() ==> (#[trigger] shares@[k])@ == exponent_of(wire_shares@[k]@),
                        pairs@.len() == i,
                        forall|k: int|
                            0 <= k < i ==> (#[trigger] pairs@[k]).1@ == dl.0[k] && encodes(
                                pairs@[k].0@,
                                pairs@[k].1@,
                            ),
                    decreases shares.len() - i,
                {
                    pairs.push((wire_shares[i], shares[i]));
                    i += 1;
                }
                let encrypted_vote = match self.encrypted_vote {
                    Some(u) => u.compress(),
                    None => {
                        proof {
                            // this arm is never taken
                            assert(false);
                        }
                        return Err(Error::from_kind(ErrorKind::UninitializedValue("voter.encrypted_vote")));
                    },
                };
                proof {
                    assert(pair_exponents(pairs@) =~= dl.0);
                }
                Ok((pairs, share_proof, encrypted_vote, vote_proof))
            },
            Err(e) => {
                proof {
                    // this arm is never taken
                    assert(false);
                }
                Err(e)
            },
        }
    }

    /// Casts the vote `choice`: a blinding secret, the polynomial that
    /// shares it and all randomizers are drawn from the generator and
    /// zeroized after use.  What comes out is an honest ballot; made on a transcript that held
    /// nothing, it passes the check of encrypted shares and the check of
    /// the vote.
    pub fn vote(&mut self, g: &Point, rng: &mut ChaCha20Rng, transcript: &mut Transcript, choice: bool) -> (out:
        Result<Ballot, Error>)
        ensures
            final(self).dealer.keys() == old(self).dealer.keys(),
            final(self).dealer.parties() == old(self).dealer.parties(),
            final(self).dealer.threshold() == old(self).dealer.threshold(),
            final(transcript).is_clear(),
            out is Ok,
            exists|f: Seq<nat>, r: Seq<nat>, w: nat, d: nat, rr: nat|
                {
                    &&& f.len() == old(self).dealer.threshold() + 1
                    &&& r.len() == old(self).dealer.threshold() + 1
                    &&& #[trigger] is_ballot(
                        out.unwrap(),
                        old(transcript)@,
                        g@,
                        old(self).dealer.keys(),
                        f,
                        r,
                        choice,
                        w,
                        d,
                        rr,
                    )
                    &&& final(self).dealer.dealt() == Some(f[0])
                    &&& final(self).ciphertext() == Some(encrypted_vote_of(g@, f[0], choice))
                },
            final(self).choice() == Some(if choice { 1nat } else { 0nat }),
            old(transcript)@ == Seq::<u8>::empty() ==> ballot_accepted(out.unwrap(), g@, old(self).dealer.keys()),
    {
        let mut s = random_scalar(rng);
        let (mut f, mut r) = Polynomial::sample_two_set_f0(self.dealer.t(), &s, rng);
        let mut w = random_scalar(rng);
        let mut d = random_scalar(rng);
        let mut rr = random_scalar(rng);
        let out = self.vote_with(g, transcript, choice, &f, &r, &w, &d, &rr);
        let ghost drawn = (f@, r@, w@, d@, rr@);
        s.zeroize();
        f.zeroize();
        r.zeroize();
        w.zeroize();
        d.zeroize();
        rr.zeroize();
        proof {
            assert(out is Ok);
            use_type_invariant(&self.dealer);
            self.dealer.lemma_keys_len();
            if old(transcript)@ == Seq::<u8>::empty() {
                lemma_ballot_accepted(
                    out.unwrap(),
                    g@,
                    old(self).dealer.keys(),
                    drawn.0,
                    drawn.1,
                    choice,
                    drawn.2,
                    drawn.3,
                    drawn.4,
                );
            }
        }
        out
    }

    /// `m` fresh voters for the same parties: none has dealt or voted yet.
    /// What `Dealer::new` refuses is refused.
    pub fn generate_voters(m: usize, n: usize, t: usize, public_keys: &[CompressedPoint], pk0: &Point) -> (r:
        Result<Vec<Voter>, Error>)
        ensures
            match r {
                Ok(voters) => {
                    &&& m > 0 ==> Dealer::refusal(n, t, public_keys@) is None
                    &&& voters@.len() == m
                    &&& forall|i: int|
                        0 <= i < m ==> {
                            let v = #[trigger] voters@[i];
                            &&& v.dealer.parties() == n
                            &&& v.dealer.threshold() == t
                            &&& v.dealer.dealt() is None
                            &&& v.choice() is None
                            &&& v.ciphertext() is None
                            &&& v.dealer.keys().len() == n + 1
                            &&& v.dealer.keys()[0] == pk0@
                            &&& all_encode(public_keys@, v.dealer.keys().subrange(1, n + 1))
                        }
                },
                Err(e) => m > 0 && Dealer::refusal(n, t, public_keys@) == Some(e.kind),
            },
    {
        let mut voters: Vec<Voter> = Vec::new();
        let mut i: usize = 0;
        while i < m
            invariant
                i <= m,
                voters@.len() == i,
                i > 0 ==> Dealer::refusal(n, t, public_keys@) is None,
                forall|k: int|
                    0 <= k < i ==> {
                        let v = #[trigger] voters@[k];
                        &&& v.dealer.parties() == n
                        &&& v.dealer.threshold() == t
                        &&& v.dealer.dealt() is None
                        &&& v.choice() is None
                        &&& v.ciphertext() is None
                        &&& v.dealer.keys().len() == n + 1
                        &&& v.dealer.keys()[0] == pk0@
                        &&& all_encode(public_keys@, v.dealer.keys().subrange(1, n + 1))
                    },
            decreases m - i,
        {
            match Voter::new(n, t, public_keys, pk0) {
                Ok(voter) => {
                    voters.push(voter);
                },
                Err(e) => {
                    return Err(e);
                },
            }
            i += 1;
        }
        Ok(voters)
    }
}

/// Whether the ballot passes both public checks, each on a transcript that
/// held nothing: the dealer's proof is accepted for its encrypted shares,
/// and the vote proof is accepted for its encrypted vote against the
/// encrypted share of place zero.
pub open spec fn ballot_accepted(ballot: Ballot, g: nat, pks: Seq<nat>) -> bool {
    &&& shares_accepted(Seq::empty(), pair_exponents(ballot.0@), pks, ballot.1.0@, ballot.1.1@)
    &&& exists|u: nat, p: VoteProofView|
        {
            &&& encodes(ballot.2@, u)
            &&& wire_form_of(ballot.3, p)
            &&& #[trigger] vote_accepted(Seq::empty(), g, pks[0], u, pair_exponents(ballot.0@)[0], p)
        }
}

/// An honest ballot is accepted: whatever the polynomials and the
/// randomizers, a ballot made on a transcript that held nothing passes the
/// check of encrypted shares and the check of the vote.
pub proof fn lemma_ballot_accepted(
    ballot: Ballot,
    g: nat,
    pks: Seq<nat>,
    f: Seq<nat>,
    r: Seq<nat>,
    yes: bool,
    w: nat,
    d: nat,
    rr: nat,
)
    requires
        is_ballot(ballot, Seq::empty(), g, pks, f, r, yes, w, d, rr),
        f.len() > 0,
        f.len() == r.len(),
        pks.len() > 0,
    ensures
        ballot_accepted(ballot, g, pks),
{
    lemma_honest_dealing_accepted(Seq::empty(), pks, f, r);
    lemma_honest_vote_accepted(Seq::empty(), g, pks[0], f[0], yes, w, d, rr);
    lemma_eval_at_zero(pks[0], f);
    let u = encrypted_vote_of(g, f[0], yes);
    let dl = dealing(Seq::empty(), pks, f, r);
    assert(dl.0[0] == mul_mod(pks[0], poly_eval(f, (0 + 0) as nat)));
    let p = vote_proof_of(Seq::empty(), g, pks[0], u, dl.0[0], f[0], yes, w, d, rr);
    assert(vote_accepted(Seq::empty(), g, pks[0], u, pair_exponents(ballot.0@)[0], p));
}

/// What the vote proof lacks when the vote or its encryption was not
/// generated.
pub open spec fn vote_missing(has_vote: bool, has_encrypted_vote: bool) -> ErrorKind {
    if !has_vote && !has_encrypted_vote {
        ErrorKind::UninitializedValue("voter.{vote,encrypted_vote}")
    } else if !has_vote {
        ErrorKind::UninitializedValue("voter.vote")
    } else {
        ErrorKind::UninitializedValue("voter.encrypted_vote")
    }
}

} // verus!
