//! The voter: deals a blinding secret, encrypts a vote under it and proves
//! that the vote is zero or one.

use crate::error::{Error, ErrorKind};
use crate::field::mul_mod;
use crate::point::{all_encode, encodes, exponent_of, exponents, is_element};
use crate::point::{CompressedPoint, Point};
use crate::random::random_scalar;
use crate::scalar::{values, zeroize_all, Scalar};
use crate::tally::encrypted_vote_of;
use crate::polynomial::Polynomial;
use crate::schoenmakers::dealer::{dealing, lemma_honest_dealing_accepted, Dealer};
use crate::schoenmakers::utils::{shares_accepted, DOMAIN};
use crate::transcript::Transcript;
use crate::vote_proof::{disjunction_accepted, disjunction_of, lemma_honest_disjunction_accepted};
use crate::vote_proof::{prove_disjunction, verify_disjunction, Disjunction, VoteProofView};
use rand_chacha::ChaCha20Rng;
use vstd::prelude::*;

verus! {

/// Whether the proof is accepted for the encrypted vote `U` and the
/// commitment `C0`, in this variant: see `disjunction_accepted`.
pub open spec fn vote_accepted(prefix: Seq<u8>, g: nat, h: nat, u: nat, c0: nat, p: VoteProofView) -> bool {
    disjunction_accepted(DOMAIN@, prefix, g, h, u, c0, p)
}

/// The proof that a voter of this variant makes: see `disjunction_of`.
pub open spec fn vote_proof_of(
    prefix: Seq<u8>,
    g: nat,
    h: nat,
    u: nat,
    c0: nat,
    s: nat,
    yes: bool,
    w: nat,
    d: nat,
    r: nat,
) -> VoteProofView {
    disjunction_of(DOMAIN@, prefix, g, h, u, c0, s, yes, w, d, r)
}

/// An honest vote proof is accepted: for the encrypted vote of a voter's
/// choice under the secret `s`, and the commitment `C0 = s * H` of the
/// dealing, the proof that the voter makes passes the check, whatever the
/// randomizers.
pub proof fn lemma_honest_vote_accepted(
    prefix: Seq<u8>,
    g: nat,
    h: nat,
    s: nat,
    yes: bool,
    w: nat,
    d: nat,
    r: nat,
)
    ensures
        vote_accepted(
            prefix,
            g,
            h,
            encrypted_vote_of(g, s, yes),
            mul_mod(h, s),
            vote_proof_of(prefix, g, h, encrypted_vote_of(g, s, yes), mul_mod(h, s), s, yes, w, d, r),
        ),
{
    lemma_honest_disjunction_accepted(DOMAIN@, prefix, g, h, s, yes, w, d, r);
}

/// A vote proof in wire form: the four commitments compressed, the four
/// scalars as they are.
#[derive(Clone, Copy, Debug)]
pub struct CompressedVoteProof {
    pub a0: CompressedPoint,
    pub a1: CompressedPoint,
    pub b0: CompressedPoint,
    pub b1: CompressedPoint,
    pub d0: Scalar,
    pub d1: Scalar,
    pub r0: Scalar,
    pub r1: Scalar,
}

/// A vote proof: a one-of-two proof that the encrypted vote hides zero or
/// one under the secret of the dealing.
#[derive(Clone, Copy, Debug)]
pub struct VoteProof {
    pub a0: Point,
    pub a1: Point,
    pub b0: Point,
    pub b1: Point,
    pub d0: Scalar,
    pub d1: Scalar,
    pub r0: Scalar,
    pub r1: Scalar,
}

impl View for VoteProof {
    type V = VoteProofView;

    open spec fn view(&self) -> VoteProofView {
        VoteProofView {
            a0: self.a0@,
            a1: self.a1@,
            b0: self.b0@,
            b1: self.b1@,
            d0: self.d0@,
            d1: self.d1@,
            r0: self.r0@,
            r1: self.r1@,
        }
    }
}

/// Whether the wire form holds the encodings of the proof's commitments
/// and the proof's scalars.
pub open spec fn wire_form_of(c: CompressedVoteProof, p: VoteProofView) -> bool {
    &&& encodes(c.a0@, p.a0)
    &&& encodes(c.a1@, p.a1)
    &&& encodes(c.b0@, p.b0)
    &&& encodes(c.b1@, p.b1)
    &&& c.d0@ == p.d0
    &&& c.d1@ == p.d1
    &&& c.r0@ == p.r0
    &&& c.r1@ == p.r1
}

/// The first of the four commitments, in the order `a0`, `a1`, `b0`, `b1`,
/// that encodes no group element, if there is one.
pub open spec fn first_bad_commitment(c: CompressedVoteProof) -> Option<CompressedPoint> {
    if !is_element(c.a0@) {
        Some(c.a0)
    } else if !is_element(c.a1@) {
        Some(c.a1)
    } else if !is_element(c.b0@) {
        Some(c.b0)
    } else if !is_element(c.b1@) {
        Some(c.b1)
    } else {
        None
    }
}

impl CompressedVoteProof {
    /// The wire form made of the given commitments, partial challenges and
    /// responses.
    pub fn new(
        a0: CompressedPoint,
        a1: CompressedPoint,
        b0: CompressedPoint,
        b1: CompressedPoint,
        d0: Scalar,
        d1: Scalar,
        r0: Scalar,
        r1: Scalar,
    ) -> (r: CompressedVoteProof)
        ensures
            r == (CompressedVoteProof { a0, a1, b0, b1, d0, d1, r0, r1 }),
    {
        CompressedVoteProof { a0, a1, b0, b1, d0, d1, r0, r1 }
    }

    /// The proof that the wire form encodes.  A commitment that is no group
    /// element is refused with `PointDecompressionError`.
    pub fn decompress(self) -> (r: Result<VoteProof, Error>)
        ensures
            match r {
                Ok(p) => first_bad_commitment(self) is None && wire_form_of(self, p@),
                Err(e) => first_bad_commitment(self) is Some && e.kind == ErrorKind::PointDecompressionError(
                    first_bad_commitment(self).unwrap().bytes,
                ),
            },
    {
        let a0 = match crate::utils::decompress_ristretto_point(self.a0) {
            Ok(p) => p,
            Err(e) => {
                return Err(e);
            },
        };
        let a1 = match crate::utils::decompress_ristretto_point(self.a1) {
            Ok(p) => p,
            Err(e) => {
                return Err(e);
            },
        };
        let b0 = match crate::utils::decompress_ristretto_point(self.b0) {
            Ok(p) => p,
            Err(e) => {
                return Err(e);
            },
        };
        let b1 = match crate::utils::decompress_ristretto_point(self.b1) {
            Ok(p) => p,
            Err(e) => {
                return Err(e);
            },
        };
        proof {
            assert(is_element(self.a0@) && is_element(self.a1@) && is_element(self.b0@) && is_element(self.b1@));
        }
        Ok(VoteProof { a0, a1, b0, b1, d0: self.d0, d1: self.d1, r0: self.r0, r1: self.r1 })
    }
}

impl VoteProof {
    /// Checks the proof for the encrypted vote `U` against the first
    /// commitment `C0` of the ballot's dealing.  All five equations are
    /// evaluated before the verdict is formed.  The transcript is left
    /// clear.
    pub fn verify(
        &self,
        transcript: &mut Transcript,
        g: &Point,
        h: &Point,
        encrypted_vote: &Point,
        c0: &Point,
    ) -> (r: bool)
        ensures
            r == vote_accepted(old(transcript)@, g@, h@, encrypted_vote@, c0@, self@),
            final(transcript).is_clear(),
    {
        verify_disjunction(DOMAIN.as_slice(), transcript, g, h, encrypted_vote, c0, &self.parts())
    }

    /// The commitments and scalars of the proof.
    pub fn parts(&self) -> (r: Disjunction)
        ensures
            r@ == self@,
    {
        Disjunction {
            a0: self.a0,
            a1: self.a1,
            b0: self.b0,
            b1: self.b1,
            d0: self.d0,
            d1: self.d1,
            r0: self.r0,
            r1: self.r1,
        }
    }

    /// The wire form of the proof.
    pub fn compress(&self) -> (r: CompressedVoteProof)
        ensures
            wire_form_of(r, self@),
    {
        CompressedVoteProof {
            a0: self.a0.compress(),
            a1: self.a1.compress(),
            b0: self.b0.compress(),
            b1: self.b1.compress(),
            d0: self.d0,
            d1: self.d1,
            r0: self.r0,
            r1: self.r1,
        }
    }
}

/// An encrypted vote with its proof.
#[derive(Clone, Copy, Debug)]
pub struct Vote {
    pub encrypted_vote: Point,
    pub proof: VoteProof,
}

/// An encrypted vote with its proof, in wire form.
#[derive(Clone, Copy, Debug)]
pub struct CompressedVote {
    pub encrypted_vote: CompressedPoint,
    pub proof: CompressedVoteProof,
}

impl Vote {
    /// The wire form of the vote.
    pub fn compress(&self) -> (r: CompressedVote)
        ensures
            encodes(r.encrypted_vote@, self.encrypted_vote@),
            wire_form_of(r.proof, self.proof@),
    {
        CompressedVote { encrypted_vote: self.encrypted_vote.compress(), proof: self.proof.compress() }
    }
}

/// What a voter publishes: the encrypted shares in wire form and as
/// points, the dealer's proof, the commitments, the encrypted vote in wire
/// form, and the vote proof in wire form.
pub type Ballot = (
    Vec<(CompressedPoint, Point)>,
    (Scalar, Vec<Scalar>),
    Vec<Point>,
    CompressedPoint,
    CompressedVoteProof,
);

/// The exponents of the points of a run of pairs.
pub open spec fn pair_exponents(pairs: Seq<(CompressedPoint, Point)>) -> Seq<nat> {
    Seq::new(pairs.len(), |i: int| pairs[i].1@)
}

/// Whether each pair holds a point and its own wire form.
pub open spec fn pairs_agree(pairs: Seq<(CompressedPoint, Point)>) -> bool {
    forall|i: int| 0 <= i < pairs.len() ==> encodes((#[trigger] pairs[i]).0@, pairs[i].1@)
}

/// Whether the ballot is the one that a voter with the generator `G`,
/// the dealer's `H` and keys makes for the vote `yes` from the polynomial
/// `f`, whose constant term is the blinding secret, the dealer's
/// randomizers `dw` and the vote proof's randomizers `w`, `d`, `r`.  The
/// dealing is made on a transcript that held `prefix`, the vote proof on
/// the clear transcript that the dealing leaves.
pub open spec fn is_ballot(
    ballot: Ballot,
    prefix: Seq<u8>,
    g: nat,
    h: nat,
    pks: Seq<nat>,
    f: Seq<nat>,
    dw: Seq<nat>,
    yes: bool,
    w: nat,
    d: nat,
    r: nat,
) -> bool {
    let dl = dealing(prefix, h, pks, f, dw);
    let u = encrypted_vote_of(g, f[0], yes);
    &&& pair_exponents(ballot.0@) == dl.0
    &&& pairs_agree(ballot.0@)
    &&& ballot.1.0@ == dl.1
    &&& values(ballot.1.1@) == dl.2
    &&& exponents(ballot.2@) == dl.3
    &&& encodes(ballot.3@, u)
    &&& wire_form_of(
        ballot.4,
        vote_proof_of(Seq::empty(), g, h, u, mul_mod(h, f[0]), f[0], yes, w, d, r),
    )
}

/// A voter: a dealer of blinding secrets with a vote to cast.
#[derive(Debug)]
pub struct Voter {
    pub dealer: Dealer,
    pub g: Point,
    pub vote: Option<Scalar>,
    pub encrypted_vote: Option<Point>,
}

impl Voter {
    /// The exponent of the generator `G`.
    pub open spec fn generator(&self) -> nat {
        self.g@
    }

    /// The vote that was generated last, as a scalar: one for yes, zero
    /// for no.
    pub open spec fn choice(&self) -> Option<nat> {
        match self.vote {
            Some(v) => Some(v@),
            None => None,
        }
    }

    /// Whether the vote that was generated last is yes.
    pub open spec fn voted_yes(&self) -> bool {
        self.choice() == Some(1nat)
    }

    /// The exponent of the encrypted vote that was generated last.
    pub open spec fn ciphertext(&self) -> Option<nat> {
        match self.encrypted_vote {
            Some(u) => Some(u@),
            None => None,
        }
    }

    /// A voter for the generators `G` and `H` and the parties with the
    /// given public keys.  What `Dealer::new` refuses is refused.
    pub fn new(g: &Point, h: &Point, n: usize, t: usize, public_keys: &[CompressedPoint]) -> (r: Result<
        Voter,
        Error,
    >)
        ensures
            match r {
                Ok(voter) => {
                    &&& Dealer::refusal(n, t, public_keys@) is None
                    &&& voter.generator() == g@
                    &&& voter.dealer.base() == h@
                    &&& voter.dealer.parties() == n
                    &&& voter.dealer.threshold() == t
                    &&& all_encode(public_keys@, voter.dealer.keys())
                    &&& voter.dealer.dealt() is None
                    &&& voter.choice() is None
                    &&& voter.ciphertext() is None
                },
                Err(e) => Dealer::refusal(n, t, public_keys@) == Some(e.kind),
            },
    {
        match Dealer::new(*h, n, t, public_keys) {
            Ok(dealer) => Ok(Voter { dealer, g: *g, vote: None, encrypted_vote: None }),
            Err(e) => Err(e),
        }
    }

    /// Sets the vote and encrypts it under the secret `s`: the encrypted
    /// vote is `G * (s + 1)` for yes and `G * s` for no.
    pub fn generate_vote(&mut self, s: &Scalar, choice: bool)
        ensures
            final(self).dealer == old(self).dealer,
            final(self).generator() == old(self).generator(),
            final(self).choice() == Some(if choice { 1nat } else { 0nat }),
            final(self).ciphertext() == Some(encrypted_vote_of(old(self).generator(), s@, choice)),
    {
        let v = if choice {
            Scalar::one()
        } else {
            Scalar::zero()
        };
        self.vote = Some(v);
        self.encrypted_vote = Some(self.g.mul(&s.add(&v)));
    }

    /// The vote proof for the generated vote under the secret `s` and the
    /// commitment `c0`, made with the randomizers `w`, `d` and `r`, in wire
    /// form.  The transcript is left clear.  A voter without a generated
    /// vote refuses with `UninitializedValue`.
    pub fn dleq_vote_with(
        &self,
        w: &Scalar,
        d: &Scalar,
        r: &Scalar,
        c0: &Point,
        s: &Scalar,
        transcript: &mut Transcript,
    ) -> (out: Result<CompressedVoteProof, Error>)
        ensures
            match out {
                Ok(proof) => {
                    &&& self.choice() is Some
                    &&& self.ciphertext() is Some
                    &&& wire_form_of(
                        proof,
                        vote_proof_of(
                            old(transcript)@,
                            self.generator(),
                            self.dealer.base(),
                            self.ciphertext().unwrap(),
                            c0@,
                            s@,
                            self.voted_yes(),
                            w@,
                            d@,
                            r@,
                        ),
                    )
                    &&& final(transcript).is_clear()
                },
                Err(e) => {
                    &&& e.kind == vote_missing(self.choice() is Some, self.ciphertext() is Some)
                    &&& self.choice() is None || self.ciphertext() is None
                    &&& *final(transcript) == *old(transcript)
                },
            },
    {
        let h = self.dealer.h();
        match (self.vote, self.encrypted_vote) {
            (Some(v), Some(u)) => {
                let yes = v.eq(&Scalar::one());
                let proof = prove_disjunction(DOMAIN.as_slice(), transcript, &self.g, &h, &u, c0, s, yes, w, d, r);
                Ok(
                    CompressedVoteProof {
                        a0: proof.a0.compress(),
                        a1: proof.a1.compress(),
                        b0: proof.b0.compress(),
                        b1: proof.b1.compress(),
                        d0: proof.d0,
                        d1: proof.d1,
                        r0: proof.r0,
                        r1: proof.r1,
                    },
                )
            },
            (None, None) => Err(Error::from_kind(ErrorKind::UninitializedValue("voter.{vote,encrypted_vote}"))),
            (None, _) => Err(Error::from_kind(ErrorKind::UninitializedValue("voter.vote"))),
            (_, None) => Err(Error::from_kind(ErrorKind::UninitializedValue("voter.encrypted_vote"))),
        }
    }

    /// The vote proof of `dleq_vote_with`, with randomizers drawn from the
    /// generator and zeroized after use.
    pub fn dleq_vote(&self, rng: &mut ChaCha20Rng, c0: &Point, s: &Scalar, transcript: &mut Transcript) -> (out:
        Result<CompressedVoteProof, Error>)
        ensures
            match out {
                Ok(proof) => {
                    &&& self.choice() is Some
                    &&& self.ciphertext() is Some
                    &&& exists|w: nat, d: nat, r: nat|
                        wire_form_of(
                            proof,
                            #[trigger] vote_proof_of(
                                old(transcript)@,
                                self.generator(),
                                self.dealer.base(),
                                self.ciphertext().unwrap(),
                                c0@,
                                s@,
                                self.voted_yes(),
                                w,
                                d,
                                r,
                            ),
                        )
                    &&& final(transcript).is_clear()
                },
                Err(e) => {
                    &&& e.kind == vote_missing(self.choice() is Some, self.ciphertext() is Some)
                    &&& self.choice() is None || self.ciphertext() is None
                    &&& *final(transcript) == *old(transcript)
                },
            },
    {
        let mut w = random_scalar(rng);
        let mut d = random_scalar(rng);
        let mut r = random_scalar(rng);
        let out = self.dleq_vote_with(&w, &d, &r, c0, s, transcript);
        let ghost drawn = (w@, d@, r@);
        w.zeroize();
        d.zeroize();
        r.zeroize();
        proof {
            if out is Ok {
                assert(wire_form_of(
                    out.unwrap(),
                    vote_proof_of(
                        old(transcript)@,
                        self.generator(),
                        self.dealer.base(),
                        self.ciphertext().unwrap(),
                        c0@,
                        s@,
                        self.voted_yes(),
                        drawn.0,
                        drawn.1,
                        drawn.2,
                    ),
                ));
            }
        }
        out
    }

    /// Casts the vote `choice` from given randomness: the polynomial `f`,
    /// whose constant term is the blinding secret, the dealer's randomizers
    /// `dealer_w`, and the vote proof's randomizers `w`, `d`, `r`.  The
    /// secret is dealt, the vote is encrypted under it and proved against
    /// the first commitment.  Refused with `CountMismatch` are a polynomial
    /// that has not `t + 1` coefficients and randomizers that do not count
    /// `n`; then nothing has changed.
    pub fn vote_with(
        &mut self,
        transcript: &mut Transcript,
        choice: bool,
        f: &Polynomial,
        dealer_w: &Vec<Scalar>,
        w: &Scalar,
        d: &Scalar,
        r: &Scalar,
    ) -> (out: Result<Ballot, Error>)
        ensures
            final(self).generator() == old(self).generator(),
            final(self).dealer.base() == old(self).dealer.base(),
            final(self).dealer.keys() == old(self).dealer.keys(),
            final(self).dealer.parties() == old(self).dealer.parties(),
            final(self).dealer.threshold() == old(self).dealer.threshold(),
            match out {
                Ok(ballot) => {
                    &&& f@.len() == old(self).dealer.threshold() + 1
                    &&& dealer_w@.len() == old(self).dealer.parties()
                    &&& is_ballot(
                        ballot,
                        old(transcript)@,
                        old(self).generator(),
                        old(self).dealer.base(),
                        old(self).dealer.keys(),
                        f@,
                        values(dealer_w@),
                        choice,
                        w@,
                        d@,
                        r@,
                    )
                    &&& final(transcript).is_clear()
                    &&& final(self).dealer.dealt() == Some(f@[0])
                    &&& final(self).choice() == Some(if choice { 1nat } else { 0nat })
                    &&& final(self).ciphertext() == Some(encrypted_vote_of(old(self).generator(), f@[0], choice))
                },
                Err(e) => {
                    &&& e.kind == (if f@.len() != old(self).dealer.threshold() + 1 {
                        ErrorKind::CountMismatch(
                            (old(self).dealer.threshold() + 1) as usize,
                            "coefficients",
                            f@.len() as usize,
                            "polynomial",
                        )
                    } else {
                        ErrorKind::CountMismatch(
                            old(self).dealer.parties() as usize,
                            "parties",
                            dealer_w@.len() as usize,
                            "randomizers",
                        )
                    })
                    &&& f@.len() != old(self).dealer.threshold() + 1 || dealer_w@.len() != old(
                        self,
                    ).dealer.parties()
                    &&& *final(self) == *old(self)
                    &&& *final(transcript) == *old(transcript)
                },
            },
    {
        let t = self.dealer.t();
        let n = self.dealer.n();
        if f.len() != t + 1 {
            return Err(Error::from_kind(ErrorKind::CountMismatch(t + 1, "coefficients", f.len(), "polynomial")));
        }
        if dealer_w.len() != n {
            return Err(Error::from_kind(ErrorKind::CountMismatch(n, "parties", dealer_w.len(), "randomizers")));
        }
        let s = match f.coef_at(0) {
            Some(s) => s,
            None => {
                proof {
                    // this arm is never taken
                    assert(false);
                }
                Scalar::zero()
            },
        };
        let ghost dl = dealing(
            old(transcript)@,
            old(self).dealer.base(),
            old(self).dealer.keys(),
            f@,
            values(dealer_w@),
        );
        match self.dealer.deal_polynomial(transcript, f, dealer_w) {
            Ok(dealt) => {
                let (wire_shares, share_proof, wire_commitments) = dealt;
                proof {
                    transcript.lemma_clear_is_empty();
                    assert(dl.3.len() == f@.len());
                    assert(dl.3[0] == mul_mod(old(self).dealer.base(), f@[0]));
                }
                let shares = match crate::utils::batch_decompress_ristretto_points(wire_shares.as_slice()) {
                    Ok(points) => points,
                    Err(e) => {
                        proof {
                            let k = choose|k: int| crate::utils::first_refused(wire_shares@, k);
                            assert(is_element(wire_shares@[k]@));
                            // this arm is never taken
                            assert(false);
                        }
                        return Err(e);
                    },
                };
                let commitments = match crate::utils::batch_decompress_ristretto_points(
                    wire_commitments.as_slice(),
                ) {
                    Ok(points) => points,
                    Err(e) => {
                        proof {
                            let k = choose|k: int| crate::utils::first_refused(wire_commitments@, k);
                            assert(is_element(wire_commitments@[k]@));
                            // this arm is never taken
                            assert(false);
                        }
                        return Err(e);
                    },
                };
                proof {
                    assert(exponents(commitments@) =~= dl.3);
                }
                let c0 = commitments[0];
                self.generate_vote(&s, choice);
                let vote_proof = match self.dleq_vote_with(w, d, r, &c0, &s, transcript) {
                    Ok(p) => p,
                    Err(e) => {
                        proof {
                            // this arm is never taken
                            assert(false);
                        }
                        return Err(e);
                    },
                };
                let mut pairs: Vec<(CompressedPoint, Point)> = Vec::new();
                let mut i: usize = 0;
                while i < shares.len()
                    invariant
                        i <= shares.len(),
                        shares@.len() == wire_shares@.len(),
                        all_encode(wire_shares@, dl.0),
                        forall|k: int|
                            0 <= k < shares@.len() ==> (#[trigger] shares@[k])@ == exponent_of(wire_shares@[k]@),
                        pairs@.len() == i,
                        forall|k: int|
                            0 <= k < i ==> (#[trigger] pairs@[k]).1@ == dl.0[k] && encodes(
                                pairs@[k].0@,
                                pairs@[k].1@,
                            ),
                    decreases shares.len() - i,
                {
                    pairs.push((wire_shares[i], shares[i]));
                    i += 1;
                }
                let encrypted_vote = match self.encrypted_vote {
                    Some(u) => u.compress(),
                    None => {
                        proof {
                            // this arm is never taken
                            assert(false);
                        }
                        return Err(Error::from_kind(ErrorKind::UninitializedValue("voter.encrypted_vote")));
                    },
                };
                proof {
                    assert(pair_exponents(pairs@) =~= dl.0);
                }
                Ok((pairs, share_proof, commitments, encrypted_vote, vote_proof))
            },
            Err(e) => {
                proof {
                    // this arm is never taken
                    assert(false);
                }
                Err(e)
            },
        }
    }

    /// Casts the vote `choice`: a blinding secret, the polynomial that
    /// shares it and all randomizers are drawn from the generator and
    /// zeroized after use.  What comes out is an honest ballot; made on a transcript that held
    /// nothing, it passes the check of encrypted shares and the check of
    /// the vote.
    pub fn vote(&mut self, rng: &mut ChaCha20Rng, transcript: &mut Transcript, choice: bool) -> (out: Result<
        Ballot,
        Error,
    >)
        ensures
            final(self).generator() == old(self).generator(),
            final(self).dealer.base() == old(self).dealer.base(),
            final(self).dealer.keys() == old(self).dealer.keys(),
            final(self).dealer.parties() == old(self).dealer.parties(),
            final(self).dealer.threshold() == old(self).dealer.threshold(),
            final(transcript).is_clear(),
            out is Ok,
            exists|f: Seq<nat>, dw: Seq<nat>, w: nat, d: nat, r: nat|
                {
                    &&& f.len() == old(self).dealer.threshold() + 1
                    &&& dw.len() == old(self).dealer.parties()
                    &&& #[trigger] is_ballot(
                        out.unwrap(),
                        old(transcript)@,
                        old(self).generator(),
                        old(self).dealer.base(),
                        old(self).dealer.keys(),
                        f,
                        dw,
                        choice,
                        w,
                        d,
                        r,
                    )
                    &&& final(self).dealer.dealt() == Some(f[0])
                    &&& final(self).ciphertext() == Some(encrypted_vote_of(old(self).generator(), f[0], choice))
                },
            final(self).choice() == Some(if choice { 1nat } else { 0nat }),
            old(transcript)@ == Seq::<u8>::empty() ==> ballot_accepted(
                out.unwrap(),
                old(self).generator(),
                old(self).dealer.base(),
                old(self).dealer.keys(),
            ),
    {
        let mut s = random_scalar(rng);
        let mut f = Polynomial::sample_set_f0(self.dealer.t(), rng, &s);
        let mut dealer_w = self.dealer.randomizers(rng);
        let mut w = random_scalar(rng);
        let mut d = random_scalar(rng);
        let mut r = random_scalar(rng);
        let out = self.vote_with(transcript, choice, &f, &dealer_w, &w, &d, &r);
        let ghost drawn = (f@, values(dealer_w@), w@, d@, r@);
        s.zeroize();
        f.zeroize();
        zeroize_all(&mut dealer_w);
        w.zeroize();
        d.zeroize();
        r.zeroize();
        proof {
            assert(out is Ok);
            use_type_invariant(&self.dealer);
            let _ = self.dealer.public_keys_len();
            if old(transcript)@ == Seq::<u8>::empty() {
                lemma_ballot_accepted(
                out.unwrap(),
                old(self).generator(),
                old(self).dealer.base(),
                old(self).dealer.keys(),
                drawn.0,
                drawn.1,
                choice,
                drawn.2,
                drawn.3,
                drawn.4,
            );
            }
        }
        out
    }

    /// `m` fresh voters for the same generators and parties: none has dealt
    /// or voted yet.  What `Dealer::new` refuses is refused.
    pub fn generate_voters(
        g: &Point,
        h: &Point,
        m: usize,
        n: usize,
        t: usize,
        public_keys: &[CompressedPoint],
    ) -> (r: Result<Vec<Voter>, Error>)
        ensures
            match r {
                Ok(voters) => {
                    &&& m > 0 ==> Dealer::refusal(n, t, public_keys@) is None
                    &&& voters@.len() == m
                    &&& forall|i: int|
                        0 <= i < m ==> {
                            let v = #[trigger] voters@[i];
                            &&& v.generator() == g@
                            &&& v.dealer.base() == h@
                            &&& v.dealer.parties() == n
                            &&& v.dealer.threshold() == t
                            &&& v.dealer.dealt() is None
                            &&& v.choice() is None
                            &&& v.ciphertext() is None
                            &&& all_encode(public_keys@, v.dealer.keys())
                        }
                },
                Err(e) => m > 0 && Dealer::refusal(n, t, public_keys@) == Some(e.kind),
            },
    {
        let mut voters: Vec<Voter> = Vec::new();
        let mut i: usize = 0;
        while i < m
            invariant
                i <= m,
                voters@.len() == i,
                i > 0 ==> Dealer::refusal(n, t, public_keys@) is None,
                forall|k: int|
                    0 <= k < i ==> {
                        let v = #[trigger] voters@[k];
                        &&& v.generator() == g@
                        &&& v.dealer.base() == h@
                        &&& v.dealer.parties() == n
                        &&& v.dealer.threshold() == t
                        &&& v.dealer.dealt() is None
                        &&& v.choice() is None
                        &&& v.ciphertext() is None
                        &&& all_encode(public_keys@, v.dealer.keys())
                    },
            decreases m - i,
        {
            match Voter::new(g, h, n, t, public_keys) {
                Ok(voter) => {
                    voters.push(voter);
                },
                Err(e) => {
                    return Err(e);
                },
            }
            i += 1;
        }
        Ok(voters)
    }
}

/// Whether the ballot passes both public checks, each on a transcript that
/// held nothing: the dealer's proof is accepted for its encrypted shares
/// and commitments, and the vote proof is accepted for its encrypted vote
/// against the first commitment.
pub open spec fn ballot_accepted(ballot: Ballot, g: nat, h: nat, pks: Seq<nat>) -> bool {
    &&& shares_accepted(
        Seq::empty(),
        h,
        pair_exponents(ballot.0@),
        pks,
        exponents(ballot.2@),
        ballot.1.0@,
        values(ballot.1.1@),
    )
    &&& exists|u: nat, p: VoteProofView|
        {
            &&& encodes(ballot.3@, u)
            &&& wire_form_of(ballot.4, p)
            &&& #[trigger] vote_accepted(Seq::empty(), g, h, u, exponents(ballot.2@)[0], p)
        }
}

/// An honest ballot is accepted: whatever the polynomial and the
/// randomizers, a ballot made on a transcript that held nothing passes the
/// check of encrypted shares and the check of the vote.
pub proof fn lemma_ballot_accepted(
    ballot: Ballot,
    g: nat,
    h: nat,
    pks: Seq<nat>,
    f: Seq<nat>,
    dw: Seq<nat>,
    yes: bool,
    w: nat,
    d: nat,
    r: nat,
)
    requires
        is_ballot(ballot, Seq::empty(), g, h, pks, f, dw, yes, w, d, r),
        f.len() > 0,
        dw.len() == pks.len(),
    ensures
        ballot_accepted(ballot, g, h, pks),
{
    lemma_honest_dealing_accepted(Seq::empty(), h, pks, f, dw);
    lemma_honest_vote_accepted(Seq::empty(), g, h, f[0], yes, w, d, r);
    let u = encrypted_vote_of(g, f[0], yes);
    let p = vote_proof_of(Seq::empty(), g, h, u, mul_mod(h, f[0]), f[0], yes, w, d, r);
    let dl = dealing(Seq::empty(), h, pks, f, dw);
    assert(dl.3[0] == mul_mod(h, f[0]));
    assert(vote_accepted(Seq::empty(), g, h, u, exponents(ballot.2@)[0], p));
}

/// What the vote proof lacks when the vote or its encryption was not
/// generated.
pub open spec fn vote_missing(has_vote: bool, has_encrypted_vote: bool) -> ErrorKind {
    if !has_vote && !has_encrypted_vote {
        ErrorKind::UninitializedValue("voter.{vote,encrypted_vote}")
    } else if !has_vote {
        ErrorKind::UninitializedValue("voter.vote")
    } else {
        ErrorKind::UninitializedValue("voter.encrypted_vote")
    }
}

} // verus!
