//! A party (tallier): holds a key pair, checks the dealer, decrypts its
//! share and proves the decryption, checks the other parties' decryptions
//! and reconstructs the secret in the exponent.

use crate::error::{Error, ErrorKind};
use crate::field::{inv_mod, mul_mod};
use crate::parallel::par_map;
use crate::point::{copy_points, encodes, exponents, CompressedPoint, Point};
use crate::random::random_scalar;
use crate::scalar::{copy_scalars, values, Scalar};
use crate::schoenmakers::utils::{shares_accepted, verify_encrypted_shares_standalone, DOMAIN};
use crate::dleq::{accepting_indices, check_dleq, dleq_accepted, dleq_proof, increasing_below, prove_dleq};
use crate::transcript::Transcript;
use crate::utils::{batch_refusal, choose_weights, combine_shares, combined, decoded, decompress_counted};
use crate::utils::{covering, pessimistic_weights};
use rand_chacha::ChaCha20Rng;
use vstd::prelude::*;

verus! {

/// What a party holds, as numbers: the exponents of its points and the
/// integers of its scalars.
pub struct PartyView {
    pub g: nat,
    pub h: nat,
    pub private_key: nat,
    pub public_key: nat,
    pub index: nat,
    pub n: nat,
    pub t: nat,
    pub share_proof: Option<(nat, nat)>,
    pub decrypted_share: Option<nat>,
    pub dealer_commitments: Option<Seq<nat>>,
    pub dealer_proof: Option<(nat, Seq<nat>)>,
    pub public_keys: Option<Seq<nat>>,
    pub encrypted_shares: Option<Seq<nat>>,
    pub decrypted_shares: Option<Seq<nat>>,
    pub share_proofs: Option<Seq<(nat, nat)>>,
    pub validated_shares: Seq<usize>,
}

/// The pairs of integers that a sequence of share proofs stands for.
pub open spec fn proof_values(proofs: Seq<(Scalar, Scalar)>) -> Seq<(nat, nat)> {
    Seq::new(proofs.len(), |i: int| (proofs[i].0@, proofs[i].1@))
}

/// The exponents of an optional run of points.
pub open spec fn optional_exponents(points: Option<Vec<Point>>) -> Option<Seq<nat>> {
    match points {
        Some(v) => Some(exponents(v@)),
        None => None,
    }
}

/// A party of a sharing among `n` with threshold `t`, at place `index`.
#[derive(Debug)]
pub struct Party {
    g: Point,
    h: Point,
    private_key: Scalar,
    public_key: Point,
    index: usize,
    n: usize,
    t: usize,
    share_proof: Option<(Scalar, Scalar)>,
    decrypted_share: Option<Point>,
    dealer_commitments: Option<Vec<Point>>,
    dealer_proof: Option<(Scalar, Vec<Scalar>)>,
    public_keys: Option<Vec<Point>>,
    encrypted_shares: Option<Vec<Point>>,
    decrypted_shares: Option<Vec<Point>>,
    share_proofs: Option<Vec<(Scalar, Scalar)>>,
    validated_shares: Vec<usize>,
}

impl View for Party {
    type V = PartyView;

    closed spec fn view(&self) -> PartyView {
        PartyView {
            g: self.g@,
            h: self.h@,
            private_key: self.private_key@,
            public_key: self.public_key@,
            index: self.index as nat,
            n: self.n as nat,
            t: self.t as nat,
            share_proof: match self.share_proof {
                Some(p) => Some((p.0@, p.1@)),
                None => None,
            },
            decrypted_share: match self.decrypted_share {
                Some(p) => Some(p@),
                None => None,
            },
            dealer_commitments: optional_exponents(self.dealer_commitments),
            dealer_proof: match self.dealer_proof {
                Some(p) => Some((p.0@, values(p.1@))),
                None => None,
            },
            public_keys: optional_exponents(self.public_keys),
            encrypted_shares: optional_exponents(self.encrypted_shares),
            decrypted_shares: optional_exponents(self.decrypted_shares),
            share_proofs: match self.share_proofs {
                Some(v) => Some(proof_values(v@)),
                None => None,
            },
            validated_shares: self.validated_shares@,
        }
    }
}

/// What holds of every party: the parameters fit, the public key belongs to
/// the private key, and whatever was ingested has the length that the
/// parameters ask for.
pub open spec fn party_valid(p: PartyView) -> bool {
    &&& 1 <= p.index <= p.n
    &&& p.n == 2 * p.t + 1
    &&& p.n <= usize::MAX
    &&& p.public_key == mul_mod(p.g, p.private_key)
    &&& p.dealer_commitments is Some ==> p.dealer_commitments.unwrap().len() == p.t + 1
    &&& p.dealer_proof is Some ==> p.dealer_proof.unwrap().1.len() == p.n && p.dealer_proof.unwrap().0 != 0
    &&& p.public_keys is Some ==> p.public_keys.unwrap().len() == p.n
    &&& p.encrypted_shares is Some ==> p.encrypted_shares.unwrap().len() == p.n
    &&& p.decrypted_shares is Some ==> p.decrypted_shares.unwrap().len() == p.n
    &&& p.share_proofs is Some ==> p.share_proofs.unwrap().len() == p.n
    &&& increasing_below(p.validated_shares, p.n)
}

/// Whether the party is fresh: nothing was ingested, decrypted, proved or
/// validated yet.
pub open spec fn party_fresh(p: PartyView) -> bool {
    &&& p.share_proof is None
    &&& p.decrypted_share is None
    &&& p.dealer_commitments is None
    &&& p.dealer_proof is None
    &&& p.public_keys is None
    &&& p.encrypted_shares is None
    &&& p.decrypted_shares is None
    &&& p.share_proofs is None
    &&& p.validated_shares.len() == 0
}

/// Whether `n`, `t` and `index` fit together: `n = 2t + 1` and
/// `1 <= index <= n`.
pub open spec fn parameters_fit(n: usize, t: usize, index: usize) -> bool {
    n == 2 * t + 1 && 1 <= index <= n
}

/// A copy of an optional run of points.
fn copy_optional_points(points: &Option<Vec<Point>>) -> (r: Option<Vec<Point>>)
    ensures
        optional_exponents(r) == optional_exponents(*points),
{
    match points {
        Some(v) => Some(copy_points(v)),
        None => None,
    }
}

/// A copy of a run of share proofs.
fn copy_proofs(proofs: &Vec<(Scalar, Scalar)>) -> (r: Vec<(Scalar, Scalar)>)
    ensures
        r@ == proofs@,
{
    let mut out: Vec<(Scalar, Scalar)> = Vec::new();
    let mut i: usize = 0;
    while i < proofs.len()
        invariant
            i <= proofs.len(),
            out@ == proofs@.subrange(0, i as int),
        decreases proofs.len() - i,
    {
        out.push(proofs[i]);
        proof {
            assert(out@ =~= proofs@.subrange(0, i + 1));
        }
        i += 1;
    }
    proof {
        assert(out@ =~= proofs@);
    }
    out
}

/// A copy of a run of indices.
fn copy_indices(indices: &Vec<usize>) -> (r: Vec<usize>)
    ensures
        r@ == indices@,
{
    let mut out: Vec<usize> = Vec::new();
    let mut i: usize = 0;
    while i < indices.len()
        invariant
            i <= indices.len(),
            out@ == indices@.subrange(0, i as int),
        decreases indices.len() - i,
    {
        out.push(indices[i]);
        proof {
            assert(out@ =~= indices@.subrange(0, i + 1));
        }
        i += 1;
    }
    proof {
        assert(out@ =~= indices@);
    }
    out
}

impl Clone for Party {
    fn clone(&self) -> (r: Self)
        ensures
            r@ == self@,
    {
        proof {
            use_type_invariant(self);
        }
        Party {
            g: self.g,
            h: self.h,
            private_key: self.private_key,
            public_key: self.public_key,
            index: self.index,
            n: self.n,
            t: self.t,
            share_proof: self.share_proof,
            decrypted_share: self.decrypted_share,
            dealer_commitments: copy_optional_points(&self.dealer_commitments),
            dealer_proof: match &self.dealer_proof {
                Some(p) => Some((p.0, copy_scalars(&p.1))),
                None => None,
            },
            public_keys: copy_optional_points(&self.public_keys),
            encrypted_shares: copy_optional_points(&self.encrypted_shares),
            decrypted_shares: copy_optional_points(&self.decrypted_shares),
            share_proofs: match &self.share_proofs {
                Some(v) => Some(copy_proofs(v)),
                None => None,
            },
            validated_shares: copy_indices(&self.validated_shares),
        }
    }
}

impl Party {
    #[verifier::type_invariant]
    pub open spec fn well_formed(&self) -> bool {
        party_valid(self@)
    }

    /// A party with the given private key.  Parameters that do not fit are
    /// refused with `InvalidParameterSet`.
    pub fn with_private_key(g: Point, h: Point, private_key: Scalar, n: usize, t: usize, index: usize) -> (r:
        Result<Party, Error>)
        ensures
            match r {
                Ok(party) => parameters_fit(n, t, index) && party_valid(party@) && party@ == (PartyView {
                    g: g@,
                    h: h@,
                    private_key: private_key@,
                    public_key: mul_mod(g@, private_key@),
                    index: index as nat,
                    n: n as nat,
                    t: t as nat,
                    share_proof: None,
                    decrypted_share: None,
                    dealer_commitments: None,
                    dealer_proof: None,
                    public_keys: None,
                    encrypted_shares: None,
                    decrypted_shares: None,
                    share_proofs: None,
                    validated_shares: Seq::empty(),
                }),
                Err(e) => !parameters_fit(n, t, index) && e.kind == ErrorKind::InvalidParameterSet(n, t, index),
            },
    {
        let public_key = g.mul(&private_key);
        if 1 <= index && index <= n && t <= (usize::MAX - 1) / 2 && n == 2 * t + 1 {
            let party = Party {
                g,
                h,
                private_key,
                public_key,
                index,
                n,
                t,
                share_proof: None,
                decrypted_share: None,
                dealer_commitments: None,
                dealer_proof: None,
                public_keys: None,
                encrypted_shares: None,
                decrypted_shares: None,
                share_proofs: None,
                validated_shares: Vec::new(),
            };
            proof {
                assert(party@.validated_shares =~= Seq::empty());
            }
            Ok(party)
        } else {
            Err(Error::from_kind(ErrorKind::InvalidParameterSet(n, t, index)))
        }
    }

    /// A party with a private key drawn from the generator.  Parameters
    /// that do not fit are refused with `InvalidParameterSet`.
    pub fn new(g: Point, h: Point, rng: &mut ChaCha20Rng, n: usize, t: usize, index: usize) -> (r: Result<
        Party,
        Error,
    >)
        ensures
            match r {
                Ok(party) => {
                    &&& parameters_fit(n, t, index)
                    &&& party_valid(party@)
                    &&& party@.g == g@
                    &&& party@.h == h@
                    &&& party@.index == index
                    &&& party@.n == n
                    &&& party@.t == t
                    &&& party@.public_keys is None
                    &&& party@.encrypted_shares is None
                    &&& party@.dealer_commitments is None
                    &&& party@.dealer_proof is None
                    &&& party@.decrypted_share is None
                    &&& party@.share_proof is None
                    &&& party@.decrypted_shares is None
                    &&& party@.share_proofs is None
                    &&& party@.validated_shares.len() == 0
                },
                Err(e) => !parameters_fit(n, t, index) && e.kind == ErrorKind::InvalidParameterSet(n, t, index),
            },
    {
        let private_key = random_scalar(rng);
        Party::with_private_key(g, h, private_key, n, t, index)
    }

    /// Takes in the public keys of the other `n - 1` parties, in the order
    /// of their places, and puts the party's own key at its place among
    /// them.  Refused are a count other than `n - 1` and a key that is no
    /// group element.
    pub fn ingest_public_keys(&mut self, public_keys: &[CompressedPoint]) -> (r: Result<(), Error>)
        ensures
            match r {
                Ok(()) => {
                    &&& batch_refusal(public_keys@, (old(self)@.n - 1) as usize, "other parties", "public_keys")
                        is None
                    &&& final(self)@ == (PartyView {
                        public_keys: Some(
                            decoded(public_keys@).insert(old(self)@.index - 1, old(self)@.public_key),
                        ),
                        ..old(self)@
                    })
                },
                Err(e) => {
                    &&& batch_refusal(public_keys@, (old(self)@.n - 1) as usize, "other parties", "public_keys")
                        == Some(e.kind)
                    &&& final(self)@ == old(self)@
                },
            },
    {
        proof {
            use_type_invariant(&*self);
        }
        match decompress_counted(public_keys, self.n - 1, "other parties", "public_keys") {
            Ok(mut pks) => {
                pks.insert(self.index - 1, self.public_key);
                proof {
                    assert(exponents(pks@) =~= decoded(public_keys@).insert(
                        self@.index - 1,
                        self@.public_key,
                    ));
                }
                self.public_keys = Some(pks);
                Ok(())
            },
            Err(e) => Err(e),
        }
    }

    /// Takes in the dealer's `n` encrypted shares.  Refused are a count
    /// other than `n` and a share that is no group element.
    pub fn ingest_encrypted_shares(&mut self, encrypted_shares: &[CompressedPoint]) -> (r: Result<(), Error>)
        ensures
            match r {
                Ok(()) => {
                    &&& batch_refusal(encrypted_shares@, old(self)@.n as usize, "parties", "encrypted shares")
                        is None
                    &&& final(self)@ == (PartyView {
                        encrypted_shares: Some(decoded(encrypted_shares@)),
                        ..old(self)@
                    })
                },
                Err(e) => {
                    &&& batch_refusal(encrypted_shares@, old(self)@.n as usize, "parties", "encrypted shares")
                        == Some(e.kind)
                    &&& final(self)@ == old(self)@
                },
            },
    {
        proof {
            use_type_invariant(&*self);
        }
        match decompress_counted(encrypted_shares, self.n, "parties", "encrypted shares") {
            Ok(shares) => {
                self.encrypted_shares = Some(shares);
                Ok(())
            },
            Err(e) => Err(e),
        }
    }

    /// Takes in the dealer's `t + 1` commitments.  Refused are a count other
    /// than `t + 1` and a commitment that is no group element.
    pub fn ingest_commitments(&mut self, dealer_commitments: &[CompressedPoint]) -> (r: Result<(), Error>)
        ensures
            match r {
                Ok(()) => {
                    &&& batch_refusal(
                        dealer_commitments@,
                        (old(self)@.t + 1) as usize,
                        "coefficients",
                        "commitments",
                    ) is None
                    &&& final(self)@ == (PartyView {
                        dealer_commitments: Some(decoded(dealer_commitments@)),
                        ..old(self)@
                    })
                },
                Err(e) => {
                    &&& batch_refusal(
                        dealer_commitments@,
                        (old(self)@.t + 1) as usize,
                        "coefficients",
                        "commitments",
                    ) == Some(e.kind)
                    &&& final(self)@ == old(self)@
                },
            },
    {
        proof {
            use_type_invariant(&*self);
        }
        match decompress_counted(dealer_commitments, self.t + 1, "coefficients", "commitments") {
            Ok(commitments) => {
                self.dealer_commitments = Some(commitments);
                Ok(())
            },
            Err(e) => Err(e),
        }
    }

    /// Takes in the dealer's proof `(d, z)`.  Refused as `InvalidProof` are
    /// a challenge `d` of zero and responses that do not count `n`.
    pub fn ingest_dealer_proof(&mut self, d: Scalar, z: Vec<Scalar>) -> (r: Result<(), Error>)
        ensures
            match r {
                Ok(()) => {
                    &&& d@ != 0
                    &&& z@.len() == old(self)@.n
                    &&& final(self)@ == (PartyView { dealer_proof: Some((d@, values(z@))), ..old(self)@ })
                },
                Err(e) => {
                    &&& final(self)@ == old(self)@
                    &&& e.kind == (if d@ == 0 {
                        ErrorKind::InvalidProof("d == 0")
                    } else {
                        ErrorKind::InvalidProof("z length")
                    })
                    &&& d@ == 0 || z@.len() != old(self)@.n
                },
            },
    {
        proof {
            use_type_invariant(&*self);
        }
        if d.is_zero() {
            Err(Error::from_kind(ErrorKind::InvalidProof("d == 0")))
        } else if z.len() != self.n {
            Err(Error::from_kind(ErrorKind::InvalidProof("z length")))
        } else {
            self.dealer_proof = Some((d, z));
            Ok(())
        }
    }

    /// Takes in the decrypted shares and decryption proofs of the other
    /// `n - 1` parties, in the order of their places, and puts the party's
    /// own share and proof at its place among them.  Refused are, in this
    /// order: shares or proofs that do not count `n - 1`, a share that is no
    /// group element, and a party that has not yet decrypted and proved its
    /// own share.
    pub fn ingest_decrypted_shares_and_proofs(
        &mut self,
        decrypted_shares: &[CompressedPoint],
        proofs: Vec<(Scalar, Scalar)>,
    ) -> (r: Result<(), Error>)
        ensures
            match r {
                Ok(()) => {
                    &&& decrypted_refusal(old(self)@, decrypted_shares@, proofs@.len()) is None
                    &&& final(self)@ == (PartyView {
                        decrypted_shares: Some(
                            decoded(decrypted_shares@).insert(
                                old(self)@.index - 1,
                                old(self)@.decrypted_share.unwrap(),
                            ),
                        ),
                        share_proofs: Some(
                            proof_values(proofs@).insert(old(self)@.index - 1, old(self)@.share_proof.unwrap()),
                        ),
                        ..old(self)@
                    })
                },
                Err(e) => {
                    &&& decrypted_refusal(old(self)@, decrypted_shares@, proofs@.len()) == Some(e.kind)
                    &&& final(self)@ == old(self)@
                },
            },
    {
        proof {
            use_type_invariant(&*self);
        }
        if decrypted_shares.len() != self.n - 1 {
            return Err(
                Error::from_kind(
                    ErrorKind::CountMismatch(
                        self.n - 1,
                        "other parties",
                        decrypted_shares.len(),
                        "decrypted shares",
                    ),
                ),
            );
        }
        if proofs.len() != decrypted_shares.len() {
            return Err(
                Error::from_kind(
                    ErrorKind::CountMismatch(decrypted_shares.len(), "decrypted shares", proofs.len(), "proofs"),
                ),
            );
        }
        match decompress_counted(decrypted_shares, self.n - 1, "other parties", "decrypted shares") {
            Ok(mut dec_shares) => match (self.decrypted_share, self.share_proof) {
                (Some(own_dec_share), Some(own_proof)) => {
                    dec_shares.insert(self.index - 1, own_dec_share);
                    let mut proofs = proofs;
                    let ghost received = proofs@;
                    proofs.insert(self.index - 1, own_proof);
                    proof {
                        assert(exponents(dec_shares@) =~= decoded(decrypted_shares@).insert(
                            self@.index - 1,
                            own_dec_share@,
                        ));
                        assert(proof_values(proofs@) =~= proof_values(received).insert(
                            self@.index - 1,
                            (own_proof.0@, own_proof.1@),
                        ));
                    }
                    self.decrypted_shares = Some(dec_shares);
                    self.share_proofs = Some(proofs);
                    Ok(())
                },
                (None, Some(_)) => Err(Error::from_kind(ErrorKind::UninitializedValue("party.decrypted_share"))),
                (Some(_), None) => Err(Error::from_kind(ErrorKind::UninitializedValue("party.share_proof"))),
                (None, None) => Err(
                    Error::from_kind(ErrorKind::UninitializedValue("party.{decrypted_share, share_proof}")),
                ),
            },
            Err(e) => Err(e),
        }
    }

    /// Checks the dealer's proof against the ingested shares, keys and
    /// commitments.  A party that lacks one of them refuses with
    /// `UninitializedValue`.  The transcript is left clear.
    pub fn verify_encrypted_shares(&self, transcript: &mut Transcript) -> (r: Result<bool, Error>)
        ensures
            match r {
                Ok(accepted) => {
                    &&& dealer_check_missing(self@) is None
                    &&& accepted == shares_accepted(
                        old(transcript)@,
                        self@.h,
                        self@.encrypted_shares.unwrap(),
                        self@.public_keys.unwrap(),
                        self@.dealer_commitments.unwrap(),
                        self@.dealer_proof.unwrap().0,
                        self@.dealer_proof.unwrap().1,
                    )
                    &&& final(transcript).is_clear()
                },
                Err(e) => {
                    &&& dealer_check_missing(self@) == Some(e.kind)
                    &&& *final(transcript) == *old(transcript)
                },
            },
    {
        proof {
            use_type_invariant(self);
        }
        match (&self.dealer_proof, &self.dealer_commitments) {
            (Some(proof_pair), Some(dealer_commitments)) => {
                match (&self.encrypted_shares, &self.public_keys) {
                    (Some(encrypted_shares), Some(public_keys)) => {
                        let out = verify_encrypted_shares_standalone(
                            &self.h,
                            transcript,
                            encrypted_shares,
                            public_keys,
                            dealer_commitments,
                            (&proof_pair.0, &proof_pair.1),
                            self.n,
                            self.t,
                        );
                        match out {
                            Ok(accepted) => Ok(accepted),
                            Err(e) => {
                                proof {
                                    // this arm is never taken
                                    assert(false);
                                }
                                Err(e)
                            },
                        }
                    },
                    (Some(_), None) => Err(Error::from_kind(ErrorKind::UninitializedValue("party.public_keys"))),
                    (None, Some(_)) => Err(
                        Error::from_kind(ErrorKind::UninitializedValue("party.encrypted_shares")),
                    ),
                    (None, None) => Err(
                        Error::from_kind(ErrorKind::UninitializedValue("party.{encrypted_shares, public_keys}")),
                    ),
                }
            },
            (Some(_), None) => Err(Error::from_kind(ErrorKind::UninitializedValue("party.dealer_commitments"))),
            (None, Some(_)) => Err(Error::from_kind(ErrorKind::UninitializedValue("party.dealer_proof"))),
            (None, None) => Err(
                Error::from_kind(ErrorKind::UninitializedValue("party.{dealer_proof, dealer_commitments}")),
            ),
        }
    }

    /// Decrypts the party's own share: the encrypted share at its place,
    /// multiplied by the inverse of the private key, which is zeroized after
    /// use.  A party without encrypted shares refuses with
    /// `UninitializedValue`.
    pub fn decrypt_share(&mut self) -> (r: Result<(), Error>)
        ensures
            match r {
                Ok(()) => {
                    &&& old(self)@.encrypted_shares is Some
                    &&& final(self)@ == (PartyView {
                        decrypted_share: Some(
                            mul_mod(
                                old(self)@.encrypted_shares.unwrap()[old(self)@.index - 1],
                                inv_mod(old(self)@.private_key),
                            ),
                        ),
                        ..old(self)@
                    })
                },
                Err(e) => {
                    &&& old(self)@.encrypted_shares is None
                    &&& e.kind == ErrorKind::UninitializedValue("party.encrypted_share")
                    &&& final(self)@ == old(self)@
                },
            },
    {
        proof {
            use_type_invariant(&*self);
        }
        let mut inv_private_key = self.private_key.invert();
        match &self.encrypted_shares {
            Some(encrypted_shares) => {
                let share = encrypted_shares[self.index - 1].mul(&inv_private_key);
                inv_private_key.zeroize();
                self.decrypted_share = Some(share);
                Ok(())
            },
            None => {
                inv_private_key.zeroize();
                Err(Error::from_kind(ErrorKind::UninitializedValue("party.encrypted_share")))
            },
        }
    }

    /// Proves, with the randomizer `r`, that the decrypted share relates to
    /// the encrypted share as the generator to the public key.  The proof
    /// `(d, z)` is kept; the transcript is left clear.  A party that has not
    /// decrypted, or has no encrypted shares, refuses with
    /// `UninitializedValue`.
    pub fn dleq_share_with(&mut self, r: &Scalar, transcript: &mut Transcript) -> (out: Result<(), Error>)
        ensures
            match out {
                Ok(()) => {
                    &&& share_proof_missing(old(self)@) is None
                    &&& final(self)@ == (PartyView {
                        share_proof: Some(own_decryption_proof(old(self)@, old(transcript)@, r@)),
                        ..old(self)@
                    })
                    &&& final(transcript).is_clear()
                },
                Err(e) => {
                    &&& share_proof_missing(old(self)@) == Some(e.kind)
                    &&& final(self)@ == old(self)@
                    &&& *final(transcript) == *old(transcript)
                },
            },
    {
        proof {
            use_type_invariant(&*self);
        }
        match (&self.decrypted_share, &self.encrypted_shares) {
            (Some(decrypted_share), Some(encrypted_shares)) => {
                let encrypted_share = &encrypted_shares[self.index - 1];
                let made = prove_dleq(
                    DOMAIN.as_slice(),
                    transcript,
                    &self.g,
                    &self.private_key,
                    &self.public_key,
                    encrypted_share,
                    decrypted_share,
                    r,
                );
                self.share_proof = Some(made);
                Ok(())
            },
            (None, Some(_)) => Err(Error::from_kind(ErrorKind::UninitializedValue("party.decrypted_share"))),
            (Some(_), None) => Err(Error::from_kind(ErrorKind::UninitializedValue("party.encrypted_shares"))),
            (None, None) => Err(
                Error::from_kind(ErrorKind::UninitializedValue("party.{decrypted_share, encrypted_shares}")),
            ),
        }
    }

    /// The proof of `dleq_share_with`, with a randomizer drawn from the
    /// generator and zeroized after use.
    pub fn dleq_share(&mut self, rng: &mut ChaCha20Rng, transcript: &mut Transcript) -> (out: Result<(), Error>)
        ensures
            match out {
                Ok(()) => {
                    &&& share_proof_missing(old(self)@) is None
                    &&& exists|r: nat|
                        final(self)@ == (PartyView {
                            share_proof: Some(#[trigger] own_decryption_proof(old(self)@, old(transcript)@, r)),
                            ..old(self)@
                        })
                    &&& final(transcript).is_clear()
                },
                Err(e) => {
                    &&& share_proof_missing(old(self)@) == Some(e.kind)
                    &&& final(self)@ == old(self)@
                    &&& *final(transcript) == *old(transcript)
                },
            },
    {
        let mut r = random_scalar(rng);
        let out = self.dleq_share_with(&r, transcript);
        let ghost drawn = r@;
        r.zeroize();
        proof {
            if out is Ok {
                assert(self@ == (PartyView {
                    share_proof: Some(own_decryption_proof(old(self)@, old(transcript)@, drawn)),
                    ..old(self)@
                }));
            }
        }
        out
    }

    /// Whether the decryption of the party at index `j` is accepted by the
    /// proof that came with it.
    fn check_decryption(
        &self,
        public_key: &Point,
        encrypted_share: &Point,
        decrypted_share: &Point,
        proof_pair: &(Scalar, Scalar),
    ) -> (r: bool)
        ensures
            r == decryption_accepted(
                self@.g,
                public_key@,
                encrypted_share@,
                decrypted_share@,
                proof_pair.0@,
                proof_pair.1@,
            ),
    {
        check_dleq(DOMAIN.as_slice(), &self.g, public_key, encrypted_share, decrypted_share, proof_pair)
    }

    /// Checks the decryptions of all parties and keeps, in increasing order,
    /// the indices of those that are accepted; the party's own share counts
    /// as accepted.  The result tells whether at least `t + 1` were.  The
    /// checks run in parallel, each on a transcript of its own.  A party
    /// that lacks keys, encrypted shares, decrypted shares or proofs refuses
    /// with `UninitializedValue`.
    pub fn verify_decrypted_shares(&mut self) -> (r: Result<bool, Error>)
        ensures
            match r {
                Ok(enough) => {
                    &&& decryption_check_missing(old(self)@) is None
                    &&& final(self)@ == (PartyView {
                        validated_shares: final(self)@.validated_shares,
                        ..old(self)@
                    })
                    &&& increasing_below(final(self)@.validated_shares, old(self)@.n)
                    &&& forall|j: int|
                        0 <= j < old(self)@.n ==> (final(self)@.validated_shares.contains(j as usize)
                            <==> share_counts(old(self)@, j))
                    &&& enough == (final(self)@.validated_shares.len() >= old(self)@.t + 1)
                },
                Err(e) => {
                    &&& decryption_check_missing(old(self)@) == Some(e.kind)
                    &&& final(self)@ == old(self)@
                },
            },
    {
        proof {
            use_type_invariant(&*self);
        }
        match (&self.public_keys, &self.encrypted_shares) {
            (Some(public_keys), Some(enc_shares)) => {
                match (&self.decrypted_shares, &self.share_proofs) {
                    (Some(dec_shares), Some(proofs)) => {
                        let n = self.n;
                        let own = self.index - 1;
                        let task = |j: usize| -> (r: bool)
                            requires
                                j < n,
                            ensures
                                r == share_counts(self@, j as int),
                            {
                                j == own || self.check_decryption(
                                    &public_keys[j],
                                    &enc_shares[j],
                                    &dec_shares[j],
                                    &proofs[j],
                                )
                            };
                        let verdicts = par_map(n, task);
                        proof {
                            assert forall|k: int| 0 <= k < n implies #[trigger] verdicts@[k] == share_counts(
                                self@,
                                k,
                            ) by {
                                let at = k as usize;
                                assert(call_ensures(task, (at,), verdicts@[at as int]));
                            }
                        }
                        let validated = accepting_indices(&verdicts);
                        let enough = validated.len() >= self.t + 1;
                        let ghost kept = validated@;
                        proof {
                            assert(increasing_below(kept, old(self)@.n));
                            assert forall|j: int| 0 <= j < old(self)@.n implies (kept.contains(j as usize)
                                <==> share_counts(old(self)@, j)) by {
                                assert(verdicts@[j] == share_counts(old(self)@, j));
                            }
                        }
                        self.validated_shares = validated;
                        proof {
                            assert(self@.validated_shares == kept);
                            assert(self@ == (PartyView { validated_shares: kept, ..old(self)@ }));
                        }
                        Ok(enough)
                    },
                    (None, Some(_)) => Err(
                        Error::from_kind(ErrorKind::UninitializedValue("party.decrypted_shares")),
                    ),
                    (Some(_), None) => Err(Error::from_kind(ErrorKind::UninitializedValue("party.share_proofs"))),
                    (None, None) => Err(
                        Error::from_kind(ErrorKind::UninitializedValue("party.{decrypted_shares, share_proofs}")),
                    ),
                }
            },
            (None, Some(_)) => Err(Error::from_kind(ErrorKind::UninitializedValue("party.public_keys"))),
            (Some(_), None) => Err(Error::from_kind(ErrorKind::UninitializedValue("party.encrypted_shares"))),
            (None, None) => Err(
                Error::from_kind(ErrorKind::UninitializedValue("party.{public_keys, encrypted_shares}")),
            ),
        }
    }

    /// The first `t + 1` validated indices, or all of them if there are
    /// fewer.
    fn quorum(&self) -> (r: Vec<usize>)
        ensures
            r@ == quorum_of(self@),
            forall|m: int| 0 <= m < r@.len() ==> #[trigger] r@[m] < self@.n,
    {
        proof {
            use_type_invariant(self);
        }
        let mut out: Vec<usize> = Vec::new();
        let mut m: usize = 0;
        while m < self.validated_shares.len() && m <= self.t
            invariant
                m <= self.validated_shares.len(),
                m <= self.t + 1,
                party_valid(self@),
                out@ == self.validated_shares@.subrange(0, m as int),
            decreases self.validated_shares.len() - m,
        {
            out.push(self.validated_shares[m]);
            m += 1;
            proof {
                assert(out@ =~= self.validated_shares@.subrange(0, m as int));
            }
        }
        out
    }

    /// Reconstructs the secret in the exponent from the first `t + 1`
    /// validated shares, each weighted by the coefficient that `lambdas`
    /// holds for its index.  Refused are a party without decrypted shares,
    /// with `UninitializedValue`, and coefficients that do not reach the
    /// last of those indices, with `CountMismatch`.
    pub fn reconstruct_secret(&self, lambdas: &Vec<Scalar>) -> (r: Result<Point, Error>)
        ensures
            match r {
                Ok(secret) => {
                    &&& self@.decrypted_shares is Some
                    &&& lambdas@.len() >= covering(quorum_of(self@))
                    &&& secret@ == combined(
                        quorum_of(self@),
                        Seq::new(quorum_of(self@).len(), |m: int| values(lambdas@)[quorum_of(self@)[m] as int]),
                        self@.decrypted_shares.unwrap(),
                        quorum_of(self@).len(),
                    )
                },
                Err(e) => e.kind == (if self@.decrypted_shares is None {
                    ErrorKind::UninitializedValue("party.decrypted_shares")
                } else {
                    ErrorKind::CountMismatch(
                        covering(quorum_of(self@)) as usize,
                        "validated places",
                        lambdas@.len() as usize,
                        "lambdas",
                    )
                }) && (self@.decrypted_shares is None || lambdas@.len() < covering(quorum_of(self@))),
            },
    {
        proof {
            use_type_invariant(self);
        }
        match &self.decrypted_shares {
            Some(dec_shares) => {
                let chosen = self.quorum();
                let needed = if chosen.len() == 0 {
                    0
                } else {
                    chosen[chosen.len() - 1] + 1
                };
                if lambdas.len() < needed {
                    return Err(
                        Error::from_kind(
                            ErrorKind::CountMismatch(needed, "validated places", lambdas.len(), "lambdas"),
                        ),
                    );
                }
                proof {
                    assert forall|j: int| 0 <= j < chosen@.len() implies #[trigger] chosen@[j] < lambdas@.len() by {
                        let last = chosen@.len() - 1;
                        assert(chosen@[j] == self@.validated_shares[j]);
                        assert(chosen@[last] == self@.validated_shares[last]);
                        if j < last {
                            assert(self@.validated_shares[j] < self@.validated_shares[last]);
                        }
                    }
                }
                let mut weights: Vec<Scalar> = Vec::new();
                let mut m: usize = 0;
                while m < chosen.len()
                    invariant
                        m <= chosen.len(),
                        forall|j: int| 0 <= j < chosen@.len() ==> #[trigger] chosen@[j] < lambdas@.len(),
                        weights@.len() == m,
                        forall|j: int| 0 <= j < m ==> (#[trigger] weights@[j])@ == lambdas@[chosen@[j] as int]@,
                    decreases chosen.len() - m,
                {
                    weights.push(lambdas[chosen[m]]);
                    m += 1;
                }
                proof {
                    assert(values(weights@) =~= Seq::new(
                        quorum_of(self@).len(),
                        |m: int| values(lambdas@)[quorum_of(self@)[m] as int],
                    ));
                }
                Ok(combine_shares(&chosen, &weights, dec_shares))
            },
            None => Err(Error::from_kind(ErrorKind::UninitializedValue("party.decrypted_shares"))),
        }
    }

    /// Reconstructs the secret in the exponent from the first `t + 1`
    /// validated shares, whichever they are.  Where they are the shares of
    /// the places `1..=t + 1` and `lambdas` reaches them, the coefficients
    /// are taken from `lambdas`; otherwise the Lagrange coefficients are
    /// computed for the places that were validated.  A party without
    /// decrypted shares refuses with `UninitializedValue`.
    pub fn reconstruct_secret_pessimistic(&self, lambdas: &Vec<Scalar>) -> (r: Result<Point, Error>)
        ensures
            match r {
                Ok(secret) => {
                    &&& self@.decrypted_shares is Some
                    &&& secret@ == combined(
                        quorum_of(self@),
                        pessimistic_weights(quorum_of(self@), values(lambdas@)),
                        self@.decrypted_shares.unwrap(),
                        quorum_of(self@).len(),
                    )
                },
                Err(e) => self@.decrypted_shares is None && e.kind == ErrorKind::UninitializedValue(
                    "party.decrypted_shares",
                ),
            },
    {
        proof {
            use_type_invariant(self);
        }
        match &self.decrypted_shares {
            Some(dec_shares) => {
                let chosen = self.quorum();
                let weights = choose_weights(&chosen, lambdas);
                Ok(combine_shares(&chosen, &weights, dec_shares))
            },
            None => Err(Error::from_kind(ErrorKind::UninitializedValue("party.decrypted_shares"))),
        }
    }

    /// The party's place, from 1 to `n`.
    pub fn index(&self) -> (r: usize)
        ensures
            r == self@.index,
    {
        self.index
    }

    /// The number of parties.
    pub fn n(&self) -> (r: usize)
        ensures
            r == self@.n,
    {
        self.n
    }

    /// The threshold.
    pub fn t(&self) -> (r: usize)
        ensures
            r == self@.t,
    {
        self.t
    }

    /// The party's public key, in wire form and as a point.
    pub fn public_key(&self) -> (r: (CompressedPoint, Point))
        ensures
            r.1@ == self@.public_key,
            encodes(r.0@, self@.public_key),
    {
        (self.public_key.compress(), self.public_key)
    }

    /// The party's private key.
    pub fn private_key(&self) -> (r: Scalar)
        ensures
            r@ == self@.private_key,
    {
        self.private_key
    }

    /// The party's decrypted share, once it has decrypted.
    pub fn decrypted_share(&self) -> (r: Option<Point>)
        ensures
            r is Some <==> self@.decrypted_share is Some,
            r is Some ==> r.unwrap()@ == self@.decrypted_share.unwrap(),
    {
        self.decrypted_share
    }

    /// The party's proof of decryption, once it has made one.
    pub fn share_proof(&self) -> (r: Option<(Scalar, Scalar)>)
        ensures
            r is Some <==> self@.share_proof is Some,
            r is Some ==> (r.unwrap().0@, r.unwrap().1@) == self@.share_proof.unwrap(),
    {
        self.share_proof
    }

    /// The encrypted share at the party's place, once shares are ingested.
    pub fn encrypted_share(&self) -> (r: Option<Point>)
        ensures
            r is Some <==> self@.encrypted_shares is Some,
            r is Some ==> r.unwrap()@ == self@.encrypted_shares.unwrap()[self@.index - 1],
    {
        proof {
            use_type_invariant(self);
        }
        match &self.encrypted_shares {
            Some(shares) => Some(shares[self.index - 1]),
            None => None,
        }
    }

    /// The generator `G`.
    pub fn g(&self) -> (r: Point)
        ensures
            r@ == self@.g,
    {
        self.g
    }

    /// The generator `H`.
    pub fn h(&self) -> (r: Point)
        ensures
            r@ == self@.h,
    {
        self.h
    }

    /// The dealer's commitments, once they are ingested.
    pub fn dealer_commitments(&self) -> (r: &Option<Vec<Point>>)
        ensures
            optional_exponents(*r) == self@.dealer_commitments,
    {
        &self.dealer_commitments
    }

    /// The dealer's proof `(d, z)`, once it is ingested.
    pub fn dealer_proof(&self) -> (r: &Option<(Scalar, Vec<Scalar>)>)
        ensures
            r is Some <==> self@.dealer_proof is Some,
            r is Some ==> (r.unwrap().0@, values(r.unwrap().1@)) == self@.dealer_proof.unwrap(),
    {
        &self.dealer_proof
    }

    /// The public keys of all parties in the order of their places, once
    /// the others' keys are ingested.
    pub fn public_keys(&self) -> (r: &Option<Vec<Point>>)
        ensures
            optional_exponents(*r) == self@.public_keys,
    {
        &self.public_keys
    }

    /// The encrypted shares, once they are ingested.
    pub fn encrypted_shares(&self) -> (r: &Option<Vec<Point>>)
        ensures
            optional_exponents(*r) == self@.encrypted_shares,
    {
        &self.encrypted_shares
    }

    /// The decrypted shares of all parties in the order of their places,
    /// once the others' shares are ingested.
    pub fn decrypted_shares(&self) -> (r: &Option<Vec<Point>>)
        ensures
            optional_exponents(*r) == self@.decrypted_shares,
    {
        &self.decrypted_shares
    }

    /// The proofs of decryption of all parties in the order of their
    /// places, once the others' proofs are ingested.
    pub fn share_proofs(&self) -> (r: &Option<Vec<(Scalar, Scalar)>>)
        ensures
            r is Some <==> self@.share_proofs is Some,
            r is Some ==> proof_values(r.unwrap()@) == self@.share_proofs.unwrap(),
    {
        &self.share_proofs
    }

    /// The indices of the shares that the last check accepted.
    pub fn validated_shares(&self) -> (r: &Vec<usize>)
        ensures
            r@ == self@.validated_shares,
    {
        &self.validated_shares
    }
}

/// The indices that reconstruction uses: the first `t + 1` validated ones,
/// or all of them if there are fewer.
pub open spec fn quorum_of(p: PartyView) -> Seq<usize> {
    if p.validated_shares.len() <= p.t + 1 {
        p.validated_shares
    } else {
        p.validated_shares.subrange(0, (p.t + 1) as int)
    }
}

/// One party for each place from 1 to `n`, each with a private key drawn
/// from the generator.
pub fn generate_parties(g: Point, h: Point, rng: &mut ChaCha20Rng, n: usize, t: usize) -> (r: Vec<Party>)
    requires
        n == 2 * t + 1,
    ensures
        r@.len() == n,
        forall|i: int|
            0 <= i < n ==> {
                let p = (#[trigger] r@[i])@;
                &&& p.index == i + 1
                &&& p.n == n
                &&& p.t == t
                &&& p.g == g@
                &&& p.h == h@
                &&& party_fresh(p)
                &&& party_valid(p)
            },
{
    let mut parties: Vec<Party> = Vec::new();
    let mut i: usize = 0;
    while i < n
        invariant
            i <= n,
            n == 2 * t + 1,
            parties@.len() == i,
            forall|k: int|
                0 <= k < i ==> {
                    let p = (#[trigger] parties@[k])@;
                    &&& p.index == k + 1
                    &&& p.n == n
                    &&& p.t == t
                    &&& p.g == g@
                    &&& p.h == h@
                    &&& party_fresh(p)
                    &&& party_valid(p)
                },
        decreases n - i,
    {
        match Party::new(g, h, rng, n, t, i + 1) {
            Ok(party) => {
                parties.push(party);
            },
            Err(_) => {
                proof {
                    // this arm is never taken
                    assert(false);
                }
            },
        }
        i += 1;
    }
    parties
}

/// Whether the decrypted share at index `j` counts as valid for the party:
/// it is the party's own, or its proof is accepted.
pub open spec fn share_counts(p: PartyView, j: int) -> bool {
    j == p.index - 1 || decryption_accepted(
        p.g,
        p.public_keys.unwrap()[j],
        p.encrypted_shares.unwrap()[j],
        p.decrypted_shares.unwrap()[j],
        p.share_proofs.unwrap()[j].0,
        p.share_proofs.unwrap()[j].1,
    )
}

/// What the check of the decryptions still lacks, if anything: keys and
/// encrypted shares first, then decrypted shares and proofs.
pub open spec fn decryption_check_missing(p: PartyView) -> Option<ErrorKind> {
    if p.public_keys is None && p.encrypted_shares is None {
        Some(ErrorKind::UninitializedValue("party.{public_keys, encrypted_shares}"))
    } else if p.public_keys is None {
        Some(ErrorKind::UninitializedValue("party.public_keys"))
    } else if p.encrypted_shares is None {
        Some(ErrorKind::UninitializedValue("party.encrypted_shares"))
    } else if p.decrypted_shares is None && p.share_proofs is None {
        Some(ErrorKind::UninitializedValue("party.{decrypted_shares, share_proofs}"))
    } else if p.decrypted_shares is None {
        Some(ErrorKind::UninitializedValue("party.decrypted_shares"))
    } else if p.share_proofs is None {
        Some(ErrorKind::UninitializedValue("party.share_proofs"))
    } else {
        None
    }
}

/// The refusal that received decrypted shares and proofs call for, if any.
pub open spec fn decrypted_refusal(p: PartyView, shares: Seq<CompressedPoint>, proofs: nat) -> Option<ErrorKind> {
    if shares.len() != p.n - 1 {
        Some(ErrorKind::CountMismatch((p.n - 1) as usize, "other parties", shares.len() as usize, "decrypted shares"))
    } else if proofs != shares.len() {
        Some(ErrorKind::CountMismatch(shares.len() as usize, "decrypted shares", proofs as usize, "proofs"))
    } else if batch_refusal(shares, (p.n - 1) as usize, "other parties", "decrypted shares") is Some {
        batch_refusal(shares, (p.n - 1) as usize, "other parties", "decrypted shares")
    } else if p.decrypted_share is None && p.share_proof is None {
        Some(ErrorKind::UninitializedValue("party.{decrypted_share, share_proof}"))
    } else if p.decrypted_share is None {
        Some(ErrorKind::UninitializedValue("party.decrypted_share"))
    } else if p.share_proof is None {
        Some(ErrorKind::UninitializedValue("party.share_proof"))
    } else {
        None
    }
}

/// What the check of the dealer still lacks, if anything: proof and
/// commitments first, then shares and keys.
pub open spec fn dealer_check_missing(p: PartyView) -> Option<ErrorKind> {
    if p.dealer_proof is None && p.dealer_commitments is None {
        Some(ErrorKind::UninitializedValue("party.{dealer_proof, dealer_commitments}"))
    } else if p.dealer_proof is None {
        Some(ErrorKind::UninitializedValue("party.dealer_proof"))
    } else if p.dealer_commitments is None {
        Some(ErrorKind::UninitializedValue("party.dealer_commitments"))
    } else if p.encrypted_shares is None && p.public_keys is None {
        Some(ErrorKind::UninitializedValue("party.{encrypted_shares, public_keys}"))
    } else if p.encrypted_shares is None {
        Some(ErrorKind::UninitializedValue("party.encrypted_shares"))
    } else if p.public_keys is None {
        Some(ErrorKind::UninitializedValue("party.public_keys"))
    } else {
        None
    }
}

/// What the proof of decryption still lacks, if anything.
pub open spec fn share_proof_missing(p: PartyView) -> Option<ErrorKind> {
    if p.decrypted_share is None && p.encrypted_shares is None {
        Some(ErrorKind::UninitializedValue("party.{decrypted_share, encrypted_shares}"))
    } else if p.decrypted_share is None {
        Some(ErrorKind::UninitializedValue("party.decrypted_share"))
    } else if p.encrypted_shares is None {
        Some(ErrorKind::UninitializedValue("party.encrypted_shares"))
    } else {
        None
    }
}

/// The proof of decryption that a party of this variant makes with the
/// randomizer `r`: see `dleq_proof`.
pub open spec fn decryption_proof(prefix: Seq<u8>, g: nat, sk: nat, pk: nat, y: nat, s: nat, r: nat) -> (
    nat,
    nat,
) {
    dleq_proof(DOMAIN@, prefix, g, sk, pk, y, s, r)
}

/// The party's own proof of decryption with the randomizer `r`.
pub open spec fn own_decryption_proof(p: PartyView, prefix: Seq<u8>, r: nat) -> (nat, nat) {
    decryption_proof(
        prefix,
        p.g,
        p.private_key,
        p.public_key,
        p.encrypted_shares.unwrap()[p.index - 1],
        p.decrypted_share.unwrap(),
        r,
    )
}

/// Whether the proof `(d, z)` is accepted, in this variant, for the
/// decrypted share `s` of the encrypted share `y` under the public key
/// `pk`: see `dleq_accepted`.
pub open spec fn decryption_accepted(g: nat, pk: nat, y: nat, s: nat, d: nat, z: nat) -> bool {
    dleq_accepted(DOMAIN@, g, pk, y, s, d, z)
}

} // verus!
