use pvss_evoting::error::ErrorKind;
use pvss_evoting::evoting_pi_s_ppvss::voter::Voter as PiSVoter;
use pvss_evoting::evoting_schoenmakers::voter::{CompressedVoteProof, VoteProof, Voter};
use pvss_evoting::point::{CompressedPoint, Point};
use pvss_evoting::polynomial::Polynomial;
use pvss_evoting::scalar::Scalar;
use pvss_evoting::transcript::Transcript;
use pvss_evoting::vote_proof::{prove_disjunction, verify_disjunction};

fn s(x: u64) -> Scalar {
    Scalar::from_u64(x)
}

fn keys() -> Vec<CompressedPoint> {
    (1..=3u64).map(|k| Point::mul_base(&s(10 * k)).compress()).collect()
}

/// A ballot of the variant with commitments from fixed randomness, with the
/// generators it was made for.
fn fixed_ballot(choice: bool) -> (Point, Point, Point, Point, VoteProof) {
    let g = Point::mul_base(&s(2));
    let h = Point::mul_base(&s(3));
    let mut voter = Voter::new(&g, &h, 3, 1, &keys()).unwrap();
    let f = Polynomial::from_coefficients(vec![s(7), s(4)]);
    let (_, _, commitments, vote, proof) = voter
        .vote_with(&mut Transcript::new(), choice, &f, &vec![s(21), s(22), s(23)], &s(31), &s(32), &s(33))
        .unwrap();
    (g, h, vote.decompress().unwrap(), commitments[0], proof.decompress().unwrap())
}

#[test]
fn encrypted_vote_is_the_generator_times_secret_plus_vote() {
    let (_, _, yes, c0, _) = fixed_ballot(true);
    let (_, _, no, _, _) = fixed_ballot(false);
    // G = 2 B, s = 7: U = 2 (7 + v) B, and C0 = s H = 21 B
    assert!(yes.eq(&Point::mul_base(&s(16))));
    assert!(no.eq(&Point::mul_base(&s(14))));
    assert!(c0.eq(&Point::mul_base(&s(21))));
}

#[test]
fn honest_vote_proofs_are_accepted() {
    for choice in [true, false] {
        let (g, h, vote, c0, proof) = fixed_ballot(choice);
        assert!(proof.verify(&mut Transcript::new(), &g, &h, &vote, &c0));
        // the simulated branch carries the randomizers as they were given
        if choice {
            assert!(proof.d0.eq(&s(32)) && proof.r0.eq(&s(33)));
            assert!(proof.a1.eq(&h.mul(&s(31))) && proof.b1.eq(&g.mul(&s(31))));
        } else {
            assert!(proof.d1.eq(&s(32)) && proof.r1.eq(&s(33)));
            assert!(proof.a0.eq(&h.mul(&s(31))) && proof.b0.eq(&g.mul(&s(31))));
        }
        // the wire form comes back as it went
        assert!(proof.compress().decompress().unwrap().verify(&mut Transcript::new(), &g, &h, &vote, &c0));
    }
}

#[test]
fn any_changed_field_spoils_a_vote_proof() {
    for choice in [true, false] {
        let (g, h, vote, c0, proof) = fixed_ballot(choice);
        let one = Scalar::one();
        let spoilt: Vec<VoteProof> = vec![
            VoteProof { a0: proof.a0.add(&g), ..proof },
            VoteProof { a1: proof.a1.add(&g), ..proof },
            VoteProof { b0: proof.b0.add(&g), ..proof },
            VoteProof { b1: proof.b1.add(&g), ..proof },
            VoteProof { d0: proof.d0.add(&one), ..proof },
            VoteProof { d1: proof.d1.add(&one), ..proof },
            VoteProof { r0: proof.r0.add(&one), ..proof },
            VoteProof { r1: proof.r1.add(&one), ..proof },
            // shifting the challenge from one branch to the other keeps the sum
            VoteProof { d0: proof.d0.add(&one), d1: proof.d1.sub(&one), ..proof },
        ];
        for changed in &spoilt {
            assert!(!changed.verify(&mut Transcript::new(), &g, &h, &vote, &c0));
        }
        // the same proof for another vote, another commitment, other generators
        assert!(!proof.verify(&mut Transcript::new(), &g, &h, &vote.add(&g), &c0));
        assert!(!proof.verify(&mut Transcript::new(), &g, &h, &vote, &c0.add(&h)));
        assert!(!proof.verify(&mut Transcript::new(), &h, &g, &vote, &c0));
        // a vote of two is not proved by either branch
        let mut used = Transcript::new();
        used.absorb_bytes(&[1]);
        assert!(!proof.verify(&mut used, &g, &h, &vote, &c0));
    }
}

#[test]
fn a_vote_other_than_zero_or_one_cannot_be_proved() {
    let g = Point::mul_base(&s(2));
    let h = Point::mul_base(&s(3));
    let secret = s(7);
    let c0 = h.mul(&secret);
    let two = g.mul(&secret.add(&s(2)));
    for claim in [true, false] {
        let proof = prove_disjunction(b"d", &mut Transcript::new(), &g, &h, &two, &c0, &secret, claim, &s(31), &s(32), &s(33));
        assert!(!verify_disjunction(b"d", &mut Transcript::new(), &g, &h, &two, &c0, &proof));
    }
    let one = g.mul(&secret.add(&s(1)));
    let proof = prove_disjunction(b"d", &mut Transcript::new(), &g, &h, &one, &c0, &secret, true, &s(31), &s(32), &s(33));
    assert!(verify_disjunction(b"d", &mut Transcript::new(), &g, &h, &one, &c0, &proof));
    // the constant of the variant is part of what is hashed
    assert!(!verify_disjunction(b"e", &mut Transcript::new(), &g, &h, &one, &c0, &proof));
}

#[test]
fn wire_forms_with_bad_commitments_are_refused() {
    let (_, _, _, _, proof) = fixed_ballot(true);
    let wire = proof.compress();
    let bad = CompressedPoint::from_bytes([0xff; 32]);
    let mut worse = [0xffu8; 32];
    worse[0] = 0xfe;
    let refused = CompressedVoteProof { b0: bad, b1: CompressedPoint::from_bytes(worse), ..wire }.decompress();
    assert!(matches!(refused.err().unwrap().kind(), ErrorKind::PointDecompressionError(bytes) if bytes == [0xff; 32]));
    let refused = CompressedVoteProof { a1: CompressedPoint::from_bytes(worse), b0: bad, ..wire }.decompress();
    assert!(matches!(refused.err().unwrap().kind(), ErrorKind::PointDecompressionError(bytes) if bytes == worse));
}

#[test]
fn wire_forms_are_made_of_their_parts() {
    let (_, _, _, _, proof) = fixed_ballot(true);
    let wire = proof.compress();
    let made = CompressedVoteProof::new(wire.a0, wire.a1, wire.b0, wire.b1, wire.d0, wire.d1, wire.r0, wire.r1);
    assert!(made.a0.eq(&wire.a0) && made.b1.eq(&wire.b1) && made.d0.eq(&wire.d0) && made.r1.eq(&wire.r1));
    let other = pvss_evoting::evoting_pi_s_ppvss::voter::CompressedVoteProof::new(
        wire.a0, wire.a1, wire.b0, wire.b1, s(3), s(4), s(5), s(6),
    );
    assert!(other.c.eq(&s(7)) && other.r0.eq(&s(5)));
}

#[test]
fn voters_without_a_vote_cannot_prove() {
    let g = Point::mul_base(&s(2));
    let h = Point::mul_base(&s(3));
    let voter = Voter::new(&g, &h, 3, 1, &keys()).unwrap();
    let refused = voter.dleq_vote_with(&s(1), &s(2), &s(3), &h, &s(4), &mut Transcript::new());
    assert!(matches!(refused.err().unwrap().kind(), ErrorKind::UninitializedValue("voter.{vote,encrypted_vote}")));
    let mut voter = voter;
    let f = Polynomial::from_coefficients(vec![s(7)]);
    let refused = voter.vote_with(&mut Transcript::new(), true, &f, &vec![], &s(1), &s(2), &s(3));
    assert!(matches!(refused.err().unwrap().kind(), ErrorKind::CountMismatch(2, "coefficients", 1, "polynomial")));
    let f = Polynomial::from_coefficients(vec![s(7), s(1)]);
    let refused = voter.vote_with(&mut Transcript::new(), true, &f, &vec![s(1)], &s(1), &s(2), &s(3));
    assert!(matches!(refused.err().unwrap().kind(), ErrorKind::CountMismatch(3, "parties", 1, "randomizers")));
    assert!(matches!(
        Voter::generate_voters(&g, &h, 2, 3, 1, &keys()[..2]).err().unwrap().kind(),
        ErrorKind::CountMismatch(3, "parties", 2, "public keys")
    ));
    assert_eq!(Voter::generate_voters(&g, &h, 0, 3, 1, &keys()[..2]).unwrap().len(), 0);
    let fresh = Voter::generate_voters(&g, &h, 2, 3, 1, &keys()).unwrap();
    assert!(fresh.iter().all(|v| v.vote.is_none() && v.encrypted_vote.is_none() && v.dealer.secret().is_none()));
    assert!(fresh.iter().all(|v| v.g.eq(&g) && v.dealer.h().eq(&h) && (v.dealer.n(), v.dealer.t()) == (3, 1)));
    let fresh = PiSVoter::generate_voters(2, 3, 1, &keys(), &h).unwrap();
    assert!(fresh.iter().all(|v| v.vote.is_none() && v.encrypted_vote.is_none() && v.dealer.secret().is_none()));
    assert!(fresh.iter().all(|v| v.dealer.get_pk0().eq(&h) && v.dealer.public_keys().len() == 4));
    voter.generate_vote(&s(7), true);
    assert!(voter.encrypted_vote.unwrap().eq(&Point::mul_base(&s(16))));
    assert!(voter.dleq_vote_with(&s(1), &s(2), &s(3), &h, &s(7), &mut Transcript::new()).is_ok());
}

#[test]
fn pi_s_vote_proofs_carry_their_challenge() {
    let g = Point::mul_base(&s(2));
    let pk0 = Point::mul_base(&s(5));
    let mut voter = PiSVoter::new(3, 1, &keys(), &pk0).unwrap();
    let f = Polynomial::from_coefficients(vec![s(7), s(4)]);
    let r = Polynomial::from_coefficients(vec![s(8), s(9)]);
    for choice in [true, false] {
        let (shares, _, vote, proof) =
            voter.vote_with(&g, &mut Transcript::new(), choice, &f, &r, &s(31), &s(32), &s(33)).unwrap();
        assert!(proof.c.eq(&proof.d0.add(&proof.d1)));
        let y0 = shares[0].1;
        assert!(y0.eq(&Point::mul_base(&s(35))));
        let vote = vote.decompress().unwrap();
        assert!(vote.eq(&Point::mul_base(&s(if choice { 16 } else { 14 }))));
        let proof = proof.decompress().unwrap();
        assert!(proof.verify(&mut Transcript::new(), &g, &vote, &pk0, &y0));
        assert!(!proof.verify(&mut Transcript::new(), &g, &vote, &pk0, &y0.add(&g)));
        assert!(!proof.verify(&mut Transcript::new(), &g, &vote.add(&g), &pk0, &y0));
        assert!(proof.compress().c.eq(&proof.c));
    }
    let refused = voter.vote_with(&g, &mut Transcript::new(), true, &f, &f.sum(&Polynomial::from_coefficients(vec![s(1)])), &s(31), &s(32), &s(33));
    assert!(matches!(refused.err().unwrap().kind(), ErrorKind::CountMismatch(2, "coefficients", 1, "blinding polynomial")));
}
