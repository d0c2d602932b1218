use pvss_evoting::evoting_pi_s_ppvss::bulletin_board::BulletinBoard;
use pvss_evoting::evoting_pi_s_ppvss::tallier::Tallier;
use pvss_evoting::evoting_pi_s_ppvss::voter::Voter;
use pvss_evoting::error::ErrorKind;
use pvss_evoting::pi_s_ppvss::dealer::Dealer;
use pvss_evoting::pi_s_ppvss::party::{generate_parties, Party};
use pvss_evoting::pi_s_ppvss::utils::verify_encrypted_shares_standalone;
use pvss_evoting::point::{CompressedPoint, Point};
use pvss_evoting::polynomial::Polynomial;
use pvss_evoting::random::random_point;
use pvss_evoting::scalar::Scalar;
use pvss_evoting::tally::decode_tally;
use pvss_evoting::transcript::Transcript;
use pvss_evoting::utils::precompute_lambda;
use rand_chacha::rand_core::SeedableRng;
use rand_chacha::ChaCha20Rng;

/// Runs an election of the variant without commitments and returns the
/// decoded tally with the number of valid votes.
fn run_pi_s_election(n: usize, t: usize, votes: &[bool], seed: u64) -> (Option<usize>, usize) {
    let m = votes.len();
    let lambdas = precompute_lambda(n, t);
    let mut rng = ChaCha20Rng::seed_from_u64(seed);
    let mut transcript = Transcript::new();

    let g: Point = random_point(&mut rng);
    let pk0: Point = random_point(&mut rng);

    let mut talliers = Tallier::generate_talliers(&g, &mut rng, n, t, &pk0);
    let public_keys: (Vec<CompressedPoint>, Vec<Point>) =
        talliers.iter().map(|tallier| tallier.party.public_key()).unzip();

    let mut bulletin_board = BulletinBoard::new(&g, &pk0, &public_keys.1, m);
    let mut voters = Voter::generate_voters(m, n, t, &public_keys.0, &pk0).unwrap();

    for (voter, choice) in voters.iter_mut().zip(votes.iter()) {
        let (encrypted_shares, (d, z), encrypted_vote, vote_proof) =
            voter.vote(&g, &mut rng, &mut transcript, *choice).unwrap();
        let shares: Vec<Point> = encrypted_shares.iter().map(|pair| pair.1).collect();
        bulletin_board.ingest_vote(
            shares,
            (d, z),
            encrypted_vote.decompress().unwrap(),
            vote_proof.decompress().unwrap(),
        );
    }

    bulletin_board.verify_encrypted_shares();
    let compressed_shares: Vec<CompressedPoint> =
        bulletin_board.sum_encrypted_shares().iter().map(|share| share.compress()).collect();
    bulletin_board.verify_votes();

    let mut decrypted_shares: Vec<CompressedPoint> = Vec::with_capacity(n);
    let mut decrypted_share_proofs: Vec<(Scalar, Scalar)> = Vec::with_capacity(n);
    for tallier in &mut talliers {
        let own = tallier.party.public_key().0;
        let others: Vec<CompressedPoint> =
            public_keys.0.iter().filter(|pk| !own.eq(pk)).copied().collect();
        tallier.party.ingest_public_keys(&others).unwrap();
        tallier.party.ingest_encrypted_shares(&compressed_shares).unwrap();
        tallier.party.decrypt_share().unwrap();
        tallier.party.dleq_share(&g, &mut rng, &mut transcript).unwrap();
        decrypted_shares.push(tallier.party.decrypted_share().unwrap().compress());
        decrypted_share_proofs.push(tallier.party.share_proof().unwrap());
    }

    let (mut dec_shares, mut share_proofs) = (decrypted_shares.clone(), decrypted_share_proofs.clone());
    dec_shares.remove(talliers[0].party.index() - 1);
    share_proofs.remove(talliers[0].party.index() - 1);
    talliers[0].party.ingest_decrypted_shares_and_proofs(&dec_shares, share_proofs).unwrap();
    assert!(talliers[0].party.verify_decrypted_shares(&g).unwrap());

    let accumulated_encrypted_votes = bulletin_board.tally_encrypted_votes();
    let recon_secret = talliers[0].party.reconstruct_secret_pessimistic(&lambdas).unwrap();
    let exp_vote = accumulated_encrypted_votes.sub(&recon_secret);
    let count = bulletin_board.count_valid_votes();
    (decode_tally(&g, &exp_vote, count), count)
}

#[test]
fn pi_s_smoke_one_yes_ballot() {
    assert_eq!(run_pi_s_election(3, 1, &[true], 0x5eed_0101), (Some(1), 1));
}

#[test]
fn pi_s_three_of_five_ballots_yes() {
    assert_eq!(run_pi_s_election(5, 2, &[true, false, true, true, false], 0x5eed_0102), (Some(3), 5));
}

#[test]
fn pi_s_all_votes_no() {
    assert_eq!(run_pi_s_election(3, 1, &[false, false], 0x5eed_0103), (Some(0), 2));
}

#[test]
fn pi_s_slot_zero_of_the_sums_is_not_summed() {
    let n = 3;
    let t = 1;
    let mut rng = ChaCha20Rng::seed_from_u64(0x5eed_0104);
    let mut transcript = Transcript::new();
    let g = random_point(&mut rng);
    let pk0 = random_point(&mut rng);
    let talliers = Tallier::generate_talliers(&g, &mut rng, n, t, &pk0);
    let keys: (Vec<CompressedPoint>, Vec<Point>) = talliers.iter().map(|x| x.party.public_key()).unzip();
    let mut board = BulletinBoard::new(&g, &pk0, &keys.1, 3);
    let mut voters = Voter::generate_voters(3, n, t, &keys.0, &pk0).unwrap();
    let mut first_column = Point::identity();
    let mut first_vote = Point::identity();
    for (i, voter) in voters.iter_mut().enumerate() {
        let (shares, proof, vote, vote_proof) = voter.vote(&g, &mut rng, &mut transcript, i == 0).unwrap();
        assert_eq!(shares.len(), n + 1);
        let mut shares: Vec<Point> = shares.iter().map(|pair| pair.1).collect();
        let mut vote = vote.decompress().unwrap();
        match i {
            // the second dealer replaces an encrypted share by a random point
            1 => shares[2] = random_point(&mut rng),
            // the third voter's encrypted vote is not the one that was proved
            2 => {
                first_column = first_column.add(&shares[1]);
                vote = vote.add(&g)
            }
            _ => {
                first_column = first_column.add(&shares[1]);
                first_vote = vote
            }
        }
        let mut vote_proof = vote_proof.decompress().unwrap();
        if i == 2 {
            // the board keeps the challenge that a proof carries, whatever it is
            vote_proof.c = Scalar::from_u64(99);
        }
        board.ingest_vote(shares, proof, vote, vote_proof);
    }
    assert!(board.vote_proof(2).unwrap().c.eq(&Scalar::from_u64(99)));
    assert_eq!((board.shares_ok(0), board.vote_ok(0)), (Some(false), Some(false)));
    assert!(board.g().eq(&g) && board.pk0().eq(&pk0) && board.public_keys().len() == n);
    assert!(board.encrypted_shares(0).unwrap().len() == n + 1 && board.encrypted_shares(3).is_none());
    assert!(board.encrypted_vote(0).unwrap().eq(&first_vote) && board.encrypted_vote(3).is_none());
    assert!(board.encrypted_share_proof(0).unwrap().1.len() == t + 1 && board.vote_proof(3).is_none());
    assert!(board.vote_proof(0).unwrap().c.eq(&board.vote_proof(0).unwrap().d0.add(&board.vote_proof(0).unwrap().d1)));
    board.verify_encrypted_shares();
    board.verify_votes();
    assert_eq!((board.shares_ok(0), board.shares_ok(1), board.shares_ok(2)), (Some(true), Some(false), Some(true)));
    assert_eq!((board.vote_ok(0), board.vote_ok(1), board.vote_ok(2)), (Some(true), Some(true), Some(false)));
    assert_eq!(board.count_valid_votes(), 2);
    let sums = board.sum_encrypted_shares();
    assert_eq!(sums.len(), n + 1);
    assert!(sums[0].eq(&Point::identity()));
    assert!(sums[1].eq(&first_column));
    // a second run of the checks gives the same verdicts
    let before = (board.shares_ok(1), board.vote_ok(2));
    board.verify_encrypted_shares();
    board.verify_votes();
    assert_eq!(before, (board.shares_ok(1), board.vote_ok(2)));
    assert!(!board.tally_encrypted_votes().eq(&first_vote));
}

#[test]
fn pi_s_exactly_t_plus_one_shares_suffice() {
    let n = 3;
    let t = 1;
    let lambdas = precompute_lambda(n, t);
    let mut rng = ChaCha20Rng::seed_from_u64(0x5eed_0105);
    let mut transcript = Transcript::new();
    let g = random_point(&mut rng);
    let pk0 = random_point(&mut rng);
    let mut talliers = Tallier::generate_talliers(&g, &mut rng, n, t, &pk0);
    let keys: (Vec<CompressedPoint>, Vec<Point>) = talliers.iter().map(|x| x.party.public_key()).unzip();
    let mut voter = Voter::new(n, t, &keys.0, &pk0).unwrap();
    let (shares, (d, z), _, _) = voter.vote(&g, &mut rng, &mut transcript, true).unwrap();
    let wire: Vec<CompressedPoint> = shares.iter().map(|pair| pair.0).collect();
    let secret = voter.dealer.secret().unwrap();

    let mut decrypted = vec![];
    let mut proofs = vec![];
    for tallier in &mut talliers {
        let own = tallier.party.public_key().0;
        let others: Vec<CompressedPoint> = keys.0.iter().filter(|pk| !own.eq(pk)).copied().collect();
        tallier.party.ingest_public_keys(&others).unwrap();
        tallier.party.ingest_encrypted_shares(&wire).unwrap();
        tallier.party.ingest_dealer_proof(d, z.clone()).unwrap();
        assert!(tallier.party.verify_encrypted_shares(&mut transcript).unwrap());
        tallier.party.decrypt_share().unwrap();
        tallier.party.dleq_share(&g, &mut rng, &mut transcript).unwrap();
        decrypted.push(tallier.party.decrypted_share().unwrap().compress());
        proofs.push(tallier.party.share_proof().unwrap());
    }
    // the last party is handed a spoilt proof for the first: two shares are left
    let last = &mut talliers[2].party;
    proofs[0].1 = proofs[0].1.add(&Scalar::one());
    decrypted.remove(2);
    proofs.remove(2);
    last.ingest_decrypted_shares_and_proofs(&decrypted, proofs).unwrap();
    assert!(last.verify_decrypted_shares(&g).unwrap());
    assert_eq!(last.validated_shares(), &vec![1, 2]);
    let reconstructed = last.reconstruct_secret_pessimistic(&lambdas).unwrap();
    assert!(reconstructed.eq(&g.mul(&secret)));
    assert!(!last.reconstruct_secret(&lambdas).unwrap().eq(&g.mul(&secret)));
}

#[test]
fn pi_s_party_and_dealer_refuse_what_does_not_fit() {
    let mut rng = ChaCha20Rng::seed_from_u64(0x5eed_0106);
    let g = random_point(&mut rng);
    let pk0 = random_point(&mut rng);
    let key = g.compress();
    let bad = CompressedPoint::from_bytes([0xff; 32]);
    assert!(matches!(
        Tallier::new(&g, &mut rng, 4, 1, 1, pk0).err().unwrap().kind(),
        ErrorKind::InvalidParameterSet(4, 1, 1)
    ));
    assert!(matches!(
        Tallier::new(&g, &mut rng, 3, 1, 4, pk0).err().unwrap().kind(),
        ErrorKind::InvalidParameterSet(3, 1, 4)
    ));
    assert!(matches!(
        Dealer::new(3, 1, &[key], &pk0).err().unwrap().kind(),
        ErrorKind::CountMismatch(3, "parties", 1, "public keys")
    ));
    assert!(matches!(
        Dealer::new(2, 1, &[key, key], &pk0).err().unwrap().kind(),
        ErrorKind::InvalidParameterSet(2, 1, 0)
    ));
    assert!(matches!(
        Dealer::new(3, 1, &[key, key, bad], &pk0).err().unwrap().kind(),
        ErrorKind::PointDecompressionError(_)
    ));
    let mut party = Party::new(&g, &mut rng, 3, 1, 3, pk0).unwrap();
    assert!(matches!(
        party.ingest_encrypted_shares(&[key, key, key]).unwrap_err().kind(),
        ErrorKind::CountMismatch(4, "places", 3, "encrypted shares")
    ));
    party.ingest_encrypted_shares(&[key, key, key, pk0.compress()]).unwrap();
    assert!(party.encrypted_share().unwrap().eq(&pk0));
    let one = Scalar::one();
    assert!(matches!(
        party.ingest_dealer_proof(one, Polynomial::from_coefficients(vec![one])).unwrap_err().kind(),
        ErrorKind::InvalidProof("z length")
    ));
    assert!(matches!(
        party.ingest_dealer_proof(Scalar::zero(), Polynomial::from_coefficients(vec![one, one])).unwrap_err().kind(),
        ErrorKind::InvalidProof("d == 0")
    ));
    assert!(matches!(
        party.verify_encrypted_shares(&mut Transcript::new()).unwrap_err().kind(),
        ErrorKind::UninitializedValue("party.dealer_proof")
    ));
    assert!(matches!(
        party.verify_decrypted_shares(&g).unwrap_err().kind(),
        ErrorKind::UninitializedValue("party.public_keys")
    ));
    assert!(matches!(
        party.ingest_public_keys(&[key]).unwrap_err().kind(),
        ErrorKind::CountMismatch(2, "other parties", 1, "public_keys")
    ));
    let parties = generate_parties(&g, &mut rng, 3, 1, &pk0);
    assert_eq!(parties.iter().map(|p| p.index()).collect::<Vec<usize>>(), vec![1, 2, 3]);
    for fresh in &parties {
        assert!(fresh.pk0().eq(&pk0) && fresh.public_keys().is_none() && fresh.encrypted_shares().is_none());
        assert!(fresh.dealer_proof().is_none() && fresh.decrypted_shares().is_none());
        assert!(fresh.share_proofs().is_none() && fresh.validated_shares().is_empty());
    }
}

#[test]
fn pi_s_dealing_from_given_randomness_is_exact() {
    let s = |x: u64| Scalar::from_u64(x);
    let pk0 = Point::mul_base(&s(5));
    let keys: Vec<Point> = (1..=3u64).map(|k| Point::mul_base(&s(10 * k))).collect();
    let wire: Vec<CompressedPoint> = keys.iter().map(|k| k.compress()).collect();
    let mut dealer = Dealer::new(3, 1, &wire, &pk0).unwrap();
    assert!(dealer.get_pk0().eq(&pk0));
    assert_eq!(dealer.public_keys().len(), 4);
    // f(x) = 7 + 2x, r(x) = 1 + 3x
    let f = Polynomial::from_coefficients(vec![s(7), s(2)]);
    let r = Polynomial::from_coefficients(vec![s(1), s(3)]);
    let (shares, (d, z)) = dealer.deal_polynomials(&mut Transcript::new(), &f, &r).unwrap();
    assert!(dealer.secret().unwrap().eq(&s(7)));
    assert_eq!(shares.len(), 4);
    assert_eq!(shares[0].to_bytes(), Point::mul_base(&s(35)).compress().to_bytes());
    assert_eq!(shares[2].to_bytes(), Point::mul_base(&s(11 * 20)).compress().to_bytes());
    // z = d f + r
    assert!(z.coef_at(0).unwrap().eq(&d.mul(&s(7)).add(&s(1))));
    assert!(z.coef_at(1).unwrap().eq(&d.mul(&s(2)).add(&s(3))));

    let mut all_keys = vec![pk0];
    all_keys.extend(keys.iter().copied());
    let points: Vec<Point> = shares.iter().map(|c| c.decompress().unwrap()).collect();
    let check = |shares: &Vec<Point>, d: &Scalar, z: &Polynomial| {
        verify_encrypted_shares_standalone(shares, &all_keys, (d, z), &mut Transcript::new())
    };
    assert!(check(&points, &d, &z).unwrap());
    assert!(!check(&points, &d.add(&s(1)), &z).unwrap());
    assert!(!check(&points, &d, &f).unwrap());
    let mut moved = points.clone();
    moved[3] = moved[3].add(&pk0);
    assert!(!check(&moved, &d, &z).unwrap());
    assert!(matches!(
        check(&points[..3].to_vec(), &d, &z).unwrap_err().kind(),
        ErrorKind::CountMismatch(4, "public_keys", 3, "encrypted_shares")
    ));
    assert!(matches!(
        dealer.deal_polynomials(&mut Transcript::new(), &f, &Polynomial::from_coefficients(vec![s(1)])).unwrap_err().kind(),
        ErrorKind::CountMismatch(2, "coefficients", 1, "blinding polynomial")
    ));
    assert!(matches!(
        dealer.deal_polynomials(&mut Transcript::new(), &r.sum(&Polynomial::from_coefficients(vec![s(1)])), &r).unwrap_err().kind(),
        ErrorKind::CountMismatch(2, "coefficients", 1, "polynomial")
    ));
}
