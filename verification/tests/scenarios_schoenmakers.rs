use pvss_evoting::evoting_schoenmakers::bulletin_board::BulletinBoard;
use pvss_evoting::evoting_schoenmakers::voter::Voter;
use pvss_evoting::point::{CompressedPoint, Point};
use pvss_evoting::random::random_point;
use pvss_evoting::scalar::Scalar;
use pvss_evoting::schoenmakers::party::{generate_parties, Party};
use pvss_evoting::tally::decode_tally;
use pvss_evoting::transcript::Transcript;
use pvss_evoting::utils::precompute_lambda;
use rand_chacha::rand_core::SeedableRng;
use rand_chacha::ChaCha20Rng;

/// An election of the variant with commitments, up to the point where the
/// ballots are on the board.
struct Election {
    g: Point,
    rng: ChaCha20Rng,
    transcript: Transcript,
    parties: Vec<Party>,
    public_keys: Vec<CompressedPoint>,
    board: BulletinBoard,
}

fn open_election(n: usize, t: usize, votes: &[bool], seed: u64) -> Election {
    let mut rng = ChaCha20Rng::seed_from_u64(seed);
    let mut transcript = Transcript::new();
    let g = random_point(&mut rng);
    let h = random_point(&mut rng);
    let parties = generate_parties(g, h, &mut rng, n, t);
    let keys: (Vec<CompressedPoint>, Vec<Point>) = parties.iter().map(|p| p.public_key()).unzip();
    let mut board = BulletinBoard::new(&g, &h, &keys.1, votes.len(), n, t);
    let mut voters = Voter::generate_voters(&g, &h, votes.len(), n, t, &keys.0).unwrap();
    for (voter, choice) in voters.iter_mut().zip(votes.iter()) {
        let (shares, proof, commitments, vote, vote_proof) =
            voter.vote(&mut rng, &mut transcript, *choice).unwrap();
        board.ingest_vote(
            shares.iter().map(|pair| pair.1).collect(),
            proof,
            vote.decompress().unwrap(),
            commitments,
            vote_proof.decompress().unwrap(),
        );
    }
    Election { g, rng, transcript, parties, public_keys: keys.0, board }
}

/// Checks the board, lets every party decrypt and prove, and hands the
/// decrypted shares and proofs back.
fn decrypt_all(e: &mut Election) -> (Vec<CompressedPoint>, Vec<(Scalar, Scalar)>) {
    e.board.verify_encrypted_shares();
    e.board.verify_votes();
    let summed: Vec<CompressedPoint> = e.board.sum_encrypted_shares().iter().map(|s| s.compress()).collect();
    let mut shares = vec![];
    let mut proofs = vec![];
    for party in &mut e.parties {
        let own = party.public_key().0;
        let others: Vec<CompressedPoint> = e.public_keys.iter().filter(|pk| !own.eq(pk)).copied().collect();
        party.ingest_public_keys(&others).unwrap();
        party.ingest_encrypted_shares(&summed).unwrap();
        party.decrypt_share().unwrap();
        party.dleq_share(&mut e.rng, &mut e.transcript).unwrap();
        shares.push(party.decrypted_share().unwrap().compress());
        proofs.push(party.share_proof().unwrap());
    }
    (shares, proofs)
}

/// Lets the party at `who` take in the other parties' decryptions, check
/// them and decode the tally.
fn tally_by(
    e: &mut Election,
    who: usize,
    shares: &[CompressedPoint],
    proofs: &[(Scalar, Scalar)],
) -> Option<usize> {
    let n = e.parties.len();
    let lambdas = precompute_lambda(n, (n - 1) / 2);
    let (mut shares, mut proofs) = (shares.to_vec(), proofs.to_vec());
    shares.remove(who);
    proofs.remove(who);
    let party = &mut e.parties[who];
    party.ingest_decrypted_shares_and_proofs(&shares, proofs).unwrap();
    party.verify_decrypted_shares().unwrap();
    let secret = party.reconstruct_secret_pessimistic(&lambdas).unwrap();
    let masked = e.board.tally_encrypted_votes();
    decode_tally(&e.g, &masked.sub(&secret), e.board.count_valid_votes())
}

#[test]
fn smoke_one_yes_ballot() {
    let mut e = open_election(3, 1, &[true], 0x5eed_0201);
    let (shares, proofs) = decrypt_all(&mut e);
    assert_eq!(e.board.count_valid_votes(), 1);
    assert_eq!(e.board.shares_ok(0), Some(true));
    assert_eq!(e.board.vote_ok(0), Some(true));
    assert_eq!(tally_by(&mut e, 0, &shares, &proofs), Some(1));
}

#[test]
fn threshold_any_three_of_five_reconstruct() {
    let n = 5;
    let t = 2;
    let mut e = open_election(n, t, &[true, false, true, true], 0x5eed_0202);
    let (shares, proofs) = decrypt_all(&mut e);
    let lambdas = precompute_lambda(n, t);
    let masked = e.board.tally_encrypted_votes();

    // the party at place 1 sees every decryption accepted: it reconstructs
    // from the places 1, 2, 3
    let (mut others, mut other_proofs) = (shares.clone(), proofs.clone());
    others.remove(0);
    other_proofs.remove(0);
    e.parties[0].ingest_decrypted_shares_and_proofs(&others, other_proofs).unwrap();
    assert!(e.parties[0].verify_decrypted_shares().unwrap());
    assert_eq!(e.parties[0].validated_shares(), &vec![0, 1, 2, 3, 4]);
    let from_first = e.parties[0].reconstruct_secret(&lambdas).unwrap();
    assert!(from_first.eq(&e.parties[0].reconstruct_secret_pessimistic(&lambdas).unwrap()));

    // the party at place 2 is handed spoilt proofs for the places 1 and 3:
    // it reconstructs from the places 2, 4, 5
    let (mut others, mut other_proofs) = (shares.clone(), proofs.clone());
    other_proofs[0].1 = other_proofs[0].1.add(&Scalar::one());
    other_proofs[2].0 = other_proofs[2].0.add(&Scalar::one());
    others.remove(1);
    other_proofs.remove(1);
    e.parties[1].ingest_decrypted_shares_and_proofs(&others, other_proofs).unwrap();
    // exactly t + 1 shares are left: that is enough
    assert!(e.parties[1].verify_decrypted_shares().unwrap());
    assert_eq!(e.parties[1].validated_shares(), &vec![1, 3, 4]);
    let from_others = e.parties[1].reconstruct_secret_pessimistic(&lambdas).unwrap();

    assert!(from_first.eq(&from_others));
    assert_eq!(decode_tally(&e.g, &masked.sub(&from_first), e.board.count_valid_votes()), Some(3));
    assert_eq!(decode_tally(&e.g, &masked.sub(&from_others), e.board.count_valid_votes()), Some(3));
    // with the coefficients of the places 1, 2, 3 the shares of 2, 4, 5 give something else
    assert!(!e.parties[1].reconstruct_secret(&lambdas).unwrap().eq(&from_first));
}

/// The same point with one bit of its encoding flipped, where that is the
/// encoding of a point again: the first such bit is taken.
fn flip_a_bit(point: &Point) -> Point {
    let bytes = point.compress().to_bytes();
    for bit in 0..256 {
        let mut flipped = bytes;
        flipped[bit / 8] ^= 1 << (bit % 8);
        if let Some(other) = CompressedPoint::from_bytes(flipped).decompress() {
            return other;
        }
    }
    unreachable!()
}

#[test]
fn rejection_of_a_ballot_with_a_flipped_vote() {
    let n = 3;
    let t = 1;
    let mut rng = ChaCha20Rng::seed_from_u64(0x5eed_0203);
    let mut transcript = Transcript::new();
    let g = random_point(&mut rng);
    let h = random_point(&mut rng);
    let parties = generate_parties(g, h, &mut rng, n, t);
    let keys: (Vec<CompressedPoint>, Vec<Point>) = parties.iter().map(|p| p.public_key()).unzip();
    let mut board = BulletinBoard::new(&g, &h, &keys.1, 2, n, t);
    let mut voters = Voter::generate_voters(&g, &h, 2, n, t, &keys.0).unwrap();
    let mut first_vote = Point::identity();
    for (i, voter) in voters.iter_mut().enumerate() {
        let (shares, proof, commitments, vote, vote_proof) = voter.vote(&mut rng, &mut transcript, true).unwrap();
        let mut vote = vote.decompress().unwrap();
        if i == 1 {
            vote = flip_a_bit(&vote);
        } else {
            first_vote = vote;
        }
        board.ingest_vote(
            shares.iter().map(|pair| pair.1).collect(),
            proof,
            vote,
            commitments,
            vote_proof.decompress().unwrap(),
        );
    }
    let mut e = Election { g, rng, transcript, parties, public_keys: keys.0, board };
    assert!(e.board.g().eq(&g) && e.board.h().eq(&h) && (e.board.n(), e.board.t()) == (n, t));
    assert!(e.board.public_keys().len() == n && e.board.public_keys()[0].eq(&keys.1[0]));
    assert!(e.board.encrypted_vote(0).unwrap().eq(&first_vote) && e.board.encrypted_vote(2).is_none());
    assert!(e.board.encrypted_shares(1).unwrap().len() == n && e.board.encrypted_shares(2).is_none());
    assert!(e.board.dealer_commitments(1).unwrap().len() == t + 1 && e.board.dealer_commitments(2).is_none());
    assert!(e.board.encrypted_share_proof(1).unwrap().1.len() == n && e.board.vote_proof(2).is_none());
    assert!(e.board.vote_proof(0).unwrap().verify(
        &mut Transcript::new(),
        &g,
        &h,
        &first_vote,
        &e.board.dealer_commitments(0).unwrap()[0]
    ));
    assert_eq!(e.board.vote_ok(0), Some(false));
    e.board.verify_votes();
    assert_eq!(e.board.vote_ok(0), Some(true));
    assert_eq!(e.board.vote_ok(1), Some(false));
    assert_eq!(e.board.vote_ok(2), None);
    assert_eq!(e.board.count_valid_votes(), 1);

    // the tally reflects the first ballot alone
    assert!(e.board.tally_encrypted_votes().eq(&first_vote));
    let (shares, proofs) = decrypt_all(&mut e);
    assert_eq!(e.board.vote_ok(1), Some(false));
    assert_eq!(e.board.shares_ok(1), Some(true));
    assert_eq!(shares.len(), n);
    assert_eq!(proofs.len(), n);
}

#[test]
fn bad_dealer_is_excluded_from_the_sums() {
    let n = 3;
    let t = 1;
    let mut rng = ChaCha20Rng::seed_from_u64(0x5eed_0204);
    let mut transcript = Transcript::new();
    let g = random_point(&mut rng);
    let h = random_point(&mut rng);
    let parties = generate_parties(g, h, &mut rng, n, t);
    let keys: (Vec<CompressedPoint>, Vec<Point>) = parties.iter().map(|p| p.public_key()).unzip();
    let mut board = BulletinBoard::new(&g, &h, &keys.1, 2, n, t);
    let mut honest = BulletinBoard::new(&g, &h, &keys.1, 1, n, t);
    let mut voters = Voter::generate_voters(&g, &h, 2, n, t, &keys.0).unwrap();
    for (i, voter) in voters.iter_mut().enumerate() {
        let (shares, proof, commitments, vote, vote_proof) = voter.vote(&mut rng, &mut transcript, false).unwrap();
        let mut shares: Vec<Point> = shares.iter().map(|pair| pair.1).collect();
        if i == 1 {
            shares[2] = random_point(&mut rng);
        } else {
            honest.ingest_vote(
                shares.clone(),
                (proof.0, proof.1.clone()),
                vote.decompress().unwrap(),
                commitments.clone(),
                vote_proof.decompress().unwrap(),
            );
        }
        board.ingest_vote(shares, proof, vote.decompress().unwrap(), commitments, vote_proof.decompress().unwrap());
    }
    board.verify_encrypted_shares();
    honest.verify_encrypted_shares();
    assert_eq!(board.shares_ok(0), Some(true));
    assert_eq!(board.shares_ok(1), Some(false));
    let sums = board.sum_encrypted_shares();
    let honest_sums = honest.sum_encrypted_shares();
    assert_eq!(sums.len(), n);
    for k in 0..n {
        assert!(sums[k].eq(&honest_sums[k]));
        assert!(!sums[k].eq(&Point::identity()));
    }
    // running the check again changes nothing
    board.verify_encrypted_shares();
    assert_eq!((board.shares_ok(0), board.shares_ok(1)), (Some(true), Some(false)));
}

#[test]
fn full_house_seven_parties_ten_ballots() {
    let votes = [true, true, true, true, false, false, false, false, false, false];
    let mut e = open_election(7, 3, &votes, 0x5eed_0205);
    let (shares, proofs) = decrypt_all(&mut e);
    assert_eq!(e.board.count_valid_votes(), 10);
    assert_eq!(tally_by(&mut e, 0, &shares, &proofs), Some(4));
}

#[test]
fn forty_percent_yes_at_a_reduced_number_of_ballots() {
    let votes = [true, false, true, false, false, true, false, false, true, false];
    let mut e = open_election(3, 1, &votes, 0x5eed_0206);
    let (shares, proofs) = decrypt_all(&mut e);
    assert_eq!(e.board.len(), 10);
    assert_eq!(e.board.count_valid_votes(), 10);
    assert_eq!(tally_by(&mut e, 1, &shares, &proofs), Some(4));
}

#[test]
fn forty_percent_yes_among_seventeen_talliers() {
    let votes = [true, false, true, false, false];
    let mut e = open_election(17, 8, &votes, 0x5eed_020a);
    let (shares, proofs) = decrypt_all(&mut e);
    assert_eq!(e.board.count_valid_votes(), 5);
    assert_eq!(tally_by(&mut e, 16, &shares, &proofs), Some(2));
    assert_eq!(e.parties[16].validated_shares().len(), 17);
}

#[test]
fn all_votes_no() {
    let mut e = open_election(3, 1, &[false, false, false], 0x5eed_0207);
    let (shares, proofs) = decrypt_all(&mut e);
    assert_eq!(e.board.count_valid_votes(), 3);
    assert_eq!(tally_by(&mut e, 0, &shares, &proofs), Some(0));
}

#[test]
fn all_votes_yes_tallied_by_the_last_party() {
    let mut e = open_election(3, 1, &[true, true, true], 0x5eed_0208);
    let (shares, proofs) = decrypt_all(&mut e);
    assert_eq!(e.parties[2].index(), 3);
    assert_eq!(tally_by(&mut e, 2, &shares, &proofs), Some(3));
    assert_eq!(e.parties[2].validated_shares(), &vec![0, 1, 2]);
}

#[test]
fn an_empty_board_tallies_to_nothing() {
    let mut e = open_election(3, 1, &[], 0x5eed_0209);
    e.board.verify_encrypted_shares();
    e.board.verify_votes();
    assert_eq!(e.board.len(), 0);
    assert_eq!(e.board.count_valid_votes(), 0);
    assert!(e.board.tally_encrypted_votes().eq(&Point::identity()));
    assert!(e.board.sum_encrypted_shares().iter().all(|sum| sum.eq(&Point::identity())));
}
