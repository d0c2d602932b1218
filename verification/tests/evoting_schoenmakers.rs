use pvss_evoting::evoting_schoenmakers::bulletin_board::BulletinBoard;
use pvss_evoting::evoting_schoenmakers::tallier::Tallier;
use pvss_evoting::evoting_schoenmakers::voter::Voter;
use pvss_evoting::point::{CompressedPoint, Point};
use pvss_evoting::random::random_point;
use pvss_evoting::scalar::Scalar;
use pvss_evoting::tally::decode_tally;
use pvss_evoting::transcript::Transcript;
use pvss_evoting::utils::precompute_lambda;
use rand_chacha::rand_core::SeedableRng;
use rand_chacha::ChaCha20Rng;

#[test]
fn test_verif() {
    let n: usize = 7;
    let t: usize = 3;

    let lambdas = precompute_lambda(n, t);

    let m: usize = 3;
    let false_ratio = 0.7;

    let f_count = (m as f64 * false_ratio) as usize;
    let t_count = m - f_count;

    let mut rng = ChaCha20Rng::seed_from_u64(0x5eed_0002);
    let mut transcript = Transcript::new();

    let g: Point = random_point(&mut rng);
    let h: Point = random_point(&mut rng);

    let mut talliers = Tallier::generate_talliers(&g, &h, &mut rng, n, t);
    let public_keys: (Vec<CompressedPoint>, Vec<Point>) =
        talliers.iter().map(|tallier| tallier.party.public_key()).unzip();

    let mut voters = Voter::generate_voters(&g, &h, m, n, t, &public_keys.0).unwrap();

    let mut bulletin_board: BulletinBoard = BulletinBoard::new(&g, &h, &public_keys.1, m, n, t);

    voters.iter_mut().enumerate().for_each(|(i, voter)| {
        let (encrypted_shares, (d, z), dealer_commitments, encrypted_vote, vote_proof) =
            voter.vote(&mut rng, &mut transcript, i < t_count).unwrap();

        let decompressed_encrypted_shares: Vec<Point> =
            encrypted_shares.iter().map(|enc_share| enc_share.1).collect();

        bulletin_board.ingest_vote(
            decompressed_encrypted_shares,
            (d, z),
            encrypted_vote.decompress().unwrap(),
            dealer_commitments,
            vote_proof.decompress().unwrap(),
        );
    });

    // voting complete

    let mut decrypted_shares: Vec<CompressedPoint> = Vec::with_capacity(n);
    let mut decrypted_share_proofs: Vec<(Scalar, Scalar)> = Vec::with_capacity(n);

    for tallier in &mut talliers {
        let mut bb = bulletin_board.clone();

        bb.verify_encrypted_shares();

        bb.verify_votes();

        let own = tallier.party.public_key().0;
        let public_keys: Vec<CompressedPoint> =
            public_keys.0.iter().filter(|pk| !own.eq(pk)).copied().collect();

        tallier.party.ingest_public_keys(&public_keys).unwrap();

        let compressed_shares: Vec<CompressedPoint> =
            bb.sum_encrypted_shares().iter().map(|share| share.compress()).collect();

        tallier.party.ingest_encrypted_shares(&compressed_shares).unwrap();

        tallier.party.decrypt_share().unwrap();
        tallier.party.dleq_share(&mut rng, &mut transcript).unwrap();

        decrypted_shares.push(tallier.party.decrypted_share().unwrap().compress());
        decrypted_share_proofs.push(tallier.party.share_proof().unwrap());
        tallier.bulletin_board = Some(bb);
    }

    let mut reconstructed_secrets: Vec<Point> = vec![];

    for tallier in &mut talliers {
        let (mut dec_shares, mut share_proofs) = (decrypted_shares.clone(), decrypted_share_proofs.clone());

        dec_shares.remove(tallier.party.index() - 1);
        share_proofs.remove(tallier.party.index() - 1);
        tallier.party.ingest_decrypted_shares_and_proofs(&dec_shares, share_proofs).unwrap();

        assert!(tallier.party.verify_decrypted_shares().unwrap());

        reconstructed_secrets.push(tallier.party.reconstruct_secret(&lambdas).unwrap());
    }

    let accumulated_encrypted_votes = talliers[0].bulletin_board.as_ref().unwrap().tally_encrypted_votes();

    let recon_secret = reconstructed_secrets[0];

    let exp_vote = accumulated_encrypted_votes.sub(&recon_secret);

    let mut decrypted_vote = 0.0;

    for i in 0u64..=talliers[0].bulletin_board.as_ref().unwrap().count_valid_votes() as u64 {
        if exp_vote.eq(&g.mul(&Scalar::from_u64(i))) {
            decrypted_vote = i as f64;
            break;
        }
    }

    assert_eq!(decrypted_vote, t_count as f64);
    assert_eq!(
        decode_tally(&g, &exp_vote, talliers[0].bulletin_board.as_ref().unwrap().count_valid_votes()),
        Some(t_count)
    );
    if decrypted_vote == ((m as f64) / 2.0) {
        println!("Tie");
    } else if decrypted_vote > ((m as f64) / 2.0) {
        println!("Candidate 1 is the Winner");
    } else {
        println!("Candidate 0 is the Winner");
    }

    println!("{decrypted_vote}");
}
