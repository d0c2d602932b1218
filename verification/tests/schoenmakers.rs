use pvss_evoting::point::{CompressedPoint, Point};
use pvss_evoting::random::random_scalar;
use pvss_evoting::scalar::Scalar;
use pvss_evoting::schoenmakers::dealer::Dealer;
use pvss_evoting::error::ErrorKind;
use pvss_evoting::polynomial::Polynomial;
use pvss_evoting::schoenmakers::party::{generate_parties, Party};
use pvss_evoting::schoenmakers::utils::verify_encrypted_shares_standalone;
use pvss_evoting::utils::lagrange_coefficients;
use pvss_evoting::transcript::Transcript;
use pvss_evoting::utils::precompute_lambda;
use rand_chacha::rand_core::SeedableRng;
use rand_chacha::ChaCha20Rng;

#[test]
fn end_to_end() {
    const N: usize = 11;
    const T: usize = 5;

    let mut rng = ChaCha20Rng::seed_from_u64(0x5eed_0001);

    let secret = random_scalar(&mut rng);

    let g: Point = Point::mul_base(&random_scalar(&mut rng));
    let h: Point = Point::mul_base(&random_scalar(&mut rng));
    assert!(!g.eq(&h));

    let mut transcript = Transcript::new();

    let lambdas = precompute_lambda(N, T);

    let mut parties = generate_parties(g, h, &mut rng, N, T);

    let public_keys: Vec<CompressedPoint> = parties.iter().map(|party| party.public_key().0).collect();

    let mut dealer = Dealer::new(h, N, T, &public_keys).unwrap();

    for party in &mut parties {
        let own = party.public_key().0;
        let public_keys: Vec<CompressedPoint> =
            public_keys.iter().filter(|pk| !own.eq(pk)).copied().collect();

        party.ingest_public_keys(&public_keys).unwrap();
    }

    let (encrypted_shares, (d, z), commitments) = dealer.deal_secret(&mut rng, &mut transcript, secret);

    for p in &mut parties {
        p.ingest_encrypted_shares(&encrypted_shares).unwrap();
        p.ingest_dealer_proof(d, z.clone()).unwrap();
        p.ingest_commitments(&commitments).unwrap();

        let res = p.verify_encrypted_shares(&mut transcript).unwrap();

        assert!(res, "encrypted share verification failure");
    }

    let (decrypted_shares, share_proofs): (Vec<CompressedPoint>, Vec<(Scalar, Scalar)>) = parties
        .iter_mut()
        .map(|p| {
            p.decrypt_share().unwrap();
            p.dleq_share(&mut rng, &mut transcript).unwrap();

            (p.decrypted_share().unwrap().compress(), p.share_proof().unwrap())
        })
        .collect();

    let mut reconstructed_secrets: Vec<Point> = vec![];
    for p in &mut parties {
        let (mut decrypted_shares, mut share_proofs) = (decrypted_shares.clone(), share_proofs.clone());

        decrypted_shares.remove(p.index() - 1);
        share_proofs.remove(p.index() - 1);
        p.ingest_decrypted_shares_and_proofs(&decrypted_shares, share_proofs).unwrap();

        assert!(p.verify_decrypted_shares().unwrap());

        reconstructed_secrets.push(p.reconstruct_secret(&lambdas).unwrap());
    }
    let expected = g.mul(&dealer.secret().unwrap());
    reconstructed_secrets.iter().for_each(|secret| assert!(expected.eq(secret)));
}

#[test]
fn party_parameters_must_fit() {
    let mut rng = ChaCha20Rng::seed_from_u64(0x5eed_0011);
    let g = Point::mul_base(&Scalar::from_u64(2));
    let h = Point::mul_base(&Scalar::from_u64(3));
    assert!(Party::new(g, h, &mut rng, 5, 2, 1).is_ok());
    assert!(Party::new(g, h, &mut rng, 5, 2, 5).is_ok());
    for (n, t, index) in [(5, 2, 0), (5, 2, 6), (4, 1, 1), (5, 3, 1), (5, 1, 1), (0, 0, 0)] {
        let refused = Party::new(g, h, &mut rng, n, t, index).err().unwrap();
        assert!(matches!(refused.kind(), ErrorKind::InvalidParameterSet(a, b, c) if (a, b, c) == (n, t, index)));
    }
    let party = Party::with_private_key(g, h, Scalar::from_u64(10), 3, 1, 2).unwrap();
    assert!(party.public_key().1.eq(&Point::mul_base(&Scalar::from_u64(20))));
    assert!(party.private_key().eq(&Scalar::from_u64(10)));
    assert_eq!((party.n(), party.t(), party.index()), (3, 1, 2));
}

#[test]
fn party_refuses_what_does_not_fit() {
    let mut rng = ChaCha20Rng::seed_from_u64(0x5eed_0012);
    let g = Point::mul_base(&Scalar::from_u64(2));
    let h = Point::mul_base(&Scalar::from_u64(3));
    let mut party = Party::new(g, h, &mut rng, 3, 1, 2).unwrap();
    let point = g.compress();
    let bad = CompressedPoint::from_bytes([0xff; 32]);

    // nothing was ingested yet
    let mut transcript = Transcript::new();
    assert!(matches!(
        party.verify_encrypted_shares(&mut transcript).unwrap_err().kind(),
        ErrorKind::UninitializedValue("party.{dealer_proof, dealer_commitments}")
    ));
    assert!(matches!(
        party.decrypt_share().unwrap_err().kind(),
        ErrorKind::UninitializedValue("party.encrypted_share")
    ));
    assert!(matches!(
        party.dleq_share(&mut rng, &mut transcript).unwrap_err().kind(),
        ErrorKind::UninitializedValue("party.{decrypted_share, encrypted_shares}")
    ));
    assert!(matches!(
        party.verify_decrypted_shares().unwrap_err().kind(),
        ErrorKind::UninitializedValue("party.{public_keys, encrypted_shares}")
    ));
    assert!(matches!(
        party.reconstruct_secret(&vec![]).unwrap_err().kind(),
        ErrorKind::UninitializedValue("party.decrypted_shares")
    ));
    assert!(matches!(
        party.reconstruct_secret_pessimistic(&vec![]).unwrap_err().kind(),
        ErrorKind::UninitializedValue("party.decrypted_shares")
    ));

    // counts
    assert!(matches!(
        party.ingest_public_keys(&[point]).unwrap_err().kind(),
        ErrorKind::CountMismatch(2, "other parties", 1, "public_keys")
    ));
    assert!(matches!(
        party.ingest_encrypted_shares(&[point, point]).unwrap_err().kind(),
        ErrorKind::CountMismatch(3, "parties", 2, "encrypted shares")
    ));
    assert!(matches!(
        party.ingest_commitments(&[point]).unwrap_err().kind(),
        ErrorKind::CountMismatch(2, "coefficients", 1, "commitments")
    ));
    assert!(matches!(
        party.ingest_decrypted_shares_and_proofs(&[point], vec![]).unwrap_err().kind(),
        ErrorKind::CountMismatch(2, "other parties", 1, "decrypted shares")
    ));
    assert!(matches!(
        party.ingest_decrypted_shares_and_proofs(&[point, point], vec![]).unwrap_err().kind(),
        ErrorKind::CountMismatch(2, "decrypted shares", 0, "proofs")
    ));

    // points
    assert!(matches!(
        party.ingest_public_keys(&[point, bad]).unwrap_err().kind(),
        ErrorKind::PointDecompressionError(bytes) if bytes == [0xff; 32]
    ));
    assert!(matches!(
        party.ingest_encrypted_shares(&[point, bad, point]).unwrap_err().kind(),
        ErrorKind::PointDecompressionError(_)
    ));

    // a party that fits takes the commitments in and keeps them in order
    assert!(party.dealer_commitments().is_none());
    let other = h.compress();
    party.ingest_commitments(&[point, other]).unwrap();
    let kept = party.dealer_commitments().as_ref().unwrap();
    assert!(kept.len() == 2 && kept[0].eq(&g) && kept[1].eq(&h));
    assert!(matches!(
        party.ingest_commitments(&[point, other, point]).unwrap_err().kind(),
        ErrorKind::CountMismatch(2, "coefficients", 3, "commitments")
    ));
    assert!(party.dealer_commitments().as_ref().unwrap()[1].eq(&h));

    // the dealer's proof
    let one = Scalar::one();
    assert!(matches!(
        party.ingest_dealer_proof(Scalar::zero(), vec![one, one, one]).unwrap_err().kind(),
        ErrorKind::InvalidProof("d == 0")
    ));
    assert!(matches!(
        party.ingest_dealer_proof(one, vec![one, one]).unwrap_err().kind(),
        ErrorKind::InvalidProof("z length")
    ));
    assert!(party.ingest_dealer_proof(one, vec![one, one, one]).is_ok());
    assert!(party.dealer_proof().as_ref().unwrap().1.len() == 3);
    assert!(matches!(
        party.verify_encrypted_shares(&mut transcript).unwrap_err().kind(),
        ErrorKind::UninitializedValue("party.{encrypted_shares, public_keys}")
    ));

    // own share and proof must be there before the others' are taken in
    assert!(matches!(
        party.ingest_decrypted_shares_and_proofs(&[point, point], vec![(one, one), (one, one)]).unwrap_err().kind(),
        ErrorKind::UninitializedValue("party.{decrypted_share, share_proof}")
    ));
    party.ingest_encrypted_shares(&[point, point, point]).unwrap();
    assert!(party.encrypted_share().unwrap().eq(&g));
    party.decrypt_share().unwrap();
    assert!(party.decrypted_share().unwrap().mul(&party.private_key()).eq(&g));
    assert!(matches!(
        party.ingest_decrypted_shares_and_proofs(&[point, point], vec![(one, one), (one, one)]).unwrap_err().kind(),
        ErrorKind::UninitializedValue("party.share_proof")
    ));
    assert!(matches!(
        party.reconstruct_secret(&vec![one]).unwrap_err().kind(),
        ErrorKind::UninitializedValue("party.decrypted_shares")
    ));
}

#[test]
fn powers_of_places_beyond_the_order_are_reduced() {
    // with 85 parties and threshold 42 the powers i^j that the check
    // multiplies the commitments by pass the group order: 85^40 is above it
    let n = 85;
    let t = 42;
    let mut rng = ChaCha20Rng::seed_from_u64(0x5eed_0016);
    let h = Point::mul_base(&random_scalar(&mut rng));
    let keys: Vec<Point> = (0..n).map(|_| Point::mul_base(&random_scalar(&mut rng))).collect();
    let wire: Vec<CompressedPoint> = keys.iter().map(|key| key.compress()).collect();
    let mut dealer = Dealer::new(h, n, t, &wire).unwrap();
    let secret = random_scalar(&mut rng);
    let (shares, (d, z), commitments) = dealer.deal_secret(&mut rng, &mut Transcript::new(), secret);
    assert_eq!((shares.len(), z.len(), commitments.len()), (n, n, t + 1));
    let shares: Vec<Point> = shares.iter().map(|c| c.decompress().unwrap()).collect();
    let commitments: Vec<Point> = commitments.iter().map(|c| c.decompress().unwrap()).collect();
    assert!(commitments[0].eq(&h.mul(&secret)));
    let accepted = verify_encrypted_shares_standalone(
        &h,
        &mut Transcript::new(),
        &shares,
        &keys,
        &commitments,
        (&d, &z),
        n,
        t,
    );
    assert!(accepted.unwrap());
}

#[test]
fn generated_parties_are_fresh() {
    let mut rng = ChaCha20Rng::seed_from_u64(0x5eed_0014);
    let g = Point::mul_base(&Scalar::from_u64(2));
    let h = Point::mul_base(&Scalar::from_u64(3));
    let parties = generate_parties(g, h, &mut rng, 5, 2);
    assert_eq!(parties.len(), 5);
    for (i, party) in parties.iter().enumerate() {
        assert_eq!((party.index(), party.n(), party.t()), (i + 1, 5, 2));
        assert!(party.g().eq(&g) && party.h().eq(&h));
        assert!(party.public_key().1.eq(&g.mul(&party.private_key())));
        assert!(party.public_keys().is_none() && party.encrypted_shares().is_none());
        assert!(party.dealer_commitments().is_none() && party.dealer_proof().is_none());
        assert!(party.decrypted_share().is_none() && party.share_proof().is_none());
        assert!(party.decrypted_shares().is_none() && party.share_proofs().is_none());
        assert!(party.encrypted_share().is_none() && party.validated_shares().is_empty());
    }
    assert!(!parties[0].private_key().eq(&parties[1].private_key()));
}

#[test]
fn coefficients_need_only_cover_the_validated_places() {
    let mut rng = ChaCha20Rng::seed_from_u64(0x5eed_0015);
    let g = Point::mul_base(&Scalar::from_u64(2));
    let h = Point::mul_base(&Scalar::from_u64(3));
    let a = Point::mul_base(&Scalar::from_u64(100)).compress();
    let b = Point::mul_base(&Scalar::from_u64(200)).compress();
    let mut party = Party::new(g, h, &mut rng, 3, 1, 2).unwrap();
    party.ingest_public_keys(&[a, b]).unwrap();
    party.ingest_encrypted_shares(&[a, b, a]).unwrap();
    party.decrypt_share().unwrap();
    party.dleq_share(&mut rng, &mut Transcript::new()).unwrap();
    let one = Scalar::one();
    party.ingest_decrypted_shares_and_proofs(&[a, b], vec![(one, one), (one, one)]).unwrap();
    assert_eq!(party.public_keys().as_ref().unwrap().len(), 3);
    assert!(party.public_keys().as_ref().unwrap()[1].eq(&party.public_key().1));
    assert!(party.decrypted_shares().as_ref().unwrap()[1].eq(&party.decrypted_share().unwrap()));
    assert!(party.share_proofs().as_ref().unwrap()[1].0.eq(&party.share_proof().unwrap().0));
    assert!(party.encrypted_shares().as_ref().unwrap()[2].eq(&a.decompress().unwrap()));
    // nothing is validated yet: any coefficients will do, and nothing is summed
    assert!(party.reconstruct_secret(&vec![]).unwrap().eq(&Point::identity()));
    party.verify_decrypted_shares().unwrap();
    assert_eq!(party.validated_shares(), &vec![1]);
    // the only validated index is 1: two coefficients reach it, one does not
    let own = party.decrypted_share().unwrap();
    let seven = Scalar::from_u64(7);
    assert!(party.reconstruct_secret(&vec![one, seven]).unwrap().eq(&own.mul(&seven)));
    assert!(party.reconstruct_secret(&vec![one, seven, one, one, one]).unwrap().eq(&own.mul(&seven)));
    assert!(matches!(
        party.reconstruct_secret(&vec![one]).unwrap_err().kind(),
        ErrorKind::CountMismatch(2, "validated places", 1, "lambdas")
    ));
    assert!(matches!(
        party.reconstruct_secret(&vec![]).unwrap_err().kind(),
        ErrorKind::CountMismatch(2, "validated places", 0, "lambdas")
    ));
}

#[test]
fn self_is_inserted_at_its_place() {
    let mut rng = ChaCha20Rng::seed_from_u64(0x5eed_0013);
    let g = Point::mul_base(&Scalar::from_u64(2));
    let h = Point::mul_base(&Scalar::from_u64(3));
    let a = Point::mul_base(&Scalar::from_u64(100)).compress();
    let b = Point::mul_base(&Scalar::from_u64(200)).compress();
    for index in [1usize, 2, 3] {
        let mut party = Party::new(g, h, &mut rng, 3, 1, index).unwrap();
        party.ingest_public_keys(&[a, b]).unwrap();
        party.ingest_encrypted_shares(&[a, b, a]).unwrap();
        party.decrypt_share().unwrap();
        party.dleq_share(&mut rng, &mut Transcript::new()).unwrap();
        let one = Scalar::one();
        party.ingest_decrypted_shares_and_proofs(&[a, b], vec![(one, one), (one, one)]).unwrap();
        // the two foreign proofs are spoilt: only the own share counts
        assert!(!party.verify_decrypted_shares().unwrap());
        assert_eq!(party.validated_shares(), &vec![index - 1]);
        let lambdas = precompute_lambda(3, 1);
        let own = party.decrypted_share().unwrap();
        let weights = lagrange_coefficients(&vec![index - 1]);
        assert!(weights[0].eq(&one));
        assert!(party.reconstruct_secret_pessimistic(&lambdas).unwrap().eq(&if index == 1 {
            own.mul(&lambdas[0])
        } else {
            own
        }));
    }
}

#[test]
fn dealer_refuses_what_does_not_fit() {
    let h = Point::mul_base(&Scalar::from_u64(3));
    let key = Point::mul_base(&Scalar::from_u64(5)).compress();
    let bad = CompressedPoint::from_bytes([0xff; 32]);
    assert!(matches!(
        Dealer::new(h, 3, 1, &[key, key]).err().unwrap().kind(),
        ErrorKind::CountMismatch(3, "parties", 2, "public keys")
    ));
    assert!(matches!(
        Dealer::new(h, 4, 1, &[key, key, key, key]).err().unwrap().kind(),
        ErrorKind::InvalidParameterSet(4, 1, 0)
    ));
    assert!(matches!(
        Dealer::new(h, 3, 1, &[key, bad, key]).err().unwrap().kind(),
        ErrorKind::PointDecompressionError(bytes) if bytes == [0xff; 32]
    ));
    let dealer = Dealer::new(h, 3, 1, &[key, key, key]).unwrap();
    assert_eq!((dealer.n(), dealer.t(), dealer.public_keys().len()), (3, 1, 3));
    assert!(dealer.h().eq(&h));
    assert!(dealer.secret().is_none());
}

#[test]
fn dealing_from_given_randomness_is_exact() {
    let s = |x: u64| Scalar::from_u64(x);
    let h = Point::mul_base(&s(3));
    let keys: Vec<Point> = (1..=3u64).map(|k| Point::mul_base(&s(10 * k))).collect();
    let wire: Vec<CompressedPoint> = keys.iter().map(|k| k.compress()).collect();
    let mut dealer = Dealer::new(h, 3, 1, &wire).unwrap();
    // f(x) = 7 + 2x
    let f = Polynomial::from_coefficients(vec![s(7), s(2)]);
    let w = vec![s(11), s(12), s(13)];
    let mut transcript = Transcript::new();
    let (shares, (d, z), commitments) = dealer.deal_polynomial(&mut transcript, &f, &w).unwrap();
    assert!(dealer.secret().unwrap().eq(&s(7)));
    // Y_i = f(i) pk_i and C_j = f_j H
    for i in 0..3u64 {
        let expected = Point::mul_base(&s((7 + 2 * (i + 1)) * 10 * (i + 1)));
        assert_eq!(shares[i as usize].to_bytes(), expected.compress().to_bytes());
        // z_i = w_i - d f(i)
        assert!(z[i as usize].eq(&w[i as usize].sub(&d.mul(&s(7 + 2 * (i + 1))))));
    }
    assert_eq!(commitments[0].to_bytes(), Point::mul_base(&s(21)).compress().to_bytes());
    assert_eq!(commitments[1].to_bytes(), Point::mul_base(&s(6)).compress().to_bytes());

    let points: Vec<Point> = shares.iter().map(|c| c.decompress().unwrap()).collect();
    let committed: Vec<Point> = commitments.iter().map(|c| c.decompress().unwrap()).collect();
    let check = |shares: &Vec<Point>, d: &Scalar, z: &Vec<Scalar>, n: usize, t: usize| {
        verify_encrypted_shares_standalone(&h, &mut Transcript::new(), shares, &keys, &committed, (d, z), n, t)
    };
    assert!(check(&points, &d, &z, 3, 1).unwrap());
    // a spoilt response, a spoilt challenge, a spoilt share: all rejected
    let mut spoilt = z.clone();
    spoilt[1] = spoilt[1].add(&s(1));
    assert!(!check(&points, &d, &spoilt, 3, 1).unwrap());
    assert!(!check(&points, &d.add(&s(1)), &z, 3, 1).unwrap());
    let mut moved = points.clone();
    moved[0] = moved[0].add(&h);
    assert!(!check(&moved, &d, &z, 3, 1).unwrap());
    // a transcript that already holds something gives another challenge
    let mut used = Transcript::new();
    used.absorb_bytes(b"x");
    assert!(!verify_encrypted_shares_standalone(&h, &mut used, &points, &keys, &committed, (&d, &z), 3, 1).unwrap());
    // lengths that do not fit are refused
    assert!(matches!(
        check(&points, &d, &z, 4, 1).unwrap_err().kind(),
        ErrorKind::CountMismatch(4, "parties", 3, "public keys")
    ));
    assert!(matches!(
        check(&points, &d, &z, 3, 2).unwrap_err().kind(),
        ErrorKind::CountMismatch(3, "coefficients", 2, "commitments")
    ));
    assert!(matches!(
        check(&points[..2].to_vec(), &d, &z, 3, 1).unwrap_err().kind(),
        ErrorKind::CountMismatch(3, "parties", 2, "encrypted shares")
    ));
    assert!(matches!(
        check(&points, &d, &z[..1].to_vec(), 3, 1).unwrap_err().kind(),
        ErrorKind::CountMismatch(3, "parties", 1, "responses")
    ));
    assert!(matches!(
        dealer.deal_polynomial(&mut transcript, &f, &vec![s(1)]).unwrap_err().kind(),
        ErrorKind::CountMismatch(3, "parties", 1, "randomizers")
    ));
}
