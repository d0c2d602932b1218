use pvss_evoting::point::{CompressedPoint, Point};
use pvss_evoting::polynomial::Polynomial;
use pvss_evoting::random::{random_point, random_scalar};
use pvss_evoting::scalar::Scalar;
use pvss_evoting::schoenmakers::utils::Q;
use pvss_evoting::tally::decode_tally;
use pvss_evoting::transcript::Transcript;
use pvss_evoting::utils::{
    batch_decompress_ristretto_points, decompress_ristretto_point, generate_public_keys, lagrange_coefficients,
    precompute_lambda,
};
use pvss_evoting::error::ErrorKind;
use rand_chacha::rand_core::SeedableRng;
use rand_chacha::ChaCha20Rng;

fn n(x: u64) -> Scalar {
    Scalar::from_u64(x)
}

#[test]
fn scalar_arithmetic_is_modular() {
    assert!(n(7).add(&n(5)).eq(&n(12)));
    assert!(n(7).sub(&n(5)).eq(&n(2)));
    assert!(n(7).mul(&n(5)).eq(&n(35)));
    assert!(n(5).sub(&n(7)).add(&n(2)).is_zero());
    assert!(n(7).neg().add(&n(7)).is_zero());
    assert!(!n(7).neg().eq(&n(7)));
    assert!(n(7).invert().mul(&n(7)).eq(&Scalar::one()));
    assert!(!n(7).invert().eq(&n(7)));
    assert!(Scalar::zero().invert().is_zero());
    assert!(Scalar::zero().is_zero());
    assert!(!Scalar::one().is_zero());
}

#[test]
fn zeroized_secrets_are_zero() {
    let mut secret = n(0xdead_beef);
    secret.zeroize();
    assert!(secret.is_zero());
    assert_eq!(secret.to_bytes(), [0u8; 32]);
    let mut f = Polynomial::from_coefficients(vec![n(3), n(2), n(5)]);
    f.zeroize();
    assert_eq!(f.len(), 3);
    assert!((0..3).all(|j| f.coef_at(j).unwrap().is_zero()));
    let mut run = vec![n(1), n(2)];
    pvss_evoting::scalar::zeroize_all(&mut run);
    assert!(run.len() == 2 && run[0].is_zero() && run[1].is_zero());
}

#[test]
fn scalar_encoding_is_little_endian() {
    let mut bytes = [0u8; 32];
    bytes[0] = 0x34;
    bytes[1] = 0x12;
    assert_eq!(n(0x1234).to_bytes(), bytes);
    assert!(Scalar::from_canonical_bytes(&bytes).unwrap().eq(&n(0x1234)));
    assert!(Scalar::from_bytes_mod_order(&bytes).eq(&n(0x1234)));
}

#[test]
fn group_order_is_reduced_to_zero() {
    assert!(Scalar::from_bytes_mod_order(&Q).is_zero());
    assert!(Scalar::from_canonical_bytes(&Q).is_none());
    let mut below = Q;
    below[0] -= 1;
    let top = Scalar::from_canonical_bytes(&below).unwrap();
    assert!(top.add(&Scalar::one()).is_zero());
    assert!(top.eq(&Scalar::one().neg()));
    let mut above = Q;
    above[0] += 3;
    assert!(Scalar::from_bytes_mod_order(&above).eq(&n(3)));
}

#[test]
fn wide_reduction_takes_all_sixty_four_bytes() {
    let mut wide = [0u8; 64];
    wide[0] = 9;
    assert!(Scalar::from_bytes_mod_order_wide(&wide).eq(&n(9)));
    // 2^256 is congruent to 2^256 mod q, which is not zero
    let mut high = [0u8; 64];
    high[32] = 1;
    let two_to_256 = Scalar::from_bytes_mod_order_wide(&high);
    let mut all_ones = [0xffu8; 32];
    all_ones[31] = 0xff;
    let max = Scalar::from_bytes_mod_order(&all_ones);
    assert!(max.add(&Scalar::one()).eq(&two_to_256));
}

#[test]
fn basepoint_multiples_add_up() {
    let a = Point::mul_base(&n(7));
    let b = Point::mul_base(&n(5));
    assert!(a.add(&b).eq(&Point::mul_base(&n(12))));
    assert!(a.sub(&b).eq(&Point::mul_base(&n(2))));
    assert!(a.mul(&n(5)).eq(&Point::mul_base(&n(35))));
    assert!(a.add(&Point::identity()).eq(&a));
    assert!(Point::mul_base(&Scalar::zero()).eq(&Point::identity()));
    assert!(!a.eq(&b));
    assert!(!a.add(&b).eq(&a));
    assert!(!a.mul(&n(5)).eq(&a));
    assert!(!a.sub(&b).eq(&a));
}

#[test]
fn compress_then_decompress_is_identity() {
    let mut rng = ChaCha20Rng::seed_from_u64(0x5eed_0301);
    for _ in 0..8 {
        let p = random_point(&mut rng);
        let wire = p.compress();
        let back = wire.decompress().unwrap();
        assert!(back.eq(&p));
        assert_eq!(back.compress().to_bytes(), wire.to_bytes());
        assert!(decompress_ristretto_point(wire).unwrap().eq(&p));
    }
    assert_eq!(Point::identity().compress().to_bytes(), [0u8; 32]);
}

#[test]
fn invalid_encodings_are_refused() {
    // an encoding with the top bit set is never canonical
    let bad = CompressedPoint::from_bytes([0xff; 32]);
    assert!(bad.decompress().is_none());
    let refused = decompress_ristretto_point(bad).unwrap_err();
    assert!(matches!(refused.kind(), ErrorKind::PointDecompressionError(bytes) if bytes == [0xff; 32]));
    // a negative field element: the low bit of the first byte set
    let mut odd = [0u8; 32];
    odd[0] = 1;
    assert!(CompressedPoint::from_bytes(odd).decompress().is_none());

    let good = Point::mul_base(&n(3)).compress();
    let batch = [good, bad, CompressedPoint::from_bytes(odd)];
    let refused = batch_decompress_ristretto_points(&batch).unwrap_err();
    assert!(matches!(refused.kind(), ErrorKind::PointDecompressionError(bytes) if bytes == [0xff; 32]));
    let all = batch_decompress_ristretto_points(&[good, good]).unwrap();
    assert_eq!(all.len(), 2);
    assert!(all[1].eq(&Point::mul_base(&n(3))));
}

#[test]
fn random_bytes_rarely_decompress() {
    // of random 32-byte strings about one in sixteen encodes a point; what
    // decompresses must compress back to the same bytes
    let mut rng = ChaCha20Rng::seed_from_u64(0x5eed_0302);
    let mut refused = 0;
    for _ in 0..64 {
        let bytes = random_scalar(&mut rng).mul(&random_scalar(&mut rng)).to_bytes();
        let mut flipped = bytes;
        flipped[31] ^= 0x40;
        match CompressedPoint::from_bytes(flipped).decompress() {
            Some(p) => assert_eq!(p.compress().to_bytes(), flipped),
            None => refused += 1,
        }
    }
    assert!(refused > 32);
}

#[test]
fn polynomial_evaluation_has_exact_values() {
    // f(x) = 3 + 2x + 5x^2
    let f = Polynomial::from_coefficients(vec![n(3), n(2), n(5)]);
    assert_eq!(f.len(), 3);
    assert!(f.evaluate(0).eq(&n(3)));
    assert!(f.evaluate(1).eq(&n(10)));
    assert!(f.evaluate(2).eq(&n(27)));
    assert!(f.evaluate(10).eq(&n(523)));
    assert!(f.evaluate_at(&n(1).neg()).eq(&n(6)));
    assert!(f.coef_at(2).unwrap().eq(&n(5)));
    assert!(f.coef_at(3).is_none());
    assert!(Polynomial::from_coefficients(vec![]).evaluate(4).is_zero());
}

#[test]
fn evaluate_multiply_keeps_the_order_of_the_points() {
    let f = Polynomial::from_coefficients(vec![n(3), n(2), n(5)]);
    let points: Vec<Point> = (1..=6u64).map(|k| Point::mul_base(&n(100 + k))).collect();
    for base in [0usize, 1] {
        let (evals, shares) = f.evaluate_multiply(&points, base);
        assert_eq!(evals.len(), 6);
        assert_eq!(shares.len(), 6);
        for i in 0..6 {
            assert!(evals[i].eq(&f.evaluate(i + base)));
            assert!(shares[i].eq(&points[i].mul(&f.evaluate(i + base))));
        }
    }
}

#[test]
fn polynomial_sums_and_products() {
    let f = Polynomial::from_coefficients(vec![n(3), n(2), n(5)]);
    let g = Polynomial::from_coefficients(vec![n(1), n(1)]);
    let s = f.sum(&g);
    assert_eq!(s.len(), 2);
    assert!(s.coef_at(0).unwrap().eq(&n(4)) && s.coef_at(1).unwrap().eq(&n(3)));

    let mut h = f.clone();
    h.sum_in_place(&g);
    assert_eq!(h.len(), 3);
    assert!(h.coef_at(0).unwrap().eq(&n(4)) && h.coef_at(1).unwrap().eq(&n(3)) && h.coef_at(2).unwrap().eq(&n(5)));

    let mut z = f.clone();
    z.mul_sum(&n(10), &Polynomial::from_coefficients(vec![n(1), n(2), n(3)]));
    assert!(z.coef_at(0).unwrap().eq(&n(31)));
    assert!(z.coef_at(1).unwrap().eq(&n(22)));
    assert!(z.coef_at(2).unwrap().eq(&n(53)));
    // evaluation is linear: (10 f + r)(x) = 10 f(x) + r(x)
    let r = Polynomial::from_coefficients(vec![n(1), n(2), n(3)]);
    assert!(z.evaluate(7).eq(&n(10).mul(&f.evaluate(7)).add(&r.evaluate(7))));

    let doubled = f.coef_op(|c: Scalar, x: Scalar| c.mul(&x), &n(2));
    assert!(doubled.evaluate(2).eq(&n(54)));
    let mut shifted = f.clone();
    shifted.coef_op_in_place(|c: Scalar, x: Scalar| c.add(&x), &n(1));
    assert!(shifted.evaluate(1).eq(&n(13)));

    let points = f.mul_with_point_compress(&Point::mul_base(&n(4)));
    assert_eq!(points.len(), 3);
    assert_eq!(points[2].to_bytes(), Point::mul_base(&n(20)).compress().to_bytes());
}

#[test]
fn sampled_polynomials_have_the_asked_degree() {
    let mut rng = ChaCha20Rng::seed_from_u64(0x5eed_0303);
    assert_eq!(Polynomial::sample(4, &mut rng).len(), 5);
    let f = Polynomial::sample_set_f0(3, &mut rng, &n(42));
    assert_eq!(f.len(), 4);
    assert!(f.evaluate(0).eq(&n(42)));
    assert!(!f.coef_at(1).unwrap().eq(&f.coef_at(2).unwrap()));
    let (a, b) = Polynomial::sample_two_set_f0(2, &n(9), &mut rng);
    assert_eq!((a.len(), b.len()), (3, 3));
    assert!(a.coef_at(0).unwrap().eq(&n(9)));
    assert!(!b.coef_at(0).unwrap().eq(&n(9)));
}

#[test]
fn seeded_generators_repeat_and_advance() {
    let mut first = ChaCha20Rng::seed_from_u64(7);
    let mut second = ChaCha20Rng::seed_from_u64(7);
    let a = random_scalar(&mut first);
    let b = random_scalar(&mut first);
    assert!(a.eq(&random_scalar(&mut second)));
    assert!(!a.eq(&b));
    assert!(random_point(&mut first).eq(&{
        let _ = random_scalar(&mut second);
        random_point(&mut second)
    }));
}

#[test]
fn lambdas_of_three_parties() {
    // among the places 1 and 2: lambda_1 = 2/(2-1) = 2, lambda_2 = 1/(1-2) = -1,
    // and for place 3: (1/(1-3)) (2/(2-3)) = 1
    let lambdas = precompute_lambda(3, 1);
    assert_eq!(lambdas.len(), 3);
    assert!(lambdas[0].eq(&n(2)));
    assert!(lambdas[1].eq(&n(1).neg()));
    assert!(lambdas[2].eq(&n(1)));
    // f(x) = 11 + 4x: f(0) = 2 f(1) - f(2)
    let f = Polynomial::from_coefficients(vec![n(11), n(4)]);
    assert!(lambdas[0].mul(&f.evaluate(1)).add(&lambdas[1].mul(&f.evaluate(2))).eq(&n(11)));
}

#[test]
fn lagrange_coefficients_of_any_subset_interpolate_at_zero() {
    // f(x) = 11 + 4x + 9x^2 through the places 2, 4, 5 (indices 1, 3, 4)
    let f = Polynomial::from_coefficients(vec![n(11), n(4), n(9)]);
    let indices = vec![1usize, 3, 4];
    let weights = lagrange_coefficients(&indices);
    assert_eq!(weights.len(), 3);
    let mut at_zero = Scalar::zero();
    for (k, index) in indices.iter().enumerate() {
        at_zero = at_zero.add(&weights[k].mul(&f.evaluate(index + 1)));
    }
    assert!(at_zero.eq(&n(11)));
    // lambda for place 2 among {2, 4, 5}: (4/(4-2)) (5/(5-2)) = 10/3
    assert!(weights[0].mul(&n(3)).eq(&n(10)));
    // among the places 1..=3 the subset coefficients are the precomputed ones
    let first = lagrange_coefficients(&vec![0usize, 1, 2]);
    let precomputed = precompute_lambda(5, 2);
    for k in 0..3 {
        assert!(first[k].eq(&precomputed[k]));
    }
}

#[test]
fn tallies_are_decoded_by_search() {
    let g = Point::mul_base(&n(77));
    assert_eq!(decode_tally(&g, &g.mul(&n(0)), 5), Some(0));
    assert_eq!(decode_tally(&g, &g.mul(&n(3)), 5), Some(3));
    assert_eq!(decode_tally(&g, &g.mul(&n(5)), 5), Some(5));
    assert_eq!(decode_tally(&g, &g.mul(&n(6)), 5), None);
    assert_eq!(decode_tally(&g, &g.mul(&n(1)), 0), None);
}

#[test]
fn challenges_are_blake3_output_reduced() {
    let mut transcript = Transcript::new();
    assert!(transcript.cleared());
    transcript.absorb_bytes(b"abc");
    assert!(!transcript.cleared());
    transcript.absorb_point(&Point::mul_base(&n(3)));
    let challenge = transcript.challenge();
    assert!(transcript.cleared());

    let mut hasher = blake3::Hasher::new();
    hasher.update(b"abc");
    hasher.update(&Point::mul_base(&n(3)).compress().to_bytes());
    let mut wide = [0u8; 64];
    hasher.finalize_xof().fill(&mut wide);
    let expected = curve25519_dalek::Scalar::from_bytes_mod_order_wide(&wide);
    assert_eq!(challenge.to_bytes(), expected.to_bytes());

    // the transcript is clear again: what follows is the challenge of nothing
    let mut empty = [0u8; 64];
    blake3::Hasher::new().finalize_xof().fill(&mut empty);
    let of_nothing = curve25519_dalek::Scalar::from_bytes_mod_order_wide(&empty);
    assert_eq!(transcript.challenge().to_bytes(), of_nothing.to_bytes());
    assert!(!challenge.eq(&Scalar::from_canonical_bytes(&of_nothing.to_bytes()).unwrap()));
}

#[test]
fn generated_public_keys_are_group_elements() {
    let mut rng = ChaCha20Rng::seed_from_u64(0x5eed_0304);
    let g = random_point(&mut rng);
    let keys = generate_public_keys(&g, &mut rng, 4);
    assert_eq!(keys.len(), 4);
    assert!(keys.iter().all(|key| key.decompress().is_some()));
    assert!(!keys[0].eq(&keys[1]));
}
