//! The public check of a dealer's encrypted shares against the commitments.

use crate::error::{Error, ErrorKind};
use crate::field::{add_mod, cong, group_order, le_nat, mul_mod};
use crate::field::{lemma_cong_add, lemma_cong_mod, lemma_cong_mul, lemma_cong_reduced, lemma_field_ops};
use crate::parallel::par_map;
use crate::point::{exponents, Point};
use crate::polynomial::{npow, poly_eval, power_sum};
use crate::scalar::{values, Scalar};
use crate::transcript::{challenge_of, encode_points, Transcript};
use num_bigint::BigUint;
use vstd::prelude::*;

verus! {

/// The group order, 2^252 + 27742317777372353535851937790883648493, least
/// significant byte first.
pub const Q: [u8; 32] = [
    237, 211, 245, 92, 26, 99, 18, 88, 214, 156, 247, 162, 222, 249, 222, 20, 0, 0, 0, 0, 0, 0, 0,
    0, 0, 0, 0, 0, 0, 0, 0, 16,
];

/// The bytes of `Q` spell the group order.
pub proof fn lemma_order_bytes()
    ensures
        le_nat(Q@) == group_order(),
{
    reveal_with_fuel(le_nat, 33);
    let s = Q@;
    assert(s.len() == 32);
}

/// The constant that every transcript of this variant absorbs before its
/// fields.
pub const DOMAIN: [u8; 17] = [
    112, 118, 115, 115, 47, 115, 99, 104, 111, 101, 110, 109, 97, 107, 101, 114, 115,
];

/// `BigUint::modpow` of num-bigint, between little-endian byte strings: the
/// power `base^exponent` reduced by the modulus, which is read from 32
/// bytes, as the result is written to them.  The crate panics on a modulus
/// of zero and returns an unreduced one for the power zero: the modulus is
/// to be above one.
#[verifier::external_body]
fn bigint_modpow(base: u64, exponent: u64, modulus: &[u8; 32]) -> (r: [u8; 32])
    requires
        le_nat(modulus@) > 1,
    ensures
        le_nat(r@) == npow(base as nat, exponent as nat) % le_nat(modulus@),
{
    let m = BigUint::from_bytes_le(modulus);
    let bytes = BigUint::from(base).modpow(&BigUint::from(exponent), &m).to_bytes_le();
    let mut out = [0u8; 32];
    out[..bytes.len()].copy_from_slice(&bytes);
    out
}

/// The points that the check rebuilds for the party at place `x`, from the
/// exponents of what it is given: `X = sum_j x^j * C_j`, then
/// `a = z * H + d * X` and `b = z * pk + d * Y`.
pub open spec fn check_row(h: nat, commitments: Seq<nat>, pk: nat, y: nat, z: nat, d: nat, x: nat) -> (
    nat,
    nat,
    nat,
) {
    let big_x = poly_eval(commitments, x);
    (big_x, add_mod(mul_mod(h, z), mul_mod(big_x, d)), add_mod(mul_mod(pk, z), mul_mod(y, d)))
}

/// The rows of all parties, the first at place 1.
pub open spec fn check_rows(
    h: nat,
    commitments: Seq<nat>,
    pks: Seq<nat>,
    ys: Seq<nat>,
    z: Seq<nat>,
    d: nat,
) -> Seq<(nat, nat, nat)> {
    Seq::new(pks.len(), |i: int| check_row(h, commitments, pks[i], ys[i], z[i], d, (i + 1) as nat))
}

/// What a share-correctness proof hashes: what the transcript held before,
/// the variant's constant, then the encodings of all `X`, of all encrypted
/// shares, of all `a` and of all `b`.
pub open spec fn share_transcript(
    prefix: Seq<u8>,
    xs: Seq<nat>,
    ys: Seq<nat>,
    a: Seq<nat>,
    b: Seq<nat>,
) -> Seq<u8> {
    prefix + DOMAIN@ + encode_points(xs) + encode_points(ys) + encode_points(a) + encode_points(b)
}

/// Whether the proof `(d, z)` is accepted for the encrypted shares `ys`
/// under the commitments: the challenge recomputed from the rebuilt rows is
/// `d`.
pub open spec fn shares_accepted(
    prefix: Seq<u8>,
    h: nat,
    ys: Seq<nat>,
    pks: Seq<nat>,
    commitments: Seq<nat>,
    d: nat,
    z: Seq<nat>,
) -> bool {
    let rows = check_rows(h, commitments, pks, ys, z, d);
    d == challenge_of(
        share_transcript(
            prefix,
            Seq::new(rows.len(), |i: int| rows[i].0),
            ys,
            Seq::new(rows.len(), |i: int| rows[i].1),
            Seq::new(rows.len(), |i: int| rows[i].2),
        ),
    )
}

/// The row of the party at index `i`, whose place is `i + 1`.
fn rebuild_row(
    h: &Point,
    commitments: &Vec<Point>,
    public_key: &Point,
    share: &Point,
    z: &Scalar,
    d: &Scalar,
    i: usize,
) -> (r: (Point, Point, Point))
    requires
        i < usize::MAX,
    ensures
        (r.0@, r.1@, r.2@) == check_row(
            h@,
            exponents(commitments@),
            public_key@,
            share@,
            z@,
            d@,
            (i + 1) as nat,
        ),
{
    let ghost c = exponents(commitments@);
    let ghost x = (i + 1) as nat;
    let mut xi = Point::identity();
    let mut j: usize = 0;
    proof {
        lemma_order_bytes();
        lemma_cong_mod(0);
    }
    while j < commitments.len()
        invariant
            j <= commitments.len(),
            i < usize::MAX,
            x == i + 1,
            c == exponents(commitments@),
            le_nat(Q@) == group_order(),
            cong(xi@ as int, power_sum(c, x, j as nat) as int),
        decreases commitments.len() - j,
    {
        let power = bigint_modpow((i + 1) as u64, j as u64, &Q);
        let factor = Scalar::from_bytes_mod_order(&power);
        let term = commitments[j].mul(&factor);
        let next = xi.add(&term);
        proof {
            let cj = c[j as int];
            let p = npow(x, j as nat);
            assert(commitments@[j as int]@ == cj);
            lemma_cong_mod(p as int);
            lemma_cong_mod((p % group_order()) as int);
            assert(cong(factor@ as int, p as int));
            lemma_field_ops(cj, factor@);
            lemma_field_ops(xi@, term@);
            lemma_cong_mul(cj as int, cj as int, factor@ as int, p as int);
            lemma_cong_add(xi@ as int, power_sum(c, x, j as nat) as int, term@ as int, (cj * p) as int);
        }
        xi = next;
        j += 1;
    }
    proof {
        use_type_invariant(&xi);
        lemma_cong_mod(power_sum(c, x, c.len()) as int);
        lemma_cong_reduced(xi@ as int, poly_eval(c, x) as int);
    }
    let a = h.mul(z).add(&xi.mul(d));
    let b = public_key.mul(z).add(&share.mul(d));
    (xi, a, b)
}

/// The number of coefficients of a polynomial of degree `t`: `t + 1`, as
/// far as the machine can count.
pub open spec fn coefficients_of(t: usize) -> usize {
    if t < usize::MAX {
        (t + 1) as usize
    } else {
        usize::MAX
    }
}

/// The refusal that the lengths call for, if any: the first of public keys,
/// encrypted shares and responses that does not count `n`, else the
/// commitments if they do not count `t + 1`.  Each is reported as the
/// expected count and what it counts, then the count received.
pub open spec fn length_refusal(n: usize, t: usize, pks: nat, ys: nat, z: nat, commitments: nat) -> Option<
    ErrorKind,
> {
    if pks != n {
        Some(ErrorKind::CountMismatch(n, "parties", pks as usize, "public keys"))
    } else if ys != n {
        Some(ErrorKind::CountMismatch(n, "parties", ys as usize, "encrypted shares"))
    } else if z != n {
        Some(ErrorKind::CountMismatch(n, "parties", z as usize, "responses"))
    } else if commitments != t + 1 {
        Some(ErrorKind::CountMismatch(coefficients_of(t), "coefficients", commitments as usize, "commitments"))
    } else {
        None
    }
}

/// Checks the proof `(d, z)` that the encrypted shares lie on the polynomial
/// that the dealer committed to.  The lengths are checked first; then the
/// rows are rebuilt, in parallel, and the challenge is recomputed over them.
/// The transcript is left clear.
pub fn verify_encrypted_shares_standalone(
    h: &Point,
    transcript: &mut Transcript,
    encrypted_shares: &Vec<Point>,
    public_keys: &Vec<Point>,
    dealer_commitments: &Vec<Point>,
    proof: (&Scalar, &Vec<Scalar>),
    n: usize,
    t: usize,
) -> (r: Result<bool, Error>)
    ensures
        match r {
            Ok(accepted) => {
                &&& length_refusal(
                    n,
                    t,
                    public_keys@.len(),
                    encrypted_shares@.len(),
                    proof.1@.len(),
                    dealer_commitments@.len(),
                ) is None
                &&& accepted == shares_accepted(
                    old(transcript)@,
                    h@,
                    exponents(encrypted_shares@),
                    exponents(public_keys@),
                    exponents(dealer_commitments@),
                    proof.0@,
                    values(proof.1@),
                )
                &&& final(transcript).is_clear()
            },
            Err(e) => {
                &&& length_refusal(
                    n,
                    t,
                    public_keys@.len(),
                    encrypted_shares@.len(),
                    proof.1@.len(),
                    dealer_commitments@.len(),
                ) == Some(e.kind)
                &&& *final(transcript) == *old(transcript)
            },
        },
{
    let (d, z) = proof;
    if public_keys.len() != n {
        return Err(
            Error::from_kind(ErrorKind::CountMismatch(n, "parties", public_keys.len(), "public keys")),
        );
    }
    if encrypted_shares.len() != n {
        return Err(
            Error::from_kind(
                ErrorKind::CountMismatch(n, "parties", encrypted_shares.len(), "encrypted shares"),
            ),
        );
    }
    if z.len() != n {
        return Err(Error::from_kind(ErrorKind::CountMismatch(n, "parties", z.len(), "responses")));
    }
    if t == usize::MAX {
        return Err(
            Error::from_kind(
                ErrorKind::CountMismatch(usize::MAX, "coefficients", dealer_commitments.len(), "commitments"),
            ),
        );
    }
    if dealer_commitments.len() != t + 1 {
        return Err(
            Error::from_kind(
                ErrorKind::CountMismatch(t + 1, "coefficients", dealer_commitments.len(), "commitments"),
            ),
        );
    }
    let ghost rows = check_rows(
        h@,
        exponents(dealer_commitments@),
        exponents(public_keys@),
        exponents(encrypted_shares@),
        values(z@),
        d@,
    );
    let task = |i: usize| -> (r: (Point, Point, Point))
        requires
            i < n,
        ensures
            (r.0@, r.1@, r.2@) == check_row(
                h@,
                exponents(dealer_commitments@),
                public_keys@[i as int]@,
                encrypted_shares@[i as int]@,
                z@[i as int]@,
                d@,
                (i + 1) as nat,
            ),
        { rebuild_row(h, dealer_commitments, &public_keys[i], &encrypted_shares[i], &z[i], d, i) };
    let rebuilt = par_map(n, task);
    proof {
        assert forall|k: int| 0 <= k < n implies {
            let r = #[trigger] rebuilt@[k];
            (r.0@, r.1@, r.2@) == rows[k]
        } by {
            let at = k as usize;
            assert(call_ensures(task, (at,), rebuilt@[at as int]));
        }
    }
    let mut xs: Vec<Point> = Vec::new();
    let mut a: Vec<Point> = Vec::new();
    let mut b: Vec<Point> = Vec::new();
    let mut i: usize = 0;
    while i < n
        invariant
            i <= n,
            rebuilt@.len() == n,
            rows.len() == n,
            xs@.len() == i,
            a@.len() == i,
            b@.len() == i,
            forall|k: int|
                0 <= k < n ==> {
                    let r = #[trigger] rebuilt@[k];
                    (r.0@, r.1@, r.2@) == rows[k]
                },
            forall|k: int| 0 <= k < i ==> (#[trigger] xs@[k])@ == rows[k].0,
            forall|k: int| 0 <= k < i ==> (#[trigger] a@[k])@ == rows[k].1,
            forall|k: int| 0 <= k < i ==> (#[trigger] b@[k])@ == rows[k].2,
        decreases n - i,
    {
        let row = rebuilt[i];
        xs.push(row.0);
        a.push(row.1);
        b.push(row.2);
        i += 1;
    }
    proof {
        assert(exponents(xs@) =~= Seq::new(rows.len(), |i: int| rows[i].0));
        assert(exponents(a@) =~= Seq::new(rows.len(), |i: int| rows[i].1));
        assert(exponents(b@) =~= Seq::new(rows.len(), |i: int| rows[i].2));
    }
    transcript.absorb_bytes(DOMAIN.as_slice());
    transcript.absorb_points(&xs);
    transcript.absorb_points(encrypted_shares);
    transcript.absorb_points(&a);
    transcript.absorb_points(&b);
    let challenge = transcript.challenge();
    Ok(d.eq(&challenge))
}

} // verus!
