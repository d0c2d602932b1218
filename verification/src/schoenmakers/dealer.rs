//! The dealer: shares a secret among the parties and proves that the
//! encrypted shares lie on the committed polynomial.

use crate::error::{Error, ErrorKind};
use crate::field::{add_mod, cong, group_order, mul_mod, sub_mod};
use crate::field::{lemma_cong_add, lemma_cong_mul, lemma_cong_reduced, lemma_cong_sub, lemma_field_ops};
use crate::parallel::par_map;
use crate::point::{all_encode, compress_all, exponents, CompressedPoint, Point};
use crate::polynomial::{eval_multiply, eval_run, npow, poly_eval, power_sum, scale_point, Polynomial};
use crate::random::random_scalar;
use crate::scalar::{values, zeroize_all, Scalar};
use crate::schoenmakers::utils::{check_row, check_rows, share_transcript, shares_accepted, DOMAIN};
use crate::transcript::{challenge_of, Transcript};
use crate::utils::{all_elements, batch_decompress_ristretto_points, first_refused};
use rand_chacha::ChaCha20Rng;
use vstd::prelude::*;

verus! {

/// The point with exponent `h` multiplied by each scalar in turn.
pub open spec fn scaled(h: nat, s: Seq<nat>) -> Seq<nat> {
    Seq::new(s.len(), |i: int| mul_mod(h, s[i]))
}

/// Each point multiplied by the scalar at its index.
pub open spec fn paired(points: Seq<nat>, s: Seq<nat>) -> Seq<nat> {
    Seq::new(points.len(), |i: int| mul_mod(points[i], s[i]))
}

/// The challenge of the dealer's proof: the hash of `H * f(i)`, the
/// encrypted shares, `H * w_i` and `pk_i * w_i`.
pub open spec fn proof_challenge(
    prefix: Seq<u8>,
    h: nat,
    pks: Seq<nat>,
    evals: Seq<nat>,
    ys: Seq<nat>,
    w: Seq<nat>,
) -> nat {
    challenge_of(share_transcript(prefix, scaled(h, evals), ys, scaled(h, w), paired(pks, w)))
}

/// The responses of the dealer's proof: `z_i = w_i - d * f(i)`.
pub open spec fn proof_responses(evals: Seq<nat>, w: Seq<nat>, d: nat) -> Seq<nat> {
    Seq::new(w.len(), |i: int| sub_mod(w[i], mul_mod(d, evals[i])))
}

/// What a dealer with the polynomial `f` and the randomizers `w` publishes:
/// the encrypted shares `f(i) * pk_i`, the challenge, the responses, and the
/// commitments `f_j * H`.
pub open spec fn dealing(prefix: Seq<u8>, h: nat, pks: Seq<nat>, f: Seq<nat>, w: Seq<nat>) -> (
    Seq<nat>,
    nat,
    Seq<nat>,
    Seq<nat>,
) {
    let evals = eval_run(f, 1, pks.len());
    let ys = eval_multiply(f, pks, 1);
    let d = proof_challenge(prefix, h, pks, evals, ys, w);
    (ys, d, proof_responses(evals, w, d), scale_point(f, h))
}

/// A dealer of secrets to `n` parties with threshold `t`.
#[derive(Debug)]
pub struct Dealer {
    h: Point,
    n: usize,
    t: usize,
    public_keys: Vec<Point>,
    secret: Option<Scalar>,
}

impl Dealer {
    /// There is one public key for each party, and `n = 2t + 1`.
    #[verifier::type_invariant]
    pub closed spec fn well_formed(&self) -> bool {
        &&& self.public_keys@.len() == self.n
        &&& self.n == 2 * self.t + 1
    }

    /// The exponent of the second generator `H`.
    pub closed spec fn base(&self) -> nat {
        self.h@
    }

    /// The number of parties.
    pub closed spec fn parties(&self) -> nat {
        self.n as nat
    }

    /// The threshold.
    pub closed spec fn threshold(&self) -> nat {
        self.t as nat
    }

    /// The exponents of the parties' public keys.
    pub closed spec fn keys(&self) -> Seq<nat> {
        exponents(self.public_keys@)
    }

    /// The secret that was dealt last, if any was.
    pub closed spec fn dealt(&self) -> Option<nat> {
        match self.secret {
            Some(s) => Some(s@),
            None => None,
        }
    }

    /// The refusal that the arguments of `new` call for, if any.
    pub open spec fn refusal(n: usize, t: usize, public_keys: Seq<CompressedPoint>) -> Option<ErrorKind> {
        if public_keys.len() != n {
            Some(ErrorKind::CountMismatch(n, "parties", public_keys.len() as usize, "public keys"))
        } else if n != 2 * t + 1 {
            Some(ErrorKind::InvalidParameterSet(n, t, 0))
        } else if !all_elements(public_keys) {
            let k = choose|k: int| first_refused(public_keys, k);
            Some(ErrorKind::PointDecompressionError(public_keys[k].bytes))
        } else {
            None
        }
    }

    /// A dealer for the generator `H` and the parties with the given public
    /// keys.  Refused are, in this order: a number of keys other than `n`,
    /// parameters other than `n = 2t + 1`, and a key that is no group element.
    pub fn new(h: Point, n: usize, t: usize, public_keys: &[CompressedPoint]) -> (r: Result<Dealer, Error>)
        ensures
            match r {
                Ok(dealer) => {
                    &&& Dealer::refusal(n, t, public_keys@) is None
                    &&& dealer.base() == h@
                    &&& dealer.parties() == n
                    &&& dealer.threshold() == t
                    &&& all_encode(public_keys@, dealer.keys())
                    &&& dealer.dealt() is None
                },
                Err(e) => Dealer::refusal(n, t, public_keys@) == Some(e.kind),
            },
    {
        if public_keys.len() != n {
            return Err(
                Error::from_kind(ErrorKind::CountMismatch(n, "parties", public_keys.len(), "public keys")),
            );
        }
        if t > (usize::MAX - 1) / 2 || n != 2 * t + 1 {
            return Err(Error::from_kind(ErrorKind::InvalidParameterSet(n, t, 0)));
        }
        match batch_decompress_ristretto_points(public_keys) {
            Ok(pks) => {
                proof {
                    assert forall|i: int| 0 <= i < pks@.len() implies crate::point::encodes(
                        (#[trigger] public_keys@[i])@,
                        exponents(pks@)[i],
                    ) by {
                        assert(crate::point::is_element(public_keys@[i]@));
                    }
                }
                Ok(Dealer { h, n, t, public_keys: pks, secret: None })
            },
            Err(e) => {
                proof {
                    let k = choose|k: int|
                        first_refused(public_keys@, k) && e.kind == ErrorKind::PointDecompressionError(
                            (#[trigger] public_keys@[k]).bytes,
                        );
                    let k2 = choose|k: int| first_refused(public_keys@, k);
                    assert(first_refused(public_keys@, k));
                    assert(first_refused(public_keys@, k2));
                    assert(k == k2);
                }
                Err(e)
            },
        }
    }

    /// The commitments to the coefficients of `f`: each multiplied by `H`.
    pub fn generate_commitments(&self, f: &Polynomial) -> (r: Vec<CompressedPoint>)
        ensures
            all_encode(r@, scale_point(f@, self.base())),
    {
        f.mul_with_point_compress(&self.h)
    }

    /// The three points that the proof hashes for the party at index `i`:
    /// `H * f(i)`, `H * w_i` and `pk_i * w_i`.
    fn commit_row(&self, eval: &Scalar, w: &Scalar, i: usize) -> (r: (Point, Point, Point))
        requires
            i < self.parties(),
        ensures
            r.0@ == mul_mod(self.base(), eval@),
            r.1@ == mul_mod(self.base(), w@),
            r.2@ == mul_mod(self.keys()[i as int], w@),
    {
        proof {
            use_type_invariant(self);
        }
        (self.h.mul(eval), self.h.mul(w), self.public_keys[i].mul(w))
    }

    /// The proof that the encrypted shares are the values `evals` of one
    /// polynomial under the parties' keys, made with the randomizers `w`:
    /// the challenge `d` over the transcript, and `z_i = w_i - d * evals_i`.
    /// The transcript is left clear.
    pub fn dleq_pol_with(
        &self,
        evals: &Vec<Scalar>,
        enc_shares: &Vec<Point>,
        w: &Vec<Scalar>,
        transcript: &mut Transcript,
    ) -> (r: (Scalar, Vec<Scalar>))
        requires
            evals@.len() == self.parties(),
            enc_shares@.len() == self.parties(),
            w@.len() == self.parties(),
        ensures
            r.0@ == proof_challenge(
                old(transcript)@,
                self.base(),
                self.keys(),
                values(evals@),
                exponents(enc_shares@),
                values(w@),
            ),
            values(r.1@) == proof_responses(values(evals@), values(w@), r.0@),
            final(transcript).is_clear(),
    {
        proof {
            use_type_invariant(self);
        }
        let n = self.n;
        let task = |i: usize| -> (r: (Point, Point, Point))
            requires
                i < n,
            ensures
                r.0@ == mul_mod(self.base(), evals@[i as int]@),
                r.1@ == mul_mod(self.base(), w@[i as int]@),
                r.2@ == mul_mod(self.keys()[i as int], w@[i as int]@),
            { self.commit_row(&evals[i], &w[i], i) };
        let rows = par_map(n, task);
        proof {
            assert forall|k: int| 0 <= k < n implies {
                let r = #[trigger] rows@[k];
                &&& r.0@ == mul_mod(self.base(), evals@[k]@)
                &&& r.1@ == mul_mod(self.base(), w@[k]@)
                &&& r.2@ == mul_mod(self.keys()[k], w@[k]@)
            } by {
                let at = k as usize;
                assert(call_ensures(task, (at,), rows@[at as int]));
            }
        }
        let mut gen_evals: Vec<Point> = Vec::new();
        let mut a1: Vec<Point> = Vec::new();
        let mut a2: Vec<Point> = Vec::new();
        let mut i: usize = 0;
        while i < n
            invariant
                i <= n,
                n == self.parties(),
                rows@.len() == n,
                evals@.len() == n,
                w@.len() == n,
                gen_evals@.len() == i,
                a1@.len() == i,
                a2@.len() == i,
                forall|k: int|
                    0 <= k < n ==> {
                        let r = #[trigger] rows@[k];
                        &&& r.0@ == mul_mod(self.base(), evals@[k]@)
                        &&& r.1@ == mul_mod(self.base(), w@[k]@)
                        &&& r.2@ == mul_mod(self.keys()[k], w@[k]@)
                    },
                forall|k: int| 0 <= k < i ==> (#[trigger] gen_evals@[k])@ == mul_mod(self.base(), evals@[k]@),
                forall|k: int| 0 <= k < i ==> (#[trigger] a1@[k])@ == mul_mod(self.base(), w@[k]@),
                forall|k: int| 0 <= k < i ==> (#[trigger] a2@[k])@ == mul_mod(self.keys()[k], w@[k]@),
            decreases n - i,
        {
            let row = rows[i];
            gen_evals.push(row.0);
            a1.push(row.1);
            a2.push(row.2);
            i += 1;
        }
        proof {
            assert(exponents(gen_evals@) =~= scaled(self.base(), values(evals@)));
            assert(exponents(a1@) =~= scaled(self.base(), values(w@)));
            assert(exponents(a2@) =~= paired(self.keys(), values(w@)));
        }
        transcript.absorb_bytes(DOMAIN.as_slice());
        transcript.absorb_points(&gen_evals);
        transcript.absorb_points(enc_shares);
        transcript.absorb_points(&a1);
        transcript.absorb_points(&a2);
        let d = transcript.challenge();
        let mut z: Vec<Scalar> = Vec::new();
        let mut i: usize = 0;
        while i < n
            invariant
                i <= n,
                evals@.len() == n,
                w@.len() == n,
                z@.len() == i,
                forall|k: int|
                    0 <= k < i ==> (#[trigger] z@[k])@ == sub_mod(w@[k]@, mul_mod(d@, evals@[k]@)),
            decreases n - i,
        {
            z.push(w[i].sub(&d.mul(&evals[i])));
            i += 1;
        }
        proof {
            assert(values(z@) =~= proof_responses(values(evals@), values(w@), d@));
        }
        (d, z)
    }

    /// The proof of `dleq_pol_with`, with randomizers drawn from the
    /// generator and zeroized after use.
    pub fn dleq_pol(
        &self,
        evals: &Vec<Scalar>,
        enc_shares: &Vec<Point>,
        transcript: &mut Transcript,
        rng: &mut ChaCha20Rng,
    ) -> (r: (Scalar, Vec<Scalar>))
        requires
            evals@.len() == self.parties(),
            enc_shares@.len() == self.parties(),
        ensures
            exists|w: Seq<nat>|
                {
                    &&& w.len() == self.parties()
                    &&& r.0@ == #[trigger] proof_challenge(
                        old(transcript)@,
                        self.base(),
                        self.keys(),
                        values(evals@),
                        exponents(enc_shares@),
                        w,
                    )
                    &&& values(r.1@) == proof_responses(values(evals@), w, r.0@)
                },
            final(transcript).is_clear(),
    {
        let mut w = self.randomizers(rng);
        let out = self.dleq_pol_with(evals, enc_shares, &w, transcript);
        let ghost drawn = values(w@);
        zeroize_all(&mut w);
        proof {
            assert(out.0@ == proof_challenge(
                old(transcript)@,
                self.base(),
                self.keys(),
                values(evals@),
                exponents(enc_shares@),
                drawn,
            ));
        }
        out
    }

    /// One randomizer for each party, drawn from the generator.
    pub fn randomizers(&self, rng: &mut ChaCha20Rng) -> (r: Vec<Scalar>)
        ensures
            r@.len() == self.parties(),
    {
        let mut w: Vec<Scalar> = Vec::new();
        let mut i: usize = 0;
        while i < self.n
            invariant
                i <= self.n,
                w@.len() == i,
            decreases self.n - i,
        {
            w.push(random_scalar(rng));
            i += 1;
        }
        w
    }

    /// Deals the constant term of `f` with the randomizers `w`: the
    /// encrypted shares `f(i) * pk_i` for the places `1..=n`, the proof
    /// `(d, z)` and the commitments `f_j * H`.  The constant term is kept as
    /// the dealt secret and the transcript is left clear.  Randomizers that
    /// do not count `n` are refused with `CountMismatch`.
    pub fn deal_polynomial(&mut self, transcript: &mut Transcript, f: &Polynomial, w: &Vec<Scalar>) -> (r:
        Result<(Vec<CompressedPoint>, (Scalar, Vec<Scalar>), Vec<CompressedPoint>), Error>)
        ensures
            final(self).base() == old(self).base(),
            final(self).keys() == old(self).keys(),
            final(self).parties() == old(self).parties(),
            final(self).threshold() == old(self).threshold(),
            match r {
                Ok(out) => {
                    let d = dealing(old(transcript)@, old(self).base(), old(self).keys(), f@, values(w@));
                    &&& w@.len() == old(self).parties()
                    &&& all_encode(out.0@, d.0)
                    &&& out.1.0@ == d.1
                    &&& values(out.1.1@) == d.2
                    &&& all_encode(out.2@, d.3)
                    &&& final(transcript).is_clear()
                    &&& final(self).dealt() == (if f@.len() > 0 {
                        Some(f@[0])
                    } else {
                        old(self).dealt()
                    })
                },
                Err(e) => {
                    &&& w@.len() != old(self).parties()
                    &&& e.kind == ErrorKind::CountMismatch(
                        old(self).parties() as usize,
                        "parties",
                        w@.len() as usize,
                        "randomizers",
                    )
                    &&& *final(transcript) == *old(transcript)
                    &&& final(self).dealt() == old(self).dealt()
                },
            },
    {
        proof {
            use_type_invariant(&*self);
        }
        if w.len() != self.n {
            return Err(Error::from_kind(ErrorKind::CountMismatch(self.n, "parties", w.len(), "randomizers")));
        }
        match f.coef_at(0) {
            Some(secret) => {
                self.secret = Some(secret);
            },
            None => {},
        }
        let commitments = self.generate_commitments(f);
        let (evals, enc_evals) = f.evaluate_multiply(&self.public_keys, 1);
        proof {
            assert(evals@.len() == values(evals@).len());
            assert(enc_evals@.len() == exponents(enc_evals@).len());
        }
        let compressed_enc_evals = compress_all(&enc_evals);
        let proof_pair = self.dleq_pol_with(&evals, &enc_evals, w, transcript);
        Ok((compressed_enc_evals, proof_pair, commitments))
    }

    /// Deals `secret`: a polynomial of degree `t` with that constant term is
    /// drawn from the generator, and so are the randomizers of the proof;
    /// both are zeroized after use.
    /// What comes out is an honest dealing, which the verifier of encrypted
    /// shares accepts.
    pub fn deal_secret(&mut self, rng: &mut ChaCha20Rng, transcript: &mut Transcript, secret: Scalar) -> (r: (
        Vec<CompressedPoint>,
        (Scalar, Vec<Scalar>),
        Vec<CompressedPoint>,
    ))
        ensures
            final(self).base() == old(self).base(),
            final(self).keys() == old(self).keys(),
            final(self).parties() == old(self).parties(),
            final(self).threshold() == old(self).threshold(),
            final(self).dealt() == Some(secret@),
            final(transcript).is_clear(),
            exists|f: Seq<nat>, w: Seq<nat>|
                {
                    let d = #[trigger] dealing(old(transcript)@, old(self).base(), old(self).keys(), f, w);
                    &&& f.len() == old(self).threshold() + 1
                    &&& f[0] == secret@
                    &&& w.len() == old(self).parties()
                    &&& all_encode(r.0@, d.0)
                    &&& r.1.0@ == d.1
                    &&& values(r.1.1@) == d.2
                    &&& all_encode(r.2@, d.3)
                    &&& shares_accepted(old(transcript)@, old(self).base(), d.0, old(self).keys(), d.3, d.1, d.2)
                },
    {
        proof {
            use_type_invariant(&*self);
            assert(self.keys().len() == self.parties());
        }
        let mut f = Polynomial::sample_set_f0(self.t, rng, &secret);
        let mut w = self.randomizers(rng);
        let dealt = self.deal_polynomial(transcript, &f, &w);
        let ghost drawn = (f@, values(w@));
        f.zeroize();
        zeroize_all(&mut w);
        match dealt {
            Ok(out) => {
                proof {
                    lemma_honest_dealing_accepted(
                        old(transcript)@,
                        old(self).base(),
                        old(self).keys(),
                        drawn.0,
                        drawn.1,
                    );
                    let d = dealing(old(transcript)@, old(self).base(), old(self).keys(), drawn.0, drawn.1);
                    assert(drawn.0.len() == old(self).threshold() + 1);
                }
                out
            },
            Err(_) => {
                proof {
                    // this arm is never taken
                    assert(false);
                }
                (Vec::new(), (secret, Vec::new()), Vec::new())
            },
        }
    }

    /// There are as many public keys as parties.
    pub proof fn public_keys_len(&self) -> (n: nat)
        requires
            self.well_formed(),
        ensures
            n == self.parties(),
            self.keys().len() == n,
    {
        self.parties()
    }

    /// The generator `H`.
    pub fn h(&self) -> (r: Point)
        ensures
            r@ == self.base(),
    {
        self.h
    }

    /// The number of parties.
    pub fn n(&self) -> (r: usize)
        ensures
            r == self.parties(),
            r == 2 * self.threshold() + 1,
    {
        proof {
            use_type_invariant(self);
        }
        self.n
    }

    /// The threshold.
    pub fn t(&self) -> (r: usize)
        ensures
            r == self.threshold(),
    {
        self.t
    }

    /// The parties' public keys.
    pub fn public_keys(&self) -> (r: &Vec<Point>)
        ensures
            exponents(r@) == self.keys(),
            r@.len() == self.parties(),
    {
        proof {
            use_type_invariant(self);
        }
        &self.public_keys
    }

    /// The secret that was dealt last, if any was.
    pub fn secret(&self) -> (r: Option<Scalar>)
        ensures
            r is Some <==> self.dealt() is Some,
            r is Some ==> Some(r.unwrap()@) == self.dealt(),
    {
        self.secret
    }
}

/// Evaluating the committed coefficients `f_j * H` in the exponent gives
/// `f(x) * H`, term by term.
proof fn lemma_scaled_power_sum(h: nat, f: Seq<nat>, x: nat, k: nat)
    requires
        k <= f.len(),
    ensures
        cong(power_sum(scale_point(f, h), x, k) as int, (h * power_sum(f, x, k)) as int),
    decreases k,
{
    if k == 0 {
        assert(h * 0 == 0) by (nonlinear_arith);
    } else {
        let j = (k - 1) as nat;
        let sc = scale_point(f, h);
        lemma_scaled_power_sum(h, f, x, j);
        lemma_field_ops(h, f[j as int]);
        assert(sc[j as int] == mul_mod(h, f[j as int]));
        lemma_cong_mul(sc[j as int] as int, (h * f[j as int]) as int, npow(x, j) as int, npow(x, j) as int);
        lemma_cong_add(
            power_sum(sc, x, j) as int,
            (h * power_sum(f, x, j)) as int,
            (sc[j as int] * npow(x, j)) as int,
            ((h * f[j as int]) * npow(x, j)) as int,
        );
        let a = power_sum(f, x, j) as int;
        let b = f[j as int] as int;
        let c = npow(x, j) as int;
        let hh = h as int;
        assert(hh * a + (hh * b) * c == hh * (a + b * c)) by (nonlinear_arith);
    }
}

/// Evaluating the commitments of `f` in the exponent at `x` gives the point
/// `f(x) * H`.
pub proof fn lemma_scaled_eval(h: nat, f: Seq<nat>, x: nat)
    ensures
        poly_eval(scale_point(f, h), x) == mul_mod(h, poly_eval(f, x)),
{
    let q = group_order() as int;
    lemma_scaled_power_sum(h, f, x, f.len());
    let s = power_sum(f, x, f.len());
    crate::field::lemma_cong_mod(s as int);
    lemma_cong_mul(h as int, h as int, (s % group_order()) as int, s as int);
    lemma_field_ops(h, poly_eval(f, x));
    crate::field::lemma_cong_mod(power_sum(scale_point(f, h), x, f.len()) as int);
    lemma_cong_reduced(poly_eval(scale_point(f, h), x) as int, mul_mod(h, poly_eval(f, x)) as int);
}

/// The verifier's combination of a response `z = w - d * e` with the point
/// `e * B` gives back the prover's commitment `w * B`, for any point `B`.
pub proof fn lemma_response(b: nat, w: nat, d: nat, e: nat)
    ensures
        add_mod(mul_mod(b, sub_mod(w, mul_mod(d, e))), mul_mod(mul_mod(b, e), d)) == mul_mod(b, w),
{
    let de = mul_mod(d, e);
    let z = sub_mod(w, de);
    let bz = mul_mod(b, z);
    let be = mul_mod(b, e);
    let bed = mul_mod(be, d);
    lemma_field_ops(d, e);
    lemma_field_ops(w, de);
    lemma_field_ops(b, z);
    lemma_field_ops(b, e);
    lemma_field_ops(be, d);
    lemma_field_ops(bz, bed);
    lemma_field_ops(b, w);
    let (bi, wi, di, ei) = (b as int, w as int, d as int, e as int);
    lemma_cong_sub(wi, wi, de as int, di * ei);
    lemma_cong_mul(bi, bi, z as int, wi - di * ei);
    lemma_cong_mul(be as int, bi * ei, di, di);
    lemma_cong_add(bz as int, bi * (wi - di * ei), bed as int, (bi * ei) * di);
    assert(bi * (wi - di * ei) + (bi * ei) * di == bi * wi) by (nonlinear_arith);
    lemma_cong_reduced(add_mod(bz, bed) as int, mul_mod(b, w) as int);
}

/// An honest dealing is accepted: whatever the polynomial `f`, the
/// randomizers `w` and the public keys, the verifier recomputes the
/// challenge that the dealer derived.
pub proof fn lemma_honest_dealing_accepted(prefix: Seq<u8>, h: nat, pks: Seq<nat>, f: Seq<nat>, w: Seq<nat>)
    requires
        w.len() == pks.len(),
    ensures
        ({
            let out = dealing(prefix, h, pks, f, w);
            shares_accepted(prefix, h, out.0, pks, out.3, out.1, out.2)
        }),
{
    let n = pks.len();
    let evals = eval_run(f, 1, n);
    let ys = eval_multiply(f, pks, 1);
    let d = proof_challenge(prefix, h, pks, evals, ys, w);
    let z = proof_responses(evals, w, d);
    let comm = scale_point(f, h);
    let rows = check_rows(h, comm, pks, ys, z, d);
    assert forall|i: int| 0 <= i < n implies #[trigger] rows[i] == (
        mul_mod(h, evals[i]),
        mul_mod(h, w[i]),
        mul_mod(pks[i], w[i]),
    ) by {
        let x = (i + 1) as nat;
        lemma_scaled_eval(h, f, x);
        lemma_response(h, w[i], d, evals[i]);
        lemma_response(pks[i], w[i], d, evals[i]);
        assert(evals[i] == poly_eval(f, x));
        assert(ys[i] == mul_mod(pks[i], evals[i]));
        assert(z[i] == sub_mod(w[i], mul_mod(d, evals[i])));
        assert(rows[i] == check_row(h, comm, pks[i], ys[i], z[i], d, x));
    }
    assert(Seq::new(rows.len(), |i: int| rows[i].0) =~= scaled(h, evals));
    assert(Seq::new(rows.len(), |i: int| rows[i].1) =~= scaled(h, w));
    assert(Seq::new(rows.len(), |i: int| rows[i].2) =~= paired(pks, w));
}

} // verus!
