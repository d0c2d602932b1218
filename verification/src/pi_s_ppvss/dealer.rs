//! The dealer: shares a secret among the parties and proves, with one
//! scalar and one polynomial, that the encrypted shares lie on a
//! polynomial.

use crate::error::{Error, ErrorKind};
use crate::field::{add_mod, mul_mod, sub_mod};
use crate::field::{lemma_cong_add, lemma_cong_mul, lemma_cong_reduced, lemma_cong_sub, lemma_field_ops};
use crate::pi_s_ppvss::utils::{rebuilt_commitments, share_transcript, shares_accepted, DOMAIN};
use crate::point::{all_encode, compress_all, exponents, CompressedPoint, Point};
use crate::polynomial::{blend, eval_multiply, lemma_blend_eval, poly_eval, Polynomial};
use crate::scalar::Scalar;
use crate::transcript::{challenge_of, Transcript};
use crate::utils::{all_elements, batch_decompress_ristretto_points, first_refused};
use rand_chacha::ChaCha20Rng;
use vstd::prelude::*;

verus! {

/// What a dealer with the polynomial `f` and the blinding polynomial `r`
/// publishes for the keys `pks`, the first of which is the key of place
/// zero: the encrypted shares `f(i) * pk_i`, the challenge over them and
/// the commitments `r(i) * pk_i`, and the polynomial `d * f + r`.
pub open spec fn dealing(prefix: Seq<u8>, pks: Seq<nat>, f: Seq<nat>, r: Seq<nat>) -> (Seq<nat>, nat, Seq<nat>) {
    let ys = eval_multiply(f, pks, 0);
    let d = challenge_of(share_transcript(prefix, ys, eval_multiply(r, pks, 0)));
    (ys, d, blend(f, d, r))
}

/// The verifier's combination `z * P - d * Y` gives back the commitment
/// `rho * P` whenever `z = d * e + rho` and `Y = e * P`.
proof fn lemma_unblind(p: nat, d: nat, e: nat, rho: nat)
    ensures
        sub_mod(mul_mod(p, add_mod(mul_mod(d, e), rho)), mul_mod(mul_mod(p, e), d)) == mul_mod(p, rho),
{
    let de = mul_mod(d, e);
    let z = add_mod(de, rho);
    let pz = mul_mod(p, z);
    let y = mul_mod(p, e);
    let yd = mul_mod(y, d);
    lemma_field_ops(d, e);
    lemma_field_ops(de, rho);
    lemma_field_ops(p, z);
    lemma_field_ops(p, e);
    lemma_field_ops(y, d);
    lemma_field_ops(pz, yd);
    lemma_field_ops(p, rho);
    let (pi, di, ei, ri) = (p as int, d as int, e as int, rho as int);
    lemma_cong_add(de as int, di * ei, ri, ri);
    lemma_cong_mul(pi, pi, z as int, di * ei + ri);
    lemma_cong_mul(y as int, pi * ei, di, di);
    lemma_cong_sub(pz as int, pi * (di * ei + ri), yd as int, (pi * ei) * di);
    assert(pi * (di * ei + ri) - (pi * ei) * di == pi * ri) by (nonlinear_arith);
    lemma_cong_reduced(sub_mod(pz, yd) as int, mul_mod(p, rho) as int);
}

/// An honest dealing is accepted: whatever the polynomial `f`, the
/// blinding polynomial `r` of the same length and the keys, the verifier
/// recomputes the challenge that the dealer derived.
pub proof fn lemma_honest_dealing_accepted(prefix: Seq<u8>, pks: Seq<nat>, f: Seq<nat>, r: Seq<nat>)
    requires
        f.len() == r.len(),
    ensures
        ({
            let out = dealing(prefix, pks, f, r);
            shares_accepted(prefix, out.0, pks, out.1, out.2)
        }),
{
    let out = dealing(prefix, pks, f, r);
    let (ys, d, z) = out;
    let rebuilt = rebuilt_commitments(pks, ys, z, d);
    let made = eval_multiply(r, pks, 0);
    assert forall|i: int| 0 <= i < pks.len() implies #[trigger] rebuilt[i] == made[i] by {
        let x = i as nat;
        lemma_blend_eval(f, d, r, x);
        lemma_unblind(pks[i], d, poly_eval(f, x), poly_eval(r, x));
        assert(ys[i] == mul_mod(pks[i], poly_eval(f, (i + 0) as nat)));
        assert(made[i] == mul_mod(pks[i], poly_eval(r, (i + 0) as nat)));
    }
    assert(rebuilt =~= made);
}

/// A dealer of secrets to `n` parties with threshold `t`.
#[derive(Debug)]
pub struct Dealer {
    n: usize,
    t: usize,
    public_keys: Vec<Point>,
    secret: Option<Scalar>,
}

impl Dealer {
    /// The keys are those of place zero and of the `n` parties, and
    /// `n = 2t + 1`.
    #[verifier::type_invariant]
    pub closed spec fn well_formed(&self) -> bool {
        &&& self.public_keys@.len() == self.n + 1
        &&& self.n == 2 * self.t + 1
    }

    /// The number of parties.
    pub closed spec fn parties(&self) -> nat {
        self.n as nat
    }

    /// The threshold.
    pub closed spec fn threshold(&self) -> nat {
        self.t as nat
    }

    /// The exponents of the keys: that of place zero, then those of the
    /// parties.
    pub closed spec fn keys(&self) -> Seq<nat> {
        exponents(self.public_keys@)
    }

    /// The secret that was dealt last, if any was.
    pub closed spec fn dealt(&self) -> Option<nat> {
        match self.secret {
            Some(s) => Some(s@),
            None => None,
        }
    }

    /// There is one key for place zero and one for each party.
    pub proof fn lemma_keys_len(&self)
        requires
            self.well_formed(),
        ensures
            self.keys().len() == self.parties() + 1,
            self.parties() == 2 * self.threshold() + 1,
    {
    }

    /// The refusal that the arguments of `new` call for, if any.
    pub open spec fn refusal(n: usize, t: usize, public_keys: Seq<CompressedPoint>) -> Option<ErrorKind> {
        if public_keys.len() != n {
            Some(ErrorKind::CountMismatch(n, "parties", public_keys.len() as usize, "public keys"))
        } else if n != 2 * t + 1 || n == usize::MAX {
            Some(ErrorKind::InvalidParameterSet(n, t, 0))
        } else if !all_elements(public_keys) {
            let k = choose|k: int| first_refused(public_keys, k);
            Some(ErrorKind::PointDecompressionError(public_keys[k].bytes))
        } else {
            None
        }
    }

    /// A dealer for the parties with the given public keys and the key
    /// `pk0` of place zero.  Refused are, in this order: a number of keys
    /// other than `n`, parameters other than `n = 2t + 1`, and a key that is
    /// no group element.
    pub fn new(n: usize, t: usize, public_keys: &[CompressedPoint], pk0: &Point) -> (r: Result<Dealer, Error>)
        ensures
            match r {
                Ok(dealer) => {
                    &&& Dealer::refusal(n, t, public_keys@) is None
                    &&& dealer.parties() == n
                    &&& dealer.threshold() == t
                    &&& dealer.keys().len() == n + 1
                    &&& dealer.keys()[0] == pk0@
                    &&& all_encode(public_keys@, dealer.keys().subrange(1, n + 1))
                    &&& dealer.dealt() is None
                },
                Err(e) => Dealer::refusal(n, t, public_keys@) == Some(e.kind),
            },
    {
        if public_keys.len() != n {
            return Err(
                Error::from_kind(ErrorKind::CountMismatch(n, "parties", public_keys.len(), "public keys")),
            );
        }
        if t > (usize::MAX - 1) / 2 || n != 2 * t + 1 || n == usize::MAX {
            return Err(Error::from_kind(ErrorKind::InvalidParameterSet(n, t, 0)));
        }
        match batch_decompress_ristretto_points(public_keys) {
            Ok(mut pks) => {
                let ghost others = exponents(pks@);
                proof {
                    assert forall|i: int| 0 <= i < pks@.len() implies crate::point::encodes(
                        (#[trigger] public_keys@[i])@,
                        others[i],
                    ) by {
                        assert(crate::point::is_element(public_keys@[i]@));
                    }
                }
                pks.insert(0, *pk0);
                proof {
                    assert(exponents(pks@).subrange(1, n + 1) =~= others);
                }
                Ok(Dealer { n, t, public_keys: pks, secret: None })
            },
            Err(e) => {
                proof {
                    let k = choose|k: int|
                        first_refused(public_keys@, k) && e.kind == ErrorKind::PointDecompressionError(
                            (#[trigger] public_keys@[k]).bytes,
                        );
                    let k2 = choose|k: int| first_refused(public_keys@, k);
                    assert(first_refused(public_keys@, k));
                    assert(first_refused(public_keys@, k2));
                    assert(k == k2);
                }
                Err(e)
            },
        }
    }

    /// The key of place zero.
    pub fn get_pk0(&self) -> (r: Point)
        ensures
            r@ == self.keys()[0],
    {
        proof {
            use_type_invariant(self);
        }
        self.public_keys[0]
    }

    /// The number of parties.
    pub fn n(&self) -> (r: usize)
        ensures
            r == self.parties(),
            r == 2 * self.threshold() + 1,
            r < usize::MAX,
    {
        proof {
            use_type_invariant(self);
        }
        let _ = self.public_keys.len();
        self.n
    }

    /// The threshold.
    pub fn t(&self) -> (r: usize)
        ensures
            r == self.threshold(),
    {
        self.t
    }

    /// The keys: that of place zero, then those of the parties.
    pub fn public_keys(&self) -> (r: &Vec<Point>)
        ensures
            exponents(r@) == self.keys(),
            r@.len() == self.parties() + 1,
    {
        proof {
            use_type_invariant(self);
        }
        &self.public_keys
    }

    /// The secret that was dealt last, if any was.
    pub fn secret(&self) -> (r: Option<Scalar>)
        ensures
            r is Some <==> self.dealt() is Some,
            r is Some ==> Some(r.unwrap()@) == self.dealt(),
    {
        self.secret
    }

    /// The proof that the encrypted shares lie on the polynomial `f`, made
    /// with the blinding polynomial `r`: the challenge `d` over the shares
    /// and the commitments `r(i) * pk_i`, and the polynomial `d * f + r`.
    /// The transcript is left clear.
    pub fn dleq_pol_with(&self, f: &Polynomial, r: &Polynomial, enc_shares: &Vec<Point>, transcript: &mut Transcript) -> (out:
        (Scalar, Polynomial))
        ensures
            out.0@ == challenge_of(
                share_transcript(
                    old(transcript)@,
                    exponents(enc_shares@),
                    eval_multiply(r@, self.keys(), 0),
                ),
            ),
            out.1@ == blend(f@, out.0@, r@),
            final(transcript).is_clear(),
    {
        let (_, commitments) = r.evaluate_multiply(&self.public_keys, 0);
        transcript.absorb_bytes(DOMAIN.as_slice());
        transcript.absorb_points(enc_shares);
        transcript.absorb_points(&commitments);
        let d = transcript.challenge();
        let mut z = f.clone();
        z.mul_sum(&d, r);
        (d, z)
    }

    /// Deals the constant term of `f` with the blinding polynomial `r`: the
    /// encrypted shares `f(i) * pk_i` for the places `0..=n` and the proof
    /// `(d, z)`.  The constant term is kept as the dealt secret and the
    /// transcript is left clear.  Polynomials that have not `t + 1`
    /// coefficients each are refused with `CountMismatch`; then nothing has
    /// changed.
    pub fn deal_polynomials(&mut self, transcript: &mut Transcript, f: &Polynomial, r: &Polynomial) -> (out: Result<
        (Vec<CompressedPoint>, (Scalar, Polynomial)),
        Error,
    >)
        ensures
            final(self).keys() == old(self).keys(),
            final(self).parties() == old(self).parties(),
            final(self).threshold() == old(self).threshold(),
            match out {
                Ok(dealt) => {
                    let d = dealing(old(transcript)@, old(self).keys(), f@, r@);
                    &&& f@.len() == old(self).threshold() + 1
                    &&& r@.len() == old(self).threshold() + 1
                    &&& all_encode(dealt.0@, d.0)
                    &&& dealt.1.0@ == d.1
                    &&& dealt.1.1@ == d.2
                    &&& final(transcript).is_clear()
                    &&& final(self).dealt() == Some(f@[0])
                },
                Err(e) => {
                    &&& e.kind == (if f@.len() != old(self).threshold() + 1 {
                        ErrorKind::CountMismatch(
                            (old(self).threshold() + 1) as usize,
                            "coefficients",
                            f@.len() as usize,
                            "polynomial",
                        )
                    } else {
                        ErrorKind::CountMismatch(
                            (old(self).threshold() + 1) as usize,
                            "coefficients",
                            r@.len() as usize,
                            "blinding polynomial",
                        )
                    })
                    &&& f@.len() != old(self).threshold() + 1 || r@.len() != old(self).threshold() + 1
                    &&& *final(transcript) == *old(transcript)
                    &&& final(self).dealt() == old(self).dealt()
                },
            },
    {
        proof {
            use_type_invariant(&*self);
        }
        if f.len() != self.t + 1 {
            return Err(
                Error::from_kind(ErrorKind::CountMismatch(self.t + 1, "coefficients", f.len(), "polynomial")),
            );
        }
        if r.len() != self.t + 1 {
            return Err(
                Error::from_kind(
                    ErrorKind::CountMismatch(self.t + 1, "coefficients", r.len(), "blinding polynomial"),
                ),
            );
        }
        match f.coef_at(0) {
            Some(secret) => {
                self.secret = Some(secret);
            },
            None => {},
        }
        let (_, enc_evals) = f.evaluate_multiply(&self.public_keys, 0);
        let compressed = compress_all(&enc_evals);
        let proof_pair = self.dleq_pol_with(f, r, &enc_evals, transcript);
        Ok((compressed, proof_pair))
    }

    /// Deals `secret`: a polynomial of degree `t` with that constant term
    /// and a blinding polynomial are drawn from the generator and zeroized
    /// after use.  What comes
    /// out is an honest dealing, which the verifier of encrypted shares
    /// accepts.
    pub fn deal_secret(&mut self, rng: &mut ChaCha20Rng, transcript: &mut Transcript, secret: &Scalar) -> (out: (
        Vec<CompressedPoint>,
        (Scalar, Polynomial),
    ))
        ensures
            final(self).keys() == old(self).keys(),
            final(self).parties() == old(self).parties(),
            final(self).threshold() == old(self).threshold(),
            final(self).dealt() == Some(secret@),
            final(transcript).is_clear(),
            exists|f: Seq<nat>, r: Seq<nat>|
                {
                    let d = #[trigger] dealing(old(transcript)@, old(self).keys(), f, r);
                    &&& f.len() == old(self).threshold() + 1
                    &&& r.len() == old(self).threshold() + 1
                    &&& f[0] == secret@
                    &&& all_encode(out.0@, d.0)
                    &&& out.1.0@ == d.1
                    &&& out.1.1@ == d.2
                    &&& shares_accepted(old(transcript)@, d.0, old(self).keys(), d.1, d.2)
                },
    {
        let (mut f, mut r) = Polynomial::sample_two_set_f0(self.t, secret, rng);
        let dealt = self.deal_polynomials(transcript, &f, &r);
        let ghost drawn = (f@, r@);
        f.zeroize();
        r.zeroize();
        match dealt {
            Ok(dealt) => {
                proof {
                    lemma_honest_dealing_accepted(old(transcript)@, old(self).keys(), drawn.0, drawn.1);
                    let d = dealing(old(transcript)@, old(self).keys(), drawn.0, drawn.1);
                }
                dealt
            },
            Err(_) => {
                proof {
                    // this arm is never taken
                    assert(false);
                }
                (Vec::new(), (*secret, f))
            },
        }
    }
}

} // verus!
