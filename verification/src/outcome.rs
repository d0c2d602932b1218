//! Why the tally comes out: from honest ballots, through the sums of their
//! encrypted shares and the talliers' decryptions, to the number of yes
//! votes in the exponent.

use crate::dleq::lemma_decryption_undoes_encryption;
use crate::field::{add_mod, cong, group_order, inv_mod, is_inverse, mul_mod, sub_mod, sum_mod};
use crate::field::{lemma_cong_add, lemma_cong_mod, lemma_cong_mul, lemma_cong_reduced, lemma_field_ops};
use crate::lagrange::{lemma_reconstruction, pairwise_invertible, subset_weights};
use crate::polynomial::{npow, poly_eval, power_sum, sum_of};
use crate::tally::{encrypted_votes, lemma_tally_homomorphic, yes_count};
use crate::utils::{combined, places_of};
use vstd::prelude::*;

verus! {

/// The partial sums of a sum of two polynomials are the sums of their
/// partial sums.
proof fn lemma_sum_power_sum(a: Seq<nat>, b: Seq<nat>, x: nat, k: nat)
    requires
        a.len() == b.len(),
        k <= a.len(),
    ensures
        cong(power_sum(sum_of(a, b), x, k) as int, (power_sum(a, x, k) + power_sum(b, x, k)) as int),
    decreases k,
{
    if k == 0 {
        lemma_cong_mod(0);
    } else {
        let j = (k - 1) as nat;
        let c = sum_of(a, b);
        lemma_sum_power_sum(a, b, x, j);
        let (aj, bj, p) = (a[j as int] as int, b[j as int] as int, npow(x, j) as int);
        assert(c[j as int] == add_mod(a[j as int], b[j as int]));
        lemma_field_ops(a[j as int], b[j as int]);
        lemma_cong_mul(c[j as int] as int, aj + bj, p, p);
        lemma_cong_add(
            power_sum(c, x, j) as int,
            (power_sum(a, x, j) + power_sum(b, x, j)) as int,
            c[j as int] * p,
            (aj + bj) * p,
        );
        assert((aj + bj) * p == aj * p + bj * p) by (nonlinear_arith);
    }
}

/// Evaluation is additive: the value of a sum of two polynomials of one
/// length is the sum of their values.
pub proof fn lemma_sum_eval(a: Seq<nat>, b: Seq<nat>, x: nat)
    requires
        a.len() == b.len(),
    ensures
        poly_eval(sum_of(a, b), x) == add_mod(poly_eval(a, x), poly_eval(b, x)),
{
    let c = sum_of(a, b);
    lemma_sum_power_sum(a, b, x, a.len());
    lemma_cong_mod(power_sum(a, x, a.len()) as int);
    lemma_cong_mod(power_sum(b, x, b.len()) as int);
    lemma_cong_mod(power_sum(c, x, c.len()) as int);
    lemma_field_ops(poly_eval(a, x), poly_eval(b, x));
    lemma_cong_add(
        poly_eval(a, x) as int,
        power_sum(a, x, a.len()) as int,
        poly_eval(b, x) as int,
        power_sum(b, x, b.len()) as int,
    );
    lemma_cong_reduced(poly_eval(c, x) as int, add_mod(poly_eval(a, x), poly_eval(b, x)) as int);
}

/// The polynomial without terms, written with `len` coefficients.
pub open spec fn zero_polynomial(len: nat) -> Seq<nat> {
    Seq::new(len, |j: int| 0nat)
}

/// The sum of the first `m` of the given polynomials, coefficient by
/// coefficient: the polynomial that the summed shares lie on.
pub open spec fn poly_total(fs: Seq<Seq<nat>>, len: nat, m: nat) -> Seq<nat>
    decreases m,
{
    if m == 0 {
        zero_polynomial(len)
    } else {
        sum_of(poly_total(fs, len, (m - 1) as nat), fs[m - 1])
    }
}

/// Whether the first `m` polynomials have `len` coefficients each.
pub open spec fn all_of_length(fs: Seq<Seq<nat>>, len: nat, m: nat) -> bool {
    forall|b: int| 0 <= b < m ==> (#[trigger] fs[b]).len() == len
}

/// The values at `x` of the first `m` polynomials.
pub open spec fn values_at(fs: Seq<Seq<nat>>, x: nat, m: nat) -> Seq<nat> {
    Seq::new(m, |b: int| poly_eval(fs[b], x))
}

/// The shares at place `x` that the first `m` dealers encrypt under the
/// public key `pk`.
pub open spec fn shares_at(fs: Seq<Seq<nat>>, pk: nat, x: nat, m: nat) -> Seq<nat> {
    Seq::new(m, |b: int| mul_mod(pk, poly_eval(fs[b], x)))
}

/// The secrets that the first `m` dealers share: the constant terms.
pub open spec fn secrets_of(fs: Seq<Seq<nat>>, m: nat) -> Seq<nat> {
    Seq::new(m, |b: int| fs[b][0])
}

/// The polynomial without terms has the value zero everywhere.
proof fn lemma_zero_eval(len: nat, x: nat, k: nat)
    requires
        k <= len,
    ensures
        power_sum(zero_polynomial(len), x, k) == 0,
    decreases k,
{
    if k > 0 {
        lemma_zero_eval(len, x, (k - 1) as nat);
        assert(0 * npow(x, (k - 1) as nat) == 0) by (nonlinear_arith);
    }
}

/// The sum polynomial keeps the length, takes the sum of the values at
/// every place, and has the sum of the secrets as its constant term.
proof fn lemma_total(fs: Seq<Seq<nat>>, len: nat, m: nat, x: nat)
    requires
        m <= fs.len(),
        all_of_length(fs, len, m),
    ensures
        poly_total(fs, len, m).len() == len,
        poly_eval(poly_total(fs, len, m), x) == sum_mod(values_at(fs, x, m), m),
        len >= 1 ==> poly_total(fs, len, m)[0] == sum_mod(secrets_of(fs, m), m),
    decreases m,
{
    if m == 0 {
        lemma_zero_eval(len, x, len);
    } else {
        let j = (m - 1) as nat;
        lemma_total(fs, len, j, x);
        assert(fs[j as int].len() == len);
        lemma_sum_eval(poly_total(fs, len, j), fs[j as int], x);
        lemma_sum_ext(values_at(fs, x, m), values_at(fs, x, j), j);
        lemma_sum_ext(secrets_of(fs, m), secrets_of(fs, j), j);
    }
}

/// A sum depends on the entries that it adds only.
proof fn lemma_sum_ext(a: Seq<nat>, b: Seq<nat>, k: nat)
    requires
        k <= a.len(),
        k <= b.len(),
        forall|i: int| 0 <= i < k ==> a[i] == b[i],
    ensures
        sum_mod(a, k) == sum_mod(b, k),
    decreases k,
{
    if k > 0 {
        lemma_sum_ext(a, b, (k - 1) as nat);
    }
}

/// The shares under one key add up to the key times the sum of the values.
proof fn lemma_shares_sum(fs: Seq<Seq<nat>>, pk: nat, x: nat, m: nat)
    ensures
        sum_mod(shares_at(fs, pk, x, m), m) == mul_mod(pk, sum_mod(values_at(fs, x, m), m)),
    decreases m,
{
    if m == 0 {
        lemma_field_ops(pk, 0);
        assert(pk * 0 == 0) by (nonlinear_arith);
    } else {
        let j = (m - 1) as nat;
        lemma_shares_sum(fs, pk, x, j);
        lemma_sum_ext(shares_at(fs, pk, x, m), shares_at(fs, pk, x, j), j);
        lemma_sum_ext(values_at(fs, x, m), values_at(fs, x, j), j);
        let e = poly_eval(fs[j as int], x);
        let before = sum_mod(values_at(fs, x, j), j);
        let pi = pk as int;
        lemma_field_ops(pk, before);
        lemma_field_ops(pk, e);
        lemma_field_ops(mul_mod(pk, before), mul_mod(pk, e));
        lemma_field_ops(before, e);
        lemma_field_ops(pk, add_mod(before, e));
        lemma_cong_add(mul_mod(pk, before) as int, pi * before, mul_mod(pk, e) as int, pi * e);
        lemma_cong_mul(pi, pi, add_mod(before, e) as int, (before + e) as int);
        assert(pi * before + pi * e == pi * (before + e)) by (nonlinear_arith);
        lemma_cong_reduced(
            add_mod(mul_mod(pk, before), mul_mod(pk, e)) as int,
            mul_mod(pk, add_mod(before, e)) as int,
        );
    }
}

/// A summed share decrypts to a value of the sum polynomial: the shares
/// that `m` dealers encrypt for the place `x` under the public key
/// `sk * G`, added up and multiplied by the inverse of `sk`, are `F(x) * G`
/// for the sum `F` of the dealers' polynomials.
pub proof fn lemma_summed_share_decrypts(g: nat, sk: nat, fs: Seq<Seq<nat>>, len: nat, m: nat, x: nat)
    requires
        is_inverse(sk, inv_mod(sk)),
        m <= fs.len(),
        all_of_length(fs, len, m),
    ensures
        mul_mod(sum_mod(shares_at(fs, mul_mod(g, sk), x, m), m), inv_mod(sk)) == mul_mod(
            g,
            poly_eval(poly_total(fs, len, m), x),
        ),
{
    lemma_shares_sum(fs, mul_mod(g, sk), x, m);
    lemma_total(fs, len, m, x);
    lemma_decryption_undoes_encryption(g, sk, sum_mod(values_at(fs, x, m), m));
}

/// The tally comes out.  Let `m` voters deal the polynomials `fs` of
/// `t + 1` coefficients each and encrypt their votes under the constant
/// terms.  Let `t + 1` talliers, at the given indices, hold private keys
/// with inverses and decrypt the sums of the shares that were encrypted for
/// their places.  If the differences of their places have inverses, then
/// the encrypted votes added up, less the decrypted shares combined with
/// the Lagrange coefficients of the places, are `G` times the number of yes
/// votes.
pub proof fn lemma_tally_comes_out(
    g: nat,
    fs: Seq<Seq<nat>>,
    votes: Seq<bool>,
    keys: Seq<nat>,
    indices: Seq<usize>,
    decrypted: Seq<nat>,
)
    requires
        fs.len() == votes.len(),
        indices.len() >= 1,
        all_of_length(fs, indices.len(), fs.len()),
        pairwise_invertible(places_of(indices), indices.len()),
        forall|k: int|
            0 <= k < indices.len() ==> {
                let i = #[trigger] indices[k] as int;
                &&& i < keys.len()
                &&& i < decrypted.len()
                &&& is_inverse(keys[i], inv_mod(keys[i]))
                &&& decrypted[i] == mul_mod(
                    sum_mod(shares_at(fs, mul_mod(g, keys[i]), (i + 1) as nat, fs.len()), fs.len()),
                    inv_mod(keys[i]),
                )
            },
    ensures
        sub_mod(
            sum_mod(encrypted_votes(g, secrets_of(fs, fs.len()), votes), fs.len()),
            combined(indices, subset_weights(indices), decrypted, indices.len()),
        ) == mul_mod(g, yes_count(votes, votes.len())),
{
    let m = fs.len();
    let len = indices.len();
    let total = poly_total(fs, len, m);
    lemma_total(fs, len, m, 0);
    assert forall|k: int| 0 <= k < indices.len() implies #[trigger] indices[k] < decrypted.len()
        && decrypted[indices[k] as int] == mul_mod(g, poly_eval(total, places_of(indices)[k])) by {
        let i = indices[k] as int;
        lemma_summed_share_decrypts(g, keys[i], fs, len, m, (i + 1) as nat);
    }
    lemma_reconstruction(g, total, indices, decrypted);
    lemma_tally_homomorphic(g, secrets_of(fs, m), votes);
}

} // verus!
