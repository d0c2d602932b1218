//! Helpers shared by the two variants: decompression of received points,
//! key generation, and the Lagrange coefficients of the first `t + 1` places.

use crate::error::{Error, ErrorKind};
use crate::field::{group_order, inv_mod, mul_mod, sub_mod};
use crate::lagrange::{inv_ok, pairwise_invertible};
use crate::point::{encodes, exponent_of, exponents, is_element, CompressedPoint, Point};
use crate::random::random_scalar;
use crate::scalar::{values, Scalar};
use rand_chacha::ChaCha20Rng;
use vstd::prelude::*;

verus! {

/// The element that a wire form encodes; a wire form that encodes none is
/// refused with `PointDecompressionError`, which carries its bytes.
pub fn decompress_ristretto_point(compressed_point: CompressedPoint) -> (r: Result<Point, Error>)
    ensures
        match r {
            Ok(p) => is_element(compressed_point@) && p@ == exponent_of(compressed_point@)
                && p.encoding() == compressed_point@,
            Err(e) => !is_element(compressed_point@) && e.kind == ErrorKind::PointDecompressionError(
                compressed_point.bytes,
            ),
        },
{
    match compressed_point.decompress() {
        Some(p) => Ok(p),
        None => Err(Error::from_kind(ErrorKind::PointDecompressionError(compressed_point.bytes))),
    }
}

/// Whether every wire form of the sequence encodes a group element.
pub open spec fn all_elements(points: Seq<CompressedPoint>) -> bool {
    forall|i: int| 0 <= i < points.len() ==> is_element(#[trigger] points[i]@)
}

/// The index of the first wire form that encodes no group element.
pub open spec fn first_refused(points: Seq<CompressedPoint>, k: int) -> bool {
    &&& 0 <= k < points.len()
    &&& !is_element(points[k]@)
    &&& forall|i: int| 0 <= i < k ==> is_element(#[trigger] points[i]@)
}

/// The elements that a run of wire forms encodes, in order.  If one encodes
/// none, the first such is refused with `PointDecompressionError`.
pub fn batch_decompress_ristretto_points(compressed_points: &[CompressedPoint]) -> (r: Result<
    Vec<Point>,
    Error,
>)
    ensures
        match r {
            Ok(points) => {
                &&& all_elements(compressed_points@)
                &&& points@.len() == compressed_points@.len()
                &&& forall|i: int|
                    0 <= i < points@.len() ==> (#[trigger] points@[i])@ == exponent_of(
                        compressed_points@[i]@,
                    ) && points@[i].encoding() == compressed_points@[i]@
            },
            Err(e) => exists|k: int|
                first_refused(compressed_points@, k) && e.kind == ErrorKind::PointDecompressionError(
                    (#[trigger] compressed_points@[k]).bytes,
                ),
        },
{
    let mut out: Vec<Point> = Vec::new();
    let mut i: usize = 0;
    while i < compressed_points.len()
        invariant
            i <= compressed_points.len(),
            out@.len() == i,
            forall|k: int| 0 <= k < i ==> is_element(#[trigger] compressed_points@[k]@),
            forall|k: int|
                0 <= k < i ==> (#[trigger] out@[k])@ == exponent_of(compressed_points@[k]@)
                    && out@[k].encoding() == compressed_points@[k]@,
        decreases compressed_points.len() - i,
    {
        match decompress_ristretto_point(compressed_points[i]) {
            Ok(p) => {
                out.push(p);
            },
            Err(e) => {
                proof {
                    assert(first_refused(compressed_points@, i as int));
                }
                return Err(e);
            },
        }
        i += 1;
    }
    Ok(out)
}

/// The exponents of the elements that a run of wire forms encodes.
pub open spec fn decoded(points: Seq<CompressedPoint>) -> Seq<nat> {
    Seq::new(points.len(), |i: int| exponent_of(points[i]@))
}

/// The refusal that a received run of points calls for, if any: a count
/// other than the expected one, reported as the expected count and what it
/// counts, then the count received and what was received; or else the first
/// wire form that encodes no group element.
pub open spec fn batch_refusal(
    points: Seq<CompressedPoint>,
    expected: usize,
    counted: &'static str,
    what: &'static str,
) -> Option<ErrorKind> {
    if points.len() != expected {
        Some(ErrorKind::CountMismatch(expected, counted, points.len() as usize, what))
    } else if !all_elements(points) {
        let k = choose|k: int| first_refused(points, k);
        Some(ErrorKind::PointDecompressionError(points[k].bytes))
    } else {
        None
    }
}

/// The elements that a received run of wire forms encodes, once their count
/// is checked against the expected one.
pub fn decompress_counted(
    points: &[CompressedPoint],
    expected: usize,
    counted: &'static str,
    what: &'static str,
) -> (r: Result<Vec<Point>, Error>)
    ensures
        match r {
            Ok(v) => {
                &&& batch_refusal(points@, expected, counted, what) is None
                &&& exponents(v@) == decoded(points@)
                &&& v@.len() == expected
            },
            Err(e) => batch_refusal(points@, expected, counted, what) == Some(e.kind),
        },
{
    if points.len() != expected {
        return Err(Error::from_kind(ErrorKind::CountMismatch(expected, counted, points.len(), what)));
    }
    match batch_decompress_ristretto_points(points) {
        Ok(v) => {
            proof {
                assert(exponents(v@) =~= decoded(points@));
            }
            Ok(v)
        },
        Err(e) => {
            proof {
                let k = choose|k: int|
                    first_refused(points@, k) && e.kind == ErrorKind::PointDecompressionError(
                        (#[trigger] points@[k]).bytes,
                    );
                let k2 = choose|k: int| first_refused(points@, k);
                assert(first_refused(points@, k));
                assert(first_refused(points@, k2));
                assert(k == k2);
            }
            Err(e)
        },
    }
}

/// Whether the bytes encode a multiple of the point with exponent `g`: a
/// public key for that generator.
pub open spec fn is_key_for(bytes: Seq<u8>, g: nat) -> bool {
    exists|k: nat| encodes(bytes, #[trigger] mul_mod(g, k))
}

/// `n` public keys for the generator `g`: each is `g` multiplied by a scalar
/// drawn from the generator and then forgotten.
pub fn generate_public_keys(g: &Point, rng: &mut ChaCha20Rng, n: usize) -> (r: Vec<CompressedPoint>)
    ensures
        r@.len() == n,
        forall|i: int| 0 <= i < n ==> is_element(#[trigger] r@[i]@),
        forall|i: int| 0 <= i < n ==> is_key_for(#[trigger] r@[i]@, g@),
{
    let mut out: Vec<CompressedPoint> = Vec::new();
    let mut i: usize = 0;
    while i < n
        invariant
            i <= n,
            out@.len() == i,
            forall|k: int| 0 <= k < i ==> is_element(#[trigger] out@[k]@),
            forall|k: int| 0 <= k < i ==> is_key_for(#[trigger] out@[k]@, g@),
        decreases n - i,
    {
        let mut secret = random_scalar(rng);
        let key = g.mul(&secret);
        let wire = key.compress();
        proof {
            use_type_invariant(&key);
            assert(encodes(wire@, mul_mod(g@, secret@)));
            assert(is_key_for(wire@, g@));
        }
        secret.zeroize();
        out.push(wire);
        i += 1;
    }
    out
}

/// The Lagrange coefficient at zero of place `i` among the places `1..=k`:
/// the product, over the places `j` other than `i`, of `j / (j - i)` in the
/// scalar field.
pub open spec fn lagrange_at_zero(i: nat, k: nat) -> nat
    decreases k,
{
    if k == 0 {
        1
    } else {
        let rest = lagrange_at_zero(i, (k - 1) as nat);
        if k == i {
            rest
        } else {
            mul_mod(rest, mul_mod(k, inv_mod(sub_mod(k, i))))
        }
    }
}

/// The scalar of the place `index + 1`, at which the party with that index
/// holds its share.
pub fn place_of(index: usize) -> (r: Scalar)
    ensures
        r@ == index + 1,
{
    let r = Scalar::from_u64(index as u64).add(&Scalar::one());
    assert(r@ == (index + 1) % (group_order() as int));
    r
}

/// The coefficient of place `index + 1` among the places `1..=t + 1`.
fn lambda_at(index: usize, t: usize) -> (r: Scalar)
    ensures
        r@ == lagrange_at_zero((index + 1) as nat, (t + 1) as nat),
{
    let zq_i = place_of(index);
    let mut lambda_i = Scalar::one();
    let mut j: usize = 0;
    loop
        invariant_except_break
            lambda_i@ == lagrange_at_zero((index + 1) as nat, j as nat),
        invariant
            j <= t,
            zq_i@ == index + 1,
        ensures
            lambda_i@ == lagrange_at_zero((index + 1) as nat, (t + 1) as nat),
        decreases t - j,
    {
        let ghost before = lambda_i@;
        if j != index {
            let zq_j = place_of(j);
            let factor = zq_j.mul(&zq_j.sub(&zq_i).invert());
            lambda_i = lambda_i.mul(&factor);
            assert(lambda_i@ == mul_mod(
                before,
                mul_mod((j + 1) as nat, inv_mod(sub_mod((j + 1) as nat, (index + 1) as nat))),
            ));

        }
        assert(lambda_i@ == lagrange_at_zero((index + 1) as nat, (j + 1) as nat));
        if j == t {
            break ;
        }
        j += 1;
    }
    lambda_i
}

/// The Lagrange coefficients at zero of the places `1..=n`, each taken among
/// the places `1..=t + 1`: the weights by which the first `t + 1` decrypted
/// shares combine to the secret.
pub fn precompute_lambda(n: usize, t: usize) -> (r: Vec<Scalar>)
    ensures
        r@.len() == n,
        forall|i: int|
            0 <= i < n ==> (#[trigger] r@[i])@ == lagrange_at_zero((i + 1) as nat, (t + 1) as nat),
{
    let mut out: Vec<Scalar> = Vec::new();
    let mut i: usize = 0;
    while i < n
        invariant
            i <= n,
            out@.len() == i,
            forall|k: int|
                0 <= k < i ==> (#[trigger] out@[k])@ == lagrange_at_zero(
                    (k + 1) as nat,
                    (t + 1) as nat,
                ),
        decreases n - i,
    {
        out.push(lambda_at(i, t));
        i += 1;
    }
    out
}

/// The places of the parties with the given indices: each index plus one.
pub open spec fn places_of(indices: Seq<usize>) -> Seq<nat> {
    Seq::new(indices.len(), |m: int| (indices[m] + 1) as nat)
}

/// The Lagrange coefficient at zero of the place at position `at` among
/// the first `k` of the given places: the product, over the other positions
/// `m`, of `x_m / (x_m - x_at)` in the scalar field.
pub open spec fn lagrange_weight(places: Seq<nat>, at: int, k: nat) -> nat
    decreases k,
{
    if k == 0 {
        1
    } else {
        let rest = lagrange_weight(places, at, (k - 1) as nat);
        let m = k - 1;
        if m == at {
            rest
        } else {
            mul_mod(rest, mul_mod(places[m], inv_mod(sub_mod(places[m], places[at]))))
        }
    }
}

/// The coefficient of the place at position `at` among all given indices.
fn subset_lambda_at(indices: &Vec<usize>, at: usize) -> (r: Scalar)
    requires
        at < indices@.len(),
    ensures
        r@ == lagrange_weight(places_of(indices@), at as int, indices@.len()),
        forall|m: int|
            0 <= m < indices@.len() && indices@[m] != indices@[at as int] ==> inv_ok(
                #[trigger] places_of(indices@)[m],
                places_of(indices@)[at as int],
            ),
{
    let ghost places = places_of(indices@);
    let x_at = place_of(indices[at]);
    let mut weight = Scalar::one();
    let mut m: usize = 0;
    while m < indices.len()
        invariant
            m <= indices.len(),
            at < indices@.len(),
            places == places_of(indices@),
            x_at@ == places[at as int],
            weight@ == lagrange_weight(places, at as int, m as nat),
            forall|j: int|
                0 <= j < m && indices@[j] != indices@[at as int] ==> inv_ok(#[trigger] places[j], places[at as int]),
        decreases indices.len() - m,
    {
        let ghost before = weight@;
        if m != at {
            let x_m = place_of(indices[m]);
            let difference = x_m.sub(&x_at);
            let factor = x_m.mul(&difference.invert());
            proof {
                if indices@[m as int] != indices@[at as int] {
                    assert(difference@ != 0);
                    assert(inv_ok(places[m as int], places[at as int]));
                }
            }
            weight = weight.mul(&factor);
            assert(weight@ == mul_mod(
                before,
                mul_mod(places[m as int], inv_mod(sub_mod(places[m as int], places[at as int]))),
            ));
        }
        assert(weight@ == lagrange_weight(places, at as int, (m + 1) as nat));
        m += 1;
    }
    weight
}

/// Whether no index occurs twice.
pub open spec fn all_distinct(indices: Seq<usize>) -> bool {
    forall|i: int, j: int| 0 <= i < j < indices.len() ==> indices[i] != indices[j]
}

/// The Lagrange coefficients at zero of the places of the given parties,
/// each taken among those places: the weights by which their decrypted
/// shares combine to the secret.  Where no index occurs twice, every
/// difference of two places was inverted on the way.
pub fn lagrange_coefficients(indices: &Vec<usize>) -> (r: Vec<Scalar>)
    ensures
        r@.len() == indices@.len(),
        forall|k: int|
            0 <= k < r@.len() ==> (#[trigger] r@[k])@ == lagrange_weight(
                places_of(indices@),
                k,
                indices@.len(),
            ),
        all_distinct(indices@) ==> pairwise_invertible(places_of(indices@), indices@.len()),
{
    let mut out: Vec<Scalar> = Vec::new();
    let mut k: usize = 0;
    while k < indices.len()
        invariant
            k <= indices.len(),
            out@.len() == k,
            forall|j: int|
                0 <= j < k ==> (#[trigger] out@[j])@ == lagrange_weight(
                    places_of(indices@),
                    j,
                    indices@.len(),
                ),
            forall|m: int, j: int|
                0 <= m < indices@.len() && 0 <= j < k && indices@[m] != indices@[j] ==> inv_ok(
                    #[trigger] places_of(indices@)[m],
                    #[trigger] places_of(indices@)[j],
                ),
        decreases indices.len() - k,
    {
        out.push(subset_lambda_at(indices, k));
        k += 1;
    }
    out
}

/// The sum of the first `k` chosen shares, each multiplied by its weight:
/// the share at position `m` is the one at index `indices[m]`.
pub open spec fn combined(indices: Seq<usize>, weights: Seq<nat>, shares: Seq<nat>, k: nat) -> nat
    decreases k,
{
    if k == 0 {
        0
    } else {
        crate::field::add_mod(
            combined(indices, weights, shares, (k - 1) as nat),
            mul_mod(shares[indices[k - 1] as int], weights[k - 1]),
        )
    }
}

/// Combines the shares at the given indices, each with the weight at its
/// position.
pub fn combine_shares(indices: &Vec<usize>, weights: &Vec<Scalar>, shares: &Vec<Point>) -> (r: Point)
    requires
        weights@.len() == indices@.len(),
        forall|m: int| 0 <= m < indices@.len() ==> #[trigger] indices@[m] < shares@.len(),
    ensures
        r@ == combined(indices@, values(weights@), exponents(shares@), indices@.len()),
{
    let mut acc = Point::identity();
    let mut m: usize = 0;
    while m < indices.len()
        invariant
            m <= indices.len(),
            weights@.len() == indices@.len(),
            forall|j: int| 0 <= j < indices@.len() ==> #[trigger] indices@[j] < shares@.len(),
            acc@ == combined(indices@, values(weights@), exponents(shares@), m as nat),
        decreases indices.len() - m,
    {
        let term = shares[indices[m]].mul(&weights[m]);
        acc = acc.add(&term);
        m += 1;
    }
    acc
}

/// Whether the indices are `0, 1, ..., count - 1` in this order.
pub open spec fn counts_up(indices: Seq<usize>) -> bool {
    forall|m: int| 0 <= m < indices.len() ==> #[trigger] indices[m] == m
}

/// The number of entries that a run of coefficients needs to cover the
/// given indices, which come in increasing order: the last index plus one.
pub open spec fn covering(indices: Seq<usize>) -> nat {
    if indices.len() == 0 {
        0
    } else {
        (indices.last() + 1) as nat
    }
}

/// The weights of a pessimistic reconstruction from the shares at the
/// given indices: the entries of `lambdas` where the indices count up from
/// zero and `lambdas` has an entry for each of them, else the Lagrange
/// coefficients of the indices' own places.
pub open spec fn pessimistic_weights(indices: Seq<usize>, lambdas: Seq<nat>) -> Seq<nat> {
    if counts_up(indices) && indices.len() <= lambdas.len() {
        Seq::new(indices.len(), |m: int| lambdas[m])
    } else {
        Seq::new(indices.len(), |m: int| lagrange_weight(places_of(indices), m, indices.len()))
    }
}

/// The weights of a pessimistic reconstruction.
pub fn choose_weights(indices: &Vec<usize>, lambdas: &Vec<Scalar>) -> (r: Vec<Scalar>)
    ensures
        values(r@) == pessimistic_weights(indices@, values(lambdas@)),
        r@.len() == indices@.len(),
{
    let mut in_order = indices.len() <= lambdas.len();
    let mut m: usize = 0;
    while m < indices.len()
        invariant
            m <= indices.len(),
            in_order ==> indices@.len() <= lambdas@.len(),
            in_order <==> (indices@.len() <= lambdas@.len() && forall|j: int|
                0 <= j < m ==> #[trigger] indices@[j] == j),
        decreases indices.len() - m,
    {
        if indices[m] != m {
            in_order = false;
        }
        m += 1;
    }
    if in_order {
        let mut out: Vec<Scalar> = Vec::new();
        let mut k: usize = 0;
        while k < indices.len()
            invariant
                k <= indices.len(),
                indices@.len() <= lambdas@.len(),
                out@.len() == k,
                forall|j: int| 0 <= j < k ==> (#[trigger] out@[j])@ == lambdas@[j]@,
            decreases indices.len() - k,
        {
            out.push(lambdas[k]);
            k += 1;
        }
        proof {
            assert(counts_up(indices@));
            assert(values(out@) =~= pessimistic_weights(indices@, values(lambdas@)));
        }
        out
    } else {
        let out = lagrange_coefficients(indices);
        proof {
            assert(!(counts_up(indices@) && indices@.len() <= lambdas@.len()));
            assert(values(out@) =~= pessimistic_weights(indices@, values(lambdas@)));
        }
        out
    }
}

/// Among the places `1..=k` the two ways of computing a Lagrange
/// coefficient agree: the precomputed coefficient of place `at + 1` is
/// the coefficient of position `at` among the places that count up from
/// one.
pub proof fn lemma_lagrange_agree(indices: Seq<usize>, at: int, k: nat)
    requires
        counts_up(indices),
        k <= indices.len(),
        0 <= at < indices.len(),
    ensures
        lagrange_weight(places_of(indices), at, k) == lagrange_at_zero((at + 1) as nat, k),
    decreases k,
{
    if k > 0 {
        lemma_lagrange_agree(indices, at, (k - 1) as nat);
        let m = k - 1;
        assert(places_of(indices)[m] == k);
        assert(places_of(indices)[at] == at + 1);
    }
}

} // verus!
