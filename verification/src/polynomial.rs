//! Polynomials over the scalar field, evaluated at small integers and, in the
//! exponent, on sequences of points.

use crate::field::{add_mod, cong, group_order, mul_mod};
use crate::field::{lemma_cong_add, lemma_cong_mod, lemma_cong_mul, lemma_cong_reduced, lemma_field_ops};
use crate::parallel::par_map;
use crate::point::{all_encode, encodes, exponents, CompressedPoint, Point};
use crate::random::random_scalar;
use crate::scalar::{values, Scalar};
use rand_chacha::ChaCha20Rng;
use vstd::prelude::*;

verus! {

/// The `j`-th power of `x`.
pub open spec fn npow(x: nat, j: nat) -> nat
    decreases j,
{
    if j == 0 {
        1
    } else {
        x * npow(x, (j - 1) as nat)
    }
}

/// The sum of the first `k` terms `c[j] * x^j`, as an integer.
pub open spec fn power_sum(c: Seq<nat>, x: nat, k: nat) -> nat
    decreases k,
{
    if k == 0 {
        0
    } else {
        power_sum(c, x, (k - 1) as nat) + c[k - 1] * npow(x, (k - 1) as nat)
    }
}

/// The value at `x` of the polynomial with coefficients `c`, constant term
/// first, in the scalar field.
pub open spec fn poly_eval(c: Seq<nat>, x: nat) -> nat {
    power_sum(c, x, c.len()) % group_order()
}

/// The values of the polynomial at `base`, `base + 1`, ..., `n` of them.
pub open spec fn eval_run(c: Seq<nat>, base: nat, n: nat) -> Seq<nat> {
    Seq::new(n, |i: int| poly_eval(c, (i + base) as nat))
}

/// The points with the given exponents, each multiplied by the polynomial's
/// value at its place: the place of the first point is `base`.
pub open spec fn eval_multiply(c: Seq<nat>, points: Seq<nat>, base: nat) -> Seq<nat> {
    Seq::new(points.len(), |i: int| mul_mod(points[i], poly_eval(c, (i + base) as nat)))
}

/// The point with exponent `h` multiplied by each coefficient in turn.
pub open spec fn scale_point(c: Seq<nat>, h: nat) -> Seq<nat> {
    Seq::new(c.len(), |j: int| mul_mod(h, c[j]))
}

/// A polynomial over the scalar field, held as its coefficients from the
/// constant term up.
#[derive(Debug)]
pub struct Polynomial {
    pub(crate) coefficients: Vec<Scalar>,
}

impl View for Polynomial {
    type V = Seq<nat>;

    /// The coefficients, constant term first.
    closed spec fn view(&self) -> Seq<nat> {
        values(self.coefficients@)
    }
}

impl Clone for Polynomial {
    fn clone(&self) -> (r: Self)
        ensures
            r@ == self@,
    {
        let mut coefficients: Vec<Scalar> = Vec::new();
        let mut j: usize = 0;
        while j < self.coefficients.len()
            invariant
                j <= self.coefficients.len(),
                coefficients@ == self.coefficients@.subrange(0, j as int),
            decreases self.coefficients.len() - j,
        {
            coefficients.push(self.coefficients[j]);
            proof {
                assert(coefficients@ =~= self.coefficients@.subrange(0, j + 1));
            }
            j += 1;
        }
        proof {
            assert(coefficients@ =~= self.coefficients@);
        }
        Polynomial { coefficients }
    }
}

impl Polynomial {
    /// The coefficients as scalars, constant term first.
    pub closed spec fn scalars(&self) -> Seq<Scalar> {
        self.coefficients@
    }

    /// The polynomial with the given coefficients, constant term first.
    pub fn from_coefficients(coefficients: Vec<Scalar>) -> (r: Polynomial)
        ensures
            r@ == values(coefficients@),
    {
        Polynomial { coefficients }
    }

    /// Overwrites every coefficient with zero, so that a secret polynomial
    /// does not stay in memory.
    pub fn zeroize(&mut self)
        ensures
            final(self)@ == Seq::new(old(self)@.len(), |j: int| 0nat),
    {
        let mut j: usize = 0;
        while j < self.coefficients.len()
            invariant
                j <= self.coefficients.len(),
                self.coefficients@.len() == old(self).coefficients@.len(),
                forall|k: int| 0 <= k < j ==> (#[trigger] self.coefficients@[k])@ == 0,
            decreases self.coefficients.len() - j,
        {
            self.coefficients[j].zeroize();
            j += 1;
        }
        proof {
            assert(self@ =~= Seq::new(old(self)@.len(), |j: int| 0nat));
        }
    }

    /// The number of coefficients: the degree bound plus one.
    pub fn len(&self) -> (r: usize)
        ensures
            r == self@.len(),
    {
        self.coefficients.len()
    }

    /// The coefficient of `x^index`, if the polynomial has one.
    pub fn coef_at(&self, index: usize) -> (r: Option<Scalar>)
        ensures
            r is Some <==> index < self@.len(),
            r is Some ==> r.unwrap()@ == self@[index as int],
    {
        if index < self.coefficients.len() {
            Some(self.coefficients[index])
        } else {
            None
        }
    }

    /// A polynomial of the given degree with coefficients drawn from the
    /// generator.
    pub fn sample(degree: usize, rng: &mut ChaCha20Rng) -> (r: Polynomial)
        ensures
            r@.len() == degree + 1,
    {
        let mut coefficients: Vec<Scalar> = Vec::new();
        coefficients.push(random_scalar(rng));
        let mut j: usize = 0;
        while j < degree
            invariant
                j <= degree,
                coefficients@.len() == j + 1,
            decreases degree - j,
        {
            coefficients.push(random_scalar(rng));
            j += 1;
        }
        Polynomial { coefficients }
    }

    /// A polynomial of the given degree whose constant term is `f0` and whose
    /// other coefficients are drawn from the generator.
    pub fn sample_set_f0(degree: usize, rng: &mut ChaCha20Rng, f0: &Scalar) -> (r: Polynomial)
        ensures
            r@.len() == degree + 1,
            r@[0] == f0@,
    {
        let mut coefficients: Vec<Scalar> = Vec::new();
        coefficients.push(*f0);
        let mut j: usize = 0;
        while j < degree
            invariant
                j <= degree,
                coefficients@.len() == j + 1,
                coefficients@[0]@ == f0@,
            decreases degree - j,
        {
            coefficients.push(random_scalar(rng));
            j += 1;
        }
        Polynomial { coefficients }
    }

    /// Two polynomials of the given degree with coefficients drawn from the
    /// generator, but for the constant term of the first, which is `f0`.
    pub fn sample_two_set_f0(degree: usize, f0: &Scalar, rng: &mut ChaCha20Rng) -> (r: (
        Polynomial,
        Polynomial,
    ))
        ensures
            r.0@.len() == degree + 1,
            r.1@.len() == degree + 1,
            r.0@[0] == f0@,
    {
        let mut first: Vec<Scalar> = Vec::new();
        let mut second: Vec<Scalar> = Vec::new();
        first.push(*f0);
        second.push(random_scalar(rng));
        let mut j: usize = 0;
        while j < degree
            invariant
                j <= degree,
                first@.len() == j + 1,
                second@.len() == j + 1,
                first@[0]@ == f0@,
            decreases degree - j,
        {
            first.push(random_scalar(rng));
            second.push(random_scalar(rng));
            j += 1;
        }
        (Polynomial { coefficients: first }, Polynomial { coefficients: second })
    }

    /// The value of the polynomial at the scalar `x`.
    pub fn evaluate_at(&self, x: &Scalar) -> (r: Scalar)
        ensures
            r@ == poly_eval(self@, x@),
    {
        let mut acc = Scalar::zero();
        let mut power = Scalar::one();
        let mut j: usize = 0;
        proof {
            lemma_cong_mod(0);
            lemma_cong_mod(1);
        }
        while j < self.coefficients.len()
            invariant
                j <= self.coefficients.len(),
                cong(acc@ as int, power_sum(self@, x@, j as nat) as int),
                cong(power@ as int, npow(x@, j as nat) as int),
            decreases self.coefficients.len() - j,
        {
            let c = &self.coefficients[j];
            let term = c.mul(&power);
            let next = acc.add(&term);
            let raised = power.mul(x);
            proof {
                let cj = self@[j as int];
                assert(c@ == cj);
                lemma_field_ops(c@, power@);
                lemma_field_ops(acc@, term@);
                lemma_field_ops(power@, x@);
                // term is congruent to c[j] * x^j
                lemma_cong_mul(c@ as int, cj as int, power@ as int, npow(x@, j as nat) as int);
                lemma_cong_add(
                    acc@ as int,
                    power_sum(self@, x@, j as nat) as int,
                    (c@ * power@) as int,
                    (cj * npow(x@, j as nat)) as int,
                );
                lemma_cong_add(acc@ as int, acc@ as int, term@ as int, (c@ * power@) as int);
                lemma_cong_mul(power@ as int, npow(x@, j as nat) as int, x@ as int, x@ as int);
                assert(npow(x@, j as nat) * x@ == x@ * npow(x@, j as nat)) by (nonlinear_arith);
                assert(npow(x@, (j + 1) as nat) == x@ * npow(x@, j as nat));
            }
            acc = next;
            power = raised;
            j += 1;
        }
        proof {
            use_type_invariant(&acc);
            lemma_cong_mod(power_sum(self@, x@, self@.len()) as int);
            lemma_cong_reduced(acc@ as int, poly_eval(self@, x@) as int);
        }
        acc
    }

    /// The value of the polynomial at the integer `x`.
    pub fn evaluate(&self, x: usize) -> (r: Scalar)
        ensures
            r@ == poly_eval(self@, x as nat),
    {
        let at = Scalar::from_u64(x as u64);
        self.evaluate_at(&at)
    }

    /// The value at place `i + base_index`, and the `i`-th point multiplied
    /// by it.
    fn share_at(&self, points: &Vec<Point>, base_index: usize, i: usize) -> (r: (Scalar, Point))
        requires
            i < points.len(),
        ensures
            r.0@ == poly_eval(self@, (i + base_index) as nat),
            r.1@ == mul_mod(points@[i as int]@, r.0@),
    {
        let place = Scalar::from_u64(i as u64).add(&Scalar::from_u64(base_index as u64));
        let value = self.evaluate_at(&place);
        let share = points[i].mul(&value);
        (value, share)
    }

    /// The values of the polynomial at `base_index`, `base_index + 1`, ...,
    /// one for each point, and each point multiplied by its value.  The
    /// points are worked on in parallel.
    pub fn evaluate_multiply(&self, points: &Vec<Point>, base_index: usize) -> (r: (
        Vec<Scalar>,
        Vec<Point>,
    ))
        ensures
            values(r.0@) == eval_run(self@, base_index as nat, points.len() as nat),
            exponents(r.1@) == eval_multiply(self@, exponents(points@), base_index as nat),
    {
        let task = |i: usize| -> (r: (Scalar, Point))
            requires
                i < points.len(),
            ensures
                r.0@ == poly_eval(self@, (i + base_index) as nat),
                r.1@ == mul_mod(points@[i as int]@, r.0@),
            { self.share_at(points, base_index, i) };
        let pairs = par_map(points.len(), task);
        proof {
            assert forall|k: int| 0 <= k < pairs.len() implies (#[trigger] pairs@[k]).0@ == poly_eval(
                self@,
                (k + base_index) as nat,
            ) && pairs@[k].1@ == mul_mod(points@[k]@, pairs@[k].0@) by {
                let at = k as usize;
                assert(call_ensures(task, (at,), pairs@[at as int]));
            }
        }
        let mut evals: Vec<Scalar> = Vec::new();
        let mut shares: Vec<Point> = Vec::new();
        let mut i: usize = 0;
        while i < pairs.len()
            invariant
                i <= pairs.len(),
                pairs.len() == points.len(),
                evals@.len() == i,
                shares@.len() == i,
                forall|k: int|
                    0 <= k < pairs.len() ==> (#[trigger] pairs@[k]).0@ == poly_eval(
                        self@,
                        (k + base_index) as nat,
                    ) && pairs@[k].1@ == mul_mod(points@[k]@, pairs@[k].0@),
                forall|k: int| 0 <= k < i ==> (#[trigger] evals@[k])@ == poly_eval(self@, (k + base_index) as nat),
                forall|k: int|
                    0 <= k < i ==> (#[trigger] shares@[k])@ == mul_mod(
                        points@[k]@,
                        poly_eval(self@, (k + base_index) as nat),
                    ),
            decreases pairs.len() - i,
        {
            let pair = pairs[i];
            evals.push(pair.0);
            shares.push(pair.1);
            i += 1;
        }
        proof {
            assert(values(evals@) =~= eval_run(self@, base_index as nat, points.len() as nat));
            assert(exponents(shares@) =~= eval_multiply(self@, exponents(points@), base_index as nat));
        }
        (evals, shares)
    }

    /// The given point multiplied by each coefficient in turn, in wire form.
    pub fn mul_with_point_compress(&self, point: &Point) -> (r: Vec<CompressedPoint>)
        ensures
            all_encode(r@, scale_point(self@, point@)),
    {
        let mut out: Vec<CompressedPoint> = Vec::new();
        let mut j: usize = 0;
        while j < self.coefficients.len()
            invariant
                j <= self.coefficients.len(),
                out@.len() == j,
                forall|k: int| 0 <= k < j ==> encodes((#[trigger] out@[k])@, mul_mod(point@, self@[k])),
            decreases self.coefficients.len() - j,
        {
            let c = point.mul(&self.coefficients[j]);
            out.push(c.compress());
            j += 1;
        }
        out
    }

    /// The coefficient-wise sum with `p`, as long as the shorter of the two.
    pub fn sum(&self, p: &Polynomial) -> (r: Polynomial)
        ensures
            r@ == sum_of(self@, p@),
    {
        let mut coefficients: Vec<Scalar> = Vec::new();
        let mut j: usize = 0;
        while j < self.coefficients.len() && j < p.coefficients.len()
            invariant
                j <= self.coefficients.len(),
                j <= p.coefficients.len(),
                coefficients@.len() == j,
                forall|k: int| 0 <= k < j ==> (#[trigger] coefficients@[k])@ == add_mod(self@[k], p@[k]),
            decreases self.coefficients.len() - j,
        {
            coefficients.push(self.coefficients[j].add(&p.coefficients[j]));
            j += 1;
        }
        let r = Polynomial { coefficients };
        proof {
            assert(r@ =~= sum_of(self@, p@));
        }
        r
    }

    /// Adds `p` to this polynomial, coefficient by coefficient; where `p`
    /// has no coefficient, nothing is added.
    pub fn sum_in_place(&mut self, p: &Polynomial)
        ensures
            final(self)@ == blend(old(self)@, 1, p@),
    {
        let one = Scalar::one();
        self.mul_sum(&one, p);
        proof {
            assert forall|j: int| 0 <= j < old(self)@.len() implies #[trigger] blend(old(self)@, one@, p@)[j]
                == blend(old(self)@, 1, p@)[j] by {}
        }
    }

    /// Each coefficient combined with `x` by `op`.
    pub fn coef_op<F: Fn(Scalar, Scalar) -> Scalar>(&self, op: F, x: &Scalar) -> (r: Polynomial)
        requires
            forall|c: Scalar| call_requires(op, (c, *x)),
        ensures
            r.scalars().len() == self.scalars().len(),
            forall|j: int|
                0 <= j < self.scalars().len() ==> call_ensures(
                    op,
                    (self.scalars()[j], *x),
                    #[trigger] r.scalars()[j],
                ),
    {
        let mut coefficients: Vec<Scalar> = Vec::new();
        let mut j: usize = 0;
        while j < self.coefficients.len()
            invariant
                j <= self.coefficients.len(),
                forall|c: Scalar| call_requires(op, (c, *x)),
                coefficients@.len() == j,
                forall|k: int|
                    0 <= k < j ==> call_ensures(op, (self.coefficients@[k], *x), #[trigger] coefficients@[k]),
            decreases self.coefficients.len() - j,
        {
            coefficients.push(op(self.coefficients[j], *x));
            j += 1;
        }
        Polynomial { coefficients }
    }

    /// Replaces each coefficient by its combination with `x` by `op`.
    pub fn coef_op_in_place<F: Fn(Scalar, Scalar) -> Scalar>(&mut self, op: F, x: &Scalar)
        requires
            forall|c: Scalar| call_requires(op, (c, *x)),
        ensures
            final(self).scalars().len() == old(self).scalars().len(),
            forall|j: int|
                0 <= j < old(self).scalars().len() ==> call_ensures(
                    op,
                    (old(self).scalars()[j], *x),
                    #[trigger] final(self).scalars()[j],
                ),
    {
        let updated = self.coef_op(op, x);
        self.coefficients = updated.coefficients;
    }

    /// Multiplies this polynomial by `mul_val` and adds `other`, coefficient
    /// by coefficient; where `other` has no coefficient, the coefficient stays
    /// as it is.
    pub fn mul_sum(&mut self, mul_val: &Scalar, other: &Polynomial)
        ensures
            final(self)@ == blend(old(self)@, mul_val@, other@),
    {
        let mut j: usize = 0;
        while j < self.coefficients.len() && j < other.coefficients.len()
            invariant
                j <= self.coefficients.len(),
                j <= other.coefficients.len(),
                self.coefficients@.len() == old(self).coefficients@.len(),
                forall|k: int|
                    0 <= k < j ==> (#[trigger] self.coefficients@[k])@ == add_mod(
                        mul_mod(old(self)@[k], mul_val@),
                        other@[k],
                    ),
                forall|k: int|
                    j <= k < self.coefficients@.len() ==> #[trigger] self.coefficients@[k] == old(
                        self,
                    ).coefficients@[k],
            decreases self.coefficients.len() - j,
        {
            let updated = self.coefficients[j].mul(mul_val).add(&other.coefficients[j]);
            self.coefficients.set(j, updated);
            j += 1;
        }
        proof {
            assert(self@ =~= blend(old(self)@, mul_val@, other@));
        }
    }
}

/// The coefficient-wise sum of two polynomials, as long as the shorter.
pub open spec fn sum_of(a: Seq<nat>, b: Seq<nat>) -> Seq<nat> {
    Seq::new(if a.len() <= b.len() { a.len() } else { b.len() }, |j: int| add_mod(a[j], b[j]))
}

/// The polynomial `f` multiplied by `d`, with `r` added: where `r` has no
/// coefficient, the coefficient of `f` stays as it is.
pub open spec fn blend(f: Seq<nat>, d: nat, r: Seq<nat>) -> Seq<nat> {
    Seq::new(
        f.len(),
        |j: int|
            if j < r.len() {
                add_mod(mul_mod(f[j], d), r[j])
            } else {
                f[j]
            },
    )
}

/// The partial sums of `d * f + r` are those of `f` times `d`, plus those
/// of `r`.
proof fn lemma_blend_power_sum(f: Seq<nat>, d: nat, r: Seq<nat>, x: nat, k: nat)
    requires
        f.len() == r.len(),
        k <= f.len(),
    ensures
        cong(power_sum(blend(f, d, r), x, k) as int, (d * power_sum(f, x, k) + power_sum(r, x, k)) as int),
    decreases k,
{
    if k == 0 {
        assert(d * 0 + 0 == 0) by (nonlinear_arith);
    } else {
        let j = (k - 1) as nat;
        let z = blend(f, d, r);
        lemma_blend_power_sum(f, d, r, x, j);
        let fj = f[j as int];
        let rj = r[j as int];
        let p = npow(x, j);
        assert(z[j as int] == add_mod(mul_mod(fj, d), rj));
        lemma_field_ops(fj, d);
        lemma_field_ops(mul_mod(fj, d), rj);
        lemma_cong_add(mul_mod(fj, d) as int, (fj * d) as int, rj as int, rj as int);
        lemma_cong_mul(z[j as int] as int, (fj * d + rj) as int, p as int, p as int);
        lemma_cong_add(
            power_sum(z, x, j) as int,
            (d * power_sum(f, x, j) + power_sum(r, x, j)) as int,
            (z[j as int] * p) as int,
            ((fj * d + rj) * p) as int,
        );
        let a = power_sum(f, x, j) as int;
        let b = power_sum(r, x, j) as int;
        let (di, fi, ri, pi) = (d as int, fj as int, rj as int, p as int);
        assert(di * a + b + (fi * di + ri) * pi == di * (a + fi * pi) + (b + ri * pi)) by (nonlinear_arith);
    }
}

/// Evaluation is linear: the value of `d * f + r` at `x` is `d` times the
/// value of `f` plus the value of `r`.
pub proof fn lemma_blend_eval(f: Seq<nat>, d: nat, r: Seq<nat>, x: nat)
    requires
        f.len() == r.len(),
    ensures
        poly_eval(blend(f, d, r), x) == add_mod(mul_mod(d, poly_eval(f, x)), poly_eval(r, x)),
{
    let z = blend(f, d, r);
    let sf = power_sum(f, x, f.len());
    let sr = power_sum(r, x, r.len());
    lemma_blend_power_sum(f, d, r, x, f.len());
    lemma_cong_mod(sf as int);
    lemma_cong_mod(sr as int);
    lemma_cong_mod(power_sum(z, x, z.len()) as int);
    lemma_field_ops(d, poly_eval(f, x));
    lemma_field_ops(mul_mod(d, poly_eval(f, x)), poly_eval(r, x));
    lemma_cong_mul(d as int, d as int, poly_eval(f, x) as int, sf as int);
    lemma_cong_add(mul_mod(d, poly_eval(f, x)) as int, (d * sf) as int, poly_eval(r, x) as int, sr as int);
    lemma_cong_reduced(
        poly_eval(z, x) as int,
        add_mod(mul_mod(d, poly_eval(f, x)), poly_eval(r, x)) as int,
    );
}

/// At zero only the constant term counts.
proof fn lemma_power_sum_at_zero(f: Seq<nat>, k: nat)
    requires
        1 <= k <= f.len(),
    ensures
        power_sum(f, 0, k) == f[0],
    decreases k,
{
    if k == 1 {
        assert(power_sum(f, 0, 0) == 0);
        assert(npow(0, 0) == 1);
        assert(f[0] * 1 == f[0]) by (nonlinear_arith);
    } else {
        let j = (k - 1) as nat;
        lemma_power_sum_at_zero(f, j);
        assert(npow(0, j) == 0nat * npow(0, (j - 1) as nat));
        assert(0nat * npow(0, (j - 1) as nat) == 0) by (nonlinear_arith);
        assert(f[j as int] * 0nat == 0) by (nonlinear_arith);
    }
}

/// A point multiplied by the value at zero is the point multiplied by the
/// constant term.
pub proof fn lemma_eval_at_zero(p: nat, f: Seq<nat>)
    requires
        f.len() > 0,
    ensures
        mul_mod(p, poly_eval(f, 0)) == mul_mod(p, f[0]),
{
    lemma_power_sum_at_zero(f, f.len());
    vstd::arithmetic::div_mod::lemma_mul_mod_noop_right(p as int, f[0] as int, crate::field::group_order() as int);
}

} // verus!
