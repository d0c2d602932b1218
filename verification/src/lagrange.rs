//! Why reconstruction works: the Lagrange coefficients of any places with
//! invertible differences take the values of a polynomial to its value at
//! zero.

use crate::field::{add_mod, cong, group_order, inv_mod, is_inverse, mul_mod, sub_mod};
use crate::field::{lemma_cong_add, lemma_cong_mod, lemma_cong_mul, lemma_cong_reduced, lemma_cong_sub};
use crate::field::lemma_field_ops;
use crate::polynomial::{npow, poly_eval, power_sum};
use crate::utils::{combined, lagrange_weight, places_of};
use vstd::prelude::*;

verus! {

/// The sum of the first `k` entries.
pub open spec fn isum(s: Seq<int>, k: nat) -> int
    decreases k,
{
    if k == 0 {
        0
    } else {
        isum(s, (k - 1) as nat) + s[k - 1]
    }
}

/// Sums of entries that are congruent one by one are congruent.
proof fn lemma_isum_cong(a: Seq<int>, b: Seq<int>, k: nat)
    requires
        k <= a.len(),
        k <= b.len(),
        forall|j: int| 0 <= j < k ==> cong(#[trigger] a[j], b[j]),
    ensures
        cong(isum(a, k), isum(b, k)),
    decreases k,
{
    if k > 0 {
        lemma_isum_cong(a, b, (k - 1) as nat);
        lemma_cong_add(isum(a, (k - 1) as nat), isum(b, (k - 1) as nat), a[k - 1], b[k - 1]);
    }
}

/// Sums of entries that are equal one by one are equal.
proof fn lemma_isum_eq(a: Seq<int>, b: Seq<int>, k: nat)
    requires
        k <= a.len(),
        k <= b.len(),
        forall|j: int| 0 <= j < k ==> #[trigger] a[j] == b[j],
    ensures
        isum(a, k) == isum(b, k),
    decreases k,
{
    if k > 0 {
        lemma_isum_eq(a, b, (k - 1) as nat);
    }
}

/// The sum of `alpha * u + beta * v` is `alpha` times the sum of `u` plus
/// `beta` times the sum of `v`.
proof fn lemma_isum_linear(c: Seq<int>, u: Seq<int>, v: Seq<int>, alpha: int, beta: int, k: nat)
    requires
        k <= c.len(),
        k <= u.len(),
        k <= v.len(),
        forall|j: int| 0 <= j < k ==> #[trigger] c[j] == alpha * u[j] + beta * v[j],
    ensures
        isum(c, k) == alpha * isum(u, k) + beta * isum(v, k),
    decreases k,
{
    if k == 0 {
        assert(alpha * 0 + beta * 0 == 0) by (nonlinear_arith);
    } else {
        let j = (k - 1) as nat;
        lemma_isum_linear(c, u, v, alpha, beta, j);
        let (su, sv, uj, vj) = (isum(u, j), isum(v, j), u[j as int], v[j as int]);
        assert(alpha * su + beta * sv + (alpha * uj + beta * vj) == alpha * (su + uj) + beta * (sv + vj))
            by (nonlinear_arith);
    }
}

/// Products of four factors can be regrouped.
proof fn lemma_regroup(a: int, b: int, c: int, d: int)
    ensures
        (a * b) * (c * d) == (a * c) * (b * d),
        (a * b) * (c * d) == (a * d) * (b * c),
        a * (b * (c * d)) == (a * b) * (c * d),
        a * (b * (c * d)) == (d * a) * (b * c),
{
    assert((a * b) * (c * d) == (a * c) * (b * d)) by (nonlinear_arith);
    assert((a * b) * (c * d) == (a * d) * (b * c)) by (nonlinear_arith);
    assert(a * (b * (c * d)) == (a * b) * (c * d)) by (nonlinear_arith);
    assert(a * (b * (c * d)) == (d * a) * (b * c)) by (nonlinear_arith);
}

/// A product distributes over a difference and over a sum.
proof fn lemma_distribute(a: int, b: int, c: int)
    ensures
        a * (b - c) == a * b - a * c,
        a * (b + c) == a * b + a * c,
        (-a) * b == -(a * b),
        a * (-b) == -(a * b),
        a * b == b * a,
        a * 1 == a,
        1 * a == a,
{
    assert(a * (b - c) == a * b - a * c) by (nonlinear_arith);
    assert(a * (b + c) == a * b + a * c) by (nonlinear_arith);
    assert((-a) * b == -(a * b)) by (nonlinear_arith);
    assert(a * (-b) == -(a * b)) by (nonlinear_arith);
    assert(a * b == b * a) by (nonlinear_arith);
}

/// Whether the difference `y - x` has an inverse in the scalar field.
pub open spec fn inv_ok(y: nat, x: nat) -> bool {
    is_inverse(sub_mod(y, x), inv_mod(sub_mod(y, x)))
}

/// The inverse of the difference `y - x`.
pub open spec fn inv_of(y: nat, x: nat) -> nat {
    inv_mod(sub_mod(y, x))
}

/// The factor `y / (y - x)` by which a place `y` enters the coefficient of
/// a place `x`.
pub open spec fn factor(y: nat, x: nat) -> nat {
    mul_mod(y, inv_of(y, x))
}

/// Whether all differences of two of the first `n` places have inverses.
pub open spec fn pairwise_invertible(places: Seq<nat>, n: nat) -> bool {
    forall|i: int, j: int| 0 <= i < n && 0 <= j < n && i != j ==> inv_ok(#[trigger] places[i], #[trigger] places[j])
}

/// The inverse of a difference times the difference is one, and the factor
/// is the place times the inverse.
proof fn lemma_inverse(y: nat, x: nat)
    requires
        inv_ok(y, x),
    ensures
        cong((y - x) * inv_of(y, x), 1),
        cong(factor(y, x) as int, (y * inv_of(y, x)) as int),
{
    let d = sub_mod(y, x);
    let u = inv_of(y, x);
    lemma_field_ops(y, x);
    lemma_field_ops(d, u);
    lemma_field_ops(y, u);
    lemma_cong_mul(d as int, y - x, u as int, u as int);
    lemma_cong_mod(1);
}

/// The inverses of `y - x` and of `x - y` are negatives of each other.
proof fn lemma_inverse_flip(y: nat, x: nat)
    requires
        inv_ok(y, x),
        inv_ok(x, y),
    ensures
        cong(inv_of(x, y) as int, -(inv_of(y, x) as int)),
{
    let u = inv_of(y, x) as int;
    let v = inv_of(x, y) as int;
    let (yi, xi) = (y as int, x as int);
    lemma_inverse(y, x);
    lemma_inverse(x, y);
    // v == v * 1 == v * ((y - x) u) == -((x - y) v) u == -u
    lemma_cong_mul(v, v, (yi - xi) * u, 1);
    assert(v * ((yi - xi) * u) == (-u) * ((xi - yi) * v)) by (nonlinear_arith);
    lemma_cong_mul(-u, -u, (xi - yi) * v, 1);
    assert(v * 1 == v) by (nonlinear_arith);
    assert((-u) * 1 == -u) by (nonlinear_arith);
}

/// Partial fractions: with `f = b / (b - x)` and `g = a / (a - x)`, the
/// product `f * g` is `(a * f - b * g) / (a - b)`.
proof fn lemma_partial_fractions(a: nat, b: nat, x: nat)
    requires
        inv_ok(a, x),
        inv_ok(b, x),
        inv_ok(a, b),
    ensures
        cong(
            (factor(b, x) * factor(a, x)) as int,
            inv_of(a, b) * (a * factor(b, x) - b * factor(a, x)),
        ),
{
    let (ai, bi, xi) = (a as int, b as int, x as int);
    let u = inv_of(b, x) as int;
    let v = inv_of(a, x) as int;
    let t = inv_of(a, b) as int;
    let f = factor(b, x) as int;
    let g = factor(a, x) as int;
    lemma_inverse(a, x);
    lemma_inverse(b, x);
    lemma_inverse(a, b);
    // f g == (b u)(a v)
    lemma_cong_mul(f, bi * u, g, ai * v);
    // u - v == u v (a - b): u == u ((a - x) v) and v == v ((b - x) u)
    lemma_cong_mul(u, u, (ai - xi) * v, 1);
    lemma_cong_mul(v, v, (bi - xi) * u, 1);
    assert(u * 1 == u && v * 1 == v) by (nonlinear_arith);
    lemma_cong_sub(u * ((ai - xi) * v), u, v * ((bi - xi) * u), v);
    assert(u * ((ai - xi) * v) - v * ((bi - xi) * u) == (u * v) * (ai - bi)) by (nonlinear_arith);
    // so a f - b g == a b (u - v) == a b u v (a - b)
    lemma_cong_mul(ai, ai, f, bi * u);
    lemma_cong_mul(bi, bi, g, ai * v);
    lemma_cong_sub(ai * f, ai * (bi * u), bi * g, bi * (ai * v));
    assert(ai * (bi * u) - bi * (ai * v) == (ai * bi) * (u - v)) by (nonlinear_arith);
    lemma_cong_mul(ai * bi, ai * bi, u - v, (u * v) * (ai - bi));
    // and t (a - b) == 1
    let p = ai * bi;
    let q = u * v;
    let d = ai - bi;
    lemma_cong_mul(t, t, ai * f - bi * g, p * (q * d));
    lemma_regroup(t, p, q, d);
    lemma_cong_mul(d * t, 1, p * q, p * q);
    lemma_distribute(p * q, 0, 0);
    lemma_regroup(bi, u, ai, v);
    lemma_distribute(ai, bi, 0);
}

/// The product of the factors by which the first `k` places enter the
/// coefficient of a place `y` that is none of them.
pub open spec fn outer_weight(places: Seq<nat>, y: nat, k: nat) -> nat
    decreases k,
{
    if k == 0 {
        1
    } else {
        mul_mod(outer_weight(places, y, (k - 1) as nat), factor(places[k - 1], y))
    }
}

/// Among the places before it, the coefficient of a place is the product
/// of all their factors.
proof fn lemma_weight_before(places: Seq<nat>, at: int, k: nat)
    requires
        0 <= at,
        k <= at,
    ensures
        lagrange_weight(places, at, k) == outer_weight(places, places[at], k),
    decreases k,
{
    if k > 0 {
        lemma_weight_before(places, at, (k - 1) as nat);
    }
}

/// The coefficients of the first `n` places among themselves, each
/// multiplied by the factor `a / (a - x_j)` of a further place `a`.
pub open spec fn extended(places: Seq<nat>, a: nat, n: nat) -> Seq<int> {
    Seq::new(n, |j: int| (lagrange_weight(places, j, n) * factor(a, places[j])) as int)
}

/// Whether the differences between `a` and each of the first `n` places
/// have inverses, both ways round.
pub open spec fn invertible_against(places: Seq<nat>, a: nat, n: nat) -> bool {
    forall|j: int| 0 <= j < n ==> inv_ok(a, #[trigger] places[j]) && inv_ok(places[j], a)
}

/// A further place `a` takes its share of the whole: the coefficients of
/// the first `n` places, each multiplied by the factor of `a`, and the
/// coefficient of `a` itself add up to one.
proof fn lemma_further_place(places: Seq<nat>, a: nat, n: nat)
    requires
        n <= places.len(),
        pairwise_invertible(places, n),
        invertible_against(places, a, n),
    ensures
        cong(isum(extended(places, a, n), n) + outer_weight(places, a, n), 1),
    decreases n,
{
    if n == 0 {
        lemma_cong_mod(1);
    } else {
        let m = (n - 1) as nat;
        let b = places[m as int];
        let (ai, bi) = (a as int, b as int);
        assert(pairwise_invertible(places, m));
        assert(invertible_against(places, a, m));
        assert(invertible_against(places, b, m)) by {
            assert forall|j: int| 0 <= j < m implies inv_ok(b, #[trigger] places[j]) && inv_ok(places[j], b) by {
                assert(inv_ok(places[m as int], places[j]));
                assert(inv_ok(places[j], places[m as int]));
            }
        }
        lemma_further_place(places, a, m);
        lemma_further_place(places, b, m);
        let sa = isum(extended(places, a, m), m);
        let sb = isum(extended(places, b, m), m);
        let pa = outer_weight(places, a, m) as int;
        let pb = outer_weight(places, b, m) as int;
        let t = inv_of(a, b) as int;
        assert(inv_ok(a, places[m as int]) && inv_ok(places[m as int], a));
        lemma_inverse(a, b);
        lemma_inverse(b, a);
        lemma_inverse_flip(a, b);
        let alpha = t * ai;
        let beta = -(t * bi);
        // the first m terms
        let now = extended(places, a, n);
        let split = Seq::new(m, |j: int| alpha * extended(places, b, m)[j] + beta * extended(places, a, m)[j]);
        assert forall|j: int| 0 <= j < m implies cong(#[trigger] now[j], split[j]) by {
            let x = places[j];
            let w = lagrange_weight(places, j, m) as int;
            let f = factor(b, x) as int;
            let g = factor(a, x) as int;
            assert(inv_ok(a, places[j]));
            assert(inv_ok(places[m as int], places[j]));
            lemma_partial_fractions(a, b, x);
            assert(lagrange_weight(places, j, n) == mul_mod(lagrange_weight(places, j, m), factor(b, x)));
            lemma_field_ops(lagrange_weight(places, j, m), factor(b, x));
            lemma_cong_mul(lagrange_weight(places, j, n) as int, w * f, g, g);
            assert((w * f) * g == w * (f * g)) by (nonlinear_arith);
            lemma_cong_mul(w, w, f * g, t * (ai * f - bi * g));
            // w (t (a f - b g)) == (t a)(w f) - (t b)(w g)
            lemma_distribute(t, ai * f, bi * g);
            lemma_distribute(w, t * (ai * f), t * (bi * g));
            assert(w * (t * (ai * f)) == (t * ai) * (w * f)) by {
                lemma_regroup(w, t, ai, f);
                lemma_regroup(w, f, t, ai);
                lemma_distribute(w * f, t * ai, 0);
            }
            assert(w * (t * (bi * g)) == (t * bi) * (w * g)) by {
                lemma_regroup(w, t, bi, g);
                lemma_regroup(w, g, t, bi);
                lemma_distribute(w * g, t * bi, 0);
            }
            lemma_distribute(t * bi, w * g, 0);
        }
        lemma_isum_cong(now, split, m);
        lemma_isum_linear(split, extended(places, b, m), extended(places, a, m), alpha, beta, m);
        // the term of the last place
        lemma_weight_before(places, m as int, m);
        assert(lagrange_weight(places, m as int, n) == outer_weight(places, b, m));
        let last = now[m as int];
        lemma_cong_mul(pb, pb, factor(a, b) as int, ai * t);
        assert(cong(last, pb * (ai * t)));
        // the coefficient of the further place
        let tf = inv_of(b, a) as int;
        lemma_field_ops(outer_weight(places, a, m), factor(b, a));
        lemma_cong_mul(bi, bi, tf, -t);
        lemma_cong_mul(pa, pa, factor(b, a) as int, bi * (-t));
        let outer = outer_weight(places, a, n) as int;
        assert(cong(outer, pa * (bi * (-t))));
        // all together
        lemma_cong_add(isum(now, m), alpha * sb + beta * sa, last, pb * (ai * t));
        lemma_cong_add(isum(now, m) + last, alpha * sb + beta * sa + pb * (ai * t), outer, pa * (bi * (-t)));
        assert(alpha * sb + beta * sa + pb * (ai * t) + pa * (bi * (-t)) == (t * ai) * (sb + pb) - (t * bi) * (sa
            + pa)) by {
            let ta = t * ai;
            let tb = t * bi;
            lemma_distribute(ta, sb, pb);
            lemma_distribute(tb, sa, pa);
            lemma_distribute(tb, sa, 0);
            lemma_distribute(ai, t, 0);
            lemma_distribute(pb, ta, 0);
            lemma_distribute(bi, t, 0);
            lemma_distribute(pa, tb, 0);
            assert(bi * (-t) == -tb);
            assert(pa * (-tb) == -(tb * pa));
        }
        lemma_cong_mul(t * ai, t * ai, sb + pb, 1);
        lemma_cong_mul(t * bi, t * bi, sa + pa, 1);
        lemma_cong_sub((t * ai) * (sb + pb), (t * ai) * 1, (t * bi) * (sa + pa), (t * bi) * 1);
        lemma_distribute(t * ai, 0, 0);
        lemma_distribute(t * bi, 0, 0);
        lemma_distribute(t, ai, bi);
        lemma_distribute(t, ai - bi, 0);
    }
}

/// The coefficients of the first `n` places among themselves.
pub open spec fn weights(places: Seq<nat>, n: nat) -> Seq<int> {
    Seq::new(n, |j: int| lagrange_weight(places, j, n) as int)
}

/// The coefficients add up to one.
proof fn lemma_weights_sum(places: Seq<nat>, n: nat)
    requires
        1 <= n <= places.len(),
        pairwise_invertible(places, n),
    ensures
        cong(isum(weights(places, n), n), 1),
{
    let m = (n - 1) as nat;
    let b = places[m as int];
    assert(pairwise_invertible(places, m));
    assert(invertible_against(places, b, m)) by {
        assert forall|j: int| 0 <= j < m implies inv_ok(b, #[trigger] places[j]) && inv_ok(places[j], b) by {
            assert(inv_ok(places[m as int], places[j]));
            assert(inv_ok(places[j], places[m as int]));
        }
    }
    lemma_further_place(places, b, m);
    let now = weights(places, n);
    let before = extended(places, b, m);
    assert forall|j: int| 0 <= j < m implies cong(#[trigger] now[j], before[j]) by {
        assert(lagrange_weight(places, j, n) == mul_mod(lagrange_weight(places, j, m), factor(b, places[j])));
        lemma_field_ops(lagrange_weight(places, j, m), factor(b, places[j]));
    }
    lemma_isum_cong(now, before, m);
    lemma_weight_before(places, m as int, m);
    assert(now[m as int] == outer_weight(places, b, m));
    lemma_cong_add(isum(now, m), isum(before, m), now[m as int], outer_weight(places, b, m) as int);
}

/// The coefficient of `x^j` in the quotient of `f` by `x - a`.
pub open spec fn quotient_coef(f: Seq<nat>, a: nat, j: nat) -> nat
    decreases f.len() - j,
{
    if j + 1 >= f.len() {
        0
    } else {
        add_mod(f[(j + 1) as int], mul_mod(a, quotient_coef(f, a, j + 1)))
    }
}

/// The quotient of `f` by `x - a`: one coefficient less than `f`.
pub open spec fn quotient(f: Seq<nat>, a: nat) -> Seq<nat> {
    Seq::new((f.len() - 1) as nat, |j: int| quotient_coef(f, a, j as nat))
}

/// The remainder of `f` by `x - a`: the value of `f` at `a`.
pub open spec fn remainder(f: Seq<nat>, a: nat) -> nat {
    add_mod(f[0], mul_mod(a, quotient_coef(f, a, 0)))
}

/// Each coefficient of the quotient is the next coefficient of `f` plus
/// `a` times the next coefficient of the quotient.
proof fn lemma_quotient_coef(f: Seq<nat>, a: nat, j: nat)
    requires
        j + 1 < f.len(),
    ensures
        cong(quotient_coef(f, a, j) as int, (f[(j + 1) as int] + a * quotient_coef(f, a, j + 1)) as int),
{
    let c = quotient_coef(f, a, j + 1);
    lemma_field_ops(a, c);
    let next = f[(j + 1) as int];
    lemma_field_ops(next, mul_mod(a, c));
    lemma_cong_add(next as int, next as int, mul_mod(a, c) as int, (a * c) as int);
}

/// The partial sums of `f` and of `(x - a) q + r` agree up to the term that
/// the quotient still carries over.
proof fn lemma_division_step(f: Seq<nat>, a: nat, x: nat, k: nat)
    requires
        f.len() >= 2,
        1 <= k <= f.len() - 1,
    ensures
        cong(
            (power_sum(f, x, k) + quotient_coef(f, a, (k - 1) as nat) * npow(x, k)) as int,
            (x - a) * power_sum(quotient(f, a), x, k) + remainder(f, a),
        ),
    decreases k,
{
    let q = quotient(f, a);
    let r = remainder(f, a) as int;
    let (xi, ai) = (x as int, a as int);
    if k == 1 {
        let c0 = quotient_coef(f, a, 0) as int;
        let f0 = f[0] as int;
        assert(power_sum(f, x, 1) == power_sum(f, x, 0) + f[0] * npow(x, 0));
        assert(power_sum(q, x, 1) == power_sum(q, x, 0) + q[0] * npow(x, 0));
        assert(npow(x, 1) == x * npow(x, 0));
        lemma_distribute(f0, 0, 0);
        lemma_distribute(c0, 0, 0);
        lemma_distribute(xi, 0, 0);
        assert(power_sum(f, x, 1) == f0);
        assert(power_sum(q, x, 1) == c0);
        assert(npow(x, 1) == xi);
        lemma_field_ops(a, quotient_coef(f, a, 0));
        lemma_field_ops(f[0], mul_mod(a, quotient_coef(f, a, 0)));
        lemma_cong_add(f0, f0, mul_mod(a, quotient_coef(f, a, 0)) as int, ai * c0);
        // (x - a) c0 + r == (x - a) c0 + f0 + a c0 == f0 + c0 x
        lemma_cong_add((xi - ai) * c0, (xi - ai) * c0, r, f0 + ai * c0);
        lemma_distribute(c0, xi, ai);
        lemma_distribute(xi - ai, c0, 0);
        lemma_distribute(ai, c0, 0);
        lemma_distribute(c0, xi, 0);
    } else {
        let j = (k - 1) as nat;
        lemma_division_step(f, a, x, j);
        let sf = power_sum(f, x, j) as int;
        let sq = power_sum(q, x, j) as int;
        let prev = quotient_coef(f, a, (j - 1) as nat) as int;
        let c = quotient_coef(f, a, j) as int;
        let fj = f[j as int] as int;
        let p = npow(x, j) as int;
        assert(power_sum(f, x, k) == sf + fj * p);
        assert(power_sum(q, x, k) == sq + q[j as int] * npow(x, j));
        assert(q[j as int] == quotient_coef(f, a, j));
        assert(npow(x, k) == xi * p);
        lemma_quotient_coef(f, a, (j - 1) as nat);
        // the right side is the earlier right side plus (x - a) c x^j
        lemma_distribute(xi - ai, sq, c * p);
        // by induction the earlier right side is sf + prev x^j, and prev == fj + a c
        lemma_cong_mul(prev, fj + ai * c, p, p);
        lemma_cong_add(sf, sf, prev * p, (fj + ai * c) * p);
        lemma_cong_add(
            (xi - ai) * sq + r,
            sf + (fj + ai * c) * p,
            (xi - ai) * (c * p),
            (xi - ai) * (c * p),
        );
        // sf + (fj + a c) p + (x - a)(c p) == sf + fj p + c (x p)
        let cp = c * p;
        lemma_distribute(p, fj, ai * c);
        lemma_distribute(p, fj, 0);
        lemma_distribute(p, ai * c, 0);
        lemma_regroup(ai, c, p, 1);
        lemma_distribute(cp, 0, 0);
        lemma_distribute(ai * c, p, 0);
        assert((ai * c) * p == ai * cp) by {
            assert((ai * c) * p == ai * (c * p)) by (nonlinear_arith);
        }
        lemma_distribute(cp, xi, ai);
        lemma_distribute(xi - ai, cp, 0);
        lemma_distribute(cp, xi, 0);
        lemma_distribute(cp, ai, 0);
        assert(c * (xi * p) == xi * cp) by (nonlinear_arith)
            requires
                cp == c * p,
        ;
    }
}

/// Division by `x - a`: the value of `f` at any `x` is `x - a` times the
/// value of the quotient, plus the remainder.
proof fn lemma_division(f: Seq<nat>, a: nat, x: nat)
    requires
        f.len() >= 2,
    ensures
        cong(poly_eval(f, x) as int, (x - a) * poly_eval(quotient(f, a), x) + remainder(f, a)),
{
    let n = (f.len() - 1) as nat;
    let q = quotient(f, a);
    let (xi, ai) = (x as int, a as int);
    lemma_division_step(f, a, x, n);
    // the quotient's leading coefficient is that of f
    let lead = quotient_coef(f, a, (n - 1) as nat);
    assert(quotient_coef(f, a, n) == 0);
    lemma_quotient_coef(f, a, (n - 1) as nat);
    lemma_distribute(ai, 0, 0);
    assert(ai * 0 == 0) by (nonlinear_arith);
    assert(cong(lead as int, f[n as int] as int));
    let p = npow(x, n) as int;
    lemma_cong_mul(lead as int, f[n as int] as int, p, p);
    lemma_cong_add(power_sum(f, x, n) as int, power_sum(f, x, n) as int, lead * p, f[n as int] * p);
    assert(power_sum(f, x, f.len()) == power_sum(f, x, n) + f[n as int] * npow(x, n));
    lemma_cong_mod(power_sum(f, x, f.len()) as int);
    lemma_cong_mod(power_sum(q, x, q.len()) as int);
    lemma_cong_mul(xi - ai, xi - ai, poly_eval(q, x) as int, power_sum(q, x, n) as int);
    lemma_cong_add(
        (xi - ai) * poly_eval(q, x),
        (xi - ai) * power_sum(q, x, n),
        remainder(f, a) as int,
        remainder(f, a) as int,
    );
}

/// The values of `f` at the first `n` places, each multiplied by the
/// coefficient of its place.
pub open spec fn weighted_values(places: Seq<nat>, f: Seq<nat>, n: nat) -> Seq<int> {
    Seq::new(n, |j: int| (lagrange_weight(places, j, n) * poly_eval(f, places[j])) as int)
}

/// Interpolation at zero: for a polynomial with `n` coefficients and `n`
/// places whose differences have inverses, the values at the places,
/// weighted by the Lagrange coefficients, add up to the constant term.
pub proof fn lemma_interpolation(places: Seq<nat>, f: Seq<nat>)
    requires
        1 <= f.len() <= places.len(),
        pairwise_invertible(places, f.len()),
    ensures
        cong(isum(weighted_values(places, f, f.len()), f.len()), f[0] as int),
    decreases f.len(),
{
    let n = f.len();
    let now = weighted_values(places, f, n);
    if n == 1 {
        let x = places[0];
        assert(lagrange_weight(places, 0, 1) == lagrange_weight(places, 0, 0));
        assert(lagrange_weight(places, 0, 0) == 1);
        assert(power_sum(f, x, 1) == power_sum(f, x, 0) + f[0] * npow(x, 0));
        lemma_distribute(f[0] as int, 0, 0);
        lemma_cong_mod(f[0] as int);
        lemma_distribute(poly_eval(f, x) as int, 0, 0);
        assert(isum(now, 1) == isum(now, 0) + now[0]);
        assert(now[0] == poly_eval(f, x));
    } else {
        let m = (n - 1) as nat;
        let a = places[m as int];
        let ai = a as int;
        let q = quotient(f, a);
        let r = remainder(f, a) as int;
        let c0 = quotient_coef(f, a, 0) as int;
        assert(pairwise_invertible(places, m));
        lemma_interpolation(places, q);
        lemma_weights_sum(places, n);
        let earlier = weighted_values(places, q, m);
        let padded = Seq::new(n, |j: int| if j < m { earlier[j] } else { 0 });
        let all = weights(places, n);
        let split = Seq::new(n, |j: int| (-ai) * padded[j] + r * all[j]);
        assert forall|j: int| 0 <= j < n implies cong(#[trigger] now[j], split[j]) by {
            let x = places[j];
            let xi = x as int;
            let w = lagrange_weight(places, j, n) as int;
            let e = poly_eval(f, x) as int;
            let eq = poly_eval(q, x) as int;
            lemma_division(f, a, x);
            // w e == w (x - a) eq + w r
            lemma_cong_mul(w, w, e, (xi - ai) * eq + r);
            lemma_distribute(w, (xi - ai) * eq, r);
            lemma_distribute(w, r, 0);
            if j < m {
                let wm = lagrange_weight(places, j, m) as int;
                let u = inv_of(a, x) as int;
                assert(inv_ok(places[m as int], places[j]));
                lemma_inverse(a, x);
                assert(lagrange_weight(places, j, n) == mul_mod(lagrange_weight(places, j, m), factor(a, x)));
                lemma_field_ops(lagrange_weight(places, j, m), factor(a, x));
                // w (x - a) == wm a u (x - a) == -(a wm)
                lemma_cong_mul(wm, wm, factor(a, x) as int, ai * u);
                lemma_cong_mul(w, wm * (ai * u), xi - ai, xi - ai);
                assert((wm * (ai * u)) * (xi - ai) == (-(ai * wm)) * ((ai - xi) * u)) by {
                    lemma_regroup(wm, ai * u, xi - ai, 1);
                    lemma_distribute(xi - ai, 0, 0);
                    lemma_distribute(ai * u, 0, 0);
                    lemma_regroup(wm, ai, u, xi - ai);
                    lemma_distribute(wm, ai, 0);
                    lemma_distribute(u, xi - ai, 0);
                    lemma_distribute(u, xi, ai);
                    lemma_distribute(u, ai, xi);
                    lemma_distribute(ai * wm, (ai - xi) * u, 0);
                    lemma_distribute(wm * ai, u * (xi - ai), 0);
                    assert((wm * ai) * (u * (xi - ai)) == (wm * ai) * (-((ai - xi) * u)));
                    lemma_distribute(wm * ai, (ai - xi) * u, 0);
                }
                lemma_cong_mul(-(ai * wm), -(ai * wm), (ai - xi) * u, 1);
                lemma_distribute(-(ai * wm), 0, 0);
                assert(cong(w * (xi - ai), -(ai * wm)));
                lemma_cong_mul(w * (xi - ai), -(ai * wm), eq, eq);
                assert(w * ((xi - ai) * eq) == (w * (xi - ai)) * eq) by (nonlinear_arith);
                assert((-(ai * wm)) * eq == (-ai) * (wm * eq)) by (nonlinear_arith);
                assert(padded[j] == wm * eq);
                lemma_cong_add(w * ((xi - ai) * eq), (-ai) * (wm * eq), w * r, r * w);
            } else {
                assert(xi - ai == 0);
                assert(w * ((xi - ai) * eq) == 0) by (nonlinear_arith)
                    requires
                        xi - ai == 0,
                ;
                assert((-ai) * padded[j] == 0) by (nonlinear_arith)
                    requires
                        padded[j] == 0,
                ;
                lemma_cong_mod(r * w);
            }
        }
        lemma_isum_cong(now, split, n);
        lemma_isum_linear(split, padded, all, -ai, r, n);
        lemma_isum_eq(padded, earlier, m);
        assert(isum(padded, n) == isum(padded, m) + padded[m as int]);
        // (-a) q(0) + r == (-a) c0 + f0 + a c0 == f0
        assert(q[0] == quotient_coef(f, a, 0));
        lemma_cong_mul(-ai, -ai, isum(padded, n), c0);
        lemma_cong_mul(r, r, isum(all, n), 1);
        lemma_cong_add((-ai) * isum(padded, n), (-ai) * c0, r * isum(all, n), r * 1);
        lemma_field_ops(a, quotient_coef(f, a, 0));
        lemma_field_ops(f[0], mul_mod(a, quotient_coef(f, a, 0)));
        lemma_cong_add(f[0] as int, f[0] as int, mul_mod(a, quotient_coef(f, a, 0)) as int, ai * c0);
        lemma_distribute(r, 0, 0);
        lemma_distribute(ai, c0, 0);
        lemma_cong_add((-ai) * c0, (-ai) * c0, r, f[0] + ai * c0);
    }
}

/// The shares that reconstruction combines, each multiplied by its weight.
pub open spec fn weighted_shares(indices: Seq<usize>, weights: Seq<nat>, shares: Seq<nat>) -> Seq<int> {
    Seq::new(indices.len(), |m: int| (shares[indices[m] as int] * weights[m]) as int)
}

/// What reconstruction computes is congruent to the sum of the weighted
/// shares.
proof fn lemma_combined(indices: Seq<usize>, weights: Seq<nat>, shares: Seq<nat>, k: nat)
    requires
        k <= indices.len(),
    ensures
        cong(combined(indices, weights, shares, k) as int, isum(weighted_shares(indices, weights, shares), k)),
        combined(indices, weights, shares, k) < group_order(),
    decreases k,
{
    if k == 0 {
        lemma_cong_mod(0);
    } else {
        let j = (k - 1) as nat;
        lemma_combined(indices, weights, shares, j);
        let share = shares[indices[j as int] as int];
        let weight = weights[j as int];
        lemma_field_ops(share, weight);
        lemma_field_ops(combined(indices, weights, shares, j), mul_mod(share, weight));
        lemma_cong_add(
            combined(indices, weights, shares, j) as int,
            isum(weighted_shares(indices, weights, shares), j),
            mul_mod(share, weight) as int,
            (share * weight) as int,
        );
    }
}

/// The Lagrange coefficients of the parties with the given indices, each
/// taken among their places.
pub open spec fn subset_weights(indices: Seq<usize>) -> Seq<nat> {
    Seq::new(indices.len(), |m: int| lagrange_weight(places_of(indices), m, indices.len()))
}

/// Reconstruction gives the secret in the exponent, whichever parties
/// contribute: where the decrypted shares of `t + 1` parties are the values
/// `f(i) * G` of a polynomial with `t + 1` coefficients at the parties'
/// places, and the differences of the places have inverses, the shares
/// combined with the Lagrange coefficients of those places are `f(0) * G`.
pub proof fn lemma_reconstruction(g: nat, f: Seq<nat>, indices: Seq<usize>, shares: Seq<nat>)
    requires
        indices.len() == f.len(),
        f.len() >= 1,
        pairwise_invertible(places_of(indices), f.len()),
        forall|m: int|
            0 <= m < indices.len() ==> #[trigger] indices[m] < shares.len() && shares[indices[m] as int] == mul_mod(
                g,
                poly_eval(f, places_of(indices)[m]),
            ),
    ensures
        combined(indices, subset_weights(indices), shares, indices.len()) == mul_mod(g, f[0]),
{
    let n = f.len();
    let places = places_of(indices);
    let ws = subset_weights(indices);
    let gi = g as int;
    lemma_combined(indices, ws, shares, n);
    lemma_interpolation(places, f);
    let terms = weighted_shares(indices, ws, shares);
    let values = weighted_values(places, f, n);
    let zeros = Seq::new(n, |m: int| 0int);
    let scaled = Seq::new(n, |m: int| gi * values[m] + 0 * zeros[m]);
    assert forall|m: int| 0 <= m < n implies cong(#[trigger] terms[m], scaled[m]) by {
        let e = poly_eval(f, places[m]);
        let w = ws[m];
        assert(indices[m] < shares.len());
        assert(shares[indices[m] as int] == mul_mod(g, e));
        lemma_field_ops(g, e);
        lemma_cong_mul(mul_mod(g, e) as int, (g * e) as int, w as int, w as int);
        assert((gi * e) * w == gi * (w * e)) by (nonlinear_arith);
        assert(0 * zeros[m] == 0);
    }
    lemma_isum_cong(terms, scaled, n);
    lemma_isum_linear(scaled, values, zeros, gi, 0, n);
    assert(0 * isum(zeros, n) == 0);
    lemma_cong_mul(gi, gi, isum(values, n), f[0] as int);
    lemma_field_ops(g, f[0]);
    lemma_cong_reduced(combined(indices, ws, shares, n) as int, mul_mod(g, f[0]) as int);
}

} // verus!
