//! The scalar field: integers modulo the prime order of the group, and the
//! little-endian byte strings that stand for them.

use vstd::prelude::*;

verus! {

/// The order of the group and modulus of the scalar field,
/// 2^252 + 27742317777372353535851937790883648493.
pub open spec fn group_order() -> nat {
    7237005577332262213973186563042994240857116359379907606001950938285454250989nat
}

/// The number that a byte string spells, least significant byte first.
pub open spec fn le_nat(bytes: Seq<u8>) -> nat
    decreases bytes.len(),
{
    if bytes.len() == 0 {
        0
    } else {
        bytes[0] as nat + 256 * le_nat(bytes.drop_first())
    }
}

/// Sum in the scalar field.
pub open spec fn add_mod(a: nat, b: nat) -> nat {
    (a + b) % group_order()
}

/// Difference in the scalar field.
pub open spec fn sub_mod(a: nat, b: nat) -> nat {
    ((a as int - b as int) % (group_order() as int)) as nat
}

/// Product in the scalar field.
pub open spec fn mul_mod(a: nat, b: nat) -> nat {
    (a * b) % group_order()
}

/// Additive inverse in the scalar field.
pub open spec fn neg_mod(a: nat) -> nat {
    sub_mod(0, a)
}

/// Whether `b` is a reduced multiplicative inverse of `a`.
pub open spec fn is_inverse(a: nat, b: nat) -> bool {
    b < group_order() && mul_mod(a, b) == 1
}

/// Multiplicative inverse in the scalar field; zero has none and is sent to
/// zero.
pub open spec fn inv_mod(a: nat) -> nat {
    if a % group_order() == 0 {
        0
    } else {
        choose|b: nat| is_inverse(a, b)
    }
}

/// A residue has at most one reduced inverse.
pub proof fn lemma_inverse_unique(a: nat, b: nat, c: nat)
    requires
        is_inverse(a, b),
        is_inverse(a, c),
    ensures
        b == c,
{
    let q = group_order() as int;
    let (a, b, c) = (a as int, b as int, c as int);
    // b == b * (a * c) == (b * a) * c == c, all modulo the order
    vstd::arithmetic::div_mod::lemma_mul_mod_noop_right(b, a * c, q);
    vstd::arithmetic::div_mod::lemma_mul_mod_noop_left(b * a, c, q);
    assert(b * (a * c) == (b * a) * c) by (nonlinear_arith);
    assert(b * a == a * b) by (nonlinear_arith);
    assert((b * 1) % q == b);
    assert((1 * c) % q == c);
}

/// Congruence modulo the group order.
pub open spec fn cong(a: int, b: int) -> bool {
    a % (group_order() as int) == b % (group_order() as int)
}

/// Sums of congruent integers are congruent.
pub proof fn lemma_cong_add(a: int, a2: int, b: int, b2: int)
    requires
        cong(a, a2),
        cong(b, b2),
    ensures
        cong(a + b, a2 + b2),
{
    let q = group_order() as int;
    vstd::arithmetic::div_mod::lemma_add_mod_noop(a, b, q);
    vstd::arithmetic::div_mod::lemma_add_mod_noop(a2, b2, q);
}

/// Differences of congruent integers are congruent.
pub proof fn lemma_cong_sub(a: int, a2: int, b: int, b2: int)
    requires
        cong(a, a2),
        cong(b, b2),
    ensures
        cong(a - b, a2 - b2),
{
    let q = group_order() as int;
    vstd::arithmetic::div_mod::lemma_sub_mod_noop(a, b, q);
    vstd::arithmetic::div_mod::lemma_sub_mod_noop(a2, b2, q);
}

/// Products of congruent integers are congruent.
pub proof fn lemma_cong_mul(a: int, a2: int, b: int, b2: int)
    requires
        cong(a, a2),
        cong(b, b2),
    ensures
        cong(a * b, a2 * b2),
{
    let q = group_order() as int;
    vstd::arithmetic::div_mod::lemma_mul_mod_noop(a, b, q);
    vstd::arithmetic::div_mod::lemma_mul_mod_noop(a2, b2, q);
}

/// Every integer is congruent to its remainder.
pub proof fn lemma_cong_mod(a: int)
    ensures
        cong(a % (group_order() as int), a),
        cong(a, a % (group_order() as int)),
        0 <= a % (group_order() as int) < group_order(),
{
    vstd::arithmetic::div_mod::lemma_mod_twice(a, group_order() as int);
}

/// The field operations compute sum, difference and product up to
/// congruence, and give reduced results.
pub proof fn lemma_field_ops(a: nat, b: nat)
    ensures
        cong(add_mod(a, b) as int, (a + b) as int),
        cong(sub_mod(a, b) as int, a as int - b as int),
        cong(mul_mod(a, b) as int, (a * b) as int),
        cong(neg_mod(a) as int, -(a as int)),
        add_mod(a, b) < group_order(),
        sub_mod(a, b) < group_order(),
        mul_mod(a, b) < group_order(),
        neg_mod(a) < group_order(),
{
    lemma_cong_mod((a + b) as int);
    lemma_cong_mod(a as int - b as int);
    lemma_cong_mod((a * b) as int);
    lemma_cong_mod(0 - a as int);
}

/// Two reduced integers that are congruent are equal.
pub proof fn lemma_cong_reduced(a: int, b: int)
    requires
        0 <= a < group_order(),
        0 <= b < group_order(),
        cong(a, b),
    ensures
        a == b,
{
    vstd::arithmetic::div_mod::lemma_small_mod(a as nat, group_order());
    vstd::arithmetic::div_mod::lemma_small_mod(b as nat, group_order());
}

/// The sum in the scalar field of the first `k` entries.
pub open spec fn sum_mod(xs: Seq<nat>, k: nat) -> nat
    decreases k,
{
    if k == 0 {
        0
    } else {
        add_mod(sum_mod(xs, (k - 1) as nat), xs[k - 1])
    }
}

/// A summand can be taken off both sides of an equation in the field.
pub proof fn lemma_cancel_summand(a: nat, b: nat, x: nat)
    requires
        a < group_order(),
        b < group_order(),
        add_mod(a, x) == add_mod(b, x),
    ensures
        a == b,
{
    lemma_field_ops(a, x);
    lemma_field_ops(b, x);
    lemma_cong_sub((a + x) as int, (b + x) as int, x as int, x as int);
    lemma_cong_reduced(a as int, b as int);
}

/// A factor that has an inverse can be taken off both sides of an equation
/// in the field.
pub proof fn lemma_cancel_factor(g: nat, a: nat, b: nat)
    requires
        is_inverse(g, inv_mod(g)),
        a < group_order(),
        b < group_order(),
        mul_mod(g, a) == mul_mod(g, b),
    ensures
        a == b,
{
    let inv = inv_mod(g) as int;
    let (gi, ai, bi) = (g as int, a as int, b as int);
    lemma_field_ops(g, a);
    lemma_field_ops(g, b);
    lemma_field_ops(g, inv_mod(g));
    // a == (g inv) a == inv (g a) == inv (g b) == (g inv) b == b
    lemma_cong_mul(inv, inv, gi * ai, gi * bi);
    assert(inv * (gi * ai) == (gi * inv) * ai) by (nonlinear_arith);
    assert(inv * (gi * bi) == (gi * inv) * bi) by (nonlinear_arith);
    lemma_cong_mul(gi * inv, 1, ai, ai);
    lemma_cong_mul(gi * inv, 1, bi, bi);
    assert(1 * ai == ai && 1 * bi == bi);
    lemma_cong_reduced(ai, bi);
}

} // verus!
