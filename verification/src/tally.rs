//! The homomorphic tally: encrypted votes add up to an encryption of the
//! number of yes votes, which a search over small numbers decodes.

use crate::field::{add_mod, cong, group_order, inv_mod, is_inverse, mul_mod, sub_mod, sum_mod};
use crate::field::lemma_cancel_factor;
use crate::field::{lemma_cong_add, lemma_cong_mul, lemma_cong_reduced, lemma_cong_sub, lemma_field_ops};
use crate::point::Point;
use vstd::prelude::*;

verus! {

/// The encrypted vote: `G * (s + 1)` for yes and `G * s` for no.
pub open spec fn encrypted_vote_of(g: nat, s: nat, yes: bool) -> nat {
    mul_mod(g, add_mod(s, if yes { 1 } else { 0 }))
}

/// The encrypted votes of a run of ballots with the given secrets and
/// votes.
pub open spec fn encrypted_votes(g: nat, secrets: Seq<nat>, votes: Seq<bool>) -> Seq<nat> {
    Seq::new(secrets.len(), |i: int| encrypted_vote_of(g, secrets[i], votes[i]))
}

/// The number of yes votes among the first `k`.
pub open spec fn yes_count(votes: Seq<bool>, k: nat) -> nat
    decreases k,
{
    if k == 0 {
        0
    } else {
        yes_count(votes, (k - 1) as nat) + if votes[k - 1] {
            1nat
        } else {
            0nat
        }
    }
}

/// The sum of the first `k` entries, as an integer.
pub open spec fn plain_sum(xs: Seq<nat>, k: nat) -> nat
    decreases k,
{
    if k == 0 {
        0
    } else {
        plain_sum(xs, (k - 1) as nat) + xs[k - 1]
    }
}

/// The sum in the field is congruent to the sum of the integers.
proof fn lemma_sum_mod(xs: Seq<nat>, k: nat)
    ensures
        cong(sum_mod(xs, k) as int, plain_sum(xs, k) as int),
        sum_mod(xs, k) < group_order(),
    decreases k,
{
    if k > 0 {
        let j = (k - 1) as nat;
        lemma_sum_mod(xs, j);
        lemma_field_ops(sum_mod(xs, j), xs[j as int]);
        lemma_cong_add(sum_mod(xs, j) as int, plain_sum(xs, j) as int, xs[j as int] as int, xs[j as int] as int);
    }
}

/// The encrypted votes add up to `G` times the sum of the secrets and the
/// number of yes votes.
proof fn lemma_votes_sum(g: nat, secrets: Seq<nat>, votes: Seq<bool>, k: nat)
    requires
        secrets.len() == votes.len(),
        k <= secrets.len(),
    ensures
        cong(
            sum_mod(encrypted_votes(g, secrets, votes), k) as int,
            (g * (plain_sum(secrets, k) + yes_count(votes, k))) as int,
        ),
    decreases k,
{
    if k == 0 {
        assert(g * (0nat + 0nat) == 0) by (nonlinear_arith);
    } else {
        let j = (k - 1) as nat;
        let us = encrypted_votes(g, secrets, votes);
        lemma_votes_sum(g, secrets, votes, j);
        let s = secrets[j as int];
        let v: nat = if votes[j as int] { 1 } else { 0 };
        assert(us[j as int] == mul_mod(g, add_mod(s, v)));
        lemma_field_ops(s, v);
        lemma_field_ops(g, add_mod(s, v));
        lemma_cong_mul(g as int, g as int, add_mod(s, v) as int, (s + v) as int);
        lemma_field_ops(sum_mod(us, j), us[j as int]);
        let a = (plain_sum(secrets, j) + yes_count(votes, j)) as int;
        lemma_cong_add(sum_mod(us, j) as int, g * a, us[j as int] as int, g * ((s + v) as int));
        assert(g * a + g * ((s + v) as int) == g * (a + s + v)) by (nonlinear_arith);
        assert(a + s + v == (plain_sum(secrets, k) + yes_count(votes, k)) as int);
    }
}

/// The tally is homomorphic: for ballots with the secrets `s_b` and the
/// votes `v_b`, the sum of the encrypted votes less `G` times the sum of
/// the secrets is `G` times the number of yes votes.
pub proof fn lemma_tally_homomorphic(g: nat, secrets: Seq<nat>, votes: Seq<bool>)
    requires
        secrets.len() == votes.len(),
    ensures
        sub_mod(
            sum_mod(encrypted_votes(g, secrets, votes), secrets.len()),
            mul_mod(g, sum_mod(secrets, secrets.len())),
        ) == mul_mod(g, yes_count(votes, votes.len())),
{
    let m = secrets.len();
    let us = encrypted_votes(g, secrets, votes);
    let total = sum_mod(us, m);
    let blinding = sum_mod(secrets, m);
    let masked = mul_mod(g, blinding);
    let count = yes_count(votes, m);
    lemma_votes_sum(g, secrets, votes, m);
    lemma_sum_mod(secrets, m);
    lemma_field_ops(g, blinding);
    lemma_field_ops(total, masked);
    lemma_field_ops(g, count);
    let ps = plain_sum(secrets, m) as int;
    lemma_cong_mul(g as int, g as int, blinding as int, ps);
    lemma_cong_sub(total as int, g * (ps + count), masked as int, g * ps);
    assert(g * (ps + count) == (g * (plain_sum(secrets, m) + count)) as int);
    assert(g * (ps + count) - g * ps == g * count) by (nonlinear_arith);
    lemma_cong_reduced(sub_mod(total, masked) as int, mul_mod(g, count) as int);
}

/// The search decodes the tally: where the generator `G` has an inverse, as
/// every element but the neutral one has, the only number below the group
/// order whose multiple of `G` is `count * G` is `count` itself, so that a
/// search that finds such a number has found the number of yes votes.
pub proof fn lemma_decoded_tally_is_count(g: nat, count: nat, found: nat)
    requires
        is_inverse(g, inv_mod(g)),
        count < group_order(),
        found < group_order(),
        mul_mod(g, found) == mul_mod(g, count),
    ensures
        found == count,
{
    lemma_cancel_factor(g, found, count);
}

/// Adding `G` to the `i`-th multiple of `G` gives the next multiple.
proof fn lemma_next_multiple(g: nat, i: nat)
    ensures
        add_mod(mul_mod(g, i), g) == mul_mod(g, i + 1),
{
    lemma_field_ops(g, i);
    lemma_field_ops(mul_mod(g, i), g);
    lemma_field_ops(g, i + 1);
    lemma_cong_add(mul_mod(g, i) as int, (g * i) as int, g as int, g as int);
    assert(g * i + g == g * (i + 1)) by (nonlinear_arith);
    lemma_cong_reduced(add_mod(mul_mod(g, i), g) as int, mul_mod(g, i + 1) as int);
}

/// Decodes a tally: the smallest number up to `bound` whose multiple of `G`
/// is the target, found by going through the multiples in order; `None` if
/// there is none.
pub fn decode_tally(g: &Point, target: &Point, bound: usize) -> (r: Option<usize>)
    ensures
        match r {
            Some(v) => {
                &&& v <= bound
                &&& mul_mod(g@, v as nat) == target@
                &&& forall|j: nat| j < v ==> mul_mod(g@, j) != target@
            },
            None => forall|j: nat| j <= bound ==> mul_mod(g@, j) != target@,
        },
{
    let mut multiple = Point::identity();
    let mut i: usize = 0;
    proof {
        lemma_field_ops(g@, 0);
        assert(g@ * 0 == 0) by (nonlinear_arith);
    }
    loop
        invariant
            i <= bound,
            multiple@ == mul_mod(g@, i as nat),
            forall|j: nat| j < i ==> mul_mod(g@, j) != target@,
        decreases bound - i,
    {
        if multiple.eq(target) {
            return Some(i);
        }
        if i == bound {
            return None;
        }
        proof {
            lemma_next_multiple(g@, i as nat);
        }
        multiple = multiple.add(g);
        i += 1;
    }
}

} // verus!
