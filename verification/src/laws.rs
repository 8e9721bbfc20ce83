//! Algebraic laws of the limb arithmetic, stated against the contracts
//! of `sum`, `product`, `zero` and `from_string`: any results meeting
//! those contracts satisfy the laws below under value equality (`==` on
//! `BigInt`).

use vstd::prelude::*;
use crate::limbs::{val, same_value, lemma_trailing_zeros_same_value};
use crate::decimal::dec_val;

verus! {

/// Appending or removing trailing zero limbs never changes which number
/// a `BigInt` denotes: `[342, 0, 0]` equals `[342]`.
pub proof fn lemma_trailing_zero_invariance(s: Seq<u32>, t: Seq<u32>)
    requires
        t.len() >= s.len(),
        forall|i: int| 0 <= i < s.len() ==> t[i] == s[i],
        forall|i: int| s.len() <= i < t.len() ==> t[i] == 0,
    ensures
        same_value(s, t),
{
    lemma_trailing_zeros_same_value(s, t);
}

/// Addition is commutative: the results of summing `a` with `b` and `b`
/// with `a` are equal `BigInt`s.
pub proof fn lemma_sum_commutative(a: Seq<u32>, b: Seq<u32>, r1: Seq<u32>, r2: Seq<u32>)
    requires
        val(r1) == val(a) + val(b),
        val(r2) == val(b) + val(a),
    ensures
        same_value(r1, r2),
{
}

/// Multiplication is commutative: the results of multiplying `a` by `b`
/// and `b` by `a` are equal `BigInt`s.
pub proof fn lemma_product_commutative(a: Seq<u32>, b: Seq<u32>, r1: Seq<u32>, r2: Seq<u32>)
    requires
        val(r1) == val(a) * val(b),
        val(r2) == val(b) * val(a),
    ensures
        same_value(r1, r2),
{
    assert(val(a) * val(b) == val(b) * val(a)) by (nonlinear_arith);
}

/// Addition is associative: summing `a + b` with `c` equals summing `a`
/// with `b + c`.
pub proof fn lemma_sum_associative(
    a: Seq<u32>,
    b: Seq<u32>,
    c: Seq<u32>,
    ab: Seq<u32>,
    bc: Seq<u32>,
    ab_c: Seq<u32>,
    a_bc: Seq<u32>,
)
    requires
        val(ab) == val(a) + val(b),
        val(bc) == val(b) + val(c),
        val(ab_c) == val(ab) + val(c),
        val(a_bc) == val(a) + val(bc),
    ensures
        same_value(ab_c, a_bc),
{
}

/// Zero is the identity of addition: `sum(a, zero())` equals `a`.
pub proof fn lemma_sum_zero_identity(a: Seq<u32>, z: Seq<u32>, r: Seq<u32>)
    requires
        val(z) == 0,
        val(r) == val(a) + val(z),
    ensures
        same_value(r, a),
{
}

/// Zero annihilates multiplication: `product(a, zero())` equals `zero()`.
pub proof fn lemma_product_zero(a: Seq<u32>, z: Seq<u32>, r: Seq<u32>)
    requires
        val(z) == 0,
        val(r) == val(a) * val(z),
    ensures
        val(r) == 0,
        same_value(r, z),
{
    assert(val(a) * 0 == 0) by (nonlinear_arith);
}

/// One is the identity of multiplication: `product(a, from_string("1"))`
/// equals `a`.
pub proof fn lemma_product_one_identity(a: Seq<u32>, one: Seq<u32>, r: Seq<u32>)
    requires
        val(one) == 1,
        val(r) == val(a) * val(one),
    ensures
        same_value(r, a),
{
    assert(val(a) * 1 == val(a)) by (nonlinear_arith);
}

/// Doubling: `product(from_string("2"), a)` equals `sum(a, a)`.
pub proof fn lemma_double_is_sum_with_self(a: Seq<u32>, two: Seq<u32>, p: Seq<u32>, s: Seq<u32>)
    requires
        val(two) == 2,
        val(p) == val(two) * val(a),
        val(s) == val(a) + val(a),
    ensures
        same_value(p, s),
{
    assert(2 * val(a) == val(a) + val(a)) by (nonlinear_arith);
}

/// The one-character string "1" denotes one; with the contract of
/// `from_string`, this discharges the hypothesis of
/// `lemma_product_one_identity`.
pub proof fn lemma_dec_val_one()
    ensures
        dec_val("1"@) == 1,
{
    reveal_strlit("1");
    assert("1"@.drop_last() =~= Seq::<char>::empty());
    assert(dec_val(Seq::<char>::empty()) == 0);
    assert('1' as u32 == 49);
}

/// The one-character string "2" denotes two; with the contract of
/// `from_string`, this discharges the hypothesis of
/// `lemma_double_is_sum_with_self`.
pub proof fn lemma_dec_val_two()
    ensures
        dec_val("2"@) == 2,
{
    reveal_strlit("2");
    assert("2"@.drop_last() =~= Seq::<char>::empty());
    assert(dec_val(Seq::<char>::empty()) == 0);
    assert('2' as u32 == 50);
}

/// The empty string denotes zero: `from_string("")` equals `zero()`.
pub proof fn lemma_dec_val_empty()
    ensures
        dec_val(Seq::<char>::empty()) == 0,
{
}

} // verus!
