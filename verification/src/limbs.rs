//! The mathematical model of a limb sequence: the number that a sequence
//! of base-2^32 digits (least significant first) denotes, and the lemmas
//! that connect that value to limb-wise views of the sequence.

use vstd::prelude::*;
use crate::arith::{power_of, lemma_power_of_pos, lemma_power_of_adds};

verus! {

/// Radix of the limb representation: every limb is one base-2^32 digit.
pub const BASE: u64 = 0x1_0000_0000;

/// The limb at position `i`, reading positions past the end as zero.
pub open spec fn limb_at(s: Seq<u32>, i: int) -> u32 {
    if 0 <= i < s.len() {
        s[i]
    } else {
        0
    }
}

/// Value denoted by the first `n` limb positions of `s` (zero-extended):
/// the sum of `limb_at(s, i) * 2^(32*i)` over `0 <= i < n`.
pub open spec fn prefix_val(s: Seq<u32>, n: int) -> int
    decreases n,
{
    if n <= 0 {
        0
    } else {
        prefix_val(s, n - 1) + limb_at(s, n - 1) * power_of(BASE as int, (n - 1) as nat)
    }
}

/// The number a limb sequence denotes.
pub open spec fn val(s: Seq<u32>) -> int {
    prefix_val(s, s.len() as int)
}

/// Two limb sequences denote the same number.  This is what `==` on
/// `BigInt` means; it ignores trailing zero limbs.
pub open spec fn same_value(a: Seq<u32>, b: Seq<u32>) -> bool {
    val(a) == val(b)
}

/// The longer of the two sequences' lengths.
pub open spec fn max_len(a: Seq<u32>, b: Seq<u32>) -> int {
    if a.len() >= b.len() {
        a.len() as int
    } else {
        b.len() as int
    }
}

pub proof fn lemma_prefix_val_nonneg(s: Seq<u32>, n: int)
    ensures
        prefix_val(s, n) >= 0,
    decreases n,
{
    if n > 0 {
        lemma_prefix_val_nonneg(s, n - 1);
        lemma_power_of_pos(BASE as int, (n - 1) as nat);
        assert(limb_at(s, n - 1) * power_of(BASE as int, (n - 1) as nat) >= 0) by (nonlinear_arith)
            requires
                limb_at(s, n - 1) >= 0,
                power_of(BASE as int, (n - 1) as nat) > 0,
        ;
    }
}

/// `prefix_val` reads only the limbs below `n`.
pub proof fn lemma_prefix_val_agree(a: Seq<u32>, b: Seq<u32>, n: int)
    requires
        forall|i: int| 0 <= i < n ==> limb_at(a, i) == limb_at(b, i),
    ensures
        prefix_val(a, n) == prefix_val(b, n),
    decreases n,
{
    if n > 0 {
        lemma_prefix_val_agree(a, b, n - 1);
    }
}

/// Positions at or past the end contribute nothing: reading more than
/// `s.len()` positions still yields `val(s)`.
pub proof fn lemma_prefix_val_beyond(s: Seq<u32>, n: int)
    requires
        n >= s.len(),
    ensures
        prefix_val(s, n) == val(s),
    decreases n,
{
    if n > s.len() {
        lemma_prefix_val_beyond(s, n - 1);
        assert(limb_at(s, n - 1) == 0);
        assert(0 * power_of(BASE as int, (n - 1) as nat) == 0);
    }
}

/// `n` limb positions can only denote a number below `2^(32*n)`.
pub proof fn lemma_prefix_val_bound(s: Seq<u32>, n: int)
    requires
        n >= 0,
    ensures
        prefix_val(s, n) < power_of(BASE as int, n as nat),
    decreases n,
{
    if n == 0 {
        assert(power_of(BASE as int, 0) == 1);
    } else {
        lemma_prefix_val_bound(s, n - 1);
        let p = power_of(BASE as int, (n - 1) as nat);
        lemma_power_of_pos(BASE as int, (n - 1) as nat);
        assert(power_of(BASE as int, n as nat) == (BASE as int) * p);
        assert(limb_at(s, n - 1) * p <= (BASE as int - 1) * p) by (nonlinear_arith)
            requires
                limb_at(s, n - 1) <= BASE as int - 1,
                p > 0,
        ;
        assert(prefix_val(s, n - 1) + (BASE as int - 1) * p < (BASE as int) * p) by (nonlinear_arith)
            requires
                prefix_val(s, n - 1) < p,
                p > 0,
        ;
    }
}

/// A number below `2^(32*n)` has exactly one `n`-position limb expansion:
/// equal prefix values force equal limbs.
pub proof fn lemma_prefix_val_unique(a: Seq<u32>, b: Seq<u32>, n: int)
    requires
        n >= 0,
        prefix_val(a, n) == prefix_val(b, n),
    ensures
        forall|i: int| 0 <= i < n ==> limb_at(a, i) == limb_at(b, i),
    decreases n,
{
    if n > 0 {
        let p = power_of(BASE as int, (n - 1) as nat);
        let la = limb_at(a, n - 1) as int;
        let lb = limb_at(b, n - 1) as int;
        lemma_prefix_val_bound(a, n - 1);
        lemma_prefix_val_bound(b, n - 1);
        lemma_prefix_val_nonneg(a, n - 1);
        lemma_prefix_val_nonneg(b, n - 1);
        lemma_power_of_pos(BASE as int, (n - 1) as nat);
        assert(la == lb) by (nonlinear_arith)
            requires
                prefix_val(a, n - 1) + la * p == prefix_val(b, n - 1) + lb * p,
                0 <= prefix_val(a, n - 1) < p,
                0 <= prefix_val(b, n - 1) < p,
                p > 0,
        ;
        lemma_prefix_val_unique(a, b, n - 1);
    }
}

/// The two sides of value equality: two sequences denote the same number
/// exactly when they agree limb-wise once zero-extended to a common length.
pub proof fn lemma_same_value_iff_pointwise(a: Seq<u32>, b: Seq<u32>, n: int)
    requires
        n >= a.len(),
        n >= b.len(),
    ensures
        same_value(a, b) <==> (forall|i: int| 0 <= i < n ==> limb_at(a, i) == limb_at(b, i)),
{
    lemma_prefix_val_beyond(a, n);
    lemma_prefix_val_beyond(b, n);
    if same_value(a, b) {
        lemma_prefix_val_unique(a, b, n);
    }
    if forall|i: int| 0 <= i < n ==> limb_at(a, i) == limb_at(b, i) {
        lemma_prefix_val_agree(a, b, n);
    }
}

/// Appending one limb adds its weighted value.
pub proof fn lemma_prefix_val_snoc(s: Seq<u32>, x: u32)
    ensures
        val(s.push(x)) == val(s) + x * power_of(BASE as int, s.len()),
{
    let n = s.len() as int;
    assert(forall|i: int| 0 <= i < n ==> limb_at(s.push(x), i) == limb_at(s, i));
    lemma_prefix_val_agree(s.push(x), s, n);
    assert(limb_at(s.push(x), n) == x);
}

/// A sequence of zero limbs denotes zero.
pub proof fn lemma_prefix_val_all_zero(s: Seq<u32>, n: int)
    requires
        forall|i: int| 0 <= i < n ==> limb_at(s, i) == 0,
    ensures
        prefix_val(s, n) == 0,
    decreases n,
{
    if n > 0 {
        lemma_prefix_val_all_zero(s, n - 1);
    }
}

/// Extending a sequence with trailing zero limbs does not change the
/// number it denotes.
pub proof fn lemma_trailing_zeros_same_value(s: Seq<u32>, t: Seq<u32>)
    requires
        t.len() >= s.len(),
        forall|i: int| 0 <= i < s.len() ==> t[i] == s[i],
        forall|i: int| s.len() <= i < t.len() ==> t[i] == 0,
    ensures
        same_value(s, t),
{
    assert(forall|i: int| 0 <= i < t.len() ==> limb_at(t, i) == limb_at(s, i));
    lemma_prefix_val_agree(t, s, t.len() as int);
    lemma_prefix_val_beyond(s, t.len() as int);
}

/// Prepending `k` zero limbs multiplies the denoted number by `2^(32*k)`:
/// `t` is `s` shifted up by `k` limb positions.
pub proof fn lemma_shifted_val(t: Seq<u32>, s: Seq<u32>, k: int)
    requires
        0 <= k,
        t.len() == k + s.len(),
        forall|i: int| 0 <= i < k ==> t[i] == 0,
        forall|i: int| 0 <= i < s.len() ==> t[k + i] == s[i],
    ensures
        val(t) == power_of(BASE as int, k as nat) * val(s),
{
    lemma_shifted_prefix_val(t, s, k, s.len() as int);
}

proof fn lemma_shifted_prefix_val(t: Seq<u32>, s: Seq<u32>, k: int, n: int)
    requires
        0 <= k,
        0 <= n <= s.len(),
        t.len() == k + s.len(),
        forall|i: int| 0 <= i < k ==> t[i] == 0,
        forall|i: int| 0 <= i < s.len() ==> t[k + i] == s[i],
    ensures
        prefix_val(t, k + n) == power_of(BASE as int, k as nat) * prefix_val(s, n),
    decreases n,
{
    let base = BASE as int;
    let pk = power_of(base, k as nat);
    if n == 0 {
        lemma_prefix_val_all_zero(t, k);
    } else {
        lemma_shifted_prefix_val(t, s, k, n - 1);
        let pn = power_of(base, (n - 1) as nat);
        lemma_power_of_adds(base, k as nat, (n - 1) as nat);
        assert(power_of(base, (k + n - 1) as nat) == pk * pn);
        assert(limb_at(t, k + n - 1) == limb_at(s, n - 1));
        let x = limb_at(s, n - 1) as int;
        assert(pk * prefix_val(s, n - 1) + x * (pk * pn) == pk * (prefix_val(s, n - 1) + x * pn))
            by (nonlinear_arith);
    }
}

} // verus!
