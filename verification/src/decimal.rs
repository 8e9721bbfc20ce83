//! The mathematical model of decimal digit strings: which characters are
//! digits, and the number a digit string denotes.

use vstd::prelude::*;
use crate::arith::power_of;

verus! {

/// `c` is an ASCII decimal digit (`'0'` is code 48, `'9'` is code 57).
pub open spec fn is_digit(c: char) -> bool {
    48 <= (c as u32) && (c as u32) <= 57
}

/// Numeric value of a digit character.
pub open spec fn digit_val(c: char) -> int {
    c as u32 - 48
}

/// Every character of `s` is a decimal digit.
pub open spec fn all_digits(s: Seq<char>) -> bool {
    forall|i: int| 0 <= i < s.len() ==> is_digit(#[trigger] s[i])
}

/// The number a digit string denotes, most significant digit first.
/// The empty string denotes zero.
pub open spec fn dec_val(s: Seq<char>) -> int
    decreases s.len(),
{
    if s.len() == 0 {
        0
    } else {
        dec_val(s.drop_last()) * 10 + digit_val(s.last())
    }
}

/// Concatenation shifts the left part by one decimal place per digit of
/// the right part.
pub proof fn lemma_dec_val_concat(a: Seq<char>, b: Seq<char>)
    ensures
        dec_val(a + b) == dec_val(a) * power_of(10, b.len()) + dec_val(b),
    decreases b.len(),
{
    if b.len() == 0 {
        assert(a + b =~= a);
        assert(dec_val(a) * 1 == dec_val(a));
    } else {
        let b0 = b.drop_last();
        lemma_dec_val_concat(a, b0);
        assert((a + b).drop_last() =~= a + b0);
        assert((a + b).last() == b.last());
        let pb0 = power_of(10, b0.len());
        assert((dec_val(a) * pb0 + dec_val(b0)) * 10 == dec_val(a) * (10 * pb0) + dec_val(b0) * 10)
            by (nonlinear_arith);
        assert(power_of(10, b.len()) == 10 * pb0);
    }
}

/// A digit string of length `n` denotes a number in `[0, 10^n)`.
pub proof fn lemma_dec_val_bound(s: Seq<char>)
    requires
        all_digits(s),
    ensures
        0 <= dec_val(s) < power_of(10, s.len()),
    decreases s.len(),
{
    if s.len() > 0 {
        let s0 = s.drop_last();
        assert forall|i: int| 0 <= i < s0.len() implies is_digit(#[trigger] s0[i]) by {
            assert(s0[i] == s[i]);
        }
        lemma_dec_val_bound(s0);
        let p0 = power_of(10, s0.len());
        assert(power_of(10, s.len()) == 10 * p0);
        assert(is_digit(s.last()));
        assert(dec_val(s0) * 10 + digit_val(s.last()) < 10 * p0) by (nonlinear_arith)
            requires
                0 <= dec_val(s0) < p0,
                0 <= digit_val(s.last()) <= 9,
        ;
        assert(dec_val(s0) * 10 >= 0) by (nonlinear_arith)
            requires
                dec_val(s0) >= 0,
        ;
    }
}

} // verus!
