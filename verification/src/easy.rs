//! The short, non-optimized cross-check variant: one bit per limb
//! (radix 2), built from binary digit strings, with the same addition
//! and multiplication shape as the optimized core.

use vstd::prelude::*;
use crate::arith::{power_of, lemma_power_of_pos};
use vstd::string::StrSliceExecFns;

verus! {

/// The bit at position `i`, reading positions past the end as zero.
pub open spec fn bit_at(s: Seq<u8>, i: int) -> u8 {
    if 0 <= i < s.len() {
        s[i]
    } else {
        0
    }
}

/// Value denoted by the first `n` bit positions of `s` (zero-extended):
/// the sum of `bit_at(s, i) * 2^i` over `0 <= i < n`.
pub open spec fn bits_prefix_val(s: Seq<u8>, n: int) -> int
    decreases n,
{
    if n <= 0 {
        0
    } else {
        bits_prefix_val(s, n - 1) + bit_at(s, n - 1) * power_of(2, (n - 1) as nat)
    }
}

/// The number a bit sequence denotes, least significant bit first.
pub open spec fn bits_val(s: Seq<u8>) -> int {
    bits_prefix_val(s, s.len() as int)
}

/// Every limb is a single bit.
pub open spec fn is_bits(s: Seq<u8>) -> bool {
    forall|i: int| 0 <= i < s.len() ==> (#[trigger] s[i]) <= 1
}

/// `c` is a binary digit character.
pub open spec fn is_binary_digit(c: char) -> bool {
    c == '0' || c == '1'
}

/// `bits_prefix_val` reads only the bits below `n`.
pub proof fn lemma_bits_prefix_val_agree(a: Seq<u8>, b: Seq<u8>, n: int)
    requires
        forall|i: int| 0 <= i < n ==> bit_at(a, i) == bit_at(b, i),
    ensures
        bits_prefix_val(a, n) == bits_prefix_val(b, n),
    decreases n,
{
    if n > 0 {
        lemma_bits_prefix_val_agree(a, b, n - 1);
    }
}

/// Positions at or past the end contribute nothing.
pub proof fn lemma_bits_prefix_val_beyond(s: Seq<u8>, n: int)
    requires
        n >= s.len(),
    ensures
        bits_prefix_val(s, n) == bits_val(s),
    decreases n,
{
    if n > s.len() {
        lemma_bits_prefix_val_beyond(s, n - 1);
        assert(bit_at(s, n - 1) == 0);
        assert(0 * power_of(2, (n - 1) as nat) == 0);
    }
}

pub proof fn lemma_bits_prefix_val_nonneg(s: Seq<u8>, n: int)
    ensures
        bits_prefix_val(s, n) >= 0,
    decreases n,
{
    if n > 0 {
        lemma_bits_prefix_val_nonneg(s, n - 1);
        lemma_power_of_pos(2, (n - 1) as nat);
        assert(bit_at(s, n - 1) * power_of(2, (n - 1) as nat) >= 0) by (nonlinear_arith)
            requires
                bit_at(s, n - 1) >= 0,
                power_of(2, (n - 1) as nat) > 0,
        ;
    }
}

/// `n` bit positions can only denote a number below `2^n`.
pub proof fn lemma_bits_prefix_val_bound(s: Seq<u8>, n: int)
    requires
        n >= 0,
        is_bits(s),
    ensures
        bits_prefix_val(s, n) < power_of(2, n as nat),
    decreases n,
{
    if n == 0 {
        assert(power_of(2, 0) == 1);
    } else {
        lemma_bits_prefix_val_bound(s, n - 1);
        let p = power_of(2, (n - 1) as nat);
        lemma_power_of_pos(2, (n - 1) as nat);
        assert(power_of(2, n as nat) == 2 * p);
        assert(bit_at(s, n - 1) * p <= p) by (nonlinear_arith)
            requires
                bit_at(s, n - 1) <= 1,
                p > 0,
        ;
    }
}

/// The length of the two operands' longer bit vector.
pub open spec fn bits_max_len(a: Seq<u8>, b: Seq<u8>) -> int {
    if a.len() >= b.len() {
        a.len() as int
    } else {
        b.len() as int
    }
}

/// Appending one bit adds its weighted value.
pub proof fn lemma_bits_prefix_val_snoc(s: Seq<u8>, x: u8)
    ensures
        bits_val(s.push(x)) == bits_val(s) + x * power_of(2, s.len()),
{
    let n = s.len() as int;
    assert(forall|i: int| 0 <= i < n ==> bit_at(s.push(x), i) == bit_at(s, i));
    lemma_bits_prefix_val_agree(s.push(x), s, n);
    assert(bit_at(s.push(x), n) == x);
}

/// Inserting a zero bit at the front doubles the denoted number.
pub proof fn lemma_bits_shift_one(t: Seq<u8>, s: Seq<u8>)
    requires
        t.len() == s.len() + 1,
        t[0] == 0,
        forall|i: int| 1 <= i < t.len() ==> (#[trigger] t[i]) == s[i - 1],
    ensures
        bits_val(t) == 2 * bits_val(s),
{
    lemma_bits_shift_one_prefix(t, s, s.len() as int);
}

proof fn lemma_bits_shift_one_prefix(t: Seq<u8>, s: Seq<u8>, n: int)
    requires
        0 <= n <= s.len(),
        t.len() == s.len() + 1,
        t[0] == 0,
        forall|i: int| 1 <= i < t.len() ==> (#[trigger] t[i]) == s[i - 1],
    ensures
        bits_prefix_val(t, n + 1) == 2 * bits_prefix_val(s, n),
    decreases n,
{
    if n == 0 {
        assert(bit_at(t, 0) == 0);
        assert(0 * power_of(2, 0) == 0);
        assert(bits_prefix_val(t, 0) == 0);
        assert(bits_prefix_val(t, 1) == bits_prefix_val(t, 0) + bit_at(t, 0) * power_of(2, 0));
        assert(bits_prefix_val(s, 0) == 0);
    } else {
        lemma_bits_shift_one_prefix(t, s, n - 1);
        assert(bits_prefix_val(t, n) == 2 * bits_prefix_val(s, n - 1));
        assert(t[n] == s[n - 1]);
        assert(bit_at(t, n) == bit_at(s, n - 1));
        let p = power_of(2, (n - 1) as nat);
        let x = bit_at(s, n - 1) as int;
        assert(power_of(2, n as nat) == 2 * p);
        assert(bits_prefix_val(t, n + 1) == bits_prefix_val(t, n) + x * power_of(2, n as nat));
        assert(bits_prefix_val(s, n) == bits_prefix_val(s, n - 1) + x * p);
        assert(2 * bits_prefix_val(s, n - 1) + x * (2 * p) == 2 * (bits_prefix_val(s, n - 1) + x
            * p)) by (nonlinear_arith);
    }
}

/// An arbitrary-precision unsigned integer with one bit per limb, least
/// significant bit first.
#[derive(Debug)]
pub struct BigInt {
    pub data: Vec<u8>,
}

impl View for BigInt {
    type V = Seq<u8>;

    open spec fn view(&self) -> Seq<u8> {
        self.data@
    }
}

impl BigInt {
    /// The value zero, as the empty bit sequence.
    pub fn zero() -> (r: BigInt)
        ensures
            r@.len() == 0,
            bits_val(r@) == 0,
    {
        BigInt { data: Vec::new() }
    }

    /// Decode a binary digit string directly, one bit per character in
    /// order: character `i` becomes the bit at position `i`.
    pub fn from_binary_string(s: &str) -> (r: BigInt)
        requires
            forall|i: int| 0 <= i < s@.len() ==> is_binary_digit(#[trigger] s@[i]),
        ensures
            r@.len() == s@.len(),
            forall|i: int|
                0 <= i < s@.len() ==> r@[i] == (if s@[i] == '1' {
                    1u8
                } else {
                    0u8
                }),
            is_bits(r@),
    {
        let n = s.unicode_len();
        let mut data: Vec<u8> = Vec::new();
        let mut i: usize = 0;
        while i < n
            invariant
                n == s@.len(),
                i <= n,
                data@.len() == i,
                forall|j: int| 0 <= j < s@.len() ==> is_binary_digit(#[trigger] s@[j]),
                forall|j: int|
                    0 <= j < i ==> data@[j] == (if s@[j] == '1' {
                        1u8
                    } else {
                        0u8
                    }),
            decreases n - i,
        {
            let c = s.get_char(i);
            let u = c as u32;
            proof {
                assert(c == '0' || c == '1');
                assert('0' as u32 == 48 && '1' as u32 == 49);
            }
            data.push((u - 48) as u8);
            i += 1;
        }
        BigInt { data }
    }

    /// Double the value by inserting a zero bit at the least significant
    /// position.
    fn times_two(&mut self)
        requires
            is_bits(old(self)@),
        ensures
            final(self)@ == old(self)@.insert(0, 0u8),
            is_bits(final(self)@),
            bits_val(final(self)@) == 2 * bits_val(old(self)@),
    {
        let ghost pre = self@;
        self.data.insert(0, 0);
        proof {
            assert(forall|i: int| 1 <= i < self@.len() ==> (#[trigger] self@[i]) == pre[i - 1]);
            lemma_bits_shift_one(self@, pre);
        }
    }

    /// The bit at position `i`, with positions past the end read as zero.
    fn get(&self, i: usize) -> (r: u8)
        ensures
            r == bit_at(self@, i as int),
    {
        if i < self.data.len() {
            self.data[i]
        } else {
            0
        }
    }
}

impl PartialEq for BigInt {
    /// Structural equality of the bit vectors.
    fn eq(&self, other: &Self) -> (r: bool) {
        if self.data.len() != other.data.len() {
            return false;
        }
        let mut i: usize = 0;
        while i < self.data.len()
            invariant
                self@.len() == other@.len(),
                i <= self@.len(),
                forall|j: int| 0 <= j < i ==> self@[j] == other@[j],
            decreases self@.len() - i,
        {
            if self.data[i] != other.data[i] {
                return false;
            }
            i += 1;
        }
        proof {
            assert(self@ =~= other@);
        }
        true
    }
}

impl vstd::std_specs::cmp::PartialEqSpecImpl for BigInt {
    open spec fn obeys_eq_spec() -> bool {
        true
    }

    open spec fn eq_spec(&self, other: &Self) -> bool {
        self@ == other@
    }
}

/// Bit-wise addition with carry: at each position the two bits and the
/// incoming carry produce one output bit and the next carry.
pub fn sum(b1: &BigInt, b2: &BigInt) -> (r: BigInt)
    requires
        is_bits(b1@),
        is_bits(b2@),
    ensures
        is_bits(r@),
        bits_val(r@) == bits_val(b1@) + bits_val(b2@),
        r@.len() == (if bits_val(b1@) + bits_val(b2@) >= power_of(2, bits_max_len(b1@, b2@) as nat) {
            bits_max_len(b1@, b2@) + 1
        } else {
            bits_max_len(b1@, b2@)
        }),
{
    let mut result = BigInt::zero();
    let l1 = b1.data.len();
    let l2 = b2.data.len();
    let largest = if l1 >= l2 {
        l1
    } else {
        l2
    };
    let mut carry: u8 = 0;
    let mut i: usize = 0;
    while i < largest
        invariant
            is_bits(b1@),
            is_bits(b2@),
            largest >= b1@.len(),
            largest >= b2@.len(),
            i <= largest,
            carry <= 1,
            result@.len() == i,
            is_bits(result@),
            bits_prefix_val(result@, i as int) + carry * power_of(2, i as nat) == bits_prefix_val(
                b1@,
                i as int,
            ) + bits_prefix_val(b2@, i as int),
        decreases largest - i,
    {
        let x = b1.get(i);
        let y = b2.get(i);
        let ghost pre = result@;
        let ghost carry_in = carry as int;
        let bit: u8;
        if x == 0 && y == 0 {
            bit = carry;
            carry = 0;
        } else if x == 1 && y == 1 {
            bit = carry;
            carry = 1;
        } else {
            bit = (1 + carry) % 2;
        }
        result.data.push(bit);
        proof {
            let p = power_of(2, i as nat);
            lemma_bits_prefix_val_snoc(pre, bit);
            lemma_bits_prefix_val_beyond(pre, i as int);
            lemma_bits_prefix_val_beyond(pre.push(bit), i + 1);
            assert(bit + (carry as int) * 2 == bit_at(b1@, i as int) + bit_at(
                b2@,
                i as int,
            ) + carry_in);
            assert(power_of(2, (i + 1) as nat) == 2 * p);
            assert((bits_prefix_val(pre, i as int) + bit * p) + (carry as int) * (2 * p)
                == bits_prefix_val(pre, i as int) + (bit + (carry as int) * 2) * p)
                by (nonlinear_arith);
            assert((bit + (carry as int) * 2) * p == bit_at(b1@, i as int) * p + bit_at(
                b2@,
                i as int,
            ) * p + carry_in * p) by (nonlinear_arith)
                requires
                    bit + (carry as int) * 2 == bit_at(b1@, i as int) + bit_at(
                        b2@,
                        i as int,
                    ) + carry_in,
            ;
        }
        i += 1;
    }
    proof {
        lemma_bits_prefix_val_beyond(b1@, largest as int);
        lemma_bits_prefix_val_beyond(b2@, largest as int);
        lemma_bits_prefix_val_bound(result@, largest as int);
        lemma_bits_prefix_val_nonneg(result@, largest as int);
        lemma_bits_prefix_val_beyond(result@, largest as int);
        assert(1 * power_of(2, largest as nat) == power_of(2, largest as nat));
    }
    if carry == 1 {
        let ghost pre = result@;
        result.data.push(1);
        proof {
            lemma_bits_prefix_val_snoc(pre, 1);
            lemma_bits_prefix_val_beyond(pre, largest as int);
        }
    }
    result
}

/// Shift-and-add multiplication: walk the bits of `b2`, adding the
/// running double of `b1` wherever the bit is set.
pub fn product(b1: &BigInt, b2: &BigInt) -> (r: BigInt)
    requires
        is_bits(b1@),
        is_bits(b2@),
    ensures
        is_bits(r@),
        bits_val(r@) == bits_val(b1@) * bits_val(b2@),
{
    let mut result = BigInt::zero();
    let mut temp_data: Vec<u8> = Vec::new();
    let mut j: usize = 0;
    while j < b1.data.len()
        invariant
            is_bits(b1@),
            j <= b1@.len(),
            temp_data@ == b1@.take(j as int),
        decreases b1@.len() - j,
    {
        temp_data.push(b1.data[j]);
        proof {
            assert(temp_data@ =~= b1@.take(j + 1));
        }
        j += 1;
    }
    proof {
        assert(temp_data@ =~= b1@);
    }
    let mut temp = BigInt { data: temp_data };
    let n = b2.data.len();
    let mut i: usize = 0;
    while i < n
        invariant
            is_bits(b1@),
            is_bits(b2@),
            i <= n == b2@.len(),
            is_bits(temp@),
            is_bits(result@),
            bits_val(temp@) == bits_val(b1@) * power_of(2, i as nat),
            bits_val(result@) == bits_val(b1@) * bits_prefix_val(b2@, i as int),
        decreases n - i,
    {
        let digit = b2.data[i];
        let ghost p = power_of(2, i as nat);
        if digit == 1 {
            let prev = result;
            result = sum(&prev, &temp);
            proof {
                assert(bits_val(b1@) * bits_prefix_val(b2@, i as int) + bits_val(b1@) * p
                    == bits_val(b1@) * (bits_prefix_val(b2@, i as int) + 1 * p))
                    by (nonlinear_arith);
            }
        } else {
            proof {
                assert(bit_at(b2@, i as int) == 0);
                assert(0 * p == 0);
            }
        }
        temp.times_two();
        proof {
            assert(power_of(2, (i + 1) as nat) == 2 * p);
            assert(2 * (bits_val(b1@) * p) == bits_val(b1@) * (2 * p)) by (nonlinear_arith);
        }
        i += 1;
    }
    proof {
        lemma_bits_prefix_val_beyond(b2@, n as int);
    }
    result
}

} // verus!
