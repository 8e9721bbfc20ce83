//! Arbitrary-precision unsigned integers in radix 2^32: construction from
//! decimal text by chunked long division, value equality, carry-propagating
//! addition, and schoolbook multiplication.

use vstd::prelude::*;
use crate::limbs::{BASE, limb_at, prefix_val, val, same_value, max_len};
use crate::limbs::{
    lemma_prefix_val_beyond, lemma_same_value_iff_pointwise, lemma_prefix_val_snoc,
    lemma_shifted_val, lemma_prefix_val_bound, lemma_prefix_val_nonneg,
};
use crate::arith::{power_of, lemma_power_of_increases};
use crate::decimal::{is_digit, all_digits, dec_val, lemma_dec_val_concat};
use crate::chunks::{
    n_chunks, chunk_width, chunks_prefix_val, chunks_in_range, lemma_chunks_prefix_val_agree,
    lemma_chunks_prefix_val_nonneg, lemma_chunks_prefix_val_zero, lemma_chunks_all_zero,
};
use vstd::string::StrSliceExecFns;

verus! {

/// An arbitrary-precision unsigned integer.
///
/// `data` holds base-2^32 limbs, least significant first.  The value is
/// the sum of `data[i] * 2^(32*i)`.  Trailing zero limbs are allowed and
/// never observable through `==`: `[342]` and `[342, 0, 0]` are equal.
#[derive(Debug)]
pub struct BigInt {
    pub data: Vec<u32>,
}

impl View for BigInt {
    type V = Seq<u32>;

    open spec fn view(&self) -> Seq<u32> {
        self.data@
    }
}

impl BigInt {
    /// The value zero, as the empty limb sequence.
    pub fn zero() -> (r: BigInt)
        ensures
            r@.len() == 0,
            val(r@) == 0,
    {
        BigInt { data: Vec::new() }
    }

    /// The limb at position `i`, with positions past the end read as zero.
    fn get(&self, i: usize) -> (r: u32)
        ensures
            r == limb_at(self@, i as int),
    {
        if i < self.data.len() {
            self.data[i]
        } else {
            0
        }
    }
}

/// 10^w for widths up to one full parse chunk.
fn pow10(w: usize) -> (r: u64)
    requires
        w <= 8,
    ensures
        r == power_of(10, w as nat),
        r <= 100000000,
{
    proof {
        reveal_with_fuel(power_of, 9);
    }
    if w == 0 {
        1
    } else if w == 1 {
        10
    } else if w == 2 {
        100
    } else if w == 3 {
        1000
    } else if w == 4 {
        10000
    } else if w == 5 {
        100000
    } else if w == 6 {
        1000000
    } else if w == 7 {
        10000000
    } else {
        100000000
    }
}

impl BigInt {
    /// Helper for `from_string`: combine the incoming carry with a
    /// chunk's current value, the carry shifted by the chunk's *original*
    /// digit width — as if written as a decimal prefix of the chunk,
    /// left-padded with zeros to that width.  Padding to the current
    /// (shrinking) width instead would misalign place value.
    fn apply_carry(u: u64, carry: u64, original_size: usize) -> (r: u64)
        requires
            original_size <= 8,
            carry < BASE,
            u < power_of(10, original_size as nat),
        ensures
            r == carry * power_of(10, original_size as nat) + u,
    {
        let p = pow10(original_size);
        proof {
            assert((carry as int) * (p as int) <= (BASE as int - 1) * 100000000)
                by (nonlinear_arith)
                requires
                    0 <= carry as int <= BASE as int - 1,
                    0 <= p as int <= 100000000,
            ;
        }
        carry * p + u
    }

    /// Helper for `from_string`: whether every chunk has been divided
    /// down to zero.
    fn all_zero(v: &Vec<u64>) -> (r: bool)
        ensures
            r == (forall|j: int| 0 <= j < v@.len() ==> v@[j] == 0),
    {
        let mut i: usize = 0;
        while i < v.len()
            invariant
                i <= v@.len(),
                forall|j: int| 0 <= j < i ==> v@[j] == 0,
            decreases v@.len() - i,
        {
            if v[i] > 0 {
                assert(v@[i as int] != 0);
                return false;
            }
            i += 1;
        }
        true
    }
}

/// Split a decimal string into 8-digit chunks, decoding each chunk to
/// its numeric value; the final chunk may be shorter.  Fails on the
/// first character that is not a decimal digit.
fn split_string(s: &str) -> (r: Option<Vec<u64>>)
    ensures
        match r {
            Some(c) => {
                &&& all_digits(s@)
                &&& c@.len() == n_chunks(s@.len() as int)
                &&& chunks_in_range(c@, s@.len() as int)
                &&& chunks_prefix_val(c@, s@.len() as int, c@.len() as int) == dec_val(s@)
            },
            None => !all_digits(s@),
        },
{
    let n = s.unicode_len();
    let ghost len = n as int;
    let mut result: Vec<u64> = Vec::new();
    let mut i: usize = 0;
    while i < n
        invariant
            n == s@.len(),
            len == n as int,
            i <= n,
            i < n ==> i == 8 * result@.len(),
            result@.len() == n_chunks(i as int),
            chunks_in_range(result@, len),
            all_digits(s@.take(i as int)),
            chunks_prefix_val(result@, len, result@.len() as int) == dec_val(s@.take(i as int)),
        decreases n - i,
    {
        let ghost m = result@.len() as int;
        let w = if n - i >= 8 {
            8
        } else {
            n - i
        };
        proof {
            assert(w as int == chunk_width(len, m));
        }
        let mut v: u64 = 0;
        let mut j: usize = 0;
        while j < w
            invariant
                n == s@.len(),
                len == n as int,
                j <= w,
                i + w <= n,
                w <= 8,
                forall|jj: int| i as int <= jj < i + j ==> is_digit(#[trigger] s@[jj]),
                v == dec_val(s@.subrange(i as int, i + j)),
                v < power_of(10, j as nat),
            decreases w - j,
        {
            let c = s.get_char(i + j);
            let u = c as u32;
            if u < 48 || u > 57 {
                proof {
                    assert(!is_digit(s@[i + j]));
                }
                return None;
            }
            proof {
                reveal_with_fuel(power_of, 9);
                lemma_power_of_increases(10, j as nat, 7);
                let old_part = s@.subrange(i as int, i + j);
                let new_part = s@.subrange(i as int, i + j + 1);
                assert(new_part.drop_last() =~= old_part);
                assert(new_part.last() == s@[i + j]);
                assert(v * 10 + (u - 48) < 10 * power_of(10, j as nat)) by (nonlinear_arith)
                    requires
                        0 <= v < power_of(10, j as nat),
                        u - 48 <= 9,
                ;
                assert(power_of(10, (j + 1) as nat) == 10 * power_of(10, j as nat));
            }
            v = v * 10 + (u - 48) as u64;
            j += 1;
        }
        let ghost pre = result@;
        result.push(v);
        proof {
            let newc = result@;
            assert(newc[m] == v);
            lemma_chunks_prefix_val_agree(newc, pre, len, m);
            assert(chunks_prefix_val(newc, len, m + 1) == chunks_prefix_val(pre, len, m)
                * power_of(10, chunk_width(len, m) as nat) + v);
            let head = s@.take(i as int);
            let part = s@.subrange(i as int, i + w);
            assert(s@.take(i + w) =~= head + part);
            lemma_dec_val_concat(head, part);
            assert forall|jj: int| 0 <= jj < i + w implies is_digit(#[trigger] s@.take(i + w)[jj])
                by {
                if jj < i as int {
                    assert(s@.take(i as int)[jj] == s@[jj]);
                }
            }
            assert(all_digits(s@.take(i + w)));
            assert forall|jj: int| 0 <= jj < newc.len() implies (#[trigger] newc[jj]) < power_of(
                10,
                chunk_width(len, jj) as nat,
            ) by {
                if jj < m {
                    assert(newc[jj] == pre[jj]);
                }
            }
        }
        i += w;
    }
    proof {
        assert(s@.take(i as int) =~= s@);
    }
    Some(result)
}

impl BigInt {
    /// Convert a decimal string to a `BigInt` by chunked long division:
    /// the string is split into 8-digit chunks; each pass walks the
    /// chunks left to right carrying a remainder, divides each combined
    /// value by 2^32, and appends the final remainder as the next more
    /// significant limb, until every chunk is zero.  The empty string
    /// denotes zero.  Returns `None` exactly when some character is not
    /// a decimal digit, and then no value at all.
    pub fn from_string(s: &str) -> (r: Option<BigInt>)
        ensures
            match r {
                Some(b) => all_digits(s@) && val(b@) == dec_val(s@) && b@.len() >= 1,
                None => !all_digits(s@),
            },
    {
        let n = s.unicode_len();
        let ghost len = n as int;
        let chunks_opt = split_string(s);
        let mut chunks: Vec<u64> = match chunks_opt {
            None => {
                return None;
            },
            Some(c) => c,
        };
        let k = chunks.len();
        let mut result = BigInt::zero();
        let mut done = false;
        while !done
            invariant
                n == s@.len(),
                len == n as int,
                k == chunks@.len(),
                k as int == n_chunks(len),
                all_digits(s@),
                chunks_in_range(chunks@, len),
                dec_val(s@) == chunks_prefix_val(chunks@, len, k as int) * power_of(
                    BASE as int,
                    result@.len(),
                ) + prefix_val(result@, result@.len() as int),
                done ==> chunks_prefix_val(chunks@, len, k as int) == 0,
                done ==> result@.len() >= 1,
            decreases chunks_prefix_val(chunks@, len, k as int), (if done {
                0int
            } else {
                1int
            }),
        {
            let ghost snap = chunks@;
            let ghost cpv_old = chunks_prefix_val(snap, len, k as int);
            let mut carry: u64 = 0;
            let mut i: usize = 0;
            while i < k
                invariant
                    n == s@.len(),
                    len == n as int,
                    k == chunks@.len(),
                    k as int == n_chunks(len),
                    snap.len() == k,
                    i <= k,
                    carry < BASE,
                    chunks_in_range(chunks@, len),
                    chunks_in_range(snap, len),
                    forall|j: int| i <= j < k ==> chunks@[j] == snap[j],
                    chunks_prefix_val(chunks@, len, i as int) * (BASE as int) + carry
                        == chunks_prefix_val(snap, len, i as int),
                decreases k - i,
            {
                proof {
                    assert(8 * (i + 1) <= 8 * (k as int));
                    assert(8 * (k as int) <= len + 7);
                }
                let start = 8 * i;
                let w = if n - start >= 8 {
                    8
                } else {
                    n - start
                };
                proof {
                    assert(w as int == chunk_width(len, i as int));
                }
                let temp: u64 = if carry > 0 {
                    BigInt::apply_carry(chunks[i], carry, w)
                } else {
                    chunks[i]
                };
                let ghost p = power_of(10, w as nat);
                proof {
                    assert(0 * p == 0);
                    assert(temp == carry * p + snap[i as int]);
                    assert((carry as int) * p <= (BASE as int - 1) * p) by (nonlinear_arith)
                        requires
                            0 <= carry as int <= BASE as int - 1,
                            p >= 0,
                    ;
                    assert(temp < (BASE as int) * p) by (nonlinear_arith)
                        requires
                            temp <= (BASE as int - 1) * p + snap[i as int],
                            snap[i as int] < p,
                    ;
                }
                let q = temp / BASE;
                let rem = temp % BASE;
                let ghost before = chunks@;
                chunks.set(i, q);
                proof {
                    assert((BASE as int) * q <= temp);
                    assert(q < p) by (nonlinear_arith)
                        requires
                            (BASE as int) * q <= temp,
                            temp < (BASE as int) * p,
                    ;
                    lemma_chunks_prefix_val_agree(chunks@, before, len, i as int);
                    let x = chunks_prefix_val(before, len, i as int);
                    let y = chunks_prefix_val(snap, len, i as int);
                    let base = BASE as int;
                    assert(chunks_prefix_val(chunks@, len, i + 1) == chunks_prefix_val(
                        chunks@,
                        len,
                        i as int,
                    ) * p + q);
                    assert((x * p + q) * base + rem == y * p + snap[i as int])
                        by (nonlinear_arith)
                        requires
                            x * base + carry == y,
                            temp == carry * p + snap[i as int],
                            q * base + rem == temp,
                    ;
                    assert(chunks_prefix_val(snap, len, i + 1) == y * p + snap[i as int]);
                    assert forall|j: int| 0 <= j < k implies (#[trigger] chunks@[j]) < power_of(
                        10,
                        chunk_width(len, j) as nat,
                    ) by {
                        if j != i as int {
                            assert(chunks@[j] == before[j]);
                        }
                    }
                }
                carry = rem;
                i += 1;
            }
            let ghost pre = result@;
            let ghost t = pre.len() as int;
            let ghost cpv_new = chunks_prefix_val(chunks@, len, k as int);
            result.data.push(carry as u32);
            proof {
                let base = BASE as int;
                lemma_prefix_val_snoc(pre, carry as u32);
                lemma_prefix_val_beyond(pre, t);
                lemma_prefix_val_beyond(pre.push(carry as u32), t + 1);
                assert(power_of(base, (t + 1) as nat) == base * power_of(base, t as nat));
                assert((cpv_new * base + carry) * power_of(base, t as nat) == cpv_new * (base
                    * power_of(base, t as nat)) + carry * power_of(base, t as nat))
                    by (nonlinear_arith);
            }
            done = BigInt::all_zero(&chunks);
            proof {
                lemma_chunks_prefix_val_nonneg(chunks@, len, k as int);
                lemma_chunks_prefix_val_nonneg(snap, len, k as int);
                if done {
                    lemma_chunks_all_zero(chunks@, len, k as int);
                }
                if cpv_old > 0 {
                    assert(cpv_new < cpv_old) by (nonlinear_arith)
                        requires
                            cpv_new * (BASE as int) + carry == cpv_old,
                            cpv_new >= 0,
                            carry >= 0,
                            cpv_old > 0,
                            BASE as int >= 2,
                    ;
                } else {
                    assert(cpv_new * (BASE as int) >= 0) by (nonlinear_arith)
                        requires
                            cpv_new >= 0,
                    ;
                    assert(cpv_new == 0 && carry == 0);
                    lemma_chunks_prefix_val_zero(chunks@, len, k as int);
                    assert(done);
                }
            }
        }
        proof {
            assert(chunks_prefix_val(chunks@, len, k as int) * power_of(BASE as int, result@.len())
                == 0);
        }
        Some(result)
    }
}

impl PartialEq for BigInt {
    /// Value equality: limb-wise comparison up to the longer length, with
    /// the shorter sequence zero-extended.
    fn eq(&self, other: &Self) -> (r: bool) {
        let l1 = self.data.len();
        let l2 = other.data.len();
        let largest = if l1 >= l2 {
            l1
        } else {
            l2
        };
        let mut i: usize = 0;
        while i < largest
            invariant
                i <= largest,
                largest == max_len(self@, other@),
                forall|j: int| 0 <= j < i ==> limb_at(self@, j) == limb_at(other@, j),
            decreases largest - i,
        {
            if self.get(i) != other.get(i) {
                proof {
                    lemma_same_value_iff_pointwise(self@, other@, largest as int);
                }
                return false;
            }
            i += 1;
        }
        proof {
            lemma_same_value_iff_pointwise(self@, other@, largest as int);
        }
        true
    }
}

impl vstd::std_specs::cmp::PartialEqSpecImpl for BigInt {
    open spec fn obeys_eq_spec() -> bool {
        true
    }

    open spec fn eq_spec(&self, other: &Self) -> bool {
        same_value(self@, other@)
    }
}

/// Addition: for each position, the two limbs (zero-extended) and the
/// incoming carry are added in a 64-bit accumulator; a final carry, if
/// any, becomes one extra limb.
pub fn sum(b1: &BigInt, b2: &BigInt) -> (r: BigInt)
    ensures
        val(r@) == val(b1@) + val(b2@),
        r@.len() == (if val(b1@) + val(b2@) >= power_of(BASE as int, max_len(b1@, b2@) as nat) {
            max_len(b1@, b2@) + 1
        } else {
            max_len(b1@, b2@)
        }),
{
    let mut result = BigInt::zero();
    let l1 = b1.data.len();
    let l2 = b2.data.len();
    let largest = if l1 >= l2 {
        l1
    } else {
        l2
    };
    let mut carry: u64 = 0;
    let mut i: usize = 0;
    while i < largest
        invariant
            i <= largest,
            largest == max_len(b1@, b2@),
            carry <= 1,
            result@.len() == i,
            prefix_val(result@, i as int) + carry * power_of(BASE as int, i as nat) == prefix_val(
                b1@,
                i as int,
            ) + prefix_val(b2@, i as int),
        decreases largest - i,
    {
        let digit_sum: u64 = b1.get(i) as u64 + b2.get(i) as u64 + carry;
        let ghost pre = result@;
        let ghost carry_in = carry as int;
        let x: u32;
        if digit_sum >= BASE {
            x = (digit_sum - BASE) as u32;
            carry = 1;
        } else {
            x = digit_sum as u32;
            carry = 0;
        }
        result.data.push(x);
        proof {
            let base = BASE as int;
            let p = power_of(base, i as nat);
            lemma_prefix_val_snoc(pre, x);
            lemma_prefix_val_beyond(pre, i as int);
            lemma_prefix_val_beyond(pre.push(x), i + 1);
            assert(x + (carry as int) * base == limb_at(b1@, i as int) + limb_at(
                b2@,
                i as int,
            ) + carry_in);
            assert(power_of(base, (i + 1) as nat) == base * p);
            assert((prefix_val(pre, i as int) + x * p) + (carry as int) * (base * p) == prefix_val(
                pre,
                i as int,
            ) + (x + (carry as int) * base) * p) by (nonlinear_arith);
            assert((x + (carry as int) * base) * p == limb_at(b1@, i as int) * p + limb_at(
                b2@,
                i as int,
            ) * p + carry_in * p) by (nonlinear_arith)
                requires
                    x + (carry as int) * base == limb_at(b1@, i as int) + limb_at(
                        b2@,
                        i as int,
                    ) + carry_in,
            ;
        }
        i += 1;
    }
    proof {
        lemma_prefix_val_beyond(b1@, largest as int);
        lemma_prefix_val_beyond(b2@, largest as int);
        lemma_prefix_val_bound(result@, largest as int);
        lemma_prefix_val_nonneg(result@, largest as int);
        lemma_prefix_val_beyond(result@, largest as int);
        assert(1 * power_of(BASE as int, largest as nat) == power_of(BASE as int, largest as nat));
    }
    if carry == 1 {
        let ghost pre = result@;
        result.data.push(1);
        proof {
            lemma_prefix_val_snoc(pre, 1);
            lemma_prefix_val_beyond(pre, largest as int);
        }
    }
    result
}

/// One row of the schoolbook method: the product of `b1` by the single
/// limb `d`, computed with a 64-bit multiply-with-carry accumulator.
fn atomic_product(b1: &BigInt, d: u32) -> (r: BigInt)
    ensures
        val(r@) == val(b1@) * d,
        b1@.len() <= r@.len() <= b1@.len() + 1,
{
    let mut result = BigInt::zero();
    let mut carry: u64 = 0;
    let n = b1.data.len();
    let mut i: usize = 0;
    while i < n
        invariant
            i <= n == b1@.len(),
            carry < BASE,
            result@.len() == i,
            prefix_val(result@, i as int) + carry * power_of(BASE as int, i as nat) == prefix_val(
                b1@,
                i as int,
            ) * d,
        decreases n - i,
    {
        let limb = b1.data[i];
        proof {
            assert((limb as int) * (d as int) <= (BASE as int - 1) * (BASE as int - 1))
                by (nonlinear_arith)
                requires
                    0 <= limb as int <= BASE as int - 1,
                    0 <= d as int <= BASE as int - 1,
            ;
        }
        let digit_product: u64 = limb as u64 * d as u64 + carry;
        let x: u32 = (digit_product % BASE) as u32;
        let ghost pre = result@;
        let ghost carry_in = carry as int;
        carry = digit_product / BASE;
        result.data.push(x);
        proof {
            let base = BASE as int;
            let p = power_of(base, i as nat);
            lemma_prefix_val_snoc(pre, x);
            lemma_prefix_val_beyond(pre, i as int);
            lemma_prefix_val_beyond(pre.push(x), i + 1);
            assert(x + (carry as int) * base == digit_product);
            assert(power_of(base, (i + 1) as nat) == base * p);
            assert((prefix_val(pre, i as int) + x * p) + (carry as int) * (base * p) == prefix_val(
                pre,
                i as int,
            ) + (x + (carry as int) * base) * p) by (nonlinear_arith);
            assert(prefix_val(pre, i as int) + (digit_product as int) * p == prefix_val(
                b1@,
                i as int,
            ) * d + (limb as int) * p * (d as int)) by (nonlinear_arith)
                requires
                    digit_product == (limb as int) * (d as int) + carry_in,
                    prefix_val(pre, i as int) + carry_in * p == prefix_val(b1@, i as int) * d,
            ;
            assert(prefix_val(b1@, (i + 1) as int) * d == prefix_val(b1@, i as int) * d + (
            limb as int) * p * (d as int)) by (nonlinear_arith)
                requires
                    prefix_val(b1@, (i + 1) as int) == prefix_val(b1@, i as int) + (limb as int)
                        * p,
            ;
        }
        i += 1;
    }
    proof {
        lemma_prefix_val_beyond(b1@, n as int);
    }
    if carry > 0 {
        let ghost pre = result@;
        let x: u32 = carry as u32;
        result.data.push(x);
        proof {
            lemma_prefix_val_snoc(pre, x);
            lemma_prefix_val_beyond(pre, n as int);
        }
    }
    result
}

/// Multiplication by the schoolbook method: every nonzero limb of `b2`
/// contributes `b1` times that limb, shifted up by the limb's position,
/// accumulated with `sum`.  Zero limbs are skipped; that cannot change
/// the result.
pub fn product(b1: &BigInt, b2: &BigInt) -> (r: BigInt)
    ensures
        val(r@) == val(b1@) * val(b2@),
{
    let mut result = BigInt::zero();
    let n = b2.data.len();
    let mut i: usize = 0;
    while i < n
        invariant
            i <= n == b2@.len(),
            val(result@) == val(b1@) * prefix_val(b2@, i as int),
        decreases n - i,
    {
        let d = b2.data[i];
        let ghost p = power_of(BASE as int, i as nat);
        if d > 0 {
            let ap = atomic_product(b1, d);
            let mut shifted: Vec<u32> = Vec::new();
            let mut j: usize = 0;
            while j < i
                invariant
                    shifted@.len() == j <= i,
                    forall|k: int| 0 <= k < j ==> shifted@[k] == 0,
                decreases i - j,
            {
                shifted.push(0);
                j += 1;
            }
            let mut j: usize = 0;
            while j < ap.data.len()
                invariant
                    shifted@.len() == i + j,
                    j <= ap@.len(),
                    forall|k: int| 0 <= k < i ==> shifted@[k] == 0,
                    forall|k: int| 0 <= k < j ==> shifted@[i + k] == ap@[k],
                decreases ap@.len() - j,
            {
                shifted.push(ap.data[j]);
                j += 1;
            }
            let temp = BigInt { data: shifted };
            proof {
                lemma_shifted_val(temp@, ap@, i as int);
                assert(p * (val(b1@) * d) == val(b1@) * ((d as int) * p)) by (nonlinear_arith);
            }
            let prev = result;
            result = sum(&prev, &temp);
            proof {
                assert(val(b1@) * prefix_val(b2@, i as int) + val(b1@) * ((d as int) * p) == val(
                    b1@,
                ) * (prefix_val(b2@, i as int) + (d as int) * p)) by (nonlinear_arith);
            }
        } else {
            proof {
                assert(limb_at(b2@, i as int) == 0);
                assert(0 * p == 0);
            }
        }
        i += 1;
    }
    proof {
        lemma_prefix_val_beyond(b2@, n as int);
    }
    result
}

} // verus!
