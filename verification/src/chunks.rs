//! The model of chunked long division: a decimal string is split into
//! 8-digit chunks, and the whole number is recovered by folding the
//! chunks left to right, each shifted by its digit width.

use vstd::prelude::*;
use crate::arith::{power_of, lemma_power_of_pos};

verus! {

/// Number of chunks a string of `len` digits splits into; the final
/// chunk may be shorter than 8 digits.
pub open spec fn n_chunks(len: int) -> int {
    (len + 7) / 8
}

/// Original digit width of chunk `j` in a string of `len` digits.
pub open spec fn chunk_width(len: int, j: int) -> int {
    if 8 * j + 8 <= len {
        8
    } else {
        len - 8 * j
    }
}

/// The number denoted by the first `j` chunk values read left to right:
/// each step shifts the accumulator by the next chunk's original digit
/// width and adds that chunk.
pub open spec fn chunks_prefix_val(c: Seq<u64>, len: int, j: int) -> int
    decreases j,
{
    if j <= 0 {
        0
    } else {
        chunks_prefix_val(c, len, j - 1) * power_of(10, chunk_width(len, j - 1) as nat) + c[j - 1]
    }
}

/// Every chunk value stays below 10^(its original width).
pub open spec fn chunks_in_range(c: Seq<u64>, len: int) -> bool {
    forall|j: int|
        0 <= j < c.len() ==> (#[trigger] c[j]) < power_of(10, chunk_width(len, j) as nat)
}

pub proof fn lemma_chunks_prefix_val_nonneg(c: Seq<u64>, len: int, j: int)
    requires
        j <= c.len(),
    ensures
        chunks_prefix_val(c, len, j) >= 0,
    decreases j,
{
    if j > 0 {
        lemma_chunks_prefix_val_nonneg(c, len, j - 1);
        let p = power_of(10, chunk_width(len, j - 1) as nat);
        lemma_power_of_pos(10, chunk_width(len, j - 1) as nat);
        assert(chunks_prefix_val(c, len, j - 1) * p >= 0) by (nonlinear_arith)
            requires
                chunks_prefix_val(c, len, j - 1) >= 0,
                p > 0,
        ;
    }
}

/// `chunks_prefix_val` reads only the chunks below `j`.
pub proof fn lemma_chunks_prefix_val_agree(c1: Seq<u64>, c2: Seq<u64>, len: int, j: int)
    requires
        j <= c1.len(),
        j <= c2.len(),
        forall|jj: int| 0 <= jj < j ==> c1[jj] == c2[jj],
    ensures
        chunks_prefix_val(c1, len, j) == chunks_prefix_val(c2, len, j),
    decreases j,
{
    if j > 0 {
        lemma_chunks_prefix_val_agree(c1, c2, len, j - 1);
    }
}

/// A zero combined value forces every chunk to be zero.
pub proof fn lemma_chunks_prefix_val_zero(c: Seq<u64>, len: int, j: int)
    requires
        j <= c.len(),
        chunks_prefix_val(c, len, j) == 0,
    ensures
        forall|jj: int| 0 <= jj < j ==> c[jj] == 0,
    decreases j,
{
    if j > 0 {
        let p = power_of(10, chunk_width(len, j - 1) as nat);
        lemma_power_of_pos(10, chunk_width(len, j - 1) as nat);
        lemma_chunks_prefix_val_nonneg(c, len, j - 1);
        assert(chunks_prefix_val(c, len, j - 1) * p >= 0 && (chunks_prefix_val(c, len, j - 1) > 0
            ==> chunks_prefix_val(c, len, j - 1) * p > 0)) by (nonlinear_arith)
            requires
                chunks_prefix_val(c, len, j - 1) >= 0,
                p > 0,
        ;
        assert(chunks_prefix_val(c, len, j - 1) == 0);
        lemma_chunks_prefix_val_zero(c, len, j - 1);
    }
}

/// All-zero chunks denote zero.
pub proof fn lemma_chunks_all_zero(c: Seq<u64>, len: int, j: int)
    requires
        j <= c.len(),
        forall|jj: int| 0 <= jj < j ==> c[jj] == 0,
    ensures
        chunks_prefix_val(c, len, j) == 0,
    decreases j,
{
    if j > 0 {
        lemma_chunks_all_zero(c, len, j - 1);
        assert(0 * power_of(10, chunk_width(len, j - 1) as nat) == 0);
    }
}

} // verus!
