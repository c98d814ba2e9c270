//! Finite sums of an integer sequence over a half-open index range, with the
//! algebraic lemmas the spectral pipeline needs: splitting, congruence,
//! pointwise bounds and pointwise additivity.

use vstd::prelude::*;

verus! {

/// Sum of `q[i]` over the half-open range `lo <= i < hi` (0 when `hi <= lo`).
pub open spec fn seq_sum(q: Seq<int>, lo: int, hi: int) -> int
    decreases hi - lo,
{
    if lo < hi {
        q[lo] + seq_sum(q, lo + 1, hi)
    } else {
        0
    }
}

/// A sum splits at any point of its range.
pub proof fn lemma_seq_sum_split(q: Seq<int>, lo: int, mid: int, hi: int)
    requires
        lo <= mid <= hi,
    ensures
        seq_sum(q, lo, hi) == seq_sum(q, lo, mid) + seq_sum(q, mid, hi),
    decreases mid - lo,
{
    if lo < mid {
        lemma_seq_sum_split(q, lo + 1, mid, hi);
    }
}

/// Sequences that agree on the range have the same sum over it.
pub proof fn lemma_seq_sum_congruence(q: Seq<int>, r: Seq<int>, lo: int, hi: int)
    requires
        forall|i: int| lo <= i < hi ==> q[i] == r[i],
    ensures
        seq_sum(q, lo, hi) == seq_sum(r, lo, hi),
    decreases hi - lo,
{
    if lo < hi {
        lemma_seq_sum_congruence(q, r, lo + 1, hi);
    }
}

/// A sum of non-negative entries is non-negative.
pub proof fn lemma_seq_sum_nonneg(q: Seq<int>, lo: int, hi: int)
    requires
        forall|i: int| lo <= i < hi ==> 0 <= q[i],
    ensures
        0 <= seq_sum(q, lo, hi),
    decreases hi - lo,
{
    if lo < hi {
        lemma_seq_sum_nonneg(q, lo + 1, hi);
    }
}

/// Pointwise dominance on the range carries over to the sums.
pub proof fn lemma_seq_sum_le(q: Seq<int>, r: Seq<int>, lo: int, hi: int)
    requires
        forall|i: int| lo <= i < hi ==> q[i] <= r[i],
    ensures
        seq_sum(q, lo, hi) <= seq_sum(r, lo, hi),
    decreases hi - lo,
{
    if lo < hi {
        lemma_seq_sum_le(q, r, lo + 1, hi);
    }
}

/// A sum over a subrange of non-negative entries is at most the sum over the
/// whole range.
pub proof fn lemma_seq_sum_subrange_le(q: Seq<int>, lo: int, hi: int, lo2: int, hi2: int)
    requires
        lo <= lo2 <= hi2 <= hi,
        forall|i: int| lo <= i < hi ==> 0 <= q[i],
    ensures
        seq_sum(q, lo2, hi2) <= seq_sum(q, lo, hi),
{
    lemma_seq_sum_split(q, lo, lo2, hi);
    lemma_seq_sum_split(q, lo2, hi2, hi);
    lemma_seq_sum_nonneg(q, lo, lo2);
    lemma_seq_sum_nonneg(q, hi2, hi);
}

/// The sum of a pointwise sum is the sum of the two sums.
pub proof fn lemma_seq_sum_pointwise_add(q: Seq<int>, u: Seq<int>, v: Seq<int>, lo: int, hi: int)
    requires
        forall|i: int| lo <= i < hi ==> q[i] == u[i] + v[i],
    ensures
        seq_sum(q, lo, hi) == seq_sum(u, lo, hi) + seq_sum(v, lo, hi),
    decreases hi - lo,
{
    if lo < hi {
        lemma_seq_sum_pointwise_add(q, u, v, lo + 1, hi);
    }
}

/// A sum of all-zero entries is zero.
pub proof fn lemma_seq_sum_zero(q: Seq<int>, lo: int, hi: int)
    requires
        forall|i: int| lo <= i < hi ==> q[i] == 0,
    ensures
        seq_sum(q, lo, hi) == 0,
    decreases hi - lo,
{
    if lo < hi {
        lemma_seq_sum_zero(q, lo + 1, hi);
    }
}

/// A single entry of a non-negative range is at most the sum over the range.
pub proof fn lemma_seq_sum_element_le(q: Seq<int>, lo: int, hi: int, i: int)
    requires
        lo <= i < hi,
        forall|j: int| lo <= j < hi ==> 0 <= q[j],
    ensures
        q[i] <= seq_sum(q, lo, hi),
{
    lemma_seq_sum_split(q, lo, i, hi);
    lemma_seq_sum_split(q, i, i + 1, hi);
    lemma_seq_sum_nonneg(q, lo, i);
    lemma_seq_sum_nonneg(q, i + 1, hi);
}

} // verus!
