//! Counting over index sequences: how many entries of a prefix equal, or lie
//! below, a given value. Bucket pointers of counting sorts are such counts.
use vstd::prelude::*;

verus! {

/// Number of positions `q < p` with `s[q] == r`.
pub open spec fn count_eq(s: Seq<usize>, r: int, p: int) -> nat
    decreases p,
{
    if p <= 0 {
        0
    } else {
        count_eq(s, r, p - 1) + if s[p - 1] == r { 1nat } else { 0nat }
    }
}

/// Number of positions `q < p` with `s[q] < r`.
pub open spec fn count_lt(s: Seq<usize>, r: int, p: int) -> nat
    decreases p,
{
    if p <= 0 {
        0
    } else {
        count_lt(s, r, p - 1) + if s[p - 1] < r { 1nat } else { 0nat }
    }
}

/// Counts never exceed the prefix length.
pub proof fn lemma_counts_bounded(s: Seq<usize>, r: int, p: int)
    requires
        0 <= p,
    ensures
        count_eq(s, r, p) <= p,
        count_lt(s, r, p) <= p,
    decreases p,
{
    if p > 0 {
        lemma_counts_bounded(s, r, p - 1);
    }
}

/// Counts grow with the prefix.
pub proof fn lemma_count_eq_mono(s: Seq<usize>, r: int, p: int, q: int)
    requires
        0 <= p <= q,
    ensures
        count_eq(s, r, p) <= count_eq(s, r, q),
    decreases q,
{
    if q > p {
        lemma_count_eq_mono(s, r, p, q - 1);
    }
}

/// Counting below `r + 1` is counting below `r` plus counting `r`.
pub proof fn lemma_count_lt_step(s: Seq<usize>, r: int, p: int)
    requires
        0 <= p,
    ensures
        count_lt(s, r + 1, p) == count_lt(s, r, p) + count_eq(s, r, p),
    decreases p,
{
    if p > 0 {
        lemma_count_lt_step(s, r, p - 1);
    }
}

/// Counting below a larger value counts at least as much.
pub proof fn lemma_count_lt_mono(s: Seq<usize>, a: int, b: int, p: int)
    requires
        a <= b,
        0 <= p,
    ensures
        count_lt(s, a, p) <= count_lt(s, b, p),
    decreases p,
{
    if p > 0 {
        lemma_count_lt_mono(s, a, b, p - 1);
    }
}

/// Nothing lies below zero.
pub proof fn lemma_count_lt_zero(s: Seq<usize>, p: int)
    requires
        0 <= p,
    ensures
        count_lt(s, 0, p) == 0,
    decreases p,
{
    if p > 0 {
        lemma_count_lt_zero(s, p - 1);
    }
}

/// When every entry of the prefix lies below `r`, all of them are counted.
pub proof fn lemma_count_lt_all(s: Seq<usize>, r: int, p: int)
    requires
        0 <= p <= s.len(),
        forall|q: int| 0 <= q < p ==> s[q] < r,
    ensures
        count_lt(s, r, p) == p,
    decreases p,
{
    if p > 0 {
        lemma_count_lt_all(s, r, p - 1);
    }
}

} // verus!
