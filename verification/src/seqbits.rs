//! Counting set bits over abstract bit sequences.
//!
//! The whole structure is specified against a `Seq<bool>`: the conceptual bit
//! vector, one entry per position of the integer set. `count_range` is the
//! mathematical rank function; every executable rank computation is proved
//! equal to it.

use vstd::prelude::*;

verus! {

/// True when `i` is a valid index of `s` and the bit at `i` is set.
/// Indices outside `s` count as unset, which makes rank queries beyond the
/// built range saturate naturally.
pub open spec fn bit_in(s: Seq<bool>, i: int) -> bool {
    0 <= i < s.len() && s[i]
}

/// Number of set bits of `s` at indices in the half-open range `[a, b)`.
pub open spec fn count_range(s: Seq<bool>, a: int, b: int) -> nat
    decreases b - a,
{
    if b <= a {
        0
    } else {
        count_range(s, a, b - 1) + (if bit_in(s, b - 1) {
            1nat
        } else {
            0nat
        })
    }
}

/// Start of the sub-block window that contains index `i`: the largest
/// multiple of the sub-block width that is at most `i`.
pub open spec fn sub_start(i: int) -> int {
    128 * (i / 128)
}

/// Counting over `[a, b)` splits at any midpoint `m`.
pub proof fn lemma_count_range_split(s: Seq<bool>, a: int, m: int, b: int)
    requires
        a <= m <= b,
    ensures
        count_range(s, a, b) == count_range(s, a, m) + count_range(s, m, b),
    decreases b - m,
{
    if b > m {
        lemma_count_range_split(s, a, m, b - 1);
    }
}

/// Two sequences that agree (up to an index shift of `d`) on a range have the
/// same count over that range.
pub proof fn lemma_count_range_congruent(s: Seq<bool>, t: Seq<bool>, d: int, a: int, b: int)
    requires
        forall|j: int| a <= j < b ==> #[trigger] bit_in(s, j) == bit_in(t, j + d),
    ensures
        count_range(s, a, b) == count_range(t, a + d, b + d),
    decreases b - a,
{
    if b > a {
        lemma_count_range_congruent(s, t, d, a, b - 1);
        assert(bit_in(s, b - 1) == bit_in(t, b - 1 + d));
    }
}

/// A range without set bits counts zero.
pub proof fn lemma_count_range_none(s: Seq<bool>, a: int, b: int)
    requires
        forall|j: int| a <= j < b ==> !(#[trigger] bit_in(s, j)),
    ensures
        count_range(s, a, b) == 0,
    decreases b - a,
{
    if b > a {
        lemma_count_range_none(s, a, b - 1);
    }
}

/// Setting one clear bit at `p` raises the count of every range containing
/// `p` by exactly one and leaves every other range unchanged.
pub proof fn lemma_count_range_update(s: Seq<bool>, p: int, a: int, b: int)
    requires
        0 <= p < s.len(),
        !s[p],
    ensures
        count_range(s.update(p, true), a, b) == count_range(s, a, b) + (if a <= p < b {
            1nat
        } else {
            0nat
        }),
    decreases b - a,
{
    if b > a {
        lemma_count_range_update(s, p, a, b - 1);
        assert(p != b - 1 ==> bit_in(s.update(p, true), b - 1) == bit_in(s, b - 1));
    }
}

/// Counting is monotonic in the upper end of the range.
pub proof fn lemma_count_range_monotonic(s: Seq<bool>, a: int, i: int, j: int)
    requires
        a <= i <= j,
    ensures
        count_range(s, a, i) <= count_range(s, a, j),
{
    lemma_count_range_split(s, a, i, j);
}

/// Counting a prefix that covers every set bit gives the full count.
pub proof fn lemma_count_range_all_below(s: Seq<bool>, i: int)
    requires
        i >= 0,
        forall|p: int| #[trigger] bit_in(s, p) ==> p < i,
    ensures
        count_range(s, 0, i) == count_range(s, 0, s.len() as int),
{
    if i >= s.len() {
        lemma_count_range_split(s, 0, s.len() as int, i);
        lemma_count_range_none(s, s.len() as int, i);
    } else {
        lemma_count_range_split(s, 0, i, s.len() as int);
        lemma_count_range_none(s, i, s.len() as int);
    }
}

} // verus!
