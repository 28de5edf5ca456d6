//! The laws of the rank/select structure, stated over the abstract bit
//! sequence that every public contract speaks of.
//!
//! `BitRank::rank` ensures `r == count_range(self@, 0, i)`; the lemmas here
//! say what that mathematical rank function guarantees on its own.

use vstd::prelude::*;
use crate::seqbits::{
    bit_in,
    count_range,
    sub_start,
    lemma_count_range_monotonic,
    lemma_count_range_all_below,
};
use crate::block::lemma_div_mod_facts;
use vstd::set::{axiom_set_insert_len, axiom_set_insert_finite};
use vstd::arithmetic::div_mod::lemma_div_is_ordered;
use vstd::arithmetic::mul::lemma_mul_inequality;

verus! {

/// The members of the set that lie strictly below `i`.
pub open spec fn members_below(s: Seq<bool>, i: int) -> Set<int> {
    Set::new(|p: int| 0 <= p < i && bit_in(s, p))
}

/// The rank at `i` is the number of members strictly below `i`: counting the
/// bit prefix and counting the member set agree, for every index.
pub proof fn lemma_rank_counts_members(s: Seq<bool>, i: int)
    requires
        i >= 0,
    ensures
        members_below(s, i).finite(),
        count_range(s, 0, i) == members_below(s, i).len(),
    decreases i,
{
    if i == 0 {
        assert(members_below(s, 0) =~= Set::<int>::empty());
    } else {
        lemma_rank_counts_members(s, i - 1);
        if bit_in(s, i - 1) {
            assert(members_below(s, i) =~= members_below(s, i - 1).insert(i - 1));
            assert(!members_below(s, i - 1).contains(i - 1));
            axiom_set_insert_finite(members_below(s, i - 1), i - 1);
            axiom_set_insert_len(members_below(s, i - 1), i - 1);
        } else {
            assert(members_below(s, i) =~= members_below(s, i - 1));
        }
    }
}

/// The rank at index zero is always zero: no member lies below zero.
pub proof fn lemma_rank_at_zero(s: Seq<bool>)
    ensures
        count_range(s, 0, 0) == 0,
{
}

/// The maximum rank — the rank at or past the end of the built range — is
/// the total number of members.
pub proof fn lemma_max_rank_counts_all_members(s: Seq<bool>)
    ensures
        members_below(s, s.len() as int).finite(),
        count_range(s, 0, s.len() as int) == members_below(s, s.len() as int).len(),
        forall|p: int| #[trigger] bit_in(s, p) ==> members_below(s, s.len() as int).contains(p),
{
    lemma_rank_counts_members(s, s.len() as int);
}

/// Rank is monotonic: a larger query index never sees fewer members.
pub proof fn lemma_rank_monotonic(s: Seq<bool>, i: int, j: int)
    requires
        0 <= i <= j,
    ensures
        count_range(s, 0, i) <= count_range(s, 0, j),
{
    lemma_count_range_monotonic(s, 0, i, j);
}

/// Rank saturates: any index above every member — in particular any index at
/// or past the end of the built range — has the full member count as its
/// rank.
pub proof fn lemma_rank_saturates(s: Seq<bool>, i: int)
    requires
        i >= 0,
        forall|p: int| #[trigger] bit_in(s, p) ==> p < i,
    ensures
        count_range(s, 0, i) == count_range(s, 0, s.len() as int),
{
    lemma_count_range_all_below(s, i);
}

/// Beyond the built range the sub-block window of a query index holds no
/// member, so `rank_select` can never produce a witness there: together with
/// `lemma_rank_saturates` this pins the answer `(max_rank(), None)`.
pub proof fn lemma_select_window_empty_beyond(s: Seq<bool>, idx: int)
    requires
        s.len() % 128 == 0,
        idx >= s.len(),
    ensures
        forall|q: int| sub_start(idx) <= q < idx ==> !bit_in(s, q),
{
    let len = s.len() as int;
    assert forall|q: int| sub_start(idx) <= q < idx implies !bit_in(s, q) by {
        lemma_div_is_ordered(len, idx, 128);
        lemma_div_mod_facts(len, 128);
        lemma_mul_inequality(len / 128, idx / 128, 128);
        assert(128 * (len / 128) == len);
        assert(sub_start(idx) >= len);
    }
}

} // verus!


