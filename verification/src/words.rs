//! The storage word: one 128-bit sub-block of the bit vector.
//!
//! Bits inside a word are ordered most-significant-bit first: bit 0 of the
//! sub-block is the top bit of the word.

use vstd::prelude::*;
use crate::seqbits::{bit_in, count_range};

verus! {

/// Bit `i` of word `w`, counting from the most significant bit.
pub open spec fn word_bit(w: u128, i: int) -> bool {
    &&& 0 <= i < 128
    &&& (w >> ((127 - i) as u128)) & 1 == 1
}

/// The 128 bits of a word as a sequence, most significant first.
pub open spec fn word_bits(w: u128) -> Seq<bool> {
    Seq::new(128, |i: int| word_bit(w, i))
}

pub(crate) proof fn lemma_bit_or_set(w: u128, s: u128)
    requires
        s < 128,
    ensures
        ((w | (1u128 << s)) >> s) & 1 == 1,
{
    assert(((w | (1u128 << s)) >> s) & 1 == 1) by (bit_vector)
        requires
            s < 128,
    ;
}

pub(crate) proof fn lemma_bit_or_other(w: u128, s: u128, t: u128)
    requires
        s < 128,
        t < 128,
        s != t,
    ensures
        ((w | (1u128 << s)) >> t) & 1 == (w >> t) & 1,
{
    assert(((w | (1u128 << s)) >> t) & 1 == (w >> t) & 1) by (bit_vector)
        requires
            s < 128,
            t < 128,
            s != t,
    ;
}

/// The zero word has no set bits.
pub(crate) proof fn lemma_word_bit_zero(i: int)
    ensures
        !word_bit(0u128, i),
{
    if 0 <= i < 128 {
        let t: u128 = (127 - i) as u128;
        assert((0u128 >> t) & 1 == 0) by (bit_vector);
    }
}

/// Setting bit `i` of a word sets exactly that bit and no other.
pub(crate) proof fn lemma_word_bit_or(w: u128, i: int, j: int)
    requires
        0 <= i < 128,
        0 <= j < 128,
    ensures
        word_bit(w | (1u128 << ((127 - i) as u128)), j) == (i == j || word_bit(w, j)),
{
    let s: u128 = (127 - i) as u128;
    let t: u128 = (127 - j) as u128;
    if i == j {
        lemma_bit_or_set(w, s);
    } else {
        assert(s != t);
        lemma_bit_or_other(w, s, t);
    }
}

/// Tests bit `i` of word `w` (most-significant-bit-first ordering).
pub(crate) fn word_test(w: u128, i: usize) -> (r: bool)
    requires
        i < 128,
    ensures
        r == word_bit(w, i as int),
{
    (w >> ((127 - i) as u128)) & 1 == 1
}

/// Number of set bits of `w` at bit indices `[0, n)`: the population count of
/// the part of the sub-block strictly before local index `n`.
pub(crate) fn word_rank(w: u128, n: usize) -> (r: usize)
    requires
        n <= 128,
    ensures
        r == count_range(word_bits(w), 0, n as int),
        r <= n,
{
    let mut r: usize = 0;
    let mut i: usize = 0;
    while i < n
        invariant
            i <= n,
            n <= 128,
            r == count_range(word_bits(w), 0, i as int),
            r <= i,
        decreases n - i,
    {
        if word_test(w, i) {
            r = r + 1;
        }
        i = i + 1;
        assert(bit_in(word_bits(w), i - 1) == word_bit(w, i - 1));
    }
    r
}

/// Index of the highest set bit of `w` strictly before bit index `n`, if the
/// word holds one: the local "select" witness inside a sub-block.
pub(crate) fn word_select_before(w: u128, n: usize) -> (r: Option<usize>)
    requires
        n <= 128,
    ensures
        match r {
            Some(j) => {
                &&& j < n
                &&& word_bit(w, j as int)
                &&& forall|q: int| j < q < n ==> !word_bit(w, q)
            },
            None => forall|q: int| 0 <= q < n ==> !word_bit(w, q),
        },
{
    let mut j: usize = n;
    while j > 0
        invariant
            j <= n,
            n <= 128,
            forall|q: int| j <= q < n ==> !word_bit(w, q),
        decreases j,
    {
        j = j - 1;
        if word_test(w, j) {
            return Some(j);
        }
    }
    None
}

} // verus!
