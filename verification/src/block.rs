//! The leaf data unit: a fixed-width chunk of the bit vector together with
//! its local rank index.
//!
//! A block covers `BITS_PER_BLOCK` consecutive positions, stored as
//! `SUB_BLOCKS_PER_BLOCK` words of `BITS_PER_SUB_BLOCK` bits each.
//! `sub_counts[k]` caches the number of set bits in sub-blocks `0..k`;
//! `base_rank` is the number of set bits in all earlier blocks.

use vstd::prelude::*;
use crate::seqbits::{bit_in, count_range};
use crate::words::{word_bit, word_bits, lemma_word_bit_or, word_rank, word_select_before};
use vstd::arithmetic::div_mod::{
    lemma_fundamental_div_mod,
    lemma_fundamental_div_mod_converse_div,
    lemma_fundamental_div_mod_converse_mod,
    lemma_mod_bound,
    lemma_div_pos_is_pos,
};

verus! {

/// `(q * d + r) / d == q` and `(q * d + r) % d == r` when `0 <= r < d`.
pub(crate) proof fn lemma_decompose(q: int, r: int, d: int)
    requires
        d > 0,
        0 <= r < d,
    ensures
        (q * d + r) / d == q,
        (q * d + r) % d == r,
{
    lemma_fundamental_div_mod_converse_div(q * d + r, d, q, r);
    lemma_fundamental_div_mod_converse_mod(q * d + r, d, q, r);
}

/// Basic facts about `x / d` and `x % d` for nonnegative `x`.
pub(crate) proof fn lemma_div_mod_facts(x: int, d: int)
    requires
        x >= 0,
        d > 0,
    ensures
        x == d * (x / d) + x % d,
        0 <= x % d < d,
        0 <= x / d,
        d * (x / d) <= x,
{
    lemma_fundamental_div_mod(x, d);
    lemma_mod_bound(x, d);
    lemma_div_pos_is_pos(x, d);
}

/// A nonnegative index below `16384 * len` falls in block `index / 16384`,
/// which exists.
pub(crate) proof fn lemma_div_lt(p: int, len: int)
    requires
        0 <= p,
        p < 16384 * len,
    ensures
        0 <= p / 16384 < len,
        0 <= p % 16384 < 16384,
        p == 16384 * (p / 16384) + p % 16384,
{
    lemma_div_mod_facts(p, 16384);
    if p / 16384 >= len {
        assert(16384 * (p / 16384) >= 16384 * len) by (nonlinear_arith)
            requires
                p / 16384 >= len,
        ;
    }
}

/// The bits of a sequence of storage words, as one flat sequence.
pub open spec fn words_bits(ws: Seq<u128>) -> Seq<bool> {
    Seq::new(ws.len() * 128, |i: int| word_bit(ws[i / 128], i % 128))
}

/// Flat index `128 * k + j` of `words_bits` reads bit `j` of word `k`.
pub(crate) proof fn lemma_words_bits_index(ws: Seq<u128>, k: int, j: int)
    requires
        0 <= k < ws.len(),
        0 <= j < 128,
    ensures
        bit_in(words_bits(ws), 128 * k + j) == word_bit(ws[k], j),
{
    lemma_decompose(k, j, 128);
    assert(k * 128 + j == 128 * k + j);
    assert(0 <= 128 * k + j < ws.len() * 128) by (nonlinear_arith)
        requires
            0 <= k < ws.len(),
            0 <= j < 128,
    ;
}

/// Counting a window inside one word of the flat sequence equals counting
/// the same window in that word alone.
pub(crate) proof fn lemma_words_bits_window(ws: Seq<u128>, k: int, n: int)
    requires
        0 <= k < ws.len(),
        0 <= n <= 128,
    ensures
        count_range(words_bits(ws), 128 * k, 128 * k + n) == count_range(word_bits(ws[k]), 0, n),
{
    assert forall|j: int| 128 * k <= j < 128 * k + n implies #[trigger] bit_in(words_bits(ws), j)
        == bit_in(word_bits(ws[k]), j - 128 * k) by {
        lemma_words_bits_index(ws, k, j - 128 * k);
        assert(bit_in(word_bits(ws[k]), j - 128 * k) == word_bit(ws[k], j - 128 * k));
    }
    crate::seqbits::lemma_count_range_congruent(
        words_bits(ws),
        word_bits(ws[k]),
        -(128 * k),
        128 * k,
        128 * k + n,
    );
}

/// The bits of a sequence of blocks, as one flat sequence: the conceptual
/// bit vector of the whole structure.
pub(crate) open spec fn blocks_bits(bs: Seq<Block>) -> Seq<bool> {
    Seq::new(bs.len() * 16384, |p: int| bit_in(bs[p / 16384].bits(), p % 16384))
}

/// Flat index `16384 * b + t` of `blocks_bits` reads bit `t` of block `b`.
pub(crate) proof fn lemma_blocks_bits_index(bs: Seq<Block>, b: int, t: int)
    requires
        0 <= b < bs.len(),
        0 <= t < 16384,
    ensures
        bit_in(blocks_bits(bs), 16384 * b + t) == bit_in(bs[b].bits(), t),
{
    lemma_decompose(b, t, 16384);
    assert(b * 16384 + t == 16384 * b + t);
    assert(0 <= 16384 * b + t < bs.len() * 16384) by (nonlinear_arith)
        requires
            0 <= b < bs.len(),
            0 <= t < 16384,
    ;
}

/// Counting a window inside one block of the flat sequence equals counting
/// the same window in that block alone.
pub(crate) proof fn lemma_blocks_bits_window(bs: Seq<Block>, b: int, n: int)
    requires
        0 <= b < bs.len(),
        0 <= n <= 16384,
    ensures
        count_range(blocks_bits(bs), 16384 * b, 16384 * b + n) == count_range(bs[b].bits(), 0, n),
{
    assert forall|j: int| 16384 * b <= j < 16384 * b + n implies #[trigger] bit_in(blocks_bits(bs), j)
        == bit_in(bs[b].bits(), j - 16384 * b) by {
        lemma_blocks_bits_index(bs, b, j - 16384 * b);
    }
    crate::seqbits::lemma_count_range_congruent(
        blocks_bits(bs),
        bs[b].bits(),
        -(16384 * b),
        16384 * b,
        16384 * b + n,
    );
}

/// A fixed-capacity chunk of the bit vector and its local rank index.
///
/// The raw bits are stored beside the index so that one block is one unit of
/// locality; `sub_counts` is only meaningful once the block was finalized.
#[derive(Clone, Debug)]
pub(crate) struct Block {
    /// Number of set bits in all strictly earlier blocks.
    pub base_rank: u64,
    /// `sub_counts[k]` is the number of set bits in sub-blocks `0..k` of this
    /// block; the first entry is always zero.
    pub sub_counts: Vec<u16>,
    /// The bit storage, one word per sub-block, most significant bit first.
    pub words: Vec<u128>,
}

impl Block {
    /// Both vectors have exactly one entry per sub-block.
    pub(crate) open spec fn wf_shape(self) -> bool {
        &&& self.sub_counts@.len() == 128
        &&& self.words@.len() == 128
    }

    /// The bits this block stores, as a flat sequence of length
    /// `BITS_PER_BLOCK`.
    pub(crate) open spec fn bits(self) -> Seq<bool> {
        words_bits(self.words@)
    }

    /// The cached sub-block counts agree with the stored bits.
    pub(crate) open spec fn counts_ok(self) -> bool {
        forall|k: int|
            0 <= k < 128 ==> (#[trigger] self.sub_counts@[k]) as nat == count_range(
                self.bits(),
                0,
                128 * k,
            )
    }

    /// Creates an all-zero block whose `base_rank` is `base_rank`.
    pub(crate) fn zeroed(base_rank: u64) -> (r: Block)
        ensures
            r.wf_shape(),
            r.counts_ok(),
            r.base_rank == base_rank,
            forall|i: int| !(#[trigger] bit_in(r.bits(), i)),
    {
        let mut sub_counts: Vec<u16> = Vec::new();
        let mut words: Vec<u128> = Vec::new();
        let mut k: usize = 0;
        while k < 128
            invariant
                sub_counts@.len() == k,
                words@.len() == k,
                k <= 128,
                forall|i: int| 0 <= i < k ==> sub_counts@[i] == 0u16,
                forall|i: int| 0 <= i < k ==> words@[i] == 0u128,
            decreases 128 - k,
        {
            sub_counts.push(0u16);
            words.push(0u128);
            k = k + 1;
        }
        let r = Block { base_rank, sub_counts, words };
        proof {
            assert forall|i: int| !(#[trigger] bit_in(r.bits(), i)) by {
                if 0 <= i < r.bits().len() {
                    lemma_div_mod_facts(i, 128);
                    crate::words::lemma_word_bit_zero(i % 128);
                }
            }
            assert forall|k2: int| 0 <= k2 < 128 implies (#[trigger] r.sub_counts@[k2]) as nat
                == count_range(r.bits(), 0, 128 * k2) by {
                crate::seqbits::lemma_count_range_none(r.bits(), 0, 128 * k2);
            }
        }
        r
    }

    /// Marks the bit at `index` as present. The bit must be clear: the
    /// builder only calls this for a position strictly above all earlier
    /// ones, which guarantees it.
    pub(crate) fn set(&mut self, index: usize)
        requires
            old(self).wf_shape(),
            index < 16384,
            !old(self).bits()[index as int],
        ensures
            final(self).wf_shape(),
            final(self).bits() == old(self).bits().update(index as int, true),
            final(self).base_rank == old(self).base_rank,
            final(self).sub_counts == old(self).sub_counts,
    {
        let chunk_idx = index / 128;
        let bit_idx = index % 128;
        let mask: u128 = 1u128 << ((127 - bit_idx) as u128);
        let w = self.words[chunk_idx];
        self.words[chunk_idx] = w | mask;
        proof {
            let ws0 = old(self).words@;
            let ws1 = self.words@;
            let c = chunk_idx as int;
            let b = bit_idx as int;
            lemma_div_mod_facts(index as int, 128);
            assert forall|p: int| 0 <= p < 16384 implies words_bits(ws1)[p] == old(self).bits().update(
                index as int,
                true,
            )[p] by {
                lemma_div_mod_facts(p, 128);
                if p / 128 == c {
                    lemma_word_bit_or(ws0[c], b, p % 128);
                    if p == index as int {
                        assert(p % 128 == b);
                    } else {
                        assert(p % 128 != b) by {
                            assert(p == 128 * (p / 128) + p % 128);
                            assert(index as int == 128 * c + b);
                        }
                    }
                } else {
                    assert(ws1[p / 128] == ws0[p / 128]);
                    assert(p != index as int) by {
                        assert(index as int / 128 == c);
                    }
                }
            }
            assert(final(self).bits() =~= old(self).bits().update(index as int, true));
        }
    }

    /// Recomputes `sub_counts` as the running population count of the words,
    /// and returns the block's total population count.
    pub(crate) fn finalize_sub_counts(&mut self) -> (local: u16)
        requires
            old(self).wf_shape(),
        ensures
            final(self).wf_shape(),
            final(self).bits() == old(self).bits(),
            final(self).base_rank == old(self).base_rank,
            final(self).words == old(self).words,
            final(self).counts_ok(),
            local as nat == count_range(old(self).bits(), 0, 16384),
    {
        let mut local_rank: u16 = 0;
        let mut k: usize = 0;
        while k < 128
            invariant
                k <= 128,
                self.wf_shape(),
                self.words == old(self).words,
                self.base_rank == old(self).base_rank,
                local_rank as nat == count_range(self.bits(), 0, 128 * k as int),
                local_rank <= 128 * k,
                forall|j: int|
                    0 <= j < k ==> (#[trigger] self.sub_counts@[j]) as nat == count_range(
                        self.bits(),
                        0,
                        128 * j,
                    ),
            decreases 128 - k,
        {
            self.sub_counts[k] = local_rank;
            let w = self.words[k];
            let wc = word_rank(w, 128);
            proof {
                lemma_words_bits_window(self.words@, k as int, 128);
                crate::seqbits::lemma_count_range_split(
                    self.bits(),
                    0,
                    128 * k as int,
                    128 * k as int + 128,
                );
            }
            local_rank = local_rank + (wc as u16);
            k = k + 1;
        }
        proof {
            assert(self.bits() =~= old(self).bits());
        }
        local_rank
    }

    /// Rank and bounded select local to this block.
    ///
    /// Returns the total rank at `local_idx` (bits set in earlier blocks plus
    /// bits of this block strictly before `local_idx`), and the local index
    /// of the nearest set bit below `local_idx` when that bit lies in the
    /// same sub-block, else `None`.
    pub(crate) fn rank_select(&self, local_idx: usize) -> (r: (usize, Option<usize>))
        requires
            self.wf_shape(),
            self.counts_ok(),
            local_idx < 16384,
            self.base_rank as nat + count_range(self.bits(), 0, 16384) <= usize::MAX as nat,
        ensures
            r.0 as nat == self.base_rank as nat + count_range(self.bits(), 0, local_idx as int),
            match r.1 {
                Some(pos) => {
                    &&& crate::seqbits::sub_start(local_idx as int) <= pos < local_idx
                    &&& bit_in(self.bits(), pos as int)
                    &&& forall|q: int| pos < q < local_idx ==> !bit_in(self.bits(), q)
                },
                None => forall|q: int|
                    crate::seqbits::sub_start(local_idx as int) <= q < local_idx ==> !bit_in(
                        self.bits(),
                        q,
                    ),
            },
    {
        let sub_block = local_idx / 128;
        let remainder = local_idx % 128;
        proof {
            lemma_div_mod_facts(local_idx as int, 128);
            crate::seqbits::lemma_count_range_monotonic(
                self.bits(),
                0,
                local_idx as int,
                16384,
            );
            crate::seqbits::lemma_count_range_split(
                self.bits(),
                0,
                128 * sub_block as int,
                local_idx as int,
            );
            lemma_words_bits_window(self.words@, sub_block as int, remainder as int);
            assert(128 * sub_block as int + remainder as int == local_idx as int);
        }
        let w = self.words[sub_block];
        let base = self.base_rank as usize;
        let rank = base + (self.sub_counts[sub_block] as usize) + word_rank(w, remainder);
        let select = match word_select_before(w, remainder) {
            Some(j) => {
                let pos = sub_block * 128 + j;
                proof {
                    lemma_words_bits_index(self.words@, sub_block as int, j as int);
                    assert forall|q: int| pos < q < local_idx implies !bit_in(self.bits(), q) by {
                        lemma_div_mod_facts(q, 128);
                        lemma_decompose(sub_block as int, q - 128 * sub_block as int, 128);
                        lemma_words_bits_index(self.words@, sub_block as int, q % 128);
                    }
                }
                Some(pos)
            },
            None => {
                proof {
                    assert forall|q: int|
                        crate::seqbits::sub_start(local_idx as int) <= q < local_idx implies !bit_in(
                        self.bits(),
                        q,
                    ) by {
                        lemma_div_mod_facts(q, 128);
                        lemma_decompose(sub_block as int, q - 128 * sub_block as int, 128);
                        lemma_words_bits_index(self.words@, sub_block as int, q % 128);
                    }
                }
                None
            },
        };
        (rank, select)
    }

    /// The block's total rank: its `base_rank` plus the number of bits set
    /// anywhere in it, read from the finalized index and the last word.
    pub(crate) fn total_rank(&self) -> (r: usize)
        requires
            self.wf_shape(),
            self.counts_ok(),
            self.base_rank as nat + count_range(self.bits(), 0, 16384) <= usize::MAX as nat,
        ensures
            r as nat == self.base_rank as nat + count_range(self.bits(), 0, 16384),
    {
        proof {
            crate::seqbits::lemma_count_range_split(self.bits(), 0, 128 * 127int, 16384);
            lemma_words_bits_window(self.words@, 127, 128);
        }
        let base = self.base_rank as usize;
        base + (self.sub_counts[127] as usize) + word_rank(self.words[127], 128)
    }
}

} // verus!
