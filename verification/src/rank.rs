//! The append-only builder and the immutable rank/select structure.
//!
//! A `BitRankBuilder` accepts a strictly increasing stream of positions,
//! materializing all-zero blocks on demand when a position crosses a block
//! boundary, and finalizing each block's sub-counts once a later block
//! supersedes it. `finish` seals the last block and hands the blocks to an
//! immutable `BitRank`, whose queries are pure reads.

use vstd::prelude::*;
use crate::seqbits::{
    bit_in,
    count_range,
    sub_start,
    lemma_count_range_split,
    lemma_count_range_monotonic,
    lemma_count_range_update,
    lemma_count_range_congruent,
    lemma_count_range_all_below,
};
use crate::block::{Block, lemma_decompose, lemma_div_mod_facts, lemma_blocks_bits_index,
    lemma_blocks_bits_window, lemma_div_lt, blocks_bits};
use crate::BITS_PER_BLOCK;
use vstd::arithmetic::mul::lemma_mul_inequality;
use vstd::arithmetic::div_mod::{lemma_div_is_ordered, lemma_div_is_strictly_smaller};

verus! {

/// The error of a `push` whose position is not strictly above every earlier
/// one: the build is corrupt and must be restarted from scratch.
#[derive(Debug, Clone, Copy, PartialEq, Eq)]
pub struct InvariantViolation;

/// The bit sequence after setting `position` in `s`, extending `s` with
/// zeros up to the end of the block that holds `position` if needed.
pub open spec fn bits_after_push(s: Seq<bool>, position: int) -> Seq<bool> {
    let span = 16384 * (position / 16384) + 16384;
    Seq::new(
        (if s.len() as int >= span {
            s.len() as int
        } else {
            span
        }) as nat,
        |q: int| q == position || bit_in(s, q),
    )
}

/// Write-only, append-only constructor of a [`BitRank`].
pub struct BitRankBuilder {
    blocks: Vec<Block>,
    last_pos: Option<usize>,
}

impl BitRankBuilder {
    /// The bits built so far, one per position covered by an existing block.
    pub closed spec fn bits(self) -> Seq<bool> {
        blocks_bits(self.blocks@)
    }

    /// Number of positions pushed so far.
    pub closed spec fn count(self) -> nat {
        count_range(self.bits(), 0, self.bits().len() as int)
    }

    /// The smallest position the next `push` may legally carry.
    pub closed spec fn next_min(self) -> int {
        match self.last_pos {
            None => 0,
            Some(l) => l as int + 1,
        }
    }

    /// Internal well-formedness: every block has the right shape, every
    /// block's `base_rank` counts the bits of all earlier blocks, every
    /// block but the last has finalized sub-counts, all set bits lie below
    /// `next_min`, and the last pushed position lies in the last block.
    pub closed spec fn wf(self) -> bool {
        &&& forall|b: int| 0 <= b < self.blocks@.len() ==> (#[trigger] self.blocks@[b]).wf_shape()
        &&& forall|b: int|
            0 <= b < self.blocks@.len() ==> (#[trigger] self.blocks@[b]).base_rank as nat
                == count_range(self.bits(), 0, 16384 * b)
        &&& forall|b: int| 0 <= b < self.blocks@.len() - 1 ==> (#[trigger] self.blocks@[b]).counts_ok()
        &&& forall|p: int| self.next_min() <= p ==> !(#[trigger] bit_in(self.bits(), p))
        &&& match self.last_pos {
            None => self.blocks@.len() == 0,
            Some(l) => self.blocks@.len() >= 1 && l as int / 16384 == self.blocks@.len() - 1,
        }
        &&& self.count() <= usize::MAX as nat
    }

    /// Returns a new, empty builder.
    pub fn new() -> (r: BitRankBuilder)
        ensures
            r.wf(),
            r.bits() =~= Seq::<bool>::empty(),
            r.count() == 0,
            r.next_min() == 0,
    {
        let r = BitRankBuilder { blocks: Vec::new(), last_pos: None };
        proof {
            assert(r.bits().len() == 0);
        }
        r
    }

    /// Returns a builder with storage pre-reserved for positions `0..cap`.
    pub fn with_capacity(cap: usize) -> (r: BitRankBuilder)
        ensures
            r.wf(),
            r.bits() =~= Seq::<bool>::empty(),
            r.count() == 0,
            r.next_min() == 0,
    {
        proof {
            lemma_div_is_ordered(cap as int, usize::MAX as int, 16384);
            lemma_div_is_strictly_smaller(usize::MAX as int, 16384);
        }
        let n = cap / BITS_PER_BLOCK;
        let hint = if cap % BITS_PER_BLOCK == 0 {
            n
        } else {
            n + 1
        };
        let r = BitRankBuilder { blocks: Vec::with_capacity(hint), last_pos: None };
        proof {
            assert(r.bits().len() == 0);
        }
        r
    }

    /// Seals the last block's sub-counts and returns the total number of
    /// bits set so far, which seeds the `base_rank` of the next block.
    fn finish_last_block(&mut self) -> (r: u64)
        requires
            old(self).wf(),
        ensures
            final(self).wf(),
            final(self).bits() == old(self).bits(),
            final(self).count() == old(self).count(),
            final(self).next_min() == old(self).next_min(),
            final(self).last_pos == old(self).last_pos,
            final(self).blocks@.len() == old(self).blocks@.len(),
            forall|b: int|
                0 <= b < final(self).blocks@.len() ==> (#[trigger] final(self).blocks@[b]).counts_ok(),
            r as nat == old(self).count(),
    {
        if self.blocks.len() == 0 {
            return 0;
        }
        let n = self.blocks.len();
        let mut blk = self.blocks.pop().unwrap();
        let local = blk.finalize_sub_counts();
        let base = blk.base_rank;
        self.blocks.push(blk);
        proof {
            let bs0 = old(self).blocks@;
            let bs1 = self.blocks@;
            assert(bs1 =~= bs0.update(n - 1, bs1[n - 1]));
            assert(bs1[n - 1].bits() == bs0[n - 1].bits());
            assert forall|p: int| #[trigger] bit_in(blocks_bits(bs1), p) == bit_in(
                blocks_bits(bs0),
                p,
            ) by {
                if 0 <= p < 16384 * n {
                    lemma_div_lt(p, n as int);
                    lemma_blocks_bits_index(bs1, p / 16384, p % 16384);
                    lemma_blocks_bits_index(bs0, p / 16384, p % 16384);
                }
            }
            assert(final(self).bits() =~= old(self).bits());
            // The returned value is the count over all blocks: the last
            // block's base rank plus its own population.
            lemma_blocks_bits_window(bs0, n - 1, 16384);
            lemma_count_range_split(old(self).bits(), 0, 16384 * (n - 1), 16384 * (n - 1) + 16384);
            assert(16384 * (n - 1) + 16384 == 16384 * n);
            assert(old(self).bits().len() == 16384 * n);
            assert(base as nat + local as nat == old(self).count());
            assert(usize::MAX as nat <= u64::MAX as nat);
        }
        base + (local as u64)
    }

    /// Adds `position` to the set. Positions must arrive in strictly
    /// increasing order; a duplicate or decreasing position is rejected with
    /// an [`InvariantViolation`] and leaves the builder unchanged.
    pub fn push(&mut self, position: usize) -> (r: Result<(), InvariantViolation>)
        requires
            old(self).wf(),
            old(self).count() < usize::MAX as nat,
        ensures
            final(self).wf(),
            r is Ok <==> position >= old(self).next_min(),
            r is Err ==> {
                &&& final(self).bits() == old(self).bits()
                &&& final(self).next_min() == old(self).next_min()
                &&& final(self).count() == old(self).count()
            },
            r is Ok ==> {
                &&& final(self).bits() =~= bits_after_push(old(self).bits(), position as int)
                &&& final(self).next_min() == position as int + 1
                &&& final(self).count() == old(self).count() + 1
            },
    {
        match self.last_pos {
            Some(l) => {
                if position <= l {
                    return Err(InvariantViolation);
                }
            },
            None => {},
        }
        let ghost orig: Seq<bool> = old(self).bits();
        let ghost orig_len: int = old(self).blocks@.len() as int;
        let block_id = position / BITS_PER_BLOCK;
        proof {
            lemma_div_mod_facts(position as int, 16384);
        }
        if block_id >= self.blocks.len() {
            let curr_rank = self.finish_last_block();
            while self.blocks.len() <= block_id
                invariant
                    old(self).wf(),
                    self.last_pos == old(self).last_pos,
                    curr_rank as nat == old(self).count(),
                    block_id == position as int / 16384,
                    self.blocks@.len() <= block_id + 1,
                    self.blocks@.len() >= orig_len,
                    orig == old(self).bits(),
                    orig_len == old(self).blocks@.len(),
                    forall|b: int|
                        0 <= b < self.blocks@.len() ==> (#[trigger] self.blocks@[b]).wf_shape(),
                    forall|b: int|
                        0 <= b < self.blocks@.len() ==> (#[trigger] self.blocks@[b]).counts_ok(),
                    forall|b: int|
                        0 <= b < self.blocks@.len() ==> (#[trigger] self.blocks@[b]).base_rank as nat
                            == count_range(orig, 0, 16384 * b),
                    forall|p: int| #[trigger] bit_in(blocks_bits(self.blocks@), p) == bit_in(
                        orig,
                        p,
                    ),
                decreases block_id + 1 - self.blocks@.len(),
            {
                let ghost bs_prev = self.blocks@;
                let b = Block::zeroed(curr_rank);
                self.blocks.push(b);
                proof {
                    let bs1 = self.blocks@;
                    let n1 = bs1.len() as int;
                    assert forall|p: int| #[trigger] bit_in(blocks_bits(bs1), p) == bit_in(orig, p)
                        by {
                        assert(orig.len() == 16384 * orig_len);
                        assert(blocks_bits(bs1).len() == 16384 * n1);
                        if 0 <= p < 16384 * n1 {
                            lemma_div_lt(p, n1);
                            lemma_blocks_bits_index(bs1, p / 16384, p % 16384);
                            assert(bit_in(blocks_bits(bs1), p) == bit_in(
                                bs1[p / 16384].bits(),
                                p % 16384,
                            ));
                            if p / 16384 < n1 - 1 {
                                assert(bs1[p / 16384] == bs_prev[p / 16384]);
                                lemma_blocks_bits_index(bs_prev, p / 16384, p % 16384);
                                assert(bit_in(blocks_bits(bs_prev), p) == bit_in(
                                    bs_prev[p / 16384].bits(),
                                    p % 16384,
                                ));
                                assert(bit_in(blocks_bits(bs_prev), p) == bit_in(orig, p));
                            } else {
                                // inside the fresh zero block, which lies
                                // wholly beyond the original bits
                                assert(bs1[p / 16384] == b);
                                assert(!bit_in(b.bits(), p % 16384));
                                if bit_in(orig, p) {
                                    lemma_mul_inequality(orig_len, n1 - 1, 16384);
                                    assert(16384 * (n1 - 1) <= p);
                                    assert(false);
                                }
                            }
                        } else {
                            assert(!bit_in(blocks_bits(bs1), p));
                            if bit_in(orig, p) {
                                lemma_mul_inequality(orig_len, n1, 16384);
                                assert(false);
                            }
                        }
                    }
                    // base rank of every block, including the new one
                    assert forall|b2: int|
                        0 <= b2 < n1 implies (#[trigger] bs1[b2]).base_rank as nat == count_range(
                        orig,
                        0,
                        16384 * b2,
                    ) by {
                        if b2 == n1 - 1 {
                            // all set bits of `orig` lie below the new block
                            assert forall|p2: int| #[trigger] bit_in(orig, p2) implies p2 < 16384
                                * b2 by {
                                lemma_mul_inequality(orig_len, b2, 16384);
                            }
                            lemma_count_range_all_below(orig, 16384 * b2);
                            assert(count_range(orig, 0, orig.len() as int) == old(self).count());
                        } else {
                            assert(bs1[b2] == bs_prev[b2]);
                        }
                    }
                }
            }
        }
        let n = self.blocks.len();
        let ghost cur: Seq<bool> = self.bits();
        let ghost pre = *self;
        proof {
            // the target block is now the last block
            if orig_len > block_id {
                match old(self).last_pos {
                    Some(l) => {
                        lemma_div_is_ordered(l as int, position as int, 16384);
                    },
                    None => {},
                }
            }
            assert(n - 1 == block_id);
            // facts shared by the grown and the ungrown path
            assert forall|j: int| #[trigger] bit_in(cur, j) == bit_in(orig, j) by {}
            assert forall|b2: int|
                0 <= b2 < n implies (#[trigger] pre.blocks@[b2]).base_rank as nat == count_range(
                orig,
                0,
                16384 * b2,
            ) by {}
            assert forall|b2: int| 0 <= b2 < n - 1 implies (#[trigger] pre.blocks@[b2]).counts_ok()
                by {}
            assert forall|b2: int| 0 <= b2 < n implies (#[trigger] pre.blocks@[b2]).wf_shape() by {}
        }
        let local_idx = position % BITS_PER_BLOCK;
        let mut blk = self.blocks.pop().unwrap();
        proof {
            lemma_blocks_bits_index(pre.blocks@, n - 1, local_idx as int);
            assert(16384 * (n - 1) + local_idx as int == position as int) by {
                assert(position as int == 16384 * block_id + local_idx as int);
            }
            assert(bit_in(cur, position as int) == bit_in(orig, position as int));
            assert(!bit_in(cur, position as int));
            assert(blk.bits().len() == 16384);
        }
        blk.set(local_idx);
        self.blocks.push(blk);
        self.last_pos = Some(position);
        proof {
            let bs1 = self.blocks@;
            let bs0 = pre.blocks@;
            assert(bs1 =~= bs0.update(n - 1, bs1[n - 1]));
            let fin = self.bits();
            assert forall|p: int| 0 <= p < fin.len() implies #[trigger] fin[p] == (p == position as int
                || bit_in(cur, p)) by {
                lemma_div_lt(p, n as int);
                lemma_blocks_bits_index(bs1, p / 16384, p % 16384);
                lemma_blocks_bits_index(bs0, p / 16384, p % 16384);
                lemma_decompose(n - 1, local_idx as int, 16384);
                if p / 16384 == n - 1 {
                    assert(bs1[n - 1].bits() == bs0[n - 1].bits().update(local_idx as int, true));
                    assert(p == position as int <==> p % 16384 == local_idx as int) by {
                        assert(p == 16384 * (p / 16384) + p % 16384);
                    }
                } else {
                    assert(p != position as int) by {
                        assert(position as int / 16384 == n - 1);
                    }
                }
            }
            // the new bits are the old bits with `position` set
            assert(fin.len() == 16384 * n as int);
            assert(cur.len() == fin.len());
            assert(fin =~= cur.update(position as int, true));
            let fin_len = fin.len() as int;
            assert(fin =~= bits_after_push(orig, position as int)) by {
                assert(16384 * block_id + 16384 == 16384 * n as int);
                if orig_len > block_id {
                    lemma_mul_inequality(block_id + 1, orig_len, 16384);
                    assert(bits_after_push(orig, position as int).len() == orig.len());
                } else {
                    lemma_mul_inequality(orig_len, block_id + 1, 16384);
                    assert(bits_after_push(orig, position as int).len() == 16384 * n as int);
                }
                assert forall|q: int| 0 <= q < fin_len implies fin[q] == (q == position as int
                    || bit_in(orig, q)) by {
                    assert(bit_in(cur, q) == bit_in(orig, q));
                }
            }
            // well-formedness of the final state
            assert forall|b2: int|
                0 <= b2 < n implies (#[trigger] bs1[b2]).base_rank as nat == count_range(
                fin,
                0,
                16384 * b2,
            ) by {
                assert(bs1[b2].base_rank == pre.blocks@[b2].base_rank);
                lemma_mul_inequality(b2, block_id as int, 16384);
                assert(16384 * block_id <= position as int);
                lemma_count_range_update(cur, position as int, 0, 16384 * b2);
                lemma_count_range_congruent(cur, orig, 0, 0, 16384 * b2);
            }
            assert forall|b2: int| 0 <= b2 < n - 1 implies (#[trigger] bs1[b2]).counts_ok() by {
                assert(bs1[b2] == pre.blocks@[b2]);
            }
            assert forall|b2: int| 0 <= b2 < n implies (#[trigger] bs1[b2]).wf_shape() by {
                if b2 < n - 1 {
                    assert(bs1[b2] == pre.blocks@[b2]);
                }
            }
            assert forall|p: int| self.next_min() <= p implies !(#[trigger] bit_in(fin, p)) by {
                if bit_in(fin, p) {
                    assert(fin[p]);
                    assert(p == position as int || bit_in(cur, p));
                    assert(bit_in(cur, p) ==> bit_in(orig, p) && p < old(self).next_min());
                }
            }
            assert(position as int / 16384 == n - 1);
            // the element count grew by exactly one
            lemma_count_range_update(cur, position as int, 0, fin_len);
            lemma_count_range_congruent(cur, orig, 0, 0, fin_len);
            assert forall|p2: int| #[trigger] bit_in(orig, p2) implies p2 < fin_len by {
                assert(p2 < orig.len());
                lemma_mul_inequality(orig_len, n as int, 16384);
            }
            lemma_count_range_all_below(orig, fin_len);
            assert(count_range(fin, 0, fin_len) == old(self).count() + 1);
        }
        Ok(())
    }

    /// Seals the final block and returns the immutable query structure.
    pub fn finish(self) -> (r: BitRank)
        requires
            self.wf(),
        ensures
            r.wf(),
            r@ == self.bits(),
            count_range(r@, 0, r@.len() as int) == self.count(),
    {
        let mut b = self;
        b.finish_last_block();
        let r = BitRank { blocks: b.blocks };
        proof {
            assert(r@ =~= b.bits());
            // bound on the number of blocks, for index arithmetic in queries
            match b.last_pos {
                None => {},
                Some(l) => {
                    lemma_div_is_ordered(l as int, usize::MAX as int, 16384);
                },
            }
        }
        r
    }
}

/// A finished, immutable sequence of blocks: every block is well-shaped and
/// finalized, every `base_rank` counts the bits of the earlier blocks, and
/// the total count fits the machine word.
pub(crate) open spec fn blocks_finished(bs: Seq<Block>) -> bool {
    &&& forall|b: int| 0 <= b < bs.len() ==> (#[trigger] bs[b]).wf_shape()
    &&& forall|b: int| 0 <= b < bs.len() ==> (#[trigger] bs[b]).counts_ok()
    &&& forall|b: int|
        0 <= b < bs.len() ==> (#[trigger] bs[b]).base_rank as nat == count_range(
            blocks_bits(bs),
            0,
            16384 * b,
        )
    &&& count_range(blocks_bits(bs), 0, blocks_bits(bs).len() as int) <= usize::MAX as nat
}

/// A query index at or past the end of the blocks sees the whole count, and
/// its sub-block window holds no set bit.
proof fn lemma_query_beyond(bs: Seq<Block>, idx: int)
    requires
        idx >= 0,
        idx / 16384 >= bs.len(),
    ensures
        count_range(blocks_bits(bs), 0, idx) == count_range(
            blocks_bits(bs),
            0,
            blocks_bits(bs).len() as int,
        ),
        forall|q: int| sub_start(idx) <= q < idx ==> !bit_in(blocks_bits(bs), q),
{
    let s = blocks_bits(bs);
    let n = bs.len() as int;
    let span = s.len() as int;
    lemma_div_mod_facts(idx, 16384);
    lemma_mul_inequality(n, idx / 16384, 16384);
    assert(span <= 16384 * (idx / 16384) <= idx);
    assert forall|p: int| #[trigger] bit_in(s, p) implies p < idx by {}
    lemma_count_range_all_below(s, idx);
    assert forall|q: int| sub_start(idx) <= q < idx implies !bit_in(s, q) by {
        lemma_div_is_ordered(span, idx, 128);
        lemma_div_mod_facts(span, 128);
        lemma_decompose(128 * n, 0, 128);
        assert(span == 128 * (128 * n));
        lemma_mul_inequality(span / 128, idx / 128, 128);
        assert(sub_start(idx) >= span);
    }
}

/// A query index inside block `bn` splits into that block's `base_rank` and
/// a count local to the block, and its sub-block window maps onto the
/// block's own window.
proof fn lemma_query_in_block(bs: Seq<Block>, bn: int, idx: int)
    requires
        blocks_finished(bs),
        0 <= bn < bs.len(),
        idx >= 0,
        idx / 16384 == bn,
    ensures
        bs[bn].base_rank as nat + count_range(bs[bn].bits(), 0, 16384) <= usize::MAX as nat,
        bs[bn].base_rank as nat + count_range(bs[bn].bits(), 0, idx % 16384) == count_range(
            blocks_bits(bs),
            0,
            idx,
        ),
        sub_start(idx) == 16384 * bn + sub_start(idx % 16384),
        0 <= idx % 16384 < 16384,
        idx == 16384 * bn + idx % 16384,
        forall|q: int|
            16384 * bn <= q < 16384 * bn + 16384 ==> #[trigger] bit_in(blocks_bits(bs), q)
                == bit_in(bs[bn].bits(), q - 16384 * bn),
{
    let s = blocks_bits(bs);
    let local = idx % 16384;
    lemma_div_mod_facts(idx, 16384);
    lemma_blocks_bits_window(bs, bn, 16384);
    lemma_count_range_split(s, 0, 16384 * bn, 16384 * bn + 16384);
    lemma_mul_inequality(bn + 1, bs.len() as int, 16384);
    lemma_count_range_monotonic(s, 0, 16384 * bn + 16384, s.len() as int);
    lemma_blocks_bits_window(bs, bn, local);
    lemma_count_range_split(s, 0, 16384 * bn, idx);
    assert(sub_start(idx) == 16384 * bn + sub_start(local)) by {
        lemma_div_mod_facts(local, 128);
        lemma_decompose(128 * bn + local / 128, local % 128, 128);
        assert(idx == 128 * (128 * bn + local / 128) + local % 128);
        assert(idx / 128 == 128 * bn + local / 128);
    }
    assert forall|q: int|
        16384 * bn <= q < 16384 * bn + 16384 implies #[trigger] bit_in(s, q) == bit_in(
        bs[bn].bits(),
        q - 16384 * bn,
    ) by {
        lemma_blocks_bits_index(bs, bn, q - 16384 * bn);
    }
}

/// An immutable set of unsigned integers with an efficient `rank` method and
/// a bounded local `select`.
#[derive(Clone)]
pub struct BitRank {
    blocks: Vec<Block>,
}

impl View for BitRank {
    type V = Seq<bool>;

    /// The conceptual bit vector: bit `p` is set exactly when position `p`
    /// is a member of the set.
    closed spec fn view(&self) -> Seq<bool> {
        blocks_bits(self.blocks@)
    }
}

impl BitRank {
    /// Internal well-formedness: every block is finalized and consistent
    /// with the bits, and the total count fits the machine word.
    pub closed spec fn wf(self) -> bool {
        &&& blocks_finished(self.blocks@)
        &&& self.blocks@.len() <= usize::MAX as int / 16384 + 1
    }

    /// The number of blocks the structure holds: zero exactly when it was
    /// built from no positions at all.
    pub fn num_blocks(&self) -> (r: usize)
        ensures
            self@.len() == r * 16384,
    {
        self.blocks.len()
    }

    /// The number of members of the set: the rank of every index at or past
    /// the end of the built range.
    pub fn max_rank(&self) -> (r: usize)
        requires
            self.wf(),
        ensures
            r as nat == count_range(self@, 0, self@.len() as int),
    {
        if self.blocks.len() == 0 {
            return 0;
        }
        let n = self.blocks.len();
        proof {
            lemma_blocks_bits_window(self.blocks@, n - 1, 16384);
            lemma_count_range_split(self@, 0, 16384 * (n - 1), 16384 * (n - 1) + 16384);
            assert(16384 * (n - 1) + 16384 == 16384 * n);
            assert(self@.len() == 16384 * n);
        }
        self.blocks[n - 1].total_rank()
    }

    /// The rank at `idx`, exclusive: the number of members strictly below
    /// `idx`. Indices beyond the built range saturate to the member count.
    pub fn rank(&self, idx: usize) -> (r: usize)
        requires
            self.wf(),
        ensures
            r as nat == count_range(self@, 0, idx as int),
    {
        let (r, _) = self.rank_select(idx);
        r
    }

    /// The rank at `idx`, together with the member that establishes it when
    /// that member lies in the same sub-block as `idx`.
    ///
    /// The second component is `Some(pos)` exactly when some member lies in
    /// the sub-block window `[sub_start(idx), idx)`; `pos` is then the
    /// greatest such member. When the nearest member below `idx` lies in an
    /// earlier sub-block — or there is none — the result is `None` and the
    /// caller resolves the position from its own ordered data.
    pub fn rank_select(&self, idx: usize) -> (r: (usize, Option<usize>))
        requires
            self.wf(),
        ensures
            r.0 as nat == count_range(self@, 0, idx as int),
            match r.1 {
                Some(pos) => {
                    &&& sub_start(idx as int) <= pos < idx
                    &&& bit_in(self@, pos as int)
                    &&& forall|q: int| pos < q < idx ==> !bit_in(self@, q)
                },
                None => forall|q: int| sub_start(idx as int) <= q < idx ==> !bit_in(self@, q),
            },
    {
        let block_num = idx / BITS_PER_BLOCK;
        let n = self.blocks.len();
        if block_num >= n {
            proof {
                lemma_query_beyond(self.blocks@, idx as int);
            }
            return (self.max_rank(), None);
        }
        let local_idx = idx % BITS_PER_BLOCK;
        proof {
            lemma_query_in_block(self.blocks@, block_num as int, idx as int);
        }
        let (rank, b_idx) = self.blocks[block_num].rank_select(local_idx);
        match b_idx {
            Some(j) => {
                proof {
                    let s = self@;
                    let bn = block_num as int;
                    assert(bit_in(s, 16384 * bn + j) == bit_in(
                        self.blocks@[bn].bits(),
                        j as int,
                    ));
                    assert forall|q: int| 16384 * bn + j < q < idx implies !bit_in(s, q) by {
                        assert(bit_in(s, q) == bit_in(self.blocks@[bn].bits(), q - 16384 * bn));
                    }
                }
                let pos = block_num * BITS_PER_BLOCK + j;
                (rank, Some(pos))
            },
            None => {
                proof {
                    let s = self@;
                    let bn = block_num as int;
                    assert forall|q: int| sub_start(idx as int) <= q < idx implies !bit_in(s, q)
                        by {
                        assert(bit_in(s, q) == bit_in(self.blocks@[bn].bits(), q - 16384 * bn));
                        assert(sub_start(local_idx as int) <= q - 16384 * bn < local_idx as int);
                    }
                }
                (rank, None)
            },
        }
    }
}

} // verus!
