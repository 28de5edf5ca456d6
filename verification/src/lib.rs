//! An immutable succinct set of unsigned integers with verified `rank` and a
//! bounded, local `select`.
//!
//! Positions are fed in strictly increasing order to a [`BitRankBuilder`];
//! [`BitRankBuilder::finish`] produces an immutable [`BitRank`] that answers
//! `rank(i)` — the number of stored positions strictly below `i` — and
//! `rank_select(i)`, which additionally reports the nearest stored position
//! below `i` when it falls inside the same sub-block window.

use vstd::prelude::*;

pub mod seqbits;
pub mod words;
pub mod block;
pub mod rank;
pub mod laws;

pub use rank::BitRank;
pub use rank::BitRankBuilder;
pub use rank::InvariantViolation;

verus! {

/// Width of one block of the conceptual bit vector, in bits.
pub const BITS_PER_BLOCK: usize = 16384;

/// Width of one sub-block (one storage word), in bits.
pub const BITS_PER_SUB_BLOCK: usize = 128;

/// Number of sub-blocks (storage words) in one block.
pub const SUB_BLOCKS_PER_BLOCK: usize = 128;

} // verus!
