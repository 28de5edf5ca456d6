use bitrank::{BitRank, BitRankBuilder, BITS_PER_BLOCK, BITS_PER_SUB_BLOCK};

use rand::distr::Uniform;
use rand::distr::Distribution;
use rand_chacha::rand_core::SeedableRng;
use rand_chacha::ChaCha8Rng;

/// Creates a `BitRank` containing the integers in `iter` (which should be
/// strictly increasing).
fn bitrank<I: IntoIterator<Item = usize>>(iter: I) -> BitRank {
    let mut builder = BitRankBuilder::new();
    for position in iter {
        builder.push(position).unwrap();
    }
    builder.finish()
}

#[test]
fn test_rank_zero() {
    let br = bitrank([0]);
    assert_eq!(br.rank(0), 0);
    assert_eq!(br.rank(1), 1);
}

#[test]
fn test_empty() {
    let br = bitrank([]);
    assert_eq!(br.num_blocks(), 0);
}

#[test]
fn test_index_out_of_bounds() {
    let br = bitrank([BITS_PER_BLOCK - 1]);
    assert_eq!(br.rank(BITS_PER_BLOCK), 1);
}

#[test]
fn test_rank_exclusive() {
    let br = bitrank(0..132);
    assert_eq!(br.num_blocks(), 1);
    assert_eq!(br.rank(64), 64);
    assert_eq!(br.rank(132), 132);
}

#[test]
fn test_rank() {
    let mut positions: Vec<usize> = (0..132).collect();
    positions.append(&mut vec![138usize, 140, 146]);
    let br = bitrank(positions);
    assert_eq!(br.rank(135), 132);

    let br2 = bitrank(0..BITS_PER_BLOCK - 5);
    assert_eq!(br2.rank(169), 169);

    let br3 = bitrank(0..BITS_PER_BLOCK + 5);
    assert_eq!(br3.rank(BITS_PER_BLOCK), BITS_PER_BLOCK);
}

#[test]
fn test_rank_idx() {
    let mut positions: Vec<usize> = (0..132).collect();
    positions.append(&mut vec![138usize, 140, 146]);
    let br = bitrank(positions);
    assert_eq!(br.rank_select(135), (132, Some(131)));

    let bits2: Vec<usize> = (0..BITS_PER_BLOCK - 5).collect();
    let br2 = bitrank(bits2);
    assert_eq!(br2.rank_select(169), (169, Some(168)));

    let bits3: Vec<usize> = (0..BITS_PER_BLOCK + 5).collect();
    let br3 = bitrank(bits3);
    assert_eq!(br3.rank_select(BITS_PER_BLOCK), (BITS_PER_BLOCK, None));

    let bits4: Vec<usize> = vec![1, 1000, 9999, BITS_PER_BLOCK + 1];
    let br4 = bitrank(bits4);
    assert_eq!(br4.rank_select(10000), (3, Some(9999)));

    let bits5: Vec<usize> = vec![1, 1000, 9999, BITS_PER_BLOCK + 1];
    let br5 = bitrank(bits5);
    assert_eq!(br5.rank_select(BITS_PER_BLOCK), (3, None));
}

#[test]
fn test_rank_large_random() {
    let mut rng = ChaCha8Rng::seed_from_u64(2);
    let uniform = Uniform::new(0, 1_000_000).unwrap();
    let mut random_bits = Vec::with_capacity(100_000);
    for _ in 0..100_000 {
        random_bits.push(uniform.sample(&mut rng));
    }
    random_bits.sort_unstable();
    // This isn't strictly necessary, given that the bit would just be toggled
    // again, but it ensures that we are meeting the contract.
    random_bits.dedup();
    let br = bitrank(random_bits.iter().copied());
    let mut rank = 0;
    let mut select = None;
    for i in 0..random_bits.capacity() {
        if i % BITS_PER_SUB_BLOCK == 0 {
            select = None;
        }
        assert_eq!(br.rank_select(i), (rank, select));
        if i == random_bits[rank] {
            rank += 1;
            select = Some(i);
        }
    }
}

/// Test that we properly handle the case where the position is out of bounds
/// for all potentially tricky bit positions.
#[test]
fn test_rank_out_of_bounds() {
    for i in 1..30 {
        let br = bitrank([BITS_PER_BLOCK * i - 1]);
        assert_eq!(br.max_rank(), 1);
        assert_eq!(br.rank(BITS_PER_BLOCK * i - 1), 0);
        for j in 0..10 {
            assert_eq!(br.rank(BITS_PER_BLOCK * (i + j)), 1);
        }
    }
}

#[test]
fn test_large_gap() {
    let br = bitrank((3..4).chain(BITS_PER_BLOCK * 15..BITS_PER_BLOCK * 15 + 17));
    for i in 1..15 {
        assert_eq!(br.rank(BITS_PER_BLOCK * i), 1);
    }
    for i in 0..18 {
        assert_eq!(br.rank(BITS_PER_BLOCK * 15 + i), 1 + i);
    }
}

#[test]
fn test_duplicate_position_rejected() {
    let mut b = BitRankBuilder::new();
    b.push(64).unwrap();
    b.push(66).unwrap();
    b.push(68).unwrap();
    // a duplicate and a decreasing position both fail ...
    assert!(b.push(68).is_err());
    assert!(b.push(67).is_err());
    // ... and leave the builder intact: a valid push still works
    b.push(90).unwrap();
    let br = b.finish();
    assert_eq!(br.max_rank(), 4);
    assert_eq!(br.rank(69), 3);
}

#[test]
fn test_decreasing_across_blocks_rejected() {
    let mut b = BitRankBuilder::new();
    b.push(BITS_PER_BLOCK + 5).unwrap();
    assert!(b.push(5).is_err());
    assert!(b.push(BITS_PER_BLOCK + 5).is_err());
    b.push(BITS_PER_BLOCK + 6).unwrap();
    let br = b.finish();
    assert_eq!(br.max_rank(), 2);
}

#[test]
fn test_empty_rank_queries() {
    let br = bitrank([]);
    assert_eq!(br.max_rank(), 0);
    assert_eq!(br.rank(0), 0);
    assert_eq!(br.rank(12345), 0);
    assert_eq!(br.rank_select(1 << 40), (0, None));
}

#[test]
fn test_rank_counts_members_sample() {
    // rank(i) equals the number of stored positions strictly below i
    let positions: Vec<usize> = vec![3, 10, 500, 131, 16384];
    let mut sorted = positions.clone();
    sorted.sort_unstable();
    let br = bitrank(sorted.iter().copied());
    for i in 0..40000 {
        let expected = positions.iter().filter(|&&p| p < i).count();
        assert_eq!(br.rank(i), expected);
    }
    assert_eq!(br.rank(0), 0);
    assert_eq!(br.max_rank(), positions.len());
}

#[test]
fn test_rank_monotonic_sample() {
    let br = bitrank(vec![1, 127, 128, 129, 1000, 20000]);
    let mut prev = 0;
    for i in 0..30000 {
        let r = br.rank(i);
        assert!(prev <= r);
        prev = r;
    }
}

#[test]
fn test_select_same_sub_block_only() {
    // a member in the same sub-block is reported ...
    let br = bitrank([5]);
    assert_eq!(br.rank_select(6), (1, Some(5)));
    // ... but one in an earlier sub-block is not, even though it exists
    assert_eq!(br.rank_select(200), (1, None));
}

#[test]
fn test_select_at_sub_block_boundary() {
    let br = bitrank([127, 128]);
    assert_eq!(br.rank_select(128), (1, None));
    assert_eq!(br.rank_select(129), (2, Some(128)));
    assert_eq!(br.rank_select(130), (2, Some(128)));
}

#[test]
fn test_with_capacity_builds_same_structure() {
    let mut b = BitRankBuilder::with_capacity(BITS_PER_BLOCK * 3 - 1);
    b.push(BITS_PER_BLOCK * 3 - 2).unwrap();
    let br = b.finish();
    assert_eq!(br.max_rank(), 1);
    assert_eq!(br.rank(BITS_PER_BLOCK * 3 - 2), 0);
    assert_eq!(br.rank(BITS_PER_BLOCK * 3 - 1), 1);
}
