//! Hamming-distance nearest-neighbour lookup over fixed-width binary keys.
pub mod bit_block;
pub mod bits;
pub mod index;
pub mod laws;
pub mod lookup;
pub mod mem_index;
pub mod permutations;
pub mod permuter;
pub mod storage;
pub mod util;
