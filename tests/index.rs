use std::collections::HashSet;
use hloo::bits::Bits;
use hloo::index::{naive_search, IndexStats, SearchResultItem};
use hloo::lookup::SearchError;
use hloo::mem_index::MemIndex;
use hloo::permuter::Permuter;

fn id<T: Copy + Ord>(x: &T) -> T {
    *x
}

#[test]
fn test_compute_index_stats_works_correctly() {
    let data = vec![
        (1u32, 0),
        (2u32, 1),
        (2u32, 2),
        (3u32, 3),
        (3u32, 3),
        (4u32, 4),
        (4u32, 5),
        (4u32, 6),
    ];

    let stats = IndexStats::from_data(&data, id);
    assert_eq!(stats.n_blocks, 4, "n blocks");
    assert_eq!(stats.n_items, data.len(), "n items");
    assert_eq!(stats.min_block_size, 1, "min");
    assert_eq!(stats.avg_block_size, 2, "avg");
    assert_eq!(stats.max_block_size, 3, "max");
}

#[test]
fn stats_of_empty_and_uniform_data() {
    let empty: Vec<(u32, i32)> = vec![];
    let stats = IndexStats::from_data(&empty, id);
    assert_eq!(stats.n_items, 0);
    assert_eq!(stats.n_blocks, 0);
    let same: Vec<(u32, i32)> = (0..6).map(|i| (9u32, i)).collect();
    let stats = IndexStats::from_data(&same, id);
    assert_eq!(stats.n_blocks, 1);
    assert_eq!(stats.min_block_size, 6);
    assert_eq!(stats.max_block_size, 6);
    assert_eq!(stats.avg_block_size, 6);
}

fn key32(x: u32) -> Bits {
    Bits::new(vec![x as u64], 32)
}

fn variant(f: usize, r: usize, k: usize, w: usize, i: usize) -> Permuter {
    Permuter::all_variants(f, r, k, w).unwrap().into_iter().nth(i).unwrap()
}

#[test]
fn test_mem_index_search_works_for_perm0() {
    let mut index = MemIndex::new(variant(32, 5, 1, 32, 0));
    let data = [
        (key32(0b11111000100010_001000100010001000u32), 0),
        (key32(0b11111000100010_001000100011111000u32), 2),
        (key32(0b11001000111110_001000100010001010u32), 3),
        (key32(0b10011110100010_001000100010001100u32), 4),
    ];
    index.insert(&data).unwrap();
    let result = index.get_candidates(&data[2].0).block;
    assert_eq!(result.len(), 1);
    assert_eq!(result[0].0.data, data[2].0.data);
    assert_eq!(result[0].1, data[2].1);
}

#[test]
fn test_memory_index_search_works() {
    let mut index = MemIndex::new(variant(32, 5, 2, 32, 0));
    index
        .insert(&[
            (key32(0b11111000100010_001000100010001000u32), 0),
            (key32(0b11111000100010_001000100011111000u32), 2),
            (key32(0b11001000111110_001000100010001010u32), 3),
            (key32(0b10011110100010_001000100010001100u32), 4),
        ])
        .unwrap();
    let result = index
        .search(&key32(0b11001000111110_001011100010001010u32), 2)
        .unwrap();
    assert_eq!(result.len(), 1);
    assert_eq!(result[0], SearchResultItem::new(3, 2))
}

#[test]
fn mem_index_insert_keeps_entries_sorted() {
    for perm in Permuter::all_variants(32, 5, 1, 32).unwrap() {
        let first = vec![
            (key32(0b11111000100010_001000100010001000u32), 0),
            (key32(0b11001000111110_001000100010001010u32), 3),
            (key32(0b11111000100010_001000100011111000u32), 2),
            (key32(0b10011110100010_001000100010001100u32), 4),
        ];
        let second = vec![
            (key32(0b10001000101110_001000100010001000u32), 1),
            (key32(0b11111000101110_101000100010001010u32), 6),
            (key32(0b11111010100010_001000100011111000u32), 2),
            (key32(0b10010110101110_001000100010001100u32), 9),
        ];
        let mut expected: Vec<(Vec<u64>, i32)> =
            first.iter().map(|(k, v)| (perm.apply(k).data, *v)).collect();
        expected.sort();
        let mut index = MemIndex::new(perm);
        index.insert(&first).unwrap();
        let got: Vec<(Vec<u64>, i32)> = index.data().iter().map(|(k, v)| (k.data.clone(), *v)).collect();
        let mut got_sorted = got.clone();
        got_sorted.sort();
        assert_eq!(got_sorted, expected);
        assert!(got.windows(2).all(|w| w[0].0 <= w[1].0), "entries are sorted by key");

        index.insert(&second).unwrap();
        assert_eq!(index.data().len(), 8);
        let keys: Vec<Vec<u64>> = index.data().iter().map(|(k, _)| k.data.clone()).collect();
        assert!(keys.windows(2).all(|w| w[0] <= w[1]), "entries are sorted by key");
    }
}

#[test]
fn mem_index_removal_drops_matching_keys() {
    for perm in Permuter::all_variants(32, 5, 1, 32).unwrap() {
        let data = vec![
            (key32(0b11111000100010_001000100010001000u32), 0),
            (key32(0b11001000111110_001000100010001010u32), 3),
            (key32(0b11111000100010_001000100011111000u32), 2),
            (key32(0b10011110100010_001000100010001100u32), 4),
        ];
        let to_remove = vec![
            key32(0b11111000100010_001000100010001000u32),
            key32(0b11001000111110_001000100010001010u32),
        ];
        let mut expected: Vec<(Vec<u64>, i32)> = vec![
            (key32(0b11111000100010_001000100011111000u32), 2),
            (key32(0b10011110100010_001000100010001100u32), 4),
        ]
        .iter()
        .map(|(k, v)| (perm.apply(k).data, *v))
        .collect();
        expected.sort();
        let mut index = MemIndex::new(perm);
        index.insert(&data).unwrap();
        index.remove(&to_remove).unwrap();
        let got: Vec<(Vec<u64>, i32)> = index.data().iter().map(|(k, v)| (k.data.clone(), *v)).collect();
        assert_eq!(got, expected);
    }
}

#[test]
fn mem_index_stats_after_refresh() {
    let mut index = MemIndex::new(variant(32, 5, 1, 32, 0));
    let same = key32(0xDEAD_BEEF);
    let items: Vec<(Bits, i32)> = (0..5).map(|i| (same.duplicate(), i)).collect();
    index.insert(&items).unwrap();
    index.refresh();
    assert_eq!(index.stats().n_items, 5);
    assert_eq!(index.stats().n_blocks, 1);
    // all keys identical: the whole slice is the block
    let c = index.get_candidates(&same);
    assert_eq!(c.len(), 5);
}

#[test]
fn mem_index_search_rejects_distance_of_block_count() {
    let index: MemIndex<i32> = MemIndex::new(variant(32, 5, 1, 32, 0));
    let err = index.search(&key32(1), 5).unwrap_err();
    assert_eq!(err, SearchError::DistanceExceedsMax { distance: 5, max: 4 });
    // empty index: nothing found, nothing scanned
    assert!(index.search(&key32(1), 4).unwrap().is_empty());
    assert!(index.get_candidates(&key32(1)).is_empty());
}

#[test]
fn single_element_candidates() {
    let mut index = MemIndex::new(variant(64, 4, 1, 64, 2));
    let k = Bits::new(vec![0x0123_4567_89AB_CDEF], 64);
    index.insert(&[(k.duplicate(), 7u8)]).unwrap();
    let c = index.get_candidates(&k);
    assert_eq!(c.len(), 1);
    assert_eq!(c.block[0].1, 7);
}

#[test]
fn naive_search_by_hamming_distance() {
    let data = vec![(key32(0b1111), 'a'), (key32(0b0111), 'b'), (key32(0b0000), 'c')];
    let res = naive_search(&data, key32(0b1111), 1);
    assert_eq!(res, vec![SearchResultItem::new('a', 0), SearchResultItem::new('b', 1)]);
    let res = naive_search(&data, key32(0b1111), 0);
    assert_eq!(res, vec![SearchResultItem::new('a', 0)]);
}

#[test]
fn xor_dist_counts_differing_bits() {
    let a = Bits::new(vec![0xFFFF_0000, 0x0000_0001], 32);
    let b = Bits::new(vec![0x0000_0000, 0x0000_0003], 32);
    assert_eq!(a.xor_dist(&b), 17);
    assert_eq!(a.xor_dist(&a), 0);
}

#[test]
fn result_items_compare_by_value() {
    assert_eq!(SearchResultItem::new(7, 1), SearchResultItem::new(7, 2));
    assert_ne!(SearchResultItem::new(7, 1), SearchResultItem::new(8, 1));
    let set: HashSet<_> = [SearchResultItem::new(7, 1), SearchResultItem::new(7, 2)].into_iter().collect();
    assert_eq!(set.len(), 1);
}
