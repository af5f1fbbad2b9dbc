use std::collections::HashSet;

use hloo::bits::Bits;
use hloo::index::{naive_search, SearchResultItem};
use hloo::lookup::{Lookup, SearchError};
use hloo::permuter::Permuter;

// 7 7 6 6 6
fn create_mem_lookup() -> Lookup<i64> {
    Lookup::from_permuters(Permuter::all_variants(32, 5, 1, 32).unwrap())
}

fn generate_data(n: usize) -> Vec<(Bits, i64)> {
    let mut data = Vec::new();
    for i in 0..n {
        let bits = Bits::new(vec![rand::random::<u32>() as u64], 32);
        data.push((bits, i as i64));
    }
    data
}

fn flip_bits(bits: &Bits, n: usize) -> Bits {
    let mut word = bits.data[0];
    for _ in 0..n {
        let pos = (rand::random::<f32>() * 31f32) as usize;
        let bit = (word & (1 << pos)) >> pos;
        if bit == 0 {
            word |= 1 << pos;
        } else {
            word &= !(1 << pos);
        }
    }
    Bits::new(vec![word], 32)
}

fn copy_data(data: &[(Bits, i64)]) -> Vec<(Bits, i64)> {
    data.iter().map(|(k, v)| (k.duplicate(), *v)).collect()
}

#[test]
fn mem_lookup_compiles_and_runs_without_errors() {
    let mut lookup = create_mem_lookup();
    let data = generate_data(1);
    let target = data[0].0.duplicate();
    lookup.insert(&data).unwrap();
    let result = lookup.search_simple(&target, 3);
    assert_eq!(result.len(), 1, "incorrect number of search results!");
    assert_eq!(
        result.into_iter().next().map(|it| *it.data()),
        Some(0),
        "incorrect search result!"
    );
}

#[test]
fn mem_lookup_works_correctly() {
    let mut lookup = create_mem_lookup();
    let data = generate_data(10);
    let target = flip_bits(&data[0].0, 3);
    lookup.insert(&data).unwrap();
    let expected = naive_search(&copy_data(&data), target.duplicate(), 3)
        .into_iter()
        .collect::<HashSet<_>>();
    let result = lookup.search_simple(&target, 3);
    assert_eq!(
        result.len(),
        expected.len(),
        "incorrect number of search results! expected {}, got {}",
        expected.len(),
        result.len()
    );
    for el in result {
        assert!(expected.contains(&el), "expected item is missing: {:?}", el);
    }
}

#[test]
fn mem_lookup_single_entry() {
    let init_data = vec![(Bits::new(vec![851899373], 32), 0)];
    let target = init_data[0].0.duplicate();
    let mut lookup = create_mem_lookup();
    lookup.insert(&init_data).unwrap();
    let result = lookup.search_simple(&target, 0);
    assert_eq!(result.len(), 1, "incorrect number of search results!");
    assert_eq!(
        result.into_iter().next().map(|it| *it.data()),
        Some(0),
        "incorrect search result!"
    );
}

#[test]
fn duplicate_key_with_two_values() {
    // f=64, r=5, k=2, w=32
    let mut lookup: Lookup<i64> = Lookup::from_permuters(Permuter::all_variants(64, 5, 2, 32).unwrap());
    let key = Bits::new(vec![0xFFFF_E000, 0x8000_0000], 32);
    lookup
        .insert(&[(key.duplicate(), 1), (key.duplicate(), 2)])
        .unwrap();
    let res = lookup.search(&key, 0).unwrap();
    assert_eq!(res.result.len(), 10);
    for list in &res.result {
        let mut values: Vec<i64> = list.iter().map(|it| it.data).collect();
        values.sort();
        assert_eq!(values, vec![1, 2], "both values exactly once per index");
    }
    let mut simple: Vec<i64> = lookup.search_simple(&key, 0).iter().map(|it| it.data).collect();
    simple.sort();
    assert_eq!(simple, vec![1, 2]);
}

#[test]
fn lookup_matches_naive_scan_on_random_keys() {
    for _ in 0..20 {
        let mut lookup = create_mem_lookup();
        let data = generate_data(10);
        let target = flip_bits(&data[0].0, 3);
        lookup.insert(&data).unwrap();
        let naive: HashSet<i64> = naive_search(&copy_data(&data), target.duplicate(), 3)
            .iter()
            .map(|it| it.data)
            .collect();
        let res = lookup.search(&target, 3).unwrap();
        let all: HashSet<i64> = res.flat_iter().iter().map(|it| it.data).collect();
        assert!(naive.is_subset(&all));
        let simple: HashSet<i64> = lookup.search_simple(&target, 3).iter().map(|it| it.data).collect();
        assert_eq!(simple, naive);
    }
}

#[test]
fn remove_half_of_a_thousand_keys() {
    // f=64, r=4, k=1, w=64
    let mut lookup: Lookup<u32> = Lookup::from_permuters(Permuter::all_variants(64, 4, 1, 64).unwrap());
    let mut keys: Vec<u64> = Vec::new();
    let mut seen = HashSet::new();
    while keys.len() < 1000 {
        let k: u64 = rand::random();
        if seen.insert(k) {
            keys.push(k);
        }
    }
    let items: Vec<(Bits, u32)> = keys
        .iter()
        .enumerate()
        .map(|(i, k)| (Bits::new(vec![*k], 64), i as u32))
        .collect();
    lookup.insert(&items).unwrap();
    let removed: Vec<Bits> = keys[..500].iter().map(|k| Bits::new(vec![*k], 64)).collect();
    lookup.remove(&removed).unwrap();
    for (i, k) in keys.iter().enumerate() {
        let found: Vec<u32> = lookup
            .search_simple(&Bits::new(vec![*k], 64), 0)
            .iter()
            .map(|it| it.data)
            .collect();
        if i < 500 {
            assert!(found.is_empty(), "removed key {} still found", i);
        } else {
            assert_eq!(found, vec![i as u32]);
        }
    }
}

#[test]
fn search_distance_limits() {
    let lookup = create_mem_lookup();
    assert_eq!(lookup.max_search_distance(), 4);
    let key = Bits::new(vec![12345], 32);
    match lookup.search(&key, 5) {
        Err(e) => assert_eq!(e, SearchError::DistanceExceedsMax { distance: 5, max: 4 }),
        Ok(_) => panic!("distance 5 must be refused"),
    }
    // empty lookup: nothing found and nothing scanned
    let res = lookup.search(&key, 4).unwrap();
    assert_eq!(res.candidates_scanned, 0);
    assert!(res.flat_iter().is_empty());
}

#[test]
fn exact_search_returns_only_exact_matches() {
    let mut lookup = create_mem_lookup();
    let a = Bits::new(vec![0b1011_0000_1111_0000_1010_0101_1100_0011], 32);
    let b = Bits::new(vec![0b1011_0000_1111_0000_1010_0101_1100_0010], 32);
    lookup.insert(&[(a.duplicate(), 1), (b.duplicate(), 2)]).unwrap();
    let exact: Vec<i64> = lookup.search_simple(&a, 0).iter().map(|it| it.data).collect();
    assert_eq!(exact, vec![1]);
    let mut near: Vec<i64> = lookup.search_simple(&a, 1).iter().map(|it| it.data).collect();
    near.sort();
    assert_eq!(near, vec![1, 2]);
    let res = lookup.search(&a, 1).unwrap();
    for item in res.into_flat_iter() {
        assert!(item.distance <= 1);
        if item.data == 2 {
            assert_eq!(item, SearchResultItem::new(2, 1));
        }
    }
}

#[test]
fn naive_results_correspond_to_hloo() {
    let data = generate_data(1000);
    let target = flip_bits(&data[0].0, 3);

    let mut lookup_mem = create_mem_lookup();
    lookup_mem.insert(&data).unwrap();

    let expected = naive_search(&copy_data(&data), target.duplicate(), 3)
        .into_iter()
        .collect::<HashSet<_>>();

    let result_mem = lookup_mem.search_simple(&target, 3);
    assert_eq!(
        result_mem.len(),
        expected.len(),
        "incorrect number of results! expected {}, got {}",
        expected.len(),
        result_mem.len()
    );
    for el in result_mem {
        assert!(expected.contains(&el), "expected item is missing: {:?}", el);
    }
}
