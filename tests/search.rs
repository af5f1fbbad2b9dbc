use hloo::index::BlockLocator;
use hloo::util::{exponential_search_by, extended_binary_search_by, partition};

#[test]
fn partition_vector() {
    let mut data = vec![0, 3, 4, 6, 3];
    let split = partition(&mut data, |el| *el != 3);
    assert_eq!(split, 3, "wrong split value");
    assert_eq!(data, vec![0, 4, 6, 3, 3], "wrong partitioned data: {data:?}");
}

#[test]
fn util_test_locate_block_works_correctly() {
    let data = vec![
        (1u32, 0),
        (2u32, 1),
        (2u32, 2),
        (3u32, 3),
        (4u32, 4),
        (4u32, 5),
        (4u32, 6),
    ];

    let res = extended_binary_search_by(&data, |(k, _)| k.cmp(&1));
    assert_eq!(res.len(), 1, "key = 1");
    assert_eq!(res, &data[0..1], "key = 1 - data");
    let res = extended_binary_search_by(&data, |(k, _)| k.cmp(&2));
    assert_eq!(res.len(), 2, "key = 2");
    assert_eq!(res, &data[1..3], "key = 2 - data");
    let res = extended_binary_search_by(&data, |(k, _)| k.cmp(&3));
    assert_eq!(res.len(), 1, "key = 3");
    assert_eq!(res, &data[3..4], "key = 3 - data");
    let res = extended_binary_search_by(&data, |(k, _)| k.cmp(&4));
    assert_eq!(res.len(), 3, "key = 4");
    assert_eq!(res, &data[4..7], "key = 4 - data");
    let res = extended_binary_search_by(&data, |(k, _)| k.cmp(&5));
    assert_eq!(res.len(), 0, "key = 5");
    assert_eq!(res, &data[0..0], "key = 5 - data");
    let res = extended_binary_search_by(&data, |(k, _)| k.cmp(&0));
    assert_eq!(res.len(), 0, "key = 0");
    assert_eq!(res, &data[0..0], "key = 0 - data");
}

#[test]
fn block_locator_test_locate_block_works_correctly() {
    let data = vec![
        (1u32, 0),
        (2u32, 1),
        (2u32, 2),
        (3u32, 3),
        (4u32, 4),
        (4u32, 5),
        (4u32, 6),
    ];
    let locator = BlockLocator::BinarySearch;

    let res = locator.locate_by(&data, |(k, _)| k.cmp(&1));
    assert_eq!(res.len(), 1, "key = 1");
    assert_eq!(res, &data[0..1], "key = 1 - data");
    let res = locator.locate_by(&data, |(k, _)| k.cmp(&2));
    assert_eq!(res.len(), 2, "key = 2");
    assert_eq!(res, &data[1..3], "key = 2 - data");
    let res = locator.locate_by(&data, |(k, _)| k.cmp(&3));
    assert_eq!(res.len(), 1, "key = 3");
    assert_eq!(res, &data[3..4], "key = 3 - data");
    let res = locator.locate_by(&data, |(k, _)| k.cmp(&4));
    assert_eq!(res.len(), 3, "key = 4");
    assert_eq!(res, &data[4..7], "key = 4 - data");
    let res = locator.locate_by(&data, |(k, _)| k.cmp(&5));
    assert_eq!(res.len(), 0, "key = 5");
    assert_eq!(res, &data[0..0], "key = 5 - data");
    let res = locator.locate_by(&data, |(k, _)| k.cmp(&0));
    assert_eq!(res.len(), 0, "key = 0");
    assert_eq!(res, &data[0..0], "key = 0 - data");
}

#[test]
fn exponential_search_works_correctly() {
    let data = vec![0, 3, 4, 6, 7];
    let res = exponential_search_by(&data, |el| el.cmp(&0));
    assert_eq!(res, Ok(0), "0");
    let res = exponential_search_by(&data, |el| el.cmp(&3));
    assert_eq!(res, Ok(1), "3");
    let res = exponential_search_by(&data, |el| el.cmp(&5));
    assert_eq!(res, Err(3), "5");
    let res = exponential_search_by(&data, |el| el.cmp(&1000));
    assert_eq!(res, Err(5), "1000");
    let res = exponential_search_by(&data, |el| el.cmp(&-1000));
    assert_eq!(res, Err(0), "-1000");
    let res = exponential_search_by(&data[0..0], |_: &i32| panic!("this should not be called"));
    assert_eq!(res, Err(0), "empty");
}

#[test]
fn extended_search_on_empty_and_uniform_slices() {
    let empty: Vec<(u32, i32)> = vec![];
    assert_eq!(extended_binary_search_by(&empty, |(k, _)| k.cmp(&1)).len(), 0);
    // all keys identical: the whole slice is one block
    let same: Vec<(u32, i32)> = (0..9).map(|i| (7u32, i)).collect();
    assert_eq!(extended_binary_search_by(&same, |(k, _)| k.cmp(&7)), &same[..]);
    assert_eq!(extended_binary_search_by(&same, |(k, _)| k.cmp(&6)).len(), 0);
    assert_eq!(extended_binary_search_by(&same, |(k, _)| k.cmp(&8)).len(), 0);
    // a single element
    let one = vec![(5u32, 0)];
    assert_eq!(extended_binary_search_by(&one, |(k, _)| k.cmp(&5)), &one[..]);
}

#[test]
fn extended_search_finds_long_runs_past_the_middle() {
    let mut data: Vec<(u32, u32)> = Vec::new();
    for i in 0..3 {
        data.push((1, i));
    }
    for i in 0..40 {
        data.push((2, i));
    }
    for i in 0..5 {
        data.push((3, i));
    }
    let res = extended_binary_search_by(&data, |(k, _)| k.cmp(&2));
    assert_eq!(res, &data[3..43]);
    let res = extended_binary_search_by(&data, |(k, _)| k.cmp(&3));
    assert_eq!(res, &data[43..48]);
    let res = extended_binary_search_by(&data, |(k, _)| k.cmp(&1));
    assert_eq!(res, &data[0..3]);
}

#[test]
fn partition_keeps_order_on_each_side() {
    let mut data = vec![5, 1, 8, 2, 9, 3];
    let split = partition(&mut data, |el| *el > 4);
    assert_eq!(split, 3);
    assert_eq!(data, vec![5, 8, 9, 1, 2, 3]);
    let mut none: Vec<i32> = vec![];
    assert_eq!(partition(&mut none, |el| *el > 4), 0);
}
