use hloo::index::{Candidates, Distance, SearchResultItem, SpecDistance};

struct MyKey(u32);

impl Distance for MyKey {
    fn comparable(&self, _: &Self) -> bool {
        true
    }

    fn spec_distance(&self, _: &Self) -> SpecDistance {
        unreachable!("only stated, never called")
    }

    fn xor_dist(&self, other: &Self) -> u32 {
        self.0.abs_diff(other.0)
    }
}

#[test]
fn test_candidate_scan_works_correctly() {
    let data = vec![
        (MyKey(1u32), 0),
        (MyKey(2u32), 1),
        (MyKey(2u32), 2),
        (MyKey(3u32), 3),
        (MyKey(4u32), 4),
        (MyKey(4u32), 5),
        (MyKey(4u32), 6),
    ];
    let candidates = Candidates::new(MyKey(1), &data);

    let res = candidates.scan(0);
    assert_eq!(res.len(), 1, "pos 0");
    assert_eq!(res, vec![SearchResultItem::new(0, 0)], "pos 0 - data");
    let res = candidates.scan(1);
    assert_eq!(res.len(), 3, "pos 0-2");
    assert_eq!(
        res,
        vec![
            SearchResultItem::new(0, 0),
            SearchResultItem::new(1, 1),
            SearchResultItem::new(2, 1),
        ],
        "pos 0-2 - data"
    )
}
