use rayon::iter::{IntoParallelIterator, ParallelIterator};
use scanner::table::AggregationTable;
use std::sync::{Arc, Mutex};

#[test]
fn new_table_is_empty() {
    let table = AggregationTable::new();
    assert!(table.is_empty());
    assert_eq!(table.get("/anything"), 0);
    assert!(!table.contains("/anything"));
}

#[test]
fn add_starts_at_zero_and_accumulates() {
    let mut table = AggregationTable::new();
    table.add("/d", 10);
    assert_eq!(table.get("/d"), 10);
    table.add("/d", 32);
    assert_eq!(table.get("/d"), 42);
    table.add("/e", 0);
    assert!(table.contains("/e"));
    assert_eq!(table.get("/e"), 0);
    assert_eq!(table.get("/d"), 42);
    assert!(!table.is_empty());
}

#[test]
fn add_reaches_the_largest_number() {
    let mut table = AggregationTable::new();
    table.add("/d", u128::MAX - 1);
    table.add("/d", 1);
    assert_eq!(table.get("/d"), u128::MAX);
}

#[test]
fn siblings_sum_in_any_order() {
    let sizes: Vec<u128> = vec![5, 0, 17, 1_000_000_007, 3, 99];
    let expected: u128 = sizes.iter().sum();

    let mut forward = AggregationTable::new();
    for s in sizes.iter() {
        forward.add("/d", *s);
    }
    let mut backward = AggregationTable::new();
    for s in sizes.iter().rev() {
        backward.add("/d", *s);
    }
    let mut shuffled = AggregationTable::new();
    for i in [3usize, 0, 5, 1, 4, 2] {
        shuffled.add("/d", sizes[i]);
    }
    assert_eq!(forward.get("/d"), expected);
    assert_eq!(backward.get("/d"), expected);
    assert_eq!(shuffled.get("/d"), expected);
}

#[test]
fn contributions_to_two_paths_commute() {
    let mut one = AggregationTable::new();
    one.add("/a", 1);
    one.add("/b", 2);
    one.add("/a", 3);
    let mut other = AggregationTable::new();
    other.add("/a", 3);
    other.add("/a", 1);
    other.add("/b", 2);
    assert_eq!(one.get("/a"), other.get("/a"));
    assert_eq!(one.get("/b"), other.get("/b"));
    assert_eq!(one.get("/a"), 4);
    assert_eq!(one.get("/b"), 2);
}

#[test]
fn concurrent_contribution() {
    // Sibling files of known sizes, added by many workers in whatever order
    // they get to it.
    let sizes: Vec<u128> = (0..10_000u128).map(|i| (i * 7919) % 1_000_003).collect();
    let expected: u128 = sizes.iter().sum();
    for _ in 0..5 {
        let table = Arc::new(Mutex::new(AggregationTable::new()));
        sizes.clone().into_par_iter().for_each(|size| {
            let mut shared = table.lock().unwrap();
            shared.add("/d", size);
        });
        let shared = table.lock().unwrap();
        assert_eq!(shared.get("/d"), expected);
        assert!(!shared.contains("/other"));
    }
}

#[test]
fn largest_follows_the_sizes() {
    let mut table = AggregationTable::new();
    assert_eq!(table.largest(), 0);
    table.add("/a", 0);
    assert_eq!(table.largest(), 0);
    table.add("/a", 5);
    assert_eq!(table.largest(), 5);
    table.add("/b", 3);
    assert_eq!(table.largest(), 5);
    table.add("/b", 3);
    assert_eq!(table.largest(), 6);
    table.add("/a", 1);
    assert_eq!(table.largest(), 6);
    table.add("/a", 1);
    assert_eq!(table.largest(), 7);
    assert_eq!(table.get("/a"), 7);
    assert_eq!(table.get("/b"), 6);
}
