use scanner::classified::{classify_tree, Classified};
use scanner::dates::SysTime;
use scanner::entry::{ItemFS, ItemType, RawEntry, RawMetadata};
use scanner::listing::{FsNode, Listing};
use scanner::room::has_room_for_tree;
use scanner::table::AggregationTable;
use scanner::walk::walk_tree;

fn raw(path: &str, is_dir: bool, len: u64) -> RawEntry {
    RawEntry {
        path: path.to_string(),
        file_name: path.rsplit('/').next().unwrap().to_string(),
        is_dir,
        metadata: Ok(RawMetadata { len, modified: Ok(SysTime { secs: 86400, nanos: 0 }) }),
    }
}

fn leaf(path: &str, size: u128) -> Classified {
    let name = path.rsplit('/').next().unwrap().to_string();
    Classified {
        outcome: Ok(ItemFS::new(
            path.to_string(),
            name,
            ItemType::FILE,
            size,
            "02-01-1970".to_string(),
        )),
        below: None,
    }
}

fn branch(path: &str, below: Option<Vec<Classified>>) -> Classified {
    let name = path.rsplit('/').next().unwrap().to_string();
    Classified {
        outcome: Ok(ItemFS::new(
            path.to_string(),
            name,
            ItemType::DIR,
            4096,
            "02-01-1970".to_string(),
        )),
        below,
    }
}

fn summary(items: &Vec<ItemFS>) -> Vec<(String, u128)> {
    items.iter().map(|i| (i.abs_path().clone(), i.get_size())).collect()
}

fn pair(path: &str, size: u128) -> (String, u128) {
    (path.to_string(), size)
}

#[test]
fn classify_tree_keeps_shape_and_order() {
    let nodes = vec![
        FsNode { entry: raw("/r/a", false, 3), listing: Listing::NotDirectory },
        FsNode {
            entry: raw("/r/d", true, 4096),
            listing: Listing::Entries(vec![FsNode {
                entry: raw("/r/d/b", false, 4),
                listing: Listing::NotDirectory,
            }]),
        },
        FsNode { entry: raw("/r/locked", true, 4096), listing: Listing::Unreadable("no".into()) },
        FsNode {
            entry: RawEntry {
                path: "/r/broken".to_string(),
                file_name: "broken".to_string(),
                is_dir: true,
                metadata: Err("gone".to_string()),
            },
            listing: Listing::Entries(vec![FsNode {
                entry: raw("/r/broken/x", false, 9),
                listing: Listing::NotDirectory,
            }]),
        },
    ];
    let trees = classify_tree(&nodes, false);
    assert_eq!(trees.len(), 4);
    let a = trees[0].outcome.as_ref().unwrap();
    assert_eq!(a.abs_path(), "/r/a");
    assert_eq!(a.get_size(), 3);
    assert_eq!(a.f_type(), ItemType::FILE);
    assert_eq!(a.last_edit(), "02-01-1970");
    assert!(trees[0].below.is_none());

    let d = trees[1].outcome.as_ref().unwrap();
    assert_eq!(d.f_type(), ItemType::DIR);
    assert_eq!(d.get_size(), 4096);
    let below = trees[1].below.as_ref().unwrap();
    assert_eq!(below.len(), 1);
    assert_eq!(below[0].outcome.as_ref().unwrap().abs_path(), "/r/d/b");

    assert!(trees[2].outcome.is_ok());
    assert!(trees[2].below.is_none());

    assert_eq!(trees[3].outcome.as_ref().unwrap_err(), "gone");
    assert!(trees[3].below.is_none());
    assert_eq!(classify_tree(&vec![], true).len(), 0);
}

#[test]
fn walk_tree_sizes_directories_bottom_up() {
    let trees = vec![
        leaf("/r/a", 1),
        branch(
            "/r/d",
            Some(vec![
                leaf("/r/d/b", 10),
                branch("/r/d/e", Some(vec![leaf("/r/d/e/c", 100)])),
                leaf("/r/d/f", 1000),
            ]),
        ),
        leaf("/r/z", 10000),
    ];
    let mut table = AggregationTable::new();
    let (items, total) = walk_tree("/r", trees, &mut table);
    assert_eq!(
        summary(&items),
        vec![
            pair("/r/a", 1),
            pair("/r/d", 1110),
            pair("/r/d/b", 10),
            pair("/r/d/e", 100),
            pair("/r/d/e/c", 100),
            pair("/r/d/f", 1000),
            pair("/r/z", 10000)
        ]
    );
    assert_eq!(total, 11111);
    assert_eq!(table.get("/r"), 11111);
    assert_eq!(table.get("/r/d"), 1110);
    assert_eq!(table.get("/r/d/e"), 100);
    assert_eq!(table.get("/r/a"), 0);
}

#[test]
fn walk_tree_drops_what_has_no_record_or_no_listing() {
    let trees = vec![
        Classified { outcome: Err("stat failed".to_string()), below: None },
        branch("/r/locked", None),
        Classified {
            outcome: Err("stat failed".to_string()),
            below: Some(vec![leaf("/r/lost/x", 5)]),
        },
        leaf("/r/kept", 7),
        branch("/r/empty", Some(vec![])),
    ];
    let mut table = AggregationTable::new();
    let (items, total) = walk_tree("/r", trees, &mut table);
    assert_eq!(summary(&items), vec![pair("/r/kept", 7), pair("/r/empty", 0)]);
    assert_eq!(total, 7);
    assert_eq!(table.get("/r"), 7);
    assert!(!table.contains("/r/locked"));
    assert!(!table.contains("/r/empty"));
}

#[test]
fn walk_tree_of_nothing_touches_nothing() {
    let mut table = AggregationTable::new();
    let (items, total) = walk_tree("/r", vec![], &mut table);
    assert!(items.is_empty());
    assert_eq!(total, 0);
    assert!(table.is_empty());
}

#[test]
fn directory_size_ignores_the_size_it_came_with() {
    let trees = vec![branch("/r/d", Some(vec![leaf("/r/d/x", 2)]))];
    let mut table = AggregationTable::new();
    let (items, _) = walk_tree("/r", trees, &mut table);
    assert_eq!(items[0].get_size(), 2);
    assert_eq!(items[0].f_type(), ItemType::DIR);
}

#[test]
fn directories_that_share_a_path_share_a_table_entry() {
    let trees = vec![
        branch("/r/d", Some(vec![leaf("/r/d/x", 2)])),
        branch("/r/d", Some(vec![leaf("/r/d/y", 3)])),
    ];
    let mut table = AggregationTable::new();
    let (items, total) = walk_tree("/r", trees, &mut table);
    assert_eq!(
        summary(&items),
        vec![pair("/r/d", 2), pair("/r/d/x", 2), pair("/r/d", 3), pair("/r/d/y", 3)]
    );
    assert_eq!(total, 5);
    assert_eq!(table.get("/r/d"), 5);
    assert_eq!(table.get("/r"), 5);
}

#[test]
fn room_for_a_classified_tree() {
    let table = AggregationTable::new();
    let trees = vec![
        leaf("/r/a", u128::MAX / 4),
        branch("/r/d", Some(vec![leaf("/r/d/b", u128::MAX / 4)])),
    ];
    // The file beneath /r/d counts twice: for /r/d and for /r.
    assert!(has_room_for_tree(&table, &trees));
    // 2^127 - 1 for /r/a, and 2^126 twice: the sum is the largest number.
    let trees = vec![
        leaf("/r/a", u128::MAX / 2),
        branch("/r/d", Some(vec![leaf("/r/d/b", u128::MAX / 4 + 1)])),
    ];
    assert!(has_room_for_tree(&table, &trees));
    let trees = vec![
        leaf("/r/a", u128::MAX / 2 + 1),
        branch("/r/d", Some(vec![leaf("/r/d/b", u128::MAX / 4 + 1)])),
    ];
    assert!(!has_room_for_tree(&table, &trees));
    assert!(has_room_for_tree(&table, &vec![]));
    let mut used = AggregationTable::new();
    used.add("/elsewhere", u128::MAX - 5);
    assert!(has_room_for_tree(&used, &vec![]));
    assert!(has_room_for_tree(&used, &vec![leaf("/r/a", 5)]));
    assert!(!has_room_for_tree(&used, &vec![leaf("/r/a", 6)]));
    used.add("/r", 1);
    let (items, total) = walk_tree("/r", vec![leaf("/r/a", 5)], &mut used);
    assert_eq!(items.len(), 1);
    assert_eq!(total, 5);
    assert_eq!(used.get("/r"), 6);
}
