use scanner::entry::{ItemFS, ItemType};
use scanner::reconcile::{has_distinct_paths, reconcile, ReconcilePlan};

fn file(path: &str, size: u128, date: &str) -> ItemFS {
    let name = path.rsplit('/').next().unwrap().to_string();
    ItemFS::new(path.to_string(), name, ItemType::FILE, size, date.to_string())
}

fn dir(path: &str, size: u128, date: &str) -> ItemFS {
    let name = path.rsplit('/').next().unwrap().to_string();
    ItemFS::new(path.to_string(), name, ItemType::DIR, size, date.to_string())
}

fn tree() -> Vec<ItemFS> {
    vec![
        file("/r/a.txt", 10, "01-01-2020"),
        dir("/r/d", 30, "02-01-2020"),
        file("/r/d/b.txt", 30, "03-01-2020"),
        file("/r/c.txt", 0, "04-01-2020"),
    ]
}

fn insert_paths(plan: &ReconcilePlan) -> Vec<String> {
    plan.inserts.iter().map(|i| i.abs_path().clone()).collect()
}

#[test]
fn unchanged_tree_gives_an_empty_plan() {
    let plan = reconcile(&tree(), &tree());
    assert!(plan.is_empty());
    assert_eq!(plan.inserts.len(), 0);
    assert_eq!(plan.deletes.len(), 0);
    assert_eq!(plan.unchanged, 4);
}

#[test]
fn empty_index_inserts_everything() {
    let plan = reconcile(&tree(), &vec![]);
    assert_eq!(insert_paths(&plan), vec!["/r/a.txt", "/r/d", "/r/d/b.txt", "/r/c.txt"]);
    assert!(plan.deletes.is_empty());
    assert_eq!(plan.unchanged, 0);
    assert!(!plan.is_empty());
}

#[test]
fn empty_snapshot_deletes_everything() {
    let plan = reconcile(&vec![], &tree());
    assert!(plan.inserts.is_empty());
    assert_eq!(plan.deletes, vec!["/r/a.txt", "/r/d", "/r/d/b.txt", "/r/c.txt"]);
    assert_eq!(plan.unchanged, 0);
}

#[test]
fn both_empty_gives_an_empty_plan() {
    let plan = reconcile(&vec![], &vec![]);
    assert!(plan.is_empty());
    assert_eq!(plan.unchanged, 0);
}

#[test]
fn deleted_file_gives_one_delete() {
    let mut now = tree();
    now.remove(3);
    let plan = reconcile(&now, &tree());
    assert!(plan.inserts.is_empty());
    assert_eq!(plan.deletes, vec!["/r/c.txt"]);
    assert_eq!(plan.unchanged, 3);
}

#[test]
fn resized_file_is_replaced() {
    let mut now = tree();
    now[0] = file("/r/a.txt", 11, "01-01-2020");
    let plan = reconcile(&now, &tree());
    assert_eq!(insert_paths(&plan), vec!["/r/a.txt"]);
    assert_eq!(plan.inserts[0].get_size(), 11);
    assert_eq!(plan.deletes, vec!["/r/a.txt"]);
    assert_eq!(plan.unchanged, 3);
}

#[test]
fn changed_date_or_kind_is_replaced() {
    let mut now = tree();
    now[2] = file("/r/d/b.txt", 30, "09-09-2021");
    now[3] = dir("/r/c.txt", 0, "04-01-2020");
    let plan = reconcile(&now, &tree());
    assert_eq!(insert_paths(&plan), vec!["/r/d/b.txt", "/r/c.txt"]);
    assert_eq!(plan.deletes, vec!["/r/d/b.txt", "/r/c.txt"]);
    assert_eq!(plan.unchanged, 2);
    assert_eq!(plan.inserts[1].f_type(), ItemType::DIR);
    assert_eq!(plan.inserts[0].last_edit(), "09-09-2021");
}

#[test]
fn change_of_name_alone_is_no_change() {
    let mut now = tree();
    now[0] = ItemFS::new(
        "/r/a.txt".to_string(),
        "A.TXT".to_string(),
        ItemType::FILE,
        10,
        "01-01-2020".to_string(),
    );
    let plan = reconcile(&now, &tree());
    assert!(plan.is_empty());
    assert_eq!(plan.unchanged, 4);
}

#[test]
fn replaced_paths_come_before_gone_paths() {
    let existing = tree();
    let now = vec![
        file("/r/new.txt", 1, "05-01-2020"),
        file("/r/c.txt", 7, "04-01-2020"),
        file("/r/a.txt", 10, "01-01-2020"),
    ];
    let plan = reconcile(&now, &existing);
    assert_eq!(insert_paths(&plan), vec!["/r/new.txt", "/r/c.txt"]);
    assert_eq!(plan.deletes, vec!["/r/c.txt", "/r/d", "/r/d/b.txt"]);
    assert_eq!(plan.unchanged, 1);
    assert_eq!(plan.inserts.len() + plan.unchanged, now.len());
}

#[test]
fn order_of_the_snapshot_does_not_matter_for_what_is_unchanged() {
    let mut now = tree();
    now.reverse();
    let plan = reconcile(&now, &tree());
    assert!(plan.is_empty());
    assert_eq!(plan.unchanged, 4);
}

#[test]
fn of_two_stored_records_with_one_path_the_later_counts() {
    let existing = vec![file("/r/a.txt", 1, "01-01-2020"), file("/r/a.txt", 2, "01-01-2020")];
    let plan = reconcile(&vec![file("/r/a.txt", 2, "01-01-2020")], &existing);
    assert!(plan.is_empty());
    assert_eq!(plan.unchanged, 1);
    let plan = reconcile(&vec![file("/r/a.txt", 1, "01-01-2020")], &existing);
    assert_eq!(plan.deletes, vec!["/r/a.txt"]);
    assert_eq!(plan.inserts.len(), 1);
}

#[test]
fn distinct_paths_are_told_from_repeated_ones() {
    assert!(has_distinct_paths(&vec![]));
    assert!(has_distinct_paths(&tree()));
    let mut twice = tree();
    twice.push(file("/r/a.txt", 99, "09-09-2021"));
    assert!(!has_distinct_paths(&twice));
    let pair = vec![dir("/r", 0, "01-01-2020"), file("/r", 0, "01-01-2020")];
    assert!(!has_distinct_paths(&pair));
    let close = vec![file("/r/a", 0, "01-01-2020"), file("/r/A", 0, "01-01-2020")];
    assert!(has_distinct_paths(&close));
}
