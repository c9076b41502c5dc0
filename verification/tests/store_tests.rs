use scanner::entry::{ItemFS, ItemType};
use scanner::reconcile::{reconcile, ReconcilePlan};
use scanner::row::{from_row, read_records, to_row, IndexRow};
use scanner::store::{
    update_index, IndexUpdate, Stage, StoreError, StoreReply, StoreRequest, BEGIN_FAILED,
    CONNECT_FAILED,
};

fn file(path: &str, size: u128) -> ItemFS {
    let name = path.rsplit('/').next().unwrap().to_string();
    ItemFS::new(path.to_string(), name, ItemType::FILE, size, "01-01-2020".to_string())
}

fn plan() -> ReconcilePlan {
    ReconcilePlan {
        inserts: vec![file("/r/a", 1), file("/r/b", 2)],
        deletes: vec!["/r/a".to_string(), "/r/gone".to_string()],
        unchanged: 3,
    }
}

fn describe(request: &StoreRequest) -> String {
    match request {
        StoreRequest::Connect => "connect".to_string(),
        StoreRequest::Begin => "begin".to_string(),
        StoreRequest::Delete(path) => format!("delete {}", path),
        StoreRequest::Insert(row) => format!(
            "insert {}|{}|{}|{}|{}",
            row.abs_path, row.name, row.size, row.last_edit, row.kind
        ),
        StoreRequest::Commit => "commit".to_string(),
        StoreRequest::Close => "close".to_string(),
        StoreRequest::Finish(Ok(())) => "finish ok".to_string(),
        StoreRequest::Finish(Err(why)) => format!("finish {}", why.to_string()),
    }
}

// Runs the update; the store fails the request at place `fail_at`, if any.
fn run(plan: ReconcilePlan, fail_at: Option<usize>) -> Vec<String> {
    let (mut update, mut request) = IndexUpdate::start(plan);
    let mut log = vec![describe(&request)];
    let mut n = 0;
    while !matches!(request, StoreRequest::Finish(_)) {
        let reply = if fail_at == Some(n) {
            StoreReply::Failed(format!("store said no at {}", n))
        } else {
            StoreReply::Done
        };
        let (u, r) = update_index(update, reply);
        update = u;
        request = r;
        log.push(describe(&request));
        n += 1;
    }
    assert!(update.is_finished());
    assert_eq!(update.stage(), Stage::Finished);
    log
}

#[test]
fn row_has_five_texts() {
    let item = ItemFS::new(
        "/r/d".to_string(),
        "d".to_string(),
        ItemType::DIR,
        340282366920938463463374607431768211455,
        "31-12-1999".to_string(),
    );
    let row = to_row(&item);
    assert_eq!(row.abs_path, "/r/d");
    assert_eq!(row.name, "d");
    assert_eq!(row.size, "340282366920938463463374607431768211455");
    assert_eq!(row.last_edit, "31-12-1999");
    assert_eq!(row.kind, "directory");
    assert_eq!(to_row(&file("/r/a", 0)).kind, "file");
    assert_eq!(to_row(&file("/r/a", 0)).size, "0");
}

#[test]
fn successful_update_deletes_then_inserts_then_commits() {
    assert_eq!(
        run(plan(), None),
        vec![
            "connect",
            "begin",
            "delete /r/a",
            "delete /r/gone",
            "insert /r/a|a|1|01-01-2020|file",
            "insert /r/b|b|2|01-01-2020|file",
            "commit",
            "close",
            "finish ok"
        ]
    );
}

#[test]
fn empty_plan_still_commits() {
    let empty = ReconcilePlan { inserts: vec![], deletes: vec![], unchanged: 0 };
    assert_eq!(run(empty, None), vec!["connect", "begin", "commit", "close", "finish ok"]);
}

#[test]
fn refused_connection_ends_the_update() {
    assert_eq!(run(plan(), Some(0)), vec!["connect", "finish Failed acquiring connection."]);
    assert_eq!(CONNECT_FAILED, "Failed acquiring connection.");
}

#[test]
fn refused_transaction_closes_the_store() {
    assert_eq!(
        run(plan(), Some(1)),
        vec!["connect", "begin", "close", "finish Failed acquiring transaction."]
    );
    assert_eq!(BEGIN_FAILED, "Failed acquiring transaction.");
}

#[test]
fn failed_delete_stops_the_writes() {
    assert_eq!(
        run(plan(), Some(3)),
        vec![
            "connect",
            "begin",
            "delete /r/a",
            "delete /r/gone",
            "close",
            "finish store said no at 3"
        ]
    );
}

#[test]
fn failed_insert_stops_the_writes() {
    assert_eq!(
        run(plan(), Some(4)),
        vec![
            "connect",
            "begin",
            "delete /r/a",
            "delete /r/gone",
            "insert /r/a|a|1|01-01-2020|file",
            "close",
            "finish store said no at 4"
        ]
    );
}

#[test]
fn failed_commit_is_reported() {
    let log = run(plan(), Some(6));
    assert_eq!(log[log.len() - 3], "commit");
    assert_eq!(log[log.len() - 2], "close");
    assert_eq!(log[log.len() - 1], "finish store said no at 6");
}

#[test]
fn finished_update_stays_finished() {
    let (update, _) = IndexUpdate::start(ReconcilePlan {
        inserts: vec![],
        deletes: vec![],
        unchanged: 0,
    });
    let (update, request) = update_index(update, StoreReply::Failed("down".to_string()));
    assert_eq!(describe(&request), "finish Failed acquiring connection.");
    let (update, request) = update_index(update, StoreReply::Done);
    assert_eq!(describe(&request), "finish Failed acquiring connection.");
    assert!(update.is_finished());
}

#[test]
fn plan_of_a_reconciliation_is_applied_in_order() {
    let existing = vec![file("/r/a", 1), file("/r/b", 2), file("/r/c", 3)];
    let now = vec![file("/r/a", 1), file("/r/b", 20), file("/r/d", 4)];
    let log = run(reconcile(&now, &existing), None);
    assert_eq!(
        log,
        vec![
            "connect",
            "begin",
            "delete /r/b",
            "delete /r/c",
            "insert /r/b|b|20|01-01-2020|file",
            "insert /r/d|d|4|01-01-2020|file",
            "commit",
            "close",
            "finish ok"
        ]
    );
}

fn row(path: &str, size: &str, kind: &str) -> IndexRow {
    IndexRow {
        abs_path: path.to_string(),
        name: "n".to_string(),
        size: size.to_string(),
        last_edit: "01-01-2020".to_string(),
        kind: kind.to_string(),
    }
}

#[test]
fn row_is_read_back_as_the_record() {
    let item = ItemFS::new(
        "/r/d".to_string(),
        "d".to_string(),
        ItemType::DIR,
        u128::MAX,
        "31-12-1999".to_string(),
    );
    let back = from_row(&to_row(&item)).unwrap();
    assert_eq!(back.abs_path(), "/r/d");
    assert_eq!(back.name(), "d");
    assert_eq!(back.f_type(), ItemType::DIR);
    assert_eq!(back.get_size(), u128::MAX);
    assert_eq!(back.last_edit(), "31-12-1999");
    let f = from_row(&row("/r/f", "0", "file")).unwrap();
    assert_eq!(f.f_type(), ItemType::FILE);
    assert_eq!(f.get_size(), 0);
}

#[test]
fn malformed_rows_stand_for_no_record() {
    assert!(from_row(&row("/r/f", "12", "file")).is_some());
    assert!(from_row(&row("/r/f", "12", "File")).is_none());
    assert!(from_row(&row("/r/f", "12", "")).is_none());
    assert!(from_row(&row("/r/f", "", "file")).is_none());
    assert!(from_row(&row("/r/f", "012", "file")).is_none());
    assert!(from_row(&row("/r/f", "+12", "file")).is_none());
    assert!(from_row(&row("/r/f", "-1", "file")).is_none());
    assert!(from_row(&row("/r/f", "1 ", "file")).is_none());
    assert!(from_row(&row("/r/f", "12a", "file")).is_none());
    assert!(from_row(&row("/r/f", "340282366920938463463374607431768211456", "file")).is_none());
    assert!(from_row(&row("/r/f", "340282366920938463463374607431768211455", "file")).is_some());
}

#[test]
fn records_are_read_in_order_up_to_the_first_bad_row() {
    let rows = vec![row("/a", "1", "file"), row("/b", "2", "directory")];
    let records = read_records(&rows).unwrap();
    assert_eq!(records.len(), 2);
    assert_eq!(records[0].abs_path(), "/a");
    assert_eq!(records[1].get_size(), 2);
    assert_eq!(records[1].f_type(), ItemType::DIR);
    let rows = vec![row("/a", "1", "file"), row("/b", "x", "file"), row("/c", "y", "file")];
    assert_eq!(read_records(&rows).unwrap_err(), 1);
    assert_eq!(read_records(&vec![]).unwrap().len(), 0);
}

#[test]
fn store_errors_are_told_apart() {
    let (update, _) = IndexUpdate::start(plan());
    let (_, request) = update_index(update, StoreReply::Failed("down".to_string()));
    assert!(matches!(request, StoreRequest::Finish(Err(StoreError::Connection))));

    let (update, _) = IndexUpdate::start(plan());
    let (update, _) = update_index(update, StoreReply::Done);
    let (update, _) = update_index(update, StoreReply::Failed("busy".to_string()));
    let (_, request) = update_index(update, StoreReply::Done);
    assert!(matches!(request, StoreRequest::Finish(Err(StoreError::Transaction))));

    let (update, _) = IndexUpdate::start(plan());
    let (update, _) = update_index(update, StoreReply::Done);
    let (update, _) = update_index(update, StoreReply::Done);
    let (update, request) = update_index(update, StoreReply::Failed("locked".to_string()));
    assert!(matches!(request, StoreRequest::Close));
    assert_eq!(update.stage(), Stage::Closing);
    let (_, request) = update_index(update, StoreReply::Failed("close failed".to_string()));
    match request {
        StoreRequest::Finish(Err(StoreError::Write(why))) => assert_eq!(why, "locked"),
        other => panic!("unexpected request: {:?}", other),
    }

    let empty = ReconcilePlan { inserts: vec![], deletes: vec![], unchanged: 0 };
    let (update, _) = IndexUpdate::start(empty);
    let (update, _) = update_index(update, StoreReply::Done);
    let (update, request) = update_index(update, StoreReply::Done);
    assert!(matches!(request, StoreRequest::Commit));
    let (update, _) = update_index(update, StoreReply::Failed("disk full".to_string()));
    let (_, request) = update_index(update, StoreReply::Done);
    match request {
        StoreRequest::Finish(Err(StoreError::Commit(why))) => assert_eq!(why, "disk full"),
        other => panic!("unexpected request: {:?}", other),
    }
    assert_eq!(StoreError::Connection.to_string(), "Failed acquiring connection.");
    assert_eq!(StoreError::Transaction.to_string(), "Failed acquiring transaction.");
    assert_eq!(StoreError::Write("w".to_string()).to_string(), "w");
    assert_eq!(StoreError::Commit("c".to_string()).to_string(), "c");
}
