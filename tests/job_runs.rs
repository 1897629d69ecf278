use tabby_job_runs::query::list_query;
use tabby_job_runs::run::{JobRunDAO, Timestamp};
use tabby_job_runs::store::{DbConn, DbError};
use tabby_job_runs::text::id_to_text;

fn at(secs: i64) -> Timestamp {
    Timestamp { secs }
}

fn ids_of(runs: &[JobRunDAO]) -> Vec<i32> {
    runs.iter().map(|r| r.id).collect()
}

fn store_with(n: usize) -> DbConn {
    let mut db = DbConn::new();
    for i in 0..n {
        db.create_job_run(format!("job{i}"), at(100)).unwrap();
    }
    db
}

fn all_runs(db: &DbConn) -> Vec<JobRunDAO> {
    db.list_job_runs_with_filter(None, None, None, false)
}

#[test]
fn create_returns_distinct_ascending_ids() {
    let mut db = DbConn::new();
    let a = db.create_job_run("a".to_string(), at(1)).unwrap();
    let b = db.create_job_run("b".to_string(), at(2)).unwrap();
    let c = db.create_job_run("a".to_string(), at(3)).unwrap();
    assert_eq!((a, b, c), (1, 2, 3));
    let runs = all_runs(&db);
    assert_eq!(ids_of(&runs), vec![1, 2, 3]);
    assert_eq!(runs[2].name, "a");
    assert_eq!(runs[0].stdout, "");
    assert_eq!(runs[0].stderr, "");
    assert_eq!(runs[1].created_at, at(2));
    assert_eq!(runs[1].updated_at, at(2));
}

#[test]
fn ids_are_not_reused_after_cleanup() {
    let mut db = store_with(3);
    assert_eq!(db.cleanup_stale_job_runs(), 3);
    let id = db.create_job_run("again".to_string(), at(5)).unwrap();
    assert_eq!(id, 4);
}

#[test]
fn appends_accumulate_in_order() {
    let mut db = store_with(2);
    db.update_job_stdout(1, "hello ".to_string(), at(101)).unwrap();
    db.update_job_stderr(1, "oops".to_string(), at(102)).unwrap();
    db.update_job_stdout(1, "world".to_string(), at(103)).unwrap();
    db.update_job_stdout(1, String::new(), at(104)).unwrap();
    let runs = all_runs(&db);
    assert_eq!(runs[0].stdout, "hello world");
    assert_eq!(runs[0].stderr, "oops");
    assert_eq!(runs[0].updated_at, at(104));
    assert_eq!(runs[1].stdout, "");
    assert_eq!(runs[1].updated_at, at(100));
}

#[test]
fn update_time_never_goes_back() {
    let mut db = store_with(1);
    db.update_job_stdout(1, "x".to_string(), at(50)).unwrap();
    assert_eq!(all_runs(&db)[0].updated_at, at(100));
}

#[test]
fn unknown_id_is_not_found() {
    let mut db = store_with(1);
    assert_eq!(db.update_job_stdout(9, "x".to_string(), at(1)), Err(DbError::NotFound));
    assert_eq!(db.update_job_stderr(9, "x".to_string(), at(1)), Err(DbError::NotFound));
    assert_eq!(db.update_job_status(9, 0, at(1)), Err(DbError::NotFound));
    assert_eq!(all_runs(&db)[0].stdout, "");
}

#[test]
fn finish_sets_exit_code_and_time() {
    let mut db = store_with(1);
    let before = &all_runs(&db)[0];
    assert_eq!(before.exit_code, None);
    assert_eq!(before.finished_at, None);
    db.update_job_status(1, 3, at(200)).unwrap();
    let after = &all_runs(&db)[0];
    assert_eq!(after.exit_code, Some(3));
    assert_eq!(after.finished_at, Some(at(200)));
    assert_eq!(after.updated_at, at(200));
}

#[test]
fn finish_twice_last_write_wins() {
    let mut db = store_with(1);
    db.update_job_status(1, 1, at(200)).unwrap();
    db.update_job_status(1, 0, at(300)).unwrap();
    let run = &all_runs(&db)[0];
    assert_eq!(run.exit_code, Some(0));
    assert_eq!(run.finished_at, Some(at(300)));
}

#[test]
fn cleanup_removes_only_running() {
    let mut db = store_with(3);
    db.update_job_stdout(1, "done".to_string(), at(101)).unwrap();
    db.update_job_status(1, 0, at(102)).unwrap();
    db.update_job_stdout(2, "busy".to_string(), at(101)).unwrap();
    assert_eq!(db.cleanup_stale_job_runs(), 2);
    let runs = all_runs(&db);
    assert_eq!(ids_of(&runs), vec![1]);
    assert_eq!(runs[0].stdout, "done");
    assert_eq!(runs[0].exit_code, Some(0));
}

#[test]
fn forward_pages() {
    let db = store_with(5);
    assert_eq!(ids_of(&db.list_job_runs_with_filter(None, Some(2), None, false)), vec![1, 2]);
    assert_eq!(ids_of(&db.list_job_runs_with_filter(None, Some(2), Some(2), false)), vec![3, 4]);
    assert_eq!(ids_of(&db.list_job_runs_with_filter(None, Some(2), Some(4), false)), vec![5]);
}

#[test]
fn backward_page_is_ascending() {
    let db = store_with(5);
    assert_eq!(ids_of(&db.list_job_runs_with_filter(None, Some(2), Some(5), true)), vec![3, 4]);
    assert_eq!(ids_of(&db.list_job_runs_with_filter(None, Some(2), None, true)), vec![4, 5]);
    assert_eq!(ids_of(&db.list_job_runs_with_filter(None, None, Some(3), true)), vec![1, 2]);
}

#[test]
fn set_filter_composes() {
    let db = store_with(5);
    let page = db.list_job_runs_with_filter(Some(vec![1, 3, 5]), Some(10), None, false);
    assert_eq!(ids_of(&page), vec![1, 3, 5]);
    let page = db.list_job_runs_with_filter(Some(vec![]), Some(10), None, false);
    assert!(page.is_empty());
    let page = db.list_job_runs_with_filter(Some(vec![5, 1, 3]), Some(1), Some(1), false);
    assert_eq!(ids_of(&page), vec![3]);
}

#[test]
fn limit_zero_and_empty_store() {
    let db = store_with(3);
    assert!(db.list_job_runs_with_filter(None, Some(0), None, false).is_empty());
    let empty = DbConn::new();
    assert!(empty.list_job_runs_with_filter(None, Some(3), Some(1), true).is_empty());
}

#[test]
fn decimal_text_of_ids() {
    assert_eq!(id_to_text(0), "0");
    assert_eq!(id_to_text(42), "42");
    assert_eq!(id_to_text(-7), "-7");
    assert_eq!(id_to_text(i32::MIN), "-2147483648");
    assert_eq!(id_to_text(i32::MAX), "2147483647");
}

#[test]
fn query_text_forward_with_set() {
    let q = list_query(&Some(vec![1, 3, 5]), Some(10), Some(2), false);
    assert_eq!(
        q,
        "SELECT id, job, exit_code, stdout, stderr, created_at, updated_at, end_ts FROM \
         (SELECT * FROM job_runs WHERE id > 2 AND id IN (1, 3, 5) ORDER BY id ASC LIMIT 10) \
         ORDER BY id ASC"
    );
}

#[test]
fn query_text_backward_plain() {
    let q = list_query(&None, None, Some(5), true);
    assert_eq!(
        q,
        "SELECT id, job, exit_code, stdout, stderr, created_at, updated_at, end_ts FROM \
         (SELECT * FROM job_runs WHERE id < 5 ORDER BY id DESC) ORDER BY id ASC"
    );
    let q = list_query(&Some(vec![]), None, None, false);
    assert_eq!(
        q,
        "SELECT id, job, exit_code, stdout, stderr, created_at, updated_at, end_ts FROM \
         (SELECT * FROM job_runs WHERE id IN () ORDER BY id ASC) ORDER BY id ASC"
    );
}

#[test]
fn both_directions_from_cursor_split_listing() {
    let db = store_with(6);
    let set = Some(vec![1, 2, 3, 5, 6]);
    let before = db.list_job_runs_with_filter(set.clone(), None, Some(3), true);
    let after = db.list_job_runs_with_filter(set.clone(), None, Some(3), false);
    let whole = db.list_job_runs_with_filter(set, None, None, false);
    let mut joined = ids_of(&before);
    joined.push(3);
    joined.extend(ids_of(&after));
    assert_eq!(joined, ids_of(&whole));
    assert_eq!(ids_of(&whole), vec![1, 2, 3, 5, 6]);
}
