use scribe::db::Database;
use scribe::format::FileFormat;
use scribe::git::CommitInfo;
use scribe::processor::{process_history, ItemAction};
use tempfile::NamedTempFile;

fn float_text(s: &str) -> Option<String> {
    s.parse::<f64>().ok().map(|f| {
        serde_json::Number::from_f64(f)
            .unwrap_or_else(|| serde_json::Number::from(0))
            .to_string()
    })
}

fn commit(hash: &str, timestamp: i64, content: &str) -> CommitInfo {
    CommitInfo { hash: hash.to_string(), timestamp, blob_content: content.as_bytes().to_vec() }
}

fn history() -> Vec<CommitInfo> {
    vec![
        commit("c1", 1_700_000_000, r#"[{"id": 1, "name": "Alice"}, {"id": 2, "name": "Bob"}]"#),
        commit(
            "c2",
            1_700_000_100,
            r#"[{"id": 1, "name": "Alice"}, {"id": 2, "name": "Robert"}, {"id": 3, "name": "Carol"}]"#,
        ),
    ]
}

#[test]
fn new_changed_and_unchanged_items_are_told_apart() {
    let temp_file = NamedTempFile::new().unwrap();
    let mut db = Database::open(temp_file.path().to_str().unwrap()).unwrap();
    let keys = vec!["id".to_string()];
    let report = process_history(&mut db, history(), &keys, FileFormat::Json, None, &float_text)
        .unwrap()
        .unwrap();
    assert_eq!(report.commits.len(), 2);
    assert_eq!(report.commits[0].hash, "c1");
    assert_eq!(report.commits[0].actions, vec![ItemAction::New, ItemAction::New]);
    assert_eq!(report.commits[1].hash, "c2");
    assert_eq!(
        report.commits[1].actions,
        vec![ItemAction::Unchanged, ItemAction::Changed, ItemAction::New]
    );
    assert_eq!(report.commits[1].count(ItemAction::Unchanged), 1);
    assert_eq!(report.commits[1].count(ItemAction::Changed), 1);
    assert_eq!(report.commits[1].count(ItemAction::New), 1);
    assert_eq!(report.tracked_items, 3);
    assert_eq!(db.get_last_processed_commit().unwrap(), Some("c2".to_string()));
    let state = db.load_current_state().unwrap();
    assert_eq!(state.len(), 3);
}

#[test]
fn processing_again_finds_nothing_new() {
    let temp_file = NamedTempFile::new().unwrap();
    let mut db = Database::open(temp_file.path().to_str().unwrap()).unwrap();
    let keys = vec!["id".to_string()];
    process_history(&mut db, history(), &keys, FileFormat::Json, None, &float_text).unwrap();
    let last = history().pop().unwrap();
    let again = process_history(&mut db, vec![last], &keys, FileFormat::Json, None, &float_text)
        .unwrap()
        .unwrap();
    assert_eq!(again.commits.len(), 1);
    assert_eq!(
        again.commits[0].actions,
        vec![ItemAction::Unchanged, ItemAction::Unchanged, ItemAction::Unchanged]
    );
    assert_eq!(again.tracked_items, 3);
}

#[test]
fn no_commits_means_nothing_to_do() {
    let temp_file = NamedTempFile::new().unwrap();
    let mut db = Database::open(temp_file.path().to_str().unwrap()).unwrap();
    let keys = vec!["id".to_string()];
    let r = process_history(&mut db, Vec::new(), &keys, FileFormat::Json, None, &float_text).unwrap();
    assert!(r.is_none());
    assert_eq!(db.get_last_processed_commit().unwrap(), None);
}

#[test]
fn unreadable_commit_is_named_in_the_error() {
    let temp_file = NamedTempFile::new().unwrap();
    let mut db = Database::open(temp_file.path().to_str().unwrap()).unwrap();
    let keys = vec!["id".to_string()];
    let mut commits = history();
    commits.push(commit("0123456789abcdef0123456789abcdef01234567", 1_700_000_200, "not json"));
    let err = process_history(&mut db, commits, &keys, FileFormat::Json, None, &float_text).err().unwrap();
    assert_eq!(err.message(), "Failed to parse file content in commit 01234567");
    assert_eq!(db.get_last_processed_commit().unwrap(), None);
}

#[test]
fn missing_primary_key_stops_processing() {
    let temp_file = NamedTempFile::new().unwrap();
    let mut db = Database::open(temp_file.path().to_str().unwrap()).unwrap();
    let keys = vec!["id".to_string()];
    let commits = vec![commit("c1", 0, r#"[{"name": "Alice"}]"#)];
    let err = process_history(&mut db, commits, &keys, FileFormat::Json, None, &float_text).err().unwrap();
    assert_eq!(err.message(), "Primary key column 'id' not found in item");
}

#[test]
fn csv_history_with_composite_key() {
    let temp_file = NamedTempFile::new().unwrap();
    let mut db = Database::open(temp_file.path().to_str().unwrap()).unwrap();
    let keys = vec!["ts".to_string(), "server".to_string()];
    let commits = vec![
        commit("c1", 10, "ts,server,load\n1,a,0.5\n1,b,0.7\n"),
        commit("c2", 20, "ts,server,load\n1,a,0.5\n1,b,0.9\n"),
    ];
    let report = process_history(&mut db, commits, &keys, FileFormat::Csv, None, &float_text)
        .unwrap()
        .unwrap();
    assert_eq!(report.commits[0].actions, vec![ItemAction::New, ItemAction::New]);
    assert_eq!(report.commits[1].actions, vec![ItemAction::Unchanged, ItemAction::Changed]);
    assert_eq!(report.tracked_items, 2);
}

#[test]
fn versions_are_written_for_new_and_changed_items_only() {
    let temp_file = NamedTempFile::new().unwrap();
    let path = temp_file.path().to_str().unwrap().to_string();
    let mut db = Database::open(&path).unwrap();
    let keys = vec!["id".to_string()];
    process_history(&mut db, history(), &keys, FileFormat::Json, None, &float_text).unwrap();
    drop(db);
    let conn = rusqlite::Connection::open(&path).unwrap();
    let versions: i64 = conn.query_row("SELECT COUNT(*) FROM item_versions", [], |r| r.get(0)).unwrap();
    let items: i64 = conn.query_row("SELECT COUNT(*) FROM items", [], |r| r.get(0)).unwrap();
    let commits: i64 = conn.query_row("SELECT COUNT(*) FROM commits", [], |r| r.get(0)).unwrap();
    let c2_versions: i64 = conn
        .query_row("SELECT COUNT(*) FROM item_versions WHERE _commit_hash = 'c2'", [], |r| r.get(0))
        .unwrap();
    let bob: String = conn
        .query_row("SELECT name FROM items WHERE id = '2'", [], |r| r.get(0))
        .unwrap();
    assert_eq!(versions, 4);
    assert_eq!(c2_versions, 2);
    assert_eq!(items, 3);
    assert_eq!(commits, 2);
    assert_eq!(bob, "\"Robert\"");
}

#[test]
fn two_runs_record_what_one_run_records() {
    let keys = vec!["id".to_string()];
    let one = NamedTempFile::new().unwrap();
    let one_path = one.path().to_str().unwrap().to_string();
    let mut db = Database::open(&one_path).unwrap();
    process_history(&mut db, history(), &keys, FileFormat::Json, None, &float_text).unwrap();
    drop(db);

    let two = NamedTempFile::new().unwrap();
    let two_path = two.path().to_str().unwrap().to_string();
    let mut db = Database::open(&two_path).unwrap();
    let mut h = history();
    let second = h.pop().unwrap();
    process_history(&mut db, h, &keys, FileFormat::Json, None, &float_text).unwrap();
    let report = process_history(&mut db, vec![second], &keys, FileFormat::Json, None, &float_text)
        .unwrap()
        .unwrap();
    assert_eq!(
        report.commits[0].actions,
        vec![ItemAction::Unchanged, ItemAction::Changed, ItemAction::New]
    );
    assert_eq!(db.get_last_processed_commit().unwrap(), Some("c2".to_string()));
    drop(db);

    let rows = |path: &str| -> Vec<(String, String, String)> {
        let conn = rusqlite::Connection::open(path).unwrap();
        let mut stmt = conn
            .prepare("SELECT _item_pk, _commit_hash, name FROM item_versions ORDER BY _version_id")
            .unwrap();
        let r = stmt
            .query_map([], |r| Ok((r.get(0)?, r.get(1)?, r.get(2)?)))
            .unwrap()
            .map(|x| x.unwrap())
            .collect();
        r
    };
    assert_eq!(rows(&one_path), rows(&two_path));
}
