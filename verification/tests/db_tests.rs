use scribe::db::{column_definitions, placeholder_list, schema_statements, Database};
use scribe::hash::compute_content_hash;
use scribe::item::Item;
use scribe::json::JsonValue;
use tempfile::NamedTempFile;

fn make_test_item() -> Item {
    let mut item = Item::new();
    item.insert("id".to_string(), JsonValue::string("1"));
    item.insert("name".to_string(), JsonValue::string("Alice"));
    item.insert("age".to_string(), JsonValue::from_i64(30));
    item
}

#[test]
fn test_sqlite_backend_lifecycle() {
    let temp_file = NamedTempFile::new().unwrap();
    let db_path = temp_file.path().to_str().unwrap();

    let mut db = Database::open(db_path).unwrap();

    let columns = vec!["id".to_string(), "name".to_string(), "age".to_string()];
    db.init_schema(&columns).unwrap();

    assert_eq!(db.get_last_processed_commit().unwrap(), None);

    let mut tx = db.begin_transaction().unwrap();

    let now = chrono::Utc::now().timestamp();
    Database::insert_commit(&mut tx, "abc123", now).unwrap();

    let item = make_test_item();
    Database::insert_item(&mut tx, "item1", "abc123", &columns, &item).unwrap();

    Database::insert_item_version(&mut tx, "item1", "abc123", &columns, &item).unwrap();

    tx.commit().unwrap();

    db.set_last_processed_commit("abc123").unwrap();

    assert_eq!(db.get_last_processed_commit().unwrap(), Some("abc123".to_string()));

    let state = db.load_current_state().unwrap();
    assert!(state.contains_key("item1"));
}

#[test]
fn test_sqlite_backend_update_item() {
    let temp_file = NamedTempFile::new().unwrap();
    let db_path = temp_file.path().to_str().unwrap();

    let mut db = Database::open(db_path).unwrap();
    let columns = vec!["id".to_string(), "name".to_string(), "age".to_string()];
    db.init_schema(&columns).unwrap();

    let mut tx = db.begin_transaction().unwrap();
    let now = chrono::Utc::now().timestamp();
    Database::insert_commit(&mut tx, "commit1", now).unwrap();

    let item1 = make_test_item();
    Database::insert_item(&mut tx, "item1", "commit1", &columns, &item1).unwrap();
    Database::insert_item_version(&mut tx, "item1", "commit1", &columns, &item1).unwrap();
    tx.commit().unwrap();

    let mut tx = db.begin_transaction().unwrap();
    Database::insert_commit(&mut tx, "commit2", now).unwrap();

    let mut item2 = make_test_item();
    item2.insert("age".to_string(), JsonValue::from_i64(31));

    Database::update_item(&mut tx, "item1", "commit2", &columns, &item2).unwrap();
    Database::insert_item_version(&mut tx, "item1", "commit2", &columns, &item2).unwrap();
    tx.commit().unwrap();

    let state = db.load_current_state().unwrap();
    assert_eq!(state.len(), 1);
    assert!(state.contains_key("item1"));
}

#[test]
fn test_sqlite_backend_get_data_columns() {
    let temp_file = NamedTempFile::new().unwrap();
    let db_path = temp_file.path().to_str().unwrap();

    let mut db = Database::open(db_path).unwrap();
    let columns = vec!["id".to_string(), "name".to_string(), "age".to_string()];
    db.init_schema(&columns).unwrap();

    let data_cols = db.get_data_columns().unwrap();
    assert_eq!(data_cols.len(), 3);
    assert!(data_cols.contains(&"id".to_string()));
    assert!(data_cols.contains(&"name".to_string()));
    assert!(data_cols.contains(&"age".to_string()));

    assert!(!data_cols.iter().any(|c| c.starts_with('_')));
}

#[test]
fn stored_items_read_back_with_the_same_content_hash() {
    let temp_file = NamedTempFile::new().unwrap();
    let db_path = temp_file.path().to_str().unwrap();
    let mut db = Database::open(db_path).unwrap();
    let columns = vec!["age".to_string(), "id".to_string(), "name".to_string()];
    db.init_schema(&columns).unwrap();

    let item = make_test_item();
    let mut tx = db.begin_transaction().unwrap();
    Database::insert_commit(&mut tx, "c1", 0).unwrap();
    Database::insert_item(&mut tx, "item1", "c1", &columns, &item).unwrap();
    tx.commit().unwrap();
    let state = db.load_current_state().unwrap();
    assert_eq!(state.get("item1"), Some(&compute_content_hash(&item)));

    let mut changed = make_test_item();
    changed.insert("name".to_string(), JsonValue::string("Bob"));
    let mut tx = db.begin_transaction().unwrap();
    Database::insert_commit(&mut tx, "c2", 1).unwrap();
    Database::update_item(&mut tx, "item1", "c2", &columns, &changed).unwrap();
    tx.commit().unwrap();
    let state = db.load_current_state().unwrap();
    assert_eq!(state.get("item1"), Some(&compute_content_hash(&changed)));
}

#[test]
fn no_commit_recorded_before_the_schema_exists() {
    let temp_file = NamedTempFile::new().unwrap();
    let db = Database::open(temp_file.path().to_str().unwrap()).unwrap();
    assert_eq!(db.get_last_processed_commit().unwrap(), None);
}

#[test]
fn schema_statements_quote_each_column() {
    let cols = vec!["a".to_string(), "b c".to_string()];
    assert_eq!(column_definitions(&cols), "\"a\" TEXT, \"b c\" TEXT");
    assert_eq!(placeholder_list(4), "?1, ?2, ?3, ?4");
    let stmts = schema_statements(&cols);
    assert!(stmts.iter().any(|s| s.contains("CREATE TABLE IF NOT EXISTS items")
        && s.contains("\"a\" TEXT, \"b c\" TEXT")));
}

#[test]
fn last_processed_commit_advances_only_with_the_transaction() {
    let temp_file = NamedTempFile::new().unwrap();
    let mut db = Database::open(temp_file.path().to_str().unwrap()).unwrap();
    let columns = vec!["id".to_string()];
    db.init_schema(&columns).unwrap();

    {
        let mut tx = db.begin_transaction().unwrap();
        Database::insert_commit(&mut tx, "c1", 0).unwrap();
        tx.set_last_processed_commit("c1").unwrap();
        // dropped without commit: rolled back
    }
    assert_eq!(db.get_last_processed_commit().unwrap(), None);

    let mut tx = db.begin_transaction().unwrap();
    Database::insert_commit(&mut tx, "c1", 0).unwrap();
    tx.set_last_processed_commit("c1").unwrap();
    tx.commit().unwrap();
    assert_eq!(db.get_last_processed_commit().unwrap(), Some("c1".to_string()));
}

#[test]
fn schema_can_be_created_twice() {
    let temp_file = NamedTempFile::new().unwrap();
    let mut db = Database::open(temp_file.path().to_str().unwrap()).unwrap();
    let columns = vec!["id".to_string(), "name".to_string()];
    db.init_schema(&columns).unwrap();
    db.init_schema(&columns).unwrap();
    assert_eq!(db.get_data_columns().unwrap(), columns);
}

#[test]
fn missing_columns_are_stored_as_null() {
    let temp_file = NamedTempFile::new().unwrap();
    let mut db = Database::open(temp_file.path().to_str().unwrap()).unwrap();
    let columns = vec!["a".to_string(), "b".to_string()];
    db.init_schema(&columns).unwrap();
    let mut item = Item::new();
    item.insert("a".to_string(), JsonValue::from_i64(1));
    let mut tx = db.begin_transaction().unwrap();
    Database::insert_commit(&mut tx, "c1", 0).unwrap();
    Database::insert_item(&mut tx, "k", "c1", &columns, &item).unwrap();
    tx.commit().unwrap();
    let mut read_back = item.clone();
    read_back.insert("b".to_string(), JsonValue::null());
    let state = db.load_current_state().unwrap();
    assert_eq!(state.get("k"), Some(&compute_content_hash(&read_back)));
}

#[test]
fn opening_in_a_missing_directory_fails() {
    let dir = tempfile::tempdir().unwrap();
    let path = dir.path().join("missing").join("history.db");
    let err = Database::open(path.to_str().unwrap()).err().unwrap();
    assert!(!err.message().is_empty());
}
