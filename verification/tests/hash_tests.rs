use scribe::hash::{compute_content_hash, compute_primary_key_hash};
use scribe::item::Item;
use scribe::json::JsonValue;

fn item_of(fields: &[(&str, JsonValue)]) -> Item {
    let mut item = Item::new();
    for (k, v) in fields {
        item.insert(k.to_string(), v.clone());
    }
    item
}

#[test]
fn test_primary_key_hash_consistency() {
    let mut item1 = Item::new();
    item1.insert("id".to_string(), JsonValue::from_i64(123));
    item1.insert("name".to_string(), JsonValue::string("test"));

    let mut item2 = Item::new();
    item2.insert("name".to_string(), JsonValue::string("test"));
    item2.insert("id".to_string(), JsonValue::from_i64(123));

    let keys = vec!["id".to_string()];
    let hash1 = compute_primary_key_hash(&keys, &item1).unwrap();
    let hash2 = compute_primary_key_hash(&keys, &item2).unwrap();

    assert_eq!(hash1, hash2, "Hashes should be consistent regardless of insertion order");
}

#[test]
fn test_content_hash_detects_changes() {
    let mut item1 = Item::new();
    item1.insert("id".to_string(), JsonValue::from_i64(123));
    item1.insert("value".to_string(), JsonValue::string("a"));

    let mut item2 = Item::new();
    item2.insert("id".to_string(), JsonValue::from_i64(123));
    item2.insert("value".to_string(), JsonValue::string("b"));

    let hash1 = compute_content_hash(&item1);
    let hash2 = compute_content_hash(&item2);

    assert_ne!(hash1, hash2, "Content hash should change when values change");
}

#[test]
fn primary_key_hash_is_sha256_of_key_and_value() {
    let item = item_of(&[("id", JsonValue::from_i64(123)), ("name", JsonValue::string("test"))]);
    let keys = vec!["id".to_string()];
    assert_eq!(
        compute_primary_key_hash(&keys, &item).unwrap(),
        "f5fd6b7129f71c9a897175c6bb3f1e0ee164fe455f3e40d8597a05dd258e9e2d"
    );
}

#[test]
fn composite_key_hash_ignores_key_order() {
    let item = item_of(&[("id", JsonValue::from_i64(123)), ("name", JsonValue::string("test"))]);
    let a = vec!["id".to_string(), "name".to_string()];
    let b = vec!["name".to_string(), "id".to_string()];
    let ha = compute_primary_key_hash(&a, &item).unwrap();
    let hb = compute_primary_key_hash(&b, &item).unwrap();
    assert_eq!(ha, hb);
    assert_eq!(ha, "90aa7858b301b29d2fc3c94d9e52ebc36647f906dcb5153cf8ff92e51c4ebbf2");
}

#[test]
fn missing_primary_key_is_reported() {
    let item = item_of(&[("id", JsonValue::from_i64(1))]);
    let keys = vec!["zzz".to_string(), "id".to_string(), "abc".to_string()];
    let err = compute_primary_key_hash(&keys, &item).unwrap_err();
    assert_eq!(err.message(), "Primary key column 'abc' not found in item");
}

#[test]
fn content_hash_is_sha256_of_sorted_fields() {
    let item = item_of(&[("value", JsonValue::string("a")), ("id", JsonValue::from_i64(123))]);
    assert_eq!(
        compute_content_hash(&item),
        "b72a9cd93f23f1e5ba269bc10f2885eb74a3a1562e35f1a4227f98a9c469206a"
    );
}

#[test]
fn content_hash_ignores_insertion_order() {
    let a = item_of(&[("id", JsonValue::from_i64(123)), ("name", JsonValue::string("test"))]);
    let b = item_of(&[("name", JsonValue::string("test")), ("id", JsonValue::from_i64(123))]);
    assert_eq!(compute_content_hash(&a), compute_content_hash(&b));
    assert_eq!(
        compute_content_hash(&a),
        "90aa7858b301b29d2fc3c94d9e52ebc36647f906dcb5153cf8ff92e51c4ebbf2"
    );
}

#[test]
fn primary_key_hash_ignores_other_fields() {
    let before = item_of(&[("id", JsonValue::from_i64(7)), ("name", JsonValue::string("Alice"))]);
    let after = item_of(&[("id", JsonValue::from_i64(7)), ("name", JsonValue::string("Alicia")), ("age", JsonValue::from_i64(3))]);
    let keys = vec!["id".to_string()];
    assert_eq!(
        compute_primary_key_hash(&keys, &before).unwrap(),
        compute_primary_key_hash(&keys, &after).unwrap()
    );
    assert_ne!(compute_content_hash(&before), compute_content_hash(&after));
}

#[test]
fn hashes_are_64_lower_case_hex_digits() {
    let item = item_of(&[("id", JsonValue::from_i64(5)), ("name", JsonValue::string("x"))]);
    let keys = vec!["id".to_string()];
    for h in [compute_content_hash(&item), compute_primary_key_hash(&keys, &item).unwrap()] {
        assert_eq!(h.len(), 64);
        assert!(h.chars().all(|c| c.is_ascii_digit() || ('a'..='f').contains(&c)));
    }
}

#[test]
fn content_hash_is_primary_key_hash_over_every_column() {
    let item = item_of(&[("name", JsonValue::string("x")), ("id", JsonValue::from_i64(5)), ("age", JsonValue::null())]);
    let keys = item.keys();
    assert_eq!(compute_content_hash(&item), compute_primary_key_hash(&keys, &item).unwrap());
}
