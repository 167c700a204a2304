use scribe::item::Item;
use scribe::json::JsonValue;
use scribe::transform::{apply_transform, transform_is_safe};

fn make_item(id: i64, name: &str, age: i64) -> Item {
    let mut item = Item::new();
    item.insert("id".to_string(), JsonValue::from_i64(id));
    item.insert("name".to_string(), JsonValue::string(name));
    item.insert("age".to_string(), JsonValue::from_i64(age));
    item
}

fn make_nested_item(id: i64, author_name: &str, author_email: &str) -> Item {
    let mut author = Item::new();
    author.insert("name".to_string(), JsonValue::string(author_name));
    author.insert("email".to_string(), JsonValue::string(author_email));
    let mut item = Item::new();
    item.insert("id".to_string(), JsonValue::from_i64(id));
    item.insert("author".to_string(), JsonValue::object(&author));
    item
}

#[test]
fn test_identity_transform() {
    let items = vec![make_item(1, "Alice", 30), make_item(2, "Bob", 25)];

    let result = apply_transform(items.clone(), "[*]").unwrap();

    assert_eq!(result.len(), 2);
    assert_eq!(result[0].get("name").unwrap(), &JsonValue::string("Alice"));
    assert_eq!(result[1].get("name").unwrap(), &JsonValue::string("Bob"));
}

#[test]
fn test_field_selection() {
    let items = vec![make_item(1, "Alice", 30), make_item(2, "Bob", 25)];

    let result = apply_transform(items, "[*].{id: id, name: name}").unwrap();

    assert_eq!(result.len(), 2);
    assert_eq!(result[0].get("id").unwrap(), &JsonValue::from_i64(1));
    assert_eq!(result[0].get("name").unwrap(), &JsonValue::string("Alice"));
    assert_eq!(result[0].get("age"), None);
}

#[test]
fn test_flatten_nested_object() {
    let items = vec![
        make_nested_item(1, "Alice", "alice@example.com"),
        make_nested_item(2, "Bob", "bob@example.com"),
    ];

    let result = apply_transform(
        items,
        "[*].{id: id, author_name: author.name, author_email: author.email}",
    )
    .unwrap();

    assert_eq!(result.len(), 2);
    assert_eq!(result[0].get("id").unwrap(), &JsonValue::from_i64(1));
    assert_eq!(result[0].get("author_name").unwrap(), &JsonValue::string("Alice"));
    assert_eq!(
        result[0].get("author_email").unwrap(),
        &JsonValue::string("alice@example.com")
    );
    assert_eq!(result[0].get("author"), None);
}

#[test]
fn test_extract_array_element() {
    let mut item = Item::new();
    item.insert("id".to_string(), JsonValue::from_i64(1));
    let tags = vec![
        JsonValue::string("python"),
        JsonValue::string("rust"),
        JsonValue::string("go"),
    ];
    item.insert("tags".to_string(), JsonValue::array(&tags));

    let items = vec![item];

    let result = apply_transform(items, "[*].{id: id, primary_tag: tags[0]}").unwrap();

    assert_eq!(result.len(), 1);
    assert_eq!(result[0].get("id").unwrap(), &JsonValue::from_i64(1));
    assert_eq!(result[0].get("primary_tag").unwrap(), &JsonValue::string("python"));
}

#[test]
fn test_invalid_expression() {
    let items = vec![make_item(1, "Alice", 30)];

    let result = apply_transform(items, "[invalid syntax}}");

    assert!(result.is_err());
    assert!(result
        .unwrap_err()
        .message()
        .contains("Invalid JMESPath expression"));
}

#[test]
fn test_transform_returns_non_array() {
    let items = vec![make_item(1, "Alice", 30)];

    let result = apply_transform(items, "[0]");

    assert!(result.is_err());
    assert!(result
        .unwrap_err()
        .message()
        .contains("must return an array"));
}

#[test]
fn test_transform_returns_non_objects() {
    let items = vec![make_item(1, "Alice", 30)];

    let result = apply_transform(items, "[*].id");

    assert!(result.is_err());
    assert!(result
        .unwrap_err()
        .message()
        .contains("must return array of objects"));
}

#[test]
fn test_empty_array() {
    let items: Vec<Item> = vec![];

    let result = apply_transform(items, "[*].{id: id}").unwrap();

    assert_eq!(result.len(), 0);
}

#[test]
fn test_rename_fields() {
    let items = vec![make_item(1, "Alice", 30)];

    let result = apply_transform(items, "[*].{user_id: id, full_name: name, years: age}").unwrap();

    assert_eq!(result.len(), 1);
    assert_eq!(result[0].get("user_id").unwrap(), &JsonValue::from_i64(1));
    assert_eq!(result[0].get("full_name").unwrap(), &JsonValue::string("Alice"));
    assert_eq!(result[0].get("years").unwrap(), &JsonValue::from_i64(30));
    assert_eq!(result[0].get("id"), None);
    assert_eq!(result[0].get("name"), None);
}

#[test]
fn transform_error_messages_name_the_kind() {
    let items = vec![make_item(1, "Alice", 30)];
    let err = apply_transform(items.clone(), "[0]").unwrap_err();
    assert_eq!(err.message(), "JMESPath expression must return an array, got: object");
    let err = apply_transform(items, "[*].id").unwrap_err();
    assert_eq!(
        err.message(),
        "JMESPath expression must return array of objects, but element 0 is: number"
    );
}

#[test]
fn nested_values_survive_the_identity() {
    let items = vec![make_nested_item(3, "Eve", "eve@example.com")];
    let result = apply_transform(items, "[*]").unwrap();
    assert_eq!(
        result[0].get("author").unwrap().as_text(),
        "{\"email\":\"eve@example.com\",\"name\":\"Eve\"}"
    );
}

#[test]
fn evaluation_errors_are_reported() {
    let items = vec![make_item(1, "Alice", 30)];
    let err = apply_transform(items, "abs(@)").unwrap_err();
    assert_eq!(err.message(), "Failed to apply JMESPath transformation");
}

#[test]
fn large_slice_steps_are_refused_before_evaluation() {
    assert!(!transform_is_safe("[1::2147483647]"));
    assert!(!transform_is_safe("[ 1 : 3 : 1234567890 ]"));
    assert!(transform_is_safe("[1::2]"));
    assert!(transform_is_safe("[0:2147483647]"));
    assert!(transform_is_safe("[*].{id: id, primary_tag: tags[0]}"));
    assert!(transform_is_safe("[?id == `12345678901`]"));
}
