use scribe::format::FileFormat;
use scribe::item::Item;
use scribe::json::JsonValue;
use scribe::parser::{extract_columns, parse_csv, parse_file, parse_file_with_transform, parse_json};

/// Reads a CSV field as a floating-point number, as `str::parse::<f64>`
/// does, and gives its JSON text (0 where JSON has no such number).
fn float_number(s: &str) -> Option<String> {
    s.parse::<f64>().ok().map(|f| {
        serde_json::Number::from_f64(f)
            .unwrap_or_else(|| serde_json::Number::from(0))
            .to_string()
    })
}

#[test]
fn test_parse_json_array() {
    let json = r#"[
            {"id": 1, "name": "Alice"},
            {"id": 2, "name": "Bob"}
        ]"#;

    let items = parse_json(json.as_bytes()).unwrap();
    assert_eq!(items.len(), 2);
    assert_eq!(items[0].get("name"), Some(&JsonValue::string("Alice")));
}

#[test]
fn test_parse_csv() {
    let csv = "id,name,age\n1,Alice,30\n2,Bob,25";

    let items = parse_csv(csv.as_bytes(), &float_number).unwrap();
    assert_eq!(items.len(), 2);
    assert_eq!(items[0].get("name"), Some(&JsonValue::string("Alice")));
    assert_eq!(items[0].get("age"), Some(&JsonValue::from_i64(30)));
}

#[test]
fn test_extract_columns() {
    let mut item1 = Item::new();
    item1.insert("id".to_string(), JsonValue::from_i64(1));
    item1.insert("name".to_string(), JsonValue::string("Alice"));

    let mut item2 = Item::new();
    item2.insert("id".to_string(), JsonValue::from_i64(2));
    item2.insert("age".to_string(), JsonValue::from_i64(30));

    let items = vec![item1, item2];
    let columns = extract_columns(&items);

    assert_eq!(columns.len(), 3);
    assert!(columns.contains(&"id".to_string()));
    assert!(columns.contains(&"name".to_string()));
    assert!(columns.contains(&"age".to_string()));
}

#[test]
fn extract_columns_are_sorted_and_unique() {
    let mut item1 = Item::new();
    item1.insert("b".to_string(), JsonValue::null());
    item1.insert("a".to_string(), JsonValue::null());
    let mut item2 = Item::new();
    item2.insert("c".to_string(), JsonValue::null());
    item2.insert("a".to_string(), JsonValue::null());
    let columns = extract_columns(&vec![item1, item2]);
    assert_eq!(columns, vec!["a".to_string(), "b".to_string(), "c".to_string()]);
    assert!(extract_columns(&Vec::new()).is_empty());
}

#[test]
fn json_values_keep_their_json_text() {
    let json = r#"[{"id": 7, "tags": ["x", "y"], "nested": {"k": true}, "none": null, "s": "a\"b"}]"#;
    let items = parse_json(json.as_bytes()).unwrap();
    assert_eq!(items.len(), 1);
    let item = &items[0];
    assert_eq!(item.len(), 5);
    assert_eq!(item.get("id").unwrap().as_text(), "7");
    assert_eq!(item.get("tags").unwrap().as_text(), "[\"x\",\"y\"]");
    assert_eq!(item.get("nested").unwrap().as_text(), "{\"k\":true}");
    assert_eq!(item.get("none").unwrap().as_text(), "null");
    assert_eq!(item.get("s").unwrap().as_text(), "\"a\\\"b\"");
    assert_eq!(item.keys(), vec!["id", "nested", "none", "s", "tags"]);
}

#[test]
fn json_content_must_be_utf8() {
    let err = parse_json(&[0xff, 0xfe]).unwrap_err();
    assert_eq!(err.message(), "File content is not valid UTF-8");
}

#[test]
fn json_content_must_parse() {
    let err = parse_json(b"[{\"id\": 1").unwrap_err();
    assert_eq!(err.message(), "Failed to parse JSON");
}

#[test]
fn json_root_must_be_an_array() {
    let err = parse_json(b"{\"id\": 1}").unwrap_err();
    assert_eq!(err.message(), "JSON root element must be an array of objects. Got: object");
    let err = parse_json(b"\"text\"").unwrap_err();
    assert_eq!(err.message(), "JSON root element must be an array of objects. Got: string");
    let err = parse_json(b"42").unwrap_err();
    assert_eq!(err.message(), "JSON root element must be an array of objects. Got: number");
    let err = parse_json(b"true").unwrap_err();
    assert_eq!(err.message(), "JSON root element must be an array of objects. Got: boolean");
    let err = parse_json(b"null").unwrap_err();
    assert_eq!(err.message(), "JSON root element must be an array of objects. Got: null");
}

#[test]
fn json_elements_must_be_objects() {
    let err = parse_json(b"[{\"id\": 1}, 2]").unwrap_err();
    assert_eq!(
        err.message(),
        "JSON array item at index 1 is not an object. Expected array of objects."
    );
}

#[test]
fn csv_fields_become_typed_values() {
    let csv = "i,f,t,e,s\n-12,1.5,true,,hello\n";
    let items = parse_csv(csv.as_bytes(), &float_number).unwrap();
    assert_eq!(items.len(), 1);
    let item = &items[0];
    assert_eq!(item.get("i").unwrap().as_text(), "-12");
    assert_eq!(item.get("f").unwrap().as_text(), "1.5");
    assert_eq!(item.get("t").unwrap().as_text(), "true");
    assert_eq!(item.get("e").unwrap().as_text(), "null");
    assert_eq!(item.get("s").unwrap().as_text(), "\"hello\"");
}

#[test]
fn csv_short_record_is_an_error() {
    let csv = "a,b\n1,2\n3\n";
    let err = parse_csv(csv.as_bytes(), &float_number).unwrap_err();
    assert_eq!(err.message(), "Failed to read CSV record at row 3");
}

#[test]
fn parse_file_dispatches_on_format() {
    let json = parse_file(b"[{\"a\": 1}]", FileFormat::Json, &float_number).unwrap();
    assert_eq!(json[0].get("a").unwrap().as_text(), "1");
    let csv = parse_file(b"a\n1\n", FileFormat::Csv, &float_number).unwrap();
    assert_eq!(csv[0].get("a").unwrap().as_text(), "1");
}

#[test]
fn parse_file_applies_transform() {
    let items = parse_file_with_transform(
        b"[{\"id\": 1, \"name\": \"Alice\"}]",
        FileFormat::Json,
        Some("[*].{key: id}"),
        &float_number,
    )
    .unwrap();
    assert_eq!(items.len(), 1);
    assert_eq!(items[0].keys(), vec!["key"]);
    assert_eq!(items[0].get("key").unwrap().as_text(), "1");
}

#[test]
fn format_comes_from_the_extension() {
    assert_eq!(FileFormat::from_path("data/users.json").unwrap(), FileFormat::Json);
    assert_eq!(FileFormat::from_path("logs/metrics.csv").unwrap(), FileFormat::Csv);
    let err = FileFormat::from_path("notes.txt").unwrap_err();
    assert_eq!(
        err.message(),
        "Unsupported file format. Only .json and .csv files are supported. Got: notes.txt"
    );
}

#[test]
fn extract_columns_does_not_depend_on_item_order() {
    let mut a = Item::new();
    a.insert("z".to_string(), JsonValue::null());
    a.insert("m".to_string(), JsonValue::null());
    let mut b = Item::new();
    b.insert("b".to_string(), JsonValue::null());
    let first = extract_columns(&vec![a.clone(), b.clone()]);
    let second = extract_columns(&vec![b, a]);
    assert_eq!(first, second);
    assert_eq!(first, vec!["b".to_string(), "m".to_string(), "z".to_string()]);
}

#[test]
fn csv_headers_must_be_readable() {
    let err = parse_csv(&[0xff, 0xfe, b'\n', b'1', b'\n'], &float_number).unwrap_err();
    assert_eq!(err.message(), "Failed to read CSV headers");
}
