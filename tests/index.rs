use jv::index::{index, ref_query, resolve_query, Index};
use jv::tokenize::{parse_json, JsonValue};

fn sample() -> JsonValue {
    JsonValue::Object(vec![
        (
            "a".to_string(),
            JsonValue::Array(vec![
                JsonValue::Number("1".to_string()),
                JsonValue::Number("2".to_string()),
                JsonValue::Object(vec![("b".to_string(), JsonValue::Null)]),
            ]),
        ),
        ("c".to_string(), JsonValue::String("#/a/1".to_string())),
    ])
}

#[test]
fn index_has_one_entry_per_value() {
    let lines = parse_json(sample()).unwrap();
    let idx = index(&lines);
    assert_eq!(idx.len(), 7);
    assert_eq!(idx.get("#"), Some((0, 0)));
    assert_eq!(idx.get("#/a"), Some((1, 9)));
    assert_eq!(idx.get("#/a/0"), Some((2, 8)));
    assert_eq!(idx.get("#/a/1"), Some((3, 8)));
    assert_eq!(idx.get("#/a/2"), Some((4, 8)));
    assert_eq!(idx.get("#/a/2/b"), Some((5, 17)));
    assert_eq!(idx.get("#/c"), Some((8, 9)));
    assert_eq!(idx.get("#/d"), None);
}

#[test]
fn root_query_leads_to_the_corner() {
    let lines = parse_json(sample()).unwrap();
    let idx = index(&lines);
    assert_eq!(resolve_query(&idx, "#/"), Some((0, 0)));
    assert_eq!(resolve_query(&idx, "#/a/1/"), Some((3, 8)));
    assert_eq!(resolve_query(&idx, "#/a//"), None);
    assert_eq!(resolve_query(&idx, "#/nope"), None);
}

#[test]
fn scalar_document_is_its_own_root() {
    let lines = parse_json(JsonValue::Bool(true)).unwrap();
    let idx = index(&lines);
    assert_eq!(idx.len(), 1);
    assert_eq!(resolve_query(&idx, "#/"), Some((0, 0)));
}

#[test]
fn array_root_indexes_elements() {
    let lines = parse_json(JsonValue::Array(vec![
        JsonValue::Null,
        JsonValue::Array(vec![]),
        JsonValue::Bool(false),
    ]))
    .unwrap();
    let idx = index(&lines);
    assert_eq!(idx.len(), 4);
    assert_eq!(idx.get("#/0"), Some((1, 4)));
    assert_eq!(idx.get("#/1"), Some((2, 4)));
    assert_eq!(idx.get("#/2"), Some((3, 4)));
}

#[test]
fn empty_index_finds_nothing() {
    let idx = Index::new();
    assert_eq!(idx.len(), 0);
    assert_eq!(resolve_query(&idx, "#/"), None);
}

#[test]
fn reference_under_the_cursor_is_a_query() {
    let lines = parse_json(sample()).unwrap();
    assert_eq!(ref_query(&lines[8], 9), Some("#/a/1".to_string()));
    assert_eq!(ref_query(&lines[8], 15), Some("#/a/1".to_string()));
    assert_eq!(ref_query(&lines[8], 4), None);
    assert_eq!(ref_query(&lines[8], 16), None);
    assert_eq!(ref_query(&lines[2], 8), None);
}

#[test]
fn member_after_nested_array_keeps_its_path() {
    let value = JsonValue::Object(vec![
        (
            "a".to_string(),
            JsonValue::Array(vec![JsonValue::Array(vec![JsonValue::Number("1".to_string())])]),
        ),
        ("b".to_string(), JsonValue::Number("2".to_string())),
    ]);
    let lines = parse_json(value).unwrap();
    let idx = index(&lines);
    assert_eq!(idx.get("#/a"), Some((1, 9)));
    assert_eq!(idx.get("#/a/0"), Some((2, 8)));
    assert_eq!(idx.get("#/a/0/0"), Some((3, 12)));
    assert_eq!(idx.get("#/b"), Some((6, 9)));
    assert_eq!(idx.get("#/ab"), None);
}

#[test]
fn member_after_empty_object_keeps_its_path() {
    let value = JsonValue::Object(vec![
        ("a".to_string(), JsonValue::Object(vec![])),
        ("b".to_string(), JsonValue::Object(vec![("c".to_string(), JsonValue::Null)])),
    ]);
    let lines = parse_json(value).unwrap();
    let idx = index(&lines);
    assert_eq!(idx.get("#/a"), Some((1, 9)));
    assert_eq!(idx.get("#/b"), Some((2, 9)));
    assert_eq!(idx.get("#/b/c"), Some((3, 13)));
}
