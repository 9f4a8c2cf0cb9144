use jv::json::{JsonLine, JsonToken, JsonTokenTag};
use jv::line::Line;
use jv::tokenize::{parse_json, parse_json_lines, JsonValue};

fn s(text: &str) -> String {
    text.to_string()
}

fn num(text: &str) -> JsonValue {
    JsonValue::Number(s(text))
}

fn member(key: &str, value: JsonValue) -> (String, JsonValue) {
    (s(key), value)
}

fn rendered(lines: &[JsonLine]) -> Vec<String> {
    lines.iter().map(|l| l.render(0, 200)).collect()
}

#[test]
fn test_parse_json_primitive() {
    let value = JsonValue::Object(vec![
        member("empty-array", JsonValue::Array(vec![])),
        member("empty-object", JsonValue::Object(vec![])),
        member("name", JsonValue::String(s("mattors"))),
        member("ref1", JsonValue::String(s("#/ciaomondo/23"))),
        member("private", JsonValue::Bool(true)),
    ]);

    let expected = vec![
        JsonLine::new(vec![JsonToken::object_start()]),
        JsonLine::new(vec![
            JsonToken::ws(4),
            JsonToken::object_key("empty-array".to_string()).unwrap(),
            JsonToken::colon(),
            JsonToken::ws(1),
            JsonToken::array_start(),
            JsonToken::array_end(),
            JsonToken::comma(),
        ]),
        JsonLine::new(vec![
            JsonToken::ws(4),
            JsonToken::object_key("empty-object".to_string()).unwrap(),
            JsonToken::colon(),
            JsonToken::ws(1),
            JsonToken::object_start(),
            JsonToken::object_end(),
            JsonToken::comma(),
        ]),
        JsonLine::new(vec![
            JsonToken::ws(4),
            JsonToken::object_key("name".to_string()).unwrap(),
            JsonToken::colon(),
            JsonToken::ws(1),
            JsonToken::string("mattors".to_string()).unwrap(),
            JsonToken::comma(),
        ]),
        JsonLine::new(vec![
            JsonToken::ws(4),
            JsonToken::object_key("private".to_string()).unwrap(),
            JsonToken::colon(),
            JsonToken::ws(1),
            JsonToken::bool(true),
            JsonToken::comma(),
        ]),
        JsonLine::new(vec![
            JsonToken::ws(4),
            JsonToken::object_key("ref1".to_string()).unwrap(),
            JsonToken::colon(),
            JsonToken::ws(1),
            JsonToken::string("#/ciaomondo/23".to_string()).unwrap(),
        ]),
        JsonLine::new(vec![JsonToken::object_end()]),
    ];

    let lines = parse_json_lines(&value, 0).unwrap();

    assert_eq!(lines.len(), expected.len());
    for (i, (g, e)) in lines.into_iter().zip(expected.into_iter()).enumerate() {
        assert_eq!(g, e, "line #{} differ", i);
    }
}

#[test]
fn test_parse_simple_array() {
    let value = JsonValue::Array(vec![num("1"), JsonValue::Null, JsonValue::Bool(true)]);

    let expected = vec![
        JsonLine::new(vec![JsonToken::array_start()]),
        JsonLine::new(vec![
            JsonToken::ws(4),
            JsonToken::number("1".to_string()).unwrap(),
            JsonToken::comma(),
        ]),
        JsonLine::new(vec![JsonToken::ws(4), JsonToken::null(), JsonToken::comma()]),
        JsonLine::new(vec![JsonToken::ws(4), JsonToken::bool(true)]),
        JsonLine::new(vec![JsonToken::array_end()]),
    ];

    let lines = parse_json_lines(&value, 0).unwrap();

    assert_eq!(lines.len(), expected.len());
    for (i, (g, e)) in lines.into_iter().zip(expected.into_iter()).enumerate() {
        assert_eq!(g, e, "line #{} differ", i);
    }
}

#[test]
fn test_parse_nested_json() {
    let value = JsonValue::Object(vec![member(
        "a",
        JsonValue::Array(vec![
            num("1"),
            num("2"),
            num("3"),
            JsonValue::Object(vec![member("hello-world", JsonValue::Null)]),
        ]),
    )]);

    let expected = vec![
        JsonLine::new(vec![JsonToken::object_start()]),
        JsonLine::new(vec![
            JsonToken::ws(4),
            JsonToken::object_key("a".to_string()).unwrap(),
            JsonToken::colon(),
            JsonToken::ws(1),
            JsonToken::array_start(),
        ]),
        JsonLine::new(vec![
            JsonToken::ws(8),
            JsonToken::number("1".to_string()).unwrap(),
            JsonToken::comma(),
        ]),
        JsonLine::new(vec![
            JsonToken::ws(8),
            JsonToken::number("2".to_string()).unwrap(),
            JsonToken::comma(),
        ]),
        JsonLine::new(vec![
            JsonToken::ws(8),
            JsonToken::number("3".to_string()).unwrap(),
            JsonToken::comma(),
        ]),
        JsonLine::new(vec![JsonToken::ws(8), JsonToken::object_start()]),
        JsonLine::new(vec![
            JsonToken::ws(12),
            JsonToken::object_key("hello-world".to_string()).unwrap(),
            JsonToken::colon(),
            JsonToken::ws(1),
            JsonToken::null(),
        ]),
        JsonLine::new(vec![JsonToken::ws(8), JsonToken::object_end()]),
        JsonLine::new(vec![JsonToken::ws(4), JsonToken::array_end()]),
        JsonLine::new(vec![JsonToken::object_end()]),
    ];

    let lines = parse_json_lines(&value, 0).unwrap();

    assert_eq!(lines.len(), expected.len());
    for (i, (g, e)) in lines.into_iter().zip(expected.into_iter()).enumerate() {
        assert_eq!(g, e, "line #{} differ", i);
    }
}

#[test]
fn array_lines_render_as_pretty_printed() {
    let value = JsonValue::Array(vec![num("1"), JsonValue::Null, JsonValue::Bool(true)]);
    let lines = parse_json(value).unwrap();
    assert_eq!(rendered(&lines), vec!["[", "    1,", "    null,", "    true", "]"]);
}

#[test]
fn object_members_come_in_key_order() {
    let value = JsonValue::Object(vec![member("b", num("1")), member("a", num("2"))]);
    let lines = parse_json(value).unwrap();
    assert_eq!(rendered(&lines), vec!["{", "    \"a\": 2,", "    \"b\": 1", "}"]);
}

#[test]
fn keys_sort_by_character_code() {
    let value = JsonValue::Object(vec![
        member("b", JsonValue::Null),
        member("B", JsonValue::Null),
        member("ab", JsonValue::Null),
        member("a", JsonValue::Null),
    ]);
    let lines = parse_json(value).unwrap();
    assert_eq!(
        rendered(&lines),
        vec!["{", "    \"B\": null,", "    \"a\": null,", "    \"ab\": null,", "    \"b\": null", "}"]
    );
}

#[test]
fn scalars_take_one_line() {
    assert_eq!(rendered(&parse_json(JsonValue::Null).unwrap()), vec!["null"]);
    assert_eq!(rendered(&parse_json(JsonValue::Bool(false)).unwrap()), vec!["false"]);
    assert_eq!(rendered(&parse_json(num("-1.5e3")).unwrap()), vec!["-1.5e3"]);
    assert_eq!(rendered(&parse_json(JsonValue::String(s("hi"))).unwrap()), vec!["\"hi\""]);
    assert_eq!(rendered(&parse_json(JsonValue::Array(vec![])).unwrap()), vec!["[]"]);
    assert_eq!(rendered(&parse_json(JsonValue::Object(vec![])).unwrap()), vec!["{}"]);
}

#[test]
fn references_get_their_own_tag() {
    let lines = parse_json(JsonValue::String(s("#/a/0"))).unwrap();
    assert_eq!(lines[0].tokens()[0].tag(), JsonTokenTag::Ref);
    let lines = parse_json(JsonValue::String(s("#a"))).unwrap();
    assert_eq!(lines[0].tokens()[0].tag(), JsonTokenTag::String);
}

#[test]
fn nested_indentation_starts_from_the_given_column() {
    let value = JsonValue::Array(vec![JsonValue::Array(vec![num("7")])]);
    let lines = parse_json_lines(&value, 2).unwrap();
    assert_eq!(rendered(&lines), vec!["[", "      [", "          7", "      ]", "  ]"]);
}

#[test]
fn non_ascii_string_fails_the_document() {
    let value = JsonValue::Array(vec![num("1"), JsonValue::String(s("café"))]);
    assert_eq!(parse_json(value).unwrap_err(), "\"café\"");
}

#[test]
fn non_ascii_key_fails_the_document() {
    let value = JsonValue::Object(vec![member("naïve", JsonValue::Null)]);
    assert_eq!(parse_json(value).unwrap_err(), "\"naïve\"");
}

#[test]
fn non_ascii_number_fails_the_document() {
    assert_eq!(parse_json(num("１")).unwrap_err(), "１");
}

#[test]
fn token_at_finds_the_token_under_a_character() {
    let lines = parse_json(JsonValue::Object(vec![member("k", num("12"))])).unwrap();
    let line = &lines[1];
    assert_eq!(line.token_at(0).unwrap().tag(), JsonTokenTag::Whitespace);
    assert_eq!(line.token_at(4).unwrap().tag(), JsonTokenTag::ObjectKey);
    assert_eq!(line.token_at(7).unwrap().tag(), JsonTokenTag::Colon);
    assert_eq!(line.token_at(9).unwrap().text(), "12");
    assert_eq!(line.token_at(10).unwrap().text(), "12");
    assert!(line.token_at(11).is_none());
    assert_eq!(line.chars_count(), 11);
    assert_eq!(line.char_width(3), 1);
}

#[test]
fn json_line_widths_follow_tabs_in_strings() {
    let mut lines = parse_json(JsonValue::String(s("a\tb"))).unwrap();
    assert_eq!(lines[0].char_width(2), 6);
    lines[0].indent(4);
    assert_eq!(lines[0].char_width(2), 2);
    assert_eq!(lines[0].render(0, 3), "\"a");
}

#[test]
fn token_texts() {
    assert_eq!(JsonToken::ws(3).text(), "   ");
    assert_eq!(JsonToken::bool(false).text(), "false");
    assert_eq!(JsonToken::null().text(), "null");
    assert_eq!(JsonToken::comma().text(), ",");
    assert_eq!(JsonToken::colon().text(), ":");
    assert_eq!(JsonToken::array_start().text(), "[");
    assert_eq!(JsonToken::array_end().text(), "]");
    assert_eq!(JsonToken::object_start().text(), "{");
    assert_eq!(JsonToken::object_end().text(), "}");
    assert_eq!(JsonToken::object_key("k".to_string()).unwrap().text(), "\"k\"");
    assert_eq!(JsonToken::string("x".to_string()).unwrap().tag(), JsonTokenTag::String);
    assert_eq!(JsonToken::number("é".to_string()), Err("é".to_string()));
}

#[test]
fn styled_pieces_follow_the_tokens() {
    let lines = parse_json(JsonValue::Object(vec![member("k", JsonValue::String(s("#/k")))])).unwrap();
    let pieces = lines[1].render_tokens(0, 80);
    let tags: Vec<JsonTokenTag> = pieces.iter().map(|p| p.0).collect();
    assert_eq!(
        tags,
        vec![
            JsonTokenTag::Whitespace,
            JsonTokenTag::ObjectKey,
            JsonTokenTag::Colon,
            JsonTokenTag::Whitespace,
            JsonTokenTag::Ref,
        ]
    );
    let texts: Vec<String> = pieces.into_iter().map(|p| p.1).collect();
    assert_eq!(texts.concat(), "    \"k\": \"#/k\"");

    let window = lines[1].render_tokens(5, 4);
    assert_eq!(window, vec![
        (JsonTokenTag::ObjectKey, s("k\"")),
        (JsonTokenTag::Colon, s(":")),
        (JsonTokenTag::Whitespace, s(" ")),
    ]);
    assert!(lines[1].render_tokens(40, 4).is_empty());
}

#[test]
fn member_order_does_not_change_the_output() {
    let first = JsonValue::Object(vec![
        member("z", JsonValue::Object(vec![member("y", num("1")), member("x", num("2"))])),
        member("m", JsonValue::Array(vec![JsonValue::Object(vec![member("q", JsonValue::Null), member("p", JsonValue::Null)])])),
        member("a", JsonValue::Bool(true)),
    ]);
    let second = JsonValue::Object(vec![
        member("a", JsonValue::Bool(true)),
        member("m", JsonValue::Array(vec![JsonValue::Object(vec![member("p", JsonValue::Null), member("q", JsonValue::Null)])])),
        member("z", JsonValue::Object(vec![member("x", num("2")), member("y", num("1"))])),
    ]);
    assert_eq!(parse_json(first).unwrap(), parse_json(second).unwrap());
}
