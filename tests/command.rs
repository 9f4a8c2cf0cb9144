use jv::command::parse_goto;

#[test]
fn test_parse_goto() {
    assert_eq!(parse_goto("1:100"), Some((Some(0), Some(99))));
    assert_eq!(parse_goto("0:50"), Some((Some(0), Some(49))));

    assert_eq!(parse_goto("42"), Some((Some(41), None)));
    assert_eq!(parse_goto(":42"), Some((None, Some(41))));

    assert_eq!(parse_goto("fuffa:"), None);
    assert_eq!(parse_goto(":yeyo"), None);
    assert_eq!(parse_goto("yoyo"), None);
    assert_eq!(parse_goto("1:yoyo"), None);
    assert_eq!(parse_goto("1:2:"), None);
}

#[test]
fn goto_edge_cases() {
    assert_eq!(parse_goto(""), Some((None, None)));
    assert_eq!(parse_goto("1:"), None);
    assert_eq!(parse_goto(":"), None);
    assert_eq!(parse_goto("+3:+4"), Some((Some(2), Some(3))));
    assert_eq!(parse_goto("-3"), None);
    assert_eq!(parse_goto("+"), None);
    assert_eq!(parse_goto("0"), Some((Some(0), None)));
    assert_eq!(parse_goto("18446744073709551615"), Some((Some(18446744073709551614), None)));
    assert_eq!(parse_goto("18446744073709551616"), None);
    assert_eq!(parse_goto("1:2:3"), None);
    assert_eq!(parse_goto("é:1"), None);
}
