use stallwatch::json::{parse, Json};

#[test]
fn parses_a_varlink_request() {
    let j = parse(r#"{"method":"dev.stallwatch.Monitor.GetStalls","parameters":{"seconds":30}}"#)
        .unwrap();
    assert_eq!(
        j.get("method").and_then(Json::as_str),
        Some("dev.stallwatch.Monitor.GetStalls")
    );
    assert_eq!(
        j.get("parameters")
            .and_then(|p| p.get("seconds"))
            .and_then(Json::as_u64),
        Some(30)
    );
}

#[test]
fn handles_empty_and_nested_structures() {
    assert_eq!(parse("{}").unwrap(), Json::Obj(Default::default()));
    assert_eq!(parse("[]").unwrap(), Json::Arr(vec![]));
    assert!(parse(r#"{"a":{"b":[1,2,{"c":null}]}}"#).is_ok());
}

#[test]
fn handles_escapes_and_unicode() {
    assert_eq!(parse(r#""a\"b""#).unwrap().as_str(), Some("a\"b"));
    assert_eq!(parse(r#""a\\x2db""#).unwrap().as_str(), Some(r"a\x2db"));
    assert_eq!(parse(r#""A""#).unwrap().as_str(), Some("A"));
    assert_eq!(parse(r#""héllo""#).unwrap().as_str(), Some("héllo"));
}

#[test]
fn rejects_malformed_input_rather_than_guessing() {
    for bad in [
        "",
        "{",
        "}",
        "[",
        r#"{"a"}"#,
        r#"{"a":}"#,
        r#"{a:1}"#,
        r#""unterminated"#,
        "tru",
        r#"{} extra"#,
        r#"{"a":1,}"#,
    ] {
        assert!(parse(bad).is_err(), "should reject: {bad:?}");
    }
}

#[test]
fn negative_and_float_numbers_do_not_become_u64() {
    assert_eq!(parse("-5").unwrap().as_u64(), None);
    assert_eq!(parse("3.9").unwrap().as_u64(), Some(3));
    assert_eq!(parse("42").unwrap().as_u64(), Some(42));
}

#[test]
fn deeply_nested_input_does_not_crash() {
    let deep = "[".repeat(200) + &"]".repeat(200);
    let _ = parse(&deep);
}

#[test]
fn a_numbered_escape_is_the_character_with_that_number() {
    assert_eq!(parse("\"\\u00e9\\u0041\"").unwrap().as_str(), Some("\u{e9}A"));
    assert_eq!(parse(r#""\ud800""#).unwrap_err(), "unsupported \\u codepoint");
    assert_eq!(parse(r#""\u12zz""#).unwrap_err(), "bad \\u escape");
    assert_eq!(parse(r#""\u1"#).unwrap_err(), "truncated \\u escape");
}

#[test]
fn each_error_says_what_was_expected() {
    assert_eq!(parse("").unwrap_err(), "unexpected end of input");
    assert_eq!(parse("tru").unwrap_err(), "bad literal");
    assert_eq!(parse("{} x").unwrap_err(), "trailing data after JSON value");
    assert_eq!(parse("{a").unwrap_err(), "object key must be a string");
    assert_eq!(parse(r#"{"a" 1}"#).unwrap_err(), "expected ':' after object key");
    assert_eq!(parse(r#"{"a":1 2}"#).unwrap_err(), "expected ',' or '}'");
    assert_eq!(parse("[1 2]").unwrap_err(), "expected ',' or ']'");
    assert_eq!(parse("\"a").unwrap_err(), "unterminated string");
    assert_eq!(parse(r#""\q""#).unwrap_err(), "bad escape");
    assert_eq!(parse("-").unwrap_err(), "bad number");
}

#[test]
fn of_two_members_with_one_key_the_later_counts() {
    let j = parse(r#"{"a":1,"b":true,"a":2}"#).unwrap();
    assert_eq!(j.get("a").and_then(Json::as_u64), Some(2));
    assert_eq!(j.get("b").and_then(Json::as_bool), Some(true));
    assert!(j.get("c").is_none());
    assert_eq!(parse("[1,2,3]").unwrap().as_array().map(|a| a.len()), Some(3));
    assert!(j.as_array().is_none());
}
