use stallwatch::json;
use stallwatch::json::Json;
use stallwatch::report::Report;
use stallwatch::varlink::{
    error_for, parse_call, reply_info, reply_interface_description, reply_report, Call, CallError,
};

#[test]
fn parses_mandatory_service_methods() {
    assert_eq!(
        parse_call(r#"{"method":"org.varlink.service.GetInfo"}"#).unwrap(),
        Call::GetInfo
    );
    assert_eq!(
        parse_call(
            r#"{"method":"org.varlink.service.GetInterfaceDescription","parameters":{"interface":"dev.stallwatch.Monitor"}}"#
        )
        .unwrap(),
        Call::GetInterfaceDescription("dev.stallwatch.Monitor".into())
    );
}

#[test]
fn get_stalls_defaults_and_clamps() {
    assert_eq!(
        parse_call(r#"{"method":"dev.stallwatch.Monitor.GetStalls"}"#).unwrap(),
        Call::GetStalls { window_ms: 1000 }
    );
    assert_eq!(
        parse_call(r#"{"method":"dev.stallwatch.Monitor.GetStalls","parameters":{"window_ms":99999999}}"#)
            .unwrap(),
        Call::GetStalls { window_ms: 60_000 }
    );
    assert_eq!(
        parse_call(r#"{"method":"dev.stallwatch.Monitor.GetStalls","parameters":{"window_ms":1}}"#)
            .unwrap(),
        Call::GetStalls { window_ms: 100 }
    );
}

#[test]
fn get_history_requires_seconds() {
    assert!(matches!(
        parse_call(r#"{"method":"dev.stallwatch.Monitor.GetHistory"}"#),
        Err(CallError::Malformed(_))
    ));
    assert_eq!(
        parse_call(r#"{"method":"dev.stallwatch.Monitor.GetHistory","parameters":{"seconds":30}}"#)
            .unwrap(),
        Call::GetHistory { seconds: 30 }
    );
}

#[test]
fn distinguishes_unknown_method_from_unknown_interface() {
    assert!(matches!(
        parse_call(r#"{"method":"dev.stallwatch.Monitor.Nope"}"#),
        Err(CallError::UnknownMethod(_))
    ));
    assert!(matches!(
        parse_call(r#"{"method":"com.example.Thing.Do"}"#),
        Err(CallError::UnknownInterface(_))
    ));
}

#[test]
fn rejects_garbage_without_panicking() {
    for bad in ["", "{", "null", r#"{"nomethod":1}"#, r#"{"method":42}"#] {
        assert!(parse_call(bad).is_err(), "should reject {bad:?}");
    }
}

#[test]
fn errors_are_wellformed_varlink() {
    let e = error_for(&CallError::UnknownMethod("x.Y".into()));
    assert!(
        e.contains(r#""error":"org.varlink.service.MethodNotFound""#),
        "{e}"
    );
    assert!(
        json::parse(&e).is_ok(),
        "error reply must be valid JSON: {e}"
    );
}

#[test]
fn info_and_description_replies_are_valid_json() {
    assert!(json::parse(&reply_info()).is_ok());
    let d = reply_interface_description();
    assert!(json::parse(&d).is_ok(), "description must survive escaping");
    // The description is a Varlink IDL document; make sure escaping did
    // not eat the newlines that make it parseable.
    let parsed = json::parse(&d).unwrap();
    let text = parsed
        .get("parameters")
        .and_then(|p| p.get("description"))
        .and_then(Json::as_str)
        .unwrap();
    assert!(
        text.starts_with("interface dev.stallwatch.Monitor"),
        "{text}"
    );
    assert!(text.contains("method GetStalls"));
}

#[test]
fn every_refusal_has_its_own_error() {
    assert_eq!(
        error_for(&CallError::Malformed("bad literal")),
        r#"{"error":"org.varlink.service.InvalidParameter","parameters":{"parameter":"bad literal"}}"#
    );
    assert_eq!(
        error_for(&CallError::UnknownInterface("a\"b".into())),
        r#"{"error":"org.varlink.service.InterfaceNotFound","parameters":{"interface":"a\"b"}}"#
    );
    assert_eq!(
        reply_report(&Report::default()),
        r#"{"parameters":{"window_usec":0,"stalls":[],"causes":[],"warnings":[]}}"#
    );
}

#[test]
fn whatever_is_refused_the_refusal_parses() {
    for frame in [
        "{",
        "[]",
        "{\"method\": 3}",
        "{\"method\": \"a\\nb\\u0001\\\"\"}",
        "{\"method\": \"dev.stallwatch.Monitor.Nope\"}",
        "{\"method\": \"dev.stallwatch.Monitor.GetHistory\"}",
    ] {
        let e = parse_call(frame).expect_err("refused");
        let v = json::parse(&error_for(&e)).expect("parses");
        assert!(v.get("error").and_then(Json::as_str).is_some(), "{frame}");
    }
}
