use stallwatch::ipc::{socket_path, uid_from_status, Format, Request};

#[test]
fn parses_verbs_case_insensitively() {
    assert_eq!(Request::parse("PING"), Some(Request::Ping));
    assert_eq!(Request::parse("ping\n"), Some(Request::Ping));
    assert_eq!(Request::parse("  Now  "), Some(Request::Now(Format::Json)));
    assert_eq!(Request::parse("SINCE 30"), Some(Request::Since(30, Format::Json)));
}

#[test]
fn format_token_is_optional_and_defaults_to_json() {
    assert_eq!(Request::parse("SINCE 30 text"), Some(Request::Since(30, Format::Text)));
    assert_eq!(Request::parse("SINCE 30 TEXT"), Some(Request::Since(30, Format::Text)));
    assert_eq!(Request::parse("SINCE 30 bogus"), Some(Request::Since(30, Format::Json)));
    assert_eq!(Request::parse("NOW text"), Some(Request::Now(Format::Text)));
}

#[test]
fn rejects_malformed_input_instead_of_guessing() {
    assert_eq!(Request::parse(""), None);
    assert_eq!(Request::parse("SINCE"), None);
    assert_eq!(Request::parse("SINCE abc"), None);
    assert_eq!(Request::parse("DROP TABLE"), None);
    assert_eq!(Request::parse("SINCE -5"), None);
}

#[test]
fn socket_path_is_under_xdg_runtime_dir_when_set() {
    for dir in [Some("/run/user/1000".to_string()), Some(String::new()), None] {
        let p = socket_path(&dir, 1000);
        assert!(p.contains("stallwatch"), "{p:?}");
        assert!(p.starts_with('/'), "{p:?}");
    }
    assert_eq!(
        socket_path(&Some("/run/user/1000".to_string()), 1000),
        "/run/user/1000/stallwatch.sock"
    );
    assert_eq!(socket_path(&None, 1000), "/tmp/stallwatch-1000.sock");
}

#[test]
fn the_uid_comes_from_the_status_file() {
    let status = "Name:\tbash\nUid:\t1000\t1000\t1000\t1000\n".to_string();
    assert_eq!(uid_from_status(&Some(status)), 1000);
    assert_eq!(uid_from_status(&None), 0);
}
