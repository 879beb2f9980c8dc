use stallwatch::toml::parse_toml;

#[test]
fn each_kind_of_value_is_read() {
    let doc = parse_toml(
        "[capture] # table\nthreshold_ms = 1000\nhistory_secs = -7\nresources = [\"io\", 'cpu']\n[notify]\nenabled = true\n[[rule]]\nname = \"x\\ty\\\\\" # comment\nwhen = 'raw \\t'\n[[rule]]\nname = \"two\"\n",
    )
    .unwrap();
    let t = doc.capture.as_ref().unwrap();
    assert_eq!(doc.rules.len(), 2);
    assert_eq!(doc.rules[0].string("name").as_deref(), Some("x\ty\\"));
    assert_eq!(doc.rules[0].string("when").as_deref(), Some("raw \\t"));
    assert_eq!(t.integer("threshold_ms"), Some(1000));
    assert_eq!(t.integer("history_secs"), Some(-7));
    assert_eq!(doc.notify.as_ref().unwrap().boolean("enabled"), Some(true));
    assert_eq!(t.strings("resources"), Some(vec!["io".to_string(), "cpu".to_string()]));
    assert_eq!(t.string("threshold_ms"), None);
    assert_eq!(t.string("absent"), None);
    assert!(parse_toml("[capture]\n").unwrap().notify.is_none());
}

#[test]
fn the_first_line_that_is_not_understood_is_the_error() {
    let wrong = |body: &str| {
        let e = parse_toml(body).unwrap_err();
        (e.line, e.msg)
    };
    assert_eq!(
        wrong("[capture]\ncapture_ms = 9\nthreshhold_ms = 25\n[typo]\n"),
        (3, "unknown key `threshhold_ms` in `[capture]`".to_string())
    );
    assert_eq!(
        wrong("[capture]\nthreshold_ms = \"25\"\nthreshold_ms = 25\n"),
        (2, "`threshold_ms` in `[capture]` must be a whole number".to_string())
    );
    assert_eq!(
        wrong("[capture]\nresources = [\"disk\"]\n"),
        (2, "`resources` in `[capture]` must be a list of cpu, memory and io".to_string())
    );
    assert_eq!(
        wrong("[notify]\n\nenabled = 1\n"),
        (3, "`enabled` in `[notify]` must be true or false".to_string())
    );
    assert_eq!(
        wrong("[[rule]]\nname = \"a\"\n[[rule]]\nwhen = true\n"),
        (4, "`when` in `[[rule]]` must be a string".to_string())
    );
    assert_eq!(
        wrong("[[rule]]\nthreshold_ms = 3\n"),
        (2, "unknown key `threshold_ms` in `[[rule]]`".to_string())
    );
    assert_eq!(
        wrong("[[rule]]\nwhen = 'peak > 1' and more\n"),
        (2, "unexpected `and more` behind a string".to_string())
    );
    assert_eq!(
        wrong("[[rule]]\nrun = \"a\\\"b\" c\n"),
        (2, "unexpected `c` behind a string".to_string())
    );
}
