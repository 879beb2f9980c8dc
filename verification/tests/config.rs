use stallwatch::config::{
    expand, search_path, Config, ConfigError, ConfigFile, Environment, Origin,
};
use stallwatch::float::Double;
use stallwatch::psi::{PsiKind, Resource};
use stallwatch::report::Stall;

fn d(x: f64) -> Double {
    Double { bits: x.to_bits() }
}

fn cfg_from(body: &str) -> Result<Config, ConfigError> {
    let mut c = Config::default();
    c.apply_toml(body, "/test/config.toml")?;
    Ok(c)
}

#[test]
fn capture_settings_load_and_remember_their_source() {
    let c = cfg_from("[capture]\nthreshold_ms = 25\ncapture_ms = 900\n").unwrap();
    assert_eq!(c.threshold_ms.value, 25);
    assert_eq!(c.capture_ms.value, 900);
    assert_eq!(
        c.threshold_ms.origin,
        Origin::File("/test/config.toml".to_string())
    );
    // Untouched settings must still say they are defaults.
    assert_eq!(c.history_secs.origin, Origin::Default);
}

#[test]
fn rules_parse_their_filter_with_the_same_grammar_as_the_cli() {
    let c = cfg_from(
        r#"
[[rule]]
name = "browser eating the disk"
when = 'resource == io and peak > 70'
notify = true
run = "notify-send stall {unit}"
"#,
    )
    .unwrap();
    assert_eq!(c.rules.len(), 1);
    assert_eq!(c.rules[0].name, "browser eating the disk");
    assert!(c.rules[0].action.notify);
    assert_eq!(
        c.rules[0].action.run.as_deref(),
        Some("notify-send stall {unit}")
    );
}

#[test]
fn a_rule_matches_using_that_filter() {
    let c = cfg_from("[[rule]]\nname = \"io\"\nwhen = 'resource == io and peak > 70'\n").unwrap();
    let s = Stall {
        unit: "firefox".into(),
        cgroup: "/x".into(),
        resource: Resource::Io,
        kind: PsiKind::Full,
        delta_usec: 500_000,
        pressure_pct: d(80.0),
        peak_pct: d(90.0),
    };
    assert!(c.rules[0].when.matches(&s));
}

#[test]
fn a_broken_filter_refuses_to_load_rather_than_dropping_the_rule() {
    // Silently ignoring a rule someone wrote is worse than not starting.
    let e = cfg_from("[[rule]]\nname = \"bad\"\nwhen = 'peak >'\n").unwrap_err();
    assert!(e.msg.contains("bad"), "{}", e.msg);
    // Points at the `[[rule]]` header, which identifies which rule block
    // failed. More useful than an arbitrary key line inside it.
    assert_eq!(e.line, 1, "should point at the rule header, got {}", e.line);
}

#[test]
fn a_rule_without_when_is_an_error_with_a_line_number() {
    let e = cfg_from("[[rule]]\nname = \"no condition\"\n").unwrap_err();
    assert!(e.msg.contains("no `when"), "{}", e.msg);
}

#[test]
fn unknown_tables_are_rejected_rather_than_silently_ignored() {
    let e = cfg_from("[capture]\nthreshold_ms = 10\n\n[typo]\nx = 1\n").unwrap_err();
    assert!(e.msg.contains("unknown table"), "{}", e.msg);
    assert_eq!(e.line, 4);
}

#[test]
fn comments_do_not_eat_a_hash_inside_a_quoted_filter() {
    let c = cfg_from("[[rule]]\nname = \"hash\"\nwhen = 'unit ~ \"a#b\"'  # trailing comment\n")
        .unwrap();
    assert!(
        c.rules[0].when.as_str().contains("a#b"),
        "{}",
        c.rules[0].when.as_str()
    );
}

#[test]
fn escaped_quotes_survive_inside_a_basic_string() {
    let c = cfg_from(
        "[[rule]]\nname = \"esc\"\nwhen = 'peak > 1'\nrun = \"echo \\\"hi there\\\" >> /tmp/x\"\n",
    )
    .unwrap();
    assert_eq!(
        c.rules[0].action.run.as_deref(),
        Some(r#"echo "hi there" >> /tmp/x"#)
    );
}

#[test]
fn arrays_and_booleans_parse() {
    let c = cfg_from("[capture]\nresources = [\"io\", \"memory\"]\n").unwrap();
    assert_eq!(c.resources.value, vec!["io", "memory"]);
}

#[test]
fn a_key_outside_any_table_is_an_error_not_a_shrug() {
    let e = cfg_from("threshold_ms = 5\n").unwrap_err();
    assert!(e.msg.contains("outside any table"), "{}", e.msg);
}

#[test]
fn expand_substitutes_from_the_matching_stall() {
    let s = Stall {
        unit: "firefox".into(),
        cgroup: "/sys/fs/cgroup/app".into(),
        resource: Resource::Io,
        kind: PsiKind::Full,
        delta_usec: 1_500_000,
        pressure_pct: d(84.6),
        peak_pct: d(93.0),
    };
    let out = expand("froze {unit} for {delta_ms}ms at {peak}% on {resource}", &s);
    assert_eq!(out, "froze firefox for 1500ms at 93% on io");
    assert_eq!(expand("{cgroup} {pct}", &s), "/sys/fs/cgroup/app 85");
}

#[test]
fn explain_names_the_layer_that_won() {
    let c = cfg_from("[capture]\nthreshold_ms = 25\n").unwrap();
    let text = c.explain(&search_path(&None, &Some("/home/me".to_string())));
    assert!(text.contains("threshold_ms"), "{text}");
    assert!(text.contains("/test/config.toml"), "{text}");
    assert!(text.contains("built-in default"), "{text}");
}

#[test]
fn config_garbage_never_panics() {
    for bad in ["[", "[[", "= 5", "[capture]\nx", "[capture]\nx = ", "\u{0}"] {
        let _ = cfg_from(bad);
    }
}

#[test]
fn each_mistake_has_its_message() {
    let msg = |body: &str| cfg_from(body).unwrap_err().msg;
    assert_eq!(
        msg("[[thing]]\n"),
        "unknown array of tables `[[thing]]`; only `[[rule]]` exists"
    );
    assert_eq!(msg("[capture]\nx\n"), "expected `key = value`, found `x`");
    assert_eq!(msg("[capture]\nx = 'a\n"), "unterminated string");
    assert_eq!(msg("[capture]\nx = \"a\n"), "unterminated string");
    assert_eq!(msg("[capture]\nx = 1.5\n"), "`1.5` is not a string, number or boolean");
    assert_eq!(
        msg("[[rule]]\nwhen = 'peak > 1'\n[[rule]]\n"),
        "rule `rule 2` has no `when =` expression"
    );
    let e = cfg_from("\n\n[capture]\nx\n").unwrap_err();
    assert_eq!(e.to_text(), "/test/config.toml:4: expected `key = value`, found `x`");
}

#[test]
fn numbers_are_kept_in_bounds() {
    let c = cfg_from(
        "[capture]\nthreshold_ms = -5\ncapture_ms = 1\nhistory_secs = 0\n[notify]\nenabled = false\nmin_peak = 400\ncooldown_secs = -1\n",
    )
    .unwrap();
    assert_eq!(c.threshold_ms.value, 1);
    assert_eq!(c.capture_ms.value, 50);
    assert_eq!(c.history_secs.value, 10);
    assert!(!c.notify_enabled.value);
    assert_eq!(c.notify_min_peak.value, 100);
    assert_eq!(c.notify_cooldown_secs.value, 0);
}

#[test]
fn later_layers_win_and_say_so() {
    let files = vec![
        ConfigFile {
            path: "/etc/xdg/stallwatch/config.toml".to_string(),
            body: Some("[capture]\nthreshold_ms = 10\ncapture_ms = 100\n".to_string()),
        },
        ConfigFile {
            path: "/missing".to_string(),
            body: None,
        },
        ConfigFile {
            path: "/home/me/.config/stallwatch/config.toml".to_string(),
            body: Some("[capture]\nthreshold_ms = 20\n".to_string()),
        },
    ];
    let env = Environment {
        threshold_ms: None,
        capture_ms: Some("600".to_string()),
        history_secs: Some("long".to_string()),
    };
    let mut c = Config::load(&files, &env).unwrap();
    assert_eq!(c.threshold_ms.value, 20);
    assert_eq!(
        c.threshold_ms.origin,
        Origin::File("/home/me/.config/stallwatch/config.toml".to_string())
    );
    assert_eq!(c.capture_ms.value, 600);
    assert_eq!(c.capture_ms.origin.to_text(), "$STALLWATCH_CAPTURE_MS");
    assert_eq!(c.history_secs.value, 300);
    assert_eq!(c.loaded.len(), 2);
    c.note_flag("history_secs", "--history");
    assert_eq!(c.history_secs.origin.to_text(), "command line --history");
}

#[test]
fn a_malformed_file_stops_the_load() {
    let files = vec![ConfigFile {
        path: "/bad".to_string(),
        body: Some("[typo]\n".to_string()),
    }];
    let env = Environment {
        threshold_ms: None,
        capture_ms: None,
        history_secs: None,
    };
    let e = Config::load(&files, &env).unwrap_err();
    assert_eq!((e.path.as_str(), e.line), ("/bad", 1));
}

#[test]
fn the_search_path_follows_the_environment() {
    let home = Some("/home/me".to_string());
    assert_eq!(
        search_path(&None, &home),
        vec![
            "/etc/xdg/stallwatch/config.toml",
            "/home/me/.config/stallwatch/config.toml"
        ]
    );
    assert_eq!(
        search_path(&Some("/cfg/".to_string()), &home)[1],
        "/cfg/stallwatch/config.toml"
    );
    assert_eq!(search_path(&Some(String::new()), &None).len(), 1);
}

#[test]
fn an_explanation_reads_in_full() {
    let mut c = cfg_from("[[rule]]\nname = \"io\"\nwhen = ' peak > 1 '\n").unwrap();
    c.loaded.push("/cfg/stallwatch/config.toml".to_string());
    let text = c.explain(&search_path(&Some("/cfg".to_string()), &None));
    assert_eq!(
        text,
        "Searched, lowest precedence first:\n  absent   /etc/xdg/stallwatch/config.toml\n  read     /cfg/stallwatch/config.toml\n\nEnvironment then command-line flags override those.\n\nSETTING          VALUE                        FROM\nthreshold_ms     50                           built-in default\ncapture_ms       400                          built-in default\nhistory_secs     300                          built-in default\nresources        cpu,memory,io                built-in default\nnotify.enabled   true                         built-in default\nnotify.min_peak  70                           built-in default\nnotify.cooldown  21600                        built-in default\n\n1 rule(s):\n  io                           when peak > 1\n"
    );
}

#[test]
fn a_setting_that_is_not_understood_applies_nothing() {
    let mut c = Config::default();
    let e = c
        .apply_toml("[capture]\nthreshhold_ms = 25\n", "/test/config.toml")
        .unwrap_err();
    assert_eq!(e.line, 2);
    assert_eq!(
        e.to_text(),
        "/test/config.toml:2: unknown key `threshhold_ms` in `[capture]`"
    );
    let e = c
        .apply_toml(
            "[capture]\nthreshold_ms = 25\n[[rule]]\nwhen = 'peak > 1'\n[notify]\nmin_peak = true\n",
            "/test/config.toml",
        )
        .unwrap_err();
    assert_eq!(e.line, 6);
    assert_eq!(c.threshold_ms.value, 50);
    assert_eq!(c.threshold_ms.origin, Origin::Default);
    assert!(c.rules.is_empty());
}

#[test]
fn values_are_placed_literally() {
    let s = Stall {
        unit: "{resource}".into(),
        cgroup: "{unit}{peak}".into(),
        resource: Resource::Io,
        kind: PsiKind::Full,
        delta_usec: 0,
        pressure_pct: d(0.0),
        peak_pct: d(0.0),
    };
    assert_eq!(expand("{unit}", &s), "{resource}");
    assert_eq!(expand("{{cgroup}}{un{unit}", &s), "{{unit}{peak}}{un{resource}");
    assert_eq!(expand("{pct}{peak}{delta_ms}{other}", &s), "000{other}");
}
