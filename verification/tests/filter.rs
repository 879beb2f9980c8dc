use stallwatch::filter::{fields, Filter};
use stallwatch::float::Double;
use stallwatch::pathology::{Severity, Warning};
use stallwatch::psi::{PsiKind, Resource};
use stallwatch::report::Stall;

fn stall(unit: &str, res: Resource, pct: f64, peak: f64, ms: u64) -> Stall {
    Stall {
        unit: unit.into(),
        cgroup: format!("/sys/fs/cgroup/{unit}"),
        resource: res,
        kind: PsiKind::Full,
        delta_usec: ms * 1000,
        pressure_pct: Double {
            bits: pct.to_bits(),
        },
        peak_pct: Double {
            bits: peak.to_bits(),
        },
    }
}

fn f(s: &str) -> Filter {
    Filter::parse(s).unwrap_or_else(|e| panic!("{s:?} should parse: {}", e.to_text()))
}

#[test]
fn compares_numbers() {
    let s = stall("firefox", Resource::Io, 84.6, 93.0, 858);
    assert!(f("pct > 50").matches(&s));
    assert!(!f("pct > 90").matches(&s));
    assert!(f("peak >= 93").matches(&s));
    assert!(f("delta_ms > 500").matches(&s));
    assert!(f("delta_ms < 1000").matches(&s));
}

#[test]
fn compares_text_case_insensitively() {
    let s = stall("Firefox", Resource::Io, 10.0, 10.0, 10);
    assert!(f("unit == firefox").matches(&s));
    assert!(f(r#"unit == "Firefox""#).matches(&s));
    assert!(f("resource == io").matches(&s));
    assert!(f("resource != cpu").matches(&s));
}

#[test]
fn match_operator_supports_alternation() {
    let s = stall("com.mitchellh.ghostty", Resource::Io, 10.0, 10.0, 10);
    assert!(f(r#"unit ~ "ghostty""#).matches(&s));
    assert!(f(r#"unit ~ "firefox|ghostty|chrome""#).matches(&s));
    assert!(!f(r#"unit ~ "firefox|chrome""#).matches(&s));
}

#[test]
fn boolean_operators_and_precedence() {
    let s = stall("firefox", Resource::Io, 84.0, 93.0, 858);
    assert!(f("resource == io and peak > 70").matches(&s));
    assert!(!f("resource == cpu and peak > 70").matches(&s));
    assert!(f("resource == cpu or peak > 70").matches(&s));
    assert!(f("not resource == cpu").matches(&s));
    // `and` must bind tighter than `or`: false and false, or true.
    assert!(f("resource == cpu and pct > 99 or peak > 70").matches(&s));
}

#[test]
fn parentheses_override_precedence() {
    // resource == io is TRUE, peak > 70 is TRUE, pct > 50 is FALSE.
    let s = stall("firefox", Resource::Io, 10.0, 93.0, 10);

    //  A or (B and C)  =>  true or (true and false)  =>  true
    assert!(f("resource == io or peak > 70 and pct > 50").matches(&s));

    // (A or B) and C   =>  (true or true) and false  =>  false
    assert!(!f("(resource == io or peak > 70) and pct > 50").matches(&s));
}

#[test]
fn unit_suffixes_scale_the_number() {
    let s = stall("x", Resource::Io, 10.0, 10.0, 2_000);
    assert!(f("delta_ms > 1s").matches(&s), "1s should mean 1000ms");
    assert!(!f("delta_ms > 3s").matches(&s));
    // Longest-suffix-first: `ms` must not lex as `m`.
    assert!(f("delta_ms == 2000ms").matches(&s));
}

#[test]
fn unknown_fields_never_match_and_never_error() {
    // A filter is applied across subjects with different fields, so an
    // unknown name has to be survivable rather than fatal.
    let s = stall("x", Resource::Io, 10.0, 10.0, 10);
    assert!(!f("nonsense > 1").matches(&s));
    assert!(!f("nonsense == anything").matches(&s));
    assert!(f("not nonsense == anything").matches(&s));
}

fn warning() -> Warning {
    Warning {
        source: "btrfs".into(),
        severity: Severity::Note,
        transient: true,
        message: "discard backlog".into(),
    }
}

#[test]
fn warnings_expose_their_own_fields() {
    let w = warning();
    assert!(f("warning.source == btrfs").matches(&w));
    assert!(f("warning.transient").matches(&w));
    assert!(!f("not warning.transient").matches(&w));
    assert!(f(r#"warning.message ~ "discard""#).matches(&w));
}

#[test]
fn errors_report_where_the_problem_is() {
    let e = Filter::parse("pct >").unwrap_err();
    assert!(e.msg.contains("needs a value"), "{}", e.msg);

    let e = Filter::parse("pct > 50 and").unwrap_err();
    assert!(e.msg.contains("end of expression"), "{}", e.msg);

    let e = Filter::parse("(pct > 50").unwrap_err();
    assert!(e.msg.contains("unclosed"), "{}", e.msg);

    let e = Filter::parse(r#"unit ~ "unterminated"#).unwrap_err();
    assert!(e.msg.contains("unterminated"), "{}", e.msg);

    let e = Filter::parse("pct > 50 pct > 60").unwrap_err();
    assert!(e.msg.contains("after a complete expression"), "{}", e.msg);
}

#[test]
fn a_single_equals_is_accepted_because_everyone_types_it() {
    let s = stall("firefox", Resource::Io, 10.0, 10.0, 10);
    assert!(f("resource = io").matches(&s));
}

#[test]
fn round_trips_its_own_source_for_display() {
    assert_eq!(f("  pct > 50  ").as_str(), "pct > 50");
}

#[test]
fn filter_garbage_never_panics() {
    for bad in [
        "", "and", "or", ")", "((((", "> 5", "unit ==", "~~~", "1 2 3", "not",
    ] {
        let _ = Filter::parse(bad); // must not panic
    }
}

#[test]
fn an_error_counts_places_from_one() {
    let e = Filter::parse("pct > 50 pct > 60").unwrap_err();
    assert_eq!(e.at, 9);
    assert!(e.to_text().ends_with(" (at character 10)"), "{}", e.to_text());
}

#[test]
fn every_listed_field_can_be_named() {
    let s = stall("x", Resource::Io, 10.0, 10.0, 10);
    let w = warning();
    for (name, help) in fields() {
        assert!(!help.is_empty());
        // A known field is always a text, a number or a flag.
        let probe = format!("{name} ~ \"\" or {name} >= 0 or {name} or {name} == true");
        assert!(f(&probe).matches(&s) || f(&probe).matches(&w), "{name}");
    }
}

#[test]
fn alternatives_need_no_quotes() {
    let g = f("unit ~ firefox|chrome and delta_ms > 500");
    assert!(g.matches(&stall("chrome", Resource::Io, 50.0, 50.0, 600)));
    assert!(g.matches(&stall("firefox (flatpak)", Resource::Io, 50.0, 50.0, 600)));
    assert!(!g.matches(&stall("chrome", Resource::Io, 50.0, 50.0, 400)));
    assert!(!g.matches(&stall("zen", Resource::Io, 50.0, 50.0, 600)));
    // They are alternatives of a value; no field is called that.
    let e = Filter::parse("unit|cgroup ~ x").unwrap_err();
    assert_eq!(e.msg, "expected a field name, found `unit|cgroup`");
    let e = Filter::parse("unit ~ a and | b").unwrap_err();
    assert_eq!((e.msg.as_str(), e.at), ("`|` cannot start a term", 13));
}

#[test]
fn words_are_read_byte_by_byte() {
    // Each byte of these is the number of a letter or a numeral.
    assert!(f("unit ~ x\u{b2}").matches(&stall("x\u{b2}", Resource::Io, 1.0, 1.0, 1)));
    assert!(f("unit ~ \u{b2}").matches(&stall("x\u{b2}", Resource::Io, 1.0, 1.0, 1)));
    assert!(f("unit ~ \u{ea}").matches(&stall("\u{ea}", Resource::Io, 1.0, 1.0, 1)));
    // This one begins with the byte 0xd7, which is neither.
    let e = Filter::parse("\u{5d0} == 1").unwrap_err();
    assert_eq!((e.msg.as_str(), e.at), ("`\u{d7}` cannot start a term", 0));
    let e = Filter::parse("unit ~ a\u{5d0}").unwrap_err();
    assert_eq!((e.msg.as_str(), e.at), ("`\u{d7}` cannot start a term", 8));
    // A word that would end inside a character is refused.
    assert!(Filter::parse("unit ~ caf\u{e9}").is_err());
    assert!(Filter::parse("unit ~ 'caf\u{e9}'").is_ok());
}

#[test]
fn a_filter_of_filters_matches_as_its_parts_do() {
    let subjects = [
        stall("firefox", Resource::Io, 80.0, 90.0, 600),
        stall("dd", Resource::Io, 10.0, 20.0, 5),
        stall("firefox", Resource::Cpu, 10.0, 95.0, 900),
    ];
    let parts = [
        "unit ~ firefox|zen",
        "peak > 70 or resource == cpu",
        "not (delta_ms >= 500ms) and pct<50%",
        "unit == 'dd'",
        "nothing",
    ];
    for a in parts {
        for b in parts {
            let both = f(&format!("({a}) and ({b})"));
            let either = f(&format!("({a}) or ({b})"));
            let neither = f(&format!("not ({a})"));
            for s in &subjects {
                let (x, y) = (f(a).matches(s), f(b).matches(s));
                assert_eq!(both.matches(s), x && y, "{a} / {b}");
                assert_eq!(either.matches(s), x || y, "{a} / {b}");
                assert_eq!(neither.matches(s), !x, "{a}");
            }
        }
    }
}
