use stallwatch::filter::Filter;
use stallwatch::float::Double;
use stallwatch::incident::{Culprit, Incident};
use stallwatch::pathology::{Severity, Warning};
use stallwatch::psi::{PsiKind, Resource};
use stallwatch::report::{Role, Stall};
use stallwatch::why::{parse_incident, why};

fn d(x: f64) -> Double {
    Double { bits: x.to_bits() }
}

fn incident(unit: &str, at: u64) -> Incident {
    Incident {
        at_unix: at,
        window_usec: 400_000,
        woke_on: vec!["io".into(), "cpu".into()],
        stalls: vec![Stall {
            unit: unit.into(),
            cgroup: format!("/sys/fs/cgroup/{unit}"),
            resource: Resource::Io,
            kind: PsiKind::Full,
            delta_usec: 1_200_000,
            pressure_pct: d(93.25),
            peak_pct: d(99.5),
        }],
        warnings: vec![Warning {
            source: "btrfs".into(),
            severity: Severity::Warn,
            transient: false,
            message: "un\u{e9}ven \"space\"\n".into(),
        }],
        culprits: vec![Culprit {
            pid: 7,
            comm: "d\\d".into(),
            blocked_pct: d(8.5),
            bytes: 1024,
            role: Role::Active,
        }],
        causes: Vec::new(),
    }
}

#[test]
fn the_log_reads_back_what_was_written() {
    let i = incident("ghostty", 1000);
    let back = parse_incident(&i.to_jsonl()).expect("reads back");
    assert_eq!(back.at_unix, i.at_unix);
    assert_eq!(back.window_usec, i.window_usec);
    assert!(back.woke_on.is_empty());
    assert_eq!(back.stalls, i.stalls);
    assert_eq!(back.warnings, i.warnings);
    assert_eq!(back.culprits, i.culprits);
    assert!(back.causes.is_empty());
}

#[test]
fn a_line_that_is_no_incident_is_passed_over() {
    assert!(parse_incident("").is_none());
    assert!(parse_incident("{").is_none());
    // What a line lacks is taken to be nothing.
    let bare = parse_incident("{\"at_unix\":1}").unwrap();
    assert_eq!((bare.at_unix, bare.window_usec), (1, 0));
    assert!(bare.stalls.is_empty());
    assert!(parse_incident("[]").is_some());
}

#[test]
fn the_most_recent_incident_comes_first() {
    let body = format!(
        "{}\nnot json\n\n{}\n{}\n",
        incident("oldest", 100).to_jsonl(),
        incident("middle", 200).to_jsonl(),
        incident("newest", 300).to_jsonl()
    );
    let one = why(&body, 1, None, 310);
    assert!(one.contains("newest"), "{one}");
    assert!(!one.contains("middle"), "{one}");
    // At least one is shown, whatever was asked for.
    assert_eq!(why(&body, 0, None, 310), one);
    let two = why(&body, 2, None, 310);
    assert!(two.starts_with(&one), "{two}");
    assert!(two.contains("middle") && !two.contains("oldest"), "{two}");
}

#[test]
fn a_filter_narrows_the_incidents() {
    let body = format!(
        "{}\n{}\n",
        incident("firefox", 100).to_jsonl(),
        incident("code", 200).to_jsonl()
    );
    let f = Filter::parse("unit ~ fire").unwrap();
    let text = why(&body, 9, Some(&f), 300);
    assert!(text.contains("firefox") && !text.contains("code"), "{text}");
    let none = Filter::parse("unit == nothing").unwrap();
    assert_eq!(
        why(&body, 9, Some(&none), 300),
        "Nothing recorded that matches. The machine has not stalled, or the filter excluded everything.\n"
    );
}

#[test]
fn a_log_holds_one_line_for_each_incident() {
    let written = [incident("a\nb", 1), incident("c\r", 2), incident("d", 3)];
    let mut log = String::new();
    for i in &written {
        log.push_str(&i.to_jsonl());
        log.push('\n');
    }
    assert_eq!(log.lines().count(), 3);
    for (line, i) in log.lines().zip(&written) {
        let back = parse_incident(line).expect("reads back");
        assert_eq!(back.at_unix, i.at_unix);
        assert_eq!(back.stalls, i.stalls);
    }
}
