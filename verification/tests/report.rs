use stallwatch::cgroup;
use stallwatch::float::Double;
use stallwatch::json;
use stallwatch::json::Json;
use stallwatch::pathology::{Severity, Warning};
use stallwatch::psi::{PsiKind, Resource};
use stallwatch::report::{
    bytes_phrase, json_str, observe, psi_available, Cause, Report, Role, Stall,
};

fn d(x: f64) -> Double {
    Double { bits: x.to_bits() }
}

fn cause(unit: &str, cgroup: &str, bytes: u64, pressure: f64) -> Cause {
    Cause {
        unit: unit.into(),
        cgroup: cgroup.into(),
        read_bytes: 0,
        write_bytes: bytes,
        discard_bytes: 0,
        pressure_pct: d(pressure),
        role: Cause::classify(bytes, d(pressure)),
    }
}

#[test]
fn classify_needs_real_bytes_and_an_unblocked_mover() {
    let mib = 1024 * 1024;
    assert_eq!(Cause::classify(5 * mib, d(10.0)), Role::Cause);
    assert_eq!(Cause::classify(0, d(90.0)), Role::Victim);
    // Moving data AND blocked: competing, not clearly at fault.
    assert_eq!(Cause::classify(5 * mib, d(90.0)), Role::Active);
    // Neither: no verdict.
    assert_eq!(Cause::classify(0, d(10.0)), Role::Active);
}

#[test]
fn a_trickle_is_never_a_cause() {
    assert_ne!(Cause::classify(40 * 1024, d(0.0)), Role::Cause);
}

#[test]
fn the_root_cgroup_is_never_nameable() {
    assert!(!cause("whole system", cgroup::ROOT, 1 << 30, 5.0).is_nameable());
    assert!(cause(
        "journald",
        "/sys/fs/cgroup/system.slice/x.service",
        1 << 20,
        5.0
    )
    .is_nameable());
}

#[test]
fn the_headline_names_the_biggest_mover_even_when_it_is_contended() {
    let r = Report {
        window_usec: 1_000_000,
        stalls: vec![],
        causes: vec![
            cause(
                "bigwriter",
                "/sys/fs/cgroup/app.slice/big.scope",
                1_500 * 1024 * 1024,
                90.0,
            ),
            cause(
                "systemd-journald",
                "/sys/fs/cgroup/system.slice/j.service",
                21 * 1024 * 1024,
                11.0,
            ),
        ],
        warnings: vec![],
    };
    let text = r.to_text();
    assert!(text.contains("bigwriter"), "{text}");
    assert!(text.contains("contended too"), "{text}");
    let head = text.find("bigwriter").unwrap();
    let other = text.find("systemd-journald").unwrap();
    assert!(head < other, "biggest mover must lead:\n{text}");
}

#[test]
fn root_never_takes_the_headline_but_is_reported_as_context() {
    let r = Report {
        window_usec: 1_000_000,
        stalls: vec![],
        causes: vec![
            cause(
                "whole system (root cgroup)",
                cgroup::ROOT,
                500 * 1024 * 1024,
                40.0,
            ),
            cause(
                "journald",
                "/sys/fs/cgroup/system.slice/j.service",
                10 * 1024 * 1024,
                5.0,
            ),
        ],
        warnings: vec![],
    };
    let text = r.to_text();
    assert!(text.contains("most of the IO: journald"), "{text}");
    assert!(text.contains("kernel-side"), "root context missing:\n{text}");
}

#[test]
fn causes_reach_both_json_renderers() {
    let r = Report {
        window_usec: 1_000_000,
        stalls: vec![],
        causes: vec![cause(
            "journald",
            "/sys/fs/cgroup/system.slice/j.service",
            2 * 1024 * 1024,
            5.0,
        )],
        warnings: vec![],
    };
    for j in [r.to_json(), r.to_json_compact()] {
        assert!(j.contains("\"causes\""), "{j}");
        assert!(
            j.contains("\"role\": \"cause\"") || j.contains("\"role\":\"cause\""),
            "{j}"
        );
        assert!(j.contains("2097152"), "{j}");
    }
}

#[test]
fn bytes_phrase_reads_like_a_person() {
    assert_eq!(bytes_phrase(512), "512 B");
    assert_eq!(bytes_phrase(2048), "2 KiB");
    assert_eq!(bytes_phrase(5 * 1024 * 1024), "5 MiB");
    assert_eq!(bytes_phrase(3 * 1024 * 1024 * 1024), "3.0 GiB");
}

#[test]
fn json_escapes_systemd_backslash_encoding() {
    assert_eq!(json_str(r"app\x2dfoo"), r#""app\\x2dfoo""#);
    assert_eq!(json_str("a\"b"), r#""a\"b""#);
    assert_eq!(json_str("a\nb"), r#""a\nb""#);
}

#[test]
fn lib_json_escapes_systemd_backslash_encoding() {
    assert_eq!(json_str(r"app\x2dfoo"), r#""app\\x2dfoo""#);
    assert_eq!(json_str("a\"b"), r#""a\"b""#);
    assert_eq!(json_str("a\nb"), r#""a\nb""#);
}

#[test]
fn lib_empty_report_is_valid_json_shape() {
    let j = Report::default().to_json();
    assert!(j.starts_with('{') && j.ends_with('}'), "{j}");
    assert!(
        j.contains("\"stalls\": [") && j.contains("\"warnings\": ["),
        "{j}"
    );
}

fn stalled() -> Stall {
    Stall {
        unit: "systemd-journald".into(),
        cgroup: "/sys/fs/cgroup/system.slice/systemd-journald.service".into(),
        resource: Resource::Io,
        kind: PsiKind::Full,
        delta_usec: 250_000,
        pressure_pct: d(25.0),
        peak_pct: d(40.0),
    }
}

#[test]
fn lib_report_json_includes_stall_fields() {
    let r = Report {
        window_usec: 1_000_000,
        stalls: vec![stalled()],
        warnings: vec![],
        causes: vec![],
    };
    let j = r.to_json();
    assert!(j.contains("\"resource\": \"io\""), "{j}");
    assert!(j.contains("\"type\": \"full\""), "{j}");
    assert!(j.contains("\"pressure_pct\": 25.00"), "{j}");
    assert!(j.contains("\"peak_pct\": 40.00"), "{j}");
}

#[test]
fn a_report_for_a_terminal_reads_in_full() {
    let r = observe(vec![stalled()], vec![], 1_000_000, vec![]);
    assert_eq!(
        r.to_text(),
        "Over the last 1.0s, these units stalled the system:\n\n    25.0%  io      systemd-journald  — frozen 250ms waiting on io   (worst tick 40%)\n\n  worst cgroup: /sys/fs/cgroup/system.slice/systemd-journald.service\n"
    );
    assert_eq!(
        Report::default().to_text(),
        "No significant stalls in the last 0.0s. System is responsive.\n"
    );
    assert!(psi_available(true));
    assert!(!psi_available(false));
}

#[test]
fn control_characters_are_written_by_number() {
    assert_eq!(json_str("\u{1f}\t"), "\"\\u001f\\t\"");
}

#[test]
fn both_renderers_write_the_same_document() {
    let mut awkward = stalled();
    awkward.unit = "a \"quoted\" \\x2d\u{1}\tn\u{e9}\u{1f600}".into();
    let r = Report {
        window_usec: 2_000_000,
        stalls: vec![awkward, stalled()],
        causes: vec![cause("a", "/sys/fs/cgroup/a", 1 << 30, 12.34)],
        warnings: vec![Warning {
            source: "thermal".into(),
            severity: Severity::Note,
            transient: true,
            message: "two\nlines".into(),
        }],
    };
    let pretty = json::parse(&r.to_json()).expect("pretty parses");
    let compact = json::parse(&r.to_json_compact()).expect("compact parses");
    assert_eq!(pretty, compact);
    let units = pretty.get("stalls").and_then(Json::as_array).expect("stalls");
    assert_eq!(
        units[0].get("unit").and_then(Json::as_str),
        Some("a \"quoted\" \\x2d\u{1}\tn\u{e9}\u{1f600}")
    );
    assert!(!r.to_json_compact().contains('\n'));
}
