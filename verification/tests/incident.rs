use stallwatch::float::Double;
use stallwatch::incident::{
    bytes_sentence, duration_phrase, first_sentence, relative_time, Culprit, Incident,
};
use stallwatch::json;
use stallwatch::pathology::{Severity, Warning};
use stallwatch::process::ProcCulprit;
use stallwatch::psi::{PsiKind, Resource};
use stallwatch::report::{Report, Role, Stall};

fn d(x: f64) -> Double {
    Double { bits: x.to_bits() }
}

fn stall(unit: &str, pct: f64, ms: u64) -> Stall {
    Stall {
        unit: unit.into(),
        cgroup: format!("/sys/fs/cgroup/{unit}"),
        resource: Resource::Io,
        kind: PsiKind::Full,
        delta_usec: ms * 1000,
        pressure_pct: d(pct),
        peak_pct: d(pct),
    }
}

fn incident() -> Incident {
    Incident {
        at_unix: 1000,
        window_usec: 1_000_000,
        woke_on: vec!["io".into()],
        causes: Vec::new(),
        stalls: vec![stall("ghostty", 93.0, 3100)],
        warnings: vec![],
        culprits: vec![],
    }
}

#[test]
fn role_separates_the_cause_from_the_casualty() {
    // Moving data, not blocked: this is what stopped you.
    let cause = ProcCulprit {
        pid: 1,
        comm: "dd".into(),
        blocked_samples: 1,
        total_samples: 12,
        read_bytes: 0,
        write_bytes: 5 * 1024 * 1024 * 1024,
        blkio_delay_ms: None,
    };
    assert_eq!(Culprit::from_proc(&cause).role, Role::Cause);

    // Blocked, moving nothing: this is what got stopped.
    let victim = ProcCulprit {
        pid: 2,
        comm: "ghostty".into(),
        blocked_samples: 11,
        total_samples: 12,
        read_bytes: 0,
        write_bytes: 0,
        blkio_delay_ms: None,
    };
    assert_eq!(Culprit::from_proc(&victim).role, Role::Victim);
}

#[test]
fn explain_names_the_cause_and_absolves_the_victim() {
    let mut i = incident();
    i.culprits = vec![Culprit {
        pid: 214_461,
        comm: "dd".into(),
        blocked_pct: d(8.0),
        bytes: 5 * 1024 * 1024 * 1024,
        role: Role::Cause,
    }];
    let text = i.explain(1240);

    assert!(text.contains("3.1 seconds"), "{text}");
    assert!(text.contains("about four minutes ago"), "{text}");
    assert!(text.contains("ghostty"), "{text}");
    // The whole point: it must say ghostty was NOT at fault.
    assert!(text.contains("victim, not the cause"), "{text}");
    assert!(text.contains("dd [214461]"), "{text}");
    assert!(text.contains("5.0 GiB"), "{text}");
}

#[test]
fn explain_says_kernel_side_when_no_process_was_moving_data() {
    let mut i = incident();
    i.culprits = vec![Culprit {
        pid: 2,
        comm: "ghostty".into(),
        blocked_pct: d(90.0),
        bytes: 0,
        role: Role::Victim,
    }];
    let text = i.explain(1010);
    assert!(text.contains("kernel-side"), "{text}");
}

#[test]
fn explain_survives_having_nothing_to_say() {
    let empty = Incident {
        at_unix: 1,
        window_usec: 1000,
        woke_on: vec![],
        causes: Vec::new(),
        stalls: vec![],
        warnings: vec![],
        culprits: vec![],
    };
    let t = empty.explain(2);
    assert!(t.contains("Nothing was recorded"), "{t}");
}

#[test]
fn transient_warnings_reassure_rather_than_alarm() {
    let mut i = incident();
    i.warnings = vec![Warning {
        source: "btrfs".into(),
        severity: Severity::Note,
        transient: true,
        message: "working through a discard backlog. It runs in the kernel.".into(),
    }];
    let t = i.explain(1001);
    assert!(t.contains("clears itself"), "{t}");
}

#[test]
fn jsonl_is_one_line_and_parses() {
    let mut i = incident();
    i.culprits = vec![Culprit {
        pid: 7,
        comm: "dd".into(),
        blocked_pct: d(8.0),
        bytes: 1024,
        role: Role::Cause,
    }];
    let line = i.to_jsonl();
    assert!(!line.contains('\n'), "must stay one line");
    let parsed = json::parse(&line).expect("valid JSON");
    assert!(parsed.get("at_unix").is_some());
    assert!(parsed.get("culprits").is_some());
    // Superset of the report schema, so anything reading reports still works.
    assert!(parsed.get("stalls").is_some());
    assert!(parsed.get("window_usec").is_some());
}

#[test]
fn relative_time_reads_like_a_person_wrote_it() {
    assert_eq!(relative_time(5), "just now");
    assert_eq!(relative_time(60), "a minute ago");
    assert_eq!(relative_time(240), "about four minutes ago");
    assert_eq!(relative_time(3600), "about an hour ago");
    assert_eq!(relative_time(86400 * 2), "2 days ago");
}

#[test]
fn durations_switch_units_where_a_person_would() {
    assert_eq!(duration_phrase(d(0.85)), "850 milliseconds");
    assert_eq!(duration_phrase(d(3.12)), "3.1 seconds");
}

#[test]
fn a_half_counts_up() {
    assert_eq!(relative_time(150), "about three minutes ago");
    assert_eq!(relative_time(149), "about two minutes ago");
    assert_eq!(relative_time(3599), "about 60 minutes ago");
    assert_eq!(relative_time(5400), "about two hours ago");
    assert_eq!(relative_time(86399), "about 24 hours ago");
    assert_eq!(relative_time(86400), "yesterday");
}

#[test]
fn an_incident_reads_in_full() {
    let mut i = incident();
    i.stalls.push(stall("firefox", 40.4, 400));
    i.stalls.push(stall("code", 12.0, 120));
    i.stalls.push(stall("late", 2.0, 20));
    i.warnings = vec![Warning {
        source: "nvme".into(),
        severity: Severity::Note,
        transient: false,
        message: "sensor  is warm. Worth noting.".into(),
    }];
    assert_eq!(
        i.explain(900),
        "Your machine froze for 3.1 seconds, just now.\n\n  ghostty was blocked on io for 93% of that window.\n  Also stalled: firefox (40%), code (12%).\n\n  nvme: sensor is warm.\n"
    );
}

#[test]
fn an_incident_takes_over_its_report() {
    let r = Report {
        window_usec: 5,
        stalls: vec![stall("a", 1.0, 1)],
        causes: vec![],
        warnings: vec![],
    };
    let i = Incident::from_report(&r, vec!["cpu".into()], 77);
    assert_eq!(i.at_unix, 77);
    assert_eq!(i.window_usec, 5);
    assert_eq!(i.worst().map(|s| s.unit.as_str()), Some("a"));
    assert_eq!(i.frozen_ms(), d(1.0));
    assert!(i.culprits.is_empty());
}

#[test]
fn small_texts_are_written_for_a_sentence() {
    assert_eq!(bytes_sentence(512), "512 bytes");
    assert_eq!(bytes_sentence(1024), "1 KiB");
    assert_eq!(first_sentence("One. Two."), "One.");
    assert_eq!(first_sentence("v1.2 only"), "v1.2 only");
}

#[test]
fn a_line_of_the_log_reads_in_full() {
    let mut i = incident();
    i.culprits = vec![Culprit {
        pid: 7,
        comm: "d\td".into(),
        blocked_pct: d(8.25),
        bytes: 1024,
        role: Role::Cause,
    }];
    assert_eq!(
        i.to_jsonl(),
        "{\"at_unix\":1000,\"woke_on\":[\"io\"],\"culprits\":[{\"pid\":7,\"comm\":\"d\\u0009d\",\"blocked_pct\":8.2,\"bytes\":1024,\"role\":\"cause\"}],\"window_usec\":1000000,\"stalls\":[{\"unit\":\"ghostty\",\"cgroup\":\"/sys/fs/cgroup/ghostty\",\"resource\":\"io\",\"type\":\"full\",\"delta_usec\":3100000,\"pressure_pct\":93.00,\"peak_pct\":93.00}],\"causes\":[],\"warnings\":[]}"
    );
}
