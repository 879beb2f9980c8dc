use stallwatch::float::Double;
use stallwatch::incident::{Culprit, Incident};
use stallwatch::notify::{subject, Notice, Notifier, DEFAULT_COOLDOWN, DEFAULT_MIN_PEAK};
use stallwatch::pathology::{Severity, Warning};
use stallwatch::psi::{PsiKind, Resource};
use stallwatch::report::{Cause, Role, Stall};
use stallwatch::span::Span;

fn d(x: f64) -> Double {
    Double { bits: x.to_bits() }
}

/// One capture: `stalled_ms` of stall inside a 400ms-ish window, at `at`.
fn incident_at(at: u64, stalled_ms: u64) -> Incident {
    Incident {
        at_unix: at,
        window_usec: 400_000,
        woke_on: vec!["io".into()],
        stalls: vec![Stall {
            unit: "com.mitchellh.ghostty".into(),
            cgroup: "/sys/fs/cgroup/app.slice/ghostty.service".into(),
            resource: Resource::Io,
            kind: PsiKind::Full,
            delta_usec: stalled_ms * 1000,
            pressure_pct: d(99.0),
            peak_pct: d(99.0),
        }],
        warnings: vec![],
        culprits: vec![],
        causes: vec![],
    }
}

fn backlog() -> Warning {
    Warning {
        source: "btrfs".into(),
        severity: Severity::Note,
        transient: true,
        message: "discard backlog".into(),
    }
}

fn journald(bytes: u64, pressure: f64) -> Cause {
    Cause {
        unit: "systemd-journald".into(),
        cgroup: "/sys/fs/cgroup/system.slice/systemd-journald.service".into(),
        read_bytes: 0,
        write_bytes: bytes,
        discard_bytes: 0,
        pressure_pct: d(pressure),
        role: Role::Cause,
    }
}

fn put(n: &mut Notifier, i: &Incident, now: u64) -> Option<Notice> {
    n.consider(i, now, &Vec::new())
}

/// Feed `n` captures a second apart, each contributing `stalled_ms`.
fn drive(n: &mut Notifier, count: u64, stalled_ms: u64, from: u64) -> Vec<Notice> {
    (0..count)
        .filter_map(|i| {
            let at = from + i;
            put(n, &incident_at(at, stalled_ms), at)
        })
        .collect()
}

#[test]
fn one_capture_says_nothing() {
    let mut n = Notifier::default();
    assert!(put(&mut n, &incident_at(1000, 400), 1000).is_none());
}

#[test]
fn an_episode_speaks_once() {
    // 400ms per capture, one per second: 60s of stall needs 150 captures.
    let mut n = Notifier::default();
    let notices = drive(&mut n, 200, 400, 1000);
    assert_eq!(notices.len(), 1, "expected exactly one notice");
    assert!(notices[0].summary.contains("freezing"), "{:?}", notices[0]);
}

#[test]
fn a_storm_produces_one_notice_not_hundreds() {
    let mut n = Notifier::default();
    let notices = drive(&mut n, 3_000, 400, 1000);
    assert_eq!(
        notices.len(),
        1,
        "a six-hour cooldown must fold a 50-minute storm into one notice"
    );
}

#[test]
fn a_clock_that_was_set_back_does_not_end_the_cooldown() {
    let mut n = Notifier::default();
    assert_eq!(drive(&mut n, 200, 400, 100_000).len(), 1);
    assert!(drive(&mut n, 200, 400, 1_000).is_empty());
    assert!(drive(&mut n, 200, 400, 100_500).is_empty());
}

#[test]
fn the_cooldown_eventually_expires() {
    let mut n = Notifier::default();
    assert_eq!(drive(&mut n, 200, 400, 1_000).len(), 1);
    let later = 1_000 + DEFAULT_COOLDOWN + 10;
    assert_eq!(drive(&mut n, 200, 400, later).len(), 1);
}

#[test]
fn a_brief_stall_never_reaches_the_threshold() {
    // Twenty captures is 8s of stall in a 600s window: the machine coped.
    let mut n = Notifier::default();
    assert!(drive(&mut n, 20, 400, 1000).is_empty());
}

#[test]
fn stall_outside_the_window_does_not_accumulate() {
    // Captures an hour apart never form an episode, however many there are.
    let mut n = Notifier::default();
    let notices: Vec<Notice> = (0..300)
        .filter_map(|i| {
            let at = 1000 + i * 3600;
            put(&mut n, &incident_at(at, 400), at)
        })
        .collect();
    assert!(notices.is_empty(), "{notices:?}");
}

#[test]
fn an_unactionable_transient_is_never_announced() {
    let mut n = Notifier::default();
    let notices: Vec<Notice> = (0..500)
        .filter_map(|i| {
            let at = 1000 + i;
            let mut inc = incident_at(at, 400);
            inc.warnings = vec![backlog()];
            put(&mut n, &inc, at)
        })
        .collect();
    assert!(notices.is_empty(), "{notices:?}");
}

#[test]
fn a_transient_alongside_a_real_cause_still_speaks() {
    let mut n = Notifier::default();
    let notices: Vec<Notice> = (0..200)
        .filter_map(|i| {
            let at = 1000 + i;
            let mut inc = incident_at(at, 400);
            inc.warnings = vec![backlog()];
            inc.causes = vec![journald(200 * 1024 * 1024, 5.0)];
            put(&mut n, &inc, at)
        })
        .collect();
    assert_eq!(notices.len(), 1);
    assert!(
        notices[0].body.contains("systemd-journald"),
        "{:?}",
        notices[0]
    );
    assert!(
        notices[0].body.contains("clears itself"),
        "{:?}",
        notices[0]
    );
}

#[test]
fn the_message_names_the_cause_not_the_casualty() {
    let mut n = Notifier::default();
    let notices: Vec<Notice> = (0..200)
        .filter_map(|i| {
            let at = 1000 + i;
            let mut inc = incident_at(at, 400);
            inc.causes = vec![journald(2 * 1024 * 1024 * 1024, 4.0)];
            put(&mut n, &inc, at)
        })
        .collect();
    let body = &notices[0].body;
    assert!(body.contains("systemd-journald"), "{body}");
    assert!(body.contains("2.0 GiB"), "{body}");
}

#[test]
fn no_message_ever_reports_the_capture_window_as_a_freeze_duration() {
    let mut n = Notifier::default();
    let notices = drive(&mut n, 200, 400, 1000);
    let all = format!("{} {}", notices[0].summary, notices[0].body);
    assert!(!all.contains("400ms"), "{all}");
    assert!(!all.contains("405ms"), "{all}");
}

#[test]
fn a_chronic_condition_is_described_as_chronic() {
    let mut n = Notifier::default();
    let notices = drive(&mut n, 400, 400, 1000);
    assert!(notices[0].body.contains("continuous"), "{:?}", notices[0]);
}

#[test]
fn a_disabled_notifier_stays_quiet() {
    let mut n = Notifier::new(
        false,
        d(DEFAULT_MIN_PEAK as f64),
        Span::from_secs(DEFAULT_COOLDOWN),
    );
    assert!(drive(&mut n, 500, 400, 1000).is_empty());
}

#[test]
fn an_empty_incident_says_nothing() {
    let mut n = Notifier::default();
    let empty = Incident {
        at_unix: 0,
        window_usec: 0,
        woke_on: vec![],
        stalls: vec![],
        warnings: vec![],
        culprits: vec![],
        causes: vec![],
    };
    assert!(put(&mut n, &empty, 100).is_none());
    assert_eq!(subject(&empty), None);
}

#[test]
fn a_process_level_culprit_still_counts_as_actionable() {
    let mut n = Notifier::default();
    let notices: Vec<Notice> = (0..200)
        .filter_map(|i| {
            let at = 1000 + i;
            let mut inc = incident_at(at, 400);
            inc.warnings = vec![backlog()];
            inc.culprits = vec![Culprit {
                pid: 42,
                comm: "dd".into(),
                blocked_pct: d(5.0),
                bytes: 5 * 1024 * 1024,
                role: Role::Cause,
            }];
            put(&mut n, &inc, at)
        })
        .collect();
    assert_eq!(notices.len(), 1);
}

#[test]
fn a_notice_reads_in_full() {
    let mut n = Notifier::default();
    let bodies = vec![Some("[Desktop Entry]\nName=Ghostty\n".to_string())];
    let inc = incident_at(1000, 60_000);
    assert_eq!(subject(&inc).as_deref(), Some("com.mitchellh.ghostty"));
    let notice = n.consider(&inc, 1000, &bodies).unwrap();
    assert_eq!(
        notice.summary,
        "Your machine has been freezing for the last 10 minutes"
    );
    assert_eq!(
        notice.body,
        "Frozen 10% of that time, waiting on io. Ghostty took the worst of it, but the work is kernel-side and cannot be traced to a program. Run: stallwatch why"
    );
    assert_eq!(notice.also_suppressed, 0);
}

#[test]
fn captures_folded_into_a_notice_are_counted() {
    let mut n = Notifier::default();
    assert!(put(&mut n, &incident_at(1000, 60_000), 1000).is_some());
    assert!(put(&mut n, &incident_at(1001, 60_000), 1001).is_none());
    assert!(put(&mut n, &incident_at(1002, 60_000), 1002).is_none());
    let later = 1000 + DEFAULT_COOLDOWN;
    let notice = put(&mut n, &incident_at(later, 60_000), later).unwrap();
    assert_eq!(notice.also_suppressed, 2);
}
