use stallwatch::cli::{
    drill_top, each_ms, fields_text, narrow, targets, unknown_complaint, unknown_flag, wanted, Inside,
    Options, Wanted,
};
use stallwatch::filter::{fields, Filter};
use stallwatch::float::Double;
use stallwatch::pathology::{Severity, Warning};
use stallwatch::process::ProcCulprit;
use stallwatch::psi::{PsiKind, Resource};
use stallwatch::report::{Report, Stall};

fn stall(unit: &str, cgroup: &str) -> Stall {
    Stall {
        unit: unit.into(),
        cgroup: cgroup.into(),
        resource: Resource::Io,
        kind: PsiKind::Full,
        delta_usec: 500_000,
        pressure_pct: Double { bits: 50.0f64.to_bits() },
        peak_pct: Double { bits: 50.0f64.to_bits() },
    }
}

fn args(a: &[&str]) -> Vec<String> {
    a.iter().map(|s| s.to_string()).collect()
}

#[test]
fn arguments_are_read() {
    let o = Options::read(&args(&["why", "-n", "3", "--json", "--since", "60", "--window", "x"]));
    assert!(o.why && o.json && !o.watch && !o.help && !o.fields && !o.processes);
    assert_eq!(o.count, 3);
    assert_eq!(o.since, Some(60));
    assert_eq!(o.window_ms, 1000);
    assert!(Options::read(&args(&["-h"])).help);
    assert!(!Options::read(&args(&["--json", "why"])).why);
}

#[test]
fn a_bad_filter_is_pointed_at() {
    assert!(matches!(wanted(&args(&[])), Wanted::Everything));
    assert!(matches!(
        wanted(&args(&["--filter"])),
        Wanted::Wrong(m) if m == "stallwatch: --filter needs an expression\n"
    ));
    assert!(matches!(
        wanted(&args(&["--filter", " unit ~ x "])),
        Wanted::Matching(f) if f.as_str() == "unit ~ x"
    ));
    match wanted(&args(&["--filter", "peak >"])) {
        Wanted::Wrong(m) => {
            assert!(m.starts_with("stallwatch: bad filter: "), "{m}");
            assert!(m.contains("\n  peak >\n  "), "{m}");
            assert!(m.ends_with("^\n\nRun `stallwatch --fields` to see what you can filter on.\n"));
        }
        _ => panic!("should be wrong"),
    }
}

#[test]
fn narrowing_keeps_what_matches() {
    let mut r = Report {
        window_usec: 7,
        stalls: vec![stall("a", "/a"), stall("b", "/b")],
        causes: vec![],
        warnings: vec![Warning {
            source: "nvme".into(),
            severity: Severity::Note,
            transient: false,
            message: "warm".into(),
        }],
    };
    narrow(&mut r, &Filter::parse("unit == b").unwrap());
    assert_eq!(r.stalls.len(), 1);
    assert_eq!(r.stalls[0].unit, "b");
    assert!(r.warnings.is_empty());
    assert_eq!(r.window_usec, 7);
}

#[test]
fn every_field_is_listed() {
    let text = fields_text();
    for (name, _) in fields() {
        assert!(text.contains(name), "{name} missing");
    }
    assert!(text.starts_with("Fields available to --filter:\n\n  "));
}

#[test]
fn the_first_three_cgroups_are_looked_into() {
    let s = vec![
        stall("a", "/a"),
        stall("a", "/a"),
        stall("b", "/b"),
        stall("c", "/c"),
        stall("d", "/d"),
    ];
    assert_eq!(targets(&s), vec![0, 2, 3]);
    assert_eq!(each_ms(1000, 3), 333);
    assert_eq!(each_ms(300, 3), 200);
}

#[test]
fn the_processes_behind_a_stall_read_in_full() {
    let inside = vec![
        Inside {
            unit: "idle".into(),
            culprits: vec![],
        },
        Inside {
            unit: "ghostty".into(),
            culprits: vec![ProcCulprit {
                pid: 42,
                comm: "dd".into(),
                blocked_samples: 1,
                total_samples: 10,
                read_bytes: 0,
                write_bytes: 5 * 1024 * 1024,
                blkio_delay_ms: Some(12),
            }],
        },
    ];
    assert_eq!(
        drill_top(&inside, true),
        "\n  inside ghostty:\n    causing   10% blocked  dd [42]  \u{b7}  5 MiB of disk IO  \u{b7}  12ms blocked\n"
    );
    assert!(drill_top(&inside, false).ends_with("kernel.task_delayacct=1)\n"));
    assert_eq!(drill_top(&Vec::new(), false), "");
    assert!(drill_top(&inside[..1].iter().map(|_| Inside { unit: "x".into(), culprits: vec![] }).collect(), true)
        .starts_with("\n  no process caught blocking"));
}

#[test]
fn an_unknown_flag_is_not_ignored() {
    assert_eq!(unknown_flag(&args(&["--pocesses"])).as_deref(), Some("--pocesses"));
    assert_eq!(unknown_flag(&args(&["why", "--filter", "-x", "-n", "2", "--json"])), None);
    assert_eq!(unknown_flag(&args(&["--window"])), None);
    assert_eq!(unknown_flag(&args(&["doctor", "-V", "--quiet"])).as_deref(), Some("--quiet"));
    assert!(unknown_complaint("--x").starts_with("stallwatch: unknown option --x\n"));
    assert!(Options::read(&args(&["--version"])).version);
    assert!(Options::read(&args(&["doctor"])).doctor);
    assert!(Options::read(&args(&["config", "--explain"])).config);
    assert!(!Options::read(&args(&["--json", "config"])).config);
    assert!(unknown_flag(&args(&["config", "--explain"])).is_none());
}
