use stallwatch::cgroup::Bodies;
use stallwatch::metrics::{
    esc, pathology_series, push_duration, render, render_families, DEFAULT_MAX_SERIES,
};
use stallwatch::pathology::btrfs::Filesystem;
use stallwatch::pathology::thermal::{Monitor, Sensor};
use stallwatch::span::Span;

fn text(s: &str) -> Option<String> {
    Some(s.to_string())
}

fn bodies(path: &str, some: u64, full: u64) -> Bodies {
    let body = format!("some avg10=0 total={some}\nfull avg10=0 total={full}\n");
    Bodies {
        cgroup: path.to_string(),
        cpu: Some(format!("some avg10=0 total={some}\n")),
        memory: text("some avg10=0 total=0\n"),
        io: Some(body),
    }
}

fn machine() -> Vec<Bodies> {
    vec![
        bodies("/sys/fs/cgroup/b.slice", 2_500_000, 1_000_000),
        bodies("/sys/fs/cgroup/a\"x.service", 7, 0),
        bodies("/sys/fs/cgroup/quiet.service", 0, 0),
        bodies("/sys/fs/cgroup/a-b.service", 9, 3),
    ]
}

fn filesystems() -> Vec<Filesystem> {
    vec![Filesystem {
        path: "/sys/fs/btrfs/1234".to_string(),
        has_allocation: true,
        discardable_extents: text("12\n"),
        discardable_bytes: None,
        iops_limit: None,
        data_total: text("1000\n"),
        metadata_total: text("20\n"),
        system_total: text("4\n"),
        device_sectors: vec![text("4\n")],
    }]
}

fn monitors() -> Vec<Monitor> {
    vec![Monitor {
        path: "/sys/class/hwmon/hwmon0".to_string(),
        name: text("nvme\n"),
        sensors: vec![
            Sensor {
                index: 1,
                input: text("45850\n"),
                label: text("Composite\n"),
                crit: text("84850\n"),
            },
            Sensor {
                index: 2,
                input: text("91000\n"),
                label: None,
                crit: None,
            },
        ],
    }]
}

fn doc(max: usize) -> String {
    render(
        &machine(),
        &filesystems(),
        &monitors(),
        max,
        Span::from_millis(12),
    )
}

#[test]
fn the_time_it_took_comes_last() {
    let mut d = render_families(&machine(), &filesystems(), &monitors(), 500);
    assert!(!d.contains("scrape_duration"));
    push_duration(&mut d, Span::from_millis(12));
    assert_eq!(d, doc(500));
    assert!(d.ends_with("\nstallwatch_scrape_duration_seconds 0.012000\n"));
}

#[test]
fn escapes_label_values() {
    assert_eq!(esc(r"app\x2dfoo"), r"app\\x2dfoo");
    assert_eq!(esc(r#"a"b"#), r#"a\"b"#);
    assert_eq!(esc("a\nb"), r"a\nb");
}

#[test]
fn output_is_wellformed_exposition() {
    let doc = doc(DEFAULT_MAX_SERIES);
    for line in doc.lines() {
        if line.starts_with('#') || line.is_empty() {
            continue;
        }
        // metric{labels} value  -- value must parse as a float
        let value = line.rsplit(' ').next().expect("value field");
        assert!(
            value.parse::<f64>().is_ok(),
            "unparseable value in line: {line}"
        );
        assert!(!line.contains("NaN"), "NaN in output: {line}");
    }
}

#[test]
fn every_metric_has_help_and_type() {
    let doc = doc(DEFAULT_MAX_SERIES);
    let mut declared = std::collections::HashSet::new();
    for line in doc.lines() {
        if let Some(rest) = line.strip_prefix("# TYPE ") {
            declared.insert(rest.split(' ').next().unwrap().to_string());
        }
    }
    for line in doc.lines() {
        if line.starts_with('#') || line.is_empty() {
            continue;
        }
        let name = line.split(['{', ' ']).next().unwrap();
        assert!(declared.contains(name), "undeclared metric: {name}");
    }
}

#[test]
fn cpu_has_no_stalled_series() {
    // PSI does not produce a 'full' line for CPU; a constant zero would
    // invite alerts on a condition that cannot occur.
    let doc = doc(DEFAULT_MAX_SERIES);
    let mut stalled = 0;
    for line in doc.lines() {
        if line.starts_with("stallwatch_pressure_stalled_seconds_total") {
            stalled += 1;
            assert!(!line.contains(r#"resource="cpu""#), "{line}");
        }
    }
    assert_eq!(stalled, 3);
}

#[test]
fn cardinality_cap_is_enforced_and_reported() {
    let doc = doc(2);
    let emitted: usize = doc
        .lines()
        .find_map(|l| l.strip_prefix("stallwatch_series_emitted ")?.parse().ok())
        .expect("emitted gauge");
    assert!(emitted <= 2, "cap not enforced: {emitted}");
    assert!(
        doc.contains("stallwatch_series_dropped "),
        "must report drops"
    );
    assert!(doc.contains("\nstallwatch_series_dropped 4\n"), "{doc}");
}

#[test]
fn each_metric_family_is_contiguous() {
    let doc = doc(DEFAULT_MAX_SERIES);
    let mut seen_blocks: Vec<String> = Vec::new();
    let mut current = String::new();
    let mut last_typed: Option<String> = None;
    for line in doc.lines() {
        if let Some(rest) = line.strip_prefix("# TYPE ") {
            last_typed = Some(rest.split(' ').next().unwrap().to_string());
            continue;
        }
        if line.starts_with('#') || line.is_empty() {
            continue;
        }
        let name = line.split(['{', ' ']).next().unwrap().to_string();
        // A sample must belong to the most recent TYPE declaration.
        assert_eq!(
            last_typed.as_deref(),
            Some(name.as_str()),
            "sample {name} does not follow its own TYPE declaration"
        );
        if name != current {
            assert!(
                !seen_blocks.contains(&name),
                "family {name} appears in more than one block"
            );
            seen_blocks.push(name.clone());
            current = name;
        }
    }
}

#[test]
fn output_is_deterministically_ordered() {
    let names = |d: &str| -> Vec<String> {
        d.lines()
            .filter(|l| l.starts_with("stallwatch_pressure_"))
            .map(|l| l.split(' ').next().unwrap().to_string())
            .collect()
    };
    let a = doc(50);
    let mut other = machine();
    other.reverse();
    let b = render(
        &other,
        &filesystems(),
        &monitors(),
        50,
        Span::from_millis(9),
    );
    assert_eq!(names(&a), names(&b));
    // By component, not by character: `a"x.service` comes first, for a quote
    // sorts before a dash.
    assert!(names(&a)[0].contains("a\\\"x.service"), "{:?}", names(&a));
}

#[test]
fn a_counter_is_in_seconds() {
    let doc = doc(DEFAULT_MAX_SERIES);
    assert!(
        doc.contains("stallwatch_pressure_waiting_seconds_total{unit=\"b (group)\",cgroup=\"/sys/fs/cgroup/b.slice\",resource=\"io\"} 2.500000\n"),
        "{doc}"
    );
    assert!(doc.contains("\nstallwatch_cgroups_scanned 4\n"), "{doc}");
    assert!(
        doc.ends_with("\nstallwatch_scrape_duration_seconds 0.012000\n"),
        "{doc}"
    );
}

#[test]
fn conditions_are_gauges() {
    let s = pathology_series(&filesystems(), &monitors());
    assert!(
        s.contains("\nstallwatch_btrfs_unallocated_bytes{fsid=\"1234\"} 1024\n"),
        "{s}"
    );
    assert!(
        s.contains("\nstallwatch_btrfs_discard_queued_extents{fsid=\"1234\"} 12\n"),
        "{s}"
    );
    assert!(
        s.contains("\nstallwatch_drive_temperature_celsius{device=\"nvme\",sensor=\"Composite\"} 45.9\n"),
        "{s}"
    );
    // A sensor without a limit of its own is not exported.
    assert!(!s.contains("91.0"), "{s}");
    assert_eq!(pathology_series(&Vec::new(), &Vec::new()), "");
}

#[test]
fn of_two_entries_for_one_path_the_later_counts() {
    let b = vec![
        bodies("/sys/fs/cgroup/a.service", 1_000_000, 0),
        bodies("/sys/fs/cgroup/b.service", 3_000_000, 0),
        bodies("/sys/fs/cgroup//a.service/", 2_000_000, 0),
    ];
    let d = render_families(&b, &Vec::new(), &Vec::new(), 500);
    let first = d.lines().filter(|l| l.contains("unit=\"a\"") && l.ends_with(" 1.000000")).count();
    let later = d.lines().filter(|l| l.contains("unit=\"a\"") && l.ends_with(" 2.000000")).count();
    assert_eq!(first, 0, "{d}");
    assert!(later > 0, "{d}");
    assert!(d.lines().any(|l| l.contains("unit=\"b\"") && l.ends_with(" 3.000000")), "{d}");
}
