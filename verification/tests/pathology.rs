use stallwatch::float::Double;
use stallwatch::pathology::btrfs::{read_u64, Filesystem};
use stallwatch::pathology::thermal::{assess, Monitor, Sensor};
use stallwatch::pathology::{btrfs, scan, thermal, Severity};

fn d(x: f64) -> Double {
    Double { bits: x.to_bits() }
}

fn text(s: &str) -> Option<String> {
    Some(s.to_string())
}

fn filesystem() -> Filesystem {
    Filesystem {
        path: "/sys/fs/btrfs/test".to_string(),
        has_allocation: true,
        discardable_extents: text("500"),
        discardable_bytes: text("1048576"),
        iops_limit: text("1000"),
        data_total: None,
        metadata_total: None,
        system_total: None,
        device_sectors: Vec::new(),
    }
}

#[test]
fn severity_renders_for_the_wire() {
    assert_eq!(Severity::Note.as_str(), "note");
    assert_eq!(Severity::Warn.as_str(), "warn");
    assert_eq!(Severity::Critical.as_str(), "critical");
}

#[test]
fn scan_never_panics_on_this_machine() {
    assert!(scan(&Vec::new(), &Vec::new()).is_empty());
    let _ = scan(&vec![filesystem()], &Vec::new());
}

#[test]
fn comfortably_under_limit_is_silent() {
    assert!(assess("Composite", d(72.0), Some(d(82.0))).is_none());
    assert!(assess("Composite", d(45.0), Some(d(81.0))).is_none());
}

#[test]
fn within_margin_reports_without_claiming_causation() {
    let w = assess("Composite", d(78.0), Some(d(82.0))).expect("should report");
    assert_eq!(w.severity, Severity::Note);
    assert!(w.message.contains("not proof of throttling"), "{}", w.message);
    assert!(w.message.contains("Trans Count"), "{}", w.message);
}

#[test]
fn at_or_over_limit_escalates_but_still_defers_to_the_counters() {
    let w = assess("Composite", d(98.0), Some(d(82.0))).expect("should report");
    assert_eq!(w.severity, Severity::Critical);
    assert!(w.message.contains("at or above"), "{}", w.message);
    assert!(w.message.contains("Trans Count"), "{}", w.message);
}

#[test]
fn sensors_without_a_published_limit_are_never_warned_on() {
    assert!(assess("Sensor 2", d(91.0), None).is_none());
    assert!(assess("Sensor 2", d(105.0), None).is_none());
    assert!(assess("temp1", d(72.0), None).is_none());
}

#[test]
fn check_is_infallible_regardless_of_host_hardware() {
    assert!(thermal::check(&Vec::new()).is_empty());
    let garbage = Monitor {
        path: String::new(),
        name: text("nvme"),
        sensors: vec![Sensor {
            index: 1,
            input: text("hot"),
            label: None,
            crit: text("-3"),
        }],
    };
    assert!(thermal::check(&vec![garbage]).is_empty());
}

#[test]
fn check_is_infallible_regardless_of_host_filesystem() {
    assert!(btrfs::check(&Vec::new()).is_empty());
    let mut f = filesystem();
    f.discardable_extents = text("many");
    assert!(btrfs::check(&vec![f]).is_empty());
}

#[test]
fn read_u64_rejects_garbage() {
    assert_eq!(read_u64(&None), None);
    assert_eq!(read_u64(&text("Linux version 6.1")), None);
    assert_eq!(read_u64(&text(" 42\n")), Some(42));
}

#[test]
fn discard_warning_respects_the_floor() {
    let mut f = filesystem();
    assert!(
        f.check_discard("test").is_none(),
        "a small steady-state queue must not be reported"
    );

    f.discardable_extents = text("250000");
    let w = f.check_discard("test").expect("a large backlog must be reported");
    assert!(w.transient, "a discard backlog clears on its own");
    assert!(w.message.contains("250000"), "{}", w.message);
    assert!(
        w.message.contains("kernel"),
        "must explain why no process shows IO delay: {}",
        w.message
    );
}

#[test]
fn a_drive_close_to_its_limit_is_reported_by_its_label() {
    let m = Monitor {
        path: "/sys/class/hwmon/hwmon3".to_string(),
        name: text("nvme\n"),
        sensors: vec![Sensor {
            index: 1,
            input: text("79000\n"),
            label: text("Composite\n"),
            crit: text("82000\n"),
        }],
    };
    let w = thermal::check(&vec![m]);
    assert_eq!(w.len(), 1);
    assert!(w[0].message.contains("'Composite' is at 79 °C, 3 °C below"), "{}", w[0].message);
}

#[test]
fn an_all_but_allocated_device_is_reported() {
    let mut f = filesystem();
    f.data_total = text("1073741824");
    f.metadata_total = text("0");
    f.system_total = text("0");
    f.device_sectors = vec![text("2097160")];
    let w = f.check_allocation("pool").expect("four KiB are left");
    assert_eq!(w.severity, Severity::Warn);
    assert!(w.message.starts_with("pool: only 0.0 MiB of 1 GiB"), "{}", w.message);
    f.device_sectors = vec![text("4194304")];
    assert!(f.check_allocation("pool").is_none());
}
