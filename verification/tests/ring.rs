use stallwatch::float::Double;
use stallwatch::psi::{PsiKind, Resource};
use stallwatch::report::Stall;
use stallwatch::ring::{Frame, Ring};

fn d(x: f64) -> Double {
    Double { bits: x.to_bits() }
}

fn f(x: Double) -> f64 {
    f64::from_bits(x.bits)
}

fn stall(unit: &str, usec: u64, pct: f64) -> Stall {
    Stall {
        unit: unit.into(),
        cgroup: format!("/sys/fs/cgroup/{unit}"),
        resource: Resource::Io,
        kind: PsiKind::Full,
        delta_usec: usec,
        pressure_pct: d(pct),
        peak_pct: d(pct),
    }
}

fn frame(at: u64, stalls: Vec<Stall>) -> Frame {
    Frame {
        at_unix: at,
        window_usec: 1_000_000,
        stalls,
    }
}

#[test]
fn evicts_oldest_beyond_capacity() {
    let mut r = Ring::new(3);
    for i in 0..5 {
        r.push(frame(i, vec![]));
    }
    assert_eq!(r.len(), 3);
    assert_eq!(r.newest().unwrap().at_unix, 4);
    assert_eq!(r.span_secs(), 2); // frames 2,3,4
}

#[test]
fn capacity_is_never_zero() {
    let mut r = Ring::new(0);
    r.push(frame(1, vec![]));
    assert_eq!(r.len(), 1);
}

#[test]
fn aggregate_sums_usec_across_frames() {
    let mut r = Ring::new(10);
    r.push(frame(100, vec![stall("a", 100_000, 10.0)]));
    r.push(frame(101, vec![stall("a", 300_000, 30.0)]));
    let rep = r.aggregate(0);
    assert_eq!(rep.window_usec, 2_000_000);
    assert_eq!(rep.stalls.len(), 1);
    assert_eq!(rep.stalls[0].delta_usec, 400_000);
    assert!((f(rep.stalls[0].pressure_pct) - 20.0).abs() < 0.01);
}

#[test]
fn peak_survives_averaging() {
    let mut r = Ring::new(64);
    r.push(frame(100, vec![stall("x", 940_000, 94.0)]));
    for i in 1..60 {
        r.push(frame(100 + i, vec![]));
    }
    let rep = r.aggregate(0);
    assert!(
        f(rep.stalls[0].pressure_pct) < 2.0,
        "average should look small"
    );
    assert!(
        (f(rep.stalls[0].peak_pct) - 94.0).abs() < 0.01,
        "peak must survive"
    );
}

#[test]
fn ranks_by_peak_not_average() {
    let mut r = Ring::new(10);
    // "steady" has a higher total; "spike" froze the machine harder once.
    r.push(frame(
        1,
        vec![
            stall("steady", 200_000, 20.0),
            stall("spike", 900_000, 90.0),
        ],
    ));
    r.push(frame(2, vec![stall("steady", 200_000, 20.0)]));
    r.push(frame(3, vec![stall("steady", 200_000, 20.0)]));
    r.push(frame(4, vec![stall("steady", 200_000, 20.0)]));
    r.push(frame(5, vec![stall("steady", 200_000, 20.0)]));
    let rep = r.aggregate(0);
    assert_eq!(rep.stalls[0].unit, "spike");
}

#[test]
fn noise_is_filtered_on_peak_not_average() {
    let mut r = Ring::new(128);
    // A brief hard freeze must survive; a permanently trivial unit must not.
    r.push(frame(
        1,
        vec![stall("spike", 900_000, 90.0), stall("noise", 3_000, 0.3)],
    ));
    for i in 2..100 {
        r.push(frame(i, vec![stall("noise", 3_000, 0.3)]));
    }
    let rep = r.aggregate(0);
    let units: Vec<&str> = rep.stalls.iter().map(|s| s.unit.as_str()).collect();
    assert!(
        units.contains(&"spike"),
        "brief freeze must survive: {units:?}"
    );
    assert!(
        !units.contains(&"noise"),
        "sub-threshold noise must be dropped: {units:?}"
    );
}

#[test]
fn since_filters_older_frames() {
    let mut r = Ring::new(10);
    r.push(frame(100, vec![stall("old", 500_000, 50.0)]));
    r.push(frame(200, vec![stall("new", 100_000, 10.0)]));
    let rep = r.aggregate(150);
    assert_eq!(rep.window_usec, 1_000_000);
    assert_eq!(rep.stalls.len(), 1);
    assert_eq!(rep.stalls[0].unit, "new");
}

#[test]
fn empty_window_yields_empty_report() {
    let r = Ring::new(4);
    let rep = r.aggregate(0);
    assert_eq!(rep.window_usec, 0);
    assert!(rep.stalls.is_empty());
}

#[test]
fn same_unit_different_resources_stay_separate() {
    let mut r = Ring::new(4);
    let mut cpu = stall("a", 100_000, 10.0);
    cpu.resource = Resource::Cpu;
    cpu.kind = PsiKind::SomeTasks;
    r.push(frame(1, vec![stall("a", 100_000, 10.0), cpu]));
    assert_eq!(r.aggregate(0).stalls.len(), 2);
}
