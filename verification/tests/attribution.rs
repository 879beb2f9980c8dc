use stallwatch::attribution::{collect, is_responsible, Delta, Responsibility, Sampler};
use stallwatch::causes::Sweep;
use stallwatch::cgroup::Sampled;
use stallwatch::float::Double;
use stallwatch::iostat::{IoBytes, Moved};
use stallwatch::psi::{Psi, PsiKind, Resource, Snapshot};
use stallwatch::report::{Cause, Role};
use stallwatch::span::Span;

fn d(x: f64) -> Double {
    Double { bits: x.to_bits() }
}

fn m(pairs: &[(&str, u64)]) -> Vec<Delta> {
    pairs
        .iter()
        .map(|(p, d)| Delta {
            cgroup: p.to_string(),
            gained: *d,
        })
        .collect()
}

fn io(cgroup: &str, full: u64) -> Sampled {
    let none = Psi {
        some_total_us: 0,
        full_total_us: 0,
    };
    Sampled {
        cgroup: cgroup.to_string(),
        snapshot: Snapshot {
            cpu: none,
            memory: none,
            io: Psi {
                some_total_us: full,
                full_total_us: full,
            },
        },
    }
}

#[test]
fn attribution_parent_yields_to_dominant_child() {
    let d = m(&[
        ("/sys/fs/cgroup/user.slice", 1000),
        ("/sys/fs/cgroup/user.slice/app.slice", 900),
    ]);
    assert!(!is_responsible("/sys/fs/cgroup/user.slice", 1000, &d));
    assert!(is_responsible("/sys/fs/cgroup/user.slice/app.slice", 900, &d));
    // The fast path must agree with the reference.
    let r = Responsibility::new(&d);
    assert!(!r.is_responsible("/sys/fs/cgroup/user.slice", 1000));
    assert!(r.is_responsible("/sys/fs/cgroup/user.slice/app.slice", 900));
}

#[test]
fn attribution_parent_keeps_blame_when_children_are_diffuse() {
    // No single child dominates: "everything here is stalling" is the
    // correct and useful answer.
    let d = m(&[
        ("/sys/fs/cgroup/user.slice", 1000),
        ("/sys/fs/cgroup/user.slice/a.scope", 500),
        ("/sys/fs/cgroup/user.slice/b.scope", 500),
    ]);
    assert!(is_responsible("/sys/fs/cgroup/user.slice", 1000, &d));
}

#[test]
fn attribution_zero_delta_is_never_responsible() {
    assert!(!is_responsible("/x", 0, &m(&[])));
}

#[test]
fn attribution_exactly_at_dominance_threshold_yields() {
    let d = m(&[("/p", 1000), ("/p/c", 800)]);
    assert!(!is_responsible("/p", 1000, &d));
}

#[test]
fn attribution_just_under_threshold_keeps_blame() {
    let d = m(&[("/p", 1000), ("/p/c", 799)]);
    assert!(is_responsible("/p", 1000, &d));
}

#[test]
fn attribution_sibling_prefix_is_not_treated_as_a_child() {
    // "/p2" starts with "/p" as a string but is not a descendant path.
    let d = m(&[("/p", 1000), ("/p2", 900)]);
    assert!(is_responsible("/p", 1000, &d));
}

/// The fast path must agree with the quadratic reference on every input.
fn assert_agrees(d: &Vec<Delta>) {
    let r = Responsibility::new(d);
    for e in d {
        assert_eq!(
            r.is_responsible(&e.cgroup, e.gained),
            is_responsible(&e.cgroup, e.gained, d),
            "disagreement at {:?} delta={}",
            e.cgroup,
            e.gained
        );
    }
}

#[test]
fn agrees_with_reference_on_a_deep_tree() {
    assert_agrees(&m(&[
        ("/sys/fs/cgroup", 1000),
        ("/sys/fs/cgroup/user.slice", 900),
        ("/sys/fs/cgroup/user.slice/user-1000.slice", 880),
        ("/sys/fs/cgroup/user.slice/user-1000.slice/app.slice", 870),
        (
            "/sys/fs/cgroup/user.slice/user-1000.slice/app.slice/a.scope",
            800,
        ),
        (
            "/sys/fs/cgroup/user.slice/user-1000.slice/app.slice/b.scope",
            40,
        ),
        ("/sys/fs/cgroup/system.slice", 100),
        ("/sys/fs/cgroup/system.slice/x.service", 10),
    ]));
}

#[test]
fn agrees_when_children_are_diffuse() {
    assert_agrees(&m(&[("/p", 1000), ("/p/a", 500), ("/p/b", 500)]));
}

#[test]
fn agrees_on_sibling_prefix_traps() {
    // "/p2" shares a string prefix with "/p" but is not a descendant.
    assert_agrees(&m(&[("/p", 1000), ("/p2", 900), ("/p/c", 10)]));
}

#[test]
fn agrees_with_gaps_in_the_hierarchy() {
    // Intermediate cgroups can be absent (no pressure files, or unreadable).
    assert_agrees(&m(&[("/a", 1000), ("/a/b/c/d", 950)]));
}

#[test]
fn agrees_on_zero_and_single_entries() {
    assert_agrees(&m(&[]));
    assert_agrees(&m(&[("/only", 500)]));
    assert_agrees(&m(&[("/z", 0), ("/z/c", 0)]));
}

#[test]
fn scales_without_quadratic_blowup() {
    // 5,000 cgroups is a dense Kubernetes node. The quadratic version
    // projected to ~5s per tick here.
    let mut d = Vec::new();
    for i in 0..5000u64 {
        d.push(Delta {
            cgroup: format!(
                "/sys/fs/cgroup/system.slice/svc{}.service/task{i}.scope",
                i % 250
            ),
            gained: i % 977,
        });
    }
    let t = std::time::Instant::now();
    let r = Responsibility::new(&d);
    let build = t.elapsed();
    let _ = r.is_responsible("/sys/fs/cgroup/system.slice", 100);
    assert!(
        build < std::time::Duration::from_millis(250),
        "5k cgroups took {build:?}; quadratic behaviour has returned"
    );
}

#[test]
fn sampler_produces_a_measured_window() {
    let mut s = Sampler::new(vec![io("/a", 0)], 1_000, Span::from_millis(1));
    let (_stalls, window) = s.tick(vec![io("/a", 60_000)], Span::from_millis(1), 121_000, 121_500);
    // The window is real elapsed time, not a configured constant.
    assert_eq!(window, 120_000);
}

#[test]
fn sampler_reports_sweep_cost() {
    let mut s = Sampler::new(Vec::new(), 0, Span::from_millis(3));
    assert_eq!(s.last_sweep(), Span::from_millis(3));
    s.tick(Vec::new(), Span::from_millis(9), 100, 200);
    assert_eq!(s.last_sweep(), Span::from_millis(9));
}

#[test]
fn recommended_interval_scales_with_sweep_cost_and_respects_bounds() {
    let s = Sampler::new(Vec::new(), 0, Span::from_millis(10));
    let floor = Span::from_millis(250);
    let ceil = Span::from_secs(30);
    let i = s.recommended_interval(d(0.02), floor, ceil);
    assert_eq!(i, Span::from_millis(500));
    // A tighter duty budget must never sample more often.
    let tight = s.recommended_interval(d(0.001), floor, ceil);
    assert_eq!(tight, Span::from_secs(10));
    let cheap = Sampler::new(Vec::new(), 0, Span::from_millis(1));
    assert_eq!(cheap.recommended_interval(d(0.02), floor, ceil), floor);
    let dear = Sampler::new(Vec::new(), 0, Span::from_secs(2));
    assert_eq!(dear.recommended_interval(d(0.02), floor, ceil), ceil);
}

#[test]
fn consecutive_ticks_do_not_double_count() {
    // Each tick diffs against the previous sweep, so a delta can never be
    // attributed to two windows.
    let mut s = Sampler::new(vec![io("/a", 0)], 0, Span::from_millis(1));
    let (first, w1) = s.tick(vec![io("/a", 50_000)], Span::from_millis(1), 100_000, 100_000);
    let (second, w2) = s.tick(vec![io("/a", 60_000)], Span::from_millis(1), 200_000, 200_000);
    assert_eq!((w1, w2), (100_000, 100_000));
    assert_eq!(first[0].delta_usec, 50_000);
    assert_eq!(second[0].delta_usec, 10_000);
}

#[test]
fn a_cgroup_that_appeared_mid_window_is_skipped() {
    let first = sweep(vec![io("/a", 10)], &[]);
    let second = sweep(vec![io("/a", 500_010), io("/b", 900_000)], &[("/b", 0, 9_000_000)]);
    let (stalls, causes, window) = collect(&first, &second, 1_000_000);
    assert_eq!(window, 1_000_000);
    assert!(causes.is_empty());
    assert_eq!(stalls.len(), 1);
    assert_eq!(stalls[0].cgroup, "/a");
    assert_eq!(stalls[0].resource, Resource::Io);
    assert_eq!(stalls[0].kind, PsiKind::Full);
    assert_eq!(stalls[0].pressure_pct, d(50.0));
    assert_eq!(stalls[0].peak_pct, d(50.0));
}

fn sweep(pressure: Vec<Sampled>, moved: &[(&str, u64, u64)]) -> Sweep {
    Sweep {
        pressure,
        moved: moved
            .iter()
            .map(|(cgroup, read, write)| Moved {
                cgroup: cgroup.to_string(),
                bytes: IoBytes {
                    read: *read,
                    write: *write,
                    discard: 0,
                },
            })
            .collect(),
    }
}

const MIB: u64 = 1024 * 1024;
const OWN: &str = "/sys/fs/cgroup/user.slice/app.slice/writer.scope";

#[test]
fn attribution_names_the_cgroup_that_actually_did_the_io() {
    // `io.stat` is recursive: the bytes appear at the cgroup and at every
    // ancestor, and one of them must be named.
    let before = sweep(
        vec![io(OWN, 0)],
        &[
            ("/sys/fs/cgroup", 0, MIB),
            ("/sys/fs/cgroup/user.slice", 0, MIB),
            ("/sys/fs/cgroup/user.slice/app.slice", 0, MIB),
            (OWN, 0, MIB),
        ],
    );
    let after = sweep(
        vec![io(OWN, 20_000)],
        &[
            ("/sys/fs/cgroup", 0, 60 * MIB),
            ("/sys/fs/cgroup/user.slice", 0, 51 * MIB),
            ("/sys/fs/cgroup/user.slice/app.slice", 0, 51 * MIB),
            (OWN, 0, 51 * MIB),
        ],
    );
    let (_, causes, _) = collect(&before, &after, 1_000_000);
    let named: Vec<&Cause> = causes.iter().filter(|c| c.is_nameable()).collect();
    assert_eq!(named.len(), 1);
    assert_eq!(named[0].cgroup, OWN);
    assert_eq!(named[0].unit, "writer");
    assert_eq!(named[0].bytes(), 50 * MIB);
    assert_eq!(named[0].pressure_pct, d(2.0));
    assert_eq!(named[0].role, Role::Cause);
}

#[test]
fn a_quiet_system_is_not_accused_of_anything() {
    let quiet = || sweep(vec![io(OWN, 10)], &[(OWN, 7 * MIB, 9 * MIB)]);
    let (stalls, causes, _) = collect(&quiet(), &quiet(), 700_000);
    assert!(stalls.is_empty());
    assert!(causes.is_empty());
}

#[test]
fn the_biggest_mover_comes_first_and_a_counter_that_went_back_counts_nothing() {
    let before = sweep(Vec::new(), &[("/a", 0, 0), ("/b", 0, 0), ("/c", 9, 9)]);
    let after = sweep(Vec::new(), &[("/a", 1, 2), ("/b", 2 * MIB, 0), ("/c", 5, 5)]);
    let (_, causes, _) = collect(&before, &after, 1_000_000);
    let order: Vec<&str> = causes.iter().map(|c| c.cgroup.as_str()).collect();
    assert_eq!(order, vec!["/b", "/a"]);
    assert_eq!(causes[1].role, Role::Active);
    let (_, none, window) = collect(&before, &after, 0);
    assert!(none.is_empty());
    assert_eq!(window, 0);
}
