use stallwatch::doctor::{
    diagnose, proc_io, summary_line, to_json, to_text, watching, wrap, CgroupProbe, Check,
    ProcProbe, Probe,
    Status,
};
use stallwatch::json;

fn probe(good: bool) -> Probe {
    Probe {
        controllers: good,
        pressure: good,
        cgroups: (0..8)
            .map(|i| CgroupProbe {
                io_pressure: good || i == 0,
                io_stat: if good { Some(String::new()) } else { None },
            })
            .collect(),
        processes: vec![
            ProcProbe {
                name: "1".to_string(),
                io: false,
            },
            ProcProbe {
                name: "42".to_string(),
                io: good,
            },
            ProcProbe {
                name: "self".to_string(),
                io: true,
            },
        ],
        system_refusal: if good { None } else { Some("Invalid argument".to_string()) },
        cgroup_refusal: Some("Permission denied".to_string()),
        delayacct: if good { Some("1\n".to_string()) } else { None },
    }
}

#[test]
fn every_check_that_is_not_ok_explains_what_breaks() {
    for c in diagnose(&probe(true)).into_iter().chain(diagnose(&probe(false))) {
        if c.status != Status::Available {
            assert!(
                !c.consequence.is_empty(),
                "{} is {} with no consequence stated",
                c.name,
                c.status.as_str()
            );
        }
        assert!(!c.detail.is_empty(), "{} has no detail", c.name);
    }
}

#[test]
fn proc_io_is_never_reported_as_healthy() {
    let everything = vec![ProcProbe {
        name: "7".to_string(),
        io: true,
    }];
    assert_ne!(proc_io(&everything).status, Status::Available);
    assert_ne!(proc_io(&Vec::new()).status, Status::Available);
}

#[test]
fn text_output_names_every_check() {
    let checks = diagnose(&probe(false));
    let text = to_text(&checks);
    for c in &checks {
        assert!(text.contains(c.name), "{} missing from output", c.name);
    }
}

#[test]
fn json_is_wellformed_and_complete() {
    let checks = diagnose(&probe(true));
    let j = to_json(&checks);
    assert!(j.starts_with(r#"{"checks":["#) && j.ends_with("]}"));
    assert_eq!(j.matches(r#""name":"#).count(), checks.len());
    assert!(json::parse(&j).is_ok());
}

#[test]
fn wrapping_never_loses_a_word() {
    let s = "a diagnostic that cannot diagnose itself will eventually lie";
    assert_eq!(wrap(s, 20).join(" "), s);
    assert_eq!(wrap("aa bb  cc", 5), vec!["aa bb", "cc"]);
    assert_eq!(wrap("longer than five", 5), vec!["longer", "than", "five"]);
}

#[test]
fn too_few_readable_cgroups_degrade_the_check() {
    let bad = diagnose(&probe(false));
    assert_eq!(bad[2].status, Status::Degraded);
    assert_eq!(bad[2].detail, "1 of 8 cgroups expose io.pressure");
    assert_eq!(bad[3].status, Status::Failed);
    let good = diagnose(&probe(true));
    assert_eq!(good[2].status, Status::Available);
    assert_eq!(
        good[4].detail,
        "readable for 1 of 2 processes (50%) — EACCES for anything you do not own"
    );
}

#[test]
fn the_summary_names_what_is_reduced() {
    assert_eq!(summary_line(&[]), "all capabilities available");
    let good = diagnose(&probe(true));
    assert_eq!(
        summary_line(&good),
        "reduced capability: /proc/<pid>/io, PSI triggers (per-cgroup) (run `stallwatch doctor` for what this costs)"
    );
}

#[test]
fn the_last_line_counts_what_is_missing() {
    assert!(to_text(&[]).ends_with("\n  Everything available.\n"));
    let one = [Check {
        name: "x",
        status: Status::Failed,
        detail: "gone".to_string(),
        consequence: "Nothing works.",
    }];
    assert_eq!(
        to_text(&one),
        "What stallwatch can and cannot see on this machine:\n\n  \u{2717} x                          gone\n      Nothing works.\n\n  1 capability missing. Results will be incomplete.\n"
    );
}

#[test]
fn a_dead_daemon_and_each_state_of_the_log_are_told_apart() {
    let up = watching(true, Some(1024), 2048);
    assert_eq!(up.len(), 2);
    assert_eq!(up[0].status, Status::Available);
    assert_eq!(up[0].detail, "answers on its socket");
    assert_eq!(up[1].status, Status::Available);
    assert_eq!(up[1].detail, "1 KiB, inside its cap of 2 KiB");
    let down = watching(false, None, 2048);
    assert_eq!(down[0].status, Status::Failed);
    assert!(!down[0].consequence.is_empty());
    assert_eq!(down[1].status, Status::Degraded);
    assert_eq!(down[1].detail, "does not exist yet");
    let grown = watching(true, Some(4096), 2048);
    assert_eq!(grown[1].status, Status::Degraded);
    assert_eq!(grown[1].detail, "4 KiB, over its cap of 2 KiB");
    assert_ne!(grown[1].consequence, down[1].consequence);
    assert_eq!(watching(true, Some(2048), 2048)[1].status, Status::Available);
}
