use stallwatch::float::Double;
use stallwatch::process::{
    comm_of, delayacct_enabled, drill, io_bytes, parse_stat, pids_in, rank, ProcCulprit, Round,
    Watched,
};

fn text(s: &str) -> Option<String> {
    Some(s.to_string())
}

#[test]
fn parses_state_and_ticks_from_real_format() {
    // Trimmed but positionally faithful /proc/pid/stat line.
    let mut f: Vec<String> = (3..=52).map(|n| n.to_string()).collect();
    f[42 - 3] = "777".into(); // delayacct_blkio_ticks
    f[0] = "D".into();
    let body = format!("1234 (bash) {}", f.join(" "));
    assert_eq!(parse_stat(&body), Some(('D', 777)));
}

#[test]
fn comm_containing_spaces_and_parens_does_not_break_parsing() {
    let mut f: Vec<String> = (3..=52).map(|n| n.to_string()).collect();
    f[42 - 3] = "42".into();
    f[0] = "R".into();
    let body = format!("99 (Web Content (x)) {}", f.join(" "));
    assert_eq!(parse_stat(&body), Some(('R', 42)));
}

#[test]
fn the_biggest_mover_survives_truncation_alongside_the_worst_blocked() {
    // Eight processes blocked hard and moving nothing, plus one writing a
    // lot while barely blocked. The writer must not be dropped.
    let mut all: Vec<ProcCulprit> = (0..8)
        .map(|i| ProcCulprit {
            pid: 100 + i,
            comm: format!("victim{i}"),
            blocked_samples: 12,
            total_samples: 12,
            read_bytes: 0,
            write_bytes: 0,
            blkio_delay_ms: None,
        })
        .collect();
    all.push(ProcCulprit {
        pid: 999,
        comm: "dd".into(),
        blocked_samples: 1,
        total_samples: 12,
        read_bytes: 0,
        write_bytes: 5 * 1024 * 1024 * 1024,
        blkio_delay_ms: None,
    });

    let picked = rank(&all);

    assert!(
        picked.iter().any(|c| c.comm == "dd"),
        "the cause was truncated away; picked: {:?}",
        picked.iter().map(|c| &c.comm).collect::<Vec<_>>()
    );
    // And a victim must still be present, or the bug is merely inverted.
    assert!(
        picked.iter().any(|c| c.comm.starts_with("victim")),
        "victims disappeared"
    );
}

#[test]
fn truncated_stat_yields_no_ticks_rather_than_panicking() {
    assert_eq!(parse_stat("1 (x) S 1 1"), Some(('S', 0)));
    assert_eq!(parse_stat("garbage"), None);
    assert_eq!(parse_stat(""), None);
}

#[test]
fn blocked_pct_handles_zero_samples() {
    let c = ProcCulprit {
        pid: 1,
        comm: "x".into(),
        blocked_samples: 0,
        total_samples: 0,
        read_bytes: 0,
        write_bytes: 0,
        blkio_delay_ms: None,
    };
    assert_eq!(
        c.blocked_pct(),
        Double {
            bits: 0.0f64.to_bits()
        }
    );
}

#[test]
fn pids_in_descends_into_child_cgroups() {
    let direct = vec!["1\n".to_string()];
    let tree = vec!["1\n".to_string(), "20\n30\n".to_string(), "4\n".to_string()];
    assert!(pids_in(&tree).len() > pids_in(&direct).len());
    assert_eq!(pids_in(&tree), vec![1, 4, 20, 30]);
}

#[test]
fn pids_in_deduplicates() {
    let v = pids_in(&vec!["7\n8\n7\n".to_string(), "8\nx\n".to_string()]);
    let mut u = v.clone();
    u.sort_unstable();
    u.dedup();
    assert_eq!(v.len(), u.len());
    assert_eq!(v, vec![7, 8]);
}

#[test]
fn drill_on_a_nonexistent_cgroup_is_empty_not_a_panic() {
    assert!(drill(&Vec::new(), 2, false).is_empty());
}

#[test]
fn delayacct_probe_does_not_panic() {
    assert!(!delayacct_enabled(&None));
    assert!(delayacct_enabled(&text("1\n")));
    assert!(!delayacct_enabled(&text("0\n")));
}

fn stat(state: &str) -> Option<String> {
    let mut f: Vec<String> = (3..=52).map(|_| "0".to_string()).collect();
    f[0] = state.into();
    text(&format!("7 (dd) {}", f.join(" ")))
}

#[test]
fn a_process_is_accused_on_what_was_read_of_it() {
    let w = Watched {
        pid: 7,
        before: text("read_bytes: 100\nwrite_bytes: 50\n"),
        rounds: vec![
            Round {
                io: text("read_bytes: 200\nwrite_bytes: 50\n"),
                stat: stat("D"),
            },
            Round {
                io: text("read_bytes: 300\nwrite_bytes: 90\n"),
                stat: stat("S"),
            },
        ],
        end: None,
        comm: text("dd\n"),
    };
    let c = drill(&vec![w], 2, false);
    assert_eq!(c.len(), 1);
    assert_eq!(c[0].pid, 7);
    assert_eq!(c[0].comm, "dd");
    assert_eq!((c[0].blocked_samples, c[0].total_samples), (1, 2));
    assert_eq!((c[0].read_bytes, c[0].write_bytes), (200, 40));
    assert_eq!(c[0].blkio_delay_ms, None);
}

#[test]
fn byte_counters_and_names_are_read_from_their_files() {
    assert_eq!(io_bytes(&text("rchar: 9\nread_bytes: 3\nwrite_bytes: 4\n")), Some((3, 4)));
    assert_eq!(io_bytes(&None), None);
    assert_eq!(comm_of(&text("bash\n")), "bash");
}
