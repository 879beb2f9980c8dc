use stallwatch::logfile::{append_line, previous_generation, DEFAULT_MAX_BYTES};

/// A file and the generation before it.
struct Disk {
    live: Option<String>,
    old: Option<String>,
}

impl Disk {
    fn new() -> Disk {
        Disk {
            live: None,
            old: None,
        }
    }

    fn append(&mut self, line: &str, max_bytes: u64) {
        let size = self.live.as_ref().map(|s| s.len() as u64);
        let plan = append_line("/log", line, size, max_bytes);
        if let Some(to) = &plan.rotate_to {
            assert_eq!(to, "/log.1");
            self.old = self.live.take();
        }
        let mut body = self.live.take().unwrap_or_default();
        body.push_str(&plan.text);
        self.live = Some(body);
    }
}

#[test]
fn rotation_bounds_the_total_size() {
    let mut disk = Disk::new();
    let line = "x".repeat(200);
    for _ in 0..500 {
        disk.append(&line, 4096);
    }
    let live = disk.live.map_or(0, |s| s.len());
    let old = disk.old.map_or(0, |s| s.len());
    // 500 * ~201 bytes is ~100 KB unbounded; the cap holds it near 2x4096.
    assert!(
        live + old < 4096 * 3,
        "unbounded growth: live={live} old={old}"
    );
}

#[test]
fn the_previous_generation_is_kept_not_deleted() {
    let mut disk = Disk::new();
    disk.append("first", 1);
    disk.append("second", 1);
    assert_eq!(disk.old.as_deref(), Some("first\n"));
    assert_eq!(disk.live.as_deref(), Some("second\n"));
}

#[test]
fn only_one_old_generation_is_ever_retained() {
    let mut disk = Disk::new();
    for i in 0..5 {
        disk.append(&format!("line{i}"), 1);
    }
    assert_eq!(disk.old.as_deref(), Some("line3\n"));
    assert_eq!(disk.live.as_deref(), Some("line4\n"));
}

#[test]
fn a_zero_cap_disables_rotation() {
    let mut disk = Disk::new();
    for i in 0..20 {
        disk.append(&format!("line{i}"), 0);
    }
    assert_eq!(disk.live.unwrap().lines().count(), 20);
    assert!(disk.old.is_none());
}

#[test]
fn a_file_of_unknown_size_is_not_rotated() {
    assert!(append_line("/a", "x", None, 1).rotate_to.is_none());
    assert!(append_line("/a", "x", Some(DEFAULT_MAX_BYTES - 1), DEFAULT_MAX_BYTES)
        .rotate_to
        .is_none());
    assert!(append_line("/a", "x", Some(DEFAULT_MAX_BYTES), DEFAULT_MAX_BYTES)
        .rotate_to
        .is_some());
    assert_eq!(previous_generation("/var/log/x.jsonl"), "/var/log/x.jsonl.1");
}
