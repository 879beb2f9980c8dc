use stallwatch::cgroup::{
    all, friendly_name, sample, unescape_systemd, walk, Bodies, Entry, ROOT,
};

#[test]
fn unescapes_systemd_names() {
    assert_eq!(unescape_systemd(r"app\x2dfoo"), "app-foo");
    assert_eq!(unescape_systemd("plain"), "plain");
}

#[test]
fn names_flatpak_apps() {
    assert_eq!(
        friendly_name("/a/app-flatpak-org.mozilla.firefox-1234.scope"),
        "firefox (flatpak)"
    );
}

#[test]
fn names_plain_services() {
    assert_eq!(
        friendly_name("/a/app-com.mitchellh.ghostty.service"),
        "com.mitchellh.ghostty"
    );
    assert_eq!(friendly_name("/a/systemd-journald.service"), "systemd-journald");
}

#[test]
fn names_user_sessions() {
    assert_eq!(friendly_name("/a/user@1000.service"), "user session 1000");
}

#[test]
fn names_slices_as_groups_not_units() {
    assert_eq!(friendly_name("/a/app.slice"), "all user apps");
    assert_eq!(friendly_name("/a/system.slice"), "all system services");
    assert_eq!(friendly_name("/a/weird.slice"), "weird (group)");
}

#[test]
fn names_the_root_cgroup() {
    assert_eq!(friendly_name(ROOT), "whole system (root cgroup)");
}

#[test]
fn only_directories_are_cgroups() {
    let entries = vec![
        Entry {
            path: "/sys/fs/cgroup/a".to_string(),
            is_dir: true,
        },
        Entry {
            path: "/sys/fs/cgroup/cgroup.procs".to_string(),
            is_dir: false,
        },
    ];
    let mut out = Vec::new();
    walk(&entries, &mut out);
    assert_eq!(out, vec!["/sys/fs/cgroup/a".to_string()]);
    let every = all(out);
    assert!(every.contains(&ROOT.to_string()), "{every:?}");
    assert!(every.contains(&"/sys/fs/cgroup/a".to_string()), "{every:?}");
}

#[test]
fn a_cgroup_without_pressure_files_is_left_out() {
    let bodies = vec![
        Bodies {
            cgroup: "/a".to_string(),
            cpu: None,
            memory: None,
            io: None,
        },
        Bodies {
            cgroup: "/b".to_string(),
            cpu: None,
            memory: None,
            io: Some("full avg10=0 total=7\n".to_string()),
        },
    ];
    let s = sample(&bodies);
    assert_eq!(s.len(), 1);
    assert_eq!(s[0].cgroup, "/b");
    assert_eq!(s[0].snapshot.io.full_total_us, 7);
}

#[test]
fn names_are_unescaped_byte_by_byte() {
    assert_eq!(unescape_systemd("\\xzz\\x4"), "\\xzz\\x4");
    assert_eq!(unescape_systemd("a\\xe9b"), "a\u{e9}b");
    assert_eq!(unescape_systemd("\u{e9}\\x2d"), "\u{c3}\u{a9}-");
}
