use stallwatch::iostat::{parse, read, sample, IoBytes, StatBody};

#[test]
fn parses_a_real_line() {
    let b = parse("259:0 rbytes=6101106688 wbytes=39976960 rios=52385 wios=1364 dbytes=0 dios=0");
    assert_eq!(b.read, 6_101_106_688);
    assert_eq!(b.write, 39_976_960);
    assert_eq!(b.discard, 0);
}

#[test]
fn sums_across_devices() {
    let b = parse(
        "253:0 rbytes=100 wbytes=200 rios=1 wios=1 dbytes=7 dios=1\n\
         259:0 rbytes=300 wbytes=400 rios=1 wios=1 dbytes=3 dios=1\n",
    );
    assert_eq!(b.read, 400);
    assert_eq!(b.write, 600);
    assert_eq!(b.discard, 10);
    assert_eq!(b.total(), 1000);
}

#[test]
fn an_empty_file_is_zero_not_an_error() {
    assert_eq!(parse(""), IoBytes::default());
    assert_eq!(parse("\n\n"), IoBytes::default());
}

#[test]
fn unknown_fields_are_ignored_so_a_newer_kernel_still_parses() {
    let b = parse("259:0 rbytes=10 wbytes=20 newfield=99 garbage nonnumeric=xyz");
    assert_eq!(b.read, 10);
    assert_eq!(b.write, 20);
}

#[test]
fn discard_is_excluded_from_total() {
    let b = parse("259:0 rbytes=0 wbytes=0 dbytes=3221225472");
    assert_eq!(b.total(), 0);
    assert_eq!(b.discard, 3_221_225_472);
}

#[test]
fn delta_saturates_when_a_cgroup_path_is_reused() {
    let before = IoBytes {
        read: 500,
        write: 500,
        discard: 0,
    };
    let after = IoBytes {
        read: 10,
        write: 10,
        discard: 0,
    };
    assert_eq!(after.delta(before), IoBytes::default());
}

#[test]
fn delta_is_the_difference() {
    let before = IoBytes {
        read: 100,
        write: 100,
        discard: 5,
    };
    let after = IoBytes {
        read: 350,
        write: 600,
        discard: 9,
    };
    let d = after.delta(before);
    assert_eq!((d.read, d.write, d.discard), (250, 500, 4));
    assert_eq!(d.total(), 750);
}

#[test]
fn an_unreadable_file_is_not_a_file_of_zeros() {
    assert_eq!(read(&None), None);
    assert_eq!(read(&Some(String::new())), Some(IoBytes::default()));
    let bodies = vec![
        StatBody {
            cgroup: "/a".to_string(),
            body: None,
        },
        StatBody {
            cgroup: "/b".to_string(),
            body: Some("8:0 rbytes=5 wbytes=6\n".to_string()),
        },
    ];
    let s = sample(&bodies);
    assert_eq!(s.len(), 1);
    assert_eq!(s[0].cgroup, "/b");
}

#[test]
fn bodies_add_up() {
    let a = "259:0 rbytes=5 wbytes=7 dbytes=1\n";
    let b = "8:0 rbytes=10 wbytes=20 rios=9\n";
    let both = parse(&format!("{a}{b}"));
    assert_eq!(both, IoBytes { read: 15, write: 27, discard: 1 });
}
