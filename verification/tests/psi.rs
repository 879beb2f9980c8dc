use stallwatch::psi::{parse, Psi, PsiKind, Resource, Snapshot};

#[test]
fn parses_both_lines() {
    let psi = parse(
        "some avg10=77.92 avg60=81.60 avg300=86.31 total=61110128878\n\
         full avg10=61.09 avg60=68.36 avg300=71.82 total=57620142644\n",
    );
    assert_eq!(psi.some_total_us, 61_110_128_878);
    assert_eq!(psi.full_total_us, 57_620_142_644);
}

#[test]
fn tolerates_missing_full_line() {
    let psi = parse("some avg10=0.86 avg60=0.73 avg300=1.03 total=447479420\n");
    assert_eq!(psi.some_total_us, 447_479_420);
    assert_eq!(psi.full_total_us, 0);
}

#[test]
fn tolerates_garbage_without_panicking() {
    assert_eq!(parse(""), Psi::default());
    assert_eq!(parse("\n\n"), Psi::default());
    assert_eq!(parse("some"), Psi::default());
    assert_eq!(parse("some total=notanumber"), Psi::default());
}

#[test]
fn cpu_uses_some_because_full_cannot_exist_for_it() {
    assert_eq!(Resource::Cpu.primary_kind(), PsiKind::SomeTasks);
    assert_eq!(Resource::Io.primary_kind(), PsiKind::Full);
    assert_eq!(Resource::Memory.primary_kind(), PsiKind::Full);
}

#[test]
fn display_matches_wire_vocabulary() {
    assert_eq!(Resource::Io.as_str(), "io");
    assert_eq!(PsiKind::Full.as_str(), "full");
}

#[test]
fn a_foreign_line_changes_nothing() {
    let psi = parse("some total=5\nmost total=9\n");
    assert_eq!(psi.some_total_us, 5);
    assert_eq!(psi.full_total_us, 0);
}

#[test]
fn a_snapshot_keeps_its_resources_apart() {
    let mut s = Snapshot::default();
    let p = Psi {
        some_total_us: 1,
        full_total_us: 2,
    };
    s.set(Resource::Memory, p);
    assert_eq!(s.get(Resource::Memory).total_for(PsiKind::Full), 2);
    assert_eq!(s.get(Resource::Io), Psi::default());
    assert_eq!(Resource::all().len(), 3);
    assert_eq!(Resource::Io.file(), "io.pressure");
}
