use stallwatch::psi::{PsiKind, Resource};
use stallwatch::span::Span;
use stallwatch::trigger::{read_answer, round_window, Answer, Trigger, Wake, WINDOW_MAX};

#[test]
fn windows_round_up_to_the_unprivileged_granularity() {
    // The kernel takes only 2s multiples from an unprivileged caller.
    assert_eq!(round_window(Span::from_secs(1)), Span::from_secs(2));
    assert_eq!(round_window(Span::from_secs(2)), Span::from_secs(2));
    assert_eq!(round_window(Span::from_millis(2100)), Span::from_secs(4));
    assert_eq!(round_window(Span::from_secs(4)), Span::from_secs(4));
}

#[test]
fn windows_stay_inside_what_the_kernel_accepts() {
    assert_eq!(round_window(Span::from_secs(0)), Span::from_secs(2));
    assert_eq!(
        round_window(Span::from_secs(3600)),
        Span::from_millis(WINDOW_MAX / 1000)
    );
}

#[test]
fn threshold_can_never_exceed_the_window() {
    // A threshold >= the window can never be reached, so the trigger would
    // register successfully and then never fire, which is worse than an error.
    let t = Trigger::new(
        Resource::Io,
        PsiKind::SomeTasks,
        Span::from_secs(60),
        Span::from_secs(2),
    );
    assert_eq!(t.threshold(), Span::from_secs(1));
    assert_eq!(t.window(), Span::from_secs(2));
}

#[test]
fn registers_unprivileged_against_the_real_kernel() {
    let t = Trigger::new(
        Resource::Io,
        PsiKind::SomeTasks,
        Span::from_millis(50),
        Span::from_secs(2),
    );
    assert_eq!(t.resource(), Resource::Io);
    assert_eq!(t.window(), Span::from_secs(2));
    assert_eq!(t.path(), "/proc/pressure/io");
    assert_eq!(t.request_line(), "some 50000 2000000\n");
}

#[test]
fn a_short_timeout_returns_quiet_rather_than_blocking() {
    assert_eq!(read_answer(0, false), Answer::Woke(Wake::Quiet));
    assert_eq!(read_answer(1, false), Answer::Woke(Wake::Stalled));
    assert_eq!(read_answer(1, true), Answer::Gone);
    assert_eq!(read_answer(-4, false), Answer::Again);
    assert_eq!(read_answer(-22, false), Answer::Failed(22));
}

#[test]
fn a_refusal_says_which_rules_there_are() {
    let t = Trigger::at(
        "/sys/fs/cgroup/io.pressure",
        Resource::Io,
        PsiKind::Full,
        Span::from_millis(0),
        Span::from_millis(2500),
    );
    assert_eq!(
        t.rejection("Invalid argument"),
        "kernel rejected PSI trigger \"full 1000 4000000\" on /sys/fs/cgroup/io.pressure: Invalid argument. Unprivileged windows must be a 2s multiple between 500ms and 10s."
    );
}
