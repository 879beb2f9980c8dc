//! What is said of the machine and exported of it, told from what was probed.

use vstd::arithmetic::power2::{lemma_pow2_pos, pow2};
use vstd::prelude::*;

use crate::cgroup::friendly;
use crate::decimal::{fixed, lemma_round_even_whole, pow10};
use crate::doctor::{
    CgroupProbe, Outcome, Probe, ProcProbe, Status, cgroup_trigger_outcome, cgroup_v2_outcome,
    conclusion, daemon_outcome, delayacct_outcome, diagnosis, io_stat_outcome, log_outcome, percent,
    pressure_outcome, proc_io_outcome, processes_in, psi_outcome, readable_in, reduced,
    showing_pressure, showing_stat, system_trigger_outcome, with_status,
};
use crate::float::{
    difference, lemma_nearest_exact, lemma_whole_exact, negated, one, signed, units, whole,
};
use crate::laws::numbers::{
    is_about, lemma_nearest_finite, lemma_one_is_large, lemma_percent_is_true,
    lemma_quotient_is_true, lemma_rounded_zero, lemma_seconds_are_close, lemma_shows, percent_of,
    shows,
};
use crate::laws::processes::{how_many, lemma_one_more};
use crate::metrics::{
    Series, discard_line, duration_family, filesystem_line, label_value, labels, managed,
    sensor_line, unallocated_line, with_cgroup, with_resource,
};
use crate::pathology::btrfs::{Filesystem, device_bytes, number_in};
use crate::pathology::thermal::{
    Monitor, Sensor, all_findings, degrees, sensor_findings, watches_drive,
};
use crate::pathology::Severity;
use crate::process::switched_on;
use crate::psi::{Psi, Resource, Snapshot};
use crate::report::seconds;
use crate::span::Span;
use crate::text::{decimal, parse_nat, starts_with, trim};

verus! {

// ── drive temperatures ─────────────────────────────────────────────────

/// A whole number of degrees reads as that number.
proof fn lemma_whole_degrees(n: nat)
    requires
        n <= 1_000_000_000,
    ensures
        degrees(1000 * n) == whole(n as int),
{
    let o = one();
    lemma_one_is_large();
    lemma_whole_exact(n);
    lemma_whole_exact(1000 * n);
    lemma_whole_exact(1000);
    let m = whole(n as int).magnitude();
    assert((1000 * n) * o * o == (n * o) * (1000 * o)) by (nonlinear_arith);
    lemma_nearest_exact(m, 1000 * o);
    assert(units(m) * (1000 * o) <= pow2(2000) * (1000 * o)) by (nonlinear_arith)
        requires
            units(m) == n * o,
            n <= 0x1_0000_0000_0000_0000,
            pow2(2000) >= o * 0x1_0000_0000_0000_0000,
    ;
    assert(pow2(2000) >= o * 0x1_0000_0000_0000_0000);
    lemma_nearest_finite(units(m) * (1000 * o), 1000 * o);
    assert(degrees(1000 * n).magnitude() == m);
    assert(!degrees(1000 * n).negative());
    assert(!whole(n as int).negative());
}

/// What is left of a limit, in whole degrees.
proof fn lemma_margin(c: nat)
    requires
        c <= 1_000_000_000,
    ensures
        difference(whole(c as int), whole(5)).value() == (c - 5) * one(),
        !difference(whole(c as int), whole(5)).is_nan(),
{
    let o = one();
    lemma_one_is_large();
    lemma_whole_exact(c);
    lemma_whole_exact(5);
    let a = whole(c as int);
    let b = whole(5);
    let nb = negated(b);
    assert(nb.magnitude() == b.magnitude() && nb.negative());
    assert(nb.value() == -5 * o);
    let v = a.value() + nb.value();
    assert(v == (c - 5) * o) by (nonlinear_arith)
        requires
            v == c * o - 5 * o,
    ;
    assert(units(0) == 0);
    let n: nat = if c >= 5 {
        (c - 5) as nat
    } else {
        (5 - c) as nat
    };
    lemma_whole_exact(n);
    let m = whole(n as int).magnitude();
    lemma_nearest_exact(m, 1);
    assert(units(m) * 1 == n * o);
    assert(n * o <= pow2(2000) * 1) by (nonlinear_arith)
        requires
            n <= 0x1_0000_0000_0000_0000,
            pow2(2000) >= o * 0x1_0000_0000_0000_0000,
    ;
    lemma_nearest_finite(n * o, 1);
    if c > 5 {
        assert(v > 0) by (nonlinear_arith)
            requires
                v == (c - 5) * o,
                c > 5,
                o > 0,
        ;
        assert(difference(a, b) == signed(false, m));
    } else if c < 5 {
        assert(v < 0 && -v == n * o) by (nonlinear_arith)
            requires
                v == (c - 5) * o,
                n == 5 - c,
                n > 0,
                o > 0,
        ;
        assert(difference(a, b) == signed(true, m));
        assert(signed(true, m).magnitude() == m);
    } else {
        assert(0 * o == 0) by (nonlinear_arith);
        assert(v == 0);
    }
}

/// **A drive at its limit is critical, one within five degrees below it is worth
/// a note, and one further below is not.** A sensor without a limit or without a
/// reading says nothing. These are whole degrees; the files hold thousandths.
pub proof fn lemma_when_a_drive_is_hot(s: Sensor, t: nat, c: nat)
    requires
        number_in(s.input) == Some((1000 * t) as nat),
        number_in(s.crit) == Some((1000 * c) as nat),
        t <= 1_000_000_000,
        c <= 1_000_000_000,
    ensures
        t >= c ==> s.finding() is Some && (s.finding()->0).severity == Severity::Critical && !(
        s.finding()->0).transient && (s.finding()->0).source == "nvme"@,
        c - 5 <= t < c ==> s.finding() is Some && (s.finding()->0).severity == Severity::Note && !(
        s.finding()->0).transient && (s.finding()->0).source == "nvme"@,
        t < c - 5 ==> s.finding() is None,
{
    let o = one();
    lemma_one_is_large();
    lemma_whole_degrees(t);
    lemma_whole_degrees(c);
    lemma_margin(c);
    lemma_whole_exact(t);
    lemma_whole_exact(c);
    let a = t * o;
    let b = c * o;
    let m = (c - 5) * o;
    assert((t >= c <==> a >= b) && (t >= c - 5 <==> a >= m)) by (nonlinear_arith)
        requires
            a == t * o,
            b == c * o,
            m == (c - 5) * o,
            o > 0,
    ;
}

/// **Without a reading or a limit nothing is said.**
pub proof fn lemma_no_limit_no_warning(s: Sensor)
    requires
        number_in(s.input) is None || number_in(s.crit) is None,
    ensures
        s.finding() is None,
{
}

/// **A monitor watches a drive when it is called so**: by a name that begins
/// with `nvme`, or by `drivetemp`.
pub proof fn lemma_what_watches_a_drive(name: String)
    ensures
        watches_drive(Some(name)) <==> starts_with(trim(name@), "nvme"@) || trim(name@)
            == "drivetemp"@,
        !watches_drive(None),
{
}

// ── the diagnosis ──────────────────────────────────────────────────────

proof fn lemma_showing(c: Seq<CgroupProbe>, n: nat)
    requires
        n <= c.len(),
    ensures
        showing_pressure(c.take(n as int)) == how_many(n, |i: int| c[i].io_pressure),
        showing_stat(c.take(n as int)) == how_many(n, |i: int| c[i].io_stat is Some),
    decreases n,
{
    let a = |i: int| c[i].io_pressure;
    let b = |i: int| c[i].io_stat is Some;
    if n == 0 {
        lemma_one_more(0, a);
        lemma_one_more(0, b);
    } else {
        let m = (n - 1) as nat;
        lemma_showing(c, m);
        lemma_one_more(m, a);
        lemma_one_more(m, b);
        let t = c.take(n as int);
        assert(t.drop_last() =~= c.take(m as int));
        assert(t.last() == c[m as int]);
    }
}

/// **A file that no cgroup has is missing, one that fewer than a quarter have
/// degrades, and otherwise it is there.** The figures are those of the cgroups
/// that have it.
pub proof fn lemma_how_many_cgroups_show_it(c: Seq<CgroupProbe>)
    ensures
        ({
            let p = how_many(c.len(), |i: int| c[i].io_pressure);
            let r = pressure_outcome(c);
            &&& r.status == Status::Failed <==> p == 0
            &&& r.status == Status::Degraded <==> p > 0 && 4 * p < c.len()
            &&& r.status == Status::Available <==> p > 0 && 4 * p >= c.len()
            &&& r.detail == decimal(p) + " of "@ + decimal(c.len()) + " cgroups expose "@
                + "io.pressure"@
        }),
        ({
            let p = how_many(c.len(), |i: int| c[i].io_stat is Some);
            let r = io_stat_outcome(c);
            &&& r.status == Status::Failed <==> p == 0
            &&& r.status == Status::Degraded <==> p > 0 && 4 * p < c.len()
            &&& r.status == Status::Available <==> p > 0 && 4 * p >= c.len()
            &&& r.detail == decimal(p) + " of "@ + decimal(c.len()) + " cgroups expose "@
                + "io.stat"@
        }),
{
    lemma_showing(c, c.len());
    assert(c.take(c.len() as int) =~= c);
}

/// Is this entry a process?
pub open spec fn a_process(p: ProcProbe) -> bool {
    parse_nat(p.name@, 10, 0xffff_ffff) is Some
}

proof fn lemma_processes(p: Seq<ProcProbe>, n: nat)
    requires
        n <= p.len(),
    ensures
        processes_in(p.take(n as int)) == how_many(n, |i: int| a_process(p[i])),
        readable_in(p.take(n as int)) == how_many(n, |i: int| a_process(p[i]) && p[i].io),
        readable_in(p.take(n as int)) <= processes_in(p.take(n as int)) <= n,
    decreases n,
{
    let a = |i: int| a_process(p[i]);
    let b = |i: int| a_process(p[i]) && p[i].io;
    if n == 0 {
        lemma_one_more(0, a);
        lemma_one_more(0, b);
    } else {
        let m = (n - 1) as nat;
        lemma_processes(p, m);
        lemma_one_more(m, a);
        lemma_one_more(m, b);
        let t = p.take(n as int);
        assert(t.drop_last() =~= p.take(m as int));
        assert(t.last() == p[m as int]);
    }
}

/// **Of how many processes the bytes can be read.** It is missing where there is
/// none, and never all there.
pub proof fn lemma_how_many_processes_show_it(p: Seq<ProcProbe>) -> (pct: Seq<char>)
    requires
        p.len() <= u64::MAX,
    ensures
        ({
            let all = how_many(p.len(), |i: int| a_process(p[i]));
            let some = how_many(p.len(), |i: int| a_process(p[i]) && p[i].io);
            let r = proc_io_outcome(p);
            &&& r.status == if some == 0 {
                Status::Failed
            } else {
                Status::Degraded
            }
            &&& r.detail == "readable for "@ + decimal(some) + " of "@ + decimal(all)
                + " processes ("@ + pct + "%) — EACCES for anything you do not own"@
            &&& all > 0 ==> shows(pct, 100 * some, all, 0)
        }),
{
    lemma_processes(p, p.len());
    assert(p.take(p.len() as int) =~= p);
    let all = how_many(p.len(), |i: int| a_process(p[i]));
    let some = how_many(p.len(), |i: int| a_process(p[i]) && p[i].io);
    let v = percent(some, all);
    if all > 0 {
        lemma_percent_is_true(some, all);
        assert(v == percent_of(some as int, all as int));
        lemma_shows(v, 100 * some, all, 0);
    }
    fixed(v, 0)
}

/// **What is there is available.**
pub proof fn lemma_what_is_there_is_available(
    present: bool,
    refusal: Option<String>,
    size: u64,
    cap: u64,
)
    ensures
        cgroup_v2_outcome(present).status == if present {
            Status::Available
        } else {
            Status::Failed
        },
        psi_outcome(present).status == if present {
            Status::Available
        } else {
            Status::Failed
        },
        system_trigger_outcome(refusal).status == if refusal is None {
            Status::Available
        } else {
            Status::Degraded
        },
        cgroup_trigger_outcome(refusal).status == if refusal is None {
            Status::Available
        } else {
            Status::Degraded
        },
        delayacct_outcome(present).status == if present {
            Status::Available
        } else {
            Status::Degraded
        },
        daemon_outcome(present).status == if present {
            Status::Available
        } else {
            Status::Failed
        },
        log_outcome(Some(size), cap).status == if size <= cap {
            Status::Available
        } else {
            Status::Degraded
        },
        log_outcome(None, cap).status == Status::Degraded,
{
}

/// **Delay accounting is on when its file holds a one.**
pub proof fn lemma_delay_accounting_is_on(body: String)
    ensures
        switched_on(Some(body)) <==> trim(body@) == seq!['1'],
        !switched_on(None),
{
    reveal_strlit("1");
    assert("1"@ =~= seq!['1']);
}

proof fn lemma_with_status(c: Seq<Outcome>, s: Status, n: nat)
    requires
        n <= c.len(),
    ensures
        with_status(c.take(n as int), s) == how_many(n, |i: int| c[i].status == s),
    decreases n,
{
    let a = |i: int| c[i].status == s;
    if n == 0 {
        lemma_one_more(0, a);
    } else {
        let m = (n - 1) as nat;
        lemma_with_status(c, s, m);
        lemma_one_more(m, a);
        let t = c.take(n as int);
        assert(t.drop_last() =~= c.take(m as int));
        assert(t.last() == c[m as int]);
    }
}

/// **The conclusion counts what is missing, and else what is reduced.**
pub proof fn lemma_the_conclusion_counts(c: Seq<Outcome>)
    ensures
        ({
            let failed = how_many(c.len(), |i: int| c[i].status == Status::Failed);
            let degraded = how_many(c.len(), |i: int| c[i].status == Status::Degraded);
            let t = conclusion(with_status(c, Status::Failed), with_status(c, Status::Degraded));
            &&& failed == 1 ==> t == "  "@ + decimal(1) + " "@ + "capability"@
                + " missing. Results will be incomplete.\n"@
            &&& failed > 1 ==> t == "  "@ + decimal(failed) + " "@ + "capabilities"@
                + " missing. Results will be incomplete.\n"@
            &&& failed == 0 && degraded == 1 ==> t == "  Working, with "@ + decimal(1)
                + " reduced "@ + "capability"@ + " noted above.\n"@
            &&& failed == 0 && degraded > 1 ==> t == "  Working, with "@ + decimal(degraded)
                + " reduced "@ + "capabilities"@ + " noted above.\n"@
            &&& failed == 0 && degraded == 0 ==> t == "  Everything available.\n"@
        }),
{
    lemma_with_status(c, Status::Failed, c.len());
    lemma_with_status(c, Status::Degraded, c.len());
    assert(c.take(c.len() as int) =~= c);
}

/// **The summary names what is not available**, in order.
pub proof fn lemma_the_summary_names_what_is_reduced(c: Seq<Outcome>)
    ensures
        reduced(c) == c.filter(|o: Outcome| o.status != Status::Available).map_values(
            |o: Outcome| o.name,
        ),
    decreases c.len(),
{
    reveal(Seq::filter);
    let p = |o: Outcome| o.status != Status::Available;
    let f = |o: Outcome| o.name;
    if c.len() > 0 {
        let t = c.drop_last();
        lemma_the_summary_names_what_is_reduced(t);
        if p(c.last()) {
            assert(c.filter(p) =~= t.filter(p).push(c.last()));
            assert(c.filter(p).map_values(f) =~= t.filter(p).map_values(f).push(c.last().name));
        } else {
            assert(c.filter(p) =~= t.filter(p));
        }
    } else {
        assert(c.filter(p).map_values(f) =~= seq![]);
    }
}

// ── metrics ────────────────────────────────────────────────────────────

/// A line of a counter: so many microseconds, in seconds with six places.
pub open spec fn counts(line: Seq<char>, name: Seq<char>, labels: Seq<char>, usec: u64) -> bool {
    exists|t: Seq<char>| #[trigger]
        shows(t, usec as nat, 1_000_000, 6) && line == name + "{"@ + labels + "} "@ + t + "\n"@
}

proof fn lemma_counts(name: Seq<char>, l: Seq<char>, usec: u64)
    ensures
        counts(crate::metrics::counter_line(name, l, usec), name, l, usec),
{
    lemma_quotient_is_true(usec as nat, 1_000_000);
    lemma_shows(seconds(usec), usec as nat, 1_000_000, 6);
    assert(shows(fixed(seconds(usec), 6), usec as nat, 1_000_000, 6));
}

/// The counters of one resource of a snapshot.
pub open spec fn counters(s: Snapshot, res: Resource) -> Psi {
    match res {
        Resource::Cpu => s.cpu,
        Resource::Memory => s.memory,
        Resource::Io => s.io,
    }
}

/// **A resource that was ever waited for is exported**, with the time in which
/// some waited and, but for the processor, the time in which all did. Beyond the
/// limit it is counted as dropped, and what was never waited for is left out.
#[verifier::rlimit(50)]
pub proof fn lemma_a_resource_waited_for_is_exported(
    s: Series,
    cgroup: Seq<char>,
    snap: Snapshot,
    res: Resource,
    max: nat,
) -> (lines: (Seq<char>, Seq<char>))
    ensures
        ({
            let p = counters(snap, res);
            let r = with_resource(s, cgroup, snap, res, max);
            let l = labels(cgroup, res);
            &&& p.some_total_us == 0 && p.full_total_us == 0 ==> r == s
            &&& p.some_total_us > 0 || p.full_total_us > 0 ==> {
                &&& s.emitted >= max ==> r.waiting == s.waiting && r.stalled == s.stalled
                    && r.emitted == s.emitted && r.dropped == s.dropped + 1
                &&& s.emitted < max ==> {
                    &&& r.emitted == s.emitted + 1
                    &&& r.dropped == s.dropped
                    &&& counts(
                        lines.0,
                        "stallwatch_pressure_waiting_seconds_total"@,
                        l,
                        p.some_total_us,
                    )
                    &&& r.waiting == s.waiting + lines.0
                    &&& res == Resource::Cpu ==> r.stalled == s.stalled
                    &&& res != Resource::Cpu ==> r.stalled == s.stalled + lines.1 && counts(
                        lines.1,
                        "stallwatch_pressure_stalled_seconds_total"@,
                        l,
                        p.full_total_us,
                    )
                }
            }
        }),
{
    let p = counters(snap, res);
    let l = labels(cgroup, res);
    lemma_counts("stallwatch_pressure_waiting_seconds_total"@, l, p.some_total_us);
    lemma_counts("stallwatch_pressure_stalled_seconds_total"@, l, p.full_total_us);
    (
        crate::metrics::counter_line(
            "stallwatch_pressure_waiting_seconds_total"@,
            l,
            p.some_total_us,
        ),
        crate::metrics::counter_line(
            "stallwatch_pressure_stalled_seconds_total"@,
            l,
            p.full_total_us,
        ),
    )
}

/// **A cgroup is exported resource by resource**, the processor, memory, I/O.
pub proof fn lemma_a_cgroup_is_exported_whole(
    s: Series,
    cgroup: Seq<char>,
    snap: Snapshot,
    max: nat,
)
    ensures
        with_cgroup(s, cgroup, snap, max) == with_resource(
            with_resource(
                with_resource(s, cgroup, snap, Resource::Cpu, max),
                cgroup,
                snap,
                Resource::Memory,
                max,
            ),
            cgroup,
            snap,
            Resource::Io,
            max,
        ),
{
}

/// **A label keeps its value**: a backslash, a quote and a line feed are written
/// with a backslash in front, anything else as it is.
pub proof fn lemma_a_label_keeps_its_value(v: Seq<char>, c: char)
    ensures
        label_value(seq![]) == Seq::<char>::empty(),
        c == '\\' ==> label_value(v.push(c)) == label_value(v) + seq!['\\', '\\'],
        c == '"' ==> label_value(v.push(c)) == label_value(v) + seq!['\\', '"'],
        c == '\n' ==> label_value(v.push(c)) == label_value(v) + seq!['\\', 'n'],
        c != '\\' && c != '"' && c != '\n' ==> label_value(v.push(c)) == label_value(v) + seq![c],
{
    assert(v.push(c).drop_last() =~= v);
}

/// **What is unallocated is the size less what is claimed.**
pub proof fn lemma_what_is_unallocated(f: Filesystem)
    ensures
        f.has_allocation && f.allocated() is Some && device_bytes(f.device_sectors@)
            >= f.allocated()->0 ==> unallocated_line(f) == filesystem_line(
            "stallwatch_btrfs_unallocated_bytes"@,
            f,
            (device_bytes(f.device_sectors@) - f.allocated()->0) as nat,
        ),
        !f.has_allocation || f.allocated() is None || device_bytes(f.device_sectors@)
            < f.allocated()->0 ==> unallocated_line(f) == Seq::<char>::empty(),
        f.has_allocation && number_in(f.discardable_extents) is Some ==> discard_line(f)
            == filesystem_line(
            "stallwatch_btrfs_discard_queued_extents"@,
            f,
            number_in(f.discardable_extents)->0,
        ),
        !f.has_allocation || number_in(f.discardable_extents) is None ==> discard_line(f)
            == Seq::<char>::empty(),
{
}

/// **Temperatures are exported in degrees**, of sensors with a limit.
pub proof fn lemma_temperatures_are_in_degrees(
    name: Seq<char>,
    labels: Seq<char>,
    millideg: nat,
) -> (t: Seq<char>)
    requires
        millideg <= u64::MAX,
    ensures
        shows(t, millideg, 1000, 1),
        sensor_line(name, labels, millideg) == name + "{"@ + labels + "} "@ + t + "\n"@,
{
    lemma_quotient_is_true(millideg, 1000);
    lemma_shows(degrees(millideg), millideg, 1000, 1);
    fixed(degrees(millideg), 1)
}

/// **A sensor is exported with its reading and its limit, where it has both.**
pub proof fn lemma_a_sensor_is_exported(s: Sensor)
    ensures
        managed(s) is Some <==> number_in(s.input) is Some && number_in(s.crit) is Some,
        managed(s) is Some ==> managed(s) == Some(
            (number_in(s.input)->0, number_in(s.crit)->0),
        ),
{
}

/// A span in seconds is as many nanoseconds.
pub proof fn lemma_a_span_in_seconds(s: Span)
    requires
        s.secs < 0x20_0000_0000_0000,
        s.nanos < 1_000_000_000,
    ensures
        is_about(s.seconds(), (s.secs * 1_000_000_000 + s.nanos) as nat, 1_000_000_000),
{
    let n = (s.secs * 1_000_000_000 + s.nanos) as nat;
    let o = one();
    lemma_one_is_large();
    if n == 0 {
        lemma_whole_exact(0);
        lemma_whole_exact(1_000_000_000);
        assert(0 * o == 0) by (nonlinear_arith);
        crate::float::lemma_whole_zero();
        lemma_rounded_zero(units(whole(1_000_000_000).magnitude()));
        assert(units(0) == 0);
        assert(s.seconds().magnitude() == 0 && !s.seconds().negative());
    } else {
        lemma_seconds_are_close(s.secs as nat, s.nanos as nat);
        let u = units(s.seconds().magnitude());
        let z = n * o;
        assert(0x20_0000_0000_0000 * (u * 1_000_000_000) <= 0x20_0000_0000_0003 * z);
        assert(0x20_0000_0000_0000 * (u * 1_000_000_000) >= 0x1f_ffff_ffff_fffd * z);
        assert(z >= 0);
        assert(100_000 * (u * 1_000_000_000) <= 100_001 * z);
        assert(100_001 * (u * 1_000_000_000) >= 100_000 * z);
    }
}

/// **The time a response took is exported in seconds.**
pub proof fn lemma_the_time_taken_is_in_seconds(s: Span) -> (t: Seq<char>)
    requires
        s.secs < 0x20_0000_0000_0000,
        s.nanos < 1_000_000_000,
    ensures
        shows(t, (s.secs * 1_000_000_000 + s.nanos) as nat, 1_000_000_000, 6),
        duration_family(s)
            == "# HELP stallwatch_scrape_duration_seconds Time spent building this response.\n# TYPE stallwatch_scrape_duration_seconds gauge\nstallwatch_scrape_duration_seconds "@
            + t + "\n"@,
{
    lemma_a_span_in_seconds(s);
    lemma_shows(s.seconds(), (s.secs * 1_000_000_000 + s.nanos) as nat, 1_000_000_000, 6);
    fixed(s.seconds(), 6)
}

// ── messages ───────────────────────────────────────────────────────────

/// A whole number is shown as itself.
proof fn lemma_whole_is_shown(n: nat)
    requires
        n <= 1_000_000_000,
    ensures
        fixed(whole(n as int), 0) == decimal(n),
{
    lemma_one_is_large();
    lemma_whole_exact(n);
    let v = whole(n as int);
    assert(pow10(0) == 1);
    assert(units(v.magnitude()) * 1 == n * one());
    lemma_round_even_whole(n, one());
    assert(fixed(v, 0) =~= decimal(n));
}

/// The difference of two whole numbers is one.
proof fn lemma_whole_difference(c: nat, t: nat)
    requires
        t < c <= 1_000_000_000,
    ensures
        difference(whole(c as int), whole(t as int)) == whole(c - t),
{
    let o = one();
    lemma_one_is_large();
    lemma_whole_exact(c);
    lemma_whole_exact(t);
    let n = (c - t) as nat;
    lemma_whole_exact(n);
    let a = whole(c as int);
    let b = whole(t as int);
    let nb = negated(b);
    assert(units(0) == 0);
    assert(nb.magnitude() == b.magnitude());
    assert(nb.value() == -(t * o));
    let v = a.value() + nb.value();
    assert(v == n * o && v > 0) by (nonlinear_arith)
        requires
            v == c * o - t * o,
            n == c - t,
            n > 0,
            o > 0,
    ;
    let m = whole(n as int).magnitude();
    lemma_nearest_exact(m, 1);
    assert(units(m) * 1 == n * o);
    assert(n * o <= pow2(2000) * 1) by (nonlinear_arith)
        requires
            n <= 0x1_0000_0000_0000_0000,
            pow2(2000) >= o * 0x1_0000_0000_0000_0000,
    ;
    lemma_nearest_finite(n * o, 1);
    assert(difference(a, b) == signed(false, m));
    assert(!whole(n as int).negative());
}

/// **A warning states the degrees that were read**: the temperature, the limit
/// and, below it, how far below.
#[verifier::rlimit(50)]
pub proof fn lemma_a_warning_states_the_degrees(s: Sensor, t: nat, c: nat)
    requires
        number_in(s.input) == Some((1000 * t) as nat),
        number_in(s.crit) == Some((1000 * c) as nat),
        t <= 1_000_000_000,
        c <= 1_000_000_000,
    ensures
        t >= c ==> (s.finding()->0).message == "drive sensor '"@ + s.title() + "' is at "@ + decimal(
            t,
        ) + " °C, at or above its critical limit of "@ + decimal(c)
            + " °C. Confirm whether it is actually throttling with `sudo nvme smart-log <dev>`: 'Thermal Management T1/T2 Trans Count' greater than zero means yes."@,
        c - 5 <= t < c ==> (s.finding()->0).message == "drive sensor '"@ + s.title() + "' is at "@
            + decimal(t) + " °C, "@ + decimal((c - t) as nat) + " °C below its limit of "@ + decimal(
            c,
        )
            + " °C. Worth noting, but not proof of throttling — check 'Thermal Management T1/T2 Trans Count' in `nvme smart-log` before blaming heat for an IO stall."@,
{
    lemma_when_a_drive_is_hot(s, t, c);
    lemma_whole_degrees(t);
    lemma_whole_degrees(c);
    lemma_whole_is_shown(t);
    lemma_whole_is_shown(c);
    let a = t * one();
    let b = c * one();
    lemma_whole_exact(t);
    lemma_whole_exact(c);
    lemma_one_is_large();
    let o = one();
    assert(t >= c <==> a >= b) by (nonlinear_arith)
        requires
            a == t * o,
            b == c * o,
            o > 0,
    ;
    if t < c {
        lemma_whole_difference(c, t);
        lemma_whole_is_shown((c - t) as nat);
    }
}

/// **A sensor goes by its label, else by its number.**
pub proof fn lemma_what_a_sensor_goes_by(s: Sensor)
    ensures
        s.label matches Some(l) ==> s.title() == trim(l@),
        s.label is None ==> s.title() == "temp"@ + decimal(s.index as nat),
{
}

/// **Every sensor of a drive is looked at.**
pub proof fn lemma_every_sensor_of_a_drive_is_looked_at(m: Seq<Monitor>, i: int, k: int) -> (n: int)
    requires
        0 <= i < m.len(),
        watches_drive(m[i].name),
        0 <= k < m[i].sensors@.len(),
        m[i].sensors@[k].finding() is Some,
    ensures
        0 <= n < all_findings(m).len(),
        all_findings(m)[n] == m[i].sensors@[k].finding()->0,
    decreases m.len(),
{
    let t = m.drop_last();
    if i < t.len() {
        assert(t[i] == m[i]);
        lemma_every_sensor_of_a_drive_is_looked_at(t, i, k)
    } else {
        let n = lemma_every_sensor_is_looked_at(m[i].sensors@, k);
        assert(m.last() == m[i]);
        all_findings(t).len() + n
    }
}

proof fn lemma_every_sensor_is_looked_at(s: Seq<Sensor>, k: int) -> (n: int)
    requires
        0 <= k < s.len(),
        s[k].finding() is Some,
    ensures
        0 <= n < sensor_findings(s).len(),
        sensor_findings(s)[n] == s[k].finding()->0,
    decreases s.len(),
{
    let t = s.drop_last();
    if k < t.len() {
        assert(t[k] == s[k]);
        let n = lemma_every_sensor_is_looked_at(t, k);
        assert(sensor_findings(s)[n] == sensor_findings(t)[n]);
        n
    } else {
        assert(s.last() == s[k]);
        sensor_findings(t).len() as int
    }
}

/// **Nothing else is warned of.** What is found comes from a sensor of a drive.
pub proof fn lemma_only_drives_are_warned_of(m: Seq<Monitor>, n: int) -> (ik: (int, int))
    requires
        0 <= n < all_findings(m).len(),
    ensures
        0 <= ik.0 < m.len(),
        watches_drive(m[ik.0].name),
        0 <= ik.1 < m[ik.0].sensors@.len(),
        m[ik.0].sensors@[ik.1].finding() == Some(all_findings(m)[n]),
    decreases m.len(),
{
    let t = m.drop_last();
    let before = all_findings(t);
    if n < before.len() {
        let (i, k) = lemma_only_drives_are_warned_of(t, n);
        assert(t[i] == m[i]);
        assert(all_findings(m)[n] == before[n]);
        (i, k)
    } else {
        let k = lemma_found_by_a_sensor(m.last().sensors@, n - before.len());
        (m.len() - 1, k)
    }
}

proof fn lemma_found_by_a_sensor(s: Seq<Sensor>, n: int) -> (k: int)
    requires
        0 <= n < sensor_findings(s).len(),
    ensures
        0 <= k < s.len(),
        s[k].finding() == Some(sensor_findings(s)[n]),
    decreases s.len(),
{
    let t = s.drop_last();
    if n < sensor_findings(t).len() {
        let k = lemma_found_by_a_sensor(t, n);
        assert(t[k] == s[k]);
        k
    } else {
        s.len() - 1
    }
}

/// **The diagnosis is whole**: eight checks, each of what was probed.
pub proof fn lemma_the_diagnosis_is_whole(p: Probe)
    ensures
        diagnosis(p).len() == 8,
        diagnosis(p)[0] == cgroup_v2_outcome(p.controllers),
        diagnosis(p)[1] == psi_outcome(p.pressure),
        diagnosis(p)[2] == pressure_outcome(p.cgroups@),
        diagnosis(p)[3] == io_stat_outcome(p.cgroups@),
        diagnosis(p)[4] == proc_io_outcome(p.processes@),
        diagnosis(p)[5] == system_trigger_outcome(p.system_refusal),
        diagnosis(p)[6] == cgroup_trigger_outcome(p.cgroup_refusal),
        diagnosis(p)[7] == delayacct_outcome(switched_on(p.delayacct)),
{
}

/// **A series is labelled by its unit, its cgroup and its resource.**
pub proof fn lemma_how_a_series_is_labelled(cgroup: Seq<char>, res: Resource)
    ensures
        labels(cgroup, res) == "unit=\""@ + label_value(friendly(cgroup)) + "\",cgroup=\""@
            + label_value(cgroup) + "\",resource=\""@ + (match res {
            Resource::Cpu => "cpu"@,
            Resource::Memory => "memory"@,
            Resource::Io => "io"@,
        }) + "\""@,
{
}

} // verus!
