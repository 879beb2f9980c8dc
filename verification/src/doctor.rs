//! What this machine actually permits, checked rather than assumed.
//!
//! A diagnostic that cannot diagnose itself will eventually lie with total
//! confidence. So every capability the engine depends on is probed, and every
//! probe states what degrades when it fails, not just that it failed.

use vstd::prelude::*;
use vstd::utf8::encode_utf8;

use crate::cgroup;
use crate::decimal::fixed;
use crate::float::{Double, product, quotient, signed, whole};
use crate::iostat;
use crate::process::{delayacct_enabled, switched_on};
use crate::report::{bytes_phrase, bytes_text, json_str, json_text};
use crate::text::{
    copy_text, decimal, decimal_text, from_chars, join, joined, lemma_join_push,
    lemma_occurs_inside, lemma_occurs_longer, lemma_utf8_concat, lemma_words_are_some, occurs,
    pad_right, parse_nat, push_padded_right, push_text, push_u64, read_nat, repeat, runs,
    split_words, texts, to_chars, words,
};

verus! {

/// How a capability came out.
#[derive(Clone, Copy, Debug, PartialEq, Eq, Structural)]
pub enum Status {
    /// Present and usable.
    Available,
    /// Usable, but something downstream is weaker than it should be.
    Degraded,
    /// Absent. Whatever depends on it cannot work at all.
    Failed,
}

impl Status {
    /// The sign in front of a line.
    pub open spec fn sign(&self) -> Seq<char> {
        match self {
            Status::Available => "\u{2713}"@,
            Status::Degraded => "!"@,
            Status::Failed => "\u{2717}"@,
        }
    }

    /// The name on the wire.
    pub open spec fn name(&self) -> Seq<char> {
        match self {
            Status::Available => "ok"@,
            Status::Degraded => "degraded"@,
            Status::Failed => "failed"@,
        }
    }

    /// See [`Status::sign`].
    pub fn marker(self) -> (r: &'static str)
        ensures
            r@ == self.sign(),
    {
        match self {
            Status::Available => "\u{2713}",
            Status::Degraded => "!",
            Status::Failed => "\u{2717}",
        }
    }

    /// See [`Status::name`].
    pub fn as_str(self) -> (r: &'static str)
        ensures
            r@ == self.name(),
    {
        match self {
            Status::Available => "ok",
            Status::Degraded => "degraded",
            Status::Failed => "failed",
        }
    }
}

/// One probed capability.
#[derive(Debug)]
pub struct Check {
    pub name: &'static str,
    pub status: Status,
    /// What was measured. Numbers, not adjectives.
    pub detail: String,
    /// What stops working, in the reader's terms, when this is not `Available`.
    /// Empty when nothing does.
    pub consequence: &'static str,
}

/// A check as a value to compare with.
pub struct Outcome {
    pub name: Seq<char>,
    pub status: Status,
    pub detail: Seq<char>,
    pub consequence: Seq<char>,
}

impl View for Check {
    type V = Outcome;

    open spec fn view(&self) -> Outcome {
        Outcome {
            name: self.name@,
            status: self.status,
            detail: self.detail@,
            consequence: self.consequence@,
        }
    }
}

pub open spec fn outcomes(c: Seq<Check>) -> Seq<Outcome> {
    Seq::new(c.len(), |i: int| c[i]@)
}

/// What was seen of one cgroup.
#[derive(Debug)]
pub struct CgroupProbe {
    /// Whether its `io.pressure` could be read.
    pub io_pressure: bool,
    /// Its `io.stat`, where it could be read.
    pub io_stat: Option<String>,
}

/// What was seen of one entry of `/proc`.
#[derive(Debug)]
pub struct ProcProbe {
    pub name: String,
    /// Whether its `io` could be read.
    pub io: bool,
}

/// What was seen of the machine.
#[derive(Debug)]
pub struct Probe {
    /// Whether there is a `cgroup.controllers` at the root of the hierarchy.
    pub controllers: bool,
    /// Whether there is a `/proc/pressure`.
    pub pressure: bool,
    pub cgroups: Vec<CgroupProbe>,
    pub processes: Vec<ProcProbe>,
    /// Why a trigger on `/proc/pressure/io` was refused, if it was.
    pub system_refusal: Option<String>,
    /// Why a trigger on the root cgroup's `io.pressure` was refused, if it was.
    pub cgroup_refusal: Option<String>,
    /// The switch for delay accounting.
    pub delayacct: Option<String>,
}

// ── what is there or not ───────────────────────────────────────────────

/// cgroup v2 is identified by `cgroup.controllers` at the mount root; v1 has no
/// such file. Attribution is meaningless without it.
pub open spec fn cgroup_v2_outcome(present: bool) -> Outcome {
    Outcome {
        name: "cgroup v2"@,
        status: if present {
            Status::Available
        } else {
            Status::Failed
        },
        detail: if present {
            "mounted at "@ + cgroup::ROOT@
        } else {
            "not found — cgroup v1 or an unusual mount layout"@
        },
        consequence: "Nothing can be attributed to a unit. There is no v1 fallback."@,
    }
}

/// See [`cgroup_v2_outcome`].
pub fn cgroup_v2(present: bool) -> (r: Check)
    ensures
        r@ == cgroup_v2_outcome(present),
{
    let detail: String = if present {
        let mut d: String = copy_text("mounted at ");
        d.push_str(cgroup::ROOT);
        d
    } else {
        copy_text("not found — cgroup v1 or an unusual mount layout")
    };
    Check {
        name: "cgroup v2",
        status: if present {
            Status::Available
        } else {
            Status::Failed
        },
        detail,
        consequence: "Nothing can be attributed to a unit. There is no v1 fallback.",
    }
}

pub open spec fn psi_outcome(present: bool) -> Outcome {
    Outcome {
        name: "kernel PSI"@,
        status: if present {
            Status::Available
        } else {
            Status::Failed
        },
        detail: if present {
            "/proc/pressure present"@
        } else {
            "/proc/pressure missing — CONFIG_PSI=n, or CONFIG_PSI_DEFAULT_DISABLED without psi=1 on the kernel command line"@
        },
        consequence: "No stall can be detected at all."@,
    }
}

/// See [`psi_outcome`].
pub fn psi_present(present: bool) -> (r: Check)
    ensures
        r@ == psi_outcome(present),
{
    Check {
        name: "kernel PSI",
        status: if present {
            Status::Available
        } else {
            Status::Failed
        },
        detail: copy_text(
            if present {
                "/proc/pressure present"
            } else {
                "/proc/pressure missing — CONFIG_PSI=n, or CONFIG_PSI_DEFAULT_DISABLED without psi=1 on the kernel command line"
            },
        ),
        consequence: "No stall can be detected at all.",
    }
}

// ── how much of it is there ────────────────────────────────────────────

/// How many of the cgroups show `io.pressure`.
pub open spec fn showing_pressure(c: Seq<CgroupProbe>) -> nat
    decreases c.len(),
{
    if c.len() == 0 {
        0
    } else {
        showing_pressure(c.drop_last()) + (if c.last().io_pressure {
            1nat
        } else {
            0
        })
    }
}

/// How many of the cgroups show `io.stat`.
pub open spec fn showing_stat(c: Seq<CgroupProbe>) -> nat
    decreases c.len(),
{
    if c.len() == 0 {
        0
    } else {
        showing_stat(c.drop_last()) + (if c.last().io_stat is Some {
            1nat
        } else {
            0
        })
    }
}

/// None is a failure, fewer than a quarter are too few.
pub open spec fn coverage(readable: nat, all: nat) -> Status {
    if readable == 0 {
        Status::Failed
    } else if readable * 4 < all {
        Status::Degraded
    } else {
        Status::Available
    }
}

fn judge(readable: usize, all: usize) -> (r: Status)
    ensures
        r == coverage(readable as nat, all as nat),
{
    if readable == 0 {
        Status::Failed
    } else if (readable as u128) * 4 < all as u128 {
        Status::Degraded
    } else {
        Status::Available
    }
}

pub open spec fn share_text(readable: nat, all: nat, file: Seq<char>) -> Seq<char> {
    decimal(readable) + " of "@ + decimal(all) + " cgroups expose "@ + file
}

fn write_share(readable: usize, all: usize, file: &str) -> (r: String)
    ensures
        r@ == share_text(readable as nat, all as nat, file@),
{
    let mut d: String = decimal_text(readable as u64);
    d.push_str(" of ");
    push_u64(&mut d, all as u64);
    d.push_str(" cgroups expose ");
    d.push_str(file);
    d
}

/// The failure this guards against is the worst one a diagnostic can have:
/// `cgroup_disable=pressure` removes every per-cgroup file while leaving
/// `/proc/pressure` intact, so that "no stalls" would be reported on a machine
/// that is on fire.
pub open spec fn pressure_outcome(c: Seq<CgroupProbe>) -> Outcome {
    Outcome {
        name: "per-cgroup pressure"@,
        status: coverage(showing_pressure(c), c.len()),
        detail: share_text(showing_pressure(c), c.len(), "io.pressure"@),
        consequence: "Stalls are visible system-wide but cannot be blamed on a unit. Check for cgroup_disable=pressure on the kernel command line."@,
    }
}

/// See [`pressure_outcome`].
pub fn per_cgroup_pressure(cgroups: &Vec<CgroupProbe>) -> (r: Check)
    ensures
        r@ == pressure_outcome(cgroups@),
{
    let mut readable: usize = 0;
    let mut i: usize = 0;
    while i < cgroups.len()
        invariant
            i <= cgroups@.len(),
            readable <= i,
            readable == showing_pressure(cgroups@.take(i as int)),
        decreases cgroups@.len() - i,
    {
        if cgroups[i].io_pressure {
            readable += 1;
        }
        proof {
            assert(cgroups@.take(i + 1).drop_last() =~= cgroups@.take(i as int));
            assert(cgroups@.take(i + 1).last() == cgroups@[i as int]);
        }
        i += 1;
    }
    assert(cgroups@.take(i as int) =~= cgroups@);
    Check {
        name: "per-cgroup pressure",
        status: judge(readable, cgroups.len()),
        detail: write_share(readable, cgroups.len(), "io.pressure"),
        consequence: "Stalls are visible system-wide but cannot be blamed on a unit. Check for cgroup_disable=pressure on the kernel command line.",
    }
}

/// This is the evidence that makes cause attribution possible at all.
pub open spec fn io_stat_outcome(c: Seq<CgroupProbe>) -> Outcome {
    Outcome {
        name: "per-cgroup io.stat"@,
        status: coverage(showing_stat(c), c.len()),
        detail: share_text(showing_stat(c), c.len(), "io.stat"@),
        consequence: "Causes cannot be named — only victims. Enable the io controller in cgroup.subtree_control, or expect unit-level attribution only."@,
    }
}

/// See [`io_stat_outcome`].
pub fn io_stat(cgroups: &Vec<CgroupProbe>) -> (r: Check)
    ensures
        r@ == io_stat_outcome(cgroups@),
{
    let mut readable: usize = 0;
    let mut i: usize = 0;
    while i < cgroups.len()
        invariant
            i <= cgroups@.len(),
            readable <= i,
            readable == showing_stat(cgroups@.take(i as int)),
        decreases cgroups@.len() - i,
    {
        if iostat::read(&cgroups[i].io_stat).is_some() {
            readable += 1;
        }
        proof {
            assert(cgroups@.take(i + 1).drop_last() =~= cgroups@.take(i as int));
            assert(cgroups@.take(i + 1).last() == cgroups@[i as int]);
        }
        i += 1;
    }
    assert(cgroups@.take(i as int) =~= cgroups@);
    Check {
        name: "per-cgroup io.stat",
        status: judge(readable, cgroups.len()),
        detail: write_share(readable, cgroups.len(), "io.stat"),
        consequence: "Causes cannot be named — only victims. Enable the io controller in cgroup.subtree_control, or expect unit-level attribution only.",
    }
}

/// Whether an entry of `/proc` is a process.
pub open spec fn is_process(p: ProcProbe) -> bool {
    parse_nat(p.name@, 10, u32::MAX as nat) is Some
}

/// How many of the entries are processes.
pub open spec fn processes_in(p: Seq<ProcProbe>) -> nat
    decreases p.len(),
{
    if p.len() == 0 {
        0
    } else {
        processes_in(p.drop_last()) + (if is_process(p.last()) {
            1nat
        } else {
            0
        })
    }
}

/// How many of the entries are processes whose `io` could be read.
pub open spec fn readable_in(p: Seq<ProcProbe>) -> nat
    decreases p.len(),
{
    if p.len() == 0 {
        0
    } else {
        readable_in(p.drop_last()) + (if is_process(p.last()) && p.last().io {
            1nat
        } else {
            0
        })
    }
}

pub open spec fn percent(readable: nat, total: nat) -> Double {
    if total == 0 {
        signed(false, 0)
    } else {
        product(quotient(whole(readable as int), whole(total as int)), whole(100))
    }
}

/// Reported as a ratio on purpose: the file works for your own processes and
/// fails for everything else, so a spot check succeeds while the tool is blind
/// to every process that matters. Never `Available`: on any multi-user system this is
/// partial by design, and calling it healthy would hide that.
pub open spec fn proc_io_outcome(p: Seq<ProcProbe>) -> Outcome {
    let total = processes_in(p);
    let readable = readable_in(p);
    Outcome {
        name: "/proc/<pid>/io"@,
        status: if readable == 0 {
            Status::Failed
        } else {
            Status::Degraded
        },
        detail: "readable for "@ + decimal(readable) + " of "@ + decimal(total) + " processes ("@
            + fixed(percent(readable, total), 0) + "%) — EACCES for anything you do not own"@,
        consequence: "Per-process byte evidence is unavailable for kernel threads and root daemons. Cause attribution uses cgroup io.stat instead, which is unit-level. This is expected, not a fault."@,
    }
}

/// See [`proc_io_outcome`].
pub fn proc_io(entries: &Vec<ProcProbe>) -> (r: Check)
    ensures
        r@ == proc_io_outcome(entries@),
{
    let mut total: usize = 0;
    let mut readable: usize = 0;
    let mut i: usize = 0;
    while i < entries.len()
        invariant
            i <= entries@.len(),
            total <= i,
            readable <= i,
            total == processes_in(entries@.take(i as int)),
            readable == readable_in(entries@.take(i as int)),
        decreases entries@.len() - i,
    {
        if read_nat(&to_chars(entries[i].name.as_str()), 10, u32::MAX as u64).is_some() {
            total += 1;
            if entries[i].io {
                readable += 1;
            }
        }
        proof {
            assert(entries@.take(i + 1).drop_last() =~= entries@.take(i as int));
            assert(entries@.take(i + 1).last() == entries@[i as int]);
        }
        i += 1;
    }
    assert(entries@.take(i as int) =~= entries@);
    let pct: Double = if total == 0 {
        Double::zero()
    } else {
        Double::from_u64(readable as u64).over(&Double::from_u64(total as u64)).times(
            &Double::from_u64(100),
        )
    };
    let mut detail: String = copy_text("readable for ");
    push_u64(&mut detail, readable as u64);
    detail.push_str(" of ");
    push_u64(&mut detail, total as u64);
    detail.push_str(" processes (");
    detail.push_str(pct.to_fixed(0).as_str());
    detail.push_str("%) — EACCES for anything you do not own");
    Check {
        name: "/proc/<pid>/io",
        status: if readable == 0 {
            Status::Failed
        } else {
            Status::Degraded
        },
        detail,
        consequence: "Per-process byte evidence is unavailable for kernel threads and root daemons. Cause attribution uses cgroup io.stat instead, which is unit-level. This is expected, not a fault.",
    }
}

// ── what the kernel accepts ────────────────────────────────────────────

/// The kernel is the only authority on whether a trigger works: the window
/// rules are version-dependent.
pub open spec fn system_trigger_outcome(refusal: Option<String>) -> Outcome {
    match refusal {
        None => Outcome {
            name: "PSI triggers (system)"@,
            status: Status::Available,
            detail: "accepted — the daemon is event-driven and costs nothing when idle"@,
            consequence: ""@,
        },
        Some(e) => Outcome {
            name: "PSI triggers (system)"@,
            status: Status::Degraded,
            detail: "refused: "@ + e@,
            consequence: "The daemon falls back to polling, which costs CPU on every tick and misses stalls shorter than the interval."@,
        },
    }
}

/// See [`system_trigger_outcome`].
pub fn system_trigger(refusal: &Option<String>) -> (r: Check)
    ensures
        r@ == system_trigger_outcome(*refusal),
{
    match refusal {
        None => Check {
            name: "PSI triggers (system)",
            status: Status::Available,
            detail: copy_text(
                "accepted — the daemon is event-driven and costs nothing when idle",
            ),
            consequence: "",
        },
        Some(e) => {
            let mut detail: String = copy_text("refused: ");
            detail.push_str(e.as_str());
            Check {
                name: "PSI triggers (system)",
                status: Status::Degraded,
                detail,
                consequence: "The daemon falls back to polling, which costs CPU on every tick and misses stalls shorter than the interval.",
            }
        },
    }
}

/// Expected to fail unprivileged, and worth stating rather than leaving as a
/// surprise: it is why capture is woken system-wide and then attributed,
/// instead of being woken by the guilty cgroup directly.
pub open spec fn cgroup_trigger_outcome(refusal: Option<String>) -> Outcome {
    match refusal {
        None => Outcome {
            name: "PSI triggers (per-cgroup)"@,
            status: Status::Available,
            detail: "accepted"@,
            consequence: ""@,
        },
        Some(e) => Outcome {
            name: "PSI triggers (per-cgroup)"@,
            status: Status::Degraded,
            detail: "refused: "@ + e@ + " — normal without privileges"@,
            consequence: "Capture is woken by system-wide pressure and attributed afterwards, so a stall confined to one cgroup may not wake it."@,
        },
    }
}

/// See [`cgroup_trigger_outcome`].
pub fn cgroup_trigger(refusal: &Option<String>) -> (r: Check)
    ensures
        r@ == cgroup_trigger_outcome(*refusal),
{
    match refusal {
        None => Check {
            name: "PSI triggers (per-cgroup)",
            status: Status::Available,
            detail: copy_text("accepted"),
            consequence: "",
        },
        Some(e) => {
            let mut detail: String = copy_text("refused: ");
            detail.push_str(e.as_str());
            detail.push_str(" — normal without privileges");
            Check {
                name: "PSI triggers (per-cgroup)",
                status: Status::Degraded,
                detail,
                consequence: "Capture is woken by system-wide pressure and attributed afterwards, so a stall confined to one cgroup may not wake it.",
            }
        },
    }
}

pub open spec fn delayacct_outcome(on: bool) -> Outcome {
    Outcome {
        name: "delay accounting"@,
        status: if on {
            Status::Available
        } else {
            Status::Degraded
        },
        detail: if on {
            "enabled — exact per-process block IO wait available"@
        } else {
            "off (kernel.task_delayacct=0, the default since 5.14)"@
        },
        consequence: "Per-process blocking is inferred from state sampling rather than measured. Enable with: sudo sysctl -w kernel.task_delayacct=1"@,
    }
}

/// See [`delayacct_outcome`].
pub fn delayacct(on: bool) -> (r: Check)
    ensures
        r@ == delayacct_outcome(on),
{
    Check {
        name: "delay accounting",
        status: if on {
            Status::Available
        } else {
            Status::Degraded
        },
        detail: copy_text(
            if on {
                "enabled — exact per-process block IO wait available"
            } else {
                "off (kernel.task_delayacct=0, the default since 5.14)"
            },
        ),
        consequence: "Per-process blocking is inferred from state sampling rather than measured. Enable with: sudo sysctl -w kernel.task_delayacct=1",
    }
}

/// What a machine permits.
pub open spec fn diagnosis(p: Probe) -> Seq<Outcome> {
    seq![
        cgroup_v2_outcome(p.controllers),
        psi_outcome(p.pressure),
        pressure_outcome(p.cgroups@),
        io_stat_outcome(p.cgroups@),
        proc_io_outcome(p.processes@),
        system_trigger_outcome(p.system_refusal),
        cgroup_trigger_outcome(p.cgroup_refusal),
        delayacct_outcome(switched_on(p.delayacct)),
    ]
}

/// Judge everything the engine depends on.
pub fn diagnose(p: &Probe) -> (r: Vec<Check>)
    ensures
        outcomes(r@) == diagnosis(*p),
{
    let mut v: Vec<Check> = Vec::new();
    v.push(cgroup_v2(p.controllers));
    v.push(psi_present(p.pressure));
    v.push(per_cgroup_pressure(&p.cgroups));
    v.push(io_stat(&p.cgroups));
    v.push(proc_io(&p.processes));
    v.push(system_trigger(&p.system_refusal));
    v.push(cgroup_trigger(&p.cgroup_refusal));
    v.push(delayacct(delayacct_enabled(&p.delayacct)));
    assert(outcomes(v@) =~= diagnosis(*p));
    v
}

// ── whether anything is watching ───────────────────────────────────────

/// A machine that passes every probe while its daemon is dead still tells you
/// nothing: the question people ask is always retrospective.
pub open spec fn daemon_outcome(answers: bool) -> Outcome {
    if answers {
        Outcome {
            name: "stallwatchd"@,
            status: Status::Available,
            detail: "answers on its socket"@,
            consequence: ""@,
        }
    } else {
        Outcome {
            name: "stallwatchd"@,
            status: Status::Failed,
            detail: "nothing answers on its socket"@,
            consequence: "Nothing is being recorded, so a freeze cannot be asked about once it is over. Start it with: systemctl --user enable --now stallwatchd"@,
        }
    }
}

/// See [`daemon_outcome`].
pub fn daemon_answers(answers: bool) -> (r: Check)
    ensures
        r@ == daemon_outcome(answers),
{
    if answers {
        Check {
            name: "stallwatchd",
            status: Status::Available,
            detail: copy_text("answers on its socket"),
            consequence: "",
        }
    } else {
        Check {
            name: "stallwatchd",
            status: Status::Failed,
            detail: copy_text("nothing answers on its socket"),
            consequence: "Nothing is being recorded, so a freeze cannot be asked about once it is over. Start it with: systemctl --user enable --now stallwatchd",
        }
    }
}

/// The incident log by its size, which it has none of where there is no file.
/// Not to be there yet and to be larger than its cap are two different things.
pub open spec fn log_outcome(size: Option<u64>, max_bytes: u64) -> Outcome {
    match size {
        None => Outcome {
            name: "incident log"@,
            status: Status::Degraded,
            detail: "does not exist yet"@,
            consequence: "`stallwatch why` has nothing to answer from until a stall is recorded."@,
        },
        Some(n) => if n <= max_bytes {
            Outcome {
                name: "incident log"@,
                status: Status::Available,
                detail: bytes_text(n as nat) + ", inside its cap of "@ + bytes_text(max_bytes as nat),
                consequence: ""@,
            }
        } else {
            Outcome {
                name: "incident log"@,
                status: Status::Degraded,
                detail: bytes_text(n as nat) + ", over its cap of "@ + bytes_text(max_bytes as nat),
                consequence: "Rotation is not keeping the log under its cap, so it grows for as long as the daemon runs."@,
            }
        },
    }
}

/// See [`log_outcome`].
pub fn incident_log(size: Option<u64>, max_bytes: u64) -> (r: Check)
    ensures
        r@ == log_outcome(size, max_bytes),
{
    match size {
        None => Check {
            name: "incident log",
            status: Status::Degraded,
            detail: copy_text("does not exist yet"),
            consequence: "`stallwatch why` has nothing to answer from until a stall is recorded.",
        },
        Some(n) => {
            let mut detail: String = bytes_phrase(n);
            if n <= max_bytes {
                detail.push_str(", inside its cap of ");
                detail.push_str(bytes_phrase(max_bytes).as_str());
                Check { name: "incident log", status: Status::Available, detail, consequence: "" }
            } else {
                detail.push_str(", over its cap of ");
                detail.push_str(bytes_phrase(max_bytes).as_str());
                Check {
                    name: "incident log",
                    status: Status::Degraded,
                    detail,
                    consequence: "Rotation is not keeping the log under its cap, so it grows for as long as the daemon runs.",
                }
            }
        },
    }
}

/// Whether anything is watching.
pub open spec fn watch_outcomes(answers: bool, size: Option<u64>, max_bytes: u64) -> Seq<Outcome> {
    seq![daemon_outcome(answers), log_outcome(size, max_bytes)]
}

/// Judge whether anything is watching: what a person asks for besides what
/// [`diagnose`] says of the machine.
pub fn watching(answers: bool, size: Option<u64>, max_bytes: u64) -> (r: Vec<Check>)
    ensures
        outcomes(r@) == watch_outcomes(answers, size, max_bytes),
{
    let mut v: Vec<Check> = Vec::new();
    v.push(daemon_answers(answers));
    v.push(incident_log(size, max_bytes));
    assert(outcomes(v@) =~= watch_outcomes(answers, size, max_bytes));
    v
}

// ── for a human ────────────────────────────────────────────────────────

/// Words put on lines: the lines that are full, and the one being filled.
pub open spec fn filled(words: Seq<Seq<char>>, width: nat) -> (Seq<Seq<char>>, Seq<char>)
    decreases words.len(),
{
    if words.len() == 0 {
        (seq![], seq![])
    } else {
        let (full, line) = filled(words.drop_last(), width);
        let word = words.last();
        if line.len() == 0 {
            (full, word)
        } else if encode_utf8(line).len() + 1 + encode_utf8(word).len() > width {
            (full.push(line), word)
        } else {
            (full, line + " "@ + word)
        }
    }
}

/// A text put on lines that are no longer than the width, in bytes, where its
/// words allow that.
pub open spec fn wrapped(s: Seq<char>, width: nat) -> Seq<Seq<char>> {
    let (full, line) = filled(words(s), width);
    if line.len() == 0 {
        full
    } else {
        full.push(line)
    }
}

/// See [`wrapped`].
pub fn wrap(s: &str, width: usize) -> (r: Vec<String>)
    ensures
        texts(r@) == wrapped(s@, width as nat),
{
    let all: Vec<Vec<char>> = split_words(&to_chars(s));
    let ghost ws = words(s@);
    let mut full: Vec<String> = Vec::new();
    let mut line: String = String::new();
    let mut i: usize = 0;
    assert(texts(full@) =~= seq![]);
    assert(line@ =~= seq![]);
    while i < all.len()
        invariant
            i <= all@.len(),
            runs(all@) == ws,
            ws == words(s@),
            (texts(full@), line@) == filled(ws.take(i as int), width as nat),
        decreases all@.len() - i,
    {
        let word: String = from_chars(all[i].as_slice());
        proof {
            assert(ws.take(i + 1).drop_last() =~= ws.take(i as int));
            assert(ws.take(i + 1).last() == ws[i as int]);
            assert(ws[i as int] == all@[i as int]@);
        }
        if line.as_str().is_empty() {
            line = word;
        } else {
            let wanted: u128 = line.as_str().as_bytes().len() as u128 + 1
                + word.as_str().as_bytes().len() as u128;
            if wanted > width as u128 {
                push_text(&mut full, line);
                line = word;
            } else {
                line.push_str(" ");
                line.push_str(word.as_str());
            }
        }
        i += 1;
    }
    assert(ws.take(i as int) =~= ws);
    if !line.as_str().is_empty() {
        push_text(&mut full, line);
    }
    full
}

/// How many came out so.
pub open spec fn with_status(c: Seq<Outcome>, s: Status) -> nat
    decreases c.len(),
{
    if c.len() == 0 {
        0
    } else {
        with_status(c.drop_last(), s) + (if c.last().status == s {
            1nat
        } else {
            0
        })
    }
}

/// Indented lines, the first `n`.
pub open spec fn indented(lines: Seq<Seq<char>>, n: nat) -> Seq<char>
    decreases n,
{
    if n == 0 {
        seq![]
    } else {
        indented(lines, (n - 1) as nat) + "      "@ + lines[n - 1] + "\n"@
    }
}

/// What a check costs, where it costs something.
pub open spec fn cost(c: Outcome) -> Seq<char> {
    if c.status != Status::Available && c.consequence.len() > 0 {
        indented(wrapped(c.consequence, 74), wrapped(c.consequence, 74).len())
    } else {
        seq![]
    }
}

pub open spec fn check_text(c: Outcome) -> Seq<char> {
    "  "@ + c.status.sign() + " "@ + pad_right(c.name, 26) + " "@ + c.detail + "\n"@ + cost(c)
}

/// The checks one after the other.
pub open spec fn check_texts(c: Seq<Outcome>) -> Seq<char>
    decreases c.len(),
{
    if c.len() == 0 {
        seq![]
    } else {
        check_texts(c.drop_last()) + check_text(c.last())
    }
}

pub open spec fn plural(n: nat) -> Seq<char> {
    if n == 1 {
        "capability"@
    } else {
        "capabilities"@
    }
}

/// The last line.
pub open spec fn conclusion(failed: nat, degraded: nat) -> Seq<char> {
    if failed > 0 {
        "  "@ + decimal(failed) + " "@ + plural(failed) + " missing. Results will be incomplete.\n"@
    } else if degraded > 0 {
        "  Working, with "@ + decimal(degraded) + " reduced "@ + plural(degraded)
            + " noted above.\n"@
    } else {
        "  Everything available.\n"@
    }
}

/// The diagnosis for a human.
pub open spec fn diagnosis_text(c: Seq<Outcome>) -> Seq<char> {
    "What stallwatch can and cannot see on this machine:\n\n"@ + check_texts(c) + "\n"@
        + conclusion(with_status(c, Status::Failed), with_status(c, Status::Degraded))
}

fn write_cost(c: &Check) -> (r: String)
    ensures
        r@ == cost(c@),
{
    let mut o: String = String::new();
    assert(o@ =~= seq![]);
    if c.status == Status::Available || c.consequence.is_empty() {
        return o;
    }
    let lines: Vec<String> = wrap(c.consequence, 74);
    let ghost all = texts(lines@);
    let mut i: usize = 0;
    while i < lines.len()
        invariant
            i <= lines@.len(),
            all == texts(lines@),
            o@ == indented(all, i as nat),
        decreases lines@.len() - i,
    {
        o.push_str("      ");
        o.push_str(lines[i].as_str());
        o.push_str("\n");
        i += 1;
    }
    assert(all.len() == lines@.len());
    o
}

fn write_check(c: &Check) -> (r: String)
    ensures
        r@ == check_text(c@),
{
    let mut o: String = copy_text("  ");
    o.push_str(c.status.marker());
    o.push_str(" ");
    push_padded_right(&mut o, c.name, 26);
    o.push_str(" ");
    o.push_str(c.detail.as_str());
    o.push_str("\n");
    o.push_str(write_cost(c).as_str());
    o
}

fn capabilities(n: usize) -> (r: &'static str)
    ensures
        r@ == plural(n as nat),
{
    if n == 1 {
        "capability"
    } else {
        "capabilities"
    }
}

/// Render for a human.
pub fn to_text(checks: &[Check]) -> (r: String)
    ensures
        r@ == diagnosis_text(outcomes(checks@)),
{
    let ghost all = outcomes(checks@);
    let mut parts: String = String::new();
    let mut failed: usize = 0;
    let mut degraded: usize = 0;
    let n: usize = checks.len();
    let mut i: usize = 0;
    assert(parts@ =~= check_texts(all.take(0)));
    while i < n
        invariant
            i <= n == checks@.len(),
            all == outcomes(checks@),
            failed <= i,
            degraded <= i,
            parts@ == check_texts(all.take(i as int)),
            failed == with_status(all.take(i as int), Status::Failed),
            degraded == with_status(all.take(i as int), Status::Degraded),
        decreases n - i,
    {
        let c: &Check = &checks[i];
        proof {
            assert(all.take(i + 1).drop_last() =~= all.take(i as int));
            assert(all.take(i + 1).last() == c@);
        }
        parts.push_str(write_check(c).as_str());
        if c.status == Status::Failed {
            failed += 1;
        }
        if c.status == Status::Degraded {
            degraded += 1;
        }
        i += 1;
    }
    assert(all.take(i as int) =~= all);
    let mut end: String = copy_text("  ");
    if failed > 0 {
        push_u64(&mut end, failed as u64);
        end.push_str(" ");
        end.push_str(capabilities(failed));
        end.push_str(" missing. Results will be incomplete.\n");
    } else if degraded > 0 {
        end = copy_text("  Working, with ");
        push_u64(&mut end, degraded as u64);
        end.push_str(" reduced ");
        end.push_str(capabilities(degraded));
        end.push_str(" noted above.\n");
    } else {
        end = copy_text("  Everything available.\n");
    }
    let mut o: String = copy_text("What stallwatch can and cannot see on this machine:\n\n");
    o.push_str(parts.as_str());
    o.push_str("\n");
    o.push_str(end.as_str());
    o
}

/// The names of the checks that did not come out as they should.
pub open spec fn reduced(c: Seq<Outcome>) -> Seq<Seq<char>>
    decreases c.len(),
{
    if c.len() == 0 {
        seq![]
    } else if c.last().status != Status::Available {
        reduced(c.drop_last()).push(c.last().name)
    } else {
        reduced(c.drop_last())
    }
}

pub open spec fn summary(c: Seq<Outcome>) -> Seq<char> {
    if reduced(c).len() == 0 {
        "all capabilities available"@
    } else {
        "reduced capability: "@ + join(reduced(c), ", "@)
            + " (run `stallwatch doctor` for what this costs)"@
    }
}

/// One line for a log, naming what is degraded rather than only counting it.
///
/// The daemon logs this at startup: a line in the journal at every start is the
/// cheapest possible guard against evidence that goes missing unannounced.
pub fn summary_line(checks: &[Check]) -> (r: String)
    ensures
        r@ == summary(outcomes(checks@)),
{
    let ghost all = outcomes(checks@);
    let mut bad: Vec<String> = Vec::new();
    let n: usize = checks.len();
    let mut i: usize = 0;
    assert(texts(bad@) =~= reduced(all.take(0)));
    while i < n
        invariant
            i <= n == checks@.len(),
            all == outcomes(checks@),
            texts(bad@) == reduced(all.take(i as int)),
        decreases n - i,
    {
        let c: &Check = &checks[i];
        proof {
            assert(all.take(i + 1).drop_last() =~= all.take(i as int));
            assert(all.take(i + 1).last() == c@);
        }
        if c.status != Status::Available {
            push_text(&mut bad, copy_text(c.name));
        }
        i += 1;
    }
    assert(all.take(i as int) =~= all);
    assert(texts(bad@).len() == bad@.len());
    if bad.len() == 0 {
        return copy_text("all capabilities available");
    }
    let mut o: String = copy_text("reduced capability: ");
    o.push_str(joined(&bad, ", ").as_str());
    o.push_str(" (run `stallwatch doctor` for what this costs)");
    o
}

pub open spec fn check_json(c: Outcome) -> Seq<char> {
    "{\"name\":"@ + json_text(c.name) + ",\"status\":\""@ + c.status.name() + "\",\"detail\":"@
        + json_text(c.detail) + ",\"consequence\":"@ + json_text(c.consequence) + "}"@
}

pub open spec fn check_jsons(c: Seq<Outcome>) -> Seq<Seq<char>> {
    Seq::new(c.len(), |i: int| check_json(c[i]))
}

/// The diagnosis as JSON.
pub open spec fn diagnosis_json(c: Seq<Outcome>) -> Seq<char> {
    "{\"checks\":["@ + join(check_jsons(c), ","@) + "]}"@
}

/// Machine-readable, same field names as the human view.
pub fn to_json(checks: &[Check]) -> (r: String)
    ensures
        r@ == diagnosis_json(outcomes(checks@)),
{
    let ghost all = check_jsons(outcomes(checks@));
    let mut parts: Vec<String> = Vec::new();
    let n: usize = checks.len();
    let mut i: usize = 0;
    assert(texts(parts@) =~= all.take(0));
    while i < n
        invariant
            i <= n == checks@.len(),
            all == check_jsons(outcomes(checks@)),
            texts(parts@) == all.take(i as int),
        decreases n - i,
    {
        let c: &Check = &checks[i];
        let mut o: String = copy_text("{\"name\":");
        o.push_str(json_str(c.name).as_str());
        o.push_str(",\"status\":\"");
        o.push_str(c.status.as_str());
        o.push_str("\",\"detail\":");
        o.push_str(json_str(c.detail.as_str()).as_str());
        o.push_str(",\"consequence\":");
        o.push_str(json_str(c.consequence).as_str());
        o.push_str("}");
        push_text(&mut parts, o);
        assert(all.take(i + 1) =~= all.take(i as int).push(all[i as int]));
        i += 1;
    }
    assert(texts(parts@) =~= all);
    let mut o: String = copy_text("{\"checks\":[");
    o.push_str(joined(&parts, ",").as_str());
    o.push_str("]}");
    o
}

// ── laws ───────────────────────────────────────────────────────────────

/// However much of it can be read, per-process IO is never called healthy.
pub proof fn lemma_proc_io_is_never_healthy(p: Seq<ProcProbe>)
    ensures
        proc_io_outcome(p).status != Status::Available,
{
}

/// Whatever is not as it should be says what breaks, and every check says what
/// was measured.
pub proof fn lemma_every_reduction_is_explained(p: Probe, k: int)
    requires
        0 <= k < diagnosis(p).len(),
    ensures
        diagnosis(p)[k].detail.len() > 0,
        diagnosis(p)[k].status != Status::Available ==> diagnosis(p)[k].consequence.len() > 0,
{
    reveal_strlit("mounted at ");
    reveal_strlit("not found — cgroup v1 or an unusual mount layout");
    reveal_strlit("Nothing can be attributed to a unit. There is no v1 fallback.");
    reveal_strlit("/proc/pressure present");
    reveal_strlit(
        "/proc/pressure missing — CONFIG_PSI=n, or CONFIG_PSI_DEFAULT_DISABLED without psi=1 on the kernel command line",
    );
    reveal_strlit("No stall can be detected at all.");
    reveal_strlit(" of ");
    reveal_strlit(
        "Stalls are visible system-wide but cannot be blamed on a unit. Check for cgroup_disable=pressure on the kernel command line.",
    );
    reveal_strlit(
        "Causes cannot be named — only victims. Enable the io controller in cgroup.subtree_control, or expect unit-level attribution only.",
    );
    reveal_strlit("readable for ");
    reveal_strlit(
        "Per-process byte evidence is unavailable for kernel threads and root daemons. Cause attribution uses cgroup io.stat instead, which is unit-level. This is expected, not a fault.",
    );
    reveal_strlit("accepted — the daemon is event-driven and costs nothing when idle");
    reveal_strlit("refused: ");
    reveal_strlit(
        "The daemon falls back to polling, which costs CPU on every tick and misses stalls shorter than the interval.",
    );
    reveal_strlit("accepted");
    reveal_strlit(
        "Capture is woken by system-wide pressure and attributed afterwards, so a stall confined to one cgroup may not wake it.",
    );
    reveal_strlit("enabled — exact per-process block IO wait available");
    reveal_strlit("off (kernel.task_delayacct=0, the default since 5.14)");
    reveal_strlit(
        "Per-process blocking is inferred from state sampling rather than measured. Enable with: sudo sysctl -w kernel.task_delayacct=1",
    );
}

/// The same of what watches: whatever is not as it should be says what breaks,
/// and every check says what was found.
pub proof fn lemma_every_absence_is_explained(
    answers: bool,
    size: Option<u64>,
    max_bytes: u64,
    k: int,
)
    requires
        0 <= k < 2,
    ensures
        watch_outcomes(answers, size, max_bytes)[k].detail.len() > 0,
        watch_outcomes(answers, size, max_bytes)[k].status != Status::Available
            ==> watch_outcomes(answers, size, max_bytes)[k].consequence.len() > 0,
{
    reveal_strlit("answers on its socket");
    reveal_strlit("nothing answers on its socket");
    reveal_strlit(
        "Nothing is being recorded, so a freeze cannot be asked about once it is over. Start it with: systemctl --user enable --now stallwatchd",
    );
    reveal_strlit("does not exist yet");
    reveal_strlit("`stallwatch why` has nothing to answer from until a stall is recorded.");
    reveal_strlit(", inside its cap of ");
    reveal_strlit(", over its cap of ");
    reveal_strlit(
        "Rotation is not keeping the log under its cap, so it grows for as long as the daemon runs.",
    );
}

/// Wrapping never loses a word: the lines, put behind each other again, are the
/// words.
pub proof fn lemma_wrapping_never_loses_a_word(s: Seq<char>, width: nat)
    ensures
        join(wrapped(s, width), " "@) == join(words(s), " "@),
{
    lemma_words_are_some(s);
    lemma_filled_keeps_words(words(s), width);
}

proof fn lemma_filled_keeps_words(ws: Seq<Seq<char>>, width: nat)
    requires
        forall|i: int| 0 <= i < ws.len() ==> (#[trigger] ws[i]).len() > 0,
    ensures
        ws.len() == 0 ==> filled(ws, width) == (Seq::<Seq<char>>::empty(), Seq::<char>::empty()),
        ws.len() > 0 ==> filled(ws, width).1.len() > 0 && join(
            filled(ws, width).0.push(filled(ws, width).1),
            " "@,
        ) == join(ws, " "@),
    decreases ws.len(),
{
    if ws.len() > 0 {
        let sep = " "@;
        let before = ws.drop_last();
        let word = ws.last();
        assert forall|i: int| 0 <= i < before.len() implies (#[trigger] before[i]).len() > 0 by {
            assert(before[i] == ws[i]);
        }
        lemma_filled_keeps_words(before, width);
        let (full, line) = filled(before, width);
        assert(before.push(word) =~= ws);
        assert(word == ws[ws.len() - 1]);
        lemma_join_push(before, word, sep);
        lemma_join_push(full, line, sep);
        if before.len() == 0 {
            lemma_join_push(full, word, sep);
        } else {
            lemma_join_push(full.push(line), word, sep);
            lemma_join_push(full, line + sep + word, sep);
            assert(join(full, sep) + sep + (line + sep + word) =~= join(full, sep) + sep + line + sep
                + word);
        }
    }
}

/// A wrapped line is no longer than the width, unless it is a single word.
pub proof fn lemma_wrapped_lines_fit(s: Seq<char>, width: nat)
    ensures
        forall|i: int|
            0 <= i < wrapped(s, width).len() ==> encode_utf8(#[trigger] wrapped(s, width)[i]).len()
                <= width || words(s).contains(wrapped(s, width)[i]),
{
    lemma_filled_fits(words(s), width);
}

pub open spec fn fits(line: Seq<char>, ws: Seq<Seq<char>>, width: nat) -> bool {
    encode_utf8(line).len() <= width || ws.contains(line)
}

proof fn lemma_filled_fits(ws: Seq<Seq<char>>, width: nat)
    ensures
        forall|i: int|
            0 <= i < filled(ws, width).0.len() ==> fits(#[trigger] filled(ws, width).0[i], ws, width),
        filled(ws, width).1.len() > 0 ==> fits(filled(ws, width).1, ws, width),
    decreases ws.len(),
{
    if ws.len() > 0 {
        let before = ws.drop_last();
        lemma_filled_fits(before, width);
        let (full, line) = filled(before, width);
        let word = ws.last();
        assert(ws.contains(word)) by {
            assert(ws[ws.len() - 1] == word);
        }
        assert forall|l: Seq<char>| #[trigger] before.contains(l) implies ws.contains(l) by {
            let i = choose|i: int| 0 <= i < before.len() && before[i] == l;
            assert(ws[i] == l);
        }
        lemma_utf8_concat(line, " "@);
        lemma_utf8_concat(line + " "@, word);
        assert(encode_utf8(" "@).len() == 1) by {
            reveal_strlit(" ");
            assert(" "@ =~= seq![' ']);
            assert(seq![' '].drop_first() =~= Seq::<char>::empty());
            assert(encode_utf8(seq![' '].drop_first()) =~= seq![]);
        }
    }
}

/// The text names every check.
pub proof fn lemma_text_names_every_check(c: Seq<Outcome>, k: int)
    requires
        0 <= k < c.len(),
    ensures
        occurs(diagnosis_text(c), c[k].name),
{
    lemma_checks_are_named(c, k);
    let head = "What stallwatch can and cannot see on this machine:\n\n"@;
    let end = conclusion(with_status(c, Status::Failed), with_status(c, Status::Degraded));
    lemma_occurs_longer(head, check_texts(c), "\n"@ + end, c[k].name);
    assert(head + check_texts(c) + ("\n"@ + end) =~= diagnosis_text(c));
}

proof fn lemma_checks_are_named(c: Seq<Outcome>, k: int)
    requires
        0 <= k < c.len(),
    ensures
        occurs(check_texts(c), c[k].name),
    decreases c.len(),
{
    let before = check_texts(c.drop_last());
    let last = check_text(c.last());
    let name = c[k].name;
    if k == c.len() - 1 {
        let o = c.last();
        let head = "  "@ + o.status.sign() + " "@;
        let tail = repeat(' ', 26 - name.len()) + " "@ + o.detail + "\n"@ + cost(o);
        lemma_occurs_inside(head, name, tail);
        assert(head + name + tail =~= last);
        lemma_occurs_longer(before, last, seq![], name);
        assert(before + last + Seq::<char>::empty() =~= before + last);
    } else {
        assert(c.drop_last()[k] == c[k]);
        lemma_checks_are_named(c.drop_last(), k);
        lemma_occurs_longer(seq![], before, last, name);
        assert(Seq::<char>::empty() + before + last =~= before + last);
    }
}

} // verus!
