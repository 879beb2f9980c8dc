//! Drilling inside a guilty cgroup to name the actual process.
//!
//! Attribution stops at the cgroup, and for daemons and GUI apps the cgroup
//! *is* the answer. For a terminal it is not: systemd puts the terminal and
//! every shell child in one cgroup, so a `du` chewing the disk is reported as
//! the terminal.
//!
//! The state of each process is sampled repeatedly across the window, because
//! uninterruptible sleep means blocked in the kernel, nearly always on IO, and
//! its block-layer counters are diffed across it. When delay accounting happens
//! to be enabled its figure is added, because it is strictly better than a
//! sample count.

use vstd::prelude::*;
use vstd::slice::slice_subrange;

use crate::float::{Double, product, quotient, signed, whole};
use crate::iostat::minus;
use crate::sort::{Ranked, lemma_order_of, order_of, placed, stable_order};
use crate::text::{
    after_prefix, copy_text, find_last, from_chars, is_text, lines, parse_nat, parse_u64,
    position_last, read_nat, read_u64, runs, split_lines, split_words, strip_prefix, to_chars, trim,
    trimmed, words,
};

verus! {

/// How many processes a drill reports. Small, because this is evidence for a
/// human to read, not a census.
pub const MAX_CULPRITS: usize = 6;

/// A process inside a stalling cgroup, with evidence.
#[derive(Debug, PartialEq)]
pub struct ProcCulprit {
    pub pid: u32,
    pub comm: String,
    /// How many samples caught this process in uninterruptible sleep.
    pub blocked_samples: u32,
    pub total_samples: u32,
    /// Block-layer bytes read during the window.
    pub read_bytes: u64,
    /// Block-layer bytes written during the window.
    pub write_bytes: u64,
    /// Milliseconds blocked on block IO, when delay accounting is enabled.
    pub blkio_delay_ms: Option<u64>,
}

/// A share of samples, in percent; zero of none.
pub open spec fn sample_share(blocked: u32, total: u32) -> Double {
    if total == 0 {
        signed(false, 0)
    } else {
        product(quotient(whole(blocked as int), whole(total as int)), whole(100))
    }
}

impl ProcCulprit {
    /// Bytes read and written.
    pub open spec fn bytes(&self) -> nat {
        (self.read_bytes + self.write_bytes) as nat
    }

    /// Share of samples spent blocked, in percent.
    pub fn blocked_pct(&self) -> (r: Double)
        ensures
            r == sample_share(self.blocked_samples, self.total_samples),
    {
        if self.total_samples == 0 {
            return Double::zero();
        }
        Double::from_u64(self.blocked_samples as u64).over(
            &Double::from_u64(self.total_samples as u64),
        ).times(&Double::from_u64(100))
    }

    pub fn copy(&self) -> (r: ProcCulprit)
        ensures
            r == *self,
    {
        ProcCulprit {
            pid: self.pid,
            comm: self.comm.clone(),
            blocked_samples: self.blocked_samples,
            total_samples: self.total_samples,
            read_bytes: self.read_bytes,
            write_bytes: self.write_bytes,
            blkio_delay_ms: self.blkio_delay_ms,
        }
    }
}

/// Does the switch for delay accounting read as on?
pub open spec fn switched_on(body: Option<String>) -> bool {
    match body {
        Some(b) => trim(b@) == "1"@,
        None => false,
    }
}

/// Is kernel delay accounting switched on, going by
/// `/proc/sys/kernel/task_delayacct`?
///
/// Since 5.14 the runtime default is off, so `delayacct_blkio_ticks` reads as a
/// constant zero. Callers should say "not enabled" rather than "no delay",
/// which are very different claims.
pub fn delayacct_enabled(body: &Option<String>) -> (r: bool)
    ensures
        r == switched_on(*body),
{
    match body {
        Some(b) => is_text(trimmed(&to_chars(b.as_str())), "1"),
        None => false,
    }
}

// ── files of one process ───────────────────────────────────────────────

/// State and `delayacct_blkio_ticks` in a `/proc/<pid>/stat` body.
///
/// The name is wrapped in parentheses and may itself contain spaces and
/// parentheses, so everything after the *last* `)` is positional: first the
/// state, and at place 39 the ticks, zero where they are missing.
pub open spec fn stat_in(body: Seq<char>) -> Option<(char, u64)> {
    let at = find_last(body, ')') as int;
    if at == 0 {
        None
    } else {
        let fields = words(body.skip(at));
        if fields.len() == 0 || fields[0].len() == 0 {
            None
        } else {
            Some((fields[0][0], ticks_in(fields)))
        }
    }
}

/// The ticks among the fields.
pub open spec fn ticks_in(fields: Seq<Seq<char>>) -> u64 {
    if fields.len() > 39 {
        match parse_u64(fields[39]) {
            Some(n) => n as u64,
            None => 0,
        }
    } else {
        0
    }
}

/// See [`stat_in`].
pub fn parse_stat(body: &str) -> (r: Option<(char, u64)>)
    ensures
        r == stat_in(body@),
{
    let chars: Vec<char> = to_chars(body);
    let at: usize = position_last(&chars, ')');
    if at == 0 {
        return None;
    }
    let rest: &[char] = slice_subrange(chars.as_slice(), at, chars.len());
    assert(rest@ =~= body@.skip(at as int));
    let fields: Vec<Vec<char>> = split_words(rest);
    let ghost fs = runs(fields@);
    assert(fs.len() == fields@.len());
    if fields.len() == 0 {
        return None;
    }
    assert(fs[0] == fields@[0]@);
    if fields[0].len() == 0 {
        return None;
    }
    let mut ticks: u64 = 0;
    if fields.len() > 39 {
        assert(fs[39] == fields@[39]@);
        if let Some(n) = read_u64(&fields[39]) {
            ticks = n;
        }
    }
    Some((fields[0][0], ticks))
}

/// The name of a process, by its `comm` file.
pub open spec fn comm_in(body: Option<String>) -> Seq<char> {
    match body {
        Some(b) => trim(b@),
        None => "<gone>"@,
    }
}

/// See [`comm_in`].
pub fn comm_of(body: &Option<String>) -> (r: String)
    ensures
        r@ == comm_in(*body),
{
    match body {
        Some(b) => from_chars(trimmed(&to_chars(b.as_str()))),
        None => copy_text("<gone>"),
    }
}

/// The number behind a key, zero where it is none.
pub open spec fn number_after(rest: Seq<char>) -> u64 {
    match parse_u64(trim(rest)) {
        Some(n) => n as u64,
        None => 0,
    }
}

/// What one line of a `/proc/<pid>/io` body changes.
pub open spec fn after_io_line(io: (u64, u64), line: Seq<char>) -> (u64, u64) {
    match after_prefix(line, "read_bytes:"@) {
        Some(rest) => (number_after(rest), io.1),
        None => match after_prefix(line, "write_bytes:"@) {
            Some(rest) => (io.0, number_after(rest)),
            None => io,
        },
    }
}

/// Bytes read and written, by the lines of a `/proc/<pid>/io` body.
pub open spec fn after_io_lines(lines: Seq<Seq<char>>) -> (u64, u64)
    decreases lines.len(),
{
    if lines.len() == 0 {
        (0, 0)
    } else {
        after_io_line(after_io_lines(lines.drop_last()), lines.last())
    }
}

/// Bytes read and written, by a `/proc/<pid>/io` file, if it could be read. It
/// is unreadable for the processes of other users, which is no error.
pub open spec fn io_in(body: Option<String>) -> Option<(u64, u64)> {
    match body {
        Some(b) => Some(after_io_lines(lines(b@))),
        None => None,
    }
}

fn read_number(rest: &[char]) -> (r: u64)
    ensures
        r == number_after(rest@),
{
    match read_u64(trimmed(rest)) {
        Some(n) => n,
        None => 0,
    }
}

/// See [`io_in`].
pub fn io_bytes(body: &Option<String>) -> (r: Option<(u64, u64)>)
    ensures
        r == io_in(*body),
{
    let b: &String = match body {
        Some(b) => b,
        None => return None,
    };
    let all: Vec<Vec<char>> = split_lines(&to_chars(b.as_str()));
    let ghost ls = runs(all@);
    let mut io: (u64, u64) = (0, 0);
    let mut i: usize = 0;
    assert(ls.take(0) =~= seq![]);
    while i < all.len()
        invariant
            i <= all@.len(),
            ls == runs(all@),
            io == after_io_lines(ls.take(i as int)),
        decreases all@.len() - i,
    {
        proof {
            let t = ls.take(i + 1);
            assert(t.drop_last() =~= ls.take(i as int));
            assert(t.last() == all@[i as int]@);
        }
        if let Some(rest) = strip_prefix(&all[i], "read_bytes:") {
            io = (read_number(rest), io.1);
        } else if let Some(rest) = strip_prefix(&all[i], "write_bytes:") {
            io = (io.0, read_number(rest));
        }
        i += 1;
    }
    assert(ls.take(i as int) =~= ls);
    Some(io)
}

// ── who is in a cgroup ─────────────────────────────────────────────────

/// The process number on a line.
pub open spec fn pid_on(line: Seq<char>) -> Option<nat> {
    parse_nat(trim(line), 10, u32::MAX as nat)
}

/// Does one of the lists name this process?
pub open spec fn lists_pid(bodies: Seq<String>, pid: u32) -> bool {
    exists|i: int, j: int|
        0 <= i < bodies.len() && 0 <= j < lines(bodies[i]@).len() && pid_on(
            #[trigger] lines(bodies[i]@)[j],
        ) == Some(pid as nat)
}

/// Each smaller than the next ones.
pub open spec fn strictly_ascending(v: Seq<u32>) -> bool {
    forall|i: int, j: int| 0 <= i < j < v.len() ==> #[trigger] v[i] < #[trigger] v[j]
}

/// Put a process number in its place, unless it is there already.
fn insert_pid(v: &mut Vec<u32>, pid: u32)
    requires
        strictly_ascending(old(v)@),
    ensures
        strictly_ascending(final(v)@),
        forall|p: u32| #[trigger] final(v)@.contains(p) == (old(v)@.contains(p) || p == pid),
{
    let ghost before = v@;
    let mut lo: usize = 0;
    let mut hi: usize = v.len();
    while lo < hi
        invariant
            lo <= hi <= v@.len(),
            v@ == before,
            strictly_ascending(before),
            forall|k: int| 0 <= k < lo ==> #[trigger] before[k] < pid,
            forall|k: int| hi <= k < before.len() ==> #[trigger] before[k] >= pid,
        decreases hi - lo,
    {
        let mid: usize = lo + (hi - lo) / 2;
        if v[mid] < pid {
            lo = mid + 1;
        } else {
            hi = mid;
        }
    }
    if lo < v.len() && v[lo] == pid {
        assert(before.contains(pid)) by {
            assert(before[lo as int] == pid);
        }
        return;
    }
    v.insert(lo, pid);
    proof {
        let now = v@;
        assert(now[lo as int] == pid);
        assert forall|p: u32| #[trigger] now.contains(p) == (before.contains(p) || p == pid) by {
            if before.contains(p) {
                let k = choose|k: int| 0 <= k < before.len() && before[k] == p;
                if k < lo {
                    assert(now[k] == p);
                } else {
                    assert(now[k + 1] == p);
                }
            }
            if now.contains(p) && p != pid {
                let k = choose|k: int| 0 <= k < now.len() && now[k] == p;
                if k < lo {
                    assert(before[k] == p);
                } else {
                    assert(before[k - 1] == p);
                }
            }
        }
        assert forall|i: int, j: int| 0 <= i < j < now.len() implies #[trigger] now[i]
            < #[trigger] now[j] by {
            let bi = if i < lo {
                i
            } else {
                i - 1
            };
            let bj = if j < lo {
                j
            } else {
                j - 1
            };
            if i != lo {
                assert(now[i] == before[bi]);
            }
            if j != lo {
                assert(now[j] == before[bj]);
            }
        }
    }
}

/// Every process in a cgroup **subtree**, given the bodies of all the
/// `cgroup.procs` files in it: each once, in ascending order.
///
/// One such file lists only direct members, which is almost never what a user
/// means. systemd nests aggressively, so a `dd` chewing the disk is not in the
/// cgroup that got blamed — it is one level down.
pub fn pids_in(bodies: &Vec<String>) -> (r: Vec<u32>)
    ensures
        strictly_ascending(r@),
        forall|p: u32| #[trigger] r@.contains(p) == lists_pid(bodies@, p),
{
    let mut out: Vec<u32> = Vec::new();
    let mut i: usize = 0;
    while i < bodies.len()
        invariant
            i <= bodies@.len(),
            strictly_ascending(out@),
            forall|p: u32| #[trigger] out@.contains(p) == lists_pid(bodies@.take(i as int), p),
        decreases bodies@.len() - i,
    {
        let all: Vec<Vec<char>> = split_lines(&to_chars(bodies[i].as_str()));
        let ghost ls = lines(bodies@[i as int]@);
        let ghost before = out@;
        let mut j: usize = 0;
        while j < all.len()
            invariant
                j <= all@.len(),
                runs(all@) == ls,
                strictly_ascending(out@),
                forall|p: u32| #[trigger]
                    out@.contains(p) == (before.contains(p) || exists|k: int|
                        0 <= k < j && pid_on(#[trigger] ls[k]) == Some(p as nat)),
            decreases all@.len() - j,
        {
            let ghost o = out@;
            assert(ls[j as int] == all@[j as int]@);
            if let Some(n) = read_nat(trimmed(&all[j]), 10, u32::MAX as u64) {
                insert_pid(&mut out, n as u32);
                assert(pid_on(ls[j as int]) == Some(n as u32 as nat));
            }
            proof {
                assert forall|p: u32| #[trigger] out@.contains(p) == (before.contains(p) || exists|
                    k: int,
                |
                    0 <= k < j + 1 && pid_on(#[trigger] ls[k]) == Some(p as nat)) by {
                    assert(o.contains(p) == (before.contains(p) || exists|k: int|
                        0 <= k < j && pid_on(#[trigger] ls[k]) == Some(p as nat)));
                }
            }
            j += 1;
        }
        proof {
            let t0 = bodies@.take(i as int);
            let t1 = bodies@.take(i + 1);
            assert(ls.len() == all@.len());
            assert forall|p: u32| #[trigger] out@.contains(p) == lists_pid(t1, p) by {
                assert(before.contains(p) == lists_pid(t0, p));
                if lists_pid(t0, p) {
                    let (a, b) = choose|a: int, b: int|
                        0 <= a < t0.len() && 0 <= b < lines(t0[a]@).len() && pid_on(
                            #[trigger] lines(t0[a]@)[b],
                        ) == Some(p as nat);
                    assert(t1[a] == t0[a]);
                    assert(pid_on(lines(t1[a]@)[b]) == Some(p as nat));
                }
                if exists|k: int| 0 <= k < ls.len() && pid_on(#[trigger] ls[k]) == Some(p as nat) {
                    let k = choose|k: int|
                        0 <= k < ls.len() && pid_on(#[trigger] ls[k]) == Some(p as nat);
                    assert(t1[i as int] == bodies@[i as int]);
                    assert(pid_on(lines(t1[i as int]@)[k]) == Some(p as nat));
                }
                if lists_pid(t1, p) {
                    let (a, b) = choose|a: int, b: int|
                        0 <= a < t1.len() && 0 <= b < lines(t1[a]@).len() && pid_on(
                            #[trigger] lines(t1[a]@)[b],
                        ) == Some(p as nat);
                    if a < i {
                        assert(t0[a] == t1[a]);
                        assert(pid_on(lines(t0[a]@)[b]) == Some(p as nat));
                    } else {
                        assert(pid_on(ls[b]) == Some(p as nat));
                    }
                }
            }
        }
        i += 1;
    }
    assert(bodies@.take(i as int) =~= bodies@);
    out
}

// ── the evidence ───────────────────────────────────────────────────────

/// What one round of sampling read of a process; a file that could not be read
/// is none. A process that has exited simply stops contributing samples.
#[derive(Debug)]
pub struct Round {
    pub io: Option<String>,
    pub stat: Option<String>,
}

/// What was read of one process over a window.
#[derive(Debug)]
pub struct Watched {
    pub pid: u32,
    /// Its byte counters as the window opened.
    pub before: Option<String>,
    pub rounds: Vec<Round>,
    /// Its byte counters as the window closed.
    pub end: Option<String>,
    pub comm: Option<String>,
}

/// What sampling has found of a process.
#[derive(Clone, Copy, Debug)]
pub struct Evidence {
    pub seen: u32,
    pub blocked: u32,
    pub ticks_before: u64,
    pub ticks_after: u64,
    /// The most recent byte counters that could be read. A process that
    /// finishes a burst and exits is exactly the shape of the thing that caused
    /// the stall, and reading only at the end would lose what it did.
    pub last_io: Option<(u64, u64)>,
}

/// Nothing sampled yet.
pub open spec fn no_evidence(before: Option<(u64, u64)>) -> Evidence {
    Evidence { seen: 0, blocked: 0, ticks_before: 0, ticks_after: 0, last_io: before }
}

/// What one round adds to the evidence.
pub open spec fn after_round(e: Evidence, round: int, r: Round) -> Evidence {
    let e = match io_in(r.io) {
        Some(now) => Evidence { last_io: Some(now), ..e },
        None => e,
    };
    match stat_of(r.stat) {
        None => e,
        Some((state, ticks)) => Evidence {
            seen: (e.seen + 1) as u32,
            blocked: if state == 'D' {
                (e.blocked + 1) as u32
            } else {
                e.blocked
            },
            ticks_before: if round == 0 {
                ticks
            } else {
                e.ticks_before
            },
            ticks_after: ticks,
            ..e
        },
    }
}

/// See [`stat_in`], of a file that could perhaps be read.
pub open spec fn stat_of(body: Option<String>) -> Option<(char, u64)> {
    match body {
        Some(b) => stat_in(b@),
        None => None,
    }
}

/// What the first `n` rounds show.
pub open spec fn evidence(w: Watched, n: nat) -> Evidence
    decreases n,
{
    if n == 0 {
        no_evidence(io_in(w.before))
    } else {
        after_round(evidence(w, (n - 1) as nat), n - 1, w.rounds@[n - 1])
    }
}

/// The bytes between two readings, none where one is missing.
pub open spec fn bytes_between(before: Option<(u64, u64)>, end: Option<(u64, u64)>) -> (u64, u64) {
    if before is Some && end is Some {
        (minus((end->0).0, (before->0).0), minus((end->0).1, (before->0).1))
    } else {
        (0, 0)
    }
}

/// A figure times ten, as far as it can be held.
pub open spec fn tenfold(n: u64) -> u64 {
    if n * 10 <= u64::MAX {
        (n * 10) as u64
    } else {
        u64::MAX
    }
}

/// How many rounds of a process count.
pub open spec fn rounds_of(w: Watched, samples: u32) -> nat {
    if w.rounds@.len() < samples {
        w.rounds@.len()
    } else {
        samples as nat
    }
}

/// A culprit as a value to compare with.
pub struct CulpritView {
    pub pid: u32,
    pub comm: Seq<char>,
    pub blocked_samples: u32,
    pub total_samples: u32,
    pub read_bytes: u64,
    pub write_bytes: u64,
    pub blkio_delay_ms: Option<u64>,
}

impl CulpritView {
    /// Bytes read and written.
    pub open spec fn bytes(&self) -> nat {
        (self.read_bytes + self.write_bytes) as nat
    }
}

impl View for ProcCulprit {
    type V = CulpritView;

    open spec fn view(&self) -> CulpritView {
        CulpritView {
            pid: self.pid,
            comm: self.comm@,
            blocked_samples: self.blocked_samples,
            total_samples: self.total_samples,
            read_bytes: self.read_bytes,
            write_bytes: self.write_bytes,
            blkio_delay_ms: self.blkio_delay_ms,
        }
    }
}

pub open spec fn culprit_views(c: Seq<ProcCulprit>) -> Seq<CulpritView> {
    Seq::new(c.len(), |i: int| c[i]@)
}

/// What a process is accused of, if of anything: one that was never seen
/// blocked and moved nothing is no culprit. A live reading of its counters is
/// preferred, else the last one seen before it exited. A tick is ten
/// milliseconds.
pub open spec fn accused(w: Watched, samples: u32, delayacct: bool) -> Option<CulpritView> {
    let e = evidence(w, rounds_of(w, samples));
    let end = if io_in(w.end) is Some {
        io_in(w.end)
    } else {
        e.last_io
    };
    let moved = bytes_between(io_in(w.before), end);
    if e.blocked == 0 && moved.0 == 0 && moved.1 == 0 {
        None
    } else {
        Some(
            CulpritView {
                pid: w.pid,
                comm: comm_in(w.comm),
                blocked_samples: e.blocked,
                total_samples: e.seen,
                read_bytes: moved.0,
                write_bytes: moved.1,
                blkio_delay_ms: if delayacct {
                    Some(tenfold(minus(e.ticks_after, e.ticks_before)))
                } else {
                    None
                },
            },
        )
    }
}

/// What processes are accused of.
pub open spec fn all_accused(w: Seq<Watched>, samples: u32, delayacct: bool) -> Seq<CulpritView>
    decreases w.len(),
{
    if w.len() == 0 {
        seq![]
    } else {
        let rest = all_accused(w.drop_last(), samples, delayacct);
        match accused(w.last(), samples, delayacct) {
            Some(c) => rest.push(c),
            None => rest,
        }
    }
}

proof fn lemma_evidence_counts(w: Watched, n: nat)
    requires
        n <= u32::MAX,
    ensures
        evidence(w, n).blocked <= evidence(w, n).seen <= n,
    decreases n,
{
    if n > 0 {
        lemma_evidence_counts(w, (n - 1) as nat);
    }
}

fn gather(w: &Watched, samples: u32) -> (r: Evidence)
    ensures
        r == evidence(*w, rounds_of(*w, samples)),
{
    let mut e: Evidence = Evidence {
        seen: 0,
        blocked: 0,
        ticks_before: 0,
        ticks_after: 0,
        last_io: io_bytes(&w.before),
    };
    let mut k: u32 = 0;
    let n: usize = w.rounds.len();
    while k < samples && (k as usize) < n
        invariant
            k <= rounds_of(*w, samples),
            n == w.rounds@.len(),
            e == evidence(*w, k as nat),
        decreases samples - k,
    {
        proof {
            lemma_evidence_counts(*w, k as nat);
        }
        let r: &Round = &w.rounds[k as usize];
        if let Some(now) = io_bytes(&r.io) {
            e.last_io = Some(now);
        }
        let stat: Option<(char, u64)> = match &r.stat {
            Some(b) => parse_stat(b.as_str()),
            None => None,
        };
        if let Some((state, ticks)) = stat {
            e.seen = e.seen + 1;
            if state == 'D' {
                e.blocked = e.blocked + 1;
            }
            if k == 0 {
                e.ticks_before = ticks;
            }
            e.ticks_after = ticks;
        }
        k += 1;
    }
    e
}

fn accuse(w: &Watched, samples: u32, delayacct: bool) -> (r: Option<ProcCulprit>)
    ensures
        r is Some == accused(*w, samples, delayacct) is Some,
        r matches Some(c) ==> c@ == accused(*w, samples, delayacct)->0,
{
    let e: Evidence = gather(w, samples);
    let before: Option<(u64, u64)> = io_bytes(&w.before);
    let closing: Option<(u64, u64)> = io_bytes(&w.end);
    let end: Option<(u64, u64)> = if closing.is_some() {
        closing
    } else {
        e.last_io
    };
    let mut rb: u64 = 0;
    let mut wb: u64 = 0;
    if let Some((r0, w0)) = before {
        if let Some((r1, w1)) = end {
            rb = r1.saturating_sub(r0);
            wb = w1.saturating_sub(w0);
        }
    }
    if e.blocked == 0 && rb == 0 && wb == 0 {
        return None;
    }
    let delay: Option<u64> = if delayacct {
        let ticks: u64 = e.ticks_after.saturating_sub(e.ticks_before);
        if ticks <= u64::MAX / 10 {
            Some(ticks * 10)
        } else {
            Some(u64::MAX)
        }
    } else {
        None
    };
    Some(
        ProcCulprit {
            pid: w.pid,
            comm: comm_of(&w.comm),
            blocked_samples: e.blocked,
            total_samples: e.seen,
            read_bytes: rb,
            write_bytes: wb,
            blkio_delay_ms: delay,
        },
    )
}

// ── which to report ────────────────────────────────────────────────────

/// A count to rank by, larger ones ahead.
pub struct Most {
    pub count: u128,
}

impl Ranked for Most {
    open spec fn ahead(&self, other: &Most) -> bool {
        self.count > other.count
    }

    proof fn ahead_one_way(a: &Most, b: &Most) {
    }

    proof fn ahead_carries(a: &Most, b: &Most, c: &Most) {
    }

    fn goes_ahead(&self, other: &Most) -> (r: bool) {
        self.count > other.count
    }
}

pub open spec fn blocked_keys(c: Seq<CulpritView>) -> Seq<Most> {
    Seq::new(c.len(), |i: int| Most { count: c[i].blocked_samples as u128 })
}

pub open spec fn byte_keys(c: Seq<CulpritView>) -> Seq<Most> {
    Seq::new(c.len(), |i: int| Most { count: c[i].bytes() as u128 })
}

/// A place added to those kept, unless it is there already.
pub open spec fn kept_with(keep: Seq<usize>, i: usize) -> Seq<usize> {
    if keep.contains(i) {
        keep
    } else {
        keep.push(i)
    }
}

/// The places kept after `n` ranks of two rankings, taken in turn so that
/// neither starves the other under a tight cap.
pub open spec fn interleaved(a: Seq<usize>, b: Seq<usize>, n: nat) -> Seq<usize>
    decreases n,
{
    if n == 0 {
        seq![]
    } else {
        let keep = interleaved(a, b, (n - 1) as nat);
        if keep.len() >= MAX_CULPRITS {
            keep
        } else {
            kept_with(kept_with(keep, a[n - 1]), b[n - 1])
        }
    }
}

/// At most so many of a list.
pub open spec fn at_most_first(s: Seq<usize>, limit: nat) -> Seq<usize> {
    if s.len() <= limit {
        s
    } else {
        s.take(limit as int)
    }
}

/// The places of the culprits to report: the worst blocked *and* the biggest
/// movers, because they are almost never the same process. Ranking by blocked
/// time alone would discard the culprit every time, since a process saturating
/// the queue is not itself blocked.
pub open spec fn picked_places(c: Seq<CulpritView>) -> Seq<usize> {
    at_most_first(
        interleaved(order_of(blocked_keys(c)), order_of(byte_keys(c)), c.len()),
        MAX_CULPRITS as nat,
    )
}

/// The culprits at some places.
pub open spec fn at_places(c: Seq<CulpritView>, places: Seq<usize>) -> Seq<CulpritView> {
    Seq::new(places.len(), |i: int| c[places[i] as int])
}

/// The culprits to report, bytes first: the caller is looking for whodunnit.
pub open spec fn ranked(c: Seq<CulpritView>) -> Seq<CulpritView> {
    let picked = at_places(c, picked_places(c));
    at_places(picked, order_of(byte_keys(picked)))
}

fn write_byte_keys(c: &Vec<ProcCulprit>) -> (r: Vec<Most>)
    ensures
        r@ == byte_keys(culprit_views(c@)),
{
    let ghost all = byte_keys(culprit_views(c@));
    let mut out: Vec<Most> = Vec::new();
    let mut i: usize = 0;
    while i < c.len()
        invariant
            i <= c@.len(),
            all == byte_keys(culprit_views(c@)),
            out@ == all.take(i as int),
        decreases c@.len() - i,
    {
        let ghost before = out@;
        out.push(Most { count: c[i].read_bytes as u128 + c[i].write_bytes as u128 });
        assert(out@ =~= all.take(i + 1));
        i += 1;
    }
    assert(out@ =~= all);
    out
}

fn write_blocked_keys(c: &Vec<ProcCulprit>) -> (r: Vec<Most>)
    ensures
        r@ == blocked_keys(culprit_views(c@)),
{
    let ghost all = blocked_keys(culprit_views(c@));
    let mut out: Vec<Most> = Vec::new();
    let mut i: usize = 0;
    while i < c.len()
        invariant
            i <= c@.len(),
            all == blocked_keys(culprit_views(c@)),
            out@ == all.take(i as int),
        decreases c@.len() - i,
    {
        let ghost before = out@;
        out.push(Most { count: c[i].blocked_samples as u128 });
        assert(out@ =~= all.take(i + 1));
        i += 1;
    }
    assert(out@ =~= all);
    out
}

fn keep_place(keep: &mut Vec<usize>, i: usize)
    ensures
        final(keep)@ == kept_with(old(keep)@, i),
{
    let mut k: usize = 0;
    while k < keep.len()
        invariant
            k <= keep@.len(),
            keep@ == old(keep)@,
            forall|j: int| 0 <= j < k ==> #[trigger] keep@[j] != i,
        decreases keep@.len() - k,
    {
        if keep[k] == i {
            assert(keep@.contains(i)) by {
                assert(keep@[k as int] == i);
            }
            return;
        }
        k += 1;
    }
    keep.push(i);
}

fn copy_places(c: &Vec<ProcCulprit>, places: &Vec<usize>) -> (r: Vec<ProcCulprit>)
    requires
        forall|i: int| 0 <= i < places@.len() ==> #[trigger] places@[i] < c@.len(),
    ensures
        culprit_views(r@) == at_places(culprit_views(c@), places@),
{
    let mut out: Vec<ProcCulprit> = Vec::new();
    let mut i: usize = 0;
    while i < places.len()
        invariant
            i <= places@.len(),
            forall|k: int| 0 <= k < places@.len() ==> #[trigger] places@[k] < c@.len(),
            out@.len() == i,
            forall|k: int| 0 <= k < i ==> #[trigger] out@[k] == c@[places@[k] as int],
        decreases places@.len() - i,
    {
        out.push(c[places[i]].copy());
        i += 1;
    }
    assert(culprit_views(out@) =~= at_places(culprit_views(c@), places@));
    out
}

/// The places kept are places there are.
proof fn lemma_interleaved_in_range(a: Seq<usize>, b: Seq<usize>, n: nat, len: nat)
    requires
        n <= a.len(),
        n <= b.len(),
        forall|i: int| 0 <= i < a.len() ==> #[trigger] a[i] < len,
        forall|i: int| 0 <= i < b.len() ==> #[trigger] b[i] < len,
    ensures
        forall|i: int|
            0 <= i < interleaved(a, b, n).len() ==> #[trigger] interleaved(a, b, n)[i] < len,
    decreases n,
{
    if n > 0 {
        lemma_interleaved_in_range(a, b, (n - 1) as nat, len);
        let keep = interleaved(a, b, (n - 1) as nat);
        let y = interleaved(a, b, n);
        assert forall|i: int| 0 <= i < y.len() implies #[trigger] y[i] < len by {
            if i < keep.len() {
                assert(y[i] == keep[i]);
            } else {
                assert(y[i] == a[n - 1] || y[i] == b[n - 1]);
            }
        }
    }
}

/// Choose which processes to report.
pub fn rank(out: &Vec<ProcCulprit>) -> (r: Vec<ProcCulprit>)
    ensures
        culprit_views(r@) == ranked(culprit_views(out@)),
{
    let ghost c = culprit_views(out@);
    let by_blocked: Vec<usize> = stable_order(&write_blocked_keys(out));
    let by_bytes: Vec<usize> = stable_order(&write_byte_keys(out));
    let mut keep: Vec<usize> = Vec::new();
    let mut k: usize = 0;
    while k < out.len()
        invariant
            k <= out@.len(),
            by_blocked@.len() == out@.len(),
            by_bytes@.len() == out@.len(),
            keep@ == interleaved(by_blocked@, by_bytes@, k as nat),
        decreases out@.len() - k,
    {
        if keep.len() < MAX_CULPRITS {
            keep_place(&mut keep, by_blocked[k]);
            keep_place(&mut keep, by_bytes[k]);
        }
        k += 1;
    }
    proof {
        lemma_interleaved_in_range(by_blocked@, by_bytes@, c.len(), c.len());
    }
    if keep.len() > MAX_CULPRITS {
        keep.truncate(MAX_CULPRITS);
        assert(keep@ =~= picked_places(c));
    }
    assert(keep@ == picked_places(c));
    let picked: Vec<ProcCulprit> = copy_places(out, &keep);
    let order: Vec<usize> = stable_order(&write_byte_keys(&picked));
    assert(culprit_views(picked@).len() == picked@.len());
    copy_places(&picked, &order)
}

/// The processes of a cgroup over a window, ranked by evidence.
///
/// Cost is bounded by the cgroup's process count, not the system's — typically
/// a handful — so this stays cheap enough to run on demand.
pub fn drill(watched: &Vec<Watched>, samples: u32, delayacct: bool) -> (r: Vec<ProcCulprit>)
    ensures
        culprit_views(r@) == (if samples == 0 {
            seq![]
        } else {
            ranked(all_accused(watched@, samples, delayacct))
        }),
{
    let mut out: Vec<ProcCulprit> = Vec::new();
    assert(culprit_views(out@) =~= seq![]);
    if samples == 0 {
        return out;
    }
    let mut i: usize = 0;
    assert(watched@.take(0) =~= seq![]);
    while i < watched.len()
        invariant
            i <= watched@.len(),
            culprit_views(out@) == all_accused(watched@.take(i as int), samples, delayacct),
        decreases watched@.len() - i,
    {
        let ghost before = out@;
        let ghost t = watched@.take(i + 1);
        assert(t.drop_last() =~= watched@.take(i as int));
        if let Some(c) = accuse(&watched[i], samples, delayacct) {
            let ghost shown = c@;
            out.push(c);
            assert(culprit_views(out@) =~= culprit_views(before).push(shown));
        }
        i += 1;
    }
    assert(watched@.take(i as int) =~= watched@);
    rank(&out)
}

// ── what holds of every ranking ────────────────────────────────────────

/// The places kept after one rank stay in front.
proof fn lemma_interleaved_front(a: Seq<usize>, b: Seq<usize>, n: nat)
    requires
        n >= 1,
        n <= a.len(),
        n <= b.len(),
    ensures
        interleaved(a, b, n).len() >= 1,
        interleaved(a, b, n)[0] == a[0],
        a[0] != b[0] ==> interleaved(a, b, n).len() >= 2 && interleaved(a, b, n)[1] == b[0],
    decreases n,
{
    if n == 1 {
        let none = Seq::<usize>::empty();
        assert(!none.contains(a[0]));
        let one = none.push(a[0]);
        assert(interleaved(a, b, 0) =~= none);
        assert(one[0] == a[0]);
        if a[0] != b[0] {
            assert(!one.contains(b[0]));
        }
    } else {
        lemma_interleaved_front(a, b, (n - 1) as nat);
    }
}

/// Neither the worst blocked process nor the biggest mover is ever truncated
/// away: what is reported holds one that no other exceeds in blocked samples,
/// and one that no other exceeds in bytes.
pub proof fn lemma_rank_keeps_worst_blocked_and_biggest_mover(c: Seq<CulpritView>)
    requires
        0 < c.len() <= usize::MAX,
    ensures
        exists|i: int|
            0 <= i < picked_places(c).len() && forall|k: int|
                0 <= k < c.len() ==> (#[trigger] c[k]).blocked_samples
                    <= c[#[trigger] picked_places(c)[i] as int].blocked_samples,
        exists|i: int|
            0 <= i < picked_places(c).len() && forall|k: int|
                0 <= k < c.len() ==> (#[trigger] c[k]).bytes()
                    <= c[#[trigger] picked_places(c)[i] as int].bytes(),
{
    let bk = blocked_keys(c);
    let yk = byte_keys(c);
    let a = order_of(bk);
    let b = order_of(yk);
    lemma_order_of(bk);
    lemma_order_of(yk);
    lemma_interleaved_front(a, b, c.len());
    let p = picked_places(c);
    let x = a[0] as int;
    let y = b[0] as int;
    assert forall|k: int| 0 <= k < c.len() implies (#[trigger] c[k]).blocked_samples
        <= c[x].blocked_samples by {
        assert(a.contains(k as usize));
        let j = choose|j: int| 0 <= j < a.len() && a[j] == k as usize;
        if j > 0 {
            assert(placed(bk, a[0] as int, a[j] as int));
        }
    }
    assert forall|k: int| 0 <= k < c.len() implies (#[trigger] c[k]).bytes() <= c[y].bytes() by {
        assert(b.contains(k as usize));
        let j = choose|j: int| 0 <= j < b.len() && b[j] == k as usize;
        if j > 0 {
            assert(placed(yk, b[0] as int, b[j] as int));
        }
    }
    assert(p[0] == a[0]);
    if a[0] == b[0] {
        assert(c[p[0] as int].bytes() == c[y].bytes());
    } else {
        assert(p[1] == b[0]);
    }
}

} // verus!
