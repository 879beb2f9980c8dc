//! A stall, recorded as a thing that happened.
//!
//! An incident is the answer to *"what just happened to me"*, kept whole: when
//! it fired, which resource woke the daemon, who was responsible, which process
//! inside them, whether that process was the cause or the victim, and any
//! physical condition that explains it. It survives as one line of JSON so it
//! can be read back after the freeze is long over.
//!
//! [`Incident::explain`] is the product. Everything else here exists to make
//! that paragraph true.

use vstd::prelude::*;
use vstd::slice::slice_subrange;

use crate::decimal::fixed;
use crate::float::{Double, at_most, below, product, quotient, signed, whole};
use crate::pathology::{Finding, Warning, findings};
use crate::process::{ProcCulprit, sample_share};
use crate::ranking::{StallView, views};
use crate::report::{
    Cause, Report, Role, Stall, by_number, bytes_phrase, bytes_text, members_json, milliseconds,
    push_by_number, to_milliseconds, write_members,
};
use crate::text::{
    copy_text, decimal, decimal_text, from_chars, join, joined, joined_runs, lemma_occurs_inside,
    lemma_occurs_longer, occurs, push_text, push_u64, split_words, texts, to_chars, trim, trimmed,
    words,
};

verus! {

/// A process caught during an incident, with a verdict attached.
#[derive(Debug, PartialEq)]
pub struct Culprit {
    pub pid: u32,
    pub comm: String,
    pub blocked_pct: Double,
    pub bytes: u64,
    pub role: Role,
}

/// What can be said of a process from what could be read about it.
///
/// `/proc/<pid>/io` is unreadable for any process the invoking user does not
/// own, so `bytes` is zero for kernel threads and root daemons. A process seen
/// moving a mebibyte is worth naming; the rest is for the cgroups to say.
pub open spec fn process_role(bytes: u64, blocked_pct: Double) -> Role {
    if bytes >= 1_048_576 && below(blocked_pct, whole(50)) {
        Role::Cause
    } else if at_most(whole(50), blocked_pct) && bytes < 1_048_576 {
        Role::Victim
    } else {
        Role::Active
    }
}

/// The bytes a process moved, as far as they can be held.
pub open spec fn process_bytes(p: ProcCulprit) -> u64 {
    if p.bytes() <= u64::MAX {
        p.bytes() as u64
    } else {
        u64::MAX
    }
}

impl Culprit {
    /// Classify a drilled process.
    ///
    /// Thresholds are deliberately blunt. The distinction only has to be right
    /// enough to stop someone blaming the application that froze, which is the
    /// mistake every other tool leads them into.
    pub fn from_proc(p: &ProcCulprit) -> (r: Culprit)
        ensures
            r.pid == p.pid,
            r.comm@ == p.comm@,
            r.blocked_pct == sample_share(p.blocked_samples, p.total_samples),
            r.bytes == process_bytes(*p),
            r.role == process_role(r.bytes, r.blocked_pct),
    {
        let bytes: u64 = p.read_bytes.saturating_add(p.write_bytes);
        let blocked_pct: Double = p.blocked_pct();
        Culprit {
            pid: p.pid,
            comm: copy_text(p.comm.as_str()),
            blocked_pct,
            bytes,
            role: Culprit::role_from(bytes, blocked_pct),
        }
    }

    /// See [`process_role`].
    pub fn role_from(bytes: u64, blocked_pct: Double) -> (r: Role)
        ensures
            r == process_role(bytes, blocked_pct),
    {
        let half: Double = Double::from_u64(50);
        if bytes >= 1_048_576 && blocked_pct.less(&half) {
            Role::Cause
        } else if half.less_or_equal(&blocked_pct) && bytes < 1_048_576 {
            Role::Victim
        } else {
            Role::Active
        }
    }
}

/// One recorded stall.
#[derive(Debug)]
pub struct Incident {
    /// Unix seconds when the capture fired.
    pub at_unix: u64,
    /// Measured length of the observation window.
    pub window_usec: u64,
    /// Which resources crossed their threshold, when the daemon was woken by
    /// a PSI trigger. Empty for a report captured on demand.
    pub woke_on: Vec<String>,
    pub stalls: Vec<Stall>,
    pub warnings: Vec<Warning>,
    /// Processes inside the worst cgroup, if a drill-down ran.
    pub culprits: Vec<Culprit>,
    /// Cgroups that moved bytes during the window. This is where the cause
    /// comes from; `culprits` only refines it when the processes are ours.
    pub causes: Vec<Cause>,
}

/// A process of an incident as a value to compare with.
pub struct Accused {
    pub pid: u32,
    pub comm: Seq<char>,
    pub blocked_pct: Double,
    pub bytes: u64,
    pub role: Role,
}

impl View for Culprit {
    type V = Accused;

    open spec fn view(&self) -> Accused {
        Accused {
            pid: self.pid,
            comm: self.comm@,
            blocked_pct: self.blocked_pct,
            bytes: self.bytes,
            role: self.role,
        }
    }
}

pub open spec fn accusations(c: Seq<Culprit>) -> Seq<Accused> {
    Seq::new(c.len(), |i: int| c[i]@)
}

/// An incident as a value to compare with.
pub struct Record {
    pub at_unix: u64,
    pub window_usec: u64,
    pub woke_on: Seq<Seq<char>>,
    pub stalls: Seq<StallView>,
    pub warnings: Seq<Finding>,
    pub culprits: Seq<Accused>,
    pub causes: Seq<Cause>,
}

impl View for Incident {
    type V = Record;

    open spec fn view(&self) -> Record {
        Record {
            at_unix: self.at_unix,
            window_usec: self.window_usec,
            woke_on: texts(self.woke_on@),
            stalls: views(self.stalls@),
            warnings: findings(self.warnings@),
            culprits: accusations(self.culprits@),
            causes: self.causes@,
        }
    }
}

// ── words ──────────────────────────────────────────────────────────────

/// "3.1 seconds", "850 milliseconds". Written out because this appears in a
/// sentence, not a table.
pub open spec fn duration_text(secs: Double) -> Seq<char> {
    if below(secs, whole(1)) {
        fixed(product(secs, whole(1000)), 0) + " milliseconds"@
    } else {
        fixed(secs, 1) + " seconds"@
    }
}

/// See [`duration_text`].
pub fn duration_phrase(secs: Double) -> (r: String)
    ensures
        r@ == duration_text(secs),
{
    if secs.less(&Double::from_u64(1)) {
        let mut s: String = secs.times(&Double::from_u64(1000)).to_fixed(0);
        s.push_str(" milliseconds");
        s
    } else {
        let mut s: String = secs.to_fixed(1);
        s.push_str(" seconds");
        s
    }
}

/// A byte count inside a sentence: the unit is written out where there is no
/// prefix to it.
pub open spec fn bytes_said(bytes: nat) -> Seq<char> {
    if at_most(whole(1024), whole(bytes as int)) {
        bytes_text(bytes)
    } else {
        decimal(bytes) + " bytes"@
    }
}

/// See [`bytes_said`].
pub fn bytes_sentence(bytes: u64) -> (r: String)
    ensures
        r@ == bytes_said(bytes as nat),
{
    if Double::from_u64(bytes).at_least(1024) {
        bytes_phrase(bytes)
    } else {
        let mut s: String = decimal_text(bytes);
        s.push_str(" bytes");
        s
    }
}

/// Small numbers read better as words inside a sentence.
pub open spec fn spelled(n: nat) -> Seq<char> {
    if n == 0 {
        "zero"@
    } else if n == 1 {
        "one"@
    } else if n == 2 {
        "two"@
    } else if n == 3 {
        "three"@
    } else if n == 4 {
        "four"@
    } else if n == 5 {
        "five"@
    } else if n == 6 {
        "six"@
    } else if n == 7 {
        "seven"@
    } else if n == 8 {
        "eight"@
    } else if n == 9 {
        "nine"@
    } else if n == 10 {
        "ten"@
    } else if n == 11 {
        "eleven"@
    } else if n == 12 {
        "twelve"@
    } else {
        decimal(n)
    }
}

/// See [`spelled`].
pub fn spell(n: u64) -> (r: String)
    ensures
        r@ == spelled(n as nat),
{
    match n {
        0 => copy_text("zero"),
        1 => copy_text("one"),
        2 => copy_text("two"),
        3 => copy_text("three"),
        4 => copy_text("four"),
        5 => copy_text("five"),
        6 => copy_text("six"),
        7 => copy_text("seven"),
        8 => copy_text("eight"),
        9 => copy_text("nine"),
        10 => copy_text("ten"),
        11 => copy_text("eleven"),
        12 => copy_text("twelve"),
        _ => decimal_text(n),
    }
}

/// How many of these units a time is, to the nearest, a half counting up.
pub open spec fn nearest_of(delta: nat, unit: nat) -> nat {
    (2 * delta + unit) / (2 * unit)
}

/// "just now", "about four minutes ago", "yesterday".
///
/// Vague on purpose. Nobody asking what just happened wants "1247 seconds".
pub open spec fn ago_text(delta: nat) -> Seq<char> {
    if delta <= 20 {
        "just now"@
    } else if delta <= 90 {
        "a minute ago"@
    } else if delta < 3600 {
        "about "@ + spelled(nearest_of(delta, 60)) + " minutes ago"@
    } else if delta < 86_400 {
        let hours = nearest_of(delta, 3600);
        if hours == 1 {
            "about an hour ago"@
        } else {
            "about "@ + spelled(hours) + " hours ago"@
        }
    } else {
        let days = delta / 86_400;
        if days == 1 {
            "yesterday"@
        } else {
            decimal(days) + " days ago"@
        }
    }
}

/// See [`ago_text`].
pub fn relative_time(delta: u64) -> (r: String)
    ensures
        r@ == ago_text(delta as nat),
{
    if delta <= 20 {
        copy_text("just now")
    } else if delta <= 90 {
        copy_text("a minute ago")
    } else if delta < 3600 {
        let mut s: String = copy_text("about ");
        s.push_str(spell((2 * delta + 60) / 120).as_str());
        s.push_str(" minutes ago");
        s
    } else if delta < 86_400 {
        let hours: u64 = (2 * delta + 3600) / 7200;
        if hours == 1 {
            copy_text("about an hour ago")
        } else {
            let mut s: String = copy_text("about ");
            s.push_str(spell(hours).as_str());
            s.push_str(" hours ago");
            s
        }
    } else {
        let days: u64 = delta / 86_400;
        if days == 1 {
            copy_text("yesterday")
        } else {
            let mut s: String = decimal_text(days);
            s.push_str(" days ago");
            s
        }
    }
}

/// Where the first full stop before a space is, or the length of the text.
pub open spec fn stop_at(s: Seq<char>) -> nat
    decreases s.len(),
{
    if s.len() == 0 {
        0
    } else if s.len() >= 2 && s[0] == '.' && s[1] == ' ' {
        0
    } else {
        1 + stop_at(s.drop_first())
    }
}

/// Pathology messages are paragraphs; an explanation wants one sentence.
pub open spec fn opening(msg: Seq<char>) -> Seq<char> {
    let flat = join(words(msg), " "@);
    if stop_at(flat) < flat.len() {
        trim(flat.take(stop_at(flat) as int + 1))
    } else {
        flat
    }
}

/// See [`opening`].
pub fn first_sentence(msg: &str) -> (r: String)
    ensures
        r@ == opening(msg@),
{
    let flat: Vec<char> = to_chars(joined_runs(&split_words(&to_chars(msg)), " ").as_str());
    let n: usize = flat.len();
    let mut i: usize = 0;
    assert(flat@.skip(0) =~= flat@);
    while i < n
        invariant
            i <= n == flat@.len(),
            flat@ == join(words(msg@), " "@),
            stop_at(flat@) == i + stop_at(flat@.skip(i as int)),
        decreases n - i,
    {
        let ghost rest = flat@.skip(i as int);
        assert(rest[0] == flat@[i as int]);
        assert(rest.drop_first() =~= flat@.skip(i + 1));
        if flat[i] == '.' && n - i >= 2 && flat[i + 1] == ' ' {
            assert(rest[1] == flat@[i + 1]);
            return from_chars(trimmed(slice_subrange(flat.as_slice(), 0, i + 1)));
        }
        if n - i >= 2 {
            assert(rest[1] == flat@[i + 1]);
        }
        i += 1;
    }
    from_chars(flat.as_slice())
}

// ── the paragraph ──────────────────────────────────────────────────────

/// The first process that is called a cause.
pub open spec fn first_cause(c: Seq<Culprit>) -> Option<Culprit>
    decreases c.len(),
{
    if c.len() == 0 {
        None
    } else if c[0].role == Role::Cause {
        Some(c[0])
    } else {
        first_cause(c.drop_first())
    }
}

/// Cause or victim: the sentence nothing else prints.
pub open spec fn verdict(culprits: Seq<Culprit>) -> Seq<char> {
    match first_cause(culprits) {
        Some(c) => "  It was the victim, not the cause: "@ + c.comm@ + " ["@ + decimal(c.pid as nat)
            + "] moved "@ + bytes_said(c.bytes as nat) + " through the same queue.\n"@,
        None => if culprits.len() > 0 {
            "  No process inside it was moving data, so the work was kernel-side rather\n  than something you can point at.\n"@
        } else {
            ""@
        },
    }
}

pub open spec fn bystander(s: Stall) -> Seq<char> {
    s.unit@ + " ("@ + fixed(s.pressure_pct, 0) + "%)"@
}

/// What else stalled at the same moment: the next two.
pub open spec fn bystanders(stalls: Seq<Stall>) -> Seq<Seq<char>> {
    Seq::new(
        if stalls.len() <= 1 {
            0
        } else if stalls.len() == 2 {
            1
        } else {
            2
        },
        |i: int| bystander(stalls[i + 1]),
    )
}

pub open spec fn also(stalls: Seq<Stall>) -> Seq<char> {
    if bystanders(stalls).len() == 0 {
        ""@
    } else {
        "  Also stalled: "@ + join(bystanders(stalls), ", "@) + ".\n"@
    }
}

pub open spec fn condition(w: Warning) -> Seq<char> {
    "\n  "@ + w.source@ + ": "@ + opening(w.message@) + (if w.transient {
        " That part clears itself."@
    } else {
        ""@
    }) + "\n"@
}

/// The conditions, in the order they were found, the first `n`.
pub open spec fn conditions(w: Seq<Warning>, n: nat) -> Seq<char>
    decreases n,
{
    if n == 0 {
        seq![]
    } else {
        conditions(w, (n - 1) as nat) + condition(w[n - 1])
    }
}

/// So many seconds from one moment to a later one; none to an earlier one.
pub open spec fn since(now: u64, at: u64) -> nat {
    if now >= at {
        (now - at) as nat
    } else {
        0
    }
}

impl Incident {
    /// How long the machine was actually stopped, in milliseconds.
    pub open spec fn stopped_ms(&self) -> Double {
        if self.stalls@.len() > 0 {
            milliseconds(self.stalls@[0].delta_usec)
        } else {
            signed(false, 0)
        }
    }

    /// The paragraph, at this moment.
    pub open spec fn paragraph(&self, now: u64) -> Seq<char> {
        if self.stalls@.len() == 0 {
            "Nothing was recorded. The machine has not stalled since this started watching.\n"@
        } else {
            let worst = self.stalls@[0];
            "Your machine froze for "@ + duration_text(quotient(self.stopped_ms(), whole(1000)))
                + ", "@ + ago_text(since(now, self.at_unix)) + ".\n\n  "@ + worst.unit@
                + " was blocked on "@ + worst.resource.name() + " for "@ + fixed(
                worst.pressure_pct,
                0,
            ) + "% of that window.\n"@ + verdict(self.culprits@) + also(self.stalls@) + conditions(
                self.warnings@,
                self.warnings@.len(),
            )
        }
    }
}

fn write_verdict(culprits: &Vec<Culprit>) -> (r: String)
    ensures
        r@ == verdict(culprits@),
{
    let mut i: usize = 0;
    assert(culprits@.skip(0) =~= culprits@);
    while i < culprits.len()
        invariant
            i <= culprits@.len(),
            first_cause(culprits@) == first_cause(culprits@.skip(i as int)),
        decreases culprits@.len() - i,
    {
        let c: &Culprit = &culprits[i];
        proof {
            assert(culprits@.skip(i as int)[0] == c);
            assert(culprits@.skip(i as int).drop_first() =~= culprits@.skip(i + 1));
        }
        if c.role == Role::Cause {
            let mut o: String = copy_text("  It was the victim, not the cause: ");
            o.push_str(c.comm.as_str());
            o.push_str(" [");
            push_u64(&mut o, c.pid as u64);
            o.push_str("] moved ");
            o.push_str(bytes_sentence(c.bytes).as_str());
            o.push_str(" through the same queue.\n");
            return o;
        }
        i += 1;
    }
    if culprits.len() > 0 {
        copy_text(
            "  No process inside it was moving data, so the work was kernel-side rather\n  than something you can point at.\n",
        )
    } else {
        copy_text("")
    }
}

fn write_also(stalls: &Vec<Stall>) -> (r: String)
    ensures
        r@ == also(stalls@),
{
    let ghost all = bystanders(stalls@);
    let mut parts: Vec<String> = Vec::new();
    let mut i: usize = 1;
    assert(texts(parts@) =~= all.take(0));
    while i < stalls.len() && i < 3
        invariant
            all == bystanders(stalls@),
            1 <= i <= 3,
            i - 1 <= all.len(),
            i <= stalls@.len() || i == 1,
            texts(parts@) == all.take(i - 1),
        decreases 3 - i,
    {
        let mut o: String = copy_text(stalls[i].unit.as_str());
        o.push_str(" (");
        o.push_str(stalls[i].pressure_pct.to_fixed(0).as_str());
        o.push_str("%)");
        push_text(&mut parts, o);
        assert(all.take(i as int) =~= all.take(i - 1).push(all[i - 1]));
        i += 1;
    }
    assert(texts(parts@) =~= all);
    assert(texts(parts@).len() == parts@.len());
    if parts.len() == 0 {
        return copy_text("");
    }
    let mut o: String = copy_text("  Also stalled: ");
    o.push_str(joined(&parts, ", ").as_str());
    o.push_str(".\n");
    o
}

fn write_conditions(w: &Vec<Warning>) -> (r: String)
    ensures
        r@ == conditions(w@, w@.len()),
{
    let mut o: String = String::new();
    let mut i: usize = 0;
    assert(o@ =~= conditions(w@, 0));
    while i < w.len()
        invariant
            i <= w@.len(),
            o@ == conditions(w@, i as nat),
        decreases w@.len() - i,
    {
        let mut c: String = copy_text("\n  ");
        c.push_str(w[i].source.as_str());
        c.push_str(": ");
        c.push_str(first_sentence(w[i].message.as_str()).as_str());
        c.push_str(
            if w[i].transient {
                " That part clears itself."
            } else {
                ""
            },
        );
        c.push_str("\n");
        o.push_str(c.as_str());
        i += 1;
    }
    o
}

pub fn copy_stalls(v: &Vec<Stall>) -> (r: Vec<Stall>)
    ensures
        r@ == v@,
{
    let mut out: Vec<Stall> = Vec::new();
    let mut i: usize = 0;
    while i < v.len()
        invariant
            i <= v@.len(),
            out@ == v@.take(i as int),
        decreases v@.len() - i,
    {
        out.push(v[i].copy());
        i += 1;
        assert(v@.take(i as int) =~= v@.take(i - 1).push(v@[i - 1]));
    }
    assert(out@ =~= v@);
    out
}

fn copy_causes(v: &Vec<Cause>) -> (r: Vec<Cause>)
    ensures
        r@ == v@,
{
    let mut out: Vec<Cause> = Vec::new();
    let mut i: usize = 0;
    while i < v.len()
        invariant
            i <= v@.len(),
            out@ == v@.take(i as int),
        decreases v@.len() - i,
    {
        out.push(v[i].copy());
        i += 1;
        assert(v@.take(i as int) =~= v@.take(i - 1).push(v@[i - 1]));
    }
    assert(out@ =~= v@);
    out
}

fn copy_warnings(v: &Vec<Warning>) -> (r: Vec<Warning>)
    ensures
        r@ == v@,
{
    let mut out: Vec<Warning> = Vec::new();
    let mut i: usize = 0;
    while i < v.len()
        invariant
            i <= v@.len(),
            out@ == v@.take(i as int),
        decreases v@.len() - i,
    {
        out.push(v[i].copy());
        i += 1;
        assert(v@.take(i as int) =~= v@.take(i - 1).push(v@[i - 1]));
    }
    assert(out@ =~= v@);
    out
}

// ── one line of JSON ───────────────────────────────────────────────────

/// A character inside a string of the log.
pub open spec fn log_char(c: char) -> Seq<char> {
    if c == '"' {
        seq!['\\', '"']
    } else if c == '\\' {
        seq!['\\', '\\']
    } else if c == '\n' {
        seq!['\\', 'n']
    } else if (c as u32) < 0x20 {
        by_number(c)
    } else {
        seq![c]
    }
}

pub open spec fn log_chars(s: Seq<char>) -> Seq<char>
    decreases s.len(),
{
    if s.len() == 0 {
        seq![]
    } else {
        log_chars(s.drop_last()) + log_char(s.last())
    }
}

/// A text as a string of the log.
pub open spec fn log_text(s: Seq<char>) -> Seq<char> {
    seq!['"'] + log_chars(s) + seq!['"']
}

/// See [`log_text`].
pub fn jstr(s: &str) -> (r: String)
    ensures
        r@ == log_text(s@),
{
    let chars: Vec<char> = to_chars(s);
    let mut o: String = String::new();
    o.push('"');
    let mut i: usize = 0;
    assert(o@ =~= seq!['"'] + log_chars(chars@.take(0)));
    while i < chars.len()
        invariant
            i <= chars@.len(),
            o@ == seq!['"'] + log_chars(chars@.take(i as int)),
        decreases chars@.len() - i,
    {
        let c: char = chars[i];
        let ghost before = o@;
        if c == '"' {
            o.push('\\');
            o.push('"');
        } else if c == '\\' {
            o.push('\\');
            o.push('\\');
        } else if c == '\n' {
            o.push('\\');
            o.push('n');
        } else if (c as u32) < 0x20 {
            push_by_number(&mut o, c);
        } else {
            o.push(c);
        }
        proof {
            assert(o@ =~= before + log_char(c));
            let t = chars@.take(i + 1);
            assert(t.drop_last() =~= chars@.take(i as int));
            assert(o@ =~= seq!['"'] + log_chars(t));
        }
        i += 1;
    }
    assert(chars@.take(i as int) =~= s@);
    o.push('"');
    assert(o@ =~= log_text(s@));
    o
}

pub open spec fn culprit_json(c: Culprit) -> Seq<char> {
    "{\"pid\":"@ + decimal(c.pid as nat) + ",\"comm\":"@ + log_text(c.comm@)
        + ",\"blocked_pct\":"@ + fixed(c.blocked_pct, 1) + ",\"bytes\":"@ + decimal(c.bytes as nat)
        + ",\"role\":\""@ + c.role.name() + "\"}"@
}

pub open spec fn culprit_jsons(c: Seq<Culprit>) -> Seq<Seq<char>> {
    Seq::new(c.len(), |i: int| culprit_json(c[i]))
}

pub open spec fn log_texts(s: Seq<String>) -> Seq<Seq<char>> {
    Seq::new(s.len(), |i: int| log_text(s[i]@))
}

fn write_culprits(v: &Vec<Culprit>) -> (r: Vec<String>)
    ensures
        texts(r@) == culprit_jsons(v@),
{
    let ghost all = culprit_jsons(v@);
    let mut out: Vec<String> = Vec::new();
    let mut i: usize = 0;
    assert(texts(out@) =~= all.take(0));
    while i < v.len()
        invariant
            i <= v@.len(),
            all == culprit_jsons(v@),
            texts(out@) == all.take(i as int),
        decreases v@.len() - i,
    {
        let c: &Culprit = &v[i];
        let mut o: String = copy_text("{\"pid\":");
        o.push_str(decimal_text(c.pid as u64).as_str());
        o.push_str(",\"comm\":");
        o.push_str(jstr(c.comm.as_str()).as_str());
        o.push_str(",\"blocked_pct\":");
        o.push_str(c.blocked_pct.to_fixed(1).as_str());
        o.push_str(",\"bytes\":");
        o.push_str(decimal_text(c.bytes).as_str());
        o.push_str(",\"role\":\"");
        o.push_str(c.role.as_str());
        o.push_str("\"}");
        push_text(&mut out, o);
        assert(all.take(i + 1) =~= all.take(i as int).push(all[i as int]));
        i += 1;
    }
    assert(texts(out@) =~= all);
    out
}

fn write_texts(v: &Vec<String>) -> (r: Vec<String>)
    ensures
        texts(r@) == log_texts(v@),
{
    let ghost all = log_texts(v@);
    let mut out: Vec<String> = Vec::new();
    let mut i: usize = 0;
    assert(texts(out@) =~= all.take(0));
    while i < v.len()
        invariant
            i <= v@.len(),
            all == log_texts(v@),
            texts(out@) == all.take(i as int),
        decreases v@.len() - i,
    {
        push_text(&mut out, jstr(v[i].as_str()));
        assert(all.take(i + 1) =~= all.take(i as int).push(all[i as int]));
        i += 1;
    }
    assert(texts(out@) =~= all);
    out
}

impl Incident {
    /// What a report found, recorded at this moment.
    pub fn from_report(report: &Report, woke_on: Vec<String>, now_unix: u64) -> (r: Incident)
        ensures
            r.at_unix == now_unix,
            r.window_usec == report.window_usec,
            r.woke_on == woke_on,
            r.stalls@ == report.stalls@,
            r.warnings@ == report.warnings@,
            r.culprits@ == Seq::<Culprit>::empty(),
            r.causes@ == report.causes@,
    {
        Incident {
            at_unix: now_unix,
            window_usec: report.window_usec,
            woke_on,
            stalls: copy_stalls(&report.stalls),
            warnings: copy_warnings(&report.warnings),
            culprits: Vec::new(),
            causes: copy_causes(&report.causes),
        }
    }

    /// The worst stall, which is what a human means by "what happened".
    pub fn worst(&self) -> (r: Option<&Stall>)
        ensures
            r is Some == (self.stalls@.len() > 0),
            r matches Some(s) ==> *s == self.stalls@[0],
    {
        if self.stalls.len() == 0 {
            None
        } else {
            Some(&self.stalls[0])
        }
    }

    /// See [`Incident::stopped_ms`].
    pub fn frozen_ms(&self) -> (r: Double)
        ensures
            r == self.stopped_ms(),
    {
        match self.worst() {
            Some(s) => to_milliseconds(s.delta_usec),
            None => Double::zero(),
        }
    }

    /// The paragraph. This is the whole point of the tool.
    ///
    /// Deliberately prose, not a table. Every other tool in this space renders
    /// a grid and leaves the reader to work out who to blame; the reader is
    /// usually wrong, because PSI blames the victim.
    pub fn explain(&self, now: u64) -> (r: String)
        ensures
            r@ == self.paragraph(now),
    {
        let worst: &Stall = match self.worst() {
            Some(s) => s,
            None => {
                return copy_text(
                    "Nothing was recorded. The machine has not stalled since this started watching.\n",
                );
            },
        };
        let secs: Double = self.frozen_ms().over(&Double::from_u64(1000));
        let mut o: String = copy_text("Your machine froze for ");
        o.push_str(duration_phrase(secs).as_str());
        o.push_str(", ");
        o.push_str(relative_time(now.saturating_sub(self.at_unix)).as_str());
        o.push_str(".\n\n  ");
        o.push_str(worst.unit.as_str());
        o.push_str(" was blocked on ");
        o.push_str(worst.resource.as_str());
        o.push_str(" for ");
        o.push_str(worst.pressure_pct.to_fixed(0).as_str());
        o.push_str("% of that window.\n");
        o.push_str(write_verdict(&self.culprits).as_str());
        o.push_str(write_also(&self.stalls).as_str());
        o.push_str(write_conditions(&self.warnings).as_str());
        o
    }

    /// The incident as one line of JSON: what is its own before what it shares
    /// with a report, so that the schema stays a superset of the report.
    pub open spec fn jsonl(&self) -> Seq<char> {
        "{\"at_unix\":"@ + decimal(self.at_unix as nat) + ",\"woke_on\":["@ + join(
            log_texts(self.woke_on@),
            ","@,
        ) + "],\"culprits\":["@ + join(culprit_jsons(self.culprits@), ","@) + "],"@ + members_json(
            self.window_usec,
            self.stalls@,
            self.causes@,
            self.warnings@,
        ) + "}"@
    }

    /// One line of JSON, for an append-only log.
    pub fn to_jsonl(&self) -> (r: String)
        ensures
            r@ == self.jsonl(),
    {
        let woke: Vec<String> = write_texts(&self.woke_on);
        let culprits: Vec<String> = write_culprits(&self.culprits);
        let mut o: String = copy_text("{\"at_unix\":");
        o.push_str(decimal_text(self.at_unix).as_str());
        o.push_str(",\"woke_on\":[");
        o.push_str(joined(&woke, ",").as_str());
        o.push_str("],\"culprits\":[");
        o.push_str(joined(&culprits, ",").as_str());
        o.push_str("],");
        o.push_str(
            write_members(self.window_usec, &self.stalls, &self.causes, &self.warnings).as_str(),
        );
        o.push_str("}");
        o
    }
}

// ── laws ───────────────────────────────────────────────────────────────

proof fn lemma_verdict_names(c: Seq<Culprit>)
    requires
        first_cause(c) is Some,
    ensures
        occurs(verdict(c), first_cause(c)->0.comm@),
        occurs(verdict(c), "victim, not the cause"@),
{
    let cause = first_cause(c)->0;
    reveal_strlit("  It was the victim, not the cause: ");
    reveal_strlit("victim, not the cause");
    let said = "  It was the victim, not the cause: "@;
    let before = said.take(13);
    let after = said.skip(34);
    let tail = " ["@ + decimal(cause.pid as nat) + "] moved "@ + bytes_said(cause.bytes as nat)
        + " through the same queue.\n"@;
    assert(verdict(c) =~= said + cause.comm@ + tail);
    lemma_occurs_inside(said, cause.comm@, tail);
    assert(said =~= before + "victim, not the cause"@ + after);
    lemma_occurs_inside(before, "victim, not the cause"@, after);
    lemma_occurs_longer(seq![], said, cause.comm@ + tail, "victim, not the cause"@);
    assert(seq![] + said + (cause.comm@ + tail) =~= verdict(c));
}

/// The explanation names the unit that was hit worst, and where a process was
/// caught causing the stall it names that one and absolves the unit.
pub proof fn lemma_explanation_names_the_cause_and_absolves_the_victim(i: Incident, now: u64)
    requires
        i.stalls@.len() > 0,
    ensures
        occurs(i.paragraph(now), i.stalls@[0].unit@),
        first_cause(i.culprits@) matches Some(c) ==> occurs(i.paragraph(now), c.comm@) && occurs(
            i.paragraph(now),
            "victim, not the cause"@,
        ),
{
    let worst = i.stalls@[0];
    let a = "Your machine froze for "@ + duration_text(quotient(i.stopped_ms(), whole(1000)))
        + ", "@ + ago_text(since(now, i.at_unix)) + ".\n\n  "@;
    let b = " was blocked on "@ + worst.resource.name() + " for "@ + fixed(worst.pressure_pct, 0)
        + "% of that window.\n"@;
    let v = verdict(i.culprits@);
    let c = also(i.stalls@) + conditions(i.warnings@, i.warnings@.len());
    assert(i.paragraph(now) =~= a + worst.unit@ + (b + v + c));
    lemma_occurs_inside(a, worst.unit@, b + v + c);
    if let Some(cause) = first_cause(i.culprits@) {
        lemma_verdict_names(i.culprits@);
        lemma_occurs_longer(a + worst.unit@ + b, v, c, cause.comm@);
        lemma_occurs_longer(a + worst.unit@ + b, v, c, "victim, not the cause"@);
        assert(i.paragraph(now) =~= (a + worst.unit@ + b) + v + c);
    }
}

} // verus!
