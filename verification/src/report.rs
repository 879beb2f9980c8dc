//! What one observation window found, and how it is shown.

use vstd::prelude::*;

use crate::cgroup;
use crate::decimal::fixed;
use crate::float::{Double, at_most, below, difference, quotient, whole};
use crate::pathology::{Severity, Warning};
use crate::psi::{PsiKind, Resource};
use crate::text::{
    copy_text, decimal, decimal_text, join, joined, pad_left, pad_right, push_padded_left,
    push_padded_right, push_text, same_text, texts, to_chars,
};

verus! {

/// Ignore anything under this share of the window, in percent. Below ~1% is
/// indistinguishable from scheduling noise on an idle desktop.
pub const MIN_REPORTABLE_PCT: u64 = 1;

/// Bytes a cgroup must move before it can be called a cause.
///
/// Below a mebibyte is indistinguishable from a config read or a log line on
/// any real desktop.
pub const MIN_CAUSE_BYTES: u64 = 1_048_576;

/// A cause must be *mostly unblocked*, in percent. Above this it is competing
/// for the device too, and calling it a cause overstates the evidence.
pub const CAUSE_MAX_PRESSURE_PCT: u64 = 50;

/// Cap on reported causes, for the same reason as [`MAX_STALLS`].
pub const MAX_CAUSES: usize = 10;

/// Cap on reported stalls. A human reading a diagnostic wants the culprits, not
/// a census.
pub const MAX_STALLS: usize = 10;

/// One unit's stall over one observation window.
///
/// This is the wire schema. Field names and semantics are deliberately aligned
/// with the conventions the container ecosystem settled on: Kubernetes and
/// cAdvisor expose `container_pressure_{cpu,memory,io}_{waiting,stalled}`,
/// where `waiting` is PSI `some` and `stalled` is PSI `full`.
#[derive(Debug, PartialEq)]
pub struct Stall {
    /// Human-recognisable name: `firefox (flatpak)`, `systemd-journald`.
    pub unit: String,
    /// Raw cgroup v2 path the figure was read from. The audit trail — a caller
    /// should always be able to re-read the kernel and check the arithmetic.
    pub cgroup: String,
    pub resource: Resource,
    pub kind: PsiKind,
    /// Microseconds stalled during the window.
    pub delta_usec: u64,
    /// `delta_usec / window_usec * 100`.
    pub pressure_pct: Double,
    /// Worst single sampling tick inside the window.
    ///
    /// Load-bearing for anything aggregated. A two-second total freeze inside a
    /// sixty-second window averages to ~3%, which reads as "nothing happened".
    /// The peak preserves the event. For a single-tick observation this equals
    /// `pressure_pct`.
    pub peak_pct: Double,
}

impl Stall {
    pub fn copy(&self) -> (r: Stall)
        ensures
            r == *self,
    {
        Stall {
            unit: self.unit.clone(),
            cgroup: self.cgroup.clone(),
            resource: self.resource,
            kind: self.kind,
            delta_usec: self.delta_usec,
            pressure_pct: self.pressure_pct,
            peak_pct: self.peak_pct,
        }
    }
}

/// Whether a cgroup was doing the work or suffering it.
///
/// Pressure alone cannot express this. It measures who was *blocked*, so a
/// process saturating a queue registers almost no pressure while the terminal
/// it starved registers 90%. Pairing pressure with bytes separates the two.
#[derive(Clone, Copy, Debug, PartialEq, Eq, Structural)]
pub enum Role {
    /// Moved real bytes and was barely blocked: this is the one to act on.
    Cause,
    /// Was blocked and moved nothing: collateral damage.
    Victim,
    /// Both, or neither clearly. Named honestly rather than forced into a
    /// verdict the evidence does not support.
    Active,
}

impl Role {
    /// The name on the wire.
    pub open spec fn name(&self) -> Seq<char> {
        match self {
            Role::Cause => "cause"@,
            Role::Victim => "victim"@,
            Role::Active => "active"@,
        }
    }

    /// See [`Role::name`].
    pub fn as_str(self) -> (r: &'static str)
        ensures
            r@ == self.name(),
    {
        match self {
            Role::Cause => "cause",
            Role::Victim => "victim",
            Role::Active => "active",
        }
    }
}

/// A cgroup that moved block-layer bytes during the window.
///
/// The complement of [`Stall`]. A stall says who was frozen; this says who was
/// working. The culprit is usually in this list and absent from that one.
#[derive(Debug, PartialEq)]
pub struct Cause {
    pub unit: String,
    pub cgroup: String,
    pub read_bytes: u64,
    pub write_bytes: u64,
    /// Discard (TRIM) bytes, reported separately because they are kernel-side
    /// cleanup rather than work the cgroup can be asked to stop doing.
    pub discard_bytes: u64,
    /// This cgroup's *own* IO stall. Low here alongside high bytes is the
    /// signature of a cause; high here with no bytes is a victim.
    pub pressure_pct: Double,
    pub role: Role,
}

impl Cause {
    pub fn copy(&self) -> (r: Cause)
        ensures
            r == *self,
    {
        Cause {
            unit: self.unit.clone(),
            cgroup: self.cgroup.clone(),
            read_bytes: self.read_bytes,
            write_bytes: self.write_bytes,
            discard_bytes: self.discard_bytes,
            pressure_pct: self.pressure_pct,
            role: self.role,
        }
    }
}

/// What the evidence supports.
///
/// The thresholds are asymmetric. A cgroup must move real bytes *and* be mostly
/// unblocked to be accused; anything ambiguous is [`Role::Active`].
pub open spec fn role_of(bytes: u64, pressure_pct: Double) -> Role {
    let limit = whole(CAUSE_MAX_PRESSURE_PCT as int);
    if bytes >= MIN_CAUSE_BYTES && below(pressure_pct, limit) {
        Role::Cause
    } else if bytes < MIN_CAUSE_BYTES && at_most(limit, pressure_pct) {
        Role::Victim
    } else {
        Role::Active
    }
}

impl Cause {
    /// Bytes read and written, discards left aside.
    pub open spec fn moved(&self) -> u64 {
        if self.read_bytes + self.write_bytes <= u64::MAX {
            (self.read_bytes + self.write_bytes) as u64
        } else {
            u64::MAX
        }
    }

    /// Can this cgroup be named as the thing to go and deal with? The root
    /// aggregates everything on the machine, so it is never an answer.
    pub open spec fn nameable(&self) -> bool {
        self.cgroup@ != cgroup::ROOT@
    }

    /// See [`Cause::moved`].
    pub fn bytes(&self) -> (r: u64)
        ensures
            r == self.moved(),
    {
        self.read_bytes.saturating_add(self.write_bytes)
    }

    /// See [`Cause::nameable`].
    pub fn is_nameable(&self) -> (r: bool)
        ensures
            r == self.nameable(),
    {
        !same_text(self.cgroup.as_str(), cgroup::ROOT)
    }

    /// Classify from evidence.
    pub fn classify(bytes: u64, pressure_pct: Double) -> (r: Role)
        ensures
            r == role_of(bytes, pressure_pct),
    {
        let enough: bool = bytes >= MIN_CAUSE_BYTES;
        let limit: Double = Double::from_u64(CAUSE_MAX_PRESSURE_PCT);
        if enough && pressure_pct.less(&limit) {
            Role::Cause
        } else if !enough && limit.less_or_equal(&pressure_pct) {
            Role::Victim
        } else {
            Role::Active
        }
    }
}

/// The result of one observation window.
#[derive(Debug)]
pub struct Report {
    /// Measured wall-clock length of the window, not the requested length.
    pub window_usec: u64,
    /// Responsible units, worst first, capped at [`MAX_STALLS`].
    pub stalls: Vec<Stall>,
    /// Cgroups that moved bytes during the window, biggest first.
    ///
    /// Separate from `stalls` because the culprit is usually not stalled at
    /// all — that is the entire reason a pressure-only report misleads.
    pub causes: Vec<Cause>,
    /// System conditions that explain stalls the pressure numbers cannot.
    pub warnings: Vec<Warning>,
}

impl Default for Report {
    fn default() -> (r: Report)
        ensures
            r.window_usec == 0,
            r.stalls@ == Seq::<Stall>::empty(),
            r.causes@ == Seq::<Cause>::empty(),
            r.warnings@ == Seq::<Warning>::empty(),
    {
        Report {
            window_usec: 0,
            stalls: Vec::new(),
            causes: Vec::new(),
            warnings: Vec::new(),
        }
    }
}

/// Put together what a window found.
pub fn observe(
    stalls: Vec<Stall>,
    causes: Vec<Cause>,
    window_usec: u64,
    warnings: Vec<Warning>,
) -> (r: Report)
    ensures
        r == (Report { window_usec, stalls, causes, warnings }),
{
    Report { window_usec, stalls, causes, warnings }
}

/// Is PSI available at all, given whether `/proc/pressure` is there?
///
/// Callers should check this before reporting "no stalls", which would
/// otherwise be indistinguishable from "cannot see stalls".
pub fn psi_available(proc_pressure_exists: bool) -> (r: bool)
    ensures
        r == proc_pressure_exists,
{
    proc_pressure_exists
}

// ── strings in JSON ────────────────────────────────────────────────────

/// A character inside a JSON string.
pub open spec fn json_char(c: char) -> Seq<char> {
    if c == '"' {
        seq!['\\', '"']
    } else if c == '\\' {
        seq!['\\', '\\']
    } else if c == '\n' {
        seq!['\\', 'n']
    } else if c == '\r' {
        seq!['\\', 'r']
    } else if c == '\t' {
        seq!['\\', 't']
    } else if (c as u32) < 0x20 {
        by_number(c)
    } else {
        seq![c]
    }
}

/// A control character by its number.
pub open spec fn by_number(c: char) -> Seq<char> {
    seq!['\\', 'u', '0', '0', hex_char(c as nat / 16), hex_char(c as nat % 16)]
}

/// A hexadecimal digit.
pub open spec fn hex_char(d: nat) -> char {
    if d < 10 {
        (d + 48) as char
    } else {
        (d + 87) as char
    }
}

/// The characters of a JSON string, escaped.
pub open spec fn json_chars(s: Seq<char>) -> Seq<char>
    decreases s.len(),
{
    if s.len() == 0 {
        seq![]
    } else {
        json_chars(s.drop_last()) + json_char(s.last())
    }
}

/// A text as a JSON string.
pub open spec fn json_text(s: Seq<char>) -> Seq<char> {
    seq!['"'] + json_chars(s) + seq!['"']
}

/// See [`by_number`].
pub fn push_by_number(out: &mut String, c: char)
    requires
        (c as u32) < 0x20,
    ensures
        final(out)@ == old(out)@ + by_number(c),
{
    let ghost o = out@;
    let code: u32 = c as u32;
    let high: u8 = (code / 16) as u8;
    let low: u8 = (code % 16) as u8;
    out.push('\\');
    out.push('u');
    out.push('0');
    out.push('0');
    out.push((high + 48) as char);
    out.push(
        if low < 10 {
            (low + 48) as char
        } else {
            (low + 87) as char
        },
    );
    assert(out@ =~= o + by_number(c));
}

fn push_json_char(out: &mut String, c: char)
    ensures
        final(out)@ == old(out)@ + json_char(c),
{
    let ghost o = out@;
    if c == '"' {
        out.push('\\');
        out.push('"');
    } else if c == '\\' {
        out.push('\\');
        out.push('\\');
    } else if c == '\n' {
        out.push('\\');
        out.push('n');
    } else if c == '\r' {
        out.push('\\');
        out.push('r');
    } else if c == '\t' {
        out.push('\\');
        out.push('t');
    } else if (c as u32) < 0x20 {
        push_by_number(out, c);
    } else {
        out.push(c);
    }
    assert(out@ =~= o + json_char(c));
}

/// Minimal RFC 8259 string escaping. Cgroup paths can legitimately contain
/// backslashes (systemd's `\x2d` encoding), so this is not theoretical.
pub fn json_str(s: &str) -> (r: String)
    ensures
        r@ == json_text(s@),
{
    let chars: Vec<char> = to_chars(s);
    let mut out: String = String::new();
    out.push('"');
    let mut i: usize = 0;
    assert(out@ =~= seq!['"'] + json_chars(chars@.take(0)));
    while i < chars.len()
        invariant
            i <= chars@.len(),
            out@ == seq!['"'] + json_chars(chars@.take(i as int)),
        decreases chars@.len() - i,
    {
        push_json_char(&mut out, chars[i]);
        proof {
            let t = chars@.take(i + 1);
            assert(t.drop_last() =~= chars@.take(i as int));
            assert(out@ =~= seq!['"'] + json_chars(t));
        }
        i += 1;
    }
    assert(chars@.take(i as int) =~= s@);
    out.push('"');
    assert(out@ =~= json_text(s@));
    out
}

// ── byte counts ────────────────────────────────────────────────────────

/// A byte count the way a person says it out loud.
pub open spec fn bytes_text(bytes: nat) -> Seq<char> {
    let b = whole(bytes as int);
    if at_most(whole(1_073_741_824), b) {
        fixed(quotient(b, whole(1_073_741_824)), 1) + " GiB"@
    } else if at_most(whole(1_048_576), b) {
        fixed(quotient(b, whole(1_048_576)), 0) + " MiB"@
    } else if at_most(whole(1024), b) {
        fixed(quotient(b, whole(1024)), 0) + " KiB"@
    } else {
        decimal(bytes) + " B"@
    }
}

/// Render a byte count the way a person says it out loud.
pub fn bytes_phrase(bytes: u64) -> (r: String)
    ensures
        r@ == bytes_text(bytes as nat),
{
    let b: Double = Double::from_u64(bytes);
    if b.at_least(1_073_741_824) {
        let mut s: String = b.over(&Double::from_u64(1_073_741_824)).to_fixed(1);
        s.push_str(" GiB");
        s
    } else if b.at_least(1_048_576) {
        let mut s: String = b.over(&Double::from_u64(1_048_576)).to_fixed(0);
        s.push_str(" MiB");
        s
    } else if b.at_least(1024) {
        let mut s: String = b.over(&Double::from_u64(1024)).to_fixed(0);
        s.push_str(" KiB");
        s
    } else {
        let mut s: String = decimal_text(bytes);
        s.push_str(" B");
        s
    }
}

/// `true` or `false`.
pub open spec fn flag_text(b: bool) -> Seq<char> {
    if b {
        "true"@
    } else {
        "false"@
    }
}

pub fn flag(b: bool) -> (r: &'static str)
    ensures
        r@ == flag_text(b),
{
    if b {
        "true"
    } else {
        "false"
    }
}

// ── JSON on many lines ─────────────────────────────────────────────────

/// A stall in a JSON report.
pub open spec fn stall_line(s: Stall) -> Seq<char> {
    "    {\"unit\": "@ + json_text(s.unit@) + ", \"cgroup\": "@ + json_text(s.cgroup@)
        + ", \"resource\": \""@ + s.resource.name() + "\", \"type\": \""@ + s.kind.name()
        + "\", \"delta_usec\": "@ + decimal(s.delta_usec as nat) + ", \"pressure_pct\": "@
        + fixed(s.pressure_pct, 2) + ", \"peak_pct\": "@ + fixed(s.peak_pct, 2) + "}"@
}

/// A cause in a JSON report.
pub open spec fn cause_line(c: Cause) -> Seq<char> {
    "    {\"unit\": "@ + json_text(c.unit@) + ", \"cgroup\": "@ + json_text(c.cgroup@)
        + ", \"read_bytes\": "@ + decimal(c.read_bytes as nat) + ", \"write_bytes\": "@
        + decimal(c.write_bytes as nat) + ", \"discard_bytes\": "@ + decimal(
        c.discard_bytes as nat,
    ) + ", \"pressure_pct\": "@ + fixed(c.pressure_pct, 2) + ", \"role\": \""@ + c.role.name()
        + "\"}"@
}

/// A warning in a JSON report.
pub open spec fn warning_line(w: Warning) -> Seq<char> {
    "    {\"source\": "@ + json_text(w.source@) + ", \"severity\": \""@ + w.severity.name()
        + "\", \"transient\": "@ + flag_text(w.transient) + ", \"message\": "@ + json_text(
        w.message@,
    ) + "}"@
}

/// Lines with a comma behind each but the last, the first `k` of them.
pub open spec fn listed(lines: Seq<Seq<char>>, k: nat) -> Seq<char>
    decreases k,
{
    if k == 0 {
        seq![]
    } else {
        let i = (k - 1) as nat;
        listed(lines, i) + lines[i as int] + (if k == lines.len() {
            "\n"@
        } else {
            ",\n"@
        })
    }
}

pub open spec fn stall_lines(s: Seq<Stall>) -> Seq<Seq<char>> {
    Seq::new(s.len(), |i: int| stall_line(s[i]))
}

pub open spec fn cause_lines(c: Seq<Cause>) -> Seq<Seq<char>> {
    Seq::new(c.len(), |i: int| cause_line(c[i]))
}

pub open spec fn warning_lines(w: Seq<Warning>) -> Seq<Seq<char>> {
    Seq::new(w.len(), |i: int| warning_line(w[i]))
}

fn write_stall_line(s: &Stall) -> (r: String)
    ensures
        r@ == stall_line(*s),
{
    let mut o: String = copy_text("    {\"unit\": ");
    o.push_str(json_str(s.unit.as_str()).as_str());
    o.push_str(", \"cgroup\": ");
    o.push_str(json_str(s.cgroup.as_str()).as_str());
    o.push_str(", \"resource\": \"");
    o.push_str(s.resource.as_str());
    o.push_str("\", \"type\": \"");
    o.push_str(s.kind.as_str());
    o.push_str("\", \"delta_usec\": ");
    o.push_str(decimal_text(s.delta_usec).as_str());
    o.push_str(", \"pressure_pct\": ");
    o.push_str(s.pressure_pct.to_fixed(2).as_str());
    o.push_str(", \"peak_pct\": ");
    o.push_str(s.peak_pct.to_fixed(2).as_str());
    o.push_str("}");
    o
}

fn write_cause_line(c: &Cause) -> (r: String)
    ensures
        r@ == cause_line(*c),
{
    let mut o: String = copy_text("    {\"unit\": ");
    o.push_str(json_str(c.unit.as_str()).as_str());
    o.push_str(", \"cgroup\": ");
    o.push_str(json_str(c.cgroup.as_str()).as_str());
    o.push_str(", \"read_bytes\": ");
    o.push_str(decimal_text(c.read_bytes).as_str());
    o.push_str(", \"write_bytes\": ");
    o.push_str(decimal_text(c.write_bytes).as_str());
    o.push_str(", \"discard_bytes\": ");
    o.push_str(decimal_text(c.discard_bytes).as_str());
    o.push_str(", \"pressure_pct\": ");
    o.push_str(c.pressure_pct.to_fixed(2).as_str());
    o.push_str(", \"role\": \"");
    o.push_str(c.role.as_str());
    o.push_str("\"}");
    o
}

fn write_warning_line(w: &Warning) -> (r: String)
    ensures
        r@ == warning_line(*w),
{
    let mut o: String = copy_text("    {\"source\": ");
    o.push_str(json_str(w.source.as_str()).as_str());
    o.push_str(", \"severity\": \"");
    o.push_str(w.severity.as_str());
    o.push_str("\", \"transient\": ");
    o.push_str(flag(w.transient));
    o.push_str(", \"message\": ");
    o.push_str(json_str(w.message.as_str()).as_str());
    o.push_str("}");
    o
}

/// Write lines with a comma behind each but the last.
fn write_list(lines: &Vec<String>) -> (r: String)
    ensures
        r@ == listed(texts(lines@), lines@.len()),
{
    let mut out: String = String::new();
    let mut i: usize = 0;
    while i < lines.len()
        invariant
            i <= lines@.len(),
            out@ == listed(texts(lines@), i as nat),
        decreases lines@.len() - i,
    {
        out.push_str(lines[i].as_str());
        if i + 1 == lines.len() {
            out.push_str("\n");
        } else {
            out.push_str(",\n");
        }
        assert(texts(lines@)[i as int] == lines@[i as int]@);
        i += 1;
    }
    out
}

// ── JSON on one line ───────────────────────────────────────────────────

/// A stall in a one-line report.
pub open spec fn stall_json(s: Stall) -> Seq<char> {
    "{\"unit\":"@ + json_text(s.unit@) + ",\"cgroup\":"@ + json_text(s.cgroup@)
        + ",\"resource\":\""@ + s.resource.name() + "\",\"type\":\""@ + s.kind.name()
        + "\",\"delta_usec\":"@ + decimal(s.delta_usec as nat) + ",\"pressure_pct\":"@ + fixed(
        s.pressure_pct,
        2,
    ) + ",\"peak_pct\":"@ + fixed(s.peak_pct, 2) + "}"@
}

/// A cause in a one-line report.
pub open spec fn cause_json(c: Cause) -> Seq<char> {
    "{\"unit\":"@ + json_text(c.unit@) + ",\"cgroup\":"@ + json_text(c.cgroup@)
        + ",\"read_bytes\":"@ + decimal(c.read_bytes as nat) + ",\"write_bytes\":"@ + decimal(
        c.write_bytes as nat,
    ) + ",\"discard_bytes\":"@ + decimal(c.discard_bytes as nat) + ",\"pressure_pct\":"@
        + fixed(c.pressure_pct, 2) + ",\"role\":\""@ + c.role.name() + "\"}"@
}

/// A warning in a one-line report.
pub open spec fn warning_json(w: Warning) -> Seq<char> {
    "{\"source\":"@ + json_text(w.source@) + ",\"severity\":\""@ + w.severity.name()
        + "\",\"transient\":"@ + flag_text(w.transient) + ",\"message\":"@ + json_text(w.message@)
        + "}"@
}

pub open spec fn stall_jsons(s: Seq<Stall>) -> Seq<Seq<char>> {
    Seq::new(s.len(), |i: int| stall_json(s[i]))
}

pub open spec fn cause_jsons(c: Seq<Cause>) -> Seq<Seq<char>> {
    Seq::new(c.len(), |i: int| cause_json(c[i]))
}

pub open spec fn warning_jsons(w: Seq<Warning>) -> Seq<Seq<char>> {
    Seq::new(w.len(), |i: int| warning_json(w[i]))
}

pub fn write_stall(s: &Stall) -> (r: String)
    ensures
        r@ == stall_json(*s),
{
    let mut o: String = copy_text("{\"unit\":");
    o.push_str(json_str(s.unit.as_str()).as_str());
    o.push_str(",\"cgroup\":");
    o.push_str(json_str(s.cgroup.as_str()).as_str());
    o.push_str(",\"resource\":\"");
    o.push_str(s.resource.as_str());
    o.push_str("\",\"type\":\"");
    o.push_str(s.kind.as_str());
    o.push_str("\",\"delta_usec\":");
    o.push_str(decimal_text(s.delta_usec).as_str());
    o.push_str(",\"pressure_pct\":");
    o.push_str(s.pressure_pct.to_fixed(2).as_str());
    o.push_str(",\"peak_pct\":");
    o.push_str(s.peak_pct.to_fixed(2).as_str());
    o.push_str("}");
    o
}

fn write_cause(c: &Cause) -> (r: String)
    ensures
        r@ == cause_json(*c),
{
    let mut o: String = copy_text("{\"unit\":");
    o.push_str(json_str(c.unit.as_str()).as_str());
    o.push_str(",\"cgroup\":");
    o.push_str(json_str(c.cgroup.as_str()).as_str());
    o.push_str(",\"read_bytes\":");
    o.push_str(decimal_text(c.read_bytes).as_str());
    o.push_str(",\"write_bytes\":");
    o.push_str(decimal_text(c.write_bytes).as_str());
    o.push_str(",\"discard_bytes\":");
    o.push_str(decimal_text(c.discard_bytes).as_str());
    o.push_str(",\"pressure_pct\":");
    o.push_str(c.pressure_pct.to_fixed(2).as_str());
    o.push_str(",\"role\":\"");
    o.push_str(c.role.as_str());
    o.push_str("\"}");
    o
}

fn write_warning(w: &Warning) -> (r: String)
    ensures
        r@ == warning_json(*w),
{
    let mut o: String = copy_text("{\"source\":");
    o.push_str(json_str(w.source.as_str()).as_str());
    o.push_str(",\"severity\":\"");
    o.push_str(w.severity.as_str());
    o.push_str("\",\"transient\":");
    o.push_str(flag(w.transient));
    o.push_str(",\"message\":");
    o.push_str(json_str(w.message.as_str()).as_str());
    o.push_str("}");
    o
}

/// The members of a one-line report, without the braces around them.
pub open spec fn members_json(
    window_usec: u64,
    stalls: Seq<Stall>,
    causes: Seq<Cause>,
    warnings: Seq<Warning>,
) -> Seq<char> {
    "\"window_usec\":"@ + decimal(window_usec as nat) + ",\"stalls\":["@ + join(
        stall_jsons(stalls),
        ","@,
    ) + "],\"causes\":["@ + join(cause_jsons(causes), ","@) + "],\"warnings\":["@ + join(
        warning_jsons(warnings),
        ","@,
    ) + "]"@
}

/// See [`members_json`].
pub fn write_members(
    window_usec: u64,
    stalls: &Vec<Stall>,
    causes: &Vec<Cause>,
    warnings: &Vec<Warning>,
) -> (r: String)
    ensures
        r@ == members_json(window_usec, stalls@, causes@, warnings@),
{
    let mut stall_parts: Vec<String> = Vec::new();
    let mut i: usize = 0;
    while i < stalls.len()
        invariant
            i <= stalls@.len(),
            texts(stall_parts@) == stall_jsons(stalls@).take(i as int),
        decreases stalls@.len() - i,
    {
        push_text(&mut stall_parts, write_stall(&stalls[i]));
        assert(stall_jsons(stalls@).take(i + 1) =~= stall_jsons(stalls@).take(i as int).push(
            stall_jsons(stalls@)[i as int],
        ));
        i += 1;
    }
    assert(texts(stall_parts@) =~= stall_jsons(stalls@));
    let mut cause_parts: Vec<String> = Vec::new();
    let mut j: usize = 0;
    while j < causes.len()
        invariant
            j <= causes@.len(),
            texts(cause_parts@) == cause_jsons(causes@).take(j as int),
        decreases causes@.len() - j,
    {
        push_text(&mut cause_parts, write_cause(&causes[j]));
        assert(cause_jsons(causes@).take(j + 1) =~= cause_jsons(causes@).take(j as int).push(
            cause_jsons(causes@)[j as int],
        ));
        j += 1;
    }
    assert(texts(cause_parts@) =~= cause_jsons(causes@));
    let mut warning_parts: Vec<String> = Vec::new();
    let mut k: usize = 0;
    while k < warnings.len()
        invariant
            k <= warnings@.len(),
            texts(warning_parts@) == warning_jsons(warnings@).take(k as int),
        decreases warnings@.len() - k,
    {
        push_text(&mut warning_parts, write_warning(&warnings[k]));
        assert(warning_jsons(warnings@).take(k + 1) =~= warning_jsons(warnings@).take(k as int).push(
            warning_jsons(warnings@)[k as int],
        ));
        k += 1;
    }
    assert(texts(warning_parts@) =~= warning_jsons(warnings@));
    let mut s: String = copy_text("\"window_usec\":");
    s.push_str(decimal_text(window_usec).as_str());
    s.push_str(",\"stalls\":[");
    s.push_str(joined(&stall_parts, ",").as_str());
    s.push_str("],\"causes\":[");
    s.push_str(joined(&cause_parts, ",").as_str());
    s.push_str("],\"warnings\":[");
    s.push_str(joined(&warning_parts, ",").as_str());
    s.push_str("]");
    s
}

// ── text ───────────────────────────────────────────────────────────────

/// Microseconds in seconds.
pub open spec fn seconds(usec: u64) -> Double {
    quotient(whole(usec as int), whole(1_000_000))
}

/// Microseconds in milliseconds.
pub open spec fn milliseconds(usec: u64) -> Double {
    quotient(whole(usec as int), whole(1000))
}

pub fn to_seconds(usec: u64) -> (r: Double)
    ensures
        r == seconds(usec),
{
    Double::from_u64(usec).over(&Double::from_u64(1_000_000))
}

pub fn to_milliseconds(usec: u64) -> (r: Double)
    ensures
        r == milliseconds(usec),
{
    Double::from_u64(usec).over(&Double::from_u64(1000))
}

/// The worst tick, shown where it differs meaningfully from the average, which
/// is on aggregated history.
pub open spec fn peak_text(s: Stall) -> Seq<char> {
    if below(quotient(whole(1), whole(2)), difference(s.peak_pct, s.pressure_pct)) {
        "   (worst tick "@ + fixed(s.peak_pct, 0) + "%)"@
    } else {
        ""@
    }
}

/// A stall in a report for a terminal.
pub open spec fn stall_text(s: Stall) -> Seq<char> {
    "  "@ + pad_left(fixed(s.pressure_pct, 1), 6) + "%  "@ + pad_right(s.resource.name(), 7)
        + " "@ + s.unit@ + "  — frozen "@ + fixed(milliseconds(s.delta_usec), 0)
        + "ms waiting on "@ + s.resource.name() + peak_text(s) + "\n"@
}

pub open spec fn stall_texts(s: Seq<Stall>) -> Seq<Seq<char>> {
    Seq::new(s.len(), |i: int| stall_text(s[i]))
}

/// Who stalled.
pub open spec fn stalls_part(window_usec: u64, stalls: Seq<Stall>) -> Seq<char> {
    let secs = fixed(seconds(window_usec), 1);
    if stalls.len() == 0 {
        "No significant stalls in the last "@ + secs + "s. System is responsive.\n"@
    } else {
        "Over the last "@ + secs + "s, these units stalled the system:\n\n"@ + join(
            stall_texts(stalls),
            ""@,
        ) + "\n  worst cgroup: "@ + stalls[0].cgroup@ + "\n"@
    }
}

/// The first cause that can be named.
pub open spec fn first_nameable(causes: Seq<Cause>) -> Option<Cause>
    decreases causes.len(),
{
    if causes.len() == 0 {
        None
    } else if causes[0].nameable() {
        Some(causes[0])
    } else {
        first_nameable(causes.drop_first())
    }
}

/// The first cause that cannot be named.
pub open spec fn first_root(causes: Seq<Cause>) -> Option<Cause>
    decreases causes.len(),
{
    if causes.len() == 0 {
        None
    } else if !causes[0].nameable() {
        Some(causes[0])
    } else {
        first_root(causes.drop_first())
    }
}

/// Other causes that can be named, as they are listed.
pub open spec fn other_movers(causes: Seq<Cause>, top: Seq<char>) -> Seq<Seq<char>>
    decreases causes.len(),
{
    if causes.len() == 0 {
        seq![]
    } else {
        let rest = other_movers(causes.drop_last(), top);
        let c = causes.last();
        if c.cgroup@ != top && c.nameable() && rest.len() < 2 {
            rest.push(c.unit@ + " ("@ + bytes_text(c.moved() as nat) + ")"@)
        } else {
            rest
        }
    }
}

/// How a mover fared itself.
pub open spec fn qualifier(c: Cause) -> Seq<char> {
    match c.role {
        Role::Cause => "and was barely blocked itself ("@ + fixed(c.pressure_pct, 0) + "%)"@,
        Role::Active => "and was contended too ("@ + fixed(c.pressure_pct, 0)
            + "%), so it is competing rather than simply winning"@,
        Role::Victim => "but was mostly blocked, so it is likely a casualty too"@,
    }
}

/// Twice a byte count, as far as it can be held.
pub open spec fn doubled(n: u64) -> nat {
    if n * 2 <= u64::MAX {
        (n * 2) as nat
    } else {
        u64::MAX as nat
    }
}

/// What is said where the root moved far more than the unit that is named.
pub open spec fn root_part(causes: Seq<Cause>, top: Cause) -> Seq<char> {
    match first_root(causes) {
        Some(root) => if root.moved() > doubled(top.moved()) {
            "  system-wide total was "@ + bytes_text(root.moved() as nat)
                + ", so most of this is kernel-side or in\n                       cgroups with no io.stat — not attributable to a unit.\n"@
        } else {
            ""@
        },
        None => ""@,
    }
}

/// Who was doing the work.
///
/// Ranked on bytes, not on role. A process saturating a device is itself
/// blocked once the device is saturated, so holding the headline back for the
/// unblocked would hide the biggest writer exactly when it matters most.
pub open spec fn causes_part(causes: Seq<Cause>) -> Seq<char> {
    match first_nameable(causes) {
        None => ""@,
        Some(top) => {
            let others = other_movers(causes, top.cgroup@);
            "\n  most of the IO: "@ + top.unit@ + " moved "@ + bytes_text(top.moved() as nat) + " "@
                + qualifier(top) + "\n"@ + (if others.len() == 0 {
                ""@
            } else {
                "  also moving data: "@ + join(others, ", "@) + "\n"@
            }) + root_part(causes, top)
        },
    }
}

/// A warning in a report for a terminal.
pub open spec fn warning_text(w: Warning) -> Seq<char> {
    "\n  "@ + (match w.severity {
        Severity::Critical => "!!"@,
        Severity::Warn => " !"@,
        Severity::Note => " \u{b7}"@,
    }) + " "@ + w.source@ + (if w.transient {
        " [transient]"@
    } else {
        ""@
    }) + ": "@ + w.message@ + "\n"@
}

pub open spec fn warning_texts(w: Seq<Warning>) -> Seq<Seq<char>> {
    Seq::new(w.len(), |i: int| warning_text(w[i]))
}

fn write_stall_text(s: &Stall) -> (r: String)
    ensures
        r@ == stall_text(*s),
{
    let half: Double = Double::from_u64(1).over(&Double::from_u64(2));
    let mut peak: String = copy_text("");
    if half.less(&s.peak_pct.minus(&s.pressure_pct)) {
        peak = copy_text("   (worst tick ");
        peak.push_str(s.peak_pct.to_fixed(0).as_str());
        peak.push_str("%)");
    }
    let mut o: String = copy_text("  ");
    push_padded_left(&mut o, s.pressure_pct.to_fixed(1).as_str(), 6);
    o.push_str("%  ");
    push_padded_right(&mut o, s.resource.as_str(), 7);
    o.push_str(" ");
    o.push_str(s.unit.as_str());
    o.push_str("  — frozen ");
    o.push_str(to_milliseconds(s.delta_usec).to_fixed(0).as_str());
    o.push_str("ms waiting on ");
    o.push_str(s.resource.as_str());
    o.push_str(peak.as_str());
    o.push_str("\n");
    o
}

fn write_stalls_part(window_usec: u64, stalls: &Vec<Stall>) -> (r: String)
    ensures
        r@ == stalls_part(window_usec, stalls@),
{
    let secs: String = to_seconds(window_usec).to_fixed(1);
    if stalls.len() == 0 {
        let mut o: String = copy_text("No significant stalls in the last ");
        o.push_str(secs.as_str());
        o.push_str("s. System is responsive.\n");
        return o;
    }
    let mut parts: Vec<String> = Vec::new();
    let mut i: usize = 0;
    while i < stalls.len()
        invariant
            i <= stalls@.len(),
            texts(parts@) == stall_texts(stalls@).take(i as int),
        decreases stalls@.len() - i,
    {
        push_text(&mut parts, write_stall_text(&stalls[i]));
        assert(stall_texts(stalls@).take(i + 1) =~= stall_texts(stalls@).take(i as int).push(
            stall_texts(stalls@)[i as int],
        ));
        i += 1;
    }
    assert(texts(parts@) =~= stall_texts(stalls@));
    let mut o: String = copy_text("Over the last ");
    o.push_str(secs.as_str());
    o.push_str("s, these units stalled the system:\n\n");
    o.push_str(joined(&parts, "").as_str());
    o.push_str("\n  worst cgroup: ");
    o.push_str(stalls[0].cgroup.as_str());
    o.push_str("\n");
    o
}

/// Where the first cause stands that can, or cannot, be named.
fn find_cause(causes: &Vec<Cause>, nameable: bool) -> (r: Option<usize>)
    ensures
        ({
            let want = if nameable {
                first_nameable(causes@)
            } else {
                first_root(causes@)
            };
            &&& r is Some == want is Some
            &&& r matches Some(i) ==> i < causes@.len() && causes@[i as int] == want->0
        }),
{
    let mut i: usize = 0;
    assert(causes@.skip(0) =~= causes@);
    while i < causes.len()
        invariant
            i <= causes@.len(),
            nameable ==> first_nameable(causes@.skip(i as int)) == first_nameable(causes@),
            !nameable ==> first_root(causes@.skip(i as int)) == first_root(causes@),
        decreases causes@.len() - i,
    {
        let ghost rest = causes@.skip(i as int);
        assert(rest[0] == causes@[i as int]);
        assert(rest.drop_first() =~= causes@.skip(i + 1));
        if causes[i].is_nameable() == nameable {
            return Some(i);
        }
        i += 1;
    }
    None
}

fn write_movers(causes: &Vec<Cause>, top: &str) -> (r: Vec<String>)
    ensures
        texts(r@) == other_movers(causes@, top@),
{
    let mut out: Vec<String> = Vec::new();
    let mut i: usize = 0;
    assert(causes@.take(0) =~= seq![]);
    assert(texts(out@) =~= seq![]);
    while i < causes.len()
        invariant
            i <= causes@.len(),
            texts(out@) == other_movers(causes@.take(i as int), top@),
        decreases causes@.len() - i,
    {
        let c: &Cause = &causes[i];
        let ghost before = out@;
        let ghost t = causes@.take(i + 1);
        assert(t.drop_last() =~= causes@.take(i as int));
        assert(texts(out@).len() == out@.len());
        if !same_text(c.cgroup.as_str(), top) && c.is_nameable() && out.len() < 2 {
            let mut o: String = copy_text(c.unit.as_str());
            o.push_str(" (");
            o.push_str(bytes_phrase(c.bytes()).as_str());
            o.push_str(")");
            let ghost shown = o@;
            out.push(o);
            assert(texts(out@) =~= texts(before).push(shown));
        }
        i += 1;
    }
    assert(causes@.take(i as int) =~= causes@);
    out
}

fn write_qualifier(c: &Cause) -> (r: String)
    ensures
        r@ == qualifier(*c),
{
    match c.role {
        Role::Cause => {
            let mut o: String = copy_text("and was barely blocked itself (");
            o.push_str(c.pressure_pct.to_fixed(0).as_str());
            o.push_str("%)");
            o
        },
        Role::Active => {
            let mut o: String = copy_text("and was contended too (");
            o.push_str(c.pressure_pct.to_fixed(0).as_str());
            o.push_str("%), so it is competing rather than simply winning");
            o
        },
        Role::Victim => copy_text("but was mostly blocked, so it is likely a casualty too"),
    }
}

fn write_root_part(causes: &Vec<Cause>, top: &Cause) -> (r: String)
    ensures
        r@ == root_part(causes@, *top),
{
    if let Some(i) = find_cause(causes, false) {
        let root: &Cause = &causes[i];
        let moved: u64 = top.bytes();
        let twice: u64 = if moved <= u64::MAX / 2 {
            moved * 2
        } else {
            u64::MAX
        };
        if root.bytes() > twice {
            let mut o: String = copy_text("  system-wide total was ");
            o.push_str(bytes_phrase(root.bytes()).as_str());
            o.push_str(
                ", so most of this is kernel-side or in\n                       cgroups with no io.stat — not attributable to a unit.\n",
            );
            return o;
        }
    }
    copy_text("")
}

fn write_causes_part(causes: &Vec<Cause>) -> (r: String)
    ensures
        r@ == causes_part(causes@),
{
    match find_cause(causes, true) {
        None => copy_text(""),
        Some(i) => {
            let top: &Cause = &causes[i];
            let others: Vec<String> = write_movers(causes, top.cgroup.as_str());
            let mut also: String = copy_text("");
            assert(texts(others@).len() == others@.len());
            if others.len() > 0 {
                also = copy_text("  also moving data: ");
                also.push_str(joined(&others, ", ").as_str());
                also.push_str("\n");
            }
            let mut o: String = copy_text("\n  most of the IO: ");
            o.push_str(top.unit.as_str());
            o.push_str(" moved ");
            o.push_str(bytes_phrase(top.bytes()).as_str());
            o.push_str(" ");
            o.push_str(write_qualifier(top).as_str());
            o.push_str("\n");
            o.push_str(also.as_str());
            o.push_str(write_root_part(causes, top).as_str());
            o
        },
    }
}

fn write_warning_text(w: &Warning) -> (r: String)
    ensures
        r@ == warning_text(*w),
{
    let mut o: String = copy_text("\n  ");
    o.push_str(
        match w.severity {
            Severity::Critical => "!!",
            Severity::Warn => " !",
            Severity::Note => " \u{b7}",
        },
    );
    o.push_str(" ");
    o.push_str(w.source.as_str());
    o.push_str(
        if w.transient {
            " [transient]"
        } else {
            ""
        },
    );
    o.push_str(": ");
    o.push_str(w.message.as_str());
    o.push_str("\n");
    o
}

impl Report {
    /// The report as JSON on many lines.
    pub open spec fn json(&self) -> Seq<char> {
        "{\n  \"window_usec\": "@ + decimal(self.window_usec as nat) + ",\n  \"stalls\": [\n"@
            + listed(stall_lines(self.stalls@), self.stalls@.len())
            + "  ],\n  \"causes\": [\n"@ + listed(cause_lines(self.causes@), self.causes@.len())
            + "  ],\n  \"warnings\": [\n"@ + listed(
            warning_lines(self.warnings@),
            self.warnings@.len(),
        ) + "  ]\n}"@
    }

    /// The report as JSON on one line.
    pub open spec fn json_compact(&self) -> Seq<char> {
        "{"@ + members_json(self.window_usec, self.stalls@, self.causes@, self.warnings@) + "}"@
    }

    /// The report for a terminal.
    pub open spec fn text(&self) -> Seq<char> {
        stalls_part(self.window_usec, self.stalls@) + causes_part(self.causes@) + join(
            warning_texts(self.warnings@),
            ""@,
        )
    }

    /// Serialise to JSON.
    pub fn to_json(&self) -> (r: String)
        ensures
            r@ == self.json(),
    {
        let mut stalls: Vec<String> = Vec::new();
        let mut i: usize = 0;
        while i < self.stalls.len()
            invariant
                i <= self.stalls@.len(),
                texts(stalls@) == stall_lines(self.stalls@).take(i as int),
            decreases self.stalls@.len() - i,
        {
            push_text(&mut stalls, write_stall_line(&self.stalls[i]));
            assert(stall_lines(self.stalls@).take(i + 1) =~= stall_lines(self.stalls@).take(i as int).push(
                stall_lines(self.stalls@)[i as int],
            ));
            i += 1;
        }
        assert(texts(stalls@) =~= stall_lines(self.stalls@));
        assert(texts(stalls@).len() == stalls@.len());
        let mut causes: Vec<String> = Vec::new();
        let mut j: usize = 0;
        while j < self.causes.len()
            invariant
                j <= self.causes@.len(),
                texts(causes@) == cause_lines(self.causes@).take(j as int),
            decreases self.causes@.len() - j,
        {
            push_text(&mut causes, write_cause_line(&self.causes[j]));
            assert(cause_lines(self.causes@).take(j + 1) =~= cause_lines(self.causes@).take(j as int).push(
                cause_lines(self.causes@)[j as int],
            ));
            j += 1;
        }
        assert(texts(causes@) =~= cause_lines(self.causes@));
        assert(texts(causes@).len() == causes@.len());
        let mut warnings: Vec<String> = Vec::new();
        let mut k: usize = 0;
        while k < self.warnings.len()
            invariant
                k <= self.warnings@.len(),
                texts(warnings@) == warning_lines(self.warnings@).take(k as int),
            decreases self.warnings@.len() - k,
        {
            push_text(&mut warnings, write_warning_line(&self.warnings[k]));
            assert(warning_lines(self.warnings@).take(k + 1) =~= warning_lines(self.warnings@).take(k as int).push(
                warning_lines(self.warnings@)[k as int],
            ));
            k += 1;
        }
        assert(texts(warnings@) =~= warning_lines(self.warnings@));
        assert(texts(warnings@).len() == warnings@.len());
        let mut s: String = copy_text("{\n  \"window_usec\": ");
        s.push_str(decimal_text(self.window_usec).as_str());
        s.push_str(",\n  \"stalls\": [\n");
        s.push_str(write_list(&stalls).as_str());
        s.push_str("  ],\n  \"causes\": [\n");
        s.push_str(write_list(&causes).as_str());
        s.push_str("  ],\n  \"warnings\": [\n");
        s.push_str(write_list(&warnings).as_str());
        s.push_str("  ]\n}");
        s
    }

    /// Single-line JSON, for protocols that frame one document per message.
    pub fn to_json_compact(&self) -> (r: String)
        ensures
            r@ == self.json_compact(),
    {
        let mut s: String = copy_text("{");
        s.push_str(
            write_members(self.window_usec, &self.stalls, &self.causes, &self.warnings).as_str(),
        );
        s.push_str("}");
        s
    }

    /// Render for a human reading a terminal.
    ///
    /// Lives in the library, not the CLI: the daemon renders this too, so a
    /// client with no JSON parser can still ask for readable output, and every
    /// frontend shows identical wording.
    pub fn to_text(&self) -> (r: String)
        ensures
            r@ == self.text(),
    {
        let mut parts: Vec<String> = Vec::new();
        let mut i: usize = 0;
        while i < self.warnings.len()
            invariant
                i <= self.warnings@.len(),
                texts(parts@) == warning_texts(self.warnings@).take(i as int),
            decreases self.warnings@.len() - i,
        {
            push_text(&mut parts, write_warning_text(&self.warnings[i]));
            assert(warning_texts(self.warnings@).take(i + 1) =~= warning_texts(self.warnings@).take(i as int).push(
                warning_texts(self.warnings@)[i as int],
            ));
            i += 1;
        }
        assert(texts(parts@) =~= warning_texts(self.warnings@));
        let mut o: String = write_stalls_part(self.window_usec, &self.stalls);
        o.push_str(write_causes_part(&self.causes).as_str());
        o.push_str(joined(&parts, "").as_str());
        o
    }
}

// ── what holds of every report ─────────────────────────────────────────

/// A cgroup that moved less than a mebibyte is never called a cause.
pub proof fn lemma_a_trickle_is_never_a_cause(bytes: u64, pressure_pct: Double)
    requires
        bytes < MIN_CAUSE_BYTES,
    ensures
        role_of(bytes, pressure_pct) != Role::Cause,
{
}

/// Nothing that was blocked half the time is called a cause, and nothing that
/// moved real bytes is called a victim.
pub proof fn lemma_ambiguous_is_active(bytes: u64, pressure_pct: Double)
    requires
        !pressure_pct.is_nan(),
    ensures
        role_of(bytes, pressure_pct) == Role::Cause ==> bytes >= MIN_CAUSE_BYTES && below(
            pressure_pct,
            whole(CAUSE_MAX_PRESSURE_PCT as int),
        ),
        role_of(bytes, pressure_pct) == Role::Victim ==> bytes < MIN_CAUSE_BYTES && !below(
            pressure_pct,
            whole(CAUSE_MAX_PRESSURE_PCT as int),
        ),
{
}

/// The unit in the headline is never the root cgroup, whatever it moved: it is
/// the first cause on the list that is not the root.
pub proof fn lemma_root_never_takes_the_headline(causes: Seq<Cause>)
    ensures
        first_nameable(causes) matches Some(top) ==> top.cgroup@ != cgroup::ROOT@
            && causes.contains(top),
        first_nameable(causes) is None ==> forall|i: int|
            0 <= i < causes.len() ==> (#[trigger] causes[i]).cgroup@ == cgroup::ROOT@,
    decreases causes.len(),
{
    if causes.len() > 0 {
        let rest = causes.drop_first();
        lemma_root_never_takes_the_headline(rest);
        if causes[0].nameable() {
            assert(causes.contains(causes[0]));
        } else {
            if first_nameable(rest) is Some {
                let i = choose|i: int| 0 <= i < rest.len() && rest[i] == first_nameable(rest)->0;
                assert(causes[i + 1] == rest[i]);
            }
            if first_nameable(causes) is None {
                assert forall|i: int| 0 <= i < causes.len() implies (#[trigger] causes[i]).cgroup@
                    == cgroup::ROOT@ by {
                    if i > 0 {
                        assert(causes[i] == rest[i - 1]);
                    }
                }
            }
        }
    }
}

} // verus!
