//! What the command line decides and prints.

use vstd::prelude::*;

use crate::appname::said;
use crate::daemon::{
    behind, has_flag, is_given, number_behind, number_or, read_behind, value_behind,
};
use crate::decimal::fixed;
use crate::filter::{
    Expr, Fault, Filter, Queryable, expression, fault_text, field_list, fields, holds, pairs,
};
use crate::float::{Double, at_most, quotient, whole};
use crate::incident::{Culprit, process_bytes, process_role};
use crate::pathology::Warning;
use crate::process::{ProcCulprit, sample_share};
use crate::report::{Report, Role, Stall};
use crate::text::{
    copy_text, decimal, pad_left, pad_right, parse_nat, push_padded_left, push_padded_right,
    push_u64, read_nat, repeat, same_text, texts, to_chars, trim,
};

verus! {

/// What to do.
#[derive(Debug)]
pub struct Options {
    pub help: bool,
    pub version: bool,
    pub fields: bool,
    pub json: bool,
    pub watch: bool,
    pub processes: bool,
    /// Answer from what was recorded.
    pub why: bool,
    /// Say what can and cannot be seen on this machine.
    pub doctor: bool,
    /// Say what every setting is, and which layer it came from.
    pub config: bool,
    /// How many incidents to show.
    pub count: usize,
    pub since: Option<u64>,
    pub window_ms: u64,
}

/// How many incidents are asked for.
pub open spec fn count_in(a: Seq<Seq<char>>) -> usize {
    match behind(a, "-n"@) {
        Some(s) => match parse_nat(s, 10, usize::MAX as nat) {
            Some(n) => n as usize,
            None => 1,
        },
        None => 1,
    }
}

impl Options {
    /// Read the arguments.
    pub fn read(args: &Vec<String>) -> (r: Options)
        ensures
            ({
                let a = texts(args@);
                &&& r.help == (is_given(a, "-h"@) || is_given(a, "--help"@))
                &&& r.version == (is_given(a, "-V"@) || is_given(a, "--version"@))
                &&& r.fields == is_given(a, "--fields"@)
                &&& r.json == is_given(a, "--json"@)
                &&& r.watch == is_given(a, "--watch"@)
                &&& r.processes == is_given(a, "--processes"@)
                &&& r.why == (a.len() > 0 && a[0] == "why"@)
                &&& r.doctor == (a.len() > 0 && a[0] == "doctor"@)
                &&& r.config == (a.len() > 0 && a[0] == "config"@)
                &&& r.count == count_in(a)
                &&& r.since == number_behind(a, "--since"@)
                &&& r.window_ms == number_or(a, "--window"@, 1000)
            }),
    {
        let count: usize = match value_behind(args, "-n") {
            Some(s) => match read_nat(&to_chars(s.as_str()), 10, usize::MAX as u64) {
                Some(n) => n as usize,
                None => 1,
            },
            None => 1,
        };
        let window_ms: u64 = match read_behind(args, "--window") {
            Some(n) => n,
            None => 1000,
        };
        let why: bool = args.len() > 0 && same_text(args[0].as_str(), "why");
        let doctor: bool = args.len() > 0 && same_text(args[0].as_str(), "doctor");
        let config: bool = args.len() > 0 && same_text(args[0].as_str(), "config");
        assert(texts(args@).len() == args@.len());
        Options {
            help: has_flag(args, "-h") || has_flag(args, "--help"),
            version: has_flag(args, "-V") || has_flag(args, "--version"),
            fields: has_flag(args, "--fields"),
            json: has_flag(args, "--json"),
            watch: has_flag(args, "--watch"),
            processes: has_flag(args, "--processes"),
            why,
            doctor,
            config,
            count,
            since: read_behind(args, "--since"),
            window_ms,
        }
    }
}

/// Does this flag stand before a value?
pub open spec fn takes_value(a: Seq<char>) -> bool {
    a == "--window"@ || a == "--since"@ || a == "--filter"@ || a == "-n"@
}

/// Is this a flag on its own?
pub open spec fn stands_alone(a: Seq<char>) -> bool {
    a == "-h"@ || a == "--help"@ || a == "-V"@ || a == "--version"@ || a == "--fields"@ || a
        == "--json"@ || a == "--watch"@ || a == "--processes"@ || a == "--explain"@
}

/// The first flag that is not known. Ignoring it would print a plausible answer
/// to a question nobody asked.
pub open spec fn first_unknown(a: Seq<Seq<char>>) -> Option<Seq<char>>
    decreases a.len(),
{
    if a.len() == 0 {
        None
    } else if takes_value(a[0]) {
        if a.len() == 1 {
            None
        } else {
            first_unknown(a.skip(2))
        }
    } else if stands_alone(a[0]) || a[0].len() == 0 || a[0][0] != '-' {
        first_unknown(a.skip(1))
    } else {
        Some(a[0])
    }
}

/// See [`first_unknown`].
pub fn unknown_flag(args: &Vec<String>) -> (r: Option<String>)
    ensures
        said(r) == first_unknown(texts(args@)),
{
    let ghost all = texts(args@);
    let mut i: usize = 0;
    assert(all.skip(0) =~= all);
    while i < args.len()
        invariant
            i <= args@.len(),
            all == texts(args@),
            first_unknown(all) == first_unknown(all.skip(i as int)),
        decreases args@.len() - i,
    {
        let a: &str = args[i].as_str();
        let ghost rest = all.skip(i as int);
        proof {
            assert(rest[0] == a@);
            assert(rest.skip(1) =~= all.skip(i + 1));
            if args@.len() - i > 1 {
                assert(rest.skip(2) =~= all.skip(i + 2));
            }
        }
        if same_text(a, "--window") || same_text(a, "--since") || same_text(a, "--filter")
            || same_text(a, "-n") {
            if args.len() - i == 1 {
                return None;
            }
            i += 2;
        } else {
            let known: bool = same_text(a, "-h") || same_text(a, "--help") || same_text(a, "-V")
                || same_text(a, "--version") || same_text(a, "--fields") || same_text(a, "--json")
                || same_text(a, "--watch") || same_text(a, "--processes") || same_text(
                a,
                "--explain",
            );
            let c: Vec<char> = to_chars(a);
            if !known && c.len() > 0 && c[0] == '-' {
                return Some(copy_text(a));
            }
            i += 1;
        }
    }
    None
}

/// What is printed for a flag that is not known.
pub fn unknown_complaint(flag: &str) -> (r: String)
    ensures
        r@ == "stallwatch: unknown option "@ + flag@
            + "\n\nRun `stallwatch --help` to see what it takes.\n"@,
{
    let mut m: String = copy_text("stallwatch: unknown option ");
    m.push_str(flag);
    m.push_str("\n\nRun `stallwatch --help` to see what it takes.\n");
    m
}

// ── filters ────────────────────────────────────────────────────────────

/// What became of the `--filter` argument.
#[derive(Debug)]
pub enum Wanted {
    Everything,
    Matching(Filter),
    /// What to print, and then give up.
    Wrong(String),
}

/// What is printed for an expression that is wrong: a mark stands below the
/// place.
pub open spec fn filter_complaint(expr: Seq<char>, f: Fault) -> Seq<char> {
    "stallwatch: bad filter: "@ + fault_text(f) + "\n  "@ + expr + "\n  "@ + repeat(' ', f.at as int)
        + "^\n\nRun `stallwatch --fields` to see what you can filter on.\n"@
}

/// Compile the filter, before doing any sampling: a typo should fail in
/// microseconds, not after a full window has elapsed.
pub fn wanted(args: &Vec<String>) -> (r: Wanted)
    ensures
        ({
            let a = texts(args@);
            if !is_given(a, "--filter"@) {
                r is Everything
            } else {
                match behind(a, "--filter"@) {
                    None => r matches Wanted::Wrong(m) && m@
                        == "stallwatch: --filter needs an expression\n"@,
                    Some(expr) => match expression(expr) {
                        Ok(e) => r matches Wanted::Matching(f) && f.expr() == e && f.text() == trim(
                            expr,
                        ),
                        Err(fault) => r matches Wanted::Wrong(m) && m@ == filter_complaint(
                            expr,
                            fault,
                        ),
                    },
                }
            }
        }),
{
    if !has_flag(args, "--filter") {
        return Wanted::Everything;
    }
    match value_behind(args, "--filter") {
        None => Wanted::Wrong(copy_text("stallwatch: --filter needs an expression\n")),
        Some(expr) => match Filter::parse(expr.as_str()) {
            Ok(f) => Wanted::Matching(f),
            Err(e) => {
                let mut m: String = copy_text("stallwatch: bad filter: ");
                m.push_str(e.to_text().as_str());
                m.push_str("\n  ");
                m.push_str(expr.as_str());
                m.push_str("\n  ");
                push_padded_right(&mut m, "", e.at);
                proof {
                    reveal_strlit("");
                    assert(pad_right(""@, e.at as int) =~= repeat(' ', e.at as int));
                }
                m.push_str("^\n\nRun `stallwatch --fields` to see what you can filter on.\n");
                Wanted::Wrong(m)
            },
        },
    }
}

/// The stalls that an expression holds of.
pub open spec fn matching_stalls(e: Expr, s: Seq<Stall>) -> Seq<Stall>
    decreases s.len(),
{
    if s.len() == 0 {
        seq![]
    } else if holds(e, s.last()) {
        matching_stalls(e, s.drop_last()).push(s.last())
    } else {
        matching_stalls(e, s.drop_last())
    }
}

/// Is a warning shown under a filter?
pub open spec fn shows_warning(e: Expr, w: Warning) -> bool {
    holds(e, w) || Queryable::text_field(&w, "warning.source"@) is None
}

/// The warnings that are shown under a filter.
pub open spec fn matching_warnings(e: Expr, w: Seq<Warning>) -> Seq<Warning>
    decreases w.len(),
{
    if w.len() == 0 {
        seq![]
    } else if shows_warning(e, w.last()) {
        matching_warnings(e, w.drop_last()).push(w.last())
    } else {
        matching_warnings(e, w.drop_last())
    }
}

/// Narrow a report to what a filter keeps.
///
/// After sampling, never before: the attribution has to see the whole tree to
/// decide who is responsible. Narrowing the input would change the answer
/// rather than narrowing the view of it.
pub fn narrow(report: &mut Report, f: &Filter)
    ensures
        final(report).stalls@ == matching_stalls(f.expr(), old(report).stalls@),
        final(report).warnings@ == matching_warnings(f.expr(), old(report).warnings@),
        final(report).causes == old(report).causes,
        final(report).window_usec == old(report).window_usec,
{
    let mut stalls: Vec<Stall> = Vec::new();
    let mut i: usize = 0;
    let ghost all = report.stalls@;
    assert(all.take(0) =~= seq![]);
    while i < report.stalls.len()
        invariant
            i <= report.stalls@.len(),
            all == report.stalls@,
            stalls@ == matching_stalls(f.expr(), all.take(i as int)),
        decreases report.stalls@.len() - i,
    {
        proof {
            assert(all.take(i + 1).drop_last() =~= all.take(i as int));
            assert(all.take(i + 1).last() == all[i as int]);
        }
        if f.matches(&report.stalls[i]) {
            stalls.push(report.stalls[i].copy());
        }
        i += 1;
    }
    assert(all.take(i as int) =~= all);
    let mut warnings: Vec<Warning> = Vec::new();
    let mut k: usize = 0;
    let ghost said = report.warnings@;
    assert(said.take(0) =~= seq![]);
    while k < report.warnings.len()
        invariant
            k <= report.warnings@.len(),
            said == report.warnings@,
            warnings@ == matching_warnings(f.expr(), said.take(k as int)),
        decreases report.warnings@.len() - k,
    {
        proof {
            assert(said.take(k + 1).drop_last() =~= said.take(k as int));
            assert(said.take(k + 1).last() == said[k as int]);
        }
        if f.matches(&report.warnings[k]) || Queryable::field_str(
            &report.warnings[k],
            "warning.source",
        ).is_none() {
            warnings.push(report.warnings[k].copy());
        }
        k += 1;
    }
    assert(said.take(k as int) =~= said);
    report.stalls = stalls;
    report.warnings = warnings;
}

/// One line per field, the first `n`.
pub open spec fn field_lines(f: Seq<(Seq<char>, Seq<char>)>, n: nat) -> Seq<char>
    decreases n,
{
    if n == 0 {
        seq![]
    } else {
        field_lines(f, (n - 1) as nat) + "  "@ + pad_right(f[n - 1].0, 20) + " "@ + f[n - 1].1
            + "\n"@
    }
}

/// The list of fields.
pub open spec fn fields_page() -> Seq<char> {
    "Fields available to --filter:\n\n"@ + field_lines(field_list(), field_list().len())
        + "\nOperators: == != > < >= <=  and  ~ (contains, | means or)\nCombine with: and  or  not  ( )\nNumbers take suffixes: 500ms  2s  100M  1GiB\n"@
}

/// See [`fields_page`].
pub fn fields_text() -> (r: String)
    ensures
        r@ == fields_page(),
{
    let all: Vec<(&'static str, &'static str)> = fields();
    let ghost list = field_list();
    assert(list.len() == all@.len());
    let mut body: String = String::new();
    let mut i: usize = 0;
    assert(body@ =~= seq![]);
    while i < all.len()
        invariant
            i <= all@.len(),
            list == pairs(all@),
            body@ == field_lines(list, i as nat),
        decreases all@.len() - i,
    {
        body.push_str("  ");
        push_padded_right(&mut body, all[i].0, 20);
        body.push_str(" ");
        body.push_str(all[i].1);
        body.push_str("\n");
        i += 1;
    }
    let mut o: String = copy_text("Fields available to --filter:\n\n");
    o.push_str(body.as_str());
    o.push_str(
        "\nOperators: == != > < >= <=  and  ~ (contains, | means or)\nCombine with: and  or  not  ( )\nNumbers take suffixes: 500ms  2s  100M  1GiB\n",
    );
    o
}

// ── the processes behind a stall ───────────────────────────────────────

/// How many cgroups are looked into.
pub const MAX_TARGETS: usize = 3;

/// Is this cgroup among the first `n` stalls?
pub open spec fn stalls_before(s: Seq<Stall>, n: int, cgroup: Seq<char>) -> bool {
    exists|k: int| 0 <= k < n && (#[trigger] s[k]).cgroup@ == cgroup
}

/// The places of the stalls to look into, among the first `n`: the first of
/// each cgroup, at most three.
pub open spec fn targets_among(s: Seq<Stall>, n: nat) -> Seq<usize>
    decreases n,
{
    if n == 0 {
        seq![]
    } else {
        let before = targets_among(s, (n - 1) as nat);
        if before.len() < MAX_TARGETS && !stalls_before(s, n - 1, s[n - 1].cgroup@) {
            before.push((n - 1) as usize)
        } else {
            before
        }
    }
}

fn seen_before(s: &Vec<Stall>, n: usize) -> (r: bool)
    requires
        n < s@.len(),
    ensures
        r == stalls_before(s@, n as int, s@[n as int].cgroup@),
{
    let mut i: usize = 0;
    while i < n
        invariant
            i <= n < s@.len(),
            forall|k: int| 0 <= k < i ==> (#[trigger] s@[k]).cgroup@ != s@[n as int].cgroup@,
        decreases n - i,
    {
        if same_text(s[i].cgroup.as_str(), s[n].cgroup.as_str()) {
            assert(s@[i as int].cgroup@ == s@[n as int].cgroup@);
            return true;
        }
        i += 1;
    }
    false
}

/// The places of the stalls to look into.
///
/// The top few cgroups, not just the worst one: PSI blames the cgroup whose
/// tasks are blocked, which is the victim, not the cause. Looking only at the
/// worst finds the casualty and misses the culprit.
pub fn targets(stalls: &Vec<Stall>) -> (r: Vec<usize>)
    ensures
        r@ == targets_among(stalls@, stalls@.len()),
        r@.len() <= MAX_TARGETS,
        forall|k: int| 0 <= k < r@.len() ==> #[trigger] r@[k] < stalls@.len(),
{
    let mut out: Vec<usize> = Vec::new();
    let mut i: usize = 0;
    while i < stalls.len()
        invariant
            i <= stalls@.len(),
            out@ == targets_among(stalls@, i as nat),
            out@.len() <= MAX_TARGETS,
            forall|k: int| 0 <= k < out@.len() ==> #[trigger] out@[k] < i,
        decreases stalls@.len() - i,
    {
        if out.len() < MAX_TARGETS && !seen_before(stalls, i) {
            out.push(i);
        }
        i += 1;
    }
    out
}

/// How long each of so many cgroups is looked into: the budget is split, so
/// that it costs roughly one extra window regardless of how many there are.
pub fn each_ms(window_ms: u64, targets: usize) -> (r: u64)
    requires
        targets > 0,
    ensures
        r == (if window_ms / targets as u64 >= 200 {
            window_ms / targets as u64
        } else {
            200
        }),
{
    let share: u64 = window_ms / targets as u64;
    if share >= 200 {
        share
    } else {
        200
    }
}

/// What a process is doing: high bytes and low blocking is causing the stall,
/// high blocking with low bytes is suffering it.
pub open spec fn doing(r: Role) -> Seq<char> {
    match r {
        Role::Cause => "causing"@,
        Role::Victim => "waiting"@,
        Role::Active => "active "@,
    }
}

pub open spec fn mebibytes(bytes: u64) -> Double {
    quotient(whole(bytes as int), whole(1_048_576))
}

/// The disk IO of a process, where it is a tenth of a mebibyte or more.
pub open spec fn io_part(bytes: u64) -> Seq<char> {
    if at_most(quotient(whole(1), whole(10)), mebibytes(bytes)) {
        "  ·  "@ + fixed(mebibytes(bytes), 0) + " MiB of disk IO"@
    } else {
        ""@
    }
}

/// The time a process was blocked, where it is known and not none.
pub open spec fn delay_part(ms: Option<u64>) -> Seq<char> {
    match ms {
        Some(ms) => if ms > 0 {
            "  ·  "@ + decimal(ms as nat) + "ms blocked"@
        } else {
            ""@
        },
        None => ""@,
    }
}

/// One process.
pub open spec fn process_line(c: ProcCulprit) -> Seq<char> {
    let pct = sample_share(c.blocked_samples, c.total_samples);
    "    "@ + doing(process_role(process_bytes(c), pct)) + "  "@ + pad_left(fixed(pct, 0), 3)
        + "% blocked  "@ + c.comm@ + " ["@ + decimal(c.pid as nat) + "]"@ + io_part(
        process_bytes(c),
    ) + delay_part(c.blkio_delay_ms) + "\n"@
}

/// The first `n` processes of one cgroup.
pub open spec fn process_lines(c: Seq<ProcCulprit>, n: nat) -> Seq<char>
    decreases n,
{
    if n == 0 {
        seq![]
    } else {
        process_lines(c, (n - 1) as nat) + process_line(c[n - 1])
    }
}

/// What was found inside one cgroup.
#[derive(Debug)]
pub struct Inside {
    pub unit: String,
    pub culprits: Vec<ProcCulprit>,
}

/// What is said of the first `n` cgroups; nothing of one in which nothing was
/// found.
pub open spec fn inside_text(v: Seq<Inside>, n: nat) -> Seq<char>
    decreases n,
{
    if n == 0 {
        seq![]
    } else {
        let i = v[n - 1];
        inside_text(v, (n - 1) as nat) + (if i.culprits@.len() == 0 {
            seq![]
        } else {
            "\n  inside "@ + i.unit@ + ":\n"@ + process_lines(i.culprits@, i.culprits@.len())
        })
    }
}

/// Was anything found?
pub open spec fn found_any(v: Seq<Inside>) -> bool {
    exists|k: int| 0 <= k < v.len() && (#[trigger] v[k]).culprits@.len() > 0
}

/// What is said of the processes behind a stall.
pub open spec fn drill_page(v: Seq<Inside>, delayacct: bool) -> Seq<char> {
    if v.len() == 0 {
        seq![]
    } else if !found_any(v) {
        "\n  no process caught blocking or doing disk IO in a follow-up window\n  (the stall may have ended, or the work is kernel-side — see any\n   transient warning above)\n"@
    } else {
        inside_text(v, v.len()) + (if delayacct {
            ""@
        } else {
            "    (exact blocking time needs delay accounting: sudo sysctl -w kernel.task_delayacct=1)\n"@
        })
    }
}

fn write_process(c: &ProcCulprit) -> (r: String)
    ensures
        r@ == process_line(*c),
{
    let bytes: u64 = c.read_bytes.saturating_add(c.write_bytes);
    let pct: Double = c.blocked_pct();
    let mb: Double = Double::from_u64(bytes).over(&Double::from_u64(1_048_576));
    let tenth: Double = Double::from_u64(1).over(&Double::from_u64(10));
    let mut io: String = copy_text("");
    if tenth.less_or_equal(&mb) {
        io = copy_text("  ·  ");
        io.push_str(mb.to_fixed(0).as_str());
        io.push_str(" MiB of disk IO");
    }
    let mut delay: String = copy_text("");
    match c.blkio_delay_ms {
        Some(ms) => {
            if ms > 0 {
                delay = copy_text("  ·  ");
                push_u64(&mut delay, ms);
                delay.push_str("ms blocked");
            }
        },
        None => {},
    }
    let mut o: String = copy_text("    ");
    o.push_str(
        match Culprit::role_from(bytes, pct) {
            Role::Cause => "causing",
            Role::Victim => "waiting",
            Role::Active => "active ",
        },
    );
    o.push_str("  ");
    push_padded_left(&mut o, pct.to_fixed(0).as_str(), 3);
    o.push_str("% blocked  ");
    o.push_str(c.comm.as_str());
    o.push_str(" [");
    push_u64(&mut o, c.pid as u64);
    o.push_str("]");
    o.push_str(io.as_str());
    o.push_str(delay.as_str());
    o.push_str("\n");
    o
}

fn write_processes(c: &Vec<ProcCulprit>) -> (r: String)
    ensures
        r@ == process_lines(c@, c@.len()),
{
    let mut o: String = String::new();
    let mut i: usize = 0;
    assert(o@ =~= seq![]);
    while i < c.len()
        invariant
            i <= c@.len(),
            o@ == process_lines(c@, i as nat),
        decreases c@.len() - i,
    {
        o.push_str(write_process(&c[i]).as_str());
        i += 1;
    }
    o
}

/// Second pass: name the processes behind the stall, from what was found inside
/// the cgroups that were looked into.
///
/// Blocking and block-layer bytes are both reported. A task throttled by
/// dirty-page writeback is counted as IO-stalled by PSI while it is never
/// caught blocked; byte counters catch what state sampling cannot.
pub fn drill_top(inside: &Vec<Inside>, delayacct: bool) -> (r: String)
    ensures
        r@ == drill_page(inside@, delayacct),
{
    let mut o: String = String::new();
    assert(o@ =~= seq![]);
    if inside.len() == 0 {
        return o;
    }
    let mut any: bool = false;
    let mut i: usize = 0;
    while i < inside.len()
        invariant
            i <= inside@.len(),
            o@ == inside_text(inside@, i as nat),
            any == exists|k: int| 0 <= k < i && (#[trigger] inside@[k]).culprits@.len() > 0,
        decreases inside@.len() - i,
    {
        let ghost before = o@;
        if inside[i].culprits.len() > 0 {
            assert(inside@[i as int].culprits@.len() > 0);
            any = true;
            let mut part: String = copy_text("\n  inside ");
            part.push_str(inside[i].unit.as_str());
            part.push_str(":\n");
            part.push_str(write_processes(&inside[i].culprits).as_str());
            o.push_str(part.as_str());
        } else {
            assert(before + Seq::<char>::empty() =~= before);
        }
        i += 1;
    }
    if !any {
        return copy_text(
            "\n  no process caught blocking or doing disk IO in a follow-up window\n  (the stall may have ended, or the work is kernel-side — see any\n   transient warning above)\n",
        );
    }
    o.push_str(
        if delayacct {
            ""
        } else {
            "    (exact blocking time needs delay accounting: sudo sysctl -w kernel.task_delayacct=1)\n"
        },
    );
    o
}

} // verus!
