//! Answering "what just happened to me" from what the daemon recorded.
//!
//! Live sampling structurally cannot answer this: a freeze is over by the time
//! anyone can open a terminal and type. The daemon catches the culprit while it
//! is still running, which is the only moment it exists to be caught.

use vstd::prelude::*;

use crate::filter::{Expr, Filter, holds};
use crate::float::{Double, signed};
use crate::incident::{Accused, Culprit, Incident, Record, accusations};
use crate::json::{
    Json, Value, document, lemma_values_of, number_f64, number_u64, value_of, values_of,
};
use crate::json;
use crate::pathology::{Finding, Severity, Warning, findings};
use crate::psi::{PsiKind, Resource};
use crate::ranking::{StallView, views};
use crate::report::{Cause, Role, Stall};
use crate::text::{
    copy_text, from_chars, lines, runs, same_text, split_lines, texts, to_chars, trim, trimmed,
};

verus! {

// ── fields of a logged line ────────────────────────────────────────────

/// What stands under a key of an object.
pub open spec fn under(v: Value, k: Seq<char>) -> Option<Value> {
    match v {
        Value::Obj(m) => if m.contains_key(k) {
            Some(m[k])
        } else {
            None
        },
        _ => None,
    }
}

/// The number under a key, zero where there is none.
pub open spec fn u64_under(v: Value, k: Seq<char>) -> u64 {
    match under(v, k) {
        Some(x) => match number_u64(x) {
            Some(n) => n,
            None => 0,
        },
        None => 0,
    }
}

/// The double under a key, zero where there is none.
pub open spec fn f64_under(v: Value, k: Seq<char>) -> Double {
    match under(v, k) {
        Some(x) => match number_f64(x) {
            Some(n) => n,
            None => signed(false, 0),
        },
        None => signed(false, 0),
    }
}

/// The text under a key, empty where there is none.
pub open spec fn text_under(v: Value, k: Seq<char>) -> Seq<char> {
    match under(v, k) {
        Some(Value::Str(s)) => s,
        _ => seq![],
    }
}

/// Whether `true` stands under a key.
pub open spec fn flag_under(v: Value, k: Seq<char>) -> bool {
    match under(v, k) {
        Some(Value::Bool(b)) => b,
        _ => false,
    }
}

/// The items under a key, none where there is no array.
pub open spec fn items_under(v: Value, k: Seq<char>) -> Seq<Value> {
    match under(v, k) {
        Some(Value::Arr(a)) => a,
        _ => seq![],
    }
}

fn read_number(o: &Json, k: &str) -> (r: u64)
    ensures
        r == u64_under(value_of(*o), k@),
{
    match o.get(k) {
        Some(x) => match x.as_u64() {
            Some(n) => n,
            None => 0,
        },
        None => 0,
    }
}

fn read_float(o: &Json, k: &str) -> (r: Double)
    ensures
        r == f64_under(value_of(*o), k@),
{
    match o.get(k) {
        Some(x) => match x.as_f64() {
            Some(n) => n,
            None => Double::zero(),
        },
        None => Double::zero(),
    }
}

fn read_text(o: &Json, k: &str) -> (r: String)
    ensures
        r@ == text_under(value_of(*o), k@),
{
    match o.get(k) {
        Some(x) => match x.as_str() {
            Some(s) => copy_text(s),
            None => {
                let none: String = String::new();
                assert(none@ =~= seq![]);
                none
            },
        },
        None => {
            let none: String = String::new();
            assert(none@ =~= seq![]);
            none
        },
    }
}

fn read_flag(o: &Json, k: &str) -> (r: bool)
    ensures
        r == flag_under(value_of(*o), k@),
{
    match o.get(k) {
        Some(x) => match x.as_bool() {
            Some(b) => b,
            None => false,
        },
        None => false,
    }
}

fn read_items<'a>(o: &'a Json, k: &str) -> (r: Option<&'a Vec<Json>>)
    ensures
        match r {
            Some(v) => values_of(v@, v@.len()) == items_under(value_of(*o), k@),
            None => items_under(value_of(*o), k@).len() == 0,
        },
{
    match o.get(k) {
        Some(x) => x.as_array(),
        None => None,
    }
}

// ── an incident again ──────────────────────────────────────────────────

/// The resource of this name; what is not known counts as IO.
pub open spec fn resource_named(s: Seq<char>) -> Resource {
    if s == "cpu"@ {
        Resource::Cpu
    } else if s == "memory"@ {
        Resource::Memory
    } else {
        Resource::Io
    }
}

pub open spec fn kind_named(s: Seq<char>) -> PsiKind {
    if s == "some"@ {
        PsiKind::SomeTasks
    } else {
        PsiKind::Full
    }
}

pub open spec fn severity_named(s: Seq<char>) -> Severity {
    if s == "critical"@ {
        Severity::Critical
    } else if s == "warn"@ {
        Severity::Warn
    } else {
        Severity::Note
    }
}

pub open spec fn role_named(s: Seq<char>) -> Role {
    if s == "cause"@ {
        Role::Cause
    } else if s == "victim"@ {
        Role::Victim
    } else {
        Role::Active
    }
}

pub open spec fn stall_in(v: Value) -> StallView {
    StallView {
        unit: text_under(v, "unit"@),
        cgroup: text_under(v, "cgroup"@),
        resource: resource_named(text_under(v, "resource"@)),
        kind: kind_named(text_under(v, "type"@)),
        delta_usec: u64_under(v, "delta_usec"@),
        pressure_pct: f64_under(v, "pressure_pct"@),
        peak_pct: f64_under(v, "peak_pct"@),
    }
}

pub open spec fn warning_in(v: Value) -> Finding {
    Finding {
        source: text_under(v, "source"@),
        severity: severity_named(text_under(v, "severity"@)),
        transient: flag_under(v, "transient"@),
        message: text_under(v, "message"@),
    }
}

pub open spec fn culprit_in(v: Value) -> Accused {
    Accused {
        pid: (u64_under(v, "pid"@) % 0x1_0000_0000) as u32,
        comm: text_under(v, "comm"@),
        blocked_pct: f64_under(v, "blocked_pct"@),
        bytes: u64_under(v, "bytes"@),
        role: role_named(text_under(v, "role"@)),
    }
}

/// The incident in a logged document. Only the fields that an explanation
/// needs are recovered; the log is a superset and is allowed to gain fields
/// without this having to change.
pub open spec fn incident_in(v: Value) -> Record {
    Record {
        at_unix: u64_under(v, "at_unix"@),
        window_usec: u64_under(v, "window_usec"@),
        woke_on: seq![],
        stalls: items_under(v, "stalls"@).map_values(|x: Value| stall_in(x)),
        warnings: items_under(v, "warnings"@).map_values(|x: Value| warning_in(x)),
        culprits: items_under(v, "culprits"@).map_values(|x: Value| culprit_in(x)),
        causes: seq![],
    }
}

fn read_stall(o: &Json) -> (r: Stall)
    ensures
        r@ == stall_in(value_of(*o)),
{
    let resource: String = read_text(o, "resource");
    let kind: String = read_text(o, "type");
    Stall {
        unit: read_text(o, "unit"),
        cgroup: read_text(o, "cgroup"),
        resource: if same_text(resource.as_str(), "cpu") {
            Resource::Cpu
        } else if same_text(resource.as_str(), "memory") {
            Resource::Memory
        } else {
            Resource::Io
        },
        kind: if same_text(kind.as_str(), "some") {
            PsiKind::SomeTasks
        } else {
            PsiKind::Full
        },
        delta_usec: read_number(o, "delta_usec"),
        pressure_pct: read_float(o, "pressure_pct"),
        peak_pct: read_float(o, "peak_pct"),
    }
}

fn read_warning(o: &Json) -> (r: Warning)
    ensures
        r@ == warning_in(value_of(*o)),
{
    let severity: String = read_text(o, "severity");
    Warning {
        source: read_text(o, "source"),
        severity: if same_text(severity.as_str(), "critical") {
            Severity::Critical
        } else if same_text(severity.as_str(), "warn") {
            Severity::Warn
        } else {
            Severity::Note
        },
        transient: read_flag(o, "transient"),
        message: read_text(o, "message"),
    }
}

fn read_culprit(o: &Json) -> (r: Culprit)
    ensures
        r@ == culprit_in(value_of(*o)),
{
    let role: String = read_text(o, "role");
    Culprit {
        pid: (read_number(o, "pid") % 0x1_0000_0000) as u32,
        comm: read_text(o, "comm"),
        blocked_pct: read_float(o, "blocked_pct"),
        bytes: read_number(o, "bytes"),
        role: if same_text(role.as_str(), "cause") {
            Role::Cause
        } else if same_text(role.as_str(), "victim") {
            Role::Victim
        } else {
            Role::Active
        },
    }
}

fn read_stalls(o: &Json) -> (r: Vec<Stall>)
    ensures
        views(r@) == incident_in(value_of(*o)).stalls,
{
    let ghost want = incident_in(value_of(*o)).stalls;
    let mut out: Vec<Stall> = Vec::new();
    match read_items(o, "stalls") {
        Some(v) => {
            let mut i: usize = 0;
            proof {
                if v@.len() > 0 {
                    lemma_values_of(v@, v@.len(), 0);
                }
            }
            assert(views(out@) =~= want.take(0));
            while i < v.len()
                invariant
                    i <= v@.len() == want.len(),
                    want == incident_in(value_of(*o)).stalls,
                    values_of(v@, v@.len()) == items_under(value_of(*o), "stalls"@),
                    views(out@) == want.take(i as int),
                decreases v@.len() - i,
            {
                let s: Stall = read_stall(&v[i]);
                proof {
                    lemma_values_of(v@, v@.len(), i as int);
                    assert(want[i as int] == s@);
                }
                let ghost before = views(out@);
                out.push(s);
                proof {
                    assert(views(out@) =~= before.push(s@));
                    assert(want.take(i + 1) =~= want.take(i as int).push(s@));
                }
                i += 1;
            }
            assert(want.take(i as int) =~= want);
        },
        None => {
            assert(views(out@) =~= want);
        },
    }
    out
}

fn read_warnings(o: &Json) -> (r: Vec<Warning>)
    ensures
        findings(r@) == incident_in(value_of(*o)).warnings,
{
    let ghost want = incident_in(value_of(*o)).warnings;
    let mut out: Vec<Warning> = Vec::new();
    match read_items(o, "warnings") {
        Some(v) => {
            let mut i: usize = 0;
            proof {
                if v@.len() > 0 {
                    lemma_values_of(v@, v@.len(), 0);
                }
            }
            assert(findings(out@) =~= want.take(0));
            while i < v.len()
                invariant
                    i <= v@.len() == want.len(),
                    want == incident_in(value_of(*o)).warnings,
                    values_of(v@, v@.len()) == items_under(value_of(*o), "warnings"@),
                    findings(out@) == want.take(i as int),
                decreases v@.len() - i,
            {
                let w: Warning = read_warning(&v[i]);
                proof {
                    lemma_values_of(v@, v@.len(), i as int);
                    assert(want[i as int] == w@);
                }
                let ghost before = findings(out@);
                out.push(w);
                proof {
                    assert(findings(out@) =~= before.push(w@));
                    assert(want.take(i + 1) =~= want.take(i as int).push(w@));
                }
                i += 1;
            }
            assert(want.take(i as int) =~= want);
        },
        None => {
            assert(findings(out@) =~= want);
        },
    }
    out
}

fn read_culprits(o: &Json) -> (r: Vec<Culprit>)
    ensures
        accusations(r@) == incident_in(value_of(*o)).culprits,
{
    let ghost want = incident_in(value_of(*o)).culprits;
    let mut out: Vec<Culprit> = Vec::new();
    match read_items(o, "culprits") {
        Some(v) => {
            let mut i: usize = 0;
            proof {
                if v@.len() > 0 {
                    lemma_values_of(v@, v@.len(), 0);
                }
            }
            assert(accusations(out@) =~= want.take(0));
            while i < v.len()
                invariant
                    i <= v@.len() == want.len(),
                    want == incident_in(value_of(*o)).culprits,
                    values_of(v@, v@.len()) == items_under(value_of(*o), "culprits"@),
                    accusations(out@) == want.take(i as int),
                decreases v@.len() - i,
            {
                let c: Culprit = read_culprit(&v[i]);
                proof {
                    lemma_values_of(v@, v@.len(), i as int);
                    assert(want[i as int] == c@);
                }
                let ghost before = accusations(out@);
                out.push(c);
                proof {
                    assert(accusations(out@) =~= before.push(c@));
                    assert(want.take(i + 1) =~= want.take(i as int).push(c@));
                }
                i += 1;
            }
            assert(want.take(i as int) =~= want);
        },
        None => {
            assert(accusations(out@) =~= want);
        },
    }
    out
}

/// Rebuild an incident from one logged line.
pub fn parse_incident(line: &str) -> (r: Option<Incident>)
    ensures
        match document(line@) {
            Ok(v) => r is Some && (r->0)@ == incident_in(v),
            Err(_) => r is None,
        },
{
    match json::parse(line) {
        Err(_) => None,
        Ok(v) => {
            let woke_on: Vec<String> = Vec::new();
            let causes: Vec<Cause> = Vec::new();
            assert(texts(woke_on@) =~= seq![]);
            assert(causes@ =~= seq![]);
            Some(
                Incident {
                    at_unix: read_number(&v, "at_unix"),
                    window_usec: read_number(&v, "window_usec"),
                    woke_on,
                    stalls: read_stalls(&v),
                    warnings: read_warnings(&v),
                    culprits: read_culprits(&v),
                    causes,
                },
            )
        },
    }
}

// ── the answer ─────────────────────────────────────────────────────────

/// Is this the incident on a line of the log? None where the line is blank or
/// no document.
pub open spec fn stands_on(i: Option<Incident>, line: Seq<char>) -> bool {
    match i {
        Some(i) => trim(line).len() > 0 && document(line) is Ok && i@ == incident_in(
            document(line)->Ok_0,
        ),
        None => trim(line).len() == 0 || document(line) is Err,
    }
}

/// Are these the incidents on the lines of the log?
pub open spec fn recorded(all: Seq<Option<Incident>>, lines: Seq<Seq<char>>) -> bool {
    all.len() == lines.len() && forall|k: int|
        0 <= k < lines.len() ==> stands_on(#[trigger] all[k], lines[k])
}

/// Is an incident asked for? With a filter, one of its stalls has to match.
pub open spec fn asked_for(i: Incident, filter: Option<Expr>) -> bool {
    match filter {
        None => true,
        Some(e) => exists|k: int| 0 <= k < i.stalls@.len() && holds(e, #[trigger] i.stalls@[k]),
    }
}

/// What is told of one incident: an empty line sets it off from the one before.
#[verifier::opaque]
pub open spec fn entry(i: Incident, first: bool, now: u64) -> Seq<char> {
    (if first {
        ""@
    } else {
        "\n"@
    }) + i.paragraph(now)
}

fn write_entry(i: &Incident, first: bool, now: u64) -> (r: String)
    ensures
        r@ == entry(*i, first, now),
{
    let mut o: String = copy_text(
        if first {
            ""
        } else {
            "\n"
        },
    );
    o.push_str(i.explain(now).as_str());
    proof {
        reveal(entry);
    }
    o
}

/// What is told of the first `n` lines, the last of them first, when so many
/// incidents were told before: no more than `count`.
pub open spec fn told(
    all: Seq<Option<Incident>>,
    n: nat,
    before: nat,
    count: nat,
    filter: Option<Expr>,
    now: u64,
) -> Seq<char>
    decreases n,
{
    if n == 0 {
        seq![]
    } else {
        match all[n - 1] {
            Some(i) => if asked_for(i, filter) {
                let one = entry(i, before == 0, now);
                if before + 1 >= count {
                    one
                } else {
                    one + told(all, (n - 1) as nat, before + 1, count, filter, now)
                }
            } else {
                told(all, (n - 1) as nat, before, count, filter, now)
            },
            None => told(all, (n - 1) as nat, before, count, filter, now),
        }
    }
}

/// Is any of the incidents asked for?
pub open spec fn any_asked_for(all: Seq<Option<Incident>>, filter: Option<Expr>) -> bool {
    exists|k: int|
        0 <= k < all.len() && (#[trigger] all[k]) is Some && asked_for(all[k]->0, filter)
}

/// The answer: the most recent incidents that are asked for, or that there are
/// none.
pub open spec fn answered(
    all: Seq<Option<Incident>>,
    count: nat,
    filter: Option<Expr>,
    now: u64,
) -> Seq<char> {
    if any_asked_for(all, filter) {
        told(all, all.len(), 0, count, filter, now)
    } else {
        "Nothing recorded that matches. The machine has not stalled, or the filter excluded everything.\n"@
    }
}

/// What a filter tests, where there is one.
pub open spec fn tested(filter: Option<&Filter>) -> Option<Expr> {
    match filter {
        Some(f) => Some(f.expr()),
        None => None,
    }
}

fn is_asked_for(i: &Incident, filter: Option<&Filter>) -> (r: bool)
    ensures
        r == asked_for(*i, tested(filter)),
{
    match filter {
        None => true,
        Some(f) => {
            let mut k: usize = 0;
            while k < i.stalls.len()
                invariant
                    k <= i.stalls@.len(),
                    tested(filter) == Some(f.expr()),
                    forall|j: int| 0 <= j < k ==> !holds(f.expr(), #[trigger] i.stalls@[j]),
                decreases i.stalls@.len() - k,
            {
                if f.matches(&i.stalls[k]) {
                    assert(holds(f.expr(), i.stalls@[k as int]));
                    return true;
                }
                k += 1;
            }
            false
        },
    }
}

/// Answer from the body of the log: the most recent incidents first, at most
/// `count` of them but at least one, as they look from this moment.
pub fn why(body: &str, count: usize, filter: Option<&Filter>, now: u64) -> (r: String)
    ensures
        exists|all: Seq<Option<Incident>>|
            recorded(all, lines(body@)) && r@ == answered(all, count as nat, tested(filter), now),
{
    let ls: Vec<Vec<char>> = split_lines(&to_chars(body));
    let ghost want = lines(body@);
    let ghost e = tested(filter);
    let mut all: Vec<Option<Incident>> = Vec::new();
    let mut i: usize = 0;
    while i < ls.len()
        invariant
            i <= ls@.len(),
            runs(ls@) == want,
            want.len() == ls@.len(),
            all@.len() == i,
            forall|k: int| 0 <= k < i ==> stands_on(#[trigger] all@[k], want[k]),
        decreases ls@.len() - i,
    {
        assert(want[i as int] == ls@[i as int]@);
        if trimmed(ls[i].as_slice()).len() == 0 {
            all.push(None);
        } else {
            all.push(parse_incident(from_chars(ls[i].as_slice()).as_str()));
        }
        i += 1;
    }
    let mut o: String = String::new();
    let mut shown: usize = 0;
    let total: usize = all.len();
    let mut n: usize = total;
    let mut done: bool = false;
    let ghost whole_text = told(all@, all@.len(), 0, count as nat, e, now);
    assert(o@ + whole_text =~= whole_text);
    while n > 0 && !done
        invariant
            n <= total,
            total == all@.len(),
            e == tested(filter),
            whole_text == told(all@, all@.len(), 0, count as nat, e, now),
            shown <= total - n,
            done ==> shown > 0 && o@ == whole_text,
            !done ==> whole_text == o@ + told(all@, n as nat, shown as nat, count as nat, e, now),
            shown > 0 ==> any_asked_for(all@, e),
            shown == 0 ==> forall|k: int|
                n <= k < all@.len() ==> !((#[trigger] all@[k]) is Some && asked_for(all@[k]->0, e)),
        decreases n,
    {
        n -= 1;
        match &all[n] {
            Some(inc) => {
                if is_asked_for(inc, filter) {
                    let ghost before = o@;
                    let ghost one = entry(*inc, shown == 0, now);
                    o.push_str(write_entry(inc, shown == 0, now).as_str());
                    assert(all@[n as int] is Some && asked_for(all@[n as int]->0, e));
                    shown += 1;
                    if shown >= count {
                        done = true;
                    } else {
                        proof {
                            let rest = told(all@, n as nat, shown as nat, count as nat, e, now);
                            assert(before + (one + rest) =~= before + one + rest);
                        }
                    }
                }
            },
            None => {},
        }
    }
    proof {
        assert(recorded(all@, lines(body@)));
        if !done {
            assert(o@ + Seq::<char>::empty() =~= o@);
        }
    }
    if shown == 0 {
        return copy_text(
            "Nothing recorded that matches. The machine has not stalled, or the filter excluded everything.\n",
        );
    }
    o
}

} // verus!
