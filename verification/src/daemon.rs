//! What the resident recorder decides: what it answers, what it records of a
//! capture, which rules fire, and what it was told to do.
//!
//! Event-driven by default. A PSI trigger per resource sits blocked in the
//! kernel and nothing runs on a healthy machine; when the kernel reports a
//! stall past the threshold, one capture samples the cgroup tree and pushes a
//! frame into a bounded ring, which queries are answered from.

use vstd::prelude::*;
use vstd::slice::slice_subrange;
use vstd::utf8::encode_utf8;

use crate::appname::said;
use crate::attribution::{Sampler, lemma_pause_respects_bounds, pause};
use crate::config::{
    Config, Reaction, Rule, Settings, built_in, expand, expanded, flagged, reactions,
};
use crate::decimal::fixed;
use crate::filter::{Expr, Filter, holds};
use crate::float::{Double, below, product, quotient, whole};
use crate::incident::{
    Accused, Culprit, Incident, Record, accusations, copy_stalls, process_bytes, process_role,
};
use crate::ipc::{Format, Request, request_in};
use crate::json::document;
use crate::metrics::DEFAULT_MAX_SERIES;
use crate::pathology::{Warning, findings};
use crate::process::{ProcCulprit, sample_share};
use crate::psi::Resource;
use crate::ranking::views;
use crate::report::{Cause, Report, Role, Stall};
use crate::ring::{Frame, Ring, covered, history};
use crate::sort::{order_of, ordered, stable_order};
use crate::span::{Span, lemma_seconds, lemma_seconds_grow, lemma_up_to_a_span_fits, rounded_nanos};
use crate::text::{
    copy_text, decimal, find, is_text, parse_u64, position, push_text, push_u64, read_u64, runs,
    same_text, split_words, texts, to_chars, trim, trimmed, words,
};
use crate::trigger::{Registration, Trigger, registration};
use crate::varlink::{
    Call, CallError, CallErrorView, CallView, INTERFACE, call_in, description_text, error_for,
    info_text, parse_call, refusal_text, reply_info, reply_interface_description, reply_report,
};

verus! {

// ── the line protocol ──────────────────────────────────────────────────

/// A report in the format that was asked for.
pub open spec fn rendered(r: Report, fmt: Format) -> Seq<char> {
    match fmt {
        Format::Json => r.json(),
        Format::Text => r.text(),
    }
}

/// See [`rendered`].
pub fn render(r: &Report, fmt: Format) -> (s: String)
    ensures
        s@ == rendered(*r, fmt),
{
    match fmt {
        Format::Json => r.to_json(),
        Format::Text => r.to_text(),
    }
}

/// Is this the report on the newest frame? An empty one where there is none.
pub open spec fn reports_newest(r: Report, frames: Seq<Frame>) -> bool {
    &&& r.causes@.len() == 0
    &&& r.warnings@.len() == 0
    &&& if frames.len() == 0 {
        r.window_usec == 0 && r.stalls@.len() == 0
    } else {
        r.window_usec == frames.last().window_usec && r.stalls@ == frames.last().stalls@
    }
}

/// Is this the report on the history since a moment, with these conditions?
/// Conditions are point-in-time state, not history, so they are those of the
/// moment of the query.
pub open spec fn reports_history(
    r: Report,
    frames: Seq<Frame>,
    since: u64,
    warnings: Seq<Warning>,
) -> bool {
    &&& r.window_usec == covered(frames, since, frames.len())
    &&& views(r.stalls@) == history(frames, since)
    &&& r.causes@.len() == 0
    &&& r.warnings@ == warnings
}

/// So many seconds before a moment, but not before the epoch.
pub open spec fn earlier(now: u64, secs: u64) -> u64 {
    if now >= secs {
        (now - secs) as u64
    } else {
        0
    }
}

/// Is this what a request is answered?
pub open spec fn answers(
    reply: Seq<char>,
    request: Option<Request>,
    frames: Seq<Frame>,
    now: u64,
    warnings: Seq<Warning>,
) -> bool {
    match request {
        Some(Request::Ping) => reply == "PONG"@,
        Some(Request::Now(fmt)) => exists|r: Report|
            #[trigger] reports_newest(r, frames) && reply == rendered(r, fmt),
        Some(Request::Since(secs, fmt)) => exists|r: Report|
            #[trigger] reports_history(r, frames, earlier(now, secs), warnings) && reply
                == rendered(r, fmt),
        None => reply == "{\"error\": \"expected PING | NOW | SINCE <secs>\"}"@,
    }
}

/// The report on the history since a moment.
pub fn history_report(ring: &Ring, since: u64, warnings: Vec<Warning>) -> (r: Report)
    ensures
        reports_history(r, ring.held(), since, warnings@),
{
    let past: Report = ring.aggregate(since);
    Report { window_usec: past.window_usec, stalls: past.stalls, causes: past.causes, warnings }
}

/// The report on the newest frame.
pub fn newest_report(ring: &Ring) -> (r: Report)
    ensures
        reports_newest(r, ring.held()),
{
    match ring.newest() {
        Some(f) => Report {
            window_usec: f.window_usec,
            stalls: copy_stalls(&f.stalls),
            causes: Vec::new(),
            warnings: Vec::new(),
        },
        None => Report::default(),
    }
}

/// Answer a request line at this moment, under these conditions.
pub fn handle(line: &str, ring: &Ring, now: u64, warnings: Vec<Warning>) -> (r: String)
    ensures
        answers(r@, request_in(words(trim(line@))), ring.held(), now, warnings@),
{
    match Request::parse(line) {
        Some(Request::Ping) => copy_text("PONG"),
        Some(Request::Now(fmt)) => {
            let report: Report = newest_report(ring);
            let reply: String = render(&report, fmt);
            assert(reports_newest(report, ring.held()) && reply@ == rendered(report, fmt));
            reply
        },
        Some(Request::Since(secs, fmt)) => {
            let ghost conditions = warnings@;
            let report: Report = history_report(ring, now.saturating_sub(secs), warnings);
            let reply: String = render(&report, fmt);
            assert(reports_history(report, ring.held(), earlier(now, secs), conditions) && reply@
                == rendered(report, fmt));
            reply
        },
        None => copy_text("{\"error\": \"expected PING | NOW | SINCE <secs>\"}"),
    }
}

/// The line that asks for history.
pub fn history_request(secs: u64, json: bool) -> (r: String)
    ensures
        r@ == "SINCE "@ + decimal(secs as nat) + " "@ + (if json {
            "json"@
        } else {
            "text"@
        }) + "\n"@,
{
    let mut o: String = copy_text("SINCE ");
    push_u64(&mut o, secs);
    o.push_str(" ");
    o.push_str(
        if json {
            "json"
        } else {
            "text"
        },
    );
    o.push_str("\n");
    o
}

// ── Varlink ────────────────────────────────────────────────────────────

/// What is to be done about a frame.
#[derive(Debug)]
pub enum Step {
    /// Nothing: the connection is over.
    Close,
    /// Answer, and close the connection.
    Last(String),
    /// Answer, and go on to the next frame.
    Reply(String),
    /// Observe the machine for so long, and answer with the report.
    Observe(u64),
    /// Answer with the report on the last so many seconds.
    History(u64),
}

/// A step as a value to compare with.
pub enum StepView {
    Close,
    Last(Seq<char>),
    Reply(Seq<char>),
    Observe(u64),
    History(u64),
}

impl View for Step {
    type V = StepView;

    open spec fn view(&self) -> StepView {
        match self {
            Step::Close => StepView::Close,
            Step::Last(s) => StepView::Last(s@),
            Step::Reply(s) => StepView::Reply(s@),
            Step::Observe(ms) => StepView::Observe(*ms),
            Step::History(secs) => StepView::History(*secs),
        }
    }
}

/// What is to be done about a frame, given its text where it is text at all.
pub open spec fn step_for(text: Option<Seq<char>>) -> StepView {
    match text {
        None => StepView::Last(refusal_text(CallErrorView::Malformed("not UTF-8"@))),
        Some(t) => if trim(t).len() == 0 {
            StepView::Close
        } else {
            match call_in(document(t)) {
                Ok(CallView::GetInfo) => StepView::Reply(info_text()),
                Ok(CallView::GetInterfaceDescription(iface)) => if iface == INTERFACE@ {
                    StepView::Reply(description_text())
                } else {
                    StepView::Reply(refusal_text(CallErrorView::UnknownInterface(iface)))
                },
                Ok(CallView::GetStalls { window_ms }) => StepView::Observe(window_ms),
                Ok(CallView::GetHistory { seconds }) => StepView::History(seconds),
                Err(e) => StepView::Reply(refusal_text(e)),
            }
        },
    }
}

/// Decide about one frame, its NUL already stripped.
pub fn handle_varlink(text: &Option<String>) -> (r: Step)
    ensures
        r@ == step_for(said(*text)),
{
    let text: &str = match text {
        None => return Step::Last(error_for(&CallError::Malformed("not UTF-8"))),
        Some(t) => t.as_str(),
    };
    if trimmed(&to_chars(text)).len() == 0 {
        return Step::Close;
    }
    match parse_call(text) {
        Ok(Call::GetInfo) => Step::Reply(reply_info()),
        Ok(Call::GetInterfaceDescription(iface)) => {
            if same_text(iface.as_str(), INTERFACE) {
                Step::Reply(reply_interface_description())
            } else {
                Step::Reply(error_for(&CallError::UnknownInterface(iface)))
            }
        },
        Ok(Call::GetStalls { window_ms }) => Step::Observe(window_ms),
        Ok(Call::GetHistory { seconds }) => Step::History(seconds),
        Err(e) => Step::Reply(error_for(&e)),
    }
}

/// The reply to a request for history.
pub fn history_reply(ring: &Ring, seconds: u64, now: u64, warnings: Vec<Warning>) -> (r: String)
    ensures
        exists|report: Report|
            #[trigger] reports_history(report, ring.held(), earlier(now, seconds), warnings@) && r@
                == "{\"parameters\":"@ + report.json_compact() + "}"@,
{
    let ghost conditions = warnings@;
    let report: Report = history_report(ring, now.saturating_sub(seconds), warnings);
    let reply: String = reply_report(&report);
    assert(reports_history(report, ring.held(), earlier(now, seconds), conditions));
    reply
}

// ── metrics over HTTP ──────────────────────────────────────────────────

/// What a request for a page is answered with.
#[derive(Clone, Copy, Debug, PartialEq, Eq, Structural)]
pub enum Page {
    Metrics,
    Index,
    NotFound,
    NotAllowed,
}

/// The page that a request line asks for. What follows a question mark does
/// not count.
pub open spec fn page_in(w: Seq<Seq<char>>) -> Page {
    if w.len() == 0 || w[0] != "GET"@ {
        Page::NotAllowed
    } else {
        let path = if w.len() < 2 {
            seq![]
        } else {
            w[1].take(find(w[1], '?') as int)
        };
        if path == "/metrics"@ {
            Page::Metrics
        } else if path == "/"@ {
            Page::Index
        } else {
            Page::NotFound
        }
    }
}

/// See [`page_in`].
pub fn page_for(request_line: &str) -> (r: Page)
    ensures
        r == page_in(words(request_line@)),
{
    let w: Vec<Vec<char>> = split_words(&to_chars(request_line));
    let ghost ws = words(request_line@);
    assert(runs(w@).len() == w@.len());
    if w.len() == 0 {
        return Page::NotAllowed;
    }
    assert(ws[0] == w@[0]@);
    if !is_text(&w[0], "GET") {
        return Page::NotAllowed;
    }
    if w.len() < 2 {
        proof {
            reveal_strlit("/metrics");
            reveal_strlit("/");
            assert(Seq::<char>::empty().len() == 0);
        }
        return Page::NotFound;
    }
    assert(ws[1] == w@[1]@);
    let n: usize = position(&w[1], '?');
    let path: &[char] = slice_subrange(w[1].as_slice(), 0, n);
    assert(path@ =~= ws[1].take(n as int));
    if is_text(path, "/metrics") {
        Page::Metrics
    } else if is_text(path, "/") {
        Page::Index
    } else {
        Page::NotFound
    }
}

pub open spec fn status_of(p: Page) -> Seq<char> {
    match p {
        Page::Metrics | Page::Index => "200 OK"@,
        Page::NotFound => "404 Not Found"@,
        Page::NotAllowed => "405 Method Not Allowed"@,
    }
}

pub open spec fn type_of(p: Page) -> Seq<char> {
    match p {
        Page::Metrics => "text/plain; version=0.0.4; charset=utf-8"@,
        Page::Index => "text/html; charset=utf-8"@,
        _ => "text/plain; charset=utf-8"@,
    }
}

pub open spec fn body_of(p: Page, metrics: Seq<char>) -> Seq<char> {
    match p {
        Page::Metrics => metrics,
        Page::Index => "<html><body><a href=\"/metrics\">metrics</a></body></html>\n"@,
        Page::NotFound => "not found\n"@,
        Page::NotAllowed => "method not allowed\n"@,
    }
}

/// The whole response, with the length of its body in bytes.
pub open spec fn response(p: Page, metrics: Seq<char>) -> Seq<char> {
    "HTTP/1.1 "@ + status_of(p) + "\r\nContent-Type: "@ + type_of(p) + "\r\nContent-Length: "@
        + decimal(encode_utf8(body_of(p, metrics)).len()) + "\r\nConnection: close\r\n\r\n"@
        + body_of(p, metrics)
}

/// Answer a scrape: one response to one request. Prometheus needs no
/// keep-alive, no chunking, no compression negotiation. The metrics count only
/// where they were asked for.
pub fn serve_metrics(page: Page, metrics: &str) -> (r: String)
    ensures
        r@ == response(page, metrics@),
{
    let status: &str = match page {
        Page::Metrics => "200 OK",
        Page::Index => "200 OK",
        Page::NotFound => "404 Not Found",
        Page::NotAllowed => "405 Method Not Allowed",
    };
    let ctype: &str = match page {
        Page::Metrics => "text/plain; version=0.0.4; charset=utf-8",
        Page::Index => "text/html; charset=utf-8",
        Page::NotFound => "text/plain; charset=utf-8",
        Page::NotAllowed => "text/plain; charset=utf-8",
    };
    let body: &str = match page {
        Page::Metrics => metrics,
        Page::Index => "<html><body><a href=\"/metrics\">metrics</a></body></html>\n",
        Page::NotFound => "not found\n",
        Page::NotAllowed => "method not allowed\n",
    };
    let mut o: String = copy_text("HTTP/1.1 ");
    o.push_str(status);
    o.push_str("\r\nContent-Type: ");
    o.push_str(ctype);
    o.push_str("\r\nContent-Length: ");
    push_u64(&mut o, body.as_bytes().len() as u64);
    o.push_str("\r\nConnection: close\r\n\r\n");
    o.push_str(body);
    o
}

/// Where a textfile is written before it is put in place: never in place, for
/// the collector may read at any moment and would take a part for the whole.
pub fn temporary(path: &str) -> (r: String)
    ensures
        r@ == path@ + ".tmp"@,
{
    let mut o: String = copy_text(path);
    o.push_str(".tmp");
    o
}

// ── rules ──────────────────────────────────────────────────────────────

/// The first stall that an expression holds of.
pub open spec fn first_hit(e: Expr, stalls: Seq<Stall>) -> Option<Stall>
    decreases stalls.len(),
{
    if stalls.len() == 0 {
        None
    } else if holds(e, stalls[0]) {
        Some(stalls[0])
    } else {
        first_hit(e, stalls.drop_first())
    }
}

/// What a rule that matched asks for.
#[derive(Debug)]
pub struct Firing {
    pub rule: String,
    /// The title and the text of a notification.
    pub notice: Option<(String, String)>,
    /// A command for the shell. A rule is something the user wrote for
    /// themselves, and pipes and redirects are the point of it.
    pub command: Option<String>,
    /// A path, and a line to append to the file there.
    pub log: Option<(String, String)>,
}

/// A firing as a value to compare with.
pub struct FiringView {
    pub rule: Seq<char>,
    pub notice: Option<(Seq<char>, Seq<char>)>,
    pub command: Option<Seq<char>>,
    pub log: Option<(Seq<char>, Seq<char>)>,
}

pub open spec fn pair(p: Option<(String, String)>) -> Option<(Seq<char>, Seq<char>)> {
    match p {
        Some((a, b)) => Some((a@, b@)),
        None => None,
    }
}

impl View for Firing {
    type V = FiringView;

    open spec fn view(&self) -> FiringView {
        FiringView {
            rule: self.rule@,
            notice: pair(self.notice),
            command: said(self.command),
            log: pair(self.log),
        }
    }
}

pub open spec fn firings(f: Seq<Firing>) -> Seq<FiringView> {
    Seq::new(f.len(), |i: int| f[i]@)
}

/// What a rule asks for when it matches this stall.
pub open spec fn firing(r: Reaction, hit: Stall, i: Incident) -> FiringView {
    FiringView {
        rule: r.name,
        notice: if r.notify {
            Some(
                (
                    "stallwatch: "@ + r.name,
                    expanded("{unit} froze you {delta_ms}ms on {resource}"@, hit),
                ),
            )
        } else {
            None
        },
        command: match r.run {
            Some(template) => Some(expanded(template, hit)),
            None => None,
        },
        log: match r.log {
            Some(path) => Some((path, i.jsonl())),
            None => None,
        },
    }
}

/// What the rules ask for, one after the other. Each fires at most once per
/// incident, on the first stall that matches, so a rule written for "the
/// browser" does not fire five times because five of its cgroups stalled
/// together.
pub open spec fn fired(rules: Seq<Reaction>, i: Incident) -> Seq<FiringView>
    decreases rules.len(),
{
    if rules.len() == 0 {
        seq![]
    } else {
        let before = fired(rules.drop_last(), i);
        match first_hit(rules.last().when, i.stalls@) {
            Some(hit) => before.push(firing(rules.last(), hit, i)),
            None => before,
        }
    }
}

fn find_hit<'a>(f: &Filter, stalls: &'a Vec<Stall>) -> (r: Option<&'a Stall>)
    ensures
        r is Some == first_hit(f.expr(), stalls@) is Some,
        r matches Some(s) ==> first_hit(f.expr(), stalls@) == Some(*s),
{
    let mut i: usize = 0;
    assert(stalls@.skip(0) =~= stalls@);
    while i < stalls.len()
        invariant
            i <= stalls@.len(),
            first_hit(f.expr(), stalls@) == first_hit(f.expr(), stalls@.skip(i as int)),
        decreases stalls@.len() - i,
    {
        proof {
            assert(stalls@.skip(i as int)[0] == stalls@[i as int]);
            assert(stalls@.skip(i as int).drop_first() =~= stalls@.skip(i + 1));
        }
        if f.matches(&stalls[i]) {
            return Some(&stalls[i]);
        }
        i += 1;
    }
    None
}

fn fire(rule: &Rule, hit: &Stall, incident: &Incident) -> (r: Firing)
    ensures
        r@ == firing(rule@, *hit, *incident),
{
    let notice: Option<(String, String)> = if rule.action.notify {
        let mut title: String = copy_text("stallwatch: ");
        title.push_str(rule.name.as_str());
        Some((title, expand("{unit} froze you {delta_ms}ms on {resource}", hit)))
    } else {
        None
    };
    let command: Option<String> = match &rule.action.run {
        Some(template) => Some(expand(template.as_str(), hit)),
        None => None,
    };
    let log: Option<(String, String)> = match &rule.action.log {
        Some(path) => Some((copy_text(path.as_str()), incident.to_jsonl())),
        None => None,
    };
    Firing { rule: copy_text(rule.name.as_str()), notice, command, log }
}

/// What the rules ask for in this incident.
pub fn fire_rules(rules: &Vec<Rule>, incident: &Incident) -> (r: Vec<Firing>)
    ensures
        firings(r@) == fired(reactions(rules@), *incident),
{
    let ghost all = reactions(rules@);
    let mut out: Vec<Firing> = Vec::new();
    let mut i: usize = 0;
    assert(firings(out@) =~= fired(all.take(0), *incident));
    while i < rules.len()
        invariant
            i <= rules@.len(),
            all == reactions(rules@),
            firings(out@) == fired(all.take(i as int), *incident),
        decreases rules@.len() - i,
    {
        proof {
            assert(all.take(i + 1).drop_last() =~= all.take(i as int));
            assert(all.take(i + 1).last() == rules@[i as int]@);
        }
        match find_hit(&rules[i].when, &incident.stalls) {
            Some(hit) => {
                let f: Firing = fire(&rules[i], hit, incident);
                let ghost before = firings(out@);
                out.push(f);
                assert(firings(out@) =~= before.push(f@));
            },
            None => {},
        }
        i += 1;
    }
    assert(all.take(i as int) =~= all);
    out
}

/// However many stalls match, a rule fires at most once per incident.
pub proof fn lemma_a_rule_fires_at_most_once(rules: Seq<Reaction>, i: Incident)
    ensures
        fired(rules, i).len() <= rules.len(),
        rules.len() > 0 ==> fired(rules, i).len() <= fired(rules.drop_last(), i).len() + 1,
    decreases rules.len(),
{
    if rules.len() > 0 {
        lemma_a_rule_fires_at_most_once(rules.drop_last(), i);
    }
}

// ── a capture ──────────────────────────────────────────────────────────

/// The triggers that wake a capture, one per resource. The kernel exposes no
/// `full` line for CPU, so each asks for the line that exists for its resource.
pub open spec fn wanted_trigger(res: Resource, threshold: Span) -> Registration {
    registration(
        "/proc/pressure/"@ + res.name(),
        res,
        res.primary(),
        threshold,
        Span { secs: 2, nanos: 0 },
    )
}

/// The resources among `all` that a setting names.
pub open spec fn chosen(all: Seq<Resource>, names: Seq<Seq<char>>) -> Seq<Resource>
    decreases all.len(),
{
    if all.len() == 0 {
        seq![]
    } else {
        let before = chosen(all.drop_last(), names);
        if names.contains(all.last().name()) {
            before.push(all.last())
        } else {
            before
        }
    }
}

fn is_named(names: &Vec<String>, name: &str) -> (r: bool)
    ensures
        r == texts(names@).contains(name@),
{
    let ghost all = texts(names@);
    let mut i: usize = 0;
    while i < names.len()
        invariant
            i <= names@.len(),
            all == texts(names@),
            forall|k: int| 0 <= k < i ==> #[trigger] all[k] != name@,
        decreases names@.len() - i,
    {
        assert(all[i as int] == names@[i as int]@);
        if same_text(names[i].as_str(), name) {
            return true;
        }
        i += 1;
    }
    false
}

/// One trigger for each resource that the setting names, in the order of
/// [`Resource::all`]. See [`wanted_trigger`].
pub fn triggers(threshold: Span, resources: &Vec<String>) -> (r: Vec<Trigger>)
    requires
        threshold.sound(),
    ensures
        ({
            let want = chosen(Resource::spec_all(), texts(resources@));
            &&& r@.len() == want.len()
            &&& forall|i: int|
                0 <= i < want.len() ==> (#[trigger] r@[i]).sound() && r@[i]@ == wanted_trigger(
                    want[i],
                    threshold,
                )
        }),
{
    let all: Vec<Resource> = Resource::all();
    let ghost names = texts(resources@);
    let mut v: Vec<Trigger> = Vec::new();
    let mut i: usize = 0;
    assert(all@.take(0) =~= seq![]);
    while i < all.len()
        invariant
            i <= all@.len(),
            names == texts(resources@),
            threshold.sound(),
            v@.len() == chosen(all@.take(i as int), names).len(),
            forall|k: int|
                0 <= k < v@.len() ==> (#[trigger] v@[k]).sound() && v@[k]@ == wanted_trigger(
                    chosen(all@.take(i as int), names)[k],
                    threshold,
                ),
        decreases all@.len() - i,
    {
        let res: Resource = all[i];
        assert(all@.take(i + 1).drop_last() =~= all@.take(i as int));
        assert(all@.take(i + 1).last() == res);
        if is_named(resources, res.as_str()) {
            v.push(Trigger::new(res, res.primary_kind(), threshold, Span::from_secs(2)));
        }
        i += 1;
    }
    assert(all@.take(i as int) =~= all@);
    v
}

/// How stalls are watched for.
#[derive(Clone, Copy, Debug, PartialEq, Eq, Structural)]
pub enum Mode {
    /// The kernel wakes a capture.
    Woken,
    /// A sample is taken at an interval.
    Polling,
}

/// How to watch, given how many triggers the kernel took. A kernel can be built
/// without triggers and a container can refuse them; to sit there recording
/// nothing is the one failure that a diagnostic must not have.
pub fn mode(registered: usize) -> (r: Mode)
    ensures
        r == (if registered == 0 {
            Mode::Polling
        } else {
            Mode::Woken
        }),
{
    if registered == 0 {
        Mode::Polling
    } else {
        Mode::Woken
    }
}

/// Where nothing says otherwise, every resource gets its trigger.
pub proof fn lemma_every_resource_is_watched()
    ensures
        chosen(Resource::spec_all(), built_in().resources.0) == Resource::spec_all(),
{
    let names = built_in().resources.0;
    assert(names[0] == "cpu"@ && names[1] == "memory"@ && names[2] == "io"@);
    let all = Resource::spec_all();
    reveal_with_fuel(chosen, 4);
    assert(all.drop_last() =~= seq![Resource::Cpu, Resource::Memory]);
    assert(all.drop_last().drop_last() =~= seq![Resource::Cpu]);
    assert(all.drop_last().drop_last().drop_last() =~= seq![]);
    assert(chosen(all, names) =~= all);
}

/// The resources that woke a capture, with one more. Several usually breach
/// together, and one event produces one capture.
pub open spec fn woken(on: Seq<Resource>, also: Resource) -> Seq<Resource> {
    if on.contains(also) {
        on
    } else {
        on.push(also)
    }
}

/// See [`woken`].
pub fn note_wake(on: &mut Vec<Resource>, also: Resource)
    ensures
        final(on)@ == woken(old(on)@, also),
{
    let mut i: usize = 0;
    while i < on.len()
        invariant
            i <= on@.len(),
            on@ == old(on)@,
            forall|k: int| 0 <= k < i ==> #[trigger] on@[k] != also,
        decreases on@.len() - i,
    {
        if on[i] == also {
            return;
        }
        i += 1;
    }
    on.push(also);
}

/// A named cause is the whole point, so it ranks first.
pub open spec fn role_rank(r: Role) -> u64 {
    match r {
        Role::Cause => 0,
        Role::Active => 1,
        Role::Victim => 2,
    }
}

/// A drilled process with a verdict.
pub open spec fn accusation(p: ProcCulprit) -> Accused {
    let pct = sample_share(p.blocked_samples, p.total_samples);
    Accused {
        pid: p.pid,
        comm: p.comm@,
        blocked_pct: pct,
        bytes: process_bytes(p),
        role: process_role(process_bytes(p), pct),
    }
}

pub open spec fn drilled(p: Seq<ProcCulprit>) -> Seq<Accused> {
    Seq::new(p.len(), |i: int| accusation(p[i]))
}

pub open spec fn role_ranks(c: Seq<Accused>) -> Seq<u64> {
    Seq::new(c.len(), |i: int| role_rank(c[i].role))
}

/// How many processes an incident names.
pub const MAX_CULPRITS: usize = 6;

/// The processes that an incident names: causes first, victims last, those of
/// one role in the order they were found.
pub open spec fn named(p: Seq<ProcCulprit>) -> Seq<Accused> {
    let all = drilled(p);
    let order = order_of(role_ranks(all));
    Seq::new(
        if order.len() < MAX_CULPRITS {
            order.len()
        } else {
            MAX_CULPRITS as nat
        },
        |i: int| all[order[i] as int],
    )
}

/// See [`named`].
pub fn rank_culprits(p: &Vec<ProcCulprit>) -> (r: Vec<Culprit>)
    ensures
        accusations(r@) == named(p@),
{
    let ghost all = drilled(p@);
    let mut keys: Vec<u64> = Vec::new();
    let mut i: usize = 0;
    assert(keys@ =~= role_ranks(all).take(0));
    while i < p.len()
        invariant
            i <= p@.len(),
            all == drilled(p@),
            keys@ == role_ranks(all).take(i as int),
        decreases p@.len() - i,
    {
        let c: Culprit = Culprit::from_proc(&p[i]);
        assert(c@ == all[i as int]);
        keys.push(
            match c.role {
                Role::Cause => 0,
                Role::Active => 1,
                Role::Victim => 2,
            },
        );
        assert(role_ranks(all).take(i + 1) =~= role_ranks(all).take(i as int).push(
            role_ranks(all)[i as int],
        ));
        i += 1;
    }
    assert(keys@ =~= role_ranks(all));
    let order: Vec<usize> = stable_order(&keys);
    let ghost want = named(p@);
    let mut out: Vec<Culprit> = Vec::new();
    let mut k: usize = 0;
    assert(accusations(out@) =~= want.take(0));
    while k < order.len() && k < MAX_CULPRITS
        invariant
            k <= order@.len(),
            k <= MAX_CULPRITS,
            order@ == order_of(role_ranks(all)),
            ordered(keys@, order@, 0, keys@.len() as int),
            keys@.len() == p@.len(),
            all == drilled(p@),
            want == named(p@),
            accusations(out@) == want.take(k as int),
        decreases order@.len() - k,
    {
        let at: usize = order[k];
        let c: Culprit = Culprit::from_proc(&p[at]);
        let ghost before = accusations(out@);
        out.push(c);
        proof {
            assert(accusations(out@) =~= before.push(c@));
            assert(want[k as int] == c@);
            assert(want.take(k + 1) =~= want.take(k as int).push(c@));
        }
        k += 1;
    }
    assert(want.take(k as int) =~= want);
    out
}

pub open spec fn resource_names(r: Seq<Resource>) -> Seq<Seq<char>> {
    Seq::new(r.len(), |i: int| r[i].name())
}

fn write_names(on: &Vec<Resource>) -> (r: Vec<String>)
    ensures
        texts(r@) == resource_names(on@),
{
    let ghost all = resource_names(on@);
    let mut out: Vec<String> = Vec::new();
    let mut i: usize = 0;
    assert(texts(out@) =~= all.take(0));
    while i < on.len()
        invariant
            i <= on@.len(),
            all == resource_names(on@),
            texts(out@) == all.take(i as int),
        decreases on@.len() - i,
    {
        push_text(&mut out, copy_text(on[i].as_str()));
        assert(all.take(i + 1) =~= all.take(i as int).push(all[i as int]));
        i += 1;
    }
    assert(texts(out@) =~= all);
    out
}

/// What one capture found.
#[derive(Debug)]
pub struct Capture {
    pub window_usec: u64,
    pub stalls: Vec<Stall>,
    pub causes: Vec<Cause>,
    pub warnings: Vec<Warning>,
    /// The processes under the root cgroup, whose subtree is every process on
    /// the machine: PSI measures who is blocked, so the worst-hit cgroup is the
    /// casualty, and the process saturating the queue sits in a sibling.
    pub drilled: Vec<ProcCulprit>,
}

/// Record a capture: the incident for the log and the frame for the ring.
pub fn record(c: Capture, woke_on: &Vec<Resource>, now: u64) -> (r: (Incident, Frame))
    ensures
        r.0@ == (Record {
            at_unix: now,
            window_usec: c.window_usec,
            woke_on: resource_names(woke_on@),
            stalls: views(c.stalls@),
            warnings: findings(c.warnings@),
            culprits: named(c.drilled@),
            causes: c.causes@,
        }),
        r.1.at_unix == now,
        r.1.window_usec == c.window_usec,
        r.1.stalls@ == c.stalls@,
{
    let frame: Frame = Frame {
        at_unix: now,
        window_usec: c.window_usec,
        stalls: copy_stalls(&c.stalls),
    };
    let incident: Incident = Incident {
        at_unix: now,
        window_usec: c.window_usec,
        woke_on: write_names(woke_on),
        stalls: c.stalls,
        warnings: c.warnings,
        culprits: rank_culprits(&c.drilled),
        causes: c.causes,
    };
    (incident, frame)
}

// ── what it was told ───────────────────────────────────────────────────

/// Is this flag among the arguments?
pub open spec fn is_given(args: Seq<Seq<char>>, name: Seq<char>) -> bool {
    args.contains(name)
}

/// What stands behind the first occurrence of a flag.
pub open spec fn behind(args: Seq<Seq<char>>, name: Seq<char>) -> Option<Seq<char>>
    decreases args.len(),
{
    if args.len() == 0 {
        None
    } else if args[0] == name {
        if args.len() > 1 {
            Some(args[1])
        } else {
            None
        }
    } else {
        behind(args.drop_first(), name)
    }
}

/// The number behind a flag.
pub open spec fn number_behind(args: Seq<Seq<char>>, name: Seq<char>) -> Option<u64> {
    match behind(args, name) {
        Some(s) => match parse_u64(s) {
            Some(n) => Some(n as u64),
            None => None,
        },
        None => None,
    }
}

/// The number behind a flag, or another where there is none.
pub open spec fn number_or(args: Seq<Seq<char>>, name: Seq<char>, other: u64) -> u64 {
    match number_behind(args, name) {
        Some(n) => n,
        None => other,
    }
}

/// See [`is_given`].
pub fn has_flag(args: &Vec<String>, name: &str) -> (r: bool)
    ensures
        r == is_given(texts(args@), name@),
{
    let mut i: usize = 0;
    while i < args.len()
        invariant
            i <= args@.len(),
            forall|k: int| 0 <= k < i ==> #[trigger] texts(args@)[k] != name@,
        decreases args@.len() - i,
    {
        if same_text(args[i].as_str(), name) {
            assert(texts(args@)[i as int] == name@);
            return true;
        }
        i += 1;
    }
    false
}

/// See [`behind`].
pub fn value_behind(args: &Vec<String>, name: &str) -> (r: Option<String>)
    ensures
        said(r) == behind(texts(args@), name@),
{
    let ghost all = texts(args@);
    let mut i: usize = 0;
    assert(all.skip(0) =~= all);
    while i < args.len()
        invariant
            i <= args@.len(),
            all == texts(args@),
            behind(all, name@) == behind(all.skip(i as int), name@),
        decreases args@.len() - i,
    {
        proof {
            assert(all.skip(i as int)[0] == args@[i as int]@);
            assert(all.skip(i as int).drop_first() =~= all.skip(i + 1));
        }
        if same_text(args[i].as_str(), name) {
            if args.len() - i > 1 {
                assert(all.skip(i as int)[1] == args@[i + 1]@);
                return Some(copy_text(args[i + 1].as_str()));
            }
            return None;
        }
        i += 1;
    }
    None
}

/// See [`number_behind`].
pub fn read_behind(args: &Vec<String>, name: &str) -> (r: Option<u64>)
    ensures
        r == number_behind(texts(args@), name@),
{
    match value_behind(args, name) {
        Some(s) => read_u64(&to_chars(s.as_str())),
        None => None,
    }
}

fn read_or(args: &Vec<String>, name: &str, other: u64) -> (r: u64)
    ensures
        r == number_or(texts(args@), name@, other),
{
    match read_behind(args, name) {
        Some(n) => n,
        None => other,
    }
}

/// What the recorder was told to do.
#[derive(Debug)]
pub struct Options {
    pub threshold_ms: u64,
    pub capture_ms: u64,
    pub tick_ms: u64,
    /// The share of one core that sampling may use.
    pub duty: Double,
    pub history_secs: u64,
    /// How many frames the ring holds.
    pub capacity: usize,
    pub max_series: usize,
    pub force_poll: bool,
    pub notify: bool,
    pub metrics_listen: Option<String>,
    pub metrics_textfile: Option<String>,
}

/// A number held between two others.
pub open spec fn within(n: u64, low: u64, high: u64) -> u64 {
    if n < low {
        low
    } else if n > high {
        high
    } else {
        n
    }
}

/// A share of so many percent, held between a tenth of a percent and a half.
pub open spec fn duty_of(percent: u64) -> Double {
    let d = quotient(whole(percent as int), whole(100));
    let low = quotient(whole(1), whole(1000));
    let high = quotient(whole(1), whole(2));
    if below(d, low) {
        low
    } else if below(high, d) {
        high
    } else {
        d
    }
}

/// As large a number as a machine word holds.
pub open spec fn word_sized(n: nat) -> usize {
    if n <= usize::MAX {
        n as usize
    } else {
        usize::MAX
    }
}

/// How many frames a history takes, one per tick.
pub open spec fn frames_for(history_secs: u64, tick_ms: u64) -> usize {
    let n = history_secs as nat * 1000 / tick_ms as nat;
    word_sized(
        if n == 0 {
            1
        } else {
            n
        },
    )
}

fn word(n: u128) -> (r: usize)
    ensures
        r == word_sized(n as nat),
{
    if n <= usize::MAX as u128 {
        n as usize
    } else {
        usize::MAX
    }
}

fn keep_within(n: u64, low: u64, high: u64) -> (r: u64)
    ensures
        r == within(n, low, high),
{
    if n < low {
        low
    } else if n > high {
        high
    } else {
        n
    }
}

fn read_duty(percent: u64) -> (r: Double)
    ensures
        r == duty_of(percent),
{
    let d: Double = Double::from_u64(percent).over(&Double::from_u64(100));
    let low: Double = Double::from_u64(1).over(&Double::from_u64(1000));
    let high: Double = Double::from_u64(1).over(&Double::from_u64(2));
    if d.less(&low) {
        low
    } else if high.less(&d) {
        high
    } else {
        d
    }
}

impl Options {
    /// Resolve the arguments over a configuration. A flag is the most specific
    /// statement of intent, so it wins over any file.
    pub fn resolve(args: &Vec<String>, cfg: &Config) -> (r: Options)
        ensures
            ({
                let a = texts(args@);
                &&& r.threshold_ms == within(
                    number_or(a, "--threshold"@, cfg.threshold_ms.value),
                    1,
                    900,
                )
                &&& r.capture_ms == within(
                    number_or(a, "--capture"@, cfg.capture_ms.value),
                    50,
                    5_000,
                )
                &&& r.tick_ms == within(number_or(a, "--tick"@, 1000), 100, u64::MAX)
                &&& r.duty == duty_of(number_or(a, "--duty"@, 2))
                &&& r.history_secs == within(
                    number_or(a, "--history"@, cfg.history_secs.value),
                    10,
                    u64::MAX,
                )
                &&& r.capacity == frames_for(r.history_secs, r.tick_ms)
                &&& r.max_series == word_sized(
                    number_or(a, "--max-series"@, DEFAULT_MAX_SERIES as u64) as nat,
                )
                &&& r.force_poll == is_given(a, "--poll"@)
                &&& r.notify == (cfg.notify_enabled.value && !is_given(a, "--no-notify"@))
                &&& said(r.metrics_listen) == behind(a, "--metrics-listen"@)
                &&& said(r.metrics_textfile) == behind(a, "--metrics-textfile"@)
            }),
    {
        let tick_ms: u64 = keep_within(read_or(args, "--tick", 1000), 100, u64::MAX);
        let history_secs: u64 = keep_within(
            read_or(args, "--history", cfg.history_secs.value),
            10,
            u64::MAX,
        );
        let frames: u128 = (history_secs as u128 * 1000) / tick_ms as u128;
        Options {
            threshold_ms: keep_within(
                read_or(args, "--threshold", cfg.threshold_ms.value),
                1,
                900,
            ),
            capture_ms: keep_within(
                read_or(args, "--capture", cfg.capture_ms.value),
                50,
                5_000,
            ),
            tick_ms,
            duty: read_duty(read_or(args, "--duty", 2)),
            history_secs,
            capacity: word(
                if frames == 0 {
                    1
                } else {
                    frames
                },
            ),
            max_series: word(read_or(args, "--max-series", DEFAULT_MAX_SERIES as u64) as u128),
            force_poll: has_flag(args, "--poll"),
            notify: cfg.notify_enabled.value && !has_flag(args, "--no-notify"),
            metrics_listen: value_behind(args, "--metrics-listen"),
            metrics_textfile: value_behind(args, "--metrics-textfile"),
        }
    }
}

/// The settings after the flags that are given.
pub open spec fn flags_noted(s: Settings, a: Seq<Seq<char>>) -> Settings {
    let s1 = if is_given(a, "--threshold"@) {
        flagged(s, "threshold_ms"@, "--threshold"@)
    } else {
        s
    };
    let s2 = if is_given(a, "--capture"@) {
        flagged(s1, "capture_ms"@, "--capture"@)
    } else {
        s1
    };
    if is_given(a, "--history"@) {
        flagged(s2, "history_secs"@, "--history"@)
    } else {
        s2
    }
}

/// Record which settings the arguments override.
pub fn note_flags(cfg: &mut Config, args: &Vec<String>)
    ensures
        final(cfg)@ == flags_noted(old(cfg)@, texts(args@)),
{
    if has_flag(args, "--threshold") {
        cfg.note_flag("threshold_ms", "--threshold");
    }
    if has_flag(args, "--capture") {
        cfg.note_flag("capture_ms", "--capture");
    }
    if has_flag(args, "--history") {
        cfg.note_flag("history_secs", "--history");
    }
}

// ── pacing ─────────────────────────────────────────────────────────────

/// The longest pause between two sweeps, in seconds.
pub const LONGEST_PAUSE: u64 = 30;

/// How long to pause before the next sweep: no less than the tick that was
/// asked for, no more than [`LONGEST_PAUSE`], and as long as the budget asks in
/// between. There is none where the tick itself is longer than that.
pub fn pace(sampler: &Sampler, duty: Double, tick_ms: u64) -> (r: Option<Span>)
    requires
        !duty.is_nan(),
    ensures
        r is Some == (tick_ms <= LONGEST_PAUSE * 1000),
        r matches Some(p) ==> p.sound() && p.total_nanos() == rounded_nanos(
            pause(
                sampler.sweep().seconds(),
                duty,
                (Span {
                    secs: tick_ms / 1000,
                    nanos: ((tick_ms % 1000) * 1_000_000) as u32,
                }).seconds(),
                (Span { secs: LONGEST_PAUSE, nanos: 0 }).seconds(),
            ),
        ),
{
    if tick_ms > LONGEST_PAUSE * 1000 {
        return None;
    }
    let floor: Span = Span::from_millis(tick_ms);
    let ceil: Span = Span::from_secs(LONGEST_PAUSE);
    proof {
        let secs = tick_ms / 1000;
        assert(floor.secs == secs && floor.nanos == (tick_ms % 1000) * 1_000_000);
        lemma_seconds_grow(floor, ceil);
        lemma_seconds(floor);
        let x = pause(sampler.sweep().seconds(), duty, floor.seconds(), ceil.seconds());
        lemma_pause_respects_bounds(
            sampler.sweep().seconds(),
            duty,
            floor.seconds(),
            ceil.seconds(),
        );
        lemma_up_to_a_span_fits(x, ceil);
    }
    Some(sampler.recommended_interval(duty, floor, ceil))
}

/// How far two lengths of time are apart, in nanoseconds.
pub open spec fn apart(a: Span, b: Span) -> nat {
    if a.total_nanos() >= b.total_nanos() {
        (a.total_nanos() - b.total_nanos()) as nat
    } else {
        (b.total_nanos() - a.total_nanos()) as nat
    }
}

/// Whether to say that pacing diverges from what was asked for: silently
/// sampling at a third of the requested rate would make every number quietly
/// wrong. Half a second of change since it was last said is worth a word.
pub fn worth_saying(interval: Span, floor: Span, announced: Span) -> (r: bool)
    ensures
        r == (interval.total_nanos() > floor.total_nanos() && apart(interval, announced)
            > 500_000_000),
{
    let i: u128 = interval.secs as u128 * 1_000_000_000 + interval.nanos as u128;
    let f: u128 = floor.secs as u128 * 1_000_000_000 + floor.nanos as u128;
    let a: u128 = announced.secs as u128 * 1_000_000_000 + announced.nanos as u128;
    let gap: u128 = if i >= a {
        i - a
    } else {
        a - i
    };
    i > f && gap > 500_000_000
}

/// What is said of the pacing.
pub fn pacing_line(sweep: Span, interval: Span, duty: Double) -> (r: String)
    ensures
        r@ == "stallwatchd: sweep costs "@ + fixed(product(sweep.seconds(), whole(1000)), 0)
            + "ms; pacing to "@ + fixed(interval.seconds(), 1) + "s to stay under "@ + fixed(
            product(duty, whole(100)),
            0,
        ) + "% of a core"@,
{
    let mut o: String = copy_text("stallwatchd: sweep costs ");
    o.push_str(sweep.to_seconds().times(&Double::from_u64(1000)).to_fixed(0).as_str());
    o.push_str("ms; pacing to ");
    o.push_str(interval.to_seconds().to_fixed(1).as_str());
    o.push_str("s to stay under ");
    o.push_str(duty.times(&Double::from_u64(100)).to_fixed(0).as_str());
    o.push_str("% of a core");
    o
}

/// Whatever the arguments and the configuration say, the recorder gets a
/// threshold, a capture and a tick that work, and a ring that holds a frame.
pub proof fn lemma_options_are_usable(history_secs: u64, tick_ms: u64, n: u64)
    requires
        tick_ms >= 100,
    ensures
        frames_for(history_secs, tick_ms) >= 1,
        1 <= within(n, 1, 900) <= 900,
        50 <= within(n, 50, 5_000) <= 5_000,
{
}

} // verus!
