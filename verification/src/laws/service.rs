//! What is answered, named and watched, told from what was asked and set.

use vstd::prelude::*;

use crate::cli::{
    first_unknown, matching_stalls, stalls_before, stands_alone, takes_value, targets_among,
};
use crate::config::{Reaction, Settings, Source, expanded};
use crate::daemon::{
    Page, accusation, apart, behind, body_of, chosen, drilled, duty_of, earlier, fired, first_hit,
    flags_noted, frames_for, named, number_or, page_in, response, role_ranks, status_of, type_of,
    within, woken,
};
use crate::filter::{Expr, holds};
use crate::float::{below, one, quotient, whole};
use crate::incident::Incident;
use crate::ipc::{Format, Request, in_directory, line_with, request_in, socket_place, uid_in};
use crate::json::{Value, number_u64};
use crate::laws::numbers::{is_about, lemma_one_is_large, lemma_quotient_is_true};
use crate::laws::processes::lemma_order_has_all;
use crate::process::ProcCulprit;
use crate::psi::Resource;
use crate::report::{Role, Stall};
use crate::sort::{Ranked, order_of};
use crate::span::Span;
use crate::text::{
    decimal, find, find_last, lemma_find, lemma_find_last, lines, lower, parse_nat, parse_u64,
    starts_with, words,
};
use crate::varlink::{CallErrorView, CallView, call_in, unknown};
use vstd::utf8::encode_utf8;

verus! {

// ── what is watched ────────────────────────────────────────────────────

/// **A resource is watched when it is named**: each once, the processor first,
/// then memory, then I/O.
pub proof fn lemma_a_resource_is_watched_when_named(names: Seq<Seq<char>>)
    ensures
        ({
            let r = chosen(seq![Resource::Cpu, Resource::Memory, Resource::Io], names);
            let c = if names.contains("cpu"@) {
                seq![Resource::Cpu]
            } else {
                seq![]
            };
            let m = if names.contains("memory"@) {
                seq![Resource::Memory]
            } else {
                seq![]
            };
            let i = if names.contains("io"@) {
                seq![Resource::Io]
            } else {
                seq![]
            };
            r == c + m + i
        }),
{
    let all = seq![Resource::Cpu, Resource::Memory, Resource::Io];
    let two = seq![Resource::Cpu, Resource::Memory];
    let one = seq![Resource::Cpu];
    let none = Seq::<Resource>::empty();
    assert(all.drop_last() =~= two);
    assert(two.drop_last() =~= one);
    assert(one.drop_last() =~= none);
    reveal_with_fuel(chosen, 4);
    let c = if names.contains("cpu"@) {
        seq![Resource::Cpu]
    } else {
        seq![]
    };
    let m = if names.contains("memory"@) {
        seq![Resource::Memory]
    } else {
        seq![]
    };
    assert(chosen(one, names) =~= c);
    assert(chosen(two, names) =~= c + m);
    let i = if names.contains("io"@) {
        seq![Resource::Io]
    } else {
        seq![]
    };
    assert(chosen(all, names) =~= c + m + i);
}

/// **What woke it is noted once.**
pub proof fn lemma_what_woke_it_is_noted_once(on: Seq<Resource>, also: Resource)
    requires
        on.no_duplicates(),
    ensures
        woken(on, also).no_duplicates(),
        woken(on, also).contains(also),
        forall|r: Resource| on.contains(r) ==> #[trigger] woken(on, also).contains(r),
        forall|r: Resource| #[trigger] woken(on, also).contains(r) ==> on.contains(r) || r == also,
{
    let w = woken(on, also);
    if !on.contains(also) {
        assert(w[on.len() as int] == also);
        assert forall|r: Resource| on.contains(r) implies #[trigger] w.contains(r) by {
            let k = choose|k: int| 0 <= k < on.len() && on[k] == r;
            assert(w[k] == r);
        }
    }
}

// ── who is named ───────────────────────────────────────────────────────

/// **Causes are named first, victims last**, six at most, each one of those
/// that were drilled for.
#[verifier::rlimit(50)]
pub proof fn lemma_causes_are_named_first(p: Seq<ProcCulprit>)
    requires
        p.len() <= usize::MAX,
    ensures
        named(p).len() == if p.len() < 6 {
            p.len()
        } else {
            6
        },
        forall|a: int, b: int|
            0 <= a < b < named(p).len() ==> ((#[trigger] named(p)[b]).role == Role::Cause ==> (
            #[trigger] named(p)[a]).role == Role::Cause) && (named(p)[a].role == Role::Victim
                ==> named(p)[b].role == Role::Victim),
        forall|a: int|
            0 <= a < named(p).len() ==> exists|k: int|
                0 <= k < p.len() && #[trigger] named(p)[a] == accusation(#[trigger] p[k]),
        forall|k: int|
            0 <= k < p.len() && p.len() <= 6 ==> named(p).contains(accusation(#[trigger] p[k])),
        forall|k: int|
            0 <= k < p.len() && accusation(#[trigger] p[k]).role == Role::Cause ==> named(
                p,
            ).contains(accusation(p[k])) || (named(p).len() == 6 && forall|a: int|
                0 <= a < 6 ==> (#[trigger] named(p)[a]).role == Role::Cause),
{
    let all = drilled(p);
    let keys = role_ranks(all);
    lemma_order_has_all(keys);
    let o = order_of(keys);
    let r = named(p);
    assert forall|a: int, b: int| 0 <= a < b < r.len() implies ((#[trigger] r[b]).role
        == Role::Cause ==> (#[trigger] r[a]).role == Role::Cause) && (r[a].role == Role::Victim
        ==> r[b].role == Role::Victim) by {
        assert(!keys[o[b] as int].ahead(&keys[o[a] as int]));
    }
    assert forall|a: int| 0 <= a < r.len() implies exists|k: int|
        0 <= k < p.len() && #[trigger] r[a] == accusation(#[trigger] p[k]) by {
        assert(o[a] < p.len());
        assert(r[a] == accusation(p[o[a] as int]));
    }
    assert forall|k: int| 0 <= k < p.len() implies r.contains(accusation(#[trigger] p[k])) || (
    p.len() > 6 && (accusation(p[k]).role == Role::Cause ==> forall|a: int|
        0 <= a < 6 ==> (#[trigger] r[a]).role == Role::Cause)) by {
        assert(o.contains(k as usize));
        let x = choose|x: int| 0 <= x < o.len() && o[x] == k as usize;
        if x < r.len() {
            assert(r[x] == accusation(p[k]));
        } else {
            if accusation(p[k]).role == Role::Cause {
                assert forall|a: int| 0 <= a < 6 implies (#[trigger] r[a]).role == Role::Cause by {
                    assert(!keys[o[x] as int].ahead(&keys[o[a] as int]));
                }
            }
        }
    }
}

// ── rules ──────────────────────────────────────────────────────────────

/// **A rule fires on the first stall that it matches.**
pub proof fn lemma_a_rule_fires_on_the_first_match(e: Expr, s: Seq<Stall>)
    ensures
        first_hit(e, s) is None <==> forall|k: int| 0 <= k < s.len() ==> !holds(e, #[trigger] s[k]),
        first_hit(e, s) is Some ==> exists|k: int|
            0 <= k < s.len() && #[trigger] s[k] == first_hit(e, s)->0 && holds(e, s[k]) && forall|
                j: int,
            |
                0 <= j < k ==> !holds(e, #[trigger] s[j]),
    decreases s.len(),
{
    if s.len() > 0 {
        let t = s.drop_first();
        lemma_a_rule_fires_on_the_first_match(e, t);
        if holds(e, s[0]) {
            assert(s[0] == first_hit(e, s)->0);
        } else {
            if first_hit(e, t) is Some {
                let k = choose|k: int|
                    0 <= k < t.len() && #[trigger] t[k] == first_hit(e, t)->0 && holds(e, t[k])
                        && forall|j: int| 0 <= j < k ==> !holds(e, #[trigger] t[j]);
                assert(s[k + 1] == t[k]);
                assert forall|j: int| 0 <= j < k + 1 implies !holds(e, #[trigger] s[j]) by {
                    if j > 0 {
                        assert(s[j] == t[j - 1]);
                    }
                }
            } else {
                assert forall|k: int| 0 <= k < s.len() implies !holds(e, #[trigger] s[k]) by {
                    if k > 0 {
                        assert(s[k] == t[k - 1]);
                    }
                }
            }
        }
    }
}

/// **Every rule with a match fires**, with a notice where it asks for one, a
/// command and a log where it has them.
pub proof fn lemma_every_rule_with_a_match_fires(
    rules: Seq<Reaction>,
    i: Incident,
    k: int,
) -> (m: int)
    requires
        0 <= k < rules.len(),
        first_hit(rules[k].when, i.stalls@) is Some,
    ensures
        0 <= m < fired(rules, i).len(),
        ({
            let f = fired(rules, i)[m];
            let r = rules[k];
            &&& f.rule == r.name
            &&& f.notice is Some == r.notify
            &&& r.notify ==> (f.notice->0).0 == "stallwatch: "@ + r.name
            &&& r.notify ==> (f.notice->0).1 == expanded(
                "{unit} froze you {delta_ms}ms on {resource}"@,
                first_hit(r.when, i.stalls@)->0,
            )
            &&& f.command is Some == r.run is Some
            &&& r.run is Some ==> f.command == Some(
                expanded(r.run->0, first_hit(r.when, i.stalls@)->0),
            )
            &&& f.log is Some == r.log is Some
            &&& r.log is Some ==> f.log == Some((r.log->0, i.jsonl()))
        }),
    decreases rules.len(),
{
    let t = rules.drop_last();
    if k < t.len() {
        assert(t[k] == rules[k]);
        lemma_every_rule_with_a_match_fires(t, i, k)
    } else {
        fired(t, i).len() as int
    }
}

/// **No other rule fires.**
pub proof fn lemma_no_rule_fires_without_a_match(
    rules: Seq<Reaction>,
    i: Incident,
    m: int,
) -> (k: int)
    requires
        0 <= m < fired(rules, i).len(),
    ensures
        0 <= k < rules.len(),
        first_hit(rules[k].when, i.stalls@) is Some,
        fired(rules, i)[m].rule == rules[k].name,
    decreases rules.len(),
{
    let t = rules.drop_last();
    if m < fired(t, i).len() {
        let k = lemma_no_rule_fires_without_a_match(t, i, m);
        assert(t[k] == rules[k]);
        k
    } else {
        rules.len() - 1
    }
}

// ── options ────────────────────────────────────────────────────────────

/// **A value stands behind the first place of its name.**
pub proof fn lemma_a_value_stands_behind_its_name(args: Seq<Seq<char>>, name: Seq<char>, k: int)
    requires
        0 <= k <= args.len(),
        k < args.len() ==> args[k] == name,
        forall|j: int| 0 <= j < k ==> #[trigger] args[j] != name,
    ensures
        k + 1 < args.len() ==> behind(args, name) == Some(args[k + 1]),
        k + 1 >= args.len() ==> behind(args, name) is None,
    decreases args.len(),
{
    if k > 0 {
        let t = args.drop_first();
        assert(args[0] != name);
        assert forall|j: int| 0 <= j < k - 1 implies #[trigger] t[j] != name by {
            assert(t[j] == args[j + 1]);
        }
        if k < args.len() {
            assert(t[k - 1] == args[k]);
        }
        lemma_a_value_stands_behind_its_name(t, name, k - 1);
    }
}

/// **A number is the one behind its name, and the other one where there is
/// none.**
pub proof fn lemma_a_number_is_the_one_given(args: Seq<Seq<char>>, name: Seq<char>, other: u64)
    ensures
        behind(args, name) is None ==> number_or(args, name, other) == other,
        behind(args, name) is Some && parse_u64(behind(args, name)->0) is None ==> number_or(
            args,
            name,
            other,
        ) == other,
        behind(args, name) is Some && parse_u64(behind(args, name)->0) is Some && parse_u64(
            behind(args, name)->0,
        )->0 <= u64::MAX ==> number_or(args, name, other) == parse_u64(behind(args, name)->0)->0,
{
}

/// **A number is held between its bounds.**
pub proof fn lemma_a_number_is_held_between_its_bounds(n: u64, low: u64, high: u64)
    requires
        low <= high,
    ensures
        low <= within(n, low, high) <= high,
        low <= n <= high ==> within(n, low, high) == n,
        n < low ==> within(n, low, high) == low,
        n > high ==> within(n, low, high) == high,
{
}

/// **As many frames are kept as ticks fit into the history**, one at least.
pub proof fn lemma_frames_fill_the_history(history_secs: u64, tick_ms: u64)
    requires
        tick_ms > 0,
        history_secs * 1000 <= usize::MAX,
    ensures
        ({
            let n = frames_for(history_secs, tick_ms);
            &&& n >= 1
            &&& history_secs * 1000 >= tick_ms ==> n * tick_ms <= history_secs * 1000 < (n + 1)
                * tick_ms
            &&& history_secs * 1000 < tick_ms ==> n == 1
        }),
{
    let h = history_secs * 1000;
    let t = tick_ms as int;
    let q = h / t;
    vstd::arithmetic::div_mod::lemma_fundamental_div_mod(h, t);
    assert(q * t <= h < (q + 1) * t && q >= 0 && q <= h && (h >= t ==> q >= 1) && (h < t ==> q == 0))
        by (nonlinear_arith)
        requires
            h == t * q + h % t,
            0 <= h % t < t,
            t > 0,
            h >= 0,
    ;
}

/// **The share of a core is the percentage asked for**, held between a thousandth
/// and a half.
pub proof fn lemma_the_share_of_a_core(percent: u64)
    ensures
        percent == 0 ==> is_about(duty_of(percent), 1, 1000),
        1 <= percent <= 49 ==> is_about(duty_of(percent), percent as nat, 100),
        percent >= 51 ==> is_about(duty_of(percent), 1, 2),
{
    let o = one();
    lemma_one_is_large();
    let d = quotient(whole(percent as int), whole(100));
    let low = quotient(whole(1), whole(1000));
    let high = quotient(whole(1), whole(2));
    lemma_quotient_is_true(percent as nat, 100);
    lemma_quotient_is_true(1, 1000);
    lemma_quotient_is_true(1, 2);
    assert(1 * o == o);
    let z = percent * o;
    assert(100_000 * (d.value() * 100) <= 100_001 * z);
    assert(100_001 * (d.value() * 100) >= 100_000 * z);
    assert(100_000 * (low.value() * 1000) <= 100_001 * o);
    assert(100_001 * (low.value() * 1000) >= 100_000 * o);
    assert(100_000 * (high.value() * 2) <= 100_001 * o);
    assert(100_001 * (high.value() * 2) >= 100_000 * o);
    if percent == 0 {
        assert(z == 0) by (nonlinear_arith)
            requires
                z == percent * o,
                percent == 0,
        ;
        assert(below(d, low));
    } else if percent <= 49 {
        assert(o <= z <= 49 * o) by (nonlinear_arith)
            requires
                z == percent * o,
                1 <= percent <= 49,
        ;
        assert(!below(d, low));
        assert(!below(high, d));
    } else if percent >= 51 {
        assert(z >= 51 * o) by (nonlinear_arith)
            requires
                z == percent * o,
                percent >= 51,
        ;
        assert(!below(d, low));
        assert(below(high, d));
    }
}

/// **A moment so many seconds ago**, not before the beginning of time.
pub proof fn lemma_so_many_seconds_ago(now: u64, secs: u64)
    ensures
        now >= secs ==> earlier(now, secs) + secs == now,
        now < secs ==> earlier(now, secs) == 0,
{
}

// ── requests ───────────────────────────────────────────────────────────

/// **What a request asks for**, in either case of its letters. The format is
/// JSON where it is not text.
pub proof fn lemma_what_a_request_asks_for(w: Seq<Seq<char>>)
    requires
        w.len() > 0,
    ensures
        lower(w[0]) == "ping"@ ==> request_in(w) == Some(Request::Ping),
        lower(w[0]) == "now"@ ==> request_in(w) == Some(
            Request::Now(
                if w.len() > 1 && lower(w[1]) == "text"@ {
                    Format::Text
                } else {
                    Format::Json
                },
            ),
        ),
        lower(w[0]) == "since"@ && w.len() > 1 && parse_u64(w[1]) is Some && parse_u64(w[1])->0
            <= u64::MAX ==> request_in(w) == Some(
            Request::Since(
                parse_u64(w[1])->0 as u64,
                if w.len() > 2 && lower(w[2]) == "text"@ {
                    Format::Text
                } else {
                    Format::Json
                },
            ),
        ),
        lower(w[0]) == "since"@ && (w.len() == 1 || parse_u64(w[1]) is None) ==> request_in(
            w,
        ) is None,
        lower(w[0]) != "ping"@ && lower(w[0]) != "now"@ && lower(w[0]) != "since"@ ==> request_in(
            w,
        ) is None,
{
    reveal_strlit("PING");
    reveal_strlit("NOW");
    reveal_strlit("SINCE");
    reveal_strlit("TEXT");
    reveal_strlit("ping");
    reveal_strlit("now");
    reveal_strlit("since");
    reveal_strlit("text");
    lemma_lower_letters();
    assert(lower("PING"@) =~= "ping"@);
    assert(lower("NOW"@) =~= "now"@);
    assert(lower("SINCE"@) =~= "since"@);
    assert(lower("TEXT"@) =~= "text"@);
    assert("ping"@.len() != "now"@.len());
    assert("ping"@.len() != "since"@.len());
    assert("now"@.len() != "since"@.len());
}

proof fn lemma_lower_letters()
    ensures
        forall|c: char| 'A' <= c <= 'Z' ==> #[trigger] crate::text::lower_char(c) as u32 == c as u32
            + 32,
{
}

/// **The page that is asked for**, whatever stands behind a question mark.
pub proof fn lemma_the_page_that_is_asked_for(w: Seq<Seq<char>>, path: Seq<char>, query: Seq<char>)
    requires
        forall|i: int| 0 <= i < path.len() ==> #[trigger] path[i] != '?',
    ensures
        w.len() >= 2 && w[0] == "GET"@ && (w[1] == path || w[1] == path + seq!['?'] + query) ==> {
            &&& path == "/metrics"@ ==> page_in(w) == Page::Metrics
            &&& path == "/"@ ==> page_in(w) == Page::Index
            &&& path != "/metrics"@ && path != "/"@ ==> page_in(w) == Page::NotFound
        },
        w.len() > 0 && w[0] != "GET"@ ==> page_in(w) == Page::NotAllowed,
        w.len() == 0 ==> page_in(w) == Page::NotAllowed,
{
    reveal_strlit("/metrics");
    reveal_strlit("/");
    assert("/metrics"@.len() != "/"@.len());
    if w.len() >= 2 && (w[1] == path || w[1] == path + seq!['?'] + query) {
        let s = w[1];
        lemma_find(s, '?');
        let k = find(s, '?') as int;
        let n = path.len() as int;
        if s == path {
            if k < n {
                assert(path[k] != '?');
            }
            assert(s.take(k) =~= path);
        } else {
            assert(s[n] == '?');
            if k < n {
                assert(s[k] == path[k]);
            }
            assert(s.take(n) =~= path);
        }
    }
}

/// **A page comes with its status, its type and its length in bytes.**
pub proof fn lemma_a_page_comes_with_its_length(metrics: Seq<char>)
    ensures
        response(Page::Metrics, metrics) == "HTTP/1.1 "@ + "200 OK"@ + "\r\nContent-Type: "@
            + "text/plain; version=0.0.4; charset=utf-8"@ + "\r\nContent-Length: "@ + decimal(
            encode_utf8(metrics).len(),
        ) + "\r\nConnection: close\r\n\r\n"@ + metrics,
        status_of(Page::Index) == "200 OK"@,
        status_of(Page::NotFound) == "404 Not Found"@,
        status_of(Page::NotAllowed) == "405 Method Not Allowed"@,
        type_of(Page::Index) == "text/html; charset=utf-8"@,
        body_of(Page::NotFound, metrics) == "not found\n"@,
        body_of(Page::NotAllowed, metrics) == "method not allowed\n"@,
{
}

/// The document of a call.
pub open spec fn calls(v: Value, method: Seq<char>) -> bool {
    match v {
        Value::Obj(m) => m.contains_key("method"@) && m["method"@] == Value::Str(method),
        _ => false,
    }
}

/// A number among the parameters of a call.
pub open spec fn parameter(v: Value, key: Seq<char>) -> Option<u64> {
    match v {
        Value::Obj(m) => if m.contains_key("parameters"@) {
            match m["parameters"@] {
                Value::Obj(p) => if p.contains_key(key) {
                    number_u64(p[key])
                } else {
                    None
                },
                _ => None,
            }
        } else {
            None
        },
        _ => None,
    }
}

/// **A call for stalls observes between a tenth of a second and a minute**, a
/// second where it does not say.
pub proof fn lemma_a_call_for_stalls(v: Value)
    requires
        calls(v, "dev.stallwatch.Monitor.GetStalls"@),
    ensures
        call_in(Ok(v)) matches Ok(CallView::GetStalls { window_ms }) && (match parameter(
            v,
            "window_ms"@,
        ) {
            None => window_ms == 1000,
            Some(n) => if n < 100 {
                window_ms == 100
            } else if n > 60_000 {
                window_ms == 60_000
            } else {
                window_ms == n
            },
        }),
{
    lemma_methods_differ();
}

/// **A call for history looks back between a second and a day**, and has to say.
pub proof fn lemma_a_call_for_history(v: Value)
    requires
        calls(v, "dev.stallwatch.Monitor.GetHistory"@),
    ensures
        parameter(v, "seconds"@) is None ==> call_in(Ok(v)) is Err,
        parameter(v, "seconds"@) matches Some(n) ==> (call_in(Ok(v)) matches Ok(
            CallView::GetHistory { seconds },
        ) && (if n < 1 {
            seconds == 1
        } else if n > 86_400 {
            seconds == 86_400
        } else {
            seconds == n
        })),
{
    lemma_methods_differ();
}

proof fn lemma_methods_differ()
    ensures
        "dev.stallwatch.Monitor.GetStalls"@ != "org.varlink.service.GetInfo"@,
        "dev.stallwatch.Monitor.GetStalls"@ != "org.varlink.service.GetInterfaceDescription"@,
        "dev.stallwatch.Monitor.GetHistory"@ != "org.varlink.service.GetInfo"@,
        "dev.stallwatch.Monitor.GetHistory"@ != "org.varlink.service.GetInterfaceDescription"@,
        "dev.stallwatch.Monitor.GetHistory"@ != "dev.stallwatch.Monitor.GetStalls"@,
{
    reveal_strlit("dev.stallwatch.Monitor.GetStalls");
    reveal_strlit("dev.stallwatch.Monitor.GetHistory");
    reveal_strlit("org.varlink.service.GetInfo");
    reveal_strlit("org.varlink.service.GetInterfaceDescription");
    assert("dev.stallwatch.Monitor.GetStalls"@[0] != "org.varlink.service.GetInfo"@[0]);
    assert("dev.stallwatch.Monitor.GetStalls"@[0]
        != "org.varlink.service.GetInterfaceDescription"@[0]);
    assert("dev.stallwatch.Monitor.GetHistory"@[0] != "org.varlink.service.GetInfo"@[0]);
    assert("dev.stallwatch.Monitor.GetHistory"@[0]
        != "org.varlink.service.GetInterfaceDescription"@[0]);
    assert("dev.stallwatch.Monitor.GetHistory"@.len() != "dev.stallwatch.Monitor.GetStalls"@.len());
}

/// **What is not known is refused by its interface or by its method**: by its
/// method where the interface is one of the two.
pub proof fn lemma_what_is_not_known_is_refused(iface: Seq<char>, name: Seq<char>)
    requires
        forall|i: int| 0 <= i < name.len() ==> #[trigger] name[i] != '.',
    ensures
        ({
            let method = iface + seq!['.'] + name;
            &&& iface == "dev.stallwatch.Monitor"@ || iface == "org.varlink.service"@ ==> unknown(
                method,
            ) == CallErrorView::UnknownMethod(method)
            &&& iface != "dev.stallwatch.Monitor"@ && iface != "org.varlink.service"@ ==> unknown(
                method,
            ) == CallErrorView::UnknownInterface(iface)
            &&& unknown(name) == CallErrorView::UnknownInterface(name)
        }),
{
    let s = iface + seq!['.'] + name;
    lemma_find_last(s, '.');
    lemma_find_last(name, '.');
    let at = find_last(s, '.') as int;
    let k = iface.len() as int;
    assert(s[k] == '.');
    if at > k + 1 {
        assert(s[at - 1] == name[at - 1 - k - 1]);
    }
    assert(at == k + 1);
    assert(s.take(k) =~= iface);
}

// ── where the socket is ────────────────────────────────────────────────

/// **A name in a directory**, with one slash between them.
pub proof fn lemma_a_name_in_a_directory(dir: Seq<char>, name: Seq<char>)
    ensures
        dir.len() > 0 && dir.last() != '/' ==> in_directory(dir, name) == dir + seq!['/'] + name
            && in_directory(dir + seq!['/'], name) == in_directory(dir, name),
{
    reveal_strlit("/");
    assert("/"@ =~= seq!['/']);
    let d = dir + seq!['/'];
    assert(d.last() == '/');
}

/// **The socket is in the runtime directory, else in `/tmp` under the user's
/// number.**
pub proof fn lemma_where_the_socket_is(dir: String, uid: u32)
    ensures
        dir@.len() > 0 ==> socket_place(Some(dir), uid) == in_directory(dir@, "stallwatch.sock"@),
        dir@.len() == 0 ==> socket_place(Some(dir), uid) == socket_place(None, uid),
        socket_place(None, uid) == "/tmp/stallwatch-"@ + decimal(uid as nat) + ".sock"@,
{
}

/// **The user is the first number on the line `Uid:`**, nobody's where there is
/// no such line.
pub proof fn lemma_the_user_is_on_the_line(status: String, k: int)
    requires
        0 <= k < lines(status@).len(),
        starts_with(lines(status@)[k], "Uid:"@),
        forall|j: int| 0 <= j < k ==> !starts_with(#[trigger] lines(status@)[j], "Uid:"@),
        words(lines(status@)[k]).len() >= 2,
    ensures
        uid_in(Some(status)) == (match parse_nat(
            words(lines(status@)[k])[1],
            10,
            0xffff_ffff,
        ) {
            Some(n) => n,
            None => 0,
        }),
{
    lemma_first_line(lines(status@), "Uid:"@, k);
}

proof fn lemma_first_line(l: Seq<Seq<char>>, p: Seq<char>, k: int)
    requires
        0 <= k < l.len(),
        starts_with(l[k], p),
        forall|j: int| 0 <= j < k ==> !starts_with(#[trigger] l[j], p),
    ensures
        line_with(l, p) == Some(l[k]),
    decreases l.len(),
{
    if k > 0 {
        let t = l.drop_first();
        assert(!starts_with(l[0], p));
        assert forall|j: int| 0 <= j < k - 1 implies !starts_with(#[trigger] t[j], p) by {
            assert(t[j] == l[j + 1]);
        }
        lemma_first_line(t, p, k - 1);
    }
}

// ── the command line ───────────────────────────────────────────────────

/// **A filter keeps what it matches**, in order, and nothing else.
pub proof fn lemma_a_filter_keeps_what_it_matches(e: Expr, s: Seq<Stall>)
    ensures
        matching_stalls(e, s) == s.filter(|x: Stall| holds(e, x)),
    decreases s.len(),
{
    reveal(Seq::filter);
    if s.len() > 0 {
        lemma_a_filter_keeps_what_it_matches(e, s.drop_last());
    }
}

/// Does no earlier stall belong to the same cgroup?
pub open spec fn first_of_its_cgroup(s: Seq<Stall>, k: int) -> bool {
    &&& 0 <= k < s.len()
    &&& forall|j: int| 0 <= j < k ==> (#[trigger] s[j]).cgroup@ != s[k].cgroup@
}

/// **The three worst cgroups are looked into**: the first stall of each, in
/// order, and all of them where there are not more.
pub proof fn lemma_the_three_worst_are_looked_into(s: Seq<Stall>, n: nat)
    requires
        n <= s.len() <= usize::MAX,
    ensures
        ({
            let t = targets_among(s, n);
            &&& t.len() <= 3
            &&& forall|a: int| 0 <= a < t.len() ==> first_of_its_cgroup(s, #[trigger] t[a] as int)
                && t[a] < n
            &&& forall|a: int, b: int| 0 <= a < b < t.len() ==> #[trigger] t[a] < #[trigger] t[b]
            &&& forall|k: int| #[trigger]
                first_of_its_cgroup(s, k) && k < n && (t.len() < 3 || k < t[2]) ==> t.contains(
                    k as usize,
                )
        }),
    decreases n,
{
    if n > 0 {
        let m = n - 1;
        let before = targets_among(s, m as nat);
        let t = targets_among(s, n);
        lemma_the_three_worst_are_looked_into(s, m as nat);
        assert(first_of_its_cgroup(s, m) == !stalls_before(s, m, s[m].cgroup@));
        assert forall|k: int| #[trigger]
            first_of_its_cgroup(s, k) && k < n && (t.len() < 3 || k < t[2]) implies t.contains(
            k as usize,
        ) by {
            if k < m {
                if before.len() < 3 || k < before[2] {
                    assert(before.contains(k as usize));
                    let x = choose|x: int| 0 <= x < before.len() && before[x] == k as usize;
                    assert(t[x] == before[x]);
                } else {
                    assert(t == before);
                }
            } else {
                if before.len() < 3 {
                    assert(t[before.len() as int] == m as usize);
                } else {
                    assert(t == before);
                    assert(before[2] < m);
                }
            }
        }
    }
}

/// **What an option takes.** A value behind an option that takes one is not
/// looked at, nor is what does not begin with a dash; the first other word that
/// is not an option is the unknown one.
pub proof fn lemma_the_first_unknown_option(a: Seq<char>, v: Seq<char>, rest: Seq<Seq<char>>)
    ensures
        a == "--window"@ || a == "--since"@ || a == "--filter"@ || a == "-n"@ ==> first_unknown(
            seq![a, v] + rest,
        ) == first_unknown(rest),
        a.len() > 0 && a[0] != '-' && !takes_value(a) ==> first_unknown(seq![a] + rest)
            == first_unknown(rest),
        (a == "--json"@ || a == "--watch"@ || a == "--processes"@ || a == "--fields"@ || a
            == "--explain"@ || a == "--help"@ || a == "-h"@ || a == "--version"@ || a == "-V"@)
            && !takes_value(a) ==> first_unknown(seq![a] + rest) == first_unknown(rest),
        a.len() > 0 && a[0] == '-' && !takes_value(a) && !stands_alone(a) ==> first_unknown(
            seq![a] + rest,
        ) == Some(a),
        first_unknown(seq![]) is None,
{
    let two = seq![a, v] + rest;
    let one = seq![a] + rest;
    assert(two.skip(2) =~= rest);
    assert(one.skip(1) =~= rest);
    assert(two[0] == a && one[0] == a);
    assert(two.len() >= 2);
}

/// **The flags that were given are noted**, each at its setting.
pub proof fn lemma_the_flags_given_are_noted(s: Settings, a: Seq<Seq<char>>)
    ensures
        ({
            let r = flags_noted(s, a);
            &&& r.threshold_ms == (s.threshold_ms.0, if a.contains("--threshold"@) {
                Source::Flag("--threshold"@)
            } else {
                s.threshold_ms.1
            })
            &&& r.capture_ms == (s.capture_ms.0, if a.contains("--capture"@) {
                Source::Flag("--capture"@)
            } else {
                s.capture_ms.1
            })
            &&& r.history_secs == (s.history_secs.0, if a.contains("--history"@) {
                Source::Flag("--history"@)
            } else {
                s.history_secs.1
            })
            &&& r.resources == s.resources
            &&& r.notify_enabled == s.notify_enabled
            &&& r.notify_min_peak == s.notify_min_peak
            &&& r.notify_cooldown_secs == s.notify_cooldown_secs
            &&& r.rules == s.rules
            &&& r.loaded == s.loaded
        }),
{
    reveal_strlit("threshold_ms");
    reveal_strlit("capture_ms");
    reveal_strlit("history_secs");
    assert("threshold_ms"@[0] != "capture_ms"@[0]);
    assert("threshold_ms"@[0] != "history_secs"@[0]);
    assert("capture_ms"@[0] != "history_secs"@[0]);
}

/// **How far two spans are apart**, whichever is longer.
pub proof fn lemma_how_far_apart(a: Span, b: Span)
    ensures
        a.total_nanos() >= b.total_nanos() ==> apart(a, b) + b.total_nanos() == a.total_nanos(),
        a.total_nanos() < b.total_nanos() ==> apart(a, b) + a.total_nanos() == b.total_nanos(),
{
}

/// **The two calls that every service answers.**
pub proof fn lemma_the_calls_that_every_service_answers(v: Value)
    ensures
        calls(v, "org.varlink.service.GetInfo"@) ==> call_in(Ok(v)) == Ok::<
            CallView,
            CallErrorView,
        >(CallView::GetInfo),
        v is Obj && !(v->Obj_0).contains_key("method"@) ==> call_in(Ok(v)) is Err,
        !(v is Obj) ==> call_in(Ok(v)) is Err,
{
}

/// **A call of anything else is refused.**
pub proof fn lemma_a_call_of_anything_else_is_refused(v: Value, method: Seq<char>)
    requires
        calls(v, method),
        method != "org.varlink.service.GetInfo"@,
        method != "org.varlink.service.GetInterfaceDescription"@,
        method != "dev.stallwatch.Monitor.GetStalls"@,
        method != "dev.stallwatch.Monitor.GetHistory"@,
    ensures
        call_in(Ok(v)) == Err::<CallView, CallErrorView>(unknown(method)),
{
}

/// **Any other word that begins with a dash is unknown.**
pub proof fn lemma_any_other_dash_is_unknown(a: Seq<char>, rest: Seq<Seq<char>>)
    requires
        a.len() > 0,
        a[0] == '-',
        a != "--window"@ && a != "--since"@ && a != "--filter"@ && a != "-n"@,
        a != "-h"@ && a != "--help"@ && a != "-V"@ && a != "--version"@ && a != "--fields"@,
        a != "--json"@ && a != "--watch"@ && a != "--processes"@ && a != "--explain"@,
    ensures
        first_unknown(seq![a] + rest) == Some(a),
{
    let one = seq![a] + rest;
    assert(one[0] == a);
}

} // verus!
