//! Varlink service interface.
//!
//! Varlink is JSON objects separated by NUL bytes over a Unix socket. No auth
//! handshake, no type marshalling, no dependency, and `varlinkctl` is present
//! on stock Fedora, so this makes stallwatch queryable by a standard tool:
//!
//! ```text
//! varlinkctl call $XDG_RUNTIME_DIR/stallwatch.varlink \
//!     dev.stallwatch.Monitor.GetStalls '{"seconds":30}'
//! ```
//!
//! # Protocol
//!
//! Request:  `{"method":"iface.Method","parameters":{…}}\0`
//! Reply:    `{"parameters":{…}}\0`
//! Error:    `{"error":"iface.ErrorName","parameters":{…}}\0`
//!
//! `org.varlink.service.GetInfo` and `.GetInterfaceDescription` are mandatory
//! for any conforming service — that is what makes introspection work.

use vstd::prelude::*;
use vstd::slice::slice_subrange;

use crate::json::{Json, Value, document, number_u64, value_of};
use crate::json;
use crate::report::{Report, json_str, json_text};
use crate::text::{copy_text, find_last, from_chars, is_text, position_last, same_text, to_chars};

verus! {

pub const INTERFACE: &'static str = "dev.stallwatch.Monitor";

/// The version that the service reports.
pub const VERSION: &'static str = "0.2.2";

/// The interface definition, served verbatim by GetInterfaceDescription.
///
/// Field names match the JSON schema of a report, which in turn tracks the
/// `container_pressure_*` vocabulary cAdvisor and Kubernetes settled on.
pub const INTERFACE_DESCRIPTION: &'static str = "interface dev.stallwatch.Monitor\n\n# One unit's stall over one observation window.\ntype Stall (\n  unit: string,\n  cgroup: string,\n  resource: string,\n  type: string,\n  delta_usec: int,\n  pressure_pct: float,\n  # Worst single sampling tick in the window. On aggregated history this is\n  # the signal that survives averaging; a 2s freeze inside 60s averages away.\n  peak_pct: float\n)\n\n# A system condition explaining stalls the pressure numbers alone cannot.\ntype Warning (\n  source: string,\n  severity: string,\n  # True when the condition clears without intervention.\n  transient: bool,\n  message: string\n)\n\n# Sample the system live over a window. Blocks for the duration.\nmethod GetStalls(window_ms: ?int) -> (\n  window_usec: int,\n  stalls: []Stall,\n  warnings: []Warning\n)\n\n# What happened over the last N seconds, from recorded history.\nmethod GetHistory(seconds: int) -> (\n  window_usec: int,\n  stalls: []Stall,\n  warnings: []Warning\n)\n\n# No history covering the requested window.\nerror NoHistory(seconds: int)\n\n# The kernel exposes no PSI (needs CONFIG_PSI=y, possibly psi=1).\nerror NoPressureStallInformation()\n";

/// A parsed Varlink request.
#[derive(Debug, PartialEq)]
pub enum Call {
    GetInfo,
    GetInterfaceDescription(String),
    GetStalls { window_ms: u64 },
    GetHistory { seconds: u64 },
}

#[derive(Debug, PartialEq)]
pub enum CallError {
    Malformed(&'static str),
    UnknownMethod(String),
    UnknownInterface(String),
}

/// A request as a value to compare with.
pub enum CallView {
    GetInfo,
    GetInterfaceDescription(Seq<char>),
    GetStalls { window_ms: u64 },
    GetHistory { seconds: u64 },
}

/// A refusal as a value to compare with.
pub enum CallErrorView {
    Malformed(Seq<char>),
    UnknownMethod(Seq<char>),
    UnknownInterface(Seq<char>),
}

impl View for Call {
    type V = CallView;

    open spec fn view(&self) -> CallView {
        match self {
            Call::GetInfo => CallView::GetInfo,
            Call::GetInterfaceDescription(s) => CallView::GetInterfaceDescription(s@),
            Call::GetStalls { window_ms } => CallView::GetStalls { window_ms: *window_ms },
            Call::GetHistory { seconds } => CallView::GetHistory { seconds: *seconds },
        }
    }
}

impl View for CallError {
    type V = CallErrorView;

    open spec fn view(&self) -> CallErrorView {
        match self {
            CallError::Malformed(s) => CallErrorView::Malformed(s@),
            CallError::UnknownMethod(s) => CallErrorView::UnknownMethod(s@),
            CallError::UnknownInterface(s) => CallErrorView::UnknownInterface(s@),
        }
    }
}

/// The member of an object.
pub open spec fn member(v: Value, key: Seq<char>) -> Option<Value> {
    match v {
        Value::Obj(m) => if m.contains_key(key) {
            Some(m[key])
        } else {
            None
        },
        _ => None,
    }
}

/// The member of an object that may not be there.
pub open spec fn member_of(v: Option<Value>, key: Seq<char>) -> Option<Value> {
    match v {
        Some(v) => member(v, key),
        None => None,
    }
}

/// The text in a value.
pub open spec fn text_of(v: Option<Value>) -> Option<Seq<char>> {
    match v {
        Some(Value::Str(s)) => Some(s),
        _ => None,
    }
}

/// The number in a value.
pub open spec fn count_of(v: Option<Value>) -> Option<u64> {
    match v {
        Some(v) => number_u64(v),
        None => None,
    }
}

/// A number held between two others.
pub open spec fn held(n: u64, low: u64, high: u64) -> u64 {
    if n < low {
        low
    } else if n > high {
        high
    } else {
        n
    }
}

/// What is wrong with a method that is none of ours. An unknown interface is
/// told apart from an unknown method on a known one, and clients rely on the
/// difference.
pub open spec fn unknown(method: Seq<char>) -> CallErrorView {
    let at = find_last(method, '.') as int;
    if at == 0 {
        CallErrorView::UnknownInterface(method)
    } else {
        let iface = method.take(at - 1);
        if iface == INTERFACE@ || iface == "org.varlink.service"@ {
            CallErrorView::UnknownMethod(method)
        } else {
            CallErrorView::UnknownInterface(iface)
        }
    }
}

/// The request in a document.
///
/// A hostile client must not be able to make the service block for an hour, so
/// windows and spans are held between bounds.
pub open spec fn call_in(doc: Result<Value, Seq<char>>) -> Result<CallView, CallErrorView> {
    match doc {
        Err(why) => Err(CallErrorView::Malformed(why)),
        Ok(v) => match text_of(member(v, "method"@)) {
            None => Err(CallErrorView::Malformed("missing \"method\""@)),
            Some(method) => {
                let params = member(v, "parameters"@);
                if method == "org.varlink.service.GetInfo"@ {
                    Ok(CallView::GetInfo)
                } else if method == "org.varlink.service.GetInterfaceDescription"@ {
                    match text_of(member_of(params, "interface"@)) {
                        None => Err(CallErrorView::Malformed("missing \"interface\""@)),
                        Some(i) => Ok(CallView::GetInterfaceDescription(i)),
                    }
                } else if method == "dev.stallwatch.Monitor.GetStalls"@ {
                    let ms = match count_of(member_of(params, "window_ms"@)) {
                        None => 1000u64,
                        Some(n) => n,
                    };
                    Ok(CallView::GetStalls { window_ms: held(ms, 100, 60_000) })
                } else if method == "dev.stallwatch.Monitor.GetHistory"@ {
                    match count_of(member_of(params, "seconds"@)) {
                        None => Err(CallErrorView::Malformed("missing \"seconds\""@)),
                        Some(n) => Ok(CallView::GetHistory { seconds: held(n, 1, 86_400) }),
                    }
                } else {
                    Err(unknown(method))
                }
            },
        },
    }
}

fn hold(n: u64, low: u64, high: u64) -> (r: u64)
    ensures
        r == held(n, low, high),
{
    if n < low {
        low
    } else if n > high {
        high
    } else {
        n
    }
}

fn refuse(method: &str) -> (r: CallError)
    ensures
        r@ == unknown(method@),
{
    let chars: Vec<char> = to_chars(method);
    let at: usize = position_last(&chars, '.');
    if at == 0 {
        return CallError::UnknownInterface(copy_text(method));
    }
    let iface: &[char] = slice_subrange(chars.as_slice(), 0, at - 1);
    assert(iface@ =~= method@.take(at - 1));
    if is_text(iface, INTERFACE) || is_text(iface, "org.varlink.service") {
        CallError::UnknownMethod(copy_text(method))
    } else {
        CallError::UnknownInterface(from_chars(iface))
    }
}

/// The number in a parameter.
fn count_param(params: Option<&Json>, key: &str) -> (r: Option<u64>)
    ensures
        r == count_of(
            member_of(
                match params {
                    Some(p) => Some(value_of(*p)),
                    None => None,
                },
                key@,
            ),
        ),
{
    match params {
        None => None,
        Some(p) => match p.get(key) {
            None => None,
            Some(v) => v.as_u64(),
        },
    }
}

/// What a result of reading a request says.
pub open spec fn shown(r: Result<Call, CallError>) -> Result<CallView, CallErrorView> {
    match r {
        Ok(c) => Ok(c@),
        Err(e) => Err(e@),
    }
}

/// Parse one Varlink request frame (NUL already stripped).
pub fn parse_call(frame: &str) -> (r: Result<Call, CallError>)
    ensures
        shown(r) == call_in(document(frame@)),
{
    let v: Json = match json::parse(frame) {
        Ok(v) => v,
        Err(why) => return Err(CallError::Malformed(why)),
    };
    let method: &str = match v.get("method") {
        None => return Err(CallError::Malformed("missing \"method\"")),
        Some(m) => match m.as_str() {
            None => return Err(CallError::Malformed("missing \"method\"")),
            Some(s) => s,
        },
    };
    let params: Option<&Json> = v.get("parameters");
    if same_text(method, "org.varlink.service.GetInfo") {
        return Ok(Call::GetInfo);
    }
    if same_text(method, "org.varlink.service.GetInterfaceDescription") {
        if let Some(p) = params {
            if let Some(i) = p.get("interface") {
                if let Some(s) = i.as_str() {
                    return Ok(Call::GetInterfaceDescription(copy_text(s)));
                }
            }
        }
        return Err(CallError::Malformed("missing \"interface\""));
    }
    if same_text(method, "dev.stallwatch.Monitor.GetStalls") {
        let ms: u64 = match count_param(params, "window_ms") {
            Some(n) => n,
            None => 1000,
        };
        return Ok(Call::GetStalls { window_ms: hold(ms, 100, 60_000) });
    }
    if same_text(method, "dev.stallwatch.Monitor.GetHistory") {
        return match count_param(params, "seconds") {
            None => Err(CallError::Malformed("missing \"seconds\"")),
            Some(n) => Ok(Call::GetHistory { seconds: hold(n, 1, 86_400) }),
        };
    }
    Err(refuse(method))
}

// ── replies ────────────────────────────────────────────────────────────

/// What the service says of itself.
pub open spec fn info_text() -> Seq<char> {
    "{\"parameters\":{\"vendor\":\"stallwatch\",\"product\":\"stallwatch\",\"version\":"@
        + json_text(VERSION@)
        + ",\"url\":\"https://github.com/varbees/stallwatch\",\"interfaces\":[\"org.varlink.service\",\""@
        + INTERFACE@ + "\"]}}"@
}

pub fn reply_info() -> (r: String)
    ensures
        r@ == info_text(),
{
    let mut o: String = copy_text(
        "{\"parameters\":{\"vendor\":\"stallwatch\",\"product\":\"stallwatch\",\"version\":",
    );
    o.push_str(json_str(VERSION).as_str());
    o.push_str(
        ",\"url\":\"https://github.com/varbees/stallwatch\",\"interfaces\":[\"org.varlink.service\",\"",
    );
    o.push_str(INTERFACE);
    o.push_str("\"]}}");
    o
}

/// The interface definition as a reply.
pub open spec fn description_text() -> Seq<char> {
    "{\"parameters\":{\"description\":"@ + json_text(INTERFACE_DESCRIPTION@) + "}}"@
}

pub fn reply_interface_description() -> (r: String)
    ensures
        r@ == description_text(),
{
    let mut o: String = copy_text("{\"parameters\":{\"description\":");
    o.push_str(json_str(INTERFACE_DESCRIPTION).as_str());
    o.push_str("}}");
    o
}

/// A report as Varlink reply parameters. The same writer as for the JSON
/// schema, so both surfaces stay identical by construction.
pub fn reply_report(r: &Report) -> (s: String)
    ensures
        s@ == "{\"parameters\":"@ + r.json_compact() + "}"@,
{
    let mut o: String = copy_text("{\"parameters\":");
    o.push_str(r.to_json_compact().as_str());
    o.push_str("}");
    o
}

/// An error reply.
pub open spec fn error_text(name: Seq<char>, params: Seq<char>) -> Seq<char> {
    "{\"error\":"@ + json_text(name) + ",\"parameters\":"@ + params + "}"@
}

pub fn reply_error(name: &str, params: &str) -> (r: String)
    ensures
        r@ == error_text(name@, params@),
{
    let mut o: String = copy_text("{\"error\":");
    o.push_str(json_str(name).as_str());
    o.push_str(",\"parameters\":");
    o.push_str(params);
    o.push_str("}");
    o
}

/// What a refused request is answered.
pub open spec fn refusal_text(e: CallErrorView) -> Seq<char> {
    match e {
        CallErrorView::Malformed(why) => error_text(
            "org.varlink.service.InvalidParameter"@,
            "{\"parameter\":"@ + json_text(why) + "}"@,
        ),
        CallErrorView::UnknownMethod(m) => error_text(
            "org.varlink.service.MethodNotFound"@,
            "{\"method\":"@ + json_text(m) + "}"@,
        ),
        CallErrorView::UnknownInterface(i) => error_text(
            "org.varlink.service.InterfaceNotFound"@,
            "{\"interface\":"@ + json_text(i) + "}"@,
        ),
    }
}

pub fn error_for(e: &CallError) -> (r: String)
    ensures
        r@ == refusal_text(e@),
{
    match e {
        CallError::Malformed(why) => {
            let mut p: String = copy_text("{\"parameter\":");
            p.push_str(json_str(why).as_str());
            p.push_str("}");
            reply_error("org.varlink.service.InvalidParameter", p.as_str())
        },
        CallError::UnknownMethod(m) => {
            let mut p: String = copy_text("{\"method\":");
            p.push_str(json_str(m.as_str()).as_str());
            p.push_str("}");
            reply_error("org.varlink.service.MethodNotFound", p.as_str())
        },
        CallError::UnknownInterface(i) => {
            let mut p: String = copy_text("{\"interface\":");
            p.push_str(json_str(i.as_str()).as_str());
            p.push_str("}");
            reply_error("org.varlink.service.InterfaceNotFound", p.as_str())
        },
    }
}

/// No request, however hostile, makes the service block or look back beyond
/// its bounds.
pub proof fn lemma_calls_are_bounded(doc: Result<Value, Seq<char>>)
    ensures
        call_in(doc) matches Ok(CallView::GetStalls { window_ms }) ==> 100 <= window_ms <= 60_000,
        call_in(doc) matches Ok(CallView::GetHistory { seconds }) ==> 1 <= seconds <= 86_400,
{
}

} // verus!
