//! Which sentence is said when.

use vstd::prelude::*;

use crate::cli::{
    Inside, doing, drill_page, found_any, inside_text, matching_warnings, shows_warning,
};
use crate::config::{Source, source_text, was_read};
use crate::daemon::{StepView, rendered, step_for};
use crate::decimal::fixed;
use crate::doctor::{Outcome, Status, check_text, cost, indented, wrapped};
use crate::filter::{Expr, holds};
use crate::float::{difference, one, quotient, whole};
use crate::incident::{
    Culprit, Incident, condition, conditions, duration_text, ago_text, also, bystanders,
    first_cause, opening, since, verdict, bytes_said,
};
use crate::ipc::Format;
use crate::json;
use crate::laws::numbers::lemma_quotient_is_true;
use crate::notify::{blame, first_transient, reassurance};
use crate::path::normal;
use crate::pathology::{Severity, Warning};
use crate::report::{
    Cause, Report, Role, Stall, bytes_text, causes_part, first_nameable, other_movers, peak_text,
    qualifier, root_part, warning_text,
};
use crate::text::{decimal, join, pad_right, trim};
use crate::varlink::{
    CallErrorView, CallView, call_in, error_text, refusal_text, description_text, info_text,
};

verus! {

/// **How a role is told of the biggest mover.**
pub proof fn lemma_how_a_role_is_told(c: Cause)
    ensures
        c.role == Role::Cause ==> qualifier(c) == "and was barely blocked itself ("@ + fixed(
            c.pressure_pct,
            0,
        ) + "%)"@,
        c.role == Role::Active ==> qualifier(c) == "and was contended too ("@ + fixed(
            c.pressure_pct,
            0,
        ) + "%), so it is competing rather than simply winning"@,
        c.role == Role::Victim ==> qualifier(c)
            == "but was mostly blocked, so it is likely a casualty too"@,
        doing(Role::Cause) == "causing"@,
        doing(Role::Victim) == "waiting"@,
        doing(Role::Active) == "active "@,
{
}

/// **The biggest mover that can be named is told first**, and nothing is told of
/// the work where there is none.
pub proof fn lemma_the_biggest_mover_is_told(causes: Seq<Cause>, top: Cause)
    ensures
        first_nameable(causes) is None ==> causes_part(causes) == ""@,
        first_nameable(causes) == Some(top) && other_movers(causes, top.cgroup@).len() == 0
            ==> causes_part(causes) == "\n  most of the IO: "@ + top.unit@ + " moved "@
            + bytes_text(top.moved() as nat) + " "@ + qualifier(top) + "\n"@ + ""@ + root_part(
            causes,
            top,
        ),
        first_nameable(causes) == Some(top) && other_movers(causes, top.cgroup@).len() > 0
            ==> causes_part(causes) == "\n  most of the IO: "@ + top.unit@ + " moved "@
            + bytes_text(top.moved() as nat) + " "@ + qualifier(top) + "\n"@ + (
        "  also moving data: "@ + join(other_movers(causes, top.cgroup@), ", "@) + "\n"@)
            + root_part(causes, top),
{
}

/// **A warning is marked by how bad it is and whether it passes.**
pub proof fn lemma_a_warning_is_marked(w: Warning)
    ensures
        warning_text(w) == "\n  "@ + (if w.severity == Severity::Critical {
            "!!"@
        } else if w.severity == Severity::Warn {
            " !"@
        } else {
            " \u{b7}"@
        }) + " "@ + w.source@ + (if w.transient {
            " [transient]"@
        } else {
            ""@
        }) + ": "@ + w.message@ + "\n"@,
{
}

/// **The worst tick is told when it is more than half a percent above the
/// average.**
pub proof fn lemma_the_worst_tick_is_told(s: Stall)
    requires
        s.peak_pct.is_finite(),
        s.pressure_pct.is_finite(),
        !difference(s.peak_pct, s.pressure_pct).is_nan(),
    ensures
        100_000 * (difference(s.peak_pct, s.pressure_pct).value() * 2) > 100_001 * one()
            ==> peak_text(s) == "   (worst tick "@ + fixed(s.peak_pct, 0) + "%)"@,
        100_001 * (difference(s.peak_pct, s.pressure_pct).value() * 2) < 100_000 * one()
            ==> peak_text(s) == ""@,
{
    lemma_quotient_is_true(1, 2);
    let h = quotient(whole(1), whole(2));
    assert(1 * one() == one());
}

/// **Whom an explanation blames.** The first cause among the processes; else that
/// nothing can be pointed at, where processes were seen at all.
pub proof fn lemma_whom_an_explanation_blames(c: Seq<Culprit>)
    ensures
        first_cause(c) matches Some(p) ==> verdict(c) == "  It was the victim, not the cause: "@
            + p.comm@ + " ["@ + decimal(p.pid as nat) + "] moved "@ + bytes_said(p.bytes as nat)
            + " through the same queue.\n"@,
        first_cause(c) is None && c.len() > 0 ==> verdict(c)
            == "  No process inside it was moving data, so the work was kernel-side rather\n  than something you can point at.\n"@,
        c.len() == 0 ==> verdict(c) == ""@,
{
}

/// **Each condition is told on a line of its own**, in order, and that it clears
/// itself where it does.
pub proof fn lemma_each_condition_is_told(w: Seq<Warning>, n: nat)
    requires
        n < w.len(),
    ensures
        conditions(w, n + 1) == conditions(w, n) + condition(w[n as int]),
        conditions(w, 0) == Seq::<char>::empty(),
        condition(w[n as int]) == "\n  "@ + w[n as int].source@ + ": "@ + opening(
            w[n as int].message@,
        ) + (if w[n as int].transient {
            " That part clears itself."@
        } else {
            ""@
        }) + "\n"@,
{
}

/// **Others that stalled are told on one line**, where there are any.
pub proof fn lemma_others_that_stalled_are_told(s: Seq<Stall>)
    ensures
        s.len() <= 1 ==> also(s) == ""@,
        s.len() > 1 ==> also(s) == "  Also stalled: "@ + join(bystanders(s), ", "@) + ".\n"@,
{
}

/// **What an explanation says**: how long and when, what was blocked and on what,
/// whom to blame, what else stalled and why.
#[verifier::rlimit(50)]
pub proof fn lemma_what_an_explanation_says(i: Incident, now: u64)
    ensures
        i.stalls@.len() == 0 ==> i.paragraph(now)
            == "Nothing was recorded. The machine has not stalled since this started watching.\n"@,
        i.stalls@.len() > 0 ==> i.paragraph(now) == "Your machine froze for "@ + duration_text(
            quotient(crate::report::milliseconds(i.stalls@[0].delta_usec), whole(1000)),
        ) + ", "@ + ago_text(since(now, i.at_unix)) + ".\n\n  "@ + i.stalls@[0].unit@
            + " was blocked on "@ + i.stalls@[0].resource.name() + " for "@ + fixed(
            i.stalls@[0].pressure_pct,
            0,
        ) + "% of that window.\n"@ + verdict(i.culprits@) + also(i.stalls@) + conditions(
            i.warnings@,
            i.warnings@.len(),
        ),
{
}

/// **Whom a notice blames**, and that what is busy clears itself.
pub proof fn lemma_whom_a_notice_blames(i: Incident, name: Seq<char>)
    ensures
        first_nameable(i.causes@) matches Some(c) ==> blame(i, name) == " Most of the "@
            + i.stalls@[0].resource.name() + " came from "@ + name + " ("@ + bytes_text(
            c.moved() as nat,
        ) + ")."@,
        first_nameable(i.causes@) is None ==> blame(i, name) == " "@ + name
            + " took the worst of it, but the work is kernel-side and cannot be traced to a program."@,
        first_transient(i.warnings@) matches Some(w) ==> reassurance(i.warnings@) == " "@ + w.source@
            + " is busy but clears itself."@,
        first_transient(i.warnings@) is None ==> reassurance(i.warnings@) == ""@,
{
}

/// **A check is told with its mark, its name and its detail**, and with what it
/// costs where it is not available.
pub proof fn lemma_how_a_check_is_told(c: Outcome)
    ensures
        check_text(c) == "  "@ + (if c.status == Status::Available {
            "\u{2713}"@
        } else if c.status == Status::Degraded {
            "!"@
        } else {
            "\u{2717}"@
        }) + " "@ + pad_right(c.name, 26) + " "@ + c.detail + "\n"@ + cost(c),
        c.status == Status::Available || c.consequence.len() == 0 ==> cost(c)
            == Seq::<char>::empty(),
        c.status != Status::Available && c.consequence.len() > 0 ==> cost(c) == indented(
            wrapped(c.consequence, 74),
            wrapped(c.consequence, 74).len(),
        ),
{
}

/// **Where a setting comes from is told by the file, the variable or the flag.**
pub proof fn lemma_how_a_source_is_told(name: Seq<char>)
    ensures
        source_text(Source::Default) == "built-in default"@,
        source_text(Source::File(name)) == name,
        source_text(Source::Env(name)) == "$"@ + name,
        source_text(Source::Flag(name)) == "command line "@ + name,
{
}

/// **A file counts as read under any spelling of its path.**
pub proof fn lemma_a_file_counts_as_read(loaded: Seq<Seq<char>>, path: Seq<char>, k: int)
    requires
        0 <= k < loaded.len(),
        normal(loaded[k]) == normal(path),
    ensures
        was_read(loaded, path),
        !was_read(seq![], path),
{
    assert(normal(loaded[k]) == normal(path));
}

/// **A report comes in the format that was asked for.**
pub proof fn lemma_a_report_comes_as_asked(r: Report)
    ensures
        rendered(r, Format::Json) == r.json(),
        rendered(r, Format::Text) == r.text(),
{
}

/// **What is wrong with a call has a name**, and what it is wrong about goes with
/// it.
pub proof fn lemma_what_is_wrong_with_a_call(t: Seq<char>)
    ensures
        refusal_text(CallErrorView::Malformed(t)) == error_text(
            "org.varlink.service.InvalidParameter"@,
            "{\"parameter\":"@ + crate::report::json_text(t) + "}"@,
        ),
        refusal_text(CallErrorView::UnknownMethod(t)) == error_text(
            "org.varlink.service.MethodNotFound"@,
            "{\"method\":"@ + crate::report::json_text(t) + "}"@,
        ),
        refusal_text(CallErrorView::UnknownInterface(t)) == error_text(
            "org.varlink.service.InterfaceNotFound"@,
            "{\"interface\":"@ + crate::report::json_text(t) + "}"@,
        ),
{
}

/// **How a frame is answered.** An empty one closes, one that is no text is the
/// last, a call is done, and anything else is refused without closing.
pub proof fn lemma_how_a_frame_is_answered(t: Seq<char>)
    ensures
        step_for(None) is Last,
        trim(t).len() == 0 ==> step_for(Some(t)) == StepView::Close,
        trim(t).len() > 0 ==> (match call_in(json::document(t)) {
            Ok(CallView::GetInfo) => step_for(Some(t)) == StepView::Reply(info_text()),
            Ok(CallView::GetInterfaceDescription(i)) => step_for(Some(t)) == StepView::Reply(
                if i == "dev.stallwatch.Monitor"@ {
                    description_text()
                } else {
                    refusal_text(CallErrorView::UnknownInterface(i))
                },
            ),
            Ok(CallView::GetStalls { window_ms }) => step_for(Some(t)) == StepView::Observe(
                window_ms,
            ),
            Ok(CallView::GetHistory { seconds }) => step_for(Some(t)) == StepView::History(seconds),
            Err(e) => step_for(Some(t)) == StepView::Reply(refusal_text(e)),
        }),
{
}

/// **A filter keeps the warnings that it matches.**
pub proof fn lemma_a_filter_keeps_the_warnings_it_matches(e: Expr, w: Seq<Warning>)
    ensures
        matching_warnings(e, w) == w.filter(|x: Warning| holds(e, x)),
    decreases w.len(),
{
    reveal(Seq::filter);
    if w.len() > 0 {
        lemma_a_filter_keeps_the_warnings_it_matches(e, w.drop_last());
        assert(shows_warning(e, w.last()) == holds(e, w.last()));
    }
}

/// **What was found inside the units**, and what is said where nothing was.
pub proof fn lemma_what_was_found_inside(v: Seq<Inside>)
    ensures
        v.len() == 0 ==> drill_page(v, true) == Seq::<char>::empty(),
        v.len() > 0 && (forall|k: int| 0 <= k < v.len() ==> (#[trigger] v[k]).culprits@.len() == 0)
            ==> drill_page(v, true)
            == "\n  no process caught blocking or doing disk IO in a follow-up window\n  (the stall may have ended, or the work is kernel-side — see any\n   transient warning above)\n"@,
        (exists|k: int| 0 <= k < v.len() && (#[trigger] v[k]).culprits@.len() > 0) ==> drill_page(
            v,
            true,
        ) == inside_text(v, v.len()) + ""@ && drill_page(v, false) == inside_text(v, v.len())
            + "    (exact blocking time needs delay accounting: sudo sysctl -w kernel.task_delayacct=1)\n"@,
{
    if exists|k: int| 0 <= k < v.len() && (#[trigger] v[k]).culprits@.len() > 0 {
        assert(found_any(v));
    }
}

} // verus!
