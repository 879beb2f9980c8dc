//! The log gives back what was written to it.
//!
//! An incident is appended to the log as one line of JSON, and read again from
//! that line when somebody asks what happened. Percentages are kept to their
//! places and counts to the precision of a double; everything else comes back
//! as it was.

use vstd::arithmetic::div_mod::lemma_div_by_multiple;
use vstd::arithmetic::power2::lemma_pow2_pos;
use vstd::prelude::*;

use crate::decimal::fixed;
use crate::float::{lemma_whole_exact, lemma_whole_positive, lemma_whole_zero, one, whole};
use crate::incident::{
    Accused, Culprit, Incident, Record, culprit_json, culprit_jsons, log_text, log_texts,
};
use crate::json::{Value, document, number_u64};
use crate::oneline::{
    lemma_decimal_is_unbroken, lemma_fixed_is_unbroken, lemma_join_is_unbroken,
    lemma_json_text_is_unbroken, lemma_lines_behind, lemma_log_text_is_unbroken, lemma_single_line,
    lemma_unbroken_both, unbroken,
};
use crate::pathology::{Severity, Warning, findings};
use crate::psi::{PsiKind, Resource};
use crate::ranking::StallView;
use crate::report::{
    Cause, Report, Role, Stall, cause_json, cause_jsons, flag_text, json_text, members_json,
    stall_json, stall_jsons, warning_json, warning_jsons,
};
use crate::text::{decimal, is_space, join, lines, trim, trim_start};
use crate::wellformed::{
    bracketed, kept_places, key_mark, lemma_add, lemma_add_word, lemma_array_says, lemma_assoc,
    lemma_decimal_reads_back, lemma_fixed_reads_back, lemma_flag_reads_back,
    lemma_json_text_reads_back, lemma_log_text_reads_back, lemma_object_says, lemma_open,
    lemma_rebracket, lemma_requote, lemma_says_document, opens, plain, quoted, says,
};
use crate::why::{
    culprit_in, incident_in, items_under, recorded, stall_in, stands_on, u64_under, warning_in,
};

verus! {

/// Are the figures of a stall numbers that can be written down?
pub open spec fn finite_stall(s: Stall) -> bool {
    s.pressure_pct.is_finite() && s.peak_pct.is_finite()
}

/// What a stall in the log reads as.
pub open spec fn stall_value(s: Stall) -> Value {
    Value::Obj(
        Map::<Seq<char>, Value>::empty()
            .insert("unit"@, Value::Str(s.unit@))
            .insert("cgroup"@, Value::Str(s.cgroup@))
            .insert("resource"@, Value::Str(s.resource.name()))
            .insert("type"@, Value::Str(s.kind.name()))
            .insert("delta_usec"@, Value::Num(whole(s.delta_usec as int)))
            .insert("pressure_pct"@, Value::Num(kept_places(s.pressure_pct, 2)))
            .insert("peak_pct"@, Value::Num(kept_places(s.peak_pct, 2))),
    )
}

proof fn lemma_stall_says(s: Stall)
    requires
        finite_stall(s),
    ensures
        says(stall_json(s), stall_value(s)),
{
    lemma_json_text_reads_back(s.unit@);
    lemma_json_text_reads_back(s.cgroup@);
    lemma_decimal_reads_back(s.delta_usec as nat);
    lemma_fixed_reads_back(s.pressure_pct, 2);
    lemma_fixed_reads_back(s.peak_pct, 2);
    lemma_resource_is_plain(s.resource);
    lemma_kind_is_plain(s.kind);
    reveal_strlit("unit");
    reveal_strlit("cgroup");
    reveal_strlit("resource");
    reveal_strlit("type");
    reveal_strlit("delta_usec");
    reveal_strlit("pressure_pct");
    reveal_strlit("peak_pct");
    reveal_strlit("{\"unit\":");
    reveal_strlit(",\"cgroup\":");
    reveal_strlit(",\"resource\":\"");
    reveal_strlit("\",\"type\":\"");
    reveal_strlit("\",\"delta_usec\":");
    reveal_strlit(",\"pressure_pct\":");
    reveal_strlit(",\"peak_pct\":");
    reveal_strlit("}");
    assert("{\"unit\":"@ =~= seq!['{'] + seq![] + seq!['"'] + "unit"@ + seq!['"', ':']);
    assert(",\"cgroup\":"@ =~= key_mark("cgroup"@));
    assert(",\"resource\":\""@ =~= key_mark("resource"@) + seq!['"']);
    assert("\",\"type\":\""@ =~= seq!['"'] + (key_mark("type"@) + seq!['"']));
    assert("\",\"delta_usec\":"@ =~= seq!['"'] + key_mark("delta_usec"@));
    assert(",\"pressure_pct\":"@ =~= key_mark("pressure_pct"@));
    assert(",\"peak_pct\":"@ =~= key_mark("peak_pct"@));
    assert("}"@ =~= seq!['}']);
    let v1 = Value::Str(s.unit@);
    lemma_open("{\"unit\":"@, seq![], "unit"@, json_text(s.unit@), v1);
    let p1 = "{\"unit\":"@ + json_text(s.unit@);
    let m1 = Map::<Seq<char>, Value>::empty().insert("unit"@, v1);
    let v2 = Value::Str(s.cgroup@);
    lemma_add(p1, m1, key_mark("cgroup"@), seq![], "cgroup"@, json_text(s.cgroup@), v2);
    let p2 = p1 + key_mark("cgroup"@) + json_text(s.cgroup@);
    let m2 = m1.insert("cgroup"@, v2);
    let v3 = Value::Str(s.resource.name());
    lemma_add_word(p2, m2, "resource"@, s.resource.name());
    let p3 = p2 + key_mark("resource"@) + quoted(s.resource.name());
    let m3 = m2.insert("resource"@, v3);
    lemma_requote(p2, key_mark("resource"@), s.resource.name(), key_mark("type"@) + seq!['"']);
    let v4 = Value::Str(s.kind.name());
    lemma_add_word(p3, m3, "type"@, s.kind.name());
    let p4 = p3 + key_mark("type"@) + quoted(s.kind.name());
    let m4 = m3.insert("type"@, v4);
    lemma_requote(p3, key_mark("type"@), s.kind.name(), key_mark("delta_usec"@));
    let v5 = Value::Num(whole(s.delta_usec as int));
    lemma_add(p4, m4, key_mark("delta_usec"@), seq![], "delta_usec"@, decimal(s.delta_usec as nat), v5);
    let p5 = p4 + key_mark("delta_usec"@) + decimal(s.delta_usec as nat);
    let m5 = m4.insert("delta_usec"@, v5);
    let v6 = Value::Num(kept_places(s.pressure_pct, 2));
    lemma_add(p5, m5, key_mark("pressure_pct"@), seq![], "pressure_pct"@, fixed(s.pressure_pct, 2), v6);
    let p6 = p5 + key_mark("pressure_pct"@) + fixed(s.pressure_pct, 2);
    let m6 = m5.insert("pressure_pct"@, v6);
    let v7 = Value::Num(kept_places(s.peak_pct, 2));
    lemma_add(p6, m6, key_mark("peak_pct"@), seq![], "peak_pct"@, fixed(s.peak_pct, 2), v7);
    let p7 = p6 + key_mark("peak_pct"@) + fixed(s.peak_pct, 2);
    let m7 = m6.insert("peak_pct"@, v7);
    lemma_object_says(p7, m7);
}

/// What a cause in the log reads as.
pub open spec fn cause_value(c: Cause) -> Value {
    Value::Obj(
        Map::<Seq<char>, Value>::empty()
            .insert("unit"@, Value::Str(c.unit@))
            .insert("cgroup"@, Value::Str(c.cgroup@))
            .insert("read_bytes"@, Value::Num(whole(c.read_bytes as int)))
            .insert("write_bytes"@, Value::Num(whole(c.write_bytes as int)))
            .insert("discard_bytes"@, Value::Num(whole(c.discard_bytes as int)))
            .insert("pressure_pct"@, Value::Num(kept_places(c.pressure_pct, 2)))
            .insert("role"@, Value::Str(c.role.name())),
    )
}

proof fn lemma_cause_says(c: Cause)
    requires
        c.pressure_pct.is_finite(),
    ensures
        says(cause_json(c), cause_value(c)),
{
    lemma_json_text_reads_back(c.unit@);
    lemma_json_text_reads_back(c.cgroup@);
    lemma_decimal_reads_back(c.read_bytes as nat);
    lemma_decimal_reads_back(c.write_bytes as nat);
    lemma_decimal_reads_back(c.discard_bytes as nat);
    lemma_fixed_reads_back(c.pressure_pct, 2);
    lemma_role_is_plain(c.role);
    reveal_strlit("unit");
    reveal_strlit("cgroup");
    reveal_strlit("read_bytes");
    reveal_strlit("write_bytes");
    reveal_strlit("discard_bytes");
    reveal_strlit("pressure_pct");
    reveal_strlit("role");
    reveal_strlit("{\"unit\":");
    reveal_strlit(",\"cgroup\":");
    reveal_strlit(",\"read_bytes\":");
    reveal_strlit(",\"write_bytes\":");
    reveal_strlit(",\"discard_bytes\":");
    reveal_strlit(",\"pressure_pct\":");
    reveal_strlit(",\"role\":\"");
    reveal_strlit("\"}");
    assert("{\"unit\":"@ =~= seq!['{'] + seq![] + seq!['"'] + "unit"@ + seq!['"', ':']);
    assert(",\"cgroup\":"@ =~= key_mark("cgroup"@));
    assert(",\"read_bytes\":"@ =~= key_mark("read_bytes"@));
    assert(",\"write_bytes\":"@ =~= key_mark("write_bytes"@));
    assert(",\"discard_bytes\":"@ =~= key_mark("discard_bytes"@));
    assert(",\"pressure_pct\":"@ =~= key_mark("pressure_pct"@));
    assert(",\"role\":\""@ =~= key_mark("role"@) + seq!['"']);
    assert("\"}"@ =~= seq!['"'] + seq!['}']);
    let v1 = Value::Str(c.unit@);
    lemma_open("{\"unit\":"@, seq![], "unit"@, json_text(c.unit@), v1);
    let p1 = "{\"unit\":"@ + json_text(c.unit@);
    let m1 = Map::<Seq<char>, Value>::empty().insert("unit"@, v1);
    let v2 = Value::Str(c.cgroup@);
    lemma_add(p1, m1, key_mark("cgroup"@), seq![], "cgroup"@, json_text(c.cgroup@), v2);
    let p2 = p1 + key_mark("cgroup"@) + json_text(c.cgroup@);
    let m2 = m1.insert("cgroup"@, v2);
    let v3 = Value::Num(whole(c.read_bytes as int));
    lemma_add(p2, m2, key_mark("read_bytes"@), seq![], "read_bytes"@, decimal(c.read_bytes as nat), v3);
    let p3 = p2 + key_mark("read_bytes"@) + decimal(c.read_bytes as nat);
    let m3 = m2.insert("read_bytes"@, v3);
    let v4 = Value::Num(whole(c.write_bytes as int));
    lemma_add(p3, m3, key_mark("write_bytes"@), seq![], "write_bytes"@, decimal(c.write_bytes as nat), v4);
    let p4 = p3 + key_mark("write_bytes"@) + decimal(c.write_bytes as nat);
    let m4 = m3.insert("write_bytes"@, v4);
    let v5 = Value::Num(whole(c.discard_bytes as int));
    lemma_add(p4, m4, key_mark("discard_bytes"@), seq![], "discard_bytes"@, decimal(c.discard_bytes as nat), v5);
    let p5 = p4 + key_mark("discard_bytes"@) + decimal(c.discard_bytes as nat);
    let m5 = m4.insert("discard_bytes"@, v5);
    let v6 = Value::Num(kept_places(c.pressure_pct, 2));
    lemma_add(p5, m5, key_mark("pressure_pct"@), seq![], "pressure_pct"@, fixed(c.pressure_pct, 2), v6);
    let p6 = p5 + key_mark("pressure_pct"@) + fixed(c.pressure_pct, 2);
    let m6 = m5.insert("pressure_pct"@, v6);
    let v7 = Value::Str(c.role.name());
    lemma_add_word(p6, m6, "role"@, c.role.name());
    let p7 = p6 + key_mark("role"@) + quoted(c.role.name());
    let m7 = m6.insert("role"@, v7);
    lemma_requote(p6, key_mark("role"@), c.role.name(), seq!['}']);
    lemma_object_says(p7, m7);
}

/// What a warning in the log reads as.
pub open spec fn warning_value(w: Warning) -> Value {
    Value::Obj(
        Map::<Seq<char>, Value>::empty()
            .insert("source"@, Value::Str(w.source@))
            .insert("severity"@, Value::Str(w.severity.name()))
            .insert("transient"@, Value::Bool(w.transient))
            .insert("message"@, Value::Str(w.message@)),
    )
}

proof fn lemma_warning_says(w: Warning)
    ensures
        says(warning_json(w), warning_value(w)),
{
    lemma_json_text_reads_back(w.source@);
    lemma_json_text_reads_back(w.message@);
    lemma_flag_reads_back(w.transient);
    lemma_severity_is_plain(w.severity);
    reveal_strlit("source");
    reveal_strlit("severity");
    reveal_strlit("transient");
    reveal_strlit("message");
    reveal_strlit("{\"source\":");
    reveal_strlit(",\"severity\":\"");
    reveal_strlit("\",\"transient\":");
    reveal_strlit(",\"message\":");
    reveal_strlit("}");
    assert("{\"source\":"@ =~= seq!['{'] + seq![] + seq!['"'] + "source"@ + seq!['"', ':']);
    assert(",\"severity\":\""@ =~= key_mark("severity"@) + seq!['"']);
    assert("\",\"transient\":"@ =~= seq!['"'] + key_mark("transient"@));
    assert(",\"message\":"@ =~= key_mark("message"@));
    assert("}"@ =~= seq!['}']);
    let v1 = Value::Str(w.source@);
    lemma_open("{\"source\":"@, seq![], "source"@, json_text(w.source@), v1);
    let p1 = "{\"source\":"@ + json_text(w.source@);
    let m1 = Map::<Seq<char>, Value>::empty().insert("source"@, v1);
    let v2 = Value::Str(w.severity.name());
    lemma_add_word(p1, m1, "severity"@, w.severity.name());
    let p2 = p1 + key_mark("severity"@) + quoted(w.severity.name());
    let m2 = m1.insert("severity"@, v2);
    lemma_requote(p1, key_mark("severity"@), w.severity.name(), key_mark("transient"@));
    let v3 = Value::Bool(w.transient);
    lemma_add(p2, m2, key_mark("transient"@), seq![], "transient"@, flag_text(w.transient), v3);
    let p3 = p2 + key_mark("transient"@) + flag_text(w.transient);
    let m3 = m2.insert("transient"@, v3);
    let v4 = Value::Str(w.message@);
    lemma_add(p3, m3, key_mark("message"@), seq![], "message"@, json_text(w.message@), v4);
    let p4 = p3 + key_mark("message"@) + json_text(w.message@);
    let m4 = m3.insert("message"@, v4);
    lemma_object_says(p4, m4);
}

/// What a process in the log reads as.
pub open spec fn culprit_value(c: Culprit) -> Value {
    Value::Obj(
        Map::<Seq<char>, Value>::empty()
            .insert("pid"@, Value::Num(whole(c.pid as int)))
            .insert("comm"@, Value::Str(c.comm@))
            .insert("blocked_pct"@, Value::Num(kept_places(c.blocked_pct, 1)))
            .insert("bytes"@, Value::Num(whole(c.bytes as int)))
            .insert("role"@, Value::Str(c.role.name())),
    )
}

proof fn lemma_culprit_says(c: Culprit)
    requires
        c.blocked_pct.is_finite(),
    ensures
        says(culprit_json(c), culprit_value(c)),
{
    lemma_decimal_reads_back(c.pid as nat);
    lemma_log_text_reads_back(c.comm@);
    lemma_fixed_reads_back(c.blocked_pct, 1);
    lemma_decimal_reads_back(c.bytes as nat);
    lemma_role_is_plain(c.role);
    reveal_strlit("pid");
    reveal_strlit("comm");
    reveal_strlit("blocked_pct");
    reveal_strlit("bytes");
    reveal_strlit("role");
    reveal_strlit("{\"pid\":");
    reveal_strlit(",\"comm\":");
    reveal_strlit(",\"blocked_pct\":");
    reveal_strlit(",\"bytes\":");
    reveal_strlit(",\"role\":\"");
    reveal_strlit("\"}");
    assert("{\"pid\":"@ =~= seq!['{'] + seq![] + seq!['"'] + "pid"@ + seq!['"', ':']);
    assert(",\"comm\":"@ =~= key_mark("comm"@));
    assert(",\"blocked_pct\":"@ =~= key_mark("blocked_pct"@));
    assert(",\"bytes\":"@ =~= key_mark("bytes"@));
    assert(",\"role\":\""@ =~= key_mark("role"@) + seq!['"']);
    assert("\"}"@ =~= seq!['"'] + seq!['}']);
    let v1 = Value::Num(whole(c.pid as int));
    lemma_open("{\"pid\":"@, seq![], "pid"@, decimal(c.pid as nat), v1);
    let p1 = "{\"pid\":"@ + decimal(c.pid as nat);
    let m1 = Map::<Seq<char>, Value>::empty().insert("pid"@, v1);
    let v2 = Value::Str(c.comm@);
    lemma_add(p1, m1, key_mark("comm"@), seq![], "comm"@, log_text(c.comm@), v2);
    let p2 = p1 + key_mark("comm"@) + log_text(c.comm@);
    let m2 = m1.insert("comm"@, v2);
    let v3 = Value::Num(kept_places(c.blocked_pct, 1));
    lemma_add(p2, m2, key_mark("blocked_pct"@), seq![], "blocked_pct"@, fixed(c.blocked_pct, 1), v3);
    let p3 = p2 + key_mark("blocked_pct"@) + fixed(c.blocked_pct, 1);
    let m3 = m2.insert("blocked_pct"@, v3);
    let v4 = Value::Num(whole(c.bytes as int));
    lemma_add(p3, m3, key_mark("bytes"@), seq![], "bytes"@, decimal(c.bytes as nat), v4);
    let p4 = p3 + key_mark("bytes"@) + decimal(c.bytes as nat);
    let m4 = m3.insert("bytes"@, v4);
    let v5 = Value::Str(c.role.name());
    lemma_add_word(p4, m4, "role"@, c.role.name());
    let p5 = p4 + key_mark("role"@) + quoted(c.role.name());
    let m5 = m4.insert("role"@, v5);
    lemma_requote(p4, key_mark("role"@), c.role.name(), seq!['}']);
    lemma_object_says(p5, m5);
}

pub proof fn lemma_resource_is_plain(r: Resource)
    ensures
        plain(r.name()),
{
    reveal_strlit("cpu");
    reveal_strlit("memory");
    reveal_strlit("io");
}

pub proof fn lemma_kind_is_plain(k: PsiKind)
    ensures
        plain(k.name()),
{
    reveal_strlit("some");
    reveal_strlit("full");
}

pub proof fn lemma_role_is_plain(r: Role)
    ensures
        plain(r.name()),
{
    reveal_strlit("cause");
    reveal_strlit("victim");
    reveal_strlit("active");
}

pub proof fn lemma_severity_is_plain(s: Severity)
    ensures
        plain(s.name()),
{
    reveal_strlit("critical");
    reveal_strlit("warn");
    reveal_strlit("note");
}

// ── a whole line ───────────────────────────────────────────────────────

pub open spec fn stall_values(s: Seq<Stall>) -> Seq<Value> {
    Seq::new(s.len(), |i: int| stall_value(s[i]))
}

pub open spec fn cause_values(c: Seq<Cause>) -> Seq<Value> {
    Seq::new(c.len(), |i: int| cause_value(c[i]))
}

pub open spec fn warning_values(w: Seq<Warning>) -> Seq<Value> {
    Seq::new(w.len(), |i: int| warning_value(w[i]))
}

pub open spec fn culprit_values(c: Seq<Culprit>) -> Seq<Value> {
    Seq::new(c.len(), |i: int| culprit_value(c[i]))
}

pub open spec fn text_values(s: Seq<String>) -> Seq<Value> {
    Seq::new(s.len(), |i: int| Value::Str(s[i]@))
}

/// Are all figures of a report numbers that can be written down?
pub open spec fn finite_report(stalls: Seq<Stall>, causes: Seq<Cause>) -> bool {
    &&& forall|i: int| 0 <= i < stalls.len() ==> finite_stall(#[trigger] stalls[i])
    &&& forall|i: int| 0 <= i < causes.len() ==> (#[trigger] causes[i]).pressure_pct.is_finite()
}

/// The members of a report, behind those of the text that they are added to.
pub open spec fn report_fields(
    m: Map<Seq<char>, Value>,
    window_usec: u64,
    stalls: Seq<Stall>,
    causes: Seq<Cause>,
    warnings: Seq<Warning>,
) -> Map<Seq<char>, Value> {
    m.insert("window_usec"@, Value::Num(whole(window_usec as int))).insert(
        "stalls"@,
        Value::Arr(stall_values(stalls)),
    ).insert("causes"@, Value::Arr(cause_values(causes))).insert(
        "warnings"@,
        Value::Arr(warning_values(warnings)),
    )
}

proof fn lemma_stalls_say(s: Seq<Stall>)
    requires
        forall|i: int| 0 <= i < s.len() ==> finite_stall(#[trigger] s[i]),
    ensures
        says(bracketed(join(stall_jsons(s), ","@)), Value::Arr(stall_values(s))),
{
    reveal_strlit(",");
    assert(","@ =~= seq![',']);
    assert forall|i: int| 0 <= i < stall_jsons(s).len() implies says(
        #[trigger] stall_jsons(s)[i],
        stall_values(s)[i],
    ) by {
        lemma_stall_says(s[i]);
    }
    lemma_array_says(stall_jsons(s), stall_values(s));
}

proof fn lemma_causes_say(c: Seq<Cause>)
    requires
        forall|i: int| 0 <= i < c.len() ==> (#[trigger] c[i]).pressure_pct.is_finite(),
    ensures
        says(bracketed(join(cause_jsons(c), ","@)), Value::Arr(cause_values(c))),
{
    reveal_strlit(",");
    assert(","@ =~= seq![',']);
    assert forall|i: int| 0 <= i < cause_jsons(c).len() implies says(
        #[trigger] cause_jsons(c)[i],
        cause_values(c)[i],
    ) by {
        lemma_cause_says(c[i]);
    }
    lemma_array_says(cause_jsons(c), cause_values(c));
}

proof fn lemma_warnings_say(w: Seq<Warning>)
    ensures
        says(bracketed(join(warning_jsons(w), ","@)), Value::Arr(warning_values(w))),
{
    reveal_strlit(",");
    assert(","@ =~= seq![',']);
    assert forall|i: int| 0 <= i < warning_jsons(w).len() implies says(
        #[trigger] warning_jsons(w)[i],
        warning_values(w)[i],
    ) by {
        lemma_warning_says(w[i]);
    }
    lemma_array_says(warning_jsons(w), warning_values(w));
}

proof fn lemma_culprits_say(c: Seq<Culprit>)
    requires
        forall|i: int| 0 <= i < c.len() ==> (#[trigger] c[i]).blocked_pct.is_finite(),
    ensures
        says(bracketed(join(culprit_jsons(c), ","@)), Value::Arr(culprit_values(c))),
{
    reveal_strlit(",");
    assert(","@ =~= seq![',']);
    assert forall|i: int| 0 <= i < culprit_jsons(c).len() implies says(
        #[trigger] culprit_jsons(c)[i],
        culprit_values(c)[i],
    ) by {
        lemma_culprit_says(c[i]);
    }
    lemma_array_says(culprit_jsons(c), culprit_values(c));
}

proof fn lemma_texts_say(s: Seq<String>)
    ensures
        says(bracketed(join(log_texts(s), ","@)), Value::Arr(text_values(s))),
{
    reveal_strlit(",");
    assert(","@ =~= seq![',']);
    assert forall|i: int| 0 <= i < log_texts(s).len() implies says(
        #[trigger] log_texts(s)[i],
        text_values(s)[i],
    ) by {
        lemma_log_text_reads_back(s[i]@);
    }
    lemma_array_says(log_texts(s), text_values(s));
}

/// The members of a report, where the first of them has been added.
proof fn lemma_report_members(
    y: Seq<char>,
    m: Map<Seq<char>, Value>,
    window_usec: u64,
    stalls: Seq<Stall>,
    causes: Seq<Cause>,
    warnings: Seq<Warning>,
)
    requires
        finite_report(stalls, causes),
        opens(
            y + "\"window_usec\":"@ + decimal(window_usec as nat),
            m.insert("window_usec"@, Value::Num(whole(window_usec as int))),
        ),
    ensures
        opens(
            y + members_json(window_usec, stalls, causes, warnings),
            report_fields(m, window_usec, stalls, causes, warnings),
        ),
{
    lemma_stalls_say(stalls);
    lemma_causes_say(causes);
    lemma_warnings_say(warnings);
    let s = join(stall_jsons(stalls), ","@);
    let c = join(cause_jsons(causes), ","@);
    let w = join(warning_jsons(warnings), ","@);
    reveal_strlit("stalls");
    reveal_strlit("causes");
    reveal_strlit("warnings");
    reveal_strlit(",\"stalls\":[");
    reveal_strlit("],\"causes\":[");
    reveal_strlit("],\"warnings\":[");
    reveal_strlit("]");
    assert(",\"stalls\":["@ =~= key_mark("stalls"@) + seq!['[']);
    assert("],\"causes\":["@ =~= seq![']'] + (key_mark("causes"@) + seq!['[']));
    assert("],\"warnings\":["@ =~= seq![']'] + (key_mark("warnings"@) + seq!['[']));
    assert("]"@ =~= seq![']'] + seq![]);
    let d1 = "\"window_usec\":"@ + decimal(window_usec as nat);
    let d2 = d1 + ",\"stalls\":["@;
    let d3 = d2 + s;
    let d4 = d3 + "],\"causes\":["@;
    let d5 = d4 + c;
    let d6 = d5 + "],\"warnings\":["@;
    let d7 = d6 + w;
    lemma_assoc(y, "\"window_usec\":"@, decimal(window_usec as nat));
    lemma_assoc(y, d1, ",\"stalls\":["@);
    lemma_assoc(y, d2, s);
    lemma_assoc(y, d3, "],\"causes\":["@);
    lemma_assoc(y, d4, c);
    lemma_assoc(y, d5, "],\"warnings\":["@);
    lemma_assoc(y, d6, w);
    lemma_assoc(y, d7, "]"@);
    let p1 = y + d1;
    let m1 = m.insert("window_usec"@, Value::Num(whole(window_usec as int)));
    let v2 = Value::Arr(stall_values(stalls));
    lemma_add(p1, m1, key_mark("stalls"@), seq![], "stalls"@, bracketed(s), v2);
    let p2 = p1 + key_mark("stalls"@) + bracketed(s);
    let m2 = m1.insert("stalls"@, v2);
    lemma_rebracket(p1, key_mark("stalls"@), s, key_mark("causes"@) + seq!['[']);
    let v3 = Value::Arr(cause_values(causes));
    lemma_add(p2, m2, key_mark("causes"@), seq![], "causes"@, bracketed(c), v3);
    let p3 = p2 + key_mark("causes"@) + bracketed(c);
    let m3 = m2.insert("causes"@, v3);
    lemma_rebracket(p2, key_mark("causes"@), c, key_mark("warnings"@) + seq!['[']);
    let v4 = Value::Arr(warning_values(warnings));
    lemma_add(p3, m3, key_mark("warnings"@), seq![], "warnings"@, bracketed(w), v4);
    let p4 = p3 + key_mark("warnings"@) + bracketed(w);
    lemma_rebracket(p3, key_mark("warnings"@), w, seq![]);
    assert(p4 + seq![] =~= p4);
    assert(y + members_json(window_usec, stalls, causes, warnings) == p4);
}

/// What a line of the log reads as.
pub open spec fn incident_value(i: Incident) -> Value {
    Value::Obj(report_fields(own_fields(i), i.window_usec, i.stalls@, i.causes@, i.warnings@))
}

/// Are all figures of an incident numbers that can be written down?
pub open spec fn finite_incident(i: Incident) -> bool {
    &&& finite_report(i.stalls@, i.causes@)
    &&& forall|k: int| 0 <= k < i.culprits@.len() ==> (#[trigger] i.culprits@[k]).blocked_pct.is_finite()
}

/// The members of a line that an incident has before those of its report.
pub open spec fn own_fields(i: Incident) -> Map<Seq<char>, Value> {
    Map::<Seq<char>, Value>::empty().insert("at_unix"@, Value::Num(whole(i.at_unix as int))).insert(
        "woke_on"@,
        Value::Arr(text_values(i.woke_on@)),
    ).insert("culprits"@, Value::Arr(culprit_values(i.culprits@)))
}

/// A line up to those of its report.
#[verifier::opaque]
spec fn line_front(i: Incident) -> Seq<char> {
    "{\"at_unix\":"@ + decimal(i.at_unix as nat) + key_mark("woke_on"@) + bracketed(
        join(log_texts(i.woke_on@), ","@),
    ) + key_mark("culprits"@) + bracketed(join(culprit_jsons(i.culprits@), ","@))
}

proof fn lemma_line_front(i: Incident)
    requires
        finite_incident(i),
    ensures
        opens(line_front(i), own_fields(i)),
        "{\"at_unix\":"@ + decimal(i.at_unix as nat) + ",\"woke_on\":["@ + join(
            log_texts(i.woke_on@),
            ","@,
        ) + "],\"culprits\":["@ + join(culprit_jsons(i.culprits@), ","@) + "],"@ == line_front(i)
            + seq![','],
{
    reveal(line_front);
    lemma_decimal_reads_back(i.at_unix as nat);
    lemma_texts_say(i.woke_on@);
    lemma_culprits_say(i.culprits@);
    let t = join(log_texts(i.woke_on@), ","@);
    let c = join(culprit_jsons(i.culprits@), ","@);
    reveal_strlit("at_unix");
    reveal_strlit("woke_on");
    reveal_strlit("culprits");
    reveal_strlit("{\"at_unix\":");
    reveal_strlit(",\"woke_on\":[");
    reveal_strlit("],\"culprits\":[");
    reveal_strlit("],");
    assert("{\"at_unix\":"@ =~= seq!['{'] + seq![] + seq!['"'] + "at_unix"@ + seq!['"', ':']);
    assert(",\"woke_on\":["@ =~= key_mark("woke_on"@) + seq!['[']);
    assert("],\"culprits\":["@ =~= seq![']'] + (key_mark("culprits"@) + seq!['[']));
    assert("],"@ =~= seq![']'] + seq![',']);
    let v1 = Value::Num(whole(i.at_unix as int));
    lemma_open("{\"at_unix\":"@, seq![], "at_unix"@, decimal(i.at_unix as nat), v1);
    let p1 = "{\"at_unix\":"@ + decimal(i.at_unix as nat);
    let m1 = Map::<Seq<char>, Value>::empty().insert("at_unix"@, v1);
    let v2 = Value::Arr(text_values(i.woke_on@));
    lemma_add(p1, m1, key_mark("woke_on"@), seq![], "woke_on"@, bracketed(t), v2);
    let p2 = p1 + key_mark("woke_on"@) + bracketed(t);
    let m2 = m1.insert("woke_on"@, v2);
    lemma_rebracket(p1, key_mark("woke_on"@), t, key_mark("culprits"@) + seq!['[']);
    let v3 = Value::Arr(culprit_values(i.culprits@));
    lemma_add(p2, m2, key_mark("culprits"@), seq![], "culprits"@, bracketed(c), v3);
    lemma_rebracket(p2, key_mark("culprits"@), c, seq![',']);
}

proof fn lemma_line_says(i: Incident)
    requires
        finite_incident(i),
    ensures
        says(i.jsonl(), incident_value(i)),
{
    lemma_line_front(i);
    lemma_decimal_reads_back(i.window_usec as nat);
    let p = line_front(i);
    let m = own_fields(i);
    let y = p + seq![','];
    let d = decimal(i.window_usec as nat);
    let v = Value::Num(whole(i.window_usec as int));
    assert(plain("window_usec"@) && y + "\"window_usec\":"@ == p + key_mark("window_usec"@)) by {
        reveal_strlit("window_usec");
        reveal_strlit("\"window_usec\":");
        assert(y + "\"window_usec\":"@ =~= p + key_mark("window_usec"@));
    }
    assert("}"@ == seq!['}']) by {
        reveal_strlit("}");
        assert("}"@ =~= seq!['}']);
    }
    lemma_add(p, m, key_mark("window_usec"@), seq![], "window_usec"@, d, v);
    lemma_report_members(y, m, i.window_usec, i.stalls@, i.causes@, i.warnings@);
    let all = report_fields(m, i.window_usec, i.stalls@, i.causes@, i.warnings@);
    let text = y + members_json(i.window_usec, i.stalls@, i.causes@, i.warnings@);
    lemma_object_says(text, all);
    assert(i.jsonl() == text + seq!['}']);
}

/// A line of the log is valid JSON with what the incident holds.
pub proof fn lemma_line_is_valid_json(i: Incident)
    requires
        finite_incident(i),
    ensures
        document(i.jsonl()) == Ok::<Value, Seq<char>>(incident_value(i)),
{
    lemma_line_says(i);
    lemma_says_document(i.jsonl(), incident_value(i));
}

/// What a report on one line reads as.
pub open spec fn report_value(r: Report) -> Value {
    Value::Obj(report_fields(Map::empty(), r.window_usec, r.stalls@, r.causes@, r.warnings@))
}

pub proof fn lemma_report_says(r: Report)
    requires
        finite_report(r.stalls@, r.causes@),
    ensures
        says(r.json_compact(), report_value(r)),
{
    lemma_decimal_reads_back(r.window_usec as nat);
    reveal_strlit("{");
    reveal_strlit("}");
    reveal_strlit("window_usec");
    reveal_strlit("\"window_usec\":");
    assert("{"@ =~= seq!['{']);
    assert("}"@ =~= seq!['}']);
    assert("{"@ + "\"window_usec\":"@ =~= seq!['{'] + seq![] + seq!['"'] + "window_usec"@ + seq![
        '"',
        ':',
    ]);
    let d = decimal(r.window_usec as nat);
    let v = Value::Num(whole(r.window_usec as int));
    lemma_open("{"@ + "\"window_usec\":"@, seq![], "window_usec"@, d, v);
    lemma_report_members("{"@, Map::empty(), r.window_usec, r.stalls@, r.causes@, r.warnings@);
    let p = "{"@ + members_json(r.window_usec, r.stalls@, r.causes@, r.warnings@);
    lemma_object_says(
        p,
        report_fields(Map::empty(), r.window_usec, r.stalls@, r.causes@, r.warnings@),
    );
}

/// A report on one line is valid JSON.
pub proof fn lemma_compact_report_is_valid_json(r: Report)
    requires
        finite_report(r.stalls@, r.causes@),
    ensures
        document(r.json_compact()) == Ok::<Value, Seq<char>>(report_value(r)),
{
    lemma_report_says(r);
    lemma_says_document(r.json_compact(), report_value(r));
}

// ── what comes back ────────────────────────────────────────────────────

/// A count as it comes back from the log.
pub open spec fn kept_count(n: u64) -> u64 {
    whole(n as int).as_u64()
}

proof fn lemma_count_reads_back(n: u64)
    ensures
        number_u64(Value::Num(whole(n as int))) == Some(kept_count(n)),
{
    if n == 0 {
        lemma_whole_zero();
    } else {
        lemma_whole_positive(n as int);
    }
}

/// A count below two to the power of 53 comes back as it was.
pub proof fn lemma_small_counts_are_kept(n: u64)
    requires
        n < 0x20_0000_0000_0000,
    ensures
        kept_count(n) == n,
{
    lemma_pow2_pos(1074);
    lemma_whole_exact(n as nat);
    lemma_div_by_multiple(n as int, one() as int);
}

/// A stall as it comes back from the log.
pub open spec fn logged_stall(s: Stall) -> StallView {
    StallView {
        delta_usec: kept_count(s.delta_usec),
        pressure_pct: kept_places(s.pressure_pct, 2),
        peak_pct: kept_places(s.peak_pct, 2),
        ..s@
    }
}

/// A process as it comes back from the log.
pub open spec fn logged_culprit(c: Culprit) -> Accused {
    Accused { blocked_pct: kept_places(c.blocked_pct, 1), bytes: kept_count(c.bytes), ..c@ }
}

/// An incident as it comes back from the log. What woke it and which cgroups
/// moved bytes are written but not read again: no explanation needs them.
pub open spec fn logged(i: Incident) -> Record {
    Record {
        at_unix: kept_count(i.at_unix),
        window_usec: kept_count(i.window_usec),
        woke_on: seq![],
        stalls: Seq::new(i.stalls@.len(), |k: int| logged_stall(i.stalls@[k])),
        warnings: findings(i.warnings@),
        culprits: Seq::new(i.culprits@.len(), |k: int| logged_culprit(i.culprits@[k])),
        causes: seq![],
    }
}

proof fn lemma_stall_back(s: Stall)
    ensures
        stall_in(stall_value(s)) == logged_stall(s),
{
    reveal_strlit("unit");
    reveal_strlit("cgroup");
    reveal_strlit("resource");
    reveal_strlit("type");
    reveal_strlit("delta_usec");
    reveal_strlit("pressure_pct");
    reveal_strlit("peak_pct");
    reveal_strlit("cpu");
    reveal_strlit("memory");
    reveal_strlit("io");
    reveal_strlit("some");
    reveal_strlit("full");
    lemma_count_reads_back(s.delta_usec);
    assert("unit"@.len() == 4 && "unit"@[0] == 'u');
    assert("cgroup"@.len() == 6 && "cgroup"@[0] == 'c');
    assert("resource"@.len() == 8 && "resource"@[0] == 'r');
    assert("type"@.len() == 4 && "type"@[0] == 't');
    assert("delta_usec"@.len() == 10 && "delta_usec"@[0] == 'd');
    assert("pressure_pct"@.len() == 12 && "pressure_pct"@[0] == 'p');
    assert("peak_pct"@.len() == 8 && "peak_pct"@[0] == 'p');
    assert("cpu"@.len() == 3 && "cpu"@[0] == 'c');
    assert("memory"@.len() == 6 && "memory"@[0] == 'm');
    assert("io"@.len() == 2 && "io"@[0] == 'i');
    assert("some"@.len() == 4 && "some"@[0] == 's');
    assert("full"@.len() == 4 && "full"@[0] == 'f');
}

proof fn lemma_warning_back(w: Warning)
    ensures
        warning_in(warning_value(w)) == w@,
{
    reveal_strlit("source");
    reveal_strlit("severity");
    reveal_strlit("transient");
    reveal_strlit("message");
    reveal_strlit("critical");
    reveal_strlit("warn");
    reveal_strlit("note");
    assert("source"@.len() == 6 && "source"@[0] == 's');
    assert("severity"@.len() == 8 && "severity"@[0] == 's');
    assert("transient"@.len() == 9 && "transient"@[0] == 't');
    assert("message"@.len() == 7 && "message"@[0] == 'm');
    assert("critical"@.len() == 8 && "critical"@[0] == 'c');
    assert("warn"@.len() == 4 && "warn"@[0] == 'w');
    assert("note"@.len() == 4 && "note"@[0] == 'n');
}

proof fn lemma_culprit_back(c: Culprit)
    ensures
        culprit_in(culprit_value(c)) == logged_culprit(c),
{
    reveal_strlit("pid");
    reveal_strlit("comm");
    reveal_strlit("blocked_pct");
    reveal_strlit("bytes");
    reveal_strlit("role");
    reveal_strlit("cause");
    reveal_strlit("victim");
    reveal_strlit("active");
    assert("pid"@.len() == 3 && "pid"@[0] == 'p');
    assert("comm"@.len() == 4 && "comm"@[0] == 'c');
    assert("blocked_pct"@.len() == 11 && "blocked_pct"@[0] == 'b');
    assert("bytes"@.len() == 5 && "bytes"@[0] == 'b');
    assert("role"@.len() == 4 && "role"@[0] == 'r');
    assert("cause"@.len() == 5 && "cause"@[0] == 'c');
    assert("victim"@.len() == 6 && "victim"@[0] == 'v');
    assert("active"@.len() == 6 && "active"@[0] == 'a');
    lemma_count_reads_back(c.bytes);
    lemma_count_reads_back(c.pid as u64);
    lemma_small_counts_are_kept(c.pid as u64);
}

/// The log gives back what was written to it: a line that was written for an
/// incident is one that an incident stands on, and it is the same incident to
/// the precision that the log keeps.
pub proof fn lemma_log_reads_back(i: Incident)
    requires
        finite_incident(i),
    ensures
        document(i.jsonl()) is Ok,
        incident_in(document(i.jsonl())->Ok_0) == logged(i),
{
    lemma_line_is_valid_json(i);
    let v = incident_value(i);
    assert({
        &&& u64_under(v, "at_unix"@) == kept_count(i.at_unix)
        &&& u64_under(v, "window_usec"@) == kept_count(i.window_usec)
        &&& items_under(v, "stalls"@) == stall_values(i.stalls@)
        &&& items_under(v, "warnings"@) == warning_values(i.warnings@)
        &&& items_under(v, "culprits"@) == culprit_values(i.culprits@)
    }) by {
        reveal_strlit("at_unix");
        reveal_strlit("woke_on");
        reveal_strlit("culprits");
        reveal_strlit("window_usec");
        reveal_strlit("stalls");
        reveal_strlit("causes");
        reveal_strlit("warnings");
        assert("at_unix"@.len() == 7 && "at_unix"@[0] == 'a');
        assert("woke_on"@.len() == 7 && "woke_on"@[0] == 'w');
        assert("culprits"@.len() == 8 && "culprits"@[0] == 'c');
        assert("window_usec"@.len() == 11 && "window_usec"@[0] == 'w');
        assert("stalls"@.len() == 6 && "stalls"@[0] == 's');
        assert("causes"@.len() == 6 && "causes"@[0] == 'c');
        assert("warnings"@.len() == 8 && "warnings"@[0] == 'w');
        lemma_count_reads_back(i.at_unix);
        lemma_count_reads_back(i.window_usec);
    }
    let r = incident_in(v);
    assert(r.stalls =~= logged(i).stalls) by {
        assert forall|k: int| 0 <= k < r.stalls.len() implies r.stalls[k] == logged(i).stalls[k] by {
            lemma_stall_back(i.stalls@[k]);
        }
    }
    assert(r.warnings =~= logged(i).warnings) by {
        assert forall|k: int| 0 <= k < r.warnings.len() implies r.warnings[k] == logged(
            i,
        ).warnings[k] by {
            lemma_warning_back(i.warnings@[k]);
        }
    }
    assert(r.culprits =~= logged(i).culprits) by {
        assert forall|k: int| 0 <= k < r.culprits.len() implies r.culprits[k] == logged(
            i,
        ).culprits[k] by {
            lemma_culprit_back(i.culprits@[k]);
        }
    }
}

/// Where no figure has more places than the log keeps, nothing is lost: times
/// and counts below two to the power of 53 and percentages that are what their
/// places say come back as they were.
pub proof fn lemma_log_loses_nothing(i: Incident)
    requires
        finite_incident(i),
        i.at_unix < 0x20_0000_0000_0000,
        i.window_usec < 0x20_0000_0000_0000,
        forall|k: int|
            0 <= k < i.stalls@.len() ==> {
                let s = #[trigger] i.stalls@[k];
                &&& s.delta_usec < 0x20_0000_0000_0000
                &&& kept_places(s.pressure_pct, 2) == s.pressure_pct
                &&& kept_places(s.peak_pct, 2) == s.peak_pct
            },
        forall|k: int|
            0 <= k < i.culprits@.len() ==> {
                let c = #[trigger] i.culprits@[k];
                &&& c.bytes < 0x20_0000_0000_0000
                &&& kept_places(c.blocked_pct, 1) == c.blocked_pct
            },
    ensures
        incident_in(document(i.jsonl())->Ok_0) == (Record {
            woke_on: seq![],
            causes: seq![],
            ..i@
        }),
{
    lemma_log_reads_back(i);
    lemma_small_counts_are_kept(i.at_unix);
    lemma_small_counts_are_kept(i.window_usec);
    let r = logged(i);
    assert(r.stalls =~= i@.stalls) by {
        assert forall|k: int| 0 <= k < r.stalls.len() implies r.stalls[k] == i@.stalls[k] by {
            lemma_small_counts_are_kept(i.stalls@[k].delta_usec);
        }
    }
    assert(r.culprits =~= i@.culprits) by {
        assert forall|k: int| 0 <= k < r.culprits.len() implies r.culprits[k] == i@.culprits[k] by {
            lemma_small_counts_are_kept(i.culprits@[k].bytes);
        }
    }
}

// ── one line each ──────────────────────────────────────────────────────

proof fn lemma_stall_is_unbroken(s: Stall)
    ensures
        unbroken(stall_json(s)),
{
    assert(unbroken("{\"unit\":"@)) by {
        reveal_strlit("{\"unit\":");
        reveal(unbroken);
    }
    assert(unbroken(",\"cgroup\":"@)) by {
        reveal_strlit(",\"cgroup\":");
        reveal(unbroken);
    }
    assert(unbroken(",\"resource\":\""@)) by {
        reveal_strlit(",\"resource\":\"");
        reveal(unbroken);
    }
    assert(unbroken("\",\"type\":\""@)) by {
        reveal_strlit("\",\"type\":\"");
        reveal(unbroken);
    }
    assert(unbroken("\",\"delta_usec\":"@)) by {
        reveal_strlit("\",\"delta_usec\":");
        reveal(unbroken);
    }
    assert(unbroken(",\"pressure_pct\":"@)) by {
        reveal_strlit(",\"pressure_pct\":");
        reveal(unbroken);
    }
    assert(unbroken(",\"peak_pct\":"@)) by {
        reveal_strlit(",\"peak_pct\":");
        reveal(unbroken);
    }
    assert(unbroken("}"@)) by {
        reveal_strlit("}");
        reveal(unbroken);
    }
    assert(unbroken("cpu"@)) by {
        reveal_strlit("cpu");
        reveal(unbroken);
    }
    assert(unbroken("memory"@)) by {
        reveal_strlit("memory");
        reveal(unbroken);
    }
    assert(unbroken("io"@)) by {
        reveal_strlit("io");
        reveal(unbroken);
    }
    assert(unbroken("some"@)) by {
        reveal_strlit("some");
        reveal(unbroken);
    }
    assert(unbroken("full"@)) by {
        reveal_strlit("full");
        reveal(unbroken);
    }
    lemma_json_text_is_unbroken(s.unit@);
    lemma_json_text_is_unbroken(s.cgroup@);
    lemma_decimal_is_unbroken(s.delta_usec as nat);
    lemma_fixed_is_unbroken(s.pressure_pct, 2);
    lemma_fixed_is_unbroken(s.peak_pct, 2);
    let s0 = "{\"unit\":"@;
    lemma_unbroken_both(s0, json_text(s.unit@));
    let s1 = s0 + json_text(s.unit@);
    lemma_unbroken_both(s1, ",\"cgroup\":"@);
    let s2 = s1 + ",\"cgroup\":"@;
    lemma_unbroken_both(s2, json_text(s.cgroup@));
    let s3 = s2 + json_text(s.cgroup@);
    lemma_unbroken_both(s3, ",\"resource\":\""@);
    let s4 = s3 + ",\"resource\":\""@;
    lemma_unbroken_both(s4, s.resource.name());
    let s5 = s4 + s.resource.name();
    lemma_unbroken_both(s5, "\",\"type\":\""@);
    let s6 = s5 + "\",\"type\":\""@;
    lemma_unbroken_both(s6, s.kind.name());
    let s7 = s6 + s.kind.name();
    lemma_unbroken_both(s7, "\",\"delta_usec\":"@);
    let s8 = s7 + "\",\"delta_usec\":"@;
    lemma_unbroken_both(s8, decimal(s.delta_usec as nat));
    let s9 = s8 + decimal(s.delta_usec as nat);
    lemma_unbroken_both(s9, ",\"pressure_pct\":"@);
    let s10 = s9 + ",\"pressure_pct\":"@;
    lemma_unbroken_both(s10, fixed(s.pressure_pct, 2));
    let s11 = s10 + fixed(s.pressure_pct, 2);
    lemma_unbroken_both(s11, ",\"peak_pct\":"@);
    let s12 = s11 + ",\"peak_pct\":"@;
    lemma_unbroken_both(s12, fixed(s.peak_pct, 2));
    let s13 = s12 + fixed(s.peak_pct, 2);
    lemma_unbroken_both(s13, "}"@);
}

proof fn lemma_cause_is_unbroken(c: Cause)
    ensures
        unbroken(cause_json(c)),
{
    assert(unbroken("{\"unit\":"@)) by {
        reveal_strlit("{\"unit\":");
        reveal(unbroken);
    }
    assert(unbroken(",\"cgroup\":"@)) by {
        reveal_strlit(",\"cgroup\":");
        reveal(unbroken);
    }
    assert(unbroken(",\"read_bytes\":"@)) by {
        reveal_strlit(",\"read_bytes\":");
        reveal(unbroken);
    }
    assert(unbroken(",\"write_bytes\":"@)) by {
        reveal_strlit(",\"write_bytes\":");
        reveal(unbroken);
    }
    assert(unbroken(",\"discard_bytes\":"@)) by {
        reveal_strlit(",\"discard_bytes\":");
        reveal(unbroken);
    }
    assert(unbroken(",\"pressure_pct\":"@)) by {
        reveal_strlit(",\"pressure_pct\":");
        reveal(unbroken);
    }
    assert(unbroken(",\"role\":\""@)) by {
        reveal_strlit(",\"role\":\"");
        reveal(unbroken);
    }
    assert(unbroken("\"}"@)) by {
        reveal_strlit("\"}");
        reveal(unbroken);
    }
    assert(unbroken("cause"@)) by {
        reveal_strlit("cause");
        reveal(unbroken);
    }
    assert(unbroken("victim"@)) by {
        reveal_strlit("victim");
        reveal(unbroken);
    }
    assert(unbroken("active"@)) by {
        reveal_strlit("active");
        reveal(unbroken);
    }
    lemma_json_text_is_unbroken(c.unit@);
    lemma_json_text_is_unbroken(c.cgroup@);
    lemma_decimal_is_unbroken(c.read_bytes as nat);
    lemma_decimal_is_unbroken(c.write_bytes as nat);
    lemma_decimal_is_unbroken(c.discard_bytes as nat);
    lemma_fixed_is_unbroken(c.pressure_pct, 2);
    let s0 = "{\"unit\":"@;
    lemma_unbroken_both(s0, json_text(c.unit@));
    let s1 = s0 + json_text(c.unit@);
    lemma_unbroken_both(s1, ",\"cgroup\":"@);
    let s2 = s1 + ",\"cgroup\":"@;
    lemma_unbroken_both(s2, json_text(c.cgroup@));
    let s3 = s2 + json_text(c.cgroup@);
    lemma_unbroken_both(s3, ",\"read_bytes\":"@);
    let s4 = s3 + ",\"read_bytes\":"@;
    lemma_unbroken_both(s4, decimal(c.read_bytes as nat));
    let s5 = s4 + decimal(c.read_bytes as nat);
    lemma_unbroken_both(s5, ",\"write_bytes\":"@);
    let s6 = s5 + ",\"write_bytes\":"@;
    lemma_unbroken_both(s6, decimal(c.write_bytes as nat));
    let s7 = s6 + decimal(c.write_bytes as nat);
    lemma_unbroken_both(s7, ",\"discard_bytes\":"@);
    let s8 = s7 + ",\"discard_bytes\":"@;
    lemma_unbroken_both(s8, decimal(c.discard_bytes as nat));
    let s9 = s8 + decimal(c.discard_bytes as nat);
    lemma_unbroken_both(s9, ",\"pressure_pct\":"@);
    let s10 = s9 + ",\"pressure_pct\":"@;
    lemma_unbroken_both(s10, fixed(c.pressure_pct, 2));
    let s11 = s10 + fixed(c.pressure_pct, 2);
    lemma_unbroken_both(s11, ",\"role\":\""@);
    let s12 = s11 + ",\"role\":\""@;
    lemma_unbroken_both(s12, c.role.name());
    let s13 = s12 + c.role.name();
    lemma_unbroken_both(s13, "\"}"@);
}

proof fn lemma_warning_is_unbroken(w: Warning)
    ensures
        unbroken(warning_json(w)),
{
    assert(unbroken("{\"source\":"@)) by {
        reveal_strlit("{\"source\":");
        reveal(unbroken);
    }
    assert(unbroken(",\"severity\":\""@)) by {
        reveal_strlit(",\"severity\":\"");
        reveal(unbroken);
    }
    assert(unbroken("\",\"transient\":"@)) by {
        reveal_strlit("\",\"transient\":");
        reveal(unbroken);
    }
    assert(unbroken(",\"message\":"@)) by {
        reveal_strlit(",\"message\":");
        reveal(unbroken);
    }
    assert(unbroken("}"@)) by {
        reveal_strlit("}");
        reveal(unbroken);
    }
    assert(unbroken("critical"@)) by {
        reveal_strlit("critical");
        reveal(unbroken);
    }
    assert(unbroken("warn"@)) by {
        reveal_strlit("warn");
        reveal(unbroken);
    }
    assert(unbroken("note"@)) by {
        reveal_strlit("note");
        reveal(unbroken);
    }
    assert(unbroken("true"@)) by {
        reveal_strlit("true");
        reveal(unbroken);
    }
    assert(unbroken("false"@)) by {
        reveal_strlit("false");
        reveal(unbroken);
    }
    lemma_json_text_is_unbroken(w.source@);
    lemma_json_text_is_unbroken(w.message@);
    let s0 = "{\"source\":"@;
    lemma_unbroken_both(s0, json_text(w.source@));
    let s1 = s0 + json_text(w.source@);
    lemma_unbroken_both(s1, ",\"severity\":\""@);
    let s2 = s1 + ",\"severity\":\""@;
    lemma_unbroken_both(s2, w.severity.name());
    let s3 = s2 + w.severity.name();
    lemma_unbroken_both(s3, "\",\"transient\":"@);
    let s4 = s3 + "\",\"transient\":"@;
    lemma_unbroken_both(s4, flag_text(w.transient));
    let s5 = s4 + flag_text(w.transient);
    lemma_unbroken_both(s5, ",\"message\":"@);
    let s6 = s5 + ",\"message\":"@;
    lemma_unbroken_both(s6, json_text(w.message@));
    let s7 = s6 + json_text(w.message@);
    lemma_unbroken_both(s7, "}"@);
}

proof fn lemma_culprit_is_unbroken(c: Culprit)
    ensures
        unbroken(culprit_json(c)),
{
    assert(unbroken("{\"pid\":"@)) by {
        reveal_strlit("{\"pid\":");
        reveal(unbroken);
    }
    assert(unbroken(",\"comm\":"@)) by {
        reveal_strlit(",\"comm\":");
        reveal(unbroken);
    }
    assert(unbroken(",\"blocked_pct\":"@)) by {
        reveal_strlit(",\"blocked_pct\":");
        reveal(unbroken);
    }
    assert(unbroken(",\"bytes\":"@)) by {
        reveal_strlit(",\"bytes\":");
        reveal(unbroken);
    }
    assert(unbroken(",\"role\":\""@)) by {
        reveal_strlit(",\"role\":\"");
        reveal(unbroken);
    }
    assert(unbroken("\"}"@)) by {
        reveal_strlit("\"}");
        reveal(unbroken);
    }
    assert(unbroken("cause"@)) by {
        reveal_strlit("cause");
        reveal(unbroken);
    }
    assert(unbroken("victim"@)) by {
        reveal_strlit("victim");
        reveal(unbroken);
    }
    assert(unbroken("active"@)) by {
        reveal_strlit("active");
        reveal(unbroken);
    }
    lemma_decimal_is_unbroken(c.pid as nat);
    lemma_log_text_is_unbroken(c.comm@);
    lemma_fixed_is_unbroken(c.blocked_pct, 1);
    lemma_decimal_is_unbroken(c.bytes as nat);
    let s0 = "{\"pid\":"@;
    lemma_unbroken_both(s0, decimal(c.pid as nat));
    let s1 = s0 + decimal(c.pid as nat);
    lemma_unbroken_both(s1, ",\"comm\":"@);
    let s2 = s1 + ",\"comm\":"@;
    lemma_unbroken_both(s2, log_text(c.comm@));
    let s3 = s2 + log_text(c.comm@);
    lemma_unbroken_both(s3, ",\"blocked_pct\":"@);
    let s4 = s3 + ",\"blocked_pct\":"@;
    lemma_unbroken_both(s4, fixed(c.blocked_pct, 1));
    let s5 = s4 + fixed(c.blocked_pct, 1);
    lemma_unbroken_both(s5, ",\"bytes\":"@);
    let s6 = s5 + ",\"bytes\":"@;
    lemma_unbroken_both(s6, decimal(c.bytes as nat));
    let s7 = s6 + decimal(c.bytes as nat);
    lemma_unbroken_both(s7, ",\"role\":\""@);
    let s8 = s7 + ",\"role\":\""@;
    lemma_unbroken_both(s8, c.role.name());
    let s9 = s8 + c.role.name();
    lemma_unbroken_both(s9, "\"}"@);
}

proof fn lemma_lists_are_unbroken(i: Incident)
    ensures
        unbroken(join(log_texts(i.woke_on@), ","@)),
        unbroken(join(culprit_jsons(i.culprits@), ","@)),
        unbroken(join(stall_jsons(i.stalls@), ","@)),
        unbroken(join(cause_jsons(i.causes@), ","@)),
        unbroken(join(warning_jsons(i.warnings@), ","@)),
{
    assert forall|k: int| 0 <= k < i.woke_on@.len() implies unbroken(
        #[trigger] log_texts(i.woke_on@)[k],
    ) by {
        lemma_log_text_is_unbroken(i.woke_on@[k]@);
    }
    assert forall|k: int| 0 <= k < i.culprits@.len() implies unbroken(
        #[trigger] culprit_jsons(i.culprits@)[k],
    ) by {
        lemma_culprit_is_unbroken(i.culprits@[k]);
    }
    assert forall|k: int| 0 <= k < i.stalls@.len() implies unbroken(
        #[trigger] stall_jsons(i.stalls@)[k],
    ) by {
        lemma_stall_is_unbroken(i.stalls@[k]);
    }
    assert forall|k: int| 0 <= k < i.causes@.len() implies unbroken(
        #[trigger] cause_jsons(i.causes@)[k],
    ) by {
        lemma_cause_is_unbroken(i.causes@[k]);
    }
    assert forall|k: int| 0 <= k < i.warnings@.len() implies unbroken(
        #[trigger] warning_jsons(i.warnings@)[k],
    ) by {
        lemma_warning_is_unbroken(i.warnings@[k]);
    }
    lemma_join_is_unbroken(log_texts(i.woke_on@));
    lemma_join_is_unbroken(culprit_jsons(i.culprits@));
    lemma_join_is_unbroken(stall_jsons(i.stalls@));
    lemma_join_is_unbroken(cause_jsons(i.causes@));
    lemma_join_is_unbroken(warning_jsons(i.warnings@));
}

proof fn lemma_members_are_unbroken(i: Incident)
    ensures
        unbroken(members_json(i.window_usec, i.stalls@, i.causes@, i.warnings@)),
{
    assert(unbroken("\"window_usec\":"@)) by {
        reveal_strlit("\"window_usec\":");
        reveal(unbroken);
    }
    assert(unbroken(",\"stalls\":["@)) by {
        reveal_strlit(",\"stalls\":[");
        reveal(unbroken);
    }
    assert(unbroken("],\"causes\":["@)) by {
        reveal_strlit("],\"causes\":[");
        reveal(unbroken);
    }
    assert(unbroken("],\"warnings\":["@)) by {
        reveal_strlit("],\"warnings\":[");
        reveal(unbroken);
    }
    assert(unbroken("]"@)) by {
        reveal_strlit("]");
        reveal(unbroken);
    }
    lemma_decimal_is_unbroken(i.window_usec as nat);
    lemma_lists_are_unbroken(i);
    let m0 = "\"window_usec\":"@;
    lemma_unbroken_both(m0, decimal(i.window_usec as nat));
    let m1 = m0 + decimal(i.window_usec as nat);
    lemma_unbroken_both(m1, ",\"stalls\":["@);
    let m2 = m1 + ",\"stalls\":["@;
    lemma_unbroken_both(m2, join(stall_jsons(i.stalls@), ","@));
    let m3 = m2 + join(stall_jsons(i.stalls@), ","@);
    lemma_unbroken_both(m3, "],\"causes\":["@);
    let m4 = m3 + "],\"causes\":["@;
    lemma_unbroken_both(m4, join(cause_jsons(i.causes@), ","@));
    let m5 = m4 + join(cause_jsons(i.causes@), ","@);
    lemma_unbroken_both(m5, "],\"warnings\":["@);
    let m6 = m5 + "],\"warnings\":["@;
    lemma_unbroken_both(m6, join(warning_jsons(i.warnings@), ","@));
    let m7 = m6 + join(warning_jsons(i.warnings@), ","@);
    lemma_unbroken_both(m7, "]"@);
}

/// An incident takes one line of the log, whatever its texts hold.
pub proof fn lemma_incident_is_one_line(i: Incident)
    ensures
        unbroken(i.jsonl()),
        i.jsonl().len() > 0,
        i.jsonl().last() == '}',
{
    assert(unbroken("{\"at_unix\":"@)) by {
        reveal_strlit("{\"at_unix\":");
        reveal(unbroken);
    }
    assert(unbroken(",\"woke_on\":["@)) by {
        reveal_strlit(",\"woke_on\":[");
        reveal(unbroken);
    }
    assert(unbroken("],\"culprits\":["@)) by {
        reveal_strlit("],\"culprits\":[");
        reveal(unbroken);
    }
    assert(unbroken("],"@)) by {
        reveal_strlit("],");
        reveal(unbroken);
    }
    assert(unbroken("}"@)) by {
        reveal_strlit("}");
        reveal(unbroken);
    }
    lemma_decimal_is_unbroken(i.at_unix as nat);
    lemma_lists_are_unbroken(i);
    lemma_members_are_unbroken(i);
    let m = members_json(i.window_usec, i.stalls@, i.causes@, i.warnings@);
    assert("}"@ == seq!['}']) by {
        reveal_strlit("}");
        assert("}"@ =~= seq!['}']);
    }
    let l0 = "{\"at_unix\":"@;
    lemma_unbroken_both(l0, decimal(i.at_unix as nat));
    let l1 = l0 + decimal(i.at_unix as nat);
    lemma_unbroken_both(l1, ",\"woke_on\":["@);
    let l2 = l1 + ",\"woke_on\":["@;
    lemma_unbroken_both(l2, join(log_texts(i.woke_on@), ","@));
    let l3 = l2 + join(log_texts(i.woke_on@), ","@);
    lemma_unbroken_both(l3, "],\"culprits\":["@);
    let l4 = l3 + "],\"culprits\":["@;
    lemma_unbroken_both(l4, join(culprit_jsons(i.culprits@), ","@));
    let l5 = l4 + join(culprit_jsons(i.culprits@), ","@);
    lemma_unbroken_both(l5, "],"@);
    let l6 = l5 + "],"@;
    lemma_unbroken_both(l6, m);
    let l7 = l6 + m;
    lemma_unbroken_both(l7, "}"@);
}

/// What appending lines to an empty log leaves there.
pub open spec fn written(l: Seq<Seq<char>>) -> Seq<char>
    decreases l.len(),
{
    if l.len() == 0 {
        seq![]
    } else {
        written(l.drop_last()) + (l.last() + "\n"@)
    }
}

pub open spec fn log_lines(all: Seq<Incident>) -> Seq<Seq<char>> {
    Seq::new(all.len(), |k: int| all[k].jsonl())
}

proof fn lemma_lines_of_written(l: Seq<Seq<char>>)
    requires
        forall|k: int|
            0 <= k < l.len() ==> {
                let line = #[trigger] l[k];
                unbroken(line) && line.len() > 0 && line.last() == '}'
            },
    ensures
        lines(written(l)) == l,
        written(l).len() == 0 || written(l).last() == '\n',
    decreases l.len(),
{
    reveal_strlit("\n");
    if l.len() > 0 {
        let init = l.drop_last();
        let line = l[l.len() - 1];
        assert forall|k: int| 0 <= k < init.len() implies {
            let line = #[trigger] init[k];
            unbroken(line) && line.len() > 0 && line.last() == '}'
        } by {
            assert(init[k] == l[k]);
        }
        lemma_lines_of_written(init);
        lemma_single_line(line);
        lemma_lines_behind(written(init), line + "\n"@);
        assert(init + seq![line] =~= l);
        assert(written(l).last() == (line + "\n"@).last());
    } else {
        assert(lines(written(l)) =~= l);
    }
}

/// The log is read line by line as it was written: one incident each, in the
/// order in which they were appended.
pub proof fn lemma_log_has_one_line_each(all: Seq<Incident>)
    ensures
        lines(written(log_lines(all))) == log_lines(all),
{
    let l = log_lines(all);
    assert forall|k: int| 0 <= k < l.len() implies {
        let line = #[trigger] l[k];
        unbroken(line) && line.len() > 0 && line.last() == '}'
    } by {
        lemma_incident_is_one_line(all[k]);
    }
    lemma_lines_of_written(l);
}

/// Whoever reads the log finds every incident that was appended to it, to the
/// precision that the log keeps.
pub proof fn lemma_log_is_found_again(all: Seq<Incident>, found: Seq<Option<Incident>>, k: int)
    requires
        0 <= k < all.len(),
        finite_incident(all[k]),
        recorded(found, lines(written(log_lines(all)))),
    ensures
        found[k] matches Some(i) && i@ == logged(all[k]),
{
    lemma_log_has_one_line_each(all);
    lemma_incident_is_one_line(all[k]);
    lemma_log_reads_back(all[k]);
    let line = all[k].jsonl();
    assert(lines(written(log_lines(all)))[k] == line);
    assert(stands_on(found[k], line));
    lemma_trim_keeps(line);
}

/// A text that ends in a brace is not blank.
proof fn lemma_trim_keeps(s: Seq<char>)
    requires
        s.len() > 0,
        s.last() == '}',
    ensures
        trim(s).len() > 0,
{
    lemma_trim_start_keeps(s);
}

proof fn lemma_trim_start_keeps(s: Seq<char>)
    requires
        s.len() > 0,
        s.last() == '}',
    ensures
        trim_start(s).len() > 0,
        trim_start(s).last() == '}',
    decreases s.len(),
{
    if is_space(s[0]) {
        assert(s.len() > 1) by {
            if s.len() == 1 {
                assert(s.last() == s[0]);
            }
        }
        assert(s.drop_first().last() == s.last());
        lemma_trim_start_keeps(s.drop_first());
    }
}

} // verus!
