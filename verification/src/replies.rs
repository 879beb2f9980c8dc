//! Every JSON text that leaves the program is valid JSON.
//!
//! Reports go out on one line and on many, Varlink requests are answered and
//! refused, and the doctor writes down what it found. Each of these texts reads
//! as a document, and the two ways to write a report say the same.

use vstd::prelude::*;

use crate::daemon::{StepView, step_for};
use crate::decimal::fixed;
use crate::doctor::{Outcome, Status, check_json, check_jsons, diagnosis_json};
use crate::float::whole;
use crate::json::{Value, document, skip_ws};
use crate::pathology::Warning;
use crate::readback::{
    cause_value, cause_values, finite_report, finite_stall, lemma_compact_report_is_valid_json,
    lemma_kind_is_plain, lemma_report_says, lemma_resource_is_plain, lemma_role_is_plain,
    lemma_severity_is_plain, report_fields, report_value, stall_value, stall_values, warning_value,
    warning_values,
};
use crate::report::{
    Cause, Report, Stall, cause_line, cause_lines, flag_text, json_text, listed, stall_line,
    stall_lines, warning_line, warning_lines,
};
use crate::text::{decimal, join, lemma_join_push};
use crate::varlink::{
    CallErrorView, CallView, INTERFACE, INTERFACE_DESCRIPTION, VERSION, call_in, description_text,
    error_text, info_text, refusal_text,
};
use crate::wellformed::{
    all_say, bracketed, kept_places, key_mark, lemma_add, lemma_add_spaced, lemma_add_word,
    lemma_array_says, lemma_decimal_reads_back, lemma_empty_array_says, lemma_fixed_reads_back,
    lemma_flag_reads_back, lemma_json_text_reads_back, lemma_object_says, lemma_open,
    lemma_open_spaced, lemma_requote, lemma_says_between_blanks, lemma_says_document,
    lemma_skip_blanks, lemma_word_reads_back, opens, plain, quoted, says, spaced_mark,
};

verus! {

// ── a report on many lines ─────────────────────────────────────────────

proof fn lemma_stall_line_says(s: Stall)
    requires
        finite_stall(s),
    ensures
        says(stall_line(s), stall_value(s)),
{
    lemma_json_text_reads_back(s.unit@);
    lemma_json_text_reads_back(s.cgroup@);
    lemma_decimal_reads_back(s.delta_usec as nat);
    lemma_fixed_reads_back(s.pressure_pct, 2);
    lemma_fixed_reads_back(s.peak_pct, 2);
    lemma_resource_is_plain(s.resource);
    lemma_kind_is_plain(s.kind);
    reveal_strlit("unit");
    reveal_strlit("cgroup");
    reveal_strlit("resource");
    reveal_strlit("type");
    reveal_strlit("delta_usec");
    reveal_strlit("pressure_pct");
    reveal_strlit("peak_pct");
    reveal_strlit("    {\"unit\": ");
    reveal_strlit(", \"cgroup\": ");
    reveal_strlit(", \"resource\": \"");
    reveal_strlit("\", \"type\": \"");
    reveal_strlit("\", \"delta_usec\": ");
    reveal_strlit(", \"pressure_pct\": ");
    reveal_strlit(", \"peak_pct\": ");
    reveal_strlit("}");
    let first = seq!['{'] + seq![] + seq!['"'] + "unit"@ + seq!['"', ':', ' '];
    let indent = seq![' ', ' ', ' ', ' '];
    assert("    {\"unit\": "@ =~= indent + first);
    lemma_skip_blanks(indent, first);
    assert(", \"cgroup\": "@ =~= spaced_mark("cgroup"@));
    assert(", \"resource\": \""@ =~= spaced_mark("resource"@) + seq!['"']);
    assert("\", \"type\": \""@ =~= seq!['"'] + (spaced_mark("type"@) + seq!['"']));
    assert("\", \"delta_usec\": "@ =~= seq!['"'] + spaced_mark("delta_usec"@));
    assert(", \"pressure_pct\": "@ =~= spaced_mark("pressure_pct"@));
    assert(", \"peak_pct\": "@ =~= spaced_mark("peak_pct"@));
    assert("}"@ =~= seq!['}']);
    let v1 = Value::Str(s.unit@);
    lemma_open_spaced("    {\"unit\": "@, seq![], "unit"@, json_text(s.unit@), v1);
    let p1 = "    {\"unit\": "@ + json_text(s.unit@);
    let m1 = Map::<Seq<char>, Value>::empty().insert("unit"@, v1);
    let v2 = Value::Str(s.cgroup@);
    lemma_add_spaced(p1, m1, "cgroup"@, json_text(s.cgroup@), v2);
    let p2 = p1 + spaced_mark("cgroup"@) + json_text(s.cgroup@);
    let m2 = m1.insert("cgroup"@, v2);
    let v3 = Value::Str(s.resource.name());
    lemma_word_reads_back(s.resource.name());
    lemma_add_spaced(p2, m2, "resource"@, quoted(s.resource.name()), v3);
    let p3 = p2 + spaced_mark("resource"@) + quoted(s.resource.name());
    let m3 = m2.insert("resource"@, v3);
    lemma_requote(p2, spaced_mark("resource"@), s.resource.name(), spaced_mark("type"@) + seq!['"']);
    let v4 = Value::Str(s.kind.name());
    lemma_word_reads_back(s.kind.name());
    lemma_add_spaced(p3, m3, "type"@, quoted(s.kind.name()), v4);
    let p4 = p3 + spaced_mark("type"@) + quoted(s.kind.name());
    let m4 = m3.insert("type"@, v4);
    lemma_requote(p3, spaced_mark("type"@), s.kind.name(), spaced_mark("delta_usec"@));
    let v5 = Value::Num(whole(s.delta_usec as int));
    lemma_add_spaced(p4, m4, "delta_usec"@, decimal(s.delta_usec as nat), v5);
    let p5 = p4 + spaced_mark("delta_usec"@) + decimal(s.delta_usec as nat);
    let m5 = m4.insert("delta_usec"@, v5);
    let v6 = Value::Num(kept_places(s.pressure_pct, 2));
    lemma_add_spaced(p5, m5, "pressure_pct"@, fixed(s.pressure_pct, 2), v6);
    let p6 = p5 + spaced_mark("pressure_pct"@) + fixed(s.pressure_pct, 2);
    let m6 = m5.insert("pressure_pct"@, v6);
    let v7 = Value::Num(kept_places(s.peak_pct, 2));
    lemma_add_spaced(p6, m6, "peak_pct"@, fixed(s.peak_pct, 2), v7);
    let p7 = p6 + spaced_mark("peak_pct"@) + fixed(s.peak_pct, 2);
    let m7 = m6.insert("peak_pct"@, v7);
    lemma_object_says(p7, m7);
}

proof fn lemma_cause_line_says(c: Cause)
    requires
        c.pressure_pct.is_finite(),
    ensures
        says(cause_line(c), cause_value(c)),
{
    lemma_json_text_reads_back(c.unit@);
    lemma_json_text_reads_back(c.cgroup@);
    lemma_decimal_reads_back(c.read_bytes as nat);
    lemma_decimal_reads_back(c.write_bytes as nat);
    lemma_decimal_reads_back(c.discard_bytes as nat);
    lemma_fixed_reads_back(c.pressure_pct, 2);
    lemma_role_is_plain(c.role);
    reveal_strlit("unit");
    reveal_strlit("cgroup");
    reveal_strlit("read_bytes");
    reveal_strlit("write_bytes");
    reveal_strlit("discard_bytes");
    reveal_strlit("pressure_pct");
    reveal_strlit("role");
    reveal_strlit("    {\"unit\": ");
    reveal_strlit(", \"cgroup\": ");
    reveal_strlit(", \"read_bytes\": ");
    reveal_strlit(", \"write_bytes\": ");
    reveal_strlit(", \"discard_bytes\": ");
    reveal_strlit(", \"pressure_pct\": ");
    reveal_strlit(", \"role\": \"");
    reveal_strlit("\"}");
    let first = seq!['{'] + seq![] + seq!['"'] + "unit"@ + seq!['"', ':', ' '];
    let indent = seq![' ', ' ', ' ', ' '];
    assert("    {\"unit\": "@ =~= indent + first);
    lemma_skip_blanks(indent, first);
    assert(", \"cgroup\": "@ =~= spaced_mark("cgroup"@));
    assert(", \"read_bytes\": "@ =~= spaced_mark("read_bytes"@));
    assert(", \"write_bytes\": "@ =~= spaced_mark("write_bytes"@));
    assert(", \"discard_bytes\": "@ =~= spaced_mark("discard_bytes"@));
    assert(", \"pressure_pct\": "@ =~= spaced_mark("pressure_pct"@));
    assert(", \"role\": \""@ =~= spaced_mark("role"@) + seq!['"']);
    assert("\"}"@ =~= seq!['"'] + seq!['}']);
    let v1 = Value::Str(c.unit@);
    lemma_open_spaced("    {\"unit\": "@, seq![], "unit"@, json_text(c.unit@), v1);
    let p1 = "    {\"unit\": "@ + json_text(c.unit@);
    let m1 = Map::<Seq<char>, Value>::empty().insert("unit"@, v1);
    let v2 = Value::Str(c.cgroup@);
    lemma_add_spaced(p1, m1, "cgroup"@, json_text(c.cgroup@), v2);
    let p2 = p1 + spaced_mark("cgroup"@) + json_text(c.cgroup@);
    let m2 = m1.insert("cgroup"@, v2);
    let v3 = Value::Num(whole(c.read_bytes as int));
    lemma_add_spaced(p2, m2, "read_bytes"@, decimal(c.read_bytes as nat), v3);
    let p3 = p2 + spaced_mark("read_bytes"@) + decimal(c.read_bytes as nat);
    let m3 = m2.insert("read_bytes"@, v3);
    let v4 = Value::Num(whole(c.write_bytes as int));
    lemma_add_spaced(p3, m3, "write_bytes"@, decimal(c.write_bytes as nat), v4);
    let p4 = p3 + spaced_mark("write_bytes"@) + decimal(c.write_bytes as nat);
    let m4 = m3.insert("write_bytes"@, v4);
    let v5 = Value::Num(whole(c.discard_bytes as int));
    lemma_add_spaced(p4, m4, "discard_bytes"@, decimal(c.discard_bytes as nat), v5);
    let p5 = p4 + spaced_mark("discard_bytes"@) + decimal(c.discard_bytes as nat);
    let m5 = m4.insert("discard_bytes"@, v5);
    let v6 = Value::Num(kept_places(c.pressure_pct, 2));
    lemma_add_spaced(p5, m5, "pressure_pct"@, fixed(c.pressure_pct, 2), v6);
    let p6 = p5 + spaced_mark("pressure_pct"@) + fixed(c.pressure_pct, 2);
    let m6 = m5.insert("pressure_pct"@, v6);
    let v7 = Value::Str(c.role.name());
    lemma_word_reads_back(c.role.name());
    lemma_add_spaced(p6, m6, "role"@, quoted(c.role.name()), v7);
    let p7 = p6 + spaced_mark("role"@) + quoted(c.role.name());
    let m7 = m6.insert("role"@, v7);
    lemma_requote(p6, spaced_mark("role"@), c.role.name(), seq!['}']);
    lemma_object_says(p7, m7);
}

proof fn lemma_warning_line_says(w: Warning)
    ensures
        says(warning_line(w), warning_value(w)),
{
    lemma_json_text_reads_back(w.source@);
    lemma_json_text_reads_back(w.message@);
    lemma_flag_reads_back(w.transient);
    lemma_severity_is_plain(w.severity);
    reveal_strlit("source");
    reveal_strlit("severity");
    reveal_strlit("transient");
    reveal_strlit("message");
    reveal_strlit("    {\"source\": ");
    reveal_strlit(", \"severity\": \"");
    reveal_strlit("\", \"transient\": ");
    reveal_strlit(", \"message\": ");
    reveal_strlit("}");
    let first = seq!['{'] + seq![] + seq!['"'] + "source"@ + seq!['"', ':', ' '];
    let indent = seq![' ', ' ', ' ', ' '];
    assert("    {\"source\": "@ =~= indent + first);
    lemma_skip_blanks(indent, first);
    assert(", \"severity\": \""@ =~= spaced_mark("severity"@) + seq!['"']);
    assert("\", \"transient\": "@ =~= seq!['"'] + spaced_mark("transient"@));
    assert(", \"message\": "@ =~= spaced_mark("message"@));
    assert("}"@ =~= seq!['}']);
    let v1 = Value::Str(w.source@);
    lemma_open_spaced("    {\"source\": "@, seq![], "source"@, json_text(w.source@), v1);
    let p1 = "    {\"source\": "@ + json_text(w.source@);
    let m1 = Map::<Seq<char>, Value>::empty().insert("source"@, v1);
    let v2 = Value::Str(w.severity.name());
    lemma_word_reads_back(w.severity.name());
    lemma_add_spaced(p1, m1, "severity"@, quoted(w.severity.name()), v2);
    let p2 = p1 + spaced_mark("severity"@) + quoted(w.severity.name());
    let m2 = m1.insert("severity"@, v2);
    lemma_requote(p1, spaced_mark("severity"@), w.severity.name(), spaced_mark("transient"@));
    let v3 = Value::Bool(w.transient);
    lemma_add_spaced(p2, m2, "transient"@, flag_text(w.transient), v3);
    let p3 = p2 + spaced_mark("transient"@) + flag_text(w.transient);
    let m3 = m2.insert("transient"@, v3);
    let v4 = Value::Str(w.message@);
    lemma_add_spaced(p3, m3, "message"@, json_text(w.message@), v4);
    let p4 = p3 + spaced_mark("message"@) + json_text(w.message@);
    let m4 = m3.insert("message"@, v4);
    lemma_object_says(p4, m4);
}

/// The lines of an array as pieces with a comma between: a line break stands
/// before each, and the last one is followed by what closes the array.
spec fn line_parts(lines: Seq<Seq<char>>, tail: Seq<char>) -> Seq<Seq<char>> {
    Seq::new(
        lines.len(),
        |i: int|
            if i == lines.len() - 1 {
                seq!['\n'] + lines[i] + tail
            } else {
                seq!['\n'] + lines[i] + seq![]
            },
    )
}

proof fn lemma_listed(lines: Seq<Seq<char>>, k: nat)
    requires
        0 < k < lines.len(),
    ensures
        seq!['\n'] + listed(lines, k) == join(line_parts(lines, seq![]).take(k as int), seq![','])
            + seq![',', '\n'],
    decreases k,
{
    reveal_strlit(",\n");
    assert(",\n"@ =~= seq![',', '\n']);
    let parts = line_parts(lines, seq![]);
    let i = (k - 1) as nat;
    let front = parts.take(i as int);
    assert(parts.take(k as int) =~= front.push(parts[i as int]));
    lemma_join_push(front, parts[i as int], seq![',']);
    assert(parts[i as int] =~= seq!['\n'] + lines[i as int]);
    if k == 1 {
        assert(listed(lines, 0) =~= seq![]);
        assert(seq!['\n'] + listed(lines, k) =~= parts[0] + seq![',', '\n']);
    } else {
        lemma_listed(lines, i);
        let j = join(front, seq![',']);
        assert(seq!['\n'] + listed(lines, k) =~= (seq!['\n'] + listed(lines, i)) + lines[i as int]
            + seq![',', '\n']);
        assert(j + seq![',', '\n'] + lines[i as int] + seq![',', '\n'] =~= j + seq![',']
            + parts[i as int] + seq![',', '\n']);
    }
}

/// The lines of an array say an array.
proof fn lemma_lines_say(lines: Seq<Seq<char>>, vs: Seq<Value>)
    requires
        all_say(lines, vs),
    ensures
        says(
            bracketed(seq!['\n'] + listed(lines, lines.len()) + seq![' ', ' ']),
            Value::Arr(vs),
        ),
{
    reveal_strlit("\n");
    assert("\n"@ =~= seq!['\n']);
    let n = lines.len();
    let tail = seq!['\n', ' ', ' '];
    if n == 0 {
        let blanks = seq!['\n'] + listed(lines, n) + seq![' ', ' '];
        assert(blanks =~= seq!['\n', ' ', ' ']);
        lemma_empty_array_says(blanks);
        assert(vs =~= seq![]);
    } else {
        let parts = line_parts(lines, tail);
        assert forall|i: int| 0 <= i < n implies says(#[trigger] parts[i], vs[i]) by {
            assert(says(lines[i], vs[i]));
            if i == n - 1 {
                lemma_says_between_blanks(seq!['\n'], lines[i], tail, vs[i]);
            } else {
                lemma_says_between_blanks(seq!['\n'], lines[i], seq![], vs[i]);
            }
        }
        lemma_array_says(parts, vs);
        let i = (n - 1) as nat;
        let front = parts.take(i as int);
        assert(front =~= line_parts(lines, seq![]).take(i as int));
        assert(parts =~= front.push(parts[i as int]));
        lemma_join_push(front, parts[i as int], seq![',']);
        let text = seq!['\n'] + listed(lines, n) + seq![' ', ' '];
        if n == 1 {
            assert(listed(lines, 0) =~= seq![]);
            assert(text =~= parts[0]);
        } else {
            lemma_listed(lines, i);
            let j = join(front, seq![',']);
            assert(text =~= (seq!['\n'] + listed(lines, i)) + lines[i as int] + tail);
            assert(j + seq![',', '\n'] + lines[i as int] + tail =~= j + seq![','] + parts[i as int]);
        }
        assert(text == join(parts, seq![',']));
    }
}

spec fn text_after_blank(key: Seq<char>) -> Seq<char> {
    seq![',', '\n', ' ', ' ', '"'] + key + seq!['"', ':', ' ']
}

/// A further member on a line of its own.
proof fn lemma_add_on_line(
    p: Seq<char>,
    m: Map<Seq<char>, Value>,
    key: Seq<char>,
    t: Seq<char>,
    v: Value,
)
    requires
        opens(p, m),
        plain(key),
        says(t, v),
    ensures
        opens(p + text_after_blank(key) + t, m.insert(key, v)),
{
    let lead = seq!['\n', ' ', ' '];
    let lit = seq![','] + lead + seq!['"'] + key + seq!['"', ':'];
    lemma_says_between_blanks(seq![' '], t, seq![], v);
    let padded = seq![' '] + t + seq![];
    lemma_add(p, m, lit, lead, key, padded, v);
    assert(p + lit + padded =~= p + text_after_blank(key) + t);
}

/// Brackets that stand in the literals around an array belong to it.
proof fn lemma_rebracket_lines(p: Seq<char>, mark: Seq<char>, inner: Seq<char>, next: Seq<char>)
    ensures
        p + (mark + seq!['[', '\n']) + inner + (seq![' ', ' ', ']'] + next) == p + mark + bracketed(
            seq!['\n'] + inner + seq![' ', ' '],
        ) + next,
{
    assert(p + (mark + seq!['[', '\n']) + inner + (seq![' ', ' ', ']'] + next) =~= p + mark
        + bracketed(seq!['\n'] + inner + seq![' ', ' ']) + next);
}

proof fn lemma_stall_lines_say(s: Seq<Stall>)
    requires
        forall|i: int| 0 <= i < s.len() ==> finite_stall(#[trigger] s[i]),
    ensures
        all_say(stall_lines(s), stall_values(s)),
{
    assert forall|i: int| 0 <= i < s.len() implies says(
        #[trigger] stall_lines(s)[i],
        stall_values(s)[i],
    ) by {
        lemma_stall_line_says(s[i]);
    }
}

proof fn lemma_cause_lines_say(c: Seq<Cause>)
    requires
        forall|i: int| 0 <= i < c.len() ==> (#[trigger] c[i]).pressure_pct.is_finite(),
    ensures
        all_say(cause_lines(c), cause_values(c)),
{
    assert forall|i: int| 0 <= i < c.len() implies says(
        #[trigger] cause_lines(c)[i],
        cause_values(c)[i],
    ) by {
        lemma_cause_line_says(c[i]);
    }
}

proof fn lemma_warning_lines_say(w: Seq<Warning>)
    ensures
        all_say(warning_lines(w), warning_values(w)),
{
    assert forall|i: int| 0 <= i < w.len() implies says(
        #[trigger] warning_lines(w)[i],
        warning_values(w)[i],
    ) by {
        lemma_warning_line_says(w[i]);
    }
}

/// The literals of a report on many lines, taken apart.
proof fn lemma_marks_on_lines()
    ensures
        plain("window_usec"@),
        plain("stalls"@),
        plain("causes"@),
        plain("warnings"@),
        skip_ws("{\n  \"window_usec\": "@) == seq!['{'] + seq!['\n', ' ', ' '] + seq!['"']
            + "window_usec"@ + seq!['"', ':', ' '],
        ",\n  \"stalls\": [\n"@ == text_after_blank("stalls"@) + seq!['[', '\n'],
        "  ],\n  \"causes\": [\n"@ == seq![' ', ' ', ']'] + (text_after_blank("causes"@) + seq![
            '[',
            '\n',
        ]),
        "  ],\n  \"warnings\": [\n"@ == seq![' ', ' ', ']'] + (text_after_blank("warnings"@)
            + seq!['[', '\n']),
        "  ]\n}"@ == seq![' ', ' ', ']'] + seq!['\n', '}'],
{
    reveal_strlit("window_usec");
    reveal_strlit("stalls");
    reveal_strlit("causes");
    reveal_strlit("warnings");
    reveal_strlit("{\n  \"window_usec\": ");
    reveal_strlit(",\n  \"stalls\": [\n");
    reveal_strlit("  ],\n  \"causes\": [\n");
    reveal_strlit("  ],\n  \"warnings\": [\n");
    reveal_strlit("  ]\n}");
    let lead = seq!['\n', ' ', ' '];
    assert("{\n  \"window_usec\": "@ =~= seq!['{'] + lead + seq!['"'] + "window_usec"@ + seq![
        '"',
        ':',
        ' ',
    ]);
    assert(",\n  \"stalls\": [\n"@ =~= text_after_blank("stalls"@) + seq!['[', '\n']);
    assert("  ],\n  \"causes\": [\n"@ =~= seq![' ', ' ', ']'] + (text_after_blank("causes"@) + seq![
        '[',
        '\n',
    ]));
    assert("  ],\n  \"warnings\": [\n"@ =~= seq![' ', ' ', ']'] + (text_after_blank("warnings"@)
        + seq!['[', '\n']));
    assert("  ]\n}"@ =~= seq![' ', ' ', ']'] + seq!['\n', '}']);
}

#[verifier::spinoff_prover]
#[verifier::rlimit(60)]
proof fn lemma_many_lines_say(r: Report)
    requires
        finite_report(r.stalls@, r.causes@),
    ensures
        says(r.json(), report_value(r)),
{
    let s = listed(stall_lines(r.stalls@), r.stalls@.len());
    let c = listed(cause_lines(r.causes@), r.causes@.len());
    let w = listed(warning_lines(r.warnings@), r.warnings@.len());
    lemma_stall_lines_say(r.stalls@);
    lemma_cause_lines_say(r.causes@);
    lemma_warning_lines_say(r.warnings@);
    lemma_lines_say(stall_lines(r.stalls@), stall_values(r.stalls@));
    lemma_lines_say(cause_lines(r.causes@), cause_values(r.causes@));
    lemma_lines_say(warning_lines(r.warnings@), warning_values(r.warnings@));
    lemma_decimal_reads_back(r.window_usec as nat);
    lemma_marks_on_lines();
    let lead = seq!['\n', ' ', ' '];
    let d = decimal(r.window_usec as nat);
    let v1 = Value::Num(whole(r.window_usec as int));
    lemma_open_spaced("{\n  \"window_usec\": "@, lead, "window_usec"@, d, v1);
    let p1 = "{\n  \"window_usec\": "@ + d;
    let m1 = Map::<Seq<char>, Value>::empty().insert("window_usec"@, v1);
    let ts = bracketed(seq!['\n'] + s + seq![' ', ' ']);
    let v2 = Value::Arr(stall_values(r.stalls@));
    lemma_add_on_line(p1, m1, "stalls"@, ts, v2);
    let p2 = p1 + text_after_blank("stalls"@) + ts;
    let m2 = m1.insert("stalls"@, v2);
    lemma_rebracket_lines(
        p1,
        text_after_blank("stalls"@),
        s,
        text_after_blank("causes"@) + seq!['[', '\n'],
    );
    let tc = bracketed(seq!['\n'] + c + seq![' ', ' ']);
    let v3 = Value::Arr(cause_values(r.causes@));
    lemma_add_on_line(p2, m2, "causes"@, tc, v3);
    let p3 = p2 + text_after_blank("causes"@) + tc;
    let m3 = m2.insert("causes"@, v3);
    lemma_rebracket_lines(
        p2,
        text_after_blank("causes"@),
        c,
        text_after_blank("warnings"@) + seq!['[', '\n'],
    );
    let tw = bracketed(seq!['\n'] + w + seq![' ', ' ']);
    let broken = seq![] + tw + seq!['\n'];
    let v4 = Value::Arr(warning_values(r.warnings@));
    lemma_says_between_blanks(seq![], tw, seq!['\n'], v4);
    lemma_add_on_line(p3, m3, "warnings"@, broken, v4);
    let p4 = p3 + text_after_blank("warnings"@) + broken;
    let m4 = m3.insert("warnings"@, v4);
    lemma_rebracket_lines(p3, text_after_blank("warnings"@), w, seq!['\n', '}']);
    lemma_object_says(p4, m4);
    assert(p3 + text_after_blank("warnings"@) + tw + seq!['\n', '}'] =~= p4 + seq!['}']);
    assert(m4 == report_fields(Map::empty(), r.window_usec, r.stalls@, r.causes@, r.warnings@));
}

/// A report on many lines is valid JSON, and it says what the same report says
/// on one line: two renderers that could drift would be two schemas.
pub proof fn lemma_both_renderers_agree(r: Report)
    requires
        finite_report(r.stalls@, r.causes@),
    ensures
        document(r.json()) == Ok::<Value, Seq<char>>(report_value(r)),
        document(r.json_compact()) == document(r.json()),
{
    lemma_many_lines_say(r);
    lemma_says_document(r.json(), report_value(r));
    lemma_compact_report_is_valid_json(r);
}

// ── Varlink ────────────────────────────────────────────────────────────

/// An object with one member.
pub open spec fn one_member(key: Seq<char>, v: Value) -> Value {
    Value::Obj(Map::<Seq<char>, Value>::empty().insert(key, v))
}

proof fn lemma_one_member(lit: Seq<char>, key: Seq<char>, t: Seq<char>, v: Value)
    requires
        lit == seq!['{'] + seq![] + seq!['"'] + key + seq!['"', ':'],
        plain(key),
        says(t, v),
    ensures
        says(lit + t + "}"@, one_member(key, v)),
{
    reveal_strlit("}");
    assert("}"@ =~= seq!['}']);
    lemma_open(lit, seq![], key, t, v);
    lemma_object_says(lit + t, Map::<Seq<char>, Value>::empty().insert(key, v));
}

/// A report as a reply is valid JSON: the report stands under `parameters`.
pub proof fn lemma_report_reply_is_valid_json(r: Report)
    requires
        finite_report(r.stalls@, r.causes@),
    ensures
        document("{\"parameters\":"@ + r.json_compact() + "}"@) == Ok::<Value, Seq<char>>(
            one_member("parameters"@, report_value(r)),
        ),
{
    lemma_report_says(r);
    let t = r.json_compact();
    assert(says("{\"parameters\":"@ + t + "}"@, one_member("parameters"@, report_value(r)))) by {
        reveal_strlit("{\"parameters\":");
        reveal_strlit("parameters");
        assert("{\"parameters\":"@ =~= seq!['{'] + seq![] + seq!['"'] + "parameters"@ + seq![
            '"',
            ':',
        ]);
        lemma_one_member("{\"parameters\":"@, "parameters"@, t, report_value(r));
    }
    lemma_says_document(
        "{\"parameters\":"@ + t + "}"@,
        one_member("parameters"@, report_value(r)),
    );
}

/// What an error reply reads as.
pub open spec fn error_value(name: Seq<char>, params: Value) -> Value {
    Value::Obj(
        Map::<Seq<char>, Value>::empty().insert("error"@, Value::Str(name)).insert(
            "parameters"@,
            params,
        ),
    )
}

proof fn lemma_error_says(name: Seq<char>, params: Seq<char>, v: Value)
    requires
        says(params, v),
    ensures
        says(error_text(name, params), error_value(name, v)),
{
    reveal_strlit("error");
    reveal_strlit("parameters");
    reveal_strlit("{\"error\":");
    reveal_strlit(",\"parameters\":");
    reveal_strlit("}");
    assert("{\"error\":"@ =~= seq!['{'] + seq![] + seq!['"'] + "error"@ + seq!['"', ':']);
    assert(",\"parameters\":"@ =~= key_mark("parameters"@));
    assert("}"@ =~= seq!['}']);
    lemma_json_text_reads_back(name);
    lemma_open("{\"error\":"@, seq![], "error"@, json_text(name), Value::Str(name));
    let p = "{\"error\":"@ + json_text(name);
    let m = Map::<Seq<char>, Value>::empty().insert("error"@, Value::Str(name));
    lemma_add(p, m, key_mark("parameters"@), seq![], "parameters"@, params, v);
    lemma_object_says(p + key_mark("parameters"@) + params, m.insert("parameters"@, v));
}

/// What a refusal reads as: the error's name, and what it is about.
pub open spec fn refusal_value(e: CallErrorView) -> Value {
    match e {
        CallErrorView::Malformed(why) => error_value(
            "org.varlink.service.InvalidParameter"@,
            one_member("parameter"@, Value::Str(why)),
        ),
        CallErrorView::UnknownMethod(m) => error_value(
            "org.varlink.service.MethodNotFound"@,
            one_member("method"@, Value::Str(m)),
        ),
        CallErrorView::UnknownInterface(i) => error_value(
            "org.varlink.service.InterfaceNotFound"@,
            one_member("interface"@, Value::Str(i)),
        ),
    }
}

proof fn lemma_refusal_says(e: CallErrorView)
    ensures
        says(refusal_text(e), refusal_value(e)),
{
    match e {
        CallErrorView::Malformed(why) => {
            reveal_strlit("{\"parameter\":");
            reveal_strlit("parameter");
            assert("{\"parameter\":"@ =~= seq!['{'] + seq![] + seq!['"'] + "parameter"@ + seq![
                '"',
                ':',
            ]);
            lemma_json_text_reads_back(why);
            lemma_one_member("{\"parameter\":"@, "parameter"@, json_text(why), Value::Str(why));
            lemma_error_says(
                "org.varlink.service.InvalidParameter"@,
                "{\"parameter\":"@ + json_text(why) + "}"@,
                one_member("parameter"@, Value::Str(why)),
            );
        },
        CallErrorView::UnknownMethod(m) => {
            reveal_strlit("{\"method\":");
            reveal_strlit("method");
            assert("{\"method\":"@ =~= seq!['{'] + seq![] + seq!['"'] + "method"@ + seq!['"', ':']);
            lemma_json_text_reads_back(m);
            lemma_one_member("{\"method\":"@, "method"@, json_text(m), Value::Str(m));
            lemma_error_says(
                "org.varlink.service.MethodNotFound"@,
                "{\"method\":"@ + json_text(m) + "}"@,
                one_member("method"@, Value::Str(m)),
            );
        },
        CallErrorView::UnknownInterface(i) => {
            reveal_strlit("{\"interface\":");
            reveal_strlit("interface");
            assert("{\"interface\":"@ =~= seq!['{'] + seq![] + seq!['"'] + "interface"@ + seq![
                '"',
                ':',
            ]);
            lemma_json_text_reads_back(i);
            lemma_one_member("{\"interface\":"@, "interface"@, json_text(i), Value::Str(i));
            lemma_error_says(
                "org.varlink.service.InterfaceNotFound"@,
                "{\"interface\":"@ + json_text(i) + "}"@,
                one_member("interface"@, Value::Str(i)),
            );
        },
    }
}

/// A refused request is answered with valid JSON that names the error and what
/// it is about, whatever the request held.
pub proof fn lemma_refusal_is_valid_json(e: CallErrorView)
    ensures
        document(refusal_text(e)) == Ok::<Value, Seq<char>>(refusal_value(e)),
{
    lemma_refusal_says(e);
    lemma_says_document(refusal_text(e), refusal_value(e));
}

/// The interface definition as a reply is valid JSON and gives the definition
/// back.
pub proof fn lemma_description_is_valid_json()
    ensures
        document(description_text()) == Ok::<Value, Seq<char>>(
            one_member(
                "parameters"@,
                one_member("description"@, Value::Str(INTERFACE_DESCRIPTION@)),
            ),
        ),
{
    let inner = one_member("description"@, Value::Str(INTERFACE_DESCRIPTION@));
    let t = json_text(INTERFACE_DESCRIPTION@);
    assert(says(description_text(), one_member("parameters"@, inner))) by {
        reveal_strlit("parameters");
        reveal_strlit("description");
        reveal_strlit("{\"parameters\":{\"description\":");
        reveal_strlit("}}");
        reveal_strlit("}");
        let a = seq!['{'] + seq![] + seq!['"'] + "parameters"@ + seq!['"', ':'];
        let b = seq!['{'] + seq![] + seq!['"'] + "description"@ + seq!['"', ':'];
        assert("{\"parameters\":{\"description\":"@ =~= a + b);
        assert("}}"@ =~= "}"@ + "}"@);
        lemma_json_text_reads_back(INTERFACE_DESCRIPTION@);
        lemma_one_member(b, "description"@, t, Value::Str(INTERFACE_DESCRIPTION@));
        lemma_one_member(a, "parameters"@, b + t + "}"@, inner);
        assert(description_text() =~= a + (b + t + "}"@) + "}"@);
    }
    lemma_says_document(description_text(), one_member("parameters"@, inner));
}

/// What the service says of itself, read.
pub open spec fn info_value() -> Value {
    one_member(
        "parameters"@,
        Value::Obj(
            Map::<Seq<char>, Value>::empty().insert("vendor"@, Value::Str("stallwatch"@)).insert(
                "product"@,
                Value::Str("stallwatch"@),
            ).insert("version"@, Value::Str(VERSION@)).insert(
                "url"@,
                Value::Str("https://github.com/varbees/stallwatch"@),
            ).insert(
                "interfaces"@,
                Value::Arr(
                    seq![Value::Str("org.varlink.service"@), Value::Str(INTERFACE@)],
                ),
            ),
        ),
    )
}

proof fn lemma_interfaces_say()
    ensures
        says(
            bracketed(quoted("org.varlink.service"@) + seq![','] + quoted(INTERFACE@)),
            Value::Arr(seq![Value::Str("org.varlink.service"@), Value::Str(INTERFACE@)]),
        ),
{
    reveal_strlit("org.varlink.service");
    reveal_strlit("dev.stallwatch.Monitor");
    lemma_word_reads_back("org.varlink.service"@);
    lemma_word_reads_back(INTERFACE@);
    let parts = seq![quoted("org.varlink.service"@), quoted(INTERFACE@)];
    let vs = seq![Value::Str("org.varlink.service"@), Value::Str(INTERFACE@)];
    assert(all_say(parts, vs));
    lemma_array_says(parts, vs);
    assert(parts.drop_last() =~= seq![quoted("org.varlink.service"@)]);
    assert(join(parts.drop_last(), seq![',']) == quoted("org.varlink.service"@));
}

spec fn info_front() -> Seq<char> {
    seq!['{', '"'] + "vendor"@ + seq!['"', ':'] + quoted("stallwatch"@) + key_mark("product"@)
        + quoted("stallwatch"@)
}

proof fn lemma_info_front()
    ensures
        opens(
            info_front(),
            Map::<Seq<char>, Value>::empty().insert("vendor"@, Value::Str("stallwatch"@)).insert(
                "product"@,
                Value::Str("stallwatch"@),
            ),
        ),
        "{\"parameters\":{\"vendor\":\"stallwatch\",\"product\":\"stallwatch\",\"version\":"@
            == "{\"parameters\":"@ + (info_front() + key_mark("version"@)),
{
    reveal_strlit("vendor");
    reveal_strlit("product");
    reveal_strlit("version");
    reveal_strlit("stallwatch");
    reveal_strlit("{\"parameters\":");
    reveal_strlit(
        "{\"parameters\":{\"vendor\":\"stallwatch\",\"product\":\"stallwatch\",\"version\":",
    );
    assert("{\"parameters\":{\"vendor\":\"stallwatch\",\"product\":\"stallwatch\",\"version\":"@
        =~= "{\"parameters\":"@ + (info_front() + key_mark("version"@)));
    let lit = seq!['{', '"'] + "vendor"@ + seq!['"', ':'];
    assert(lit =~= seq!['{'] + seq![] + seq!['"'] + "vendor"@ + seq!['"', ':']);
    lemma_word_reads_back("stallwatch"@);
    lemma_open(lit, seq![], "vendor"@, quoted("stallwatch"@), Value::Str("stallwatch"@));
    lemma_add_word(
        lit + quoted("stallwatch"@),
        Map::<Seq<char>, Value>::empty().insert("vendor"@, Value::Str("stallwatch"@)),
        "product"@,
        "stallwatch"@,
    );
}

proof fn lemma_info_says()
    ensures
        says(info_text(), info_value()),
{
    lemma_info_front();
    lemma_interfaces_say();
    lemma_json_text_reads_back(VERSION@);
    let url = "https://github.com/varbees/stallwatch"@;
    let list = bracketed(quoted("org.varlink.service"@) + seq![','] + quoted(INTERFACE@));
    let lit2 =
        ",\"url\":\"https://github.com/varbees/stallwatch\",\"interfaces\":[\"org.varlink.service\",\""@;
    let p = info_front();
    let m = Map::<Seq<char>, Value>::empty().insert("vendor"@, Value::Str("stallwatch"@)).insert(
        "product"@,
        Value::Str("stallwatch"@),
    );
    reveal_strlit("version");
    reveal_strlit("url");
    reveal_strlit("interfaces");
    reveal_strlit("parameters");
    let p1 = p + key_mark("version"@) + json_text(VERSION@);
    let m1 = m.insert("version"@, Value::Str(VERSION@));
    lemma_add(p, m, key_mark("version"@), seq![], "version"@, json_text(VERSION@), Value::Str(
        VERSION@,
    ));
    let p2 = p1 + key_mark("url"@) + quoted(url);
    let m2 = m1.insert("url"@, Value::Str(url));
    assert(plain(url)) by {
        reveal_strlit("https://github.com/varbees/stallwatch");
    }
    lemma_add_word(p1, m1, "url"@, url);
    let v3 = Value::Arr(seq![Value::Str("org.varlink.service"@), Value::Str(INTERFACE@)]);
    lemma_add(p2, m2, key_mark("interfaces"@), seq![], "interfaces"@, list, v3);
    let p3 = p2 + key_mark("interfaces"@) + list;
    let m3 = m2.insert("interfaces"@, v3);
    lemma_object_says(p3, m3);
    reveal_strlit("{\"parameters\":");
    reveal_strlit("}");
    assert("}"@ =~= seq!['}']);
    assert("{\"parameters\":"@ =~= seq!['{'] + seq![] + seq!['"'] + "parameters"@ + seq!['"', ':']);
    lemma_one_member("{\"parameters\":"@, "parameters"@, p3 + seq!['}'], Value::Obj(m3));
    assert(info_text() == "{\"parameters\":"@ + (p3 + seq!['}']) + "}"@) by {
        lemma_info_rest(p1);
        let open = "{\"parameters\":"@;
        assert(open + (p + key_mark("version"@)) + json_text(VERSION@) =~= open + p1);
        let x = lit2 + INTERFACE@ + "\"]}}"@;
        assert(info_text() =~= open + (p1 + x));
        assert(open + (p3 + seq!['}'] + "}"@) =~= open + (p3 + seq!['}']) + "}"@);
    }
}

proof fn lemma_info_rest(p: Seq<char>)
    ensures
        p + (",\"url\":\"https://github.com/varbees/stallwatch\",\"interfaces\":[\"org.varlink.service\",\""@
            + INTERFACE@ + "\"]}}"@) == p + key_mark("url"@) + quoted(
            "https://github.com/varbees/stallwatch"@,
        ) + key_mark("interfaces"@) + bracketed(
            quoted("org.varlink.service"@) + seq![','] + quoted(INTERFACE@),
        ) + seq!['}'] + "}"@,
{
    reveal_strlit(
        ",\"url\":\"https://github.com/varbees/stallwatch\",\"interfaces\":[\"org.varlink.service\",\"",
    );
    reveal_strlit("https://github.com/varbees/stallwatch");
    reveal_strlit("org.varlink.service");
    reveal_strlit("url");
    reveal_strlit("interfaces");
    reveal_strlit("\"]}}");
    reveal_strlit("}");
    let lit =
        ",\"url\":\"https://github.com/varbees/stallwatch\",\"interfaces\":[\"org.varlink.service\",\""@;
    let a = key_mark("url"@) + quoted("https://github.com/varbees/stallwatch"@) + key_mark(
        "interfaces"@,
    );
    let b = seq!['['] + quoted("org.varlink.service"@) + seq![',', '"'];
    assert(lit =~= a + b);
    assert("\"]}}"@ =~= seq!['"', ']', '}', '}']);
    assert("}"@ =~= seq!['}']);
    let full = bracketed(quoted("org.varlink.service"@) + seq![','] + quoted(INTERFACE@));
    assert(full + seq!['}'] + "}"@ =~= b + INTERFACE@ + "\"]}}"@);
    assert(p + (lit + INTERFACE@ + "\"]}}"@) =~= (p + a) + (b + INTERFACE@ + "\"]}}"@));
    assert(p + key_mark("url"@) + quoted("https://github.com/varbees/stallwatch"@) + key_mark(
        "interfaces"@,
    ) =~= p + a);
    assert((p + a) + full + seq!['}'] + "}"@ =~= (p + a) + (full + seq!['}'] + "}"@));
}

/// What the service says of itself is valid JSON.
pub proof fn lemma_info_is_valid_json()
    ensures
        document(info_text()) == Ok::<Value, Seq<char>>(info_value()),
{
    lemma_info_says();
    lemma_says_document(info_text(), info_value());
}

/// Whatever a frame holds, what is answered at once is valid JSON.
pub proof fn lemma_every_frame_is_answered_with_valid_json(text: Option<Seq<char>>)
    ensures
        step_for(text) matches StepView::Reply(m) ==> document(m) is Ok,
        step_for(text) matches StepView::Last(m) ==> document(m) is Ok,
{
    lemma_info_is_valid_json();
    lemma_description_is_valid_json();
    match text {
        None => {
            lemma_refusal_is_valid_json(CallErrorView::Malformed("not UTF-8"@));
        },
        Some(t) => match call_in(document(t)) {
            Ok(CallView::GetInterfaceDescription(iface)) => {
                lemma_refusal_is_valid_json(CallErrorView::UnknownInterface(iface));
            },
            Ok(_) => {},
            Err(e) => {
                lemma_refusal_is_valid_json(e);
            },
        },
    }
}

// ── the doctor ─────────────────────────────────────────────────────────

/// What one check of a diagnosis reads as.
pub open spec fn check_value(c: Outcome) -> Value {
    Value::Obj(
        Map::<Seq<char>, Value>::empty().insert("name"@, Value::Str(c.name)).insert(
            "status"@,
            Value::Str(c.status.name()),
        ).insert("detail"@, Value::Str(c.detail)).insert("consequence"@, Value::Str(c.consequence)),
    )
}

pub open spec fn check_values(c: Seq<Outcome>) -> Seq<Value> {
    Seq::new(c.len(), |i: int| check_value(c[i]))
}

proof fn lemma_check_says(c: Outcome)
    ensures
        says(check_json(c), check_value(c)),
{
    lemma_json_text_reads_back(c.name);
    lemma_json_text_reads_back(c.detail);
    lemma_json_text_reads_back(c.consequence);
    lemma_status_is_plain(c.status);
    reveal_strlit("name");
    reveal_strlit("status");
    reveal_strlit("detail");
    reveal_strlit("consequence");
    reveal_strlit("{\"name\":");
    reveal_strlit(",\"status\":\"");
    reveal_strlit("\",\"detail\":");
    reveal_strlit(",\"consequence\":");
    reveal_strlit("}");
    assert("{\"name\":"@ =~= seq!['{'] + seq![] + seq!['"'] + "name"@ + seq!['"', ':']);
    assert(",\"status\":\""@ =~= key_mark("status"@) + seq!['"']);
    assert("\",\"detail\":"@ =~= seq!['"'] + key_mark("detail"@));
    assert(",\"consequence\":"@ =~= key_mark("consequence"@));
    assert("}"@ =~= seq!['}']);
    let v1 = Value::Str(c.name);
    lemma_open("{\"name\":"@, seq![], "name"@, json_text(c.name), v1);
    let p1 = "{\"name\":"@ + json_text(c.name);
    let m1 = Map::<Seq<char>, Value>::empty().insert("name"@, v1);
    let v2 = Value::Str(c.status.name());
    lemma_add_word(p1, m1, "status"@, c.status.name());
    let p2 = p1 + key_mark("status"@) + quoted(c.status.name());
    let m2 = m1.insert("status"@, v2);
    lemma_requote(p1, key_mark("status"@), c.status.name(), key_mark("detail"@));
    let v3 = Value::Str(c.detail);
    lemma_add(p2, m2, key_mark("detail"@), seq![], "detail"@, json_text(c.detail), v3);
    let p3 = p2 + key_mark("detail"@) + json_text(c.detail);
    let m3 = m2.insert("detail"@, v3);
    let v4 = Value::Str(c.consequence);
    lemma_add(p3, m3, key_mark("consequence"@), seq![], "consequence"@, json_text(c.consequence), v4);
    let p4 = p3 + key_mark("consequence"@) + json_text(c.consequence);
    let m4 = m3.insert("consequence"@, v4);
    lemma_object_says(p4, m4);
}

proof fn lemma_status_is_plain(s: Status)
    ensures
        plain(s.name()),
{
    reveal_strlit("ok");
    reveal_strlit("degraded");
    reveal_strlit("failed");
}

/// A diagnosis is valid JSON with every check in it.
pub proof fn lemma_diagnosis_is_valid_json(c: Seq<Outcome>)
    ensures
        document(diagnosis_json(c)) == Ok::<Value, Seq<char>>(
            one_member("checks"@, Value::Arr(check_values(c))),
        ),
{
    let v = Value::Arr(check_values(c));
    let inner = join(check_jsons(c), ","@);
    assert(says(diagnosis_json(c), one_member("checks"@, v))) by {
        reveal_strlit(",");
        assert(","@ =~= seq![',']);
        assert forall|i: int| 0 <= i < c.len() implies says(
            #[trigger] check_jsons(c)[i],
            check_values(c)[i],
        ) by {
            lemma_check_says(c[i]);
        }
        lemma_array_says(check_jsons(c), check_values(c));
        reveal_strlit("checks");
        reveal_strlit("{\"checks\":[");
        reveal_strlit("]}");
        reveal_strlit("}");
        let lit = seq!['{'] + seq![] + seq!['"'] + "checks"@ + seq!['"', ':'];
        assert("{\"checks\":["@ =~= lit + seq!['[']);
        assert("]}"@ =~= seq![']'] + "}"@);
        lemma_one_member(lit, "checks"@, bracketed(inner), v);
        assert(diagnosis_json(c) =~= lit + bracketed(inner) + "}"@);
    }
    lemma_says_document(diagnosis_json(c), one_member("checks"@, v));
}

} // verus!
