//! Where a setting comes from and what it is, told from what was written.

use vstd::prelude::*;

use crate::config::{
    Complaint, ConfigFile, Environment, Reaction, Settings, Source, after_files, built_in, expanded,
    files, flagged, in_session, layered, placeholder, resolved, rule_in, ruled, tabled,
};
use crate::decimal::fixed;
use crate::filter::expression;
use crate::ipc::in_directory;
use crate::report::Stall;
use crate::text::{decimal, parse_u64, starts_with, trim};
use crate::toml::{Section, Sections, bool_in, int_in, list_in, text_in};

verus! {

/// **The built-in settings.**
pub proof fn lemma_the_built_in_settings()
    ensures
        built_in().threshold_ms == (50u64, Source::Default),
        built_in().capture_ms == (400u64, Source::Default),
        built_in().history_secs == (300u64, Source::Default),
        built_in().resources == (seq!["cpu"@, "memory"@, "io"@], Source::Default),
        built_in().notify_enabled == (true, Source::Default),
        built_in().notify_min_peak == (70u64, Source::Default),
        built_in().notify_cooldown_secs == (21_600u64, Source::Default),
        built_in().rules.len() == 0,
        built_in().loaded.len() == 0,
{
}

/// The number that a table gives a key, if it gives one.
pub open spec fn number_given(t: Option<Section>, key: Seq<char>) -> Option<int> {
    match t {
        Some(t) => int_in(t, key),
        None => None,
    }
}

/// Is this what a file makes of a number: the one it gives, but not below the
/// least, and from that file; else what was there?
pub open spec fn takes_number(
    before: (u64, Source),
    after: (u64, Source),
    given: Option<int>,
    least: int,
    most: int,
    from: Seq<char>,
) -> bool {
    match given {
        None => after == before,
        Some(v) => after.1 == Source::File(from) && (if v < least {
            after.0 == least
        } else if v > most {
            after.0 == most
        } else {
            after.0 == v
        }),
    }
}

/// **A file sets what it names, and leaves the rest.** A threshold is one
/// millisecond at least, a capture fifty, a history ten seconds; a peak is a
/// hundred percent at most.
pub proof fn lemma_a_file_sets_what_it_names(s: Settings, d: Sections, from: Seq<char>)
    requires
        number_given(d.capture, "threshold_ms"@) is Some ==> number_given(
            d.capture,
            "threshold_ms"@,
        )->0 <= i64::MAX,
        number_given(d.capture, "capture_ms"@) is Some ==> number_given(
            d.capture,
            "capture_ms"@,
        )->0 <= i64::MAX,
        number_given(d.capture, "history_secs"@) is Some ==> number_given(
            d.capture,
            "history_secs"@,
        )->0 <= i64::MAX,
        number_given(d.notify, "cooldown_secs"@) is Some ==> number_given(
            d.notify,
            "cooldown_secs"@,
        )->0 <= i64::MAX,
    ensures
        ({
            let r = tabled(s, d, Source::File(from));
            let most = i64::MAX as int;
            &&& takes_number(
                s.threshold_ms,
                r.threshold_ms,
                number_given(d.capture, "threshold_ms"@),
                1,
                most,
                from,
            )
            &&& takes_number(
                s.capture_ms,
                r.capture_ms,
                number_given(d.capture, "capture_ms"@),
                50,
                most,
                from,
            )
            &&& takes_number(
                s.history_secs,
                r.history_secs,
                number_given(d.capture, "history_secs"@),
                10,
                most,
                from,
            )
            &&& takes_number(
                s.notify_min_peak,
                r.notify_min_peak,
                number_given(d.notify, "min_peak"@),
                0,
                100,
                from,
            )
            &&& takes_number(
                s.notify_cooldown_secs,
                r.notify_cooldown_secs,
                number_given(d.notify, "cooldown_secs"@),
                0,
                most,
                from,
            )
            &&& d.capture is Some && list_in(d.capture->0, "resources"@) is Some ==> r.resources
                == (list_in(d.capture->0, "resources"@)->0, Source::File(from))
            &&& d.capture is None || list_in(d.capture->0, "resources"@) is None ==> r.resources
                == s.resources
            &&& d.notify is Some && bool_in(d.notify->0, "enabled"@) is Some ==> r.notify_enabled
                == (bool_in(d.notify->0, "enabled"@)->0, Source::File(from))
            &&& d.notify is None || bool_in(d.notify->0, "enabled"@) is None ==> r.notify_enabled
                == s.notify_enabled
            &&& r.rules == s.rules
            &&& r.loaded == s.loaded
        }),
{
}

/// **The environment overrides the files**: three of the numbers, where what it
/// says is one, with the same least values; and nothing else.
pub proof fn lemma_the_environment_overrides(s: Settings, env: Environment)
    ensures
        ({
            let r = in_session(s, env);
            &&& r.threshold_ms == said_number(
                s.threshold_ms,
                env.threshold_ms,
                1,
                "STALLWATCH_THRESHOLD_MS"@,
            )
            &&& r.capture_ms == said_number(
                s.capture_ms,
                env.capture_ms,
                50,
                "STALLWATCH_CAPTURE_MS"@,
            )
            &&& r.history_secs == said_number(
                s.history_secs,
                env.history_secs,
                10,
                "STALLWATCH_HISTORY_SECS"@,
            )
            &&& r.resources == s.resources
            &&& r.notify_enabled == s.notify_enabled
            &&& r.notify_min_peak == s.notify_min_peak
            &&& r.notify_cooldown_secs == s.notify_cooldown_secs
            &&& r.rules == s.rules
            &&& r.loaded == s.loaded
        }),
{
}

/// What a variable makes of a number.
pub open spec fn said_number(
    before: (u64, Source),
    said: Option<String>,
    least: nat,
    name: Seq<char>,
) -> (u64, Source) {
    if said is Some && parse_u64((said->0)@) is Some {
        let v = parse_u64((said->0)@)->0;
        (
            if v >= least {
                v as u64
            } else {
                least as u64
            },
            Source::Env(name),
        )
    } else {
        before
    }
}

/// **A flag on the command line is noted as the source**, and changes no value.
pub proof fn lemma_a_flag_is_noted(s: Settings, flag: Seq<char>)
    ensures
        flagged(s, "threshold_ms"@, flag) == (Settings {
            threshold_ms: (s.threshold_ms.0, Source::Flag(flag)),
            ..s
        }),
        flagged(s, "capture_ms"@, flag) == (Settings {
            capture_ms: (s.capture_ms.0, Source::Flag(flag)),
            ..s
        }),
        flagged(s, "history_secs"@, flag) == (Settings {
            history_secs: (s.history_secs.0, Source::Flag(flag)),
            ..s
        }),
{
    reveal_strlit("threshold_ms");
    reveal_strlit("capture_ms");
    reveal_strlit("history_secs");
    assert("threshold_ms"@[0] != "capture_ms"@[0]);
    assert("threshold_ms"@[0] != "history_secs"@[0]);
    assert("capture_ms"@[0] != "history_secs"@[0]);
}

/// **Files are read in order, each over those before it.** One that is absent
/// changes nothing, one that is wrong stops it, and one that was read is listed.
pub proof fn lemma_files_are_read_in_order(before: Seq<ConfigFile>, last: ConfigFile)
    ensures
        ({
            let r = after_files(before.push(last), before.len() + 1);
            match after_files(before, before.len()) {
                Err(e) => r == Err::<Settings, Complaint>(e),
                Ok(s) => match last.body {
                    None => r == Ok::<Settings, Complaint>(s),
                    Some(body) => if layered(s, body@, last.path@).1 is Some {
                        r is Err && (r->Err_0).path == last.path@ && (r->Err_0).what == layered(
                            s,
                            body@,
                            last.path@,
                        ).1->0
                    } else {
                        r is Ok && r->Ok_0 == (Settings {
                            loaded: s.loaded.push(last.path@),
                            ..layered(s, body@, last.path@).0
                        })
                    },
                },
            }
        }),
        after_files(before, 0) == Ok::<Settings, Complaint>(built_in()),
{
    lemma_files_before(before, before.push(last), before.len());
    assert(before.push(last)[before.len() as int] == last);
}

proof fn lemma_files_before(a: Seq<ConfigFile>, b: Seq<ConfigFile>, n: nat)
    requires
        n <= a.len(),
        n <= b.len(),
        forall|i: int| 0 <= i < n ==> #[trigger] a[i] == b[i],
    ensures
        after_files(a, n) == after_files(b, n),
    decreases n,
{
    if n > 0 {
        lemma_files_before(a, b, (n - 1) as nat);
        assert(a[n - 1] == b[n - 1]);
    }
}

/// **The environment comes after all files.**
pub proof fn lemma_the_environment_comes_last(f: Seq<ConfigFile>, env: Environment)
    ensures
        match after_files(f, f.len()) {
            Ok(s) => resolved(f, env) == Ok::<Settings, Complaint>(in_session(s, env)),
            Err(e) => resolved(f, env) == Err::<Settings, Complaint>(e),
        },
{
}

/// **The packaged file is read first, the user's over it**: the one below
/// `XDG_CONFIG_HOME`, else the one below `.config` at home.
pub proof fn lemma_where_files_are_looked_for(xdg: String, home: String)
    ensures
        xdg@.len() > 0 ==> files(Some(xdg), Some(home)) == seq![
            "/etc/xdg/stallwatch/config.toml"@,
            in_directory(in_directory(xdg@, "stallwatch"@), "config.toml"@),
        ],
        xdg@.len() == 0 ==> files(Some(xdg), Some(home)) == files(None, Some(home)),
        files(None, Some(home)) == seq![
            "/etc/xdg/stallwatch/config.toml"@,
            in_directory(
                in_directory(in_directory(home@, ".config"@), "stallwatch"@),
                "config.toml"@,
            ),
        ],
        files(None, None) == seq!["/etc/xdg/stallwatch/config.toml"@],
{
}

// ── rules ──────────────────────────────────────────────────────────────

/// **What a rule is made of.** Without a condition, or with one that is none, it
/// is refused. It goes by its number where it has no name, and notifies only
/// where it says so.
pub proof fn lemma_what_a_rule_is_made_of(t: Section, number: nat)
    ensures
        ({
            let r = rule_in(t, number);
            &&& text_in(t, "when"@) is None ==> r is Err
            &&& text_in(t, "when"@) is Some && expression(text_in(t, "when"@)->0) is Err ==> r is Err
            &&& text_in(t, "when"@) is Some && expression(text_in(t, "when"@)->0) is Ok ==> {
                &&& r is Ok
                &&& (r->Ok_0).when == expression(text_in(t, "when"@)->0)->Ok_0
                &&& (r->Ok_0).written == trim(text_in(t, "when"@)->0)
                &&& (r->Ok_0).run == text_in(t, "run"@)
                &&& (r->Ok_0).log == text_in(t, "log"@)
                &&& (r->Ok_0).notify <==> bool_in(t, "notify"@) == Some(true)
                &&& text_in(t, "name"@) is Some ==> (r->Ok_0).name == text_in(t, "name"@)->0
                &&& text_in(t, "name"@) is None ==> (r->Ok_0).name == "rule "@ + decimal(number)
            }
        }),
{
}

/// **Rules keep their order**, behind those that were there, and all are taken
/// where none is wrong.
pub proof fn lemma_rules_keep_their_order(rules: Seq<Reaction>, t: Seq<Section>, n: nat)
    requires
        n <= t.len(),
        forall|i: int| 0 <= i < n ==> rule_in(#[trigger] t[i], (i + 1) as nat) is Ok,
    ensures
        ({
            let (r, wrong) = ruled(rules, t, n);
            &&& wrong is None
            &&& r.len() == rules.len() + n
            &&& forall|i: int| 0 <= i < rules.len() ==> r[i] == #[trigger] rules[i]
            &&& forall|i: int|
                0 <= i < n ==> r[rules.len() + i] == rule_in(#[trigger] t[i], (i + 1) as nat)->Ok_0
        }),
    decreases n,
{
    if n > 0 {
        lemma_rules_keep_their_order(rules, t, (n - 1) as nat);
        assert(rule_in(t[n - 1], (n - 1 + 1) as nat) is Ok);
    }
}

// ── templates ──────────────────────────────────────────────────────────

proof fn lemma_not_there(t: Seq<char>, p: Seq<char>, i: int)
    requires
        0 <= i < t.len(),
        0 <= i < p.len(),
        t[i] != p[i],
    ensures
        !starts_with(t, p),
{
    if starts_with(t, p) {
        assert(t.take(p.len() as int)[i] == p[i]);
    }
}

proof fn lemma_there(p: Seq<char>, rest: Seq<char>)
    ensures
        starts_with(p + rest, p),
        (p + rest).skip(p.len() as int) == rest,
        forall|i: int| 0 <= i < p.len() ==> (p + rest)[i] == #[trigger] p[i],
{
    assert((p + rest).take(p.len() as int) =~= p);
    assert((p + rest).skip(p.len() as int) =~= rest);
}

proof fn lemma_placeholders_differ(t: Seq<char>)
    requires
        t.len() >= 3,
    ensures
        t[1] != 'u' ==> !starts_with(t, "{unit}"@),
        t[1] != 'c' ==> !starts_with(t, "{cgroup}"@),
        t[1] != 'r' ==> !starts_with(t, "{resource}"@),
        t[1] != 'd' ==> !starts_with(t, "{delta_ms}"@),
        t[1] != 'p' || t[2] != 'c' ==> !starts_with(t, "{pct}"@),
        t[1] != 'p' || t[2] != 'e' ==> !starts_with(t, "{peak}"@),
{
    reveal_strlit("{unit}");
    reveal_strlit("{cgroup}");
    reveal_strlit("{resource}");
    reveal_strlit("{delta_ms}");
    reveal_strlit("{pct}");
    reveal_strlit("{peak}");
    if t[1] != 'u' {
        lemma_not_there(t, "{unit}"@, 1);
    }
    if t[1] != 'c' {
        lemma_not_there(t, "{cgroup}"@, 1);
    }
    if t[1] != 'r' {
        lemma_not_there(t, "{resource}"@, 1);
    }
    if t[1] != 'd' {
        lemma_not_there(t, "{delta_ms}"@, 1);
    }
    if t[1] != 'p' {
        lemma_not_there(t, "{pct}"@, 1);
        lemma_not_there(t, "{peak}"@, 1);
    }
    if t[2] != 'c' {
        lemma_not_there(t, "{pct}"@, 2);
    }
    if t[2] != 'e' {
        lemma_not_there(t, "{peak}"@, 2);
    }
}

proof fn lemma_one_placeholder(p: Seq<char>, rest: Seq<char>, s: Stall, value: Seq<char>)
    requires
        p.len() > 0,
        placeholder(p + rest, s) == Some((p.len(), value)),
    ensures
        expanded(p + rest, s) == value + expanded(rest, s),
{
    lemma_there(p, rest);
}

/// **Each placeholder stands for a figure of the stall**: its unit, its cgroup,
/// its resource, the full milliseconds it lost, its share and its peak in whole
/// percent.
#[verifier::rlimit(50)]
pub proof fn lemma_placeholders_stand_for_figures(rest: Seq<char>, s: Stall) -> (ms: nat)
    ensures
        1000 * ms <= s.delta_usec < 1000 * ms + 1000,
        expanded("{unit}"@ + rest, s) == s.unit@ + expanded(rest, s),
        expanded("{cgroup}"@ + rest, s) == s.cgroup@ + expanded(rest, s),
        expanded("{resource}"@ + rest, s) == s.resource.name() + expanded(rest, s),
        expanded("{delta_ms}"@ + rest, s) == decimal(ms) + expanded(rest, s),
        expanded("{pct}"@ + rest, s) == fixed(s.pressure_pct, 0) + expanded(rest, s),
        expanded("{peak}"@ + rest, s) == fixed(s.peak_pct, 0) + expanded(rest, s),
{
    reveal_strlit("{unit}");
    reveal_strlit("{cgroup}");
    reveal_strlit("{resource}");
    reveal_strlit("{delta_ms}");
    reveal_strlit("{pct}");
    reveal_strlit("{peak}");
    let ms: nat = (s.delta_usec / 1000) as nat;
    lemma_there("{unit}"@, rest);
    lemma_there("{cgroup}"@, rest);
    lemma_there("{resource}"@, rest);
    lemma_there("{delta_ms}"@, rest);
    lemma_there("{pct}"@, rest);
    lemma_there("{peak}"@, rest);
    lemma_placeholders_differ("{unit}"@ + rest);
    lemma_placeholders_differ("{cgroup}"@ + rest);
    lemma_placeholders_differ("{resource}"@ + rest);
    lemma_placeholders_differ("{delta_ms}"@ + rest);
    lemma_placeholders_differ("{pct}"@ + rest);
    lemma_placeholders_differ("{peak}"@ + rest);
    lemma_one_placeholder("{unit}"@, rest, s, s.unit@);
    lemma_one_placeholder("{cgroup}"@, rest, s, s.cgroup@);
    lemma_one_placeholder("{resource}"@, rest, s, s.resource.name());
    lemma_one_placeholder("{delta_ms}"@, rest, s, decimal(ms));
    lemma_one_placeholder("{pct}"@, rest, s, fixed(s.pressure_pct, 0));
    lemma_one_placeholder("{peak}"@, rest, s, fixed(s.peak_pct, 0));
    ms
}

/// **Everything else stays as it is written.**
pub proof fn lemma_other_text_stays(c: char, rest: Seq<char>, s: Stall)
    requires
        c != '{',
    ensures
        expanded(seq![c] + rest, s) == seq![c] + expanded(rest, s),
        expanded(seq![], s) == Seq::<char>::empty(),
{
    reveal_strlit("{unit}");
    reveal_strlit("{cgroup}");
    reveal_strlit("{resource}");
    reveal_strlit("{delta_ms}");
    reveal_strlit("{pct}");
    reveal_strlit("{peak}");
    let t = seq![c] + rest;
    lemma_not_there(t, "{unit}"@, 0);
    lemma_not_there(t, "{cgroup}"@, 0);
    lemma_not_there(t, "{resource}"@, 0);
    lemma_not_there(t, "{delta_ms}"@, 0);
    lemma_not_there(t, "{pct}"@, 0);
    lemma_not_there(t, "{peak}"@, 0);
    assert(t.skip(1) =~= rest);
}

} // verus!
