//! Configuration, layered the way Linux expects, and rules built on the same
//! filter grammar as everything else.
//!
//! # Layering
//!
//! ```text
//! /etc/xdg/stallwatch/config.toml     packaged defaults
//! ~/.config/stallwatch/config.toml    the user
//! STALLWATCH_* environment            the session
//! command-line flags                  this invocation
//! ```
//!
//! Later wins. Every resolved value remembers **where it came from**, because
//! the worst part of every configurable Linux tool is not knowing which file
//! won. [`Config::explain`] prints that, and exists for exactly that reason.
//!
//! # Rules
//!
//! ```toml
//! [[rule]]
//! name = "the browser is eating my disk"
//! when = 'resource == io and unit ~ "firefox|chrome" and peak > 70'
//! run  = "notify-send 'Disk stall' '{unit} froze you {delta_ms}ms'"
//! ```
//!
//! `when` is [`crate::filter`], the same grammar the command line takes. One
//! language, learned once.

use vstd::prelude::*;
use vstd::slice::slice_subrange;

use crate::appname::said;
use crate::decimal::fixed;
use crate::filter::{Expr, Filter, expression, fault_text};
use crate::ipc::{in_directory, path_in};
use crate::notify::{DEFAULT_COOLDOWN, DEFAULT_MIN_PEAK};
use crate::path::{normal, same_path};
use crate::report::{Stall, flag, flag_text};
use crate::text::{
    copy_text, decimal, decimal_text, has_prefix, join, joined, lines, pad_right, parse_u64,
    push_padded_right, push_text, push_u64, read_u64, same_text, starts_with, texts, to_chars, trim,
};
use crate::toml::{
    Doc, Misfit, Section, Sections, Table, after_line, after_lines, bool_in, document, int_in,
    lemma_error_stays, list_in, parse_toml, section, sections, text_in,
};

verus! {

/// Where a setting came from. Printed by `config --explain`.
#[derive(Debug, PartialEq, Eq)]
pub enum Origin {
    Default,
    File(String),
    Env(String),
    Flag(String),
}

/// An origin as a value to compare with.
pub enum Source {
    Default,
    File(Seq<char>),
    Env(Seq<char>),
    Flag(Seq<char>),
}

impl View for Origin {
    type V = Source;

    open spec fn view(&self) -> Source {
        match *self {
            Origin::Default => Source::Default,
            Origin::File(p) => Source::File(p@),
            Origin::Env(k) => Source::Env(k@),
            Origin::Flag(k) => Source::Flag(k@),
        }
    }
}

/// How an origin is printed.
pub open spec fn source_text(s: Source) -> Seq<char> {
    match s {
        Source::Default => "built-in default"@,
        Source::File(p) => p,
        Source::Env(k) => "$"@ + k,
        Source::Flag(k) => "command line "@ + k,
    }
}

impl Origin {
    /// The origin as it is printed.
    pub fn to_text(&self) -> (r: String)
        ensures
            r@ == source_text(self@),
    {
        match self {
            Origin::Default => copy_text("built-in default"),
            Origin::File(p) => copy_text(p.as_str()),
            Origin::Env(k) => {
                let mut o: String = copy_text("$");
                o.push_str(k.as_str());
                o
            },
            Origin::Flag(k) => {
                let mut o: String = copy_text("command line ");
                o.push_str(k.as_str());
                o
            },
        }
    }
}

/// A value plus where it came from.
#[derive(Debug)]
pub struct Sourced<T> {
    pub value: T,
    pub origin: Origin,
}

impl<T> Sourced<T> {
    fn new(value: T) -> (r: Self)
        ensures
            r.value == value,
            r.origin@ == Source::Default,
    {
        Self { value, origin: Origin::Default }
    }

    fn set(&mut self, value: T, origin: Origin)
        ensures
            final(self).value == value,
            final(self).origin == origin,
    {
        self.value = value;
        self.origin = origin;
    }
}

/// What to do when a rule matches.
#[derive(Debug)]
pub struct Action {
    /// Shell command. `{unit}`, `{delta_ms}`, `{pct}`, `{peak}`, `{resource}`
    /// and `{cgroup}` are substituted from the matching stall.
    pub run: Option<String>,
    /// Append the incident to this path.
    pub log: Option<String>,
    /// Send a desktop notification.
    pub notify: bool,
}

/// One rule.
#[derive(Debug)]
pub struct Rule {
    pub name: String,
    pub when: Filter,
    pub action: Action,
}

/// A rule as a value to compare with.
pub struct Reaction {
    pub name: Seq<char>,
    pub when: Expr,
    pub written: Seq<char>,
    pub run: Option<Seq<char>>,
    pub log: Option<Seq<char>>,
    pub notify: bool,
}

impl View for Rule {
    type V = Reaction;

    open spec fn view(&self) -> Reaction {
        Reaction {
            name: self.name@,
            when: self.when.expr(),
            written: self.when.text(),
            run: said(self.action.run),
            log: said(self.action.log),
            notify: self.action.notify,
        }
    }
}

pub open spec fn reactions(v: Seq<Rule>) -> Seq<Reaction> {
    Seq::new(v.len(), |i: int| v[i]@)
}

/// Resolved configuration.
#[derive(Debug)]
pub struct Config {
    /// Stall inside a 2s window that wakes a capture, in milliseconds.
    pub threshold_ms: Sourced<u64>,
    /// How long to sample once woken, in milliseconds.
    pub capture_ms: Sourced<u64>,
    /// How much history the ring retains, in seconds.
    pub history_secs: Sourced<u64>,
    /// Which resources get a trigger.
    pub resources: Sourced<Vec<String>>,
    /// Announce bad stalls on the desktop as they happen.
    pub notify_enabled: Sourced<bool>,
    /// Kept so that files which set it still load; not a gate for notices.
    pub notify_min_peak: Sourced<u64>,
    /// Seconds between notices, however bad it gets.
    pub notify_cooldown_secs: Sourced<u64>,
    pub rules: Vec<Rule>,
    /// Files that were actually read, in the order applied.
    pub loaded: Vec<String>,
}

/// A configuration as a value to compare with: each setting beside where it
/// came from.
pub struct Settings {
    pub threshold_ms: (u64, Source),
    pub capture_ms: (u64, Source),
    pub history_secs: (u64, Source),
    pub resources: (Seq<Seq<char>>, Source),
    pub notify_enabled: (bool, Source),
    pub notify_min_peak: (u64, Source),
    pub notify_cooldown_secs: (u64, Source),
    pub rules: Seq<Reaction>,
    pub loaded: Seq<Seq<char>>,
}

impl View for Config {
    type V = Settings;

    open spec fn view(&self) -> Settings {
        Settings {
            threshold_ms: (self.threshold_ms.value, self.threshold_ms.origin@),
            capture_ms: (self.capture_ms.value, self.capture_ms.origin@),
            history_secs: (self.history_secs.value, self.history_secs.origin@),
            resources: (texts(self.resources.value@), self.resources.origin@),
            notify_enabled: (self.notify_enabled.value, self.notify_enabled.origin@),
            notify_min_peak: (self.notify_min_peak.value, self.notify_min_peak.origin@),
            notify_cooldown_secs: (self.notify_cooldown_secs.value, self.notify_cooldown_secs.origin@),
            rules: reactions(self.rules@),
            loaded: texts(self.loaded@),
        }
    }
}

/// What holds where no layer says otherwise.
pub open spec fn built_in() -> Settings {
    Settings {
        threshold_ms: (50, Source::Default),
        capture_ms: (400, Source::Default),
        history_secs: (300, Source::Default),
        resources: (seq!["cpu"@, "memory"@, "io"@], Source::Default),
        notify_enabled: (true, Source::Default),
        notify_min_peak: (DEFAULT_MIN_PEAK, Source::Default),
        notify_cooldown_secs: (DEFAULT_COOLDOWN, Source::Default),
        rules: seq![],
        loaded: seq![],
    }
}

impl Default for Config {
    fn default() -> (r: Self)
        ensures
            r@ == built_in(),
    {
        let mut resources: Vec<String> = Vec::new();
        push_text(&mut resources, copy_text("cpu"));
        push_text(&mut resources, copy_text("memory"));
        push_text(&mut resources, copy_text("io"));
        let r: Config = Config {
            threshold_ms: Sourced::new(50),
            capture_ms: Sourced::new(400),
            history_secs: Sourced::new(300),
            resources: Sourced::new(resources),
            notify_enabled: Sourced::new(true),
            notify_min_peak: Sourced::new(DEFAULT_MIN_PEAK),
            notify_cooldown_secs: Sourced::new(DEFAULT_COOLDOWN),
            rules: Vec::new(),
            loaded: Vec::new(),
        };
        proof {
            assert(texts(r.resources.value@) =~= seq!["cpu"@, "memory"@, "io"@]);
            assert(reactions(r.rules@) =~= seq![]);
            assert(texts(r.loaded@) =~= seq![]);
        }
        r
    }
}

// ── where the files are ────────────────────────────────────────────────

/// The user's configuration directory: where `XDG_CONFIG_HOME` says, unless it
/// is empty, else `.config` in the home directory.
pub open spec fn user_dir(xdg: Option<String>, home: Option<String>) -> Option<Seq<char>> {
    match xdg {
        Some(d) if d@.len() > 0 => Some(d@),
        _ => match home {
            Some(h) => Some(in_directory(h@, ".config"@)),
            None => None,
        },
    }
}

/// The files, lowest precedence first.
pub open spec fn files(xdg: Option<String>, home: Option<String>) -> Seq<Seq<char>> {
    let packaged = "/etc/xdg/stallwatch/config.toml"@;
    match user_dir(xdg, home) {
        Some(d) => seq![packaged, in_directory(in_directory(d, "stallwatch"@), "config.toml"@)],
        None => seq![packaged],
    }
}

/// Search path, lowest precedence first, from `XDG_CONFIG_HOME` and `HOME`.
pub fn search_path(xdg_config_home: &Option<String>, home: &Option<String>) -> (r: Vec<String>)
    ensures
        texts(r@) == files(*xdg_config_home, *home),
{
    let mut v: Vec<String> = Vec::new();
    push_text(&mut v, copy_text("/etc/xdg/stallwatch/config.toml"));
    let mut user: Option<String> = None;
    match xdg_config_home {
        Some(d) => {
            if to_chars(d.as_str()).len() > 0 {
                user = Some(copy_text(d.as_str()));
            }
        },
        None => {},
    }
    if user.is_none() {
        match home {
            Some(h) => {
                user = Some(path_in(h.as_str(), ".config"));
            },
            None => {},
        }
    }
    match &user {
        Some(d) => {
            let dir: String = path_in(d.as_str(), "stallwatch");
            push_text(&mut v, path_in(dir.as_str(), "config.toml"));
        },
        None => {},
    }
    assert(texts(v@) =~= files(*xdg_config_home, *home));
    v
}

// ── one file over what there is ────────────────────────────────────────

/// A number no smaller than `low` and no larger than `high`.
pub open spec fn held(v: int, low: int, high: int) -> u64 {
    (if v < low {
        low
    } else if v > high {
        high
    } else {
        v
    }) as u64
}

/// A number setting after a table: what the table says, kept in bounds, else
/// what it was.
pub open spec fn number_after(
    old_value: (u64, Source),
    t: Option<Section>,
    key: Seq<char>,
    low: int,
    high: int,
    from: Source,
) -> (u64, Source) {
    match t {
        Some(t) => match int_in(t, key) {
            Some(v) => (held(v, low, high), from),
            None => old_value,
        },
        None => old_value,
    }
}

pub open spec fn flag_after(
    old_value: (bool, Source),
    t: Option<Section>,
    key: Seq<char>,
    from: Source,
) -> (bool, Source) {
    match t {
        Some(t) => match bool_in(t, key) {
            Some(b) => (b, from),
            None => old_value,
        },
        None => old_value,
    }
}

pub open spec fn list_after(
    old_value: (Seq<Seq<char>>, Source),
    t: Option<Section>,
    key: Seq<char>,
    from: Source,
) -> (Seq<Seq<char>>, Source) {
    match t {
        Some(t) => match list_in(t, key) {
            Some(v) => (v, from),
            None => old_value,
        },
        None => old_value,
    }
}

/// The settings after the tables of a document.
pub open spec fn tabled(s: Settings, d: Sections, from: Source) -> Settings {
    let most = i64::MAX as int;
    Settings {
        threshold_ms: number_after(s.threshold_ms, d.capture, "threshold_ms"@, 1, most, from),
        capture_ms: number_after(s.capture_ms, d.capture, "capture_ms"@, 50, most, from),
        history_secs: number_after(s.history_secs, d.capture, "history_secs"@, 10, most, from),
        resources: list_after(s.resources, d.capture, "resources"@, from),
        notify_enabled: flag_after(s.notify_enabled, d.notify, "enabled"@, from),
        notify_min_peak: number_after(s.notify_min_peak, d.notify, "min_peak"@, 0, 100, from),
        notify_cooldown_secs: number_after(
            s.notify_cooldown_secs,
            d.notify,
            "cooldown_secs"@,
            0,
            most,
            from,
        ),
        ..s
    }
}

/// The name of the rule in a table: what it says, else its number.
pub open spec fn rule_name(t: Section, number: nat) -> Seq<char> {
    match text_in(t, "name"@) {
        Some(n) => n,
        None => "rule "@ + decimal(number),
    }
}

/// The rule in a table, or what is wrong with it.
pub open spec fn rule_in(t: Section, number: nat) -> Result<Reaction, Seq<char>> {
    let name = rule_name(t, number);
    match text_in(t, "when"@) {
        None => Err("rule `"@ + name + "` has no `when =` expression"@),
        Some(when) => match expression(when) {
            Err(f) => Err("rule `"@ + name + "`: "@ + fault_text(f)),
            Ok(e) => Ok(
                Reaction {
                    name,
                    when: e,
                    written: trim(when),
                    run: text_in(t, "run"@),
                    log: text_in(t, "log"@),
                    notify: bool_in(t, "notify"@) == Some(true),
                },
            ),
        },
    }
}

/// The rules after the first `n` tables, up to the first that is wrong, and
/// what is wrong with that.
pub open spec fn ruled(
    rules: Seq<Reaction>,
    t: Seq<Section>,
    n: nat,
) -> (Seq<Reaction>, Option<Misfit>)
    decreases n,
{
    if n == 0 {
        (rules, None)
    } else {
        let (before, wrong) = ruled(rules, t, (n - 1) as nat);
        if wrong is Some {
            (before, wrong)
        } else {
            match rule_in(t[n - 1], n) {
                Ok(rule) => (before.push(rule), None),
                Err(msg) => (before, Some(Misfit { line: t[n - 1].line, msg })),
            }
        }
    }
}

/// One file over what there is: the settings it leaves, and its first error. A
/// file that is not understood changes nothing; one with a broken rule has set
/// what stands outside its rules, and the rules before that one.
pub open spec fn layered(s: Settings, body: Seq<char>, from: Seq<char>) -> (Settings, Option<Misfit>) {
    match document(body) {
        Err(e) => (s, Some(e)),
        Ok(d) => {
            let t = tabled(s, d, Source::File(from));
            let (rules, wrong) = ruled(s.rules, d.rules, d.rules.len());
            (Settings { rules, ..t }, wrong)
        },
    }
}

/// What is wrong with a configuration, and where.
#[derive(Debug)]
pub struct ConfigError {
    pub path: String,
    pub line: usize,
    pub msg: String,
}

/// A configuration error as a value to compare with.
pub struct Complaint {
    pub path: Seq<char>,
    pub what: Misfit,
}

impl View for ConfigError {
    type V = Complaint;

    open spec fn view(&self) -> Complaint {
        Complaint { path: self.path@, what: Misfit { line: self.line as nat, msg: self.msg@ } }
    }
}

impl ConfigError {
    /// The error as it is printed.
    pub fn to_text(&self) -> (r: String)
        ensures
            r@ == self.path@ + ":"@ + decimal(self.line as nat) + ": "@ + self.msg@,
    {
        let mut o: String = copy_text(self.path.as_str());
        o.push_str(":");
        push_u64(&mut o, self.line as u64);
        o.push_str(": ");
        o.push_str(self.msg.as_str());
        o
    }
}

/// Put a number from a table into a setting.
fn take_number(
    setting: &mut Sourced<u64>,
    t: &Option<Table>,
    key: &str,
    low: i64,
    high: i64,
    from: &str,
)
    requires
        0 <= low <= high,
    ensures
        (final(setting).value, final(setting).origin@) == number_after(
            (old(setting).value, old(setting).origin@),
            section(*t),
            key@,
            low as int,
            high as int,
            Source::File(from@),
        ),
{
    match t {
        Some(t) => match t.integer(key) {
            Some(v) => {
                let kept: i64 = if v < low {
                    low
                } else if v > high {
                    high
                } else {
                    v
                };
                setting.set(kept as u64, Origin::File(copy_text(from)));
            },
            None => {},
        },
        None => {},
    }
}

proof fn lemma_error_ends_rules(rules: Seq<Reaction>, t: Seq<Section>, n: nat, m: nat)
    requires
        n <= m,
        ruled(rules, t, n).1 is Some,
    ensures
        ruled(rules, t, m) == ruled(rules, t, n),
    decreases m,
{
    if n < m {
        lemma_error_ends_rules(rules, t, n, (m - 1) as nat);
    }
}

/// Read the rule in a table.
fn read_rule(t: &Table, number: usize) -> (r: Result<Rule, String>)
    ensures
        match rule_in(t@, number as nat) {
            Ok(rule) => r is Ok && (r->Ok_0)@ == rule,
            Err(msg) => r is Err && (r->Err_0)@ == msg,
        },
{
    let name: String = match t.string("name") {
        Some(n) => n,
        None => {
            let mut n: String = copy_text("rule ");
            push_u64(&mut n, number as u64);
            n
        },
    };
    let when: String = match t.string("when") {
        Some(w) => w,
        None => {
            let mut msg: String = copy_text("rule `");
            msg.push_str(name.as_str());
            msg.push_str("` has no `when =` expression");
            return Err(msg);
        },
    };
    match Filter::parse(when.as_str()) {
        Err(e) => {
            let mut msg: String = copy_text("rule `");
            msg.push_str(name.as_str());
            msg.push_str("`: ");
            msg.push_str(e.to_text().as_str());
            Err(msg)
        },
        Ok(filter) => {
            let notify: bool = match t.boolean("notify") {
                Some(b) => b,
                None => false,
            };
            let run: Option<String> = t.string("run");
            let log: Option<String> = t.string("log");
            Ok(Rule { name, when: filter, action: Action { run, log, notify } })
        },
    }
}

impl Config {
    /// Read the tables of a document over the current values.
    fn apply_tables(&mut self, d: &Doc, from: &str)
        ensures
            final(self)@ == tabled(old(self)@, d@, Source::File(from@)),
    {
        take_number(&mut self.threshold_ms, &d.capture, "threshold_ms", 1, i64::MAX, from);
        take_number(&mut self.capture_ms, &d.capture, "capture_ms", 50, i64::MAX, from);
        take_number(&mut self.history_secs, &d.capture, "history_secs", 10, i64::MAX, from);
        match &d.capture {
            Some(t) => match t.strings("resources") {
                Some(v) => self.resources.set(v, Origin::File(copy_text(from))),
                None => {},
            },
            None => {},
        }
        match &d.notify {
            Some(t) => match t.boolean("enabled") {
                Some(b) => self.notify_enabled.set(b, Origin::File(copy_text(from))),
                None => {},
            },
            None => {},
        }
        take_number(&mut self.notify_min_peak, &d.notify, "min_peak", 0, 100, from);
        take_number(&mut self.notify_cooldown_secs, &d.notify, "cooldown_secs", 0, i64::MAX, from);
    }

    /// Parse one file over the current values.
    pub fn apply_toml(&mut self, body: &str, from: &str) -> (r: Result<(), ConfigError>)
        ensures
            final(self)@ == layered(old(self)@, body@, from@).0,
            match layered(old(self)@, body@, from@).1 {
                None => r is Ok,
                Some(what) => r is Err && (r->Err_0)@ == (Complaint { path: from@, what }),
            },
    {
        let d: Doc = match parse_toml(body) {
            Ok(d) => d,
            Err(e) => {
                return Err(ConfigError { path: copy_text(from), line: e.line, msg: e.msg });
            },
        };
        self.apply_tables(&d, from);
        let ghost before = old(self)@.rules;
        let ghost base = tabled(old(self)@, d@, Source::File(from@));
        let ghost tables = d@.rules;
        let mut i: usize = 0;
        while i < d.rules.len()
            invariant
                i <= d.rules@.len(),
                tables == sections(d.rules@),
                d@.rules == tables,
                document(body@) == Ok::<Sections, Misfit>(d@),
                base == tabled(old(self)@, d@, Source::File(from@)),
                before == old(self)@.rules,
                self@ == (Settings { rules: self@.rules, ..base }),
                ruled(before, tables, i as nat) == (self@.rules, None::<Misfit>),
            decreases d.rules@.len() - i,
        {
            assert(tables[i as int] == d.rules@[i as int]@);
            match read_rule(&d.rules[i], i + 1) {
                Ok(rule) => {
                    let ghost so_far = self@.rules;
                    self.rules.push(rule);
                    assert(self@.rules =~= so_far.push(rule@));
                },
                Err(msg) => {
                    proof {
                        lemma_error_ends_rules(before, tables, (i + 1) as nat, tables.len());
                    }
                    return Err(
                        ConfigError { path: copy_text(from), line: d.rules[i].line, msg },
                    );
                },
            }
            i += 1;
        }
        Ok(())
    }
}

// ── the environment and the command line ───────────────────────────────

/// What the environment says, by variable.
#[derive(Debug)]
pub struct Environment {
    /// `STALLWATCH_THRESHOLD_MS`
    pub threshold_ms: Option<String>,
    /// `STALLWATCH_CAPTURE_MS`
    pub capture_ms: Option<String>,
    /// `STALLWATCH_HISTORY_SECS`
    pub history_secs: Option<String>,
}

/// A number setting after a variable: what the variable says where that is a
/// number, no less than `low`, else what it was.
pub open spec fn number_said(
    old_value: (u64, Source),
    said: Option<String>,
    low: nat,
    variable: Seq<char>,
) -> (u64, Source) {
    match said {
        Some(s) => match parse_u64(s@) {
            Some(v) => (
                (if v < low {
                    low
                } else {
                    v
                }) as u64,
                Source::Env(variable),
            ),
            None => old_value,
        },
        None => old_value,
    }
}

/// The environment over what there is.
pub open spec fn in_session(s: Settings, env: Environment) -> Settings {
    Settings {
        threshold_ms: number_said(s.threshold_ms, env.threshold_ms, 1, "STALLWATCH_THRESHOLD_MS"@),
        capture_ms: number_said(s.capture_ms, env.capture_ms, 50, "STALLWATCH_CAPTURE_MS"@),
        history_secs: number_said(
            s.history_secs,
            env.history_secs,
            10,
            "STALLWATCH_HISTORY_SECS"@,
        ),
        ..s
    }
}

fn take_said(setting: &mut Sourced<u64>, said: &Option<String>, low: u64, variable: &str)
    ensures
        (final(setting).value, final(setting).origin@) == number_said(
            (old(setting).value, old(setting).origin@),
            *said,
            low as nat,
            variable@,
        ),
{
    match said {
        Some(s) => match read_u64(&to_chars(s.as_str())) {
            Some(v) => {
                let kept: u64 = if v < low {
                    low
                } else {
                    v
                };
                setting.set(kept, Origin::Env(copy_text(variable)));
            },
            None => {},
        },
        None => {},
    }
}

/// The settings after a flag: the setting it names says so.
pub open spec fn flagged(s: Settings, key: Seq<char>, flag: Seq<char>) -> Settings {
    let from = Source::Flag(flag);
    if key == "threshold_ms"@ {
        Settings { threshold_ms: (s.threshold_ms.0, from), ..s }
    } else if key == "capture_ms"@ {
        Settings { capture_ms: (s.capture_ms.0, from), ..s }
    } else if key == "history_secs"@ {
        Settings { history_secs: (s.history_secs.0, from), ..s }
    } else {
        s
    }
}

/// A file of the search path and what it holds, where it can be read.
#[derive(Debug)]
pub struct ConfigFile {
    pub path: String,
    pub body: Option<String>,
}

/// The settings after the first `n` files.
pub open spec fn after_files(files: Seq<ConfigFile>, n: nat) -> Result<Settings, Complaint>
    decreases n,
{
    if n == 0 {
        Ok(built_in())
    } else {
        match after_files(files, (n - 1) as nat) {
            Err(e) => Err(e),
            Ok(s) => match files[n - 1].body {
                None => Ok(s),
                Some(body) => {
                    let (t, wrong) = layered(s, body@, files[n - 1].path@);
                    match wrong {
                        Some(what) => Err(Complaint { path: files[n - 1].path@, what }),
                        None => Ok(Settings { loaded: t.loaded.push(files[n - 1].path@), ..t }),
                    }
                },
            },
        }
    }
}

/// What the files and the environment say together.
pub open spec fn resolved(files: Seq<ConfigFile>, env: Environment) -> Result<Settings, Complaint> {
    match after_files(files, files.len()) {
        Ok(s) => Ok(in_session(s, env)),
        Err(e) => Err(e),
    }
}

proof fn lemma_complaint_stays(files: Seq<ConfigFile>, n: nat, m: nat)
    requires
        n <= m,
        after_files(files, n) is Err,
    ensures
        after_files(files, m) == after_files(files, n),
    decreases m,
{
    if n < m {
        lemma_complaint_stays(files, n, (m - 1) as nat);
    }
}

impl Config {
    /// Load the layers in order. A missing file is not an error; a malformed
    /// one is, because starting with a rule silently dropped is worse than not
    /// starting.
    pub fn load(files: &Vec<ConfigFile>, env: &Environment) -> (r: Result<Config, ConfigError>)
        ensures
            match resolved(files@, *env) {
                Ok(s) => r is Ok && (r->Ok_0)@ == s,
                Err(e) => r is Err && (r->Err_0)@ == e,
            },
    {
        let mut cfg: Config = Config::default();
        let mut i: usize = 0;
        while i < files.len()
            invariant
                i <= files@.len(),
                after_files(files@, i as nat) == Ok::<Settings, Complaint>(cfg@),
            decreases files@.len() - i,
        {
            match &files[i].body {
                Some(body) => {
                    match cfg.apply_toml(body.as_str(), files[i].path.as_str()) {
                        Ok(_) => {},
                        Err(e) => {
                            proof {
                                lemma_complaint_stays(files@, (i + 1) as nat, files@.len());
                            }
                            return Err(e);
                        },
                    }
                    push_text(&mut cfg.loaded, copy_text(files[i].path.as_str()));
                },
                None => {},
            }
            i += 1;
        }
        cfg.apply_env(env);
        Ok(cfg)
    }

    /// `STALLWATCH_THRESHOLD_MS` and friends, applied over any file.
    pub fn apply_env(&mut self, env: &Environment)
        ensures
            final(self)@ == in_session(old(self)@, *env),
    {
        take_said(&mut self.threshold_ms, &env.threshold_ms, 1, "STALLWATCH_THRESHOLD_MS");
        take_said(&mut self.capture_ms, &env.capture_ms, 50, "STALLWATCH_CAPTURE_MS");
        take_said(&mut self.history_secs, &env.history_secs, 10, "STALLWATCH_HISTORY_SECS");
    }

    /// Record that a flag overrode a value, so `--explain` stays truthful.
    pub fn note_flag(&mut self, key: &str, flag: &str)
        ensures
            final(self)@ == flagged(old(self)@, key@, flag@),
    {
        let from: Origin = Origin::Flag(copy_text(flag));
        if same_text(key, "threshold_ms") {
            self.threshold_ms.origin = from;
        } else if same_text(key, "capture_ms") {
            self.capture_ms.origin = from;
        } else if same_text(key, "history_secs") {
            self.history_secs.origin = from;
        }
    }
}

// ── saying which layer won ─────────────────────────────────────────────

/// Whether a path is among those that were read.
pub open spec fn was_read(loaded: Seq<Seq<char>>, path: Seq<char>) -> bool {
    exists|i: int| 0 <= i < loaded.len() && normal(#[trigger] loaded[i]) == normal(path)
}

/// One line per searched file, of the first `n`.
pub open spec fn search_lines(loaded: Seq<Seq<char>>, searched: Seq<Seq<char>>, n: nat) -> Seq<char>
    decreases n,
{
    if n == 0 {
        seq![]
    } else {
        let mark = if was_read(loaded, searched[n - 1]) {
            "read"@
        } else {
            "absent"@
        };
        search_lines(loaded, searched, (n - 1) as nat) + "  "@ + pad_right(mark, 8) + " "@
            + searched[n - 1] + "\n"@
    }
}

/// One line of the table of settings.
pub open spec fn setting_line(name: Seq<char>, value: Seq<char>, from: Source) -> Seq<char> {
    pad_right(name, 16) + " "@ + pad_right(value, 28) + " "@ + source_text(from) + "\n"@
}

/// One line per rule, of the first `n`.
pub open spec fn rule_lines(rules: Seq<Reaction>, n: nat) -> Seq<char>
    decreases n,
{
    if n == 0 {
        seq![]
    } else {
        rule_lines(rules, (n - 1) as nat) + "  "@ + pad_right(rules[n - 1].name, 28) + " when "@
            + rules[n - 1].written + "\n"@
    }
}

pub open spec fn rules_part(rules: Seq<Reaction>) -> Seq<char> {
    if rules.len() == 0 {
        "\nNo rules defined.\n"@
    } else {
        "\n"@ + decimal(rules.len()) + " rule(s):\n"@ + rule_lines(rules, rules.len())
    }
}

/// Every setting, its value, and which layer won.
pub open spec fn explained(s: Settings, searched: Seq<Seq<char>>) -> Seq<char> {
    "Searched, lowest precedence first:\n"@ + search_lines(s.loaded, searched, searched.len())
        + "\nEnvironment then command-line flags override those.\n\n"@ + pad_right("SETTING"@, 16)
        + " "@ + pad_right("VALUE"@, 28) + " FROM\n"@ + setting_line(
        "threshold_ms"@,
        decimal(s.threshold_ms.0 as nat),
        s.threshold_ms.1,
    ) + setting_line("capture_ms"@, decimal(s.capture_ms.0 as nat), s.capture_ms.1) + setting_line(
        "history_secs"@,
        decimal(s.history_secs.0 as nat),
        s.history_secs.1,
    ) + setting_line("resources"@, join(s.resources.0, ","@), s.resources.1) + setting_line(
        "notify.enabled"@,
        flag_text(s.notify_enabled.0),
        s.notify_enabled.1,
    ) + setting_line("notify.min_peak"@, decimal(s.notify_min_peak.0 as nat), s.notify_min_peak.1)
        + setting_line(
        "notify.cooldown"@,
        decimal(s.notify_cooldown_secs.0 as nat),
        s.notify_cooldown_secs.1,
    ) + rules_part(s.rules)
}

fn read_before(loaded: &Vec<String>, path: &str) -> (r: bool)
    ensures
        r == was_read(texts(loaded@), path@),
{
    let wanted: Vec<char> = to_chars(path);
    let mut i: usize = 0;
    while i < loaded.len()
        invariant
            i <= loaded@.len(),
            wanted@ == path@,
            forall|j: int| 0 <= j < i ==> normal(#[trigger] texts(loaded@)[j]) != normal(path@),
        decreases loaded@.len() - i,
    {
        if same_path(&to_chars(loaded[i].as_str()), &wanted) {
            assert(normal(texts(loaded@)[i as int]) == normal(path@));
            return true;
        }
        i += 1;
    }
    false
}

fn write_setting(name: &str, value: &str, from: &Origin) -> (r: String)
    ensures
        r@ == setting_line(name@, value@, from@),
{
    let mut o: String = String::new();
    push_padded_right(&mut o, name, 16);
    assert(o@ =~= pad_right(name@, 16));
    o.push_str(" ");
    push_padded_right(&mut o, value, 28);
    o.push_str(" ");
    o.push_str(from.to_text().as_str());
    o.push_str("\n");
    o
}

fn write_search(loaded: &Vec<String>, searched: &Vec<String>) -> (r: String)
    ensures
        r@ == search_lines(texts(loaded@), texts(searched@), searched@.len()),
{
    let mut o: String = String::new();
    let mut i: usize = 0;
    assert(o@ =~= search_lines(texts(loaded@), texts(searched@), 0));
    while i < searched.len()
        invariant
            i <= searched@.len(),
            o@ == search_lines(texts(loaded@), texts(searched@), i as nat),
        decreases searched@.len() - i,
    {
        let mark: &str = if read_before(loaded, searched[i].as_str()) {
            "read"
        } else {
            "absent"
        };
        o.push_str("  ");
        push_padded_right(&mut o, mark, 8);
        o.push_str(" ");
        o.push_str(searched[i].as_str());
        o.push_str("\n");
        i += 1;
    }
    o
}

fn write_rules(rules: &Vec<Rule>) -> (r: String)
    ensures
        r@ == rules_part(reactions(rules@)),
{
    if rules.len() == 0 {
        return copy_text("\nNo rules defined.\n");
    }
    let ghost all = reactions(rules@);
    let mut o: String = String::new();
    let mut i: usize = 0;
    assert(o@ =~= rule_lines(all, 0));
    while i < rules.len()
        invariant
            i <= rules@.len(),
            all == reactions(rules@),
            o@ == rule_lines(all, i as nat),
        decreases rules@.len() - i,
    {
        assert(all[i as int] == rules@[i as int]@);
        o.push_str("  ");
        push_padded_right(&mut o, rules[i].name.as_str(), 28);
        o.push_str(" when ");
        o.push_str(rules[i].when.as_str());
        o.push_str("\n");
        i += 1;
    }
    let mut head: String = copy_text("\n");
    push_u64(&mut head, rules.len() as u64);
    head.push_str(" rule(s):\n");
    head.push_str(o.as_str());
    head
}

impl Config {
    /// Every setting, its value, and which layer won, given the files that
    /// were searched.
    pub fn explain(&self, searched: &Vec<String>) -> (r: String)
        ensures
            r@ == explained(self@, texts(searched@)),
    {
        let mut o: String = copy_text("Searched, lowest precedence first:\n");
        o.push_str(write_search(&self.loaded, searched).as_str());
        o.push_str("\nEnvironment then command-line flags override those.\n\n");
        push_padded_right(&mut o, "SETTING", 16);
        o.push_str(" ");
        push_padded_right(&mut o, "VALUE", 28);
        o.push_str(" FROM\n");
        o.push_str(
            write_setting(
                "threshold_ms",
                decimal_text(self.threshold_ms.value).as_str(),
                &self.threshold_ms.origin,
            ).as_str(),
        );
        o.push_str(
            write_setting(
                "capture_ms",
                decimal_text(self.capture_ms.value).as_str(),
                &self.capture_ms.origin,
            ).as_str(),
        );
        o.push_str(
            write_setting(
                "history_secs",
                decimal_text(self.history_secs.value).as_str(),
                &self.history_secs.origin,
            ).as_str(),
        );
        o.push_str(
            write_setting(
                "resources",
                joined(&self.resources.value, ",").as_str(),
                &self.resources.origin,
            ).as_str(),
        );
        o.push_str(
            write_setting(
                "notify.enabled",
                flag(self.notify_enabled.value),
                &self.notify_enabled.origin,
            ).as_str(),
        );
        o.push_str(
            write_setting(
                "notify.min_peak",
                decimal_text(self.notify_min_peak.value).as_str(),
                &self.notify_min_peak.origin,
            ).as_str(),
        );
        o.push_str(
            write_setting(
                "notify.cooldown",
                decimal_text(self.notify_cooldown_secs.value).as_str(),
                &self.notify_cooldown_secs.origin,
            ).as_str(),
        );
        o.push_str(write_rules(&self.rules).as_str());
        o
    }
}

// ── commands ───────────────────────────────────────────────────────────

/// A name in braces at the start of a template: its length, and what it stands
/// for.
pub open spec fn placeholder(t: Seq<char>, s: Stall) -> Option<(nat, Seq<char>)> {
    if starts_with(t, "{unit}"@) {
        Some((6, s.unit@))
    } else if starts_with(t, "{cgroup}"@) {
        Some((8, s.cgroup@))
    } else if starts_with(t, "{resource}"@) {
        Some((10, s.resource.name()))
    } else if starts_with(t, "{delta_ms}"@) {
        Some((10, decimal((s.delta_usec / 1000) as nat)))
    } else if starts_with(t, "{pct}"@) {
        Some((5, fixed(s.pressure_pct, 0)))
    } else if starts_with(t, "{peak}"@) {
        Some((6, fixed(s.peak_pct, 0)))
    } else {
        None
    }
}

/// A rule's command for a stall: each name in braces replaced by what it stands
/// for. The template is read once, from left to right; what was placed is not
/// read again.
pub open spec fn expanded(template: Seq<char>, s: Stall) -> Seq<char>
    decreases template.len(),
{
    if template.len() == 0 {
        seq![]
    } else {
        proof {
            lemma_placeholder_is_there(template, s);
        }
        match placeholder(template, s) {
            Some((n, value)) => value + expanded(template.skip(n as int), s),
            None => seq![template[0]] + expanded(template.skip(1), s),
        }
    }
}

/// A name in braces has a length, and the template holds all of it.
pub proof fn lemma_placeholder_is_there(t: Seq<char>, s: Stall)
    ensures
        placeholder(t, s) matches Some((n, _)) ==> 0 < n <= t.len(),
{
    reveal_strlit("{unit}");
    reveal_strlit("{cgroup}");
    reveal_strlit("{resource}");
    reveal_strlit("{delta_ms}");
    reveal_strlit("{pct}");
    reveal_strlit("{peak}");
}

fn read_placeholder(t: &[char], s: &Stall) -> (r: Option<(usize, String)>)
    ensures
        match placeholder(t@, *s) {
            Some((n, value)) => r is Some && (r->0).0 == n && (r->0).1@ == value,
            None => r is None,
        },
{
    if has_prefix(t, "{unit}") {
        Some((6, copy_text(s.unit.as_str())))
    } else if has_prefix(t, "{cgroup}") {
        Some((8, copy_text(s.cgroup.as_str())))
    } else if has_prefix(t, "{resource}") {
        Some((10, copy_text(s.resource.as_str())))
    } else if has_prefix(t, "{delta_ms}") {
        Some((10, decimal_text(s.delta_usec / 1000)))
    } else if has_prefix(t, "{pct}") {
        Some((5, s.pressure_pct.to_fixed(0)))
    } else if has_prefix(t, "{peak}") {
        Some((6, s.peak_pct.to_fixed(0)))
    } else {
        None
    }
}

/// Substitute `{unit}` and friends in a rule command.
///
/// Deliberately not a shell: values are placed literally and the caller is
/// responsible for how it runs them. A rule is something the user wrote for
/// themselves, but a unit name still comes from the kernel.
pub fn expand(template: &str, stall: &Stall) -> (r: String)
    ensures
        r@ == expanded(template@, *stall),
{
    let chars: Vec<char> = to_chars(template);
    let n: usize = chars.len();
    let ghost all = chars@;
    let mut out: String = String::new();
    let mut i: usize = 0;
    assert(all.skip(0) =~= all);
    assert(out@ + expanded(all, *stall) =~= expanded(all, *stall));
    while i < n
        invariant
            i <= n == chars@.len(),
            chars@ == all,
            out@ + expanded(all.skip(i as int), *stall) == expanded(all, *stall),
        decreases n - i,
    {
        let ghost rest = all.skip(i as int);
        let ghost before = out@;
        let tail: &[char] = slice_subrange(chars.as_slice(), i, n);
        assert(tail@ =~= rest);
        proof {
            lemma_placeholder_is_there(rest, *stall);
        }
        match read_placeholder(tail, stall) {
            Some((len, value)) => {
                out.push_str(value.as_str());
                assert(rest.skip(len as int) =~= all.skip(i + len));
                assert(before + (value@ + expanded(rest.skip(len as int), *stall)) =~= out@
                    + expanded(rest.skip(len as int), *stall));
                i += len;
            },
            None => {
                out.push(chars[i]);
                assert(rest.skip(1) =~= all.skip(i + 1));
                assert(before + (seq![rest[0]] + expanded(rest.skip(1), *stall)) =~= out@
                    + expanded(rest.skip(1), *stall));
                i += 1;
            },
        }
    }
    assert(out@ =~= expanded(all, *stall));
    out
}

// ── laws ───────────────────────────────────────────────────────────────

/// What a file holds that is not understood is reported and never passed over:
/// the first line that is wrong, after lines that are not, is the error, and
/// nothing of the file is applied.
pub proof fn lemma_what_is_not_understood_is_reported(
    s: Settings,
    body: Seq<char>,
    from: Seq<char>,
    n: nat,
)
    requires
        n < lines(body).len(),
        after_lines(lines(body), n) is Ok,
        after_line(after_lines(lines(body), n)->Ok_0, lines(body)[n as int], n + 1) is Err,
    ensures
        layered(s, body, from) == (
            s,
            Some(
                Misfit {
                    line: n + 1,
                    msg: after_line(
                        after_lines(lines(body), n)->Ok_0,
                        lines(body)[n as int],
                        n + 1,
                    )->Err_0,
                },
            ),
        ),
{
    lemma_error_stays(lines(body), n + 1, lines(body).len());
}

/// Values are placed literally: a template that is one name in braces gives
/// what the name stands for, whatever that holds.
pub proof fn lemma_values_are_placed_literally(template: Seq<char>, s: Stall)
    requires
        placeholder(template, s) is Some,
        (placeholder(template, s)->0).0 == template.len(),
    ensures
        expanded(template, s) == (placeholder(template, s)->0).1,
{
    lemma_placeholder_is_there(template, s);
    let value = (placeholder(template, s)->0).1;
    let rest = template.skip(template.len() as int);
    assert(rest.len() == 0);
    assert(expanded(rest, s) =~= Seq::<char>::empty());
    assert(value + Seq::<char>::empty() =~= value);
}

/// A setting that a layer with this origin left: as it was, or with that
/// origin.
pub open spec fn kept_or_from<T>(before: (T, Source), after: (T, Source), from: Source) -> bool {
    after == before || after.1 == from
}

/// Later wins, and says so: whatever a file does to a setting, the setting
/// either is what it was, origin and all, or names that file as its origin.
pub proof fn lemma_file_wins_or_leaves(s: Settings, body: Seq<char>, from: Seq<char>)
    ensures
        ({
            let t = layered(s, body, from).0;
            let f = Source::File(from);
            &&& kept_or_from(s.threshold_ms, t.threshold_ms, f)
            &&& kept_or_from(s.capture_ms, t.capture_ms, f)
            &&& kept_or_from(s.history_secs, t.history_secs, f)
            &&& kept_or_from(s.resources, t.resources, f)
            &&& kept_or_from(s.notify_enabled, t.notify_enabled, f)
            &&& kept_or_from(s.notify_min_peak, t.notify_min_peak, f)
            &&& kept_or_from(s.notify_cooldown_secs, t.notify_cooldown_secs, f)
            &&& t.loaded == s.loaded
        }),
{
}

/// The bounds that every layer keeps.
pub open spec fn in_bounds(s: Settings) -> bool {
    s.threshold_ms.0 >= 1 && s.capture_ms.0 >= 50 && s.history_secs.0 >= 10
        && s.notify_min_peak.0 <= 100
}

/// However the files and the environment are written, a configuration that
/// loads has a threshold, a capture and a history that can be used.
pub proof fn lemma_loaded_is_in_bounds(files: Seq<ConfigFile>, env: Environment)
    ensures
        resolved(files, env) matches Ok(s) ==> in_bounds(s),
{
    lemma_files_stay_in_bounds(files, files.len());
}

proof fn lemma_files_stay_in_bounds(files: Seq<ConfigFile>, n: nat)
    ensures
        after_files(files, n) matches Ok(s) ==> in_bounds(s),
    decreases n,
{
    if n > 0 {
        lemma_files_stay_in_bounds(files, (n - 1) as nat);
    }
}

/// No rule is silently dropped: a document that is accepted adds one rule for
/// each of its rule tables, after those there were.
pub proof fn lemma_no_rule_is_dropped(s: Settings, body: Seq<char>, from: Seq<char>)
    requires
        layered(s, body, from).1 is None,
    ensures
        document(body) is Ok,
        layered(s, body, from).0.rules.len() == s.rules.len() + (document(body)->Ok_0).rules.len(),
        layered(s, body, from).0.rules.take(s.rules.len() as int) == s.rules,
{
    let d = document(body)->Ok_0;
    lemma_ruled_adds(s.rules, d.rules, d.rules.len());
}

proof fn lemma_ruled_adds(rules: Seq<Reaction>, t: Seq<Section>, n: nat)
    requires
        ruled(rules, t, n).1 is None,
    ensures
        ruled(rules, t, n).0.len() == rules.len() + n,
        ruled(rules, t, n).0.take(rules.len() as int) == rules,
    decreases n,
{
    if n == 0 {
        assert(rules.take(rules.len() as int) =~= rules);
    } else {
        lemma_ruled_adds(rules, t, (n - 1) as nat);
        let before = ruled(rules, t, (n - 1) as nat).0;
        let rule = rule_in(t[n - 1], n)->Ok_0;
        assert(before.push(rule).take(rules.len() as int) =~= before.take(rules.len() as int));
    }
}

} // verus!
