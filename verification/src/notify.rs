//! Telling you at the moment it happens, and only when it is worth saying.
//!
//! # The rule
//!
//! Notify when the machine spent at least [`EPISODE_MIN_STALL`] of the last
//! [`EPISODE_WINDOW`] frozen, a tenth of the window, and at most once per
//! [`DEFAULT_COOLDOWN`].
//!
//! A single capture is evidence about a condition, not the condition: captures
//! run for a fixed window, so what one of them measures is bounded by that
//! window and not by the freeze. The message is therefore about the episode,
//! and it names the cause, not the casualty.

use std::collections::VecDeque;
use vstd::prelude::*;

use crate::appname::{human_name, person_name};
use crate::decimal::fixed;
use crate::float::{Double, product, quotient, whole};
use crate::incident::{Culprit, Incident, first_cause, since};
use crate::pathology::Warning;
use crate::report::{Cause, Role, bytes_phrase, bytes_text, first_nameable};
use crate::span::Span;
use crate::text::{copy_text, decimal, decimal_text};

verus! {

/// How far back an episode looks, in seconds.
pub const EPISODE_WINDOW: u64 = 600;

/// Total stall inside [`EPISODE_WINDOW`] before it is worth a word, in seconds:
/// a tenth of the window. Below this the machine is coping; above it, a person
/// is losing meaningful time and cannot see why.
pub const EPISODE_MIN_STALL: u64 = 60;

/// Retained so existing configuration keeps parsing. Peak pressure is no longer
/// a notification gate: 70% of a 400ms capture window was cleared by 70% of
/// every stall ever recorded, which made it no filter at all.
pub const DEFAULT_MIN_PEAK: u64 = 70;

/// At most one notice per six hours, however bad it gets, in seconds.
///
/// A machine with a background condition stalls for as long as the condition
/// lasts, and the episode threshold is met again the instant the cooldown
/// expires. Once the message is "this is chronic", repeating it hourly adds
/// nothing and costs the user's willingness to keep the tool installed.
pub const DEFAULT_COOLDOWN: u64 = 21_600;

/// What to say.
#[derive(Debug, PartialEq, Eq)]
pub struct Notice {
    pub summary: String,
    pub body: String,
    /// Captures folded into this one notice. Reported so a caller can tell a
    /// brief episode from a relentless one.
    pub also_suppressed: u32,
}

/// A notice as a value to compare with.
pub struct Announcement {
    pub summary: Seq<char>,
    pub body: Seq<char>,
    pub also_suppressed: u32,
}

impl View for Notice {
    type V = Announcement;

    open spec fn view(&self) -> Announcement {
        Announcement {
            summary: self.summary@,
            body: self.body@,
            also_suppressed: self.also_suppressed,
        }
    }
}

/// One capture, reduced to what an episode needs.
#[derive(Clone, Copy, Debug)]
pub struct Beat {
    pub at_unix: u64,
    pub stalled_usec: u64,
}

/// Decides whether to speak, and holds the episode window and rate limit.
///
/// Deliberately separate from sending, so the policy is testable without a
/// desktop, a bus, or a notification daemon.
#[derive(Debug)]
pub struct Notifier {
    pub enabled: bool,
    /// Kept for configuration compatibility; not a gate. See [`DEFAULT_MIN_PEAK`].
    pub min_peak: Double,
    pub cooldown: Span,
    pub episode_window: Span,
    pub episode_min_stall: Span,
    pub memory: Memory,
}

/// What a notifier remembers between captures.
#[derive(Debug)]
pub struct Memory {
    last_sent_unix: Option<u64>,
    suppressed: u32,
    beats: VecDeque<Beat>,
}

impl Memory {
    /// When there was a notice last.
    pub closed spec fn last_sent(&self) -> Option<u64> {
        self.last_sent_unix
    }

    /// Captures passed over since then.
    pub closed spec fn passed(&self) -> u32 {
        self.suppressed
    }

    /// The captures inside the episode window, oldest first.
    pub closed spec fn captures(&self) -> Seq<Beat> {
        self.beats@
    }
}

/// A notifier as a value.
pub struct Watch {
    pub enabled: bool,
    pub min_peak: Double,
    pub cooldown: Span,
    pub episode_window: Span,
    pub episode_min_stall: Span,
    /// When it last spoke.
    pub last_sent: Option<u64>,
    /// Captures passed over since then.
    pub suppressed: u32,
    /// The captures inside the episode window, oldest first.
    pub beats: Seq<Beat>,
}

impl View for Notifier {
    type V = Watch;

    open spec fn view(&self) -> Watch {
        Watch {
            enabled: self.enabled,
            min_peak: self.min_peak,
            cooldown: self.cooldown,
            episode_window: self.episode_window,
            episode_min_stall: self.episode_min_stall,
            last_sent: self.memory.last_sent(),
            suppressed: self.memory.passed(),
            beats: self.memory.captures(),
        }
    }
}

// ── the episode ────────────────────────────────────────────────────────

/// Total stall in these captures, as far as it can be held.
pub open spec fn total_stall(beats: Seq<Beat>) -> u64
    decreases beats.len(),
{
    if beats.len() == 0 {
        0
    } else {
        let t = total_stall(beats.drop_last()) + beats.last().stalled_usec;
        if t <= u64::MAX {
            t as u64
        } else {
            u64::MAX
        }
    }
}

/// The captures from the first that is not older than the cutoff.
pub open spec fn recent(beats: Seq<Beat>, cutoff: u64) -> Seq<Beat>
    decreases beats.len(),
{
    if beats.len() > 0 && beats[0].at_unix < cutoff {
        recent(beats.drop_first(), cutoff)
    } else {
        beats
    }
}

/// Nothing else explains it than a condition that clears itself and nobody
/// caused: the correct response is to wait.
pub open spec fn unactionable(i: Incident) -> bool {
    &&& first_cause(i.culprits@) is None
    &&& first_nameable(i.causes@) is None
    &&& i.warnings@.len() > 0
    &&& forall|k: int| 0 <= k < i.warnings@.len() ==> (#[trigger] i.warnings@[k]).transient
}

/// The earliest moment of the episode.
pub open spec fn episode_start(w: Watch, now: u64) -> u64 {
    since(now, w.episode_window.secs) as u64
}

/// The captures of the episode with this one.
pub open spec fn episode(w: Watch, i: Incident, now: u64) -> Seq<Beat> {
    let start = episode_start(w, now);
    let beat = Beat {
        at_unix: if i.at_unix >= start {
            i.at_unix
        } else {
            start
        },
        stalled_usec: i.stalls@[0].delta_usec,
    };
    recent(w.beats.push(beat), start)
}

/// Whether the episode is worth a word.
pub open spec fn long_enough(w: Watch, beats: Seq<Beat>) -> bool {
    total_stall(beats) * 1000 >= w.episode_min_stall.total_nanos()
}

/// Whether the last notice was too short a time ago.
pub open spec fn cooling(w: Watch, now: u64) -> bool {
    match w.last_sent {
        Some(last) => since(now, last) < w.cooldown.secs,
        None => false,
    }
}

/// The watch with one more capture passed over.
pub open spec fn passed_over(w: Watch) -> Watch {
    Watch {
        suppressed: if w.suppressed < u32::MAX {
            (w.suppressed + 1) as u32
        } else {
            u32::MAX
        },
        ..w
    }
}

// ── the message ────────────────────────────────────────────────────────

/// The unit that the message names: the first that moved bytes and can be
/// named, else the one that stalled most.
pub open spec fn subject_of(i: Incident) -> Seq<char> {
    match first_nameable(i.causes@) {
        Some(c) => c.unit@,
        None => i.stalls@[0].unit@,
    }
}

/// The length of the episode in seconds, at least one.
pub open spec fn window_secs(w: Watch) -> u64 {
    if w.episode_window.secs >= 1 {
        w.episode_window.secs
    } else {
        1
    }
}

/// A number of microseconds as a span.
pub open spec fn micros(usec: u64) -> Span {
    Span { secs: usec / 1_000_000, nanos: ((usec % 1_000_000) * 1000) as u32 }
}

/// Who did it, by a name that a person knows.
pub open spec fn blame(i: Incident, name: Seq<char>) -> Seq<char> {
    match first_nameable(i.causes@) {
        Some(c) => " Most of the "@ + i.stalls@[0].resource.name() + " came from "@ + name + " ("@
            + bytes_text(c.moved() as nat) + ")."@,
        None => " "@ + name
            + " took the worst of it, but the work is kernel-side and cannot be traced to a program."@,
    }
}

/// The first condition that clears itself.
pub open spec fn first_transient(w: Seq<Warning>) -> Option<Warning>
    decreases w.len(),
{
    if w.len() == 0 {
        None
    } else if w[0].transient {
        Some(w[0])
    } else {
        first_transient(w.drop_first())
    }
}

pub open spec fn reassurance(w: Seq<Warning>) -> Seq<char> {
    match first_transient(w) {
        Some(w) => " "@ + w.source@ + " is busy but clears itself."@,
        None => ""@,
    }
}

/// What is said of an episode.
pub open spec fn announcement(w: Watch, i: Incident, beats: Seq<Beat>, name: Seq<char>) -> Announcement {
    let secs = window_secs(w);
    let share = product(
        quotient(micros(total_stall(beats)).seconds(), whole(secs as int)),
        whole(100),
    );
    Announcement {
        summary: "Your machine has been freezing for the last "@ + decimal((secs / 60) as nat)
            + " minutes"@,
        body: "Frozen "@ + fixed(share, 0) + "% of that time, waiting on "@
            + i.stalls@[0].resource.name() + "."@ + blame(i, name) + reassurance(i.warnings@) + (
        if beats.len() > 10 {
            " This has been continuous, not a one-off."@
        } else {
            ""@
        }) + " Run: stallwatch why"@,
        also_suppressed: w.suppressed,
    }
}

/// What becomes of the watch, and what is said.
pub open spec fn considered(
    w: Watch,
    i: Incident,
    now: u64,
    name: Seq<char>,
) -> (Watch, Option<Announcement>) {
    if !w.enabled || i.stalls@.len() == 0 {
        (w, None)
    } else if unactionable(i) {
        (passed_over(w), None)
    } else {
        let beats = episode(w, i, now);
        let grown = Watch { beats, ..w };
        if !long_enough(w, beats) {
            (grown, None)
        } else if cooling(w, now) {
            (passed_over(grown), None)
        } else {
            (
                Watch { beats: seq![], last_sent: Some(now), suppressed: 0, ..w },
                Some(announcement(w, i, beats, name)),
            )
        }
    }
}

fn sum_stall(beats: &VecDeque<Beat>) -> (r: u64)
    ensures
        r == total_stall(beats@),
{
    let mut t: u64 = 0;
    let mut i: usize = 0;
    while i < beats.len()
        invariant
            i <= beats@.len(),
            t == total_stall(beats@.take(i as int)),
        decreases beats@.len() - i,
    {
        t = t.saturating_add(beats[i].stalled_usec);
        proof {
            assert(beats@.take(i + 1).drop_last() =~= beats@.take(i as int));
            assert(beats@.take(i + 1).last() == beats@[i as int]);
        }
        i += 1;
    }
    assert(beats@.take(i as int) =~= beats@);
    t
}

fn find_process(c: &Vec<Culprit>) -> (r: bool)
    ensures
        r == first_cause(c@) is Some,
{
    let mut i: usize = 0;
    assert(c@.skip(0) =~= c@);
    while i < c.len()
        invariant
            i <= c@.len(),
            first_cause(c@) == first_cause(c@.skip(i as int)),
        decreases c@.len() - i,
    {
        proof {
            assert(c@.skip(i as int)[0] == c@[i as int]);
            assert(c@.skip(i as int).drop_first() =~= c@.skip(i + 1));
        }
        if c[i].role == Role::Cause {
            return true;
        }
        i += 1;
    }
    false
}

fn find_mover(c: &Vec<Cause>) -> (r: Option<&Cause>)
    ensures
        r is Some == first_nameable(c@) is Some,
        r matches Some(m) ==> first_nameable(c@) == Some(*m),
{
    let mut i: usize = 0;
    assert(c@.skip(0) =~= c@);
    while i < c.len()
        invariant
            i <= c@.len(),
            first_nameable(c@) == first_nameable(c@.skip(i as int)),
        decreases c@.len() - i,
    {
        proof {
            assert(c@.skip(i as int)[0] == c@[i as int]);
            assert(c@.skip(i as int).drop_first() =~= c@.skip(i + 1));
        }
        if c[i].is_nameable() {
            return Some(&c[i]);
        }
        i += 1;
    }
    None
}

fn find_transient(w: &Vec<Warning>) -> (r: Option<&Warning>)
    ensures
        r is Some == first_transient(w@) is Some,
        r matches Some(m) ==> first_transient(w@) == Some(*m),
{
    let mut i: usize = 0;
    assert(w@.skip(0) =~= w@);
    while i < w.len()
        invariant
            i <= w@.len(),
            first_transient(w@) == first_transient(w@.skip(i as int)),
        decreases w@.len() - i,
    {
        proof {
            assert(w@.skip(i as int)[0] == w@[i as int]);
            assert(w@.skip(i as int).drop_first() =~= w@.skip(i + 1));
        }
        if w[i].transient {
            return Some(&w[i]);
        }
        i += 1;
    }
    None
}

fn nothing_to_do(i: &Incident) -> (r: bool)
    ensures
        r == unactionable(*i),
{
    if find_process(&i.culprits) || find_mover(&i.causes).is_some() || i.warnings.len() == 0 {
        return false;
    }
    let mut k: usize = 0;
    while k < i.warnings.len()
        invariant
            k <= i.warnings@.len(),
            forall|j: int| 0 <= j < k ==> (#[trigger] i.warnings@[j]).transient,
        decreases i.warnings@.len() - k,
    {
        if !i.warnings[k].transient {
            return false;
        }
        k += 1;
    }
    true
}

/// The unit that a notice about this incident would name; none where nothing
/// stalled.
pub fn subject(incident: &Incident) -> (r: Option<String>)
    ensures
        r is Some == (incident.stalls@.len() > 0),
        r matches Some(s) ==> s@ == subject_of(*incident),
{
    if incident.stalls.len() == 0 {
        return None;
    }
    match find_mover(&incident.causes) {
        Some(c) => Some(copy_text(c.unit.as_str())),
        None => Some(copy_text(incident.stalls[0].unit.as_str())),
    }
}

fn write_blame(i: &Incident, name: &str) -> (r: String)
    requires
        i.stalls@.len() > 0,
    ensures
        r@ == blame(*i, name@),
{
    match find_mover(&i.causes) {
        Some(c) => {
            let mut o: String = copy_text(" Most of the ");
            o.push_str(i.stalls[0].resource.as_str());
            o.push_str(" came from ");
            o.push_str(name);
            o.push_str(" (");
            o.push_str(bytes_phrase(c.bytes()).as_str());
            o.push_str(").");
            o
        },
        None => {
            let mut o: String = copy_text(" ");
            o.push_str(name);
            o.push_str(
                " took the worst of it, but the work is kernel-side and cannot be traced to a program.",
            );
            o
        },
    }
}

fn write_reassurance(w: &Vec<Warning>) -> (r: String)
    ensures
        r@ == reassurance(w@),
{
    match find_transient(w) {
        Some(w) => {
            let mut o: String = copy_text(" ");
            o.push_str(w.source.as_str());
            o.push_str(" is busy but clears itself.");
            o
        },
        None => copy_text(""),
    }
}

impl Default for Notifier {
    fn default() -> (r: Self)
        ensures
            r@ == (Watch {
                enabled: true,
                min_peak: whole(DEFAULT_MIN_PEAK as int),
                cooldown: Span { secs: DEFAULT_COOLDOWN, nanos: 0 },
                episode_window: Span { secs: EPISODE_WINDOW, nanos: 0 },
                episode_min_stall: Span { secs: EPISODE_MIN_STALL, nanos: 0 },
                last_sent: None,
                suppressed: 0,
                beats: seq![],
            }),
    {
        Notifier::new(true, Double::from_u64(DEFAULT_MIN_PEAK), Span::from_secs(DEFAULT_COOLDOWN))
    }
}

impl Notifier {
    /// Build one from resolved settings.
    pub fn new(enabled: bool, min_peak: Double, cooldown: Span) -> (r: Self)
        ensures
            r@ == (Watch {
                enabled,
                min_peak,
                cooldown,
                episode_window: Span { secs: EPISODE_WINDOW, nanos: 0 },
                episode_min_stall: Span { secs: EPISODE_MIN_STALL, nanos: 0 },
                last_sent: None,
                suppressed: 0,
                beats: seq![],
            }),
    {
        let r: Notifier = Notifier {
            enabled,
            min_peak,
            cooldown,
            episode_window: Span::from_secs(EPISODE_WINDOW),
            episode_min_stall: Span::from_secs(EPISODE_MIN_STALL),
            memory: Memory { last_sent_unix: None, suppressed: 0, beats: VecDeque::new() },
        };
        assert(r.memory.beats@ =~= seq![]);
        r
    }

    /// Take this capture into the episode.
    fn grow(&mut self, incident: &Incident, now: u64)
        requires
            incident.stalls@.len() > 0,
        ensures
            final(self)@ == (Watch { beats: episode(old(self)@, *incident, now), ..old(self)@ }),
    {
        let start: u64 = now.saturating_sub(self.episode_window.secs);
        let at_unix: u64 = if incident.at_unix >= start {
            incident.at_unix
        } else {
            start
        };
        self.memory.beats.push_back(Beat { at_unix, stalled_usec: incident.stalls[0].delta_usec });
        let ghost all = self.memory.beats@;
        let ghost w = old(self)@;
        while self.memory.beats.len() > 0 && self.memory.beats[0].at_unix < start
            invariant
                recent(self.memory.beats@, start) == recent(all, start),
                self@ == (Watch { beats: self.memory.beats@, ..w }),
            decreases self.memory.beats@.len(),
        {
            let ghost before = self.memory.beats@;
            let _dropped: Option<Beat> = self.memory.beats.pop_front();
            assert(self.memory.beats@ =~= before.drop_first());
        }
        assert(self.memory.beats@ == recent(all, start));
    }

    /// Should this incident be announced, and as what?
    ///
    /// Takes `now` rather than reading the clock so the rate limit can be
    /// tested deterministically, and so a recorded corpus can be replayed
    /// through the real policy rather than an approximation of it. The bodies
    /// are those of the desktop entries that may name the [`subject`].
    pub fn consider(
        &mut self,
        incident: &Incident,
        now: u64,
        bodies: &Vec<Option<String>>,
    ) -> (r: Option<Notice>)
        ensures
            ({
                let name = person_name(subject_of(*incident), bodies@);
                let (after, says) = considered(old(self)@, *incident, now, name);
                &&& final(self)@ == after
                &&& r is Some == says is Some
                &&& r matches Some(n) ==> says == Some(n@)
            }),
    {
        if !self.enabled || incident.stalls.len() == 0 {
            return None;
        }
        if nothing_to_do(incident) {
            self.memory.suppressed = self.memory.suppressed.saturating_add(1);
            return None;
        }
        let name: String = match subject(incident) {
            Some(unit) => human_name(unit.as_str(), bodies),
            None => copy_text(""),
        };
        let ghost w = old(self)@;
        self.grow(incident, now);
        let ghost beats = self.memory.beats@;
        let stalled: u64 = sum_stall(&self.memory.beats);
        let least: u128 = self.episode_min_stall.secs as u128 * 1_000_000_000
            + self.episode_min_stall.nanos as u128;
        if (stalled as u128) * 1000 < least {
            return None;
        }
        match self.memory.last_sent_unix {
            Some(last) => {
                if now.saturating_sub(last) < self.cooldown.secs {
                    self.memory.suppressed = self.memory.suppressed.saturating_add(1);
                    return None;
                }
            },
            None => {},
        }
        let also_suppressed: u32 = self.memory.suppressed;
        self.memory.suppressed = 0;
        self.memory.last_sent_unix = Some(now);
        let captures: usize = self.memory.beats.len();
        let secs: u64 = if self.episode_window.secs >= 1 {
            self.episode_window.secs
        } else {
            1
        };
        let span: Span = Span {
            secs: stalled / 1_000_000,
            nanos: ((stalled % 1_000_000) * 1000) as u32,
        };
        let share: Double = span.to_seconds().over(&Double::from_u64(secs)).times(
            &Double::from_u64(100),
        );
        self.memory.beats = VecDeque::new();
        assert(self.memory.beats@ =~= seq![]);
        let mut summary: String = copy_text("Your machine has been freezing for the last ");
        summary.push_str(decimal_text(secs / 60).as_str());
        summary.push_str(" minutes");
        let mut body: String = copy_text("Frozen ");
        body.push_str(share.to_fixed(0).as_str());
        body.push_str("% of that time, waiting on ");
        body.push_str(incident.stalls[0].resource.as_str());
        body.push_str(".");
        body.push_str(write_blame(incident, name.as_str()).as_str());
        body.push_str(write_reassurance(&incident.warnings).as_str());
        body.push_str(
            if captures > 10 {
                " This has been continuous, not a one-off."
            } else {
                ""
            },
        );
        body.push_str(" Run: stallwatch why");
        Some(Notice { summary, body, also_suppressed })
    }
}

// ── laws ───────────────────────────────────────────────────────────────

/// A notifier that is switched off says nothing and remembers nothing.
pub proof fn lemma_disabled_is_silent(w: Watch, i: Incident, now: u64, name: Seq<char>)
    requires
        !w.enabled,
    ensures
        considered(w, i, now, name) == (w, None::<Announcement>),
{
}

/// The moment of the last notice moves only when there is a new one.
pub proof fn lemma_silence_keeps_the_clock(w: Watch, i: Incident, now: u64, name: Seq<char>)
    ensures
        considered(w, i, now, name).1 is None ==> considered(w, i, now, name).0.last_sent
            == w.last_sent,
        considered(w, i, now, name).1 is Some ==> considered(w, i, now, name).0.last_sent == Some(
            now,
        ),
        considered(w, i, now, name).0.cooldown == w.cooldown,
{
}

/// One capture that is put to the notifier.
pub struct Consideration {
    pub incident: Incident,
    pub now: u64,
    pub name: Seq<char>,
}

/// The watch after the first `n` captures, one after the other.
pub open spec fn watched(w: Watch, all: Seq<Consideration>, n: nat) -> Watch
    decreases n,
{
    if n == 0 {
        w
    } else {
        let c = all[n - 1];
        considered(watched(w, all, (n - 1) as nat), c.incident, c.now, c.name).0
    }
}

/// What is said of the capture at this place.
pub open spec fn said_at(w: Watch, all: Seq<Consideration>, k: int) -> Option<Announcement> {
    considered(watched(w, all, k as nat), all[k].incident, all[k].now, all[k].name).1
}

/// However bad it gets, two notices are at least a cooldown apart: of captures
/// put to it one after the other, none is announced that comes within the
/// cooldown of one that was, even where the clock was set back between them.
pub proof fn lemma_one_notice_per_cooldown(w: Watch, all: Seq<Consideration>, j: int, k: int)
    requires
        0 <= j < k < all.len(),
        said_at(w, all, j) is Some,
        since(all[k].now, all[j].now) < w.cooldown.secs,
    ensures
        said_at(w, all, k) is None,
{
    lemma_clock_runs_on(w, all, j, k);
}

/// From one notice on, the moment of the last notice is no earlier than that
/// one.
proof fn lemma_clock_runs_on(w: Watch, all: Seq<Consideration>, j: int, k: int)
    requires
        0 <= j < k < all.len(),
        said_at(w, all, j) is Some,
        w.cooldown.secs > 0,
    ensures
        watched(w, all, k as nat).last_sent is Some,
        all[j].now <= watched(w, all, k as nat).last_sent->0,
        watched(w, all, k as nat).cooldown == w.cooldown,
    decreases k - j,
{
    let before = watched(w, all, (k - 1) as nat);
    let c = all[k - 1];
    lemma_silence_keeps_the_clock(before, c.incident, c.now, c.name);
    lemma_cooldown_stays(w, all, k as nat);
    lemma_cooldown_stays(w, all, (k - 1) as nat);
    if k - 1 > j {
        lemma_clock_runs_on(w, all, j, k - 1);
    } else {
        assert(said_at(w, all, j) == considered(before, c.incident, c.now, c.name).1);
    }
}

proof fn lemma_cooldown_stays(w: Watch, all: Seq<Consideration>, n: nat)
    ensures
        watched(w, all, n).cooldown == w.cooldown,
    decreases n,
{
    if n > 0 {
        lemma_cooldown_stays(w, all, (n - 1) as nat);
    }
}

/// One capture on its own, shorter than an episode has to be, says nothing.
pub proof fn lemma_one_capture_says_nothing(w: Watch, i: Incident, now: u64, name: Seq<char>)
    requires
        w.beats.len() == 0,
        i.stalls@.len() > 0,
        i.stalls@[0].delta_usec * 1000 < w.episode_min_stall.total_nanos(),
    ensures
        considered(w, i, now, name).1 is None,
{
    let start = episode_start(w, now);
    let beat = Beat {
        at_unix: if i.at_unix >= start {
            i.at_unix
        } else {
            start
        },
        stalled_usec: i.stalls@[0].delta_usec,
    };
    let b = w.beats.push(beat);
    assert(recent(b, start) == b);
    assert(b.drop_last() =~= seq![]);
    assert(total_stall(b.drop_last()) == 0);
    assert(total_stall(b) == beat.stalled_usec);
}

/// What clears itself and nobody caused is never announced.
pub proof fn lemma_unactionable_is_never_announced(w: Watch, i: Incident, now: u64, name: Seq<char>)
    requires
        unactionable(i),
    ensures
        considered(w, i, now, name).1 is None,
{
}

/// What is announced is an episode: captures of which the first is no older
/// than the window, with enough stall among them to be worth a word.
pub proof fn lemma_a_notice_has_an_episode(w: Watch, i: Incident, now: u64, name: Seq<char>)
    requires
        considered(w, i, now, name).1 is Some,
    ensures
        total_stall(episode(w, i, now)) * 1000 >= w.episode_min_stall.total_nanos(),
        episode(w, i, now).len() > 0,
        episode(w, i, now)[0].at_unix >= episode_start(w, now),
{
    let start = episode_start(w, now);
    let beat = Beat {
        at_unix: if i.at_unix >= start {
            i.at_unix
        } else {
            start
        },
        stalled_usec: i.stalls@[0].delta_usec,
    };
    lemma_recent_starts(w.beats.push(beat), start);
}

/// With the built-in window and threshold, a capture that can be acted on is
/// announced exactly when a tenth of the window was lost, unless the last notice
/// was too short a time ago.
pub proof fn lemma_a_notice_exactly_when_a_tenth_was_lost(
    w: Watch,
    i: Incident,
    now: u64,
    name: Seq<char>,
)
    requires
        w.episode_window == (Span { secs: EPISODE_WINDOW, nanos: 0 }),
        w.episode_min_stall == (Span { secs: EPISODE_MIN_STALL, nanos: 0 }),
    ensures
        considered(w, i, now, name).1 is Some <==> {
            &&& w.enabled
            &&& i.stalls@.len() > 0
            &&& !unactionable(i)
            &&& !cooling(w, now)
            &&& total_stall(episode(w, i, now)) * 10 >= EPISODE_WINDOW * 1_000_000
        },
{
}

proof fn lemma_recent_starts(b: Seq<Beat>, cutoff: u64)
    requires
        b.len() > 0,
        b.last().at_unix >= cutoff,
    ensures
        recent(b, cutoff).len() > 0,
        recent(b, cutoff)[0].at_unix >= cutoff,
    decreases b.len(),
{
    if b[0].at_unix < cutoff {
        assert(b.drop_first().last() == b.last());
        lemma_recent_starts(b.drop_first(), cutoff);
    }
}

} // verus!
