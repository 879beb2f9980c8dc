//! Fixed-size history, so "what just happened?" has an answer.
//!
//! By the time a desktop unfreezes enough to open a terminal and type a
//! command, the event is gone. The daemon keeps a bounded window of recent
//! history so the question can be asked *afterwards*, which is when people
//! actually ask it.

use std::collections::VecDeque;
use vstd::prelude::*;

use crate::attribution::share;
use crate::float::{Double, at_most, below, signed, whole};
use crate::iostat::{minus, plus};
use crate::pathology::Warning;
use crate::psi::{PsiKind, Resource};
use crate::ranking::{StallView, rank_stalls, views, worst_first};
use crate::report::{Cause, MAX_STALLS, MIN_REPORTABLE_PCT, Report, Stall};
use crate::text::same_text;

verus! {

/// One sampling tick.
#[derive(Debug)]
pub struct Frame {
    /// Wall-clock seconds since the epoch, for `--since` arithmetic.
    pub at_unix: u64,
    /// Measured length of this tick.
    pub window_usec: u64,
    pub stalls: Vec<Stall>,
}

/// What has been added up for one unit and resource.
pub struct Sum {
    pub unit: Seq<char>,
    pub cgroup: Seq<char>,
    pub resource: Resource,
    pub kind: PsiKind,
    pub usec: u64,
    pub peak: Double,
}

impl Sum {
    /// Does a stall belong here?
    pub open spec fn takes(&self, s: StallView) -> bool {
        self.cgroup == s.cgroup && self.resource == s.resource && self.kind == s.kind
    }

    /// The sum with a stall added: its time, and its percentage where that is a
    /// new peak.
    pub open spec fn with(&self, s: StallView) -> Sum {
        Sum {
            usec: plus(self.usec, s.delta_usec),
            peak: if below(self.peak, s.pressure_pct) {
                s.pressure_pct
            } else {
                self.peak
            },
            ..*self
        }
    }
}

/// A sum with nothing in it yet.
pub open spec fn empty_sum(s: StallView) -> Sum {
    Sum {
        unit: s.unit,
        cgroup: s.cgroup,
        resource: s.resource,
        kind: s.kind,
        usec: 0,
        peak: signed(false, 0),
    }
}

/// The first sum that takes a stall, their number where none does.
pub open spec fn sum_for(sums: Seq<Sum>, s: StallView) -> nat
    decreases sums.len(),
{
    if sums.len() == 0 {
        0
    } else if sums[0].takes(s) {
        0
    } else {
        1 + sum_for(sums.drop_first(), s)
    }
}

/// A stall added to the sums. Stalls are told apart by cgroup, resource and
/// kind.
pub open spec fn added(sums: Seq<Sum>, s: StallView) -> Seq<Sum> {
    let k = sum_for(sums, s) as int;
    if k < sums.len() {
        sums.update(k, sums[k].with(s))
    } else {
        sums.push(empty_sum(s).with(s))
    }
}

/// The first `n` stalls of a frame added to the sums.
pub open spec fn added_all(sums: Seq<Sum>, stalls: Seq<StallView>, n: nat) -> Seq<Sum>
    decreases n,
{
    if n == 0 {
        sums
    } else {
        added(added_all(sums, stalls, (n - 1) as nat), stalls[n - 1])
    }
}

/// The sums over the first `n` frames, of those at or after a moment.
pub open spec fn summed(frames: Seq<Frame>, since: u64, n: nat) -> Seq<Sum>
    decreases n,
{
    if n == 0 {
        seq![]
    } else {
        let rest = summed(frames, since, (n - 1) as nat);
        let f = frames[n - 1];
        if f.at_unix >= since {
            added_all(rest, views(f.stalls@), f.stalls@.len())
        } else {
            rest
        }
    }
}

/// The time that the first `n` frames cover, of those at or after a moment: the
/// windows actually held, not the requested span.
pub open spec fn covered(frames: Seq<Frame>, since: u64, n: nat) -> u64
    decreases n,
{
    if n == 0 {
        0
    } else {
        let rest = covered(frames, since, (n - 1) as nat);
        let f = frames[n - 1];
        if f.at_unix >= since {
            plus(rest, f.window_usec)
        } else {
            rest
        }
    }
}

/// A sum as a stall over the time covered.
pub open spec fn sum_stall(s: Sum, window: u64) -> StallView {
    StallView {
        unit: s.unit,
        cgroup: s.cgroup,
        resource: s.resource,
        kind: s.kind,
        delta_usec: s.usec,
        pressure_pct: share(s.usec, window),
        peak_pct: s.peak,
    }
}

/// The sums worth reporting. The peak decides, not the average: a unit that
/// froze the machine for one hard second inside a long window is exactly what
/// "what just happened" is asking about, and its average is tiny.
pub open spec fn sum_stalls(sums: Seq<Sum>, window: u64) -> Seq<StallView>
    decreases sums.len(),
{
    if sums.len() == 0 {
        seq![]
    } else {
        let rest = sum_stalls(sums.drop_last(), window);
        if at_most(whole(MIN_REPORTABLE_PCT as int), sums.last().peak) {
            rest.push(sum_stall(sums.last(), window))
        } else {
            rest
        }
    }
}

/// What history shows since a moment, the hardest freeze first.
pub open spec fn history(frames: Seq<Frame>, since: u64) -> Seq<StallView> {
    let window = covered(frames, since, frames.len());
    if window == 0 {
        seq![]
    } else {
        worst_first(
            sum_stalls(summed(frames, since, frames.len()), window),
            true,
            MAX_STALLS as nat,
        )
    }
}

/// A sum in the making.
struct Tally {
    unit: String,
    cgroup: String,
    resource: Resource,
    kind: PsiKind,
    usec: u64,
    peak: Double,
}

impl Tally {
    spec fn sum(&self) -> Sum {
        Sum {
            unit: self.unit@,
            cgroup: self.cgroup@,
            resource: self.resource,
            kind: self.kind,
            usec: self.usec,
            peak: self.peak,
        }
    }
}

spec fn sums(t: Seq<Tally>) -> Seq<Sum> {
    Seq::new(t.len(), |i: int| t[i].sum())
}

fn find_tally(t: &Vec<Tally>, s: &Stall) -> (r: usize)
    ensures
        r == sum_for(sums(t@), s@),
        r <= t@.len(),
{
    let ghost all = sums(t@);
    let mut i: usize = 0;
    assert(all.skip(0) =~= all);
    while i < t.len()
        invariant
            i <= t@.len(),
            all == sums(t@),
            i + sum_for(all.skip(i as int), s@) == sum_for(all, s@),
        decreases t@.len() - i,
    {
        let ghost rest = all.skip(i as int);
        assert(rest[0] == t@[i as int].sum());
        assert(rest.drop_first() =~= all.skip(i + 1));
        if t[i].resource == s.resource && t[i].kind == s.kind && same_text(
            t[i].cgroup.as_str(),
            s.cgroup.as_str(),
        ) {
            return i;
        }
        i += 1;
    }
    i
}

fn tally_stall(t: &mut Vec<Tally>, s: &Stall)
    ensures
        sums(final(t)@) == added(sums(old(t)@), s@),
{
    let ghost before = t@;
    let k: usize = find_tally(t, s);
    assert(sums(t@).len() == t@.len());
    if k < t.len() {
        let old_tally: &Tally = &t[k];
        let peak: Double = if old_tally.peak.less(&s.pressure_pct) {
            s.pressure_pct
        } else {
            old_tally.peak
        };
        let next: Tally = Tally {
            unit: old_tally.unit.clone(),
            cgroup: old_tally.cgroup.clone(),
            resource: old_tally.resource,
            kind: old_tally.kind,
            usec: old_tally.usec.saturating_add(s.delta_usec),
            peak,
        };
        t.set(k, next);
        assert(sums(t@) =~= sums(before).update(k as int, sums(before)[k as int].with(s@)));
    } else {
        let zero: Double = Double::zero();
        let peak: Double = if zero.less(&s.pressure_pct) {
            s.pressure_pct
        } else {
            zero
        };
        t.push(
            Tally {
                unit: s.unit.clone(),
                cgroup: s.cgroup.clone(),
                resource: s.resource,
                kind: s.kind,
                usec: s.delta_usec,
                peak,
            },
        );
        assert(sums(t@) =~= sums(before).push(empty_sum(s@).with(s@)));
    }
}

fn tally_frame(t: &mut Vec<Tally>, f: &Frame)
    ensures
        sums(final(t)@) == added_all(sums(old(t)@), views(f.stalls@), f.stalls@.len()),
{
    let ghost before = sums(t@);
    let mut i: usize = 0;
    while i < f.stalls.len()
        invariant
            i <= f.stalls@.len(),
            sums(t@) == added_all(before, views(f.stalls@), i as nat),
        decreases f.stalls@.len() - i,
    {
        tally_stall(t, &f.stalls[i]);
        assert(views(f.stalls@)[i as int] == f.stalls@[i as int]@);
        i += 1;
    }
}

fn tally_stalls(t: &Vec<Tally>, window: u64) -> (r: Vec<Stall>)
    ensures
        views(r@) == sum_stalls(sums(t@), window),
{
    let ghost all = sums(t@);
    let whole_window: Double = Double::from_u64(window);
    let hundred: Double = Double::from_u64(100);
    let mut out: Vec<Stall> = Vec::new();
    let mut i: usize = 0;
    assert(all.take(0) =~= seq![]);
    assert(views(out@) =~= seq![]);
    while i < t.len()
        invariant
            i <= t@.len(),
            all == sums(t@),
            whole_window == whole(window as int),
            hundred == whole(100),
            views(out@) == sum_stalls(all.take(i as int), window),
        decreases t@.len() - i,
    {
        let ghost before = out@;
        let ghost upto = all.take(i + 1);
        assert(upto.drop_last() =~= all.take(i as int));
        assert(upto.last() == t@[i as int].sum());
        if t[i].peak.at_least(MIN_REPORTABLE_PCT) {
            let stall: Stall = Stall {
                unit: t[i].unit.clone(),
                cgroup: t[i].cgroup.clone(),
                resource: t[i].resource,
                kind: t[i].kind,
                delta_usec: t[i].usec,
                pressure_pct: Double::from_u64(t[i].usec).over(&whole_window).times(&hundred),
                peak_pct: t[i].peak,
            };
            let ghost shown = stall@;
            out.push(stall);
            assert(views(out@) =~= views(before).push(shown));
        }
        i += 1;
    }
    assert(all.take(i as int) =~= all);
    out
}

/// Bounded ring of recent frames.
pub struct Ring {
    frames: VecDeque<Frame>,
    capacity: usize,
}

/// The last frames of a history, at most `capacity` of them.
pub open spec fn newest_frames(frames: Seq<Frame>, capacity: nat) -> Seq<Frame> {
    if frames.len() <= capacity {
        frames
    } else {
        frames.skip(frames.len() - capacity)
    }
}

impl Ring {
    /// The frames held, oldest first.
    pub closed spec fn held(&self) -> Seq<Frame> {
        self.frames@
    }

    /// How many frames can be held.
    pub closed spec fn limit(&self) -> nat {
        self.capacity as nat
    }

    /// Memory is capped by construction.
    #[verifier::type_invariant]
    spec fn bounded(&self) -> bool {
        1 <= self.capacity && self.frames@.len() <= self.capacity
    }

    pub fn new(capacity: usize) -> (r: Ring)
        ensures
            r.held() == Seq::<Frame>::empty(),
            r.limit() == (if capacity == 0 {
                1
            } else {
                capacity as nat
            }),
    {
        let n: usize = if capacity == 0 {
            1
        } else {
            capacity
        };
        Ring { frames: VecDeque::new(), capacity: n }
    }

    /// Add a frame, dropping the oldest where the ring is full.
    pub fn push(&mut self, frame: Frame)
        ensures
            final(self).held() == newest_frames(old(self).held().push(frame), old(self).limit()),
            final(self).limit() == old(self).limit(),
    {
        proof {
            use_type_invariant(&*self);
        }
        let ghost before = self.frames@;
        let mut frames: VecDeque<Frame> = VecDeque::new();
        std::mem::swap(&mut frames, &mut self.frames);
        if frames.len() == self.capacity {
            let _oldest: Option<Frame> = frames.pop_front();
        }
        frames.push_back(frame);
        assert(frames@ =~= newest_frames(before.push(frame), self.capacity as nat));
        self.frames = frames;
    }

    pub fn len(&self) -> (r: usize)
        ensures
            r == self.held().len(),
            r <= self.limit(),
    {
        proof {
            use_type_invariant(self);
        }
        self.frames.len()
    }

    pub fn is_empty(&self) -> (r: bool)
        ensures
            r == (self.held().len() == 0),
    {
        self.frames.len() == 0
    }

    pub fn newest(&self) -> (r: Option<&Frame>)
        ensures
            r is Some == (self.held().len() > 0),
            r matches Some(f) ==> *f == self.held().last(),
    {
        let n: usize = self.frames.len();
        if n == 0 {
            None
        } else {
            Some(&self.frames[n - 1])
        }
    }

    /// Wall-clock span currently held, in seconds.
    pub fn span_secs(&self) -> (r: u64)
        ensures
            r == (if self.held().len() == 0 {
                0
            } else {
                minus(self.held().last().at_unix, self.held()[0].at_unix)
            }),
    {
        let n: usize = self.frames.len();
        if n == 0 {
            0
        } else {
            self.frames[n - 1].at_unix.saturating_sub(self.frames[0].at_unix)
        }
    }

    /// Aggregate every frame at or after `since_unix` into one report.
    ///
    /// Stalls are summed per (cgroup, resource, kind) and the percentage is
    /// computed against the total observed window — but `peak_pct` carries the
    /// worst individual tick, because the sum alone hides short freezes. Byte
    /// counts are not retained per frame, so the report carries no causes
    /// rather than a fabricated total.
    pub fn aggregate(&self, since_unix: u64) -> (r: Report)
        ensures
            r.window_usec == covered(self.held(), since_unix, self.held().len()),
            views(r.stalls@) == history(self.held(), since_unix),
            r.causes@ == Seq::<Cause>::empty(),
            r.warnings@ == Seq::<Warning>::empty(),
    {
        let ghost all = self.frames@;
        let mut total: u64 = 0;
        let mut t: Vec<Tally> = Vec::new();
        let mut i: usize = 0;
        assert(sums(t@) =~= seq![]);
        while i < self.frames.len()
            invariant
                i <= self.frames@.len(),
                all == self.frames@,
                total == covered(all, since_unix, i as nat),
                sums(t@) == summed(all, since_unix, i as nat),
            decreases self.frames@.len() - i,
        {
            let f: &Frame = &self.frames[i];
            if f.at_unix >= since_unix {
                total = total.saturating_add(f.window_usec);
                tally_frame(&mut t, f);
            }
            i += 1;
        }
        if total == 0 {
            let r: Report = Report::default();
            assert(views(r.stalls@) =~= seq![]);
            return r;
        }
        let stalls: Vec<Stall> = tally_stalls(&t, total);
        Report {
            window_usec: total,
            stalls: rank_stalls(&stalls, true, MAX_STALLS),
            causes: Vec::new(),
            warnings: Vec::new(),
        }
    }
}

// ── what holds of every history ────────────────────────────────────────

proof fn lemma_sum_for(sums: Seq<Sum>, s: StallView)
    ensures
        sum_for(sums, s) <= sums.len(),
        sum_for(sums, s) < sums.len() ==> sums[sum_for(sums, s) as int].takes(s),
    decreases sums.len(),
{
    if sums.len() > 0 && !sums[0].takes(s) {
        lemma_sum_for(sums.drop_first(), s);
    }
}

/// Is there a sum for this stall whose peak is at least its percentage?
pub open spec fn remembers(sums: Seq<Sum>, s: StallView) -> bool {
    exists|k: int|
        0 <= k < sums.len() && (#[trigger] sums[k]).takes(s) && at_most(
            s.pressure_pct,
            sums[k].peak,
        )
}

/// No peak is lost, and none is not a number.
spec fn peaks_count(sums: Seq<Sum>) -> bool {
    forall|k: int| 0 <= k < sums.len() ==> !(#[trigger] sums[k]).peak.is_nan()
}

proof fn lemma_added_remembers(sums: Seq<Sum>, s: StallView, old_stall: StallView)
    requires
        peaks_count(sums),
        !s.pressure_pct.is_nan(),
    ensures
        peaks_count(added(sums, s)),
        remembers(added(sums, s), s),
        remembers(sums, old_stall) ==> remembers(added(sums, s), old_stall),
{
    lemma_sum_for(sums, s);
    let k = sum_for(sums, s) as int;
    let next = added(sums, s);
    if k < sums.len() {
        assert(next[k].takes(s) && at_most(s.pressure_pct, next[k].peak));
    } else {
        assert(next[sums.len() as int] == empty_sum(s).with(s));
        assert(next[sums.len() as int].takes(s) && at_most(
            s.pressure_pct,
            next[sums.len() as int].peak,
        ));
    }
    assert forall|j: int| 0 <= j < next.len() implies !(#[trigger] next[j]).peak.is_nan() by {
        if j < sums.len() {
            assert(!sums[j].peak.is_nan());
        }
    }
    if remembers(sums, old_stall) {
        let j = choose|j: int|
            0 <= j < sums.len() && (#[trigger] sums[j]).takes(old_stall) && at_most(
                old_stall.pressure_pct,
                sums[j].peak,
            );
        assert(next[j].takes(old_stall) && at_most(old_stall.pressure_pct, next[j].peak));
    }
}

proof fn lemma_added_all_remembers(
    sums: Seq<Sum>,
    stalls: Seq<StallView>,
    n: nat,
    i: int,
    old_stall: StallView,
)
    requires
        n <= stalls.len(),
        peaks_count(sums),
        forall|k: int| 0 <= k < stalls.len() ==> !(#[trigger] stalls[k]).pressure_pct.is_nan(),
    ensures
        peaks_count(added_all(sums, stalls, n)),
        0 <= i < n ==> remembers(added_all(sums, stalls, n), stalls[i]),
        remembers(sums, old_stall) ==> remembers(added_all(sums, stalls, n), old_stall),
    decreases n,
{
    if n > 0 {
        let m = (n - 1) as nat;
        lemma_added_all_remembers(sums, stalls, m, i, old_stall);
        let rest = added_all(sums, stalls, m);
        lemma_added_remembers(rest, stalls[n - 1], old_stall);
        if 0 <= i < m {
            lemma_added_remembers(rest, stalls[n - 1], stalls[i]);
        }
    }
}

/// The peak survives averaging: for every stall of a frame that counts, history
/// holds a sum of the same cgroup, resource and kind whose peak is at least as
/// high.
pub proof fn lemma_peak_survives(frames: Seq<Frame>, since: u64, n: nat, f: int, i: int)
    requires
        0 <= f < n <= frames.len(),
        frames[f].at_unix >= since,
        0 <= i < frames[f].stalls@.len(),
        forall|a: int, b: int|
            0 <= a < frames.len() && 0 <= b < frames[a].stalls@.len() ==> !(
            #[trigger] frames[a].stalls@[b]).pressure_pct.is_nan(),
    ensures
        remembers(summed(frames, since, n), frames[f].stalls@[i]@),
    decreases n,
{
    lemma_peaks_count(frames, since, (n - 1) as nat);
    let rest = summed(frames, since, (n - 1) as nat);
    let last = frames[n - 1];
    let v = views(last.stalls@);
    assert forall|k: int| 0 <= k < v.len() implies !(#[trigger] v[k]).pressure_pct.is_nan() by {
        assert(!last.stalls@[k].pressure_pct.is_nan());
    }
    let s = frames[f].stalls@[i]@;
    if f < n - 1 {
        lemma_peak_survives(frames, since, (n - 1) as nat, f, i);
        if last.at_unix >= since {
            lemma_added_all_remembers(rest, v, v.len(), 0, s);
        }
    } else {
        lemma_added_all_remembers(rest, v, v.len(), i, s);
        assert(v[i] == s);
    }
}

proof fn lemma_peaks_count(frames: Seq<Frame>, since: u64, n: nat)
    requires
        n <= frames.len(),
        forall|a: int, b: int|
            0 <= a < frames.len() && 0 <= b < frames[a].stalls@.len() ==> !(
            #[trigger] frames[a].stalls@[b]).pressure_pct.is_nan(),
    ensures
        peaks_count(summed(frames, since, n)),
    decreases n,
{
    if n > 0 {
        lemma_peaks_count(frames, since, (n - 1) as nat);
        let last = frames[n - 1];
        let v = views(last.stalls@);
        assert forall|k: int| 0 <= k < v.len() implies !(#[trigger] v[k]).pressure_pct.is_nan() by {
            assert(!last.stalls@[k].pressure_pct.is_nan());
        }
        if last.at_unix >= since && v.len() > 0 {
            lemma_added_all_remembers(
                summed(frames, since, (n - 1) as nat),
                v,
                v.len(),
                0,
                v[0],
            );
        }
    }
}

/// What history reports froze the machine for at least one percent of some
/// tick: noise is dropped on the peak, not on the average.
pub proof fn lemma_noise_is_filtered_on_the_peak(sums: Seq<Sum>, window: u64, i: int)
    requires
        0 <= i < sum_stalls(sums, window).len(),
    ensures
        at_most(whole(MIN_REPORTABLE_PCT as int), sum_stalls(sums, window)[i].peak_pct),
    decreases sums.len(),
{
    let rest = sum_stalls(sums.drop_last(), window);
    if i < rest.len() {
        lemma_noise_is_filtered_on_the_peak(sums.drop_last(), window, i);
    }
}

/// The newest frame is the one pushed last, and no more are held than fit.
pub proof fn lemma_ring_keeps_the_newest(frames: Seq<Frame>, frame: Frame, capacity: nat)
    requires
        capacity >= 1,
        frames.len() <= capacity,
    ensures
        newest_frames(frames.push(frame), capacity).len() <= capacity,
        newest_frames(frames.push(frame), capacity).last() == frame,
        frames.len() < capacity ==> newest_frames(frames.push(frame), capacity) == frames.push(
            frame,
        ),
{
}

} // verus!
