//! Deciding which cgroup was *working* while others stalled.
//!
//! `io.stat` is recursive, as pressure is: bytes moved by `firefox.scope` are
//! also counted against every slice above it. The rule that settles who
//! answers for a stall settles who answers for the bytes: a parent steps back
//! where a single child moved nearly all of them.

use vstd::prelude::*;

use crate::attribution::{
    Delta, Responsibility, delta_pairs, dominates, lemma_pair_map, lemma_pair_map_has, pair_map,
    responsible, sample_paths, sampled_paths, share, stalled_between,
};
use crate::cgroup::{Sampled, friendly, friendly_name};
use crate::float::{Double, whole};
use crate::index::{PathIndex, last_places, lemma_last_places};
use crate::iostat::{IoBytes, Moved, shown};
use crate::path::{lemma_prefix_carries, normal, normalized, strictly_below};
use crate::psi::{PsiKind, Resource, Snapshot};
use crate::report::{Cause, MAX_CAUSES, Role, role_of};
use crate::sort::{Ranked, lemma_order_of, order_of, placed, stable_order};
use crate::text::{push_chars_run, runs, starts_with, to_chars};

verus! {

/// One pass over the cgroup tree: how long each cgroup had stalled, and how
/// much each had moved.
#[derive(Debug)]
pub struct Sweep {
    pub pressure: Vec<Sampled>,
    pub moved: Vec<Moved>,
}

/// A cause as a value to compare with.
pub struct CauseView {
    pub unit: Seq<char>,
    pub cgroup: Seq<char>,
    pub bytes: IoBytes,
    pub pressure_pct: Double,
    pub role: Role,
}

impl View for Cause {
    type V = CauseView;

    open spec fn view(&self) -> CauseView {
        CauseView {
            unit: self.unit@,
            cgroup: self.cgroup@,
            bytes: IoBytes {
                read: self.read_bytes,
                write: self.write_bytes,
                discard: self.discard_bytes,
            },
            pressure_pct: self.pressure_pct,
            role: self.role,
        }
    }
}

/// What causes show.
pub open spec fn cause_views(c: Seq<Cause>) -> Seq<CauseView> {
    Seq::new(c.len(), |i: int| c[i]@)
}

/// The normal forms of the paths in a sample.
pub open spec fn moved_paths(s: Seq<Moved>) -> Seq<Seq<char>> {
    Seq::new(s.len(), |i: int| normal(s[i].cgroup@))
}

/// What each cgroup of the second sample moved, the first `n` of them. One
/// absent from the first sample is left out: its counters start from an unknown
/// base.
pub open spec fn window_work(first: Seq<Moved>, second: Seq<Moved>, n: nat) -> Seq<
    (Seq<char>, IoBytes),
>
    decreases n,
{
    if n == 0 {
        seq![]
    } else {
        let i = n - 1;
        let rest = window_work(first, second, i as nat);
        let p = normal(second[i].cgroup@);
        let base = last_places(moved_paths(first));
        if last_places(moved_paths(second))[p] == i && base.contains_key(p) {
            rest.push((second[i].cgroup@, second[i].bytes.since(first[base[p]].bytes)))
        } else {
            rest
        }
    }
}

/// The bytes that count of each: read and written.
pub open spec fn totals(w: Seq<(Seq<char>, IoBytes)>) -> Seq<(Seq<char>, u64)> {
    Seq::new(w.len(), |i: int| (w[i].0, w[i].1.moved()))
}

/// How long the cgroup at `p` itself stalled on IO; zero where either sample
/// lacks it.
pub open spec fn own_stall(first: Seq<Sampled>, second: Seq<Sampled>, p: Seq<char>) -> u64 {
    let before = last_places(sample_paths(first));
    let after = last_places(sample_paths(second));
    if before.contains_key(p) && after.contains_key(p) {
        stalled_between(
            first[before[p]].snapshot,
            second[after[p]].snapshot,
            Resource::Io,
        )
    } else {
        0
    }
}

/// What is said of one cgroup that moved bytes.
pub open spec fn window_cause(path: Seq<char>, bytes: IoBytes, pressure_pct: Double) -> CauseView {
    CauseView {
        unit: friendly(path),
        cgroup: path,
        bytes,
        pressure_pct,
        role: role_of(bytes.moved(), pressure_pct),
    }
}

/// Of the first `n` cgroups those that answer for the bytes they moved.
pub open spec fn movers(
    first: Sweep,
    second: Sweep,
    w: Seq<(Seq<char>, IoBytes)>,
    window: u64,
    n: nat,
) -> Seq<CauseView>
    decreases n,
{
    if n == 0 {
        seq![]
    } else {
        let i = n - 1;
        let rest = movers(first, second, w, window, i as nat);
        let p = normal(w[i].0);
        if responsible(pair_map(totals(w)), p, w[i].1.moved()) {
            let usec = own_stall(first.pressure@, second.pressure@, p);
            rest.push(window_cause(w[i].0, w[i].1, share(usec, window)))
        } else {
            rest
        }
    }
}

/// All cgroups that answer for bytes moved between two sweeps.
pub open spec fn all_movers(first: Sweep, second: Sweep, window: u64) -> Seq<CauseView> {
    let w = window_work(first.moved@, second.moved@, second.moved@.len());
    movers(first, second, w, window, w.len())
}

/// A number of bytes to rank by, larger ones ahead.
pub struct Biggest {
    pub bytes: u64,
}

impl Ranked for Biggest {
    open spec fn ahead(&self, other: &Biggest) -> bool {
        self.bytes > other.bytes
    }

    proof fn ahead_one_way(a: &Biggest, b: &Biggest) {
    }

    proof fn ahead_carries(a: &Biggest, b: &Biggest, c: &Biggest) {
    }

    fn goes_ahead(&self, other: &Biggest) -> (r: bool) {
        self.bytes > other.bytes
    }
}

/// The numbers to rank causes by.
pub open spec fn byte_keys(c: Seq<CauseView>) -> Seq<Biggest> {
    Seq::new(c.len(), |i: int| Biggest { bytes: c[i].bytes.moved() })
}

/// Causes with the biggest first, at most `limit` of them; equals keep their
/// order.
pub open spec fn biggest_first(c: Seq<CauseView>, limit: nat) -> Seq<CauseView> {
    let order = order_of(byte_keys(c));
    Seq::new(
        if order.len() < limit {
            order.len()
        } else {
            limit
        },
        |i: int| c[order[i] as int],
    )
}

/// Who was working during a window; nobody during one that took no time.
pub open spec fn working(first: Sweep, second: Sweep, window: u64) -> Seq<CauseView> {
    if window == 0 {
        seq![]
    } else {
        biggest_first(all_movers(first, second, window), MAX_CAUSES as nat)
    }
}

fn paths_of(s: &Vec<Moved>) -> (r: Vec<Vec<char>>)
    ensures
        runs(r@) == moved_paths(s@),
{
    let mut out: Vec<Vec<char>> = Vec::new();
    let mut i: usize = 0;
    while i < s.len()
        invariant
            i <= s@.len(),
            runs(out@) == moved_paths(s@).take(i as int),
        decreases s@.len() - i,
    {
        push_chars_run(&mut out, normalized(&to_chars(s[i].cgroup.as_str())));
        proof {
            let all = moved_paths(s@);
            assert(all.take(i + 1) =~= all.take(i as int).push(all[i as int]));
        }
        i += 1;
    }
    assert(runs(out@) =~= moved_paths(s@));
    out
}

/// See [`window_work`].
fn find_work(first: &Vec<Moved>, second: &Vec<Moved>) -> (r: Vec<Moved>)
    ensures
        shown(r@) == window_work(first@, second@, second@.len()),
{
    let paths: Vec<Vec<char>> = paths_of(second);
    let before: PathIndex = PathIndex::new(&paths_of(first));
    let after: PathIndex = PathIndex::new(&paths);
    let mut out: Vec<Moved> = Vec::new();
    let mut i: usize = 0;
    assert(shown(out@) =~= seq![]);
    assert(runs(paths@).len() == paths@.len());
    while i < second.len()
        invariant
            i <= second@.len(),
            paths@.len() == second@.len(),
            runs(paths@) == moved_paths(second@),
            before.sound(),
            after.sound(),
            before.paths() == moved_paths(first@),
            after.paths() == moved_paths(second@),
            shown(out@) == window_work(first@, second@, i as nat),
        decreases second@.len() - i,
    {
        let p: &Vec<char> = &paths[i];
        let ghost out0 = out@;
        proof {
            assert(runs(paths@)[i as int] == p@);
            assert(p@ == moved_paths(second@)[i as int]);
            lemma_last_places(moved_paths(second@), p@);
            assert(moved_paths(second@).contains(p@));
        }
        if let Some(k) = after.find(p) {
            if after.place(k) == i {
                if let Some(b) = before.find(p) {
                    proof {
                        assert(last_places(before.paths()).contains_key(before.keys()[b as int]@));
                    }
                    let bytes: IoBytes = second[i].bytes.delta(first[before.place(b)].bytes);
                    out.push(Moved { cgroup: second[i].cgroup.clone(), bytes });
                    assert(shown(out@) =~= shown(out0).push((second@[i as int].cgroup@, bytes)));
                }
            }
        }
        i += 1;
    }
    out
}

/// The entries to settle responsibility by.
fn gains(w: &Vec<Moved>) -> (r: Vec<Delta>)
    ensures
        delta_pairs(r@) == totals(shown(w@)),
{
    let mut out: Vec<Delta> = Vec::new();
    let mut i: usize = 0;
    while i < w.len()
        invariant
            i <= w@.len(),
            delta_pairs(out@) == totals(shown(w@)).take(i as int),
        decreases w@.len() - i,
    {
        let ghost out0 = out@;
        let gained: u64 = w[i].bytes.total();
        out.push(Delta { cgroup: w[i].cgroup.clone(), gained });
        proof {
            let all = totals(shown(w@));
            assert(all.take(i + 1) =~= all.take(i as int).push(all[i as int]));
            assert(delta_pairs(out@) =~= delta_pairs(out0).push((w@[i as int].cgroup@, gained)));
        }
        i += 1;
    }
    assert(delta_pairs(out@) =~= totals(shown(w@)));
    out
}

/// Two samples of pressure, indexed by path.
struct Pressures<'a> {
    first: &'a Vec<Sampled>,
    second: &'a Vec<Sampled>,
    before: PathIndex,
    after: PathIndex,
}

impl<'a> Pressures<'a> {
    spec fn sound(&self) -> bool {
        &&& self.before.sound()
        &&& self.after.sound()
        &&& self.before.paths() == sample_paths(self.first@)
        &&& self.after.paths() == sample_paths(self.second@)
    }

    /// See [`own_stall`].
    fn own_stall(&self, cgroup: &str) -> (r: u64)
        requires
            self.sound(),
        ensures
            r == own_stall(self.first@, self.second@, normal(cgroup@)),
    {
        let p: Vec<char> = normalized(&to_chars(cgroup));
        if let Some(b) = self.before.find(&p) {
            if let Some(a) = self.after.find(&p) {
                proof {
                    assert(last_places(self.before.paths()).contains_key(
                        self.before.keys()[b as int]@,
                    ));
                    assert(last_places(self.after.paths()).contains_key(
                        self.after.keys()[a as int]@,
                    ));
                }
                let kind: PsiKind = Resource::Io.primary_kind();
                let from: &Snapshot = &self.first[self.before.place(b)].snapshot;
                let to: &Snapshot = &self.second[self.after.place(a)].snapshot;
                return to.get(Resource::Io).total_for(kind).saturating_sub(
                    from.get(Resource::Io).total_for(kind),
                );
            }
        }
        0
    }
}

/// See [`biggest_first`].
fn rank_causes(causes: &Vec<Cause>, limit: usize) -> (r: Vec<Cause>)
    ensures
        cause_views(r@) == biggest_first(cause_views(causes@), limit as nat),
{
    let ghost all = cause_views(causes@);
    let mut keys: Vec<Biggest> = Vec::new();
    let mut i: usize = 0;
    while i < causes.len()
        invariant
            i <= causes@.len(),
            all == cause_views(causes@),
            keys@ == byte_keys(all).take(i as int),
        decreases causes@.len() - i,
    {
        keys.push(Biggest { bytes: causes[i].bytes() });
        assert(keys@ =~= byte_keys(all).take(i + 1));
        i += 1;
    }
    assert(keys@ =~= byte_keys(all));
    let order: Vec<usize> = stable_order(&keys);
    let count: usize = if order.len() < limit {
        order.len()
    } else {
        limit
    };
    let mut out: Vec<Cause> = Vec::new();
    let mut k: usize = 0;
    while k < count
        invariant
            k <= count <= order@.len(),
            order@.len() == causes@.len(),
            forall|a: int| 0 <= a < order@.len() ==> #[trigger] order@[a] < causes@.len(),
            out@.len() == k,
            forall|a: int| 0 <= a < k ==> #[trigger] out@[a] == causes@[order@[a] as int],
        decreases count - k,
    {
        out.push(causes[order[k]].copy());
        k += 1;
    }
    assert(cause_views(out@) =~= biggest_first(all, limit as nat));
    out
}

/// Who answers for the bytes moved between two sweeps, biggest first.
pub fn find_causes(first: &Sweep, second: &Sweep, window: u64) -> (r: Vec<Cause>)
    ensures
        cause_views(r@) == biggest_first(all_movers(*first, *second, window), MAX_CAUSES as nat),
{
    let work: Vec<Moved> = find_work(&first.moved, &second.moved);
    let deltas: Vec<Delta> = gains(&work);
    let ghost w = shown(work@);
    let r: Responsibility = Responsibility::new(&deltas);
    proof {
        lemma_pair_map(deltas@);
    }
    let stalls: Pressures = Pressures {
        first: &first.pressure,
        second: &second.pressure,
        before: PathIndex::new(&sampled_paths(&first.pressure)),
        after: PathIndex::new(&sampled_paths(&second.pressure)),
    };
    let whole_window: Double = Double::from_u64(window);
    let hundred: Double = Double::from_u64(100);
    let mut out: Vec<Cause> = Vec::new();
    let mut i: usize = 0;
    assert(cause_views(out@) =~= seq![]);
    while i < work.len()
        invariant
            i <= work@.len(),
            w == shown(work@),
            r.deltas() == pair_map(totals(w)),
            stalls.sound(),
            stalls.first == first.pressure,
            stalls.second == second.pressure,
            whole_window == whole(window as int),
            hundred == whole(100),
            cause_views(out@) == movers(*first, *second, w, window, i as nat),
        decreases work@.len() - i,
    {
        let bytes: IoBytes = work[i].bytes;
        let ghost out0 = out@;
        proof {
            lemma_pair_map_has(totals(w), i as int);
        }
        if r.is_responsible(work[i].cgroup.as_str(), bytes.total()) {
            let usec: u64 = stalls.own_stall(work[i].cgroup.as_str());
            let pct: Double = Double::from_u64(usec).over(&whole_window).times(&hundred);
            let cause: Cause = Cause {
                unit: friendly_name(work[i].cgroup.as_str()),
                cgroup: work[i].cgroup.clone(),
                read_bytes: bytes.read,
                write_bytes: bytes.write,
                discard_bytes: bytes.discard,
                pressure_pct: pct,
                role: Cause::classify(bytes.total(), pct),
            };
            let ghost told = cause@;
            out.push(cause);
            assert(told == window_cause(w[i as int].0, w[i as int].1, share(usec, window)));
            assert(cause_views(out@) =~= cause_views(out0).push(told));
        }
        i += 1;
    }
    rank_causes(&out, MAX_CAUSES)
}

// ── what holds of every window ─────────────────────────────────────────

/// The first entry that answers for its bytes, or one further on, is listed.
proof fn lemma_listed(
    first: Sweep,
    second: Sweep,
    w: Seq<(Seq<char>, IoBytes)>,
    window: u64,
    n: nat,
    i: int,
)
    requires
        0 <= i < n <= w.len(),
        responsible(pair_map(totals(w)), normal(w[i].0), w[i].1.moved()),
    ensures
        exists|k: int|
            0 <= k < movers(first, second, w, window, n).len() && (#[trigger] movers(
                first,
                second,
                w,
                window,
                n,
            )[k]).cgroup == w[i].0,
    decreases n,
{
    let all = movers(first, second, w, window, n);
    let rest = movers(first, second, w, window, (n - 1) as nat);
    if i == n - 1 {
        assert(all[rest.len() as int].cgroup == w[i].0);
    } else {
        lemma_listed(first, second, w, window, (n - 1) as nat, i);
        let k = choose|k: int| 0 <= k < rest.len() && (#[trigger] rest[k]).cgroup == w[i].0;
        assert(all[k] == rest[k]);
    }
}

/// A gain in the map is the gain of some entry.
proof fn lemma_gain_has_entry(d: Seq<(Seq<char>, u64)>, p: Seq<char>) -> (i: int)
    requires
        pair_map(d).contains_key(p),
    ensures
        0 <= i < d.len(),
        normal(d[i].0) == p,
        d[i].1 == pair_map(d)[p],
    decreases d.len(),
{
    if d.len() > 0 && normal(d.last().0) == p {
        d.len() - 1
    } else {
        let i = lemma_gain_has_entry(d.drop_last(), p);
        assert(d.drop_last()[i] == d[i]);
        i
    }
}

/// No entry has a path longer than this.
proof fn lemma_longest(d: Seq<(Seq<char>, u64)>) -> (n: nat)
    ensures
        forall|i: int| 0 <= i < d.len() ==> normal((#[trigger] d[i]).0).len() <= n,
    decreases d.len(),
{
    if d.len() == 0 {
        0
    } else {
        let rest = lemma_longest(d.drop_last());
        let own = normal(d.last().0).len();
        let n = if own > rest {
            own
        } else {
            rest
        };
        assert forall|i: int| 0 <= i < d.len() implies normal((#[trigger] d[i]).0).len() <= n by {
            if i < d.len() - 1 {
                assert(d.drop_last()[i] == d[i]);
            }
        }
        n
    }
}

/// Where a cgroup gained anything, it or one below it answers for that.
proof fn lemma_someone_answers(d: Seq<(Seq<char>, u64)>, p: Seq<char>, gained: u64, n: nat) -> (q:
    Seq<char>)
    requires
        gained > 0,
        pair_map(d).contains_key(p),
        pair_map(d)[p] == gained,
        forall|i: int| 0 <= i < d.len() ==> normal((#[trigger] d[i]).0).len() <= n,
    ensures
        pair_map(d).contains_key(q),
        starts_with(q, p),
        responsible(pair_map(d), q, pair_map(d)[q]),
    decreases n - p.len(),
{
    let m = pair_map(d);
    assert(p.take(p.len() as int) =~= p);
    if responsible(m, p, gained) {
        p
    } else {
        let c = choose|c: Seq<char>|
            m.contains_key(c) && strictly_below(c, p) && dominates(m[c], gained);
        let i = lemma_gain_has_entry(d, c);
        assert(normal(d[i].0).len() <= n);
        assert(p.len() < c.len()) by {
            if p.len() == c.len() {
                assert(c.take(p.len() as int) =~= c);
            }
        }
        let q = lemma_someone_answers(d, c, m[c], n);
        lemma_prefix_carries(q, c, p);
        q
    }
}

/// Each path has one entry.
proof fn lemma_work_is_distinct(first: Seq<Moved>, second: Seq<Moved>, n: nat)
    ensures
        forall|k: int|
            0 <= k < window_work(first, second, n).len() ==> last_places(moved_paths(second))[normal(
                (#[trigger] window_work(first, second, n)[k]).0,
            )] < n,
        forall|i: int, j: int|
            0 <= i < j < window_work(first, second, n).len() ==> normal(
                (#[trigger] window_work(first, second, n)[i]).0,
            ) != normal((#[trigger] window_work(first, second, n)[j]).0),
    decreases n,
{
    if n > 0 {
        lemma_work_is_distinct(first, second, (n - 1) as nat);
        let rest = window_work(first, second, (n - 1) as nat);
        let all = window_work(first, second, n);
        assert forall|i: int, j: int| 0 <= i < j < all.len() implies normal((#[trigger] all[i]).0)
            != normal((#[trigger] all[j]).0) by {
            assert(all[i] == rest[i]);
        }
    }
}

/// Where no path has two entries, what the map holds of each is its own gain.
proof fn lemma_gain_is_own(d: Seq<(Seq<char>, u64)>, i: int)
    requires
        0 <= i < d.len(),
        forall|a: int, b: int|
            0 <= a < b < d.len() ==> normal((#[trigger] d[a]).0) != normal((#[trigger] d[b]).0),
    ensures
        pair_map(d)[normal(d[i].0)] == d[i].1,
    decreases d.len(),
{
    if i < d.len() - 1 {
        let t = d.drop_last();
        assert forall|a: int, b: int| 0 <= a < b < t.len() implies normal((#[trigger] t[a]).0)
            != normal((#[trigger] t[b]).0) by {
            assert(t[a] == d[a] && t[b] == d[b]);
        }
        lemma_gain_is_own(t, i);
        assert(t[i] == d[i]);
        assert(normal(d[i].0) != normal(d[d.len() - 1].0));
    }
}

/// Whoever moved bytes, it or a cgroup inside it is among those that answer for
/// them: attribution never settles on nobody.
pub proof fn lemma_moved_bytes_are_answered_for(
    first: Sweep,
    second: Sweep,
    window: u64,
    i: int,
) -> (k: int)
    requires
        0 <= i < window_work(first.moved@, second.moved@, second.moved@.len()).len(),
        window_work(first.moved@, second.moved@, second.moved@.len())[i].1.moved() > 0,
    ensures
        0 <= k < all_movers(first, second, window).len(),
        starts_with(
            normal(all_movers(first, second, window)[k].cgroup),
            normal(window_work(first.moved@, second.moved@, second.moved@.len())[i].0),
        ),
{
    let w = window_work(first.moved@, second.moved@, second.moved@.len());
    let d = totals(w);
    lemma_pair_map_has(d, i);
    let n = lemma_longest(d);
    let p = normal(w[i].0);
    lemma_work_is_distinct(first.moved@, second.moved@, second.moved@.len());
    lemma_gain_is_own(d, i);
    let q = lemma_someone_answers(d, p, d[i].1, n);
    let j = lemma_gain_has_entry(d, q);
    lemma_listed(first, second, w, window, w.len(), j);
    choose|k: int|
        0 <= k < all_movers(first, second, window).len() && (#[trigger] all_movers(
            first,
            second,
            window,
        )[k]).cgroup == w[j].0
}

/// A cgroup that moved nothing is never listed: whoever is listed moved bytes
/// between the two sweeps.
pub proof fn lemma_idle_is_not_accused(first: Sweep, second: Sweep, window: u64, k: int)
    requires
        0 <= k < working(first, second, window).len(),
        second.moved@.len() <= usize::MAX,
    ensures
        working(first, second, window)[k].bytes.moved() > 0,
        all_movers(first, second, window).contains(working(first, second, window)[k]),
{
    let w = window_work(first.moved@, second.moved@, second.moved@.len());
    let all = all_movers(first, second, window);
    lemma_movers_moved(first, second, w, window, w.len());
    lemma_fewer_movers(first, second, w, window, w.len());
    lemma_less_work(first.moved@, second.moved@, second.moved@.len());
    lemma_order_of(byte_keys(all));
    let at = order_of(byte_keys(all))[k];
    assert(all[at as int] == working(first, second, window)[k]);
}

proof fn lemma_movers_moved(
    first: Sweep,
    second: Sweep,
    w: Seq<(Seq<char>, IoBytes)>,
    window: u64,
    n: nat,
)
    requires
        n <= w.len(),
    ensures
        forall|k: int|
            0 <= k < movers(first, second, w, window, n).len() ==> (#[trigger] movers(
                first,
                second,
                w,
                window,
                n,
            )[k]).bytes.moved() > 0,
    decreases n,
{
    if n > 0 {
        lemma_movers_moved(first, second, w, window, (n - 1) as nat);
    }
}

proof fn lemma_fewer_movers(
    first: Sweep,
    second: Sweep,
    w: Seq<(Seq<char>, IoBytes)>,
    window: u64,
    n: nat,
)
    ensures
        movers(first, second, w, window, n).len() <= n,
    decreases n,
{
    if n > 0 {
        lemma_fewer_movers(first, second, w, window, (n - 1) as nat);
    }
}

proof fn lemma_less_work(first: Seq<Moved>, second: Seq<Moved>, n: nat)
    ensures
        window_work(first, second, n).len() <= n,
    decreases n,
{
    if n > 0 {
        lemma_less_work(first, second, (n - 1) as nat);
    }
}

/// The biggest cause comes first.
pub proof fn lemma_causes_descend(first: Sweep, second: Sweep, window: u64, i: int, j: int)
    requires
        0 <= i < j < working(first, second, window).len(),
        second.moved@.len() <= usize::MAX,
    ensures
        working(first, second, window)[i].bytes.moved() >= working(
            first,
            second,
            window,
        )[j].bytes.moved(),
{
    let w = window_work(first.moved@, second.moved@, second.moved@.len());
    let all = all_movers(first, second, window);
    lemma_fewer_movers(first, second, w, window, w.len());
    lemma_less_work(first.moved@, second.moved@, second.moved@.len());
    let keys = byte_keys(all);
    let p = order_of(keys);
    lemma_order_of(keys);
    assert(placed(keys, p[i] as int, p[j] as int));
}

} // verus!
