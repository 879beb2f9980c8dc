//! Who is blamed for a stall, told from the counters alone.

use vstd::arithmetic::power2::{lemma_pow2_pos, pow2};
use vstd::prelude::*;

use crate::attribution::{
    all_stalls, clamped, collected, dominates, least_duty, least_sweep, pair_map, pause, reportable,
    resource_stalls, responsible, sample_paths, share, stalled_between, stalls_of, window_deltas,
    window_stall,
};
use crate::cgroup::{Sampled, friendly};
use crate::float::{
    Double, at_most, below, larger, lemma_whole_one, one, quotient, rounded, units, whole,
};
use crate::index::{last_places, lemma_last_places};
use crate::laws::numbers::{
    is_about, lemma_one_is_large, lemma_percent_is_true, lemma_quotient_is_true,
    lemma_rounded_is_tight, percent_of, tight,
};
use crate::path::{normal, strictly_below};
use crate::psi::{PsiKind, Resource, Snapshot};
use crate::ranking::{Descending, StallView, rank_keys, worst_first};
use crate::sort::{Ranked, lemma_order_of, order_of, placed};

verus! {

/// The counter of the time lost to a resource: for the processor the time in
/// which some tasks waited, for memory and I/O the time in which all of them
/// did.
pub open spec fn counter(s: Snapshot, res: Resource) -> u64 {
    match res {
        Resource::Cpu => s.cpu.some_total_us,
        Resource::Memory => s.memory.full_total_us,
        Resource::Io => s.io.full_total_us,
    }
}

/// Is the entry at `i` what a sample says of its path? A later entry for the
/// same path replaces it.
pub open spec fn current(s: Seq<Sampled>, i: int) -> bool {
    &&& 0 <= i < s.len()
    &&& forall|k: int| i < k < s.len() ==> normal(#[trigger] s[k].cgroup@) != normal(s[i].cgroup@)
}

/// Do the entry at `i` of the first sample and the one at `j` of the second
/// speak of the same cgroup?
pub open spec fn same_cgroup(first: Seq<Sampled>, second: Seq<Sampled>, i: int, j: int) -> bool {
    &&& current(first, i)
    &&& current(second, j)
    &&& normal(first[i].cgroup@) == normal(second[j].cgroup@)
}

/// By how much a counter grew; below zero where it was restarted.
pub open spec fn grew(
    first: Seq<Sampled>,
    second: Seq<Sampled>,
    res: Resource,
    i: int,
    j: int,
) -> int {
    counter(second[j].snapshot, res) - counter(first[i].snapshot, res)
}

/// Does a cgroup below own at least eighty percent of what was lost here?
pub open spec fn has_culprit_below(
    first: Seq<Sampled>,
    second: Seq<Sampled>,
    res: Resource,
    i: int,
    j: int,
) -> bool {
    exists|a: int, b: int| #[trigger]
        same_cgroup(first, second, a, b) && strictly_below(
            normal(second[b].cgroup@),
            normal(second[j].cgroup@),
        ) && grew(first, second, res, a, b) * 100 >= grew(first, second, res, i, j) * 80
}

/// Does a reported stall say what the counters say of one cgroup?
pub open spec fn tells_of(
    s: StallView,
    first: Seq<Sampled>,
    second: Seq<Sampled>,
    window: u64,
    res: Resource,
    i: int,
    j: int,
) -> bool {
    &&& s.cgroup == second[j].cgroup@
    &&& s.unit == friendly(second[j].cgroup@)
    &&& s.resource == res
    &&& s.kind == if res == Resource::Cpu {
        PsiKind::SomeTasks
    } else {
        PsiKind::Full
    }
    &&& s.delta_usec == grew(first, second, res, i, j)
    &&& is_about(s.pressure_pct, (100 * s.delta_usec) as nat, window as nat)
    &&& s.peak_pct == s.pressure_pct
}

// ── the gains of a window ──────────────────────────────────────────────

spec fn taken(first: Seq<Sampled>, second: Seq<Sampled>, res: Resource, i: int, j: int) -> (
    Seq<char>,
    u64,
) {
    (second[j].cgroup@, stalled_between(first[i].snapshot, second[j].snapshot, res))
}

proof fn lemma_current(s: Seq<Sampled>, i: int)
    requires
        0 <= i < s.len(),
    ensures
        current(s, i) == (last_places(sample_paths(s))[normal(s[i].cgroup@)] == i),
        last_places(sample_paths(s)).contains_key(normal(s[i].cgroup@)),
{
    let p = normal(s[i].cgroup@);
    let paths = sample_paths(s);
    lemma_last_places(paths, p);
    assert(paths[i] == p);
    assert(paths.contains(p));
    let l = last_places(paths)[p];
    if current(s, i) {
        if i < l {
            assert(normal(s[l].cgroup@) == paths[l]);
        }
    }
    if l == i {
        assert forall|k: int| i < k < s.len() implies normal(#[trigger] s[k].cgroup@) != p by {
            assert(paths[k] != p);
        }
    }
}

proof fn lemma_gain_is_listed(
    first: Seq<Sampled>,
    second: Seq<Sampled>,
    res: Resource,
    n: nat,
    i: int,
    j: int,
) -> (k: int)
    requires
        same_cgroup(first, second, i, j),
        j < n <= second.len(),
    ensures
        0 <= k < window_deltas(first, second, res, n).len(),
        window_deltas(first, second, res, n)[k] == taken(first, second, res, i, j),
    decreases n,
{
    let m = (n - 1) as nat;
    let rest = window_deltas(first, second, res, m);
    if j < m {
        lemma_gain_is_listed(first, second, res, m, i, j)
    } else {
        lemma_current(first, i);
        lemma_current(second, j);
        rest.len() as int
    }
}

spec fn comes_from(
    first: Seq<Sampled>,
    second: Seq<Sampled>,
    res: Resource,
    g: (Seq<char>, u64),
    i: int,
    j: int,
) -> bool {
    same_cgroup(first, second, i, j) && g == taken(first, second, res, i, j)
}

proof fn lemma_listed_is_gain(
    first: Seq<Sampled>,
    second: Seq<Sampled>,
    res: Resource,
    n: nat,
    k: int,
) -> (ij: (int, int))
    requires
        n <= second.len(),
        0 <= k < window_deltas(first, second, res, n).len(),
    ensures
        comes_from(first, second, res, window_deltas(first, second, res, n)[k], ij.0, ij.1),
        ij.1 < n,
    decreases n,
{
    let m = (n - 1) as nat;
    let rest = window_deltas(first, second, res, m);
    if k < rest.len() {
        lemma_listed_is_gain(first, second, res, m, k)
    } else {
        let p = normal(second[m as int].cgroup@);
        let i = last_places(sample_paths(first))[p];
        lemma_last_places(sample_paths(first), p);
        assert(sample_paths(first)[i] == normal(first[i].cgroup@));
        lemma_current(first, i);
        lemma_current(second, m as int);
        (i, m as int)
    }
}

spec fn all_differ(d: Seq<(Seq<char>, u64)>) -> bool {
    forall|a: int, b: int|
        0 <= a < b < d.len() ==> normal(#[trigger] d[a].0) != normal(#[trigger] d[b].0)
}

proof fn lemma_gains_differ(first: Seq<Sampled>, second: Seq<Sampled>, res: Resource, n: nat)
    requires
        n <= second.len(),
    ensures
        all_differ(window_deltas(first, second, res, n)),
    decreases n,
{
    if n > 0 {
        let m = (n - 1) as nat;
        let rest = window_deltas(first, second, res, m);
        let d = window_deltas(first, second, res, n);
        lemma_gains_differ(first, second, res, m);
        assert forall|a: int, b: int| 0 <= a < b < d.len() implies normal(#[trigger] d[a].0)
            != normal(#[trigger] d[b].0) by {
            assert(d[a] == rest[a]);
            if b < rest.len() {
                assert(d[b] == rest[b]);
            } else {
                let (i, j) = lemma_listed_is_gain(first, second, res, m, a);
                assert(d[b].0 == second[m as int].cgroup@);
            }
        }
    }
}

proof fn lemma_map_holds(d: Seq<(Seq<char>, u64)>, k: int)
    requires
        all_differ(d),
        0 <= k < d.len(),
    ensures
        pair_map(d).contains_key(normal(d[k].0)),
        pair_map(d)[normal(d[k].0)] == d[k].1,
    decreases d.len(),
{
    if k < d.len() - 1 {
        let t = d.drop_last();
        assert forall|a: int, b: int| 0 <= a < b < t.len() implies normal(#[trigger] t[a].0)
            != normal(#[trigger] t[b].0) by {
            assert(t[a] == d[a] && t[b] == d[b]);
        }
        lemma_map_holds(t, k);
        assert(t[k] == d[k]);
        assert(d.last() == d[d.len() - 1]);
    }
}

proof fn lemma_map_has(d: Seq<(Seq<char>, u64)>, q: Seq<char>) -> (k: int)
    requires
        pair_map(d).contains_key(q),
    ensures
        0 <= k < d.len(),
        normal(d[k].0) == q,
    decreases d.len(),
{
    if d.len() == 0 {
        0
    } else if normal(d.last().0) == q {
        d.len() - 1
    } else {
        lemma_map_has(d.drop_last(), q)
    }
}

/// Being responsible, told from the counters.
#[verifier::rlimit(50)]
proof fn lemma_responsible(
    first: Seq<Sampled>,
    second: Seq<Sampled>,
    res: Resource,
    i: int,
    j: int,
)
    requires
        same_cgroup(first, second, i, j),
    ensures
        ({
            let d = window_deltas(first, second, res, second.len());
            let g = taken(first, second, res, i, j);
            responsible(pair_map(d), normal(g.0), g.1) <==> (grew(first, second, res, i, j) > 0
                && !has_culprit_below(first, second, res, i, j))
        }),
{
    let n = second.len();
    let d = window_deltas(first, second, res, n);
    let m = pair_map(d);
    let g = taken(first, second, res, i, j);
    let p = normal(g.0);
    lemma_gains_differ(first, second, res, n);
    let w = grew(first, second, res, i, j);
    if w > 0 {
        if has_culprit_below(first, second, res, i, j) {
            let (a, b) = choose|a: int, b: int| #[trigger]
                same_cgroup(first, second, a, b) && strictly_below(
                    normal(second[b].cgroup@),
                    normal(second[j].cgroup@),
                ) && grew(first, second, res, a, b) * 100 >= grew(first, second, res, i, j) * 80;
            let k = lemma_gain_is_listed(first, second, res, n, a, b);
            lemma_map_holds(d, k);
            let q = normal(d[k].0);
            assert(m.contains_key(q) && strictly_below(q, p) && dominates(m[q], g.1));
        } else {
            assert forall|q: Seq<char>| #[trigger] m.contains_key(q) implies !(strictly_below(q, p)
                && dominates(m[q], g.1)) by {
                let k = lemma_map_has(d, q);
                lemma_map_holds(d, k);
                let (a, b) = lemma_listed_is_gain(first, second, res, n, k);
                assert(same_cgroup(first, second, a, b));
            }
        }
    }
}

// ── what is listed of one resource ─────────────────────────────────────

proof fn lemma_stall_is_listed(
    d: Seq<(Seq<char>, u64)>,
    res: Resource,
    window: u64,
    n: nat,
    k: int,
) -> (m: int)
    requires
        0 <= k < n <= d.len(),
        reportable(share(d[k].1, window)),
        responsible(pair_map(d), normal(d[k].0), d[k].1),
    ensures
        0 <= m < resource_stalls(d, res, window, n).len(),
        resource_stalls(d, res, window, n)[m] == window_stall(d[k].0, d[k].1, res, window),
    decreases n,
{
    let rest = resource_stalls(d, res, window, (n - 1) as nat);
    if k < n - 1 {
        lemma_stall_is_listed(d, res, window, (n - 1) as nat, k)
    } else {
        rest.len() as int
    }
}

proof fn lemma_listed_is_stall(
    d: Seq<(Seq<char>, u64)>,
    res: Resource,
    window: u64,
    n: nat,
    m: int,
) -> (k: int)
    requires
        n <= d.len(),
        0 <= m < resource_stalls(d, res, window, n).len(),
    ensures
        0 <= k < n,
        reportable(share(d[k].1, window)),
        responsible(pair_map(d), normal(d[k].0), d[k].1),
        resource_stalls(d, res, window, n)[m] == window_stall(d[k].0, d[k].1, res, window),
    decreases n,
{
    let rest = resource_stalls(d, res, window, (n - 1) as nat);
    if m < rest.len() {
        lemma_listed_is_stall(d, res, window, (n - 1) as nat, m)
    } else {
        n - 1
    }
}

proof fn lemma_listed_differ(
    d: Seq<(Seq<char>, u64)>,
    res: Resource,
    window: u64,
    n: nat,
    a: int,
    b: int,
)
    requires
        all_differ(d),
        n <= d.len(),
        0 <= a < b < resource_stalls(d, res, window, n).len(),
    ensures
        normal(resource_stalls(d, res, window, n)[a].cgroup) != normal(
            resource_stalls(d, res, window, n)[b].cgroup,
        ),
    decreases n,
{
    let m = (n - 1) as nat;
    let rest = resource_stalls(d, res, window, m);
    if b < rest.len() {
        lemma_listed_differ(d, res, window, m, a, b);
    } else {
        let k = lemma_listed_is_stall(d, res, window, m, a);
        assert(normal(d[k].0) != normal(d[m as int].0));
    }
}

/// What the threshold asks.
proof fn lemma_reportable(usec: u64, window: u64)
    requires
        window > 0,
    ensures
        is_about(share(usec, window), (100 * usec) as nat, window as nat),
        10_000_000 * usec >= 100_001 * window ==> reportable(share(usec, window)),
        reportable(share(usec, window)) ==> 10_000_100 * usec >= 100_000 * window,
{
    let v = share(usec, window);
    assert(v == percent_of(usec as int, window as int));
    lemma_percent_is_true(usec as nat, window as nat);
    lemma_whole_one();
    lemma_pow2_pos(1074);
    let o = one() as int;
    let x = v.value();
    let w = window as int;
    let n = 100 * usec as int;
    if 100_000 * n >= 100_001 * w {
        assert(x >= o) by (nonlinear_arith)
            requires
                100_001 * (x * w) >= 100_000 * (n * o),
                100_000 * n >= 100_001 * w,
                w > 0,
                o >= 0,
        ;
    }
    if x >= o {
        assert(100_001 * n >= 100_000 * w) by (nonlinear_arith)
            requires
                100_000 * (x * w) <= 100_001 * (n * o),
                x >= o,
                w > 0,
                o > 0,
        ;
    }
}

spec fn listed_in(s: StallView, l: Seq<StallView>) -> bool {
    exists|m: int| 0 <= m < l.len() && #[trigger] l[m] == s
}

proof fn lemma_resource_is_complete(
    first: Seq<Sampled>,
    second: Seq<Sampled>,
    window: u64,
    res: Resource,
    i: int,
    j: int,
) -> (s: StallView)
    requires
        window > 0,
        same_cgroup(first, second, i, j),
        grew(first, second, res, i, j) > 0,
        !has_culprit_below(first, second, res, i, j),
        10_000_000 * grew(first, second, res, i, j) >= 100_001 * window,
    ensures
        listed_in(s, stalls_of(first, second, res, window)),
        tells_of(s, first, second, window, res, i, j),
{
    let n = second.len();
    let d = window_deltas(first, second, res, n);
    let g = taken(first, second, res, i, j);
    let k = lemma_gain_is_listed(first, second, res, n, i, j);
    lemma_responsible(first, second, res, i, j);
    lemma_reportable(g.1, window);
    let m = lemma_stall_is_listed(d, res, window, d.len(), k);
    assert(stalls_of(first, second, res, window)[m] == window_stall(g.0, g.1, res, window));
    window_stall(g.0, g.1, res, window)
}

proof fn lemma_all_hold(
    first: Seq<Sampled>,
    second: Seq<Sampled>,
    window: u64,
    res: Resource,
    m: int,
)
    requires
        0 <= m < stalls_of(first, second, res, window).len(),
    ensures
        all_stalls(first, second, window).contains(stalls_of(first, second, res, window)[m]),
{
    let c = stalls_of(first, second, Resource::Cpu, window);
    let y = stalls_of(first, second, Resource::Memory, window);
    let o = stalls_of(first, second, Resource::Io, window);
    let all = all_stalls(first, second, window);
    match res {
        Resource::Cpu => {
            assert(all[m] == c[m]);
        },
        Resource::Memory => {
            assert(all[c.len() + m] == y[m]);
        },
        Resource::Io => {
            assert(all[c.len() + y.len() + m] == o[m]);
        },
    }
}

/// **Nothing is missed.** A cgroup of both samples whose counter grew by a
/// reportable share of the window, of the processor, of memory or of I/O, and
/// below which nothing owns eighty percent of it, is among the stalls with the
/// figures of its counters.
pub proof fn lemma_every_responsible_stall_is_found(
    first: Seq<Sampled>,
    second: Seq<Sampled>,
    window: u64,
    res: Resource,
    i: int,
    j: int,
) -> (s: StallView)
    requires
        window > 0,
        same_cgroup(first, second, i, j),
        grew(first, second, res, i, j) > 0,
        !has_culprit_below(first, second, res, i, j),
        10_000_000 * grew(first, second, res, i, j) >= 100_001 * window,
    ensures
        all_stalls(first, second, window).contains(s),
        tells_of(s, first, second, window, res, i, j),
{
    let s = lemma_resource_is_complete(first, second, window, res, i, j);
    let l = stalls_of(first, second, res, window);
    let m = choose|m: int| 0 <= m < l.len() && #[trigger] l[m] == s;
    lemma_all_hold(first, second, window, res, m);
    s
}

spec fn accounted(first: Seq<Sampled>, second: Seq<Sampled>, window: u64, s: StallView) -> bool {
    exists|i: int, j: int| #[trigger]
        tells_of(s, first, second, window, s.resource, i, j) && same_cgroup(first, second, i, j)
            && grew(first, second, s.resource, i, j) > 0 && !has_culprit_below(
            first,
            second,
            s.resource,
            i,
            j,
        ) && 10_000_100 * grew(first, second, s.resource, i, j) >= 100_000 * window
}

proof fn lemma_resource_is_sound(
    first: Seq<Sampled>,
    second: Seq<Sampled>,
    window: u64,
    res: Resource,
    m: int,
)
    requires
        window > 0,
        0 <= m < stalls_of(first, second, res, window).len(),
    ensures
        accounted(first, second, window, stalls_of(first, second, res, window)[m]),
        stalls_of(first, second, res, window)[m].resource == res,
{
    let n = second.len();
    let d = window_deltas(first, second, res, n);
    let s = stalls_of(first, second, res, window)[m];
    let k = lemma_listed_is_stall(d, res, window, d.len(), m);
    let (i, j) = lemma_listed_is_gain(first, second, res, n, k);
    lemma_responsible(first, second, res, i, j);
    lemma_reportable(d[k].1, window);
    assert(tells_of(s, first, second, window, s.resource, i, j));
}

proof fn lemma_all_are_sound(first: Seq<Sampled>, second: Seq<Sampled>, window: u64, m: int)
    requires
        window > 0,
        0 <= m < all_stalls(first, second, window).len(),
    ensures
        accounted(first, second, window, all_stalls(first, second, window)[m]),
{
    let c = stalls_of(first, second, Resource::Cpu, window).len();
    let y = stalls_of(first, second, Resource::Memory, window).len();
    if m < c {
        lemma_resource_is_sound(first, second, window, Resource::Cpu, m);
    } else if m < c + y {
        lemma_resource_is_sound(first, second, window, Resource::Memory, m - c);
    } else {
        lemma_resource_is_sound(first, second, window, Resource::Io, m - c - y);
    }
}

proof fn lemma_resource_differs(
    first: Seq<Sampled>,
    second: Seq<Sampled>,
    window: u64,
    res: Resource,
    a: int,
    b: int,
)
    requires
        0 <= a < b < stalls_of(first, second, res, window).len(),
    ensures
        normal(stalls_of(first, second, res, window)[a].cgroup) != normal(
            stalls_of(first, second, res, window)[b].cgroup,
        ),
{
    let d = window_deltas(first, second, res, second.len());
    lemma_gains_differ(first, second, res, second.len());
    lemma_listed_differ(d, res, window, d.len(), a, b);
}

proof fn lemma_all_differ(first: Seq<Sampled>, second: Seq<Sampled>, window: u64, a: int, b: int)
    requires
        window > 0,
        0 <= a < b < all_stalls(first, second, window).len(),
    ensures
        ({
            let x = all_stalls(first, second, window)[a];
            let y = all_stalls(first, second, window)[b];
            x.resource != y.resource || normal(x.cgroup) != normal(y.cgroup)
        }),
{
    let c = stalls_of(first, second, Resource::Cpu, window).len();
    let y = stalls_of(first, second, Resource::Memory, window).len();
    if b < c {
        lemma_resource_differs(first, second, window, Resource::Cpu, a, b);
    } else if c <= a && b < c + y {
        lemma_resource_differs(first, second, window, Resource::Memory, a - c, b - c);
    } else if c + y <= a {
        lemma_resource_differs(first, second, window, Resource::Io, a - c - y, b - c - y);
    } else {
        if a < c {
            lemma_resource_is_sound(first, second, window, Resource::Cpu, a);
        } else {
            lemma_resource_is_sound(first, second, window, Resource::Memory, a - c);
        }
        if b < c + y {
            lemma_resource_is_sound(first, second, window, Resource::Memory, b - c);
        } else {
            lemma_resource_is_sound(first, second, window, Resource::Io, b - c - y);
        }
    }
}

// ── ranking ────────────────────────────────────────────────────────────

/// A ranking leaves an entry out only for ten others that are at least as bad.
pub proof fn lemma_ranked(s: Seq<StallView>, by_peak: bool, limit: nat, m: int)
    requires
        s.len() <= usize::MAX,
        0 <= m < s.len(),
        forall|k: int| 0 <= k < s.len() ==> !(#[trigger] s[k]).peak_pct.is_nan(),
        forall|k: int| 0 <= k < s.len() ==> !(#[trigger] s[k]).pressure_pct.is_nan(),
    ensures
        ({
            let r = worst_first(s, by_peak, limit);
            r.contains(s[m]) || (r.len() == limit && forall|k: int|
                0 <= k < r.len() ==> if by_peak {
                    at_most(s[m].peak_pct, (#[trigger] r[k]).peak_pct)
                } else {
                    at_most(s[m].pressure_pct, r[k].pressure_pct)
                })
        }),
{
    let keys = rank_keys(s, by_peak);
    let p = order_of(keys);
    lemma_order_of(keys);
    let r = worst_first(s, by_peak, limit);
    assert(p.contains(m as usize));
    let x = choose|x: int| 0 <= x < p.len() && p[x] == m as usize;
    if x < r.len() {
        assert(r[x] == s[m]);
    } else {
        assert forall|k: int| 0 <= k < r.len() implies if by_peak {
            at_most(s[m].peak_pct, (#[trigger] r[k]).peak_pct)
        } else {
            at_most(s[m].pressure_pct, r[k].pressure_pct)
        } by {
            assert(placed(keys, p[k] as int, p[x] as int));
            assert(r[k] == s[p[k] as int]);
        }
    }
}

/// Where a ranked entry stood, and that no two stood in the same place.
pub proof fn lemma_ranked_from(s: Seq<StallView>, by_peak: bool, limit: nat, a: int) -> (m: int)
    requires
        s.len() <= usize::MAX,
        0 <= a < worst_first(s, by_peak, limit).len(),
    ensures
        m == order_of(rank_keys(s, by_peak))[a],
        0 <= m < s.len(),
        worst_first(s, by_peak, limit)[a] == s[m],
        forall|b: int|
            0 <= b < worst_first(s, by_peak, limit).len() && b != a
                ==> #[trigger] order_of(rank_keys(s, by_peak))[b] != m,
{
    let keys = rank_keys(s, by_peak);
    let p = order_of(keys);
    lemma_order_of(keys);
    assert forall|b: int|
        0 <= b < worst_first(s, by_peak, limit).len() && b != a implies #[trigger] p[b] != p[a] by {
        let (x, y) = if a < b {
            (a, b)
        } else {
            (b, a)
        };
        assert(placed(keys, p[x] as int, p[y] as int));
        if p[x] == p[y] {
            Descending::ahead_one_way(&keys[p[x] as int], &keys[p[x] as int]);
        }
    }
    p[a] as int
}

proof fn lemma_none_is_nan(first: Seq<Sampled>, second: Seq<Sampled>, window: u64)
    requires
        window > 0,
    ensures
        forall|k: int|
            0 <= k < all_stalls(first, second, window).len() ==> !(#[trigger] all_stalls(
                first,
                second,
                window,
            )[k]).peak_pct.is_nan(),
        forall|k: int|
            0 <= k < all_stalls(first, second, window).len() ==> !(#[trigger] all_stalls(
                first,
                second,
                window,
            )[k]).pressure_pct.is_nan(),
{
    let all = all_stalls(first, second, window);
    assert forall|k: int| 0 <= k < all.len() implies !(#[trigger] all[k]).peak_pct.is_nan()
        && !all[k].pressure_pct.is_nan() by {
        lemma_all_are_sound(first, second, window, k);
        let (i, j) = choose|i: int, j: int| #[trigger]
            tells_of(all[k], first, second, window, all[k].resource, i, j) && same_cgroup(
                first,
                second,
                i,
                j,
            );
        assert(is_about(all[k].pressure_pct, (100 * all[k].delta_usec) as nat, window as nat));
    }
}

/// **What a window reports is complete.** Such a stall is reported, or ten
/// others are that are at least as bad.
pub proof fn lemma_a_stall_is_reported_or_ten_worse_ones_are(
    first: Seq<Sampled>,
    second: Seq<Sampled>,
    window: u64,
    res: Resource,
    i: int,
    j: int,
) -> (s: StallView)
    requires
        3 * second.len() <= usize::MAX,
        window > 0,
        same_cgroup(first, second, i, j),
        grew(first, second, res, i, j) > 0,
        !has_culprit_below(first, second, res, i, j),
        10_000_000 * grew(first, second, res, i, j) >= 100_001 * window,
    ensures
        tells_of(s, first, second, window, res, i, j),
        ({
            let r = collected(first, second, window);
            r.contains(s) || (r.len() == 10 && forall|k: int|
                0 <= k < r.len() ==> at_most(s.pressure_pct, (#[trigger] r[k]).pressure_pct))
        }),
{
    let s = lemma_every_responsible_stall_is_found(first, second, window, res, i, j);
    let all = all_stalls(first, second, window);
    let m = choose|m: int| 0 <= m < all.len() && all[m] == s;
    lemma_all_are_few(first, second, window);
    lemma_none_is_nan(first, second, window);
    lemma_ranked(all, false, 10, m);
    s
}

proof fn lemma_deltas_are_few(first: Seq<Sampled>, second: Seq<Sampled>, res: Resource, n: nat)
    ensures
        window_deltas(first, second, res, n).len() <= n,
    decreases n,
{
    if n > 0 {
        lemma_deltas_are_few(first, second, res, (n - 1) as nat);
    }
}

proof fn lemma_stalls_are_few(d: Seq<(Seq<char>, u64)>, res: Resource, window: u64, n: nat)
    ensures
        resource_stalls(d, res, window, n).len() <= n,
    decreases n,
{
    if n > 0 {
        lemma_stalls_are_few(d, res, window, (n - 1) as nat);
    }
}

proof fn lemma_all_are_few(first: Seq<Sampled>, second: Seq<Sampled>, window: u64)
    ensures
        all_stalls(first, second, window).len() <= 3 * second.len(),
{
    let n = second.len();
    lemma_deltas_are_few(first, second, Resource::Cpu, n);
    lemma_deltas_are_few(first, second, Resource::Memory, n);
    lemma_deltas_are_few(first, second, Resource::Io, n);
    let a = window_deltas(first, second, Resource::Cpu, n);
    let b = window_deltas(first, second, Resource::Memory, n);
    let c = window_deltas(first, second, Resource::Io, n);
    lemma_stalls_are_few(a, Resource::Cpu, window, a.len());
    lemma_stalls_are_few(b, Resource::Memory, window, b.len());
    lemma_stalls_are_few(c, Resource::Io, window, c.len());
}

/// **What a window reports is true.** Every stall reported is what the counters
/// say of a cgroup of both samples: they grew by about one percent of the
/// window at least, and nothing below it owns eighty percent of that. No cgroup
/// is listed twice for a resource, at most ten are listed, and the worst come
/// first. A window that took no time has none.
#[verifier::rlimit(50)]
pub proof fn lemma_every_reported_stall_is_real(
    first: Seq<Sampled>,
    second: Seq<Sampled>,
    window: u64,
    a: int,
    b: int,
)
    requires
        3 * second.len() <= usize::MAX,
        0 <= a < b < collected(first, second, window).len() || 0 <= a == b < collected(
            first,
            second,
            window,
        ).len(),
    ensures
        window > 0,
        ({
            let r = collected(first, second, window);
            &&& r.len() <= 10
            &&& exists|i: int, j: int| #[trigger]
                tells_of(r[a], first, second, window, r[a].resource, i, j) && same_cgroup(
                    first,
                    second,
                    i,
                    j,
                ) && grew(first, second, r[a].resource, i, j) > 0 && !has_culprit_below(
                    first,
                    second,
                    r[a].resource,
                    i,
                    j,
                ) && 10_000_100 * grew(first, second, r[a].resource, i, j) >= 100_000 * window
            &&& a < b ==> r[a].resource != r[b].resource || normal(r[a].cgroup) != normal(
                r[b].cgroup,
            )
            &&& a < b ==> at_most(r[b].pressure_pct, r[a].pressure_pct)
        }),
{
    let all = all_stalls(first, second, window);
    let r = collected(first, second, window);
    lemma_all_are_few(first, second, window);
    lemma_none_is_nan(first, second, window);
    let x = lemma_ranked_from(all, false, 10, a);
    lemma_all_are_sound(first, second, window, x);
    assert(accounted(first, second, window, r[a]));
    if a < b {
        let y = lemma_ranked_from(all, false, 10, b);
        if x < y {
            lemma_all_differ(first, second, window, x, y);
        } else {
            assert(x != y);
            lemma_all_differ(first, second, window, y, x);
        }
        crate::ranking::lemma_worst_first_descends(all, false, 10, a, b);
    }
}

// ── pacing ─────────────────────────────────────────────────────────────

/// **Pacing keeps to the budget.** Where the bounds leave it free, the pause is
/// the sweep over the share of a core it may take, to the precision of a double.
pub proof fn lemma_pacing_keeps_to_the_budget(
    sweep: Double,
    duty: Double,
    floor: Double,
    ceil: Double,
)
    requires
        sweep.is_finite(),
        !sweep.negative(),
        5_000 * sweep.value() >= one(),
        sweep.value() <= pow2(1138),
        duty.is_finite(),
        !duty.negative(),
        500 * duty.value() >= one(),
        duty.value() <= one(),
        at_most(floor, ceil),
        below(floor, pause(sweep, duty, floor, ceil)),
        below(pause(sweep, duty, floor, ceil), ceil),
    ensures
        tight(
            units(pause(sweep, duty, floor, ceil).magnitude()),
            units(sweep.magnitude()) * one(),
            units(duty.magnitude()),
        ),
{
    let o = one();
    lemma_one_is_large();
    lemma_whole_one();
    let us = units(sweep.magnitude());
    let ud = units(duty.magnitude());
    // The sweep is not below the least one.
    lemma_quotient_is_true(1, 10_000);
    let ls = least_sweep();
    assert(ls == quotient(whole(1), whole(10_000)));
    assert(1 * o == o);
    assert(100_000 * (ls.value() * 10_000) <= 100_001 * o);
    assert(ls.value() <= sweep.value());
    assert(larger(sweep, ls) == sweep);
    // Nor is the share below the least one.
    lemma_quotient_is_true(1, 1000);
    let ld = least_duty();
    assert(ld == quotient(whole(1), whole(1000)));
    assert(100_000 * (ld.value() * 1000) <= 100_001 * o);
    assert(clamped(duty, ld, whole(1)) == duty);
    let q = quotient(sweep, duty);
    assert(pause(sweep, duty, floor, ceil) == q);
    assert(ud > 0);
    assert(ud * 0x10_0000_0000_0000 <= us * o) by (nonlinear_arith)
        requires
            ud <= o,
            5_000 * us >= o,
            o >= 0x1_0000_0000_0000_0000 * 0x1_0000_0000_0000_0000,
    ;
    assert(us * o <= pow2(2000) * ud) by (nonlinear_arith)
        requires
            us <= pow2(1138),
            500 * ud >= o,
            pow2(2000) >= pow2(1138) * 0x1_0000_0000_0000_0000,
    ;
    lemma_rounded_is_tight(us * o, ud);
    assert(q.magnitude() == rounded(us * o, ud));
}

} // verus!
