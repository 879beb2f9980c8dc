//! What the history says, told from the frames that were kept.

use vstd::prelude::*;

use crate::attribution::share;
use crate::float::{Double, at_most, below, lemma_whole_one, one, signed, units, whole};
use crate::laws::blame::{lemma_ranked, lemma_ranked_from};
use crate::laws::numbers::{is_about, lemma_percent_is_true, percent_of};
use crate::laws::work::held;
use crate::ranking::{StallView, views};
use crate::ring::{
    Frame, Sum, added, added_all, covered, empty_sum, history, sum_for, sum_stall, sum_stalls,
    summed,
};

verus! {

/// The stalls of the frames from a moment on, in order.
pub open spec fn remembered(frames: Seq<Frame>, since: u64) -> Seq<StallView>
    decreases frames.len(),
{
    if frames.len() == 0 {
        seq![]
    } else {
        remembered(frames.drop_last(), since) + if frames.last().at_unix >= since {
            views(frames.last().stalls@)
        } else {
            seq![]
        }
    }
}

/// The time that those frames cover.
pub open spec fn time_covered(frames: Seq<Frame>, since: u64) -> nat
    decreases frames.len(),
{
    if frames.len() == 0 {
        0
    } else {
        time_covered(frames.drop_last(), since) + if frames.last().at_unix >= since {
            frames.last().window_usec as nat
        } else {
            0
        }
    }
}

/// Are these stalls of the same cgroup, on the same resource, of the same kind?
pub open spec fn alike(a: StallView, b: StallView) -> bool {
    a.cgroup == b.cgroup && a.resource == b.resource && a.kind == b.kind
}

/// The time lost in the stalls that are like this one.
pub open spec fn lost_like(all: Seq<StallView>, s: StallView) -> nat
    decreases all.len(),
{
    if all.len() == 0 {
        0
    } else {
        lost_like(all.drop_last(), s) + if alike(all.last(), s) {
            all.last().delta_usec as nat
        } else {
            0
        }
    }
}

/// Is this the worst share among the stalls that are like this one?
pub open spec fn worst_like(all: Seq<StallView>, s: StallView, peak: Double) -> bool {
    &&& !peak.is_nan()
    &&& forall|e: int|
        0 <= e < all.len() && alike(#[trigger] all[e], s) && !all[e].pressure_pct.is_nan()
            ==> at_most(all[e].pressure_pct, peak)
    &&& peak.value() == 0 || exists|e: int|
        0 <= e < all.len() && alike(#[trigger] all[e], s) && all[e].pressure_pct == peak
}

spec fn as_stall(s: Sum) -> StallView {
    StallView {
        unit: s.unit,
        cgroup: s.cgroup,
        resource: s.resource,
        kind: s.kind,
        delta_usec: s.usec,
        pressure_pct: s.peak,
        peak_pct: s.peak,
    }
}

spec fn tallies(sums: Seq<Sum>, all: Seq<StallView>) -> bool {
    &&& forall|k: int|
        0 <= k < sums.len() ==> (#[trigger] sums[k]).usec == held(
            lost_like(all, as_stall(sums[k])) as int,
        ) && worst_like(all, as_stall(sums[k]), sums[k].peak)
    &&& forall|a: int, b: int|
        0 <= a < b < sums.len() ==> !alike(as_stall(#[trigger] sums[a]), as_stall(#[trigger] sums[b]))
    &&& forall|e: int|
        0 <= e < all.len() ==> exists|k: int|
            0 <= k < sums.len() && alike(#[trigger] all[e], as_stall(#[trigger] sums[k]))
}

proof fn lemma_sum_for(sums: Seq<Sum>, s: StallView)
    ensures
        sum_for(sums, s) <= sums.len(),
        sum_for(sums, s) < sums.len() ==> sums[sum_for(sums, s) as int].takes(s),
        forall|k: int| 0 <= k < sum_for(sums, s) ==> !(#[trigger] sums[k]).takes(s),
    decreases sums.len(),
{
    if sums.len() > 0 && !sums[0].takes(s) {
        let t = sums.drop_first();
        lemma_sum_for(t, s);
        assert forall|k: int| 0 <= k < sum_for(sums, s) implies !(#[trigger] sums[k]).takes(s) by {
            if k > 0 {
                assert(t[k - 1] == sums[k]);
            }
        }
    }
}

proof fn lemma_none_like(all: Seq<StallView>, s: StallView)
    requires
        forall|e: int| 0 <= e < all.len() ==> !alike(#[trigger] all[e], s),
    ensures
        lost_like(all, s) == 0,
    decreases all.len(),
{
    if all.len() > 0 {
        let t = all.drop_last();
        assert forall|e: int| 0 <= e < t.len() implies !alike(#[trigger] t[e], s) by {
            assert(t[e] == all[e]);
        }
        lemma_none_like(t, s);
        assert(all.last() == all[all.len() - 1]);
    }
}

proof fn lemma_like_the_same(all: Seq<StallView>, a: StallView, b: StallView)
    requires
        alike(a, b),
    ensures
        lost_like(all, a) == lost_like(all, b),
    decreases all.len(),
{
    if all.len() > 0 {
        lemma_like_the_same(all.drop_last(), a, b);
    }
}

proof fn lemma_zero()
    ensures
        signed(false, 0).value() == 0,
        !signed(false, 0).is_nan(),
{
    assert(units(0) == 0);
}

proof fn lemma_worst_grows(
    all: Seq<StallView>,
    s: StallView,
    key: StallView,
    peak: Double,
    now: Double,
)
    requires
        alike(s, key),
        worst_like(all, key, peak),
        peak.value() >= 0,
        now == (if below(peak, s.pressure_pct) {
            s.pressure_pct
        } else {
            peak
        }),
    ensures
        worst_like(all.push(s), key, now),
        now.value() >= 0,
{
    let more = all.push(s);
    assert forall|e: int|
        0 <= e < more.len() && alike(#[trigger] more[e], key)
            && !more[e].pressure_pct.is_nan() implies at_most(more[e].pressure_pct, now) by {
        if e < all.len() {
            assert(more[e] == all[e]);
            assert(at_most(all[e].pressure_pct, peak));
        } else {
            assert(more[e] == s);
        }
    }
    if now.value() != 0 {
        if below(peak, s.pressure_pct) {
            assert(more[all.len() as int] == s);
        } else {
            let e = choose|e: int|
                0 <= e < all.len() && alike(#[trigger] all[e], key) && all[e].pressure_pct == peak;
            assert(more[e] == all[e]);
        }
    }
}

proof fn lemma_worst_stays(all: Seq<StallView>, s: StallView, key: StallView, peak: Double)
    requires
        !alike(s, key),
        worst_like(all, key, peak),
    ensures
        worst_like(all.push(s), key, peak),
{
    let more = all.push(s);
    assert forall|e: int|
        0 <= e < more.len() && alike(#[trigger] more[e], key)
            && !more[e].pressure_pct.is_nan() implies at_most(more[e].pressure_pct, peak) by {
        if e < all.len() {
            assert(more[e] == all[e]);
        }
    }
    if peak.value() != 0 {
        let e = choose|e: int|
            0 <= e < all.len() && alike(#[trigger] all[e], key) && all[e].pressure_pct == peak;
        assert(more[e] == all[e]);
    }
}

spec fn not_below_zero(sums: Seq<Sum>) -> bool {
    forall|k: int| 0 <= k < sums.len() ==> (#[trigger] sums[k]).peak.value() >= 0
}

#[verifier::spinoff_prover]
#[verifier::rlimit(50)]
proof fn lemma_added(sums: Seq<Sum>, all: Seq<StallView>, s: StallView)
    requires
        tallies(sums, all),
        not_below_zero(sums),
    ensures
        tallies(added(sums, s), all.push(s)),
        not_below_zero(added(sums, s)),
{
    let k = sum_for(sums, s) as int;
    let r = added(sums, s);
    let more = all.push(s);
    lemma_sum_for(sums, s);
    lemma_zero();
    assert(more.drop_last() =~= all);
    assert(more.last() == s);
    if k < sums.len() {
        assert forall|j: int| 0 <= j < r.len() implies (#[trigger] r[j]).usec == held(
            lost_like(more, as_stall(r[j])) as int,
        ) && worst_like(more, as_stall(r[j]), r[j].peak) && r[j].peak.value() >= 0 by {
            let old_key = as_stall(sums[j]);
            let key = as_stall(r[j]);
            lemma_like_the_same(all, old_key, key);
            assert(sums[j].peak.value() >= 0);
            if j == k {
                lemma_worst_grows(all, s, old_key, sums[j].peak, r[j].peak);
                lemma_worst_alike(more, old_key, key, r[j].peak);
            } else {
                assert(r[j] == sums[j]);
                assert(!alike(as_stall(sums[j]), as_stall(sums[k]))) by {
                    if j < k {
                    } else {
                        assert(!alike(as_stall(sums[k]), as_stall(sums[j])));
                    }
                }
                lemma_worst_stays(all, s, key, r[j].peak);
            }
        }
        assert forall|a: int, b: int| 0 <= a < b < r.len() implies !alike(
            as_stall(#[trigger] r[a]),
            as_stall(#[trigger] r[b]),
        ) by {
            assert(!alike(as_stall(sums[a]), as_stall(sums[b])));
        }
        assert forall|e: int| 0 <= e < more.len() implies exists|j: int|
            0 <= j < r.len() && alike(#[trigger] more[e], as_stall(#[trigger] r[j])) by {
            if e < all.len() {
                assert(more[e] == all[e]);
                let j = choose|j: int|
                    0 <= j < sums.len() && alike(all[e], as_stall(#[trigger] sums[j]));
                assert(alike(more[e], as_stall(r[j])));
            } else {
                assert(alike(more[e], as_stall(r[k])));
            }
        }
    } else {
        let new = empty_sum(s).with(s);
        let at = sums.len() as int;
        assert forall|e: int| 0 <= e < all.len() implies !alike(#[trigger] all[e], s) by {
            let j = choose|j: int|
                0 <= j < sums.len() && alike(all[e], as_stall(#[trigger] sums[j]));
            assert(!sums[j].takes(s));
        }
        lemma_none_like(all, s);
        assert(worst_like(all, s, signed(false, 0)));
        lemma_worst_grows(all, s, s, signed(false, 0), new.peak);
        lemma_like_the_same(more, s, as_stall(new));
        lemma_worst_alike(more, s, as_stall(new), new.peak);
        assert forall|j: int| 0 <= j < r.len() implies (#[trigger] r[j]).usec == held(
            lost_like(more, as_stall(r[j])) as int,
        ) && worst_like(more, as_stall(r[j]), r[j].peak) && r[j].peak.value() >= 0 by {
            if j < at {
                assert(r[j] == sums[j]);
                assert(!sums[j].takes(s));
                lemma_worst_stays(all, s, as_stall(r[j]), r[j].peak);
            } else {
                assert(r[j] == new);
                assert(lost_like(more, s) == s.delta_usec);
            }
        }
        assert forall|a: int, b: int| 0 <= a < b < r.len() implies !alike(
            as_stall(#[trigger] r[a]),
            as_stall(#[trigger] r[b]),
        ) by {
            assert(r[a] == sums[a]);
            if b < at {
                assert(r[b] == sums[b]);
            } else {
                assert(!sums[a].takes(s));
            }
        }
        assert forall|e: int| 0 <= e < more.len() implies exists|j: int|
            0 <= j < r.len() && alike(#[trigger] more[e], as_stall(#[trigger] r[j])) by {
            if e < all.len() {
                assert(more[e] == all[e]);
                let j = choose|j: int|
                    0 <= j < sums.len() && alike(all[e], as_stall(#[trigger] sums[j]));
                assert(alike(more[e], as_stall(r[j])));
            } else {
                assert(alike(more[e], as_stall(r[at])));
            }
        }
    }
}

proof fn lemma_worst_alike(all: Seq<StallView>, a: StallView, b: StallView, peak: Double)
    requires
        alike(a, b),
        worst_like(all, a, peak),
    ensures
        worst_like(all, b, peak),
{
    if peak.value() != 0 {
        let e = choose|e: int|
            0 <= e < all.len() && alike(#[trigger] all[e], a) && all[e].pressure_pct == peak;
        assert(alike(all[e], b));
    }
}

proof fn lemma_added_all(sums: Seq<Sum>, all: Seq<StallView>, stalls: Seq<StallView>, n: nat)
    requires
        tallies(sums, all),
        not_below_zero(sums),
        n <= stalls.len(),
    ensures
        tallies(added_all(sums, stalls, n), all + stalls.take(n as int)),
        not_below_zero(added_all(sums, stalls, n)),
    decreases n,
{
    if n == 0 {
        assert(all + stalls.take(0) =~= all);
    } else {
        let m = (n - 1) as nat;
        lemma_added_all(sums, all, stalls, m);
        lemma_added(added_all(sums, stalls, m), all + stalls.take(m as int), stalls[m as int]);
        assert((all + stalls.take(m as int)).push(stalls[m as int]) =~= all + stalls.take(n as int));
    }
}

proof fn lemma_summed(frames: Seq<Frame>, since: u64, n: nat)
    requires
        n <= frames.len(),
    ensures
        tallies(summed(frames, since, n), remembered(frames.take(n as int), since)),
        not_below_zero(summed(frames, since, n)),
        covered(frames, since, n) == held(time_covered(frames.take(n as int), since) as int),
    decreases n,
{
    if n == 0 {
        assert(remembered(frames.take(0), since) =~= seq![]);
    } else {
        let m = (n - 1) as nat;
        lemma_summed(frames, since, m);
        let t = frames.take(n as int);
        assert(t.drop_last() =~= frames.take(m as int));
        assert(t.last() == frames[m as int]);
        let f = frames[m as int];
        let rest = remembered(frames.take(m as int), since);
        if f.at_unix >= since {
            let v = views(f.stalls@);
            lemma_added_all(summed(frames, since, m), rest, v, f.stalls@.len());
            assert(v.take(f.stalls@.len() as int) =~= v);
            assert(remembered(t, since) =~= rest + v);
        } else {
            assert(remembered(t, since) =~= rest);
        }
    }
}

proof fn lemma_kept(sums: Seq<Sum>, window: u64, k: int) -> (m: int)
    requires
        0 <= k < sums.len(),
        at_most(whole(1), sums[k].peak),
    ensures
        0 <= m < sum_stalls(sums, window).len(),
        sum_stalls(sums, window)[m] == sum_stall(sums[k], window),
    decreases sums.len(),
{
    let t = sums.drop_last();
    let rest = sum_stalls(t, window);
    if k < sums.len() - 1 {
        assert(t[k] == sums[k]);
        lemma_kept(t, window, k)
    } else {
        rest.len() as int
    }
}

proof fn lemma_kept_from(sums: Seq<Sum>, window: u64, m: int) -> (k: int)
    requires
        0 <= m < sum_stalls(sums, window).len(),
    ensures
        0 <= k < sums.len(),
        at_most(whole(1), sums[k].peak),
        sum_stalls(sums, window)[m] == sum_stall(sums[k], window),
        sum_stalls(sums, window).len() <= sums.len(),
    decreases sums.len(),
{
    let t = sums.drop_last();
    let rest = sum_stalls(t, window);
    lemma_kept_few(t, window);
    if m < rest.len() {
        let k = lemma_kept_from(t, window, m);
        assert(t[k] == sums[k]);
        k
    } else {
        sums.len() - 1
    }
}

proof fn lemma_kept_few(sums: Seq<Sum>, window: u64)
    ensures
        sum_stalls(sums, window).len() <= sums.len(),
    decreases sums.len(),
{
    if sums.len() > 0 {
        lemma_kept_few(sums.drop_last(), window);
    }
}

/// What an entry of the history says.
pub open spec fn recalls(s: StallView, all: Seq<StallView>, window: u64) -> bool {
    &&& s.delta_usec == held(lost_like(all, s) as int)
    &&& is_about(s.pressure_pct, (100 * s.delta_usec) as nat, window as nat)
    &&& worst_like(all, s, s.peak_pct)
    &&& s.peak_pct.value() >= one()
}

proof fn lemma_sums_recall(sums: Seq<Sum>, all: Seq<StallView>, window: u64, k: int)
    requires
        tallies(sums, all),
        window > 0,
        0 <= k < sums.len(),
        at_most(whole(1), sums[k].peak),
    ensures
        recalls(sum_stall(sums[k], window), all, window),
{
    let s = sum_stall(sums[k], window);
    lemma_like_the_same(all, as_stall(sums[k]), s);
    lemma_worst_alike(all, as_stall(sums[k]), s, sums[k].peak);
    lemma_whole_one();
    lemma_percent_is_true(sums[k].usec as nat, window as nat);
    assert(share(sums[k].usec, window) == percent_of(sums[k].usec as int, window as int));
}

/// **The history is true.** Each entry adds up the stalls of its cgroup,
/// resource and kind in the frames from that moment on, as a share of the time
/// these cover, with the worst share of a single frame as its peak, and that
/// reached one percent. At most ten are listed, by their peaks, the worst first.
#[verifier::rlimit(50)]
pub proof fn lemma_the_history_is_true(frames: Seq<Frame>, since: u64, a: int)
    requires
        summed(frames, since, frames.len()).len() <= usize::MAX,
        0 <= a < history(frames, since).len(),
    ensures
        history(frames, since).len() <= 10,
        covered(frames, since, frames.len()) == held(time_covered(frames, since) as int),
        recalls(
            history(frames, since)[a],
            remembered(frames, since),
            held(time_covered(frames, since) as int) as u64,
        ),
        forall|b: int|
            a < b < history(frames, since).len() ==> at_most(
                (#[trigger] history(frames, since)[b]).peak_pct,
                history(frames, since)[a].peak_pct,
            ) && !alike(history(frames, since)[b], history(frames, since)[a]),
{
    let n = frames.len();
    let sums = summed(frames, since, n);
    let all = remembered(frames, since);
    let window = covered(frames, since, n);
    lemma_summed(frames, since, n);
    assert(frames.take(n as int) =~= frames);
    let kept = sum_stalls(sums, window);
    let r = history(frames, since);
    lemma_kept_few(sums, window);
    let m = lemma_ranked_from(kept, true, 10, a);
    let k = lemma_kept_from(sums, window, m);
    lemma_sums_recall(sums, all, window, k);
    lemma_kept_is_sound(sums, all, window);
    assert forall|b: int| a < b < r.len() implies at_most(
        (#[trigger] r[b]).peak_pct,
        r[a].peak_pct,
    ) && !alike(r[b], r[a]) by {
        crate::ranking::lemma_worst_first_descends(kept, true, 10, a, b);
        let y = lemma_ranked_from(kept, true, 10, b);
        assert(y != m);
        if m < y {
            lemma_kept_differ(sums, all, window, m, y);
        } else {
            lemma_kept_differ(sums, all, window, y, m);
        }
    }
}

proof fn lemma_kept_is_sound(sums: Seq<Sum>, all: Seq<StallView>, window: u64)
    requires
        tallies(sums, all),
        window > 0,
    ensures
        forall|k: int|
            0 <= k < sum_stalls(sums, window).len() ==> !(#[trigger] sum_stalls(
                sums,
                window,
            )[k]).peak_pct.is_nan(),
        forall|k: int|
            0 <= k < sum_stalls(sums, window).len() ==> !(#[trigger] sum_stalls(
                sums,
                window,
            )[k]).pressure_pct.is_nan(),
{
    let kept = sum_stalls(sums, window);
    assert forall|k: int| 0 <= k < kept.len() implies !(#[trigger] kept[k]).peak_pct.is_nan()
        && !kept[k].pressure_pct.is_nan() by {
        let j = lemma_kept_from(sums, window, k);
        lemma_sums_recall(sums, all, window, j);
    }
}

proof fn lemma_kept_differ(sums: Seq<Sum>, all: Seq<StallView>, window: u64, a: int, b: int)
    requires
        tallies(sums, all),
        0 <= a < b < sum_stalls(sums, window).len(),
    ensures
        !alike(sum_stalls(sums, window)[a], sum_stalls(sums, window)[b]),
        !alike(sum_stalls(sums, window)[b], sum_stalls(sums, window)[a]),
{
    lemma_kept_differ_plainly(sums, window, a, b);
}

proof fn lemma_kept_differ_plainly(sums: Seq<Sum>, window: u64, a: int, b: int)
    requires
        forall|x: int, y: int|
            0 <= x < y < sums.len() ==> !alike(
                as_stall(#[trigger] sums[x]),
                as_stall(#[trigger] sums[y]),
            ),
        0 <= a < b < sum_stalls(sums, window).len(),
    ensures
        !alike(sum_stalls(sums, window)[a], sum_stalls(sums, window)[b]),
        !alike(sum_stalls(sums, window)[b], sum_stalls(sums, window)[a]),
    decreases sums.len(),
{
    let t = sums.drop_last();
    let rest = sum_stalls(t, window);
    assert forall|x: int, y: int| 0 <= x < y < t.len() implies !alike(
        as_stall(#[trigger] t[x]),
        as_stall(#[trigger] t[y]),
    ) by {
        assert(t[x] == sums[x] && t[y] == sums[y]);
    }
    if b < rest.len() {
        lemma_kept_differ_plainly(t, window, a, b);
    } else {
        let k = lemma_kept_from(t, window, a);
        assert(t[k] == sums[k]);
        assert(!alike(as_stall(sums[k]), as_stall(sums[sums.len() - 1])));
    }
}

/// **The history is complete.** A stall that took one percent of its frame is in
/// the history with those like it, or ten others are whose peaks are at least as
/// high.
pub proof fn lemma_the_history_is_complete(frames: Seq<Frame>, since: u64, e: int)
    requires
        summed(frames, since, frames.len()).len() <= usize::MAX,
        time_covered(frames, since) > 0,
        0 <= e < remembered(frames, since).len(),
        !remembered(frames, since)[e].pressure_pct.is_nan(),
        remembered(frames, since)[e].pressure_pct.value() >= one(),
    ensures
        ({
            let s = remembered(frames, since)[e];
            let r = history(frames, since);
            ||| exists|a: int| 0 <= a < r.len() && alike(#[trigger] r[a], s)
            ||| r.len() == 10 && forall|a: int|
                0 <= a < r.len() ==> at_most(s.pressure_pct, (#[trigger] r[a]).peak_pct)
        }),
{
    let n = frames.len();
    let sums = summed(frames, since, n);
    let all = remembered(frames, since);
    let window = covered(frames, since, n);
    lemma_summed(frames, since, n);
    assert(frames.take(n as int) =~= frames);
    let s = all[e];
    let k = choose|k: int| 0 <= k < sums.len() && alike(s, as_stall(#[trigger] sums[k]));
    assert(worst_like(all, as_stall(sums[k]), sums[k].peak));
    assert(at_most(s.pressure_pct, sums[k].peak));
    lemma_whole_one();
    let m = lemma_kept(sums, window, k);
    let kept = sum_stalls(sums, window);
    lemma_kept_few(sums, window);
    lemma_kept_is_sound(sums, all, window);
    lemma_ranked(kept, true, 10, m);
    let r = history(frames, since);
    if r.contains(kept[m]) {
        let a = choose|a: int| 0 <= a < r.len() && r[a] == kept[m];
        assert(alike(r[a], s));
    } else {
        assert forall|a: int| 0 <= a < r.len() implies at_most(
            s.pressure_pct,
            (#[trigger] r[a]).peak_pct,
        ) by {}
    }
}

} // verus!
