//! What a notice says, told from the captures that led to it.

use vstd::prelude::*;

use crate::incident::Incident;
use crate::laws::numbers::{lemma_percent_of_time_is_true, lemma_shows, percent_of_time, shows};
use crate::notify::{
    Beat, Watch, announcement, blame, considered, episode, reassurance, recent, total_stall,
    unactionable,
};
use crate::span::Span;
use crate::text::decimal;

verus! {

/// The microseconds lost in some captures.
pub open spec fn lost(beats: Seq<Beat>) -> nat {
    beats.fold_left(0nat, |n: nat, b: Beat| n + b.stalled_usec as nat)
}

proof fn lemma_total_is_what_was_lost(beats: Seq<Beat>)
    ensures
        lost(beats) <= u64::MAX ==> total_stall(beats) == lost(beats),
        lost(beats) > u64::MAX ==> total_stall(beats) == u64::MAX,
    decreases beats.len(),
{
    reveal_with_fuel(Seq::fold_left, 2);
    if beats.len() > 0 {
        lemma_total_is_what_was_lost(beats.drop_last());
    }
}

/// The capture that an incident adds: when it happened, but not before the
/// window, and what its worst stall lost.
pub open spec fn added(i: Incident, from: int) -> Beat {
    Beat {
        at_unix: if i.at_unix >= from {
            i.at_unix
        } else {
            from as u64
        },
        stalled_usec: i.stalls@[0].delta_usec,
    }
}

/// Is this what is left of some captures when those before a moment are let go
/// from the front?
pub open spec fn left_of(beats: Seq<Beat>, from: int, left: Seq<Beat>) -> bool {
    exists|k: int|
        0 <= k <= beats.len() && left == #[trigger] beats.skip(k) && (forall|m: int|
            0 <= m < k ==> (#[trigger] beats[m]).at_unix < from) && (k < beats.len()
            ==> beats[k].at_unix >= from)
}

proof fn lemma_recent(beats: Seq<Beat>, from: u64)
    ensures
        left_of(beats, from as int, recent(beats, from)),
    decreases beats.len(),
{
    if beats.len() > 0 && beats[0].at_unix < from {
        let t = beats.drop_first();
        lemma_recent(t, from);
        let left = recent(t, from);
        let k = choose|k: int|
            0 <= k <= t.len() && left == #[trigger] t.skip(k) && (forall|m: int|
                0 <= m < k ==> (#[trigger] t[m]).at_unix < from) && (k < t.len()
                ==> t[k].at_unix >= from);
        assert(beats.skip(k + 1) =~= t.skip(k));
        assert forall|m: int| 0 <= m < k + 1 implies (#[trigger] beats[m]).at_unix < from by {
            if m > 0 {
                assert(t[m - 1] == beats[m]);
            }
        }
        if k < t.len() {
            assert(t[k] == beats[k + 1]);
        }
    } else {
        assert(beats.skip(0) =~= beats);
    }
}

/// **An episode is the captures of the last minutes, this one with them.**
pub proof fn lemma_an_episode_is_the_recent_captures(w: Watch, i: Incident, now: u64)
    ensures
        ({
            let from = if now >= w.episode_window.secs {
                now - w.episode_window.secs
            } else {
                0
            };
            left_of(w.beats.push(added(i, from)), from, episode(w, i, now))
        }),
{
    let from: u64 = if now >= w.episode_window.secs {
        (now - w.episode_window.secs) as u64
    } else {
        0
    };
    lemma_recent(w.beats.push(added(i, from as int)), from);
}

/// The body of a notice with this share in it.
pub open spec fn body_with(share: Seq<char>, i: Incident, beats: Seq<Beat>, name: Seq<char>) -> Seq<
    char,
> {
    "Frozen "@ + share + "% of that time, waiting on "@ + i.stalls@[0].resource.name() + "."@
        + blame(i, name) + reassurance(i.warnings@) + (if beats.len() > 10 {
        " This has been continuous, not a one-off."@
    } else {
        ""@
    }) + " Run: stallwatch why"@
}

proof fn lemma_body(w: Watch, i: Incident, beats: Seq<Beat>, name: Seq<char>)
    requires
        lost(beats) <= u64::MAX,
    ensures
        ({
            let secs: int = if w.episode_window.secs == 0 {
                1
            } else {
                w.episode_window.secs as int
            };
            announcement(w, i, beats, name).body == body_with(
                crate::decimal::fixed(percent_of_time(lost(beats) as int, secs), 0),
                i,
                beats,
                name,
            )
        }),
{
    lemma_total_is_what_was_lost(beats);
}

/// The front of such a body.
proof fn lemma_front(share: Seq<char>, i: Incident, beats: Seq<Beat>, name: Seq<char>)
    ensures
        body_with(share, i, beats, name).take(7 + share.len() as int) == "Frozen "@ + share,
{
    reveal_strlit("Frozen ");
    let head = "Frozen "@ + share;
    let a = head + "% of that time, waiting on "@;
    let b = a + i.stalls@[0].resource.name();
    let c = b + "."@;
    let d = c + blame(i, name);
    let e = d + reassurance(i.warnings@);
    let f = e + (if beats.len() > 10 {
        " This has been continuous, not a one-off."@
    } else {
        ""@
    });
    let g = f + " Run: stallwatch why"@;
    let n = head.len() as int;
    assert(g == body_with(share, i, beats, name));
    assert(g.take(n) =~= f.take(n));
    assert(f.take(n) =~= e.take(n));
    assert(e.take(n) =~= d.take(n));
    assert(d.take(n) =~= c.take(n));
    assert(c.take(n) =~= b.take(n));
    assert(b.take(n) =~= a.take(n));
    assert(a.take(n) =~= head);
}

proof fn lemma_said(w: Watch, i: Incident, now: u64, name: Seq<char>)
    requires
        considered(w, i, now, name).1 is Some,
    ensures
        considered(w, i, now, name).1->0 == announcement(w, i, episode(w, i, now), name),
{
}

proof fn lemma_summary(w: Watch, i: Incident, beats: Seq<Beat>, name: Seq<char>)
    ensures
        ({
            let secs: nat = if w.episode_window.secs == 0 {
                1
            } else {
                w.episode_window.secs as nat
            };
            announcement(w, i, beats, name).summary
                == "Your machine has been freezing for the last "@ + decimal(secs / 60)
                + " minutes"@
        }),
        announcement(w, i, beats, name).also_suppressed == w.suppressed,
{
}

/// **A notice states the share of time that was lost in the whole episode.**
/// The figure in front of the percent sign is a hundred times what all captures
/// of the episode lost, out of the window.
pub proof fn lemma_a_notice_states_the_share_lost(
    w: Watch,
    i: Incident,
    now: u64,
    name: Seq<char>,
) -> (share: Seq<char>)
    requires
        considered(w, i, now, name).1 is Some,
        lost(episode(w, i, now)) <= u64::MAX,
    ensures
        ({
            let a = considered(w, i, now, name).1->0;
            let secs: nat = if w.episode_window.secs == 0 {
                1
            } else {
                w.episode_window.secs as nat
            };
            let beats = episode(w, i, now);
            &&& a.summary == "Your machine has been freezing for the last "@ + decimal(secs / 60)
                + " minutes"@
            &&& a.also_suppressed == w.suppressed
            &&& shows(share, 100 * lost(beats), secs * 1_000_000, 0)
            &&& a.body == body_with(share, i, beats, name)
        }),
{
    let beats = episode(w, i, now);
    let secs: nat = if w.episode_window.secs == 0 {
        1
    } else {
        w.episode_window.secs as nat
    };
    let v = percent_of_time(lost(beats) as int, secs as int);
    let share = crate::decimal::fixed(v, 0);
    assert(shows(share, 100 * lost(beats), secs * 1_000_000, 0)) by {
        lemma_percent_of_time_is_true(lost(beats), secs);
        lemma_shows(v, 100 * lost(beats), secs * 1_000_000, 0);
    }
    lemma_said(w, i, now, name);
    lemma_summary(w, i, beats, name);
    lemma_body(w, i, beats, name);
    share
}

/// **With the built-in settings, a notice comes when a minute out of ten was
/// lost, and states ten percent at least.** Nothing is said while the last
/// notice is less than the cooldown ago.
pub proof fn lemma_a_notice_states_ten_percent_at_least(
    w: Watch,
    i: Incident,
    now: u64,
    name: Seq<char>,
)
    requires
        w.enabled,
        w.episode_window == (Span { secs: 600, nanos: 0 }),
        w.episode_min_stall == (Span { secs: 60, nanos: 0 }),
        i.stalls@.len() > 0,
        !unactionable(i),
        lost(episode(w, i, now)) <= u64::MAX,
    ensures
        considered(w, i, now, name).1 is Some <==> lost(episode(w, i, now)) >= 60_000_000 && (
        w.last_sent is None || now - w.last_sent->0 >= w.cooldown.secs || w.cooldown.secs == 0),
        considered(w, i, now, name).1 is Some ==> exists|p: nat|
            p >= 10 && considered(w, i, now, name).1->0.body.take(
                7 + decimal(p).len() as int,
            ) == "Frozen "@ + #[trigger] decimal(p),
{
    let beats = episode(w, i, now);
    lemma_total_is_what_was_lost(beats);
    if considered(w, i, now, name).1 is Some {
        let share = lemma_a_notice_states_the_share_lost(w, i, now, name);
        let l = lost(beats);
        lemma_ten_percent(share, l);
        let p = choose|p: nat| p >= 10 && #[trigger] decimal(p) == share;
        lemma_front(share, i, beats, name);
    }
}

proof fn lemma_ten_percent(share: Seq<char>, l: nat)
    requires
        shows(share, 100 * l, 600 * 1_000_000, 0),
        l >= 60_000_000,
    ensures
        exists|p: nat| p >= 10 && #[trigger] decimal(p) == share,
{
    let n = 100 * l;
    let d: nat = 600 * 1_000_000;
    let q = choose|q: nat| #[trigger]
        crate::decimal::with_places(q, 0) == share && 200_000 * (q * d) <= 200_002 * (n
            * crate::decimal::pow10(0)) + 100_000 * d && 200_002 * (q * d) + 100_001 * d >= 200_000
            * (n * crate::decimal::pow10(0));
    assert(crate::decimal::pow10(0) == 1);
    assert(n * 1 == n);
    assert(q >= 10);
    assert(decimal(q) == share);
}

/// **What is remembered.** Nothing changes while notices are off or nothing
/// stalled. What nobody can do anything about is passed over. A capture that is
/// not enough is kept. One that is enough is passed over within the cooldown;
/// else it is announced, and the count starts again.
pub proof fn lemma_what_is_remembered(w: Watch, i: Incident, now: u64, name: Seq<char>)
    requires
        w.suppressed < u32::MAX,
    ensures
        ({
            let (r, said) = considered(w, i, now, name);
            &&& !w.enabled || i.stalls@.len() == 0 ==> r == w && said is None
            &&& w.enabled && i.stalls@.len() > 0 && unactionable(i) ==> said is None && r.beats
                == w.beats && r.suppressed == w.suppressed + 1 && r.last_sent == w.last_sent
            &&& w.enabled && i.stalls@.len() > 0 && !unactionable(i) && said is None ==> r.beats
                == episode(w, i, now) && r.last_sent == w.last_sent && (r.suppressed
                == w.suppressed || r.suppressed == w.suppressed + 1)
            &&& said is Some ==> r.beats.len() == 0 && r.last_sent == Some(now) && r.suppressed == 0
            &&& r.enabled == w.enabled && r.cooldown == w.cooldown && r.episode_window
                == w.episode_window && r.episode_min_stall == w.episode_min_stall
        }),
{
}

/// **What was enough but came too soon is counted.**
pub proof fn lemma_what_came_too_soon_is_counted(w: Watch, i: Incident, now: u64, name: Seq<char>)
    requires
        w.suppressed < u32::MAX,
        w.enabled,
        i.stalls@.len() > 0,
        !unactionable(i),
        lost(episode(w, i, now)) <= u64::MAX,
        considered(w, i, now, name).1 is None,
    ensures
        considered(w, i, now, name).0.suppressed == w.suppressed + if lost(episode(w, i, now)) * 1000
            >= w.episode_min_stall.secs * 1_000_000_000 + w.episode_min_stall.nanos {
            1int
        } else {
            0
        },
{
    lemma_total_is_what_was_lost(episode(w, i, now));
}

} // verus!
