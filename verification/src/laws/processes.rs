//! What a process is accused of, told from the files that were read of it.

use vstd::prelude::*;

use crate::process::{
    CulpritView, Watched, accused, all_accused, at_places, blocked_keys, byte_keys, comm_in,
    evidence, interleaved, io_in, kept_with, picked_places, ranked, rounds_of, stat_of,
};
use crate::sort::{Ranked, lemma_order_of, order_of, placed};
use vstd::set_lib::{lemma_int_range, set_int_range};

verus! {

/// Could the state be read in this round?
pub open spec fn seen_in(w: Watched, i: int) -> bool {
    stat_of(w.rounds@[i].stat) is Some
}

/// Was it found in uninterruptible sleep in this round?
pub open spec fn blocked_in(w: Watched, i: int) -> bool {
    seen_in(w, i) && (stat_of(w.rounds@[i].stat)->0).0 == 'D'
}

/// How many of the first `n` rounds there are of a kind.
pub open spec fn how_many(n: nat, kind: spec_fn(int) -> bool) -> nat {
    set_int_range(0, n as int).filter(kind).len()
}

pub proof fn lemma_one_more(n: nat, kind: spec_fn(int) -> bool)
    ensures
        how_many(n + 1, kind) == how_many(n, kind) + if kind(n as int) {
            1nat
        } else {
            0
        },
        how_many(0, kind) == 0,
{
    let a = set_int_range(0, n as int).filter(kind);
    let b = set_int_range(0, n as int + 1).filter(kind);
    lemma_int_range(0, n as int);
    lemma_int_range(0, n as int + 1);
    lemma_int_range(0, 0);
    assert(a.finite());
    if kind(n as int) {
        assert(b =~= a.insert(n as int));
    } else {
        assert(b =~= a);
    }
    assert(set_int_range(0, 0).filter(kind) =~= Set::empty());
}

proof fn lemma_some_of_a_kind(n: nat, kind: spec_fn(int) -> bool, i: int)
    requires
        0 <= i < n,
        kind(i),
    ensures
        how_many(n, kind) > 0,
    decreases n,
{
    lemma_one_more((n - 1) as nat, kind);
    if i < n - 1 {
        lemma_some_of_a_kind((n - 1) as nat, kind, i);
    }
}

proof fn lemma_one_of_a_kind(n: nat, kind: spec_fn(int) -> bool) -> (i: int)
    requires
        how_many(n, kind) > 0,
    ensures
        0 <= i < n,
        kind(i),
    decreases n,
{
    if n == 0 {
        lemma_one_more(0, kind);
        0
    } else {
        lemma_one_more((n - 1) as nat, kind);
        if kind(n - 1) {
            n - 1
        } else {
            lemma_one_of_a_kind((n - 1) as nat, kind)
        }
    }
}

/// Is this the last reading of the byte counters among the first `n` rounds?
pub open spec fn last_reading(w: Watched, n: nat, k: int) -> bool {
    &&& 0 <= k < n
    &&& io_in(w.rounds@[k].io) is Some
    &&& forall|m: int| k < m < n ==> io_in((#[trigger] w.rounds@[m]).io) is None
}

/// Is this the last round among the first `n` in which it was seen?
pub open spec fn last_seen(w: Watched, n: nat, k: int) -> bool {
    &&& 0 <= k < n
    &&& seen_in(w, k)
    &&& forall|m: int| k < m < n ==> !#[trigger] seen_in(w, m)
}

#[verifier::rlimit(50)]
proof fn lemma_evidence(w: Watched, n: nat)
    requires
        n <= w.rounds@.len(),
        n <= u32::MAX,
    ensures
        evidence(w, n).seen == how_many(n, |i: int| seen_in(w, i)),
        evidence(w, n).blocked == how_many(n, |i: int| blocked_in(w, i)),
        how_many(n, |i: int| blocked_in(w, i)) <= n,
        how_many(n, |i: int| seen_in(w, i)) <= n,
        forall|k: int| #[trigger]
            last_reading(w, n, k) ==> evidence(w, n).last_io == io_in(w.rounds@[k].io),
        (forall|m: int| 0 <= m < n ==> io_in((#[trigger] w.rounds@[m]).io) is None)
            ==> evidence(w, n).last_io == io_in(w.before),
        forall|k: int| #[trigger]
            last_seen(w, n, k) ==> evidence(w, n).ticks_after == (stat_of(w.rounds@[k].stat)->0).1,
        n > 0 && seen_in(w, 0) ==> evidence(w, n).ticks_before == (stat_of(
            w.rounds@[0].stat,
        )->0).1,
        n > 0 && !seen_in(w, 0) ==> evidence(w, n).ticks_before == 0,
        n == 0 ==> evidence(w, n).ticks_before == 0,
        (forall|m: int| 0 <= m < n ==> !#[trigger] seen_in(w, m)) ==> evidence(w, n).ticks_after
            == 0,
    decreases n,
{
    let s = |i: int| seen_in(w, i);
    let b = |i: int| blocked_in(w, i);
    if n == 0 {
        lemma_one_more(0, s);
        lemma_one_more(0, b);
    } else {
        let p = (n - 1) as nat;
        lemma_evidence(w, p);
        lemma_one_more(p, s);
        lemma_one_more(p, b);
        assert forall|k: int| #[trigger] last_reading(w, n, k) implies evidence(w, n).last_io
            == io_in(w.rounds@[k].io) by {
            if k < p {
                assert(last_reading(w, p, k));
                assert(io_in(w.rounds@[p as int].io) is None);
            }
        }
        assert forall|k: int| #[trigger] last_seen(w, n, k) implies evidence(w, n).ticks_after == (
        stat_of(w.rounds@[k].stat)->0).1 by {
            if k < p {
                assert(last_seen(w, p, k));
                assert(!seen_in(w, p as int));
            }
        }
        if forall|m: int| 0 <= m < n ==> io_in((#[trigger] w.rounds@[m]).io) is None {
            assert(io_in(w.rounds@[p as int].io) is None);
        }
        if forall|m: int| 0 <= m < n ==> !#[trigger] seen_in(w, m) {
            assert(!seen_in(w, p as int));
        }
    }
}

/// Did either counter grow from one reading to the other?
pub open spec fn moved(from: (u64, u64), to: (u64, u64)) -> bool {
    to.0 > from.0 || to.1 > from.1
}

/// How much a counter grew; none where it went back.
pub open spec fn growth(from: u64, to: u64) -> int {
    if to > from {
        to - from
    } else {
        0
    }
}

/// **A mover is accused, blocked or not.** A process whose byte counters grew
/// from the opening to the closing reading is a culprit, with exactly the
/// differences.
pub proof fn lemma_a_mover_is_accused(
    w: Watched,
    samples: u32,
    delayacct: bool,
    from: (u64, u64),
    to: (u64, u64),
)
    requires
        io_in(w.before) == Some(from),
        io_in(w.end) == Some(to),
        moved(from, to),
    ensures
        accused(w, samples, delayacct) matches Some(c) && c.pid == w.pid && c.read_bytes == growth(
            from.0,
            to.0,
        ) && c.write_bytes == growth(from.1, to.1),
{
}

/// **One that exited is accused by its last readable counters.**
pub proof fn lemma_one_that_exited_is_accused(
    w: Watched,
    samples: u32,
    delayacct: bool,
    from: (u64, u64),
    k: int,
)
    requires
        io_in(w.before) == Some(from),
        io_in(w.end) is None,
        last_reading(w, rounds_of(w, samples), k),
        moved(from, io_in(w.rounds@[k].io)->0),
    ensures
        accused(w, samples, delayacct) matches Some(c) && c.read_bytes == growth(
            from.0,
            (io_in(w.rounds@[k].io)->0).0,
        ) && c.write_bytes == growth(from.1, (io_in(w.rounds@[k].io)->0).1),
{
    lemma_evidence(w, rounds_of(w, samples));
}

/// **One that was blocked is accused, whether it moved anything or not.**
pub proof fn lemma_one_that_blocked_is_accused(w: Watched, samples: u32, delayacct: bool, i: int)
    requires
        0 <= i < rounds_of(w, samples),
        blocked_in(w, i),
    ensures
        accused(w, samples, delayacct) is Some,
        (accused(w, samples, delayacct)->0).blocked_samples > 0,
{
    let n = rounds_of(w, samples);
    lemma_evidence(w, n);
    lemma_some_of_a_kind(n, |i: int| blocked_in(w, i), i);
}

/// **Only the idle are left out.** A process that is not accused was in no
/// round found blocked, and no reading shows that it moved anything.
pub proof fn lemma_only_the_idle_are_left_out(w: Watched, samples: u32, delayacct: bool)
    requires
        accused(w, samples, delayacct) is None,
    ensures
        forall|i: int| 0 <= i < rounds_of(w, samples) ==> !#[trigger] blocked_in(w, i),
        io_in(w.before) is Some && io_in(w.end) is Some ==> !moved(
            io_in(w.before)->0,
            io_in(w.end)->0,
        ),
{
    assert forall|i: int| 0 <= i < rounds_of(w, samples) implies !#[trigger] blocked_in(w, i) by {
        if blocked_in(w, i) {
            lemma_one_that_blocked_is_accused(w, samples, delayacct, i);
        }
    }
}

/// **What a culprit is charged with.** Its counts are those of the rounds in
/// which it was seen and seen blocked, at most as many as were asked for. Its
/// delay is ten milliseconds for each tick between the first round and the last
/// in which it was seen, and is left out without delay accounting. It was
/// blocked or moved something.
pub proof fn lemma_what_a_culprit_is_charged_with(w: Watched, samples: u32, delayacct: bool, k: int)
    requires
        accused(w, samples, delayacct) is Some,
    ensures
        ({
            let c = accused(w, samples, delayacct)->0;
            let n = rounds_of(w, samples);
            &&& n <= samples
            &&& n <= w.rounds@.len()
            &&& n == samples || n == w.rounds@.len()
            &&& c.pid == w.pid
            &&& c.comm == comm_in(w.comm)
            &&& c.total_samples == how_many(n, |i: int| seen_in(w, i))
            &&& c.blocked_samples == how_many(n, |i: int| blocked_in(w, i))
            &&& c.blkio_delay_ms is Some == delayacct
            &&& c.blocked_samples > 0 || c.read_bytes > 0 || c.write_bytes > 0
            &&& c.read_bytes > 0 || c.write_bytes > 0 ==> io_in(w.before) is Some
            &&& delayacct && n > 0 && seen_in(w, 0) && last_seen(w, n, k) ==> {
                let ticks = (stat_of(w.rounds@[k].stat)->0).1 - (stat_of(w.rounds@[0].stat)->0).1;
                &&& ticks <= 0 ==> c.blkio_delay_ms == Some(0u64)
                &&& 0 < ticks && ticks * 10 <= u64::MAX ==> c.blkio_delay_ms->0 == ticks * 10
                &&& ticks * 10 > u64::MAX ==> c.blkio_delay_ms == Some(u64::MAX)
            }
        }),
{
    let n = rounds_of(w, samples);
    lemma_evidence(w, n);
}

// ── the list ───────────────────────────────────────────────────────────

/// **Each accused process is among the culprits to rank, and nobody else.**
pub proof fn lemma_all_accused_are_listed(w: Seq<Watched>, samples: u32, delayacct: bool)
    ensures
        forall|i: int|
            0 <= i < w.len() && accused(#[trigger] w[i], samples, delayacct) is Some
                ==> all_accused(w, samples, delayacct).contains(
                accused(w[i], samples, delayacct)->0,
            ),
        forall|k: int|
            0 <= k < all_accused(w, samples, delayacct).len() ==> exists|i: int|
                0 <= i < w.len() && accused(#[trigger] w[i], samples, delayacct) == Some(
                    #[trigger] all_accused(w, samples, delayacct)[k],
                ),
        all_accused(w, samples, delayacct).len() <= w.len(),
    decreases w.len(),
{
    if w.len() > 0 {
        let t = w.drop_last();
        let rest = all_accused(t, samples, delayacct);
        let all = all_accused(w, samples, delayacct);
        lemma_all_accused_are_listed(t, samples, delayacct);
        assert forall|i: int|
            0 <= i < w.len() && accused(#[trigger] w[i], samples, delayacct) is Some implies all.contains(
            accused(w[i], samples, delayacct)->0) by {
            if i < t.len() {
                assert(t[i] == w[i]);
                let c = accused(t[i], samples, delayacct)->0;
                assert(rest.contains(c));
                let k = choose|k: int| 0 <= k < rest.len() && rest[k] == c;
                assert(all[k] == c);
            } else {
                assert(all[rest.len() as int] == accused(w.last(), samples, delayacct)->0);
            }
        }
        assert forall|k: int| 0 <= k < all.len() implies exists|i: int|
            0 <= i < w.len() && accused(#[trigger] w[i], samples, delayacct) == Some(
                #[trigger] all[k],
            ) by {
            if k < rest.len() {
                let i = choose|i: int|
                    0 <= i < t.len() && accused(#[trigger] t[i], samples, delayacct) == Some(
                        rest[k],
                    );
                assert(t[i] == w[i]);
                assert(all[k] == rest[k]);
            } else {
                assert(w[w.len() - 1] == w.last());
            }
        }
    }
}

proof fn lemma_keeps(keep: Seq<usize>, i: usize)
    requires
        keep.no_duplicates(),
    ensures
        kept_with(keep, i).no_duplicates(),
        kept_with(keep, i).contains(i),
        keep.len() <= kept_with(keep, i).len() <= keep.len() + 1,
        forall|k: int| 0 <= k < keep.len() ==> kept_with(keep, i)[k] == #[trigger] keep[k],
        forall|x: usize| keep.contains(x) ==> #[trigger] kept_with(keep, i).contains(x),
        forall|k: int|
            0 <= k < kept_with(keep, i).len() ==> #[trigger] kept_with(keep, i)[k] == i
                || keep.contains(kept_with(keep, i)[k]),
{
    let r = kept_with(keep, i);
    if !keep.contains(i) {
        assert(r[keep.len() as int] == i);
        assert forall|x: usize| keep.contains(x) implies #[trigger] r.contains(x) by {
            let k = choose|k: int| 0 <= k < keep.len() && keep[k] == x;
            assert(r[k] == x);
        }
    }
}

proof fn lemma_turns(a: Seq<usize>, b: Seq<usize>, n: nat)
    requires
        n <= a.len(),
        n <= b.len(),
    ensures
        interleaved(a, b, n).no_duplicates(),
        interleaved(a, b, n).len() <= 7,
        interleaved(a, b, n).len() < 6 ==> forall|k: int|
            0 <= k < n ==> interleaved(a, b, n).contains(#[trigger] a[k]),
        forall|k: int|
            0 <= k < interleaved(a, b, n).len() ==> a.contains(#[trigger] interleaved(a, b, n)[k])
                || b.contains(interleaved(a, b, n)[k]),
    decreases n,
{
    if n > 0 {
        let keep = interleaved(a, b, (n - 1) as nat);
        lemma_turns(a, b, (n - 1) as nat);
        lemma_keeps(keep, a[n - 1]);
        let one = kept_with(keep, a[n - 1]);
        lemma_keeps(one, b[n - 1]);
        let r = interleaved(a, b, n);
        if keep.len() < 6 {
            assert(r == kept_with(one, b[n - 1]));
            if r.len() < 6 {
                assert forall|k: int| 0 <= k < n implies r.contains(#[trigger] a[k]) by {
                    if k < n - 1 {
                        assert(keep.contains(a[k]));
                        assert(one.contains(a[k]));
                    }
                }
            }
            assert forall|k: int| 0 <= k < r.len() implies a.contains(#[trigger] r[k])
                || b.contains(r[k]) by {
                if r[k] != b[n - 1] {
                    assert(one.contains(r[k]));
                    let x = choose|x: int| 0 <= x < one.len() && one[x] == r[k];
                    if one[x] != a[n - 1] {
                        assert(keep.contains(one[x]));
                        let y = choose|y: int| 0 <= y < keep.len() && keep[y] == one[x];
                        assert(a.contains(keep[y]) || b.contains(keep[y]));
                    }
                }
            }
        }
    }
}

/// All places, each once.
pub proof fn lemma_order_has_all<K: Ranked>(keys: Seq<K>)
    requires
        keys.len() <= usize::MAX,
    ensures
        order_of(keys).no_duplicates(),
        order_of(keys).len() == keys.len(),
        forall|a: int| 0 <= a < keys.len() ==> #[trigger] order_of(keys)[a] < keys.len(),
        forall|i: int| 0 <= i < keys.len() ==> #[trigger] order_of(keys).contains(i as usize),
        forall|a: int, b: int|
            0 <= a < b < keys.len() ==> !keys[#[trigger] order_of(keys)[b] as int].ahead(
                &keys[#[trigger] order_of(keys)[a] as int],
            ),
{
    lemma_order_of(keys);
    let p = order_of(keys);
    assert forall|a: int, b: int| 0 <= a < b < keys.len() implies !keys[#[trigger] p[b] as int].ahead(
        &keys[#[trigger] p[a] as int]) && p[a] != p[b] by {
        assert(placed(keys, p[a] as int, p[b] as int));
        K::ahead_one_way(&keys[p[a] as int], &keys[p[b] as int]);
        K::ahead_one_way(&keys[p[a] as int], &keys[p[a] as int]);
    }
}

/// Enough places are picked.
#[verifier::rlimit(50)]
proof fn lemma_picked(c: Seq<CulpritView>)
    requires
        c.len() <= usize::MAX,
    ensures
        picked_places(c).no_duplicates(),
        picked_places(c).len() == if c.len() < 6 {
            c.len()
        } else {
            6
        },
        forall|k: int| 0 <= k < picked_places(c).len() ==> #[trigger] picked_places(c)[k] < c.len(),
{
    let bk = blocked_keys(c);
    let yk = byte_keys(c);
    let a = order_of(bk);
    let b = order_of(yk);
    lemma_order_has_all(bk);
    lemma_order_has_all(yk);
    let n = c.len();
    lemma_turns(a, b, n);
    let r = interleaved(a, b, n);
    assert forall|k: int| 0 <= k < r.len() implies #[trigger] r[k] < n by {
        if a.contains(r[k]) {
            let x = choose|x: int| 0 <= x < a.len() && a[x] == r[k];
            assert(a[x] < n);
        } else {
            let x = choose|x: int| 0 <= x < b.len() && b[x] == r[k];
            assert(b[x] < n);
        }
    }
    let all = Seq::new(n, |i: int| i as usize);
    assert(all.no_duplicates());
    assert(r.to_set().subset_of(all.to_set())) by {
        assert forall|x: usize| r.to_set().contains(x) implies all.to_set().contains(x) by {
            let k = choose|k: int| 0 <= k < r.len() && r[k] == x;
            assert(all[r[k] as int] == x);
        }
    }
    r.unique_seq_to_set();
    all.unique_seq_to_set();
    vstd::set_lib::lemma_len_subset(r.to_set(), all.to_set());
    if r.len() < 6 {
        assert(all.to_set().subset_of(r.to_set())) by {
            assert forall|x: usize| all.to_set().contains(x) implies r.to_set().contains(x) by {
                let k = choose|k: int| 0 <= k < all.len() && all[k] == x;
                assert(a.contains(k as usize));
                let y = choose|y: int| 0 <= y < a.len() && a[y] == k as usize;
                assert(r.contains(a[y]));
            }
        }
        vstd::set_lib::lemma_len_subset(all.to_set(), r.to_set());
    }
}

/// **Who is reported.** Of six culprits at most, all are; of more, six. Each is
/// one of those that were ranked and none is there twice. Those that moved most
/// come first, and nobody moved more than the first of them. One that no other
/// exceeds in blocked samples is always there.
#[verifier::rlimit(50)]
pub proof fn lemma_who_is_reported(c: Seq<CulpritView>)
    requires
        c.len() <= usize::MAX,
    ensures
        ranked(c).len() == if c.len() < 6 {
            c.len()
        } else {
            6
        },
        forall|a: int, b: int|
            0 <= a < b < ranked(c).len() ==> (#[trigger] ranked(c)[a]).bytes() >= (
            #[trigger] ranked(c)[b]).bytes(),
        forall|a: int| 0 <= a < ranked(c).len() ==> c.contains(#[trigger] ranked(c)[a]),
        c.len() <= 6 ==> forall|k: int| 0 <= k < c.len() ==> ranked(c).contains(#[trigger] c[k]),
        c.len() > 0 ==> exists|a: int|
            0 <= a < ranked(c).len() && forall|k: int|
                0 <= k < c.len() ==> (#[trigger] c[k]).blocked_samples <= (
                #[trigger] ranked(c)[a]).blocked_samples,
        c.len() > 0 ==> forall|k: int|
            0 <= k < c.len() ==> (#[trigger] c[k]).bytes() <= ranked(c)[0].bytes(),
{
    let places = picked_places(c);
    let picked = at_places(c, places);
    let keys = byte_keys(picked);
    let p = order_of(keys);
    let r = ranked(c);
    lemma_picked(c);
    lemma_order_has_all(keys);
    assert forall|a: int| 0 <= a < r.len() implies c.contains(#[trigger] r[a]) && r[a]
        == c[places[p[a] as int] as int] by {
        assert(p[a] < picked.len());
        assert(places[p[a] as int] < c.len());
        assert(c[places[p[a] as int] as int] == r[a]);
    }
    assert forall|a: int, b: int| 0 <= a < b < r.len() implies (#[trigger] r[a]).bytes() >= (
    #[trigger] r[b]).bytes() by {
        assert(!keys[p[b] as int].ahead(&keys[p[a] as int]));
    }
    assert forall|x: int| 0 <= x < places.len() implies r.contains(c[#[trigger] places[x] as int]) by {
        assert(p.contains(x as usize));
        let a = choose|a: int| 0 <= a < p.len() && p[a] == x as usize;
        assert(r[a] == c[places[x] as int]);
    }
    if c.len() <= 6 {
        let all = Seq::new(c.len(), |i: int| i as usize);
        assert(places.to_set().subset_of(all.to_set())) by {
            assert forall|x: usize| places.to_set().contains(x) implies all.to_set().contains(
                x,
            ) by {
                let k = choose|k: int| 0 <= k < places.len() && places[k] == x;
                assert(all[places[k] as int] == x);
            }
        }
        places.unique_seq_to_set();
        all.unique_seq_to_set();
        vstd::set_lib::lemma_subset_equality(places.to_set(), all.to_set());
        assert forall|k: int| 0 <= k < c.len() implies r.contains(#[trigger] c[k]) by {
            assert(all[k] == k as usize);
            assert(all.to_set().contains(k as usize));
            assert(places.to_set().contains(k as usize));
            let x = choose|x: int| 0 <= x < places.len() && places[x] == k as usize;
            assert(r.contains(c[places[x] as int]));
        }
    }
    if c.len() > 0 {
        crate::process::lemma_rank_keeps_worst_blocked_and_biggest_mover(c);
        let i = choose|i: int|
            0 <= i < places.len() && forall|k: int|
                0 <= k < c.len() ==> (#[trigger] c[k]).blocked_samples
                    <= c[#[trigger] places[i] as int].blocked_samples;
        assert(r.contains(c[places[i] as int]));
        let a = choose|a: int| 0 <= a < r.len() && r[a] == c[places[i] as int];
        assert(0 <= a < r.len() && forall|k: int|
            0 <= k < c.len() ==> (#[trigger] c[k]).blocked_samples <= r[a].blocked_samples);
        let j = choose|j: int|
            0 <= j < places.len() && forall|k: int|
                0 <= k < c.len() ==> (#[trigger] c[k]).bytes()
                    <= c[#[trigger] places[j] as int].bytes();
        assert(r.contains(c[places[j] as int]));
        let b = choose|b: int| 0 <= b < r.len() && r[b] == c[places[j] as int];
        if b > 0 {
            assert(r[0].bytes() >= r[b].bytes());
        }
    }
}

} // verus!
