//! Putting things in order.
//!
//! A sort here gives back positions rather than moving what is sorted: the
//! order in which to take the items. It is stable, so items that rank alike
//! stay in the order they came in.

use vstd::prelude::*;

verus! {

/// What can be ranked.
pub trait Ranked {
    /// Does this go ahead of the other one?
    spec fn ahead(&self, other: &Self) -> bool;

    proof fn ahead_one_way(a: &Self, b: &Self)
        ensures
            !(a.ahead(b) && b.ahead(a)),
    ;

    /// Not being behind carries over.
    proof fn ahead_carries(a: &Self, b: &Self, c: &Self)
        requires
            !b.ahead(a),
            !c.ahead(b),
        ensures
            !c.ahead(a),
    ;

    fn goes_ahead(&self, other: &Self) -> (r: bool)
        ensures
            r == self.ahead(other),
    ;
}

impl Ranked for u64 {
    open spec fn ahead(&self, other: &u64) -> bool {
        *self < *other
    }

    proof fn ahead_one_way(a: &u64, b: &u64) {
    }

    proof fn ahead_carries(a: &u64, b: &u64, c: &u64) {
    }

    fn goes_ahead(&self, other: &u64) -> (r: bool) {
        *self < *other
    }
}

/// Does the item at `i` come out before the item at `j`? Ahead if it ranks
/// ahead, and if neither does, the one that came first.
pub open spec fn placed<K: Ranked>(keys: Seq<K>, i: int, j: int) -> bool {
    keys[i].ahead(&keys[j]) || (!keys[j].ahead(&keys[i]) && i < j)
}

/// The positions from `lo` up to `hi`, each once, in order of rank.
pub open spec fn ordered<K: Ranked>(keys: Seq<K>, order: Seq<usize>, lo: int, hi: int) -> bool {
    &&& order.len() == hi - lo
    &&& forall|a: int| 0 <= a < order.len() ==> lo <= #[trigger] order[a] < hi
    &&& forall|i: int| lo <= i < hi ==> #[trigger] order.contains(i as usize)
    &&& forall|a: int, b: int|
        0 <= a < b < order.len() ==> placed(keys, #[trigger] order[a] as int, #[trigger] order[b] as int)
}

proof fn lemma_placed_carries<K: Ranked>(keys: Seq<K>, i: int, j: int, k: int)
    requires
        placed(keys, i, j),
        placed(keys, j, k),
    ensures
        placed(keys, i, k),
{
    K::ahead_one_way(&keys[i], &keys[j]);
    K::ahead_one_way(&keys[j], &keys[k]);
    K::ahead_one_way(&keys[i], &keys[k]);
    K::ahead_carries(&keys[i], &keys[j], &keys[k]);
    if !keys[i].ahead(&keys[k]) {
        // Then all three rank alike, and their places decide.
        if keys[i].ahead(&keys[j]) {
            K::ahead_carries(&keys[j], &keys[k], &keys[i]);
        }
        if keys[j].ahead(&keys[k]) {
            K::ahead_carries(&keys[k], &keys[i], &keys[j]);
        }
    }
}

/// What a half-done merge has put out: all of it comes before what is left.
spec fn merged<K: Ranked>(
    keys: Seq<K>,
    left: Seq<usize>,
    right: Seq<usize>,
    out: Seq<usize>,
    a: int,
    b: int,
) -> bool {
    &&& 0 <= a <= left.len()
    &&& 0 <= b <= right.len()
    &&& out.len() == a + b
    &&& forall|x: int| 0 <= x < a ==> out.contains(#[trigger] left[x])
    &&& forall|y: int| 0 <= y < b ==> out.contains(#[trigger] right[y])
    &&& forall|c: int|
        0 <= c < out.len() ==> left.contains(#[trigger] out[c]) || right.contains(out[c])
    &&& forall|c: int, d: int|
        0 <= c < d < out.len() ==> placed(keys, #[trigger] out[c] as int, #[trigger] out[d] as int)
    &&& forall|c: int, x: int|
        0 <= c < out.len() && a <= x < left.len() ==> placed(
            keys,
            #[trigger] out[c] as int,
            #[trigger] left[x] as int,
        )
    &&& forall|c: int, y: int|
        0 <= c < out.len() && b <= y < right.len() ==> placed(
            keys,
            #[trigger] out[c] as int,
            #[trigger] right[y] as int,
        )
}

proof fn lemma_merge_step<K: Ranked>(
    keys: Seq<K>,
    left: Seq<usize>,
    right: Seq<usize>,
    out: Seq<usize>,
    a: int,
    b: int,
    take_left: bool,
)
    requires
        merged(keys, left, right, out, a, b),
        take_left ==> a < left.len(),
        !take_left ==> b < right.len(),
        forall|x: int, y: int|
            0 <= x < y < left.len() ==> placed(
                keys,
                #[trigger] left[x] as int,
                #[trigger] left[y] as int,
            ),
        forall|x: int, y: int|
            0 <= x < y < right.len() ==> placed(
                keys,
                #[trigger] right[x] as int,
                #[trigger] right[y] as int,
            ),
        take_left && b < right.len() ==> placed(keys, left[a] as int, right[b] as int),
        !take_left && a < left.len() ==> placed(keys, right[b] as int, left[a] as int),
    ensures
        take_left ==> merged(keys, left, right, out.push(left[a]), a + 1, b),
        !take_left ==> merged(keys, left, right, out.push(right[b]), a, b + 1),
{
    let v = if take_left {
        left[a]
    } else {
        right[b]
    };
    let next = out.push(v);
    let a2 = if take_left {
        a + 1
    } else {
        a
    };
    let b2 = if take_left {
        b
    } else {
        b + 1
    };
    assert(next.last() == v);
    assert forall|w: usize| out.contains(w) implies next.contains(w) by {
        let i = choose|i: int| 0 <= i < out.len() && out[i] == w;
        assert(next[i] == w);
    }
    assert(next.contains(v)) by {
        assert(next[out.len() as int] == v);
    }
    assert forall|x: int| 0 <= x < a2 implies next.contains(#[trigger] left[x]) by {}
    assert forall|y: int| 0 <= y < b2 implies next.contains(#[trigger] right[y]) by {}
    assert forall|c: int| 0 <= c < next.len() implies left.contains(#[trigger] next[c])
        || right.contains(next[c]) by {
        if c < out.len() {
            assert(next[c] == out[c]);
        } else if take_left {
            assert(left[a] == next[c]);
        } else {
            assert(right[b] == next[c]);
        }
    }
    assert forall|c: int, d: int| 0 <= c < d < next.len() implies placed(
        keys,
        #[trigger] next[c] as int,
        #[trigger] next[d] as int,
    ) by {
        assert(next[c] == out[c]);
        if d < out.len() {
            assert(next[d] == out[d]);
        }
    }
    assert forall|c: int, x: int| 0 <= c < next.len() && a2 <= x < left.len() implies placed(
        keys,
        #[trigger] next[c] as int,
        #[trigger] left[x] as int,
    ) by {
        if c < out.len() {
            assert(next[c] == out[c]);
        } else if !take_left {
            if x > a {
                lemma_placed_carries(keys, right[b] as int, left[a] as int, left[x] as int);
            }
        }
    }
    assert forall|c: int, y: int| 0 <= c < next.len() && b2 <= y < right.len() implies placed(
        keys,
        #[trigger] next[c] as int,
        #[trigger] right[y] as int,
    ) by {
        if c < out.len() {
            assert(next[c] == out[c]);
        } else if take_left {
            if y > b {
                lemma_placed_carries(keys, left[a] as int, right[b] as int, right[y] as int);
            }
        }
    }
}

/// Merge two ordered halves.
fn merge<K: Ranked>(
    keys: &Vec<K>,
    left: &Vec<usize>,
    right: &Vec<usize>,
    Ghost(lo): Ghost<int>,
    Ghost(mid): Ghost<int>,
    Ghost(hi): Ghost<int>,
) -> (out: Vec<usize>)
    requires
        0 <= lo <= mid <= hi <= keys@.len(),
        ordered(keys@, left@, lo, mid),
        ordered(keys@, right@, mid, hi),
    ensures
        ordered(keys@, out@, lo, hi),
{
    let mut out: Vec<usize> = Vec::new();
    let mut a: usize = 0;
    let mut b: usize = 0;
    while a < left.len() || b < right.len()
        invariant
            0 <= lo <= mid <= hi <= keys@.len(),
            ordered(keys@, left@, lo, mid),
            ordered(keys@, right@, mid, hi),
            merged(keys@, left@, right@, out@, a as int, b as int),
        decreases left@.len() - a + right@.len() - b,
    {
        let take_left: bool = if a < left.len() {
            if b < right.len() {
                let i: usize = left[a];
                let j: usize = right[b];
                proof {
                    K::ahead_one_way(&keys@[i as int], &keys@[j as int]);
                }
                !keys[j].goes_ahead(&keys[i])
            } else {
                true
            }
        } else {
            false
        };
        proof {
            lemma_merge_step(keys@, left@, right@, out@, a as int, b as int, take_left);
        }
        if take_left {
            out.push(left[a]);
            a += 1;
        } else {
            out.push(right[b]);
            b += 1;
        }
    }
    proof {
        assert forall|c: int| 0 <= c < out@.len() implies lo <= #[trigger] out@[c] < hi by {
            let v = out@[c];
            if left@.contains(v) {
                let x = choose|x: int| 0 <= x < left@.len() && left@[x] == v;
                assert(lo <= left@[x] < mid);
            } else {
                let y = choose|y: int| 0 <= y < right@.len() && right@[y] == v;
                assert(mid <= right@[y] < hi);
            }
        }
        assert forall|i: int| lo <= i < hi implies #[trigger] out@.contains(i as usize) by {
            if i < mid {
                assert(left@.contains(i as usize));
                let x = choose|x: int| 0 <= x < left@.len() && left@[x] == i as usize;
                assert(out@.contains(left@[x]));
            } else {
                assert(right@.contains(i as usize));
                let y = choose|y: int| 0 <= y < right@.len() && right@[y] == i as usize;
                assert(out@.contains(right@[y]));
            }
        }
    }
    out
}

fn order_range<K: Ranked>(keys: &Vec<K>, lo: usize, hi: usize) -> (out: Vec<usize>)
    requires
        lo <= hi <= keys@.len(),
    ensures
        ordered(keys@, out@, lo as int, hi as int),
    decreases hi - lo,
{
    let mut out: Vec<usize> = Vec::new();
    if hi - lo == 0 {
        return out;
    }
    if hi - lo == 1 {
        out.push(lo);
        assert(out@[0] == lo);
        return out;
    }
    let mid: usize = lo + (hi - lo) / 2;
    let left: Vec<usize> = order_range(keys, lo, mid);
    let right: Vec<usize> = order_range(keys, mid, hi);
    merge(keys, &left, &right, Ghost(lo as int), Ghost(mid as int), Ghost(hi as int))
}

/// The order in which keys come out.
pub open spec fn order_of<K: Ranked>(keys: Seq<K>) -> Seq<usize> {
    choose|p: Seq<usize>| ordered(keys, p, 0, keys.len() as int)
}

/// The positions of all keys, in order of rank.
pub fn stable_order<K: Ranked>(keys: &Vec<K>) -> (out: Vec<usize>)
    ensures
        ordered(keys@, out@, 0, keys@.len() as int),
        out@ == order_of(keys@),
{
    let out: Vec<usize> = order_range(keys, 0, keys.len());
    proof {
        lemma_order_unique(keys@, out@, order_of(keys@), 0);
        assert(out@ =~= order_of(keys@));
    }
    out
}

proof fn lemma_placed_one_way<K: Ranked>(keys: Seq<K>, i: int, j: int)
    ensures
        !(placed(keys, i, j) && placed(keys, j, i)),
{
    K::ahead_one_way(&keys[i], &keys[j]);
}

/// There is one such order.
pub proof fn lemma_order_unique<K: Ranked>(keys: Seq<K>, p: Seq<usize>, q: Seq<usize>, from: int)
    requires
        ordered(keys, p, 0, keys.len() as int),
        ordered(keys, q, 0, keys.len() as int),
        0 <= from <= keys.len() <= usize::MAX,
        forall|k: int| 0 <= k < from ==> p[k] == q[k],
    ensures
        forall|k: int| 0 <= k < keys.len() ==> p[k] == q[k],
    decreases keys.len() - from,
{
    if from < keys.len() {
        let x = p[from];
        let y = q[from];
        if x != y {
            assert(q.contains(x as int as usize));
            assert(p.contains(y as int as usize));
            let j = choose|j: int| 0 <= j < q.len() && q[j] == x;
            let i = choose|i: int| 0 <= i < p.len() && p[i] == y;
            lemma_placed_one_way(keys, x as int, x as int);
            lemma_placed_one_way(keys, y as int, y as int);
            lemma_placed_one_way(keys, x as int, y as int);
            if j < from {
                assert(p[j] == x);
                assert(placed(keys, p[j] as int, p[from] as int));
            }
            if i < from {
                assert(q[i] == y);
                assert(placed(keys, q[i] as int, q[from] as int));
            }
            assert(placed(keys, q[from] as int, q[j] as int));
            assert(placed(keys, p[from] as int, p[i] as int));
        }
        lemma_order_unique(keys, p, q, from + 1);
    }
}

/// The positions up to `n`, each once, every one before all that come later.
pub open spec fn arranged(before: spec_fn(int, int) -> bool, p: Seq<usize>, n: int) -> bool {
    &&& p.len() == n
    &&& forall|a: int| 0 <= a < p.len() ==> 0 <= #[trigger] p[a] < n
    &&& forall|i: int| 0 <= i < n ==> #[trigger] p.contains(i as usize)
    &&& forall|a: int, b: int|
        0 <= a < b < p.len() ==> before(#[trigger] p[a] as int, #[trigger] p[b] as int)
}

/// Can positions up to `n` be told apart by what comes before what?
pub open spec fn is_order(before: spec_fn(int, int) -> bool, n: int) -> bool {
    &&& forall|i: int, j: int|
        0 <= i < n && 0 <= j < n && i != j ==> #[trigger] before(i, j) || before(j, i)
    &&& forall|i: int, j: int, k: int|
        0 <= i < n && 0 <= j < n && 0 <= k < n && #[trigger] before(i, j) && #[trigger] before(j, k)
            ==> before(i, k)
}

/// Where a position goes among others that are arranged: behind all that come
/// before it.
proof fn find_spot(before: spec_fn(int, int) -> bool, q: Seq<usize>, x: int, from: int) -> (k: int)
    requires
        0 <= from <= q.len(),
        forall|a: int| 0 <= a < from ==> before(#[trigger] q[a] as int, x),
    ensures
        0 <= k <= q.len(),
        forall|a: int| 0 <= a < k ==> before(#[trigger] q[a] as int, x),
        k < q.len() ==> !before(q[k] as int, x),
    decreases q.len() - from,
{
    if from == q.len() || !before(q[from] as int, x) {
        from
    } else {
        find_spot(before, q, x, from + 1)
    }
}

/// Positions can always be arranged.
pub proof fn lemma_can_arrange(before: spec_fn(int, int) -> bool, n: int) -> (p: Seq<usize>)
    requires
        0 <= n <= usize::MAX,
        is_order(before, n),
    ensures
        arranged(before, p, n),
    decreases n,
{
    if n == 0 {
        Seq::empty()
    } else {
        let x = n - 1;
        assert(is_order(before, x));
        let q = lemma_can_arrange(before, x);
        let k = find_spot(before, q, x, 0);
        let p = q.insert(k, x as usize);
        assert forall|i: int| 0 <= i < n implies #[trigger] p.contains(i as usize) by {
            if i == x {
                assert(p[k] == x as usize);
            } else {
                assert(q.contains(i as usize));
                let a = choose|a: int| 0 <= a < q.len() && q[a] == i as usize;
                if a < k {
                    assert(p[a] == i as usize);
                } else {
                    assert(p[a + 1] == i as usize);
                }
            }
        }
        assert forall|a: int| 0 <= a < p.len() implies 0 <= #[trigger] p[a] < n by {
            if a < k {
                assert(p[a] == q[a]);
            } else if a > k {
                assert(p[a] == q[a - 1]);
            }
        }
        assert forall|a: int, b: int| 0 <= a < b < p.len() implies before(
            #[trigger] p[a] as int,
            #[trigger] p[b] as int,
        ) by {
            let qa = if a < k {
                a
            } else {
                a - 1
            };
            let qb = if b < k {
                b
            } else {
                b - 1
            };
            if a == k {
                assert(p[b] == q[qb]);
                assert(0 <= q[k] < x);
                assert(before(q[k] as int, x) || before(x, q[k] as int));
                if qb > k {
                    assert(before(q[k] as int, q[qb] as int));
                }
            } else if b == k {
                assert(p[a] == q[qa]);
            } else {
                assert(p[a] == q[qa] && p[b] == q[qb]);
            }
        }
        p
    }
}

/// Keys can always be put in order.
pub proof fn lemma_order_exists<K: Ranked>(keys: Seq<K>) -> (p: Seq<usize>)
    requires
        keys.len() <= usize::MAX,
    ensures
        ordered(keys, p, 0, keys.len() as int),
{
    let n = keys.len() as int;
    let before = |i: int, j: int| placed(keys, i, j);
    assert forall|i: int, j: int| 0 <= i < n && 0 <= j < n && i != j implies #[trigger] before(i, j)
        || before(j, i) by {
        K::ahead_one_way(&keys[i], &keys[j]);
    }
    assert forall|i: int, j: int, k: int|
        0 <= i < n && 0 <= j < n && 0 <= k < n && #[trigger] before(i, j) && #[trigger] before(
            j,
            k,
        ) implies before(i, k) by {
        lemma_placed_carries(keys, i, j, k);
    }
    let p = lemma_can_arrange(before, n);
    assert forall|a: int, b: int| 0 <= a < b < p.len() implies placed(
        keys,
        #[trigger] p[a] as int,
        #[trigger] p[b] as int,
    ) by {
        assert(before(p[a] as int, p[b] as int));
    }
    p
}

/// The order of keys is in order.
pub proof fn lemma_order_of<K: Ranked>(keys: Seq<K>)
    requires
        keys.len() <= usize::MAX,
    ensures
        ordered(keys, order_of(keys), 0, keys.len() as int),
{
    let p = lemma_order_exists(keys);
    assert(ordered(keys, p, 0, keys.len() as int));
}

} // verus!
