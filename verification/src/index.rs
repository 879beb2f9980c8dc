//! Looking entries up by path.

use vstd::prelude::*;

use crate::path::{comes_before, lemma_sorts_carries, lemma_sorts_one_way, sorts_before};
use crate::sort::{ordered, placed, stable_order};
use crate::text::{copy_chars, runs, same_chars};

verus! {

/// Where each path stands last in a list of normal forms: as in a map, a later
/// entry replaces an earlier one for the same path.
pub open spec fn last_places(paths: Seq<Seq<char>>) -> Map<Seq<char>, int>
    decreases paths.len(),
{
    if paths.len() == 0 {
        Map::empty()
    } else {
        last_places(paths.drop_last()).insert(paths.last(), paths.len() - 1)
    }
}

pub proof fn lemma_last_places(paths: Seq<Seq<char>>, p: Seq<char>)
    ensures
        last_places(paths).contains_key(p) == paths.contains(p),
        last_places(paths).contains_key(p) ==> {
            let i = last_places(paths)[p];
            &&& 0 <= i < paths.len()
            &&& paths[i] == p
            &&& forall|j: int| i < j < paths.len() ==> #[trigger] paths[j] != p
        },
    decreases paths.len(),
{
    if paths.len() > 0 {
        let t = paths.drop_last();
        lemma_last_places(t, p);
        if paths.last() == p {
            assert(paths[paths.len() - 1] == p);
        } else {
            if paths.contains(p) {
                let k = choose|k: int| 0 <= k < paths.len() && paths[k] == p;
                assert(t[k] == p);
            }
            if t.contains(p) {
                let k = choose|k: int| 0 <= k < t.len() && t[k] == p;
                assert(paths[k] == p);
            }
            if last_places(paths).contains_key(p) {
                let i = last_places(paths)[p];
                assert(t[i] == paths[i]);
                assert forall|j: int| i < j < paths.len() implies #[trigger] paths[j] != p by {
                    if j < t.len() {
                        assert(t[j] == paths[j]);
                    }
                }
            }
        }
    }
}

/// Each run sorts before the next ones.
pub open spec fn ascending(keys: Seq<Vec<char>>) -> bool {
    forall|i: int, j: int|
        0 <= i < j < keys.len() ==> sorts_before(#[trigger] keys[i]@, #[trigger] keys[j]@)
}

/// Distinct paths in ascending order, each with the place where it stands last
/// in the list it was made from.
pub struct PathIndex {
    keys: Vec<Vec<char>>,
    places: Vec<usize>,
    paths: Ghost<Seq<Seq<char>>>,
}

impl PathIndex {
    /// The normal forms in the list it was made from.
    pub closed spec fn paths(&self) -> Seq<Seq<char>> {
        self.paths@
    }

    /// The distinct paths.
    pub closed spec fn keys(&self) -> Seq<Vec<char>> {
        self.keys@
    }

    /// Where each of them stands last.
    pub closed spec fn places(&self) -> Seq<usize> {
        self.places@
    }

    /// What holds of every index.
    pub open spec fn sound(&self) -> bool {
        let last = last_places(self.paths());
        &&& self.keys().len() == self.places().len()
        &&& ascending(self.keys())
        &&& forall|k: int|
            0 <= k < self.keys().len() ==> {
                &&& last.contains_key(#[trigger] self.keys()[k]@)
                &&& last[self.keys()[k]@] == self.places()[k]
                &&& self.places()[k] < self.paths().len()
            }
        &&& forall|p: Seq<char>|
            last.contains_key(p) ==> exists|k: int|
                0 <= k < self.keys().len() && #[trigger] self.keys()[k]@ == p
    }

    /// Index a list of normal forms.
    pub fn new(paths: &Vec<Vec<char>>) -> (r: PathIndex)
        ensures
            r.sound(),
            r.paths() == runs(paths@),
    {
        let order: Vec<usize> = stable_order(paths);
        let ghost all = runs(paths@);
        let mut keys: Vec<Vec<char>> = Vec::new();
        let mut places: Vec<usize> = Vec::new();
        let mut a: usize = 0;
        while a < order.len()
            invariant
                a <= order@.len(),
                order@.len() == paths@.len(),
                ordered(paths@, order@, 0, paths@.len() as int),
                all == runs(paths@),
                keys@.len() == places@.len(),
                ascending(keys@),
                (a == 0) == (keys@.len() == 0),
                a > 0 ==> keys@.last()@ == all[order@[a - 1] as int] && places@.last() == order@[a
                    - 1],
                forall|k: int|
                    0 <= k < keys@.len() ==> (#[trigger] places@[k]) < all.len()
                        && all[places@[k] as int] == keys@[k]@,
                forall|b: int|
                    0 <= b < a ==> exists|k: int|
                        0 <= k < keys@.len() && keys@[k]@ == all[#[trigger] order@[b] as int]
                            && order@[b] <= #[trigger] places@[k],
            decreases order@.len() - a,
        {
            let x: usize = order[a];
            let path: &Vec<char> = &paths[x];
            let ghost keys0 = keys@;
            let ghost places0 = places@;
            let n: usize = keys.len();
            if n > 0 && same_chars(&keys[n - 1], path) {
                proof {
                    assert(placed(paths@, order@[a - 1] as int, order@[a as int] as int));
                    lemma_sorts_one_way(paths@[x as int]@, paths@[order@[a - 1] as int]@);
                }
                places.set(n - 1, x);
                proof {
                    assert forall|b: int| 0 <= b < a + 1 implies exists|k: int|
                        0 <= k < keys@.len() && keys@[k]@ == all[#[trigger] order@[b] as int]
                            && order@[b] <= #[trigger] places@[k] by {
                        if b == a {
                            assert(order@[b] <= places@[n - 1]);
                        } else {
                            let k = choose|k: int|
                                0 <= k < keys0.len() && keys0[k]@ == all[order@[b] as int]
                                    && order@[b] <= #[trigger] places0[k];
                            assert(order@[b] <= places@[k]);
                        }
                    }
                }
            } else {
                keys.push(copy_chars(path));
                places.push(x);
                proof {
                    if n > 0 {
                        assert(placed(paths@, order@[a - 1] as int, order@[a as int] as int));
                        lemma_sorts_one_way(
                            paths@[x as int]@,
                            paths@[order@[a - 1] as int]@,
                        );
                        assert(sorts_before(keys0.last()@, path@));
                    }
                    assert forall|i: int, j: int| 0 <= i < j < keys@.len() implies sorts_before(
                        #[trigger] keys@[i]@,
                        #[trigger] keys@[j]@,
                    ) by {
                        if j == n {
                            assert(keys@[i] == keys0[i]);
                            if i < n - 1 {
                                assert(sorts_before(keys0[i]@, keys0[n - 1]@));
                                lemma_sorts_strict_carries(keys0[i]@, keys0[n - 1]@, path@);
                            }
                        } else {
                            assert(keys@[i] == keys0[i] && keys@[j] == keys0[j]);
                        }
                    }
                    assert forall|b: int| 0 <= b < a + 1 implies exists|k: int|
                        0 <= k < keys@.len() && keys@[k]@ == all[#[trigger] order@[b] as int]
                            && order@[b] <= #[trigger] places@[k] by {
                        if b == a {
                            assert(order@[b] <= places@[n as int]);
                        } else {
                            let k = choose|k: int|
                                0 <= k < keys0.len() && keys0[k]@ == all[order@[b] as int]
                                    && order@[b] <= #[trigger] places0[k];
                            assert(places@[k] == places0[k]);
                            assert(keys@[k] == keys0[k]);
                        }
                    }
                    assert forall|k: int| 0 <= k < keys@.len() implies (#[trigger] places@[k])
                        < all.len() && all[places@[k] as int] == keys@[k]@ by {
                        if k < n {
                            assert(places@[k] == places0[k]);
                            assert(keys@[k] == keys0[k]);
                        }
                    }
                }
            }
            a += 1;
        }
        proof {
            let last = last_places(all);
            assert forall|k: int| 0 <= k < keys@.len() implies {
                &&& last.contains_key(#[trigger] keys@[k]@)
                &&& last[keys@[k]@] == places@[k]
                &&& places@[k] < all.len()
            } by {
                let p = keys@[k]@;
                assert(all[places@[k] as int] == p);
                assert(all.contains(p));
                lemma_last_places(all, p);
                let i = last[p];
                assert(order@.contains(i as usize));
                let b = choose|b: int| 0 <= b < order@.len() && order@[b] == i as usize;
                let k2 = choose|k2: int|
                    0 <= k2 < keys@.len() && keys@[k2]@ == all[order@[b] as int] && order@[b]
                        <= #[trigger] places@[k2];
                if k2 < k {
                    assert(sorts_before(keys@[k2]@, keys@[k]@));
                    lemma_sorts_one_way(p, p);
                } else if k < k2 {
                    assert(sorts_before(keys@[k]@, keys@[k2]@));
                    lemma_sorts_one_way(p, p);
                }
                assert(k2 == k);
            }
            assert forall|p: Seq<char>| last.contains_key(p) implies exists|k: int|
                0 <= k < keys@.len() && #[trigger] keys@[k]@ == p by {
                lemma_last_places(all, p);
                let i = last[p];
                assert(order@.contains(i as usize));
                let b = choose|b: int| 0 <= b < order@.len() && order@[b] == i as usize;
                let k = choose|k: int|
                    0 <= k < keys@.len() && keys@[k]@ == all[order@[b] as int] && order@[b]
                        <= #[trigger] places@[k];
                assert(keys@[k]@ == p);
            }
        }
        let ghost k0 = keys@;
        let ghost p0 = places@;
        let r: PathIndex = PathIndex { keys, places, paths: Ghost(all) };
        assert(r.keys() == k0 && r.places() == p0 && r.paths() == all);
        r
    }

    pub fn len(&self) -> (r: usize)
        ensures
            r == self.keys().len(),
    {
        self.keys.len()
    }

    pub fn key(&self, k: usize) -> (r: &Vec<char>)
        requires
            k < self.keys().len(),
        ensures
            *r == self.keys()[k as int],
    {
        &self.keys[k]
    }

    pub fn place(&self, k: usize) -> (r: usize)
        requires
            self.sound(),
            k < self.keys().len(),
        ensures
            r == self.places()[k as int],
    {
        self.places[k]
    }

    /// Which of the distinct paths this normal form is.
    pub fn find(&self, p: &[char]) -> (r: Option<usize>)
        requires
            self.sound(),
        ensures
            match r {
                Some(k) => k < self.keys().len() && self.keys()[k as int]@ == p@,
                None => !last_places(self.paths()).contains_key(p@),
            },
    {
        let mut lo: usize = 0;
        let mut hi: usize = self.keys.len();
        while lo < hi
            invariant
                self.sound(),
                lo <= hi <= self.keys@.len(),
                forall|k: int| 0 <= k < lo ==> sorts_before(#[trigger] self.keys@[k]@, p@),
                forall|k: int|
                    hi <= k < self.keys@.len() ==> sorts_before(p@, #[trigger] self.keys@[k]@),
            decreases hi - lo,
        {
            let mid: usize = lo + (hi - lo) / 2;
            let key: &Vec<char> = &self.keys[mid];
            if comes_before(key, p) {
                proof {
                    assert forall|k: int| 0 <= k < mid + 1 implies sorts_before(
                        #[trigger] self.keys@[k]@,
                        p@,
                    ) by {
                        if k < mid {
                            lemma_sorts_strict_carries(self.keys@[k]@, key@, p@);
                        }
                    }
                }
                lo = mid + 1;
            } else if comes_before(p, key) {
                proof {
                    assert forall|k: int| mid <= k < self.keys@.len() implies sorts_before(
                        p@,
                        #[trigger] self.keys@[k]@,
                    ) by {
                        if k > mid {
                            lemma_sorts_strict_carries(p@, key@, self.keys@[k]@);
                        }
                    }
                }
                hi = mid;
            } else {
                proof {
                    lemma_sorts_one_way(key@, p@);
                }
                return Some(mid);
            }
        }
        proof {
            if last_places(self.paths()).contains_key(p@) {
                let k = choose|k: int| 0 <= k < self.keys().len() && #[trigger] self.keys()[k]@ == p@;
                lemma_sorts_one_way(p@, p@);
                assert(self.keys@[k]@ == p@);
            }
        }
        None
    }
}

proof fn lemma_sorts_strict_carries(a: Seq<char>, b: Seq<char>, c: Seq<char>)
    requires
        sorts_before(a, b),
        sorts_before(b, c),
    ensures
        sorts_before(a, c),
{
    lemma_sorts_one_way(a, b);
    lemma_sorts_one_way(b, c);
    lemma_sorts_carries(a, b, c);
    lemma_sorts_one_way(a, c);
    if a == c {
        assert(false);
    }
}

} // verus!
