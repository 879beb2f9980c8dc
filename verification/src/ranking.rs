//! Ranking stalls by a percentage, the largest first.

use vstd::prelude::*;

use crate::float::{Double, at_most, below};
use crate::psi::{PsiKind, Resource};
use crate::report::Stall;
use crate::sort::{Ranked, lemma_order_of, order_of, placed, stable_order};

verus! {

/// A percentage to rank by, larger ones ahead. What is not a number comes last.
pub struct Descending {
    pub value: Double,
}

impl Ranked for Descending {
    open spec fn ahead(&self, other: &Descending) -> bool {
        below(other.value, self.value) || (!self.value.is_nan() && other.value.is_nan())
    }

    proof fn ahead_one_way(a: &Descending, b: &Descending) {
    }

    proof fn ahead_carries(a: &Descending, b: &Descending, c: &Descending) {
    }

    fn goes_ahead(&self, other: &Descending) -> (r: bool) {
        let nan: bool = !other.value.less_or_equal(&other.value);
        other.value.less(&self.value) || (nan && self.value.less_or_equal(&self.value))
    }
}

/// A stall as a value to compare with.
pub struct StallView {
    pub unit: Seq<char>,
    pub cgroup: Seq<char>,
    pub resource: Resource,
    pub kind: PsiKind,
    pub delta_usec: u64,
    pub pressure_pct: Double,
    pub peak_pct: Double,
}

impl View for Stall {
    type V = StallView;

    open spec fn view(&self) -> StallView {
        StallView {
            unit: self.unit@,
            cgroup: self.cgroup@,
            resource: self.resource,
            kind: self.kind,
            delta_usec: self.delta_usec,
            pressure_pct: self.pressure_pct,
            peak_pct: self.peak_pct,
        }
    }
}

/// What stalls show.
pub open spec fn views(s: Seq<Stall>) -> Seq<StallView> {
    Seq::new(s.len(), |i: int| s[i]@)
}

/// The percentages to rank stalls by.
pub open spec fn rank_keys(s: Seq<StallView>, by_peak: bool) -> Seq<Descending> {
    Seq::new(
        s.len(),
        |i: int|
            Descending {
                value: if by_peak {
                    s[i].peak_pct
                } else {
                    s[i].pressure_pct
                },
            },
    )
}

/// The first places of an order, at most `limit` of them.
pub open spec fn leading(s: Seq<StallView>, order: Seq<usize>, limit: nat) -> Seq<StallView> {
    Seq::new(
        if order.len() < limit {
            order.len()
        } else {
            limit
        },
        |i: int| s[order[i] as int],
    )
}

/// Stalls with the worst first, at most `limit` of them; equals keep their
/// order.
pub open spec fn worst_first(s: Seq<StallView>, by_peak: bool, limit: nat) -> Seq<StallView> {
    leading(s, order_of(rank_keys(s, by_peak)), limit)
}

/// See [`worst_first`].
pub fn rank_stalls(stalls: &Vec<Stall>, by_peak: bool, limit: usize) -> (r: Vec<Stall>)
    ensures
        views(r@) == worst_first(views(stalls@), by_peak, limit as nat),
{
    let ghost all = views(stalls@);
    let mut keys: Vec<Descending> = Vec::new();
    let mut i: usize = 0;
    while i < stalls.len()
        invariant
            i <= stalls@.len(),
            all == views(stalls@),
            keys@ == rank_keys(all, by_peak).take(i as int),
        decreases stalls@.len() - i,
    {
        let value: Double = if by_peak {
            stalls[i].peak_pct
        } else {
            stalls[i].pressure_pct
        };
        let ghost before = keys@;
        keys.push(Descending { value });
        assert(keys@ =~= rank_keys(all, by_peak).take(i + 1));
        i += 1;
    }
    assert(keys@ =~= rank_keys(all, by_peak));
    let order: Vec<usize> = stable_order(&keys);
    let count: usize = if order.len() < limit {
        order.len()
    } else {
        limit
    };
    let mut out: Vec<Stall> = Vec::new();
    let mut k: usize = 0;
    while k < count
        invariant
            k <= count <= order@.len(),
            order@.len() == stalls@.len(),
            forall|a: int| 0 <= a < order@.len() ==> #[trigger] order@[a] < stalls@.len(),
            out@.len() == k,
            forall|a: int| 0 <= a < k ==> #[trigger] out@[a] == stalls@[order@[a] as int],
        decreases count - k,
    {
        out.push(stalls[order[k]].copy());
        k += 1;
    }
    assert(views(out@) =~= leading(all, order@, limit as nat));
    out
}

/// Every stall in a ranking is at least as bad as the ones after it.
pub proof fn lemma_worst_first_descends(s: Seq<StallView>, by_peak: bool, limit: nat, i: int, j: int)
    requires
        0 <= i < j < worst_first(s, by_peak, limit).len(),
        s.len() <= usize::MAX,
        forall|k: int| 0 <= k < s.len() ==> !(#[trigger] s[k]).peak_pct.is_nan(),
        forall|k: int| 0 <= k < s.len() ==> !(#[trigger] s[k]).pressure_pct.is_nan(),
    ensures
        by_peak ==> at_most(
            worst_first(s, by_peak, limit)[j].peak_pct,
            worst_first(s, by_peak, limit)[i].peak_pct,
        ),
        !by_peak ==> at_most(
            worst_first(s, by_peak, limit)[j].pressure_pct,
            worst_first(s, by_peak, limit)[i].pressure_pct,
        ),
{
    let keys = rank_keys(s, by_peak);
    let p = order_of(keys);
    lemma_order_of(keys);
    assert(placed(keys, p[i] as int, p[j] as int));
    let a = s[p[i] as int];
    let b = s[p[j] as int];
    assert(keys[p[i] as int].value == if by_peak {
        a.peak_pct
    } else {
        a.pressure_pct
    });
}

} // verus!
