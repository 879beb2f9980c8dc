//! Natural numbers of any size.
//!
//! Only what the rounding of decimal and binary fractions needs: multiplying
//! and dividing by a small number, comparing, and subtracting.

use vstd::arithmetic::power2::*;
use vstd::prelude::*;

verus! {

/// The value of a run of limbs, the lowest first.
pub open spec fn limbs_value(s: Seq<u32>) -> nat
    decreases s.len(),
{
    if s.len() == 0 {
        0
    } else {
        limbs_value(s.drop_last()) + s.last() as nat * weight((s.len() - 1) as nat)
    }
}

/// What a limb at this place counts for.
pub open spec fn weight(i: nat) -> nat
    decreases i,
{
    if i == 0 {
        1
    } else {
        weight((i - 1) as nat) * 0x1_0000_0000
    }
}

/// A natural number of any size.
pub struct BigNat {
    limbs: Vec<u32>,
}

impl View for BigNat {
    type V = nat;

    closed spec fn view(&self) -> nat {
        limbs_value(self.limbs@)
    }
}

proof fn lemma_weight_pos(i: nat)
    ensures
        weight(i) > 0,
    decreases i,
{
    if i > 0 {
        lemma_weight_pos((i - 1) as nat);
    }
}

proof fn lemma_limbs_bound(s: Seq<u32>)
    ensures
        limbs_value(s) < weight(s.len()),
    decreases s.len(),
{
    if s.len() > 0 {
        lemma_limbs_bound(s.drop_last());
        let w = weight((s.len() - 1) as nat);
        let d = s.last() as nat;
        assert(d * w + w <= 0x1_0000_0000 * w) by (nonlinear_arith)
            requires
                0 <= d < 0x1_0000_0000,
                w >= 0,
        ;
    }
}

proof fn lemma_limbs_push(s: Seq<u32>, d: u32)
    ensures
        limbs_value(s.push(d)) == limbs_value(s) + d as nat * weight(s.len()),
{
    assert(s.push(d).drop_last() =~= s);
}

proof fn lemma_limbs_take(s: Seq<u32>, i: int)
    requires
        0 <= i < s.len(),
    ensures
        limbs_value(s.take(i + 1)) == limbs_value(s.take(i)) + s[i] as nat * weight(i as nat),
{
    assert(s.take(i + 1) =~= s.take(i).push(s[i]));
    lemma_limbs_push(s.take(i), s[i]);
}

/// Runs that agree from place `k` on differ by what stands below it.
proof fn lemma_limbs_same_top(s: Seq<u32>, t: Seq<u32>, k: int)
    requires
        0 <= k <= s.len(),
        s.len() == t.len(),
        forall|i: int| k <= i < s.len() ==> s[i] == t[i],
    ensures
        limbs_value(s) - limbs_value(s.take(k)) == limbs_value(t) - limbs_value(t.take(k)),
    decreases s.len() - k,
{
    if k < s.len() {
        lemma_limbs_same_top(s, t, k + 1);
        lemma_limbs_take(s, k);
        lemma_limbs_take(t, k);
    } else {
        assert(s.take(k) =~= s);
        assert(t.take(k) =~= t);
    }
}

proof fn lemma_limbs_zero_top(s: Seq<u32>, k: int)
    requires
        0 <= k <= s.len(),
        forall|i: int| k <= i < s.len() ==> s[i] == 0,
    ensures
        limbs_value(s) == limbs_value(s.take(k)),
    decreases s.len() - k,
{
    if k < s.len() {
        lemma_limbs_zero_top(s, k + 1);
        lemma_limbs_take(s, k);
        assert(s[k] as nat * weight(k as nat) == 0) by (nonlinear_arith)
            requires
                s[k] == 0,
        ;
    } else {
        assert(s.take(k) =~= s);
    }
}

proof fn lemma_limbs_at_least(s: Seq<u32>, k: int)
    requires
        0 <= k < s.len(),
        s[k] > 0,
    ensures
        limbs_value(s) >= weight(k as nat),
    decreases s.len() - k,
{
    let w = weight((s.len() - 1) as nat);
    lemma_weight_pos((s.len() - 1) as nat);
    let d = s.last() as nat;
    assert(d * w >= 0) by (nonlinear_arith)
        requires
            d >= 0,
            w >= 0,
    ;
    if k == s.len() - 1 {
        assert(d * w >= w) by (nonlinear_arith)
            requires
                d >= 1,
                w >= 0,
        ;
    } else {
        lemma_limbs_at_least(s.drop_last(), k);
    }
}

/// A longer number with a high limb that counts exceeds a shorter one.
proof fn lemma_limbs_longer(s: Seq<u32>, n: int, k: int)
    requires
        0 <= n <= k < s.len(),
        s[k] > 0,
    ensures
        limbs_value(s) >= weight(n as nat),
{
    lemma_limbs_at_least(s, k);
    lemma_weight_grows(n as nat, k as nat);
}

proof fn lemma_weight_grows(i: nat, j: nat)
    requires
        i <= j,
    ensures
        weight(i) <= weight(j),
    decreases j,
{
    if i < j {
        lemma_weight_grows(i, (j - 1) as nat);
    }
}

impl BigNat {
    pub fn from_u64(n: u64) -> (r: BigNat)
        ensures
            r@ == n,
    {
        let mut limbs: Vec<u32> = Vec::new();
        let low: u32 = (n % 0x1_0000_0000) as u32;
        let high: u32 = (n / 0x1_0000_0000) as u32;
        limbs.push(low);
        limbs.push(high);
        proof {
            reveal_with_fuel(weight, 3);
            let e = Seq::<u32>::empty();
            assert(limbs@ =~= e.push(low).push(high));
            lemma_limbs_push(e, low);
            lemma_limbs_push(e.push(low), high);
            assert(low as nat * weight(0) == low) by (nonlinear_arith)
                requires
                    weight(0) == 1,
            ;
            assert(weight(1) == 0x1_0000_0000);
            assert(high as nat * weight(1) == high * 0x1_0000_0000) by (nonlinear_arith)
                requires
                    weight(1) == 0x1_0000_0000,
            ;
        }
        BigNat { limbs }
    }

    pub fn copy(&self) -> (r: BigNat)
        ensures
            r@ == self@,
    {
        let mut limbs: Vec<u32> = Vec::new();
        let mut i: usize = 0;
        while i < self.limbs.len()
            invariant
                i <= self.limbs@.len(),
                limbs@ == self.limbs@.take(i as int),
            decreases self.limbs@.len() - i,
        {
            limbs.push(self.limbs[i]);
            i += 1;
        }
        assert(limbs@ =~= self.limbs@);
        BigNat { limbs }
    }

    /// Multiply by `k`, then add `c`.
    pub fn mul_add(&mut self, k: u32, c: u32)
        ensures
            final(self)@ == old(self)@ * k + c,
    {
        let ghost s0 = self.limbs@;
        let mut out: Vec<u32> = Vec::new();
        let mut carry: u64 = c as u64;
        let mut i: usize = 0;
        assert(s0.take(0) =~= Seq::<u32>::empty());
        assert(carry * weight(0) == carry && 0 * k == 0) by (nonlinear_arith)
            requires
                weight(0) == 1,
        ;
        while i < self.limbs.len()
            invariant
                i <= self.limbs@.len(),
                self.limbs@ == s0,
                out@.len() == i,
                carry < 0x1_0000_0000,
                limbs_value(out@) + carry * weight(i as nat) == limbs_value(s0.take(i as int)) * k
                    + c,
            decreases self.limbs@.len() - i,
        {
            let d: u32 = self.limbs[i];
            assert(d * k <= 0xffff_ffff * 0xffff_ffff) by (nonlinear_arith)
                requires
                    0 <= d <= 0xffff_ffff,
                    0 <= k <= 0xffff_ffff,
            ;
            let t: u64 = d as u64 * k as u64 + carry;
            let low: u32 = (t % 0x1_0000_0000) as u32;
            let high: u64 = t / 0x1_0000_0000;
            let ghost out0 = out@;
            out.push(low);
            proof {
                lemma_limbs_push(out0, low);
                lemma_limbs_take(s0, i as int);
                let w = weight(i as nat);
                let p = limbs_value(s0.take(i as int));
                assert(weight((i + 1) as nat) == w * 0x1_0000_0000);
                assert(t == low + high * 0x1_0000_0000);
                assert(low * w + high * (w * 0x1_0000_0000) == (low + high * 0x1_0000_0000) * w)
                    by (nonlinear_arith);
                assert((d * k + carry) * w == (d * w) * k + carry * w) by (nonlinear_arith);
                assert((p + d * w) * k == p * k + (d * w) * k) by (nonlinear_arith);
            }
            carry = high;
            i += 1;
        }
        assert(s0.take(i as int) =~= s0);
        if carry > 0 {
            let ghost out0 = out@;
            out.push(carry as u32);
            proof {
                lemma_limbs_push(out0, carry as u32);
            }
        } else {
            assert(carry * weight(i as nat) == 0) by (nonlinear_arith)
                requires
                    carry == 0,
            ;
        }
        self.limbs = out;
    }

    /// Multiply by a power of two.
    pub fn shift(&mut self, bits: usize)
        ensures
            final(self)@ == old(self)@ * pow2(bits as nat),
    {
        let ghost v0 = self@;
        let mut n: usize = bits;
        proof {
            lemma2_to64();
        }
        assert(v0 * pow2(0) == v0) by (nonlinear_arith)
            requires
                pow2(0) == 1,
        ;
        while n >= 16
            invariant
                n <= bits,
                self@ == v0 * pow2((bits - n) as nat),
            decreases n,
        {
            let ghost a = pow2((bits - n) as nat);
            self.mul_add(65536, 0);
            proof {
                lemma_pow2_adds((bits - n) as nat, 16);
                lemma2_to64();
                assert((v0 * a) * 65536 == v0 * (a * 65536)) by (nonlinear_arith);
            }
            n -= 16;
        }
        while n > 0
            invariant
                n <= bits,
                self@ == v0 * pow2((bits - n) as nat),
            decreases n,
        {
            let ghost a = pow2((bits - n) as nat);
            self.mul_add(2, 0);
            proof {
                lemma_pow2_adds((bits - n) as nat, 1);
                lemma2_to64();
                assert((v0 * a) * 2 == v0 * (a * 2)) by (nonlinear_arith);
            }
            n -= 1;
        }
    }

    /// Is this number smaller than the other?
    pub fn less(&self, other: &BigNat) -> (r: bool)
        ensures
            r == (self@ < other@),
    {
        let a: &Vec<u32> = &self.limbs;
        let b: &Vec<u32> = &other.limbs;
        let mut n: usize = a.len();
        assert(a@.take(n as int) =~= a@);
        while n > b.len()
            invariant
                n <= a@.len(),
                a@ == self.limbs@,
                b@ == other.limbs@,
                limbs_value(a@.take(n as int)) == self@,
            decreases n,
        {
            if a[n - 1] > 0 {
                proof {
                    lemma_limbs_bound(b@);
                    lemma_limbs_longer(a@.take(n as int), b@.len() as int, n - 1);
                }
                return false;
            }
            proof {
                lemma_limbs_take(a@, n - 1);
                assert(a@[n - 1] as nat * weight((n - 1) as nat) == 0) by (nonlinear_arith)
                    requires
                        a@[n - 1] == 0,
                ;
            }
            n -= 1;
        }
        let ghost n0 = n;
        let mut m: usize = b.len();
        assert(b@.take(m as int) =~= b@);
        while m > n
            invariant
                n <= m <= b@.len(),
                n <= a@.len(),
                a@ == self.limbs@,
                b@ == other.limbs@,
                limbs_value(a@.take(n as int)) == self@,
                limbs_value(b@.take(m as int)) == other@,
            decreases m,
        {
            if b[m - 1] > 0 {
                proof {
                    lemma_limbs_bound(a@.take(n as int));
                    lemma_limbs_longer(b@.take(m as int), n as int, m - 1);
                }
                return true;
            }
            proof {
                lemma_limbs_take(b@, m - 1);
                assert(b@[m - 1] as nat * weight((m - 1) as nat) == 0) by (nonlinear_arith)
                    requires
                        b@[m - 1] == 0,
                ;
            }
            m -= 1;
        }
        let mut i: usize = n;
        let ghost s = a@.take(n as int);
        let ghost t = b@.take(n as int);
        while i > 0
            invariant
                i <= n,
                n <= a@.len(),
                n <= b@.len(),
                s == a@.take(n as int),
                t == b@.take(n as int),
                limbs_value(s) == self@,
                limbs_value(t) == other@,
                forall|k: int| i <= k < n ==> s[k] == t[k],
            decreases i,
        {
            if a[i - 1] != b[i - 1] {
                proof {
                    lemma_limbs_same_top(s, t, i as int);
                    lemma_limbs_take(s, i - 1);
                    lemma_limbs_take(t, i - 1);
                    lemma_limbs_bound(s.take(i - 1));
                    lemma_limbs_bound(t.take(i - 1));
                    let w = weight((i - 1) as nat);
                    let x = s[i - 1] as nat;
                    let y = t[i - 1] as nat;
                    if x < y {
                        assert(x * w + w <= y * w) by (nonlinear_arith)
                            requires
                                x + 1 <= y,
                                w >= 0,
                        ;
                    } else {
                        assert(y * w + w <= x * w) by (nonlinear_arith)
                            requires
                                y + 1 <= x,
                                w >= 0,
                        ;
                    }
                }
                return a[i - 1] < b[i - 1];
            }
            i -= 1;
        }
        assert(s =~= t);
        false
    }

    /// Subtract a number that is not larger.
    pub fn subtract(&mut self, other: &BigNat)
        requires
            other@ <= old(self)@,
        ensures
            final(self)@ == old(self)@ - other@,
    {
        let ghost s0 = self.limbs@;
        let b: &Vec<u32> = &other.limbs;
        let mut out: Vec<u32> = Vec::new();
        let mut borrow: u64 = 0;
        let mut i: usize = 0;
        let ghost bt = other.limbs@;
        assert(s0.take(0) =~= Seq::<u32>::empty());
        assert(bt.take(0) =~= Seq::<u32>::empty());
        while i < self.limbs.len()
            invariant
                i <= self.limbs@.len(),
                self.limbs@ == s0,
                b@ == bt,
                out@.len() == i,
                borrow <= 1,
                limbs_value(out@) + limbs_value(bt.take(low_len(i as int, bt.len() as int)))
                    == limbs_value(s0.take(i as int)) + borrow * weight(i as nat),
            decreases self.limbs@.len() - i,
        {
            let d: u64 = self.limbs[i] as u64;
            let e: u64 = if i < b.len() {
                b[i] as u64
            } else {
                0
            };
            let (low, next): (u64, u64) = if d >= e + borrow {
                (d - e - borrow, 0)
            } else {
                (d + 0x1_0000_0000 - e - borrow, 1)
            };
            let ghost out0 = out@;
            out.push(low as u32);
            proof {
                lemma_limbs_push(out0, low as u32);
                lemma_limbs_take(s0, i as int);
                let w = weight(i as nat);
                assert(weight((i + 1) as nat) == w * 0x1_0000_0000);
                if i < bt.len() {
                    lemma_limbs_take(bt, i as int);
                } else {
                    assert(e * w == 0) by (nonlinear_arith)
                        requires
                            e == 0,
                    ;
                }
                assert(low + e + borrow == d + next * 0x1_0000_0000);
                assert(low * w + e * w + borrow * w == d * w + next * (w * 0x1_0000_0000))
                    by (nonlinear_arith)
                    requires
                        low + e + borrow == d + next * 0x1_0000_0000,
                ;
            }
            borrow = next;
            i += 1;
        }
        proof {
            assert(s0.take(i as int) =~= s0);
            let k = low_len(i as int, bt.len() as int);
            lemma_limbs_bound(out@);
            lemma_limbs_prefix_le(bt, k);
            if borrow == 1 {
                // then what was subtracted exceeds the number
                assert(false);
            }
            // any limbs of the subtrahend above are zero
            if k < bt.len() {
                lemma_limbs_bound(s0);
                assert forall|j: int| k <= j < bt.len() implies bt[j] == 0 by {
                    if bt[j] > 0 {
                        lemma_limbs_longer(bt, k, j);
                    }
                }
                lemma_limbs_zero_top(bt, k);
            } else {
                assert(bt.take(k) =~= bt);
            }
            assert(borrow * weight(i as nat) == 0) by (nonlinear_arith)
                requires
                    borrow == 0,
            ;
        }
        self.limbs = out;
    }

    /// Add another number.
    pub fn increase(&mut self, other: &BigNat)
        ensures
            final(self)@ == old(self)@ + other@,
    {
        let ghost s = self.limbs@;
        let ghost t = other.limbs@;
        let n: usize = if self.limbs.len() < other.limbs.len() {
            other.limbs.len()
        } else {
            self.limbs.len()
        };
        let mut out: Vec<u32> = Vec::new();
        let mut carry: u64 = 0;
        let mut i: usize = 0;
        assert(s.take(0) =~= Seq::<u32>::empty());
        assert(t.take(0) =~= Seq::<u32>::empty());
        while i < n
            invariant
                i <= n,
                n >= s.len(),
                n >= t.len(),
                self.limbs@ == s,
                other.limbs@ == t,
                out@.len() == i,
                carry <= 1,
                limbs_value(out@) + carry * weight(i as nat) == limbs_value(
                    s.take(low_len(i as int, s.len() as int)),
                ) + limbs_value(t.take(low_len(i as int, t.len() as int))),
            decreases n - i,
        {
            let d: u64 = if i < self.limbs.len() {
                self.limbs[i] as u64
            } else {
                0
            };
            let e: u64 = if i < other.limbs.len() {
                other.limbs[i] as u64
            } else {
                0
            };
            let total: u64 = d + e + carry;
            let low: u32 = (total % 0x1_0000_0000) as u32;
            let high: u64 = total / 0x1_0000_0000;
            let ghost out0 = out@;
            out.push(low);
            proof {
                lemma_limbs_push(out0, low);
                let w = weight(i as nat);
                assert(weight((i + 1) as nat) == w * 0x1_0000_0000);
                if i < s.len() {
                    lemma_limbs_take(s, i as int);
                } else {
                    assert(d * w == 0) by (nonlinear_arith)
                        requires
                            d == 0,
                    ;
                }
                if i < t.len() {
                    lemma_limbs_take(t, i as int);
                } else {
                    assert(e * w == 0) by (nonlinear_arith)
                        requires
                            e == 0,
                    ;
                }
                assert(low * w + high * (w * 0x1_0000_0000) == d * w + e * w + carry * w)
                    by (nonlinear_arith)
                    requires
                        low + high * 0x1_0000_0000 == d + e + carry,
                ;
            }
            carry = high;
            i += 1;
        }
        proof {
            assert(s.take(s.len() as int) =~= s);
            assert(t.take(t.len() as int) =~= t);
        }
        if carry > 0 {
            let ghost out0 = out@;
            out.push(carry as u32);
            proof {
                lemma_limbs_push(out0, carry as u32);
            }
        } else {
            assert(carry * weight(i as nat) == 0) by (nonlinear_arith)
                requires
                    carry == 0,
            ;
        }
        self.limbs = out;
    }

    /// The product with another number.
    pub fn multiply(&self, other: &BigNat) -> (r: BigNat)
        ensures
            r@ == self@ * other@,
    {
        let ghost t = other.limbs@;
        let mut acc: BigNat = BigNat::from_u64(0);
        let mut scaled: BigNat = self.copy();
        let mut i: usize = 0;
        proof {
            assert(t.take(0) =~= Seq::<u32>::empty());
            let v = self@;
            assert(v * weight(0) == v) by (nonlinear_arith)
                requires
                    weight(0) == 1,
            ;
            assert(v * 0 == 0);
        }
        while i < other.limbs.len()
            invariant
                i <= t.len(),
                other.limbs@ == t,
                acc@ == self@ * limbs_value(t.take(i as int)),
                scaled@ == self@ * weight(i as nat),
            decreases t.len() - i,
        {
            let mut term: BigNat = scaled.copy();
            term.mul_add(other.limbs[i], 0);
            acc.increase(&term);
            proof {
                lemma_limbs_take(t, i as int);
                let v = self@;
                let w = weight(i as nat);
                let a = limbs_value(t.take(i as int));
                let d = t[i as int] as nat;
                assert(v * (a + d * w) == v * a + (v * w) * d) by (nonlinear_arith);
                assert(((v * w) * 65536) * 65536 == v * (w * 0x1_0000_0000)) by (nonlinear_arith);
            }
            scaled.mul_add(65536, 0);
            scaled.mul_add(65536, 0);
            i += 1;
        }
        assert(t.take(t.len() as int) =~= t);
        acc
    }

    /// Divide by ten; the remainder is returned.
    pub fn div_ten(&mut self) -> (r: u32)
        ensures
            final(self)@ == old(self)@ / 10,
            r == old(self)@ % 10,
    {
        let ghost s0 = self.limbs@;
        let ghost v0 = self@;
        let mut rem: u64 = 0;
        let mut i: usize = self.limbs.len();
        assert(s0.take(i as int) =~= s0);
        // The limbs from `i` on are already quotients.
        while i > 0
            invariant
                i <= s0.len(),
                self.limbs@.len() == s0.len(),
                rem < 10,
                forall|k: int| 0 <= k < i ==> self.limbs@[k] == s0[k],
                limbs_value(s0) == v0,
                (limbs_value(self.limbs@) - limbs_value(self.limbs@.take(i as int))) * 10 + rem
                    * weight(i as nat) + limbs_value(s0.take(i as int)) == v0,
            decreases i,
        {
            let ghost cur = self.limbs@;
            i -= 1;
            let t: u64 = rem * 0x1_0000_0000 + self.limbs[i] as u64;
            let q: u32 = (t / 10) as u32;
            proof {
                lemma_limbs_take(s0, i as int);
                lemma_limbs_take(cur, i as int);
            }
            self.limbs.set(i, q);
            proof {
                let now = self.limbs@;
                lemma_limbs_take(now, i as int);
                assert(now.take(i as int) =~= cur.take(i as int));
                lemma_limbs_same_top(cur, now, i + 1);
                let w = weight(i as nat);
                let d = s0[i as int] as nat;
                let r2 = t % 10;
                assert(weight((i + 1) as nat) == w * 0x1_0000_0000);
                assert(q * 10 + r2 == rem * 0x1_0000_0000 + d);
                assert((q * w) * 10 + r2 * w == rem * (w * 0x1_0000_0000) + d * w)
                    by (nonlinear_arith)
                    requires
                        q * 10 + r2 == rem * 0x1_0000_0000 + d,
                ;
            }
            rem = t % 10;
        }
        proof {
            assert(self.limbs@.take(0) =~= Seq::<u32>::empty());
            assert(s0.take(0) =~= Seq::<u32>::empty());
            assert(rem * weight(0) == rem) by (nonlinear_arith)
                requires
                    weight(0) == 1,
            ;
            assert(limbs_value(self.limbs@) * 10 + rem == v0);
        }
        rem as u32
    }

    pub fn is_zero(&self) -> (r: bool)
        ensures
            r == (self@ == 0),
    {
        let mut i: usize = 0;
        while i < self.limbs.len()
            invariant
                i <= self.limbs@.len(),
                forall|k: int| 0 <= k < i ==> self.limbs@[k] == 0,
            decreases self.limbs@.len() - i,
        {
            if self.limbs[i] > 0 {
                proof {
                    lemma_limbs_at_least(self.limbs@, i as int);
                    lemma_weight_pos(i as nat);
                }
                return false;
            }
            i += 1;
        }
        proof {
            lemma_limbs_zero_top(self.limbs@, 0);
            assert(self.limbs@.take(0) =~= Seq::<u32>::empty());
        }
        true
    }
}

spec fn low_len(i: int, n: int) -> int {
    if i < n {
        i
    } else {
        n
    }
}

proof fn lemma_limbs_prefix_le(s: Seq<u32>, k: int)
    requires
        0 <= k <= s.len(),
    ensures
        limbs_value(s.take(k)) <= limbs_value(s),
    decreases s.len() - k,
{
    if k < s.len() {
        lemma_limbs_prefix_le(s, k + 1);
        lemma_limbs_take(s, k);
        assert(s[k] as nat * weight(k as nat) >= 0) by (nonlinear_arith)
            requires
                s[k] >= 0,
                weight(k as nat) >= 0,
        ;
    } else {
        assert(s.take(k) =~= s);
    }
}

} // verus!
