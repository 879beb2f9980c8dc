//! Double-precision numbers, computed exactly.
//!
//! Percentages, seconds and thresholds are doubles in the sense of IEEE 754.
//! A [`Double`] holds the sixty-four bits of one. Every operation is defined
//! over mathematical integers: take the exact result and round it to the
//! nearest double, ties to the even one. A finite double is a whole number of
//! *units*, the unit being the smallest positive double, two to the power of
//! minus 1074, so every value below is an integer.

use vstd::arithmetic::div_mod::*;
use vstd::arithmetic::power2::*;
use vstd::prelude::*;

use crate::bignat::BigNat;

verus! {

/// The bits of infinity; a larger magnitude is not a number.
pub const INFINITY: u64 = 0x7ff0_0000_0000_0000;

/// The bits of the result of an operation that has none.
pub const NOT_A_NUMBER: u64 = 0x7ff8_0000_0000_0000;

/// The bit that holds the sign.
pub const SIGN: u64 = 0x8000_0000_0000_0000;

/// Two to the power of 52: one step of the exponent field.
pub const STEP: u64 = 0x10_0000_0000_0000;

/// A double-precision number, by its bits.
#[derive(Clone, Copy, Debug, PartialEq, Eq, Structural)]
pub struct Double {
    pub bits: u64,
}

/// How many units the finite double with this magnitude counts. Infinity
/// counts one step more than the largest finite one.
pub open spec fn units(m: nat) -> nat {
    if m < 0x10_0000_0000_0000 {
        m
    } else {
        (0x10_0000_0000_0000 + m % 0x10_0000_0000_0000) * pow2((m / 0x10_0000_0000_0000 - 1) as nat)
    }
}

/// How many units make one.
pub open spec fn one() -> nat {
    pow2(1074)
}

/// The whole number nearest to `num / den`, the even one of two.
pub open spec fn round_even(num: nat, den: nat) -> nat {
    let q = num / den;
    let r = num % den;
    if 2 * r > den || (2 * r == den && q % 2 == 1) {
        q + 1
    } else {
        q
    }
}

/// The magnitude of the double nearest to `num / den` units, were there no
/// largest one: each step of the exponent doubles what the lowest bit counts.
pub open spec fn nearest(num: nat, den: nat) -> nat
    decreases num - den,
{
    if den == 0 || num < den * 0x20_0000_0000_0000 {
        round_even(num, den)
    } else {
        0x10_0000_0000_0000 + nearest(num, 2 * den)
    }
}

/// The magnitude of the double nearest to `num / den` units.
pub open spec fn rounded(num: nat, den: nat) -> nat {
    if nearest(num, den) < INFINITY {
        nearest(num, den)
    } else {
        INFINITY as nat
    }
}

/// The double with this sign and magnitude.
pub open spec fn signed(negative: bool, m: nat) -> Double {
    Double {
        bits: if negative {
            (m + SIGN) as u64
        } else {
            m as u64
        },
    }
}

/// The double that is not a number.
pub open spec fn nan() -> Double {
    Double { bits: NOT_A_NUMBER }
}

/// The double nearest to a whole number.
pub open spec fn whole(n: int) -> Double {
    if n < 0 {
        signed(true, rounded((-n) as nat * one(), 1))
    } else {
        signed(false, rounded(n as nat * one(), 1))
    }
}

/// The sum of two doubles.
pub open spec fn sum(a: Double, b: Double) -> Double {
    if a.is_nan() || b.is_nan() {
        nan()
    } else if a.is_infinite() {
        if b.is_infinite() && a.negative() != b.negative() {
            nan()
        } else {
            a
        }
    } else if b.is_infinite() {
        b
    } else {
        let v = a.value() + b.value();
        if v == 0 {
            signed(a.negative() && b.negative(), 0)
        } else if v < 0 {
            signed(true, rounded((-v) as nat, 1))
        } else {
            signed(false, rounded(v as nat, 1))
        }
    }
}

/// A double with its sign turned.
pub open spec fn negated(a: Double) -> Double {
    signed(!a.negative(), a.magnitude())
}

/// The difference of two doubles.
pub open spec fn difference(a: Double, b: Double) -> Double {
    sum(a, negated(b))
}

/// The product of two doubles.
pub open spec fn product(a: Double, b: Double) -> Double {
    let negative = a.negative() != b.negative();
    if a.is_nan() || b.is_nan() {
        nan()
    } else if a.is_infinite() || b.is_infinite() {
        if a.magnitude() == 0 || b.magnitude() == 0 {
            nan()
        } else {
            signed(negative, INFINITY as nat)
        }
    } else {
        signed(negative, rounded(units(a.magnitude()) * units(b.magnitude()), one()))
    }
}

/// The quotient of two doubles.
pub open spec fn quotient(a: Double, b: Double) -> Double {
    let negative = a.negative() != b.negative();
    if a.is_nan() || b.is_nan() {
        nan()
    } else if a.is_infinite() {
        if b.is_infinite() {
            nan()
        } else {
            signed(negative, INFINITY as nat)
        }
    } else if b.is_infinite() {
        signed(negative, 0)
    } else if b.magnitude() == 0 {
        if a.magnitude() == 0 {
            nan()
        } else {
            signed(negative, INFINITY as nat)
        }
    } else {
        signed(negative, rounded(units(a.magnitude()) * one(), units(b.magnitude())))
    }
}

/// Is the first double smaller than the second? Never, with one that is not a
/// number.
pub open spec fn below(a: Double, b: Double) -> bool {
    !a.is_nan() && !b.is_nan() && a.value() < b.value()
}

/// Is the first double at most the second? Never, with one that is not a
/// number.
pub open spec fn at_most(a: Double, b: Double) -> bool {
    !a.is_nan() && !b.is_nan() && a.value() <= b.value()
}

/// The larger of two doubles, the other one where one is not a number.
pub open spec fn larger(a: Double, b: Double) -> Double {
    if a.is_nan() || below(a, b) {
        b
    } else {
        a
    }
}

proof fn lemma_step_is_power()
    ensures
        pow2(52) == STEP,
        pow2(53) == 2 * STEP,
        pow2(1) == 2,
        pow2(0) == 1,
        pow2(31) == 0x8000_0000,
{
    lemma2_to64();
    lemma2_to64_rest();
}

proof fn lemma_nearest_step(num: nat, den: nat)
    requires
        den > 0,
        num >= den * 0x20_0000_0000_0000,
    ensures
        nearest(num, den) == STEP + nearest(num, 2 * den),
{
}

/// Where the quotient is large, `j` steps of the exponent go at once.
pub proof fn lemma_nearest_jump(num: nat, den: nat, j: nat)
    requires
        den > 0,
        num >= (den * pow2(53)) * pow2(j),
    ensures
        nearest(num, den) == j * STEP + nearest(num, den * pow2(j)),
    decreases j,
{
    lemma_step_is_power();
    if j == 0 {
        assert(den * pow2(0) == den) by (nonlinear_arith)
            requires
                pow2(0) == 1,
        ;
    } else {
        let k = (j - 1) as nat;
        lemma_pow2_unfold(j);
        lemma_pow2_pos(k);
        let p = pow2(k);
        assert((den * pow2(53)) * (2 * p) == (2 * den * pow2(53)) * p) by (nonlinear_arith);
        assert(num >= den * 0x20_0000_0000_0000) by (nonlinear_arith)
            requires
                num >= (den * 0x20_0000_0000_0000) * (2 * p),
                p >= 1,
                den >= 0,
        ;
        lemma_nearest_step(num, den);
        assert((2 * den) * pow2(53) == 2 * den * pow2(53));
        lemma_nearest_jump(num, 2 * den, k);
        assert((2 * den) * p == den * (2 * p)) by (nonlinear_arith);
    }
}

/// Long division that ends with `rem` has found quotient and remainder.
proof fn lemma_divided(p: nat, dd: nat, t: nat, m: nat, rem: nat)
    requires
        dd > 0,
        t > 0,
        p * t == m * (dd * t) + rem,
        rem < dd * t,
    ensures
        p / dd == m,
        rem == (p % dd) * t,
{
    let r = p - m * dd;
    assert(rem == r * t) by (nonlinear_arith)
        requires
            p * t == m * (dd * t) + rem,
            r == p - m * dd,
    ;
    assert(0 <= r < dd) by (nonlinear_arith)
        requires
            0 <= r * t < dd * t,
            t > 0,
    ;
    assert(p == m * dd + r);
    lemma_fundamental_div_mod_converse(p as int, dd as int, m as int, r);
}

/// The magnitude of the double nearest to `p / q` units.
pub fn round_quotient(p: &BigNat, q: &BigNat) -> (r: u64)
    requires
        q@ > 0,
    ensures
        r == rounded(p@, q@),
{
    let ghost num = p@;
    let ghost den = q@;
    let mut d: BigNat = q.copy();
    d.shift(53);
    let mut s: u64 = 0;
    let ghost mut dd: nat = den;
    let mut far: BigNat = d.copy();
    far.shift(31);
    let mut near: bool = p.less(&far);
    while s < 2047 && !near
        invariant
            p@ == num,
            s <= 2047 + 31,
            dd > 0,
            d@ == dd * pow2(53),
            far@ == d@ * pow2(31),
            near == (num < far@),
            nearest(num, den) == s * STEP + nearest(num, dd),
        decreases 2047 + 31 - s,
    {
        proof {
            lemma_nearest_jump(num, dd, 31);
            lemma_pow2_pos(31);
            let x = dd * pow2(31);
            assert((dd * pow2(53)) * pow2(31) == x * pow2(53)) by (nonlinear_arith)
                requires
                    x == dd * pow2(31),
            ;
            assert(x > 0) by (nonlinear_arith)
                requires
                    dd > 0,
                    pow2(31) > 0,
                    x == dd * pow2(31),
            ;
            dd = x;
        }
        d = far;
        s += 31;
        far = d.copy();
        far.shift(31);
        near = p.less(&far);
    }
    let mut small: bool = p.less(&d);
    while s < 2047 && !small
        invariant
            p@ == num,
            s <= 2047 + 31,
            dd > 0,
            d@ == dd * pow2(53),
            small == (num < d@),
            nearest(num, den) == s * STEP + nearest(num, dd),
        decreases 2047 + 31 - s,
    {
        proof {
            lemma_step_is_power();
            lemma_nearest_step(num, dd);
            assert(2 * (dd * pow2(53)) == (2 * dd) * pow2(53)) by (nonlinear_arith);
            dd = 2 * dd;
        }
        d.mul_add(2, 0);
        s += 1;
        small = p.less(&d);
    }
    if s >= 2047 {
        assert(s * STEP >= INFINITY);
        return INFINITY;
    }
    let mut rem: BigNat = p.copy();
    let mut m: u64 = 0;
    let mut i: usize = 0;
    proof {
        lemma_step_is_power();
        assert(num * pow2(0) == num) by (nonlinear_arith)
            requires
                pow2(0) == 1,
        ;
    }
    while i < 53
        invariant
            i <= 53,
            m < pow2(i as nat),
            rem@ < d@,
            num * pow2(i as nat) == m * d@ + rem@,
        decreases 53 - i,
    {
        let ghost r0 = rem@;
        let ghost m0 = m;
        proof {
            lemma_step_is_power();
            if i < 52 {
                lemma_pow2_strictly_increases(i as nat, 52);
            }
            lemma_pow2_unfold((i + 1) as nat);
            let a = pow2(i as nat);
            assert(num * (2 * a) == 2 * (num * a)) by (nonlinear_arith);
            assert((2 * m) * d@ == 2 * (m * d@)) by (nonlinear_arith);
            assert((2 * m + 1) * d@ == 2 * (m * d@) + d@) by (nonlinear_arith);
        }
        rem.mul_add(2, 0);
        if rem.less(&d) {
            m = 2 * m;
        } else {
            rem.subtract(&d);
            m = 2 * m + 1;
        }
        i += 1;
    }
    proof {
        lemma_step_is_power();
        lemma_divided(num, dd, pow2(53), m as nat, rem@);
    }
    let ghost r = num % dd;
    rem.mul_add(2, 0);
    let up: bool = d.less(&rem) || (!rem.less(&d) && m % 2 == 1);
    proof {
        let t = pow2(53);
        assert((r * t) * 2 == (2 * r) * t) by (nonlinear_arith);
        assert((2 * r > dd) == ((2 * r) * t > dd * t)) by (nonlinear_arith)
            requires
                t > 0,
        ;
        assert((2 * r < dd) == ((2 * r) * t < dd * t)) by (nonlinear_arith)
            requires
                t > 0,
        ;
        assert(nearest(num, dd) == round_even(num, dd));
    }
    let total: u64 = s * STEP + m + if up {
        1
    } else {
        0
    };
    if total < INFINITY {
        total
    } else {
        INFINITY
    }
}

/// The units of a finite or infinite magnitude.
pub fn big_units(m: u64) -> (r: BigNat)
    requires
        m <= INFINITY,
    ensures
        r@ == units(m as nat),
{
    if m < STEP {
        BigNat::from_u64(m)
    } else {
        let mut b: BigNat = BigNat::from_u64(STEP + m % STEP);
        b.shift((m / STEP - 1) as usize);
        b
    }
}

/// A larger magnitude counts more units.
pub proof fn lemma_units_grow(a: nat, b: nat)
    requires
        a < b,
    ensures
        units(a) < units(b),
{
    let s: nat = 0x10_0000_0000_0000;
    let ea = a / s;
    let eb = b / s;
    lemma_step_is_power();
    if b < s {
    } else if a < s {
        lemma_pow2_pos((eb - 1) as nat);
        let p = pow2((eb - 1) as nat);
        assert((s + b % s) * p >= s) by (nonlinear_arith)
            requires
                p >= 1,
                s >= 0,
                b % s >= 0,
        ;
    } else if ea == eb {
        lemma_pow2_pos((eb - 1) as nat);
        let p = pow2((eb - 1) as nat);
        assert(a % s < b % s);
        let x = s + a % s;
        let y = s + b % s;
        assert(x * p < y * p) by (nonlinear_arith)
            requires
                x < y,
                p >= 1,
        ;
    } else {
        lemma_pow2_pos((ea - 1) as nat);
        let p = pow2((ea - 1) as nat);
        let q = pow2((eb - 1) as nat);
        lemma_pow2_unfold(ea);
        if ea < eb - 1 {
            lemma_pow2_strictly_increases(ea, (eb - 1) as nat);
        }
        assert(q >= 2 * p);
        let x = s + a % s;
        assert(x * p < (2 * s) * p) by (nonlinear_arith)
            requires
                x < 2 * s,
                p >= 1,
        ;
        assert((s + b % s) * q >= s * q) by (nonlinear_arith)
            requires
                q >= 0,
                b % s >= 0,
        ;
        assert(s * q >= s * (2 * p)) by (nonlinear_arith)
            requires
                q >= 2 * p,
                s >= 0,
        ;
        assert((2 * s) * p == s * (2 * p)) by (nonlinear_arith);
    }
}

/// A double is nearest to its own value.
pub proof fn lemma_nearest_exact(m: nat, den: nat)
    requires
        den > 0,
    ensures
        nearest(units(m) * den, den) == m,
    decreases m,
{
    let s: nat = 0x10_0000_0000_0000;
    let u = units(m);
    lemma_step_is_power();
    if m < 2 * s {
        if m >= s {
            assert(m / s == 1);
            assert((s + m % s) * pow2(0) == s + m % s) by (nonlinear_arith)
                requires
                    pow2(0) == 1,
            ;
        }
        assert(u == m);
        assert(u * den < den * 0x20_0000_0000_0000) by (nonlinear_arith)
            requires
                u < 0x20_0000_0000_0000,
                den > 0,
        ;
        lemma_fundamental_div_mod_converse((u * den) as int, den as int, u as int, 0);
    } else {
        let n = (m - s) as nat;
        let e = m / s;
        assert(n / s == e - 1 && n % s == m % s);
        lemma_pow2_unfold((e - 1) as nat);
        let p = pow2((e - 2) as nat);
        lemma_pow2_pos((e - 2) as nat);
        let f = s + m % s;
        assert(f * (2 * p) == 2 * (f * p)) by (nonlinear_arith);
        assert(u == 2 * units(n));
        assert(u >= 2 * s) by (nonlinear_arith)
            requires
                u == f * (2 * p),
                f >= s,
                p >= 1,
                s >= 0,
        ;
        assert(u * den >= den * 0x20_0000_0000_0000) by (nonlinear_arith)
            requires
                u >= 0x20_0000_0000_0000,
                den > 0,
        ;
        lemma_nearest_step(u * den, den);
        assert((2 * units(n)) * den == units(n) * (2 * den)) by (nonlinear_arith);
        lemma_nearest_exact(n, 2 * den);
    }
}

impl Double {
    /// The bits without the sign.
    pub open spec fn magnitude(&self) -> nat {
        (self.bits % 0x8000_0000_0000_0000) as nat
    }

    pub open spec fn negative(&self) -> bool {
        self.bits >= SIGN
    }

    pub open spec fn is_nan(&self) -> bool {
        self.magnitude() > INFINITY
    }

    pub open spec fn is_infinite(&self) -> bool {
        self.magnitude() == INFINITY
    }

    pub open spec fn is_finite(&self) -> bool {
        self.magnitude() < INFINITY
    }

    /// The value in units; for infinity, beyond every finite one.
    pub open spec fn value(&self) -> int {
        if self.negative() {
            -units(self.magnitude())
        } else {
            units(self.magnitude()) as int
        }
    }

    /// Is the value a whole number?
    pub open spec fn is_whole(&self) -> bool {
        self.is_finite() && units(self.magnitude()) % one() == 0
    }

    fn mag(&self) -> (r: u64)
        ensures
            r == self.magnitude(),
    {
        self.bits % SIGN
    }

    fn neg(&self) -> (r: bool)
        ensures
            r == self.negative(),
    {
        self.bits >= SIGN
    }

    fn make(negative: bool, m: u64) -> (r: Double)
        requires
            m <= INFINITY,
        ensures
            r == signed(negative, m as nat),
    {
        Double {
            bits: if negative {
                m + SIGN
            } else {
                m
            },
        }
    }

    pub fn nan() -> (r: Double)
        ensures
            r == nan(),
    {
        Double { bits: NOT_A_NUMBER }
    }

    pub fn zero() -> (r: Double)
        ensures
            r == signed(false, 0),
    {
        Double { bits: 0 }
    }

    pub fn finite(&self) -> (r: bool)
        ensures
            r == self.is_finite(),
    {
        self.mag() < INFINITY
    }

    pub fn from_u64(n: u64) -> (r: Double)
        ensures
            r == whole(n as int),
    {
        let mut p: BigNat = BigNat::from_u64(n);
        p.shift(1074);
        let q: BigNat = BigNat::from_u64(1);
        Double::make(false, round_quotient(&p, &q))
    }

    pub fn negate(&self) -> (r: Double)
        ensures
            r == negated(*self),
    {
        if self.neg() {
            Double { bits: self.mag() }
        } else {
            Double { bits: self.mag() + SIGN }
        }
    }

    pub fn abs(&self) -> (r: Double)
        ensures
            r == signed(false, self.magnitude()),
    {
        Double { bits: self.mag() }
    }

    pub fn plus(&self, b: &Double) -> (r: Double)
        ensures
            r == sum(*self, *b),
    {
        let ma: u64 = self.mag();
        let mb: u64 = b.mag();
        if ma > INFINITY || mb > INFINITY {
            return Double::nan();
        }
        if ma == INFINITY {
            if mb == INFINITY && self.neg() != b.neg() {
                return Double::nan();
            }
            return *self;
        }
        if mb == INFINITY {
            return *b;
        }
        let mut ua: BigNat = big_units(ma);
        let mut ub: BigNat = big_units(mb);
        let q: BigNat = BigNat::from_u64(1);
        if self.neg() == b.neg() {
            if ma == 0 && mb == 0 {
                return Double::make(self.neg(), 0);
            }
            proof {
                if ma > 0 {
                    lemma_units_grow(0, ma as nat);
                }
                if mb > 0 {
                    lemma_units_grow(0, mb as nat);
                }
            }
            ua.increase(&ub);
            Double::make(self.neg(), round_quotient(&ua, &q))
        } else if ua.less(&ub) {
            ub.subtract(&ua);
            Double::make(b.neg(), round_quotient(&ub, &q))
        } else if ub.less(&ua) {
            ua.subtract(&ub);
            Double::make(self.neg(), round_quotient(&ua, &q))
        } else {
            Double::make(false, 0)
        }
    }

    pub fn minus(&self, b: &Double) -> (r: Double)
        ensures
            r == difference(*self, *b),
    {
        self.plus(&b.negate())
    }

    pub fn times(&self, b: &Double) -> (r: Double)
        ensures
            r == product(*self, *b),
    {
        let ma: u64 = self.mag();
        let mb: u64 = b.mag();
        let negative: bool = self.neg() != b.neg();
        if ma > INFINITY || mb > INFINITY {
            return Double::nan();
        }
        if ma == INFINITY || mb == INFINITY {
            if ma == 0 || mb == 0 {
                return Double::nan();
            }
            return Double::make(negative, INFINITY);
        }
        let p: BigNat = big_units(ma).multiply(&big_units(mb));
        let mut q: BigNat = BigNat::from_u64(1);
        q.shift(1074);
        proof {
            lemma_pow2_pos(1074);
        }
        Double::make(negative, round_quotient(&p, &q))
    }

    pub fn over(&self, b: &Double) -> (r: Double)
        ensures
            r == quotient(*self, *b),
    {
        let ma: u64 = self.mag();
        let mb: u64 = b.mag();
        let negative: bool = self.neg() != b.neg();
        if ma > INFINITY || mb > INFINITY {
            return Double::nan();
        }
        if ma == INFINITY {
            if mb == INFINITY {
                return Double::nan();
            }
            return Double::make(negative, INFINITY);
        }
        if mb == INFINITY {
            return Double::make(negative, 0);
        }
        if mb == 0 {
            if ma == 0 {
                return Double::nan();
            }
            return Double::make(negative, INFINITY);
        }
        let mut p: BigNat = big_units(ma);
        p.shift(1074);
        let q: BigNat = big_units(mb);
        proof {
            lemma_units_grow(0, mb as nat);
        }
        Double::make(negative, round_quotient(&p, &q))
    }

    pub fn less(&self, b: &Double) -> (r: bool)
        ensures
            r == below(*self, *b),
    {
        let ma: u64 = self.mag();
        let mb: u64 = b.mag();
        if ma > INFINITY || mb > INFINITY {
            return false;
        }
        proof {
            lemma_value_order(*self, *b);
        }
        if self.neg() {
            if b.neg() {
                ma > mb
            } else {
                ma > 0 || mb > 0
            }
        } else {
            !b.neg() && ma < mb
        }
    }

    pub fn less_or_equal(&self, b: &Double) -> (r: bool)
        ensures
            r == at_most(*self, *b),
    {
        if self.mag() > INFINITY || b.mag() > INFINITY {
            return false;
        }
        !b.less(self)
    }

    /// At least this whole number?
    pub fn at_least(&self, n: u64) -> (r: bool)
        ensures
            r == at_most(whole(n as int), *self),
    {
        Double::from_u64(n).less_or_equal(self)
    }

    pub fn max(&self, b: &Double) -> (r: Double)
        ensures
            r == larger(*self, *b),
    {
        if self.mag() > INFINITY || self.less(b) {
            *b
        } else {
            *self
        }
    }
}

proof fn lemma_value_order(a: Double, b: Double)
    ensures
        (a.magnitude() < b.magnitude()) == (units(a.magnitude()) < units(b.magnitude())),
        (b.magnitude() < a.magnitude()) == (units(b.magnitude()) < units(a.magnitude())),
        (a.magnitude() == 0) == (units(a.magnitude()) == 0),
        (b.magnitude() == 0) == (units(b.magnitude()) == 0),
{
    if a.magnitude() < b.magnitude() {
        lemma_units_grow(a.magnitude(), b.magnitude());
    }
    if b.magnitude() < a.magnitude() {
        lemma_units_grow(b.magnitude(), a.magnitude());
    }
    if a.magnitude() > 0 {
        lemma_units_grow(0, a.magnitude());
    }
    if b.magnitude() > 0 {
        lemma_units_grow(0, b.magnitude());
    }
}

// ── rounding keeps order ───────────────────────────────────────────────

/// A larger fraction never rounds to a smaller whole number.
pub proof fn lemma_round_even_grows(n1: nat, d1: nat, n2: nat, d2: nat)
    requires
        d1 > 0,
        d2 > 0,
        n1 * d2 <= n2 * d1,
    ensures
        round_even(n1, d1) <= round_even(n2, d2),
{
    let q1 = n1 / d1;
    let r1 = n1 % d1;
    let q2 = n2 / d2;
    let r2 = n2 % d2;
    lemma_fundamental_div_mod(n1 as int, d1 as int);
    lemma_fundamental_div_mod(n2 as int, d2 as int);
    if q1 > q2 {
        assert(n1 * d2 > n2 * d1) by (nonlinear_arith)
            requires
                n1 == d1 * q1 + r1,
                n2 == d2 * q2 + r2,
                q1 >= q2 + 1,
                0 <= r1,
                r2 < d2,
                d1 > 0,
                d2 > 0,
        ;
    }
    if q1 == q2 {
        assert(r1 * d2 <= r2 * d1) by (nonlinear_arith)
            requires
                n1 == d1 * q1 + r1,
                n2 == d2 * q2 + r2,
                q1 == q2,
                n1 * d2 <= n2 * d1,
        ;
        if 2 * r1 > d1 {
            assert(2 * r2 > d2) by (nonlinear_arith)
                requires
                    2 * r1 > d1,
                    r1 * d2 <= r2 * d1,
                    d1 > 0,
                    d2 > 0,
            ;
        }
        if 2 * r1 == d1 {
            assert(2 * r2 >= d2) by (nonlinear_arith)
                requires
                    2 * r1 == d1,
                    r1 * d2 <= r2 * d1,
                    d1 > 0,
                    d2 > 0,
            ;
        }
    }
}

/// A larger fraction never rounds to a smaller double.
pub proof fn lemma_nearest_grows(n1: nat, d1: nat, n2: nat, d2: nat)
    requires
        d1 > 0,
        d2 > 0,
        n1 * d2 <= n2 * d1,
    ensures
        nearest(n1, d1) <= nearest(n2, d2),
        rounded(n1, d1) <= rounded(n2, d2),
    decreases n1 - d1 + n2,
{
    let t: nat = 0x20_0000_0000_0000;
    if n1 < d1 * t {
        if n2 < d2 * t {
            lemma_round_even_grows(n1, d1, n2, d2);
        } else {
            lemma_div_below(n1, d1, t);
            lemma_nearest_at_least(n2, d2);
        }
    } else if n2 < d2 * t {
        assert(n1 * d2 > n2 * d1) by (nonlinear_arith)
            requires
                n1 >= d1 * t,
                n2 < d2 * t,
                d1 > 0,
                d2 > 0,
        ;
    } else {
        assert(n1 * (2 * d2) <= n2 * (2 * d1)) by (nonlinear_arith)
            requires
                n1 * d2 <= n2 * d1,
        ;
        assert(n1 >= 2 * d1);
        lemma_nearest_grows(n1, 2 * d1, n2, 2 * d2);
    }
}

proof fn lemma_div_below(n: nat, d: nat, t: nat)
    requires
        d > 0,
        n < d * t,
    ensures
        round_even(n, d) <= t,
{
    lemma_fundamental_div_mod(n as int, d as int);
    let q = n / d;
    assert(q < t) by (nonlinear_arith)
        requires
            d * q <= n,
            n < d * t,
            d > 0,
    ;
}

/// Past the first step of the exponent the magnitude is past two of them.
proof fn lemma_nearest_at_least(n: nat, d: nat)
    requires
        d > 0,
        n >= d * 0x20_0000_0000_0000,
    ensures
        nearest(n, d) >= 0x20_0000_0000_0000,
    decreases n - d,
{
    let e = 2 * d;
    lemma_nearest_step(n, d);
    if n < e * 0x20_0000_0000_0000 {
        lemma_fundamental_div_mod(n as int, e as int);
        let q = n / e;
        let r = n % e;
        assert(q >= 0x10_0000_0000_0000) by (nonlinear_arith)
            requires
                n == e * q + r,
                r < e,
                e == 2 * d,
                n >= d * 0x20_0000_0000_0000,
                d > 0,
        ;
    } else {
        lemma_nearest_at_least(n, e);
    }
}

/// The units of a power of two.
pub proof fn lemma_units_of_power(e: nat)
    requires
        e >= 1,
    ensures
        units(e * STEP as nat) == pow2((51 + e) as nat),
{
    let s: nat = 0x10_0000_0000_0000;
    lemma_step_is_power();
    lemma_pow2_adds(52, (e - 1) as nat);
    assert((e * s) / s == e && (e * s) % s == 0) by (nonlinear_arith)
        requires
            s > 0,
    ;
    assert((s + 0) * pow2((e - 1) as nat) == pow2(52) * pow2((e - 1) as nat));
}

/// One is one.
pub proof fn lemma_whole_one()
    ensures
        whole(1).magnitude() == 1023 * STEP,
        units(whole(1).magnitude()) == one(),
        !whole(1).negative(),
{
    lemma_units_of_power(1023);
    lemma_nearest_exact(1023 * STEP as nat, 1);
    assert(1 * one() == one());
    assert(one() * 1 == one());
}

/// A positive whole number within the range of a `u64` is a positive, finite
/// double.
pub proof fn lemma_whole_positive(n: int)
    requires
        1 <= n <= u64::MAX,
    ensures
        0 < whole(n).magnitude() <= 1087 * STEP,
        !whole(n).negative(),
        whole(n).is_finite(),
        units(whole(n).magnitude()) <= pow2(1138),
        one() <= units(whole(n).magnitude()),
{
    let o = one();
    let k = n as nat;
    lemma_whole_one();
    lemma_units_of_power(1087);
    lemma_nearest_exact(1087 * STEP as nat, 1);
    lemma2_to64();
    lemma2_to64_rest();
    lemma_pow2_adds(64, 1074);
    lemma_pow2_pos(1074);
    assert(k * o * 1 <= pow2(1138) * 1) by (nonlinear_arith)
        requires
            k <= pow2(64),
            pow2(64) * o == pow2(1138),
            o >= 0,
    ;
    lemma_nearest_grows(k * o, 1, pow2(1138), 1);
    assert(1 * o * 1 <= k * o * 1) by (nonlinear_arith)
        requires
            k >= 1,
            o >= 0,
    ;
    lemma_nearest_grows(1 * o, 1, k * o, 1);
    let m = whole(n).magnitude();
    assert(m == rounded(k * o, 1));
    if m < 1087 * STEP {
        lemma_units_grow(m, 1087 * STEP as nat);
    }
    if 1023 * STEP < m {
        lemma_units_grow(1023 * STEP as nat, m);
    }
}

/// The quotient of positive whole numbers is positive.
pub proof fn lemma_whole_quotient_positive(a: int, b: int)
    requires
        1 <= a <= u64::MAX,
        1 <= b <= u64::MAX,
    ensures
        0 < quotient(whole(a), whole(b)).magnitude() <= INFINITY,
        !quotient(whole(a), whole(b)).negative(),
{
    lemma_whole_positive(a);
    lemma_whole_positive(b);
    let ua = units(whole(a).magnitude());
    let ub = units(whole(b).magnitude());
    let o = one();
    lemma_pow2_pos(1074);
    lemma_pow2_adds(1074, 1074);
    lemma_pow2_strictly_increases(1138, 2148);
    assert(ua * o >= ub) by (nonlinear_arith)
        requires
            ua >= o,
            o >= 1,
            o * o >= ub,
    ;
    lemma_units_grow(0, whole(b).magnitude());
    assert(1 * ub <= (ua * o) * 1);
    lemma_nearest_grows(1, 1, ua * o, ub);
    assert(nearest(1, 1) == 1);
}

/// Of two doubles that are not negative the one with the larger magnitude is
/// the larger.
pub proof fn lemma_magnitude_order(a: Double, b: Double)
    requires
        !a.negative(),
        !b.negative(),
        a.magnitude() <= b.magnitude() <= INFINITY,
    ensures
        at_most(a, b),
{
    if a.magnitude() < b.magnitude() {
        lemma_units_grow(a.magnitude(), b.magnitude());
    }
}

/// A larger divisor never gives a larger quotient.
pub proof fn lemma_quotient_falls(s: Double, t: Double, l: Double)
    requires
        !s.is_nan(),
        !s.negative(),
        t.is_finite(),
        l.is_finite(),
        !t.negative(),
        !l.negative(),
        0 < t.magnitude(),
        0 < l.magnitude(),
        at_most(t, l),
    ensures
        at_most(quotient(s, l), quotient(s, t)),
{
    lemma_units_grow(0, t.magnitude());
    lemma_units_grow(0, l.magnitude());
    let ql = quotient(s, l);
    let qt = quotient(s, t);
    if s.is_finite() {
        let us = units(s.magnitude());
        let ut = units(t.magnitude());
        let ul = units(l.magnitude());
        let n = us * one();
        assert(n * ut <= n * ul) by (nonlinear_arith)
            requires
                ut <= ul,
                n >= 0,
        ;
        lemma_nearest_grows(n, ul, n, ut);
        assert(ql == signed(false, rounded(n, ul)));
        assert(qt == signed(false, rounded(n, ut)));
    }
    lemma_magnitude_order(ql, qt);
}

/// Zero is zero.
pub proof fn lemma_whole_zero()
    ensures
        whole(0) == signed(false, 0),
{
    assert(0nat * one() == 0) by (nonlinear_arith);
    assert(nearest(0, 1) == round_even(0, 1));
}

/// How many halvings a number below two to the power of 53 takes from there.
spec fn shift_for(n: nat) -> nat
    decreases 0x20_0000_0000_0000 - n,
{
    if n == 0 || n >= 0x10_0000_0000_0000 {
        0
    } else {
        1 + shift_for(2 * n)
    }
}

proof fn lemma_shift(n: nat)
    requires
        0 < n < 0x20_0000_0000_0000,
    ensures
        0x10_0000_0000_0000 <= n * pow2(shift_for(n)) < 0x20_0000_0000_0000,
        shift_for(n) <= 52,
    decreases 0x20_0000_0000_0000 - n,
{
    lemma2_to64();
    if n >= 0x10_0000_0000_0000 {
        assert(n * 1 == n) by (nonlinear_arith);
    } else {
        let k = shift_for(2 * n);
        lemma_shift(2 * n);
        lemma_pow2_adds(1, k);
        assert(pow2(1 + k) == 2 * pow2(k));
        assert(n * (2 * pow2(k)) == (2 * n) * pow2(k)) by (nonlinear_arith);
        if k >= 52 {
            lemma_pow2_strictly_or_equal(k);
            assert((2 * n) * pow2(k) >= 2 * pow2(52)) by (nonlinear_arith)
                requires
                    n >= 1,
                    pow2(k) >= pow2(52),
            ;
            lemma2_to64_rest();
        }
    }
}

proof fn lemma_pow2_strictly_or_equal(k: nat)
    requires
        k >= 52,
    ensures
        pow2(k) >= pow2(52),
{
    if k > 52 {
        lemma_pow2_strictly_increases(52, k);
    }
}

/// A whole number below two to the power of 53 is a double, and counts as many
/// units as it should.
pub proof fn lemma_whole_exact(n: nat)
    requires
        n < 0x20_0000_0000_0000,
    ensures
        units(whole(n as int).magnitude()) == n * one(),
        whole(n as int).is_finite(),
        !whole(n as int).negative(),
{
    lemma_pow2_pos(1074);
    if n == 0 {
        lemma_whole_zero();
        assert(0nat * one() == 0) by (nonlinear_arith);
    } else {
        let k = shift_for(n);
        lemma_shift(n);
        let s = STEP as nat;
        let sig = n * pow2(k);
        let m = ((1074 - k + 1) * s + (sig - s)) as nat;
        assert(m / s == 1075 - k && m % s == sig - s) by {
            lemma_fundamental_div_mod_converse(m as int, s as int, 1075 - k, sig - s);
        }
        let e = (1074 - k) as nat;
        assert(units(m) == sig * pow2(e));
        lemma_pow2_adds(k, e);
        assert(sig * pow2(e) == n * one()) by (nonlinear_arith)
            requires
                sig == n * pow2(k),
                pow2(k) * pow2(e) == one(),
        ;
        lemma_nearest_exact(m, 1);
        assert(units(m) * 1 == units(m)) by (nonlinear_arith);
        assert(m < INFINITY);
        assert(whole(n as int) == signed(false, m));
    }
}

} // verus!
