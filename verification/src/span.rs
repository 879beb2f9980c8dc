//! Lengths of time.

use vstd::arithmetic::div_mod::*;
use vstd::arithmetic::power2::*;
use vstd::prelude::*;

use crate::decimal::{
    lemma_round_even_scaled, lemma_round_even_whole, lemma_units_parts, parts, pow10, power_of_two,
    round_scaled,
};
use crate::float::{
    Double, INFINITY, SIGN, STEP, at_most, lemma_magnitude_order, lemma_nearest_exact,
    lemma_nearest_grows, lemma_round_even_grows, lemma_units_grow, lemma_whole_exact,
    lemma_whole_one, one, quotient, round_even, rounded, signed, sum, units, whole,
};

verus! {

/// A length of time: whole seconds, and nanoseconds on top of them.
#[derive(Clone, Copy, Debug, PartialEq, Eq, Structural)]
pub struct Span {
    pub secs: u64,
    pub nanos: u32,
}

/// The double nearest to one over ten to the power of nine times `n`.
pub open spec fn billionths(n: int) -> Double {
    quotient(whole(n), whole(1_000_000_000))
}

/// A double in nanoseconds: its value times ten to the power of nine, rounded.
pub open spec fn rounded_nanos(x: Double) -> nat {
    round_even(units(x.magnitude()) * pow10(9), one())
}

impl Span {
    /// Fewer than a second's worth of nanoseconds.
    pub open spec fn sound(&self) -> bool {
        self.nanos < 1_000_000_000
    }

    /// All of it in nanoseconds.
    pub open spec fn total_nanos(&self) -> nat {
        (self.secs * 1_000_000_000 + self.nanos) as nat
    }

    /// All of it in seconds.
    pub open spec fn seconds(&self) -> Double {
        sum(whole(self.secs as int), billionths(self.nanos as int))
    }

    pub fn from_millis(ms: u64) -> (r: Span)
        ensures
            r.sound(),
            r.total_nanos() == ms * 1_000_000,
    {
        Span { secs: ms / 1000, nanos: (ms % 1000) as u32 * 1_000_000 }
    }

    pub fn from_secs(secs: u64) -> (r: Span)
        ensures
            r == (Span { secs, nanos: 0 }),
    {
        Span { secs, nanos: 0 }
    }

    /// See [`Span::seconds`].
    pub fn to_seconds(&self) -> (r: Double)
        ensures
            r == self.seconds(),
    {
        let part: Double = Double::from_u64(self.nanos as u64).over(
            &Double::from_u64(1_000_000_000),
        );
        Double::from_u64(self.secs).plus(&part)
    }

    /// The span of a number of seconds, rounded to the nanosecond.
    pub fn from_seconds(x: Double) -> (r: Span)
        requires
            !x.is_nan(),
            x.value() >= 0,
            rounded_nanos(x) < 0x1_0000_0000_0000_0000 * 1_000_000_000,
        ensures
            r.sound(),
            r.total_nanos() == rounded_nanos(x),
    {
        let m: u64 = x.bits % SIGN;
        let (sig, sh): (u64, u64) = parts(m);
        proof {
            lemma_units_parts(m as nat);
            lemma_pow2_pos(1074);
            lemma_pow2_pos(sh as nat);
            assert(pow10(9) == 1_000_000_000) by {
                reveal_with_fuel(pow10, 10);
            }
        }
        let nanos: u128 = if sh >= 1074 {
            let j: u64 = sh - 1074;
            proof {
                lemma_pow2_adds(j as nat, 1074);
                let p = pow2(j as nat);
                let o = one();
                let ten = pow10(9);
                assert((sig * (p * o)) * ten == ((sig * p) * ten) * o) by (nonlinear_arith);
                lemma_round_even_whole((sig * p) as nat * ten, o);
                assert(rounded_nanos(x) == (sig * p) * ten);
                lemma2_to64();
                assert(sig >= STEP);
                if j > 12 {
                    lemma_pow2_strictly_increases(12, j as nat);
                }
                if j >= 12 {
                    assert(sig * p >= 0x10_0000_0000_0000 * 4096) by (nonlinear_arith)
                        requires
                            sig >= 0x10_0000_0000_0000,
                            p >= 4096,
                    ;
                    assert(false);
                }
                lemma_pow2_strictly_increases(j as nat, 12);
                assert(sig * p <= 0x20_0000_0000_0000 * 4096) by (nonlinear_arith)
                    requires
                        0 <= sig <= 0x20_0000_0000_0000,
                        0 <= p <= 4096,
                ;
            }
            let p: u128 = power_of_two(j as u32);
            sig as u128 * p * 1_000_000_000
        } else {
            let k: u64 = 1074 - sh;
            proof {
                lemma_pow2_adds(k as nat, sh as nat);
                lemma_pow2_pos(k as nat);
                let p = pow2(sh as nat);
                let ten = pow10(9);
                assert((sig * p) * ten == (sig * ten) * p) by (nonlinear_arith);
                lemma_round_even_scaled(sig as nat * ten, pow2(k as nat), p);
            }
            round_scaled(sig, 9, k)
        };
        Span {
            secs: (nanos / 1_000_000_000) as u64,
            nanos: (nanos % 1_000_000_000) as u32,
        }
    }
}

// ── lengths in seconds ─────────────────────────────────────────────────

/// Fewer nanoseconds than make a second are less than a second.
proof fn lemma_billionths(n: nat)
    requires
        n <= 1_000_000_000,
    ensures
        !billionths(n as int).negative(),
        billionths(n as int).magnitude() <= whole(1).magnitude(),
        billionths(n as int).is_finite(),
        units(billionths(n as int).magnitude()) <= one(),
{
    lemma_billionths_grow(n, 1_000_000_000);
    lemma_whole_one();
    lemma_pow2_pos(1074);
    lemma_whole_exact(1_000_000_000);
    let u = units(whole(1_000_000_000).magnitude());
    assert(u > 0) by (nonlinear_arith)
        requires
            u == 1_000_000_000 * one(),
            one() > 0,
    ;
    lemma_nearest_exact(whole(1).magnitude(), u);
    assert(u * one() == one() * u) by (nonlinear_arith);
    assert(billionths(1_000_000_000).magnitude() == whole(1).magnitude());
    if billionths(n as int).magnitude() < whole(1).magnitude() {
        lemma_units_grow(billionths(n as int).magnitude(), whole(1).magnitude());
    }
}

proof fn lemma_billionths_grow(a: nat, b: nat)
    requires
        a <= b <= 1_000_000_000,
    ensures
        !billionths(a as int).negative(),
        !billionths(b as int).negative(),
        billionths(a as int).magnitude() <= billionths(b as int).magnitude() <= INFINITY,
{
    lemma_pow2_pos(1074);
    lemma_whole_exact(a);
    lemma_whole_exact(b);
    lemma_whole_exact(1_000_000_000);
    let u = units(whole(1_000_000_000).magnitude());
    assert(u > 0) by (nonlinear_arith)
        requires
            u == 1_000_000_000 * one(),
            one() > 0,
    ;
    let ua = units(whole(a as int).magnitude());
    let ub = units(whole(b as int).magnitude());
    assert((ua * one()) * u <= (ub * one()) * u) by (nonlinear_arith)
        requires
            ua == a * one(),
            ub == b * one(),
            a <= b,
            one() > 0,
            u > 0,
    ;
    lemma_nearest_grows(ua * one(), u, ub * one(), u);
}

/// A length in seconds is not negative, and lies between its whole seconds and
/// the next.
pub proof fn lemma_seconds(s: Span)
    requires
        s.sound(),
        s.secs + 1 < 0x20_0000_0000_0000,
    ensures
        !s.seconds().negative(),
        s.seconds().is_finite(),
        s.secs * one() <= units(s.seconds().magnitude()) <= (s.secs + 1) * one(),
{
    let n = s.secs as nat;
    lemma_pow2_pos(1074);
    lemma_whole_exact(n);
    lemma_whole_exact(n + 1);
    lemma_billionths(s.nanos as nat);
    let v = (units(whole(n as int).magnitude()) + units(
        billionths(s.nanos as int).magnitude(),
    )) as nat;
    assert(n * one() + one() == (n + 1) * one()) by (nonlinear_arith);
    assert(n * one() * 1 <= v * 1) by (nonlinear_arith)
        requires
            n * one() <= v,
    ;
    lemma_nearest_grows(n * one(), 1, v, 1);
    assert(v * 1 <= (n + 1) * one() * 1) by (nonlinear_arith)
        requires
            v <= (n + 1) * one(),
    ;
    lemma_nearest_grows(v, 1, (n + 1) * one(), 1);
    let m = rounded(v, 1);
    let low = whole(n as int).magnitude();
    let high = whole((n + 1) as int).magnitude();
    assert(low <= m <= high);
    if low < m {
        lemma_units_grow(low, m);
    }
    if m < high {
        lemma_units_grow(m, high);
    }
    if v == 0 {
        assert(n == 0) by (nonlinear_arith)
            requires
                n * one() == 0,
                one() > 0,
        ;
        assert(s.seconds() == signed(false, 0));
    } else {
        assert(s.seconds() == signed(false, m));
    }
}

/// A longer span is not fewer seconds.
pub proof fn lemma_seconds_grow(a: Span, b: Span)
    requires
        a.sound(),
        b.sound(),
        a.total_nanos() <= b.total_nanos(),
        b.secs + 1 < 0x20_0000_0000_0000,
    ensures
        at_most(a.seconds(), b.seconds()),
{
    assert(a.secs <= b.secs);
    lemma_seconds(a);
    lemma_seconds(b);
    if a.secs < b.secs {
        assert((a.secs + 1) * one() <= b.secs * one()) by (nonlinear_arith)
            requires
                a.secs + 1 <= b.secs,
        ;
    } else {
        lemma_whole_exact(a.secs as nat);
        lemma_billionths(a.nanos as nat);
        lemma_billionths(b.nanos as nat);
        lemma_billionths_grow(a.nanos as nat, b.nanos as nat);
        let w = units(whole(a.secs as int).magnitude());
        let ma = billionths(a.nanos as int).magnitude();
        let mb = billionths(b.nanos as int).magnitude();
        if ma < mb {
            lemma_units_grow(ma, mb);
        }
        let va = (w + units(ma)) as nat;
        let vb = (w + units(mb)) as nat;
        lemma_nearest_grows(va, 1, vb, 1);
        if va == 0 {
            assert(a.seconds() == signed(false, 0));
        } else {
            assert(a.seconds() == signed(false, rounded(va, 1)));
            assert(b.seconds() == signed(false, rounded(vb, 1)));
            lemma_magnitude_order(a.seconds(), b.seconds());
        }
    }
}

/// A number of seconds up to a span's own is a span again.
pub proof fn lemma_up_to_a_span_fits(x: Double, s: Span)
    requires
        s.sound(),
        s.secs + 1 < 0x20_0000_0000_0000,
        x.value() >= 0,
        at_most(x, s.seconds()),
    ensures
        rounded_nanos(x) < 0x1_0000_0000_0000_0000 * 1_000_000_000,
{
    lemma_seconds(s);
    lemma_pow2_pos(1074);
    assert(pow10(9) == 1_000_000_000) by {
        reveal_with_fuel(pow10, 10);
    }
    let u = units(x.magnitude());
    let n = (s.secs + 1) as nat;
    if x.negative() {
        assert(u == 0);
    }
    assert(u <= n * one()) by (nonlinear_arith)
        requires
            u == 0 || u <= n * one(),
            one() > 0,
            n >= 0,
    ;
    let all = n * 1_000_000_000;
    assert((u * 1_000_000_000) * one() <= (all * one()) * one()) by (nonlinear_arith)
        requires
            u <= n * one(),
            all == n * 1_000_000_000,
            one() > 0,
    ;
    lemma_round_even_grows(u * 1_000_000_000, one(), all * one(), one());
    lemma_round_even_whole(all, one());
}

} // verus!
