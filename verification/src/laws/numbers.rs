//! How close a computed share is to the true one.

use vstd::arithmetic::power2::{
    lemma2_to64, lemma2_to64_rest, lemma_pow2_adds, lemma_pow2_strictly_increases, pow2,
};
use vstd::prelude::*;

use crate::decimal::{fixed, pow10, with_places};
use crate::float::{
    Double, INFINITY, lemma_nearest_exact, lemma_nearest_grows, lemma_units_of_power,
    lemma_whole_exact, lemma_whole_positive, lemma_whole_zero, nearest, one, product, quotient,
    round_even, rounded, sum, units, whole,
};

use crate::span::rounded_nanos;

verus! {

/// Is this number `n` out of `d`, to within one part in a hundred thousand?
pub open spec fn is_about(v: Double, n: nat, d: nat) -> bool {
    &&& v.is_finite()
    &&& !v.negative()
    &&& 100_000 * (v.value() * d) <= 100_001 * (n * one())
    &&& 100_001 * (v.value() * d) >= 100_000 * (n * one())
}

/// Two products of one factor.
pub proof fn lemma_scale(a: int, b: int, c: int)
    requires
        a <= b,
        0 <= c,
    ensures
        a * c <= b * c,
{
    assert(a * c <= b * c) by (nonlinear_arith)
        requires
            a <= b,
            0 <= c,
    ;
}

pub proof fn lemma_unscale(a: int, b: int, c: int)
    requires
        a * c <= b * c,
        0 < c,
    ensures
        a <= b,
{
    assert(a <= b) by (nonlinear_arith)
        requires
            a * c <= b * c,
            0 < c,
    ;
}

proof fn lemma_units_double(m: nat)
    requires
        m >= 0x10_0000_0000_0000,
    ensures
        units(m + 0x10_0000_0000_0000) == 2 * units(m),
{
    let s: nat = 0x10_0000_0000_0000;
    let e = (m / s - 1) as nat;
    lemma2_to64();
    lemma_pow2_adds(1, e);
    assert((m + s) / s == m / s + 1);
    assert((m + s) % s == m % s);
    assert((s + m % s) * (2 * pow2(e)) == 2 * ((s + m % s) * pow2(e))) by (nonlinear_arith);
}

proof fn lemma_round_close(n: nat, d: nat)
    requires
        d > 0,
    ensures
        2 * (round_even(n, d) * d) <= 2 * n + d,
        2 * (round_even(n, d) * d) + d >= 2 * n,
{
    let q = n / d;
    let r = n % d;
    vstd::arithmetic::div_mod::lemma_fundamental_div_mod(n as int, d as int);
    assert(d * q == q * d) by (nonlinear_arith);
    assert((q + 1) * d == q * d + d) by (nonlinear_arith);
}

/// A number of 53 bits counts itself.
proof fn lemma_units_of_short(m: nat)
    requires
        0x10_0000_0000_0000 <= m <= 0x20_0000_0000_0000,
    ensures
        units(m) == m,
{
    let s: nat = 0x10_0000_0000_0000;
    lemma2_to64();
    if m < 2 * s {
        assert(m / s == 1 && m % s == m - s);
        assert((s + m % s) * pow2(0) == s + m % s) by (nonlinear_arith)
            requires
                pow2(0) == 1,
        ;
    } else {
        assert(m / s == 2 && m % s == 0);
        assert((s + m % s) * pow2(1) == 2 * (s + m % s)) by (nonlinear_arith)
            requires
                pow2(1) == 2,
        ;
    }
}

/// A rounded quotient is within one part in two to the power of 53.
proof fn lemma_nearest_close(n: nat, d: nat)
    requires
        d > 0,
        n >= d * 0x10_0000_0000_0000,
    ensures
        nearest(n, d) >= 0x10_0000_0000_0000,
        0x20_0000_0000_0000 * (units(nearest(n, d)) * d) <= 0x20_0000_0000_0001 * n,
        0x20_0000_0000_0000 * (units(nearest(n, d)) * d) >= 0x1f_ffff_ffff_ffff * n,
    decreases n - d,
{
    let s: nat = 0x10_0000_0000_0000;
    if n < d * 0x20_0000_0000_0000 {
        let m = round_even(n, d);
        lemma_round_close(n, d);
        vstd::arithmetic::div_mod::lemma_fundamental_div_mod(n as int, d as int);
        let q = n / d;
        assert(q >= s) by (nonlinear_arith)
            requires
                n == d * q + n % d,
                n % d < d,
                n >= d * s,
                d > 0,
                s > 0,
        ;
        assert(q < 2 * s) by (nonlinear_arith)
            requires
                n == d * q + n % d,
                n % d >= 0,
                n < d * (2 * s),
                d > 0,
        ;
        lemma_units_of_short(m);
        assert(nearest(n, d) == m);
        let x = m * d;
        assert(d * s <= n);
    } else {
        let e = 2 * d;
        assert(e * s == d * (2 * s)) by (nonlinear_arith)
            requires
                e == 2 * d,
        ;
        lemma_nearest_close(n, e);
        let m = nearest(n, e);
        lemma_units_double(m);
        assert(nearest(n, d) == s + m);
        assert((2 * units(m)) * d == units(m) * e) by (nonlinear_arith)
            requires
                e == 2 * d,
        ;
    }
}

/// A quotient below two to the power of 2000 units is finite.
pub proof fn lemma_nearest_finite(n: nat, d: nat)
    requires
        d > 0,
        n <= pow2(2000) * d,
    ensures
        nearest(n, d) < INFINITY,
        rounded(n, d) == nearest(n, d),
{
    let m: nat = 1949 * 0x10_0000_0000_0000;
    lemma_units_of_power(1949);
    lemma_nearest_exact(m, 1);
    assert(units(m) * 1 == pow2(2000));
    assert(n * 1 <= pow2(2000) * d);
    lemma_nearest_grows(n, d, units(m) * 1, 1);
}

/// Is `u` within one part in two to the power of 53 of `n` out of `d`?
pub open spec fn tight(u: nat, n: nat, d: nat) -> bool {
    &&& 0x20_0000_0000_0000 * (u * d) <= 0x20_0000_0000_0001 * n
    &&& 0x20_0000_0000_0000 * (u * d) >= 0x1f_ffff_ffff_ffff * n
}

pub proof fn lemma_rounded_is_tight(n: nat, d: nat)
    requires
        d > 0,
        d * 0x10_0000_0000_0000 <= n <= pow2(2000) * d,
    ensures
        rounded(n, d) < INFINITY,
        rounded(n, d) > 0,
        tight(units(rounded(n, d)), n, d),
{
    lemma_nearest_close(n, d);
    lemma_nearest_finite(n, d);
}

pub proof fn lemma_one_is_large()
    ensures
        one() >= 0x1_0000_0000_0000_0000 * 0x1_0000_0000_0000_0000,
        pow2(1138) == one() * 0x1_0000_0000_0000_0000,
        pow2(2000) > pow2(1138),
        pow2(2000) >= pow2(1138) * 0x1_0000_0000_0000_0000,
{
    lemma2_to64();
    lemma2_to64_rest();
    lemma_pow2_adds(64, 64);
    lemma_pow2_strictly_increases(128, 1074);
    lemma_pow2_strictly_increases(1138, 2000);
    lemma_pow2_adds(1074, 64);
    lemma_pow2_adds(1138, 64);
    lemma_pow2_strictly_increases(1202, 2000);
}

/// A whole number, as a double, is close to itself.
pub proof fn lemma_whole_is_tight(n: nat)
    requires
        1 <= n <= u64::MAX,
    ensures
        tight(units(whole(n as int).magnitude()), n * one(), 1),
        whole(n as int).is_finite(),
        !whole(n as int).negative(),
        one() <= units(whole(n as int).magnitude()) <= pow2(1138),
{
    lemma_whole_positive(n as int);
    lemma_one_is_large();
    let o = one();
    assert(o <= n * o <= u64::MAX * o) by (nonlinear_arith)
        requires
            1 <= n <= u64::MAX,
            o >= 0,
    ;
    assert(pow2(2000) * 1 == pow2(2000));
    lemma_rounded_is_tight(n * o, 1);
}

/// What two whole numbers make of each other, in percent.
pub open spec fn percent_of(a: int, b: int) -> Double {
    product(quotient(whole(a), whole(b)), whole(100))
}

proof fn lemma_regroup(x: int, e: int, f: int, p: int, b: int, o: int)
    ensures
        x * (b * o) * (f * e * e * p) == x * e * e * f * (p * b) * o,
{
    let z = f * e * e;
    assert((b * o) * (z * p) == z * (p * b) * o) by (nonlinear_arith);
    assert(x * (b * o) * (z * p) == x * ((b * o) * (z * p))) by (nonlinear_arith);
    let y = z * (p * b);
    assert(x * (y * o) == (x * y) * o) by (nonlinear_arith);
    let r = p * b;
    assert(x * (z * r) == (x * z) * r) by (nonlinear_arith);
    assert(x * z == x * e * e * f) by (nonlinear_arith)
        requires
            z == f * e * e,
    ;
}

proof fn lemma_regroup_other(e: int, h: int, g: int, a: int, o: int)
    ensures
        e * (100 * h * h * g * (a * o * o)) == e * h * h * g * (100 * a * o) * o,
{
    let k = h * h * g;
    let r = a * o;
    assert(100 * h * h * g == 100 * k) by (nonlinear_arith)
        requires
            k == h * h * g,
    ;
    assert(a * o * o == r * o);
    assert(e * h * h * g == e * k) by (nonlinear_arith)
        requires
            k == h * h * g,
    ;
    assert(100 * a * o == 100 * r) by (nonlinear_arith)
        requires
            r == a * o,
    ;
    assert(e * ((100 * k) * (r * o)) == (e * k) * (100 * r) * o) by (nonlinear_arith);
}

/// The steps of a share: `ua` and `ub` stand for the two numbers, `q` for their
/// quotient and `p` for a hundred times that.
proof fn lemma_steps(ua: nat, ub: nat, q: nat, p: nat, a: nat, b: nat, o: nat)
    requires
        a > 0,
        b > 0,
        o > 0,
        tight(ua, a * o, 1),
        tight(ub, b * o, 1),
        tight(q, ua * o, ub),
        tight(p, q * (100 * o), o),
    ensures
        100_000 * (p * b) <= 100_001 * (100 * a * o),
        100_001 * (p * b) >= 100_000 * (100 * a * o),
{
    let e: int = 0x20_0000_0000_0000;
    let h: int = e + 1;
    let l: int = e - 1;
    let (ua, ub, q, p, a, b, o) = (
        ua as int,
        ub as int,
        q as int,
        p as int,
        a as int,
        b as int,
        o as int,
    );
    // A hundred times the quotient.
    assert(e * p <= h * (100 * q) && e * p >= l * (100 * q)) by (nonlinear_arith)
        requires
            e * (p * o) <= h * (q * (100 * o)),
            e * (p * o) >= l * (q * (100 * o)),
            o > 0,
    ;
    // The quotient.
    let x = q * ub;
    let y = ua * o;
    assert(e * x <= h * y && e * x >= l * y);
    // The two numbers.
    assert(e * ua <= h * (a * o) && e * ua >= l * (a * o));
    assert(e * ub <= h * (b * o) && e * ub >= l * (b * o));
    lemma_upper(e, h, l, e, h, ua, ub, q, p, a, b, o);
    lemma_lower(e, h, l, e, l, ua, ub, q, p, a, b, o);
    let g = p * b;
    let t = 100 * a * o;
    assert(l * e * e * e * g <= e * h * h * h * t);
    assert(h * e * e * e * g >= e * l * l * l * t);
    assert(g >= 0) by (nonlinear_arith)
        requires
            p >= 0,
            b > 0,
            g == p * b,
    ;
    assert(t >= 0) by (nonlinear_arith)
        requires
            a > 0,
            o > 0,
            t == 100 * a * o,
    ;
    let k1 = l * e * e * e;
    let k2 = e * h * h * h;
    let k3 = h * e * e * e;
    let k4 = e * l * l * l;
    assert(100_000 * k2 <= 100_001 * k1 && k1 > 0);
    assert(100_001 * k4 >= 100_000 * k3 && k3 > 0);
    assert(100_000 * g <= 100_001 * t) by (nonlinear_arith)
        requires
            k1 * g <= k2 * t,
            100_000 * k2 <= 100_001 * k1,
            k1 > 0,
            t >= 0,
    ;
    assert(100_001 * g >= 100_000 * t) by (nonlinear_arith)
        requires
            k3 * g >= k4 * t,
            100_001 * k4 >= 100_000 * k3,
            k3 > 0,
            t >= 0,
    ;
}

#[verifier::spinoff_prover]
proof fn lemma_upper(
    e: int,
    h: int,
    l: int,
    f: int,
    g: int,
    ua: int,
    ub: int,
    q: int,
    p: int,
    a: int,
    b: int,
    o: int,
)
    requires
        0 < l < e < h,
        0 < f,
        0 < g,
        ua >= 0,
        ub >= 0,
        q >= 0,
        p >= 0,
        a > 0,
        b > 0,
        o > 0,
        e * p <= h * (100 * q),
        e * (q * ub) <= h * (ua * o),
        f * ua <= g * (a * o),
        e * ub >= l * (b * o),
    ensures
        l * e * e * f * (p * b) <= e * h * h * g * (100 * a * o),
{
    // e p ub <= 100 h q ub
    let s1 = e * p * ub;
    assert(s1 <= 100 * h * (q * ub)) by (nonlinear_arith)
        requires
            e * p <= h * (100 * q),
            ub >= 0,
            s1 == e * p * ub,
    ;
    // e e p ub <= 100 h h ua o
    assert(e * s1 <= 100 * h * h * (ua * o)) by (nonlinear_arith)
        requires
            s1 <= 100 * h * (q * ub),
            e * (q * ub) <= h * (ua * o),
            e > 0,
            h > 0,
    ;
    // f e e p ub <= 100 h h g a o o
    let hh = 100 * h * h;
    assert(hh > 0) by (nonlinear_arith)
        requires
            h > 0,
            hh == 100 * h * h,
    ;
    let es = e * s1;
    let uo = ua * o;
    assert(f * uo <= g * (a * o * o)) by (nonlinear_arith)
        requires
            f * ua <= g * (a * o),
            o > 0,
            uo == ua * o,
    ;
    assert(f * es <= hh * (f * uo)) by (nonlinear_arith)
        requires
            es <= hh * uo,
            f > 0,
    ;
    assert(hh * (f * uo) <= hh * (g * (a * o * o))) by (nonlinear_arith)
        requires
            f * uo <= g * (a * o * o),
            hh > 0,
    ;
    assert(hh * (g * (a * o * o)) == 100 * h * h * g * (a * o * o)) by (nonlinear_arith)
        requires
            hh == 100 * h * h,
    ;
    assert(f * (e * s1) <= 100 * h * h * g * (a * o * o));
    // l b o p f e e <= e ub p f e e
    let w = f * e * e * p;
    assert(w >= 0) by (nonlinear_arith)
        requires
            e > 0,
            f > 0,
            p >= 0,
            w == f * e * e * p,
    ;
    assert(l * (b * o) * w <= e * ub * w) by (nonlinear_arith)
        requires
            e * ub >= l * (b * o),
            w >= 0,
    ;
    assert(e * ub * w == e * (f * (e * s1))) by (nonlinear_arith)
        requires
            w == f * e * e * p,
            s1 == e * p * ub,
    ;
    assert(e * (f * (e * s1)) <= e * (100 * h * h * g * (a * o * o))) by (nonlinear_arith)
        requires
            f * (e * s1) <= 100 * h * h * g * (a * o * o),
            e > 0,
    ;
    let left = l * e * e * f * (p * b);
    let right = e * h * h * g * (100 * a * o);
    lemma_regroup(l, e, f, p, b, o);
    lemma_regroup_other(e, h, g, a, o);
    lemma_unscale(left, right, o);
}

#[verifier::spinoff_prover]
proof fn lemma_lower(
    e: int,
    h: int,
    l: int,
    f: int,
    g: int,
    ua: int,
    ub: int,
    q: int,
    p: int,
    a: int,
    b: int,
    o: int,
)
    requires
        0 < l < e < h,
        0 < f,
        0 < g,
        ua >= 0,
        ub >= 0,
        q >= 0,
        p >= 0,
        a > 0,
        b > 0,
        o > 0,
        e * p >= l * (100 * q),
        e * (q * ub) >= l * (ua * o),
        f * ua >= g * (a * o),
        e * ub <= h * (b * o),
    ensures
        h * e * e * f * (p * b) >= e * l * l * g * (100 * a * o),
{
    let s1 = e * p * ub;
    assert(s1 >= 100 * l * (q * ub)) by (nonlinear_arith)
        requires
            e * p >= l * (100 * q),
            ub >= 0,
            s1 == e * p * ub,
    ;
    assert(e * s1 >= 100 * l * l * (ua * o)) by (nonlinear_arith)
        requires
            s1 >= 100 * l * (q * ub),
            e * (q * ub) >= l * (ua * o),
            e > 0,
            l > 0,
    ;
    let ll = 100 * l * l;
    assert(ll > 0) by (nonlinear_arith)
        requires
            l > 0,
            ll == 100 * l * l,
    ;
    let es = e * s1;
    let uo = ua * o;
    assert(f * uo >= g * (a * o * o)) by (nonlinear_arith)
        requires
            f * ua >= g * (a * o),
            o > 0,
            uo == ua * o,
    ;
    assert(f * es >= ll * (f * uo)) by (nonlinear_arith)
        requires
            es >= ll * uo,
            f > 0,
    ;
    assert(ll * (f * uo) >= ll * (g * (a * o * o))) by (nonlinear_arith)
        requires
            f * uo >= g * (a * o * o),
            ll > 0,
    ;
    assert(ll * (g * (a * o * o)) == 100 * l * l * g * (a * o * o)) by (nonlinear_arith)
        requires
            ll == 100 * l * l,
    ;
    assert(f * (e * s1) >= 100 * l * l * g * (a * o * o));
    let w = f * e * e * p;
    assert(w >= 0) by (nonlinear_arith)
        requires
            e > 0,
            f > 0,
            p >= 0,
            w == f * e * e * p,
    ;
    assert(h * (b * o) * w >= e * ub * w) by (nonlinear_arith)
        requires
            e * ub <= h * (b * o),
            w >= 0,
    ;
    assert(e * ub * w == e * (f * (e * s1))) by (nonlinear_arith)
        requires
            w == f * e * e * p,
            s1 == e * p * ub,
    ;
    assert(e * (f * (e * s1)) >= e * (100 * l * l * g * (a * o * o))) by (nonlinear_arith)
        requires
            f * (e * s1) >= 100 * l * l * g * (a * o * o),
            e > 0,
    ;
    let left = h * e * e * f * (p * b);
    let right = e * l * l * g * (100 * a * o);
    lemma_regroup(h, e, f, p, b, o);
    lemma_regroup_other(e, l, g, a, o);
    lemma_unscale(right, left, o);
}

/// A share in percent is a hundred times the one number out of the other.
#[verifier::rlimit(50)]
pub proof fn lemma_percent_is_true(a: nat, b: nat)
    requires
        a <= u64::MAX,
        1 <= b <= u64::MAX,
    ensures
        is_about(percent_of(a as int, b as int), 100 * a, b),
{
    let o = one();
    lemma_one_is_large();
    lemma_whole_is_tight(b);
    lemma_whole_exact(100);
    let ub = units(whole(b as int).magnitude());
    if a == 0 {
        lemma_whole_zero();
        lemma_rounded_zero(ub);
        lemma_rounded_zero(o);
        assert(0 * o == 0) by (nonlinear_arith);
        assert(units(0) == 0);
        assert(0 * units(whole(100).magnitude()) == 0) by (nonlinear_arith);
        assert(percent_of(0, b as int).magnitude() == 0);
        assert(0 * b == 0) by (nonlinear_arith);
    } else {
        lemma_whole_is_tight(a);
        let ua = units(whole(a as int).magnitude());
        lemma_quotient_range(ua, ub, o);
        lemma_rounded_is_tight(ua * o, ub);
        let qm = rounded(ua * o, ub);
        let q = units(qm);
        assert(quotient(whole(a as int), whole(b as int)).magnitude() == qm);
        lemma_product_range(ua, ub, q, o);
        assert(units(whole(100).magnitude()) == 100 * o);
        lemma_rounded_is_tight(q * (100 * o), o);
        let p = units(rounded(q * (100 * o), o));
        assert(percent_of(a as int, b as int).magnitude() == rounded(q * (100 * o), o));
        lemma_steps(ua, ub, q, p, a, b, o);
        assert(100 * a * o == (100 * a) * o);
    }
}

pub proof fn lemma_rounded_zero(d: nat)
    requires
        d > 0,
    ensures
        rounded(0, d) == 0,
{
    assert(0 < d * 0x20_0000_0000_0000) by (nonlinear_arith)
        requires
            d > 0,
    ;
    assert(0nat / d == 0 && 0nat % d == 0) by (nonlinear_arith)
        requires
            d > 0,
    ;
}

proof fn lemma_quotient_range(ua: nat, ub: nat, o: nat)
    requires
        o == one(),
        o <= ua <= pow2(1138),
        o <= ub <= pow2(1138),
    ensures
        ub * 0x10_0000_0000_0000 <= ua * o <= pow2(2000) * ub,
{
    lemma_one_is_large();
    lemma2_to64();
    lemma2_to64_rest();
    lemma_pow2_adds(1074, 1074);
    lemma_pow2_adds(1138, 52);
    lemma_pow2_strictly_increases(1190, 2148);
    let k = pow2(1138);
    let t = pow2(2000);
    assert(ub * 0x10_0000_0000_0000 <= k * 0x10_0000_0000_0000);
    assert(o * o <= ua * o) by (nonlinear_arith)
        requires
            o <= ua,
    ;
    assert(ua * o <= t * ub) by (nonlinear_arith)
        requires
            ua <= k,
            k <= t,
            o <= ub,
    ;
}

proof fn lemma_product_range(ua: nat, ub: nat, q: nat, o: nat)
    requires
        o == one(),
        o <= ua <= pow2(1138),
        o <= ub <= pow2(1138),
        tight(q, ua * o, ub),
    ensures
        o * 0x10_0000_0000_0000 <= q * (100 * o) <= pow2(2000) * o,
{
    lemma_one_is_large();
    lemma2_to64();
    lemma2_to64_rest();
    lemma_pow2_adds(1074, 1074);
    lemma_pow2_adds(1138, 60);
    lemma_pow2_strictly_increases(1198, 2148);
    let k = pow2(1138);
    let t = pow2(2000);
    let e: nat = 0x20_0000_0000_0000;
    // Large enough.
    assert(o * o <= ua * o) by (nonlinear_arith)
        requires
            o <= ua,
    ;
    assert(e * (q * k) >= e * (q * ub)) by (nonlinear_arith)
        requires
            ub <= k,
    ;
    assert(q >= 0x10_0000_0000_0000) by {
        if q < 0x10_0000_0000_0000 {
            assert(q * k <= 0x10_0000_0000_0000 * k) by (nonlinear_arith)
                requires
                    q < 0x10_0000_0000_0000,
            ;
            assert(pow2(60) * k == pow2(1198)) by (nonlinear_arith)
                requires
                    pow2(1198) == pow2(1138) * pow2(60),
                    k == pow2(1138),
            ;
            assert(0x1f_ffff_ffff_ffff * (o * o) <= e * (0x10_0000_0000_0000 * k));
            assert(o * o == pow2(2148));
            assert(false);
        }
    }
    assert(o * 0x10_0000_0000_0000 <= q * (100 * o)) by (nonlinear_arith)
        requires
            q >= 0x10_0000_0000_0000,
            o >= 0,
    ;
    // Small enough.
    assert(e * (q * o) <= e * (q * ub)) by (nonlinear_arith)
        requires
            o <= ub,
    ;
    assert(q <= 2 * k) by (nonlinear_arith)
        requires
            e * (q * o) <= (e + 1) * (ua * o),
            ua <= k,
            o > 0,
            e == 0x20_0000_0000_0000,
    ;
    assert(q * (100 * o) <= t * o) by (nonlinear_arith)
        requires
            q <= 2 * k,
            200 * k <= t,
            o >= 0,
    ;
}

/// A quotient is the one number out of the other.
pub proof fn lemma_quotient_is_true(a: nat, b: nat)
    requires
        a <= u64::MAX,
        1 <= b <= u64::MAX,
    ensures
        is_about(quotient(whole(a as int), whole(b as int)), a, b),
{
    let o = one();
    lemma_one_is_large();
    lemma_whole_is_tight(b);
    let ub = units(whole(b as int).magnitude());
    if a == 0 {
        lemma_whole_zero();
        lemma_rounded_zero(ub);
        assert(0 * o == 0) by (nonlinear_arith);
        assert(units(0) == 0);
        assert(0 * b == 0) by (nonlinear_arith);
    } else {
        lemma_whole_is_tight(a);
        let ua = units(whole(a as int).magnitude());
        lemma_quotient_range(ua, ub, o);
        lemma_rounded_is_tight(ua * o, ub);
        let q = units(rounded(ua * o, ub));
        let e: int = 0x20_0000_0000_0000;
        let h: int = e + 1;
        let l: int = e - 1;
        let p = 100 * q as int;
        lemma_upper(e, h, l, e, h, ua as int, ub as int, q as int, p, a as int, b as int, o as int);
        lemma_lower(e, h, l, e, l, ua as int, ub as int, q as int, p, a as int, b as int, o as int);
        let g = p * b;
        let t = 100 * a * o;
        lemma_divide(e, h, l, e, h, l, g, t as int);
        assert(g == 100 * (q * b)) by (nonlinear_arith)
            requires
                g == p * b,
                p == 100 * q,
        ;
        assert(t == 100 * (a * o)) by (nonlinear_arith)
            requires
                t == 100 * a * o,
        ;
    }
}

/// Taking the small factors away.
proof fn lemma_divide(e: int, h: int, l: int, f: int, gh: int, gl: int, g: int, t: int)
    requires
        e == 0x20_0000_0000_0000,
        h == e + 1,
        l == e - 1,
        f >= 0x1_0000_0000_0000,
        f < gh <= f + 4,
        f > gl >= f - 4,
        t >= 0,
        l * e * e * f * g <= e * h * h * gh * t,
        h * e * e * f * g >= e * l * l * gl * t,
    ensures
        100_000 * g <= 100_001 * t,
        100_001 * g >= 100_000 * t,
{
    let k1 = l * e * e;
    let k2 = e * h * h;
    let k3 = h * e * e;
    let k4 = e * l * l;
    assert(1_000_000 * k2 <= 1_000_001 * k1 && k1 > 0);
    assert(1_000_001 * k4 >= 1_000_000 * k3 && k3 > 0);
    assert(100_000 * (k2 * gh) <= 100_001 * (k1 * f)) by (nonlinear_arith)
        requires
            1_000_000 * k2 <= 1_000_001 * k1,
            k1 > 0,
            f >= 0x1_0000_0000_0000,
            f < gh <= f + 4,
    ;
    assert(100_001 * (k4 * gl) >= 100_000 * (k3 * f)) by (nonlinear_arith)
        requires
            1_000_001 * k4 >= 1_000_000 * k3,
            k3 > 0,
            f >= 0x1_0000_0000_0000,
            f > gl >= f - 4,
    ;
    let m1 = k1 * f;
    let m2 = k2 * gh;
    let m3 = k3 * f;
    let m4 = k4 * gl;
    assert(m1 > 0 && m3 > 0) by (nonlinear_arith)
        requires
            m1 == k1 * f,
            m3 == k3 * f,
            k1 > 0,
            k3 > 0,
            f > 0,
    ;
    assert(m1 * g <= m2 * t && m3 * g >= m4 * t);
    assert(100_000 * g <= 100_001 * t) by (nonlinear_arith)
        requires
            m1 * g <= m2 * t,
            100_000 * m2 <= 100_001 * m1,
            m1 > 0,
            t >= 0,
    ;
    assert(100_001 * g >= 100_000 * t) by (nonlinear_arith)
        requires
            m3 * g >= m4 * t,
            100_001 * m4 >= 100_000 * m3,
            m3 > 0,
            t >= 0,
    ;
}

/// Seconds and nanoseconds together, as a double, are close to what they make.
#[verifier::rlimit(50)]
pub proof fn lemma_seconds_are_close(secs: nat, nanos: nat)
    requires
        secs < 0x20_0000_0000_0000,
        nanos < 1_000_000_000,
        secs + nanos > 0,
    ensures
        ({
            let v = sum(whole(secs as int), quotient(whole(nanos as int), whole(1_000_000_000)));
            let u = units(v.magnitude());
            let n = secs * 1_000_000_000 + nanos;
            let f: nat = 0x20_0000_0000_0000;
            &&& v.is_finite()
            &&& !v.negative()
            &&& f * (u * 1_000_000_000) <= (f + 3) * (n * one())
            &&& f * (u * 1_000_000_000) >= (f - 3) * (n * one())
            &&& u <= pow2(1138)
            &&& u * 0x4000_0000 >= one()
        }),
{
    let o = one();
    let e: nat = 0x20_0000_0000_0000;
    lemma_one_is_large();
    lemma_whole_exact(secs);
    lemma_whole_exact(nanos);
    lemma_whole_exact(1_000_000_000);
    let qd = quotient(whole(nanos as int), whole(1_000_000_000));
    let uq = units(qd.magnitude());
    let bn: nat = 1_000_000_000;
    let nano = nanos * o;
    assert(units(whole(1_000_000_000).magnitude()) == bn * o);
    if nanos == 0 {
        lemma_rounded_zero(bn * o);
        assert(0 * o == 0) by (nonlinear_arith);
        assert(units(0) == 0);
        assert(uq == 0);
    } else {
        assert((bn * o) * 0x10_0000_0000_0000 <= (nanos * o) * o) by (nonlinear_arith)
            requires
                nanos >= 1,
                o >= 0x1_0000_0000_0000_0000 * 0x1_0000_0000_0000_0000,
                bn == 1_000_000_000,
        ;
        assert((nanos * o) * o <= pow2(2000) * (bn * o)) by (nonlinear_arith)
            requires
                nanos < bn,
                o <= pow2(2000),
        ;
        lemma_rounded_is_tight((nanos * o) * o, bn * o);
        let x = e * (uq * bn);
        let y = nanos * o;
        assert(e * (uq * bn) <= (e + 1) * y && e * (uq * bn) >= (e - 1) * y) by (nonlinear_arith)
            requires
                e * (uq * (bn * o)) <= (e + 1) * (y * o),
                e * (uq * (bn * o)) >= (e - 1) * (y * o),
                o > 0,
        ;
    }
    assert(e * (uq * bn) <= (e + 1) * nano && e * (uq * bn) >= (e - 1) * nano);
    let so = secs * o;
    let all = so + uq;
    let n = secs * bn + nanos;
    assert(so * bn + nano == n * o) by (nonlinear_arith)
        requires
            so == secs * o,
            nano == nanos * o,
            n == secs * bn + nanos,
    ;
    assert(all * bn == so * bn + uq * bn) by (nonlinear_arith)
        requires
            all == so + uq,
    ;
    let z = n * o;
    let w = all * bn;
    let sb = so * bn;
    let qb = uq * bn;
    assert(0x20_0000_0000_0000 * qb <= 0x20_0000_0000_0001 * nano);
    assert(0x20_0000_0000_0000 * qb >= 0x1f_ffff_ffff_ffff * nano);
    assert(0x20_0000_0000_0000 * w <= 0x20_0000_0000_0001 * z);
    assert(0x20_0000_0000_0000 * w >= 0x1f_ffff_ffff_ffff * z);
    let most: nat = 9_007_199_254_740_992_000_000_000;
    assert(1 <= n <= most);
    assert(z >= o && z <= most * o) by (nonlinear_arith)
        requires
            z == n * o,
            1 <= n <= most,
            o > 0,
    ;
    assert(z <= 9_007_199_254_740_992_000_000_000 * o);
    assert(w == all * 1_000_000_000);
    assert(all >= 0x10_0000_0000_0000);
    assert(all * 1 == all);
    assert(w <= 2 * z);
    assert(all * 1_000_000_000 <= 18_014_398_509_481_984_000_000_000 * o);
    assert(all <= 18_014_398_509_481_984 * o);
    assert(pow2(1138) == 0x1_0000_0000_0000_0000 * o);
    assert(all <= pow2(2000));
    assert(pow2(2000) * 1 == pow2(2000));
    lemma_rounded_is_tight(all, 1);
    let v = sum(whole(secs as int), qd);
    let u = units(v.magnitude());
    assert(v.magnitude() == rounded(all, 1));
    assert(u * 1 == u);
    let ub = u * 1_000_000_000;
    assert(0x20_0000_0000_0000 * u <= 0x20_0000_0000_0001 * all);
    assert(0x20_0000_0000_0000 * u >= 0x1f_ffff_ffff_ffff * all);
    assert(0x20_0000_0000_0000 * ub <= 0x20_0000_0000_0003 * z);
    assert(0x20_0000_0000_0000 * ub >= 0x1f_ffff_ffff_fffd * z);
    assert(u <= 2 * all);
    assert(u <= pow2(1138));
}

/// A share of time, in percent: microseconds out of seconds.
pub open spec fn percent_of_time(usec: int, secs: int) -> Double {
    product(
        quotient(
            sum(
                whole(usec / 1_000_000),
                quotient(whole((usec % 1_000_000) * 1000), whole(1_000_000_000)),
            ),
            whole(secs),
        ),
        whole(100),
    )
}

/// A share of time is a hundred times the microseconds out of those in the
/// seconds.
#[verifier::rlimit(50)]
pub proof fn lemma_percent_of_time_is_true(usec: nat, secs: nat)
    requires
        usec <= u64::MAX,
        1 <= secs <= u64::MAX,
    ensures
        is_about(percent_of_time(usec as int, secs as int), 100 * usec, secs * 1_000_000),
{
    let o = one();
    let e: nat = 0x20_0000_0000_0000;
    let s: nat = usec / 1_000_000;
    let r: nat = (usec % 1_000_000) * 1000;
    lemma_one_is_large();
    lemma_whole_is_tight(secs);
    lemma_whole_exact(100);
    let ub = units(whole(secs as int).magnitude());
    assert(units(whole(100).magnitude()) == 100 * o);
    let time = sum(whole(s as int), quotient(whole(r as int), whole(1_000_000_000)));
    if usec == 0 {
        lemma_whole_zero();
        lemma_whole_exact(1_000_000_000);
        lemma_rounded_zero(units(whole(1_000_000_000).magnitude()));
        lemma_rounded_zero(ub);
        lemma_rounded_zero(o);
        assert(0 * o == 0) by (nonlinear_arith);
        assert(units(0) == 0);
        assert(0 * units(whole(100).magnitude()) == 0) by (nonlinear_arith);
        assert(quotient(whole(0), whole(1_000_000_000)).magnitude() == 0);
        assert(time.magnitude() == 0 && !time.negative());
        assert(percent_of_time(0, secs as int).magnitude() == 0);
        assert(0 * (secs * 1_000_000) == 0) by (nonlinear_arith);
    } else {
        lemma_seconds_are_close(s, r);
        let ut = units(time.magnitude());
        let n = s * 1_000_000_000 + r;
        assert(n == usec * 1000);
        lemma_time_ranges(ut, ub, o);
        lemma_rounded_is_tight(ut * o, ub);
        let qm = rounded(ut * o, ub);
        let q = units(qm);
        let qd = quotient(time, whole(secs as int));
        assert(qd.magnitude() == qm);
        lemma_time_product(ut, ub, q, o);
        lemma_rounded_is_tight(q * (100 * o), o);
        let p = units(rounded(q * (100 * o), o));
        assert(percent_of_time(usec as int, secs as int).magnitude() == rounded(q * (100 * o), o));
        lemma_time_steps(ut, ub, q, p, usec, secs, o);
    }
}

proof fn lemma_time_ranges(ut: nat, ub: nat, o: nat)
    requires
        o == one(),
        ut <= pow2(1138),
        ut * 0x4000_0000 >= o,
        o <= ub <= pow2(1138),
    ensures
        ub * 0x10_0000_0000_0000 <= ut * o <= pow2(2000) * ub,
{
    lemma_one_is_large();
    lemma2_to64();
    lemma2_to64_rest();
    lemma_pow2_adds(1074, 1074);
    lemma_pow2_adds(1138, 64);
    lemma_pow2_adds(1202, 64);
    lemma_pow2_strictly_increases(1266, 2148);
    let k = pow2(1138);
    let t = pow2(2000);
    assert(pow2(1266) == k * 0x1_0000_0000_0000_0000 * 0x1_0000_0000_0000_0000) by (nonlinear_arith)
        requires
            pow2(1202) == k * pow2(64),
            pow2(1266) == pow2(1202) * pow2(64),
            pow2(64) == 0x1_0000_0000_0000_0000,
    ;
    assert(ub * 0x10_0000_0000_0000 <= ut * o) by (nonlinear_arith)
        requires
            ub <= k,
            ut * 0x4000_0000 >= o,
            o * o >= k * 0x1_0000_0000_0000_0000 * 0x1_0000_0000_0000_0000,
            o > 0,
    ;
    assert(ut * o <= t * ub) by (nonlinear_arith)
        requires
            ut <= k,
            k <= t,
            o <= ub,
    ;
}

proof fn lemma_time_product(ut: nat, ub: nat, q: nat, o: nat)
    requires
        o == one(),
        ut <= pow2(1138),
        ut * 0x4000_0000 >= o,
        o <= ub <= pow2(1138),
        tight(q, ut * o, ub),
    ensures
        o * 0x10_0000_0000_0000 <= q * (100 * o) <= pow2(2000) * o,
{
    lemma_one_is_large();
    lemma2_to64();
    lemma2_to64_rest();
    lemma_pow2_adds(1074, 1074);
    lemma_pow2_adds(1138, 64);
    lemma_pow2_adds(1202, 64);
    lemma_pow2_strictly_increases(1266, 2148);
    let k = pow2(1138);
    let t = pow2(2000);
    let e: nat = 0x20_0000_0000_0000;
    assert(pow2(1266) == k * 0x1_0000_0000_0000_0000 * 0x1_0000_0000_0000_0000) by (nonlinear_arith)
        requires
            pow2(1202) == k * pow2(64),
            pow2(1266) == pow2(1202) * pow2(64),
            pow2(64) == 0x1_0000_0000_0000_0000,
    ;
    assert(o * o >= k * 0x1_0000_0000_0000_0000 * 0x1_0000_0000_0000_0000);
    assert(e * (q * k) >= e * (q * ub)) by (nonlinear_arith)
        requires
            ub <= k,
    ;
    assert(ut * o * 0x4000_0000 >= o * o) by (nonlinear_arith)
        requires
            ut * 0x4000_0000 >= o,
    ;
    let qk = q * k;
    assert(q >= 0x10_0000_0000_0000) by (nonlinear_arith)
        requires
            e * qk >= 0x1f_ffff_ffff_ffff * (ut * o),
            ut * o * 0x4000_0000 >= o * o,
            o * o >= k * 0x1_0000_0000_0000_0000 * 0x1_0000_0000_0000_0000,
            e == 0x20_0000_0000_0000,
            qk == q * k,
            k > 0,
    ;
    assert(o * 0x10_0000_0000_0000 <= q * (100 * o)) by (nonlinear_arith)
        requires
            q >= 0x10_0000_0000_0000,
            o >= 0,
    ;
    assert(e * (q * o) <= e * (q * ub)) by (nonlinear_arith)
        requires
            o <= ub,
    ;
    assert(q <= 2 * k) by (nonlinear_arith)
        requires
            e * (q * o) <= (e + 1) * (ut * o),
            ut <= k,
            o > 0,
            e == 0x20_0000_0000_0000,
    ;
    assert(q * (100 * o) <= t * o) by (nonlinear_arith)
        requires
            q <= 2 * k,
            200 * k <= t,
            o >= 0,
    ;
}

proof fn lemma_time_steps(ut: nat, ub: nat, q: nat, p: nat, usec: nat, secs: nat, o: nat)
    requires
        usec > 0,
        secs > 0,
        o > 0,
        0x20_0000_0000_0000 * (ut * 1_000_000_000) <= 0x20_0000_0000_0003 * (usec * 1000 * o),
        0x20_0000_0000_0000 * (ut * 1_000_000_000) >= 0x1f_ffff_ffff_fffd * (usec * 1000 * o),
        tight(ub, secs * o, 1),
        tight(q, ut * o, ub),
        tight(p, q * (100 * o), o),
    ensures
        100_000 * (p * (secs * 1_000_000)) <= 100_001 * (100 * usec * o),
        100_001 * (p * (secs * 1_000_000)) >= 100_000 * (100 * usec * o),
{
    let e: int = 0x20_0000_0000_0000;
    let h: int = e + 1;
    let l: int = e - 1;
    let gh: int = e + 3;
    let gl: int = e - 3;
    let m: int = 1_000_000;
    let (ut, ub, q, p, a, b, o) = (
        ut as int,
        ub as int,
        q as int,
        p as int,
        usec as int,
        secs as int,
        o as int,
    );
    let ua = ut * m;
    let qq = q * m;
    let pp = p * m;
    let ao = a * o;
    assert(usec * 1000 * o == 1000 * ao) by (nonlinear_arith)
        requires
            ao == a * o,
            a == usec,
    ;
    assert(e * ua <= gh * ao && e * ua >= gl * ao);
    assert(e * p <= h * (100 * q) && e * p >= l * (100 * q)) by (nonlinear_arith)
        requires
            e * (p * o) <= h * (q * (100 * o)),
            e * (p * o) >= l * (q * (100 * o)),
            o > 0,
    ;
    assert(e * pp <= h * (100 * qq) && e * pp >= l * (100 * qq));
    assert(qq * ub == m * (q * ub)) by (nonlinear_arith)
        requires
            qq == q * m,
    ;
    assert(ua * o == m * (ut * o)) by (nonlinear_arith)
        requires
            ua == ut * m,
    ;
    let x = q * ub;
    let y = ut * o;
    assert(e * (m * x) <= h * (m * y) && e * (m * x) >= l * (m * y));
    assert(e * ub <= h * (b * o) && e * ub >= l * (b * o));
    lemma_upper(e, h, l, e, gh, ua, ub, qq, pp, a, b, o);
    lemma_lower(e, h, l, e, gl, ua, ub, qq, pp, a, b, o);
    let g = pp * b;
    let t = 100 * a * o;
    assert(t >= 0) by (nonlinear_arith)
        requires
            a > 0,
            o > 0,
            t == 100 * a * o,
    ;
    lemma_divide(e, h, l, e, gh, gl, g, t);
    assert(g == p * (b * m)) by (nonlinear_arith)
        requires
            g == pp * b,
            pp == p * m,
    ;
}

/// Is this text `n` out of `d`, with so many places after the point? It is off
/// by half of the last place at most, but for the error of the number itself.
pub open spec fn shows(t: Seq<char>, n: nat, d: nat, places: nat) -> bool {
    exists|q: nat| #[trigger]
        with_places(q, places) == t && 200_000 * (q * d) <= 200_002 * (n * pow10(places)) + 100_000
            * d && 200_002 * (q * d) + 100_001 * d >= 200_000 * (n * pow10(places))
}

/// A number that is about `n` out of `d` is shown so.
pub proof fn lemma_shows(v: Double, n: nat, d: nat, places: nat)
    requires
        d > 0,
        is_about(v, n, d),
    ensures
        shows(fixed(v, places), n, d, places),
{
    let o = one();
    let u = units(v.magnitude());
    let t = pow10(places);
    let q = round_even(u * t, o);
    lemma_one_is_large();
    lemma_round_close(u * t, o);
    assert(fixed(v, places) =~= with_places(q, places));
    lemma_shown(u as int, t as int, q as int, n as int, d as int, o as int);
    assert(with_places(q, places) == fixed(v, places));
}

proof fn lemma_shown(u: int, t: int, q: int, n: int, d: int, o: int)
    requires
        u >= 0,
        t >= 0,
        q >= 0,
        n >= 0,
        d > 0,
        o > 0,
        2 * (q * o) <= 2 * (u * t) + o,
        2 * (q * o) + o >= 2 * (u * t),
        100_000 * (u * d) <= 100_001 * (n * o),
        100_001 * (u * d) >= 100_000 * (n * o),
    ensures
        200_000 * (q * d) <= 200_002 * (n * t) + 100_000 * d,
        200_002 * (q * d) + 100_001 * d >= 200_000 * (n * t),
{
    let qo = q * o;
    let ut = u * t;
    assert(2 * (qo * d) <= 2 * (ut * d) + o * d && 2 * (qo * d) + o * d >= 2 * (ut * d))
        by (nonlinear_arith)
        requires
            2 * qo <= 2 * ut + o,
            2 * qo + o >= 2 * ut,
            d > 0,
    ;
    let ud = u * d;
    let no = n * o;
    assert(100_000 * (ud * t) <= 100_001 * (no * t) && 100_001 * (ud * t) >= 100_000 * (no * t))
        by (nonlinear_arith)
        requires
            100_000 * ud <= 100_001 * no,
            100_001 * ud >= 100_000 * no,
            t >= 0,
    ;
    assert(ut * d == ud * t) by (nonlinear_arith)
        requires
            ut == u * t,
            ud == u * d,
    ;
    let a = q * d;
    let b = n * t;
    assert(qo * d == a * o) by (nonlinear_arith)
        requires
            qo == q * o,
            a == q * d,
    ;
    assert(no * t == b * o) by (nonlinear_arith)
        requires
            no == n * o,
            b == n * t,
    ;
    assert(o * d == d * o) by (nonlinear_arith);
    let x = 200_000 * a;
    let y = 200_002 * b + 100_000 * d;
    assert(x * o <= y * o) by (nonlinear_arith)
        requires
            200_000 * (a * o) <= 200_002 * (b * o) + 100_000 * (d * o),
            x == 200_000 * a,
            y == 200_002 * b + 100_000 * d,
    ;
    lemma_unscale(x, y, o);
    let z = 200_002 * a + 100_001 * d;
    let w = 200_000 * b;
    assert(w * o <= z * o) by (nonlinear_arith)
        requires
            200_002 * (a * o) + 100_001 * (d * o) >= 200_000 * (b * o),
            z == 200_002 * a + 100_001 * d,
            w == 200_000 * b,
    ;
    lemma_unscale(w, z, o);
}

/// Seconds are rounded to the nearest nanosecond.
pub proof fn lemma_seconds_round_to_nanoseconds(x: Double)
    ensures
        2 * (rounded_nanos(x) * one()) <= 2 * (units(x.magnitude()) * 1_000_000_000) + one(),
        2 * (rounded_nanos(x) * one()) + one() >= 2 * (units(x.magnitude()) * 1_000_000_000),
{
    lemma_one_is_large();
    reveal_with_fuel(pow10, 10);
    assert(pow10(9) == 1_000_000_000);
    lemma_round_close(units(x.magnitude()) * 1_000_000_000, one());
}

/// A number without its fraction, as far as it can be held.
pub proof fn lemma_a_number_without_its_fraction(x: Double, n: nat)
    requires
        x.is_finite(),
        n * one() <= units(x.magnitude()) < (n + 1) * one(),
    ensures
        !x.negative() && n <= u64::MAX ==> x.as_u64() == n,
        !x.negative() && n > u64::MAX ==> x.as_u64() == u64::MAX,
        x.negative() ==> x.as_u64() == 0,
        !x.negative() && n <= i64::MAX ==> x.as_i64() == n,
        x.negative() && n <= i64::MAX ==> x.as_i64() == -n,
{
    lemma_one_is_large();
    let u = units(x.magnitude()) as int;
    let o = one() as int;
    vstd::arithmetic::div_mod::lemma_fundamental_div_mod(u, o);
    let q = u / o;
    assert(q == n) by (nonlinear_arith)
        requires
            u == o * q + u % o,
            0 <= u % o < o,
            n * o <= u < (n + 1) * o,
            o > 0,
    ;
}

} // verus!
