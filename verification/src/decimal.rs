//! Doubles in decimal: printing with a fixed number of places, printing with
//! as few digits as tell the number apart, and reading.

use vstd::arithmetic::div_mod::*;
use vstd::arithmetic::power2::*;
use vstd::prelude::*;
use vstd::slice::slice_subrange;

use crate::bignat::BigNat;
use crate::float::{
    Double, INFINITY, SIGN, STEP, lemma_nearest_jump, nearest, one, round_even, round_quotient,
    rounded, signed, units,
};
use crate::text::{
    all_digits, decimal, decimal_text, digit, digit_value, digits_value, find, lemma_find, position,
    push_digit, push_u64, repeat,
};

verus! {

/// Ten to a power.
pub open spec fn pow10(n: nat) -> nat
    decreases n,
{
    if n == 0 {
        1
    } else {
        10 * pow10((n - 1) as nat)
    }
}

/// Digits with zeros before them, up to a width.
pub open spec fn zero_pad(s: Seq<char>, width: int) -> Seq<char> {
    repeat('0', width - s.len()) + s
}

/// A count of ten to the minus `n`, written out with `n` places.
pub open spec fn with_places(q: nat, n: nat) -> Seq<char> {
    if n == 0 {
        decimal(q)
    } else {
        decimal(q / pow10(n)) + seq!['.'] + zero_pad(decimal(q % pow10(n)), n as int)
    }
}

/// The sign that a number is printed with.
pub open spec fn sign_text(negative: bool) -> Seq<char> {
    if negative {
        seq!['-']
    } else {
        seq![]
    }
}

/// A double with `n` places after the point: the exact value, rounded to the
/// nearest such decimal, the even one of two.
pub open spec fn fixed(x: Double, n: nat) -> Seq<char> {
    if x.is_nan() {
        seq!['N', 'a', 'N']
    } else if x.is_infinite() {
        sign_text(x.negative()) + seq!['i', 'n', 'f']
    } else {
        sign_text(x.negative()) + with_places(
            round_even(units(x.magnitude()) * pow10(n), one()),
            n,
        )
    }
}

/// The magnitude of the double nearest to `d` times ten to the power of `e`.
pub open spec fn decimal_magnitude(d: nat, e: int) -> nat {
    if e >= 0 {
        rounded(d * pow10(e as nat) * one(), 1)
    } else {
        rounded(d * one(), pow10((-e) as nat))
    }
}

pub proof fn lemma_pow10_pos(n: nat)
    ensures
        pow10(n) > 0,
    decreases n,
{
    if n > 0 {
        lemma_pow10_pos((n - 1) as nat);
    }
}

pub proof fn lemma_pow10_adds(a: nat, b: nat)
    ensures
        pow10(a + b) == pow10(a) * pow10(b),
    decreases a,
{
    if a == 0 {
        assert(1 * pow10(b) == pow10(b));
    } else {
        let c = (a - 1) as nat;
        lemma_pow10_adds(c, b);
        let x = pow10(c);
        let y = pow10(b);
        assert((10 * x) * y == 10 * (x * y)) by (nonlinear_arith);
    }
}

pub proof fn lemma_pow10_large(n: nat)
    ensures
        pow10(n) >= pow2(3 * n),
    decreases n,
{
    lemma2_to64();
    if n > 0 {
        lemma_pow10_large((n - 1) as nat);
        lemma_pow2_adds(3, (3 * (n - 1)) as nat);
    }
}

/// A common factor leaves the rounded quotient as it is.
pub proof fn lemma_round_even_scaled(num: nat, den: nat, c: nat)
    requires
        den > 0,
        c > 0,
    ensures
        round_even(num * c, den * c) == round_even(num, den),
{
    let q = num / den;
    let r = num % den;
    lemma_fundamental_div_mod(num as int, den as int);
    assert(num * c == q * (den * c) + r * c) by (nonlinear_arith)
        requires
            num == den * q + r,
    ;
    assert(0 <= r * c < den * c) by (nonlinear_arith)
        requires
            0 <= r < den,
            c > 0,
    ;
    lemma_fundamental_div_mod_converse((num * c) as int, (den * c) as int, q as int, (r * c) as int);
    assert((2 * r > den) == (2 * (r * c) > den * c)) by (nonlinear_arith)
        requires
            c > 0,
    ;
    assert((2 * r == den) == (2 * (r * c) == den * c)) by (nonlinear_arith)
        requires
            c > 0,
    ;
}

pub proof fn lemma_round_even_whole(x: nat, den: nat)
    requires
        den > 0,
    ensures
        round_even(x * den, den) == x,
{
    lemma_fundamental_div_mod_converse((x * den) as int, den as int, x as int, 0);
}

/// Two to the power of `k`.
pub fn power_of_two(k: u32) -> (r: u128)
    requires
        k <= 120,
    ensures
        r == pow2(k as nat),
{
    let mut r: u128 = 1;
    let mut i: u32 = 0;
    proof {
        lemma2_to64();
        if k < 120 {
            lemma_pow2_strictly_increases(k as nat, 120);
        }
        lemma2_to64_rest();
        lemma_pow2_adds(60, 60);
    }
    assert(pow2(120) == 0x1000_0000_0000_0000 * 0x1000_0000_0000_0000);
    while i < k
        invariant
            i <= k <= 120,
            r == pow2(i as nat),
            pow2(120) == 0x1000_0000_0000_0000 * 0x1000_0000_0000_0000,
        decreases k - i,
    {
        proof {
            lemma_pow2_unfold((i + 1) as nat);
            if i < 119 {
                lemma_pow2_strictly_increases((i + 1) as nat, 120);
            }
        }
        r = r * 2;
        i += 1;
    }
    r
}

/// Ten to the power of `n`.
fn power_of_ten(n: usize) -> (r: u64)
    requires
        n <= 9,
    ensures
        r == pow10(n as nat),
        r <= 1_000_000_000,
{
    let mut r: u64 = 1;
    let mut i: usize = 0;
    proof {
        reveal_with_fuel(pow10, 10);
        lemma_pow10_pos((9 - n) as nat);
        lemma_pow10_adds(n as nat, (9 - n) as nat);
        let x = pow10(n as nat);
        let y = pow10((9 - n) as nat);
        assert(x <= x * y) by (nonlinear_arith)
            requires
                y >= 1,
                x >= 0,
        ;
    }
    assert(pow10(9) == 1_000_000_000) by {
        reveal_with_fuel(pow10, 10);
    }
    while i < n
        invariant
            i <= n <= 9,
            r == pow10(i as nat),
            pow10(n as nat) <= 1_000_000_000,
        decreases n - i,
    {
        proof {
            lemma_pow10_adds((i + 1) as nat, (n - i - 1) as nat);
            lemma_pow10_pos((n - i - 1) as nat);
            let x = pow10((i + 1) as nat);
            let y = pow10((n - i - 1) as nat);
            assert(x <= x * y) by (nonlinear_arith)
                requires
                    y >= 1,
                    x >= 0,
            ;
        }
        r = 10 * r;
        i += 1;
    }
    r
}

/// Append the digits of a large number.
pub fn push_big(out: &mut String, b: &mut BigNat)
    ensures
        final(out)@ == old(out)@ + decimal(old(b)@),
    decreases old(b)@,
{
    let ghost v = b@;
    let ghost o = out@;
    let d: u32 = b.div_ten();
    if !b.is_zero() {
        push_big(out, b);
        push_digit(out, d as u64);
        assert(out@ =~= o + decimal(v));
    } else {
        push_digit(out, d as u64);
        assert(out@ =~= o + decimal(v));
    }
}

pub fn push_zeros(out: &mut String, n: usize)
    ensures
        final(out)@ == old(out)@ + repeat('0', n as int),
{
    let ghost o = out@;
    let mut i: usize = 0;
    assert(o + repeat('0', 0) =~= o);
    while i < n
        invariant
            i <= n,
            out@ == o + repeat('0', i as int),
        decreases n - i,
    {
        out.push('0');
        i += 1;
        assert(out@ =~= o + repeat('0', i as int));
    }
}

/// The significand of a magnitude and the power of two that scales it.
pub open spec fn significand(m: nat) -> nat {
    if m < STEP {
        m
    } else {
        0x10_0000_0000_0000 + m % 0x10_0000_0000_0000
    }
}

/// See [`significand`].
pub open spec fn exponent(m: nat) -> nat {
    if m < STEP {
        0
    } else {
        (m / 0x10_0000_0000_0000 - 1) as nat
    }
}

pub proof fn lemma_units_parts(m: nat)
    ensures
        units(m) == significand(m) * pow2(exponent(m)),
        significand(m) < 2 * STEP,
{
    lemma2_to64();
    if m < STEP {
        assert(m * pow2(0) == m) by (nonlinear_arith)
            requires
                pow2(0) == 1,
        ;
    }
}

pub fn parts(m: u64) -> (r: (u64, u64))
    requires
        m <= INFINITY,
    ensures
        r.0 == significand(m as nat),
        r.1 == exponent(m as nat),
        r.0 < 2 * STEP,
        r.1 <= 2046,
{
    if m < STEP {
        (m, 0)
    } else {
        (STEP + m % STEP, m / STEP - 1)
    }
}

/// Round `sig * 10^n / 2^k` to a whole number.
pub fn round_scaled(sig: u64, n: usize, k: u64) -> (r: u128)
    requires
        sig < 2 * STEP,
        n <= 9,
        1 <= k <= 1074,
    ensures
        r == round_even(sig as nat * pow10(n as nat), pow2(k as nat)),
        r <= sig as nat * pow10(n as nat) + 1,
{
    let t: u64 = power_of_ten(n);
    assert(sig * t <= 0x20_0000_0000_0000 * 1_000_000_000) by (nonlinear_arith)
        requires
            0 <= sig <= 0x20_0000_0000_0000,
            0 <= t <= 1_000_000_000,
    ;
    let num: u128 = sig as u128 * t as u128;
    proof {
        lemma2_to64();
        lemma2_to64_rest();
        lemma_pow2_adds(60, 40);
        assert(pow2(100) == 0x1000_0000_0000_0000 * 0x100_0000_0000);
        lemma_pow2_pos(k as nat);
    }
    if k >= 100 {
        proof {
            if k > 100 {
                lemma_pow2_strictly_increases(100, k as nat);
            }
            lemma_basic_div(num as int, pow2(k as nat) as int);
            lemma_small_mod(num as nat, pow2(k as nat));
        }
        0
    } else {
        let den: u128 = power_of_two(k as u32);
        let q: u128 = num / den;
        let r: u128 = num % den;
        proof {
            lemma_pow2_unfold(k as nat);
            lemma_pow2_pos((k - 1) as nat);
            lemma_pow2_strictly_increases(k as nat, 100);
            assert(den >= 2);
            assert(q <= num / 2) by (nonlinear_arith)
                requires
                    q == num / den,
                    den >= 2,
                    num >= 0,
            ;
        }
        assert(q <= num / 2);
        let up: bool = 2 * r > den || (2 * r == den && q % 2 == 1);
        if up {
            q + 1
        } else {
            q
        }
    }
}

impl Double {
    /// See [`fixed`].
    pub fn to_fixed(&self, n: usize) -> (r: String)
        requires
            n <= 6,
        ensures
            r@ == fixed(*self, n as nat),
    {
        let mut out: String = String::new();
        let m: u64 = self.bits % SIGN;
        if m > INFINITY {
            out.push('N');
            out.push('a');
            out.push('N');
            assert(out@ =~= fixed(*self, n as nat));
            return out;
        }
        if self.bits >= SIGN {
            out.push('-');
        }
        assert(out@ =~= sign_text(self.negative()));
        if m == INFINITY {
            out.push('i');
            out.push('n');
            out.push('f');
            assert(out@ =~= fixed(*self, n as nat));
            return out;
        }
        let (sig, sh): (u64, u64) = parts(m);
        let t: u64 = power_of_ten(n);
        let ghost total = round_even(units(m as nat) * pow10(n as nat), one());
        proof {
            lemma_units_parts(m as nat);
            lemma_pow2_pos(1074);
            lemma_pow2_pos(sh as nat);
            lemma_pow10_pos(n as nat);
        }
        if sh >= 1074 {
            let mut b: BigNat = BigNat::from_u64(sig);
            b.shift((sh - 1074) as usize);
            let ghost v = b@;
            proof {
                lemma_pow2_adds((sh - 1074) as nat, 1074);
                let p = pow2((sh - 1074) as nat);
                let o = one();
                let ten = pow10(n as nat);
                assert((sig * (p * o)) * ten == ((sig * p) * ten) * o) by (nonlinear_arith);
                lemma_round_even_whole(v * ten, o);
                assert(total == v * ten);
                lemma_fundamental_div_mod_converse((v * ten) as int, ten as int, v as int, 0);
                assert(1 * v == v);
            }
            let ghost o1 = out@;
            push_big(&mut out, &mut b);
            if n > 0 {
                out.push('.');
                push_zeros(&mut out, n);
                assert(zero_pad(decimal(0), n as int) =~= repeat('0', n as int));
            } else {
                assert(v * 1 == v);
            }
            assert(out@ =~= fixed(*self, n as nat));
            out
        } else {
            let k: u64 = 1074 - sh;
            let q: u128 = round_scaled(sig, n, k);
            let high: u128 = q / t as u128;
            let low: u128 = q % t as u128;
            proof {
                lemma_pow2_adds(k as nat, sh as nat);
                lemma_pow2_pos(k as nat);
                let p = pow2(sh as nat);
                let ten = pow10(n as nat);
                assert((sig * p) * ten == (sig * ten) * p) by (nonlinear_arith);
                lemma_round_even_scaled(sig as nat * ten, pow2(k as nat), p);
                assert(total == q);
                lemma_fundamental_div_mod(q as int, t as int);
                assert(high <= sig + 1) by (nonlinear_arith)
                    requires
                        q == t * high + low,
                        q <= sig * t + 1,
                        t >= 1,
                        low >= 0,
                        high >= 0,
                ;
            }
            let ghost o1 = out@;
            push_u64(&mut out, high as u64);
            proof {
                if n == 0 {
                    assert(pow10(0) == 1);
                    lemma_div_basics(q as int);
                    assert(high == q);
                }
            }
            assert(high == total / pow10(n as nat));
            if n > 0 {
                out.push('.');
                let low: String = decimal_text(low as u64);
                let count: usize = low.as_str().unicode_len();
                if count < n {
                    push_zeros(&mut out, n - count);
                }
                assert(repeat('0', n - count) =~= repeat('0', if count < n {
                    n - count
                } else {
                    0
                }));
                out.push_str(low.as_str());
                assert(out@ =~= o1 + with_places(total, n as nat));
            }
            assert(out@ =~= fixed(*self, n as nat));
            out
        }
    }

    /// The value without its fraction, in units of one.
    pub open spec fn whole_part(&self) -> nat {
        units(self.magnitude()) / one()
    }

    /// Is the value a whole number?
    pub fn whole_number(&self) -> (r: bool)
        ensures
            r == self.is_whole(),
    {
        let m: u64 = self.bits % SIGN;
        if m >= INFINITY {
            return false;
        }
        let (sig, sh): (u64, u64) = parts(m);
        proof {
            lemma_units_parts(m as nat);
            lemma_pow2_pos(1074);
            lemma_pow2_pos(sh as nat);
        }
        if sh >= 1074 {
            proof {
                lemma_pow2_adds((sh - 1074) as nat, 1074);
                let p = pow2((sh - 1074) as nat);
                let o = one();
                assert(sig * (p * o) == (sig * p) * o) by (nonlinear_arith);
                lemma_mod_multiples_basic((sig * p) as int, o as int);
            }
            true
        } else {
            let k: u64 = 1074 - sh;
            proof {
                lemma_pow2_adds(k as nat, sh as nat);
                lemma_pow2_pos(k as nat);
                lemma_scaled_div_mod(sig as nat, pow2(k as nat), pow2(sh as nat));
                lemma2_to64_rest();
                if k > 53 {
                    lemma_pow2_strictly_increases(53, k as nat);
                }
            }
            if k >= 53 {
                proof {
                    lemma_small_mod(sig as nat, pow2(k as nat));
                    let c = pow2(sh as nat);
                    assert((sig * c == 0) == (sig == 0)) by (nonlinear_arith)
                        requires
                            c > 0,
                            sig >= 0,
                    ;
                }
                sig == 0
            } else {
                let den: u128 = power_of_two(k as u32);
                proof {
                    let c = pow2(sh as nat);
                    let x = sig as nat % pow2(k as nat);
                    assert((x * c == 0) == (x == 0)) by (nonlinear_arith)
                        requires
                            c > 0,
                            x >= 0,
                    ;
                }
                sig as u128 % den == 0
            }
        }
    }

    /// The whole part, or `u64::MAX` where it does not fit.
    fn whole_part_saturating(&self) -> (r: u64)
        requires
            !self.is_nan(),
        ensures
            r == (if self.whole_part() <= u64::MAX {
                self.whole_part() as u64
            } else {
                u64::MAX
            }),
    {
        let m: u64 = self.bits % SIGN;
        let (sig, sh): (u64, u64) = parts(m);
        proof {
            lemma_units_parts(m as nat);
            lemma_pow2_pos(1074);
            lemma_pow2_pos(sh as nat);
            lemma2_to64();
            lemma2_to64_rest();
        }
        if sh >= 1074 {
            let j: u64 = sh - 1074;
            proof {
                lemma_pow2_adds(j as nat, 1074);
                let p = pow2(j as nat);
                let o = one();
                assert(sig * (p * o) == (sig * p) * o) by (nonlinear_arith);
                lemma_div_multiples_vanish((sig * p) as int, o as int);
                assert((sig * p) * o == o * (sig * p)) by (nonlinear_arith);
                if j > 12 {
                    lemma_pow2_strictly_increases(12, j as nat);
                }
            }
            if j >= 12 {
                proof {
                    let p = pow2(j as nat);
                    assert(sig * p >= 0x10_0000_0000_0000 * 4096) by (nonlinear_arith)
                        requires
                            sig >= 0x10_0000_0000_0000,
                            p >= 4096,
                    ;
                }
                u64::MAX
            } else {
                let p: u128 = power_of_two(j as u32);
                proof {
                    lemma_pow2_strictly_increases(j as nat, 12);
                    assert(sig * p <= 0x20_0000_0000_0000 * 4096) by (nonlinear_arith)
                        requires
                            0 <= sig <= 0x20_0000_0000_0000,
                            0 <= p <= 4096,
                    ;
                }
                let v: u128 = sig as u128 * p;
                if v <= u64::MAX as u128 {
                    v as u64
                } else {
                    u64::MAX
                }
            }
        } else {
            let k: u64 = 1074 - sh;
            proof {
                lemma_pow2_adds(k as nat, sh as nat);
                lemma_pow2_pos(k as nat);
                lemma_scaled_div_mod(sig as nat, pow2(k as nat), pow2(sh as nat));
                if k > 53 {
                    lemma_pow2_strictly_increases(53, k as nat);
                }
            }
            if k >= 53 {
                proof {
                    lemma_basic_div(sig as int, pow2(k as nat) as int);
                }
                0
            } else {
                let den: u128 = power_of_two(k as u32);
                let v: u128 = sig as u128 / den;
                proof {
                    assert(v <= sig) by (nonlinear_arith)
                        requires
                            v == sig as u128 / den,
                            den >= 1,
                            sig >= 0,
                    ;
                }
                v as u64
            }
        }
    }

    /// The value without its fraction, held to the range of a `u64`; zero for
    /// what is not a number.
    pub open spec fn as_u64(&self) -> u64 {
        if self.is_nan() || self.negative() {
            0
        } else if self.whole_part() <= u64::MAX {
            self.whole_part() as u64
        } else {
            u64::MAX
        }
    }

    /// See [`Double::as_u64`].
    pub fn to_u64(&self) -> (r: u64)
        ensures
            r == self.as_u64(),
    {
        if self.bits % SIGN > INFINITY || self.bits >= SIGN {
            0
        } else {
            self.whole_part_saturating()
        }
    }

    /// The value without its fraction, held to the range of an `i64`; zero for
    /// what is not a number.
    pub open spec fn as_i64(&self) -> i64 {
        if self.is_nan() {
            0
        } else if self.negative() {
            if self.whole_part() <= i64::MAX {
                (-self.whole_part()) as i64
            } else {
                i64::MIN
            }
        } else if self.whole_part() <= i64::MAX {
            self.whole_part() as i64
        } else {
            i64::MAX
        }
    }

    /// See [`Double::as_i64`].
    pub fn to_i64(&self) -> (r: i64)
        ensures
            r == self.as_i64(),
    {
        if self.bits % SIGN > INFINITY {
            return 0;
        }
        let w: u64 = self.whole_part_saturating();
        if self.bits >= SIGN {
            if w <= i64::MAX as u64 {
                -(w as i64)
            } else {
                i64::MIN
            }
        } else if w <= i64::MAX as u64 {
            w as i64
        } else {
            i64::MAX
        }
    }
}

proof fn lemma_scaled_div_mod(sig: nat, den: nat, c: nat)
    requires
        den > 0,
        c > 0,
    ensures
        (sig * c) / (den * c) == sig / den,
        (sig * c) % (den * c) == (sig % den) * c,
{
    let q = sig / den;
    let r = sig % den;
    lemma_fundamental_div_mod(sig as int, den as int);
    assert(sig * c == q * (den * c) + r * c) by (nonlinear_arith)
        requires
            sig == den * q + r,
    ;
    assert(0 <= r * c < den * c) by (nonlinear_arith)
        requires
            0 <= r < den,
            c > 0,
    ;
    lemma_fundamental_div_mod_converse((sig * c) as int, (den * c) as int, q as int, (r * c) as int);
}

// ── reading ────────────────────────────────────────────────────────────

/// Where the exponent of a number begins: at the first `e` of either case,
/// or at the end.
pub open spec fn exponent_at(s: Seq<char>) -> nat
    decreases s.len(),
{
    if s.len() == 0 || s[0] == 'e' || s[0] == 'E' {
        0
    } else {
        1 + exponent_at(s.drop_first())
    }
}

/// The value of a sign and at least one digit.
pub open spec fn signed_digits(s: Seq<char>) -> Option<int> {
    let negative = s.len() > 0 && s[0] == '-';
    let t = if s.len() > 0 && (s[0] == '-' || s[0] == '+') {
        s.drop_first()
    } else {
        s
    };
    if t.len() > 0 && all_digits(t, 10) {
        Some(
            if negative {
                -(digits_value(t, 10) as int)
            } else {
                digits_value(t, 10) as int
            },
        )
    } else {
        None
    }
}

/// The digits before the point.
pub open spec fn before_point(s: Seq<char>) -> Seq<char> {
    s.take(find(s, '.') as int)
}

/// The digits after the point.
pub open spec fn after_point(s: Seq<char>) -> Seq<char> {
    if find(s, '.') < s.len() {
        s.skip(find(s, '.') as int + 1)
    } else {
        seq![]
    }
}

/// A decimal number without a sign, as digits and the power of ten that
/// scales them: digits, with or without a point among them, then perhaps an
/// exponent.
pub open spec fn decimal_number(s: Seq<char>) -> Option<(nat, int)> {
    let at = exponent_at(s) as int;
    let mantissa = s.take(at);
    let digits = before_point(mantissa) + after_point(mantissa);
    let exp = if at < s.len() {
        signed_digits(s.skip(at + 1))
    } else {
        Some(0int)
    };
    if digits.len() > 0 && all_digits(digits, 10) && exp is Some {
        Some((digits_value(digits, 10), exp->0 - after_point(mantissa).len()))
    } else {
        None
    }
}

/// The double that a decimal number names: the nearest to its exact value.
/// Only digits, a point, an exponent and signs make a number.
pub open spec fn parse_double(s: Seq<char>) -> Option<Double> {
    let negative = s.len() > 0 && s[0] == '-';
    let t = if s.len() > 0 && (s[0] == '-' || s[0] == '+') {
        s.drop_first()
    } else {
        s
    };
    match decimal_number(t) {
        Some((d, e)) => Some(signed(negative, decimal_magnitude(d, e))),
        None => None,
    }
}

proof fn lemma_exponent_at(s: Seq<char>)
    ensures
        exponent_at(s) <= s.len(),
        forall|i: int| 0 <= i < exponent_at(s) ==> s[i] != 'e' && s[i] != 'E',
        exponent_at(s) < s.len() ==> s[exponent_at(s) as int] == 'e' || s[exponent_at(s) as int]
            == 'E',
    decreases s.len(),
{
    if s.len() == 0 || s[0] == 'e' || s[0] == 'E' {
    } else {
        let t = s.drop_first();
        lemma_exponent_at(t);
        assert forall|i: int| 0 <= i < exponent_at(s) implies s[i] != 'e' && s[i] != 'E' by {
            if i > 0 {
                assert(s[i] == t[i - 1]);
            }
        }
    }
}

fn find_exponent(s: &[char]) -> (r: usize)
    ensures
        r == exponent_at(s@),
{
    proof {
        lemma_exponent_at(s@);
    }
    let mut i: usize = 0;
    while i < s.len() && s[i] != 'e' && s[i] != 'E'
        invariant
            i <= s@.len(),
            i <= exponent_at(s@),
            exponent_at(s@) <= s@.len(),
            exponent_at(s@) < s@.len() ==> s@[exponent_at(s@) as int] == 'e' || s@[exponent_at(
                s@,
            ) as int] == 'E',
        decreases s@.len() - i,
    {
        i += 1;
    }
    i
}

proof fn lemma_digits_take(s: Seq<char>, i: int)
    requires
        0 <= i < s.len(),
    ensures
        digits_value(s.take(i + 1), 10) == digits_value(s.take(i), 10) * 10 + digit_value(
            s[i],
            10,
        )->0,
{
    assert(s.take(i + 1).drop_last() =~= s.take(i));
}

/// Fewer digits than ten to their number.
proof fn lemma_digits_below(s: Seq<char>)
    requires
        all_digits(s, 10),
    ensures
        digits_value(s, 10) < pow10(s.len()),
    decreases s.len(),
{
    if s.len() > 0 {
        let t = s.drop_last();
        assert forall|i: int| 0 <= i < t.len() implies digit_value(#[trigger] t[i], 10) is Some by {
            assert(t[i] == s[i]);
        }
        lemma_digits_below(t);
        assert(digit_value(s[s.len() - 1], 10) is Some);
    }
}

/// An exponent too large for any double is held at this.
pub const FAR: i128 = 1_000_000_000_000_000_000_000_000_000_000;

/// The value of an exponent's digits, or something at least [`FAR`] where it
/// is at least that.
fn read_exponent_digits(s: &[char]) -> (r: Option<i128>)
    ensures
        r is Some == all_digits(s@, 10),
        r matches Some(v) ==> {
            &&& 0 <= v <= 10 * FAR
            &&& v < FAR ==> v == digits_value(s@, 10)
            &&& v >= FAR ==> digits_value(s@, 10) >= FAR
        },
{
    let mut v: i128 = 0;
    let mut i: usize = 0;
    assert(s@.take(0) =~= Seq::<char>::empty());
    while i < s.len()
        invariant
            i <= s@.len(),
            0 <= v <= 10 * FAR,
            v < FAR ==> v == digits_value(s@.take(i as int), 10),
            v >= FAR ==> digits_value(s@.take(i as int), 10) >= FAR,
            forall|k: int| 0 <= k < i ==> digit_value(#[trigger] s@[k], 10) is Some,
        decreases s@.len() - i,
    {
        let c: char = s[i];
        proof {
            lemma_digits_take(s@, i as int);
        }
        match digit(c, 10) {
            None => {
                assert(digit_value(s@[i as int], 10) is None);
                return None;
            },
            Some(d) => {
                if v < FAR {
                    v = v * 10 + d as i128;
                }
            },
        }
        i += 1;
    }
    assert(s@.take(i as int) =~= s@);
    Some(v)
}

/// The digits of a mantissa, with how many stand in all and after the point.
struct Mantissa {
    digits: BigNat,
    count: usize,
    places: usize,
}

/// Read digits on, one after another.
fn read_more(value: &mut BigNat, s: &[char], Ghost(before): Ghost<Seq<char>>) -> (r: bool)
    requires
        old(value)@ == digits_value(before, 10),
    ensures
        r == all_digits(s@, 10),
        r ==> final(value)@ == digits_value(before + s@, 10),
{
    let mut i: usize = 0;
    assert(before + s@.take(0) =~= before);
    while i < s.len()
        invariant
            i <= s@.len(),
            value@ == digits_value(before + s@.take(i as int), 10),
            forall|k: int| 0 <= k < i ==> digit_value(#[trigger] s@[k], 10) is Some,
        decreases s@.len() - i,
    {
        let c: char = s[i];
        match digit(c, 10) {
            None => {
                assert(digit_value(s@[i as int], 10) is None);
                return false;
            },
            Some(d) => {
                proof {
                    let a = before + s@.take(i as int);
                    let b = before + s@.take(i + 1);
                    assert(b.drop_last() =~= a);
                    assert(b.last() == s@[i as int]);
                }
                value.mul_add(10, d as u32);
            },
        }
        i += 1;
    }
    assert(s@.take(i as int) =~= s@);
    true
}

fn read_mantissa(s: &[char]) -> (r: Option<Mantissa>)
    ensures
        ({
            let digits = before_point(s@) + after_point(s@);
            &&& r is Some == (digits.len() > 0 && all_digits(digits, 10))
            &&& r matches Some(m) ==> {
                &&& m.digits@ == digits_value(digits, 10)
                &&& m.count == digits.len()
                &&& m.places == after_point(s@).len()
            }
        }),
{
    let at: usize = position(s, '.');
    proof {
        lemma_find(s@, '.');
    }
    let before: &[char] = slice_subrange(s, 0, at);
    let after: &[char] = if at < s.len() {
        slice_subrange(s, at + 1, s.len())
    } else {
        slice_subrange(s, 0, 0)
    };
    let ghost b = before_point(s@);
    let ghost a = after_point(s@);
    assert(before@ =~= b);
    assert(after@ =~= a);
    let mut value: BigNat = BigNat::from_u64(0);
    if before.len() + after.len() == 0 {
        assert((b + a).len() == 0);
        return None;
    }
    let ghost none = Seq::<char>::empty();
    if !read_more(&mut value, before, Ghost(none)) {
        proof {
            let k = choose|k: int|
                0 <= k < b.len() && digit_value(#[trigger] b[k], 10) is None;
            assert((b + a)[k] == b[k]);
        }
        return None;
    }
    assert(none + b =~= b);
    if !read_more(&mut value, after, Ghost(b)) {
        proof {
            let k = choose|k: int|
                0 <= k < a.len() && digit_value(#[trigger] a[k], 10) is None;
            assert((b + a)[b.len() + k] == a[k]);
        }
        return None;
    }
    proof {
        assert forall|k: int| 0 <= k < (b + a).len() implies digit_value(
            #[trigger] (b + a)[k],
            10,
        ) is Some by {
            if k < b.len() {
                assert((b + a)[k] == b[k]);
            } else {
                assert((b + a)[k] == a[k - b.len()]);
            }
        }
    }
    Some(Mantissa { digits: value, count: before.len() + after.len(), places: after.len() })
}

/// What is at least two to the power of 1024 is infinite.
proof fn lemma_nearest_infinite(num: nat)
    requires
        num >= pow2(2098),
    ensures
        rounded(num, 1) == INFINITY,
{
    let d = pow2(2045);
    lemma_pow2_pos(2045);
    lemma2_to64();
    lemma2_to64_rest();
    lemma_pow2_adds(53, 2045);
    assert((1 * pow2(53)) * pow2(2045) == pow2(2098));
    lemma_nearest_jump(num, 1, 2045);
    assert(1 * d == d);
    assert(num >= d * 0x20_0000_0000_0000) by (nonlinear_arith)
        requires
            num >= 0x20_0000_0000_0000 * d,
    ;
    assert(nearest(num, d) == STEP + nearest(num, 2 * d));
    let e = 2 * d;
    assert(num >= STEP * e) by (nonlinear_arith)
        requires
            num >= d * 0x20_0000_0000_0000,
            e == 2 * d,
            STEP == 0x10_0000_0000_0000,
    ;
    if num < e * 0x20_0000_0000_0000 {
        lemma_div_is_ordered((STEP * e) as int, num as int, e as int);
        lemma_div_multiples_vanish(STEP as int, e as int);
        assert(STEP * e == e * STEP) by (nonlinear_arith);
        assert(round_even(num, e) >= STEP);
    } else {
        assert(nearest(num, e) == STEP + nearest(num, 2 * e));
    }
}

/// What is at most half the smallest double is zero.
proof fn lemma_nearest_zero(num: nat, den: nat)
    requires
        den > 0,
        2 * num <= den,
    ensures
        rounded(num, den) == 0,
{
    assert(num < den * 0x20_0000_0000_0000);
    lemma_basic_div(num as int, den as int);
    lemma_small_mod(num, den);
}

proof fn lemma_far_above(d: nat, e: int)
    requires
        d > 0,
        e >= 342,
    ensures
        decimal_magnitude(d, e) == INFINITY,
{
    let k = e as nat;
    lemma_pow10_large(k);
    lemma_pow2_adds(1024, 1074);
    if 3 * k > 1024 {
        lemma_pow2_strictly_increases(1024, 3 * k);
    }
    let t = pow10(k);
    let o = one();
    lemma_pow2_pos(1074);
    assert(d * t * o >= pow2(1024) * o) by (nonlinear_arith)
        requires
            d >= 1,
            t >= pow2(1024),
            o >= 0,
    ;
    lemma_nearest_infinite(d * t * o);
}

proof fn lemma_far_below(d: nat, e: int, count: nat)
    requires
        d < pow10(count),
        -e - count >= 359,
    ensures
        decimal_magnitude(d, e) == 0,
{
    let k = (-e) as nat;
    let j = (k - count) as nat;
    lemma_pow10_adds(count, j);
    lemma_pow10_large(j);
    lemma_pow2_unfold(1075);
    if 3 * j > 1075 {
        lemma_pow2_strictly_increases(1075, 3 * j);
    }
    let o = one();
    let a = pow10(count);
    let b = pow10(j);
    lemma_pow10_pos(k);
    assert(2 * (d * o) <= a * b) by (nonlinear_arith)
        requires
            d <= a,
            2 * o <= b,
            o >= 0,
            a >= 0,
            d >= 0,
    ;
    lemma_nearest_zero(d * o, pow10(k));
}

proof fn lemma_zero_digits(e: int)
    ensures
        decimal_magnitude(0, e) == 0,
{
    if e >= 0 {
        assert(0 * pow10(e as nat) == 0);
        assert(0 * one() == 0);
        lemma_nearest_zero(0, 1);
    } else {
        lemma_pow10_pos((-e) as nat);
        assert(0 * one() == 0);
        lemma_nearest_zero(0, pow10((-e) as nat));
    }
}

/// Multiply by ten to the power of `n`.
pub fn scale_up(b: &mut BigNat, n: u128)
    ensures
        final(b)@ == old(b)@ * pow10(n as nat),
{
    let ghost v = b@;
    let mut i: u128 = 0;
    assert(v * pow10(0) == v) by (nonlinear_arith)
        requires
            pow10(0) == 1,
    ;
    while i < n
        invariant
            i <= n,
            b@ == v * pow10(i as nat),
        decreases n - i,
    {
        proof {
            let x = pow10(i as nat);
            assert((v * x) * 10 == v * (10 * x)) by (nonlinear_arith);
        }
        b.mul_add(10, 0);
        i += 1;
    }
}

/// See [`decimal_magnitude`].
pub fn find_magnitude(d: &BigNat, e: i128) -> (r: u64)
    requires
        e > i128::MIN,
    ensures
        r == decimal_magnitude(d@, e as int),
{
    let mut p: BigNat = d.copy();
    let mut q: BigNat = BigNat::from_u64(1);
    if e >= 0 {
        scale_up(&mut p, e as u128);
    } else {
        scale_up(&mut q, (-e) as u128);
        assert(1 * pow10((-e) as nat) == pow10((-e) as nat));
    }
    p.shift(1074);
    proof {
        if e < 0 {
            lemma_pow10_pos((-e) as nat);
        }
    }
    round_quotient(&p, &q)
}

/// An exponent as read, and as written: the same, unless both are far out on
/// the same side.
spec fn exponent_read(v: i128, truth: int) -> bool {
    &&& -10 * FAR <= v <= 10 * FAR
    &&& -FAR < v < FAR ==> v == truth
    &&& v >= FAR ==> truth >= FAR
    &&& v <= -FAR ==> truth <= -FAR
}

fn read_exponent(u: &[char]) -> (r: Option<i128>)
    ensures
        r is Some == signed_digits(u@) is Some,
        r matches Some(v) ==> exponent_read(v, signed_digits(u@)->0),
{
    let down: bool = u.len() > 0 && u[0] == '-';
    let w: &[char] = if u.len() > 0 && (u[0] == '-' || u[0] == '+') {
        assert(u@.drop_first() =~= u@.subrange(1, u@.len() as int));
        slice_subrange(u, 1, u.len())
    } else {
        u
    };
    if w.len() == 0 {
        return None;
    }
    match read_exponent_digits(w) {
        None => None,
        Some(v) => if down {
            Some(-v)
        } else {
            Some(v)
        },
    }
}

/// The magnitude that digits and an exponent name.
fn mantissa_magnitude(m: &Mantissa, exp: i128, Ghost(truth): Ghost<int>) -> (r: u64)
    requires
        exponent_read(exp, truth),
        m.digits@ < pow10(m.count as nat),
        m.places <= m.count,
    ensures
        r == decimal_magnitude(m.digits@, truth - m.places),
        r <= INFINITY,
{
    let scaled: i128 = exp - m.places as i128;
    let ghost e = truth - m.places;
    if m.digits.is_zero() {
        proof {
            lemma_zero_digits(e);
        }
        0
    } else if scaled >= 342 {
        proof {
            lemma_far_above(m.digits@, e);
        }
        INFINITY
    } else if -scaled - m.count as i128 >= 359 {
        proof {
            lemma_far_below(m.digits@, e, m.count as nat);
        }
        0
    } else {
        find_magnitude(&m.digits, scaled)
    }
}

/// See [`parse_double`].
pub fn read_double(s: &[char]) -> (r: Option<Double>)
    ensures
        r == parse_double(s@),
{
    let negative: bool = s.len() > 0 && s[0] == '-';
    let t: &[char] = if s.len() > 0 && (s[0] == '-' || s[0] == '+') {
        assert(s@.drop_first() =~= s@.subrange(1, s@.len() as int));
        slice_subrange(s, 1, s.len())
    } else {
        s
    };
    let at: usize = find_exponent(t);
    proof {
        lemma_exponent_at(t@);
    }
    let mantissa: &[char] = slice_subrange(t, 0, at);
    assert(mantissa@ =~= t@.take(at as int));
    let mut exp: i128 = 0;
    let ghost mut truth: int = 0;
    if at < t.len() {
        let u: &[char] = slice_subrange(t, at + 1, t.len());
        assert(u@ =~= t@.skip(at + 1));
        match read_exponent(u) {
            None => {
                return None;
            },
            Some(v) => {
                exp = v;
                proof {
                    truth = signed_digits(u@)->0;
                }
            },
        }
    }
    match read_mantissa(mantissa) {
        None => None,
        Some(m) => {
            proof {
                lemma_digits_below(before_point(mantissa@) + after_point(mantissa@));
            }
            let magnitude: u64 = mantissa_magnitude(&m, exp, Ghost(truth));
            Some(
                Double {
                    bits: if negative {
                        magnitude + SIGN
                    } else {
                        magnitude
                    },
                },
            )
        },
    }
}

/// Nothing is no number.
pub proof fn lemma_empty_is_no_number(s: Seq<char>)
    requires
        s.len() == 0,
    ensures
        parse_double(s) is None,
{
    lemma_exponent_at(s);
    lemma_find(s.take(0), '.');
}

} // verus!
