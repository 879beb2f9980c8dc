//! The shortest decimal that tells a double apart from its neighbours.

use vstd::arithmetic::div_mod::*;
use vstd::arithmetic::power2::*;
use vstd::prelude::*;
use vstd::slice::slice_subrange;

use crate::bignat::BigNat;
use crate::decimal::{
    decimal_magnitude, find_magnitude, lemma_pow10_adds, lemma_pow10_large, lemma_pow10_pos, pow10,
    push_zeros, scale_up, sign_text,
};
use crate::float::{Double, INFINITY, SIGN, big_units, lemma_units_grow, one, units};
use crate::text::{decimal, decimal_text, push_chars, repeat, to_chars};

verus! {

/// The value of a magnitude counted in tens to the power of `e`, as a
/// fraction.
pub open spec fn in_tens(m: nat, e: int) -> (nat, nat) {
    if e >= 0 {
        (units(m), one() * pow10(e as nat))
    } else {
        (units(m) * pow10((-e) as nat), one())
    }
}

/// That count, rounded down.
pub open spec fn count_down(m: nat, e: int) -> nat {
    in_tens(m, e).0 / in_tens(m, e).1
}

/// The count of tens to the power of `e` that names this double: of the one
/// below the value and the one above it the nearer, if it names the double,
/// else the other, if that one does.
pub open spec fn naming_count(m: nat, e: int) -> Option<nat> {
    let (num, den) = in_tens(m, e);
    let low = num / den;
    let low_names = decimal_magnitude(low, e) == m;
    let high_names = decimal_magnitude(low + 1, e) == m;
    if high_names && (!low_names || 2 * (num % den) >= den) {
        Some(low + 1)
    } else if low_names {
        Some(low)
    } else {
        None
    }
}

/// The smallest power of ten that exceeds the value, looking down from `e`.
pub open spec fn leading_power(m: nat, e: int) -> int
    decreases e + 360,
{
    if e <= -360 || in_tens(m, e - 1).0 >= in_tens(m, e - 1).1 {
        e
    } else {
        leading_power(m, e - 1)
    }
}

/// Digit after digit, the first decimal that names the double.
pub open spec fn naming_digits(m: nat, e: int, left: nat) -> (nat, int)
    decreases left,
{
    match naming_count(m, e) {
        Some(d) => (d, e),
        None => if left == 0 {
            (count_down(m, e), e)
        } else {
            naming_digits(m, e - 1, (left - 1) as nat)
        },
    }
}

/// Digits without the zeros at their end.
pub open spec fn without_zeros(d: nat, e: int) -> (nat, int)
    decreases d,
{
    if d > 0 && d % 10 == 0 {
        without_zeros(d / 10, e + 1)
    } else {
        (d, e)
    }
}

/// Digits times a power of ten, written out.
pub open spec fn written_out(d: nat, e: int) -> Seq<char> {
    let s = decimal(d);
    if e >= 0 {
        s + repeat('0', e)
    } else if s.len() > -e {
        s.take(s.len() + e) + seq!['.'] + s.skip(s.len() + e)
    } else {
        seq!['0', '.'] + repeat('0', -e - s.len()) + s
    }
}

/// The shortest decimal that reads back as a positive double: seventeen
/// digits tell every double apart.
pub open spec fn shortest_decimal(m: nat) -> (nat, int) {
    let (d, e) = naming_digits(m, leading_power(m, 345) - 1, 16);
    without_zeros(d, e)
}

/// A double written with no more digits than tell it apart.
pub open spec fn shortest(x: Double) -> Seq<char> {
    if x.is_nan() {
        seq!['N', 'a', 'N']
    } else if x.is_infinite() {
        sign_text(x.negative()) + seq!['i', 'n', 'f']
    } else if x.magnitude() == 0 {
        sign_text(x.negative()) + seq!['0']
    } else {
        let (d, e) = shortest_decimal(x.magnitude());
        sign_text(x.negative()) + written_out(d, e)
    }
}

/// One power of ten down, numerator grows or denominator shrinks tenfold.
proof fn lemma_in_tens_step(m: nat, e: int)
    ensures
        in_tens(m, e).1 > 0,
        e > 0 ==> in_tens(m, e).0 == in_tens(m, e - 1).0 && in_tens(m, e).1 == 10 * in_tens(
            m,
            e - 1,
        ).1,
        e <= 0 ==> in_tens(m, e - 1).0 == 10 * in_tens(m, e).0 && in_tens(m, e).1 == in_tens(
            m,
            e - 1,
        ).1,
{
    lemma_pow2_pos(1074);
    let o = one();
    if e >= 0 {
        lemma_pow10_pos(e as nat);
        let x = pow10(e as nat);
        assert(o * x > 0) by (nonlinear_arith)
            requires
                o > 0,
                x > 0,
        ;
    }
    if e > 0 {
        let y = pow10((e - 1) as nat);
        assert(pow10(e as nat) == 10 * y);
        assert(o * (10 * y) == 10 * (o * y)) by (nonlinear_arith);
    } else if e == 0 {
        let u = units(m);
        assert(pow10(1) == 10 * pow10(0));
        assert(pow10(0) == 1);
        assert(o * 1 == o);
        assert(u * 10 == 10 * u);
    } else {
        let u = units(m);
        let y = pow10((-e) as nat);
        assert(pow10((-e + 1) as nat) == 10 * y);
        assert(u * (10 * y) == 10 * (u * y)) by (nonlinear_arith);
    }
}

/// Every finite double is below ten to the power of 345.
proof fn lemma_below_345(m: nat)
    requires
        m <= INFINITY,
    ensures
        in_tens(m, 345).0 < in_tens(m, 345).1,
{
    if m < INFINITY {
        lemma_units_grow(m, INFINITY as nat);
    }
    assert(INFINITY as nat / 0x10_0000_0000_0000 == 2047);
    assert(INFINITY as nat % 0x10_0000_0000_0000 == 0);
    lemma2_to64();
    lemma2_to64_rest();
    lemma_pow2_adds(52, 2046);
    assert(units(INFINITY as nat) == pow2(2098));
    lemma_pow10_large(345);
    lemma_pow2_adds(1074, 1024);
    lemma_pow2_strictly_increases(1024, 1035);
    lemma_pow2_pos(1074);
    let o = one();
    let x = pow10(345);
    assert(o * x > o * pow2(1024)) by (nonlinear_arith)
        requires
            o > 0,
            x > pow2(1024),
    ;
}

/// A number counted in a power of ten: how often it fits, and what is left.
struct Counting {
    count: u64,
    rest: BigNat,
    whole: BigNat,
}

spec fn counts(c: Counting, m: nat, e: int) -> bool {
    let (num, den) = in_tens(m, e);
    &&& c.whole@ == den
    &&& c.rest@ < den
    &&& num == c.count * den + c.rest@
}

/// Go on to the next power of ten down.
fn next_digit(c: &mut Counting, e: i64, Ghost(m): Ghost<nat>)
    requires
        counts(*old(c), m, e as int),
        old(c).count < 1_000_000_000_000_000_000,
        -1000 < e < 1000,
    ensures
        counts(*final(c), m, e - 1),
        final(c).count <= 10 * old(c).count + 9,
{
    let ghost (num0, den0) = in_tens(m, e as int);
    let ghost (num, den) = in_tens(m, e - 1);
    let ghost n0 = c.count;
    let ghost r0 = c.rest@;
    proof {
        lemma_in_tens_step(m, e as int);
        lemma_in_tens_step(m, e - 1);
    }
    if e > 0 {
        let _r: u32 = c.whole.div_ten();
        proof {
            assert(c.whole@ == den);
            let k = n0 as nat;
            assert(k * (10 * den) == (10 * k) * den) by (nonlinear_arith);
        }
    } else {
        c.rest.mul_add(10, 0);
        proof {
            let k = n0 as nat;
            assert(10 * (k * den) == (10 * k) * den) by (nonlinear_arith);
        }
    }
    let mut digit: u64 = 0;
    assert(c.rest@ < 10 * den);
    assert(num == (10 * n0) * den + c.rest@);
    let ghost base = 10 * n0;
    let ghost start = c.rest@;
    assert(0 * den == 0);
    while digit < 9 && !c.rest.less(&c.whole)
        invariant
            digit <= 9,
            c.whole@ == den,
            c.count == n0,
            c.rest@ == start - digit * den,
            start < 10 * den,
        decreases 9 - digit,
    {
        let ghost d0 = digit as nat;
        c.rest.subtract(&c.whole);
        digit += 1;
        proof {
            assert((d0 + 1) * den == d0 * den + den) by (nonlinear_arith);
        }
    }
    proof {
        if digit == 9 {
            assert(c.rest@ < den) by (nonlinear_arith)
                requires
                    c.rest@ == start - 9 * den,
                    start < 10 * den,
            ;
        }
        let d = digit as nat;
        assert((base + d) * den == base * den + d * den) by (nonlinear_arith);
    }
    c.count = 10 * c.count + digit;
}

/// See [`naming_count`].
fn find_naming_count(c: &Counting, m: u64, e: i64) -> (r: Option<u64>)
    requires
        counts(*c, m as nat, e as int),
        c.count < u64::MAX,
        -1000 < e < 1000,
    ensures
        r is Some == naming_count(m as nat, e as int) is Some,
        r matches Some(d) ==> d == naming_count(m as nat, e as int)->0,
{
    proof {
        lemma_in_tens_step(m as nat, e as int);
        let (num, den) = in_tens(m as nat, e as int);
        lemma_fundamental_div_mod_converse(num as int, den as int, c.count as int, c.rest@ as int);
    }
    let low: bool = find_magnitude(&BigNat::from_u64(c.count), e as i128) == m;
    let high: bool = find_magnitude(&BigNat::from_u64(c.count + 1), e as i128) == m;
    let mut twice: BigNat = c.rest.copy();
    twice.mul_add(2, 0);
    if high && (!low || !twice.less(&c.whole)) {
        Some(c.count + 1)
    } else if low {
        Some(c.count)
    } else {
        None
    }
}

/// See [`leading_power`]; what is counted in it comes along.
fn find_leading_power(m: u64) -> (r: (i64, Counting))
    requires
        m <= INFINITY,
    ensures
        r.0 == leading_power(m as nat, 345),
        -360 <= r.0 <= 345,
        counts(r.1, m as nat, r.0 as int),
        r.1.count == 0,
{
    let mut whole: BigNat = BigNat::from_u64(1);
    whole.shift(1074);
    scale_up(&mut whole, 345);
    let mut rest: BigNat = big_units(m);
    let mut e: i64 = 345;
    let mut found: bool = false;
    proof {
        lemma_below_345(m as nat);
        let den = in_tens(m as nat, 345).1;
        assert(1 * one() == one());
        assert(0 * den == 0);
    }
    while e > -360 && !found
        invariant
            -360 <= e <= 345,
            whole@ == in_tens(m as nat, e as int).1,
            rest@ == in_tens(m as nat, e as int).0,
            rest@ < whole@,
            leading_power(m as nat, 345) == leading_power(m as nat, e as int),
            found ==> in_tens(m as nat, e - 1).0 >= in_tens(m as nat, e - 1).1,
        decreases e + 360, if found { 0int } else { 1int },
    {
        let mut smaller: BigNat = whole.copy();
        let mut larger: BigNat = rest.copy();
        proof {
            lemma_in_tens_step(m as nat, e as int);
        }
        if e > 0 {
            let _r: u32 = smaller.div_ten();
        } else {
            larger.mul_add(10, 0);
        }
        if larger.less(&smaller) {
            whole = smaller;
            rest = larger;
            e -= 1;
        } else {
            found = true;
        }
    }
    (e, Counting { count: 0, rest, whole })
}

/// See [`naming_digits`], from the leading power on.
fn find_digits(m: u64) -> (r: (u64, i64))
    requires
        m <= INFINITY,
    ensures
        (r.0 as nat, r.1 as int) == naming_digits(
            m as nat,
            leading_power(m as nat, 345) - 1,
            16,
        ),
        -400 <= r.1 <= 344,
{
    let (top, start): (i64, Counting) = find_leading_power(m);
    let mut c: Counting = start;
    let mut e: i64 = top;
    let mut left: u64 = 17;
    // Ten to the power of how many digits are out.
    let mut bound: u64 = 1;
    let ghost goal = naming_digits(m as nat, top - 1, 16);
    while left > 1
        invariant
            m <= INFINITY,
            1 <= left <= 17,
            e == top - (17 - left),
            -360 <= top <= 345,
            counts(c, m as nat, e as int),
            c.count < bound,
            bound == pow10((17 - left) as nat),
            bound <= 10_000_000_000_000_000,
            naming_digits(m as nat, e - 1, (left - 1) as nat) == goal,
            goal == naming_digits(m as nat, leading_power(m as nat, 345) - 1, 16),
        decreases left,
    {
        next_digit(&mut c, e, Ghost(m as nat));
        e -= 1;
        if let Some(d) = find_naming_count(&c, m, e) {
            return (d, e);
        }
        proof {
            lemma_pow10_steps((18 - left) as nat);
        }
        bound = bound * 10;
        left -= 1;
    }
    next_digit(&mut c, e, Ghost(m as nat));
    e -= 1;
    if let Some(d) = find_naming_count(&c, m, e) {
        return (d, e);
    }
    proof {
        lemma_in_tens_step(m as nat, e as int);
        let (num, den) = in_tens(m as nat, e as int);
        lemma_fundamental_div_mod_converse(num as int, den as int, c.count as int, c.rest@ as int);
    }
    (c.count, e)
}

proof fn lemma_pow10_steps(n: nat)
    requires
        n <= 16,
    ensures
        pow10(n) <= 10_000_000_000_000_000,
{
    reveal_with_fuel(pow10, 17);
    lemma_pow10_adds(n, (16 - n) as nat);
    lemma_pow10_pos((16 - n) as nat);
    let x = pow10(n);
    let y = pow10((16 - n) as nat);
    assert(x <= x * y) by (nonlinear_arith)
        requires
            y >= 1,
            x >= 0,
    ;
    assert(pow10(16) == 10_000_000_000_000_000);
}

impl Double {
    /// See [`shortest`].
    pub fn to_shortest(&self) -> (r: String)
        ensures
            r@ == shortest(*self),
    {
        let mut out: String = String::new();
        let m: u64 = self.bits % SIGN;
        if m > INFINITY {
            out.push('N');
            out.push('a');
            out.push('N');
            assert(out@ =~= shortest(*self));
            return out;
        }
        if self.bits >= SIGN {
            out.push('-');
        }
        assert(out@ =~= sign_text(self.negative()));
        if m == INFINITY {
            out.push('i');
            out.push('n');
            out.push('f');
            assert(out@ =~= shortest(*self));
            return out;
        }
        if m == 0 {
            out.push('0');
            assert(out@ =~= shortest(*self));
            return out;
        }
        let ghost sign = out@;
        let (found, power): (u64, i64) = find_digits(m);
        let mut d: u64 = found;
        let mut e: i64 = power;
        let mut k: u64 = 0;
        assert(found * pow10(0) == found) by (nonlinear_arith)
            requires
                pow10(0) == 1,
        ;
        while d > 0 && d % 10 == 0
            invariant
                without_zeros(d as nat, e as int) == without_zeros(found as nat, power as int),
                -400 <= power <= 344,
                e == power + k,
                k <= 20,
                d * pow10(k as nat) == found,
            decreases d,
        {
            proof {
                let x = pow10(k as nat);
                let q = (d / 10) as nat;
                assert(d == 10 * q);
                assert((10 * q) * x == q * (10 * x)) by (nonlinear_arith);
                assert(q * (10 * x) >= x) by (nonlinear_arith)
                    requires
                        q >= 1,
                        x >= 0,
                ;
                if k == 20 {
                    reveal_with_fuel(pow10, 21);
                    assert(false);
                }
            }
            d = d / 10;
            e += 1;
            k += 1;
        }
        let digits: Vec<char> = to_chars(decimal_text(d).as_str());
        let n: usize = digits.len();
        let ghost s = digits@;
        assert(s == decimal(d as nat));
        if e >= 0 {
            push_chars(&mut out, digits.as_slice());
            push_zeros(&mut out, e as usize);
        } else {
            let places: usize = (-e) as usize;
            if n > places {
                push_chars(&mut out, slice_subrange(digits.as_slice(), 0, n - places));
                out.push('.');
                push_chars(&mut out, slice_subrange(digits.as_slice(), n - places, n));
                assert(s.subrange(0, n - places) =~= s.take(s.len() + e));
                assert(s.subrange(n - places, n as int) =~= s.skip(s.len() + e));
            } else {
                out.push('0');
                out.push('.');
                push_zeros(&mut out, places - n);
                push_chars(&mut out, digits.as_slice());
            }
        }
        assert(out@ =~= sign + written_out(d as nat, e as int));
        out
    }
}

} // verus!
