//! Double-precision arithmetic on integers: every operation returns the number
//! that the rounding model of `rounding` assigns to its exact result.
use crate::rounding;
use vstd::arithmetic::power2::{lemma2_to64, lemma2_to64_rest, lemma_pow2_adds, lemma_pow2_strictly_increases, lemma_pow2_unfold, pow2};
use vstd::prelude::*;

verus! {

/// `x` as a double-precision number.
pub open spec fn double(x: real) -> real {
    rounding::rounded(x, 53)
}

proof fn lemma_shift_is_power(k: u32)
    requires
        k < 127,
    ensures
        (1u128 << k) == pow2(k as nat),
        1 <= (1u128 << k),
    decreases k,
{
    if k == 0 {
        assert(1u128 << 0u32 == 1) by (bit_vector);
        lemma2_to64();
    } else {
        let j = (k - 1) as u32;
        lemma_shift_is_power(j);
        assert((1u128 << k) == 2 * (1u128 << j)) by (bit_vector)
            requires
                j < 126,
                k == j + 1,
        ;
        lemma_pow2_unfold(k as nat);
    }
}

/// Two to the power `k`.
pub(crate) fn power_of_two(k: u32) -> (p: u128)
    requires
        k < 127,
    ensures
        p == pow2(k as nat),
        p >= 1,
{
    proof {
        lemma_shift_is_power(k);
    }
    1u128 << k
}

/// One step of the search for the leading digit of `t`: where `rest`, which is
/// `t` without its last `count` digits, reaches `p`, two to the power `k`, takes
/// another `k` digits off.
fn strip(t: u128, rest: u128, count: u32, p: u128, k: u32) -> (r: (u128, u32))
    requires
        p == pow2(k as nat),
        p >= 2,
        1 <= rest < p * p,
        count + k <= 127,
        pow2(count as nat) * rest <= t < pow2(count as nat) * (rest + 1),
    ensures
        1 <= r.0 < p,
        r.1 <= count + k,
        pow2(r.1 as nat) * r.0 <= t < pow2(r.1 as nat) * (r.0 + 1),
{
    if rest >= p {
        proof {
            let (a, c, r) = (pow2(count as nat) as int, p as int, rest as int);
            let d = r / c;
            lemma_pow2_adds(count as nat, k as nat);
            assert(1 <= d < c && (a * c) * d <= a * r && a * (r + 1) <= (a * c) * (d + 1))
                by (nonlinear_arith)
                requires
                    a >= 0,
                    c >= 2,
                    d == r / c,
                    c <= r < c * c,
            ;
        }
        (rest / p, count + k)
    } else {
        (rest, count)
    }
}

/// The exponent of the leading digit of `t`.
pub(crate) fn leading_digit(t: u128) -> (n: u32)
    requires
        t >= 1,
    ensures
        n <= 127,
        pow2(n as nat) <= t < pow2((n + 1) as nat),
{
    proof {
        lemma2_to64();
        lemma_pow2_adds(64, 64);
    }
    let (rest, count) = strip(t, t, 0, 0x1_0000_0000_0000_0000, 64);
    let (rest, count) = strip(t, rest, count, 0x1_0000_0000, 32);
    let (rest, count) = strip(t, rest, count, 0x1_0000, 16);
    let (rest, count) = strip(t, rest, count, 0x100, 8);
    let (rest, count) = strip(t, rest, count, 0x10, 4);
    let (rest, count) = strip(t, rest, count, 4, 2);
    let (rest, count) = strip(t, rest, count, 2, 1);
    proof {
        let a = pow2(count as nat) as int;
        assert(a * rest == a && a * (rest + 1) == 2 * a) by (nonlinear_arith)
            requires
                rest == 1,
        ;
        lemma_pow2_unfold((count + 1) as nat);
    }
    count
}

/// `t` rounded to `digits` significant digits, as a significand and the number
/// of zero digits that follow it.
pub(crate) fn significand(t: u128, digits: u32) -> (r: (u128, u32))
    requires
        1 <= digits <= 64,
        1 <= t < pow2(127),
    ensures
        rounding::dyadic(r.0 as int, r.1 as int) == rounding::rounded(t as int as real, digits as int),
        1 <= r.0 <= pow2(digits as nat),
        r.1 <= 127 - digits,
        r.1 > 0 ==> r.0 >= pow2((digits - 1) as nat),
{
    let n: u32 = leading_digit(t);
    proof {
        if n >= 127 {
            lemma_increasing(127, n as nat);
        }
        lemma_increasing(0, (digits - 1) as nat);
        lemma_increasing(digits as nat, 64);
        lemma2_to64();
    }
    if n < digits {
        proof {
            lemma_increasing((n + 1) as nat, digits as nat);
            rounding::lemma_rounded_exact(t as int, 0, digits as int);
            rounding::lemma_dyadic_whole(t as int);
        }
        (t, 0)
    } else {
        let k: u32 = n + 1 - digits;
        let unit: u128 = power_of_two(k);
        let q: u128 = t / unit;
        let rem: u128 = t % unit;
        proof {
            lemma_significand(t as int, n as int, digits as int);
        }
        if rem > unit - rem || (rem == unit - rem && q % 2 == 1) {
            (q + 1, k)
        } else {
            (q, k)
        }
    }
}

/// `r` is the integer `t` rounded to `digits` significant digits.
#[verifier::opaque]
pub(crate) open spec fn rounds_to(t: int, r: int, digits: int) -> bool {
    r as real == rounding::rounded(t as real, digits)
}

/// `t` rounded to `digits` significant digits.
#[verifier::spinoff_prover]
pub(crate) fn round_integer(t: u128, digits: u32) -> (r: u128)
    requires
        1 <= digits <= 64,
        t < pow2(127),
    ensures
        rounds_to(t as int, r as int, digits as int),
        r <= pow2(127),
{
    proof {
        reveal(rounds_to);
    }
    if t == 0 {
        proof {
            reveal(rounding::rounded);
        }
        return 0;
    }
    let (m, k): (u128, u32) = significand(t, digits);
    let p: u128 = power_of_two(k);
    proof {
        lemma_pow2_adds(digits as nat, k as nat);
        lemma_increasing((digits + k) as nat, 127);
        lemma_pow2_adds(63, 64);
        lemma2_to64_rest();
        let (a, b, c) = (m as int, pow2(digits as nat) as int, p as int);
        assert(0 <= a * c <= b * c) by (nonlinear_arith)
            requires
                0 <= a <= b,
                c >= 1,
        ;
        rounding::lemma_dyadic_moved(m as int, k as int, k as int);
        rounding::lemma_dyadic_whole(m * p);
    }
    m * p
}

/// The result of rounding a binary number, from the rounding of its magnitude.
#[verifier::spinoff_prover]
pub(crate) proof fn lemma_rounded_signed(t: int, r: int, e: int, digits: int)
    requires
        r >= 0,
        rounds_to(rounding::signed(t < 0, t), r, digits),
    ensures
        rounding::rounded(rounding::dyadic(t, e), digits) == rounding::dyadic(
            rounding::signed(t < 0, r),
            e,
        ),
{
    reveal(rounds_to);
    rounding::lemma_dyadic_whole(r);
    if t < 0 {
        rounding::lemma_rounded_dyadic(-t, e, r, 0, digits);
        rounding::lemma_dyadic_order(t, 0, e);
        rounding::lemma_dyadic_order(r, 0, e);
        rounding::lemma_dyadic_order(-t, 0, e);
        rounding::lemma_rounded_negated(rounding::dyadic(-t, e), digits);
    } else {
        rounding::lemma_rounded_dyadic(t, e, r, 0, digits);
    }
}

proof fn lemma_increasing(a: nat, b: nat)
    requires
        a <= b,
    ensures
        1 <= pow2(a) <= pow2(b),
{
    vstd::arithmetic::power2::lemma_pow2_pos(a);
    if a < b {
        lemma_pow2_strictly_increases(a, b);
    }
}

proof fn lemma_significand(t: int, n: int, digits: int)
    requires
        1 <= digits <= n < 127,
        pow2(n as nat) <= t < pow2((n + 1) as nat),
    ensures
        ({
            let k = n + 1 - digits;
            let unit = pow2(k as nat) as int;
            let m = if 2 * (t % unit) > unit || (2 * (t % unit) == unit && (t / unit) % 2 == 1) {
                t / unit + 1
            } else {
                t / unit
            };
            &&& unit >= 2
            &&& rounding::dyadic(m, k) == rounding::rounded(t as real, digits)
            &&& pow2((digits - 1) as nat) <= t / unit < pow2(digits as nat)
        }),
{
    let k = (n + 1 - digits) as nat;
    let unit = pow2(k) as int;
    let (q, r) = (t / unit, t % unit);
    lemma_pow2_unfold(k);
    lemma_increasing(0, (k - 1) as nat);
    lemma2_to64();
    let p = pow2((digits - 1) as nat) as int;
    lemma_pow2_adds((digits - 1) as nat, k);
    lemma_pow2_adds(digits as nat, k);
    lemma_pow2_unfold(digits as nat);
    assert(t == unit * q + r && 0 <= r < unit && p <= q && q < 2 * p) by (nonlinear_arith)
        requires
            unit >= 2,
            q == t / unit,
            r == t % unit,
            p * unit <= t < (2 * p) * unit,
    ;
    reveal(rounding::rounded);
    reveal(rounding::dyadic);
    let x = t as real;
    rounding::lemma_two_to_pow2(n as nat);
    rounding::lemma_two_to_pow2((n + 1) as nat);
    rounding::lemma_leading(x, n);
    rounding::lemma_two_to_pow2(k);
    let (ur, qr, rr) = (unit as real, q as real, r as real);
    rounding::lemma_product_as_real(unit, q);
    rounding::lemma_quotient_parts((unit * q) as real, rr, ur, qr);
    let d = rr / ur;
    assert(d * ur == rr && 0real <= d && d < 1real) by (nonlinear_arith)
        requires
            d == rr / ur,
            ur > 0real,
            0real <= rr < ur,
    ;
    assert((x / ur).floor() == q);
    assert((2real * d < 1real <==> 2real * rr < ur) && (2real * d == 1real <==> 2real * rr == ur))
        by (nonlinear_arith)
        requires
            d * ur == rr,
            ur > 0real,
    ;
}

/// A positive double-precision number: a significand of 53 digits times a power
/// of two.
pub(crate) struct Double {
    pub(crate) mant: u64,
    pub(crate) exp: i32,
}

impl Double {
    pub(crate) open spec fn value(self) -> real {
        rounding::dyadic(self.mant as int, self.exp as int)
    }

    pub(crate) open spec fn normal(self) -> bool {
        0x10_0000_0000_0000 <= self.mant < 0x20_0000_0000_0000
    }

    /// `t` times two to the power `exp`.
    pub(crate) fn from_integer(t: u128, exp: i32) -> (r: Double)
        requires
            1 <= t < pow2(127),
            -1000 <= exp <= 1000,
        ensures
            r.normal(),
            r.value() == double(rounding::dyadic(t as int, exp as int)),
            exp - 52 <= r.exp <= exp + 75,
    {
        let (m, k): (u128, u32) = significand(t, 53);
        proof {
            lemma2_to64_rest();
            rounding::lemma_rounded_dyadic(t as int, exp as int, m as int, k as int, 53);
        }
        if m == 0x20_0000_0000_0000 {
            proof {
                lemma2_to64();
                rounding::lemma_dyadic_moved(0x10_0000_0000_0000, 1, exp + k + 1);
            }
            Double { mant: 0x10_0000_0000_0000, exp: exp + k as i32 + 1 }
        } else if m >= 0x10_0000_0000_0000 {
            Double { mant: m as u64, exp: exp + k as i32 }
        } else {
            let n: u32 = leading_digit(m);
            proof {
                if n >= 52 {
                    lemma_increasing(52, n as nat);
                }
            }
            let j: u32 = 52 - n;
            let p: u128 = power_of_two(j);
            proof {
                lemma_widened(m as int, n as int);
                rounding::lemma_dyadic_moved(m as int, j as int, exp as int);
            }
            Double { mant: (m * p) as u64, exp: exp - j as i32 }
        }
    }

    /// `num / den` times two to the power `exp`. The quotient has digits enough
    /// to round from its integer part and whether anything is left of it.
    pub(crate) fn from_quotient(num: u128, den: u128, exp: i32) -> (r: Double)
        requires
            den >= 1,
            0x20_0000_0000_0000 <= num as int / den as int,
            num < pow2(125),
            -900 <= exp <= 900,
        ensures
            r.normal(),
            r.value() == double(quotient(num as int, den as int, exp as int)),
            exp - 53 <= r.exp <= exp + 75,
    {
        let q: u128 = num / den;
        proof {
            lemma_pow2_adds(125, 2);
            lemma_pow2_adds(63, 64);
            lemma2_to64();
            lemma2_to64_rest();
            let (a, b) = (num as int, den as int);
            assert(a / b <= a) by (nonlinear_arith)
                requires
                    a >= 0,
                    b >= 1,
            ;
        }
        if num % den == 0 {
            proof {
                lemma_quotient_whole(num as int, den as int, exp as int);
            }
            Double::from_integer(q, exp)
        } else {
            proof {
                lemma_quotient_jammed(num as int, den as int, exp as int);
            }
            Double::from_integer(2 * q + 1, exp - 1)
        }
    }

    pub(crate) fn times(&self, other: &Double) -> (r: Double)
        requires
            self.normal(),
            other.normal(),
            -400 <= self.exp <= 400,
            -400 <= other.exp <= 400,
        ensures
            r.normal(),
            r.value() == double(self.value() * other.value()),
            self.exp + other.exp - 52 <= r.exp <= self.exp + other.exp + 75,
    {
        proof {
            let (a, b) = (self.mant as int, other.mant as int);
            assert(1 <= a * b < 0x20_0000_0000_0000 * 0x20_0000_0000_0000) by (nonlinear_arith)
                requires
                    1 <= a < 0x20_0000_0000_0000,
                    1 <= b < 0x20_0000_0000_0000,
            ;
            lemma_pow2_adds(63, 64);
            lemma2_to64_rest();
            rounding::lemma_dyadic_product(a, self.exp as int, b, other.exp as int);
        }
        Double::from_integer(self.mant as u128 * other.mant as u128, self.exp + other.exp)
    }

    pub(crate) fn divided_by(&self, other: &Double) -> (r: Double)
        requires
            self.normal(),
            other.normal(),
            -400 <= self.exp <= 400,
            -400 <= other.exp <= 400,
        ensures
            r.normal(),
            r.value() == double(self.value() / other.value()),
            self.exp - other.exp - 113 <= r.exp <= self.exp - other.exp + 15,
    {
        let p: u128 = 0x1000_0000_0000_0000;
        proof {
            let (a, b) = (self.mant as int, other.mant as int);
            lemma_pow2_adds(61, 64);
            lemma2_to64_rest();
            let n = a * 0x1000_0000_0000_0000;
            let q = n / b;
            assert(0x20_0000_0000_0000 <= q) by (nonlinear_arith)
                requires
                    n == a * 0x1000_0000_0000_0000,
                    q == n / b,
                    0x10_0000_0000_0000 <= a,
                    0x10_0000_0000_0000 <= b < 0x20_0000_0000_0000,
            ;
            lemma_quotient_of_values(a, b, self.exp as int, other.exp as int);
        }
        Double::from_quotient(self.mant as u128 * p, other.mant as u128, self.exp - other.exp - 60)
    }
}

/// The number `num / den` times two to the power `e`.
#[verifier::opaque]
pub(crate) open spec fn quotient(num: int, den: int, e: int) -> real {
    (num as real / den as real) * rounding::two_to(e)
}

proof fn lemma_quotient_whole(num: int, den: int, e: int)
    requires
        den >= 1,
        num % den == 0,
    ensures
        quotient(num, den, e) == rounding::dyadic(num / den, e),
{
    reveal(quotient);
    reveal(rounding::dyadic);
    let q = num / den;
    assert(num == den * q) by (nonlinear_arith)
        requires
            den >= 1,
            q == num / den,
            num % den == 0,
    ;
    rounding::lemma_product_as_real(den, q);
    let (d, x) = (den as real, q as real);
    assert((d * x) / d == x) by (nonlinear_arith)
        requires
            d > 0real,
    ;
}

proof fn lemma_quotient_jammed(num: int, den: int, e: int)
    requires
        den >= 1,
        num % den != 0,
        num / den >= 0x20_0000_0000_0000,
    ensures
        double(quotient(num, den, e)) == double(rounding::dyadic(2 * (num / den) + 1, e - 1)),
{
    let (q, r) = (num / den, num % den);
    assert(num == den * q + r && 0 < r < den) by (nonlinear_arith)
        requires
            den >= 1,
            q == num / den,
            r == num % den,
            r != 0,
    ;
    let (d, x, y) = (den as real, q as real, r as real);
    let s = y / d;
    assert(num as real / d == x + s) by {
        rounding::lemma_product_as_real(den, q);
        rounding::lemma_quotient_parts(d * x, y, d, x);
    }
    assert(0real < s < 1real) by (nonlinear_arith)
        requires
            s == y / d,
            0real < y < d,
    ;
    let half = 1real / 2real;
    lemma2_to64_rest();
    rounding::lemma_two_to_pow2(53);
    rounding::lemma_rounded_between(q, s, half, 53);
    rounding::lemma_rounded_scales(x + s, e, 53);
    rounding::lemma_rounded_scales(x + half, e, 53);
    let t = rounding::two_to(e);
    assert(quotient(num, den, e) == (x + s) * t) by {
        reveal(quotient);
    }
    assert(rounding::dyadic(2 * q + 1, e - 1) == (x + half) * t) by {
        reveal(rounding::dyadic);
        rounding::lemma_two_to_step(e - 1);
        let u = rounding::two_to(e - 1);
        assert((x + half) * (2real * u) == (2real * x + 1real) * u) by (nonlinear_arith)
            requires
                half == 1real / 2real,
        ;
    }
}

proof fn lemma_quotient_of_values(a: int, b: int, e: int, f: int)
    requires
        b >= 1,
    ensures
        quotient(a * 0x1000_0000_0000_0000, b, e - f - 60) == rounding::dyadic(a, e)
            / rounding::dyadic(b, f),
{
    reveal(quotient);
    reveal(rounding::dyadic);
    lemma2_to64_rest();
    rounding::lemma_two_to_pow2(60);
    rounding::lemma_two_to_add(60, e - f - 60);
    rounding::lemma_two_to_add(e - f, f);
    rounding::lemma_two_to_step(f);
    let (x, y, c, t) = (a as real, b as real, rounding::two_to(60), rounding::two_to(e - f - 60));
    let (u, v) = (rounding::two_to(e - f), rounding::two_to(f));
    assert((a * 0x1000_0000_0000_0000) as real == x * c) by {
        rounding::lemma_product_as_real(a, 0x1000_0000_0000_0000);
    }
    assert(((x * c) / y) * t == (x / y) * (c * t)) by (nonlinear_arith)
        requires
            y > 0real,
    ;
    assert((x * (u * v)) / (y * v) == (x / y) * u) by (nonlinear_arith)
        requires
            y > 0real,
            v > 0real,
    ;
}

/// A number below 53 digits fills them when it is moved up.
proof fn lemma_widened(m: int, n: int)
    requires
        0 <= n < 52,
        pow2(n as nat) <= m < pow2((n + 1) as nat),
    ensures
        0x10_0000_0000_0000 <= m * pow2((52 - n) as nat) < 0x20_0000_0000_0000,
        pow2((52 - n) as nat) <= 0x10_0000_0000_0000,
{
    let j = (52 - n) as nat;
    lemma2_to64_rest();
    lemma_increasing(j, 52);
    lemma_pow2_adds(n as nat, j);
    lemma_pow2_adds((n + 1) as nat, j);
    let (a, b, p) = (pow2(n as nat) as int, pow2((n + 1) as nat) as int, pow2(j) as int);
    assert(a * p <= m * p && m * p < b * p) by (nonlinear_arith)
        requires
            a <= m < b,
            p >= 1,
    ;
}

} // verus!
