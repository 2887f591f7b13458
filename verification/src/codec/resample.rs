//! Sample rate conversion by linear interpolation in double precision.
use crate::double;
use crate::double::{power_of_two, round_integer, Double};
use crate::rounding;
use vstd::arithmetic::power2::{lemma2_to64, lemma2_to64_rest, lemma_pow2_adds, lemma_pow2_strictly_increases, pow2};
use vstd::prelude::*;
use vstd::slice::slice_to_vec;

verus! {

/// The smallest integer that is not below `x`.
pub open spec fn ceiling(x: real) -> int {
    -((-x).floor())
}

/// The distance between two output samples, counted in input samples.
pub open spec fn step(from_rate: u32, to_rate: u32) -> real {
    double::double(from_rate as int as real / to_rate as int as real)
}

/// Where output sample `i` falls among the input samples.
pub open spec fn position(i: int, from_rate: u32, to_rate: u32) -> real {
    double::double(double::double(i as real) * step(from_rate, to_rate))
}

/// The number of output samples for `len` input samples. A target rate of zero
/// makes the step infinite and leaves no output.
pub open spec fn resampled_len(len: int, from_rate: u32, to_rate: u32) -> int {
    if from_rate == to_rate || len == 0 {
        len
    } else if to_rate == 0 {
        0
    } else {
        ceiling(double::double(double::double(len as real) / step(from_rate, to_rate)))
    }
}

/// The point a fraction `frac` of the way from `a` to `b`.
pub open spec fn blend(a: int, b: int, frac: real) -> int {
    rounding::truncated(
        double::double(a as real + double::double(double::double((b - a) as real) * frac)),
    )
}

/// The value at `pos`: between the two samples around it, or the last sample
/// where no sample follows.
pub open spec fn interpolated(input: Seq<i16>, pos: real) -> int {
    let k = pos.floor();
    if k + 1 < input.len() {
        blend(input[k] as int, input[k + 1] as int, double::double(pos - k as real))
    } else {
        input.last() as int
    }
}

/// `input` taken from `from_rate` to `to_rate`.
pub open spec fn resampled(input: Seq<i16>, from_rate: u32, to_rate: u32) -> Seq<i16> {
    if from_rate == to_rate || input.len() == 0 {
        input
    } else {
        Seq::new(
            resampled_len(input.len() as int, from_rate, to_rate) as nat,
            |i: int| interpolated(input, position(i, from_rate, to_rate)) as i16,
        )
    }
}

/// The conversion has a result that memory can hold: the source rate is not zero,
/// or does not matter, and the output is no longer than an allocation may be. The
/// product bounds twice the output, so where it is small nothing more is asked.
pub open spec fn resamples(len: int, from_rate: u32, to_rate: u32) -> bool {
    ||| from_rate == to_rate
    ||| len == 0
    ||| to_rate == 0
    ||| from_rate != 0 && (4 * (len * to_rate) <= isize::MAX || 2 * resampled_len(
        len,
        from_rate,
        to_rate,
    ) <= isize::MAX)
}

#[verifier::spinoff_prover]
pub proof fn lemma_double_whole(m: int)
    requires
        -0x20_0000_0000_0000 <= m <= 0x20_0000_0000_0000,
    ensures
        double::double(m as real) == m as real,
{
    lemma2_to64_rest();
    rounding::lemma_rounded_exact(m, 0, 53);
    rounding::lemma_dyadic_whole(m);
}

/// Rounding changes a positive number by no more than a sixteenth of it.
#[verifier::spinoff_prover]
proof fn lemma_double_near(x: real)
    requires
        x > 0real,
    ensures
        15real * x <= 16real * double::double(x) <= 17real * x,
{
    lemma2_to64();
    rounding::lemma_rounded_error(x, 53);
    rounding::lemma_two_to_increases(-53, -4);
    rounding::lemma_two_to_reciprocal(4, 16);
    rounding::lemma_two_to_step(-53);
    let u = rounding::two_to(-53);
    let y = x * u;
    assert(0real <= 16real * y <= x) by (nonlinear_arith)
        requires
            y == x * u,
            x > 0real,
            0real < u,
            16real * u <= 1real,
    ;
}

/// The output is at most twice as long as the input times the target rate.
#[verifier::spinoff_prover]
pub proof fn lemma_resampled_len_bound(len: int, from_rate: u32, to_rate: u32)
    requires
        len >= 1,
        from_rate >= 1,
        to_rate >= 1,
    ensures
        resampled_len(len, from_rate, to_rate) <= 2 * (len * to_rate),
{
    let n = len * to_rate;
    assert(n >= len) by (nonlinear_arith)
        requires
            n == len * to_rate,
            len >= 1,
            to_rate >= 1,
    ;
    let (f, t, l) = (from_rate as int as real, to_rate as int as real, len as real);
    rounding::lemma_product_as_real(len, to_rate as int);
    let x = f / t;
    assert(x * t == f && x > 0real) by (nonlinear_arith)
        requires
            x == f / t,
            f > 0real,
            t > 0real,
    ;
    lemma_double_near(x);
    lemma_double_near(l);
    let (a, s) = (double::double(l), step(from_rate, to_rate));
    let q = a / s;
    lemma_count_bound(x, t, l, a, s, q);
    lemma_double_near(q);
}

#[verifier::spinoff_prover]
proof fn lemma_count_bound(x: real, t: real, l: real, a: real, s: real, q: real)
    requires
        t > 0real,
        x * t >= 1real,
        l > 0real,
        a > 0real,
        16real * a <= 17real * l,
        15real * x <= 16real * s,
        s > 0real,
        q == a / s,
    ensures
        0real < q,
        15real * q <= 17real * (l * t),
{
    assert(0real < q && q * s == a) by (nonlinear_arith)
        requires
            q == a / s,
            a > 0real,
            s > 0real,
    ;
    let w = s * t;
    assert(16real * w >= 15real) by (nonlinear_arith)
        requires
            w == s * t,
            15real * x <= 16real * s,
            x * t >= 1real,
            t > 0real,
    ;
    assert(q * w == a * t) by (nonlinear_arith)
        requires
            w == s * t,
            q * s == a,
    ;
    assert(15real * q <= 16real * (q * w)) by (nonlinear_arith)
        requires
            16real * w >= 15real,
            q > 0real,
    ;
    assert(16real * (a * t) <= 17real * (l * t)) by (nonlinear_arith)
        requires
            16real * a <= 17real * l,
            t > 0real,
    ;
}

/// A blend lies between its end points.
#[verifier::spinoff_prover]
pub proof fn lemma_blend_between(a: int, b: int, frac: real)
    requires
        -32768 <= a <= 32767,
        -32768 <= b <= 32767,
        0real <= frac <= 1real,
    ensures
        a <= b ==> a <= blend(a, b, frac) <= b,
        b <= a ==> b <= blend(a, b, frac) <= a,
{
    let d = b - a;
    lemma_double_whole(d);
    lemma_double_whole(0);
    lemma_double_whole(a);
    lemma_double_whole(b);
    let dr = d as real;
    let x = dr * frac;
    let p = double::double(x);
    let y = a as real + p;
    if d >= 0 {
        assert(0real <= x <= dr) by (nonlinear_arith)
            requires
                x == dr * frac,
                dr >= 0real,
                0real <= frac <= 1real,
        ;
        rounding::lemma_rounded_monotone(0real, x, 53);
        rounding::lemma_rounded_monotone(x, dr, 53);
        rounding::lemma_rounded_monotone(a as real, y, 53);
        rounding::lemma_rounded_monotone(y, b as real, 53);
    } else {
        assert(dr <= x <= 0real) by (nonlinear_arith)
            requires
                x == dr * frac,
                dr <= 0real,
                0real <= frac <= 1real,
        ;
        rounding::lemma_rounded_monotone(x, 0real, 53);
        rounding::lemma_rounded_monotone(dr, x, 53);
        rounding::lemma_rounded_monotone(y, a as real, 53);
        rounding::lemma_rounded_monotone(b as real, y, 53);
    }
}

/// The blend of `a` and `b` in units of two to the power `-s`.
#[verifier::spinoff_prover]
proof fn lemma_blend_scaled(a: int, b: int, fm: int, s: int, p: int, r: int)
    requires
        -32768 <= a <= 32767,
        -32768 <= b <= 32767,
        fm >= 0,
        s >= 0,
        p >= 0,
        r >= 0,
        double::rounds_to(rounding::signed(b < a, (b - a) * fm), p, 53),
        ({
            let sum = a * pow2(s as nat) + rounding::signed(b < a, p);
            double::rounds_to(rounding::signed(sum < 0, sum), r, 53)
        }),
    ensures
        ({
            let sum = a * pow2(s as nat) + rounding::signed(b < a, p);
            blend(a, b, rounding::dyadic(fm, -s)) == rounding::signed(sum < 0, r / pow2(s as nat) as int)
        }),
{
    let d = b - a;
    lemma_double_whole(d);
    rounding::lemma_dyadic_whole(d);
    rounding::lemma_dyadic_product(d, 0, fm, -s);
    assert(d < 0 ==> d * fm <= 0) by (nonlinear_arith)
        requires
            fm >= 0,
    ;
    assert(d >= 0 ==> d * fm >= 0) by (nonlinear_arith)
        requires
            fm >= 0,
    ;
    let prod = rounding::signed(b < a, p);
    assert(double::double(rounding::dyadic(d * fm, -s)) == rounding::dyadic(prod, -s)) by {
        if d < 0 && d * fm == 0 {
            reveal(double::rounds_to);
            lemma_double_whole(0);
            assert(p == 0);
        }
        double::lemma_rounded_signed(d * fm, p, -s, 53);
    }
    let sum = a * pow2(s as nat) + prod;
    rounding::lemma_dyadic_moved(a, s, 0);
    rounding::lemma_dyadic_whole(a);
    rounding::lemma_dyadic_sum(a * pow2(s as nat), prod, -s);
    double::lemma_rounded_signed(sum, r, -s, 53);
    rounding::lemma_truncated_dyadic(r, s);
}

/// The blend of two samples, `fm` times two to the power `-s` of the way.
#[verifier::spinoff_prover]
fn blend_samples(a: i16, b: i16, fm: u64, s: u32) -> (r: i16)
    requires
        s <= 84,
        fm < pow2(s as nat),
        fm < 0x20_0000_0000_0000,
    ensures
        r == blend(a as int, b as int, rounding::dyadic(fm as int, -(s as int))),
{
    let falling: bool = b < a;
    let diff: u32 = if falling {
        (a as i32 - b as i32) as u32
    } else {
        (b as i32 - a as i32) as u32
    };
    let size: u32 = if a < 0 {
        (-(a as i32)) as u32
    } else {
        a as u32
    };
    let unit: u128 = power_of_two(s);
    proof {
        lemma2_to64();
        lemma2_to64_rest();
        lemma_pow2_adds(20, 64);
        lemma_pow2_adds(36, 64);
        lemma_pow2_adds(63, 64);
        if s < 84 {
            lemma_pow2_strictly_increases(s as nat, 84);
        }
        let (d, f, w, u) = (diff as int, fm as int, size as int, unit as int);
        assert(0 <= d * f <= 65535 * 0x20_0000_0000_0000) by (nonlinear_arith)
            requires
                0 <= d <= 65535,
                0 <= f <= 0x20_0000_0000_0000,
        ;
        assert(0 <= w * u <= 32768 * u) by (nonlinear_arith)
            requires
                0 <= w <= 32768,
                u >= 0,
        ;
    }
    let t: u128 = diff as u128 * fm as u128;
    let p: u128 = round_integer(t, 53);
    let whole: u128 = size as u128 * unit;
    proof {
        lemma_rounded_small(t as int, p as int);
    }
    let (negative, magnitude): (bool, u128) = if (a < 0) == falling {
        (a < 0, whole + p)
    } else if whole >= p {
        (a < 0, whole - p)
    } else {
        (falling, p - whole)
    };
    let nearest: u128 = round_integer(magnitude, 53);
    let q: u128 = nearest / unit;
    proof {
        lemma_signs(a as int, b as int, fm as int, unit as int);
        lemma_rounded_zero(nearest as int, magnitude as int, unit as int);
        lemma_blend_scaled(a as int, b as int, fm as int, s as int, p as int, nearest as int);
        lemma_fraction_below_one(fm as int, s as int);
        lemma_blend_between(a as int, b as int, rounding::dyadic(fm as int, -(s as int)));
    }
    if negative {
        (-(q as i32)) as i16
    } else {
        q as i16
    }
}

proof fn lemma_signs(a: int, b: int, fm: int, unit: int)
    ensures
        b < a ==> -((b - a) * fm) == (a - b) * fm,
        (-a) * unit == -(a * unit),
{
    assert(-((b - a) * fm) == (a - b) * fm) by (nonlinear_arith);
    assert((-a) * unit == -(a * unit)) by (nonlinear_arith);
}

/// A product of a sample difference and a fraction stays far below the limit.
#[verifier::spinoff_prover]
proof fn lemma_rounded_small(t: int, p: int)
    requires
        0 <= t <= 65535 * 0x20_0000_0000_0000,
        double::rounds_to(t, p, 53),
    ensures
        0 <= p <= 0x20_0000_0000_0000 * 0x1_0000,
{
    reveal(double::rounds_to);
    let m = 0x20_0000_0000_0000 * 0x1_0000int;
    rounding::lemma_rounded_monotone(t as real, m as real, 53);
    lemma2_to64();
    lemma2_to64_rest();
    rounding::lemma_rounded_exact(0x20_0000_0000_0000, 16, 53);
    rounding::lemma_dyadic_moved(0x20_0000_0000_0000, 16, 16);
    rounding::lemma_dyadic_whole(m);
    rounding::lemma_rounded_monotone(0real, t as real, 53);
    lemma_double_whole(0);
}

#[verifier::spinoff_prover]
proof fn lemma_rounded_zero(r: int, m: int, unit: int)
    requires
        double::rounds_to(m, r, 53),
        unit >= 1,
    ensures
        m == 0 ==> r / unit == 0,
{
    reveal(double::rounds_to);
    lemma_double_whole(0);
    assert(0int / unit == 0) by (nonlinear_arith)
        requires
            unit >= 1,
    ;
}

#[verifier::spinoff_prover]
proof fn lemma_fraction_below_one(fm: int, s: int)
    requires
        s >= 0,
        0 <= fm < pow2(s as nat),
    ensures
        0real <= rounding::dyadic(fm, -s) < 1real,
{
    rounding::lemma_dyadic_moved(1, s, 0);
    rounding::lemma_dyadic_whole(1);
    rounding::lemma_dyadic_order(pow2(s as nat) as int, fm, -s);
    rounding::lemma_dyadic_order(0, fm, -s);
}

/// Splits a position into its integer part and `fm` times two to the power `-s`;
/// `None` for a position that no index reaches.
#[verifier::spinoff_prover]
fn split(pos: &Double) -> (r: Option<(u128, u64, u32)>)
    requires
        pos.normal(),
        pos.exp >= -84,
    ensures
        match r {
            Some((whole, fm, s)) => {
                &&& pos.value().floor() == whole
                &&& double::double(pos.value() - whole as int as real) == rounding::dyadic(
                    fm as int,
                    -(s as int),
                )
                &&& fm < pow2(s as nat)
                &&& fm < 0x20_0000_0000_0000
                &&& s <= 84
            },
            None => pos.value().floor() > u64::MAX,
        },
{
    if pos.exp < 0 {
        let s: u32 = (-pos.exp) as u32;
        let unit: u128 = power_of_two(s);
        proof {
            lemma_fraction(pos.mant as int, s as int);
        }
        Some((pos.mant as u128 / unit, (pos.mant as u128 % unit) as u64, s))
    } else if pos.exp < 12 {
        let unit: u128 = power_of_two(pos.exp as u32);
        proof {
            lemma_whole_position(pos.mant as int, pos.exp as int);
        }
        Some((pos.mant as u128 * unit, 0, 0))
    } else {
        proof {
            lemma_far_position(pos.mant as int, pos.exp as int);
        }
        None
    }
}

#[verifier::spinoff_prover]
proof fn lemma_fraction(m: int, s: int)
    requires
        0 <= m < 0x20_0000_0000_0000,
        s >= 0,
    ensures
        ({
            let p = pow2(s as nat) as int;
            let v = rounding::dyadic(m, -s);
            &&& p >= 1
            &&& v.floor() == m / p
            &&& double::double(v - (m / p) as real) == rounding::dyadic(m % p, -s)
            &&& 0 <= m % p < p
            &&& m % p <= m
            &&& 0 <= m / p <= m
        }),
{
    let p = pow2(s as nat) as int;
    vstd::arithmetic::power2::lemma_pow2_pos(s as nat);
    rounding::lemma_dyadic_floor(m, s);
    assert(0 <= m % p < p && m % p <= m && 0 <= m / p <= m) by (nonlinear_arith)
        requires
            p >= 1,
            m >= 0,
    ;
    lemma2_to64_rest();
    rounding::lemma_rounded_exact(m % p, -s, 53);
}

#[verifier::spinoff_prover]
proof fn lemma_whole_position(m: int, e: int)
    requires
        0 <= m < 0x20_0000_0000_0000,
        0 <= e < 12,
    ensures
        ({
            let w = m * pow2(e as nat);
            let v = rounding::dyadic(m, e);
            &&& v == w as real
            &&& v.floor() == w
            &&& double::double(v - w as real) == rounding::dyadic(0, 0)
            &&& 0 <= w <= u128::MAX
            &&& pow2(0) == 1
        }),
{
    lemma2_to64();
    lemma_pow2_strictly_increases(e as nat, 12);
    let p = pow2(e as nat) as int;
    assert(0 <= m * p <= 0x20_0000_0000_0000 * 4096) by (nonlinear_arith)
        requires
            0 <= m <= 0x20_0000_0000_0000,
            0 <= p <= 4096,
    ;
    rounding::lemma_dyadic_moved(m, e, e);
    rounding::lemma_dyadic_whole(m * p);
    rounding::lemma_dyadic_whole(0);
    lemma_double_whole(0);
}

#[verifier::spinoff_prover]
proof fn lemma_far_position(m: int, e: int)
    requires
        0x10_0000_0000_0000 <= m,
        e >= 12,
    ensures
        rounding::dyadic(m, e).floor() > u64::MAX,
{
    lemma2_to64();
    if e > 12 {
        lemma_pow2_strictly_increases(12, e as nat);
    }
    let p = pow2(e as nat) as int;
    assert(m * p >= 0x10_0000_0000_0000 * 4096) by (nonlinear_arith)
        requires
            m >= 0x10_0000_0000_0000,
            p >= 4096,
    ;
    rounding::lemma_dyadic_moved(m, e, e);
    rounding::lemma_dyadic_whole(m * p);
}

/// The interpolated sample at `pos`.
#[verifier::spinoff_prover]
fn sample_at(input: &[i16], pos: &Double) -> (r: i16)
    requires
        input@.len() >= 1,
        pos.normal(),
        pos.exp >= -84,
    ensures
        r == interpolated(input@, pos.value()),
{
    let last: usize = input.len() - 1;
    match split(pos) {
        Some((whole, fm, s)) => {
            if whole < last as u128 {
                let k: usize = whole as usize;
                blend_samples(input[k], input[k + 1], fm, s)
            } else {
                input[last]
            }
        },
        None => input[last],
    }
}

/// Both rates are positive, so the step lies well inside the format.
#[verifier::spinoff_prover]
proof fn lemma_step_range(from_rate: u32, to_rate: u32)
    requires
        from_rate >= 1,
        to_rate >= 1,
    ensures
        rounding::dyadic(1, -32) <= step(from_rate, to_rate) <= rounding::dyadic(1, 32),
{
    let (f, t) = (from_rate as int as real, to_rate as int as real);
    let x = f / t;
    let (lo, hi) = (rounding::dyadic(1, -32), rounding::dyadic(1, 32));
    lemma2_to64();
    rounding::lemma_dyadic_moved(1, 32, 32);
    rounding::lemma_dyadic_whole(0x1_0000_0000);
    rounding::lemma_dyadic_product(1, 32, 1, -32);
    rounding::lemma_dyadic_whole(1);
    assert(x <= hi) by (nonlinear_arith)
        requires
            x == f / t,
            t >= 1real,
            0real < f < hi,
    ;
    assert(lo <= x) by (nonlinear_arith)
        requires
            x == f / t,
            f >= 1real,
            1real <= t < hi,
            hi * lo == 1real,
            hi == 0x1_0000_0000real,
    ;
    lemma2_to64_rest();
    rounding::lemma_rounded_exact(1, 32, 53);
    rounding::lemma_rounded_exact(1, -32, 53);
    rounding::lemma_rounded_monotone(lo, x, 53);
    rounding::lemma_rounded_monotone(x, hi, 53);
}

/// A number that is not tiny has few fractional digits.
#[verifier::spinoff_prover]
proof fn lemma_exponent_floor(m: int, e: int)
    requires
        0 <= m < 0x20_0000_0000_0000,
        rounding::dyadic(1, -32) <= rounding::dyadic(m, e),
    ensures
        e >= -84,
{
    if e < -84 {
        lemma2_to64_rest();
        rounding::lemma_dyadic_moved(1, 53, e + 53);
        rounding::lemma_dyadic_order(0x20_0000_0000_0000, m, e);
        rounding::lemma_dyadic_unit(e + 53);
        rounding::lemma_dyadic_unit(-32);
        rounding::lemma_two_to_increases(e + 53, -32);
    }
}

#[verifier::spinoff_prover]
proof fn lemma_step_quotient(f: int, t: int)
    requires
        t >= 1,
    ensures
        double::quotient(f * pow2(90), t, -90) == f as real / t as real,
{
    reveal(double::quotient);
    rounding::lemma_two_to_pow2(90);
    rounding::lemma_two_to_inverse(90);
    rounding::lemma_product_as_real(f, pow2(90) as int);
    let (x, y, a, b) = (f as real, t as real, rounding::two_to(90), rounding::two_to(-90));
    assert(((x * a) / y) * b == x / y) by (nonlinear_arith)
        requires
            y > 0real,
            a * b == 1real,
    ;
}

/// The distance between two output samples.
#[verifier::spinoff_prover]
fn step_between(from_rate: u32, to_rate: u32) -> (r: Double)
    requires
        from_rate >= 1,
        to_rate >= 1,
    ensures
        r.normal(),
        r.value() == step(from_rate, to_rate),
        -143 <= r.exp <= -15,
{
    let unit: u128 = power_of_two(90);
    proof {
        lemma2_to64();
        lemma2_to64_rest();
        lemma_pow2_adds(26, 64);
        lemma_pow2_adds(61, 64);
        lemma_step_quotient(from_rate as int, to_rate as int);
        let (f, t, u) = (from_rate as int, to_rate as int, unit as int);
        assert(f * u <= 0xFFFF_FFFF * u) by (nonlinear_arith)
            requires
                0 <= f <= 0xFFFF_FFFF,
                u >= 0,
        ;
        let n = f * u;
        assert(n / t >= 0x20_0000_0000_0000) by (nonlinear_arith)
            requires
                n == f * u,
                u == 0x400_0000 * 0x1_0000_0000_0000_0000,
                f >= 1,
                1 <= t <= 0xFFFF_FFFF,
        ;
    }
    Double::from_quotient(from_rate as u128 * unit, to_rate as u128, -90)
}

#[verifier::spinoff_prover]
proof fn lemma_ceiling(m: int, s: int)
    requires
        s >= 0,
        m >= 0,
    ensures
        ceiling(rounding::dyadic(m, -s)) == (if m % pow2(s as nat) as int == 0 {
            m / pow2(s as nat) as int
        } else {
            m / pow2(s as nat) as int + 1
        }),
{
    let p = pow2(s as nat) as int;
    vstd::arithmetic::power2::lemma_pow2_pos(s as nat);
    rounding::lemma_dyadic_floor(m, s);
    let r = m % p;
    lemma_fraction_below_one(r, s);
    rounding::lemma_dyadic_order(r, 0, -s);
}

/// A length or a position is at least one step of the coarsest kind.
#[verifier::spinoff_prover]
proof fn lemma_not_tiny(n: int, from_rate: u32, to_rate: u32)
    requires
        n >= 1,
        from_rate >= 1,
        to_rate >= 1,
    ensures
        double::double(n as real) >= 1real,
        rounding::dyadic(1, -32) <= double::double(
            double::double(n as real) * step(from_rate, to_rate),
        ),
        rounding::dyadic(1, -32) <= double::double(
            double::double(n as real) / step(from_rate, to_rate),
        ),
{
    lemma_step_range(from_rate, to_rate);
    lemma_double_whole(1);
    rounding::lemma_rounded_monotone(1real, n as real, 53);
    let (x, y) = (double::double(n as real), step(from_rate, to_rate));
    let (lo, hi) = (rounding::dyadic(1, -32), rounding::dyadic(1, 32));
    rounding::lemma_dyadic_product(1, 32, 1, -32);
    rounding::lemma_dyadic_whole(1);
    rounding::lemma_dyadic_order(1, 0, -32);
    let (a, b) = (x * y, x / y);
    assert(lo <= a) by (nonlinear_arith)
        requires
            a == x * y,
            x >= 1real,
            y >= lo,
            lo >= 0real,
    ;
    assert(lo <= b) by (nonlinear_arith)
        requires
            b == x / y,
            x >= 1real,
            lo <= y <= hi,
            lo > 0real,
            hi * lo == 1real,
    ;
    lemma2_to64_rest();
    rounding::lemma_rounded_exact(1, -32, 53);
    rounding::lemma_rounded_monotone(lo, a, 53);
    rounding::lemma_rounded_monotone(lo, b, 53);
}

/// A positive integer as a double-precision number.
#[verifier::spinoff_prover]
fn whole(n: usize) -> (r: Double)
    requires
        n >= 1,
    ensures
        r.normal(),
        r.value() == double::double(n as int as real),
        -52 <= r.exp <= 75,
{
    proof {
        lemma_pow2_adds(63, 64);
        lemma2_to64();
        lemma2_to64_rest();
        rounding::lemma_dyadic_whole(n as int);
    }
    Double::from_integer(n as u128, 0)
}

/// The number of samples that `resample_linear` makes of `len` samples; `None`
/// where no index type holds it.
#[verifier::spinoff_prover]
pub fn resampled_length(len: usize, from_rate: u32, to_rate: u32) -> (r: Option<usize>)
    requires
        from_rate == to_rate || len == 0 || to_rate == 0 || from_rate != 0,
    ensures
        match r {
            Some(n) => n == resampled_len(len as int, from_rate, to_rate),
            None => resampled_len(len as int, from_rate, to_rate) > usize::MAX,
        },
{
    if from_rate == to_rate || len == 0 {
        return Some(len);
    }
    if to_rate == 0 {
        return Some(0);
    }
    let count: Double = whole(len).divided_by(&step_between(from_rate, to_rate));
    proof {
        lemma_not_tiny(len as int, from_rate, to_rate);
        lemma_exponent_floor(count.mant as int, count.exp as int);
    }
    if count.exp >= 12 {
        proof {
            lemma_far_position(count.mant as int, count.exp as int);
        }
        return None;
    }
    let n: u128 = if count.exp >= 0 {
        let unit: u128 = power_of_two(count.exp as u32);
        proof {
            lemma_whole_position(count.mant as int, count.exp as int);
        }
        count.mant as u128 * unit
    } else {
        let s: u32 = (-count.exp) as u32;
        let unit: u128 = power_of_two(s);
        proof {
            lemma_fraction(count.mant as int, s as int);
            lemma_ceiling(count.mant as int, s as int);
        }
        let q: u128 = count.mant as u128 / unit;
        if count.mant as u128 % unit == 0 {
            q
        } else {
            q + 1
        }
    };
    if n <= usize::MAX as u128 {
        Some(n as usize)
    } else {
        None
    }
}

/// An interpolated value stays within the bounds of the samples.
#[verifier::spinoff_prover]
pub proof fn lemma_interpolated_range(input: Seq<i16>, pos: real, lo: i16, hi: i16)
    requires
        input.len() >= 1,
        pos >= 0real,
        forall|i: int| 0 <= i < input.len() ==> lo <= #[trigger] input[i] <= hi,
    ensures
        lo <= interpolated(input, pos) <= hi,
{
    let k = pos.floor();
    if k + 1 < input.len() {
        let frac = pos - k as real;
        lemma_double_whole(0);
        lemma_double_whole(1);
        rounding::lemma_rounded_monotone(0real, frac, 53);
        rounding::lemma_rounded_monotone(frac, 1real, 53);
        lemma_blend_between(input[k] as int, input[k + 1] as int, double::double(frac));
    }
}

/// Linear interpolation resampling.
#[verifier::spinoff_prover]
pub fn resample_linear(input: &[i16], from_rate: u32, to_rate: u32) -> (r: Vec<i16>)
    requires
        resamples(input@.len() as int, from_rate, to_rate),
    ensures
        r@ == resampled(input@, from_rate, to_rate),
        r@.len() == resampled_len(input@.len() as int, from_rate, to_rate),
{
    if from_rate == to_rate || input.len() == 0 {
        return slice_to_vec(input);
    }
    if to_rate == 0 {
        assert(resampled(input@, from_rate, to_rate) =~= Seq::empty());
        return Vec::new();
    }
    proof {
        lemma_resampled_len_bound(input@.len() as int, from_rate, to_rate);
    }
    let output_len: usize = match resampled_length(input.len(), from_rate, to_rate) {
        Some(n) => n,
        None => 0,
    };
    let mut output: Vec<i16> = Vec::with_capacity(output_len);
    let step: Double = step_between(from_rate, to_rate);
    let mut i: usize = 0;
    while i < output_len
        invariant
            input@.len() >= 1,
            from_rate >= 1,
            to_rate >= 1,
            from_rate != to_rate,
            step.normal(),
            step.value() == self::step(from_rate, to_rate),
            -143 <= step.exp <= -15,
            i <= output_len,
            output_len == resampled_len(input@.len() as int, from_rate, to_rate),
            output@.len() == i,
            forall|j: int|
                0 <= j < i ==> #[trigger] output@[j] == interpolated(
                    input@,
                    position(j, from_rate, to_rate),
                ),
        decreases output_len - i,
    {
        let sample: i16 = if i == 0 {
            proof {
                lemma_start(from_rate, to_rate, input@);
            }
            input[0]
        } else {
            let pos: Double = whole(i).times(&step);
            proof {
                lemma_not_tiny(i as int, from_rate, to_rate);
                lemma_exponent_floor(pos.mant as int, pos.exp as int);
            }
            sample_at(input, &pos)
        };
        output.push(sample);
        i = i + 1;
    }
    assert(output@ =~= resampled(input@, from_rate, to_rate));
    output
}

/// The first output sample is the first input sample.
#[verifier::spinoff_prover]
proof fn lemma_start(from_rate: u32, to_rate: u32, input: Seq<i16>)
    requires
        input.len() >= 1,
    ensures
        position(0, from_rate, to_rate) == 0real,
        interpolated(input, position(0, from_rate, to_rate)) == input[0],
{
    lemma_double_whole(0);
    let y = step(from_rate, to_rate);
    assert(0real * y == 0real) by (nonlinear_arith);
    if input.len() > 1 {
        lemma_blend_start(input[0] as int, input[1] as int);
    }
}

/// No way from `a` to `b` is `a`.
#[verifier::spinoff_prover]
pub proof fn lemma_blend_start(a: int, b: int)
    requires
        -32768 <= a <= 32767,
        -32768 <= b <= 32767,
    ensures
        blend(a, b, 0real) == a,
{
    lemma_double_whole(0);
    lemma_double_whole(b - a);
    lemma_double_whole(a);
    let y = (b - a) as real;
    assert(y * 0real == 0real) by (nonlinear_arith);
}

} // verus!
