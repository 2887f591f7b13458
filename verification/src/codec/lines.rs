//! Resampling follows the straight lines between the samples: where an output sample
//! lies, how many there are, and how close each is to its line.
use crate::codec::resample;
use crate::double;
use crate::rounding;
use vstd::arithmetic::power2::{lemma2_to64_rest, pow2};
use vstd::prelude::*;

verus! {

/// Rounding changes a positive number by no more than its share of half a unit in the
/// last place.
#[verifier::spinoff_prover]
proof fn lemma_double_close(x: real)
    requires
        x > 0real,
    ensures
        0x20_0000_0000_0000real * (double::double(x) - x) <= x,
        0x20_0000_0000_0000real * (x - double::double(x)) <= x,
        double::double(x) > 0real,
{
    lemma2_to64_rest();
    rounding::lemma_rounded_error(x, 53);
    rounding::lemma_two_to_reciprocal(53, 0x20_0000_0000_0000);
    let u = rounding::two_to(-53);
    let y = x * u;
    assert(0x20_0000_0000_0000real * y == x) by (nonlinear_arith)
        requires
            y == x * u,
            0x20_0000_0000_0000real * u == 1real,
    ;
}

/// The product of two numbers that are each off by little.
#[verifier::spinoff_prover]
proof fn lemma_product_close(x: real, y: real, a: real, b: real, d: real, e: real)
    requires
        x > 0real,
        y > 0real,
        0real <= d <= 1real,
        0real <= e <= 1real,
        x - d * x <= a <= x + d * x,
        y - e * y <= b <= y + e * y,
    ensures
        x * y - (d + e) * (x * y) <= a * b,
        a * b <= x * y + (d + e + d * e) * (x * y),
{
    let (lo_x, hi_x) = (x - d * x, x + d * x);
    let (lo_y, hi_y) = (y - e * y, y + e * y);
    assert(0real <= lo_x && 0real <= lo_y) by (nonlinear_arith)
        requires
            lo_x == x - d * x,
            lo_y == y - e * y,
            x > 0real,
            y > 0real,
            d <= 1real,
            e <= 1real,
    ;
    assert(lo_x * lo_y <= a * b && a * b <= hi_x * hi_y) by (nonlinear_arith)
        requires
            0real <= lo_x <= a <= hi_x,
            0real <= lo_y <= b <= hi_y,
    ;
    let xy = x * y;
    assert(lo_x * lo_y == xy - (d + e) * xy + (d * e) * xy) by (nonlinear_arith)
        requires
            lo_x == x - d * x,
            lo_y == y - e * y,
            xy == x * y,
    ;
    assert(hi_x * hi_y == xy + (d + e + d * e) * xy) by (nonlinear_arith)
        requires
            hi_x == x + d * x,
            hi_y == y + e * y,
            xy == x * y,
    ;
    assert((d * e) * xy >= 0real) by (nonlinear_arith)
        requires
            d >= 0real,
            e >= 0real,
            xy == x * y,
            x > 0real,
            y > 0real,
    ;
}

/// An output sample lies where the ratio of the rates puts it, up to the rounding of
/// double precision.
#[verifier::spinoff_prover]
pub proof fn lemma_position_near(i: int, from_rate: u32, to_rate: u32)
    requires
        i >= 0,
        from_rate >= 1,
        to_rate >= 1,
    ensures
        ({
            let p = resample::position(i, from_rate, to_rate);
            let q = (i * from_rate) as real;
            &&& 0x8_0000_0000_0000real * (p * (to_rate as int as real) - q) <= q
            &&& 0x8_0000_0000_0000real * (q - p * (to_rate as int as real)) <= q
            &&& p >= 0real
        }),
{
    let (f, t, n) = (from_rate as int as real, to_rate as int as real, i as real);
    rounding::lemma_product_as_real(i, from_rate as int);
    if i == 0 {
        resample::lemma_double_whole(0);
        let s = resample::step(from_rate, to_rate);
        assert(0real * s == 0real) by (nonlinear_arith);
        assert(0real * t == 0real && 0real * f == 0real) by (nonlinear_arith);
    } else {
        let x = f / t;
        assert(x * t == f && x > 0real) by (nonlinear_arith)
            requires
                x == f / t,
                f > 0real,
                t > 0real,
        ;
        lemma_double_close(x);
        lemma_double_close(n);
        let (a, s) = (double::double(n), resample::step(from_rate, to_rate));
        let y = a * s;
        assert(y > 0real) by (nonlinear_arith)
            requires
                y == a * s,
                a > 0real,
                s > 0real,
        ;
        lemma_double_close(y);
        lemma_position_error(n, x, a, s, y, double::double(y));
        lemma_position_scaled(n, x, t, f, double::double(y));
    }
}

#[verifier::spinoff_prover]
proof fn lemma_position_error(n: real, x: real, a: real, s: real, y: real, p: real)
    requires
        n > 0real,
        x > 0real,
        0x20_0000_0000_0000real * (a - n) <= n,
        0x20_0000_0000_0000real * (n - a) <= n,
        0x20_0000_0000_0000real * (s - x) <= x,
        0x20_0000_0000_0000real * (x - s) <= x,
        y == a * s,
        0x20_0000_0000_0000real * (p - y) <= y,
        0x20_0000_0000_0000real * (y - p) <= y,
    ensures
        0x8_0000_0000_0000real * (p - n * x) <= n * x,
        0x8_0000_0000_0000real * (n * x - p) <= n * x,
{
    let u = 1real / 0x20_0000_0000_0000real;
    assert(n - u * n <= a <= n + u * n && x - u * x <= s <= x + u * x) by (nonlinear_arith)
        requires
            0x20_0000_0000_0000real * u == 1real,
            0x20_0000_0000_0000real * (a - n) <= n,
            0x20_0000_0000_0000real * (n - a) <= n,
            0x20_0000_0000_0000real * (s - x) <= x,
            0x20_0000_0000_0000real * (x - s) <= x,
    ;
    lemma_product_close(n, x, a, s, u, u);
    let z = n * x;
    assert(z > 0real) by (nonlinear_arith)
        requires
            z == n * x,
            n > 0real,
            x > 0real,
    ;
    let (v, w) = ((u + u) * z, (u + u + u * u) * z);
    assert(0x20_0000_0000_0000real * v == 2real * z && 0x80_0000_0000_0000real * w <= 9real * z)
        by (nonlinear_arith)
        requires
            v == (u + u) * z,
            w == (u + u + u * u) * z,
            0x20_0000_0000_0000real * u == 1real,
            0real < 4real * u <= 1real,
            z > 0real,
    ;
    lemma_errors_add(z, y, p, v, w);
}

#[verifier::spinoff_prover]
proof fn lemma_errors_add(z: real, y: real, p: real, v: real, w: real)
    requires
        z > 0real,
        z - v <= y <= z + w,
        0x20_0000_0000_0000real * v == 2real * z,
        0x80_0000_0000_0000real * w <= 9real * z,
        0x20_0000_0000_0000real * (p - y) <= y,
        0x20_0000_0000_0000real * (y - p) <= y,
    ensures
        0x8_0000_0000_0000real * (p - z) <= z,
        0x8_0000_0000_0000real * (z - p) <= z,
{
}

#[verifier::spinoff_prover]
proof fn lemma_position_scaled(n: real, x: real, t: real, f: real, p: real)
    requires
        t > 0real,
        x * t == f,
        0x8_0000_0000_0000real * (p - n * x) <= n * x,
        0x8_0000_0000_0000real * (n * x - p) <= n * x,
    ensures
        0x8_0000_0000_0000real * (p * t - n * f) <= n * f,
        0x8_0000_0000_0000real * (n * f - p * t) <= n * f,
{
    let z = n * x;
    assert(z * t == n * f) by (nonlinear_arith)
        requires
            z == n * x,
            x * t == f,
    ;
    let (b, c) = (0x8_0000_0000_0000real * (p - z), 0x8_0000_0000_0000real * (z - p));
    assert(b * t <= z * t && c * t <= z * t) by (nonlinear_arith)
        requires
            b <= z,
            c <= z,
            t > 0real,
    ;
    assert(b * t == 0x8_0000_0000_0000real * (p * t - z * t) && c * t == 0x8_0000_0000_0000real * (z
        * t - p * t)) by (nonlinear_arith)
        requires
            b == 0x8_0000_0000_0000real * (p - z),
            c == 0x8_0000_0000_0000real * (z - p),
    ;
}

/// A blend is less than one away from the line between its end points.
#[verifier::spinoff_prover]
proof fn lemma_blend_near(a: int, b: int, frac: real)
    requires
        -32768 <= a <= 32767,
        -32768 <= b <= 32767,
        0real <= frac < 1real,
    ensures
        ({
            let y = a as real + (b - a) as real * frac;
            let out = resample::blend(a, b, frac) as real;
            &&& -1real < out - y < 1real
            &&& y >= 0real ==> out >= 0real && 0x8_0000_0000real * (out - y) <= 1real
            &&& y <= 0real ==> out <= 0real && 0x8_0000_0000real * (y - out) <= 1real
        }),
{
    let d = b - a;
    let x = d as real * frac;
    let y = a as real + x;
    assert(-65536real <= x <= 65536real) by (nonlinear_arith)
        requires
            x == d as real * frac,
            -65535 <= d <= 65535,
            0real <= frac < 1real,
    ;
    let n = y.floor();
    resample::lemma_double_whole(d);
    resample::lemma_double_whole(n - a);
    resample::lemma_double_whole(n + 1 - a);
    resample::lemma_double_whole(n);
    resample::lemma_double_whole(n + 1);
    let p = double::double(x);
    rounding::lemma_rounded_monotone((n - a) as real, x, 53);
    rounding::lemma_rounded_monotone(x, (n + 1 - a) as real, 53);
    if y == n as real {
        rounding::lemma_rounded_monotone(x, (n - a) as real, 53);
    }
    let z = a as real + p;
    assert(n as real <= z <= (n + 1) as real && (y == n as real ==> z == n as real));
    rounding::lemma_rounded_monotone(n as real, z, 53);
    rounding::lemma_rounded_monotone(z, (n + 1) as real, 53);
    lemma_truncated_near(double::double(z), y, n);
    lemma_double_off(x);
    lemma_double_off(z);
    lemma_no_louder(double::double(z), y, n);
}

/// Rounding a number of the size of samples changes it by very little.
#[verifier::spinoff_prover]
proof fn lemma_double_off(x: real)
    requires
        -131072real <= x <= 131072real,
    ensures
        0x10_0000_0000real * (double::double(x) - x) <= 1real,
        0x10_0000_0000real * (x - double::double(x)) <= 1real,
{
    resample::lemma_double_whole(0);
    if x > 0real {
        lemma_double_close(x);
    } else if x < 0real {
        lemma_double_close(-x);
        rounding::lemma_rounded_negated(x, 53);
    }
}

#[verifier::spinoff_prover]
proof fn lemma_no_louder(r: real, y: real, n: int)
    requires
        n as real <= y < (n + 1) as real,
        n as real <= r <= (n + 1) as real,
        y == n as real ==> r == n as real,
        0x8_0000_0000real * (r - y) <= 1real,
        0x8_0000_0000real * (y - r) <= 1real,
    ensures
        y >= 0real ==> rounding::truncated(r) >= 0 && 0x8_0000_0000real * (rounding::truncated(
            r,
        ) as real - y) <= 1real,
        y <= 0real ==> rounding::truncated(r) <= 0 && 0x8_0000_0000real * (y - rounding::truncated(
            r,
        ) as real) <= 1real,
{
    let q = rounding::truncated(r);
    assert(r >= 0real ==> 0real <= q as real <= r);
    assert(r <= 0real ==> r <= q as real <= 0real);
}

#[verifier::spinoff_prover]
proof fn lemma_truncated_near(r: real, y: real, n: int)
    requires
        n as real <= y < (n + 1) as real,
        n as real <= r <= (n + 1) as real,
        y == n as real ==> r == n as real,
    ensures
        -1real < rounding::truncated(r) as real - y < 1real,
{
    let q = rounding::truncated(r);
    assert(q == n || q == n + 1);
    assert(r == n as real ==> q == n);
}

/// The fractional part of a double-precision number is one as well.
#[verifier::spinoff_prover]
proof fn lemma_fraction_exact(x: real)
    requires
        x > 0real,
    ensures
        ({
            let p = double::double(x);
            double::double(p - p.floor() as real) == p - p.floor() as real
        }),
{
    lemma2_to64_rest();
    let (m, e) = rounding::lemma_rounded_digits(x, 53);
    let p = double::double(x);
    if e >= 0 {
        rounding::lemma_dyadic_moved(m, e, e);
        rounding::lemma_dyadic_whole(m * pow2(e as nat));
        resample::lemma_double_whole(0);
        let w = m * pow2(e as nat);
        assert(p == w as real && p.floor() == w);
        assert(p - p.floor() as real == 0int as real);
    } else {
        let s = -e;
        rounding::lemma_dyadic_floor(m, s);
        vstd::arithmetic::power2::lemma_pow2_pos(s as nat);
        let c = pow2(s as nat) as int;
        assert(0 <= m % c <= m) by (nonlinear_arith)
            requires
                m >= 0,
                c >= 1,
        ;
        rounding::lemma_rounded_exact(m % c, -s, 53);
        assert(p - p.floor() as real == rounding::dyadic(m % c, -s));
    }
}

/// Every output sample is less than one away from the straight line through the two
/// input samples around its position, and on the side of zero but for what rounding
/// does. From the last input sample on it is that sample.
#[verifier::spinoff_prover]
pub proof fn lemma_follows_lines(input: Seq<i16>, from_rate: u32, to_rate: u32, i: int)
    requires
        input.len() >= 1,
        from_rate >= 1,
        to_rate >= 1,
        from_rate != to_rate,
        0 <= i < resample::resampled(input, from_rate, to_rate).len(),
    ensures
        ({
            let p = resample::position(i, from_rate, to_rate);
            let k = p.floor();
            let out = resample::resampled(input, from_rate, to_rate)[i];
            &&& k >= 0
            &&& k + 1 < input.len() ==> ({
                let y = input[k] as int as real + (input[k + 1] - input[k]) as real * (p
                    - k as real);
                let v = out as int as real;
                &&& -1real < v - y < 1real
                &&& y >= 0real ==> v >= 0real && 0x8_0000_0000real * (v - y) <= 1real
                &&& y <= 0real ==> v <= 0real && 0x8_0000_0000real * (y - v) <= 1real
            })
            &&& k + 1 >= input.len() ==> out == input.last()
        }),
{
    let p = resample::position(i, from_rate, to_rate);
    let k = p.floor();
    lemma_position_near(i, from_rate, to_rate);
    assert(double::double(p - k as real) == p - k as real) by {
        lemma_position_fraction(i, from_rate, to_rate);
    }
    if k + 1 < input.len() {
        let (a, b) = (input[k] as int, input[k + 1] as int);
        lemma_blend_near(a, b, p - k as real);
        resample::lemma_blend_between(a, b, p - k as real);
    }
}

#[verifier::spinoff_prover]
proof fn lemma_position_fraction(i: int, from_rate: u32, to_rate: u32)
    requires
        i >= 0,
        from_rate >= 1,
        to_rate >= 1,
    ensures
        ({
            let p = resample::position(i, from_rate, to_rate);
            double::double(p - p.floor() as real) == p - p.floor() as real
        }),
{
    let (a, s) = (double::double(i as real), resample::step(from_rate, to_rate));
    let y = a * s;
    resample::lemma_double_whole(0);
    if i == 0 {
        assert(0real * s == 0real) by (nonlinear_arith);
    } else {
        lemma_double_close(i as real);
        let (f, t) = (from_rate as int as real, to_rate as int as real);
        let x = f / t;
        assert(x > 0real) by (nonlinear_arith)
            requires
                x == f / t,
                f > 0real,
                t > 0real,
        ;
        lemma_double_close(x);
        assert(y > 0real) by (nonlinear_arith)
            requires
                y == a * s,
                a > 0real,
                s > 0real,
        ;
        lemma_fraction_exact(y);
    }
}

/// There are as many output samples as the ratio of the rates asks for, rounded up, up
/// to the rounding of double precision.
#[verifier::spinoff_prover]
pub proof fn lemma_length_near(len: int, from_rate: u32, to_rate: u32)
    requires
        len >= 1,
        from_rate >= 1,
        to_rate >= 1,
    ensures
        ({
            let asked = len * to_rate;
            let n = resample::resampled_len(len, from_rate, to_rate);
            &&& 0x4_0000_0000_0000 * (asked - n * from_rate) <= asked
            &&& 0x4_0000_0000_0000 * ((n - 1) * from_rate - asked) <= asked
        }),
{
    let asked = len * to_rate;
    let n = resample::resampled_len(len, from_rate, to_rate);
    assert(asked >= 1) by (nonlinear_arith)
        requires
            asked == len * to_rate,
            len >= 1,
            to_rate >= 1,
    ;
    if from_rate == to_rate {
        assert(n * from_rate == asked && (n - 1) * from_rate <= asked) by (nonlinear_arith)
            requires
                n == len,
                from_rate == to_rate,
                asked == len * to_rate,
                from_rate >= 1,
        ;
    } else {
        let (f, t, l) = (from_rate as int as real, to_rate as int as real, len as real);
        let x = f / t;
        assert(x * t == f && x > 0real) by (nonlinear_arith)
            requires
                x == f / t,
                f > 0real,
                t > 0real,
        ;
        lemma_double_close(x);
        lemma_double_close(l);
        let (a, s) = (double::double(l), resample::step(from_rate, to_rate));
        let y = a / s;
        assert(y * s == a && y > 0real) by (nonlinear_arith)
            requires
                y == a / s,
                a > 0real,
                s > 0real,
        ;
        lemma_double_close(y);
        let r = double::double(y);
        lemma_quotient_error(l, x, a, s, y, r);
        assert((n - 1) as real <= r <= n as real);
        lemma_count_scaled(n as real, r, x, t, f, l);
        rounding::lemma_product_as_real(len, to_rate as int);
        rounding::lemma_product_as_real(n, from_rate as int);
        rounding::lemma_product_as_real(n - 1, from_rate as int);
        let (g, h) = (n * from_rate, (n - 1) * from_rate);
        assert(0x4_0000_0000_0000real * (asked as real - g as real) <= asked as real);
        assert(0x4_0000_0000_0000real * (h as real - asked as real) <= asked as real);
        lemma_as_integers(asked, g, h);
    }
}

#[verifier::spinoff_prover]
proof fn lemma_as_integers(asked: int, g: int, h: int)
    requires
        0x4_0000_0000_0000real * (asked as real - g as real) <= asked as real,
        0x4_0000_0000_0000real * (h as real - asked as real) <= asked as real,
    ensures
        0x4_0000_0000_0000 * (asked - g) <= asked,
        0x4_0000_0000_0000 * (h - asked) <= asked,
{
    assert((0x4_0000_0000_0000 * (asked - g)) as real == 0x4_0000_0000_0000real * (asked as real
        - g as real));
    assert((0x4_0000_0000_0000 * (h - asked)) as real == 0x4_0000_0000_0000real * (h as real
        - asked as real));
}

/// The product of the rounded quotient and `x` is close to `l`.
#[verifier::spinoff_prover]
proof fn lemma_quotient_error(l: real, x: real, a: real, s: real, y: real, r: real)
    requires
        l > 0real,
        x > 0real,
        y > 0real,
        0x20_0000_0000_0000real * (a - l) <= l,
        0x20_0000_0000_0000real * (l - a) <= l,
        0x20_0000_0000_0000real * (s - x) <= x,
        0x20_0000_0000_0000real * (x - s) <= x,
        y * s == a,
        0x20_0000_0000_0000real * (r - y) <= y,
        0x20_0000_0000_0000real * (y - r) <= y,
    ensures
        0x4_0000_0000_0000real * (r * x - l) <= l,
        0x4_0000_0000_0000real * (l - r * x) <= l,
{
    let v = y * x;
    let (d, e) = (0x20_0000_0000_0000real * (s - x), 0x20_0000_0000_0000real * (x - s));
    assert(y * d <= v && y * e <= v) by (nonlinear_arith)
        requires
            d <= x,
            e <= x,
            v == y * x,
            y > 0real,
    ;
    assert(y * d == 0x20_0000_0000_0000real * (a - v) && y * e == 0x20_0000_0000_0000real * (v - a))
        by (nonlinear_arith)
        requires
            d == 0x20_0000_0000_0000real * (s - x),
            e == 0x20_0000_0000_0000real * (x - s),
            v == y * x,
            y * s == a,
    ;
    let w = r * x;
    let (g, h) = (0x20_0000_0000_0000real * (r - y), 0x20_0000_0000_0000real * (y - r));
    assert(g * x <= v && h * x <= v) by (nonlinear_arith)
        requires
            g <= y,
            h <= y,
            v == y * x,
            x > 0real,
    ;
    assert(g * x == 0x20_0000_0000_0000real * (w - v) && h * x == 0x20_0000_0000_0000real * (v - w))
        by (nonlinear_arith)
        requires
            g == 0x20_0000_0000_0000real * (r - y),
            h == 0x20_0000_0000_0000real * (y - r),
            v == y * x,
            w == r * x,
    ;
}

#[verifier::spinoff_prover]
proof fn lemma_count_scaled(n: real, r: real, x: real, t: real, f: real, l: real)
    requires
        t > 0real,
        f > 0real,
        x * t == f,
        n - 1real <= r <= n,
        0x4_0000_0000_0000real * (r * x - l) <= l,
        0x4_0000_0000_0000real * (l - r * x) <= l,
    ensures
        0x4_0000_0000_0000real * (l * t - n * f) <= l * t,
        0x4_0000_0000_0000real * ((n - 1real) * f - l * t) <= l * t,
{
    let v = r * x;
    assert(v * t == r * f) by (nonlinear_arith)
        requires
            v == r * x,
            x * t == f,
    ;
    let (d, e) = (0x4_0000_0000_0000real * (v - l), 0x4_0000_0000_0000real * (l - v));
    assert(d * t <= l * t && e * t <= l * t) by (nonlinear_arith)
        requires
            d <= l,
            e <= l,
            t > 0real,
    ;
    assert(d * t == 0x4_0000_0000_0000real * (v * t - l * t) && e * t == 0x4_0000_0000_0000real * (l
        * t - v * t)) by (nonlinear_arith)
        requires
            d == 0x4_0000_0000_0000real * (v - l),
            e == 0x4_0000_0000_0000real * (l - v),
    ;
    assert(r * f <= n * f && (n - 1real) * f <= r * f) by (nonlinear_arith)
        requires
            n - 1real <= r <= n,
            f > 0real,
    ;
}

/// The output is as long as the ratio of the rates asks for, up to the rounding of
/// double precision. Nothing comes of nothing, or at a target rate of zero.
pub proof fn lemma_output_length(input: Seq<i16>, from_rate: u32, to_rate: u32)
    requires
        from_rate >= 1,
    ensures
        ({
            let asked = input.len() * to_rate;
            let n = resample::resampled(input, from_rate, to_rate).len();
            &&& n == resample::resampled_len(input.len() as int, from_rate, to_rate)
            &&& 0x4_0000_0000_0000 * (asked - n * from_rate) <= asked
            &&& n > 0 ==> 0x4_0000_0000_0000 * ((n - 1) * from_rate - asked) <= asked
            &&& n == 0 <==> input.len() == 0 || to_rate == 0
        }),
{
    let asked = input.len() * to_rate;
    let m = resample::resampled_len(input.len() as int, from_rate, to_rate);
    if input.len() > 0 && to_rate > 0 {
        lemma_length_near(input.len() as int, from_rate, to_rate);
        assert(asked >= 1) by (nonlinear_arith)
            requires
                asked == input.len() * to_rate,
                input.len() >= 1,
                to_rate >= 1,
        ;
        assert(m >= 1) by (nonlinear_arith)
            requires
                0x4_0000_0000_0000 * (asked - m * from_rate) <= asked,
                asked >= 1,
                from_rate >= 1,
        ;
    } else {
        let n = resample::resampled(input, from_rate, to_rate).len();
        assert(asked == 0 && n * from_rate == 0) by (nonlinear_arith)
            requires
                asked == input.len() * to_rate,
                input.len() == 0 || to_rate == 0,
                n == 0,
        ;
    }
}

/// The steps of the conversion, each of which is rounded to double precision: where a
/// sample lies, how many samples there are, and what a sample is.
#[verifier::spinoff_prover]
pub proof fn lemma_rounded_steps(input: Seq<i16>, from_rate: u32, to_rate: u32, i: int)
    requires
        input.len() >= 1,
        from_rate >= 1,
        to_rate >= 1,
        from_rate != to_rate,
        0 <= i < resample::resampled(input, from_rate, to_rate).len(),
    ensures
        ({
            let step = rounding::rounded(
                from_rate as int as real / to_rate as int as real,
                53,
            );
            let p = rounding::rounded(rounding::rounded(i as real, 53) * step, 53);
            let count = rounding::rounded(
                rounding::rounded(input.len() as int as real, 53) / step,
                53,
            );
            let n = resample::resampled(input, from_rate, to_rate).len() as int;
            let k = p.floor();
            let out = resample::resampled(input, from_rate, to_rate)[i] as int as real;
            &&& p == resample::position(i, from_rate, to_rate)
            &&& (n - 1) as real <= count <= n as real && count != (n - 1) as real
            &&& k + 1 < input.len() ==> ({
                let rise = (input[k + 1] - input[k]) as real * (p - k as real);
                let r = rounding::rounded(
                    input[k] as int as real + rounding::rounded(rise, 53),
                    53,
                );
                &&& r >= 0real ==> 0real <= out <= r && r < out + 1real
                &&& r <= 0real ==> r <= out <= 0real && out - 1real < r
            })
        }),
{
    let p = resample::position(i, from_rate, to_rate);
    let k = p.floor();
    lemma_output_length(input, from_rate, to_rate);
    lemma_position_near(i, from_rate, to_rate);
    lemma_position_fraction(i, from_rate, to_rate);
    let n = resample::resampled_len(input.len() as int, from_rate, to_rate);
    lemma_ceiling_brackets(
        rounding::rounded(
            rounding::rounded(input.len() as int as real, 53) / resample::step(from_rate, to_rate),
            53,
        ),
    );
    if k + 1 < input.len() {
        let (a, b) = (input[k] as int, input[k + 1] as int);
        resample::lemma_double_whole(b - a);
        resample::lemma_blend_between(a, b, p - k as real);
        let rise = (b - a) as real * (p - k as real);
        lemma_truncated_brackets(
            rounding::rounded(a as real + rounding::rounded(rise, 53), 53),
        );
    }
}

#[verifier::spinoff_prover]
proof fn lemma_ceiling_brackets(x: real)
    ensures
        (resample::ceiling(x) - 1) as real <= x <= resample::ceiling(x) as real,
        x != (resample::ceiling(x) - 1) as real,
{
}

#[verifier::spinoff_prover]
proof fn lemma_truncated_brackets(r: real)
    ensures
        r >= 0real ==> 0real <= rounding::truncated(r) as real <= r && r < rounding::truncated(
            r,
        ) as real + 1real,
        r <= 0real ==> r <= rounding::truncated(r) as real <= 0real && rounding::truncated(
            r,
        ) as real - 1real < r,
{
}

} // verus!
