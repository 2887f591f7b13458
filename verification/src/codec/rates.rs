//! What resampling does, above all between the 48 kHz of a voice channel and the
//! 8 kHz of the bridge.
use crate::codec::resample;
use crate::double;
use crate::rounding;
use vstd::arithmetic::power2::{lemma2_to64, lemma2_to64_rest, lemma_pow2_adds, pow2};
use vstd::prelude::*;

verus! {

/// The sample rate of a voice channel.
pub const CHANNEL_RATE: u32 = 48000;

/// The sample rate of the bridge.
pub const BRIDGE_RATE: u32 = 8000;

/// Resampling to the rate that the samples have changes nothing.
pub proof fn lemma_same_rate(input: Seq<i16>, rate: u32)
    ensures
        resample::resampled(input, rate, rate) == input,
{
}

/// No resampled value leaves the bounds of the input samples.
pub proof fn lemma_resampled_within(input: Seq<i16>, from_rate: u32, to_rate: u32, lo: i16, hi: i16)
    requires
        from_rate >= 1,
        forall|i: int| 0 <= i < input.len() ==> lo <= #[trigger] input[i] <= hi,
    ensures
        ({
            let output = resample::resampled(input, from_rate, to_rate);
            forall|i: int| 0 <= i < output.len() ==> lo <= #[trigger] output[i] <= hi
        }),
{
    let output = resample::resampled(input, from_rate, to_rate);
    assert forall|i: int| 0 <= i < output.len() implies lo <= #[trigger] output[i] <= hi by {
        if from_rate != to_rate && input.len() > 0 {
            lemma_position_not_negative(i, from_rate, to_rate);
            resample::lemma_interpolated_range(
                input,
                resample::position(i, from_rate, to_rate),
                lo,
                hi,
            );
        }
    }
}

#[verifier::spinoff_prover]
proof fn lemma_position_not_negative(i: int, from_rate: u32, to_rate: u32)
    requires
        i >= 0,
        to_rate >= 1,
    ensures
        resample::position(i, from_rate, to_rate) >= 0real,
{
    let (f, t) = (from_rate as int as real, to_rate as int as real);
    let x = f / t;
    assert(x >= 0real) by (nonlinear_arith)
        requires
            x == f / t,
            f >= 0real,
            t > 0real,
    ;
    resample::lemma_double_whole(0);
    rounding::lemma_rounded_monotone(0real, x, 53);
    rounding::lemma_rounded_monotone(0real, i as real, 53);
    let (a, b) = (double::double(i as real), resample::step(from_rate, to_rate));
    let c = a * b;
    assert(c >= 0real) by (nonlinear_arith)
        requires
            c == a * b,
            a >= 0real,
            b >= 0real,
    ;
    rounding::lemma_rounded_monotone(0real, c, 53);
}

/// From a rate that is `k` times the other, resampling keeps every `k`-th sample
/// and nothing else.
pub proof fn lemma_decimated(input: Seq<i16>, from_rate: u32, to_rate: u32, k: int, i: int)
    requires
        to_rate >= 1,
        k >= 1,
        from_rate == k * to_rate,
        input.len() < 0x20_0000_0000_0000,
    ensures
        resample::resampled(input, from_rate, to_rate).len() == (input.len() + k - 1) / k,
        0 <= i < (input.len() + k - 1) / k ==> 0 <= k * i < input.len() && resample::resampled(
            input,
            from_rate,
            to_rate,
        )[i] == input[k * i],
{
    let len = input.len() as int;
    let n = (len + k - 1) / k;
    assert(0 <= i < n ==> 0 <= k * i < len && i <= len) by (nonlinear_arith)
        requires
            n == (len + k - 1) / k,
            k >= 1,
            len >= 0,
    ;
    if from_rate == to_rate {
        assert(k == 1) by (nonlinear_arith)
            requires
                from_rate == k * to_rate,
                from_rate == to_rate,
                to_rate >= 1,
        ;
        assert((len + k - 1) / k == len && k * i == i) by (nonlinear_arith)
            requires
                k == 1,
        ;
    } else if len == 0 {
        assert((k - 1) / k == 0) by (nonlinear_arith)
            requires
                k >= 1,
        ;
    } else {
        assert(k <= 0xFFFF_FFFF) by (nonlinear_arith)
            requires
                from_rate == k * to_rate,
                to_rate >= 1,
        ;
        lemma_whole_step(from_rate, to_rate, k);
        lemma_decimated_len(len, k);
        assert(n >= 0) by (nonlinear_arith)
            requires
                n == (len + k - 1) / k,
                k >= 1,
                len >= 0,
        ;
        if 0 <= i < n {
            lemma_whole_product(i, k);
            lemma_on_sample(input, k * i);
        }
    }
}

#[verifier::spinoff_prover]
proof fn lemma_whole_step(from_rate: u32, to_rate: u32, k: int)
    requires
        to_rate >= 1,
        1 <= k <= 0xFFFF_FFFF,
        from_rate == k * to_rate,
    ensures
        resample::step(from_rate, to_rate) == k as real,
{
    rounding::lemma_product_as_real(k, to_rate as int);
    let (x, y) = (k as real, to_rate as int as real);
    assert((x * y) / y == x) by (nonlinear_arith)
        requires
            y > 0real,
    ;
    resample::lemma_double_whole(k);
}

/// Products of integers that double precision holds are exact.
#[verifier::spinoff_prover]
proof fn lemma_whole_product(i: int, k: int)
    requires
        0 <= i <= 0x20_0000_0000_0000,
        0 <= k * i <= 0x20_0000_0000_0000,
    ensures
        double::double(double::double(i as real) * (k as real)) == (k * i) as real,
{
    resample::lemma_double_whole(i);
    rounding::lemma_product_as_real(i, k);
    assert(i * k == k * i) by (nonlinear_arith);
    resample::lemma_double_whole(k * i);
}

/// A position on a sample reads that sample.
#[verifier::spinoff_prover]
proof fn lemma_on_sample(input: Seq<i16>, j: int)
    requires
        0 <= j < input.len(),
    ensures
        resample::interpolated(input, j as real) == input[j],
{
    assert((j as real).floor() == j);
    resample::lemma_double_whole(0);
    if j + 1 < input.len() {
        resample::lemma_blend_start(input[j] as int, input[j + 1] as int);
    }
}

#[verifier::spinoff_prover]
proof fn lemma_decimated_len(len: int, k: int)
    requires
        1 <= len < 0x20_0000_0000_0000,
        1 <= k,
    ensures
        resample::ceiling(double::double(double::double(len as real) / k as real)) == (len + k - 1)
            / k,
{
    resample::lemma_double_whole(len);
    let (n, r) = (len / k, len % k);
    assert(len == k * n + r && 0 <= r < k && 0 <= n <= len) by (nonlinear_arith)
        requires
            n == len / k,
            r == len % k,
            k >= 1,
            len >= 0,
    ;
    let (lr, kr, nr, rr) = (len as real, k as real, n as real, r as real);
    rounding::lemma_product_as_real(k, n);
    let x = lr / kr;
    resample::lemma_double_whole(n);
    if r == 0 {
        assert(x == nr) by (nonlinear_arith)
            requires
                x == lr / kr,
                kr >= 1real,
                lr == kr * nr,
        ;
        assert((len + k - 1) / k == n) by (nonlinear_arith)
            requires
                len == k * n,
                k >= 1,
        ;
    } else {
        resample::lemma_double_whole(n + 1);
        let e = rounding::two_to(-53);
        lemma2_to64_rest();
        rounding::lemma_two_to_pow2(53);
        rounding::lemma_two_to_inverse(53);
        assert(x * kr == lr && x > 0real && x < nr + 1real) by (nonlinear_arith)
            requires
                x == lr / kr,
                kr >= 1real,
                lr == kr * nr + rr,
                1real <= rr,
                rr <= kr - 1real,
                nr >= 0real,
        ;
        rounding::lemma_rounded_error(x, 53);
        rounding::lemma_rounded_monotone(x, (n + 1) as real, 53);
        // What rounding takes off is less than the part above `n`.
        let d = x * e;
        assert(d * kr < 1real) by (nonlinear_arith)
            requires
                d == x * e,
                x * kr == lr,
                0real < lr < 0x20_0000_0000_0000real,
                0x20_0000_0000_0000real * e == 1real,
        ;
        assert(x - d > nr) by (nonlinear_arith)
            requires
                x * kr == lr,
                lr == kr * nr + rr,
                1real <= rr,
                d * kr < 1real,
                kr >= 1real,
        ;
        assert((len + k - 1) / k == n + 1) by (nonlinear_arith)
            requires
                len == k * n + r,
                1 <= r < k,
        ;
    }
}

/// One sixth in double precision falls short of one sixth by two to the power
/// -54 of it.
#[verifier::spinoff_prover]
proof fn lemma_upsampling_step()
    ensures
        6real * resample::step(BRIDGE_RATE, CHANNEL_RATE) == 1real - rounding::two_to(-54),
        resample::step(BRIDGE_RATE, CHANNEL_RATE) > 0real,
{
    let (f, t) = (BRIDGE_RATE as int as real, CHANNEL_RATE as int as real);
    let x = f / t;
    assert(6real * x == 1real) by (nonlinear_arith)
        requires
            x == f / t,
            t == 6real * f,
            f > 0real,
    ;
    lemma_sixth(x);
}

#[verifier::spinoff_prover]
proof fn lemma_sixth(x: real)
    requires
        6real * x == 1real,
    ensures
        6real * double::double(x) == 1real - rounding::two_to(-54),
        double::double(x) > 0real,
{
    lemma2_to64();
    lemma2_to64_rest();
    rounding::lemma_two_to_reciprocal(2, 4);
    rounding::lemma_two_to_reciprocal(3, 8);
    rounding::lemma_two_to_reciprocal(55, 0x80_0000_0000_0000);
    rounding::lemma_two_to_step(-55);
    rounding::lemma_leading(x, -3);
    let u = rounding::two_to(-55);
    let v = x / u;
    assert(v == x * 0x80_0000_0000_0000real) by (nonlinear_arith)
        requires
            v == x / u,
            0x80_0000_0000_0000real * u == 1real,
    ;
    assert(v.floor() == 6004799503160661);
    assert(rounding::nearest_even(v) == 6004799503160661);
    assert(double::double(x) == 6004799503160661real * u) by {
        reveal(rounding::rounded);
    }
}

/// Even integers of 54 digits are exact.
#[verifier::spinoff_prover]
proof fn lemma_double_even(m: int)
    requires
        0 <= m <= 0x20_0000_0000_0000,
    ensures
        double::double((2 * m) as real) == (2 * m) as real,
{
    lemma2_to64();
    lemma2_to64_rest();
    rounding::lemma_rounded_exact(m, 1, 53);
    rounding::lemma_dyadic_moved(m, 1, 1);
    rounding::lemma_dyadic_whole(2 * m);
    let p = pow2(1) as int;
    assert(m * p == 2 * m) by (nonlinear_arith)
        requires
            p == 2,
    ;
}

/// A number that a relative error of two to the power -54 lifts above an integer
/// rounds back to the integer.
#[verifier::spinoff_prover]
proof fn lemma_rounds_down(n: int, x: real)
    requires
        1 <= n <= 0x3F_FFFF_FFFF_FFFE,
        double::double(n as real) == n as real,
        x - x * rounding::two_to(-54) == n as real,
        x > 0real,
    ensures
        double::double(x) == n as real,
{
    let nr = n as real;
    let d = x - nr;
    lemma_excess(x, nr);
    let l = rounding::leading(nr);
    rounding::lemma_has_leading(nr);
    lemma_successor_in_binade(n);
    rounding::lemma_leading(x, l);
    let m = lemma_on_grid(n);
    lemma_binade_unit(l);
    lemma_rounds_to_grid(x, l, m, d);
}

#[verifier::spinoff_prover]
proof fn lemma_excess(x: real, n: real)
    requires
        x - x * rounding::two_to(-54) == n,
        x > 0real,
        n <= 0x3F_FFFF_FFFF_FFFEreal,
    ensures
        0real < x - n < 1real,
        0x40_0000_0000_0000real * (x - n) == x,
{
    lemma2_to64_rest();
    let t = rounding::two_to(-54);
    rounding::lemma_two_to_reciprocal(54, 0x40_0000_0000_0000);
    let p = x * t;
    assert(0x40_0000_0000_0000real * p == x) by (nonlinear_arith)
        requires
            p == x * t,
            0x40_0000_0000_0000real * t == 1real,
    ;
}

/// The spacing of the numbers in a binade.
#[verifier::spinoff_prover]
proof fn lemma_binade_unit(l: int)
    ensures
        rounding::two_to(l + 1) == 0x20_0000_0000_0000real * rounding::two_to(l - 52),
        rounding::two_to(l - 52) > 0real,
{
    lemma2_to64_rest();
    rounding::lemma_two_to_reciprocal(53, 0x20_0000_0000_0000);
    rounding::lemma_two_to_add(53, l - 52);
    rounding::lemma_two_to_step(l - 52);
}

/// An integer that double precision holds lies on the grid of its binade.
#[verifier::spinoff_prover]
proof fn lemma_on_grid(n: int) -> (m: int)
    requires
        n >= 1,
        double::double(n as real) == n as real,
    ensures
        n as real == m as real * rounding::two_to(rounding::leading(n as real) - 52),
{
    reveal(rounding::rounded);
    rounding::nearest_even(n as real / rounding::two_to(rounding::leading(n as real) - 52))
}

/// A number less than half a unit above a grid point rounds to it.
#[verifier::spinoff_prover]
proof fn lemma_rounds_to_grid(x: real, l: int, m: int, d: real)
    requires
        x > 0real,
        rounding::leading(x) == l,
        x == m as real * rounding::two_to(l - 52) + d,
        0real <= d,
        2real * d < rounding::two_to(l - 52),
        rounding::two_to(l - 52) > 0real,
    ensures
        double::double(x) == m as real * rounding::two_to(l - 52),
{
    lemma_nearest_above(m, d, rounding::two_to(l - 52));
    reveal(rounding::rounded);
}

/// Below a successor that fits, nothing leaves the binade of an integer.
#[verifier::spinoff_prover]
proof fn lemma_successor_in_binade(n: int)
    requires
        n >= 1,
    ensures
        (n + 1) as real <= rounding::two_to(rounding::leading(n as real) + 1),
{
    let x = n as real;
    let l = rounding::leading(x);
    rounding::lemma_has_leading(x);
    if l < 0 {
        rounding::lemma_two_to_zero();
        rounding::lemma_two_to_increases(l + 1, 0);
    } else {
        rounding::lemma_two_to_pow2((l + 1) as nat);
        let p = pow2((l + 1) as nat) as int;
        assert(n < p);
    }
}

#[verifier::spinoff_prover]
proof fn lemma_nearest_above(m: int, d: real, u: real)
    requires
        u > 0real,
        0real <= d,
        2real * d < u,
    ensures
        rounding::nearest_even((m as real * u + d) / u) == m,
{
    let v = (m as real * u + d) / u;
    let mr = m as real;
    assert(mr <= v && 2real * v < 2real * mr + 1real) by (nonlinear_arith)
        requires
            v == (mr * u + d) / u,
            u > 0real,
            0real <= d,
            2real * d < u,
    ;
}

/// A number that a relative error of two to the power -54 leaves below an
/// integer rounds up to the integer.
#[verifier::spinoff_prover]
proof fn lemma_rounds_up(n: int, y: real)
    requires
        1 <= n <= 0x20_0000_0000_0000,
        0x40_0000_0000_0000real * (n as real - y) == n as real,
    ensures
        double::double(y) == n as real,
{
    let nr = n as real;
    let d = nr - y;
    resample::lemma_double_whole(n);
    let l = rounding::leading(nr);
    rounding::lemma_has_leading(nr);
    lemma_binade_unit(l);
    rounding::lemma_two_to_step(l);
    let u = rounding::two_to(l - 52);
    if nr == rounding::two_to(l) {
        // Halfway between the last number of the binade below and `n`.
        rounding::lemma_two_to_step(l - 53);
        rounding::lemma_two_to_step(l - 1);
        let h = rounding::two_to(l - 53);
        assert(nr == 0x20_0000_0000_0000real * h && 2real * d == h);
        rounding::lemma_leading(y, l - 1);
        let m = 0x20_0000_0000_0000int;
        assert(2real * y == (2real * m as real - 1real) * h) by (nonlinear_arith)
            requires
                y == nr - d,
                nr == 0x20_0000_0000_0000real * h,
                2real * d == h,
                m == 0x20_0000_0000_0000,
        ;
        lemma_halfway(y, l - 1, m);
    } else {
        lemma_predecessor_in_binade(n);
        rounding::lemma_leading(y, l);
        let m = lemma_on_grid(n);
        assert(2real * d < u);
        lemma_rounds_up_to_grid(y, l, m, d);
    }
}

/// Above the first number of a binade, a whole step down stays in it.
#[verifier::spinoff_prover]
proof fn lemma_predecessor_in_binade(n: int)
    requires
        n >= 1,
        n as real != rounding::two_to(rounding::leading(n as real)),
    ensures
        (n - 1) as real >= rounding::two_to(rounding::leading(n as real)),
{
    let x = n as real;
    let l = rounding::leading(x);
    rounding::lemma_has_leading(x);
    if l < 0 {
        rounding::lemma_two_to_zero();
        rounding::lemma_two_to_increases(l + 1, 0);
    } else {
        rounding::lemma_two_to_pow2(l as nat);
        let p = pow2(l as nat) as int;
        assert(n > p);
    }
}

#[verifier::spinoff_prover]
proof fn lemma_rounds_up_to_grid(y: real, l: int, m: int, d: real)
    requires
        y > 0real,
        rounding::leading(y) == l,
        y == m as real * rounding::two_to(l - 52) - d,
        0real < d,
        2real * d < rounding::two_to(l - 52),
        rounding::two_to(l - 52) > 0real,
    ensures
        double::double(y) == m as real * rounding::two_to(l - 52),
{
    lemma_nearest_below(m, d, rounding::two_to(l - 52));
    reveal(rounding::rounded);
}

#[verifier::spinoff_prover]
proof fn lemma_nearest_below(m: int, d: real, u: real)
    requires
        u > 0real,
        0real < d,
        2real * d < u,
    ensures
        rounding::nearest_even((m as real * u - d) / u) == m,
{
    let v = (m as real * u - d) / u;
    let mr = m as real;
    assert(v < mr && 2real * v > 2real * mr - 1real) by (nonlinear_arith)
        requires
            v == (mr * u - d) / u,
            u > 0real,
            0real < d,
            2real * d < u,
    ;
    assert(v.floor() == m - 1);
}

/// A tie below an even grid point goes up to it.
#[verifier::spinoff_prover]
proof fn lemma_halfway(y: real, l: int, m: int)
    requires
        y > 0real,
        rounding::leading(y) == l,
        m % 2 == 0,
        2real * y == (2real * m as real - 1real) * rounding::two_to(l - 52),
        rounding::two_to(l - 52) > 0real,
    ensures
        double::double(y) == m as real * rounding::two_to(l - 52),
{
    let u = rounding::two_to(l - 52);
    let v = y / u;
    let mr = m as real;
    assert(2real * v == 2real * mr - 1real) by (nonlinear_arith)
        requires
            v == y / u,
            2real * y == (2real * mr - 1real) * u,
            u > 0real,
    ;
    assert(v.floor() == m - 1);
    assert(rounding::nearest_even(v) == m);
    reveal(rounding::rounded);
}

/// From the bridge to a voice channel there are six output samples for each
/// input sample, and every sixth of them is an input sample.
#[verifier::spinoff_prover]
pub proof fn lemma_upsampled(input: Seq<i16>, j: int)
    requires
        6 * input.len() < 0x40_0000_0000_0000,
    ensures
        resample::resampled(input, BRIDGE_RATE, CHANNEL_RATE).len() == 6 * input.len(),
        0 <= j < input.len() ==> resample::resampled(input, BRIDGE_RATE, CHANNEL_RATE)[6 * j]
            == input[j],
{
    let len = input.len() as int;
    if len > 0 {
        lemma_upsampled_len(len);
        if 0 <= j < len {
            lemma_upsampled_position(j);
            lemma_on_sample(input, j);
        }
    }
}

#[verifier::spinoff_prover]
pub proof fn lemma_upsampled_len(len: int)
    requires
        len >= 1,
        6 * len < 0x40_0000_0000_0000,
    ensures
        resample::resampled_len(len, BRIDGE_RATE, CHANNEL_RATE) == 6 * len,
{
    lemma_upsampling_step();
    resample::lemma_double_whole(len);
    lemma_double_even(3 * len);
    let (n, s, t) = (
        len as real,
        resample::step(BRIDGE_RATE, CHANNEL_RATE),
        rounding::two_to(-54),
    );
    let x = n / s;
    assert(x - x * t == 6real * n && x > 0real) by (nonlinear_arith)
        requires
            x == n / s,
            s > 0real,
            n > 0real,
            6real * s == 1real - t,
    ;
    lemma_rounds_down(6 * len, x);
}

#[verifier::spinoff_prover]
proof fn lemma_upsampled_position(j: int)
    requires
        0 <= j,
        6 * j < 0x40_0000_0000_0000,
    ensures
        resample::position(6 * j, BRIDGE_RATE, CHANNEL_RATE) == j as real,
{
    lemma_upsampling_step();
    lemma_double_even(3 * j);
    resample::lemma_double_whole(0);
    lemma2_to64_rest();
    rounding::lemma_two_to_reciprocal(54, 0x40_0000_0000_0000);
    let (n, s, t) = (
        j as real,
        resample::step(BRIDGE_RATE, CHANNEL_RATE),
        rounding::two_to(-54),
    );
    let y = (6real * n) * s;
    assert(0x40_0000_0000_0000real * (n - y) == n) by (nonlinear_arith)
        requires
            y == (6real * n) * s,
            6real * s == 1real - t,
            0x40_0000_0000_0000real * t == 1real,
    ;
    assert((6 * j) as real == 6real * n);
    if j > 0 {
        lemma_rounds_up(j, y);
    }
}

/// Going up to a voice channel and back gives the samples back.
#[verifier::spinoff_prover]
pub proof fn lemma_there_and_back(input: Seq<i16>)
    requires
        6 * input.len() < 0x40_0000_0000_0000,
    ensures
        resample::resampled(
            resample::resampled(input, BRIDGE_RATE, CHANNEL_RATE),
            CHANNEL_RATE,
            BRIDGE_RATE,
        ) == input,
{
    let up = resample::resampled(input, BRIDGE_RATE, CHANNEL_RATE);
    let down = resample::resampled(up, CHANNEL_RATE, BRIDGE_RATE);
    let len = input.len() as int;
    lemma_upsampled(input, 0);
    if len > 0 {
        lemma_whole_step(CHANNEL_RATE, BRIDGE_RATE, 6);
        lemma_double_even(3 * len);
        resample::lemma_double_whole(len);
        assert((6 * len) as real / 6real == len as real);
        assert forall|j: int| 0 <= j < len implies down[j] == input[j] by {
            lemma_upsampled(input, j);
            resample::lemma_double_whole(j);
            lemma_double_even(3 * j);
            assert((6 * j) as real == j as real * 6real);
            lemma_on_sample(up, 6 * j);
        }
    }
    assert(down =~= input);
}

/// A number below a power of two has less than 11/64 of it when divided by six.
#[verifier::spinoff_prover]
proof fn lemma_sixth_below(len: int, k: int, limit: int, bound: int)
    requires
        1 <= len <= limit,
        6 <= k,
        limit == pow2(k as nat),
        bound == 11 * pow2((k - 6) as nat),
    ensures
        0 <= resample::resampled_len(len, CHANNEL_RATE, BRIDGE_RATE) <= bound,
{
    lemma2_to64();
    lemma2_to64_rest();
    lemma_pow2_adds(6, (k - 6) as nat);
    lemma_whole_step(CHANNEL_RATE, BRIDGE_RATE, 6);
    rounding::lemma_rounded_exact(1, k, 53);
    rounding::lemma_dyadic_moved(1, k, k);
    rounding::lemma_dyadic_whole(limit);
    rounding::lemma_rounded_exact(11, k - 6, 53);
    rounding::lemma_dyadic_moved(11, k - 6, k - 6);
    rounding::lemma_dyadic_whole(bound);
    rounding::lemma_rounded_exact(0, 0, 53);
    rounding::lemma_dyadic_whole(0);
    rounding::lemma_rounded_monotone(len as real, limit as real, 53);
    rounding::lemma_rounded_monotone(0real, len as real, 53);
    let x = double::double(len as real) / 6real;
    assert(0real <= x <= bound as real);
    rounding::lemma_rounded_monotone(x, bound as real, 53);
    rounding::lemma_rounded_monotone(0real, x, 53);
}

/// Whatever a channel delivers can be taken down to the bridge's rate.
pub proof fn lemma_downsampling_fits(len: usize)
    ensures
        resample::resamples(len as int, CHANNEL_RATE, BRIDGE_RATE),
        0 <= 2 * resample::resampled_len(len as int, CHANNEL_RATE, BRIDGE_RATE) <= isize::MAX,
{
    if len > 0 {
        lemma2_to64();
        lemma2_to64_rest();
        if usize::MAX == 0xFFFF_FFFF {
            lemma_sixth_below(len as int, 32, 0x1_0000_0000, 0x2C00_0000);
        } else {
            lemma_sixth_below(len as int, 64, 0x1_0000_0000_0000_0000, 0x2C00_0000_0000_0000);
        }
    }
}

} // verus!
