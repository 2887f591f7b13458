//! Single-precision numbers, held as their bits, and the scaling of samples by
//! them.
use crate::double;
use crate::rounding;
use vstd::arithmetic::power2::{lemma2_to64, lemma2_to64_rest, lemma_pow2_adds, lemma_pow2_strictly_increases, pow2};
use vstd::prelude::*;

verus! {

/// A single-precision number: its sign, eight exponent bits and 23 fraction bits.
#[derive(Clone, Copy, PartialEq, Eq, Structural, Debug)]
pub struct Single {
    pub bits: u32,
}

impl Single {
    pub open spec fn negative(self) -> bool {
        self.bits >= 0x8000_0000
    }

    /// The exponent bits.
    pub open spec fn biased_exponent(self) -> int {
        (self.bits / 0x80_0000) as int % 0x100
    }

    /// The fraction bits.
    pub open spec fn fraction(self) -> int {
        (self.bits % 0x80_0000) as int
    }

    pub open spec fn is_nan(self) -> bool {
        self.biased_exponent() == 0xFF && self.fraction() != 0
    }

    pub open spec fn is_infinite(self) -> bool {
        self.biased_exponent() == 0xFF && self.fraction() == 0
    }

    pub open spec fn is_finite(self) -> bool {
        self.biased_exponent() != 0xFF
    }

    /// The digits of a finite number, read as an integer.
    pub open spec fn digits(self) -> int {
        if self.biased_exponent() == 0 {
            self.fraction()
        } else {
            0x80_0000 + self.fraction()
        }
    }

    /// The exponent that belongs to the last digit of a finite number.
    pub open spec fn exponent(self) -> int {
        if self.biased_exponent() == 0 {
            -149
        } else {
            self.biased_exponent() - 150
        }
    }

    /// The value of a finite number.
    pub open spec fn value(self) -> real {
        if self.negative() {
            -rounding::dyadic(self.digits(), self.exponent())
        } else {
            rounding::dyadic(self.digits(), self.exponent())
        }
    }
}

/// `x` as a sample: brought into the range of samples, without its fractional
/// part.
pub open spec fn as_sample(x: real) -> int {
    if x < -32768real {
        -32768
    } else if x > 32767real {
        32767
    } else {
        rounding::truncated(x)
    }
}

/// `sample` times `factor` in single precision, as a sample. A product that is not
/// a number counts as silence.
pub open spec fn scaled(sample: i16, factor: Single) -> int {
    if factor.is_nan() || (factor.is_infinite() && sample == 0) {
        0
    } else if factor.is_infinite() {
        if factor.negative() == (sample < 0) {
            32767
        } else {
            -32768
        }
    } else {
        as_sample(rounding::rounded(sample as int as real * factor.value(), 24))
    }
}

/// Every sample times `factor`.
pub open spec fn scaled_all(samples: Seq<i16>, factor: Single) -> Seq<i16> {
    samples.map_values(|s: i16| scaled(s, factor) as i16)
}

/// The product of a sample and a finite number, from the rounded product of their
/// magnitudes.
#[verifier::spinoff_prover]
proof fn lemma_product_rounded(sample: i16, factor: Single, size: int, r: int)
    requires
        size == rounding::signed(sample < 0, sample as int),
        r >= 0,
        double::rounds_to(size * factor.digits(), r, 24),
        sample == 0 ==> r == 0,
    ensures
        rounding::rounded(sample as int as real * factor.value(), 24) == rounding::dyadic(
            rounding::signed(factor.negative() != (sample < 0), r),
            factor.exponent(),
        ),
{
    let (x, m, e) = (sample as int, factor.digits(), factor.exponent());
    let f = rounding::signed(factor.negative(), m);
    rounding::lemma_dyadic_order(m, 0, e);
    rounding::lemma_dyadic_whole(x);
    rounding::lemma_dyadic_product(x, 0, f, e);
    let t = x * f;
    let flipped = factor.negative() != (sample < 0);
    assert(t == rounding::signed(flipped, size * m)) by {
        assert(x * m == x * m && (-x) * m == -(x * m) && x * (-m) == -(x * m) && (-x) * (-m) == x * m)
            by (nonlinear_arith);
    }
    assert(size * m >= 0) by (nonlinear_arith)
        requires
            size >= 0,
            m >= 0,
    ;
    if t == 0 {
        reveal(double::rounds_to);
        reveal(rounding::rounded);
        assert(r == 0);
    }
    double::lemma_rounded_signed(t, r, e, 24);
}

/// A sample has fifteen digits at most, and a single-precision number 24.
#[verifier::spinoff_prover]
proof fn lemma_product_size(size: int, digits: int, r: int)
    requires
        0 <= size <= 32768,
        0 <= digits < 0x100_0000,
        double::rounds_to(size * digits, r, 24),
    ensures
        0 <= size * digits <= 0x80_0000_0000,
        r <= 0x80_0000_0000,
        size >= 1 && digits >= 0x80_0000 ==> r >= 0x80_0000,
        size == 0 ==> r == 0,
{
    reveal(double::rounds_to);
    let t = size * digits;
    assert(0 <= t <= 0x80_0000_0000) by (nonlinear_arith)
        requires
            t == size * digits,
            0 <= size <= 32768,
            0 <= digits < 0x100_0000,
    ;
    lemma2_to64();
    rounding::lemma_rounded_exact(1, 39, 24);
    rounding::lemma_dyadic_moved(1, 39, 39);
    rounding::lemma_dyadic_whole(0x80_0000_0000);
    lemma2_to64_rest();
    rounding::lemma_rounded_monotone(t as real, 0x80_0000_0000int as real, 24);
    if size >= 1 && digits >= 0x80_0000 {
        assert(t >= 0x80_0000) by (nonlinear_arith)
            requires
                t == size * digits,
                size >= 1,
                digits >= 0x80_0000,
        ;
        rounding::lemma_rounded_exact(0x80_0000, 0, 24);
        rounding::lemma_dyadic_whole(0x80_0000);
        rounding::lemma_rounded_monotone(0x80_0000int as real, t as real, 24);
    }
    if size == 0 {
        reveal(rounding::rounded);
        assert(t == 0);
    }
}

/// A number with fractional digits as a sample.
#[verifier::spinoff_prover]
proof fn lemma_sample_of_fraction(negative: bool, r: int, s: int)
    requires
        r >= 0,
        s >= 0,
    ensures
        as_sample(rounding::dyadic(rounding::signed(negative, r), -s)) == ({
            let q = r / pow2(s as nat) as int;
            if negative {
                if q > 32768 {
                    -32768
                } else {
                    -q
                }
            } else if q > 32767 {
                32767
            } else {
                q
            }
        }),
{
    rounding::lemma_dyadic_floor(r, s);
    rounding::lemma_truncated_dyadic(r, s);
    rounding::lemma_dyadic_order(r, 0, -s);
}

/// A number of at least 2^23 is beyond the range of samples.
#[verifier::spinoff_prover]
proof fn lemma_sample_of_large(negative: bool, r: int, e: int)
    requires
        r >= 0x80_0000,
        e >= 0,
    ensures
        as_sample(rounding::dyadic(rounding::signed(negative, r), e)) == (if negative {
            -32768int
        } else {
            32767
        }),
{
    rounding::lemma_dyadic_order(r, 0, e);
    rounding::lemma_two_to_increases(0, e);
    rounding::lemma_two_to_zero();
    reveal(rounding::dyadic);
    let (x, u) = (r as real, rounding::two_to(e));
    assert(x * u >= x) by (nonlinear_arith)
        requires
            x >= 0real,
            u >= 1real,
    ;
}

/// `sample` times `factor` in single precision, as a sample.
#[verifier::spinoff_prover]
pub fn scale_sample(sample: i16, factor: Single) -> (r: i16)
    ensures
        r == scaled(sample, factor),
{
    let exponent: u32 = (factor.bits / 0x80_0000) % 0x100;
    let fraction: u32 = factor.bits % 0x80_0000;
    let negative: bool = (factor.bits >= 0x8000_0000) != (sample < 0);
    if exponent == 0xFF {
        return if fraction != 0 || sample == 0 {
            0
        } else if negative {
            -32768
        } else {
            32767
        };
    }
    let size: u32 = if sample < 0 {
        (-(sample as i32)) as u32
    } else {
        sample as u32
    };
    let digits: u32 = if exponent == 0 {
        fraction
    } else {
        0x80_0000 + fraction
    };
    proof {
        let (a, b) = (size as int, digits as int);
        assert(0 <= a * b <= 0x80_0000_0000) by (nonlinear_arith)
            requires
                0 <= a <= 32768,
                0 <= b < 0x100_0000,
        ;
        lemma2_to64_rest();
        lemma_pow2_adds(63, 64);
    }
    let product: u128 = size as u128 * digits as u128;
    let nearest: u128 = double::round_integer(product, 24);
    proof {
        lemma_product_size(size as int, digits as int, nearest as int);
        lemma_product_rounded(sample, factor, size as int, nearest as int);
    }
    if exponent >= 150 {
        if sample == 0 {
            proof {
                rounding::lemma_dyadic_order(0, 0, factor.exponent());
            }
            0
        } else {
            proof {
                lemma_sample_of_large(negative, nearest as int, factor.exponent());
            }
            if negative {
                -32768
            } else {
                32767
            }
        }
    } else {
        let shift: u32 = if exponent == 0 {
            149
        } else {
            150 - exponent
        };
        proof {
            lemma_sample_of_fraction(negative, nearest as int, shift as int);
            if shift > 40 {
                lemma_pow2_strictly_increases(40, shift as nat);
                let (n, p) = (nearest as int, pow2(shift as nat) as int);
                assert(n / p == 0) by (nonlinear_arith)
                    requires
                        0 <= n < p,
                ;
            }
        }
        let whole: u128 = if shift > 40 {
            0
        } else {
            nearest / double::power_of_two(shift)
        };
        if negative {
            if whole > 32768 {
                -32768
            } else {
                (-(whole as i32)) as i16
            }
        } else if whole > 32767 {
            32767
        } else {
            whole as i16
        }
    }
}

/// Every sample times `factor`.
pub fn scale(samples: &[i16], factor: Single) -> (r: Vec<i16>)
    ensures
        r@ == scaled_all(samples@, factor),
{
    let mut out: Vec<i16> = Vec::with_capacity(samples.len());
    let mut i: usize = 0;
    while i < samples.len()
        invariant
            i <= samples@.len(),
            out@ == scaled_all(samples@.take(i as int), factor),
        decreases samples@.len() - i,
    {
        out.push(scale_sample(samples[i], factor));
        i = i + 1;
        assert(samples@.take(i as int) =~= samples@.take(i - 1).push(samples@[i - 1]));
    }
    assert(samples@.take(i as int) =~= samples@);
    out
}

/// A volume from zero to one never makes a sample louder, nor turns its sign.
#[verifier::spinoff_prover]
pub proof fn lemma_volume_attenuates(sample: i16, volume: Single)
    requires
        volume.is_finite(),
        0real <= volume.value() <= 1real,
    ensures
        sample >= 0 ==> 0 <= scaled(sample, volume) <= sample,
        sample <= 0 ==> sample <= scaled(sample, volume) <= 0,
{
    let (x, v) = (sample as int as real, volume.value());
    let y = x * v;
    lemma2_to64();
    rounding::lemma_rounded_exact(sample as int, 0, 24);
    rounding::lemma_dyadic_whole(sample as int);
    rounding::lemma_rounded_exact(0, 0, 24);
    rounding::lemma_dyadic_whole(0);
    if sample >= 0 {
        assert(0real <= y <= x) by (nonlinear_arith)
            requires
                y == x * v,
                x >= 0real,
                0real <= v <= 1real,
        ;
        rounding::lemma_rounded_monotone(0real, y, 24);
        rounding::lemma_rounded_monotone(y, x, 24);
    }
    if sample <= 0 {
        assert(x <= y <= 0real) by (nonlinear_arith)
            requires
                y == x * v,
                x <= 0real,
                0real <= v <= 1real,
        ;
        rounding::lemma_rounded_monotone(y, 0real, 24);
        rounding::lemma_rounded_monotone(x, y, 24);
    }
}

/// A louder sample stays at least as loud at any volume that is not negative.
#[verifier::spinoff_prover]
pub proof fn lemma_volume_keeps_order(a: i16, b: i16, volume: Single)
    requires
        volume.is_finite(),
        0real <= volume.value(),
        a <= b,
    ensures
        scaled(a, volume) <= scaled(b, volume),
{
    let (x, y, v) = (a as int as real, b as int as real, volume.value());
    let (p, q) = (x * v, y * v);
    assert(p <= q) by (nonlinear_arith)
        requires
            p == x * v,
            q == y * v,
            x <= y,
            v >= 0real,
    ;
    rounding::lemma_rounded_monotone(p, q, 24);
}

/// Full volume, the number one, leaves every sample as it is, and volume zero of
/// either sign silences it.
#[verifier::spinoff_prover]
pub proof fn lemma_volume_ends(sample: i16, volume: Single)
    requires
        volume.is_finite(),
    ensures
        volume.value() == 1real ==> scaled(sample, volume) == sample,
        volume.value() == 0real ==> scaled(sample, volume) == 0,
        (Single { bits: 0x3F80_0000 }).value() == 1real,
        (Single { bits: 0 }).value() == 0real,
        (Single { bits: 0x8000_0000 }).value() == 0real,
{
    let (x, v) = (sample as int as real, volume.value());
    lemma2_to64();
    rounding::lemma_rounded_exact(sample as int, 0, 24);
    rounding::lemma_dyadic_whole(sample as int);
    rounding::lemma_rounded_exact(0, 0, 24);
    rounding::lemma_dyadic_whole(0);
    rounding::lemma_dyadic_whole(1);
    rounding::lemma_dyadic_moved(1, 23, 0);
    rounding::lemma_dyadic_order(0, 0, -149);
    assert(v == 1real ==> x * v == x) by (nonlinear_arith);
    assert(v == 0real ==> x * v == 0real) by (nonlinear_arith);
}

/// A scaled sample is less than one away from the product, which it never passes by
/// more than rounding does. Beyond the range of samples it is the nearest end.
#[verifier::spinoff_prover]
pub proof fn lemma_scaled_near(sample: i16, factor: Single)
    requires
        factor.is_finite(),
    ensures
        ({
            let x = sample as int as real * factor.value();
            let out = scaled(sample, factor);
            &&& x >= 32767real ==> out == 32767
            &&& x <= -32768real ==> out == -32768
            &&& -32768real <= x <= 32767real ==> -1real < out as real - x < 1real
            &&& 0real <= x ==> 0 <= out && 0x100_0000real * (out as real - x) <= x
            &&& x <= 0real ==> out <= 0 && 0x100_0000real * (x - out as real) <= -x
        }),
{
    let x = sample as int as real * factor.value();
    let r = rounding::rounded(x, 24);
    lemma2_to64();
    lemma_single_whole(32767);
    lemma_single_whole(-32768);
    lemma_single_whole(0);
    if x >= 32767real {
        rounding::lemma_rounded_monotone(32767int as real, x, 24);
    }
    if x <= -32768real {
        rounding::lemma_rounded_monotone(x, -32768int as real, 24);
    }
    if x > 0real {
        lemma_single_close(x);
    }
    if x < 0real {
        lemma_single_close(-x);
        rounding::lemma_rounded_negated(x, 24);
    }
    if -32768real <= x <= 32767real {
        rounding::lemma_rounded_monotone(-32768int as real, x, 24);
        rounding::lemma_rounded_monotone(x, 32767int as real, 24);
        let n = x.floor();
        lemma_single_whole(n);
        lemma_single_whole(n + 1);
        rounding::lemma_rounded_monotone(n as real, x, 24);
        rounding::lemma_rounded_monotone(x, (n + 1) as real, 24);
        lemma_whole_part(r, x, n);
    }
    lemma_cut(r);
}

#[verifier::spinoff_prover]
proof fn lemma_single_whole(n: int)
    requires
        -32768 <= n <= 32768,
    ensures
        rounding::rounded(n as real, 24) == n as real,
{
    lemma2_to64();
    rounding::lemma_rounded_exact(n, 0, 24);
    rounding::lemma_dyadic_whole(n);
}

#[verifier::spinoff_prover]
proof fn lemma_single_close(x: real)
    requires
        x > 0real,
    ensures
        0x100_0000real * (rounding::rounded(x, 24) - x) <= x,
        rounding::rounded(x, 24) > 0real,
{
    lemma2_to64();
    rounding::lemma_rounded_error(x, 24);
    rounding::lemma_two_to_reciprocal(24, 0x100_0000);
    let u = rounding::two_to(-24);
    let y = x * u;
    assert(0x100_0000real * y == x) by (nonlinear_arith)
        requires
            y == x * u,
            0x100_0000real * u == 1real,
    ;
}

#[verifier::spinoff_prover]
proof fn lemma_whole_part(r: real, x: real, n: int)
    requires
        n as real <= x < (n + 1) as real,
        n as real <= r <= (n + 1) as real,
        x == n as real ==> r == n as real,
    ensures
        -1real < rounding::truncated(r) as real - x < 1real,
{
    let q = rounding::truncated(r);
    assert(q == n || q == n + 1);
    assert(r == n as real ==> q == n);
}

/// Cutting a number to a sample never makes it louder or turns its sign.
#[verifier::spinoff_prover]
proof fn lemma_cut(r: real)
    ensures
        r >= 0real ==> 0real <= as_sample(r) as real <= r,
        r <= 0real ==> r <= as_sample(r) as real <= 0real,
        -32768real <= r <= 32767real ==> as_sample(r) == rounding::truncated(r),
{
}

/// A scaled sample is a sample.
pub proof fn lemma_sample_range(sample: i16, factor: Single)
    ensures
        -32768 <= scaled(sample, factor) <= 32767,
{
    lemma_cut(rounding::rounded(sample as int as real * factor.value(), 24));
}

/// A product that is not a number is silent, and an infinite one is the end of the
/// range on its side. The bits say which.
pub proof fn lemma_scaled_special(sample: i16, bits: u32)
    ensures
        bits % 0x8000_0000 > 0x7F80_0000 ==> scaled(sample, Single { bits }) == 0,
        bits % 0x8000_0000 == 0x7F80_0000 ==> scaled(sample, Single { bits }) == (if sample == 0 {
            0int
        } else if (sample > 0) == (bits < 0x8000_0000) {
            32767
        } else {
            -32768
        }),
        bits % 0x8000_0000 < 0x7F80_0000 <==> (Single { bits }).is_finite(),
{
}

/// What the bits stand for: the first 2^24 numbers are as far apart as the smallest
/// one is from zero, another step of the exponent doubles a number, and the highest
/// bit turns its sign.
#[verifier::spinoff_prover]
pub proof fn lemma_single_values(bits: u32)
    ensures
        bits < 0x100_0000 ==> (Single { bits }).value() == rounding::dyadic(bits as int, -149),
        0x80_0000 <= bits < 0x7F00_0000 ==> (Single { bits: (bits + 0x80_0000) as u32 }).value()
            == 2real * (Single { bits }).value(),
        bits < 0x8000_0000 ==> (Single { bits: (bits + 0x8000_0000) as u32 }).value() == -(Single {
            bits,
        }).value(),
{
    let x = Single { bits };
    if 0x80_0000 <= bits < 0x7F00_0000 {
        let y = Single { bits: (bits + 0x80_0000) as u32 };
        assert(y.fraction() == x.fraction() && y.biased_exponent() == x.biased_exponent() + 1);
        rounding::lemma_two_to_step(x.exponent());
        reveal(rounding::dyadic);
        let (d, u) = (x.digits() as real, rounding::two_to(x.exponent()));
        assert(d * (2real * u) == 2real * (d * u)) by (nonlinear_arith);
    }
    if bits < 0x8000_0000 {
        let y = Single { bits: (bits + 0x8000_0000) as u32 };
        assert(y.fraction() == x.fraction() && y.biased_exponent() == x.biased_exponent());
    }
}

/// Every sample of a run is scaled on its own.
pub proof fn lemma_scaled_runs(x: Seq<i16>, y: Seq<i16>, sample: i16, factor: Single)
    ensures
        scaled_all(x + y, factor) == scaled_all(x, factor) + scaled_all(y, factor),
        scaled_all(seq![sample], factor) == seq![scaled(sample, factor) as i16],
        scaled_all(x, factor).len() == x.len(),
{
    assert(scaled_all(x + y, factor) =~= scaled_all(x, factor) + scaled_all(y, factor));
    assert(scaled_all(seq![sample], factor) =~= seq![scaled(sample, factor) as i16]);
}

/// A scaled sample is the product, rounded to single precision, without its fractional
/// part, or the nearest end of the range.
#[verifier::spinoff_prover]
pub proof fn lemma_scaled_steps(sample: i16, factor: Single)
    requires
        factor.is_finite(),
    ensures
        ({
            let r = rounding::rounded(sample as int as real * factor.value(), 24);
            let out = scaled(sample, factor) as real;
            &&& r > 32767real ==> out == 32767real
            &&& r < -32768real ==> out == -32768real
            &&& 0real <= r <= 32767real ==> 0real <= out <= r && r < out + 1real
            &&& -32768real <= r <= 0real ==> r <= out <= 0real && out - 1real < r
        }),
{
    lemma_cut(rounding::rounded(sample as int as real * factor.value(), 24));
}

} // verus!
