//! Playback bytes: stereo frames of single-precision samples.
use crate::double;
use crate::rounding;
use crate::single::Single;
use vstd::arithmetic::power2::{lemma2_to64, lemma_pow2_adds, lemma_pow2_strictly_increases, lemma_pow2_unfold, pow2};
use vstd::prelude::*;

verus! {

/// The number of binary digits of `n` that follow its leading one.
pub open spec fn trailing_digits(n: int) -> int
    decreases n,
{
    if n <= 1 {
        0
    } else {
        1 + trailing_digits(n / 2)
    }
}

pub open spec fn size(sample: i16) -> int {
    if sample < 0 {
        -sample
    } else {
        sample as int
    }
}

/// The single-precision number `sample / 32768`: its sign, the biased exponent of
/// its leading digit, and the digits after that.
pub open spec fn normalized(sample: i16) -> Single {
    let n = trailing_digits(size(sample));
    let sign = if sample < 0 {
        0x8000_0000int
    } else {
        0
    };
    if sample == 0 {
        Single { bits: 0 }
    } else {
        Single {
            bits: (sign + (n + 112) * 0x80_0000 + (size(sample) * pow2((23 - n) as nat)
                - 0x80_0000)) as u32,
        }
    }
}

/// The four bytes of `bits`, least significant first.
pub open spec fn little_endian(bits: u32) -> Seq<u8> {
    seq![
        (bits % 0x100) as u8,
        (bits / 0x100 % 0x100) as u8,
        (bits / 0x1_0000 % 0x100) as u8,
        (bits / 0x100_0000) as u8,
    ]
}

/// The number whose four bytes, least significant first, are `bytes`.
pub open spec fn from_little_endian(bytes: Seq<u8>) -> u32 {
    (bytes[0] + 0x100 * bytes[1] + 0x1_0000 * bytes[2] + 0x100_0000 * bytes[3]) as u32
}

/// The sample on the left channel of frame `i` of playback bytes.
pub open spec fn left(bytes: Seq<u8>, i: int) -> Single {
    Single { bits: from_little_endian(bytes.subrange(8 * i, 8 * i + 4)) }
}

/// The playback bytes of `mono`: eight for each sample, which are its four on the
/// left channel and the same four on the right.
pub open spec fn stereo_bytes(mono: Seq<i16>) -> Seq<u8> {
    Seq::new(8 * mono.len(), |i: int| little_endian(normalized(mono[i / 8]).bits)[i % 4])
}

proof fn lemma_trailing_digits(n: int, k: nat)
    requires
        pow2(k) <= n < pow2(k + 1),
    ensures
        trailing_digits(n) == k,
    decreases k,
{
    lemma2_to64();
    lemma_pow2_unfold(k + 1);
    if k > 0 {
        lemma_pow2_unfold(k);
        vstd::arithmetic::power2::lemma_pow2_pos((k - 1) as nat);
        lemma_trailing_digits(n / 2, (k - 1) as nat);
    }
}

/// The leading one of a magnitude of `k + 1` digits moves to digit 23.
proof fn lemma_leading_place(n: int, k: nat)
    requires
        k <= 15,
        pow2(k) <= n < pow2(k + 1),
    ensures
        0x80_0000 <= n * pow2((23 - k) as nat) < 0x100_0000,
        pow2((23 - k) as nat) <= 0x80_0000,
{
    let j = (23 - k) as nat;
    lemma2_to64();
    vstd::arithmetic::power2::lemma_pow2_pos(j);
    if j < 23 {
        lemma_pow2_strictly_increases(j, 23);
    }
    lemma_pow2_adds(k, j);
    lemma_pow2_adds(k + 1, j);
    let (a, b, p) = (pow2(k) as int, pow2(k + 1) as int, pow2(j) as int);
    assert(a * p <= n * p && n * p < b * p) by (nonlinear_arith)
        requires
            a <= n < b,
            p >= 1,
    ;
}

/// The number `sample / 32768` in single precision.
pub fn normalize(sample: i16) -> (r: Single)
    ensures
        r == normalized(sample),
{
    if sample == 0 {
        return Single { bits: 0 };
    }
    let magnitude: u32 = if sample < 0 {
        (-(sample as i32)) as u32
    } else {
        sample as u32
    };
    let n: u32 = double::leading_digit(magnitude as u128);
    proof {
        lemma2_to64();
        if n > 15 {
            if n > 16 {
                lemma_pow2_strictly_increases(16, n as nat);
            }
            assert(false);
        }
        lemma_trailing_digits(magnitude as int, n as nat);
        lemma_leading_place(magnitude as int, n as nat);
    }
    let unit: u128 = double::power_of_two(23 - n);
    let digits: u32 = (magnitude as u128 * unit) as u32;
    let sign: u32 = if sample < 0 {
        0x8000_0000
    } else {
        0
    };
    Single { bits: sign + (n + 112) * 0x80_0000 + (digits - 0x80_0000) }
}

/// Convert mono PCM to interleaved stereo single-precision raw bytes.
///
/// Each mono sample is normalized to [-1.0, 1.0] and duplicated to both channels.
/// Output is raw little-endian bytes, four for each channel.
pub fn mono_i16_to_stereo_f32_bytes(mono: &[i16]) -> (r: Vec<u8>)
    requires
        8 * mono@.len() <= isize::MAX,
    ensures
        r@ == stereo_bytes(mono@),
{
    let mut bytes: Vec<u8> = Vec::with_capacity(8 * mono.len());
    let mut i: usize = 0;
    while i < mono.len()
        invariant
            i <= mono@.len(),
            bytes@.len() == 8 * i,
            forall|j: int| 0 <= j < 8 * i ==> #[trigger] bytes@[j] == stereo_bytes(mono@)[j],
        decreases mono@.len() - i,
    {
        let bits: u32 = normalize(mono[i]).bits;
        let b0: u8 = (bits % 0x100) as u8;
        let b1: u8 = (bits / 0x100 % 0x100) as u8;
        let b2: u8 = (bits / 0x1_0000 % 0x100) as u8;
        let b3: u8 = (bits / 0x100_0000) as u8;
        bytes.push(b0);
        bytes.push(b1);
        bytes.push(b2);
        bytes.push(b3);
        bytes.push(b0);
        bytes.push(b1);
        bytes.push(b2);
        bytes.push(b3);
        i = i + 1;
    }
    assert(bytes@ =~= stereo_bytes(mono@));
    bytes
}

proof fn lemma_trailing_digits_bracket(n: int)
    requires
        n >= 1,
    ensures
        trailing_digits(n) >= 0,
        pow2(trailing_digits(n) as nat) <= n < pow2((trailing_digits(n) + 1) as nat),
    decreases n,
{
    lemma2_to64();
    if n > 1 {
        lemma_trailing_digits_bracket(n / 2);
        let k = trailing_digits(n / 2) as nat;
        lemma_pow2_unfold(k + 1);
        lemma_pow2_unfold(k + 2);
    }
}

proof fn lemma_normalized_parts(sample: i16)
    requires
        sample != 0,
    ensures
        ({
            let n = trailing_digits(size(sample));
            let x = normalized(sample);
            &&& 0 <= n <= 15
            &&& x.negative() == (sample < 0)
            &&& x.biased_exponent() == n + 112
            &&& x.digits() == size(sample) * pow2((23 - n) as nat)
        }),
{
    let m = size(sample);
    let n = trailing_digits(m);
    lemma_trailing_digits_bracket(m);
    lemma2_to64();
    if n > 15 {
        if n > 16 {
            lemma_pow2_strictly_increases(16, n as nat);
        }
    }
    lemma_leading_place(m, n as nat);
}

/// A playback sample is exactly its sample over 32768, which lies in [-1, 1).
#[verifier::spinoff_prover]
pub proof fn lemma_normalized_value(sample: i16)
    ensures
        normalized(sample).is_finite(),
        normalized(sample).value() == sample as int as real / 32768real,
        -1real <= normalized(sample).value() < 1real,
        normalized(sample).negative() == (sample < 0),
{
    let m = size(sample);
    lemma2_to64();
    rounding::lemma_dyadic_moved(1, 15, 0);
    rounding::lemma_dyadic_whole(1);
    assert(rounding::dyadic(m, -15) == m as real / 32768real) by {
        rounding::lemma_two_to_reciprocal(15, 32768);
        reveal(rounding::dyadic);
        let (x, u) = (m as real, rounding::two_to(-15));
        assert(x * u == x / 32768real) by (nonlinear_arith)
            requires
                32768real * u == 1real,
        ;
    }
    if sample != 0 {
        lemma_normalized_parts(sample);
        let n = trailing_digits(m);
        rounding::lemma_dyadic_moved(m, 23 - n, -15);
    } else {
        rounding::lemma_dyadic_order(0, 0, -149);
    }
}

/// Every sample takes eight bytes, and its two channels carry the same four.
pub proof fn lemma_stereo_frames(mono: Seq<i16>, i: int)
    requires
        0 <= i < mono.len(),
    ensures
        stereo_bytes(mono).len() == 8 * mono.len(),
        stereo_bytes(mono).subrange(8 * i, 8 * i + 4) == little_endian(normalized(mono[i]).bits),
        stereo_bytes(mono).subrange(8 * i + 4, 8 * i + 8) == little_endian(
            normalized(mono[i]).bits,
        ),
{
    let b = little_endian(normalized(mono[i]).bits);
    assert(stereo_bytes(mono).subrange(8 * i, 8 * i + 4) =~= b);
    assert(stereo_bytes(mono).subrange(8 * i + 4, 8 * i + 8) =~= b);
}

#[verifier::spinoff_prover]
proof fn lemma_little_endian(bits: u32)
    ensures
        from_little_endian(little_endian(bits)) == bits,
{
    assert(bits % 0x100 + 0x100 * (bits / 0x100 % 0x100) + 0x1_0000 * (bits / 0x1_0000 % 0x100)
        + 0x100_0000 * (bits / 0x100_0000) == bits) by (bit_vector);
}

#[verifier::spinoff_prover]
proof fn lemma_scaled_back(x: real, v: real)
    requires
        v == x / 32768real,
    ensures
        32768real * v == x,
{
}

/// The samples can be read from their playback bytes.
#[verifier::spinoff_prover]
pub proof fn lemma_samples_read_back(mono: Seq<i16>, i: int)
    requires
        0 <= i < mono.len(),
    ensures
        left(stereo_bytes(mono), i) == normalized(mono[i]),
        32768real * left(stereo_bytes(mono), i).value() == mono[i] as int as real,
{
    let x = normalized(mono[i]);
    assert(left(stereo_bytes(mono), i) == x) by {
        lemma_stereo_frames(mono, i);
        lemma_little_endian(x.bits);
    }
    assert(32768real * x.value() == mono[i] as int as real) by {
        lemma_normalized_value(mono[i]);
        lemma_scaled_back(mono[i] as int as real, x.value());
    }
}

/// The eight bytes of a frame: the bits of its sample, least significant byte first, and
/// the same once more.
pub proof fn lemma_frame_bytes(mono: Seq<i16>, i: int, j: int)
    requires
        0 <= i < mono.len(),
        0 <= j < 4,
    ensures
        ({
            let bytes = stereo_bytes(mono);
            &&& bytes[8 * i] + 0x100 * bytes[8 * i + 1] + 0x1_0000 * bytes[8 * i + 2] + 0x100_0000
                * bytes[8 * i + 3] == normalized(mono[i]).bits
            &&& bytes[8 * i + 4 + j] == bytes[8 * i + j]
        }),
{
    lemma_stereo_frames(mono, i);
    let bits = normalized(mono[i]).bits;
    lemma_byte_sum(bits);
    let b = little_endian(bits);
    let (s, t) = (
        stereo_bytes(mono).subrange(8 * i, 8 * i + 4),
        stereo_bytes(mono).subrange(8 * i + 4, 8 * i + 8),
    );
    assert(s[0] == b[0] && s[1] == b[1] && s[2] == b[2] && s[3] == b[3]);
    assert(s[j] == t[j]);
}

#[verifier::spinoff_prover]
proof fn lemma_byte_sum(bits: u32)
    ensures
        ({
            let b = little_endian(bits);
            b[0] + 0x100 * b[1] + 0x1_0000 * b[2] + 0x100_0000 * b[3] == bits
        }),
{
    assert(bits % 0x100 + 0x100 * (bits / 0x100 % 0x100) + 0x1_0000 * (bits / 0x1_0000 % 0x100)
        + 0x100_0000 * (bits / 0x100_0000) == bits) by (bit_vector);
}

} // verus!
