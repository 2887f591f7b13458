//! Mu-law companding (ITU-T G.711): 16-bit samples in 8 bits, on a scale of
//! eight segments that double in width.
use vstd::arithmetic::power2::{lemma2_to64, lemma_pow2_adds, lemma_pow2_strictly_increases, lemma_pow2_unfold, pow2};
use vstd::bits::{lemma_u32_pow2_no_overflow, lemma_u32_shl_is_mul, lemma_u32_shr_is_div};
use vstd::prelude::*;

verus! {

/// What is added to a magnitude so that the segments start at powers of two.
pub const BIAS: u32 = 132;

/// The largest magnitude that has a code.
pub const CLIP: u32 = 32635;

/// The distance of a sample from zero.
pub open spec fn magnitude(sample: int) -> int {
    if sample < 0 {
        -sample
    } else {
        sample
    }
}

/// The segment of a biased magnitude: the number of halvings that bring it below
/// 256, the end of the first segment.
pub open spec fn segment(biased: int) -> int
    decreases biased,
{
    if biased < 256 {
        0
    } else {
        segment(biased / 2) + 1
    }
}

/// The biased magnitude of a sample, after clipping.
pub open spec fn biased(sample: int) -> int {
    (if magnitude(sample) > CLIP {
        CLIP as int
    } else {
        magnitude(sample)
    }) + BIAS
}

/// The code of a sample: the complement of sign, segment and the four digits that
/// follow the leading one.
pub open spec fn encoded(sample: i16) -> u8 {
    let b = biased(sample as int);
    let e = segment(b);
    let sign: int = if sample < 0 {
        128
    } else {
        0
    };
    (255 - (sign + 16 * e + (b / pow2((e + 3) as nat) as int) % 16)) as u8
}

/// The sample in the middle of the interval that a code stands for.
pub open spec fn decoded(byte: u8) -> i16 {
    let code = 255 - byte;
    let e = code / 16 % 8;
    let m = code % 16;
    let size = (2 * m + 33) * pow2((e + 2) as nat) - BIAS;
    (if code >= 128 {
        -size
    } else {
        size
    }) as i16
}

/// The segment of a number with a known leading digit.
proof fn lemma_segment(b: int, e: int)
    requires
        0 <= e <= 7,
        b < pow2((e + 8) as nat),
        e > 0 ==> b >= pow2((e + 7) as nat),
        b >= 0,
    ensures
        segment(b) == e,
    decreases e,
{
    lemma2_to64();
    if e > 0 {
        lemma_pow2_unfold((e + 8) as nat);
        lemma_pow2_unfold((e + 7) as nat);
        lemma_segment(b / 2, e - 1);
    }
}

/// Encode a single PCM sample to mu-law (ITU-T G.711).
pub fn mulaw_encode_sample(sample: i16) -> (r: u8)
    ensures
        r == encoded(sample),
{
    let sign: u8 = if sample < 0 {
        0x80
    } else {
        0x00
    };
    let mut magnitude: u32 = if sample < 0 {
        (-(sample as i32)) as u32
    } else {
        sample as u32
    };
    if magnitude > CLIP {
        magnitude = CLIP;
    }
    magnitude = magnitude + BIAS;

    let mut exp: u32 = 7;
    let mut mask: u32 = 0x4000;
    assert(0x80u32 << 7u32 == 0x4000) by (bit_vector);
    while exp > 0 && (magnitude & mask) == 0
        invariant
            exp <= 7,
            mask == 0x80u32 << exp,
            magnitude < 2 * mask,
        ensures
            exp <= 7,
            mask == 0x80u32 << exp,
            magnitude < 2 * mask,
            exp > 0 ==> magnitude & mask != 0,
        decreases exp,
    {
        assert(magnitude < mask && mask >> 1 == 0x80u32 << ((exp - 1) as u32) && mask == 2 * (mask
            >> 1)) by (bit_vector)
            requires
                0 < exp <= 7,
                mask == 0x80u32 << exp,
                magnitude & mask == 0,
                magnitude < 2 * mask,
        ;
        exp = exp - 1;
        mask = mask >> 1;
    }
    proof {
        assert(exp > 0 ==> magnitude >= mask) by (bit_vector)
            requires
                exp > 0 ==> magnitude & mask != 0,
                mask == 0x80u32 << exp,
                exp <= 7,
        ;
        lemma_mask(exp);
        lemma_segment(magnitude as int, exp as int);
        lemma_u32_shr_is_div(magnitude, (exp + 3) as u32);
    }
    let digits: u32 = magnitude >> (exp + 3);
    assert(digits & 0x0F == digits % 16) by (bit_vector);
    let mantissa: u8 = (digits & 0x0F) as u8;
    let segment: u8 = exp as u8;
    assert(!(sign | (segment << 4u8) | mantissa) == 255 - (sign + 16 * segment + mantissa))
        by (bit_vector)
        requires
            sign == 0 || sign == 0x80,
            segment <= 7,
            mantissa <= 15,
    ;
    !(sign | (segment << 4u8) | mantissa)
}

/// The leading digit of a segment as a power of two.
proof fn lemma_mask(exp: u32)
    requires
        exp <= 7,
    ensures
        0x80u32 << exp == pow2((exp + 7) as nat),
        2 * (0x80u32 << exp) == pow2((exp + 8) as nat),
{
    lemma2_to64();
    lemma_u32_pow2_no_overflow((exp + 7) as nat);
    lemma_pow2_adds(7, exp as nat);
    lemma_u32_shl_is_mul(0x80, exp);
    lemma_pow2_unfold((exp + 8) as nat);
}

/// Decode a single mu-law byte to a PCM sample.
pub fn mulaw_decode_sample(byte: u8) -> (r: i16)
    ensures
        r == decoded(byte),
{
    let code: u8 = !byte;
    let sign: u8 = code & 0x80;
    let exp: u32 = ((code >> 4u8) & 0x07) as u32;
    let mantissa: u32 = (code & 0x0F) as u32;
    proof {
        assert(!byte == 255 - byte) by (bit_vector);
        assert((code & 0x80 != 0) == (code >= 128) && (code >> 4u8) & 0x07 == code / 16 % 8 && code
            & 0x0F == code % 16) by (bit_vector);
        lemma_expanded(mantissa, exp);
    }
    let biased: u32 = ((mantissa << 1u32) | 0x21) << (exp + 2);
    let size: i32 = biased as i32 - BIAS as i32;
    if sign != 0 {
        (-size) as i16
    } else {
        size as i16
    }
}

/// The biased magnitude of a code.
proof fn lemma_expanded(mantissa: u32, exp: u32)
    requires
        mantissa <= 15,
        exp <= 7,
    ensures
        ((mantissa << 1u32) | 0x21u32) << ((exp + 2) as u32) == (2 * mantissa + 33) * pow2(
            (exp + 2) as nat,
        ),
        132 <= (2 * mantissa + 33) * pow2((exp + 2) as nat) <= 32256,
{
    let m = (mantissa << 1u32) | 0x21u32;
    assert(m == 2 * mantissa + 33) by (bit_vector)
        requires
            m == (mantissa << 1u32) | 0x21u32,
            mantissa <= 15,
    ;
    let p = pow2((exp + 2) as nat) as int;
    lemma_powers(exp);
    assert(33 * 4 <= m * p <= 63 * 512) by (nonlinear_arith)
        requires
            33 <= m <= 63,
            4 <= p <= 512,
    ;
    lemma_u32_shl_is_mul(m, (exp + 2) as u32);
}

proof fn lemma_powers(e: u32)
    requires
        e <= 7,
    ensures
        4 <= pow2((e + 2) as nat) <= 512,
        pow2((e + 3) as nat) == 2 * pow2((e + 2) as nat),
{
    lemma2_to64();
    lemma_pow2_unfold((e + 3) as nat);
    if e > 0 {
        lemma_pow2_strictly_increases(2, (e + 2) as nat);
    }
    if e < 7 {
        lemma_pow2_strictly_increases((e + 2) as nat, 9);
    }
}

/// The codes of a run of samples.
pub open spec fn encoded_all(pcm: Seq<i16>) -> Seq<u8> {
    Seq::new(pcm.len(), |i: int| encoded(pcm[i]))
}

/// The samples of a run of codes.
pub open spec fn decoded_all(mulaw: Seq<u8>) -> Seq<i16> {
    Seq::new(mulaw.len(), |i: int| decoded(mulaw[i]))
}

/// Encode a PCM buffer to mu-law bytes.
pub fn encode_mulaw(pcm: &[i16]) -> (r: Vec<u8>)
    ensures
        r@ == encoded_all(pcm@),
{
    let mut mulaw: Vec<u8> = Vec::with_capacity(pcm.len());
    let mut i: usize = 0;
    while i < pcm.len()
        invariant
            i <= pcm@.len(),
            mulaw@.len() == i,
            forall|j: int| 0 <= j < i ==> #[trigger] mulaw@[j] == encoded(pcm@[j]),
        decreases pcm@.len() - i,
    {
        mulaw.push(mulaw_encode_sample(pcm[i]));
        i = i + 1;
    }
    assert(mulaw@ =~= encoded_all(pcm@));
    mulaw
}

/// Decode mu-law bytes to a PCM buffer.
pub fn decode_mulaw(mulaw: &[u8]) -> (r: Vec<i16>)
    ensures
        r@ == decoded_all(mulaw@),
{
    let mut pcm: Vec<i16> = Vec::with_capacity(mulaw.len());
    let mut i: usize = 0;
    while i < mulaw.len()
        invariant
            i <= mulaw@.len(),
            pcm@.len() == i,
            forall|j: int| 0 <= j < i ==> #[trigger] pcm@[j] == decoded(mulaw@[j]),
        decreases mulaw@.len() - i,
    {
        pcm.push(mulaw_decode_sample(mulaw[i]));
        i = i + 1;
    }
    assert(pcm@ =~= decoded_all(mulaw@));
    pcm
}

/// The leading digit of a biased magnitude and the digits after it.
proof fn lemma_biased_parts(b: int)
    requires
        132 <= b <= 32767,
    ensures
        ({
            let e = segment(b);
            let p = pow2((e + 3) as nat) as int;
            let m = (b / p) % 16;
            &&& 0 <= e <= 7
            &&& 8 <= p <= 1024
            &&& p == 2 * pow2((e + 2) as nat)
            &&& 0 <= m <= 15
            &&& (16 + m) * p <= b < (17 + m) * p
        }),
{
    lemma2_to64();
    let e: int = if b < 256 {
        0
    } else if b < 512 {
        1
    } else if b < 1024 {
        2
    } else if b < 2048 {
        3
    } else if b < 4096 {
        4
    } else if b < 8192 {
        5
    } else if b < 16384 {
        6
    } else {
        7
    };
    assert(b < pow2((e + 8) as nat) && (e > 0 ==> b >= pow2((e + 7) as nat)));
    lemma_segment(b, e);
    lemma_powers(e as u32);
    assert(pow2((e + 3) as nat) * 32 == pow2((e + 8) as nat)) by {
        lemma_pow2_adds((e + 3) as nat, 5);
    }
    assert(pow2((e + 3) as nat) * 16 == pow2((e + 7) as nat)) by {
        lemma_pow2_adds((e + 3) as nat, 4);
    }
    let p = pow2((e + 3) as nat) as int;
    let q = b / p;
    assert(16 <= q < 32 && q * p <= b < (q + 1) * p) by (nonlinear_arith)
        requires
            q == b / p,
            16 * p <= b < 32 * p,
            p >= 1,
    ;
    assert(q % 16 == q - 16);
}

/// Companding loses little: a sample that is not clipped comes back within half
/// of the width of its interval, and so within a thirty-second of its biased
/// magnitude.
pub proof fn lemma_sample_round_trip(sample: i16)
    ensures
        magnitude(sample - decoded(encoded(sample))) < 1000,
        magnitude(sample as int) <= CLIP ==> {
            &&& magnitude(sample - decoded(encoded(sample))) <= pow2(
                (segment(biased(sample as int)) + 2) as nat,
            )
            &&& 32 * magnitude(sample - decoded(encoded(sample))) <= biased(sample as int)
        },
{
    let b = biased(sample as int);
    let e = segment(b);
    lemma_biased_parts(b);
    let p = pow2((e + 3) as nat) as int;
    let m = (b / p) % 16;
    let byte = encoded(sample);
    let code = 255 - byte;
    assert(code == (if sample < 0 {
        128int
    } else {
        0
    }) + 16 * e + m);
    assert(code / 16 % 8 == e && code % 16 == m);
    let h = pow2((e + 2) as nat) as int;
    assert((2 * m + 33) * h == (16 + m) * p + h && (17 + m) * p == (16 + m) * p + 2 * h && 32 * h
        <= (16 + m) * p && (2 * m + 33) * h <= 63 * 512) by (nonlinear_arith)
        requires
            p == 2 * h,
            0 <= m <= 15,
            4 <= h <= 512,
    ;
}

/// Every code but negative zero is the code of the sample it decodes to.
pub proof fn lemma_code_round_trip(byte: u8)
    ensures
        byte != 0x7F ==> encoded(decoded(byte)) == byte,
        byte == 0x7F ==> encoded(decoded(byte)) == 0xFF,
        decoded(encoded(decoded(byte))) == decoded(byte),
{
    let code = 255 - byte;
    let e = code / 16 % 8;
    let m = code % 16;
    lemma2_to64();
    lemma_powers(e as u32);
    let h = pow2((e + 2) as nat) as int;
    let b = (2 * m + 33) * h;
    lemma_expanded(m as u32, e as u32);
    assert(biased(decoded(byte) as int) == b);
    let p = pow2((e + 3) as nat) as int;
    assert(pow2((e + 3) as nat) * 32 == pow2((e + 8) as nat)) by {
        lemma_pow2_adds((e + 3) as nat, 5);
    }
    assert(pow2((e + 3) as nat) * 16 == pow2((e + 7) as nat)) by {
        lemma_pow2_adds((e + 3) as nat, 4);
    }
    assert(16 * p <= b < 32 * p && b / p == 16 + m) by (nonlinear_arith)
        requires
            b == (2 * m + 33) * h,
            p == 2 * h,
            0 <= m <= 15,
            h >= 4,
    ;
    lemma_segment(b, e);
    if byte == 0x7F {
        assert(b == 132) by (nonlinear_arith)
            requires
                b == (2 * m + 33) * h,
                m == 0,
                h == 4,
        ;
    }
    if decoded(byte) == 0 {
        assert(h <= 4 && m == 0) by (nonlinear_arith)
            requires
                (2 * m + 33) * h == 132,
                h >= 4,
                m >= 0,
        ;
        if e > 0 {
            lemma_pow2_strictly_increases(2, (e + 2) as nat);
        }
    }
}

/// Companding keeps the order of samples.
pub proof fn lemma_sample_order(low: i16, high: i16)
    requires
        low <= high,
    ensures
        decoded(encoded(low)) <= decoded(encoded(high)),
{
    lemma_centre(low);
    lemma_centre(high);
    if low >= 0 {
        lemma_centre_order(biased(low as int), biased(high as int));
    } else if high < 0 {
        lemma_centre_order(biased(high as int), biased(low as int));
    } else {
        lemma_biased_parts(biased(low as int));
        lemma_biased_parts(biased(high as int));
        lemma_centre_order(132, biased(low as int));
        lemma_centre_order(132, biased(high as int));
    }
}

/// The middle of the interval of a biased magnitude.
spec fn centre(b: int) -> int {
    let e = segment(b);
    let p = pow2((e + 3) as nat) as int;
    (2 * ((b / p) % 16) + 33) * pow2((e + 2) as nat)
}

proof fn lemma_centre(sample: i16)
    ensures
        decoded(encoded(sample)) == (if sample < 0 {
            BIAS - centre(biased(sample as int))
        } else {
            centre(biased(sample as int)) - BIAS
        }),
{
    let b = biased(sample as int);
    let e = segment(b);
    lemma_biased_parts(b);
    let p = pow2((e + 3) as nat) as int;
    let m = (b / p) % 16;
    let code = 255 - encoded(sample);
    assert(code == (if sample < 0 {
        128int
    } else {
        0
    }) + 16 * e + m);
    assert(code / 16 % 8 == e && code % 16 == m);
    lemma_expanded(m as u32, e as u32);
}

proof fn lemma_centre_order(a: int, b: int)
    requires
        132 <= a <= b <= 32767,
    ensures
        132 <= centre(a) <= centre(b),
{
    lemma_biased_parts(a);
    lemma_biased_parts(b);
    let (d, e) = (segment(a), segment(b));
    let (p, q) = (pow2((d + 3) as nat) as int, pow2((e + 3) as nat) as int);
    let (m, n) = ((a / p) % 16, (b / q) % 16);
    let (g, h) = (pow2((d + 2) as nat) as int, pow2((e + 2) as nat) as int);
    lemma_expanded(m as u32, d as u32);
    if d < e {
        lemma_segments_apart(d, e);
        assert((2 * m + 33) * g <= (2 * n + 33) * h) by (nonlinear_arith)
            requires
                0 <= m <= 15,
                0 <= n,
                g >= 1,
                2 * g <= h,
        ;
    } else if e < d {
        lemma_segments_apart(e, d);
        assert(false) by (nonlinear_arith)
            requires
                (16 + m) * p <= a <= b < (17 + n) * q,
                p == 2 * g,
                q == 2 * h,
                2 * h <= g,
                0 <= m,
                n <= 15,
                h >= 1,
        ;
    } else {
        assert(m <= n) by (nonlinear_arith)
            requires
                (16 + m) * p <= a <= b < (17 + n) * p,
                p >= 1,
        ;
        assert((2 * m + 33) * g <= (2 * n + 33) * g) by (nonlinear_arith)
            requires
                m <= n,
                g >= 1,
        ;
    }
}

proof fn lemma_segments_apart(d: int, e: int)
    requires
        0 <= d < e <= 7,
    ensures
        2 * pow2((d + 2) as nat) <= pow2((e + 2) as nat),
{
    lemma_powers(d as u32);
    if d + 1 < e {
        lemma_pow2_strictly_increases((d + 3) as nat, (e + 2) as nat);
    }
}

/// Bytes without negative zero survive decoding and encoding.
pub proof fn lemma_bytes_round_trip(mulaw: Seq<u8>)
    requires
        forall|i: int| 0 <= i < mulaw.len() ==> mulaw[i] != 0x7F,
    ensures
        encoded_all(decoded_all(mulaw)) == mulaw,
{
    assert forall|i: int| 0 <= i < mulaw.len() implies encoded_all(decoded_all(mulaw))[i]
        == mulaw[i] by {
        lemma_code_round_trip(mulaw[i]);
    }
    assert(encoded_all(decoded_all(mulaw)) =~= mulaw);
}

/// Where a code stands: its sign bit is that of the sample, and its segment `e` and
/// digits `m` bracket the magnitude, clipped to 32635 and raised by 132. The segment
/// is the place of the leading digit, and the digits are the four after it.
pub proof fn lemma_code_brackets(sample: i16)
    ensures
        ({
            let c = 255 - encoded(sample);
            let e = c / 16 % 8;
            let m = c % 16;
            let size = if sample < 0 {
                -(sample as int)
            } else {
                sample as int
            };
            let b = if size > 32635 {
                32767
            } else {
                size + 132
            };
            &&& c >= 128 <==> sample < 0
            &&& pow2((e + 7) as nat) <= b < pow2((e + 8) as nat)
            &&& (16 + m) * pow2((e + 3) as nat) <= b < (17 + m) * pow2((e + 3) as nat)
        }),
{
    let b = biased(sample as int);
    let e = segment(b);
    lemma_biased_parts(b);
    let p = pow2((e + 3) as nat) as int;
    let m = (b / p) % 16;
    let c = 255 - encoded(sample);
    assert(c == (if sample < 0 {
        128int
    } else {
        0
    }) + 16 * e + m);
    assert(c / 16 % 8 == e && c % 16 == m);
    assert(p * 32 == pow2((e + 8) as nat)) by {
        lemma2_to64();
        lemma_pow2_adds((e + 3) as nat, 5);
    }
    assert(p * 16 == pow2((e + 7) as nat)) by {
        lemma2_to64();
        lemma_pow2_adds((e + 3) as nat, 4);
    }
    assert(16 * p <= b < 32 * p) by (nonlinear_arith)
        requires
            (16 + m) * p <= b < (17 + m) * p,
            0 <= m <= 15,
            p >= 1,
    ;
}

/// The codes are ordered as the samples are: among the samples of one sign, the
/// louder one never has the greater code.
pub proof fn lemma_code_order(low: i16, high: i16)
    requires
        low <= high,
    ensures
        low >= 0 ==> encoded(low) >= encoded(high) >= 0x80,
        high < 0 ==> encoded(low) <= encoded(high) < 0x80,
{
    lemma_code_brackets(low);
    lemma_code_brackets(high);
    if low >= 0 {
        lemma_code_order_of_magnitudes(255 - encoded(low), 255 - encoded(high), low as int, high as int);
    } else if high < 0 {
        lemma_code_order_of_magnitudes(
            255 - encoded(high) - 128,
            255 - encoded(low) - 128,
            -(high as int),
            -(low as int),
        );
    }
}

proof fn lemma_code_order_of_magnitudes(c: int, d: int, x: int, y: int)
    requires
        0 <= c < 128,
        0 <= d < 128,
        0 <= x <= y,
        ({
            let b = if x > 32635 {
                32767
            } else {
                x + 132
            };
            (16 + c % 16) * pow2((c / 16 + 3) as nat) <= b < (17 + c % 16) * pow2(
                (c / 16 + 3) as nat,
            )
        }),
        ({
            let b = if y > 32635 {
                32767
            } else {
                y + 132
            };
            (16 + d % 16) * pow2((d / 16 + 3) as nat) <= b < (17 + d % 16) * pow2(
                (d / 16 + 3) as nat,
            )
        }),
    ensures
        c <= d,
{
    let (e, f, m, n) = (c / 16, d / 16, c % 16, d % 16);
    let (p, q) = (pow2((e + 3) as nat) as int, pow2((f + 3) as nat) as int);
    vstd::arithmetic::power2::lemma_pow2_pos((f + 3) as nat);
    assert((16 + m) * p < (17 + n) * q);
    if f < e {
        lemma_segments_apart(f, e);
        lemma_powers(e as u32);
        lemma_powers(f as u32);
        assert(false) by (nonlinear_arith)
            requires
                (16 + m) * p < (17 + n) * q,
                2 * q <= p,
                0 <= m,
                n <= 15,
                q >= 1,
        ;
    } else if e == f {
        assert(m <= n) by (nonlinear_arith)
            requires
                (16 + m) * p < (17 + n) * p,
                p >= 1,
        ;
    }
}

/// How codes decode: the quietest one is silence, the sign bit turns the sign, and
/// from one code to the next louder one the sample grows by the width of the segment,
/// or by three quarters of it on the way into the segment. The widths double.
pub proof fn lemma_decoded_steps(byte: u8)
    ensures
        decoded(0xFF) == 0,
        byte < 0x80 ==> decoded(byte) == -decoded((byte + 0x80) as u8),
        0x80 <= byte < 0xFF ==> decoded(byte) - decoded((byte + 1) as u8) == ({
            let c = 255 - byte;
            if c % 16 == 0 {
                3 * pow2((c / 16 + 1) as nat)
            } else {
                pow2((c / 16 + 3) as nat)
            }
        }),
        0x80 <= byte < 0xFF ==> decoded(byte) > decoded((byte + 1) as u8),
{
    lemma2_to64();
    let c = 255 - byte;
    let (e, m) = (c / 16 % 8, c % 16);
    lemma_expanded(m as u32, e as u32);
    lemma_powers(e as u32);
    let h = pow2((e + 2) as nat) as int;
    assert(decoded(0xFF) == 0) by {
        let z = pow2(2) as int;
        assert(33 * z == 132) by (nonlinear_arith)
            requires
                z == 4,
        ;
    }
    if byte < 0x80 {
        assert((255 - (byte + 0x80)) / 16 % 8 == e && (255 - (byte + 0x80)) % 16 == m);
    }
    if 0x80 <= byte < 0xFF {
        let d = c - 1;
        let (f, n) = (d / 16 % 8, d % 16);
        lemma_expanded(n as u32, f as u32);
        if m == 0 {
            assert(f == e - 1 && n == 15);
            lemma_pow2_unfold((e + 2) as nat);
            let g = pow2((e + 1) as nat) as int;
            assert((2 * m + 33) * h - (2 * n + 33) * g == 3 * g) by (nonlinear_arith)
                requires
                    m == 0,
                    n == 15,
                    h == 2 * g,
            ;
            lemma_powers(f as u32);
        } else {
            assert(f == e && n == m - 1);
            assert((2 * m + 33) * h - (2 * n + 33) * h == 2 * h) by (nonlinear_arith)
                requires
                    n == m - 1,
            ;
        }
    }
}

/// Every sample of a buffer has its own code, in order.
pub proof fn lemma_encoded_runs(x: Seq<i16>, y: Seq<i16>, sample: i16)
    ensures
        encoded_all(x + y) == encoded_all(x) + encoded_all(y),
        encoded_all(seq![sample]) == seq![encoded(sample)],
        encoded_all(x).len() == x.len(),
{
    assert(encoded_all(x + y) =~= encoded_all(x) + encoded_all(y));
    assert(encoded_all(seq![sample]) =~= seq![encoded(sample)]);
}

/// Every code of a buffer has its own sample, in order.
pub proof fn lemma_decoded_runs(x: Seq<u8>, y: Seq<u8>, byte: u8)
    ensures
        decoded_all(x + y) == decoded_all(x) + decoded_all(y),
        decoded_all(seq![byte]) == seq![decoded(byte)],
        decoded_all(x).len() == x.len(),
{
    assert(decoded_all(x + y) =~= decoded_all(x) + decoded_all(y));
    assert(decoded_all(seq![byte]) =~= seq![decoded(byte)]);
}

} // verus!
