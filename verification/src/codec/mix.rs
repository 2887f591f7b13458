//! Mixing interleaved channels down to one.
use vstd::prelude::*;
use vstd::slice::slice_to_vec;

verus! {

/// `sum` divided by `n`, without the fractional part.
pub open spec fn average(sum: int, n: int) -> int {
    if sum >= 0 {
        sum / n
    } else {
        -((-sum) / n)
    }
}

/// The mean of each left and right sample. A sample without a partner is dropped.
pub open spec fn downmixed(interleaved: Seq<i16>) -> Seq<i16> {
    Seq::new(
        interleaved.len() / 2,
        |i: int| average(interleaved[2 * i] + interleaved[2 * i + 1], 2) as i16,
    )
}

/// The sum of the `n` samples from `start` on.
pub open spec fn frame_sum(samples: Seq<i16>, start: int, n: int) -> int
    decreases n,
{
    if n <= 0 {
        0
    } else {
        frame_sum(samples, start, n - 1) + samples[start + n - 1]
    }
}

/// Interleaved samples of any number of channels as one channel: the mean of each
/// frame. An incomplete frame at the end is dropped.
pub open spec fn mixed(samples: Seq<i16>, channels: int) -> Seq<i16> {
    if channels <= 1 {
        samples
    } else {
        Seq::new(
            (samples.len() as int / channels) as nat,
            |i: int| average(frame_sum(samples, channels * i, channels), channels) as i16,
        )
    }
}

/// Downmix interleaved stereo samples to mono (average L+R).
pub fn downmix_stereo(interleaved: &[i16]) -> (r: Vec<i16>)
    ensures
        r@ == downmixed(interleaved@),
{
    let frames: usize = interleaved.len() / 2;
    let mut mono: Vec<i16> = Vec::with_capacity(frames);
    let mut i: usize = 0;
    while i < frames
        invariant
            frames == interleaved@.len() / 2,
            interleaved@.len() <= usize::MAX,
            i <= frames,
            mono@.len() == i,
            forall|j: int| 0 <= j < i ==> #[trigger] mono@[j] == downmixed(interleaved@)[j],
        decreases frames - i,
    {
        let sum: i32 = interleaved[2 * i] as i32 + interleaved[2 * i + 1] as i32;
        let half: i32 = if sum < 0 {
            -((-sum) / 2)
        } else {
            sum / 2
        };
        mono.push(half as i16);
        i = i + 1;
    }
    assert(mono@ =~= downmixed(interleaved@));
    mono
}

/// Mixes interleaved samples of `channels` channels down to one.
pub fn downmix(samples: &[i16], channels: u16) -> (r: Vec<i16>)
    ensures
        r@ == mixed(samples@, channels as int),
{
    if channels < 2 {
        return slice_to_vec(samples);
    }
    if channels == 2 {
        proof {
            lemma_stereo_is_mixed(samples@);
        }
        return downmix_stereo(samples);
    }
    let count: usize = channels as usize;
    let frames: usize = samples.len() / count;
    let mut mono: Vec<i16> = Vec::with_capacity(frames);
    let mut i: usize = 0;
    while i < frames
        invariant
            count == channels,
            count > 2,
            frames == samples@.len() as int / count as int,
            samples@.len() <= usize::MAX,
            i <= frames,
            mono@.len() == i,
            forall|j: int| 0 <= j < i ==> #[trigger] mono@[j] == mixed(samples@, count as int)[j],
        decreases frames - i,
    {
        proof {
            lemma_frame_inside(samples@.len() as int, count as int, i as int);
        }
        let start: usize = count * i;
        let mut sum: i64 = 0;
        let mut k: usize = 0;
        while k < count
            invariant
                count <= 65535,
                start + count <= samples@.len(),
                samples@.len() <= usize::MAX,
                k <= count,
                sum == frame_sum(samples@, start as int, k as int),
                -32768 * k <= sum <= 32767 * k,
            decreases count - k,
        {
            sum = sum + samples[start + k] as i64;
            k = k + 1;
        }
        let n: i64 = count as i64;
        let mean: i64 = if sum < 0 {
            -((-sum) / n)
        } else {
            sum / n
        };
        proof {
            lemma_average_range(sum as int, n as int, -32768, 32767);
        }
        mono.push(mean as i16);
        i = i + 1;
    }
    assert(mono@ =~= mixed(samples@, count as int));
    mono
}

proof fn lemma_frame_inside(len: int, n: int, i: int)
    requires
        n >= 1,
        len >= 0,
        0 <= i < len / n,
    ensures
        0 <= n * i,
        n * i + n <= len,
{
    assert(0 <= n * i && n * i + n <= len) by (nonlinear_arith)
        requires
            n >= 1,
            len >= 0,
            0 <= i < len / n,
    ;
}

/// The mean of values within bounds stays within them.
proof fn lemma_average_range(sum: int, n: int, lo: int, hi: int)
    requires
        n >= 1,
        n * lo <= sum <= n * hi,
        lo <= hi,
    ensures
        lo <= average(sum, n) <= hi,
{
    if sum >= 0 {
        let q = sum / n;
        assert(lo <= q <= hi) by (nonlinear_arith)
            requires
                q == sum / n,
                n >= 1,
                n * lo <= sum <= n * hi,
                sum >= 0,
        ;
    } else {
        let q = (-sum) / n;
        assert(lo <= -q <= hi) by (nonlinear_arith)
            requires
                q == (-sum) / n,
                n >= 1,
                n * lo <= sum <= n * hi,
                sum < 0,
        ;
    }
}

/// Two channels mix as stereo does.
pub proof fn lemma_stereo_is_mixed(samples: Seq<i16>)
    ensures
        mixed(samples, 2) == downmixed(samples),
{
    reveal_with_fuel(frame_sum, 3);
    assert(mixed(samples, 2) =~= downmixed(samples));
}

/// Mixing never leaves the bounds of the samples.
pub proof fn lemma_mixed_within(samples: Seq<i16>, channels: int, lo: i16, hi: i16)
    requires
        forall|i: int| 0 <= i < samples.len() ==> lo <= #[trigger] samples[i] <= hi,
    ensures
        forall|i: int|
            0 <= i < mixed(samples, channels).len() ==> lo <= #[trigger] mixed(samples, channels)[i]
                <= hi,
{
    if channels > 1 {
        assert forall|i: int| 0 <= i < mixed(samples, channels).len() implies lo
            <= #[trigger] mixed(samples, channels)[i] <= hi by {
            lemma_frame_inside(samples.len() as int, channels, i);
            lemma_frame_sum_range(samples, channels * i, channels, lo, hi);
            lemma_average_range(
                frame_sum(samples, channels * i, channels),
                channels,
                lo as int,
                hi as int,
            );
        }
    }
}

proof fn lemma_frame_sum_range(samples: Seq<i16>, start: int, n: int, lo: i16, hi: i16)
    requires
        0 <= start,
        0 <= n,
        start + n <= samples.len(),
        forall|i: int| 0 <= i < samples.len() ==> lo <= #[trigger] samples[i] <= hi,
        n >= 1,
    ensures
        n * lo <= frame_sum(samples, start, n) <= n * hi,
        lo <= hi,
    decreases n,
{
    assert(lo <= samples[start + n - 1] <= hi);
    if n > 1 {
        lemma_frame_sum_range(samples, start, n - 1, lo, hi);
        assert((n - 1) * lo + lo == n * lo && (n - 1) * hi + hi == n * hi) by (nonlinear_arith);
    } else {
        reveal_with_fuel(frame_sum, 2);
    }
}

/// A mean is the quotient without its fractional part: it is no louder than the
/// quotient, and by less than one.
proof fn lemma_average_brackets(sum: int, n: int)
    requires
        n >= 1,
    ensures
        sum >= 0 ==> 0 <= n * average(sum, n) <= sum < n * average(sum, n) + n,
        sum <= 0 ==> n * average(sum, n) - n < sum <= n * average(sum, n) <= 0,
{
    if sum >= 0 {
        let q = sum / n;
        assert(0 <= n * q <= sum < n * q + n && (sum == 0 ==> q == 0)) by (nonlinear_arith)
            requires
                q == sum / n,
                n >= 1,
                sum >= 0,
        ;
        assert(sum == 0 ==> n * q == 0) by (nonlinear_arith)
            requires
                sum == 0 ==> q == 0,
        ;
    } else {
        let q = (-sum) / n;
        assert(n * (-q) - n < sum <= n * (-q) <= 0) by (nonlinear_arith)
            requires
                q == (-sum) / n,
                n >= 1,
                sum < 0,
        ;
    }
}

/// Each mono sample is half the sum of the left and the right sample of its own
/// frame, without the fractional part.
pub proof fn lemma_downmix_frame(interleaved: Seq<i16>, i: int)
    requires
        0 <= i < interleaved.len() / 2,
    ensures
        downmixed(interleaved).len() == interleaved.len() / 2,
        ({
            let sum = interleaved[2 * i] + interleaved[2 * i + 1];
            let out = downmixed(interleaved)[i];
            &&& sum >= 0 ==> 0 <= 2 * out <= sum <= 2 * out + 1
            &&& sum <= 0 ==> 2 * out - 1 <= sum <= 2 * out <= 0
        }),
{
    lemma_average_brackets(interleaved[2 * i] + interleaved[2 * i + 1], 2);
}

/// What comes later leaves the mix of whole frames before it alone, and is mixed as if
/// they were not there.
pub proof fn lemma_downmix_runs(x: Seq<i16>, y: Seq<i16>)
    requires
        x.len() % 2 == 0,
    ensures
        downmixed(x + y) == downmixed(x) + downmixed(y),
{
    let all = x + y;
    assert(all.len() / 2 == x.len() / 2 + y.len() / 2);
    assert forall|i: int| 0 <= i < all.len() / 2 implies downmixed(all)[i] == (downmixed(x)
        + downmixed(y))[i] by {
        if i >= x.len() / 2 {
            let j = i - x.len() / 2;
            assert(all[2 * i] == y[2 * j] && all[2 * i + 1] == y[2 * j + 1]);
        }
    }
    assert(downmixed(all) =~= downmixed(x) + downmixed(y));
}

proof fn lemma_frame_sum_folds(samples: Seq<i16>, start: int, n: int)
    requires
        0 <= start,
        0 <= n,
        start + n <= samples.len(),
    ensures
        frame_sum(samples, start, n) == samples.subrange(start, start + n).fold_left(
            0int,
            |total: int, s: i16| total + s,
        ),
    decreases n,
{
    let f = samples.subrange(start, start + n);
    if n > 0 {
        lemma_frame_sum_folds(samples, start, n - 1);
        assert(f.drop_last() =~= samples.subrange(start, start + n - 1));
    }
}

/// Each sample of a mix of several channels is the mean of its own frame, without the
/// fractional part, and one channel stays as it is.
pub proof fn lemma_mixed_frame(samples: Seq<i16>, channels: int, i: int)
    ensures
        channels <= 1 ==> mixed(samples, channels) == samples,
        channels > 1 ==> mixed(samples, channels).len() == samples.len() as int / channels,
        channels > 1 && 0 <= i < samples.len() as int / channels ==> ({
            let sum = samples.subrange(channels * i, channels * i + channels).fold_left(
                0int,
                |total: int, s: i16| total + s,
            );
            let out = mixed(samples, channels)[i];
            &&& sum >= 0 ==> 0 <= channels * out <= sum < channels * out + channels
            &&& sum <= 0 ==> channels * out - channels < sum <= channels * out <= 0
        }),
{
    if channels > 1 {
        assert(samples.len() as int / channels >= 0) by (nonlinear_arith)
            requires
                channels > 1,
        ;
    }
    if channels > 1 && 0 <= i < samples.len() as int / channels {
        lemma_frame_inside(samples.len() as int, channels, i);
        lemma_frame_sum_folds(samples, channels * i, channels);
        let sum = frame_sum(samples, channels * i, channels);
        lemma_average_brackets(sum, channels);
        assert forall|j: int| 0 <= j < samples.len() implies -32768 <= #[trigger] samples[j]
            <= 32767 by {}
        lemma_frame_sum_range(samples, channels * i, channels, i16::MIN, i16::MAX);
        lemma_average_range(sum, channels, -32768, 32767);
    }
}

/// Channels that all carry the same mix to what they carry.
pub proof fn lemma_mixed_copies(mono: Seq<i16>, copies: Seq<i16>, channels: int)
    requires
        channels >= 1,
        copies.len() == mono.len() * channels,
        forall|j: int| 0 <= j < copies.len() ==> #[trigger] copies[j] == mono[j / channels],
    ensures
        mixed(copies, channels) == mono,
{
    let (len, n) = (mono.len() as int, channels);
    assert((len * n) / n == len) by (nonlinear_arith)
        requires
            n >= 1,
    ;
    if n == 1 {
        assert forall|j: int| 0 <= j < copies.len() implies copies[j] == mono[j] by {
            assert(j / 1 == j);
        }
        assert(len * n == len) by (nonlinear_arith)
            requires
                n == 1,
        ;
        assert(copies =~= mono);
    } else {
        assert forall|i: int| 0 <= i < len implies mixed(copies, n)[i] == mono[i] by {
            lemma_frame_inside(copies.len() as int, n, i);
            assert forall|k: int| 0 <= k < n implies #[trigger] copies[n * i + k] == mono[i] by {
                assert((n * i + k) / n == i) by (nonlinear_arith)
                    requires
                        0 <= k < n,
                ;
            }
            lemma_equal_sum(copies, n * i, n, mono[i]);
            let (sum, s) = (n * mono[i], mono[i] as int);
            assert(average(sum, n) == s) by {
                assert(sum >= 0 ==> sum / n == s) by (nonlinear_arith)
                    requires
                        sum == n * s,
                        n >= 1,
                ;
                assert((-sum) / n == -s) by (nonlinear_arith)
                    requires
                        sum == n * s,
                        n >= 1,
                ;
            }
        }
        assert(mixed(copies, n) =~= mono);
    }
}

proof fn lemma_equal_sum(samples: Seq<i16>, start: int, n: int, s: i16)
    requires
        n >= 0,
        forall|k: int| 0 <= k < n ==> #[trigger] samples[start + k] == s,
    ensures
        frame_sum(samples, start, n) == n * s,
    decreases n,
{
    if n > 0 {
        lemma_equal_sum(samples, start, n - 1, s);
        assert(samples[start + (n - 1)] == s);
        assert((n - 1) * s + s == n * s) by (nonlinear_arith);
    } else {
        assert(n * s == 0) by (nonlinear_arith)
            requires
                n == 0,
        ;
    }
}

} // verus!
