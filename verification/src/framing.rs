//! How a signal is cut: channel samples into one mono sample, a signal
//! into downsampling windows, a signal into overlapping analysis frames.

use vstd::prelude::*;

verus! {

/// The number of analysis frames of `fft_size` samples that fit into a
/// signal of `samples` samples when each frame starts `hop_size` samples
/// after the one before. No frame reaches past the end of the signal.
pub open spec fn frame_count_of(samples: int, fft_size: int, hop_size: int) -> int {
    if samples < fft_size {
        0
    } else {
        (samples - fft_size) / hop_size + 1
    }
}

/// The time, in whole milliseconds, of the sample at `offset` of a signal
/// sampled at `sample_rate`.
pub open spec fn time_ms_of(offset: int, sample_rate: int) -> int {
    offset * 1000 / sample_rate
}

/// The number of samples left after downsampling by `factor`: one for each
/// window of `factor` samples, a shorter last window included.
pub open spec fn downsampled_len(samples: int, factor: int) -> int {
    (samples + factor - 1) / factor
}

/// The sum of the first `n` samples.
pub open spec fn sum_of(samples: Seq<i16>, n: int) -> int
    decreases n,
{
    if n <= 0 {
        0
    } else {
        sum_of(samples, n - 1) + samples[n - 1]
    }
}

/// The quotient of `a` by a positive `b`, rounded toward zero.
pub open spec fn quotient_toward_zero(a: int, b: int) -> int {
    if a >= 0 {
        a / b
    } else {
        -((-a) / b)
    }
}

/// The mono sample of one frame of channel samples: their mean, rounded
/// toward zero.
pub open spec fn mono_of(channels: Seq<i16>) -> int {
    quotient_toward_zero(sum_of(channels, channels.len() as int), channels.len() as int)
}

/// Counts the analysis frames of a signal.
pub fn frame_count(samples: usize, fft_size: usize, hop_size: usize) -> (count: usize)
    requires
        fft_size > 0,
        hop_size > 0,
    ensures
        count == frame_count_of(samples as int, fft_size as int, hop_size as int),
        samples < fft_size ==> count == 0,
{
    if samples < fft_size {
        0
    } else {
        (samples - fft_size) / hop_size + 1
    }
}

/// Frame `index` lies within the signal, and the frame after the last
/// would reach past its end.
pub proof fn lemma_frames_fit(samples: int, fft_size: int, hop_size: int, index: int)
    requires
        0 <= samples,
        0 < fft_size,
        0 < hop_size,
        0 <= index,
    ensures
        index < frame_count_of(samples, fft_size, hop_size) <==> index * hop_size + fft_size
            <= samples,
{
    if samples >= fft_size {
        let room = samples - fft_size;
        let full = room / hop_size;
        assert(full * hop_size <= room < (full + 1) * hop_size) by (nonlinear_arith)
            requires
                0 <= room,
                0 < hop_size,
                full == room / hop_size,
        ;
        if index <= full {
            assert(index * hop_size <= full * hop_size) by (nonlinear_arith)
                requires
                    0 <= index <= full,
                    0 < hop_size,
            ;
        } else {
            assert(index * hop_size >= (full + 1) * hop_size) by (nonlinear_arith)
                requires
                    index >= full + 1,
                    0 < hop_size,
            ;
        }
    } else {
        assert(index * hop_size >= 0) by (nonlinear_arith)
            requires
                0 <= index,
                0 < hop_size,
        ;
    }
}

/// The offset at which frame `index` starts.
pub fn frame_start(index: usize, samples: usize, fft_size: usize, hop_size: usize) -> (start:
    usize)
    requires
        fft_size > 0,
        hop_size > 0,
        index < frame_count_of(samples as int, fft_size as int, hop_size as int),
    ensures
        start == index * hop_size,
        start + fft_size <= samples,
{
    proof {
        lemma_frames_fit(samples as int, fft_size as int, hop_size as int, index as int);
    }
    index * hop_size
}

/// The time of the sample at `offset`, in whole milliseconds. Gives `None`
/// for a sample rate of zero and for a time that does not fit the machine
/// word.
pub fn time_ms(offset: usize, sample_rate: usize) -> (time: Option<usize>)
    ensures
        match time {
            Some(t) => sample_rate > 0 && t == time_ms_of(offset as int, sample_rate as int),
            None => sample_rate == 0 || time_ms_of(offset as int, sample_rate as int) > usize::MAX,
        },
{
    if sample_rate == 0 {
        return None;
    }
    let scaled: u128 = (offset as u128) * 1000;
    let time: u128 = scaled / (sample_rate as u128);
    if time > usize::MAX as u128 {
        None
    } else {
        Some(time as usize)
    }
}

/// The time at which frame `frame` starts, in whole milliseconds, where
/// frames start `hop_size` samples apart. Gives `None` for a sample rate of
/// zero and for a time that does not fit the machine word.
pub fn frame_time_ms(frame: usize, hop_size: usize, sample_rate: usize) -> (time: Option<usize>)
    ensures
        match time {
            Some(t) => sample_rate > 0 && t == time_ms_of(frame * hop_size, sample_rate as int),
            None => sample_rate == 0 || time_ms_of(frame * hop_size, sample_rate as int)
                > usize::MAX,
        },
{
    if sample_rate == 0 {
        return None;
    }
    assert((frame as u128) * (hop_size as u128) <= 0xFFFF_FFFF_FFFF_FFFF * 0xFFFF_FFFF_FFFF_FFFF)
        by (nonlinear_arith)
        requires
            frame <= 0xFFFF_FFFF_FFFF_FFFF,
            hop_size <= 0xFFFF_FFFF_FFFF_FFFF,
    ;
    let offset: u128 = (frame as u128) * (hop_size as u128);
    if offset > u128::MAX / 1000 {
        proof {
            let (o, r) = (offset as int, sample_rate as int);
            assert(o * 1000 / r > 0xFFFF_FFFF_FFFF_FFFF) by (nonlinear_arith)
                requires
                    o > 0xFFFF_FFFF_FFFF_FFFF_FFFF_FFFF_FFFF_FFFFint / 1000,
                    0 < r <= 0xFFFF_FFFF_FFFF_FFFF,
            ;
        }
        return None;
    }
    let time: u128 = offset * 1000 / (sample_rate as u128);
    if time > usize::MAX as u128 {
        None
    } else {
        Some(time as usize)
    }
}

/// The number of samples left after downsampling by `factor`.
pub fn downsample_len(samples: usize, factor: usize) -> (len: usize)
    requires
        factor > 0,
    ensures
        len == downsampled_len(samples as int, factor as int),
        len <= samples,
{
    let whole: usize = samples / factor;
    proof {
        let (n, d) = (samples as int, factor as int);
        assert(n % d != 0 ==> n / d < n) by (nonlinear_arith)
            requires
                0 <= n,
                0 < d,
        ;
    }
    let len: usize = if samples % factor == 0 {
        whole
    } else {
        whole + 1
    };
    proof {
        let (n, d) = (samples as int, factor as int);
        assert(len == (n + d - 1) / d && len <= n) by (nonlinear_arith)
            requires
                0 <= n,
                0 < d,
                len == if n % d == 0 {
                    n / d
                } else {
                    n / d + 1
                },
        ;
    }
    len
}

/// The window of samples `(start, end)`, end exclusive, whose mean becomes
/// sample `index` of the downsampled signal. The last window ends with the
/// signal and may be shorter than `factor`.
pub fn downsample_window(index: usize, samples: usize, factor: usize) -> (window: (usize, usize))
    requires
        factor > 0,
        index < downsampled_len(samples as int, factor as int),
    ensures
        window.0 == index * factor,
        window.1 == if (index + 1) * factor <= samples {
            (index + 1) * factor
        } else {
            samples as int
        },
        window.0 < window.1 <= samples,
        window.1 - window.0 <= factor,
{
    proof {
        let (i, n, d) = (index as int, samples as int, factor as int);
        assert(i * d < n && (i + 1) * d == i * d + d) by (nonlinear_arith)
            requires
                0 <= i,
                0 <= n,
                0 < d,
                i < (n + d - 1) / d,
        ;
    }
    let start: usize = index * factor;
    let end: usize = if samples - start >= factor {
        start + factor
    } else {
        samples
    };
    (start, end)
}

/// The sample rate after downsampling by `factor`.
pub fn downsample_rate(sample_rate: u32, factor: usize) -> (rate: u32)
    requires
        factor > 0,
    ensures
        rate == sample_rate as int / factor as int,
{
    if factor > sample_rate as usize {
        proof {
            let (r, d) = (sample_rate as int, factor as int);
            assert(r / d == 0) by (nonlinear_arith)
                requires
                    0 <= r < d,
            ;
        }
        0
    } else {
        sample_rate / (factor as u32)
    }
}

/// Mixes the channel samples of one frame down to one mono sample.
pub fn downmix(channels: &Vec<i16>) -> (mono: i16)
    requires
        channels.len() > 0,
    ensures
        mono == mono_of(channels@),
{
    let mut sum: i128 = 0;
    let mut i: usize = 0;
    while i < channels.len()
        invariant
            i <= channels.len(),
            sum == sum_of(channels@, i as int),
            -32768 * i <= sum <= 32767 * i,
        decreases channels.len() - i,
    {
        sum = sum + channels[i] as i128;
        i = i + 1;
    }
    let count: i128 = channels.len() as i128;
    let mean: i128 = sum / count;
    proof {
        let (s, n) = (sum as int, count as int);
        assert(-32768 <= quotient_toward_zero(s, n) <= 32767) by (nonlinear_arith)
            requires
                n > 0,
                -32768 * n <= s <= 32767 * n,
        ;
    }
    mean as i16
}

} // verus!
