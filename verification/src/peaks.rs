//! Choice of band peaks in a spectrogram frame.
//!
//! A magnitude is given as a key: an unsigned number that grows with the
//! magnitude. The bit pattern of a non-negative single-precision value is
//! such a key. The picker only compares keys.

use vstd::prelude::*;
use crate::config::{band_edges, band_high, band_low, in_band, lemma_bands_partition, BAND_COUNT};
use crate::framing::{frame_time_ms, time_ms_of};

verus! {

/// Key of the magnitude one: a band peak must exceed it.
pub const UNIT_MAGNITUDE: u32 = 0x3F80_0000;

/// A spectral peak: a time, a frequency and the key of a magnitude.
#[derive(Clone, Copy, Debug, PartialEq, Eq, Structural)]
pub struct Peak {
    /// Time of the frame, in milliseconds.
    pub time_ms: usize,
    /// Centre frequency of the bin, in Hz.
    pub freq_hz: usize,
    /// Key of the magnitude of the bin.
    pub magnitude: u32,
}

/// The centre frequency, in whole Hz, of bin `bin` of a transform of
/// `fft_size` points at `sample_rate`.
pub open spec fn bin_frequency(bin: int, sample_rate: int, fft_size: int) -> int {
    bin * sample_rate / fft_size
}

/// Whether `bin` is a bin of the frame whose frequency lies in `band`.
pub open spec fn bin_in_band(
    frame: Seq<u32>,
    band: int,
    sample_rate: int,
    fft_size: int,
    bin: int,
) -> bool {
    0 <= bin < frame.len() && in_band(band, bin_frequency(bin, sample_rate, fft_size))
}

/// Whether `bin` is the peak of `band`: the first bin of the band that
/// holds the greatest magnitude of the band, that magnitude being above
/// one.
pub open spec fn is_band_peak(
    frame: Seq<u32>,
    band: int,
    sample_rate: int,
    fft_size: int,
    bin: int,
) -> bool {
    &&& bin_in_band(frame, band, sample_rate, fft_size, bin)
    &&& frame[bin] > UNIT_MAGNITUDE
    &&& forall|k: int| #[trigger]
        bin_in_band(frame, band, sample_rate, fft_size, k) ==> frame[k] <= frame[bin]
    &&& forall|k: int|
        k < bin && #[trigger] bin_in_band(frame, band, sample_rate, fft_size, k) ==> frame[k]
            < frame[bin]
}

/// The peak bin of `band`, where the band has one.
pub open spec fn band_peak_bin(frame: Seq<u32>, band: int, sample_rate: int, fft_size: int)
    -> Option<int> {
    if exists|bin: int| is_band_peak(frame, band, sample_rate, fft_size, bin) {
        Some(choose|bin: int| is_band_peak(frame, band, sample_rate, fft_size, bin))
    } else {
        None
    }
}

/// The peak read at `bin` of a frame that starts at `time_ms`.
pub open spec fn peak_at(
    frame: Seq<u32>,
    time_ms: usize,
    sample_rate: int,
    fft_size: int,
    bin: int,
) -> Peak {
    Peak {
        time_ms,
        freq_hz: bin_frequency(bin, sample_rate, fft_size) as usize,
        magnitude: frame[bin],
    }
}

/// The peaks of the first `bands` bands of a frame, lowest band first.
pub open spec fn band_peaks_among(
    frame: Seq<u32>,
    time_ms: usize,
    sample_rate: int,
    fft_size: int,
    bands: int,
) -> Seq<Peak>
    decreases bands,
{
    if bands <= 0 {
        Seq::empty()
    } else {
        let lower = band_peaks_among(frame, time_ms, sample_rate, fft_size, bands - 1);
        match band_peak_bin(frame, bands - 1, sample_rate, fft_size) {
            Some(bin) => lower.push(peak_at(frame, time_ms, sample_rate, fft_size, bin)),
            None => lower,
        }
    }
}

/// The band peaks of a frame: for every band that has one, its peak,
/// lowest band first.
pub open spec fn band_peaks(frame: Seq<u32>, time_ms: usize, sample_rate: int, fft_size: int)
    -> Seq<Peak> {
    band_peaks_among(frame, time_ms, sample_rate, fft_size, BAND_COUNT as int)
}

/// The peaks among the first `n` whose magnitude exceeds `threshold`.
pub open spec fn above_among(peaks: Seq<Peak>, threshold: u32, n: int) -> Seq<Peak>
    decreases n,
{
    if n <= 0 {
        Seq::empty()
    } else {
        let earlier = above_among(peaks, threshold, n - 1);
        if peaks[n - 1].magnitude > threshold {
            earlier.push(peaks[n - 1])
        } else {
            earlier
        }
    }
}

/// The peaks whose magnitude exceeds `threshold`, in their order.
pub open spec fn above(peaks: Seq<Peak>, threshold: u32) -> Seq<Peak> {
    above_among(peaks, threshold, peaks.len() as int)
}

/// A band has at most one peak.
pub proof fn lemma_band_peak_unique(
    frame: Seq<u32>,
    band: int,
    sample_rate: int,
    fft_size: int,
    first: int,
    second: int,
)
    requires
        is_band_peak(frame, band, sample_rate, fft_size, first),
        is_band_peak(frame, band, sample_rate, fft_size, second),
    ensures
        first == second,
{
    assert(bin_in_band(frame, band, sample_rate, fft_size, first));
    assert(bin_in_band(frame, band, sample_rate, fft_size, second));
}

/// The centre frequency of a bin.
pub fn frequency_of_bin(bin: usize, sample_rate: usize, fft_size: usize) -> (freq: u128)
    requires
        fft_size > 0,
    ensures
        freq == bin_frequency(bin as int, sample_rate as int, fft_size as int),
{
    assert((bin as u128) * (sample_rate as u128) <= 0xFFFF_FFFF_FFFF_FFFF
        * 0xFFFF_FFFF_FFFF_FFFF) by (nonlinear_arith)
        requires
            bin <= 0xFFFF_FFFF_FFFF_FFFF,
            sample_rate <= 0xFFFF_FFFF_FFFF_FFFF,
    ;
    (bin as u128) * (sample_rate as u128) / (fft_size as u128)
}

/// Finds the peak bin of `band` in a frame.
pub fn band_peak(frame: &Vec<u32>, band: usize, sample_rate: usize, fft_size: usize) -> (bin:
    Option<usize>)
    requires
        band < BAND_COUNT,
        fft_size > 0,
    ensures
        match bin {
            Some(b) => band_peak_bin(frame@, band as int, sample_rate as int, fft_size as int)
                == Some(b as int),
            None => band_peak_bin(frame@, band as int, sample_rate as int, fft_size as int)
                is None,
        },
{
    let edges = band_edges(band);
    let mut best: Option<usize> = None;
    let mut j: usize = 0;
    while j < frame.len()
        invariant
            j <= frame.len(),
            band < BAND_COUNT,
            fft_size > 0,
            edges.0 == band_low(band as int),
            edges.1 == band_high(band as int),
            match best {
                Some(b) => {
                    &&& b < j
                    &&& bin_in_band(
                        frame@,
                        band as int,
                        sample_rate as int,
                        fft_size as int,
                        b as int,
                    )
                    &&& frame@[b as int] > UNIT_MAGNITUDE
                    &&& forall|k: int|
                        k < j && #[trigger] bin_in_band(
                            frame@,
                            band as int,
                            sample_rate as int,
                            fft_size as int,
                            k,
                        ) ==> frame@[k] <= frame@[b as int]
                    &&& forall|k: int|
                        k < b && #[trigger] bin_in_band(
                            frame@,
                            band as int,
                            sample_rate as int,
                            fft_size as int,
                            k,
                        ) ==> frame@[k] < frame@[b as int]
                },
                None => forall|k: int|
                    k < j && #[trigger] bin_in_band(
                        frame@,
                        band as int,
                        sample_rate as int,
                        fft_size as int,
                        k,
                    ) ==> frame@[k] <= UNIT_MAGNITUDE,
            },
        decreases frame.len() - j,
    {
        let freq: u128 = frequency_of_bin(j, sample_rate, fft_size);
        if edges.0 as u128 <= freq && freq < edges.1 as u128 && frame[j] > UNIT_MAGNITUDE {
            match best {
                None => {
                    best = Some(j);
                },
                Some(b) => {
                    if frame[j] > frame[b] {
                        best = Some(j);
                    }
                },
            }
        }
        j = j + 1;
    }
    proof {
        let f = frame@;
        let (bd, sr, n) = (band as int, sample_rate as int, fft_size as int);
        match best {
            Some(b) => {
                assert(is_band_peak(f, bd, sr, n, b as int));
                let chosen = choose|bin: int| is_band_peak(f, bd, sr, n, bin);
                lemma_band_peak_unique(f, bd, sr, n, b as int, chosen);
            },
            None => {
                assert forall|bin: int| !is_band_peak(f, bd, sr, n, bin) by {
                    if is_band_peak(f, bd, sr, n, bin) {
                        assert(bin_in_band(f, bd, sr, n, bin));
                    }
                }
            },
        }
    }
    best
}

/// Picks the band peaks of one frame: for every band, the first bin that
/// holds the greatest magnitude of the band, where that magnitude is above
/// one.
pub fn frame_band_peaks(frame: &Vec<u32>, time_ms: usize, sample_rate: usize, fft_size: usize)
    -> (peaks: Vec<Peak>)
    requires
        fft_size > 0,
    ensures
        peaks@ == band_peaks(frame@, time_ms, sample_rate as int, fft_size as int),
        peaks.len() <= BAND_COUNT,
{
    let mut peaks: Vec<Peak> = Vec::new();
    let mut band: usize = 0;
    while band < BAND_COUNT
        invariant
            band <= BAND_COUNT,
            fft_size > 0,
            peaks.len() <= band,
            peaks@ == band_peaks_among(
                frame@,
                time_ms,
                sample_rate as int,
                fft_size as int,
                band as int,
            ),
        decreases BAND_COUNT - band,
    {
        match band_peak(frame, band, sample_rate, fft_size) {
            Some(bin) => {
                assert(is_band_peak(
                    frame@,
                    band as int,
                    sample_rate as int,
                    fft_size as int,
                    bin as int,
                ));
                let freq: u128 = frequency_of_bin(bin, sample_rate, fft_size);
                assert(freq < 20000);
                peaks.push(Peak { time_ms, freq_hz: freq as usize, magnitude: frame[bin] });
            },
            None => {},
        }
        band = band + 1;
    }
    peaks
}

/// Keeps the peaks whose magnitude exceeds `threshold`, in their order.
pub fn retain_above(peaks: &Vec<Peak>, threshold: u32) -> (kept: Vec<Peak>)
    ensures
        kept@ == above(peaks@, threshold),
        kept.len() <= peaks.len(),
{
    let mut kept: Vec<Peak> = Vec::new();
    let mut i: usize = 0;
    while i < peaks.len()
        invariant
            i <= peaks.len(),
            kept.len() <= i,
            kept@ == above_among(peaks@, threshold, i as int),
        decreases peaks.len() - i,
    {
        if peaks[i].magnitude > threshold {
            kept.push(peaks[i]);
        }
        i = i + 1;
    }
    kept
}

/// Whether the frequency of `peak` lies in `band`.
pub open spec fn peak_in_band(peak: Peak, band: int) -> bool {
    in_band(band, peak.freq_hz as int)
}

/// Whether the frequency of `peak` lies in one of the bands.
pub open spec fn lies_in_a_band(peak: Peak) -> bool {
    exists|band: int| peak_in_band(peak, band)
}

/// Whether every peak of `peaks` lies in a band and no two of them lie in
/// the same band.
pub open spec fn one_peak_per_band(peaks: Seq<Peak>) -> bool {
    &&& forall|i: int| 0 <= i < peaks.len() ==> lies_in_a_band(#[trigger] peaks[i])
    &&& forall|i: int, j: int, band: int|
        #![trigger peak_in_band(peaks[i], band), peak_in_band(peaks[j], band)]
        0 <= i < j < peaks.len() && peak_in_band(peaks[i], band) ==> !peak_in_band(peaks[j], band)
}

proof fn lemma_band_peaks_among(
    frame: Seq<u32>,
    time_ms: usize,
    sample_rate: int,
    fft_size: int,
    bands: int,
)
    requires
        0 <= bands <= BAND_COUNT,
    ensures
        band_peaks_among(frame, time_ms, sample_rate, fft_size, bands).len() <= bands,
        forall|i: int|
            0 <= i < band_peaks_among(frame, time_ms, sample_rate, fft_size, bands).len() ==> {
                let peak = #[trigger] band_peaks_among(
                    frame,
                    time_ms,
                    sample_rate,
                    fft_size,
                    bands,
                )[i];
                &&& peak.time_ms == time_ms
                &&& peak.magnitude > UNIT_MAGNITUDE
                &&& exists|band: int| 0 <= band < bands && in_band(band, peak.freq_hz as int)
            },
        one_peak_per_band(band_peaks_among(frame, time_ms, sample_rate, fft_size, bands)),
    decreases bands,
{
    if bands > 0 {
        lemma_band_peaks_among(frame, time_ms, sample_rate, fft_size, bands - 1);
        let lower = band_peaks_among(frame, time_ms, sample_rate, fft_size, bands - 1);
        let all = band_peaks_among(frame, time_ms, sample_rate, fft_size, bands);
        match band_peak_bin(frame, bands - 1, sample_rate, fft_size) {
            Some(bin) => {
                assert(is_band_peak(frame, bands - 1, sample_rate, fft_size, bin));
                let peak = peak_at(frame, time_ms, sample_rate, fft_size, bin);
                let freq = bin_frequency(bin, sample_rate, fft_size);
                assert(in_band(bands - 1, freq));
                assert(peak.freq_hz as int == freq);
                assert forall|i: int| 0 <= i < all.len() implies {
                    let p = #[trigger] all[i];
                    &&& p.time_ms == time_ms
                    &&& p.magnitude > UNIT_MAGNITUDE
                    &&& exists|band: int| 0 <= band < bands && in_band(band, p.freq_hz as int)
                } by {
                    if i < lower.len() {
                        assert(all[i] == lower[i]);
                        let band = choose|band: int|
                            0 <= band < bands - 1 && in_band(band, lower[i].freq_hz as int);
                        assert(0 <= band < bands && in_band(band, all[i].freq_hz as int));
                    } else {
                        assert(all[i] == peak);
                        assert(0 <= bands - 1 < bands && in_band(bands - 1, all[i].freq_hz as int));
                    }
                }
                assert forall|i: int, j: int, band: int|
                    #![trigger peak_in_band(all[i], band), peak_in_band(all[j], band)]
                    0 <= i < j < all.len() && peak_in_band(all[i], band) implies !peak_in_band(
                        all[j],
                        band,
                    ) by {
                    assert(all[i] == lower[i]);
                    if j < lower.len() {
                        assert(all[j] == lower[j]);
                    } else {
                        let own = choose|own: int|
                            0 <= own < bands - 1 && in_band(own, lower[i].freq_hz as int);
                        lemma_bands_partition(lower[i].freq_hz as int);
                        lemma_bands_partition(freq);
                        assert(band == own);
                        assert(all[j] == peak);
                    }
                }
                assert forall|i: int| 0 <= i < all.len() implies lies_in_a_band(
                    #[trigger] all[i],
                ) by {
                    let p = all[i];
                    let band = choose|band: int|
                        0 <= band < bands && in_band(band, p.freq_hz as int);
                    assert(peak_in_band(all[i], band));
                }
            },
            None => {
                assert forall|i: int| 0 <= i < all.len() implies {
                    let p = #[trigger] all[i];
                    &&& p.time_ms == time_ms
                    &&& p.magnitude > UNIT_MAGNITUDE
                    &&& exists|band: int| 0 <= band < bands && in_band(band, p.freq_hz as int)
                } by {
                    let band = choose|band: int|
                        0 <= band < bands - 1 && in_band(band, lower[i].freq_hz as int);
                    assert(0 <= band < bands && in_band(band, all[i].freq_hz as int));
                }
            },
        }
    }
}

/// The band peaks of a frame are at most one for each band: every peak
/// carries the time of the frame and a magnitude above one, lies in a band,
/// and shares its band with no other peak. A frequency lies in at most one
/// band, so the band of a peak is exactly one.
pub proof fn lemma_band_peaks(frame: Seq<u32>, time_ms: usize, sample_rate: int, fft_size: int)
    ensures
        band_peaks(frame, time_ms, sample_rate, fft_size).len() <= BAND_COUNT,
        one_peak_per_band(band_peaks(frame, time_ms, sample_rate, fft_size)),
        forall|i: int|
            0 <= i < band_peaks(frame, time_ms, sample_rate, fft_size).len() ==> {
                let peak = #[trigger] band_peaks(frame, time_ms, sample_rate, fft_size)[i];
                peak.time_ms == time_ms && peak.magnitude > UNIT_MAGNITUDE
            },
{
    lemma_band_peaks_among(frame, time_ms, sample_rate, fft_size, BAND_COUNT as int);
}

/// The places, among the first `n` peaks, of those whose magnitude exceeds
/// `threshold`.
pub open spec fn places_above(peaks: Seq<Peak>, threshold: u32, n: int) -> Seq<int>
    decreases n,
{
    if n <= 0 {
        Seq::empty()
    } else {
        let earlier = places_above(peaks, threshold, n - 1);
        if peaks[n - 1].magnitude > threshold {
            earlier.push(n - 1)
        } else {
            earlier
        }
    }
}

/// Pruning keeps peaks where they stood: the kept peaks are the peaks at
/// the places above the threshold, and these places rise.
pub proof fn lemma_above_among(peaks: Seq<Peak>, threshold: u32, n: int)
    requires
        0 <= n <= peaks.len(),
    ensures
        above_among(peaks, threshold, n).len() == places_above(peaks, threshold, n).len(),
        above_among(peaks, threshold, n).len() <= n,
        forall|k: int|
            0 <= k < places_above(peaks, threshold, n).len() ==> {
                let place = #[trigger] places_above(peaks, threshold, n)[k];
                &&& 0 <= place < n
                &&& peaks[place].magnitude > threshold
                &&& above_among(peaks, threshold, n)[k] == peaks[place]
            },
        forall|a: int, b: int|
            0 <= a < b < places_above(peaks, threshold, n).len() ==> places_above(
                peaks,
                threshold,
                n,
            )[a] < places_above(peaks, threshold, n)[b],
    decreases n,
{
    if n > 0 {
        lemma_above_among(peaks, threshold, n - 1);
    }
}

/// Pruning a frame's peaks by any threshold leaves at most one peak for
/// each band.
pub proof fn lemma_pruned_peaks(peaks: Seq<Peak>, threshold: u32)
    requires
        one_peak_per_band(peaks),
    ensures
        one_peak_per_band(above(peaks, threshold)),
        above(peaks, threshold).len() <= peaks.len(),
        forall|k: int|
            0 <= k < above(peaks, threshold).len() ==> (#[trigger] above(
                peaks,
                threshold,
            )[k]).magnitude > threshold,
{
    let n = peaks.len() as int;
    let kept = above(peaks, threshold);
    let places = places_above(peaks, threshold, n);
    lemma_above_among(peaks, threshold, n);
    assert forall|k: int| 0 <= k < kept.len() implies (#[trigger] kept[k]).magnitude > threshold by {
        assert(kept[k] == peaks[places[k]]);
    }
    assert forall|i: int| 0 <= i < kept.len() implies lies_in_a_band(#[trigger] kept[i]) by {
        assert(kept[i] == peaks[places[i]]);
        assert(lies_in_a_band(peaks[places[i]]));
    }
    assert forall|i: int, j: int, band: int|
        #![trigger peak_in_band(kept[i], band), peak_in_band(kept[j], band)]
        0 <= i < j < kept.len() && peak_in_band(kept[i], band) implies !peak_in_band(
            kept[j],
            band,
        ) by {
        assert(kept[i] == peaks[places[i]]);
        assert(kept[j] == peaks[places[j]]);
        assert(places[i] < places[j]);
        assert(peak_in_band(peaks[places[i]], band));
    }
}


/// The time of frame `frame`, in whole milliseconds.
pub open spec fn frame_time(frame: int, sample_rate: int, hop_size: int) -> int {
    time_ms_of(frame * hop_size, sample_rate)
}

/// The band peaks of frame `frame` of a spectrogram.
pub open spec fn frame_candidates(
    frames: Seq<Vec<u32>>,
    sample_rate: int,
    fft_size: int,
    hop_size: int,
    frame: int,
) -> Seq<Peak> {
    band_peaks(
        frames[frame]@,
        frame_time(frame, sample_rate, hop_size) as usize,
        sample_rate,
        fft_size,
    )
}

/// Whether the band peaks of a spectrogram can be picked: the sample rate
/// and the transform size are positive and the time of every frame fits
/// the machine word.
pub open spec fn can_pick(frames: int, sample_rate: int, fft_size: int, hop_size: int) -> bool {
    &&& sample_rate > 0
    &&& fft_size > 0
    &&& forall|i: int| 0 <= i < frames ==> #[trigger] frame_time(i, sample_rate, hop_size) <= usize::MAX
}

/// The peaks of the first `n` frames that exceed the threshold of their
/// frame, frame after frame. A frame without band peaks gives nothing.
pub open spec fn pruned_among(candidates: Seq<Vec<Peak>>, thresholds: Seq<u32>, n: int) -> Seq<
    Peak,
>
    decreases n,
{
    if n <= 0 {
        Seq::empty()
    } else {
        pruned_among(candidates, thresholds, n - 1) + above(
            candidates[n - 1]@,
            thresholds[n - 1],
        )
    }
}

/// Picks the band peaks of every frame of a spectrogram. Frame `i` starts
/// at sample `i * hop_size`. Gives `None` where `can_pick` does not hold.
pub fn pick_band_peaks(
    frames: &Vec<Vec<u32>>,
    sample_rate: usize,
    fft_size: usize,
    hop_size: usize,
) -> (picked: Option<Vec<Vec<Peak>>>)
    ensures
        match picked {
            Some(list) => {
                &&& can_pick(
                    frames.len() as int,
                    sample_rate as int,
                    fft_size as int,
                    hop_size as int,
                )
                &&& list.len() == frames.len()
                &&& forall|i: int|
                    0 <= i < list.len() ==> (#[trigger] list[i])@ == frame_candidates(
                        frames@,
                        sample_rate as int,
                        fft_size as int,
                        hop_size as int,
                        i,
                    )
            },
            None => !can_pick(
                frames.len() as int,
                sample_rate as int,
                fft_size as int,
                hop_size as int,
            ),
        },
{
    if sample_rate == 0 || fft_size == 0 {
        return None;
    }
    let mut list: Vec<Vec<Peak>> = Vec::new();
    let mut i: usize = 0;
    while i < frames.len()
        invariant
            i <= frames.len(),
            sample_rate > 0,
            fft_size > 0,
            list.len() == i,
            forall|k: int|
                0 <= k < i ==> #[trigger] frame_time(k, sample_rate as int, hop_size as int)
                    <= usize::MAX,
            forall|k: int|
                0 <= k < i ==> (#[trigger] list[k])@ == frame_candidates(
                    frames@,
                    sample_rate as int,
                    fft_size as int,
                    hop_size as int,
                    k,
                ),
        decreases frames.len() - i,
    {
        match frame_time_ms(i, hop_size, sample_rate) {
            Some(time) => {
                let peaks = frame_band_peaks(&frames[i], time, sample_rate, fft_size);
                list.push(peaks);
            },
            None => {
                assert(frame_time(i as int, sample_rate as int, hop_size as int) > usize::MAX);
                return None;
            },
        }
        i = i + 1;
    }
    Some(list)
}

/// Prunes the band peaks of every frame by the threshold of the frame, the
/// mean magnitude of its band peaks, and strings what is left together.
/// Gives `None` where the thresholds are not as many as the frames.
pub fn prune_by_mean(candidates: &Vec<Vec<Peak>>, thresholds: &Vec<u32>) -> (pruned: Option<
    Vec<Peak>,
>)
    ensures
        match pruned {
            Some(peaks) => thresholds.len() == candidates.len() && peaks@ == pruned_among(
                candidates@,
                thresholds@,
                candidates.len() as int,
            ),
            None => thresholds.len() != candidates.len(),
        },
{
    if thresholds.len() != candidates.len() {
        return None;
    }
    let mut peaks: Vec<Peak> = Vec::new();
    let mut i: usize = 0;
    while i < candidates.len()
        invariant
            i <= candidates.len(),
            thresholds.len() == candidates.len(),
            peaks@ == pruned_among(candidates@, thresholds@, i as int),
        decreases candidates.len() - i,
    {
        let mut kept: Vec<Peak> = retain_above(&candidates[i], thresholds[i]);
        peaks.append(&mut kept);
        i = i + 1;
    }
    Some(peaks)
}


/// What a frame emits: after picking and pruning, every peak of a frame
/// lies in exactly one band, no band holds two of them, and each carries
/// the time of the frame and a magnitude above one and above the
/// threshold.
pub proof fn lemma_frame_emits_one_peak_per_band(
    frame: Seq<u32>,
    time_ms: usize,
    sample_rate: int,
    fft_size: int,
    threshold: u32,
)
    ensures
        one_peak_per_band(above(band_peaks(frame, time_ms, sample_rate, fft_size), threshold)),
        above(band_peaks(frame, time_ms, sample_rate, fft_size), threshold).len() <= BAND_COUNT,
        forall|k: int|
            0 <= k < above(band_peaks(frame, time_ms, sample_rate, fft_size), threshold).len()
                ==> {
                let peak = #[trigger] above(
                    band_peaks(frame, time_ms, sample_rate, fft_size),
                    threshold,
                )[k];
                &&& peak.time_ms == time_ms
                &&& peak.magnitude > UNIT_MAGNITUDE
                &&& peak.magnitude > threshold
                &&& forall|a: int, b: int|
                    peak_in_band(peak, a) && peak_in_band(peak, b) ==> a == b
            },
{
    let picked = band_peaks(frame, time_ms, sample_rate, fft_size);
    let kept = above(picked, threshold);
    lemma_band_peaks(frame, time_ms, sample_rate, fft_size);
    lemma_pruned_peaks(picked, threshold);
    lemma_above_among(picked, threshold, picked.len() as int);
    let places = places_above(picked, threshold, picked.len() as int);
    assert forall|k: int| 0 <= k < kept.len() implies {
        let peak = #[trigger] kept[k];
        &&& peak.time_ms == time_ms
        &&& peak.magnitude > UNIT_MAGNITUDE
        &&& peak.magnitude > threshold
        &&& forall|a: int, b: int| peak_in_band(peak, a) && peak_in_band(peak, b) ==> a == b
    } by {
        assert(kept[k] == picked[places[k]]);
        lemma_bands_partition(kept[k].freq_hz as int);
    }
}


} // verus!
