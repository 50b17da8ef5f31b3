use kdtree::distance::squared_euclidean;
use kdtree::KdTree;
use music_finder::config::{band_edges, ANCHOR_POINTS, DOWNSAMPLE_FACTOR, HOP_SIZE, NUM_BINS};
use music_finder::engine::{ingest, query};
use music_finder::framing::{
    downsample_len, downsample_rate, downsample_window, frame_count, frame_start,
};
use music_finder::landmarks::{pair_landmarks, Fingerprint};
use music_finder::peaks::{band_peak, pick_band_peaks, prune_by_mean, Peak};
use music_finder::store::MemoryStore;
use realfft::RealFftPlanner;

fn key(x: f32) -> u32 {
    if x > 0.0 {
        x.to_bits()
    } else {
        0
    }
}

fn downsample(audio: &[f32], rate: u32, factor: usize) -> (Vec<f32>, u32) {
    let len = downsample_len(audio.len(), factor);
    let mut out = Vec::with_capacity(len);
    for i in 0..len {
        let (start, end) = downsample_window(i, audio.len(), factor);
        out.push(audio[start..end].iter().sum::<f32>() / (end - start) as f32);
    }
    (out, downsample_rate(rate, factor))
}

fn normalise(audio: Vec<f32>) -> Vec<f32> {
    let max = audio.iter().fold(f32::MIN, |max, &x| f32::max(max, x));
    if !(max > 0.0) {
        return audio;
    }
    audio.iter().map(|&x| x / max).collect()
}

fn spectrogram(audio: &[f32]) -> Vec<Vec<u32>> {
    let mut planner = RealFftPlanner::<f32>::new();
    let r2c = planner.plan_fft_forward(NUM_BINS);
    let window: Vec<f32> = (0..NUM_BINS)
        .map(|n| {
            0.5 * (1.0
                - f32::cos((2.0 * std::f32::consts::PI * n as f32) / (NUM_BINS as f32 - 1.0)))
        })
        .collect();
    let mut frames = Vec::new();
    for index in 0..frame_count(audio.len(), NUM_BINS, HOP_SIZE) {
        let start = frame_start(index, audio.len(), NUM_BINS, HOP_SIZE);
        let mut frame: Vec<f32> =
            audio[start..start + NUM_BINS].iter().zip(&window).map(|(x, w)| x * w).collect();
        let mut out = r2c.make_output_vec();
        r2c.process(&mut frame, &mut out).unwrap();
        frames.push(out.iter().map(|c| key(c.norm())).collect());
    }
    frames
}

fn peaks_of(frames: &Vec<Vec<u32>>, rate: u32) -> Vec<Peak> {
    let candidates = pick_band_peaks(frames, rate as usize, NUM_BINS, HOP_SIZE).unwrap();
    let means: Vec<u32> = candidates
        .iter()
        .map(|frame| {
            if frame.is_empty() {
                0
            } else {
                let sum = frame.iter().map(|p| f32::from_bits(p.magnitude)).sum::<f32>();
                key(sum / frame.len() as f32)
            }
        })
        .collect();
    prune_by_mean(&candidates, &means).unwrap()
}

fn fingerprints_of(peaks: &Vec<Peak>) -> Vec<Fingerprint> {
    let mut tree = KdTree::new(2);
    for (i, peak) in peaks.iter().enumerate() {
        tree.add([peak.time_ms as f32, peak.freq_hz as f32], i).unwrap();
    }
    let mut neighbours = Vec::new();
    for peak in peaks {
        let nearest = tree
            .nearest(&[peak.time_ms as f32, peak.freq_hz as f32], ANCHOR_POINTS, &squared_euclidean)
            .unwrap();
        neighbours.push(nearest.into_iter().map(|(_, i)| *i).collect::<Vec<usize>>());
    }
    pair_landmarks(peaks, &neighbours).unwrap()
}

fn fingerprint(audio: &[f32], rate: u32) -> Vec<Fingerprint> {
    let (audio, rate) = downsample(audio, rate, DOWNSAMPLE_FACTOR);
    let audio = normalise(audio);
    fingerprints_of(&peaks_of(&spectrogram(&audio), rate))
}

/// A tune of two tones that change with every segment: a loud one between
/// 1 and 4 kHz and a soft one below 1 kHz.
fn tune(seed: u64, segments: usize) -> Vec<f32> {
    let mut state = seed;
    let mut next = move || {
        state = state.wrapping_mul(6364136223846793005).wrapping_add(1442695040888963407);
        state >> 33
    };
    let mut out = Vec::with_capacity(segments * 4096);
    for segment in 0..segments {
        let loud = (100 + next() % 280) as f64 * 22050.0 / 2048.0;
        let soft = (30 + next() % 60) as f64 * 22050.0 / 2048.0;
        for n in 0..4096 {
            let t = (segment * 4096 + n) as f64 / 44100.0;
            let x = (2.0 * std::f64::consts::PI * loud * t).sin()
                + 0.4 * (2.0 * std::f64::consts::PI * soft * t).sin();
            out.push(x as f32);
        }
    }
    out
}

#[test]
fn ten_second_sine_has_214_frames_with_a_peak_near_440_hz() {
    let sine: Vec<f32> = (0..441000)
        .map(|n| (2.0 * std::f64::consts::PI * 440.0 * n as f64 / 44100.0).sin() as f32)
        .collect();
    let (audio, rate) = downsample(&sine, 44100, 2);
    assert_eq!(audio.len(), 220500);
    assert_eq!(rate, 22050);
    assert_eq!(frame_count(audio.len(), NUM_BINS, HOP_SIZE), 214);
    let frames = spectrogram(&normalise(audio));
    assert_eq!(frames.len(), 214);
    assert_eq!(frames[0].len(), NUM_BINS / 2 + 1);
    let candidates = pick_band_peaks(&frames, 22050, NUM_BINS, HOP_SIZE).unwrap();
    let (low, high) = band_edges(4);
    assert_eq!((low, high), (256, 512));
    for (i, frame) in candidates.iter().enumerate() {
        assert_eq!(frame.len(), 1, "frame {}", i);
        assert!(low <= frame[0].freq_hz && frame[0].freq_hz < high);
        assert!(frame[0].freq_hz.abs_diff(440) <= 10);
        assert_eq!(frame[0].time_ms, i * HOP_SIZE * 1000 / 22050);
        let bin = band_peak(&frames[i], 4, 22050, NUM_BINS).unwrap();
        assert_eq!(bin * 22050 / NUM_BINS, frame[0].freq_hz);
        assert!(bin == 40 || bin == 41);
    }
}

#[test]
fn a_lone_band_peak_is_pruned_by_its_own_mean() {
    let sine: Vec<f32> = (0..44100)
        .map(|n| (2.0 * std::f64::consts::PI * 440.0 * n as f64 / 44100.0).sin() as f32)
        .collect();
    assert!(fingerprint(&sine, 44100).is_empty());
}

#[test]
fn audio_shorter_than_one_frame_matches_nothing() {
    let short = tune(7, 1);
    let (audio, rate) = downsample(&short[..4094], 44100, DOWNSAMPLE_FACTOR);
    assert_eq!(audio.len(), NUM_BINS - 1);
    let frames = spectrogram(&normalise(audio));
    assert!(frames.is_empty());
    let peaks = peaks_of(&frames, rate);
    assert!(peaks.is_empty());
    let prints = fingerprints_of(&peaks);
    assert!(prints.is_empty());
    let mut store = MemoryStore::new();
    ingest(&mut store, &"a".to_string(), &"A".to_string(), &fingerprint(&tune(1, 48), 44100));
    assert_eq!(query(&store, &prints), Ok(Vec::new()));
}

#[test]
fn silence_gives_no_fingerprints() {
    let silence = vec![0.0f32; 44100];
    let (audio, rate) = downsample(&silence, 44100, DOWNSAMPLE_FACTOR);
    let audio = normalise(audio);
    assert!(audio.iter().all(|&x| x == 0.0));
    let frames = spectrogram(&audio);
    assert_eq!(frames.len(), frame_count(22050, NUM_BINS, HOP_SIZE));
    assert!(peaks_of(&frames, rate).is_empty());
    assert!(fingerprint(&silence, 44100).is_empty());
}

#[test]
fn peaks_of_a_tune_lie_one_to_a_band() {
    let (audio, rate) = downsample(&tune(1, 48), 44100, DOWNSAMPLE_FACTOR);
    let frames = spectrogram(&normalise(audio));
    let peaks = peaks_of(&frames, rate);
    assert!(!peaks.is_empty());
    let band_of = |freq: usize| {
        let bands: Vec<usize> =
            (0..10).filter(|&b| band_edges(b).0 <= freq && freq < band_edges(b).1).collect();
        assert_eq!(bands.len(), 1);
        bands[0]
    };
    for (i, p) in peaks.iter().enumerate() {
        for q in &peaks[i + 1..] {
            assert!(p.time_ms != q.time_ms || band_of(p.freq_hz) != band_of(q.freq_hz));
        }
        assert!(f32::from_bits(p.magnitude) > 1.0);
    }
    let prints = fingerprints_of(&peaks);
    assert!(!prints.is_empty());
    assert!(prints.len() <= 4 * peaks.len());
}

#[test]
fn ingested_audio_is_found_again() {
    let audio = tune(1, 48);
    let prints = fingerprint(&audio, 44100);
    let mut store = MemoryStore::new();
    ingest(&mut store, &"a".to_string(), &"record of a".to_string(), &prints);
    assert_eq!(query(&store, &fingerprint(&audio, 44100)), Ok(vec!["record of a".to_string()]));
}

#[test]
fn each_tune_finds_itself_among_others() {
    let mut store = MemoryStore::new();
    let tunes = [("a", tune(1, 48)), ("b", tune(2, 48)), ("c", tune(3, 48))];
    for (id, audio) in &tunes {
        ingest(&mut store, &id.to_string(), &id.to_uppercase(), &fingerprint(audio, 44100));
    }
    for (id, audio) in &tunes {
        let answer = query(&store, &fingerprint(audio, 44100)).unwrap();
        assert_eq!(answer.first(), Some(&id.to_uppercase()));
    }
}

#[test]
fn other_audio_is_not_mistaken_for_an_ingested_track() {
    let mut store = MemoryStore::new();
    ingest(&mut store, &"a".to_string(), &"A".to_string(), &fingerprint(&tune(1, 48), 44100));
    let answer = query(&store, &fingerprint(&tune(99, 48), 44100)).unwrap();
    assert!(answer.first() != Some(&"A".to_string()));
    assert!(answer.is_empty());
}
