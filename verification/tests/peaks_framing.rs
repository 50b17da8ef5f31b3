use music_finder::config::{band_edges, BAND_COUNT, HOP_SIZE, NUM_BINS};
use music_finder::framing::{
    downmix, downsample_len, downsample_rate, downsample_window, frame_count, frame_start,
    frame_time_ms, time_ms,
};
use music_finder::peaks::{
    band_peak, frame_band_peaks, frequency_of_bin, pick_band_peaks, prune_by_mean, retain_above,
    Peak, UNIT_MAGNITUDE,
};

fn key(x: f32) -> u32 {
    x.to_bits()
}

#[test]
fn unit_magnitude_is_the_key_of_one() {
    assert_eq!(UNIT_MAGNITUDE, key(1.0));
    assert!(key(1.0000001) > UNIT_MAGNITUDE);
    assert!(key(0.9999999) < UNIT_MAGNITUDE);
    assert!(key(0.0) < key(f32::MIN_POSITIVE));
    assert!(key(3.5) < key(f32::INFINITY));
}

#[test]
fn frame_count_follows_the_formula() {
    assert_eq!(frame_count(220500, 2048, 1024), 214);
    assert_eq!(frame_count(2048, 2048, 1024), 1);
    assert_eq!(frame_count(2047, 2048, 1024), 0);
    assert_eq!(frame_count(0, 2048, 1024), 0);
    assert_eq!(frame_count(3071, 2048, 1024), 1);
    assert_eq!(frame_count(3072, 2048, 1024), 2);
    assert_eq!(frame_count(10, 4, 3), 3);
    assert_eq!(frame_count(usize::MAX, 1, 1), usize::MAX);
}

#[test]
fn frame_count_agrees_with_stepping_through_the_signal() {
    for samples in 0..200usize {
        for fft in 1..9usize {
            for hop in 1..7usize {
                let mut count = 0;
                let mut frame = 0;
                while frame + fft <= samples {
                    count += 1;
                    frame += hop;
                }
                assert_eq!(frame_count(samples, fft, hop), count);
            }
        }
    }
}

#[test]
fn short_signal_has_no_frame() {
    for samples in [0usize, 1, 100, NUM_BINS - 1] {
        assert_eq!(frame_count(samples, NUM_BINS, HOP_SIZE), 0);
    }
}

#[test]
fn frames_start_one_hop_apart() {
    assert_eq!(frame_start(0, 220500, 2048, 1024), 0);
    assert_eq!(frame_start(1, 220500, 2048, 1024), 1024);
    assert_eq!(frame_start(213, 220500, 2048, 1024), 218112);
    assert!(frame_start(213, 220500, 2048, 1024) + 2048 <= 220500);
}

#[test]
fn frame_time_in_milliseconds() {
    assert_eq!(time_ms(0, 44100), Some(0));
    assert_eq!(time_ms(1024, 44100), Some(23));
    assert_eq!(time_ms(1024, 22050), Some(46));
    assert_eq!(time_ms(213 * 1024, 44100), Some(4945));
    assert_eq!(time_ms(44100, 44100), Some(1000));
    assert_eq!(time_ms(44099, 44100), Some(999));
    assert_eq!(time_ms(5, 0), None);
    assert_eq!(time_ms(usize::MAX, 1), None);
    assert_eq!(time_ms(usize::MAX, 1000), Some(usize::MAX));
}

#[test]
fn downsample_plan() {
    assert_eq!(downsample_len(441000, 2), 220500);
    assert_eq!(downsample_len(5, 2), 3);
    assert_eq!(downsample_len(0, 2), 0);
    assert_eq!(downsample_len(1, 4), 1);
    assert_eq!(downsample_len(usize::MAX, 1), usize::MAX);
    assert_eq!(downsample_window(0, 5, 2), (0, 2));
    assert_eq!(downsample_window(1, 5, 2), (2, 4));
    assert_eq!(downsample_window(2, 5, 2), (4, 5));
    assert_eq!(downsample_window(0, 1, 4), (0, 1));
    assert_eq!(downsample_rate(44100, 2), 22050);
    assert_eq!(downsample_rate(44101, 2), 22050);
    assert_eq!(downsample_rate(3, 4), 0);
    assert_eq!(downsample_rate(8, usize::MAX), 0);
}

#[test]
fn downsample_windows_tile_the_signal() {
    for samples in 0..60usize {
        for factor in 1..8usize {
            let len = downsample_len(samples, factor);
            let mut covered = 0;
            for i in 0..len {
                let (start, end) = downsample_window(i, samples, factor);
                assert_eq!(start, covered);
                assert!(end > start && end - start <= factor);
                covered = end;
            }
            assert_eq!(covered, samples);
        }
    }
}

#[test]
fn downmix_is_the_mean_toward_zero() {
    assert_eq!(downmix(&vec![100]), 100);
    assert_eq!(downmix(&vec![100, 200]), 150);
    assert_eq!(downmix(&vec![1, 2]), 1);
    assert_eq!(downmix(&vec![-1, -2]), -1);
    assert_eq!(downmix(&vec![-3, 0]), -1);
    assert_eq!(downmix(&vec![i16::MAX, i16::MAX]), i16::MAX);
    assert_eq!(downmix(&vec![i16::MIN, i16::MIN, i16::MIN]), i16::MIN);
    assert_eq!(downmix(&vec![i16::MIN, i16::MAX]), 0);
    assert_eq!(downmix(&vec![-7, 2, 1]), -1);
}

#[test]
fn bin_frequencies() {
    assert_eq!(frequency_of_bin(40, 22050, 2048), 430);
    assert_eq!(frequency_of_bin(0, 22050, 2048), 0);
    assert_eq!(frequency_of_bin(1024, 44100, 2048), 22050);
    assert_eq!(frequency_of_bin(3, 44100, 2048), 64);
    assert_eq!(frequency_of_bin(usize::MAX, usize::MAX, 1), (usize::MAX as u128) * (usize::MAX as u128));
}

#[test]
fn band_edges_are_the_ten_bands() {
    let expected = [
        (0, 32), (32, 64), (64, 128), (128, 256), (256, 512), (512, 1024), (1024, 2048),
        (2048, 4096), (4096, 8192), (8192, 20000),
    ];
    assert_eq!(BAND_COUNT, 10);
    for (band, edges) in expected.iter().enumerate() {
        assert_eq!(band_edges(band), *edges);
    }
}

#[test]
fn sine_peak_falls_in_the_fifth_band() {
    let mut frame = vec![key(0.0); NUM_BINS / 2 + 1];
    frame[39] = key(80.0);
    frame[40] = key(900.0);
    frame[41] = key(120.0);
    assert_eq!(band_peak(&frame, 4, 22050, NUM_BINS), Some(40));
    let peaks = frame_band_peaks(&frame, 46, 22050, NUM_BINS);
    assert_eq!(peaks, vec![Peak { time_ms: 46, freq_hz: 430, magnitude: key(900.0) }]);
    let edges = band_edges(4);
    assert!(edges.0 <= 430 && 430 < edges.1);
}

#[test]
fn one_peak_for_each_band_that_exceeds_one() {
    let mut frame = vec![key(0.5); 1025];
    frame[1] = key(3.0);
    frame[2] = key(1.0);
    frame[4] = key(2.0);
    frame[5] = key(7.0);
    frame[100] = key(1.5);
    frame[400] = key(9.0);
    frame[1000] = key(50.0);
    let peaks = frame_band_peaks(&frame, 0, 44100, 2048);
    let seen: Vec<(usize, u32)> = peaks.iter().map(|p| (p.freq_hz, p.magnitude)).collect();
    assert_eq!(
        seen,
        vec![(21, key(3.0)), (107, key(7.0)), (2153, key(1.5)), (8613, key(9.0))]
    );
    for (i, p) in peaks.iter().enumerate() {
        let bands: Vec<usize> = (0..BAND_COUNT)
            .filter(|&b| band_edges(b).0 <= p.freq_hz && p.freq_hz < band_edges(b).1)
            .collect();
        assert_eq!(bands.len(), 1);
        for q in &peaks[i + 1..] {
            assert!(!(band_edges(bands[0]).0 <= q.freq_hz && q.freq_hz < band_edges(bands[0]).1));
        }
    }
}

#[test]
fn first_of_equal_maxima_is_the_peak() {
    let mut frame = vec![key(0.0); 64];
    frame[4] = key(4.0);
    frame[5] = key(4.0);
    assert_eq!(band_peak(&frame, 2, 44100, 2048), Some(4));
    frame[5] = key(4.5);
    assert_eq!(band_peak(&frame, 2, 44100, 2048), Some(5));
    assert_eq!(band_peak(&frame, 1, 44100, 2048), None);
}

#[test]
fn magnitude_of_one_is_no_peak() {
    let mut frame = vec![key(1.0); 1025];
    assert!(frame_band_peaks(&frame, 0, 44100, 2048).is_empty());
    for band in 0..BAND_COUNT {
        assert_eq!(band_peak(&frame, band, 44100, 2048), None);
    }
    frame[0] = key(1.0000001);
    assert_eq!(frame_band_peaks(&frame, 0, 44100, 2048).len(), 1);
    assert!(frame_band_peaks(&Vec::new(), 0, 44100, 2048).is_empty());
}

#[test]
fn bins_above_twenty_kilohertz_are_in_no_band() {
    let mut frame = vec![key(0.0); 1025];
    frame[1000] = key(50.0);
    assert!(frame_band_peaks(&frame, 0, 44100, 2048).is_empty());
    frame[928] = key(50.0);
    let peaks = frame_band_peaks(&frame, 0, 44100, 2048);
    assert_eq!(peaks.len(), 1);
    assert_eq!(peaks[0].freq_hz, 19982);
}

#[test]
fn pruning_keeps_what_exceeds_the_threshold() {
    let peaks = vec![
        Peak { time_ms: 0, freq_hz: 10, magnitude: key(2.0) },
        Peak { time_ms: 0, freq_hz: 40, magnitude: key(6.0) },
        Peak { time_ms: 0, freq_hz: 70, magnitude: key(4.0) },
        Peak { time_ms: 0, freq_hz: 130, magnitude: key(9.0) },
    ];
    let mean = (2.0f32 + 6.0 + 4.0 + 9.0) / 4.0;
    let kept = retain_above(&peaks, key(mean));
    assert_eq!(kept, vec![peaks[1], peaks[3]]);
    assert_eq!(retain_above(&peaks, key(9.0)), Vec::<Peak>::new());
    assert_eq!(retain_above(&peaks, key(0.0)), peaks);
    assert!(retain_above(&Vec::new(), key(1.0)).is_empty());
}

#[test]
fn a_lone_peak_does_not_exceed_its_own_mean() {
    let peaks = vec![Peak { time_ms: 0, freq_hz: 10, magnitude: key(2.0) }];
    assert!(retain_above(&peaks, key(2.0)).is_empty());
}

#[test]
fn time_of_a_frame() {
    assert_eq!(frame_time_ms(0, 1024, 44100), Some(0));
    assert_eq!(frame_time_ms(1, 1024, 44100), Some(23));
    assert_eq!(frame_time_ms(2, 1024, 44100), Some(46));
    assert_eq!(frame_time_ms(213, 1024, 22050), Some(9891));
    assert_eq!(frame_time_ms(5, 1024, 0), None);
    assert_eq!(frame_time_ms(usize::MAX, usize::MAX, 1), None);
    assert_eq!(frame_time_ms(usize::MAX, 2, 2000), Some(usize::MAX));
    assert_eq!(frame_time_ms(usize::MAX, 2, 1999), None);
}

#[test]
fn band_peaks_of_every_frame() {
    let mut first = vec![key(0.0); 1025];
    first[5] = key(7.0);
    first[400] = key(9.0);
    let mut third = vec![key(0.0); 1025];
    third[100] = key(1.5);
    let frames = vec![first, vec![key(0.0); 1025], third];
    let picked = pick_band_peaks(&frames, 44100, 2048, 1024).unwrap();
    assert_eq!(picked.len(), 3);
    assert_eq!(
        picked[0],
        vec![
            Peak { time_ms: 0, freq_hz: 107, magnitude: key(7.0) },
            Peak { time_ms: 0, freq_hz: 8613, magnitude: key(9.0) },
        ]
    );
    assert!(picked[1].is_empty());
    assert_eq!(picked[2], vec![Peak { time_ms: 46, freq_hz: 2153, magnitude: key(1.5) }]);
    let means = vec![key(8.0), 0, key(1.5)];
    assert_eq!(
        prune_by_mean(&picked, &means),
        Some(vec![Peak { time_ms: 0, freq_hz: 8613, magnitude: key(9.0) }])
    );
    assert_eq!(prune_by_mean(&picked, &vec![0, 0, 0]).unwrap().len(), 3);
}

#[test]
fn picking_needs_a_rate_a_size_and_times_that_fit() {
    let frames = vec![vec![key(2.0); 8], vec![key(2.0); 8]];
    assert_eq!(pick_band_peaks(&frames, 0, 2048, 1024), None);
    assert_eq!(pick_band_peaks(&frames, 44100, 0, 1024), None);
    assert_eq!(pick_band_peaks(&frames, 1, 2048, usize::MAX), None);
    assert_eq!(pick_band_peaks(&Vec::new(), 44100, 2048, 1024), Some(Vec::new()));
    assert!(pick_band_peaks(&frames, 44100, 2048, 0).is_some());
}

#[test]
fn pruning_needs_one_threshold_for_each_frame() {
    let picked = vec![vec![Peak { time_ms: 0, freq_hz: 10, magnitude: key(2.0) }]];
    assert_eq!(prune_by_mean(&picked, &Vec::new()), None);
    assert_eq!(prune_by_mean(&picked, &vec![0, 0]), None);
    assert_eq!(prune_by_mean(&Vec::new(), &Vec::new()), Some(Vec::new()));
}
