//! Fixed parameters of the fingerprint profile.

use vstd::prelude::*;

verus! {

/// Number of samples in one analysis frame.
pub const NUM_BINS: usize = 2048;

/// Stride between the starts of two consecutive frames.
pub const HOP_SIZE: usize = 1024;

/// Sample rate assumed when a container does not state one.
pub const DEFAULT_SAMPLE_RATE: u32 = 44100;

/// Number of nearest neighbours asked for around each peak, the peak itself
/// included.
pub const ANCHOR_POINTS: usize = 5;

/// Factor by which a decoded signal is downsampled before analysis.
pub const DOWNSAMPLE_FACTOR: usize = 2;

/// Number of frequency bands.
pub const BAND_COUNT: usize = 10;

/// Least number of full anchors a candidate track must reach.
pub const MIN_ANCHOR_COUNT: usize = 10;

/// Tolerance, in milliseconds, within which two time deltas count as equal.
pub const COHERENCE_TOLERANCE_MS: u64 = 100;

/// Greatest number of tracks a query returns.
pub const MAX_RESULTS: usize = 5;

/// Lower edge (inclusive), in Hz, of band `band`.
pub open spec fn band_low(band: int) -> int {
    if band == 0 {
        0
    } else if band == 1 {
        32
    } else if band == 2 {
        64
    } else if band == 3 {
        128
    } else if band == 4 {
        256
    } else if band == 5 {
        512
    } else if band == 6 {
        1024
    } else if band == 7 {
        2048
    } else if band == 8 {
        4096
    } else {
        8192
    }
}

/// Upper edge (exclusive), in Hz, of band `band`.
pub open spec fn band_high(band: int) -> int {
    if band == 0 {
        32
    } else if band == 1 {
        64
    } else if band == 2 {
        128
    } else if band == 3 {
        256
    } else if band == 4 {
        512
    } else if band == 5 {
        1024
    } else if band == 6 {
        2048
    } else if band == 7 {
        4096
    } else if band == 8 {
        8192
    } else {
        20000
    }
}

/// Whether frequency `freq` (Hz) falls into band `band`.
pub open spec fn in_band(band: int, freq: int) -> bool {
    0 <= band < BAND_COUNT && band_low(band) <= freq < band_high(band)
}

/// The edges `(low, high)` of band `band`, low inclusive and high exclusive.
pub fn band_edges(band: usize) -> (edges: (usize, usize))
    requires
        band < BAND_COUNT,
    ensures
        edges.0 == band_low(band as int),
        edges.1 == band_high(band as int),
        edges.0 < edges.1,
{
    if band == 0 {
        (0, 32)
    } else if band == 1 {
        (32, 64)
    } else if band == 2 {
        (64, 128)
    } else if band == 3 {
        (128, 256)
    } else if band == 4 {
        (256, 512)
    } else if band == 5 {
        (512, 1024)
    } else if band == 6 {
        (1024, 2048)
    } else if band == 7 {
        (2048, 4096)
    } else if band == 8 {
        (4096, 8192)
    } else {
        (8192, 20000)
    }
}

/// The bands tile `[0, 20000)` without overlap: a frequency lies in at most
/// one band, and in exactly one when it is below 20 kHz.
pub proof fn lemma_bands_partition(freq: int)
    ensures
        forall|a: int, b: int| in_band(a, freq) && in_band(b, freq) ==> a == b,
        0 <= freq < 20000 ==> exists|a: int| in_band(a, freq),
{
    if 0 <= freq < 20000 {
        let a: int = if freq < 32 {
            0
        } else if freq < 64 {
            1
        } else if freq < 128 {
            2
        } else if freq < 256 {
            3
        } else if freq < 512 {
            4
        } else if freq < 1024 {
            5
        } else if freq < 2048 {
            6
        } else if freq < 4096 {
            7
        } else if freq < 8192 {
            8
        } else {
            9
        };
        assert(in_band(a, freq));
    }
}

} // verus!
