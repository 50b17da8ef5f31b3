//! The 64-bit landmark hash.

use vstd::prelude::*;

verus! {

/// The packed value of an anchor frequency, a target frequency and a time
/// delta: the anchor frequency shifted to bits 63..48, the low 16 bits of the
/// target frequency at bits 31..16, and the low 32 bits of the delta laid
/// over bits 31..0 by bitwise OR.
pub open spec fn packed(freq1: usize, freq2: usize, time: u64) -> u64 {
    ((freq1 as u64) << 48) | (((freq2 as u64) & 0xFFFF) << 16) | (time & 0xFFFF_FFFF)
}

/// Packs an anchor frequency, a target frequency and the absolute time
/// difference between the two peaks into one landmark hash.
pub fn hash_tuple(freq1: usize, freq2: usize, time: u64) -> (hash: u64)
    ensures
        hash == packed(freq1, freq2, time),
{
    let mut hash: u64 = (freq1 as u64) << 48;
    hash = hash | (((freq2 as u64) & 0xFFFF) << 16);
    hash = hash | (time & 0xFFFF_FFFF);
    hash
}

/// What can be read back from a hash: the low 16 bits of the anchor
/// frequency sit alone in the top 16 bits, bits 47..32 are always clear, the
/// low 16 bits are those of the time delta, and bits 31..16 hold the target
/// frequency's low 16 bits merged with the delta's bits 31..16.
pub proof fn lemma_hash_fields(freq1: usize, freq2: usize, time: u64)
    ensures
        packed(freq1, freq2, time) >> 48 == (freq1 as u64) & 0xFFFF,
        (packed(freq1, freq2, time) >> 32) & 0xFFFF == 0,
        packed(freq1, freq2, time) & 0xFFFF == time & 0xFFFF,
        (packed(freq1, freq2, time) >> 16) & 0xFFFF == ((freq2 as u64) & 0xFFFF) | ((time >> 16)
            & 0xFFFF),
{
    let a: u64 = freq1 as u64;
    let b: u64 = freq2 as u64;
    let h: u64 = (a << 48) | ((b & 0xFFFF) << 16) | (time & 0xFFFF_FFFF);
    assert(h >> 48 == a & 0xFFFF) by (bit_vector)
        requires
            h == (a << 48) | ((b & 0xFFFF) << 16) | (time & 0xFFFF_FFFF),
    ;
    assert((h >> 32) & 0xFFFF == 0) by (bit_vector)
        requires
            h == (a << 48) | ((b & 0xFFFF) << 16) | (time & 0xFFFF_FFFF),
    ;
    assert(h & 0xFFFF == time & 0xFFFF) by (bit_vector)
        requires
            h == (a << 48) | ((b & 0xFFFF) << 16) | (time & 0xFFFF_FFFF),
    ;
    assert((h >> 16) & 0xFFFF == (b & 0xFFFF) | ((time >> 16) & 0xFFFF)) by (bit_vector)
        requires
            h == (a << 48) | ((b & 0xFFFF) << 16) | (time & 0xFFFF_FFFF),
    ;
}

} // verus!
