//! Pairing of peaks into landmark fingerprints.
//!
//! Every peak is an anchor. It is paired with its nearest neighbours in the
//! time-frequency plane, and each pair gives one hash. The neighbours are
//! found outside this module; here they are checked, hashed and merged.

use vstd::prelude::*;
use crate::config::ANCHOR_POINTS;
use crate::hash::{hash_tuple, packed};
use crate::peaks::Peak;

verus! {

/// A landmark hash and the time, in milliseconds, of its anchor peak.
#[derive(Clone, Copy, Debug, PartialEq, Eq, Structural)]
pub struct Fingerprint {
    pub hash: u64,
    pub time_ms: u64,
}

/// Why peaks could not be paired.
#[derive(Clone, Copy, Debug, PartialEq, Eq, Structural)]
pub enum IndexError {
    /// The neighbour lists do not fit the peaks: their number differs from
    /// the number of peaks, a list is longer than `ANCHOR_POINTS`, or a
    /// list names a peak that does not exist.
    BadNeighbours,
}

/// The distance between two times.
pub open spec fn time_gap(a: usize, b: usize) -> int {
    if a >= b {
        a - b
    } else {
        b - a
    }
}

/// The fingerprint of anchor `anchor` paired with target `target`.
pub open spec fn landmark(peaks: Seq<Peak>, anchor: int, target: int) -> Fingerprint {
    Fingerprint {
        hash: packed(
            peaks[anchor].freq_hz,
            peaks[target].freq_hz,
            time_gap(peaks[anchor].time_ms, peaks[target].time_ms) as u64,
        ),
        time_ms: peaks[anchor].time_ms as u64,
    }
}

/// Whether `list` can be the neighbours of a peak: at most `ANCHOR_POINTS`
/// places, each of them the place of a peak.
pub open spec fn fits(list: Seq<usize>, peaks: int) -> bool {
    &&& list.len() <= ANCHOR_POINTS
    &&& forall|m: int| 0 <= m < list.len() ==> (#[trigger] list[m]) < peaks
}

/// Whether the neighbour lists fit the peaks.
pub open spec fn all_fit(neighbours: Seq<Vec<usize>>, peaks: int) -> bool {
    &&& neighbours.len() == peaks
    &&& forall|k: int| 0 <= k < neighbours.len() ==> fits((#[trigger] neighbours[k])@, peaks)
}

/// The fingerprints of anchor `anchor` with the first `m` of its
/// neighbours. The first neighbour is the anchor itself and is passed over.
pub open spec fn pairs_of(peaks: Seq<Peak>, list: Seq<usize>, anchor: int, m: int) -> Seq<
    Fingerprint,
>
    decreases m,
{
    if m <= 1 {
        Seq::empty()
    } else {
        pairs_of(peaks, list, anchor, m - 1).push(landmark(peaks, anchor, list[m - 1] as int))
    }
}

/// The fingerprints of the first `k` anchors, in the order in which they
/// are made.
pub open spec fn pairs_among(peaks: Seq<Peak>, neighbours: Seq<Vec<usize>>, k: int) -> Seq<
    Fingerprint,
>
    decreases k,
{
    if k <= 0 {
        Seq::empty()
    } else {
        pairs_among(peaks, neighbours, k - 1) + pairs_of(
            peaks,
            neighbours[k - 1]@,
            k - 1,
            neighbours[k - 1]@.len() as int,
        )
    }
}

/// The place of the first fingerprint with `hash`, or the length of `list`
/// where none has it.
pub open spec fn place_of_hash(list: Seq<Fingerprint>, hash: u64) -> int
    decreases list.len(),
{
    if list.len() == 0 {
        0
    } else if list[0].hash == hash {
        0
    } else {
        1 + place_of_hash(list.drop_first(), hash)
    }
}

/// Enters a fingerprint into a list that holds every hash once: where the
/// hash is held already, the new time takes the place of the old one.
pub open spec fn enter(list: Seq<Fingerprint>, fingerprint: Fingerprint) -> Seq<Fingerprint> {
    let place = place_of_hash(list, fingerprint.hash);
    if place < list.len() {
        list.update(place, fingerprint)
    } else {
        list.push(fingerprint)
    }
}

/// The fingerprints among the first `n` of `made`, merged by hash: each
/// hash once, at the place of its first fingerprint and with the time of
/// its last.
pub open spec fn merged_among(made: Seq<Fingerprint>, n: int) -> Seq<Fingerprint>
    decreases n,
{
    if n <= 0 {
        Seq::empty()
    } else {
        enter(merged_among(made, n - 1), made[n - 1])
    }
}

/// The fingerprints of `made`, merged by hash.
pub open spec fn merged(made: Seq<Fingerprint>) -> Seq<Fingerprint> {
    merged_among(made, made.len() as int)
}

/// The fingerprint set of a track: the fingerprints of all its anchors,
/// merged by hash.
pub open spec fn fingerprints_of(peaks: Seq<Peak>, neighbours: Seq<Vec<usize>>) -> Seq<
    Fingerprint,
> {
    merged(pairs_among(peaks, neighbours, peaks.len() as int))
}

/// Whether no two fingerprints of `list` share a hash.
pub open spec fn distinct_hashes(list: Seq<Fingerprint>) -> bool {
    forall|i: int, j: int|
        0 <= i < j < list.len() ==> (#[trigger] list[i]).hash != (#[trigger] list[j]).hash
}

proof fn lemma_place_of_hash(list: Seq<Fingerprint>, hash: u64, place: int)
    requires
        0 <= place <= list.len(),
        forall|j: int| 0 <= j < place ==> (#[trigger] list[j]).hash != hash,
        place < list.len() ==> list[place].hash == hash,
    ensures
        place_of_hash(list, hash) == place,
    decreases list.len(),
{
    if list.len() > 0 && place > 0 {
        let rest = list.drop_first();
        assert(list[0].hash != hash);
        assert forall|j: int| 0 <= j < place - 1 implies (#[trigger] rest[j]).hash != hash by {
            assert(rest[j] == list[j + 1]);
        }
        lemma_place_of_hash(rest, hash, place - 1);
    }
}

proof fn lemma_merged_ignores_rest(first: Seq<Fingerprint>, second: Seq<Fingerprint>, n: int)
    requires
        0 <= n <= first.len(),
        n <= second.len(),
        forall|i: int| 0 <= i < n ==> first[i] == second[i],
    ensures
        merged_among(first, n) == merged_among(second, n),
    decreases n,
{
    if n > 0 {
        lemma_merged_ignores_rest(first, second, n - 1);
    }
}

proof fn lemma_pairs_len(peaks: Seq<Peak>, neighbours: Seq<Vec<usize>>, k: int)
    requires
        0 <= k <= neighbours.len(),
        forall|i: int| 0 <= i < neighbours.len() ==> (#[trigger] neighbours[i])@.len() <= ANCHOR_POINTS,
    ensures
        pairs_among(peaks, neighbours, k).len() <= (ANCHOR_POINTS - 1) * k,
    decreases k,
{
    if k > 0 {
        lemma_pairs_len(peaks, neighbours, k - 1);
        let list = neighbours[k - 1]@;
        lemma_pairs_of_len(peaks, list, k - 1, list.len() as int);
    }
}

proof fn lemma_pairs_of_len(peaks: Seq<Peak>, list: Seq<usize>, anchor: int, m: int)
    requires
        0 <= m,
    ensures
        pairs_of(peaks, list, anchor, m).len() == if m <= 1 {
            0
        } else {
            m - 1
        },
    decreases m,
{
    if m > 1 {
        lemma_pairs_of_len(peaks, list, anchor, m - 1);
    }
}

proof fn lemma_place_in_bounds(list: Seq<Fingerprint>, hash: u64)
    ensures
        0 <= place_of_hash(list, hash) <= list.len(),
        place_of_hash(list, hash) < list.len() ==> list[place_of_hash(list, hash)].hash == hash,
        forall|j: int| 0 <= j < place_of_hash(list, hash) ==> (#[trigger] list[j]).hash != hash,
    decreases list.len(),
{
    if list.len() > 0 && list[0].hash != hash {
        let rest = list.drop_first();
        lemma_place_in_bounds(rest, hash);
        assert forall|j: int| 0 <= j < place_of_hash(list, hash) implies (#[trigger] list[j]).hash
            != hash by {
            if j > 0 {
                assert(list[j] == rest[j - 1]);
            }
        }
    }
}

proof fn lemma_merged_len(made: Seq<Fingerprint>, n: int)
    requires
        0 <= n,
    ensures
        merged_among(made, n).len() <= n,
    decreases n,
{
    if n > 0 {
        lemma_merged_len(made, n - 1);
        lemma_place_in_bounds(merged_among(made, n - 1), made[n - 1].hash);
    }
}

/// Whether `list` can be the neighbours of a peak among `peaks` peaks.
pub fn check_list(list: &Vec<usize>, peaks: usize) -> (good: bool)
    ensures
        good == fits(list@, peaks as int),
{
    if list.len() > ANCHOR_POINTS {
        return false;
    }
    let mut m: usize = 0;
    while m < list.len()
        invariant
            m <= list.len(),
            list.len() <= ANCHOR_POINTS,
            forall|j: int| 0 <= j < m ==> (#[trigger] list@[j]) < peaks,
        decreases list.len() - m,
    {
        if list[m] >= peaks {
            return false;
        }
        m = m + 1;
    }
    true
}

/// Whether the neighbour lists fit the peaks.
pub fn check_neighbours(neighbours: &Vec<Vec<usize>>, peaks: usize) -> (good: bool)
    ensures
        good == all_fit(neighbours@, peaks as int),
{
    if neighbours.len() != peaks {
        return false;
    }
    let mut k: usize = 0;
    while k < neighbours.len()
        invariant
            k <= neighbours.len(),
            neighbours.len() == peaks,
            forall|j: int| 0 <= j < k ==> fits((#[trigger] neighbours@[j])@, peaks as int),
        decreases neighbours.len() - k,
    {
        if !check_list(&neighbours[k], peaks) {
            return false;
        }
        k = k + 1;
    }
    true
}

/// Makes the fingerprint of anchor `anchor` paired with target `target`.
pub fn make_landmark(peaks: &Vec<Peak>, anchor: usize, target: usize) -> (fingerprint:
    Fingerprint)
    requires
        anchor < peaks.len(),
        target < peaks.len(),
    ensures
        fingerprint == landmark(peaks@, anchor as int, target as int),
{
    let own: Peak = peaks[anchor];
    let other: Peak = peaks[target];
    let gap: usize = if own.time_ms >= other.time_ms {
        own.time_ms - other.time_ms
    } else {
        other.time_ms - own.time_ms
    };
    Fingerprint {
        hash: hash_tuple(own.freq_hz, other.freq_hz, gap as u64),
        time_ms: own.time_ms as u64,
    }
}

/// Enters a fingerprint into a list that holds every hash once.
pub fn enter_fingerprint(list: &mut Vec<Fingerprint>, fingerprint: Fingerprint)
    ensures
        final(list)@ == enter(old(list)@, fingerprint),
{
    let mut i: usize = 0;
    while i < list.len()
        invariant
            i <= list.len(),
            list@ == old(list)@,
            forall|j: int| 0 <= j < i ==> (#[trigger] list@[j]).hash != fingerprint.hash,
        decreases list.len() - i,
    {
        if list[i].hash == fingerprint.hash {
            proof {
                lemma_place_of_hash(list@, fingerprint.hash, i as int);
            }
            list.set(i, fingerprint);
            return ;
        }
        i = i + 1;
    }
    proof {
        lemma_place_of_hash(list@, fingerprint.hash, i as int);
    }
    list.push(fingerprint);
}

/// Pairs every peak with its neighbours and merges the fingerprints by
/// hash. `neighbours[k]` holds the places of the peaks nearest to peak `k`,
/// nearest first, peak `k` itself at the head.
pub fn pair_landmarks(peaks: &Vec<Peak>, neighbours: &Vec<Vec<usize>>) -> (result: Result<
    Vec<Fingerprint>,
    IndexError,
>)
    ensures
        match result {
            Ok(list) => {
                &&& all_fit(neighbours@, peaks.len() as int)
                &&& list@ == fingerprints_of(peaks@, neighbours@)
                &&& list.len() <= (ANCHOR_POINTS - 1) * peaks.len()
            },
            Err(IndexError::BadNeighbours) => !all_fit(neighbours@, peaks.len() as int),
        },
{
    if !check_neighbours(neighbours, peaks.len()) {
        return Err(IndexError::BadNeighbours);
    }
    let mut list: Vec<Fingerprint> = Vec::new();
    let mut k: usize = 0;
    while k < peaks.len()
        invariant
            k <= peaks.len(),
            all_fit(neighbours@, peaks.len() as int),
            list@ == merged(pairs_among(peaks@, neighbours@, k as int)),
        decreases peaks.len() - k,
    {
        let ghost done = pairs_among(peaks@, neighbours@, k as int);
        let near: &Vec<usize> = &neighbours[k];
        assert(fits(near@, peaks.len() as int));
        let mut m: usize = 1;
        assert(done + pairs_of(peaks@, near@, k as int, 1) =~= done);
        while m < near.len()
            invariant
                1 <= m,
                m == 1 || m <= near.len(),
                k < peaks.len(),
                fits(near@, peaks.len() as int),
                list@ == merged(done + pairs_of(peaks@, near@, k as int, m as int)),
            decreases near.len() - m,
        {
            let ghost made = done + pairs_of(peaks@, near@, k as int, m as int);
            let ghost more = done + pairs_of(peaks@, near@, k as int, m + 1);
            let fingerprint: Fingerprint = make_landmark(peaks, k, near[m]);
            enter_fingerprint(&mut list, fingerprint);
            proof {
                assert(more =~= made.push(fingerprint));
                lemma_merged_ignores_rest(more, made, made.len() as int);
            }
            m = m + 1;
        }
        proof {
            if near.len() <= 1 {
                assert(pairs_of(peaks@, near@, k as int, near@.len() as int) =~= pairs_of(
                    peaks@,
                    near@,
                    k as int,
                    1,
                ));
            }
            assert(near@ == neighbours@[k as int]@);
            assert(pairs_among(peaks@, neighbours@, k + 1) == done + pairs_of(
                peaks@,
                near@,
                k as int,
                near@.len() as int,
            ));
        }
        k = k + 1;
    }
    proof {
        let made = pairs_among(peaks@, neighbours@, peaks.len() as int);
        lemma_pairs_len(peaks@, neighbours@, peaks.len() as int);
        lemma_merged_len(made, made.len() as int);
    }
    Ok(list)
}


/// Whether `list` holds a fingerprint with `hash`.
pub open spec fn holds_hash(list: Seq<Fingerprint>, hash: u64) -> bool {
    exists|k: int| 0 <= k < list.len() && (#[trigger] list[k]).hash == hash
}

/// Whether `fingerprint` is, among the first `n` of `made`, the last one
/// with its hash.
pub open spec fn is_last_with_hash(made: Seq<Fingerprint>, n: int, fingerprint: Fingerprint) -> bool {
    exists|i: int|
        0 <= i < n && #[trigger] made[i] == fingerprint && forall|j: int|
            i < j < n ==> (#[trigger] made[j]).hash != fingerprint.hash
}

/// What merging by hash keeps: every hash that was made, each once, with
/// the time of the last fingerprint made for it.
pub proof fn lemma_merged(made: Seq<Fingerprint>, n: int)
    requires
        0 <= n <= made.len(),
    ensures
        distinct_hashes(merged_among(made, n)),
        merged_among(made, n).len() <= n,
        forall|i: int| 0 <= i < n ==> holds_hash(merged_among(made, n), (#[trigger] made[i]).hash),
        forall|k: int|
            0 <= k < merged_among(made, n).len() ==> is_last_with_hash(
                made,
                n,
                #[trigger] merged_among(made, n)[k],
            ),
    decreases n,
{
    if n > 0 {
        lemma_merged(made, n - 1);
        let before = merged_among(made, n - 1);
        let after = merged_among(made, n);
        let new = made[n - 1];
        let place = place_of_hash(before, new.hash);
        lemma_place_in_bounds(before, new.hash);
        assert forall|k: int| 0 <= k < after.len() implies (#[trigger] after[k]).hash == (if k
            < before.len() {
            before[k].hash
        } else {
            new.hash
        }) by {}
        assert forall|i: int, j: int| 0 <= i < j < after.len() implies (#[trigger] after[i]).hash != (
        #[trigger] after[j]).hash by {
            if j < before.len() {
                assert(before[i].hash != before[j].hash);
            } else {
                assert(before[i].hash != new.hash);
            }
        }
        assert forall|i: int| 0 <= i < n implies holds_hash(after, (#[trigger] made[i]).hash) by {
            if i < n - 1 {
                assert(holds_hash(before, made[i].hash));
                let k = choose|k: int|
                    0 <= k < before.len() && (#[trigger] before[k]).hash == made[i].hash;
                assert(after[k].hash == made[i].hash);
            } else if place < before.len() {
                assert(after[place].hash == new.hash);
            } else {
                assert(after[before.len() as int].hash == new.hash);
            }
        }
        assert forall|k: int| 0 <= k < after.len() implies is_last_with_hash(
            made,
            n,
            #[trigger] after[k],
        ) by {
            if k < before.len() && k != place {
                assert(after[k] == before[k]);
                assert(is_last_with_hash(made, n - 1, before[k]));
                let i = choose|i: int|
                    0 <= i < n - 1 && #[trigger] made[i] == before[k] && forall|j: int|
                        i < j < n - 1 ==> (#[trigger] made[j]).hash != before[k].hash;
                if place < before.len() {
                    if k < place {
                        assert(before[k].hash != before[place].hash);
                    } else {
                        assert(before[place].hash != before[k].hash);
                    }
                }
                assert(made[n - 1].hash != before[k].hash);
                assert(made[i] == after[k]);
            } else {
                assert(after[k] == new);
                assert(made[n - 1] == after[k]);
            }
        }
    }
}

/// The meaning of a fingerprint set: it holds every hash that some pair of
/// peaks gives, each once, with the time of the last anchor that gave it,
/// and no more than `ANCHOR_POINTS - 1` fingerprints for each peak.
pub proof fn lemma_fingerprints_of(peaks: Seq<Peak>, neighbours: Seq<Vec<usize>>)
    requires
        all_fit(neighbours, peaks.len() as int),
    ensures
        distinct_hashes(fingerprints_of(peaks, neighbours)),
        fingerprints_of(peaks, neighbours).len() <= (ANCHOR_POINTS - 1) * peaks.len(),
        forall|k: int|
            0 <= k < fingerprints_of(peaks, neighbours).len() ==> is_last_with_hash(
                pairs_among(peaks, neighbours, peaks.len() as int),
                pairs_among(peaks, neighbours, peaks.len() as int).len() as int,
                #[trigger] fingerprints_of(peaks, neighbours)[k],
            ),
        peaks.len() == 0 ==> fingerprints_of(peaks, neighbours).len() == 0,
{
    let made = pairs_among(peaks, neighbours, peaks.len() as int);
    lemma_merged(made, made.len() as int);
    lemma_pairs_len(peaks, neighbours, peaks.len() as int);
}


} // verus!
