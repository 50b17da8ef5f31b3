//! Scoring and ranking of candidate tracks.
//!
//! A query is a list of fingerprints. Looking each of them up in the
//! inverted index gives a stream of hits, one for every posting found. A
//! track is scored by how many catalog timestamps gathered a full anchor and
//! by how far its hits keep the time deltas of the query.

use vstd::prelude::*;
use crate::codec::{posting_views, Posting};
use crate::config::{ANCHOR_POINTS, COHERENCE_TOLERANCE_MS, MAX_RESULTS, MIN_ANCHOR_COUNT};
use crate::landmarks::Fingerprint;

verus! {

/// One posting found for one query fingerprint.
#[derive(Clone, Debug)]
pub struct Hit {
    /// The fingerprint hash that the query and the catalog share.
    pub hash: u64,
    /// Time of the fingerprint in the query, in milliseconds.
    pub query_time: u64,
    /// Time of the fingerprint in the catalog track, in milliseconds.
    pub catalog_time: u64,
    /// The catalog track that the posting names.
    pub track_id: String,
}

/// What a hit says: the hash shared, the two times, and the catalog track.
pub struct Landing {
    pub hash: u64,
    pub query_time: u64,
    pub catalog_time: u64,
    pub track: Seq<char>,
}

impl View for Hit {
    type V = Landing;

    open spec fn view(&self) -> Landing {
        Landing {
            hash: self.hash,
            query_time: self.query_time,
            catalog_time: self.catalog_time,
            track: self.track_id@,
        }
    }
}

/// The views of a list of hits.
pub open spec fn landings(hits: Seq<Hit>) -> Seq<Landing> {
    hits.map_values(|h: Hit| h@)
}

/// The hits of one query fingerprint: one for each entry of the posting
/// list found under its hash, in the order of the list.
pub open spec fn landings_on(fingerprint: Fingerprint, postings: Seq<(u64, Seq<char>)>) -> Seq<
    Landing,
> {
    Seq::new(
        postings.len(),
        |k: int|
            Landing {
                hash: fingerprint.hash,
                query_time: fingerprint.time_ms,
                catalog_time: postings[k].0,
                track: postings[k].1,
            },
    )
}

/// Appends to `hits` the hits of `fingerprint` on the posting list found
/// under its hash.
pub fn pair_hits(fingerprint: Fingerprint, postings: &Vec<Posting>, hits: &mut Vec<Hit>)
    ensures
        landings(final(hits)@) == landings(old(hits)@) + landings_on(
            fingerprint,
            posting_views(postings@),
        ),
{
    let mut k: usize = 0;
    while k < postings.len()
        invariant
            k <= postings.len(),
            landings(hits@) == landings(old(hits)@) + landings_on(
                fingerprint,
                posting_views(postings@),
            ).take(k as int),
        decreases postings.len() - k,
    {
        let ghost before = landings(hits@);
        let hit = Hit {
            hash: fingerprint.hash,
            query_time: fingerprint.time_ms,
            catalog_time: postings[k].time_ms,
            track_id: postings[k].track_id.clone(),
        };
        hits.push(hit);
        proof {
            let all = landings_on(fingerprint, posting_views(postings@));
            assert(hit@ == all[k as int]);
            assert(landings(hits@) =~= before.push(hit@));
            assert(all.take(k + 1) =~= all.take(k as int).push(all[k as int]));
        }
        k = k + 1;
    }
    proof {
        let all = landings_on(fingerprint, posting_views(postings@));
        assert(all.take(postings.len() as int) =~= all);
    }
}

/// Whether `hit` names `track` at catalog time `time`.
pub open spec fn lands_on(hit: Landing, track: Seq<char>, time: u64) -> bool {
    hit.track == track && hit.catalog_time == time
}

/// How many of the first `n` hits name `track` at catalog time `time`.
pub open spec fn landed(hits: Seq<Landing>, track: Seq<char>, time: u64, n: int) -> nat
    decreases n,
{
    if n <= 0 {
        0
    } else {
        landed(hits, track, time, n - 1) + if lands_on(hits[n - 1], track, time) {
            1nat
        } else {
            0nat
        }
    }
}

/// Whether catalog time `time` of `track` gathered a full anchor: exactly
/// one hit for each neighbour of some peak.
pub open spec fn is_full_anchor(hits: Seq<Landing>, track: Seq<char>, time: u64) -> bool {
    landed(hits, track, time, hits.len() as int) == ANCHOR_POINTS - 1
}

/// The catalog times of `track` that gathered a full anchor.
pub open spec fn full_anchors(hits: Seq<Landing>, track: Seq<char>) -> Set<u64> {
    Set::new(|time: u64| is_full_anchor(hits, track, time))
}

/// The anchor count of `track`: the number of its catalog times that
/// gathered a full anchor.
pub open spec fn anchor_count(hits: Seq<Landing>, track: Seq<char>) -> nat {
    full_anchors(hits, track).len()
}

/// Whether one of the first `n` hits names `track` at catalog time `time`.
pub open spec fn occurs_before(hits: Seq<Landing>, track: Seq<char>, time: u64, n: int) -> bool {
    exists|j: int| 0 <= j < n && j < hits.len() && lands_on(#[trigger] hits[j], track, time)
}

/// The full anchors of `track` that show among the first `n` hits.
pub open spec fn full_anchors_before(hits: Seq<Landing>, track: Seq<char>, n: int) -> Set<u64> {
    Set::new(|time: u64| is_full_anchor(hits, track, time) && occurs_before(hits, track, time, n))
}

/// No more hits land on a time than there are hits, and a time on which
/// some hit landed occurs among the hits.
pub proof fn lemma_landed_bounds(hits: Seq<Landing>, track: Seq<char>, time: u64, n: int)
    requires
        0 <= n <= hits.len(),
    ensures
        landed(hits, track, time, n) <= n,
        landed(hits, track, time, n) > 0 ==> occurs_before(hits, track, time, n),
    decreases n,
{
    if n > 0 {
        lemma_landed_bounds(hits, track, time, n - 1);
        if lands_on(hits[n - 1], track, time) {
            assert(occurs_before(hits, track, time, n));
        } else if landed(hits, track, time, n - 1) > 0 {
            let j = choose|j: int|
                0 <= j < n - 1 && j < hits.len() && lands_on(#[trigger] hits[j], track, time);
            assert(lands_on(hits[j], track, time));
            assert(occurs_before(hits, track, time, n));
        }
    }
}

/// Whether no two hits share hash, track and catalog time. The hits of a
/// query whose hashes differ, on an index that holds every posting once,
/// are of this kind.
pub open spec fn distinct_landings(hits: Seq<Landing>) -> bool {
    forall|i: int, j: int|
        0 <= i < j < hits.len() ==> !((#[trigger] hits[i]).hash == (#[trigger] hits[j]).hash
            && hits[i].track == hits[j].track && hits[i].catalog_time == hits[j].catalog_time)
}

/// The query hashes that landed on catalog time `time` of `track`, among
/// the first `n` hits.
pub open spec fn hashes_landed(hits: Seq<Landing>, track: Seq<char>, time: u64, n: int) -> Set<
    u64,
> {
    Set::new(
        |hash: u64|
            exists|j: int|
                0 <= j < n && j < hits.len() && lands_on(#[trigger] hits[j], track, time)
                    && hits[j].hash == hash,
    )
}

/// Where no two hits share hash, track and catalog time, the hits that
/// landed on a time are as many as the distinct query hashes that landed
/// on it.
pub proof fn lemma_landed_counts_hashes(hits: Seq<Landing>, track: Seq<char>, time: u64, n: int)
    requires
        distinct_landings(hits),
        0 <= n <= hits.len(),
    ensures
        hashes_landed(hits, track, time, n).finite(),
        landed(hits, track, time, n) == hashes_landed(hits, track, time, n).len(),
    decreases n,
{
    let now = hashes_landed(hits, track, time, n);
    if n == 0 {
        assert(now =~= Set::<u64>::empty());
    } else {
        lemma_landed_counts_hashes(hits, track, time, n - 1);
        let before = hashes_landed(hits, track, time, n - 1);
        let last = hits[n - 1];
        if lands_on(last, track, time) {
            assert(!before.contains(last.hash)) by {
                if before.contains(last.hash) {
                    let j = choose|j: int|
                        0 <= j < n - 1 && j < hits.len() && lands_on(
                            #[trigger] hits[j],
                            track,
                            time,
                        ) && hits[j].hash == last.hash;
                    assert(hits[j].hash == hits[n - 1].hash);
                }
            }
            assert(now =~= before.insert(last.hash)) by {
                assert forall|hash: u64| now.contains(hash) <==> before.insert(last.hash).contains(
                    hash,
                ) by {
                    if now.contains(hash) {
                        let j = choose|j: int|
                            0 <= j < n && j < hits.len() && lands_on(#[trigger] hits[j], track, time)
                                && hits[j].hash == hash;
                        if j < n - 1 {
                            assert(before.contains(hash));
                        }
                    }
                    if before.contains(hash) {
                        let j = choose|j: int|
                            0 <= j < n - 1 && j < hits.len() && lands_on(
                                #[trigger] hits[j],
                                track,
                                time,
                            ) && hits[j].hash == hash;
                        assert(lands_on(hits[j], track, time) && hits[j].hash == hash);
                    }
                    if hash == last.hash {
                        assert(lands_on(hits[n - 1], track, time) && hits[n - 1].hash == hash);
                    }
                }
            }
        } else {
            assert(now =~= before) by {
                assert forall|hash: u64| now.contains(hash) <==> before.contains(hash) by {
                    if now.contains(hash) {
                        let j = choose|j: int|
                            0 <= j < n && j < hits.len() && lands_on(#[trigger] hits[j], track, time)
                                && hits[j].hash == hash;
                        assert(j < n - 1);
                        assert(before.contains(hash));
                    }
                    if before.contains(hash) {
                        let j = choose|j: int|
                            0 <= j < n - 1 && j < hits.len() && lands_on(
                                #[trigger] hits[j],
                                track,
                                time,
                            ) && hits[j].hash == hash;
                        assert(lands_on(hits[j], track, time) && hits[j].hash == hash);
                    }
                }
            }
        }
    }
}

/// Counts the hits that name `track` at catalog time `time`.
pub fn count_landed(hits: &Vec<Hit>, track: &String, time: u64) -> (count: usize)
    ensures
        count == landed(landings(hits@), track@, time, hits.len() as int),
{
    let mut count: usize = 0;
    let mut i: usize = 0;
    while i < hits.len()
        invariant
            i <= hits.len(),
            count <= i,
            count == landed(landings(hits@), track@, time, i as int),
        decreases hits.len() - i,
    {
        if hits[i].catalog_time == time && hits[i].track_id == *track {
            count = count + 1;
        }
        i = i + 1;
    }
    count
}

/// Whether one of the first `end` hits names `track` at catalog time `time`.
pub fn seen_before(hits: &Vec<Hit>, track: &String, time: u64, end: usize) -> (seen: bool)
    requires
        end <= hits.len(),
    ensures
        seen == occurs_before(landings(hits@), track@, time, end as int),
{
    let ghost all = landings(hits@);
    let mut j: usize = 0;
    while j < end
        invariant
            j <= end <= hits.len(),
            all == landings(hits@),
            !occurs_before(all, track@, time, j as int),
        decreases end - j,
    {
        if hits[j].catalog_time == time && hits[j].track_id == *track {
            assert(lands_on(all[j as int], track@, time));
            return true;
        }
        assert(!occurs_before(all, track@, time, j + 1)) by {
            if occurs_before(all, track@, time, j + 1) {
                let k = choose|k: int|
                    0 <= k < j + 1 && k < all.len() && lands_on(#[trigger] all[k], track@, time);
                assert(k < j);
                assert(lands_on(all[k], track@, time));
            }
        }
        j = j + 1;
    }
    false
}

proof fn lemma_occurs_one_later(hits: Seq<Landing>, track: Seq<char>, time: u64, n: int)
    requires
        0 <= n < hits.len(),
    ensures
        occurs_before(hits, track, time, n + 1) <==> (occurs_before(hits, track, time, n)
            || lands_on(hits[n], track, time)),
{
    if occurs_before(hits, track, time, n + 1) {
        let k = choose|k: int|
            0 <= k < n + 1 && k < hits.len() && lands_on(#[trigger] hits[k], track, time);
        if k < n {
            assert(occurs_before(hits, track, time, n));
        }
    }
    if occurs_before(hits, track, time, n) {
        let k = choose|k: int|
            0 <= k < n && k < hits.len() && lands_on(#[trigger] hits[k], track, time);
        assert(lands_on(hits[k], track, time));
    }
    if lands_on(hits[n], track, time) {
        assert(occurs_before(hits, track, time, n + 1));
    }
}

/// Computes the anchor count of `track`.
pub fn count_anchors(hits: &Vec<Hit>, track: &String) -> (count: usize)
    ensures
        count == anchor_count(landings(hits@), track@),
        count <= hits.len(),
{
    let ghost all = landings(hits@);
    let mut count: usize = 0;
    let mut i: usize = 0;
    proof {
        assert(full_anchors_before(all, track@, 0) =~= Set::<u64>::empty());
    }
    while i < hits.len()
        invariant
            i <= hits.len(),
            all == landings(hits@),
            count <= i,
            full_anchors_before(all, track@, i as int).finite(),
            count == full_anchors_before(all, track@, i as int).len(),
        decreases hits.len() - i,
    {
        let ghost before = full_anchors_before(all, track@, i as int);
        let ghost after = full_anchors_before(all, track@, i + 1);
        let time: u64 = hits[i].catalog_time;
        let mut grew: bool = false;
        if hits[i].track_id == *track {
            let repeated: bool = seen_before(hits, track, time, i);
            if !repeated {
                let total: usize = count_landed(hits, track, time);
                if total == ANCHOR_POINTS - 1 {
                    grew = true;
                }
            }
        }
        proof {
            assert forall|t: u64|
                occurs_before(all, track@, t, i + 1) <==> (occurs_before(all, track@, t, i as int)
                    || lands_on(all[i as int], track@, t)) by {
                lemma_occurs_one_later(all, track@, t, i as int);
            }
            if grew {
                assert(after =~= before.insert(time));
                assert(!before.contains(time));
            } else {
                assert(after =~= before);
            }
        }
        if grew {
            count = count + 1;
        }
        i = i + 1;
    }
    proof {
        assert(full_anchors_before(all, track@, hits.len() as int) =~= full_anchors(all, track@))
            by {
            assert forall|t: u64| is_full_anchor(all, track@, t) implies occurs_before(
                all,
                track@,
                t,
                hits.len() as int,
            ) by {
                lemma_landed_bounds(all, track@, t, hits.len() as int);
            }
        }
    }
    count
}

/// The times of `track`, in the order of the hits. Every hit that names
/// `track` gives its catalog time. The sentinel stands for the query itself:
/// its timeline also receives the query time of every hit, whatever track
/// the hit names. Only the first `n` hits are read.
pub open spec fn timeline(hits: Seq<Landing>, track: Seq<char>, sentinel: Seq<char>, n: int) -> Seq<
    u64,
>
    decreases n,
{
    if n <= 0 {
        Seq::empty()
    } else {
        let earlier = timeline(hits, track, sentinel, n - 1);
        let hit = hits[n - 1];
        let own = if hit.track == track {
            earlier.push(hit.catalog_time)
        } else {
            earlier
        };
        if track == sentinel {
            own.push(hit.query_time)
        } else {
            own
        }
    }
}

/// The distance between two times.
pub open spec fn gap(a: u64, b: u64) -> int {
    if a >= b {
        a - b
    } else {
        b - a
    }
}

/// Whether both timelines have entries `k` and `k + 1` and the two time
/// deltas between them differ by less than the tolerance.
pub open spec fn window_agrees(own: Seq<u64>, query: Seq<u64>, k: int) -> bool {
    &&& 0 <= k
    &&& k + 1 < own.len()
    &&& k + 1 < query.len()
    &&& -COHERENCE_TOLERANCE_MS < gap(own[k], own[k + 1]) - gap(query[k], query[k + 1])
        < COHERENCE_TOLERANCE_MS
}

/// How many of the windows `0 .. n` agree.
pub open spec fn agreeing_windows(own: Seq<u64>, query: Seq<u64>, n: int) -> nat
    decreases n,
{
    if n <= 0 {
        0
    } else {
        agreeing_windows(own, query, n - 1) + if window_agrees(own, query, n - 1) {
            1nat
        } else {
            0nat
        }
    }
}

/// The coherence of two timelines paired by position: the number of
/// adjacent pairs whose time deltas agree.
pub open spec fn coherence(own: Seq<u64>, query: Seq<u64>) -> nat {
    let paired = if own.len() <= query.len() {
        own.len()
    } else {
        query.len()
    };
    agreeing_windows(own, query, paired - 1)
}

/// Collects the timeline of `track`.
pub fn collect_timeline(hits: &Vec<Hit>, track: &String, sentinel: &String) -> (times: Vec<u64>)
    ensures
        times@ == timeline(landings(hits@), track@, sentinel@, hits.len() as int),
{
    let is_sentinel: bool = *track == *sentinel;
    let mut times: Vec<u64> = Vec::new();
    let mut i: usize = 0;
    while i < hits.len()
        invariant
            i <= hits.len(),
            is_sentinel == (track@ == sentinel@),
            times@ == timeline(landings(hits@), track@, sentinel@, i as int),
        decreases hits.len() - i,
    {
        if hits[i].track_id == *track {
            times.push(hits[i].catalog_time);
        }
        if is_sentinel {
            times.push(hits[i].query_time);
        }
        i = i + 1;
    }
    times
}

/// Computes the coherence of two timelines.
pub fn count_coherence(own: &Vec<u64>, query: &Vec<u64>) -> (count: usize)
    ensures
        count == coherence(own@, query@),
        count <= own.len(),
{
    let paired: usize = if own.len() <= query.len() {
        own.len()
    } else {
        query.len()
    };
    let mut count: usize = 0;
    let mut k: usize = 0;
    while k + 1 < paired
        invariant
            paired <= own.len(),
            paired <= query.len(),
            k <= paired,
            paired == 0 ==> k == 0,
            paired > 0 ==> k <= paired - 1,
            count <= k,
            count == agreeing_windows(own@, query@, k as int),
        decreases paired - k,
    {
        let d_own: u64 = if own[k] >= own[k + 1] {
            own[k] - own[k + 1]
        } else {
            own[k + 1] - own[k]
        };
        let d_query: u64 = if query[k] >= query[k + 1] {
            query[k] - query[k + 1]
        } else {
            query[k + 1] - query[k]
        };
        let apart: u64 = if d_own >= d_query {
            d_own - d_query
        } else {
            d_query - d_own
        };
        if apart < COHERENCE_TOLERANCE_MS {
            count = count + 1;
        }
        k = k + 1;
    }
    count
}

/// The two scores of a candidate track.
pub struct Score {
    /// The track's identifier.
    pub track: Seq<char>,
    /// Its coherence with the query.
    pub time_diff: nat,
    /// Its anchor count.
    pub count: nat,
}

/// A track that passed the anchor filter, with its scores.
#[derive(Clone, Debug)]
pub struct Candidate {
    pub track_id: String,
    pub time_diff: usize,
    pub count: usize,
}

impl View for Candidate {
    type V = Score;

    open spec fn view(&self) -> Score {
        Score { track: self.track_id@, time_diff: self.time_diff as nat, count: self.count as nat }
    }
}

/// The scores of `track` against the query that `sentinel` stands for.
pub open spec fn score_of(hits: Seq<Landing>, track: Seq<char>, sentinel: Seq<char>) -> Score {
    Score {
        track,
        time_diff: coherence(
            timeline(hits, track, sentinel, hits.len() as int),
            timeline(hits, sentinel, sentinel, hits.len() as int),
        ),
        count: anchor_count(hits, track),
    }
}

/// Whether hit `i` is the first to name its track.
pub open spec fn is_new_track(hits: Seq<Landing>, i: int) -> bool {
    forall|j: int| 0 <= j < i ==> (#[trigger] hits[j]).track != hits[i].track
}

/// The candidates met among the first `n` hits: every track, in the order
/// in which the hits first name it, whose anchor count over all hits reaches
/// the minimum.
pub open spec fn candidates_among(hits: Seq<Landing>, sentinel: Seq<char>, n: int) -> Seq<Score>
    decreases n,
{
    if n <= 0 {
        Seq::empty()
    } else {
        let earlier = candidates_among(hits, sentinel, n - 1);
        let track = hits[n - 1].track;
        if is_new_track(hits, n - 1) && anchor_count(hits, track) >= MIN_ANCHOR_COUNT {
            earlier.push(score_of(hits, track, sentinel))
        } else {
            earlier
        }
    }
}

/// The candidates of a query.
pub open spec fn candidates(hits: Seq<Landing>, sentinel: Seq<char>) -> Seq<Score> {
    candidates_among(hits, sentinel, hits.len() as int)
}

/// The views of a list of candidates.
pub open spec fn scores(list: Seq<Candidate>) -> Seq<Score> {
    list.map_values(|c: Candidate| c@)
}

/// Whether `score` is the score of the track that hit `i` is the first to
/// name, and the track reaches the minimum anchor count.
pub open spec fn is_candidate_at(hits: Seq<Landing>, sentinel: Seq<char>, score: Score, i: int)
    -> bool {
    &&& 0 <= i < hits.len()
    &&& is_new_track(hits, i)
    &&& score == score_of(hits, hits[i].track, sentinel)
    &&& score.count >= MIN_ANCHOR_COUNT
}

/// Whether `score` is the score of a track that one of the first `n` hits
/// is the first to name and that reaches the minimum anchor count.
pub open spec fn is_candidate(hits: Seq<Landing>, sentinel: Seq<char>, score: Score, n: int)
    -> bool {
    exists|i: int| 0 <= i < n && is_candidate_at(hits, sentinel, score, i)
}

/// Whether `list` holds a score of `track`.
pub open spec fn holds_track(list: Seq<Score>, track: Seq<char>) -> bool {
    exists|k: int| 0 <= k < list.len() && (#[trigger] list[k]).track == track
}

/// What the candidates are: each is the score of a track that the hits
/// name, reaches the minimum anchor count, and stands for a track of its
/// own; and every track that the hits name and that reaches the minimum is
/// among them.
pub proof fn lemma_candidates(hits: Seq<Landing>, sentinel: Seq<char>, n: int)
    requires
        0 <= n <= hits.len(),
    ensures
        candidates_among(hits, sentinel, n).len() <= n,
        forall|k: int|
            0 <= k < candidates_among(hits, sentinel, n).len() ==> is_candidate(
                hits,
                sentinel,
                #[trigger] candidates_among(hits, sentinel, n)[k],
                n,
            ),
        forall|a: int, b: int|
            0 <= a < b < candidates_among(hits, sentinel, n).len() ==> (#[trigger] candidates_among(
                hits,
                sentinel,
                n,
            )[a]).track != (#[trigger] candidates_among(hits, sentinel, n)[b]).track,
        forall|i: int|
            0 <= i < n && anchor_count(hits, (#[trigger] hits[i]).track) >= MIN_ANCHOR_COUNT
                ==> holds_track(candidates_among(hits, sentinel, n), hits[i].track),
    decreases n,
{
    if n > 0 {
        lemma_candidates(hits, sentinel, n - 1);
        let earlier = candidates_among(hits, sentinel, n - 1);
        let all = candidates_among(hits, sentinel, n);
        let track = hits[n - 1].track;
        let grows = is_new_track(hits, n - 1) && anchor_count(hits, track) >= MIN_ANCHOR_COUNT;
        assert forall|k: int| 0 <= k < all.len() implies is_candidate(
            hits,
            sentinel,
            #[trigger] all[k],
            n,
        ) by {
            if k < earlier.len() {
                assert(all[k] == earlier[k]);
                assert(is_candidate(hits, sentinel, earlier[k], n - 1));
                let i = choose|i: int|
                    0 <= i < n - 1 && is_candidate_at(hits, sentinel, earlier[k], i);
                assert(0 <= i < n && is_candidate_at(hits, sentinel, all[k], i));
            } else {
                assert(is_candidate_at(hits, sentinel, all[k], n - 1));
            }
        }
        assert forall|a: int, b: int| 0 <= a < b < all.len() implies (#[trigger] all[a]).track != (
        #[trigger] all[b]).track by {
            assert(all[a] == earlier[a]);
            if b < earlier.len() {
                assert(all[b] == earlier[b]);
            } else {
                assert(is_candidate(hits, sentinel, earlier[a], n - 1));
                let i = choose|i: int|
                    0 <= i < n - 1 && is_candidate_at(hits, sentinel, earlier[a], i);
                assert(hits[i].track != hits[n - 1].track);
            }
        }
        assert forall|i: int|
            0 <= i < n && anchor_count(hits, (#[trigger] hits[i]).track)
                >= MIN_ANCHOR_COUNT implies holds_track(all, hits[i].track) by {
            if i < n - 1 {
                assert(holds_track(earlier, hits[i].track));
                let k = choose|k: int|
                    0 <= k < earlier.len() && (#[trigger] earlier[k]).track == hits[i].track;
                assert(all[k] == earlier[k]);
            } else if grows {
                assert(all[all.len() - 1].track == hits[i].track);
            } else {
                let j = choose|j: int|
                    0 <= j < n - 1 && (#[trigger] hits[j]).track == hits[n - 1].track;
                assert(holds_track(earlier, hits[j].track));
                let k = choose|k: int|
                    0 <= k < earlier.len() && (#[trigger] earlier[k]).track == hits[j].track;
                assert(all[k] == earlier[k]);
            }
        }
    }
}

/// Whether hit `i` is the first to name its track.
pub fn names_new_track(hits: &Vec<Hit>, i: usize) -> (fresh: bool)
    requires
        i < hits.len(),
    ensures
        fresh == is_new_track(landings(hits@), i as int),
{
    let mut j: usize = 0;
    while j < i
        invariant
            j <= i < hits.len(),
            forall|k: int|
                0 <= k < j ==> (#[trigger] landings(hits@)[k]).track != landings(
                    hits@,
                )[i as int].track,
        decreases i - j,
    {
        if hits[j].track_id == hits[i].track_id {
            assert(landings(hits@)[j as int].track == landings(hits@)[i as int].track);
            return false;
        }
        j = j + 1;
    }
    true
}

/// Scores every track that the hits name and keeps those whose anchor count
/// reaches the minimum.
pub fn score_tracks(hits: &Vec<Hit>, sentinel: &String) -> (list: Vec<Candidate>)
    ensures
        scores(list@) == candidates(landings(hits@), sentinel@),
{
    let query_times: Vec<u64> = collect_timeline(hits, sentinel, sentinel);
    let mut list: Vec<Candidate> = Vec::new();
    let mut i: usize = 0;
    while i < hits.len()
        invariant
            i <= hits.len(),
            query_times@ == timeline(landings(hits@), sentinel@, sentinel@, hits.len() as int),
            scores(list@) == candidates_among(landings(hits@), sentinel@, i as int),
        decreases hits.len() - i,
    {
        if names_new_track(hits, i) {
            let count: usize = count_anchors(hits, &hits[i].track_id);
            if count >= MIN_ANCHOR_COUNT {
                let own_times: Vec<u64> = collect_timeline(hits, &hits[i].track_id, sentinel);
                let time_diff: usize = count_coherence(&own_times, &query_times);
                let candidate = Candidate { track_id: hits[i].track_id.clone(), time_diff, count };
                proof {
                    assert(candidate@ == score_of(
                        landings(hits@),
                        landings(hits@)[i as int].track,
                        sentinel@,
                    ));
                    assert(scores(list@.push(candidate)) =~= scores(list@).push(candidate@));
                }
                list.push(candidate);
            }
        }
        i = i + 1;
    }
    list
}

/// Whether candidate `i` comes before candidate `j` in the result: by
/// greater coherence, then by greater anchor count, then by later place in
/// the list.
pub open spec fn outranks(list: Seq<Score>, i: int, j: int) -> bool {
    ||| list[i].time_diff > list[j].time_diff
    ||| list[i].time_diff == list[j].time_diff && list[i].count > list[j].count
    ||| list[i].time_diff == list[j].time_diff && list[i].count == list[j].count && i > j
}

/// Whether `picks` holds the places of the best `limit` candidates of
/// `list`, best first: every pick outranks the picks after it and every
/// candidate left out.
pub open spec fn is_top(list: Seq<Score>, picks: Seq<int>, limit: nat) -> bool {
    &&& picks.len() == if limit <= list.len() {
        limit
    } else {
        list.len()
    }
    &&& forall|a: int| 0 <= a < picks.len() ==> 0 <= #[trigger] picks[a] < list.len()
    &&& forall|a: int, b: int| 0 <= a < b < picks.len() ==> outranks(list, picks[a], picks[b])
    &&& forall|a: int, j: int|
        0 <= a < picks.len() && 0 <= j < list.len() && !picks.contains(j) ==> #[trigger] outranks(
            list,
            picks[a],
            j,
        )
}

/// The candidates at the places `picks`.
pub open spec fn chosen(list: Seq<Score>, picks: Seq<int>) -> Seq<Score> {
    Seq::new(picks.len(), |k: int| list[picks[k]])
}

/// Whether `top` is the ranking of `list` cut at `limit` entries.
pub open spec fn is_ranking(list: Seq<Score>, top: Seq<Score>, limit: nat) -> bool {
    exists|picks: Seq<int>| is_top(list, picks, limit) && top == chosen(list, picks)
}

/// The places held in a vector, as mathematical integers.
pub open spec fn places(picks: Seq<usize>) -> Seq<int> {
    picks.map_values(|p: usize| p as int)
}

/// The best `limit` candidates are determined: two selections that both
/// satisfy `is_top` are the same.
pub proof fn lemma_top_unique(list: Seq<Score>, first: Seq<int>, second: Seq<int>, limit: nat)
    requires
        is_top(list, first, limit),
        is_top(list, second, limit),
    ensures
        first == second,
{
    assert forall|k: int| 0 <= k < first.len() implies first[k] == second[k] by {
        lemma_same_pick(list, first, second, limit, k);
    }
    assert(first =~= second);
}

proof fn lemma_same_pick(list: Seq<Score>, first: Seq<int>, second: Seq<int>, limit: nat, k: int)
    requires
        is_top(list, first, limit),
        is_top(list, second, limit),
        0 <= k < first.len(),
    ensures
        first[k] == second[k],
    decreases k,
{
    assert forall|j: int| 0 <= j < k implies first[j] == second[j] by {
        lemma_same_pick(list, first, second, limit, j);
    }
    if first[k] != second[k] {
        lemma_pick_outranks(list, first, second, k);
        lemma_pick_outranks(list, second, first, k);
    }
}

proof fn lemma_pick_outranks(list: Seq<Score>, first: Seq<int>, second: Seq<int>, k: int)
    requires
        0 <= k < first.len(),
        first.len() == second.len(),
        forall|a: int| 0 <= a < first.len() ==> 0 <= #[trigger] first[a] < list.len(),
        forall|a: int| 0 <= a < second.len() ==> 0 <= #[trigger] second[a] < list.len(),
        forall|a: int, b: int| 0 <= a < b < first.len() ==> outranks(list, first[a], first[b]),
        forall|a: int, b: int| 0 <= a < b < second.len() ==> outranks(list, second[a], second[b]),
        forall|a: int, j: int|
            0 <= a < first.len() && 0 <= j < list.len() && !first.contains(j) ==> #[trigger] outranks(
                list,
                first[a],
                j,
            ),
        forall|j: int| 0 <= j < k ==> first[j] == second[j],
        first[k] != second[k],
    ensures
        outranks(list, first[k], second[k]),
{
    let other = second[k];
    if first.contains(other) {
        let m = choose|m: int| 0 <= m < first.len() && first[m] == other;
        if m < k {
            assert(second[m] == other);
            assert(outranks(list, second[m], second[k]));
        }
        assert(outranks(list, first[k], first[m]));
    }
}

proof fn lemma_some_place_free(picks: Seq<int>, n: int)
    requires
        picks.no_duplicates(),
        picks.len() < n,
    ensures
        exists|j: int| 0 <= j < n && !picks.contains(j),
    decreases n,
{
    if picks.contains(n - 1) {
        let m = choose|m: int| 0 <= m < picks.len() && picks[m] == n - 1;
        let rest = picks.remove(m);
        assert forall|a: int, b: int|
            0 <= a < rest.len() && 0 <= b < rest.len() && a != b implies rest[a] != rest[b] by {
            let a0 = if a < m {
                a
            } else {
                a + 1
            };
            let b0 = if b < m {
                b
            } else {
                b + 1
            };
            assert(rest[a] == picks[a0] && rest[b] == picks[b0]);
        }
        lemma_some_place_free(rest, n - 1);
        let j = choose|j: int| 0 <= j < n - 1 && !rest.contains(j);
        if picks.contains(j) {
            let q = choose|q: int| 0 <= q < picks.len() && picks[q] == j;
            assert(q != m);
            let q0 = if q < m {
                q
            } else {
                q - 1
            };
            assert(rest[q0] == j);
            assert(rest.contains(j));
        }
        assert(0 <= j < n && !picks.contains(j));
    } else {
        assert(0 <= n - 1 < n && !picks.contains(n - 1));
    }
}

/// Whether candidate `i` comes before candidate `j` in the result.
pub fn comes_before(list: &Vec<Candidate>, i: usize, j: usize) -> (before: bool)
    requires
        i < list.len(),
        j < list.len(),
    ensures
        before == outranks(scores(list@), i as int, j as int),
{
    let a = &list[i];
    let b = &list[j];
    a.time_diff > b.time_diff || (a.time_diff == b.time_diff && (a.count > b.count || (a.count
        == b.count && i > j)))
}

/// Whether `place` is among `picks`.
pub fn is_picked(picks: &Vec<usize>, place: usize) -> (found: bool)
    ensures
        found == places(picks@).contains(place as int),
{
    let mut k: usize = 0;
    while k < picks.len()
        invariant
            k <= picks.len(),
            forall|a: int| 0 <= a < k ==> places(picks@)[a] != place as int,
        decreases picks.len() - k,
    {
        if picks[k] == place {
            assert(places(picks@)[k as int] == place as int);
            return true;
        }
        k = k + 1;
    }
    false
}

/// Finds the candidate that outranks every other candidate not yet picked.
/// Gives `None` where every candidate is picked.
pub fn best_unpicked(list: &Vec<Candidate>, picks: &Vec<usize>) -> (best: Option<usize>)
    ensures
        match best {
            Some(b) => {
                &&& b < list.len()
                &&& !places(picks@).contains(b as int)
                &&& forall|j: int|
                    0 <= j < list.len() && j != b && !places(picks@).contains(j) ==> outranks(
                        scores(list@),
                        b as int,
                        j,
                    )
            },
            None => forall|j: int| 0 <= j < list.len() ==> places(picks@).contains(j),
        },
{
    let mut best: Option<usize> = None;
    let mut j: usize = 0;
    while j < list.len()
        invariant
            j <= list.len(),
            match best {
                Some(b) => {
                    &&& b < j
                    &&& !places(picks@).contains(b as int)
                    &&& forall|k: int|
                        0 <= k < j && k != b && !places(picks@).contains(k) ==> outranks(
                            scores(list@),
                            b as int,
                            k,
                        )
                },
                None => forall|k: int| 0 <= k < j ==> places(picks@).contains(k),
            },
        decreases list.len() - j,
    {
        if !is_picked(picks, j) {
            match best {
                None => {
                    best = Some(j);
                },
                Some(b) => {
                    if comes_before(list, j, b) {
                        best = Some(j);
                    }
                },
            }
        }
        j = j + 1;
    }
    best
}

/// Picks the places of the best `limit` candidates, best first.
pub fn select_top(list: &Vec<Candidate>, limit: usize) -> (picks: Vec<usize>)
    ensures
        is_top(scores(list@), places(picks@), limit as nat),
{
    let mut picks: Vec<usize> = Vec::new();
    while picks.len() < limit && picks.len() < list.len()
        invariant
            picks.len() <= limit,
            picks.len() <= list.len(),
            is_top(scores(list@), places(picks@), picks.len() as nat),
        decreases list.len() - picks.len(),
    {
        let ghost before = places(picks@);
        match best_unpicked(list, &picks) {
            Some(b) => {
                picks.push(b);
                proof {
                    let after = places(picks@);
                    assert(after =~= before.push(b as int));
                    assert forall|j: int|
                        after.contains(j) <==> (before.contains(j) || j == b) by {
                        if before.contains(j) {
                            let m = choose|m: int| 0 <= m < before.len() && before[m] == j;
                            assert(after[m] == j);
                        }
                        assert(after[after.len() - 1] == b);
                    }
                    assert forall|a: int, c: int| 0 <= a < c < after.len() implies outranks(
                        scores(list@),
                        after[a],
                        after[c],
                    ) by {
                        if c == after.len() - 1 {
                            assert(outranks(scores(list@), before[a], b as int));
                        } else {
                            assert(outranks(scores(list@), before[a], before[c]));
                        }
                    }
                    assert forall|a: int, j: int|
                        0 <= a < after.len() && 0 <= j < list.len() && !after.contains(
                            j,
                        ) implies #[trigger] outranks(scores(list@), after[a], j) by {
                        if a < before.len() {
                            assert(outranks(scores(list@), before[a], j));
                        }
                    }
                }
            },
            None => {
                // Fewer picks than candidates leave a candidate unpicked,
                // so this arm is never taken.
                proof {
                    assert(before.no_duplicates()) by {
                        assert forall|a: int, c: int|
                            0 <= a < before.len() && 0 <= c < before.len() && a
                                != c implies before[a] != before[c] by {
                            if a < c {
                                assert(outranks(scores(list@), before[a], before[c]));
                            } else {
                                assert(outranks(scores(list@), before[c], before[a]));
                            }
                        }
                    }
                    lemma_some_place_free(before, list.len() as int);
                }
                return picks;
            },
        }
    }
    picks
}

/// Copies a candidate.
pub fn copy_candidate(candidate: &Candidate) -> (copy: Candidate)
    ensures
        copy@ == candidate@,
{
    Candidate {
        track_id: candidate.track_id.clone(),
        time_diff: candidate.time_diff,
        count: candidate.count,
    }
}

/// Ranks the tracks that the hits name: the candidates, best first, cut at
/// the greatest number of results.
pub fn rank_tracks(hits: &Vec<Hit>, sentinel: &String) -> (top: Vec<Candidate>)
    ensures
        is_ranking(candidates(landings(hits@), sentinel@), scores(top@), MAX_RESULTS as nat),
        top.len() <= MAX_RESULTS,
{
    let list: Vec<Candidate> = score_tracks(hits, sentinel);
    let picks: Vec<usize> = select_top(&list, MAX_RESULTS);
    let mut top: Vec<Candidate> = Vec::new();
    let mut k: usize = 0;
    while k < picks.len()
        invariant
            k <= picks.len(),
            top.len() == k,
            is_top(scores(list@), places(picks@), MAX_RESULTS as nat),
            forall|a: int| 0 <= a < k ==> (#[trigger] top@[a])@ == scores(list@)[places(picks@)[a]],
        decreases picks.len() - k,
    {
        assert(0 <= places(picks@)[k as int] < list.len());
        let copy: Candidate = copy_candidate(&list[picks[k]]);
        top.push(copy);
        k = k + 1;
    }
    proof {
        let c = candidates(landings(hits@), sentinel@);
        assert(scores(top@) =~= chosen(c, places(picks@)));
    }
    top
}


} // verus!
