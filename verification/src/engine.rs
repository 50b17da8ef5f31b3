//! Ingest and query against a store held in memory.

use vstd::prelude::*;
use crate::config::{HOP_SIZE, MAX_RESULTS, MIN_ANCHOR_COUNT, NUM_BINS};
use crate::framing::frame_count_of;
use crate::landmarks::{distinct_hashes, fingerprints_of, Fingerprint};
use crate::peaks::{pruned_among, Peak};
use crate::matcher::{
    anchor_count, candidates, candidates_among, distinct_landings, is_new_track, is_ranking,
    is_top, landings,
    landings_on, chosen, pair_hits, rank_tracks, score_of, scores, Candidate, Hit,
    Landing, Score,
};
use crate::store::{
    add_rows, empty_state, is_listed, lemma_add_rows, lemma_add_rows_twice, lemma_put_record,
    lemma_remove_record, metadata_of, postings_among, postings_of, put_record, remove_record,
    row_of, well_formed, MemoryStore, Record, Row, StoreState,
};

verus! {

/// The name under which the query itself is entered among the tracks.
pub open spec fn sentinel_text() -> Seq<char> {
    seq!['t', 'm', 'p']
}

/// The hits of the first `n` query fingerprints against the index, in the
/// order of the query.
pub open spec fn landings_among(rows: Seq<Row>, query: Seq<Fingerprint>, n: int) -> Seq<Landing>
    decreases n,
{
    if n <= 0 {
        Seq::empty()
    } else {
        landings_among(rows, query, n - 1) + landings_on(
            query[n - 1],
            postings_of(rows, query[n - 1].hash),
        )
    }
}

/// The hits of a query against the index.
pub open spec fn landings_of(rows: Seq<Row>, query: Seq<Fingerprint>) -> Seq<Landing> {
    landings_among(rows, query, query.len() as int)
}

/// The state after a track is ingested: its postings are added and its
/// record is stored.
pub open spec fn ingested(
    state: StoreState,
    track: Seq<char>,
    payload: Seq<char>,
    fingerprints: Seq<Fingerprint>,
) -> StoreState {
    StoreState {
        rows: add_rows(state.rows, track, fingerprints, fingerprints.len() as int),
        records: put_record(state.records, track, payload),
    }
}

/// Whether a record is stored for every track of `top`.
pub open spec fn all_stored(records: Seq<Record>, top: Seq<Score>) -> bool {
    forall|k: int| 0 <= k < top.len() ==> metadata_of(records, (#[trigger] top[k]).track) is Some
}

/// Whether `answer` holds, in order, the stored record of every track of
/// `top`.
pub open spec fn resolves(records: Seq<Record>, top: Seq<Score>, answer: Seq<String>) -> bool {
    &&& answer.len() == top.len()
    &&& forall|k: int|
        0 <= k < top.len() ==> metadata_of(records, (#[trigger] top[k]).track) == Some(answer[k]@)
}

/// Why a query gave no answer.
#[derive(Clone, Copy, Debug, PartialEq, Eq, Structural)]
pub enum MatchError {
    /// A track was ranked but no record is stored for it.
    MetadataMissing,
}

/// Whether `top` is the ranking of `query` on `state` and `result` gives
/// the records of its tracks, or an error where one of them has no record.
pub open spec fn answers_with(
    state: StoreState,
    query: Seq<Fingerprint>,
    top: Seq<Score>,
    result: Result<Vec<String>, MatchError>,
) -> bool {
    &&& is_ranking(
        candidates(landings_of(state.rows, query), sentinel_text()),
        top,
        MAX_RESULTS as nat,
    )
    &&& match result {
        Ok(answer) => resolves(state.records, top, answer@),
        Err(MatchError::MetadataMissing) => !all_stored(state.records, top),
    }
}

/// Whether `result` answers `query` on `state`: the records of the ranked
/// tracks, best first, or an error where one of them has no record.
pub open spec fn is_answer(
    state: StoreState,
    query: Seq<Fingerprint>,
    result: Result<Vec<String>, MatchError>,
) -> bool {
    exists|top: Seq<Score>| #[trigger] answers_with(state, query, top, result)
}

/// Stores a track: its fingerprints go into the inverted index and
/// `payload` becomes its record.
pub fn ingest(
    store: &mut MemoryStore,
    track_id: &String,
    payload: &String,
    fingerprints: &Vec<Fingerprint>,
)
    ensures
        final(store)@ == ingested(old(store)@, track_id@, payload@, fingerprints@),
        is_listed(final(store)@.records, track_id@),
        metadata_of(final(store)@.records, track_id@) == Some(payload@),
        well_formed(old(store)@) ==> well_formed(final(store)@),
{
    store.put_fingerprints(track_id, fingerprints);
    store.put_metadata(track_id, payload);
}

/// Looks every query fingerprint up and gathers the hits.
pub fn collect_hits(store: &MemoryStore, query: &Vec<Fingerprint>) -> (hits: Vec<Hit>)
    ensures
        landings(hits@) == landings_of(store@.rows, query@),
{
    let mut hits: Vec<Hit> = Vec::new();
    let mut i: usize = 0;
    assert(landings(hits@) =~= Seq::<Landing>::empty());
    while i < query.len()
        invariant
            i <= query.len(),
            landings(hits@) == landings_among(store@.rows, query@, i as int),
        decreases query.len() - i,
    {
        let postings = store.get_postings(query[i].hash);
        pair_hits(query[i], &postings, &mut hits);
        i = i + 1;
    }
    hits
}

/// Answers a query: the records of the best matching tracks, best first,
/// at most `MAX_RESULTS` of them. A query that matches nothing gives an
/// empty answer.
pub fn query(store: &MemoryStore, fingerprints: &Vec<Fingerprint>) -> (result: Result<
    Vec<String>,
    MatchError,
>)
    ensures
        is_answer(store@, fingerprints@, result),
        result matches Ok(answer) ==> answer.len() <= MAX_RESULTS,
        fingerprints.len() == 0 ==> (result matches Ok(answer) && answer.len() == 0),
{
    proof {
        reveal_strlit("tmp");
    }
    let sentinel: String = String::from_str("tmp");
    assert(sentinel@ =~= sentinel_text());
    let hits: Vec<Hit> = collect_hits(store, fingerprints);
    let top: Vec<Candidate> = rank_tracks(&hits, &sentinel);
    proof {
        if fingerprints.len() == 0 {
            let list = candidates(landings_of(store@.rows, fingerprints@), sentinel_text());
            assert(list.len() == 0);
            let picks = choose|picks: Seq<int>|
                is_top(list, picks, MAX_RESULTS as nat) && scores(top@) == chosen(list, picks);
            assert(scores(top@).len() == 0);
        }
    }
    let mut answer: Vec<String> = Vec::new();
    let mut k: usize = 0;
    while k < top.len()
        invariant
            k <= top.len(),
            answer.len() == k,
            fingerprints.len() == 0 ==> top.len() == 0,
            is_ranking(
                candidates(landings_of(store@.rows, fingerprints@), sentinel_text()),
                scores(top@),
                MAX_RESULTS as nat,
            ),
            forall|a: int|
                0 <= a < k ==> metadata_of(store@.records, (#[trigger] scores(top@)[a]).track)
                    == Some(answer@[a]@),
        decreases top.len() - k,
    {
        match store.get_metadata(&top[k].track_id) {
            Some(payload) => {
                answer.push(payload);
            },
            None => {
                let result = Err(MatchError::MetadataMissing);
                assert(metadata_of(store@.records, scores(top@)[k as int].track) is None);
                assert(answers_with(store@, fingerprints@, scores(top@), result));
                return result;
            },
        }
        k = k + 1;
    }
    let result = Ok(answer);
    proof {
        assert(resolves(store@.records, scores(top@), answer@));
        assert(answers_with(store@, fingerprints@, scores(top@), result));
    }
    result
}

/// A track that was ingested is listed, and its record is the one given.
pub proof fn lemma_ingest_lists(
    state: StoreState,
    track: Seq<char>,
    payload: Seq<char>,
    fingerprints: Seq<Fingerprint>,
)
    ensures
        is_listed(ingested(state, track, payload, fingerprints).records, track),
        metadata_of(ingested(state, track, payload, fingerprints).records, track) == Some(payload),
        well_formed(state) ==> well_formed(ingested(state, track, payload, fingerprints)),
{
    lemma_put_record(state.records, track, payload);
    lemma_add_rows(state.rows, track, fingerprints, fingerprints.len() as int);
}

/// A track that was ingested and then deleted is no longer listed, while
/// its postings stay in the index.
pub proof fn lemma_ingest_then_delete(
    state: StoreState,
    track: Seq<char>,
    payload: Seq<char>,
    fingerprints: Seq<Fingerprint>,
)
    requires
        well_formed(state),
    ensures
        !is_listed(
            remove_record(ingested(state, track, payload, fingerprints).records, track),
            track,
        ),
        metadata_of(
            remove_record(ingested(state, track, payload, fingerprints).records, track),
            track,
        ) is None,
{
    lemma_ingest_lists(state, track, payload, fingerprints);
    lemma_remove_record(ingested(state, track, payload, fingerprints).records, track);
}

/// Ingesting the same track a second time changes nothing: the record is
/// the same and no posting is added.
pub proof fn lemma_ingest_twice(
    state: StoreState,
    track: Seq<char>,
    payload: Seq<char>,
    fingerprints: Seq<Fingerprint>,
)
    ensures
        ingested(ingested(state, track, payload, fingerprints), track, payload, fingerprints)
            == ingested(state, track, payload, fingerprints),
{
    lemma_put_record(state.records, track, payload);
    lemma_add_rows_twice(state.rows, track, fingerprints);
}

/// Whether every posting of the index names `track`.
pub open spec fn holds_only(rows: Seq<Row>, track: Seq<char>) -> bool {
    forall|i: int| 0 <= i < rows.len() ==> (#[trigger] rows[i]).track == track
}

proof fn lemma_postings_name(rows: Seq<Row>, track: Seq<char>, hash: u64, n: int)
    requires
        holds_only(rows, track),
        0 <= n <= rows.len(),
    ensures
        forall|k: int|
            0 <= k < postings_among(rows, hash, n).len() ==> (#[trigger] postings_among(
                rows,
                hash,
                n,
            )[k]).1 == track,
    decreases n,
{
    if n > 0 {
        lemma_postings_name(rows, track, hash, n - 1);
        assert(rows[n - 1].track == track);
        let earlier = postings_among(rows, hash, n - 1);
        let all = postings_among(rows, hash, n);
        assert forall|k: int| 0 <= k < all.len() implies (#[trigger] all[k]).1 == track by {
            if k < earlier.len() {
                assert(all[k] == earlier[k]);
            }
        }
    }
}

proof fn lemma_landings_name(rows: Seq<Row>, track: Seq<char>, query: Seq<Fingerprint>, n: int)
    requires
        holds_only(rows, track),
        0 <= n <= query.len(),
    ensures
        forall|k: int|
            0 <= k < landings_among(rows, query, n).len() ==> (#[trigger] landings_among(
                rows,
                query,
                n,
            )[k]).track == track,
    decreases n,
{
    if n > 0 {
        lemma_landings_name(rows, track, query, n - 1);
        let earlier = landings_among(rows, query, n - 1);
        let postings = postings_of(rows, query[n - 1].hash);
        let added = landings_on(query[n - 1], postings);
        lemma_postings_name(rows, track, query[n - 1].hash, rows.len() as int);
        let all = landings_among(rows, query, n);
        assert forall|k: int| 0 <= k < all.len() implies (#[trigger] all[k]).track == track by {
            if k < earlier.len() {
                assert(all[k] == earlier[k]);
            } else {
                assert(all[k] == added[k - earlier.len()]);
                assert(postings[k - earlier.len()].1 == track);
            }
        }
    }
}

proof fn lemma_single_candidate(hits: Seq<Landing>, track: Seq<char>, sentinel: Seq<char>, n: int)
    requires
        1 <= n <= hits.len(),
        forall|k: int| 0 <= k < hits.len() ==> (#[trigger] hits[k]).track == track,
        anchor_count(hits, track) >= MIN_ANCHOR_COUNT,
    ensures
        candidates_among(hits, sentinel, n) == seq![score_of(hits, track, sentinel)],
    decreases n,
{
    assert(hits[0].track == track);
    if n == 1 {
        assert(is_new_track(hits, 0));
        assert(candidates_among(hits, sentinel, 0) =~= Seq::<Score>::empty());
        assert(candidates_among(hits, sentinel, 1) =~= seq![score_of(hits, track, sentinel)]);
    } else {
        lemma_single_candidate(hits, track, sentinel, n - 1);
        assert(hits[n - 1].track == track);
        assert(!is_new_track(hits, n - 1));
    }
}

/// Self-identity. Where the index holds the postings of one track only and
/// a query gathers enough full anchors for that track, the ranking consists
/// of that track alone.
pub proof fn lemma_sole_track_ranks_first(
    rows: Seq<Row>,
    track: Seq<char>,
    query: Seq<Fingerprint>,
    top: Seq<Score>,
)
    requires
        holds_only(rows, track),
        anchor_count(landings_of(rows, query), track) >= MIN_ANCHOR_COUNT,
        is_ranking(candidates(landings_of(rows, query), sentinel_text()), top, MAX_RESULTS as nat),
    ensures
        top == seq![score_of(landings_of(rows, query), track, sentinel_text())],
{
    let hits = landings_of(rows, query);
    lemma_landings_name(rows, track, query, query.len() as int);
    let full = crate::matcher::full_anchors(hits, track);
    assert(hits.len() >= 1) by {
        if forall|t: u64| !full.contains(t) {
            assert(full =~= Set::<u64>::empty());
        }
        let t = choose|t: u64| full.contains(t);
        crate::matcher::lemma_landed_bounds(hits, track, t, hits.len() as int);
    }
    lemma_single_candidate(hits, track, sentinel_text(), hits.len() as int);
    let list = candidates(hits, sentinel_text());
    let picks = choose|picks: Seq<int>|
        is_top(list, picks, MAX_RESULTS as nat) && top == chosen(list, picks);
    assert(picks.len() == 1);
    assert(picks[0] == 0);
    assert(top =~= seq![list[0]]);
}

/// Self-identity of an ingested track. A track is ingested into an empty
/// store and then queried with its own fingerprints. Where these gather
/// enough full anchors, the answer is the record of that track and nothing
/// else.
pub proof fn lemma_self_identity(
    track: Seq<char>,
    payload: Seq<char>,
    fingerprints: Seq<Fingerprint>,
    result: Result<Vec<String>, MatchError>,
)
    requires
        anchor_count(
            landings_of(ingested(empty_state(), track, payload, fingerprints).rows, fingerprints),
            track,
        ) >= MIN_ANCHOR_COUNT,
        is_answer(ingested(empty_state(), track, payload, fingerprints), fingerprints, result),
    ensures
        result matches Ok(answer) && answer.len() == 1 && answer[0]@ == payload,
{
    let state = ingested(empty_state(), track, payload, fingerprints);
    lemma_add_rows(empty_state().rows, track, fingerprints, fingerprints.len() as int);
    assert(holds_only(state.rows, track)) by {
        assert forall|i: int| 0 <= i < state.rows.len() implies (#[trigger] state.rows[i]).track
            == track by {
            let row = state.rows[i];
            assert(state.rows.contains(row));
            assert(!empty_state().rows.contains(row));
            let k = choose|k: int|
                0 <= k < fingerprints.len() && row == row_of(track, #[trigger] fingerprints[k]);
        }
    }
    let top = choose|top: Seq<Score>| #[trigger] answers_with(state, fingerprints, top, result);
    lemma_sole_track_ranks_first(state.rows, track, fingerprints, top);
    lemma_put_record(empty_state().records, track, payload);
    assert(top[0].track == track);
    assert(all_stored(state.records, top));
}


/// A signal shorter than one frame matches nothing: it has no frame, no
/// frames give no peaks, no peaks give no fingerprints, and a query without
/// fingerprints is answered by the empty list, whatever the store holds.
pub proof fn lemma_short_signal_matches_nothing(
    samples: int,
    state: StoreState,
    result: Result<Vec<String>, MatchError>,
)
    requires
        0 <= samples < NUM_BINS,
        is_answer(state, Seq::<Fingerprint>::empty(), result),
    ensures
        frame_count_of(samples, NUM_BINS as int, HOP_SIZE as int) == 0,
        pruned_among(Seq::<Vec<Peak>>::empty(), Seq::<u32>::empty(), 0) == Seq::<Peak>::empty(),
        fingerprints_of(Seq::<Peak>::empty(), Seq::<Vec<usize>>::empty()) == Seq::<
            Fingerprint,
        >::empty(),
        result matches Ok(answer) && answer.len() == 0,
{
    let query = Seq::<Fingerprint>::empty();
    let top = choose|top: Seq<Score>| #[trigger] answers_with(state, query, top, result);
    let list = candidates(landings_of(state.rows, query), sentinel_text());
    assert(list.len() == 0);
    let picks = choose|picks: Seq<int>|
        is_top(list, picks, MAX_RESULTS as nat) && top == chosen(list, picks);
    assert(top.len() == 0);
    assert(all_stored(state.records, top));
}


proof fn lemma_postings_differ(rows: Seq<Row>, hash: u64, n: int)
    requires
        rows.no_duplicates(),
        0 <= n <= rows.len(),
    ensures
        forall|k: int|
            0 <= k < postings_among(rows, hash, n).len() ==> exists|r: int|
                0 <= r < n && #[trigger] rows[r] == (Row {
                    hash,
                    time_ms: (#[trigger] postings_among(rows, hash, n)[k]).0,
                    track: postings_among(rows, hash, n)[k].1,
                }),
        forall|a: int, b: int|
            0 <= a < b < postings_among(rows, hash, n).len() ==> (#[trigger] postings_among(
                rows,
                hash,
                n,
            )[a]) != (#[trigger] postings_among(rows, hash, n)[b]),
    decreases n,
{
    if n > 0 {
        lemma_postings_differ(rows, hash, n - 1);
        let earlier = postings_among(rows, hash, n - 1);
        let all = postings_among(rows, hash, n);
        assert forall|k: int| 0 <= k < all.len() implies exists|r: int|
            0 <= r < n && #[trigger] rows[r] == (Row {
                hash,
                time_ms: (#[trigger] all[k]).0,
                track: all[k].1,
            }) by {
            if k < earlier.len() {
                assert(all[k] == earlier[k]);
                let r = choose|r: int|
                    0 <= r < n - 1 && #[trigger] rows[r] == (Row {
                        hash,
                        time_ms: earlier[k].0,
                        track: earlier[k].1,
                    });
                assert(0 <= r < n && rows[r] == (Row { hash, time_ms: all[k].0, track: all[k].1 }));
            } else {
                assert(rows[n - 1] == (Row { hash, time_ms: all[k].0, track: all[k].1 }));
            }
        }
        assert forall|a: int, b: int| 0 <= a < b < all.len() implies (#[trigger] all[a]) != (
        #[trigger] all[b]) by {
            assert(all[a] == earlier[a]);
            if b < earlier.len() {
                assert(all[b] == earlier[b]);
            } else if all[a] == all[b] {
                let r = choose|r: int|
                    0 <= r < n - 1 && #[trigger] rows[r] == (Row {
                        hash,
                        time_ms: earlier[a].0,
                        track: earlier[a].1,
                    });
                assert(rows[r] == rows[n - 1]);
            }
        }
    }
}

/// The hits of a query whose hashes differ, on an index that holds every
/// posting once, never share hash, track and catalog time: each is a
/// different posting of the index.
pub proof fn lemma_landings_differ(rows: Seq<Row>, query: Seq<Fingerprint>, n: int)
    requires
        rows.no_duplicates(),
        distinct_hashes(query),
        0 <= n <= query.len(),
    ensures
        distinct_landings(landings_among(rows, query, n)),
        forall|i: int|
            0 <= i < landings_among(rows, query, n).len() ==> exists|q: int|
                0 <= q < n && (#[trigger] query[q]).hash == (#[trigger] landings_among(
                    rows,
                    query,
                    n,
                )[i]).hash,
    decreases n,
{
    if n > 0 {
        lemma_landings_differ(rows, query, n - 1);
        let earlier = landings_among(rows, query, n - 1);
        let last = query[n - 1];
        let postings = postings_of(rows, last.hash);
        let added = landings_on(last, postings);
        let all = landings_among(rows, query, n);
        lemma_postings_differ(rows, last.hash, rows.len() as int);
        assert forall|i: int| 0 <= i < all.len() implies exists|q: int|
            0 <= q < n && (#[trigger] query[q]).hash == (#[trigger] all[i]).hash by {
            if i < earlier.len() {
                assert(all[i] == earlier[i]);
                let q = choose|q: int|
                    0 <= q < n - 1 && (#[trigger] query[q]).hash == earlier[i].hash;
                assert(0 <= q < n && query[q].hash == all[i].hash);
            } else {
                assert(all[i] == added[i - earlier.len()]);
                assert(query[n - 1].hash == all[i].hash);
            }
        }
        assert forall|i: int, j: int| 0 <= i < j < all.len() implies !((#[trigger] all[i]).hash == (
        #[trigger] all[j]).hash && all[i].track == all[j].track && all[i].catalog_time
            == all[j].catalog_time) by {
            if j < earlier.len() {
                assert(all[i] == earlier[i] && all[j] == earlier[j]);
            } else if i < earlier.len() {
                assert(all[i] == earlier[i]);
                assert(all[j] == added[j - earlier.len()]);
                let q = choose|q: int|
                    0 <= q < n - 1 && (#[trigger] query[q]).hash == earlier[i].hash;
                assert(query[q].hash != query[n - 1].hash);
            } else {
                let (a, b) = (i - earlier.len(), j - earlier.len());
                assert(all[i] == added[a] && all[j] == added[b]);
                assert(postings[a] != postings[b]);
            }
        }
    }
}


} // verus!
