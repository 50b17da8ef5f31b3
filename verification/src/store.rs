//! The fingerprint store: an inverted index from hash to postings, and the
//! metadata of the tracks.
//!
//! `StoreState` is the mathematical state of a store and the functions on it
//! say what each operation does. `MemoryStore` keeps such a state in memory.

use vstd::prelude::*;
use crate::codec::{posting_views, Posting};
use crate::landmarks::Fingerprint;

verus! {

/// One posting of the inverted index: `track` holds `hash` at `time_ms`.
pub struct Row {
    pub hash: u64,
    pub time_ms: u64,
    pub track: Seq<char>,
}

/// The metadata of one track: its identifier and its serialized record.
pub struct Record {
    pub track: Seq<char>,
    pub payload: Seq<char>,
}

/// The state of a store. `rows` holds every posting once, in the order in
/// which postings were first added; `records` holds the metadata, in the
/// order in which tracks were first stored.
pub struct StoreState {
    pub rows: Seq<Row>,
    pub records: Seq<Record>,
}

/// The store that holds nothing.
pub open spec fn empty_state() -> StoreState {
    StoreState { rows: Seq::empty(), records: Seq::empty() }
}

/// The row that a fingerprint of `track` adds.
pub open spec fn row_of(track: Seq<char>, fingerprint: Fingerprint) -> Row {
    Row { hash: fingerprint.hash, time_ms: fingerprint.time_ms, track }
}

/// Adds a posting to a set of postings: a posting already held is not added
/// again.
pub open spec fn add_row(rows: Seq<Row>, row: Row) -> Seq<Row> {
    if rows.contains(row) {
        rows
    } else {
        rows.push(row)
    }
}

/// Adds the postings of the first `n` fingerprints of `track`.
pub open spec fn add_rows(rows: Seq<Row>, track: Seq<char>, fingerprints: Seq<Fingerprint>, n: int)
    -> Seq<Row>
    decreases n,
{
    if n <= 0 {
        rows
    } else {
        add_row(add_rows(rows, track, fingerprints, n - 1), row_of(track, fingerprints[n - 1]))
    }
}

/// The postings of `hash` among the first `n` rows, in their order.
pub open spec fn postings_among(rows: Seq<Row>, hash: u64, n: int) -> Seq<(u64, Seq<char>)>
    decreases n,
{
    if n <= 0 {
        Seq::empty()
    } else {
        let earlier = postings_among(rows, hash, n - 1);
        if rows[n - 1].hash == hash {
            earlier.push((rows[n - 1].time_ms, rows[n - 1].track))
        } else {
            earlier
        }
    }
}

/// The posting list of `hash`.
pub open spec fn postings_of(rows: Seq<Row>, hash: u64) -> Seq<(u64, Seq<char>)> {
    postings_among(rows, hash, rows.len() as int)
}

/// Whether no two records describe the same track.
pub open spec fn distinct_tracks(records: Seq<Record>) -> bool {
    forall|i: int, j: int|
        0 <= i < j < records.len() ==> (#[trigger] records[i]).track != (#[trigger] records[j]).track
}

/// Whether `place` is where the record of `track` stands, or the length of
/// `records` where `track` has none.
pub open spec fn is_place_of(records: Seq<Record>, track: Seq<char>, place: int) -> bool {
    &&& 0 <= place <= records.len()
    &&& forall|i: int| 0 <= i < place ==> (#[trigger] records[i]).track != track
    &&& place < records.len() ==> records[place].track == track
}

/// The place of the first record of `track`, or the length of `records`.
pub open spec fn place_of(records: Seq<Record>, track: Seq<char>) -> int {
    choose|place: int| is_place_of(records, track, place)
}

/// Whether a record of `track` is stored.
pub open spec fn is_listed(records: Seq<Record>, track: Seq<char>) -> bool {
    exists|i: int| 0 <= i < records.len() && (#[trigger] records[i]).track == track
}

/// The serialized record of `track`, where one is stored.
pub open spec fn metadata_of(records: Seq<Record>, track: Seq<char>) -> Option<Seq<char>> {
    let place = place_of(records, track);
    if place < records.len() {
        Some(records[place].payload)
    } else {
        None
    }
}

/// Stores the record of `track`: a record already stored is replaced where
/// it stands, a new one comes last.
pub open spec fn put_record(records: Seq<Record>, track: Seq<char>, payload: Seq<char>) -> Seq<
    Record,
> {
    let place = place_of(records, track);
    if place < records.len() {
        records.update(place, Record { track, payload })
    } else {
        records.push(Record { track, payload })
    }
}

/// Removes the record of `track`, where one is stored.
pub open spec fn remove_record(records: Seq<Record>, track: Seq<char>) -> Seq<Record> {
    let place = place_of(records, track);
    if place < records.len() {
        records.remove(place)
    } else {
        records
    }
}

/// The place of a track exists and is determined.
pub proof fn lemma_place_of(records: Seq<Record>, track: Seq<char>)
    ensures
        is_place_of(records, track, place_of(records, track)),
        forall|place: int| is_place_of(records, track, place) ==> place == place_of(records, track),
        place_of(records, track) < records.len() <==> is_listed(records, track),
{
    lemma_place_exists(records, track, records.len() as int);
    assert(records.take(records.len() as int) =~= records);
    let p = place_of(records, track);
    assert forall|place: int| is_place_of(records, track, place) implies place == p by {
        if place < p {
            assert(records[place].track != track);
        } else if p < place {
            assert(records[p].track != track);
        }
    }
    if p < records.len() {
        assert(records[p].track == track);
    }
    if is_listed(records, track) {
        let i = choose|i: int| 0 <= i < records.len() && (#[trigger] records[i]).track == track;
        if p >= records.len() {
            assert(records[i].track != track);
        }
    }
}

proof fn lemma_place_exists(records: Seq<Record>, track: Seq<char>, n: int)
    requires
        0 <= n <= records.len(),
    ensures
        exists|place: int| is_place_of(records.take(n), track, place),
    decreases n,
{
    let head = records.take(n);
    if n == 0 {
        assert(is_place_of(head, track, 0));
    } else {
        lemma_place_exists(records, track, n - 1);
        let shorter = records.take(n - 1);
        let p = choose|place: int| is_place_of(shorter, track, place);
        assert forall|i: int| 0 <= i < n - 1 implies head[i] == shorter[i] by {}
        if p < n - 1 {
            assert(head[p] == shorter[p]);
            assert(is_place_of(head, track, p));
        } else if head[n - 1].track == track {
            assert(is_place_of(head, track, n - 1));
        } else {
            assert(is_place_of(head, track, n));
        }
    }
}

/// Whether a state keeps every posting once and at most one record for each
/// track.
pub open spec fn well_formed(state: StoreState) -> bool {
    state.rows.no_duplicates() && distinct_tracks(state.records)
}

/// Storing a record makes it the metadata of its track, keeps the track
/// listed and leaves every other track as it was.
pub proof fn lemma_put_record(records: Seq<Record>, track: Seq<char>, payload: Seq<char>)
    ensures
        metadata_of(put_record(records, track, payload), track) == Some(payload),
        is_listed(put_record(records, track, payload), track),
        distinct_tracks(records) ==> distinct_tracks(put_record(records, track, payload)),
        forall|other: Seq<char>|
            other != track ==> #[trigger] metadata_of(put_record(records, track, payload), other)
                == metadata_of(records, other),
        put_record(put_record(records, track, payload), track, payload) == put_record(
            records,
            track,
            payload,
        ),
{
    let after = put_record(records, track, payload);
    let place = place_of(records, track);
    lemma_place_of(records, track);
    lemma_place_of(after, track);
    assert(is_place_of(after, track, place)) by {
        assert forall|i: int| 0 <= i < place implies (#[trigger] after[i]).track != track by {
            assert(after[i] == records[i]);
        }
    }
    assert(after[place].track == track);
    assert forall|other: Seq<char>| other != track implies #[trigger] metadata_of(after, other)
        == metadata_of(records, other) by {
        lemma_place_of(records, other);
        lemma_place_of(after, other);
        let q = place_of(records, other);
        if q < records.len() {
            assert(q != place);
            assert(after[q] == records[q]);
            assert(is_place_of(after, other, q)) by {
                assert forall|i: int| 0 <= i < q implies (#[trigger] after[i]).track != other by {
                    if i != place {
                        assert(after[i] == records[i]);
                    }
                }
            }
        } else {
            assert(is_place_of(after, other, after.len() as int)) by {
                assert forall|i: int| 0 <= i < after.len() implies (#[trigger] after[i]).track
                    != other by {
                    if i != place {
                        assert(after[i] == records[i]);
                    }
                }
            }
        }
    }
    if distinct_tracks(records) {
        assert forall|i: int, j: int| 0 <= i < j < after.len() implies (#[trigger] after[i]).track != (
        #[trigger] after[j]).track by {
            if i != place && j != place {
                assert(after[i] == records[i] && after[j] == records[j]);
            } else if i == place {
                if place < records.len() {
                    assert(after[j] == records[j]);
                    assert(records[i].track != records[j].track);
                }
            } else {
                assert(after[i] == records[i]);
                if place < records.len() {
                    assert(records[i].track != records[j].track);
                }
            }
        }
    }
    assert(put_record(after, track, payload) =~= after);
}

/// Removing the record of a track leaves the track unlisted and every
/// other track as it was.
pub proof fn lemma_remove_record(records: Seq<Record>, track: Seq<char>)
    requires
        distinct_tracks(records),
    ensures
        !is_listed(remove_record(records, track), track),
        metadata_of(remove_record(records, track), track) is None,
        distinct_tracks(remove_record(records, track)),
        forall|other: Seq<char>|
            other != track ==> #[trigger] is_listed(remove_record(records, track), other)
                == is_listed(records, other),
{
    let after = remove_record(records, track);
    let place = place_of(records, track);
    lemma_place_of(records, track);
    lemma_place_of(after, track);
    assert forall|i: int| 0 <= i < after.len() implies (#[trigger] after[i]).track != track by {
        if place < records.len() {
            if i < place {
                assert(after[i] == records[i]);
            } else {
                assert(after[i] == records[i + 1]);
                assert(records[place].track != records[i + 1].track);
            }
        }
    }
    assert forall|i: int, j: int| 0 <= i < j < after.len() implies (#[trigger] after[i]).track != (
    #[trigger] after[j]).track by {
        if place < records.len() {
            let i0 = if i < place {
                i
            } else {
                i + 1
            };
            let j0 = if j < place {
                j
            } else {
                j + 1
            };
            assert(after[i] == records[i0] && after[j] == records[j0]);
            assert(records[i0].track != records[j0].track);
        }
    }
    assert forall|other: Seq<char>| other != track implies #[trigger] is_listed(after, other)
        == is_listed(records, other) by {
        if place < records.len() {
            if is_listed(records, other) {
                let i = choose|i: int|
                    0 <= i < records.len() && (#[trigger] records[i]).track == other;
                let i1 = if i < place {
                    i
                } else {
                    i - 1
                };
                assert(after[i1] == records[i]);
            }
            if is_listed(after, other) {
                let i = choose|i: int| 0 <= i < after.len() && (#[trigger] after[i]).track == other;
                let i0 = if i < place {
                    i
                } else {
                    i + 1
                };
                assert(after[i] == records[i0]);
            }
        }
    }
}

/// Adding postings keeps those already held, holds each posting added, and
/// never holds a posting twice.
pub proof fn lemma_add_rows(rows: Seq<Row>, track: Seq<char>, fingerprints: Seq<Fingerprint>, n: int)
    requires
        0 <= n <= fingerprints.len(),
    ensures
        forall|row: Row| rows.contains(row) ==> #[trigger] add_rows(
            rows,
            track,
            fingerprints,
            n,
        ).contains(row),
        forall|k: int|
            0 <= k < n ==> add_rows(rows, track, fingerprints, n).contains(
                row_of(track, #[trigger] fingerprints[k]),
            ),
        forall|row: Row| #[trigger]
            add_rows(rows, track, fingerprints, n).contains(row) ==> rows.contains(row) || exists|
                k: int,
            |
                0 <= k < n && row == row_of(track, #[trigger] fingerprints[k]),
        rows.no_duplicates() ==> add_rows(rows, track, fingerprints, n).no_duplicates(),
        rows.len() <= add_rows(rows, track, fingerprints, n).len() <= rows.len() + n,
    decreases n,
{
    if n > 0 {
        lemma_add_rows(rows, track, fingerprints, n - 1);
        let before = add_rows(rows, track, fingerprints, n - 1);
        let row = row_of(track, fingerprints[n - 1]);
        let after = add_row(before, row);
        lemma_add_row(before, row);
        assert forall|r: Row| #[trigger] after.contains(r) implies rows.contains(r) || exists|
            k: int,
        |
            0 <= k < n && r == row_of(track, #[trigger] fingerprints[k]) by {
            if r == row {
                assert(r == row_of(track, fingerprints[n - 1]));
            } else {
                assert(before.contains(r));
                if !rows.contains(r) {
                    let k = choose|k: int|
                        0 <= k < n - 1 && r == row_of(track, #[trigger] fingerprints[k]);
                    assert(r == row_of(track, fingerprints[k]));
                }
            }
        }
    }
}

/// What adding one posting does to the set of postings.
pub proof fn lemma_add_row(rows: Seq<Row>, row: Row)
    ensures
        add_row(rows, row).contains(row),
        forall|r: Row| #[trigger] add_row(rows, row).contains(r) <==> rows.contains(r) || r == row,
        rows.no_duplicates() ==> add_row(rows, row).no_duplicates(),
        add_row(add_row(rows, row), row) == add_row(rows, row),
{
    let after = add_row(rows, row);
    if !rows.contains(row) {
        assert(after[rows.len() as int] == row);
        assert forall|r: Row| #[trigger] after.contains(r) <==> rows.contains(r) || r == row by {
            if rows.contains(r) {
                let i = choose|i: int| 0 <= i < rows.len() && rows[i] == r;
                assert(after[i] == r);
            }
            if after.contains(r) {
                let i = choose|i: int| 0 <= i < after.len() && after[i] == r;
                if i < rows.len() {
                    assert(rows[i] == r);
                }
            }
        }
        if rows.no_duplicates() {
            assert forall|i: int, j: int|
                0 <= i < after.len() && 0 <= j < after.len() && i != j implies after[i]
                != after[j] by {
                if i < rows.len() && j < rows.len() {
                } else if i < rows.len() {
                    assert(rows[i] == after[i]);
                    assert(rows.contains(after[i]));
                } else {
                    assert(rows[j] == after[j]);
                    assert(rows.contains(after[j]));
                }
            }
        }
    }
}

/// Adding the same postings a second time changes nothing.
pub proof fn lemma_add_rows_twice(rows: Seq<Row>, track: Seq<char>, fingerprints: Seq<Fingerprint>)
    ensures
        add_rows(
            add_rows(rows, track, fingerprints, fingerprints.len() as int),
            track,
            fingerprints,
            fingerprints.len() as int,
        ) == add_rows(rows, track, fingerprints, fingerprints.len() as int),
{
    let once = add_rows(rows, track, fingerprints, fingerprints.len() as int);
    lemma_add_rows(rows, track, fingerprints, fingerprints.len() as int);
    lemma_add_held_rows(once, track, fingerprints, fingerprints.len() as int);
}

proof fn lemma_add_held_rows(rows: Seq<Row>, track: Seq<char>, fingerprints: Seq<Fingerprint>, n: int)
    requires
        0 <= n <= fingerprints.len(),
        forall|k: int| 0 <= k < n ==> rows.contains(row_of(track, #[trigger] fingerprints[k])),
    ensures
        add_rows(rows, track, fingerprints, n) == rows,
    decreases n,
{
    if n > 0 {
        lemma_add_held_rows(rows, track, fingerprints, n - 1);
        assert(rows.contains(row_of(track, fingerprints[n - 1])));
    }
}


/// A posting as the inverted index keeps it.
#[derive(Clone, Debug)]
pub struct IndexRow {
    pub hash: u64,
    pub time_ms: u64,
    pub track_id: String,
}

impl View for IndexRow {
    type V = Row;

    open spec fn view(&self) -> Row {
        Row { hash: self.hash, time_ms: self.time_ms, track: self.track_id@ }
    }
}

/// The metadata of a track as the store keeps it.
#[derive(Clone, Debug)]
pub struct TrackRecord {
    pub track_id: String,
    pub payload: String,
}

impl View for TrackRecord {
    type V = Record;

    open spec fn view(&self) -> Record {
        Record { track: self.track_id@, payload: self.payload@ }
    }
}

/// The views of a list of records.
pub open spec fn record_views(list: Seq<TrackRecord>) -> Seq<Record> {
    list.map_values(|r: TrackRecord| r@)
}

/// A fingerprint store held in memory.
pub struct MemoryStore {
    rows: Vec<IndexRow>,
    records: Vec<TrackRecord>,
}

impl View for MemoryStore {
    type V = StoreState;

    closed spec fn view(&self) -> StoreState {
        StoreState {
            rows: self.rows@.map_values(|r: IndexRow| r@),
            records: record_views(self.records@),
        }
    }
}

impl MemoryStore {
    /// A store that holds nothing.
    pub fn new() -> (store: MemoryStore)
        ensures
            store@ == empty_state(),
            well_formed(store@),
    {
        let store = MemoryStore { rows: Vec::new(), records: Vec::new() };
        assert(store@.rows =~= Seq::<Row>::empty());
        assert(store@.records =~= Seq::<Record>::empty());
        store
    }

    fn holds_row(&self, hash: u64, time_ms: u64, track_id: &String) -> (held: bool)
        ensures
            held == self@.rows.contains(Row { hash, time_ms, track: track_id@ }),
    {
        let ghost row = Row { hash, time_ms, track: track_id@ };
        let mut i: usize = 0;
        while i < self.rows.len()
            invariant
                i <= self.rows.len(),
                row == (Row { hash, time_ms, track: track_id@ }),
                forall|k: int| 0 <= k < i ==> self@.rows[k] != row,
            decreases self.rows.len() - i,
        {
            if self.rows[i].hash == hash && self.rows[i].time_ms == time_ms && self.rows[i].track_id
                == *track_id {
                assert(self@.rows[i as int] == row);
                return true;
            }
            i = i + 1;
        }
        false
    }

    /// Adds, for each fingerprint, the posting of `track_id` to the posting
    /// set of the fingerprint's hash. A posting already held is kept once.
    pub fn put_fingerprints(&mut self, track_id: &String, fingerprints: &Vec<Fingerprint>)
        ensures
            final(self)@.rows == add_rows(
                old(self)@.rows,
                track_id@,
                fingerprints@,
                fingerprints.len() as int,
            ),
            final(self)@.records == old(self)@.records,
            well_formed(old(self)@) ==> well_formed(final(self)@),
    {
        let mut i: usize = 0;
        while i < fingerprints.len()
            invariant
                i <= fingerprints.len(),
                self@.rows == add_rows(old(self)@.rows, track_id@, fingerprints@, i as int),
                self@.records == old(self)@.records,
            decreases fingerprints.len() - i,
        {
            let fingerprint: Fingerprint = fingerprints[i];
            if !self.holds_row(fingerprint.hash, fingerprint.time_ms, track_id) {
                let ghost before = self@.rows;
                let row = IndexRow {
                    hash: fingerprint.hash,
                    time_ms: fingerprint.time_ms,
                    track_id: track_id.clone(),
                };
                self.rows.push(row);
                assert(self@.rows =~= before.push(row@));
            }
            i = i + 1;
        }
        proof {
            lemma_add_rows(old(self)@.rows, track_id@, fingerprints@, fingerprints.len() as int);
        }
    }

    /// The posting list of `hash`, in the order in which the postings were
    /// added.
    pub fn get_postings(&self, hash: u64) -> (list: Vec<Posting>)
        ensures
            posting_views(list@) == postings_of(self@.rows, hash),
    {
        let mut list: Vec<Posting> = Vec::new();
        let mut i: usize = 0;
        while i < self.rows.len()
            invariant
                i <= self.rows.len(),
                posting_views(list@) == postings_among(self@.rows, hash, i as int),
            decreases self.rows.len() - i,
        {
            if self.rows[i].hash == hash {
                let ghost before = posting_views(list@);
                let posting = Posting {
                    time_ms: self.rows[i].time_ms,
                    track_id: self.rows[i].track_id.clone(),
                };
                list.push(posting);
                assert(posting_views(list@) =~= before.push(posting@));
            }
            i = i + 1;
        }
        list
    }

    fn find_record(&self, track_id: &String) -> (place: usize)
        ensures
            place == place_of(self@.records, track_id@),
            place <= self.records.len(),
            self.records.len() == self@.records.len(),
    {
        let mut i: usize = 0;
        while i < self.records.len()
            invariant
                i <= self.records.len(),
                forall|k: int| 0 <= k < i ==> (#[trigger] self@.records[k]).track != track_id@,
            decreases self.records.len() - i,
        {
            if self.records[i].track_id == *track_id {
                proof {
                    assert(self@.records[i as int].track == track_id@);
                    assert(is_place_of(self@.records, track_id@, i as int));
                    lemma_place_of(self@.records, track_id@);
                }
                return i;
            }
            i = i + 1;
        }
        proof {
            assert(is_place_of(self@.records, track_id@, i as int));
            lemma_place_of(self@.records, track_id@);
        }
        i
    }

    /// Stores `payload` as the serialized record of `track_id`, in place of
    /// any record stored for it before.
    pub fn put_metadata(&mut self, track_id: &String, payload: &String)
        ensures
            final(self)@.records == put_record(old(self)@.records, track_id@, payload@),
            final(self)@.rows == old(self)@.rows,
            metadata_of(final(self)@.records, track_id@) == Some(payload@),
            is_listed(final(self)@.records, track_id@),
            well_formed(old(self)@) ==> well_formed(final(self)@),
    {
        let place: usize = self.find_record(track_id);
        let ghost before = self@.records;
        let record = TrackRecord { track_id: track_id.clone(), payload: payload.clone() };
        if place < self.records.len() {
            self.records.set(place, record);
            assert(self@.records =~= before.update(place as int, record@));
        } else {
            self.records.push(record);
            assert(self@.records =~= before.push(record@));
        }
        proof {
            lemma_put_record(before, track_id@, payload@);
        }
    }

    /// The serialized record of `track_id`, where one is stored.
    pub fn get_metadata(&self, track_id: &String) -> (payload: Option<String>)
        ensures
            match payload {
                Some(text) => metadata_of(self@.records, track_id@) == Some(text@),
                None => metadata_of(self@.records, track_id@) is None,
            },
    {
        let place: usize = self.find_record(track_id);
        if place < self.records.len() {
            Some(self.records[place].payload.clone())
        } else {
            None
        }
    }

    /// Whether a record of `track_id` is stored.
    pub fn has_track(&self, track_id: &String) -> (listed: bool)
        ensures
            listed == is_listed(self@.records, track_id@),
    {
        let place: usize = self.find_record(track_id);
        proof {
            lemma_place_of(self@.records, track_id@);
        }
        place < self.records.len()
    }

    /// Removes the record of `track_id`. The postings of the track stay in
    /// the index.
    pub fn delete_track(&mut self, track_id: &String)
        ensures
            final(self)@.records == remove_record(old(self)@.records, track_id@),
            final(self)@.rows == old(self)@.rows,
            well_formed(old(self)@) ==> well_formed(final(self)@) && !is_listed(
                final(self)@.records,
                track_id@,
            ),
    {
        let place: usize = self.find_record(track_id);
        let ghost before = self@.records;
        if place < self.records.len() {
            let _ = self.records.remove(place);
            assert(self@.records =~= before.remove(place as int));
        }
        proof {
            if well_formed(old(self)@) {
                lemma_remove_record(before, track_id@);
            }
        }
    }

    /// Every record stored, in the order in which the tracks were first
    /// stored.
    pub fn list_tracks(&self) -> (list: Vec<TrackRecord>)
        ensures
            record_views(list@) == self@.records,
    {
        let mut list: Vec<TrackRecord> = Vec::new();
        let mut i: usize = 0;
        while i < self.records.len()
            invariant
                i <= self.records.len(),
                list.len() == i,
                forall|k: int| 0 <= k < i ==> (#[trigger] list@[k])@ == self@.records[k],
            decreases self.records.len() - i,
        {
            let record = TrackRecord {
                track_id: self.records[i].track_id.clone(),
                payload: self.records[i].payload.clone(),
            };
            list.push(record);
            i = i + 1;
        }
        assert(record_views(list@) =~= self@.records);
        list
    }
}


} // verus!
