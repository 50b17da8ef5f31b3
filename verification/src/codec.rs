//! The text forms under which fingerprints and metadata are stored.
//!
//! The inverted index is keyed by the decimal text of a hash; each member of
//! a posting set reads `{time}|{track}`; the metadata of a track is kept
//! under `song:{track}`.

use vstd::prelude::*;
use vstd::string::*;
use crate::landmarks::Fingerprint;

verus! {

/// The character of decimal digit `d`.
pub open spec fn digit_char(d: nat) -> char {
    (48 + d) as char
}

/// The decimal text of `n`, without sign and without leading zeros.
pub open spec fn decimal(n: nat) -> Seq<char>
    decreases n,
{
    if n < 10 {
        seq![digit_char(n)]
    } else {
        decimal(n / 10).push(digit_char(n % 10))
    }
}

/// Whether `c` is one of the ten decimal digits.
pub open spec fn is_digit(c: char) -> bool {
    '0' <= c <= '9'
}

/// The value of decimal digit `c`.
pub open spec fn digit_value(c: char) -> nat {
    (c as int - 48) as nat
}

/// Whether `s` holds decimal digits only.
pub open spec fn all_digits(s: Seq<char>) -> bool {
    forall|i: int| 0 <= i < s.len() ==> is_digit(#[trigger] s[i])
}

/// The number that a run of decimal digits denotes.
pub open spec fn digits_value(s: Seq<char>) -> nat
    decreases s.len(),
{
    if s.len() == 0 {
        0
    } else {
        digits_value(s.drop_last()) * 10 + digit_value(s.last())
    }
}

/// The digits of an unsigned number text: the text itself, or what follows
/// a single leading plus sign.
pub open spec fn unsigned_digits(s: Seq<char>) -> Seq<char> {
    if s.len() > 0 && s[0] == '+' {
        s.drop_first()
    } else {
        s
    }
}

/// The number that `s` denotes where `s` is an optional plus sign followed
/// by one or more decimal digits, and nothing where it is not.
pub open spec fn parse_decimal(s: Seq<char>) -> Option<nat> {
    let digits = unsigned_digits(s);
    if digits.len() > 0 && all_digits(digits) {
        Some(digits_value(digits))
    } else {
        None
    }
}

/// The 64-bit number that `s` denotes, where it denotes one that fits.
pub open spec fn parse_u64_text(s: Seq<char>) -> Option<u64> {
    match parse_decimal(s) {
        Some(v) => if v <= u64::MAX {
            Some(v as u64)
        } else {
            None
        },
        None => None,
    }
}

/// The place of the first `c` in `s`, or the length of `s` where it holds
/// none.
pub open spec fn position(s: Seq<char>, c: char) -> int
    decreases s.len(),
{
    if s.len() == 0 {
        0
    } else if s[0] == c {
        0
    } else {
        1 + position(s.drop_first(), c)
    }
}

/// The text of the index key of `hash`.
pub open spec fn index_key_text(hash: u64) -> Seq<char> {
    decimal(hash as nat)
}

/// The text of the posting of `track` at `time`.
pub open spec fn posting_text(time: u64, track: Seq<char>) -> Seq<char> {
    decimal(time as nat).push('|') + track
}

/// The text of the metadata key of `track`.
pub open spec fn metadata_key_text(track: Seq<char>) -> Seq<char> {
    seq!['s', 'o', 'n', 'g', ':'] + track
}

/// The time and the track that a posting text names: the text is cut at
/// its first `|`, and what stands before must denote a 64-bit number.
pub open spec fn decode_posting(text: Seq<char>) -> Option<(u64, Seq<char>)> {
    let cut = position(text, '|');
    if cut < text.len() {
        match parse_u64_text(text.take(cut)) {
            Some(time) => Some((time, text.skip(cut + 1))),
            None => None,
        }
    } else {
        None
    }
}

/// One entry of a posting list: a catalog track and a time in it.
#[derive(Clone, Debug)]
pub struct Posting {
    /// Time of the fingerprint in the track, in milliseconds.
    pub time_ms: u64,
    /// The track that holds the fingerprint.
    pub track_id: String,
}

impl View for Posting {
    type V = (u64, Seq<char>);

    open spec fn view(&self) -> (u64, Seq<char>) {
        (self.time_ms, self.track_id@)
    }
}

/// The views of a list of postings.
pub open spec fn posting_views(list: Seq<Posting>) -> Seq<(u64, Seq<char>)> {
    list.map_values(|p: Posting| p@)
}

fn digit_text(d: u64) -> (text: &'static str)
    requires
        d < 10,
    ensures
        text@ == seq![digit_char(d as nat)],
{
    proof {
        reveal_strlit("0");
        reveal_strlit("1");
        reveal_strlit("2");
        reveal_strlit("3");
        reveal_strlit("4");
        reveal_strlit("5");
        reveal_strlit("6");
        reveal_strlit("7");
        reveal_strlit("8");
        reveal_strlit("9");
    }
    let text = if d == 0 {
        "0"
    } else if d == 1 {
        "1"
    } else if d == 2 {
        "2"
    } else if d == 3 {
        "3"
    } else if d == 4 {
        "4"
    } else if d == 5 {
        "5"
    } else if d == 6 {
        "6"
    } else if d == 7 {
        "7"
    } else if d == 8 {
        "8"
    } else {
        "9"
    };
    assert(text@ =~= seq![digit_char(d as nat)]);
    text
}

/// Writes `n` in decimal.
pub fn format_u64(n: u64) -> (text: String)
    ensures
        text@ == decimal(n as nat),
    decreases n,
{
    if n < 10 {
        String::from_str(digit_text(n))
    } else {
        let mut text = format_u64(n / 10);
        text.append(digit_text(n % 10));
        assert(text@ =~= decimal((n / 10) as nat).push(digit_char((n % 10) as nat)));
        text
    }
}

/// The key under which the postings of `hash` are stored.
pub fn index_key(hash: u64) -> (key: String)
    ensures
        key@ == index_key_text(hash),
{
    format_u64(hash)
}

/// The member that records `track_id` at `time_ms` in a posting set.
pub fn posting_member(time_ms: u64, track_id: &str) -> (member: String)
    ensures
        member@ == posting_text(time_ms, track_id@),
{
    let mut member = format_u64(time_ms);
    proof {
        reveal_strlit("|");
    }
    member.append("|");
    member.append(track_id);
    assert(member@ =~= posting_text(time_ms, track_id@));
    member
}

/// The key under which the metadata of `track_id` is stored.
pub fn metadata_key(track_id: &str) -> (key: String)
    ensures
        key@ == metadata_key_text(track_id@),
{
    proof {
        reveal_strlit("song:");
    }
    let mut key = String::from_str("song:");
    key.append(track_id);
    assert(key@ =~= metadata_key_text(track_id@));
    key
}

proof fn lemma_digits_value_grows(s: Seq<char>, k: int)
    requires
        0 <= k <= s.len(),
    ensures
        digits_value(s.take(k)) <= digits_value(s),
    decreases s.len() - k,
{
    if k < s.len() {
        lemma_digits_value_grows(s, k + 1);
        assert(s.take(k + 1).drop_last() =~= s.take(k));
    } else {
        assert(s.take(k) =~= s);
    }
}

/// Reads an unsigned 64-bit number: an optional plus sign followed by one
/// or more decimal digits. Gives `None` for any other text and for a number
/// that does not fit.
pub fn parse_u64(text: &str) -> (value: Option<u64>)
    ensures
        value == parse_u64_text(text@),
{
    let len: usize = text.unicode_len();
    if len == 0 {
        return None;
    }
    let start: usize = if text.get_char(0) == '+' {
        1
    } else {
        0
    };
    if start == len {
        return None;
    }
    let ghost digits = unsigned_digits(text@);
    assert(digits =~= text@.skip(start as int));
    let mut value: u64 = 0;
    let mut i: usize = start;
    while i < len
        invariant
            start <= i <= len,
            len == text@.len(),
            digits == text@.skip(start as int),
            digits == unsigned_digits(text@),
            all_digits(digits.take(i - start)),
            value == digits_value(digits.take(i - start)),
        decreases len - i,
    {
        let c: char = text.get_char(i);
        let ghost read = digits.take(i - start);
        let ghost next = digits.take(i - start + 1);
        assert(next.drop_last() =~= read);
        assert(next.last() == c);
        if !('0' <= c && c <= '9') {
            assert(!is_digit(digits[i - start]));
            return None;
        }
        let d: u64 = (c as u32 - '0' as u32) as u64;
        assert(d == digit_value(c));
        if value > (u64::MAX - d) / 10 {
            proof {
                assert(digits_value(next) > u64::MAX);
                lemma_digits_value_grows(digits, i - start + 1);
            }
            return None;
        }
        value = value * 10 + d;
        assert(all_digits(next)) by {
            assert forall|j: int| 0 <= j < next.len() implies is_digit(#[trigger] next[j]) by {
                if j < read.len() {
                    assert(next[j] == read[j]);
                }
            }
        }
        i = i + 1;
    }
    assert(digits.take(len - start) =~= digits);
    Some(value)
}

proof fn lemma_position(s: Seq<char>, c: char, p: int)
    requires
        0 <= p <= s.len(),
        forall|j: int| 0 <= j < p ==> s[j] != c,
        p < s.len() ==> s[p] == c,
    ensures
        position(s, c) == p,
    decreases s.len(),
{
    if s.len() > 0 && p > 0 {
        let rest = s.drop_first();
        assert forall|j: int| 0 <= j < p - 1 implies rest[j] != c by {
            assert(rest[j] == s[j + 1]);
        }
        lemma_position(rest, c, p - 1);
    }
}

/// Finds the first `c` in `text`. Gives the length of `text` where it
/// holds none.
pub fn find_char(text: &str, c: char) -> (place: usize)
    ensures
        place == position(text@, c),
        place <= text@.len(),
{
    let len: usize = text.unicode_len();
    let mut i: usize = 0;
    while i < len
        invariant
            i <= len,
            len == text@.len(),
            forall|j: int| 0 <= j < i ==> text@[j] != c,
        decreases len - i,
    {
        if text.get_char(i) == c {
            proof {
                lemma_position(text@, c, i as int);
            }
            return i;
        }
        i = i + 1;
    }
    proof {
        lemma_position(text@, c, len as int);
    }
    len
}

/// Reads a member of a posting set. Gives `None` where the member holds no
/// `|` or where what stands before the first `|` is no 64-bit number.
pub fn parse_posting(member: &str) -> (posting: Option<Posting>)
    ensures
        match posting {
            Some(p) => decode_posting(member@) == Some(p@),
            None => decode_posting(member@) is None,
        },
{
    let len: usize = member.unicode_len();
    let cut: usize = find_char(member, '|');
    if cut >= len {
        return None;
    }
    let time_text: &str = member.substring_char(0, cut);
    assert(time_text@ =~= member@.take(cut as int));
    match parse_u64(time_text) {
        Some(time_ms) => {
            let track_text: &str = member.substring_char(cut + 1, len);
            assert(track_text@ =~= member@.skip(cut + 1));
            Some(Posting { time_ms, track_id: String::from_str(track_text) })
        },
        None => None,
    }
}

/// The decimal text of a number holds digits only, at least one, and
/// denotes that number.
pub proof fn lemma_decimal_denotes(n: nat)
    ensures
        decimal(n).len() >= 1,
        all_digits(decimal(n)),
        digits_value(decimal(n)) == n,
        parse_decimal(decimal(n)) == Some(n),
    decreases n,
{
    if n < 10 {
        let s = decimal(n);
        assert(s.drop_last() =~= Seq::<char>::empty());
        assert(digits_value(s.drop_last()) == 0);
    } else {
        lemma_decimal_denotes(n / 10);
        let head = decimal(n / 10);
        let s = decimal(n);
        assert(s.drop_last() =~= head);
        assert(s.last() == digit_char(n % 10));
        assert forall|i: int| 0 <= i < s.len() implies is_digit(#[trigger] s[i]) by {
            if i < head.len() {
                assert(s[i] == head[i]);
            }
        }
    }
    assert(decimal(n)[0] != '+');
}

/// Reading back a written number gives the number.
pub proof fn lemma_u64_round_trip(n: u64)
    ensures
        parse_u64_text(decimal(n as nat)) == Some(n),
{
    lemma_decimal_denotes(n as nat);
}

/// Reading back a written posting gives its time and its track, whatever
/// characters the track identifier holds.
pub proof fn lemma_posting_round_trip(time: u64, track: Seq<char>)
    ensures
        decode_posting(posting_text(time, track)) == Some((time, track)),
{
    let digits = decimal(time as nat);
    let text = posting_text(time, track);
    lemma_decimal_denotes(time as nat);
    assert forall|j: int| 0 <= j < digits.len() implies text[j] != '|' by {
        assert(text[j] == digits[j]);
        assert(is_digit(digits[j]));
    }
    assert(text[digits.len() as int] == '|');
    lemma_position(text, '|', digits.len() as int);
    assert(text.take(digits.len() as int) =~= digits);
    assert(text.skip(digits.len() as int + 1) =~= track);
}

/// Two postings with the same text are the same posting.
pub proof fn lemma_posting_text_injective(t1: u64, track1: Seq<char>, t2: u64, track2: Seq<char>)
    requires
        posting_text(t1, track1) == posting_text(t2, track2),
    ensures
        t1 == t2,
        track1 == track2,
{
    lemma_posting_round_trip(t1, track1);
    lemma_posting_round_trip(t2, track2);
}


/// The postings that the first `n` members of a posting set denote, in
/// their order. A member that denotes no posting is passed over.
pub open spec fn decoded_among(members: Seq<String>, n: int) -> Seq<(u64, Seq<char>)>
    decreases n,
{
    if n <= 0 {
        Seq::empty()
    } else {
        let earlier = decoded_among(members, n - 1);
        match decode_posting(members[n - 1]@) {
            Some(posting) => earlier.push(posting),
            None => earlier,
        }
    }
}

/// The key and the member that each of the first `n` fingerprints of
/// `track` adds to the inverted index.
pub open spec fn entries_among(track: Seq<char>, fingerprints: Seq<Fingerprint>, n: int) -> Seq<
    (Seq<char>, Seq<char>),
>
    decreases n,
{
    if n <= 0 {
        Seq::empty()
    } else {
        entries_among(track, fingerprints, n - 1).push(
            (
                index_key_text(fingerprints[n - 1].hash),
                posting_text(fingerprints[n - 1].time_ms, track),
            ),
        )
    }
}

/// The texts of a list of keys and members.
pub open spec fn entry_views(list: Seq<(String, String)>) -> Seq<(Seq<char>, Seq<char>)> {
    list.map_values(|e: (String, String)| (e.0@, e.1@))
}

/// Reads the members of a posting set. A member that denotes no posting is
/// passed over.
pub fn parse_postings(members: &Vec<String>) -> (list: Vec<Posting>)
    ensures
        posting_views(list@) == decoded_among(members@, members.len() as int),
        list.len() <= members.len(),
{
    let mut list: Vec<Posting> = Vec::new();
    let mut i: usize = 0;
    assert(posting_views(list@) =~= Seq::<(u64, Seq<char>)>::empty());
    while i < members.len()
        invariant
            i <= members.len(),
            list.len() <= i,
            posting_views(list@) == decoded_among(members@, i as int),
        decreases members.len() - i,
    {
        match parse_posting(members[i].as_str()) {
            Some(posting) => {
                let ghost before = posting_views(list@);
                list.push(posting);
                assert(posting_views(list@) =~= before.push(posting@));
            },
            None => {},
        }
        i = i + 1;
    }
    list
}

/// For each fingerprint of a track, the key of the posting set and the
/// member to add to it.
pub fn index_entries(track_id: &str, fingerprints: &Vec<Fingerprint>) -> (list: Vec<
    (String, String),
>)
    ensures
        entry_views(list@) == entries_among(
            track_id@,
            fingerprints@,
            fingerprints.len() as int,
        ),
        list.len() == fingerprints.len(),
{
    let mut list: Vec<(String, String)> = Vec::new();
    let mut i: usize = 0;
    assert(entry_views(list@) =~= Seq::<(Seq<char>, Seq<char>)>::empty());
    while i < fingerprints.len()
        invariant
            i <= fingerprints.len(),
            list.len() == i,
            entry_views(list@) == entries_among(track_id@, fingerprints@, i as int),
        decreases fingerprints.len() - i,
    {
        let ghost before = entry_views(list@);
        let entry = (
            index_key(fingerprints[i].hash),
            posting_member(fingerprints[i].time_ms, track_id),
        );
        list.push(entry);
        assert(entry_views(list@) =~= before.push((entry.0@, entry.1@)));
        i = i + 1;
    }
    list
}


/// What is written for a fingerprint can be read back: the key denotes the
/// hash, and the member denotes the time and the track.
pub proof fn lemma_entries_round_trip(track: Seq<char>, fingerprints: Seq<Fingerprint>, n: int)
    requires
        0 <= n <= fingerprints.len(),
    ensures
        entries_among(track, fingerprints, n).len() == n,
        forall|k: int|
            0 <= k < n ==> {
                let entry = #[trigger] entries_among(track, fingerprints, n)[k];
                &&& parse_u64_text(entry.0) == Some(fingerprints[k].hash)
                &&& decode_posting(entry.1) == Some((fingerprints[k].time_ms, track))
            },
    decreases n,
{
    if n > 0 {
        lemma_entries_round_trip(track, fingerprints, n - 1);
        let earlier = entries_among(track, fingerprints, n - 1);
        let all = entries_among(track, fingerprints, n);
        lemma_u64_round_trip(fingerprints[n - 1].hash);
        lemma_posting_round_trip(fingerprints[n - 1].time_ms, track);
        assert forall|k: int| 0 <= k < n implies {
            let entry = #[trigger] all[k];
            &&& parse_u64_text(entry.0) == Some(fingerprints[k].hash)
            &&& decode_posting(entry.1) == Some((fingerprints[k].time_ms, track))
        } by {
            if k < n - 1 {
                assert(all[k] == earlier[k]);
            }
        }
    }
}


} // verus!
