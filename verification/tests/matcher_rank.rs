use music_finder::codec::Posting;
use music_finder::landmarks::Fingerprint;
use music_finder::matcher::{
    collect_timeline, comes_before, count_anchors, count_coherence, count_landed, pair_hits,
    rank_tracks, score_tracks, select_top, Candidate, Hit,
};

fn hit(hash: u64, query_time: u64, catalog_time: u64, track: &str) -> Hit {
    Hit { hash, query_time, catalog_time, track_id: track.to_string() }
}

fn full_anchors(track: &str, anchors: u64, first_hash: u64, step: u64) -> Vec<Hit> {
    let mut hits = Vec::new();
    for a in 0..anchors {
        for n in 0..4 {
            hits.push(hit(first_hash + a * 4 + n, a * step, a * step, track));
        }
    }
    hits
}

fn candidate(track: &str, time_diff: usize, count: usize) -> Candidate {
    Candidate { track_id: track.to_string(), time_diff, count }
}

#[test]
fn counts_hits_on_a_time() {
    let hits = vec![hit(1, 0, 10, "a"), hit(2, 0, 10, "a"), hit(3, 0, 10, "b"), hit(4, 0, 11, "a")];
    assert_eq!(count_landed(&hits, &"a".to_string(), 10), 2);
    assert_eq!(count_landed(&hits, &"b".to_string(), 10), 1);
    assert_eq!(count_landed(&hits, &"a".to_string(), 12), 0);
    assert_eq!(count_landed(&Vec::new(), &"a".to_string(), 10), 0);
}

#[test]
fn anchor_count_needs_exactly_four_hits() {
    let mut hits = Vec::new();
    for n in 0..3 {
        hits.push(hit(n, 0, 100, "a"));
    }
    for n in 0..4 {
        hits.push(hit(10 + n, 0, 200, "a"));
    }
    for n in 0..5 {
        hits.push(hit(20 + n, 0, 300, "a"));
    }
    for n in 0..4 {
        hits.push(hit(30 + n, 0, 400, "b"));
    }
    assert_eq!(count_anchors(&hits, &"a".to_string()), 1);
    assert_eq!(count_anchors(&hits, &"b".to_string()), 1);
    assert_eq!(count_anchors(&hits, &"c".to_string()), 0);
}

#[test]
fn first_hit_of_a_track_counts() {
    let hits = full_anchors("a", 1, 0, 23);
    assert_eq!(count_anchors(&hits, &"a".to_string()), 1);
}

#[test]
fn anchor_count_of_interleaved_times() {
    let mut hits = Vec::new();
    for round in 0..4 {
        for t in 0..12u64 {
            hits.push(hit(round * 100 + t, t, t * 23, "a"));
        }
    }
    assert_eq!(count_anchors(&hits, &"a".to_string()), 12);
}

#[test]
fn timeline_of_a_track_and_of_the_query() {
    let hits = vec![hit(1, 5, 10, "a"), hit(2, 6, 20, "b"), hit(3, 7, 30, "a")];
    let tmp = "tmp".to_string();
    assert_eq!(collect_timeline(&hits, &"a".to_string(), &tmp), vec![10, 30]);
    assert_eq!(collect_timeline(&hits, &"b".to_string(), &tmp), vec![20]);
    assert_eq!(collect_timeline(&hits, &tmp, &tmp), vec![5, 6, 7]);
}

#[test]
fn timeline_of_a_track_named_like_the_query() {
    let hits = vec![hit(1, 5, 10, "tmp"), hit(2, 6, 20, "b")];
    let tmp = "tmp".to_string();
    assert_eq!(collect_timeline(&hits, &tmp, &tmp), vec![10, 5, 6]);
}

#[test]
fn coherence_counts_agreeing_windows() {
    assert_eq!(count_coherence(&vec![0, 100, 200, 300], &vec![50, 150, 250, 350]), 3);
    assert_eq!(count_coherence(&vec![0, 100, 200], &vec![0, 199, 200]), 2);
    assert_eq!(count_coherence(&vec![0, 100, 200], &vec![0, 200, 200]), 0);
    assert_eq!(count_coherence(&vec![0, 100], &vec![0, 199]), 1);
    assert_eq!(count_coherence(&vec![0, 100], &vec![0, 200]), 0);
    assert_eq!(count_coherence(&vec![0, 100], &vec![0, 1]), 1);
    assert_eq!(count_coherence(&vec![0, 100], &vec![0, 0]), 0);
}

#[test]
fn coherence_takes_distances_not_directions() {
    assert_eq!(count_coherence(&vec![500, 0], &vec![0, 500]), 1);
    assert_eq!(count_coherence(&vec![u64::MAX, 0], &vec![0, u64::MAX]), 1);
    assert_eq!(count_coherence(&vec![u64::MAX, 0], &vec![0, 0]), 0);
}

#[test]
fn coherence_pairs_by_position_up_to_the_shorter() {
    assert_eq!(count_coherence(&vec![0, 10, 20, 30, 40], &vec![0, 10]), 1);
    assert_eq!(count_coherence(&vec![0], &vec![0, 10, 20]), 0);
    assert_eq!(count_coherence(&Vec::new(), &vec![0, 10, 20]), 0);
    assert_eq!(count_coherence(&Vec::new(), &Vec::new()), 0);
}

#[test]
fn tracks_below_ten_anchors_are_dropped() {
    let mut hits = full_anchors("a", 9, 0, 23);
    hits.extend(full_anchors("b", 10, 1000, 23));
    let list = score_tracks(&hits, &"tmp".to_string());
    assert_eq!(list.len(), 1);
    assert_eq!(list[0].track_id, "b");
    assert_eq!(list[0].count, 10);
}

#[test]
fn candidates_come_in_order_of_first_hit() {
    let mut hits = vec![hit(9000, 0, 1, "b")];
    hits.extend(full_anchors("a", 10, 0, 23));
    hits.extend(full_anchors("b", 11, 1000, 23));
    let list = score_tracks(&hits, &"tmp".to_string());
    let ids: Vec<&str> = list.iter().map(|c| c.track_id.as_str()).collect();
    assert_eq!(ids, vec!["b", "a"]);
    assert_eq!(list[0].count, 11);
    assert_eq!(list[1].count, 10);
}

#[test]
fn scores_of_a_sole_track() {
    let hits = full_anchors("a", 10, 0, 23);
    let list = score_tracks(&hits, &"tmp".to_string());
    assert_eq!(list.len(), 1);
    assert_eq!(list[0].count, 10);
    assert_eq!(list[0].time_diff, 39);
}

#[test]
fn ranking_order() {
    let list = vec![
        candidate("low", 1, 50),
        candidate("high", 9, 10),
        candidate("mid", 5, 10),
        candidate("mid_more", 5, 11),
    ];
    assert_eq!(select_top(&list, 5), vec![1, 3, 2, 0]);
    assert_eq!(select_top(&list, 2), vec![1, 3]);
    assert_eq!(select_top(&list, 0), Vec::<usize>::new());
}

#[test]
fn equal_scores_go_to_the_later_candidate() {
    let list = vec![candidate("first", 5, 10), candidate("second", 5, 10), candidate("third", 5, 10)];
    assert_eq!(select_top(&list, 5), vec![2, 1, 0]);
    assert!(comes_before(&list, 1, 0));
    assert!(!comes_before(&list, 0, 1));
    assert!(!comes_before(&list, 1, 1));
}

#[test]
fn ranking_agrees_with_sort_then_reverse() {
    let list = vec![
        candidate("a", 3, 12),
        candidate("b", 7, 10),
        candidate("c", 3, 12),
        candidate("d", 0, 40),
        candidate("e", 7, 11),
        candidate("f", 3, 10),
        candidate("g", 7, 10),
    ];
    let mut order: Vec<usize> = (0..list.len()).collect();
    order.sort_by_key(|&i| (list[i].time_diff, list[i].count));
    order.reverse();
    order.truncate(5);
    assert_eq!(select_top(&list, 5), order);
}

#[test]
fn at_most_five_tracks_are_ranked() {
    let mut hits = Vec::new();
    for (i, name) in ["a", "b", "c", "d", "e", "f", "g"].iter().enumerate() {
        hits.extend(full_anchors(name, 10 + i as u64, 1000 * i as u64, 23));
    }
    let top = rank_tracks(&hits, &"tmp".to_string());
    assert_eq!(top.len(), 5);
    for c in &top {
        assert!(c.count >= 10);
    }
    for pair in top.windows(2) {
        assert!((pair[0].time_diff, pair[0].count) >= (pair[1].time_diff, pair[1].count));
    }
}

#[test]
fn nothing_is_ranked_without_hits() {
    assert!(rank_tracks(&Vec::new(), &"tmp".to_string()).is_empty());
    assert!(score_tracks(&Vec::new(), &"tmp".to_string()).is_empty());
}

#[test]
fn pairs_a_fingerprint_with_every_posting() {
    let postings = vec![
        Posting { time_ms: 10, track_id: "a".to_string() },
        Posting { time_ms: 20, track_id: "b".to_string() },
    ];
    let mut hits = vec![hit(1, 1, 1, "z")];
    pair_hits(Fingerprint { hash: 77, time_ms: 5 }, &postings, &mut hits);
    assert_eq!(hits.len(), 3);
    assert_eq!((hits[1].hash, hits[1].query_time, hits[1].catalog_time), (77, 5, 10));
    assert_eq!(hits[1].track_id, "a");
    assert_eq!((hits[2].hash, hits[2].query_time, hits[2].catalog_time), (77, 5, 20));
    assert_eq!(hits[2].track_id, "b");
    pair_hits(Fingerprint { hash: 78, time_ms: 6 }, &Vec::new(), &mut hits);
    assert_eq!(hits.len(), 3);
}
