use music_finder::hash::hash_tuple;
use music_finder::landmarks::{
    check_neighbours, enter_fingerprint, make_landmark, pair_landmarks, Fingerprint, IndexError,
};
use music_finder::peaks::Peak;

fn peak(time_ms: usize, freq_hz: usize) -> Peak {
    Peak { time_ms, freq_hz, magnitude: 0x4000_0000 }
}

fn fp(hash: u64, time_ms: u64) -> Fingerprint {
    Fingerprint { hash, time_ms }
}

#[test]
fn landmark_packs_anchor_target_and_delta() {
    let peaks = vec![peak(1000, 430), peak(1500, 860)];
    assert_eq!(make_landmark(&peaks, 0, 1), fp(hash_tuple(430, 860, 500), 1000));
    assert_eq!(make_landmark(&peaks, 1, 0), fp(hash_tuple(860, 430, 500), 1500));
    assert_eq!(make_landmark(&peaks, 0, 1).hash, 0x01AE_0000_035C_01F4);
    assert_eq!(make_landmark(&peaks, 0, 0), fp(hash_tuple(430, 430, 0), 1000));
}

#[test]
fn first_neighbour_is_passed_over() {
    let peaks = vec![peak(0, 100), peak(23, 200), peak(46, 300)];
    let neighbours = vec![vec![0, 1, 2], vec![1, 0, 2], vec![2, 1, 0]];
    let list = pair_landmarks(&peaks, &neighbours).unwrap();
    assert_eq!(
        list,
        vec![
            fp(hash_tuple(100, 200, 23), 0),
            fp(hash_tuple(100, 300, 46), 0),
            fp(hash_tuple(200, 100, 23), 23),
            fp(hash_tuple(200, 300, 23), 23),
            fp(hash_tuple(300, 200, 23), 46),
            fp(hash_tuple(300, 100, 46), 46),
        ]
    );
}

#[test]
fn at_most_four_landmarks_for_each_peak() {
    let mut peaks = Vec::new();
    let mut neighbours = Vec::new();
    for k in 0..20usize {
        peaks.push(peak(k * 23, 100 + k * 7));
        let mut near = vec![k];
        for d in 1..5usize {
            near.push((k + d) % 20);
        }
        neighbours.push(near);
    }
    let list = pair_landmarks(&peaks, &neighbours).unwrap();
    assert!(list.len() <= 4 * peaks.len());
    assert_eq!(list.len(), 80);
    for (i, a) in list.iter().enumerate() {
        for b in &list[i + 1..] {
            assert_ne!(a.hash, b.hash);
        }
    }
}

#[test]
fn later_time_takes_the_place_of_an_earlier_one() {
    let peaks = vec![peak(0, 100), peak(10, 200), peak(50, 100), peak(60, 200)];
    let neighbours = vec![vec![0, 1], vec![1], vec![2, 3], vec![3]];
    let list = pair_landmarks(&peaks, &neighbours).unwrap();
    assert_eq!(list, vec![fp(hash_tuple(100, 200, 10), 50)]);
}

#[test]
fn merged_entry_keeps_its_first_place() {
    let mut list = vec![fp(1, 10), fp(2, 20), fp(3, 30)];
    enter_fingerprint(&mut list, fp(2, 99));
    assert_eq!(list, vec![fp(1, 10), fp(2, 99), fp(3, 30)]);
    enter_fingerprint(&mut list, fp(4, 40));
    assert_eq!(list, vec![fp(1, 10), fp(2, 99), fp(3, 30), fp(4, 40)]);
    let mut empty = Vec::new();
    enter_fingerprint(&mut empty, fp(9, 9));
    assert_eq!(empty, vec![fp(9, 9)]);
}

#[test]
fn no_peaks_give_no_fingerprints() {
    assert_eq!(pair_landmarks(&Vec::new(), &Vec::new()), Ok(Vec::new()));
}

#[test]
fn lone_peak_gives_no_fingerprints() {
    assert_eq!(pair_landmarks(&vec![peak(0, 100)], &vec![vec![0]]), Ok(Vec::new()));
    assert_eq!(pair_landmarks(&vec![peak(0, 100)], &vec![Vec::new()]), Ok(Vec::new()));
}

#[test]
fn neighbour_lists_must_fit_the_peaks() {
    let peaks = vec![peak(0, 100), peak(23, 200)];
    assert_eq!(pair_landmarks(&peaks, &vec![vec![0, 1]]), Err(IndexError::BadNeighbours));
    assert_eq!(
        pair_landmarks(&peaks, &vec![vec![0, 1], vec![1, 2]]),
        Err(IndexError::BadNeighbours)
    );
    assert_eq!(
        pair_landmarks(&peaks, &vec![vec![0, 1, 0, 1, 0, 1], vec![1, 0]]),
        Err(IndexError::BadNeighbours)
    );
    assert_eq!(
        pair_landmarks(&peaks, &vec![vec![0, 1], vec![1, 0], Vec::new()]),
        Err(IndexError::BadNeighbours)
    );
    assert!(check_neighbours(&vec![vec![0, 1, 0, 1, 0], vec![1, 0]], 2));
    assert!(!check_neighbours(&vec![vec![2], vec![1, 0]], 2));
    assert!(check_neighbours(&Vec::new(), 0));
}
