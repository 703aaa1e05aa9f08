//! Unit tests for the occurrence record type.

use kmer_scan::record::KmerData;

#[test]
fn new_record_holds_one_position() {
    let d = KmerData::new(5, 10);
    assert_eq!(d.count, 1);
    assert_eq!(d.positions, vec![5]);
    assert_eq!(d.scores, Vec::<u64>::new());
    assert_eq!(d.zeros, 0);
}

#[test]
fn update_positions_appends_and_counts() {
    let mut d = KmerData::new(0, 8);
    d.update_positions(4);
    d.update_positions(9);
    assert_eq!(d.count, 3);
    assert_eq!(d.positions, vec![0, 4, 9]);
}

#[test]
fn update_scores_tracks_zero_gaps() {
    let mut d = KmerData::new(0, 8);
    d.update_scores(0);
    d.update_scores(3);
    d.update_scores(0);
    assert_eq!(d.scores, vec![0, 3, 0]);
    assert_eq!(d.zeros, 2);
}

#[test]
fn reduce_keeps_the_contents() {
    let mut d = KmerData::new(2, 100);
    d.update_scores(1);
    d.update_positions(7);
    d.reduce();
    assert_eq!(d.count, 2);
    assert_eq!(d.positions, vec![2, 7]);
    assert_eq!(d.scores, vec![1]);
    assert_eq!(d.zeros, 0);
}
