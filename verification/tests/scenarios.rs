//! Scenario tests for the extractor and the range orchestrator.

use kmer_scan::extract::{get_kmers, KmerError};
use kmer_scan::range::get_kmer_range;

#[test]
fn single_repeated_kmer() {
    // "AAAAA", k = 2: one key "AA", occurrences at 0 and 2 accepted, the
    // windows at 1 and 3 rejected as overlapping.
    let t = get_kmers(b"AAAAA", 2).unwrap();
    assert_eq!(t.len(), 1);
    let d = t.get(b"AA").unwrap();
    assert_eq!(d.count, 2);
    assert_eq!(d.positions, vec![0, 2]);
    assert_eq!(d.scores, vec![0]);
    assert_eq!(d.zeros, 1);
    assert!(t.get(b"AAA").is_none());
    assert!(t.get(b"CA").is_none());
}

#[test]
fn repeated_motif() {
    // "ACGTACGT", k = 4.
    let t = get_kmers(b"ACGTACGT", 4).unwrap();
    assert_eq!(t.len(), 4);

    let d = t.get(b"ACGT").unwrap();
    assert_eq!(d.count, 2);
    assert_eq!(d.positions, vec![0, 4]);
    assert_eq!(d.scores, vec![0]);
    assert_eq!(d.zeros, 1);

    let d = t.get(b"CGTA").unwrap();
    assert_eq!(d.count, 1);
    assert_eq!(d.positions, vec![1]);
    assert_eq!(d.scores, Vec::<u64>::new());
    assert_eq!(d.zeros, 0);

    let d = t.get(b"GTAC").unwrap();
    assert_eq!(d.count, 1);
    assert_eq!(d.positions, vec![2]);

    let d = t.get(b"TACG").unwrap();
    assert_eq!(d.count, 1);
    assert_eq!(d.positions, vec![3]);
}

#[test]
fn excluded_symbol_windows_are_skipped() {
    // "ACNGT", k = 2: the windows "CN" and "NG" are skipped.
    let t = get_kmers(b"ACNGT", 2).unwrap();
    assert_eq!(t.len(), 2);
    let d = t.get(b"AC").unwrap();
    assert_eq!(d.count, 1);
    assert_eq!(d.positions, vec![0]);
    let d = t.get(b"GT").unwrap();
    assert_eq!(d.count, 1);
    assert_eq!(d.positions, vec![3]);
    assert!(t.get(b"CN").is_none());
    assert!(t.get(b"NG").is_none());
    // No stored key holds the excluded symbol.
    for j in 0..t.len() {
        let e = t.entry_at(j);
        assert!(!e.0.contains(&b'N'));
    }
}

#[test]
fn range_clamps_to_sequence_length() {
    // min 2, max 10, sequence of length 5: tables exist for k in 2..=5 only.
    let r = get_kmer_range(2, 10, b"ACGTA").unwrap();
    assert_eq!(r.len(), 4);
    for k in 2..=5u64 {
        assert!(r.get(k).is_some());
    }
    assert!(r.get(1).is_none());
    for k in 6..=10u64 {
        assert!(r.get(k).is_none());
    }
    // Each held table is the one a single scan of that length builds.
    let t = r.get(2).unwrap();
    assert_eq!(t.len(), 4);
    let d = t.get(b"AC").unwrap();
    assert_eq!(d.count, 1);
    assert_eq!(d.positions, vec![0]);
    let t = r.get(5).unwrap();
    assert_eq!(t.len(), 1);
    assert_eq!(t.get(b"ACGTA").unwrap().positions, vec![0]);
}

#[test]
fn all_excluded_sequence_gives_empty_table() {
    let t = get_kmers(b"NNNNN", 2).unwrap();
    assert_eq!(t.len(), 0);
    assert!(t.get(b"NN").is_none());
}

#[test]
fn empty_sequence_gives_empty_range() {
    let r = get_kmer_range(2, 6, b"").unwrap();
    assert_eq!(r.len(), 0);
    assert!(r.get(2).is_none());
}

#[test]
fn extraction_is_deterministic() {
    // Two scans of the same sequence and k yield identical records.
    let t1 = get_kmers(b"ACGTACGTNACGT", 4).unwrap();
    let t2 = get_kmers(b"ACGTACGTNACGT", 4).unwrap();
    assert_eq!(t1.len(), t2.len());
    for j in 0..t1.len() {
        let e = t1.entry_at(j);
        let d2 = t2.get(&e.0).unwrap();
        assert_eq!(e.1.count, d2.count);
        assert_eq!(e.1.positions, d2.positions);
        assert_eq!(e.1.scores, d2.scores);
        assert_eq!(e.1.zeros, d2.zeros);
    }
}

#[test]
fn counts_stay_within_window_count() {
    // Sum of the counts of all records is at most L - k + 1.
    let s = b"AAAAACGTACGTAAAAA";
    let k = 3usize;
    let t = get_kmers(s, k as u64).unwrap();
    let mut sum = 0u64;
    for j in 0..t.len() {
        sum += t.entry_at(j).1.count;
    }
    assert!(sum <= (s.len() - k + 1) as u64);
}

#[test]
fn records_keep_their_invariant() {
    // Positions and scores agree with the count, every gap is the distance
    // between consecutive accepted positions minus k, and never negative.
    let k = 3u64;
    let t = get_kmers(b"ACGACGACGACG", k).unwrap();
    for j in 0..t.len() {
        let d = &t.entry_at(j).1;
        assert!(d.count >= 1);
        assert_eq!(d.positions.len() as u64, d.count);
        assert_eq!(d.scores.len() as u64, d.count - 1);
        let mut zeros = 0u64;
        for i in 0..d.scores.len() {
            assert!(d.positions[i + 1] >= d.positions[i] + k);
            assert_eq!(d.scores[i], d.positions[i + 1] - d.positions[i] - k);
            if d.scores[i] == 0 {
                zeros += 1;
            }
        }
        assert_eq!(d.zeros, zeros);
    }
}

#[test]
fn invalid_configuration_is_rejected() {
    assert_eq!(get_kmer_range(0, 5, b"ACGT").unwrap_err(), KmerError::InvalidConfig);
    assert_eq!(get_kmer_range(3, 2, b"ACGT").unwrap_err(), KmerError::InvalidConfig);
}

#[test]
fn malformed_input_is_fatal() {
    assert_eq!(get_kmers(&[b'A', 0xC8, b'C'], 2).unwrap_err(), KmerError::MalformedInput);
    assert_eq!(get_kmer_range(1, 2, &[b'A', 0xC8, b'C']).unwrap_err(), KmerError::MalformedInput);
    // A range that no window length of which fits the sequence runs no scan,
    // so nothing reads the bad byte.
    let r = get_kmer_range(2, 4, &[0xC8]).unwrap();
    assert_eq!(r.len(), 0);
}
