//! The per-k-mer occurrence record: how many occurrences were accepted, at
//! which starting offsets, and with which gaps between consecutive accepted
//! occurrences.

use vstd::prelude::*;

verus! {

/// Mathematical model of a [`KmerData`] record.
pub ghost struct KmerDataView {
    /// Number of accepted occurrences.
    pub count: int,
    /// Starting offsets of the accepted occurrences, in scan order.
    pub positions: Seq<u64>,
    /// Gap between each accepted occurrence and the one before it.
    pub scores: Seq<u64>,
    /// How many of the gaps are zero.
    pub zeros: int,
}

/// Record of the accepted occurrences of one k-mer.
#[derive(Debug, Clone)]
pub struct KmerData {
    /// Number of accepted occurrences.
    pub count: u64,
    /// Starting offsets of the accepted occurrences, in scan order.
    pub positions: Vec<u64>,
    /// Gap between each accepted occurrence and the one before it.
    pub scores: Vec<u64>,
    /// How many of the gaps are zero.
    pub zeros: u64,
}

impl View for KmerData {
    type V = KmerDataView;

    open spec fn view(&self) -> KmerDataView {
        KmerDataView {
            count: self.count as int,
            positions: self.positions@,
            scores: self.scores@,
            zeros: self.zeros as int,
        }
    }
}

/// The record created for the first accepted occurrence of a k-mer.
pub open spec fn new_record(pos: u64) -> KmerDataView {
    KmerDataView { count: 1, positions: seq![pos], scores: Seq::empty(), zeros: 0 }
}

/// A record after one more accepted position is appended.
pub open spec fn push_position(r: KmerDataView, pos: u64) -> KmerDataView {
    KmerDataView { count: r.count + 1, positions: r.positions.push(pos), ..r }
}

/// A record after one more gap value is appended.
pub open spec fn push_score(r: KmerDataView, score: u64) -> KmerDataView {
    KmerDataView {
        scores: r.scores.push(score),
        zeros: r.zeros + if score == 0 { 1int } else { 0int },
        ..r
    }
}

/// Number of entries of `s` that are zero.
pub open spec fn count_zeros(s: Seq<u64>) -> int
    decreases s.len(),
{
    if s.len() == 0 {
        0
    } else {
        count_zeros(s.drop_last()) + if s.last() == 0 { 1int } else { 0int }
    }
}

/// The internal consistency of a record built for window length `k`:
/// `positions` and `scores` agree with `count`, each score is the
/// non-negative gap between consecutive accepted positions (so consecutive
/// accepted occurrences never overlap), and `zeros` counts the zero gaps.
pub open spec fn record_inv(r: KmerDataView, k: u64) -> bool {
    &&& r.count >= 1
    &&& r.positions.len() == r.count
    &&& r.scores.len() == r.count - 1
    &&& forall|i: int|
        0 <= i < r.scores.len() ==> r.positions[i] + k <= #[trigger] r.positions[i + 1]
            && r.scores[i] == r.positions[i + 1] - r.positions[i] - k
    &&& r.zeros == count_zeros(r.scores)
}

/// Relies on `Vec::shrink_to_fit`: it only reduces the spare capacity and
/// leaves the length and the contents of the vector unchanged.
#[verifier::external_body]
pub(crate) fn shrink_vec<T>(v: &mut Vec<T>)
    ensures
        final(v)@ == old(v)@,
{
    v.shrink_to_fit()
}

impl KmerData {
    /// A fresh record for a k-mer first seen at position `pos`; `s_len`, the
    /// length of the scanned sequence, is only a capacity hint.
    pub fn new(pos: u64, s_len: usize) -> (r: Self)
        ensures
            r@ == new_record(pos),
    {
        let mut positions: Vec<u64> = Vec::with_capacity(s_len);
        let scores: Vec<u64> = Vec::new();
        positions.push(pos);
        let r = Self { count: 1, positions, scores, zeros: 0 };
        proof {
            assert(r@.positions =~= seq![pos]);
            assert(r@.scores =~= Seq::<u64>::empty());
        }
        r
    }

    /// Append one accepted position.
    pub fn update_positions(&mut self, pos: u64)
        requires
            old(self).count < u64::MAX,
        ensures
            final(self)@ == push_position(old(self)@, pos),
    {
        self.count += 1;
        self.positions.push(pos);
    }

    /// Append one gap value, keeping the zero-gap counter in step.
    pub fn update_scores(&mut self, score: u64)
        requires
            old(self).zeros < u64::MAX,
        ensures
            final(self)@ == push_score(old(self)@, score),
    {
        self.scores.push(score);
        if score == 0 {
            self.zeros += 1;
        }
    }

    /// Compact the record's storage; the contents do not change.
    pub fn reduce(&mut self)
        ensures
            final(self)@ == old(self)@,
    {
        shrink_vec(&mut self.positions);
        shrink_vec(&mut self.scores);
    }
}

} // verus!
