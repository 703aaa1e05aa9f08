//! The occurrence extractor: a single left-to-right scan of a sequence for
//! one window length `k`, accepting an occurrence of a k-mer only when it
//! does not overlap the most recently accepted occurrence of the same k-mer.

use crate::record::{
    count_zeros, new_record, push_position, push_score, record_inv, KmerData, KmerDataView,
};
use crate::table::KmerTable;
use vstd::prelude::*;

verus! {

/// The symbol that marks an unknown position of the sequence (ASCII `N`); a
/// window that holds it is skipped.
pub const EXCLUDED_SYMBOL: u8 = 78;

/// A fatal condition of a scan.
#[derive(Clone, Copy, Debug, PartialEq, Eq)]
pub enum KmerError {
    /// The configured window range is empty or starts below one.
    InvalidConfig,
    /// The sequence holds a byte that is no symbol at all.
    MalformedInput,
}

/// A byte that can be read as a symbol of the sequence's text.
pub open spec fn is_valid_symbol(b: u8) -> bool {
    b < 128
}

/// Every byte of the sequence is a symbol.
pub open spec fn seq_valid(s: Seq<u8>) -> bool {
    forall|p: int| 0 <= p < s.len() ==> is_valid_symbol(#[trigger] s[p])
}

/// The window of length `k` that starts at position `i`.
pub open spec fn window(s: Seq<u8>, k: u64, i: int) -> Seq<u8> {
    s.subrange(i, i + k as int)
}

/// Whether a window holds the excluded symbol.
pub open spec fn has_excluded(w: Seq<u8>) -> bool {
    exists|j: int| 0 <= j < w.len() && #[trigger] w[j] == EXCLUDED_SYMBOL
}

/// A record after accepting one more occurrence at position `i`: the gap to
/// the previously accepted occurrence joins the scores, `i` the positions.
pub open spec fn accept_record(r: KmerDataView, i: u64, k: u64) -> KmerDataView {
    push_position(push_score(r, (i - r.positions.last() - k) as u64), i)
}

/// One step of the scan: how the table changes when window `i` is examined.
/// A window holding the excluded symbol is skipped; a first occurrence opens
/// a record; a later occurrence is accepted only if it starts at least `k`
/// positions after the most recently accepted occurrence of the same k-mer.
pub open spec fn scan_step(
    m: Map<Seq<u8>, KmerDataView>,
    w: Seq<u8>,
    i: u64,
    k: u64,
) -> Map<Seq<u8>, KmerDataView> {
    if has_excluded(w) {
        m
    } else if !m.contains_key(w) {
        m.insert(w, new_record(i))
    } else if i < m[w].positions.last() + k {
        m
    } else {
        m.insert(w, accept_record(m[w], i, k))
    }
}

/// The table after the first `n` windows of the scan with window length `k`.
pub open spec fn scan(s: Seq<u8>, k: u64, n: int) -> Map<Seq<u8>, KmerDataView>
    decreases n,
{
    if n <= 0 {
        Map::empty()
    } else {
        scan_step(scan(s, k, n - 1), window(s, k, n - 1), (n - 1) as u64, k)
    }
}

/// What holds of every record after `n` windows: its internal consistency
/// (counts, scores and the non-overlap of accepted occurrences), positions
/// below `n` in increasing order, and at most `n` accepted occurrences.
pub open spec fn scan_record_ok(r: KmerDataView, k: u64, n: int) -> bool {
    &&& record_inv(r, k)
    &&& r.count <= n
    &&& r.zeros <= r.scores.len()
    &&& forall|j: int| 0 <= j < r.positions.len() ==> #[trigger] r.positions[j] < n
}

/// The laws of the scan. Every record of the table after `n` windows is
/// internally consistent: its positions and scores agree with its count,
/// each score is the non-negative gap between consecutive accepted
/// positions, so no two accepted occurrences of a k-mer overlap, and `zeros`
/// counts the zero gaps. Every key has length `k` and is free of the
/// excluded symbol.
pub proof fn lemma_scan_records_valid(s: Seq<u8>, k: u64, n: int)
    requires
        1 <= k,
        n <= s.len() - k + 1,
        s.len() <= u64::MAX,
    ensures
        forall|w: Seq<u8>| #[trigger]
            scan(s, k, n).contains_key(w) ==> scan_record_ok(scan(s, k, n)[w], k, n) && w.len()
                == k && !has_excluded(w),
    decreases n,
{
    if n <= 0 {
    } else {
        lemma_scan_records_valid(s, k, n - 1);
        let prev = scan(s, k, n - 1);
        let w0 = window(s, k, n - 1);
        let i = (n - 1) as u64;
        let cur = scan(s, k, n);
        assert(w0.len() == k);
        assert forall|w: Seq<u8>| #[trigger]
            cur.contains_key(w) implies scan_record_ok(cur[w], k, n) && w.len() == k
            && !has_excluded(w) by {
            if has_excluded(w0) || (prev.contains_key(w0) && i < prev[w0].positions.last() + k) {
                assert(cur == prev);
                assert(scan_record_ok(prev[w], k, n - 1));
            } else if !prev.contains_key(w0) {
                assert(cur == prev.insert(w0, new_record(i)));
                if w == w0 {
                    let r = new_record(i);
                    assert(r.positions =~= seq![i]);
                    assert(r.scores =~= Seq::<u64>::empty());
                    assert(count_zeros(r.scores) == 0);
                    assert(scan_record_ok(r, k, n));
                } else {
                    assert(prev.contains_key(w));
                    assert(scan_record_ok(prev[w], k, n - 1));
                }
            } else {
                let old_r = prev[w0];
                let r = accept_record(old_r, i, k);
                assert(cur == prev.insert(w0, r));
                if w == w0 {
                    assert(scan_record_ok(old_r, k, n - 1));
                    let last = old_r.positions.last();
                    assert(old_r.positions.len() >= 1);
                    assert(old_r.positions[old_r.positions.len() - 1] < n - 1);
                    let score = (i - last - k) as u64;
                    assert(last + k <= i);
                    assert(score == i - last - k);
                    let mid = push_score(old_r, score);
                    assert(mid.scores =~= old_r.scores.push(score));
                    assert(mid.scores.drop_last() =~= old_r.scores);
                    assert(count_zeros(mid.scores) == count_zeros(old_r.scores) + if score == 0 {
                        1int
                    } else {
                        0int
                    });
                    assert(r.positions =~= old_r.positions.push(i));
                    assert(r.scores == mid.scores);
                    assert forall|j: int|
                        0 <= j < r.scores.len() implies r.positions[j] + k <= #[trigger] r
                        .positions[j + 1] && r.scores[j] == r.positions[j + 1] - r.positions[j]
                        - k by {
                        if j < r.scores.len() - 1 {
                            assert(r.positions[j] == old_r.positions[j]);
                            assert(r.positions[j + 1] == old_r.positions[j + 1]);
                            assert(r.scores[j] == old_r.scores[j]);
                        } else {
                            assert(r.positions[j] == last);
                            assert(r.positions[j + 1] == i);
                            assert(r.scores[j] == score);
                        }
                    }
                    assert forall|j: int|
                        0 <= j < r.positions.len() implies #[trigger] r.positions[j] < n by {
                        if j < r.positions.len() - 1 {
                            assert(r.positions[j] == old_r.positions[j]);
                            assert(old_r.positions[j] < n - 1);
                        }
                    }
                    assert(scan_record_ok(r, k, n));
                } else {
                    assert(prev.contains_key(w));
                    assert(scan_record_ok(prev[w], k, n - 1));
                }
            }
        }
    }
}

/// The scan is a function of the sequence and the window length alone: two
/// tables obtained from the same sequence and `k` hold identical records,
/// whatever order the scans were run in or stored.
pub proof fn lemma_scan_deterministic(
    s: Seq<u8>,
    k: u64,
    n: int,
    t1: Map<Seq<u8>, KmerDataView>,
    t2: Map<Seq<u8>, KmerDataView>,
)
    requires
        t1 == scan(s, k, n),
        t2 == scan(s, k, n),
    ensures
        t1 == t2,
{
}

/// Report that every byte of `s` is a symbol.
pub(crate) fn all_valid(s: &[u8]) -> (r: bool)
    ensures
        r == seq_valid(s@),
{
    let n = s.len();
    let mut i: usize = 0;
    while i < n
        invariant
            n == s@.len(),
            i <= n,
            forall|p: int| 0 <= p < i ==> is_valid_symbol(#[trigger] s@[p]),
        decreases n - i,
    {
        if s[i] >= 128 {
            return false;
        }
        i += 1;
    }
    true
}

/// Report whether the window of length `k` at position `i` holds the
/// excluded symbol.
fn window_has_excluded(s: &[u8], i: usize, k: usize) -> (r: bool)
    requires
        i + k <= s@.len(),
    ensures
        r == has_excluded(window(s@, k as u64, i as int)),
{
    let ghost w = window(s@, k as u64, i as int);
    let n = s.len();
    let mut j: usize = 0;
    while j < k
        invariant
            i + k <= s@.len(),
            n == s@.len(),
            j <= k,
            w == window(s@, k as u64, i as int),
            forall|t: int| 0 <= t < j ==> #[trigger] s@[i as int + t] != EXCLUDED_SYMBOL,
        decreases k - j,
    {
        if s[i + j] == EXCLUDED_SYMBOL {
            proof {
                assert(w[j as int] == s@[i as int + j as int]);
            }
            return true;
        }
        j += 1;
    }
    proof {
        assert forall|t: int| 0 <= t < w.len() implies #[trigger] w[t] != EXCLUDED_SYMBOL by {
            assert(w[t] == s@[i as int + t]);
        }
    }
    false
}

/// The window of length `k` at position `i`, as an owned byte string.
fn copy_window(s: &[u8], i: usize, k: usize) -> (r: Vec<u8>)
    requires
        i + k <= s@.len(),
    ensures
        r@ == window(s@, k as u64, i as int),
{
    let mut v: Vec<u8> = Vec::with_capacity(k);
    let n = s.len();
    let mut j: usize = 0;
    while j < k
        invariant
            i + k <= s@.len(),
            n == s@.len(),
            j <= k,
            v@ == s@.subrange(i as int, i as int + j as int),
        decreases k - j,
    {
        v.push(s[i + j]);
        proof {
            assert(v@ =~= s@.subrange(i as int, i as int + j as int + 1));
        }
        j += 1;
    }
    v
}

/// Scan `s` once with window length `k` and build the table of every k-mer
/// with the positions of its accepted occurrences.
///
/// The scan fails, with no partial table, exactly when some byte of `s` is
/// no symbol; otherwise the table is precisely the one the scan describes,
/// and the counts of all records sum to at most the number of windows.
pub fn get_kmers(s: &[u8], k: u64) -> (r: Result<KmerTable, KmerError>)
    requires
        1 <= k <= s@.len(),
    ensures
        r is Ok <==> seq_valid(s@),
        r matches Ok(t) ==> t.wf() && t@ == scan(s@, k, s@.len() - k + 1) && t.total() <= s@.len()
            - k + 1,
        r matches Ok(t) ==> forall|w: Seq<u8>| #[trigger]
            t@.contains_key(w) ==> scan_record_ok(t@[w], k, s@.len() - k + 1) && w.len() == k
                && !has_excluded(w),
        r matches Err(e) ==> e == KmerError::MalformedInput,
{
    if !all_valid(s) {
        return Err(KmerError::MalformedInput);
    }
    let l = s.len();
    let ku = k as usize;
    let n_windows = l - ku + 1;
    let mut table = KmerTable::new();
    let mut i: usize = 0;
    while i < n_windows
        invariant
            1 <= k <= s@.len(),
            ku == k,
            l == s@.len(),
            n_windows == l - ku + 1,
            i <= n_windows,
            table.wf(),
            table@ == scan(s@, k, i as int),
            table.total() <= i,
        decreases n_windows - i,
    {
        proof {
            lemma_scan_records_valid(s@, k, i as int);
        }
        let ghost w = window(s@, k, i as int);
        if !window_has_excluded(s, i, ku) {
            let key = copy_window(s, i, ku);
            match table.get_last_position(key.as_slice()) {
                None => {
                    let data = KmerData::new(i as u64, l);
                    table.insert(key, data);
                },
                Some(last) => {
                    proof {
                        assert(scan_record_ok(table@[w], k, i as int));
                        assert(table@[w].positions.last() < i);
                    }
                    let diff = (i as u64) - last;
                    if diff >= k {
                        let score = diff - k;
                        proof {
                            assert(table@[w].count < u64::MAX);
                            assert(table@[w].zeros < u64::MAX);
                            assert(score == (i as u64 - table@[w].positions.last() - k) as u64);
                        }
                        table.update_record(key.as_slice(), i as u64, score);
                    }
                },
            }
        }
        proof {
            assert(table@ == scan_step(scan(s@, k, i as int), w, i as u64, k));
        }
        i += 1;
    }
    table.reduce();
    proof {
        lemma_scan_records_valid(s@, k, n_windows as int);
    }
    Ok(table)
}

} // verus!
