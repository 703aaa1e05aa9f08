//! The range orchestrator: one extraction scan per window length `k` in a
//! configured inclusive range, clamped to the sequence length, collected
//! into a mapping from `k` to that scan's table.

use crate::extract::{all_valid, get_kmers, scan, seq_valid, KmerError};
use crate::record::KmerDataView;
use crate::table::KmerTable;
use vstd::prelude::*;

verus! {

/// The map described by a sequence of `k`/table entries.
pub open spec fn kmap_of(e: Seq<(u64, KmerTable)>) -> Map<u64, Map<Seq<u8>, KmerDataView>>
    decreases e.len(),
{
    if e.len() == 0 {
        Map::empty()
    } else {
        kmap_of(e.drop_last()).insert(e.last().0, e.last().1@)
    }
}

/// The window lengths of the entries are pairwise distinct.
pub open spec fn unique_lengths(e: Seq<(u64, KmerTable)>) -> bool {
    forall|i: int, j: int|
        #![trigger e[i].0, e[j].0]
        0 <= i < j < e.len() ==> e[i].0 != e[j].0
}

/// With distinct window lengths, the map of an entry sequence holds exactly
/// the lengths of the entries, each bound to that entry's table.
pub proof fn lemma_kmap_of_char(e: Seq<(u64, KmerTable)>)
    requires
        unique_lengths(e),
    ensures
        forall|k: u64|
            #[trigger] kmap_of(e).contains_key(k) <==> exists|i: int|
                0 <= i < e.len() && #[trigger] e[i].0 == k,
        forall|i: int|
            0 <= i < e.len() ==> kmap_of(e).contains_key(#[trigger] e[i].0) && kmap_of(e)[e[i].0]
                == e[i].1@,
        kmap_of(e).dom().finite(),
        kmap_of(e).dom().len() == e.len(),
    decreases e.len(),
{
    if e.len() == 0 {
    } else {
        let d = e.drop_last();
        assert(unique_lengths(d)) by {
            assert(forall|i: int, j: int|
                #![trigger d[i].0, d[j].0]
                0 <= i < j < d.len() ==> d[i].0 == e[i].0 && d[j].0 == e[j].0);
        }
        lemma_kmap_of_char(d);
        let last = e.last();
        assert(forall|i: int| 0 <= i < d.len() ==> #[trigger] e[i].0 == d[i].0 && e[i].1@
            == d[i].1@);
        assert(e[e.len() - 1].0 == last.0);
        assert(forall|i: int| 0 <= i < d.len() ==> #[trigger] d[i].0 != last.0);
        assert(!kmap_of(d).contains_key(last.0));
        assert forall|k: u64| #[trigger] kmap_of(e).contains_key(k) implies exists|i: int|
            0 <= i < e.len() && #[trigger] e[i].0 == k by {
            if k == last.0 {
                assert(e[e.len() - 1].0 == k);
            } else {
                let i = choose|i: int| 0 <= i < d.len() && #[trigger] d[i].0 == k;
                assert(e[i].0 == k);
            }
        }
        assert(kmap_of(e).dom() =~= kmap_of(d).dom().insert(last.0));
        assert(kmap_of(e).dom().len() == e.len()) by {
            vstd::set::axiom_set_insert_len(kmap_of(d).dom(), last.0);
        }
    }
}

/// The collection of the tables of one sequence, one per window length.
#[derive(Debug)]
pub struct KmerRange {
    entries: Vec<(u64, KmerTable)>,
}

impl View for KmerRange {
    type V = Map<u64, Map<Seq<u8>, KmerDataView>>;

    closed spec fn view(&self) -> Map<u64, Map<Seq<u8>, KmerDataView>> {
        kmap_of(self.entries@)
    }
}

impl KmerRange {
    /// Well-formed: window lengths are pairwise distinct and every stored
    /// table is itself well-formed.
    pub closed spec fn wf(&self) -> bool {
        &&& unique_lengths(self.entries@)
        &&& forall|i: int| 0 <= i < self.entries@.len() ==> (#[trigger] self.entries@[i].1).wf()
    }

    /// An empty collection.
    pub fn new() -> (r: Self)
        ensures
            r.wf(),
            r@ == Map::<u64, Map<Seq<u8>, KmerDataView>>::empty(),
    {
        let r = Self { entries: Vec::new() };
        proof {
            assert(r@ =~= Map::<u64, Map<Seq<u8>, KmerDataView>>::empty());
        }
        r
    }

    /// The number of window lengths held.
    pub fn len(&self) -> (n: usize)
        requires
            self.wf(),
        ensures
            n == self@.dom().len(),
    {
        proof {
            lemma_kmap_of_char(self.entries@);
        }
        self.entries.len()
    }

    /// The table built for window length `k`, if the range covers it.
    pub fn get(&self, k: u64) -> (r: Option<&KmerTable>)
        requires
            self.wf(),
        ensures
            match r {
                Some(t) => self@.contains_key(k) && t@ == self@[k] && t.wf(),
                None => !self@.contains_key(k),
            },
    {
        proof {
            lemma_kmap_of_char(self.entries@);
        }
        let n = self.entries.len();
        let mut i: usize = 0;
        while i < n
            invariant
                self.wf(),
                n == self.entries@.len(),
                i <= n,
                forall|t: int| 0 <= t < i ==> #[trigger] self.entries@[t].0 != k,
            decreases n - i,
        {
            let e = &self.entries[i];
            if e.0 == k {
                proof {
                    lemma_kmap_of_char(self.entries@);
                }
                return Some(&self.entries[i].1);
            }
            i += 1;
        }
        None
    }

    /// Add the table built for a window length not yet held.
    pub fn insert(&mut self, k: u64, t: KmerTable)
        requires
            old(self).wf(),
            !old(self)@.contains_key(k),
            t.wf(),
        ensures
            final(self).wf(),
            final(self)@ == old(self)@.insert(k, t@),
    {
        proof {
            lemma_kmap_of_char(self.entries@);
        }
        let ghost e0 = self.entries@;
        let ghost tv = t@;
        self.entries.push((k, t));
        proof {
            let e1 = self.entries@;
            assert(e1.drop_last() =~= e0);
            assert(e1.last().0 == k && e1.last().1@ == tv);
            assert(kmap_of(e1) == kmap_of(e0).insert(k, tv));
            assert forall|i: int, j: int|
                #![trigger e1[i].0, e1[j].0]
                0 <= i < j < e1.len() implies e1[i].0 != e1[j].0 by {
                if j == e1.len() - 1 {
                    assert(e1[i] == e0[i]);
                    assert(e0[i].0 != k);
                } else {
                    assert(e1[i] == e0[i] && e1[j] == e0[j]);
                }
            }
            assert forall|i: int| 0 <= i < e1.len() implies (#[trigger] e1[i].1).wf() by {
                if i < e1.len() - 1 {
                    assert(e1[i] == e0[i]);
                    assert(e0[i].1.wf());
                }
            }
        }
    }
}

/// What the range orchestrator owes on success: one table for every window
/// length of the configured range that the sequence can hold, none for any
/// other length, and each exactly the table of that length's scan.
pub open spec fn range_ok(
    out: Map<u64, Map<Seq<u8>, KmerDataView>>,
    s: Seq<u8>,
    min_k: u64,
    max_k: u64,
) -> bool {
    &&& forall|k: u64| #[trigger] out.contains_key(k) <==> min_k <= k <= max_k && k <= s.len()
    &&& forall|k: u64| #[trigger] out.contains_key(k) ==> out[k] == scan(s, k, s.len() - k + 1)
}

/// Scan `s` once for every window length from `min_k` to `max_k`, clamped to
/// the sequence length, and collect the tables.
///
/// A range that is empty or starts below one is rejected before any work; a
/// byte that is no symbol is fatal as soon as any scan would read it; and on
/// success the collection holds exactly the table of each scanned length.
pub fn get_kmer_range(min_k: u64, max_k: u64, s: &[u8]) -> (r: Result<KmerRange, KmerError>)
    ensures
        min_k < 1 || min_k > max_k ==> (r matches Err(e) && e == KmerError::InvalidConfig),
        1 <= min_k <= max_k && min_k <= s@.len() && !seq_valid(s@) ==> (r matches Err(e) && e
            == KmerError::MalformedInput),
        1 <= min_k <= max_k && (min_k > s@.len() || seq_valid(s@)) ==> (r matches Ok(out)
            && out.wf() && range_ok(out@, s@, min_k, max_k)),
{
    if min_k < 1 || min_k > max_k {
        return Err(KmerError::InvalidConfig);
    }
    let l = s.len();
    let lu = l as u64;
    let out = KmerRange::new();
    if min_k > lu {
        proof {
            assert(forall|k: u64| #[trigger] out@.contains_key(k) == false);
        }
        return Ok(out);
    }
    if !all_valid(s) {
        return Err(KmerError::MalformedInput);
    }
    let eff_max = if max_k < lu {
        max_k
    } else {
        lu
    };
    let count = eff_max - min_k + 1;
    let mut out = out;
    let mut idx: u64 = 0;
    while idx < count
        invariant
            1 <= min_k <= max_k,
            min_k <= lu,
            lu == s@.len(),
            eff_max == if max_k < lu {
                max_k
            } else {
                lu
            },
            count == eff_max - min_k + 1,
            idx <= count,
            seq_valid(s@),
            out.wf(),
            forall|kk: u64| #[trigger] out@.contains_key(kk) <==> min_k <= kk < min_k + idx,
            forall|kk: u64| #[trigger]
                out@.contains_key(kk) ==> out@[kk] == scan(s@, kk, s@.len() - kk + 1),
        decreases count - idx,
    {
        let k = min_k + idx;
        let t = match get_kmers(s, k) {
            Ok(t) => t,
            Err(_) => {
                proof {
                    assert(false);
                }
                return Err(KmerError::MalformedInput);
            },
        };
        out.insert(k, t);
        idx += 1;
    }
    proof {
        assert forall|kk: u64| #[trigger]
            out@.contains_key(kk) <==> min_k <= kk <= max_k && kk <= s@.len() by {
            assert(min_k + idx == eff_max + 1);
        }
    }
    Ok(out)
}

} // verus!
