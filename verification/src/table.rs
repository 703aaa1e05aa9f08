//! The table of one scan: a mapping from k-mer (a byte string) to its
//! occurrence record, stored as a vector of entries with pairwise distinct
//! keys and viewed as a `Map`.

use crate::record::{shrink_vec, KmerData, KmerDataView};
use vstd::prelude::*;

verus! {

/// The map described by a sequence of key/record entries; a later entry with
/// the same key would win, but well-formed tables keep their keys distinct.
pub open spec fn map_of(e: Seq<(Vec<u8>, KmerData)>) -> Map<Seq<u8>, KmerDataView>
    decreases e.len(),
{
    if e.len() == 0 {
        Map::empty()
    } else {
        map_of(e.drop_last()).insert(e.last().0@, e.last().1@)
    }
}

/// The keys of the entries are pairwise distinct.
pub open spec fn unique_keys(e: Seq<(Vec<u8>, KmerData)>) -> bool {
    forall|i: int, j: int|
        #![trigger e[i].0@, e[j].0@]
        0 <= i < j < e.len() ==> e[i].0@ != e[j].0@
}

/// Sum of the `count` fields of all entries.
pub open spec fn total_count(e: Seq<(Vec<u8>, KmerData)>) -> int
    decreases e.len(),
{
    if e.len() == 0 {
        0
    } else {
        total_count(e.drop_last()) + e.last().1@.count
    }
}

/// With distinct keys, the map of an entry sequence holds exactly the keys
/// of the entries, each bound to that entry's record, and its domain is as
/// large as the sequence.
pub proof fn lemma_map_of_char(e: Seq<(Vec<u8>, KmerData)>)
    requires
        unique_keys(e),
    ensures
        forall|w: Seq<u8>|
            #[trigger] map_of(e).contains_key(w) <==> exists|i: int|
                0 <= i < e.len() && #[trigger] e[i].0@ == w,
        forall|i: int|
            0 <= i < e.len() ==> map_of(e).contains_key(#[trigger] e[i].0@) && map_of(e)[e[i].0@]
                == e[i].1@,
        map_of(e).dom().finite(),
        map_of(e).dom().len() == e.len(),
    decreases e.len(),
{
    if e.len() == 0 {
    } else {
        let d = e.drop_last();
        assert(unique_keys(d)) by {
            assert(forall|i: int, j: int|
                #![trigger d[i].0@, d[j].0@]
                0 <= i < j < d.len() ==> d[i].0@ == e[i].0@ && d[j].0@ == e[j].0@);
        }
        lemma_map_of_char(d);
        let last = e.last();
        assert(forall|i: int| 0 <= i < d.len() ==> #[trigger] e[i].0@ == d[i].0@ && e[i].1@
            == d[i].1@);
        assert(e[e.len() - 1].0@ == last.0@);
        assert(forall|i: int| 0 <= i < d.len() ==> #[trigger] d[i].0@ != last.0@);
        assert(!map_of(d).contains_key(last.0@));
        assert(map_of(e) == map_of(d).insert(last.0@, last.1@));
        assert forall|w: Seq<u8>| #[trigger] map_of(e).contains_key(w) implies exists|i: int|
            0 <= i < e.len() && #[trigger] e[i].0@ == w by {
            if w == last.0@ {
                assert(e[e.len() - 1].0@ == w);
            } else {
                assert(map_of(d).contains_key(w));
                let i = choose|i: int| 0 <= i < d.len() && #[trigger] d[i].0@ == w;
                assert(e[i].0@ == w);
            }
        }
        assert(map_of(e).dom() =~= map_of(d).dom().insert(last.0@));
        assert(map_of(e).dom().len() == e.len()) by {
            vstd::set::axiom_set_insert_len(map_of(d).dom(), last.0@);
        }
    }
}

/// Replacing the record of the entry at `j` (keeping its key) turns the map
/// into an insert of the new record at that key.
pub proof fn lemma_map_of_update(e: Seq<(Vec<u8>, KmerData)>, j: int, x: (Vec<u8>, KmerData))
    requires
        unique_keys(e),
        0 <= j < e.len(),
        x.0@ == e[j].0@,
    ensures
        unique_keys(e.update(j, x)),
        map_of(e.update(j, x)) == map_of(e).insert(e[j].0@, x.1@),
        total_count(e.update(j, x)) == total_count(e) - e[j].1@.count + x.1@.count,
    decreases e.len(),
{
    let u = e.update(j, x);
    assert(unique_keys(u)) by {
        assert(forall|i: int|
            0 <= i < u.len() ==> #[trigger] u[i].0@ == e[i].0@);
    }
    if j == e.len() - 1 {
        assert(u.drop_last() =~= e.drop_last());
        assert(u.last() == x);
        assert(map_of(u) == map_of(e.drop_last()).insert(e[j].0@, x.1@));
        assert(map_of(e) == map_of(e.drop_last()).insert(e[j].0@, e[j].1@));
        assert(map_of(e).insert(e[j].0@, x.1@) =~= map_of(e.drop_last()).insert(e[j].0@, x.1@));
    } else {
        let d = e.drop_last();
        assert(unique_keys(d)) by {
            assert(forall|i: int, jj: int|
                #![trigger d[i].0@, d[jj].0@]
                0 <= i < jj < d.len() ==> d[i].0@ == e[i].0@ && d[jj].0@ == e[jj].0@);
        }
        lemma_map_of_update(d, j, x);
        assert(u.drop_last() =~= d.update(j, x));
        assert(u.last() == e.last());
        assert(d[j] == e[j]);
        assert(map_of(u) == map_of(d).insert(d[j].0@, x.1@).insert(e.last().0@, e.last().1@));
        assert(e[j].0@ != e.last().0@);
        assert(map_of(d).insert(d[j].0@, x.1@).insert(e.last().0@, e.last().1@) =~= map_of(
            d,
        ).insert(e.last().0@, e.last().1@).insert(e[j].0@, x.1@));
        assert(total_count(u) == total_count(u.drop_last()) + u.last().1@.count);
    }
}

/// Entries with pairwise equal keys and record views describe the same map
/// and the same total count.
pub proof fn lemma_map_of_congruence(e1: Seq<(Vec<u8>, KmerData)>, e2: Seq<(Vec<u8>, KmerData)>)
    requires
        e1.len() == e2.len(),
        forall|i: int|
            0 <= i < e1.len() ==> #[trigger] e1[i].0@ == e2[i].0@ && e1[i].1@ == e2[i].1@,
    ensures
        map_of(e1) == map_of(e2),
        total_count(e1) == total_count(e2),
    decreases e1.len(),
{
    if e1.len() == 0 {
        assert(map_of(e1) =~= map_of(e2));
    } else {
        let d1 = e1.drop_last();
        let d2 = e2.drop_last();
        assert(forall|i: int|
            0 <= i < d1.len() ==> #[trigger] d1[i].0@ == d2[i].0@ && d1[i].1@ == d2[i].1@) by {
            assert(forall|i: int|
                0 <= i < d1.len() ==> d1[i] == e1[i] && d2[i] == e2[i]);
        }
        lemma_map_of_congruence(d1, d2);
        assert(e1.last().0@ == e2.last().0@ && e1.last().1@ == e2.last().1@);
        assert(map_of(e1) =~= map_of(e2));
    }
}

/// Compact the storage of the record at `j`, leaving everything else as it
/// was.
fn reduce_entry(e: &mut Vec<(Vec<u8>, KmerData)>, j: usize)
    requires
        j < old(e)@.len(),
    ensures
        final(e)@.len() == old(e)@.len(),
        final(e)@[j as int].0 == old(e)@[j as int].0,
        final(e)@[j as int].1@ == old(e)@[j as int].1@,
        forall|t: int| 0 <= t < old(e)@.len() && t != j ==> final(e)@[t] == old(e)@[t],
{
    let pair = &mut e[j];
    let d = &mut pair.1;
    d.reduce();
}

/// Report that two byte strings hold the same bytes.
fn bytes_eq(a: &[u8], b: &[u8]) -> (r: bool)
    ensures
        r == (a@ == b@),
{
    if a.len() != b.len() {
        proof {
            assert(a@ != b@);
        }
        return false;
    }
    let n = a.len();
    let mut i: usize = 0;
    while i < n
        invariant
            n == a@.len() == b@.len(),
            i <= n,
            forall|t: int| 0 <= t < i ==> a@[t] == b@[t],
        decreases n - i,
    {
        if a[i] != b[i] {
            return false;
        }
        i += 1;
    }
    proof {
        assert(a@ =~= b@);
    }
    true
}

/// The table of one scan: each k-mer seen so far, with its record.
#[derive(Debug)]
pub struct KmerTable {
    entries: Vec<(Vec<u8>, KmerData)>,
}

impl View for KmerTable {
    type V = Map<Seq<u8>, KmerDataView>;

    closed spec fn view(&self) -> Map<Seq<u8>, KmerDataView> {
        map_of(self.entries@)
    }
}

impl KmerTable {
    /// Well-formed: keys are pairwise distinct and every record holds at
    /// least one position.
    pub closed spec fn wf(&self) -> bool {
        &&& unique_keys(self.entries@)
        &&& forall|i: int|
            0 <= i < self.entries@.len() ==> #[trigger] self.entries@[i].1@.positions.len() >= 1
    }

    /// Sum of the occurrence counts of all records in the table.
    pub closed spec fn total(&self) -> int {
        total_count(self.entries@)
    }

    /// An empty table.
    pub fn new() -> (r: Self)
        ensures
            r.wf(),
            r@ == Map::<Seq<u8>, KmerDataView>::empty(),
            r.total() == 0,
    {
        let r = Self { entries: Vec::new() };
        proof {
            assert(r@ =~= Map::<Seq<u8>, KmerDataView>::empty());
        }
        r
    }

    /// Index of the entry holding `key`, if the table holds it.
    fn find(&self, key: &[u8]) -> (r: Option<usize>)
        requires
            self.wf(),
        ensures
            match r {
                Some(j) => j < self.entries@.len() && self.entries@[j as int].0@ == key@,
                None => forall|i: int|
                    0 <= i < self.entries@.len() ==> #[trigger] self.entries@[i].0@ != key@,
            },
    {
        let n = self.entries.len();
        let mut i: usize = 0;
        while i < n
            invariant
                n == self.entries@.len(),
                i <= n,
                forall|t: int| 0 <= t < i ==> #[trigger] self.entries@[t].0@ != key@,
            decreases n - i,
        {
            let e = &self.entries[i];
            if bytes_eq(e.0.as_slice(), key) {
                return Some(i);
            }
            i += 1;
        }
        None
    }

    /// The number of distinct k-mers in the table.
    pub fn len(&self) -> (n: usize)
        requires
            self.wf(),
        ensures
            n == self@.dom().len(),
    {
        proof {
            lemma_map_of_char(self.entries@);
        }
        self.entries.len()
    }

    /// The record stored for `key`, if any.
    pub fn get(&self, key: &[u8]) -> (r: Option<&KmerData>)
        requires
            self.wf(),
        ensures
            match r {
                Some(d) => self@.contains_key(key@) && d@ == self@[key@],
                None => !self@.contains_key(key@),
            },
    {
        proof {
            lemma_map_of_char(self.entries@);
        }
        match self.find(key) {
            Some(j) => Some(&self.entries[j].1),
            None => None,
        }
    }

    /// The entry at position `j`, for walking the whole table.
    pub fn entry_at(&self, j: usize) -> (r: &(Vec<u8>, KmerData))
        requires
            self.wf(),
            j < self@.dom().len(),
        ensures
            self@.contains_key(r.0@),
            self@[r.0@] == r.1@,
    {
        proof {
            lemma_map_of_char(self.entries@);
        }
        &self.entries[j]
    }

    /// The most recently accepted position of `key`, if the table holds it.
    pub fn get_last_position(&self, key: &[u8]) -> (r: Option<u64>)
        requires
            self.wf(),
        ensures
            match r {
                Some(p) => self@.contains_key(key@) && self@[key@].positions.len() >= 1 && p
                    == self@[key@].positions.last(),
                None => !self@.contains_key(key@),
            },
    {
        proof {
            lemma_map_of_char(self.entries@);
        }
        match self.find(key) {
            Some(j) => {
                let d = &self.entries[j].1;
                proof {
                    assert(self.entries@[j as int].1@.positions.len() >= 1);
                }
                Some(d.positions[d.positions.len() - 1])
            },
            None => None,
        }
    }

    /// Add the record of a k-mer not yet in the table.
    pub fn insert(&mut self, key: Vec<u8>, data: KmerData)
        requires
            old(self).wf(),
            !old(self)@.contains_key(key@),
            data@.positions.len() >= 1,
        ensures
            final(self).wf(),
            final(self)@ == old(self)@.insert(key@, data@),
            final(self).total() == old(self).total() + data@.count,
    {
        proof {
            lemma_map_of_char(self.entries@);
        }
        let ghost e0 = self.entries@;
        let ghost kv = key@;
        let ghost dv = data@;
        self.entries.push((key, data));
        proof {
            let e1 = self.entries@;
            assert(e1.drop_last() =~= e0);
            assert(e1.last().0@ == kv && e1.last().1@ == dv);
            assert(map_of(e1) == map_of(e0).insert(kv, dv));
            assert forall|i: int, t: int|
                #![trigger e1[i].0@, e1[t].0@]
                0 <= i < t < e1.len() implies e1[i].0@ != e1[t].0@ by {
                if t == e1.len() - 1 {
                    assert(e1[i] == e0[i]);
                    assert(e0[i].0@ != kv);
                } else {
                    assert(e1[i] == e0[i] && e1[t] == e0[t]);
                }
            }
            assert forall|i: int|
                0 <= i < e1.len() implies #[trigger] e1[i].1@.positions.len() >= 1 by {
                if i < e1.len() - 1 {
                    assert(e1[i] == e0[i]);
                    assert(e0[i].1@.positions.len() >= 1);
                }
            }
        }
    }

    /// Record one more accepted occurrence of a k-mer already in the table:
    /// append the gap to its scores and the position to its positions.
    pub fn update_record(&mut self, key: &[u8], pos: u64, score: u64)
        requires
            old(self).wf(),
            old(self)@.contains_key(key@),
            old(self)@[key@].count < u64::MAX,
            old(self)@[key@].zeros < u64::MAX,
        ensures
            final(self).wf(),
            final(self)@ == old(self)@.insert(
                key@,
                crate::record::push_position(
                    crate::record::push_score(old(self)@[key@], score),
                    pos,
                ),
            ),
            final(self).total() == old(self).total() + 1,
    {
        proof {
            lemma_map_of_char(self.entries@);
        }
        let ghost e0 = self.entries@;
        let j = match self.find(key) {
            Some(j) => j,
            None => {
                proof {
                    assert(false);
                }
                0
            },
        };
        let pair = &mut self.entries[j];
        let d = &mut pair.1;
        d.update_scores(score);
        d.update_positions(pos);
        proof {
            let e1 = self.entries@;
            let x = e1[j as int];
            assert(e1 =~= e0.update(j as int, x));
            assert(x.0@ == key@);
            lemma_map_of_update(e0, j as int, x);
            assert forall|i: int|
                0 <= i < e1.len() implies #[trigger] e1[i].1@.positions.len() >= 1 by {
                if i != j as int {
                    assert(e1[i] == e0[i]);
                    assert(e0[i].1@.positions.len() >= 1);
                }
            }
        }
    }

    /// Compact the storage of the table and of every record in it; the
    /// contents do not change.
    pub fn reduce(&mut self)
        requires
            old(self).wf(),
        ensures
            final(self).wf(),
            final(self)@ == old(self)@,
            final(self).total() == old(self).total(),
    {
        let ghost e0 = self.entries@;
        let n = self.entries.len();
        let mut j: usize = 0;
        while j < n
            invariant
                j <= n,
                n == self.entries@.len() == e0.len(),
                forall|t: int|
                    0 <= t < e0.len() ==> #[trigger] self.entries@[t].0@ == e0[t].0@
                        && self.entries@[t].1@ == e0[t].1@,
            decreases n - j,
        {
            let ghost before = self.entries@;
            reduce_entry(&mut self.entries, j);
            proof {
                assert forall|t: int|
                    0 <= t < e0.len() implies #[trigger] self.entries@[t].0@ == e0[t].0@
                        && self.entries@[t].1@ == e0[t].1@ by {
                    assert(before[t].0@ == e0[t].0@ && before[t].1@ == e0[t].1@);
                    if t == j as int {
                        assert(self.entries@[t].0 == before[t].0);
                        assert(self.entries@[t].1@ == before[t].1@);
                    } else {
                        assert(self.entries@[t] == before[t]);
                    }
                }
            }
            j += 1;
        }
        shrink_vec(&mut self.entries);
        proof {
            let e1 = self.entries@;
            lemma_map_of_congruence(e0, e1);
            assert forall|i: int, t: int|
                #![trigger e1[i].0@, e1[t].0@]
                0 <= i < t < e1.len() implies e1[i].0@ != e1[t].0@ by {
                assert(e1[i].0@ == e0[i].0@ && e1[t].0@ == e0[t].0@);
                assert(e0[i].0@ != e0[t].0@);
            }
            assert forall|i: int|
                0 <= i < e1.len() implies #[trigger] e1[i].1@.positions.len() >= 1 by {
                assert(e1[i].0@ == e0[i].0@ && e1[i].1@ == e0[i].1@);
                assert(e0[i].1@.positions.len() >= 1);
            }
        }
    }
}

} // verus!
