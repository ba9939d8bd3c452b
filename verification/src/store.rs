use vstd::prelude::*;

use crate::record::{AppDetails, RecordV};

verus! {

/// The durable key-to-record mapping.
///
/// Entries are held sorted by strictly increasing key, which keeps lookups
/// simple and gives the store a single canonical byte encoding. The view of a
/// store is the finite map from identifier to record value.
pub struct Cache {
    entries: Vec<(u64, AppDetails)>,
}

/// The map denoted by a sequence of key/record pairs; later pairs win.
pub open spec fn map_of(s: Seq<(u64, RecordV)>) -> Map<u64, RecordV>
    decreases s.len(),
{
    if s.len() == 0 {
        Map::empty()
    } else {
        map_of(s.drop_last()).insert(s.last().0, s.last().1)
    }
}

/// Keys appear in strictly increasing order (so each key appears once).
pub open spec fn sorted_strict(s: Seq<(u64, RecordV)>) -> bool {
    forall|i: int, j: int| 0 <= i < j < s.len() ==> s[i].0 < s[j].0
}

pub(crate) proof fn lemma_map_of_contains(s: Seq<(u64, RecordV)>, k: u64)
    ensures
        map_of(s).contains_key(k) <==> exists|i: int| 0 <= i < s.len() && s[i].0 == k,
    decreases s.len(),
{
    if s.len() > 0 {
        lemma_map_of_contains(s.drop_last(), k);
        if s.last().0 == k {
            assert(s[s.len() - 1].0 == k);
        } else if map_of(s).contains_key(k) {
            let i = choose|i: int| 0 <= i < s.drop_last().len() && s.drop_last()[i].0 == k;
            assert(s[i].0 == k);
        } else if exists|i: int| 0 <= i < s.len() && s[i].0 == k {
            let i = choose|i: int| 0 <= i < s.len() && s[i].0 == k;
            assert(0 <= i < s.len() - 1);
            assert(s.drop_last()[i].0 == k);
        }
    }
}

pub(crate) proof fn lemma_map_of_index(s: Seq<(u64, RecordV)>, i: int)
    requires
        0 <= i < s.len(),
        forall|p: int, q: int| 0 <= p < q < s.len() ==> s[p].0 != s[q].0,
    ensures
        map_of(s).contains_key(s[i].0),
        map_of(s)[s[i].0] == s[i].1,
    decreases s.len(),
{
    if i == s.len() - 1 {
    } else {
        lemma_map_of_index(s.drop_last(), i);
        assert(s.drop_last()[i] == s[i]);
        assert(s.last().0 != s[i].0);
    }
}

impl Cache {
    /// The store's entries as a sequence of key/record values.
    pub closed spec fn entry_seq(&self) -> Seq<(u64, RecordV)> {
        Seq::new(self.entries@.len(), |i: int| (self.entries@[i].0, self.entries@[i].1@))
    }

    /// The store keeps its entries sorted by strictly increasing key.
    pub open spec fn wf(&self) -> bool {
        sorted_strict(self.entry_seq())
    }

    /// A new store with nothing in it.
    pub fn empty() -> (c: Cache)
        ensures
            c.wf(),
            c@ == Map::<u64, RecordV>::empty(),
            c.entry_seq() == Seq::<(u64, RecordV)>::empty(),
    {
        let c = Cache { entries: Vec::new() };
        proof {
            assert(c.entry_seq() =~= Seq::<(u64, RecordV)>::empty());
        }
        c
    }

    /// Builds a store directly from a sorted entry vector.
    pub(crate) fn from_entries(entries: Vec<(u64, AppDetails)>) -> (c: Cache)
        ensures
            c.entry_seq() == Seq::new(entries@.len(), |i: int| (entries@[i].0, entries@[i].1@)),
    {
        Cache { entries }
    }

    pub(crate) fn entries(&self) -> (r: &Vec<(u64, AppDetails)>)
        ensures
            r@.len() == self.entry_seq().len(),
            forall|i: int|
                0 <= i < r@.len() ==> self.entry_seq()[i] == (r@[i].0, r@[i].1@),
    {
        &self.entries
    }

    /// How many identifiers the store holds.
    pub fn len(&self) -> (n: usize)
        requires
            self.wf(),
        ensures
            n == self@.dom().len(),
    {
        proof {
            lemma_map_of_dom_len(self.entry_seq());
        }
        self.entries.len()
    }

    /// Whether `id` is already present.
    pub fn contains(&self, id: u64) -> (b: bool)
        requires
            self.wf(),
        ensures
            b == self@.contains_key(id),
    {
        proof {
            lemma_map_of_contains(self.entry_seq(), id);
        }
        let n = self.entries.len();
        let mut i: usize = 0;
        while i < n
            invariant
                n == self.entries.len(),
                0 <= i <= n,
                forall|j: int| 0 <= j < i ==> self.entry_seq()[j].0 != id,
            decreases n - i,
        {
            if self.entries[i].0 == id {
                proof {
                    assert(self.entry_seq()[i as int].0 == id);
                    assert(exists|j: int|
                        0 <= j < self.entry_seq().len() && self.entry_seq()[j].0 == id);
                    lemma_map_of_contains(self.entry_seq(), id);
                    assert(self@.contains_key(id));
                }
                return true;
            }
            i += 1;
        }
        false
    }

    /// The record stored under `id`, if any.
    pub fn get(&self, id: u64) -> (r: Option<&AppDetails>)
        requires
            self.wf(),
        ensures
            match r {
                Some(rec) => self@.contains_key(id) && rec@ == self@[id],
                None => !self@.contains_key(id),
            },
    {
        proof {
            lemma_map_of_contains(self.entry_seq(), id);
        }
        let n = self.entries.len();
        let mut i: usize = 0;
        while i < n
            invariant
                n == self.entries.len(),
                0 <= i <= n,
                self.wf(),
                forall|j: int| 0 <= j < i ==> self.entry_seq()[j].0 != id,
            decreases n - i,
        {
            if self.entries[i].0 == id {
                proof {
                    assert(self.entry_seq()[i as int].0 == id);
                    assert(exists|j: int|
                        0 <= j < self.entry_seq().len() && self.entry_seq()[j].0 == id);
                    lemma_map_of_index(self.entry_seq(), i as int);
                }
                return Some(&self.entries[i].1);
            }
            i += 1;
        }
        None
    }

    /// Puts `rec` under `id`, replacing any record already there.
    pub fn insert(&mut self, id: u64, rec: AppDetails)
        requires
            old(self).wf(),
        ensures
            final(self).wf(),
            final(self)@ == old(self)@.insert(id, rec@),
    {
        let ghost s0 = self.entry_seq();
        let n = self.entries.len();
        let mut p: usize = 0;
        while p < n && self.entries[p].0 < id
            invariant
                n == self.entries.len(),
                0 <= p <= n,
                *self == *old(self),
                forall|j: int| 0 <= j < p ==> self.entry_seq()[j].0 < id,
            decreases n - p,
        {
            p += 1;
        }
        if p < n && self.entries[p].0 == id {
            self.entries[p] = (id, rec);
            proof {
                assert(self.entry_seq() =~= s0.update(p as int, (id, rec@)));
                lemma_map_of_update(s0, p as int, rec@);
            }
        } else {
            assert(p < n ==> s0[p as int].0 > id);
            self.entries.insert(p, (id, rec));
            proof {
                assert(self.entry_seq() =~= s0.insert(p as int, (id, rec@)));
                lemma_map_of_seq_insert(s0, p as int, id, rec@);
                assert forall|i: int, j: int|
                    0 <= i < j < self.entry_seq().len() implies self.entry_seq()[i].0
                    < self.entry_seq()[j].0 by {
                    let t = self.entry_seq();
                    if j < p {
                        assert(t[i] == s0[i] && t[j] == s0[j]);
                    } else if i > p {
                        assert(t[i] == s0[i - 1] && t[j] == s0[j - 1]);
                    } else if i < p && j == p {
                        assert(t[i] == s0[i]);
                    } else if i == p && j > p {
                        assert(t[j] == s0[j - 1]);
                        assert(s0[j - 1].0 >= id || j - 1 >= p);
                    } else if i < p && j > p {
                        assert(t[i] == s0[i] && t[j] == s0[j - 1]);
                    }
                }
            }
        }
    }
}

impl View for Cache {
    type V = Map<u64, RecordV>;

    open spec fn view(&self) -> Map<u64, RecordV> {
        map_of(self.entry_seq())
    }
}

proof fn lemma_map_of_update(s: Seq<(u64, RecordV)>, p: int, v: RecordV)
    requires
        0 <= p < s.len(),
        forall|i: int, j: int| 0 <= i < j < s.len() ==> s[i].0 < s[j].0,
    ensures
        map_of(s.update(p, (s[p].0, v))) == map_of(s).insert(s[p].0, v),
    decreases s.len(),
{
    let t = s.update(p, (s[p].0, v));
    if p == s.len() - 1 {
        assert(t.drop_last() =~= s.drop_last());
        assert(map_of(t) =~= map_of(s).insert(s[p].0, v));
    } else {
        assert(t.drop_last() =~= s.drop_last().update(p, (s[p].0, v)));
        lemma_map_of_update(s.drop_last(), p, v);
        assert(t.last() == s.last());
        assert(s.last().0 != s[p].0);
        assert(map_of(t) == map_of(s.drop_last()).insert(s[p].0, v).insert(s.last().0, s.last().1));
        assert(map_of(s.drop_last()).insert(s[p].0, v).insert(s.last().0, s.last().1) =~= map_of(
            s,
        ).insert(s[p].0, v));
    }
}

proof fn lemma_map_of_seq_insert(s: Seq<(u64, RecordV)>, p: int, k: u64, v: RecordV)
    requires
        0 <= p <= s.len(),
        forall|i: int| 0 <= i < s.len() ==> s[i].0 != k,
    ensures
        map_of(s.insert(p, (k, v))) == map_of(s).insert(k, v),
    decreases s.len(),
{
    let t = s.insert(p, (k, v));
    if p == s.len() {
        assert(t.drop_last() =~= s);
        assert(t.last() == (k, v));
    } else {
        assert(t.last() == s.last());
        assert(t.drop_last() =~= s.drop_last().insert(p, (k, v)));
        lemma_map_of_seq_insert(s.drop_last(), p, k, v);
        assert(s.last().0 != k);
        assert(map_of(t) == map_of(s.drop_last()).insert(k, v).insert(s.last().0, s.last().1));
        assert(map_of(s.drop_last()).insert(k, v).insert(s.last().0, s.last().1) =~= map_of(
            s,
        ).insert(k, v));
    }
}

proof fn lemma_map_of_dom_len(s: Seq<(u64, RecordV)>)
    requires
        forall|i: int, j: int| 0 <= i < j < s.len() ==> s[i].0 < s[j].0,
    ensures
        map_of(s).dom().len() == s.len(),
        map_of(s).dom().finite(),
    decreases s.len(),
{
    if s.len() > 0 {
        lemma_map_of_dom_len(s.drop_last());
        lemma_map_of_contains(s.drop_last(), s.last().0);
        assert(forall|i: int| 0 <= i < s.drop_last().len() ==> s.drop_last()[i] == s[i]);
        assert(!map_of(s.drop_last()).contains_key(s.last().0));
        assert(map_of(s).dom() =~= map_of(s.drop_last()).dom().insert(s.last().0));
        vstd::set::axiom_set_insert_len(map_of(s.drop_last()).dom(), s.last().0);
    }
}

} // verus!
