//! Association maps with a deterministic entry order.
//!
//! The store keeps small maps (field name to id, primary key to offset
//! row) whose iteration order must be visible in contracts, so they are
//! held as vectors of entries with distinct keys. The mathematical view
//! of such a vector is both the entry sequence and the `Map` it denotes.

use vstd::prelude::*;
use vstd::pervasive::VecAdditionalExecFns;
use crate::codec::{str_eq, bytes_eq};

verus! {

/// The map denoted by an entry sequence; later entries win, though with
/// distinct keys the question does not arise.
pub open spec fn seq_to_map<K, V>(s: Seq<(K, V)>) -> Map<K, V>
    decreases s.len(),
{
    if s.len() == 0 {
        Map::empty()
    } else {
        seq_to_map(s.drop_last()).insert(s.last().0, s.last().1)
    }
}

/// No two entries share a key.
pub open spec fn distinct_keys<K, V>(s: Seq<(K, V)>) -> bool {
    forall|i: int, j: int| 0 <= i < j < s.len() ==> (#[trigger] s[i]).0 != (#[trigger] s[j]).0
}

/// The index of the entry with key `k`, searching from the back; `-1`
/// when no entry has that key.
pub open spec fn key_index<K, V>(s: Seq<(K, V)>, k: K) -> int
    decreases s.len(),
{
    if s.len() == 0 {
        -1
    } else if s.last().0 == k {
        s.len() - 1
    } else {
        key_index(s.drop_last(), k)
    }
}

/// `key_index` stays in range and lands on its key.
pub proof fn lemma_key_index<K, V>(s: Seq<(K, V)>, k: K)
    ensures
        -1 <= key_index(s, k) < s.len(),
        key_index(s, k) >= 0 ==> s[key_index(s, k)].0 == k,
    decreases s.len(),
{
    if s.len() > 0 && s.last().0 != k {
        lemma_key_index(s.drop_last(), k);
    }
}

/// With distinct keys, the entry at `i` is found at `i`.
pub proof fn lemma_key_index_self<K, V>(s: Seq<(K, V)>, i: int)
    requires
        distinct_keys(s),
        0 <= i < s.len(),
    ensures
        key_index(s, s[i].0) == i,
    decreases s.len(),
{
    if i < s.len() - 1 {
        assert(s[i].0 != s.last().0);
        assert(distinct_keys(s.drop_last()));
        lemma_key_index_self(s.drop_last(), i);
    }
}

/// How the denoted map reads through `key_index`.
pub proof fn lemma_seq_to_map<K, V>(s: Seq<(K, V)>)
    requires
        distinct_keys(s),
    ensures
        forall|k: K|
            #![trigger key_index(s, k)]
            {
                &&& (seq_to_map(s).contains_key(k) <==> key_index(s, k) >= 0)
                &&& (key_index(s, k) >= 0 ==> seq_to_map(s)[k] == s[key_index(s, k)].1)
            },
    decreases s.len(),
{
    if s.len() > 0 {
        let t = s.drop_last();
        assert(distinct_keys(t));
        lemma_seq_to_map(t);
        assert forall|k: K|
            #![trigger key_index(s, k)]
            {
                &&& (seq_to_map(s).contains_key(k) <==> key_index(s, k) >= 0)
                &&& (key_index(s, k) >= 0 ==> seq_to_map(s)[k] == s[key_index(s, k)].1)
            } by {
            if s.last().0 != k {
                assert(key_index(s, k) == key_index(t, k));
                lemma_key_index(t, k);
            }
        }
    }
}

/// Appending a fresh key inserts it into the denoted map.
pub proof fn lemma_seq_to_map_push<K, V>(s: Seq<(K, V)>, k: K, v: V)
    requires
        distinct_keys(s),
        key_index(s, k) == -1,
    ensures
        seq_to_map(s.push((k, v))) == seq_to_map(s).insert(k, v),
        distinct_keys(s.push((k, v))),
        key_index(s.push((k, v)), k) == s.len(),
{
    let s2 = s.push((k, v));
    assert(s2.drop_last() =~= s);
    assert(s2.last() == (k, v));
    assert forall|i: int| 0 <= i < s.len() implies (#[trigger] s[i]).0 != k by {
        if s[i].0 == k {
            lemma_key_index_self(s, i);
        }
    }
    assert(distinct_keys(s2)) by {
        assert(forall|i: int| 0 <= i < s.len() ==> #[trigger] s2[i] == s[i]);
    }
}

/// Replacing the value at `i` updates the denoted map at that key.
pub proof fn lemma_seq_to_map_update<K, V>(s: Seq<(K, V)>, i: int, v: V)
    requires
        distinct_keys(s),
        0 <= i < s.len(),
    ensures
        seq_to_map(s.update(i, (s[i].0, v))) == seq_to_map(s).insert(s[i].0, v),
        distinct_keys(s.update(i, (s[i].0, v))),
    decreases s.len(),
{
    let k = s[i].0;
    let s2 = s.update(i, (k, v));
    assert(distinct_keys(s2)) by {
        assert(forall|j: int| 0 <= j < s.len() ==> (#[trigger] s2[j]).0 == s[j].0);
    }
    if i == s.len() - 1 {
        assert(s2.drop_last() =~= s.drop_last());
        assert(s2.last() == (k, v));
    } else {
        let t = s.drop_last();
        assert(distinct_keys(t));
        lemma_seq_to_map_update(t, i, v);
        assert(s2.drop_last() =~= t.update(i, (k, v)));
        assert(s2.last() == s.last());
        let lk = s.last().0;
        let lv = s.last().1;
        assert(k != lk);
        assert(seq_to_map(t).insert(k, v).insert(lk, lv) =~= seq_to_map(t).insert(lk, lv).insert(
            k,
            v,
        ));
    }
}

/// Removing the entry at `i` removes its key from the denoted map.
pub proof fn lemma_seq_to_map_remove<K, V>(s: Seq<(K, V)>, i: int)
    requires
        distinct_keys(s),
        0 <= i < s.len(),
    ensures
        seq_to_map(s.remove(i)) == seq_to_map(s).remove(s[i].0),
        distinct_keys(s.remove(i)),
    decreases s.len(),
{
    let k = s[i].0;
    let s2 = s.remove(i);
    assert(distinct_keys(s2)) by {
        assert(forall|j: int|
            0 <= j < s2.len() ==> (#[trigger] s2[j]) == (if j < i {
                s[j]
            } else {
                s[j + 1]
            }));
    }
    let t = s.drop_last();
    if i == s.len() - 1 {
        assert(s2 =~= t);
        assert(distinct_keys(t));
        lemma_seq_to_map(t);
        assert(key_index(t, k) == -1) by {
            lemma_key_index(t, k);
            if key_index(t, k) >= 0 {
                assert(s[key_index(t, k)].0 == k);
            }
        }
        assert(!seq_to_map(t).contains_key(k));
        assert(seq_to_map(s).remove(k) =~= seq_to_map(t));
    } else {
        assert(distinct_keys(t));
        lemma_seq_to_map_remove(t, i);
        assert(s2.drop_last() =~= t.remove(i));
        assert(s2.last() == s.last());
        let lk = s.last().0;
        let lv = s.last().1;
        assert(k != lk);
        assert(seq_to_map(t).remove(k).insert(lk, lv) =~= seq_to_map(t).insert(lk, lv).remove(k));
    }
}

/// A map from field names to values of type `V`, with a stable entry
/// order.
#[derive(Debug)]
pub struct StringMap<V> {
    entries: Vec<(String, V)>,
}

impl<V> View for StringMap<V> {
    type V = Map<Seq<char>, V>;

    open spec fn view(&self) -> Map<Seq<char>, V> {
        seq_to_map(self.seq_view())
    }
}

impl<V> StringMap<V> {
    /// The entries in order, keys as character sequences.
    pub closed spec fn seq_view(self) -> Seq<(Seq<char>, V)> {
        self.entries@.map(|i: int, e: (String, V)| (e.0@, e.1))
    }

    /// Well-formed: no two entries share a key.
    pub open spec fn wf(self) -> bool {
        distinct_keys(self.seq_view())
    }

    pub fn new() -> (r: StringMap<V>)
        ensures
            r.wf(),
            r.seq_view() == Seq::<(Seq<char>, V)>::empty(),
            r@ == Map::<Seq<char>, V>::empty(),
    {
        let r = StringMap { entries: Vec::new() };
        proof {
            assert(r.seq_view() =~= Seq::<(Seq<char>, V)>::empty());
        }
        r
    }

    pub fn len(&self) -> (r: usize)
        ensures
            r == self.seq_view().len(),
    {
        self.entries.len()
    }

    pub fn is_empty(&self) -> (r: bool)
        ensures
            r == (self.seq_view().len() == 0),
    {
        self.entries.len() == 0
    }

    pub fn key_at(&self, i: usize) -> (r: &String)
        requires
            i < self.seq_view().len(),
        ensures
            r@ == self.seq_view()[i as int].0,
    {
        &self.entries[i].0
    }

    pub fn value_at(&self, i: usize) -> (r: &V)
        requires
            i < self.seq_view().len(),
        ensures
            *r == self.seq_view()[i as int].1,
    {
        &self.entries[i].1
    }

    /// The position of `k` among the entries, if present.
    pub fn index_of(&self, k: &str) -> (r: Option<usize>)
        ensures
            match r {
                Some(i) => key_index(self.seq_view(), k@) == i as int && i < self.seq_view().len()
                    && self.seq_view()[i as int].0 == k@,
                None => key_index(self.seq_view(), k@) == -1,
            },
    {
        let n = self.entries.len();
        let ghost s = self.seq_view();
        proof {
            assert(s.take(n as int) =~= s);
        }
        let mut i: usize = n;
        loop
            invariant
                i <= n,
                n == s.len(),
                n == self.entries@.len(),
                s == self.seq_view(),
                key_index(s, k@) == key_index(s.take(i as int), k@),
            decreases i,
        {
            if i == 0 {
                proof {
                    assert(s.take(0int) =~= Seq::<(Seq<char>, V)>::empty());
                }
                return None;
            }
            i = i - 1;
            proof {
                assert(s[i as int] == (self.entries@[i as int].0@, self.entries@[i as int].1));
            }
            if str_eq(self.entries[i].0.as_str(), k) {
                proof {
                    assert(s.take(i + 1int).last() == s[i as int]);
                    assert(s[i as int].0 == k@);
                }
                return Some(i);
            }
            proof {
                assert(s.take(i + 1int).last() == s[i as int]);
                assert(s.take(i + 1int).drop_last() =~= s.take(i as int));
            }
        }
    }

    pub fn contains_key(&self, k: &str) -> (r: bool)
        requires
            self.wf(),
        ensures
            r == self@.contains_key(k@),
    {
        proof {
            lemma_seq_to_map(self.seq_view());
        }
        self.index_of(k).is_some()
    }

    pub fn get(&self, k: &str) -> (r: Option<&V>)
        requires
            self.wf(),
        ensures
            match r {
                Some(v) => self@.contains_key(k@) && *v == self@[k@],
                None => !self@.contains_key(k@),
            },
    {
        proof {
            lemma_seq_to_map(self.seq_view());
        }
        match self.index_of(k) {
            Some(i) => Some(&self.entries[i].1),
            None => None,
        }
    }

    /// Insert `v` under `k`: replace the value of an existing entry in
    /// place, or append a new entry at the end.
    pub fn insert(&mut self, k: String, v: V)
        requires
            old(self).wf(),
        ensures
            final(self).wf(),
            final(self)@ == old(self)@.insert(k@, v),
            final(self).seq_view() == (if key_index(old(self).seq_view(), k@) >= 0 {
                old(self).seq_view().update(key_index(old(self).seq_view(), k@), (k@, v))
            } else {
                old(self).seq_view().push((k@, v))
            }),
    {
        let ghost s = self.seq_view();
        match self.index_of(k.as_str()) {
            Some(i) => {
                self.entries.set(i, (k, v));
                proof {
                    assert(final(self).seq_view() =~= s.update(i as int, (s[i as int].0, v)));
                    lemma_seq_to_map_update(s, i as int, v);
                }
            },
            None => {
                self.entries.push((k, v));
                proof {
                    assert(final(self).seq_view() =~= s.push((k@, v)));
                    lemma_seq_to_map_push(s, k@, v);
                }
            },
        }
    }

    /// Remove the entry under `k`, if any, keeping the order of the rest.
    pub fn remove(&mut self, k: &str)
        requires
            old(self).wf(),
        ensures
            final(self).wf(),
            final(self)@ == old(self)@.remove(k@),
            final(self).seq_view() == (if key_index(old(self).seq_view(), k@) >= 0 {
                old(self).seq_view().remove(key_index(old(self).seq_view(), k@))
            } else {
                old(self).seq_view()
            }),
    {
        let ghost s = self.seq_view();
        match self.index_of(k) {
            Some(i) => {
                self.entries.remove(i);
                proof {
                    assert(final(self).seq_view() =~= s.remove(i as int));
                    lemma_seq_to_map_remove(s, i as int);
                }
            },
            None => {
                proof {
                    lemma_seq_to_map(s);
                    assert(!self@.contains_key(k@));
                    assert(self@.remove(k@) =~= self@);
                }
            },
        }
    }
}

/// The table of a shard: serialized primary key to a row of arena
/// offsets indexed by field id, with a stable entry order.
pub struct OffsetTable {
    entries: Vec<(Vec<u8>, Vec<u64>)>,
}

impl View for OffsetTable {
    type V = Map<Seq<u8>, Seq<u64>>;

    open spec fn view(&self) -> Map<Seq<u8>, Seq<u64>> {
        seq_to_map(self.seq_view())
    }
}

impl OffsetTable {
    /// The entries in order.
    pub closed spec fn seq_view(self) -> Seq<(Seq<u8>, Seq<u64>)> {
        self.entries@.map(|i: int, e: (Vec<u8>, Vec<u64>)| (e.0@, e.1@))
    }

    /// Well-formed: no two entries share a primary key.
    pub open spec fn wf(self) -> bool {
        distinct_keys(self.seq_view())
    }

    pub fn new() -> (r: OffsetTable)
        ensures
            r.wf(),
            r.seq_view() == Seq::<(Seq<u8>, Seq<u64>)>::empty(),
            r@ == Map::<Seq<u8>, Seq<u64>>::empty(),
    {
        let r = OffsetTable { entries: Vec::new() };
        proof {
            assert(r.seq_view() =~= Seq::<(Seq<u8>, Seq<u64>)>::empty());
        }
        r
    }

    pub fn len(&self) -> (r: usize)
        ensures
            r == self.seq_view().len(),
    {
        self.entries.len()
    }

    pub fn key_at(&self, i: usize) -> (r: &Vec<u8>)
        requires
            i < self.seq_view().len(),
        ensures
            r@ == self.seq_view()[i as int].0,
    {
        &self.entries[i].0
    }

    pub fn row_at(&self, i: usize) -> (r: &Vec<u64>)
        requires
            i < self.seq_view().len(),
        ensures
            r@ == self.seq_view()[i as int].1,
    {
        &self.entries[i].1
    }

    /// The position of `pk` among the entries, if present.
    pub fn index_of(&self, pk: &[u8]) -> (r: Option<usize>)
        ensures
            match r {
                Some(i) => key_index(self.seq_view(), pk@) == i as int && i
                    < self.seq_view().len() && self.seq_view()[i as int].0 == pk@,
                None => key_index(self.seq_view(), pk@) == -1,
            },
    {
        let n = self.entries.len();
        let ghost s = self.seq_view();
        proof {
            assert(s.take(n as int) =~= s);
        }
        let mut i: usize = n;
        loop
            invariant
                i <= n,
                n == s.len(),
                n == self.entries@.len(),
                s == self.seq_view(),
                key_index(s, pk@) == key_index(s.take(i as int), pk@),
            decreases i,
        {
            if i == 0 {
                proof {
                    assert(s.take(0int) =~= Seq::<(Seq<u8>, Seq<u64>)>::empty());
                }
                return None;
            }
            i = i - 1;
            proof {
                assert(s[i as int] == (self.entries@[i as int].0@, self.entries@[i as int].1@));
            }
            if bytes_eq(self.entries[i].0.as_slice(), pk) {
                proof {
                    assert(s.take(i + 1int).last() == s[i as int]);
                    assert(s[i as int].0 == pk@);
                }
                return Some(i);
            }
            proof {
                assert(s.take(i + 1int).last() == s[i as int]);
                assert(s.take(i + 1int).drop_last() =~= s.take(i as int));
            }
        }
    }

    pub fn get(&self, pk: &[u8]) -> (r: Option<&Vec<u64>>)
        requires
            self.wf(),
        ensures
            match r {
                Some(row) => self@.contains_key(pk@) && row@ == self@[pk@],
                None => !self@.contains_key(pk@),
            },
    {
        proof {
            lemma_seq_to_map(self.seq_view());
        }
        match self.index_of(pk) {
            Some(i) => Some(&self.entries[i].1),
            None => None,
        }
    }

    /// Replace the row at entry `i`, keeping its key.
    pub fn set_row(&mut self, i: usize, row: Vec<u64>)
        requires
            old(self).wf(),
            i < old(self).seq_view().len(),
        ensures
            final(self).wf(),
            final(self)@ == old(self)@.insert(old(self).seq_view()[i as int].0, row@),
            final(self).seq_view() == old(self).seq_view().update(
                i as int,
                (old(self).seq_view()[i as int].0, row@),
            ),
    {
        let ghost s = self.seq_view();
        let mut entry = self.entries.remove(i);
        let key = entry.0;
        self.entries.insert(i, (key, row));
        proof {
            assert(final(self).seq_view() =~= s.update(i as int, (s[i as int].0, row@)));
            lemma_seq_to_map_update(s, i as int, row@);
        }
    }

    /// Append an entry under a key not yet present.
    pub fn push_row(&mut self, pk: Vec<u8>, row: Vec<u64>)
        requires
            old(self).wf(),
            key_index(old(self).seq_view(), pk@) == -1,
        ensures
            final(self).wf(),
            final(self)@ == old(self)@.insert(pk@, row@),
            final(self).seq_view() == old(self).seq_view().push((pk@, row@)),
    {
        let ghost s = self.seq_view();
        let ghost pkv = pk@;
        let ghost rowv = row@;
        self.entries.push((pk, row));
        proof {
            assert(final(self).seq_view() =~= s.push((pkv, rowv)));
            lemma_seq_to_map_push(s, pkv, rowv);
        }
    }

    /// Remove the entry under `pk`, if any, keeping the order of the rest.
    pub fn remove(&mut self, pk: &[u8])
        requires
            old(self).wf(),
        ensures
            final(self).wf(),
            final(self)@ == old(self)@.remove(pk@),
            final(self).seq_view() == (if key_index(old(self).seq_view(), pk@) >= 0 {
                old(self).seq_view().remove(key_index(old(self).seq_view(), pk@))
            } else {
                old(self).seq_view()
            }),
    {
        let ghost s = self.seq_view();
        match self.index_of(pk) {
            Some(i) => {
                self.entries.remove(i);
                proof {
                    assert(final(self).seq_view() =~= s.remove(i as int));
                    lemma_seq_to_map_remove(s, i as int);
                }
            },
            None => {
                proof {
                    lemma_seq_to_map(s);
                    assert(!self@.contains_key(pk@));
                    assert(self@.remove(pk@) =~= self@);
                }
            },
        }
    }
}


/// Copy a row of offsets.
pub fn copy_row(v: &Vec<u64>) -> (r: Vec<u64>)
    ensures
        r@ == v@,
{
    let mut out: Vec<u64> = Vec::new();
    let n = v.len();
    let mut i: usize = 0;
    while i < n
        invariant
            i <= n,
            n == v@.len(),
            out@ == v@.take(i as int),
        decreases n - i,
    {
        out.push(v[i]);
        i = i + 1;
        proof {
            assert(out@ =~= v@.take(i as int));
        }
    }
    proof {
        assert(v@.take(n as int) =~= v@);
    }
    out
}

/// Overwrite one element of a row.
pub fn set_u64(v: &mut Vec<u64>, i: usize, x: u64)
    requires
        i < old(v)@.len(),
    ensures
        final(v)@ == old(v)@.update(i as int, x),
{
    v.set(i, x);
}


} // verus!
