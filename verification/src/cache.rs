//! A memoizing container for lazily constructed child proxies.

use vstd::prelude::*;

verus! {

/// One stored child, under the index it was requested with.
struct CacheEntry<V> {
    key: usize,
    val: V,
}

/// The mathematical contents of a run of entries: the map from each key
/// to the last value stored under it.
spec fn entries_map<V>(s: Seq<CacheEntry<V>>) -> Map<int, V>
    decreases s.len(),
{
    if s.len() == 0 {
        Map::empty()
    } else {
        entries_map(s.drop_last()).insert(s.last().key as int, s.last().val)
    }
}

/// Whether no two entries share a key.
spec fn distinct_keys<V>(s: Seq<CacheEntry<V>>) -> bool {
    forall|i: int, j: int| 0 <= i < j < s.len() ==> s[i].key != s[j].key
}

/// Whether some entry carries the key `k`.
spec fn has_key<V>(s: Seq<CacheEntry<V>>, k: int) -> bool {
    exists|i: int| 0 <= i < s.len() && (#[trigger] s[i]).key as int == k
}

proof fn lemma_entries_map_dom<V>(s: Seq<CacheEntry<V>>)
    ensures
        forall|k: int| #[trigger] entries_map(s).dom().contains(k) <==> has_key(s, k),
    decreases s.len(),
{
    if s.len() > 0 {
        lemma_entries_map_dom(s.drop_last());
        assert(entries_map(s)
            == entries_map(s.drop_last()).insert(s.last().key as int, s.last().val));
        assert forall|k: int| #[trigger] entries_map(s).dom().contains(k)
            implies has_key(s, k) by {
            if k == s.last().key as int {
                assert(s[s.len() - 1].key as int == k);
            } else {
                assert(entries_map(s.drop_last()).dom().contains(k));
                assert(has_key(s.drop_last(), k));
                let i = choose|i: int|
                    0 <= i < s.drop_last().len() && (#[trigger] s.drop_last()[i]).key as int == k;
                assert(s[i] == s.drop_last()[i]);
                assert(s[i].key as int == k);
            }
        }
        assert forall|k: int| has_key(s, k)
            implies #[trigger] entries_map(s).dom().contains(k) by {
            let i = choose|i: int| 0 <= i < s.len() && (#[trigger] s[i]).key as int == k;
            if i < s.len() - 1 {
                assert(s.drop_last()[i] == s[i]);
                assert(has_key(s.drop_last(), k));
                assert(entries_map(s.drop_last()).dom().contains(k));
            }
        }
    }
}

proof fn lemma_entries_map_at<V>(s: Seq<CacheEntry<V>>, i: int)
    requires
        distinct_keys(s),
        0 <= i < s.len(),
    ensures
        entries_map(s).dom().contains(s[i].key as int),
        entries_map(s)[s[i].key as int] == s[i].val,
    decreases s.len(),
{
    if i == s.len() - 1 {
    } else {
        assert(distinct_keys(s.drop_last()));
        assert(s.drop_last()[i] == s[i]);
        lemma_entries_map_at(s.drop_last(), i);
        assert(s[i].key != s.last().key);
    }
}

proof fn lemma_entries_map_update<V>(s: Seq<CacheEntry<V>>, i: int, v: V)
    requires
        distinct_keys(s),
        0 <= i < s.len(),
    ensures
        forall|w: V| entries_map(s.update(i, (CacheEntry { key: s[i].key, val: w })))
            == entries_map(s).insert(s[i].key as int, w),
    decreases s.len(),
{
    assert forall|w: V| entries_map(s.update(i, (CacheEntry { key: s[i].key, val: w })))
        == entries_map(s).insert(s[i].key as int, w) by {
        let e = CacheEntry { key: s[i].key, val: w };
        if i == s.len() - 1 {
            assert(s.update(i, e).drop_last() =~= s.drop_last());
            assert(s.update(i, e).last() == e);
        } else {
            assert(distinct_keys(s.drop_last()));
            assert(s.drop_last()[i] == s[i]);
            lemma_entries_map_update(s.drop_last(), i, v);
            assert(s.update(i, e).drop_last() =~= s.drop_last().update(i, e));
            assert(s.update(i, e).last() == s.last());
            assert(s[i].key != s.last().key);
            assert(entries_map(s.drop_last().update(i, e))
                == entries_map(s.drop_last()).insert(s[i].key as int, w));
            assert(entries_map(s.update(i, e))
                =~= entries_map(s).insert(s[i].key as int, w));
        }
    }
}

/// A memoizing owner of lazily constructed children, keyed by index.
///
/// At most one child is ever stored per distinct index: a child is
/// constructed by the caller only when [`Cache::contains_key`] says the
/// index is still absent, stored once with [`Cache::insert`], and every
/// later access returns that same stored child.
pub struct Cache<V> {
    entries: Vec<CacheEntry<V>>,
}

impl<V> View for Cache<V> {
    type V = Map<int, V>;

    closed spec fn view(&self) -> Map<int, V> {
        entries_map(self.entries@)
    }
}

impl<V> Cache<V> {
    /// Whether no index is stored twice; established by [`Cache::new`]
    /// and preserved by every operation.
    pub closed spec fn wf(&self) -> bool {
        distinct_keys(self.entries@)
    }

    /// An empty cache.
    pub fn new() -> (c: Cache<V>)
        ensures
            c@ == Map::<int, V>::empty(),
            c.wf(),
    {
        Cache { entries: Vec::new() }
    }

    /// Whether a child is already stored under `key`.
    pub fn contains_key(&self, key: usize) -> (b: bool)
        ensures
            b == self@.dom().contains(key as int),
    {
        proof {
            lemma_entries_map_dom(self.entries@);
        }
        let mut i: usize = 0;
        while i < self.entries.len()
            invariant
                i <= self.entries@.len(),
                forall|j: int| 0 <= j < i ==> self.entries@[j].key != key,
            decreases self.entries@.len() - i,
        {
            if self.entries[i].key == key {
                proof {
                    lemma_entries_map_dom(self.entries@);
                    assert(self.entries@[i as int].key as int == key as int);
                    assert(has_key(self.entries@, key as int));
                }
                return true;
            }
            i = i + 1;
        }
        false
    }

    /// Stores the child constructed for a still-absent index.
    pub fn insert(&mut self, key: usize, val: V)
        requires
            old(self).wf(),
            !old(self)@.dom().contains(key as int),
        ensures
            final(self)@ == old(self)@.insert(key as int, val),
            final(self).wf(),
    {
        proof {
            lemma_entries_map_dom(self.entries@);
        }
        self.entries.push(CacheEntry { key, val });
        proof {
            assert(self.entries@.drop_last() =~= old(self).entries@);
        }
    }

    /// The stored child under a present index, shared.
    pub fn get(&self, key: usize) -> (r: &V)
        requires
            self.wf(),
            self@.dom().contains(key as int),
        ensures
            *r == self@[key as int],
    {
        proof {
            lemma_entries_map_dom(self.entries@);
        }
        let mut i: usize = 0;
        while i < self.entries.len()
            invariant
                i <= self.entries@.len(),
                self.wf(),
                self@.dom().contains(key as int),
                forall|j: int| 0 <= j < i ==> self.entries@[j].key != key,
            decreases self.entries@.len() - i,
        {
            if self.entries[i].key == key {
                proof {
                    lemma_entries_map_at(self.entries@, i as int);
                }
                return &self.entries[i].val;
            }
            i = i + 1;
        }
        proof {
            lemma_entries_map_dom(self.entries@);
            assert(false);
        }
        &self.entries[0].val
    }

    /// The stored child under a present index, exclusive: later changes
    /// to the child through the returned reference land in the cache.
    pub fn get_mut(&mut self, key: usize) -> (r: &mut V)
        requires
            old(self).wf(),
            old(self)@.dom().contains(key as int),
        ensures
            *r == old(self)@[key as int],
            final(self)@ == old(self)@.insert(key as int, *final(r)),
            final(self).wf(),
    {
        proof {
            lemma_entries_map_dom(self.entries@);
        }
        let mut i: usize = 0;
        let n: usize = self.entries.len();
        while i < n
            invariant
                i <= self.entries@.len(),
                n == self.entries@.len(),
                old(self).wf(),
                self == old(self),
                old(self)@.dom().contains(key as int),
                forall|j: int| 0 <= j < i ==> self.entries@[j].key != key,
            decreases n - i,
        {
            if self.entries[i].key == key {
                proof {
                    lemma_entries_map_at(self.entries@, i as int);
                    lemma_entries_map_update(self.entries@, i as int, self.entries@[i as int].val);
                }
                let entry = &mut self.entries[i];
                return &mut entry.val;
            }
            i = i + 1;
        }
        proof {
            lemma_entries_map_dom(self.entries@);
            assert(false);
        }
        let entry = &mut self.entries[0];
        &mut entry.val
    }

    /// How many distinct indices hold a stored child.
    pub fn len(&self) -> (n: usize)
        requires
            self.wf(),
        ensures
            n as nat == self@.dom().len(),
    {
        proof {
            lemma_entries_map_len(self.entries@);
        }
        self.entries.len()
    }
}

/// Storing under a key and then storing under it again keeps only the
/// second value, whatever the two values are.
pub proof fn lemma_map_insert_twice<V>(m: Map<int, V>, k: int)
    ensures
        forall|a: V, b: V| #[trigger] m.insert(k, a).insert(k, b) == m.insert(k, b),
{
    assert forall|a: V, b: V| #[trigger] m.insert(k, a).insert(k, b) == m.insert(k, b) by {
        assert(m.insert(k, a).insert(k, b) =~= m.insert(k, b));
    }
}

proof fn lemma_entries_map_len<V>(s: Seq<CacheEntry<V>>)
    requires
        distinct_keys(s),
    ensures
        entries_map(s).dom().len() == s.len(),
        entries_map(s).dom().finite(),
    decreases s.len(),
{
    if s.len() > 0 {
        assert(distinct_keys(s.drop_last()));
        lemma_entries_map_len(s.drop_last());
        lemma_entries_map_dom(s.drop_last());
        assert(!entries_map(s.drop_last()).dom().contains(s.last().key as int));
        assert(entries_map(s).dom()
            =~= entries_map(s.drop_last()).dom().insert(s.last().key as int));
    }
}

} // verus!
