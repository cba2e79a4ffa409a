use vstd::prelude::*;
use std::collections::{BTreeMap, HashMap};
use std::hash::Hash;
use vstd::std_specs::hash::obeys_key_model;
use crate::order::clone_is_copy;

verus! {

broadcast use vstd::std_specs::hash::group_hash_axioms, vstd::std_specs::btree::group_btree_axioms;

/// Calls `BTreeMap::pop_first`, trusted to remove and return the entry with the
/// least key of `m`, or to return `None` and leave `m` as it is when `m` is empty,
/// as std documents it.
#[verifier::external_body]
fn pop_least_stamp<K>(m: &mut BTreeMap<usize, K>) -> (res: Option<(usize, K)>)
    ensures
        match res {
            None => old(m)@.dom().is_empty() && final(m)@ == old(m)@,
            Some(entry) => {
                &&& old(m)@.contains_key(entry.0)
                &&& old(m)@[entry.0] == entry.1
                &&& final(m)@ == old(m)@.remove(entry.0)
                &&& forall|s: usize| old(m)@.contains_key(s) ==> entry.0 <= s
            },
        },
{
    m.pop_first()
}

/// Keys whose `==` and hash agree with identity and whose clones are identical.
pub open spec fn lawful_key<K: Clone>() -> bool {
    obeys_key_model::<K>() && clone_is_copy::<K>()
}

/// A cache of at most `capacity` entries that evicts the least recently used one.
#[derive(Debug)]
pub struct LRUCache<K, V> {
    n: usize,
    cap: usize,
    hm: HashMap<K, (V, usize)>,
    btm: BTreeMap<usize, K>,
}

impl<K: Clone + Hash + Ord, V> LRUCache<K, V> {
    /// The cached entries.
    pub closed spec fn contents(&self) -> Map<K, V> {
        self.hm@.map_values(|e: (V, usize)| e.0)
    }

    /// When each cached key was last used: a larger stamp is more recent.
    pub closed spec fn last_use(&self) -> Map<K, int> {
        self.hm@.map_values(|e: (V, usize)| e.1 as int)
    }

    /// The number of uses so far.
    pub closed spec fn clock(&self) -> int {
        self.n as int
    }

    /// The most entries the cache holds.
    pub closed spec fn capacity(&self) -> int {
        self.cap as int
    }

    /// The stamps and the entries agree, and the cache is within its capacity.
    pub closed spec fn wf(&self) -> bool {
        lawful_key::<K>() ==> {
            &&& self.cap >= 1
            &&& self.hm@.dom().finite()
            &&& self.hm@.len() <= self.cap
            &&& self.hm@.len() == self.btm@.len()
            &&& forall|k: K|
                #[trigger] self.hm@.contains_key(k) ==> {
                    &&& self.btm@.contains_key(self.hm@[k].1)
                    &&& self.btm@[self.hm@[k].1] == k
                    &&& self.hm@[k].1 <= self.n
                }
            &&& forall|s: usize|
                #[trigger] self.btm@.contains_key(s) ==> {
                    &&& self.hm@.contains_key(self.btm@[s])
                    &&& self.hm@[self.btm@[s]].1 == s
                }
        }
    }

    /// A cache never holds more entries than its capacity.
    pub proof fn lemma_within_capacity(&self)
        requires
            self.wf(),
            lawful_key::<K>(),
        ensures
            self.contents().dom().finite(),
            self.contents().len() <= self.capacity(),
    {
        assert(self.contents().dom() =~= self.hm@.dom());
    }

    /// No cached key was used after the present clock: the key that the last
    /// `get` hit or `insert` stored, stamped with the clock, is the most recent.
    pub proof fn lemma_stamps_before_clock(&self)
        requires
            self.wf(),
            lawful_key::<K>(),
        ensures
            forall|k: K| #[trigger] self.contents().contains_key(k) ==> self.last_use()[k] <= self.clock(),
    {
        assert forall|k: K| #[trigger] self.contents().contains_key(k) implies self.last_use()[k] <= self.clock() by {
            assert(self.hm@.contains_key(k));
        }
    }

    /// An empty cache of the given capacity; a capacity below one is refused.
    pub fn new(capacity: usize) -> (res: Self)
        requires
            capacity >= 1,
        ensures
            res.wf(),
            res.contents() == Map::<K, V>::empty(),
            res.clock() == 0,
            res.capacity() == capacity,
    {
        let res = Self { n: 0, cap: capacity, hm: HashMap::new(), btm: BTreeMap::new() };
        assert(res.contents() =~= Map::<K, V>::empty());
        res
    }

    /// The value for `key`, if cached; a hit makes `key` the most recently used.
    pub fn get(&mut self, key: &K) -> (res: Option<&V>)
        requires
            old(self).wf(),
            old(self).clock() < usize::MAX,
        ensures
            final(self).wf(),
            final(self).clock() == old(self).clock() + 1,
            final(self).capacity() == old(self).capacity(),
            lawful_key::<K>() ==> {
                &&& final(self).contents() == old(self).contents()
                &&& match res {
                    Some(v) => old(self).contents().contains_key(*key) && *v == old(self).contents()[*key]
                        && final(self).last_use() == old(self).last_use().insert(*key, final(self).clock()),
                    None => !old(self).contents().contains_key(*key) && final(self).last_use()
                        == old(self).last_use(),
                }
            },
    {
        self.n = self.n + 1;
        let ghost hm0 = self.hm@;
        let ghost btm0 = self.btm@;
        let entry = self.hm.remove(key);
        match entry {
            None => {
                proof {
                    if lawful_key::<K>() {
                        assert(self.hm@ =~= hm0);
                    }
                }
                None
            },
            Some(e) => {
                let (value, stamp) = e;
                self.btm.remove(&stamp);
                let stored = key.clone();
                self.btm.insert(self.n, stored);
                let copy = key.clone();
                self.hm.insert(copy, (value, self.n));
                proof {
                    if lawful_key::<K>() {
                        assert(vstd::pervasive::strictly_cloned(*key, stored));
                        assert(vstd::pervasive::strictly_cloned(*key, copy));
                        assert(stored == *key && copy == *key);
                        assert(hm0.contains_key(*key));
                        assert(btm0.contains_key(stamp) && btm0[stamp] == *key);
                        assert(!btm0.contains_key(self.n)) by {
                            if btm0.contains_key(self.n) {
                                assert(hm0[btm0[self.n]].1 == self.n);
                            }
                        }
                        assert(self.hm@ == hm0.insert(*key, (hm0[*key].0, self.n)));
                        assert(self.btm@ == btm0.remove(stamp).insert(self.n, *key));
                        assert(self.hm@.dom() =~= hm0.dom());
                        assert(self.btm@.dom() =~= btm0.dom().remove(stamp).insert(self.n));
                        assert forall|k: K| #[trigger] self.hm@.contains_key(k) implies {
                            &&& self.btm@.contains_key(self.hm@[k].1)
                            &&& self.btm@[self.hm@[k].1] == k
                            &&& self.hm@[k].1 <= self.n
                        } by {
                            if k != *key {
                                assert(hm0.contains_key(k));
                                assert(hm0[k].1 != stamp);
                            }
                        }
                        assert forall|s: usize| #[trigger] self.btm@.contains_key(s) implies {
                            &&& self.hm@.contains_key(self.btm@[s])
                            &&& self.hm@[self.btm@[s]].1 == s
                        } by {
                            if s != self.n {
                                assert(btm0.contains_key(s));
                                assert(btm0[s] != *key);
                            }
                        }
                        assert(self.contents() =~= old(self).contents());
                        assert(self.last_use() =~= old(self).last_use().insert(*key, self.n as int));
                    }
                }
                match self.hm.get(key) {
                    Some(found) => Some(&found.0),
                    None => None,
                }
            },
        }
    }

    /// `e` is the cached key used longest ago.
    pub open spec fn is_least_recent(&self, e: K) -> bool {
        &&& self.contents().contains_key(e)
        &&& forall|k: K| #[trigger] self.contents().contains_key(k) ==> self.last_use()[e] <= self.last_use()[k]
    }

    /// Caches `value` for `key` as the most recently used entry and returns the value it
    /// replaced. When a new key finds the cache full, the least recently used entry leaves.
    pub fn insert(&mut self, key: K, value: V) -> (res: Option<V>)
        requires
            old(self).wf(),
            old(self).clock() < usize::MAX,
        ensures
            final(self).wf(),
            final(self).clock() == old(self).clock() + 1,
            final(self).capacity() == old(self).capacity(),
            lawful_key::<K>() ==> {
                &&& res == (if old(self).contents().contains_key(key) {
                    Some(old(self).contents()[key])
                } else {
                    None
                })
                &&& if old(self).contents().contains_key(key) || old(self).contents().len()
                    < old(self).capacity() {
                    &&& final(self).contents() == old(self).contents().insert(key, value)
                    &&& final(self).last_use() == old(self).last_use().insert(key, final(self).clock())
                } else {
                    exists|e: K|
                        #[trigger] old(self).is_least_recent(e) && e != key && final(self).contents()
                            == old(self).contents().insert(key, value).remove(e) && final(self).last_use()
                            == old(self).last_use().insert(key, final(self).clock()).remove(e)
                }
            },
    {
        self.n = self.n + 1;
        let ghost hm0 = self.hm@;
        let ghost btm0 = self.btm@;
        let v = self.hm.remove(&key);
        let mut result: Option<V> = None;
        let ghost mut old_stamp: usize = 0;
        if let Some(v) = v {
            result = Some(v.0);
            proof {
                old_stamp = v.1;
            }
            self.btm.remove(&v.1);
        }
        proof {
            if lawful_key::<K>() {
                assert(result == (if old(self).contents().contains_key(key) {
                    Some(old(self).contents()[key])
                } else {
                    None
                }));
            }
        }
        let ghost hm_removed = self.hm@;
        let ghost btm_removed = self.btm@;
        let copy = key.clone();
        self.hm.insert(copy, (value, self.n));
        self.btm.insert(self.n, key);
        let ghost hm1 = self.hm@;
        let ghost btm1 = self.btm@;
        proof {
            if lawful_key::<K>() {
                assert(vstd::pervasive::strictly_cloned(key, copy));
                assert(copy == key);
                assert(hm_removed == hm0.remove(key));
                if hm0.contains_key(key) {
                    assert(old_stamp == hm0[key].1);
                    assert(btm_removed == btm0.remove(old_stamp));
                } else {
                    assert(btm_removed == btm0);
                }
                assert(!btm_removed.contains_key(self.n)) by {
                    if btm_removed.contains_key(self.n) {
                        assert(btm0.contains_key(self.n));
                        assert(hm0[btm0[self.n]].1 == self.n);
                    }
                }
                assert(hm1 == hm_removed.insert(key, (value, self.n)));
                assert(btm1 == btm_removed.insert(self.n, key));
                assert forall|k: K| #[trigger] hm1.contains_key(k) implies {
                    &&& btm1.contains_key(hm1[k].1)
                    &&& btm1[hm1[k].1] == k
                    &&& hm1[k].1 <= self.n
                } by {
                    if k != key {
                        assert(hm0.contains_key(k));
                        if hm0.contains_key(key) {
                            assert(hm0[k].1 != old_stamp);
                        }
                    }
                }
                assert forall|s: usize| #[trigger] btm1.contains_key(s) implies {
                    &&& hm1.contains_key(btm1[s])
                    &&& hm1[btm1[s]].1 == s
                } by {
                    if s != self.n {
                        assert(btm0.contains_key(s));
                        assert(btm0[s] != key);
                    }
                }
                if hm0.contains_key(key) {
                    assert(hm1.dom() =~= hm0.dom());
                    assert(btm1.dom() =~= btm0.dom().remove(old_stamp).insert(self.n));
                    assert(btm0.dom().contains(old_stamp));
                } else {
                    assert(hm1.dom() =~= hm0.dom().insert(key));
                    assert(btm1.dom() =~= btm0.dom().insert(self.n));
                }
            }
        }
        if self.btm.len() > self.cap {
            let popped = pop_least_stamp(&mut self.btm);
            let (least, key_last) = popped.unwrap();
            self.hm.remove(&key_last);
            proof {
                if lawful_key::<K>() {
                    assert(!hm0.contains_key(key));
                    assert(hm1.len() == hm0.len() + 1);
                    let e = key_last;
                    assert(hm1.contains_key(e) && hm1[e].1 == least);
                    assert(e != key) by {
                        let other = btm0.dom().choose();
                        assert(btm0.dom().len() > 0);
                        assert(btm0.dom().contains(other));
                        assert(btm1.contains_key(other));
                        assert(other <= old(self).n);
                        assert(least <= other);
                    }
                    assert(self.hm@ == hm1.remove(e));
                    assert forall|k: K| #[trigger] self.hm@.contains_key(k) implies {
                        &&& self.btm@.contains_key(self.hm@[k].1)
                        &&& self.btm@[self.hm@[k].1] == k
                        &&& self.hm@[k].1 <= self.n
                    } by {
                        assert(hm1.contains_key(k));
                        assert(hm1[k].1 != least);
                    }
                    assert(self.hm@.dom() =~= hm1.dom().remove(e));
                    assert(self.btm@.dom() =~= btm1.dom().remove(least));
                    assert(old(self).is_least_recent(e)) by {
                        assert(old(self).contents().contains_key(e));
                        assert forall|k: K| #[trigger] old(self).contents().contains_key(k) implies old(self).last_use()[e]
                            <= old(self).last_use()[k] by {
                            assert(hm1.contains_key(k));
                            assert(btm1.contains_key(hm1[k].1));
                        }
                    }
                    assert(old(self).contents().dom() =~= hm0.dom());
                    assert(old(self).contents().len() == hm0.len());
                    assert(self.contents() =~= old(self).contents().insert(key, value).remove(e));
                    assert(self.last_use() =~= old(self).last_use().insert(key, self.n as int).remove(e));
                }
            }
        } else {
            proof {
                if lawful_key::<K>() {
                    if !hm0.contains_key(key) {
                        assert(hm1.len() == hm0.len() + 1);
                        assert(old(self).contents().dom() =~= hm0.dom());
                        assert(old(self).contents().len() == hm0.len());
                    }
                    assert(self.contents() =~= old(self).contents().insert(key, value));
                    assert(self.last_use() =~= old(self).last_use().insert(key, self.n as int));
                }
            }
        }
        result
    }
}

/// What `insert` caches can be read back at once: whether or not an entry `e`
/// other than `key` was evicted, `key` holds `value` and the other entries that
/// stay keep their values.
pub proof fn lemma_read_after_insert<K, V>(contents: Map<K, V>, key: K, value: V, e: K)
    requires
        e != key,
    ensures
        contents.insert(key, value)[key] == value,
        contents.insert(key, value).remove(e).contains_key(key),
        contents.insert(key, value).remove(e)[key] == value,
        forall|k: K|
            k != key && k != e && #[trigger] contents.contains_key(k) ==> contents.insert(key, value).remove(
                e,
            )[k] == contents[k],
{
}

} // verus!
