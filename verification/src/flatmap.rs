use vstd::prelude::*;
use crate::order::{precedes, lawful_order, lemma_order, compare, KeyOrder};
use vstd::std_specs::vec::into_iter_elts;

verus! {

/// The map that a list of pairs describes: a later pair overrides an earlier
/// one with the same key.
pub open spec fn pairs_map<K, V>(s: Seq<(K, V)>) -> Map<K, V>
    decreases s.len(),
{
    if s.len() == 0 {
        Map::empty()
    } else {
        pairs_map(s.drop_last()).insert(s.last().0, s.last().1)
    }
}

/// The keys of `s` strictly increase.
pub open spec fn keys_increase<K: PartialOrd, V>(s: Seq<(K, V)>) -> bool {
    forall|i: int, j: int| 0 <= i < j < s.len() ==> precedes(#[trigger] s[i].0, #[trigger] s[j].0)
}

/// No key occurs twice in `s`.
pub open spec fn keys_unique<K, V>(s: Seq<(K, V)>) -> bool {
    forall|i: int, j: int| 0 <= i < j < s.len() ==> #[trigger] s[i].0 != #[trigger] s[j].0
}

/// `s[i]` is the last pair of `s` with its key.
pub open spec fn last_with_key<K, V>(s: Seq<(K, V)>, i: int) -> bool {
    &&& 0 <= i < s.len()
    &&& forall|j: int| i < j < s.len() ==> #[trigger] s[j].0 != s[i].0
}

/// The map of a list of pairs holds the keys of the list, each with the value of
/// its last pair.
pub proof fn lemma_pairs_map_last_wins<K, V>(s: Seq<(K, V)>)
    ensures
        forall|k: K| #[trigger] pairs_map(s).contains_key(k) <==> exists|i: int| 0 <= i < s.len() && s[i].0 == k,
        forall|i: int| #[trigger] last_with_key(s, i) ==> pairs_map(s)[s[i].0] == s[i].1,
    decreases s.len(),
{
    if s.len() > 0 {
        let t = s.drop_last();
        lemma_pairs_map_last_wins(t);
        assert(pairs_map(s) == pairs_map(t).insert(s.last().0, s.last().1));
        assert forall|k: K| #[trigger] pairs_map(s).contains_key(k) <==> exists|i: int| 0 <= i < s.len() && s[i].0 == k by {
            if k == s.last().0 {
                assert(s[s.len() - 1].0 == k);
            }
            if pairs_map(s).contains_key(k) && k != s.last().0 {
                assert(pairs_map(t).contains_key(k));
                let i = choose|i: int| 0 <= i < t.len() && t[i].0 == k;
                assert(s[i].0 == k);
            }
            if exists|i: int| 0 <= i < s.len() && s[i].0 == k {
                let i = choose|i: int| 0 <= i < s.len() && s[i].0 == k;
                if i < t.len() {
                    assert(t[i].0 == k);
                }
            }
        }
        assert forall|i: int| #[trigger] last_with_key(s, i) implies pairs_map(s)[s[i].0] == s[i].1 by {
            if i < t.len() {
                assert(s[s.len() - 1].0 != s[i].0);
                assert forall|j: int| i < j < t.len() implies #[trigger] t[j].0 != t[i].0 by {
                    assert(s[j].0 != s[i].0);
                }
                assert(last_with_key(t, i));
            }
        }
    }
}

/// With unique keys, the map of `s` holds exactly the pairs of `s`.
pub proof fn lemma_pairs_map_unique<K, V>(s: Seq<(K, V)>)
    requires
        keys_unique(s),
    ensures
        forall|k: K| #[trigger] pairs_map(s).contains_key(k) <==> exists|i: int| 0 <= i < s.len() && s[i].0 == k,
        forall|i: int| 0 <= i < s.len() ==> #[trigger] pairs_map(s)[s[i].0] == s[i].1,
    decreases s.len(),
{
    if s.len() > 0 {
        let t = s.drop_last();
        assert(keys_unique(t));
        lemma_pairs_map_unique(t);
        assert forall|k: K| #[trigger] pairs_map(s).contains_key(k) <==> exists|i: int|
            0 <= i < s.len() && s[i].0 == k by {
            if pairs_map(s).contains_key(k) && k != s.last().0 {
                assert(pairs_map(t).contains_key(k));
                let i = choose|i: int| 0 <= i < t.len() && t[i].0 == k;
                assert(s[i].0 == k);
            }
            if exists|i: int| 0 <= i < s.len() && s[i].0 == k {
                let i = choose|i: int| 0 <= i < s.len() && s[i].0 == k;
                if i < t.len() {
                    assert(t[i].0 == k);
                    assert(pairs_map(t).contains_key(k));
                }
            }
        }
        assert forall|i: int| 0 <= i < s.len() implies #[trigger] pairs_map(s)[s[i].0] == s[i].1 by {
            if i < t.len() {
                assert(t[i] == s[i]);
                assert(s[i].0 != s[s.len() - 1].0);
                assert(pairs_map(t)[t[i].0] == t[i].1);
                assert(pairs_map(s) == pairs_map(t).insert(s.last().0, s.last().1));
            }
        }
    }
}

/// Maps with unique keys that hold the same pairs are equal.
proof fn lemma_pairs_map_ext<K, V>(s: Seq<(K, V)>, m: Map<K, V>)
    requires
        keys_unique(s),
        forall|k: K| #[trigger] m.contains_key(k) <==> exists|i: int| 0 <= i < s.len() && s[i].0 == k,
        forall|i: int| 0 <= i < s.len() ==> #[trigger] m[s[i].0] == s[i].1,
    ensures
        pairs_map(s) == m,
{
    lemma_pairs_map_unique(s);
    assert forall|k: K| #[trigger] pairs_map(s).contains_key(k) implies pairs_map(s)[k] == m[k] by {
        let i = choose|i: int| 0 <= i < s.len() && s[i].0 == k;
        assert(pairs_map(s)[s[i].0] == s[i].1);
    }
    assert(pairs_map(s) =~= m);
}

/// Replacing the pair at `i` by one with the same key.
proof fn lemma_update_pair<K: Ord, V>(s: Seq<(K, V)>, i: int, k: K, v: V)
    requires
        lawful_order::<K>(),
        keys_increase(s),
        0 <= i < s.len(),
        s[i].0 == k,
    ensures
        keys_increase(s.update(i, (k, v))),
        pairs_map(s.update(i, (k, v))) == pairs_map(s).insert(k, v),
{
    lemma_order::<K>();
    let s2 = s.update(i, (k, v));
    assert forall|a: int, b: int| 0 <= a < b < s2.len() implies precedes(#[trigger] s2[a].0, #[trigger] s2[b].0) by {
        assert(precedes(s[a].0, s[b].0));
    }
    lemma_keys_unique(s);
    lemma_keys_unique(s2);
    lemma_pairs_map_unique(s);
    let m = pairs_map(s).insert(k, v);
    assert forall|key: K| #[trigger] m.contains_key(key) <==> exists|j: int| 0 <= j < s2.len() && s2[j].0 == key by {
        if m.contains_key(key) && key != k {
            assert(pairs_map(s).contains_key(key));
            let j = choose|j: int| 0 <= j < s.len() && s[j].0 == key;
            assert(s2[j].0 == key);
        }
        if key == k {
            assert(s2[i].0 == key);
        }
        if exists|j: int| 0 <= j < s2.len() && s2[j].0 == key {
            let j = choose|j: int| 0 <= j < s2.len() && s2[j].0 == key;
            if j != i {
                assert(s[j].0 == key);
                assert(pairs_map(s).contains_key(s[j].0));
            }
        }
    }
    assert forall|j: int| 0 <= j < s2.len() implies #[trigger] m[s2[j].0] == s2[j].1 by {
        if j != i {
            assert(s[j].0 != s[i].0);
            assert(pairs_map(s)[s[j].0] == s[j].1);
        }
    }
    lemma_pairs_map_ext(s2, m);
}

/// Inserting a pair with a new key at its place in the order.
proof fn lemma_insert_pair<K: Ord, V>(s: Seq<(K, V)>, i: int, k: K, v: V)
    requires
        lawful_order::<K>(),
        keys_increase(s),
        0 <= i <= s.len(),
        forall|j: int| 0 <= j < i ==> precedes(#[trigger] s[j].0, k),
        forall|j: int| i <= j < s.len() ==> precedes(k, #[trigger] s[j].0),
    ensures
        keys_increase(s.insert(i, (k, v))),
        pairs_map(s.insert(i, (k, v))) == pairs_map(s).insert(k, v),
        !pairs_map(s).contains_key(k),
{
    lemma_order::<K>();
    let s2 = s.insert(i, (k, v));
    assert forall|a: int, b: int| 0 <= a < b < s2.len() implies precedes(#[trigger] s2[a].0, #[trigger] s2[b].0) by {
        if b < i {
            assert(precedes(s[a].0, s[b].0));
        } else if b == i {
            assert(precedes(s[a].0, k));
        } else if a < i {
            assert(precedes(s[a].0, k));
            assert(precedes(k, s[b - 1].0));
        } else if a == i {
            assert(precedes(k, s[b - 1].0));
        } else {
            assert(precedes(s[a - 1].0, s[b - 1].0));
        }
    }
    lemma_keys_unique(s);
    lemma_keys_unique(s2);
    lemma_pairs_map_unique(s);
    assert(!pairs_map(s).contains_key(k)) by {
        if pairs_map(s).contains_key(k) {
            let j = choose|j: int| 0 <= j < s.len() && s[j].0 == k;
            if j < i {
                assert(precedes(s[j].0, k));
            } else {
                assert(precedes(k, s[j].0));
            }
        }
    }
    let m = pairs_map(s).insert(k, v);
    assert forall|key: K| #[trigger] m.contains_key(key) <==> exists|j: int| 0 <= j < s2.len() && s2[j].0 == key by {
        if m.contains_key(key) && key != k {
            assert(pairs_map(s).contains_key(key));
            let j = choose|j: int| 0 <= j < s.len() && s[j].0 == key;
            if j < i {
                assert(s2[j].0 == key);
            } else {
                assert(s2[j + 1].0 == key);
            }
        }
        if key == k {
            assert(s2[i].0 == key);
        }
        if exists|j: int| 0 <= j < s2.len() && s2[j].0 == key {
            let j = choose|j: int| 0 <= j < s2.len() && s2[j].0 == key;
            if j < i {
                assert(pairs_map(s).contains_key(s[j].0));
            } else if j > i {
                assert(pairs_map(s).contains_key(s[j - 1].0));
            }
        }
    }
    assert forall|j: int| 0 <= j < s2.len() implies #[trigger] m[s2[j].0] == s2[j].1 by {
        if j < i {
            assert(pairs_map(s)[s[j].0] == s[j].1);
            assert(s[j].0 != k);
        } else if j > i {
            assert(pairs_map(s)[s[j - 1].0] == s[j - 1].1);
            assert(s[j - 1].0 != k);
        }
    }
    lemma_pairs_map_ext(s2, m);
}

/// Removing the pair at `i`.
proof fn lemma_remove_pair<K: Ord, V>(s: Seq<(K, V)>, i: int)
    requires
        lawful_order::<K>(),
        keys_increase(s),
        0 <= i < s.len(),
    ensures
        keys_increase(s.remove(i)),
        pairs_map(s.remove(i)) == pairs_map(s).remove(s[i].0),
        pairs_map(s).contains_key(s[i].0),
        pairs_map(s)[s[i].0] == s[i].1,
{
    lemma_order::<K>();
    let s2 = s.remove(i);
    let k = s[i].0;
    assert forall|a: int, b: int| 0 <= a < b < s2.len() implies precedes(#[trigger] s2[a].0, #[trigger] s2[b].0) by {
        if b < i {
            assert(precedes(s[a].0, s[b].0));
        } else if a < i {
            assert(precedes(s[a].0, s[b + 1].0));
        } else {
            assert(precedes(s[a + 1].0, s[b + 1].0));
        }
    }
    lemma_keys_unique(s);
    lemma_keys_unique(s2);
    lemma_pairs_map_unique(s);
    assert(pairs_map(s)[s[i].0] == s[i].1);
    let m = pairs_map(s).remove(k);
    assert forall|key: K| #[trigger] m.contains_key(key) <==> exists|j: int| 0 <= j < s2.len() && s2[j].0 == key by {
        if m.contains_key(key) {
            assert(pairs_map(s).contains_key(key));
            let j = choose|j: int| 0 <= j < s.len() && s[j].0 == key;
            assert(j != i);
            if j < i {
                assert(s2[j].0 == key);
            } else {
                assert(s2[j - 1].0 == key);
            }
        }
        if exists|j: int| 0 <= j < s2.len() && s2[j].0 == key {
            let j = choose|j: int| 0 <= j < s2.len() && s2[j].0 == key;
            if j < i {
                assert(pairs_map(s).contains_key(s[j].0));
                assert(s[j].0 != k);
            } else {
                assert(pairs_map(s).contains_key(s[j + 1].0));
                assert(s[j + 1].0 != k);
            }
        }
    }
    assert forall|j: int| 0 <= j < s2.len() implies #[trigger] m[s2[j].0] == s2[j].1 by {
        if j < i {
            assert(pairs_map(s)[s[j].0] == s[j].1);
            assert(s[j].0 != k);
        } else {
            assert(pairs_map(s)[s[j + 1].0] == s[j + 1].1);
            assert(s[j + 1].0 != k);
        }
    }
    lemma_pairs_map_ext(s2, m);
}

/// Increasing keys are unique.
proof fn lemma_keys_unique<K: Ord, V>(s: Seq<(K, V)>)
    requires
        lawful_order::<K>(),
        keys_increase(s),
    ensures
        keys_unique(s),
{
    lemma_order::<K>();
    assert forall|i: int, j: int| 0 <= i < j < s.len() implies #[trigger] s[i].0 != #[trigger] s[j].0 by {
        assert(precedes(s[i].0, s[j].0));
    }
}

/// A map stored as a vector of pairs sorted by key.
#[derive(Debug, PartialEq, Eq)]
pub struct FlatMap<K: Ord, V>(Vec<(K, V)>);

impl<K: Ord, V> View for FlatMap<K, V> {
    type V = Seq<(K, V)>;

    /// The stored pairs, in order.
    closed spec fn view(&self) -> Seq<(K, V)> {
        self.0@
    }
}

impl<K: Ord, V> FlatMap<K, V> {
    /// The map that the stored pairs describe.
    pub open spec fn as_map(&self) -> Map<K, V> {
        pairs_map(self@)
    }

    /// The keys are stored in increasing order whenever `K` is lawfully ordered.
    #[verifier::type_invariant]
    spec fn sorted_inv(self) -> bool {
        lawful_order::<K>() ==> keys_increase(self.0@)
    }

    /// Where `key` is stored, or where it would be inserted.
    fn search(&self, key: &K) -> (res: Result<usize, usize>)
        ensures
            match res {
                Ok(i) => i < self@.len() && (lawful_order::<K>() ==> self@[i as int].0 == *key),
                Err(i) => i <= self@.len() && (lawful_order::<K>() ==> {
                    &&& forall|j: int| 0 <= j < i ==> precedes(#[trigger] self@[j].0, *key)
                    &&& forall|j: int| i <= j < self@.len() ==> precedes(*key, #[trigger] self@[j].0)
                }),
            },
    {
        proof {
            use_type_invariant(self);
            if lawful_order::<K>() {
                lemma_order::<K>();
            }
        }
        let mut lo: usize = 0;
        let mut hi: usize = self.0.len();
        while lo < hi
            invariant
                lawful_order::<K>() ==> keys_increase(self@),
                lo <= hi <= self@.len(),
                lawful_order::<K>() ==> forall|j: int| 0 <= j < lo ==> precedes(#[trigger] self@[j].0, *key),
                lawful_order::<K>() ==> forall|j: int| hi <= j < self@.len() ==> precedes(*key, #[trigger] self@[j].0),
            decreases hi - lo,
        {
            let mid = lo + (hi - lo) / 2;
            match compare(&self.0[mid].0, key) {
                KeyOrder::Less => {
                    proof {
                        if lawful_order::<K>() {
                            lemma_order::<K>();
                            assert forall|j: int| 0 <= j < mid + 1 implies precedes(#[trigger] self@[j].0, *key) by {
                                if j < mid {
                                    assert(precedes(self@[j].0, self@[mid as int].0));
                                }
                            }
                        }
                    }
                    lo = mid + 1;
                },
                KeyOrder::Equal => {
                    return Ok(mid);
                },
                KeyOrder::Greater => {
                    proof {
                        if lawful_order::<K>() {
                            lemma_order::<K>();
                            assert forall|j: int| mid <= j < self@.len() implies precedes(*key, #[trigger] self@[j].0) by {
                                if j > mid {
                                    assert(precedes(self@[mid as int].0, self@[j].0));
                                }
                            }
                        }
                    }
                    hi = mid;
                },
            }
        }
        Err(lo)
    }
}

/// Calls `Vec::capacity`, trusted to return at least the vector's length: std
/// documents the capacity as the number of elements the vector can hold without
/// reallocating, which always covers the elements it holds.
#[verifier::external_body]
fn vec_capacity<T>(v: &Vec<T>) -> (res: usize)
    ensures
        res >= v@.len(),
{
    v.capacity()
}

/// The value stored for `key`, if any.
pub open spec fn lookup<K, V>(m: Map<K, V>, key: K) -> Option<V> {
    if m.contains_key(key) {
        Some(m[key])
    } else {
        None
    }
}

impl<K: Ord, V> FlatMap<K, V> {
    pub fn new() -> (res: Self)
        ensures
            res@ == Seq::<(K, V)>::empty(),
    {
        FlatMap(Vec::new())
    }

    /// The number of stored pairs.
    pub fn len(&self) -> (res: usize)
        ensures
            res == self@.len(),
    {
        self.0.len()
    }

    pub fn is_empty(&self) -> (res: bool)
        ensures
            res == (self@.len() == 0),
    {
        self.0.len() == 0
    }

    /// How many pairs fit without reallocating; at least `len()`.
    pub fn capacity(&self) -> (res: usize)
        ensures
            res >= self@.len(),
    {
        vec_capacity(&self.0)
    }

    /// The stored pairs, sorted by key.
    pub fn as_slice(&self) -> (res: &[(K, V)])
        ensures
            res@ == self@,
            lawful_order::<K>() ==> keys_increase(res@),
    {
        proof {
            use_type_invariant(self);
        }
        self.0.as_slice()
    }

    /// Maps `key` to `value`; returns the value it replaced, if any.
    pub fn insert(&mut self, key: K, value: V) -> (res: Option<V>)
        ensures
            lawful_order::<K>() ==> final(self).as_map() == old(self).as_map().insert(key, value),
            lawful_order::<K>() ==> res == lookup(old(self).as_map(), key),
            lawful_order::<K>() ==> keys_increase(final(self)@),
            lawful_order::<K>() ==> match res {
                Some(_) => exists|i: int|
                    0 <= i < old(self)@.len() && old(self)@[i].0 == key && final(self)@ == old(
                        self,
                    )@.update(i, (key, value)),
                None => exists|i: int|
                    0 <= i <= old(self)@.len() && final(self)@ == old(self)@.insert(i, (key, value)),
            },
    {
        match self.search(&key) {
            Ok(i) => {
                proof {
                    use_type_invariant(&*self);
                }
                let ghost s = self@;
                let mut entry = (key, value);
                let mut pairs: Vec<(K, V)> = Vec::new();
                std::mem::swap(&mut self.0, &mut pairs);
                pairs.set_and_swap(i, &mut entry);
                proof {
                    if lawful_order::<K>() {
                        lemma_update_pair(s, i as int, key, value);
                    }
                }
                std::mem::swap(&mut self.0, &mut pairs);
                proof {
                    if lawful_order::<K>() {
                        lemma_update_pair(s, i as int, key, value);
                        lemma_remove_pair(s, i as int);
                    }
                    use_type_invariant(&*self);
                    assert(self@ == s.update(i as int, (key, value)));
                }
                Some(entry.1)
            },
            Err(i) => {
                proof {
                    use_type_invariant(&*self);
                }
                let ghost s = self@;
                let mut pairs: Vec<(K, V)> = Vec::new();
                std::mem::swap(&mut self.0, &mut pairs);
                pairs.insert(i, (key, value));
                proof {
                    if lawful_order::<K>() {
                        lemma_insert_pair(s, i as int, key, value);
                    }
                }
                std::mem::swap(&mut self.0, &mut pairs);
                proof {
                    use_type_invariant(&*self);
                    assert(self@ == s.insert(i as int, (key, value)));
                }
                None
            },
        }
    }

    /// The value stored for `key`, if any.
    pub fn get(&self, key: &K) -> (res: Option<&V>)
        ensures
            lawful_order::<K>() ==> match res {
                Some(v) => lookup(self.as_map(), *key) == Some(*v),
                None => lookup(self.as_map(), *key) is None,
            },
    {
        match self.search(key) {
            Ok(i) => {
                proof {
                    use_type_invariant(self);
                    if lawful_order::<K>() {
                        lemma_remove_pair(self@, i as int);
                    }
                }
                Some(&self.0[i].1)
            },
            Err(i) => {
                proof {
                    use_type_invariant(self);
                    if lawful_order::<K>() {
                        lemma_insert_pair(self@, i as int, *key, arbitrary());
                    }
                }
                None
            },
        }
    }

    /// Removes the pair for `key` and returns its value, if there was one.
    pub fn remove(&mut self, key: &K) -> (res: Option<V>)
        ensures
            lawful_order::<K>() ==> final(self).as_map() == old(self).as_map().remove(*key),
            lawful_order::<K>() ==> res == lookup(old(self).as_map(), *key),
            lawful_order::<K>() ==> keys_increase(final(self)@),
            match res {
                Some(v) => exists|i: int|
                    0 <= i < old(self)@.len() && old(self)@[i].1 == v && (lawful_order::<K>()
                        ==> old(self)@[i].0 == *key) && final(self)@ == old(self)@.remove(i),
                None => final(self)@ == old(self)@,
            },
    {
        match self.remove_entry(key) {
            None => None,
            Some(kv) => Some(kv.1),
        }
    }

    /// Removes the pair for `key` and returns it, if there was one.
    pub fn remove_entry(&mut self, key: &K) -> (res: Option<(K, V)>)
        ensures
            lawful_order::<K>() ==> final(self).as_map() == old(self).as_map().remove(*key),
            lawful_order::<K>() ==> keys_increase(final(self)@),
            match res {
                Some(kv) => exists|i: int|
                    0 <= i < old(self)@.len() && old(self)@[i] == kv && (lawful_order::<K>()
                        ==> kv.0 == *key) && final(self)@ == old(self)@.remove(i),
                None => final(self)@ == old(self)@,
            },
            lawful_order::<K>() ==> match res {
                Some(kv) => kv.0 == *key && lookup(old(self).as_map(), *key) == Some(kv.1),
                None => lookup(old(self).as_map(), *key) is None,
            },
    {
        match self.search(key) {
            Ok(i) => {
                let ghost s = self@;
                proof {
                    use_type_invariant(&*self);
                    if lawful_order::<K>() {
                        lemma_remove_pair(s, i as int);
                    }
                }
                let mut pairs: Vec<(K, V)> = Vec::new();
                std::mem::swap(&mut self.0, &mut pairs);
                let kv = pairs.remove(i);
                std::mem::swap(&mut self.0, &mut pairs);
                proof {
                    use_type_invariant(&*self);
                    assert(self@ == s.remove(i as int));
                }
                Some(kv)
            },
            Err(i) => {
                proof {
                    use_type_invariant(&*self);
                    if lawful_order::<K>() {
                        lemma_insert_pair(self@, i as int, *key, arbitrary());
                        assert(self.as_map().remove(*key) =~= self.as_map());
                    }
                }
                None
            },
        }
    }
}

impl<K: Ord, V> Default for FlatMap<K, V> {
    fn default() -> (res: Self)
        ensures
            res@ == Seq::<(K, V)>::empty(),
    {
        FlatMap::new()
    }
}

impl<K: Ord, V> From<Vec<(K, V)>> for FlatMap<K, V> {
    /// The map of `vec`: for a key that occurs more than once, the last pair wins.
    fn from(vec: Vec<(K, V)>) -> (res: Self)
        ensures
            lawful_order::<K>() ==> res.as_map() == pairs_map(vec@),
            lawful_order::<K>() ==> keys_increase(res@),
            lawful_order::<K>() ==> forall|k: K|
                #[trigger] res.as_map().contains_key(k) <==> exists|i: int|
                    0 <= i < vec@.len() && vec@[i].0 == k,
            lawful_order::<K>() ==> forall|i: int|
                #[trigger] last_with_key(vec@, i) ==> lookup(res.as_map(), vec@[i].0) == Some(vec@[i].1),
    {
        let ghost items = vec@;
        proof {
            lemma_pairs_map_last_wins(items);
        }
        let mut map: FlatMap<K, V> = FlatMap::new();
        for kv in it: vec
            invariant
                items == it.seq(),
                lawful_order::<K>() ==> map.as_map() == pairs_map(items.take(it.index() as int)),
        {
            let ghost j = it.index() as int;
            map.insert(kv.0, kv.1);
            assert(items.take(j + 1).drop_last() =~= items.take(j));
        }
        assert(items.take(items.len() as int) =~= items);
        proof {
            use_type_invariant(&map);
        }
        map
    }
}

impl<K: Ord, V> vstd::std_specs::convert::FromSpecImpl<Vec<(K, V)>> for FlatMap<K, V> {
    open spec fn obeys_from_spec() -> bool {
        false
    }

    open spec fn from_spec(v: Vec<(K, V)>) -> Self {
        arbitrary()
    }
}

impl<K: Ord, V> From<FlatMap<K, V>> for Vec<(K, V)> {
    /// The stored pairs, sorted by key.
    fn from(fm: FlatMap<K, V>) -> (res: Self)
        ensures
            res@ == fm@,
    {
        fm.0
    }
}

impl<K: Ord, V> vstd::std_specs::convert::FromSpecImpl<FlatMap<K, V>> for Vec<(K, V)> {
    open spec fn obeys_from_spec() -> bool {
        false
    }

    open spec fn from_spec(v: FlatMap<K, V>) -> Self {
        arbitrary()
    }
}

impl<K: Ord, V> FlatMap<K, V> {
    /// Inserts the pairs of `items` in order: a later pair wins.
    pub fn extend(&mut self, items: Vec<(K, V)>)
        ensures
            lawful_order::<K>() ==> keys_increase(final(self)@),
            lawful_order::<K>() ==> final(self).as_map() == old(self).as_map().union_prefer_right(
                pairs_map(items@),
            ),
    {
        let ghost start = self.as_map();
        let ghost seq = items@;
        for kv in it: items
            invariant
                seq == it.seq(),
                lawful_order::<K>() ==> self.as_map() == start.union_prefer_right(
                    pairs_map(seq.take(it.index() as int)),
                ),
        {
            let ghost j = it.index() as int;
            self.insert(kv.0, kv.1);
            proof {
                assert(seq.take(j + 1).drop_last() =~= seq.take(j));
                assert(seq.take(j + 1).last() == kv);
                assert(pairs_map(seq.take(j + 1)) == pairs_map(seq.take(j)).insert(kv.0, kv.1));
                if lawful_order::<K>() {
                    assert(self.as_map() =~= start.union_prefer_right(pairs_map(seq.take(j + 1))));
                }
            }
        }
        proof {
            assert(seq.take(seq.len() as int) =~= seq);
            use_type_invariant(&*self);
        }
    }
}

impl<K: Ord, V> FlatMap<K, V> {
    /// An iterator over the stored pairs, sorted by key.
    pub fn into_iter(self) -> (res: std::vec::IntoIter<(K, V)>)
        ensures
            into_iter_elts(res) == self@,
    {
        self.0.into_iter()
    }
}

impl<'a, K: Ord, V> std::ops::Index<&'a K> for FlatMap<K, V> {
    type Output = V;

    /// The value stored for `key`, which must be present.
    fn index(&self, key: &'a K) -> (res: &V)
        ensures
            lawful_order::<K>() ==> lookup(self.as_map(), *key) == Some(*res),
    {
        proof {
            use_type_invariant(self);
            if lawful_order::<K>() {
                lemma_keys_unique(self@);
                lemma_pairs_map_unique(self@);
            }
        }
        match self.search(key) {
            Ok(i) => {
                proof {
                    if lawful_order::<K>() {
                        lemma_remove_pair(self@, i as int);
                    }
                }
                &self.0[i].1
            },
            Err(i) => {
                proof {
                    if lawful_order::<K>() {
                        lemma_insert_pair(self@, i as int, *key, arbitrary());
                    }
                }
                &self.0[0].1
            },
        }
    }
}

impl<'a, K: Ord, V> vstd::std_specs::core::IndexSpecImpl<&'a K> for FlatMap<K, V> {
    /// `K` is lawfully ordered and `key` is present.
    open spec fn index_req(&self, key: &&'a K) -> bool {
        lawful_order::<K>() && self.as_map().contains_key(**key)
    }
}

/// A read gives back what a write wrote: after `insert(key, value)` the map holds
/// `value` for `key` and its old value for every other key; after `remove(key)` it
/// holds nothing for `key` and its old value for every other key.
pub proof fn lemma_read_after_write<K, V>(m: Map<K, V>, key: K, value: V, other: K)
    requires
        other != key,
    ensures
        lookup(m.insert(key, value), key) == Some(value),
        lookup(m.insert(key, value), other) == lookup(m, other),
        lookup(m.remove(key), key) is None,
        lookup(m.remove(key), other) == lookup(m, other),
{
}

/// The stored pairs are determined by the map they describe: two lists of pairs
/// with increasing keys that describe the same map are the same list. So the
/// order of `as_slice` and the length follow from `as_map`.
pub proof fn lemma_sorted_pairs_determined<K: Ord, V>(s: Seq<(K, V)>, t: Seq<(K, V)>)
    requires
        lawful_order::<K>(),
        keys_increase(s),
        keys_increase(t),
        pairs_map(s) == pairs_map(t),
    ensures
        s == t,
    decreases s.len(),
{
    lemma_order::<K>();
    lemma_keys_unique(s);
    lemma_keys_unique(t);
    lemma_pairs_map_unique(s);
    lemma_pairs_map_unique(t);
    if s.len() == 0 {
        if t.len() > 0 {
            assert(pairs_map(t).contains_key(t[0].0));
        }
        assert(s =~= t);
    } else if t.len() == 0 {
        assert(pairs_map(s).contains_key(s[0].0));
    } else {
        let a = s.last().0;
        let b = t.last().0;
        assert(pairs_map(t).contains_key(a));
        assert(pairs_map(s).contains_key(b));
        let ia = choose|j: int| 0 <= j < t.len() && t[j].0 == a;
        let ib = choose|j: int| 0 <= j < s.len() && s[j].0 == b;
        if a != b {
            if ib < s.len() - 1 {
                assert(precedes(s[ib].0, s[s.len() - 1].0));
            }
            if ia < t.len() - 1 {
                assert(precedes(t[ia].0, t[t.len() - 1].0));
            }
            assert(precedes(b, a) || b == a);
            assert(precedes(a, b) || a == b);
        }
        assert(a == b);
        assert(pairs_map(s)[s[s.len() - 1].0] == s.last().1);
        assert(pairs_map(t)[t[t.len() - 1].0] == t.last().1);
        let s1 = s.drop_last();
        let t1 = t.drop_last();
        assert(keys_increase(s1));
        assert(keys_increase(t1));
        lemma_keys_unique(s1);
        lemma_keys_unique(t1);
        lemma_pairs_map_unique(s1);
        lemma_pairs_map_unique(t1);
        assert(!pairs_map(s1).contains_key(a)) by {
            if pairs_map(s1).contains_key(a) {
                let j = choose|j: int| 0 <= j < s1.len() && s1[j].0 == a;
                assert(s[j].0 == s[s.len() - 1].0);
            }
        }
        assert(!pairs_map(t1).contains_key(a)) by {
            if pairs_map(t1).contains_key(a) {
                let j = choose|j: int| 0 <= j < t1.len() && t1[j].0 == a;
                assert(t[j].0 == t[t.len() - 1].0);
            }
        }
        assert(pairs_map(s1) =~= pairs_map(s).remove(a));
        assert(pairs_map(t1) =~= pairs_map(t).remove(a));
        lemma_sorted_pairs_determined(s1, t1);
        assert(s =~= s1.push(s.last()));
        assert(t =~= t1.push(t.last()));
    }
}

/// Removing a key that was just inserted gives back the pairs from before: in a
/// list with increasing keys, the inserted pair is the only one with its key.
pub proof fn lemma_remove_undoes_insert<K: Ord, V>(s: Seq<(K, V)>, i: int, j: int, key: K, value: V)
    requires
        lawful_order::<K>(),
        keys_increase(s.insert(i, (key, value))),
        0 <= i <= s.len(),
        0 <= j <= s.len(),
        s.insert(i, (key, value))[j].0 == key,
    ensures
        s.insert(i, (key, value)).remove(j) == s,
{
    let t = s.insert(i, (key, value));
    lemma_keys_unique(t);
    assert(t[i].0 == key);
    assert(i == j);
    assert(t.remove(j) =~= s);
}

} // verus!
