use vstd::prelude::*;
use vstd::pervasive::strictly_cloned;
use std::collections::VecDeque;
use crate::order::{precedes, lawful_order, clone_is_copy, lemma_order};

verus! {

/// `a` is at most `b`.
pub open spec fn at_most<T: PartialOrd>(a: T, b: T) -> bool {
    a == b || precedes(a, b)
}

/// No element after position `j` of `d` comes strictly before `d[j]`.
pub open spec fn is_suffix_min<T: PartialOrd>(d: Seq<T>, j: int) -> bool {
    forall|l: int| j < l < d.len() ==> !precedes(#[trigger] d[l], d[j])
}

/// `m` is a least element of `s`.
pub open spec fn is_least<T: PartialOrd>(s: Seq<T>, m: T) -> bool {
    &&& s.contains(m)
    &&& forall|j: int| 0 <= j < s.len() ==> !precedes(#[trigger] s[j], m)
}

/// `m` lists, in order, the elements of `d` that are suffix minima; `pos` holds
/// their positions in `d`.
pub open spec fn tracks_minima<T: PartialOrd>(d: Seq<T>, m: Seq<T>, pos: Seq<int>) -> bool {
    &&& pos.len() == m.len()
    &&& forall|k: int|
        0 <= k < pos.len() ==> {
            &&& 0 <= #[trigger] pos[k] < d.len()
            &&& m[k] == d[pos[k]]
            &&& is_suffix_min(d, pos[k])
        }
    &&& forall|k1: int, k2: int| 0 <= k1 < k2 < pos.len() ==> #[trigger] pos[k1] < #[trigger] pos[k2]
    &&& forall|j: int| 0 <= j < d.len() && #[trigger] is_suffix_min(d, j) ==> pos.contains(j)
    &&& forall|j: int| 0 <= j < d.len() ==> #[trigger] dominated(d, m, pos, j)
}

/// Some listed minimum at or after position `j` is at most `d[j]`.
pub open spec fn dominated<T: PartialOrd>(d: Seq<T>, m: Seq<T>, pos: Seq<int>, j: int) -> bool {
    exists|k: int| 0 <= k < pos.len() && pos[k] >= j && #[trigger] at_most(m[k], d[j])
}

/// A FIFO queue that also reports its least element.
pub struct MinQueue<T> {
    data: VecDeque<T>,
    mins: VecDeque<T>,
    pos: Ghost<Seq<int>>,
}

impl<T> View for MinQueue<T> {
    type V = Seq<T>;

    /// The queued elements, front first.
    closed spec fn view(&self) -> Seq<T> {
        self.data@
    }
}

/// The minima listed by a queue never decrease.
proof fn lemma_minima_sorted<T: Ord>(d: Seq<T>, m: Seq<T>, pos: Seq<int>)
    requires
        lawful_order::<T>(),
        tracks_minima(d, m, pos),
    ensures
        forall|k1: int, k2: int| 0 <= k1 <= k2 < m.len() ==> at_most(#[trigger] m[k1], #[trigger] m[k2]),
{
    lemma_order::<T>();
    assert forall|k1: int, k2: int| 0 <= k1 <= k2 < m.len() implies at_most(
        #[trigger] m[k1],
        #[trigger] m[k2],
    ) by {
        if k1 < k2 {
            assert(pos[k1] < pos[k2]);
            assert(is_suffix_min(d, pos[k1]));
            assert(!precedes(d[pos[k2]], d[pos[k1]]));
        }
    }
}

/// The first listed minimum is a least element of a non-empty queue.
proof fn lemma_first_is_least<T: Ord>(d: Seq<T>, m: Seq<T>, pos: Seq<int>)
    requires
        lawful_order::<T>(),
        tracks_minima(d, m, pos),
        d.len() > 0,
    ensures
        m.len() > 0,
        is_least(d, m[0]),
{
    lemma_order::<T>();
    lemma_minima_sorted(d, m, pos);
    assert(is_suffix_min(d, d.len() - 1));
    assert(pos.contains(d.len() - 1));
    assert(d[pos[0]] == m[0]);
    assert forall|j: int| 0 <= j < d.len() implies !precedes(#[trigger] d[j], m[0]) by {
        assert(dominated(d, m, pos, j));
        let k = choose|k: int| 0 <= k < pos.len() && pos[k] >= j && #[trigger] at_most(m[k], d[j]);
        assert(at_most(m[0], m[k]));
    }
}

/// `T` is lawfully ordered and cloning it gives identical values.
pub open spec fn lawful<T: Ord + Clone>() -> bool {
    lawful_order::<T>() && clone_is_copy::<T>()
}

/// Appending `v` to a queue whose first `kept` minima do not exceed `v` and whose
/// other minima exceed it.
proof fn lemma_push_tracks<T: Ord>(d: Seq<T>, m: Seq<T>, pos: Seq<int>, v: T, kept: int)
    requires
        lawful_order::<T>(),
        tracks_minima(d, m, pos),
        0 <= kept <= m.len(),
        forall|i: int| kept <= i < m.len() ==> precedes(v, #[trigger] m[i]),
        forall|i: int| 0 <= i < kept ==> !precedes(v, #[trigger] m[i]),
    ensures
        tracks_minima(d.push(v), m.take(kept).push(v), pos.take(kept).push(d.len() as int)),
{
    lemma_order::<T>();
    let n = d.len() as int;
    let d2 = d.push(v);
    let m2 = m.take(kept).push(v);
    let pos2 = pos.take(kept).push(n);
    assert forall|k: int| 0 <= k < pos2.len() implies {
        &&& 0 <= #[trigger] pos2[k] < d2.len()
        &&& m2[k] == d2[pos2[k]]
        &&& is_suffix_min(d2, pos2[k])
    } by {
        if k < kept {
            assert(pos2[k] == pos[k]);
            assert(is_suffix_min(d, pos[k]));
            assert forall|l: int| pos2[k] < l < d2.len() implies !precedes(#[trigger] d2[l], d2[pos2[k]]) by {
                if l < n {
                    assert(d2[l] == d[l]);
                } else {
                    assert(!precedes(v, m[k]));
                }
            }
        }
    }
    assert forall|j: int| 0 <= j < d2.len() && #[trigger] is_suffix_min(d2, j) implies pos2.contains(j) by {
        if j < n {
            assert forall|l: int| j < l < d.len() implies !precedes(#[trigger] d[l], d[j]) by {
                assert(d2[l] == d[l]);
                assert(!precedes(d2[l], d2[j]));
            }
            assert(is_suffix_min(d, j));
            assert(pos.contains(j));
            let i = choose|i: int| 0 <= i < pos.len() && pos[i] == j;
            assert(!precedes(d2[n], d2[j]));
            if i >= kept {
                assert(precedes(v, m[i]));
            }
            assert(pos2[i] == j);
        } else {
            assert(pos2[kept] == j);
        }
    }
    assert forall|j: int| 0 <= j < d2.len() implies #[trigger] dominated(d2, m2, pos2, j) by {
        if j < n {
            assert(dominated(d, m, pos, j));
            let i = choose|i: int| 0 <= i < pos.len() && pos[i] >= j && #[trigger] at_most(m[i], d[j]);
            if i < kept {
                assert(pos2[i] >= j && at_most(m2[i], d2[j]));
            } else {
                assert(precedes(v, m[i]));
                assert(at_most(m2[kept], d2[j]));
                assert(pos2[kept] >= j);
            }
        } else {
            assert(at_most(m2[kept], d2[j]));
        }
    }
}

/// Removing the front of a queue, together with the first listed minimum when it
/// sits at the front.
proof fn lemma_pop_tracks<T: Ord>(d: Seq<T>, m: Seq<T>, pos: Seq<int>)
    requires
        lawful_order::<T>(),
        tracks_minima(d, m, pos),
        d.len() > 0,
    ensures
        m.len() > 0,
        (m[0] == d[0]) <==> (pos[0] == 0),
        pos[0] == 0 ==> tracks_minima(
            d.drop_first(),
            m.drop_first(),
            pos.drop_first().map_values(|x: int| x - 1),
        ),
        pos[0] != 0 ==> tracks_minima(d.drop_first(), m, pos.map_values(|x: int| x - 1)),
{
    lemma_order::<T>();
    lemma_first_is_least(d, m, pos);
    lemma_minima_sorted(d, m, pos);
    if pos[0] != 0 {
        assert(!pos.contains(0)) by {
            if pos.contains(0) {
                let i = choose|i: int| 0 <= i < pos.len() && pos[i] == 0;
                if i > 0 {
                    assert(pos[0] < pos[i]);
                }
            }
        }
        assert(!is_suffix_min(d, 0));
        let l = choose|l: int| 0 < l < d.len() && precedes(#[trigger] d[l], d[0]);
        assert(dominated(d, m, pos, l));
        let i = choose|i: int| 0 <= i < pos.len() && pos[i] >= l && #[trigger] at_most(m[i], d[l]);
        assert(at_most(m[0], m[i]));
        assert(precedes(m[0], d[0]));
    }
    let d2 = d.drop_first();
    let (m2, pos2) = if pos[0] == 0 {
        (m.drop_first(), pos.drop_first().map_values(|x: int| x - 1))
    } else {
        (m, pos.map_values(|x: int| x - 1))
    };
    let off: int = if pos[0] == 0 { 1 } else { 0 };
    assert(m2.len() == m.len() - off && pos2.len() == pos.len() - off);
    assert forall|k: int| 0 <= k < pos2.len() implies #[trigger] pos2[k] == pos[k + off] - 1 && m2[k] == m[k + off] by {}
    assert forall|k: int| 0 <= k < pos2.len() implies #[trigger] pos2[k] >= 0 by {
        if off == 0 {
            assert(pos[k] >= 1) by {
                if k > 0 {
                    assert(pos[0] < pos[k]);
                }
            }
        } else {
            assert(pos[0] < pos[k + 1]);
        }
    }
    assert forall|j: int| 0 <= j < d2.len() implies (is_suffix_min(d2, j) <==> is_suffix_min(d, j + 1)) by {
        if is_suffix_min(d, j + 1) {
            assert forall|l: int| j < l < d2.len() implies !precedes(#[trigger] d2[l], d2[j]) by {
                assert(d2[l] == d[l + 1]);
            }
        }
        if is_suffix_min(d2, j) {
            assert forall|l: int| j + 1 < l < d.len() implies !precedes(#[trigger] d[l], d[j + 1]) by {
                assert(d2[l - 1] == d[l]);
            }
        }
    }
    assert forall|k: int| 0 <= k < pos2.len() implies {
        &&& 0 <= #[trigger] pos2[k] < d2.len()
        &&& m2[k] == d2[pos2[k]]
        &&& is_suffix_min(d2, pos2[k])
    } by {
        assert(pos2[k] == pos[k + off] - 1);
        assert(is_suffix_min(d, pos[k + off]));
    }
    assert forall|k1: int, k2: int| 0 <= k1 < k2 < pos2.len() implies #[trigger] pos2[k1]
        < #[trigger] pos2[k2] by {
        assert(pos[k1 + off] < pos[k2 + off]);
    }
    assert forall|j: int| 0 <= j < d2.len() && #[trigger] is_suffix_min(d2, j) implies pos2.contains(j) by {
        assert(is_suffix_min(d, j + 1));
        let i = choose|i: int| 0 <= i < pos.len() && pos[i] == j + 1;
        if off == 1 {
            assert(i != 0);
            assert(pos2[i - 1] == j);
        } else {
            assert(pos2[i] == j);
        }
    }
    assert forall|j: int| 0 <= j < d2.len() implies #[trigger] dominated(d2, m2, pos2, j) by {
        assert(dominated(d, m, pos, j + 1));
        let i = choose|i: int| 0 <= i < pos.len() && pos[i] >= j + 1 && #[trigger] at_most(m[i], d[j + 1]);
        if off == 1 {
            assert(i != 0);
            assert(pos2[i - 1] >= j && at_most(m2[i - 1], d2[j]));
        } else {
            assert(pos2[i] >= j && at_most(m2[i], d2[j]));
        }
    }
}

impl<T: Ord + Clone> MinQueue<T> {
    /// The listed minima are consistent with the queue whenever `T` is lawful.
    pub closed spec fn wf(&self) -> bool {
        lawful::<T>() ==> tracks_minima(self.data@, self.mins@, self.pos@)
    }

    pub fn new() -> (res: Self)
        ensures
            res.wf(),
            res@ == Seq::<T>::empty(),
    {
        Self { data: VecDeque::new(), mins: VecDeque::new(), pos: Ghost(Seq::empty()) }
    }

    /// Appends `val` at the back; the queue keeps a clone of it.
    pub fn push(&mut self, val: T)
        requires
            old(self).wf(),
        ensures
            final(self).wf(),
            final(self)@.len() == old(self)@.len() + 1,
            final(self)@.drop_last() == old(self)@,
            cloned(val, final(self)@.last()),
    {
        let ghost d = self.data@;
        let ghost m = self.mins@;
        let ghost pos = self.pos@;
        let copy = val.clone();
        assert(strictly_cloned(val, copy));
        self.data.push_back(copy);
        assert(self.data@.drop_last() =~= d);
        let ghost d2 = self.data@;
        let mut k: usize = self.mins.len();
        while k > 0 && val < self.mins[k - 1]
            invariant
                self.mins@ == m,
                self.data@ == d2,
                self.pos@ == pos,
                k <= m.len(),
                lawful_order::<T>() ==> forall|i: int| k <= i < m.len() ==> precedes(val, #[trigger] m[i]),
            decreases k,
        {
            proof {
                if lawful_order::<T>() {
                    lemma_order::<T>();
                }
            }
            k = k - 1;
        }
        proof {
            if lawful_order::<T>() {
                lemma_order::<T>();
            }
        }
        let ghost kept = k;
        let mut to_pop: usize = self.mins.len() - k;
        while to_pop > 0
            invariant
                self.data@ == d2,
                self.pos@ == pos,
                k <= m.len(),
                self.mins@.len() <= m.len(),
                to_pop + k == self.mins@.len(),
                self.mins@ == m.take(self.mins@.len() as int),
            decreases to_pop,
        {
            self.mins.pop_back();
            assert(m.take(self.mins@.len() as int) =~= self.mins@);
            to_pop = to_pop - 1;
        }
        self.mins.push_back(val);
        proof {
            let n = d.len() as int;
            self.pos = Ghost(pos.take(kept as int).push(n));
            assert(self.mins@ =~= m.take(kept as int).push(val));
            if lawful::<T>() {
                lemma_order::<T>();
                assert(copy == val);
                assert(self.data@ =~= d.push(val));
                lemma_minima_sorted(d, m, pos);
                assert forall|i: int| 0 <= i < kept implies !precedes(val, #[trigger] m[i]) by {
                    assert(!precedes(val, m[kept - 1]));
                    assert(at_most(m[i], m[kept - 1]));
                }
                lemma_push_tracks(d, m, pos, val, kept as int);
            }
        }
    }

    /// Removes and returns the front element. When it is the least element
    /// listed first, that listing goes too.
    pub fn pop(&mut self) -> (res: Option<T>)
        requires
            old(self).wf(),
        ensures
            final(self).wf(),
            old(self)@.len() == 0 ==> res.is_none() && final(self)@ == old(self)@,
            old(self)@.len() > 0 ==> res == Some(old(self)@[0]) && final(self)@
                == old(self)@.drop_first(),
    {
        proof {
            if lawful::<T>() {
                lemma_order::<T>();
            }
        }
        let ghost d = self.data@;
        let ghost m = self.mins@;
        let ghost pos = self.pos@;
        let val = self.data.pop_front();
        match val {
            None => None,
            Some(valv) => {
                proof {
                    if lawful::<T>() {
                        lemma_pop_tracks(d, m, pos);
                    }
                }
                assert(self.data@ =~= d.drop_first());
                let is_front_min = self.mins.len() > 0 && self.mins[0] == valv;
                if is_front_min {
                    self.mins.pop_front();
                    assert(self.mins@ =~= m.drop_first());
                    proof {
                        self.pos = Ghost(pos.drop_first().map_values(|x: int| x - 1));
                    }
                } else {
                    proof {
                        self.pos = Ghost(pos.map_values(|x: int| x - 1));
                    }
                }
                Some(valv)
            },
        }
    }

    /// The front element.
    pub fn front(&self) -> (res: Option<&T>)
        ensures
            self@.len() == 0 ==> res.is_none(),
            self@.len() > 0 ==> res == Some(&self@[0]),
    {
        if self.data.len() == 0 {
            None
        } else {
            Some(&self.data[0])
        }
    }

    /// A least element; for a lawful `T`, `None` exactly when the queue is empty.
    pub fn min(&self) -> (res: Option<&T>)
        requires
            self.wf(),
        ensures
            lawful::<T>() ==> (self@.len() == 0 <==> res.is_none()),
            lawful::<T>() && res.is_some() ==> is_least(self@, *res.unwrap()),
    {
        proof {
            if lawful::<T>() && self.mins@.len() > 0 {
                assert(0 <= self.pos@[0] < self.data@.len());
            }
            if lawful::<T>() && self.data@.len() > 0 {
                lemma_first_is_least(self.data@, self.mins@, self.pos@);
            }
        }
        if self.mins.len() == 0 {
            None
        } else {
            Some(&self.mins[0])
        }
    }

    pub fn len(&self) -> (res: usize)
        ensures
            res == self@.len(),
    {
        self.data.len()
    }

    pub fn is_empty(&self) -> (res: bool)
        ensures
            res == (self@.len() == 0),
    {
        self.data.len() == 0
    }
}

impl<T: Ord + Clone> Default for MinQueue<T> {
    fn default() -> (res: Self)
        ensures
            res.wf(),
            res@ == Seq::<T>::empty(),
    {
        Self::new()
    }
}

} // verus!
