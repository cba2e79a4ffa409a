use vstd::prelude::*;
use vstd::std_specs::iter::IteratorSpec;
use vstd::pervasive::strictly_cloned;
use vstd::pervasive::cloned;
use vstd::std_specs::cmp::PartialEqSpec;
use vstd::laws_eq::obeys_concrete_eq;
use std::collections::VecDeque;
use crate::order::clone_is_copy;

verus! {

/// `iter` keeps to the iterator laws: it hands out its remaining items in order and
/// then only `None`.
pub open spec fn lawful_iter<I: Iterator>(iter: I) -> bool {
    iter.obeys_prophetic_iter_laws()
}

// ---------------------------------------------------------------------------

/// An iterator that hands out the items of another one and then, once that one is
/// used up, the same items again and again, from clones it kept.
pub struct LazyCycle<I: Iterator> where I::Item: Clone {
    iter: I,
    data: Vec<I::Item>,
    i: Option<usize>,
}

impl<I: Iterator> LazyCycle<I> where I::Item: Clone {
    /// The clones kept so far, in the order in which the items came.
    pub closed spec fn stored(&self) -> Seq<I::Item> {
        self.data@
    }

    /// `None` during the first pass over the inner iterator; afterwards the
    /// position in `stored()` of the next item to hand out.
    pub closed spec fn position(&self) -> Option<usize> {
        self.i
    }

    /// The inner iterator.
    pub closed spec fn inner(&self) -> I {
        self.iter
    }

    /// `next` can be called: the first pass is not over, or the position lies
    /// among the stored clones.
    pub open spec fn ready(&self) -> bool {
        self.position() matches Some(k) ==> k < self.stored().len()
    }

    /// Cycles over the items of `iter`.
    pub fn new(iter: I) -> (res: Self)
        ensures
            res.inner() == iter,
            res.stored().len() == 0,
            res.position() is None,
    {
        Self { iter, data: Vec::new(), i: None }
    }

    /// Whether `next` can be called: it cannot once the cycle has reached a
    /// position past the items it kept (an empty or one-item inner iterator).
    pub fn can_advance(&self) -> (res: bool)
        ensures
            res == self.ready(),
    {
        match self.i {
            None => true,
            Some(k) => k < self.data.len(),
        }
    }

    /// During the first pass, the next item of the inner iterator, of which a
    /// clone is kept; once that is used up, the kept clones in a cycle.
    pub fn next(&mut self) -> (res: Option<I::Item>)
        requires
            old(self).ready(),
        ensures
            old(self).position() is None ==> {
                &&& lawful_iter(old(self).inner()) == lawful_iter(final(self).inner())
                &&& lawful_iter(old(self).inner()) && old(self).inner().remaining().len() > 0 ==> {
                    &&& res == Some(old(self).inner().remaining()[0])
                    &&& final(self).inner().remaining() == old(self).inner().remaining().drop_first()
                    &&& final(self).position() is None
                    &&& final(self).stored().len() == old(self).stored().len() + 1
                    &&& final(self).stored().drop_last() == old(self).stored()
                    &&& cloned(old(self).inner().remaining()[0], final(self).stored().last())
                }
                &&& lawful_iter(old(self).inner()) && old(self).inner().remaining().len() == 0 ==> {
                    &&& final(self).position() == Some(1usize)
                    &&& final(self).stored() == old(self).stored()
                    &&& old(self).stored().len() == 0 ==> res is None
                    &&& old(self).stored().len() > 0 ==> (res matches Some(r) && cloned(
                        old(self).stored()[0],
                        r,
                    ))
                }
            },
            old(self).position() matches Some(k) ==> {
                &&& final(self).position() == Some(((k + 1) % (old(self).stored().len() as int)) as usize)
                &&& final(self).stored() == old(self).stored()
                &&& final(self).inner() == old(self).inner()
                &&& res matches Some(r) && cloned(old(self).stored()[k as int], r)
            },
    {
        let item = match self.i {
            None => match self.iter.next() {
                None => {
                    self.i = Some(1);
                    if self.data.len() == 0 {
                        return None;
                    }
                    self.data[0].clone()
                },
                Some(next_item) => {
                    self.data.push(next_item.clone());
                    next_item
                },
            },
            Some(i) => {
                let len = self.data.len();
                let index = i;
                self.i = Some((i + 1) % len);
                self.data[index].clone()
            },
        };
        Some(item)
    }
}

// ---------------------------------------------------------------------------

/// An iterator with the item at one position taken out.
pub struct Extract<I: Iterator> {
    iter: I,
    data: Vec<I::Item>,
}

impl<I: Iterator> Extract<I> {
    /// The items taken out of the inner iterator and not yet handed on, in the
    /// order in which they will come.
    pub closed spec fn saved(&self) -> Seq<I::Item> {
        self.data@.reverse()
    }

    /// The inner iterator, which hands out the rest once the saved items are gone.
    pub closed spec fn inner(&self) -> I {
        self.iter
    }

    /// The inner iterator keeps to the iterator laws.
    pub closed spec fn lawful(&self) -> bool {
        lawful_iter(self.iter)
    }

    /// Hands out the items of `data` from last to first, then those of `iter`.
    pub fn new(iter: I, data: Vec<I::Item>) -> (res: Self)
        ensures
            res.saved() == data@.reverse(),
            res.inner() == iter,
            res.lawful() == lawful_iter(iter),
    {
        Self { iter, data }
    }

    /// The next saved item if there is one, else the next item of the inner iterator.
    pub fn next(&mut self) -> (res: Option<I::Item>)
        ensures
            final(self).lawful() == old(self).lawful(),
            old(self).saved().len() > 0 ==> {
                &&& res == Some(old(self).saved()[0])
                &&& final(self).saved() == old(self).saved().drop_first()
                &&& final(self).inner() == old(self).inner()
            },
            old(self).saved().len() == 0 ==> final(self).saved().len() == 0,
            old(self).saved().len() == 0 && old(self).lawful() ==> if old(
                self,
            ).inner().remaining().len() > 0 {
                &&& res == Some(old(self).inner().remaining()[0])
                &&& final(self).inner().remaining() == old(self).inner().remaining().drop_first()
            } else {
                res is None && final(self).inner().remaining() == old(self).inner().remaining()
            },
    {
        let ghost d = self.data@;
        match self.data.pop() {
            None => {
                self.iter.next()
            },
            Some(item) => {
                assert(self.data@.reverse() =~= d.reverse().drop_first());
                Some(item)
            },
        }
    }
}

/// Takes out of `iter` the item at position `index` (if it has one) and returns
/// it together with an iterator over the other items, in their order.
pub fn extract<I: Iterator>(iter: I, index: usize) -> (res: (Option<I::Item>, Extract<I>))
    ensures
        res.1.lawful() == lawful_iter(iter),
        lawful_iter(iter) && index < iter.remaining().len() ==> {
            &&& res.0 == Some(iter.remaining()[index as int])
            &&& res.1.saved() == iter.remaining().take(index as int)
            &&& res.1.inner().remaining() == iter.remaining().skip(index + 1)
        },
        lawful_iter(iter) && index >= iter.remaining().len() ==> {
            &&& res.0 is None
            &&& res.1.saved() == iter.remaining()
            &&& res.1.inner().remaining().len() == 0
        },
{
    let ghost all = iter.remaining();
    let ghost lawful = lawful_iter(iter);
    let mut iter = iter;
    let mut vec: Vec<I::Item> = Vec::with_capacity(index);
    let mut taken: usize = 0;
    while taken < index
        invariant
            taken <= index,
            vec@.len() == taken,
            lawful_iter(iter) == lawful,
            lawful_iter(iter) ==> taken <= all.len() && vec@ == all.take(taken as int)
                && iter.remaining() == all.skip(taken as int),
        ensures
            taken <= index,
            vec@.len() == taken,
            lawful_iter(iter) == lawful,
            lawful_iter(iter) ==> taken <= all.len() && vec@ == all.take(taken as int)
                && iter.remaining() == all.skip(taken as int),
            lawful_iter(iter) ==> taken == index || taken == all.len(),
        decreases index - taken,
    {
        match iter.next() {
            None => {
                break;
            },
            Some(item) => {
                assert(taken < all.len() ==> all.take(taken + 1) =~= all.take(taken as int).push(all[taken as int]));
                assert(taken < all.len() ==> all.skip(taken as int).drop_first() =~= all.skip(taken + 1));
                vec.push(item);
                taken = taken + 1;
            },
        }
    }
    let item = iter.next();
    let saved = reversed(vec);
    assert(index < all.len() ==> all.skip(index as int).drop_first() =~= all.skip(index + 1));
    assert(taken == all.len() ==> all.take(taken as int) =~= all);
    (item, Extract::new(iter, saved))
}

/// The items of `v` in the opposite order.
fn reversed<T>(v: Vec<T>) -> (res: Vec<T>)
    ensures
        res@ == v@.reverse(),
{
    let ghost orig = v@;
    let mut v = v;
    let mut res: Vec<T> = Vec::with_capacity(v.len());
    while v.len() > 0
        invariant
            orig.len() == v@.len() + res@.len(),
            v@ == orig.take(v@.len() as int),
            res@ == orig.skip(v@.len() as int).reverse(),
        decreases v@.len(),
    {
        let ghost n = v@.len();
        let item = v.pop().unwrap();
        proof {
            assert(orig.take(n - 1) =~= orig.take(n as int).drop_last());
            assert(orig.skip(n - 1).reverse() =~= orig.skip(n as int).reverse().push(item));
        }
        res.push(item);
    }
    proof {
        assert(orig.skip(0) =~= orig);
    }
    res
}

// ---------------------------------------------------------------------------

/// What the half `num` of a tee has still to hand out: the saved items, if it is the
/// one that lags behind, then, unless the inner iterator is known to be used up,
/// the items `rest` that it still holds.
pub open spec fn tee_pending<T>(lagging: int, queue: Seq<T>, done: bool, rest: Seq<T>, num: int) -> Seq<
    T,
> {
    (if lagging == num {
        queue
    } else {
        Seq::empty()
    }) + (if done {
        Seq::empty()
    } else {
        rest
    })
}

/// The state that the two halves of a tee share: the halves are numbered `1` and
/// `-1`; the one that lags behind finds in a queue the items that the other one
/// has already taken from the inner iterator.
pub struct TeeData<I: Iterator> {
    behind: i8,
    data: VecDeque<I::Item>,
    iter: I,
    exhausted: bool,
}

impl<I: Iterator> TeeData<I> {
    /// Saved items always belong to one of the two halves.
    pub closed spec fn wf(&self) -> bool {
        self.data@.len() > 0 ==> (self.behind == 1 || self.behind == -1)
    }

    /// The number of the half that lags behind (`0` before any item was taken).
    pub closed spec fn lagging(&self) -> i8 {
        self.behind
    }

    /// The items that the half ahead has handed out and the other one not yet.
    pub closed spec fn queue(&self) -> Seq<I::Item> {
        self.data@
    }

    /// The inner iterator has answered `None`.
    pub closed spec fn done(&self) -> bool {
        self.exhausted
    }

    /// The inner iterator.
    pub closed spec fn inner(&self) -> I {
        self.iter
    }

    /// The shared state of two halves that both start at the first item of `iter`.
    pub fn new(iter: I) -> (res: Self)
        ensures
            res.wf(),
            res.lagging() == 0,
            res.queue().len() == 0,
            !res.done(),
            res.inner() == iter,
    {
        Self { behind: 0, data: VecDeque::new(), iter, exhausted: false }
    }

    /// The next item for the half `num`: the front of the queue if it lags
    /// behind, else a new item of the inner iterator, of which a clone is queued
    /// for the other half.
    pub fn next_for(&mut self, num: i8) -> (res: Option<I::Item>)
        where I::Item: Clone
        requires
            old(self).wf(),
            num == 1 || num == -1,
        ensures
            final(self).wf(),
            lawful_iter(final(self).inner()) == lawful_iter(old(self).inner()),
            old(self).done() ==> final(self).done(),
            old(self).done() || (old(self).queue().len() > 0 && old(self).lagging() == num)
                ==> final(self).inner() == old(self).inner(),
            old(self).queue().len() > 0 && old(self).lagging() == num ==> {
                &&& res == Some(old(self).queue()[0])
                &&& final(self).queue() == old(self).queue().drop_first()
                &&& final(self).lagging() == num
                &&& final(self).done() == old(self).done()
            },
            (old(self).queue().len() == 0 || old(self).lagging() != num) && old(self).done() ==> {
                &&& res is None
                &&& final(self).queue() == old(self).queue()
                &&& final(self).lagging() == old(self).lagging()
            },
            (old(self).queue().len() == 0 || old(self).lagging() != num) && !old(self).done()
                && lawful_iter(old(self).inner()) ==> if old(self).inner().remaining().len() > 0 {
                &&& res == Some(old(self).inner().remaining()[0])
                &&& final(self).inner().remaining() == old(self).inner().remaining().drop_first()
                &&& final(self).queue().len() == old(self).queue().len() + 1
                &&& final(self).queue().drop_last() == old(self).queue()
                &&& cloned(old(self).inner().remaining()[0], final(self).queue().last())
                &&& final(self).lagging() == -num
                &&& !final(self).done()
            } else {
                &&& res is None
                &&& final(self).done()
                &&& final(self).queue() == old(self).queue()
                &&& final(self).inner().remaining().len() == 0
            },
            lawful_iter(old(self).inner()) && clone_is_copy::<I::Item>() ==> {
                let before = tee_pending(
                    old(self).lagging() as int,
                    old(self).queue(),
                    old(self).done(),
                    old(self).inner().remaining(),
                    num as int,
                );
                let after = tee_pending(
                    final(self).lagging() as int,
                    final(self).queue(),
                    final(self).done(),
                    final(self).inner().remaining(),
                    num as int,
                );
                let other_before = tee_pending(
                    old(self).lagging() as int,
                    old(self).queue(),
                    old(self).done(),
                    old(self).inner().remaining(),
                    -num,
                );
                let other_after = tee_pending(
                    final(self).lagging() as int,
                    final(self).queue(),
                    final(self).done(),
                    final(self).inner().remaining(),
                    -num,
                );
                &&& other_after == other_before
                &&& before.len() == 0 ==> res is None && after.len() == 0
                &&& before.len() > 0 ==> res == Some(before[0]) && after == before.drop_first()
            },
    {
        let ghost rest = self.iter.remaining();
        if self.data.len() == 0 {
            if self.exhausted {
                return None;
            }
            let next_item = self.iter.next();
            match next_item {
                None => {
                    self.exhausted = true;
                    return None;
                },
                Some(next_item) => {
                    let copy = next_item.clone();
                    assert(strictly_cloned(next_item, copy));
                    self.data.push_back(copy);
                    self.behind = -num;
                    assert(rest.len() > 0 ==> seq![rest[0]] + rest.drop_first() =~= rest);
                    return Some(next_item);
                },
            };
        }
        if self.behind == num {
            let ghost q = self.data@;
            let front = self.data.pop_front();
            assert(q.drop_first() + rest =~= (q + rest).drop_first());
            return front;
        }
        if self.exhausted {
            return None;
        }
        let next_item = self.iter.next();
        match next_item {
            None => {
                self.exhausted = true;
                None
            },
            Some(next_item) => {
                let ghost q = self.data@;
                let copy = next_item.clone();
                assert(strictly_cloned(next_item, copy));
                self.data.push_back(copy);
                assert(rest.len() > 0 ==> q.push(rest[0]) + rest.drop_first() =~= q + rest);
                Some(next_item)
            },
        }
    }
}

// ---------------------------------------------------------------------------

/// An iterator over the runs of consecutive items of another one that `func`
/// maps to equal values: each run comes with that value.
#[verifier::reject_recursive_types(V)]
pub struct GroupBy<I: Iterator, F: FnMut(&I::Item) -> V, V: Eq> {
    iter: I,
    func: F,
    prev: Option<(I::Item, V)>,
}

impl<I: Iterator, F: FnMut(&I::Item) -> V, V: Eq> GroupBy<I, F, V> {
    /// The first item of the next run, with its value, if there is one.
    pub closed spec fn head(&self) -> Option<(I::Item, V)> {
        self.prev
    }

    /// The inner iterator, which holds the items after `head()`.
    pub closed spec fn inner(&self) -> I {
        self.iter
    }

    /// The function that gives each item its value.
    pub closed spec fn key_fn(&self) -> F {
        self.func
    }

    /// Groups the items of `iter` by `func`; takes the first item at once.
    pub fn new(iter: I, func: F) -> (res: Self)
        requires
            forall|x: &I::Item| call_requires(func, (x,)),
        ensures
            res.key_fn() == func,
            lawful_iter(res.inner()) == lawful_iter(iter),
            lawful_iter(iter) ==> (res.inner().decrease() is Some <==> iter.decrease() is Some),
            lawful_iter(iter) && iter.remaining().len() == 0 ==> res.head() is None,
            lawful_iter(iter) && iter.remaining().len() > 0 ==> {
                &&& res.head() matches Some((item, val))
                &&& item == iter.remaining()[0]
                &&& call_ensures(func, (&item,), val)
                &&& res.inner().remaining() == iter.remaining().drop_first()
            },
    {
        let mut iter = iter;
        let mut func = func;
        let x = match iter.next() {
            None => None,
            Some(item) => {
                let val = func(&item);
                Some((item, val))
            },
        };
        Self { iter, func, prev: x }
    }

    /// The next run: the value of its first item and its items, the first of
    /// them `head()`, then those of the inner iterator whose values equal it. The
    /// first item of another value becomes the new head.
    pub fn next(&mut self) -> (res: Option<(V, Vec<I::Item>)>)
        requires
            forall|x: &I::Item| call_requires(old(self).key_fn(), (x,)),
            lawful_iter(old(self).inner()),
            old(self).inner().decrease() is Some,
        ensures
            final(self).key_fn() == old(self).key_fn(),
            lawful_iter(final(self).inner()),
            final(self).inner().decrease() is Some,
            old(self).head() is None ==> res is None && final(self).head() is None
                && final(self).inner() == old(self).inner(),
            old(self).head() matches Some((first, val)) ==> {
                let rem = old(self).inner().remaining();
                &&& res matches Some((v, run))
                &&& v == val
                &&& run@.len() >= 1
                &&& run@[0] == first
                &&& run@.len() - 1 <= rem.len()
                &&& run@.skip(1) == rem.take(run@.len() - 1)
                &&& obeys_concrete_eq::<V>() ==> forall|j: int|
                    1 <= j < run@.len() ==> #[trigger] call_ensures(
                        old(self).key_fn(),
                        (&run@[j],),
                        val,
                    )
                &&& run@.len() - 1 == rem.len() ==> final(self).head() is None
                    && final(self).inner().remaining().len() == 0
                &&& run@.len() - 1 < rem.len() ==> {
                    &&& final(self).head() matches Some((next, w))
                    &&& next == rem[run@.len() - 1]
                    &&& call_ensures(old(self).key_fn(), (&next,), w)
                    &&& obeys_concrete_eq::<V>() ==> w != val
                    &&& final(self).inner().remaining() == rem.skip(run@.len() as int)
                }
            },
    {
        let ghost f = self.func;
        let ghost rem = self.iter.remaining();
        assert(f == old(self).key_fn());
        assert(forall|x: &I::Item| #[trigger] call_requires(f, (x,)));
        match self.prev.take() {
            None => None,
            Some((prev_item, prev_val)) => {
                let ghost pv = prev_val;
                let ghost first = prev_item;
                let mut res = Vec::new();
                res.push(prev_item);
                assert(res@.skip(1) =~= rem.take(0));
                assert(rem.skip(0) =~= rem);
                loop
                    invariant_except_break
                        self.prev is None,
                        self.iter.remaining() == rem.skip(res@.len() - 1),
                    invariant
                        pv == prev_val,
                        res@[0] == first,
                        self.func == f,
                        forall|x: &I::Item| #[trigger] call_requires(f, (x,)),
                        lawful_iter(self.iter),
                        self.iter.decrease() is Some,
                        res@.len() >= 1,
                        res@.len() - 1 <= rem.len(),
                        res@.skip(1) == rem.take(res@.len() - 1),
                        obeys_concrete_eq::<V>() ==> forall|j: int|
                            1 <= j < res@.len() ==> #[trigger] call_ensures(f, (&res@[j],), pv),
                    ensures
                        res@[0] == first,
                        self.func == f,
                        lawful_iter(self.iter),
                        self.iter.decrease() is Some,
                        res@.len() >= 1,
                        res@.len() - 1 <= rem.len(),
                        res@.skip(1) == rem.take(res@.len() - 1),
                        obeys_concrete_eq::<V>() ==> forall|j: int|
                            1 <= j < res@.len() ==> #[trigger] call_ensures(f, (&res@[j],), pv),
                        res@.len() - 1 == rem.len() ==> self.prev is None
                            && self.iter.remaining().len() == 0,
                        res@.len() - 1 < rem.len() ==> {
                            &&& self.prev matches Some((next, w))
                            &&& next == rem[res@.len() - 1]
                            &&& call_ensures(f, (&next,), w)
                            &&& obeys_concrete_eq::<V>() ==> w != pv
                            &&& self.iter.remaining() == rem.skip(res@.len() as int)
                        },
                    decreases self.iter.decrease()->0,
                {
                    let ghost n = res@.len() - 1;
                    match self.iter.next() {
                        None => {
                            break;
                        },
                        Some(next_item) => {
                            let next_val = (self.func)(&next_item);
                            proof {
                                reveal(obeys_concrete_eq);
                            }
                            if next_val == prev_val {
                                let ghost before = res@;
                                let ghost item = next_item;
                                assert(obeys_concrete_eq::<V>() ==> next_val == pv);
                                res.push(next_item);
                                assert(res@.skip(1) =~= rem.take(n + 1));
                                assert(forall|j: int| 0 <= j <= n ==> res@[j] == before[j]);
                                assert(rem.skip(n).drop_first() =~= rem.skip(n + 1));
                            } else {
                                assert(obeys_concrete_eq::<V>() ==> next_val != pv);
                                assert(rem.skip(n).drop_first() =~= rem.skip(n + 1));
                                self.prev = Some((next_item, next_val));
                                break;
                            }
                        },
                    }
                }
                Some((prev_val, res))
            },
        }
    }
}

} // verus!
