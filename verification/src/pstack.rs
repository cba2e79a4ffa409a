use vstd::prelude::*;
use std::rc::Rc;

verus! {

/// A shared, read-only handle to one item of a persistent stack.
pub struct PRef<T> {
    item: Rc<T>,
}

impl<T> View for PRef<T> {
    type V = T;

    /// The item.
    closed spec fn view(&self) -> T {
        *self.item
    }
}

impl<T> Clone for PRef<T> {
    fn clone(&self) -> (res: Self)
        ensures
            res@ == self@,
    {
        PRef { item: Rc::clone(&self.item) }
    }
}

impl<T> std::ops::Deref for PRef<T> {
    type Target = T;

    fn deref(&self) -> (res: &T)
        ensures
            *res == self@,
    {
        &*self.item
    }
}

struct Node<T> {
    item: PRef<T>,
    prev: Option<Rc<Node<T>>>,
}

/// An immutable stack whose versions share their common part.
pub struct PStack<T> {
    node: Option<Rc<Node<T>>>,
    len: usize,
}

/// The items below and including `node`, bottom first.
spec fn items_of<T>(node: Option<Rc<Node<T>>>) -> Seq<T>
    decreases node,
{
    match node {
        None => Seq::empty(),
        Some(n) => items_of(n.prev).push(n.item@),
    }
}

impl<T> View for PStack<T> {
    type V = Seq<T>;

    /// The items, bottom first: the top is the last one.
    closed spec fn view(&self) -> Seq<T> {
        items_of(self.node)
    }
}

impl<T> PStack<T> {
    #[verifier::type_invariant]
    spec fn len_matches(self) -> bool {
        self.len == items_of(self.node).len()
    }
}

/// A second handle to the same node list.
fn share<T>(node: &Option<Rc<Node<T>>>) -> (res: Option<Rc<Node<T>>>)
    ensures
        res == *node,
{
    match node {
        None => None,
        Some(rc) => Some(Rc::clone(rc)),
    }
}

impl<T> Default for PStack<T> {
    fn default() -> (res: Self)
        ensures
            res@ == Seq::<T>::empty(),
    {
        Self { node: None, len: 0 }
    }
}

impl<T> Clone for PStack<T> {
    /// Another version with the same items; nothing is copied.
    fn clone(&self) -> (res: Self)
        ensures
            res@ == self@,
    {
        proof {
            use_type_invariant(self);
        }
        Self { node: share(&self.node), len: self.len }
    }
}

impl<T> PStack<T> {
    pub fn new() -> (res: Self)
        ensures
            res@ == Seq::<T>::empty(),
    {
        Self::default()
    }

    /// A new version with `value` on top; `self` is left as it was.
    pub fn push(&self, value: T) -> (res: Self)
        requires
            self@.len() < usize::MAX,
        ensures
            res@ == self@.push(value),
    {
        proof {
            use_type_invariant(self);
        }
        Self {
            node: Some(Rc::new(Node { item: PRef { item: Rc::new(value) }, prev: share(&self.node) })),
            len: self.len + 1,
        }
    }

    /// The top item and the version below it, or `None` for an empty stack.
    pub fn pop(&self) -> (res: Option<(PRef<T>, Self)>)
        ensures
            self@.len() == 0 <==> res.is_none(),
            res matches Some(p) ==> p.0@ == self@.last() && p.1@ == self@.drop_last(),
    {
        proof {
            use_type_invariant(self);
        }
        match &self.node {
            None => None,
            Some(node) => {
                let rest = Self { node: share(&node.prev), len: self.len - 1 };
                Some((node.item.clone(), rest))
            },
        }
    }

    /// The number of items.
    pub fn len(&self) -> (res: usize)
        ensures
            res == self@.len(),
    {
        proof {
            use_type_invariant(self);
        }
        self.len
    }

    pub fn is_empty(&self) -> (res: bool)
        ensures
            res == (self@.len() == 0),
    {
        self.len() == 0
    }

    /// Handles to the items, top first.
    pub fn iter(&self) -> (res: Vec<PRef<T>>)
        ensures
            res@.len() == self@.len(),
            forall|i: int| 0 <= i < res@.len() ==> #[trigger] res@[i]@ == self@[self@.len() - 1 - i],
    {
        let mut res: Vec<PRef<T>> = Vec::new();
        let mut cur = self.clone();
        loop
            invariant
                res@.len() + cur@.len() == self@.len(),
                cur@ == self@.take(cur@.len() as int),
                forall|i: int| 0 <= i < res@.len() ==> #[trigger] res@[i]@ == self@[self@.len() - 1 - i],
            ensures
                res@.len() == self@.len(),
                forall|i: int| 0 <= i < res@.len() ==> #[trigger] res@[i]@ == self@[self@.len() - 1 - i],
            decreases cur@.len(),
        {
            match cur.pop() {
                None => {
                    break;
                },
                Some(p) => {
                    let (item, next) = p;
                    assert(item@ == self@[self@.len() - 1 - res@.len()]);
                    res.push(item);
                    assert(next@ =~= self@.take(next@.len() as int));
                    cur = next;
                },
            }
        }
        res
    }
}

/// Popping a version made by `push(value)` gives back `value` and the items of
/// the version it was pushed on.
pub proof fn lemma_pop_undoes_push<T>(items: Seq<T>, value: T)
    ensures
        items.push(value).len() > 0,
        items.push(value).last() == value,
        items.push(value).drop_last() == items,
{
    assert(items.push(value).drop_last() =~= items);
}

} // verus!
