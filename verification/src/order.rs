use vstd::prelude::*;
use vstd::laws_cmp::obeys_cmp;
use vstd::laws_cmp::obeys_partial_cmp_spec_properties;
use vstd::laws_cmp::obeys_cmp_partial_ord;
use vstd::laws_cmp::obeys_cmp_ord;
use vstd::laws_eq::obeys_concrete_eq;
use vstd::laws_eq::obeys_eq_spec_properties;
use vstd::pervasive::strictly_cloned;
use vstd::std_specs::cmp::PartialOrdSpec;
use vstd::std_specs::cmp::PartialEqSpec;
use vstd::std_specs::cmp::OrdSpec;
use core::cmp::Ordering;

verus! {

/// `a` comes strictly before `b` in the order of `T`.
pub open spec fn precedes<T: PartialOrd>(a: T, b: T) -> bool {
    a.partial_cmp_spec(&b) == Some(Ordering::Less)
}

/// The order of `T` is a total order whose equal elements are identical values,
/// and `==` on `T` is identity.
pub open spec fn lawful_order<T: Ord>() -> bool {
    &&& obeys_cmp::<T>()
    &&& obeys_concrete_eq::<T>()
}

/// Cloning a `T` gives back an identical value.
pub open spec fn clone_is_copy<T: Clone>() -> bool {
    forall|a: T, b: T| #[trigger] strictly_cloned(a, b) ==> a == b
}

/// What a lawful order offers to proofs.
pub proof fn lemma_order<T: Ord>()
    requires
        lawful_order::<T>(),
    ensures
        T::obeys_partial_cmp_spec(),
        T::obeys_eq_spec(),
        forall|a: T, b: T| #[trigger] a.eq_spec(&b) <==> a == b,
        forall|a: T| !precedes(a, a),
        forall|a: T, b: T, c: T|
            #[trigger] precedes(a, b) && #[trigger] precedes(b, c) ==> precedes(a, c),
        forall|a: T, b: T| a != b ==> #[trigger] precedes(a, b) || #[trigger] precedes(b, a),
        forall|a: T, b: T| #[trigger] precedes(a, b) ==> !precedes(b, a),
        forall|a: T, b: T| #[trigger] a.partial_cmp_spec(&b) == Some(a.cmp_spec(&b)),
        T::obeys_cmp_spec(),
{
    reveal(obeys_partial_cmp_spec_properties);
    reveal(obeys_cmp_partial_ord);
    reveal(obeys_cmp_ord);
    reveal(obeys_concrete_eq);
    reveal(obeys_eq_spec_properties);
    assert forall|a: T, b: T| a != b implies #[trigger] precedes(a, b) || #[trigger] precedes(
        b,
        a,
    ) by {
        assert(a.partial_cmp_spec(&b) == Some(a.cmp_spec(&b)));
        if a.cmp_spec(&b) == Ordering::Greater {
            assert(b.partial_cmp_spec(&a) == Some(Ordering::Less));
        }
    }
    assert forall|a: T, b: T| #[trigger] precedes(a, b) implies !precedes(b, a) by {
        assert(b.partial_cmp_spec(&a) == Some(Ordering::Greater));
    }
}

/// How two keys compare.
#[derive(Clone, Copy, PartialEq, Eq, Debug, Structural)]
pub enum KeyOrder {
    Less,
    Equal,
    Greater,
}

/// Compares `a` with `b` by the order of `T`.
pub fn compare<T: Ord>(a: &T, b: &T) -> (res: KeyOrder)
    ensures
        lawful_order::<T>() ==> {
            &&& (res == KeyOrder::Less <==> precedes(*a, *b))
            &&& (res == KeyOrder::Equal <==> *a == *b)
            &&& (res == KeyOrder::Greater <==> precedes(*b, *a))
        },
{
    proof {
        if lawful_order::<T>() {
            lemma_order::<T>();
            reveal(obeys_partial_cmp_spec_properties);
            reveal(obeys_concrete_eq);
            assert(a.partial_cmp_spec(b) == Some(Ordering::Equal) <==> a.eq_spec(b));
            assert(b.partial_cmp_spec(a) == Some(Ordering::Less) <==> a.partial_cmp_spec(b) == Some(Ordering::Greater));
        }
    }
    match a.cmp(b) {
        Ordering::Less => KeyOrder::Less,
        Ordering::Equal => KeyOrder::Equal,
        Ordering::Greater => KeyOrder::Greater,
    }
}

} // verus!
