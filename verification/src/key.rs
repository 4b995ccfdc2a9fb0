//! Keys: what they are, and their order as specifications see it.
use core::cmp::Ordering;
use vstd::prelude::*;
use vstd::std_specs::cmp::{OrdSpec, PartialEqSpec, PartialOrdSpec};

verus! {

/// Seals [`Key`]: only the blanket impl below can satisfy it.
pub trait Sealed {

}

impl<T: Ord + Copy> Sealed for T {

}

/// A type usable as a B+tree key: every type that is `Ord` and `Copy`.
///
/// `Copy` matters: separators are duplicated freely between nodes (a leaf split copies the right
/// sibling's first key into the parent).
pub trait Key: Sealed + Ord + Copy + Sized {

}

impl<T: Sealed + Ord + Copy + Sized> Key for T {

}

/// The key type's comparison is a total order, as `Ord` demands.
pub open spec fn ordered<K: Key>() -> bool {
    vstd::laws_cmp::obeys_cmp::<K>()
}

/// `a` sorts strictly before `b`.
pub open spec fn lt<K: Key>(a: K, b: K) -> bool {
    a.partial_cmp_spec(&b) == Some(Ordering::Less)
}

/// `a` and `b` are equal in the key order (though not necessarily identical).
pub open spec fn same<K: Key>(a: K, b: K) -> bool {
    !lt(a, b) && !lt(b, a)
}

/// The order is transitive.
pub broadcast proof fn lemma_lt_trans<K: Key>(a: K, b: K, c: K)
    requires
        ordered::<K>(),
        #[trigger] lt(a, b),
        #[trigger] lt(b, c),
    ensures
        lt(a, c),
{
    reveal(vstd::laws_cmp::obeys_partial_cmp_spec_properties);
    assert(b.partial_cmp_spec(&c) == Some(Ordering::Less));
    assert(a.partial_cmp_spec(&c) == Some(Ordering::Less));
}

/// The order is asymmetric.
pub broadcast proof fn lemma_lt_asym<K: Key>(a: K, b: K)
    requires
        ordered::<K>(),
        #[trigger] lt(a, b),
    ensures
        !lt(b, a),
{
    reveal(vstd::laws_cmp::obeys_partial_cmp_spec_properties);
    assert(b.partial_cmp_spec(&a) == Some(Ordering::Greater));
}

/// Not sorting before is transitive, too: the order is total up to [`same`].
pub broadcast proof fn lemma_not_lt_trans<K: Key>(a: K, b: K, c: K)
    requires
        ordered::<K>(),
        !#[trigger] lt(a, b),
        !#[trigger] lt(b, c),
    ensures
        !lt(a, c),
{
    reveal(vstd::laws_cmp::obeys_partial_cmp_spec_properties);
    reveal(vstd::laws_cmp::obeys_cmp_partial_ord);
    reveal(vstd::laws_cmp::obeys_cmp_ord);
    reveal(vstd::laws_eq::obeys_eq_spec_properties);
    if lt(a, c) {
        assert(a.partial_cmp_spec(&b) == Some(a.cmp_spec(&b)));
        assert(b.partial_cmp_spec(&c) == Some(b.cmp_spec(&c)));
        assert(a.partial_cmp_spec(&c) == Some(Ordering::Less));
        assert(c.partial_cmp_spec(&a) == Some(Ordering::Greater));
    }
}

/// What makes [`lt`] a total order.
pub broadcast group group_order {
    lemma_lt_trans,
    lemma_lt_asym,
    lemma_not_lt_trans,
}

/// Whether `a` sorts strictly before `b`.
pub fn key_lt<K: Key>(a: &K, b: &K) -> (r: bool)
    requires
        ordered::<K>(),
    ensures
        r == lt(*a, *b),
{
    proof {
        reveal(vstd::laws_cmp::obeys_cmp_partial_ord);
    }
    *a < *b
}

/// Whether `a` and `b` are equal in the key order.
pub fn key_eq<K: Key>(a: &K, b: &K) -> (r: bool)
    requires
        ordered::<K>(),
    ensures
        r == same(*a, *b),
{
    proof {
        reveal(vstd::laws_cmp::obeys_cmp_partial_ord);
        reveal(vstd::laws_cmp::obeys_cmp_ord);
        reveal(vstd::laws_cmp::obeys_partial_cmp_spec_properties);
        reveal(vstd::laws_eq::obeys_eq_spec_properties);
        assert(a.partial_cmp_spec(b) == Some(a.cmp_spec(b)));
        assert(b.partial_cmp_spec(a) == Some(b.cmp_spec(a)));
    }
    *a == *b
}

} // verus!
