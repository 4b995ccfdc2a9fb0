//! Walking the keys of a set, and of two sets at once.
use crate::allocator::NodeAllocator;
use crate::iter::{Bounded, Full, Keyed, Walk};
use crate::key::{key_eq, key_lt, ordered, Key};
use crate::merge::{both, either, only_first, only_one};
use crate::projections::Paired;
use vstd::prelude::*;
use vstd::std_specs::iter::{IteratorSpec, IteratorSpecImpl};

verus! {

/// A walk over pairs whose first halves stand for keys.
pub trait Arranged: Paired {
    type Key: Key;

    /// The key that a first half stands for.
    spec fn key_at(left: Self::Left) -> Self::Key;

    /// The key that a first half stands for.
    fn left_key(left: &Self::Left) -> (r: Self::Key)
        ensures
            r == Self::key_at(*left),
    ;
}

impl<'a, K: Key + 'a, V: 'a, const M: usize, A: NodeAllocator<K, V, M>> Arranged for crate::iter::Iterator<
    'a,
    K,
    V,
    M,
    A,
> {
    type Key = K;

    open spec fn key_at(left: &'a K) -> K {
        *left
    }

    fn left_key(left: &&'a K) -> (r: K) {
        **left
    }
}

impl<I: Arranged> Arranged for Full<I> {
    type Key = I::Key;

    open spec fn key_at(left: I::Left) -> I::Key {
        I::key_at(left)
    }

    fn left_key(left: &I::Left) -> (r: I::Key) {
        I::left_key(left)
    }
}

impl<K: Key, I: Keyed<K> + Arranged> Arranged for Bounded<I, K> {
    type Key = I::Key;

    open spec fn key_at(left: I::Left) -> I::Key {
        I::key_at(left)
    }

    fn left_key(left: &I::Left) -> (r: I::Key) {
        I::left_key(left)
    }
}

/// Iterates over the keys of a set, without the unit values that the tree below carries along.
pub struct Iter<I: Paired> {
    inner: I,
}

impl<I: Paired> Clone for Iter<I> {
    fn clone(&self) -> (r: Self)
        ensures
            r == *self,
    {
        *self
    }
}

impl<I: Paired> Copy for Iter<I> {

}

/// The first halves of the pairs that are still to come.
pub open spec fn lefts<I: Paired>(walk: I) -> Seq<I::Left> {
    walk.coming().map_values(|p: I::Item| I::left_of(p))
}

impl<I: Paired> Iter<I> {
    /// The keys of the pairs that `inner` walks over.
    pub(crate) fn over(inner: I) -> (r: Self)
        ensures
            r.coming() == lefts(inner),
    {
        Iter { inner }
    }
}

impl<I: Paired> Walk for Iter<I> {
    type Item = I::Left;

    closed spec fn coming(&self) -> Seq<I::Left> {
        lefts(self.inner)
    }

    fn step(self) -> (r: (Option<I::Left>, Self)) {
        let ghost items = self.inner.coming();
        let (item, inner) = self.inner.step();
        proof {
            let f = |p: I::Item| I::left_of(p);
            if items.len() > 0 {
                assert(items.map_values(f).drop_first() =~= items.drop_first().map_values(f));
            }
        }
        let rest = Iter { inner };
        match item {
            Some(p) => (Some(I::left(p)), rest),
            None => (None, rest),
        }
    }
}

impl<I: Paired> core::iter::Iterator for Iter<I> {
    type Item = I::Left;

    fn next(&mut self) -> (r: Option<I::Left>) {
        let (item, rest) = self.step();
        *self = rest;
        item
    }
}

impl<I: Paired> IteratorSpecImpl for Iter<I> {
    open spec fn obeys_prophetic_iter_laws(&self) -> bool {
        true
    }

    open spec fn remaining(&self) -> Seq<Self::Item> {
        self.coming()
    }

    open spec fn will_return_none(&self) -> bool {
        true
    }

    open spec fn decrease(&self) -> Option<nat> {
        Some(self.coming().len())
    }

    open spec fn initial_value_relation(&self, init: &Self) -> bool {
        self == init
    }

    open spec fn peek(&self, index: int) -> Option<Self::Item> {
        if 0 <= index < self.coming().len() {
            Some(self.coming()[index])
        } else {
            None
        }
    }
}

impl<I: Paired> Iter<Full<I>> {
    /// The number of keys still to come.
    pub fn len(&self) -> (r: usize)
        ensures
            r == self.coming().len(),
            r == IteratorSpec::remaining(self).len(),
    {
        self.inner.len()
    }
}

/// The key that a first half stands for.
pub open spec fn key_fn<I: Arranged>() -> spec_fn(I::Left) -> I::Key {
    |left: I::Left| I::key_at(left)
}

/// Iterates over the keys in either of two sets (or both), in ascending order, without duplicates.
pub struct Union<I: Arranged> {
    first: Iter<I>,
    second: Iter<I>,
}

impl<I: Arranged> Union<I> {
    #[verifier::type_invariant]
    spec fn inv(self) -> bool {
        ordered::<I::Key>()
    }

    /// The walk over the keys of the two.
    pub(crate) fn over(first: I, second: I) -> (r: Self)
        requires
            ordered::<I::Key>(),
        ensures
            r.coming() == either(lefts(first), lefts(second), key_fn::<I>()),
    {
        Union { first: Iter::over(first), second: Iter::over(second) }
    }
}

impl<I: Arranged> Clone for Union<I> {
    fn clone(&self) -> (r: Self)
        ensures
            r == *self,
    {
        *self
    }
}

impl<I: Arranged> Copy for Union<I> {

}

impl<I: Arranged> Walk for Union<I> {
    type Item = I::Left;

    closed spec fn coming(&self) -> Seq<I::Left> {
        either(self.first.coming(), self.second.coming(), key_fn::<I>())
    }

    fn step(self) -> (r: (Option<I::Left>, Self)) {
        proof {
            use_type_invariant(&self);
        }
        let a = self.first;
        let b = self.second;
        let ghost (xs, ys) = (a.coming(), b.coming());
        let (this, a_rest) = a.step();
        let (that, b_rest) = b.step();
        let x = match this {
            Some(x) => x,
            None => {
                // The first is exhausted: what is left is the second.
                return (that, Union { first: a, second: b_rest });
            },
        };
        let y = match that {
            Some(y) => y,
            None => {
                return (Some(x), Union { first: a_rest, second: b });
            },
        };
        let (j, k) = (I::left_key(&x), I::left_key(&y));
        // Of two equal keys the first set's is taken.
        if key_eq(&j, &k) {
            assert(either(xs, ys, key_fn::<I>()).drop_first() =~= either(
                xs.drop_first(),
                ys.drop_first(),
                key_fn::<I>(),
            ));
            (Some(x), Union { first: a_rest, second: b_rest })
        } else if key_lt(&j, &k) {
            assert(either(xs, ys, key_fn::<I>()).drop_first() =~= either(
                xs.drop_first(),
                ys,
                key_fn::<I>(),
            ));
            (Some(x), Union { first: a_rest, second: b })
        } else {
            assert(either(xs, ys, key_fn::<I>()).drop_first() =~= either(
                xs,
                ys.drop_first(),
                key_fn::<I>(),
            ));
            (Some(y), Union { first: a, second: b_rest })
        }
    }
}

impl<I: Arranged> core::iter::Iterator for Union<I> {
    type Item = I::Left;

    fn next(&mut self) -> (r: Option<I::Left>) {
        let (item, rest) = self.step();
        *self = rest;
        item
    }
}

impl<I: Arranged> IteratorSpecImpl for Union<I> {
    open spec fn obeys_prophetic_iter_laws(&self) -> bool {
        true
    }

    open spec fn remaining(&self) -> Seq<Self::Item> {
        self.coming()
    }

    open spec fn will_return_none(&self) -> bool {
        true
    }

    open spec fn decrease(&self) -> Option<nat> {
        Some(self.coming().len())
    }

    open spec fn initial_value_relation(&self, init: &Self) -> bool {
        self == init
    }

    open spec fn peek(&self, index: int) -> Option<Self::Item> {
        if 0 <= index < self.coming().len() {
            Some(self.coming()[index])
        } else {
            None
        }
    }
}

/// Iterates over the keys present in both sets, in ascending order.
pub struct Intersection<I: Arranged> {
    first: Iter<I>,
    second: Iter<I>,
}

impl<I: Arranged> Intersection<I> {
    #[verifier::type_invariant]
    spec fn inv(self) -> bool {
        ordered::<I::Key>()
    }

    /// The walk over the keys of the two.
    pub(crate) fn over(first: I, second: I) -> (r: Self)
        requires
            ordered::<I::Key>(),
        ensures
            r.coming() == both(lefts(first), lefts(second), key_fn::<I>()),
    {
        Intersection { first: Iter::over(first), second: Iter::over(second) }
    }
}

impl<I: Arranged> Clone for Intersection<I> {
    fn clone(&self) -> (r: Self)
        ensures
            r == *self,
    {
        *self
    }
}

impl<I: Arranged> Copy for Intersection<I> {

}

impl<I: Arranged> Walk for Intersection<I> {
    type Item = I::Left;

    closed spec fn coming(&self) -> Seq<I::Left> {
        both(self.first.coming(), self.second.coming(), key_fn::<I>())
    }

    fn step(self) -> (r: (Option<I::Left>, Self)) {
        proof {
            use_type_invariant(&self);
        }
        let mut a = self.first;
        let mut b = self.second;
        let ghost all = self.coming();
        loop
            invariant
                ordered::<I::Key>(),
                all == self.coming(),
                both(a.coming(), b.coming(), key_fn::<I>()) == all,
            decreases a.coming().len() + b.coming().len(),
        {
            let ghost (xs, ys) = (a.coming(), b.coming());
            let (this, a_rest) = a.step();
            let (that, b_rest) = b.step();
            let x = match this {
                Some(x) => x,
                None => {
                    return (None, Intersection { first: a, second: b });
                },
            };
            let y = match that {
                Some(y) => y,
                None => {
                    return (None, Intersection { first: a, second: b });
                },
            };
            let (j, k) = (I::left_key(&x), I::left_key(&y));
            if key_eq(&j, &k) {
                assert(both(xs, ys, key_fn::<I>()).drop_first() =~= both(
                    xs.drop_first(),
                    ys.drop_first(),
                    key_fn::<I>(),
                ));
                return (Some(x), Intersection { first: a_rest, second: b_rest });
            } else if key_lt(&j, &k) {
                a = a_rest;
            } else {
                b = b_rest;
            }
        }
    }
}

impl<I: Arranged> core::iter::Iterator for Intersection<I> {
    type Item = I::Left;

    fn next(&mut self) -> (r: Option<I::Left>) {
        let (item, rest) = self.step();
        *self = rest;
        item
    }
}

impl<I: Arranged> IteratorSpecImpl for Intersection<I> {
    open spec fn obeys_prophetic_iter_laws(&self) -> bool {
        true
    }

    open spec fn remaining(&self) -> Seq<Self::Item> {
        self.coming()
    }

    open spec fn will_return_none(&self) -> bool {
        true
    }

    open spec fn decrease(&self) -> Option<nat> {
        Some(self.coming().len())
    }

    open spec fn initial_value_relation(&self, init: &Self) -> bool {
        self == init
    }

    open spec fn peek(&self, index: int) -> Option<Self::Item> {
        if 0 <= index < self.coming().len() {
            Some(self.coming()[index])
        } else {
            None
        }
    }
}

/// Iterates over the keys in the first set but not the second, in ascending order.
pub struct Difference<I: Arranged> {
    first: Iter<I>,
    second: Iter<I>,
}

impl<I: Arranged> Difference<I> {
    #[verifier::type_invariant]
    spec fn inv(self) -> bool {
        ordered::<I::Key>()
    }

    /// The walk over the keys of the two.
    pub(crate) fn over(first: I, second: I) -> (r: Self)
        requires
            ordered::<I::Key>(),
        ensures
            r.coming() == only_first(lefts(first), lefts(second), key_fn::<I>()),
    {
        Difference { first: Iter::over(first), second: Iter::over(second) }
    }
}

impl<I: Arranged> Clone for Difference<I> {
    fn clone(&self) -> (r: Self)
        ensures
            r == *self,
    {
        *self
    }
}

impl<I: Arranged> Copy for Difference<I> {

}

impl<I: Arranged> Walk for Difference<I> {
    type Item = I::Left;

    closed spec fn coming(&self) -> Seq<I::Left> {
        only_first(self.first.coming(), self.second.coming(), key_fn::<I>())
    }

    fn step(self) -> (r: (Option<I::Left>, Self)) {
        proof {
            use_type_invariant(&self);
        }
        let mut a = self.first;
        let mut b = self.second;
        let ghost all = self.coming();
        loop
            invariant
                ordered::<I::Key>(),
                all == self.coming(),
                only_first(a.coming(), b.coming(), key_fn::<I>()) == all,
            decreases a.coming().len() + b.coming().len(),
        {
            let ghost (xs, ys) = (a.coming(), b.coming());
            let (this, a_rest) = a.step();
            let (that, b_rest) = b.step();
            let x = match this {
                Some(x) => x,
                None => {
                    return (None, Difference { first: a, second: b });
                },
            };
            let y = match that {
                Some(y) => y,
                None => {
                    return (Some(x), Difference { first: a_rest, second: b });
                },
            };
            let (j, k) = (I::left_key(&x), I::left_key(&y));
            if key_eq(&j, &k) {
                a = a_rest;
                b = b_rest;
            } else if key_lt(&j, &k) {
                assert(only_first(xs, ys, key_fn::<I>()).drop_first() =~= only_first(
                    xs.drop_first(),
                    ys,
                    key_fn::<I>(),
                ));
                return (Some(x), Difference { first: a_rest, second: b });
            } else {
                b = b_rest;
            }
        }
    }
}

impl<I: Arranged> core::iter::Iterator for Difference<I> {
    type Item = I::Left;

    fn next(&mut self) -> (r: Option<I::Left>) {
        let (item, rest) = self.step();
        *self = rest;
        item
    }
}

impl<I: Arranged> IteratorSpecImpl for Difference<I> {
    open spec fn obeys_prophetic_iter_laws(&self) -> bool {
        true
    }

    open spec fn remaining(&self) -> Seq<Self::Item> {
        self.coming()
    }

    open spec fn will_return_none(&self) -> bool {
        true
    }

    open spec fn decrease(&self) -> Option<nat> {
        Some(self.coming().len())
    }

    open spec fn initial_value_relation(&self, init: &Self) -> bool {
        self == init
    }

    open spec fn peek(&self, index: int) -> Option<Self::Item> {
        if 0 <= index < self.coming().len() {
            Some(self.coming()[index])
        } else {
            None
        }
    }
}

/// Iterates over the keys in exactly one of the two sets, in ascending order.
pub struct SymmetricDifference<I: Arranged> {
    first: Iter<I>,
    second: Iter<I>,
}

impl<I: Arranged> SymmetricDifference<I> {
    #[verifier::type_invariant]
    spec fn inv(self) -> bool {
        ordered::<I::Key>()
    }

    /// The walk over the keys of the two.
    pub(crate) fn over(first: I, second: I) -> (r: Self)
        requires
            ordered::<I::Key>(),
        ensures
            r.coming() == only_one(lefts(first), lefts(second), key_fn::<I>()),
    {
        SymmetricDifference { first: Iter::over(first), second: Iter::over(second) }
    }
}

impl<I: Arranged> Clone for SymmetricDifference<I> {
    fn clone(&self) -> (r: Self)
        ensures
            r == *self,
    {
        *self
    }
}

impl<I: Arranged> Copy for SymmetricDifference<I> {

}

impl<I: Arranged> Walk for SymmetricDifference<I> {
    type Item = I::Left;

    closed spec fn coming(&self) -> Seq<I::Left> {
        only_one(self.first.coming(), self.second.coming(), key_fn::<I>())
    }

    fn step(self) -> (r: (Option<I::Left>, Self)) {
        proof {
            use_type_invariant(&self);
        }
        let mut a = self.first;
        let mut b = self.second;
        let ghost all = self.coming();
        loop
            invariant
                ordered::<I::Key>(),
                all == self.coming(),
                only_one(a.coming(), b.coming(), key_fn::<I>()) == all,
            decreases a.coming().len() + b.coming().len(),
        {
            let ghost (xs, ys) = (a.coming(), b.coming());
            let (this, a_rest) = a.step();
            let (that, b_rest) = b.step();
            let x = match this {
                Some(x) => x,
                None => {
                    return (that, SymmetricDifference { first: a, second: b_rest });
                },
            };
            let y = match that {
                Some(y) => y,
                None => {
                    return (Some(x), SymmetricDifference { first: a_rest, second: b });
                },
            };
            let (j, k) = (I::left_key(&x), I::left_key(&y));
            if key_eq(&j, &k) {
                a = a_rest;
                b = b_rest;
            } else if key_lt(&j, &k) {
                assert(only_one(xs, ys, key_fn::<I>()).drop_first() =~= only_one(
                    xs.drop_first(),
                    ys,
                    key_fn::<I>(),
                ));
                return (Some(x), SymmetricDifference { first: a_rest, second: b });
            } else {
                assert(only_one(xs, ys, key_fn::<I>()).drop_first() =~= only_one(
                    xs,
                    ys.drop_first(),
                    key_fn::<I>(),
                ));
                return (Some(y), SymmetricDifference { first: a, second: b_rest });
            }
        }
    }
}

impl<I: Arranged> core::iter::Iterator for SymmetricDifference<I> {
    type Item = I::Left;

    fn next(&mut self) -> (r: Option<I::Left>) {
        let (item, rest) = self.step();
        *self = rest;
        item
    }
}

impl<I: Arranged> IteratorSpecImpl for SymmetricDifference<I> {
    open spec fn obeys_prophetic_iter_laws(&self) -> bool {
        true
    }

    open spec fn remaining(&self) -> Seq<Self::Item> {
        self.coming()
    }

    open spec fn will_return_none(&self) -> bool {
        true
    }

    open spec fn decrease(&self) -> Option<nat> {
        Some(self.coming().len())
    }

    open spec fn initial_value_relation(&self, init: &Self) -> bool {
        self == init
    }

    open spec fn peek(&self, index: int) -> Option<Self::Item> {
        if 0 <= index < self.coming().len() {
            Some(self.coming()[index])
        } else {
            None
        }
    }
}

/// A walk over keys.
pub trait KeyWalk: Walk {
    type Key: Key;

    /// The key that an item stands for.
    spec fn item_key(item: Self::Item) -> Self::Key;

    /// The key that an item stands for.
    fn copy_key(item: &Self::Item) -> (r: Self::Key)
        ensures
            r == Self::item_key(*item),
    ;
}

impl<I: Arranged> KeyWalk for Iter<I> {
    type Key = I::Key;

    open spec fn item_key(item: I::Left) -> I::Key {
        I::key_at(item)
    }

    fn copy_key(item: &I::Left) -> (r: I::Key) {
        I::left_key(item)
    }
}

impl<I: Arranged> KeyWalk for Union<I> {
    type Key = I::Key;

    open spec fn item_key(item: I::Left) -> I::Key {
        I::key_at(item)
    }

    fn copy_key(item: &I::Left) -> (r: I::Key) {
        I::left_key(item)
    }
}

impl<I: Arranged> KeyWalk for Intersection<I> {
    type Key = I::Key;

    open spec fn item_key(item: I::Left) -> I::Key {
        I::key_at(item)
    }

    fn copy_key(item: &I::Left) -> (r: I::Key) {
        I::left_key(item)
    }
}

impl<I: Arranged> KeyWalk for Difference<I> {
    type Key = I::Key;

    open spec fn item_key(item: I::Left) -> I::Key {
        I::key_at(item)
    }

    fn copy_key(item: &I::Left) -> (r: I::Key) {
        I::left_key(item)
    }
}

impl<I: Arranged> KeyWalk for SymmetricDifference<I> {
    type Key = I::Key;

    open spec fn item_key(item: I::Left) -> I::Key {
        I::key_at(item)
    }

    fn copy_key(item: &I::Left) -> (r: I::Key) {
        I::left_key(item)
    }
}

/// Copies of the keys of a walk, each paired with a unit value.
pub struct Copies<W: KeyWalk> {
    inner: W,
}

impl<W: KeyWalk> Copies<W> {
    /// Copies of the keys that `inner` walks over.
    pub(crate) fn over(inner: W) -> (r: Self)
        ensures
            r.coming() == inner.coming().map_values(|x: W::Item| (W::item_key(x), ())),
    {
        Copies { inner }
    }
}

impl<W: KeyWalk> Clone for Copies<W> {
    fn clone(&self) -> (r: Self)
        ensures
            r == *self,
    {
        *self
    }
}

impl<W: KeyWalk> Copy for Copies<W> {

}

impl<W: KeyWalk> Walk for Copies<W> {
    type Item = (W::Key, ());

    closed spec fn coming(&self) -> Seq<(W::Key, ())> {
        self.inner.coming().map_values(|x: W::Item| (W::item_key(x), ()))
    }

    fn step(self) -> (r: (Option<(W::Key, ())>, Self)) {
        let ghost items = self.inner.coming();
        let (item, inner) = self.inner.step();
        proof {
            let f = |x: W::Item| (W::item_key(x), ());
            if items.len() > 0 {
                assert(items.map_values(f).drop_first() =~= items.drop_first().map_values(f));
            }
        }
        let rest = Copies { inner };
        match item {
            Some(x) => (Some((W::copy_key(&x), ())), rest),
            None => (None, rest),
        }
    }
}

impl<W: KeyWalk> core::iter::Iterator for Copies<W> {
    type Item = (W::Key, ());

    fn next(&mut self) -> (r: Option<(W::Key, ())>) {
        let (item, rest) = self.step();
        *self = rest;
        item
    }
}

impl<W: KeyWalk> IteratorSpecImpl for Copies<W> {
    open spec fn obeys_prophetic_iter_laws(&self) -> bool {
        true
    }

    open spec fn remaining(&self) -> Seq<Self::Item> {
        self.coming()
    }

    open spec fn will_return_none(&self) -> bool {
        true
    }

    open spec fn decrease(&self) -> Option<nat> {
        Some(self.coming().len())
    }

    open spec fn initial_value_relation(&self, init: &Self) -> bool {
        self == init
    }

    open spec fn peek(&self, index: int) -> Option<Self::Item> {
        if 0 <= index < self.coming().len() {
            Some(self.coming()[index])
        } else {
            None
        }
    }
}

/// Keys from a list, each paired with a unit value.
pub struct Listed<K> {
    keys: Vec<K>,
    next: usize,
}

impl<K: Key> Listed<K> {
    /// The keys of the list.
    pub(crate) fn over(keys: Vec<K>) -> (r: Self)
        ensures
            r.coming() == keys@.map_values(|k: K| (k, ())),
    {
        let r = Listed { keys, next: 0 };
        assert(r.coming() =~= keys@.map_values(|k: K| (k, ())));
        r
    }

    /// The pairs that are still to come.
    pub closed spec fn coming(&self) -> Seq<(K, ())> {
        if self.next <= self.keys@.len() {
            self.keys@.skip(self.next as int).map_values(|k: K| (k, ()))
        } else {
            Seq::empty()
        }
    }
}

impl<K: Key> core::iter::Iterator for Listed<K> {
    type Item = (K, ());

    fn next(&mut self) -> (r: Option<(K, ())>) {
        let ghost items = self.coming();
        if self.next < self.keys.len() {
            let key = self.keys[self.next];
            self.next = self.next + 1;
            assert(items.drop_first() =~= self.coming());
            Some((key, ()))
        } else {
            None
        }
    }
}

impl<K: Key> IteratorSpecImpl for Listed<K> {
    open spec fn obeys_prophetic_iter_laws(&self) -> bool {
        true
    }

    open spec fn remaining(&self) -> Seq<Self::Item> {
        self.coming()
    }

    open spec fn will_return_none(&self) -> bool {
        true
    }

    open spec fn decrease(&self) -> Option<nat> {
        Some(self.coming().len())
    }

    open spec fn initial_value_relation(&self, init: &Self) -> bool {
        self == init
    }

    open spec fn peek(&self, index: int) -> Option<Self::Item> {
        if 0 <= index < self.coming().len() {
            Some(self.coming()[index])
        } else {
            None
        }
    }
}

impl<I: Paired> core::iter::FusedIterator for Iter<I> {

}

impl<I: Paired> core::iter::ExactSizeIterator for Iter<Full<I>> {
    fn len(&self) -> (r: usize)
        ensures
            r == self.coming().len(),
            r == IteratorSpec::remaining(self).len(),
    {
        self.len()
    }
}

impl<I: Arranged> core::iter::FusedIterator for Union<I> {

}

impl<I: Arranged> core::iter::FusedIterator for Intersection<I> {

}

impl<I: Arranged> core::iter::FusedIterator for Difference<I> {

}

impl<I: Arranged> core::iter::FusedIterator for SymmetricDifference<I> {

}

} // verus!
