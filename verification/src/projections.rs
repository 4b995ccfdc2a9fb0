//! The keys of a walk over pairs, its values, and the walks that a tree hands out.
use crate::allocator::NodeAllocator;
use crate::iter::{refs, window, Bound, Bounded, Full, FullIterator, Keyed, Range, Walk};
use crate::key::Key;
use crate::tree::BPlusTree;
use vstd::prelude::*;
use vstd::std_specs::iter::{IteratorSpec, IteratorSpecImpl};

verus! {

/// A walk whose items are pairs.
pub trait Paired: Walk {
    type Left;

    type Right;

    /// The first half of an item.
    spec fn left_of(item: Self::Item) -> Self::Left;

    /// The second half of an item.
    spec fn right_of(item: Self::Item) -> Self::Right;

    /// The first half of an item.
    fn left(item: Self::Item) -> (r: Self::Left)
        ensures
            r == Self::left_of(item),
    ;

    /// The second half of an item.
    fn right(item: Self::Item) -> (r: Self::Right)
        ensures
            r == Self::right_of(item),
    ;
}

impl<'a, K: Key + 'a, V: 'a, const M: usize, A: NodeAllocator<K, V, M>> Paired for crate::iter::Iterator<
    'a,
    K,
    V,
    M,
    A,
> {
    type Left = &'a K;

    type Right = &'a V;

    open spec fn left_of(item: (&'a K, &'a V)) -> &'a K {
        item.0
    }

    open spec fn right_of(item: (&'a K, &'a V)) -> &'a V {
        item.1
    }

    fn left(item: (&'a K, &'a V)) -> (r: &'a K) {
        item.0
    }

    fn right(item: (&'a K, &'a V)) -> (r: &'a V) {
        item.1
    }
}

impl<I: Paired> Paired for Full<I> {
    type Left = I::Left;

    type Right = I::Right;

    open spec fn left_of(item: I::Item) -> I::Left {
        I::left_of(item)
    }

    open spec fn right_of(item: I::Item) -> I::Right {
        I::right_of(item)
    }

    fn left(item: I::Item) -> (r: I::Left) {
        I::left(item)
    }

    fn right(item: I::Item) -> (r: I::Right) {
        I::right(item)
    }
}

impl<K: Key, I: Keyed<K> + Paired> Paired for Bounded<I, K> {
    type Left = I::Left;

    type Right = I::Right;

    open spec fn left_of(item: I::Item) -> I::Left {
        I::left_of(item)
    }

    open spec fn right_of(item: I::Item) -> I::Right {
        I::right_of(item)
    }

    fn left(item: I::Item) -> (r: I::Left) {
        I::left(item)
    }

    fn right(item: I::Item) -> (r: I::Right) {
        I::right(item)
    }
}

/// The keys of a walk over pairs.
pub struct Keys<I: Paired> {
    inner: I,
}

impl<I: Paired> Clone for Keys<I> {
    fn clone(&self) -> (r: Self)
        ensures
            r == *self,
    {
        *self
    }
}

impl<I: Paired> Copy for Keys<I> {

}

impl<I: Paired> Walk for Keys<I> {
    type Item = I::Left;

    closed spec fn coming(&self) -> Seq<I::Left> {
        self.inner.coming().map_values(|p: I::Item| I::left_of(p))
    }

    fn step(self) -> (r: (Option<I::Left>, Self)) {
        let ghost items = self.inner.coming();
        let (item, inner) = self.inner.step();
        proof {
            let f = |p: I::Item| I::left_of(p);
            if items.len() > 0 {
                assert(items.map_values(f).drop_first() =~= items.drop_first().map_values(f));
            }
        }
        let rest = Keys { inner };
        match item {
            Some(p) => (Some(I::left(p)), rest),
            None => (None, rest),
        }
    }
}

impl<I: Paired> core::iter::Iterator for Keys<I> {
    type Item = I::Left;

    fn next(&mut self) -> (r: Option<I::Left>) {
        let (item, rest) = self.step();
        *self = rest;
        item
    }
}

impl<I: Paired> IteratorSpecImpl for Keys<I> {
    open spec fn obeys_prophetic_iter_laws(&self) -> bool {
        true
    }

    open spec fn remaining(&self) -> Seq<Self::Item> {
        self.coming()
    }

    open spec fn will_return_none(&self) -> bool {
        true
    }

    open spec fn decrease(&self) -> Option<nat> {
        Some(self.coming().len())
    }

    open spec fn initial_value_relation(&self, init: &Self) -> bool {
        self == init
    }

    open spec fn peek(&self, index: int) -> Option<Self::Item> {
        if 0 <= index < self.coming().len() {
            Some(self.coming()[index])
        } else {
            None
        }
    }
}

impl<I: Paired> Keys<Full<I>> {
    /// The number of keys still to come.
    pub fn len(&self) -> (r: usize)
        ensures
            r == self.coming().len(),
            r == IteratorSpec::remaining(self).len(),
    {
        self.inner.len()
    }
}

/// The values of a walk over pairs.
pub struct Values<I: Paired> {
    inner: I,
}

impl<I: Paired> Clone for Values<I> {
    fn clone(&self) -> (r: Self)
        ensures
            r == *self,
    {
        *self
    }
}

impl<I: Paired> Copy for Values<I> {

}

impl<I: Paired> Walk for Values<I> {
    type Item = I::Right;

    closed spec fn coming(&self) -> Seq<I::Right> {
        self.inner.coming().map_values(|p: I::Item| I::right_of(p))
    }

    fn step(self) -> (r: (Option<I::Right>, Self)) {
        let ghost items = self.inner.coming();
        let (item, inner) = self.inner.step();
        proof {
            let f = |p: I::Item| I::right_of(p);
            if items.len() > 0 {
                assert(items.map_values(f).drop_first() =~= items.drop_first().map_values(f));
            }
        }
        let rest = Values { inner };
        match item {
            Some(p) => (Some(I::right(p)), rest),
            None => (None, rest),
        }
    }
}

impl<I: Paired> core::iter::Iterator for Values<I> {
    type Item = I::Right;

    fn next(&mut self) -> (r: Option<I::Right>) {
        let (item, rest) = self.step();
        *self = rest;
        item
    }
}

impl<I: Paired> IteratorSpecImpl for Values<I> {
    open spec fn obeys_prophetic_iter_laws(&self) -> bool {
        true
    }

    open spec fn remaining(&self) -> Seq<Self::Item> {
        self.coming()
    }

    open spec fn will_return_none(&self) -> bool {
        true
    }

    open spec fn decrease(&self) -> Option<nat> {
        Some(self.coming().len())
    }

    open spec fn initial_value_relation(&self, init: &Self) -> bool {
        self == init
    }

    open spec fn peek(&self, index: int) -> Option<Self::Item> {
        if 0 <= index < self.coming().len() {
            Some(self.coming()[index])
        } else {
            None
        }
    }
}

impl<I: Paired> Values<Full<I>> {
    /// The number of values still to come.
    pub fn len(&self) -> (r: usize)
        ensures
            r == self.coming().len(),
            r == IteratorSpec::remaining(self).len(),
    {
        self.inner.len()
    }
}

impl<K: Key, V, const M: usize, A: NodeAllocator<K, V, M>> BPlusTree<K, V, M, A> {
    /// Walks over all pairs in ascending key order.
    pub fn iter<'a>(&'a self) -> (r: FullIterator<'a, K, V, M, A>)
        requires
            self.wf(),
        ensures
            r.coming() == refs::<K, V>(self@),
            IteratorSpec::remaining(&r) == refs::<K, V>(self@),
            IteratorSpec::obeys_prophetic_iter_laws(&r),
            IteratorSpec::will_return_none(&r),
            IteratorSpec::decrease(&r) is Some,
            IteratorSpec::remaining(&r).len() == self@.len(),
            forall|i: int|
                0 <= i < self@.len() ==> #[trigger] IteratorSpec::remaining(&r)[i] == (
                    &self@[i].0,
                    &self@[i].1,
                ),
    {
        Full::new(self)
    }

    /// Walks over all keys in ascending order.
    pub fn keys<'a>(&'a self) -> (r: Keys<FullIterator<'a, K, V, M, A>>)
        requires
            self.wf(),
        ensures
            r.coming() == self@.map_values(|p: (K, V)| &p.0),
            IteratorSpec::remaining(&r) == self@.map_values(|p: (K, V)| &p.0),
            IteratorSpec::obeys_prophetic_iter_laws(&r),
            IteratorSpec::will_return_none(&r),
            IteratorSpec::decrease(&r) is Some,
    {
        let r = Keys { inner: self.iter() };
        assert(r.coming() =~= self@.map_values(|p: (K, V)| &p.0));
        r
    }

    /// Walks over all values in ascending key order.
    pub fn values<'a>(&'a self) -> (r: Values<FullIterator<'a, K, V, M, A>>)
        requires
            self.wf(),
        ensures
            r.coming() == self@.map_values(|p: (K, V)| &p.1),
            IteratorSpec::remaining(&r) == self@.map_values(|p: (K, V)| &p.1),
            IteratorSpec::obeys_prophetic_iter_laws(&r),
            IteratorSpec::will_return_none(&r),
            IteratorSpec::decrease(&r) is Some,
    {
        let r = Values { inner: self.iter() };
        assert(r.coming() =~= self@.map_values(|p: (K, V)| &p.1));
        r
    }

    /// Walks over the pairs whose keys lie between the bounds, in ascending key order.
    pub fn range<'a>(&'a self, start: Bound<K>, end: Bound<K>) -> (r: Range<'a, K, V, M, A>)
        requires
            self.wf(),
        ensures
            r.coming() == refs::<K, V>(window(self@, start, end)),
            IteratorSpec::remaining(&r) == refs::<K, V>(window(self@, start, end)),
            IteratorSpec::obeys_prophetic_iter_laws(&r),
            IteratorSpec::will_return_none(&r),
            IteratorSpec::decrease(&r) is Some,
    {
        Bounded::new(self, start, end)
    }
}

impl<I: Paired> core::iter::FusedIterator for Keys<I> {

}

impl<I: Paired> core::iter::ExactSizeIterator for Keys<Full<I>> {
    fn len(&self) -> (r: usize)
        ensures
            r == self.coming().len(),
            r == IteratorSpec::remaining(self).len(),
    {
        self.len()
    }
}

impl<I: Paired> core::iter::FusedIterator for Values<I> {

}

impl<I: Paired> core::iter::ExactSizeIterator for Values<Full<I>> {
    fn len(&self) -> (r: usize)
        ensures
            r == self.coming().len(),
            r == IteratorSpec::remaining(self).len(),
    {
        self.len()
    }
}

} // verus!
