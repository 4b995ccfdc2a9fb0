//! Taking a tree apart pair by pair, and filling one from a stream in any order.
use crate::allocator::NodeAllocator;
use crate::entries::{
    has_key, lemma_rank_at, lemma_rank_bound, lemma_rank_splits, put, rank, sorted,
};
use crate::key::{group_order, key_lt, lt, ordered, Key};
use crate::tree::{fresh_default, spacious, BPlusTree};
use vstd::prelude::*;
use vstd::std_specs::iter::{IteratorSpec, IteratorSpecImpl};

verus! {

/// Owned iterator over a tree's pairs, in ascending key order. The tree shrinks as it goes.
pub struct IntoIter<K: Key, V, const M: usize, A: NodeAllocator<K, V, M>> {
    tree: Option<BPlusTree<K, V, M, A>>,
}

impl<K: Key, V, const M: usize, A: NodeAllocator<K, V, M>> IntoIter<K, V, M, A> {
    #[verifier::type_invariant]
    spec fn inv(self) -> bool {
        self.tree matches Some(tree) ==> tree.wf()
    }

    /// The pairs that are still to come.
    pub closed spec fn coming(&self) -> Seq<(K, V)> {
        match self.tree {
            Some(tree) => tree@,
            None => Seq::empty(),
        }
    }

    /// The number of pairs still to come.
    pub fn len(&self) -> (r: usize)
        ensures
            r == self.coming().len(),
            r == IteratorSpec::remaining(self).len(),
    {
        proof {
            use_type_invariant(&*self);
        }
        match &self.tree {
            Some(tree) => tree.len(),
            None => 0,
        }
    }
}

impl<K: Key, V, const M: usize, A: NodeAllocator<K, V, M>> core::iter::Iterator for IntoIter<K, V, M, A> {
    type Item = (K, V);

    fn next(&mut self) -> (r: Option<(K, V)>) {
        proof {
            use_type_invariant(&*self);
        }
        let mut taken: Option<BPlusTree<K, V, M, A>> = None;
        core::mem::swap(&mut self.tree, &mut taken);
        match taken {
            Some(tree) => {
                let mut tree = tree;
                let ghost all = tree@;
                let item = tree.pop_first();
                assert(all.len() > 0 ==> all.skip(1) =~= all.drop_first());
                self.tree = Some(tree);
                item
            },
            None => None,
        }
    }
}

impl<K: Key, V, const M: usize, A: NodeAllocator<K, V, M>> IteratorSpecImpl for IntoIter<K, V, M, A> {
    open spec fn obeys_prophetic_iter_laws(&self) -> bool {
        true
    }

    open spec fn remaining(&self) -> Seq<Self::Item> {
        self.coming()
    }

    open spec fn will_return_none(&self) -> bool {
        true
    }

    open spec fn decrease(&self) -> Option<nat> {
        Some(self.coming().len())
    }

    open spec fn initial_value_relation(&self, init: &Self) -> bool {
        self == init
    }

    open spec fn peek(&self, index: int) -> Option<Self::Item> {
        if 0 <= index < self.coming().len() {
            Some(self.coming()[index])
        } else {
            None
        }
    }
}

/// `ps` after the pairs `items` were stored in it one after the other.
pub open spec fn put_all<K: Key, V>(ps: Seq<(K, V)>, items: Seq<(K, V)>) -> Seq<(K, V)>
    decreases items.len(),
{
    if items.len() == 0 {
        ps
    } else {
        let (k, v) = items.last();
        put(put_all(ps, items.drop_last()), k, v)
    }
}

/// How long a run is with one more pair stored in it.
proof fn lemma_put_len<K: Key, V>(ps: Seq<(K, V)>, k: K, v: V)
    ensures
        put(ps, k, v).len() == ps.len() + (if has_key(ps, k) {
            0int
        } else {
            1
        }),
{
    lemma_rank_bound(ps, k);
}

/// A run never gets shorter while pairs are stored in it.
proof fn lemma_put_all_grows<K: Key, V>(ps: Seq<(K, V)>, items: Seq<(K, V)>, n: int)
    requires
        0 <= n <= items.len(),
    ensures
        put_all(ps, items.take(n)).len() <= put_all(ps, items).len(),
    decreases items.len(),
{
    if n == items.len() {
        assert(items.take(n) =~= items);
    } else {
        let front = items.drop_last();
        let (k, v) = items.last();
        lemma_put_all_grows(ps, front, n);
        assert(front.take(n) =~= items.take(n));
        lemma_put_len(put_all(ps, front), k, v);
    }
}

impl<K: Key, V, const M: usize, A: NodeAllocator<K, V, M>> BPlusTree<K, V, M, A> {
    /// Takes the tree apart, pair by pair in ascending key order.
    pub fn into_iter(self) -> (r: IntoIter<K, V, M, A>)
        requires
            self.wf(),
        ensures
            r.coming() == self@,
            IteratorSpec::remaining(&r) == self@,
            IteratorSpec::obeys_prophetic_iter_laws(&r),
            IteratorSpec::will_return_none(&r),
            IteratorSpec::decrease(&r) is Some,
    {
        IntoIter { tree: Some(self) }
    }

    /// Stores every pair of the stream, one after the other.
    pub fn extend<I: core::iter::Iterator<Item = (K, V)>>(&mut self, iter: I)
        requires
            old(self).wf(),
            iter.obeys_prophetic_iter_laws(),
            iter.decrease() is Some,
            put_all(old(self)@, iter.remaining()).len() <= usize::MAX,
            A::endless() || spacious(
                old(self).ceilings(),
                put_all(old(self)@, iter.remaining()).len(),
                M,
            ),
        ensures
            final(self).wf(),
            final(self).ceilings() == old(self).ceilings(),
            final(self)@ == put_all(old(self)@, iter.remaining()),
    {
        let mut iter = iter;
        let ghost all = iter.remaining();
        let ghost ps = self@;
        let ghost mut done: Seq<(K, V)> = Seq::empty();
        assert(done + all =~= all);
        loop
            invariant
                self.wf(),
                self.ceilings() == old(self).ceilings(),
                A::endless() || spacious(self.ceilings(), put_all(ps, all).len(), M),
                iter.obeys_prophetic_iter_laws(),
                iter.decrease() is Some,
                done + iter.remaining() == all,
                put_all(ps, all).len() <= usize::MAX,
                ps == old(self)@,
                self@ == put_all(ps, done),
            ensures
                self.wf(),
                self.ceilings() == old(self).ceilings(),
                self@ == put_all(ps, all),
            decreases iter.decrease()->0,
        {
            let ghost rest = iter.remaining();
            match iter.next() {
                Some((k, v)) => {
                    proof {
                        assert(done.push((k, v)) + iter.remaining() =~= done + rest);
                        assert(done.push((k, v)).drop_last() =~= done);
                        done = done.push((k, v));
                        lemma_put_len(self@, k, v);
                        lemma_put_all_grows(ps, all, done.len() as int);
                        assert(all.take(done.len() as int) =~= done);
                        if !A::endless() {
                            self.law_spacious(k, put_all(ps, all).len());
                        }
                    }
                    self.insert(k, v);
                },
                None => {
                    assert(done =~= all);
                    break ;
                },
            }
        }
    }

    /// A tree with the pairs of the stream, stored one after the other: of pairs with equal keys
    /// the first keeps its key, and the last its value.
    pub fn from_iter<I: core::iter::Iterator<Item = (K, V)>>(iter: I) -> (r: Self) where A: Default
        requires
            M >= 3,
            ordered::<K>(),
            fresh_default::<K, V, M, A>(),
            iter.obeys_prophetic_iter_laws(),
            iter.decrease() is Some,
            put_all(Seq::<(K, V)>::empty(), iter.remaining()).len() <= usize::MAX,
        ensures
            r.wf(),
            r@ == put_all(Seq::<(K, V)>::empty(), iter.remaining()),
    {
        let mut tree = Self::new();
        tree.extend(iter);
        tree
    }

    /// Moves all pairs of `other` over, one after the other, and leaves it empty.
    pub fn append(&mut self, other: &mut Self)
        requires
            old(self).wf(),
            old(other).wf(),
            put_all(old(self)@, old(other)@).len() <= usize::MAX,
            A::endless() || spacious(
                old(self).ceilings(),
                put_all(old(self)@, old(other)@).len(),
                M,
            ),
        ensures
            final(self).wf(),
            final(other).wf(),
            final(self).ceilings() == old(self).ceilings(),
            final(other).ceilings() == old(other).ceilings(),
            final(self)@ == put_all(old(self)@, old(other)@),
            final(other)@ == Seq::<(K, V)>::empty(),
    {
        let ghost all = other@;
        let ghost mut i: int = 0;
        assert(all.skip(0) =~= all);
        assert(all.take(0) =~= Seq::<(K, V)>::empty());
        loop
            invariant
                self.wf(),
                other.wf(),
                A::endless() || spacious(self.ceilings(), put_all(old(self)@, all).len(), M),
                self.ceilings() == old(self).ceilings(),
                other.ceilings() == old(other).ceilings(),
                0 <= i <= all.len(),
                all == old(other)@,
                other@ == all.skip(i),
                self@ == put_all(old(self)@, all.take(i)),
                put_all(old(self)@, all).len() <= usize::MAX,
            ensures
                self.wf(),
                other.wf(),
                self.ceilings() == old(self).ceilings(),
                other.ceilings() == old(other).ceilings(),
                other@ == Seq::<(K, V)>::empty(),
                self@ == put_all(old(self)@, all),
            decreases all.len() - i,
        {
            match other.pop_first() {
                Some((k, v)) => {
                    proof {
                        lemma_put_len(self@, k, v);
                        lemma_put_all_grows(old(self)@, all, i + 1);
                        assert(all.take(i + 1).drop_last() =~= all.take(i));
                        assert(all.skip(i).skip(1) =~= all.skip(i + 1));
                        i = i + 1;
                        if !A::endless() {
                            self.law_spacious(k, put_all(old(self)@, all).len());
                        }
                    }
                    self.insert(k, v);
                },
                None => {
                    assert(all.take(i) =~= all);
                    break ;
                },
            }
        }
    }

    /// Moves all pairs whose keys are not below `key` into a new tree.
    pub fn split_off(&mut self, key: &K) -> (r: Self) where A: Default
        requires
            old(self).wf(),
            fresh_default::<K, V, M, A>(),
        ensures
            final(self).wf(),
            final(self).ceilings() == old(self).ceilings(),
            r.wf(),
            final(self)@ == old(self)@.take(rank(old(self)@, *key) as int),
            r@ == old(self)@.skip(rank(old(self)@, *key) as int),
    {
        proof {
            self.lemma_wf();
            lemma_rank_splits(self@, *key);
        }
        let ghost all = self@;
        let ghost r = rank(all, *key) as int;
        let mut upper = Self::new();
        let ghost mut n: int = all.len() as int;
        assert(all.take(n) =~= all);
        assert(all.skip(n) =~= Seq::<(K, V)>::empty());
        loop
            invariant
                self.wf(),
                self.ceilings() == old(self).ceilings(),
                upper.wf(),
                A::endless(),
                ordered::<K>(),
                sorted(all),
                all.len() <= usize::MAX,
                r == rank(all, *key),
                r <= n <= all.len(),
                forall|i: int| 0 <= i < r ==> lt(#[trigger] all[i].0, *key),
                forall|i: int| r <= i < all.len() ==> !lt(#[trigger] all[i].0, *key),
                self@ == all.take(n),
                upper@ == all.skip(n),
            ensures
                self.wf(),
                self.ceilings() == old(self).ceilings(),
                upper.wf(),
                self@ == all.take(r),
                upper@ == all.skip(r),
            decreases n,
        {
            match self.last_key_value() {
                Some((last, _)) => {
                    assert(self@.last() == all[n - 1]);
                    if key_lt(last, key) {
                        break ;
                    }
                },
                None => {
                    break ;
                },
            }
            match self.pop_last() {
                Some((k, v)) => {
                    proof {
                        lemma_put_front(all, n);
                        assert(all.take(n).drop_last() =~= all.take(n - 1));
                        n = n - 1;
                    }
                    upper.insert(k, v);
                },
                None => {},
            }
        }
        upper
    }
}

/// Storing the pair before a sorted run's tail puts it in front.
proof fn lemma_put_front<K: Key, V>(all: Seq<(K, V)>, n: int)
    requires
        ordered::<K>(),
        sorted(all),
        0 < n <= all.len(),
    ensures
        put(all.skip(n), all[n - 1].0, all[n - 1].1) == all.skip(n - 1),
        !has_key(all.skip(n), all[n - 1].0),
{
    broadcast use group_order;

    let tail = all.skip(n);
    let k = all[n - 1].0;
    assert forall|i: int| 0 <= i < tail.len() implies lt(k, #[trigger] tail[i].0) by {
        assert(tail[i] == all[n + i]);
    }
    lemma_rank_at(tail, k, 0);
    assert(put(tail, k, all[n - 1].1) =~= all.skip(n - 1));
}

impl<K: Key, V, const M: usize, A: NodeAllocator<K, V, M>> core::iter::FusedIterator for IntoIter<
    K,
    V,
    M,
    A,
> {

}

impl<K: Key, V, const M: usize, A: NodeAllocator<
    K,
    V,
    M,
>> core::iter::ExactSizeIterator for IntoIter<K, V, M, A> {
    fn len(&self) -> (r: usize)
        ensures
            r == self.coming().len(),
            r == IteratorSpec::remaining(self).len(),
    {
        self.len()
    }
}

} // verus!
