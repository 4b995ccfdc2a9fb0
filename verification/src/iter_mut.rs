//! Walking the pairs of a tree in key order, with their values for changing them in place.
use crate::allocator::{Addr, NodeAllocator};
use crate::entries::sorted;
use crate::iter::{before_end, check_bound, first_in, lemma_suffix, settle, start_in_leaf, Bound};
use crate::key::{group_order, lt, ordered, Key};
use crate::lemmas::lemma_items_concat;
use crate::model::{items_of, leaves, Link};
use crate::search::{lemma_items_around, lemma_items_empty, lemma_owner};
use crate::tree::BPlusTree;
use vstd::prelude::*;

verus! {

/// A place in a tree: a slot of a leaf, or the end.
pub struct Place {
    current: Option<Addr>,
    idx_in_leaf: usize,
    /// The leaf's place in the chain.
    leaf: Ghost<int>,
}

impl Place {
    /// The place is in one of these leaves, or behind them.
    pub closed spec fn within<K, V>(self, ls: Seq<Link<K, V>>) -> bool {
        let j = self.leaf@;
        &&& 0 <= j <= ls.len()
        &&& j == ls.len() ==> self.current is None && self.idx_in_leaf == 0
        &&& j < ls.len() ==> self.current == Some(ls[j].at) && self.idx_in_leaf
            <= ls[j].leaf.items.len()
    }

    /// How many pairs of these leaves come before the place.
    pub closed spec fn offset<K, V>(self, ls: Seq<Link<K, V>>) -> int {
        items_of(ls.take(self.leaf@)).len() + self.idx_in_leaf
    }
}

/// A walk over the pairs of a tree that hands out the values for changing them. Each step borrows
/// the walk, so one value is out at a time.
pub struct IteratorMut<'a, K: Key, V, const M: usize, A: NodeAllocator<K, V, M>> {
    /// The tree that is walked.
    pub tree: &'a mut BPlusTree<K, V, M, A>,
    /// Where in the tree the walk is.
    pub place: Place,
}

impl<'a, K: Key, V, const M: usize, A: NodeAllocator<K, V, M>> IteratorMut<'a, K, V, M, A> {
    /// The walk's invariant.
    pub open spec fn wf(&self) -> bool {
        self.tree.wf() && self.place.within(leaves(self.tree.tree()))
    }

    /// How many pairs lie behind the walk.
    pub open spec fn position(&self) -> int {
        self.place.offset(leaves(self.tree.tree()))
    }

    /// The walk over `tree` from slot `idx` of the leaf in place `j` of its chain, which is at
    /// `at`.
    fn from_leaf(
        tree: &'a mut BPlusTree<K, V, M, A>,
        at: Addr,
        idx: usize,
        Ghost(j): Ghost<int>,
    ) -> (r: Self)
        requires
            old(tree).wf(),
            0 <= j < leaves(old(tree).tree()).len(),
            leaves(old(tree).tree())[j].at == at,
            idx <= leaves(old(tree).tree())[j].leaf.items.len(),
        ensures
            r.wf(),
            *r.tree == *old(tree),
            *final(tree) == *final(r.tree),
            r.position() == items_of(leaves(old(tree).tree()).take(j)).len() + idx,
    {
        IteratorMut { tree, place: Place { current: Some(at), idx_in_leaf: idx, leaf: Ghost(j) } }
    }

    /// The walk over `tree` from its first pair.
    pub fn from_start(tree: &'a mut BPlusTree<K, V, M, A>) -> (r: Self)
        requires
            old(tree).wf(),
        ensures
            r.wf(),
            *r.tree == *old(tree),
            *final(tree) == *final(r.tree),
            r.position() == 0,
    {
        let at = tree.first_leaf();
        proof {
            lemma_items_empty(leaves(tree.tree()).take(0));
        }
        Self::from_leaf(tree, at, 0, Ghost(0int))
    }

    /// Yields the next pair, with its value for changing it in place.
    pub fn next(&mut self) -> (r: Option<(&K, &mut V)>)
        requires
            old(self).wf(),
        ensures
            final(self).wf(),
            *final(final(self).tree) == *final(old(self).tree),
            final(self).tree.ceilings() == old(self).tree.ceilings(),
            0 <= old(self).position() <= old(self).tree@.len(),
            r is None <==> old(self).position() == old(self).tree@.len(),
            r is None ==> {
                &&& *final(self).tree == *old(self).tree
                &&& final(self).position() == old(self).position()
            },
            r matches Some((k, v)) ==> {
                let at = old(self).position();
                let all = old(self).tree@;
                &&& (*k, *v) == all[at]
                &&& final(self).tree@ == all.update(at, (*k, *final(v)))
                &&& final(self).position() == at + 1
            },
    {
        let ghost ls = leaves(self.tree.tree());
        let ghost j = self.place.leaf@;
        proof {
            self.tree.lemma_chain();
            lemma_suffix(self.tree.store(), ls, j);
            if j < ls.len() {
                assert(ls.skip(j)[0] == ls[j]);
                lemma_items_around(ls, j);
            } else {
                assert(ls.take(j) =~= ls);
            }
        }
        let (current, idx, Ghost(d)) = settle(
            self.tree.allocator(),
            self.place.current,
            self.place.idx_in_leaf,
            Ghost(ls.skip(j)),
        );
        let ghost i = j + d;
        proof {
            assert(ls.skip(j).skip(d) =~= ls.skip(i));
            if i < ls.len() {
                assert(ls.skip(i)[0] == ls[i]);
                lemma_items_around(ls, i);
            }
            lemma_moved_on(ls, j, self.place.idx_in_leaf as int, d, idx as int);
        }
        match current {
            None => {
                self.place = Place { current, idx_in_leaf: idx, leaf: Ghost(i) };
                None
            },
            Some(at) => {
                self.place = Place { current, idx_in_leaf: idx + 1, leaf: Ghost(i) };
                proof {
                    assert forall|x: Link<K, V>| #[trigger] ls.update(i, x).take(i) == ls.take(
                        i,
                    ) by {
                        assert(ls.update(i, x).take(i) =~= ls.take(i));
                    }
                }
                Some(self.tree.pair_mut(at, idx, Ghost(i)))
            },
        }
    }
}

/// Moving on over leaves that are used up does not change how many pairs come before.
proof fn lemma_moved_on<K, V>(ls: Seq<Link<K, V>>, j: int, from: int, d: int, to: int)
    requires
        0 <= j <= ls.len(),
        0 <= d <= ls.len() - j,
        0 <= from <= items_of(ls.skip(j)).len(),
        0 <= to <= items_of(ls.skip(j + d)).len(),
        items_of(ls.skip(j)).skip(from) == items_of(ls.skip(j).skip(d)).skip(to),
    ensures
        items_of(ls.take(j)).len() + from == items_of(ls.take(j + d)).len() + to,
        items_of(ls.take(j)).len() + from <= items_of(ls).len(),
        items_of(ls).len() - (items_of(ls.take(j)).len() + from) == items_of(ls.skip(j)).skip(
            from,
        ).len(),
{
    let i = j + d;
    assert(ls.take(j) + ls.skip(j) =~= ls);
    assert(ls.take(i) + ls.skip(i) =~= ls);
    lemma_items_concat(ls.take(j), ls.skip(j));
    lemma_items_concat(ls.take(i), ls.skip(i));
    assert(items_of(ls).len() == items_of(ls.take(j)).len() + items_of(ls.skip(j)).len());
    assert(items_of(ls).len() == items_of(ls.take(i)).len() + items_of(ls.skip(i)).len());
    assert(ls.skip(j).skip(d) =~= ls.skip(j + d));
    assert(items_of(ls.skip(j)).skip(from).len() == items_of(ls.skip(j)).len() - from);
    assert(items_of(ls.skip(i)).skip(to).len() == items_of(ls.skip(i)).len() - to);
}

/// A walk over all pairs of a tree, with their values for changing them, which knows how many are
/// still to come.
pub struct FullIteratorMut<'a, K: Key, V, const M: usize, A: NodeAllocator<K, V, M>> {
    pub len: usize,
    pub inner: IteratorMut<'a, K, V, M, A>,
}

impl<'a, K: Key, V, const M: usize, A: NodeAllocator<K, V, M>> FullIteratorMut<'a, K, V, M, A> {
    /// The walk's invariant.
    pub open spec fn wf(&self) -> bool {
        self.inner.wf() && self.len == self.left()
    }

    /// The number of pairs still to come.
    pub open spec fn left(&self) -> int {
        self.inner.tree@.len() - self.inner.position()
    }

    /// The number of pairs still to come.
    pub fn len(&self) -> (r: usize)
        requires
            self.wf(),
        ensures
            r == self.left(),
    {
        self.len
    }

    /// Yields the next pair, with its value for changing it in place.
    pub fn next(&mut self) -> (r: Option<(&K, &mut V)>)
        requires
            old(self).wf(),
        ensures
            final(self).wf(),
            *final(final(self).inner.tree) == *final(old(self).inner.tree),
            final(self).inner.tree.ceilings() == old(self).inner.tree.ceilings(),
            r is None <==> old(self).inner.position() == old(self).inner.tree@.len(),
            r is None <==> old(self).left() == 0,
            final(self).left() == old(self).left() - (if r is Some {
                1int
            } else {
                0
            }),
            r is None ==> {
                &&& *final(self).inner.tree == *old(self).inner.tree
                &&& final(self).inner.position() == old(self).inner.position()
            },
            r matches Some((k, v)) ==> {
                let at = old(self).inner.position();
                let all = old(self).inner.tree@;
                &&& 0 <= at < all.len()
                &&& (*k, *v) == all[at]
                &&& final(self).inner.tree@ == all.update(at, (*k, *final(v)))
                &&& final(self).inner.position() == at + 1
            },
    {
        if self.len > 0 {
            self.len = self.len - 1;
        }
        self.inner.next()
    }

    /// Yields the next value for changing it in place.
    pub fn next_value(&mut self) -> (r: Option<&mut V>)
        requires
            old(self).wf(),
        ensures
            final(self).wf(),
            *final(final(self).inner.tree) == *final(old(self).inner.tree),
            final(self).inner.tree.ceilings() == old(self).inner.tree.ceilings(),
            r is None <==> old(self).inner.position() == old(self).inner.tree@.len(),
            r is None <==> old(self).left() == 0,
            final(self).left() == old(self).left() - (if r is Some {
                1int
            } else {
                0
            }),
            r is None ==> {
                &&& *final(self).inner.tree == *old(self).inner.tree
                &&& final(self).inner.position() == old(self).inner.position()
            },
            r matches Some(v) ==> {
                let at = old(self).inner.position();
                let all = old(self).inner.tree@;
                &&& 0 <= at < all.len()
                &&& *v == all[at].1
                &&& final(self).inner.tree@ == all.update(at, (all[at].0, *final(v)))
                &&& final(self).inner.position() == at + 1
            },
    {
        match self.next() {
            Some((_, v)) => Some(v),
            None => None,
        }
    }
}

/// A walk over the pairs of a tree whose keys lie in a range, with their values for changing them.
pub struct RangeMut<'a, K: Key, V, const M: usize, A: NodeAllocator<K, V, M>> {
    /// The walk, from the start of the range on.
    pub inner: IteratorMut<'a, K, V, M, A>,
    /// Where to stop.
    pub end: Bound<K>,
}

impl<'a, K: Key, V, const M: usize, A: NodeAllocator<K, V, M>> RangeMut<'a, K, V, M, A> {
    /// The walk over the pairs of `tree` from `start` to `end`.
    pub fn new(tree: &'a mut BPlusTree<K, V, M, A>, start: Bound<K>, end: Bound<K>) -> (r: Self)
        requires
            old(tree).wf(),
        ensures
            r.inner.wf(),
            r.end == end,
            *r.inner.tree == *old(tree),
            *final(tree) == *final(r.inner.tree),
            r.inner.position() == first_in(old(tree)@, start),
    {
        let ghost ls = leaves(tree.tree());
        proof {
            tree.lemma_wf();
            tree.lemma_chain();
        }
        let inner = match start {
            Bound::Unbounded => IteratorMut::from_start(tree),
            Bound::Included(key) => {
                let (at, Ghost(j)) = tree.find_leaf(&key);
                proof {
                    lemma_owner(ls, j, key);
                }
                let (idx, _) = start_in_leaf(tree.allocator().leaf(at), &key, false);
                IteratorMut::from_leaf(tree, at, idx, Ghost(j))
            },
            Bound::Excluded(key) => {
                let (at, Ghost(j)) = tree.find_leaf(&key);
                proof {
                    lemma_owner(ls, j, key);
                }
                let (idx, advance) = start_in_leaf(tree.allocator().leaf(at), &key, true);
                let idx: usize = if advance {
                    idx + 1
                } else {
                    idx
                };
                IteratorMut::from_leaf(tree, at, idx, Ghost(j))
            },
        };
        RangeMut { inner, end }
    }

    /// Yields the next pair of the range, with its value for changing it in place.
    pub fn next(&mut self) -> (r: Option<(&K, &mut V)>)
        requires
            old(self).inner.wf(),
        ensures
            final(self).inner.wf(),
            final(self).end == old(self).end,
            *final(final(self).inner.tree) == *final(old(self).inner.tree),
            final(self).inner.tree.ceilings() == old(self).inner.tree.ceilings(),
            ({
                let at = old(self).inner.position();
                let all = old(self).inner.tree@;
                &&& 0 <= at <= all.len()
                &&& r is Some <==> at < all.len() && before_end(old(self).end, all[at].0)
                &&& r is None ==> {
                    &&& final(self).inner.tree@ == all
                    &&& forall|i: int|
                        final(self).inner.position() <= i < all.len() ==> !before_end(
                            old(self).end,
                            #[trigger] all[i].0,
                        )
                }
                &&& r matches Some((k, v)) ==> {
                    &&& (*k, *v) == all[at]
                    &&& final(self).inner.tree@ == all.update(at, (*k, *final(v)))
                    &&& final(self).inner.position() == at + 1
                }
            }),
    {
        let ghost at = self.inner.position();
        let ghost all = self.inner.tree@;
        proof {
            self.inner.tree.lemma_wf();
            if at < all.len() && !before_end(self.end, all[at].0) {
                lemma_beyond(all, at, self.end);
            }
        }
        let end = self.end;
        match self.inner.next() {
            Some((k, v)) => if check_bound(&end, k) {
                Some((k, v))
            } else {
                assert(all.update(at, all[at]) =~= all);
                None
            },
            None => None,
        }
    }
}

/// In a sorted run, what comes behind a pair that lies behind the end bound does so too.
proof fn lemma_beyond<K: Key, V>(ps: Seq<(K, V)>, at: int, end: Bound<K>)
    requires
        ordered::<K>(),
        sorted(ps),
        0 <= at < ps.len(),
        !before_end(end, ps[at].0),
    ensures
        forall|i: int| at <= i < ps.len() ==> !before_end(end, #[trigger] ps[i].0),
{
    broadcast use group_order;

    assert forall|i: int| at <= i < ps.len() implies !before_end(end, #[trigger] ps[i].0) by {
        if i > at {
            assert(lt(ps[at].0, ps[i].0));
        }
    }
}

impl<K: Key, V, const M: usize, A: NodeAllocator<K, V, M>> BPlusTree<K, V, M, A> {
    /// Walks over all pairs in ascending key order, with their values for changing them in
    /// place.
    pub fn iter_mut(&mut self) -> (r: FullIteratorMut<'_, K, V, M, A>)
        requires
            old(self).wf(),
        ensures
            r.wf(),
            *r.inner.tree == *old(self),
            *final(self) == *final(r.inner.tree),
            r.inner.position() == 0,
            r.left() == old(self)@.len(),
    {
        let len: usize = self.len();
        FullIteratorMut { len, inner: IteratorMut::from_start(self) }
    }

    /// Walks over all values in ascending key order, for changing them in place.
    pub fn values_mut(&mut self) -> (r: FullIteratorMut<'_, K, V, M, A>)
        requires
            old(self).wf(),
        ensures
            r.wf(),
            *r.inner.tree == *old(self),
            *final(self) == *final(r.inner.tree),
            r.inner.position() == 0,
            r.left() == old(self)@.len(),
    {
        self.iter_mut()
    }

    /// Walks over the pairs from `start` to `end` in ascending key order, with their values for
    /// changing them in place.
    pub fn range_mut(&mut self, start: Bound<K>, end: Bound<K>) -> (r: RangeMut<'_, K, V, M, A>)
        requires
            old(self).wf(),
        ensures
            r.inner.wf(),
            r.end == end,
            *r.inner.tree == *old(self),
            *final(self) == *final(r.inner.tree),
            r.inner.position() == first_in(old(self)@, start),
    {
        RangeMut::new(self, start, end)
    }
}

} // verus!
