//! Leaf nodes: where the tree's pairs live.
use crate::allocator::{Addr, NodeAllocator, Store};
use crate::entries::{
    all_below, del, has_key, lemma_put_sorted, lemma_rank_at, lemma_rank_splits, lookup, put, rank,
    sorted,
};
use crate::key::{group_order, key_eq, key_lt, lt, ordered, Key};
use vstd::prelude::*;

verus! {

/// Half of a fanout, rounded up.
pub open spec fn half(m: usize) -> int {
    (m + 1) / 2
}

/// A leaf's contents: its pairs, and the leaf that follows it in the chain.
#[verifier::ext_equal]
pub struct LeafView<K, V> {
    pub items: Seq<(K, V)>,
    pub next: Option<Addr>,
}

/// Where an inserted pair came to lie: the slot's index, in the leaf itself or in the right
/// sibling that a split made.
#[derive(Clone, Copy, PartialEq, Eq, Structural, Debug)]
pub enum Landed {
    Here(usize),
    Right(usize),
}

/// A leaf node: key/value pairs in sorted order, chained left to right for iteration.
pub struct Leaf<K: Key, V, const M: usize> {
    keys: Vec<K>,
    vals: Vec<V>,
    next: Option<Addr>,
}

impl<K: Key, V, const M: usize> View for Leaf<K, V, M> {
    type V = LeafView<K, V>;

    closed spec fn view(&self) -> LeafView<K, V> {
        LeafView {
            items: Seq::new(self.keys@.len(), |i: int| (self.keys@[i], self.vals@[i])),
            next: self.next,
        }
    }
}

impl<K: Key, V, const M: usize> Leaf<K, V, M> {
    /// Every key has its value.
    pub closed spec fn paired(&self) -> bool {
        self.keys@.len() == self.vals@.len()
    }

    /// The leaf's invariant: at most `M` pairs, in strictly ascending key order.
    pub open spec fn wf(&self) -> bool {
        &&& self.paired()
        &&& self@.items.len() <= M
        &&& sorted(self@.items)
    }

    /// The fewest pairs that a leaf other than the root may hold. It agrees with splitting (both
    /// halves of a split reach it) and with merging (a leaf one short of it and a sibling at it
    /// fit into one leaf).
    pub fn min_occupancy() -> (r: usize)
        ensures
            r == half(M),
    {
        M / 2 + M % 2
    }

    /// An empty leaf.
    pub fn new(next: Option<Addr>) -> (r: Self)
        ensures
            r.wf(),
            r@ == (LeafView { items: Seq::<(K, V)>::empty(), next }),
    {
        let r = Leaf { keys: Vec::new(), vals: Vec::new(), next };
        assert(r@.items =~= Seq::<(K, V)>::empty());
        r
    }

    /// A leaf of one pair.
    pub fn from_first_item(next: Option<Addr>, key: K, val: V) -> (r: Self)
        requires
            M >= 1,
        ensures
            r.wf(),
            r@ == (LeafView { items: seq![(key, val)], next }),
    {
        let mut r = Self::new(next);
        r.raw_append(key, val);
        assert(r@.items =~= seq![(key, val)]);
        r
    }

    /// The number of pairs.
    pub fn len(&self) -> (r: usize)
        ensures
            r == self@.items.len(),
    {
        self.keys.len()
    }

    /// The leaf holds fewer pairs than a leaf other than the root may.
    pub fn is_deficient(&self) -> (r: bool)
        ensures
            r <==> self@.items.len() < half(M),
    {
        self.keys.len() < Self::min_occupancy()
    }

    /// Sets the link to the following leaf.
    pub fn set_next(&mut self, next: Option<Addr>)
        ensures
            final(self).paired() == old(self).paired(),
            final(self)@ == (LeafView { next, ..old(self)@ }),
    {
        self.next = next;
        assert(self@.items =~= old(self)@.items);
    }

    /// The link to the following leaf.
    pub fn next(&self) -> (r: Option<Addr>)
        ensures
            r == self@.next,
    {
        self.next
    }

    /// The smallest key of a leaf that is not empty.
    pub fn first_key(&self) -> (r: &K)
        requires
            self@.items.len() > 0,
        ensures
            *r == self@.items[0].0,
    {
        &self.keys[0]
    }

    /// The keys, in order.
    pub fn keys_ref(&self) -> (r: &[K])
        ensures
            r@.len() == self@.items.len(),
            forall|i: int| 0 <= i < r@.len() ==> #[trigger] r@[i] == self@.items[i].0,
    {
        self.keys.as_slice()
    }

    /// The values, in key order.
    pub fn vals_ref(&self) -> (r: &[V])
        requires
            self.paired(),
        ensures
            r@.len() == self@.items.len(),
            forall|i: int| 0 <= i < r@.len() ==> #[trigger] r@[i] == self@.items[i].1,
    {
        self.vals.as_slice()
    }

    /// The pair in slot `idx`.
    pub fn kv_ref_unchecked(&self, idx: usize) -> (r: (&K, &V))
        requires
            self.paired(),
            idx < self@.items.len(),
        ensures
            (*r.0, *r.1) == self@.items[idx as int],
    {
        (&self.keys[idx], &self.vals[idx])
    }

    /// The value in slot `idx`.
    pub fn val_ref_unchecked(&self, idx: usize) -> (r: &V)
        requires
            self.paired(),
            idx < self@.items.len(),
        ensures
            *r == self@.items[idx as int].1,
    {
        &self.vals[idx]
    }

    /// The pair in slot `idx`, with its value for changing it in place.
    pub fn kv_mut_unchecked(&mut self, idx: usize) -> (r: (&K, &mut V))
        requires
            old(self).paired(),
            idx < old(self)@.items.len(),
        ensures
            (*r.0, *r.1) == old(self)@.items[idx as int],
            final(self).paired(),
            final(self)@ == (LeafView {
                items: old(self)@.items.update(
                    idx as int,
                    (old(self)@.items[idx as int].0, *final(r.1)),
                ),
                ..old(self)@
            }),
    {
        (&self.keys[idx], &mut self.vals[idx])
    }

    /// The value in slot `idx`, for replacing it in place.
    pub fn val_mut_unchecked(&mut self, idx: usize) -> (r: &mut V)
        requires
            old(self).paired(),
            idx < old(self)@.items.len(),
        ensures
            *r == old(self)@.items[idx as int].1,
            final(self).paired(),
            final(self)@ == (LeafView {
                items: old(self)@.items.update(
                    idx as int,
                    (old(self)@.items[idx as int].0, *final(r)),
                ),
                ..old(self)@
            }),
    {
        &mut self.vals[idx]
    }
}

impl<K: Key, V, const M: usize> Leaf<K, V, M> {
    /// The number of keys that sort before `key`: the slot where `key` is, or where it belongs.
    pub fn find_key(&self, key: &K) -> (r: usize)
        requires
            ordered::<K>(),
            sorted(self@.items),
        ensures
            r == rank(self@.items, *key),
    {
        let mut count: usize = 0;
        let mut i: usize = 0;
        while i < self.keys.len()
            invariant
                ordered::<K>(),
                sorted(self@.items),
                count <= i <= self.keys.len(),
                forall|j: int| 0 <= j < count ==> lt(#[trigger] self@.items[j].0, *key),
                forall|j: int| count <= j < i ==> !lt(#[trigger] self@.items[j].0, *key),
            decreases self.keys.len() - i,
        {
            broadcast use group_order;

            assert(self@.items[i as int].0 == self.keys@[i as int]);
            if key_lt(&self.keys[i], key) {
                if count < i {
                    assert(lt(self@.items[count as int].0, self@.items[i as int].0));
                }
                count = count + 1;
            }
            i = i + 1;
        }
        proof {
            lemma_rank_at(self@.items, *key, count as int);
        }
        count
    }

    /// The slot where `key` is or belongs, and whether it is there.
    pub fn probe(&self, key: &K) -> (r: (usize, bool))
        requires
            ordered::<K>(),
            sorted(self@.items),
        ensures
            r.0 == rank(self@.items, *key),
            r.0 <= self@.items.len(),
            r.1 == has_key(self@.items, *key),
    {
        let partition: usize = self.find_key(key);
        proof {
            lemma_rank_splits(self@.items, *key);
        }
        if partition < self.keys.len() {
            (partition, key_eq(&self.keys[partition], key))
        } else {
            (partition, false)
        }
    }

    /// Appends a pair whose key sorts after all others.
    pub fn raw_append(&mut self, key: K, val: V)
        requires
            old(self).wf(),
            old(self)@.items.len() < M,
            all_below(old(self)@.items, key),
        ensures
            final(self).wf(),
            final(self)@ == (LeafView { items: old(self)@.items.push((key, val)), ..old(self)@ }),
    {
        self.keys.push(key);
        self.vals.push(val);
        assert(self@.items =~= old(self)@.items.push((key, val)));
    }

    /// Puts a pair into slot `partition` of a leaf that has room, moving later pairs up.
    pub fn insert_unchecked(&mut self, partition: usize, key: K, val: V)
        requires
            old(self).paired(),
            partition <= old(self)@.items.len() < M,
        ensures
            final(self).paired(),
            final(self)@ == (LeafView {
                items: old(self)@.items.insert(partition as int, (key, val)),
                ..old(self)@
            }),
    {
        self.keys.insert(partition, key);
        self.vals.insert(partition, val);
        assert(self@.items =~= old(self)@.items.insert(partition as int, (key, val)));
    }

    /// Puts a pair into slot `partition` of a full leaf by splitting it: of the `M + 1` pairs the
    /// leaf keeps the lower half, rounded up, and a new right sibling takes the rest. The
    /// sibling is linked in behind the leaf.
    pub fn splitting_insert<A: NodeAllocator<K, V, M>>(
        &mut self,
        partition: usize,
        key: K,
        val: V,
        alloc: &mut A,
    ) -> (right: Addr)
        requires
            M >= 3,
            old(self).paired(),
            old(self)@.items.len() == M,
            partition <= M,
            sorted(old(self)@.items.insert(partition as int, (key, val))),
            old(alloc).wf(),
            old(alloc).rooms().leaf != Some(0nat),
        ensures
            final(alloc).wf(),
            final(alloc).rooms() == old(alloc).rooms().less(1, 0),
            !old(alloc).store().holds_leaf(right),
            final(alloc).store() == (Store {
                leaves: old(alloc).store().leaves.insert(
                    right,
                    final(alloc).store().leaves[right],
                ),
                ..old(alloc).store()
            }),
            final(self).wf(),
            final(alloc).store().leaves[right].wf(),
            ({
                let all = old(self)@.items.insert(partition as int, (key, val));
                &&& final(self)@ == (LeafView { items: all.take(half(M)), next: Some(right) })
                &&& final(alloc).store().leaves[right]@ == (LeafView {
                    items: all.skip(half(M)),
                    next: old(self)@.next,
                })
            }),
    {
        let left_count: usize = Self::min_occupancy();
        let ghost all = old(self)@.items.insert(partition as int, (key, val));
        let mut right = Self::new(self.next);
        if partition < left_count {
            // The new pair lands in the left leaf.
            right.keys = self.keys.split_off(left_count - 1);
            right.vals = self.vals.split_off(left_count - 1);
            self.insert_unchecked(partition, key, val);
        } else {
            // The new pair lands in the right leaf.
            right.keys = self.keys.split_off(left_count);
            right.vals = self.vals.split_off(left_count);
            right.keys.insert(partition - left_count, key);
            right.vals.insert(partition - left_count, val);
        }
        assert(self@.items =~= all.take(half(M)));
        assert(right@.items =~= all.skip(half(M)));
        let at = alloc.alloc_leaf(right);
        self.next = Some(at);
        assert(self@.items =~= all.take(half(M)));
        at
    }

    /// Folds the leaf that follows in the chain into this one: appends its pairs, and takes over
    /// its link.
    pub fn merge(&mut self, other: Self)
        requires
            old(self).paired(),
            other.paired(),
            old(self)@.items.len() + other@.items.len() <= M,
            sorted(old(self)@.items + other@.items),
        ensures
            final(self).wf(),
            final(self)@ == (LeafView {
                items: old(self)@.items + other@.items,
                next: other@.next,
            }),
    {
        let ghost theirs = other@;
        let mut other = other;
        if other.keys.len() == 0 {
            self.next = other.next;
            assert(self@.items =~= old(self)@.items + theirs.items);
            return ;
        }
        if self.keys.len() == 0 {
            *self = other;
            assert(self@.items =~= old(self)@.items + theirs.items);
            return ;
        }
        self.keys.append(&mut other.keys);
        self.vals.append(&mut other.vals);
        self.next = other.next;
        assert(self@.items =~= old(self)@.items + theirs.items);
    }

    /// Takes the first pair of the right sibling. Returns the new separator between the two: the
    /// sibling's new first key.
    pub fn steal_from_right(&mut self, right: &mut Self) -> (sep: K)
        requires
            old(self).wf(),
            old(right).wf(),
            old(self)@.items.len() < M,
            old(right)@.items.len() >= 2,
            sorted(old(self)@.items + old(right)@.items),
        ensures
            final(self).wf(),
            final(right).wf(),
            final(self)@ == (LeafView {
                items: old(self)@.items.push(old(right)@.items[0]),
                ..old(self)@
            }),
            final(right)@ == (LeafView { items: old(right)@.items.skip(1), ..old(right)@ }),
            sep == old(right)@.items[1].0,
    {
        let ghost both = old(self)@.items + old(right)@.items;
        let key = right.keys.remove(0);
        let val = right.vals.remove(0);
        self.keys.push(key);
        self.vals.push(val);
        assert(self@.items =~= both.take(old(self)@.items.len() as int + 1));
        assert(self@.items =~= old(self)@.items.push(old(right)@.items[0]));
        assert(right@.items =~= old(right)@.items.skip(1));
        right.keys[0]
    }

    /// Takes the last pair of the left sibling. Returns the new separator between the two: the
    /// moved key.
    pub fn steal_from_left(&mut self, left: &mut Self) -> (sep: K)
        requires
            old(self).wf(),
            old(left).wf(),
            old(self)@.items.len() < M,
            old(left)@.items.len() >= 2,
            sorted(old(left)@.items + old(self)@.items),
        ensures
            final(self).wf(),
            final(left).wf(),
            final(self)@ == (LeafView {
                items: seq![old(left)@.items.last()] + old(self)@.items,
                ..old(self)@
            }),
            final(left)@ == (LeafView { items: old(left)@.items.drop_last(), ..old(left)@ }),
            sep == old(left)@.items.last().0,
    {
        let ghost both = old(left)@.items + old(self)@.items;
        let at: usize = left.keys.len() - 1;
        let key = left.keys.remove(at);
        let val = left.vals.remove(at);
        self.keys.insert(0, key);
        self.vals.insert(0, val);
        assert(self@.items =~= both.skip(at as int));
        assert(self@.items =~= seq![old(left)@.items.last()] + old(self)@.items);
        assert(left@.items =~= old(left)@.items.drop_last());
        key
    }
}

impl<K: Key, V, const M: usize> Leaf<K, V, M> {
    /// Puts a pair with a new key into its slot `partition`, splitting the leaf if it is full.
    /// Returns where the pair came to lie, and the new right sibling if there is one.
    pub fn insert_at<A: NodeAllocator<K, V, M>>(
        &mut self,
        partition: usize,
        key: K,
        val: V,
        alloc: &mut A,
    ) -> (r: (Landed, Option<Addr>))
        requires
            M >= 3,
            ordered::<K>(),
            old(self).wf(),
            partition == rank(old(self)@.items, key),
            !has_key(old(self)@.items, key),
            old(alloc).wf(),
            old(self)@.items.len() == M ==> old(alloc).rooms().leaf != Some(0nat),
        ensures
            final(self).wf(),
            final(alloc).wf(),
            final(alloc).rooms() == (if r.1 is Some {
                old(alloc).rooms().less(1, 0)
            } else {
                old(alloc).rooms()
            }),
            r.1 is None <==> old(self)@.items.len() < M,
            r.0 == (if r.1 is None || partition < half(M) {
                Landed::Here(partition)
            } else {
                Landed::Right((partition - half(M)) as usize)
            }),
            ({
                let all = put(old(self)@.items, key, val);
                match r.1 {
                    None => {
                        &&& final(self)@ == (LeafView { items: all, ..old(self)@ })
                        &&& final(alloc).store() == old(alloc).store()
                    },
                    Some(right) => {
                        let sibling = final(alloc).store().leaves[right];
                        &&& final(self)@ == (LeafView {
                            items: all.take(half(M)),
                            next: Some(right),
                        })
                        &&& sibling.wf()
                        &&& sibling@ == (LeafView {
                            items: all.skip(half(M)),
                            next: old(self)@.next,
                        })
                        &&& !old(alloc).store().holds_leaf(right)
                        &&& final(alloc).store() == (Store {
                            leaves: old(alloc).store().leaves.insert(right, sibling),
                            ..old(alloc).store()
                        })
                    },
                }
            }),
    {
        proof {
            lemma_rank_splits(self@.items, key);
            lemma_put_sorted(self@.items, key, val);
        }
        if self.keys.len() == M {
            let right = self.splitting_insert(partition, key, val, alloc);
            let left_count: usize = Self::min_occupancy();
            if partition < left_count {
                (Landed::Here(partition), Some(right))
            } else {
                (Landed::Right(partition - left_count), Some(right))
            }
        } else {
            self.insert_unchecked(partition, key, val);
            (Landed::Here(partition), None)
        }
    }

    /// Stores `val` under `key`: replaces in place where the key is present, otherwise inserts,
    /// splitting the leaf if it is full. Returns the replaced value, and the new right sibling
    /// if there is one.
    pub fn insert<A: NodeAllocator<K, V, M>>(&mut self, key: K, val: V, alloc: &mut A) -> (r: (
        Option<V>,
        Option<Addr>,
    ))
        requires
            M >= 3,
            ordered::<K>(),
            old(self).wf(),
            old(alloc).wf(),
            old(self)@.items.len() == M && !has_key(old(self)@.items, key) ==> old(
                alloc,
            ).rooms().leaf != Some(0nat),
        ensures
            final(self).wf(),
            final(alloc).wf(),
            final(alloc).rooms() == (if r.1 is Some {
                old(alloc).rooms().less(1, 0)
            } else {
                old(alloc).rooms()
            }),
            r.0 == lookup(old(self)@.items, key),
            r.1 is None <==> has_key(old(self)@.items, key) || old(self)@.items.len() < M,
            ({
                let all = put(old(self)@.items, key, val);
                match r.1 {
                    None => {
                        &&& final(self)@ == (LeafView { items: all, ..old(self)@ })
                        &&& final(alloc).store() == old(alloc).store()
                    },
                    Some(right) => {
                        let sibling = final(alloc).store().leaves[right];
                        &&& final(self)@ == (LeafView {
                            items: all.take(half(M)),
                            next: Some(right),
                        })
                        &&& sibling.wf()
                        &&& sibling@ == (LeafView {
                            items: all.skip(half(M)),
                            next: old(self)@.next,
                        })
                        &&& !old(alloc).store().holds_leaf(right)
                        &&& final(alloc).store() == (Store {
                            leaves: old(alloc).store().leaves.insert(right, sibling),
                            ..old(alloc).store()
                        })
                    },
                }
            }),
    {
        let (partition, exact) = self.probe(&key);
        if exact {
            proof {
                lemma_put_sorted(self@.items, key, val);
            }
            let mut val = val;
            core::mem::swap(&mut self.vals[partition], &mut val);
            assert(self@.items =~= put(old(self)@.items, key, self.vals@[partition as int]));
            return (Some(val), None);
        }
        let (_, split) = self.insert_at(partition, key, val, alloc);
        (None, split)
    }

    /// The value stored under `key`.
    pub fn get(&self, key: &K) -> (r: Option<&V>)
        requires
            ordered::<K>(),
            self.paired(),
            sorted(self@.items),
        ensures
            r is Some <==> has_key(self@.items, *key),
            r matches Some(v) ==> Some(*v) == lookup(self@.items, *key),
    {
        let (partition, exact) = self.probe(key);
        if exact {
            Some(&self.vals[partition])
        } else {
            None
        }
    }

    /// The value stored under `key`, for changing it in place.
    pub fn get_mut(&mut self, key: &K) -> (r: Option<&mut V>)
        requires
            ordered::<K>(),
            old(self).wf(),
        ensures
            r is Some <==> has_key(old(self)@.items, *key),
            r is None ==> *final(self) == *old(self),
            r matches Some(v) ==> {
                &&& Some(*v) == lookup(old(self)@.items, *key)
                &&& final(self).wf()
                &&& final(self)@ == (LeafView {
                    items: put(old(self)@.items, *key, *final(v)),
                    ..old(self)@
                })
            },
    {
        let (partition, exact) = self.probe(key);
        if exact {
            Some(self.val_mut_unchecked(partition))
        } else {
            None
        }
    }

    /// Removes the pair in slot `idx`.
    pub fn remove_at(&mut self, idx: usize) -> (r: (K, V))
        requires
            old(self).wf(),
            idx < old(self)@.items.len(),
        ensures
            final(self).wf(),
            r == old(self)@.items[idx as int],
            final(self)@ == (LeafView { items: old(self)@.items.remove(idx as int), ..old(self)@ }),
    {
        let key = self.keys.remove(idx);
        let val = self.vals.remove(idx);
        assert(self@.items =~= old(self)@.items.remove(idx as int));
        (key, val)
    }

    /// Removes `key` and returns its value, if it is present.
    pub fn remove(&mut self, key: &K) -> (r: Option<V>)
        requires
            ordered::<K>(),
            old(self).wf(),
        ensures
            final(self).wf(),
            r == lookup(old(self)@.items, *key),
            final(self)@ == (LeafView { items: del(old(self)@.items, *key), ..old(self)@ }),
    {
        let (partition, exact) = self.probe(key);
        if exact {
            let (_, val) = self.remove_at(partition);
            Some(val)
        } else {
            None
        }
    }
}

} // verus!
