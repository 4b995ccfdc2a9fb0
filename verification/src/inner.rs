//! Inner nodes: child handles and the separator keys between them.
use crate::allocator::{Addr, NodeAllocator, Store};
use crate::key::{group_order, key_lt, lt, ordered, Key};
use crate::leaf::half;
use core::marker::PhantomData;
use vstd::prelude::*;

verus! {

/// The keys ascend strictly.
pub open spec fn ascending<K: Key>(keys: Seq<K>) -> bool {
    forall|i: int, j: int|
        #![trigger keys[i], keys[j]]
        0 <= i < j < keys.len() ==> lt(keys[i], keys[j])
}

/// The number of separators at or below `k`: the index of the child that owns `k`.
pub open spec fn route<K: Key>(keys: Seq<K>, k: K) -> nat
    decreases keys.len(),
{
    if keys.len() == 0 {
        0
    } else if lt(k, keys.last()) {
        route(keys.drop_last(), k)
    } else {
        route(keys.drop_last(), k) + 1
    }
}

/// Where the separators at or below `k` end, there `k` is routed.
pub proof fn lemma_route_at<K: Key>(keys: Seq<K>, k: K, at: int)
    requires
        0 <= at <= keys.len(),
        forall|i: int| 0 <= i < at ==> !lt(k, #[trigger] keys[i]),
        forall|i: int| at <= i < keys.len() ==> lt(k, #[trigger] keys[i]),
    ensures
        route(keys, k) == at,
    decreases keys.len(),
{
    if keys.len() > 0 {
        let front = keys.drop_last();
        assert(forall|i: int| 0 <= i < front.len() ==> front[i] == keys[i]);
        if at == keys.len() {
            lemma_route_at(front, k, at - 1);
        } else {
            lemma_route_at(front, k, at);
        }
    }
}

/// Among ascending separators, those before the routed child are at or below `k`, and the
/// others above it.
pub proof fn lemma_route_splits<K: Key>(keys: Seq<K>, k: K)
    requires
        ordered::<K>(),
        ascending(keys),
    ensures
        route(keys, k) <= keys.len(),
        forall|i: int| 0 <= i < route(keys, k) ==> !lt(k, #[trigger] keys[i]),
        forall|i: int| route(keys, k) <= i < keys.len() ==> lt(k, #[trigger] keys[i]),
    decreases keys.len(),
{
    broadcast use group_order;

    if keys.len() > 0 {
        let front = keys.drop_last();
        assert(forall|i: int| 0 <= i < front.len() ==> front[i] == keys[i]);
        lemma_route_splits(front, k);
        let r = route(front, k) as int;
        if !lt(k, keys.last()) && r < front.len() {
            assert(lt(k, front[r]));
            assert(lt(keys[r], keys.last()));
        }
    }
}

/// An inner node's contents: `kids[i]` and `kids[i + 1]` are separated by `keys[i]`.
#[verifier::ext_equal]
pub struct InnerView<K> {
    pub keys: Seq<K>,
    pub kids: Seq<Addr>,
}

impl<K: Key> InnerView<K> {
    /// There is a separator between any two neighbours, and the separators ascend.
    pub open spec fn separated(self) -> bool {
        &&& self.kids.len() == self.keys.len() + 1
        &&& ascending(self.keys)
    }

    /// With `child` adopted as the right sibling of the child at `partition`.
    pub open spec fn adopt(self, partition: int, sep: K, child: Addr) -> InnerView<K> {
        InnerView {
            keys: self.keys.insert(partition, sep),
            kids: self.kids.insert(partition + 1, child),
        }
    }

    /// The first `n` children and the separators between them.
    pub open spec fn take(self, n: int) -> InnerView<K> {
        InnerView { keys: self.keys.take(n - 1), kids: self.kids.take(n) }
    }

    /// The children from the `n`th on and the separators between them.
    pub open spec fn skip(self, n: int) -> InnerView<K> {
        InnerView { keys: self.keys.skip(n), kids: self.kids.skip(n) }
    }

    /// Two nodes side by side with `sep` between them.
    pub open spec fn join(self, sep: K, other: InnerView<K>) -> InnerView<K> {
        InnerView { keys: self.keys.push(sep) + other.keys, kids: self.kids + other.kids }
    }
}

/// An inner (routing) node: child handles and the separator keys between them. `keys[i]` is above
/// every key under child `i`, and not above any key under child `i + 1`.
pub struct Inner<K: Key, V, const M: usize> {
    keys: Vec<K>,
    children: Vec<Addr>,
    marker: PhantomData<V>,
}

impl<K: Key, V, const M: usize> View for Inner<K, V, M> {
    type V = InnerView<K>;

    closed spec fn view(&self) -> InnerView<K> {
        InnerView { keys: self.keys@, kids: self.children@ }
    }
}

impl<K: Key, V, const M: usize> Inner<K, V, M> {
    /// The node's own invariant: between 1 and `M` children with ascending separators between
    /// them.
    pub open spec fn wf(&self) -> bool {
        self@.separated() && self@.kids.len() <= M
    }

    /// The fewest children that an inner node other than the root may hold. It agrees with
    /// splitting (both halves of a split reach it) and with merging (a node one short of it and
    /// a sibling at it fit into one node).
    pub fn min_occupancy() -> (r: usize)
        ensures
            r == half(M),
    {
        M / 2 + M % 2
    }

    /// A node without children, to be filled before it joins a tree.
    fn new() -> (r: Self)
        ensures
            r@ == (InnerView { keys: Seq::<K>::empty(), kids: Seq::<Addr>::empty() }),
    {
        Inner { keys: Vec::new(), children: Vec::new(), marker: PhantomData }
    }

    /// A node of two children.
    pub fn from_pair(sep: K, left: Addr, right: Addr) -> (r: Self)
        requires
            M >= 3,
        ensures
            r.wf(),
            r@ == (InnerView { keys: seq![sep], kids: seq![left, right] }),
    {
        let mut r = Self::new();
        r.keys.push(sep);
        r.children.push(left);
        r.children.push(right);
        assert(r@.keys =~= seq![sep]);
        assert(r@.kids =~= seq![left, right]);
        r
    }

    /// A node of one child, the seed that a bulk loader appends to.
    pub fn from_first_child(child: Addr) -> (r: Self)
        requires
            M >= 3,
        ensures
            r.wf(),
            r@ == (InnerView { keys: Seq::<K>::empty(), kids: seq![child] }),
    {
        let mut r = Self::new();
        r.children.push(child);
        assert(r@.kids =~= seq![child]);
        r
    }

    /// Appends `child` as the last child, with `sep` as the separator on its left.
    pub fn raw_append_child(&mut self, sep: K, child: Addr)
        requires
            old(self).wf(),
            old(self)@.kids.len() < M,
            forall|i: int| 0 <= i < old(self)@.keys.len() ==> lt(#[trigger] old(self)@.keys[i], sep),
        ensures
            final(self).wf(),
            final(self)@ == (InnerView {
                keys: old(self)@.keys.push(sep),
                kids: old(self)@.kids.push(child),
            }),
    {
        self.keys.push(sep);
        self.children.push(child);
    }

    /// Assembles a node from its children and the separators between them.
    pub fn from_parts(keys: Vec<K>, children: Vec<Addr>) -> (r: Self)
        requires
            2 <= children@.len() <= M,
            children@.len() == keys@.len() + 1,
            ascending(keys@),
        ensures
            r.wf(),
            r@ == (InnerView { keys: keys@, kids: children@ }),
    {
        Inner { keys, children, marker: PhantomData }
    }

    /// The number of separators.
    pub fn key_count(&self) -> (r: usize)
        ensures
            r == self@.keys.len(),
    {
        self.keys.len()
    }

    /// The number of children.
    pub fn len(&self) -> (r: usize)
        ensures
            r == self@.kids.len(),
    {
        self.children.len()
    }

    /// The node holds fewer children than an inner node other than the root may.
    pub fn is_deficient(&self) -> (r: bool)
        ensures
            r <==> self@.kids.len() < half(M),
    {
        self.children.len() < Self::min_occupancy()
    }

    /// The separators, in order.
    pub fn keys_ref(&self) -> (r: &[K])
        ensures
            r@ == self@.keys,
    {
        self.keys.as_slice()
    }

    /// The children, in order.
    pub fn children_ref(&self) -> (r: &[Addr])
        ensures
            r@ == self@.kids,
    {
        self.children.as_slice()
    }

    /// Replaces the separator at `idx`.
    pub fn set_key(&mut self, idx: usize, sep: K)
        requires
            idx < old(self)@.keys.len(),
        ensures
            final(self)@ == (InnerView {
                keys: old(self)@.keys.update(idx as int, sep),
                ..old(self)@
            }),
    {
        self.keys[idx] = sep;
    }

    /// Takes out the child at `idx + 1` with the separator on its left.
    pub fn remove_right_of(&mut self, idx: usize) -> (r: (K, Addr))
        requires
            old(self).wf(),
            idx + 1 < old(self)@.kids.len(),
        ensures
            r.0 == old(self)@.keys[idx as int],
            r.1 == old(self)@.kids[idx + 1],
            final(self)@ == (InnerView {
                keys: old(self)@.keys.remove(idx as int),
                kids: old(self)@.kids.remove(idx + 1),
            }),
    {
        let sep = self.keys.remove(idx);
        let child = self.children.remove(idx + 1);
        (sep, child)
    }

    /// The index of the child that owns `key`: the number of separators at or below it.
    pub fn child_idx_for_key(&self, key: &K) -> (r: usize)
        requires
            ordered::<K>(),
            self@.separated(),
        ensures
            r == route(self@.keys, *key),
            r < self@.kids.len(),
    {
        let mut count: usize = 0;
        let mut i: usize = 0;
        while i < self.keys.len()
            invariant
                ordered::<K>(),
                ascending(self@.keys),
                count <= i <= self.keys.len(),
                forall|j: int| 0 <= j < count ==> !lt(*key, #[trigger] self@.keys[j]),
                forall|j: int| count <= j < i ==> lt(*key, #[trigger] self@.keys[j]),
            decreases self.keys.len() - i,
        {
            broadcast use group_order;

            assert(self@.keys[i as int] == self.keys@[i as int]);
            if !key_lt(key, &self.keys[i]) {
                if count < i {
                    assert(lt(self@.keys[count as int], self@.keys[i as int]));
                }
                count = count + 1;
            }
            i = i + 1;
        }
        proof {
            lemma_route_at(self@.keys, *key, count as int);
        }
        count
    }

    /// The child that owns `key`.
    pub fn child_for_key(&self, key: &K) -> (r: Addr)
        requires
            ordered::<K>(),
            self.wf(),
        ensures
            r == self@.kids[route(self@.keys, *key) as int],
    {
        self.children[self.child_idx_for_key(key)]
    }
}

impl<K: Key, V, const M: usize> Inner<K, V, M> {
    /// Puts `child` into child slot `child_idx`, with `sep` as the separator on its left, in a
    /// node that has room.
    pub fn insert_child_unchecked(&mut self, child_idx: usize, sep: K, child: Addr)
        requires
            old(self)@.kids.len() == old(self)@.keys.len() + 1,
            old(self)@.kids.len() < M,
            1 <= child_idx <= old(self)@.kids.len(),
        ensures
            final(self)@ == old(self)@.adopt(child_idx - 1, sep, child),
    {
        self.keys.insert(child_idx - 1, sep);
        self.children.insert(child_idx, child);
    }

    /// Adopts `child`, the new right sibling of the child at `partition`, into a full node by
    /// splitting it: of the `M + 1` children the node keeps the lower half of `M`, rounded up,
    /// and a new right sibling takes the rest. The separator between the halves is promoted: it
    /// stands in neither, and is returned with the sibling.
    pub fn splitting_insert_child<A: NodeAllocator<K, V, M>>(
        &mut self,
        partition: usize,
        sep: K,
        child: Addr,
        alloc: &mut A,
    ) -> (r: (K, Addr))
        requires
            M >= 3,
            old(self).wf(),
            old(self)@.kids.len() == M,
            partition < M,
            ascending(old(self)@.keys.insert(partition as int, sep)),
            old(alloc).wf(),
            old(alloc).rooms().inner != Some(0nat),
        ensures
            final(alloc).wf(),
            final(alloc).rooms() == old(alloc).rooms().less(0, 1),
            !old(alloc).store().holds_inner(r.1),
            final(alloc).store() == (Store {
                inners: old(alloc).store().inners.insert(r.1, final(alloc).store().inners[r.1]),
                ..old(alloc).store()
            }),
            final(self).wf(),
            final(alloc).store().inners[r.1].wf(),
            ({
                let all = old(self)@.adopt(partition as int, sep, child);
                &&& final(self)@ == all.take(half(M))
                &&& r.0 == all.keys[half(M) - 1]
                &&& final(alloc).store().inners[r.1]@ == all.skip(half(M))
            }),
    {
        let ghost all = old(self)@.adopt(partition as int, sep, child);
        let left_count: usize = Self::min_occupancy() - 1;
        let mut right = Self::new();
        let promoted: K;
        if partition < left_count {
            // The new child stays in the left node.
            right.keys = self.keys.split_off(left_count);
            right.children = self.children.split_off(left_count);
            promoted = self.keys.remove(left_count - 1);
            self.insert_child_unchecked(partition + 1, sep, child);
            assert(promoted == all.keys[half(M) - 1]);
        } else if partition == left_count {
            // The new child becomes the first of the right node, and its separator is promoted.
            right.keys = self.keys.split_off(left_count);
            right.children = self.children.split_off(left_count + 1);
            right.children.insert(0, child);
            promoted = sep;
        } else {
            // The new child belongs in the right node, behind its first child.
            right.keys = self.keys.split_off(left_count + 1);
            right.children = self.children.split_off(left_count + 1);
            promoted = self.keys.remove(left_count);
            right.keys.insert(partition - left_count - 1, sep);
            right.children.insert(partition - left_count, child);
        }
        assert(self@.keys =~= all.take(half(M)).keys);
        assert(self@.kids =~= all.take(half(M)).kids);
        assert(right@.keys =~= all.skip(half(M)).keys);
        assert(right@.kids =~= all.skip(half(M)).kids);
        let at = alloc.alloc_inner(right);
        (promoted, at)
    }

    /// Adopts `child`, the new right sibling of the child at `partition`, splitting the node if
    /// it is full. Returns the promoted separator and the node's own new right sibling if it
    /// was split.
    pub fn insert_child<A: NodeAllocator<K, V, M>>(
        &mut self,
        partition: usize,
        sep: K,
        child: Addr,
        alloc: &mut A,
    ) -> (r: Option<(K, Addr)>)
        requires
            M >= 3,
            old(self).wf(),
            partition < old(self)@.kids.len(),
            ascending(old(self)@.keys.insert(partition as int, sep)),
            old(alloc).wf(),
            old(self)@.kids.len() == M ==> old(alloc).rooms().inner != Some(0nat),
        ensures
            final(self).wf(),
            final(alloc).wf(),
            final(alloc).rooms() == (if r is Some {
                old(alloc).rooms().less(0, 1)
            } else {
                old(alloc).rooms()
            }),
            r is None <==> old(self)@.kids.len() < M,
            ({
                let all = old(self)@.adopt(partition as int, sep, child);
                match r {
                    None => {
                        &&& final(self)@ == all
                        &&& final(alloc).store() == old(alloc).store()
                    },
                    Some((promoted, right)) => {
                        let sibling = final(alloc).store().inners[right];
                        &&& final(self)@ == all.take(half(M))
                        &&& promoted == all.keys[half(M) - 1]
                        &&& sibling.wf()
                        &&& sibling@ == all.skip(half(M))
                        &&& !old(alloc).store().holds_inner(right)
                        &&& final(alloc).store() == (Store {
                            inners: old(alloc).store().inners.insert(right, sibling),
                            ..old(alloc).store()
                        })
                    },
                }
            }),
    {
        if self.children.len() < M {
            self.insert_child_unchecked(partition + 1, sep, child);
            None
        } else {
            Some(self.splitting_insert_child(partition, sep, child, alloc))
        }
    }

    /// Folds the right sibling into this node. The separator between the two is demoted: it
    /// becomes the separator between this node's last child and the sibling's first.
    pub fn merge(&mut self, sep: K, other: Self)
        requires
            old(self).wf(),
            other.wf(),
            old(self)@.kids.len() + other@.kids.len() <= M,
            ascending(old(self)@.join(sep, other@).keys),
        ensures
            final(self).wf(),
            final(self)@ == old(self)@.join(sep, other@),
    {
        let ghost theirs = other@;
        let mut other = other;
        self.keys.push(sep);
        self.keys.append(&mut other.keys);
        self.children.append(&mut other.children);
        assert(self@ =~= old(self)@.join(sep, theirs));
    }

    /// The child of a node that has only one.
    pub fn into_only_child(self) -> (r: Addr)
        requires
            self@.kids.len() == 1,
        ensures
            r == self@.kids[0],
    {
        self.children[0]
    }

    /// Takes the first child of the right sibling. `sep`, the separator between the two, is
    /// demoted to this node's last; the sibling's first separator is promoted and returned.
    pub fn rotate_from_right(&mut self, sep: K, right: &mut Self) -> (promoted: K)
        requires
            old(self).wf(),
            old(right).wf(),
            old(self)@.kids.len() < M,
            old(right)@.kids.len() >= 2,
            ascending(old(self)@.join(sep, old(right)@).keys),
        ensures
            final(self).wf(),
            final(right).wf(),
            final(self)@ == (InnerView {
                keys: old(self)@.keys.push(sep),
                kids: old(self)@.kids.push(old(right)@.kids[0]),
            }),
            final(right)@ == old(right)@.skip(1),
            promoted == old(right)@.keys[0],
    {
        let ghost both = old(self)@.join(sep, old(right)@).keys;
        let promoted = right.keys.remove(0);
        let child = right.children.remove(0);
        self.keys.push(sep);
        self.children.push(child);
        assert(self@.keys =~= both.take(old(self)@.keys.len() as int + 1));
        assert(right@ =~= old(right)@.skip(1));
        promoted
    }

    /// Takes the last child of the left sibling. `sep`, the separator between the two, is
    /// demoted to this node's first; the sibling's last separator is promoted and returned.
    pub fn rotate_from_left(&mut self, sep: K, left: &mut Self) -> (promoted: K)
        requires
            old(self).wf(),
            old(left).wf(),
            old(self)@.kids.len() < M,
            old(left)@.kids.len() >= 2,
            ascending(old(left)@.join(sep, old(self)@).keys),
        ensures
            final(self).wf(),
            final(left).wf(),
            final(self)@ == (InnerView {
                keys: seq![sep] + old(self)@.keys,
                kids: seq![old(left)@.kids.last()] + old(self)@.kids,
            }),
            final(left)@ == old(left)@.take(old(left)@.kids.len() - 1),
            promoted == old(left)@.keys.last(),
    {
        let ghost both = old(left)@.join(sep, old(self)@).keys;
        let last: usize = left.children.len() - 1;
        let promoted = left.keys.remove(last - 1);
        let child = left.children.remove(last);
        self.keys.insert(0, sep);
        self.children.insert(0, child);
        assert(self@.keys =~= both.skip(old(left)@.keys.len() as int));
        assert(self@.keys =~= seq![sep] + old(self)@.keys);
        assert(self@.kids =~= seq![child] + old(self)@.kids);
        assert(left@ =~= old(left)@.take(old(left)@.kids.len() - 1));
        promoted
    }
}

} // verus!
