//! The B+tree: a sorted map over an allocator of nodes.
use crate::allocator::slab::Slabs;
use crate::allocator::{fits, Addr, AllocError, NodeAllocator, Rooms, Store};
use crate::budget::{lemma_grown_fits, lemma_slots, lemma_split_leaves, lemma_unsplit, most_leaves};
use crate::chain::{
    in_store, lemma_leaf_addrs, lemma_leaves_in_store, lemma_touch, no_repeats, same_keys,
};
use crate::entries::{del, entry, has_key, lemma_has_key, lemma_rank_splits, lookup, put, sorted};
use crate::inner::{route, Inner};
use crate::key::{group_order, lt, ordered, Key};
use crate::leaf::{Leaf, LeafView};
use crate::lemmas::{lemma_leaf_pairs, lemma_leaves_some, lemma_one, lemma_ord_pairs};
use crate::model::{
    abs, any_inner, any_leaf, chained, filled, forest, group_unfold, has_leaf, held, inner_bill,
    inner_splits, items_of, leaf_bill, leaf_splits, leaves, moved, pairs, pairs_of, replaced,
    shape, size, sound, sound_row, splits, Link, Tree,
};
use crate::node::{insert_node, remove_node};
use crate::root::{
    height_bound, lemma_crown, lemma_height_bound, lemma_leaves_filled, lemma_owned,
    lemma_swapped_one, lemma_uncrown, owned,
};
use crate::search::{
    drop_node, find_leaf_node, first_leaf_node, insert_cost, last_leaf_node, lemma_items_around,
    lemma_items_empty, lemma_owner, owns,
};
use crate::sizing::{inners, worst_inners};
use core::marker::PhantomData;
use vstd::prelude::*;

verus! {

broadcast use group_unfold;

/// A sorted map with unique keys. Its contents are the sequence of its pairs in ascending key
/// order.
///
/// `M` is the fanout: how many pairs a leaf and how many children an inner node can hold. `A` is
/// the allocator that the nodes come from.
pub struct BPlusTree<K: Key, V, const M: usize, A: NodeAllocator<K, V, M> = Slabs<K, V, M>> {
    root: Addr,
    height: u8,
    len: usize,
    alloc: A,
    marker: PhantomData<(K, V)>,
}

impl<K: Key, V, const M: usize, A: NodeAllocator<K, V, M>> View for BPlusTree<K, V, M, A> {
    type V = Seq<(K, V)>;

    closed spec fn view(&self) -> Seq<(K, V)> {
        pairs(self.tree())
    }
}

/// An allocator that a tree can start from and grow in: empty, and of a type that never runs out.
pub open spec fn fresh<K: Key, V, const M: usize, A: NodeAllocator<K, V, M>>(a: A) -> bool {
    a.wf() && a.store().is_empty() && A::endless()
}

/// An allocator that can hold so many leaves and inner nodes has room for every tree with up to `n`
/// pairs.
pub open spec fn spacious(ceilings: (Option<nat>, Option<nat>), n: nat, m: usize) -> bool {
    let leaves = most_leaves(n, m);
    fits(ceilings.0, leaves) && fits(ceilings.1, worst_inners(leaves, m))
}

/// Whatever the allocator type's default is, a tree can start from it.
pub open spec fn fresh_default<K: Key, V, const M: usize, A: NodeAllocator<K, V, M> + Default>() -> bool {
    &&& A::endless()
    &&& call_requires(A::default, ())
    &&& forall|a: A| #[trigger] call_ensures(A::default, (), a) ==> fresh::<K, V, M, A>(a)
}

impl<K: Key, V, const M: usize, A: NodeAllocator<K, V, M>> BPlusTree<K, V, M, A> {
    /// The nodes, unfolded.
    pub closed spec fn tree(&self) -> Tree<K, V> {
        abs(self.alloc.store(), self.root, self.height as nat)
    }

    /// The number of levels above the leaves.
    pub closed spec fn levels(&self) -> nat {
        self.height as nat
    }

    /// What the allocator holds.
    pub closed spec fn store(&self) -> Store<K, V, M> {
        self.alloc.store()
    }

    /// How many more nodes of each kind there is room for.
    pub closed spec fn rooms(&self) -> Rooms {
        self.alloc.rooms()
    }

    /// How many leaves and inner nodes the allocator can hold; `None` if there is no ceiling.
    pub closed spec fn ceilings(&self) -> (Option<nat>, Option<nat>) {
        (self.alloc.store().leaf_cap, self.alloc.store().inner_cap)
    }

    /// The tree's invariant: it is a sound search tree of its height, it owns every slot that is
    /// handed out, and its count of pairs is right.
    pub closed spec fn wf(&self) -> bool {
        &&& M >= 3
        &&& ordered::<K>()
        &&& self.alloc.wf()
        &&& held(self.alloc.store(), self.root, self.height as nat)
        &&& sound(self.tree(), self.height as nat, M, None, None)
        &&& self.height > 0 ==> size(self.tree()) >= 2
        &&& owned(self.alloc.store(), self.tree())
        &&& self.len == self@.len()
        &&& leaves(self.tree()).len() > 0
        &&& leaves(self.tree()).last().leaf.next is None
    }

    /// The invariant, as far as it can be told from outside: the keys ascend strictly; the nodes
    /// form a balanced search tree that keeps its occupancy bounds and its leaf chain; the store
    /// holds those nodes and no others.
    pub proof fn lemma_wf(&self)
        requires
            self.wf(),
        ensures
            M >= 3,
            ordered::<K>(),
            sorted(self@),
            self@.len() <= usize::MAX,
            self@ == pairs(self.tree()),
            sound(self.tree(), self.levels(), M, None, None),
            self.levels() > 0 ==> size(self.tree()) >= 2,
            owned(self.store(), self.tree()),
            self.levels() <= height_bound(M),
            leaves(self.tree()).len() > 0,
            leaves(self.tree()).last().leaf.next is None,
    {
        lemma_ord_pairs(self.tree(), None, None);
        lemma_height_bound(self.tree(), self.height as nat, M);
    }

    /// The slots that are handed out, counted: one for each node.
    pub proof fn lemma_slots(&self)
        requires
            self.wf(),
        ensures
            self.store().leaves.dom().len() == leaves(self.tree()).len(),
            self.store().inners.dom().len() == crate::sizing::inners(self.tree()),
    {
        crate::budget::lemma_slots(self.alloc.store(), self.root, self.height as nat);
    }

    /// The keys ascend, and no two are equal.
    pub proof fn law_ascending(&self)
        requires
            self.wf(),
        ensures
            forall|i: int, j: int|
                #![trigger self@[i], self@[j]]
                0 <= i < j < self@.len() ==> lt(self@[i].0, self@[j].0),
    {
        self.lemma_wf();
    }

    /// Every leaf links to the one with the next larger keys, and the last to none; one after the
    /// other they hold the pairs of the tree.
    pub proof fn law_linked(&self)
        requires
            self.wf(),
        ensures
            ({
                let ls = leaves(self.tree());
                &&& ls.len() > 0
                &&& forall|i: int|
                    0 <= i < ls.len() - 1 ==> (#[trigger] ls[i]).leaf.next == Some(ls[i + 1].at)
                &&& ls.last().leaf.next is None
                &&& self@ == items_of(ls)
            }),
    {
        self.lemma_chain();
        reveal(chained);
        let ls = leaves(self.tree());
        assert forall|i: int| 0 <= i < ls.len() - 1 implies (#[trigger] ls[i]).leaf.next == Some(
            ls[i + 1].at,
        ) by {
            let j = i + 1;
            assert(ls[j].at == ls[i + 1].at);
        }
    }

    /// There is room for more nodes exactly as far as those of the tree leave some: with so many
    /// more leaves and inner nodes the tree would have no more than the allocator can hold.
    pub proof fn law_room_left(&self, more_leaves: nat, more_inners: nat)
        requires
            self.wf(),
        ensures
            self.rooms().fit(more_leaves, more_inners) <==> {
                &&& self.ceilings().0 matches Some(c) ==> leaves(self.tree()).len() + more_leaves
                    <= c
                &&& self.ceilings().1 matches Some(c) ==> inners(self.tree()) + more_inners <= c
            },
    {
        self.lemma_rooms();
    }

    /// Storing a pair adds a leaf only where a full one would have to take a new key, and then one;
    /// it adds inner nodes only where it adds a leaf.
    pub proof fn law_bill(&self, key: K)
        requires
            self.wf(),
        ensures
            self.leaf_bill(key) <= 1,
            self.leaf_bill(key) == 1 ==> {
                &&& forall|i: int|
                    0 <= i < self@.len() ==> !crate::key::same((#[trigger] self@[i]).0, key)
                &&& exists|j: int|
                    0 <= j < leaves(self.tree()).len() && (#[trigger] leaves(
                        self.tree(),
                    )[j]).leaf.items.len() == M
            },
            self.leaf_bill(key) == 0 ==> self.inner_bill(key) == 0,
            self.inner_bill(key) <= self.levels() + 1,
    {
        let t = self.tree();
        self.lemma_wf();
        lemma_no_split(t, key, M);
        lemma_few_splits(t, key, self.height as nat, M);
        if leaf_splits(t, key, M) {
            lemma_unsplit(t, key, self.height as nat, M, None, None);
            lemma_has_key(self@, key);
            let j = crate::budget::full_leaf(t, key, M);
            assert(leaves(t)[j].leaf.items.len() == M);
        }
    }

    /// The room that is left: what the nodes of the tree do not fill.
    pub proof fn lemma_rooms(&self)
        requires
            self.wf(),
        ensures
            A::endless() ==> self.ceilings() == (None::<nat>, None::<nat>),
            self.rooms().leaf is Some <==> self.ceilings().0 is Some,
            self.rooms().inner is Some <==> self.ceilings().1 is Some,
            self.rooms().leaf matches Some(n) ==> n + leaves(self.tree()).len()
                == self.ceilings().0->0,
            self.rooms().inner matches Some(n) ==> n + inners(self.tree()) == self.ceilings().1->0,
    {
        self.alloc.lemma_room();
        lemma_slots(self.alloc.store(), self.root, self.height as nat);
    }

    /// With as many inner slots as the worst case for the leaf slots calls for, inner slots are
    /// never what an insertion runs out of: it is refused only when a leaf has to be split and no
    /// leaf slot is left.
    pub proof fn law_sized(&self, key: K)
        requires
            self.wf(),
            self.ceilings().0 matches Some(l) && self.ceilings().1 matches Some(i)
                && worst_inners(l, M) <= i,
        ensures
            self.rooms().fit(self.leaf_bill(key), self.inner_bill(key)) <==> !(self.leaf_bill(key)
                == 1 && self.rooms().leaf == Some(0nat)),
    {
        self.lemma_rooms();
        let t = self.tree();
        lemma_no_split(t, key, M);
        if leaf_splits(t, key, M) && self.rooms().leaf != Some(0nat) {
            lemma_grown_fits(t, key, self.height as nat, M, self.ceilings().0->0);
        }
    }

    /// In an allocator with room for every tree with up to `n` pairs, no insertion that leaves up to
    /// `n` pairs runs out of room.
    pub proof fn law_spacious(&self, key: K, n: nat)
        requires
            self.wf(),
            spacious(self.ceilings(), n, M),
            has_key(self@, key) || self@.len() < n,
        ensures
            self.rooms().fit(self.leaf_bill(key), self.inner_bill(key)),
    {
        self.lemma_rooms();
        let t = self.tree();
        lemma_no_split(t, key, M);
        if leaf_splits(t, key, M) {
            lemma_ord_pairs(t, None, None);
            lemma_unsplit(t, key, self.height as nat, M, None, None);
            lemma_split_leaves(t, key, self.height as nat, M, n);
            lemma_grown_fits(t, key, self.height as nat, M, most_leaves(n, M));
        }
    }

    /// An empty tree.
    pub fn new() -> (r: Self) where A: Default
        requires
            M >= 3,
            ordered::<K>(),
            fresh_default::<K, V, M, A>(),
        ensures
            r.wf(),
            r@ == Seq::<(K, V)>::empty(),
            r.levels() == 0,
    {
        Self::new_in(A::default())
    }

    /// An empty tree whose nodes come from `alloc`, which never runs out or has room for a leaf.
    pub fn new_in(alloc: A) -> (r: Self)
        requires
            M >= 3,
            ordered::<K>(),
            alloc.wf(),
            alloc.store().is_empty(),
            A::endless() || alloc.rooms().fit(1, 0),
        ensures
            r.wf(),
            r@ == Seq::<(K, V)>::empty(),
            r.levels() == 0,
            r.rooms() == alloc.rooms().less(1, 0),
            r.ceilings() == (alloc.store().leaf_cap, alloc.store().inner_cap),
    {
        let mut alloc = alloc;
        proof {
            alloc.lemma_room();
        }
        let leaf = Leaf::new(None);
        let root = alloc.alloc_leaf(leaf);
        let r = BPlusTree { root, height: 0, len: 0, alloc, marker: PhantomData };
        proof {
            let t = r.tree();
            lemma_leaf_pairs(t);
            lemma_one(t);
            assert(chained(leaves(t))) by {
                reveal(chained);
            }
        }
        r
    }

    /// An empty tree whose nodes come from `alloc`, which may have a ceiling. It reports if there
    /// is no room for the first leaf.
    pub fn try_new_in(alloc: A) -> (r: Result<Self, AllocError>)
        requires
            M >= 3,
            ordered::<K>(),
            alloc.wf(),
            alloc.store().is_empty(),
        ensures
            r is Ok <==> alloc.rooms().fit(1, 0),
            r matches Ok(tree) ==> {
                &&& tree.wf()
                &&& tree@ == Seq::<(K, V)>::empty()
                &&& tree.levels() == 0
                &&& tree.rooms() == alloc.rooms().less(1, 0)
                &&& tree.ceilings() == (alloc.store().leaf_cap, alloc.store().inner_cap)
            },
    {
        let mut alloc = alloc;
        match alloc.try_alloc_leaf(Leaf::new(None)) {
            Ok(root) => {
                let r = BPlusTree { root, height: 0, len: 0, alloc, marker: PhantomData };
                proof {
                    let t = r.tree();
                    lemma_leaf_pairs(t);
                    lemma_one(t);
                    assert(chained(leaves(t))) by {
                        reveal(chained);
                    }
                }
                Ok(r)
            },
            Err(_) => Err(AllocError),
        }
    }

    /// The tree of height `height` whose root is at `root`, with everything in `alloc`.
    pub(crate) fn from_parts(root: Addr, height: u8, len: usize, alloc: A) -> (r: Self)
        requires
            M >= 3,
            ordered::<K>(),
            alloc.wf(),
            held(alloc.store(), root, height as nat),
            sound(abs(alloc.store(), root, height as nat), height as nat, M, None, None),
            height > 0 ==> size(abs(alloc.store(), root, height as nat)) >= 2,
            owned(alloc.store(), abs(alloc.store(), root, height as nat)),
            len == pairs(abs(alloc.store(), root, height as nat)).len(),
            leaves(abs(alloc.store(), root, height as nat)).last().leaf.next is None,
        ensures
            r.wf(),
            r@ == pairs(abs(alloc.store(), root, height as nat)),
            r.levels() == height,
            r.tree() == abs(alloc.store(), root, height as nat),
            r.store() == alloc.store(),
    {
        proof {
            lemma_leaves_some(abs(alloc.store(), root, height as nat), height as nat, M);
        }
        BPlusTree { root, height, len, alloc, marker: PhantomData }
    }

    /// The number of pairs.
    pub fn len(&self) -> (r: usize)
        requires
            self.wf(),
        ensures
            r == self@.len(),
    {
        self.len
    }

    /// Whether there are no pairs.
    pub fn is_empty(&self) -> (r: bool)
        requires
            self.wf(),
        ensures
            r <==> self@.len() == 0,
    {
        self.len == 0
    }

    /// The number of levels above the leaves.
    pub fn height(&self) -> (r: u8)
        ensures
            r == self.levels(),
    {
        self.height
    }

    /// Where the root node is.
    pub fn root(&self) -> (r: Addr)
        ensures
            self.tree() == abs(self.store(), r, self.levels()),
    {
        self.root
    }

    /// The allocator that holds the nodes.
    pub fn allocator(&self) -> (r: &A)
        ensures
            r.store() == self.store(),
            self.wf() ==> r.wf(),
    {
        &self.alloc
    }

    /// The number of leaves that storing a pair under `key` adds.
    pub open spec fn leaf_bill(&self, key: K) -> nat {
        leaf_bill(self.tree(), key, M)
    }

    /// The number of inner nodes that storing a pair under `key` adds.
    pub open spec fn inner_bill(&self, key: K) -> nat {
        inner_bill(self.tree(), key, M)
    }

    /// Stores `val` under `key`, in an allocator that never runs out or has room for the nodes
    /// that this takes. Returns the value that was stored there before, if any; the stored key
    /// then stays as it is.
    pub fn insert(&mut self, key: K, val: V) -> (r: Option<V>)
        requires
            old(self).wf(),
            old(self)@.len() < usize::MAX || has_key(old(self)@, key),
            A::endless() || old(self).rooms().fit(
                old(self).leaf_bill(key),
                old(self).inner_bill(key),
            ),
        ensures
            final(self).wf(),
            final(self).ceilings() == old(self).ceilings(),
            r == lookup(old(self)@, key),
            final(self)@ == put(old(self)@, key, val),
    {
        proof {
            self.alloc.lemma_room();
        }
        self.commit_insert(key, val)
    }

    /// Stores `val` under `key`, if there is room for the nodes that this takes. Returns the value
    /// that was stored there before, if any. If there is no room, the pair is handed back and
    /// nothing changes.
    pub fn try_insert(&mut self, key: K, val: V) -> (r: Result<Option<V>, (K, V)>)
        requires
            old(self).wf(),
            old(self)@.len() < usize::MAX || has_key(old(self)@, key),
        ensures
            final(self).wf(),
            r is Ok <==> old(self).rooms().fit(old(self).leaf_bill(key), old(self).inner_bill(key)),
            r matches Ok(prior) ==> {
                &&& prior == lookup(old(self)@, key)
                &&& final(self)@ == put(old(self)@, key, val)
                &&& final(self).rooms() == old(self).rooms().less(
                    old(self).leaf_bill(key),
                    old(self).inner_bill(key),
                )
                &&& final(self).ceilings() == old(self).ceilings()
            },
            r matches Err(back) ==> back == (key, val) && *final(self) == *old(self),
    {
        let cost = insert_cost(
            &self.alloc,
            self.root,
            self.height,
            &key,
            Ghost(None),
            Ghost(None),
        );
        proof {
            self.lemma_wf();
            lemma_no_split(self.tree(), key, M);
        }
        if cost.leaf {
            let inners: usize = if cost.root {
                cost.inners + 1
            } else {
                cost.inners
            };
            if !self.alloc.leaves_available(1) || !self.alloc.inners_available(inners) {
                return Err((key, val));
            }
        }
        Ok(self.commit_insert(key, val))
    }

    /// Stores `val` under `key`, where there is room for the nodes that this takes.
    fn commit_insert(&mut self, key: K, val: V) -> (r: Option<V>)
        requires
            old(self).wf(),
            old(self)@.len() < usize::MAX || has_key(old(self)@, key),
            old(self).rooms().fit(old(self).leaf_bill(key), old(self).inner_bill(key)),
        ensures
            final(self).wf(),
            r == lookup(old(self)@, key),
            final(self)@ == put(old(self)@, key, val),
            final(self).rooms() == old(self).rooms().less(
                old(self).leaf_bill(key),
                old(self).inner_bill(key),
            ),
            final(self).ceilings() == old(self).ceilings(),
    {
        let ghost s = self.alloc.store();
        let ghost t = self.tree();
        let ghost h = self.height as nat;
        proof {
            self.lemma_wf();
            lemma_rank_splits(self@, key);
        }
        let (prior, split) = insert_node(
            &mut self.alloc,
            self.root,
            self.height,
            key,
            val,
            Ghost(None),
            Ghost(None),
        );
        if prior.is_none() {
            self.len = self.len + 1;
        }
        let ghost u = self.alloc.store();
        match split {
            None => {
                proof {
                    lemma_swapped_one(s, u, t, self.root, h, None, None);
                    lemma_owned(s, u, t, self.tree());
                }
            },
            Some((sep, right)) => {
                let ghost left = self.root;
                let inner = Inner::from_pair(sep, self.root, right);
                let ghost row = forest(u, seq![left, right], h);
                proof {
                    lemma_one(t);
                    assert(sound_row(seq![sep], row, h, M, None, None)) by {
                        assert(forall|i: int| 0 <= i < 2 ==> filled(row[i], M)) by {
                            assert(filled(row[0], M) && filled(row[1], M));
                        }
                    }
                }
                let root = self.alloc.alloc_inner(inner);
                proof {
                    lemma_crown(s, u, seq![t], h, root, inner, None, None);
                    let new = Tree::Inner { at: root, keys: seq![sep], kids: row };
                    assert(pairs(new) == pairs_of(row));
                    lemma_owned(s, self.alloc.store(), t, new);
                    lemma_height_bound(new, h + 1, M);
                }
                self.root = root;
                self.height = self.height + 1;
            },
        }
        prior
    }

    /// Removes `key` and returns the stored pair, if it was there.
    pub fn remove_key_value(&mut self, key: &K) -> (r: Option<(K, V)>)
        requires
            old(self).wf(),
        ensures
            final(self).wf(),
            final(self).ceilings() == old(self).ceilings(),
            r == entry(old(self)@, *key),
            final(self)@ == del(old(self)@, *key),
    {
        let ghost s = self.alloc.store();
        let ghost t = self.tree();
        let ghost h = self.height as nat;
        proof {
            self.lemma_wf();
            lemma_rank_splits(self@, *key);
        }
        let r = remove_node(
            &mut self.alloc,
            self.root,
            self.height,
            key,
            Ghost(None),
            Ghost(None),
        );
        let ghost u = self.alloc.store();
        proof {
            lemma_swapped_one(s, u, t, self.root, h, None, None);
            lemma_owned(s, u, t, abs(u, self.root, h));
        }
        if r.is_some() {
            self.len = self.len - 1;
        }
        if self.height > 0 && self.alloc.inner(self.root).len() == 1 {
            let ghost new = abs(u, self.root, h);
            proof {
                lemma_uncrown(u, self.root, (h - 1) as nat, None, None);
            }
            let shell = self.alloc.dealloc_inner(self.root);
            self.root = shell.into_only_child();
            self.height = self.height - 1;
            proof {
                lemma_owned(u, self.alloc.store(), new, self.tree());
            }
        }
        r
    }

    /// Removes `key` and returns its value, if it was there.
    pub fn remove(&mut self, key: &K) -> (r: Option<V>)
        requires
            old(self).wf(),
        ensures
            final(self).wf(),
            final(self).ceilings() == old(self).ceilings(),
            r == lookup(old(self)@, *key),
            final(self)@ == del(old(self)@, *key),
    {
        match self.remove_key_value(key) {
            Some((_, val)) => Some(val),
            None => None,
        }
    }

    /// What becomes of the tree when the leaf in place `j` changes its values.
    proof fn lemma_touched(&self, at: Addr, j: int)
        requires
            self.wf(),
            0 <= j < leaves(self.tree()).len(),
            leaves(self.tree())[j].at == at,
        ensures
            forall|x: Leaf<K, V, M>, a: A|
                #![trigger self.store().leaves.insert(at, x), a.store()]
                x.paired() && same_keys(x@, self.store().leaves[at]@) && a.wf() && a.store()
                    == (Store {
                    leaves: self.store().leaves.insert(at, x),
                    ..self.store()
                }) ==> {
                    let new = BPlusTree { alloc: a, ..*self };
                    let ls = leaves(self.tree());
                    &&& new.wf()
                    &&& leaves(new.tree()) == ls.update(j, Link { at, leaf: x@ })
                    &&& new@ == items_of(ls.take(j)) + x@.items + items_of(ls.skip(j + 1))
                },
    {
        let s = self.alloc.store();
        let t = self.tree();
        let h = self.height as nat;
        let ls = leaves(t);
        lemma_leaf_addrs(t);
        assert(has_leaf(t, ls[j].at));
        lemma_leaves_in_store(s, self.root, h, None, None);
        lemma_items_around(ls, j);
        assert forall|x: Leaf<K, V, M>, a: A|
            #![trigger s.leaves.insert(at, x), a.store()]
            x.paired() && same_keys(x@, s.leaves[at]@) && a.wf() && a.store() == (Store {
                leaves: s.leaves.insert(at, x),
                ..s
            }) implies {
            let new = BPlusTree { alloc: a, ..*self };
            &&& new.wf()
            &&& leaves(new.tree()) == ls.update(j, Link { at, leaf: x@ })
            &&& new@ == items_of(ls.take(j)) + x@.items + items_of(ls.skip(j + 1))
        } by {
            let i = lemma_touch(s, self.root, h, None, None, at, x);
            if i < j {
                assert(ls[i].at != ls[j].at);
            } else if j < i {
                assert(ls[j].at != ls[i].at);
            }
            let u = a.store();
            let new = abs(u, self.root, h);
            lemma_swapped_one(s, u, t, self.root, h, None, None);
            lemma_owned(s, u, t, new);
            let ls2 = ls.update(j, Link { at, leaf: x@ });
            lemma_items_around(ls2, j);
            assert(ls2.take(j) =~= ls.take(j));
            assert(ls2.skip(j + 1) =~= ls.skip(j + 1));
        }
    }

    /// The leaf that owns `key`. Also gives its place in the chain.
    pub(crate) fn find_leaf(&self, key: &K) -> (r: (Addr, Ghost<int>))
        requires
            self.wf(),
        ensures
            owns(leaves(self.tree()), r.1@, *key),
            leaves(self.tree())[r.1@].at == r.0,
            in_store(self.store(), leaves(self.tree())),
    {
        proof {
            lemma_leaves_in_store(self.alloc.store(), self.root, self.height as nat, None, None);
        }
        find_leaf_node(&self.alloc, self.root, self.height, key, Ghost(None), Ghost(None))
    }

    /// The first leaf of the chain.
    pub(crate) fn first_leaf(&self) -> (r: Addr)
        requires
            self.wf(),
        ensures
            leaves(self.tree()).len() > 0,
            leaves(self.tree())[0].at == r,
            in_store(self.store(), leaves(self.tree())),
    {
        proof {
            lemma_leaves_in_store(self.alloc.store(), self.root, self.height as nat, None, None);
        }
        first_leaf_node(&self.alloc, self.root, self.height)
    }

    /// The pair in slot `idx` of the leaf in place `j` of the chain, with its value for changing
    /// it in place.
    pub(crate) fn pair_mut(&mut self, at: Addr, idx: usize, Ghost(j): Ghost<int>) -> (r: (&K, &mut V))
        requires
            old(self).wf(),
            0 <= j < leaves(old(self).tree()).len(),
            leaves(old(self).tree())[j].at == at,
            idx < leaves(old(self).tree())[j].leaf.items.len(),
        ensures
            ({
                let ls = leaves(old(self).tree());
                let items = ls[j].leaf.items;
                let leaf = LeafView {
                    items: items.update(idx as int, (items[idx as int].0, *final(r.1))),
                    ..ls[j].leaf
                };
                &&& (*r.0, *r.1) == items[idx as int]
                &&& final(self).wf()
                &&& final(self).ceilings() == old(self).ceilings()
                &&& leaves(final(self).tree()) == ls.update(j, Link { at, leaf })
                &&& final(self)@ == old(self)@.update(
                    items_of(ls.take(j)).len() + idx,
                    (items[idx as int].0, *final(r.1)),
                )
            }),
    {
        proof {
            self.lemma_touched(at, j);
            lemma_leaves_in_store(self.alloc.store(), self.root, self.height as nat, None, None);
            let ls = leaves(self.tree());
            lemma_items_around(ls, j);
            let items = ls[j].leaf.items;
            assert forall|p: (K, V)| #[trigger] items.update(idx as int, p) == items.update(
                idx as int,
                p,
            ) && items_of(ls.take(j)) + items.update(idx as int, p) + items_of(ls.skip(j + 1))
                == items_of(ls).update(items_of(ls.take(j)).len() + idx, p) by {
                assert(items_of(ls.take(j)) + items.update(idx as int, p) + items_of(
                    ls.skip(j + 1),
                ) =~= items_of(ls).update(items_of(ls.take(j)).len() + idx, p));
            }
        }
        self.alloc.leaf_mut(at).kv_mut_unchecked(idx)
    }

    /// The leaf chain: every leaf is in the store and links to the next, and the last to none.
    pub proof fn lemma_chain(&self)
        requires
            self.wf(),
        ensures
            self@ == items_of(leaves(self.tree())),
            in_store(self.store(), leaves(self.tree())),
            chained(leaves(self.tree())),
            leaves(self.tree()).len() > 0,
            leaves(self.tree()).last().leaf.next is None,
            no_repeats(leaves(self.tree())),
    {
        lemma_leaves_in_store(self.alloc.store(), self.root, self.height as nat, None, None);
        lemma_leaf_addrs(self.tree());
    }

    /// The value stored under `key`.
    pub fn get(&self, key: &K) -> (r: Option<&V>)
        requires
            self.wf(),
        ensures
            r is Some <==> has_key(self@, *key),
            r matches Some(v) ==> Some(*v) == lookup(self@, *key),
    {
        let (at, Ghost(j)) = self.find_leaf(key);
        proof {
            lemma_owner(leaves(self.tree()), j, *key);
        }
        self.alloc.leaf(at).get(key)
    }

    /// The value stored under `key`, for changing it in place.
    pub fn get_mut(&mut self, key: &K) -> (r: Option<&mut V>)
        requires
            old(self).wf(),
        ensures
            r is Some <==> has_key(old(self)@, *key),
            r is None ==> *final(self) == *old(self),
            r matches Some(v) ==> {
                &&& Some(*v) == lookup(old(self)@, *key)
                &&& final(self).wf()
                &&& final(self).ceilings() == old(self).ceilings()
                &&& final(self)@ == put(old(self)@, *key, *final(v))
            },
    {
        let ghost s = self.alloc.store();
        let ghost t = self.tree();
        let ghost h = self.height as nat;
        let ghost ls = leaves(t);
        let (at, Ghost(j)) = self.find_leaf(key);
        proof {
            lemma_owner(ls, j, *key);
            lemma_leaf_addrs(t);
            assert(has_leaf(t, ls[j].at));
        }
        if !self.alloc.leaf(at).probe(key).1 {
            return None;
        }
        proof {
            self.lemma_touched(at, j);
        }
        let leaf = self.alloc.leaf_mut(at);
        leaf.get_mut(key)
    }

    /// Whether `key` is present.
    pub fn contains_key(&self, key: &K) -> (r: bool)
        requires
            self.wf(),
        ensures
            r <==> has_key(self@, *key),
    {
        self.get(key).is_some()
    }

    /// The stored pair whose key equals `key`.
    pub fn get_key_value(&self, key: &K) -> (r: Option<(&K, &V)>)
        requires
            self.wf(),
        ensures
            r is Some <==> has_key(self@, *key),
            r matches Some((k, v)) ==> Some((*k, *v)) == entry(self@, *key),
    {
        let (at, Ghost(j)) = self.find_leaf(key);
        let ghost ls = leaves(self.tree());
        proof {
            lemma_owner(ls, j, *key);
            lemma_items_around(ls, j);
        }
        let leaf = self.alloc.leaf(at);
        let (partition, exact) = leaf.probe(key);
        if exact {
            Some(leaf.kv_ref_unchecked(partition))
        } else {
            None
        }
    }

    /// The pair with the smallest key.
    pub fn first_key_value(&self) -> (r: Option<(&K, &V)>)
        requires
            self.wf(),
        ensures
            r is Some <==> self@.len() > 0,
            r matches Some((k, v)) ==> (*k, *v) == self@[0],
    {
        let at = self.first_leaf();
        let ghost ls = leaves(self.tree());
        proof {
            lemma_items_around(ls, 0);
            lemma_items_empty(ls.take(0));
            if self.height > 0 {
                lemma_leaves_filled(self.tree(), self.height as nat, M);
            } else {
                lemma_leaf_pairs(self.tree());
            }
        }
        let leaf = self.alloc.leaf(at);
        if leaf.len() > 0 {
            Some(leaf.kv_ref_unchecked(0))
        } else {
            None
        }
    }

    /// The pair with the largest key.
    pub fn last_key_value(&self) -> (r: Option<(&K, &V)>)
        requires
            self.wf(),
        ensures
            r is Some <==> self@.len() > 0,
            r matches Some((k, v)) ==> (*k, *v) == self@.last(),
    {
        let at = last_leaf_node(&self.alloc, self.root, self.height);
        let ghost ls = leaves(self.tree());
        proof {
            lemma_leaves_in_store(self.alloc.store(), self.root, self.height as nat, None, None);
            let l = ls.len() - 1;
            lemma_items_around(ls, l);
            lemma_items_empty(ls.skip(l + 1));
            if self.height > 0 {
                lemma_leaves_filled(self.tree(), self.height as nat, M);
            } else {
                lemma_leaf_pairs(self.tree());
            }
        }
        let leaf = self.alloc.leaf(at);
        let n: usize = leaf.len();
        if n > 0 {
            Some(leaf.kv_ref_unchecked(n - 1))
        } else {
            None
        }
    }

    /// Removes and returns the pair with the smallest key.
    pub fn pop_first(&mut self) -> (r: Option<(K, V)>)
        requires
            old(self).wf(),
        ensures
            final(self).wf(),
            final(self).ceilings() == old(self).ceilings(),
            r is Some <==> old(self)@.len() > 0,
            r is None ==> final(self)@ == old(self)@,
            r matches Some(p) ==> p == old(self)@[0] && final(self)@ == old(self)@.skip(1),
    {
        let first = match self.first_key_value() {
            Some((k, _)) => *k,
            None => {
                return None;
            },
        };
        proof {
            self.lemma_wf();
            lemma_same_self(first);
            assert(crate::key::same(self@[0].0, first));
            lemma_has_key(self@, first);
            assert(self@.remove(0) =~= self@.skip(1));
        }
        self.remove_key_value(&first)
    }

    /// Removes and returns the pair with the largest key.
    pub fn pop_last(&mut self) -> (r: Option<(K, V)>)
        requires
            old(self).wf(),
        ensures
            final(self).wf(),
            final(self).ceilings() == old(self).ceilings(),
            r is Some <==> old(self)@.len() > 0,
            r is None ==> final(self)@ == old(self)@,
            r matches Some(p) ==> p == old(self)@.last() && final(self)@ == old(self)@.drop_last(),
    {
        let last = match self.last_key_value() {
            Some((k, _)) => *k,
            None => {
                return None;
            },
        };
        proof {
            self.lemma_wf();
            lemma_same_self(last);
            assert(crate::key::same(self@[self@.len() - 1].0, last));
            lemma_has_key(self@, last);
            assert(self@.remove(self@.len() - 1) =~= self@.drop_last());
        }
        self.remove_key_value(&last)
    }

    /// Removes every pair. The nodes are taken down one by one before the allocator forgets their
    /// slots, so every value is dropped.
    pub fn clear(&mut self)
        requires
            old(self).wf(),
        ensures
            final(self).wf(),
            final(self).ceilings() == old(self).ceilings(),
            final(self)@ == Seq::<(K, V)>::empty(),
            final(self).levels() == 0,
    {
        let ghost s = self.alloc.store();
        let ghost t = self.tree();
        proof {
            self.alloc.lemma_room();
            self.lemma_chain();
            let a = leaves(t)[0].at;
            assert(s.leaves.dom().contains(a));
            assert(s.leaf_cap is Some ==> s.leaves.dom().len() > 0) by {
                if s.leaves.dom().finite() && s.leaves.dom().len() == 0 {
                    s.leaves.dom().lemma_len0_is_empty();
                }
            }
        }
        drop_node(&mut self.alloc, self.root, self.height);
        proof {
            lemma_all_gone(s, self.alloc.store(), t);
        }
        self.alloc.reclaim_all();
        proof {
            let u = self.alloc.store();
            self.alloc.lemma_room();
            assert(u.leaves.dom() =~= Set::<Addr>::empty());
        }
        let leaf = Leaf::new(None);
        self.root = self.alloc.alloc_leaf(leaf);
        self.height = 0;
        self.len = 0;
        proof {
            let t = self.tree();
            lemma_leaf_pairs(t);
            lemma_one(t);
            assert(chained(leaves(t))) by {
                reveal(chained);
            }
        }
    }
}

/// Where no leaf is split, nothing else is.
proof fn lemma_no_split<K: Key, V>(t: Tree<K, V>, k: K, m: usize)
    ensures
        !leaf_splits(t, k, m) ==> inner_splits(t, k, m) == 0 && !splits(t, k, m),
    decreases t,
{
    if let Tree::Inner { at, keys, kids } = t {
        if route(keys, k) < kids.len() {
            lemma_no_split(kids[route(keys, k) as int], k, m);
        }
    }
}

/// No more inner nodes are split than there are levels of them.
proof fn lemma_few_splits<K: Key, V>(t: Tree<K, V>, k: K, h: nat, m: usize)
    requires
        shape(t, h, m),
    ensures
        inner_splits(t, k, m) <= h,
    decreases t,
{
    if let Tree::Inner { at, keys, kids } = t {
        if route(keys, k) < kids.len() {
            assert(shape(kids[route(keys, k) as int], (h - 1) as nat, m));
            lemma_few_splits(kids[route(keys, k) as int], k, (h - 1) as nat, m);
        }
    }
}

/// A key equals itself.
proof fn lemma_same_self<K: Key>(k: K)
    requires
        ordered::<K>(),
    ensures
        crate::key::same(k, k),
{
    broadcast use group_order;

}

/// When the tree that owns the store goes, nothing is left.
proof fn lemma_all_gone<K: Key, V, const M: usize>(
    s: Store<K, V, M>,
    u: Store<K, V, M>,
    t: Tree<K, V>,
)
    requires
        owned(s, t),
        replaced(s, u, seq![t], Seq::<Tree<K, V>>::empty()),
    ensures
        u.is_empty(),
{
    reveal(moved);
    lemma_one(t);
    assert forall|a: Addr| !u.leaves.dom().contains(a) && !u.inners.dom().contains(a) by {
        reveal(any_leaf);
        reveal(any_inner);
    }
    assert(u.leaves =~= Map::<Addr, Leaf<K, V, M>>::empty());
    assert(u.inners =~= Map::<Addr, Inner<K, V, M>>::empty());
}

} // verus!
