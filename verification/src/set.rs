//! Sorted sets: trees whose values are all `()`.
use crate::allocator::slab::Slabs;
use crate::allocator::{NodeAllocator, Rooms};
use crate::entries::{
    has_key, lemma_has_key, lemma_put_sorted, lemma_rank_at, lemma_rank_bound, lemma_rank_splits,
    put, rank, sorted,
};
use crate::inner::ascending;
use crate::iter::{refs, window, Bound, FullIterator, Range, Walk};
use crate::key::{group_order, lt, ordered, same, Key};
use crate::load::compact;
use crate::merge::{
    among, both, either, lemma_both, lemma_both_len, lemma_either, lemma_map_both, lemma_map_either,
    lemma_map_only_first, lemma_map_only_one, lemma_only_first, lemma_only_first_len,
    lemma_only_one, only_first, only_one, rising,
};
use crate::model::Tree;
use crate::owned::put_all;
use crate::set_iter::{
    key_fn, lefts, Copies, Difference, Intersection, Iter, KeyWalk, Listed, SymmetricDifference,
    Union,
};
use crate::set_laws::{law_own_copy, law_picked};
use crate::tree::{fresh, fresh_default, spacious, BPlusTree};
use vstd::prelude::*;
use vstd::std_specs::iter::{IteratorSpec, IteratorSpecImpl};

verus! {

/// The keys, each paired with a unit value.
pub open spec fn paired<K>(ks: Seq<K>) -> Seq<(K, ())> {
    ks.map_values(|k: K| (k, ()))
}

/// The keys of the pairs.
pub open spec fn keys_of<K>(ps: Seq<(K, ())>) -> Seq<K> {
    ps.map_values(|p: (K, ())| p.0)
}

/// A key is its own key.
pub open spec fn plain<K>() -> spec_fn(K) -> K {
    |k: K| k
}

/// The run holds a key equal to `k`.
pub open spec fn holds<K: Key>(ks: Seq<K>, k: K) -> bool {
    among(ks, plain(), k)
}

/// The number of keys of the run that sort before `k`: the place where `k` is, or belongs.
pub open spec fn place<K: Key>(ks: Seq<K>, k: K) -> nat {
    rank(paired(ks), k)
}

/// The run's own copy of `k`.
pub open spec fn stored<K: Key>(ks: Seq<K>, k: K) -> Option<K> {
    if holds(ks, k) {
        Some(ks[place(ks, k) as int])
    } else {
        None
    }
}

/// The run with `k` in it. A key that is present stays as it is.
pub open spec fn with_key<K: Key>(ks: Seq<K>, k: K) -> Seq<K> {
    if holds(ks, k) {
        ks
    } else {
        ks.insert(place(ks, k) as int, k)
    }
}

/// The run without `k`.
pub open spec fn without_key<K: Key>(ks: Seq<K>, k: K) -> Seq<K> {
    if holds(ks, k) {
        ks.remove(place(ks, k) as int)
    } else {
        ks
    }
}

/// The run after the keys of `more` were put into it one after the other.
pub open spec fn with_all<K: Key>(ks: Seq<K>, more: Seq<K>) -> Seq<K>
    decreases more.len(),
{
    if more.len() == 0 {
        ks
    } else {
        with_key(with_all(ks, more.drop_last()), more.last())
    }
}

/// References to the keys.
pub open spec fn borrowed<'a, K>(ks: Seq<K>) -> Seq<&'a K> {
    ks.map_values(|k: K| &k)
}

/// What is known of the pairs of a set.
proof fn lemma_units<K: Key>(ps: Seq<(K, ())>)
    requires
        ordered::<K>(),
        sorted(ps),
    ensures
        paired(keys_of(ps)) == ps,
        ascending(keys_of(ps)),
        forall|k: K|
            #![trigger has_key(ps, k)]
            #![trigger holds(keys_of(ps), k)]
            has_key(ps, k) <==> holds(keys_of(ps), k),
        forall|k: K| #[trigger] rank(ps, k) <= ps.len(),
{
    let ks = keys_of(ps);
    assert forall|i: int| 0 <= i < ps.len() implies paired(ks)[i] == #[trigger] ps[i] by {
        let (k, u) = ps[i];
        assert(u == ());
    }
    assert(paired(ks) =~= ps);
    assert forall|k: K|
        #![trigger has_key(ps, k)]
        #![trigger holds(keys_of(ps), k)]
        has_key(ps, k) <==> holds(ks, k) by {
        lemma_has_key(ps, k);
        if has_key(ps, k) {
            let i = choose|i: int| 0 <= i < ps.len() && same(#[trigger] ps[i].0, k);
            assert(same(ks[i], k));
        }
        if holds(ks, k) {
            let i = choose|i: int| 0 <= i < ks.len() && same(plain()(#[trigger] ks[i]), k);
            assert(same(ps[i].0, k));
        }
    }
    assert forall|k: K| #[trigger] rank(ps, k) <= ps.len() by {
        lemma_rank_bound(ps, k);
    }
    assert forall|i: int, j: int| 0 <= i < j < ks.len() implies lt(
        #[trigger] ks[i],
        #[trigger] ks[j],
    ) by {
        assert(ks[i] == ps[i].0 && ks[j] == ps[j].0);
    }
}

/// A sorted set of unique keys. Its contents are the sequence of its keys in ascending order.
///
/// See [`BPlusTree`] for the meaning of `M` and `A`.
pub struct BPlusSet<K: Key, const M: usize, A: NodeAllocator<K, (), M> = Slabs<K, (), M>> {
    tree: BPlusTree<K, (), M, A>,
}

impl<K: Key, const M: usize, A: NodeAllocator<K, (), M>> View for BPlusSet<K, M, A> {
    type V = Seq<K>;

    closed spec fn view(&self) -> Seq<K> {
        keys_of(self.tree@)
    }
}

impl<K: Key, const M: usize, A: NodeAllocator<K, (), M>> BPlusSet<K, M, A> {
    /// The set's invariant: that of its tree.
    pub closed spec fn wf(&self) -> bool {
        self.tree.wf()
    }

    /// The tree below.
    pub closed spec fn pairs(&self) -> Seq<(K, ())> {
        self.tree@
    }

    /// The nodes of the tree below, unfolded.
    pub closed spec fn nodes(&self) -> Tree<K, ()> {
        self.tree.tree()
    }

    /// The number of levels above the leaves.
    pub closed spec fn levels(&self) -> nat {
        self.tree.levels()
    }

    /// How many leaves and inner nodes the allocator can hold; `None` if there is no ceiling.
    pub closed spec fn ceilings(&self) -> (Option<nat>, Option<nat>) {
        self.tree.ceilings()
    }

    /// How many more nodes of each kind there is room for.
    pub closed spec fn rooms(&self) -> Rooms {
        self.tree.rooms()
    }

    /// The number of leaves that putting `key` into the set adds.
    pub closed spec fn leaf_bill(&self, key: K) -> nat {
        self.tree.leaf_bill(key)
    }

    /// The number of inner nodes that putting `key` into the set adds.
    pub closed spec fn inner_bill(&self, key: K) -> nat {
        self.tree.inner_bill(key)
    }

    /// In an allocator with room for every set of up to `n` keys, no insertion that leaves up to `n`
    /// keys runs out of room.
    pub proof fn law_spacious(&self, key: K, n: nat)
        requires
            self.wf(),
            spacious(self.ceilings(), n, M),
            holds(self@, key) || self@.len() < n,
        ensures
            self.rooms().fit(self.leaf_bill(key), self.inner_bill(key)),
    {
        self.lemma_wf();
        assert(has_key(self.pairs(), key) <==> holds(self@, key));
        self.tree.law_spacious(key, n);
    }

    /// The keys ascend, and no two are equal.
    pub proof fn law_ascending(&self)
        requires
            self.wf(),
        ensures
            forall|i: int, j: int|
                #![trigger self@[i], self@[j]]
                0 <= i < j < self@.len() ==> lt(self@[i], self@[j]),
    {
        self.lemma_wf();
    }

    /// The keys of a set ascend strictly, and a set is no larger than a machine word can count.
    pub proof fn lemma_wf(&self)
        requires
            self.wf(),
        ensures
            M >= 3,
            ordered::<K>(),
            ascending(self@),
            rising(self@, plain()),
            self@.len() <= usize::MAX,
            self.pairs() == paired(self@),
            sorted(self.pairs()),
            forall|k: K|
                #![trigger has_key(self.pairs(), k)]
                #![trigger holds(self@, k)]
                has_key(self.pairs(), k) <==> holds(self@, k),
            forall|k: K| #[trigger] place(self@, k) <= self@.len(),
    {
        self.tree.lemma_wf();
        lemma_units(self.tree@);
        assert forall|k: K| #[trigger] place(self@, k) <= self@.len() by {
            lemma_rank_bound(self.tree@, k);
        }
    }

    /// An empty set.
    pub fn new() -> (r: Self) where A: Default
        requires
            M >= 3,
            ordered::<K>(),
            fresh_default::<K, (), M, A>(),
        ensures
            r.wf(),
            r@ == Seq::<K>::empty(),
    {
        let r = BPlusSet { tree: BPlusTree::new() };
        assert(r@ =~= Seq::<K>::empty());
        r
    }

    /// An empty set whose nodes come from `alloc`, which never runs out or has room for a leaf.
    pub fn new_in(alloc: A) -> (r: Self)
        requires
            M >= 3,
            ordered::<K>(),
            alloc.wf(),
            alloc.store().is_empty(),
            A::endless() || alloc.rooms().fit(1, 0),
        ensures
            r.wf(),
            r@ == Seq::<K>::empty(),
            r.ceilings() == (alloc.store().leaf_cap, alloc.store().inner_cap),
    {
        let r = BPlusSet { tree: BPlusTree::new_in(alloc) };
        assert(r@ =~= Seq::<K>::empty());
        r
    }

    /// The number of keys.
    pub fn len(&self) -> (r: usize)
        requires
            self.wf(),
        ensures
            r == self@.len(),
    {
        self.tree.len()
    }

    /// Whether there are no keys.
    pub fn is_empty(&self) -> (r: bool)
        requires
            self.wf(),
        ensures
            r <==> self@.len() == 0,
    {
        self.tree.is_empty()
    }

    /// Whether `key` is present.
    pub fn contains(&self, key: &K) -> (r: bool)
        requires
            self.wf(),
        ensures
            r <==> holds(self@, *key),
    {
        proof {
            self.lemma_wf();
        }
        self.tree.contains_key(key)
    }

    /// The stored copy of `key`, which need not be identical to the key that was asked for.
    pub fn get(&self, key: &K) -> (r: Option<&K>)
        requires
            self.wf(),
        ensures
            r is Some <==> holds(self@, *key),
            r matches Some(k) ==> Some(*k) == stored(self@, *key),
            r matches Some(k) ==> self@.contains(*k) && same(*k, *key),
    {
        proof {
            self.lemma_wf();
            law_own_copy(self@, *key);
        }
        match self.tree.get_key_value(key) {
            Some((k, _)) => Some(k),
            None => None,
        }
    }

    /// The smallest key.
    pub fn first(&self) -> (r: Option<&K>)
        requires
            self.wf(),
        ensures
            r is Some <==> self@.len() > 0,
            r matches Some(k) ==> *k == self@[0],
    {
        match self.tree.first_key_value() {
            Some((k, _)) => Some(k),
            None => None,
        }
    }

    /// The largest key.
    pub fn last(&self) -> (r: Option<&K>)
        requires
            self.wf(),
        ensures
            r is Some <==> self@.len() > 0,
            r matches Some(k) ==> *k == self@.last(),
    {
        match self.tree.last_key_value() {
            Some((k, _)) => Some(k),
            None => None,
        }
    }

    /// Puts `key` into the set, in an allocator that never runs out or has room for the nodes that
    /// this takes. Returns whether it was not there before; a key that was there stays as it is.
    pub fn insert(&mut self, key: K) -> (r: bool)
        requires
            old(self).wf(),
            A::endless() || old(self).rooms().fit(
                old(self).leaf_bill(key),
                old(self).inner_bill(key),
            ),
            old(self)@.len() < usize::MAX || holds(old(self)@, key),
        ensures
            final(self).wf(),
            final(self).ceilings() == old(self).ceilings(),
            r <==> !holds(old(self)@, key),
            final(self)@ == with_key(old(self)@, key),
    {
        proof {
            self.lemma_wf();
            lemma_rank_bound(self.tree@, key);
        }
        let r = self.tree.insert(key, ());
        assert(self@ =~= with_key(old(self)@, key));
        r.is_none()
    }

    /// Removes `key`. Returns whether it was there.
    pub fn remove(&mut self, key: &K) -> (r: bool)
        requires
            old(self).wf(),
        ensures
            final(self).wf(),
            final(self).ceilings() == old(self).ceilings(),
            r <==> holds(old(self)@, *key),
            final(self)@ == without_key(old(self)@, *key),
    {
        self.take(key).is_some()
    }

    /// Removes and returns the smallest key.
    pub fn pop_first(&mut self) -> (r: Option<K>)
        requires
            old(self).wf(),
        ensures
            final(self).wf(),
            final(self).ceilings() == old(self).ceilings(),
            r is Some <==> old(self)@.len() > 0,
            r is None ==> final(self)@ == old(self)@,
            r matches Some(k) ==> k == old(self)@[0] && final(self)@ == old(self)@.skip(1),
    {
        let r = self.tree.pop_first();
        assert(r is Some ==> self@ =~= old(self)@.skip(1));
        match r {
            Some((k, _)) => Some(k),
            None => None,
        }
    }

    /// Removes and returns the largest key.
    pub fn pop_last(&mut self) -> (r: Option<K>)
        requires
            old(self).wf(),
        ensures
            final(self).wf(),
            final(self).ceilings() == old(self).ceilings(),
            r is Some <==> old(self)@.len() > 0,
            r is None ==> final(self)@ == old(self)@,
            r matches Some(k) ==> k == old(self)@.last() && final(self)@ == old(self)@.drop_last(),
    {
        let r = self.tree.pop_last();
        assert(r is Some ==> self@ =~= old(self)@.drop_last());
        match r {
            Some((k, _)) => Some(k),
            None => None,
        }
    }

    /// Removes every key.
    pub fn clear(&mut self)
        requires
            old(self).wf(),
        ensures
            final(self).wf(),
            final(self).ceilings() == old(self).ceilings(),
            final(self)@ == Seq::<K>::empty(),
    {
        self.tree.clear();
        assert(self@ =~= Seq::<K>::empty());
    }

    /// Removes the key equal to `key` and returns the stored copy.
    pub fn take(&mut self, key: &K) -> (r: Option<K>)
        requires
            old(self).wf(),
        ensures
            final(self).wf(),
            final(self).ceilings() == old(self).ceilings(),
            r == stored(old(self)@, *key),
            r is Some <==> holds(old(self)@, *key),
            r matches Some(k) ==> old(self)@.contains(k) && same(k, *key),
            final(self)@ == without_key(old(self)@, *key),
    {
        proof {
            self.lemma_wf();
            law_own_copy(self@, *key);
            lemma_rank_bound(self.tree@, *key);
        }
        let r = self.tree.remove_key_value(key);
        assert(self@ =~= without_key(old(self)@, *key));
        match r {
            Some((k, _)) => Some(k),
            None => None,
        }
    }

    /// Puts `key` into the set in place of the stored copy, if there is one, and returns that.
    pub fn replace(&mut self, key: K) -> (r: Option<K>)
        requires
            old(self).wf(),
            A::endless() || spacious(
                old(self).ceilings(),
                with_key(old(self)@, key).len(),
                M,
            ),
            old(self)@.len() < usize::MAX || holds(old(self)@, key),
        ensures
            final(self).wf(),
            final(self).ceilings() == old(self).ceilings(),
            r == stored(old(self)@, key),
            r is Some <==> holds(old(self)@, key),
            r matches Some(k) ==> old(self)@.contains(k) && same(k, key),
            final(self)@ == with_key(without_key(old(self)@, key), key),
    {
        proof {
            self.lemma_wf();
            lemma_rank_splits(self.tree@, key);
        }
        let former = self.take(&key);
        proof {
            if !A::endless() {
                self.lemma_wf();
                self.law_spacious(key, with_key(old(self)@, key).len());
            }
        }
        self.insert(key);
        former
    }
}

/// Storing pairs one after the other puts their keys into the run one after the other.
proof fn lemma_put_all<K: Key>(ps: Seq<(K, ())>, qs: Seq<(K, ())>)
    requires
        ordered::<K>(),
        sorted(ps),
    ensures
        sorted(put_all(ps, qs)),
        keys_of(put_all(ps, qs)) == with_all(keys_of(ps), keys_of(qs)),
    decreases qs.len(),
{
    if qs.len() > 0 {
        let front = qs.drop_last();
        let (k, u) = qs.last();
        let mid = put_all(ps, front);
        lemma_put_all(ps, front);
        lemma_put_sorted(mid, k, u);
        lemma_units(mid);
        assert(keys_of(qs).drop_last() =~= keys_of(front));
        assert(keys_of(put(mid, k, u)) =~= with_key(keys_of(mid), k));
    }
}

/// The keys that are to stay.
pub open spec fn picked<K>(ks: Seq<K>, keep: Seq<bool>) -> Seq<K>
    decreases ks.len(),
{
    if ks.len() == 0 {
        ks
    } else if keep[ks.len() - 1] {
        picked(ks.drop_last(), keep).push(ks.last())
    } else {
        picked(ks.drop_last(), keep)
    }
}

/// Only keys of the run stay.
proof fn lemma_picked<K>(ks: Seq<K>, keep: Seq<bool>)
    ensures
        forall|x: K| #[trigger] picked(ks, keep).contains(x) ==> ks.contains(x),
    decreases ks.len(),
{
    if ks.len() > 0 {
        lemma_picked(ks.drop_last(), keep);
        let out = picked(ks, keep);
        let front = picked(ks.drop_last(), keep);
        assert forall|x: K| #[trigger] out.contains(x) implies ks.contains(x) by {
            let i = choose|i: int| 0 <= i < out.len() && out[i] == x;
            if i == front.len() {
                assert(ks[ks.len() - 1] == x);
            } else {
                assert(front[i] == x);
                assert(front.contains(x));
                let j = choose|j: int| 0 <= j < ks.drop_last().len() && ks.drop_last()[j] == x;
                assert(ks[j] == x);
            }
        }
    }
}

/// A verdict on a key behind the run changes nothing.
proof fn lemma_picked_same<K>(ks: Seq<K>, keep: Seq<bool>, more: Seq<bool>)
    requires
        forall|i: int| 0 <= i < ks.len() ==> keep[i] == more[i],
    ensures
        picked(ks, keep) == picked(ks, more),
    decreases ks.len(),
{
    if ks.len() > 0 {
        lemma_picked_same(ks.drop_last(), keep, more);
    }
}

/// Removing a key between smaller and larger ones.
proof fn lemma_remove_between<K: Key>(a: Seq<K>, k: K, b: Seq<K>)
    requires
        ordered::<K>(),
        forall|x: K| #[trigger] a.contains(x) ==> lt(x, k),
        forall|i: int| 0 <= i < b.len() ==> lt(k, #[trigger] b[i]),
    ensures
        without_key(a + seq![k] + b, k) == a + b,
{
    broadcast use group_order;

    let ks = a + seq![k] + b;
    let ps = paired(ks);
    let at = a.len() as int;
    assert forall|i: int| 0 <= i < at implies lt(#[trigger] ps[i].0, k) by {
        assert(ps[i].0 == a[i]);
        assert(a.contains(a[i]));
    }
    assert forall|i: int| at <= i < ps.len() implies !lt(#[trigger] ps[i].0, k) by {
        if i > at {
            assert(ps[i].0 == b[i - at - 1]);
        }
    }
    lemma_rank_at(ps, k, at);
    assert(same(plain()(ks[at]), k));
    assert(ks.remove(at) =~= a + b);
}

impl<K: Key, const M: usize, A: NodeAllocator<K, (), M>> BPlusSet<K, M, A> {
    /// Moves all keys of `other` over, one after the other, and leaves it empty.
    pub fn append(&mut self, other: &mut Self)
        requires
            old(self).wf(),
            old(other).wf(),
            with_all(old(self)@, old(other)@).len() <= usize::MAX,
            A::endless() || spacious(
                old(self).ceilings(),
                with_all(old(self)@, old(other)@).len(),
                M,
            ),
        ensures
            final(self).wf(),
            final(self).ceilings() == old(self).ceilings(),
            final(other).wf(),
            final(other).ceilings() == old(other).ceilings(),
            final(self)@ == with_all(old(self)@, old(other)@),
            final(other)@ == Seq::<K>::empty(),
    {
        proof {
            self.lemma_wf();
            lemma_put_all(self.tree@, other.tree@);
        }
        self.tree.append(&mut other.tree);
        assert(other@ =~= Seq::<K>::empty());
    }

    /// Moves all keys that are not below `key` into a new set.
    pub fn split_off(&mut self, key: &K) -> (r: Self) where A: Default
        requires
            old(self).wf(),
            fresh_default::<K, (), M, A>(),
        ensures
            final(self).wf(),
            final(self).ceilings() == old(self).ceilings(),
            r.wf(),
            final(self)@ == old(self)@.take(place(old(self)@, *key) as int),
            r@ == old(self)@.skip(place(old(self)@, *key) as int),
    {
        proof {
            self.lemma_wf();
            lemma_rank_bound(self.tree@, *key);
        }
        let r = BPlusSet { tree: self.tree.split_off(key) };
        assert(self@ =~= old(self)@.take(place(old(self)@, *key) as int));
        assert(r@ =~= old(self)@.skip(place(old(self)@, *key) as int));
        r
    }

    /// Copies of the keys, in ascending order.
    fn to_vec(&self) -> (r: Vec<K>)
        requires
            self.wf(),
        ensures
            r@ == self@,
    {
        let mut out: Vec<K> = Vec::new();
        let mut walk = self.iter();
        let ghost all = borrowed(self@);
        assert(out@.map_values(|k: K| &k) + walk.coming() =~= all);
        loop
            invariant
                out@.map_values(|k: K| &k) + walk.coming() == all,
                all == borrowed(self@),
            ensures
                out@.map_values(|k: K| &k) == all,
                all == borrowed(self@),
            decreases walk.coming().len(),
        {
            let ghost seen = out@.map_values(|k: K| &k);
            let ghost coming = walk.coming();
            let (key, rest) = walk.step();
            match key {
                Some(k) => {
                    out.push(*k);
                    assert(out@.map_values(|k: K| &k) + rest.coming() =~= seen + coming);
                },
                None => {
                    assert(seen + coming =~= seen);
                    break ;
                },
            }
            walk = rest;
        }
        proof {
            assert forall|i: int| 0 <= i < self@.len() implies out@[i] == self@[i] by {
                assert(all[i] == &self@[i]);
                assert(out@.map_values(|k: K| &k)[i] == &out@[i]);
            }
            assert(out@.map_values(|k: K| &k).len() == all.len());
            assert(out@ =~= self@);
        }
        out
    }

    /// Keeps only the keys for which `f` returns `true`.
    pub fn retain<F: Fn(&K) -> bool>(&mut self, f: F)
        requires
            old(self).wf(),
            forall|i: int| 0 <= i < old(self)@.len() ==> call_requires(f, (&#[trigger] old(self)@[i],)),
        ensures
            final(self).wf(),
            final(self).ceilings() == old(self).ceilings(),
            exists|keep: Seq<bool>|
                {
                    &&& keep.len() == old(self)@.len()
                    &&& forall|i: int|
                        0 <= i < old(self)@.len() ==> call_ensures(
                            f,
                            (&#[trigger] old(self)@[i],),
                            keep[i],
                        )
                    &&& final(self)@ == #[trigger] picked(old(self)@, keep)
                    &&& forall|i: int|
                        0 <= i < old(self)@.len() ==> (final(self)@.contains(
                            #[trigger] old(self)@[i],
                        ) <==> keep[i])
                },
            forall|x: K| #[trigger] final(self)@.contains(x) ==> old(self)@.contains(x),
    {
        let keys = self.to_vec();
        let ghost all = self@;
        let ghost mut keep: Seq<bool> = Seq::empty();
        let mut i: usize = 0;
        proof {
            self.lemma_wf();
            assert(all.take(0) =~= Seq::<K>::empty());
            assert(picked(all.take(0), keep) + all.skip(0) =~= all);
        }
        while i < keys.len()
            invariant
                self.wf(),
                self.ceilings() == old(self).ceilings(),
                ordered::<K>(),
                ascending(all),
                keys@ == all,
                all == old(self)@,
                i <= all.len(),
                keep.len() == i,
                forall|j: int| 0 <= j < all.len() ==> call_requires(f, (&#[trigger] all[j],)),
                forall|j: int| 0 <= j < i ==> call_ensures(f, (&#[trigger] all[j],), keep[j]),
                self@ == picked(all.take(i as int), keep) + all.skip(i as int),
            decreases all.len() - i,
        {
            let ghost before = picked(all.take(i as int), keep);
            let ghost rest = all.skip(i + 1);
            let stays = f(&keys[i]);
            proof {
                lemma_picked(all.take(i as int), keep);
                assert forall|x: K| #[trigger] before.contains(x) implies lt(x, all[i as int]) by {
                    let j = choose|j: int| 0 <= j < i && all.take(i as int)[j] == x;
                    assert(all[j] == x);
                }
                assert forall|j: int| 0 <= j < rest.len() implies lt(
                    all[i as int],
                    #[trigger] rest[j],
                ) by {
                    assert(rest[j] == all[i + 1 + j]);
                }
                lemma_remove_between(before, all[i as int], rest);
                assert(before + all.skip(i as int) =~= before + seq![all[i as int]] + rest);
                lemma_picked_same(all.take(i as int), keep, keep.push(stays));
                assert(all.take(i + 1).drop_last() =~= all.take(i as int));
                if stays {
                    assert(before + all.skip(i as int) =~= before.push(all[i as int]) + rest);
                }
                keep = keep.push(stays);
            }
            if !stays {
                self.remove(&keys[i]);
            }
            i = i + 1;
        }
        proof {
            assert(all.take(i as int) =~= all);
            assert(picked(all, keep) + all.skip(i as int) =~= picked(all, keep));
            law_picked(all, keep);
        }
    }

    /// Walks over all keys in ascending order.
    pub fn iter<'a>(&'a self) -> (r: Iter<FullIterator<'a, K, (), M, A>>)
        requires
            self.wf(),
        ensures
            r.coming() == borrowed(self@),
            IteratorSpec::remaining(&r) == borrowed(self@),
            IteratorSpec::obeys_prophetic_iter_laws(&r),
            IteratorSpec::will_return_none(&r),
            IteratorSpec::decrease(&r) is Some,
            IteratorSpec::remaining(&r).len() == self@.len(),
            forall|i: int|
                0 <= i < self@.len() ==> #[trigger] IteratorSpec::remaining(&r)[i] == &self@[i],
    {
        let r = Iter::over(self.tree.iter());
        assert(r.coming() =~= borrowed(self@));
        r
    }

    /// Walks over the keys between the bounds, in ascending order.
    pub fn range<'a>(&'a self, start: Bound<K>, end: Bound<K>) -> (r: Iter<
        Range<'a, K, (), M, A>,
    >)
        requires
            self.wf(),
        ensures
            r.coming() == borrowed(keys_of(window(paired(self@), start, end))),
            IteratorSpec::remaining(&r) == borrowed(keys_of(window(paired(self@), start, end))),
            IteratorSpec::obeys_prophetic_iter_laws(&r),
            IteratorSpec::will_return_none(&r),
            IteratorSpec::decrease(&r) is Some,
    {
        proof {
            self.lemma_wf();
        }
        let r = Iter::over(self.tree.range(start, end));
        assert(r.coming() =~= borrowed(keys_of(window(paired(self@), start, end))));
        r
    }
}

/// References to the keys of a walk over a set's pairs.
proof fn lemma_lefts<'a, K: Key + 'a, const M: usize, A: NodeAllocator<K, (), M>>(
    walk: FullIterator<'a, K, (), M, A>,
    ps: Seq<(K, ())>,
)
    requires
        walk.coming() == refs::<K, ()>(ps),
    ensures
        lefts(walk) == borrowed(keys_of(ps)),
{
    assert(lefts(walk) =~= borrowed(keys_of(ps)));
}

impl<K: Key, const M: usize, A: NodeAllocator<K, (), M>> BPlusSet<K, M, A> {
    /// Walks over the keys in `self`, `other`, or both, in ascending order, without
    /// duplicates.
    pub fn union<'a>(&'a self, other: &'a Self) -> (r: Union<FullIterator<'a, K, (), M, A>>)
        requires
            self.wf(),
            other.wf(),
        ensures
            r.coming() == borrowed(either(self@, other@, plain())),
            IteratorSpec::remaining(&r) == borrowed(either(self@, other@, plain())),
            IteratorSpec::obeys_prophetic_iter_laws(&r),
            IteratorSpec::will_return_none(&r),
            IteratorSpec::decrease(&r) is Some,
    {
        proof {
            self.lemma_wf();
        }
        let first = self.tree.iter();
        let second = other.tree.iter();
        proof {
            lemma_lefts(first, self.tree@);
            lemma_lefts(second, other.tree@);
            lemma_map_either(
                self@,
                other@,
                plain(),
                |k: K| &k,
                key_fn::<FullIterator<'a, K, (), M, A>>(),
            );
        }
        Union::over(first, second)
    }

    /// Walks over the keys in both `self` and `other`, in ascending order.
    pub fn intersection<'a>(&'a self, other: &'a Self) -> (r: Intersection<FullIterator<'a, K, (), M, A>>)
        requires
            self.wf(),
            other.wf(),
        ensures
            r.coming() == borrowed(both(self@, other@, plain())),
            IteratorSpec::remaining(&r) == borrowed(both(self@, other@, plain())),
            IteratorSpec::obeys_prophetic_iter_laws(&r),
            IteratorSpec::will_return_none(&r),
            IteratorSpec::decrease(&r) is Some,
    {
        proof {
            self.lemma_wf();
        }
        let first = self.tree.iter();
        let second = other.tree.iter();
        proof {
            lemma_lefts(first, self.tree@);
            lemma_lefts(second, other.tree@);
            lemma_map_both(
                self@,
                other@,
                plain(),
                |k: K| &k,
                key_fn::<FullIterator<'a, K, (), M, A>>(),
            );
        }
        Intersection::over(first, second)
    }

    /// Walks over the keys in `self` but not in `other`, in ascending order.
    pub fn difference<'a>(&'a self, other: &'a Self) -> (r: Difference<FullIterator<'a, K, (), M, A>>)
        requires
            self.wf(),
            other.wf(),
        ensures
            r.coming() == borrowed(only_first(self@, other@, plain())),
            IteratorSpec::remaining(&r) == borrowed(only_first(self@, other@, plain())),
            IteratorSpec::obeys_prophetic_iter_laws(&r),
            IteratorSpec::will_return_none(&r),
            IteratorSpec::decrease(&r) is Some,
    {
        proof {
            self.lemma_wf();
        }
        let first = self.tree.iter();
        let second = other.tree.iter();
        proof {
            lemma_lefts(first, self.tree@);
            lemma_lefts(second, other.tree@);
            lemma_map_only_first(
                self@,
                other@,
                plain(),
                |k: K| &k,
                key_fn::<FullIterator<'a, K, (), M, A>>(),
            );
        }
        Difference::over(first, second)
    }

    /// Walks over the keys in `self` or `other` but not in both, in ascending order.
    pub fn symmetric_difference<'a>(&'a self, other: &'a Self) -> (r: SymmetricDifference<FullIterator<'a, K, (), M, A>>)
        requires
            self.wf(),
            other.wf(),
        ensures
            r.coming() == borrowed(only_one(self@, other@, plain())),
            IteratorSpec::remaining(&r) == borrowed(only_one(self@, other@, plain())),
            IteratorSpec::obeys_prophetic_iter_laws(&r),
            IteratorSpec::will_return_none(&r),
            IteratorSpec::decrease(&r) is Some,
    {
        proof {
            self.lemma_wf();
        }
        let first = self.tree.iter();
        let second = other.tree.iter();
        proof {
            lemma_lefts(first, self.tree@);
            lemma_lefts(second, other.tree@);
            lemma_map_only_one(
                self@,
                other@,
                plain(),
                |k: K| &k,
                key_fn::<FullIterator<'a, K, (), M, A>>(),
            );
        }
        SymmetricDifference::over(first, second)
    }

    /// Whether every key of `self` is in `other` too.
    pub fn is_subset(&self, other: &Self) -> (r: bool)
        requires
            self.wf(),
            other.wf(),
        ensures
            r <==> forall|i: int| 0 <= i < self@.len() ==> holds(other@, #[trigger] self@[i]),
    {
        let ghost all = both(self@, other@, plain());
        proof {
            self.lemma_wf();
            other.lemma_wf();
            lemma_both(self@, other@, plain());
            assert((forall|x: K| #[trigger] self@.contains(x) ==> holds(other@, x)) <==> (forall|
                i: int,
            |
                0 <= i < self@.len() ==> holds(other@, #[trigger] self@[i]))) by {
                if forall|x: K| #[trigger] self@.contains(x) ==> holds(other@, x) {
                    assert forall|i: int| 0 <= i < self@.len() implies holds(
                        other@,
                        #[trigger] self@[i],
                    ) by {
                        assert(self@.contains(self@[i]));
                    }
                }
            }
        }
        let mut walk = self.intersection(other);
        let mut count: usize = 0;
        loop
            invariant
                count + walk.coming().len() == all.len(),
                all.len() <= usize::MAX,
            ensures
                count == all.len(),
            decreases walk.coming().len(),
        {
            let (key, rest) = walk.step();
            if key.is_none() {
                break ;
            }
            count = count + 1;
            walk = rest;
        }
        count == self.len()
    }

    /// Whether every key of `other` is in `self` too.
    pub fn is_superset(&self, other: &Self) -> (r: bool)
        requires
            self.wf(),
            other.wf(),
        ensures
            r <==> forall|i: int| 0 <= i < other@.len() ==> holds(self@, #[trigger] other@[i]),
    {
        other.is_subset(self)
    }

    /// Whether `self` and `other` have no key in common.
    pub fn is_disjoint(&self, other: &Self) -> (r: bool)
        requires
            self.wf(),
            other.wf(),
        ensures
            r <==> forall|k: K| !(#[trigger] holds(self@, k) && holds(other@, k)),
    {
        broadcast use group_order;

        let ghost all = both(self@, other@, plain());
        proof {
            self.lemma_wf();
            other.lemma_wf();
            lemma_both(self@, other@, plain());
            if all.len() > 0 {
                assert(same(plain()(all[0]), all[0]));
                assert(holds(all, all[0]));
                assert(holds(self@, all[0]) && holds(other@, all[0]));
            } else {
                assert forall|k: K| !(#[trigger] holds(self@, k) && holds(other@, k)) by {
                    assert(!holds(all, k));
                }
            }
        }
        let (common, _) = self.intersection(other).step();
        common.is_none()
    }

    /// Builds a set from keys in strictly ascending order.
    pub fn from_sorted_iter<I: core::iter::Iterator<Item = K>>(iter: I) -> (r: Self) where A: Default
        requires
            M >= 3,
            ordered::<K>(),
            fresh_default::<K, (), M, A>(),
            iter.obeys_prophetic_iter_laws(),
            iter.decrease() is Some,
            ascending(iter.remaining()),
            iter.remaining().len() <= usize::MAX,
        ensures
            r.wf(),
            r@ == iter.remaining(),
            compact(r.nodes(), r.levels(), r@.len(), M),
    {
        Self::from_sorted_iter_in(iter, A::default())
    }

    /// Builds a set whose nodes come from `alloc` from keys in strictly ascending order.
    pub fn from_sorted_iter_in<I: core::iter::Iterator<Item = K>>(iter: I, alloc: A) -> (r: Self)
        requires
            M >= 3,
            ordered::<K>(),
            fresh::<K, (), M, A>(alloc),
            iter.obeys_prophetic_iter_laws(),
            iter.decrease() is Some,
            ascending(iter.remaining()),
            iter.remaining().len() <= usize::MAX,
        ensures
            r.wf(),
            r@ == iter.remaining(),
            compact(r.nodes(), r.levels(), r@.len(), M),
    {
        let ghost all = iter.remaining();
        let keys = gather(iter);
        let listed = Listed::over(keys);
        proof {
            lemma_paired_sorted(all);
        }
        let r = BPlusSet { tree: BPlusTree::from_sorted_iter_in(listed, alloc) };
        assert(r@ =~= all);
        r
    }

    /// Puts every key of the stream into the set, one after the other.
    pub fn extend<I: core::iter::Iterator<Item = K>>(&mut self, iter: I)
        requires
            old(self).wf(),
            iter.obeys_prophetic_iter_laws(),
            iter.decrease() is Some,
            with_all(old(self)@, iter.remaining()).len() <= usize::MAX,
            A::endless() || spacious(
                old(self).ceilings(),
                with_all(old(self)@, iter.remaining()).len(),
                M,
            ),
        ensures
            final(self).wf(),
            final(self).ceilings() == old(self).ceilings(),
            final(self)@ == with_all(old(self)@, iter.remaining()),
    {
        let mut iter = iter;
        let ghost all = iter.remaining();
        let ghost ks = self@;
        let ghost mut done: Seq<K> = Seq::empty();
        assert(done + all =~= all);
        loop
            invariant
                self.wf(),
                self.ceilings() == old(self).ceilings(),
                A::endless() || spacious(self.ceilings(), with_all(ks, all).len(), M),
                iter.obeys_prophetic_iter_laws(),
                iter.decrease() is Some,
                done + iter.remaining() == all,
                with_all(ks, all).len() <= usize::MAX,
                self@ == with_all(ks, done),
            ensures
                self.wf(),
                self.ceilings() == old(self).ceilings(),
                self@ == with_all(ks, all),
            decreases iter.decrease()->0,
        {
            let ghost rest = iter.remaining();
            match iter.next() {
                Some(k) => {
                    proof {
                        assert(done.push(k) + iter.remaining() =~= done + rest);
                        assert(done.push(k).drop_last() =~= done);
                        done = done.push(k);
                        lemma_with_key_len(self@, k);
                        lemma_with_all_grows(ks, all, done.len() as int);
                        assert(all.take(done.len() as int) =~= done);
                        if !A::endless() {
                            self.law_spacious(k, with_all(ks, all).len());
                        }
                    }
                    self.insert(k);
                },
                None => {
                    assert(done =~= all);
                    break ;
                },
            }
        }
    }

    /// A set of the keys of the stream: of equal keys the first.
    pub fn from_iter<I: core::iter::Iterator<Item = K>>(iter: I) -> (r: Self) where A: Default
        requires
            M >= 3,
            ordered::<K>(),
            fresh_default::<K, (), M, A>(),
            iter.obeys_prophetic_iter_laws(),
            iter.decrease() is Some,
            with_all(Seq::<K>::empty(), iter.remaining()).len() <= usize::MAX,
        ensures
            r.wf(),
            r@ == with_all(Seq::<K>::empty(), iter.remaining()),
    {
        let mut set = Self::new();
        set.extend(iter);
        set
    }

    /// A set of copies of the keys of a walk, which come in strictly ascending order.
    fn collected<W: KeyWalk<Key = K>>(walk: W, Ghost(ks): Ghost<Seq<K>>) -> (r: Self) where
        A: Default,

        requires
            M >= 3,
            ordered::<K>(),
            fresh_default::<K, (), M, A>(),
            ascending(ks),
            ks.len() <= usize::MAX,
            walk.coming().map_values(|x: W::Item| W::item_key(x)) == ks,
        ensures
            r.wf(),
            r@ == ks,
            compact(r.nodes(), r.levels(), r@.len(), M),
    {
        let copies = Copies::over(walk);
        proof {
            assert(copies.coming() =~= paired(ks)) by {
                assert(walk.coming().map_values(|x: W::Item| W::item_key(x)).len() == ks.len());
                assert forall|i: int| 0 <= i < ks.len() implies copies.coming()[i] == (
                    #[trigger] ks[i],
                    (),
                ) by {
                    assert(walk.coming().map_values(|x: W::Item| W::item_key(x))[i] == ks[i]);
                }
            }
            lemma_paired_sorted(ks);
        }
        let r = BPlusSet { tree: BPlusTree::from_sorted_iter(copies) };
        assert(r@ =~= ks);
        r
    }

    /// A copy of the set, densely packed.
    pub fn clone(&self) -> (r: Self) where A: Default
        requires
            self.wf(),
            fresh_default::<K, (), M, A>(),
        ensures
            r.wf(),
            r@ == self@,
            compact(r.nodes(), r.levels(), r@.len(), M),
    {
        proof {
            self.lemma_wf();
        }
        let walk = self.iter();
        proof {
            lemma_item_keys::<K, Iter<FullIterator<K, (), M, A>>>(self@);
        }
        Self::collected(walk, Ghost(self@))
    }

    /// Takes the set apart, key by key in ascending order.
    pub fn into_iter(self) -> (r: IntoIter<K, M, A>)
        requires
            self.wf(),
        ensures
            r.coming() == self@,
            IteratorSpec::remaining(&r) == self@,
            IteratorSpec::obeys_prophetic_iter_laws(&r),
            IteratorSpec::will_return_none(&r),
            IteratorSpec::decrease(&r) is Some,
    {
        IntoIter { inner: self.tree.into_iter() }
    }

    /// The intersection of the two sets.
    pub fn bitand(&self, other: &Self) -> (r: Self) where A: Default
        requires
            self.wf(),
            other.wf(),
            fresh_default::<K, (), M, A>(),
        ensures
            r.wf(),
            r@ == both(self@, other@, plain()),
    {
        let ghost ks = both(self@, other@, plain());
        proof {
            self.lemma_wf();
            other.lemma_wf();
            lemma_both(self@, other@, plain());
            lemma_both_len(self@, other@, plain());
            lemma_item_keys::<K, Intersection<FullIterator<K, (), M, A>>>(ks);
        }
        Self::collected(self.intersection(other), Ghost(ks))
    }

    /// The union of the two sets.
    pub fn bitor(&self, other: &Self) -> (r: Self) where A: Default
        requires
            self.wf(),
            other.wf(),
            fresh_default::<K, (), M, A>(),
            either(self@, other@, plain()).len() <= usize::MAX,
        ensures
            r.wf(),
            r@ == either(self@, other@, plain()),
    {
        let ghost ks = either(self@, other@, plain());
        proof {
            self.lemma_wf();
            other.lemma_wf();
            lemma_either(self@, other@, plain());
            lemma_item_keys::<K, Union<FullIterator<K, (), M, A>>>(ks);
        }
        Self::collected(self.union(other), Ghost(ks))
    }

    /// The keys in exactly one of the two sets.
    pub fn bitxor(&self, other: &Self) -> (r: Self) where A: Default
        requires
            self.wf(),
            other.wf(),
            fresh_default::<K, (), M, A>(),
            only_one(self@, other@, plain()).len() <= usize::MAX,
        ensures
            r.wf(),
            r@ == only_one(self@, other@, plain()),
    {
        let ghost ks = only_one(self@, other@, plain());
        proof {
            self.lemma_wf();
            other.lemma_wf();
            lemma_only_one(self@, other@, plain());
            lemma_item_keys::<K, SymmetricDifference<FullIterator<K, (), M, A>>>(ks);
        }
        Self::collected(self.symmetric_difference(other), Ghost(ks))
    }

    /// The keys in `self` but not in `other`.
    pub fn sub(&self, other: &Self) -> (r: Self) where A: Default
        requires
            self.wf(),
            other.wf(),
            fresh_default::<K, (), M, A>(),
        ensures
            r.wf(),
            r@ == only_first(self@, other@, plain()),
    {
        let ghost ks = only_first(self@, other@, plain());
        proof {
            self.lemma_wf();
            other.lemma_wf();
            lemma_only_first(self@, other@, plain());
            lemma_only_first_len(self@, other@, plain());
            lemma_item_keys::<K, Difference<FullIterator<K, (), M, A>>>(ks);
        }
        Self::collected(self.difference(other), Ghost(ks))
    }
}

/// The keys behind references to keys.
proof fn lemma_item_keys<'a, K: Key + 'a, W: KeyWalk<Key = K, Item = &'a K>>(ks: Seq<K>)
    requires
        forall|x: &'a K| #[trigger] W::item_key(x) == *x,
    ensures
        borrowed::<'a, K>(ks).map_values(|x: W::Item| W::item_key(x)) == ks,
{
    assert(borrowed::<'a, K>(ks).map_values(|x: W::Item| W::item_key(x)) =~= ks);
}

/// Keys in ascending order, paired with unit values, are a sorted run.
proof fn lemma_paired_sorted<K: Key>(ks: Seq<K>)
    requires
        ascending(ks),
    ensures
        sorted(paired(ks)),
{
}

/// How long a run is with one more key in it.
proof fn lemma_with_key_len<K: Key>(ks: Seq<K>, k: K)
    ensures
        with_key(ks, k).len() == ks.len() + (if holds(ks, k) {
            0int
        } else {
            1
        }),
{
    lemma_rank_bound(paired(ks), k);
}

/// A run never gets shorter while keys are put into it.
proof fn lemma_with_all_grows<K: Key>(ks: Seq<K>, more: Seq<K>, n: int)
    requires
        0 <= n <= more.len(),
    ensures
        with_all(ks, more.take(n)).len() <= with_all(ks, more).len(),
    decreases more.len(),
{
    if n == more.len() {
        assert(more.take(n) =~= more);
    } else {
        let front = more.drop_last();
        lemma_with_all_grows(ks, front, n);
        assert(front.take(n) =~= more.take(n));
        lemma_with_key_len(with_all(ks, front), more.last());
    }
}

/// Reads a stream to its end.
fn gather<K: Key, I: core::iter::Iterator<Item = K>>(iter: I) -> (r: Vec<K>)
    requires
        iter.obeys_prophetic_iter_laws(),
        iter.decrease() is Some,
    ensures
        r@ == iter.remaining(),
{
    let mut iter = iter;
    let ghost all = iter.remaining();
    let mut out: Vec<K> = Vec::new();
    assert(out@ + all =~= all);
    loop
        invariant
            iter.obeys_prophetic_iter_laws(),
            iter.decrease() is Some,
            out@ + iter.remaining() == all,
        ensures
            out@ == all,
        decreases iter.decrease()->0,
    {
        let ghost rest = iter.remaining();
        match iter.next() {
            Some(k) => {
                let ghost seen = out@;
                out.push(k);
                assert(out@ + iter.remaining() =~= seen + rest);
            },
            None => {
                assert(out@ + rest =~= out@);
                break ;
            },
        }
    }
    out
}

/// Owned iterator over a set's keys, in ascending order.
pub struct IntoIter<K: Key, const M: usize, A: NodeAllocator<K, (), M>> {
    inner: crate::owned::IntoIter<K, (), M, A>,
}

impl<K: Key, const M: usize, A: NodeAllocator<K, (), M>> IntoIter<K, M, A> {
    /// The keys that are still to come.
    pub closed spec fn coming(&self) -> Seq<K> {
        keys_of(self.inner.coming())
    }

    /// The number of keys still to come.
    pub fn len(&self) -> (r: usize)
        ensures
            r == self.coming().len(),
            r == IteratorSpec::remaining(self).len(),
    {
        self.inner.len()
    }
}

impl<K: Key, const M: usize, A: NodeAllocator<K, (), M>> core::iter::Iterator for IntoIter<K, M, A> {
    type Item = K;

    fn next(&mut self) -> (r: Option<K>) {
        let ghost all = self.inner.coming();
        let item = self.inner.next();
        assert(all.len() > 0 ==> keys_of(all).drop_first() =~= keys_of(all.drop_first()));
        match item {
            Some((k, _)) => Some(k),
            None => None,
        }
    }
}

impl<K: Key, const M: usize, A: NodeAllocator<K, (), M>> IteratorSpecImpl for IntoIter<K, M, A> {
    open spec fn obeys_prophetic_iter_laws(&self) -> bool {
        true
    }

    open spec fn remaining(&self) -> Seq<Self::Item> {
        self.coming()
    }

    open spec fn will_return_none(&self) -> bool {
        true
    }

    open spec fn decrease(&self) -> Option<nat> {
        Some(self.coming().len())
    }

    open spec fn initial_value_relation(&self, init: &Self) -> bool {
        self == init
    }

    open spec fn peek(&self, index: int) -> Option<Self::Item> {
        if 0 <= index < self.coming().len() {
            Some(self.coming()[index])
        } else {
            None
        }
    }
}

impl<K: Key, const M: usize, A: NodeAllocator<K, (), M>> core::iter::FusedIterator for IntoIter<
    K,
    M,
    A,
> {

}

impl<K: Key, const M: usize, A: NodeAllocator<K, (), M>> core::iter::ExactSizeIterator for IntoIter<
    K,
    M,
    A,
> {
    fn len(&self) -> (r: usize)
        ensures
            r == self.coming().len(),
            r == IteratorSpec::remaining(self).len(),
    {
        self.len()
    }
}

} // verus!
