//! Walking the pairs of a tree in key order, along the leaf chain.
use crate::allocator::{Addr, NodeAllocator, Store};
use crate::chain::in_store;
use crate::entries::{has_key, lemma_has_key, lemma_rank_splits, rank, sorted};
use crate::key::{group_order, key_lt, lt, ordered, Key};
use crate::leaf::Leaf;
use crate::model::{chained, items_of, leaves, Link};
use crate::search::{lemma_items_around, lemma_items_empty, lemma_owner};
use crate::tree::BPlusTree;
use vstd::prelude::*;
use vstd::std_specs::iter::{IteratorSpec, IteratorSpecImpl};

verus! {

/// Something that yields items one by one, and is known to end.
pub trait Walk: Copy {
    type Item;

    /// The items that are still to come.
    spec fn coming(&self) -> Seq<Self::Item>;

    /// The next item, and the walk behind it. Once there are none left, there never will be.
    fn step(self) -> (r: (Option<Self::Item>, Self))
        ensures
            self.coming().len() > 0 ==> {
                &&& r.0 == Some(self.coming()[0])
                &&& r.1.coming() == self.coming().drop_first()
            },
            self.coming().len() == 0 ==> {
                &&& r.0 is None
                &&& r.1.coming() == self.coming()
            },
    ;
}

/// The pairs, as references to their halves.
pub open spec fn refs<'a, K, V>(ps: Seq<(K, V)>) -> Seq<(&'a K, &'a V)> {
    ps.map_values(|p: (K, V)| (&p.0, &p.1))
}

/// The leaves `ls` are in the store of `alloc`, linked one to the next, and the walk is in the
/// first of them.
pub open spec fn walking<K: Key, V, const M: usize, A: NodeAllocator<K, V, M>>(
    alloc: A,
    current: Option<Addr>,
    idx: usize,
    ls: Seq<Link<K, V>>,
) -> bool {
    &&& alloc.wf()
    &&& in_store(alloc.store(), ls)
    &&& chained(ls)
    &&& ls.len() == 0 ==> current is None && idx == 0
    &&& ls.len() > 0 ==> {
        &&& current == Some(ls[0].at)
        &&& ls.last().leaf.next is None
        &&& idx <= ls[0].leaf.items.len()
    }
}

/// Moves a walk on to the leaf that holds the next pair, if there is one.
pub(crate) fn settle<K: Key, V, const M: usize, A: NodeAllocator<K, V, M>>(
    alloc: &A,
    current: Option<Addr>,
    start: usize,
    Ghost(ls): Ghost<Seq<Link<K, V>>>,
) -> (r: (Option<Addr>, usize, Ghost<int>))
    requires
        walking(*alloc, current, start, ls),
    ensures
        0 <= r.2@ <= ls.len(),
        walking(*alloc, r.0, r.1, ls.skip(r.2@)),
        items_of(ls).skip(start as int) == items_of(ls.skip(r.2@)).skip(r.1 as int),
        r.0 is Some ==> r.2@ < ls.len() && r.1 < ls[r.2@].leaf.items.len() && ls[r.2@].at == r.0->0,
        r.0 is None ==> items_of(ls).skip(start as int).len() == 0,
{
    let mut current = current;
    let mut idx: usize = start;
    let ghost all = items_of(ls).skip(start as int);
    let ghost mut j: int = 0;
    proof {
        assert(ls.skip(0) =~= ls);
    }
    loop
        invariant
            0 <= j <= ls.len(),
            walking(*alloc, current, idx, ls.skip(j)),
            items_of(ls.skip(j)).skip(idx as int) == all,
            all == items_of(ls).skip(start as int),
        decreases ls.len() - j,
    {
        let at = match current {
            Some(at) => at,
            None => {
                proof {
                    lemma_items_empty(ls.skip(j));
                }
                return (None, 0, Ghost(j));
            },
        };
        let leaf = alloc.leaf(at);
        proof {
            assert(ls.skip(j)[0] == ls[j]);
        }
        if idx < leaf.len() {
            return (current, idx, Ghost(j));
        }
        proof {
            let here = ls.skip(j);
            let rest = ls.skip(j + 1);
            lemma_items_around(here, 0);
            assert(here.skip(1) =~= rest);
            assert(here.skip(0) =~= here);
            assert(items_of(rest).skip(0) =~= items_of(rest));
            assert(all =~= items_of(rest));
            reveal(chained);
            if rest.len() > 0 {
                assert(here[0].leaf.next == Some(here[1].at));
                assert(rest[0] == here[1]);
                assert(rest.last() == here.last());
            } else {
                assert(here.last() == here[0]);
            }
            assert forall|a: int, b: int|
                #![trigger rest[a], rest[b]]
                0 <= a < rest.len() && 0 <= b < rest.len() && b == a + 1 implies rest[a].leaf.next
                == Some(rest[b].at) by {
                assert(rest[a] == here[a + 1] && rest[b] == here[b + 1]);
            }
            assert forall|i: int| 0 <= i < rest.len() implies {
                &&& alloc.store().leaves.dom().contains((#[trigger] rest[i]).at)
                &&& alloc.store().leaves[rest[i].at]@ == rest[i].leaf
                &&& alloc.store().leaves[rest[i].at].wf()
            } by {
                assert(rest[i] == here[i + 1]);
            }
            j = j + 1;
        }
        current = leaf.next();
        idx = 0;
    }
}

/// Iterator over keys and value references, in ascending key order.
pub struct Iterator<'a, K: Key, V, const M: usize, A: NodeAllocator<K, V, M>> {
    alloc: &'a A,
    /// The leaf that the walk is in.
    current: Option<Addr>,
    /// The next pair's slot in that leaf.
    idx_in_leaf: usize,
    /// The leaves from there on.
    chain: Ghost<Seq<Link<K, V>>>,
}

impl<'a, K: Key, V, const M: usize, A: NodeAllocator<K, V, M>> Iterator<'a, K, V, M, A> {
    #[verifier::type_invariant]
    spec fn inv(self) -> bool {
        walking(*self.alloc, self.current, self.idx_in_leaf, self.chain@)
    }

    /// The pairs that are still to come.
    pub closed spec fn rest(&self) -> Seq<(K, V)> {
        items_of(self.chain@).skip(self.idx_in_leaf as int)
    }
}

impl<'a, K: Key, V, const M: usize, A: NodeAllocator<K, V, M>> Clone for Iterator<
    'a,
    K,
    V,
    M,
    A,
> {
    fn clone(&self) -> (r: Self)
        ensures
            r == *self,
    {
        *self
    }
}

impl<'a, K: Key, V, const M: usize, A: NodeAllocator<K, V, M>> Copy for Iterator<
    'a,
    K,
    V,
    M,
    A,
> {

}

impl<'a, K: Key + 'a, V: 'a, const M: usize, A: NodeAllocator<K, V, M>> Walk for Iterator<
    'a,
    K,
    V,
    M,
    A,
> {
    type Item = (&'a K, &'a V);

    closed spec fn coming(&self) -> Seq<(&'a K, &'a V)> {
        refs(self.rest())
    }

    fn step(self) -> (r: (Option<(&'a K, &'a V)>, Self)) {
        proof {
            use_type_invariant(&self);
        }
        let alloc: &'a A = self.alloc;
        let ghost ls = self.chain@;
        let (current, idx, Ghost(j)) = settle(alloc, self.current, self.idx_in_leaf, self.chain);
        let ghost rest = ls.skip(j);
        match current {
            Some(at) => {
                proof {
                    assert(rest[0] == ls[j]);
                    lemma_items_around(rest, 0);
                    assert(rest.skip(0) =~= rest);
                    assert(items_of(rest)[idx as int] == rest[0].leaf.items[idx as int]);
                    assert(refs(items_of(rest).skip(idx as int)).drop_first() =~= refs::<K, V>(
                        items_of(rest).skip(idx + 1),
                    ));
                }
                let r = alloc.leaf(at).kv_ref_unchecked(idx);
                (
                    Some(r),
                    Iterator { alloc, current, idx_in_leaf: idx + 1, chain: Ghost(rest) },
                )
            },
            None => {
                (None, Iterator { alloc, current, idx_in_leaf: idx, chain: Ghost(rest) })
            },
        }
    }
}

impl<'a, K: Key + 'a, V: 'a, const M: usize, A: NodeAllocator<K, V, M>> core::iter::Iterator for Iterator<'a, K, V, M, A> {
    type Item = (&'a K, &'a V);

    fn next(&mut self) -> (r: Option<(&'a K, &'a V)>) {
        let (item, rest) = self.step();
        *self = rest;
        item
    }
}

impl<'a, K: Key + 'a, V: 'a, const M: usize, A: NodeAllocator<K, V, M>> IteratorSpecImpl for Iterator<'a, K, V, M, A> {
    open spec fn obeys_prophetic_iter_laws(&self) -> bool {
        true
    }

    open spec fn remaining(&self) -> Seq<Self::Item> {
        self.coming()
    }

    open spec fn will_return_none(&self) -> bool {
        true
    }

    open spec fn decrease(&self) -> Option<nat> {
        Some(self.coming().len())
    }

    open spec fn initial_value_relation(&self, init: &Self) -> bool {
        self == init
    }

    open spec fn peek(&self, index: int) -> Option<Self::Item> {
        if 0 <= index < self.coming().len() {
            Some(self.coming()[index])
        } else {
            None
        }
    }
}

/// A walk whose items carry keys.
pub trait Keyed<K>: Walk {
    /// The key of an item.
    spec fn key_of(item: Self::Item) -> K;

    /// The key of an item.
    fn key(item: &Self::Item) -> (r: K)
        ensures
            r == Self::key_of(*item),
    ;
}

impl<'a, K: Key + 'a, V: 'a, const M: usize, A: NodeAllocator<K, V, M>> Keyed<K> for Iterator<
    'a,
    K,
    V,
    M,
    A,
> {
    open spec fn key_of(item: (&'a K, &'a V)) -> K {
        *item.0
    }

    fn key(item: &(&'a K, &'a V)) -> (r: K) {
        *item.0
    }
}

/// The keys of the items ascend strictly.
pub open spec fn climbs<K: Key, I: Keyed<K>>(items: Seq<I::Item>) -> bool {
    forall|i: int, j: int|
        #![trigger items[i], items[j]]
        0 <= i < j < items.len() ==> lt(I::key_of(items[i]), I::key_of(items[j]))
}

/// A walk over a whole tree, which knows how many items are still to come.
pub struct Full<I: Walk> {
    len: usize,
    inner: I,
}

impl<I: Walk> Full<I> {
    #[verifier::type_invariant]
    spec fn inv(self) -> bool {
        self.len == self.inner.coming().len()
    }

    /// The number of items still to come.
    pub fn len(&self) -> (r: usize)
        ensures
            r == self.coming().len(),
            r == IteratorSpec::remaining(self).len(),
    {
        proof {
            use_type_invariant(&*self);
        }
        self.len
    }
}

impl<I: Walk> Clone for Full<I> {
    fn clone(&self) -> (r: Self)
        ensures
            r == *self,
    {
        *self
    }
}

impl<I: Walk> Copy for Full<I> {

}

impl<I: Walk> Walk for Full<I> {
    type Item = I::Item;

    closed spec fn coming(&self) -> Seq<I::Item> {
        self.inner.coming()
    }

    fn step(self) -> (r: (Option<I::Item>, Self)) {
        proof {
            use_type_invariant(&self);
        }
        let (item, inner) = self.inner.step();
        let len: usize = if item.is_some() {
            self.len - 1
        } else {
            self.len
        };
        (item, Full { len, inner })
    }
}

impl<I: Walk> core::iter::Iterator for Full<I> {
    type Item = I::Item;

    fn next(&mut self) -> (r: Option<I::Item>) {
        let (item, rest) = self.step();
        *self = rest;
        item
    }
}

impl<I: Walk> IteratorSpecImpl for Full<I> {
    open spec fn obeys_prophetic_iter_laws(&self) -> bool {
        true
    }

    open spec fn remaining(&self) -> Seq<Self::Item> {
        self.coming()
    }

    open spec fn will_return_none(&self) -> bool {
        true
    }

    open spec fn decrease(&self) -> Option<nat> {
        Some(self.coming().len())
    }

    open spec fn initial_value_relation(&self, init: &Self) -> bool {
        self == init
    }

    open spec fn peek(&self, index: int) -> Option<Self::Item> {
        if 0 <= index < self.coming().len() {
            Some(self.coming()[index])
        } else {
            None
        }
    }
}

impl<K, I: Keyed<K>> Keyed<K> for Full<I> {
    open spec fn key_of(item: I::Item) -> K {
        I::key_of(item)
    }

    fn key(item: &I::Item) -> (r: K) {
        I::key(item)
    }
}

/// A walk over all pairs of a tree.
pub type FullIterator<'a, K, V, const M: usize, A> = Full<Iterator<'a, K, V, M, A>>;

impl<'a, K: Key + 'a, V: 'a, const M: usize, A: NodeAllocator<K, V, M>> Iterator<'a, K, V, M, A> {
    /// The walk over `tree` from slot `idx` of the leaf in place `j` of its chain, which is at
    /// `at`.
    fn from_leaf(
        tree: &'a BPlusTree<K, V, M, A>,
        at: Addr,
        idx: usize,
        Ghost(j): Ghost<int>,
    ) -> (r: Self)
        requires
            tree.wf(),
            0 <= j < leaves(tree.tree()).len(),
            leaves(tree.tree())[j].at == at,
            idx <= leaves(tree.tree())[j].leaf.items.len(),
        ensures
            r.coming() == refs::<K, V>(
                tree@.skip(items_of(leaves(tree.tree()).take(j)).len() + idx),
            ),
    {
        let ghost ls = leaves(tree.tree());
        let ghost rest = ls.skip(j);
        proof {
            tree.lemma_chain();
            lemma_suffix(tree.store(), ls, j);
            lemma_items_around(ls, j);
            assert(rest[0] == ls[j]);
            assert(items_of(rest).skip(idx as int) =~= tree@.skip(
                items_of(ls.take(j)).len() + idx,
            ));
        }
        Iterator {
            alloc: tree.allocator(),
            current: Some(at),
            idx_in_leaf: idx,
            chain: Ghost(rest),
        }
    }

    /// The walk over `tree` from its first pair.
    pub(crate) fn from_start(tree: &'a BPlusTree<K, V, M, A>) -> (r: Self)
        requires
            tree.wf(),
        ensures
            r.coming() == refs::<K, V>(tree@),
    {
        let at = tree.first_leaf();
        proof {
            lemma_items_empty(leaves(tree.tree()).take(0));
            assert(tree@.skip(0) =~= tree@);
        }
        Self::from_leaf(tree, at, 0, Ghost(0int))
    }
}

/// What is left of a chain behind its first leaves.
pub proof fn lemma_suffix<K: Key, V, const M: usize>(
    s: Store<K, V, M>,
    ls: Seq<Link<K, V>>,
    j: int,
)
    requires
        in_store(s, ls),
        chained(ls),
        0 <= j <= ls.len(),
    ensures
        in_store(s, ls.skip(j)),
        chained(ls.skip(j)),
        j < ls.len() ==> ls.skip(j).last() == ls.last(),
{
    reveal(chained);
    let rest = ls.skip(j);
    assert forall|a: int, b: int|
        #![trigger rest[a], rest[b]]
        0 <= a < rest.len() && 0 <= b < rest.len() && b == a + 1 implies rest[a].leaf.next == Some(
        rest[b].at,
    ) by {
        assert(rest[a] == ls[j + a] && rest[b] == ls[j + b]);
    }
    assert forall|i: int| 0 <= i < rest.len() implies {
        &&& s.leaves.dom().contains((#[trigger] rest[i]).at)
        &&& s.leaves[rest[i].at]@ == rest[i].leaf
        &&& s.leaves[rest[i].at].wf()
    } by {
        assert(rest[i] == ls[j + i]);
    }
}

impl<'a, K: Key + 'a, V: 'a, const M: usize, A: NodeAllocator<K, V, M>> Full<
    Iterator<'a, K, V, M, A>,
> {
    /// The walk over all pairs of `tree`.
    pub(crate) fn new(tree: &'a BPlusTree<K, V, M, A>) -> (r: Self)
        requires
            tree.wf(),
        ensures
            r.coming() == refs::<K, V>(tree@),
    {
        Full { len: tree.len(), inner: Iterator::from_start(tree) }
    }
}

/// One end of a range of keys.
#[derive(Debug, PartialEq, Eq)]
pub enum Bound<K> {
    Included(K),
    Excluded(K),
    Unbounded,
}

impl<K: Copy> Clone for Bound<K> {
    fn clone(&self) -> (r: Self)
        ensures
            r == *self,
    {
        *self
    }
}

impl<K: Copy> Copy for Bound<K> {

}

/// `k` does not lie before the start bound.
pub open spec fn after_start<K: Key>(start: Bound<K>, k: K) -> bool {
    match start {
        Bound::Included(b) => !lt(k, b),
        Bound::Excluded(b) => lt(b, k),
        Bound::Unbounded => true,
    }
}

/// `k` does not lie behind the end bound.
pub open spec fn before_end<K: Key>(end: Bound<K>, k: K) -> bool {
    match end {
        Bound::Included(b) => !lt(b, k),
        Bound::Excluded(b) => lt(k, b),
        Bound::Unbounded => true,
    }
}

/// Whether `key` does not lie behind the end bound.
pub(crate) fn check_bound<K: Key>(bound: &Bound<K>, key: &K) -> (r: bool)
    requires
        ordered::<K>(),
    ensures
        r == before_end(*bound, *key),
{
    match bound {
        Bound::Included(b) => !key_lt(b, key),
        Bound::Excluded(b) => key_lt(key, b),
        Bound::Unbounded => true,
    }
}

/// The number of pairs before the start bound.
pub open spec fn first_in<K: Key, V>(ps: Seq<(K, V)>, start: Bound<K>) -> nat {
    match start {
        Bound::Included(k) => rank(ps, k),
        Bound::Excluded(k) => if has_key(ps, k) {
            rank(ps, k) + 1
        } else {
            rank(ps, k)
        },
        Bound::Unbounded => 0,
    }
}

/// The pairs whose keys lie in the range: those from the start bound on, as far as the end bound
/// allows.
pub open spec fn window<K: Key, V>(ps: Seq<(K, V)>, start: Bound<K>, end: Bound<K>) -> Seq<(K, V)> {
    let tail = ps.skip(first_in(ps, start) as int);
    tail.take(lead(tail, end) as int)
}

/// How many pairs at the front do not lie behind the end bound.
pub open spec fn lead<K: Key, V>(ps: Seq<(K, V)>, end: Bound<K>) -> nat
    decreases ps.len(),
{
    if ps.len() == 0 || !before_end(end, ps[0].0) {
        0
    } else {
        lead(ps.drop_first(), end) + 1
    }
}

/// How many items at the front have keys that do not lie behind the end bound.
pub open spec fn reach<K: Key, I: Keyed<K>>(items: Seq<I::Item>, end: Bound<K>) -> nat
    decreases items.len(),
{
    if items.len() == 0 || !before_end(end, I::key_of(items[0])) {
        0
    } else {
        reach::<K, I>(items.drop_first(), end) + 1
    }
}

proof fn lemma_reach_bound<K: Key, I: Keyed<K>>(items: Seq<I::Item>, end: Bound<K>)
    ensures
        reach::<K, I>(items, end) <= items.len(),
    decreases items.len(),
{
    if items.len() > 0 {
        lemma_reach_bound::<K, I>(items.drop_first(), end);
    }
}

/// A walk that stops at the end bound of a range.
pub struct Bounded<I: Keyed<K>, K: Key> {
    /// The walk, from the start of the range on.
    inner: I,
    /// Where to stop.
    end: Bound<K>,
}

impl<I: Keyed<K>, K: Key> Bounded<I, K> {
    #[verifier::type_invariant]
    spec fn inv(self) -> bool {
        ordered::<K>() && climbs::<K, I>(self.inner.coming())
    }
}

impl<I: Keyed<K>, K: Key> Clone for Bounded<I, K> {
    fn clone(&self) -> (r: Self)
        ensures
            r == *self,
    {
        *self
    }
}

impl<I: Keyed<K>, K: Key> Copy for Bounded<I, K> {

}

impl<I: Keyed<K>, K: Key> Walk for Bounded<I, K> {
    type Item = I::Item;

    closed spec fn coming(&self) -> Seq<I::Item> {
        self.inner.coming().take(reach::<K, I>(self.inner.coming(), self.end) as int)
    }

    fn step(self) -> (r: (Option<I::Item>, Self)) {
        broadcast use group_order;

        proof {
            use_type_invariant(&self);
        }
        let ghost items = self.inner.coming();
        let (item, inner) = self.inner.step();
        proof {
            lemma_reach_bound::<K, I>(items, self.end);
            if items.len() > 0 {
                let rest = items.drop_first();
                lemma_reach_bound::<K, I>(rest, self.end);
                assert forall|i: int, j: int|
                    #![trigger rest[i], rest[j]]
                    0 <= i < j < rest.len() implies lt(
                    I::key_of(rest[i]),
                    I::key_of(rest[j]),
                ) by {
                    assert(rest[i] == items[i + 1] && rest[j] == items[j + 1]);
                }
                if !before_end(self.end, I::key_of(items[0])) && rest.len() > 0 {
                    assert(rest[0] == items[1]);
                    assert(lt(I::key_of(items[0]), I::key_of(items[1])));
                    assert(!before_end(self.end, I::key_of(rest[0])));
                }
                assert(items.take(reach::<K, I>(items, self.end) as int).len() > 0 ==> items.take(
                    reach::<K, I>(items, self.end) as int,
                ).drop_first() =~= rest.take(reach::<K, I>(rest, self.end) as int));
            }
        }
        let rest = Bounded { inner, end: self.end };
        match item {
            Some(x) => if check_bound(&self.end, &I::key(&x)) {
                (Some(x), rest)
            } else {
                (None, rest)
            },
            None => (None, rest),
        }
    }
}

impl<I: Keyed<K>, K: Key> core::iter::Iterator for Bounded<I, K> {
    type Item = I::Item;

    fn next(&mut self) -> (r: Option<I::Item>) {
        let (item, rest) = self.step();
        *self = rest;
        item
    }
}

impl<I: Keyed<K>, K: Key> IteratorSpecImpl for Bounded<I, K> {
    open spec fn obeys_prophetic_iter_laws(&self) -> bool {
        true
    }

    open spec fn remaining(&self) -> Seq<Self::Item> {
        self.coming()
    }

    open spec fn will_return_none(&self) -> bool {
        true
    }

    open spec fn decrease(&self) -> Option<nat> {
        Some(self.coming().len())
    }

    open spec fn initial_value_relation(&self, init: &Self) -> bool {
        self == init
    }

    open spec fn peek(&self, index: int) -> Option<Self::Item> {
        if 0 <= index < self.coming().len() {
            Some(self.coming()[index])
        } else {
            None
        }
    }
}

/// A walk over the pairs of a tree whose keys lie in a range.
pub type Range<'a, K, V, const M: usize, A> = Bounded<Iterator<'a, K, V, M, A>, K>;

/// Where a range that starts at `key` begins in the leaf that owns the key: the slot of the first
/// pair at or above it, and whether that pair is to be passed over.
pub(crate) fn start_in_leaf<K: Key, V, const M: usize>(leaf: &Leaf<K, V, M>, key: &K, excluded: bool) -> (r: (
    usize,
    bool,
))
    requires
        ordered::<K>(),
        leaf.wf(),
    ensures
        r.0 == rank(leaf@.items, *key),
        r.0 <= leaf@.items.len(),
        r.1 == (excluded && has_key(leaf@.items, *key)),
{
    let (idx, exact) = leaf.probe(key);
    (idx, excluded && exact)
}

/// The walk over the references to a sorted run stops where the run does.
proof fn lemma_reach_refs<'a, K: Key + 'a, V: 'a, I: Keyed<K, Item = (&'a K, &'a V)>>(
    ps: Seq<(K, V)>,
    end: Bound<K>,
)
    requires
        forall|x: (&'a K, &'a V)| #[trigger] I::key_of(x) == *x.0,
    ensures
        reach::<K, I>(refs(ps), end) == lead(ps, end),
        lead(ps, end) <= ps.len(),
    decreases ps.len(),
{
    let rs: Seq<(&'a K, &'a V)> = refs(ps);
    if ps.len() > 0 {
        lemma_reach_refs::<K, V, I>(ps.drop_first(), end);
        assert(rs.drop_first() =~= refs(ps.drop_first()));
        assert(rs[0] == (&ps[0].0, &ps[0].1));
    }
}

impl<'a, K: Key + 'a, V: 'a, const M: usize, A: NodeAllocator<K, V, M>> Bounded<
    Iterator<'a, K, V, M, A>,
    K,
> {
    /// The walk over the pairs of `tree` from `start` to `end`.
    pub(crate) fn new(tree: &'a BPlusTree<K, V, M, A>, start: Bound<K>, end: Bound<K>) -> (r: Self)
        requires
            tree.wf(),
        ensures
            r.coming() == refs::<K, V>(window(tree@, start, end)),
    {
        proof {
            tree.lemma_wf();
        }
        let ghost ps = tree@;
        let ghost ls = leaves(tree.tree());
        let ghost from = first_in(ps, start) as int;
        let inner = match start {
            Bound::Unbounded => {
                assert(ps.skip(0) =~= ps);
                Iterator::from_start(tree)
            },
            Bound::Included(key) => {
                let (at, Ghost(j)) = tree.find_leaf(&key);
                proof {
                    lemma_owner(ls, j, key);
                }
                let (idx, _) = start_in_leaf(tree.allocator().leaf(at), &key, false);
                Iterator::from_leaf(tree, at, idx, Ghost(j))
            },
            Bound::Excluded(key) => {
                let (at, Ghost(j)) = tree.find_leaf(&key);
                proof {
                    lemma_owner(ls, j, key);
                }
                let (idx, advance) = start_in_leaf(tree.allocator().leaf(at), &key, true);
                let walk = Iterator::from_leaf(tree, at, idx, Ghost(j));
                if advance {
                    let ghost r = rank(ps, key) as int;
                    assert(refs::<K, V>(ps.skip(r)).drop_first() =~= refs::<K, V>(ps.skip(r + 1)));
                    let (_, rest) = walk.step();
                    rest
                } else {
                    walk
                }
            },
        };
        proof {
            lemma_first_in(ps, start);
            let tail = ps.skip(from);
            assert(inner.coming() == refs::<K, V>(tail));
            lemma_reach_refs::<K, V, Iterator<'a, K, V, M, A>>(tail, end);
            let items = inner.coming();
            assert forall|i: int, j: int|
                #![trigger items[i], items[j]]
                0 <= i < j < items.len() implies lt(*items[i].0, *items[j].0) by {
                assert(items[i] == (&tail[i].0, &tail[i].1));
                assert(items[j] == (&tail[j].0, &tail[j].1));
                assert(tail[i] == ps[from + i] && tail[j] == ps[from + j]);
            }
            assert(items.take(lead(tail, end) as int) =~= refs::<K, V>(
                tail.take(lead(tail, end) as int),
            ));
        }
        Bounded { inner, end }
    }
}

/// In a sorted run the pairs from the start bound on are exactly those that come behind the ones
/// before it.
pub proof fn lemma_first_in<K: Key, V>(ps: Seq<(K, V)>, start: Bound<K>)
    requires
        ordered::<K>(),
        sorted(ps),
    ensures
        first_in(ps, start) <= ps.len(),
        forall|i: int|
            0 <= i < ps.len() ==> (after_start(start, #[trigger] ps[i].0) <==> first_in(ps, start)
                <= i),
{
    broadcast use group_order;

    match start {
        Bound::Included(k) => {
            lemma_rank_splits(ps, k);
        },
        Bound::Excluded(k) => {
            lemma_rank_splits(ps, k);
            lemma_has_key(ps, k);
            let r = rank(ps, k) as int;
            assert forall|i: int| 0 <= i < ps.len() implies (after_start(start, #[trigger] ps[i].0)
                <==> first_in(ps, start) <= i) by {
                if i > r {
                    assert(lt(ps[r].0, ps[i].0));
                    assert(!lt(ps[r].0, k));
                } else if i == r && !has_key(ps, k) {
                    assert(!lt(ps[r].0, k) && !crate::key::same(ps[r].0, k));
                }
            }
        },
        Bound::Unbounded => {},
    }
}

impl<'a, K: Key + 'a, V: 'a, const M: usize, A: NodeAllocator<
    K,
    V,
    M,
>> core::iter::FusedIterator for Iterator<'a, K, V, M, A> {

}

impl<I: Walk> core::iter::FusedIterator for Full<I> {

}

impl<I: Walk> core::iter::ExactSizeIterator for Full<I> {
    fn len(&self) -> (r: usize)
        ensures
            r == self.coming().len(),
            r == IteratorSpec::remaining(self).len(),
    {
        self.len()
    }
}

impl<I: Keyed<K>, K: Key> core::iter::FusedIterator for Bounded<I, K> {

}

} // verus!
