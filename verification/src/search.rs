//! Descending to a leaf, and taking a subtree down.
use crate::allocator::{Addr, NodeAllocator, Store};
use crate::entries::{all_above, all_below, has_key, lemma_middle, lookup, sorted};
use crate::inner::Inner;
use crate::key::{ordered, Key};
use crate::lemmas::{
    lemma_cut, lemma_items_concat, lemma_kept, lemma_leaf_pairs, lemma_one, lemma_routed,
    lemma_unwrap,
};
use crate::model::{
    abs, all_distinct, all_held, any_inner, any_leaf, apart, distinct, forest, from, group_unfold,
    has_inner, held, high, inner_splits, items_of, leaf_splits, leaves, leaves_of, low, moved,
    ord, ord_row, pairs_of, replaced, shape, sound, splits, under, Link, Tree,
};
use crate::node::lemma_child;
use vstd::prelude::*;

verus! {

broadcast use group_unfold;

/// The leaf in place `j` of the row owns `k`: what comes before it lies below `k`, what comes
/// after it above.
pub open spec fn owns<K: Key, V>(ls: Seq<Link<K, V>>, j: int, k: K) -> bool {
    &&& 0 <= j < ls.len()
    &&& all_below(items_of(ls.take(j)), k)
    &&& all_above(items_of(ls.skip(j + 1)), k)
}

/// A row of leaves, cut around one of them.
pub proof fn lemma_items_around<K, V>(ls: Seq<Link<K, V>>, j: int)
    requires
        0 <= j < ls.len(),
    ensures
        items_of(ls) == items_of(ls.take(j)) + ls[j].leaf.items + items_of(ls.skip(j + 1)),
        items_of(ls.skip(j)) == ls[j].leaf.items + items_of(ls.skip(j + 1)),
        items_of(ls) == items_of(ls.take(j)) + items_of(ls.skip(j)),
{
    let one = seq![ls[j]];
    assert(ls =~= ls.take(j) + ls.skip(j));
    assert(ls.skip(j) =~= one + ls.skip(j + 1));
    lemma_items_concat(ls.take(j), ls.skip(j));
    lemma_items_concat(one, ls.skip(j + 1));
    reveal(items_of);
    assert(items_of(one.drop_last()) =~= Seq::<(K, V)>::empty());
    assert(one.last() == ls[j]);
    assert(items_of(one) =~= ls[j].leaf.items);
    assert(items_of(ls) =~= items_of(ls.take(j)) + ls[j].leaf.items + items_of(ls.skip(j + 1)));
}

/// An empty row of leaves has no pairs.
pub proof fn lemma_items_empty<K, V>(ls: Seq<Link<K, V>>)
    requires
        ls.len() == 0,
    ensures
        items_of(ls) == Seq::<(K, V)>::empty(),
{
    reveal(items_of);
}

/// The leaf that owns `key` decides about it.
pub proof fn lemma_owner<K: Key, V>(ls: Seq<Link<K, V>>, j: int, k: K)
    requires
        ordered::<K>(),
        owns(ls, j, k),
        crate::entries::sorted(ls[j].leaf.items),
    ensures
        lookup(items_of(ls), k) == lookup(ls[j].leaf.items, k),
        has_key(items_of(ls), k) == has_key(ls[j].leaf.items, k),
        crate::entries::rank(items_of(ls), k) == items_of(ls.take(j)).len()
            + crate::entries::rank(ls[j].leaf.items, k),
        crate::entries::rank(ls[j].leaf.items, k) <= ls[j].leaf.items.len(),
        forall|v: V| #[trigger]
            crate::entries::put(items_of(ls), k, v) == items_of(ls.take(j)) + crate::entries::put(
                ls[j].leaf.items,
                k,
                v,
            ) + items_of(ls.skip(j + 1)),
{
    lemma_items_around(ls, j);
    lemma_middle(items_of(ls.take(j)), ls[j].leaf.items, items_of(ls.skip(j + 1)), k);
}

/// The leaf of child `i` that owns `k`, seen from the parent.
proof fn lemma_owner_up<K: Key, V>(ts: Seq<Tree<K, V>>, i: int, j: int, k: K)
    requires
        0 <= i < ts.len(),
        all_below(pairs_of(ts.take(i)), k),
        all_above(pairs_of(ts.skip(i + 1)), k),
        owns(leaves(ts[i]), j, k),
    ensures
        owns(leaves_of(ts), leaves_of(ts.take(i)).len() + j, k),
        leaves_of(ts)[leaves_of(ts.take(i)).len() + j] == leaves(ts[i])[j],
{
    lemma_cut(ts, i, i + 1);
    assert(ts.subrange(i, i + 1) =~= seq![ts[i]]);
    lemma_one(ts[i]);
    let a = leaves_of(ts.take(i));
    let b = leaves(ts[i]);
    let c = leaves_of(ts.skip(i + 1));
    let ls = leaves_of(ts);
    let at = a.len() as int + j;
    assert(ls.take(at) =~= a + b.take(j));
    assert(ls.skip(at + 1) =~= b.skip(j + 1) + c);
    lemma_items_concat(a, b.take(j));
    lemma_items_concat(b.skip(j + 1), c);
    let x = items_of(a);
    let y = items_of(b.take(j));
    assert forall|l: int| 0 <= l < (x + y).len() implies crate::key::lt(
        #[trigger] (x + y)[l].0,
        k,
    ) by {
        if l < x.len() {
            assert((x + y)[l] == x[l]);
        } else {
            assert((x + y)[l] == y[l - x.len()]);
        }
    }
    let z = items_of(b.skip(j + 1));
    let w = items_of(c);
    assert forall|l: int| 0 <= l < (z + w).len() implies crate::key::lt(
        k,
        #[trigger] (z + w)[l].0,
    ) by {
        if l < z.len() {
            assert((z + w)[l] == z[l]);
        } else {
            assert((z + w)[l] == w[l - z.len()]);
        }
    }
}

/// Descends from the node of height `h` at `n` to the leaf that owns `key`. Also gives the leaf's
/// place in the chain.
pub fn find_leaf_node<K: Key, V, const M: usize, A: NodeAllocator<K, V, M>>(
    alloc: &A,
    n: Addr,
    h: u8,
    key: &K,
    Ghost(lo): Ghost<Option<K>>,
    Ghost(hi): Ghost<Option<K>>,
) -> (r: (Addr, Ghost<int>))
    requires
        ordered::<K>(),
        alloc.wf(),
        held(alloc.store(), n, h as nat),
        ord(abs(alloc.store(), n, h as nat), lo, hi),
        from(lo, *key),
        under(*key, hi),
    ensures
        owns(leaves(abs(alloc.store(), n, h as nat)), r.1@, *key),
        leaves(abs(alloc.store(), n, h as nat))[r.1@].at == r.0,
        held(alloc.store(), r.0, 0),
        alloc.store().leaves[r.0]@ == leaves(abs(alloc.store(), n, h as nat))[r.1@].leaf,
        sorted(alloc.store().leaves[r.0]@.items),
    decreases h,
{
    let ghost s = alloc.store();
    let ghost t = abs(s, n, h as nat);
    if h == 0 {
        proof {
            lemma_leaf_pairs(t);
            lemma_items_empty(leaves(t).take(0));
            lemma_items_empty(leaves(t).skip(1));
        }
        return (n, Ghost(0int));
    }
    let ghost g = (h - 1) as nat;
    let ghost keys = s.inners[n]@.keys;
    let ghost ts = forest(s, s.inners[n]@.kids, g);
    proof {
        lemma_routed(keys, ts, lo, hi, *key);
    }
    let inner = alloc.inner(n);
    let idx: usize = inner.child_idx_for_key(key);
    let child = inner.children_ref()[idx];
    let ghost i = idx as int;
    assert(ord(ts[i], low(keys, i, lo), high(keys, i, hi)));
    let (at, Ghost(j)) = find_leaf_node(
        alloc,
        child,
        h - 1,
        key,
        Ghost(low(keys, i, lo)),
        Ghost(high(keys, i, hi)),
    );
    proof {
        lemma_owner_up(ts, i, j, *key);
    }
    (at, Ghost(leaves_of(ts.take(i)).len() as int + j))
}

/// The leftmost leaf of the tree of height `h` at `n`.
pub fn first_leaf_node<K: Key, V, const M: usize, A: NodeAllocator<K, V, M>>(
    alloc: &A,
    n: Addr,
    h: u8,
) -> (r: Addr)
    requires
        alloc.wf(),
        held(alloc.store(), n, h as nat),
        shape(abs(alloc.store(), n, h as nat), h as nat, M),
    ensures
        leaves(abs(alloc.store(), n, h as nat)).len() > 0,
        leaves(abs(alloc.store(), n, h as nat))[0].at == r,
    decreases h,
{
    let ghost s = alloc.store();
    let ghost t = abs(s, n, h as nat);
    if h == 0 {
        proof {
            lemma_leaf_pairs(t);
        }
        return n;
    }
    let ghost g = (h - 1) as nat;
    let ghost ts = forest(s, s.inners[n]@.kids, g);
    let child = alloc.inner(n).children_ref()[0];
    proof {
        assert(ts[0] == abs(s, child, g));
        lemma_cut(ts, 0, 1);
        assert(ts.subrange(0, 1) =~= seq![ts[0]]);
        assert(ts.take(0) =~= Seq::<Tree<K, V>>::empty());
        reveal(leaves_of);
        lemma_one(ts[0]);
    }
    first_leaf_node(alloc, child, h - 1)
}

/// The rightmost leaf of the tree of height `h` at `n`.
pub fn last_leaf_node<K: Key, V, const M: usize, A: NodeAllocator<K, V, M>>(
    alloc: &A,
    n: Addr,
    h: u8,
) -> (r: Addr)
    requires
        alloc.wf(),
        held(alloc.store(), n, h as nat),
        shape(abs(alloc.store(), n, h as nat), h as nat, M),
    ensures
        leaves(abs(alloc.store(), n, h as nat)).len() > 0,
        leaves(abs(alloc.store(), n, h as nat)).last().at == r,
    decreases h,
{
    let ghost s = alloc.store();
    let ghost t = abs(s, n, h as nat);
    if h == 0 {
        proof {
            lemma_leaf_pairs(t);
        }
        return n;
    }
    let ghost g = (h - 1) as nat;
    let ghost ts = forest(s, s.inners[n]@.kids, g);
    let inner = alloc.inner(n);
    let child = inner.children_ref()[inner.len() - 1];
    proof {
        let l = ts.len() - 1;
        assert(ts[l] == abs(s, child, g));
        lemma_cut(ts, l, l + 1);
        assert(ts.subrange(l, l + 1) =~= seq![ts[l]]);
        assert(ts.skip(l + 1) =~= Seq::<Tree<K, V>>::empty());
        reveal(leaves_of);
        lemma_one(ts[l]);
    }
    last_leaf_node(alloc, child, h - 1)
}

/// What storing a pair would cost: whether the leaf that owns the key is split, how many inner
/// nodes are, and whether the root is among them.
pub struct Cost {
    pub leaf: bool,
    pub inners: usize,
    pub root: bool,
}

/// What storing a pair under `key` in the subtree of height `h` at `n` would cost.
pub fn insert_cost<K: Key, V, const M: usize, A: NodeAllocator<K, V, M>>(
    alloc: &A,
    n: Addr,
    h: u8,
    key: &K,
    Ghost(lo): Ghost<Option<K>>,
    Ghost(hi): Ghost<Option<K>>,
) -> (r: Cost)
    requires
        ordered::<K>(),
        alloc.wf(),
        held(alloc.store(), n, h as nat),
        sound(abs(alloc.store(), n, h as nat), h as nat, M, lo, hi),
        from(lo, *key),
        under(*key, hi),
    ensures
        ({
            let t = abs(alloc.store(), n, h as nat);
            &&& r.leaf == leaf_splits(t, *key, M)
            &&& r.inners == inner_splits(t, *key, M)
            &&& r.root == splits(t, *key, M)
        }),
        r.inners <= h,
    decreases h,
{
    let ghost s = alloc.store();
    if h == 0 {
        let leaf = alloc.leaf(n);
        let full = leaf.len() == M && !leaf.probe(key).1;
        return Cost { leaf: full, inners: 0, root: full };
    }
    let ghost g = (h - 1) as nat;
    let ghost keys = s.inners[n]@.keys;
    let ghost ns = s.inners[n]@.kids;
    let ghost ts = forest(s, ns, g);
    proof {
        lemma_unwrap(s, n, h as nat);
        lemma_routed(keys, ts, lo, hi, *key);
    }
    let inner = alloc.inner(n);
    let idx: usize = inner.child_idx_for_key(key);
    let child = inner.children_ref()[idx];
    let ghost i = idx as int;
    proof {
        lemma_child(keys, ts, i, g, M, lo, hi);
        assert(ts[i] == abs(s, child, g));
    }
    let below = insert_cost(
        alloc,
        child,
        h - 1,
        key,
        Ghost(low(keys, i, lo)),
        Ghost(high(keys, i, hi)),
    );
    let root = below.root && inner.len() == M;
    let inners: usize = if root {
        below.inners + 1
    } else {
        below.inners
    };
    Cost { leaf: below.leaf, inners, root }
}

/// Takes down the subtree of height `h` at `n`: every node is moved out of its slot and dropped,
/// and the slot retired.
pub fn drop_node<K: Key, V, const M: usize, A: NodeAllocator<K, V, M>>(
    alloc: &mut A,
    n: Addr,
    h: u8,
)
    requires
        old(alloc).wf(),
        held(old(alloc).store(), n, h as nat),
        distinct(abs(old(alloc).store(), n, h as nat)),
    ensures
        final(alloc).wf(),
        replaced(
            old(alloc).store(),
            final(alloc).store(),
            seq![abs(old(alloc).store(), n, h as nat)],
            Seq::<Tree<K, V>>::empty(),
        ),
    decreases h, 1nat,
{
    let ghost s = alloc.store();
    let ghost t = abs(s, n, h as nat);
    proof {
        lemma_one(t);
        lemma_none::<K, V>();
    }
    if h == 0 {
        let _ = alloc.dealloc_leaf(n);
        proof {
            reveal(moved);
        }
    } else {
        let ghost g = (h - 1) as nat;
        let ghost ns = s.inners[n]@.kids;
        let ghost ts = forest(s, ns, g);
        proof {
            lemma_unwrap(s, n, h as nat);
        }
        let inner = alloc.dealloc_inner(n);
        let ghost s0 = alloc.store();
        proof {
            crate::lemmas::lemma_all_held_dom(s, ns, g);
            crate::lemmas::lemma_row_kept(s, s0, ns, g);
        }
        inner.drop_subtree(h, alloc);
        proof {
            lemma_dropped(s, s0, alloc.store(), t);
        }
    }
}

/// A node and all that is below it have gone.
proof fn lemma_dropped<K: Key, V, const M: usize>(
    s: Store<K, V, M>,
    s0: Store<K, V, M>,
    u: Store<K, V, M>,
    t: Tree<K, V>,
)
    requires
        t is Inner,
        s0 == (Store { inners: s.inners.remove(t->Inner_at), ..s }),
        !any_inner(t->kids, t->Inner_at),
        replaced(s0, u, t->kids, Seq::<Tree<K, V>>::empty()),
    ensures
        replaced(s, u, seq![t], Seq::<Tree<K, V>>::empty()),
{
    reveal(moved);
    lemma_one(t);
    lemma_none::<K, V>();
    let none = Seq::<Tree<K, V>>::empty();
    let old = seq![t];
    assert forall|a: Addr| #![trigger s.leaves.dom().contains(a)]
        s.leaves.dom().contains(a) && !any_leaf(old, a) implies {
        &&& u.leaves.dom().contains(a)
        &&& u.leaves[a] == s.leaves[a]
        &&& !any_leaf(none, a)
    } by {
        assert(s0.leaves.dom().contains(a));
    }
    assert forall|a: Addr| #![trigger s.inners.dom().contains(a)]
        s.inners.dom().contains(a) && !any_inner(old, a) implies {
        &&& u.inners.dom().contains(a)
        &&& u.inners[a] == s.inners[a]
        &&& !any_inner(none, a)
    } by {
        assert(has_inner(t, t->Inner_at));
        assert(s0.inners.dom().contains(a));
    }
    assert forall|a: Addr| #![trigger u.inners.dom().contains(a)]
        u.inners.dom().contains(a) && !any_inner(none, a) implies {
        &&& s.inners.dom().contains(a)
        &&& !any_inner(old, a)
    } by {
        assert(s0.inners.dom().contains(a));
    }
}

/// No address occurs in an empty row.
proof fn lemma_none<K, V>()
    ensures
        forall|a: Addr| !#[trigger] any_leaf(Seq::<Tree<K, V>>::empty(), a),
        forall|a: Addr| !#[trigger] any_inner(Seq::<Tree<K, V>>::empty(), a),
{
    reveal(any_leaf);
    reveal(any_inner);
}

/// Takes down the tree in place `i` of a row, of which those before it have been taken down
/// already.
pub(crate) fn drop_next<K: Key, V, const M: usize, A: NodeAllocator<K, V, M>>(
    alloc: &mut A,
    n: Addr,
    h: u8,
    Ghost(s): Ghost<Store<K, V, M>>,
    Ghost(ts): Ghost<Seq<Tree<K, V>>>,
    Ghost(i): Ghost<int>,
)
    requires
        old(alloc).wf(),
        all_distinct(ts),
        0 <= i < ts.len(),
        held(s, n, h as nat),
        ts[i] == abs(s, n, h as nat),
        replaced(s, old(alloc).store(), ts.take(i), Seq::<Tree<K, V>>::empty()),
    ensures
        final(alloc).wf(),
        replaced(s, final(alloc).store(), ts.take(i + 1), Seq::<Tree<K, V>>::empty()),
    decreases h, 2nat,
{
    let ghost none = Seq::<Tree<K, V>>::empty();
    proof {
        let done = ts.take(i);
        assert forall|l: int| 0 <= l < done.len() implies apart(#[trigger] done[l], ts[i]) by {
            assert(done[l] == ts[l]);
        }
        lemma_kept(s, alloc.store(), n, h as nat, done, none);
    }
    drop_node(alloc, n, h);
    proof {
        let t = ts[i];
        assert(ts.take(i + 1) =~= ts.take(i) + seq![t]);
        crate::lemmas::lemma_any_concat(ts.take(i), seq![t]);
        lemma_one(t);
        lemma_none::<K, V>();
        assert(replaced(s, alloc.store(), ts.take(i + 1), none)) by {
            reveal(moved);
        }
    }
}

impl<K: Key, V, const M: usize> Inner<K, V, M> {
    /// Takes down everything below this node, which has been moved out of its slot.
    pub fn drop_subtree<A: NodeAllocator<K, V, M>>(self, height: u8, alloc: &mut A)
        requires
            height > 0,
            old(alloc).wf(),
                all_held(old(alloc).store(), self@.kids, (height - 1) as nat),
            all_distinct(forest(old(alloc).store(), self@.kids, (height - 1) as nat)),
        ensures
            final(alloc).wf(),
            replaced(
                old(alloc).store(),
                final(alloc).store(),
                forest(old(alloc).store(), self@.kids, (height - 1) as nat),
                Seq::<Tree<K, V>>::empty(),
            ),
        decreases height, 0nat,
    {
        let ghost s = alloc.store();
        let ghost g = (height - 1) as nat;
        let ghost ns = self@.kids;
        let ghost ts = forest(s, ns, g);
        let ghost none = Seq::<Tree<K, V>>::empty();
        let mut i: usize = 0;
        proof {
            lemma_none::<K, V>();
            assert(ts.take(0) =~= none);
            assert(replaced(s, s, ts.take(0), none)) by {
                reveal(moved);
            }
        }
        while i < self.len()
            invariant
                height > 0,
                g == (height - 1) as nat,
                i <= ns.len(),
                ns == self@.kids,
                ts == forest(s, ns, g),
                        all_held(s, ns, g),
                all_distinct(ts),
                none == Seq::<Tree<K, V>>::empty(),
                alloc.wf(),
                replaced(s, alloc.store(), ts.take(i as int), none),
            decreases ns.len() - i,
        {
            let child = self.children_ref()[i];
            assert(ts[i as int] == abs(s, child, g));
            drop_next(alloc, child, height - 1, Ghost(s), Ghost(ts), Ghost(i as int));
            i = i + 1;
        }
        assert(ts.take(i as int) =~= ts);
    }

    /// The value stored under `key` below this node.
    pub fn get<'a, A: NodeAllocator<K, V, M>>(&self, height: u8, key: &K, alloc: &'a A) -> (r: Option<
        &'a V,
    >) where K: 'a
        requires
            ordered::<K>(),
            height > 0,
            alloc.wf(),
            all_held(alloc.store(), self@.kids, (height - 1) as nat),
            ord_row(
                self@.keys,
                forest(alloc.store(), self@.kids, (height - 1) as nat),
                None,
                None,
            ),
        ensures
            ({
                let ps = pairs_of(forest(alloc.store(), self@.kids, (height - 1) as nat));
                &&& r is Some <==> has_key(ps, *key)
                &&& r matches Some(v) ==> Some(*v) == lookup(ps, *key)
            }),
    {
        let ghost s = alloc.store();
        let ghost g = (height - 1) as nat;
        let ghost keys = self@.keys;
        let ghost ts = forest(s, self@.kids, g);
        proof {
            lemma_routed(keys, ts, None, None, *key);
        }
        let idx: usize = self.child_idx_for_key(key);
        let child = self.children_ref()[idx];
        let ghost i = idx as int;
        assert(ord(ts[i], low(keys, i, None), high(keys, i, None)));
        let (at, Ghost(j)) = find_leaf_node(
            alloc,
            child,
            height - 1,
            key,
            Ghost(low(keys, i, None)),
            Ghost(high(keys, i, None)),
        );
        proof {
            lemma_owner_up(ts, i, j, *key);
            lemma_owner(leaves_of(ts), leaves_of(ts.take(i)).len() + j, *key);
        }
        alloc.leaf(at).get(key)
    }
}

} // verus!
