//! Work on subtrees: descending by height, splitting on the way up, rebalancing after removal.
use crate::allocator::{Addr, NodeAllocator, Rooms, Store};
use crate::entries::{
    del, entry, has_key, lemma_middle, lemma_rank_splits, lookup, put, rank, sorted,
};
use crate::inner::{ascending, route, Inner};
use crate::key::{lt, ordered, Key};
use crate::leaf::{half, LeafView};
use crate::lemmas::{
    lemma_chained_part, lemma_cut, lemma_gather_any, lemma_inner_merged, lemma_inner_pair,
    lemma_inner_pair_any, lemma_leaf_changed, lemma_leaf_merged, lemma_leaf_pair, lemma_leaf_pairs,
    lemma_leaf_row, lemma_leaf_split, lemma_neighbours, lemma_one, lemma_ord_pairs,
    lemma_ord_row_pairs, lemma_put_back, lemma_put_back_two, lemma_put_within,
    lemma_replaced_trans, lemma_routed, lemma_swap, lemma_swap_sound, lemma_unwrap,
};
use crate::model::{
    abs, all_distinct, all_held, chained, exchanged, filled, forest, from, group_unfold, held, high,
    inner_splits, leaf_bill, leaf_splits, leaves, leaves_of, low, ord, ord_row, pairs, pairs_of,
    replaced, same_ends, shape, size, sound, sound_row, splits, swapped, under, within, Tree,
};
use vstd::prelude::*;

verus! {

broadcast use group_unfold;

/// The separators between the nodes that an insertion leaves in the place of one.
pub open spec fn split_keys<K>(split: Option<(K, Addr)>) -> Seq<K> {
    match split {
        None => Seq::empty(),
        Some((sep, right)) => seq![sep],
    }
}

/// The nodes that an insertion leaves in the place of the one at `n`.
pub open spec fn split_nodes<K>(n: Addr, split: Option<(K, Addr)>) -> Seq<Addr> {
    match split {
        None => seq![n],
        Some((sep, right)) => seq![n, right],
    }
}

/// A child of a sound tree, on its own.
pub proof fn lemma_child<K: Key, V>(
    keys: Seq<K>,
    ts: Seq<Tree<K, V>>,
    i: int,
    h: nat,
    m: usize,
    lo: Option<K>,
    hi: Option<K>,
)
    requires
        sound_row(keys, ts, h, m, lo, hi),
        0 <= i < ts.len(),
    ensures
        sound(ts[i], h, m, low(keys, i, lo), high(keys, i, hi)),
        filled(ts[i], m),
        ts.subrange(i, i + 1) == seq![ts[i]],
        pairs_of(ts.subrange(i, i + 1)) == pairs(ts[i]),
{
    lemma_cut(ts, i, i + 1);
    lemma_chained_part(
        leaves_of(ts.take(i)),
        leaves_of(ts.subrange(i, i + 1)),
        leaves_of(ts.skip(i + 1)),
    );
    assert(ts.subrange(i, i + 1) =~= seq![ts[i]]);
    lemma_one(ts[i]);
}

/// Stores `val` under `key` in the leaf at `n`. Returns the replaced value, and the separator and
/// the new right sibling if the leaf was split.
fn insert_leaf<K: Key, V, const M: usize, A: NodeAllocator<K, V, M>>(
    alloc: &mut A,
    n: Addr,
    key: K,
    val: V,
    Ghost(lo): Ghost<Option<K>>,
    Ghost(hi): Ghost<Option<K>>,
) -> (r: (Option<V>, Option<(K, Addr)>))
    requires
        M >= 3,
        ordered::<K>(),
        old(alloc).wf(),
        held(old(alloc).store(), n, 0),
        sound(abs(old(alloc).store(), n, 0), 0, M, lo, hi),
        from(lo, key),
        under(key, hi),
        leaf_splits(abs(old(alloc).store(), n, 0), key, M) ==> old(alloc).rooms().leaf != Some(
            0nat,
        ),
    ensures
        final(alloc).wf(),
        final(alloc).rooms() == old(alloc).rooms().less(
            leaf_bill(abs(old(alloc).store(), n, 0), key, M),
            0,
        ),
        r.1 is Some <==> splits(abs(old(alloc).store(), n, 0), key, M),
        ({
            let s = old(alloc).store();
            let u = final(alloc).store();
            let t = abs(s, n, 0);
            let new = split_nodes(n, r.1);
            let news = forest(u, new, 0);
            &&& r.0 == lookup(pairs(t), key)
            &&& swapped(s, u, seq![t], split_keys(r.1), new, 0, lo, hi)
            &&& pairs_of(news) == put(pairs(t), key, val)
            &&& r.1 is None ==> size(news[0]) >= size(t)
            &&& r.1 is Some ==> filled(news[0], M) && filled(news[1], M)
        }),
{
    let ghost s = alloc.store();
    let ghost t = abs(s, n, 0);
    proof {
        alloc.lemma_live_or_raw();
        lemma_leaf_pairs(t);
        lemma_put_within(pairs(t), key, val, lo, hi);
    }
    let mut leaf = alloc.read_leaf(n);
    let (old_val, split) = leaf.insert(key, val, alloc);
    match split {
        None => {
            alloc.write_leaf(n, leaf);
            proof {
                assert(alloc.store().raw_leaves =~= s.raw_leaves);
                assert(alloc.store().leaves =~= s.leaves.insert(n, leaf));
                lemma_leaf_changed(s, n, leaf, lo, hi);
            }
            (old_val, None)
        },
        Some(right) => {
            let ghost y = alloc.store().leaves[right];
            let ghost all = put(pairs(t), key, val);
            let sep = *alloc.leaf(right).first_key();
            alloc.write_leaf(n, leaf);
            proof {
                assert(all =~= leaf@.items + y@.items);
                assert(alloc.store().raw_leaves =~= s.raw_leaves);
                assert(alloc.store().leaves =~= s.leaves.insert(right, y).insert(n, leaf));
                lemma_leaf_split(s, n, right, leaf, y, lo, hi);
            }
            (old_val, Some((sep, right)))
        },
    }
}

/// Stores `val` under `key` in the subtree of height `h` at `n`. Returns the replaced value, and
/// the separator and the new right sibling if the node at `n` was split.
#[verifier::rlimit(60)]
pub fn insert_node<K: Key, V, const M: usize, A: NodeAllocator<K, V, M>>(
    alloc: &mut A,
    n: Addr,
    h: u8,
    key: K,
    val: V,
    Ghost(lo): Ghost<Option<K>>,
    Ghost(hi): Ghost<Option<K>>,
) -> (r: (Option<V>, Option<(K, Addr)>))
    requires
        M >= 3,
        ordered::<K>(),
        old(alloc).wf(),
        held(old(alloc).store(), n, h as nat),
        sound(abs(old(alloc).store(), n, h as nat), h as nat, M, lo, hi),
        from(lo, key),
        under(key, hi),
        ({
            let t = abs(old(alloc).store(), n, h as nat);
            old(alloc).rooms().fit(leaf_bill(t, key, M), inner_splits(t, key, M))
        }),
    ensures
        final(alloc).wf(),
        ({
            let t = abs(old(alloc).store(), n, h as nat);
            &&& final(alloc).rooms() == old(alloc).rooms().less(
                leaf_bill(t, key, M),
                inner_splits(t, key, M),
            )
            &&& r.1 is Some <==> splits(t, key, M)
        }),
        ({
            let s = old(alloc).store();
            let u = final(alloc).store();
            let t = abs(s, n, h as nat);
            let new = split_nodes(n, r.1);
            let news = forest(u, new, h as nat);
            &&& r.0 == lookup(pairs(t), key)
            &&& swapped(s, u, seq![t], split_keys(r.1), new, h as nat, lo, hi)
            &&& pairs_of(news) == put(pairs(t), key, val)
            &&& r.1 is None ==> size(news[0]) >= size(t)
            &&& r.1 is Some ==> filled(news[0], M) && filled(news[1], M)
        }),
    decreases h,
{
    if h == 0 {
        return insert_leaf(alloc, n, key, val, Ghost(lo), Ghost(hi));
    }
    let ghost s = alloc.store();
    let ghost t = abs(s, n, h as nat);
    let ghost g = (h - 1) as nat;
    let ghost keys = s.inners[n]@.keys;
    let ghost ns = s.inners[n]@.kids;
    let ghost ts = forest(s, ns, g);
    proof {
        alloc.lemma_live_or_raw();
        lemma_unwrap(s, n, h as nat);
        lemma_routed(keys, ts, lo, hi, key);
        lemma_one(t);
    }
    let mut inner = alloc.read_inner(n);
    let ghost s0 = alloc.store();
    let idx: usize = inner.child_idx_for_key(&key);
    let child = inner.children_ref()[idx];
    let ghost i = idx as int;
    proof {
        lemma_child(keys, ts, i, g, M, lo, hi);
        lemma_ord_pairs(ts[i], low(keys, i, lo), high(keys, i, hi));
        assert(ts[i] == abs(s, child, g));
    }
    let (old_val, split) = insert_node(
        alloc,
        child,
        h - 1,
        key,
        val,
        Ghost(low(keys, i, lo)),
        Ghost(high(keys, i, hi)),
    );
    let ghost s1 = alloc.store();
    let ghost nk = split_keys(split);
    let ghost new = split_nodes(child, split);
    let ghost ks2 = keys.take(i) + nk + keys.skip(i);
    let ghost ns2 = ns.take(i) + new + ns.skip(i + 1);
    proof {
        alloc.lemma_live_or_raw();
        lemma_swap_sound(s0, s1, keys, ns, i, i + 1, nk, new, g, lo, hi);
        lemma_middle(pairs_of(ts.take(i)), pairs(ts[i]), pairs_of(ts.skip(i + 1)), key);
        assert(pairs_of(forest(s1, ns2, g)) == put(pairs(t), key, val));
    }
    if let Some((sep, right)) = split {
        assert(ks2 =~= keys.insert(i, sep));
        assert(ns2 =~= ns.insert(i + 1, right));
        if let Some((promoted, other)) = inner.insert_child(idx, sep, right, alloc) {
            let ghost y = alloc.store().inners[other];
            alloc.write_inner(n, inner);
            proof {
                assert(inner@.kids + y@.kids =~= ns2);
                assert(inner@.keys.push(promoted) + y@.keys =~= ks2);
                lemma_put_back_two(s, s1, n, other, g, inner, promoted, y, lo, hi);
            }
            return (old_val, Some((promoted, other)));
        }
    } else {
        assert(ks2 =~= keys);
        assert(ns2 =~= ns);
    }
    alloc.write_inner(n, inner);
    proof {
        lemma_put_back(s, s1, n, g, inner, lo, hi);
    }
    (old_val, None)
}

/// How much the node of height `h` at `n` holds: pairs in a leaf, children in an inner node.
pub fn node_len<K: Key, V, const M: usize, A: NodeAllocator<K, V, M>>(
    alloc: &A,
    n: Addr,
    h: u8,
) -> (r: usize)
    requires
        alloc.wf(),
        held(alloc.store(), n, h as nat),
    ensures
        r == size(abs(alloc.store(), n, h as nat)),
{
    if h == 0 {
        alloc.leaf(n).len()
    } else {
        alloc.inner(n).len()
    }
}

/// The node of height `h` at `n` holds less than a node below another must.
pub fn node_is_deficient<K: Key, V, const M: usize, A: NodeAllocator<K, V, M>>(
    alloc: &A,
    n: Addr,
    h: u8,
) -> (r: bool)
    requires
        alloc.wf(),
        held(alloc.store(), n, h as nat),
    ensures
        r <==> !filled(abs(alloc.store(), n, h as nat), M),
{
    if h == 0 {
        alloc.leaf(n).is_deficient()
    } else {
        alloc.inner(n).is_deficient()
    }
}

/// Two neighbours of height `h`, at `left` and `right`, with `sep` between them.
pub open spec fn neighbours<K: Key, V, const M: usize>(
    s: Store<K, V, M>,
    left: Addr,
    sep: K,
    right: Addr,
    h: nat,
    lo: Option<K>,
    hi: Option<K>,
) -> bool {
    let pair = forest(s, seq![left, right], h);
    &&& held(s, left, h)
    &&& held(s, right, h)
    &&& ord_row(seq![sep], pair, lo, hi)
    &&& all_distinct(pair)
    &&& chained(leaves_of(pair))
    &&& left != right
}

/// The first item of `y` has moved to the end of `x`, its left neighbour, and the separator between
/// the two, from `sep` to `sep2`.
pub open spec fn shifted_left<K, V>(
    x: Tree<K, V>,
    sep: K,
    y: Tree<K, V>,
    x2: Tree<K, V>,
    sep2: K,
    y2: Tree<K, V>,
) -> bool {
    match (x, y) {
        (Tree::Leaf { at: a, leaf: l }, Tree::Leaf { at: b, leaf: r }) => {
            &&& x2 == (Tree::Leaf {
                at: a,
                leaf: LeafView { items: l.items.push(r.items[0]), ..l },
            })
            &&& y2 == (Tree::Leaf { at: b, leaf: LeafView { items: r.items.skip(1), ..r } })
            &&& sep2 == r.items[1].0
        },
        (Tree::Inner { at: a, keys: ks, kids: ts }, Tree::Inner { at: b, keys: ls, kids: us }) => {
            &&& x2 == (Tree::Inner { at: a, keys: ks.push(sep), kids: ts.push(us[0]) })
            &&& y2 == (Tree::Inner { at: b, keys: ls.skip(1), kids: us.skip(1) })
            &&& sep2 == ls[0]
        },
        _ => false,
    }
}

/// The last item of `x` has moved to the front of `y`, its right neighbour, and the separator
/// between the two, from `sep` to `sep2`.
pub open spec fn shifted_right<K, V>(
    x: Tree<K, V>,
    sep: K,
    y: Tree<K, V>,
    x2: Tree<K, V>,
    sep2: K,
    y2: Tree<K, V>,
) -> bool {
    match (x, y) {
        (Tree::Leaf { at: a, leaf: l }, Tree::Leaf { at: b, leaf: r }) => {
            &&& x2 == (Tree::Leaf { at: a, leaf: LeafView { items: l.items.drop_last(), ..l } })
            &&& y2 == (Tree::Leaf {
                at: b,
                leaf: LeafView { items: seq![l.items.last()] + r.items, ..r },
            })
            &&& sep2 == l.items.last().0
        },
        (Tree::Inner { at: a, keys: ks, kids: ts }, Tree::Inner { at: b, keys: ls, kids: us }) => {
            &&& x2 == (Tree::Inner { at: a, keys: ks.drop_last(), kids: ts.drop_last() })
            &&& y2 == (Tree::Inner { at: b, keys: seq![sep] + ls, kids: seq![ts.last()] + us })
            &&& sep2 == ks.last()
        },
        _ => false,
    }
}

/// `x` has taken over all that `y`, its right neighbour, held. The separator `sep` is gone between
/// leaves; between inner nodes it stands between what was theirs.
pub open spec fn fused<K, V>(x: Tree<K, V>, sep: K, y: Tree<K, V>, x2: Tree<K, V>) -> bool {
    match (x, y) {
        (Tree::Leaf { at: a, leaf: l }, Tree::Leaf { at: b, leaf: r }) => x2 == (Tree::Leaf {
            at: a,
            leaf: LeafView { items: l.items + r.items, next: r.next },
        }),
        (
            Tree::Inner { at: a, keys: ks, kids: ts },
            Tree::Inner { at: b, keys: ls, kids: us },
        ) => x2 == (Tree::Inner { at: a, keys: ks.push(sep) + ls, kids: ts + us }),
        _ => false,
    }
}

/// No slot has been handed out or retired.
pub open spec fn same_slots<K: Key, V, const M: usize>(
    s: Store<K, V, M>,
    u: Store<K, V, M>,
) -> bool {
    &&& u.leaves.dom() == s.leaves.dom()
    &&& u.inners.dom() == s.inners.dom()
}

/// The slot of a node of height `h` at `n` has been retired, and no other.
pub open spec fn slot_gone<K: Key, V, const M: usize>(
    s: Store<K, V, M>,
    u: Store<K, V, M>,
    n: Addr,
    h: nat,
) -> bool {
    &&& u.leaves.dom() == (if h == 0 {
        s.leaves.dom().remove(n)
    } else {
        s.leaves.dom()
    })
    &&& u.inners.dom() == (if h == 0 {
        s.inners.dom()
    } else {
        s.inners.dom().remove(n)
    })
}

/// The room once the slot of a node of height `h` has been retired.
pub open spec fn rooms_after(rooms: Rooms, h: nat) -> Rooms {
    if h == 0 {
        rooms.more(1, 0)
    } else {
        rooms.more(0, 1)
    }
}

/// Child `i` can take an item from its right neighbour.
pub open spec fn right_rich<K, V>(ts: Seq<Tree<K, V>>, i: int, m: usize) -> bool {
    i + 1 < ts.len() && size(ts[i + 1]) > half(m)
}

/// Child `i` can take an item from its left neighbour.
pub open spec fn left_rich<K, V>(ts: Seq<Tree<K, V>>, i: int, m: usize) -> bool {
    i > 0 && size(ts[i - 1]) > half(m)
}

/// The left one of the two children that are merged to mend child `i`.
pub open spec fn seam(n: nat, i: int) -> int {
    if i + 1 < n {
        i
    } else {
        i - 1
    }
}

/// The row `olds`, with `keys` between the children, after child `i`, which was one item short, has
/// been mended: it has taken one from its right neighbour if that one could spare it, else from the
/// left one if that could; else the two were merged. All other children and separators are as they
/// were.
pub open spec fn mended<K, V>(
    keys: Seq<K>,
    olds: Seq<Tree<K, V>>,
    i: int,
    keys2: Seq<K>,
    news: Seq<Tree<K, V>>,
    m: usize,
) -> bool {
    if right_rich(olds, i, m) {
        &&& keys2 == keys.update(i, keys2[i])
        &&& news == olds.update(i, news[i]).update(i + 1, news[i + 1])
        &&& shifted_left(olds[i], keys[i], olds[i + 1], news[i], keys2[i], news[i + 1])
    } else if left_rich(olds, i, m) {
        &&& keys2 == keys.update(i - 1, keys2[i - 1])
        &&& news == olds.update(i - 1, news[i - 1]).update(i, news[i])
        &&& shifted_right(olds[i - 1], keys[i - 1], olds[i], news[i - 1], keys2[i - 1], news[i])
    } else {
        let j = seam(olds.len(), i);
        &&& keys2 == keys.remove(j)
        &&& news == olds.update(j, news[j]).remove(j + 1)
        &&& fused(olds[j], keys[j], olds[j + 1], news[j])
    }
}

/// The row `olds`, with `keys` between the children, after a removal below child `i` has left the
/// tree `t` of it, and that child has been mended if it was short.
pub open spec fn lessened<K, V>(
    keys: Seq<K>,
    olds: Seq<Tree<K, V>>,
    i: int,
    t: Tree<K, V>,
    keys2: Seq<K>,
    news: Seq<Tree<K, V>>,
    m: usize,
) -> bool {
    if size(t) < half(m) {
        mended(keys, olds.update(i, t), i, keys2, news, m)
    } else {
        keys2 == keys && news == olds.update(i, t)
    }
}

/// What two neighbouring leaves hold.
proof fn lemma_leaf_neighbours<K: Key, V, const M: usize>(
    s: Store<K, V, M>,
    left: Addr,
    sep: K,
    right: Addr,
    lo: Option<K>,
    hi: Option<K>,
)
    requires
        ordered::<K>(),
        neighbours(s, left, sep, right, 0, lo, hi),
        size(abs(s, left, 0)) <= M,
        size(abs(s, right, 0)) <= M,
    ensures
        ({
            let x = s.leaves[left];
            let y = s.leaves[right];
            let pair = forest(s, seq![left, right], 0);
            &&& x.wf()
            &&& y.wf()
            &&& x@.next == Some(right)
            &&& sorted(x@.items + y@.items)
            &&& within(x@.items + y@.items, lo, hi)
            &&& pairs_of(pair) == x@.items + y@.items
        }),
{
    let x = s.leaves[left];
    let y = s.leaves[right];
    let pair = forest(s, seq![left, right], 0);
    let a = abs(s, left, 0);
    let b = abs(s, right, 0);
    assert(pair =~= seq![a, b]);
    assert(pair[0] == a && pair[1] == b);
    lemma_leaf_row(left, right, x@, y@);
    lemma_ord_row_pairs(seq![sep], pair, lo, hi);
    assert(ord(pair[0], low(seq![sep], 0, lo), high(seq![sep], 0, hi)));
    assert(ord(pair[1], low(seq![sep], 1, lo), high(seq![sep], 1, hi)));
}

/// What two neighbouring inner nodes hold.
proof fn lemma_inner_neighbours<K: Key, V, const M: usize>(
    s: Store<K, V, M>,
    left: Addr,
    sep: K,
    right: Addr,
    h: nat,
    lo: Option<K>,
    hi: Option<K>,
)
    requires
        ordered::<K>(),
        neighbours(s, left, sep, right, h + 1, lo, hi),
        size(abs(s, left, h + 1)) <= M,
        size(abs(s, right, h + 1)) <= M,
    ensures
        ({
            let x = s.inners[left];
            let y = s.inners[right];
            &&& x.wf()
            &&& y.wf()
            &&& ascending(x@.join(sep, y@).keys)
        }),
{
    let x = s.inners[left]@;
    let y = s.inners[right]@;
    lemma_gather_any(s, left, right, h, sep, lo, hi);
    let all = x.keys.push(sep) + y.keys;
    assert forall|i: int, j: int|
        #![trigger x.keys[i], x.keys[j]]
        0 <= i < j < x.keys.len() implies lt(x.keys[i], x.keys[j]) by {
        assert(all[i] == x.keys[i] && all[j] == x.keys[j]);
    }
    assert forall|i: int, j: int|
        #![trigger y.keys[i], y.keys[j]]
        0 <= i < j < y.keys.len() implies lt(y.keys[i], y.keys[j]) by {
        let n = x.keys.len() + 1;
        assert(all[n + i] == y.keys[i] && all[n + j] == y.keys[j]);
    }
}

/// Moves the first item of the right neighbour over to the left: a pair between leaves, a child
/// between inner nodes. Returns the new separator between the two.
pub fn steal_from_right<K: Key, V, const M: usize, A: NodeAllocator<K, V, M>>(
    alloc: &mut A,
    h: u8,
    left: Addr,
    sep: K,
    right: Addr,
    Ghost(lo): Ghost<Option<K>>,
    Ghost(hi): Ghost<Option<K>>,
) -> (r: K)
    requires
        M >= 3,
        ordered::<K>(),
        old(alloc).wf(),
        neighbours(old(alloc).store(), left, sep, right, h as nat, lo, hi),
        shape(abs(old(alloc).store(), left, h as nat), h as nat, M),
        shape(abs(old(alloc).store(), right, h as nat), h as nat, M),
        size(abs(old(alloc).store(), left, h as nat)) < M,
        size(abs(old(alloc).store(), right, h as nat)) >= 2,
    ensures
        final(alloc).wf(),
        final(alloc).rooms() == old(alloc).rooms(),
        ({
            let s = old(alloc).store();
            let u = final(alloc).store();
            let olds = forest(s, seq![left, right], h as nat);
            let news = forest(u, seq![left, right], h as nat);
            &&& swapped(s, u, olds, seq![r], seq![left, right], h as nat, lo, hi)
            &&& pairs_of(news) == pairs_of(olds)
            &&& shifted_left(olds[0], sep, olds[1], news[0], r, news[1])
            &&& same_slots(s, u)
            &&& size(news[0]) == size(olds[0]) + 1
            &&& size(news[1]) == size(olds[1]) - 1
        }),
{
    let ghost s = alloc.store();
    proof {
        alloc.lemma_live_or_raw();
    }
    if h == 0 {
        proof {
            lemma_leaf_neighbours(s, left, sep, right, lo, hi);
        }
        let mut x = alloc.read_leaf(left);
        let mut y = alloc.read_leaf(right);
        let r = x.steal_from_right(&mut y);
        alloc.write_leaf(left, x);
        alloc.write_leaf(right, y);
        proof {
            assert(x@.items + y@.items =~= s.leaves[left]@.items + s.leaves[right]@.items);
            assert(alloc.store().leaves =~= s.leaves.insert(left, x).insert(right, y));
            assert(alloc.store().raw_leaves =~= s.raw_leaves);
            lemma_leaf_pair(s, left, right, x, y, lo, hi);
            assert(alloc.store().leaves.dom() =~= s.leaves.dom());
        }
        r
    } else {
        proof {
            lemma_inner_neighbours(s, left, sep, right, (h - 1) as nat, lo, hi);
        }
        let mut x = alloc.read_inner(left);
        let mut y = alloc.read_inner(right);
        let r = x.rotate_from_right(sep, &mut y);
        alloc.write_inner(left, x);
        alloc.write_inner(right, y);
        proof {
            let x0 = s.inners[left]@;
            let y0 = s.inners[right]@;
            assert(x@.kids + y@.kids =~= x0.kids + y0.kids);
            assert(x@.keys.push(r) + y@.keys =~= x0.keys.push(sep) + y0.keys);
            assert(alloc.store().inners =~= s.inners.insert(left, x).insert(right, y));
            assert(alloc.store().raw_inners =~= s.raw_inners);
            lemma_inner_pair(s, left, right, (h - 1) as nat, sep, x, r, y, lo, hi);
            lemma_inner_pair_any(s, left, right, (h - 1) as nat, sep, x, r, y, lo, hi);
            let u = alloc.store();
            let a = abs(s, left, h as nat);
            let b = abs(s, right, h as nat);
            let a2 = abs(u, left, h as nat);
            let b2 = abs(u, right, h as nat);
            assert(a2->kids =~= a->kids.push(b->kids[0]));
            assert(b2->kids =~= b->kids.skip(1));
            assert(u.inners.dom() =~= s.inners.dom());
        }
        r
    }
}

/// Moves the last item of the left neighbour over to the right: a pair between leaves, a child
/// between inner nodes. Returns the new separator between the two.
pub fn steal_from_left<K: Key, V, const M: usize, A: NodeAllocator<K, V, M>>(
    alloc: &mut A,
    h: u8,
    left: Addr,
    sep: K,
    right: Addr,
    Ghost(lo): Ghost<Option<K>>,
    Ghost(hi): Ghost<Option<K>>,
) -> (r: K)
    requires
        M >= 3,
        ordered::<K>(),
        old(alloc).wf(),
        neighbours(old(alloc).store(), left, sep, right, h as nat, lo, hi),
        shape(abs(old(alloc).store(), left, h as nat), h as nat, M),
        shape(abs(old(alloc).store(), right, h as nat), h as nat, M),
        size(abs(old(alloc).store(), right, h as nat)) < M,
        size(abs(old(alloc).store(), left, h as nat)) >= 2,
    ensures
        final(alloc).wf(),
        final(alloc).rooms() == old(alloc).rooms(),
        ({
            let s = old(alloc).store();
            let u = final(alloc).store();
            let olds = forest(s, seq![left, right], h as nat);
            let news = forest(u, seq![left, right], h as nat);
            &&& swapped(s, u, olds, seq![r], seq![left, right], h as nat, lo, hi)
            &&& pairs_of(news) == pairs_of(olds)
            &&& shifted_right(olds[0], sep, olds[1], news[0], r, news[1])
            &&& same_slots(s, u)
            &&& size(news[0]) == size(olds[0]) - 1
            &&& size(news[1]) == size(olds[1]) + 1
        }),
{
    let ghost s = alloc.store();
    proof {
        alloc.lemma_live_or_raw();
    }
    if h == 0 {
        proof {
            lemma_leaf_neighbours(s, left, sep, right, lo, hi);
        }
        let mut x = alloc.read_leaf(left);
        let mut y = alloc.read_leaf(right);
        let r = y.steal_from_left(&mut x);
        alloc.write_leaf(left, x);
        alloc.write_leaf(right, y);
        proof {
            assert(x@.items + y@.items =~= s.leaves[left]@.items + s.leaves[right]@.items);
            assert(alloc.store().leaves =~= s.leaves.insert(left, x).insert(right, y));
            assert(alloc.store().raw_leaves =~= s.raw_leaves);
            lemma_leaf_pair(s, left, right, x, y, lo, hi);
            assert(alloc.store().leaves.dom() =~= s.leaves.dom());
        }
        r
    } else {
        proof {
            lemma_inner_neighbours(s, left, sep, right, (h - 1) as nat, lo, hi);
        }
        let mut x = alloc.read_inner(left);
        let mut y = alloc.read_inner(right);
        let r = y.rotate_from_left(sep, &mut x);
        alloc.write_inner(left, x);
        alloc.write_inner(right, y);
        proof {
            let x0 = s.inners[left]@;
            let y0 = s.inners[right]@;
            assert(x@.kids + y@.kids =~= x0.kids + y0.kids);
            assert(x@.keys.push(r) + y@.keys =~= x0.keys.push(sep) + y0.keys);
            assert(alloc.store().inners =~= s.inners.insert(left, x).insert(right, y));
            assert(alloc.store().raw_inners =~= s.raw_inners);
            lemma_inner_pair(s, left, right, (h - 1) as nat, sep, x, r, y, lo, hi);
            lemma_inner_pair_any(s, left, right, (h - 1) as nat, sep, x, r, y, lo, hi);
            let u = alloc.store();
            let a = abs(s, left, h as nat);
            let b = abs(s, right, h as nat);
            let a2 = abs(u, left, h as nat);
            let b2 = abs(u, right, h as nat);
            assert(a2->kids =~= a->kids.drop_last());
            assert(b2->kids =~= seq![a->kids.last()] + b->kids);
            assert(x@.keys =~= x0.keys.drop_last());
            assert(u.inners.dom() =~= s.inners.dom());
        }
        r
    }
}

/// Folds the right neighbour into the left and retires its slot. The separator is dropped between
/// leaves, and demoted into the merged node between inner nodes.
pub fn merge_nodes<K: Key, V, const M: usize, A: NodeAllocator<K, V, M>>(
    alloc: &mut A,
    h: u8,
    left: Addr,
    sep: K,
    right: Addr,
    Ghost(lo): Ghost<Option<K>>,
    Ghost(hi): Ghost<Option<K>>,
)
    requires
        M >= 3,
        ordered::<K>(),
        old(alloc).wf(),
        neighbours(old(alloc).store(), left, sep, right, h as nat, lo, hi),
        size(abs(old(alloc).store(), left, h as nat)) + size(
            abs(old(alloc).store(), right, h as nat),
        ) <= M,
    ensures
        final(alloc).wf(),
        final(alloc).rooms() == rooms_after(old(alloc).rooms(), h as nat),
        ({
            let s = old(alloc).store();
            let u = final(alloc).store();
            let olds = forest(s, seq![left, right], h as nat);
            let news = forest(u, seq![left], h as nat);
            &&& exchanged(s, u, olds, Seq::<K>::empty(), seq![left], h as nat, lo, hi)
            &&& shape(olds[0], h as nat, M) && shape(olds[1], h as nat, M) ==> shape(
                news[0],
                h as nat,
                M,
            )
            &&& pairs_of(news) == pairs_of(olds)
            &&& fused(olds[0], sep, olds[1], news[0])
            &&& slot_gone(s, u, right, h as nat)
            &&& size(news[0]) == size(olds[0]) + size(olds[1])
        }),
{
    let ghost s = alloc.store();
    proof {
        alloc.lemma_live_or_raw();
    }
    if h == 0 {
        proof {
            lemma_leaf_neighbours(s, left, sep, right, lo, hi);
        }
        let mut x = alloc.read_leaf(left);
        let y = alloc.dealloc_leaf(right);
        x.merge(y);
        alloc.write_leaf(left, x);
        proof {
            assert(alloc.store().leaves =~= s.leaves.remove(right).insert(left, x));
            assert(alloc.store().raw_leaves =~= s.raw_leaves);
            lemma_leaf_merged(s, left, right, x, lo, hi);
            assert(alloc.store().leaves.dom() =~= s.leaves.dom().remove(right));
        }
    } else {
        proof {
            lemma_inner_neighbours(s, left, sep, right, (h - 1) as nat, lo, hi);
        }
        let mut x = alloc.read_inner(left);
        let y = alloc.dealloc_inner(right);
        x.merge(sep, y);
        alloc.write_inner(left, x);
        proof {
            assert(alloc.store().inners =~= s.inners.remove(right).insert(left, x));
            assert(alloc.store().raw_inners =~= s.raw_inners);
            lemma_inner_merged(s, left, right, (h - 1) as nat, sep, x, lo, hi);
            assert(alloc.store().inners.dom() =~= s.inners.dom().remove(right));
        }
    }
}

/// The children at `ns`, of height `h`, with `keys` between them, are those of a search tree with a
/// leaf chain. How much each of them holds is left open.
pub open spec fn row_ordered<K: Key, V, const M: usize>(
    s: Store<K, V, M>,
    keys: Seq<K>,
    ns: Seq<Addr>,
    h: nat,
    lo: Option<K>,
    hi: Option<K>,
) -> bool {
    let ts = forest(s, ns, h);
    &&& all_held(s, ns, h)
    &&& ord_row(keys, ts, lo, hi)
    &&& all_distinct(ts)
    &&& chained(leaves_of(ts))
}

/// The children at `ns`, of height `h`, with `keys` between them, are those of a sound tree, but
/// for child `idx`, which may hold too little.
pub open spec fn row_but<K: Key, V, const M: usize>(
    s: Store<K, V, M>,
    keys: Seq<K>,
    ns: Seq<Addr>,
    idx: int,
    h: nat,
    lo: Option<K>,
    hi: Option<K>,
) -> bool {
    let ts = forest(s, ns, h);
    &&& 0 <= idx < ns.len() <= M
    &&& row_ordered(s, keys, ns, h, lo, hi)
    &&& forall|l: int|
        0 <= l < ns.len() ==> shape(#[trigger] ts[l], h, M) && (l != idx ==> filled(ts[l], M))
}

/// The children at `new` are those of a sound tree and stand in the place of those at `ns`.
pub open spec fn row_mended<K: Key, V, const M: usize>(
    s: Store<K, V, M>,
    ns: Seq<Addr>,
    u: Store<K, V, M>,
    keys: Seq<K>,
    new: Seq<Addr>,
    h: nat,
    lo: Option<K>,
    hi: Option<K>,
) -> bool {
    let olds = forest(s, ns, h);
    let news = forest(u, new, h);
    &&& all_held(u, new, h)
    &&& sound_row(keys, news, h, M, lo, hi)
    &&& same_ends(leaves_of(olds), leaves_of(news))
    &&& replaced(s, u, olds, news)
}

impl<K: Key, V, const M: usize> Inner<K, V, M> {
    /// Folds the child at `child_idx + 1` into the one at `child_idx` and closes the gap. The two
    /// must fit one node; how much the others hold, here and below, does not matter.
    fn merge_sibling_into<A: NodeAllocator<K, V, M>>(
        &mut self,
        height: u8,
        child_idx: usize,
        alloc: &mut A,
        Ghost(lo): Ghost<Option<K>>,
        Ghost(hi): Ghost<Option<K>>,
    )
        requires
            M >= 3,
            ordered::<K>(),
            height > 0,
            old(alloc).wf(),
            child_idx + 1 < old(self)@.kids.len() <= M,
            row_ordered(
                old(alloc).store(),
                old(self)@.keys,
                old(self)@.kids,
                (height - 1) as nat,
                lo,
                hi,
            ),
            ({
                let ts = forest(old(alloc).store(), old(self)@.kids, (height - 1) as nat);
                size(ts[child_idx as int]) + size(ts[child_idx + 1]) <= M
            }),
        ensures
            final(alloc).wf(),
            final(self)@.keys == old(self)@.keys.remove(child_idx as int),
            final(self)@.kids == old(self)@.kids.remove(child_idx + 1),
            row_ordered(
                final(alloc).store(),
                final(self)@.keys,
                final(self)@.kids,
                (height - 1) as nat,
                lo,
                hi,
            ),
            ({
                let g = (height - 1) as nat;
                let olds = forest(old(alloc).store(), old(self)@.kids, g);
                let news = forest(final(alloc).store(), final(self)@.kids, g);
                &&& pairs_of(news) == pairs_of(olds)
                &&& same_ends(leaves_of(olds), leaves_of(news))
                &&& replaced(old(alloc).store(), final(alloc).store(), olds, news)
                &&& shape(olds[child_idx as int], g, M) && shape(olds[child_idx + 1], g, M)
                    ==> shape(news[child_idx as int], g, M)
                &&& news == olds.update(child_idx as int, news[child_idx as int]).remove(
                    child_idx + 1,
                )
                &&& fused(
                    olds[child_idx as int],
                    old(self)@.keys[child_idx as int],
                    olds[child_idx + 1],
                    news[child_idx as int],
                )
            }),
            slot_gone(
                old(alloc).store(),
                final(alloc).store(),
                old(self)@.kids[child_idx + 1],
                (height - 1) as nat,
            ),
            final(alloc).rooms() == rooms_after(old(alloc).rooms(), (height - 1) as nat),
    {
        let ghost s = alloc.store();
        let ghost g = (height - 1) as nat;
        let ghost i = child_idx as int;
        let ghost keys = self@.keys;
        let ghost ns = self@.kids;
        proof {
            lemma_neighbours(s, keys, ns, i, g, lo, hi);
        }
        let left = self.children_ref()[child_idx];
        let (sep, right) = self.remove_right_of(child_idx);
        merge_nodes(
            alloc,
            height - 1,
            left,
            sep,
            right,
            Ghost(low(keys, i, lo)),
            Ghost(high(keys, i + 1, hi)),
        );
        proof {
            let u = alloc.store();
            let new = seq![left];
            lemma_swap(s, u, keys, ns, i, i + 2, Seq::<K>::empty(), new, g, lo, hi);
            assert(keys.take(i) + Seq::<K>::empty() + keys.skip(i + 1) =~= self@.keys);
            assert(ns.take(i) + new + ns.skip(i + 2) =~= self@.kids);
            assert(self@.kids[i] == left);
            let olds = forest(s, ns, g);
            let news = forest(u, self@.kids, g);
            assert(seq![left, right][0] == left && seq![left, right][1] == right);
            assert(forest(s, seq![left, right], g)[0] == olds[i]);
            assert(forest(s, seq![left, right], g)[1] == olds[i + 1]);
            assert(forest(u, new, g)[0] == news[i]);
            assert(news =~= olds.update(i, news[i]).remove(i + 1));
        }
    }

    /// Mends the child at `child_idx` after a removal has left it one short: takes an item from
    /// the right sibling if that one can spare it, else from the left sibling if that one can;
    /// else merges the child with its right sibling, or, at the right end, with its left one.
    pub fn rebalance<A: NodeAllocator<K, V, M>>(
        &mut self,
        height: u8,
        child_idx: usize,
        alloc: &mut A,
        Ghost(lo): Ghost<Option<K>>,
        Ghost(hi): Ghost<Option<K>>,
    )
        requires
            M >= 3,
            ordered::<K>(),
            height > 0,
            old(alloc).wf(),
            old(self)@.kids.len() >= 2,
            row_but(
                old(alloc).store(),
                old(self)@.keys,
                old(self)@.kids,
                child_idx as int,
                (height - 1) as nat,
                lo,
                hi,
            ),
            size(
                forest(
                    old(alloc).store(),
                    old(self)@.kids,
                    (height - 1) as nat,
                )[child_idx as int],
            ) == half(M) - 1,
        ensures
            final(alloc).wf(),
            row_mended(
                old(alloc).store(),
                old(self)@.kids,
                final(alloc).store(),
                final(self)@.keys,
                final(self)@.kids,
                (height - 1) as nat,
                lo,
                hi,
            ),
            ({
                let g = (height - 1) as nat;
                let i = child_idx as int;
                let ns = old(self)@.kids;
                let olds = forest(old(alloc).store(), ns, g);
                let news = forest(final(alloc).store(), final(self)@.kids, g);
                let j = seam(ns.len(), i);
                &&& pairs_of(news) == pairs_of(olds)
                &&& mended(old(self)@.keys, olds, i, final(self)@.keys, news, M)
                &&& if right_rich(olds, i, M) || left_rich(olds, i, M) {
                    &&& final(self)@.kids == ns
                    &&& same_slots(old(alloc).store(), final(alloc).store())
                    &&& final(alloc).rooms() == old(alloc).rooms()
                } else {
                    &&& final(self)@.kids == ns.remove(j + 1)
                    &&& slot_gone(old(alloc).store(), final(alloc).store(), ns[j + 1], g)
                    &&& final(alloc).rooms() == rooms_after(old(alloc).rooms(), g)
                }
            }),
    {
        let ghost s = alloc.store();
        let ghost g = (height - 1) as nat;
        let ghost i = child_idx as int;
        let ghost keys = self@.keys;
        let ghost ns = self@.kids;
        let ghost ts = forest(s, ns, g);
        let min: usize = Self::min_occupancy();
        // The right sibling can spare an item.
        if child_idx + 1 < self.len() {
            let right = self.children_ref()[child_idx + 1];
            if node_len(alloc, right, height - 1) > min {
                proof {
                    lemma_neighbours(s, keys, ns, i, g, lo, hi);
                }
                let left = self.children_ref()[child_idx];
                let sep = self.keys_ref()[child_idx];
                let sep = steal_from_right(
                    alloc,
                    height - 1,
                    left,
                    sep,
                    right,
                    Ghost(low(keys, i, lo)),
                    Ghost(high(keys, i + 1, hi)),
                );
                self.set_key(child_idx, sep);
                proof {
                    let u = alloc.store();
                    let new = seq![left, right];
                    lemma_swap_sound(s, u, keys, ns, i, i + 2, seq![sep], new, g, lo, hi);
                    assert(keys.take(i) + seq![sep] + keys.skip(i + 1) =~= self@.keys);
                    assert(ns.take(i) + new + ns.skip(i + 2) =~= self@.kids);
                    let news = forest(u, self@.kids, g);
                    assert(new[0] == left && new[1] == right);
                    assert(forest(s, new, g)[0] == ts[i] && forest(s, new, g)[1] == ts[i + 1]);
                    assert(news[i] == forest(u, new, g)[0]);
                    assert(news[i + 1] == forest(u, new, g)[1]);
                    assert(self@.keys =~= keys.update(i, sep));
                    assert(news =~= ts.update(i, news[i]).update(i + 1, news[i + 1]));
                }
                return ;
            }
        }
        // The left sibling can spare an item.
        if child_idx > 0 {
            let left = self.children_ref()[child_idx - 1];
            if node_len(alloc, left, height - 1) > min {
                proof {
                    lemma_neighbours(s, keys, ns, i - 1, g, lo, hi);
                }
                let right = self.children_ref()[child_idx];
                let sep = self.keys_ref()[child_idx - 1];
                let sep = steal_from_left(
                    alloc,
                    height - 1,
                    left,
                    sep,
                    right,
                    Ghost(low(keys, i - 1, lo)),
                    Ghost(high(keys, i, hi)),
                );
                self.set_key(child_idx - 1, sep);
                proof {
                    let u = alloc.store();
                    let new = seq![left, right];
                    lemma_swap_sound(s, u, keys, ns, i - 1, i + 1, seq![sep], new, g, lo, hi);
                    assert(keys.take(i - 1) + seq![sep] + keys.skip(i) =~= self@.keys);
                    assert(ns.take(i - 1) + new + ns.skip(i + 1) =~= self@.kids);
                    let news = forest(u, self@.kids, g);
                    assert(new[0] == left && new[1] == right);
                    assert(forest(s, new, g)[0] == ts[i - 1] && forest(s, new, g)[1] == ts[i]);
                    assert(news[i - 1] == forest(u, new, g)[0]);
                    assert(news[i] == forest(u, new, g)[1]);
                    assert(self@.keys =~= keys.update(i - 1, sep));
                    assert(news =~= ts.update(i - 1, news[i - 1]).update(i, news[i]));
                }
                return ;
            }
        }
        let at: usize = if child_idx + 1 < self.len() {
            child_idx
        } else {
            child_idx - 1
        };
        self.merge_sibling_into(height, at, alloc, Ghost(lo), Ghost(hi));
        proof {
            let news = forest(alloc.store(), self@.kids, g);
            let j = at as int;
            assert forall|l: int| 0 <= l < news.len() implies shape(#[trigger] news[l], g, M)
                && filled(news[l], M) by {
                if l < j {
                    assert(news[l] == ts[l]);
                } else if l > j {
                    assert(news[l] == ts[l + 1]);
                } else {
                    assert(size(news[j]) == size(ts[j]) + size(ts[j + 1]));
                }
            }
        }
    }
}

/// Removes `key` from the leaf at `n`. Returns its pair, if it was there.
fn remove_leaf<K: Key, V, const M: usize, A: NodeAllocator<K, V, M>>(
    alloc: &mut A,
    n: Addr,
    key: &K,
    Ghost(lo): Ghost<Option<K>>,
    Ghost(hi): Ghost<Option<K>>,
) -> (r: Option<(K, V)>)
    requires
        ordered::<K>(),
        old(alloc).wf(),
        held(old(alloc).store(), n, 0),
        sound(abs(old(alloc).store(), n, 0), 0, M, lo, hi),
    ensures
        final(alloc).wf(),
        ({
            let s = old(alloc).store();
            let u = final(alloc).store();
            let t = abs(s, n, 0);
            let news = forest(u, seq![n], 0);
            &&& r == entry(pairs(t), *key)
            &&& swapped(s, u, seq![t], Seq::<K>::empty(), seq![n], 0, lo, hi)
            &&& pairs_of(news) == del(pairs(t), *key)
            &&& size(t) - 1 <= size(news[0]) <= size(t)
            &&& r is None ==> u == s
        }),
{
    let ghost s = alloc.store();
    let ghost t = abs(s, n, 0);
    proof {
        alloc.lemma_live_or_raw();
        lemma_leaf_pairs(t);
        lemma_rank_splits(pairs(t), *key);
    }
    let mut leaf = alloc.read_leaf(n);
    let (partition, exact) = leaf.probe(key);
    let r = if exact {
        Some(leaf.remove_at(partition))
    } else {
        None
    };
    alloc.write_leaf(n, leaf);
    proof {
        let items = s.leaves[n]@.items;
        let at = rank(items, *key) as int;
        assert forall|i: int| 0 <= i < leaf@.items.len() implies from(
            lo,
            #[trigger] leaf@.items[i].0,
        ) && under(leaf@.items[i].0, hi) by {
            if has_key(items, *key) && i >= at {
                assert(leaf@.items[i] == items[i + 1]);
            } else {
                assert(leaf@.items[i] == items[i]);
            }
        }
        assert(alloc.store().raw_leaves =~= s.raw_leaves);
        assert(alloc.store().leaves =~= s.leaves.insert(n, leaf));
        lemma_leaf_changed(s, n, leaf, lo, hi);
        if r is None {
            assert(alloc.store().leaves =~= s.leaves);
            assert(alloc.store() =~= s);
        }
    }
    r
}

/// Removes `key` from the subtree of height `h` at `n`. Returns its pair, if it was there. The
/// node at `n` may end up one item short; nothing below it does.
pub fn remove_node<K: Key, V, const M: usize, A: NodeAllocator<K, V, M>>(
    alloc: &mut A,
    n: Addr,
    h: u8,
    key: &K,
    Ghost(lo): Ghost<Option<K>>,
    Ghost(hi): Ghost<Option<K>>,
) -> (r: Option<(K, V)>)
    requires
        M >= 3,
        ordered::<K>(),
        old(alloc).wf(),
        held(old(alloc).store(), n, h as nat),
        sound(abs(old(alloc).store(), n, h as nat), h as nat, M, lo, hi),
        h > 0 ==> size(abs(old(alloc).store(), n, h as nat)) >= 2,
        from(lo, *key),
        under(*key, hi),
    ensures
        final(alloc).wf(),
        ({
            let s = old(alloc).store();
            let u = final(alloc).store();
            let t = abs(s, n, h as nat);
            let news = forest(u, seq![n], h as nat);
            &&& r == entry(pairs(t), *key)
            &&& swapped(s, u, seq![t], Seq::<K>::empty(), seq![n], h as nat, lo, hi)
            &&& pairs_of(news) == del(pairs(t), *key)
            &&& size(t) - 1 <= size(news[0]) <= size(t)
            &&& r is None ==> u == s
        }),
    decreases h, 1nat,
{
    if h == 0 {
        return remove_leaf(alloc, n, key, Ghost(lo), Ghost(hi));
    }
    let ghost s = alloc.store();
    let ghost t = abs(s, n, h as nat);
    let ghost g = (h - 1) as nat;
    proof {
        alloc.lemma_live_or_raw();
        lemma_unwrap(s, n, h as nat);
        lemma_one(t);
    }
    let mut inner = alloc.read_inner(n);
    let r = inner.remove_below(h, key, alloc, Ghost(lo), Ghost(hi));
    let ghost s1 = alloc.store();
    proof {
        alloc.lemma_live_or_raw();
    }
    alloc.write_inner(n, inner);
    proof {
        lemma_put_back(s, s1, n, g, inner, lo, hi);
        if r is None {
            assert(alloc.store().inners =~= s.inners);
            assert(alloc.store().raw_inners =~= s.raw_inners);
            assert(alloc.store() =~= s);
        }
    }
    r
}

impl<K: Key, V, const M: usize> Inner<K, V, M> {
    /// Removes `key` from below this node, which has been moved out of its slot: routes to the
    /// child that owns the key, and mends that child if the removal has left it short. Returns
    /// the stored pair, if the key was there.
    fn remove_below<A: NodeAllocator<K, V, M>>(
        &mut self,
        height: u8,
        key: &K,
        alloc: &mut A,
        Ghost(lo): Ghost<Option<K>>,
        Ghost(hi): Ghost<Option<K>>,
    ) -> (r: Option<(K, V)>)
        requires
            M >= 3,
            ordered::<K>(),
            height > 0,
            old(alloc).wf(),
            2 <= old(self)@.kids.len() <= M,
            all_held(old(alloc).store(), old(self)@.kids, (height - 1) as nat),
            sound_row(
                old(self)@.keys,
                forest(old(alloc).store(), old(self)@.kids, (height - 1) as nat),
                (height - 1) as nat,
                M,
                lo,
                hi,
            ),
            from(lo, *key),
            under(*key, hi),
        ensures
            final(alloc).wf(),
            row_mended(
                old(alloc).store(),
                old(self)@.kids,
                final(alloc).store(),
                final(self)@.keys,
                final(self)@.kids,
                (height - 1) as nat,
                lo,
                hi,
            ),
            ({
                let g = (height - 1) as nat;
                let olds = forest(old(alloc).store(), old(self)@.kids, g);
                let news = forest(final(alloc).store(), final(self)@.kids, g);
                &&& r == entry(pairs_of(olds), *key)
                &&& pairs_of(news) == del(pairs_of(olds), *key)
                &&& exists|t: Tree<K, V>| #[trigger]
                    lessened(
                        old(self)@.keys,
                        olds,
                        route(old(self)@.keys, *key) as int,
                        t,
                        final(self)@.keys,
                        news,
                        M,
                    ) && pairs(t) == del(pairs(olds[route(old(self)@.keys, *key) as int]), *key)
            }),
            old(self)@.kids.len() - 1 <= final(self)@.kids.len() <= old(self)@.kids.len(),
            r is None ==> *final(self) == *old(self) && final(alloc).store() == old(alloc).store(),
        decreases height, 0nat,
    {
        let ghost s = alloc.store();
        let ghost g = (height - 1) as nat;
        let ghost keys = self@.keys;
        let ghost ns = self@.kids;
        let ghost ts = forest(s, ns, g);
        proof {
            lemma_routed(keys, ts, lo, hi, *key);
        }
        let idx: usize = self.child_idx_for_key(key);
        let child = self.children_ref()[idx];
        let ghost i = idx as int;
        proof {
            lemma_child(keys, ts, i, g, M, lo, hi);
            lemma_ord_pairs(ts[i], low(keys, i, lo), high(keys, i, hi));
        }
        let r = remove_node(
            alloc,
            child,
            height - 1,
            key,
            Ghost(low(keys, i, lo)),
            Ghost(high(keys, i, hi)),
        );
        let ghost s1 = alloc.store();
        let ghost ts1 = forest(s1, ns, g);
        proof {
            let none = Seq::<K>::empty();
            lemma_swap(s, s1, keys, ns, i, i + 1, none, seq![child], g, lo, hi);
            lemma_middle(pairs_of(ts.take(i)), pairs(ts[i]), pairs_of(ts.skip(i + 1)), *key);
            assert(keys.take(i) + none + keys.skip(i) =~= keys);
            assert(ns.take(i) + seq![child] + ns.skip(i + 1) =~= ns);
            assert forall|l: int| 0 <= l < ns.len() implies shape(#[trigger] ts1[l], g, M) && (l
                != i ==> filled(ts1[l], M)) by {
                if l == i {
                    assert(ts1[l] == forest(s1, seq![child], g)[0]);
                } else {
                    assert(ts1[l] == ts[l]);
                }
            }
            assert(ts1[i] == forest(s1, seq![child], g)[0]);
            lemma_one(ts1[i]);
            assert(forest(s1, seq![child], g) =~= seq![ts1[i]]);
            assert(ts1 =~= ts.update(i, ts1[i]));
        }
        if node_is_deficient(alloc, child, height - 1) {
            self.rebalance(height, idx, alloc, Ghost(lo), Ghost(hi));
            proof {
                let ts2 = forest(alloc.store(), self@.kids, g);
                lemma_replaced_trans(s, s1, alloc.store(), ts, ts1, ts2);
            }
        }
        assert(lessened(
            keys,
            ts,
            i,
            ts1[i],
            self@.keys,
            forest(alloc.store(), self@.kids, g),
            M,
        ));
        r
    }

    /// Removes `key` from below this node, which has been moved out of its slot, and returns its
    /// value, if it was there. Every node below keeps its minimum occupancy.
    pub fn remove<A: NodeAllocator<K, V, M>>(
        &mut self,
        height: u8,
        key: &K,
        alloc: &mut A,
    ) -> (r: Option<V>)
        requires
            M >= 3,
            ordered::<K>(),
            height > 0,
            old(alloc).wf(),
            2 <= old(self)@.kids.len() <= M,
            all_held(old(alloc).store(), old(self)@.kids, (height - 1) as nat),
            sound_row(
                old(self)@.keys,
                forest(old(alloc).store(), old(self)@.kids, (height - 1) as nat),
                (height - 1) as nat,
                M,
                None,
                None,
            ),
        ensures
            final(alloc).wf(),
            row_mended(
                old(alloc).store(),
                old(self)@.kids,
                final(alloc).store(),
                final(self)@.keys,
                final(self)@.kids,
                (height - 1) as nat,
                None,
                None,
            ),
            ({
                let g = (height - 1) as nat;
                let olds = forest(old(alloc).store(), old(self)@.kids, g);
                let news = forest(final(alloc).store(), final(self)@.kids, g);
                &&& r == lookup(pairs_of(olds), *key)
                &&& pairs_of(news) == del(pairs_of(olds), *key)
                &&& exists|t: Tree<K, V>| #[trigger]
                    lessened(
                        old(self)@.keys,
                        olds,
                        route(old(self)@.keys, *key) as int,
                        t,
                        final(self)@.keys,
                        news,
                        M,
                    ) && pairs(t) == del(pairs(olds[route(old(self)@.keys, *key) as int]), *key)
            }),
            old(self)@.kids.len() - 1 <= final(self)@.kids.len() <= old(self)@.kids.len(),
            r is None ==> *final(self) == *old(self) && final(alloc).store() == old(alloc).store(),
    {
        match self.remove_below(height, key, alloc, Ghost(None), Ghost(None)) {
            Some((_, val)) => Some(val),
            None => None,
        }
    }
}

} // verus!
