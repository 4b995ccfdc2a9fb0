//! Lemmas on the unfolded tree: how its contents, its addresses and its soundness follow from
//! those of its parts.
use crate::allocator::{Addr, Store};
use crate::entries::{
    all_above, all_below, has_key, lemma_put_sorted, lemma_rank_splits, put, rank, sorted,
};
use crate::inner::{lemma_route_splits, route, Inner};
use crate::key::{group_order, lt, ordered, Key};
use crate::leaf::{Leaf, LeafView};
use crate::model::{
    abs, all_distinct, all_held, any_inner, any_leaf, apart, chained, distinct, exchanged, filled,
    forest, from, group_unfold, has_inner, has_leaf, held, high, items_of, leaves, leaves_of, low, moved,
    ord, ord_row, over, pairs, pairs_of, replaced, same_ends, shape, shape_row, size, sound_row,
    swapped, under, within, Link, Tree,
};
use vstd::prelude::*;

verus! {

broadcast use group_unfold;

/// The leaves of two rows side by side.
pub proof fn lemma_leaves_concat<K, V>(a: Seq<Tree<K, V>>, b: Seq<Tree<K, V>>)
    ensures
        leaves_of(a + b) == leaves_of(a) + leaves_of(b),
    decreases b.len(),
{
    reveal(leaves_of);
    if b.len() == 0 {
        assert(a + b =~= a);
        assert(leaves_of(a) + leaves_of(b) =~= leaves_of(a));
    } else {
        lemma_leaves_concat(a, b.drop_last());
        assert((a + b).drop_last() =~= a + b.drop_last());
        assert((a + b).last() == b.last());
        assert(leaves_of(a + b) =~= leaves_of(a) + leaves_of(b));
    }
}

/// The pairs of two rows of leaves side by side.
pub proof fn lemma_items_concat<K, V>(a: Seq<Link<K, V>>, b: Seq<Link<K, V>>)
    ensures
        items_of(a + b) == items_of(a) + items_of(b),
    decreases b.len(),
{
    reveal(items_of);
    if b.len() == 0 {
        assert(a + b =~= a);
        assert(items_of(a) + items_of(b) =~= items_of(a));
    } else {
        lemma_items_concat(a, b.drop_last());
        assert((a + b).drop_last() =~= a + b.drop_last());
        assert((a + b).last() == b.last());
        assert(items_of(a + b) =~= items_of(a) + items_of(b));
    }
}

/// The pairs of two rows side by side.
pub proof fn lemma_pairs_concat<K, V>(a: Seq<Tree<K, V>>, b: Seq<Tree<K, V>>)
    ensures
        pairs_of(a + b) == pairs_of(a) + pairs_of(b),
{
    lemma_leaves_concat(a, b);
    lemma_items_concat(leaves_of(a), leaves_of(b));
}

/// A row of one tree.
pub proof fn lemma_one<K, V>(t: Tree<K, V>)
    ensures
        leaves_of(seq![t]) == leaves(t),
        pairs_of(seq![t]) == pairs(t),
        forall|a: Addr| #[trigger] any_leaf(seq![t], a) == has_leaf(t, a),
        forall|a: Addr| #[trigger] any_inner(seq![t], a) == has_inner(t, a),
{
    reveal(any_inner);
    reveal(any_leaf);
    reveal(leaves_of);
    assert(leaves_of(seq![t].drop_last()) =~= Seq::<Link<K, V>>::empty());
    assert(seq![t].last() == t);
    assert(leaves_of(seq![t]) =~= leaves(t));
    assert(seq![t][0] == t);
}

/// The pairs of a leaf.
pub proof fn lemma_leaf_pairs<K, V>(t: Tree<K, V>)
    requires
        t is Leaf,
    ensures
        pairs(t) == t->leaf.items,
        leaves(t) == seq![Link { at: t->Leaf_at, leaf: t->leaf }],
{
    reveal(items_of);
    let ls = leaves(t);
    assert(ls.drop_last() =~= Seq::<Link<K, V>>::empty());
    assert(items_of(ls.drop_last()) =~= Seq::<(K, V)>::empty());
    assert(pairs(t) =~= t->leaf.items);
}

/// The addresses in two rows side by side.
pub proof fn lemma_any_concat<K, V>(a: Seq<Tree<K, V>>, b: Seq<Tree<K, V>>)
    ensures
        forall|x: Addr| #[trigger] any_leaf(a + b, x) == (any_leaf(a, x) || any_leaf(b, x)),
        forall|x: Addr| #[trigger] any_inner(a + b, x) == (any_inner(a, x) || any_inner(b, x)),
{
    reveal(any_inner);
    reveal(any_leaf);
    let ts = a + b;
    assert forall|x: Addr| #[trigger] any_leaf(ts, x) == (any_leaf(a, x) || any_leaf(b, x)) by {
        if any_leaf(ts, x) {
            let i = choose|i: int| 0 <= i < ts.len() && has_leaf(#[trigger] ts[i], x);
            if i < a.len() {
                assert(has_leaf(a[i], x));
            } else {
                assert(has_leaf(b[i - a.len()], x));
            }
        }
        if any_leaf(a, x) {
            let i = choose|i: int| 0 <= i < a.len() && has_leaf(#[trigger] a[i], x);
            assert(has_leaf(ts[i], x));
        }
        if any_leaf(b, x) {
            let i = choose|i: int| 0 <= i < b.len() && has_leaf(#[trigger] b[i], x);
            assert(has_leaf(ts[a.len() + i], x));
        }
    }
    assert forall|x: Addr| #[trigger] any_inner(ts, x) == (any_inner(a, x) || any_inner(b, x)) by {
        if any_inner(ts, x) {
            let i = choose|i: int| 0 <= i < ts.len() && has_inner(#[trigger] ts[i], x);
            if i < a.len() {
                assert(has_inner(a[i], x));
            } else {
                assert(has_inner(b[i - a.len()], x));
            }
        }
        if any_inner(a, x) {
            let i = choose|i: int| 0 <= i < a.len() && has_inner(#[trigger] a[i], x);
            assert(has_inner(ts[i], x));
        }
        if any_inner(b, x) {
            let i = choose|i: int| 0 <= i < b.len() && has_inner(#[trigger] b[i], x);
            assert(has_inner(ts[a.len() + i], x));
        }
    }
}

/// A tree whose nodes the second store holds unchanged is there too.
pub proof fn lemma_abs_kept<K: Key, V, const M: usize>(
    s: Store<K, V, M>,
    t: Store<K, V, M>,
    n: Addr,
    h: nat,
)
    requires
        held(s, n, h),
        forall|a: Addr| #[trigger]
            has_leaf(abs(s, n, h), a) ==> t.leaves.dom().contains(a) && t.leaves[a] == s.leaves[a],
        forall|a: Addr| #[trigger]
            has_inner(abs(s, n, h), a) ==> t.inners.dom().contains(a) && t.inners[a]
                == s.inners[a],
    ensures
        held(t, n, h),
        abs(t, n, h) == abs(s, n, h),
    decreases h,
{
    reveal(any_inner);
    reveal(any_leaf);
    if h == 0 {
        assert(has_leaf(abs(s, n, h), n));
    } else {
        assert(has_inner(abs(s, n, h), n));
        let g = (h - 1) as nat;
        let ns = s.inners[n]@.kids;
        let ts = forest(s, ns, g);
        assert(abs(s, n, h)->kids == ts);
        assert forall|i: int| 0 <= i < ns.len() implies held(t, #[trigger] ns[i], g) && abs(
            t,
            ns[i],
            g,
        ) == abs(s, ns[i], g) by {
            assert(ts[i] == abs(s, ns[i], g));
            assert forall|a: Addr| #[trigger] has_leaf(abs(s, ns[i], g), a) implies
                t.leaves.dom().contains(a) && t.leaves[a] == s.leaves[a] by {
                assert(has_leaf(ts[i], a));
                assert(has_leaf(abs(s, n, h), a));
            }
            assert forall|a: Addr| #[trigger] has_inner(abs(s, ns[i], g), a) implies
                t.inners.dom().contains(a) && t.inners[a] == s.inners[a] by {
                assert(has_inner(ts[i], a));
                assert(has_inner(abs(s, n, h), a));
            }
            lemma_abs_kept(s, t, ns[i], g);
        }
        assert(forest(t, ns, g) =~= ts);
    }
}

/// Every node of a held tree is in the store.
pub proof fn lemma_held_dom<K: Key, V, const M: usize>(s: Store<K, V, M>, n: Addr, h: nat)
    requires
        held(s, n, h),
    ensures
        forall|a: Addr| #[trigger] has_leaf(abs(s, n, h), a) ==> s.leaves.dom().contains(a),
        forall|a: Addr| #[trigger] has_inner(abs(s, n, h), a) ==> s.inners.dom().contains(a),
    decreases h,
{
    reveal(any_inner);
    reveal(any_leaf);
    if h > 0 {
        let g = (h - 1) as nat;
        let ns = s.inners[n]@.kids;
        let ts = forest(s, ns, g);
        assert forall|i: int| 0 <= i < ns.len() implies {
            &&& forall|a: Addr| has_leaf(#[trigger] ts[i], a) ==> s.leaves.dom().contains(a)
            &&& forall|a: Addr| has_inner(ts[i], a) ==> s.inners.dom().contains(a)
        } by {
            lemma_held_dom(s, ns[i], g);
        }
        assert forall|a: Addr| #[trigger] has_leaf(abs(s, n, h), a) implies
            s.leaves.dom().contains(a) by {
            let i = choose|i: int| 0 <= i < ts.len() && has_leaf(#[trigger] ts[i], a);
            assert(has_leaf(ts[i], a));
        }
        assert forall|a: Addr| #[trigger] has_inner(abs(s, n, h), a) implies
            s.inners.dom().contains(a) by {
            if a != n {
                let i = choose|i: int| 0 <= i < ts.len() && has_inner(#[trigger] ts[i], a);
                assert(has_inner(ts[i], a));
            }
        }
    }
}

/// Every node of a held row is in the store.
pub proof fn lemma_all_held_dom<K: Key, V, const M: usize>(
    s: Store<K, V, M>,
    ns: Seq<Addr>,
    h: nat,
)
    requires
        all_held(s, ns, h),
    ensures
        forall|a: Addr| #[trigger] any_leaf(forest(s, ns, h), a) ==> s.leaves.dom().contains(a),
        forall|a: Addr| #[trigger] any_inner(forest(s, ns, h), a) ==> s.inners.dom().contains(a),
{
    reveal(any_inner);
    reveal(any_leaf);
    let ts = forest(s, ns, h);
    assert forall|a: Addr| #[trigger] any_leaf(ts, a) implies s.leaves.dom().contains(a) by {
        let i = choose|i: int| 0 <= i < ts.len() && has_leaf(#[trigger] ts[i], a);
        lemma_held_dom(s, ns[i], h);
    }
    assert forall|a: Addr| #[trigger] any_inner(ts, a) implies s.inners.dom().contains(a) by {
        let i = choose|i: int| 0 <= i < ts.len() && has_inner(#[trigger] ts[i], a);
        lemma_held_dom(s, ns[i], h);
    }
}

/// A tree of the row that has no node in common with the replaced ones stays as it is, and has no
/// node in common with those that came in their place.
pub proof fn lemma_kept<K: Key, V, const M: usize>(
    s: Store<K, V, M>,
    t: Store<K, V, M>,
    n: Addr,
    h: nat,
    olds: Seq<Tree<K, V>>,
    news: Seq<Tree<K, V>>,
)
    requires
        held(s, n, h),
        replaced(s, t, olds, news),
        forall|i: int| 0 <= i < olds.len() ==> apart(#[trigger] olds[i], abs(s, n, h)),
    ensures
        held(t, n, h),
        abs(t, n, h) == abs(s, n, h),
        forall|i: int|
            0 <= i < news.len() ==> apart(#[trigger] news[i], abs(s, n, h)) && apart(
                abs(s, n, h),
                news[i],
            ),
{
    reveal(any_inner);
    reveal(any_leaf);
    reveal(apart);
    reveal(moved);
    lemma_held_dom(s, n, h);
    let u = abs(s, n, h);
    assert forall|a: Addr| #[trigger] has_leaf(u, a) implies t.leaves.dom().contains(a)
        && t.leaves[a] == s.leaves[a] && !any_leaf(news, a) by {
        assert(s.leaves.dom().contains(a));
        if any_leaf(olds, a) {
            let i = choose|i: int| 0 <= i < olds.len() && has_leaf(#[trigger] olds[i], a);
            assert(apart(olds[i], u));
        }
    }
    assert forall|a: Addr| #[trigger] has_inner(u, a) implies t.inners.dom().contains(a)
        && t.inners[a] == s.inners[a] && !any_inner(news, a) by {
        assert(s.inners.dom().contains(a));
        if any_inner(olds, a) {
            let i = choose|i: int| 0 <= i < olds.len() && has_inner(#[trigger] olds[i], a);
            assert(apart(olds[i], u));
        }
    }
    lemma_abs_kept(s, t, n, h);
    assert forall|i: int| 0 <= i < news.len() implies apart(#[trigger] news[i], u) && apart(
        u,
        news[i],
    ) by {
        assert forall|a: Addr| has_leaf(u, a) implies !#[trigger] has_leaf(news[i], a) by {
            if has_leaf(news[i], a) {
                assert(any_leaf(news, a));
            }
        }
        assert forall|a: Addr| has_inner(u, a) implies !#[trigger] has_inner(news[i], a) by {
            if has_inner(news[i], a) {
                assert(any_inner(news, a));
            }
        }
    }
}

/// What was replaced in a part of a row was replaced in the row.
pub proof fn lemma_replaced_lift<K: Key, V, const M: usize>(
    s: Store<K, V, M>,
    t: Store<K, V, M>,
    pre: Seq<Tree<K, V>>,
    olds: Seq<Tree<K, V>>,
    news: Seq<Tree<K, V>>,
    post: Seq<Tree<K, V>>,
)
    requires
        replaced(s, t, olds, news),
    ensures
        replaced(s, t, pre + olds + post, pre + news + post),
{
    reveal(moved);
    lemma_any_concat(pre, olds);
    lemma_any_concat(pre + olds, post);
    lemma_any_concat(pre, news);
    lemma_any_concat(pre + news, post);
    let a = pre + olds + post;
    let b = pre + news + post;
    assert forall|x: Addr| #![trigger t.leaves.dom().contains(x)]
        t.leaves.dom().contains(x) && !any_leaf(b, x) implies {
        &&& s.leaves.dom().contains(x)
        &&& !any_leaf(a, x)
    } by {
        assert(!any_leaf(pre + news, x));
        assert(!any_leaf(news, x));
    }
    assert forall|x: Addr| #![trigger t.inners.dom().contains(x)]
        t.inners.dom().contains(x) && !any_inner(b, x) implies {
        &&& s.inners.dom().contains(x)
        &&& !any_inner(a, x)
    } by {
        assert(!any_inner(pre + news, x));
        assert(!any_inner(news, x));
    }
}

/// Replacing the trees `i..j` of a row: the others stay, and the new row is as good as the old.
pub proof fn lemma_replace<K: Key, V, const M: usize>(
    s: Store<K, V, M>,
    t: Store<K, V, M>,
    ns: Seq<Addr>,
    i: int,
    j: int,
    new: Seq<Addr>,
    h: nat,
)
    requires
        0 <= i <= j <= ns.len(),
        all_held(s, ns, h),
        all_distinct(forest(s, ns, h)),
        replaced(s, t, forest(s, ns.subrange(i, j), h), forest(t, new, h)),
        all_held(t, new, h),
        all_distinct(forest(t, new, h)),
    ensures
        ({
            let ns2 = ns.take(i) + new + ns.skip(j);
            let ts = forest(s, ns, h);
            let ts2 = ts.take(i) + forest(t, new, h) + ts.skip(j);
            &&& all_held(t, ns2, h)
            &&& forest(t, ns2, h) == ts2
            &&& ts == ts.take(i) + forest(s, ns.subrange(i, j), h) + ts.skip(j)
            &&& all_distinct(ts2)
            &&& replaced(s, t, ts, ts2)
        }),
{
    let ns2 = ns.take(i) + new + ns.skip(j);
    let ts = forest(s, ns, h);
    let olds = forest(s, ns.subrange(i, j), h);
    let news = forest(t, new, h);
    let ts2 = ts.take(i) + news + ts.skip(j);
    assert(ts =~= ts.take(i) + olds + ts.skip(j));
    assert forall|k: int| 0 <= k < ns.len() && !(i <= k < j) implies {
        &&& held(t, #[trigger] ns[k], h)
        &&& abs(t, ns[k], h) == ts[k]
        &&& forall|l: int|
            0 <= l < news.len() ==> apart(#[trigger] news[l], ts[k]) && apart(ts[k], news[l])
    } by {
        assert forall|l: int| 0 <= l < olds.len() implies apart(
            #[trigger] olds[l],
            abs(s, ns[k], h),
        ) by {
            assert(olds[l] == ts[i + l]);
            assert(ts[k] == abs(s, ns[k], h));
        }
        lemma_kept(s, t, ns[k], h, olds, news);
    }
    assert forall|k: int| 0 <= k < ns2.len() implies held(t, #[trigger] ns2[k], h) && abs(
        t,
        ns2[k],
        h,
    ) == ts2[k] by {
        if k < i {
            assert(ns2[k] == ns[k]);
        } else if k < i + new.len() {
            assert(ns2[k] == new[k - i]);
        } else {
            assert(ns2[k] == ns[k - i - new.len() + j]);
        }
    }
    assert(forest(t, ns2, h) =~= ts2);
    let back = |k: int| if k < i { k } else { k - i - new.len() + j };
    assert forall|k: int| 0 <= k < ts2.len() implies distinct(#[trigger] ts2[k]) by {
        if i <= k < i + new.len() {
            assert(ts2[k] == news[k - i]);
        } else {
            assert(ts2[k] == ts[back(k)]);
        }
    }
    assert forall|k: int, l: int|
        #![trigger ts2[k], ts2[l]]
        0 <= k < ts2.len() && 0 <= l < ts2.len() && k != l implies apart(ts2[k], ts2[l]) by {
        let kn = i <= k < i + new.len();
        let ln = i <= l < i + new.len();
        if kn {
            assert(ts2[k] == news[k - i]);
        } else {
            assert(ts2[k] == ts[back(k)]);
            assert(ns[back(k)] == ns[back(k)]);
        }
        if ln {
            assert(ts2[l] == news[l - i]);
        } else {
            assert(ts2[l] == ts[back(l)]);
            assert(ns[back(l)] == ns[back(l)]);
        }
    }
    lemma_replaced_lift(s, t, ts.take(i), olds, news, ts.skip(j));
}

/// Neighbouring children of a search tree form one themselves.
pub proof fn lemma_ord_slice<K: Key, V>(
    keys: Seq<K>,
    ts: Seq<Tree<K, V>>,
    lo: Option<K>,
    hi: Option<K>,
    i: int,
    j: int,
)
    requires
        ordered::<K>(),
        ord_row(keys, ts, lo, hi),
        0 <= i < j <= ts.len(),
    ensures
        ord_row(
            keys.subrange(i, j - 1),
            ts.subrange(i, j),
            low(keys, i, lo),
            high(keys, j - 1, hi),
        ),
{
    broadcast use group_order;

    let ks = keys.subrange(i, j - 1);
    let us = ts.subrange(i, j);
    assert forall|l: int| 0 <= l < us.len() implies ord(
        #[trigger] us[l],
        low(ks, l, low(keys, i, lo)),
        high(ks, l, high(keys, j - 1, hi)),
    ) by {
        assert(us[l] == ts[i + l]);
    }
    assert forall|l: int| 0 <= l < ks.len() implies over(low(keys, i, lo), #[trigger] ks[l])
        && under(ks[l], high(keys, j - 1, hi)) by {
        assert(ks[l] == keys[i + l]);
    }
}

/// Two search trees side by side, with a separator between them.
pub proof fn lemma_ord_join<K: Key, V>(
    k1: Seq<K>,
    t1: Seq<Tree<K, V>>,
    sep: K,
    k2: Seq<K>,
    t2: Seq<Tree<K, V>>,
    lo: Option<K>,
    hi: Option<K>,
)
    requires
        ordered::<K>(),
        ord_row(k1, t1, lo, Some(sep)),
        ord_row(k2, t2, Some(sep), hi),
        over(lo, sep),
        under(sep, hi),
    ensures
        ord_row(k1.push(sep) + k2, t1 + t2, lo, hi),
{
    broadcast use group_order;

    let ks = k1.push(sep) + k2;
    let ts = t1 + t2;
    let n = k1.len() as int;
    assert(ks[n] == sep);
    assert(forall|i: int| 0 <= i < n ==> ks[i] == k1[i]);
    assert(forall|i: int| n < i < ks.len() ==> ks[i] == k2[i - n - 1]);
    assert forall|i: int| 0 <= i < ts.len() implies ord(
        #[trigger] ts[i],
        low(ks, i, lo),
        high(ks, i, hi),
    ) by {
        if i <= n {
            assert(ts[i] == t1[i]);
            assert(low(ks, i, lo) == low(k1, i, lo));
            assert(high(ks, i, hi) == high(k1, i, Some(sep)));
        } else {
            assert(ts[i] == t2[i - n - 1]);
            assert(low(ks, i, lo) == low(k2, i - n - 1, Some(sep)));
            assert(high(ks, i, hi) == high(k2, i - n - 1, hi));
        }
    }
    assert forall|i: int, j: int|
        #![trigger ks[i], ks[j]]
        0 <= i < j < ks.len() implies lt(ks[i], ks[j]) by {
        if i < n {
            assert(under(k1[i], Some(sep)));
        }
        if j > n {
            assert(over(Some(sep), k2[j - n - 1]));
        }
    }
    assert forall|i: int| 0 <= i < ks.len() implies over(lo, #[trigger] ks[i]) && under(
        ks[i],
        hi,
    ) by {
        if i < n {
            assert(under(k1[i], Some(sep)));
        }
        if i > n {
            assert(over(Some(sep), k2[i - n - 1]));
        }
    }
}

/// Children `i..j` of a search tree can be replaced by others that keep within their bounds.
pub proof fn lemma_ord_replace<K: Key, V>(
    keys: Seq<K>,
    ts: Seq<Tree<K, V>>,
    lo: Option<K>,
    hi: Option<K>,
    i: int,
    j: int,
    nk: Seq<K>,
    news: Seq<Tree<K, V>>,
)
    requires
        ordered::<K>(),
        ord_row(keys, ts, lo, hi),
        0 <= i < j <= ts.len(),
        ord_row(nk, news, low(keys, i, lo), high(keys, j - 1, hi)),
    ensures
        ord_row(
            keys.take(i) + nk + keys.skip(j - 1),
            ts.take(i) + news + ts.skip(j),
            lo,
            hi,
        ),
{
    let k1 = keys.take(i) + nk;
    let t1 = ts.take(i) + news;
    if i > 0 {
        lemma_ord_slice(keys, ts, lo, hi, 0, i);
        assert(keys.take(i) =~= keys.subrange(0, i - 1).push(keys[i - 1]));
        assert(ts.take(i) =~= ts.subrange(0, i));
        if j - 1 < keys.len() {
            assert(lt(keys[i - 1], keys[j - 1]));
        }
        lemma_ord_join(
            keys.subrange(0, i - 1),
            ts.subrange(0, i),
            keys[i - 1],
            nk,
            news,
            lo,
            high(keys, j - 1, hi),
        );
    } else {
        assert(k1 =~= nk);
        assert(t1 =~= news);
    }
    assert(ord_row(k1, t1, lo, high(keys, j - 1, hi)));
    if j < ts.len() {
        lemma_ord_slice(keys, ts, lo, hi, j, ts.len() as int);
        let k2 = keys.subrange(j, keys.len() as int);
        let t2 = ts.subrange(j, ts.len() as int);
        lemma_ord_join(k1, t1, keys[j - 1], k2, t2, lo, hi);
        assert(k1.push(keys[j - 1]) + k2 =~= keys.take(i) + nk + keys.skip(j - 1));
        assert(t1 + t2 =~= ts.take(i) + news + ts.skip(j));
    } else {
        assert(keys.take(i) + nk + keys.skip(j - 1) =~= k1);
        assert(ts.take(i) + news + ts.skip(j) =~= t1);
    }
}

/// A search tree on its own is a row of one.
pub proof fn lemma_ord_one<K: Key, V>(t: Tree<K, V>, lo: Option<K>, hi: Option<K>)
    requires
        ord(t, lo, hi),
    ensures
        ord_row(Seq::<K>::empty(), seq![t], lo, hi),
{
}

/// Two search trees with a separator between them.
pub proof fn lemma_ord_two<K: Key, V>(
    t: Tree<K, V>,
    sep: K,
    u: Tree<K, V>,
    lo: Option<K>,
    hi: Option<K>,
)
    requires
        ordered::<K>(),
        ord(t, lo, Some(sep)),
        ord(u, Some(sep), hi),
        over(lo, sep),
        under(sep, hi),
    ensures
        ord_row(seq![sep], seq![t, u], lo, hi),
{
    let ts = seq![t, u];
    assert forall|i: int| 0 <= i < ts.len() implies ord(
        #[trigger] ts[i],
        low(seq![sep], i, lo),
        high(seq![sep], i, hi),
    ) by {
        if i == 0 {
            assert(ts[i] == t);
        } else {
            assert(ts[i] == u);
        }
    }
}

/// The pairs of a search tree ascend and lie between its bounds.
pub proof fn lemma_ord_pairs<K: Key, V>(t: Tree<K, V>, lo: Option<K>, hi: Option<K>)
    requires
        ordered::<K>(),
        ord(t, lo, hi),
    ensures
        sorted(pairs(t)),
        within(pairs(t), lo, hi),
    decreases t, 0nat,
{
    match t {
        Tree::Leaf { at, leaf } => {
            lemma_leaf_pairs(t);
        },
        Tree::Inner { at, keys, kids } => {
            lemma_ord_row_pairs(keys, kids, lo, hi);
        },
    }
}

/// The pairs of the children of a search tree ascend and lie between its bounds.
pub proof fn lemma_ord_row_pairs<K: Key, V>(
    keys: Seq<K>,
    ts: Seq<Tree<K, V>>,
    lo: Option<K>,
    hi: Option<K>,
)
    requires
        ordered::<K>(),
        ord_row(keys, ts, lo, hi),
    ensures
        sorted(pairs_of(ts)),
        within(pairs_of(ts), lo, hi),
    decreases ts, 1nat,
{
    broadcast use group_order;

    let n = ts.len() - 1;
    let last = ts.last();
    lemma_ord_pairs(last, low(keys, n, lo), hi);
    assert(ts =~= ts.drop_last() + seq![last]);
    lemma_pairs_concat(ts.drop_last(), seq![last]);
    lemma_one(last);
    let a = pairs_of(ts.drop_last());
    let b = pairs(last);
    if n > 0 {
        lemma_ord_slice(keys, ts, lo, hi, 0, n);
        assert(ts.subrange(0, n) =~= ts.drop_last());
        assert(keys.subrange(0, n - 1) =~= keys.drop_last());
        lemma_ord_row_pairs(keys.drop_last(), ts.drop_last(), lo, Some(keys[n - 1]));
    } else {
        assert(ts.drop_last() =~= Seq::<Tree<K, V>>::empty());
        assert(a =~= Seq::<(K, V)>::empty());
    }
    let ps = a + b;
    assert forall|i: int| 0 <= i < ps.len() implies from(lo, #[trigger] ps[i].0) && under(
        ps[i].0,
        hi,
    ) by {
        if i < a.len() {
            assert(ps[i] == a[i]);
        } else {
            assert(ps[i] == b[i - a.len()]);
        }
    }
    assert forall|i: int, j: int|
        #![trigger ps[i], ps[j]]
        0 <= i < j < ps.len() implies lt(ps[i].0, ps[j].0) by {
        if i < a.len() {
            assert(ps[i] == a[i]);
        } else {
            assert(ps[i] == b[i - a.len()]);
        }
        if j < a.len() {
            assert(ps[j] == a[j]);
        } else {
            assert(ps[j] == b[j - a.len()]);
        }
    }
}

/// The child that owns `k` decides about it: what is left of it lies below `k`, what is right of
/// it above.
pub proof fn lemma_routed<K: Key, V>(
    keys: Seq<K>,
    ts: Seq<Tree<K, V>>,
    lo: Option<K>,
    hi: Option<K>,
    k: K,
)
    requires
        ordered::<K>(),
        ord_row(keys, ts, lo, hi),
        from(lo, k),
        under(k, hi),
    ensures
        ({
            let i = route(keys, k) as int;
            &&& 0 <= i < ts.len()
            &&& pairs_of(ts) == pairs_of(ts.take(i)) + pairs(ts[i]) + pairs_of(ts.skip(i + 1))
            &&& all_below(pairs_of(ts.take(i)), k)
            &&& all_above(pairs_of(ts.skip(i + 1)), k)
            &&& ord(ts[i], low(keys, i, lo), high(keys, i, hi))
            &&& from(low(keys, i, lo), k)
            &&& under(k, high(keys, i, hi))
        }),
{
    broadcast use group_order;

    lemma_route_splits(keys, k);
    let i = route(keys, k) as int;
    let a = ts.take(i);
    let b = ts.skip(i + 1);
    assert(ts =~= a + seq![ts[i]] + b);
    lemma_pairs_concat(a + seq![ts[i]], b);
    lemma_pairs_concat(a, seq![ts[i]]);
    lemma_one(ts[i]);
    if i > 0 {
        lemma_ord_slice(keys, ts, lo, hi, 0, i);
        assert(ts.subrange(0, i) =~= a);
        lemma_ord_row_pairs(keys.subrange(0, i - 1), a, lo, Some(keys[i - 1]));
        assert forall|l: int| 0 <= l < pairs_of(a).len() implies lt(
            #[trigger] pairs_of(a)[l].0,
            k,
        ) by {
            assert(under(pairs_of(a)[l].0, Some(keys[i - 1])));
        }
    } else {
        assert(a =~= Seq::<Tree<K, V>>::empty());
        assert(pairs_of(a) =~= Seq::<(K, V)>::empty());
    }
    if i < keys.len() {
        lemma_ord_slice(keys, ts, lo, hi, i + 1, ts.len() as int);
        assert(ts.subrange(i + 1, ts.len() as int) =~= b);
        lemma_ord_row_pairs(keys.subrange(i + 1, keys.len() as int), b, Some(keys[i]), hi);
        assert forall|l: int| 0 <= l < pairs_of(b).len() implies lt(
            k,
            #[trigger] pairs_of(b)[l].0,
        ) by {
            assert(from(Some(keys[i]), pairs_of(b)[l].0));
        }
    } else {
        assert(b =~= Seq::<Tree<K, V>>::empty());
        assert(pairs_of(b) =~= Seq::<(K, V)>::empty());
    }
}

/// A chain can be cut, and a part of it replaced by one with the same ends.
pub proof fn lemma_chained_replace<K, V>(
    pre: Seq<Link<K, V>>,
    old: Seq<Link<K, V>>,
    new: Seq<Link<K, V>>,
    post: Seq<Link<K, V>>,
)
    requires
        chained(pre + old + post),
        chained(new),
        same_ends(old, new),
    ensures
        chained(pre + new + post),
        same_ends(pre + old + post, pre + new + post),
{
    reveal(chained);
    let a = pre + old + post;
    let b = pre + new + post;
    let p = pre.len() as int;
    let n = new.len() as int;
    let o = old.len() as int;
    assert forall|i: int, j: int|
        #![trigger b[i], b[j]]
        0 <= i < b.len() && 0 <= j < b.len() && j == i + 1 implies b[i].leaf.next == Some(
        b[j].at,
    ) by {
        if j < p {
            assert(b[i] == a[i] && b[j] == a[j]);
        } else if j == p {
            assert(b[i] == a[i]);
            assert(a[j] == old[0] && b[j] == new[0]);
        } else if j < p + n {
            assert(b[i] == new[i - p] && b[j] == new[j - p]);
        } else if j == p + n {
            assert(b[i] == new[n - 1]);
            assert(a[p + o - 1] == old[o - 1]);
            assert(b[j] == post[0] && a[p + o] == post[0]);
        } else {
            assert(b[i] == post[i - p - n] && b[j] == post[j - p - n]);
            assert(a[i - n + o] == post[i - p - n] && a[j - n + o] == post[j - p - n]);
        }
    }
    if post.len() > 0 {
        assert(a.last() == post.last() && b.last() == post.last());
    } else {
        assert(a.last() == old.last() && b.last() == new.last());
    }
    if p > 0 {
        assert(a[0] == pre[0] && b[0] == pre[0]);
    } else {
        assert(a[0] == old[0] && b[0] == new[0]);
    }
}

/// A part of a chain is a chain.
pub proof fn lemma_chained_part<K, V>(
    pre: Seq<Link<K, V>>,
    mid: Seq<Link<K, V>>,
    post: Seq<Link<K, V>>,
)
    requires
        chained(pre + mid + post),
    ensures
        chained(mid),
{
    reveal(chained);
    let a = pre + mid + post;
    let p = pre.len() as int;
    assert forall|i: int, j: int|
        #![trigger mid[i], mid[j]]
        0 <= i < mid.len() && 0 <= j < mid.len() && j == i + 1 implies mid[i].leaf.next == Some(
        mid[j].at,
    ) by {
        assert(a[p + i] == mid[i] && a[p + j] == mid[j]);
    }
}

/// A tree has at least one leaf.
pub proof fn lemma_leaves_some<K, V>(t: Tree<K, V>, h: nat, m: usize)
    requires
        shape(t, h, m),
    ensures
        leaves(t).len() > 0,
    decreases t,
{
    reveal(leaves_of);
    if t is Inner {
        let kids = t->kids;
        assert(shape(kids[kids.len() - 1], (h - 1) as nat, m));
        lemma_leaves_some(kids.last(), (h - 1) as nat, m);
    }
}

/// A row of trees has at least one leaf.
pub proof fn lemma_row_leaves_some<K, V>(ts: Seq<Tree<K, V>>, h: nat, m: usize)
    requires
        ts.len() > 0,
        shape_row(ts, h, m),
    ensures
        leaves_of(ts).len() > 0,
{
    let last = ts[ts.len() - 1];
    lemma_leaves_some(last, h, m);
    assert(ts =~= ts.drop_last() + seq![last]);
    lemma_leaves_concat(ts.drop_last(), seq![last]);
    lemma_one(last);
}

/// The leaves and the pairs of a row, cut into three.
pub proof fn lemma_cut<K, V>(ts: Seq<Tree<K, V>>, i: int, j: int)
    requires
        0 <= i <= j <= ts.len(),
    ensures
        ts == ts.take(i) + ts.subrange(i, j) + ts.skip(j),
        leaves_of(ts) == leaves_of(ts.take(i)) + leaves_of(ts.subrange(i, j)) + leaves_of(
            ts.skip(j),
        ),
        pairs_of(ts) == pairs_of(ts.take(i)) + pairs_of(ts.subrange(i, j)) + pairs_of(ts.skip(j)),
{
    assert(ts =~= ts.take(i) + ts.subrange(i, j) + ts.skip(j));
    lemma_leaves_concat(ts.take(i) + ts.subrange(i, j), ts.skip(j));
    lemma_leaves_concat(ts.take(i), ts.subrange(i, j));
    lemma_pairs_concat(ts.take(i) + ts.subrange(i, j), ts.skip(j));
    lemma_pairs_concat(ts.take(i), ts.subrange(i, j));
}

/// The leaves and the pairs of three rows side by side.
pub proof fn lemma_three<K, V>(
    a: Seq<Tree<K, V>>,
    b: Seq<Tree<K, V>>,
    c: Seq<Tree<K, V>>,
)
    ensures
        leaves_of(a + b + c) == leaves_of(a) + leaves_of(b) + leaves_of(c),
        pairs_of(a + b + c) == pairs_of(a) + pairs_of(b) + pairs_of(c),
{
    lemma_leaves_concat(a + b, c);
    lemma_leaves_concat(a, b);
    lemma_pairs_concat(a + b, c);
    lemma_pairs_concat(a, b);
}

/// What a parent knows after its children `i..j` were replaced.
pub proof fn lemma_swap<K: Key, V, const M: usize>(
    s: Store<K, V, M>,
    t: Store<K, V, M>,
    keys: Seq<K>,
    ns: Seq<Addr>,
    i: int,
    j: int,
    nk: Seq<K>,
    new: Seq<Addr>,
    h: nat,
    lo: Option<K>,
    hi: Option<K>,
)
    requires
        ordered::<K>(),
        0 <= i < j <= ns.len(),
        all_held(s, ns, h),
        ord_row(keys, forest(s, ns, h), lo, hi),
        all_distinct(forest(s, ns, h)),
        chained(leaves_of(forest(s, ns, h))),
        exchanged(
            s,
            t,
            forest(s, ns, h).subrange(i, j),
            nk,
            new,
            h,
            low(keys, i, lo),
            high(keys, j - 1, hi),
        ),
    ensures
        ({
            let ks2 = keys.take(i) + nk + keys.skip(j - 1);
            let ns2 = ns.take(i) + new + ns.skip(j);
            let ts = forest(s, ns, h);
            let ts2 = ts.take(i) + forest(t, new, h) + ts.skip(j);
            &&& all_held(t, ns2, h)
            &&& forest(t, ns2, h) == ts2
            &&& ord_row(ks2, ts2, lo, hi)
            &&& all_distinct(ts2)
            &&& chained(leaves_of(ts2))
            &&& same_ends(leaves_of(ts), leaves_of(ts2))
            &&& replaced(s, t, ts, ts2)
            &&& pairs_of(ts) == pairs_of(ts.take(i)) + pairs_of(ts.subrange(i, j)) + pairs_of(
                ts.skip(j),
            )
            &&& pairs_of(ts2) == pairs_of(ts.take(i)) + pairs_of(forest(t, new, h)) + pairs_of(
                ts.skip(j),
            )
        }),
{
    let ts = forest(s, ns, h);
    let news = forest(t, new, h);
    assert(forest(s, ns.subrange(i, j), h) =~= ts.subrange(i, j));
    lemma_replace(s, t, ns, i, j, new, h);
    lemma_ord_replace(keys, ts, lo, hi, i, j, nk, news);
    lemma_cut(ts, i, j);
    lemma_three(ts.take(i), news, ts.skip(j));
    lemma_chained_replace(
        leaves_of(ts.take(i)),
        leaves_of(ts.subrange(i, j)),
        leaves_of(news),
        leaves_of(ts.skip(j)),
    );
}

/// The store after the inner node at `n` has been moved out of its slot.
pub open spec fn without<K: Key, V, const M: usize>(s: Store<K, V, M>, n: Addr) -> Store<K, V, M> {
    Store { inners: s.inners.remove(n), raw_inners: s.raw_inners.insert(n), ..s }
}

/// The store after an inner node has been put into the raw slot `n`.
pub open spec fn with<K: Key, V, const M: usize>(
    s: Store<K, V, M>,
    n: Addr,
    x: Inner<K, V, M>,
) -> Store<K, V, M> {
    Store { inners: s.inners.insert(n, x), raw_inners: s.raw_inners.remove(n), ..s }
}

/// A row stays as it is when an inner node that it does not use comes, goes or changes.
pub proof fn lemma_row_kept<K: Key, V, const M: usize>(
    s: Store<K, V, M>,
    t: Store<K, V, M>,
    ns: Seq<Addr>,
    h: nat,
)
    requires
        all_held(s, ns, h),
        t.leaves == s.leaves,
        forall|a: Addr| #[trigger]
            any_inner(forest(s, ns, h), a) ==> t.inners.dom().contains(a) && t.inners[a]
                == s.inners[a],
    ensures
        all_held(t, ns, h),
        forest(t, ns, h) == forest(s, ns, h),
{
    reveal(any_inner);
    reveal(any_leaf);
    let ts = forest(s, ns, h);
    lemma_all_held_dom(s, ns, h);
    assert forall|i: int| 0 <= i < ns.len() implies held(t, #[trigger] ns[i], h) && abs(t, ns[i], h)
        == ts[i] by {
        assert(ts[i] == abs(s, ns[i], h));
        assert forall|a: Addr| #[trigger] has_leaf(abs(s, ns[i], h), a) implies
            t.leaves.dom().contains(a) && t.leaves[a] == s.leaves[a] by {
            assert(has_leaf(ts[i], a));
            assert(any_leaf(ts, a));
        }
        assert forall|a: Addr| #[trigger] has_inner(abs(s, ns[i], h), a) implies
            t.inners.dom().contains(a) && t.inners[a] == s.inners[a] by {
            assert(has_inner(ts[i], a));
            assert(any_inner(ts, a));
        }
        lemma_abs_kept(s, t, ns[i], h);
    }
    assert(forest(t, ns, h) =~= ts);
}

/// What is below an inner node stays when the node is moved out of its slot.
pub proof fn lemma_unwrap<K: Key, V, const M: usize>(s: Store<K, V, M>, n: Addr, h: nat)
    requires
        held(s, n, h),
        h > 0,
        distinct(abs(s, n, h)),
    ensures
        ({
            let g = (h - 1) as nat;
            let ns = s.inners[n]@.kids;
            &&& s.inners.dom().contains(n)
            &&& abs(s, n, h) == (Tree::Inner {
                at: n,
                keys: s.inners[n]@.keys,
                kids: forest(s, ns, g),
            })
            &&& !any_inner(forest(s, ns, g), n)
            &&& all_held(without(s, n), ns, g)
            &&& forest(without(s, n), ns, g) == forest(s, ns, g)
        }),
{
    let g = (h - 1) as nat;
    let ns = s.inners[n]@.kids;
    lemma_all_held_dom(s, ns, g);
    lemma_row_kept(s, without(s, n), ns, g);
}

/// An inner node that is put back over a changed row of children.
pub proof fn lemma_rewrap<K: Key, V, const M: usize>(
    s: Store<K, V, M>,
    t: Store<K, V, M>,
    n: Addr,
    h: nat,
    keys: Seq<K>,
    kids: Seq<Tree<K, V>>,
    x: Inner<K, V, M>,
)
    requires
        s.inners.dom().contains(n),
        !s.raw_inners.contains(n),
        !any_inner(kids, n),
        all_held(t, x@.kids, h),
        replaced(without(s, n), t, kids, forest(t, x@.kids, h)),
        !t.inners.dom().contains(n),
    ensures
        ({
            let u = with(t, n, x);
            let news = forest(t, x@.kids, h);
            let new = Tree::Inner { at: n, keys: x@.keys, kids: news };
            &&& held(u, n, h + 1)
            &&& abs(u, n, h + 1) == new
            &&& !any_inner(news, n)
            &&& replaced(s, u, seq![Tree::Inner { at: n, keys, kids }], seq![new])
        }),
{
    reveal(moved);
    let u = with(t, n, x);
    let news = forest(t, x@.kids, h);
    lemma_all_held_dom(t, x@.kids, h);
    lemma_row_kept(t, u, x@.kids, h);
    let old = Tree::Inner { at: n, keys, kids };
    let new = Tree::Inner { at: n, keys: x@.keys, kids: news };
    lemma_one(old);
    lemma_one(new);
    assert(t.raw_inners == s.raw_inners.insert(n));
    assert(u.raw_inners =~= s.raw_inners);
    assert(abs(u, n, h + 1) == new);
    let s0 = without(s, n);
    assert forall|a: Addr| #![trigger s.leaves.dom().contains(a)]
        s.leaves.dom().contains(a) && !any_leaf(seq![old], a) implies {
        &&& u.leaves.dom().contains(a)
        &&& u.leaves[a] == s.leaves[a]
        &&& !any_leaf(seq![new], a)
    } by {
        assert(s0.leaves.dom().contains(a));
    }
    assert forall|a: Addr| #![trigger u.leaves.dom().contains(a)]
        u.leaves.dom().contains(a) && !any_leaf(seq![new], a) implies {
        &&& s.leaves.dom().contains(a)
        &&& !any_leaf(seq![old], a)
    } by {
        assert(t.leaves.dom().contains(a));
    }
    assert forall|a: Addr| #![trigger s.inners.dom().contains(a)]
        s.inners.dom().contains(a) && !any_inner(seq![old], a) implies {
        &&& u.inners.dom().contains(a)
        &&& u.inners[a] == s.inners[a]
        &&& !any_inner(seq![new], a)
    } by {
        assert(s0.inners.dom().contains(a));
    }
    assert forall|a: Addr| #![trigger u.inners.dom().contains(a)]
        u.inners.dom().contains(a) && !any_inner(seq![new], a) implies {
        &&& s.inners.dom().contains(a)
        &&& !any_inner(seq![old], a)
    } by {
        assert(t.inners.dom().contains(a));
    }
}

/// A row of trees divided between two inner nodes.
pub proof fn lemma_two<K, V>(
    row: Seq<Tree<K, V>>,
    cut: int,
    n: Addr,
    r: Addr,
    kx: Seq<K>,
    ky: Seq<K>,
)
    requires
        0 <= cut <= row.len(),
    ensures
        ({
            let a = Tree::Inner { at: n, keys: kx, kids: row.take(cut) };
            let b = Tree::Inner { at: r, keys: ky, kids: row.skip(cut) };
            let two = seq![a, b];
            &&& leaves_of(two) == leaves_of(row)
            &&& pairs_of(two) == pairs_of(row)
            &&& forall|z: Addr| #[trigger] any_leaf(two, z) == any_leaf(row, z)
            &&& forall|z: Addr| #[trigger]
                any_inner(two, z) == (any_inner(row, z) || z == n || z == r)
            &&& all_distinct(row) && !any_inner(row, n) && !any_inner(row, r) && n != r
                <==> all_distinct(two)
        }),
{
    reveal(any_inner);
    reveal(any_leaf);
    reveal(apart);
    let ra = row.take(cut);
    let rb = row.skip(cut);
    let a = Tree::Inner { at: n, keys: kx, kids: ra };
    let b = Tree::Inner { at: r, keys: ky, kids: rb };
    let two = seq![a, b];
    assert(row =~= ra + rb);
    lemma_any_concat(ra, rb);
    lemma_leaves_concat(ra, rb);
    lemma_one(a);
    lemma_one(b);
    lemma_any_concat(seq![a], seq![b]);
    lemma_leaves_concat(seq![a], seq![b]);
    assert(seq![a] + seq![b] =~= two);
    assert(forall|z: Addr| #[trigger] any_leaf(two, z) == any_leaf(row, z));
    assert(forall|z: Addr| #[trigger]
        any_inner(two, z) == (any_inner(row, z) || z == n || z == r));
    if all_distinct(row) && !any_inner(row, n) && !any_inner(row, r) && n != r {
        assert(forall|z: Addr| any_inner(ra, z) ==> #[trigger] any_inner(row, z));
        assert(forall|z: Addr| any_inner(rb, z) ==> #[trigger] any_inner(row, z));
        assert(all_distinct(ra)) by {
            assert(forall|i: int| 0 <= i < ra.len() ==> ra[i] == row[i]);
        }
        assert(all_distinct(rb)) by {
            assert(forall|i: int| 0 <= i < rb.len() ==> rb[i] == row[cut + i]);
        }
        assert forall|z: Addr| has_leaf(a, z) implies !#[trigger] has_leaf(b, z) by {
            if has_leaf(b, z) {
                let i = choose|i: int| 0 <= i < ra.len() && has_leaf(#[trigger] ra[i], z);
                let j = choose|j: int| 0 <= j < rb.len() && has_leaf(#[trigger] rb[j], z);
                assert(ra[i] == row[i] && rb[j] == row[cut + j]);
                assert(apart(row[i], row[cut + j]));
            }
        }
        assert forall|z: Addr| has_inner(a, z) implies !#[trigger] has_inner(b, z) by {
            if has_inner(b, z) && z != n && z != r {
                let i = choose|i: int| 0 <= i < ra.len() && has_inner(#[trigger] ra[i], z);
                let j = choose|j: int| 0 <= j < rb.len() && has_inner(#[trigger] rb[j], z);
                assert(ra[i] == row[i] && rb[j] == row[cut + j]);
                assert(apart(row[i], row[cut + j]));
            }
        }
        assert(all_distinct(two));
    }
    if all_distinct(two) {
        assert(two[0] == a && two[1] == b);
        assert(distinct(two[0]) && distinct(two[1]));
        assert(apart(two[0], two[1]) && apart(two[1], two[0]));
        assert(has_inner(a, n) && has_inner(b, r));
        assert forall|i: int| 0 <= i < row.len() implies distinct(#[trigger] row[i]) by {
            if i < cut {
                assert(ra[i] == row[i]);
            } else {
                assert(rb[i - cut] == row[i]);
            }
        }
        assert forall|i: int, j: int|
            #![trigger row[i], row[j]]
            0 <= i < row.len() && 0 <= j < row.len() && i != j implies apart(row[i], row[j]) by {
            if i < cut {
                assert(ra[i] == row[i]);
            } else {
                assert(rb[i - cut] == row[i]);
            }
            if j < cut {
                assert(ra[j] == row[j]);
            } else {
                assert(rb[j - cut] == row[j]);
            }
            if i < cut && j >= cut {
                assert forall|z: Addr| has_leaf(row[i], z) implies !#[trigger] has_leaf(
                    row[j],
                    z,
                ) by {
                    assert(any_leaf(ra, z));
                    if has_leaf(row[j], z) {
                        assert(any_leaf(rb, z));
                        assert(has_leaf(a, z) && has_leaf(b, z));
                    }
                }
                assert forall|z: Addr| has_inner(row[i], z) implies !#[trigger] has_inner(
                    row[j],
                    z,
                ) by {
                    assert(any_inner(ra, z));
                    if has_inner(row[j], z) {
                        assert(any_inner(rb, z));
                        assert(has_inner(a, z) && has_inner(b, z));
                    }
                }
            }
            if j < cut && i >= cut {
                assert forall|z: Addr| has_leaf(row[i], z) implies !#[trigger] has_leaf(
                    row[j],
                    z,
                ) by {
                    assert(any_leaf(rb, z));
                    if has_leaf(row[j], z) {
                        assert(any_leaf(ra, z));
                        assert(has_leaf(a, z) && has_leaf(b, z));
                    }
                }
                assert forall|z: Addr| has_inner(row[i], z) implies !#[trigger] has_inner(
                    row[j],
                    z,
                ) by {
                    assert(any_inner(rb, z));
                    if has_inner(row[j], z) {
                        assert(any_inner(ra, z));
                        assert(has_inner(a, z) && has_inner(b, z));
                    }
                }
            }
        }
    }
}

/// An inner node that is put back over the left part of a changed row of children, with a new
/// right sibling over the rest.
pub proof fn lemma_rewrap_two<K: Key, V, const M: usize>(
    s: Store<K, V, M>,
    t: Store<K, V, M>,
    n: Addr,
    r: Addr,
    h: nat,
    keys: Seq<K>,
    kids: Seq<Tree<K, V>>,
    x: Inner<K, V, M>,
    y: Inner<K, V, M>,
)
    requires
        s.inners.dom().contains(n),
        !s.raw_inners.contains(n),
        !any_inner(kids, n),
        all_held(t, x@.kids + y@.kids, h),
        replaced(without(s, n), t, kids, forest(t, x@.kids + y@.kids, h)),
        all_distinct(forest(t, x@.kids + y@.kids, h)),
        !t.inners.dom().contains(n),
        !t.inners.dom().contains(r),
        r != n,
    ensures
        ({
            let u = with(Store { inners: t.inners.insert(r, y), ..t }, n, x);
            let row = forest(t, x@.kids + y@.kids, h);
            let cut = x@.kids.len() as int;
            let a = Tree::Inner { at: n, keys: x@.keys, kids: row.take(cut) };
            let b = Tree::Inner { at: r, keys: y@.keys, kids: row.skip(cut) };
            &&& held(u, n, h + 1)
            &&& held(u, r, h + 1)
            &&& abs(u, n, h + 1) == a
            &&& abs(u, r, h + 1) == b
            &&& all_distinct(seq![a, b])
            &&& leaves_of(seq![a, b]) == leaves_of(row)
            &&& pairs_of(seq![a, b]) == pairs_of(row)
            &&& replaced(s, u, seq![Tree::Inner { at: n, keys, kids }], seq![a, b])
        }),
{
    reveal(moved);
    let u = with(Store { inners: t.inners.insert(r, y), ..t }, n, x);
    let ns = x@.kids + y@.kids;
    let row = forest(t, ns, h);
    let cut = x@.kids.len() as int;
    let a = Tree::Inner { at: n, keys: x@.keys, kids: row.take(cut) };
    let b = Tree::Inner { at: r, keys: y@.keys, kids: row.skip(cut) };
    let old = Tree::Inner { at: n, keys, kids };
    let two = seq![a, b];
    let s0 = without(s, n);
    lemma_all_held_dom(t, ns, h);
    lemma_row_kept(t, u, ns, h);
    lemma_held_part(u, ns, h, 0, cut);
    lemma_held_part(u, ns, h, cut, ns.len() as int);
    assert(ns.subrange(0, cut) =~= x@.kids);
    assert(ns.subrange(cut, ns.len() as int) =~= y@.kids);
    assert(row.subrange(0, cut) =~= row.take(cut));
    assert(row.subrange(cut, row.len() as int) =~= row.skip(cut));
    lemma_one(old);
    lemma_two(row, cut, n, r, x@.keys, y@.keys);
    assert(u.raw_inners =~= s.raw_inners);
    assert forall|z: Addr| #![trigger s.leaves.dom().contains(z)]
        s.leaves.dom().contains(z) && !any_leaf(seq![old], z) implies {
        &&& u.leaves.dom().contains(z)
        &&& u.leaves[z] == s.leaves[z]
        &&& !any_leaf(two, z)
    } by {
        assert(s0.leaves.dom().contains(z));
    }
    assert forall|z: Addr| #![trigger u.leaves.dom().contains(z)]
        u.leaves.dom().contains(z) && !any_leaf(two, z) implies {
        &&& s.leaves.dom().contains(z)
        &&& !any_leaf(seq![old], z)
    } by {
        assert(t.leaves.dom().contains(z));
    }
    assert forall|z: Addr| #![trigger s.inners.dom().contains(z)]
        s.inners.dom().contains(z) && !any_inner(seq![old], z) implies {
        &&& u.inners.dom().contains(z)
        &&& u.inners[z] == s.inners[z]
        &&& !any_inner(two, z)
    } by {
        assert(s0.inners.dom().contains(z));
    }
    assert forall|z: Addr| #![trigger u.inners.dom().contains(z)]
        u.inners.dom().contains(z) && !any_inner(two, z) implies {
        &&& s.inners.dom().contains(z)
        &&& !any_inner(seq![old], z)
    } by {
        assert(t.inners.dom().contains(z));
    }
}

/// A part of a held row is held.
pub proof fn lemma_held_part<K: Key, V, const M: usize>(
    s: Store<K, V, M>,
    ns: Seq<Addr>,
    h: nat,
    i: int,
    j: int,
)
    requires
        all_held(s, ns, h),
        0 <= i <= j <= ns.len(),
    ensures
        all_held(s, ns.subrange(i, j), h),
        forest(s, ns.subrange(i, j), h) == forest(s, ns, h).subrange(i, j),
{
    let part = ns.subrange(i, j);
    assert forall|l: int| 0 <= l < part.len() implies held(s, #[trigger] part[l], h) by {
        assert(part[l] == ns[i + l]);
    }
    assert(forest(s, part, h) =~= forest(s, ns, h).subrange(i, j));
}

/// Storing a pair within the bounds keeps all pairs within them.
pub proof fn lemma_put_within<K: Key, V>(
    ps: Seq<(K, V)>,
    k: K,
    v: V,
    lo: Option<K>,
    hi: Option<K>,
)
    requires
        ordered::<K>(),
        sorted(ps),
        within(ps, lo, hi),
        from(lo, k),
        under(k, hi),
    ensures
        sorted(put(ps, k, v)),
        within(put(ps, k, v), lo, hi),
        has_key(ps, k) ==> put(ps, k, v).len() == ps.len(),
        !has_key(ps, k) ==> put(ps, k, v).len() == ps.len() + 1,
{
    lemma_rank_splits(ps, k);
    lemma_put_sorted(ps, k, v);
    let qs = put(ps, k, v);
    let r = rank(ps, k) as int;
    assert forall|i: int| 0 <= i < qs.len() implies from(lo, #[trigger] qs[i].0) && under(
        qs[i].0,
        hi,
    ) by {
        if has_key(ps, k) {
            assert(qs[i].0 == ps[i].0);
        } else if i < r {
            assert(qs[i] == ps[i]);
        } else if i > r {
            assert(qs[i] == ps[i - 1]);
        }
    }
}

/// A leaf that changes in its place.
pub proof fn lemma_leaf_changed<K: Key, V, const M: usize>(
    s: Store<K, V, M>,
    n: Addr,
    x: Leaf<K, V, M>,
    lo: Option<K>,
    hi: Option<K>,
)
    requires
        ordered::<K>(),
        held(s, n, 0),
        x.wf(),
        within(x@.items, lo, hi),
        x@.next == s.leaves[n]@.next,
    ensures
        ({
            let u = Store { leaves: s.leaves.insert(n, x), ..s };
            let new = Tree::Leaf { at: n, leaf: x@ };
            &&& swapped(s, u, seq![abs(s, n, 0)], Seq::<K>::empty(), seq![n], 0, lo, hi)
            &&& abs(u, n, 0) == new
            &&& forest(u, seq![n], 0) == seq![new]
            &&& pairs_of(seq![new]) == x@.items
            &&& pairs(new) == x@.items
        }),
{
    reveal(chained);
    reveal(moved);
    let u = Store { leaves: s.leaves.insert(n, x), ..s };
    let old = abs(s, n, 0);
    let new = Tree::Leaf { at: n, leaf: x@ };
    lemma_one(old);
    lemma_one(new);
    lemma_leaf_pairs(new);
    lemma_leaf_pairs(old);
    assert(abs(u, n, 0) == new);
    assert(forest(u, seq![n], 0) =~= seq![new]);
    assert(ord_row(Seq::<K>::empty(), seq![new], lo, hi));
}

/// Two leaves side by side.
pub proof fn lemma_two_leaves<K: Key, V>(
    n: Addr,
    r: Addr,
    x: LeafView<K, V>,
    y: LeafView<K, V>,
    lo: Option<K>,
    hi: Option<K>,
)
    requires
        ordered::<K>(),
        n != r,
        x.items.len() > 0,
        y.items.len() > 0,
        sorted(x.items + y.items),
        within(x.items + y.items, lo, hi),
        x.next == Some(r),
    ensures
        ({
            let two = seq![Tree::Leaf { at: n, leaf: x }, Tree::Leaf { at: r, leaf: y }];
            &&& ord_row(seq![y.items[0].0], two, lo, hi)
            &&& all_distinct(two)
            &&& chained(leaves_of(two))
            &&& leaves_of(two) == seq![Link { at: n, leaf: x }, Link { at: r, leaf: y }]
            &&& pairs_of(two) == x.items + y.items
            &&& forall|z: Addr| #[trigger] any_leaf(two, z) == (z == n || z == r)
            &&& forall|z: Addr| !#[trigger] any_inner(two, z)
        }),
{
    broadcast use group_order;

    reveal(chained);
    reveal(apart);
    let a = Tree::Leaf { at: n, leaf: x };
    let b = Tree::Leaf { at: r, leaf: y };
    let two = seq![a, b];
    let sep = y.items[0].0;
    let all = x.items + y.items;
    lemma_one(a);
    lemma_one(b);
    lemma_leaf_pairs(a);
    lemma_leaf_pairs(b);
    assert(seq![a] + seq![b] =~= two);
    lemma_any_concat(seq![a], seq![b]);
    lemma_leaves_concat(seq![a], seq![b]);
    lemma_pairs_concat(seq![a], seq![b]);
    assert(leaves_of(two) =~= seq![Link { at: n, leaf: x }, Link { at: r, leaf: y }]);
    assert(all[x.items.len() as int] == y.items[0]);
    assert(all[0] == x.items[0]);
    assert forall|i: int| 0 <= i < x.items.len() implies from(lo, #[trigger] x.items[i].0) && under(
        x.items[i].0,
        Some(sep),
    ) by {
        assert(all[i] == x.items[i]);
    }
    assert forall|i: int| 0 <= i < y.items.len() implies from(Some(sep), #[trigger] y.items[i].0)
        && under(y.items[i].0, hi) by {
        assert(all[x.items.len() + i] == y.items[i]);
    }
    assert forall|i: int, j: int|
        #![trigger x.items[i], x.items[j]]
        0 <= i < j < x.items.len() implies lt(x.items[i].0, x.items[j].0) by {
        assert(x.items[i] == all[i] && x.items[j] == all[j]);
    }
    assert forall|i: int, j: int|
        #![trigger y.items[i], y.items[j]]
        0 <= i < j < y.items.len() implies lt(y.items[i].0, y.items[j].0) by {
        assert(y.items[i] == all[x.items.len() + i] && y.items[j] == all[x.items.len() + j]);
    }
    lemma_ord_two(a, sep, b, lo, hi);
}

/// A leaf that splits: it keeps its slot, and a new leaf takes the upper pairs.
pub proof fn lemma_leaf_split<K: Key, V, const M: usize>(
    s: Store<K, V, M>,
    n: Addr,
    r: Addr,
    x: Leaf<K, V, M>,
    y: Leaf<K, V, M>,
    lo: Option<K>,
    hi: Option<K>,
)
    requires
        ordered::<K>(),
        held(s, n, 0),
        !s.leaves.dom().contains(r),
        x.wf(),
        y.wf(),
        x@.items.len() > 0,
        y@.items.len() > 0,
        sorted(x@.items + y@.items),
        within(x@.items + y@.items, lo, hi),
        x@.next == Some(r),
        y@.next == s.leaves[n]@.next,
    ensures
        ({
            let u = Store { leaves: s.leaves.insert(r, y).insert(n, x), ..s };
            let a = Tree::Leaf { at: n, leaf: x@ };
            let b = Tree::Leaf { at: r, leaf: y@ };
            &&& swapped(s, u, seq![abs(s, n, 0)], seq![y@.items[0].0], seq![n, r], 0, lo, hi)
            &&& forest(u, seq![n, r], 0) == seq![a, b]
            &&& pairs_of(seq![a, b]) == x@.items + y@.items
        }),
{
    let u = Store { leaves: s.leaves.insert(r, y).insert(n, x), ..s };
    let old = abs(s, n, 0);
    let two = seq![Tree::Leaf { at: n, leaf: x@ }, Tree::Leaf { at: r, leaf: y@ }];
    lemma_two_leaves(n, r, x@, y@, lo, hi);
    lemma_one(old);
    lemma_leaf_pairs(old);
    assert(abs(u, n, 0) == two[0] && abs(u, r, 0) == two[1]);
    assert(forest(u, seq![n, r], 0) =~= two);
    assert(replaced(s, u, seq![old], two)) by {
        reveal(moved);
    }
}

/// Two neighbouring leaves that shift pairs between them.
pub proof fn lemma_leaf_pair<K: Key, V, const M: usize>(
    s: Store<K, V, M>,
    n: Addr,
    r: Addr,
    x: Leaf<K, V, M>,
    y: Leaf<K, V, M>,
    lo: Option<K>,
    hi: Option<K>,
)
    requires
        ordered::<K>(),
        held(s, n, 0),
        held(s, r, 0),
        n != r,
        x.wf(),
        y.wf(),
        x@.items.len() > 0,
        y@.items.len() > 0,
        sorted(x@.items + y@.items),
        within(x@.items + y@.items, lo, hi),
        s.leaves[n]@.next == Some(r),
        x@.next == s.leaves[n]@.next,
        y@.next == s.leaves[r]@.next,
        x@.items + y@.items == s.leaves[n]@.items + s.leaves[r]@.items,
    ensures
        ({
            let u = Store { leaves: s.leaves.insert(n, x).insert(r, y), ..s };
            let olds = forest(s, seq![n, r], 0);
            let news = seq![Tree::Leaf { at: n, leaf: x@ }, Tree::Leaf { at: r, leaf: y@ }];
            &&& swapped(s, u, olds, seq![y@.items[0].0], seq![n, r], 0, lo, hi)
            &&& forest(u, seq![n, r], 0) == news
            &&& pairs_of(news) == pairs_of(olds)
        }),
{
    let u = Store { leaves: s.leaves.insert(n, x).insert(r, y), ..s };
    let x0 = s.leaves[n]@;
    let y0 = s.leaves[r]@;
    let olds = seq![Tree::Leaf { at: n, leaf: x0 }, Tree::Leaf { at: r, leaf: y0 }];
    let news = seq![Tree::Leaf { at: n, leaf: x@ }, Tree::Leaf { at: r, leaf: y@ }];
    lemma_two_leaves(n, r, x@, y@, lo, hi);
    lemma_leaf_row(n, r, x0, y0);
    assert(abs(s, n, 0) == olds[0] && abs(s, r, 0) == olds[1]);
    assert(forest(s, seq![n, r], 0) =~= olds);
    assert(abs(u, n, 0) == news[0] && abs(u, r, 0) == news[1]);
    assert(forest(u, seq![n, r], 0) =~= news);
    assert(replaced(s, u, olds, news)) by {
        reveal(moved);
    }
}

/// The contents of a row of two leaves.
pub proof fn lemma_leaf_row<K, V>(n: Addr, r: Addr, x: LeafView<K, V>, y: LeafView<K, V>)
    ensures
        ({
            let two = seq![Tree::Leaf { at: n, leaf: x }, Tree::Leaf { at: r, leaf: y }];
            &&& leaves_of(two) == seq![Link { at: n, leaf: x }, Link { at: r, leaf: y }]
            &&& pairs_of(two) == x.items + y.items
            &&& forall|z: Addr| #[trigger] any_leaf(two, z) == (z == n || z == r)
            &&& forall|z: Addr| !#[trigger] any_inner(two, z)
            &&& chained(leaves_of(two)) ==> x.next == Some(r)
            &&& all_distinct(two) ==> n != r
        }),
{
    reveal(chained);
    reveal(apart);
    let a = Tree::Leaf { at: n, leaf: x };
    let b = Tree::Leaf { at: r, leaf: y };
    let two = seq![a, b];
    lemma_one(a);
    lemma_one(b);
    lemma_leaf_pairs(a);
    lemma_leaf_pairs(b);
    assert(seq![a] + seq![b] =~= two);
    lemma_any_concat(seq![a], seq![b]);
    lemma_leaves_concat(seq![a], seq![b]);
    lemma_pairs_concat(seq![a], seq![b]);
    let ls = leaves_of(two);
    assert(ls =~= seq![Link { at: n, leaf: x }, Link { at: r, leaf: y }]);
    if chained(ls) {
        assert(ls[0].leaf.next == Some(ls[1].at));
    }
    if all_distinct(two) {
        assert(apart(two[0], two[1]));
        assert(has_leaf(two[0], n));
        assert(has_leaf(two[1], r));
    }
}

/// A leaf that takes over the pairs of its right neighbour, which goes.
pub proof fn lemma_leaf_merged<K: Key, V, const M: usize>(
    s: Store<K, V, M>,
    n: Addr,
    r: Addr,
    x: Leaf<K, V, M>,
    lo: Option<K>,
    hi: Option<K>,
)
    requires
        ordered::<K>(),
        held(s, n, 0),
        held(s, r, 0),
        n != r,
        x.wf(),
        within(x@.items, lo, hi),
        x@.next == s.leaves[r]@.next,
        x@.items == s.leaves[n]@.items + s.leaves[r]@.items,
    ensures
        ({
            let u = Store { leaves: s.leaves.remove(r).insert(n, x), ..s };
            let olds = forest(s, seq![n, r], 0);
            let new = Tree::Leaf { at: n, leaf: x@ };
            &&& swapped(s, u, olds, Seq::<K>::empty(), seq![n], 0, lo, hi)
            &&& forest(u, seq![n], 0) == seq![new]
            &&& pairs_of(seq![new]) == pairs_of(olds)
        }),
{
    let u = Store { leaves: s.leaves.remove(r).insert(n, x), ..s };
    let x0 = s.leaves[n]@;
    let y0 = s.leaves[r]@;
    let olds = seq![Tree::Leaf { at: n, leaf: x0 }, Tree::Leaf { at: r, leaf: y0 }];
    let new = Tree::Leaf { at: n, leaf: x@ };
    lemma_leaf_row(n, r, x0, y0);
    lemma_one(new);
    lemma_leaf_pairs(new);
    assert(abs(s, n, 0) == olds[0] && abs(s, r, 0) == olds[1]);
    assert(forest(s, seq![n, r], 0) =~= olds);
    assert(abs(u, n, 0) == new);
    assert(forest(u, seq![n], 0) =~= seq![new]);
    assert(ord_row(Seq::<K>::empty(), seq![new], lo, hi));
    assert(chained(leaves_of(seq![new]))) by {
        reveal(chained);
    }
    assert(replaced(s, u, olds, seq![new])) by {
        reveal(moved);
    }
}

/// The grandchildren under two neighbouring inner nodes of any sizes, as one row.
pub proof fn lemma_gather_any<K: Key, V, const M: usize>(
    s: Store<K, V, M>,
    n: Addr,
    r: Addr,
    h: nat,
    sep: K,
    lo: Option<K>,
    hi: Option<K>,
)
    requires
        ordered::<K>(),
        held(s, n, h + 1),
        held(s, r, h + 1),
        ord_row(seq![sep], forest(s, seq![n, r], h + 1), lo, hi),
        all_distinct(forest(s, seq![n, r], h + 1)),
    ensures
        ({
            let x = s.inners[n]@;
            let y = s.inners[r]@;
            let row = forest(s, x.kids + y.kids, h);
            let olds = forest(s, seq![n, r], h + 1);
            &&& all_held(s, x.kids + y.kids, h)
            &&& ord_row(x.keys.push(sep) + y.keys, row, lo, hi)
            &&& all_distinct(row)
            &&& x.kids.len() == x.keys.len() + 1
            &&& y.kids.len() == y.keys.len() + 1
            &&& !any_inner(row, n)
            &&& !any_inner(row, r)
            &&& n != r
            &&& leaves_of(olds) == leaves_of(row)
            &&& pairs_of(olds) == pairs_of(row)
            &&& forall|z: Addr| #[trigger] any_leaf(olds, z) == any_leaf(row, z)
            &&& forall|z: Addr| #[trigger]
                any_inner(olds, z) == (any_inner(row, z) || z == n || z == r)
            &&& row == forest(s, x.kids, h) + forest(s, y.kids, h)
        }),
{
    let x = s.inners[n]@;
    let y = s.inners[r]@;
    let ks = x.kids + y.kids;
    let row = forest(s, ks, h);
    let cut = x.kids.len() as int;
    let olds = forest(s, seq![n, r], h + 1);
    let ta = abs(s, n, h + 1);
    let tb = abs(s, r, h + 1);
    assert(ta == (Tree::Inner { at: n, keys: x.keys, kids: forest(s, x.kids, h) }));
    assert(tb == (Tree::Inner { at: r, keys: y.keys, kids: forest(s, y.kids, h) }));
    assert(olds =~= seq![ta, tb]);
    assert(row.take(cut) =~= forest(s, x.kids, h));
    assert(row.skip(cut) =~= forest(s, y.kids, h));
    assert forall|i: int| 0 <= i < ks.len() implies held(s, #[trigger] ks[i], h) by {
        if i < cut {
            assert(ks[i] == x.kids[i]);
        } else {
            assert(ks[i] == y.kids[i - cut]);
        }
    }
    lemma_two(row, cut, n, r, x.keys, y.keys);
    assert(olds[0] == ta && olds[1] == tb);
    assert(low(seq![sep], 0, lo) == lo && high(seq![sep], 0, hi) == Some(sep));
    assert(low(seq![sep], 1, lo) == Some(sep) && high(seq![sep], 1, hi) == hi);
    assert(seq![sep][0] == sep);
    assert(ord_row(x.keys, row.take(cut), lo, Some(sep)));
    assert(ord_row(y.keys, row.skip(cut), Some(sep), hi));
    lemma_ord_join(x.keys, row.take(cut), sep, y.keys, row.skip(cut), lo, hi);
    assert(row.take(cut) + row.skip(cut) =~= row);
}

/// The grandchildren under two neighbouring inner nodes, as one row.
pub proof fn lemma_gather<K: Key, V, const M: usize>(
    s: Store<K, V, M>,
    n: Addr,
    r: Addr,
    h: nat,
    sep: K,
    lo: Option<K>,
    hi: Option<K>,
)
    requires
        ordered::<K>(),
        held(s, n, h + 1),
        held(s, r, h + 1),
        shape(abs(s, n, h + 1), h + 1, M),
        shape(abs(s, r, h + 1), h + 1, M),
        ord_row(seq![sep], forest(s, seq![n, r], h + 1), lo, hi),
        all_distinct(forest(s, seq![n, r], h + 1)),
        chained(leaves_of(forest(s, seq![n, r], h + 1))),
    ensures
        ({
            let x = s.inners[n]@;
            let y = s.inners[r]@;
            let row = forest(s, x.kids + y.kids, h);
            let olds = forest(s, seq![n, r], h + 1);
            &&& all_held(s, x.kids + y.kids, h)
            &&& sound_row(x.keys.push(sep) + y.keys, row, h, M, lo, hi)
            &&& x.kids.len() == x.keys.len() + 1
            &&& y.kids.len() == y.keys.len() + 1
            &&& 1 <= x.kids.len() <= M
            &&& 1 <= y.kids.len() <= M
            &&& !any_inner(row, n)
            &&& !any_inner(row, r)
            &&& n != r
            &&& leaves_of(olds) == leaves_of(row)
            &&& pairs_of(olds) == pairs_of(row)
            &&& forall|z: Addr| #[trigger] any_leaf(olds, z) == any_leaf(row, z)
            &&& forall|z: Addr| #[trigger]
                any_inner(olds, z) == (any_inner(row, z) || z == n || z == r)
            &&& leaves_of(row).len() > 0
        }),
{
    let x = s.inners[n]@;
    let y = s.inners[r]@;
    let row = forest(s, x.kids + y.kids, h);
    let cut = x.kids.len() as int;
    let ta = abs(s, n, h + 1);
    let tb = abs(s, r, h + 1);
    lemma_gather_any(s, n, r, h, sep, lo, hi);
    assert(ta == (Tree::Inner { at: n, keys: x.keys, kids: forest(s, x.kids, h) }));
    assert(tb == (Tree::Inner { at: r, keys: y.keys, kids: forest(s, y.kids, h) }));
    assert forall|i: int| 0 <= i < row.len() implies shape(#[trigger] row[i], h, M) && filled(
        row[i],
        M,
    ) by {
        if i < cut {
            assert(row[i] == ta->kids[i]);
        } else {
            assert(row[i] == tb->kids[i - cut]);
        }
    }
    lemma_row_leaves_some(row, h, M);
}

/// Two neighbouring inner nodes of any sizes that shift children between them.
pub proof fn lemma_inner_pair_any<K: Key, V, const M: usize>(
    s: Store<K, V, M>,
    n: Addr,
    r: Addr,
    h: nat,
    sep: K,
    x: Inner<K, V, M>,
    sep2: K,
    y: Inner<K, V, M>,
    lo: Option<K>,
    hi: Option<K>,
)
    requires
        ordered::<K>(),
        held(s, n, h + 1),
        held(s, r, h + 1),
        ord_row(seq![sep], forest(s, seq![n, r], h + 1), lo, hi),
        all_distinct(forest(s, seq![n, r], h + 1)),
        x@.kids + y@.kids == s.inners[n]@.kids + s.inners[r]@.kids,
        x@.keys.push(sep2) + y@.keys == s.inners[n]@.keys.push(sep) + s.inners[r]@.keys,
        1 <= x@.kids.len(),
        1 <= y@.kids.len(),
        x@.kids.len() == x@.keys.len() + 1,
        y@.kids.len() == y@.keys.len() + 1,
    ensures
        ({
            let u = Store { inners: s.inners.insert(n, x).insert(r, y), ..s };
            let olds = forest(s, seq![n, r], h + 1);
            let news = forest(u, seq![n, r], h + 1);
            let all = olds[0]->kids + olds[1]->kids;
            let cut = x@.kids.len() as int;
            &&& all_held(u, seq![n, r], h + 1)
            &&& olds == seq![abs(s, n, h + 1), abs(s, r, h + 1)]
            &&& news == seq![abs(u, n, h + 1), abs(u, r, h + 1)]
            &&& abs(u, n, h + 1) == (Tree::Inner { at: n, keys: x@.keys, kids: all.take(cut) })
            &&& abs(u, r, h + 1) == (Tree::Inner { at: r, keys: y@.keys, kids: all.skip(cut) })
            &&& 0 <= cut <= all.len()
            &&& ord_row(seq![sep2], news, lo, hi)
            &&& all_distinct(news)
            &&& leaves_of(news) == leaves_of(olds)
            &&& pairs_of(news) == pairs_of(olds)
            &&& replaced(s, u, olds, news)
        }),
{
    lemma_gather_any(s, n, r, h, sep, lo, hi);
    let u = Store { inners: s.inners.insert(n, x).insert(r, y), ..s };
    let ks = x@.keys.push(sep2) + y@.keys;
    let ns = x@.kids + y@.kids;
    let row = forest(s, ns, h);
    let cut = x@.kids.len() as int;
    let olds = forest(s, seq![n, r], h + 1);
    let a = Tree::Inner { at: n, keys: x@.keys, kids: row.take(cut) };
    let b = Tree::Inner { at: r, keys: y@.keys, kids: row.skip(cut) };
    let two = seq![a, b];
    assert(olds =~= seq![abs(s, n, h + 1), abs(s, r, h + 1)]);
    assert(olds[0]->kids + olds[1]->kids =~= row);
    lemma_all_held_dom(s, ns, h);
    lemma_row_kept(s, u, ns, h);
    lemma_held_part(u, ns, h, 0, cut);
    lemma_held_part(u, ns, h, cut, ns.len() as int);
    assert(ns.subrange(0, cut) =~= x@.kids);
    assert(ns.subrange(cut, ns.len() as int) =~= y@.kids);
    assert(row.subrange(0, cut) =~= row.take(cut));
    assert(row.subrange(cut, row.len() as int) =~= row.skip(cut));
    lemma_two(row, cut, n, r, x@.keys, y@.keys);
    assert(abs(u, n, h + 1) == a && abs(u, r, h + 1) == b);
    assert(forest(u, seq![n, r], h + 1) =~= two);
    lemma_ord_slice(ks, row, lo, hi, 0, cut);
    lemma_ord_slice(ks, row, lo, hi, cut, row.len() as int);
    assert(ks.subrange(0, cut - 1) =~= x@.keys);
    assert(ks.subrange(cut, row.len() - 1) =~= y@.keys);
    assert(ks[cut - 1] == sep2);
    lemma_ord_two(a, sep2, b, lo, hi);
    assert(replaced(s, u, olds, two)) by {
        reveal(moved);
    }
    assert(seq![n, r][0] == n && seq![n, r][1] == r);
    assert(all_held(u, seq![n, r], h + 1));
}

/// Two neighbouring inner nodes that shift children between them.
pub proof fn lemma_inner_pair<K: Key, V, const M: usize>(
    s: Store<K, V, M>,
    n: Addr,
    r: Addr,
    h: nat,
    sep: K,
    x: Inner<K, V, M>,
    sep2: K,
    y: Inner<K, V, M>,
    lo: Option<K>,
    hi: Option<K>,
)
    requires
        ordered::<K>(),
        held(s, n, h + 1),
        held(s, r, h + 1),
        shape(abs(s, n, h + 1), h + 1, M),
        shape(abs(s, r, h + 1), h + 1, M),
        ord_row(seq![sep], forest(s, seq![n, r], h + 1), lo, hi),
        all_distinct(forest(s, seq![n, r], h + 1)),
        chained(leaves_of(forest(s, seq![n, r], h + 1))),
        x@.kids + y@.kids == s.inners[n]@.kids + s.inners[r]@.kids,
        x@.keys.push(sep2) + y@.keys == s.inners[n]@.keys.push(sep) + s.inners[r]@.keys,
        1 <= x@.kids.len() <= M,
        1 <= y@.kids.len() <= M,
        x@.kids.len() == x@.keys.len() + 1,
        y@.kids.len() == y@.keys.len() + 1,
    ensures
        ({
            let u = Store { inners: s.inners.insert(n, x).insert(r, y), ..s };
            let olds = forest(s, seq![n, r], h + 1);
            let news = forest(u, seq![n, r], h + 1);
            &&& swapped(s, u, olds, seq![sep2], seq![n, r], h + 1, lo, hi)
            &&& size(news[0]) == x@.kids.len()
            &&& size(news[1]) == y@.kids.len()
            &&& news[0]->kids + news[1]->kids == olds[0]->kids + olds[1]->kids
            &&& leaves_of(news) == leaves_of(olds)
            &&& pairs_of(news) == pairs_of(olds)
        }),
{
    lemma_gather(s, n, r, h, sep, lo, hi);
    lemma_inner_pair_any(s, n, r, h, sep, x, sep2, y, lo, hi);
    let u = Store { inners: s.inners.insert(n, x).insert(r, y), ..s };
    let olds = forest(s, seq![n, r], h + 1);
    let row = forest(s, s.inners[n]@.kids + s.inners[r]@.kids, h);
    let all = olds[0]->kids + olds[1]->kids;
    let cut = x@.kids.len() as int;
    let a = abs(u, n, h + 1);
    let b = abs(u, r, h + 1);
    assert(all =~= row);
    assert(shape(a, h + 1, M)) by {
        assert(forall|i: int| 0 <= i < cut ==> all.take(cut)[i] == row[i]);
    }
    assert(shape(b, h + 1, M)) by {
        assert(forall|i: int| 0 <= i < row.len() - cut ==> all.skip(cut)[i] == row[cut + i]);
    }
    assert(a->kids + b->kids =~= all);
}

/// An inner node that takes over the children of its right neighbour, which goes.
pub proof fn lemma_inner_merged<K: Key, V, const M: usize>(
    s: Store<K, V, M>,
    n: Addr,
    r: Addr,
    h: nat,
    sep: K,
    x: Inner<K, V, M>,
    lo: Option<K>,
    hi: Option<K>,
)
    requires
        ordered::<K>(),
        held(s, n, h + 1),
        held(s, r, h + 1),
        ord_row(seq![sep], forest(s, seq![n, r], h + 1), lo, hi),
        all_distinct(forest(s, seq![n, r], h + 1)),
        chained(leaves_of(forest(s, seq![n, r], h + 1))),
        x@.kids == s.inners[n]@.kids + s.inners[r]@.kids,
        x@.keys == s.inners[n]@.keys.push(sep) + s.inners[r]@.keys,
        x@.kids.len() <= M,
    ensures
        ({
            let u = Store { inners: s.inners.remove(r).insert(n, x), ..s };
            let olds = forest(s, seq![n, r], h + 1);
            let news = forest(u, seq![n], h + 1);
            &&& exchanged(s, u, olds, Seq::<K>::empty(), seq![n], h + 1, lo, hi)
            &&& news == seq![
                Tree::Inner { at: n, keys: x@.keys, kids: olds[0]->kids + olds[1]->kids },
            ]
            &&& size(news[0]) == x@.kids.len()
            &&& pairs_of(news) == pairs_of(olds)
            &&& shape(olds[0], h + 1, M) && shape(olds[1], h + 1, M) ==> shape(news[0], h + 1, M)
        }),
{
    lemma_gather_any(s, n, r, h, sep, lo, hi);
    let u = Store { inners: s.inners.remove(r).insert(n, x), ..s };
    let row = forest(s, x@.kids, h);
    let olds = forest(s, seq![n, r], h + 1);
    let new = Tree::Inner { at: n, keys: x@.keys, kids: row };
    lemma_all_held_dom(s, x@.kids, h);
    lemma_row_kept(s, u, x@.kids, h);
    lemma_one(new);
    assert(abs(u, n, h + 1) == new);
    assert(olds[0] == abs(s, n, h + 1) && olds[1] == abs(s, r, h + 1)) by {
        assert(seq![n, r][0] == n && seq![n, r][1] == r);
    }
    assert(row =~= olds[0]->kids + olds[1]->kids);
    assert(forest(u, seq![n], h + 1) =~= seq![new]);
    lemma_ord_one(new, lo, hi);
    assert(distinct(new));
    lemma_ord_leaves_some(new, lo, hi);
    if shape(olds[0], h + 1, M) && shape(olds[1], h + 1, M) {
        let cut = olds[0]->kids.len() as int;
        assert forall|i: int| 0 <= i < row.len() implies shape(#[trigger] row[i], h, M) && filled(
            row[i],
            M,
        ) by {
            if i < cut {
                assert(row[i] == olds[0]->kids[i]);
            } else {
                assert(row[i] == olds[1]->kids[i - cut]);
            }
        }
    }
    assert(replaced(s, u, olds, seq![new])) by {
        reveal(moved);
    }
}

/// A search tree has at least one leaf.
pub proof fn lemma_ord_leaves_some<K: Key, V>(t: Tree<K, V>, lo: Option<K>, hi: Option<K>)
    requires
        ord(t, lo, hi),
    ensures
        leaves(t).len() > 0,
    decreases t,
{
    reveal(leaves_of);
    if let Tree::Inner { at, keys, kids } = t {
        let i = kids.len() - 1;
        assert(ord(kids[i], low(keys, i, lo), high(keys, i, hi)));
        lemma_ord_leaves_some(kids.last(), low(keys, i, lo), high(keys, i, hi));
    }
}

/// A sound row of children below the node at `n`, taken together, is a sound tree.
pub proof fn lemma_put_back<K: Key, V, const M: usize>(
    s: Store<K, V, M>,
    t: Store<K, V, M>,
    n: Addr,
    h: nat,
    x: Inner<K, V, M>,
    lo: Option<K>,
    hi: Option<K>,
)
    requires
        ordered::<K>(),
        held(s, n, h + 1),
        distinct(abs(s, n, h + 1)),
        !s.raw_inners.contains(n),
        !t.inners.dom().contains(n),
        all_held(t, x@.kids, h),
        1 <= x@.kids.len() <= M,
        sound_row(x@.keys, forest(t, x@.kids, h), h, M, lo, hi),
        same_ends(leaves_of(forest(s, s.inners[n]@.kids, h)), leaves_of(forest(t, x@.kids, h))),
        replaced(without(s, n), t, forest(s, s.inners[n]@.kids, h), forest(t, x@.kids, h)),
    ensures
        ({
            let u = with(t, n, x);
            let news = forest(t, x@.kids, h);
            let new = Tree::Inner { at: n, keys: x@.keys, kids: news };
            &&& swapped(s, u, seq![abs(s, n, h + 1)], Seq::<K>::empty(), seq![n], h + 1, lo, hi)
            &&& abs(u, n, h + 1) == new
            &&& forest(u, seq![n], h + 1) == seq![new]
            &&& pairs_of(seq![new]) == pairs_of(news)
        }),
{
    let u = with(t, n, x);
    let old = abs(s, n, h + 1);
    let kids = forest(s, s.inners[n]@.kids, h);
    let news = forest(t, x@.kids, h);
    let new = Tree::Inner { at: n, keys: x@.keys, kids: news };
    lemma_unwrap(s, n, h + 1);
    lemma_rewrap(s, t, n, h, s.inners[n]@.keys, kids, x);
    lemma_one(old);
    lemma_one(new);
    assert(forest(u, seq![n], h + 1) =~= seq![new]);
    lemma_ord_one(new, lo, hi);
    assert(distinct(new));
    assert(shape(new, h + 1, M));
}

/// A sound row of children, too long for one node, divided between the node at `n` and a new
/// right sibling at `r`.
pub proof fn lemma_put_back_two<K: Key, V, const M: usize>(
    s: Store<K, V, M>,
    t: Store<K, V, M>,
    n: Addr,
    r: Addr,
    h: nat,
    x: Inner<K, V, M>,
    sep: K,
    y: Inner<K, V, M>,
    lo: Option<K>,
    hi: Option<K>,
)
    requires
        ordered::<K>(),
        held(s, n, h + 1),
        distinct(abs(s, n, h + 1)),
        !s.raw_inners.contains(n),
        !t.inners.dom().contains(n),
        !t.inners.dom().contains(r),
        r != n,
        all_held(t, x@.kids + y@.kids, h),
        1 <= x@.kids.len() <= M,
        1 <= y@.kids.len() <= M,
        x@.kids.len() == x@.keys.len() + 1,
        y@.kids.len() == y@.keys.len() + 1,
        sound_row(
            x@.keys.push(sep) + y@.keys,
            forest(t, x@.kids + y@.kids, h),
            h,
            M,
            lo,
            hi,
        ),
        same_ends(
            leaves_of(forest(s, s.inners[n]@.kids, h)),
            leaves_of(forest(t, x@.kids + y@.kids, h)),
        ),
        replaced(
            without(s, n),
            t,
            forest(s, s.inners[n]@.kids, h),
            forest(t, x@.kids + y@.kids, h),
        ),
    ensures
        ({
            let u = with(Store { inners: t.inners.insert(r, y), ..t }, n, x);
            let news = forest(t, x@.kids + y@.kids, h);
            let pair = forest(u, seq![n, r], h + 1);
            &&& swapped(s, u, seq![abs(s, n, h + 1)], seq![sep], seq![n, r], h + 1, lo, hi)
            &&& size(pair[0]) == x@.kids.len()
            &&& size(pair[1]) == y@.kids.len()
            &&& pairs_of(pair) == pairs_of(news)
        }),
{
    let u = with(Store { inners: t.inners.insert(r, y), ..t }, n, x);
    let old = abs(s, n, h + 1);
    let kids = forest(s, s.inners[n]@.kids, h);
    let row = forest(t, x@.kids + y@.kids, h);
    let cut = x@.kids.len() as int;
    let a = Tree::Inner { at: n, keys: x@.keys, kids: row.take(cut) };
    let b = Tree::Inner { at: r, keys: y@.keys, kids: row.skip(cut) };
    let ks = x@.keys.push(sep) + y@.keys;
    let two = seq![a, b];
    lemma_unwrap(s, n, h + 1);
    lemma_rewrap_two(s, t, n, r, h, s.inners[n]@.keys, kids, x, y);
    lemma_one(old);
    assert(forest(u, seq![n, r], h + 1) =~= two);
    lemma_ord_slice(ks, row, lo, hi, 0, cut);
    lemma_ord_slice(ks, row, lo, hi, cut, row.len() as int);
    assert(ks.subrange(0, cut - 1) =~= x@.keys);
    assert(row.subrange(0, cut) =~= row.take(cut));
    assert(ks.subrange(cut, row.len() - 1) =~= y@.keys);
    assert(row.subrange(cut, row.len() as int) =~= row.skip(cut));
    assert(ks[cut - 1] == sep);
    lemma_ord_two(a, sep, b, lo, hi);
    assert(shape(a, h + 1, M)) by {
        assert(forall|i: int| 0 <= i < cut ==> row.take(cut)[i] == row[i]);
    }
    assert(shape(b, h + 1, M)) by {
        assert(forall|i: int| 0 <= i < row.len() - cut ==> row.skip(cut)[i] == row[cut + i]);
    }
}

/// What a parent knows after its children `i..j` were replaced by trees that may stand below it.
pub proof fn lemma_swap_sound<K: Key, V, const M: usize>(
    s: Store<K, V, M>,
    t: Store<K, V, M>,
    keys: Seq<K>,
    ns: Seq<Addr>,
    i: int,
    j: int,
    nk: Seq<K>,
    new: Seq<Addr>,
    h: nat,
    lo: Option<K>,
    hi: Option<K>,
)
    requires
        ordered::<K>(),
        0 <= i < j <= ns.len(),
        all_held(s, ns, h),
        ord_row(keys, forest(s, ns, h), lo, hi),
        all_distinct(forest(s, ns, h)),
        chained(leaves_of(forest(s, ns, h))),
        forall|l: int|
            0 <= l < ns.len() && !(i <= l < j) ==> shape(#[trigger] forest(s, ns, h)[l], h, M)
                && filled(forest(s, ns, h)[l], M),
        swapped(
            s,
            t,
            forest(s, ns, h).subrange(i, j),
            nk,
            new,
            h,
            low(keys, i, lo),
            high(keys, j - 1, hi),
        ),
        forall|l: int| 0 <= l < new.len() ==> filled(#[trigger] forest(t, new, h)[l], M),
    ensures
        ({
            let ks2 = keys.take(i) + nk + keys.skip(j - 1);
            let ns2 = ns.take(i) + new + ns.skip(j);
            let ts = forest(s, ns, h);
            let ts2 = forest(t, ns2, h);
            &&& all_held(t, ns2, h)
            &&& sound_row(ks2, ts2, h, M, lo, hi)
            &&& ts2 == ts.take(i) + forest(t, new, h) + ts.skip(j)
            &&& same_ends(leaves_of(ts), leaves_of(ts2))
            &&& replaced(s, t, ts, ts2)
            &&& pairs_of(ts) == pairs_of(ts.take(i)) + pairs_of(ts.subrange(i, j)) + pairs_of(
                ts.skip(j),
            )
            &&& pairs_of(ts2) == pairs_of(ts.take(i)) + pairs_of(forest(t, new, h)) + pairs_of(
                ts.skip(j),
            )
        }),
{
    lemma_swap(s, t, keys, ns, i, j, nk, new, h, lo, hi);
    let ns2 = ns.take(i) + new + ns.skip(j);
    let ts = forest(s, ns, h);
    let news = forest(t, new, h);
    let ts2 = forest(t, ns2, h);
    assert forall|l: int| 0 <= l < ts2.len() implies shape(#[trigger] ts2[l], h, M) && filled(
        ts2[l],
        M,
    ) by {
        if l < i {
            assert(ts2[l] == ts[l]);
        } else if l < i + new.len() {
            assert(ts2[l] == news[l - i]);
        } else {
            assert(ts2[l] == ts[l - i - new.len() + j]);
        }
    }
}

/// Two neighbouring children, on their own.
pub proof fn lemma_neighbours<K: Key, V, const M: usize>(
    s: Store<K, V, M>,
    keys: Seq<K>,
    ns: Seq<Addr>,
    i: int,
    h: nat,
    lo: Option<K>,
    hi: Option<K>,
)
    requires
        ordered::<K>(),
        0 <= i < ns.len() - 1,
        all_held(s, ns, h),
        ord_row(keys, forest(s, ns, h), lo, hi),
        all_distinct(forest(s, ns, h)),
        chained(leaves_of(forest(s, ns, h))),
    ensures
        ({
            let pair = forest(s, seq![ns[i], ns[i + 1]], h);
            &&& held(s, ns[i], h)
            &&& held(s, ns[i + 1], h)
            &&& pair == forest(s, ns, h).subrange(i, i + 2)
            &&& pair == seq![forest(s, ns, h)[i], forest(s, ns, h)[i + 1]]
            &&& ord_row(seq![keys[i]], pair, low(keys, i, lo), high(keys, i + 1, hi))
            &&& all_distinct(pair)
            &&& chained(leaves_of(pair))
            &&& ns[i] != ns[i + 1]
        }),
{
    let ts = forest(s, ns, h);
    let pair = forest(s, seq![ns[i], ns[i + 1]], h);
    assert(pair =~= ts.subrange(i, i + 2));
    assert(pair =~= seq![ts[i], ts[i + 1]]);
    lemma_ord_slice(keys, ts, lo, hi, i, i + 2);
    assert(keys.subrange(i, i + 1) =~= seq![keys[i]]);
    lemma_cut(ts, i, i + 2);
    lemma_chained_part(
        leaves_of(ts.take(i)),
        leaves_of(ts.subrange(i, i + 2)),
        leaves_of(ts.skip(i + 2)),
    );
    assert(forall|l: int| 0 <= l < 2 ==> pair[l] == ts[i + l]);
    assert(apart(ts[i], ts[i + 1]));
    if ns[i] == ns[i + 1] {
        reveal(apart);
        if h == 0 {
            assert(has_leaf(ts[i], ns[i]));
        } else {
            assert(has_inner(ts[i], ns[i]));
        }
    }
}

/// One replacement after another.
pub proof fn lemma_replaced_trans<K: Key, V, const M: usize>(
    s: Store<K, V, M>,
    t: Store<K, V, M>,
    u: Store<K, V, M>,
    a: Seq<Tree<K, V>>,
    b: Seq<Tree<K, V>>,
    c: Seq<Tree<K, V>>,
)
    requires
        replaced(s, t, a, b),
        replaced(t, u, b, c),
    ensures
        replaced(s, u, a, c),
{
    reveal(moved);
}

} // verus!
