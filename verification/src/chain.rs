//! Lemmas on the leaf chain: its leaves in the store, and what follows when one of them changes
//! its values.
use crate::allocator::{Addr, Store};
use crate::entries::sorted;
use crate::key::{lt, ordered, Key};
use crate::leaf::{Leaf, LeafView};
use crate::lemmas::{
    lemma_abs_kept, lemma_cut, lemma_leaf_changed, lemma_leaf_pairs, lemma_leaves_concat, lemma_one,
    lemma_ord_one, lemma_swap_sound,
};
use crate::model::{
    abs, all_distinct, all_held, any_inner, any_leaf, apart, distinct, forest, from, group_unfold,
    has_inner, has_leaf, held, high, leaves, leaves_of, low, moved, ord, ord_row, replaced, shape,
    shape_row, size, sound, swapped, under, within, Link, Tree,
};
use crate::node::lemma_child;
use vstd::prelude::*;

verus! {

broadcast use group_unfold;

/// The store holds these leaves.
pub open spec fn in_store<K: Key, V, const M: usize>(
    s: Store<K, V, M>,
    ls: Seq<Link<K, V>>,
) -> bool {
    forall|i: int|
        0 <= i < ls.len() ==> {
            &&& s.leaves.dom().contains((#[trigger] ls[i]).at)
            &&& s.leaves[ls[i].at]@ == ls[i].leaf
            &&& s.leaves[ls[i].at].wf()
        }
}

/// No two of these leaves are at one address.
pub open spec fn no_repeats<K, V>(ls: Seq<Link<K, V>>) -> bool {
    forall|i: int, j: int|
        #![trigger ls[i], ls[j]]
        0 <= i < j < ls.len() ==> ls[i].at != ls[j].at
}

/// The leaves of a sound tree are in the store.
pub proof fn lemma_leaves_in_store<K: Key, V, const M: usize>(
    s: Store<K, V, M>,
    n: Addr,
    h: nat,
    lo: Option<K>,
    hi: Option<K>,
)
    requires
        held(s, n, h),
        shape(abs(s, n, h), h, M),
        ord(abs(s, n, h), lo, hi),
    ensures
        in_store(s, leaves(abs(s, n, h))),
    decreases h, 0nat,
{
    if h > 0 {
        let g = (h - 1) as nat;
        let ns = s.inners[n]@.kids;
        lemma_row_in_store(s, s.inners[n]@.keys, ns, ns.len() as int, g, lo, hi);
        assert(forest(s, ns, g).take(ns.len() as int) =~= forest(s, ns, g));
    } else {
        lemma_leaf_pairs(abs(s, n, h));
    }
}

/// The leaves below a row of sound trees are in the store.
proof fn lemma_row_in_store<K: Key, V, const M: usize>(
    s: Store<K, V, M>,
    keys: Seq<K>,
    ns: Seq<Addr>,
    i: int,
    h: nat,
    lo: Option<K>,
    hi: Option<K>,
)
    requires
        all_held(s, ns, h),
        shape_row(forest(s, ns, h), h, M),
        ord_row(keys, forest(s, ns, h), lo, hi),
        0 <= i <= ns.len(),
    ensures
        in_store(s, leaves_of(forest(s, ns, h).take(i))),
    decreases h, i + 1,
{
    let ts = forest(s, ns, h);
    if i == 0 {
        reveal(leaves_of);
        assert(ts.take(i) =~= Seq::<Tree<K, V>>::empty());
    } else {
        lemma_row_in_store(s, keys, ns, i - 1, h, lo, hi);
        let t = ts[i - 1];
        assert(t == abs(s, ns[i - 1], h));
        lemma_leaves_in_store(s, ns[i - 1], h, low(keys, i - 1, lo), high(keys, i - 1, hi));
        assert(ts.take(i) =~= ts.take(i - 1) + seq![t]);
        lemma_leaves_concat(ts.take(i - 1), seq![t]);
        lemma_one(t);
        let a = leaves_of(ts.take(i - 1));
        let b = leaves(t);
        assert forall|l: int| 0 <= l < (a + b).len() implies {
            &&& s.leaves.dom().contains((#[trigger] (a + b)[l]).at)
            &&& s.leaves[(a + b)[l].at]@ == (a + b)[l].leaf
            &&& s.leaves[(a + b)[l].at].wf()
        } by {
            if l < a.len() {
                assert((a + b)[l] == a[l]);
            } else {
                assert((a + b)[l] == b[l - a.len()]);
            }
        }
    }
}

/// The addresses in the leaf row are those of the tree's leaves.
pub proof fn lemma_leaf_addrs<K, V>(t: Tree<K, V>)
    ensures
        forall|i: int| 0 <= i < leaves(t).len() ==> has_leaf(t, #[trigger] leaves(t)[i].at),
        forall|a: Addr| #[trigger]
            has_leaf(t, a) ==> exists|i: int| 0 <= i < leaves(t).len() && leaves(t)[i].at == a,
        distinct(t) ==> no_repeats(leaves(t)),
    decreases t, 0nat,
{
    match t {
        Tree::Leaf { at, leaf } => {
            lemma_leaf_pairs(t);
            assert(leaves(t)[0].at == at);
        },
        Tree::Inner { at, keys, kids } => {
            lemma_row_addrs(kids);
        },
    }
}

/// The addresses in the leaf row are those of the trees' leaves.
pub proof fn lemma_row_addrs<K, V>(ts: Seq<Tree<K, V>>)
    ensures
        forall|i: int| 0 <= i < leaves_of(ts).len() ==> any_leaf(ts, #[trigger] leaves_of(ts)[i].at),
        forall|a: Addr| #[trigger]
            any_leaf(ts, a) ==> exists|i: int|
                0 <= i < leaves_of(ts).len() && leaves_of(ts)[i].at == a,
        all_distinct(ts) ==> no_repeats(leaves_of(ts)),
    decreases ts, 1nat,
{
    reveal(any_leaf);
    if ts.len() == 0 {
        reveal(leaves_of);
    } else {
        let a = ts.drop_last();
        let t = ts.last();
        lemma_row_addrs(a);
        lemma_leaf_addrs(t);
        assert(ts =~= a + seq![t]);
        lemma_leaves_concat(a, seq![t]);
        lemma_one(t);
        let la = leaves_of(a);
        let lb = leaves(t);
        let ls = leaves_of(ts);
        assert(ls == la + lb);
        assert forall|i: int| 0 <= i < ls.len() implies any_leaf(ts, #[trigger] ls[i].at) by {
            if i < la.len() {
                assert(ls[i] == la[i]);
                let j = choose|j: int| 0 <= j < a.len() && has_leaf(#[trigger] a[j], la[i].at);
                assert(ts[j] == a[j]);
            } else {
                assert(ls[i] == lb[i - la.len()]);
                assert(has_leaf(ts[ts.len() - 1], ls[i].at));
            }
        }
        assert forall|x: Addr| #[trigger] any_leaf(ts, x) implies exists|i: int|
            0 <= i < ls.len() && ls[i].at == x by {
            let j = choose|j: int| 0 <= j < ts.len() && has_leaf(#[trigger] ts[j], x);
            if j < a.len() {
                assert(has_leaf(a[j], x));
                assert(any_leaf(a, x));
                let i = choose|i: int| 0 <= i < la.len() && la[i].at == x;
                assert(ls[i].at == x);
            } else {
                assert(has_leaf(t, x));
                let i = choose|i: int| 0 <= i < lb.len() && lb[i].at == x;
                assert(ls[la.len() + i].at == x);
            }
        }
        if all_distinct(ts) {
            assert(all_distinct(a)) by {
                assert(forall|i: int| 0 <= i < a.len() ==> a[i] == ts[i]);
            }
            assert(distinct(ts[ts.len() - 1]));
            assert forall|i: int, j: int|
                #![trigger ls[i], ls[j]]
                0 <= i < j < ls.len() implies ls[i].at != ls[j].at by {
                if j < la.len() {
                    assert(ls[i] == la[i] && ls[j] == la[j]);
                } else if i >= la.len() {
                    assert(ls[i] == lb[i - la.len()] && ls[j] == lb[j - la.len()]);
                } else {
                    assert(ls[i] == la[i] && ls[j] == lb[j - la.len()]);
                    let l = choose|l: int| 0 <= l < a.len() && has_leaf(#[trigger] a[l], la[i].at);
                    assert(ts[l] == a[l]);
                    assert(apart(ts[l], ts[ts.len() - 1]));
                    reveal(apart);
                }
            }
        }
    }
}

/// The two leaves have the same keys and the same link.
pub open spec fn same_keys<K, V>(x: LeafView<K, V>, y: LeafView<K, V>) -> bool {
    &&& x.next == y.next
    &&& x.items.len() == y.items.len()
    &&& forall|i: int| 0 <= i < x.items.len() ==> (#[trigger] x.items[i]).0 == y.items[i].0
}

/// A leaf of a sound tree can change its values in place.
#[verifier::rlimit(60)]
#[verifier::spinoff_prover]
pub proof fn lemma_touch<K: Key, V, const M: usize>(
    s: Store<K, V, M>,
    n: Addr,
    h: nat,
    lo: Option<K>,
    hi: Option<K>,
    a: Addr,
    x: Leaf<K, V, M>,
) -> (j: int)
    requires
        ordered::<K>(),
        held(s, n, h),
        sound(abs(s, n, h), h, M, lo, hi),
        has_leaf(abs(s, n, h), a),
        x.paired(),
        same_keys(x@, s.leaves[a]@),
    ensures
        ({
            let u = Store { leaves: s.leaves.insert(a, x), ..s };
            let t = abs(s, n, h);
            let new = abs(u, n, h);
            &&& swapped(s, u, seq![t], Seq::<K>::empty(), seq![n], h, lo, hi)
            &&& sound(new, h, M, lo, hi)
            &&& size(new) == size(t)
            &&& 0 <= j < leaves(t).len()
            &&& leaves(t)[j].at == a
            &&& leaves(new) == leaves(t).update(j, Link { at: a, leaf: x@ })
        }),
    decreases h,
{
    let u = Store { leaves: s.leaves.insert(a, x), ..s };
    let t = abs(s, n, h);
    let new = abs(u, n, h);
    lemma_one(t);
    lemma_one(new);
    if h == 0 {
        lemma_leaf_pairs(t);
        lemma_leaf_pairs(new);
        let items = s.leaves[a]@.items;
        assert(x@.items.len() == items.len());
        assert(sorted(x@.items)) by {
            assert forall|i: int, j: int|
                #![trigger x@.items[i], x@.items[j]]
                0 <= i < j < x@.items.len() implies lt(x@.items[i].0, x@.items[j].0) by {
                assert(items[i].0 == x@.items[i].0 && items[j].0 == x@.items[j].0);
            }
        }
        assert(within(x@.items, lo, hi)) by {
            assert forall|i: int| 0 <= i < x@.items.len() implies from(lo, #[trigger] x@.items[i].0)
                && under(x@.items[i].0, hi) by {
                assert(from(lo, items[i].0));
            }
        }
        lemma_leaf_changed(s, n, x, lo, hi);
        assert(forest(u, seq![n], 0)[0] == new);
        assert(leaves(new) =~= leaves(t).update(0, Link { at: a, leaf: x@ }));
        assert(ord_row(Seq::<K>::empty(), seq![new], lo, hi));
        assert(low(Seq::<K>::empty(), 0, lo) == lo);
        0
    } else {
        let g = (h - 1) as nat;
        let keys = s.inners[n]@.keys;
        let ns = s.inners[n]@.kids;
        let ts = forest(s, ns, g);
        reveal(any_leaf);
        let i = choose|i: int| 0 <= i < ts.len() && has_leaf(#[trigger] ts[i], a);
        lemma_child(keys, ts, i, g, M, lo, hi);
        assert(ts[i] == abs(s, ns[i], g));
        let j = lemma_touch(s, ns[i], g, low(keys, i, lo), high(keys, i, hi), a, x);
        assert(held(u, ns[i], g)) by {
            assert(seq![ns[i]][0] == ns[i]);
        }
        let none = Seq::<K>::empty();
        let part = forest(u, seq![ns[i]], g);
        assert(part =~= seq![abs(u, ns[i], g)]);
        lemma_swap_sound(s, u, keys, ns, i, i + 1, none, seq![ns[i]], g, lo, hi);
        assert(keys.take(i) + none + keys.skip(i) =~= keys);
        assert(ns.take(i) + seq![ns[i]] + ns.skip(i + 1) =~= ns);
        let ts2 = forest(u, ns, g);
        assert(ts2[i] == abs(u, ns[i], g));
        lemma_cut(ts, i, i + 1);
        lemma_cut(ts2, i, i + 1);
        lemma_one(ts[i]);
        lemma_one(ts2[i]);
        assert(ts.subrange(i, i + 1) =~= seq![ts[i]]);
        assert(ts2.subrange(i, i + 1) =~= seq![ts2[i]]);
        // The other children are as they were.
        assert forall|l: int| 0 <= l < ns.len() && l != i implies #[trigger] ts2[l] == ts[l] by {
            assert(apart(ts[i], ts[l]));
            reveal(apart);
            assert(ts[l] == abs(s, ns[l], g));
            lemma_in_row(s, ns, l, g);
            lemma_abs_kept(s, u, ns[l], g);
        }
        assert(ts2.take(i) =~= ts.take(i));
        assert(ts2.skip(i + 1) =~= ts.skip(i + 1));
        let at = leaves_of(ts.take(i)).len() as int + j;
        assert(leaves(new) =~= leaves(t).update(at, Link { at: a, leaf: x@ }));
        assert(abs(u, n, h) == (Tree::Inner { at: n, keys, kids: ts2 }));
        assert(!any_inner(ts2, n)) by {
            lemma_same_inners(s, u, ts, ts2, n);
        }
        lemma_ord_one(new, lo, hi);
        assert(forest(u, seq![n], h) =~= seq![new]);
        assert(replaced(s, u, seq![t], seq![new])) by {
            reveal(moved);
        }
        assert(distinct(new));
        assert(shape(new, h, M));
        at
    }
}

/// Every node of a held child is in the store.
proof fn lemma_in_row<K: Key, V, const M: usize>(
    s: Store<K, V, M>,
    ns: Seq<Addr>,
    l: int,
    h: nat,
)
    requires
        all_held(s, ns, h),
        0 <= l < ns.len(),
    ensures
        held(s, ns[l], h),
        forall|a: Addr| #[trigger] has_leaf(abs(s, ns[l], h), a) ==> s.leaves.dom().contains(a),
        forall|a: Addr| #[trigger] has_inner(abs(s, ns[l], h), a) ==> s.inners.dom().contains(a),
{
    crate::lemmas::lemma_held_dom(s, ns[l], h);
}

/// An inner node outside the replaced trees is outside those that came in their place.
proof fn lemma_same_inners<K: Key, V, const M: usize>(
    s: Store<K, V, M>,
    u: Store<K, V, M>,
    olds: Seq<Tree<K, V>>,
    news: Seq<Tree<K, V>>,
    n: Addr,
)
    requires
        replaced(s, u, olds, news),
        s.inners.dom().contains(n),
        !any_inner(olds, n),
    ensures
        !any_inner(news, n),
{
    reveal(moved);
}

} // verus!
