//! What a tree takes of a bounded allocator: how many slots its nodes fill, and that inner slots
//! never run out first where there are as many as the leaf slots can call for.
use crate::allocator::{Addr, Store};
use crate::chain::lemma_leaf_addrs;
use crate::entries::{has_key, lemma_middle};
use crate::inner::route;
use crate::key::{ordered, Key};
use crate::leaf::{half, LeafView};
use crate::lemmas::{
    lemma_any_concat, lemma_cut, lemma_held_dom, lemma_leaf_pairs, lemma_leaves_concat, lemma_one,
    lemma_ord_pairs, lemma_routed,
};
use crate::model::{
    abs, all_distinct, any_inner, apart, distinct, filled, from, group_unfold, has_inner, has_leaf,
    held, high, inner_bill, inner_splits, items_of, leaf_splits, leaves, leaves_of, low, ord, pairs,
    pairs_of, shape, shape_row, size, splits, under, Link, Tree,
};
use crate::root::{lemma_leaves_filled, owned};
use crate::search::lemma_items_around;
use crate::sizing::{inners, inners_of, law_worst_inners, lemma_inners_concat, lemma_inners_one};
use vstd::prelude::*;
use vstd::set_lib::lemma_set_disjoint_lens;

verus! {

broadcast use group_unfold;

/// Where the inner nodes of a tree are.
spec fn inner_slots<K, V>(t: Tree<K, V>) -> Set<Addr> {
    Set::new(|a: Addr| has_inner(t, a))
}

/// Where the inner nodes of a row of trees are.
spec fn row_slots<K, V>(ts: Seq<Tree<K, V>>) -> Set<Addr> {
    Set::new(|a: Addr| any_inner(ts, a))
}

/// Every inner node fills a slot of its own.
proof fn lemma_inner_slots<K, V>(t: Tree<K, V>)
    requires
        distinct(t),
    ensures
        inner_slots(t).finite(),
        inner_slots(t).len() == inners(t),
    decreases t, 0nat,
{
    match t {
        Tree::Leaf { at, leaf } => {
            assert(inner_slots(t) =~= Set::<Addr>::empty());
        },
        Tree::Inner { at, keys, kids } => {
            lemma_row_slots(kids);
            assert(inner_slots(t) =~= row_slots(kids).insert(at));
            assert(!row_slots(kids).contains(at));
        },
    }
}

/// The same for a row of trees.
proof fn lemma_row_slots<K, V>(ts: Seq<Tree<K, V>>)
    requires
        all_distinct(ts),
    ensures
        row_slots(ts).finite(),
        row_slots(ts).len() == inners_of(ts),
    decreases ts, 1nat,
{
    if ts.len() == 0 {
        assert(row_slots(ts) =~= Set::<Addr>::empty()) by {
            reveal(any_inner);
        }
    } else {
        let front = ts.drop_last();
        let last = ts.last();
        assert(ts[ts.len() - 1] == last);
        assert(forall|i: int| 0 <= i < front.len() ==> front[i] == ts[i]);
        lemma_row_slots(front);
        lemma_inner_slots(last);
        assert(front + seq![last] =~= ts);
        lemma_any_concat(front, seq![last]);
        lemma_one(last);
        assert(row_slots(ts) =~= row_slots(front) + inner_slots(last));
        assert(row_slots(front).disjoint(inner_slots(last))) by {
            assert forall|a: Addr| !(row_slots(front).contains(a) && inner_slots(last).contains(
                a,
            )) by {
                if any_inner(front, a) {
                    reveal(any_inner);
                    reveal(apart);
                    let i = choose|i: int| 0 <= i < front.len() && has_inner(#[trigger] front[i], a);
                    assert(apart(ts[i], ts[ts.len() - 1]));
                }
            }
        }
        lemma_set_disjoint_lens(row_slots(front), inner_slots(last));
    }
}

/// A tree that owns its store fills as many slots as it has nodes.
pub proof fn lemma_slots<K: Key, V, const M: usize>(s: Store<K, V, M>, n: Addr, h: nat)
    requires
        held(s, n, h),
        distinct(abs(s, n, h)),
        owned(s, abs(s, n, h)),
    ensures
        s.leaves.dom().len() == leaves(abs(s, n, h)).len(),
        s.inners.dom().len() == inners(abs(s, n, h)),
{
    let t = abs(s, n, h);
    let ls = leaves(t);
    lemma_held_dom(s, n, h);
    lemma_inner_slots(t);
    assert(s.inners.dom() =~= inner_slots(t));
    lemma_leaf_addrs(t);
    let at = ls.map_values(|l: Link<K, V>| l.at);
    assert(at.no_duplicates()) by {
        assert forall|i: int, j: int| 0 <= i < at.len() && 0 <= j < at.len() && i != j implies at[i]
            != at[j] by {
            assert(at[i] == ls[i].at && at[j] == ls[j].at);
        }
    }
    at.unique_seq_to_set();
    assert(s.leaves.dom() =~= at.to_set()) by {
        assert forall|a: Addr| s.leaves.dom().contains(a) == at.to_set().contains(a) by {
            if s.leaves.dom().contains(a) {
                assert(has_leaf(t, a));
                let i = choose|i: int| 0 <= i < ls.len() && ls[i].at == a;
                assert(at[i] == a);
            }
            if at.contains(a) {
                let i = choose|i: int| 0 <= i < at.len() && at[i] == a;
                assert(ls[i].at == a);
                assert(has_leaf(t, ls[i].at));
            }
        }
    }
}

/// What stands in the place of a tree after a leaf below it was split, as far as shape goes: two
/// trees where the root was split, else one.
proof fn grown<K: Key, V>(t: Tree<K, V>, k: K, h: nat, m: usize) -> (r: Seq<Tree<K, V>>)
    requires
        m >= 3,
        shape(t, h, m),
        leaf_splits(t, k, m),
    ensures
        splits(t, k, m) ==> r.len() == 2 && filled(r[0], m) && filled(r[1], m),
        !splits(t, k, m) ==> r.len() == 1 && size(r[0]) >= size(t),
        forall|i: int| 0 <= i < r.len() ==> shape(#[trigger] r[i], h, m),
        leaves_of(r).len() == leaves(t).len() + 1,
        inners_of(r) == inners(t) + inner_splits(t, k, m),
    decreases t,
{
    match t {
        Tree::Leaf { at, leaf } => {
            let x = Tree::Leaf {
                at,
                leaf: LeafView { items: leaf.items.take(half(m)), next: None },
            };
            let y = Tree::Leaf { at, leaf };
            let r = seq![x] + seq![y];
            lemma_leaves_concat(seq![x], seq![y]);
            lemma_one(x);
            lemma_one(y);
            lemma_inners_concat(seq![x], seq![y]);
            lemma_inners_one(x);
            lemma_inners_one(y);
            assert(inners(x) == 0 && inners(y) == 0);
            r
        },
        Tree::Inner { at, keys, kids } => {
            let i = route(keys, k) as int;
            let g = (h - 1) as nat;
            let child = kids[i];
            assert(shape(child, g, m) && filled(child, m));
            let new = grown(child, k, g, m);
            let front = kids.take(i);
            let back = kids.skip(i + 1);
            let row = front + new + back;
            assert(front + seq![child] + back =~= kids);
            lemma_row_counts(front, seq![child], back);
            lemma_row_counts(front, new, back);
            lemma_one(child);
            lemma_inners_one(child);
            assert forall|j: int| 0 <= j < row.len() implies shape(#[trigger] row[j], g, m)
                && filled(row[j], m) by {
                if j < i {
                    assert(row[j] == kids[j]);
                } else if j < i + new.len() {
                    assert(row[j] == new[j - i]);
                } else {
                    assert(row[j] == kids[j - new.len() + 1]);
                }
            }
            assert(inners(t) == 1 + inners_of(kids));
            if row.len() <= m {
                let x = Tree::Inner { at, keys, kids: row };
                lemma_one(x);
                lemma_inners_one(x);
                assert(inners(x) == 1 + inners_of(row));
                seq![x]
            } else {
                let a = row.take(half(m));
                let b = row.skip(half(m));
                assert(a + b =~= row);
                assert forall|j: int| 0 <= j < a.len() implies shape(#[trigger] a[j], g, m)
                    && filled(a[j], m) by {
                    assert(a[j] == row[j]);
                }
                assert forall|j: int| 0 <= j < b.len() implies shape(#[trigger] b[j], g, m)
                    && filled(b[j], m) by {
                    assert(b[j] == row[half(m) + j]);
                }
                lemma_leaves_concat(a, b);
                lemma_inners_concat(a, b);
                let x = Tree::Inner { at, keys, kids: a };
                let y = Tree::Inner { at, keys, kids: b };
                let r = seq![x] + seq![y];
                lemma_leaves_concat(seq![x], seq![y]);
                lemma_one(x);
                lemma_one(y);
                lemma_inners_concat(seq![x], seq![y]);
                lemma_inners_one(x);
                lemma_inners_one(y);
                assert(inners(x) == 1 + inners_of(a));
                assert(inners(y) == 1 + inners_of(b));
                r
            }
        },
    }
}

/// The nodes of three rows, side by side.
proof fn lemma_row_counts<K, V>(a: Seq<Tree<K, V>>, b: Seq<Tree<K, V>>, c: Seq<Tree<K, V>>)
    ensures
        leaves_of(a + b + c).len() == leaves_of(a).len() + leaves_of(b).len() + leaves_of(c).len(),
        inners_of(a + b + c) == inners_of(a) + inners_of(b) + inners_of(c),
{
    lemma_leaves_concat(a + b, c);
    lemma_leaves_concat(a, b);
    lemma_inners_concat(a + b, c);
    lemma_inners_concat(a, b);
}

/// After one more leaf, a tree has no more inner nodes than the worst case for that many leaves.
pub proof fn lemma_grown_fits<K: Key, V>(t: Tree<K, V>, k: K, h: nat, m: usize, n: nat)
    requires
        m >= 3,
        shape(t, h, m),
        h > 0 ==> size(t) >= 2,
        leaf_splits(t, k, m),
        leaves(t).len() + 1 <= n,
    ensures
        inners(t) + inner_bill(t, k, m) <= crate::sizing::worst_inners(n, m),
{
    let r = grown(t, k, h, m);
    if splits(t, k, m) {
        let root = Tree::Inner { at: Addr { slab: 0, slot: 0 }, keys: Seq::<K>::empty(), kids: r };
        assert(shape_row(r, h, m));
        assert(shape(root, h + 1, m));
        assert(inners(root) == 1 + inners_of(r));
        law_worst_inners(root, h + 1, m, n);
    } else {
        assert(r =~= seq![r[0]]);
        lemma_one(r[0]);
        lemma_inners_one(r[0]);
        law_worst_inners(r[0], h, m, n);
    }
}

/// The most leaves that a tree with `n` pairs can have: each but a lone one is at least half full.
pub open spec fn most_leaves(n: nat, m: usize) -> nat {
    if n < half(m) {
        1
    } else {
        n / half(m) as nat
    }
}

/// The leaf that owns `k` is split only if `k` is new.
pub proof fn lemma_unsplit<K: Key, V>(
    t: Tree<K, V>,
    k: K,
    h: nat,
    m: usize,
    lo: Option<K>,
    hi: Option<K>,
)
    requires
        ordered::<K>(),
        shape(t, h, m),
        ord(t, lo, hi),
        leaf_splits(t, k, m),
        from(lo, k),
        under(k, hi),
    ensures
        !has_key(pairs(t), k),
    decreases t,
{
    match t {
        Tree::Leaf { at, leaf } => {
            lemma_leaf_pairs(t);
        },
        Tree::Inner { at, keys, kids } => {
            let i = route(keys, k) as int;
            lemma_routed(keys, kids, lo, hi, k);
            let kid = kids[i];
            assert(shape(kid, (h - 1) as nat, m));
            assert(ord(kid, low(keys, i, lo), high(keys, i, hi)));
            lemma_unsplit(kid, k, (h - 1) as nat, m, low(keys, i, lo), high(keys, i, hi));
            lemma_ord_pairs(kid, low(keys, i, lo), high(keys, i, hi));
            lemma_cut(kids, i, i + 1);
            assert(kids.subrange(i, i + 1) =~= seq![kid]);
            lemma_one(kid);
            lemma_middle(pairs_of(kids.take(i)), pairs(kid), pairs_of(kids.skip(i + 1)), k);
        },
    }
}

/// A leaf that is split is full.
pub proof fn full_leaf<K: Key, V>(t: Tree<K, V>, k: K, m: usize) -> (j: int)
    requires
        leaf_splits(t, k, m),
    ensures
        0 <= j < leaves(t).len(),
        leaves(t)[j].leaf.items.len() == m,
    decreases t,
{
    match t {
        Tree::Leaf { at, leaf } => 0,
        Tree::Inner { at, keys, kids } => {
            let i = route(keys, k) as int;
            let j = full_leaf(kids[i], k, m);
            lemma_cut(kids, i, i + 1);
            assert(kids.subrange(i, i + 1) =~= seq![kids[i]]);
            lemma_one(kids[i]);
            leaves_of(kids.take(i)).len() + j
        },
    }
}

/// Leaves with at least `b` pairs each.
proof fn lemma_items_many<K, V>(ls: Seq<Link<K, V>>, b: int)
    requires
        b >= 0,
        forall|i: int| 0 <= i < ls.len() ==> (#[trigger] ls[i]).leaf.items.len() >= b,
    ensures
        items_of(ls).len() >= ls.len() * b,
    decreases ls.len(),
{
    reveal(items_of);
    if ls.len() > 0 {
        assert forall|i: int| 0 <= i < ls.drop_last().len() implies (
        #[trigger] ls.drop_last()[i]).leaf.items.len() >= b by {
            assert(ls.drop_last()[i] == ls[i]);
        }
        lemma_items_many(ls.drop_last(), b);
        assert(ls[ls.len() - 1].leaf.items.len() >= b);
        assert((ls.len() - 1) * b + b == ls.len() * b) by (nonlinear_arith);
    } else {
        assert(0 * b == 0);
    }
}

/// When a leaf is split to take one more pair, there are pairs enough for one more leaf.
pub proof fn lemma_split_leaves<K: Key, V>(t: Tree<K, V>, k: K, h: nat, m: usize, n: nat)
    requires
        m >= 3,
        shape(t, h, m),
        leaf_splits(t, k, m),
        pairs(t).len() < n,
    ensures
        leaves(t).len() + 1 <= most_leaves(n, m),
{
    let ls = leaves(t);
    let j = full_leaf(t, k, m);
    let b = half(m);
    let x = ls.take(j);
    let y = ls.skip(j + 1);
    if h > 0 {
        lemma_leaves_filled(t, h, m);
    } else {
        lemma_leaf_pairs(t);
    }
    assert forall|i: int| 0 <= i < x.len() implies (#[trigger] x[i]).leaf.items.len() >= b by {
        assert(x[i] == ls[i]);
    }
    assert forall|i: int| 0 <= i < y.len() implies (#[trigger] y[i]).leaf.items.len() >= b by {
        assert(y[i] == ls[j + 1 + i]);
    }
    lemma_items_many(x, b);
    lemma_items_many(y, b);
    lemma_items_around(ls, j);
    let l = ls.len();
    assert(x.len() * b + y.len() * b == (l - 1) * b) by (nonlinear_arith)
        requires
            x.len() + y.len() == l - 1,
    ;
    assert((l + 1) * b == (l - 1) * b + 2 * b) by (nonlinear_arith);
    assert(n >= (l + 1) * b);
    assert(n / b as nat >= l + 1) by (nonlinear_arith)
        requires
            n >= (l + 1) * b,
            b > 0,
    ;
    assert((l + 1) * b >= b) by (nonlinear_arith)
        requires
            l >= 0,
            b > 0,
    ;
}

} // verus!
