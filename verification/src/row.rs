//! Rows of trees of any heights, side by side in key order: what a bulk load has built so far.
use crate::allocator::{Addr, Store};
use crate::entries::sorted;
use crate::inner::{Inner, InnerView};
use crate::key::{group_order, lt, ordered, Key};
use crate::leaf::{half, Leaf};
use crate::lemmas::{
    lemma_abs_kept, lemma_all_held_dom, lemma_any_concat, lemma_cut, lemma_inner_pair_any, lemma_held_dom,
    lemma_kept, lemma_leaf_pairs, lemma_leaves_concat, lemma_one, lemma_ord_join,
    lemma_ord_one, lemma_ord_replace, lemma_ord_slice, lemma_pairs_concat,
    lemma_replaced_lift, lemma_row_kept, lemma_three, lemma_two_leaves,
};
use crate::model::{
    abs, all_distinct, any_inner, any_leaf, apart, chained, distinct, filled, forest, from,
    group_unfold, has_inner, has_leaf, held, high, items_of, leaves, leaves_of, low, moved, ord,
    ord_row, over, pairs, pairs_of, replaced, shape, size, under, Link, Tree,
};
use crate::packing::{keyed, least, sturdy, upright};
use vstd::arithmetic::power::{lemma_pow_positive, pow};
use vstd::prelude::*;

verus! {

broadcast use group_unfold;

/// A tree of a row: where its root is, its height, and its first key.
pub struct Piece<K> {
    pub key: K,
    pub at: Addr,
    pub h: nat,
}

/// The trees of the row.
pub open spec fn trees<K: Key, V, const M: usize>(
    s: Store<K, V, M>,
    row: Seq<Piece<K>>,
) -> Seq<Tree<K, V>> {
    Seq::new(row.len(), |i: int| abs(s, row[i].at, row[i].h))
}

/// The keys between the trees of the row.
pub open spec fn seps<K>(row: Seq<Piece<K>>) -> Seq<K> {
    Seq::new((row.len() - 1) as nat, |i: int| row[i + 1].key)
}

/// The row is sound: every tree is there and stands upright, on leaves of any size but empty, with
/// first keys as its separators, and side by side they are a search tree. How the leaves are linked
/// is left open.
pub open spec fn row_ok<K: Key, V, const M: usize>(
    s: Store<K, V, M>,
    row: Seq<Piece<K>>,
    lo: Option<K>,
    hi: Option<K>,
) -> bool {
    let ts = trees(s, row);
    &&& forall|i: int| 0 <= i < row.len() ==> held(s, (#[trigger] row[i]).at, row[i].h)
    &&& forall|i: int| 0 <= i < row.len() ==> stands(#[trigger] ts[i], row[i], M)
    &&& ord_row(seps(row), ts, lo, hi)
    &&& all_distinct(ts)
}

/// The tree stands where the piece says, under its first key.
pub open spec fn stands<K, V>(t: Tree<K, V>, p: Piece<K>, m: usize) -> bool {
    &&& upright(t, p.h, m)
    &&& keyed(t)
    &&& p.key == least(t)
}

/// From `s` to `u` the trees `olds`, neighbours in a row, were replaced by the row `new`.
pub open spec fn recast<K: Key, V, const M: usize>(
    s: Store<K, V, M>,
    u: Store<K, V, M>,
    olds: Seq<Tree<K, V>>,
    new: Seq<Piece<K>>,
    lo: Option<K>,
    hi: Option<K>,
) -> bool {
    let news = trees(u, new);
    &&& row_ok(u, new, lo, hi)
    &&& replaced(s, u, olds, news)
}

/// From `s` to `u` the trees `olds`, neighbours in a row, were replaced by the row `new`, with the
/// same leaves.
pub open spec fn remade<K: Key, V, const M: usize>(
    s: Store<K, V, M>,
    u: Store<K, V, M>,
    olds: Seq<Tree<K, V>>,
    new: Seq<Piece<K>>,
    lo: Option<K>,
    hi: Option<K>,
) -> bool {
    &&& recast(s, u, olds, new, lo, hi)
    &&& leaves_of(trees(u, new)) == leaves_of(olds)
}

/// The row after its trees `i..j` were replaced.
pub open spec fn spliced<K>(
    row: Seq<Piece<K>>,
    i: int,
    j: int,
    new: Seq<Piece<K>>,
) -> Seq<Piece<K>> {
    row.take(i) + new + row.skip(j)
}

/// Replacing the trees `i..j` of a sound row, the first under the same key, leaves a sound row.
#[verifier::rlimit(50)]
#[verifier::spinoff_prover]
pub proof fn lemma_recast<K: Key, V, const M: usize>(
    s: Store<K, V, M>,
    u: Store<K, V, M>,
    row: Seq<Piece<K>>,
    i: int,
    j: int,
    new: Seq<Piece<K>>,
    lo: Option<K>,
    hi: Option<K>,
)
    requires
        ordered::<K>(),
        row_ok(s, row, lo, hi),
        0 <= i < j <= row.len(),
        new.len() > 0,
        new[0].key == row[i].key,
        recast(
            s,
            u,
            trees(s, row).subrange(i, j),
            new,
            low(seps(row), i, lo),
            high(seps(row), j - 1, hi),
        ),
    ensures
        recast(s, u, trees(s, row), spliced(row, i, j, new), lo, hi),
        pairs_of(trees(u, spliced(row, i, j, new))) == pairs_of(trees(s, row).take(i)) + pairs_of(
            trees(u, new),
        ) + pairs_of(trees(s, row).skip(j)),
        trees(u, spliced(row, i, j, new)) == trees(s, row).take(i) + trees(u, new) + trees(
            s,
            row,
        ).skip(j),
{
    let ts = trees(s, row);
    let news = trees(u, new);
    let olds = ts.subrange(i, j);
    let row2 = spliced(row, i, j, new);
    let ts2 = ts.take(i) + news + ts.skip(j);
    let back = |k: int| if k < i { k } else { k - i - new.len() + j };
    lemma_cut(ts, i, j);
    lemma_three(ts.take(i), news, ts.skip(j));
    assert forall|k: int| 0 <= k < row.len() && !(i <= k < j) implies {
        &&& held(u, (#[trigger] row[k]).at, row[k].h)
        &&& abs(u, row[k].at, row[k].h) == ts[k]
        &&& forall|l: int|
            0 <= l < news.len() ==> apart(#[trigger] news[l], ts[k]) && apart(ts[k], news[l])
    } by {
        assert forall|l: int| 0 <= l < olds.len() implies apart(
            #[trigger] olds[l],
            abs(s, row[k].at, row[k].h),
        ) by {
            assert(olds[l] == ts[i + l]);
            assert(ts[k] == abs(s, row[k].at, row[k].h));
        }
        lemma_kept(s, u, row[k].at, row[k].h, olds, news);
    }
    assert forall|k: int| 0 <= k < row2.len() implies held(u, (#[trigger] row2[k]).at, row2[k].h)
        && abs(u, row2[k].at, row2[k].h) == ts2[k] by {
        if i <= k < i + new.len() {
            assert(row2[k] == new[k - i]);
        } else {
            assert(row2[k] == row[back(k)]);
        }
    }
    assert(trees(u, row2) =~= ts2);
    assert forall|k: int| 0 <= k < row2.len() implies stands(#[trigger] ts2[k], row2[k], M)
        && distinct(ts2[k]) by {
        if i <= k < i + new.len() {
            assert(ts2[k] == news[k - i]);
            assert(row2[k] == new[k - i]);
        } else {
            assert(ts2[k] == ts[back(k)]);
            assert(row2[k] == row[back(k)]);
        }
    }
    assert forall|k: int, l: int|
        #![trigger ts2[k], ts2[l]]
        0 <= k < ts2.len() && 0 <= l < ts2.len() && k != l implies apart(ts2[k], ts2[l]) by {
        if i <= k < i + new.len() {
            assert(ts2[k] == news[k - i]);
        } else {
            assert(ts2[k] == ts[back(k)]);
            assert(row[back(k)] == row[back(k)]);
        }
        if i <= l < i + new.len() {
            assert(ts2[l] == news[l - i]);
        } else {
            assert(ts2[l] == ts[back(l)]);
            assert(row[back(l)] == row[back(l)]);
        }
    }
    lemma_replaced_lift(s, u, ts.take(i), olds, news, ts.skip(j));
    lemma_ord_replace(seps(row), ts, lo, hi, i, j, seps(new), news);
    let ks = seps(row).take(i) + seps(new) + seps(row).skip(j - 1);
    assert(seps(row2) =~= ks) by {
        assert forall|k: int| 0 <= k < ks.len() implies seps(row2)[k] == ks[k] by {
            assert(seps(row2)[k] == row2[k + 1].key);
            if k < i {
                if k + 1 < i {
                    assert(row2[k + 1] == row[k + 1]);
                } else {
                    assert(row2[k + 1] == new[0]);
                }
            } else if k < i + new.len() - 1 {
                assert(row2[k + 1] == new[k + 1 - i]);
            } else {
                assert(row2[k + 1] == row[k + 1 - i - new.len() + j]);
            }
        }
    }
}

/// Remaking the trees `i..j` of a sound row, the first under the same key, leaves a sound row.
pub proof fn lemma_remake<K: Key, V, const M: usize>(
    s: Store<K, V, M>,
    u: Store<K, V, M>,
    row: Seq<Piece<K>>,
    i: int,
    j: int,
    new: Seq<Piece<K>>,
    lo: Option<K>,
    hi: Option<K>,
)
    requires
        ordered::<K>(),
        row_ok(s, row, lo, hi),
        0 <= i < j <= row.len(),
        new.len() > 0,
        new[0].key == row[i].key,
        remade(
            s,
            u,
            trees(s, row).subrange(i, j),
            new,
            low(seps(row), i, lo),
            high(seps(row), j - 1, hi),
        ),
    ensures
        remade(s, u, trees(s, row), spliced(row, i, j, new), lo, hi),
        trees(u, spliced(row, i, j, new)) == trees(s, row).take(i) + trees(u, new) + trees(
            s,
            row,
        ).skip(j),
{
    let ts = trees(s, row);
    lemma_recast(s, u, row, i, j, new, lo, hi);
    lemma_cut(ts, i, j);
    lemma_three(ts.take(i), trees(u, new), ts.skip(j));
}

/// A tree takes the next one in the row as its last child.
pub proof fn lemma_adopted<K: Key, V, const M: usize>(
    s: Store<K, V, M>,
    n: Addr,
    c: Addr,
    h: nat,
    key: K,
    sep: K,
    x: Inner<K, V, M>,
    lo: Option<K>,
    hi: Option<K>,
)
    requires
        ordered::<K>(),
        row_ok(
            s,
            seq![Piece { key, at: n, h: h + 1 }, Piece { key: sep, at: c, h }],
            lo,
            hi,
        ),
        sturdy(abs(s, c, h), M),
        size(abs(s, n, h + 1)) < M,
        x@ == (InnerView {
            keys: s.inners[n]@.keys.push(sep),
            kids: s.inners[n]@.kids.push(c),
        }),
    ensures
        ({
            let u = Store { inners: s.inners.insert(n, x), ..s };
            let row = seq![Piece { key, at: n, h: h + 1 }, Piece { key: sep, at: c, h }];
            &&& remade(s, u, trees(s, row), seq![Piece { key, at: n, h: h + 1 }], lo, hi)
            &&& size(abs(u, n, h + 1)) == size(abs(s, n, h + 1)) + 1
            &&& abs(u, n, h + 1)->kids == abs(s, n, h + 1)->kids.push(abs(s, c, h))
        }),
{
    let u = Store { inners: s.inners.insert(n, x), ..s };
    let row = seq![Piece { key, at: n, h: h + 1 }, Piece { key: sep, at: c, h }];
    let olds = trees(s, row);
    let tn = abs(s, n, h + 1);
    let tc = abs(s, c, h);
    let keys = s.inners[n]@.keys;
    let kids = s.inners[n]@.kids;
    let ks = forest(s, kids, h);
    assert(olds =~= seq![tn, tc]);
    assert(row[0].at == n && row[1].at == c);
    assert(olds[0] == tn && olds[1] == tc);
    assert(seps(row) =~= seq![sep]);
    assert(tn == (Tree::Inner { at: n, keys, kids: ks }));
    let all = kids.push(c);
    let ts = ks.push(tc);
    assert(low(seps(row), 0, lo) == lo && high(seps(row), 0, hi) == Some(sep));
    assert(low(seps(row), 1, lo) == Some(sep) && high(seps(row), 1, hi) == hi);
    assert(ord(tn, lo, Some(sep)) && ord(tc, Some(sep), hi));
    assert(seps(row)[0] == sep);
    lemma_ord_one(tc, Some(sep), hi);
    lemma_ord_join(keys, ks, sep, Seq::<K>::empty(), seq![tc], lo, hi);
    assert(keys.push(sep) + Seq::<K>::empty() =~= keys.push(sep));
    assert(ks + seq![tc] =~= ts);
    assert(apart(tn, tc) && apart(tc, tn));
    assert(distinct(tn) && distinct(tc));
    assert(has_inner(tn, n));
    lemma_one(tn);
    lemma_one(tc);
    lemma_any_concat(ks, seq![tc]);
    lemma_leaves_concat(ks, seq![tc]);
    lemma_leaves_concat(seq![tn], seq![tc]);
    lemma_any_concat(seq![tn], seq![tc]);
    assert(seq![tn] + seq![tc] =~= olds);
    assert forall|i: int| 0 <= i < all.len() implies held(s, #[trigger] all[i], h) && abs(
        s,
        all[i],
        h,
    ) == ts[i] by {
        if i < kids.len() {
            assert(all[i] == kids[i]);
            assert(ks[i] == abs(s, kids[i], h));
        }
    }
    assert(forest(s, all, h) =~= ts);
    assert(!any_inner(ts, n)) by {
        reveal(apart);
        assert(!has_inner(tc, n));
    }
    lemma_all_held_dom(s, all, h);
    lemma_row_kept(s, u, all, h);
    let new = Tree::Inner { at: n, keys: x@.keys, kids: ts };
    assert(abs(u, n, h + 1) == new);
    assert(all_distinct(ts)) by {
        lemma_apart_kids(tn, tc);
        assert forall|i: int| 0 <= i < ts.len() implies distinct(#[trigger] ts[i]) by {
            if i < ks.len() {
                assert(ts[i] == ks[i]);
            }
        }
        assert forall|i: int, j: int|
            #![trigger ts[i], ts[j]]
            0 <= i < ts.len() && 0 <= j < ts.len() && i != j implies apart(ts[i], ts[j]) by {
            if i < ks.len() {
                assert(ts[i] == ks[i]);
            }
            if j < ks.len() {
                assert(ts[j] == ks[j]);
            }
        }
    }
    assert(stands(tn, row[0], M) && stands(tc, row[1], M));
    assert(upright(new, h + 1, M) && keyed(new)) by {
        assert forall|i: int| 0 <= i < ts.len() implies upright(#[trigger] ts[i], h, M) && sturdy(
            ts[i],
            M,
        ) && keyed(ts[i]) by {
            if i < ks.len() {
                assert(ts[i] == ks[i]);
            }
        }
        assert forall|i: int| 0 <= i < x@.keys.len() implies #[trigger] x@.keys[i] == least(
            ts[i + 1],
        ) by {
            if i < keys.len() {
                assert(x@.keys[i] == keys[i]);
                assert(ts[i + 1] == ks[i + 1]);
            }
        }
    }
    assert(least(new) == least(tn)) by {
        assert(ts[0] == ks[0]);
    }
    lemma_one(new);
    let single = seq![Piece { key, at: n, h: h + 1 }];
    assert(trees(u, single) =~= seq![new]);
    assert(seps(single) =~= Seq::<K>::empty());
    lemma_ord_one(new, lo, hi);
    assert(replaced(s, u, olds, seq![new])) by {
        reveal(moved);
    }
}

/// A tree that has no node in common with another has none in common with its children.
proof fn lemma_apart_kids<K, V>(t: Tree<K, V>, c: Tree<K, V>)
    requires
        t is Inner,
        apart(t, c),
        apart(c, t),
    ensures
        forall|i: int|
            0 <= i < t->kids.len() ==> apart(#[trigger] t->kids[i], c) && apart(c, t->kids[i]),
{
    reveal(apart);
    reveal(any_leaf);
    reveal(any_inner);
    let ks = t->kids;
    assert forall|i: int| 0 <= i < ks.len() implies apart(#[trigger] ks[i], c) && apart(
        c,
        ks[i],
    ) by {
        assert forall|a: Addr| has_leaf(ks[i], a) implies has_leaf(t, a) by {}
        assert forall|a: Addr| has_inner(ks[i], a) implies has_inner(t, a) by {}
        assert forall|a: Addr| has_leaf(ks[i], a) implies !#[trigger] has_leaf(c, a) by {
            assert(has_leaf(t, a));
        }
        assert forall|a: Addr| has_inner(ks[i], a) implies !#[trigger] has_inner(c, a) by {
            assert(has_inner(t, a));
        }
        assert forall|a: Addr| has_leaf(c, a) implies !#[trigger] has_leaf(ks[i], a) by {
            if has_leaf(ks[i], a) {
                assert(has_leaf(t, a));
            }
        }
        assert forall|a: Addr| has_inner(c, a) implies !#[trigger] has_inner(ks[i], a) by {
            if has_inner(ks[i], a) {
                assert(has_inner(t, a));
            }
        }
    }
}

/// A tree becomes the only child of a new inner node.
pub proof fn lemma_wrapped<K: Key, V, const M: usize>(
    s: Store<K, V, M>,
    r: Addr,
    c: Addr,
    h: nat,
    key: K,
    x: Inner<K, V, M>,
    lo: Option<K>,
    hi: Option<K>,
)
    requires
        M >= 3,
        row_ok(s, seq![Piece { key, at: c, h }], lo, hi),
        sturdy(abs(s, c, h), M),
        !s.inners.dom().contains(r),
        x@ == (InnerView { keys: Seq::<K>::empty(), kids: seq![c] }),
    ensures
        ({
            let u = Store { inners: s.inners.insert(r, x), ..s };
            let row = seq![Piece { key, at: c, h }];
            &&& remade(s, u, trees(s, row), seq![Piece { key, at: r, h: h + 1 }], lo, hi)
            &&& size(abs(u, r, h + 1)) == 1
            &&& abs(u, r, h + 1)->kids == seq![abs(s, c, h)]
        }),
{
    let u = Store { inners: s.inners.insert(r, x), ..s };
    let row = seq![Piece { key, at: c, h }];
    let tc = abs(s, c, h);
    let olds = trees(s, row);
    assert(row[0].at == c);
    assert(olds =~= seq![tc]);
    assert(olds[0] == tc);
    assert(seps(row) =~= Seq::<K>::empty());
    assert(forest(s, seq![c], h) =~= seq![tc]);
    let new = Tree::Inner { at: r, keys: Seq::<K>::empty(), kids: seq![tc] };
    let kids = seq![c];
    assert(stands(tc, row[0], M));
    assert(held(s, kids[0], h));
    lemma_all_held_dom(s, kids, h);
    lemma_row_kept(s, u, kids, h);
    assert(abs(u, r, h + 1) == new);
    lemma_one(new);
    lemma_one(tc);
    let single = seq![Piece { key, at: r, h: h + 1 }];
    assert(trees(u, single) =~= seq![new]);
    assert(trees(u, single)[0] == new);
    assert(seps(single) =~= Seq::<K>::empty());
    assert(new->kids[0] == tc);
    assert(low(seps(row), 0, lo) == lo && high(seps(row), 0, hi) == hi);
    assert(ord(tc, lo, hi));
    lemma_ord_one(tc, lo, hi);
    lemma_ord_one(new, lo, hi);
    assert(!any_inner(seq![tc], r)) by {
        if has_inner(tc, r) {
            lemma_held_dom(s, c, h);
        }
    }
    assert(distinct(new));
    assert(replaced(s, u, olds, seq![new])) by {
        reveal(moved);
        lemma_held_dom(s, c, h);
    }
}

/// Two inner nodes over the children of two others, in the same order.
proof fn lemma_shares<K, V>(
    ta: Tree<K, V>,
    tb: Tree<K, V>,
    sep: K,
    a: Tree<K, V>,
    b: Tree<K, V>,
    sep2: K,
    h: nat,
    m: usize,
)
    requires
        upright(ta, h + 1, m),
        upright(tb, h + 1, m),
        keyed(ta),
        keyed(tb),
        sep == least(tb),
        a is Inner,
        b is Inner,
        a->kids + b->kids == ta->kids + tb->kids,
        a->keys.push(sep2) + b->keys == ta->keys.push(sep) + tb->keys,
        1 <= a->kids.len() <= m,
        1 <= b->kids.len() <= m,
        a->kids.len() == a->keys.len() + 1,
        b->kids.len() == b->keys.len() + 1,
    ensures
        upright(a, h + 1, m),
        upright(b, h + 1, m),
        keyed(a),
        keyed(b),
        least(a) == least(ta),
        least(b) == sep2,
{
    let all = ta->kids + tb->kids;
    let ks = ta->keys.push(sep) + tb->keys;
    let was = ta->kids.len() as int;
    let cut = a->kids.len() as int;
    assert forall|i: int| 0 <= i < all.len() implies upright(#[trigger] all[i], h, m) && sturdy(
        all[i],
        m,
    ) && keyed(all[i]) && (i > 0 ==> ks[i - 1] == least(all[i])) by {
        if i < was {
            assert(all[i] == ta->kids[i]);
            if i > 0 {
                assert(ks[i - 1] == ta->keys[i - 1]);
            }
        } else {
            assert(all[i] == tb->kids[i - was]);
            if i > was {
                assert(ks[i - 1] == tb->keys[i - was - 1]);
            }
        }
    }
    assert(forall|i: int| 0 <= i < cut ==> #[trigger] a->kids[i] == all[i]);
    assert(forall|i: int| 0 <= i < b->kids.len() ==> #[trigger] b->kids[i] == all[cut + i]);
    assert forall|i: int| 0 <= i < a->keys.len() implies #[trigger] a->keys[i] == least(
        a->kids[i + 1],
    ) by {
        assert(a->keys[i] == (a->keys.push(sep2) + b->keys)[i]);
    }
    assert forall|i: int| 0 <= i < b->keys.len() implies #[trigger] b->keys[i] == least(
        b->kids[i + 1],
    ) by {
        assert(b->keys[i] == (a->keys.push(sep2) + b->keys)[cut + i]);
    }
    assert(ta->kids[0] == all[0]);
    assert((a->keys.push(sep2) + b->keys)[cut - 1] == sep2);
}

/// Two neighbouring inner nodes shift children between them.
pub proof fn lemma_rotated<K: Key, V, const M: usize>(
    s: Store<K, V, M>,
    n: Addr,
    r: Addr,
    h: nat,
    key: K,
    sep: K,
    x: Inner<K, V, M>,
    sep2: K,
    y: Inner<K, V, M>,
    lo: Option<K>,
    hi: Option<K>,
)
    requires
        ordered::<K>(),
        row_ok(
            s,
            seq![Piece { key, at: n, h: h + 1 }, Piece { key: sep, at: r, h: h + 1 }],
            lo,
            hi,
        ),
        x@.kids + y@.kids == s.inners[n]@.kids + s.inners[r]@.kids,
        x@.keys.push(sep2) + y@.keys == s.inners[n]@.keys.push(sep) + s.inners[r]@.keys,
        1 <= x@.kids.len() <= M,
        1 <= y@.kids.len() <= M,
        x@.kids.len() == x@.keys.len() + 1,
        y@.kids.len() == y@.keys.len() + 1,
    ensures
        ({
            let u = Store { inners: s.inners.insert(n, x).insert(r, y), ..s };
            let row = seq![Piece { key, at: n, h: h + 1 }, Piece { key: sep, at: r, h: h + 1 }];
            let row2 = seq![Piece { key, at: n, h: h + 1 }, Piece { key: sep2, at: r, h: h + 1 }];
            &&& remade(s, u, trees(s, row), row2, lo, hi)
            &&& size(abs(u, n, h + 1)) == x@.kids.len()
            &&& size(abs(u, r, h + 1)) == y@.kids.len()
            &&& abs(u, n, h + 1)->kids + abs(u, r, h + 1)->kids == abs(s, n, h + 1)->kids + abs(
                s,
                r,
                h + 1,
            )->kids
        }),
{
    let u = Store { inners: s.inners.insert(n, x).insert(r, y), ..s };
    let row = seq![Piece { key, at: n, h: h + 1 }, Piece { key: sep, at: r, h: h + 1 }];
    let row2 = seq![Piece { key, at: n, h: h + 1 }, Piece { key: sep2, at: r, h: h + 1 }];
    let olds = forest(s, seq![n, r], h + 1);
    let ta = abs(s, n, h + 1);
    let tb = abs(s, r, h + 1);
    assert(row[0].at == n && row[1].at == r);
    assert(trees(s, row) =~= olds);
    assert(seps(row) =~= seq![sep]);
    assert(seq![n, r][0] == n && seq![n, r][1] == r);
    assert(olds[0] == ta && olds[1] == tb);
    assert(stands(olds[0], row[0], M) && stands(olds[1], row[1], M));
    lemma_inner_pair_any(s, n, r, h, sep, x, sep2, y, lo, hi);
    let a = abs(u, n, h + 1);
    let b = abs(u, r, h + 1);
    let news = forest(u, seq![n, r], h + 1);
    assert(ta->kids + tb->kids =~= a->kids + b->kids);
    lemma_shares(ta, tb, sep, a, b, sep2, h, M);
    assert(trees(u, row2) =~= news);
    assert(news[0] == a && news[1] == b);
    assert(seps(row2) =~= seq![sep2]);
    assert forall|i: int| 0 <= i < 2 implies held(u, (#[trigger] row2[i]).at, row2[i].h) by {
        assert(held(u, seq![n, r][i], h + 1));
    }
}

/// The last leaf of a row gives its upper pairs to a new one behind it. (It may also take more
/// pairs first.)
pub proof fn lemma_leaf_added<K: Key, V, const M: usize>(
    s: Store<K, V, M>,
    n: Addr,
    r: Addr,
    x: Leaf<K, V, M>,
    y: Leaf<K, V, M>,
    lo: Option<K>,
)
    requires
        ordered::<K>(),
        held(s, n, 0),
        !s.leaves.dom().contains(r),
        x.wf(),
        y.wf(),
        x@.items.len() > 0,
        y@.items.len() > 0,
        sorted(x@.items + y@.items),
        from(lo, x@.items[0].0),
        x@.next == Some(r),
        y@.next == s.leaves[n]@.next,
    ensures
        ({
            let u = Store { leaves: s.leaves.insert(n, x).insert(r, y), ..s };
            let row = seq![
                Piece { key: x@.items[0].0, at: n, h: 0 },
                Piece { key: y@.items[0].0, at: r, h: 0 },
            ];
            let olds = seq![abs(s, n, 0)];
            &&& row_ok(u, row, lo, None)
            &&& chained(leaves_of(trees(u, row)))
            &&& leaves_of(trees(u, row)) == seq![Link { at: n, leaf: x@ }, Link { at: r, leaf: y@ }]
            &&& replaced(s, u, olds, trees(u, row))
            &&& pairs_of(trees(u, row)) == x@.items + y@.items
        }),
{
    broadcast use group_order;

    let u = Store { leaves: s.leaves.insert(n, x).insert(r, y), ..s };
    let row = seq![
        Piece { key: x@.items[0].0, at: n, h: 0 },
        Piece { key: y@.items[0].0, at: r, h: 0 },
    ];
    let all = x@.items + y@.items;
    assert(all[0] == x@.items[0]);
    assert forall|i: int| 0 <= i < all.len() implies from(lo, #[trigger] all[i].0) && under(
        all[i].0,
        None,
    ) by {
        if i > 0 {
            assert(lt(all[0].0, all[i].0));
        }
    }
    lemma_two_leaves(n, r, x@, y@, lo, None);
    let two = seq![Tree::Leaf { at: n, leaf: x@ }, Tree::Leaf { at: r, leaf: y@ }];
    assert(row[0].at == n && row[1].at == r);
    assert(abs(u, n, 0) == two[0] && abs(u, r, 0) == two[1]);
    assert(trees(u, row) =~= two);
    assert(seps(row) =~= seq![y@.items[0].0]);
    let old = abs(s, n, 0);
    lemma_one(old);
    lemma_leaf_pairs(old);
    assert(replaced(s, u, seq![old], two)) by {
        reveal(moved);
    }
}

/// The store holds the nodes of the row and no others.
pub open spec fn row_owned<K: Key, V, const M: usize>(
    s: Store<K, V, M>,
    row: Seq<Piece<K>>,
) -> bool {
    &&& forall|a: Addr| #[trigger] s.leaves.dom().contains(a) ==> any_leaf(trees(s, row), a)
    &&& forall|a: Addr| #[trigger] s.inners.dom().contains(a) ==> any_inner(trees(s, row), a)
    &&& s.raw_leaves == Set::<Addr>::empty()
    &&& s.raw_inners == Set::<Addr>::empty()
    &&& s.unbounded()
}

/// Remaking a part of the row that owns the store leaves a row that does.
pub proof fn lemma_row_owned<K: Key, V, const M: usize>(
    s: Store<K, V, M>,
    u: Store<K, V, M>,
    row: Seq<Piece<K>>,
    row2: Seq<Piece<K>>,
)
    requires
        row_owned(s, row),
        replaced(s, u, trees(s, row), trees(u, row2)),
    ensures
        row_owned(u, row2),
{
    reveal(moved);
}

/// A part of a sound row.
pub proof fn lemma_row_part<K: Key, V, const M: usize>(
    s: Store<K, V, M>,
    row: Seq<Piece<K>>,
    i: int,
    j: int,
    lo: Option<K>,
    hi: Option<K>,
)
    requires
        ordered::<K>(),
        row_ok(s, row, lo, hi),
        0 <= i < j <= row.len(),
    ensures
        row_ok(s, row.subrange(i, j), low(seps(row), i, lo), high(seps(row), j - 1, hi)),
        trees(s, row.subrange(i, j)) == trees(s, row).subrange(i, j),
{
    let part = row.subrange(i, j);
    let ts = trees(s, row);
    let us = trees(s, part);
    assert(us =~= ts.subrange(i, j));
    lemma_ord_slice(seps(row), ts, lo, hi, i, j);
    assert(seps(row).subrange(i, j - 1) =~= seps(part));
    lemma_cut(ts, i, j);
    assert forall|k: int| 0 <= k < part.len() implies held(s, (#[trigger] part[k]).at, part[k].h) by {
        assert(part[k] == row[i + k]);
    }
    assert forall|k: int| 0 <= k < part.len() implies stands(#[trigger] us[k], part[k], M) by {
        assert(us[k] == ts[i + k]);
        assert(part[k] == row[i + k]);
    }
    assert forall|k: int, l: int|
        #![trigger us[k], us[l]]
        0 <= k < us.len() && 0 <= l < us.len() && k != l implies apart(us[k], us[l]) by {
        assert(us[k] == ts[i + k] && us[l] == ts[i + l]);
    }
    assert forall|k: int| 0 <= k < us.len() implies distinct(#[trigger] us[k]) by {
        assert(us[k] == ts[i + k]);
    }
}

/// A tree has a leaf and a pair, and its first pair is the one with its first key.
pub proof fn lemma_least<K, V>(t: Tree<K, V>, h: nat, m: usize)
    requires
        upright(t, h, m),
    ensures
        leaves(t).len() > 0,
        pairs(t).len() > 0,
        pairs(t)[0].0 == least(t),
        leaves(t)[0].leaf.items.len() > 0,
        leaves(t)[0].leaf.items[0].0 == least(t),
    decreases t,
{
    match t {
        Tree::Leaf { at, leaf } => {
            lemma_leaf_pairs(t);
        },
        Tree::Inner { at, keys, kids } => {
            let first = kids[0];
            assert(upright(first, (h - 1) as nat, m));
            lemma_least(first, (h - 1) as nat, m);
            lemma_cut(kids, 0, 1);
            assert(kids.subrange(0, 1) =~= seq![first]);
            lemma_one(first);
            let none = kids.take(0);
            assert(none.len() == 0);
            reveal(leaves_of);
            assert(leaves_of(none) =~= Seq::empty());
            reveal(items_of);
            assert(pairs_of(none) =~= Seq::empty());
        },
    }
}

/// On leaves that are at least half full a tree is well shaped.
pub proof fn lemma_upright_shape<K, V>(t: Tree<K, V>, h: nat, m: usize)
    requires
        upright(t, h, m),
        forall|i: int|
            0 <= i < leaves(t).len() ==> (#[trigger] leaves(t)[i]).leaf.items.len() >= half(m),
    ensures
        shape(t, h, m),
    decreases t,
{
    if let Tree::Inner { at, keys, kids } = t {
        assert forall|i: int| 0 <= i < kids.len() implies shape(
            #[trigger] kids[i],
            (h - 1) as nat,
            m,
        ) && filled(kids[i], m) by {
            let kid = kids[i];
            assert(upright(kid, (h - 1) as nat, m));
            lemma_cut(kids, i, i + 1);
            assert(kids.subrange(i, i + 1) =~= seq![kid]);
            lemma_one(kid);
            let k = leaves_of(kids.take(i)).len();
            assert forall|j: int| 0 <= j < leaves(kid).len() implies (
            #[trigger] leaves(kid)[j]).leaf.items.len() >= half(m) by {
                assert(leaves(t)[k + j] == leaves(kid)[j]);
            }
            lemma_upright_shape(kid, (h - 1) as nat, m);
            if kid is Leaf {
                lemma_leaf_pairs(kid);
                assert(leaves(kid)[0].leaf.items.len() >= half(m));
            }
        }
    }
}

/// The least number of pairs in a tree, by the size of its root.
proof fn lemma_many<K, V>(t: Tree<K, V>, h: nat, m: usize)
    requires
        m >= 3,
        upright(t, h, m),
    ensures
        h == 0 ==> pairs(t).len() >= 1,
        h > 0 ==> pairs(t).len() >= size(t) * pow(2, (h - 1) as nat),
    decreases t, 0nat,
{
    match t {
        Tree::Leaf { at, leaf } => {
            lemma_leaf_pairs(t);
        },
        Tree::Inner { at, keys, kids } => {
            lemma_row_many(kids, kids.len() as int, (h - 1) as nat, m);
            assert(kids.take(kids.len() as int) =~= kids);
        },
    }
}

proof fn lemma_row_many<K, V>(ts: Seq<Tree<K, V>>, i: int, h: nat, m: usize)
    requires
        m >= 3,
        0 <= i <= ts.len(),
        forall|j: int|
            0 <= j < ts.len() ==> upright(#[trigger] ts[j], h, m) && sturdy(ts[j], m),
    ensures
        pairs_of(ts.take(i)).len() >= i * pow(2, h),
    decreases ts, i + 1,
{
    reveal(pow);
    if i > 0 {
        lemma_row_many(ts, i - 1, h, m);
        let t = ts[i - 1];
        lemma_many(t, h, m);
        assert(ts.take(i) =~= ts.take(i - 1) + seq![t]);
        lemma_pairs_concat(ts.take(i - 1), seq![t]);
        lemma_one(t);
        assert(pairs(t).len() >= pow(2, h)) by {
            if h > 0 {
                let p = pow(2, (h - 1) as nat);
                lemma_pow_positive(2, (h - 1) as nat);
                assert(size(t) * p >= 2 * p) by (nonlinear_arith)
                    requires
                        size(t) >= 2,
                        p > 0,
                ;
            }
        }
        assert((i - 1) * pow(2, h) + pow(2, h) == i * pow(2, h)) by (nonlinear_arith);
    }
}

/// A tree of a row that fits the address space is not too high.
pub proof fn lemma_piece_fits<K: Key, V, const M: usize>(
    s: Store<K, V, M>,
    row: Seq<Piece<K>>,
    i: int,
    lo: Option<K>,
    hi: Option<K>,
)
    requires
        M >= 3,
        row_ok(s, row, lo, hi),
        0 <= i < row.len(),
        pairs_of(trees(s, row)).len() <= usize::MAX,
    ensures
        row[i].h <= 64,
{
    let ts = trees(s, row);
    let t = ts[i];
    let h = row[i].h;
    lemma_cut(ts, i, i + 1);
    assert(ts.subrange(i, i + 1) =~= seq![t]);
    lemma_one(t);
    assert(stands(t, row[i], M));
    lemma_many(t, h, M);
    if h > 64 {
        let p = pow(2, (h - 1) as nat);
        vstd::arithmetic::power::lemma_pow_increases(2, 64, (h - 1) as nat);
        vstd::arithmetic::power2::lemma_pow2(64);
        vstd::arithmetic::power2::lemma2_to64();
        assert(size(t) * p >= p) by (nonlinear_arith)
            requires
                size(t) >= 1,
                p >= 0,
        ;
    }
}

/// An upper bound that holds of all pairs of a tree under first keys holds of the whole tree.
proof fn lemma_tightened<K: Key, V>(
    t: Tree<K, V>,
    h: nat,
    m: usize,
    lo: Option<K>,
    hi: Option<K>,
    top: K,
)
    requires
        ordered::<K>(),
        upright(t, h, m),
        keyed(t),
        ord(t, lo, hi),
        forall|i: int| 0 <= i < pairs(t).len() ==> lt(#[trigger] pairs(t)[i].0, top),
    ensures
        ord(t, lo, Some(top)),
    decreases t,
{
    match t {
        Tree::Leaf { at, leaf } => {
            lemma_leaf_pairs(t);
        },
        Tree::Inner { at, keys, kids } => {
            let g = (h - 1) as nat;
            assert forall|i: int| 0 <= i < kids.len() implies lt(
                least(#[trigger] kids[i]),
                top,
            ) && (i == keys.len() ==> ord(kids[i], low(keys, i, lo), Some(top))) by {
                let kid = kids[i];
                assert(upright(kid, g, m));
                lemma_cut(kids, i, i + 1);
                assert(kids.subrange(i, i + 1) =~= seq![kid]);
                lemma_one(kid);
                lemma_least(kid, g, m);
                let n = pairs_of(kids.take(i)).len();
                assert forall|j: int| 0 <= j < pairs(kid).len() implies lt(
                    #[trigger] pairs(kid)[j].0,
                    top,
                ) by {
                    assert(pairs(t)[n + j] == pairs(kid)[j]);
                }
                if i == keys.len() {
                    lemma_tightened(kid, g, m, low(keys, i, lo), hi, top);
                }
            }
            assert forall|i: int| 0 <= i < keys.len() implies over(lo, #[trigger] keys[i]) && under(
                keys[i],
                Some(top),
            ) by {
                assert(keys[i] == least(kids[i + 1]));
            }
            assert forall|i: int| 0 <= i < kids.len() implies ord(
                #[trigger] kids[i],
                low(keys, i, lo),
                high(keys, i, Some(top)),
            ) by {
                assert(ord(kids[i], low(keys, i, lo), high(keys, i, hi)));
            }
        },
    }
}

/// The order of a row that is continued with a leaf.
proof fn lemma_ord_continued<K: Key, V>(
    row: Seq<Piece<K>>,
    ts: Seq<Tree<K, V>>,
    p: Piece<K>,
    t: Tree<K, V>,
    m: usize,
)
    requires
        ordered::<K>(),
        row.len() == ts.len(),
        row.len() > 0 ==> ord_row(seps(row), ts, None, None),
        forall|i: int| 0 <= i < row.len() ==> stands(#[trigger] ts[i], row[i], m),
        t matches Tree::Leaf { at, leaf } && sorted(leaf.items) && leaf.items.len() > 0
            && leaf.items[0].0 == p.key,
        forall|i: int| 0 <= i < pairs_of(ts).len() ==> lt(#[trigger] pairs_of(ts)[i].0, p.key),
    ensures
        ord_row(seps(row.push(p)), ts.push(t), None, None),
{
    broadcast use group_order;

    let key = p.key;
    let n = row.len() as int;
    let us = ts.push(t);
    let ks = seps(row);
    let ls = seps(row.push(p));
    if n == 0 {
        assert(ls =~= Seq::<K>::empty());
        assert(low(ls, 0, None::<K>) is None && high(ls, 0, None::<K>) is None);
        assert(us[0] == t);
    } else {
        assert(ls =~= ks.push(key));
        assert forall|i: int| 0 <= i < n implies lt(row[i].key, key) && ord(
            #[trigger] ts[i],
            low(ls, i, None),
            high(ls, i, None),
        ) by {
            lemma_cut(ts, i, i + 1);
            assert(ts.subrange(i, i + 1) =~= seq![ts[i]]);
            lemma_one(ts[i]);
            lemma_least(ts[i], row[i].h, m);
            let k = pairs_of(ts.take(i)).len();
            assert forall|j: int| 0 <= j < pairs(ts[i]).len() implies lt(
                #[trigger] pairs(ts[i])[j].0,
                key,
            ) by {
                assert(pairs_of(ts)[k + j] == pairs(ts[i])[j]);
            }
            assert(ord(ts[i], low(ks, i, None), high(ks, i, None)));
            if i > 0 {
                assert(ls[i - 1] == ks[i - 1]);
            }
            if i < n - 1 {
                assert(ls[i] == ks[i]);
            } else {
                lemma_tightened(ts[i], row[i].h, m, low(ks, i, None), None, key);
            }
        }
        assert forall|i: int, j: int|
            #![trigger ls[i], ls[j]]
            0 <= i < j < ls.len() implies lt(ls[i], ls[j]) by {
            assert(ls[i] == row[i + 1].key);
            assert(stands(ts[i + 1], row[i + 1], m));
            assert(lt(row[i + 1].key, key));
            if j < n - 1 {
                assert(ks[i] == ls[i] && ks[j] == ls[j]);
            }
        }
        assert forall|i: int| 0 <= i < us.len() implies ord(
            #[trigger] us[i],
            low(ls, i, None),
            high(ls, i, None),
        ) by {
            if i < n {
                assert(us[i] == ts[i]);
            }
        }
    }
}

/// A row can be continued with any new leaf that is not empty and whose keys lie above all before
/// it, however many pairs it holds and whatever it links to.
pub proof fn law_row_continued<K: Key, V, const M: usize>(
    s: Store<K, V, M>,
    row: Seq<Piece<K>>,
    at: Addr,
    leaf: Leaf<K, V, M>,
)
    requires
        ordered::<K>(),
        row.len() > 0 ==> row_ok(s, row, None, None),
        row_owned(s, row),
        !s.leaves.dom().contains(at),
        leaf.wf(),
        leaf@.items.len() > 0,
        forall|i: int|
            0 <= i < pairs_of(trees(s, row)).len() ==> lt(
                #[trigger] pairs_of(trees(s, row))[i].0,
                leaf@.items[0].0,
            ),
    ensures
        ({
            let u = Store { leaves: s.leaves.insert(at, leaf), ..s };
            let more = row.push(Piece { key: leaf@.items[0].0, at, h: 0 });
            &&& row_ok(u, more, None, None)
            &&& row_owned(u, more)
            &&& trees(u, more) == trees(s, row).push(Tree::Leaf { at, leaf: leaf@ })
            &&& trees(u, row) == trees(s, row)
        }),
{
    let u = Store { leaves: s.leaves.insert(at, leaf), ..s };
    let key = leaf@.items[0].0;
    let p = Piece { key, at, h: 0 };
    let more = row.push(p);
    let t = Tree::Leaf { at, leaf: leaf@ };
    let ts = trees(s, row);
    let us = ts.push(t);
    let n = row.len() as int;
    assert(abs(u, at, 0) == t);
    assert forall|i: int| 0 <= i < n implies {
        &&& held(u, (#[trigger] row[i]).at, row[i].h)
        &&& abs(u, row[i].at, row[i].h) == ts[i]
        &&& !has_leaf(ts[i], at)
    } by {
        lemma_held_dom(s, row[i].at, row[i].h);
        lemma_abs_kept(s, u, row[i].at, row[i].h);
    }
    assert(trees(u, row) =~= ts);
    assert forall|i: int| 0 <= i < more.len() implies held(u, (#[trigger] more[i]).at, more[i].h)
        && abs(u, more[i].at, more[i].h) == us[i] by {
        if i < n {
            assert(more[i] == row[i]);
        }
    }
    assert(trees(u, more) =~= us);
    assert forall|i: int| 0 <= i < more.len() implies stands(#[trigger] us[i], more[i], M)
        && distinct(us[i]) by {
        if i < n {
            assert(us[i] == ts[i] && more[i] == row[i]);
        }
    }
    assert forall|i: int, j: int|
        #![trigger us[i], us[j]]
        0 <= i < us.len() && 0 <= j < us.len() && i != j implies apart(us[i], us[j]) by {
        if i < n {
            assert(us[i] == ts[i] && row[i] == row[i]);
        }
        if j < n {
            assert(us[j] == ts[j] && row[j] == row[j]);
        }
        if i == n || j == n {
            reveal(apart);
        }
    }
    lemma_ord_continued(row, ts, p, t, M);
    assert(row_owned(u, more)) by {
        lemma_any_concat(ts, seq![t]);
        lemma_one(t);
        assert(ts + seq![t] =~= us);
    }
}

} // verus!
