//! Lemmas on whole trees: ownership of the store, growing and shrinking at the root, and the
//! bound on the height.
use crate::allocator::{Addr, Store};
use crate::inner::Inner;
use crate::key::Key;
use crate::leaf::half;
use crate::lemmas::{
    lemma_all_held_dom, lemma_leaf_pairs, lemma_leaves_concat, lemma_one, lemma_pairs_concat,
    lemma_row_kept, lemma_unwrap,
};
use crate::model::{
    abs, all_held, any_inner, distinct, filled, forest, group_unfold, has_inner, has_leaf, held,
    high, leaves, leaves_of, low, moved, ord, pairs, pairs_of, replaced, same_ends, shape,
    shape_row, size, sound, sound_row, swapped, Tree,
};
use vstd::arithmetic::logarithm::log;
use vstd::arithmetic::power::{lemma_pow_adds, lemma_pow_multiplies, lemma_pow_positive, pow};
use vstd::prelude::*;

verus! {

broadcast use group_unfold;

/// The store holds the nodes of the tree and no others.
pub open spec fn owned<K: Key, V, const M: usize>(s: Store<K, V, M>, t: Tree<K, V>) -> bool {
    &&& forall|a: Addr| #[trigger] s.leaves.dom().contains(a) ==> has_leaf(t, a)
    &&& forall|a: Addr| #[trigger] s.inners.dom().contains(a) ==> has_inner(t, a)
    &&& s.raw_leaves == Set::<Addr>::empty()
    &&& s.raw_inners == Set::<Addr>::empty()
}

/// Replacing the tree that owns the store leaves a tree that does.
pub proof fn lemma_owned<K: Key, V, const M: usize>(
    s: Store<K, V, M>,
    u: Store<K, V, M>,
    t: Tree<K, V>,
    new: Tree<K, V>,
)
    requires
        owned(s, t),
        replaced(s, u, seq![t], seq![new]),
    ensures
        owned(u, new),
{
    reveal(moved);
    lemma_one(t);
    lemma_one(new);
}

/// A new root over a sound row.
pub proof fn lemma_crown<K: Key, V, const M: usize>(
    s: Store<K, V, M>,
    t: Store<K, V, M>,
    olds: Seq<Tree<K, V>>,
    h: nat,
    r: Addr,
    x: Inner<K, V, M>,
    lo: Option<K>,
    hi: Option<K>,
)
    requires
        all_held(t, x@.kids, h),
        sound_row(x@.keys, forest(t, x@.kids, h), h, M, lo, hi),
        1 <= x@.kids.len() <= M,
        replaced(s, t, olds, forest(t, x@.kids, h)),
        !t.inners.dom().contains(r),
    ensures
        ({
            let u = Store { inners: t.inners.insert(r, x), ..t };
            let row = forest(t, x@.kids, h);
            let new = Tree::Inner { at: r, keys: x@.keys, kids: row };
            &&& held(u, r, h + 1)
            &&& abs(u, r, h + 1) == new
            &&& sound(new, h + 1, M, lo, hi)
            &&& replaced(s, u, olds, seq![new])
        }),
{
    let u = Store { inners: t.inners.insert(r, x), ..t };
    let row = forest(t, x@.kids, h);
    let new = Tree::Inner { at: r, keys: x@.keys, kids: row };
    lemma_all_held_dom(t, x@.kids, h);
    lemma_row_kept(t, u, x@.kids, h);
    assert(abs(u, r, h + 1) == new);
    assert(shape(new, h + 1, M));
    assert(ord(new, lo, hi));
    assert(distinct(new));
    lemma_one(new);
    assert(replaced(s, u, olds, seq![new])) by {
        reveal(moved);
        assert forall|a: Addr| #![trigger u.inners.dom().contains(a)]
            u.inners.dom().contains(a) && !any_inner(seq![new], a) implies {
            &&& s.inners.dom().contains(a)
            &&& !any_inner(olds, a)
        } by {
            assert(t.inners.dom().contains(a));
        }
        assert forall|a: Addr| #![trigger s.inners.dom().contains(a)]
            s.inners.dom().contains(a) && !any_inner(olds, a) implies {
            &&& u.inners.dom().contains(a)
            &&& u.inners[a] == s.inners[a]
            &&& !any_inner(seq![new], a)
        } by {
            assert(t.inners.dom().contains(a));
        }
    }
}

/// A root with only one child, taken away.
pub proof fn lemma_uncrown<K: Key, V, const M: usize>(
    s: Store<K, V, M>,
    n: Addr,
    h: nat,
    lo: Option<K>,
    hi: Option<K>,
)
    requires
        held(s, n, h + 1),
        sound(abs(s, n, h + 1), h + 1, M, lo, hi),
        size(abs(s, n, h + 1)) == 1,
    ensures
        ({
            let u = Store { inners: s.inners.remove(n), ..s };
            let c = s.inners[n]@.kids[0];
            let t = abs(s, n, h + 1);
            let new = abs(u, c, h);
            &&& held(u, c, h)
            &&& sound(new, h, M, lo, hi)
            &&& filled(new, M)
            &&& leaves(new) == leaves(t)
            &&& replaced(s, u, seq![t], seq![new])
        }),
{
    let u = Store { inners: s.inners.remove(n), ..s };
    let ns = s.inners[n]@.kids;
    let keys = s.inners[n]@.keys;
    let ts = forest(s, ns, h);
    let c = ns[0];
    let t = abs(s, n, h + 1);
    lemma_unwrap(s, n, h + 1);
    lemma_all_held_dom(s, ns, h);
    lemma_row_kept(s, u, ns, h);
    assert(forest(u, ns, h)[0] == abs(u, c, h));
    let new = abs(u, c, h);
    assert(ts[0] == new);
    assert(ts =~= seq![new]);
    lemma_one(new);
    lemma_one(t);
    assert(low(keys, 0, lo) == lo && high(keys, 0, hi) == hi);
    assert(replaced(s, u, seq![t], seq![new])) by {
        reveal(moved);
    }
}

/// A tree of height `h` holds at least as many pairs as its root has items, times the minimum
/// occupancy for every level below.
pub proof fn lemma_min_pairs<K, V>(t: Tree<K, V>, h: nat, m: usize)
    requires
        shape(t, h, m),
        m >= 1,
    ensures
        pairs(t).len() >= size(t) * pow(half(m), h),
    decreases h, 0nat,
{
    reveal(pow);
    if t is Leaf {
        lemma_leaf_pairs(t);
        assert(size(t) * 1 == size(t));
    } else {
        lemma_min_row(t->kids, t->kids.len() as int, (h - 1) as nat, m);
        assert(t->kids.take(t->kids.len() as int) =~= t->kids);
        assert(pow(half(m), h) == half(m) * pow(half(m), (h - 1) as nat));
    }
}

proof fn lemma_min_row<K, V>(ts: Seq<Tree<K, V>>, i: int, h: nat, m: usize)
    requires
        shape_row(ts, h, m),
        0 <= i <= ts.len(),
        m >= 1,
    ensures
        pairs_of(ts.take(i)).len() >= i * (half(m) * pow(half(m), h)),
    decreases h, i + 1,
{
    let p = pow(half(m), h);
    let each = half(m) * p;
    lemma_pow_positive(half(m), h);
    if i > 0 {
        lemma_min_row(ts, i - 1, h, m);
        let t = ts[i - 1];
        lemma_min_pairs(t, h, m);
        assert(ts.take(i) =~= ts.take(i - 1) + seq![t]);
        lemma_pairs_concat(ts.take(i - 1), seq![t]);
        lemma_one(t);
        assert(size(t) * p >= each) by (nonlinear_arith)
            requires
                size(t) >= half(m),
                p > 0,
                each == half(m) * p,
        ;
        assert(i * each == (i - 1) * each + each) by (nonlinear_arith);
    } else {
        assert(0 * each == 0);
    }
}

/// The base-2 logarithm, rounded down.
pub proof fn lemma_log2(n: int)
    requires
        n >= 1,
    ensures
        log(2, n) >= 0,
        pow(2, log(2, n) as nat) <= n,
        n < 2 * pow(2, log(2, n) as nat),
    decreases n,
{
    reveal(log);
    reveal(pow);
    if n >= 2 {
        lemma_log2(n / 2);
        let l = log(2, n / 2);
        assert(log(2, n) == 1 + l);
        assert(pow(2, (l + 1) as nat) == 2 * pow(2, l as nat));
    } else {
        assert(log(2, n) == 0);
        assert(pow(2, 0) == 1);
    }
}

/// The largest height that a tree of fanout `m` can reach.
pub open spec fn height_bound(m: usize) -> int {
    (usize::BITS - 2) / log(2, half(m))
}

/// No tree that fits the address space is higher than the bound.
pub proof fn lemma_height_bound<K, V>(t: Tree<K, V>, h: nat, m: usize)
    requires
        shape(t, h, m),
        m >= 3,
        h > 0 ==> size(t) >= 2,
        pairs(t).len() <= usize::MAX,
    ensures
        h <= height_bound(m),
        height_bound(m) <= 62,
{
    lemma_min_pairs(t, h, m);
    let b = half(m);
    lemma_log2(b);
    let l = log(2, b);
    reveal(log);
    assert(l >= 1) by {
        vstd::arithmetic::logarithm::lemma_log_nonnegative(2, b / 2);
    }
    vstd::layout::unsigned_int_max_values();
    vstd::arithmetic::power2::lemma_pow2(usize::BITS as nat);
    assert(usize::MAX < pow(2, usize::BITS as nat));
    assert((usize::BITS - 2) / l <= usize::BITS - 2) by (nonlinear_arith)
        requires
            l >= 1,
            usize::BITS >= 2,
    ;
    if h > 0 {
        lemma_pow_positive(2, l as nat);
        lemma_pow_mono(pow(2, l as nat) as nat, b as nat, h);
        lemma_pow_positive(b, h);
        lemma_pow_multiplies(2, l as nat, h);
        let e = (l as nat) * h;
        assert(pow(2, e) <= pow(b, h));
        assert(2 * pow(b, h) <= pairs(t).len()) by (nonlinear_arith)
            requires
                pairs(t).len() >= size(t) * pow(b, h),
                size(t) >= 2,
                pow(b, h) > 0,
        ;
        lemma_pow_adds(2, 1, e);
        reveal(pow);
        assert(pow(2, 1) == 2 * pow(2, 0));
        assert(pow(2, 1 + e) < pow(2, usize::BITS as nat));
        if 1 + e >= usize::BITS {
            vstd::arithmetic::power::lemma_pow_increases(2, usize::BITS as nat, 1 + e);
        }
        assert(l * h <= usize::BITS - 2);
        assert(h <= (usize::BITS - 2) / l) by (nonlinear_arith)
            requires
                l * h <= usize::BITS - 2,
                l >= 1,
        ;
    } else {
        assert(0 <= (usize::BITS - 2) / l) by (nonlinear_arith)
            requires
                l >= 1,
                usize::BITS >= 2,
        ;
    }
}

proof fn lemma_pow_mono(a: nat, b: nat, e: nat)
    requires
        a <= b,
    ensures
        pow(a as int, e) <= pow(b as int, e),
        pow(a as int, e) >= 0,
    decreases e,
{
    reveal(pow);
    if e > 0 {
        lemma_pow_mono(a, b, (e - 1) as nat);
        let x = pow(a as int, (e - 1) as nat);
        let y = pow(b as int, (e - 1) as nat);
        assert(a * x <= b * y && a * x >= 0) by (nonlinear_arith)
            requires
                0 <= a <= b,
                0 <= x <= y,
        ;
    }
}

/// One node in the place of another: the new tree on its own.
pub proof fn lemma_swapped_one<K: Key, V, const M: usize>(
    s: Store<K, V, M>,
    u: Store<K, V, M>,
    t: Tree<K, V>,
    n: Addr,
    h: nat,
    lo: Option<K>,
    hi: Option<K>,
)
    requires
        swapped(s, u, seq![t], Seq::<K>::empty(), seq![n], h, lo, hi),
    ensures
        ({
            let new = abs(u, n, h);
            &&& held(u, n, h)
            &&& sound(new, h, M, lo, hi)
            &&& forest(u, seq![n], h) == seq![new]
            &&& pairs_of(forest(u, seq![n], h)) == pairs(new)
            &&& same_ends(leaves(t), leaves(new))
            &&& replaced(s, u, seq![t], seq![new])
        }),
{
    let new = abs(u, n, h);
    let news = forest(u, seq![n], h);
    assert(seq![n][0] == n);
    assert(news =~= seq![new]);
    assert(news[0] == new);
    lemma_one(t);
    lemma_one(new);
    let none = Seq::<K>::empty();
    assert(low(none, 0, lo) == lo && high(none, 0, hi) == hi);
}

/// Below the root every leaf is filled.
pub proof fn lemma_leaves_filled<K, V>(t: Tree<K, V>, h: nat, m: usize)
    requires
        shape(t, h, m),
        h > 0 || filled(t, m),
    ensures
        forall|i: int|
            0 <= i < leaves(t).len() ==> (#[trigger] leaves(t)[i]).leaf.items.len() >= half(m),
    decreases h, 0nat,
{
    if h == 0 {
        lemma_leaf_pairs(t);
    } else {
        let kids = t->kids;
        lemma_row_filled(kids, kids.len() as int, (h - 1) as nat, m);
        assert(kids.take(kids.len() as int) =~= kids);
    }
}

proof fn lemma_row_filled<K, V>(ts: Seq<Tree<K, V>>, i: int, h: nat, m: usize)
    requires
        shape_row(ts, h, m),
        0 <= i <= ts.len(),
    ensures
        forall|l: int|
            0 <= l < leaves_of(ts.take(i)).len() ==> (#[trigger] leaves_of(
                ts.take(i),
            )[l]).leaf.items.len() >= half(m),
    decreases h, i + 1,
{
    if i == 0 {
        reveal(leaves_of);
        assert(ts.take(i) =~= Seq::<Tree<K, V>>::empty());
    } else {
        lemma_row_filled(ts, i - 1, h, m);
        let t = ts[i - 1];
        lemma_leaves_filled(t, h, m);
        assert(ts.take(i) =~= ts.take(i - 1) + seq![t]);
        lemma_leaves_concat(ts.take(i - 1), seq![t]);
        lemma_one(t);
        let a = leaves_of(ts.take(i - 1));
        let b = leaves(t);
        assert forall|l: int| 0 <= l < (a + b).len() implies (#[trigger] (a
            + b)[l]).leaf.items.len() >= half(m) by {
            if l < a.len() {
                assert((a + b)[l] == a[l]);
            } else {
                assert((a + b)[l] == b[l - a.len()]);
            }
        }
    }
}

} // verus!
