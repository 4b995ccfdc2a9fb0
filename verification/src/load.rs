//! Building a whole tree from a sorted stream.
use crate::allocator::{Addr, NodeAllocator, Store};
use crate::bulk::{cut, held_back, held_items};
use crate::entries::sorted;
use crate::key::{group_order, lt, ordered, Key};
use crate::leaf::{half, Leaf, LeafView};
use crate::lemmas::{
    lemma_chained_replace, lemma_cut, lemma_leaf_pairs, lemma_leaves_concat, lemma_one,
    lemma_pairs_concat, lemma_three,
};
use crate::model::{
    abs, chained, from, group_unfold, held, high, leaves, leaves_of, low, pairs, pairs_of, size,
    sound, Link, Tree,
};
use crate::packing::{
    dense, keyed, law_lowest, lemma_fewer, lemma_spread_none, lemma_spread_step, lowest, parts,
    spread, tiers,
};
use crate::progress::{
    carried, lemma_loads_kept, lemma_lowest, levels_lined, levels_ok, span, TreeProgress,
};
use crate::row::{
    lemma_leaf_added, lemma_recast, lemma_row_owned, lemma_upright_shape, row_ok, row_owned, seps,
    spliced, stands, trees, Piece,
};
use crate::tree::{fresh, fresh_default, BPlusTree};
use vstd::arithmetic::power::pow;
use vstd::prelude::*;
use vstd::std_specs::iter::IteratorSpec;

verus! {

broadcast use group_unfold;

/// The leaf at `a`, as a piece of a row.
pub open spec fn leaf_piece<K: Key, V, const M: usize>(s: Store<K, V, M>, a: Addr) -> Piece<K> {
    Piece { key: s.leaves[a]@.items[0].0, at: a, h: 0 }
}

/// The leaf that is held back, as a row.
pub open spec fn held_row<K: Key, V, const M: usize>(
    s: Store<K, V, M>,
    held: Option<Addr>,
) -> Seq<Piece<K>> {
    match held {
        Some(q) => seq![leaf_piece(s, q)],
        None => Seq::empty(),
    }
}

/// How many pairs each leaf holds.
pub open spec fn leaf_sizes<K, V>(ls: Seq<Link<K, V>>) -> Seq<nat> {
    Seq::new(ls.len(), |i: int| ls[i].leaf.items.len())
}

/// The tree of height `h` holds its `n` pairs in as few nodes as it takes on every level, packed to
/// the left, under first keys; so it is as low as a tree with `n` pairs can be.
pub open spec fn compact<K, V>(t: Tree<K, V>, h: nat, n: nat, m: usize) -> bool {
    &&& n > 0 ==> leaf_sizes(leaves(t)) == spread(n, m)
    &&& dense(t, h, m)
    &&& keyed(t)
    &&& n <= pow(m as int, h + 1)
    &&& h > 0 ==> pow(m as int, h) < n
}

/// The number of leaves that `n` pairs take; without pairs there is one, which is empty.
pub open spec fn leaves_for(n: nat, m: usize) -> nat {
    if n == 0 {
        1
    } else {
        parts(n, m)
    }
}

/// The row `row`, followed by the leaf that is held back, owns the store; with the pairs `rest`
/// that are still to come, it holds `all`.
pub open spec fn loaded<K: Key, V, const M: usize>(
    s: Store<K, V, M>,
    row: Seq<Piece<K>>,
    held: Option<Addr>,
    rest: Seq<(K, V)>,
    all: Seq<(K, V)>,
) -> bool {
    let whole = row + held_row(s, held);
    &&& row_ok(s, whole, None, None)
    &&& row_owned(s, whole)
    &&& pairs_of(trees(s, whole)) + rest == all
    &&& leaves_of(trees(s, whole)).len() > 0
    &&& leaves_of(trees(s, whole)).last().leaf.next is None
    &&& held_back(s, held, rest.len())
    &&& chained(leaves_of(trees(s, whole)))
    &&& leaf_sizes(leaves_of(trees(s, row))) + spread((held_items(s, held) + rest).len(), M)
        == spread(all.len(), M)
}

/// The first leaf of the stream.
proof fn lemma_first<K: Key, V, const M: usize>(
    s: Store<K, V, M>,
    u: Store<K, V, M>,
    a: Addr,
    held2: Option<Addr>,
    rest2: Seq<(K, V)>,
    all: Seq<(K, V)>,
)
    requires
        M >= 3,
        ordered::<K>(),
        s.is_empty(),
        s.unbounded(),
        sorted(all),
        all.len() > 0,
        held_back(u, held2, rest2.len()),
        held_items(u, held2) + rest2 == all.skip(cut(all.len() as int, M)),
        u.leaves[a].wf(),
        u.leaves[a]@ == (LeafView { items: all.take(cut(all.len() as int, M)), next: held2 }),
        held2 is None <==> cut(all.len() as int, M) == all.len(),
        held2 is None ==> u == (Store { leaves: s.leaves.insert(a, u.leaves[a]), ..s }),
        held2 matches Some(q) ==> {
            &&& q != a
            &&& u == (Store {
                leaves: s.leaves.insert(a, u.leaves[a]).insert(q, u.leaves[q]),
                ..s
            })
        },
    ensures
        loaded(u, seq![leaf_piece(u, a)], held2, rest2, all),
{
    let x = u.leaves[a];
    let p = leaf_piece(u, a);
    let n = cut(all.len() as int, M);
    assert(leaf_sizes(leaves_of(trees(u, seq![p]))) =~= seq![n as nat]) by {
        let t = abs(u, a, 0);
        assert(seq![p][0].at == a);
        assert(trees(u, seq![p]) =~= seq![t]);
        lemma_one(t);
    }
    lemma_spread_step(all.len(), M);
    match held2 {
        None => {
            let row = seq![p];
            let t = abs(u, a, 0);
            assert(row + held_row(u, held2) =~= row);
            assert(row[0].at == a);
            assert(trees(u, row) =~= seq![t]);
            assert(trees(u, row)[0] == t);
            assert(seps(row) =~= Seq::<K>::empty());
            lemma_one(t);
            lemma_leaf_pairs(t);
            assert(chained(leaves_of(seq![t]))) by {
                reveal(chained);
            }
            assert(x@.items + rest2 =~= all);
        },
        Some(q) => {
            let y = u.leaves[q];
            let s1 = Store { leaves: s.leaves.insert(a, y), ..s };
            let row1 = seq![Piece { key: p.key, at: a, h: 0 }];
            let t1 = abs(s1, a, 0);
            assert(row1[0].at == a);
            assert(trees(s1, row1) =~= seq![t1]);
            lemma_one(t1);
            lemma_leaf_pairs(t1);
            assert(all.take(n) + all.skip(n) =~= all);
            lemma_both_sorted(x@.items, y@.items, rest2, all);
            lemma_leaf_added(s1, a, q, x, y, None);
            assert(s1.leaves.insert(a, x).insert(q, y) =~= u.leaves);
            let row = seq![p, leaf_piece(u, q)];
            lemma_row_owned(s1, u, row1, row);
            assert(seq![p] + held_row(u, held2) =~= row);
            assert(x@.items + y@.items + rest2 =~= all);
        },
    }
}

/// What has been read off a sorted stream is sorted.
proof fn lemma_both_sorted<K: Key, V>(
    x: Seq<(K, V)>,
    y: Seq<(K, V)>,
    rest: Seq<(K, V)>,
    all: Seq<(K, V)>,
)
    requires
        sorted(all),
        x + (y + rest) == all,
    ensures
        sorted(x + y),
{
    let xy = x + y;
    assert forall|i: int, j: int|
        #![trigger xy[i], xy[j]]
        0 <= i < j < xy.len() implies lt(xy[i].0, xy[j].0) by {
        assert(all[i] == xy[i] && all[j] == xy[j]);
    }
}

/// The next leaf of the stream: the one that was held back, with a new one behind it, or as the
/// last.
proof fn lemma_next<K: Key, V, const M: usize>(
    s: Store<K, V, M>,
    u: Store<K, V, M>,
    row: Seq<Piece<K>>,
    p: Addr,
    rest: Seq<(K, V)>,
    held2: Option<Addr>,
    rest2: Seq<(K, V)>,
    all: Seq<(K, V)>,
)
    requires
        M >= 3,
        ordered::<K>(),
        sorted(all),
        loaded(s, row, Some(p), rest, all),
        held_back(u, held2, rest2.len()),
        ({
            let part = s.leaves[p]@.items + rest;
            let n = cut(part.len() as int, M);
            &&& held_items(u, held2) + rest2 == part.skip(n)
            &&& u.leaves[p].wf()
            &&& u.leaves[p]@ == (LeafView { items: part.take(n), next: held2 })
            &&& held2 is None <==> n == part.len()
            &&& held2 is None ==> u == s
        }),
        held2 matches Some(q) ==> {
            &&& q != p
            &&& !s.leaves.dom().contains(q)
            &&& u == (Store {
                leaves: s.leaves.insert(p, u.leaves[p]).insert(q, u.leaves[q]),
                ..s
            })
        },
    ensures
        loaded(u, row.push(leaf_piece(u, p)), held2, rest2, all),
        leaf_piece(u, p).key == leaf_piece(s, p).key,
        trees(u, row) == trees(s, row),
{
    broadcast use group_order;

    let x = u.leaves[p];
    let old = s.leaves[p]@.items;
    let part = old + rest;
    let n = cut(part.len() as int, M);
    let whole = row + held_row(s, Some(p));
    let i = row.len() as int;
    let ts = trees(s, whole);
    let t = abs(s, p, 0);
    assert(whole[i] == leaf_piece(s, p));
    assert(ts[i] == t);
    assert(ts.subrange(i, i + 1) =~= seq![t]);
    assert(ts.take(i) =~= trees(s, row));
    assert(ts.skip(i + 1) =~= Seq::<Tree<K, V>>::empty());
    assert(ts =~= trees(s, row).push(t));
    lemma_one(t);
    lemma_leaf_pairs(t);
    lemma_pairs_concat(trees(s, row), seq![t]);
    assert(trees(s, row) + seq![t] =~= ts);
    assert(pairs_of(trees(s, row)) + part =~= all);
    assert(x@.items[0] == old[0]);
    lemma_spread_step(part.len(), M);
    assert(trees(u, row) == trees(s, row) ==> leaf_sizes(
        leaves_of(trees(u, row.push(leaf_piece(u, p)))),
    ) + spread((held_items(u, held2) + rest2).len(), M) == spread(all.len(), M)) by {
        let t2 = abs(u, p, 0);
        let ts2 = trees(u, row.push(leaf_piece(u, p)));
        let was = leaf_sizes(leaves_of(trees(u, row)));
        let left = spread((held_items(u, held2) + rest2).len(), M);
        assert(ts2 =~= trees(u, row) + seq![t2]);
        lemma_leaves_concat(trees(u, row), seq![t2]);
        lemma_one(t2);
        assert(leaf_sizes(leaves_of(ts2)) =~= was + seq![n as nat]);
        assert(was + seq![n as nat] + left =~= was + (seq![n as nat] + left));
    }
    match held2 {
        None => {
            assert(rest.len() == 0);
            assert(rest2.len() == 0) by {
                assert((held_items(u, held2) + rest2).len() == 0);
            }
            assert(row.push(leaf_piece(u, p)) + held_row(u, held2) =~= whole);
            assert(rest =~= rest2);
        },
        Some(q) => {
            let y = u.leaves[q];
            let lo = low(seps(whole), i, None);
            let hi = high(seps(whole), i, None);
            assert(hi is None);
            assert(from(lo, x@.items[0].0)) by {
                if i > 0 {
                    assert(seps(whole)[i - 1] == whole[i].key);
                }
            }
            assert(x@.items + (y@.items + rest2) =~= part);
            assert(sorted(part)) by {
                let k = pairs_of(trees(s, row)).len();
                assert forall|a: int, b: int|
                    #![trigger part[a], part[b]]
                    0 <= a < b < part.len() implies lt(part[a].0, part[b].0) by {
                    assert(all[k + a] == part[a] && all[k + b] == part[b]);
                }
            }
            lemma_both_sorted(x@.items, y@.items, rest2, part);
            lemma_leaf_added(s, p, q, x, y, lo);
            let new = seq![leaf_piece(u, p), leaf_piece(u, q)];
            lemma_recast(s, u, whole, i, i + 1, new, None, None);
            let whole2 = spliced(whole, i, i + 1, new);
            lemma_row_owned(s, u, whole, whole2);
            lemma_cut(ts, i, i + 1);
            lemma_three(ts.take(i), trees(u, new), ts.skip(i + 1));
            lemma_chained_replace(
                leaves_of(ts.take(i)),
                leaves_of(seq![t]),
                leaves_of(trees(u, new)),
                leaves_of(ts.skip(i + 1)),
            );
            assert(whole2 =~= row.push(leaf_piece(u, p)) + held_row(u, held2));
            assert(trees(u, row) =~= trees(s, row)) by {
                let us = trees(u, whole2);
                assert(us.take(i) =~= trees(s, row));
                assert(us.take(i) =~= trees(u, row));
            }
            assert(pairs_of(Seq::<Tree<K, V>>::empty()) =~= Seq::<(K, V)>::empty()) by {
                lemma_pairs_concat(Seq::<Tree<K, V>>::empty(), Seq::<Tree<K, V>>::empty());
                assert(Seq::<Tree<K, V>>::empty() + Seq::<Tree<K, V>>::empty() =~= Seq::<
                    Tree<K, V>,
                >::empty());
            }
            assert(pairs_of(trees(u, whole2)) + rest2 =~= all);
        },
    }
}

/// Rearranging the row keeps what is loaded.
proof fn lemma_pushed<K: Key, V, const M: usize>(
    s: Store<K, V, M>,
    row: Seq<Piece<K>>,
    u: Store<K, V, M>,
    row2: Seq<Piece<K>>,
    held: Option<Addr>,
    rest: Seq<(K, V)>,
    all: Seq<(K, V)>,
)
    requires
        loaded(s, row, held, rest, all),
        carried(s, row + held_row(s, held), u, row2 + held_row(s, held)),
        trees(u, held_row(s, held)) == trees(s, held_row(s, held)),
    ensures
        loaded(u, row2, held, rest, all),
        held_items(u, held) == held_items(s, held),
        held_row(u, held) == held_row(s, held),
{
    let tail = held_row(s, held);
    let a = leaves_of(trees(s, row));
    let b = leaves_of(trees(u, row2));
    let c = leaves_of(trees(s, tail));
    assert(trees(s, row + tail) =~= trees(s, row) + trees(s, tail));
    assert(trees(u, row2 + tail) =~= trees(u, row2) + trees(u, tail));
    lemma_leaves_concat(trees(s, row), trees(s, tail));
    lemma_leaves_concat(trees(u, row2), trees(u, tail));
    assert(a =~= (a + c).take((a + c).len() - c.len()));
    assert(b =~= (b + c).take((b + c).len() - c.len()));
    if let Some(q) = held {
        assert(tail[0].at == q);
        assert(trees(s, tail)[0] == abs(s, q, 0));
        assert(trees(u, tail)[0] == abs(u, q, 0));
        assert(u.leaves[q]@ == s.leaves[q]@);
        let whole = row2 + tail;
        let i = row2.len() as int;
        assert(whole[i].at == q && whole[i].h == 0);
        assert(crate::model::held(u, q, 0));
    }
}

/// A load in progress: the levels hold all but the leaf that is held back and the pairs that are
/// still to come.
pub open spec fn ready<K: Key, V, const M: usize>(
    s: Store<K, V, M>,
    progress: TreeProgress<K>,
    held: Option<Addr>,
    rest: Seq<(K, V)>,
    all: Seq<(K, V)>,
) -> bool {
    let states = progress.levels();
    &&& states.len() > 0
    &&& levels_ok(s, states, 0)
    &&& levels_lined(s, states, 1)
    &&& loaded(s, span(states, 0, states.len() as int), held, rest, all)
    &&& progress.count() + held_items(s, held).len() + rest.len() == all.len()
    &&& states[0].full() is None ==> (states[0].filling() matches Some((k, a)) ==> size(
        abs(s, a, 1),
    ) >= 2)
}

/// What is held back, with what is still to come, is sorted.
proof fn lemma_rest_sorted<K: Key, V, const M: usize>(
    s: Store<K, V, M>,
    row: Seq<Piece<K>>,
    held: Option<Addr>,
    rest: Seq<(K, V)>,
    all: Seq<(K, V)>,
)
    requires
        loaded(s, row, held, rest, all),
        sorted(all),
    ensures
        sorted(held_items(s, held) + rest),
{
    lemma_loaded_len(s, row, held, rest, all);
    let part = held_items(s, held) + rest;
    let k = all.len() - part.len();
    assert forall|a: int, b: int|
        #![trigger part[a], part[b]]
        0 <= a < b < part.len() implies lt(part[a].0, part[b].0) by {
        assert(all[k + a] == part[a] && all[k + b] == part[b]);
    }
}

/// How the pairs are spread over the row, the leaf that is held back, and what is still to come.
proof fn lemma_loaded_len<K: Key, V, const M: usize>(
    s: Store<K, V, M>,
    row: Seq<Piece<K>>,
    held: Option<Addr>,
    rest: Seq<(K, V)>,
    all: Seq<(K, V)>,
)
    requires
        loaded(s, row, held, rest, all),
    ensures
        pairs_of(trees(s, row)) + held_items(s, held) + rest == all,
        pairs_of(trees(s, row + held_row(s, held))).len() <= all.len(),
{
    let tail = held_row(s, held);
    let whole = row + tail;
    assert(trees(s, whole) =~= trees(s, row) + trees(s, tail));
    lemma_pairs_concat(trees(s, row), trees(s, tail));
    match held {
        Some(q) => {
            let t = abs(s, q, 0);
            assert(tail[0].at == q);
            assert(trees(s, tail) =~= seq![t]);
            lemma_one(t);
            lemma_leaf_pairs(t);
        },
        None => {
            assert(trees(s, whole) =~= trees(s, row));
        },
    }
    assert(pairs_of(trees(s, row)) + held_items(s, held) + rest =~= all);
}

/// A row of one leaf.
proof fn lemma_one_leaf<K: Key, V, const M: usize>(s: Store<K, V, M>, p: Piece<K>)
    requires
        p.h == 0,
        row_ok(s, seq![p], None, None),
        row_owned(s, seq![p]),
        chained(leaves_of(trees(s, seq![p]))),
    ensures
        held(s, p.at, 0),
        sound(abs(s, p.at, 0), 0, M, None, None),
        crate::root::owned(s, abs(s, p.at, 0)),
        pairs(abs(s, p.at, 0)) == pairs_of(trees(s, seq![p])),
        pairs(abs(s, p.at, 0)) == s.leaves[p.at]@.items,
        leaves(abs(s, p.at, 0)) == leaves_of(trees(s, seq![p])),
{
    let row = seq![p];
    let t = abs(s, p.at, 0);
    assert(row[0] == p);
    assert(trees(s, row) =~= seq![t]);
    assert(trees(s, row)[0] == t);
    assert(seps(row) =~= Seq::<K>::empty());
    assert(stands(trees(s, row)[0], row[0], M));
    assert(low(seps(row), 0, None::<K>) is None && high(seps(row), 0, None::<K>) is None);
    lemma_one(t);
    lemma_leaf_pairs(t);
}

/// The trees of a row that stay, one by one.
proof fn lemma_tail_kept<K: Key, V, const M: usize>(
    s: Store<K, V, M>,
    u: Store<K, V, M>,
    p: Piece<K>,
    tail: Seq<Piece<K>>,
)
    requires
        trees(u, seq![p] + tail) == trees(s, seq![p] + tail),
    ensures
        trees(u, tail) == trees(s, tail),
        abs(u, p.at, p.h) == abs(s, p.at, p.h),
{
    let both = seq![p] + tail;
    assert(trees(u, tail) =~= trees(u, both).skip(1));
    assert(trees(s, tail) =~= trees(s, both).skip(1));
    assert(both[0] == p);
    assert(trees(u, both)[0] == abs(u, p.at, p.h));
    assert(trees(s, both)[0] == abs(s, p.at, p.h));
}

/// Where things are spread over two nodes or more, every node is at least half full.
proof fn lemma_spread_filled(n: nat, m: usize)
    requires
        m >= 3,
    ensures
        spread(n, m).len() >= 2 ==> forall|i: int|
            0 <= i < spread(n, m).len() ==> #[trigger] spread(n, m)[i] >= half(m),
{
    if parts(n, m) >= 2 {
        if n == 0 {
            lemma_spread_none(m);
            assert(spread(n, m).len() == parts(n, m));
        }
        lemma_fewer(n, m);
    }
}

/// The height of a tree whose leaves are packed, and which is as low as one over its leaves can be.
proof fn lemma_compact<K, V>(t: Tree<K, V>, h: nat, n: nat, m: usize)
    requires
        m >= 3,
        n == 0 ==> h == 0 && t is Leaf,
        n > 0 ==> leaf_sizes(leaves(t)) == spread(n, m),
        n > 0 ==> lowest(leaves(t).len(), m, h),
        dense(t, h, m),
        keyed(t),
    ensures
        compact(t, h, n, m),
        leaves(t).len() == leaves_for(n, m),
{
    reveal(pow);
    let p = pow(m as int, h);
    assert(pow(m as int, h + 1) == m * p);
    if n == 0 {
        assert(p == 1);
        lemma_leaf_pairs(t);
    } else {
        let k = leaves(t).len();
        assert(leaf_sizes(leaves(t)).len() == k);
        assert(k == parts(n, m));
        lemma_fewer(n, m);
        assert(n <= m * p) by (nonlinear_arith)
            requires
                n <= k * m,
                k <= p,
                m > 0,
        ;
        if h > 0 {
            let q = pow(m as int, (h - 1) as nat);
            assert(p == m * q);
            assert(p < n) by (nonlinear_arith)
                requires
                    (k - 1) * m < n,
                    q < k,
                    p == m * q,
                    m > 0,
            ;
        }
    }
}

impl<K: Key, V, const M: usize, A: NodeAllocator<K, V, M>> BPlusTree<K, V, M, A> {
    /// Builds a tree from pairs sorted by key, in one pass. It is as low as a tree with these pairs
    /// can be: on every level, the leaves among them, all nodes but the last two are full.
    pub fn from_sorted_iter<I: core::iter::Iterator<Item = (K, V)>>(iter: I) -> (r: Self) where
        A: Default,

        requires
            M >= 3,
            ordered::<K>(),
            fresh_default::<K, V, M, A>(),
            iter.obeys_prophetic_iter_laws(),
            iter.decrease() is Some,
            sorted(iter.remaining()),
            iter.remaining().len() <= usize::MAX,
        ensures
            r.wf(),
            r@ == iter.remaining(),
            compact(r.tree(), r.levels(), r@.len(), M),
            r.store().leaves.dom().len() == leaves_for(r@.len(), M),
            r.store().inners.dom().len() == tiers(leaves_for(r@.len(), M), M),
    {
        Self::from_sorted_iter_in(iter, A::default())
    }

    /// Builds a tree whose nodes come from `alloc` from pairs sorted by key, in one pass. It is as
    /// low as a tree with these pairs can be: on every level, the leaves among them, all nodes but
    /// the last two are full.
    pub fn from_sorted_iter_in<I: core::iter::Iterator<Item = (K, V)>>(iter: I, alloc: A) -> (r:
        Self)
        requires
            M >= 3,
            ordered::<K>(),
            fresh::<K, V, M, A>(alloc),
            iter.obeys_prophetic_iter_laws(),
            iter.decrease() is Some,
            sorted(iter.remaining()),
            iter.remaining().len() <= usize::MAX,
        ensures
            r.wf(),
            r@ == iter.remaining(),
            compact(r.tree(), r.levels(), r@.len(), M),
            r.store().leaves.dom().len() == leaves_for(r@.len(), M),
            r.store().inners.dom().len() == tiers(leaves_for(r@.len(), M), M),
    {
        let mut alloc = alloc;
        let ghost all = iter.remaining();
        let ghost s0 = alloc.store();
        proof {
            alloc.lemma_room();
        }
        let mut stream = Leaf::<K, V, M>::drain_sorted_iter(iter);
        assert(held_items(s0, None) + all =~= all);
        let first = match stream.next(&mut alloc) {
            None => {
                let r = Self::new_in(alloc);
                proof {
                    r.lemma_wf();
                    r.lemma_slots();
                    lemma_compact(r.tree(), 0, 0, M);
                }
                return r;
            },
            Some(first) => first,
        };
        let ghost s1 = alloc.store();
        let ghost p1 = leaf_piece(s1, first);
        let ghost held1 = stream.held();
        let ghost rest1 = stream.source().remaining();
        proof {
            lemma_first(s0, s1, first, held1, rest1, all);
            lemma_rest_sorted(s1, seq![p1], held1, rest1, all);
        }
        let first_key = *alloc.leaf(first).first_key();
        let second = match stream.next(&mut alloc) {
            None => {
                let len = alloc.leaf(first).len();
                proof {
                    let t = abs(s1, first, 0);
                    assert(seq![p1] + held_row(s1, held1) =~= seq![p1]);
                    lemma_one_leaf(s1, p1);
                    assert(pairs_of(trees(s1, seq![p1])) + rest1 =~= all);
                }
                let r = Self::from_parts(first, 0, len, alloc);
                proof {
                    assert(held_items(s1, held1) + rest1 =~= Seq::<(K, V)>::empty());
                    lemma_spread_none(M);
                    let t = r.tree();
                    assert(leaf_sizes(leaves(t)) + Seq::<nat>::empty() =~= leaf_sizes(leaves(t)));
                    law_lowest(t, 0, M);
                    lemma_compact(t, 0, all.len(), M);
                    r.lemma_slots();
                }
                return r;
            },
            Some(second) => second,
        };
        let ghost s2 = alloc.store();
        let ghost p2 = leaf_piece(s2, second);
        let ghost held2 = stream.held();
        let ghost rest2 = stream.source().remaining();
        proof {
            lemma_next(s1, s2, seq![p1], second, rest1, held2, rest2, all);
            assert(seq![p1].push(p2) =~= seq![p1, p2]);
            assert(trees(s1, seq![p1])[0] == abs(s1, first, 0));
            assert(trees(s2, seq![p1])[0] == abs(s2, first, 0));
        }
        let second_key = *alloc.leaf(second).first_key();
        let mut progress = TreeProgress::new();
        let ghost none = Seq::<Piece<K>>::empty();
        let ghost tail2 = held_row(s2, held2);
        proof {
            assert(span(progress.levels(), 0, 0) =~= none);
            assert(none + seq![p1] + (seq![p2] + tail2) =~= seq![p1, p2] + tail2);
            lemma_loaded_len(s2, seq![p1, p2], held2, rest2, all);
            lemma_lowest(s2, progress.levels(), first);
        }
        progress.push(0, first_key, first, &mut alloc, Ghost(seq![p2] + tail2), Ghost(0int));
        let ghost s3 = alloc.store();
        let ghost row3 = span(progress.levels(), 0, progress.levels().len() as int);
        proof {
            assert(row3 + (seq![p2] + tail2) =~= row3.push(p2) + tail2);
            assert(row3 + seq![p2] + tail2 =~= row3.push(p2) + tail2);
            lemma_tail_kept(s2, s3, p2, tail2);
            lemma_pushed(s2, seq![p1, p2], s3, row3.push(p2), held2, rest2, all);
            lemma_loaded_len(s3, row3.push(p2), held2, rest2, all);
            lemma_lowest(s3, progress.levels(), second);
        }
        progress.push(0, second_key, second, &mut alloc, Ghost(tail2), Ghost(0int));
        proof {
            let s4 = alloc.store();
            let row4 = span(progress.levels(), 0, progress.levels().len() as int);
            lemma_pushed(s3, row3.push(p2), s4, row4, held2, rest2, all);
            assert((held_items(s1, held1) + rest1).len() + s1.leaves[first]@.items.len()
                == all.len());
            assert((held_items(s2, held2) + rest2).len() + s2.leaves[second]@.items.len() == (
            held_items(s1, held1) + rest1).len());
        }
        loop
            invariant_except_break
                M >= 3,
                ordered::<K>(),
                sorted(all),
                all.len() <= usize::MAX,
                alloc.wf(),
                stream.ended() ==> stream.source().remaining().len() == 0,
                !stream.ended() ==> stream.source().obeys_prophetic_iter_laws()
                    && stream.source().decrease() is Some,
                stream.held() is None ==> stream.source().remaining().len() == 0,
                ready(
                    alloc.store(),
                    progress,
                    stream.held(),
                    stream.source().remaining(),
                    all,
                ),
            ensures
                M >= 3,
                ordered::<K>(),
                alloc.wf(),
                ready(alloc.store(), progress, None, Seq::empty(), all),
            decreases stream.stage(), stream.work(),
        {
            let ghost s = alloc.store();
            let ghost held = stream.held();
            let ghost rest = stream.source().remaining();
            let ghost row = span(progress.levels(), 0, progress.levels().len() as int);
            proof {
                lemma_rest_sorted(s, row, held, rest, all);
            }
            match stream.next(&mut alloc) {
                None => {
                    proof {
                        assert(rest =~= Seq::<(K, V)>::empty());
                    }
                    break ;
                },
                Some(leaf) => {
                    let ghost t = alloc.store();
                    let ghost next = stream.held();
                    let ghost left = stream.source().remaining();
                    let ghost p = leaf_piece(t, leaf);
                    let ghost tail = held_row(t, next);
                    let key = *alloc.leaf(leaf).first_key();
                    proof {
                        lemma_next(s, t, row, leaf, rest, next, left, all);
                        assert(row + seq![p] + tail =~= row.push(p) + tail);
                        lemma_loaded_len(t, row.push(p), next, left, all);
                        lemma_lowest(t, progress.levels(), leaf);
                        lemma_loads_kept(
                            s,
                            t,
                            progress.levels(),
                            0,
                            progress.levels().len() as int,
                        );
                    }
                    progress.push(0, key, leaf, &mut alloc, Ghost(tail), Ghost(0int));
                    proof {
                        let u = alloc.store();
                        let row2 = span(progress.levels(), 0, progress.levels().len() as int);
                        lemma_pushed(t, row.push(p), u, row2, next, left, all);
                        assert((held_items(t, next) + left).len() + t.leaves[leaf]@.items.len()
                            == (held_items(s, held) + rest).len());
                    }
                },
            }
        }
        let ghost s = alloc.store();
        proof {
            let row = span(progress.levels(), 0, progress.levels().len() as int);
            assert(row + held_row(s, None) =~= row);
            assert(pairs_of(trees(s, row)) + Seq::<(K, V)>::empty() =~= pairs_of(trees(s, row)));
        }
        let (root, height, len) = progress.build(&mut alloc);
        proof {
            let t = abs(alloc.store(), root, height as nat);
            law_lowest(t, height as nat, M);
            lemma_spread_filled(all.len(), M);
            assert(leaf_sizes(leaves(t)) == spread(all.len(), M)) by {
                assert(held_items(s, None) + Seq::<(K, V)>::empty() =~= Seq::<(K, V)>::empty());
                lemma_spread_none(M);
                assert(leaf_sizes(leaves(t)) + Seq::<nat>::empty() =~= leaf_sizes(leaves(t)));
            }
            assert forall|i: int| 0 <= i < leaves(t).len() implies (
            #[trigger] leaves(t)[i]).leaf.items.len() >= half(M) by {
                assert(leaf_sizes(leaves(t))[i] >= half(M));
            }
            lemma_upright_shape(t, height as nat, M);
        }
        let r = Self::from_parts(root, height, len, alloc);
        proof {
            lemma_compact(r.tree(), height as nat, all.len(), M);
            r.lemma_slots();
        }
        r
    }
}

} // verus!
