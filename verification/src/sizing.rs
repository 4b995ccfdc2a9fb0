//! How many inner nodes a tree can need.
use crate::allocator::Addr;
use crate::leaf::{half, LeafView};
use crate::lemmas::{lemma_leaves_concat, lemma_one};
use crate::model::{filled, group_unfold, leaves, leaves_of, shape, shape_row, size, Tree};
use vstd::prelude::*;

verus! {

broadcast use group_unfold;

/// The number of inner nodes of a tree.
pub open spec fn inners<K, V>(t: Tree<K, V>) -> nat
    decreases t, 0nat,
{
    match t {
        Tree::Leaf { at, leaf } => 0,
        Tree::Inner { at, keys, kids } => 1 + inners_of(kids),
    }
}

/// The number of inner nodes of a row of trees.
pub open spec fn inners_of<K, V>(ts: Seq<Tree<K, V>>) -> nat
    decreases ts, 1nat,
{
    if ts.len() == 0 {
        0
    } else {
        inners_of(ts.drop_last()) + inners(ts.last())
    }
}

/// The number of inner nodes that suffices for a tree with `n` leaves, where every inner node but
/// the root has at least `min` children: as many as fit on the first level above the leaves, as
/// many as fit above those, and so on, as long as there can be two on a level; and the root.
pub open spec fn stacked(n: nat, min: nat) -> nat
    decreases n,
{
    if min < 2 || n / min < 2 {
        1
    } else {
        proof {
            assert(n / min < n) by (nonlinear_arith)
                requires
                    min >= 2,
                    n / min >= 2,
            ;
        }
        n / min + stacked(n / min, min)
    }
}

/// The number of inner slots that suffices for every tree with at most `leaves` leaves.
pub open spec fn worst_inners(leaves: nat, m: usize) -> nat {
    if leaves < 2 {
        0
    } else {
        stacked(leaves, half(m) as nat)
    }
}

/// How many inner nodes can stand on the first `h` levels above `n` leaves.
spec fn layers(h: nat, n: nat, min: nat) -> nat
    decreases h,
{
    if h == 0 {
        0
    } else {
        n / min + layers((h - 1) as nat, n / min, min)
    }
}

/// The fewest leaves of a tree of height `h` all of whose nodes are filled.
spec fn least(h: nat, min: nat) -> nat
    decreases h,
{
    if h == 0 {
        1
    } else {
        min * least((h - 1) as nat, min)
    }
}

proof fn lemma_div_sum(a: nat, b: nat, min: nat)
    requires
        min >= 2,
    ensures
        a / min + b / min <= (a + b) / min,
{
    assert(a / min + b / min <= (a + b) / min) by (nonlinear_arith)
        requires
            min >= 2,
    {
        let x = a / min;
        let y = b / min;
        assert(min * x <= a);
        assert(min * y <= b);
        assert(min * (x + y) == min * x + min * y);
    }
}

proof fn lemma_layers_mono(h: nat, a: nat, b: nat, min: nat)
    requires
        min >= 2,
        a <= b,
    ensures
        layers(h, a, min) <= layers(h, b, min),
    decreases h,
{
    if h > 0 {
        assert(a / min <= b / min) by (nonlinear_arith)
            requires
                min >= 2,
                a <= b,
        ;
        lemma_layers_mono((h - 1) as nat, a / min, b / min, min);
    }
}

proof fn lemma_layers_sum(h: nat, a: nat, b: nat, min: nat)
    requires
        min >= 2,
    ensures
        layers(h, a, min) + layers(h, b, min) <= layers(h, a + b, min),
    decreases h,
{
    if h > 0 {
        lemma_div_sum(a, b, min);
        lemma_layers_sum((h - 1) as nat, a / min, b / min, min);
        lemma_layers_mono((h - 1) as nat, a / min + b / min, (a + b) / min, min);
    }
}

proof fn lemma_least_div(h: nat, n: nat, min: nat, c: nat)
    requires
        min >= 2,
        h > 0,
        n >= c * least(h, min),
    ensures
        n / min >= c * least((h - 1) as nat, min),
{
    let l = least((h - 1) as nat, min);
    assert(n / min >= c * l) by (nonlinear_arith)
        requires
            min >= 2,
            n >= c * (min * l),
    {
        assert(c * (min * l) == min * (c * l));
        assert((min * (c * l)) / min == c * l);
    }
}

proof fn lemma_least_pos(h: nat, min: nat)
    requires
        min >= 2,
    ensures
        least(h, min) >= 1,
    decreases h,
{
    if h > 0 {
        lemma_least_pos((h - 1) as nat, min);
        assert(min * least((h - 1) as nat, min) >= 1) by (nonlinear_arith)
            requires
                min >= 2,
                least((h - 1) as nat, min) >= 1,
        ;
    }
}

/// One more level holds at least one more node, if there are leaves enough.
proof fn lemma_one_more(h: nat, n: nat, min: nat)
    requires
        min >= 2,
        h > 0,
        n >= least(h, min),
    ensures
        layers((h - 1) as nat, n, min) + 1 <= layers(h, n, min),
    decreases h,
{
    lemma_least_div(h, n, min, 1);
    lemma_least_pos((h - 1) as nat, min);
    if h > 1 {
        lemma_one_more((h - 1) as nat, n / min, min);
    }
}

/// The levels below the root, and the root, are among those that are counted.
proof fn lemma_stacked(h: nat, n: nat, min: nat)
    requires
        min >= 2,
        n >= 2 * least(h, min),
    ensures
        layers(h, n, min) + 1 <= stacked(n, min),
    decreases h,
{
    if h > 0 {
        lemma_least_div(h, n, min, 2);
        lemma_least_pos((h - 1) as nat, min);
        lemma_stacked((h - 1) as nat, n / min, min);
    }
}

/// More leaves never need fewer inner nodes.
proof fn lemma_stacked_mono(a: nat, b: nat, min: nat)
    requires
        min >= 2,
        a <= b,
    ensures
        stacked(a, min) <= stacked(b, min),
        stacked(b, min) >= 1,
    decreases b,
{
    assert(a / min <= b / min) by (nonlinear_arith)
        requires
            min >= 2,
            a <= b,
    ;
    if b / min >= 2 {
        assert(b / min < b) by (nonlinear_arith)
            requires
                min >= 2,
                b / min >= 2,
        ;
        lemma_stacked_mono(a / min, b / min, min);
    }
}

/// A stack of levels over two leaves or more has no more inner nodes than there are leaves.
pub proof fn lemma_stacked_bound(n: nat, min: nat)
    requires
        min >= 2,
        n >= 2,
    ensures
        stacked(n, min) <= n,
    decreases n,
{
    if n / min >= 2 {
        assert(2 * (n / min) <= n && n / min < n) by (nonlinear_arith)
            requires
                min >= 2,
                n / min >= 2,
        ;
        lemma_stacked_bound(n / min, min);
    }
}

/// A filled tree of height `h` has leaves enough, and not too many inner nodes.
proof fn lemma_filled_inners<K, V>(t: Tree<K, V>, h: nat, m: usize)
    requires
        m >= 3,
        shape(t, h, m),
        h > 0 ==> filled(t, m),
    ensures
        leaves(t).len() >= least(h, half(m) as nat),
        inners(t) <= layers(h, leaves(t).len(), half(m) as nat),
    decreases t, 0nat,
{
    let min = half(m) as nat;
    if h > 0 {
        let kids = t->kids;
        lemma_row_inners(kids, (h - 1) as nat, m);
        let n = leaves(t).len();
        assert(kids.len() * least((h - 1) as nat, min) >= min * least((h - 1) as nat, min))
            by (nonlinear_arith)
            requires
                kids.len() >= min,
        ;
        lemma_one_more(h, n, min);
    }
}

/// The same for a row of filled trees.
proof fn lemma_row_inners<K, V>(ts: Seq<Tree<K, V>>, h: nat, m: usize)
    requires
        m >= 3,
        shape_row(ts, h, m),
    ensures
        leaves_of(ts).len() >= ts.len() * least(h, half(m) as nat),
        inners_of(ts) <= layers(h, leaves_of(ts).len(), half(m) as nat),
    decreases ts, 1nat,
{
    let min = half(m) as nat;
    if ts.len() > 0 {
        let front = ts.drop_last();
        let last = ts.last();
        assert(ts[ts.len() - 1] == last);
        assert(shape(last, h, m) && filled(last, m));
        lemma_filled_inners(last, h, m);
        assert forall|i: int| 0 <= i < front.len() implies shape(#[trigger] front[i], h, m)
            && filled(front[i], m) by {
            assert(front[i] == ts[i]);
        }
        lemma_row_inners(front, h, m);
        assert(front + seq![last] =~= ts);
        lemma_leaves_concat(front, seq![last]);
        lemma_one(last);
        lemma_layers_sum(h, leaves_of(front).len(), leaves(last).len(), min);
        assert(front.len() * least(h, min) + least(h, min) == ts.len() * least(h, min))
            by (nonlinear_arith)
            requires
                ts.len() == front.len() + 1,
        ;
    } else {
        lemma_layers_mono(h, 0, leaves_of(ts).len(), min);
        assert(0 * least(h, min) == 0) by (nonlinear_arith);
    }
}

/// The inner slots that are counted for `n` leaves suffice for every tree with at most `n`
/// leaves: whatever its shape, it has no more inner nodes.
pub proof fn law_worst_inners<K, V>(t: Tree<K, V>, h: nat, m: usize, n: nat)
    requires
        m >= 3,
        shape(t, h, m),
        h > 0 ==> size(t) >= 2,
        leaves(t).len() <= n,
    ensures
        inners(t) <= worst_inners(n, m),
{
    let min = half(m) as nat;
    if h > 0 {
        let kids = t->kids;
        let g = (h - 1) as nat;
        lemma_row_inners(kids, g, m);
        lemma_least_pos(g, min);
        let c = leaves(t).len();
        assert(kids.len() * least(g, min) >= 2 * least(g, min)) by (nonlinear_arith)
            requires
                kids.len() >= 2,
        ;
        lemma_stacked(g, c, min);
        lemma_stacked_mono(c, n, min);
    }
}

/// The inner nodes of two rows, side by side.
pub proof fn lemma_inners_concat<K, V>(a: Seq<Tree<K, V>>, b: Seq<Tree<K, V>>)
    ensures
        inners_of(a + b) == inners_of(a) + inners_of(b),
    decreases b.len(),
{
    if b.len() == 0 {
        assert(a + b =~= a);
    } else {
        assert((a + b).drop_last() =~= a + b.drop_last());
        assert((a + b).last() == b.last());
        lemma_inners_concat(a, b.drop_last());
    }
}

/// The inner nodes of a row of one tree.
pub proof fn lemma_inners_one<K, V>(t: Tree<K, V>)
    ensures
        inners_of(seq![t]) == inners(t),
{
    assert(seq![t].drop_last() =~= Seq::<Tree<K, V>>::empty());
    assert(inners_of(seq![t].drop_last()) == 0);
    assert(seq![t].last() == t);
}

/// An inner node over a row of trees. Where it is, and what its separators are, does not matter.
spec fn over_row<K, V>(kids: Seq<Tree<K, V>>) -> Tree<K, V> {
    Tree::Inner { at: Addr { slab: 0, slot: 0 }, keys: Seq::empty(), kids }
}

/// One more level over a row of filled trees, of as many nodes as can be filled.
proof fn thinnest_level<K, V>(ts: Seq<Tree<K, V>>, h: nat, m: usize) -> (r: Seq<Tree<K, V>>)
    requires
        m >= 3,
        shape_row(ts, h, m),
        ts.len() >= half(m),
    ensures
        r.len() == ts.len() / (half(m) as nat),
        shape_row(r, h + 1, m),
        leaves_of(r).len() == leaves_of(ts).len(),
        inners_of(r) == inners_of(ts) + r.len(),
    decreases ts.len(),
{
    let min = half(m) as nat;
    let n = ts.len();
    if n < 2 * min {
        let r = seq![over_row(ts)];
        assert(n / min == 1) by (nonlinear_arith)
            requires
                min <= n < 2 * min,
        ;
        lemma_one(over_row(ts));
        lemma_inners_one(over_row(ts));
        assert(inners(over_row(ts)) == 1 + inners_of(ts));
        r
    } else {
        let first = ts.take(min as int);
        let rest = ts.skip(min as int);
        assert(first + rest =~= ts);
        assert forall|i: int| 0 <= i < rest.len() implies shape(#[trigger] rest[i], h, m)
            && filled(rest[i], m) by {
            assert(rest[i] == ts[min + i]);
        }
        assert forall|i: int| 0 <= i < first.len() implies shape(#[trigger] first[i], h, m)
            && filled(first[i], m) by {
            assert(first[i] == ts[i]);
        }
        let more = thinnest_level(rest, h, m);
        let one = seq![over_row(first)];
        let r = one + more;
        lemma_one(over_row(first));
        lemma_inners_one(over_row(first));
        assert(inners(over_row(first)) == 1 + inners_of(first));
        lemma_inners_concat(one, more);
        lemma_inners_concat(first, rest);
        lemma_leaves_concat(one, more);
        lemma_leaves_concat(first, rest);
        assert(n / min == (n - min) as nat / min + 1) by (nonlinear_arith)
            requires
                min > 0,
                n >= min,
        ;
        assert forall|i: int| 0 <= i < r.len() implies shape(#[trigger] r[i], h + 1, m) && filled(
            r[i],
            m,
        ) by {
            if i > 0 {
                assert(r[i] == more[i - 1]);
            }
        }
        r
    }
}

/// The levels over a row of filled trees, each of as many nodes as can be filled, up to a root.
proof fn thinnest_tower<K, V>(ts: Seq<Tree<K, V>>, h: nat, m: usize) -> (r: (Tree<K, V>, nat))
    requires
        m >= 3,
        shape_row(ts, h, m),
        ts.len() >= 2,
    ensures
        shape(r.0, r.1, m),
        size(r.0) >= 2,
        leaves(r.0).len() == leaves_of(ts).len(),
        inners(r.0) == inners_of(ts) + stacked(ts.len(), half(m) as nat),
    decreases ts.len(),
{
    let min = half(m) as nat;
    let n = ts.len();
    if n / min < 2 {
        assert(n < 2 * min) by (nonlinear_arith)
            requires
                min > 0,
                n / min < 2,
        ;
        (over_row(ts), h + 1)
    } else {
        assert(2 * min <= n && n / min < n) by (nonlinear_arith)
            requires
                min >= 2,
                n / min >= 2,
        ;
        let up = thinnest_level(ts, h, m);
        thinnest_tower(up, h + 1, m)
    }
}

/// A row of leaves, each at the minimum.
proof fn thinnest_leaves<K, V>(n: nat, m: usize) -> (r: Seq<Tree<K, V>>)
    requires
        m >= 3,
    ensures
        r.len() == n,
        shape_row(r, 0, m),
        leaves_of(r).len() == n,
        inners_of(r) == 0,
    decreases n,
{
    if n == 0 {
        let r = Seq::<Tree<K, V>>::empty();
        reveal(leaves_of);
        r
    } else {
        let front = thinnest_leaves::<K, V>((n - 1) as nat, m);
        let items = Seq::new(half(m) as nat, |i: int| arbitrary::<(K, V)>());
        let leaf = Tree::Leaf {
            at: Addr { slab: 0, slot: 0 },
            leaf: LeafView { items, next: None },
        };
        let r = front + seq![leaf];
        lemma_leaves_concat(front, seq![leaf]);
        lemma_one(leaf);
        lemma_inners_one(leaf);
        lemma_inners_concat(front, seq![leaf]);
        assert(inners(leaf) == 0);
        assert forall|i: int| 0 <= i < r.len() implies shape(#[trigger] r[i], 0, m) && filled(
            r[i],
            m,
        ) by {
            if i < front.len() {
                assert(r[i] == front[i]);
            }
        }
        r
    }
}

/// The count is exact: for every number of leaves there is a tree that needs as many inner nodes.
pub proof fn law_worst_inners_exact<K, V>(n: nat, m: usize) -> (r: (Tree<K, V>, nat))
    requires
        m >= 3,
        n >= 1,
    ensures
        shape(r.0, r.1, m),
        r.1 > 0 ==> size(r.0) >= 2,
        leaves(r.0).len() == n,
        inners(r.0) == worst_inners(n, m),
{
    let row = thinnest_leaves::<K, V>(n, m);
    if n == 1 {
        assert(row =~= seq![row[0]]);
        lemma_one(row[0]);
        (row[0], 0)
    } else {
        thinnest_tower(row, 0, m)
    }
}

} // verus!
