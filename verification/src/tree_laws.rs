//! What a tree looks like, node by node: how full its nodes are, how they are linked, and how high
//! it is.
use crate::allocator::{Addr, NodeAllocator};
use crate::bulk::cut;
use crate::inner::{ascending, lemma_route_splits, route, InnerView};
use crate::key::{lt, ordered, Key};
use crate::leaf::half;
use crate::load::{compact, leaf_sizes};
use crate::lemmas::lemma_ord_pairs;
use crate::model::{
    from, group_unfold, high, leaves, low, ord, pairs, shape, size, under, Tree,
};
use crate::node::mended;
use crate::packing::{
    dense, keyed, least, lemma_fewer, lowest, nodes_at, nodes_of, parts, sizes, spread, upright,
};
use crate::root::{height_bound, lemma_log2};
use crate::row::lemma_least;
use crate::tree::BPlusTree;
use vstd::arithmetic::logarithm::log;
use vstd::arithmetic::power::pow;
use vstd::prelude::*;

verus! {

broadcast use group_unfold;

/// A key is routed to the child behind the last separator that is not above it.
pub proof fn law_routed<K: Key>(keys: Seq<K>, k: K)
    requires
        ordered::<K>(),
        forall|i: int, j: int|
            #![trigger keys[i], keys[j]]
            0 <= i < j < keys.len() ==> lt(keys[i], keys[j]),
    ensures
        route(keys, k) <= keys.len(),
        forall|i: int|
            0 <= i < keys.len() ==> (!lt(k, #[trigger] keys[i]) <==> i < route(keys, k)),
{
    assert(ascending(keys));
    lemma_route_splits(keys, k);
}

/// An adopted child stands right behind the child at its place, with its separator before it; all
/// others keep their order.
pub proof fn law_adopted<K: Key>(node: InnerView<K>, at: int, sep: K, child: Addr)
    requires
        0 <= at <= node.keys.len(),
        node.kids.len() == node.keys.len() + 1,
    ensures
        ({
            let new = node.adopt(at, sep, child);
            &&& new.kids.len() == node.kids.len() + 1
            &&& new.keys.len() == node.keys.len() + 1
            &&& new.kids[at + 1] == child
            &&& new.keys[at] == sep
            &&& new.kids.remove(at + 1) == node.kids
            &&& new.keys.remove(at) == node.keys
        }),
{
    let new = node.adopt(at, sep, child);
    assert(new.kids.remove(at + 1) =~= node.kids);
    assert(new.keys.remove(at) =~= node.keys);
}

/// The two parts of a divided node are its first children and the others, and the separator between
/// the two is in neither.
pub proof fn law_parted<K: Key>(node: InnerView<K>, n: int)
    requires
        node.kids.len() == node.keys.len() + 1,
        1 <= n < node.kids.len(),
    ensures
        node.take(n).kids.len() == n,
        node.take(n).kids + node.skip(n).kids == node.kids,
        node.take(n).keys.push(node.keys[n - 1]) + node.skip(n).keys == node.keys,
        node.take(n).keys.len() == n - 1,
{
    assert(node.take(n).kids + node.skip(n).kids =~= node.kids);
    assert(node.take(n).keys.push(node.keys[n - 1]) + node.skip(n).keys =~= node.keys);
}

/// How things are spread over nodes: in as few as can hold them; all are full but for the last two,
/// which hold at least half, and the first of these less than all only as far as the second needs
/// it.
pub proof fn law_spread(n: nat, m: usize)
    requires
        m >= 3,
        n >= 1,
    ensures
        ({
            let s = spread(n, m);
            let c = s.len();
            &&& c >= 1
            &&& (c - 1) * m < n <= c * m
            &&& forall|i: int| 0 <= i < c - 2 ==> #[trigger] s[i] == m
            &&& c == 1 ==> s[0] == n
            &&& c >= 2 ==> {
                &&& (c - 2) * m + s[c - 2] + s[c - 1] == n
                &&& m <= 2 * s[c - 1] <= 2 * m
                &&& m <= 2 * s[c - 2] <= 2 * m
                &&& s[c - 2] == m || 2 * s[c - 1] <= m + 1
            }
        }),
{
    lemma_fewer(n, m);
    let c = parts(n, m);
    let s = spread(n, m);
    assert(s.len() == c);
    assert((c - 1) * m == (c - 2) * m + m) by (nonlinear_arith);
    assert(c * m == (c - 1) * m + m) by (nonlinear_arith);
    if c == 1 {
        assert((c - 1) * m == 0) by (nonlinear_arith)
            requires
                c == 1,
        ;
    }
}

/// How many of `n` pairs the next leaf of a load takes: all of them, if they fit one leaf; else a
/// full leaf's worth, or less only as far as the rest would not be half of one.
pub proof fn law_cut(n: int, m: usize)
    requires
        m >= 3,
        n >= 1,
    ensures
        1 <= cut(n, m) <= m,
        cut(n, m) == n <==> n <= m,
        n > m ==> {
            &&& m <= 2 * cut(n, m)
            &&& m <= 2 * (n - cut(n, m))
            &&& cut(n, m) == m || 2 * (n - cut(n, m)) <= m + 1
        },
{
}

/// Every level of a dense tree has as few nodes as can hold what is below it, all of them full but
/// for the last two, which hold at least half.
pub proof fn law_dense_level<K, V>(t: Tree<K, V>, h: nat, m: usize, d: nat)
    requires
        m >= 3,
        dense(t, h, m),
        d < h,
        nodes_at(t, d + 1).len() > 0,
    ensures
        ({
            let ns = nodes_at(t, d);
            let c = ns.len();
            let below = nodes_at(t, d + 1).len();
            &&& (c - 1) * m < below <= c * m
            &&& forall|i: int| 0 <= i < c - 2 ==> size(#[trigger] ns[i]) == m
            &&& c >= 2 ==> {
                let (x, y) = (size(ns[c - 2]), size(ns[c - 1]));
                &&& (c - 2) * m + x + y == below
                &&& m <= 2 * y
                &&& m <= 2 * x
                &&& x == m || 2 * y <= m + 1
            }
        }),
{
    let ns = nodes_at(t, d);
    law_spread(nodes_at(t, d + 1).len(), m);
    assert(sizes(ns) == spread(nodes_at(t, d + 1).len(), m));
    assert(sizes(ns).len() == ns.len());
    assert(forall|i: int| 0 <= i < ns.len() ==> size(#[trigger] ns[i]) == sizes(ns)[i]);
}

/// A compact tree, leaf by leaf: it has as few leaves as can hold its pairs, all of them full but
/// for the last two, which hold at least half. Its levels are as dense, and no tree with as many
/// pairs is lower.
pub proof fn law_compact<K, V>(t: Tree<K, V>, h: nat, n: nat, m: usize)
    requires
        m >= 3,
        n >= 1,
        compact(t, h, n, m),
    ensures
        ({
            let ls = leaves(t);
            let c = ls.len();
            &&& (c - 1) * m < n <= c * m
            &&& forall|i: int| 0 <= i < c - 2 ==> (#[trigger] ls[i]).leaf.items.len() == m
            &&& c >= 2 ==> {
                let (x, y) = (ls[c - 2].leaf.items.len(), ls[c - 1].leaf.items.len());
                &&& (c - 2) * m + x + y == n
                &&& m <= 2 * y
                &&& m <= 2 * x
                &&& x == m || 2 * y <= m + 1
            }
        }),
        dense(t, h, m),
        keyed(t),
        n <= pow(m as int, h + 1),
        h > 0 ==> pow(m as int, h) < n,
{
    law_spread(n, m);
    let ls = leaves(t);
    assert(leaf_sizes(ls).len() == ls.len());
    assert(forall|i: int|
        0 <= i < ls.len() ==> (#[trigger] ls[i]).leaf.items.len() == leaf_sizes(ls)[i]);
}

/// A height that is the lowest for `n` leaves has room for them, and the one below it has not.
pub proof fn law_lowest_height(n: nat, m: usize, h: nat)
    requires
        m >= 3,
        lowest(n, m, h),
    ensures
        n <= pow(m as int, h),
        h > 0 ==> pow(m as int, (h - 1) as nat) < n,
{
}

/// In a tree under first keys, every separator of every node is the first key to its right.
pub proof fn law_first_keys<K, V>(t: Tree<K, V>, h: nat, m: usize, d: nat, i: int, j: int)
    requires
        upright(t, h, m),
        keyed(t),
        d < h,
        0 <= i < nodes_at(t, d).len(),
        0 <= j < nodes_at(t, d)[i]->keys.len(),
    ensures
        ({
            let x = nodes_at(t, d)[i];
            &&& x is Inner
            &&& x->kids.len() == x->keys.len() + 1
            &&& pairs(x->kids[j + 1]).len() > 0
            &&& x->keys[j] == pairs(x->kids[j + 1])[0].0
        }),
{
    lemma_level_keyed(t, h, m, d);
    let x = nodes_at(t, d)[i];
    let g = (h - d) as nat;
    assert(upright(x, g, m) && keyed(x));
    assert(upright(x->kids[j + 1], (g - 1) as nat, m));
    lemma_least(x->kids[j + 1], (g - 1) as nat, m);
    assert(x->keys[j] == least(x->kids[j + 1]));
}

proof fn lemma_level_keyed<K, V>(t: Tree<K, V>, h: nat, m: usize, d: nat)
    requires
        upright(t, h, m),
        keyed(t),
        d <= h,
    ensures
        forall|i: int|
            0 <= i < nodes_at(t, d).len() ==> upright(
                #[trigger] nodes_at(t, d)[i],
                (h - d) as nat,
                m,
            ) && keyed(nodes_at(t, d)[i]),
    decreases t, 0nat,
{
    if d > 0 {
        let kids = t->kids;
        assert forall|i: int| 0 <= i < kids.len() implies upright(
            #[trigger] kids[i],
            (h - 1) as nat,
            m,
        ) && keyed(kids[i]) by {}
        lemma_row_keyed(kids, (h - 1) as nat, m, (d - 1) as nat);
        assert(nodes_at(t, d) == nodes_of(kids, (d - 1) as nat));
    }
}

proof fn lemma_row_keyed<K, V>(ts: Seq<Tree<K, V>>, h: nat, m: usize, d: nat)
    requires
        forall|i: int| 0 <= i < ts.len() ==> upright(#[trigger] ts[i], h, m) && keyed(ts[i]),
        d <= h,
    ensures
        forall|i: int|
            0 <= i < nodes_of(ts, d).len() ==> upright(
                #[trigger] nodes_of(ts, d)[i],
                (h - d) as nat,
                m,
            ) && keyed(nodes_of(ts, d)[i]),
    decreases ts, 1nat,
{
    if ts.len() > 0 {
        let front = ts.drop_last();
        let last = ts[ts.len() - 1];
        assert forall|i: int| 0 <= i < front.len() implies upright(#[trigger] front[i], h, m)
            && keyed(front[i]) by {
            assert(front[i] == ts[i]);
        }
        lemma_row_keyed(front, h, m, d);
        lemma_level_keyed(last, h, m, d);
        let a = nodes_of(front, d);
        let b = nodes_at(last, d);
        assert(nodes_of(ts, d) == a + b);
        assert forall|i: int| 0 <= i < (a + b).len() implies upright(
            #[trigger] (a + b)[i],
            (h - d) as nat,
            m,
        ) && keyed((a + b)[i]) by {
            if i < a.len() {
                assert((a + b)[i] == a[i]);
            } else {
                assert((a + b)[i] == b[i - a.len()]);
            }
        }
    }
}

/// The separators of a search tree: what is to the left of one sorts before it, what is to its
/// right does not, and every child is a search tree in turn.
pub proof fn law_separated<K: Key, V>(t: Tree<K, V>, lo: Option<K>, hi: Option<K>)
    requires
        ordered::<K>(),
        ord(t, lo, hi),
        t is Inner,
    ensures
        t->kids.len() == t->keys.len() + 1,
        forall|j: int, p: (K, V)|
            0 <= j < t->keys.len() && #[trigger] pairs(t->kids[j]).contains(p) ==> lt(
                p.0,
                t->keys[j],
            ),
        forall|j: int, p: (K, V)|
            0 < j < t->kids.len() && #[trigger] pairs(t->kids[j]).contains(p) ==> !lt(
                p.0,
                t->keys[j - 1],
            ),
        forall|j: int|
            0 <= j < t->kids.len() ==> ord(
                #[trigger] t->kids[j],
                low(t->keys, j, lo),
                high(t->keys, j, hi),
            ),
{
    let keys = t->keys;
    let kids = t->kids;
    assert forall|j: int, p: (K, V)|
        0 <= j < kids.len() && #[trigger] pairs(kids[j]).contains(p) implies (j < keys.len() ==> lt(
        p.0,
        keys[j],
    )) && (j > 0 ==> !lt(p.0, keys[j - 1])) by {
        assert(ord(kids[j], low(keys, j, lo), high(keys, j, hi)));
        lemma_ord_pairs(kids[j], low(keys, j, lo), high(keys, j, hi));
        let ps = pairs(kids[j]);
        let i = choose|i: int| 0 <= i < ps.len() && ps[i] == p;
        assert(from(low(keys, j, lo), ps[i].0) && under(ps[i].0, high(keys, j, hi)));
    }
}

/// A well-shaped tree, level by level: all leaves are on the lowest level, no node holds more than
/// the fanout, and every node below the root at least half of it.
pub proof fn law_balanced<K, V>(t: Tree<K, V>, h: nat, m: usize)
    requires
        shape(t, h, m),
    ensures
        size(t) <= m,
        forall|d: nat, i: int|
            1 <= d <= h && 0 <= i < nodes_at(t, d).len() ==> {
                let x = #[trigger] nodes_at(t, d)[i];
                &&& m <= 2 * size(x) <= 2 * m
                &&& x is Leaf <==> d == h
            },
        t is Leaf <==> h == 0,
{
    assert forall|d: nat, i: int|
        1 <= d <= h && 0 <= i < nodes_at(t, d).len() implies {
        let x = #[trigger] nodes_at(t, d)[i];
        &&& m <= 2 * size(x) <= 2 * m
        &&& x is Leaf <==> d == h
    } by {
        lemma_level_shape(t, h, m, d);
        assert(shape(nodes_at(t, d)[i], (h - d) as nat, m));
    }
}

proof fn lemma_level_shape<K, V>(t: Tree<K, V>, h: nat, m: usize, d: nat)
    requires
        shape(t, h, m),
        d <= h,
    ensures
        forall|i: int|
            0 <= i < nodes_at(t, d).len() ==> shape(
                #[trigger] nodes_at(t, d)[i],
                (h - d) as nat,
                m,
            ) && (d > 0 ==> size(nodes_at(t, d)[i]) >= half(m)),
    decreases t, 0nat,
{
    if d > 0 {
        let kids = t->kids;
        assert forall|i: int| 0 <= i < kids.len() implies shape(
            #[trigger] kids[i],
            (h - 1) as nat,
            m,
        ) && size(kids[i]) >= half(m) by {}
        lemma_row_shape(kids, (h - 1) as nat, m, (d - 1) as nat);
        assert(nodes_at(t, d) == nodes_of(kids, (d - 1) as nat));
    }
}

proof fn lemma_row_shape<K, V>(ts: Seq<Tree<K, V>>, h: nat, m: usize, d: nat)
    requires
        forall|i: int|
            0 <= i < ts.len() ==> shape(#[trigger] ts[i], h, m) && size(ts[i]) >= half(m),
        d <= h,
    ensures
        forall|i: int|
            0 <= i < nodes_of(ts, d).len() ==> shape(
                #[trigger] nodes_of(ts, d)[i],
                (h - d) as nat,
                m,
            ) && size(nodes_of(ts, d)[i]) >= half(m),
    decreases ts, 1nat,
{
    if ts.len() > 0 {
        let front = ts.drop_last();
        let last = ts[ts.len() - 1];
        assert forall|i: int| 0 <= i < front.len() implies shape(#[trigger] front[i], h, m) && size(
            front[i],
        ) >= half(m) by {
            assert(front[i] == ts[i]);
        }
        lemma_row_shape(front, h, m, d);
        lemma_level_shape(last, h, m, d);
        let a = nodes_of(front, d);
        let b = nodes_at(last, d);
        assert(nodes_of(ts, d) == a + b);
        if d == 0 {
            assert(b == seq![last]);
        }
        assert forall|i: int| 0 <= i < (a + b).len() implies shape(
            #[trigger] (a + b)[i],
            (h - d) as nat,
            m,
        ) && size((a + b)[i]) >= half(m) by {
            if i < a.len() {
                assert((a + b)[i] == a[i]);
            } else {
                assert((a + b)[i] == b[i - a.len()]);
            }
        }
    }
}

/// The bound on the height: every level multiplies the number of pairs by at least a power of two
/// with exponent `l`, the largest that half of the fanout reaches; the bound is how often `l` bits go
/// into those of a machine word, without two.
pub proof fn law_height_bound(m: usize)
    requires
        m >= 3,
    ensures
        exists|l: nat|
            l >= 1 && 2 * #[trigger] pow(2, l) <= m + 1 && m + 2 <= 4 * pow(2, l) && height_bound(m) * l
                <= usize::BITS - 2 && usize::BITS - 2 < (height_bound(m) + 1) * l,
{
    let b = half(m);
    lemma_log2(b);
    let l = log(2, b);
    reveal(log);
    assert(l >= 1) by {
        vstd::arithmetic::logarithm::lemma_log_nonnegative(2, b / 2);
    }
    let w = usize::BITS - 2;
    let q = w / l;
    vstd::arithmetic::div_mod::lemma_fundamental_div_mod(w, l);
    vstd::arithmetic::div_mod::lemma_mod_bound(w, l);
    assert(q * l <= w && w < (q + 1) * l) by (nonlinear_arith)
        requires
            w == l * q + w % l,
            0 <= w % l < l,
    ;
    assert(2 * pow(2, l as nat) <= m + 1);
}

impl<K: Key, V, const M: usize, A: NodeAllocator<K, V, M>> BPlusTree<K, V, M, A> {
    /// The nodes of a tree, level by level: all leaves are on the lowest level, no node holds more
    /// than the fanout, every node below the root at least half of it, and the root at least two
    /// children, if it has any.
    pub proof fn law_shape(&self)
        requires
            self.wf(),
        ensures
            size(self.tree()) <= M,
            self.tree() is Leaf <==> self.levels() == 0,
            self.levels() > 0 ==> size(self.tree()) >= 2,
            forall|d: nat, i: int|
                1 <= d <= self.levels() && 0 <= i < nodes_at(self.tree(), d).len() ==> {
                    let x = #[trigger] nodes_at(self.tree(), d)[i];
                    &&& M <= 2 * size(x) <= 2 * M
                    &&& x is Leaf <==> d == self.levels()
                },
            ord(self.tree(), None, None),
    {
        self.lemma_wf();
        law_balanced(self.tree(), self.levels(), M);
    }
}

/// What mending a child that is one short does, by the sizes of the children: it takes one item from
/// its right neighbour if that holds more than half, else from the left one if that does; else two
/// neighbours become one. All other children, and all separators but the one between the two, stay.
pub proof fn law_mended<K, V>(
    keys: Seq<K>,
    olds: Seq<Tree<K, V>>,
    i: int,
    keys2: Seq<K>,
    news: Seq<Tree<K, V>>,
    m: usize,
)
    requires
        m >= 3,
        olds.len() == keys.len() + 1,
        olds.len() >= 2,
        0 <= i < olds.len(),
        forall|l: int|
            0 <= l < olds.len() && l != i ==> size(#[trigger] olds[l]) >= half(m),
        forall|l: int|
            0 <= l < olds.len() && (#[trigger] olds[l]) is Inner ==> olds[l]->kids.len()
                == olds[l]->keys.len() + 1,
        mended(keys, olds, i, keys2, news, m),
    ensures
        ({
            let right = i + 1 < olds.len() && 2 * size(olds[i + 1]) > m + 1;
            let left = i > 0 && 2 * size(olds[i - 1]) > m + 1;
            let at = if right || (!left && i + 1 < olds.len()) {
                i
            } else {
                i - 1
            };
            &&& right || left ==> {
                &&& news.len() == olds.len()
                &&& keys2.len() == keys.len()
                &&& size(news[i]) == size(olds[i]) + 1
                &&& right ==> size(news[i + 1]) == size(olds[i + 1]) - 1
                &&& !right ==> size(news[i - 1]) == size(olds[i - 1]) - 1
                &&& forall|l: int|
                    0 <= l < olds.len() && l != at && l != at + 1 ==> #[trigger] news[l] == olds[l]
                &&& forall|l: int|
                    0 <= l < keys.len() && l != at ==> #[trigger] keys2[l] == keys[l]
            }
            &&& !right && !left ==> {
                &&& news.len() == olds.len() - 1
                &&& keys2 == keys.remove(at)
                &&& size(news[at]) == size(olds[at]) + size(olds[at + 1])
                &&& forall|l: int| 0 <= l < at ==> #[trigger] news[l] == olds[l]
                &&& forall|l: int| at < l < news.len() ==> #[trigger] news[l] == olds[l + 1]
            }
        }),
{
}

} // verus!
