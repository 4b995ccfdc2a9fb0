//! The mathematical tree that a store holds, and what makes it a sound B+tree.
//!
//! Nodes refer to each other by address, so what hangs below an address depends on the store.
//! [`abs`] unfolds it into a value of [`Tree`]; everything else (order, balance, occupancy, the
//! leaf chain, which addresses occur) is stated on that value, or on a row of such values: the
//! children of one inner node.
use crate::allocator::{Addr, Store};
use crate::entries::{has_key, sorted};
use crate::inner::{ascending, route, Inner};
use crate::key::{lt, Key};
use crate::leaf::{half, Leaf, LeafView};
use vstd::prelude::*;

verus! {

/// A tree, unfolded: every node with its address.
pub enum Tree<K, V> {
    Leaf { at: Addr, leaf: LeafView<K, V> },
    Inner { at: Addr, keys: Seq<K>, kids: Seq<Tree<K, V>> },
}

/// One leaf of the chain.
#[verifier::ext_equal]
pub struct Link<K, V> {
    pub at: Addr,
    pub leaf: LeafView<K, V>,
}

/// The tree of height `h` whose root is at `n`.
pub open spec fn abs<K: Key, V, const M: usize>(s: Store<K, V, M>, n: Addr, h: nat) -> Tree<K, V>
    decreases h, 0nat,
{
    if h == 0 {
        Tree::Leaf { at: n, leaf: s.leaves[n]@ }
    } else {
        Tree::Inner {
            at: n,
            keys: s.inners[n]@.keys,
            kids: forest(s, s.inners[n]@.kids, (h - 1) as nat),
        }
    }
}

/// The trees of height `h` whose roots are at `ns`.
pub open spec fn forest<K: Key, V, const M: usize>(
    s: Store<K, V, M>,
    ns: Seq<Addr>,
    h: nat,
) -> Seq<Tree<K, V>>
    decreases h, 1nat,
{
    Seq::new(ns.len(), |i: int| abs(s, ns[i], h))
}

/// The store holds all nodes of the tree of height `h` at `n`.
pub open spec fn held<K: Key, V, const M: usize>(s: Store<K, V, M>, n: Addr, h: nat) -> bool
    decreases h, 0nat,
{
    if h == 0 {
        s.leaves.dom().contains(n) && s.leaves[n].paired()
    } else {
        s.inners.dom().contains(n) && all_held(s, s.inners[n]@.kids, (h - 1) as nat)
    }
}

/// The store holds all nodes of the trees of height `h` at `ns`.
pub open spec fn all_held<K: Key, V, const M: usize>(
    s: Store<K, V, M>,
    ns: Seq<Addr>,
    h: nat,
) -> bool
    decreases h, 1nat,
{
    forall|i: int| 0 <= i < ns.len() ==> held(s, #[trigger] ns[i], h)
}

/// The leaves of a tree, left to right.
#[verifier::opaque]
pub open spec fn leaves<K, V>(t: Tree<K, V>) -> Seq<Link<K, V>>
    decreases t, 0nat,
{
    match t {
        Tree::Leaf { at, leaf } => seq![Link { at, leaf }],
        Tree::Inner { at, keys, kids } => leaves_of(kids),
    }
}

/// The leaves of a row of trees, left to right.
#[verifier::opaque]
pub open spec fn leaves_of<K, V>(ts: Seq<Tree<K, V>>) -> Seq<Link<K, V>>
    decreases ts, 1nat,
{
    if ts.len() == 0 {
        Seq::empty()
    } else {
        leaves_of(ts.drop_last()) + leaves(ts.last())
    }
}

/// The pairs of a row of leaves, left to right.
#[verifier::opaque]
pub open spec fn items_of<K, V>(ls: Seq<Link<K, V>>) -> Seq<(K, V)>
    decreases ls.len(),
{
    if ls.len() == 0 {
        Seq::empty()
    } else {
        items_of(ls.drop_last()) + ls.last().leaf.items
    }
}

/// The pairs of a tree, in key order.
pub open spec fn pairs<K, V>(t: Tree<K, V>) -> Seq<(K, V)> {
    items_of(leaves(t))
}

/// The pairs of a row of trees, in key order.
pub open spec fn pairs_of<K, V>(ts: Seq<Tree<K, V>>) -> Seq<(K, V)> {
    items_of(leaves_of(ts))
}

/// A leaf of the tree is at `a`.
#[verifier::opaque]
pub open spec fn has_leaf<K, V>(t: Tree<K, V>, a: Addr) -> bool
    decreases t, 0nat,
{
    match t {
        Tree::Leaf { at, leaf } => a == at,
        Tree::Inner { at, keys, kids } => any_leaf(kids, a),
    }
}

/// A leaf of one of the trees is at `a`.
#[verifier::opaque]
pub open spec fn any_leaf<K, V>(ts: Seq<Tree<K, V>>, a: Addr) -> bool
    decreases ts, 1nat,
{
    exists|i: int| 0 <= i < ts.len() && has_leaf(#[trigger] ts[i], a)
}

/// An inner node of the tree is at `a`.
#[verifier::opaque]
pub open spec fn has_inner<K, V>(t: Tree<K, V>, a: Addr) -> bool
    decreases t, 0nat,
{
    match t {
        Tree::Leaf { at, leaf } => false,
        Tree::Inner { at, keys, kids } => a == at || any_inner(kids, a),
    }
}

/// An inner node of one of the trees is at `a`.
#[verifier::opaque]
pub open spec fn any_inner<K, V>(ts: Seq<Tree<K, V>>, a: Addr) -> bool
    decreases ts, 1nat,
{
    exists|i: int| 0 <= i < ts.len() && has_inner(#[trigger] ts[i], a)
}

/// Two trees have no node in common.
#[verifier::opaque]
pub open spec fn apart<K, V>(t: Tree<K, V>, u: Tree<K, V>) -> bool {
    &&& forall|a: Addr| has_leaf(t, a) ==> !#[trigger] has_leaf(u, a)
    &&& forall|a: Addr| has_inner(t, a) ==> !#[trigger] has_inner(u, a)
}

/// No address occurs twice in the tree.
pub open spec fn distinct<K, V>(t: Tree<K, V>) -> bool
    decreases t, 0nat,
{
    match t {
        Tree::Leaf { at, leaf } => true,
        Tree::Inner { at, keys, kids } => all_distinct(kids) && !any_inner(kids, at),
    }
}

/// No address occurs twice in the row of trees.
pub open spec fn all_distinct<K, V>(ts: Seq<Tree<K, V>>) -> bool
    decreases ts, 1nat,
{
    &&& forall|i: int| 0 <= i < ts.len() ==> distinct(#[trigger] ts[i])
    &&& forall|i: int, j: int|
        #![trigger ts[i], ts[j]]
        0 <= i < ts.len() && 0 <= j < ts.len() && i != j ==> apart(ts[i], ts[j])
}

/// `k` is at or above the lower bound.
pub open spec fn from<K: Key>(lo: Option<K>, k: K) -> bool {
    match lo {
        Some(b) => !lt(k, b),
        None => true,
    }
}

/// `k` is above the lower bound.
pub open spec fn over<K: Key>(lo: Option<K>, k: K) -> bool {
    match lo {
        Some(b) => lt(b, k),
        None => true,
    }
}

/// `k` is below the upper bound.
pub open spec fn under<K: Key>(k: K, hi: Option<K>) -> bool {
    match hi {
        Some(b) => lt(k, b),
        None => true,
    }
}

/// All keys lie between the bounds.
pub open spec fn within<K: Key, V>(ps: Seq<(K, V)>, lo: Option<K>, hi: Option<K>) -> bool {
    forall|i: int| 0 <= i < ps.len() ==> from(lo, #[trigger] ps[i].0) && under(ps[i].0, hi)
}

/// The lower bound of child `i` under a node with separators `keys` and lower bound `lo`.
pub open spec fn low<K>(keys: Seq<K>, i: int, lo: Option<K>) -> Option<K> {
    if i == 0 {
        lo
    } else {
        Some(keys[i - 1])
    }
}

/// The upper bound of child `i` under a node with separators `keys` and upper bound `hi`.
pub open spec fn high<K>(keys: Seq<K>, i: int, hi: Option<K>) -> Option<K> {
    if i == keys.len() {
        hi
    } else {
        Some(keys[i])
    }
}

/// The tree is a search tree whose keys lie between the bounds.
pub open spec fn ord<K: Key, V>(t: Tree<K, V>, lo: Option<K>, hi: Option<K>) -> bool
    decreases t, 0nat,
{
    match t {
        Tree::Leaf { at, leaf } => sorted(leaf.items) && within(leaf.items, lo, hi),
        Tree::Inner { at, keys, kids } => ord_row(keys, kids, lo, hi),
    }
}

/// The trees, with `keys` between them, are the children of a search tree whose keys lie between
/// the bounds.
pub open spec fn ord_row<K: Key, V>(
    keys: Seq<K>,
    ts: Seq<Tree<K, V>>,
    lo: Option<K>,
    hi: Option<K>,
) -> bool
    decreases ts, 1nat,
{
    &&& ts.len() == keys.len() + 1
    &&& ascending(keys)
    &&& forall|i: int| 0 <= i < keys.len() ==> over(lo, #[trigger] keys[i]) && under(keys[i], hi)
    &&& forall|i: int|
        0 <= i < ts.len() ==> ord(#[trigger] ts[i], low(keys, i, lo), high(keys, i, hi))
}

/// How much the root of a tree holds: pairs in a leaf, children in an inner node.
pub open spec fn size<K, V>(t: Tree<K, V>) -> nat {
    match t {
        Tree::Leaf { at, leaf } => leaf.items.len(),
        Tree::Inner { at, keys, kids } => kids.len(),
    }
}

/// The root holds at least as much as a node below another must.
pub open spec fn filled<K, V>(t: Tree<K, V>, m: usize) -> bool {
    size(t) >= half(m)
}

/// The tree has height `h`; no node holds more than the fanout, and every node below the root at
/// least half of it.
pub open spec fn shape<K, V>(t: Tree<K, V>, h: nat, m: usize) -> bool
    decreases t, 0nat,
{
    match t {
        Tree::Leaf { at, leaf } => h == 0 && leaf.items.len() <= m,
        Tree::Inner { at, keys, kids } => h > 0 && 1 <= kids.len() <= m && shape_row(
            kids,
            (h - 1) as nat,
            m,
        ),
    }
}

/// The trees have height `h` and can stand below an inner node.
pub open spec fn shape_row<K, V>(ts: Seq<Tree<K, V>>, h: nat, m: usize) -> bool
    decreases ts, 1nat,
{
    forall|i: int| 0 <= i < ts.len() ==> shape(#[trigger] ts[i], h, m) && filled(ts[i], m)
}

/// Storing a pair under `k` splits the leaf that owns `k`.
pub open spec fn leaf_splits<K: Key, V>(t: Tree<K, V>, k: K, m: usize) -> bool
    decreases t,
{
    match t {
        Tree::Leaf { at, leaf } => leaf.items.len() == m && !has_key(leaf.items, k),
        Tree::Inner { at, keys, kids } => route(keys, k) < kids.len() && leaf_splits(
            kids[route(keys, k) as int],
            k,
            m,
        ),
    }
}

/// Storing a pair under `k` splits the root of the tree: the leaf that owns `k` is split, and so
/// is every node above it.
pub open spec fn splits<K: Key, V>(t: Tree<K, V>, k: K, m: usize) -> bool
    decreases t,
{
    match t {
        Tree::Leaf { at, leaf } => leaf.items.len() == m && !has_key(leaf.items, k),
        Tree::Inner { at, keys, kids } => route(keys, k) < kids.len() && kids.len() == m && splits(
            kids[route(keys, k) as int],
            k,
            m,
        ),
    }
}

/// The number of inner nodes of the tree that are split when a pair is stored under `k`.
pub open spec fn inner_splits<K: Key, V>(t: Tree<K, V>, k: K, m: usize) -> nat
    decreases t,
{
    match t {
        Tree::Leaf { at, leaf } => 0,
        Tree::Inner { at, keys, kids } => if route(keys, k) < kids.len() {
            inner_splits(kids[route(keys, k) as int], k, m) + (if splits(t, k, m) {
                1nat
            } else {
                0
            })
        } else {
            0
        },
    }
}

/// The number of leaves that storing a pair under `k` adds.
pub open spec fn leaf_bill<K: Key, V>(t: Tree<K, V>, k: K, m: usize) -> nat {
    if leaf_splits(t, k, m) {
        1
    } else {
        0
    }
}

/// The number of inner nodes that storing a pair under `k` adds, with a new root where the old one
/// is split.
pub open spec fn inner_bill<K: Key, V>(t: Tree<K, V>, k: K, m: usize) -> nat {
    inner_splits(t, k, m) + (if splits(t, k, m) {
        1nat
    } else {
        0
    })
}

/// Every leaf but the last links to the one that follows.
#[verifier::opaque]
pub open spec fn chained<K, V>(ls: Seq<Link<K, V>>) -> bool {
    forall|i: int, j: int|
        #![trigger ls[i], ls[j]]
        0 <= i < ls.len() && 0 <= j < ls.len() && j == i + 1 ==> ls[i].leaf.next == Some(ls[j].at)
}

/// A sound tree of height `h` with keys between the bounds.
pub open spec fn sound<K: Key, V>(
    t: Tree<K, V>,
    h: nat,
    m: usize,
    lo: Option<K>,
    hi: Option<K>,
) -> bool {
    &&& shape(t, h, m)
    &&& ord(t, lo, hi)
    &&& distinct(t)
    &&& chained(leaves(t))
}

/// The children, of height `h`, of a sound tree with separators `keys` and keys between the
/// bounds.
pub open spec fn sound_row<K: Key, V>(
    keys: Seq<K>,
    ts: Seq<Tree<K, V>>,
    h: nat,
    m: usize,
    lo: Option<K>,
    hi: Option<K>,
) -> bool {
    &&& shape_row(ts, h, m)
    &&& ord_row(keys, ts, lo, hi)
    &&& all_distinct(ts)
    &&& chained(leaves_of(ts))
}

/// From `s` to `t` the nodes of the trees `olds` were replaced by those of `news`, and no other node
/// was touched.
#[verifier::opaque]
pub open spec fn moved<K: Key, V, const M: usize>(
    s: Store<K, V, M>,
    t: Store<K, V, M>,
    olds: Seq<Tree<K, V>>,
    news: Seq<Tree<K, V>>,
) -> bool {
    &&& forall|a: Addr|
        #![trigger s.leaves.dom().contains(a)]
        s.leaves.dom().contains(a) && !any_leaf(olds, a) ==> {
            &&& t.leaves.dom().contains(a)
            &&& t.leaves[a] == s.leaves[a]
            &&& !any_leaf(news, a)
        }
    &&& forall|a: Addr|
        #![trigger t.leaves.dom().contains(a)]
        t.leaves.dom().contains(a) && !any_leaf(news, a) ==> {
            &&& s.leaves.dom().contains(a)
            &&& !any_leaf(olds, a)
        }
    &&& forall|a: Addr|
        #![trigger s.inners.dom().contains(a)]
        s.inners.dom().contains(a) && !any_inner(olds, a) ==> {
            &&& t.inners.dom().contains(a)
            &&& t.inners[a] == s.inners[a]
            &&& !any_inner(news, a)
        }
    &&& forall|a: Addr|
        #![trigger t.inners.dom().contains(a)]
        t.inners.dom().contains(a) && !any_inner(news, a) ==> {
            &&& s.inners.dom().contains(a)
            &&& !any_inner(olds, a)
        }
}

/// From `s` to `t` the trees `olds` were replaced by `news`, and nothing else was touched.
pub open spec fn replaced<K: Key, V, const M: usize>(
    s: Store<K, V, M>,
    t: Store<K, V, M>,
    olds: Seq<Tree<K, V>>,
    news: Seq<Tree<K, V>>,
) -> bool {
    &&& moved(s, t, olds, news)
    &&& t.raw_leaves == s.raw_leaves
    &&& t.raw_inners == s.raw_inners
    &&& t.leaf_cap == s.leaf_cap
    &&& t.inner_cap == s.inner_cap
}

/// The two rows of leaves begin at the same address and link to the same leaf at their end.
pub open spec fn same_ends<K, V>(a: Seq<Link<K, V>>, b: Seq<Link<K, V>>) -> bool {
    &&& a.len() > 0
    &&& b.len() > 0
    &&& a[0].at == b[0].at
    &&& a.last().leaf.next == b.last().leaf.next
}

/// From `s` to `t` the trees `olds`, neighbours below one parent, were replaced by the trees of
/// height `h` at `new`, with `keys` between them, which can stand in the same place as far as order
/// and the leaf chain are concerned.
pub open spec fn exchanged<K: Key, V, const M: usize>(
    s: Store<K, V, M>,
    t: Store<K, V, M>,
    olds: Seq<Tree<K, V>>,
    keys: Seq<K>,
    new: Seq<Addr>,
    h: nat,
    lo: Option<K>,
    hi: Option<K>,
) -> bool {
    let news = forest(t, new, h);
    &&& all_held(t, new, h)
    &&& ord_row(keys, news, lo, hi)
    &&& all_distinct(news)
    &&& chained(leaves_of(news))
    &&& same_ends(leaves_of(olds), leaves_of(news))
    &&& replaced(s, t, olds, news)
}

/// From `s` to `t` the trees `olds`, neighbours below one parent, were replaced by the trees of
/// height `h` at `new`, with `keys` between them, which can stand in the same place.
pub open spec fn swapped<K: Key, V, const M: usize>(
    s: Store<K, V, M>,
    t: Store<K, V, M>,
    olds: Seq<Tree<K, V>>,
    keys: Seq<K>,
    new: Seq<Addr>,
    h: nat,
    lo: Option<K>,
    hi: Option<K>,
) -> bool {
    let news = forest(t, new, h);
    &&& exchanged(s, t, olds, keys, new, h, lo, hi)
    &&& forall|i: int| 0 <= i < news.len() ==> shape(#[trigger] news[i], h, M)
}

/// The leaves of a node.
pub broadcast proof fn unfold_leaves<K, V>(t: Tree<K, V>)
    ensures
        #[trigger] leaves(t) == match t {
            Tree::Leaf { at, leaf } => seq![Link { at, leaf }],
            Tree::Inner { at, keys, kids } => leaves_of(kids),
        },
{
    reveal(leaves);
    reveal(leaves_of);
}

/// Where the leaves of a node are.
pub broadcast proof fn unfold_has_leaf<K, V>(t: Tree<K, V>, a: Addr)
    ensures
        #[trigger] has_leaf(t, a) == match t {
            Tree::Leaf { at, leaf } => a == at,
            Tree::Inner { at, keys, kids } => any_leaf(kids, a),
        },
{
    reveal(has_leaf);
    reveal(any_leaf);
}

/// Where the inner nodes of a node are.
pub broadcast proof fn unfold_has_inner<K, V>(t: Tree<K, V>, a: Addr)
    ensures
        #[trigger] has_inner(t, a) == match t {
            Tree::Leaf { at, leaf } => false,
            Tree::Inner { at, keys, kids } => a == at || any_inner(kids, a),
        },
{
    reveal(has_inner);
    reveal(any_inner);
}

/// Everything that a node says of its subtree at the first level.
pub broadcast group group_unfold {
    unfold_leaves,
    unfold_has_leaf,
    unfold_has_inner,
}

} // verus!
