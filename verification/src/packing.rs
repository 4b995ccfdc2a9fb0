//! How densely a bulk load packs a tree: as far to the left as it can, on every level.
//!
//! A node that moved up during the load is full, and so is every inner node below it. When the
//! stream ends, the last two nodes of a level share what is left between them. So on every level
//! all nodes are full, but for the last two; a level has as few nodes as can hold what is below
//! it, and the tree is as low as one over its leaves can be.
use crate::bulk::cut;
use crate::leaf::half;
use crate::model::{filled, group_unfold, leaves, leaves_of, size, Tree};
use crate::sizing::{inners, inners_of};
use vstd::arithmetic::power::pow;
use vstd::prelude::*;

verus! {

broadcast use group_unfold;

/// The tree has height `h` and stands on leaves of any size but empty; no node holds more than the
/// fanout, and every inner node below the root at least half of it.
pub open spec fn upright<K, V>(t: Tree<K, V>, h: nat, m: usize) -> bool
    decreases t,
{
    match t {
        Tree::Leaf { at, leaf } => h == 0 && 1 <= leaf.items.len() <= m,
        Tree::Inner { at, keys, kids } => {
            &&& h > 0
            &&& 1 <= kids.len() <= m
            &&& forall|i: int|
                0 <= i < kids.len() ==> upright(#[trigger] kids[i], (h - 1) as nat, m) && sturdy(
                    kids[i],
                    m,
                )
        },
    }
}

/// The tree can stand below an inner node, as far as its own root is concerned.
pub open spec fn sturdy<K, V>(t: Tree<K, V>, m: usize) -> bool {
    t is Inner ==> filled(t, m)
}

/// The first key of the leftmost leaf.
pub open spec fn least<K, V>(t: Tree<K, V>) -> K
    decreases t,
{
    match t {
        Tree::Leaf { at, leaf } => leaf.items[0].0,
        Tree::Inner { at, keys, kids } => if kids.len() > 0 {
            least(kids[0])
        } else {
            arbitrary()
        },
    }
}

/// Every separator is the first key of the leftmost leaf to its right.
pub open spec fn keyed<K, V>(t: Tree<K, V>) -> bool
    decreases t,
{
    match t {
        Tree::Leaf { at, leaf } => true,
        Tree::Inner { at, keys, kids } => {
            &&& kids.len() == keys.len() + 1
            &&& forall|i: int| 0 <= i < kids.len() ==> keyed(#[trigger] kids[i])
            &&& forall|i: int| 0 <= i < keys.len() ==> #[trigger] keys[i] == least(kids[i + 1])
        },
    }
}

/// The last two nodes of a level, with `x` and `y` children, share more than one node can hold: the
/// first is full, or the second holds just as much as it must.
pub open spec fn shared(x: nat, y: nat, m: usize) -> bool {
    &&& m < x + y
    &&& x <= m
    &&& half(m) <= y <= m
    &&& x == m || y == half(m)
}

/// Two inner nodes are the last two of a level.
pub open spec fn paired<K, V>(t: Tree<K, V>, u: Tree<K, V>, m: usize) -> bool {
    u is Inner ==> shared(size(t), size(u), m)
}

/// Every inner node below the root is full.
pub open spec fn solid<K, V>(t: Tree<K, V>, m: usize) -> bool
    decreases t,
{
    match t {
        Tree::Leaf { at, leaf } => true,
        Tree::Inner { at, keys, kids } => forall|i: int|
            0 <= i < kids.len() ==> ((#[trigger] kids[i]) is Inner ==> size(kids[i]) == m) && solid(
                kids[i],
                m,
            ),
    }
}

/// Every inner node is full, the root among them.
pub open spec fn complete<K, V>(t: Tree<K, V>, m: usize) -> bool {
    &&& t is Inner ==> size(t) == m
    &&& solid(t, m)
}

/// The tree is packed to the left: of the root's children all but the last two are complete, the
/// last but one is so below its root, the last is packed to the left in turn, and these two share
/// what is left. So on every level of inner nodes below the root all but the last two are full.
pub open spec fn left_packed<K, V>(t: Tree<K, V>, m: usize) -> bool
    decreases t,
{
    match t {
        Tree::Leaf { at, leaf } => true,
        Tree::Inner { at, keys, kids } => {
            &&& forall|i: int| 0 <= i < kids.len() - 2 ==> complete(#[trigger] kids[i], m)
            &&& kids.len() >= 2 ==> solid(kids[kids.len() - 2], m)
            &&& kids.len() >= 1 ==> left_packed(kids[kids.len() - 1], m)
            &&& kids.len() >= 2 ==> paired(kids[kids.len() - 2], kids[kids.len() - 1], m)
        },
    }
}

/// The trees stand side by side on one level, and all but the last `loose` of them are complete.
/// Of the others the last is packed to the left, and complete below its root if it is the only
/// one; and so is the one before it.
#[verifier::opaque]
pub open spec fn lined<K, V>(ts: Seq<Tree<K, V>>, m: usize, loose: int) -> bool {
    let n = ts.len();
    &&& 0 <= loose <= 2
    &&& forall|i: int| 0 <= i < n - loose ==> complete(#[trigger] ts[i], m)
    &&& loose == 1 && n >= 1 ==> solid(ts[n - 1], m)
    &&& loose == 2 && n >= 2 ==> solid(ts[n - 2], m)
    &&& loose == 2 && n >= 1 ==> left_packed(ts[n - 1], m)
    &&& loose == 2 && n >= 2 ==> paired(ts[n - 2], ts[n - 1], m)
}

/// No trees, or only leaves.
pub proof fn lemma_lined_leaves<K, V>(ts: Seq<Tree<K, V>>, m: usize)
    requires
        forall|i: int| 0 <= i < ts.len() ==> (#[trigger] ts[i]) is Leaf,
    ensures
        lined(ts, m, 0),
{
    reveal(lined);
}

/// A row of complete trees without its last.
pub proof fn lemma_lined_front<K, V>(ts: Seq<Tree<K, V>>, m: usize)
    requires
        lined(ts, m, 0),
        ts.len() > 0,
    ensures
        lined(ts.drop_last(), m, 0),
        complete(ts.last(), m),
        ts.last() is Inner ==> lined(ts.last()->kids, m, 0) && ts.last()->kids.len() == m,
{
    reveal(lined);
    let t = ts[ts.len() - 1];
    let front = ts.drop_last();
    assert forall|i: int| 0 <= i < front.len() implies complete(#[trigger] front[i], m) by {
        assert(front[i] == ts[i]);
    }
    assert(complete(t, m));
    if let Tree::Inner { at, keys, kids } = t {
        assert forall|i: int| 0 <= i < kids.len() implies complete(#[trigger] kids[i], m) by {}
    }
}

/// One more complete tree.
pub proof fn lemma_lined_complete<K, V>(ts: Seq<Tree<K, V>>, t: Tree<K, V>, m: usize)
    requires
        lined(ts, m, 0),
        complete(t, m),
    ensures
        lined(ts.push(t), m, 0),
{
    reveal(lined);
    let us = ts.push(t);
    assert forall|i: int| 0 <= i < us.len() implies complete(#[trigger] us[i], m) by {
        if i < ts.len() {
            assert(us[i] == ts[i]);
        }
    }
}

/// One more tree that is complete below its root.
pub proof fn lemma_lined_solid<K, V>(ts: Seq<Tree<K, V>>, t: Tree<K, V>, m: usize)
    requires
        lined(ts, m, 0),
        solid(t, m),
    ensures
        lined(ts.push(t), m, 1),
{
    reveal(lined);
    let us = ts.push(t);
    assert forall|i: int| 0 <= i < us.len() - 1 implies complete(#[trigger] us[i], m) by {
        assert(us[i] == ts[i]);
    }
}

/// One more tree that is packed to the left.
pub proof fn lemma_lined_packed<K, V>(ts: Seq<Tree<K, V>>, t: Tree<K, V>, m: usize, loose: int)
    requires
        lined(ts, m, loose),
        loose <= 1,
        left_packed(t, m),
        ts.len() > 0 ==> paired(ts.last(), t, m),
    ensures
        lined(ts.push(t), m, 2),
{
    reveal(lined);
    let us = ts.push(t);
    assert forall|i: int| 0 <= i < us.len() - 2 implies complete(#[trigger] us[i], m) by {
        assert(us[i] == ts[i]);
    }
    if ts.len() >= 1 {
        assert(us[us.len() - 2] == ts[ts.len() - 1]);
        if loose == 0 {
            assert(complete(ts[ts.len() - 1], m));
        }
    }
}

/// Leaves, of which the last two may be short as well as any.
pub proof fn lemma_leaves_lined<K, V>(ts: Seq<Tree<K, V>>, m: usize)
    requires
        forall|i: int| 0 <= i < ts.len() ==> (#[trigger] ts[i]) is Leaf,
    ensures
        lined(ts, m, 2),
{
    reveal(lined);
}

/// What is left when the first trees have gone.
pub proof fn lemma_lined_rest<K, V>(
    front: Seq<Tree<K, V>>,
    back: Seq<Tree<K, V>>,
    m: usize,
    loose: int,
)
    requires
        lined(front + back, m, loose),
        back.len() >= 2,
    ensures
        lined(front, m, 0),
        lined(back, m, loose),
{
    reveal(lined);
    let ts = front + back;
    assert forall|i: int| 0 <= i < front.len() implies complete(#[trigger] front[i], m) by {
        assert(ts[i] == front[i]);
    }
    assert forall|i: int| 0 <= i < back.len() - loose implies complete(#[trigger] back[i], m) by {
        assert(ts[front.len() + i] == back[i]);
    }
    assert(ts[ts.len() - 1] == back[back.len() - 1]);
    assert(ts[ts.len() - 2] == back[back.len() - 2]);
}

/// A node over complete trees.
pub proof fn lemma_over_complete<K, V>(t: Tree<K, V>, m: usize)
    requires
        t is Inner,
        lined(t->kids, m, 0),
    ensures
        solid(t, m),
{
    reveal(lined);
    let kids = t->kids;
    assert forall|i: int| 0 <= i < kids.len() implies ((#[trigger] kids[i]) is Inner ==> size(
        kids[i],
    ) == m) && solid(kids[i], m) by {
        assert(complete(kids[i], m));
    }
}

/// A node over trees of which the last two may be short.
pub proof fn lemma_over_packed<K, V>(t: Tree<K, V>, m: usize)
    requires
        t is Inner,
        lined(t->kids, m, 2),
    ensures
        left_packed(t, m),
{
    reveal(lined);
}

/// The nodes of the tree that are `d` levels below the root, left to right.
pub open spec fn nodes_at<K, V>(t: Tree<K, V>, d: nat) -> Seq<Tree<K, V>>
    decreases t, 0nat,
{
    if d == 0 {
        seq![t]
    } else {
        match t {
            Tree::Leaf { at, leaf } => Seq::empty(),
            Tree::Inner { at, keys, kids } => nodes_of(kids, (d - 1) as nat),
        }
    }
}

/// The nodes of a row of trees that are `d` levels below the roots, left to right.
pub open spec fn nodes_of<K, V>(ts: Seq<Tree<K, V>>, d: nat) -> Seq<Tree<K, V>>
    decreases ts, 1nat,
{
    if ts.len() == 0 {
        Seq::empty()
    } else {
        nodes_of(ts.drop_last(), d) + nodes_at(ts.last(), d)
    }
}

/// How much each node of a row holds.
pub open spec fn sizes<K, V>(ts: Seq<Tree<K, V>>) -> Seq<nat> {
    Seq::new(ts.len(), |i: int| size(ts[i]))
}

/// How many nodes it takes to hold `n` things, `m` in a node.
pub open spec fn parts(n: nat, m: usize) -> nat {
    (n + m - 1) as nat / m as nat
}

/// How much each node of a level holds when `n` things are packed to the left: all nodes are full,
/// but for the last two, and the last has taken from the one before it what it was short of half.
pub open spec fn spread(n: nat, m: usize) -> Seq<nat> {
    let k = parts(n, m);
    let last = n - (k - 1) * m;
    let lack = if k >= 2 && last < half(m) {
        half(m) - last
    } else {
        0
    };
    Seq::new(
        k,
        |i: int|
            if i == k - 1 {
                (last + lack) as nat
            } else if i == k - 2 {
                (m - lack) as nat
            } else {
                m as nat
            },
    )
}

/// Every level of inner nodes holds what is below it in as few nodes as it takes, packed to the
/// left.
pub open spec fn dense<K, V>(t: Tree<K, V>, h: nat, m: usize) -> bool {
    forall|d: nat|
        d < h ==> sizes(#[trigger] nodes_at(t, d)) == spread(nodes_at(t, d + 1).len(), m)
}

/// `h` is the least height at which `n` leaves find room under one root.
pub open spec fn lowest(n: nat, m: usize, h: nat) -> bool {
    &&& n <= pow(m as int, h)
    &&& h > 0 ==> pow(m as int, (h - 1) as nat) < n
}

/// The sum of a row of numbers.
pub open spec fn total(ns: Seq<nat>) -> nat
    decreases ns.len(),
{
    if ns.len() == 0 {
        0
    } else {
        total(ns.drop_last()) + ns.last()
    }
}

/// The sum of two rows side by side.
pub proof fn lemma_total_concat(a: Seq<nat>, b: Seq<nat>)
    ensures
        total(a + b) == total(a) + total(b),
    decreases b.len(),
{
    if b.len() == 0 {
        assert(a + b =~= a);
    } else {
        lemma_total_concat(a, b.drop_last());
        assert((a + b).drop_last() =~= a + b.drop_last());
    }
}

/// The nodes of a tree packed to the left, level by level: none is missing, all but the last two
/// are full, and these share what is left.
proof fn lemma_level<K, V>(t: Tree<K, V>, h: nat, m: usize, d: nat)
    requires
        m >= 3,
        upright(t, h, m),
        left_packed(t, m),
        size(t) >= 2,
        1 <= d < h,
    ensures
        ({
            let ns = nodes_at(t, d);
            let k = ns.len();
            &&& k >= 2
            &&& forall|i: int| 0 <= i < k - 2 ==> size(#[trigger] ns[i]) == m
            &&& shared(size(ns[k - 2]), size(ns[k - 1]), m)
        }),
    decreases t,
{
    let kids = t->kids;
    let g = (h - 1) as nat;
    let e = (d - 1) as nat;
    let n = kids.len() as int;
    let last = kids[n - 1];
    let second = kids[n - 2];
    let front = kids.drop_last();
    let first = front.drop_last();
    assert(nodes_at(t, d) == nodes_of(front, e) + nodes_at(last, e));
    assert(front.last() == second);
    assert(nodes_of(front, e) == nodes_of(first, e) + nodes_at(second, e));
    assert(upright(last, g, m) && upright(second, g, m));
    assert forall|i: int| 0 <= i < first.len() implies upright(#[trigger] first[i], g, m)
        && complete(first[i], m) by {
        assert(first[i] == kids[i]);
    }
    lemma_complete_row(first, g, m, e);
    let ns = nodes_at(t, d);
    let k = ns.len();
    if e > 0 {
        lemma_solid_level(second, g, m, e);
        lemma_level(last, g, m, e);
        let ls = nodes_at(last, e);
        assert(ns[k - 1] == ls[ls.len() - 1]);
        assert(ns[k - 2] == ls[ls.len() - 2]);
    } else {
        assert(nodes_at(last, e) == seq![last]);
        assert(nodes_at(second, e) == seq![second]);
        assert(ns[k - 1] == last);
        assert(ns[k - 2] == second);
    }
}

/// Below the root of such a tree every inner node is full.
proof fn lemma_solid_level<K, V>(t: Tree<K, V>, h: nat, m: usize, d: nat)
    requires
        upright(t, h, m),
        solid(t, m),
        1 <= d < h,
    ensures
        forall|i: int| 0 <= i < nodes_at(t, d).len() ==> size(#[trigger] nodes_at(t, d)[i]) == m,
    decreases t, 0nat,
{
    let kids = t->kids;
    assert forall|i: int| 0 <= i < kids.len() implies upright(#[trigger] kids[i], (h - 1) as nat, m)
        && complete(kids[i], m) by {}
    lemma_complete_row(kids, (h - 1) as nat, m, (d - 1) as nat);
    assert(nodes_at(t, d) == nodes_of(kids, (d - 1) as nat));
}

/// In a row of complete trees every inner node is full.
proof fn lemma_complete_row<K, V>(ts: Seq<Tree<K, V>>, h: nat, m: usize, d: nat)
    requires
        forall|i: int| 0 <= i < ts.len() ==> upright(#[trigger] ts[i], h, m) && complete(ts[i], m),
        d < h,
    ensures
        forall|i: int| 0 <= i < nodes_of(ts, d).len() ==> size(#[trigger] nodes_of(ts, d)[i]) == m,
    decreases ts, 1nat,
{
    if ts.len() > 0 {
        let front = ts.drop_last();
        let last = ts[ts.len() - 1];
        assert forall|i: int| 0 <= i < front.len() implies upright(#[trigger] front[i], h, m)
            && complete(front[i], m) by {
            assert(front[i] == ts[i]);
        }
        lemma_complete_row(front, h, m, d);
        assert(complete(last, m));
        assert(nodes_of(ts, d) == nodes_of(front, d) + nodes_at(last, d));
        if d > 0 {
            lemma_solid_level(last, h, m, d);
        } else {
            assert(nodes_at(last, d) == seq![last]);
        }
    }
}

/// The nodes of a level are the children of those above it.
proof fn lemma_level_total<K, V>(t: Tree<K, V>, h: nat, m: usize, d: nat)
    requires
        upright(t, h, m),
        d < h,
    ensures
        nodes_at(t, d + 1).len() == total(sizes(nodes_at(t, d))),
    decreases t, 0nat,
{
    let kids = t->kids;
    assert forall|i: int| 0 <= i < kids.len() implies upright(
        #[trigger] kids[i],
        (h - 1) as nat,
        m,
    ) by {}
    if d == 0 {
        lemma_roots(kids);
        assert(sizes(seq![t]) =~= seq![size(t)]);
        lemma_total_one(size(t));
        assert(nodes_at(t, 1) == nodes_of(kids, 0));
    } else {
        lemma_row_total(kids, (h - 1) as nat, m, (d - 1) as nat);
    }
}

proof fn lemma_row_total<K, V>(ts: Seq<Tree<K, V>>, h: nat, m: usize, d: nat)
    requires
        forall|i: int| 0 <= i < ts.len() ==> upright(#[trigger] ts[i], h, m),
        d < h,
    ensures
        nodes_of(ts, d + 1).len() == total(sizes(nodes_of(ts, d))),
    decreases ts, 1nat,
{
    if ts.len() > 0 {
        let front = ts.drop_last();
        let last = ts[ts.len() - 1];
        assert forall|i: int| 0 <= i < front.len() implies upright(#[trigger] front[i], h, m) by {
            assert(front[i] == ts[i]);
        }
        lemma_row_total(front, h, m, d);
        lemma_level_total(last, h, m, d);
        lemma_total_concat(sizes(nodes_of(front, d)), sizes(nodes_at(last, d)));
        assert(sizes(nodes_of(ts, d)) =~= sizes(nodes_of(front, d)) + sizes(nodes_at(last, d)));
    } else {
        assert(sizes(nodes_of(ts, d)) =~= Seq::<nat>::empty());
    }
}

/// The roots of a row.
proof fn lemma_roots<K, V>(ts: Seq<Tree<K, V>>)
    ensures
        nodes_of(ts, 0) == ts,
    decreases ts.len(),
{
    if ts.len() > 0 {
        lemma_roots(ts.drop_last());
        let last = ts.last();
        assert(nodes_at(last, 0) == seq![last]);
        assert(nodes_of(ts, 0) == nodes_of(ts.drop_last(), 0) + nodes_at(last, 0));
        assert(nodes_of(ts, 0) =~= ts);
    } else {
        assert(nodes_of(ts, 0) =~= ts);
    }
}

/// As many full nodes as it takes, and two that share what is left.
proof fn lemma_spread(ns: Seq<nat>, m: usize)
    requires
        m >= 3,
        ns.len() >= 2,
        forall|i: int| 0 <= i < ns.len() - 2 ==> #[trigger] ns[i] == m,
        shared(ns[ns.len() - 2], ns[ns.len() - 1], m),
    ensures
        ns == spread(total(ns), m),
{
    let k = ns.len();
    let x = ns[k - 2];
    let y = ns[k - 1];
    let full = ns.drop_last().drop_last();
    assert(ns.drop_last().last() == x);
    assert(total(ns.drop_last()) == total(full) + x);
    assert(total(ns) == total(ns.drop_last()) + y);
    lemma_total_full(full, m);
    let n = total(ns);
    assert(n == (k - 2) * m + x + y);
    assert((k - 1) * m == (k - 2) * m + m) by (nonlinear_arith);
    assert(k * m == (k - 1) * m + m) by (nonlinear_arith);
    lemma_parts(n, m, k);
    assert(ns =~= spread(n, m));
}

/// The sum of one number.
proof fn lemma_total_one(n: nat)
    ensures
        total(seq![n]) == n,
{
    assert(seq![n].drop_last() =~= Seq::<nat>::empty());
    assert(total(Seq::<nat>::empty()) == 0);
}

/// The sum of equal numbers.
proof fn lemma_total_full(ns: Seq<nat>, m: usize)
    requires
        forall|i: int| 0 <= i < ns.len() ==> #[trigger] ns[i] == m,
    ensures
        total(ns) == ns.len() * m,
    decreases ns.len(),
{
    if ns.len() > 0 {
        lemma_total_full(ns.drop_last(), m);
        assert(ns.len() * m == (ns.len() - 1) * m + m) by (nonlinear_arith);
    }
}

/// How many nodes it takes, as the one number that fits.
pub proof fn lemma_parts(n: nat, m: usize, k: nat)
    requires
        m > 0,
        (k - 1) * m < n <= k * m,
    ensures
        parts(n, m) == k,
{
    let r = n - (k - 1) * m - 1;
    assert(n + m - 1 == k * m + r) by (nonlinear_arith)
        requires
            r == n - (k - 1) * m - 1,
    ;
    assert(k * m == (k - 1) * m + m) by (nonlinear_arith);
    vstd::arithmetic::div_mod::lemma_fundamental_div_mod_converse(
        n + m - 1,
        m as int,
        k as int,
        r,
    );
}

/// A tree packed to the left holds every level in as few nodes as it takes.
pub proof fn law_dense<K, V>(t: Tree<K, V>, h: nat, m: usize)
    requires
        m >= 3,
        upright(t, h, m),
        left_packed(t, m),
        size(t) >= 2,
    ensures
        dense(t, h, m),
{
    assert forall|d: nat| d < h implies sizes(#[trigger] nodes_at(t, d)) == spread(
        nodes_at(t, d + 1).len(),
        m,
    ) by {
        lemma_level_total(t, h, m, d);
        let ns = sizes(nodes_at(t, d));
        if d == 0 {
            let n = size(t);
            assert(ns =~= seq![n]);
            lemma_total_one(n);
            lemma_parts(n, m, 1);
            assert(ns =~= spread(n, m));
        } else {
            lemma_level(t, h, m, d);
            lemma_spread(ns, m);
        }
    }
}

/// The lowest level is that of the leaves.
pub proof fn lemma_ground<K, V>(t: Tree<K, V>, h: nat, m: usize)
    requires
        upright(t, h, m),
    ensures
        nodes_at(t, h).len() == leaves(t).len(),
    decreases t, 0nat,
{
    if let Tree::Inner { at, keys, kids } = t {
        assert forall|i: int| 0 <= i < kids.len() implies upright(
            #[trigger] kids[i],
            (h - 1) as nat,
            m,
        ) by {}
        lemma_row_ground(kids, (h - 1) as nat, m);
    }
}

proof fn lemma_row_ground<K, V>(ts: Seq<Tree<K, V>>, h: nat, m: usize)
    requires
        forall|i: int| 0 <= i < ts.len() ==> upright(#[trigger] ts[i], h, m),
    ensures
        nodes_of(ts, h).len() == leaves_of(ts).len(),
    decreases ts, 1nat,
{
    reveal(leaves_of);
    if ts.len() > 0 {
        let front = ts.drop_last();
        assert forall|i: int| 0 <= i < front.len() implies upright(#[trigger] front[i], h, m) by {
            assert(front[i] == ts[i]);
        }
        assert(upright(ts[ts.len() - 1], h, m));
        lemma_row_ground(front, h, m);
        lemma_ground(ts.last(), h, m);
    }
}

/// It takes fewer nodes than there are things, and one node only if they fit one.
pub proof fn lemma_fewer(n: nat, m: usize)
    requires
        m >= 3,
        n >= 1,
    ensures
        parts(n, m) >= 1,
        (parts(n, m) - 1) * m < n <= parts(n, m) * m,
        n >= 2 ==> parts(n, m) < n,
{
    let q = parts(n, m);
    let r = (n + m - 1) % m as int;
    vstd::arithmetic::div_mod::lemma_fundamental_div_mod(n + m - 1, m as int);
    assert(q == (n + m - 1) / m as int);
    assert(n + m - 1 == q * m + r) by (nonlinear_arith)
        requires
            n + m - 1 == m * q + r,
    ;
    assert((q - 1) * m == q * m - m) by (nonlinear_arith);
    if q == 0 {
        assert(q * m == 0) by (nonlinear_arith)
            requires
                q == 0,
        ;
    }
    if n >= 2 && q >= n {
        assert((q - 1) * m >= (n - 1) * 3) by (nonlinear_arith)
            requires
                q >= n,
                m >= 3,
                n >= 2,
        ;
    }
}

/// A level of `n` nodes, and the levels on top of it, up to one root.
pub open spec fn tiers(n: nat, m: usize) -> nat
    decreases n,
{
    if n <= 1 || parts(n, m) >= n {
        0
    } else {
        parts(n, m) + tiers(parts(n, m), m)
    }
}

/// The numbers of nodes of the first `e` levels, summed.
spec fn upper<K, V>(t: Tree<K, V>, e: nat) -> nat
    decreases e,
{
    if e == 0 {
        0
    } else {
        upper(t, (e - 1) as nat) + nodes_at(t, (e - 1) as nat).len()
    }
}

/// The numbers of nodes of the first `e` levels of a row, summed.
spec fn upper_of<K, V>(ts: Seq<Tree<K, V>>, e: nat) -> nat
    decreases e,
{
    if e == 0 {
        0
    } else {
        upper_of(ts, (e - 1) as nat) + nodes_of(ts, (e - 1) as nat).len()
    }
}

proof fn lemma_upper_root<K, V>(t: Tree<K, V>, e: nat)
    requires
        t is Inner,
    ensures
        upper(t, e + 1) == 1 + upper_of(t->kids, e),
    decreases e,
{
    if e > 0 {
        lemma_upper_root(t, (e - 1) as nat);
        assert(nodes_at(t, e) == nodes_of(t->kids, (e - 1) as nat));
    } else {
        assert(upper(t, 0) == 0);
        assert(nodes_at(t, 0) == seq![t]);
    }
}

proof fn lemma_upper_row<K, V>(ts: Seq<Tree<K, V>>, e: nat)
    requires
        ts.len() > 0,
    ensures
        upper_of(ts, e) == upper_of(ts.drop_last(), e) + upper(ts.last(), e),
    decreases e,
{
    if e > 0 {
        lemma_upper_row(ts, (e - 1) as nat);
    }
}

/// The inner nodes are those above the lowest level.
proof fn lemma_upper<K, V>(t: Tree<K, V>, h: nat, m: usize)
    requires
        upright(t, h, m),
    ensures
        inners(t) == upper(t, h),
    decreases t, 0nat,
{
    if let Tree::Inner { at, keys, kids } = t {
        assert forall|i: int| 0 <= i < kids.len() implies upright(
            #[trigger] kids[i],
            (h - 1) as nat,
            m,
        ) by {}
        lemma_upper_of(kids, (h - 1) as nat, m);
        lemma_upper_root(t, (h - 1) as nat);
    }
}

proof fn lemma_upper_of<K, V>(ts: Seq<Tree<K, V>>, h: nat, m: usize)
    requires
        forall|i: int| 0 <= i < ts.len() ==> upright(#[trigger] ts[i], h, m),
    ensures
        inners_of(ts) == upper_of(ts, h),
    decreases ts, 1nat,
{
    if ts.len() > 0 {
        let front = ts.drop_last();
        assert forall|i: int| 0 <= i < front.len() implies upright(#[trigger] front[i], h, m) by {
            assert(front[i] == ts[i]);
        }
        assert(upright(ts[ts.len() - 1], h, m));
        lemma_upper_of(front, h, m);
        lemma_upper(ts.last(), h, m);
        lemma_upper_row(ts, h);
    } else {
        lemma_upper_none::<K, V>(ts, h);
    }
}

proof fn lemma_upper_none<K, V>(ts: Seq<Tree<K, V>>, e: nat)
    requires
        ts.len() == 0,
    ensures
        upper_of(ts, e) == 0,
    decreases e,
{
    if e > 0 {
        lemma_upper_none(ts, (e - 1) as nat);
    }
}

/// The levels of a dense tree down to depth `d`.
proof fn lemma_stack<K, V>(t: Tree<K, V>, h: nat, m: usize, d: nat)
    requires
        m >= 3,
        dense(t, h, m),
        size(t) >= 2,
        t is Inner,
        d <= h,
    ensures
        upper(t, d) == tiers(nodes_at(t, d).len(), m),
        nodes_at(t, d).len() <= pow(m as int, d),
        d > 0 ==> pow(m as int, (d - 1) as nat) < nodes_at(t, d).len(),
    decreases d,
{
    reveal(pow);
    let n = nodes_at(t, d).len();
    if d == 0 {
        assert(nodes_at(t, 0) == seq![t]);
        assert(pow(m as int, 0) == 1);
    } else {
        let e = (d - 1) as nat;
        lemma_stack(t, h, m, e);
        let k = nodes_at(t, e).len();
        assert(sizes(nodes_at(t, e)) == spread(nodes_at(t, e + 1).len(), m));
        assert(e + 1 == d);
        assert(sizes(nodes_at(t, e)).len() == k);
        assert(spread(n, m).len() == parts(n, m));
        if e == 0 {
            lemma_roots(t->kids);
            assert(nodes_at(t, 1) == nodes_of(t->kids, 0));
            assert(pow(m as int, 0) == 1);
        }
        assert(n >= 1) by {
            if e > 0 {
                vstd::arithmetic::power::lemma_pow_positive(m as int, (e - 1) as nat);
            }
            if n == 0 {
                vstd::arithmetic::div_mod::lemma_basic_div(m - 1, m as int);
            }
        }
        lemma_fewer(n, m);
        let p = pow(m as int, e);
        assert(pow(m as int, d) == m * p);
        assert(n <= m * p) by (nonlinear_arith)
            requires
                n <= k * m,
                k <= p,
                m > 0,
        ;
        if e > 0 {
            let q = pow(m as int, (e - 1) as nat);
            assert(p == m * q);
            assert(p < n) by (nonlinear_arith)
                requires
                    (k - 1) * m < n,
                    q < k,
                    p == m * q,
                    m > 0,
            ;
            assert(q >= 1) by {
                vstd::arithmetic::power::lemma_pow_positive(m as int, (e - 1) as nat);
            }
            assert(n >= 2) by (nonlinear_arith)
                requires
                    (k - 1) * m < n,
                    k >= 2,
                    m >= 3,
            ;
        }
    }
}

/// A dense tree is as low as a tree over its leaves can be, and has as few inner nodes as its
/// levels take.
pub proof fn law_lowest<K, V>(t: Tree<K, V>, h: nat, m: usize)
    requires
        m >= 3,
        upright(t, h, m),
        dense(t, h, m),
        h > 0 ==> size(t) >= 2,
    ensures
        lowest(leaves(t).len(), m, h),
        inners(t) == tiers(leaves(t).len(), m),
{
    lemma_ground(t, h, m);
    lemma_upper(t, h, m);
    if h > 0 {
        lemma_stack(t, h, m, h);
    } else {
        reveal(pow);
        assert(pow(m as int, 0) == 1);
        crate::lemmas::lemma_leaf_pairs(t);
    }
}

/// What the first node of a level takes, and how the rest is spread.
pub proof fn lemma_spread_step(n: nat, m: usize)
    requires
        m >= 3,
        n >= 1,
    ensures
        0 < cut(n as int, m) <= n,
        spread(n, m) == seq![cut(n as int, m) as nat] + spread((n - cut(n as int, m)) as nat, m),
{
    let c = cut(n as int, m);
    let rest = (n - c) as nat;
    let k = parts(n, m);
    lemma_fewer(n, m);
    if n <= m {
        lemma_parts(n, m, 1);
        lemma_spread_none(m);
        assert((k - 1) * m == 0) by (nonlinear_arith)
            requires
                k == 1,
        ;
        assert(spread(n, m) =~= seq![c as nat] + spread(rest, m));
    } else if n < m + half(m) {
        lemma_parts(n, m, 2);
        lemma_parts(rest, m, 1);
        assert((k - 1) * m == m) by (nonlinear_arith)
            requires
                k == 2,
        ;
        assert(spread(n, m) =~= seq![c as nat] + spread(rest, m));
    } else {
        let j = (k - 1) as nat;
        assert((k - 1) * m == (j - 1) * m + m) by (nonlinear_arith)
            requires
                j == k - 1,
        ;
        assert(k * m == j * m + m) by (nonlinear_arith)
            requires
                j == k - 1,
        ;
        lemma_parts(rest, m, j);
        if k == 2 {
            assert((k - 1) * m == m) by (nonlinear_arith)
                requires
                    k == 2,
            ;
        }
        assert(spread(n, m) =~= seq![c as nat] + spread(rest, m));
    }
}

/// Nothing takes no nodes.
pub proof fn lemma_spread_none(m: usize)
    requires
        m > 0,
    ensures
        spread(0, m) == Seq::<nat>::empty(),
{
    vstd::arithmetic::div_mod::lemma_basic_div(m - 1, m as int);
    assert(spread(0, m) =~= Seq::<nat>::empty());
}

} // verus!
