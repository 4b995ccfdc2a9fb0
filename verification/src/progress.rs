//! The levels of a tree that a bulk load is building.
use crate::allocator::{Addr, NodeAllocator, Store};
use crate::inner::Inner;
use crate::key::{lt, ordered, Key};
use crate::leaf::{half, Leaf};
use crate::model::{
    abs, any_inner, any_leaf, apart, distinct, filled, group_unfold, held, high, leaves, leaves_of,
    low, moved, ord, pairs_of, replaced, size, under, Tree,
};
use crate::packing::{
    complete, dense, keyed, law_dense, law_lowest, left_packed, lemma_leaves_lined,
    lemma_lined_complete, lemma_lined_front, lemma_lined_leaves, lemma_lined_packed,
    lemma_lined_rest, lemma_lined_solid, lemma_over_complete, lemma_over_packed, lined, lowest,
    shared, solid, sturdy, upright,
};
use crate::row::{
    law_row_continued, lemma_adopted, lemma_remake, lemma_rotated, lemma_row_owned, lemma_row_part, lemma_wrapped,
    remade, row_ok, row_owned, seps, spliced, stands, trees, Piece,
};
use crate::search::drop_next;
use vstd::arithmetic::power::pow;
use vstd::prelude::*;

verus! {

broadcast use group_unfold;

/// What a bulk load holds back on one level: nodes with the smallest key below them.
pub struct LevelState<K> {
    /// A full node.
    pending: Option<(K, Addr)>,
    /// The node that is filling.
    current: Option<(K, Addr)>,
}

impl<K: Key> LevelState<K> {
    /// The full node.
    pub closed spec fn full(self) -> Option<(K, Addr)> {
        self.pending
    }

    /// The node that is filling.
    pub closed spec fn filling(self) -> Option<(K, Addr)> {
        self.current
    }

    /// Nothing is held back.
    pub open spec fn is_clear(self) -> bool {
        self.full() is None && self.filling() is None
    }
}

/// A node of height `h`, if there is one, as a row.
pub open spec fn at_most_one<K>(node: Option<(K, Addr)>, h: nat) -> Seq<Piece<K>> {
    match node {
        Some((key, at)) => seq![Piece { key, at, h }],
        None => Seq::empty(),
    }
}

/// The nodes of level `h`, in key order. They have height `h + 1`.
pub open spec fn level<K: Key>(st: LevelState<K>, h: nat) -> Seq<Piece<K>> {
    at_most_one(st.full(), h + 1) + at_most_one(st.filling(), h + 1)
}

/// The nodes of the levels from `b` up to, but without, `h`, in key order: higher levels first.
pub open spec fn span<K: Key>(states: Seq<LevelState<K>>, b: int, h: int) -> Seq<Piece<K>>
    decreases h - b,
{
    if h <= b {
        Seq::empty()
    } else {
        level(states[h - 1], (h - 1) as nat) + span(states, b, h - 1)
    }
}

/// The levels from `b` to `h` are those from `m` to `h` before those from `b` to `m`.
proof fn lemma_span_split<K: Key>(states: Seq<LevelState<K>>, b: int, m: int, h: int)
    requires
        b <= m <= h,
    ensures
        span(states, b, h) == span(states, m, h) + span(states, b, m),
    decreases h - b,
{
    if h <= b {
        assert(span(states, b, h) =~= span(states, m, h) + span(states, b, m));
    } else if m == h {
        assert(span(states, m, h) + span(states, b, m) =~= span(states, b, h));
    } else {
        lemma_span_split(states, b, m, h - 1);
        assert(span(states, b, h) =~= span(states, m, h) + span(states, b, m));
    }
}

/// Levels that agree give the same row.
proof fn lemma_span_same<K: Key>(
    states: Seq<LevelState<K>>,
    other: Seq<LevelState<K>>,
    b: int,
    h: int,
)
    requires
        forall|g: int| b <= g < h ==> #[trigger] states[g] == other[g],
    ensures
        span(states, b, h) == span(other, b, h),
    decreases h - b,
{
    if h > b {
        lemma_span_same(states, other, b, h - 1);
        assert(states[h - 1] == other[h - 1]);
    }
}

/// Level `h` holds nodes of the right sizes.
pub open spec fn level_ok<K: Key, V, const M: usize>(
    s: Store<K, V, M>,
    st: LevelState<K>,
    h: nat,
) -> bool {
    &&& st.full() matches Some((k, a)) ==> size(abs(s, a, h + 1)) == M
    &&& st.filling() matches Some((k, a)) ==> 1 <= size(abs(s, a, h + 1)) < M
}

/// From level `b` on, every level holds something, of the right size, and every level but the
/// highest a full node.
pub open spec fn levels_ok<K: Key, V, const M: usize>(
    s: Store<K, V, M>,
    states: Seq<LevelState<K>>,
    b: int,
) -> bool {
    &&& forall|g: int|
        b <= g < states.len() ==> level_ok(s, #[trigger] states[g], g as nat)
            && !states[g].is_clear()
    &&& forall|g: int| b <= g < states.len() - 1 ==> (#[trigger] states[g]).full() is Some
}

/// The children of a node of height `h`, if there is one.
pub open spec fn kids_of<K: Key, V, const M: usize>(
    s: Store<K, V, M>,
    node: Option<(K, Addr)>,
    h: nat,
) -> Seq<Tree<K, V>> {
    match node {
        Some((key, at)) => abs(s, at, h)->kids,
        None => Seq::empty(),
    }
}

/// The children of the nodes of level `h`, in key order.
pub open spec fn load_of<K: Key, V, const M: usize>(
    s: Store<K, V, M>,
    st: LevelState<K>,
    h: nat,
) -> Seq<Tree<K, V>> {
    kids_of(s, st.full(), h + 1) + kids_of(s, st.filling(), h + 1)
}

/// The children of the nodes of level `h`, which may be a new one.
pub open spec fn load_at<K: Key, V, const M: usize>(
    s: Store<K, V, M>,
    states: Seq<LevelState<K>>,
    h: int,
) -> Seq<Tree<K, V>> {
    if h < states.len() {
        load_of(s, states[h], h as nat)
    } else {
        Seq::empty()
    }
}

/// From level `b` on, everything that the nodes have taken in is complete.
pub open spec fn levels_lined<K: Key, V, const M: usize>(
    s: Store<K, V, M>,
    states: Seq<LevelState<K>>,
    b: int,
) -> bool {
    forall|g: int|
        b <= g < states.len() ==> lined(load_of(s, #[trigger] states[g], g as nat), M, 0)
}

/// A level whose trees stay as they are keeps what it has taken in.
proof fn lemma_load_kept<K: Key, V, const M: usize>(
    s: Store<K, V, M>,
    u: Store<K, V, M>,
    st: LevelState<K>,
    h: nat,
)
    requires
        trees(s, level(st, h)) == trees(u, level(st, h)),
    ensures
        load_of(u, st, h) == load_of(s, st, h),
        kids_of(u, st.full(), h + 1) == kids_of(s, st.full(), h + 1),
{
    let row = level(st, h);
    if let Some((key, at)) = st.full() {
        assert(row[0] == (Piece { key, at, h: h + 1 }));
        assert(trees(s, row)[0] == abs(s, row[0].at, row[0].h));
        assert(trees(u, row)[0] == abs(u, row[0].at, row[0].h));
    }
    if let Some((key, at)) = st.filling() {
        let l = row.len() - 1;
        assert(row[l] == (Piece { key, at, h: h + 1 }));
        assert(trees(s, row)[l] == abs(s, row[l].at, row[l].h));
        assert(trees(u, row)[l] == abs(u, row[l].at, row[l].h));
    }
}

/// Levels whose trees stay as they are keep what they have taken in.
pub proof fn lemma_loads_kept<K: Key, V, const M: usize>(
    s: Store<K, V, M>,
    u: Store<K, V, M>,
    states: Seq<LevelState<K>>,
    b: int,
    h: int,
)
    requires
        0 <= b,
        trees(s, span(states, b, h)) == trees(u, span(states, b, h)),
    ensures
        forall|g: int|
            b <= g < h ==> load_of(u, #[trigger] states[g], g as nat) == load_of(
                s,
                states[g],
                g as nat,
            ),
    decreases h - b,
{
    if h > b {
        let st = states[h - 1];
        let top = level(st, (h - 1) as nat);
        let low = span(states, b, h - 1);
        lemma_trees_concat(s, top, low);
        lemma_trees_concat(u, top, low);
        assert(trees(s, low) =~= trees(s, span(states, b, h)).skip(top.len() as int));
        assert(trees(u, low) =~= trees(u, span(states, b, h)).skip(top.len() as int));
        assert(trees(s, top) =~= trees(s, span(states, b, h)).take(top.len() as int));
        assert(trees(u, top) =~= trees(u, span(states, b, h)).take(top.len() as int));
        lemma_loads_kept(s, u, states, b, h - 1);
        lemma_load_kept(s, u, st, (h - 1) as nat);
    }
}

/// What the nodes of the lowest level have taken in are leaves.
pub proof fn lemma_lowest<K: Key, V, const M: usize>(
    s: Store<K, V, M>,
    states: Seq<LevelState<K>>,
    node: Addr,
)
    ensures
        lined(load_at(s, states, 0), M, 0),
        lined(load_at(s, states, 0), M, 2),
        lined(load_at(s, states, 0).push(abs(s, node, 0)), M, 0),
{
    assert forall|a: Addr, i: int|
        0 <= i < abs(s, a, 1)->kids.len() implies (#[trigger] abs(s, a, 1)->kids[i]) is Leaf by {
        assert(abs(s, a, 1)->kids[i] == abs(s, s.inners[a]@.kids[i], 0));
    }
    lemma_lined_leaves(load_at(s, states, 0), M);
    lemma_leaves_lined(load_at(s, states, 0), M);
    lemma_lined_leaves(load_at(s, states, 0).push(abs(s, node, 0)), M);
}

/// What the nodes of a higher level have taken in are inner nodes.
proof fn lemma_higher<K: Key, V, const M: usize>(
    s: Store<K, V, M>,
    states: Seq<LevelState<K>>,
    h: int,
)
    requires
        h > 0,
    ensures
        forall|i: int|
            0 <= i < load_at(s, states, h).len() ==> (#[trigger] load_at(s, states, h)[i]) is Inner,
{
    assert forall|a: Addr, i: int|
        0 <= i < abs(s, a, h as nat + 1)->kids.len() implies (#[trigger] abs(
        s,
        a,
        h as nat + 1,
    )->kids[i]) is Inner by {
        assert(abs(s, a, h as nat + 1)->kids[i] == abs(s, s.inners[a]@.kids[i], h as nat));
    }
}

/// The trees of two rows side by side.
proof fn lemma_trees_concat<K: Key, V, const M: usize>(
    s: Store<K, V, M>,
    a: Seq<Piece<K>>,
    b: Seq<Piece<K>>,
)
    ensures
        trees(s, a + b) == trees(s, a) + trees(s, b),
{
    assert(trees(s, a + b) =~= trees(s, a) + trees(s, b));
}

/// Levels whose trees stay as they are keep their sizes.
proof fn lemma_levels_kept<K: Key, V, const M: usize>(
    s: Store<K, V, M>,
    u: Store<K, V, M>,
    states: Seq<LevelState<K>>,
    b: int,
    h: int,
)
    requires
        0 <= b,
        trees(s, span(states, b, h)) == trees(u, span(states, b, h)),
        forall|g: int| b <= g < h ==> level_ok(s, #[trigger] states[g], g as nat),
    ensures
        forall|g: int| b <= g < h ==> level_ok(u, #[trigger] states[g], g as nat),
    decreases h - b,
{
    if h > b {
        let st = states[h - 1];
        let top = level(st, (h - 1) as nat);
        let low = span(states, b, h - 1);
        lemma_trees_concat(s, top, low);
        lemma_trees_concat(u, top, low);
        assert(trees(s, low) =~= trees(s, span(states, b, h)).skip(top.len() as int));
        assert(trees(u, low) =~= trees(u, span(states, b, h)).skip(top.len() as int));
        assert(trees(s, top) =~= trees(s, span(states, b, h)).take(top.len() as int));
        assert(trees(u, top) =~= trees(u, span(states, b, h)).take(top.len() as int));
        lemma_levels_kept(s, u, states, b, h - 1);
        lemma_level_kept(s, u, st, (h - 1) as nat);
        assert forall|g: int| b <= g < h implies level_ok(u, #[trigger] states[g], g as nat) by {}
    }
}

proof fn lemma_level_kept<K: Key, V, const M: usize>(
    s: Store<K, V, M>,
    u: Store<K, V, M>,
    st: LevelState<K>,
    h: nat,
)
    requires
        trees(s, level(st, h)) == trees(u, level(st, h)),
        level_ok(s, st, h),
    ensures
        level_ok(u, st, h),
{
    let row = level(st, h);
    if let Some((key, at)) = st.full() {
        assert(row[0] == (Piece { key, at, h: h + 1 }));
        assert(trees(s, row)[0] == abs(s, row[0].at, row[0].h));
        assert(trees(u, row)[0] == abs(u, row[0].at, row[0].h));
    }
    if let Some((key, at)) = st.filling() {
        let l = row.len() - 1;
        assert(row[l] == (Piece { key, at, h: h + 1 }));
        assert(trees(s, row)[l] == abs(s, row[l].at, row[l].h));
        assert(trees(u, row)[l] == abs(u, row[l].at, row[l].h));
    }
}

/// The part of a row in front of the trees that were remade, and the part behind, stay.
proof fn lemma_ends_kept<K: Key, V, const M: usize>(
    s: Store<K, V, M>,
    u: Store<K, V, M>,
    front: Seq<Piece<K>>,
    old_mid: Seq<Piece<K>>,
    new_mid: Seq<Piece<K>>,
    back: Seq<Piece<K>>,
)
    requires
        ({
            let ts = trees(s, front + old_mid + back);
            let i = front.len() as int;
            let j = i + old_mid.len();
            trees(u, front + new_mid + back) == ts.take(i) + trees(u, new_mid) + ts.skip(j)
        }),
    ensures
        trees(u, front) == trees(s, front),
        trees(u, back) == trees(s, back),
{
    let ts = trees(s, front + old_mid + back);
    let i = front.len() as int;
    let j = i + old_mid.len();
    let us = trees(u, front + new_mid + back);
    lemma_trees_concat(s, front + old_mid, back);
    lemma_trees_concat(s, front, old_mid);
    lemma_trees_concat(u, front + new_mid, back);
    lemma_trees_concat(u, front, new_mid);
    assert(trees(s, front) =~= ts.take(i));
    assert(trees(u, front) =~= us.take(i));
    assert(trees(s, back) =~= ts.skip(j));
    assert(trees(u, back) =~= us.skip(i + new_mid.len()));
    assert(us.take(i) =~= ts.take(i));
    assert(us.skip(i + new_mid.len()) =~= ts.skip(j));
}

/// The levels of a tree in the making, and the number of pairs that went into it.
pub struct TreeProgress<K> {
    states: Vec<LevelState<K>>,
    len: usize,
}

/// From the row `row` in `s` to the row `row2` in `u`: the same pairs in other trees.
pub open spec fn carried<K: Key, V, const M: usize>(
    s: Store<K, V, M>,
    row: Seq<Piece<K>>,
    u: Store<K, V, M>,
    row2: Seq<Piece<K>>,
) -> bool {
    &&& remade(s, u, trees(s, row), row2, None, None)
    &&& row_owned(u, row2)
}

/// One rearrangement after another.
proof fn lemma_carried_trans<K: Key, V, const M: usize>(
    s: Store<K, V, M>,
    a: Seq<Piece<K>>,
    t: Store<K, V, M>,
    b: Seq<Piece<K>>,
    u: Store<K, V, M>,
    c: Seq<Piece<K>>,
)
    requires
        carried(s, a, t, b),
        carried(t, b, u, c),
    ensures
        carried(s, a, u, c),
{
    crate::lemmas::lemma_replaced_trans(s, t, u, trees(s, a), trees(t, b), trees(u, c));
}

impl<K: Key> TreeProgress<K> {
    /// The levels.
    pub closed spec fn levels(&self) -> Seq<LevelState<K>> {
        self.states@
    }

    /// The number of pairs that went in.
    pub closed spec fn count(&self) -> usize {
        self.len
    }

    /// No levels yet.
    pub fn new() -> (r: Self)
        ensures
            r.levels() == Seq::<LevelState<K>>::empty(),
            r.count() == 0,
    {
        TreeProgress { states: Vec::new(), len: 0 }
    }

    /// Puts a node of height `h` into the node that is filling on level `h`. If that one becomes
    /// full, it takes the place of the full node before it, which is returned: it has to move up.
    #[verifier::rlimit(50)]
    #[verifier::spinoff_prover]
    fn place<V, const M: usize, A: NodeAllocator<K, V, M>>(
        &mut self,
        h: usize,
        key: K,
        node: Addr,
        alloc: &mut A,
        Ghost(below): Ghost<Seq<Piece<K>>>,
        Ghost(loose): Ghost<int>,
    ) -> (r: Option<(K, Addr)>)
        requires
            M >= 3,
            ordered::<K>(),
            old(alloc).wf(),
            h <= old(self).levels().len(),
            h < usize::MAX,
            ({
                let s = old(alloc).store();
                let states = old(self).levels();
                let inc = Piece { key, at: node, h: h as nat };
                let row = span(states, h as int, states.len() as int) + seq![inc] + below;
                &&& row_ok(s, row, None, None)
                &&& row_owned(s, row)
                &&& sturdy(abs(s, node, h as nat), M)
                &&& levels_ok(s, states, h as int)
                &&& levels_lined(s, states, h + 1)
                &&& lined(load_at(s, states, h as int).push(abs(s, node, h as nat)), M, loose)
            }),
        ensures
            final(alloc).wf(),
            final(self).count() == old(self).count(),
            ({
                let s = old(alloc).store();
                let u = final(alloc).store();
                let states = old(self).levels();
                let states2 = final(self).levels();
                let n = states2.len() as int;
                let inc = Piece { key, at: node, h: h as nat };
                let row = span(states, h as int, states.len() as int) + seq![inc] + below;
                let mine = states2[h as int];
                let row2 = match r {
                    None => span(states2, h as int, n) + below,
                    Some((k, a)) => span(states2, h + 1, n) + seq![
                        Piece { key: k, at: a, h: h as nat + 1 },
                    ] + (level(mine, h as nat) + below),
                };
                &&& n == (if h == states.len() {
                    h + 1
                } else {
                    states.len() as int
                })
                &&& forall|g: int|
                    0 <= g < states.len() && g != h ==> #[trigger] states2[g] == states[g]
                &&& carried(s, row, u, row2)
                &&& trees(u, below) == trees(s, below)
                &&& levels_ok(u, states2, h + 1)
                &&& levels_lined(u, states2, h + 1)
                &&& lined(load_of(u, mine, h as nat), M, loose)
                &&& load_of(u, mine, h as nat).len() > 0
                &&& load_of(u, mine, h as nat).last() == abs(s, node, h as nat)
                &&& r matches Some((k, a)) ==> complete(abs(u, a, h as nat + 1), M)
                &&& level_ok(u, mine, h as nat)
                &&& !mine.is_clear()
                &&& r is None && h + 1 < n ==> mine.full() is Some
                &&& r matches Some((k, a)) ==> {
                    &&& mine.full() is Some
                    &&& filled(abs(u, a, h as nat + 1), M)
                }
                &&& h < states.len() && states[h as int].full() is Some ==> mine.full() is Some
                &&& mine.full() is Some || (mine.filling() matches Some((k, a)) && size(
                    abs(u, a, h as nat + 1),
                ) == 1 + (if h < states.len() {
                    match states[h as int].filling() {
                        Some((k0, a0)) => size(abs(s, a0, h as nat + 1)) as int,
                        None => 0,
                    }
                } else {
                    0
                }))
            }),
    {
        let ghost s = alloc.store();
        let ghost states = self.states@;
        let ghost l = states.len() as int;
        let ghost hh = h as int;
        let ghost inc = Piece { key, at: node, h: h as nat };
        let ghost above = span(states, hh + 1, l);
        let ghost row = span(states, hh, l) + seq![inc] + below;
        if h == self.states.len() {
            self.states.push(LevelState { pending: None, current: None });
        }
        let ghost st = self.states@[hh];
        let ghost mid = level(st, h as nat);
        proof {
            lemma_span_same(states, self.states@, hh + 1, l);
            if h < states.len() {
                lemma_span_split(states, hh, hh + 1, l);
                assert(span(states, hh, hh) =~= Seq::<Piece<K>>::empty());
                assert(span(states, hh, hh + 1) =~= mid);
            } else {
                assert(above =~= Seq::<Piece<K>>::empty());
                assert(mid =~= Seq::<Piece<K>>::empty());
            }
            assert(span(states, hh, l) =~= above + mid);
            assert(row =~= above + mid + seq![inc] + below);
        }
        match self.states[h].current {
            None => {
                let inner = Inner::from_first_child(node);
                proof {
                    alloc.lemma_room();
                }
                let at = alloc.alloc_inner(inner);
                self.states[h].current = Some((key, at));
                proof {
                    let u = alloc.store();
                    let i = (above + mid).len() as int;
                    let new = Piece { key, at, h: h as nat + 1 };
                    assert(row[i] == inc);
                    lemma_row_part(s, row, i, i + 1, None, None);
                    assert(row.subrange(i, i + 1) =~= seq![inc]);
                    let lo = low(seps(row), i, None);
                    let hi = high(seps(row), i, None);
                    lemma_wrapped(s, at, node, h as nat, key, inner, lo, hi);
                    lemma_remake(s, u, row, i, i + 1, seq![new], None, None);
                    let row2 = spliced(row, i, i + 1, seq![new]);
                    lemma_row_owned(s, u, row, row2);
                    assert(row2 =~= above + mid + seq![new] + below);
                    lemma_ends_kept(s, u, above + mid, seq![inc], seq![new], below);
                    lemma_trees_concat(s, above, mid);
                    lemma_trees_concat(u, above, mid);
                    assert(trees(u, above) =~= trees(s, above)) by {
                        assert(trees(s, above) =~= trees(s, above + mid).take(above.len() as int));
                        assert(trees(u, above) =~= trees(u, above + mid).take(above.len() as int));
                    }
                    assert(trees(u, mid) =~= trees(s, mid)) by {
                        assert(trees(s, mid) =~= trees(s, above + mid).skip(above.len() as int));
                        assert(trees(u, mid) =~= trees(u, above + mid).skip(above.len() as int));
                    }
                    self.lemma_placed(s, u, states, h);
                    let mine = self.states@[hh];
                    lemma_level_kept(s, u, st, h as nat);
                    lemma_load_kept(s, u, st, h as nat);
                    assert(load_of(u, mine, h as nat) =~= load_at(s, states, hh).push(
                        abs(s, node, h as nat),
                    ));
                    assert(level(mine, h as nat) =~= mid + seq![new]);
                    assert(row2 =~= span(self.states@, hh, self.states@.len() as int) + below);
                }
                None
            },
            Some((first, at)) => {
                let ghost i = (above + mid).len() - 1;
                let ghost cur = Piece { key: first, at, h: h as nat + 1 };
                let ghost lo = low(seps(row), i, None);
                let ghost hi = high(seps(row), i + 1, None);
                proof {
                    assert(mid.last() == cur);
                    assert(row[i] == cur && row[i + 1] == inc);
                    lemma_row_part(s, row, i, i + 2, None, None);
                    assert(row.subrange(i, i + 2) =~= seq![cur, inc]);
                    lemma_can_append(s, cur, inc, lo, hi);
                }
                let inner = alloc.inner_mut(at);
                inner.raw_append_child(key, node);
                let ghost x = *inner;
                let full = inner.len() == M;
                let ghost u = alloc.store();
                let ghost front = (above + mid).drop_last();
                proof {
                    lemma_adopted(s, at, node, h as nat, first, key, x, lo, hi);
                    lemma_remake(s, u, row, i, i + 2, seq![cur], None, None);
                    let row2 = spliced(row, i, i + 2, seq![cur]);
                    lemma_row_owned(s, u, row, row2);
                    assert(row =~= front + seq![cur, inc] + below);
                    assert(row2 =~= front + seq![cur] + below);
                    lemma_ends_kept(s, u, front, seq![cur, inc], seq![cur], below);
                    let mf = mid.drop_last();
                    assert(front =~= above + mf);
                    lemma_trees_concat(s, above, mf);
                    lemma_trees_concat(u, above, mf);
                    assert(trees(u, above) =~= trees(s, above)) by {
                        assert(trees(s, above) =~= trees(s, front).take(above.len() as int));
                        assert(trees(u, above) =~= trees(u, front).take(above.len() as int));
                    }
                    assert(trees(u, mf) =~= trees(s, mf)) by {
                        assert(trees(s, mf) =~= trees(s, front).skip(above.len() as int));
                        assert(trees(u, mf) =~= trees(u, front).skip(above.len() as int));
                    }
                    if let Some((pk, pa)) = st.full() {
                        assert(mf[0] == (Piece { key: pk, at: pa, h: h as nat + 1 }));
                        assert(trees(s, mf)[0] == abs(s, pa, h as nat + 1));
                        assert(trees(u, mf)[0] == abs(u, pa, h as nat + 1));
                    }
                }
                if !full {
                    proof {
                        self.lemma_placed(s, u, states, h);
                        assert(load_of(u, st, h as nat) =~= load_at(s, states, hh).push(
                            abs(s, node, h as nat),
                        ));
                        assert(front + seq![cur] + below =~= above + mid + below);
                        assert(front + seq![cur] + below =~= span(
                            self.states@,
                            hh,
                            self.states@.len() as int,
                        ) + below);
                    }
                    return None;
                }
                let displaced = self.states[h].pending;
                self.states[h] = LevelState { pending: Some((first, at)), current: None };
                proof {
                    self.lemma_placed(s, u, states, h);
                    let mine = self.states@[hh];
                    assert(level(mine, h as nat) =~= seq![cur]);
                    let n = self.states@.len() as int;
                    match displaced {
                        None => {
                            assert(load_of(u, mine, h as nat) =~= load_at(s, states, hh).push(
                                abs(s, node, h as nat),
                            ));
                            assert(front =~= above);
                            assert(front + seq![cur] + below =~= span(self.states@, hh, n) + below);
                        },
                        Some((pk, pa)) => {
                            let p = Piece { key: pk, at: pa, h: h as nat + 1 };
                            let gone = abs(s, pa, h as nat + 1);
                            let kept = abs(u, at, h as nat + 1)->kids;
                            assert(gone->kids + kept =~= load_at(s, states, hh).push(
                                abs(s, node, h as nat),
                            ));
                            assert(kept.last() == (gone->kids + kept).last());
                            lemma_lined_rest(gone->kids, kept, M, loose);
                            lemma_over_complete(gone, M);
                            assert(load_of(u, mine, h as nat) =~= kept);
                            assert(mid.drop_last() =~= seq![p]);
                            assert(front + seq![cur] + below =~= span(self.states@, hh + 1, n)
                                + seq![p] + (level(mine, h as nat) + below));
                        },
                    }
                }
                displaced
            },
        }
    }

    /// What holds of the other levels after one has been changed.
    proof fn lemma_placed<V, const M: usize>(
        &self,
        s: Store<K, V, M>,
        u: Store<K, V, M>,
        states: Seq<LevelState<K>>,
        h: usize,
    )
        requires
            h <= states.len(),
            self.states@.len() == (if h == states.len() {
                h + 1
            } else {
                states.len() as int
            }),
            forall|g: int|
                0 <= g < states.len() && g != h ==> #[trigger] self.states@[g] == states[g],
            levels_ok(s, states, h as int),
            levels_lined(s, states, h + 1),
            trees(u, span(states, h + 1, states.len() as int)) == trees(
                s,
                span(states, h + 1, states.len() as int),
            ),
        ensures
            levels_ok(u, self.states@, h + 1),
            levels_lined(u, self.states@, h + 1),
            span(self.states@, h + 1, self.states@.len() as int) == span(
                states,
                h + 1,
                states.len() as int,
            ),
            span(self.states@, h as int, self.states@.len() as int) == span(
                states,
                h + 1,
                states.len() as int,
            ) + level(self.states@[h as int], h as nat),
    {
        let n = self.states@.len() as int;
        let l = states.len() as int;
        let hh = h as int;
        lemma_levels_kept(s, u, states, hh + 1, l);
        lemma_loads_kept(s, u, states, hh + 1, l);
        lemma_span_same(states, self.states@, hh + 1, l);
        if h == states.len() {
            assert(span(self.states@, hh + 1, n) =~= span(states, hh + 1, l));
        }
        lemma_span_split(self.states@, hh, hh + 1, n);
        assert(span(self.states@, hh, hh) =~= Seq::<Piece<K>>::empty());
        assert(span(self.states@, hh, hh + 1) =~= level(self.states@[hh], h as nat));
        assert forall|g: int| h + 1 <= g < n implies level_ok(
            u,
            #[trigger] self.states@[g],
            g as nat,
        ) && !self.states@[g].is_clear() by {
            assert(states[g] == self.states@[g]);
        }
        assert forall|g: int| h + 1 <= g < n implies lined(
            load_of(u, #[trigger] self.states@[g], g as nat),
            M,
            0,
        ) by {
            assert(states[g] == self.states@[g]);
        }
        assert forall|g: int| h + 1 <= g < n - 1 implies (
        #[trigger] self.states@[g]).full() is Some by {
            assert(states[g] == self.states@[g]);
        }
    }
}

/// A tree can take the next one in the row as its last child.
proof fn lemma_can_append<K: Key, V, const M: usize>(
    s: Store<K, V, M>,
    cur: Piece<K>,
    inc: Piece<K>,
    lo: Option<K>,
    hi: Option<K>,
)
    requires
        ordered::<K>(),
        cur.h == inc.h + 1,
        row_ok(s, seq![cur, inc], lo, hi),
        size(abs(s, cur.at, cur.h)) < M,
    ensures
        s.inners.dom().contains(cur.at),
        s.inners[cur.at].wf(),
        s.inners[cur.at]@.kids.len() < M,
        forall|i: int|
            0 <= i < s.inners[cur.at]@.keys.len() ==> lt(
                #[trigger] s.inners[cur.at]@.keys[i],
                inc.key,
            ),
{
    let row = seq![cur, inc];
    let t = abs(s, cur.at, cur.h);
    assert(row[0] == cur && row[1] == inc);
    assert(trees(s, row)[0] == t);
    assert(seps(row) =~= seq![inc.key]);
    assert(low(seps(row), 0, lo) == lo && high(seps(row), 0, hi) == Some(inc.key));
    assert(ord(t, lo, Some(inc.key)));
    let keys = s.inners[cur.at]@.keys;
    assert forall|i: int| 0 <= i < keys.len() implies lt(#[trigger] keys[i], inc.key) by {
        assert(under(keys[i], Some(inc.key)));
    }
}

impl<K: Key> TreeProgress<K> {
    /// Puts a node of height `height`, with its smallest key, behind all that went in before. Full
    /// nodes move up as far as needed.
    #[verifier::rlimit(50)]
    #[verifier::spinoff_prover]
    pub fn push<V, const M: usize, A: NodeAllocator<K, V, M>>(
        &mut self,
        height: usize,
        key: K,
        node: Addr,
        alloc: &mut A,
        Ghost(tail): Ghost<Seq<Piece<K>>>,
        Ghost(loose): Ghost<int>,
    )
        requires
            M >= 3,
            ordered::<K>(),
            old(alloc).wf(),
            height <= old(self).levels().len(),
            height == 0 ==> old(self).count() + size(abs(old(alloc).store(), node, 0))
                <= usize::MAX,
            ({
                let s = old(alloc).store();
                let states = old(self).levels();
                let inc = Piece { key, at: node, h: height as nat };
                let row = span(states, height as int, states.len() as int) + seq![inc] + tail;
                &&& row_ok(s, row, None, None)
                &&& row_owned(s, row)
                &&& pairs_of(trees(s, row)).len() <= usize::MAX
                &&& sturdy(abs(s, node, height as nat), M)
                &&& levels_ok(s, states, height as int)
                &&& levels_lined(s, states, height + 1)
                &&& lined(
                    load_at(s, states, height as int).push(abs(s, node, height as nat)),
                    M,
                    loose,
                )
            }),
        ensures
            final(alloc).wf(),
            final(self).count() == old(self).count() + (if height == 0 {
                size(abs(old(alloc).store(), node, 0))
            } else {
                0
            }),
            ({
                let s = old(alloc).store();
                let u = final(alloc).store();
                let states = old(self).levels();
                let states2 = final(self).levels();
                let n = states2.len() as int;
                let b = height as int;
                let inc = Piece { key, at: node, h: height as nat };
                let row = span(states, b, states.len() as int) + seq![inc] + tail;
                let mine = states2[b];
                &&& b < n
                &&& carried(s, row, u, span(states2, b, n) + tail)
                &&& trees(u, tail) == trees(s, tail)
                &&& levels_ok(u, states2, b)
                &&& levels_lined(u, states2, b + 1)
                &&& lined(load_of(u, mine, b as nat), M, loose)
                &&& load_of(u, mine, b as nat).len() > 0
                &&& load_of(u, mine, b as nat).last() == abs(s, node, b as nat)
                &&& b < states.len() && states[b].full() is Some ==> mine.full() is Some
                &&& mine.full() is Some || (mine.filling() matches Some((k, a)) && size(
                    abs(u, a, b as nat + 1),
                ) == 1 + (if b < states.len() {
                    match states[b].filling() {
                        Some((k0, a0)) => size(abs(s, a0, b as nat + 1)) as int,
                        None => 0,
                    }
                } else {
                    0
                }))
            }),
    {
        let ghost s0 = alloc.store();
        let ghost states0 = self.states@;
        let ghost b = height as int;
        let ghost row0 = span(states0, b, states0.len() as int) + seq![
            Piece { key, at: node, h: height as nat },
        ] + tail;
        let ghost node0 = node;
        let mut h: usize = height;
        let mut key: K = key;
        let mut node: Addr = node;
        proof {
            let i = span(states0, b, states0.len() as int).len() as int;
            assert(row0[i].at == node && row0[i].h == height);
            assert(trees(s0, row0)[i] == abs(s0, node, height as nat));
            assert(span(states0, b, b) =~= Seq::<Piece<K>>::empty());
            assert(Seq::<Piece<K>>::empty() + tail =~= tail);
            assert(replaced(s0, s0, trees(s0, row0), trees(s0, row0))) by {
                reveal(crate::model::moved);
            }
        }
        if height == 0 {
            self.len = self.len + alloc.leaf(node).len();
        }
        loop
            invariant_except_break
                M >= 3,
                ordered::<K>(),
                alloc.wf(),
                b == height,
                b <= h <= self.states@.len(),
                self.len == old(self).len + (if height == 0 {
                    size(abs(s0, node0, 0))
                } else {
                    0
                }),
                pairs_of(trees(s0, row0)).len() <= usize::MAX,
                sturdy(abs(alloc.store(), node, h as nat), M),
                levels_ok(alloc.store(), self.states@, h as int),
                carried(
                    s0,
                    row0,
                    alloc.store(),
                    span(self.states@, h as int, self.states@.len() as int) + seq![
                        Piece { key, at: node, h: h as nat },
                    ] + (span(self.states@, b, h as int) + tail),
                ),
                trees(alloc.store(), tail) == trees(s0, tail),
                forall|g: int|
                    b <= g < h ==> level_ok(alloc.store(), #[trigger] self.states@[g], g as nat)
                        && self.states@[g].full() is Some,
                h == b ==> self.states@ == states0 && alloc.store() == s0,
                levels_lined(alloc.store(), self.states@, h + 1),
                h > b ==> complete(abs(alloc.store(), node, h as nat), M),
                lined(
                    load_at(alloc.store(), self.states@, h as int).push(
                        abs(alloc.store(), node, h as nat),
                    ),
                    M,
                    if h == b {
                        loose
                    } else {
                        0
                    },
                ),
                forall|g: int|
                    b <= g < h ==> lined(
                        load_of(alloc.store(), #[trigger] self.states@[g], g as nat),
                        M,
                        if g == b {
                            loose
                        } else {
                            0
                        },
                    ),
                h > b ==> load_of(alloc.store(), self.states@[b], b as nat).len() > 0 && load_of(
                    alloc.store(),
                    self.states@[b],
                    b as nat,
                ).last() == abs(s0, node0, b as nat),
                h == b ==> node == node0,
            ensures
                alloc.wf(),
                load_of(alloc.store(), self.states@[b], b as nat).len() > 0,
                load_of(alloc.store(), self.states@[b], b as nat).last() == abs(
                    s0,
                    node0,
                    b as nat,
                ),
                b <= h < self.states@.len(),
                self.len == old(self).len + (if height == 0 {
                    size(abs(s0, node0, 0))
                } else {
                    0
                }),
                carried(
                    s0,
                    row0,
                    alloc.store(),
                    span(self.states@, b, self.states@.len() as int) + tail,
                ),
                trees(alloc.store(), tail) == trees(s0, tail),
                levels_ok(alloc.store(), self.states@, b),
                levels_lined(alloc.store(), self.states@, b + 1),
                lined(load_of(alloc.store(), self.states@[b], b as nat), M, loose),
                b < states0.len() && states0[b].full() is Some ==> self.states@[b].full() is Some,
                self.states@[b].full() is Some || (self.states@[b].filling() matches Some((k, a))
                    && size(abs(alloc.store(), a, b as nat + 1)) == 1 + (if b < states0.len() {
                    match states0[b].filling() {
                        Some((k0, a0)) => size(abs(s0, a0, b as nat + 1)) as int,
                        None => 0,
                    }
                } else {
                    0
                })),
            decreases 65 - h,
        {
            let ghost s = alloc.store();
            let ghost states = self.states@;
            let ghost lower = span(states, b, h as int);
            let ghost below = lower + tail;
            let ghost inc = Piece { key, at: node, h: h as nat };
            let ghost row = span(states, h as int, states.len() as int) + seq![inc] + below;
            proof {
                let i = span(states, h as int, states.len() as int).len() as int;
                assert(row[i] == inc);
                assert(trees(s, row)[i] == abs(s, node, h as nat));
                crate::row::lemma_piece_fits(s, row, i, None, None);
            }
            let ghost edge = if h == b {
                loose
            } else {
                0
            };
            let up = self.place(h, key, node, alloc, Ghost(below), Ghost(edge));
            proof {
                let u = alloc.store();
                let n = self.states@.len() as int;
                lemma_span_same(states, self.states@, b, h as int);
                lemma_trees_concat(s, lower, tail);
                lemma_trees_concat(u, lower, tail);
                assert(trees(u, lower) =~= trees(u, below).take(lower.len() as int));
                assert(trees(s, lower) =~= trees(s, below).take(lower.len() as int));
                assert(trees(u, tail) =~= trees(u, below).skip(lower.len() as int));
                assert(trees(s, tail) =~= trees(s, below).skip(lower.len() as int));
                lemma_levels_kept(s, u, states, b, h as int);
                lemma_loads_kept(s, u, states, b, h as int);
                assert forall|g: int| b <= g <= h implies lined(
                    load_of(u, #[trigger] self.states@[g], g as nat),
                    M,
                    if g == b {
                        loose
                    } else {
                        0
                    },
                ) by {
                    if g < h {
                        assert(states[g] == self.states@[g]);
                    }
                }
                assert forall|g: int| b <= g < h implies level_ok(
                    u,
                    #[trigger] self.states@[g],
                    g as nat,
                ) && self.states@[g].full() is Some by {
                    assert(states[g] == self.states@[g]);
                }
                assert(load_of(u, self.states@[b], b as nat).last() == abs(s0, node0, b as nat)) by {
                    if h > b {
                        assert(states[b] == self.states@[b]);
                    }
                }
                lemma_span_split(self.states@, b, h as int, n);
                lemma_span_split(self.states@, b, h as int, h + 1);
                assert(span(self.states@, h as int, h as int) =~= Seq::<Piece<K>>::empty());
                assert(span(self.states@, h as int, h + 1) =~= level(
                    self.states@[h as int],
                    h as nat,
                ));
            }
            match up {
                None => {
                    proof {
                        let u = alloc.store();
                        let n = self.states@.len() as int;
                        let row2 = span(self.states@, h as int, n) + below;
                        assert(row2 =~= span(self.states@, b, n) + tail);
                        lemma_carried_trans(s0, row0, s, row, u, row2);
                        assert forall|g: int| b <= g < n implies level_ok(
                            u,
                            #[trigger] self.states@[g],
                            g as nat,
                        ) && !self.states@[g].is_clear() by {}
                        assert(levels_lined(u, self.states@, b + 1));
                    }
                    break ;
                },
                Some((k, a)) => {
                    proof {
                        let u = alloc.store();
                        let n = self.states@.len() as int;
                        let mine = self.states@[h as int];
                        let p = Piece { key: k, at: a, h: h as nat + 1 };
                        let row2 = span(self.states@, h + 1, n) + seq![p] + (level(mine, h as nat)
                            + below);
                        assert(level(mine, h as nat) + below =~= span(self.states@, b, h + 1)
                            + tail);
                        lemma_carried_trans(s0, row0, s, row, u, row2);
                        let next = load_at(u, self.states@, h + 1);
                        if h + 1 == n {
                            lemma_lined_leaves(next, M);
                        }
                        lemma_lined_complete(next, abs(u, a, h as nat + 1), M);
                    }
                    key = k;
                    node = a;
                    h = h + 1;
                },
            }
        }
    }
}

impl<K: Key> TreeProgress<K> {
    /// The full node of level `h`, with its smallest key.
    pub fn pending(&self, h: usize) -> (r: Option<(K, Addr)>)
        ensures
            r == (if h < self.levels().len() {
                self.levels()[h as int].full()
            } else {
                None
            }),
    {
        if h < self.states.len() {
            self.states[h].pending
        } else {
            None
        }
    }

    /// The node of level `h` that is filling, with its smallest key.
    pub fn current(&self, h: usize) -> (r: Option<(K, Addr)>)
        ensures
            r == (if h < self.levels().len() {
                self.levels()[h as int].filling()
            } else {
                None
            }),
    {
        if h < self.states.len() {
            self.states[h].current
        } else {
            None
        }
    }

    /// Puts a leaf, with its smallest key, behind all that went in before, where nothing else is
    /// in the store. The leaf may hold any number of pairs but none, and link to any other.
    pub fn push_leaf<V, const M: usize, A: NodeAllocator<K, V, M>>(
        &mut self,
        key: K,
        leaf: Addr,
        alloc: &mut A,
    )
        requires
            M >= 3,
            ordered::<K>(),
            old(alloc).wf(),
            old(self).count() + size(abs(old(alloc).store(), leaf, 0)) <= usize::MAX,
            ({
                let s = old(alloc).store();
                let states = old(self).levels();
                let row = span(states, 0, states.len() as int).push(Piece { key, at: leaf, h: 0 });
                &&& row_ok(s, row, None, None)
                &&& row_owned(s, row)
                &&& pairs_of(trees(s, row)).len() <= usize::MAX
                &&& levels_ok(s, states, 0)
                &&& levels_lined(s, states, 1)
            }),
        ensures
            final(alloc).wf(),
            final(self).count() == old(self).count() + size(abs(old(alloc).store(), leaf, 0)),
            ({
                let s = old(alloc).store();
                let u = final(alloc).store();
                let states = old(self).levels();
                let states2 = final(self).levels();
                let row = span(states, 0, states.len() as int).push(Piece { key, at: leaf, h: 0 });
                &&& carried(s, row, u, span(states2, 0, states2.len() as int))
                &&& levels_ok(u, states2, 0)
                &&& levels_lined(u, states2, 1)
                &&& tallied(u, states2, leaves_of(trees(s, row)).len())
            }),
    {
        proof {
            let states = self.states@;
            let above = span(states, 0, states.len() as int);
            let inc = Piece { key, at: leaf, h: 0 };
            assert(above + seq![inc] + Seq::<Piece<K>>::empty() =~= above.push(inc));
            lemma_lowest(alloc.store(), states, leaf);
        }
        self.push(0, key, leaf, alloc, Ghost(Seq::empty()), Ghost(0int));
        proof {
            let row = span(self.states@, 0, self.states@.len() as int);
            assert(row + Seq::<Piece<K>>::empty() =~= row);
            law_tallied(alloc.store(), self.states@);
        }
    }
}

/// The last nodes of a level, before they move up: one that is alone is full, two share what they
/// hold.
pub open spec fn level_even<K: Key, V, const M: usize>(
    s: Store<K, V, M>,
    st: LevelState<K>,
    h: nat,
) -> bool {
    st.full() matches Some((k, a)) ==> match st.filling() {
        Some((l, b)) => shared(size(abs(s, a, h + 1)), size(abs(s, b, h + 1)), M),
        None => size(abs(s, a, h + 1)) == M,
    }
}

impl<K: Key> TreeProgress<K> {
    /// Lets the last node of level `h`, if it is short, borrow children from the full node before
    /// it.
    fn even_out<V, const M: usize, A: NodeAllocator<K, V, M>>(&mut self, h: usize, alloc: &mut A)
        requires
            M >= 3,
            ordered::<K>(),
            old(alloc).wf(),
            h < old(self).levels().len(),
            ({
                let s = old(alloc).store();
                let states = old(self).levels();
                let row = span(states, h as int, states.len() as int);
                &&& row_ok(s, row, None, None)
                &&& row_owned(s, row)
                &&& levels_ok(s, states, h as int)
                &&& levels_lined(s, states, h + 1)
            }),
        ensures
            final(alloc).wf(),
            final(self).count() == old(self).count(),
            ({
                let s = old(alloc).store();
                let u = final(alloc).store();
                let states = old(self).levels();
                let states2 = final(self).levels();
                let n = states.len() as int;
                let row = span(states, h as int, n);
                let mine = states2[h as int];
                let was = states[h as int];
                &&& states2.len() == n
                &&& forall|g: int| 0 <= g < n && g != h ==> #[trigger] states2[g] == states[g]
                &&& carried(s, row, u, span(states2, h as int, n))
                &&& levels_ok(u, states2, h + 1)
                &&& levels_lined(u, states2, h + 1)
                &&& load_of(u, mine, h as nat) == load_of(s, was, h as nat)
                &&& level_even(u, mine, h as nat)
                &&& mine.full() is Some <==> was.full() is Some
                &&& mine.filling() is Some <==> was.filling() is Some
                &&& was.full() is None || was.filling() is None ==> mine == was && u == s
            }),
    {
        let ghost s = alloc.store();
        let ghost states = self.states@;
        let ghost hh = h as int;
        let ghost n = states.len() as int;
        let ghost above = span(states, hh + 1, n);
        let ghost row = span(states, hh, n);
        let ghost st = states[hh];
        proof {
            lemma_span_split(states, hh, hh + 1, n);
            assert(span(states, hh, hh) =~= Seq::<Piece<K>>::empty());
            assert(span(states, hh, hh + 1) =~= level(st, h as nat));
            assert(row =~= above + level(st, h as nat));
            assert(replaced(s, s, trees(s, row), trees(s, row))) by {
                reveal(crate::model::moved);
            }
        }
        if self.states[h].pending.is_none() || self.states[h].current.is_none() {
            return ;
        }
        let (first, donor_at) = self.states[h].pending.unwrap();
        let (tail_first, tail_at) = self.states[h].current.unwrap();
        let ghost i = above.len() as int;
        let ghost p = Piece { key: first, at: donor_at, h: h as nat + 1 };
        let ghost q = Piece { key: tail_first, at: tail_at, h: h as nat + 1 };
        let ghost lo = low(seps(row), i, None);
        let ghost hi = high(seps(row), i + 1, None);
        proof {
            alloc.lemma_live_or_raw();
            assert(row =~= above + seq![p, q]);
            assert(row.subrange(i, i + 2) =~= seq![p, q]);
            lemma_row_part(s, row, i, i + 2, None, None);
            lemma_pair(s, p, q, lo, hi);
        }
        let mut donor = alloc.read_inner(donor_at);
        let mut tail = alloc.read_inner(tail_at);
        let mut tail_key: K = tail_first;
        let ghost x0 = donor@;
        let ghost y0 = tail@;
        while tail.is_deficient()
            invariant
                M >= 3,
                donor.wf(),
                tail.wf(),
                tail@.kids.len() >= 1,
                donor@.kids.len() + tail@.kids.len() == M + y0.kids.len(),
                y0.kids.len() >= 1,
                tail@.kids.len() >= y0.kids.len(),
                tail@.kids.len() <= half(M) || tail@.kids.len() == y0.kids.len(),
                donor@.kids + tail@.kids == x0.kids + y0.kids,
                donor@.keys.push(tail_key) + tail@.keys == x0.keys.push(tail_first) + y0.keys,
                crate::inner::ascending(x0.join(tail_first, y0).keys),
            decreases half(M) - tail@.kids.len(),
        {
            let ghost a = donor@;
            let ghost b = tail@;
            let ghost k = tail_key;
            tail_key = tail.rotate_from_left(tail_key, &mut donor);
            proof {
                assert(donor@.kids + tail@.kids =~= a.kids + b.kids);
                assert(donor@.keys.push(tail_key) + tail@.keys =~= a.keys.push(k) + b.keys);
            }
        }
        let ghost x = donor;
        let ghost y = tail;
        alloc.write_inner(donor_at, donor);
        alloc.write_inner(tail_at, tail);
        self.states[h] = LevelState {
            pending: Some((first, donor_at)),
            current: Some((tail_key, tail_at)),
        };
        proof {
            let u = alloc.store();
            let q2 = Piece { key: tail_key, at: tail_at, h: h as nat + 1 };
            assert(u.inners =~= s.inners.insert(donor_at, x).insert(tail_at, y));
            assert(u.raw_inners =~= s.raw_inners);
            lemma_rotated(
                s,
                donor_at,
                tail_at,
                h as nat,
                first,
                tail_first,
                x,
                tail_key,
                y,
                lo,
                hi,
            );
            lemma_remake(s, u, row, i, i + 2, seq![p, q2], None, None);
            let row2 = spliced(row, i, i + 2, seq![p, q2]);
            lemma_row_owned(s, u, row, row2);
            let none = Seq::<Piece<K>>::empty();
            assert(row2 =~= above + seq![p, q2] + none);
            assert(row =~= above + seq![p, q] + none);
            lemma_ends_kept(s, u, above, seq![p, q], seq![p, q2], none);
            self.lemma_placed(s, u, states, h);
            let mine = self.states@[hh];
            assert(level(mine, h as nat) =~= seq![p, q2]);
            assert(row2 =~= span(self.states@, hh, n));
        }
    }

    /// Ends the load: lets short nodes borrow and moves everything up, until one node is left,
    /// the root. Returns where it is, its height, and the number of pairs. The leaves below the root
    /// are those that went in, in their order. It is as low as a tree over them can be, with all
    /// nodes of a level full but the last two, and every separator is the first key to its right.
    pub fn build<V, const M: usize, A: NodeAllocator<K, V, M>>(self, alloc: &mut A) -> (r: (
        Addr,
        u8,
        usize,
    ))
        requires
            M >= 3,
            ordered::<K>(),
            old(alloc).wf(),
            ({
                let s = old(alloc).store();
                let states = self.levels();
                let row = span(states, 0, states.len() as int);
                &&& states.len() > 0
                &&& row_ok(s, row, None, None)
                &&& row_owned(s, row)
                &&& levels_ok(s, states, 0)
                &&& levels_lined(s, states, 1)
                &&& pairs_of(trees(s, row)).len() == self.count()
                &&& states[0].full() is None ==> (states[0].filling() matches Some((k, a)) ==> size(
                    abs(s, a, 1),
                ) >= 2)
            }),
        ensures
            final(alloc).wf(),
            r.2 == self.count(),
            ({
                let s = old(alloc).store();
                let u = final(alloc).store();
                let states = self.levels();
                let row = span(states, 0, states.len() as int);
                let t = abs(u, r.0, r.1 as nat);
                &&& r.1 > 0
                &&& held(u, r.0, r.1 as nat)
                &&& upright(t, r.1 as nat, M)
                &&& ord(t, None, None)
                &&& distinct(t)
                &&& size(t) >= 2
                &&& crate::root::owned(u, t)
                &&& u.unbounded()
                &&& leaves(t) == leaves_of(trees(s, row))
                &&& keyed(t)
                &&& dense(t, r.1 as nat, M)
                &&& lowest(leaves(t).len(), M, r.1 as nat)
            }),
    {
        let mut me = self;
        let ghost s0 = alloc.store();
        let ghost row0 = span(self.states@, 0, self.states@.len() as int);
        let mut h: usize = 0;
        proof {
            assert(replaced(s0, s0, trees(s0, row0), trees(s0, row0))) by {
                reveal(crate::model::moved);
            }
            lemma_top_level(self.states@, 0);
            lemma_lowest(s0, self.states@, row0[0].at);
        }
        loop
            invariant
                M >= 3,
                ordered::<K>(),
                alloc.wf(),
                s0 == old(alloc).store(),
                row0 == span(self.states@, 0, self.states@.len() as int),
                h < me.states@.len(),
                me.len == self.len,
                pairs_of(trees(s0, row0)).len() == self.len,
                levels_ok(alloc.store(), me.states@, h as int),
                levels_lined(alloc.store(), me.states@, h + 1),
                lined(load_of(alloc.store(), me.states@[h as int], h as nat), M, 2),
                carried(
                    s0,
                    row0,
                    alloc.store(),
                    span(me.states@, h as int, me.states@.len() as int),
                ),
                me.states@[h as int].full() is None ==> (me.states@[h as int].filling() matches Some(
                    (k, a),
                ) ==> size(abs(alloc.store(), a, h as nat + 1)) >= 2),
            decreases 64 - h,
        {
            let ghost s = alloc.store();
            let ghost states = me.states@;
            let ghost row = span(states, h as int, states.len() as int);
            me.even_out(h, alloc);
            let pending = me.states[h].pending;
            let current = me.states[h].current;
            let ghost u = alloc.store();
            let ghost states2 = me.states@;
            let ghost n = states2.len() as int;
            let ghost hh = h as int;
            let ghost st = states2[hh];
            let ghost row2 = span(states2, hh, n);
            let ghost above = span(states2, hh + 1, n);
            let ghost cur = at_most_one(current, h as nat + 1);
            proof {
                lemma_carried_trans(s0, row0, s, row, u, row2);
                lemma_top_level(states2, h);
                lemma_level_fits(u, states2, h);
                lemma_level_packed(u, st, h as nat);
                if h + 1 == n {
                    lemma_lined_leaves(load_at(u, states2, hh + 1), M);
                }
            }
            let ghost next = load_at(u, states2, hh + 1);
            if let Some((only_key, only)) = pending {
                if current.is_none() && h + 1 == me.states.len() {
                    // One full node, and nothing above it: the root.
                    proof {
                        assert(row2 =~= seq![Piece { key: only_key, at: only, h: h as nat + 1 }]);
                        lemma_single(s0, row0, u, only_key, only, h as nat + 1);
                        law_dense(abs(u, only, h as nat + 1), h as nat + 1, M);
                        law_lowest(abs(u, only, h as nat + 1), h as nat + 1, M);
                    }
                    return (only, (h + 1) as u8, me.len);
                }
                proof {
                    let inc = Piece { key: only_key, at: only, h: h as nat + 1 };
                    assert(row2 =~= above + seq![inc] + cur);
                    let t = abs(u, only, h as nat + 1);
                    if current is Some {
                        lemma_lined_solid(next, t, M);
                    } else {
                        if next.len() > 0 {
                            lemma_lined_front(next, M);
                            lemma_higher(u, states2, hh + 1);
                            assert(next[next.len() - 1] is Inner);
                        }
                        lemma_lined_packed(next, t, M, 0);
                    }
                }
                let ghost loose: int = if current is Some {
                    1
                } else {
                    2
                };
                me.push(h + 1, only_key, only, alloc, Ghost(cur), Ghost(loose));
                let ghost v = alloc.store();
                let ghost states3 = me.states@;
                proof {
                    let row3 = span(states3, hh + 1, states3.len() as int) + cur;
                    lemma_carried_trans(s0, row0, u, row2, v, row3);
                }
                if let Some((key, node)) = current {
                    proof {
                        let inc = Piece { key, at: node, h: h as nat + 1 };
                        let none = Seq::<Piece<K>>::empty();
                        assert(cur =~= seq![inc]);
                        assert(trees(v, cur)[0] == abs(v, node, h as nat + 1));
                        assert(trees(u, cur)[0] == abs(u, node, h as nat + 1));
                        assert(span(states3, hh + 1, states3.len() as int) + cur =~= span(
                            states3,
                            hh + 1,
                            states3.len() as int,
                        ) + seq![inc] + none);
                        assert(load_at(v, states3, hh + 1).last() == abs(u, only, h as nat + 1));
                        lemma_lined_packed(
                            load_at(v, states3, hh + 1),
                            abs(v, node, h as nat + 1),
                            M,
                            1,
                        );
                    }
                    me.push(h + 1, key, node, alloc, Ghost(Seq::empty()), Ghost(2int));
                    proof {
                        let w = alloc.store();
                        let states4 = me.states@;
                        let none = Seq::<Piece<K>>::empty();
                        let row3 = span(states3, hh + 1, states3.len() as int) + cur;
                        let row4 = span(states4, hh + 1, states4.len() as int);
                        assert(row4 + none =~= row4);
                        lemma_carried_trans(s0, row0, v, row3, w, row4);
                    }
                } else {
                    assert(span(states3, hh + 1, states3.len() as int) + cur =~= span(
                        states3,
                        hh + 1,
                        states3.len() as int,
                    ));
                }
                h = h + 1;
            } else {
                // The level's only node never filled, so nothing moved up: the root.
                let (only_key, only) = current.unwrap();
                proof {
                    assert(row2 =~= seq![Piece { key: only_key, at: only, h: h as nat + 1 }]);
                    lemma_single(s0, row0, u, only_key, only, h as nat + 1);
                        law_dense(abs(u, only, h as nat + 1), h as nat + 1, M);
                        law_lowest(abs(u, only, h as nat + 1), h as nat + 1, M);
                }
                return (only, (h + 1) as u8, me.len);
            }
        }
    }
}

impl<K: Key> TreeProgress<K> {
    /// Gives the load up: takes every tree that is held back down, and retires its slots.
    pub fn abandon<V, const M: usize, A: NodeAllocator<K, V, M>>(self, alloc: &mut A)
        requires
            M >= 3,
            old(alloc).wf(),
            ({
                let s = old(alloc).store();
                let row = span(self.levels(), 0, self.levels().len() as int);
                &&& row_ok(s, row, None, None)
                &&& row_owned(s, row)
                &&& pairs_of(trees(s, row)).len() <= usize::MAX
            }),
        ensures
            final(alloc).wf(),
            final(alloc).store().is_empty(),
            final(alloc).store().unbounded(),
    {
        let ghost s = alloc.store();
        let ghost states = self.states@;
        let ghost n = states.len() as int;
        let ghost row = span(states, 0, n);
        let ghost ts = trees(s, row);
        let ghost none = Seq::<Tree<K, V>>::empty();
        let mut h: usize = self.states.len();
        proof {
            assert(span(states, n, n) =~= Seq::<Piece<K>>::empty());
            assert(ts.take(0) =~= none);
            assert(replaced(s, s, ts.take(0), none)) by {
                reveal(moved);
                reveal(any_leaf);
                reveal(any_inner);
            }
        }
        while h > 0
            invariant
                M >= 3,
                h <= n,
                n == states.len(),
                states == self.states@,
                row == span(states, 0, n),
                ts == trees(s, row),
                none == Seq::<Tree<K, V>>::empty(),
                row_ok(s, row, None, None),
                row_owned(s, row),
                pairs_of(ts).len() <= usize::MAX,
                alloc.wf(),
                replaced(s, alloc.store(), ts.take(span(states, h as int, n).len() as int), none),
            decreases h,
        {
            let ghost above = span(states, h as int, n);
            let ghost k = above.len() as int;
            let ghost st = states[h - 1];
            let ghost mine = level(st, (h - 1) as nat);
            proof {
                lemma_top_level(states, (h - 1) as usize);
                lemma_span_split(states, 0, h - 1, n);
                assert(row =~= above + mine + span(states, 0, h - 1));
                assert(forall|i: int| 0 <= i < mine.len() ==> row[k + i] == #[trigger] mine[i]);
            }
            if let Some((key, at)) = self.states[h - 1].pending {
                proof {
                    assert(mine[0] == (Piece { key, at, h: h as nat }));
                    assert(row[k] == mine[0]);
                    assert(stands(ts[k], row[k], M));
                    crate::row::lemma_piece_fits(s, row, k, None, None);
                }
                drop_next(alloc, at, h as u8, Ghost(s), Ghost(ts), Ghost(k));
            }
            let ghost l = k + at_most_one(st.full(), h as nat).len();
            if let Some((key, at)) = self.states[h - 1].current {
                proof {
                    assert(mine[l - k] == (Piece { key, at, h: h as nat }));
                    assert(row[l] == mine[l - k]);
                    assert(stands(ts[l], row[l], M));
                    crate::row::lemma_piece_fits(s, row, l, None, None);
                }
                drop_next(alloc, at, h as u8, Ghost(s), Ghost(ts), Ghost(l));
            }
            h = h - 1;
        }
        proof {
            let u = alloc.store();
            assert(ts.take(ts.len() as int) =~= ts);
            assert(u.leaves =~= Map::empty() && u.inners =~= Map::empty()) by {
                reveal(moved);
                reveal(any_leaf);
                reveal(any_inner);
            }
        }
    }
}

/// The last nodes of a level: the full one is complete below its root, if another follows, and the
/// last is packed to the left.
proof fn lemma_level_packed<K: Key, V, const M: usize>(
    s: Store<K, V, M>,
    st: LevelState<K>,
    h: nat,
)
    requires
        M >= 3,
        level_even(s, st, h),
        lined(load_of(s, st, h), M, 2),
    ensures
        st.full() matches Some((k, a)) ==> {
            &&& st.filling() is Some ==> solid(abs(s, a, h + 1), M)
            &&& st.filling() is None ==> left_packed(abs(s, a, h + 1), M)
        },
        st.filling() matches Some((k, a)) ==> left_packed(abs(s, a, h + 1), M),
{
    let x = kids_of(s, st.full(), h + 1);
    let y = kids_of(s, st.filling(), h + 1);
    match (st.full(), st.filling()) {
        (Some((k, a)), Some((l, b))) => {
            lemma_lined_rest(x, y, M, 2);
            lemma_over_complete(abs(s, a, h + 1), M);
            lemma_over_packed(abs(s, b, h + 1), M);
        },
        (Some((k, a)), None) => {
            assert(load_of(s, st, h) =~= x);
            lemma_over_packed(abs(s, a, h + 1), M);
        },
        (None, Some((l, b))) => {
            assert(load_of(s, st, h) =~= y);
            lemma_over_packed(abs(s, b, h + 1), M);
        },
        (None, None) => {},
    }
}

/// Two neighbouring inner nodes of the same height.
proof fn lemma_pair<K: Key, V, const M: usize>(
    s: Store<K, V, M>,
    p: Piece<K>,
    q: Piece<K>,
    lo: Option<K>,
    hi: Option<K>,
)
    requires
        ordered::<K>(),
        p.h == q.h,
        p.h > 0,
        row_ok(s, seq![p, q], lo, hi),
    ensures
        s.inners.dom().contains(p.at),
        s.inners.dom().contains(q.at),
        p.at != q.at,
        s.inners[p.at].wf(),
        s.inners[q.at].wf(),
        crate::inner::ascending(s.inners[p.at]@.join(q.key, s.inners[q.at]@).keys),
        size(abs(s, p.at, p.h)) == s.inners[p.at]@.kids.len(),
        size(abs(s, q.at, q.h)) == s.inners[q.at]@.kids.len(),
{
    let row = seq![p, q];
    let x = abs(s, p.at, p.h);
    let y = abs(s, q.at, q.h);
    let ts = trees(s, row);
    assert(row[0] == p && row[1] == q);
    assert(ts[0] == x && ts[1] == y);
    assert(seps(row) =~= seq![q.key]);
    assert(low(seps(row), 0, lo) == lo && high(seps(row), 0, hi) == Some(q.key));
    assert(low(seps(row), 1, lo) == Some(q.key) && high(seps(row), 1, hi) == hi);
    assert(ord(x, lo, Some(q.key)) && ord(y, Some(q.key), hi));
    assert(seps(row)[0] == q.key);
    crate::lemmas::lemma_ord_join(x->keys, x->kids, q.key, y->keys, y->kids, lo, hi);
    assert(apart(ts[0], ts[1]));
    reveal(apart);
    assert(crate::model::has_inner(x, p.at) && crate::model::has_inner(y, q.at));
}

/// The nodes of level `h` are not too high.
proof fn lemma_level_fits<K: Key, V, const M: usize>(
    s: Store<K, V, M>,
    states: Seq<LevelState<K>>,
    h: usize,
)
    requires
        M >= 3,
        h < states.len(),
        !states[h as int].is_clear(),
        row_ok(s, span(states, h as int, states.len() as int), None, None),
        pairs_of(trees(s, span(states, h as int, states.len() as int))).len() <= usize::MAX,
    ensures
        h < 64,
{
    let row = span(states, h as int, states.len() as int);
    lemma_top_level(states, h);
    let i = row.len() - 1;
    assert(row[i].h == h + 1);
    crate::row::lemma_piece_fits(s, row, i, None, None);
}

/// When a single tree is left, it holds all.
proof fn lemma_single<K: Key, V, const M: usize>(
    s: Store<K, V, M>,
    row: Seq<Piece<K>>,
    u: Store<K, V, M>,
    key: K,
    at: Addr,
    h: nat,
)
    requires
        carried(s, row, u, seq![Piece { key, at, h }]),
    ensures
        held(u, at, h),
        upright(abs(u, at, h), h, M),
        keyed(abs(u, at, h)),
        ord(abs(u, at, h), None, None),
        distinct(abs(u, at, h)),
        crate::root::owned(u, abs(u, at, h)),
        u.unbounded(),
        leaves(abs(u, at, h)) == leaves_of(trees(s, row)),
{
    let one = seq![Piece { key, at, h }];
    let t = abs(u, at, h);
    assert(one[0].at == at);
    assert(trees(u, one) =~= seq![t]);
    assert(trees(u, one)[0] == t);
    assert(seps(one) =~= Seq::<K>::empty());
    assert(stands(trees(u, one)[0], one[0], M));
    assert(low(seps(one), 0, None::<K>) is None && high(seps(one), 0, None::<K>) is None);
    crate::lemmas::lemma_one(t);
}

/// The row from level `h` on begins with what is above that level, and is not empty if the level
/// is not.
proof fn lemma_top_level<K: Key>(states: Seq<LevelState<K>>, h: usize)
    requires
        h < states.len(),
    ensures
        span(states, h as int, states.len() as int) == span(states, h + 1, states.len() as int)
            + level(states[h as int], h as nat),
        !states[h as int].is_clear() ==> span(states, h as int, states.len() as int).len() > 0,
        h + 1 == states.len() ==> span(states, h as int, states.len() as int) == level(
            states[h as int],
            h as nat,
        ),
{
    let n = states.len() as int;
    let hh = h as int;
    lemma_span_split(states, hh, hh + 1, n);
    assert(span(states, hh, hh) =~= Seq::<Piece<K>>::empty());
    assert(span(states, hh, hh + 1) =~= level(states[hh], h as nat));
    assert(h + 1 == n ==> span(states, hh, n) =~= level(states[hh], h as nat));
}

/// How many nodes have come to level `h` of a load after `n` leaves: every `m` nodes of the level
/// below fill one that comes up, but for the one that is held back there.
pub open spec fn arrived(n: nat, m: usize, h: nat) -> nat
    decreases h,
{
    if h == 0 {
        n
    } else {
        let full = arrived(n, m, (h - 1) as nat) / m as nat;
        if full == 0 {
            0
        } else {
            (full - 1) as nat
        }
    }
}

/// The levels after `n` leaves: each holds a full node if one has filled there, and in the node that
/// is filling what came after; the highest is the last that anything has come to.
pub open spec fn tallied<K: Key, V, const M: usize>(
    s: Store<K, V, M>,
    states: Seq<LevelState<K>>,
    n: nat,
) -> bool {
    &&& forall|g: int|
        0 <= g < states.len() ==> {
            let a = arrived(n, M, g as nat);
            &&& a > 0
            &&& kids_of(s, (#[trigger] states[g]).full(), g as nat + 1).len() == (if a >= M {
                M as nat
            } else {
                0
            })
            &&& kids_of(s, states[g].filling(), g as nat + 1).len() == a % M as nat
            &&& states[g].full() is Some <==> a >= M
            &&& states[g].filling() is Some <==> a % M as nat > 0
        }
    &&& arrived(n, M, states.len()) == 0
}

/// The nodes of level `g` and of those above it, counted in nodes that came to level `g`.
spec fn weight<K: Key, V, const M: usize>(
    s: Store<K, V, M>,
    states: Seq<LevelState<K>>,
    g: int,
) -> nat
    decreases states.len() - g,
{
    if g >= states.len() {
        0
    } else {
        load_of(s, states[g], g as nat).len() + M as nat * weight(s, states, g + 1)
    }
}

/// The leaves under a row of complete trees.
proof fn lemma_complete_leaves<K, V>(ts: Seq<Tree<K, V>>, h: nat, m: usize)
    requires
        lined(ts, m, 0),
        forall|i: int| 0 <= i < ts.len() ==> upright(#[trigger] ts[i], h, m),
    ensures
        leaves_of(ts).len() == ts.len() * pow(m as int, h),
    decreases h, ts.len(),
{
    reveal(leaves_of);
    reveal(pow);
    let p = pow(m as int, h);
    if ts.len() > 0 {
        let front = ts.drop_last();
        let last = ts.last();
        lemma_lined_front(ts, m);
        assert forall|i: int| 0 <= i < front.len() implies upright(#[trigger] front[i], h, m) by {
            assert(front[i] == ts[i]);
        }
        lemma_complete_leaves(front, h, m);
        assert(upright(ts[ts.len() - 1], h, m));
        if let Tree::Inner { at, keys, kids } = last {
            assert forall|i: int| 0 <= i < kids.len() implies upright(
                #[trigger] kids[i],
                (h - 1) as nat,
                m,
            ) by {}
            lemma_complete_leaves(kids, (h - 1) as nat, m);
            assert(p == m * pow(m as int, (h - 1) as nat));
        }
        assert(leaves(last).len() == p);
        assert((ts.len() - 1) * p + p == ts.len() * p) by (nonlinear_arith);
    } else {
        assert(0 * p == 0);
    }
}

/// Where level `g` stands in the row of all levels.
proof fn lemma_level_within<K: Key>(states: Seq<LevelState<K>>, g: int)
    requires
        0 <= g < states.len(),
    ensures
        ({
            let n = states.len() as int;
            span(states, 0, n) == span(states, g + 1, n) + level(states[g], g as nat) + span(
                states,
                0,
                g,
            )
        }),
{
    let n = states.len() as int;
    lemma_span_split(states, 0, g + 1, n);
    lemma_span_split(states, 0, g, g + 1);
    assert(span(states, g, g) =~= Seq::<Piece<K>>::empty());
    assert(span(states, g, g + 1) =~= level(states[g], g as nat));
    assert(span(states, 0, n) =~= span(states, g + 1, n) + level(states[g], g as nat) + span(
        states,
        0,
        g,
    ));
}

/// What the nodes of a level have taken in stands upright, and the leaves below it are theirs.
proof fn lemma_load<K: Key, V, const M: usize>(
    s: Store<K, V, M>,
    states: Seq<LevelState<K>>,
    g: int,
)
    requires
        0 <= g < states.len(),
        row_ok(s, span(states, 0, states.len() as int), None, None),
    ensures
        forall|j: int|
            0 <= j < load_of(s, states[g], g as nat).len() ==> upright(
                #[trigger] load_of(s, states[g], g as nat)[j],
                g as nat,
                M,
            ),
        leaves_of(trees(s, level(states[g], g as nat))) == leaves_of(
            load_of(s, states[g], g as nat),
        ),
{
    let row = span(states, 0, states.len() as int);
    let st = states[g];
    let h = g as nat;
    let mine = level(st, h);
    lemma_level_within(states, g);
    let k = span(states, g + 1, states.len() as int).len() as int;
    assert(forall|i: int| 0 <= i < mine.len() ==> row[k + i] == #[trigger] mine[i]);
    let x = kids_of(s, st.full(), h + 1);
    let y = kids_of(s, st.filling(), h + 1);
    let one = at_most_one(st.full(), h + 1);
    let two = at_most_one(st.filling(), h + 1);
    if let Some((key, at)) = st.full() {
        assert(mine[0] == (Piece { key, at, h: h + 1 }));
        assert(row[k] == mine[0]);
        assert(stands(trees(s, row)[k], row[k], M));
    }
    if let Some((key, at)) = st.filling() {
        let l = one.len() as int;
        assert(mine[l] == (Piece { key, at, h: h + 1 }));
        assert(row[k + l] == mine[l]);
        assert(stands(trees(s, row)[k + l], row[k + l], M));
    }
    assert forall|j: int| 0 <= j < load_of(s, st, h).len() implies upright(
        #[trigger] load_of(s, st, h)[j],
        h,
        M,
    ) by {
        if j < x.len() {
            assert(load_of(s, st, h)[j] == x[j]);
        } else {
            assert(load_of(s, st, h)[j] == y[j - x.len()]);
        }
    }
    lemma_trees_concat(s, one, two);
    crate::lemmas::lemma_leaves_concat(trees(s, one), trees(s, two));
    crate::lemmas::lemma_leaves_concat(x, y);
    lemma_node_leaves(s, st.full(), h);
    lemma_node_leaves(s, st.filling(), h);
}

/// The leaves of a node are those of its children.
proof fn lemma_node_leaves<K: Key, V, const M: usize>(
    s: Store<K, V, M>,
    node: Option<(K, Addr)>,
    h: nat,
)
    ensures
        leaves_of(trees(s, at_most_one(node, h + 1))) == leaves_of(kids_of(s, node, h + 1)),
{
    let row = at_most_one(node, h + 1);
    match node {
        Some((key, at)) => {
            assert(row[0].at == at);
            assert(trees(s, row) =~= seq![abs(s, at, h + 1)]);
            crate::lemmas::lemma_one(abs(s, at, h + 1));
        },
        None => {
            assert(trees(s, row) =~= kids_of(s, node, h + 1));
        },
    }
}

/// The leaves under the nodes of level `g` and above.
proof fn lemma_weight<K: Key, V, const M: usize>(
    s: Store<K, V, M>,
    states: Seq<LevelState<K>>,
    g: int,
)
    requires
        0 <= g <= states.len(),
        row_ok(s, span(states, 0, states.len() as int), None, None),
        levels_lined(s, states, 0),
    ensures
        leaves_of(trees(s, span(states, g, states.len() as int))).len() == weight(s, states, g)
            * pow(M as int, g as nat),
    decreases states.len() - g,
{
    reveal(pow);
    let n = states.len() as int;
    let row = span(states, g, n);
    let p = pow(M as int, g as nat);
    if g < n {
        let above = span(states, g + 1, n);
        let mine = level(states[g], g as nat);
        lemma_span_split(states, g, g + 1, n);
        assert(span(states, g, g) =~= Seq::<Piece<K>>::empty());
        assert(span(states, g, g + 1) =~= mine);
        lemma_weight(s, states, g + 1);
        lemma_trees_concat(s, above, mine);
        crate::lemmas::lemma_leaves_concat(trees(s, above), trees(s, mine));
        lemma_load(s, states, g);
        lemma_complete_leaves(load_of(s, states[g], g as nat), g as nat, M);
        let l = load_of(s, states[g], g as nat).len();
        let w = weight(s, states, g + 1);
        let q = pow(M as int, (g + 1) as nat);
        assert(q == M * p);
        assert(w * q + l * p == (l + M * w) * p) by (nonlinear_arith)
            requires
                q == M * p,
        ;
    } else {
        assert(row =~= Seq::<Piece<K>>::empty());
        assert(trees(s, row) =~= Seq::<Tree<K, V>>::empty());
        reveal(leaves_of);
        assert(0 * p == 0);
    }
}

/// What has come to a level is what its nodes, and those above, have taken in.
proof fn lemma_arrived<K: Key, V, const M: usize>(
    s: Store<K, V, M>,
    states: Seq<LevelState<K>>,
    n: nat,
    g: nat,
)
    requires
        M >= 3,
        g <= states.len(),
        levels_ok(s, states, 0),
        n == weight(s, states, 0),
    ensures
        arrived(n, M, g) == weight(s, states, g as int),
    decreases g,
{
    if g > 0 {
        let e = (g - 1) as nat;
        lemma_arrived(s, states, n, e);
        lemma_split_weight(s, states, e as int);
    }
}

/// What came to a level fills the nodes there one after the other.
proof fn lemma_split_weight<K: Key, V, const M: usize>(
    s: Store<K, V, M>,
    states: Seq<LevelState<K>>,
    g: int,
)
    requires
        M >= 3,
        0 <= g < states.len(),
        levels_ok(s, states, 0),
    ensures
        ({
            let w = weight(s, states, g);
            let full = if states[g].full() is Some {
                1nat
            } else {
                0
            };
            &&& w > 0
            &&& w / M as nat == full + weight(s, states, g + 1)
            &&& w % M as nat == kids_of(s, states[g].filling(), g as nat + 1).len()
            &&& kids_of(s, states[g].full(), g as nat + 1).len() == full * M
            &&& weight(s, states, g + 1) > 0 ==> full == 1
        }),
{
    let w = weight(s, states, g);
    let up = weight(s, states, g + 1);
    let st = states[g];
    let full = if st.full() is Some {
        1nat
    } else {
        0
    };
    let c = kids_of(s, st.filling(), g as nat + 1).len();
    assert(level_ok(s, st, g as nat) && !st.is_clear());
    assert(kids_of(s, st.full(), g as nat + 1).len() == full * M);
    assert(w == (full + up) * M + c) by (nonlinear_arith)
        requires
            w == full * M + c + M * up,
    ;
    vstd::arithmetic::div_mod::lemma_fundamental_div_mod_converse(
        w as int,
        M as int,
        (full + up) as int,
        c as int,
    );
}

/// After a load of leaves one by one the levels hold what the number of the leaves says.
pub proof fn law_tallied<K: Key, V, const M: usize>(
    s: Store<K, V, M>,
    states: Seq<LevelState<K>>,
)
    requires
        M >= 3,
        row_ok(s, span(states, 0, states.len() as int), None, None),
        levels_ok(s, states, 0),
        levels_lined(s, states, 1),
    ensures
        tallied(s, states, leaves_of(trees(s, span(states, 0, states.len() as int))).len()),
{
    let row = span(states, 0, states.len() as int);
    let n = leaves_of(trees(s, row)).len();
    lemma_lowest(s, states, Addr { slab: 0, slot: 0 });
    assert(levels_lined(s, states, 0)) by {
        assert forall|g: int| 0 <= g < states.len() implies lined(
            load_of(s, #[trigger] states[g], g as nat),
            M,
            0,
        ) by {
            if g == 0 {
                assert(load_at(s, states, 0) == load_of(s, states[0], 0));
            }
        }
    }
    lemma_weight(s, states, 0);
    reveal(pow);
    assert(pow(M as int, 0) == 1);
    assert(n == weight(s, states, 0));
    assert forall|g: int| 0 <= g < states.len() implies {
        let a = arrived(n, M, g as nat);
        &&& a > 0
        &&& kids_of(s, (#[trigger] states[g]).full(), g as nat + 1).len() == (if a >= M {
            M as nat
        } else {
            0
        })
        &&& kids_of(s, states[g].filling(), g as nat + 1).len() == a % M as nat
        &&& states[g].full() is Some <==> a >= M
        &&& states[g].filling() is Some <==> a % M as nat > 0
    } by {
        lemma_arrived(s, states, n, g as nat);
        lemma_split_weight(s, states, g);
        let a = arrived(n, M, g as nat);
        assert(level_ok(s, states[g], g as nat));
        vstd::arithmetic::div_mod::lemma_fundamental_div_mod(a as int, M as int);
        if a / M as nat > 0 {
            assert(a >= M) by (nonlinear_arith)
                requires
                    a == M * (a / M as nat) + a % M as nat,
                    a / M as nat >= 1,
            ;
        } else {
            assert(a < M) by (nonlinear_arith)
                requires
                    a == M * (a / M as nat) + a % M as nat,
                    a / M as nat == 0,
                    (a % M as nat) < M,
            ;
        }
        let c = kids_of(s, states[g].filling(), g as nat + 1).len();
        assert(states[g].filling() is Some <==> c > 0);
        assert(kids_of(s, states[g].full(), g as nat + 1).len() == (if a >= M {
            M as nat
        } else {
            0
        }));
    }
    lemma_arrived(s, states, n, states.len());
}

/// A load can go on with any new leaf that is not empty and whose keys lie above all that went in
/// before, however many pairs it holds and whatever it links to: what the levels must meet for the
/// next leaf, they meet after the one before.
pub proof fn law_next_leaf<K: Key, V, const M: usize>(
    s: Store<K, V, M>,
    states: Seq<LevelState<K>>,
    at: Addr,
    leaf: Leaf<K, V, M>,
)
    requires
        ordered::<K>(),
        states.len() > 0 ==> row_ok(s, span(states, 0, states.len() as int), None, None),
        row_owned(s, span(states, 0, states.len() as int)),
        levels_ok(s, states, 0),
        levels_lined(s, states, 1),
        !s.leaves.dom().contains(at),
        leaf.wf(),
        leaf@.items.len() > 0,
        ({
            let ps = pairs_of(trees(s, span(states, 0, states.len() as int)));
            forall|i: int| 0 <= i < ps.len() ==> lt(#[trigger] ps[i].0, leaf@.items[0].0)
        }),
    ensures
        ({
            let u = Store { leaves: s.leaves.insert(at, leaf), ..s };
            let row = span(states, 0, states.len() as int);
            let more = row.push(Piece { key: leaf@.items[0].0, at, h: 0 });
            &&& row_ok(u, more, None, None)
            &&& row_owned(u, more)
            &&& levels_ok(u, states, 0)
            &&& levels_lined(u, states, 1)
            &&& pairs_of(trees(u, more)) == pairs_of(trees(s, row)) + leaf@.items
            &&& leaves_of(trees(u, more)).len() == leaves_of(trees(s, row)).len() + 1
        }),
{
    let n = states.len() as int;
    let u = Store { leaves: s.leaves.insert(at, leaf), ..s };
    let row = span(states, 0, n);
    let t = Tree::Leaf { at, leaf: leaf@ };
    law_row_continued(s, row, at, leaf);
    lemma_levels_kept(s, u, states, 0, n);
    lemma_loads_kept(s, u, states, 0, n);
    assert(trees(s, row).push(t) =~= trees(s, row) + seq![t]);
    crate::lemmas::lemma_leaves_concat(trees(s, row), seq![t]);
    crate::lemmas::lemma_pairs_concat(trees(s, row), seq![t]);
    crate::lemmas::lemma_one(t);
    crate::lemmas::lemma_leaf_pairs(t);
}

} // verus!
