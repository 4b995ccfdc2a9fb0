//! What the operations on a set mean, key by key: which keys are there afterwards, and which copy
//! of a key is handed out.
use crate::inner::ascending;
use crate::iter::{window, Bound};
use crate::key::{group_order, lt, ordered, same, Key};
use crate::laws::{law_set_insert, law_set_remove};
use crate::map_laws::law_between;
use crate::merge::{
    both, either, lemma_both, lemma_either, lemma_only_first, lemma_only_one, only_first, only_one,
};
use crate::set::{
    borrowed, holds, keys_of, paired, picked, place, plain, stored, with_all, with_key, without_key,
};
use crate::set_order::{alike, lexicographic};
use core::cmp::Ordering;
use vstd::prelude::*;

verus! {

/// A set holds a key exactly if one of its keys equals it; and the copy that it hands out is that
/// one.
pub proof fn law_own_copy<K: Key>(ks: Seq<K>, k: K)
    requires
        ordered::<K>(),
        forall|i: int, j: int|
            #![trigger ks[i], ks[j]]
            0 <= i < j < ks.len() ==> lt(ks[i], ks[j]),
    ensures
        forall|i: int|
            0 <= i < ks.len() && same(#[trigger] ks[i], k) ==> holds(ks, k) && stored(ks, k) == Some(
                ks[i],
            ),
        holds(ks, k) ==> exists|i: int|
            0 <= i < ks.len() && same(#[trigger] ks[i], k) && stored(ks, k) == Some(ks[i]),
        !holds(ks, k) ==> stored(ks, k) is None,
{
    broadcast use group_order;

    assert(ascending(ks));
    crate::laws::lemma_place(ks, k);
    let p = place(ks, k) as int;
    assert forall|i: int| 0 <= i < ks.len() && same(#[trigger] ks[i], k) implies holds(ks, k)
        && stored(ks, k) == Some(ks[i]) by {
        assert(same(plain()(ks[i]), k));
        if i < p {
            assert(lt(ks[i], k));
        } else if p < i {
            assert(lt(ks[p], ks[i]));
        }
    }
}

/// The place of a key divides a set into the keys that sort before it and the others: what a set
/// keeps and what it gives away when it is split off there.
pub proof fn law_set_divided<K: Key>(ks: Seq<K>, k: K)
    requires
        ordered::<K>(),
        forall|i: int, j: int|
            #![trigger ks[i], ks[j]]
            0 <= i < j < ks.len() ==> lt(ks[i], ks[j]),
    ensures
        place(ks, k) <= ks.len(),
        ks.take(place(ks, k) as int) + ks.skip(place(ks, k) as int) == ks,
        forall|x: K| #[trigger]
            ks.take(place(ks, k) as int).contains(x) <==> ks.contains(x) && lt(x, k),
        forall|x: K| #[trigger]
            ks.skip(place(ks, k) as int).contains(x) <==> ks.contains(x) && !lt(x, k),
{
    assert(ascending(ks));
    crate::laws::lemma_place(ks, k);
    let p = place(ks, k) as int;
    let a = ks.take(p);
    let b = ks.skip(p);
    assert(a + b =~= ks);
    assert forall|x: K| #[trigger] a.contains(x) <==> ks.contains(x) && lt(x, k) by {
        if a.contains(x) {
            let i = choose|i: int| 0 <= i < a.len() && a[i] == x;
            assert(ks[i] == x);
        }
        if ks.contains(x) && lt(x, k) {
            let i = choose|i: int| 0 <= i < ks.len() && ks[i] == x;
            assert(a[i] == x);
        }
    }
    assert forall|x: K| #[trigger] b.contains(x) <==> ks.contains(x) && !lt(x, k) by {
        if b.contains(x) {
            let i = choose|i: int| 0 <= i < b.len() && b[i] == x;
            assert(ks[p + i] == x);
        }
        if ks.contains(x) && !lt(x, k) {
            let i = choose|i: int| 0 <= i < ks.len() && ks[i] == x;
            assert(b[i - p] == x);
        }
    }
}

/// A set with a key put into it has its own keys, and that one if it had no equal one.
pub proof fn law_put_in<K: Key>(ks: Seq<K>, k: K)
    requires
        ordered::<K>(),
        forall|i: int, j: int|
            #![trigger ks[i], ks[j]]
            0 <= i < j < ks.len() ==> lt(ks[i], ks[j]),
    ensures
        ({
            let ls = with_key(ks, k);
            &&& forall|i: int, j: int|
            #![trigger ls[i], ls[j]]
            0 <= i < j < ls.len() ==> lt(ls[i], ls[j])
            &&& forall|x: K| #[trigger]
                ls.contains(x) <==> ks.contains(x) || (x == k && forall|i: int|
                    0 <= i < ks.len() ==> !same(#[trigger] ks[i], k))
        }),
{
    broadcast use group_order;

    assert(ascending(ks));
    law_set_insert(ks, k, k);
    law_own_copy(ks, k);
    crate::laws::lemma_place(ks, k);
    let ls = with_key(ks, k);
    let p = place(ks, k) as int;
    if !holds(ks, k) {
        assert forall|x: K| #[trigger] ls.contains(x) <==> ks.contains(x) || x == k by {
            if ls.contains(x) {
                let i = choose|i: int| 0 <= i < ls.len() && ls[i] == x;
                if i != p {
                    let j = if i < p { i } else { i - 1 };
                    assert(ks[j] == x);
                }
            }
            if ks.contains(x) {
                let i = choose|i: int| 0 <= i < ks.len() && ks[i] == x;
                let j = if i < p { i } else { i + 1 };
                assert(ls[j] == x);
            }
            assert(ls[p] == k);
        }
    }
}

/// A set with a key taken out has its other keys.
pub proof fn law_taken_out<K: Key>(ks: Seq<K>, k: K)
    requires
        ordered::<K>(),
        forall|i: int, j: int|
            #![trigger ks[i], ks[j]]
            0 <= i < j < ks.len() ==> lt(ks[i], ks[j]),
    ensures
        ({
            let ls = without_key(ks, k);
            &&& forall|i: int, j: int|
            #![trigger ls[i], ls[j]]
            0 <= i < j < ls.len() ==> lt(ls[i], ls[j])
            &&& forall|x: K| #[trigger] ls.contains(x) <==> ks.contains(x) && !same(x, k)
        }),
{
    broadcast use group_order;

    assert(ascending(ks));
    law_set_remove(ks, k, k);
    law_own_copy(ks, k);
    crate::laws::lemma_place(ks, k);
    let ls = without_key(ks, k);
    let p = place(ks, k) as int;
    assert forall|x: K| #[trigger] ls.contains(x) <==> ks.contains(x) && !same(x, k) by {
        if ls.contains(x) {
            let i = choose|i: int| 0 <= i < ls.len() && ls[i] == x;
            let j = if !holds(ks, k) || i < p { i } else { i + 1 };
            assert(ks[j] == x);
            if same(ks[j], k) && j < p {
                assert(lt(ks[j], k));
            } else if same(ks[j], k) && p < j {
                assert(lt(ks[p], ks[j]));
            }
        }
        if ks.contains(x) && !same(x, k) {
            let i = choose|i: int| 0 <= i < ks.len() && ks[i] == x;
            let j = if !holds(ks, k) || i < p { i } else { i - 1 };
            assert(ls[j] == x);
        }
    }
}

/// Replacing a key puts the new copy in the place of the old one, and leaves the other keys.
pub proof fn law_replaced<K: Key>(ks: Seq<K>, k: K)
    requires
        ordered::<K>(),
        forall|i: int, j: int|
            #![trigger ks[i], ks[j]]
            0 <= i < j < ks.len() ==> lt(ks[i], ks[j]),
    ensures
        ({
            let ls = with_key(without_key(ks, k), k);
            &&& forall|i: int, j: int|
            #![trigger ls[i], ls[j]]
            0 <= i < j < ls.len() ==> lt(ls[i], ls[j])
            &&& forall|x: K| #[trigger]
                ls.contains(x) <==> x == k || (ks.contains(x) && !same(x, k))
        }),
{
    let mid = without_key(ks, k);
    law_taken_out(ks, k);
    law_put_in(mid, k);
    assert forall|i: int| 0 <= i < mid.len() implies !same(#[trigger] mid[i], k) by {
        assert(mid.contains(mid[i]));
    }
}

/// A set that a stream of keys is put into has its own keys, and of the stream's keys the first of
/// those that are equal, where it has no equal one itself.
pub proof fn law_filled_with<K: Key>(ks: Seq<K>, more: Seq<K>)
    requires
        ordered::<K>(),
        forall|i: int, j: int|
            #![trigger ks[i], ks[j]]
            0 <= i < j < ks.len() ==> lt(ks[i], ks[j]),
    ensures
        ({
            let ls = with_all(ks, more);
            &&& forall|i: int, j: int|
            #![trigger ls[i], ls[j]]
            0 <= i < j < ls.len() ==> lt(ls[i], ls[j])
            &&& forall|x: K| #[trigger]
                ls.contains(x) <==> ks.contains(x) || ((forall|i: int|
                    0 <= i < ks.len() ==> !same(#[trigger] ks[i], x)) && exists|j: int|
                    0 <= j < more.len() && #[trigger] more[j] == x && forall|l: int|
                        0 <= l < j ==> !same(#[trigger] more[l], x))
        }),
    decreases more.len(), 0int,
{
    broadcast use group_order;

    if more.len() > 0 {
        let front = more.drop_last();
        let k = more.last();
        let n = more.len() - 1;
        let mid = with_all(ks, front);
        let ls = with_all(ks, more);
        law_filled_with(ks, front);
        law_put_in(mid, k);
        assert(ls == with_key(mid, k));
        assert(more[n] == k);
        assert forall|x: K| #[trigger] ls.contains(x) <==> ks.contains(x) || ((forall|i: int|
            0 <= i < ks.len() ==> !same(#[trigger] ks[i], x)) && exists|j: int|
            0 <= j < more.len() && #[trigger] more[j] == x && forall|l: int|
                0 <= l < j ==> !same(#[trigger] more[l], x)) by {
            if ls.contains(x) && !ks.contains(x) {
                if mid.contains(x) {
                    let j = choose|j: int|
                        0 <= j < front.len() && #[trigger] front[j] == x && forall|l: int|
                            0 <= l < j ==> !same(#[trigger] front[l], x);
                    assert(more[j] == x);
                    assert forall|l: int| 0 <= l < j implies !same(#[trigger] more[l], x) by {
                        assert(front[l] == more[l]);
                    }
                } else {
                    assert(x == k);
                    assert forall|i: int| 0 <= i < ks.len() implies !same(#[trigger] ks[i], x) by {
                        assert(ks.contains(ks[i]));
                        assert(mid.contains(ks[i]));
                        let y = ks[i];
                        let q = choose|q: int| 0 <= q < mid.len() && mid[q] == y;
                        assert(!same(mid[q], k));
                    }
                    assert forall|l: int| 0 <= l < n implies !same(#[trigger] more[l], x) by {
                        if same(more[l], x) {
                            lemma_first(ks, front, x, l);
                        }
                    }
                }
            }
            if ks.contains(x) {
                assert(mid.contains(x));
            }
            if (forall|i: int| 0 <= i < ks.len() ==> !same(#[trigger] ks[i], x)) && exists|j: int|
                0 <= j < more.len() && #[trigger] more[j] == x && forall|l: int|
                    0 <= l < j ==> !same(#[trigger] more[l], x) {
                let j = choose|j: int|
                    0 <= j < more.len() && #[trigger] more[j] == x && forall|l: int|
                        0 <= l < j ==> !same(#[trigger] more[l], x);
                if j < n {
                    assert(front[j] == x);
                    assert forall|l: int| 0 <= l < j implies !same(#[trigger] front[l], x) by {
                        assert(front[l] == more[l]);
                    }
                    assert(mid.contains(x));
                } else {
                    assert forall|q: int| 0 <= q < mid.len() implies !same(#[trigger] mid[q], k) by {
                        let y = mid[q];
                        assert(mid.contains(y));
                        if same(y, k) {
                            if ks.contains(y) {
                                let i = choose|i: int| 0 <= i < ks.len() && ks[i] == y;
                                assert(same(ks[i], x));
                            } else {
                                let l = choose|l: int|
                                    0 <= l < front.len() && #[trigger] front[l] == y && forall|o: int|
                                        0 <= o < l ==> !same(#[trigger] front[o], y);
                                assert(more[l] == y);
                                assert(same(more[l], x));
                            }
                        }
                    }
                }
            }
        }
    }
}

/// A key that the stream has is in the set that comes of it, as one of its equals.
proof fn lemma_first<K: Key>(ks: Seq<K>, front: Seq<K>, x: K, at: int)
    requires
        ordered::<K>(),
        forall|i: int, j: int|
            #![trigger ks[i], ks[j]]
            0 <= i < j < ks.len() ==> lt(ks[i], ks[j]),
        0 <= at < front.len(),
        same(front[at], x),
    ensures
        exists|q: int| 0 <= q < with_all(ks, front).len() && same(#[trigger] with_all(ks, front)[q], x),
    decreases front.len(), 1 + at,
{
    broadcast use group_order;

    let mid = with_all(ks, front);
    law_filled_with(ks, front);
    let y = front[at];
    if exists|i: int| 0 <= i < ks.len() && same(#[trigger] ks[i], y) {
        let i = choose|i: int| 0 <= i < ks.len() && same(#[trigger] ks[i], y);
        assert(ks.contains(ks[i]));
        assert(mid.contains(ks[i]));
        let z = ks[i];
        let q = choose|q: int| 0 <= q < mid.len() && mid[q] == z;
        assert(same(mid[q], x));
    } else if exists|l: int| 0 <= l < at && same(#[trigger] front[l], y) {
        let l = choose|l: int| 0 <= l < at && same(#[trigger] front[l], y);
        lemma_first(ks, front, x, l);
    } else {
        assert(front[at] == y);
        assert(mid.contains(y));
        let q = choose|q: int| 0 <= q < mid.len() && mid[q] == y;
        assert(same(mid[q], x));
    }
}

/// After a selection a set has exactly those of its keys on which the verdict was `true`.
pub proof fn law_picked<K: Key>(ks: Seq<K>, keep: Seq<bool>)
    requires
        ordered::<K>(),
        forall|i: int, j: int|
            #![trigger ks[i], ks[j]]
            0 <= i < j < ks.len() ==> lt(ks[i], ks[j]),
        keep.len() == ks.len(),
    ensures
        ({
            let ls = picked(ks, keep);
            &&& forall|i: int, j: int|
            #![trigger ls[i], ls[j]]
            0 <= i < j < ls.len() ==> lt(ls[i], ls[j])
            &&& forall|i: int| 0 <= i < ks.len() ==> (ls.contains(#[trigger] ks[i]) <==> keep[i])
            &&& forall|x: K| #[trigger] ls.contains(x) ==> ks.contains(x)
        }),
{
    broadcast use group_order;

    lemma_picked_from(ks, keep);
    let ls = picked(ks, keep);
    assert forall|i: int| 0 <= i < ks.len() implies (ls.contains(#[trigger] ks[i]) <==> keep[i]) by {
        if ls.contains(ks[i]) {
            let j = choose|j: int| 0 <= j < ks.len() && #[trigger] ks[j] == ks[i] && keep[j];
            if j < i {
                assert(lt(ks[j], ks[i]));
            } else if i < j {
                assert(lt(ks[i], ks[j]));
            }
        }
    }
    assert forall|x: K| #[trigger] ls.contains(x) implies ks.contains(x) by {}
}

proof fn lemma_picked_from<K: Key>(ks: Seq<K>, keep: Seq<bool>)
    requires
        ordered::<K>(),
        forall|i: int, j: int|
            #![trigger ks[i], ks[j]]
            0 <= i < j < ks.len() ==> lt(ks[i], ks[j]),
        keep.len() >= ks.len(),
    ensures
        ({
            let ls = picked(ks, keep);
            &&& forall|i: int, j: int|
            #![trigger ls[i], ls[j]]
            0 <= i < j < ls.len() ==> lt(ls[i], ls[j])
            &&& forall|x: K| #[trigger]
                ls.contains(x) <==> exists|j: int|
                    0 <= j < ks.len() && #[trigger] ks[j] == x && keep[j]
        }),
    decreases ks.len(),
{
    if ks.len() > 0 {
        let front = ks.drop_last();
        let n = ks.len() - 1;
        lemma_picked_from(front, keep);
        let a = picked(front, keep);
        let ls = picked(ks, keep);
        assert(ks[n] == ks.last());
        assert(ls == (if keep[n] { a.push(ks[n]) } else { a }));
        assert forall|x: K| #[trigger] ls.contains(x) <==> exists|j: int|
            0 <= j < ks.len() && #[trigger] ks[j] == x && keep[j] by {
            if ls.contains(x) {
                let i = choose|i: int| 0 <= i < ls.len() && ls[i] == x;
                if i < a.len() {
                    assert(a[i] == x);
                    assert(a.contains(x));
                    let j = choose|j: int| 0 <= j < front.len() && #[trigger] front[j] == x && keep[j];
                    assert(ks[j] == x);
                } else {
                    assert(ks[n] == x && keep[n]);
                }
            }
            if exists|j: int| 0 <= j < ks.len() && #[trigger] ks[j] == x && keep[j] {
                let j = choose|j: int| 0 <= j < ks.len() && #[trigger] ks[j] == x && keep[j];
                if j < n {
                    assert(front[j] == x);
                    assert(a.contains(x));
                    let i = choose|i: int| 0 <= i < a.len() && a[i] == x;
                    assert(ls[i] == x);
                } else {
                    assert(ls[ls.len() - 1] == x);
                }
            }
        }
        assert forall|i: int, j: int|
            #![trigger ls[i], ls[j]]
            0 <= i < j < ls.len() implies lt(ls[i], ls[j]) by {
            assert(ls[i] == a[i]);
            if j < a.len() {
                assert(ls[j] == a[j]);
            } else {
                assert(a.contains(a[i]));
                let l = choose|l: int| 0 <= l < front.len() && #[trigger] front[l] == a[i] && keep[l];
                assert(ks[l] == a[i]);
            }
        }
    }
}

/// Two sets compare as their keys do at the first place where these differ; where one set's keys
/// are all there are before that, it is the lesser one.
pub proof fn law_decided<K: Key>(a: Seq<K>, b: Seq<K>)
    requires
        ordered::<K>(),
    ensures
        lexicographic(a, b) == Ordering::Less <==> exists|i: int|
            0 <= i <= a.len() && i < b.len() && (forall|j: int|
                0 <= j < i ==> same(#[trigger] a[j], b[j])) && (i == a.len() || lt(
                a[i],
                #[trigger] b[i],
            )),
        lexicographic(a, b) == Ordering::Greater <==> exists|i: int|
            0 <= i <= b.len() && i < a.len() && (forall|j: int|
                0 <= j < i ==> same(#[trigger] a[j], b[j])) && (i == b.len() || lt(
                b[i],
                #[trigger] a[i],
            )),
        lexicographic(a, b) == Ordering::Equal <==> a.len() == b.len() && forall|j: int|
            0 <= j < a.len() ==> same(#[trigger] a[j], b[j]),
{
    lemma_decided(a, b);
    if lexicographic(a, b) == Ordering::Less {
        let i = choose|i: int| #[trigger]
            agree(a, b, i) && 0 <= i <= a.len() && i < b.len() && (i == a.len() || lt(a[i], b[i]));
        let y = b[i];
        assert(i == a.len() || lt(a[i], b[i]));
    }
    if lexicographic(a, b) == Ordering::Greater {
        let i = choose|i: int| #[trigger]
            agree(a, b, i) && 0 <= i <= b.len() && i < a.len() && (i == b.len() || lt(b[i], a[i]));
        let y = a[i];
        assert(i == b.len() || lt(b[i], a[i]));
    }
    if exists|i: int|
        0 <= i <= a.len() && i < b.len() && (forall|j: int|
            0 <= j < i ==> same(#[trigger] a[j], b[j])) && (i == a.len() || lt(
            a[i],
            #[trigger] b[i],
        )) {
        let i = choose|i: int|
            0 <= i <= a.len() && i < b.len() && (forall|j: int|
                0 <= j < i ==> same(#[trigger] a[j], b[j])) && (i == a.len() || lt(
                a[i],
                #[trigger] b[i],
            ));
        assert(agree(a, b, i));
    }
    if exists|i: int|
        0 <= i <= b.len() && i < a.len() && (forall|j: int|
            0 <= j < i ==> same(#[trigger] a[j], b[j])) && (i == b.len() || lt(
            b[i],
            #[trigger] a[i],
        )) {
        let i = choose|i: int|
            0 <= i <= b.len() && i < a.len() && (forall|j: int|
                0 <= j < i ==> same(#[trigger] a[j], b[j])) && (i == b.len() || lt(
                b[i],
                #[trigger] a[i],
            ));
        assert(agree(a, b, i));
    }
}

/// The first `n` keys of the two are equal, one by one.
spec fn agree<K: Key>(a: Seq<K>, b: Seq<K>, n: int) -> bool {
    forall|j: int| 0 <= j < n ==> same(#[trigger] a[j], b[j])
}

proof fn lemma_decided<K: Key>(a: Seq<K>, b: Seq<K>)
    requires
        ordered::<K>(),
    ensures
        lexicographic(a, b) == Ordering::Less <==> exists|i: int| #[trigger]
            agree(a, b, i) && 0 <= i <= a.len() && i < b.len() && (i == a.len() || lt(a[i], b[i])),
        lexicographic(a, b) == Ordering::Greater <==> exists|i: int| #[trigger]
            agree(a, b, i) && 0 <= i <= b.len() && i < a.len() && (i == b.len() || lt(b[i], a[i])),
        lexicographic(a, b) == Ordering::Equal <==> a.len() == b.len() && forall|j: int|
            0 <= j < a.len() ==> same(#[trigger] a[j], b[j]),
    decreases a.len(),
{
    broadcast use group_order;

    crate::set_order::lemma_equal_alike(a, b);
    if a.len() > 0 && b.len() > 0 && same(a[0], b[0]) {
        let s = a.drop_first();
        let t = b.drop_first();
        lemma_decided(s, t);
        if lexicographic(a, b) == Ordering::Less {
            let i = choose|i: int| #[trigger]
                agree(s, t, i) && 0 <= i <= s.len() && i < t.len() && (i == s.len() || lt(
                    s[i],
                    t[i],
                ));
            lemma_agree(a, b, i);
        }
        if lexicographic(a, b) == Ordering::Greater {
            let i = choose|i: int| #[trigger]
                agree(s, t, i) && 0 <= i <= t.len() && i < s.len() && (i == t.len() || lt(
                    t[i],
                    s[i],
                ));
            lemma_agree(a, b, i);
        }
        if exists|i: int| #[trigger]
            agree(a, b, i) && 0 <= i <= a.len() && i < b.len() && (i == a.len() || lt(a[i], b[i])) {
            let i = choose|i: int| #[trigger]
                agree(a, b, i) && 0 <= i <= a.len() && i < b.len() && (i == a.len() || lt(
                    a[i],
                    b[i],
                ));
            assert(i > 0);
            lemma_agree(a, b, i - 1);
        }
        if exists|i: int| #[trigger]
            agree(a, b, i) && 0 <= i <= b.len() && i < a.len() && (i == b.len() || lt(b[i], a[i])) {
            let i = choose|i: int| #[trigger]
                agree(a, b, i) && 0 <= i <= b.len() && i < a.len() && (i == b.len() || lt(
                    b[i],
                    a[i],
                ));
            assert(i > 0);
            lemma_agree(a, b, i - 1);
        }
    } else {
        assert(agree(a, b, 0));
        assert forall|i: int| #[trigger] agree(a, b, i) && i > 0 implies same(a[0], b[0]) by {}
    }
}

proof fn lemma_agree<K: Key>(a: Seq<K>, b: Seq<K>, n: int)
    requires
        a.len() > 0,
        b.len() > 0,
        same(a[0], b[0]),
        0 <= n < a.len(),
        n < b.len(),
    ensures
        agree(a.drop_first(), b.drop_first(), n) <==> agree(a, b, n + 1),
{
    let s = a.drop_first();
    let t = b.drop_first();
    if agree(s, t, n) {
        assert forall|j: int| 0 <= j < n + 1 implies same(#[trigger] a[j], b[j]) by {
            if j > 0 {
                assert(same(s[j - 1], t[j - 1]));
            }
        }
    }
    if agree(a, b, n + 1) {
        assert forall|j: int| 0 <= j < n implies same(#[trigger] s[j], t[j]) by {
            assert(same(a[j + 1], b[j + 1]));
        }
    }
}

/// Sets are alike exactly if they have as many keys, equal one by one: so if neither has a key
/// without an equal in the other.
pub proof fn law_alike<K: Key>(a: Seq<K>, b: Seq<K>)
    requires
        ordered::<K>(),
        forall|i: int, j: int|
            #![trigger a[i], a[j]]
            0 <= i < j < a.len() ==> lt(a[i], a[j]),
        forall|i: int, j: int|
            #![trigger b[i], b[j]]
            0 <= i < j < b.len() ==> lt(b[i], b[j]),
    ensures
        alike(a, b) <==> a.len() == b.len() && forall|i: int|
            0 <= i < a.len() ==> same(#[trigger] a[i], b[i]),
        alike(a, b) <==> only_one(a, b, plain()).len() == 0,
{
    broadcast use group_order;

    assert(ascending(a) && ascending(b));
    law_merged(a, b);
    let u = only_one(a, b, plain());
    if alike(a, b) {
        if u.len() > 0 {
            let x = u[0];
            assert(u.contains(x));
            if a.contains(x) {
                let i = choose|i: int| 0 <= i < a.len() && a[i] == x;
                assert(same(a[i], b[i]));
            } else {
                let i = choose|i: int| 0 <= i < b.len() && b[i] == x;
                assert(same(a[i], b[i]));
            }
        }
    }
    if u.len() == 0 {
        assert forall|k: K| #[trigger] holds(a, k) <==> holds(b, k) by {
            crate::laws::law_set_algebra(a, b, k);
        }
        crate::laws::law_set_equal(a, b);
    }
}

/// Union, intersection, difference and symmetric difference, key by key: which copies they have, in
/// the order of the keys.
pub proof fn law_merged<K: Key>(a: Seq<K>, b: Seq<K>)
    requires
        ordered::<K>(),
        forall|i: int, j: int|
            #![trigger a[i], a[j]]
            0 <= i < j < a.len() ==> lt(a[i], a[j]),
        forall|i: int, j: int|
            #![trigger b[i], b[j]]
            0 <= i < j < b.len() ==> lt(b[i], b[j]),
    ensures
        ({
            let u = either(a, b, plain());
            &&& forall|i: int, j: int|
            #![trigger u[i], u[j]]
            0 <= i < j < u.len() ==> lt(u[i], u[j])
            &&& forall|x: K| #[trigger]
                u.contains(x) <==> a.contains(x) || (b.contains(x) && forall|i: int|
                    0 <= i < a.len() ==> !same(#[trigger] a[i], x))
        }),
        ({
            let u = both(a, b, plain());
            &&& forall|i: int, j: int|
            #![trigger u[i], u[j]]
            0 <= i < j < u.len() ==> lt(u[i], u[j])
            &&& forall|x: K| #[trigger]
                u.contains(x) <==> a.contains(x) && exists|i: int|
                    0 <= i < b.len() && same(#[trigger] b[i], x)
        }),
        ({
            let u = only_first(a, b, plain());
            &&& forall|i: int, j: int|
            #![trigger u[i], u[j]]
            0 <= i < j < u.len() ==> lt(u[i], u[j])
            &&& forall|x: K| #[trigger]
                u.contains(x) <==> a.contains(x) && forall|i: int|
                    0 <= i < b.len() ==> !same(#[trigger] b[i], x)
        }),
        ({
            let u = only_one(a, b, plain());
            &&& forall|i: int, j: int|
            #![trigger u[i], u[j]]
            0 <= i < j < u.len() ==> lt(u[i], u[j])
            &&& forall|x: K| #[trigger]
                u.contains(x) <==> (a.contains(x) && forall|i: int|
                    0 <= i < b.len() ==> !same(#[trigger] b[i], x)) || (b.contains(x) && forall|i: int|
                    0 <= i < a.len() ==> !same(#[trigger] a[i], x))
        }),
{
    lemma_rising_run(a);
    lemma_rising_run(b);
    lemma_either(a, b, plain());
    lemma_both(a, b, plain());
    lemma_only_first(a, b, plain());
    lemma_only_one(a, b, plain());
    lemma_rising_run(either(a, b, plain()));
    lemma_rising_run(both(a, b, plain()));
    lemma_rising_run(only_first(a, b, plain()));
    lemma_rising_run(only_one(a, b, plain()));
    lemma_among(a);
    lemma_among(b);
}

/// Keys rise as their own keys exactly if they ascend.
proof fn lemma_rising_run<K: Key>(ks: Seq<K>)
    ensures
        crate::merge::rising(ks, plain()) <==> (forall|i: int, j: int|
            #![trigger ks[i], ks[j]]
            0 <= i < j < ks.len() ==> lt(ks[i], ks[j])),
{
    if crate::merge::rising(ks, plain()) {
        assert forall|i: int, j: int|
            #![trigger ks[i], ks[j]]
            0 <= i < j < ks.len() implies lt(ks[i], ks[j]) by {
            assert(lt(plain()(ks[i]), plain()(ks[j])));
        }
    }
}

proof fn lemma_among<K: Key>(ks: Seq<K>)
    ensures
        forall|k: K| #[trigger] crate::merge::among(ks, plain(), k) <==> exists|i: int|
            0 <= i < ks.len() && same(#[trigger] ks[i], k),
{
    assert forall|k: K| #[trigger] crate::merge::among(ks, plain(), k) <==> exists|i: int|
        0 <= i < ks.len() && same(#[trigger] ks[i], k) by {
        if exists|i: int| 0 <= i < ks.len() && same(#[trigger] ks[i], k) {
            let i = choose|i: int| 0 <= i < ks.len() && same(#[trigger] ks[i], k);
            assert(same(plain()(ks[i]), k));
        }
    }
}

/// A range of a set has exactly the keys between its bounds, in their order.
pub proof fn law_set_between<K: Key>(ks: Seq<K>, start: Bound<K>, end: Bound<K>)
    requires
        ordered::<K>(),
        forall|i: int, j: int|
            #![trigger ks[i], ks[j]]
            0 <= i < j < ks.len() ==> lt(ks[i], ks[j]),
    ensures
        ({
            let ls = keys_of(window(paired(ks), start, end));
            &&& forall|i: int, j: int|
            #![trigger ls[i], ls[j]]
            0 <= i < j < ls.len() ==> lt(ls[i], ls[j])
            &&& forall|x: K| #[trigger]
                ls.contains(x) <==> {
                    &&& ks.contains(x)
                    &&& match start {
                        Bound::Included(b) => lt(b, x) || same(b, x),
                        Bound::Excluded(b) => lt(b, x),
                        Bound::Unbounded => true,
                    }
                    &&& match end {
                        Bound::Included(b) => lt(x, b) || same(x, b),
                        Bound::Excluded(b) => lt(x, b),
                        Bound::Unbounded => true,
                    }
                }
        }),
{
    let ps = paired(ks);
    let qs = window(ps, start, end);
    let ls = keys_of(qs);
    assert forall|i: int, j: int|
        #![trigger ps[i], ps[j]]
        0 <= i < j < ps.len() implies lt(ps[i].0, ps[j].0) by {
        assert(ps[i].0 == ks[i] && ps[j].0 == ks[j]);
    }
    law_between(ps, start, end);
    assert forall|i: int, j: int|
        #![trigger ls[i], ls[j]]
        0 <= i < j < ls.len() implies lt(ls[i], ls[j]) by {
        assert(ls[i] == qs[i].0 && ls[j] == qs[j].0);
    }
    assert forall|x: K| true implies (#[trigger] ls.contains(x) <==> qs.contains((x, ()))) by {
        if ls.contains(x) {
            let i = choose|i: int| 0 <= i < ls.len() && ls[i] == x;
            let (k, u) = qs[i];
            assert(u == ());
            assert(qs[i] == (x, ()));
        }
        if qs.contains((x, ())) {
            let i = choose|i: int| 0 <= i < qs.len() && qs[i] == (x, ());
            assert(ls[i] == x);
        }
    }
    assert forall|x: K| true implies (#[trigger] ks.contains(x) <==> ps.contains((x, ()))) by {
        if ks.contains(x) {
            let i = choose|i: int| 0 <= i < ks.len() && ks[i] == x;
            assert(ps[i] == (x, ()));
        }
        if ps.contains((x, ())) {
            let i = choose|i: int| 0 <= i < ps.len() && ps[i] == (x, ());
            assert(ks[i] == x);
        }
    }
}

/// What a walk by reference yields is the run, key by key.
pub proof fn law_keys_by_reference<'a, K>(ks: Seq<K>)
    ensures
        borrowed::<'a, K>(ks).len() == ks.len(),
        forall|i: int| 0 <= i < ks.len() ==> *(#[trigger] borrowed::<'a, K>(ks)[i]) == ks[i],
{
}

} // verus!
