//! What the operations on a map mean, pair by pair: which pairs are there afterwards, and which one
//! a lookup finds. Nothing here is said in terms of places in a run, but for the order of its keys.
use crate::entries::{
    del, entry, has_key, lemma_del_sorted, lemma_has_key, lemma_put_sorted, lemma_rank_splits,
    lookup, put, rank, sorted,
};
use crate::iter::{after_start, before_end, refs, window, Bound};
use crate::key::{group_order, lt, ordered, same, Key};
use crate::laws::{law_insert_get, law_range};
use crate::owned::put_all;
use vstd::prelude::*;

verus! {

/// A lookup finds the pair whose key equals the one that is asked for, if there is one, and nothing
/// otherwise.
pub proof fn law_found<K: Key, V>(ps: Seq<(K, V)>, k: K)
    requires
        ordered::<K>(),
        forall|i: int, j: int|
            #![trigger ps[i], ps[j]]
            0 <= i < j < ps.len() ==> lt(ps[i].0, ps[j].0),
    ensures
        forall|i: int|
            0 <= i < ps.len() && same((#[trigger] ps[i]).0, k) ==> {
                &&& has_key(ps, k)
                &&& lookup(ps, k) == Some(ps[i].1)
                &&& entry(ps, k) == Some(ps[i])
            },
        (forall|i: int| 0 <= i < ps.len() ==> !same((#[trigger] ps[i]).0, k)) ==> {
            &&& !has_key(ps, k)
            &&& lookup(ps, k) is None
            &&& entry(ps, k) is None
        },
{
    assert(sorted(ps));
    lemma_has_key(ps, k);
}

/// The rank of a key divides a run into the pairs whose keys sort before it and the others: what a
/// tree keeps and what it gives away when it is split off there.
pub proof fn law_divided<K: Key, V>(ps: Seq<(K, V)>, k: K)
    requires
        ordered::<K>(),
        forall|i: int, j: int|
            #![trigger ps[i], ps[j]]
            0 <= i < j < ps.len() ==> lt(ps[i].0, ps[j].0),
    ensures
        rank(ps, k) <= ps.len(),
        ps.take(rank(ps, k) as int) + ps.skip(rank(ps, k) as int) == ps,
        forall|p: (K, V)| #[trigger]
            ps.take(rank(ps, k) as int).contains(p) <==> ps.contains(p) && lt(p.0, k),
        forall|p: (K, V)| #[trigger]
            ps.skip(rank(ps, k) as int).contains(p) <==> ps.contains(p) && !lt(p.0, k),
{
    assert(sorted(ps));
    lemma_rank_splits(ps, k);
    let r = rank(ps, k) as int;
    let a = ps.take(r);
    let b = ps.skip(r);
    assert(a + b =~= ps);
    assert forall|p: (K, V)| #[trigger] a.contains(p) <==> ps.contains(p) && lt(p.0, k) by {
        if a.contains(p) {
            let i = choose|i: int| 0 <= i < a.len() && a[i] == p;
            assert(ps[i] == p);
        }
        if ps.contains(p) && lt(p.0, k) {
            let i = choose|i: int| 0 <= i < ps.len() && ps[i] == p;
            assert(a[i] == p);
        }
    }
    assert forall|p: (K, V)| #[trigger] b.contains(p) <==> ps.contains(p) && !lt(p.0, k) by {
        if b.contains(p) {
            let i = choose|i: int| 0 <= i < b.len() && b[i] == p;
            assert(ps[r + i] == p);
        }
        if ps.contains(p) && !lt(p.0, k) {
            let i = choose|i: int| 0 <= i < ps.len() && ps[i] == p;
            assert(b[i - r] == p);
        }
    }
}

/// Storing a pair leaves every pair under another key as it is, and under its own key the new value
/// alone: with the key that was there, if there was one, else with the new key.
pub proof fn law_stored<K: Key, V>(ps: Seq<(K, V)>, k: K, v: V)
    requires
        ordered::<K>(),
        forall|i: int, j: int|
            #![trigger ps[i], ps[j]]
            0 <= i < j < ps.len() ==> lt(ps[i].0, ps[j].0),
    ensures
        ({
            let qs = put(ps, k, v);
            &&& forall|i: int, j: int|
            #![trigger qs[i], qs[j]]
            0 <= i < j < qs.len() ==> lt(qs[i].0, qs[j].0)
            &&& forall|p: (K, V)|
                !same(p.0, k) ==> (#[trigger] qs.contains(p) <==> ps.contains(p))
            &&& forall|p: (K, V)| #[trigger]
                qs.contains(p) && same(p.0, k) ==> p.1 == v && (p.0 == k || exists|i: int|
                    0 <= i < ps.len() && (#[trigger] ps[i]).0 == p.0)
            &&& forall|i: int|
                0 <= i < ps.len() && same((#[trigger] ps[i]).0, k) ==> qs.contains((ps[i].0, v))
            &&& (forall|i: int| 0 <= i < ps.len() ==> !same((#[trigger] ps[i]).0, k))
                ==> qs.contains((k, v)) && qs.len() == ps.len() + 1
            &&& (exists|i: int| 0 <= i < ps.len() && same((#[trigger] ps[i]).0, k)) ==> qs.len()
                == ps.len()
        }),
{
    broadcast use group_order;

    assert(sorted(ps));
    lemma_has_key(ps, k);
    lemma_rank_splits(ps, k);
    lemma_put_sorted(ps, k, v);
    let qs = put(ps, k, v);
    let r = rank(ps, k) as int;
    let there = has_key(ps, k);
    assert forall|p: (K, V)| !same(p.0, k) implies (#[trigger] qs.contains(p) <==> ps.contains(p)) by {
        if qs.contains(p) {
            let i = choose|i: int| 0 <= i < qs.len() && qs[i] == p;
            assert(i != r);
            let j = if there || i < r { i } else { i - 1 };
            assert(ps[j] == p);
        }
        if ps.contains(p) {
            let i = choose|i: int| 0 <= i < ps.len() && ps[i] == p;
            let j = if there || i < r { i } else { i + 1 };
            assert(qs[j] == p);
        }
    }
    assert forall|p: (K, V)| #[trigger] qs.contains(p) && same(p.0, k) implies p.1 == v && (p.0 == k
        || exists|i: int| 0 <= i < ps.len() && (#[trigger] ps[i]).0 == p.0) by {
        let i = choose|i: int| 0 <= i < qs.len() && qs[i] == p;
        if i != r {
            let j = if there || i < r { i } else { i - 1 };
            assert(ps[j] == p);
            assert(same(ps[j].0, k));
        } else if there {
            assert(ps[r].0 == p.0);
        }
    }
    if there {
        assert(qs[r] == (ps[r].0, v));
    } else {
        assert(qs[r] == (k, v));
    }
}

/// Removing a key takes the pair under it away, and no other.
pub proof fn law_removed<K: Key, V>(ps: Seq<(K, V)>, k: K)
    requires
        ordered::<K>(),
        forall|i: int, j: int|
            #![trigger ps[i], ps[j]]
            0 <= i < j < ps.len() ==> lt(ps[i].0, ps[j].0),
    ensures
        ({
            let qs = del(ps, k);
            &&& forall|i: int, j: int|
            #![trigger qs[i], qs[j]]
            0 <= i < j < qs.len() ==> lt(qs[i].0, qs[j].0)
            &&& forall|p: (K, V)| #[trigger]
                qs.contains(p) <==> ps.contains(p) && !same(p.0, k)
        }),
{
    broadcast use group_order;

    assert(sorted(ps));
    lemma_has_key(ps, k);
    lemma_del_sorted(ps, k);
    let qs = del(ps, k);
    let r = rank(ps, k) as int;
    let there = has_key(ps, k);
    assert forall|p: (K, V)| #[trigger] qs.contains(p) <==> ps.contains(p) && !same(p.0, k) by {
        if qs.contains(p) {
            let i = choose|i: int| 0 <= i < qs.len() && qs[i] == p;
            let j = if !there || i < r { i } else { i + 1 };
            assert(ps[j] == p);
        }
        if ps.contains(p) && !same(p.0, k) {
            let i = choose|i: int| 0 <= i < ps.len() && ps[i] == p;
            assert(!there || i != r);
            let j = if !there || i < r { i } else { i - 1 };
            assert(qs[j] == p);
        }
    }
}

/// Storing a stream of pairs, in any order and with repeats: of the pairs under one key the last
/// gives the value. The key is the one that was there before, if there was one, else that of the
/// first of those pairs. Under keys that the stream does not have nothing changes.
pub proof fn law_filled<K: Key, V>(ps: Seq<(K, V)>, items: Seq<(K, V)>, k: K)
    requires
        ordered::<K>(),
        forall|i: int, j: int|
            #![trigger ps[i], ps[j]]
            0 <= i < j < ps.len() ==> lt(ps[i].0, ps[j].0),
    ensures
        ({
            let qs = put_all(ps, items);
            &&& forall|i: int, j: int|
            #![trigger qs[i], qs[j]]
            0 <= i < j < qs.len() ==> lt(qs[i].0, qs[j].0)
            &&& (forall|j: int| 0 <= j < items.len() ==> !same((#[trigger] items[j]).0, k))
                ==> entry(qs, k) == entry(ps, k)
            &&& forall|j: int|
                0 <= j < items.len() && same((#[trigger] items[j]).0, k) && (forall|l: int|
                    j < l < items.len() ==> !same((#[trigger] items[l]).0, k)) ==> lookup(qs, k)
                    == Some(items[j].1)
            &&& forall|i: int, j: int|
                0 <= i < ps.len() && same((#[trigger] ps[i]).0, k) && 0 <= j < items.len() && same(
                    (#[trigger] items[j]).0,
                    k,
                ) ==> (entry(qs, k) matches Some(p) && p.0 == ps[i].0)
            &&& forall|j: int|
                (forall|i: int| 0 <= i < ps.len() ==> !same((#[trigger] ps[i]).0, k)) && 0 <= j
                    < items.len() && same((#[trigger] items[j]).0, k) && (forall|l: int|
                    0 <= l < j ==> !same((#[trigger] items[l]).0, k)) ==> (entry(qs, k) matches Some(
                    p,
                ) && p.0 == items[j].0)
        }),
    decreases items.len(),
{
    assert(sorted(ps));
    law_found(ps, k);
    if items.len() > 0 {
        let front = items.drop_last();
        let (a, v) = items.last();
        let n = items.len() - 1;
        let mid = put_all(ps, front);
        let qs = put_all(ps, items);
        law_filled(ps, front, k);
        assert(sorted(mid));
        assert(qs == put(mid, a, v));
        law_stored(mid, a, v);
        assert(sorted(qs));
        law_insert_get(mid, a, v, k);
        assert(items[n] == (a, v));
        assert(forall|j: int| 0 <= j < n ==> front[j] == #[trigger] items[j]);
        lemma_latest(mid, a, v, k);
        assert forall|j: int|
            0 <= j < items.len() && same((#[trigger] items[j]).0, k) && (forall|l: int|
                j < l < items.len() ==> !same((#[trigger] items[l]).0, k)) implies lookup(qs, k)
            == Some(items[j].1) by {
            if j < n {
                assert(!same(items[n].0, k));
                assert(front[j] == items[j]);
                assert forall|l: int| j < l < front.len() implies !same((#[trigger] front[l]).0, k) by {
                    assert(front[l] == items[l]);
                }
            }
        }
        assert forall|i: int, j: int|
            0 <= i < ps.len() && same((#[trigger] ps[i]).0, k) && 0 <= j < items.len() && same(
                (#[trigger] items[j]).0,
                k,
            ) implies (entry(qs, k) matches Some(p) && p.0 == ps[i].0) by {
            lemma_kept(ps, front, k);
            if same(a, k) {
                assert(entry(mid, k) matches Some(p) && p.0 == ps[i].0);
            } else {
                assert(j < n);
                assert(front[j] == items[j]);
            }
        }
        assert forall|j: int|
            (forall|i: int| 0 <= i < ps.len() ==> !same((#[trigger] ps[i]).0, k)) && 0 <= j
                < items.len() && same((#[trigger] items[j]).0, k) && (forall|l: int|
                0 <= l < j ==> !same((#[trigger] items[l]).0, k)) implies (entry(qs, k) matches Some(
            p,
        ) && p.0 == items[j].0) by {
            if j < n {
                assert(front[j] == items[j]);
                assert forall|l: int| 0 <= l < j implies !same((#[trigger] front[l]).0, k) by {
                    assert(front[l] == items[l]);
                }
                assert(entry(mid, k) matches Some(p) && p.0 == items[j].0);
            } else {
                assert forall|l: int| 0 <= l < front.len() implies !same((#[trigger] front[l]).0, k) by {
                    assert(front[l] == items[l]);
                }
                assert(entry(mid, k) == entry(ps, k));
                lemma_fresh(mid, a, v, k);
            }
        }
    }
}

/// What is under `k` when a pair has been stored: the pair's value, where its key equals `k`, with
/// the key that was there.
proof fn lemma_latest<K: Key, V>(ps: Seq<(K, V)>, a: K, v: V, k: K)
    requires
        ordered::<K>(),
        sorted(ps),
    ensures
        !same(a, k) ==> entry(put(ps, a, v), k) == entry(ps, k),
        same(a, k) ==> lookup(put(ps, a, v), k) == Some(v),
        entry(ps, k) matches Some(p) ==> (entry(put(ps, a, v), k) matches Some(q) && q.0 == p.0),
{
    broadcast use group_order;

    let qs = put(ps, a, v);
    law_stored(ps, a, v);
    law_found(ps, k);
    law_found(ps, a);
    law_found(qs, k);
    lemma_has_key(ps, k);
    lemma_has_key(qs, k);
    if same(a, k) {
        lemma_has_key(ps, a);
        let key = if has_key(ps, a) {
            ps[rank(ps, a) as int].0
        } else {
            a
        };
        assert(qs.contains((key, v)));
        let i = choose|i: int| 0 <= i < qs.len() && qs[i] == (key, v);
        assert(same(qs[i].0, k));
        if has_key(ps, k) {
            let j = rank(ps, k) as int;
            assert(same(ps[j].0, a));
            assert(ps[j].0 == key);
        }
    } else {
        if has_key(ps, k) {
            let i = rank(ps, k) as int;
            assert(ps.contains(ps[i]));
            assert(!same(ps[i].0, a));
            assert(qs.contains(ps[i]));
            let j = choose|j: int| 0 <= j < qs.len() && qs[j] == ps[i];
            assert(same(qs[j].0, k));
        } else if has_key(qs, k) {
            let j = rank(qs, k) as int;
            assert(qs.contains(qs[j]));
            assert(!same(qs[j].0, a));
            assert(ps.contains(qs[j]));
            let i = choose|i: int| 0 <= i < ps.len() && ps[i] == qs[j];
            assert(same(ps[i].0, k));
        }
    }
}

/// A pair that is stored under a new key keeps its key.
proof fn lemma_fresh<K: Key, V>(ps: Seq<(K, V)>, a: K, v: V, k: K)
    requires
        ordered::<K>(),
        sorted(ps),
        entry(ps, k) is None,
        same(a, k),
    ensures
        entry(put(ps, a, v), k) == Some((a, v)),
{
    broadcast use group_order;

    let qs = put(ps, a, v);
    law_stored(ps, a, v);
    lemma_has_key(ps, k);
    assert forall|i: int| 0 <= i < ps.len() implies !same((#[trigger] ps[i]).0, a) by {
        if same(ps[i].0, a) {
            assert(same(ps[i].0, k));
        }
    }
    assert(qs.contains((a, v)));
    let i = choose|i: int| 0 <= i < qs.len() && qs[i] == (a, v);
    law_found(qs, k);
    assert(same(qs[i].0, k));
}

/// A key that was there stays.
proof fn lemma_kept<K: Key, V>(ps: Seq<(K, V)>, items: Seq<(K, V)>, k: K)
    requires
        ordered::<K>(),
        sorted(ps),
    ensures
        sorted(put_all(ps, items)),
        entry(ps, k) matches Some(p) ==> (entry(put_all(ps, items), k) matches Some(q) && q.0
            == p.0),
    decreases items.len(),
{
    if items.len() > 0 {
        let (a, v) = items.last();
        lemma_kept(ps, items.drop_last(), k);
        lemma_latest(put_all(ps, items.drop_last()), a, v, k);
        lemma_put_sorted(put_all(ps, items.drop_last()), a, v);
    }
}

/// A range holds exactly the pairs whose keys lie between its bounds, in the order of their keys: an
/// included bound lies in the range, an excluded one does not.
pub proof fn law_between<K: Key, V>(ps: Seq<(K, V)>, start: Bound<K>, end: Bound<K>)
    requires
        ordered::<K>(),
        forall|i: int, j: int|
            #![trigger ps[i], ps[j]]
            0 <= i < j < ps.len() ==> lt(ps[i].0, ps[j].0),
    ensures
        ({
            let qs = window(ps, start, end);
            &&& forall|i: int, j: int|
            #![trigger qs[i], qs[j]]
            0 <= i < j < qs.len() ==> lt(qs[i].0, qs[j].0)
            &&& forall|p: (K, V)| #[trigger]
                qs.contains(p) <==> {
                    &&& ps.contains(p)
                    &&& match start {
                        Bound::Included(b) => lt(b, p.0) || same(b, p.0),
                        Bound::Excluded(b) => lt(b, p.0),
                        Bound::Unbounded => true,
                    }
                    &&& match end {
                        Bound::Included(b) => lt(p.0, b) || same(p.0, b),
                        Bound::Excluded(b) => lt(p.0, b),
                        Bound::Unbounded => true,
                    }
                }
        }),
{
    broadcast use group_order;

    assert(sorted(ps));
    law_range(ps, start, end);
    let qs = window(ps, start, end);
    let (a, b) = choose|a: int, b: int|
        0 <= a <= b <= ps.len() && #[trigger] ps.subrange(a, b) == window(ps, start, end) && (
        forall|i: int|
            0 <= i < ps.len() ==> ((after_start(start, #[trigger] ps[i].0) && before_end(
                end,
                ps[i].0,
            )) <==> a <= i < b));
    assert forall|i: int, j: int|
        #![trigger qs[i], qs[j]]
        0 <= i < j < qs.len() implies lt(qs[i].0, qs[j].0) by {
        assert(qs[i] == ps[a + i] && qs[j] == ps[a + j]);
    }
    assert forall|p: (K, V)| #[trigger] qs.contains(p) <==> ps.contains(p) && after_start(start, p.0)
        && before_end(end, p.0) by {
        if qs.contains(p) {
            let i = choose|i: int| 0 <= i < qs.len() && qs[i] == p;
            assert(ps[a + i] == p);
        }
        if ps.contains(p) && after_start(start, p.0) && before_end(end, p.0) {
            let i = choose|i: int| 0 <= i < ps.len() && ps[i] == p;
            assert(qs[i - a] == p);
        }
    }
}

/// What a walk by reference yields is the run, pair by pair.
pub proof fn law_by_reference<'a, K, V>(ps: Seq<(K, V)>)
    ensures
        refs::<'a, K, V>(ps).len() == ps.len(),
        forall|i: int|
            0 <= i < ps.len() ==> *(#[trigger] refs::<'a, K, V>(ps)[i]).0 == ps[i].0 && *refs::<
                'a,
                K,
                V,
            >(ps)[i].1 == ps[i].1,
{
}

} // verus!
