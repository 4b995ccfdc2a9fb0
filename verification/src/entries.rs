//! Sorted runs of key/value pairs: the mathematical contents of leaves, trees and sets.
//!
//! A map is modelled by the sequence of its pairs in ascending key order. The operations on
//! maps are defined here on such sequences, together with the lemmas that relate an operation on
//! a whole run to the same operation on a part of it.
use crate::key::{group_order, lt, ordered, same, Key};
use vstd::prelude::*;

verus! {

/// The keys of `ps` ascend strictly.
pub open spec fn sorted<K: Key, V>(ps: Seq<(K, V)>) -> bool {
    forall|i: int, j: int|
        #![trigger ps[i], ps[j]]
        0 <= i < j < ps.len() ==> lt(ps[i].0, ps[j].0)
}

/// Every key of `ps` sorts before `k`.
pub open spec fn all_below<K: Key, V>(ps: Seq<(K, V)>, k: K) -> bool {
    forall|i: int| 0 <= i < ps.len() ==> lt(#[trigger] ps[i].0, k)
}

/// Every key of `ps` sorts after `k`.
pub open spec fn all_above<K: Key, V>(ps: Seq<(K, V)>, k: K) -> bool {
    forall|i: int| 0 <= i < ps.len() ==> lt(k, #[trigger] ps[i].0)
}

/// The number of keys of `ps` that sort before `k`: in a sorted run, the slot where `k` is or
/// where it would be inserted.
pub open spec fn rank<K: Key, V>(ps: Seq<(K, V)>, k: K) -> nat
    decreases ps.len(),
{
    if ps.len() == 0 {
        0
    } else if lt(ps.last().0, k) {
        rank(ps.drop_last(), k) + 1
    } else {
        rank(ps.drop_last(), k)
    }
}

/// The sorted run `ps` holds a key equal to `k`.
pub open spec fn has_key<K: Key, V>(ps: Seq<(K, V)>, k: K) -> bool {
    rank(ps, k) < ps.len() && same(ps[rank(ps, k) as int].0, k)
}

/// The value stored under `k`.
pub open spec fn lookup<K: Key, V>(ps: Seq<(K, V)>, k: K) -> Option<V> {
    if has_key(ps, k) {
        Some(ps[rank(ps, k) as int].1)
    } else {
        None
    }
}

/// The stored pair whose key equals `k`.
pub open spec fn entry<K: Key, V>(ps: Seq<(K, V)>, k: K) -> Option<(K, V)> {
    if has_key(ps, k) {
        Some(ps[rank(ps, k) as int])
    } else {
        None
    }
}

/// `ps` with `v` stored under `k`. A key that is present stays as it is and takes the new value.
pub open spec fn put<K: Key, V>(ps: Seq<(K, V)>, k: K, v: V) -> Seq<(K, V)> {
    let at = rank(ps, k) as int;
    if has_key(ps, k) {
        ps.update(at, (ps[at].0, v))
    } else {
        ps.insert(at, (k, v))
    }
}

/// `ps` without the pair stored under `k`.
pub open spec fn del<K: Key, V>(ps: Seq<(K, V)>, k: K) -> Seq<(K, V)> {
    if has_key(ps, k) {
        ps.remove(rank(ps, k) as int)
    } else {
        ps
    }
}

/// Where the keys below `k` end, there `k` ranks.
pub proof fn lemma_rank_at<K: Key, V>(ps: Seq<(K, V)>, k: K, at: int)
    requires
        0 <= at <= ps.len(),
        forall|i: int| 0 <= i < at ==> lt(#[trigger] ps[i].0, k),
        forall|i: int| at <= i < ps.len() ==> !lt(#[trigger] ps[i].0, k),
    ensures
        rank(ps, k) == at,
    decreases ps.len(),
{
    if ps.len() > 0 {
        let front = ps.drop_last();
        assert(forall|i: int| 0 <= i < front.len() ==> front[i] == ps[i]);
        if at == ps.len() {
            lemma_rank_at(front, k, at - 1);
        } else {
            lemma_rank_at(front, k, at);
        }
    }
}

/// A rank never exceeds the length.
pub proof fn lemma_rank_bound<K: Key, V>(ps: Seq<(K, V)>, k: K)
    ensures
        rank(ps, k) <= ps.len(),
    decreases ps.len(),
{
    if ps.len() > 0 {
        lemma_rank_bound(ps.drop_last(), k);
    }
}

/// In a sorted run the keys below `k` are exactly those before its rank.
pub proof fn lemma_rank_splits<K: Key, V>(ps: Seq<(K, V)>, k: K)
    requires
        ordered::<K>(),
        sorted(ps),
    ensures
        rank(ps, k) <= ps.len(),
        forall|i: int| 0 <= i < rank(ps, k) ==> lt(#[trigger] ps[i].0, k),
        forall|i: int| rank(ps, k) <= i < ps.len() ==> !lt(#[trigger] ps[i].0, k),
    decreases ps.len(),
{
    broadcast use group_order;

    if ps.len() > 0 {
        let front = ps.drop_last();
        assert(forall|i: int| 0 <= i < front.len() ==> front[i] == ps[i]);
        lemma_rank_splits(front, k);
        let r = rank(front, k) as int;
        if lt(ps.last().0, k) {
            if r < front.len() {
                assert(!lt(front[r].0, k));
                assert(lt(ps[r].0, ps.last().0));
            }
        }
    }
}

/// `has_key` says that some pair has a key equal to `k`.
pub proof fn lemma_has_key<K: Key, V>(ps: Seq<(K, V)>, k: K)
    requires
        ordered::<K>(),
        sorted(ps),
    ensures
        has_key(ps, k) <==> exists|i: int| 0 <= i < ps.len() && same(#[trigger] ps[i].0, k),
        forall|i: int|
            0 <= i < ps.len() && same(#[trigger] ps[i].0, k) ==> i == rank(ps, k) && has_key(ps, k),
{
    broadcast use group_order;

    lemma_rank_splits(ps, k);
    let r = rank(ps, k) as int;
    assert forall|i: int| 0 <= i < ps.len() && same(#[trigger] ps[i].0, k) implies i == r && has_key(
        ps,
        k,
    ) by {
        if i > r {
            assert(lt(ps[r].0, ps[i].0));
            assert(!lt(ps[r].0, k));
        }
    }
    if has_key(ps, k) {
        assert(same(ps[r].0, k));
    }
}

/// A run that lies between keys below `k` and keys above `k` decides everything about `k`.
pub proof fn lemma_middle<K: Key, V>(a: Seq<(K, V)>, p: Seq<(K, V)>, b: Seq<(K, V)>, k: K)
    requires
        ordered::<K>(),
        sorted(p),
        all_below(a, k),
        all_above(b, k),
    ensures
        rank(a + p + b, k) == a.len() + rank(p, k),
        rank(p, k) <= p.len(),
        has_key(a + p + b, k) == has_key(p, k),
        lookup(a + p + b, k) == lookup(p, k),
        entry(a + p + b, k) == entry(p, k),
        forall|v: V| #[trigger] put(a + p + b, k, v) =~= a + put(p, k, v) + b,
        del(a + p + b, k) =~= a + del(p, k) + b,
{
    broadcast use group_order;

    lemma_rank_splits(p, k);
    let ps = a + p + b;
    let r = rank(p, k) as int;
    let at = a.len() + r;
    assert forall|i: int| 0 <= i < at implies lt(#[trigger] ps[i].0, k) by {
        if i < a.len() {
            assert(ps[i] == a[i]);
        } else {
            assert(ps[i] == p[i - a.len()]);
        }
    }
    assert forall|i: int| at <= i < ps.len() implies !lt(#[trigger] ps[i].0, k) by {
        if i < a.len() + p.len() {
            assert(ps[i] == p[i - a.len()]);
        } else {
            assert(ps[i] == b[i - a.len() - p.len()]);
        }
    }
    lemma_rank_at(ps, k, at);
    if r < p.len() {
        assert(ps[at] == p[r]);
    } else if b.len() > 0 {
        assert(ps[at] == b[0]);
    }
    assert forall|v: V| #[trigger] put(ps, k, v) =~= a + put(p, k, v) + b by {
        assert(put(ps, k, v) =~= a + put(p, k, v) + b);
    }
    assert(del(ps, k) =~= a + del(p, k) + b);
}

/// Storing a pair keeps a run sorted.
pub proof fn lemma_put_sorted<K: Key, V>(ps: Seq<(K, V)>, k: K, v: V)
    requires
        ordered::<K>(),
        sorted(ps),
    ensures
        sorted(put(ps, k, v)),
{
    broadcast use group_order;

    lemma_rank_splits(ps, k);
    let r = rank(ps, k) as int;
    let qs = put(ps, k, v);
    assert forall|i: int, j: int|
        #![trigger qs[i], qs[j]]
        0 <= i < j < qs.len() implies lt(qs[i].0, qs[j].0) by {
        if has_key(ps, k) {
            assert(qs[i].0 == ps[i].0 && qs[j].0 == ps[j].0);
        } else {
            let i0 = if i < r { i } else { i - 1 };
            let j0 = if j < r { j } else { j - 1 };
            if i != r {
                assert(qs[i] == ps[i0]);
            }
            if j != r {
                assert(qs[j] == ps[j0]);
            }
            if i == r {
                assert(!lt(ps[j0].0, k));
                if j0 > r {
                    assert(!lt(ps[r].0, k) && lt(ps[r].0, ps[j0].0));
                }
            }
        }
    }
}

/// Removing a key keeps a run sorted.
pub proof fn lemma_del_sorted<K: Key, V>(ps: Seq<(K, V)>, k: K)
    requires
        ordered::<K>(),
        sorted(ps),
    ensures
        sorted(del(ps, k)),
{
    lemma_rank_splits(ps, k);
    let r = rank(ps, k) as int;
    let qs = del(ps, k);
    if has_key(ps, k) {
        assert forall|i: int, j: int|
            #![trigger qs[i], qs[j]]
            0 <= i < j < qs.len() implies lt(qs[i].0, qs[j].0) by {
            assert(qs[i] == ps[if i < r { i } else { i + 1 }]);
            assert(qs[j] == ps[if j < r { j } else { j + 1 }]);
        }
    }
}

} // verus!
