//! What holds of the operations taken together.
//!
//! The contents of a tree are a sorted run of pairs, those of a set an ascending run of keys. The
//! laws here are stated on such runs, over the functions in which the operations' contracts are
//! written: [`put`] is what `insert` does, [`del`] what `remove` does, [`lookup`] what `get`
//! returns, and so on.
use crate::allocator::fixed::FixedView;
use crate::allocator::pool::PoolView;
use crate::allocator::Addr;
use crate::entries::{
    del, entry, has_key, lemma_del_sorted, lemma_has_key, lemma_put_sorted, lemma_rank_at,
    lemma_rank_splits, lookup, put, rank, sorted,
};
use crate::inner::{ascending, route, InnerView};
use crate::iter::{after_start, before_end, first_in, lead, lemma_first_in, window, Bound};
use crate::key::{group_order, lt, ordered, same, Key};
use crate::leaf::half;
use crate::merge::{
    both, either, lemma_both, lemma_either, lemma_only_first, lemma_only_one, only_first, only_one,
    rising,
};
use crate::owned::put_all;
use crate::set::{holds, paired, place, plain, with_all, with_key, without_key};
use crate::set_order::alike;
use vstd::prelude::*;

verus! {

/// What has been stored under a key is found there; nothing else changes.
pub proof fn law_insert_get<K: Key, V>(ps: Seq<(K, V)>, k: K, v: V, j: K)
    requires
        ordered::<K>(),
        sorted(ps),
    ensures
        sorted(put(ps, k, v)),
        lookup(put(ps, k, v), k) == Some(v),
        !same(j, k) ==> lookup(put(ps, k, v), j) == lookup(ps, j),
        put(ps, k, v).len() == ps.len() + (if has_key(ps, k) {
            0int
        } else {
            1
        }),
{
    broadcast use group_order;

    let qs = put(ps, k, v);
    let r = rank(ps, k) as int;
    lemma_rank_splits(ps, k);
    lemma_put_sorted(ps, k, v);
    lemma_has_key(qs, k);
    assert(same(qs[r].0, k));
    if !same(j, k) {
        lemma_found(ps, qs, j, |i: int| if has_key(ps, k) || i < r { i } else { i + 1 });
        if has_key(qs, j) {
            let i = rank(qs, j) as int;
            assert(i != r);
            let i0 = if has_key(ps, k) || i < r { i } else { i - 1 };
            assert(qs[i] == ps[i0]);
            lemma_has_key(ps, j);
            assert(same(ps[i0].0, j));
        }
    }
}

/// A key that is found in one run, at a place that `f` maps to a place in another run with the
/// same pair, is found in that run with the same value.
proof fn lemma_found<K: Key, V>(
    ps: Seq<(K, V)>,
    qs: Seq<(K, V)>,
    j: K,
    f: spec_fn(int) -> int,
)
    requires
        ordered::<K>(),
        sorted(ps),
        sorted(qs),
        has_key(ps, j) ==> {
            let i = rank(ps, j) as int;
            0 <= f(i) < qs.len() && qs[f(i)] == ps[i]
        },
    ensures
        has_key(ps, j) ==> has_key(qs, j) && lookup(qs, j) == lookup(ps, j),
{
    if has_key(ps, j) {
        let i = rank(ps, j) as int;
        lemma_has_key(qs, j);
        assert(same(qs[f(i)].0, j));
    }
}

/// What has been removed is not found any more; nothing else changes.
pub proof fn law_remove_get<K: Key, V>(ps: Seq<(K, V)>, k: K, j: K)
    requires
        ordered::<K>(),
        sorted(ps),
    ensures
        sorted(del(ps, k)),
        !has_key(del(ps, k), k),
        lookup(del(ps, k), k) is None,
        !same(j, k) ==> lookup(del(ps, k), j) == lookup(ps, j),
        del(ps, k).len() == ps.len() - (if has_key(ps, k) {
            1int
        } else {
            0
        }),
{
    broadcast use group_order;

    let qs = del(ps, k);
    let r = rank(ps, k) as int;
    lemma_rank_splits(ps, k);
    lemma_del_sorted(ps, k);
    lemma_has_key(qs, k);
    lemma_has_key(ps, k);
    if has_key(qs, k) {
        let i = rank(qs, k) as int;
        let i0 = if !has_key(ps, k) || i < r { i } else { i + 1 };
        assert(qs[i] == ps[i0]);
        assert(same(ps[i0].0, k));
    }
    if !same(j, k) {
        if has_key(ps, j) {
            let i = rank(ps, j) as int;
            if has_key(ps, k) {
                assert(i != r);
            }
        }
        lemma_found(ps, qs, j, |i: int| if !has_key(ps, k) || i < r { i } else { i - 1 });
        lemma_found(qs, ps, j, |i: int| if !has_key(ps, k) || i < r { i } else { i + 1 });
    }
}

/// Removing a key that was just inserted brings back what was there before.
pub proof fn law_insert_remove<K: Key, V>(ps: Seq<(K, V)>, k: K, v: V)
    requires
        ordered::<K>(),
        sorted(ps),
        !has_key(ps, k),
    ensures
        del(put(ps, k, v), k) == ps,
{
    broadcast use group_order;

    let qs = put(ps, k, v);
    let r = rank(ps, k) as int;
    lemma_rank_splits(ps, k);
    lemma_put_sorted(ps, k, v);
    lemma_has_key(qs, k);
    assert(same(qs[r].0, k));
    assert(qs.remove(r) =~= ps);
}

/// Inserting the pair that was just removed brings back what was there before.
pub proof fn law_remove_insert<K: Key, V>(ps: Seq<(K, V)>, k: K)
    requires
        ordered::<K>(),
        sorted(ps),
        has_key(ps, k),
    ensures
        entry(ps, k) matches Some((j, v)) && put(del(ps, k), j, v) == ps,
{
    broadcast use group_order;

    let qs = del(ps, k);
    let r = rank(ps, k) as int;
    let (j, v) = ps[r];
    lemma_rank_splits(ps, k);
    lemma_del_sorted(ps, k);
    assert forall|i: int| 0 <= i < r implies lt(#[trigger] qs[i].0, j) by {
        assert(qs[i] == ps[i]);
        assert(lt(ps[i].0, ps[r].0));
    }
    assert forall|i: int| r <= i < qs.len() implies lt(j, #[trigger] qs[i].0) by {
        assert(qs[i] == ps[i + 1]);
        assert(lt(ps[r].0, ps[i + 1].0));
    }
    lemma_rank_at(qs, j, r);
    assert(put(qs, j, v) =~= ps);
}

/// The last insert under a key wins; the key itself stays the one that came first.
pub proof fn law_insert_twice<K: Key, V>(ps: Seq<(K, V)>, k: K, v: V, l: K, w: V)
    requires
        ordered::<K>(),
        sorted(ps),
        same(k, l),
    ensures
        put(put(ps, k, v), l, w) == put(ps, k, w),
{
    broadcast use group_order;

    let qs = put(ps, k, v);
    let r = rank(ps, k) as int;
    lemma_rank_splits(ps, k);
    lemma_put_sorted(ps, k, v);
    lemma_has_key(qs, l);
    assert(same(qs[r].0, k));
    assert(same(qs[r].0, l));
    assert(put(qs, l, w) =~= put(ps, k, w));
}

/// Two runs in which every key finds the same pair are the same run.
pub proof fn law_contents<K: Key, V>(ps: Seq<(K, V)>, qs: Seq<(K, V)>)
    requires
        ordered::<K>(),
        sorted(ps),
        sorted(qs),
        forall|k: K| #[trigger] entry(ps, k) == entry(qs, k),
    ensures
        ps == qs,
    decreases ps.len(),
{
    broadcast use group_order;

    if ps.len() > 0 {
        let l = ps.len() - 1;
        lemma_at(ps, l);
        assert(entry(ps, ps[l].0) == entry(qs, ps[l].0));
        assert(qs.len() > 0);
        let m = qs.len() - 1;
        lemma_at(qs, m);
        assert(entry(qs, qs[m].0) == entry(ps, qs[m].0));
        let i = rank(qs, ps[l].0) as int;
        let j = rank(ps, qs[m].0) as int;
        assert(qs[i] == ps[l] && ps[j] == qs[m]);
        assert(i == m) by {
            if i < m {
                assert(lt(qs[i].0, qs[m].0));
                if j < l {
                    assert(lt(ps[j].0, ps[l].0));
                }
            }
        }
        let a = ps.drop_last();
        let b = qs.drop_last();
        assert forall|x: int, y: int|
            #![trigger a[x], a[y]]
            0 <= x < y < a.len() implies lt(a[x].0, a[y].0) by {
            assert(ps[x] == a[x] && ps[y] == a[y]);
        }
        assert forall|x: int, y: int|
            #![trigger b[x], b[y]]
            0 <= x < y < b.len() implies lt(b[x].0, b[y].0) by {
            assert(qs[x] == b[x] && qs[y] == b[y]);
        }
        assert forall|k: K| #[trigger] entry(a, k) == entry(b, k) by {
            lemma_front(ps, k);
            lemma_front(qs, k);
            assert(entry(ps, k) == entry(qs, k));
        }
        law_contents(a, b);
        assert(ps =~= a.push(ps[l]));
        assert(qs =~= b.push(qs[m]));
    } else if qs.len() > 0 {
        lemma_at(qs, 0);
        assert(entry(qs, qs[0].0) == entry(ps, qs[0].0));
    }
}

/// A stored key is found at its own place.
proof fn lemma_at<K: Key, V>(ps: Seq<(K, V)>, i: int)
    requires
        ordered::<K>(),
        sorted(ps),
        0 <= i < ps.len(),
    ensures
        has_key(ps, ps[i].0),
        rank(ps, ps[i].0) == i,
{
    broadcast use group_order;

    lemma_has_key(ps, ps[i].0);
    assert(same(ps[i].0, ps[i].0));
}

/// What is found in a run without its last pair.
proof fn lemma_front<K: Key, V>(ps: Seq<(K, V)>, k: K)
    requires
        ordered::<K>(),
        sorted(ps),
        ps.len() > 0,
    ensures
        entry(ps.drop_last(), k) == (if same(ps.last().0, k) {
            None
        } else {
            entry(ps, k)
        }),
{
    broadcast use group_order;

    let a = ps.drop_last();
    assert forall|x: int, y: int|
        #![trigger a[x], a[y]]
        0 <= x < y < a.len() implies lt(a[x].0, a[y].0) by {
        assert(ps[x] == a[x] && ps[y] == a[y]);
    }
    lemma_has_key(ps, k);
    lemma_has_key(a, k);
    let l = ps.len() - 1;
    if has_key(a, k) {
        let i = rank(a, k) as int;
        assert(ps[i] == a[i]);
        assert(same(ps[i].0, k));
    }
    if has_key(ps, k) {
        let i = rank(ps, k) as int;
        if i < l {
            assert(a[i] == ps[i]);
            assert(same(a[i].0, k));
        }
    }
    if same(ps[l].0, k) {
        assert(rank(ps, k) == l);
    }
}

/// A range holds exactly the pairs whose keys lie between its bounds, and in their order: it is a
/// stretch of the run, and what is before or behind it lies outside the bounds.
pub proof fn law_range<K: Key, V>(ps: Seq<(K, V)>, start: Bound<K>, end: Bound<K>)
    requires
        ordered::<K>(),
        sorted(ps),
    ensures
        exists|a: int, b: int|
            0 <= a <= b <= ps.len() && #[trigger] ps.subrange(a, b) == window(ps, start, end) && (
            forall|i: int|
                0 <= i < ps.len() ==> ((after_start(start, #[trigger] ps[i].0) && before_end(
                    end,
                    ps[i].0,
                )) <==> a <= i < b)),
{
    broadcast use group_order;

    let f = first_in(ps, start) as int;
    lemma_first_in(ps, start);
    let tail = ps.skip(f);
    assert forall|x: int, y: int|
        #![trigger tail[x], tail[y]]
        0 <= x < y < tail.len() implies lt(tail[x].0, tail[y].0) by {
        assert(tail[x] == ps[f + x] && tail[y] == ps[f + y]);
    }
    lemma_lead(tail, end);
    let g = f + lead(tail, end);
    assert(ps.subrange(f, g) =~= window(ps, start, end));
    assert forall|i: int| 0 <= i < ps.len() implies ((after_start(start, #[trigger] ps[i].0)
        && before_end(end, ps[i].0)) <==> f <= i < g) by {
        if f <= i {
            assert(tail[i - f] == ps[i]);
        }
    }
}

/// One step of a walk over a range that writes `w(k)` for every key `k`: the pair in place `at`,
/// which does not lie behind the end bound, takes its new value.
pub open spec fn written<K: Key, V>(
    ps: Seq<(K, V)>,
    at: int,
    end: Bound<K>,
    w: spec_fn(K) -> V,
    qs: Seq<(K, V)>,
) -> bool {
    &&& 0 <= at < ps.len()
    &&& before_end(end, ps[at].0)
    &&& qs == ps.update(at, (ps[at].0, w(ps[at].0)))
}

/// The run with `w(k)` as the value of every key `k` between the bounds.
pub open spec fn rewritten<K: Key, V>(
    ps: Seq<(K, V)>,
    start: Bound<K>,
    end: Bound<K>,
    w: spec_fn(K) -> V,
) -> Seq<(K, V)> {
    Seq::new(
        ps.len(),
        |i: int|
            if after_start(start, ps[i].0) && before_end(end, ps[i].0) {
                (ps[i].0, w(ps[i].0))
            } else {
                ps[i]
            },
    )
}

/// A walk over a range to its end, which writes `w(k)` for every key `k` that it yields, yields the
/// keys of the range in their order and gives exactly these their new values. `runs` are the
/// contents of the tree before each step and at the end.
pub proof fn law_range_mut<K: Key, V>(
    ps: Seq<(K, V)>,
    start: Bound<K>,
    end: Bound<K>,
    w: spec_fn(K) -> V,
    runs: Seq<Seq<(K, V)>>,
)
    requires
        ordered::<K>(),
        sorted(ps),
        runs.len() > 0,
        runs[0] == ps,
        forall|i: int|
            #![trigger runs[i]]
            0 <= i < runs.len() - 1 ==> written(
                runs[i],
                first_in(ps, start) + i,
                end,
                w,
                runs[i + 1],
            ),
        ({
            let at = first_in(ps, start) + runs.len() - 1;
            at >= ps.len() || !before_end(end, runs.last()[at].0)
        }),
    ensures
        runs.len() - 1 == window(ps, start, end).len(),
        forall|i: int|
            0 <= i < runs.len() - 1 ==> (#[trigger] runs[i])[first_in(ps, start) + i] == window(
                ps,
                start,
                end,
            )[i],
        runs.last() == rewritten(ps, start, end, w),
        runs.last().len() == ps.len(),
        forall|k: K| #[trigger] has_key(runs.last(), k) == has_key(ps, k),
        forall|k: K| #[trigger]
            lookup(runs.last(), k) == (if has_key(ps, k) && after_start(start, k) && before_end(
                end,
                k,
            ) {
                Some(w(ps[rank(ps, k) as int].0))
            } else {
                lookup(ps, k)
            }),
{
    let f = first_in(ps, start) as int;
    let n = runs.len() - 1;
    lemma_first_in(ps, start);
    let tail = ps.skip(f);
    assert forall|x: int, y: int|
        #![trigger tail[x], tail[y]]
        0 <= x < y < tail.len() implies lt(tail[x].0, tail[y].0) by {
        assert(tail[x] == ps[f + x] && tail[y] == ps[f + y]);
    }
    lemma_lead(tail, end);
    lemma_runs(ps, f, end, w, runs, n);
    let qs = runs.last();
    let l = lead(tail, end) as int;
    assert(n == l) by {
        if n < l {
            assert(tail[n] == ps[f + n]);
            assert(qs[f + n] == ps[f + n]);
        }
        if n > l {
            lemma_runs(ps, f, end, w, runs, l);
            assert(tail[l] == ps[f + l]);
            assert(written(runs[l], f + l, end, w, runs[l + 1]));
        }
    }
    assert forall|i: int| 0 <= i < n implies (#[trigger] runs[i])[f + i] == window(
        ps,
        start,
        end,
    )[i] by {
        lemma_runs(ps, f, end, w, runs, i);
        assert(tail[i] == ps[f + i]);
    }
    assert forall|i: int| 0 <= i < ps.len() implies ((after_start(start, #[trigger] ps[i].0)
        && before_end(end, ps[i].0)) <==> f <= i < f + l) by {
        if f <= i {
            assert(tail[i - f] == ps[i]);
        }
    }
    assert(qs =~= rewritten(ps, start, end, w));
    lemma_rewritten(ps, start, end, w);
}

/// Writing between the bounds keeps the keys, and the values of the others.
proof fn lemma_rewritten<K: Key, V>(
    ps: Seq<(K, V)>,
    start: Bound<K>,
    end: Bound<K>,
    w: spec_fn(K) -> V,
)
    requires
        ordered::<K>(),
        sorted(ps),
    ensures
        forall|k: K| #[trigger] has_key(rewritten(ps, start, end, w), k) == has_key(ps, k),
        forall|k: K| #[trigger]
            lookup(rewritten(ps, start, end, w), k) == (if has_key(ps, k) && after_start(start, k)
                && before_end(end, k) {
                Some(w(ps[rank(ps, k) as int].0))
            } else {
                lookup(ps, k)
            }),
{
    let qs = rewritten(ps, start, end, w);
    assert forall|k: K|
        #![trigger has_key(qs, k)]
        #![trigger lookup(qs, k)]
        has_key(qs, k) == has_key(ps, k) && lookup(qs, k) == (if has_key(ps, k) && after_start(
            start,
            k,
        ) && before_end(end, k) {
            Some(w(ps[rank(ps, k) as int].0))
        } else {
            lookup(ps, k)
        }) by {
        let r = rank(ps, k) as int;
        lemma_rank_splits(ps, k);
        assert forall|i: int| 0 <= i < qs.len() implies (#[trigger] qs[i]).0 == ps[i].0 by {}
        lemma_rank_at(qs, k, r);
        if has_key(ps, k) {
            lemma_bounds_same(start, end, ps[r].0, k);
        }
    }
}

/// Equal keys lie on the same side of a bound.
proof fn lemma_bounds_same<K: Key>(start: Bound<K>, end: Bound<K>, a: K, b: K)
    requires
        ordered::<K>(),
        same(a, b),
    ensures
        after_start(start, a) <==> after_start(start, b),
        before_end(end, a) <==> before_end(end, b),
{
    broadcast use group_order;

}

/// The contents after `i` steps of such a walk.
proof fn lemma_runs<K: Key, V>(
    ps: Seq<(K, V)>,
    f: int,
    end: Bound<K>,
    w: spec_fn(K) -> V,
    runs: Seq<Seq<(K, V)>>,
    i: int,
)
    requires
        0 <= i < runs.len(),
        runs[0] == ps,
        f >= 0,
        forall|j: int|
            #![trigger runs[j]]
            0 <= j < runs.len() - 1 ==> written(runs[j], f + j, end, w, runs[j + 1]),
    ensures
        runs[i].len() == ps.len(),
        i > 0 ==> f + i <= ps.len(),
        forall|j: int|
            0 <= j < ps.len() ==> #[trigger] runs[i][j] == (if f <= j < f + i {
                (ps[j].0, w(ps[j].0))
            } else {
                ps[j]
            }),
    decreases i,
{
    if i > 0 {
        lemma_runs(ps, f, end, w, runs, i - 1);
        assert(written(runs[i - 1], f + i - 1, end, w, runs[i - 1 + 1]));
    }
}

/// The pairs that lead a sorted run up to an end bound are those before the bound.
proof fn lemma_lead<K: Key, V>(ps: Seq<(K, V)>, end: Bound<K>)
    requires
        ordered::<K>(),
        sorted(ps),
    ensures
        lead(ps, end) <= ps.len(),
        forall|i: int|
            0 <= i < ps.len() ==> (before_end(end, #[trigger] ps[i].0) <==> i < lead(ps, end)),
    decreases ps.len(),
{
    broadcast use group_order;

    if ps.len() > 0 {
        if before_end(end, ps[0].0) {
            let t = ps.drop_first();
            assert forall|x: int, y: int|
                #![trigger t[x], t[y]]
                0 <= x < y < t.len() implies lt(t[x].0, t[y].0) by {
                assert(t[x] == ps[x + 1] && t[y] == ps[y + 1]);
            }
            lemma_lead(t, end);
            assert forall|i: int| 0 <= i < ps.len() implies (before_end(
                end,
                #[trigger] ps[i].0,
            ) <==> i < lead(ps, end)) by {
                if i > 0 {
                    assert(t[i - 1] == ps[i]);
                }
            }
        } else {
            assert forall|i: int| 0 <= i < ps.len() implies !before_end(
                end,
                #[trigger] ps[i].0,
            ) by {
                if i > 0 {
                    assert(lt(ps[0].0, ps[i].0));
                }
            }
        }
    }
}

/// Appending a run that sorts behind everything present puts it at the end. So a run that was
/// split off and is appended again restores what there was.
pub proof fn law_split_append<K: Key, V>(ps: Seq<(K, V)>, at: int)
    requires
        ordered::<K>(),
        sorted(ps),
        0 <= at <= ps.len(),
    ensures
        put_all(ps.take(at), ps.skip(at)) == ps,
    decreases ps.len(),
{
    broadcast use group_order;

    let tail = ps.skip(at);
    if at < ps.len() {
        let l = ps.len() - 1;
        let front = ps.drop_last();
        assert forall|x: int, y: int|
            #![trigger front[x], front[y]]
            0 <= x < y < front.len() implies lt(front[x].0, front[y].0) by {
            assert(ps[x] == front[x] && ps[y] == front[y]);
        }
        law_split_append(front, at);
        assert(front.take(at) =~= ps.take(at));
        assert(front.skip(at) =~= tail.drop_last());
        assert(tail.last() == ps[l]);
        assert forall|i: int| 0 <= i < l implies lt(#[trigger] front[i].0, ps[l].0) by {
            assert(front[i] == ps[i]);
        }
        lemma_rank_at(front, ps[l].0, l);
        assert(put(front, ps[l].0, ps[l].1) =~= ps);
    } else {
        assert(ps.take(at) =~= ps);
        assert(tail.len() == 0);
    }
}

/// What is appended wins over what was there, and everything else stays.
pub proof fn law_append_get<K: Key, V>(ps: Seq<(K, V)>, qs: Seq<(K, V)>, k: K)
    requires
        ordered::<K>(),
        sorted(ps),
        sorted(qs),
    ensures
        sorted(put_all(ps, qs)),
        lookup(put_all(ps, qs), k) == (if has_key(qs, k) {
            lookup(qs, k)
        } else {
            lookup(ps, k)
        }),
    decreases qs.len(),
{
    broadcast use group_order;

    if qs.len() > 0 {
        let front = qs.drop_last();
        let (j, v) = qs.last();
        assert forall|x: int, y: int|
            #![trigger front[x], front[y]]
            0 <= x < y < front.len() implies lt(front[x].0, front[y].0) by {
            assert(qs[x] == front[x] && qs[y] == front[y]);
        }
        law_append_get(ps, front, k);
        law_insert_get(put_all(ps, front), j, v, k);
        lemma_front(qs, k);
        lemma_has_key(front, k);
        lemma_has_key(qs, k);
        if same(k, j) {
            law_insert_twice(put_all(ps, front), j, v, k, v);
            law_insert_get(put_all(ps, front), j, v, k);
            law_insert_get(put(put_all(ps, front), j, v), k, v, k);
            lemma_at(qs, qs.len() - 1);
            assert(same(qs[qs.len() - 1].0, k));
        }
    } else {
        lemma_has_key(qs, k);
    }
}

/// The occupancy bounds agree with one another, for every fanout from 3 on: both halves of a
/// split reach the minimum and stay below the fanout; a node one short of the minimum and a
/// sibling at the minimum fit into one node; and a node at the minimum is neither full nor down to
/// its last entry.
pub proof fn law_occupancy(m: usize)
    requires
        m >= 3,
    ensures
        half(m) <= m + 1 - half(m) <= m,
        half(m) < m,
        (half(m) - 1) + half(m) <= m,
        half(m) >= 2,
        m <= 2 * half(m) <= m + 1,
{
}

/// Splitting a leaf and merging its halves undo each other.
pub proof fn law_leaf_split<T>(all: Seq<T>, n: int)
    requires
        0 <= n <= all.len(),
    ensures
        all.take(n) + all.skip(n) == all,
{
    assert(all.take(n) + all.skip(n) =~= all);
}

/// Splitting an inner node and merging its halves undo each other: the separator that the split
/// promotes is the one that the merge demotes.
pub proof fn law_inner_split<K: Key>(all: InnerView<K>, n: int)
    requires
        all.separated(),
        1 <= n < all.kids.len(),
    ensures
        all.take(n).separated(),
        all.skip(n).separated(),
        all.take(n).join(all.keys[n - 1], all.skip(n)) == all,
{
    let l = all.take(n);
    let r = all.skip(n);
    assert(l.join(all.keys[n - 1], r) =~= all);
    assert(ascending(l.keys)) by {
        assert forall|i: int, j: int| 0 <= i < j < l.keys.len() implies lt(
            #[trigger] l.keys[i],
            #[trigger] l.keys[j],
        ) by {
            assert(l.keys[i] == all.keys[i] && l.keys[j] == all.keys[j]);
        }
    }
    assert(ascending(r.keys)) by {
        assert forall|i: int, j: int| 0 <= i < j < r.keys.len() implies lt(
            #[trigger] r.keys[i],
            #[trigger] r.keys[j],
        ) by {
            assert(r.keys[i] == all.keys[n + i] && r.keys[j] == all.keys[n + j]);
        }
    }
}

/// The separator that a leaf split yields, the first key of the right half, tells the halves
/// apart: a key is routed to the half that would hold it.
pub proof fn law_separator<K: Key, V>(all: Seq<(K, V)>, n: int, k: K)
    requires
        ordered::<K>(),
        sorted(all),
        0 < n < all.len(),
    ensures
        has_key(all, k) && route(seq![all[n].0], k) == 0 ==> has_key(all.take(n), k),
        has_key(all, k) && route(seq![all[n].0], k) == 1 ==> has_key(all.skip(n), k),
        route(seq![all[n].0], k) <= 1,
{
    broadcast use group_order;

    let sep = all[n].0;
    let keys = seq![sep];
    assert(keys.drop_last() =~= Seq::<K>::empty());
    assert(route(keys.drop_last(), k) == 0);
    let l = all.take(n);
    let r = all.skip(n);
    assert forall|x: int, y: int|
        #![trigger l[x], l[y]]
        0 <= x < y < l.len() implies lt(l[x].0, l[y].0) by {
        assert(l[x] == all[x] && l[y] == all[y]);
    }
    assert forall|x: int, y: int|
        #![trigger r[x], r[y]]
        0 <= x < y < r.len() implies lt(r[x].0, r[y].0) by {
        assert(r[x] == all[n + x] && r[y] == all[n + y]);
    }
    lemma_has_key(all, k);
    lemma_has_key(l, k);
    lemma_has_key(r, k);
    if has_key(all, k) {
        let i = rank(all, k) as int;
        if i < n {
            assert(lt(all[i].0, all[n].0));
            assert(l[i] == all[i]);
            assert(same(l[i].0, k));
        } else {
            if i > n {
                assert(lt(all[n].0, all[i].0));
            }
            assert(r[i - n] == all[i]);
            assert(same(r[i - n].0, k));
        }
    }
}

/// Borrowing from a sibling moves one pair across and changes nothing else: the two leaves still
/// hold the same pairs in the same order.
pub proof fn law_steal<T>(left: Seq<T>, right: Seq<T>)
    requires
        left.len() > 0,
        right.len() > 0,
    ensures
        left.push(right[0]) + right.skip(1) == left + right,
        left.drop_last() + (seq![left.last()] + right) == left + right,
{
    assert(left.push(right[0]) + right.skip(1) =~= left + right);
    assert(left.drop_last() + (seq![left.last()] + right) =~= left + right);
}

/// Rotating a child across moves it with its separators and changes nothing else: joined at the
/// promoted separator, the two nodes are what they were, joined at the old one.
pub proof fn law_rotate<K: Key>(left: InnerView<K>, sep: K, right: InnerView<K>)
    requires
        left.separated(),
        right.separated(),
    ensures
        right.kids.len() >= 2 ==> (InnerView {
            keys: left.keys.push(sep),
            kids: left.kids.push(right.kids[0]),
        }).join(right.keys[0], right.skip(1)) == left.join(sep, right),
        left.kids.len() >= 2 ==> left.take(left.kids.len() - 1).join(
            left.keys.last(),
            InnerView {
                keys: seq![sep] + right.keys,
                kids: seq![left.kids.last()] + right.kids,
            },
        ) == left.join(sep, right),
{
    if right.kids.len() >= 2 {
        assert((InnerView {
            keys: left.keys.push(sep),
            kids: left.kids.push(right.kids[0]),
        }).join(right.keys[0], right.skip(1)) =~= left.join(sep, right));
    }
    if left.kids.len() >= 2 {
        assert(left.take(left.kids.len() - 1).join(
            left.keys.last(),
            InnerView {
                keys: seq![sep] + right.keys,
                kids: seq![left.kids.last()] + right.kids,
            },
        ) =~= left.join(sep, right));
    }
}

/// The slot that was retired last is the next to be handed out, and taking it again restores the
/// pool.
pub proof fn law_reuse<T>(pool: PoolView<T>, capacity: usize, a: Addr)
    requires
        pool.raw.contains(a),
        pool.used <= capacity,
    ensures
        ({
            let retired = PoolView { raw: pool.raw.remove(a), free: pool.free.push(a), ..pool };
            &&& retired.upcoming(capacity) == a
            &&& retired.taken(capacity) == pool
            &&& retired.ready(capacity) == pool.ready(capacity) + 1
        }),
{
    let retired = PoolView { raw: pool.raw.remove(a), free: pool.free.push(a), ..pool };
    assert(retired.taken(capacity) =~= pool);
}

/// As long as slots are ready a pool does not grow, and each one that is handed out is one less.
pub proof fn law_no_growth<T>(pool: PoolView<T>, capacity: usize)
    requires
        pool.used <= capacity,
        pool.ready(capacity) > 0,
    ensures
        pool.taken(capacity).slabs == pool.slabs,
        pool.taken(capacity).ready(capacity) == pool.ready(capacity) - 1,
{
}

/// A pool over fixed storage hands out the slot that was retired last, too, and has always as
/// many slots as it had: what it hands out it has one less of, what it takes back one more.
pub proof fn law_fixed_reuse<T>(pool: FixedView<T>, a: Addr)
    requires
        pool.raw.contains(a),
        pool.used <= pool.capacity,
    ensures
        ({
            let retired = FixedView { raw: pool.raw.remove(a), free: pool.free.push(a), ..pool };
            &&& retired.upcoming() == a
            &&& retired.taken() == pool
            &&& retired.room() == pool.room() + 1
        }),
        pool.room() > 0 ==> pool.taken().room() == pool.room() - 1,
        pool.taken().capacity == pool.capacity,
{
    let retired = FixedView { raw: pool.raw.remove(a), free: pool.free.push(a), ..pool };
    assert(retired.taken() =~= pool);
}

/// After an insert a set holds what it held, and the key.
pub proof fn law_set_insert<K: Key>(ks: Seq<K>, k: K, j: K)
    requires
        ordered::<K>(),
        ascending(ks),
    ensures
        ascending(with_key(ks, k)),
        holds(with_key(ks, k), j) <==> holds(ks, j) || same(j, k),
        with_key(ks, k).len() == ks.len() + (if holds(ks, k) {
            0int
        } else {
            1
        }),
        !holds(ks, k) ==> without_key(with_key(ks, k), k) == ks,
{
    broadcast use group_order;

    lemma_place(ks, k);
    let ls = with_key(ks, k);
    let p = place(ks, k) as int;
    if !holds(ks, k) {
        assert forall|x: int, y: int|
            #![trigger ls[x], ls[y]]
            0 <= x < y < ls.len() implies lt(ls[x], ls[y]) by {
            let a = if x < p { x } else { x - 1 };
            let b = if y < p { y } else { y - 1 };
            if x != p {
                assert(ls[x] == ks[a]);
            }
            if y != p {
                assert(ls[y] == ks[b]);
            }
        }
        if holds(ls, j) {
            let i = choose|i: int| 0 <= i < ls.len() && same(plain()(#[trigger] ls[i]), j);
            if i != p {
                let a = if i < p { i } else { i - 1 };
                assert(ks[a] == ls[i]);
            }
        }
        if holds(ks, j) {
            let i = choose|i: int| 0 <= i < ks.len() && same(plain()(#[trigger] ks[i]), j);
            let a = if i < p { i } else { i + 1 };
            assert(ls[a] == ks[i]);
        }
        assert(ls[p] == k);
        lemma_place(ls, k);
        assert(same(plain()(ls[p]), k));
        assert(place(ls, k) == p) by {
            let q = place(ls, k) as int;
            if q < p {
                assert(lt(ls[q], ls[p]));
            } else if p < q {
                assert(lt(ls[p], ls[q]));
            }
        }
        assert(ls.remove(p) =~= ks);
    } else {
        let i = choose|i: int| 0 <= i < ks.len() && same(plain()(#[trigger] ks[i]), k);
        if same(j, k) {
            assert(same(ks[i], j));
        }
    }
}

/// Where the keys of an ascending run lie, seen from `k`.
pub proof fn lemma_place<K: Key>(ks: Seq<K>, k: K)
    requires
        ordered::<K>(),
        ascending(ks),
    ensures
        place(ks, k) <= ks.len(),
        forall|i: int| 0 <= i < ks.len() ==> (lt(#[trigger] ks[i], k) <==> i < place(ks, k)),
        holds(ks, k) <==> place(ks, k) < ks.len() && same(ks[place(ks, k) as int], k),
{
    broadcast use group_order;

    let ps = paired(ks);
    assert forall|x: int, y: int|
        #![trigger ps[x], ps[y]]
        0 <= x < y < ps.len() implies lt(ps[x].0, ps[y].0) by {
        assert(ps[x].0 == ks[x] && ps[y].0 == ks[y]);
    }
    lemma_rank_splits(ps, k);
    let p = place(ks, k) as int;
    assert forall|i: int| 0 <= i < ks.len() implies (lt(#[trigger] ks[i], k) <==> i < p) by {
        assert(ps[i].0 == ks[i]);
    }
    if holds(ks, k) {
        let i = choose|i: int| 0 <= i < ks.len() && same(plain()(#[trigger] ks[i]), k);
        if p < i {
            assert(lt(ks[p], ks[i]));
        }
    }
    if p < ks.len() && same(ks[p], k) {
        assert(same(plain()(ks[p]), k));
    }
}

/// After a removal a set holds what it held but for the key.
pub proof fn law_set_remove<K: Key>(ks: Seq<K>, k: K, j: K)
    requires
        ordered::<K>(),
        ascending(ks),
    ensures
        ascending(without_key(ks, k)),
        holds(without_key(ks, k), j) <==> holds(ks, j) && !same(j, k),
        without_key(ks, k).len() == ks.len() - (if holds(ks, k) {
            1int
        } else {
            0
        }),
{
    broadcast use group_order;

    lemma_place(ks, k);
    let ls = without_key(ks, k);
    let p = place(ks, k) as int;
    if holds(ks, k) {
        assert forall|x: int, y: int|
            #![trigger ls[x], ls[y]]
            0 <= x < y < ls.len() implies lt(ls[x], ls[y]) by {
            let a = if x < p { x } else { x + 1 };
            let b = if y < p { y } else { y + 1 };
            assert(ls[x] == ks[a] && ls[y] == ks[b]);
        }
        if holds(ls, j) {
            let i = choose|i: int| 0 <= i < ls.len() && same(plain()(#[trigger] ls[i]), j);
            let a = if i < p { i } else { i + 1 };
            assert(ks[a] == ls[i]);
            assert(same(plain()(ks[a]), j));
            if a < p {
                assert(lt(ks[a], ks[p]));
            } else {
                assert(lt(ks[p], ks[a]));
            }
        }
        if holds(ks, j) && !same(j, k) {
            let i = choose|i: int| 0 <= i < ks.len() && same(plain()(#[trigger] ks[i]), j);
            assert(i != p);
            let a = if i < p { i } else { i - 1 };
            assert(ls[a] == ks[i]);
            assert(same(plain()(ls[a]), j));
        }
    } else if holds(ks, j) && same(j, k) {
        let i = choose|i: int| 0 <= i < ks.len() && same(plain()(#[trigger] ks[i]), j);
        assert(same(plain()(ks[i]), k));
    }
}

/// Union, intersection, difference and symmetric difference hold the keys that their names say,
/// in ascending order.
pub proof fn law_set_algebra<K: Key>(a: Seq<K>, b: Seq<K>, k: K)
    requires
        ordered::<K>(),
        ascending(a),
        ascending(b),
    ensures
        ascending(either(a, b, plain())),
        ascending(both(a, b, plain())),
        ascending(only_first(a, b, plain())),
        ascending(only_one(a, b, plain())),
        holds(either(a, b, plain()), k) <==> holds(a, k) || holds(b, k),
        holds(both(a, b, plain()), k) <==> holds(a, k) && holds(b, k),
        holds(only_first(a, b, plain()), k) <==> holds(a, k) && !holds(b, k),
        holds(only_one(a, b, plain()), k) <==> holds(a, k) != holds(b, k),
{
    lemma_rising(a);
    lemma_rising(b);
    lemma_either(a, b, plain());
    lemma_both(a, b, plain());
    lemma_only_first(a, b, plain());
    lemma_only_one(a, b, plain());
    lemma_rising(either(a, b, plain()));
    lemma_rising(both(a, b, plain()));
    lemma_rising(only_first(a, b, plain()));
    lemma_rising(only_one(a, b, plain()));
}

/// Keys rise exactly if they ascend.
proof fn lemma_rising<K: Key>(ks: Seq<K>)
    ensures
        rising(ks, plain()) <==> ascending(ks),
{
    if rising(ks, plain()) {
        assert forall|i: int, j: int| 0 <= i < j < ks.len() implies lt(
            #[trigger] ks[i],
            #[trigger] ks[j],
        ) by {
            assert(lt(plain()(ks[i]), plain()(ks[j])));
        }
    }
}

/// How many keys the merged sets hold: union and intersection together as many as the two sets,
/// difference and intersection as many as the first, the two differences as many as the symmetric
/// difference.
pub proof fn law_set_count<K: Key>(a: Seq<K>, b: Seq<K>)
    requires
        ordered::<K>(),
        ascending(a),
        ascending(b),
    ensures
        either(a, b, plain()).len() + both(a, b, plain()).len() == a.len() + b.len(),
        only_first(a, b, plain()).len() + both(a, b, plain()).len() == a.len(),
        only_first(a, b, plain()).len() + only_first(b, a, plain()).len() == only_one(
            a,
            b,
            plain(),
        ).len(),
    decreases a.len() + b.len(),
{
    broadcast use group_order;

    if a.len() > 0 && b.len() > 0 {
        let s = a.drop_first();
        let t = b.drop_first();
        assert(ascending(s)) by {
            assert forall|i: int, j: int| 0 <= i < j < s.len() implies lt(
                #[trigger] s[i],
                #[trigger] s[j],
            ) by {
                assert(s[i] == a[i + 1] && s[j] == a[j + 1]);
            }
        }
        assert(ascending(t)) by {
            assert forall|i: int, j: int| 0 <= i < j < t.len() implies lt(
                #[trigger] t[i],
                #[trigger] t[j],
            ) by {
                assert(t[i] == b[i + 1] && t[j] == b[j + 1]);
            }
        }
        law_set_count(s, t);
        law_set_count(s, b);
        law_set_count(a, t);
    }
}

/// Sets that hold the same keys are equal.
pub proof fn law_set_equal<K: Key>(a: Seq<K>, b: Seq<K>)
    requires
        ordered::<K>(),
        ascending(a),
        ascending(b),
        forall|k: K| #[trigger] holds(a, k) <==> holds(b, k),
    ensures
        alike(a, b),
    decreases a.len(),
{
    broadcast use group_order;

    if a.len() == 0 {
        if b.len() > 0 {
            assert(same(plain()(b[0]), b[0]));
            assert(holds(b, b[0]));
            assert(holds(a, b[0]));
        }
    } else {
        assert(same(plain()(a[0]), a[0]));
        assert(holds(a, a[0]));
        assert(holds(b, a[0]));
        let i = choose|i: int| 0 <= i < b.len() && same(plain()(#[trigger] b[i]), a[0]);
        assert(same(plain()(b[0]), b[0]));
        assert(holds(b, b[0]));
        assert(holds(a, b[0]));
        let j = choose|j: int| 0 <= j < a.len() && same(plain()(#[trigger] a[j]), b[0]);
        assert(same(a[0], b[0])) by {
            if i > 0 {
                assert(lt(b[0], b[i]));
            }
            if j > 0 {
                assert(lt(a[0], a[j]));
            }
        }
        let s = a.drop_first();
        let t = b.drop_first();
        lemma_drop(a);
        lemma_drop(b);
        assert forall|k: K| #[trigger] holds(s, k) <==> holds(t, k) by {
            assert(holds(a, k) <==> holds(b, k));
        }
        law_set_equal(s, t);
        assert forall|x: int| 0 <= x < a.len() implies same(#[trigger] a[x], b[x]) by {
            if x > 0 {
                assert(same(s[x - 1], t[x - 1]));
            }
        }
    }
}

/// What an ascending run holds without its first key.
proof fn lemma_drop<K: Key>(ks: Seq<K>)
    requires
        ordered::<K>(),
        ascending(ks),
        ks.len() > 0,
    ensures
        ascending(ks.drop_first()),
        forall|k: K| #[trigger] holds(ks.drop_first(), k) <==> holds(ks, k) && !same(ks[0], k),
{
    broadcast use group_order;

    let s = ks.drop_first();
    assert forall|i: int, j: int| 0 <= i < j < s.len() implies lt(
        #[trigger] s[i],
        #[trigger] s[j],
    ) by {
        assert(s[i] == ks[i + 1] && s[j] == ks[j + 1]);
    }
    assert forall|k: K| #[trigger] holds(s, k) <==> holds(ks, k) && !same(ks[0], k) by {
        if holds(s, k) {
            let i = choose|i: int| 0 <= i < s.len() && same(plain()(#[trigger] s[i]), k);
            assert(ks[i + 1] == s[i]);
            assert(same(plain()(ks[i + 1]), k));
            assert(lt(ks[0], ks[i + 1]));
        }
        if holds(ks, k) && !same(ks[0], k) {
            let i = choose|i: int| 0 <= i < ks.len() && same(plain()(#[trigger] ks[i]), k);
            assert(i > 0);
            assert(s[i - 1] == ks[i]);
            assert(same(plain()(s[i - 1]), k));
        }
    }
}

/// Appending one set to another leaves their union: the same keys as merging the two.
pub proof fn law_set_append<K: Key>(a: Seq<K>, b: Seq<K>)
    requires
        ordered::<K>(),
        ascending(a),
        ascending(b),
    ensures
        ascending(with_all(a, b)),
        forall|k: K| #[trigger] holds(with_all(a, b), k) <==> holds(a, k) || holds(b, k),
        alike(with_all(a, b), either(a, b, plain())),
{
    lemma_with_all(a, b);
    let u = either(a, b, plain());
    assert forall|k: K| #[trigger] holds(with_all(a, b), k) <==> holds(u, k) by {
        law_set_algebra(a, b, k);
    }
    lemma_rising(a);
    lemma_rising(b);
    lemma_either(a, b, plain());
    lemma_rising(u);
    law_set_equal(with_all(a, b), u);
}

/// Inserting keys one after the other, whatever their order.
proof fn lemma_with_all<K: Key>(ks: Seq<K>, more: Seq<K>)
    requires
        ordered::<K>(),
        ascending(ks),
    ensures
        ascending(with_all(ks, more)),
        forall|k: K| #[trigger] holds(with_all(ks, more), k) <==> holds(ks, k) || holds(more, k),
    decreases more.len(),
{
    broadcast use group_order;

    if more.len() > 0 {
        let front = more.drop_last();
        let last = more.last();
        lemma_with_all(ks, front);
        let mid = with_all(ks, front);
        law_set_insert(mid, last, last);
        assert forall|k: K| #[trigger] holds(with_all(ks, more), k) <==> holds(ks, k) || holds(
            more,
            k,
        ) by {
            law_set_insert(mid, last, k);
            if holds(front, k) {
                let i = choose|i: int| 0 <= i < front.len() && same(plain()(#[trigger] front[i]), k);
                assert(more[i] == front[i]);
                assert(same(plain()(more[i]), k));
            }
            if same(k, last) {
                assert(same(plain()(more[more.len() - 1]), k));
            }
            if holds(more, k) {
                let i = choose|i: int| 0 <= i < more.len() && same(plain()(#[trigger] more[i]), k);
                if i < front.len() {
                    assert(front[i] == more[i]);
                    assert(same(plain()(front[i]), k));
                }
            }
        }
    } else {
        assert forall|k: K| !#[trigger] holds(more, k) by {}
    }
}

/// Collecting keys into a set keeps every key, once, whatever order they come in.
pub proof fn law_set_collect<K: Key>(ks: Seq<K>, k: K)
    requires
        ordered::<K>(),
    ensures
        ascending(with_all(Seq::empty(), ks)),
        holds(with_all(Seq::empty(), ks), k) <==> holds(ks, k),
{
    lemma_with_all(Seq::empty(), ks);
    assert(!holds(Seq::<K>::empty(), k));
}

} // verus!
