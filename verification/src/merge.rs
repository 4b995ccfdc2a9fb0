//! Merging two runs that are sorted by key: what is in either, in both, in the first only, or in
//! one of them only.
use crate::key::{group_order, lt, ordered, same, Key};
use vstd::prelude::*;

verus! {

/// The keys of the items ascend strictly.
pub open spec fn rising<T, K: Key>(a: Seq<T>, key: spec_fn(T) -> K) -> bool {
    forall|i: int, j: int|
        #![trigger a[i], a[j]]
        0 <= i < j < a.len() ==> lt(key(a[i]), key(a[j]))
}

/// Some item has a key equal to `k`.
pub open spec fn among<T, K: Key>(a: Seq<T>, key: spec_fn(T) -> K, k: K) -> bool {
    exists|i: int| 0 <= i < a.len() && same(key(#[trigger] a[i]), k)
}

/// The items of either run in key order; of two with equal keys the one from `a`.
pub open spec fn either<T, K: Key>(a: Seq<T>, b: Seq<T>, key: spec_fn(T) -> K) -> Seq<T>
    decreases a.len() + b.len(),
{
    if a.len() == 0 {
        b
    } else if b.len() == 0 {
        a
    } else if same(key(a[0]), key(b[0])) {
        seq![a[0]] + either(a.drop_first(), b.drop_first(), key)
    } else if lt(key(a[0]), key(b[0])) {
        seq![a[0]] + either(a.drop_first(), b, key)
    } else {
        seq![b[0]] + either(a, b.drop_first(), key)
    }
}

/// The items of `a` whose keys are in `b` too.
pub open spec fn both<T, K: Key>(a: Seq<T>, b: Seq<T>, key: spec_fn(T) -> K) -> Seq<T>
    decreases a.len() + b.len(),
{
    if a.len() == 0 || b.len() == 0 {
        Seq::empty()
    } else if same(key(a[0]), key(b[0])) {
        seq![a[0]] + both(a.drop_first(), b.drop_first(), key)
    } else if lt(key(a[0]), key(b[0])) {
        both(a.drop_first(), b, key)
    } else {
        both(a, b.drop_first(), key)
    }
}

/// The items of `a` whose keys are not in `b`.
pub open spec fn only_first<T, K: Key>(a: Seq<T>, b: Seq<T>, key: spec_fn(T) -> K) -> Seq<T>
    decreases a.len() + b.len(),
{
    if a.len() == 0 || b.len() == 0 {
        a
    } else if same(key(a[0]), key(b[0])) {
        only_first(a.drop_first(), b.drop_first(), key)
    } else if lt(key(a[0]), key(b[0])) {
        seq![a[0]] + only_first(a.drop_first(), b, key)
    } else {
        only_first(a, b.drop_first(), key)
    }
}

/// The items of either run whose keys are not in the other, in key order.
pub open spec fn only_one<T, K: Key>(a: Seq<T>, b: Seq<T>, key: spec_fn(T) -> K) -> Seq<T>
    decreases a.len() + b.len(),
{
    if a.len() == 0 {
        b
    } else if b.len() == 0 {
        a
    } else if same(key(a[0]), key(b[0])) {
        only_one(a.drop_first(), b.drop_first(), key)
    } else if lt(key(a[0]), key(b[0])) {
        seq![a[0]] + only_one(a.drop_first(), b, key)
    } else {
        seq![b[0]] + only_one(a, b.drop_first(), key)
    }
}

/// What holds of a rising run and its tail.
proof fn lemma_tail<T, K: Key>(a: Seq<T>, key: spec_fn(T) -> K)
    requires
        ordered::<K>(),
        rising(a, key),
        a.len() > 0,
    ensures
        rising(a.drop_first(), key),
        forall|x: T| #[trigger] a.drop_first().contains(x) ==> a.contains(x) && lt(key(a[0]), key(x)),
        forall|x: T| #[trigger] a.contains(x) ==> x == a[0] || a.drop_first().contains(x),
        forall|k: K|
            #[trigger] among(a, key, k) <==> same(key(a[0]), k) || among(a.drop_first(), key, k),
        forall|k: K| #[trigger] among(a.drop_first(), key, k) ==> lt(key(a[0]), k),
        a.contains(a[0]),
{
    broadcast use group_order;

    let t = a.drop_first();
    assert forall|i: int, j: int|
        #![trigger t[i], t[j]]
        0 <= i < j < t.len() implies lt(key(t[i]), key(t[j])) by {
        assert(t[i] == a[i + 1] && t[j] == a[j + 1]);
    }
    assert forall|x: T| #[trigger] t.contains(x) implies a.contains(x) && lt(
        key(a[0]),
        key(x),
    ) by {
        let i = choose|i: int| 0 <= i < t.len() && t[i] == x;
        assert(a[i + 1] == x);
    }
    assert forall|x: T| #[trigger] a.contains(x) implies x == a[0] || t.contains(x) by {
        let i = choose|i: int| 0 <= i < a.len() && a[i] == x;
        if i > 0 {
            assert(t[i - 1] == x);
        }
    }
    assert forall|k: K| #[trigger] among(t, key, k) implies lt(key(a[0]), k) by {
        let i = choose|i: int| 0 <= i < t.len() && same(key(#[trigger] t[i]), k);
        assert(t[i] == a[i + 1]);
        assert(lt(key(a[0]), key(a[i + 1])));
    }
    assert forall|k: K| #[trigger] among(a, key, k) <==> same(key(a[0]), k) || among(
        t,
        key,
        k,
    ) by {
        if among(a, key, k) {
            let i = choose|i: int| 0 <= i < a.len() && same(key(#[trigger] a[i]), k);
            if i > 0 {
                assert(t[i - 1] == a[i]);
            }
        }
        if among(t, key, k) {
            let i = choose|i: int| 0 <= i < t.len() && same(key(#[trigger] t[i]), k);
            assert(a[i + 1] == t[i]);
        }
    }
}

/// Putting an item in front of a rising run.
proof fn lemma_cons<T, K: Key>(x: T, t: Seq<T>, key: spec_fn(T) -> K)
    requires
        ordered::<K>(),
        rising(t, key),
        forall|y: T| #[trigger] t.contains(y) ==> lt(key(x), key(y)),
    ensures
        rising(seq![x] + t, key),
        forall|k: K|
            #[trigger] among(seq![x] + t, key, k) <==> same(key(x), k) || among(t, key, k),
        forall|y: T| #[trigger] (seq![x] + t).contains(y) <==> y == x || t.contains(y),
{
    let a = seq![x] + t;
    assert(a[0] == x);
    assert forall|i: int, j: int|
        #![trigger a[i], a[j]]
        0 <= i < j < a.len() implies lt(key(a[i]), key(a[j])) by {
        assert(a[j] == t[j - 1]);
        assert(t.contains(a[j]));
        if i > 0 {
            assert(a[i] == t[i - 1]);
        }
    }
    assert(a.drop_first() =~= t);
    lemma_tail(a, key);
}

/// An item of a run has its own key.
proof fn lemma_self<T, K: Key>(a: Seq<T>, key: spec_fn(T) -> K)
    requires
        ordered::<K>(),
    ensures
        forall|x: T| #[trigger] a.contains(x) ==> among(a, key, key(x)),
{
    broadcast use group_order;

    assert forall|x: T| #[trigger] a.contains(x) implies among(a, key, key(x)) by {
        let i = choose|i: int| 0 <= i < a.len() && a[i] == x;
        assert(same(key(a[i]), key(x)));
    }
}

/// The merged run rises, holds exactly the keys of either run, and takes its items from `a`
/// where it can.
pub proof fn lemma_either<T, K: Key>(a: Seq<T>, b: Seq<T>, key: spec_fn(T) -> K)
    requires
        ordered::<K>(),
        rising(a, key),
        rising(b, key),
    ensures
        rising(either(a, b, key), key),
        forall|k: K|
            #[trigger] among(either(a, b, key), key, k) <==> among(a, key, k) || among(b, key, k),
        forall|x: T|
            #[trigger] either(a, b, key).contains(x) <==> a.contains(x) || (b.contains(x) && !among(
                a,
                key,
                key(x),
            )),
    decreases a.len() + b.len(),
{
    broadcast use group_order;

    lemma_self(a, key);
    lemma_self(b, key);
    if a.len() > 0 && b.len() > 0 {
        lemma_tail(a, key);
        lemma_tail(b, key);
        if same(key(a[0]), key(b[0])) {
            let t = either(a.drop_first(), b.drop_first(), key);
            lemma_either(a.drop_first(), b.drop_first(), key);
            lemma_cons(a[0], t, key);
        } else if lt(key(a[0]), key(b[0])) {
            let t = either(a.drop_first(), b, key);
            lemma_either(a.drop_first(), b, key);
            lemma_cons(a[0], t, key);
        } else {
            let t = either(a, b.drop_first(), key);
            lemma_either(a, b.drop_first(), key);
            lemma_cons(b[0], t, key);
        }
    }
}

/// The run rises and holds exactly the items of `a` whose keys are in `b` too.
pub proof fn lemma_both<T, K: Key>(a: Seq<T>, b: Seq<T>, key: spec_fn(T) -> K)
    requires
        ordered::<K>(),
        rising(a, key),
        rising(b, key),
    ensures
        rising(both(a, b, key), key),
        forall|k: K|
            #[trigger] among(both(a, b, key), key, k) <==> among(a, key, k) && among(b, key, k),
        forall|x: T|
            #[trigger] both(a, b, key).contains(x) <==> a.contains(x) && among(b, key, key(x)),
        both(a, b, key).len() <= a.len(),
        both(a, b, key).len() == a.len() <==> (forall|x: T| #[trigger]
            a.contains(x) ==> among(b, key, key(x))),
    decreases a.len() + b.len(),
{
    broadcast use group_order;

    lemma_self(a, key);
    lemma_self(b, key);
    if a.len() > 0 {
        assert(a.contains(a[0]));
    }
    if a.len() > 0 && b.len() > 0 {
        lemma_tail(a, key);
        lemma_tail(b, key);
        if same(key(a[0]), key(b[0])) {
            let t = both(a.drop_first(), b.drop_first(), key);
            lemma_both(a.drop_first(), b.drop_first(), key);
            lemma_cons(a[0], t, key);
            assert forall|k: K| #[trigger] among(both(a, b, key), key, k) <==> among(a, key, k)
                && among(b, key, k) by {}
            assert((forall|x: T| #[trigger] a.contains(x) ==> among(b, key, key(x))) <==> (forall|
                x: T,
            | #[trigger]
                a.drop_first().contains(x) ==> among(b.drop_first(), key, key(x)))) by {
                assert forall|x: T| #[trigger] a.drop_first().contains(x) implies (among(
                    b,
                    key,
                    key(x),
                ) <==> among(b.drop_first(), key, key(x))) by {}
                if forall|x: T| #[trigger] a.contains(x) ==> among(b, key, key(x)) {
                    assert forall|x: T| #[trigger] a.drop_first().contains(x) implies among(
                        b.drop_first(),
                        key,
                        key(x),
                    ) by {
                        assert(a.contains(x));
                    }
                }
            }
        } else if lt(key(a[0]), key(b[0])) {
            lemma_both(a.drop_first(), b, key);
            assert(!among(b, key, key(a[0])));
        } else {
            lemma_both(a, b.drop_first(), key);
            assert forall|x: T| #[trigger] a.contains(x) implies (among(b, key, key(x)) <==> among(
                b.drop_first(),
                key,
                key(x),
            )) by {
                assert(among(a, key, key(x)));
            }
        }
    }
}

/// The run rises and holds exactly the items of `a` whose keys are not in `b`.
pub proof fn lemma_only_first<T, K: Key>(a: Seq<T>, b: Seq<T>, key: spec_fn(T) -> K)
    requires
        ordered::<K>(),
        rising(a, key),
        rising(b, key),
    ensures
        rising(only_first(a, b, key), key),
        forall|k: K| #[trigger]
            among(only_first(a, b, key), key, k) <==> among(a, key, k) && !among(b, key, k),
        forall|x: T| #[trigger]
            only_first(a, b, key).contains(x) <==> a.contains(x) && !among(b, key, key(x)),
    decreases a.len() + b.len(),
{
    broadcast use group_order;

    lemma_self(a, key);
    lemma_self(b, key);
    if a.len() > 0 && b.len() > 0 {
        lemma_tail(a, key);
        lemma_tail(b, key);
        if same(key(a[0]), key(b[0])) {
            lemma_only_first(a.drop_first(), b.drop_first(), key);
        } else if lt(key(a[0]), key(b[0])) {
            let t = only_first(a.drop_first(), b, key);
            lemma_only_first(a.drop_first(), b, key);
            lemma_cons(a[0], t, key);
        } else {
            lemma_only_first(a, b.drop_first(), key);
        }
    }
}

/// The run rises and holds exactly the items of either run whose keys are not in the other.
pub proof fn lemma_only_one<T, K: Key>(a: Seq<T>, b: Seq<T>, key: spec_fn(T) -> K)
    requires
        ordered::<K>(),
        rising(a, key),
        rising(b, key),
    ensures
        rising(only_one(a, b, key), key),
        forall|k: K| #[trigger]
            among(only_one(a, b, key), key, k) <==> among(a, key, k) != among(b, key, k),
        forall|x: T| #[trigger]
            only_one(a, b, key).contains(x) <==> (a.contains(x) && !among(b, key, key(x))) || (
            b.contains(x) && !among(a, key, key(x))),
    decreases a.len() + b.len(),
{
    broadcast use group_order;

    lemma_self(a, key);
    lemma_self(b, key);
    if a.len() > 0 && b.len() > 0 {
        lemma_tail(a, key);
        lemma_tail(b, key);
        if same(key(a[0]), key(b[0])) {
            lemma_only_one(a.drop_first(), b.drop_first(), key);
        } else if lt(key(a[0]), key(b[0])) {
            let t = only_one(a.drop_first(), b, key);
            lemma_only_one(a.drop_first(), b, key);
            lemma_cons(a[0], t, key);
        } else {
            let t = only_one(a, b.drop_first(), key);
            lemma_only_one(a, b.drop_first(), key);
            lemma_cons(b[0], t, key);
        }
    }
}

/// Merging commutes with a map that keeps the keys.
pub proof fn lemma_map_either<T, U, K: Key>(
    a: Seq<T>,
    b: Seq<T>,
    key: spec_fn(T) -> K,
    f: spec_fn(T) -> U,
    key2: spec_fn(U) -> K,
)
    requires
        forall|x: T| key2(#[trigger] f(x)) == key(x),
    ensures
        either(a.map_values(f), b.map_values(f), key2) == either(a, b, key).map_values(f),
    decreases a.len() + b.len(),
{
    let fa = a.map_values(f);
    let fb = b.map_values(f);
    if a.len() > 0 && b.len() > 0 {
        let ta = a.drop_first();
        let tb = b.drop_first();
        assert(fa.drop_first() =~= ta.map_values(f));
        assert(fb.drop_first() =~= tb.map_values(f));
        assert(fa[0] == f(a[0]) && fb[0] == f(b[0]));
        lemma_map_either(ta, tb, key, f, key2);
        lemma_map_either(ta, b, key, f, key2);
        lemma_map_either(a, tb, key, f, key2);
    }
    assert(either(fa, fb, key2) =~= either(a, b, key).map_values(f));
}

/// Merging commutes with a map that keeps the keys.
pub proof fn lemma_map_both<T, U, K: Key>(
    a: Seq<T>,
    b: Seq<T>,
    key: spec_fn(T) -> K,
    f: spec_fn(T) -> U,
    key2: spec_fn(U) -> K,
)
    requires
        forall|x: T| key2(#[trigger] f(x)) == key(x),
    ensures
        both(a.map_values(f), b.map_values(f), key2) == both(a, b, key).map_values(f),
    decreases a.len() + b.len(),
{
    let fa = a.map_values(f);
    let fb = b.map_values(f);
    if a.len() > 0 && b.len() > 0 {
        let ta = a.drop_first();
        let tb = b.drop_first();
        assert(fa.drop_first() =~= ta.map_values(f));
        assert(fb.drop_first() =~= tb.map_values(f));
        assert(fa[0] == f(a[0]) && fb[0] == f(b[0]));
        lemma_map_both(ta, tb, key, f, key2);
        lemma_map_both(ta, b, key, f, key2);
        lemma_map_both(a, tb, key, f, key2);
    }
    assert(both(fa, fb, key2) =~= both(a, b, key).map_values(f));
}

/// Merging commutes with a map that keeps the keys.
pub proof fn lemma_map_only_first<T, U, K: Key>(
    a: Seq<T>,
    b: Seq<T>,
    key: spec_fn(T) -> K,
    f: spec_fn(T) -> U,
    key2: spec_fn(U) -> K,
)
    requires
        forall|x: T| key2(#[trigger] f(x)) == key(x),
    ensures
        only_first(a.map_values(f), b.map_values(f), key2) == only_first(a, b, key).map_values(f),
    decreases a.len() + b.len(),
{
    let fa = a.map_values(f);
    let fb = b.map_values(f);
    if a.len() > 0 && b.len() > 0 {
        let ta = a.drop_first();
        let tb = b.drop_first();
        assert(fa.drop_first() =~= ta.map_values(f));
        assert(fb.drop_first() =~= tb.map_values(f));
        assert(fa[0] == f(a[0]) && fb[0] == f(b[0]));
        lemma_map_only_first(ta, tb, key, f, key2);
        lemma_map_only_first(ta, b, key, f, key2);
        lemma_map_only_first(a, tb, key, f, key2);
    }
    assert(only_first(fa, fb, key2) =~= only_first(a, b, key).map_values(f));
}

/// Merging commutes with a map that keeps the keys.
pub proof fn lemma_map_only_one<T, U, K: Key>(
    a: Seq<T>,
    b: Seq<T>,
    key: spec_fn(T) -> K,
    f: spec_fn(T) -> U,
    key2: spec_fn(U) -> K,
)
    requires
        forall|x: T| key2(#[trigger] f(x)) == key(x),
    ensures
        only_one(a.map_values(f), b.map_values(f), key2) == only_one(a, b, key).map_values(f),
    decreases a.len() + b.len(),
{
    let fa = a.map_values(f);
    let fb = b.map_values(f);
    if a.len() > 0 && b.len() > 0 {
        let ta = a.drop_first();
        let tb = b.drop_first();
        assert(fa.drop_first() =~= ta.map_values(f));
        assert(fb.drop_first() =~= tb.map_values(f));
        assert(fa[0] == f(a[0]) && fb[0] == f(b[0]));
        lemma_map_only_one(ta, tb, key, f, key2);
        lemma_map_only_one(ta, b, key, f, key2);
        lemma_map_only_one(a, tb, key, f, key2);
    }
    assert(only_one(fa, fb, key2) =~= only_one(a, b, key).map_values(f));
}

/// A merged run is no longer than what went into it.
pub proof fn lemma_both_len<T, K: Key>(a: Seq<T>, b: Seq<T>, key: spec_fn(T) -> K)
    ensures
        both(a, b, key).len() <= a.len(),
    decreases a.len() + b.len(),
{
    if a.len() > 0 && b.len() > 0 {
        lemma_both_len(a.drop_first(), b.drop_first(), key);
        lemma_both_len(a.drop_first(), b, key);
        lemma_both_len(a, b.drop_first(), key);
    }
}

/// A merged run is no longer than what went into it.
pub proof fn lemma_only_first_len<T, K: Key>(a: Seq<T>, b: Seq<T>, key: spec_fn(T) -> K)
    ensures
        only_first(a, b, key).len() <= a.len(),
    decreases a.len() + b.len(),
{
    if a.len() > 0 && b.len() > 0 {
        lemma_only_first_len(a.drop_first(), b.drop_first(), key);
        lemma_only_first_len(a.drop_first(), b, key);
        lemma_only_first_len(a, b.drop_first(), key);
    }
}

} // verus!
