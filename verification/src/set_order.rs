//! Comparing sets by their keys.
use crate::allocator::NodeAllocator;
use crate::iter::Walk;
use crate::key::{group_order, key_lt, lt, ordered, same, Key};
use crate::set::{borrowed, BPlusSet};
use core::cmp::Ordering;
use vstd::prelude::*;

verus! {

/// The keys are equal, one by one.
pub open spec fn alike<K: Key>(a: Seq<K>, b: Seq<K>) -> bool {
    a.len() == b.len() && forall|i: int| 0 <= i < a.len() ==> same(#[trigger] a[i], b[i])
}

/// How `a` compares to `b` in lexicographic order.
pub open spec fn lexicographic<K: Key>(a: Seq<K>, b: Seq<K>) -> Ordering
    decreases a.len(),
{
    if a.len() == 0 && b.len() == 0 {
        Ordering::Equal
    } else if a.len() == 0 {
        Ordering::Less
    } else if b.len() == 0 {
        Ordering::Greater
    } else if lt(a[0], b[0]) {
        Ordering::Less
    } else if lt(b[0], a[0]) {
        Ordering::Greater
    } else {
        lexicographic(a.drop_first(), b.drop_first())
    }
}

/// Sets that compare as equal are those whose keys are equal, one by one.
pub proof fn lemma_equal_alike<K: Key>(a: Seq<K>, b: Seq<K>)
    ensures
        lexicographic(a, b) == Ordering::Equal <==> alike(a, b),
    decreases a.len(),
{
    if a.len() > 0 && b.len() > 0 {
        let s = a.drop_first();
        let t = b.drop_first();
        lemma_equal_alike(s, t);
        if alike(a, b) {
            assert(same(a[0], b[0]));
            assert forall|i: int| 0 <= i < s.len() implies same(#[trigger] s[i], t[i]) by {
                assert(same(a[i + 1], b[i + 1]));
            }
        }
        if same(a[0], b[0]) && alike(s, t) {
            assert forall|i: int| 0 <= i < a.len() implies same(#[trigger] a[i], b[i]) by {
                if i > 0 {
                    assert(same(s[i - 1], t[i - 1]));
                }
            }
        }
    }
}

/// Swapping the sides reverses the comparison.
pub proof fn law_reversed<K: Key>(a: Seq<K>, b: Seq<K>)
    requires
        ordered::<K>(),
    ensures
        lexicographic(a, b) == Ordering::Less <==> lexicographic(b, a) == Ordering::Greater,
        lexicographic(a, b) == Ordering::Equal <==> lexicographic(b, a) == Ordering::Equal,
    decreases a.len(),
{
    broadcast use group_order;

    if a.len() > 0 && b.len() > 0 {
        law_reversed(a.drop_first(), b.drop_first());
    }
}

/// The comparison is transitive.
pub proof fn law_transitive<K: Key>(a: Seq<K>, b: Seq<K>, c: Seq<K>)
    requires
        ordered::<K>(),
        lexicographic(a, b) != Ordering::Greater,
        lexicographic(b, c) != Ordering::Greater,
    ensures
        lexicographic(a, c) != Ordering::Greater,
        lexicographic(a, b) == Ordering::Less || lexicographic(b, c) == Ordering::Less
            ==> lexicographic(a, c) == Ordering::Less,
    decreases a.len(),
{
    broadcast use group_order;

    if a.len() > 0 && b.len() > 0 && c.len() > 0 {
        if same(a[0], b[0]) && same(b[0], c[0]) {
            law_transitive(a.drop_first(), b.drop_first(), c.drop_first());
        }
    }
}

impl<K: Key, const M: usize, A: NodeAllocator<K, (), M>> BPlusSet<K, M, A> {
    /// How the sets compare, by their keys in lexicographic order.
    pub fn cmp(&self, other: &Self) -> (r: Ordering)
        requires
            self.wf(),
            other.wf(),
        ensures
            r == lexicographic(self@, other@),
    {
        let mut these = self.iter();
        let mut those = other.iter();
        let ghost mut a = self@;
        let ghost mut b = other@;
        proof {
            self.lemma_wf();
        }
        loop
            invariant
                ordered::<K>(),
                these.coming() == borrowed(a),
                those.coming() == borrowed(b),
                lexicographic(a, b) == lexicographic(self@, other@),
            decreases a.len(),
        {
            let (x, these_rest) = these.step();
            let (y, those_rest) = those.step();
            match (x, y) {
                (None, None) => {
                    return Ordering::Equal;
                },
                (None, Some(_)) => {
                    return Ordering::Less;
                },
                (Some(_), None) => {
                    return Ordering::Greater;
                },
                (Some(j), Some(k)) => {
                    if key_lt(j, k) {
                        return Ordering::Less;
                    }
                    if key_lt(k, j) {
                        return Ordering::Greater;
                    }
                },
            }
            proof {
                assert(borrowed(a).drop_first() =~= borrowed(a.drop_first()));
                assert(borrowed(b).drop_first() =~= borrowed(b.drop_first()));
                a = a.drop_first();
                b = b.drop_first();
            }
            these = these_rest;
            those = those_rest;
        }
    }

    /// How the sets compare: they always do.
    pub fn partial_cmp(&self, other: &Self) -> (r: Option<Ordering>)
        requires
            self.wf(),
            other.wf(),
        ensures
            r == Some(lexicographic(self@, other@)),
    {
        Some(self.cmp(other))
    }

    /// Whether the sets have equal keys.
    pub fn eq(&self, other: &Self) -> (r: bool)
        requires
            self.wf(),
            other.wf(),
        ensures
            r <==> alike(self@, other@),
    {
        proof {
            lemma_equal_alike(self@, other@);
        }
        if self.len() != other.len() {
            return false;
        }
        match self.cmp(other) {
            Ordering::Equal => true,
            Ordering::Less => false,
            Ordering::Greater => false,
        }
    }
}

} // verus!
