//! Bulk loading: building a tree from a sorted stream in one pass.
//!
//! The stream is cut into leaves, and each level of inner nodes is built over the one below as
//! the nodes arrive. A level holds at most two nodes back: the one that is filling, and a full one
//! before it. When the filling node becomes full, the full one before it moves up to the next
//! level. So when the stream ends, the last node of a level, which may be short, still finds its
//! left neighbour to borrow from.
use crate::allocator::{Addr, NodeAllocator, Store};
use crate::entries::sorted;
use crate::key::{lt, Key};
use crate::leaf::{half, Leaf, LeafView};
use vstd::prelude::*;
use vstd::std_specs::iter::IteratorSpec;

verus! {

/// A sorted stream of pairs that is being cut into leaves. One leaf is held back: it is handed out
/// once its successor exists, or the stream has ended.
pub struct Drain<I> {
    iter: I,
    pending: Option<Addr>,
    /// The stream has ended.
    done: bool,
}

/// How many of `n` pairs go into the next leaf: `m`, or all of them if they fit one leaf, or fewer
/// than `m` if the rest would otherwise be too few for a leaf of its own.
pub open spec fn cut(n: int, m: usize) -> int {
    if n <= m {
        n
    } else if n < m + half(m) {
        n - half(m)
    } else {
        m as int
    }
}

impl<K: Key, V, const M: usize> Leaf<K, V, M> {
    /// Cuts a stream of pairs, sorted by key, into a chain of leaves.
    pub fn drain_sorted_iter<I: core::iter::Iterator<Item = (K, V)>>(iter: I) -> (r: Drain<I>)
        ensures
            r.source() == iter,
            r.held() is None,
            !r.ended(),
    {
        Drain { iter, pending: None, done: false }
    }
}

/// The pairs in the leaf that is held back.
pub open spec fn held_items<K: Key, V, const M: usize>(
    s: Store<K, V, M>,
    held: Option<Addr>,
) -> Seq<(K, V)> {
    match held {
        Some(p) => s.leaves[p]@.items,
        None => Seq::empty(),
    }
}

/// The leaf that is held back is the last of the chain, and, as long as `left` more pairs are to
/// come, it is full.
pub open spec fn held_back<K: Key, V, const M: usize>(
    s: Store<K, V, M>,
    held: Option<Addr>,
    left: nat,
) -> bool {
    held matches Some(p) ==> {
        &&& s.leaves.dom().contains(p)
        &&& s.leaves[p].wf()
        &&& s.leaves[p]@.items.len() > 0
        &&& s.leaves[p]@.next is None
        &&& left > 0 ==> s.leaves[p]@.items.len() == M
    }
}

impl<I> Drain<I> {
    /// What is left of the stream.
    pub closed spec fn source(&self) -> I {
        self.iter
    }

    /// The leaf that is held back.
    pub closed spec fn held(&self) -> Option<Addr> {
        self.pending
    }

    /// The stream is known to have ended.
    pub closed spec fn ended(&self) -> bool {
        self.done
    }

    /// Whether more of the stream may come; it decreases from call to call, or `work` does.
    pub open spec fn stage(&self) -> int {
        if self.ended() {
            0
        } else {
            1
        }
    }

    /// How much is left to do in this stage.
    pub open spec fn work<T>(&self) -> nat where I: core::iter::Iterator<Item = T> {
        if !self.ended() {
            self.source().decrease()->0
        } else if self.held() is Some {
            1
        } else {
            0
        }
    }

    /// Reads the next leaf's worth of pairs.
    fn chunk<K: Key, V, const M: usize>(&mut self) -> (r: Option<Leaf<K, V, M>>) where
        I: core::iter::Iterator<Item = (K, V)>,

        requires
            M >= 3,
            old(self).ended() ==> old(self).source().remaining().len() == 0,
            !old(self).ended() ==> old(self).source().obeys_prophetic_iter_laws()
                && old(self).source().decrease() is Some,
            sorted(old(self).source().remaining()),
        ensures
            final(self).held() == old(self).held(),
            final(self).ended() ==> final(self).source().remaining().len() == 0,
            !final(self).ended() ==> {
                &&& !old(self).ended()
                &&& final(self).source().obeys_prophetic_iter_laws()
                &&& final(self).source().decrease() is Some
                &&& final(self).source().decrease()->0 < old(self).source().decrease()->0
            },
            r is None <==> old(self).source().remaining().len() == 0,
            r is None ==> final(self).ended(),
            r is Some ==> !old(self).ended(),
            r matches Some(leaf) ==> {
                let all = old(self).source().remaining();
                let n = if all.len() <= M {
                    all.len() as int
                } else {
                    M as int
                };
                &&& leaf.wf()
                &&& leaf@ == (LeafView { items: all.take(n), next: None })
                &&& final(self).source().remaining() == all.skip(n)
            },
    {
        if self.done {
            return None;
        }
        let ghost iter0 = self.iter;
        let (key, val) = match self.iter.next() {
            Some(pair) => pair,
            None => {
                self.done = true;
                return None;
            },
        };
        let mut leaf = Leaf::<K, V, M>::from_first_item(None, key, val);
        assert(leaf@.items + self.iter.remaining() =~= iter0.remaining());
        while !self.done && leaf.len() < M
            invariant
                M >= 3,
                !self.done ==> {
                    &&& self.iter.obeys_prophetic_iter_laws()
                    &&& self.iter.decrease() is Some
                    &&& self.iter.decrease()->0 < iter0.decrease()->0
                },
                self.pending == old(self).pending,
                sorted(iter0.remaining()),
                leaf.wf(),
                leaf@.next is None,
                leaf@.items.len() > 0,
                leaf@.items + self.iter.remaining() == iter0.remaining(),
                self.done ==> self.iter.remaining().len() == 0,
            decreases
                    (if self.done {
                        0int
                    } else {
                        1int
                    }),
                    M - leaf@.items.len(),
        {
            let ghost items = leaf@.items;
            match self.iter.next() {
                Some((k, v)) => {
                    proof {
                        let all = iter0.remaining();
                        assert(all[items.len() as int] == (k, v));
                        assert forall|i: int| 0 <= i < items.len() implies lt(
                            #[trigger] items[i].0,
                            k,
                        ) by {
                            assert(all[i] == items[i]);
                        }
                    }
                    leaf.raw_append(k, v);
                    assert(leaf@.items + self.iter.remaining() =~= iter0.remaining());
                },
                None => {
                    self.done = true;
                },
            }
        }
        proof {
            let all = iter0.remaining();
            let n = leaf@.items.len() as int;
            assert(leaf@.items =~= all.take(n));
            assert(self.iter.remaining() =~= all.skip(n));
        }
        Some(leaf)
    }

    /// Hands out the leaf that is held back, once the one behind it exists or the stream has ended.
    fn follow<K: Key, V, const M: usize, A: NodeAllocator<K, V, M>>(&mut self, alloc: &mut A) -> (r:
        Option<Addr>) where I: core::iter::Iterator<Item = (K, V)>
        requires
            M >= 3,
            old(alloc).wf(),
            old(self).held() is Some,
            old(alloc).store().unbounded(),
            old(self).ended() ==> old(self).source().remaining().len() == 0,
            !old(self).ended() ==> old(self).source().obeys_prophetic_iter_laws()
                && old(self).source().decrease() is Some,
            held_back(
                old(alloc).store(),
                old(self).held(),
                old(self).source().remaining().len(),
            ),
            sorted(
                held_items(old(alloc).store(), old(self).held())
                    + old(self).source().remaining(),
            ),
        ensures
            final(alloc).wf(),
            final(self).ended() ==> final(self).source().remaining().len() == 0,
            !final(self).ended() ==> final(self).source().obeys_prophetic_iter_laws()
                && final(self).source().decrease() is Some,
            held_back(
                final(alloc).store(),
                final(self).held(),
                final(self).source().remaining().len(),
            ),
            ({
                let s = old(alloc).store();
                let u = final(alloc).store();
                let all = held_items(s, old(self).held()) + old(self).source().remaining();
                &&& r is None <==> all.len() == 0
                &&& r is None ==> {
                    &&& u == s
                    &&& final(self).held() is None
                    &&& final(self).ended()
                    &&& final(self).source().remaining().len() == 0
                }
                &&& r matches Some(a) ==> {
                    let n = cut(all.len() as int, M);
                    let x = u.leaves[a];
                    &&& old(self).held() matches Some(p) ==> a == p
                    &&& old(self).held() is None ==> !s.leaves.dom().contains(a)
                    &&& x.wf()
                    &&& x@ == (LeafView { items: all.take(n), next: final(self).held() })
                    &&& held_items(u, final(self).held()) + final(self).source().remaining()
                        == all.skip(n)
                    &&& final(self).held() is None <==> n == all.len()
                    &&& final(self).held() is None && old(self).held() is Some ==> u == s
                    &&& final(self).held() is None ==> u == (Store {
                        leaves: s.leaves.insert(a, x),
                        ..s
                    })
                    &&& final(self).held() matches Some(q) ==> {
                        &&& q != a
                        &&& !s.leaves.dom().contains(q)
                        &&& u.leaves[q]@.items.len() >= half(M)
                        &&& u == (Store { leaves: s.leaves.insert(a, x).insert(q, u.leaves[q]), ..s })
                    }
                }
            }),
            r is Some ==> final(self).stage() <= old(self).stage(),
            r is Some && final(self).stage() == old(self).stage() ==> final(self).work()
                < old(self).work(),
    {
        let ghost s = alloc.store();
        let p = self.pending.unwrap();
        let ghost mine = s.leaves[p]@.items;
        let ghost rest = self.iter.remaining();
        let ghost all = mine + rest;
        proof {
            alloc.lemma_live_or_raw();
            assert forall|i: int, j: int|
                #![trigger rest[i], rest[j]]
                0 <= i < j < rest.len() implies lt(rest[i].0, rest[j].0) by {
                assert(all[mine.len() + i] == rest[i] && all[mine.len() + j] == rest[j]);
            }
        }
        let mut this = match self.chunk::<K, V, M>() {
            None => {
                self.pending = None;
                proof {
                    assert(all.take(all.len() as int) =~= mine);
                    assert(s.leaves.insert(p, s.leaves[p]) =~= s.leaves);
                    assert(Seq::<(K, V)>::empty() + self.iter.remaining() =~= all.skip(
                        all.len() as int,
                    ));
                }
                return Some(p);
            },
            Some(this) => this,
        };
        let ghost c = this@.items.len() as int;
        let mut prev = alloc.read_leaf(p);
        proof {
            assert(mine + this@.items =~= all.take(M + c));
            assert(self.iter.remaining() =~= all.skip(M + c));
        }
        while this.is_deficient()
            invariant
                M >= 3,
                1 <= c <= M,
                self.iter.remaining() == all.skip(M + c),
                prev.wf(),
                this.wf(),
                prev@.next is None,
                this@.next is None,
                prev@.items + this@.items == all.take(M + c),
                prev@.items.len() + this@.items.len() == M + c,
                all.len() >= M + c,
                sorted(all),
                c <= this@.items.len(),
                this@.items.len() <= half(M) || this@.items.len() == c,
            decreases half(M) - this@.items.len(),
        {
            let ghost a = prev@.items;
            let ghost b = this@.items;
            proof {
                let ab = a + b;
                assert forall|i: int, j: int|
                    #![trigger ab[i], ab[j]]
                    0 <= i < j < ab.len() implies lt(ab[i].0, ab[j].0) by {
                    assert(ab[i] == all[i] && ab[j] == all[j]);
                }
            }
            let _ = this.steal_from_left(&mut prev);
            assert(prev@.items + this@.items =~= a + b);
        }
        let ghost n = prev@.items.len() as int;
        proof {
            let both = prev@.items + this@.items;
            assert(prev@.items =~= both.take(n));
            assert(this@.items =~= both.skip(n));
            assert(prev@.items =~= all.take(n));
            assert(this@.items + self.iter.remaining() =~= all.skip(n));
            assert(self.iter.remaining().len() > 0 ==> c == M);
            assert(n == cut(all.len() as int, M));
        }
        let ghost y = this;
        proof {
            alloc.lemma_room();
        }
        let at = alloc.alloc_leaf(this);
        prev.set_next(Some(at));
        alloc.write_leaf(p, prev);
        self.pending = Some(at);
        proof {
            assert(alloc.store().leaves =~= s.leaves.insert(p, prev).insert(at, y));
            assert(alloc.store().raw_leaves =~= s.raw_leaves);
        }
        Some(p)
    }

    /// Hands out the next leaf, which is linked to the one behind it. The caller owns its slot.
    pub fn next<K: Key, V, const M: usize, A: NodeAllocator<K, V, M>>(&mut self, alloc: &mut A) -> (r:
        Option<Addr>) where I: core::iter::Iterator<Item = (K, V)>
        requires
            M >= 3,
            old(alloc).wf(),
            old(alloc).store().unbounded(),
            old(self).ended() ==> old(self).source().remaining().len() == 0,
            !old(self).ended() ==> old(self).source().obeys_prophetic_iter_laws()
                && old(self).source().decrease() is Some,
            held_back(
                old(alloc).store(),
                old(self).held(),
                old(self).source().remaining().len(),
            ),
            sorted(
                held_items(old(alloc).store(), old(self).held())
                    + old(self).source().remaining(),
            ),
        ensures
            final(alloc).wf(),
            final(self).ended() ==> final(self).source().remaining().len() == 0,
            !final(self).ended() ==> final(self).source().obeys_prophetic_iter_laws()
                && final(self).source().decrease() is Some,
            held_back(
                final(alloc).store(),
                final(self).held(),
                final(self).source().remaining().len(),
            ),
            ({
                let s = old(alloc).store();
                let u = final(alloc).store();
                let all = held_items(s, old(self).held()) + old(self).source().remaining();
                &&& r is None <==> all.len() == 0
                &&& r is None ==> {
                    &&& u == s
                    &&& final(self).held() is None
                    &&& final(self).ended()
                    &&& final(self).source().remaining().len() == 0
                }
                &&& r matches Some(a) ==> {
                    let n = cut(all.len() as int, M);
                    let x = u.leaves[a];
                    &&& old(self).held() matches Some(p) ==> a == p
                    &&& old(self).held() is None ==> !s.leaves.dom().contains(a)
                    &&& x.wf()
                    &&& x@ == (LeafView { items: all.take(n), next: final(self).held() })
                    &&& held_items(u, final(self).held()) + final(self).source().remaining()
                        == all.skip(n)
                    &&& final(self).held() is None <==> n == all.len()
                    &&& final(self).held() is None && old(self).held() is Some ==> u == s
                    &&& final(self).held() is None ==> u == (Store {
                        leaves: s.leaves.insert(a, x),
                        ..s
                    })
                    &&& final(self).held() matches Some(q) ==> {
                        &&& q != a
                        &&& !s.leaves.dom().contains(q)
                        &&& u.leaves[q]@.items.len() >= half(M)
                        &&& u == (Store { leaves: s.leaves.insert(a, x).insert(q, u.leaves[q]), ..s })
                    }
                }
            }),
            r is Some ==> final(self).stage() <= old(self).stage(),
            r is Some && final(self).stage() == old(self).stage() ==> final(self).work()
                < old(self).work(),
    {
        let ghost s = alloc.store();
        if self.pending.is_some() {
            return self.follow(alloc);
        }
        // Only the very first leaf finds none held back.
        let ghost all = self.iter.remaining();
        assert(held_items(s, None) + all =~= all);
        match self.chunk::<K, V, M>() {
            None => None,
            Some(leaf) => {
                let ghost n = leaf@.items.len() as int;
                proof {
                    alloc.lemma_room();
                }
                let at = alloc.alloc_leaf(leaf);
                self.pending = Some(at);
                proof {
                    let s1 = alloc.store();
                    assert(held_items(s1, Some(at)) + self.iter.remaining() =~= all);
                    assert forall|x: Leaf<K, V, M>| #[trigger]
                        s1.leaves.insert(at, x) == s.leaves.insert(at, x) by {
                        assert(s1.leaves.insert(at, x) =~= s.leaves.insert(at, x));
                    }
                }
                self.follow(alloc)
            },
        }
    }
}

} // verus!
