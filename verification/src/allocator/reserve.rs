//! Reserving slots before they are needed: a bag of slots ([`Reservation`]), acquired one by one
//! from an allocator that may run out, and an allocator ([`Reserved`]) that hands out what is in
//! the bag. Whoever has reserved enough can then make changes that must not fail half way.
use crate::allocator::{capped, Addr, AllocError, NodeAllocator, Rooms, Store};
use crate::key::Key;
use vstd::prelude::*;

verus! {

/// Slots that were acquired up front: at most one leaf slot, and any number of inner slots. They
/// are handed out without a value, and belong to the bag until they are taken out of it or
/// released.
pub struct Reservation {
    leaf: Option<Addr>,
    inners: Vec<Addr>,
}

/// The slots in the bag, as a set.
pub open spec fn slots(inners: Seq<Addr>) -> Set<Addr> {
    Set::new(|a: Addr| inners.contains(a))
}

/// The slot in the bag, as a set.
pub open spec fn slot(leaf: Option<Addr>) -> Set<Addr> {
    Set::new(|a: Addr| leaf == Some(a))
}

/// 1 if there is a slot.
pub open spec fn one(leaf: Option<Addr>) -> nat {
    if leaf is Some {
        1
    } else {
        0
    }
}

/// The store after the slots have been handed out without values.
pub open spec fn reserved<K: Key, V, const M: usize>(
    s: Store<K, V, M>,
    leaf: Option<Addr>,
    inners: Seq<Addr>,
) -> Store<K, V, M> {
    Store {
        raw_leaves: s.raw_leaves.union(slot(leaf)),
        raw_inners: s.raw_inners.union(slots(inners)),
        ..s
    }
}

/// The store after the slots have been retired.
pub open spec fn released<K: Key, V, const M: usize>(
    s: Store<K, V, M>,
    leaf: Option<Addr>,
    inners: Seq<Addr>,
) -> Store<K, V, M> {
    Store {
        raw_leaves: s.raw_leaves.difference(slot(leaf)),
        raw_inners: s.raw_inners.difference(slots(inners)),
        ..s
    }
}

/// The slots are not handed out.
pub open spec fn vacant<K: Key, V, const M: usize>(
    s: Store<K, V, M>,
    leaf: Option<Addr>,
    inners: Seq<Addr>,
) -> bool {
    &&& leaf matches Some(a) ==> !s.holds_leaf(a)
    &&& forall|i: int| 0 <= i < inners.len() ==> !s.holds_inner(#[trigger] inners[i])
    &&& inners.no_duplicates()
}

/// The store has handed out the slots of the bag, and none of them holds a value.
pub open spec fn backed<K: Key, V, const M: usize>(
    s: Store<K, V, M>,
    leaf: Option<Addr>,
    inners: Seq<Addr>,
) -> bool {
    &&& leaf matches Some(a) ==> s.raw_leaves.contains(a)
    &&& forall|i: int| 0 <= i < inners.len() ==> s.raw_inners.contains(#[trigger] inners[i])
    &&& inners.no_duplicates()
}

/// What reserving and releasing do to a store, slot by slot: the reserved slots are handed out
/// without a value, the released ones are not handed out any more, and nothing else changes.
pub proof fn law_slots<K: Key, V, const M: usize>(
    s: Store<K, V, M>,
    leaf: Option<Addr>,
    inners: Seq<Addr>,
    a: Addr,
)
    ensures
        ({
            let u = reserved(s, leaf, inners);
            let is_inner = exists|i: int| 0 <= i < inners.len() && #[trigger] inners[i] == a;
            &&& u.raw_leaves.contains(a) <==> s.raw_leaves.contains(a) || leaf == Some(a)
            &&& u.raw_inners.contains(a) <==> s.raw_inners.contains(a) || is_inner
            &&& u.leaves == s.leaves && u.inners == s.inners
            &&& u.leaf_cap == s.leaf_cap && u.inner_cap == s.inner_cap
        }),
        ({
            let u = released(s, leaf, inners);
            let is_inner = exists|i: int| 0 <= i < inners.len() && #[trigger] inners[i] == a;
            &&& u.raw_leaves.contains(a) <==> s.raw_leaves.contains(a) && leaf != Some(a)
            &&& u.raw_inners.contains(a) <==> s.raw_inners.contains(a) && !is_inner
            &&& u.leaves == s.leaves && u.inners == s.inners
            &&& u.leaf_cap == s.leaf_cap && u.inner_cap == s.inner_cap
        }),
{
    assert(inners.contains(a) <==> exists|i: int| 0 <= i < inners.len() && #[trigger] inners[i] == a);
}

/// Releasing what was reserved brings the allocator back to what it was: what it holds, and how
/// much room there is.
pub proof fn law_rollback<K: Key, V, const M: usize>(
    s: Store<K, V, M>,
    rooms: Rooms,
    leaf: Option<Addr>,
    inners: Seq<Addr>,
)
    requires
        vacant(s, leaf, inners),
        rooms.fit(one(leaf), inners.len()),
    ensures
        backed(reserved(s, leaf, inners), leaf, inners),
        released(reserved(s, leaf, inners), leaf, inners) == s,
        rooms.less(one(leaf), inners.len()).more(one(leaf), inners.len()) == rooms,
{
    let u = reserved(s, leaf, inners);
    let t = released(u, leaf, inners);
    assert forall|i: int| 0 <= i < inners.len() implies u.raw_inners.contains(
        #[trigger] inners[i],
    ) by {
        assert(inners.contains(inners[i]));
    }
    assert forall|a: Addr| t.raw_inners.contains(a) == s.raw_inners.contains(a) by {
        if inners.contains(a) {
            let i = choose|i: int| 0 <= i < inners.len() && inners[i] == a;
            assert(!s.holds_inner(inners[i]));
        }
    }
    assert(t.raw_leaves =~= s.raw_leaves);
    assert(t.raw_inners =~= s.raw_inners);
}

impl Reservation {
    /// The leaf slot in the bag.
    pub closed spec fn leaf(&self) -> Option<Addr> {
        self.leaf
    }

    /// The inner slots in the bag, the next to be taken at the end.
    pub closed spec fn inners(&self) -> Seq<Addr> {
        self.inners@
    }

    /// An empty bag.
    pub fn new() -> (r: Self)
        ensures
            r.leaf() is None,
            r.inners() == Seq::<Addr>::empty(),
    {
        Reservation { leaf: None, inners: Vec::new() }
    }

    /// Puts a leaf slot into the bag.
    pub(crate) fn put_leaf(&mut self, a: Addr)
        ensures
            final(self).leaf() == Some(a),
            final(self).inners() == old(self).inners(),
    {
        self.leaf = Some(a);
    }

    /// Puts an inner slot into the bag.
    pub(crate) fn put_inner(&mut self, a: Addr)
        ensures
            final(self).leaf() == old(self).leaf(),
            final(self).inners() == old(self).inners().push(a),
    {
        self.inners.push(a);
    }

    /// Acquires a leaf slot from `alloc`. If there is none to be had, nothing changes. The bag
    /// holds at most one leaf slot.
    pub fn reserve_leaf<K: Key, V, const M: usize, A: NodeAllocator<K, V, M>>(
        &mut self,
        alloc: &mut A,
    ) -> (r: Result<(), AllocError>)
        requires
            old(alloc).wf(),
            old(self).leaf() is None,
        ensures
            final(alloc).wf(),
            final(self).inners() == old(self).inners(),
            r is Err <==> old(alloc).rooms().leaf == Some(0nat),
            r is Err ==> {
                &&& final(self).leaf() is None
                &&& final(alloc).store() == old(alloc).store()
                &&& final(alloc).rooms() == old(alloc).rooms()
                &&& final(alloc).stock() == old(alloc).stock()
            },
            r is Ok ==> {
                &&& final(alloc).rooms() == old(alloc).rooms().less(1, 0)
                &&& final(alloc).stock() == old(alloc).stock().leaf_taken()
                &&& final(self).leaf() is Some
                &&& vacant(old(alloc).store(), final(self).leaf(), Seq::empty())
                &&& final(alloc).store() == reserved(
                    old(alloc).store(),
                    final(self).leaf(),
                    Seq::empty(),
                )
            },
    {
        match alloc.try_alloc_leaf_uninit() {
            Ok(a) => {
                self.put_leaf(a);
                proof {
                    lemma_handed_leaf(old(alloc).store(), a);
                }
                Ok(())
            },
            Err(e) => Err(e),
        }
    }

    /// Acquires an inner slot from `alloc`. If there is none to be had, nothing changes.
    pub fn reserve_inner<K: Key, V, const M: usize, A: NodeAllocator<K, V, M>>(
        &mut self,
        alloc: &mut A,
    ) -> (r: Result<(), AllocError>)
        requires
            old(alloc).wf(),
        ensures
            final(alloc).wf(),
            final(self).leaf() == old(self).leaf(),
            r is Err <==> old(alloc).rooms().inner == Some(0nat),
            r is Err ==> {
                &&& final(self).inners() == old(self).inners()
                &&& final(alloc).store() == old(alloc).store()
                &&& final(alloc).rooms() == old(alloc).rooms()
                &&& final(alloc).stock() == old(alloc).stock()
            },
            r is Ok ==> {
                let a = final(self).inners().last();
                &&& final(alloc).rooms() == old(alloc).rooms().less(0, 1)
                &&& final(alloc).stock() == old(alloc).stock().inner_taken()
                &&& final(self).inners() == old(self).inners().push(a)
                &&& vacant(old(alloc).store(), None, seq![a])
                &&& final(alloc).store() == reserved(old(alloc).store(), None, seq![a])
            },
    {
        match alloc.try_alloc_inner_uninit() {
            Ok(a) => {
                self.put_inner(a);
                proof {
                    lemma_handed_inner(old(alloc).store(), a);
                }
                Ok(())
            },
            Err(e) => Err(e),
        }
    }

    /// Takes the leaf slot out of the bag.
    pub fn take_leaf(&mut self) -> (r: Option<Addr>)
        ensures
            r == old(self).leaf(),
            final(self).leaf() is None,
            final(self).inners() == old(self).inners(),
    {
        let leaf = self.leaf;
        self.leaf = None;
        leaf
    }

    /// Takes an inner slot out of the bag: the one that was put in last.
    pub fn take_inner(&mut self) -> (r: Option<Addr>)
        ensures
            final(self).leaf() == old(self).leaf(),
            r is None <==> old(self).inners().len() == 0,
            r is None ==> final(self).inners() == old(self).inners(),
            r matches Some(a) ==> a == old(self).inners().last() && final(self).inners() == old(
                self,
            ).inners().drop_last(),
    {
        self.inners.pop()
    }

    /// Retires every slot that is still in the bag.
    pub fn release<K: Key, V, const M: usize, A: NodeAllocator<K, V, M>>(&mut self, alloc: &mut A)
        requires
            old(alloc).wf(),
            backed(old(alloc).store(), old(self).leaf(), old(self).inners()),
        ensures
            final(alloc).wf(),
            final(self).leaf() is None,
            final(self).inners() == Seq::<Addr>::empty(),
            final(alloc).store() == released(
                old(alloc).store(),
                old(self).leaf(),
                old(self).inners(),
            ),
            final(alloc).rooms() == old(alloc).rooms().more(
                one(old(self).leaf()),
                old(self).inners().len(),
            ),
            final(alloc).stock() == old(alloc).stock().returned(
                one(old(self).leaf()),
                old(self).inners().len(),
            ),
    {
        let ghost s = alloc.store();
        let ghost rooms = alloc.rooms();
        let ghost stock = alloc.stock();
        let ghost leaf = self.leaf;
        let ghost all = self.inners@;
        if let Some(a) = self.leaf {
            alloc.dealloc_leaf_uninit(a);
            self.leaf = None;
        }
        proof {
            let u = released(s, leaf, Seq::empty());
            assert(u.raw_leaves =~= alloc.store().raw_leaves);
            assert(u.raw_inners =~= alloc.store().raw_inners);
            assert(all.skip(all.len() as int) =~= Seq::<Addr>::empty());
        }
        while self.inners.len() > 0
            invariant
                alloc.wf(),
                self.leaf is None,
                self.inners@.len() <= all.len(),
                self.inners@ == all.take(self.inners@.len() as int),
                backed(s, leaf, all),
                alloc.store() == released(s, leaf, all.skip(self.inners@.len() as int)),
                alloc.rooms() == rooms.more(one(leaf), (all.len() - self.inners@.len()) as nat),
                alloc.stock() == stock.returned(one(leaf), (all.len() - self.inners@.len()) as nat),
            decreases self.inners@.len(),
        {
            let ghost n = self.inners@.len() as int;
            let ghost t = alloc.store();
            let ghost done = all.skip(n);
            match self.inners.pop() {
                Some(a) => {
                    proof {
                        assert(a == all[n - 1]);
                        assert(s.raw_inners.contains(all[n - 1]));
                        assert(!done.contains(a)) by {
                            if done.contains(a) {
                                let i = choose|i: int| 0 <= i < done.len() && done[i] == a;
                                assert(all[n + i] == a);
                            }
                        }
                        assert(t.raw_inners.contains(a));
                    }
                    alloc.dealloc_inner_uninit(a);
                    proof {
                        let next = all.skip(n - 1);
                        let u = released(s, leaf, next);
                        assert forall|b: Addr| next.contains(b) == (b == a || done.contains(b)) by {
                            if next.contains(b) {
                                let i = choose|i: int| 0 <= i < next.len() && next[i] == b;
                                if i > 0 {
                                    assert(done[i - 1] == b);
                                }
                            }
                            if done.contains(b) {
                                let i = choose|i: int| 0 <= i < done.len() && done[i] == b;
                                assert(next[i + 1] == b);
                            }
                            assert(next[0] == a);
                        }
                        assert(u.raw_leaves =~= alloc.store().raw_leaves);
                        assert(u.raw_inners =~= alloc.store().raw_inners);
                    }
                },
                None => {},
            }
        }
        proof {
            assert(all.skip(0) =~= all);
        }
    }

    /// Whether the bag holds nothing.
    pub fn is_empty(&self) -> (r: bool)
        ensures
            r <==> self.leaf() is None && self.inners().len() == 0,
    {
        self.leaf.is_none() && self.inners.len() == 0
    }
}

/// The allocator for a change that must not fail half way: it hands out what was reserved, and
/// leaves everything else to the allocator that the slots came from.
pub struct Reserved<'r, A> {
    /// The bag.
    pub slots: &'r mut Reservation,
    /// The allocator that the slots came from.
    pub backing: &'r mut A,
}

impl<'r, A> Reserved<'r, A> {
    /// The bag.
    pub open spec fn bag(&self) -> Reservation {
        *self.slots
    }

    /// The allocator that the slots came from.
    pub open spec fn source(&self) -> A {
        *self.backing
    }

    /// Hands out what is in `slots`, which came from `backing`.
    pub fn new(slots: &'r mut Reservation, backing: &'r mut A) -> (r: Self)
        ensures
            r.bag() == *old(slots),
            r.source() == *old(backing),
            *final(slots) == *final(r.slots),
            *final(backing) == *final(r.backing),
    {
        Reserved { slots, backing }
    }

    /// Hands out the reserved leaf slot. It must have been reserved.
    pub fn try_alloc_leaf_uninit(&mut self) -> (r: Result<Addr, AllocError>)
        requires
            old(self).bag().leaf() is Some,
        ensures
            r == Ok::<Addr, AllocError>(old(self).bag().leaf()->0),
            final(self).bag().leaf() is None,
            final(self).bag().inners() == old(self).bag().inners(),
            final(self).source() == old(self).source(),
            *final(final(self).slots) == *final(old(self).slots),
            *final(final(self).backing) == *final(old(self).backing),
    {
        match self.slots.take_leaf() {
            Some(a) => Ok(a),
            None => Err(AllocError),
        }
    }

    /// Hands out a reserved inner slot, the last that was reserved. There must be one.
    pub fn try_alloc_inner_uninit(&mut self) -> (r: Result<Addr, AllocError>)
        requires
            old(self).bag().inners().len() > 0,
        ensures
            r == Ok::<Addr, AllocError>(old(self).bag().inners().last()),
            final(self).bag().inners() == old(self).bag().inners().drop_last(),
            final(self).bag().leaf() == old(self).bag().leaf(),
            final(self).source() == old(self).source(),
            *final(final(self).slots) == *final(old(self).slots),
            *final(final(self).backing) == *final(old(self).backing),
    {
        match self.slots.take_inner() {
            Some(a) => Ok(a),
            None => Err(AllocError),
        }
    }

    /// Retires a raw leaf slot.
    pub fn dealloc_leaf_uninit<K: Key, V, const M: usize>(&mut self, at: Addr) where
        A: NodeAllocator<K, V, M>,

        requires
            old(self).source().wf(),
            old(self).source().store().raw_leaves.contains(at),
        ensures
            final(self).bag() == old(self).bag(),
            *final(final(self).slots) == *final(old(self).slots),
            *final(final(self).backing) == *final(old(self).backing),
            final(self).source().wf(),
            final(self).source().rooms() == old(self).source().rooms().more(1, 0),
            final(self).source().stock() == old(self).source().stock().returned(1, 0),
            final(self).source().store() == (Store {
                raw_leaves: old(self).source().store().raw_leaves.remove(at),
                ..old(self).source().store()
            }),
    {
        self.backing.dealloc_leaf_uninit(at);
    }

    /// Retires a raw inner slot.
    pub fn dealloc_inner_uninit<K: Key, V, const M: usize>(&mut self, at: Addr) where
        A: NodeAllocator<K, V, M>,

        requires
            old(self).source().wf(),
            old(self).source().store().raw_inners.contains(at),
        ensures
            final(self).bag() == old(self).bag(),
            *final(final(self).slots) == *final(old(self).slots),
            *final(final(self).backing) == *final(old(self).backing),
            final(self).source().wf(),
            final(self).source().rooms() == old(self).source().rooms().more(0, 1),
            final(self).source().stock() == old(self).source().stock().returned(0, 1),
            final(self).source().store() == (Store {
                raw_inners: old(self).source().store().raw_inners.remove(at),
                ..old(self).source().store()
            }),
    {
        self.backing.dealloc_inner_uninit(at);
    }

    /// The ceiling on leaf slots of the allocator below.
    pub fn leaf_capacity<K: Key, V, const M: usize>(&self) -> (r: Option<usize>) where
        A: NodeAllocator<K, V, M>,

        requires
            self.source().wf(),
        ensures
            r is None <==> self.source().store().leaf_cap is None,
            r matches Some(c) ==> self.source().store().leaf_cap == Some(c as nat),
    {
        self.backing.leaf_capacity()
    }

    /// The ceiling on inner slots of the allocator below.
    pub fn inner_capacity<K: Key, V, const M: usize>(&self) -> (r: Option<usize>) where
        A: NodeAllocator<K, V, M>,

        requires
            self.source().wf(),
        ensures
            r is None <==> self.source().store().inner_cap is None,
            r matches Some(c) ==> self.source().store().inner_cap == Some(c as nat),
    {
        self.backing.inner_capacity()
    }

    /// The number of leaf slots that the allocator below can hand out without acquiring memory.
    pub fn leaf_available<K: Key, V, const M: usize>(&self) -> (r: usize) where
        A: NodeAllocator<K, V, M>,

        requires
            self.source().wf(),
        ensures
            r == capped(self.source().stock().leaf.ready),
    {
        self.backing.leaf_available()
    }

    /// The number of inner slots that the allocator below can hand out without acquiring memory.
    pub fn inner_available<K: Key, V, const M: usize>(&self) -> (r: usize) where
        A: NodeAllocator<K, V, M>,

        requires
            self.source().wf(),
        ensures
            r == capped(self.source().stock().inner.ready),
    {
        self.backing.inner_available()
    }
}

/// Handing out one leaf slot reserves it.
pub proof fn lemma_handed_leaf<K: Key, V, const M: usize>(s: Store<K, V, M>, a: Addr)
    ensures
        reserved(s, Some(a), Seq::empty()) == (Store {
            raw_leaves: s.raw_leaves.insert(a),
            ..s
        }),
{
    let u = reserved(s, Some(a), Seq::empty());
    assert(u.raw_leaves =~= s.raw_leaves.insert(a));
    assert(u.raw_inners =~= s.raw_inners);
}

/// Handing out one inner slot reserves it.
pub proof fn lemma_handed_inner<K: Key, V, const M: usize>(s: Store<K, V, M>, a: Addr)
    ensures
        reserved(s, None, seq![a]) == (Store {
            raw_inners: s.raw_inners.insert(a),
            ..s
        }),
{
    let u = reserved(s, None, seq![a]);
    assert(seq![a][0] == a);
    assert(u.raw_leaves =~= s.raw_leaves);
    assert(u.raw_inners =~= s.raw_inners.insert(a));
}

/// Reserving an inner slot on top of others.
pub proof fn lemma_reserve_more<K: Key, V, const M: usize>(
    s: Store<K, V, M>,
    leaf: Option<Addr>,
    inners: Seq<Addr>,
    a: Addr,
)
    requires
        vacant(s, leaf, inners),
        vacant(reserved(s, leaf, inners), None, seq![a]),
    ensures
        vacant(s, leaf, inners.push(a)),
        reserved(reserved(s, leaf, inners), None, seq![a]) == reserved(s, leaf, inners.push(a)),
{
    let u = reserved(s, leaf, inners);
    let t = reserved(u, None, seq![a]);
    let v = reserved(s, leaf, inners.push(a));
    assert(seq![a][0] == a);
    assert(!u.holds_inner(a));
    assert forall|b: Addr| inners.push(a).contains(b) == (inners.contains(b) || b == a) by {
        if inners.contains(b) {
            let i = choose|i: int| 0 <= i < inners.len() && inners[i] == b;
            assert(inners.push(a)[i] == b);
        }
        assert(inners.push(a)[inners.len() as int] == a);
    }
    assert(!inners.contains(a));
    assert(t.raw_leaves =~= v.raw_leaves);
    assert(t.raw_inners =~= v.raw_inners);
}

} // verus!
