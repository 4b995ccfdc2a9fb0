//! Node allocation: the trait that node storage goes through ([`NodeAllocator`]), and the
//! address type that names a slot.
//!
//! A [`NodeAllocator`] hands out node slots, one leaf or inner node at a time, at stable
//! addresses: a slot keeps its [`Addr`] from its allocation to its retirement. Every link of the
//! tree (a parent's child handles, the leaf chain) is such an address.
//!
//! The allocation primitive is uninitialised: a caller acquires storage separately from putting
//! a node into it. The methods that move values are provided on top.
pub mod boxed;
pub mod fixed;
pub mod pool;
pub mod reserve;
pub mod slab;

use crate::allocator::reserve::{
    lemma_handed_inner, lemma_handed_leaf, lemma_reserve_more, reserved, vacant, Reservation,
};
use crate::inner::Inner;
use crate::key::Key;
use crate::leaf::Leaf;
use vstd::prelude::*;

verus! {

/// The address of a node slot. Whether it names a leaf or an inner node is not written in it: a
/// holder knows the kind from the height at which it found the address.
#[derive(Clone, Copy, PartialEq, Eq, Structural, Debug, Hash)]
pub struct Addr {
    /// The slab that holds the slot.
    pub slab: usize,
    /// The slot's index in its slab.
    pub slot: usize,
}

/// The allocator cannot produce a slot: its fixed region is full.
#[derive(Clone, Copy, PartialEq, Eq, Structural, Debug)]
pub struct AllocError;

impl AllocError {
    /// What went wrong, in words.
    pub fn message(&self) -> (r: &'static str)
        ensures
            r@ == "node allocator exhausted"@,
    {
        "node allocator exhausted"
    }
}

/// What an allocator holds. A slot that has been handed out is either live (it holds a node) or
/// raw (nothing has been put into it, or its node has been moved out).
#[verifier::ext_equal]
pub struct Store<K: Key, V, const M: usize> {
    pub leaves: Map<Addr, Leaf<K, V, M>>,
    pub inners: Map<Addr, Inner<K, V, M>>,
    pub raw_leaves: Set<Addr>,
    pub raw_inners: Set<Addr>,
    /// How many leaf slots can be handed out at once; `None` if there is no ceiling.
    pub leaf_cap: Option<nat>,
    /// How many inner slots can be handed out at once; `None` if there is no ceiling.
    pub inner_cap: Option<nat>,
}

/// `n`, or the largest count that a machine word holds.
pub open spec fn capped(n: nat) -> nat {
    if n <= usize::MAX {
        n
    } else {
        usize::MAX as nat
    }
}

/// Room after `n` slots have been handed out.
pub open spec fn fewer(room: Option<nat>, n: nat) -> Option<nat> {
    match room {
        Some(k) => Some((k - n) as nat),
        None => None,
    }
}

/// Room after `n` slots have been retired.
pub open spec fn further(room: Option<nat>, n: nat) -> Option<nat> {
    match room {
        Some(k) => Some(k + n),
        None => None,
    }
}

/// There is room for `n` slots.
pub open spec fn fits(room: Option<nat>, n: nat) -> bool {
    match room {
        Some(k) => n <= k,
        None => true,
    }
}

/// How many more slots of each kind can be handed out; `None` if there is no ceiling.
#[verifier::ext_equal]
pub struct Rooms {
    pub leaf: Option<nat>,
    pub inner: Option<nat>,
}

impl Rooms {
    /// The room that is left when so many slots have been handed out.
    pub open spec fn less(self, leaves: nat, inners: nat) -> Rooms {
        Rooms { leaf: fewer(self.leaf, leaves), inner: fewer(self.inner, inners) }
    }

    /// The room that there is when so many slots have been retired.
    pub open spec fn more(self, leaves: nat, inners: nat) -> Rooms {
        Rooms { leaf: further(self.leaf, leaves), inner: further(self.inner, inners) }
    }

    /// There is room for so many slots.
    pub open spec fn fit(self, leaves: nat, inners: nat) -> bool {
        fits(self.leaf, leaves) && fits(self.inner, inners)
    }
}

/// What an allocator has set aside of one kind of slot.
#[verifier::ext_equal]
pub struct Supply {
    /// How many slots can be handed out without acquiring new memory: retired slots that await
    /// reuse, and slots of acquired storage that were never used.
    pub ready: nat,
    /// How many slots come with the memory that is acquired when none is ready.
    pub batch: nat,
    /// Retired slots await reuse.
    pub keeps: bool,
    /// Memory has been acquired and is kept.
    pub stocked: bool,
}

impl Supply {
    /// What is set aside when one slot has been handed out.
    pub open spec fn taken(self) -> Supply {
        Supply {
            ready: if self.ready > 0 {
                (self.ready - 1) as nat
            } else {
                (self.batch - 1) as nat
            },
            stocked: self.keeps,
            ..self
        }
    }

    /// What is set aside when `n` slots have been handed out.
    pub open spec fn taken_times(self, n: nat) -> Supply
        decreases n,
    {
        if n == 0 {
            self
        } else {
            self.taken_times((n - 1) as nat).taken()
        }
    }

    /// What is set aside when `n` slots have been retired.
    pub open spec fn returned(self, n: nat) -> Supply {
        Supply {
            ready: if self.keeps {
                self.ready + n
            } else {
                self.ready
            },
            ..self
        }
    }

    /// What is set aside when every slot has been forgotten: of the memory that was acquired, the
    /// last piece.
    pub open spec fn reclaimed(self) -> Supply {
        Supply {
            ready: if self.stocked {
                self.batch
            } else {
                0
            },
            ..self
        }
    }
}

/// How the number of slots that are ready changes: one that is handed out is one less, or the first
/// of a new batch; where retired slots await reuse, each is one more, and handing it out again
/// undoes that.
pub proof fn law_supply(s: Supply, n: nat)
    ensures
        s.ready > 0 ==> s.taken().ready == s.ready - 1,
        s.ready == 0 && s.batch > 0 ==> s.taken().ready + 1 == s.batch,
        s.keeps ==> s.returned(n).ready == s.ready + n,
        s.keeps ==> s.returned(1).taken().ready == s.ready,
        !s.keeps ==> s.returned(n).ready == s.ready,
        s.stocked ==> s.reclaimed().ready == s.batch,
        s.taken().batch == s.batch && s.returned(n).batch == s.batch && s.reclaimed().batch
            == s.batch,
{
}

/// A count is given as it is, if a machine word can hold it.
pub proof fn law_capped(n: nat)
    ensures
        capped(n) <= n,
        capped(n) <= usize::MAX,
        capped(n) < n ==> capped(n) == usize::MAX,
{
}

/// What an allocator has set aside.
#[verifier::ext_equal]
pub struct Stock {
    pub leaf: Supply,
    pub inner: Supply,
}

impl Stock {
    /// What is set aside when a leaf slot and `inners` inner slots have been handed out.
    pub open spec fn reserved(self, inners: nat) -> Stock {
        Stock { leaf: self.leaf.taken(), inner: self.inner.taken_times(inners) }
    }

    /// What is set aside when a leaf slot has been handed out.
    pub open spec fn leaf_taken(self) -> Stock {
        Stock { leaf: self.leaf.taken(), ..self }
    }

    /// What is set aside when an inner slot has been handed out.
    pub open spec fn inner_taken(self) -> Stock {
        Stock { inner: self.inner.taken(), ..self }
    }

    /// What is set aside when so many slots have been retired.
    pub open spec fn returned(self, leaves: nat, inners: nat) -> Stock {
        Stock { leaf: self.leaf.returned(leaves), inner: self.inner.returned(inners) }
    }

    /// What is set aside when every slot has been forgotten.
    pub open spec fn reclaimed(self) -> Stock {
        Stock { leaf: self.leaf.reclaimed(), inner: self.inner.reclaimed() }
    }
}

impl<K: Key, V, const M: usize> Store<K, V, M> {
    /// The leaf slot `a` has been handed out.
    pub open spec fn holds_leaf(self, a: Addr) -> bool {
        self.leaves.dom().contains(a) || self.raw_leaves.contains(a)
    }

    /// The inner slot `a` has been handed out.
    pub open spec fn holds_inner(self, a: Addr) -> bool {
        self.inners.dom().contains(a) || self.raw_inners.contains(a)
    }

    /// No slot of either kind is handed out.
    pub open spec fn is_empty(self) -> bool {
        &&& self.leaves == Map::<Addr, Leaf<K, V, M>>::empty()
        &&& self.inners == Map::<Addr, Inner<K, V, M>>::empty()
        &&& self.raw_leaves == Set::<Addr>::empty()
        &&& self.raw_inners == Set::<Addr>::empty()
    }

    /// Neither kind of slot has a ceiling.
    pub open spec fn unbounded(self) -> bool {
        self.leaf_cap is None && self.inner_cap is None
    }
}

/// An allocator of node slots, leaves and inner nodes, at stable addresses.
pub trait NodeAllocator<K: Key, V, const M: usize>: Sized {
    /// The allocator's own invariant.
    spec fn wf(&self) -> bool;

    /// What the allocator holds.
    spec fn store(&self) -> Store<K, V, M>;

    /// How many more slots can be handed out.
    spec fn rooms(&self) -> Rooms;

    /// Allocators of this type never run out.
    spec fn endless() -> bool;

    /// A slot is never live and raw at once.
    proof fn lemma_live_or_raw(&self)
        requires
            self.wf(),
        ensures
            self.store().leaves.dom().disjoint(self.store().raw_leaves),
            self.store().inners.dom().disjoint(self.store().raw_inners),
    ;

    /// What the allocator has set aside.
    spec fn stock(&self) -> Stock;

    /// What is not handed out of a bounded allocator's slots can be handed out, without acquiring
    /// new memory. An allocator of a type that never runs out is not bounded.
    proof fn lemma_room(&self)
        requires
            self.wf(),
        ensures
            Self::endless() ==> self.store().unbounded(),
            self.rooms().leaf is Some <==> self.store().leaf_cap is Some,
            self.rooms().inner is Some <==> self.store().inner_cap is Some,
            self.rooms().leaf matches Some(n) ==> {
                &&& n == self.stock().leaf.ready
                &&& self.store().leaves.dom().finite()
                &&& self.store().raw_leaves.finite()
                &&& n + self.store().leaves.dom().len() + self.store().raw_leaves.len()
                    == self.store().leaf_cap->0
            },
            self.rooms().inner matches Some(n) ==> {
                &&& n == self.stock().inner.ready
                &&& self.store().inners.dom().finite()
                &&& self.store().raw_inners.finite()
                &&& n + self.store().inners.dom().len() + self.store().raw_inners.len()
                    == self.store().inner_cap->0
            },
    ;

    /// The ceiling on leaf slots that are handed out at once.
    fn leaf_capacity(&self) -> (r: Option<usize>)
        requires
            self.wf(),
        ensures
            r is None <==> self.store().leaf_cap is None,
            r matches Some(c) ==> self.store().leaf_cap == Some(c as nat),
    ;

    /// The ceiling on inner slots that are handed out at once.
    fn inner_capacity(&self) -> (r: Option<usize>)
        requires
            self.wf(),
        ensures
            r is None <==> self.store().inner_cap is None,
            r matches Some(c) ==> self.store().inner_cap == Some(c as nat),
    ;

    /// The number of leaf slots that can be handed out without acquiring new memory.
    fn leaf_available(&self) -> (r: usize)
        requires
            self.wf(),
        ensures
            r == capped(self.stock().leaf.ready),
    ;

    /// The number of inner slots that can be handed out without acquiring new memory.
    fn inner_available(&self) -> (r: usize)
        requires
            self.wf(),
        ensures
            r == capped(self.stock().inner.ready),
    ;

    /// Whether `count` leaf slots can be allocated.
    fn leaves_available(&self, count: usize) -> (r: bool)
        requires
            self.wf(),
        ensures
            r <==> fits(self.rooms().leaf, count as nat),
    {
        proof {
            self.lemma_room();
        }
        self.leaf_available() >= count || self.leaf_capacity().is_none()
    }

    /// Whether `count` inner slots can be allocated.
    fn inners_available(&self, count: usize) -> (r: bool)
        requires
            self.wf(),
        ensures
            r <==> fits(self.rooms().inner, count as nat),
    {
        proof {
            self.lemma_room();
        }
        self.inner_available() >= count || self.inner_capacity().is_none()
    }

    /// Forgets every slot of both kinds at once, leaving the allocator empty and ready for use,
    /// or does nothing at all. The result says which. Nodes that are still in slots are forgotten
    /// with them, not dropped: a caller that wants them dropped takes them out before.
    fn reclaim_all(&mut self) -> (r: bool)
        requires
            old(self).wf(),
        ensures
            final(self).wf(),
            !r ==> {
                &&& final(self).store() == old(self).store()
                &&& final(self).rooms() == old(self).rooms()
                &&& final(self).stock() == old(self).stock()
            },
            r ==> {
                &&& final(self).stock() == old(self).stock().reclaimed()
                &&& final(self).store().is_empty()
                &&& final(self).store().leaf_cap == old(self).store().leaf_cap
                &&& final(self).store().inner_cap == old(self).store().inner_cap
            },
        default_ensures
            !r,
    {
        false
    }

    /// Hands out one uninitialised leaf slot, or reports exhaustion.
    fn try_alloc_leaf_uninit(&mut self) -> (r: Result<Addr, AllocError>)
        requires
            old(self).wf(),
        ensures
            final(self).wf(),
            final(self).rooms() == (if r is Ok {
                old(self).rooms().less(1, 0)
            } else {
                old(self).rooms()
            }),
            final(self).stock() == (if r is Ok {
                old(self).stock().leaf_taken()
            } else {
                old(self).stock()
            }),
            r is Err <==> old(self).rooms().leaf == Some(0nat),
            r is Err ==> final(self).store() == old(self).store(),
            r matches Ok(a) ==> !old(self).store().holds_leaf(a) && final(self).store() == (Store {
                raw_leaves: old(self).store().raw_leaves.insert(a),
                ..old(self).store()
            }),
    ;

    /// Hands out one uninitialised inner slot, or reports exhaustion.
    fn try_alloc_inner_uninit(&mut self) -> (r: Result<Addr, AllocError>)
        requires
            old(self).wf(),
        ensures
            final(self).wf(),
            final(self).rooms() == (if r is Ok {
                old(self).rooms().less(0, 1)
            } else {
                old(self).rooms()
            }),
            final(self).stock() == (if r is Ok {
                old(self).stock().inner_taken()
            } else {
                old(self).stock()
            }),
            r is Err <==> old(self).rooms().inner == Some(0nat),
            r is Err ==> final(self).store() == old(self).store(),
            r matches Ok(a) ==> !old(self).store().holds_inner(a) && final(self).store() == (Store {
                raw_inners: old(self).store().raw_inners.insert(a),
                ..old(self).store()
            }),
    ;

    /// Retires a raw leaf slot. The slot may be reused by a later allocation at once.
    fn dealloc_leaf_uninit(&mut self, at: Addr)
        requires
            old(self).wf(),
            old(self).store().raw_leaves.contains(at),
        ensures
            final(self).wf(),
            final(self).rooms() == old(self).rooms().more(1, 0),
            final(self).stock() == old(self).stock().returned(1, 0),
            final(self).store() == (Store {
                raw_leaves: old(self).store().raw_leaves.remove(at),
                ..old(self).store()
            }),
    ;

    /// Retires a raw inner slot. The slot may be reused by a later allocation at once.
    fn dealloc_inner_uninit(&mut self, at: Addr)
        requires
            old(self).wf(),
            old(self).store().raw_inners.contains(at),
        ensures
            final(self).wf(),
            final(self).rooms() == old(self).rooms().more(0, 1),
            final(self).stock() == old(self).stock().returned(0, 1),
            final(self).store() == (Store {
                raw_inners: old(self).store().raw_inners.remove(at),
                ..old(self).store()
            }),
    ;

    /// Puts a leaf into a raw slot.
    fn write_leaf(&mut self, at: Addr, leaf: Leaf<K, V, M>)
        requires
            old(self).wf(),
            old(self).store().raw_leaves.contains(at),
        ensures
            final(self).wf(),
            final(self).rooms() == old(self).rooms(),
            final(self).stock() == old(self).stock(),
            final(self).store() == (Store {
                raw_leaves: old(self).store().raw_leaves.remove(at),
                leaves: old(self).store().leaves.insert(at, leaf),
                ..old(self).store()
            }),
    ;

    /// Puts an inner node into a raw slot.
    fn write_inner(&mut self, at: Addr, inner: Inner<K, V, M>)
        requires
            old(self).wf(),
            old(self).store().raw_inners.contains(at),
        ensures
            final(self).wf(),
            final(self).rooms() == old(self).rooms(),
            final(self).stock() == old(self).stock(),
            final(self).store() == (Store {
                raw_inners: old(self).store().raw_inners.remove(at),
                inners: old(self).store().inners.insert(at, inner),
                ..old(self).store()
            }),
    ;

    /// Moves the leaf out of a live slot, which becomes raw.
    fn read_leaf(&mut self, at: Addr) -> (r: Leaf<K, V, M>)
        requires
            old(self).wf(),
            old(self).store().leaves.dom().contains(at),
        ensures
            final(self).wf(),
            final(self).rooms() == old(self).rooms(),
            final(self).stock() == old(self).stock(),
            r == old(self).store().leaves[at],
            final(self).store() == (Store {
                raw_leaves: old(self).store().raw_leaves.insert(at),
                leaves: old(self).store().leaves.remove(at),
                ..old(self).store()
            }),
    ;

    /// Moves the inner node out of a live slot, which becomes raw.
    fn read_inner(&mut self, at: Addr) -> (r: Inner<K, V, M>)
        requires
            old(self).wf(),
            old(self).store().inners.dom().contains(at),
        ensures
            final(self).wf(),
            final(self).rooms() == old(self).rooms(),
            final(self).stock() == old(self).stock(),
            r == old(self).store().inners[at],
            final(self).store() == (Store {
                raw_inners: old(self).store().raw_inners.insert(at),
                inners: old(self).store().inners.remove(at),
                ..old(self).store()
            }),
    ;

    /// The leaf in a live slot.
    fn leaf(&self, at: Addr) -> (r: &Leaf<K, V, M>)
        requires
            self.wf(),
            self.store().leaves.dom().contains(at),
        ensures
            *r == self.store().leaves[at],
    ;

    /// The inner node in a live slot.
    fn inner(&self, at: Addr) -> (r: &Inner<K, V, M>)
        requires
            self.wf(),
            self.store().inners.dom().contains(at),
        ensures
            *r == self.store().inners[at],
    ;

    /// The leaf in a live slot, for changing it in place.
    fn leaf_mut(&mut self, at: Addr) -> (r: &mut Leaf<K, V, M>)
        requires
            old(self).wf(),
            old(self).store().leaves.dom().contains(at),
        ensures
            *r == old(self).store().leaves[at],
            final(self).wf(),
            final(self).rooms() == old(self).rooms(),
            final(self).stock() == old(self).stock(),
            final(self).store() == (Store {
                leaves: old(self).store().leaves.insert(at, *final(r)),
                ..old(self).store()
            }),
    ;

    /// The inner node in a live slot, for changing it in place.
    fn inner_mut(&mut self, at: Addr) -> (r: &mut Inner<K, V, M>)
        requires
            old(self).wf(),
            old(self).store().inners.dom().contains(at),
        ensures
            *r == old(self).store().inners[at],
            final(self).wf(),
            final(self).rooms() == old(self).rooms(),
            final(self).stock() == old(self).stock(),
            final(self).store() == (Store {
                inners: old(self).store().inners.insert(at, *final(r)),
                ..old(self).store()
            }),
    ;

    /// Reserves one leaf slot and `inner_count` inner slots, or none at all if there is no room for
    /// all of them.
    fn reserve(&mut self, inner_count: usize) -> (r: Option<Reservation>)
        requires
            old(self).wf(),
        ensures
            final(self).wf(),
            r is Some <==> old(self).rooms().fit(1, inner_count as nat),
            r is None ==> {
                &&& final(self).store() == old(self).store()
                &&& final(self).rooms() == old(self).rooms()
                &&& final(self).stock() == old(self).stock()
            },
            r matches Some(bag) ==> {
                &&& final(self).rooms() == old(self).rooms().less(1, inner_count as nat)
                &&& final(self).stock() == old(self).stock().reserved(inner_count as nat)
                &&& bag.leaf() is Some
                &&& bag.inners().len() == inner_count
                &&& vacant(old(self).store(), bag.leaf(), bag.inners())
                &&& final(self).store() == reserved(
                    old(self).store(),
                    bag.leaf(),
                    bag.inners(),
                )
            },
    {
        if !self.inners_available(inner_count) || !self.leaves_available(1) {
            return None;
        }
        let ghost s = self.store();
        let ghost rooms = self.rooms();
        let mut bag = Reservation::new();
        if let Ok(a) = self.try_alloc_leaf_uninit() {
            bag.put_leaf(a);
            proof {
                lemma_handed_leaf(s, a);
            }
        }
        let mut i: usize = 0;
        while i < inner_count
            invariant
                self.wf(),
                i <= inner_count,
                s == old(self).store(),
                rooms == old(self).rooms(),
                rooms.fit(1, inner_count as nat),
                self.rooms() == rooms.less(1, i as nat),
                self.stock() == old(self).stock().reserved(i as nat),
                bag.leaf() is Some,
                bag.inners().len() == i,
                vacant(s, bag.leaf(), bag.inners()),
                self.store() == reserved(s, bag.leaf(), bag.inners()),
            decreases inner_count - i,
        {
            let ghost inners = bag.inners();
            let ghost t = self.store();
            if let Ok(a) = self.try_alloc_inner_uninit() {
                bag.put_inner(a);
                proof {
                    lemma_handed_inner(t, a);
                    lemma_reserve_more(s, bag.leaf(), inners, a);
                }
            }
            i = i + 1;
        }
        Some(bag)
    }

    /// Moves `leaf` into a fresh slot, or hands it back on exhaustion.
    fn try_alloc_leaf(&mut self, leaf: Leaf<K, V, M>) -> (r: Result<Addr, Leaf<K, V, M>>)
        requires
            old(self).wf(),
        ensures
            final(self).wf(),
            final(self).rooms() == (if r is Ok {
                old(self).rooms().less(1, 0)
            } else {
                old(self).rooms()
            }),
            final(self).stock() == (if r is Ok {
                old(self).stock().leaf_taken()
            } else {
                old(self).stock()
            }),
            r is Err <==> old(self).rooms().leaf == Some(0nat),
            r matches Err(back) ==> back == leaf && final(self).store() == old(self).store(),
            r matches Ok(a) ==> !old(self).store().holds_leaf(a) && final(self).store() == (Store {
                leaves: old(self).store().leaves.insert(a, leaf),
                ..old(self).store()
            }),
    {
        match self.try_alloc_leaf_uninit() {
            Ok(at) => {
                self.write_leaf(at, leaf);
                assert(old(self).store().raw_leaves.insert(at).remove(at)
                    =~= old(self).store().raw_leaves);
                Ok(at)
            },
            Err(_) => Err(leaf),
        }
    }

    /// Moves `inner` into a fresh slot, or hands it back on exhaustion.
    fn try_alloc_inner(&mut self, inner: Inner<K, V, M>) -> (r: Result<Addr, Inner<K, V, M>>)
        requires
            old(self).wf(),
        ensures
            final(self).wf(),
            final(self).rooms() == (if r is Ok {
                old(self).rooms().less(0, 1)
            } else {
                old(self).rooms()
            }),
            final(self).stock() == (if r is Ok {
                old(self).stock().inner_taken()
            } else {
                old(self).stock()
            }),
            r is Err <==> old(self).rooms().inner == Some(0nat),
            r matches Err(back) ==> back == inner && final(self).store() == old(self).store(),
            r matches Ok(a) ==> !old(self).store().holds_inner(a) && final(self).store() == (Store {
                inners: old(self).store().inners.insert(a, inner),
                ..old(self).store()
            }),
    {
        match self.try_alloc_inner_uninit() {
            Ok(at) => {
                self.write_inner(at, inner);
                assert(old(self).store().raw_inners.insert(at).remove(at)
                    =~= old(self).store().raw_inners);
                Ok(at)
            },
            Err(_) => Err(inner),
        }
    }

    /// Moves `leaf` into a fresh slot, where one is known to be available.
    fn alloc_leaf(&mut self, leaf: Leaf<K, V, M>) -> (a: Addr)
        requires
            old(self).wf(),
            old(self).rooms().leaf != Some(0nat),
        ensures
            final(self).wf(),
            final(self).rooms() == old(self).rooms().less(1, 0),
            final(self).stock() == old(self).stock().leaf_taken(),
            !old(self).store().holds_leaf(a),
            final(self).store() == (Store {
                leaves: old(self).store().leaves.insert(a, leaf),
                ..old(self).store()
            }),
    {
        match self.try_alloc_leaf(leaf) {
            Ok(at) => at,
            Err(_) => vstd::pervasive::unreached(),
        }
    }

    /// Moves `inner` into a fresh slot, where one is known to be available.
    fn alloc_inner(&mut self, inner: Inner<K, V, M>) -> (a: Addr)
        requires
            old(self).wf(),
            old(self).rooms().inner != Some(0nat),
        ensures
            final(self).wf(),
            final(self).rooms() == old(self).rooms().less(0, 1),
            final(self).stock() == old(self).stock().inner_taken(),
            !old(self).store().holds_inner(a),
            final(self).store() == (Store {
                inners: old(self).store().inners.insert(a, inner),
                ..old(self).store()
            }),
    {
        match self.try_alloc_inner(inner) {
            Ok(at) => at,
            Err(_) => vstd::pervasive::unreached(),
        }
    }

    /// Moves the leaf out of a live slot and retires the slot.
    fn dealloc_leaf(&mut self, at: Addr) -> (r: Leaf<K, V, M>)
        requires
            old(self).wf(),
            old(self).store().leaves.dom().contains(at),
        ensures
            final(self).wf(),
            final(self).rooms() == old(self).rooms().more(1, 0),
            final(self).stock() == old(self).stock().returned(1, 0),
            r == old(self).store().leaves[at],
            final(self).store() == (Store {
                leaves: old(self).store().leaves.remove(at),
                ..old(self).store()
            }),
    {
        proof {
            self.lemma_live_or_raw();
        }
        let leaf = self.read_leaf(at);
        self.dealloc_leaf_uninit(at);
        assert(old(self).store().raw_leaves.insert(at).remove(at)
            =~= old(self).store().raw_leaves);
        leaf
    }

    /// Moves the inner node out of a live slot and retires the slot.
    fn dealloc_inner(&mut self, at: Addr) -> (r: Inner<K, V, M>)
        requires
            old(self).wf(),
            old(self).store().inners.dom().contains(at),
        ensures
            final(self).wf(),
            final(self).rooms() == old(self).rooms().more(0, 1),
            final(self).stock() == old(self).stock().returned(0, 1),
            r == old(self).store().inners[at],
            final(self).store() == (Store {
                inners: old(self).store().inners.remove(at),
                ..old(self).store()
            }),
    {
        proof {
            self.lemma_live_or_raw();
        }
        let inner = self.read_inner(at);
        self.dealloc_inner_uninit(at);
        assert(old(self).store().raw_inners.insert(at).remove(at)
            =~= old(self).store().raw_inners);
        inner
    }
}

} // verus!
