//! Every node in a heap allocation of its own.
//!
//! Nothing is set aside for later: a slot's memory is acquired when the slot is handed out and
//! given back when it is retired. Suited to small trees, for which a slab would be too much.
use crate::allocator::pool::Slot;
use crate::allocator::{Addr, AllocError, NodeAllocator, Rooms, Stock, Store, Supply};
use crate::inner::Inner;
use crate::key::Key;
use crate::leaf::Leaf;
use vstd::prelude::*;

verus! {

/// What a pool of boxes holds.
#[verifier::ext_equal]
pub struct BoxView<T> {
    /// The slots that hold a value.
    pub live: Map<Addr, T>,
    /// The slots that are handed out without a value.
    pub raw: Set<Addr>,
}

impl<T> BoxView<T> {
    /// The slot is handed out.
    pub open spec fn holds(self, a: Addr) -> bool {
        self.live.dom().contains(a) || self.raw.contains(a)
    }
}

/// One node kind's half of a [`Boxes`].
pub struct BoxPool<T> {
    /// The boxes, by address.
    table: Vec<Slot<Box<T>>>,
    /// The addresses that were given back.
    vacated: Vec<usize>,
}

/// The entry at `a`.
spec fn entry_at<T>(table: Seq<Slot<Box<T>>>, a: Addr) -> Option<Slot<Box<T>>> {
    if a.slab == 0 && a.slot < table.len() {
        Some(table[a.slot as int])
    } else {
        None
    }
}

/// The addresses that were given back are distinct, and nothing is there.
spec fn idle<T>(table: Seq<Slot<Box<T>>>, vacated: Seq<usize>) -> bool {
    &&& forall|i: int|
        0 <= i < vacated.len() ==> (#[trigger] vacated[i]) < table.len()
            && table[vacated[i] as int] is Free
    &&& forall|i: int, j: int|
        #![trigger vacated[i], vacated[j]]
        0 <= i < j < vacated.len() ==> vacated[i] != vacated[j]
}

/// What the table holds.
spec fn box_view<T>(table: Seq<Slot<Box<T>>>) -> BoxView<T> {
    BoxView {
        live: Map::new(
            |a: Addr| entry_at(table, a) matches Some(Slot::Live(_)),
            |a: Addr| *entry_at(table, a)->0->Live_0,
        ),
        raw: Set::new(|a: Addr| entry_at(table, a) matches Some(Slot::Raw)),
    }
}

impl<T> View for BoxPool<T> {
    type V = BoxView<T>;

    closed spec fn view(&self) -> BoxView<T> {
        box_view(self.table@)
    }
}

impl<T> BoxPool<T> {
    /// The pool's invariant: nothing is at an address that was given back.
    pub closed spec fn wf(&self) -> bool {
        idle(self.table@, self.vacated@)
    }

    /// A pool without boxes.
    pub fn new() -> (r: Self)
        ensures
            r.wf(),
            r@.live == Map::<Addr, T>::empty(),
            r@.raw == Set::<Addr>::empty(),
    {
        let r = BoxPool { table: Vec::new(), vacated: Vec::new() };
        assert(r@.live =~= Map::<Addr, T>::empty());
        assert(r@.raw =~= Set::<Addr>::empty());
        r
    }

    /// Hands out a slot without a value.
    pub fn take_slot(&mut self) -> (r: Addr)
        requires
            old(self).wf(),
        ensures
            final(self).wf(),
            !old(self)@.holds(r),
            final(self)@ == (BoxView { raw: old(self)@.raw.insert(r), ..old(self)@ }),
    {
        let ghost table = self.table@;
        let slot: usize = match self.vacated.pop() {
            Some(slot) => {
                self.table[slot] = Slot::Raw;
                slot
            },
            None => {
                let slot: usize = self.table.len();
                self.table.push(Slot::Raw);
                slot
            },
        };
        let a = Addr { slab: 0, slot };
        proof {
            assert(entry_at(self.table@, a) == Some(Slot::Raw::<Box<T>>));
            assert forall|b: Addr| b != a implies #[trigger] entry_at(self.table@, b) == entry_at(
                table,
                b,
            ) by {}
            assert(self@.live =~= old(self)@.live);
            assert(self@.raw =~= old(self)@.raw.insert(a));
        }
        a
    }

    /// Takes back a slot without a value.
    pub fn return_slot(&mut self, a: Addr)
        requires
            old(self).wf(),
            old(self)@.raw.contains(a),
        ensures
            final(self).wf(),
            final(self)@ == (BoxView { raw: old(self)@.raw.remove(a), ..old(self)@ }),
    {
        let ghost table = self.table@;
        self.table[a.slot] = Slot::Free(None);
        self.vacated.push(a.slot);
        proof {
            assert forall|b: Addr| b != a implies #[trigger] entry_at(self.table@, b) == entry_at(
                table,
                b,
            ) by {}
            assert(entry_at(self.table@, a)->0 is Free);
            assert(self@.live =~= old(self)@.live);
            assert(self@.raw =~= old(self)@.raw.remove(a));
        }
    }

    /// Puts a value into a slot that has none.
    pub fn write(&mut self, a: Addr, value: T)
        requires
            old(self).wf(),
            old(self)@.raw.contains(a),
        ensures
            final(self).wf(),
            final(self)@ == (BoxView {
                raw: old(self)@.raw.remove(a),
                live: old(self)@.live.insert(a, value),
            }),
    {
        let ghost table = self.table@;
        self.table[a.slot] = Slot::Live(Box::new(value));
        proof {
            assert forall|b: Addr| b != a implies #[trigger] entry_at(self.table@, b) == entry_at(
                table,
                b,
            ) by {}
            assert(entry_at(self.table@, a) == Some(Slot::Live(Box::new(value))));
            assert(self@.live =~= old(self)@.live.insert(a, value));
            assert(self@.raw =~= old(self)@.raw.remove(a));
        }
    }

    /// Moves the value out of a slot, which stays handed out.
    pub fn read(&mut self, a: Addr) -> (r: T)
        requires
            old(self).wf(),
            old(self)@.live.dom().contains(a),
        ensures
            final(self).wf(),
            r == old(self)@.live[a],
            final(self)@ == (BoxView {
                raw: old(self)@.raw.insert(a),
                live: old(self)@.live.remove(a),
            }),
    {
        let ghost table = self.table@;
        let mut slot = Slot::Raw;
        core::mem::swap(&mut self.table[a.slot], &mut slot);
        proof {
            assert forall|b: Addr| b != a implies #[trigger] entry_at(self.table@, b) == entry_at(
                table,
                b,
            ) by {}
            assert(entry_at(self.table@, a) == Some(Slot::Raw::<Box<T>>));
            assert(self@.live =~= old(self)@.live.remove(a));
            assert(self@.raw =~= old(self)@.raw.insert(a));
        }
        match slot {
            Slot::Live(value) => *value,
            _ => vstd::pervasive::unreached(),
        }
    }

    /// The value in a slot.
    pub fn get(&self, a: Addr) -> (r: &T)
        requires
            self.wf(),
            self@.live.dom().contains(a),
        ensures
            *r == self@.live[a],
    {
        match &self.table[a.slot] {
            Slot::Live(value) => value,
            _ => vstd::pervasive::unreached(),
        }
    }

    /// The value in a slot, for changing it in place.
    pub fn get_mut(&mut self, a: Addr) -> (r: &mut T)
        requires
            old(self).wf(),
            old(self)@.live.dom().contains(a),
        ensures
            *r == old(self)@.live[a],
            final(self).wf(),
            final(self)@ == (BoxView {
                live: old(self)@.live.insert(a, *final(r)),
                ..old(self)@
            }),
    {
        proof {
            lemma_changed(self.table@, self.vacated@, a);
        }
        match &mut self.table[a.slot] {
            Slot::Live(value) => value,
            _ => vstd::pervasive::unreached(),
        }
    }
}

/// What becomes of the pool when the value in a slot changes.
proof fn lemma_changed<T>(table: Seq<Slot<Box<T>>>, vacated: Seq<usize>, a: Addr)
    requires
        idle(table, vacated),
        entry_at(table, a) matches Some(Slot::Live(_)),
    ensures
        forall|y: Slot<Box<T>>|
            y is Live ==> {
                let new = #[trigger] table.update(a.slot as int, y);
                &&& idle(new, vacated)
                &&& box_view(new) == (BoxView {
                    live: box_view(table).live.insert(a, *y->Live_0),
                    ..box_view(table)
                })
            },
{
    assert forall|y: Slot<Box<T>>| y is Live implies {
        let new = #[trigger] table.update(a.slot as int, y);
        &&& idle(new, vacated)
        &&& box_view(new) == (BoxView {
            live: box_view(table).live.insert(a, *y->Live_0),
            ..box_view(table)
        })
    } by {
        let new = table.update(a.slot as int, y);
        assert forall|b: Addr| b != a implies #[trigger] entry_at(new, b) == entry_at(table, b) by {}
        assert(box_view(new).live =~= box_view(table).live.insert(a, *y->Live_0));
        assert(box_view(new).raw =~= box_view(table).raw);
    }
}

/// An allocator that keeps every node in a box of its own. It never runs out, and sets nothing
/// aside.
pub struct Boxes<K: Key, V, const M: usize> {
    leaves: BoxPool<Leaf<K, V, M>>,
    inners: BoxPool<Inner<K, V, M>>,
}

impl<K: Key, V, const M: usize> Boxes<K, V, M> {
    /// An allocator without boxes.
    pub fn new() -> (r: Self)
        ensures
            r.wf(),
            r.store().is_empty(),
            r.store().unbounded(),
    {
        Boxes { leaves: BoxPool::new(), inners: BoxPool::new() }
    }
}

impl<K: Key, V, const M: usize> Default for Boxes<K, V, M> {
    fn default() -> (r: Self)
        ensures
            r.wf(),
            r.store().is_empty(),
            r.store().unbounded(),
    {
        Self::new()
    }
}

impl<K: Key, V, const M: usize> NodeAllocator<K, V, M> for Boxes<K, V, M> {
    closed spec fn wf(&self) -> bool {
        self.leaves.wf() && self.inners.wf()
    }

    closed spec fn store(&self) -> Store<K, V, M> {
        Store {
            leaves: self.leaves@.live,
            inners: self.inners@.live,
            raw_leaves: self.leaves@.raw,
            raw_inners: self.inners@.raw,
            leaf_cap: None,
            inner_cap: None,
        }
    }

    open spec fn rooms(&self) -> Rooms {
        Rooms { leaf: None, inner: None }
    }

    open spec fn endless() -> bool {
        true
    }

    proof fn lemma_live_or_raw(&self) {
    }

    open spec fn stock(&self) -> Stock {
        let none = Supply { ready: 0, batch: 1, keeps: false, stocked: false };
        Stock { leaf: none, inner: none }
    }

    proof fn lemma_room(&self) {
        assert(self.store().unbounded());
    }

    fn leaf_capacity(&self) -> (r: Option<usize>) {
        None
    }

    fn inner_capacity(&self) -> (r: Option<usize>) {
        None
    }

    fn leaf_available(&self) -> (r: usize) {
        assert(self.stock().leaf.ready == 0);
        0
    }

    fn inner_available(&self) -> (r: usize) {
        assert(self.stock().inner.ready == 0);
        0
    }

    fn try_alloc_leaf_uninit(&mut self) -> (r: Result<Addr, AllocError>) {
        Ok(self.leaves.take_slot())
    }

    fn try_alloc_inner_uninit(&mut self) -> (r: Result<Addr, AllocError>) {
        Ok(self.inners.take_slot())
    }

    fn dealloc_leaf_uninit(&mut self, at: Addr) {
        self.leaves.return_slot(at);
    }

    fn dealloc_inner_uninit(&mut self, at: Addr) {
        self.inners.return_slot(at);
    }

    fn write_leaf(&mut self, at: Addr, leaf: Leaf<K, V, M>) {
        self.leaves.write(at, leaf);
    }

    fn write_inner(&mut self, at: Addr, inner: Inner<K, V, M>) {
        self.inners.write(at, inner);
    }

    fn read_leaf(&mut self, at: Addr) -> (r: Leaf<K, V, M>) {
        self.leaves.read(at)
    }

    fn read_inner(&mut self, at: Addr) -> (r: Inner<K, V, M>) {
        self.inners.read(at)
    }

    fn leaf(&self, at: Addr) -> (r: &Leaf<K, V, M>) {
        self.leaves.get(at)
    }

    fn inner(&self, at: Addr) -> (r: &Inner<K, V, M>) {
        self.inners.get(at)
    }

    fn leaf_mut(&mut self, at: Addr) -> (r: &mut Leaf<K, V, M>) {
        self.leaves.get_mut(at)
    }

    fn inner_mut(&mut self, at: Addr) -> (r: &mut Inner<K, V, M>) {
        self.inners.get_mut(at)
    }
}

} // verus!
