//! The slab arena: pools of slots that grow slab by slab.
//!
//! A [`SlabAlloc`] is a pool for values that belong to the caller: it never drops one. The arena of
//! a tree, [`Slabs`], is a pool of leaves and a pool of inner nodes, which it owns.
use crate::allocator::pool::{PoolView, SlabPool};
use crate::allocator::{capped, Addr, AllocError, NodeAllocator, Rooms, Stock, Store, Supply};
use crate::inner::Inner;
use crate::key::Key;
use crate::leaf::Leaf;
use core::mem::ManuallyDrop;
use vstd::layout::size_of;
use vstd::prelude::*;

verus! {

/// The global heap.
#[derive(Clone, Copy, Debug, Default, PartialEq, Eq, Structural)]
pub struct Global;

/// A pool of slots for values of type `T`, in slabs on the global heap. A value in a slot belongs to
/// whoever put it there: when the pool goes, its slabs go, and what is still in them is forgotten,
/// not dropped. `A` is a handle that the pool keeps for its owner: no memory is taken from it.
pub struct SlabAlloc<T, A = Global> {
    pool: SlabPool<ManuallyDrop<T>>,
    alloc: A,
}

/// What the pool holds, as its owner sees it.
pub open spec fn bared<T>(v: PoolView<ManuallyDrop<T>>) -> PoolView<T> {
    PoolView {
        live: Map::new(|a: Addr| v.live.dom().contains(a), |a: Addr| v.live[a]@),
        raw: v.raw,
        free: v.free,
        slabs: v.slabs,
        used: v.used,
    }
}

impl<T, A> View for SlabAlloc<T, A> {
    type V = PoolView<T>;

    closed spec fn view(&self) -> PoolView<T> {
        bared(self.pool@)
    }
}

impl<T, A> SlabAlloc<T, A> {
    /// The number of slots per slab.
    pub closed spec fn capacity(&self) -> usize {
        self.pool.capacity()
    }

    /// The pool's invariant.
    pub closed spec fn wf(&self) -> bool {
        self.pool.wf()
    }

    /// An empty pool that will grow in slabs of `slab_capacity` slots, with the handle `alloc`. It
    /// allocates nothing until the first slot is taken.
    pub fn new_in(slab_capacity: usize, alloc: A) -> (r: Self)
        requires
            slab_capacity > 0,
        ensures
            r.wf(),
            r.capacity() == slab_capacity,
            r@.is_new(),
    {
        let r = SlabAlloc { pool: SlabPool::new(slab_capacity), alloc };
        assert(r@.live =~= Map::<Addr, T>::empty());
        r
    }

    /// Whether `a` lies in the slot range of one of the pool's slabs. An address does not say which
    /// pool it came from, so one that another pool handed out can lie there too.
    pub fn contains(&self, a: Addr) -> (r: bool)
        ensures
            r <==> a.slab < self@.slabs && a.slot < self.capacity(),
    {
        self.pool.contains(a)
    }

    /// The pool contains every slot that it has handed out.
    pub proof fn law_contains(&self, a: Addr)
        requires
            self.wf(),
            self@.holds(a),
        ensures
            a.slab < self@.slabs,
            a.slot < self.capacity(),
    {
        assert(self.pool@.holds(a));
        self.pool.lemma_contains(a);
    }

    /// A slot is in one state only: handed out with a value, handed out without one, or retired.
    pub proof fn lemma_states(&self)
        requires
            self.wf(),
        ensures
            self@.live.dom().disjoint(self@.raw),
            forall|i: int| 0 <= i < self@.free.len() ==> !self@.holds(#[trigger] self@.free[i]),
            self@.free.no_duplicates(),
            self@.used <= self.capacity(),
    {
        self.pool.lemma_states();
        assert forall|i: int| 0 <= i < self@.free.len() implies !self@.holds(
            #[trigger] self@.free[i],
        ) by {
            assert(!self.pool@.holds(self.pool@.free[i]));
        }
    }

    /// The value in a slot.
    pub fn get(&self, a: Addr) -> (r: &T)
        requires
            self.wf(),
            self@.live.dom().contains(a),
        ensures
            *r == self@.live[a],
    {
        &**self.pool.get(a)
    }

    /// Moves `value` into a slot of the pool.
    pub fn allocate(&mut self, value: T) -> (r: Addr)
        requires
            old(self).wf(),
        ensures
            final(self).wf(),
            final(self).capacity() == old(self).capacity(),
            r == old(self)@.upcoming(old(self).capacity()),
            !old(self)@.holds(r),
            final(self)@ == (PoolView {
                raw: old(self)@.raw,
                live: old(self)@.live.insert(r, value),
                ..old(self)@.taken(old(self).capacity())
            }),
    {
        let a = self.pool.take_next_slot();
        self.pool.write(a, ManuallyDrop::new(value));
        proof {
            assert(!old(self).pool@.holds(a));
            assert(self@.raw =~= old(self)@.raw);
            assert(self@.live =~= old(self)@.live.insert(a, value));
        }
        a
    }

    /// Moves the value out of a slot and retires the slot.
    pub fn deallocate(&mut self, a: Addr) -> (r: T)
        requires
            old(self).wf(),
            old(self)@.live.dom().contains(a),
        ensures
            final(self).wf(),
            final(self).capacity() == old(self).capacity(),
            r == old(self)@.live[a],
            final(self)@ == (PoolView {
                live: old(self)@.live.remove(a),
                free: old(self)@.free.push(a),
                ..old(self)@
            }),
    {
        proof {
            self.pool.lemma_states();
        }
        let value = self.pool.read(a);
        self.pool.return_slot(a);
        proof {
            assert(self@.raw =~= old(self)@.raw);
            assert(self@.live =~= old(self)@.live.remove(a));
        }
        ManuallyDrop::into_inner(value)
    }

    /// Forgets every slot: all slabs but the newest go, and of that one every slot counts as
    /// never used. Values that are still in slots are forgotten with them, not dropped.
    pub fn clear_all(&mut self)
        requires
            old(self).wf(),
        ensures
            final(self).wf(),
            final(self).capacity() == old(self).capacity(),
            final(self)@ == (PoolView {
                live: Map::<Addr, T>::empty(),
                raw: Set::<Addr>::empty(),
                free: Seq::<Addr>::empty(),
                slabs: if old(self)@.slabs > 0 {
                    1
                } else {
                    0
                },
                used: 0,
            }),
    {
        self.pool.clear_all();
        assert(self@.live =~= Map::<Addr, T>::empty());
    }

    /// The number of slots that can be handed out before the pool has to grow.
    pub fn available(&self) -> (r: usize)
        requires
            self.wf(),
        ensures
            r == capped(self@.ready(self.capacity())),
    {
        self.pool.available()
    }
}

impl<T> SlabAlloc<T> {
    /// An empty pool on the global heap that will grow in slabs of `slab_capacity` slots.
    pub fn new(slab_capacity: usize) -> (r: Self)
        requires
            slab_capacity > 0,
        ensures
            r.wf(),
            r.capacity() == slab_capacity,
            r@.is_new(),
    {
        Self::new_in(slab_capacity, Global)
    }
}

/// How many bytes of nodes a slab is to hold.
pub const SLAB_BUDGET: usize = 65536;

/// The number of nodes of a given size that fit a slab's budget, and at least one.
pub open spec fn per_slab(size: nat) -> nat {
    if 0 < size <= SLAB_BUDGET {
        (SLAB_BUDGET as nat) / size
    } else {
        1
    }
}

/// A slab holds as many nodes as its budget allows, and no more; at least one in any case.
pub proof fn law_slab_budget(size: nat)
    requires
        size > 0,
    ensures
        per_slab(size) >= 1,
        size <= SLAB_BUDGET ==> per_slab(size) * size <= SLAB_BUDGET,
        (SLAB_BUDGET as nat) < (per_slab(size) + 1) * size,
        size > SLAB_BUDGET ==> per_slab(size) == 1,
{
    let b = SLAB_BUDGET as nat;
    if size <= b {
        let q = b / size;
        vstd::arithmetic::div_mod::lemma_fundamental_div_mod(b as int, size as int);
        vstd::arithmetic::div_mod::lemma_mod_bound(b as int, size as int);
        assert(q * size <= b && b < (q + 1) * size && q >= 1) by (nonlinear_arith)
            requires
                b == size * q + b % size,
                0 <= b % size < size,
                size <= b,
                q >= 0,
        ;
    } else {
        assert((1 + 1) * size > b) by (nonlinear_arith)
            requires
                size > b,
        ;
    }
}

/// The bytes of a node with `m` items: the node itself, and its items.
pub open spec fn node_bytes(node: nat, item: nat, m: nat) -> nat {
    node + m * item
}

/// The bytes of a full leaf.
pub open spec fn leaf_bytes<K: Key, V, const M: usize>() -> nat {
    node_bytes(size_of::<Leaf<K, V, M>>(), size_of::<K>() + size_of::<V>(), M as nat)
}

/// The bytes of a full inner node.
pub open spec fn inner_bytes<K: Key, V, const M: usize>() -> nat {
    node_bytes(size_of::<Inner<K, V, M>>(), size_of::<K>() + size_of::<Addr>(), M as nat)
}

/// The number of nodes that go into a slab, where a node takes `node` bytes, and each of its `m`
/// items `key` bytes and `other` more.
fn slots_per_slab(node: usize, key: usize, other: usize, m: usize) -> (r: usize)
    ensures
        r == per_slab(node_bytes(node as nat, key as nat + other as nat, m as nat)),
        r > 0,
{
    let ghost item = key as nat + other as nat;
    let ghost bytes = node_bytes(node as nat, item, m as nat);
    assert(m == 0 || item <= m * item) by (nonlinear_arith)
        requires
            m >= 0,
            item >= 0,
    ;
    if m == 0 {
        assert(m * item == 0) by (nonlinear_arith)
            requires
                m == 0,
        ;
        return fitting(node);
    }
    match key.checked_add(other) {
        Some(per_item) => match per_item.checked_mul(m) {
            Some(items) => {
                assert(items == m * item) by (nonlinear_arith)
                    requires
                        items == per_item * m,
                        per_item == item,
                ;
                match items.checked_add(node) {
                    Some(size) => fitting(size),
                    None => 1,
                }
            },
            None => {
                assert(m * item > usize::MAX) by (nonlinear_arith)
                    requires
                        per_item * m > usize::MAX,
                        per_item == item,
                ;
                1
            },
        },
        None => 1,
    }
}

/// The number of nodes of `size` bytes that go into a slab.
fn fitting(size: usize) -> (r: usize)
    ensures
        r == per_slab(size as nat),
        r > 0,
{
    if 0 < size && size <= SLAB_BUDGET {
        assert((SLAB_BUDGET as nat) / (size as nat) >= 1) by (nonlinear_arith)
            requires
                0 < size <= SLAB_BUDGET,
        ;
        SLAB_BUDGET / size
    } else {
        1
    }
}

/// The slab arena for the nodes of a tree: a pool of leaves and a pool of inner nodes. It grows as
/// needed, so it never runs out. `A` is a handle that the arena keeps for its owner: all memory comes
/// from the global heap.
pub struct Slabs<K: Key, V, const M: usize, A = Global> {
    leaves: SlabPool<Leaf<K, V, M>>,
    inners: SlabPool<Inner<K, V, M>>,
    alloc: A,
}

impl<K: Key, V, const M: usize, A> Slabs<K, V, M, A> {
    /// The arena is as it was made: no slab has been acquired, and a slab will hold as many nodes as
    /// its budget allows.
    pub open spec fn is_new(&self) -> bool {
        &&& self.wf()
        &&& self.store().is_empty()
        &&& self.store().unbounded()
        &&& self.stock() == (Stock {
            leaf: Supply {
                ready: 0,
                batch: per_slab(leaf_bytes::<K, V, M>()),
                keeps: true,
                stocked: false,
            },
            inner: Supply {
                ready: 0,
                batch: per_slab(inner_bytes::<K, V, M>()),
                keeps: true,
                stocked: false,
            },
        })
    }

    /// An empty arena that keeps `alloc` for its owner. Its memory comes from the global heap.
    pub fn new_in(alloc: A) -> (r: Self)
        ensures
            r.is_new(),
    {
        let leaf: usize = slots_per_slab(
            core::mem::size_of::<Leaf<K, V, M>>(),
            core::mem::size_of::<K>(),
            core::mem::size_of::<V>(),
            M,
        );
        let inner: usize = slots_per_slab(
            core::mem::size_of::<Inner<K, V, M>>(),
            core::mem::size_of::<K>(),
            core::mem::size_of::<Addr>(),
            M,
        );
        let r = Slabs { leaves: SlabPool::new(leaf), inners: SlabPool::new(inner), alloc };
        assert(r.stock().leaf == r.leaves.supply());
        r
    }
}

impl<K: Key, V, const M: usize> Slabs<K, V, M> {
    /// An empty arena on the global heap.
    pub fn new() -> (r: Self)
        ensures
            r.is_new(),
    {
        Self::new_in(Global)
    }
}

impl<K: Key, V, const M: usize> Default for Slabs<K, V, M> {
    fn default() -> (r: Self)
        ensures
            r.is_new(),
    {
        Self::new()
    }
}

impl<K: Key, V, const M: usize, A> NodeAllocator<K, V, M> for Slabs<K, V, M, A> {
    closed spec fn wf(&self) -> bool {
        self.leaves.wf() && self.inners.wf()
    }

    closed spec fn store(&self) -> Store<K, V, M> {
        Store {
            leaves: self.leaves@.live,
            inners: self.inners@.live,
            raw_leaves: self.leaves@.raw,
            raw_inners: self.inners@.raw,
            leaf_cap: None,
            inner_cap: None,
        }
    }

    open spec fn rooms(&self) -> Rooms {
        Rooms { leaf: None, inner: None }
    }

    open spec fn endless() -> bool {
        true
    }

    proof fn lemma_live_or_raw(&self) {
        self.leaves.lemma_states();
        self.inners.lemma_states();
    }

    closed spec fn stock(&self) -> Stock {
        Stock { leaf: self.leaves.supply(), inner: self.inners.supply() }
    }

    proof fn lemma_room(&self) {
        assert(self.store().unbounded());
    }

    fn leaf_capacity(&self) -> (r: Option<usize>) {
        None
    }

    fn inner_capacity(&self) -> (r: Option<usize>) {
        None
    }

    fn leaf_available(&self) -> (r: usize) {
        assert(self.stock().leaf == self.leaves.supply());
        self.leaves.available()
    }

    fn inner_available(&self) -> (r: usize) {
        assert(self.stock().inner == self.inners.supply());
        self.inners.available()
    }

    fn reclaim_all(&mut self) -> (r: bool)
        ensures
            r,
    {
        self.leaves.clear_all();
        self.inners.clear_all();
        true
    }

    fn try_alloc_leaf_uninit(&mut self) -> (r: Result<Addr, AllocError>) {
        proof {
            self.leaves.lemma_states();
        }
        Ok(self.leaves.take_next_slot())
    }

    fn try_alloc_inner_uninit(&mut self) -> (r: Result<Addr, AllocError>) {
        proof {
            self.inners.lemma_states();
        }
        Ok(self.inners.take_next_slot())
    }

    fn dealloc_leaf_uninit(&mut self, at: Addr) {
        proof {
            self.leaves.lemma_states();
        }
        self.leaves.return_slot(at);
    }

    fn dealloc_inner_uninit(&mut self, at: Addr) {
        proof {
            self.inners.lemma_states();
        }
        self.inners.return_slot(at);
    }

    fn write_leaf(&mut self, at: Addr, leaf: Leaf<K, V, M>) {
        self.leaves.write(at, leaf);
    }

    fn write_inner(&mut self, at: Addr, inner: Inner<K, V, M>) {
        self.inners.write(at, inner);
    }

    fn read_leaf(&mut self, at: Addr) -> (r: Leaf<K, V, M>) {
        self.leaves.read(at)
    }

    fn read_inner(&mut self, at: Addr) -> (r: Inner<K, V, M>) {
        self.inners.read(at)
    }

    fn leaf(&self, at: Addr) -> (r: &Leaf<K, V, M>) {
        self.leaves.get(at)
    }

    fn inner(&self, at: Addr) -> (r: &Inner<K, V, M>) {
        self.inners.get(at)
    }

    fn leaf_mut(&mut self, at: Addr) -> (r: &mut Leaf<K, V, M>) {
        self.leaves.get_mut(at)
    }

    fn inner_mut(&mut self, at: Addr) -> (r: &mut Inner<K, V, M>) {
        self.inners.get_mut(at)
    }
}

} // verus!
