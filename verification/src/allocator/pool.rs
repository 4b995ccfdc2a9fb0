//! Slots at stable addresses, in slabs that never move.
//!
//! A [`SlabPool`] owns a row of slabs, each with room for `slab_capacity` slots. A slab is made
//! when allocation outruns what there is, and is never moved or shrunk, so a slot keeps its
//! address from allocation to retirement.
//!
//! Retired slots form an intrusive free list: the slot itself holds the link to the next free
//! one. Allocation pops the free list if it can, else takes the next never-used slot of the
//! newest slab, else grows by one slab.
//!
//! A slot is in exactly one state: live (it holds a value), raw (handed out, but without a value),
//! free (on the free list), or never used (in the newest slab's tail).
use crate::allocator::{capped, Addr, Supply};
use vstd::prelude::*;

verus! {

/// One slot of a slab.
pub(crate) enum Slot<T> {
    /// Retired; holds the next slot of the free list.
    Free(Option<Addr>),
    /// Handed out, without a value.
    Raw,
    /// Holds a value.
    Live(T),
}

/// What a pool holds.
#[verifier::ext_equal]
pub struct PoolView<T> {
    /// The slots that hold a value.
    pub live: Map<Addr, T>,
    /// The slots that are handed out without a value.
    pub raw: Set<Addr>,
    /// The retired slots, the next to be reused at the end.
    pub free: Seq<Addr>,
    /// The number of slabs.
    pub slabs: nat,
    /// How many slots of the newest slab have ever been used.
    pub used: nat,
}

impl<T> PoolView<T> {
    /// The slot is handed out.
    pub open spec fn holds(self, a: Addr) -> bool {
        self.live.dom().contains(a) || self.raw.contains(a)
    }

    /// A pool that has never been used.
    pub open spec fn is_new(self) -> bool {
        &&& self.live == Map::<Addr, T>::empty()
        &&& self.raw == Set::<Addr>::empty()
        &&& self.free == Seq::<Addr>::empty()
        &&& self.slabs == 0
        &&& self.used == 0
    }

    /// The slot that is handed out next: the one retired last, else the next never-used one, else
    /// the first of a new slab.
    pub open spec fn upcoming(self, capacity: usize) -> Addr {
        if self.free.len() > 0 {
            self.free.last()
        } else if self.slabs > 0 && self.used < capacity {
            Addr { slab: (self.slabs - 1) as usize, slot: self.used as usize }
        } else {
            Addr { slab: self.slabs as usize, slot: 0 }
        }
    }

    /// The pool after it has handed out the next slot.
    pub open spec fn taken(self, capacity: usize) -> PoolView<T> {
        let raw = self.raw.insert(self.upcoming(capacity));
        if self.free.len() > 0 {
            PoolView { raw, free: self.free.drop_last(), ..self }
        } else if self.slabs > 0 && self.used < capacity {
            PoolView { raw, used: self.used + 1, ..self }
        } else {
            PoolView { raw, slabs: self.slabs + 1, used: 1, ..self }
        }
    }

    /// How many slots can be handed out before the pool has to grow.
    pub open spec fn ready(self, capacity: usize) -> nat {
        if self.slabs > 0 {
            (self.free.len() + capacity - self.used) as nat
        } else {
            self.free.len()
        }
    }
}

/// A pool of slots for values of type `T`, in slabs. The pool owns the values that are in its slots.
pub struct SlabPool<T> {
    slabs: Vec<Vec<Slot<T>>>,
    free_list: Option<Addr>,
    slab_capacity: usize,
    /// The free list, unrolled.
    free: Ghost<Seq<Addr>>,
}

/// The slot at `a`, if it has ever been used.
spec fn slot_at<T>(slabs: Seq<Vec<Slot<T>>>, a: Addr) -> Option<Slot<T>> {
    if a.slab < slabs.len() && a.slot < slabs[a.slab as int]@.len() {
        Some(slabs[a.slab as int]@[a.slot as int])
    } else {
        None
    }
}

/// `free` unrolls the free list with head `head`: each slot links to the one before it.
spec fn unrolled<T>(slabs: Seq<Vec<Slot<T>>>, head: Option<Addr>, free: Seq<Addr>) -> bool {
    &&& head == (if free.len() == 0 {
        None::<Addr>
    } else {
        Some(free.last())
    })
    &&& forall|i: int|
        0 <= i < free.len() ==> (#[trigger] slot_at(slabs, free[i])) == Some(
            Slot::Free::<T>(
                if i == 0 {
                    None
                } else {
                    Some(free[i - 1])
                },
            ),
        )
    &&& forall|i: int, j: int|
        #![trigger free[i], free[j]]
        0 <= i < j < free.len() ==> free[i] != free[j]
    &&& forall|a: Addr|
        (#[trigger] slot_at(slabs, a)) matches Some(Slot::Free(_)) ==> free.contains(a)
}

/// Every slab but the newest is used up.
spec fn packed<T>(slabs: Seq<Vec<Slot<T>>>, capacity: usize) -> bool {
    &&& forall|i: int| 0 <= i < slabs.len() - 1 ==> (#[trigger] slabs[i])@.len() == capacity
    &&& slabs.len() > 0 ==> slabs.last()@.len() <= capacity
}

/// Empties a slab without dropping what is in its slots.
fn forget_slots<T>(slab: Vec<Slot<T>>) -> (r: Vec<Slot<T>>)
    ensures
        r@ == Seq::<Slot<T>>::empty(),
{
    let mut slab = slab;
    while slab.len() > 0
        decreases slab.len(),
    {
        let _forgotten = core::mem::ManuallyDrop::new(slab.pop());
    }
    assert(slab@ =~= Seq::<Slot<T>>::empty());
    slab
}

impl<T> View for SlabPool<T> {
    type V = PoolView<T>;

    closed spec fn view(&self) -> PoolView<T> {
        let slabs = self.slabs@;
        PoolView {
            live: Map::new(
                |a: Addr| slot_at(slabs, a) matches Some(Slot::Live(_)),
                |a: Addr| slot_at(slabs, a)->0->Live_0,
            ),
            raw: Set::new(|a: Addr| slot_at(slabs, a) matches Some(Slot::Raw)),
            free: self.free@,
            slabs: slabs.len(),
            used: if slabs.len() == 0 {
                0
            } else {
                slabs.last()@.len()
            },
        }
    }
}

impl<T> SlabPool<T> {
    /// The number of slots per slab.
    pub closed spec fn capacity(&self) -> usize {
        self.slab_capacity
    }

    /// The pool's invariant: the free list runs through exactly the retired slots, and every slab
    /// but the newest is used up.
    pub closed spec fn wf(&self) -> bool {
        &&& self.slab_capacity > 0
        &&& packed(self.slabs@, self.slab_capacity)
        &&& unrolled(self.slabs@, self.free_list, self.free@)
    }

    /// What is set aside.
    pub open spec fn supply(&self) -> Supply {
        Supply {
            ready: self@.ready(self.capacity()),
            batch: self.capacity() as nat,
            keeps: true,
            stocked: self@.slabs > 0,
        }
    }

    /// An empty pool that will grow in slabs of `slab_capacity` slots. It allocates nothing until
    /// the first slot is taken.
    pub fn new(slab_capacity: usize) -> (r: Self)
        requires
            slab_capacity > 0,
        ensures
            r.wf(),
            r.capacity() == slab_capacity,
            r@.is_new(),
    {
        let r = SlabPool {
            slabs: Vec::new(),
            free_list: None,
            slab_capacity,
            free: Ghost(Seq::empty()),
        };
        assert(r@.live =~= Map::<Addr, T>::empty());
        assert(r@.raw =~= Set::<Addr>::empty());
        r
    }

    /// Takes the slot that was retired last.
    fn take_next_free(&mut self) -> (r: Option<Addr>)
        requires
            old(self).wf(),
        ensures
            final(self).wf(),
            final(self).capacity() == old(self).capacity(),
            r is None <==> old(self)@.free.len() == 0,
            r is None ==> final(self)@ == old(self)@,
            r matches Some(a) ==> {
                &&& a == old(self)@.free.last()
                &&& !old(self)@.holds(a)
                &&& final(self)@ == (PoolView {
                    raw: old(self)@.raw.insert(a),
                    free: old(self)@.free.drop_last(),
                    ..old(self)@
                })
            },
    {
        let a = match self.free_list {
            Some(a) => a,
            None => {
                return None;
            },
        };
        let ghost free = self.free@;
        let ghost slabs = self.slabs@;
        assert(slot_at(slabs, free[free.len() - 1]) is Some);
        let next = match &self.slabs[a.slab][a.slot] {
            Slot::Free(next) => *next,
            _ => vstd::pervasive::unreached(),
        };
        self.slabs[a.slab][a.slot] = Slot::Raw;
        self.free_list = next;
        self.free = Ghost(free.drop_last());
        proof {
            lemma_set(slabs, self.slabs@, a, Slot::Raw);
            assert(self@.live =~= old(self)@.live);
            assert(self@.raw =~= old(self)@.raw.insert(a));
            assert forall|b: Addr| (#[trigger] slot_at(self.slabs@, b)) matches Some(
                Slot::Free(_),
            ) implies self.free@.contains(b) by {
                assert(free.contains(b));
                let i = choose|i: int| 0 <= i < free.len() && free[i] == b;
                assert(free.drop_last()[i] == b);
            }
        }
        Some(a)
    }
}

/// One slot of the slabs is changed.
proof fn lemma_set<T>(old_slabs: Seq<Vec<Slot<T>>>, slabs: Seq<Vec<Slot<T>>>, a: Addr, x: Slot<T>)
    requires
        slot_at(old_slabs, a) is Some,
        slabs.len() == old_slabs.len(),
        forall|i: int| 0 <= i < slabs.len() && i != a.slab ==> #[trigger] slabs[i] == old_slabs[i],
        slabs[a.slab as int]@ == old_slabs[a.slab as int]@.update(a.slot as int, x),
    ensures
        slot_at(slabs, a) == Some(x),
        forall|b: Addr| b != a ==> #[trigger] slot_at(slabs, b) == slot_at(old_slabs, b),
        forall|i: int| 0 <= i < slabs.len() ==> (#[trigger] slabs[i])@.len() == old_slabs[i]@.len(),
{
}

impl<T> SlabPool<T> {
    /// Takes the next never-used slot of the newest slab.
    fn take_bump(&mut self) -> (r: Option<Addr>)
        requires
            old(self).wf(),
        ensures
            final(self).wf(),
            final(self).capacity() == old(self).capacity(),
            r is Some <==> old(self)@.slabs > 0 && old(self)@.used < old(self).capacity(),
            r is None ==> final(self)@ == old(self)@,
            r matches Some(a) ==> {
                &&& a.slab == old(self)@.slabs - 1
                &&& a.slot == old(self)@.used
                &&& !old(self)@.holds(a)
                &&& final(self)@ == (PoolView {
                    raw: old(self)@.raw.insert(a),
                    used: old(self)@.used + 1,
                    ..old(self)@
                })
            },
    {
        let n: usize = self.slabs.len();
        if n == 0 || self.slabs[n - 1].len() == self.slab_capacity {
            return None;
        }
        let ghost slabs = self.slabs@;
        let a = Addr { slab: n - 1, slot: self.slabs[n - 1].len() };
        self.slabs[n - 1].push(Slot::Raw);
        proof {
            assert forall|b: Addr| b != a implies #[trigger] slot_at(self.slabs@, b) == slot_at(
                slabs,
                b,
            ) by {}
            assert(slot_at(self.slabs@, a) == Some(Slot::Raw::<T>));
            assert(self@.live =~= old(self)@.live);
            assert(self@.raw =~= old(self)@.raw.insert(a));
        }
        Some(a)
    }

    /// Adds a slab, of which no slot has been used.
    fn grow(&mut self)
        requires
            old(self).wf(),
            old(self)@.slabs > 0 ==> old(self)@.used == old(self).capacity(),
        ensures
            final(self).wf(),
            final(self).capacity() == old(self).capacity(),
            final(self)@ == (PoolView { slabs: old(self)@.slabs + 1, used: 0, ..old(self)@ }),
    {
        let ghost slabs = self.slabs@;
        self.slabs.push(Vec::with_capacity(self.slab_capacity));
        proof {
            let new = self.slabs@.last();
            assert(self.slabs@ == slabs.push(new));
            lemma_grown(slabs, new, self.slab_capacity, self.free_list, self.free@);
            assert(self@.live =~= old(self)@.live);
            assert(self@.raw =~= old(self)@.raw);
        }
    }

    /// Hands out a slot without a value: the one retired last, else the next never-used one, else
    /// the first of a new slab.
    pub fn take_next_slot(&mut self) -> (r: Addr)
        requires
            old(self).wf(),
        ensures
            final(self).wf(),
            final(self).capacity() == old(self).capacity(),
            r == old(self)@.upcoming(old(self).capacity()),
            !old(self)@.holds(r),
            final(self)@ == old(self)@.taken(old(self).capacity()),
    {
        if let Some(a) = self.take_next_free() {
            return a;
        }
        if let Some(a) = self.take_bump() {
            return a;
        }
        self.grow();
        match self.take_bump() {
            Some(a) => a,
            None => vstd::pervasive::unreached(),
        }
    }

    /// Puts a slot without a value on the free list.
    pub fn return_slot(&mut self, a: Addr)
        requires
            old(self).wf(),
            old(self)@.raw.contains(a),
        ensures
            final(self).wf(),
            final(self).capacity() == old(self).capacity(),
            final(self)@ == (PoolView {
                raw: old(self)@.raw.remove(a),
                free: old(self)@.free.push(a),
                ..old(self)@
            }),
    {
        let ghost slabs = self.slabs@;
        let ghost free = self.free@;
        self.slabs[a.slab][a.slot] = Slot::Free(self.free_list);
        self.free_list = Some(a);
        self.free = Ghost(free.push(a));
        proof {
            lemma_set(slabs, self.slabs@, a, self.slabs@[a.slab as int]@[a.slot as int]);
            assert(self@.live =~= old(self)@.live);
            assert(self@.raw =~= old(self)@.raw.remove(a));
            assert forall|i: int| 0 <= i < free.len() implies #[trigger] free[i] != a by {
                assert(slot_at(slabs, free[i]) is Some);
            }
            assert forall|b: Addr| (#[trigger] slot_at(self.slabs@, b)) matches Some(
                Slot::Free(_),
            ) implies self.free@.contains(b) by {
                if b == a {
                    assert(self.free@[free.len() as int] == a);
                } else {
                    assert(free.contains(b));
                    let i = choose|i: int| 0 <= i < free.len() && free[i] == b;
                    assert(self.free@[i] == b);
                }
            }
        }
    }

    /// Puts a value into a slot that has none.
    pub fn write(&mut self, a: Addr, value: T)
        requires
            old(self).wf(),
            old(self)@.raw.contains(a),
        ensures
            final(self).wf(),
            final(self).capacity() == old(self).capacity(),
            final(self)@ == (PoolView {
                raw: old(self)@.raw.remove(a),
                live: old(self)@.live.insert(a, value),
                ..old(self)@
            }),
    {
        let ghost slabs = self.slabs@;
        self.slabs[a.slab][a.slot] = Slot::Live(value);
        proof {
            lemma_set(slabs, self.slabs@, a, Slot::Live(value));
            lemma_not_free(slabs, a, self.free@);
            assert(self@.live =~= old(self)@.live.insert(a, value));
            assert(self@.raw =~= old(self)@.raw.remove(a));
        }
    }

    /// Moves the value out of a slot, which stays handed out.
    pub fn read(&mut self, a: Addr) -> (r: T)
        requires
            old(self).wf(),
            old(self)@.live.dom().contains(a),
        ensures
            final(self).wf(),
            final(self).capacity() == old(self).capacity(),
            r == old(self)@.live[a],
            final(self)@ == (PoolView {
                raw: old(self)@.raw.insert(a),
                live: old(self)@.live.remove(a),
                ..old(self)@
            }),
    {
        let ghost slabs = self.slabs@;
        let mut slot = Slot::Raw;
        core::mem::swap(&mut self.slabs[a.slab][a.slot], &mut slot);
        proof {
            lemma_set(slabs, self.slabs@, a, Slot::Raw);
            lemma_not_free(slabs, a, self.free@);
            assert(self@.live =~= old(self)@.live.remove(a));
            assert(self@.raw =~= old(self)@.raw.insert(a));
        }
        match slot {
            Slot::Live(value) => value,
            _ => vstd::pervasive::unreached(),
        }
    }

    /// The value in a slot.
    pub fn get(&self, a: Addr) -> (r: &T)
        requires
            self.wf(),
            self@.live.dom().contains(a),
        ensures
            *r == self@.live[a],
    {
        match &self.slabs[a.slab][a.slot] {
            Slot::Live(value) => value,
            _ => vstd::pervasive::unreached(),
        }
    }

    /// The value in a slot, for changing it in place.
    pub fn get_mut(&mut self, a: Addr) -> (r: &mut T)
        requires
            old(self).wf(),
            old(self)@.live.dom().contains(a),
        ensures
            *r == old(self)@.live[a],
            final(self).wf(),
            final(self).capacity() == old(self).capacity(),
            final(self)@ == (PoolView {
                live: old(self)@.live.insert(a, *final(r)),
                ..old(self)@
            }),
    {
        proof {
            self.lemma_changed(a);
        }
        match &mut self.slabs[a.slab][a.slot] {
            Slot::Live(value) => value,
            _ => vstd::pervasive::unreached(),
        }
    }

    /// What becomes of the pool when the value in a slot changes.
    proof fn lemma_changed(&self, a: Addr)
        requires
            self.wf(),
            self@.live.dom().contains(a),
        ensures
            forall|slabs: Vec<Vec<Slot<T>>>, slab: Vec<Slot<T>>, y: Slot<T>|
                #![trigger self.slabs@.update(a.slab as int, slab), self.slabs@[a.slab as int]@.update(a.slot as int, y), slabs@]
                slabs@ == self.slabs@.update(a.slab as int, slab) && slab@
                    == self.slabs@[a.slab as int]@.update(a.slot as int, y) && y is Live ==> {
                    let new = SlabPool { slabs, ..*self };
                    &&& new.wf()
                    &&& new@ == (PoolView { live: self@.live.insert(a, y->Live_0), ..self@ })
                },
    {
        assert forall|slabs: Vec<Vec<Slot<T>>>, slab: Vec<Slot<T>>, y: Slot<T>|
            #![trigger self.slabs@.update(a.slab as int, slab), self.slabs@[a.slab as int]@.update(a.slot as int, y), slabs@]
            slabs@ == self.slabs@.update(a.slab as int, slab) && slab@
                == self.slabs@[a.slab as int]@.update(a.slot as int, y) && y is Live implies {
            let new = SlabPool { slabs, ..*self };
            &&& new.wf()
            &&& new@ == (PoolView { live: self@.live.insert(a, y->Live_0), ..self@ })
        } by {
            let new = SlabPool { slabs, ..*self };
            lemma_set(self.slabs@, slabs@, a, y);
            lemma_not_free(self.slabs@, a, self.free@);
            assert(new@.live =~= self@.live.insert(a, y->Live_0));
            assert(new@.raw =~= self@.raw);
        }
    }

    /// Whether `a` lies in the slot range of one of the pool's slabs.
    pub fn contains(&self, a: Addr) -> (r: bool)
        ensures
            r <==> a.slab < self@.slabs && a.slot < self.capacity(),
    {
        a.slab < self.slabs.len() && a.slot < self.slab_capacity
    }

    /// The pool contains every slot that it has handed out.
    pub proof fn lemma_contains(&self, a: Addr)
        requires
            self.wf(),
            self@.holds(a),
        ensures
            a.slab < self@.slabs,
            a.slot < self.capacity(),
    {
        if a.slab == self.slabs@.len() - 1 {
            assert(self.slabs@[a.slab as int] == self.slabs@.last());
        }
    }

    /// A slot is in one state only: handed out with a value, handed out without one, or retired.
    pub proof fn lemma_states(&self)
        requires
            self.wf(),
        ensures
            self@.live.dom().disjoint(self@.raw),
            forall|i: int| 0 <= i < self@.free.len() ==> !self@.holds(#[trigger] self@.free[i]),
            self@.free.no_duplicates(),
            self@.used <= self.capacity(),
            self.capacity() > 0,
            self@.slabs == 0 ==> self@.free.len() == 0,
    {
        if self@.slabs == 0 && self@.free.len() > 0 {
            assert(slot_at(self.slabs@, self.free@[0]) is Some);
        }
    }

    /// Forgets every slot: all slabs but the newest go, and of that one every slot counts as
    /// never used. Values that are still in slots are forgotten with them, not dropped.
    pub fn clear_all(&mut self)
        requires
            old(self).wf(),
        ensures
            final(self).wf(),
            final(self).capacity() == old(self).capacity(),
            final(self)@ == (PoolView {
                live: Map::<Addr, T>::empty(),
                raw: Set::<Addr>::empty(),
                free: Seq::<Addr>::empty(),
                slabs: if old(self)@.slabs > 0 {
                    1
                } else {
                    0
                },
                used: 0,
            }),
    {
        self.free_list = None;
        self.free = Ghost(Seq::empty());
        if let Some(newest) = self.slabs.pop() {
            let newest = forget_slots(newest);
            while self.slabs.len() > 0
                invariant
                    self.free_list == None::<Addr>,
                    self.free@ == Seq::<Addr>::empty(),
                    self.slab_capacity == old(self).slab_capacity,
                decreases self.slabs.len(),
            {
                if let Some(slab) = self.slabs.pop() {
                    forget_slots(slab);
                }
            }
            self.slabs.push(newest);
        }
        assert(self@.live =~= Map::<Addr, T>::empty());
        assert(self@.raw =~= Set::<Addr>::empty());
    }

    /// The number of slots that can be handed out before the pool has to grow.
    pub fn available(&self) -> (r: usize)
        requires
            self.wf(),
        ensures
            r == capped(self@.ready(self.capacity())),
    {
        let n: usize = self.slabs.len();
        let mut count: usize = if n == 0 {
            0
        } else {
            self.slab_capacity - self.slabs[n - 1].len()
        };
        let ghost virgin = count as nat;
        let ghost free = self.free@;
        let mut next = self.free_list;
        let ghost mut left: int = free.len() as int;
        while next.is_some()
            invariant
                self.wf(),
                free == self.free@,
                0 <= left <= free.len(),
                next == (if left == 0 {
                    None::<Addr>
                } else {
                    Some(free[left - 1])
                }),
                count == capped((virgin + free.len() - left) as nat),
            decreases left,
        {
            let a = next.unwrap();
            proof {
                assert(slot_at(self.slabs@, free[left - 1]) is Some);
                left = left - 1;
            }
            next = match &self.slabs[a.slab][a.slot] {
                Slot::Free(next) => *next,
                _ => vstd::pervasive::unreached(),
            };
            if count < usize::MAX {
                count = count + 1;
            }
        }
        count
    }
}

/// A slab without used slots is added.
proof fn lemma_grown<T>(
    slabs: Seq<Vec<Slot<T>>>,
    new: Vec<Slot<T>>,
    capacity: usize,
    head: Option<Addr>,
    free: Seq<Addr>,
)
    requires
        new@.len() == 0,
        packed(slabs, capacity),
        slabs.len() > 0 ==> slabs.last()@.len() == capacity,
        unrolled(slabs, head, free),
    ensures
        forall|b: Addr| #[trigger] slot_at(slabs.push(new), b) == slot_at(slabs, b),
        packed(slabs.push(new), capacity),
        unrolled(slabs.push(new), head, free),
{
    let grown = slabs.push(new);
    assert forall|b: Addr| #[trigger] slot_at(grown, b) == slot_at(slabs, b) by {
        if b.slab < slabs.len() {
            assert(grown[b.slab as int] == slabs[b.slab as int]);
        }
    }
    assert forall|i: int| 0 <= i < grown.len() - 1 implies (#[trigger] grown[i])@.len()
        == capacity by {
        assert(grown[i] == slabs[i]);
        if i == slabs.len() - 1 {
            assert(slabs[i] == slabs.last());
        }
    }
    assert forall|i: int| 0 <= i < free.len() implies (#[trigger] slot_at(grown, free[i])) == Some(
        Slot::Free::<T>(
            if i == 0 {
                None
            } else {
                Some(free[i - 1])
            },
        ),
    ) by {
        assert(slot_at(slabs, free[i]) is Some);
    }
}

/// A slot that is handed out is not on the free list.
proof fn lemma_not_free<T>(slabs: Seq<Vec<Slot<T>>>, a: Addr, free: Seq<Addr>)
    requires
        slot_at(slabs, a) is Some,
        !(slot_at(slabs, a)->0 is Free),
        forall|i: int|
            0 <= i < free.len() ==> (#[trigger] slot_at(slabs, free[i])) matches Some(Slot::Free(_)),
    ensures
        forall|i: int| 0 <= i < free.len() ==> #[trigger] free[i] != a,
{
    assert forall|i: int| 0 <= i < free.len() implies #[trigger] free[i] != a by {
        assert(slot_at(slabs, free[i]) is Some);
    }
}

} // verus!
