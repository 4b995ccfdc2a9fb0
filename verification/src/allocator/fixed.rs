//! The fixed-region arena: a [`NodeAllocator`] over storage that the caller provides. It never
//! grows; when it is full, it says so.
//!
//! [`NodeStorage`] is the storage: slots for a fixed number of leaves and of inner nodes.
//! [`FixedNodes`] is the allocator: it borrows a storage, takes its slots over, and serves them as
//! the slab arena does, from a free list of retired slots and a cursor over the slots that were
//! never used, but without growth. The nodes in the slots go with the allocator.
use crate::allocator::pool::Slot;
use crate::allocator::{Addr, AllocError, NodeAllocator, Rooms, Stock, Store, Supply};
use crate::inner::Inner;
use crate::key::Key;
use crate::leaf::{half, Leaf};
use crate::sizing::{lemma_stacked_bound, stacked, worst_inners};
use core::marker::PhantomData;
use vstd::prelude::*;
use vstd::set_lib::{
    lemma_int_range, lemma_map_size, lemma_set_disjoint_lens, lemma_set_subset_finite,
    set_int_range,
};

verus! {

/// Storage for the nodes of a tree: `LEAVES` leaf slots and `INNERS` inner slots.
///
/// `LEAVES` bounds the number of pairs that fit; how many inner slots they need at most is what
/// [`worst_case_inners`](Self::worst_case_inners) computes.
pub struct NodeStorage<K: Key, V, const M: usize, const LEAVES: usize, const INNERS: usize> {
    leaves: Vec<Slot<Leaf<K, V, M>>>,
    inners: Vec<Slot<Inner<K, V, M>>>,
}

/// `slots`, brought to a length of `n` with slots that were never used.
fn filled_up<T>(slots: Vec<Slot<T>>, n: usize) -> (r: Vec<Slot<T>>)
    ensures
        r@.len() == n,
{
    let mut slots = slots;
    while slots.len() > n
        decreases slots.len(),
    {
        let _ = slots.pop();
    }
    while slots.len() < n
        invariant
            slots.len() <= n,
        decreases n - slots.len(),
    {
        slots.push(Slot::Free(None));
    }
    slots
}

impl<K: Key, V, const M: usize, const LEAVES: usize, const INNERS: usize> NodeStorage<
    K,
    V,
    M,
    LEAVES,
    INNERS,
> {
    /// The storage has all the slots that its type says: no arena has taken them over.
    pub closed spec fn is_full(&self) -> bool {
        self.leaves@.len() == LEAVES && self.inners@.len() == INNERS
    }

    /// Storage in which no slot was ever used. There must be room for the root leaf, which every
    /// tree has.
    pub fn new() -> (r: Self)
        requires
            LEAVES >= 1,
        ensures
            r.is_full(),
    {
        NodeStorage { leaves: filled_up(Vec::new(), LEAVES), inners: filled_up(Vec::new(), INNERS) }
    }
}

/// What a fixed pool holds.
#[verifier::ext_equal]
pub struct FixedView<T> {
    /// The slots that hold a value.
    pub live: Map<Addr, T>,
    /// The slots that are handed out without a value.
    pub raw: Set<Addr>,
    /// The retired slots, the next to be reused at the end.
    pub free: Seq<Addr>,
    /// How many slots have ever been used.
    pub used: nat,
    /// How many slots there are.
    pub capacity: nat,
}

impl<T> FixedView<T> {
    /// The slot is handed out.
    pub open spec fn holds(self, a: Addr) -> bool {
        self.live.dom().contains(a) || self.raw.contains(a)
    }

    /// How many slots can be handed out.
    pub open spec fn room(self) -> nat {
        (self.free.len() + self.capacity - self.used) as nat
    }

    /// What is set aside: all slots, from the start.
    pub open spec fn supply(self) -> Supply {
        Supply { ready: self.room(), batch: self.capacity, keeps: true, stocked: true }
    }

    /// The slot that is handed out next: the one retired last, else the next never-used one.
    pub open spec fn upcoming(self) -> Addr {
        if self.free.len() > 0 {
            self.free.last()
        } else {
            Addr { slab: 0, slot: self.used as usize }
        }
    }

    /// The pool after it has handed out the next slot.
    pub open spec fn taken(self) -> FixedView<T> {
        let raw = self.raw.insert(self.upcoming());
        if self.free.len() > 0 {
            FixedView { raw, free: self.free.drop_last(), ..self }
        } else {
            FixedView { raw, used: self.used + 1, ..self }
        }
    }
}

/// One node kind's half of a [`FixedNodes`]: the slots of a region, and what is in them.
pub struct FixedPool<T> {
    /// The region.
    storage: Vec<Slot<T>>,
    /// The slot that was retired last; each retired slot holds the one before it.
    free_list: Option<Addr>,
    /// The first slot that was never used.
    bump: usize,
    /// How many slots can be handed out.
    availability: usize,
    /// The free list, unrolled.
    free: Ghost<Seq<Addr>>,
}

/// The slot at `a`, if it has ever been used.
spec fn slot_in<T>(slots: Seq<Slot<T>>, bump: usize, a: Addr) -> Option<Slot<T>> {
    if a.slab == 0 && a.slot < bump && a.slot < slots.len() {
        Some(slots[a.slot as int])
    } else {
        None
    }
}

/// `free` unrolls the free list with head `head`: each slot links to the one before it.
spec fn unrolled<T>(
    slots: Seq<Slot<T>>,
    bump: usize,
    head: Option<Addr>,
    free: Seq<Addr>,
) -> bool {
    &&& head == (if free.len() == 0 {
        None::<Addr>
    } else {
        Some(free.last())
    })
    &&& forall|i: int|
        0 <= i < free.len() ==> (#[trigger] slot_in(slots, bump, free[i])) == Some(
            Slot::Free::<T>(
                if i == 0 {
                    None
                } else {
                    Some(free[i - 1])
                },
            ),
        )
    &&& forall|i: int, j: int|
        #![trigger free[i], free[j]]
        0 <= i < j < free.len() ==> free[i] != free[j]
    &&& forall|a: Addr|
        (#[trigger] slot_in(slots, bump, a)) matches Some(Slot::Free(_)) ==> free.contains(a)
}

/// What the slots hold.
spec fn pool_view<T>(slots: Seq<Slot<T>>, bump: usize, free: Seq<Addr>) -> FixedView<T> {
    FixedView {
        live: Map::new(
            |a: Addr| slot_in(slots, bump, a) matches Some(Slot::Live(_)),
            |a: Addr| slot_in(slots, bump, a)->0->Live_0,
        ),
        raw: Set::new(|a: Addr| slot_in(slots, bump, a) matches Some(Slot::Raw)),
        free,
        used: bump as nat,
        capacity: slots.len(),
    }
}

impl<T> View for FixedPool<T> {
    type V = FixedView<T>;

    closed spec fn view(&self) -> FixedView<T> {
        pool_view(self.storage@, self.bump, self.free@)
    }
}

impl<T> FixedPool<T> {
    /// The pool's invariant: the free list runs through exactly the retired slots, and the count
    /// of slots that can be handed out is right.
    pub closed spec fn wf(&self) -> bool {
        &&& self.bump <= self.storage@.len()
        &&& self.storage@.len() <= usize::MAX
        &&& unrolled(self.storage@, self.bump, self.free_list, self.free@)
        &&& self.availability == self.free@.len() + self.storage@.len() - self.bump
        &&& self.free@.len() <= self.bump
    }

    /// A pool over `storage`: every slot counts as never used.
    pub(crate) fn new(storage: Vec<Slot<T>>) -> (r: Self)
        ensures
            r.wf(),
            r@.live == Map::<Addr, T>::empty(),
            r@.raw == Set::<Addr>::empty(),
            r@.free == Seq::<Addr>::empty(),
            r@.used == 0,
            r@.capacity == storage@.len(),
    {
        let availability: usize = storage.len();
        let r = FixedPool {
            storage,
            free_list: None,
            bump: 0,
            availability,
            free: Ghost(Seq::empty()),
        };
        proof {
            assert(r@.live =~= Map::<Addr, T>::empty());
            assert(r@.raw =~= Set::<Addr>::empty());
        }
        r
    }
}

/// A slot that has been used is changed.
proof fn lemma_set<T>(slots: Seq<Slot<T>>, bump: usize, a: Addr, x: Slot<T>)
    requires
        slot_in(slots, bump, a) is Some,
    ensures
        slot_in(slots.update(a.slot as int, x), bump, a) == Some(x),
        forall|b: Addr|
            b != a ==> #[trigger] slot_in(slots.update(a.slot as int, x), bump, b) == slot_in(
                slots,
                bump,
                b,
            ),
{
}

/// A slot that is handed out is not on the free list.
proof fn lemma_not_free<T>(
    slots: Seq<Slot<T>>,
    bump: usize,
    head: Option<Addr>,
    free: Seq<Addr>,
    a: Addr,
)
    requires
        unrolled(slots, bump, head, free),
        slot_in(slots, bump, a) is Some,
        !(slot_in(slots, bump, a)->0 is Free),
    ensures
        forall|i: int| 0 <= i < free.len() ==> #[trigger] free[i] != a,
{
    assert forall|i: int| 0 <= i < free.len() implies #[trigger] free[i] != a by {
        assert(slot_in(slots, bump, free[i]) is Some);
    }
}

/// Distinct slots below `bump` are at most that many.
proof fn lemma_pigeons(free: Seq<Addr>, bump: usize)
    requires
        forall|i: int| 0 <= i < free.len() ==> (#[trigger] free[i]).slab == 0 && free[i].slot < bump,
        forall|i: int, j: int|
            #![trigger free[i], free[j]]
            0 <= i < j < free.len() ==> free[i] != free[j],
    ensures
        free.len() <= bump,
{
    let slots = free.map_values(|a: Addr| a.slot as int);
    assert forall|i: int, j: int|
        0 <= i < slots.len() && 0 <= j < slots.len() && i != j implies slots[i] != slots[j] by {
        if i < j {
            assert(free[i] != free[j]);
        } else {
            assert(free[j] != free[i]);
        }
    }
    slots.unique_seq_to_set();
    vstd::set_lib::lemma_int_range(0, bump as int);
    assert forall|x: int| slots.to_set().contains(x) implies vstd::set_lib::set_int_range(
        0,
        bump as int,
    ).contains(x) by {
        let i = choose|i: int| 0 <= i < slots.len() && slots[i] == x;
        assert(free[i].slot < bump);
    }
    vstd::set_lib::lemma_len_subset(
        slots.to_set(),
        vstd::set_lib::set_int_range(0, bump as int),
    );
}

impl<T> FixedPool<T> {
    /// Takes the slot that was retired last.
    fn take_next_free(&mut self) -> (r: Option<Addr>)
        requires
            old(self).wf(),
        ensures
            final(self).wf(),
            r is None <==> old(self)@.free.len() == 0,
            r is None ==> final(self)@ == old(self)@,
            r matches Some(a) ==> {
                &&& a == old(self)@.free.last()
                &&& !old(self)@.holds(a)
                &&& final(self)@ == (FixedView {
                    raw: old(self)@.raw.insert(a),
                    free: old(self)@.free.drop_last(),
                    ..old(self)@
                })
            },
    {
        let a = match self.free_list {
            Some(a) => a,
            None => {
                return None;
            },
        };
        let ghost free = self.free@;
        let ghost slots = self.storage@;
        assert(slot_in(slots, self.bump, free[free.len() - 1]) is Some);
        let next = match &self.storage[a.slot] {
            Slot::Free(next) => *next,
            _ => vstd::pervasive::unreached(),
        };
        self.storage[a.slot] = Slot::Raw;
        self.free_list = next;
        self.availability = self.availability - 1;
        self.free = Ghost(free.drop_last());
        proof {
            lemma_set(slots, self.bump, a, Slot::Raw);
            assert(self@.live =~= old(self)@.live);
            assert(self@.raw =~= old(self)@.raw.insert(a));
            assert forall|b: Addr| (#[trigger] slot_in(self.storage@, self.bump, b)) matches Some(
                Slot::Free(_),
            ) implies self.free@.contains(b) by {
                assert(free.contains(b));
                let i = choose|i: int| 0 <= i < free.len() && free[i] == b;
                assert(free.drop_last()[i] == b);
            }
        }
        Some(a)
    }

    /// Takes the next never-used slot.
    fn take_bump(&mut self) -> (r: Option<Addr>)
        requires
            old(self).wf(),
        ensures
            final(self).wf(),
            r is Some <==> old(self)@.used < old(self)@.capacity,
            r is None ==> final(self)@ == old(self)@,
            r matches Some(a) ==> {
                &&& a == (Addr { slab: 0, slot: old(self)@.used as usize })
                &&& !old(self)@.holds(a)
                &&& final(self)@ == (FixedView {
                    raw: old(self)@.raw.insert(a),
                    used: old(self)@.used + 1,
                    ..old(self)@
                })
            },
    {
        if self.bump == self.storage.len() {
            return None;
        }
        let ghost slots = self.storage@;
        let ghost bump = self.bump;
        let a = Addr { slab: 0, slot: self.bump };
        self.storage[a.slot] = Slot::Raw;
        self.bump = self.bump + 1;
        self.availability = self.availability - 1;
        proof {
            assert forall|b: Addr| b != a implies #[trigger] slot_in(
                self.storage@,
                self.bump,
                b,
            ) == slot_in(slots, bump, b) by {}
            assert(slot_in(self.storage@, self.bump, a) == Some(Slot::Raw::<T>));
            assert(self@.live =~= old(self)@.live);
            assert(self@.raw =~= old(self)@.raw.insert(a));
            let free = self.free@;
            assert forall|i: int| 0 <= i < free.len() implies (#[trigger] slot_in(
                self.storage@,
                self.bump,
                free[i],
            )) == slot_in(slots, bump, free[i]) by {
                assert(slot_in(slots, bump, free[i]) is Some);
            }
        }
        Some(a)
    }

    /// Hands out a slot without a value: the one retired last, else the next never-used one, else
    /// none.
    pub fn try_take_slot(&mut self) -> (r: Result<Addr, AllocError>)
        requires
            old(self).wf(),
        ensures
            final(self).wf(),
            r is Err <==> old(self)@.room() == 0,
            r is Err ==> final(self)@ == old(self)@,
            r matches Ok(a) ==> {
                &&& a == old(self)@.upcoming()
                &&& !old(self)@.holds(a)
                &&& final(self)@ == old(self)@.taken()
            },
    {
        if let Some(a) = self.take_next_free() {
            return Ok(a);
        }
        match self.take_bump() {
            Some(a) => Ok(a),
            None => Err(AllocError),
        }
    }

    /// Puts a slot without a value on the free list.
    pub fn return_slot(&mut self, a: Addr)
        requires
            old(self).wf(),
            old(self)@.raw.contains(a),
        ensures
            final(self).wf(),
            final(self)@ == (FixedView {
                raw: old(self)@.raw.remove(a),
                free: old(self)@.free.push(a),
                ..old(self)@
            }),
    {
        let ghost slots = self.storage@;
        let ghost free = self.free@;
        proof {
            lemma_not_free(slots, self.bump, self.free_list, free, a);
            let more = free.push(a);
            assert forall|i: int| 0 <= i < more.len() implies (#[trigger] more[i]).slab == 0
                && more[i].slot < self.bump by {
                if i < free.len() {
                    assert(slot_in(slots, self.bump, free[i]) is Some);
                }
            }
            lemma_pigeons(more, self.bump);
        }
        self.storage[a.slot] = Slot::Free(self.free_list);
        self.free_list = Some(a);
        self.availability = self.availability + 1;
        self.free = Ghost(free.push(a));
        proof {
            lemma_set(slots, self.bump, a, self.storage@[a.slot as int]);
            assert(self@.live =~= old(self)@.live);
            assert(self@.raw =~= old(self)@.raw.remove(a));
            assert forall|b: Addr| (#[trigger] slot_in(self.storage@, self.bump, b)) matches Some(
                Slot::Free(_),
            ) implies self.free@.contains(b) by {
                if b == a {
                    assert(self.free@[free.len() as int] == a);
                } else {
                    assert(free.contains(b));
                    let i = choose|i: int| 0 <= i < free.len() && free[i] == b;
                    assert(self.free@[i] == b);
                }
            }
        }
    }

    /// Forgets every slot: all count as never used again. Values that are still in slots are
    /// forgotten with them, not dropped.
    pub fn reclaim(&mut self)
        requires
            old(self).wf(),
        ensures
            final(self).wf(),
            final(self)@ == (FixedView {
                live: Map::<Addr, T>::empty(),
                raw: Set::<Addr>::empty(),
                free: Seq::<Addr>::empty(),
                used: 0,
                capacity: old(self)@.capacity,
            }),
    {
        let mut i: usize = 0;
        while i < self.bump
            invariant
                self.bump <= self.storage@.len(),
                self.storage@.len() == old(self).storage@.len(),
            decreases self.bump - i,
        {
            let mut slot = Slot::Raw;
            core::mem::swap(&mut self.storage[i], &mut slot);
            let _forgotten = core::mem::ManuallyDrop::new(slot);
            i = i + 1;
        }
        self.free_list = None;
        self.bump = 0;
        self.availability = self.storage.len();
        self.free = Ghost(Seq::empty());
        assert(self@.live =~= Map::<Addr, T>::empty());
        assert(self@.raw =~= Set::<Addr>::empty());
    }

    /// The number of slots.
    pub fn capacity(&self) -> (r: usize)
        ensures
            r == self@.capacity,
    {
        self.storage.len()
    }

    /// The number of slots that can be handed out.
    pub fn available(&self) -> (r: usize)
        requires
            self.wf(),
        ensures
            r == self@.room(),
    {
        self.availability
    }

    /// Puts a value into a slot that has none.
    pub fn write(&mut self, a: Addr, value: T)
        requires
            old(self).wf(),
            old(self)@.raw.contains(a),
        ensures
            final(self).wf(),
            final(self)@ == (FixedView {
                raw: old(self)@.raw.remove(a),
                live: old(self)@.live.insert(a, value),
                ..old(self)@
            }),
    {
        let ghost slots = self.storage@;
        proof {
            lemma_not_free(slots, self.bump, self.free_list, self.free@, a);
            lemma_set(slots, self.bump, a, Slot::Live(value));
        }
        self.storage[a.slot] = Slot::Live(value);
        assert(self@.live =~= old(self)@.live.insert(a, value));
        assert(self@.raw =~= old(self)@.raw.remove(a));
    }

    /// Moves the value out of a slot, which stays handed out.
    pub fn read(&mut self, a: Addr) -> (r: T)
        requires
            old(self).wf(),
            old(self)@.live.dom().contains(a),
        ensures
            final(self).wf(),
            r == old(self)@.live[a],
            final(self)@ == (FixedView {
                raw: old(self)@.raw.insert(a),
                live: old(self)@.live.remove(a),
                ..old(self)@
            }),
    {
        let ghost slots = self.storage@;
        proof {
            lemma_not_free(slots, self.bump, self.free_list, self.free@, a);
            lemma_set(slots, self.bump, a, Slot::Raw);
        }
        let mut slot = Slot::Raw;
        core::mem::swap(&mut self.storage[a.slot], &mut slot);
        assert(self@.live =~= old(self)@.live.remove(a));
        assert(self@.raw =~= old(self)@.raw.insert(a));
        match slot {
            Slot::Live(value) => value,
            _ => vstd::pervasive::unreached(),
        }
    }

    /// The value in a slot.
    pub fn get(&self, a: Addr) -> (r: &T)
        requires
            self.wf(),
            self@.live.dom().contains(a),
        ensures
            *r == self@.live[a],
    {
        match &self.storage[a.slot] {
            Slot::Live(value) => value,
            _ => vstd::pervasive::unreached(),
        }
    }

    /// The value in a slot, for changing it in place.
    pub fn get_mut(&mut self, a: Addr) -> (r: &mut T)
        requires
            old(self).wf(),
            old(self)@.live.dom().contains(a),
        ensures
            *r == old(self)@.live[a],
            final(self).wf(),
            final(self)@ == (FixedView {
                live: old(self)@.live.insert(a, *final(r)),
                ..old(self)@
            }),
    {
        proof {
            lemma_changed(self.storage@, self.bump, self.free_list, self.free@, a);
        }
        match &mut self.storage[a.slot] {
            Slot::Live(value) => value,
            _ => vstd::pervasive::unreached(),
        }
    }

    /// A slot is in one state only: handed out with a value, handed out without one, or retired.
    pub proof fn lemma_states(&self)
        requires
            self.wf(),
        ensures
            self@.live.dom().disjoint(self@.raw),
            forall|i: int| 0 <= i < self@.free.len() ==> !self@.holds(#[trigger] self@.free[i]),
            self@.free.no_duplicates(),
            self@.used <= self@.capacity <= usize::MAX,
            self@.room() <= self@.capacity,
    {
        assert forall|i: int| 0 <= i < self@.free.len() implies !self@.holds(
            #[trigger] self@.free[i],
        ) by {
            assert(slot_in(self.storage@, self.bump, self.free@[i]) is Some);
        }
    }
}

impl<T> FixedPool<T> {
    /// Every slot that has been used is handed out, with a value or without, or retired.
    pub proof fn lemma_count(&self)
        requires
            self.wf(),
        ensures
            self@.live.dom().finite(),
            self@.raw.finite(),
            self@.live.dom().len() + self@.raw.len() + self@.free.len() == self@.used,
            self@.used <= self@.capacity,
    {
        self.lemma_states();
        let live = self@.live.dom();
        let raw = self@.raw;
        let free = self@.free.to_set();
        let slots = self.storage@;
        let at = |i: int| Addr { slab: 0, slot: i as usize };
        let nums = set_int_range(0, self.bump as int);
        let used = nums.map(at);
        lemma_int_range(0, self.bump as int);
        assert(vstd::relations::injective_on(at, nums));
        lemma_map_size(nums, used, at);
        self@.free.unique_seq_to_set();
        assert(used =~= (live + raw) + free) by {
            assert forall|a: Addr| used.contains(a) == ((live + raw) + free).contains(a) by {
                if used.contains(a) {
                    let i = choose|i: int| nums.contains(i) && at(i) == a;
                    assert(slot_in(slots, self.bump, a) is Some);
                    match slots[a.slot as int] {
                        Slot::Free(_) => {
                            assert(self@.free.contains(a));
                        },
                        _ => {},
                    }
                }
                if self@.free.contains(a) {
                    let i = choose|i: int| 0 <= i < self@.free.len() && self@.free[i] == a;
                    assert(slot_in(slots, self.bump, self.free@[i]) is Some);
                }
                if slot_in(slots, self.bump, a) is Some {
                    assert(nums.contains(a.slot as int));
                    assert(at(a.slot as int) == a);
                }
            }
        }
        lemma_set_subset_finite(used, live);
        lemma_set_subset_finite(used, raw);
        lemma_set_disjoint_lens(live, raw);
        assert((live + raw).disjoint(free)) by {
            assert forall|a: Addr| !((live + raw).contains(a) && free.contains(a)) by {
                if free.contains(a) {
                    let i = choose|i: int| 0 <= i < self@.free.len() && self@.free[i] == a;
                    assert(!self@.holds(self@.free[i]));
                }
            }
        }
        lemma_set_disjoint_lens(live + raw, free);
    }
}

/// What becomes of the pool when the value in a slot changes.
proof fn lemma_changed<T>(
    slots: Seq<Slot<T>>,
    bump: usize,
    head: Option<Addr>,
    free: Seq<Addr>,
    a: Addr,
)
    requires
        unrolled(slots, bump, head, free),
        slot_in(slots, bump, a) matches Some(Slot::Live(_)),
    ensures
        forall|y: Slot<T>|
            y is Live ==> {
                let new = #[trigger] slots.update(a.slot as int, y);
                &&& unrolled(new, bump, head, free)
                &&& pool_view(new, bump, free) == (FixedView {
                    live: pool_view(slots, bump, free).live.insert(a, y->Live_0),
                    ..pool_view(slots, bump, free)
                })
            },
{
    assert forall|y: Slot<T>| y is Live implies {
        let new = #[trigger] slots.update(a.slot as int, y);
        &&& unrolled(new, bump, head, free)
        &&& pool_view(new, bump, free) == (FixedView {
            live: pool_view(slots, bump, free).live.insert(a, y->Live_0),
            ..pool_view(slots, bump, free)
        })
    } by {
        let new = slots.update(a.slot as int, y);
        lemma_set(slots, bump, a, y);
        lemma_not_free(slots, bump, head, free, a);
        let old_view = pool_view(slots, bump, free);
        let view = pool_view(new, bump, free);
        assert(view.live =~= old_view.live.insert(a, y->Live_0));
        assert(view.raw =~= old_view.raw);
        assert forall|i: int| 0 <= i < free.len() implies (#[trigger] slot_in(new, bump, free[i]))
            == slot_in(slots, bump, free[i]) by {
            assert(free[i] != a);
        }
    }
}

impl<K: Key, V, const M: usize, const LEAVES: usize, const INNERS: usize> NodeStorage<
    K,
    V,
    M,
    LEAVES,
    INNERS,
> {
    /// The number of inner slots that suffices for any tree with at most `leaves` leaves.
    ///
    /// The worst case is the thinnest tree: every inner node but the root has as few children as
    /// it may, so that above `n` nodes there are at most `n` divided by that number. When a level
    /// cannot have two such nodes any more, the one node above it is the root.
    pub fn worst_case_inners(leaves: usize) -> (r: usize)
        requires
            M >= 3,
        ensures
            r == worst_inners(leaves as nat, M),
    {
        if leaves < 2 {
            return 0;
        }
        let min_children: usize = M / 2 + M % 2;
        let ghost min = half(M) as nat;
        assert(min_children == min);
        proof {
            lemma_stacked_bound(leaves as nat, min);
        }
        let mut below: usize = leaves;
        let mut total: usize = 0;
        loop
            invariant
                min_children == min,
                min == half(M) as nat,
                leaves >= 2,
                min >= 2,
                total + stacked(below as nat, min) == stacked(leaves as nat, min),
                stacked(leaves as nat, min) <= leaves,
            decreases below,
        {
            let thinnest: usize = below / min_children;
            assert(thinnest == below as nat / min);
            if thinnest < 2 {
                return total + 1;
            }
            assert(thinnest < below) by (nonlinear_arith)
                requires
                    min_children >= 2,
                    thinnest == below / min_children,
                    thinnest >= 2,
            ;
            total = total + thinnest;
            below = thinnest;
        }
    }
}

/// An allocator of node slots with a fixed capacity, over borrowed storage. The number of its slots
/// never grows: when one kind of slot has run out, it reports so. What a node holds is on the heap.
pub struct FixedNodes<'a, K: Key, V, const M: usize> {
    leaves: FixedPool<Leaf<K, V, M>>,
    inners: FixedPool<Inner<K, V, M>>,
    marker: PhantomData<&'a mut ()>,
}

impl<'a, K: Key, V, const M: usize> FixedNodes<'a, K, V, M> {
    /// An empty arena over `storage`, which it borrows and whose slots it takes over. Every slot
    /// counts as never used, also where an earlier arena had the storage.
    pub fn new<const LEAVES: usize, const INNERS: usize>(
        storage: &'a mut NodeStorage<K, V, M, LEAVES, INNERS>,
    ) -> (r: Self)
        ensures
            r.wf(),
            r.store().is_empty(),
            r.store().leaf_cap == Some(LEAVES as nat),
            r.store().inner_cap == Some(INNERS as nat),
            r.rooms() == (Rooms { leaf: Some(LEAVES as nat), inner: Some(INNERS as nat) }),
            r.stock() == (Stock {
                leaf: Supply {
                    ready: LEAVES as nat,
                    batch: LEAVES as nat,
                    keeps: true,
                    stocked: true,
                },
                inner: Supply {
                    ready: INNERS as nat,
                    batch: INNERS as nat,
                    keeps: true,
                    stocked: true,
                },
            }),
    {
        let mut leaves = Vec::new();
        let mut inners = Vec::new();
        core::mem::swap(&mut storage.leaves, &mut leaves);
        core::mem::swap(&mut storage.inners, &mut inners);
        FixedNodes {
            leaves: FixedPool::new(filled_up(leaves, LEAVES)),
            inners: FixedPool::new(filled_up(inners, INNERS)),
            marker: PhantomData,
        }
    }
}

impl<'a, K: Key, V, const M: usize> NodeAllocator<K, V, M> for FixedNodes<'a, K, V, M> {
    closed spec fn wf(&self) -> bool {
        self.leaves.wf() && self.inners.wf()
    }

    closed spec fn store(&self) -> Store<K, V, M> {
        Store {
            leaves: self.leaves@.live,
            inners: self.inners@.live,
            raw_leaves: self.leaves@.raw,
            raw_inners: self.inners@.raw,
            leaf_cap: Some(self.leaves@.capacity),
            inner_cap: Some(self.inners@.capacity),
        }
    }

    closed spec fn rooms(&self) -> Rooms {
        Rooms { leaf: Some(self.leaves@.room()), inner: Some(self.inners@.room()) }
    }

    open spec fn endless() -> bool {
        false
    }

    proof fn lemma_live_or_raw(&self) {
        self.leaves.lemma_states();
        self.inners.lemma_states();
    }

    closed spec fn stock(&self) -> Stock {
        Stock { leaf: self.leaves@.supply(), inner: self.inners@.supply() }
    }

    proof fn lemma_room(&self) {
        self.leaves.lemma_count();
        self.inners.lemma_count();
        assert(self.stock().leaf == self.leaves@.supply());
        assert(self.stock().inner == self.inners@.supply());
        assert(!Self::endless());
        assert(self.rooms().leaf == Some(self.leaves@.room()));
        assert(self.store().leaf_cap == Some(self.leaves@.capacity));
    }

    fn leaf_capacity(&self) -> (r: Option<usize>) {
        Some(self.leaves.capacity())
    }

    fn inner_capacity(&self) -> (r: Option<usize>) {
        Some(self.inners.capacity())
    }

    fn leaf_available(&self) -> (r: usize) {
        proof {
            self.leaves.lemma_states();
            assert(self.stock().leaf == self.leaves@.supply());
        }
        self.leaves.available()
    }

    fn inner_available(&self) -> (r: usize) {
        proof {
            self.inners.lemma_states();
            assert(self.stock().inner == self.inners@.supply());
        }
        self.inners.available()
    }

    fn reclaim_all(&mut self) -> (r: bool)
        ensures
            r,
    {
        self.leaves.reclaim();
        self.inners.reclaim();
        true
    }

    fn try_alloc_leaf_uninit(&mut self) -> (r: Result<Addr, AllocError>) {
        proof {
            self.leaves.lemma_states();
        }
        self.leaves.try_take_slot()
    }

    fn try_alloc_inner_uninit(&mut self) -> (r: Result<Addr, AllocError>) {
        proof {
            self.inners.lemma_states();
        }
        self.inners.try_take_slot()
    }

    fn dealloc_leaf_uninit(&mut self, at: Addr) {
        proof {
            self.leaves.lemma_states();
        }
        self.leaves.return_slot(at);
    }

    fn dealloc_inner_uninit(&mut self, at: Addr) {
        proof {
            self.inners.lemma_states();
        }
        self.inners.return_slot(at);
    }

    fn write_leaf(&mut self, at: Addr, leaf: Leaf<K, V, M>) {
        self.leaves.write(at, leaf);
    }

    fn write_inner(&mut self, at: Addr, inner: Inner<K, V, M>) {
        self.inners.write(at, inner);
    }

    fn read_leaf(&mut self, at: Addr) -> (r: Leaf<K, V, M>) {
        self.leaves.read(at)
    }

    fn read_inner(&mut self, at: Addr) -> (r: Inner<K, V, M>) {
        self.inners.read(at)
    }

    fn leaf(&self, at: Addr) -> (r: &Leaf<K, V, M>) {
        self.leaves.get(at)
    }

    fn inner(&self, at: Addr) -> (r: &Inner<K, V, M>) {
        self.inners.get(at)
    }

    fn leaf_mut(&mut self, at: Addr) -> (r: &mut Leaf<K, V, M>) {
        self.leaves.get_mut(at)
    }

    fn inner_mut(&mut self, at: Addr) -> (r: &mut Inner<K, V, M>) {
        self.inners.get_mut(at)
    }
}

} // verus!
