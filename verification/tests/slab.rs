//! The slab arena, alone and below a tree.
use beets::allocator::slab::SlabAlloc;
use beets::allocator::{Addr, NodeAllocator};
use beets::{BPlusTree, Slabs};
use std::sync::atomic::{AtomicIsize, Ordering::Relaxed};
use std::sync::Arc;

/// The fanout of a `u64` key.
const M: usize = 32;

/// The fewest entries that a node other than the root may hold.
const MIN: usize = 16;

/// The value stored under `k`.
fn v(k: u64) -> u64 {
    k.wrapping_mul(31).wrapping_add(7)
}

/// The keys `0..n` in a scrambled order.
fn shuffled(n: u64) -> Vec<u64> {
    let mut keys: Vec<u64> = (0..n).collect();
    let mut state = 0x2545_F491_4F6C_DD1Du64;
    for i in (1..keys.len()).rev() {
        state ^= state << 13;
        state ^= state >> 7;
        state ^= state << 17;
        keys.swap(i, (state % (i as u64 + 1)) as usize);
    }
    keys
}

/// A value that counts how many of its kind are alive.
struct Counted {
    live: Arc<AtomicIsize>,
}

impl Counted {
    fn new(_val: u64, live: &Arc<AtomicIsize>) -> Self {
        live.fetch_add(1, Relaxed);
        Counted { live: Arc::clone(live) }
    }
}

impl Drop for Counted {
    fn drop(&mut self) {
        self.live.fetch_sub(1, Relaxed);
    }
}

/// Checks a tree's nodes: occupancy, key order, separators, the leaf chain, and the count.
fn check(tree: &BPlusTree<u64, u64, M>) {
    let mut leaves: Vec<Addr> = Vec::new();
    check_node(tree, tree.root(), tree.height(), true, None, None, &mut leaves);
    let mut count = 0;
    for (i, at) in leaves.iter().enumerate() {
        let leaf = tree.allocator().leaf(*at);
        count += leaf.len();
        assert_eq!(leaf.next(), leaves.get(i + 1).copied(), "the chain must follow child order");
    }
    assert_eq!(tree.len(), count, "len must count the pairs");
}

fn check_node(
    tree: &BPlusTree<u64, u64, M>,
    at: Addr,
    height: u8,
    is_root: bool,
    lo: Option<u64>,
    hi: Option<u64>,
    leaves: &mut Vec<Addr>,
) {
    if height == 0 {
        let leaf = tree.allocator().leaf(at);
        let min = if is_root { 0 } else { MIN };
        assert!((min..=M).contains(&leaf.len()), "occupancy of a leaf: {}", leaf.len());
        let keys = leaf.keys_ref();
        assert!(keys.windows(2).all(|w| w[0] < w[1]), "keys must ascend: {keys:?}");
        assert!(keys.iter().all(|k| lo.map_or(true, |b| b <= *k)));
        assert!(keys.iter().all(|k| hi.map_or(true, |b| *k < b)));
        leaves.push(at);
        return;
    }
    let node = tree.allocator().inner(at);
    let min = if is_root { 2 } else { MIN };
    assert!((min..=M).contains(&node.len()), "occupancy of an inner node: {}", node.len());
    let keys = node.keys_ref();
    assert_eq!(keys.len() + 1, node.len());
    assert!(keys.windows(2).all(|w| w[0] < w[1]), "separators must ascend: {keys:?}");
    for (i, child) in node.children_ref().iter().enumerate() {
        let below = if i == 0 { lo } else { Some(keys[i - 1]) };
        let above = if i == keys.len() { hi } else { Some(keys[i]) };
        check_node(tree, *child, height - 1, false, below, above, leaves);
    }
}

/// An allocator that never allocated must drop cleanly, freeing
/// nothing.
#[test]
fn an_unused_allocator_drops_cleanly() {
    drop(SlabAlloc::<u64>::new(4));
}

/// `allocate` moves the value in; `deallocate` moves exactly that
/// value back out.
#[test]
fn allocate_then_deallocate_round_trips_the_value() {
    let mut alloc = SlabAlloc::<u64>::new(4);
    let p = alloc.allocate(0xBEE7);
    assert!(alloc.contains(p), "a just-allocated pointer must test as contained");
    let got = alloc.deallocate(p);
    assert_eq!(got, 0xBEE7, "deallocate must return exactly the value allocate moved in");
}

/// The stable-address contract across growth: fill several slabs,
/// then revisit every slot — each must still sit at its original
/// address (checked by reading its own value back through the
/// original pointer) and no two slots may share an address.
#[test]
fn addresses_stay_stable_and_distinct_across_slab_growth() {
    const CAP: usize = 4;
    const N: u64 = 3 * CAP as u64 + 1;

    let mut alloc = SlabAlloc::<u64>::new(CAP);
    let ptrs: Vec<_> = (0..N).map(|k| alloc.allocate(v(k))).collect();

    for (i, a) in ptrs.iter().enumerate() {
        for b in &ptrs[i + 1..] {
            assert_ne!(a, b, "every live slot must have its own address");
        }
    }
    for (k, p) in ptrs.iter().enumerate() {
        let got = *alloc.get(*p);
        assert_eq!(got, v(k as u64), "slot {k} must still hold its value after growth");
        assert!(alloc.contains(*p), "live pointer {k} must test as contained");
    }

    for p in ptrs {
        alloc.deallocate(p);
    }
}

/// Values smaller than a pointer must satisfy the same contracts —
/// distinct stable addresses and full round-trip across several
/// slabs of odd capacity.
#[test]
fn small_values_round_trip_across_slab_growth() {
    const CAP: usize = 5;
    const N: u32 = 3 * CAP as u32 + 1;

    let mut alloc = SlabAlloc::<u32>::new(CAP);
    let ptrs: Vec<_> = (0..N).map(|k| alloc.allocate(k)).collect();

    for (i, a) in ptrs.iter().enumerate() {
        for b in &ptrs[i + 1..] {
            assert_ne!(a, b, "every live slot must have its own address");
        }
    }

    for (k, p) in ptrs.iter().enumerate() {
        let got = *alloc.get(*p);
        assert_eq!(got, k as u32, "slot {k} must still hold its value after growth");
    }
    for p in ptrs {
        alloc.deallocate(p);
    }
}

/// The free list is consulted before the virgin tail: a freed slot's
/// address comes back on the very next allocation, even though
/// never-used slots remain.
#[test]
fn a_freed_slot_is_reused_before_any_virgin_slot() {
    let mut alloc = SlabAlloc::<u64>::new(8);
    let a = alloc.allocate(1);
    let b = alloc.allocate(2);

    alloc.deallocate(b);
    let c = alloc.allocate(3);
    assert_eq!(c, b, "a freed slot must be reused before any virgin slot");

    alloc.deallocate(a);
    alloc.deallocate(c);
}

/// Freed slots come back newest-first: the free list is a stack, so
/// two frees replay in reverse order.
#[test]
fn freed_slots_are_reused_most_recent_first() {
    let mut alloc = SlabAlloc::<u64>::new(8);
    let a = alloc.allocate(1);
    let b = alloc.allocate(2);

    alloc.deallocate(a);
    alloc.deallocate(b);
    assert_eq!(alloc.allocate(3), b, "the most recently freed slot must come back first");
    assert_eq!(alloc.allocate(4), a, "the earlier freed slot must come back second");

    alloc.deallocate(a);
    alloc.deallocate(b);
}

/// Draining the free list must end cleanly: after the last freed
/// slot is popped, the next allocation falls through to the virgin
/// tail. Exercises the pop-past-the-tail step the reuse tests above
/// stop short of — the tail slot is the one that was freed into an
/// EMPTY list, and popping it must leave a well-formed (empty) list
/// behind, whatever bytes the slot's moved-out value left in its
/// storage.
#[test]
fn a_drained_free_list_falls_through_to_virgin_slots() {
    let mut alloc = SlabAlloc::<u64>::new(8);
    let a = alloc.allocate(0xDEAD_BEEF);
    alloc.deallocate(a);

    // Pop the lone freed slot; the free list is now drained.
    let b = alloc.allocate(2);
    assert_eq!(b, a, "the freed slot must be reused before any virgin slot");

    // The step past the tail: this allocation must come from the
    // virgin bump window, at a fresh address.
    let c = alloc.allocate(3);
    assert_ne!(c, b, "both slots are live — they must not share an address");

    alloc.deallocate(b);
    alloc.deallocate(c);
}

/// Teardown after mixed alloc/dealloc traffic: every value drops
/// exactly once.
#[test]
fn mixed_traffic_teardown_drops_every_value_exactly_once() {
    const N: usize = 20;
    let live = Arc::new(AtomicIsize::new(0));
    let mut alloc = SlabAlloc::<Counted>::new(4);

    let mut ptrs = Vec::new();
    for k in 0..N {
        ptrs.push(alloc.allocate(Counted::new(k as u64, &live)));
    }
    // Punch holes, then refill some of them.
    for i in (0..N).step_by(2) {
        drop(alloc.deallocate(ptrs[i]));
    }
    for k in N..N + 5 {
        ptrs.push(alloc.allocate(Counted::new(k as u64, &live)));
    }

    // Values first, then the allocator — the teardown order the
    // trait contract demands.
    for i in (1..N).step_by(2).chain(N..N + 5) {
        drop(alloc.deallocate(ptrs[i]));
    }
    drop(alloc);

    assert_eq!(
        live.load(Relaxed),
        0,
        "every value must drop exactly once (positive = leak, negative = double-drop)"
    );
}

/// An arena-backed tree supports the full mutation cycle — insert,
/// probe, remove, invariant check, drop — exactly like the
/// heap-backed tree.
#[test]
fn an_arena_backed_tree_supports_the_full_mutation_cycle() {
    let mut tree: BPlusTree<u64, u64, M, Slabs<u64, u64, M>> = BPlusTree::new_in(Slabs::new());

    let keys = shuffled(512);
    for &k in &keys {
        tree.insert(k, v(k));
    }
    check(&tree);
    for &k in &keys {
        assert_eq!(tree.get(&k), Some(&v(k)), "key {k} must be present after insert");
    }

    for &k in keys.iter().take(256) {
        assert_eq!(tree.remove(&k), Some(v(k)), "key {k} must remove exactly once");
    }
    check(&tree);
    assert_eq!(tree.len(), 256);
}

/// An arena-backed tree bulk-loads through `from_sorted_iter_in` and
/// satisfies the structural invariants.
#[test]
fn an_arena_backed_tree_bulk_loads() {
    const N: u64 = 1_000;
    let tree: BPlusTree<u64, u64, M, Slabs<u64, u64, M>> =
        BPlusTree::from_sorted_iter_in((0..N).map(|k| (k, v(k))), Slabs::new());

    check(&tree);
    assert_eq!(tree.len(), N as usize);
    assert!(tree.iter().map(|(k, _)| *k).eq(0..N), "iteration must replay the loaded keys");
}

/// Arena-backed values drop exactly once through the whole tree
/// lifecycle, including `clear` and the final drop.
#[test]
fn an_arena_backed_tree_owns_every_value_exactly_once() {
    let live = Arc::new(AtomicIsize::new(0));
    let mut tree: BPlusTree<u64, Counted, M, Slabs<u64, Counted, M>> =
        BPlusTree::new_in(Slabs::new());

    for k in shuffled(300) {
        tree.insert(k, Counted::new(k, &live));
    }
    assert_eq!(live.load(Relaxed), 300, "one live value per inserted key");

    for k in 0..150 {
        drop(tree.remove(&k));
    }
    assert_eq!(live.load(Relaxed), 150, "each removed value must drop exactly once");

    tree.clear();
    assert_eq!(live.load(Relaxed), 0, "clear must drop every remaining value exactly once");

    for k in shuffled(100) {
        tree.insert(k, Counted::new(k, &live));
    }
    drop(tree);
    assert_eq!(
        live.load(Relaxed),
        0,
        "the tree's drop must drop every value exactly once \
         (positive = leak, negative = double-drop)"
    );
}

/// `clear_all` forgets every outstanding slot at once: the pool is
/// immediately reusable, and its eventual drop is clean.
#[test]
fn clear_all_resets_a_grown_pool_for_reuse() {
    const CAP: usize = 4;
    let mut alloc = SlabAlloc::<u64>::new(CAP);
    for k in 0..(3 * CAP as u64 + 1) {
        alloc.allocate(v(k));
    }

    alloc.clear_all();

    let p = alloc.allocate(0xBEE7);
    assert!(alloc.contains(p), "a cleared pool must hand out contained slots again");
    let got = alloc.deallocate(p);
    assert_eq!(got, 0xBEE7, "a cleared pool must round-trip values like a new one");
}

/// `clear_all` supersedes all prior slot state: slots on the free
/// list and slots still live at the call are indistinguishable
/// afterward — fresh allocations are distinct, hold their values,
/// and retire cleanly.
#[test]
fn clear_all_supersedes_the_free_list() {
    let mut alloc = SlabAlloc::<u64>::new(4);
    let first: Vec<_> = (0..6u64).map(|k| alloc.allocate(k)).collect();
    alloc.deallocate(first[1]);
    alloc.deallocate(first[4]);

    alloc.clear_all();

    let fresh: Vec<_> = (0..6u64).map(|k| alloc.allocate(100 + k)).collect();
    for (i, a) in fresh.iter().enumerate() {
        for b in &fresh[i + 1..] {
            assert_ne!(a, b, "every post-clear slot must have its own address");
        }
    }
    for (i, p) in fresh.iter().enumerate() {
        let got = *alloc.get(*p);
        assert_eq!(got, 100 + i as u64, "post-clear slot {i} must hold its fresh value");
    }
    for p in fresh {
        alloc.deallocate(p);
    }
}

/// A value that counts how often one of its kind was dropped.
struct Loud {
    _x: u64,
    drops: Arc<AtomicIsize>,
}

impl Drop for Loud {
    fn drop(&mut self) {
        self.drops.fetch_add(1, Relaxed);
    }
}

/// `clear_all` reclaims memory ONLY: values still resident in slots
/// are forgotten, never read or dropped — value teardown is the
/// caller's job, before the call. Neither the reset nor the pool's
/// own drop may run a resident value's drop glue.
#[test]
fn clear_all_never_drops_resident_values() {
    let drops = Arc::new(AtomicIsize::new(0));
    let mut alloc = SlabAlloc::<Loud>::new(4);
    for k in 0..10 {
        alloc.allocate(Loud { _x: k, drops: Arc::clone(&drops) });
    }

    alloc.clear_all();
    assert_eq!(drops.load(Relaxed), 0, "clear_all must not drop resident values");

    drop(alloc);
    assert_eq!(drops.load(Relaxed), 0, "the pool's drop must not drop them either");
}

/// Dropping the allocator reclaims slot memory only: a value the
/// caller never retired must NOT be dropped by the allocator.
#[test]
fn dropping_the_allocator_never_drops_still_live_values() {
    let drops = Arc::new(AtomicIsize::new(0));
    let mut alloc = SlabAlloc::<Loud>::new(4);
    let _p = alloc.allocate(Loud { _x: 7, drops: Arc::clone(&drops) });

    drop(alloc);
    assert_eq!(
        drops.load(Relaxed),
        0,
        "drop reclaims slot memory only — an unretired value must not be dropped \
         (its leak is the caller's teardown bug, not the allocator's)"
    );
}

/// `contains` accepts every live slot, across several slabs, and rejects what lies beyond them.
#[test]
fn contains_accepts_the_live_slots_of_every_slab() {
    const CAP: usize = 4;
    let mut alloc = SlabAlloc::<u64>::new(CAP);
    let ptrs: Vec<_> = (0..3 * CAP as u64).map(|k| alloc.allocate(k)).collect();
    for (i, p) in ptrs.iter().enumerate() {
        assert!(alloc.contains(*p), "live slot {i} must be accepted");
    }
    assert!(!alloc.contains(Addr { slab: 3, slot: 0 }), "there is no fourth slab");
    assert!(!alloc.contains(Addr { slab: 0, slot: CAP }), "a slab has no slot behind its last");
    for p in ptrs {
        alloc.deallocate(p);
    }
}

/// Clearing a tree drops its values, whatever the allocator does with its slots.
#[test]
fn clearing_an_arena_backed_tree_drops_every_value() {
    let live = Arc::new(AtomicIsize::new(0));
    let mut tree: BPlusTree<u64, Counted, M, Slabs<u64, Counted, M>> =
        BPlusTree::new_in(Slabs::new());
    for k in 0..500 {
        tree.insert(k, Counted::new(k, &live));
    }
    tree.clear();
    assert_eq!(live.load(Relaxed), 0, "clear must drop every value exactly once");
    tree.insert(1, Counted::new(1, &live));
    assert_eq!(tree.len(), 1, "a cleared tree must take pairs again");
    drop(tree);
    assert_eq!(live.load(Relaxed), 0, "the tree's drop must drop what came after");
}

/// `clear_all` on a never-used pool is a harmless no-op: nothing to
/// forget, and the pool allocates normally afterward.
#[test]
fn clear_all_on_a_virgin_pool_is_harmless() {
    let mut alloc = SlabAlloc::<u64>::new(4);
    alloc.clear_all();

    let p = alloc.allocate(7);
    let got = alloc.deallocate(p);
    assert_eq!(got, 7, "a cleared virgin pool must allocate like a new one");
}
