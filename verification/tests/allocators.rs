//! The allocators: fixed storage, boxes, and reservations.
use beets::allocator::reserve::{Reservation, Reserved};
use beets::allocator::slab::SlabAlloc;
use beets::inner::Inner;
use beets::leaf::Leaf;
use beets::{AllocError, BPlusTree, Boxes, FixedNodes, Global, NodeAllocator, NodeStorage, Slabs};

type L = Leaf<u64, u64, 3>;
type I = Inner<u64, u64, 3>;

/// A leaf of one pair.
fn leaf(k: u64) -> L {
    Leaf::from_first_item(None, k, k * 10)
}

#[test]
fn fixed_storage_hands_out_what_it_has_and_then_reports() {
    let mut storage: NodeStorage<u64, u64, 3, 2, 1> = NodeStorage::new();
    let mut nodes = FixedNodes::new(&mut storage);
    assert_eq!((nodes.leaf_capacity(), nodes.inner_capacity()), (Some(2), Some(1)));
    assert_eq!((nodes.leaf_available(), nodes.inner_available()), (2, 1));
    let a = nodes.try_alloc_leaf_uninit().unwrap();
    let b = nodes.try_alloc_leaf_uninit().unwrap();
    assert_ne!(a, b);
    assert_eq!(nodes.try_alloc_leaf_uninit(), Err(AllocError));
    assert!(nodes.try_alloc_inner_uninit().is_ok());
    assert_eq!(nodes.try_alloc_inner_uninit(), Err(AllocError));
    assert_eq!((nodes.leaf_available(), nodes.inner_available()), (0, 0));
}

#[test]
fn fixed_storage_reuses_the_slot_retired_last() {
    let mut storage: NodeStorage<u64, u64, 3, 3, 1> = NodeStorage::new();
    let mut nodes = FixedNodes::new(&mut storage);
    let a = nodes.alloc_leaf(leaf(1));
    let b = nodes.alloc_leaf(leaf(2));
    assert_eq!(nodes.dealloc_leaf(a).first_key(), &1);
    assert_eq!(nodes.dealloc_leaf(b).first_key(), &2);
    assert_eq!(nodes.leaf_available(), 3);
    assert_eq!(nodes.alloc_leaf(leaf(3)), b, "last retired, first reused");
    assert_eq!(nodes.alloc_leaf(leaf(4)), a, "then the one before");
    let c = nodes.alloc_leaf(leaf(5));
    assert!(c != a && c != b, "then one that was never used");
    assert_eq!(nodes.leaf(a).get(&4), Some(&40));
    assert_eq!(nodes.leaf(b).get(&3), Some(&30));
}

#[test]
fn a_refused_node_is_handed_back() {
    let mut storage: NodeStorage<u64, u64, 3, 1, 0> = NodeStorage::new();
    let mut nodes = FixedNodes::new(&mut storage);
    let at = nodes.alloc_leaf(leaf(1));
    match nodes.try_alloc_leaf(leaf(2)) {
        Ok(_) => panic!("there is only one slot"),
        Err(back) => assert_eq!(back.get(&2), Some(&20)),
    }
    let inner: I = Inner::from_first_child(at);
    match nodes.try_alloc_inner(inner) {
        Ok(_) => panic!("there is no slot"),
        Err(back) => assert_eq!(back.len(), 1),
    }
}

#[test]
fn reclaiming_fixed_storage_makes_every_slot_available() {
    let mut storage: NodeStorage<u64, u64, 3, 2, 2> = NodeStorage::new();
    let mut nodes = FixedNodes::new(&mut storage);
    nodes.alloc_leaf(leaf(1));
    nodes.alloc_leaf(leaf(2));
    assert!(nodes.reclaim_all());
    assert_eq!((nodes.leaf_available(), nodes.inner_available()), (2, 2));
    assert!(nodes.try_alloc_leaf(leaf(3)).is_ok());
}

#[test]
fn availability_is_asked_by_count() {
    let mut storage: NodeStorage<u64, u64, 3, 2, 1> = NodeStorage::new();
    let nodes = FixedNodes::new(&mut storage);
    assert!(nodes.leaves_available(2));
    assert!(!nodes.leaves_available(3));
    assert!(nodes.inners_available(1));
    assert!(!nodes.inners_available(2));
    let slabs: Slabs<u64, u64, 3> = Slabs::default();
    assert!(slabs.leaves_available(1_000_000));
    assert_eq!(slabs.leaf_capacity(), None);
}

#[test]
fn a_reservation_takes_the_slots_and_gives_them_back() {
    let mut storage: NodeStorage<u64, u64, 3, 2, 3> = NodeStorage::new();
    let mut nodes = FixedNodes::new(&mut storage);
    let mut slots = nodes.reserve(2).unwrap();
    assert_eq!((nodes.leaf_available(), nodes.inner_available()), (1, 1));
    assert!(!slots.is_empty());
    slots.release(&mut nodes);
    assert!(slots.is_empty());
    assert_eq!((nodes.leaf_available(), nodes.inner_available()), (2, 3));
}

#[test]
fn a_reservation_that_cannot_be_met_takes_nothing() {
    let mut storage: NodeStorage<u64, u64, 3, 1, 2> = NodeStorage::new();
    let mut nodes = FixedNodes::new(&mut storage);
    assert!(nodes.reserve(3).is_none());
    assert_eq!((nodes.leaf_available(), nodes.inner_available()), (1, 2));
    nodes.alloc_leaf(leaf(1));
    assert!(nodes.reserve(0).is_none(), "no leaf is left");
    assert_eq!(nodes.inner_available(), 2);
}

#[test]
fn slots_are_reserved_one_by_one_and_taken_from_the_bag() {
    let mut storage: NodeStorage<u64, u64, 3, 1, 1> = NodeStorage::new();
    let mut nodes = FixedNodes::new(&mut storage);
    let mut slots = Reservation::new();
    assert!(slots.is_empty());
    assert_eq!(slots.reserve_leaf(&mut nodes), Ok(()));
    assert_eq!(slots.reserve_leaf(&mut nodes), Err(AllocError));
    assert_eq!(slots.reserve_inner(&mut nodes), Ok(()));
    assert_eq!(slots.reserve_inner(&mut nodes), Err(AllocError));
    assert!(slots.take_leaf().is_some());
    assert!(slots.take_leaf().is_none());
    assert!(slots.take_inner().is_some());
    assert!(slots.take_inner().is_none());
    assert!(slots.is_empty());
}

#[test]
fn a_reserved_view_draws_from_the_bag_and_retires_to_the_backing() {
    let mut storage: NodeStorage<u64, u64, 3, 2, 2> = NodeStorage::new();
    let mut nodes = FixedNodes::new(&mut storage);
    let mut slots = nodes.reserve(1).unwrap();
    {
        let mut view = Reserved::new(&mut slots, &mut nodes);
        assert_eq!(view.leaf_capacity::<u64, u64, 3>(), Some(2));
        assert_eq!(view.leaf_available::<u64, u64, 3>(), 1);
        let at = view.try_alloc_leaf_uninit().unwrap();
        view.dealloc_leaf_uninit::<u64, u64, 3>(at);
        assert_eq!(view.leaf_available::<u64, u64, 3>(), 2);
        let at = view.try_alloc_inner_uninit().unwrap();
        view.dealloc_inner_uninit::<u64, u64, 3>(at);
        assert_eq!(view.inner_available::<u64, u64, 3>(), 2);
    }
    assert!(slots.is_empty());
}

#[test]
fn a_slab_pool_reuses_before_it_bumps_and_bumps_before_it_grows() {
    let mut pool: SlabAlloc<u64> = SlabAlloc::new_in(2, Global);
    let a = pool.allocate(1);
    let b = pool.allocate(2);
    let c = pool.allocate(3);
    assert_eq!((a.slab, a.slot, b.slot, c.slab, c.slot), (0, 0, 1, 1, 0));
    assert_eq!(pool.deallocate(a), 1);
    assert_eq!(pool.deallocate(c), 3);
    assert_eq!(pool.allocate(4), c);
    assert_eq!(pool.allocate(5), a);
    let d = pool.allocate(6);
    assert_eq!((d.slab, d.slot), (1, 1));
}

#[test]
fn boxes_never_run_out_and_forget_nothing() {
    let mut boxes: Boxes<u64, u64, 3> = Boxes::default();
    assert_eq!((boxes.leaf_capacity(), boxes.leaf_available()), (None, 0));
    let a = boxes.alloc_leaf(leaf(1));
    let b = boxes.alloc_leaf(leaf(2));
    assert_ne!(a, b);
    assert_eq!(boxes.leaf(a).get(&1), Some(&10));
    assert_eq!(boxes.dealloc_leaf(a).get(&1), Some(&10));
    assert_eq!(boxes.leaf(b).get(&2), Some(&20));
    assert!(!boxes.reclaim_all(), "nodes are freed one by one");
}

#[test]
fn a_tree_in_boxes_clears_node_by_node() {
    let mut tree: BPlusTree<u64, u64, 3, Boxes<u64, u64, 3>> = BPlusTree::new();
    for k in 0..200 {
        tree.insert(k, k);
    }
    assert!(tree.height() >= 4);
    tree.clear();
    assert_eq!((tree.len(), tree.height()), (0, 0));
    tree.insert(1, 2);
    assert_eq!(tree.get(&1), Some(&2));
}

#[test]
fn a_tree_needs_no_more_inner_nodes_than_the_worst_case() {
    for n in [1u64, 2, 5, 20, 100, 333] {
        let mut tree: BPlusTree<u64, u64, 3> = BPlusTree::new();
        for k in 0..n {
            tree.insert(k, k);
        }
        let (leaves, inners) = count(&tree, tree.root(), tree.height());
        assert!(inners <= NodeStorage::<u64, u64, 3, 1, 0>::worst_case_inners(leaves));
        assert!(tree.height() as usize <= beets::max_height(3));
    }
}

/// The leaves and inner nodes below `at`.
fn count(
    tree: &BPlusTree<u64, u64, 3>,
    at: beets::allocator::Addr,
    height: u8,
) -> (usize, usize) {
    if height == 0 {
        return (1, 0);
    }
    let mut total = (0, 1);
    for child in tree.allocator().inner(at).children_ref() {
        let (l, i) = count(tree, *child, height - 1);
        total = (total.0 + l, total.1 + i);
    }
    total
}

#[test]
fn storage_can_be_borrowed_again_with_all_its_slots() {
    let mut storage: NodeStorage<u64, u64, 3, 2, 1> = NodeStorage::new();
    for _ in 0..3 {
        let mut nodes = FixedNodes::new(&mut storage);
        assert_eq!((nodes.leaf_available(), nodes.inner_available()), (2, 1));
        nodes.alloc_leaf(leaf(1));
        assert_eq!(nodes.leaf_available(), 1);
    }
}

#[test]
fn a_slab_holds_as_many_nodes_as_its_budget_allows() {
    let mut slabs: Slabs<u64, u64, 3> = Slabs::new_in(Global);
    assert_eq!((slabs.leaf_available(), slabs.inner_available()), (0, 0));
    let a = slabs.alloc_leaf(leaf(1));
    let bytes = std::mem::size_of::<L>() + 3 * 16;
    let batch = 65536 / bytes;
    assert_eq!(slabs.leaf_available(), batch - 1, "a new slab, less the slot that was taken");
    slabs.dealloc_leaf(a);
    assert_eq!(slabs.leaf_available(), batch, "a retired slot awaits reuse");
    for k in 0..2 * batch as u64 {
        slabs.alloc_leaf(leaf(k));
    }
    assert_eq!(slabs.leaf_available(), 0);
    assert!(slabs.reclaim_all());
    assert_eq!(slabs.leaf_available(), batch, "the newest slab is kept, and empty");
    assert_eq!(slabs.inner_available(), 0, "no inner slab was ever made");
}

#[test]
fn a_node_beyond_the_budget_has_a_slab_of_its_own() {
    let mut slabs: Slabs<u64, [u64; 4096], 3> = Slabs::new();
    slabs.alloc_leaf(Leaf::from_first_item(None, 1, [0; 4096]));
    assert_eq!(slabs.leaf_available(), 0);
}
