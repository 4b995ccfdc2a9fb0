//! Trees in fixed storage.
use beets::{BPlusSet, BPlusTree, Bound, FixedNodes, NodeAllocator, NodeStorage};
use std::collections::BTreeMap;
use std::sync::Arc;

#[test]
fn a_full_tree_hands_the_pair_back_and_stays_as_it_is() {
    let mut storage: NodeStorage<u64, u64, 3, 1, 0> = NodeStorage::new();
    let mut tree = BPlusTree::try_new_in(FixedNodes::new(&mut storage)).ok().unwrap();
    for k in 1..=3 {
        assert_eq!(tree.try_insert(k, k * 10), Ok(None));
    }
    assert_eq!(tree.try_insert(4, 40), Err((4, 40)));
    assert_eq!(tree.try_insert(0, 0), Err((0, 0)));
    assert!(tree.iter().map(|(k, v)| (*k, *v)).eq([(1, 10), (2, 20), (3, 30)]));
    assert_eq!(tree.len(), 3);
}

#[test]
fn a_present_key_needs_no_room() {
    let mut storage: NodeStorage<u64, u64, 3, 1, 0> = NodeStorage::new();
    let mut tree = BPlusTree::try_new_in(FixedNodes::new(&mut storage)).ok().unwrap();
    for k in 1..=3 {
        tree.try_insert(k, k * 10).unwrap();
    }
    assert_eq!(tree.try_insert(2, 21), Ok(Some(20)));
    assert_eq!(tree.insert(2, 22), Some(21));
    assert_eq!(tree.remove(&1), Some(10));
    assert_eq!(tree.try_insert(4, 40), Ok(None), "a removal makes room");
    assert!(tree.keys().copied().eq([2, 3, 4]));
}

#[test]
fn a_split_needs_a_leaf_and_an_inner_slot() {
    let mut storage: NodeStorage<u64, u64, 3, 2, 0> = NodeStorage::new();
    let mut tree = BPlusTree::try_new_in(FixedNodes::new(&mut storage)).ok().unwrap();
    for k in 1..=3 {
        tree.try_insert(k, k).unwrap();
    }
    assert_eq!(tree.try_insert(4, 4), Err((4, 4)), "there is no slot for a root above two leaves");
    assert_eq!(tree.height(), 0);

    let mut storage: NodeStorage<u64, u64, 3, 2, 1> = NodeStorage::new();
    let mut tree = BPlusTree::try_new_in(FixedNodes::new(&mut storage)).ok().unwrap();
    for k in 1..=4 {
        tree.try_insert(k, k).unwrap();
    }
    assert_eq!(tree.height(), 1);
    assert_eq!(tree.allocator().leaf_available(), 0);
    assert_eq!(tree.allocator().inner_available(), 0);
}

/// Inserts and removes at random until `steps` are done, against a map, and checks that an
/// insertion is refused only when no leaf slot is left.
fn churn<const LEAVES: usize, const INNERS: usize>(domain: u64, steps: usize) -> usize {
    assert_eq!(INNERS, NodeStorage::<u64, u64, 3, LEAVES, INNERS>::worst_case_inners(LEAVES));
    let mut storage: NodeStorage<u64, u64, 3, LEAVES, INNERS> = NodeStorage::new();
    let mut tree = BPlusTree::try_new_in(FixedNodes::new(&mut storage)).ok().unwrap();
    let mut map: BTreeMap<u64, u64> = BTreeMap::new();
    let mut state = 0x9E37_79B9_7F4A_7C15u64;
    let mut refused = 0;
    for step in 0..steps as u64 {
        state ^= state << 13;
        state ^= state >> 7;
        state ^= state << 17;
        let key = (state >> 8) % domain;
        if state % 3 == 0 {
            assert_eq!(tree.remove(&key), map.remove(&key));
        } else {
            match tree.try_insert(key, step) {
                Ok(prior) => assert_eq!(prior, map.insert(key, step)),
                Err(back) => {
                    assert_eq!(back, (key, step));
                    assert_eq!(tree.allocator().leaf_available(), 0);
                    refused += 1;
                }
            }
        }
        assert_eq!(tree.len(), map.len());
    }
    assert!(tree.iter().eq(map.iter()));
    tree.clear();
    assert_eq!(tree.allocator().leaf_available(), LEAVES - 1);
    assert_eq!(tree.allocator().inner_available(), INNERS);
    refused
}

#[test]
fn inner_slots_never_run_out_first() {
    assert!(churn::<1, 0>(8, 500) > 0);
    assert!(churn::<2, 1>(12, 1000) > 0);
    assert!(churn::<8, 7>(40, 4000) > 0);
    assert!(churn::<33, 31>(200, 8000) > 0);
    assert_eq!(churn::<64, 63>(60, 4000), 0, "there is room for all keys");
}

#[test]
fn the_other_operations_work_in_fixed_storage() {
    let mut storage: NodeStorage<u64, u64, 4, 16, 15> = NodeStorage::new();
    let mut tree = BPlusTree::try_new_in(FixedNodes::new(&mut storage)).ok().unwrap();
    for k in (0..24).rev() {
        assert_eq!(tree.try_insert(k, k * 2), Ok(None));
    }
    assert_eq!(tree.get(&5), Some(&10));
    *tree.get_mut(&5).unwrap() = 11;
    assert_eq!(tree.first_key_value(), Some((&0, &0)));
    assert_eq!(tree.last_key_value(), Some((&23, &46)));
    assert!(tree.range(Bound::Included(4), Bound::Excluded(7)).map(|(_, v)| *v).eq([8, 11, 12]));
    assert_eq!(tree.pop_first(), Some((0, 0)));
    assert_eq!(tree.pop_last(), Some((23, 46)));
    tree.clear();
    assert!(tree.is_empty());
    assert_eq!(tree.try_insert(1, 1), Ok(None));
}

#[test]
fn storage_can_be_used_again() {
    let mut storage: NodeStorage<u64, u64, 3, 2, 1> = NodeStorage::new();
    for round in 0..3 {
        let mut tree = BPlusTree::try_new_in(FixedNodes::new(&mut storage)).ok().unwrap();
        for k in 0..4 {
            assert_eq!(tree.try_insert(k, round), Ok(None));
        }
    }
}

/// Ten leaves of at least two keys each hold twenty keys, in whatever order these come.
#[test]
fn a_set_in_storage_for_twenty_keys_takes_twenty() {
    const LEAVES: usize = 10;
    const INNERS: usize = 8;
    assert_eq!(INNERS, NodeStorage::<u64, (), 3, LEAVES, INNERS>::worst_case_inners(LEAVES));
    for step in [1u64, 3, 7, 9, 11, 13, 17, 19] {
        let mut storage: NodeStorage<u64, (), 3, LEAVES, INNERS> = NodeStorage::new();
        let mut set = BPlusSet::new_in(FixedNodes::new(&mut storage));
        set.extend((0..10u64).map(|i| i * step % 20));
        for k in 0..20u64 {
            set.insert(k);
        }
        assert_eq!(set.replace(7), Some(7));
        assert!(set.iter().copied().eq(0..20), "step = {step}");
    }
}

#[test]
fn clearing_a_tree_in_fixed_storage_drops_every_value() {
    let live = Arc::new(());
    let mut storage: NodeStorage<u64, Arc<()>, 3, 4, 3> = NodeStorage::new();
    let mut tree = BPlusTree::try_new_in(FixedNodes::new(&mut storage)).ok().unwrap();
    for k in 0..5u64 {
        tree.try_insert(k, Arc::clone(&live)).unwrap();
    }
    assert_eq!(Arc::strong_count(&live), 6);
    tree.clear();
    assert_eq!(Arc::strong_count(&live), 1, "every value must be dropped at once");
    assert!(tree.is_empty());
}

#[test]
fn dropping_a_tree_in_fixed_storage_drops_every_value() {
    let live = Arc::new(());
    let mut storage: NodeStorage<u64, Arc<()>, 3, 4, 3> = NodeStorage::new();
    for round in 0..3u64 {
        let mut tree = BPlusTree::try_new_in(FixedNodes::new(&mut storage)).ok().unwrap();
        for k in 0..5 {
            assert!(tree.try_insert(round + k, Arc::clone(&live)).is_ok());
        }
        assert_eq!(Arc::strong_count(&live), 6);
        drop(tree);
        assert_eq!(Arc::strong_count(&live), 1, "the tree's drop must drop every value");
    }
}
