//! The figures that follow from a key size, a fanout or a count of leaves.
use beets::{fanout, key_fanout, max_height, max_levels, AllocError, NodeStorage};

#[test]
fn fanout_of_a_key_size() {
    assert_eq!(fanout(8), 32);
    assert_eq!(fanout(1), 56);
    assert_eq!(fanout(127), 3);
    assert_eq!(fanout(121), 3);
    assert_eq!(fanout(16), 21);
}

#[test]
fn fanout_of_a_key_type() {
    assert_eq!(key_fanout::<u64>(), 32);
    assert_eq!(key_fanout::<u8>(), 56);
    assert_eq!(key_fanout::<[u8; 121]>(), 3);
}

#[test]
fn heights_of_a_fanout() {
    assert_eq!(max_height(3), 62);
    assert_eq!(max_height(4), 62);
    assert_eq!(max_height(7), 31);
    assert_eq!(max_height(32), 15);
    assert_eq!(max_height(56), 15);
    assert_eq!(max_height(64), 12);
    assert_eq!(max_levels(32), 16);
    assert_eq!(max_levels(3), 63);
}

#[test]
fn inner_slots_for_a_count_of_leaves() {
    type Store<const M: usize> = NodeStorage<u64, u64, M, 1, 0>;
    assert_eq!(Store::<3>::worst_case_inners(0), 0);
    assert_eq!(Store::<3>::worst_case_inners(1), 0);
    assert_eq!(Store::<3>::worst_case_inners(2), 1);
    assert_eq!(Store::<3>::worst_case_inners(3), 1);
    assert_eq!(Store::<3>::worst_case_inners(4), 3);
    assert_eq!(Store::<3>::worst_case_inners(8), 7);
    assert_eq!(Store::<3>::worst_case_inners(9), 7);
    assert_eq!(Store::<32>::worst_case_inners(31), 1);
    assert_eq!(Store::<32>::worst_case_inners(32), 3);
    assert_eq!(Store::<32>::worst_case_inners(1000), 62 + 3 + 1);
}

#[test]
fn the_error_says_what_happened() {
    assert_eq!(AllocError.message(), "node allocator exhausted");
}
