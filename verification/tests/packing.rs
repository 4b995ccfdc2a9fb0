//! How densely a bulk load packs a tree.
use beets::allocator::Addr;
use beets::{BPlusTree, NodeAllocator};

type Small = BPlusTree<u64, u64, 3>;

/// The sizes of the nodes on every level, from the root down, each level left to right.
fn sizes(tree: &Small) -> Vec<Vec<usize>> {
    let mut levels = Vec::new();
    let mut nodes: Vec<Addr> = vec![tree.root()];
    for height in (0..=tree.height()).rev() {
        if height == 0 {
            levels.push(nodes.iter().map(|a| tree.allocator().leaf(*a).len()).collect());
        } else {
            levels.push(nodes.iter().map(|a| tree.allocator().inner(*a).len()).collect());
            nodes = nodes
                .iter()
                .flat_map(|a| tree.allocator().inner(*a).children_ref().to_vec())
                .collect();
        }
    }
    levels
}

#[test]
fn all_nodes_of_a_level_but_the_last_two_are_full() {
    for n in 0..400u64 {
        let tree: Small = BPlusTree::from_sorted_iter((0..n).map(|k| (k, k)));
        for level in sizes(&tree) {
            let sure = level.len().saturating_sub(2);
            assert!(level[..sure].iter().all(|size| *size == 3), "n = {n}: {level:?}");
            if level.len() > 1 {
                assert!(level.iter().all(|size| *size >= 2), "n = {n}: {level:?}");
            }
        }
    }
}

#[test]
fn a_short_tail_borrows_from_its_neighbour() {
    let tree: Small = BPlusTree::from_sorted_iter((0..7u64).map(|k| (k, k)));
    assert_eq!(sizes(&tree), vec![vec![3], vec![3, 2, 2]]);
    let tree: Small = BPlusTree::from_sorted_iter((0..10u64).map(|k| (k, k)));
    assert_eq!(sizes(&tree), vec![vec![2], vec![2, 2], vec![3, 3, 2, 2]]);
    let tree: Small = BPlusTree::from_sorted_iter((0..27u64).map(|k| (k, k)));
    assert_eq!(sizes(&tree), vec![vec![3], vec![3, 3, 3], vec![3; 9]]);
}

/// How `n` things are spread over nodes of three.
fn spread(n: usize) -> Vec<usize> {
    let k = n.div_ceil(3);
    let mut sizes = vec![3; k];
    if k > 0 {
        sizes[k - 1] = n - 3 * (k - 1);
    }
    if k > 1 && sizes[k - 1] < 2 {
        sizes[k - 1] += 1;
        sizes[k - 2] -= 1;
    }
    sizes
}

#[test]
fn every_level_takes_as_few_nodes_as_it_can() {
    for n in 1..400usize {
        let tree: Small = BPlusTree::from_sorted_iter((0..n as u64).map(|k| (k, k)));
        let mut below = n;
        for level in sizes(&tree).iter().rev() {
            assert_eq!(*level, spread(below), "n = {n}");
            below = level.len();
        }
        assert_eq!(below, 1, "n = {n}");
    }
}

#[test]
fn a_loaded_tree_is_as_low_as_it_can_be() {
    for n in 1..400u64 {
        let tree: Small = BPlusTree::from_sorted_iter((0..n).map(|k| (k, k)));
        let h = tree.height() as u32;
        assert!(n <= 3u64.pow(h + 1), "n = {n}");
        assert!(h == 0 || 3u64.pow(h) < n, "n = {n}");
    }
    let tree: Small = BPlusTree::from_sorted_iter((0..0u64).map(|k| (k, k)));
    assert_eq!(sizes(&tree), vec![vec![0]]);
}
