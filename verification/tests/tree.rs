//! The map operations, against expected values and against a reference map.
use beets::{BPlusTree, Bound, Boxes, NodeAllocator, Slabs};
use std::collections::BTreeMap;

/// A tree of small fanout, so that a few keys already make several levels.
type Small = BPlusTree<u64, u64, 3>;

/// The pairs of a tree, in order.
fn pairs<const M: usize, A: NodeAllocator<u64, u64, M>>(
    tree: &BPlusTree<u64, u64, M, A>,
) -> Vec<(u64, u64)> {
    tree.iter().map(|(k, v)| (*k, *v)).collect()
}

/// A tree of the keys `0..n`, each with ten times the key as its value.
fn tens(n: u64) -> Small {
    BPlusTree::from_sorted_iter((0..n).map(|k| (k, k * 10)))
}

#[test]
fn insert_get_remove() {
    let mut tree: BPlusTree<u64, &str, 32> = BPlusTree::new();
    assert!(tree.is_empty());
    assert_eq!(tree.insert(2, "two"), None);
    assert_eq!(tree.insert(1, "one"), None);
    assert_eq!(tree.insert(3, "three"), None);
    assert_eq!(tree.get(&2), Some(&"two"));
    assert_eq!(tree.len(), 3);
    assert!(tree.keys().copied().eq(1..=3));
    assert_eq!(tree.remove(&2), Some("two"));
    assert_eq!(tree.get(&2), None);
    assert_eq!(tree.remove(&2), None);
    assert_eq!(tree.len(), 2);
}

#[test]
fn insert_of_a_present_key_replaces_the_value() {
    let mut tree: Small = BPlusTree::new();
    assert_eq!(tree.insert(7, 1), None);
    assert_eq!(tree.insert(7, 2), Some(1));
    assert_eq!(tree.len(), 1);
    assert_eq!(pairs(&tree), vec![(7, 2)]);
}

/// A key whose order looks at its first half only.
#[derive(Clone, Copy, Debug)]
struct Tagged(u32, char);

impl PartialEq for Tagged {
    fn eq(&self, other: &Self) -> bool {
        self.0 == other.0
    }
}

impl Eq for Tagged {}

impl PartialOrd for Tagged {
    fn partial_cmp(&self, other: &Self) -> Option<std::cmp::Ordering> {
        Some(self.cmp(other))
    }
}

impl Ord for Tagged {
    fn cmp(&self, other: &Self) -> std::cmp::Ordering {
        self.0.cmp(&other.0)
    }
}

#[test]
fn the_stored_key_stays_when_an_equal_one_is_inserted() {
    let mut tree: BPlusTree<Tagged, u64, 3> = BPlusTree::new();
    tree.insert(Tagged(1, 'a'), 10);
    assert_eq!(tree.insert(Tagged(1, 'b'), 11), Some(10));
    let (k, v) = tree.get_key_value(&Tagged(1, 'c')).unwrap();
    assert_eq!((k.1, *v), ('a', 11));
    let (k, v) = tree.remove_key_value(&Tagged(1, 'c')).unwrap();
    assert_eq!((k.1, v), ('a', 11));
    assert!(tree.is_empty());
}

#[test]
fn get_mut_changes_the_value_in_place() {
    let mut tree = tens(20);
    *tree.get_mut(&13).unwrap() += 1;
    assert_eq!(tree.get(&13), Some(&131));
    assert_eq!(tree.get(&12), Some(&120));
    assert!(tree.get_mut(&20).is_none());
    assert!(tree.contains_key(&19));
    assert!(!tree.contains_key(&20));
}

#[test]
fn first_and_last() {
    let mut tree = tens(10);
    assert_eq!(tree.first_key_value(), Some((&0, &0)));
    assert_eq!(tree.last_key_value(), Some((&9, &90)));
    assert_eq!(tree.pop_first(), Some((0, 0)));
    assert_eq!(tree.pop_last(), Some((9, 90)));
    assert_eq!(tree.len(), 8);
    let empty: Small = BPlusTree::new();
    assert_eq!(empty.first_key_value(), None);
    assert_eq!(empty.last_key_value(), None);
}

#[test]
fn pops_drain_the_tree_in_order() {
    let mut up = tens(50);
    let mut seen = Vec::new();
    while let Some((k, _)) = up.pop_first() {
        seen.push(k);
    }
    assert!(seen.iter().copied().eq(0..50));
    assert_eq!(up.height(), 0);
    let mut down = tens(50);
    seen.clear();
    while let Some((k, _)) = down.pop_last() {
        seen.push(k);
    }
    assert!(seen.iter().copied().eq((0..50).rev()));
    assert_eq!(down.pop_last(), None);
    assert_eq!(down.pop_first(), None);
}

#[test]
fn clear_leaves_an_empty_tree_that_can_grow_again() {
    let mut tree = tens(100);
    assert!(tree.height() > 0);
    tree.clear();
    assert_eq!((tree.len(), tree.height()), (0, 0));
    assert_eq!(tree.insert(5, 50), None);
    assert_eq!(pairs(&tree), vec![(5, 50)]);
}

#[test]
fn append_moves_every_pair_and_the_appended_value_wins() {
    let mut a: Small = BPlusTree::new();
    a.insert(1, 10);
    a.insert(2, 20);
    let mut b: Small = BPlusTree::new();
    b.insert(2, 21);
    b.insert(3, 31);
    a.append(&mut b);
    assert_eq!(pairs(&a), vec![(1, 10), (2, 21), (3, 31)]);
    assert!(b.is_empty());
}

#[test]
fn split_off_parts_at_the_key_and_append_restores() {
    for at in [0, 1, 7, 19, 20, 99] {
        let mut low = tens(20);
        let mut high = low.split_off(&at);
        assert!(low.keys().copied().eq(0..at.min(20)));
        assert!(high.keys().copied().eq(at.min(20)..20));
        low.append(&mut high);
        assert_eq!(pairs(&low), pairs(&tens(20)));
    }
}

#[test]
fn into_iter_yields_every_pair_and_its_count() {
    let mut it = tens(30).into_iter();
    assert_eq!(it.len(), 30);
    assert_eq!(it.next(), Some((0, 0)));
    assert_eq!(it.len(), 29);
    assert!(it.eq((1..30).map(|k| (k, k * 10))));
}

#[test]
fn extend_and_from_iter_keep_the_last_value() {
    let mut tree: Small = BPlusTree::from_iter(vec![(3, 30), (1, 10), (3, 33)].into_iter());
    assert_eq!(pairs(&tree), vec![(1, 10), (3, 33)]);
    tree.extend(vec![(2, 20), (1, 11)].into_iter());
    assert_eq!(pairs(&tree), vec![(1, 11), (2, 20), (3, 33)]);
}

#[test]
fn ranges_take_every_pair_of_bounds() {
    let tree = tens(10);
    let reference: BTreeMap<u64, u64> = (0..10).map(|k| (k, k * 10)).collect();
    for a in 0..12u64 {
        for b in a..12u64 {
            let got: Vec<u64> =
                tree.range(Bound::Included(a), Bound::Included(b)).map(|(k, _)| *k).collect();
            let want: Vec<u64> = reference.range(a..=b).map(|(k, _)| *k).collect();
            assert_eq!(got, want);
            let got: Vec<u64> =
                tree.range(Bound::Included(a), Bound::Excluded(b)).map(|(k, _)| *k).collect();
            let want: Vec<u64> = reference.range(a..b).map(|(k, _)| *k).collect();
            assert_eq!(got, want);
        }
    }
    assert!(tree.range(Bound::Excluded(3), Bound::Unbounded).map(|(k, _)| *k).eq(4..10));
    assert!(tree.range(Bound::Unbounded, Bound::Excluded(3)).map(|(k, _)| *k).eq(0..3));
    assert_eq!(tree.range(Bound::Included(7), Bound::Included(3)).count(), 0);
}

#[test]
fn values_come_in_key_order_and_can_be_changed() {
    let mut tree = tens(12);
    assert!(tree.values().copied().eq((0..12).map(|k| k * 10)));
    assert_eq!(tree.values().len(), 12);
    let mut it = tree.values_mut();
    while let Some(v) = it.next_value() {
        *v += 5;
    }
    assert!(tree.values().copied().eq((0..12).map(|k| k * 10 + 5)));
    assert!(tree.keys().copied().eq(0..12));
}

/// A small generator of numbers, the same on every run.
struct Numbers(u64);

impl Numbers {
    fn next(&mut self) -> u64 {
        self.0 ^= self.0 << 13;
        self.0 ^= self.0 >> 7;
        self.0 ^= self.0 << 17;
        self.0
    }
}

/// Runs `steps` operations on keys below `domain`, from a bulk-loaded start, against a map.
fn differential<const M: usize, A: NodeAllocator<u64, u64, M> + Default>(
    start: u64,
    domain: u64,
    steps: usize,
) {
    let mut tree: BPlusTree<u64, u64, M, A> =
        BPlusTree::from_sorted_iter((0..start).map(|k| (k, k)));
    let mut map: BTreeMap<u64, u64> = (0..start).map(|k| (k, k)).collect();
    let mut numbers = Numbers(0x9E37_79B9_7F4A_7C15);
    for step in 0..steps as u64 {
        let key = numbers.next() % domain;
        match numbers.next() % 8 {
            0 | 1 | 2 => assert_eq!(tree.insert(key, step), map.insert(key, step)),
            3 | 4 | 5 => assert_eq!(tree.remove(&key), map.remove(&key)),
            6 => assert_eq!(tree.get(&key), map.get(&key)),
            _ => {
                let end = key.saturating_add(numbers.next() % 16);
                let got = tree.range(Bound::Included(key), Bound::Excluded(end));
                assert!(got.eq(map.range(key..end)));
            }
        }
        assert_eq!(tree.len(), map.len());
        assert_eq!(tree.first_key_value(), map.iter().next());
        assert_eq!(tree.last_key_value(), map.iter().next_back());
    }
    assert!(tree.iter().eq(map.iter()));
    while let Some(pair) = tree.pop_first() {
        assert_eq!(Some(pair), map.pop_first());
    }
    assert!(map.is_empty());
}

#[test]
fn agrees_with_a_reference_map_at_small_fanout() {
    differential::<3, Slabs<u64, u64, 3>>(0, 40, 4000);
    differential::<3, Slabs<u64, u64, 3>>(300, 400, 4000);
    differential::<4, Slabs<u64, u64, 4>>(100, 1000, 4000);
}

#[test]
fn agrees_with_a_reference_map_in_boxes() {
    differential::<3, Boxes<u64, u64, 3>>(200, 250, 4000);
    differential::<32, Boxes<u64, u64, 32>>(2000, 4000, 4000);
}

#[test]
fn agrees_with_a_reference_map_at_usual_fanout() {
    differential::<32, Slabs<u64, u64, 32>>(0, u64::MAX, 6000);
    differential::<32, Slabs<u64, u64, 32>>(2047, 2048, 6000);
}

/// The number of items, as the trait counts them, of an iterator that stays at its end.
fn exact<I: ExactSizeIterator + std::iter::FusedIterator>(iter: I) -> usize {
    iter.len()
}

#[test]
fn whole_walks_know_their_length_and_stay_at_their_end() {
    let tree = tens(17);
    assert_eq!(exact(tree.iter()), 17);
    assert_eq!(exact(tree.keys()), 17);
    assert_eq!(exact(tree.values()), 17);
    let mut it = tree.iter();
    it.next();
    assert_eq!(exact(it), 16);
    assert_eq!(exact(tree.into_iter()), 17);
}
