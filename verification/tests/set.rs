//! The set operations.
use beets::{BPlusSet, Bound};
use std::cmp::Ordering;

type Keys = BPlusSet<u64, 3>;

fn set(keys: &[u64]) -> Keys {
    BPlusSet::from_iter(keys.to_vec().into_iter())
}

fn keys(s: &Keys) -> Vec<u64> {
    s.iter().copied().collect()
}

#[test]
fn insert_remove_contains() {
    let mut s: Keys = BPlusSet::new();
    assert!(s.is_empty());
    assert!(s.insert(3));
    assert!(s.insert(1));
    assert!(!s.insert(3), "a present key is not inserted again");
    assert!(s.contains(&1));
    assert_eq!(s.len(), 2);
    assert_eq!(keys(&s), vec![1, 3]);
    assert!(s.remove(&1));
    assert!(!s.remove(&1));
    assert!(!s.contains(&1));
}

#[test]
fn first_last_and_pops() {
    let mut s = set(&[5, 2, 9, 7]);
    assert_eq!(s.first(), Some(&2));
    assert_eq!(s.last(), Some(&9));
    assert_eq!(s.pop_first(), Some(2));
    assert_eq!(s.pop_last(), Some(9));
    assert_eq!(keys(&s), vec![5, 7]);
    s.clear();
    assert_eq!((s.first(), s.last()), (None, None));
    assert_eq!((s.pop_first(), s.pop_last()), (None, None));
}

/// A key whose order looks at its first half only.
#[derive(Clone, Copy, Debug)]
struct Tagged(u32, char);

impl PartialEq for Tagged {
    fn eq(&self, other: &Self) -> bool {
        self.0 == other.0
    }
}

impl Eq for Tagged {}

impl PartialOrd for Tagged {
    fn partial_cmp(&self, other: &Self) -> Option<Ordering> {
        Some(self.cmp(other))
    }
}

impl Ord for Tagged {
    fn cmp(&self, other: &Self) -> Ordering {
        self.0.cmp(&other.0)
    }
}

#[test]
fn the_stored_copy_is_what_get_take_and_replace_hand_out() {
    let mut s: BPlusSet<Tagged, 3> = BPlusSet::new();
    assert!(s.insert(Tagged(1, 'a')));
    assert!(!s.insert(Tagged(1, 'b')));
    assert_eq!(s.get(&Tagged(1, 'c')).unwrap().1, 'a');
    assert_eq!(s.replace(Tagged(1, 'd')).unwrap().1, 'a');
    assert_eq!(s.get(&Tagged(1, 'c')).unwrap().1, 'd');
    assert_eq!(s.take(&Tagged(1, 'c')).unwrap().1, 'd');
    assert!(s.take(&Tagged(1, 'c')).is_none());
    assert!(s.replace(Tagged(2, 'e')).is_none());
    assert_eq!(s.len(), 1);
}

#[test]
fn of_equal_keys_a_union_takes_the_left_one() {
    let mut a: BPlusSet<Tagged, 3> = BPlusSet::new();
    let mut b: BPlusSet<Tagged, 3> = BPlusSet::new();
    a.insert(Tagged(1, 'a'));
    b.insert(Tagged(1, 'b'));
    b.insert(Tagged(2, 'b'));
    let tags: Vec<char> = a.union(&b).map(|k| k.1).collect();
    assert_eq!(tags, vec!['a', 'b']);
    let tags: Vec<char> = a.intersection(&b).map(|k| k.1).collect();
    assert_eq!(tags, vec!['a']);
}

#[test]
fn the_four_combinations() {
    let a = set(&[1, 2, 3, 4, 5]);
    let b = set(&[4, 5, 6, 7]);
    assert!(a.union(&b).copied().eq([1, 2, 3, 4, 5, 6, 7]));
    assert!(a.intersection(&b).copied().eq([4, 5]));
    assert!(a.difference(&b).copied().eq([1, 2, 3]));
    assert!(b.difference(&a).copied().eq([6, 7]));
    assert!(a.symmetric_difference(&b).copied().eq([1, 2, 3, 6, 7]));
}

#[test]
fn a_difference_goes_on_behind_the_end_of_the_other_set() {
    let a = set(&[1, 2, 3, 4, 5, 6]);
    let b = set(&[2]);
    assert!(a.difference(&b).copied().eq([1, 3, 4, 5, 6]));
    assert!(a.difference(&set(&[])).copied().eq(1..=6));
    assert_eq!(set(&[]).difference(&a).count(), 0);
}

#[test]
fn the_operators_collect_the_combinations() {
    let a = set(&[1, 2, 3, 4, 5]);
    let b = set(&[4, 5, 6, 7]);
    assert_eq!(keys(&(&a & &b)), vec![4, 5]);
    assert_eq!(keys(&(&a | &b)), vec![1, 2, 3, 4, 5, 6, 7]);
    assert_eq!(keys(&(&a ^ &b)), vec![1, 2, 3, 6, 7]);
    assert_eq!(keys(&(&a - &b)), vec![1, 2, 3]);
    assert_eq!(keys(&a), vec![1, 2, 3, 4, 5], "the operands stay");
}

#[test]
fn combinations_count_as_they_should() {
    let a: Keys = BPlusSet::from_sorted_iter((0..300u64).step_by(2).collect::<Vec<_>>().into_iter());
    let b: Keys = BPlusSet::from_sorted_iter((0..300u64).step_by(3).collect::<Vec<_>>().into_iter());
    let union = a.union(&b).count();
    let common = a.intersection(&b).count();
    assert_eq!((union, common), (200, 50));
    assert_eq!(union + common, a.len() + b.len());
    assert_eq!(a.difference(&b).count() + common, a.len());
    assert_eq!(
        a.symmetric_difference(&b).count(),
        a.difference(&b).count() + b.difference(&a).count()
    );
}

#[test]
fn subset_superset_disjoint() {
    let a = set(&[1, 2]);
    let b = set(&[1, 2, 3]);
    let c = set(&[4, 5]);
    let none = set(&[]);
    assert!(a.is_subset(&b) && !b.is_subset(&a));
    assert!(b.is_superset(&a) && !a.is_superset(&b));
    assert!(a.is_subset(&a) && a.is_superset(&a));
    assert!(none.is_subset(&a) && a.is_superset(&none));
    assert!(a.is_disjoint(&c) && !a.is_disjoint(&b));
    assert!(none.is_disjoint(&none));
    assert!(!set(&[0, 4]).is_subset(&c));
}

#[test]
fn append_is_union_and_empties_the_other() {
    let mut a = set(&[1, 3, 5]);
    let mut b = set(&[3, 4]);
    let union: Vec<u64> = a.union(&b).copied().collect();
    a.append(&mut b);
    assert_eq!(keys(&a), union);
    assert_eq!(keys(&a), vec![1, 3, 4, 5]);
    assert!(b.is_empty());
}

#[test]
fn split_off_and_append_restore() {
    let mut low = set(&[1, 2, 3, 4, 5, 6, 7]);
    let mut high = low.split_off(&4);
    assert_eq!(keys(&low), vec![1, 2, 3]);
    assert_eq!(keys(&high), vec![4, 5, 6, 7]);
    low.append(&mut high);
    assert_eq!(keys(&low), vec![1, 2, 3, 4, 5, 6, 7]);
}

#[test]
fn retain_keeps_what_the_predicate_picks() {
    let mut s: Keys = BPlusSet::from_iter(0..40u64);
    s.retain(|k| k % 3 == 0);
    assert!(s.iter().copied().eq((0..40).step_by(3)));
    s.retain(|_| false);
    assert!(s.is_empty());
}

#[test]
fn ranges() {
    let s: Keys = BPlusSet::from_iter(0..20u64);
    assert!(s.range(Bound::Included(5), Bound::Excluded(9)).copied().eq(5..9));
    assert!(s.range(Bound::Excluded(5), Bound::Included(9)).copied().eq(6..=9));
    assert!(s.range(Bound::Unbounded, Bound::Unbounded).copied().eq(0..20));
}

#[test]
fn collecting_drops_repeats() {
    let mut s = set(&[4, 1, 4, 1, 2]);
    assert_eq!(keys(&s), vec![1, 2, 4]);
    s.extend(vec![3, 1].into_iter());
    assert_eq!(keys(&s), vec![1, 2, 3, 4]);
}

#[test]
fn a_clone_is_equal_and_independent() {
    let mut a = set(&[1, 2, 3]);
    let b = a.clone();
    assert!(a.eq(&b));
    a.insert(4);
    assert!(!a.eq(&b));
    assert_eq!(keys(&b), vec![1, 2, 3]);
}

#[test]
fn sets_compare_by_their_keys_in_order() {
    let a = set(&[1, 2]);
    let b = set(&[1, 3]);
    let c = set(&[1, 2, 0]);
    assert_eq!(a.cmp(&b), Ordering::Less);
    assert_eq!(b.cmp(&a), Ordering::Greater);
    assert_eq!(a.cmp(&a), Ordering::Equal);
    assert_eq!(c.cmp(&a), Ordering::Less, "0 comes first");
    assert_eq!(a.cmp(&set(&[1, 2, 3])), Ordering::Less, "a prefix comes first");
    assert_eq!(set(&[]).partial_cmp(&a), Some(Ordering::Less));
    assert_eq!(c.cmp(&b), Ordering::Less);
}

#[test]
fn into_iter_hands_out_the_keys() {
    let mut it = set(&[3, 1, 2]).into_iter();
    assert_eq!(it.len(), 3);
    assert_eq!(it.next(), Some(1));
    assert_eq!(it.len(), 2);
    assert!(it.eq([2, 3]));
}

#[test]
fn whole_walks_know_their_length() {
    let s = set(&[3, 1, 2]);
    assert_eq!(ExactSizeIterator::len(&s.iter()), 3);
    assert_eq!(ExactSizeIterator::len(&s.into_iter()), 3);
}
