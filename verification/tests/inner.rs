//! Subtrees rooted at an inner node: adopting children, merges and rotations, removal, teardown.
use beets::allocator::boxed::Boxes;
use beets::allocator::{Addr, NodeAllocator};
use beets::inner::Inner;
use beets::leaf::Leaf;
use std::sync::atomic::{AtomicIsize, Ordering::Relaxed};
use std::sync::Arc;

/// The fanout of a `u64` key.
const M: usize = 32;

/// The fewest pairs that a leaf other than the root may hold.
const LMIN: usize = 16;

/// The fewest children that an inner node other than the root may have.
const IMIN: usize = 16;

type Nodes = Boxes<u64, Counted, M>;

/// A value that counts how many of its kind are alive.
struct Counted(u64, Arc<AtomicIsize>);

impl Counted {
    fn new(val: u64, live: &Arc<AtomicIsize>) -> Self {
        live.fetch_add(1, Relaxed);
        Counted(val, Arc::clone(live))
    }
}

impl Drop for Counted {
    fn drop(&mut self) {
        self.1.fetch_sub(1, Relaxed);
    }
}

/// A leaf holding `count` counted values under the keys `base, base + 10, ..`.
fn counted_leaf(
    base: u64,
    count: usize,
    live: &Arc<AtomicIsize>,
    next: Option<Addr>,
    alloc: &mut Nodes,
) -> Addr {
    let mut leaf: Leaf<u64, Counted, M> = Leaf::new(next);
    for i in 0..count as u64 {
        leaf.raw_append(base + 10 * i, Counted::new(base + 10 * i, live));
    }
    alloc.alloc_leaf(leaf)
}

/// An inner node over `n` leaves of one value each: child `i` holds the key `base + 10 * i`.
fn inner_with_children(
    n: usize,
    base: u64,
    live: &Arc<AtomicIsize>,
    alloc: &mut Nodes,
) -> Inner<u64, Counted, M> {
    linked_inner_with_children(n, base, live, None, alloc).0
}

/// As `inner_with_children`, with the last leaf linked to `tail`, and with the leaves' addresses.
fn linked_inner_with_children(
    n: usize,
    base: u64,
    live: &Arc<AtomicIsize>,
    tail: Option<Addr>,
    alloc: &mut Nodes,
) -> (Inner<u64, Counted, M>, Vec<Addr>) {
    linked(&vec![1; n], base, 10, live, tail, alloc)
}

/// An inner node over leaves with the given numbers of pairs: child `i` holds the keys
/// `base + 1000 * i, base + 1000 * i + 10, ..`.
fn inner_with_occupancies(
    counts: &[usize],
    base: u64,
    live: &Arc<AtomicIsize>,
    tail: Option<Addr>,
    alloc: &mut Nodes,
) -> (Inner<u64, Counted, M>, Vec<Addr>) {
    linked(counts, base, 1_000, live, tail, alloc)
}

/// An inner node over a chain of leaves that ends in `tail`.
fn linked(
    counts: &[usize],
    base: u64,
    step: u64,
    live: &Arc<AtomicIsize>,
    tail: Option<Addr>,
    alloc: &mut Nodes,
) -> (Inner<u64, Counted, M>, Vec<Addr>) {
    let mut ptrs: Vec<Addr> = Vec::new();
    let mut next = tail;
    for (i, count) in counts.iter().enumerate().rev() {
        let at = counted_leaf(base + step * i as u64, *count, live, next, alloc);
        ptrs.push(at);
        next = Some(at);
    }
    ptrs.reverse();
    let mut inner = Inner::from_first_child(ptrs[0]);
    for (i, at) in ptrs.iter().enumerate().skip(1) {
        inner.raw_append_child(base + step * i as u64, *at);
    }
    (inner, ptrs)
}

/// The length and the first key of every leaf of the chain from `head` on.
fn walk_chain(head: Addr, max_hops: usize, alloc: &Nodes) -> Vec<(usize, Option<u64>)> {
    let mut out = Vec::new();
    let mut cur = Some(head);
    while let Some(at) = cur {
        assert!(out.len() < max_hops, "the leaf chain must terminate (cycle suspected)");
        let leaf = alloc.leaf(at);
        out.push((leaf.len(), if leaf.len() != 0 { Some(*leaf.first_key()) } else { None }));
        cur = leaf.next();
    }
    out
}

/// A root over two subtrees of height 1, with `sep` between them.
fn root_over(
    left: Inner<u64, Counted, M>,
    right: Inner<u64, Counted, M>,
    sep: u64,
    alloc: &mut Nodes,
) -> Inner<u64, Counted, M> {
    let left = alloc.alloc_inner(left);
    let right = alloc.alloc_inner(right);
    Inner::from_pair(sep, left, right)
}

/// Checks occupancy, key order and routing of the subtree below `node`, and that its leaves are
/// chained in order.
fn check(node: &Inner<u64, Counted, M>, height: u8, is_root: bool, alloc: &Nodes) {
    let mut leaves: Vec<Addr> = Vec::new();
    check_inner(node, height, is_root, None, None, alloc, &mut leaves);
    for pair in leaves.windows(2) {
        assert_eq!(alloc.leaf(pair[0]).next(), Some(pair[1]), "the chain must follow child order");
    }
}

fn check_inner(
    node: &Inner<u64, Counted, M>,
    height: u8,
    is_root: bool,
    lo: Option<u64>,
    hi: Option<u64>,
    alloc: &Nodes,
    leaves: &mut Vec<Addr>,
) {
    let min = if is_root { 2 } else { IMIN };
    assert!((min..=M).contains(&node.len()), "occupancy of an inner node: {}", node.len());
    let keys = node.keys_ref();
    assert_eq!(keys.len() + 1, node.len());
    assert!(keys.windows(2).all(|w| w[0] < w[1]), "separators must ascend: {keys:?}");
    for (i, child) in node.children_ref().iter().enumerate() {
        let below = if i == 0 { lo } else { Some(keys[i - 1]) };
        let above = if i == keys.len() { hi } else { Some(keys[i]) };
        if height > 1 {
            check_inner(alloc.inner(*child), height - 1, false, below, above, alloc, leaves);
        } else {
            let leaf = alloc.leaf(*child);
            assert!((LMIN..=M).contains(&leaf.len()), "occupancy of a leaf: {}", leaf.len());
            let keys = leaf.keys_ref();
            assert!(keys.windows(2).all(|w| w[0] < w[1]), "keys must ascend: {keys:?}");
            assert!(keys.iter().all(|k| below.map_or(true, |b| b <= *k)));
            assert!(keys.iter().all(|k| above.map_or(true, |b| *k < b)));
            leaves.push(*child);
        }
    }
}

/// A leaf holding the `LMIN` pairs `base, base + 1, ..`.
fn scene_leaf(
    base: u64,
    live: &Arc<AtomicIsize>,
    next: Option<Addr>,
    alloc: &mut Nodes,
) -> Addr {
    let mut leaf: Leaf<u64, Counted, M> = Leaf::new(next);
    for j in 0..LMIN as u64 {
        leaf.raw_append(base + j, Counted::new(base + j, live));
    }
    alloc.alloc_leaf(leaf)
}

/// A parent over `n` leaves (leaf `i` holds the keys `100 * i ..`), and a fresh leaf (keys
/// `100 * split_idx + 50 ..`) that is linked in behind child `split_idx` but not yet adopted.
/// Returns the parent, the separator, and the new leaf.
fn adoption_scene(
    n: usize,
    split_idx: usize,
    live: &Arc<AtomicIsize>,
    alloc: &mut Nodes,
) -> (Inner<u64, Counted, M>, u64, Addr) {
    assert!((2..=M).contains(&n), "an inner node holds 2..=M children");
    assert!(split_idx < n);
    let sep = 100 * split_idx as u64 + 50;
    let mut next = None;
    let mut new_leaf = None;
    let mut ptrs: Vec<Addr> = Vec::new();
    for i in (0..n).rev() {
        if i == split_idx {
            let at = scene_leaf(sep, live, next, alloc);
            new_leaf = Some(at);
            next = Some(at);
        }
        let at = scene_leaf(100 * i as u64, live, next, alloc);
        ptrs.push(at);
        next = Some(at);
    }
    ptrs.reverse();
    let keys: Vec<u64> = (1..n as u64).map(|i| 100 * i).collect();
    (Inner::from_parts(keys, ptrs), sep, new_leaf.unwrap())
}

/// Tearing down a height-1 subtree must drop each of the inner node's
/// children exactly once, whatever its occupancy: swept from the
/// 2-child minimum to a full `M` children.
#[test]
fn drop_subtree_at_height_one_drops_every_child_exactly_once() {
    for n in 2..=M {
        let live = Arc::new(AtomicIsize::new(0));
        let mut alloc: Boxes<u64, Counted, M> = Boxes::new();

        let node = inner_with_children(n, 0, &live, &mut alloc);
        assert_eq!(live.load(Relaxed), n as isize, "one live value per child before teardown");
        node.drop_subtree(1, &mut alloc);
        assert_eq!(
            live.load(Relaxed),
            0,
            "drop_subtree(1) over {n} children must drop each child exactly once \
             (positive = leak, negative = double-drop)"
        );
    }
}

/// Tearing down a height-2 subtree (inner of inners of leaves) must
/// recurse through the middle layer and drop every value exactly once.
/// Pins that teardown is genuinely recursive.
#[test]
fn drop_subtree_at_height_two_drops_the_whole_subtree_exactly_once() {
    let live = Arc::new(AtomicIsize::new(0));
    let mut alloc: Boxes<u64, Counted, M> = Boxes::new();

    // Two height-1 subtrees over disjoint key ranges (0.. and 100..),
    // separated by the right subtree's min key.
    let left = inner_with_children(2, 0, &live, &mut alloc);
    let left = alloc.alloc_inner(left);
    let right = inner_with_children(2, 100, &live, &mut alloc);
    let right = alloc.alloc_inner(right);

    let root = Inner::from_parts(vec![100], vec![left, right]);
    assert_eq!(live.load(Relaxed), 4, "one live value per grandchild before teardown");
    root.drop_subtree(2, &mut alloc);
    assert_eq!(
        live.load(Relaxed),
        0,
        "drop_subtree(2) must recurse through the middle layer and drop every \
         value exactly once (positive = leak, negative = double-drop)"
    );
}

/// Merging two siblings must concatenate their children in key order,
/// with the separator that sat between them in the parent becoming a
/// key of the merged node — afterwards every key reaches its value
/// through the merged node alone, and teardown stays exactly-once.
#[test]
fn merge_concatenates_children_and_demotes_the_separator() {
    let live = Arc::new(AtomicIsize::new(0));
    let mut alloc: Boxes<u64, Counted, M> = Boxes::new();
    let (right, rptrs) = linked_inner_with_children(2, 100, &live, None, &mut alloc);
    let (mut left, _) = linked_inner_with_children(2, 0, &live, Some(rptrs[0]), &mut alloc);
    left.merge(100, right);

    assert_eq!(left.len(), 4, "the merged node must hold both sides' children");
    assert_eq!(
        left.keys_ref(),
        &[10, 100, 110],
        "the merged node's keys must be left's keys, the demoted separator, then right's"
    );
    for k in [0u64, 10, 100, 110] {
        let got = left.get(1, &k, &alloc);
        assert!(got.is_some_and(|v| v.0 == k), "key {k} must remain reachable after the merge");
    }

    assert_eq!(live.load(Relaxed), 4, "a merge must not drop any value");
    left.drop_subtree(1, &mut alloc);
    assert_eq!(
        live.load(Relaxed),
        0,
        "teardown after a merge must drop every value exactly once \
         (positive = leak, negative = double-drop)"
    );
}

/// A single-child node brings no keys of its own to a merge; merging
/// two of them must still succeed, producing a two-child node whose
/// only key is the demoted separator.
#[test]
fn merge_succeeds_at_the_one_child_minimum() {
    let live = Arc::new(AtomicIsize::new(0));
    let mut alloc: Boxes<u64, Counted, M> = Boxes::new();
    let (right, rptrs) = linked_inner_with_children(1, 100, &live, None, &mut alloc);
    let (mut left, _) = linked_inner_with_children(1, 0, &live, Some(rptrs[0]), &mut alloc);
    left.merge(100, right);

    assert_eq!(left.len(), 2, "the merged node must hold both children");
    assert_eq!(
        left.keys_ref(),
        &[100],
        "the demoted separator must be the merged node's only key"
    );
    for k in [0u64, 100] {
        let got = left.get(1, &k, &alloc);
        assert!(got.is_some_and(|v| v.0 == k), "key {k} must remain reachable after the merge");
    }
    left.drop_subtree(1, &mut alloc);
    assert_eq!(
        live.load(Relaxed),
        0,
        "teardown after a merge must drop every value exactly once \
         (positive = leak, negative = double-drop)"
    );
}

/// The fit bound is inclusive: a merge may fill the surviving node to
/// exactly `M` children (and so `M - 1` keys), with every key still
/// reachable and teardown exactly-once.
#[test]
fn merge_fills_a_node_to_exact_capacity() {
    let live = Arc::new(AtomicIsize::new(0));
    let mut alloc: Boxes<u64, Counted, M> = Boxes::new();
    let a = M / 2;
    let b = M - a;
    let (right, rptrs) = linked_inner_with_children(b, 1000, &live, None, &mut alloc);
    let (mut left, _) = linked_inner_with_children(a, 0, &live, Some(rptrs[0]), &mut alloc);
    left.merge(1000, right);

    assert_eq!(left.len(), M, "the merged node must hold exactly M children");
    assert_eq!(left.keys_ref().len(), M - 1, "M children need exactly M - 1 keys");
    for k in [0, 10 * (a as u64 - 1), 1000, 1000 + 10 * (b as u64 - 1)] {
        let got = left.get(1, &k, &alloc);
        assert!(got.is_some_and(|v| v.0 == k), "key {k} must remain reachable after the merge");
    }
    left.drop_subtree(1, &mut alloc);
    assert_eq!(
        live.load(Relaxed),
        0,
        "teardown after a capacity-filling merge must drop every value exactly once \
         (positive = leak, negative = double-drop)"
    );
}

/// Rotating in from the right sibling must: demote the parent
/// separator to the receiver's LAST key, move the donor's FIRST child
/// across, and promote the donor's first key out as the replacement
/// separator — with every key still routing to its value on the
/// correct side, and nothing dropped.
#[test]
fn rotate_from_right_demotes_sep_takes_first_child_promotes_first_key() {
    let live = Arc::new(AtomicIsize::new(0));
    let mut alloc: Boxes<u64, Counted, M> = Boxes::new();
    let (mut donor, dptrs) = linked_inner_with_children(3, 100, &live, None, &mut alloc);
    let (mut recv, _) = linked_inner_with_children(2, 0, &live, Some(dptrs[0]), &mut alloc);
    let new_sep = recv.rotate_from_right(100, &mut donor);

    assert_eq!(new_sep, 110, "the donor's first key must promote out as the new separator");
    assert_eq!(recv.len(), 3, "the receiver must gain exactly one child");
    assert_eq!(donor.len(), 2, "the donor must lose exactly one child");
    assert_eq!(
        recv.keys_ref(),
        &[10, 100],
        "the old separator must demote to the receiver's LAST key"
    );
    assert_eq!(donor.keys_ref(), &[120], "the donor's keys must close over the promoted one");
    for (node, k) in [(&recv, 0u64), (&recv, 10), (&recv, 100), (&donor, 110), (&donor, 120)] {
        let got = node.get(1, &k, &alloc);
        assert!(got.is_some_and(|v| v.0 == k), "key {k} must route to its value");
    }
    assert_eq!(live.load(Relaxed), 5, "a rotation must not drop any value");
    recv.drop_subtree(1, &mut alloc);
    donor.drop_subtree(1, &mut alloc);
    assert_eq!(
        live.load(Relaxed),
        0,
        "teardown after a rotation must drop every value exactly once \
         (positive = leak, negative = double-drop)"
    );
}

/// Rotating in from the left sibling must: demote the parent separator
/// to the receiver's FIRST key, move the donor's LAST child across,
/// and promote the donor's last key out as the replacement separator.
#[test]
fn rotate_from_left_demotes_sep_takes_last_child_promotes_last_key() {
    let live = Arc::new(AtomicIsize::new(0));
    let mut alloc: Boxes<u64, Counted, M> = Boxes::new();
    let (mut recv, rptrs) = linked_inner_with_children(2, 100, &live, None, &mut alloc);
    let (mut donor, _) = linked_inner_with_children(3, 0, &live, Some(rptrs[0]), &mut alloc);
    let new_sep = recv.rotate_from_left(100, &mut donor);

    assert_eq!(new_sep, 20, "the donor's last key must promote out as the new separator");
    assert_eq!(recv.len(), 3, "the receiver must gain exactly one child");
    assert_eq!(donor.len(), 2, "the donor must lose exactly one child");
    assert_eq!(
        recv.keys_ref(),
        &[100, 110],
        "the old separator must demote to the receiver's FIRST key"
    );
    assert_eq!(donor.keys_ref(), &[10], "the donor's keys must close over the promoted one");
    for (node, k) in [(&donor, 0u64), (&donor, 10), (&recv, 20), (&recv, 100), (&recv, 110)] {
        let got = node.get(1, &k, &alloc);
        assert!(got.is_some_and(|v| v.0 == k), "key {k} must route to its value");
    }
    assert_eq!(live.load(Relaxed), 5, "a rotation must not drop any value");
    recv.drop_subtree(1, &mut alloc);
    donor.drop_subtree(1, &mut alloc);
    assert_eq!(
        live.load(Relaxed),
        0,
        "teardown after a rotation must drop every value exactly once \
         (positive = leak, negative = double-drop)"
    );
}

// These tests pin what holds of
// `Inner::remove`: after any remove, every node in the subtree
// satisfies its minimum occupancy (checked by
// `check`), a deficient child is repaired by
// borrowing from a sibling above its minimum — merging only when both
// members sit at the minimum — and the leaf chain, reachability, and
// drop-exactly-once accounting all survive the repair.

/// Removing below the minimum from a leaf whose RIGHT sibling is above
/// its own minimum must repair by borrowing: no leaf is freed, both
/// leaves end at or above the minimum, and the invariants hold.
#[test]
fn remove_from_a_minimal_leaf_borrows_from_a_richer_right_sibling() {
    let live = Arc::new(AtomicIsize::new(0));
    let mut alloc: Boxes<u64, Counted, M> = Boxes::new();
    let (inner, ptrs) = inner_with_occupancies(&[LMIN, LMIN + 1], 0, &live, None, &mut alloc);
    let total = (2 * LMIN + 1) as isize;
    let mut node = inner;
    let got = node.remove(1, &0, &mut alloc);
    assert!(got.is_some_and(|v| v.0 == 0), "removing present key 0 must return its value");
    assert_eq!(live.load(Relaxed), total - 1, "exactly the removed value must drop");

    // Borrow, not merge: both leaves survive, both at or above MIN.
    let hops = walk_chain(ptrs[0], 3, &alloc);
    assert_eq!(hops.len(), 2, "a borrow must not free either leaf: {hops:?}");
    assert!(
        hops.iter().all(|(len, _)| *len >= LMIN),
        "both leaves must end at or above MIN_OCCUPANCY: {hops:?}"
    );
    check(&node, 1, true, &alloc);

    // The boundary that moved: the donor's old first key must now
    // route LEFT of the updated separator.
    for k in [10u64, 1_000, 1_010] {
        let got = node.get(1, &k, &alloc);
        assert!(got.is_some_and(|v| v.0 == k), "surviving key {k} must remain reachable");
    }
    assert!(node.get(1, &0, &alloc).is_none(), "removed key 0 must be absent");
    node.drop_subtree(1, &mut alloc);
    assert_eq!(
        live.load(Relaxed),
        0,
        "teardown must drop every survivor exactly once \
         (positive = leak, negative = double-drop)"
    );
}

/// Removing below the minimum from a leaf with no right sibling must
/// borrow from its richer LEFT sibling.
#[test]
fn remove_from_a_minimal_leaf_borrows_from_a_richer_left_sibling() {
    let live = Arc::new(AtomicIsize::new(0));
    let mut alloc: Boxes<u64, Counted, M> = Boxes::new();
    let (inner, ptrs) = inner_with_occupancies(&[LMIN + 1, LMIN], 0, &live, None, &mut alloc);
    let total = (2 * LMIN + 1) as isize;
    let mut node = inner;
    let got = node.remove(1, &1_000, &mut alloc);
    assert!(
        got.is_some_and(|v| v.0 == 1_000),
        "removing present key 1000 must return its value"
    );
    assert_eq!(live.load(Relaxed), total - 1, "exactly the removed value must drop");
    let hops = walk_chain(ptrs[0], 3, &alloc);
    assert_eq!(hops.len(), 2, "a borrow must not free either leaf: {hops:?}");
    assert!(
        hops.iter().all(|(len, _)| *len >= LMIN),
        "both leaves must end at or above MIN_OCCUPANCY: {hops:?}"
    );
    check(&node, 1, true, &alloc);

    // The donor's old last key crossed the boundary rightward.
    for k in [0u64, 10 * LMIN as u64, 1_010] {
        let got = node.get(1, &k, &alloc);
        assert!(got.is_some_and(|v| v.0 == k), "surviving key {k} must remain reachable");
    }
    assert!(node.get(1, &1_000, &alloc).is_none(), "removed key 1000 must be absent");
    node.drop_subtree(1, &mut alloc);
    assert_eq!(
        live.load(Relaxed),
        0,
        "teardown must drop every survivor exactly once \
         (positive = leak, negative = double-drop)"
    );
}

/// A borrow rewrites exactly ONE separator: the boundary between the
/// receiver and its donor. With a third child in the node, the
/// separator above the rewritten one is live — and must keep its
/// value, so keys under it stay reachable and the key order holds.
#[test]
fn borrowing_from_the_right_leaves_the_separator_above_intact() {
    let live = Arc::new(AtomicIsize::new(0));
    let mut alloc: Boxes<u64, Counted, M> = Boxes::new();
    // Child 0 will go deficient; child 1 is the richer right donor;
    // child 2 exists only to keep a live separator (2000) above the
    // rewritten boundary.
    let (mut inner, _ptrs) = inner_with_occupancies(&[LMIN, LMIN + 1, LMIN], 0, &live, None, &mut alloc);
    let got = inner.remove(1, &0, &mut alloc);
    assert!(got.is_some_and(|v| v.0 == 0), "removing present key 0 must return its value");

    assert_eq!(
        inner.keys_ref(),
        &[1_010, 2_000],
        "only the receiver/donor boundary separator may change: the donor's new \
         first key replaces 1000, and the separator 2000 above it must survive"
    );

    let node = inner;
    check(&node, 1, true, &alloc);

    // The keys of the child above the borrow must remain reachable.
    for k in [2_000u64, 2_010] {
        let got = node.get(1, &k, &alloc);
        assert!(got.is_some_and(|v| v.0 == k), "surviving key {k} must remain reachable");
    }
    node.drop_subtree(1, &mut alloc);
    assert_eq!(
        live.load(Relaxed),
        0,
        "teardown must drop every survivor exactly once \
         (positive = leak, negative = double-drop)"
    );
}

/// Mirror of the right-borrow pin for a LEFT borrow away from the
/// node's edge: the deficient middle child borrows from its richer
/// left sibling (its right sibling is at minimum and cannot donate),
/// rewriting the boundary below it — and the separator above the
/// receiver must keep its value.
#[test]
fn borrowing_from_the_left_leaves_the_separator_above_intact() {
    let live = Arc::new(AtomicIsize::new(0));
    let mut alloc: Boxes<u64, Counted, M> = Boxes::new();
    // Child 1 will go deficient; child 0 is the richer left donor;
    // child 2 (at minimum, no donor) keeps a live separator (2000)
    // above the rewritten boundary.
    let (mut inner, _ptrs) = inner_with_occupancies(&[LMIN + 1, LMIN, LMIN], 0, &live, None, &mut alloc);
    let got = inner.remove(1, &1_000, &mut alloc);
    assert!(
        got.is_some_and(|v| v.0 == 1_000),
        "removing present key 1000 must return its value"
    );

    assert_eq!(
        inner.keys_ref(),
        &[10 * LMIN as u64, 2_000],
        "only the donor/receiver boundary separator may change: the donor's moved \
         last key replaces 1000, and the separator 2000 above it must survive"
    );

    let node = inner;
    check(&node, 1, true, &alloc);

    // The keys of the child above the borrow must remain reachable.
    for k in [2_000u64, 2_010] {
        let got = node.get(1, &k, &alloc);
        assert!(got.is_some_and(|v| v.0 == k), "surviving key {k} must remain reachable");
    }
    node.drop_subtree(1, &mut alloc);
    assert_eq!(
        live.load(Relaxed),
        0,
        "teardown must drop every survivor exactly once \
         (positive = leak, negative = double-drop)"
    );
}

/// When the deficient leaf and its sibling BOTH sit at the minimum,
/// they merge. At the head position this exercises the chain-critical
/// direction: the head leaf's address must survive (an outside
/// predecessor could link into it), and walking from it must find
/// every surviving pair, in order.
#[test]
fn remove_merges_minimal_leaves_and_preserves_the_chain() {
    let live = Arc::new(AtomicIsize::new(0));
    let mut alloc: Boxes<u64, Counted, M> = Boxes::new();
    let (inner, ptrs) = inner_with_occupancies(&[LMIN, LMIN, LMIN], 0, &live, None, &mut alloc);
    let total = (3 * LMIN) as isize;
    let mut node = inner;
    let got = node.remove(1, &0, &mut alloc);
    assert!(got.is_some_and(|v| v.0 == 0), "removing present key 0 must return its value");
    assert_eq!(live.load(Relaxed), total - 1, "exactly the removed value must drop");

    // Merge, not borrow: one leaf slot closes; the head survives.
    let hops = walk_chain(ptrs[0], 4, &alloc);
    assert_eq!(hops.len(), 2, "minimal siblings must merge into one leaf: {hops:?}");
    let pairs: usize = hops.iter().map(|(len, _)| len).sum();
    assert_eq!(pairs, 3 * LMIN - 1, "the chain must hold every surviving pair exactly once");
    let firsts: Vec<u64> = hops.iter().filter_map(|(_, first)| *first).collect();
    assert!(firsts.windows(2).all(|w| w[0] < w[1]), "chain order must hold: {firsts:?}");
    check(&node, 1, true, &alloc);

    for k in [10u64, 1_000, 2_000] {
        let got = node.get(1, &k, &alloc);
        assert!(got.is_some_and(|v| v.0 == k), "surviving key {k} must remain reachable");
    }
    node.drop_subtree(1, &mut alloc);
    assert_eq!(
        live.load(Relaxed),
        0,
        "teardown must drop every survivor exactly once \
         (positive = leak, negative = double-drop)"
    );
}

/// The mirror merge at the TAIL position: the deficient last leaf
/// folds into its left sibling.
#[test]
fn remove_merges_minimal_leaves_at_the_tail() {
    let live = Arc::new(AtomicIsize::new(0));
    let mut alloc: Boxes<u64, Counted, M> = Boxes::new();
    let (inner, ptrs) = inner_with_occupancies(&[LMIN, LMIN, LMIN], 0, &live, None, &mut alloc);
    let total = (3 * LMIN) as isize;
    let mut node = inner;
    let got = node.remove(1, &2_000, &mut alloc);
    assert!(
        got.is_some_and(|v| v.0 == 2_000),
        "removing present key 2000 must return its value"
    );
    assert_eq!(live.load(Relaxed), total - 1, "exactly the removed value must drop");
    let hops = walk_chain(ptrs[0], 4, &alloc);
    assert_eq!(hops.len(), 2, "minimal siblings must merge into one leaf: {hops:?}");
    let pairs: usize = hops.iter().map(|(len, _)| len).sum();
    assert_eq!(pairs, 3 * LMIN - 1, "the chain must hold every surviving pair exactly once");
    check(&node, 1, true, &alloc);

    for k in [0u64, 1_000, 2_010] {
        let got = node.get(1, &k, &alloc);
        assert!(got.is_some_and(|v| v.0 == k), "surviving key {k} must remain reachable");
    }
    assert!(node.get(1, &2_000, &alloc).is_none(), "removed key 2000 must be absent");
    node.drop_subtree(1, &mut alloc);
    assert_eq!(
        live.load(Relaxed),
        0,
        "teardown must drop every survivor exactly once \
         (positive = leak, negative = double-drop)"
    );
}

/// A leaf merge that leaves an inner node deficient must cascade: the
/// inner borrows a child from its richer sibling (a rotation through
/// the root separator), leaving every node at or above its minimum.
#[test]
fn remove_cascades_a_borrow_across_inner_nodes() {
    let live = Arc::new(AtomicIsize::new(0));
    let mut alloc: Boxes<u64, Counted, M> = Boxes::new();
    // A: IMIN minimal leaves — one leaf merge inside makes A itself
    // deficient. B: IMIN + 1 minimal leaves, the donor.
    let (b, bptrs) = inner_with_occupancies(&vec![LMIN; IMIN + 1], 1_000_000, &live, None, &mut alloc);
    let (a, _) = inner_with_occupancies(&[LMIN; IMIN], 0, &live, Some(bptrs[0]), &mut alloc);
    let total = ((2 * IMIN + 1) * LMIN) as isize;
    let mut root = root_over(a, b, 1_000_000, &mut alloc);
    let got = root.remove(2, &0, &mut alloc);
    assert!(got.is_some_and(|v| v.0 == 0), "removing present key 0 must return its value");
    assert_eq!(live.load(Relaxed), total - 1, "exactly the removed value must drop");

    assert_eq!(root.len(), 2, "the root must keep both inner children (borrow, not merge)");

    let root = root;
    check(&root, 2, true, &alloc);

    // The child that crossed sides and the donor's remainder both
    // stay reachable through the root.
    for k in [10u64, 1_000_000, 1_001_000] {
        let got = root.get(2, &k, &alloc);
        assert!(got.is_some_and(|v| v.0 == k), "surviving key {k} must remain reachable");
    }
    assert!(root.get(2, &0, &alloc).is_none(), "removed key 0 must be absent");
    root.drop_subtree(2, &mut alloc);
    assert_eq!(
        live.load(Relaxed),
        0,
        "teardown must drop every survivor exactly once \
         (positive = leak, negative = double-drop)"
    );
}

/// When both inner siblings sit at the minimum, the cascade merges
/// them, leaving the root a single child — whose subtree must be fully
/// valid. Hoisting that child (root shrink) is the tree layer's job
/// and is out of scope here.
#[test]
fn remove_cascades_a_merge_across_minimal_inner_nodes() {
    let live = Arc::new(AtomicIsize::new(0));
    let mut alloc: Boxes<u64, Counted, M> = Boxes::new();
    let (b, bptrs) = inner_with_occupancies(&[LMIN; IMIN], 1_000_000, &live, None, &mut alloc);
    let (a, _) = inner_with_occupancies(&[LMIN; IMIN], 0, &live, Some(bptrs[0]), &mut alloc);
    let total = (2 * IMIN * LMIN) as isize;
    let mut root = root_over(a, b, 1_000_000, &mut alloc);
    let got = root.remove(2, &0, &mut alloc);
    assert!(got.is_some_and(|v| v.0 == 0), "removing present key 0 must return its value");
    assert_eq!(live.load(Relaxed), total - 1, "exactly the removed value must drop");

    assert_eq!(
        root.len(),
        1,
        "minimal inner siblings must merge, leaving the root a single child \
         for the tree layer to hoist"
    );
    // The merged child is a fully valid NON-root inner.
    check(alloc.inner(root.children_ref()[0]), 1, false, &alloc);

    for k in [10u64, 1_000_000, 1_000_000 + 1_000 * (IMIN as u64 - 1)] {
        let got = root.get(2, &k, &alloc);
        assert!(got.is_some_and(|v| v.0 == k), "surviving key {k} must remain reachable");
    }
    root.drop_subtree(2, &mut alloc);
    assert_eq!(
        live.load(Relaxed),
        0,
        "teardown must drop every survivor exactly once \
         (positive = leak, negative = double-drop)"
    );
}

//    splitting_insert_child ─────────────────────────────────────────
//
// The scene is always the same: a child leaf of this node has just
// split — the new right leaf is already spliced into the LEAF CHAIN
// (that is `Leaf::splitting_insert`'s job) — and this node must now
// adopt the (separator, new child) pair: in place when it has room,
// splitting itself when full. Contract pinned, whichever path runs:
// the node counts the new child, every key in the subtree routes to
// its leaf, tree child order agrees with the leaf chain
// (`check_invariants`), and teardown drops every value exactly once.

/// Every key the scene's `n + 1` leaves hold, for routing sweeps.
fn scene_keys(n: usize, split_idx: usize) -> Vec<u64> {
    (0..n as u64)
        .map(|i| 100 * i)
        .chain([100 * split_idx as u64 + 50])
        .flat_map(|base| (0..LMIN as u64).map(move |j| base + j))
        .collect()
}

/// The separators the parent must hold after adopting the scene's
/// split without splitting itself: the old separators plus the new
/// one, in sorted order.
fn adopted_keys(n: usize, split_idx: usize) -> Vec<u64> {
    let mut keys: Vec<u64> =
        (1..n as u64).map(|i| 100 * i).chain([100 * split_idx as u64 + 50]).collect();
    keys.sort_unstable();
    keys
}

/// Adopting a split into a node with room must: count the new child,
/// slot the separator into sorted key order, keep tree child order in
/// agreement with the leaf chain, leave every key routable, and drop
/// every value exactly once on teardown. Swept over every split
/// position, at a small occupancy and at the fullest occupancy that
/// still has room (`M - 1` children).
#[test]
fn insert_unchecked_adopts_a_split_at_every_position() {
    for n in [3, M - 1] {
        for split_idx in 0..n {
            let live = Arc::new(AtomicIsize::new(0));
            let mut alloc: Boxes<u64, Counted, M> = Boxes::new();
            let (mut parent, sep, new_child) = adoption_scene(n, split_idx, &live, &mut alloc);
            parent.insert_child_unchecked(split_idx + 1, sep, new_child);

            assert_eq!(
                parent.len(),
                n + 1,
                "adopting a split must grow the child count by exactly one \
                 (n={n}, split_idx={split_idx})"
            );
            assert_eq!(
                parent.keys_ref(),
                &adopted_keys(n, split_idx)[..],
                "after adoption the keys must be the old separators plus the new one, \
                 in sorted order (n={n}, split_idx={split_idx})"
            );

            let node = parent;
            check(&node, 1, true, &alloc);

            for k in scene_keys(n, split_idx) {
                let got = node.get(1, &k, &alloc);
                assert!(
                    got.is_some_and(|v| v.0 == k),
                    "key {k} must route to its leaf after the adoption \
                     (n={n}, split_idx={split_idx})"
                );
            }
            node.drop_subtree(1, &mut alloc);
            assert_eq!(
                live.load(Relaxed),
                0,
                "teardown after an adoption must drop every value exactly once \
                 (positive = leak, negative = double-drop; n={n}, split_idx={split_idx})"
            );
        }
    }
}

/// `insert_child` on a node with room must adopt in place and report
/// no split — same contract as the direct `insert_unchecked` test,
/// through the dispatch.
#[test]
fn insert_child_with_room_adopts_in_place() {
    let live = Arc::new(AtomicIsize::new(0));
    let mut alloc: Boxes<u64, Counted, M> = Boxes::new();
    let (mut parent, sep, new_child) = adoption_scene(3, 1, &live, &mut alloc);

    let split = parent.insert_child(1, sep, new_child, &mut alloc);
    assert!(split.is_none(), "a node with room must adopt without splitting");
    assert_eq!(parent.len(), 4, "adopting a split must grow the child count by exactly one");
    assert_eq!(
        parent.keys_ref(),
        &adopted_keys(3, 1)[..],
        "after adoption the keys must be the old separators plus the new one, in order"
    );

    let node = parent;
    check(&node, 1, true, &alloc);
    for k in scene_keys(3, 1) {
        let got = node.get(1, &k, &alloc);
        assert!(got.is_some_and(|v| v.0 == k), "key {k} must route to its leaf");
    }
    node.drop_subtree(1, &mut alloc);
    assert_eq!(
        live.load(Relaxed),
        0,
        "teardown after an adoption must drop every value exactly once \
         (positive = leak, negative = double-drop)"
    );
}

/// `insert_child` on a FULL node must split it and hand back the
/// promoted separator and new right sibling for the caller to adopt
/// in turn — after which the reassembled two-level tree is fully
/// valid and every key still routes.
#[test]
fn insert_child_when_full_splits() {
    let live = Arc::new(AtomicIsize::new(0));
    let mut alloc: Boxes<u64, Counted, M> = Boxes::new();
    let (mut parent, sep, new_child) = adoption_scene(M, M / 2, &live, &mut alloc);

    let (promoted, right) = parent
        .insert_child(M / 2, sep, new_child, &mut alloc)
        .expect("a full node must split to adopt");

    // Adopt the split the way the parent's parent (or the tree root)
    // would.
    let left = alloc.alloc_inner(parent);
    let root = Inner::from_pair(promoted, left, right);
    check(&root, 2, true, &alloc);
    for k in scene_keys(M, M / 2) {
        let got = root.get(2, &k, &alloc);
        assert!(
            got.is_some_and(|v| v.0 == k),
            "key {k} must route to its leaf after the split"
        );
    }
    root.drop_subtree(2, &mut alloc);
    assert_eq!(
        live.load(Relaxed),
        0,
        "teardown after a split must drop every value exactly once \
         (positive = leak, negative = double-drop)"
    );
}

/// The heart of the split contract, swept over every insertion point
/// `0..M`: the two halves hold all `M + 1` children between them,
/// near-balanced and both at or above `MIN_OCCUPANCY`; the left keys,
/// then the promoted separator, then the right keys are exactly the
/// old separators plus the new one, in order (every key lands in
/// exactly one of the three destinations); the reassembled tree is
/// fully valid with every key routable; and teardown drops every
/// value exactly once — so every child handle ended up owned by
/// exactly one node.
#[test]
fn splitting_insert_child_covers_every_insertion_point() {
    for split_idx in 0..M {
        let live = Arc::new(AtomicIsize::new(0));
        let mut alloc: Boxes<u64, Counted, M> = Boxes::new();
        let (mut parent, sep, new_child) = adoption_scene(M, split_idx, &live, &mut alloc);

        let (promoted, right_ptr) =
            parent.splitting_insert_child(split_idx, sep, new_child, &mut alloc);

        {
            let right = alloc.inner(right_ptr);

            assert_eq!(
                parent.len() + right.len(),
                M + 1,
                "the halves must hold all M + 1 children between them \
                 (inserting at {split_idx})"
            );
            assert!(
                parent.len().abs_diff(right.len()) <= 1,
                "the split must be near-balanced: left={}, right={} \
                 (inserting at {split_idx})",
                parent.len(),
                right.len()
            );
            assert!(
                !parent.is_deficient() && !right.is_deficient(),
                "both halves must satisfy MIN_OCCUPANCY: left={}, right={} \
                 (inserting at {split_idx})",
                parent.len(),
                right.len()
            );

            let mut combined: Vec<u64> = parent.keys_ref().to_vec();
            combined.push(promoted);
            combined.extend_from_slice(right.keys_ref());
            assert_eq!(
                combined,
                adopted_keys(M, split_idx),
                "left keys, then the promoted separator, then right keys must be \
                 exactly the old separators plus the new one, in order \
                 (inserting at {split_idx})"
            );
        }

        let left = alloc.alloc_inner(parent);
        let root = Inner::from_pair(promoted, left, right_ptr);
        check(&root, 2, true, &alloc);
        for k in scene_keys(M, split_idx) {
            let got = root.get(2, &k, &alloc);
            assert!(
                got.is_some_and(|v| v.0 == k),
                "key {k} must route to its leaf after the split (inserting at {split_idx})"
            );
        }
        root.drop_subtree(2, &mut alloc);
        assert_eq!(
            live.load(Relaxed),
            0,
            "teardown after a split must drop every value exactly once — each child \
             handle must have ended up owned by exactly one node \
             (positive = leak, negative = double-drop; inserting at {split_idx})"
        );
    }
}

/// `from_pair` — the root-grow constructor — must produce a fully
/// valid two-child node: both children counted, the separator its
/// only key, every key routable to the correct side, teardown
/// exactly-once.
#[test]
fn from_pair_builds_a_valid_two_child_node() {
    let live = Arc::new(AtomicIsize::new(0));
    let mut alloc: Boxes<u64, Counted, M> = Boxes::new();
    let right_leaf = scene_leaf(100, &live, None, &mut alloc);
    let left_leaf = scene_leaf(0, &live, Some(right_leaf), &mut alloc);

    let node = Inner::from_pair(100, left_leaf, right_leaf);
    check(&node, 1, true, &alloc);
    for base in [0u64, 100] {
        for j in 0..LMIN as u64 {
            let k = base + j;
            let got = node.get(1, &k, &alloc);
            assert!(
                got.is_some_and(|v| v.0 == k),
                "key {k} must route through the separator to its side"
            );
        }
    }
    node.drop_subtree(1, &mut alloc);
    assert_eq!(
        live.load(Relaxed),
        0,
        "teardown must drop both children's values exactly once \
         (positive = leak, negative = double-drop)"
    );
}

/// `child_idx_for_key` must route by the separator convention — a
/// separator IS its right child's minimum key. Probes below every
/// separator, at each separator exactly, inside the gaps, and above
/// everything. The equality probes are the load-bearing ones: a key
/// EQUAL to a separator lives under the separator's RIGHT child.
#[test]
fn child_idx_for_key_routes_hits_gaps_and_extremes() {
    let live = Arc::new(AtomicIsize::new(0));
    let mut alloc: Boxes<u64, Counted, M> = Boxes::new();
    // Three children over the ranges 0.., 100.., and 200.. — so the
    // separators are 100 and 200, each its right child's min key.
    let right = scene_leaf(200, &live, None, &mut alloc);
    let mid = scene_leaf(100, &live, Some(right), &mut alloc);
    let left = scene_leaf(0, &live, Some(mid), &mut alloc);
    let node = Inner::from_parts(
        vec![100, 200],
        vec![left, mid, right],
    );

    assert_eq!(node.child_idx_for_key(&0), 0, "a key below every separator routes to child 0");
    assert_eq!(node.child_idx_for_key(&99), 0, "a gap key routes to the child covering it");
    assert_eq!(
        node.child_idx_for_key(&100),
        1,
        "a key EQUAL to a separator must route to the separator's RIGHT child — \
         the separator is that child's minimum key"
    );
    assert_eq!(node.child_idx_for_key(&150), 1, "a gap key routes to the child covering it");
    assert_eq!(
        node.child_idx_for_key(&199),
        1,
        "a key just below a separator routes to the separator's LEFT child"
    );
    assert_eq!(
        node.child_idx_for_key(&200),
        2,
        "a key equal to the LAST separator must route to the last child"
    );
    assert_eq!(
        node.child_idx_for_key(&u64::MAX),
        2,
        "a key above every separator routes to the last child"
    );
    node.drop_subtree(1, &mut alloc);
    assert_eq!(
        live.load(Relaxed),
        0,
        "teardown must drop every value exactly once \
         (positive = leak, negative = double-drop)"
    );
}
