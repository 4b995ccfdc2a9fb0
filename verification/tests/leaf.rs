//! The leaf primitives, apart from any tree.
use beets::allocator::boxed::Boxes;
use beets::allocator::{Addr, NodeAllocator};
use beets::leaf::{Landed, Leaf};
use std::sync::atomic::{AtomicIsize, Ordering::Relaxed};
use std::sync::Arc;

/// The fanout of a `u64` key.
const M: usize = 32;

/// The fewest pairs that a leaf other than the root may hold.
const LMIN: usize = 16;
const MIN: usize = LMIN;

/// The value stored under `k`.
fn v(k: u64) -> u64 {
    k.wrapping_mul(0x9E37_79B9).wrapping_add(13)
}

/// The keys `0..n` in a scrambled order.
fn shuffled(n: u64) -> Vec<u64> {
    let mut keys: Vec<u64> = (0..n).collect();
    let mut state = 0x2545_F491_4F6C_DD1Du64;
    for i in (1..keys.len()).rev() {
        state ^= state << 13;
        state ^= state >> 7;
        state ^= state << 17;
        keys.swap(i, (state % (i as u64 + 1)) as usize);
    }
    keys
}

/// The pairs of a leaf, in slot order.
fn entries<const N: usize>(l: &Leaf<u64, u64, N>) -> Vec<(u64, u64)> {
    (0..l.len())
        .map(|i| {
            let (k, x) = l.kv_ref_unchecked(i);
            (*k, *x)
        })
        .collect()
}

/// A value that counts how many of its kind are alive.
struct Counted {
    live: Arc<AtomicIsize>,
}

impl Counted {
    fn new(_val: u64, live: &Arc<AtomicIsize>) -> Self {
        live.fetch_add(1, Relaxed);
        Counted { live: Arc::clone(live) }
    }
}

impl Drop for Counted {
    fn drop(&mut self) {
        self.live.fetch_sub(1, Relaxed);
    }
}

/// Every leaf that a sorted stream is cut into, in order.
fn drain<V, I: Iterator<Item = (u64, V)>>(iter: I, alloc: &mut Boxes<u64, V, M>) -> Vec<Addr> {
    let mut stream = Leaf::<u64, V, M>::drain_sorted_iter(iter);
    let mut out = Vec::new();
    while let Some(at) = stream.next(alloc) {
        out.push(at);
    }
    out
}

/// Insert a key expected to be new into a leaf expected to have room, the
/// way a caller would: partition via `find_key`, then `insert_unchecked`.
fn insert_new(l: &mut Leaf<u64, u64, M>, k: u64) {
    let partition = l.find_key(&k);
    assert!(
        partition == l.len() || l.keys_ref()[partition] != k,
        "key {k} unexpectedly present"
    );
    l.insert_unchecked(partition, k, v(k));
}

/// Shuffled inserts land at the front, middle, and back (and into an empty
/// leaf); keys must be sorted with values in step after every step.
#[test]
fn inserts_stay_sorted_with_values_in_step() {
    let mut l: Leaf<u64, u64, M> = Leaf::new(None);
    for k in shuffled(M as u64 - 1) {
        insert_new(&mut l, k);
        assert!(
            l.keys_ref().windows(2).all(|w| w[0] < w[1]),
            "keys must stay sorted after every insert: {:?}",
            l.keys_ref()
        );
    }
    let expected: Vec<_> = (0..M as u64 - 1).map(|k| (k, v(k))).collect();
    assert_eq!(entries(&l), expected);
}

/// `find_key` is the partition point: the index of the key itself when
/// present, and of the first larger key (or `occupied`) when absent.
#[test]
fn find_key_locates_hits_and_gaps() {
    let mut l: Leaf<u64, u64, M> = Leaf::new(None);
    for k in 0..M as u64 - 1 {
        insert_new(&mut l, 2 * k + 100);
    }
    for i in 0..M as u64 - 1 {
        let k = 2 * i + 100;
        assert_eq!(l.find_key(&k), i as usize, "stored key {k}");
        assert_eq!(l.find_key(&(k + 1)), i as usize + 1, "gap above {k}");
    }
    assert_eq!(l.find_key(&0), 0, "below the smallest key");
    assert_eq!(l.find_key(&u64::MAX), l.len(), "above the largest key");
}

/// All `M` slots fill without splitting; `splitting_insert` only becomes
/// necessary on the insert *after* the leaf is full.
#[test]
fn fill_every_slot() {
    let mut l: Leaf<u64, u64, M> = Leaf::new(None);
    for k in shuffled(M as u64) {
        insert_new(&mut l, k);
    }
    assert_eq!(l.len(), M);
    let expected: Vec<_> = (0..M as u64).map(|k| (k, v(k))).collect();
    assert_eq!(entries(&l), expected);
}

/// Fill a leaf with the odd keys `1, 3, .., 2M-1`, then split-insert one new
/// even key. Sweeping `pos` over `0..=M` lands the new key before the first
/// stored key, between every adjacent pair, and after the last — every
/// possible insertion point, each from a fresh full leaf. After the split
/// the two leaves in slot order must hold exactly the old entries plus the
/// new one, sorted (which also proves left's keys sit below right's), and
/// the halves must be near-balanced with room to spare on both sides.
#[test]
fn split_covers_every_insertion_point() {
    let mut alloc: Boxes<u64, u64, M> = Boxes::new();
    let stored: Vec<u64> = (0..M as u64).map(|k| 2 * k + 1).collect();
    for pos in 0..=M as u64 {
        let mut l: Leaf<u64, u64, M> = Leaf::new(None);
        for &k in &stored {
            insert_new(&mut l, k);
        }

        let new_key = 2 * pos;
        let partition = l.find_key(&new_key);
        let right_ptr = l.splitting_insert(partition, new_key, v(new_key), &mut alloc);
        let right = alloc.dealloc_leaf(right_ptr);

        assert_eq!(
            l.next(),
            Some(right_ptr),
            "after a split, the left leaf's next must point at the new right leaf \
             (inserting {new_key})"
        );
        assert_eq!(
            right.next(), None,
            "a leaf with no successor must split into a right leaf with no successor \
             (inserting {new_key})"
        );

        let mut combined = entries(&l);
        combined.extend(entries(&right));
        let mut expected: Vec<_> =
            stored.iter().copied().chain([new_key]).map(|k| (k, v(k))).collect();
        expected.sort_unstable();
        assert_eq!(
            combined, expected,
            "left then right must hold exactly the old entries plus key {new_key}, in order"
        );

        assert_eq!(l.len() + right.len(), M + 1);
        assert!(
            l.len().abs_diff(right.len()) <= 1,
            "split must be near-balanced: left={}, right={} (inserting {new_key})",
            l.len(),
            right.len()
        );
        assert!(
            l.len() < M && right.len() < M,
            "both halves must have room to spare: left={}, right={} (inserting {new_key})",
            l.len(),
            right.len()
        );
    }
}

/// Splitting a leaf that already has a successor must splice the new right
/// leaf into the middle of the chain: left's `next` points at the new
/// leaf, and the new leaf inherits left's old successor — walking `next`
/// from the left leaf reaches the right leaf, then the old successor, so
/// no suffix of the leaf chain is orphaned.
#[test]
fn split_splices_into_sibling_chain() {
    let mut alloc: Boxes<u64, u64, M> = Boxes::new();
    let successor_ptr = alloc.alloc_leaf(Leaf::new(None));

    let mut l: Leaf<u64, u64, M> = Leaf::new(Some(successor_ptr));
    for k in 0..M as u64 {
        l.raw_append(2 * k + 1, v(2 * k + 1));
    }

    let new_key = 0;
    let right_ptr = l.splitting_insert(l.find_key(&new_key), new_key, v(new_key), &mut alloc);
    let right = alloc.dealloc_leaf(right_ptr);

    assert_eq!(
        l.next(),
        Some(right_ptr),
        "after a split, the left leaf's next must point at the new right leaf"
    );
    assert_eq!(
        right.next(),
        Some(successor_ptr),
        "the right leaf must inherit the left leaf's old successor"
    );
}

/// Even keys with a gap on each side of the range, so every probe class
/// exists: exact hits, and misses below, between, and above the stored keys.
#[test]
fn get_hits_stored_keys_only() {
    let mut l: Leaf<u64, u64, M> = Leaf::new(None);
    let keys: Vec<u64> = (0..M as u64 - 1).map(|k| 2 * k + 100).collect();
    for &k in &keys {
        insert_new(&mut l, k);
    }
    for &k in &keys {
        assert_eq!(l.get(&k), Some(&v(k)), "stored key {k} must be found");
        assert_eq!(l.get(&(k + 1)), None, "key {} was never inserted", k + 1);
    }
    assert_eq!(l.get(&0), None, "below the smallest key");
    assert_eq!(l.get(&99), None, "just below the smallest key");
    assert_eq!(l.get(&u64::MAX), None, "above the largest key");
}

#[test]
fn get_on_empty_leaf() {
    let l: Leaf<u64, u64, M> = Leaf::new(None);
    assert_eq!(l.get(&0), None);
    assert_eq!(l.get(&u64::MAX), None);
}

/// Removing a stored key must return its value and close the gap: after
/// every removal the survivors are exactly the not-yet-removed entries,
/// sorted with values in step, and a second probe for the removed key
/// misses. Draining in shuffled order hits removals at the front, middle,
/// and back, down to the empty leaf.
#[test]
fn remove_returns_value_and_closes_the_gap() {
    const N: u64 = M as u64 - 1;
    let mut l: Leaf<u64, u64, M> = Leaf::new(None);
    for k in 0..N {
        insert_new(&mut l, k);
    }

    let mut remaining: Vec<u64> = (0..N).collect();
    for k in shuffled(N) {
        assert_eq!(l.remove(&k), Some(v(k)), "removing stored key {k} must return its value");
        assert_eq!(l.remove(&k), None, "a second removal of {k} must miss");
        remaining.retain(|&r| r != k);
        let expected: Vec<_> = remaining.iter().map(|&r| (r, v(r))).collect();
        assert_eq!(
            entries(&l),
            expected,
            "survivors must be the unremoved entries, sorted with values in step \
             (just removed {k})"
        );
    }
    assert_eq!(l.len(), 0, "draining every key must empty the leaf");
}

/// Probes that miss — below, between, and above the stored keys, and on an
/// empty leaf — return `None` and leave the leaf untouched.
#[test]
fn remove_miss_leaves_leaf_untouched() {
    let mut empty: Leaf<u64, u64, M> = Leaf::new(None);
    assert_eq!(empty.remove(&0), None, "removing from an empty leaf");

    let mut l: Leaf<u64, u64, M> = Leaf::new(None);
    let keys: Vec<u64> = (0..M as u64 - 1).map(|k| 2 * k + 100).collect();
    for &k in &keys {
        insert_new(&mut l, k);
    }
    let before = entries(&l);

    assert_eq!(l.remove(&0), None, "below the smallest key");
    assert_eq!(l.remove(&101), None, "between stored keys");
    assert_eq!(l.remove(&u64::MAX), None, "above the largest key");
    assert_eq!(entries(&l), before, "missed removes must not disturb the leaf");
}

/// Every position of a *full* leaf must be removable: with all `M` slots
/// occupied, removing the key at each position in turn returns its value
/// and leaves the other `M - 1` entries in order.
#[test]
fn remove_at_every_position_of_a_full_leaf() {
    for target in 0..M as u64 {
        let mut l: Leaf<u64, u64, M> = Leaf::new(None);
        for k in 0..M as u64 {
            l.raw_append(k, v(k));
        }

        assert_eq!(
            l.remove(&target),
            Some(v(target)),
            "removing key {target} from a full leaf must return its value"
        );
        assert_eq!(l.len(), M - 1);
        let expected: Vec<_> =
            (0..M as u64).filter(|&k| k != target).map(|k| (k, v(k))).collect();
        assert_eq!(
            entries(&l),
            expected,
            "survivors must close the gap in order (removed {target} from a full leaf)"
        );
    }
}

#[test]
fn values_drop_exactly_once() {
    const N: u64 = M as u64 - 1;
    let live = Arc::new(AtomicIsize::new(0));
    {
        let mut l: Leaf<u64, Counted, M> = Leaf::new(None);
        for k in shuffled(N) {
            let partition = l.find_key(&k);
            l.insert_unchecked(partition, k, Counted::new(v(k), &live));
        }
        assert_eq!(live.load(Relaxed), N as isize, "one live value per stored key");
    }
    assert_eq!(
        live.load(Relaxed),
        0,
        "dropping the leaf must drop every value exactly once \
         (positive = leak, negative = double-drop)"
    );
}

/// `remove` transfers ownership of the value to the caller: dropping the
/// returned value drops it exactly once, the survivors drop exactly once
/// when the leaf drops, and nothing drops twice or leaks. Removals at the
/// front, middle, and back, starting from a full leaf.
#[test]
fn remove_drops_values_exactly_once() {
    let live = Arc::new(AtomicIsize::new(0));
    {
        let mut l: Leaf<u64, Counted, M> = Leaf::new(None);
        for k in 0..M as u64 {
            l.raw_append(k, Counted::new(v(k), &live));
        }

        let mut expect_live = M as isize;
        for k in [0, M as u64 / 2, M as u64 - 1] {
            let removed = l.remove(&k).expect("stored key must come out");
            assert_eq!(
                live.load(Relaxed),
                expect_live,
                "removal itself must not drop anything (removed {k})"
            );
            drop(removed);
            expect_live -= 1;
            assert_eq!(
                live.load(Relaxed),
                expect_live,
                "dropping the returned value must drop it exactly once (removed {k})"
            );
        }
    }
    assert_eq!(
        live.load(Relaxed),
        0,
        "dropping the leaf must drop each survivor exactly once \
         (positive = leak, negative = double-drop)"
    );
}

/// Splitting moves values, never duplicates or loses them: after the split
/// exactly `M + 1` values are live, and dropping both halves drops each
/// exactly once. Exercised with the new key landing in the left half, the
/// right half, and past the end.
#[test]
fn split_drops_values_exactly_once() {
    let mut alloc: Boxes<u64, Counted, M> = Boxes::new();
    for pos in [0u64, M as u64 - 1, M as u64] {
        let live = Arc::new(AtomicIsize::new(0));
        {
            let mut l: Leaf<u64, Counted, M> = Leaf::new(None);
            for k in 0..M as u64 {
                l.raw_append(2 * k + 1, Counted::new(v(2 * k + 1), &live));
            }

            let new_key = 2 * pos;
            let partition = l.find_key(&new_key);
            let at = l.splitting_insert(
                partition,
                new_key,
                Counted::new(v(new_key), &live),
                &mut alloc,
            );
            let right = alloc.dealloc_leaf(at);
            assert_eq!(
                live.load(Relaxed),
                M as isize + 1,
                "one live value per stored key after splitting on key {new_key}"
            );
            drop(right);
        }
        assert_eq!(
            live.load(Relaxed),
            0,
            "dropping both halves must drop every value exactly once \
             (positive = leak, negative = double-drop; split on key {})",
            2 * pos
        );
    }
}

/// `drain_sorted_iter` chunks a sorted stream into full leaves,
/// pre-linked in yield order: each leaf's `next` is the leaf yielded
/// after it, and the final leaf's is `None`. The 3-pair tail here is
/// short, so the final two leaves must arrive rebalanced: the tail
/// brought up to `MIN_OCCUPANCY`, its neighbor down by the difference.
#[test]
fn drain_chunks_and_links_in_order() {
    const TAIL: usize = 3;
    const N: u64 = (2 * M + TAIL) as u64;
    let mut alloc: Boxes<u64, u64, M> = Boxes::new();
    let yielded = drain((0..N).map(|k| (k, v(k))), &mut alloc);
    assert_eq!(yielded.len(), 3, "{N} pairs at fanout {M} must make exactly 3 leaves");

    let ptrs = yielded.clone();
    let leaves: Vec<_> = yielded.into_iter().map(|at| alloc.dealloc_leaf(at)).collect();
    assert_eq!(leaves[0].next(), Some(ptrs[1]), "leaf 0 must link to leaf 1");
    assert_eq!(leaves[1].next(), Some(ptrs[2]), "leaf 1 must link to leaf 2");
    assert_eq!(leaves[2].next(), None, "the final leaf must not link onward");

    let want = [M, M - (LMIN - TAIL), LMIN];
    let mut expect = 0u64;
    for (i, leaf) in leaves.iter().enumerate() {
        assert_eq!(leaf.len(), want[i], "leaf {i} occupancy");
        for pair in entries(leaf) {
            assert_eq!(pair, (expect, v(expect)), "pairs must stay in stream order");
            expect += 1;
        }
    }
    assert_eq!(expect, N, "every pair must land in exactly one leaf");
}

/// The worst ragged tail — one pair past an exact multiple — must be
/// repaired: every leaf of a multi-leaf drain meets `MIN_OCCUPANCY`,
/// with stream order and the chain both intact.
#[test]
fn drain_repairs_a_deficient_tail() {
    const N: u64 = 2 * M as u64 + 1;
    let mut alloc: Boxes<u64, u64, M> = Boxes::new();
    let yielded = drain((0..N).map(|k| (k, v(k))), &mut alloc);
    assert_eq!(yielded.len(), 3, "{N} pairs at fanout {M} must make exactly 3 leaves");

    let ptrs = yielded.clone();
    let leaves: Vec<_> = yielded.into_iter().map(|at| alloc.dealloc_leaf(at)).collect();
    assert_eq!(
        leaves.iter().map(|l| l.len()).collect::<Vec<_>>(),
        [M, M - (LMIN - 1), LMIN],
        "the tail must be brought up to MIN_OCCUPANCY from its neighbor"
    );

    let mut expect = 0u64;
    for leaf in &leaves {
        for pair in entries(leaf) {
            assert_eq!(pair, (expect, v(expect)), "repair must preserve stream order");
            expect += 1;
        }
    }
    assert_eq!(expect, N, "every pair must land in exactly one leaf");

    assert_eq!(leaves[0].next(), Some(ptrs[1]), "the chain must survive the repair");
    assert_eq!(leaves[1].next(), Some(ptrs[2]), "the chain must survive the repair");
    assert_eq!(leaves[2].next(), None, "the final leaf must not link onward");
}

/// A lone short chunk has no neighbor to borrow from and needs none:
/// it is the root-to-be, exempt from `MIN_OCCUPANCY`, and passes
/// through unrepaired.
#[test]
fn drain_passes_a_lone_short_leaf_through() {
    let mut alloc: Boxes<u64, u64, M> = Boxes::new();
    let mut yielded = drain((0..2u64).map(|k| (k, v(k))), &mut alloc);
    assert_eq!(yielded.len(), 1);
    let leaf = alloc.dealloc_leaf(yielded.pop().expect("just asserted one leaf"));
    assert_eq!(leaf.len(), 2);
    assert_eq!(entries(&leaf), vec![(0, v(0)), (1, v(1))]);
    assert_eq!(leaf.next(), None);
}

/// `drain_sorted_iter` terminates: an exact multiple of `M` yields only
/// full leaves (no empty tail), an empty source yields nothing, and an
/// exhausted iterator keeps returning `None`.
#[test]
fn drain_terminates_without_empty_tail() {
    let mut alloc: Boxes<u64, u64, M> = Boxes::new();
    let mut it = Leaf::<u64, u64, M>::drain_sorted_iter((0..2 * M as u64).map(|k| (k, v(k))));
    // The bound guards the test against an unbounded drain.
    let mut yielded: Vec<Addr> = Vec::new();
    while yielded.len() < 5 {
        match it.next(&mut alloc) {
            Some(at) => yielded.push(at),
            None => break,
        }
    }
    assert_eq!(yielded.len(), 2, "an exact multiple of M must make only full leaves");
    assert!(it.next(&mut alloc).is_none(), "an exhausted drain must keep returning None");

    let leaves: Vec<_> = yielded.into_iter().map(|at| alloc.dealloc_leaf(at)).collect();
    assert!(leaves.iter().all(|l| l.len() == M), "both leaves must be full");
    assert_eq!(leaves[1].next(), None, "the final leaf must not link onward");

    let mut empty = Leaf::<u64, u64, M>::drain_sorted_iter(core::iter::empty::<(u64, u64)>());
    assert!(empty.next(&mut alloc).is_none(), "an empty source must yield no leaves");
    assert!(empty.next(&mut alloc).is_none(), "and must stay exhausted");
}

/// Values flow through `drain_sorted_iter` into the leaves without
/// dropping — the drain itself drops nothing — and every value drops
/// exactly once when the leaves drop.
#[test]
fn drain_values_drop_exactly_once() {
    const N: u64 = M as u64 + 2;
    let live = Arc::new(AtomicIsize::new(0));
    {
        let mut alloc: Boxes<u64, Counted, M> = Boxes::new();
        let items = (0..N).map(|k| (k, Counted::new(v(k), &live)));
        let yielded = drain(items, &mut alloc);
        let leaves: Vec<_> = yielded.into_iter().map(|at| alloc.dealloc_leaf(at)).collect();
        assert_eq!(leaves.len(), 2);
        assert_eq!(live.load(Relaxed), N as isize, "one live value per drained pair");
    }
    assert_eq!(
        live.load(Relaxed),
        0,
        "dropping the leaves must drop every value exactly once \
         (positive = leak, negative = double-drop)"
    );
}

/// Drive `merge` the way a parent would: allocate the right sibling, link it in as `left`'s
/// successor, then take it back by value and fold it in.
fn merge_into<V>(left: &mut Leaf<u64, V, M>, right: Leaf<u64, V, M>) {
    let mut alloc: Boxes<u64, V, M> = Boxes::new();
    let right_ptr = alloc.alloc_leaf(right);
    left.set_next(Some(right_ptr));
    left.merge(alloc.dealloc_leaf(right_ptr))
}

/// Merging appends the right sibling's pairs after the left's: the
/// merged leaf holds exactly both sides' entries, sorted with values in
/// step, occupancies summed. Swept over every exactly-full shape
/// (`a + b == M`) plus a couple of loose fits.
#[test]
fn merge_concatenates_both_sides_in_order() {
    let mut shapes: Vec<(usize, usize)> = (1..M).map(|a| (a, M - a)).collect();
    shapes.extend([(1, 1), (2, 3)]);

    for (a, b) in shapes {
        let mut left: Leaf<u64, u64, M> = Leaf::new(None);
        for k in 0..a as u64 {
            left.raw_append(k, v(k));
        }
        let mut right: Leaf<u64, u64, M> = Leaf::new(None);
        for k in 0..b as u64 {
            right.raw_append(100 + k, v(100 + k));
        }

        merge_into(&mut left, right);

        assert_eq!(
            left.len(),
            a + b,
            "merged occupancy must be the sum of both sides (left={a}, right={b})"
        );
        let expected: Vec<_> =
            (0..a as u64).chain((0..b as u64).map(|k| 100 + k)).map(|k| (k, v(k))).collect();
        assert_eq!(
            entries(&left),
            expected,
            "merged leaf must hold both sides' entries in order (left={a}, right={b})"
        );
    }
}

/// Merging splices the right sibling out of the leaf chain: the left
/// leaf takes over the sibling's successor — a live leaf, or `None` at
/// the end of the chain.
#[test]
fn merge_takes_over_the_right_siblings_successor() {
    let mut alloc: Boxes<u64, u64, M> = Boxes::new();
    let successor_ptr = alloc.alloc_leaf(Leaf::new(None));

    let mut left: Leaf<u64, u64, M> = Leaf::new(None);
    left.raw_append(0, v(0));
    let mut right: Leaf<u64, u64, M> = Leaf::new(Some(successor_ptr));
    right.raw_append(100, v(100));

    merge_into(&mut left, right);
    assert_eq!(
        left.next(),
        Some(successor_ptr),
        "after a merge the left leaf's next must be the right sibling's old successor"
    );

    let mut tail: Leaf<u64, u64, M> = Leaf::new(None);
    tail.raw_append(200, v(200));
    merge_into(&mut left, tail);
    assert_eq!(
        left.next(), None,
        "merging away the last leaf in the chain must leave the left leaf with no successor"
    );
}

/// An empty right sibling merges away like any other — and the chain
/// must still be spliced: the left leaf takes over the empty sibling's
/// successor, with its own entries untouched.
#[test]
fn merge_of_an_empty_right_sibling_still_splices_the_chain() {
    let mut alloc: Boxes<u64, u64, M> = Boxes::new();
    let successor_ptr = alloc.alloc_leaf(Leaf::new(None));

    let mut left: Leaf<u64, u64, M> = Leaf::new(None);
    for k in 0..3 {
        left.raw_append(k, v(k));
    }
    let before = entries(&left);

    let right: Leaf<u64, u64, M> = Leaf::new(Some(successor_ptr));
    merge_into(&mut left, right);

    assert_eq!(
        entries(&left),
        before,
        "merging an empty sibling must not disturb the left leaf's entries"
    );
    assert_eq!(
        left.next(),
        Some(successor_ptr),
        "after a merge the left leaf's next must be the right sibling's old successor — \
         even when that sibling is empty"
    );
}

/// Merging into an empty left leaf takes over the sibling wholesale:
/// its entries and its successor both come across.
#[test]
fn merge_into_an_empty_left_sibling_takes_over_contents_and_successor() {
    let mut alloc: Boxes<u64, u64, M> = Boxes::new();
    let successor_ptr = alloc.alloc_leaf(Leaf::new(None));

    let mut left: Leaf<u64, u64, M> = Leaf::new(None);
    let mut right: Leaf<u64, u64, M> = Leaf::new(Some(successor_ptr));
    for k in 0..3 {
        right.raw_append(100 + k, v(100 + k));
    }
    let expected = entries(&right);

    merge_into(&mut left, right);

    assert_eq!(
        entries(&left),
        expected,
        "an empty left leaf must end up holding exactly the sibling's entries"
    );
    assert_eq!(
        left.next(),
        Some(successor_ptr),
        "after a merge the left leaf's next must be the right sibling's old successor"
    );
}

/// Merging moves values, never drops or duplicates them: the live count
/// is unchanged by the merge itself, and dropping the merged leaf drops
/// every value from both sides exactly once.
#[test]
fn merge_drops_values_exactly_once() {
    let live = Arc::new(AtomicIsize::new(0));
    {
        let mut left: Leaf<u64, Counted, M> = Leaf::new(None);
        for k in 0..3 {
            left.raw_append(k, Counted::new(v(k), &live));
        }
        let mut right: Leaf<u64, Counted, M> = Leaf::new(None);
        for k in 0..2 {
            right.raw_append(100 + k, Counted::new(v(100 + k), &live));
        }
        assert_eq!(live.load(Relaxed), 5, "one live value per stored key before the merge");

        merge_into(&mut left, right);
        assert_eq!(live.load(Relaxed), 5, "the merge itself must not drop any value");
    }
    assert_eq!(
        live.load(Relaxed),
        0,
        "dropping the merged leaf must drop every value from both sides exactly once \
         (positive = leak, negative = double-drop)"
    );
}

/// A full leaf holding the odd keys `1, 3, .., 2M-1`, so that sweeping the
/// even keys `0, 2, .., 2M` lands a new key at every possible insertion
/// point.
fn full_leaf<const N: usize>() -> Leaf<u64, u64, N> {
    let mut l = Leaf::new(None);
    for k in 0..N as u64 {
        l.raw_append(2 * k + 1, v(2 * k + 1));
    }
    l
}

/// `[u8; N]` keys let the tests hit fanouts other than a u64's.
fn bkey<const N: usize>(k: u8) -> [u8; N] {
    [k; N]
}

/// Splitting a full odd-fanout leaf must stay near-balanced at every
/// insertion point: the two halves hold `M + 1` entries total, differing in
/// occupancy by at most one.
#[test]
fn split_is_near_balanced_at_odd_fanout() {
    const M5: usize = 5;
    let mut alloc: Boxes<[u8; 80], u64, M5> = Boxes::new();
    for pos in 0..=M5 as u8 {
        let mut l: Leaf<[u8; 80], u64, M5> = Leaf::new(None);
        for k in 0..M5 as u8 {
            l.raw_append(bkey(2 * k + 1), v(k as u64));
        }

        let new_key = bkey(2 * pos);
        let partition = l.find_key(&new_key);
        let right = { let at = l.splitting_insert(partition, new_key, v(pos as u64), &mut alloc); alloc.dealloc_leaf(at) };

        assert_eq!(l.len() + right.len(), M5 + 1);
        assert!(
            l.len().abs_diff(right.len()) <= 1,
            "split must be near-balanced: left={}, right={} (inserting at partition {partition})",
            l.len(),
            right.len()
        );
    }
}

/// Splitting must leave room to spare in *both* halves — a sibling that
/// comes out of a split already full defeats the point of splitting. Pinned
/// at the minimum legal fanout, where headroom is scarcest.
#[test]
fn split_leaves_room_in_both_halves_at_minimum_fanout() {
    const M3: usize = 3;
    let mut alloc: Boxes<[u8; 121], u64, M3> = Boxes::new();
    for pos in 0..=M3 as u8 {
        let mut l: Leaf<[u8; 121], u64, M3> = Leaf::new(None);
        for k in 0..M3 as u8 {
            l.raw_append(bkey(2 * k + 1), v(k as u64));
        }

        let new_key = bkey(2 * pos);
        let partition = l.find_key(&new_key);
        let right = { let at = l.splitting_insert(partition, new_key, v(pos as u64), &mut alloc); alloc.dealloc_leaf(at) };

        assert!(
            l.len() < M3 && right.len() < M3,
            "both halves must have room to spare: left={}, right={} (inserting at partition {partition})",
            l.len(),
            right.len()
        );
    }
}

/// A parent splitting a full child issues the split-insert, then stores the
/// right sibling's first key as the separator. Routing by that separator
/// (`key < separator` goes left, `key >= separator` goes right) must find
/// every one of the `M + 1` entries in the leaf it routes to — most
/// pointedly the separator key itself, which lives in the right leaf and is
/// the first casualty of an off-by-one in the routing comparison. Swept
/// over every insertion point.
#[test]
fn separator_routes_every_entry_after_split() {
    let mut alloc: Boxes<u64, u64, M> = Boxes::new();
    for pos in 0..=M as u64 {
        let mut l = full_leaf::<M>();

        let new_key = 2 * pos;
        let partition = l.find_key(&new_key);
        let right = { let at = l.splitting_insert(partition, new_key, v(new_key), &mut alloc); alloc.dealloc_leaf(at) };
        let separator = right.keys_ref()[0];

        assert_eq!(
            right.get(&separator),
            Some(&v(separator)),
            "the separator key itself must be served by the right leaf \
             (inserted {new_key} at partition {partition})"
        );

        let all_keys = (0..M as u64).map(|k| 2 * k + 1).chain([new_key]);
        for k in all_keys {
            let routed = if k < separator { &l } else { &right };
            assert_eq!(
                routed.get(&k),
                Some(&v(k)),
                "key {k} lost after split: separator {separator} routes it to the \
                 {} leaf, which does not hold it (inserted {new_key} at partition {partition})",
                if k < separator { "left" } else { "right" },
            );
        }
    }
}

/// A second value for the same key, distinct from `v(k)`, for replacements.
fn v2(k: u64) -> u64 {
    v(k) ^ 0xF00D
}

/// New keys inserted in shuffled order below capacity report no split and
/// keep the leaf sorted with values in step; all `M` slots fill before
/// any split becomes necessary.
#[test]
fn insert_fills_every_slot_without_splitting() {
    let mut alloc: Boxes<u64, u64, M> = Boxes::new();
    let mut l: Leaf<u64, u64, M> = Leaf::new(None);
    for k in shuffled(M as u64) {
        let (replaced, split) = l.insert(k, v(k), &mut alloc);
        assert!(replaced.is_none(), "key {k} is new — there is no value to replace");
        assert!(split.is_none(), "no split may occur while the leaf has room (inserting {k})");
    }
    assert_eq!(l.len(), M, "all M slots must be usable");
    let expected: Vec<_> = (0..M as u64).map(|k| (k, v(k))).collect();
    assert_eq!(entries(&l), expected, "keys sorted with values in step");
}

/// Inserting a new key into a full leaf must split: the call returns the
/// new right sibling, the two halves hold exactly the old entries plus
/// the new one in order, near-balanced with room to spare, and the
/// sibling chain is spliced. Swept over every insertion point.
#[test]
fn insert_into_a_full_leaf_splits() {
    let mut alloc: Boxes<u64, u64, M> = Boxes::new();
    let stored: Vec<u64> = (0..M as u64).map(|k| 2 * k + 1).collect();
    for pos in 0..=M as u64 {
        let mut l: Leaf<u64, u64, M> = Leaf::new(None);
        for &k in &stored {
            l.raw_append(k, v(k));
        }

        let new_key = 2 * pos;
        let (replaced, split) = l.insert(new_key, v(new_key), &mut alloc);
        assert!(replaced.is_none(), "key {new_key} is new — there is no value to replace");
        let right_ptr = split.expect("a full leaf must split on a key it does not hold");
        let right = alloc.dealloc_leaf(right_ptr);

        assert_eq!(
            l.next(),
            Some(right_ptr),
            "left's next must point at the new right leaf (inserting {new_key})"
        );

        let mut combined = entries(&l);
        combined.extend(entries(&right));
        let mut expected: Vec<_> =
            stored.iter().copied().chain([new_key]).map(|k| (k, v(k))).collect();
        expected.sort_unstable();
        assert_eq!(
            combined, expected,
            "left then right must hold exactly the old entries plus key {new_key}, in order"
        );

        assert_eq!(l.len() + right.len(), M + 1);
        assert!(
            l.len().abs_diff(right.len()) <= 1,
            "split must be near-balanced: left={}, right={} (inserting {new_key})",
            l.len(),
            right.len()
        );
        assert!(
            l.len() < M && right.len() < M,
            "both halves must have room to spare: left={}, right={} (inserting {new_key})",
            l.len(),
            right.len()
        );
    }
}

/// Inserting a key the leaf already holds must replace its value in
/// place: no split reported, occupancy unchanged, the new value served,
/// every other entry untouched. Checked at the front, middle, and back of
/// a partially-full leaf.
#[test]
fn insert_replaces_existing_key_in_place() {
    let mut alloc: Boxes<u64, u64, M> = Boxes::new();
    const N: u64 = M as u64 - 1;
    for target in [0, N / 2, N - 1] {
        let mut l: Leaf<u64, u64, M> = Leaf::new(None);
        for k in 0..N {
            l.raw_append(k, v(k));
        }

        let (replaced, split) = l.insert(target, v2(target), &mut alloc);
        assert!(split.is_none(), "replacing the value of stored key {target} must not split");
        assert_eq!(
            replaced,
            Some(v(target)),
            "the displaced value of stored key {target} must be handed back"
        );
        assert_eq!(
            l.len(), N as usize,
            "replacing the value of stored key {target} must not change occupancy"
        );
        assert_eq!(
            l.get(&target),
            Some(&v2(target)),
            "stored key {target} must serve the value it was last given"
        );
        let expected: Vec<_> =
            (0..N).map(|k| (k, if k == target { v2(k) } else { v(k) })).collect();
        assert_eq!(
            entries(&l),
            expected,
            "other entries must be untouched (replaced {target})"
        );
    }
}

/// A full leaf asked to store a key it already holds must also replace in
/// place — never split: no new sibling, occupancy still `M`, the new
/// value served.
#[test]
fn insert_of_existing_key_must_not_split_a_full_leaf() {
    let mut alloc: Boxes<u64, u64, M> = Boxes::new();
    for target in [0, M as u64 / 2, M as u64 - 1] {
        let mut l: Leaf<u64, u64, M> = Leaf::new(None);
        for k in 0..M as u64 {
            l.raw_append(k, v(k));
        }

        let (replaced, split) = l.insert(target, v2(target), &mut alloc);
        assert!(split.is_none(), "a full leaf must not split over stored key {target}");
        assert_eq!(
            replaced,
            Some(v(target)),
            "the displaced value of stored key {target} must be handed back"
        );
        assert_eq!(l.len(), M, "occupancy must stay M (replaced {target})");
        assert_eq!(
            l.get(&target),
            Some(&v2(target)),
            "stored key {target} must serve the value it was last given"
        );
    }
}

/// A replacement transfers ownership of the displaced value to the
/// caller: replacing drops nothing by itself, dropping the returned value
/// drops it exactly once, and the survivors drop exactly once with the
/// leaf — nothing leaks, nothing double-drops.
#[test]
fn replaced_values_drop_exactly_once() {
    let mut alloc: Boxes<u64, Counted, M> = Boxes::new();
    const N: u64 = M as u64 - 1;
    let live = Arc::new(AtomicIsize::new(0));
    {
        let mut l: Leaf<u64, Counted, M> = Leaf::new(None);
        for k in 0..N {
            l.raw_append(k, Counted::new(v(k), &live));
        }
        assert_eq!(live.load(Relaxed), N as isize, "one live value per stored key");

        let target = N / 2;
        let (replaced, split) = l.insert(target, Counted::new(v2(target), &live), &mut alloc);
        assert!(split.is_none(), "replacing the value of stored key {target} must not split");
        let old = replaced.expect("the displaced value of a stored key must be handed back");
        assert_eq!(
            live.load(Relaxed),
            N as isize + 1,
            "replacement itself must not drop anything: the displaced value is now \
             owned by the caller"
        );
        drop(old);
        assert_eq!(
            live.load(Relaxed),
            N as isize,
            "dropping the returned value must drop it exactly once"
        );
    }
    assert_eq!(
        live.load(Relaxed),
        0,
        "dropping the leaf must drop every value exactly once \
         (positive = leak, negative = double-drop)"
    );
}

/// The insert path as a whole moves values, never duplicates or loses
/// them: `M + 1` distinct keys through `insert` (forcing exactly one
/// split), then both halves dropped — every value drops exactly once.
#[test]
fn insert_path_drops_values_exactly_once() {
    let mut alloc: Boxes<u64, Counted, M> = Boxes::new();
    let live = Arc::new(AtomicIsize::new(0));
    {
        let mut l: Leaf<u64, Counted, M> = Leaf::new(None);
        let mut right = None;
        for k in 0..=M as u64 {
            let (replaced, split) = l.insert(k, Counted::new(v(k), &live), &mut alloc);
            assert!(replaced.is_none(), "key {k} is new — there is no value to replace");
            if let Some(ptr) = split {
                assert!(right.is_none(), "only one split can occur in M + 1 inserts");
                right = Some(alloc.dealloc_leaf(ptr));
            }
        }
        assert!(right.is_some(), "M + 1 distinct keys cannot fit in one leaf");
        assert_eq!(live.load(Relaxed), M as isize + 1, "one live value per stored key");
    }
    assert_eq!(
        live.load(Relaxed),
        0,
        "dropping both halves must drop every value exactly once \
         (positive = leak, negative = double-drop)"
    );
}

/// Below capacity, `insert_at` shift-inserts at the given partition,
/// and the returned slot pointer addresses the new value — at every
/// position.
#[test]
fn insert_at_returns_the_inserted_values_slot_below_capacity() {
    let mut alloc: Boxes<u64, u64, M> = Boxes::new();
    for p in 0..M {
        // M - 1 odd keys; the even probe key lands at position `p`.
        let mut l: Leaf<u64, u64, M> = Leaf::new(None);
        for k in 0..(M - 1) as u64 {
            l.raw_append(2 * k + 1, v(2 * k + 1));
        }

        let key = 2 * p as u64;
        let (landed, split) = l.insert_at(p, key, v(key), &mut alloc);

        assert!(split.is_none(), "a leaf below capacity must not split (partition {p})");
        assert_eq!(l.len(), M, "the insert must add one pair (partition {p})");
        assert_eq!(landed, Landed::Here(p));
        assert_eq!(
            *l.val_ref_unchecked(p),
            v(key),
            "the returned slot must hold the inserted value (partition {p})"
        );
        assert_eq!(l.get(&key), Some(&v(key)), "the pair must be served (partition {p})");
    }
}

/// `insert_at` on a full leaf splits, and the returned slot pointer
/// must address the inserted value on whichever side it landed —
/// swept across every partition, covering both sides and the
/// boundary.
#[test]
fn insert_at_on_a_full_leaf_reports_the_slot_across_the_split() {
    let mut alloc: Boxes<u64, u64, M> = Boxes::new();
    for p in 0..=M {
        // Full leaf: keys 10, 20, ..., 10·M, a gap at every position.
        let mut l: Leaf<u64, u64, M> = Leaf::new(None);
        for k in 1..=M as u64 {
            l.raw_append(10 * k, v(10 * k));
        }

        let key = 10 * p as u64 + 5;
        let (landed, split) = l.insert_at(p, key, v(key), &mut alloc);
        let right_ptr = split.expect("inserting into a full leaf must split");
        let landed_val = match landed {
            Landed::Here(i) => *l.val_ref_unchecked(i),
            Landed::Right(i) => *alloc.leaf(right_ptr).val_ref_unchecked(i),
        };
        assert_eq!(
            landed_val,
            v(key),
            "the returned slot must hold the inserted value (partition {p})"
        );

        assert_eq!(
            l.next(),
            Some(right_ptr),
            "the split must splice the right sibling into the chain (partition {p})"
        );

        let right = alloc.dealloc_leaf(right_ptr);
        let got: Vec<(u64, u64)> = entries(&l).into_iter().chain(entries(&right)).collect();
        let mut want: Vec<(u64, u64)> = (1..=M as u64).map(|k| (10 * k, v(10 * k))).collect();
        want.insert(p, (key, v(key)));
        assert_eq!(
            got, want,
            "the two leaves together must hold the old pairs plus the new one, \
             in order (partition {p})"
        );
    }
}

/// `remove_at` returns the slot's pair and the survivors close
/// ranks, at every position of a full leaf.
#[test]
fn remove_at_returns_the_pair_and_closes_the_gap() {
    for idx in 0..M {
        let mut l: Leaf<u64, u64, M> = Leaf::new(None);
        for k in 0..M as u64 {
            l.raw_append(10 * k, v(10 * k));
        }

        let pair = l.remove_at(idx);
        assert_eq!(
            pair,
            (10 * idx as u64, v(10 * idx as u64)),
            "remove_at must return the slot's pair (slot {idx})"
        );
        assert_eq!(l.len(), M - 1, "remove_at must shrink the leaf by one pair (slot {idx})");

        let want: Vec<(u64, u64)> =
            (0..M as u64).filter(|k| *k != idx as u64).map(|k| (10 * k, v(10 * k))).collect();
        assert_eq!(entries(&l), want, "the survivors must close ranks in order (slot {idx})");
    }
}

/// The by-slot value accessors address the same slots as
/// `kv_ref_unchecked`, and writes through the mutable one stick.
#[test]
fn val_accessors_address_the_slot() {
    let mut l: Leaf<u64, u64, M> = Leaf::new(None);
    for k in 0..4u64 {
        l.raw_append(k, v(k));
    }

    for idx in 0..4 {
        assert_eq!(
            l.val_ref_unchecked(idx),
            l.kv_ref_unchecked(idx).1,
            "val_ref_unchecked must view slot {idx}'s value"
        );
    }
    *l.val_mut_unchecked(2) = 999;
    assert_eq!(l.get(&2), Some(&999), "a val_mut_unchecked write must be visible to get");
}

/// `count` keys `base, base + 10, base + 20, ..` — what
/// `leaf_of(base, count)` holds, in order.
fn keys(base: u64, count: usize) -> impl Iterator<Item = u64> {
    (0..count as u64).map(move |i| base + i * 10)
}

/// The (key, value) pairs expected for `ks`.
fn pairs(ks: impl IntoIterator<Item = u64>) -> Vec<(u64, u64)> {
    ks.into_iter().map(|k| (k, v(k))).collect()
}

/// A leaf holding `keys(base, count)`, values from `v`.
fn leaf_of(base: u64, count: usize) -> Leaf<u64, u64, M> {
    let mut leaf: Leaf<u64, u64, M> = Leaf::new(None);
    for k in keys(base, count) {
        leaf.raw_append(k, v(k));
    }
    leaf
}

/// Stealing from the right sibling moves exactly the donor's FIRST
/// pair to the receiver's end, and returns the donor's new first key
/// as the replacement separator.
#[test]
fn steal_from_right_moves_the_donors_first_pair_and_returns_its_new_min() {
    let mut left = leaf_of(0, MIN - 1); // deficient receiver
    let mut right = leaf_of(10_000, MIN + 1); // donor strictly above minimum
    let right_ptr = Addr { slab: 0, slot: 7 };
    left.set_next(Some(right_ptr));
    let sep = left.steal_from_right(&mut right);

    assert_eq!(sep, 10_010, "the replacement separator must be the donor's new first key");
    assert_eq!(
        entries(&left),
        pairs(keys(0, MIN - 1).chain([10_000])),
        "the receiver must gain exactly the donor's first pair, at its end, values in step"
    );
    assert_eq!(
        entries(&right),
        pairs(keys(10_010, MIN)),
        "the donor must lose exactly its first pair, closing the gap, values in step"
    );
    assert_eq!(left.next(), Some(right_ptr), "a steal must not touch the sibling chain");
    assert!(!left.is_deficient(), "the steal must lift the receiver out of deficiency");
    assert!(!right.is_deficient(), "the steal must not make the donor deficient");
}

/// Stealing from the left sibling moves exactly the donor's LAST pair
/// to the receiver's front, and returns the moved key itself (the
/// receiver's new minimum) as the replacement separator.
#[test]
fn steal_from_left_moves_the_donors_last_pair_and_returns_the_moved_key() {
    let mut left = leaf_of(0, MIN + 1); // donor strictly above minimum
    let mut right = leaf_of(10_000, MIN - 1); // deficient receiver
    let right_ptr = Addr { slab: 0, slot: 7 };
    left.set_next(Some(right_ptr));
    let sep = right.steal_from_left(&mut left);

    let moved = MIN as u64 * 10; // the donor's last key
    assert_eq!(sep, moved, "the replacement separator must be the moved key itself");
    assert_eq!(
        entries(&right),
        pairs([moved].into_iter().chain(keys(10_000, MIN - 1))),
        "the receiver must gain exactly the donor's last pair, at its front, values in step"
    );
    assert_eq!(
        entries(&left),
        pairs(keys(0, MIN)),
        "the donor must lose exactly its last pair, values in step"
    );
    assert_eq!(left.next(), Some(right_ptr), "a steal must not touch the sibling chain");
    assert!(!right.is_deficient(), "the steal must lift the receiver out of deficiency");
    assert!(!left.is_deficient(), "the steal must not make the donor deficient");
}

/// A steal from a donor at its minimum legal occupancy
/// (`MIN_OCCUPANCY + 1`) and a steal into a nearly-full receiver both
/// stay in bounds.
#[test]
fn steal_works_at_the_occupancy_extremes() {
    // Donor at MIN + 1 (the least it can hold and still donate): one
    // steal leaves it exactly at the minimum.
    let mut left = leaf_of(0, MIN - 1);
    let mut right = leaf_of(10_000, MIN + 1);
    let sep = left.steal_from_right(&mut right);
    assert_eq!(sep, 10_010);
    assert_eq!(left.len(), MIN);
    assert_eq!(right.len(), MIN, "a minimum-legal donor must end exactly at MIN_OCCUPANCY");
    assert!(!right.is_deficient(), "a steal must never leave the donor deficient");

    // Receiver at M - 1 pairs: the leaf-level contract (`occupied < M`)
    // permits the steal, filling the receiver to exactly M.
    let mut receiver = leaf_of(0, M - 1);
    let mut donor = leaf_of(1_000_000, MIN + 1);
    let sep = receiver.steal_from_right(&mut donor);
    assert_eq!(sep, 1_000_010);
    assert_eq!(receiver.len(), M, "a steal may fill the receiver to exactly M");
    assert_eq!(*receiver.keys_ref().last().unwrap(), 1_000_000);
    assert_eq!(donor.len(), MIN);
}

/// Steals move values without dropping, duplicating, or leaking any:
/// the live count is unchanged across steals in both directions, and
/// everything drops exactly once when the leaves do.
#[test]
fn steals_drop_values_exactly_once() {
    let live = Arc::new(AtomicIsize::new(0));
    {
        let mut left: Leaf<u64, Counted, M> = Leaf::new(None);
        for k in keys(0, MIN) {
            left.raw_append(k, Counted::new(k, &live));
        }
        let mut right: Leaf<u64, Counted, M> = Leaf::new(None);
        for k in keys(10_000, MIN + 1) {
            right.raw_append(k, Counted::new(k, &live));
        }
        let total = (2 * MIN + 1) as isize;
        assert_eq!(live.load(Relaxed), total, "one live value per stored key");
        left.steal_from_right(&mut right);
        assert_eq!(live.load(Relaxed), total, "a right-steal must not drop any value");
        right.steal_from_left(&mut left);
        assert_eq!(live.load(Relaxed), total, "a left-steal must not drop any value");
    }
    assert_eq!(
        live.load(Relaxed),
        0,
        "dropping both leaves must drop every value exactly once \
         (positive = leak, negative = double-drop)"
    );
}
