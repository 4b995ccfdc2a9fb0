//! Bulk loading: the levels in progress, and whole trees.
use beets::allocator::boxed::Boxes;
use beets::allocator::{Addr, NodeAllocator};
use beets::leaf::Leaf;
use beets::progress::TreeProgress;
use beets::BPlusTree;
use std::collections::BTreeMap;
use std::sync::atomic::{AtomicIsize, Ordering::Relaxed};
use std::sync::Arc;

/// The fanout of a `u64` key.
const M: usize = 32;

type Nodes = Boxes<u64, Counted, M>;

/// A value that counts how many of its kind are alive.
struct Counted {
    live: Arc<AtomicIsize>,
}

impl Counted {
    fn new(_val: u64, live: &Arc<AtomicIsize>) -> Self {
        live.fetch_add(1, Relaxed);
        Counted { live: Arc::clone(live) }
    }
}

impl Drop for Counted {
    fn drop(&mut self) {
        self.live.fetch_sub(1, Relaxed);
    }
}

/// Feed `n` one-pair leaves (keys `0, 10, 20, ..`) into a fresh load, all at level 0.
fn path_of(n: usize, live: &Arc<AtomicIsize>, alloc: &mut Nodes) -> TreeProgress<u64> {
    let mut progress = TreeProgress::new();
    for i in 0..n as u64 {
        let leaf = Leaf::from_first_item(None, 10 * i, Counted::new(10 * i, live));
        let at = alloc.alloc_leaf(leaf);
        progress.push_leaf(10 * i, at, alloc);
    }
    progress
}

/// Assert a slot holds a chunk of `count` children keyed `first, first + 10, ..` in stream order:
/// its up-key must be the first child's key and its separators the later children's keys.
fn check_chunk(slot: Option<(u64, Addr)>, alloc: &Nodes, first: u64, count: usize) {
    let (up_key, at) = slot.expect("the slot must hold a chunk");
    let inner = alloc.inner(at);
    assert_eq!(up_key, first, "a chunk's up-key must be its first child's min key");
    assert_eq!(inner.len(), count, "chunk child count");
    for (i, sep) in inner.keys_ref().iter().enumerate() {
        assert_eq!(
            *sep,
            first + 10 * (i as u64 + 1),
            "separators must be the later children's min keys, in stream order"
        );
    }
}

fn assert_untouched(progress: &TreeProgress<u64>, level: usize, msg: &str) {
    assert!(progress.pending(level).is_none() && progress.current(level).is_none(), "{msg}");
}

/// Pairs short of a full chunk collect in the level's filling slot,
/// in stream order — nothing is held back, nothing carries upward.
#[test]
fn push_fills_the_current_chunk_in_stream_order() {
    let live = Arc::new(AtomicIsize::new(0));
    let mut alloc: Nodes = Boxes::new();
    let progress = path_of(M - 1, &live, &mut alloc);

    check_chunk(progress.current(0), &alloc, 0, M - 1);
    assert!(progress.pending(0).is_none(), "an incomplete chunk must not be held back");
    assert_untouched(&progress, 1, "an incomplete chunk must not carry upward");

    assert_eq!(live.load(Relaxed), (M - 1) as isize, "pushes must not drop anything");
    progress.abandon(&mut alloc);
    assert_eq!(
        live.load(Relaxed),
        0,
        "teardown must drop every value exactly once \
         (positive = leak, negative = double-drop)"
    );
}

/// The hold-back timing rule: a chunk that completes with no
/// successor in sight is parked as the level's complete node, not
/// emitted — the stream may end here, and the final short chunk may
/// still need to borrow from it.
#[test]
fn a_completed_chunk_is_held_back_not_emitted() {
    let live = Arc::new(AtomicIsize::new(0));
    let mut alloc: Nodes = Boxes::new();
    let progress = path_of(M, &live, &mut alloc);

    check_chunk(progress.pending(0), &alloc, 0, M);
    assert!(
        progress.current(0).is_none(),
        "the filling slot must restart empty after a chunk completes"
    );
    assert_untouched(&progress, 1, "a chunk with no successor must not climb");

    assert_eq!(live.load(Relaxed), M as isize, "pushes must not drop anything");
    progress.abandon(&mut alloc);
    assert_eq!(live.load(Relaxed), 0, "teardown must drop every value exactly once");
}

/// A chunk completing behind a full predecessor displaces it: the
/// displaced chunk — and only it — climbs to the next level, the new
/// chunk takes its place as the complete node, and the filling slot
/// restarts fresh for the pairs that follow.
#[test]
fn a_full_successor_displaces_the_held_chunk_upward() {
    let live = Arc::new(AtomicIsize::new(0));
    let mut alloc: Nodes = Boxes::new();
    let n = 2 * M + 3;
    let progress = path_of(n, &live, &mut alloc);

    // Level 0: the second full chunk is now the held-back node, and
    // the three trailing pairs restarted the filling slot.
    check_chunk(progress.pending(0), &alloc, 10 * M as u64, M);
    check_chunk(progress.current(0), &alloc, 10 * (2 * M) as u64, 3);

    // Level 1: exactly the displaced first chunk arrived, keyed by
    // its up-key; nothing was held back and nothing climbed further.
    let (up_key, at) = progress.current(1).expect("the displaced chunk must sit at level 1");
    assert_eq!(up_key, 0, "the carry must keep the displaced chunk's up-key");
    assert_eq!(alloc.inner(at).len(), 1, "only the displaced chunk may climb");
    assert!(progress.pending(1).is_none(), "one carry cannot complete a chunk");
    assert_untouched(&progress, 2, "one carry must not cascade further");

    assert_eq!(live.load(Relaxed), n as isize, "pushes must not drop anything");
    progress.abandon(&mut alloc);
    assert_eq!(live.load(Relaxed), 0, "teardown must drop every value exactly once");
}

/// The last two nodes of a level share what is left: of the `M + 1` children the first node keeps
/// all but as many as the second must have, and the separators are the first keys to their right.
#[test]
fn build_evens_out_the_last_two_nodes() {
    let live = Arc::new(AtomicIsize::new(0));
    let mut alloc: Nodes = Boxes::new();
    let progress = path_of(M + 1, &live, &mut alloc);
    let (root, height, len) = progress.build(&mut alloc);
    assert_eq!((height, len), (2, M + 1));

    let root = alloc.inner(root);
    assert_eq!(root.keys_ref(), [170]);
    let first = alloc.inner(root.children_ref()[0]);
    let second = alloc.inner(root.children_ref()[1]);
    assert_eq!(first.len(), 17);
    assert_eq!(second.len(), 16);
    assert_eq!(first.keys_ref().to_vec(), (1..17).map(|i| 10 * i).collect::<Vec<u64>>());
    assert_eq!(second.keys_ref().to_vec(), (18..33).map(|i| 10 * i).collect::<Vec<u64>>());
    assert_eq!(live.load(Relaxed), (M + 1) as isize, "the build must not drop anything");
}

/// A single full node is the root itself.
#[test]
fn build_crowns_a_lone_full_node() {
    let live = Arc::new(AtomicIsize::new(0));
    let mut alloc: Nodes = Boxes::new();
    let progress = path_of(M, &live, &mut alloc);
    let (root, height, len) = progress.build(&mut alloc);
    assert_eq!((height, len), (1, M));
    assert_eq!(alloc.inner(root).len(), M);
}

/// A bulk-loaded tree is a first-class tree: the ragged `M² + 1`
/// load (tail repairs at both levels) must take interleaved inserts
/// (splitting its packed nodes) and then a scattered full drain of
/// removes (rebalancing down to empty), agreeing with `BTreeMap` at
/// every step.
#[test]
fn bulk_loaded_trees_mutate_like_btreemap() {
    let n = (M * M + 1) as u64;
    let mut tree: BPlusTree<u64, u64, M> =
        BPlusTree::from_sorted_iter((0..n).map(|k| (10 * k, k)));
    let mut model: BTreeMap<u64, u64> = (0..n).map(|k| (10 * k, k)).collect();

    for k in 0..n {
        assert_eq!(
            tree.insert(10 * k + 5, k),
            model.insert(10 * k + 5, k),
            "insert into the loaded tree must agree with the model (k={k})"
        );
    }
    assert_eq!(tree.len(), model.len(), "len must track the interleaved inserts");
    for (k, v) in &model {
        assert_eq!(tree.get(k), Some(v), "key {k} must survive the insert phase");
    }

    // Drain in a scattered (stride-permuted) order, so removes hit
    // borrows and merges all over the loaded structure.
    let keys: Vec<u64> = model.keys().copied().collect();
    let count = keys.len();
    for i in 0..count {
        let k = keys[(i * 7919) % count];
        assert_eq!(
            tree.remove(&k),
            model.remove(&k),
            "remove from the loaded tree must agree with the model (key {k})"
        );
    }
    assert!(model.is_empty(), "the stride must be a permutation (fixture bug otherwise)");
    assert!(tree.is_empty(), "draining every key must empty the tree");
}

/// The deepest load path — a finish-time carry cascading into a
/// fourth level (`M³ + 1`) — owns every value end to end: the load
/// itself drops nothing, and teardown drops each exactly once.
#[test]
fn deep_cascade_loads_own_every_value_exactly_once() {
    let n = M * M * M + 1;
    let live = Arc::new(AtomicIsize::new(0));
    {
        let tree: BPlusTree<u64, Counted, M> =
            BPlusTree::from_sorted_iter((0..n as u64).map(|k| (k, Counted::new(k, &live))));
        assert_eq!(live.load(Relaxed), n as isize, "the load itself must not drop anything");
        assert_eq!(tree.len(), n, "len must count every drained pair");
    }
    assert_eq!(
        live.load(Relaxed),
        0,
        "teardown must drop every value exactly once \
         (positive = leak, negative = double-drop)"
    );
}
