//! An in-memory B+tree, with set support.
//!
//! [`BPlusTree`] is a sorted map, [`BPlusSet`] a sorted set. Both keep their nodes in an allocator:
//! in slabs ([`Slabs`], the default), in boxes ([`Boxes`]), or in fixed storage ([`FixedNodes`]).
//!
//! The contents of a tree are, for specifications, the sequence of its pairs in ascending key
//! order (`tree@`); those of a set the sequence of its keys (`set@`). What the operations do is
//! stated on such sequences; see [`entries`] for the map operations and [`merge`] for those on two
//! sets. That the nodes form a balanced search tree with a linked chain of leaves is part of a
//! tree's invariant, stated in [`model`]. What holds of several operations taken together is in
//! [`laws`].
use vstd::prelude::*;

pub mod allocator;
pub mod budget;
pub mod bulk;
pub mod chain;
pub mod entries;
pub mod inner;
pub mod iter;
pub mod iter_mut;
pub mod key;
pub mod laws;
pub mod leaf;
pub mod lemmas;
pub mod load;
pub mod map_laws;
pub mod merge;
pub mod model;
pub mod node;
pub mod owned;
pub mod packing;
pub mod progress;
pub mod projections;
pub mod root;
pub mod row;
pub mod search;
pub mod set;
pub mod set_iter;
pub mod set_laws;
pub mod set_ops;
pub mod set_order;
pub mod sizing;
pub mod tree;
pub mod tree_laws;

pub use crate::allocator::boxed::Boxes;
pub use crate::allocator::fixed::{FixedNodes, NodeStorage};
pub use crate::allocator::slab::{Global, Slabs};
pub use crate::allocator::{AllocError, NodeAllocator};
pub use crate::iter::Bound;
pub use crate::key::Key;
pub use crate::set::BPlusSet;
pub use crate::tree::BPlusTree;

use crate::leaf::half;
use crate::root::height_bound;
use vstd::arithmetic::logarithm::log;

verus! {

/// The target size of a node's keys and handles, in bytes.
pub const NODE_BUDGET: usize = 512;

/// The smallest fanout that a tree can have: a node that is one short of half full then still
/// has an entry, and a sibling can have one to spare.
pub const MIN_FANOUT: usize = 3;

/// The number of keys of `key_size` bytes that a node should hold, with 8 bytes for the value or
/// the handle that goes with each.
pub fn fanout(key_size: usize) -> (r: usize)
    requires
        key_size + 8 <= usize::MAX,
    ensures
        r == (NODE_BUDGET as nat) / (key_size as nat + 8),
        0 < key_size < 128 ==> MIN_FANOUT <= r <= 56,
{
    let r: usize = NODE_BUDGET / (key_size + 8);
    assert(0 < key_size < 128 ==> MIN_FANOUT <= r <= 56) by (nonlinear_arith)
        requires
            r == 512usize / ((key_size + 8) as usize),
            key_size + 8 <= usize::MAX,
    ;
    r
}

/// The fanout for a key type.
pub fn key_fanout<K: Key>() -> (r: usize)
    requires
        0 < vstd::layout::size_of::<K>() < 128,
    ensures
        r == (NODE_BUDGET as nat) / (vstd::layout::size_of::<K>() + 8),
        MIN_FANOUT <= r <= 56,
{
    fanout(core::mem::size_of::<K>())
}

/// The largest height that a tree of fanout `m` can reach.
pub fn max_height(m: usize) -> (r: usize)
    requires
        m >= MIN_FANOUT,
    ensures
        r == height_bound(m),
        r <= 62,
{
    let mut n: usize = m / 2 + m % 2;
    let mut log2: usize = 0;
    proof {
        assert(n == half(m));
        assert(log(2, n as int) >= 1) by {
            reveal(log);
            vstd::arithmetic::logarithm::lemma_log_nonnegative(2, n as int / 2);
        }
    }
    while n >= 2
        invariant
            n >= 1,
            log2 + n <= m,
            log2 + log(2, n as int) == log(2, half(m)),
        decreases n,
    {
        reveal(log);
        n = n / 2;
        log2 = log2 + 1;
    }
    proof {
        reveal(log);
        assert(log2 == log(2, half(m)));
        assert((usize::BITS - 2) / (log2 as int) <= usize::BITS - 2) by (nonlinear_arith)
            requires
                log2 >= 1,
                usize::BITS >= 2,
        ;
    }
    (usize::BITS as usize - 2) / log2
}

/// The largest number of levels that a path through a tree of fanout `m` can have.
pub fn max_levels(m: usize) -> (r: usize)
    requires
        m >= MIN_FANOUT,
    ensures
        r == height_bound(m) + 1,
{
    max_height(m) + 1
}

} // verus!
