# beets

An in-memory B+tree in Rust, with set support, verified with Verus.

`BPlusTree` is a sorted map, `BPlusSet` a sorted set. Keys are any `Ord + Copy` type. Every function
of the library has a contract, and Verus proves that it keeps it: no panics, no overflow, and the
result that the contract states.

## How to read the contracts

The contents of a tree are the sequence of its pairs in ascending key order, `tree@`. What an
operation does is stated on that sequence:

| operation             | what it does or returns          |
| --------------------- | -------------------------------- |
| `insert(k, v)`        | `put(tree@, k, v)`               |
| `remove(&k)`          | `del(tree@, k)`                  |
| `get(&k)`             | `lookup(tree@, k)`               |
| `range(start, end)`   | `window(tree@, start, end)`      |
| `from_sorted_iter(i)` | the items of `i`                 |
| `append(&mut other)`  | `put_all(tree@, other@)`         |
| `try_insert(k, v)`    | `put(tree@, k, v)`, or no change |

The contents of a set are the sequence of its keys; union, intersection, difference and symmetric
difference are `either`, `both`, `only_first` and `only_one` of two such sequences.

Keys are compared by their `Ord`. `lt` and `same` name that order in specifications, and
`ordered::<K>()` says that it is a total order, which `Ord` demands and a tree relies on. Keys can
be equal without being identical; the contracts say which copy stays.

## Layout

- `key`, `entries`, `merge`: the key order, sorted runs of pairs, merging two runs.
- `leaf`, `inner`: the two kinds of nodes.
- `model`, `lemmas`, `row`, `chain`, `search`: the tree that a store of nodes holds, and its
  properties: order, balance, occupancy, and the chain of leaves.
- `node`, `root`, `tree`: insertion and removal with splits, merges and borrows, and the map
  itself.
- `bulk`, `progress`, `load`, `packing`: building a tree from sorted input, packed to the left on
  every level, and as low as a tree with these pairs can be.
- `iter`, `iter_mut`, `projections`, `owned`: walks over a tree.
- `set`, `set_iter`, `set_order`, `set_ops`: the set.
- `allocator`: where nodes live. `slab` keeps them in slabs (the default), over the slots of `pool`;
  `boxed` keeps them one by one, and `fixed` in storage of a fixed size; `reserve` sets slots aside
  ahead of a change.
- `sizing`, `budget`: how many inner nodes a tree can need, and what it takes of an allocator.
- `laws`: what holds of the operations taken together.

## The fanout

The fanout `M` is a const parameter of the tree type, and at least 3. `key_fanout::<K>()` gives the
one that keeps a node's keys and handles within 512 bytes; a type alias keeps it out of the way:

```rust
type MyTree<V> = BPlusTree<u64, V, 32>;
```

A tree never gets higher than `max_height(M)`.

## Fixed storage

A tree can live in storage of a fixed size. `try_insert` then says when it is full: it hands the
pair back, and the tree stays as it is.

```rust
let mut storage: NodeStorage<u64, u64, 32, 1024, 69> = NodeStorage::new();
let mut tree = BPlusTree::try_new_in(FixedNodes::new(&mut storage))?;
```

The tree takes the slots of the storage over, and its values go with it. Another tree can then use
the storage.

`NodeStorage::worst_case_inners(LEAVES)` is the number of inner slots that any tree of so many
leaves can need. With that many, leaf slots are the only thing that runs out.
