# bplus_tree

A B+ tree from string keys to string values held in memory, a singly linked
list, and the record layer of a B+ tree index kept in files, with their
behaviour stated in `requires` / `ensures` contracts and proved by Verus.

- `src/key_order.rs`: byte-wise ordering of keys and its laws.
- `src/memory/pointer/`: the in-memory tree. `node.rs` holds the pages and the
  search-tree, balance and fill invariants; `query.rs`, `insert.rs` and
  `remove.rs` the operations, which keep every leaf at the same depth, every
  leaf but the root at least half full, every index page with at least one
  separator and at most the order rounded up to even, and no leaf over the
  order;
  `shape.rs` the shape of a tree (separators of index pages, entries of
  leaves) and the insertion and removal policies over it, which `insert` and
  `remove` are proved to follow;
  `laws.rs` what insertion and removal do to the entries as a map;
  `lemmas.rs` facts about the entries of subtrees.
- `src/single_list/memory/point.rs`: the linked list.
- `src/file/kv/`: the records of the file index, the framing of its header
  (through `bincode`), the layout of leaf pages, searches among leaf items,
  and the steps of an insertion as a state machine between file reads and
  writes.
- `app/`: file I/O (it runs the insertion steps against the files), serde
  forms of the file records, and printing.
- `tests/`: tests of all of the above.
