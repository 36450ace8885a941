# btree

An ordered map from `i64` keys to values of any type, kept as a B-tree of a
chosen order `m`, with lookup, insertion, removal with borrowing and merging,
an in-order iterator that can start at any key, and a level-by-level listing
of the nodes. Every function is verified with Verus against a model of the
tree as the sequence of its entries in key order and the map that sequence
denotes.

For an order of at least 3, insertion and removal keep the B-tree invariant
(`BTree::is_btree`): all leaves at one depth, every leaf below the root with
at least one key, every inner node below the root with at least `(m - 1) / 2`
keys (`m / 2` for an odd order), and every node with at most `m - 1` keys. The
cap does not hold for inner nodes of an even order: merging can fill one to
`m` keys, and such a node is never split again.

Insertion works for every order of at least 1. The contracts of insertion and
removal fix the resulting layout of every node (`Node::inserted`,
`BTree::root_inserted`, `Node::removed`, `Node::rightmost_removed`,
`BTree::root_removed`), so that the level listing after any sequence of
operations follows from them. For orders 1 and 2 insertion builds trees with
empty nodes. Removal asks that it run without fault (`BTree::removable`): no
empty leaf must be asked for its largest entry, and no inner node without keys
must have its only child report an underflow. That holds wherever every node
below the root holds a key (`BTree::keyed`), as in every tree of order at
least 3.

- `src/seqs.rs`: the sequence algebra behind the model (interleaving children
  with separators, ordered insertion and deletion, ranks, the map of an entry
  sequence).
- `src/node.rs`: nodes, their shape and key-count invariants and all
  node-level operations.
- `src/tree.rs`: the tree itself and its level listing.
- `src/iter.rs`: the iterator.
- `src/text.rs`: how a node's keys are written out.
- `src/laws.rs`: properties of the tree across its operations.
- `app/main.rs`: demonstrations that print trees.
