# rust_bst

An ordered map from keys to values kept in a red-black binary search tree, written
in Verus and verified.

- `src/bst/map.rs`: the map interface (`KeyValueMap`) with its contracts over the
  mathematical map each implementation holds.
- `src/bst/tree_map.rs`: `TreeMap`, the red-black tree map, and its search from the root.
- `src/bst/node.rs`: tree nodes, the model of a subtree (its map, the search-tree
  order, the red-black rules) and rotations.
- `src/bst/insert.rs`, `src/bst/delete.rs`: insertion and deletion with the repairs
  that keep the red-black rules; `src/bst/search.rs`: successor, predecessor, parent.
- `src/bst/key_order.rs`: the strict order on keys taken from their `Ord`.
- `src/bst/laws.rs`: what holds across operations, among them the bound that keeps
  the tree's height logarithmic in its size.
- `app/main.rs`: a small program that fills and empties a map and prints it.

Nodes are owned by their parents (`Box`), so the tree needs no arena: the hash map
that a pointer-linked tree would keep to own its nodes (keyed by node addresses) has
no counterpart here, and the number of entries is a counted field whose agreement
with the tree is part of the proved invariant. For the same reason nodes carry no
parent links; `Node::get_parent` finds a parent by walking down from the root.
