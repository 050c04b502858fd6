//! A map kept in a red-black binary search tree.
use vstd::prelude::*;
use core::cmp::Ordering;
use crate::bst::key_order::{key_laws, key_lt, lemma_key_order};
use crate::bst::map::KeyValueMap;
use crate::bst::laws::{lemma_rb_height, lemma_rb_size};
use vstd::arithmetic::power2::{pow2, lemma_pow2_strictly_increases};
use crate::bst::node::{
    BLACK, Link, Node, black_height, height, same_shape, is_red, lemma_map_finite, lemma_node_parts, map_of, node_in,
    ordered, rb,
};

verus! {

/// A map from keys to values kept in a red-black binary search tree, ordered by the
/// keys' `Ord`. Lookups, insertions and removals take time proportional to the
/// tree's height, which stays logarithmic in the number of entries.
#[derive(Debug)]
pub struct TreeMap<K, V> {
    root: Link<K, V>,
    len: usize,
}

impl<K, V> View for TreeMap<K, V> {
    type V = Map<K, V>;

    closed spec fn view(&self) -> Map<K, V> {
        map_of(self.root)
    }
}

impl<K: Ord, V> TreeMap<K, V> {
    /// The tree is a search tree by its keys, keeps the red-black rules with a black
    /// root, and its count is the number of its entries.
    pub closed spec fn well_formed(&self) -> bool {
        &&& ordered(self.root)
        &&& rb(self.root)
        &&& !is_red(self.root)
        &&& self.len == map_of(self.root).len()
    }

    /// The two maps' trees have the same nodes in the same places with the same keys
    /// and colours, and the same count; only values may differ.
    pub closed spec fn same_shape_as(self, other: Self) -> bool {
        same_shape(self.root, other.root) && self.len == other.len
    }

    /// The number of nodes on the tree's longest path.
    pub closed spec fn height(&self) -> nat {
        height(self.root)
    }

    /// The number of black nodes on every path from the root.
    pub closed spec fn black_height(&self) -> nat {
        black_height(self.root)
    }

    /// The red-black shape keeps the tree balanced: its height is at most twice the
    /// base-2 logarithm of one more than its number of entries.
    pub proof fn lemma_height_logarithmic(&self)
        requires
            self.inv(),
        ensures
            pow2(self.height() / 2) <= self@.len() + 1,
    {
        lemma_rb_height(self.root);
        lemma_rb_size(self.root);
        let b = black_height(self.root);
        assert(self.height() / 2 <= b);
        if self.height() / 2 < b {
            lemma_pow2_strictly_increases(self.height() / 2, b);
        }
    }

    /// An empty map.
    pub fn new() -> (s: Self)
        ensures
            s@ == Map::<K, V>::empty(),
            s.well_formed(),
    {
        Self::default()
    }

    /// Walks down from `node` towards `key`: the node that holds `key`, or else the
    /// last node on the way, under which `key` would be attached (the neighbour of
    /// `key` in key order whose child on `key`'s side is empty).
    pub fn fetch_or_parent<'a>(node: &'a Link<K, V>, key: &K) -> (r: Option<&'a Node<K, V>>)
        requires
            key_laws::<K>(),
            ordered(*node),
        ensures
            r is None <==> node is None,
            match r {
                Some(n) => {
                    &&& node_in(*node, *n)
                    &&& map_of(*node).dom().contains(n.key)
                    &&& map_of(*node)[n.key] == n.value
                    &&& map_of(*node).dom().contains(*key) ==> n.key == *key
                    &&& !map_of(*node).dom().contains(*key) ==> {
                        &&& key_lt(*key, n.key) ==> n.left is None
                        &&& key_lt(n.key, *key) ==> n.right is None
                        &&& forall|j: K| #[trigger] map_of(*node).dom().contains(j)
                            ==> !(key_lt(*key, j) && key_lt(j, n.key)) && !(key_lt(n.key, j) && key_lt(j, *key))
                    }
                },
                None => true,
            },
    {
        let mut cur: &'a Box<Node<K, V>> = match node {
            None => return None,
            Some(n) => n,
        };
        let ghost mut lo: Option<K> = None;
        let ghost mut hi: Option<K> = None;
        loop
            invariant
                key_laws::<K>(),
                ordered(*node),
                ordered(Some(*cur)),
                node is Some,
                forall|j: K| #[trigger] map_of(Some(*cur)).dom().contains(j)
                    ==> map_of(*node).dom().contains(j) && map_of(*node)[j] == map_of(Some(*cur))[j]
                        && between(lo, hi, j),
                forall|j: K| #[trigger] map_of(*node).dom().contains(j) && between(lo, hi, j)
                    ==> map_of(Some(*cur)).dom().contains(j),
                between(lo, hi, *key),
                forall|m: Node<K, V>| #[trigger] node_in(Some(*cur), m) ==> node_in(*node, m),
            decreases height(Some(*cur)),
        {
            proof {
                lemma_key_order::<K>();
                lemma_node_parts(*cur);
                assert(node_in(Some(*cur), **cur));
            }
            let c0 = cur;
            match key.cmp(&cur.key) {
                Ordering::Greater => match &c0.right {
                    None => {
                        proof {
                            assert forall|j: K| #[trigger] map_of(*node).dom().contains(j)
                                implies !(key_lt(c0.key, j) && key_lt(j, *key)) by {
                                if key_lt(c0.key, j) && key_lt(j, *key) {
                                    assert(between(lo, hi, c0.key));
                                    assert(between(lo, hi, j));
                                }
                            }
                        }
                        return Some(&**c0);
                    },
                    Some(r) => {
                        proof {
                            lo = Some(c0.key);
                            assert forall|m: Node<K, V>| #[trigger] node_in(Some(*r), m) implies node_in(*node, m) by {
                                assert(node_in(c0.right, m));
                                assert(node_in(Some(*c0), m));
                            }
                        }
                        cur = r;
                    },
                },
                Ordering::Less => match &c0.left {
                    None => {
                        proof {
                            assert forall|j: K| #[trigger] map_of(*node).dom().contains(j)
                                implies !(key_lt(*key, j) && key_lt(j, c0.key)) by {
                                if key_lt(*key, j) && key_lt(j, c0.key) {
                                    assert(between(lo, hi, c0.key));
                                    assert(between(lo, hi, j));
                                }
                            }
                        }
                        return Some(&**c0);
                    },
                    Some(l) => {
                        proof {
                            hi = Some(c0.key);
                            assert forall|m: Node<K, V>| #[trigger] node_in(Some(*l), m) implies node_in(*node, m) by {
                                assert(node_in(c0.left, m));
                                assert(node_in(Some(*c0), m));
                            }
                        }
                        cur = l;
                    },
                },
                Ordering::Equal => return Some(&**c0),
            }
        }
    }
}

/// `j` lies strictly between the bounds that are present.
pub open spec fn between<K: Ord>(lo: Option<K>, hi: Option<K>, j: K) -> bool {
    &&& (lo matches Some(l) ==> key_lt(l, j))
    &&& (hi matches Some(h) ==> key_lt(j, h))
}

impl<K: Ord, V> KeyValueMap<K, V> for TreeMap<K, V> {
    open spec fn kv(&self) -> Map<K, V> {
        self@
    }

    /// The tree is well formed and the keys' `Ord` is a lawful total order.
    open spec fn inv(&self) -> bool {
        self.well_formed() && key_laws::<K>()
    }

    proof fn lemma_kv_finite(&self) {
        lemma_map_finite(self.root);
    }

    fn get(&self, key: &K) -> (r: Option<&V>) {
        match Self::fetch_or_parent(&self.root, key) {
            Some(n) => {
                proof {
                    lemma_key_order::<K>();
                }
                match key.cmp(&n.key) {
                    Ordering::Equal => Some(&n.value),
                    _ => None,
                }
            },
            None => None,
        }
    }

    fn put(&mut self, key: K, value: V) -> (r: Option<V>) {
        proof {
            lemma_map_finite(self.root);
        }
        let r = Node::insert_into(&mut self.root, key, value);
        Node::color_assign(&mut self.root, BLACK);
        proof {
            let t = self.root->0;
            assert(map_of(self.root) == map_of(Some(Box::new(Node { color: BLACK, ..*t }))));
        }
        if r.is_none() {
            self.len = self.len + 1;
        }
        r
    }

    fn replace(&mut self, key: &K, value: V) -> (r: Option<V>)
        ensures
            old(self).same_shape_as(*final(self)),
            !old(self).kv().dom().contains(*key) ==> *final(self) == *old(self),
    {
        proof {
            lemma_map_finite(self.root);
        }
        Node::replace_in(&mut self.root, key, value)
    }

    fn remove(&mut self, key: &K) -> (r: Option<V>)
        ensures
            !old(self).kv().dom().contains(*key) ==> *final(self) == *old(self),
    {
        proof {
            lemma_map_finite(self.root);
        }
        let (r, _) = Node::delete(&mut self.root, key);
        if r.is_some() {
            self.len = self.len - 1;
        }
        r
    }

    fn contains_key(&self, key: &K) -> (r: bool) {
        match Self::fetch_or_parent(&self.root, key) {
            Some(n) => {
                proof {
                    lemma_key_order::<K>();
                }
                match key.cmp(&n.key) {
                    Ordering::Equal => true,
                    _ => false,
                }
            },
            None => false,
        }
    }

    fn is_empty(&self) -> (r: bool) {
        proof {
            lemma_map_finite(self.root);
            if self.len == 0 {
                assert(self@ =~= Map::<K, V>::empty());
            }
        }
        self.len == 0
    }

    fn size(&self) -> (r: usize) {
        self.len
    }

    fn clear(&mut self) {
        self.root = None;
        self.len = 0;
    }
}

impl<K: Ord, V> Default for TreeMap<K, V> {
    fn default() -> (s: Self)
        ensures
            s@ == Map::<K, V>::empty(),
            s.well_formed(),
    {
        TreeMap { root: None, len: 0 }
    }
}

} // verus!
