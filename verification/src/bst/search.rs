//! Read-only walks down the tree: neighbours in key order and parents.
use vstd::prelude::*;
use core::cmp::Ordering;
use crate::bst::key_order::{key_laws, key_lt, lemma_key_order};
use crate::bst::node::{Link, Node, height, lemma_node_parts, map_of, node_in, ordered};

verus! {

impl<K: Ord, V> Node<K, V> {
    /// The parent of the node that holds `key`: `None` when `key` is absent or at the root.
    pub fn get_parent<'a>(t: &'a Link<K, V>, key: &K) -> (r: Option<&'a Node<K, V>>)
        requires
            key_laws::<K>(),
            ordered(*t),
        ensures
            match r {
                Some(p) => {
                    &&& node_in(*t, *p)
                    &&& (p.left matches Some(c) && c.key == *key) || (p.right matches Some(c) && c.key == *key)
                },
                None => !map_of(*t).dom().contains(*key) || (t matches Some(root) && root.key == *key),
            },
    {
        proof {
            lemma_key_order::<K>();
        }
        let mut cur: &'a Box<Node<K, V>> = match t {
            None => return None,
            Some(n) => n,
        };
        match key.cmp(&cur.key) {
            Ordering::Equal => return None,
            _ => {},
        }
        loop
            invariant
                key_laws::<K>(),
                ordered(Some(*cur)),
                forall|n: Node<K, V>| #[trigger] node_in(Some(*cur), n) ==> node_in(*t, n),
                map_of(*t).dom().contains(*key) ==> map_of(Some(*cur)).dom().contains(*key),
                cur.key != *key,
            decreases height(Some(*cur)),
        {
            proof {
                lemma_key_order::<K>();
                lemma_node_parts(*cur);
                assert(node_in(Some(*cur), **cur));
            }
            let c0 = cur;
            let next = match key.cmp(&c0.key) {
                Ordering::Less => &c0.left,
                _ => &c0.right,
            };
            match next {
                None => return None,
                Some(c) => {
                    let found = match key.cmp(&c.key) {
                        Ordering::Equal => true,
                        _ => false,
                    };
                    if found {
                        return Some(&**c0);
                    }
                    proof {
                        assert forall|n: Node<K, V>| #[trigger] node_in(Some(*c), n) implies node_in(*t, n) by {
                            assert(node_in(Some(*c0), n));
                        }
                    }
                    cur = c;
                },
            }
        }
    }

    /// The node holding the least key greater than `key`: the in-order successor of
    /// `key`'s node when `key` is in the subtree.
    pub fn successor<'a>(t: &'a Link<K, V>, key: &K) -> (r: Option<&'a Node<K, V>>)
        requires
            key_laws::<K>(),
            ordered(*t),
        ensures
            match r {
                Some(n) => {
                    &&& map_of(*t).dom().contains(n.key)
                    &&& map_of(*t)[n.key] == n.value
                    &&& key_lt(*key, n.key)
                    &&& forall|j: K| #[trigger] map_of(*t).dom().contains(j) && key_lt(*key, j)
                        ==> j == n.key || key_lt(n.key, j)
                },
                None => forall|j: K| #[trigger] map_of(*t).dom().contains(j) ==> !key_lt(*key, j),
            },
    {
        proof {
            lemma_key_order::<K>();
        }
        let mut cur: &'a Link<K, V> = t;
        let mut cand: Option<&'a Node<K, V>> = None;
        loop
            invariant
                key_laws::<K>(),
                ordered(*t),
                ordered(*cur),
                forall|j: K| #[trigger] map_of(*cur).dom().contains(j)
                    ==> map_of(*t).dom().contains(j) && map_of(*t)[j] == map_of(*cur)[j],
                forall|j: K| #[trigger] map_of(*t).dom().contains(j) && key_lt(*key, j)
                    ==> map_of(*cur).dom().contains(j) || (cand matches Some(c) && (j == c.key || key_lt(c.key, j))),
                cand matches Some(c) ==> {
                    &&& map_of(*t).dom().contains(c.key)
                    &&& map_of(*t)[c.key] == c.value
                    &&& key_lt(*key, c.key)
                    &&& forall|j: K| #[trigger] map_of(*cur).dom().contains(j) ==> key_lt(j, c.key)
                },
            decreases height(*cur),
        {
            match cur {
                None => {
                    return cand;
                },
                Some(n) => {
                    let ghost c0 = *cur;
                    let ghost cand0 = cand;
                    proof {
                        lemma_key_order::<K>();
                        lemma_node_parts(*n);
                        assert(c0 == Some(*n));
                        assert(map_of(c0).dom().contains(n.key));
                    }
                    let less = match key.cmp(&n.key) {
                        Ordering::Less => true,
                        _ => false,
                    };
                    if less {
                        cand = Some(&**n);
                        cur = &n.left;
                        proof {
                            assert forall|j: K| #[trigger] map_of(*t).dom().contains(j) && key_lt(*key, j)
                                implies map_of(*cur).dom().contains(j) || j == n.key || key_lt(n.key, j) by {
                                if map_of(c0).dom().contains(j) {
                                    if j != n.key && !map_of(n.left).dom().contains(j) {
                                        assert(map_of(n.right).dom().contains(j));
                                    }
                                } else {
                                    let c = cand0->0;
                                    assert(key_lt(n.key, c.key));
                                }
                            }
                        }
                    } else {
                        cur = &n.right;
                        proof {
                            assert(!key_lt(*key, n.key));
                            assert forall|j: K| #[trigger] map_of(*t).dom().contains(j) && key_lt(*key, j)
                                && map_of(c0).dom().contains(j) implies map_of(*cur).dom().contains(j) by {
                                if map_of(n.left).dom().contains(j) {
                                    assert(key_lt(j, n.key));
                                }
                            }
                        }
                    }
                },
            }
        }
    }

    /// The node holding the greatest key less than `key`: the in-order predecessor of
    /// `key`'s node when `key` is in the subtree.
    pub fn predecessor<'a>(t: &'a Link<K, V>, key: &K) -> (r: Option<&'a Node<K, V>>)
        requires
            key_laws::<K>(),
            ordered(*t),
        ensures
            match r {
                Some(n) => {
                    &&& map_of(*t).dom().contains(n.key)
                    &&& map_of(*t)[n.key] == n.value
                    &&& key_lt(n.key, *key)
                    &&& forall|j: K| #[trigger] map_of(*t).dom().contains(j) && key_lt(j, *key)
                        ==> j == n.key || key_lt(j, n.key)
                },
                None => forall|j: K| #[trigger] map_of(*t).dom().contains(j) ==> !key_lt(j, *key),
            },
    {
        proof {
            lemma_key_order::<K>();
        }
        let mut cur: &'a Link<K, V> = t;
        let mut cand: Option<&'a Node<K, V>> = None;
        loop
            invariant
                key_laws::<K>(),
                ordered(*t),
                ordered(*cur),
                forall|j: K| #[trigger] map_of(*cur).dom().contains(j)
                    ==> map_of(*t).dom().contains(j) && map_of(*t)[j] == map_of(*cur)[j],
                forall|j: K| #[trigger] map_of(*t).dom().contains(j) && key_lt(j, *key)
                    ==> map_of(*cur).dom().contains(j) || (cand matches Some(c) && (j == c.key || key_lt(j, c.key))),
                cand matches Some(c) ==> {
                    &&& map_of(*t).dom().contains(c.key)
                    &&& map_of(*t)[c.key] == c.value
                    &&& key_lt(c.key, *key)
                    &&& forall|j: K| #[trigger] map_of(*cur).dom().contains(j) ==> key_lt(c.key, j)
                },
            decreases height(*cur),
        {
            match cur {
                None => {
                    return cand;
                },
                Some(n) => {
                    let ghost c0 = *cur;
                    let ghost cand0 = cand;
                    proof {
                        lemma_key_order::<K>();
                        lemma_node_parts(*n);
                        assert(c0 == Some(*n));
                        assert(map_of(c0).dom().contains(n.key));
                    }
                    let greater = match key.cmp(&n.key) {
                        Ordering::Greater => true,
                        _ => false,
                    };
                    if greater {
                        cand = Some(&**n);
                        cur = &n.right;
                        proof {
                            assert forall|j: K| #[trigger] map_of(*t).dom().contains(j) && key_lt(j, *key)
                                implies map_of(*cur).dom().contains(j) || j == n.key || key_lt(j, n.key) by {
                                if map_of(c0).dom().contains(j) {
                                    if j != n.key && !map_of(n.right).dom().contains(j) {
                                        assert(map_of(n.left).dom().contains(j));
                                    }
                                } else {
                                    let c = cand0->0;
                                    assert(key_lt(c.key, n.key));
                                }
                            }
                        }
                    } else {
                        cur = &n.left;
                        proof {
                            assert(!key_lt(n.key, *key));
                            assert forall|j: K| #[trigger] map_of(*t).dom().contains(j) && key_lt(j, *key)
                                && map_of(c0).dom().contains(j) implies map_of(*cur).dom().contains(j) by {
                                if map_of(n.right).dom().contains(j) {
                                    assert(key_lt(n.key, j));
                                }
                            }
                        }
                    }
                },
            }
        }
    }
}

} // verus!
