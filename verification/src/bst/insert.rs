//! Insertion: a new entry goes in as a red leaf, and red nodes with red children are
//! repaired on the way back up by colour flips and rotations.
use vstd::prelude::*;
use core::cmp::Ordering;
use crate::bst::key_order::{key_laws, lemma_key_order};
use crate::bst::node::{
    BLACK, Link, Node, RED, black_height, is_red, lemma_near_rb_rb, lemma_node_parts,
    inorder, lemma_rb_near_rb, lemma_same_shape_refl, same_shape, lemma_recolor, lemma_rotl, lemma_rotr, map_of, near_rb, ordered, rb,
    red_red_at_root,
};

verus! {

impl<K: Ord, V> Node<K, V> {
    /// Repairs, at a black node, a red child that has a red child of its own: the
    /// flaw an insertion below leaves behind. With a red sibling the colours flip
    /// (the node turns red, both children black); otherwise one or two rotations
    /// lift the middle entry to the top, black, with two red children.
    pub fn balance_in(n: Box<Node<K, V>>) -> (r: Box<Node<K, V>>)
        requires
            key_laws::<K>(),
            ordered(Some(n)),
            near_rb(n.left),
            near_rb(n.right),
            black_height(n.left) == black_height(n.right),
            !(red_red_at_root(n.left) && red_red_at_root(n.right)),
            n.color == RED ==> !red_red_at_root(n.left) && !red_red_at_root(n.right),
        ensures
            map_of(Some(r)) == map_of(Some(n)),
            inorder(Some(r)) == inorder(Some(n)),
            ordered(Some(r)),
            black_height(Some(r)) == black_height(Some(n)),
            n.color == BLACK ==> rb(Some(r)),
            n.color == RED ==> r == n,
            !red_red_at_root(n.left) && !red_red_at_root(n.right) ==> r == n,
            n.color == BLACK && (red_red_at_root(n.left) || red_red_at_root(n.right)) ==> {
                if is_red(n.left) && is_red(n.right) {
                    // The colours flip; the entries stay where they were.
                    &&& r.key == n.key
                    &&& r.value == n.value
                    &&& r.color == RED
                    &&& !is_red(r.left)
                    &&& !is_red(r.right)
                    &&& map_of(r.left) == map_of(n.left)
                    &&& map_of(r.right) == map_of(n.right)
                } else {
                    // A rotation lifts a black node over two red children.
                    &&& r.color == BLACK
                    &&& is_red(r.left)
                    &&& is_red(r.right)
                }
            },
    {
        if n.color == RED {
            return n;
        }
        let left_flaw = match &n.left {
            Some(l) => l.color == RED && (Self::color_of(&l.left) || Self::color_of(&l.right)),
            None => false,
        };
        let right_flaw = match &n.right {
            Some(x) => x.color == RED && (Self::color_of(&x.left) || Self::color_of(&x.right)),
            None => false,
        };
        let ghost n0 = *n;
        if !left_flaw && !right_flaw {
            proof {
                lemma_near_rb_rb(n0.left);
                lemma_near_rb_rb(n0.right);
            }
            return n;
        }
        let mut n = n;
        if Self::color_of(&n.left) && Self::color_of(&n.right) {
            // Both children red: flip the colours.
            n.color = RED;
            Self::color_assign(&mut n.left, BLACK);
            Self::color_assign(&mut n.right, BLACK);
            proof {
                let l = n0.left->0;
                let x = n0.right->0;
                lemma_recolor(*l, BLACK);
                lemma_recolor(*x, BLACK);
                assert(map_of(n.left) == map_of(n0.left));
                assert(map_of(n.right) == map_of(n0.right));
                assert(inorder(n.left) == inorder(n0.left));
                assert(inorder(n.right) == inorder(n0.right));
                assert(rb(n.left));
                assert(rb(n.right));
            }
            return n;
        }
        if left_flaw {
            let l = n.left.take().unwrap();
            let ghost l0 = *l;
            let l = if Self::color_of(&l.right) {
                proof {
                    lemma_rotl(l0);
                }
                Self::rotate_left(l)
            } else {
                l
            };
            n.left = Some(l);
            let ghost n1 = *n;
            proof {
                assert(map_of(n1.left) == map_of(n0.left));
                assert(inorder(n1.left) == inorder(n0.left));
                assert(ordered(Some(Box::new(n1))));
            }
            let mut r = Self::rotate_right(n);
            proof {
                lemma_rotr(n1);
            }
            let ghost r0 = *r;
            r.color = BLACK;
            Self::color_assign(&mut r.right, RED);
            proof {
                lemma_recolor(*(r0.right->0), RED);
                assert(map_of(r.right) == map_of(r0.right));
                assert(inorder(r.right) == inorder(r0.right));
                assert(ordered(r.right));
                let u = n0.right;
                lemma_near_rb_rb(u);
                assert(rb(l0.left) && rb(l0.right));
                if is_red(l0.right) {
                    let m = l0.right->0;
                    assert(rb(m.left) && rb(m.right));
                    assert(black_height(m.left) == black_height(l0.left));
                    assert(rb(r.left));
                    assert(rb(r.right));
                } else {
                    assert(rb(r.left));
                    assert(rb(r.right));
                }
                assert(black_height(n0.left) == black_height(l0.left));
                assert(black_height(r.left) == black_height(n0.left));
            }
            r
        } else {
            let x = n.right.take().unwrap();
            let ghost x0 = *x;
            let x = if Self::color_of(&x.left) {
                proof {
                    lemma_rotr(x0);
                }
                Self::rotate_right(x)
            } else {
                x
            };
            n.right = Some(x);
            let ghost n1 = *n;
            proof {
                assert(map_of(n1.right) == map_of(n0.right));
                assert(inorder(n1.right) == inorder(n0.right));
                assert(ordered(Some(Box::new(n1))));
            }
            let mut r = Self::rotate_left(n);
            proof {
                lemma_rotl(n1);
            }
            let ghost r0 = *r;
            r.color = BLACK;
            Self::color_assign(&mut r.left, RED);
            proof {
                lemma_recolor(*(r0.left->0), RED);
                assert(map_of(r.left) == map_of(r0.left));
                assert(inorder(r.left) == inorder(r0.left));
                assert(ordered(r.left));
                let u = n0.left;
                lemma_near_rb_rb(u);
                assert(rb(x0.left) && rb(x0.right));
                if is_red(x0.left) {
                    let m = x0.left->0;
                    assert(rb(m.left) && rb(m.right));
                    assert(black_height(m.right) == black_height(x0.right));
                    assert(rb(r.left));
                    assert(rb(r.right));
                } else {
                    assert(rb(r.left));
                    assert(rb(r.right));
                }
                assert(black_height(n0.right) == black_height(x0.left));
                assert(black_height(r.right) == black_height(n0.right));
            }
            r
        }
    }

    /// Inserts `key` with `value` into the subtree `t`, repairing the red-black
    /// shape on the way back up; hands back the value `key` had before, if any.
    pub fn insert_into(t: &mut Link<K, V>, key: K, value: V) -> (r: Option<V>)
        requires
            key_laws::<K>(),
            ordered(*old(t)),
            rb(*old(t)),
        ensures
            ordered(*final(t)),
            map_of(*final(t)) == map_of(*old(t)).insert(key, value),
            r == (if map_of(*old(t)).dom().contains(key) { Some(map_of(*old(t))[key]) } else { None }),
            black_height(*final(t)) == black_height(*old(t)),
            near_rb(*final(t)),
            !is_red(*old(t)) ==> rb(*final(t)),
            *final(t) is Some,
        decreases *old(t),
    {
        proof {
            lemma_key_order::<K>();
        }
        match t.take() {
            None => {
                *t = Some(Box::new(Node::new(key, value)));
                proof {
                    assert(map_of(*t) =~= map_of(*old(t)).insert(key, value));
                }
                None
            },
            Some(mut b) => {
                let ghost b0 = *b;
                let r = match key.cmp(&b.key) {
                    Ordering::Equal => {
                        let o = b.set_val(value);
                        proof {
                            assert(map_of(Some(b)) =~= map_of(Some(Box::new(b0))).insert(key, value));
                        }
                        Some(o)
                    },
                    Ordering::Less => {
                        let o = Self::insert_into(&mut b.left, key, value);
                        proof {
                            assert(!map_of(b0.right).dom().contains(key));
                            assert(map_of(Some(b)) =~= map_of(Some(Box::new(b0))).insert(key, value));
                            assert(ordered(Some(b)));
                        }
                        o
                    },
                    Ordering::Greater => {
                        let o = Self::insert_into(&mut b.right, key, value);
                        proof {
                            assert(!map_of(b0.left).dom().contains(key));
                            assert(map_of(Some(b)) =~= map_of(Some(Box::new(b0))).insert(key, value));
                            assert(ordered(Some(b)));
                        }
                        o
                    },
                };
                proof {
                    lemma_rb_near_rb(b0.left);
                    lemma_rb_near_rb(b0.right);
                }
                let nb = Self::balance_in(b);
                *t = Some(nb);
                r
            },
        }
    }

    /// Sets the value of `key` in the subtree `t` to `value`, if `key` is there, and
    /// hands the old value back; the tree's shape and colours stay as they are.
    pub fn replace_in(t: &mut Link<K, V>, key: &K, value: V) -> (r: Option<V>)
        requires
            key_laws::<K>(),
            ordered(*old(t)),
        ensures
            map_of(*final(t)) == (if map_of(*old(t)).dom().contains(*key) {
                map_of(*old(t)).insert(*key, value)
            } else {
                map_of(*old(t))
            }),
            r == (if map_of(*old(t)).dom().contains(*key) { Some(map_of(*old(t))[*key]) } else { None }),
            same_shape(*old(t), *final(t)),
            !map_of(*old(t)).dom().contains(*key) ==> *final(t) == *old(t),
            ordered(*final(t)),
            rb(*final(t)) == rb(*old(t)),
            black_height(*final(t)) == black_height(*old(t)),
            is_red(*final(t)) == is_red(*old(t)),
        decreases *old(t),
    {
        proof {
            lemma_key_order::<K>();
        }
        match t.take() {
            None => None,
            Some(mut b) => {
                let ghost b0 = *b;
                proof {
                    lemma_node_parts(b);
                    lemma_same_shape_refl(b0.left);
                    lemma_same_shape_refl(b0.right);
                }
                let r = match key.cmp(&b.key) {
                    Ordering::Equal => {
                        let o = b.set_val(value);
                        proof {
                            assert(map_of(Some(b)) =~= map_of(Some(Box::new(b0))).insert(*key, value));
                        }
                        Some(o)
                    },
                    Ordering::Less => {
                        let o = Self::replace_in(&mut b.left, key, value);
                        proof {
                            if map_of(b0.left).dom().contains(*key) {
                                assert(map_of(Some(b)) =~= map_of(Some(Box::new(b0))).insert(*key, value));
                            } else {
                                assert(map_of(Some(b)) =~= map_of(Some(Box::new(b0))));
                            }
                            assert(ordered(Some(b)));
                        }
                        o
                    },
                    Ordering::Greater => {
                        let o = Self::replace_in(&mut b.right, key, value);
                        proof {
                            if map_of(b0.right).dom().contains(*key) {
                                assert(map_of(Some(b)) =~= map_of(Some(Box::new(b0))).insert(*key, value));
                            } else {
                                assert(map_of(Some(b)) =~= map_of(Some(Box::new(b0))));
                            }
                            assert(ordered(Some(b)));
                        }
                        o
                    },
                };
                *t = Some(b);
                r
            },
        }
    }
}

} // verus!
