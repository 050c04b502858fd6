//! Deletion: an entry leaves from a node with at most one child (a node with two takes
//! its successor's entry first), and a subtree one black level short is repaired on the
//! way back up.
use vstd::prelude::*;
use core::cmp::Ordering;
use crate::bst::key_order::{key_laws, key_lt, lemma_key_order};
use crate::bst::node::{
    BLACK, Link, Node, RED, black_height, inorder, is_red, lemma_recolor, lemma_rotl, lemma_rotr, map_of,
    ordered, rb, rotl, rotr,
};

verus! {

impl<K: Ord, V> Node<K, V> {
    /// Repairs a node whose left subtree has just lost one black level: with a red
    /// sibling a rotation makes the sibling black first; a black sibling with two black
    /// children turns red (and the loss moves up unless the node was red); otherwise one
    /// or two rotations restore the black height. Returns the new subtree and whether
    /// it is now one black level short.
    pub fn balance_out_left(n: Box<Node<K, V>>) -> (res: (Box<Node<K, V>>, bool))
        requires
            key_laws::<K>(),
            ordered(Some(n)),
            rb(n.left),
            rb(n.right),
            black_height(n.left) + 1 == black_height(n.right),
            !is_red(n.left),
            n.color == RED ==> !is_red(n.right),
        ensures
            map_of(Some(res.0)) == map_of(Some(n)),
            inorder(Some(res.0)) == inorder(Some(n)),
            ordered(Some(res.0)),
            rb(Some(res.0)),
            black_height(Some(res.0)) + (if res.1 { 1nat } else { 0nat }) == black_height(n.right)
                + if n.color == RED { 0nat } else { 1nat },
            is_red(Some(res.0)) ==> n.color == RED,
            res.1 == (n.color == BLACK && !is_red(n.right) && !is_red(n.right->0.left)
                && !is_red(n.right->0.right)),
        decreases
            (if n.color == RED { 0nat } else { 1nat }),
    {
        let ghost n0 = *n;
        let mut n = n;
        if Self::color_of(&n.right) {
            // The sibling is red: rotate it up and paint it black, the node red.
            let ghost s0 = *(n0.right->0);
            proof {
                lemma_rotl(n0);
            }
            let mut r = Self::rotate_left(n);
            r.color = BLACK;
            let mut inner = r.left.take().unwrap();
            let ghost i0 = *inner;
            inner.color = RED;
            proof {
                lemma_recolor(i0, RED);
                assert(ordered(Some(inner)));
                assert(rb(s0.left));
                assert(black_height(s0.left) == black_height(n0.right));
            }
            let (fixed, _) = Self::balance_out_left(inner);
            r.left = Some(fixed);
            proof {
                assert(map_of(r.left) == map_of(Some(Box::new(i0))));
                assert(inorder(r.left) == inorder(Some(Box::new(i0))));
                assert(ordered(Some(r)));
                assert(map_of(Some(r)) == map_of(Some(Box::new(rotl(n0)))));
                assert(inorder(Some(r)) == inorder(Some(Box::new(rotl(n0)))));
            }
            return (r, false);
        }
        let (sl_red, sr_red) = match &n.right {
            Some(x) => (Self::color_of(&x.left), Self::color_of(&x.right)),
            None => (false, false),
        };
        if !sl_red && !sr_red {
            // Black sibling with black children: the sibling turns red.
            Self::color_assign(&mut n.right, RED);
            proof {
                lemma_recolor(*(n0.right->0), RED);
                assert(map_of(n.right) == map_of(n0.right));
                assert(inorder(n.right) == inorder(n0.right));
                assert(rb(n.right));
            }
            if n.color == RED {
                n.color = BLACK;
                return (n, false);
            }
            return (n, true);
        }
        if !sr_red {
            // The sibling's near child is red: rotate it up to be the new black sibling.
            let s = n.right.take().unwrap();
            let ghost s0 = *s;
            proof {
                lemma_rotr(s0);
            }
            let mut s2 = Self::rotate_right(s);
            let ghost s1 = *s2;
            s2.color = BLACK;
            Self::color_assign(&mut s2.right, RED);
            proof {
                lemma_recolor(*(s1.right->0), RED);
                assert(map_of(s2.right) == map_of(s1.right));
                assert(inorder(s2.right) == inorder(s1.right));
                assert(map_of(Some(s2)) == map_of(Some(Box::new(s1))));
                assert(inorder(Some(s2)) == inorder(Some(Box::new(s1))));
                assert(ordered(Some(s2)));
                assert(n0.right == Some(Box::new(s0)));
                assert(rb(s0.left) && rb(s0.right));
                assert(!n0.color || !is_red(n0.right));
                let m = s0.left->0;
                assert(rb(m.left) && rb(m.right));
                assert(black_height(m.right) == black_height(s0.right));
                assert(rb(s2.right));
                assert(black_height(s2.left) == black_height(s2.right));
                assert(rb(Some(s2)));
                assert(black_height(Some(s2)) == black_height(Some(Box::new(s0))));
                assert(is_red(s2.right));
            }
            n.right = Some(s2);
            proof {
                assert(ordered(Some(n)));
            }
        }
        // The sibling is black and its far child red: rotate the sibling up.
        let ghost n1 = *n;
        let c = n.color;
        proof {
            lemma_rotl(n1);
        }
        let mut r = Self::rotate_left(n);
        let ghost r0 = *r;
        r.color = c;
        Self::color_assign(&mut r.left, BLACK);
        Self::color_assign(&mut r.right, BLACK);
        proof {
            lemma_recolor(*(r0.left->0), BLACK);
            lemma_recolor(*(r0.right->0), BLACK);
            assert(map_of(r.left) == map_of(r0.left));
            assert(inorder(r.left) == inorder(r0.left));
            assert(map_of(r.right) == map_of(r0.right));
            assert(inorder(r.right) == inorder(r0.right));
            assert(ordered(Some(r)));
            let s = n1.right->0;
            assert(rb(s.left) && rb(s.right));
            assert(is_red(s.right));
            assert(black_height(s.left) == black_height(n1.left));
            assert(rb(r.left));
            assert(rb(r.right));
            assert(black_height(r.left) == black_height(r.right));
        }
        (r, false)
    }

    /// The mirror image of `balance_out_left`: repairs a node whose right subtree has
    /// just lost one black level.
    pub fn balance_out_right(n: Box<Node<K, V>>) -> (res: (Box<Node<K, V>>, bool))
        requires
            key_laws::<K>(),
            ordered(Some(n)),
            rb(n.right),
            rb(n.left),
            black_height(n.right) + 1 == black_height(n.left),
            !is_red(n.right),
            n.color == RED ==> !is_red(n.left),
        ensures
            map_of(Some(res.0)) == map_of(Some(n)),
            inorder(Some(res.0)) == inorder(Some(n)),
            ordered(Some(res.0)),
            rb(Some(res.0)),
            black_height(Some(res.0)) + (if res.1 { 1nat } else { 0nat }) == black_height(n.left)
                + if n.color == RED { 0nat } else { 1nat },
            is_red(Some(res.0)) ==> n.color == RED,
            res.1 == (n.color == BLACK && !is_red(n.left) && !is_red(n.left->0.right)
                && !is_red(n.left->0.left)),
        decreases
            (if n.color == RED { 0nat } else { 1nat }),
    {
        let ghost n0 = *n;
        let mut n = n;
        if Self::color_of(&n.left) {
            // The sibling is red: rotate it up and paint it black, the node red.
            let ghost s0 = *(n0.left->0);
            proof {
                lemma_rotr(n0);
            }
            let mut r = Self::rotate_right(n);
            r.color = BLACK;
            let mut inner = r.right.take().unwrap();
            let ghost i0 = *inner;
            inner.color = RED;
            proof {
                lemma_recolor(i0, RED);
                assert(ordered(Some(inner)));
                assert(rb(s0.right));
                assert(black_height(s0.right) == black_height(n0.left));
            }
            let (fixed, _) = Self::balance_out_right(inner);
            r.right = Some(fixed);
            proof {
                assert(map_of(r.right) == map_of(Some(Box::new(i0))));
                assert(inorder(r.right) == inorder(Some(Box::new(i0))));
                assert(ordered(Some(r)));
                assert(map_of(Some(r)) == map_of(Some(Box::new(rotr(n0)))));
                assert(inorder(Some(r)) == inorder(Some(Box::new(rotr(n0)))));
            }
            return (r, false);
        }
        let (sr_red, sl_red) = match &n.left {
            Some(x) => (Self::color_of(&x.right), Self::color_of(&x.left)),
            None => (false, false),
        };
        if !sr_red && !sl_red {
            // Black sibling with black children: the sibling turns red.
            Self::color_assign(&mut n.left, RED);
            proof {
                lemma_recolor(*(n0.left->0), RED);
                assert(map_of(n.left) == map_of(n0.left));
                assert(inorder(n.left) == inorder(n0.left));
                assert(rb(n.left));
            }
            if n.color == RED {
                n.color = BLACK;
                return (n, false);
            }
            return (n, true);
        }
        if !sl_red {
            // The sibling's near child is red: rotate it up to be the new black sibling.
            let s = n.left.take().unwrap();
            let ghost s0 = *s;
            proof {
                lemma_rotl(s0);
            }
            let mut s2 = Self::rotate_left(s);
            let ghost s1 = *s2;
            s2.color = BLACK;
            Self::color_assign(&mut s2.left, RED);
            proof {
                lemma_recolor(*(s1.left->0), RED);
                assert(map_of(s2.left) == map_of(s1.left));
                assert(inorder(s2.left) == inorder(s1.left));
                assert(map_of(Some(s2)) == map_of(Some(Box::new(s1))));
                assert(inorder(Some(s2)) == inorder(Some(Box::new(s1))));
                assert(ordered(Some(s2)));
                assert(n0.left == Some(Box::new(s0)));
                assert(rb(s0.right) && rb(s0.left));
                assert(!n0.color || !is_red(n0.left));
                let m = s0.right->0;
                assert(rb(m.right) && rb(m.left));
                assert(black_height(m.left) == black_height(s0.left));
                assert(rb(s2.left));
                assert(black_height(s2.right) == black_height(s2.left));
                assert(rb(Some(s2)));
                assert(black_height(Some(s2)) == black_height(Some(Box::new(s0))));
                assert(is_red(s2.left));
            }
            n.left = Some(s2);
            proof {
                assert(ordered(Some(n)));
            }
        }
        // The sibling is black and its far child red: rotate the sibling up.
        let ghost n1 = *n;
        let c = n.color;
        proof {
            lemma_rotr(n1);
        }
        let mut r = Self::rotate_right(n);
        let ghost r0 = *r;
        r.color = c;
        Self::color_assign(&mut r.right, BLACK);
        Self::color_assign(&mut r.left, BLACK);
        proof {
            lemma_recolor(*(r0.right->0), BLACK);
            lemma_recolor(*(r0.left->0), BLACK);
            assert(map_of(r.right) == map_of(r0.right));
            assert(inorder(r.right) == inorder(r0.right));
            assert(map_of(r.left) == map_of(r0.left));
            assert(inorder(r.left) == inorder(r0.left));
            assert(ordered(Some(r)));
            let s = n1.left->0;
            assert(rb(s.right) && rb(s.left));
            assert(is_red(s.left));
            assert(black_height(s.right) == black_height(n1.right));
            assert(rb(r.right));
            assert(rb(r.left));
            assert(black_height(r.right) == black_height(r.left));
        }
        (r, false)
    }

    /// Takes the node `b`, which has at most one child, out of its place: the child
    /// (a red leaf, if the red-black rules hold) takes the place and turns black.
    /// Returns the node's entry and whether the subtree lost a black level.
    fn splice_out(t: &mut Link<K, V>, b: Box<Node<K, V>>) -> (res: (K, V, bool))
        requires
            key_laws::<K>(),
            ordered(Some(b)),
            rb(Some(b)),
            b.left is None || b.right is None,
        ensures
            res.0 == b.key,
            res.1 == b.value,
            map_of(*final(t)) == map_of(Some(b)).remove(b.key),
            forall|k: K| #[trigger] map_of(Some(b)).dom().contains(k) && k != b.key ==> (
                b.left is None ==> key_lt(b.key, k)) && (b.left is Some ==> key_lt(k, b.key)),
            ordered(*final(t)),
            rb(*final(t)),
            black_height(*final(t)) + (if res.2 { 1nat } else { 0nat }) == black_height(Some(b)),
            !is_red(*final(t)),
            res.2 ==> b.color == BLACK,
    {
        proof {
            lemma_key_order::<K>();
        }
        let ghost b0 = *b;
        let Node { key, value, left, right, color } = *b;
        let mut child = if left.is_some() { left } else { right };
        let ghost c0 = child;
        let shorter = if child.is_some() {
            Self::color_assign(&mut child, BLACK);
            proof {
                let c = c0->0;
                lemma_recolor(*c, BLACK);
                assert(rb(c0));
                assert(black_height(c0) == 0);
                assert(c.color == RED);
                assert(black_height(c.left) == 0 && !is_red(c.left));
                assert(black_height(c.right) == 0 && !is_red(c.right));
                assert(c.left is None);
                assert(c.right is None);
                assert(rb(child));
            }
            false
        } else {
            color == BLACK
        };
        let _ = Self::transplant(t, child);
        proof {
            assert(map_of(*t) == map_of(c0));
            assert(inorder(*t) == inorder(c0));
            assert(!map_of(b0.left).dom().contains(b0.key));
            assert(!map_of(b0.right).dom().contains(b0.key));
            if b0.left is Some {
                assert(map_of(b0.right) =~= Map::<K, V>::empty());
                assert(c0 == b0.left);
            } else {
                assert(map_of(b0.left) =~= Map::<K, V>::empty());
                assert(c0 == b0.right);
            }
            assert(map_of(Some(Box::new(b0))).remove(b0.key) =~= map_of(c0));
        }
        (key, value, shorter)
    }

    /// Takes the entry with the least key out of a non-empty subtree, repairing the
    /// red-black shape on the way back up. Returns the entry and whether the subtree
    /// lost a black level.
    pub fn remove_min(t: &mut Link<K, V>) -> (res: (K, V, bool))
        requires
            key_laws::<K>(),
            ordered(*old(t)),
            rb(*old(t)),
            *old(t) is Some,
        ensures
            map_of(*old(t)).dom().contains(res.0),
            map_of(*old(t))[res.0] == res.1,
            forall|k: K| #[trigger] map_of(*old(t)).dom().contains(k) && k != res.0 ==> key_lt(res.0, k),
            map_of(*final(t)) == map_of(*old(t)).remove(res.0),
            ordered(*final(t)),
            rb(*final(t)),
            black_height(*final(t)) + (if res.2 { 1nat } else { 0nat }) == black_height(*old(t)),
            is_red(*final(t)) ==> is_red(*old(t)),
            res.2 ==> !is_red(*old(t)) && !is_red(*final(t)),
        decreases *old(t),
    {
        proof {
            lemma_key_order::<K>();
        }
        let mut b = t.take().unwrap();
        let ghost b0 = *b;
        if b.left.is_none() {
            return Self::splice_out(t, b);
        }
        let (k, v, s) = Self::remove_min(&mut b.left);
        proof {
            assert(map_of(b0.left).dom().contains(k));
            assert(!map_of(b0.right).dom().contains(k));
            assert(map_of(Some(b)) =~= map_of(Some(Box::new(b0))).remove(k));
            assert forall|j: K| #[trigger] map_of(Some(Box::new(b0))).dom().contains(j) && j != k implies key_lt(k, j) by {
                if map_of(b0.right).dom().contains(j) {
                    assert(key_lt(k, b0.key));
                }
            }
            assert(ordered(Some(b)));
        }
        if s {
            let (nb, s2) = Self::balance_out_left(b);
            *t = Some(nb);
            (k, v, s2)
        } else {
            *t = Some(b);
            (k, v, false)
        }
    }

    /// Removes `key` from the subtree `t`, repairing the red-black shape on the way
    /// back up. A node with two children takes the entry of its in-order successor
    /// (the least key of its right subtree), which leaves the right subtree. Returns
    /// the value `key` had, if any, and whether the subtree lost a black level.
    pub fn delete(t: &mut Link<K, V>, key: &K) -> (res: (Option<V>, bool))
        requires
            key_laws::<K>(),
            ordered(*old(t)),
            rb(*old(t)),
        ensures
            map_of(*final(t)) == map_of(*old(t)).remove(*key),
            res.0 == (if map_of(*old(t)).dom().contains(*key) { Some(map_of(*old(t))[*key]) } else { None }),
            ordered(*final(t)),
            rb(*final(t)),
            black_height(*final(t)) + (if res.1 { 1nat } else { 0nat }) == black_height(*old(t)),
            is_red(*final(t)) ==> is_red(*old(t)),
            res.1 ==> !is_red(*old(t)) && !is_red(*final(t)),
            !map_of(*old(t)).dom().contains(*key) ==> *final(t) == *old(t) && !res.1,
        decreases *old(t),
    {
        proof {
            lemma_key_order::<K>();
        }
        match t.take() {
            None => {
                proof {
                    assert(map_of(*old(t)).remove(*key) =~= map_of(*old(t)));
                }
                (None, false)
            },
            Some(mut b) => {
                let ghost b0 = *b;
                match key.cmp(&b.key) {
                    Ordering::Less => {
                        let (r, s) = Self::delete(&mut b.left, key);
                        proof {
                            assert(!map_of(b0.right).dom().contains(*key));
                            assert(map_of(Some(b)) =~= map_of(Some(Box::new(b0))).remove(*key));
                            assert(ordered(Some(b)));
                        }
                        if s {
                            let (nb, s2) = Self::balance_out_left(b);
                            *t = Some(nb);
                            (r, s2)
                        } else {
                            *t = Some(b);
                            (r, false)
                        }
                    },
                    Ordering::Greater => {
                        let (r, s) = Self::delete(&mut b.right, key);
                        proof {
                            assert(!map_of(b0.left).dom().contains(*key));
                            assert(map_of(Some(b)) =~= map_of(Some(Box::new(b0))).remove(*key));
                            assert(ordered(Some(b)));
                        }
                        if s {
                            let (nb, s2) = Self::balance_out_right(b);
                            *t = Some(nb);
                            (r, s2)
                        } else {
                            *t = Some(b);
                            (r, false)
                        }
                    },
                    Ordering::Equal => {
                        if b.left.is_none() || b.right.is_none() {
                            let (_, v, s) = Self::splice_out(t, b);
                            (Some(v), s)
                        } else {
                            let (sk, sv, s) = Self::remove_min(&mut b.right);
                            let v = b.set_val(sv);
                            b.key = sk;
                            proof {
                                assert(map_of(b0.right).dom().contains(sk));
                                assert(key_lt(b0.key, sk));
                                assert(!map_of(b0.left).dom().contains(sk));
                                assert(!map_of(b0.left).dom().contains(b0.key));
                                assert(!map_of(b0.right).dom().contains(b0.key));
                                assert(map_of(Some(b)) =~= map_of(Some(Box::new(b0))).remove(*key));
                                assert forall|j: K| #[trigger] map_of(b.left).dom().contains(j) implies key_lt(j, sk) by {
                                    assert(key_lt(j, b0.key));
                                }
                                assert forall|j: K| #[trigger] map_of(b.right).dom().contains(j) implies key_lt(sk, j) by {
                                    assert(map_of(b0.right).dom().contains(j));
                                }
                                assert(ordered(Some(b)));
                            }
                            if s {
                                let (nb, s2) = Self::balance_out_right(b);
                                *t = Some(nb);
                                (Some(v), s2)
                            } else {
                                *t = Some(b);
                                (Some(v), false)
                            }
                        }
                    },
                }
            },
        }
    }
}

} // verus!
