//! Tree nodes: their mathematical model (the map a subtree holds, the search-tree
//! order, the red-black shape) and the node-level operations.
use vstd::prelude::*;
use crate::bst::key_order::{key_laws, key_lt, lemma_key_order};
use core::cmp::Ordering;

verus! {

broadcast use vstd::map_lib::group_map_union;

/// The colour of a red node.
pub const RED: bool = true;

/// The colour of a black node.
pub const BLACK: bool = false;

/// A subtree: empty, or an owned node.
pub type Link<K, V> = Option<Box<Node<K, V>>>;

/// One entry of the tree with its two subtrees and its colour (`RED` or `BLACK`).
#[derive(Debug)]
pub struct Node<K, V> {
    pub key: K,
    pub value: V,
    pub left: Link<K, V>,
    pub right: Link<K, V>,
    pub color: bool,
}

/// The map that a subtree holds.
pub open spec fn map_of<K, V>(t: Link<K, V>) -> Map<K, V>
    decreases t,
{
    match t {
        None => Map::empty(),
        Some(n) => map_of(n.left).union_prefer_right(map_of(n.right)).insert(n.key, n.value),
    }
}

/// The subtree's entries in in-order: left subtree, the node, right subtree.
pub open spec fn inorder<K, V>(t: Link<K, V>) -> Seq<(K, V)>
    decreases t,
{
    match t {
        None => Seq::empty(),
        Some(n) => inorder(n.left) + seq![(n.key, n.value)] + inorder(n.right),
    }
}

/// The two subtrees have the same nodes in the same places with the same keys and
/// colours; only values may differ.
pub open spec fn same_shape<K, V>(a: Link<K, V>, b: Link<K, V>) -> bool
    decreases a,
{
    match (a, b) {
        (None, None) => true,
        (Some(x), Some(y)) => {
            &&& x.key == y.key
            &&& x.color == y.color
            &&& same_shape(x.left, y.left)
            &&& same_shape(x.right, y.right)
        },
        _ => false,
    }
}

/// Every key of the left subtree sorts before the node's key, every key of the
/// right subtree after it, at every node.
pub open spec fn ordered<K: Ord, V>(t: Link<K, V>) -> bool
    decreases t,
{
    match t {
        None => true,
        Some(n) => {
            &&& forall|k: K| #[trigger] map_of(n.left).dom().contains(k) ==> key_lt(k, n.key)
            &&& forall|k: K| #[trigger] map_of(n.right).dom().contains(k) ==> key_lt(n.key, k)
            &&& ordered(n.left)
            &&& ordered(n.right)
        },
    }
}

/// The number of nodes on the longest path from the subtree's root down.
pub open spec fn height<K, V>(t: Link<K, V>) -> nat
    decreases t,
{
    match t {
        None => 0,
        Some(n) => 1 + if height(n.left) >= height(n.right) { height(n.left) } else { height(n.right) },
    }
}

/// `n` is one of the nodes of the subtree `t`.
pub open spec fn node_in<K, V>(t: Link<K, V>, n: Node<K, V>) -> bool
    decreases t,
{
    match t {
        None => false,
        Some(b) => *b == n || node_in(b.left, n) || node_in(b.right, n),
    }
}

/// The subtree's root is red.
pub open spec fn is_red<K, V>(t: Link<K, V>) -> bool {
    t matches Some(n) && n.color == RED
}

/// The number of black nodes on every path from the subtree's root down to an empty subtree.
pub open spec fn black_height<K, V>(t: Link<K, V>) -> nat
    decreases t,
{
    match t {
        None => 0,
        Some(n) => black_height(n.left) + if n.color == RED { 0nat } else { 1nat },
    }
}

/// The red-black rules: no red node has a red child, and both subtrees of every
/// node have the same black height.
pub open spec fn rb<K, V>(t: Link<K, V>) -> bool
    decreases t,
{
    match t {
        None => true,
        Some(n) => {
            &&& rb(n.left)
            &&& rb(n.right)
            &&& black_height(n.left) == black_height(n.right)
            &&& (n.color == RED ==> !is_red(n.left) && !is_red(n.right))
        },
    }
}

/// The red-black rules hold below the root, and a red root has at most one red child:
/// what an insertion leaves behind before the level above repairs it.
pub open spec fn near_rb<K, V>(t: Link<K, V>) -> bool {
    match t {
        None => true,
        Some(n) => {
            &&& rb(n.left)
            &&& rb(n.right)
            &&& black_height(n.left) == black_height(n.right)
            &&& (n.color == RED ==> !(is_red(n.left) && is_red(n.right)))
        },
    }
}

/// A red root with a red child: the one flaw that `near_rb` allows.
pub open spec fn red_red_at_root<K, V>(t: Link<K, V>) -> bool {
    t matches Some(n) && n.color == RED && (is_red(n.left) || is_red(n.right))
}

/// The node that a left rotation of `n` yields: its right child rises, `n` becomes
/// that child's left child. Colours stay with their entries.
pub open spec fn rotl<K, V>(n: Node<K, V>) -> Node<K, V>
    recommends
        n.right is Some,
{
    let x = n.right->0;
    Node {
        key: x.key,
        value: x.value,
        color: x.color,
        right: x.right,
        left: Some(Box::new(Node { key: n.key, value: n.value, color: n.color, left: n.left, right: x.left })),
    }
}

/// The node that a right rotation of `n` yields: its left child rises.
pub open spec fn rotr<K, V>(n: Node<K, V>) -> Node<K, V>
    recommends
        n.left is Some,
{
    let x = n.left->0;
    Node {
        key: x.key,
        value: x.value,
        color: x.color,
        left: x.left,
        right: Some(Box::new(Node { key: n.key, value: n.value, color: n.color, left: x.right, right: n.right })),
    }
}

impl<K: Ord, V> Node<K, V> {
    /// A red node with no children.
    pub fn new(k: K, v: V) -> (n: Self)
        ensures
            n.key == k,
            n.value == v,
            n.left is None,
            n.right is None,
            n.color == RED,
    {
        Node { key: k, value: v, left: None, right: None, color: RED }
    }

    pub fn get_key(&self) -> (r: &K)
        ensures
            *r == self.key,
    {
        &self.key
    }

    pub fn get_val(&self) -> (r: &V)
        ensures
            *r == self.value,
    {
        &self.value
    }

    pub fn get_left(&self) -> (r: &Link<K, V>)
        ensures
            *r == self.left,
    {
        &self.left
    }

    pub fn get_right(&self) -> (r: &Link<K, V>)
        ensures
            *r == self.right,
    {
        &self.right
    }

    /// The node's colour: `RED` or `BLACK`.
    pub fn get_color(&self) -> (r: bool)
        ensures
            r == self.color,
    {
        self.color
    }

    /// Puts `val` in place of the node's value and hands the old value back.
    pub fn set_val(&mut self, val: V) -> (r: V)
        ensures
            r == old(self).value,
            *final(self) == (Node { value: val, ..*old(self) }),
    {
        let mut v = val;
        core::mem::swap(&mut self.value, &mut v);
        v
    }

    pub fn set_color(&mut self, color: bool)
        ensures
            *final(self) == (Node { color: color, ..*old(self) }),
    {
        self.color = color;
    }

    /// The colour of a subtree's root; an empty subtree counts as black.
    pub fn color_of(t: &Link<K, V>) -> (r: bool)
        ensures
            r == is_red(*t),
    {
        match t {
            Some(n) => n.color,
            None => BLACK,
        }
    }

    /// Colours a subtree's root, if it has one.
    pub fn color_assign(t: &mut Link<K, V>, color: bool)
        ensures
            match *old(t) {
                None => *final(t) is None,
                Some(n) => *final(t) == Some(Box::new(Node { color: color, ..*n })),
            },
    {
        if let Some(n) = t {
            n.color = color;
        }
    }

    /// Puts `replacement` where the subtree `slot` was and hands that subtree back.
    pub fn transplant(slot: &mut Link<K, V>, replacement: Link<K, V>) -> (r: Link<K, V>)
        ensures
            *final(slot) == replacement,
            r == *old(slot),
    {
        let mut replacement = replacement;
        core::mem::swap(slot, &mut replacement);
        replacement
    }

    /// Hangs `child` below `parent` on the side that key order gives: as the left child
    /// when its key sorts before the parent's, as the right child when after. Hands back
    /// the subtree that held that place; a child whose key equals the parent's is not
    /// hung and comes back itself.
    pub fn set_parent(child: Box<Node<K, V>>, parent: &mut Node<K, V>) -> (r: Link<K, V>)
        requires
            key_laws::<K>(),
        ensures
            key_lt(child.key, old(parent).key) ==> {
                &&& *final(parent) == (Node { left: Some(child), ..*old(parent) })
                &&& r == old(parent).left
            },
            key_lt(old(parent).key, child.key) ==> {
                &&& *final(parent) == (Node { right: Some(child), ..*old(parent) })
                &&& r == old(parent).right
            },
            child.key == old(parent).key ==> *final(parent) == *old(parent) && r == Some(child),
    {
        proof {
            lemma_key_order::<K>();
        }
        match child.key.cmp(&parent.key) {
            Ordering::Less => {
                let displaced = parent.left.take();
                parent.left = Some(child);
                displaced
            },
            Ordering::Greater => {
                let displaced = parent.right.take();
                parent.right = Some(child);
                displaced
            },
            Ordering::Equal => Some(child),
        }
    }

    /// Rotates left: the right child rises and `n` becomes its left child.
    pub fn rotate_left(n: Box<Node<K, V>>) -> (r: Box<Node<K, V>>)
        requires
            n.right is Some,
        ensures
            *r == rotl(*n),
    {
        let mut n = n;
        let mut x = n.right.take().unwrap();
        n.right = x.left.take();
        x.left = Some(n);
        x
    }

    /// Rotates right: the left child rises and `n` becomes its right child.
    pub fn rotate_right(n: Box<Node<K, V>>) -> (r: Box<Node<K, V>>)
        requires
            n.left is Some,
        ensures
            *r == rotr(*n),
    {
        let mut n = n;
        let mut x = n.left.take().unwrap();
        n.left = x.right.take();
        x.right = Some(n);
        x
    }
}

/// A subtree that satisfies `near_rb` and has no red node with a red child at its root
/// satisfies the red-black rules.
pub proof fn lemma_near_rb_rb<K, V>(t: Link<K, V>)
    requires
        near_rb(t),
        !red_red_at_root(t),
    ensures
        rb(t),
{
}

/// A red-black subtree satisfies `near_rb`, with no flaw at its root.
pub proof fn lemma_rb_near_rb<K, V>(t: Link<K, V>)
    requires
        rb(t),
    ensures
        near_rb(t),
        !red_red_at_root(t),
{
}

/// A node's colour does not enter its map or its order.
pub proof fn lemma_recolor<K: Ord, V>(n: Node<K, V>, c: bool)
    ensures
        map_of(Some(Box::new(Node { color: c, ..n }))) == map_of(Some(Box::new(n))),
        ordered(Some(Box::new(Node { color: c, ..n }))) == ordered(Some(Box::new(n))),
        black_height(Some(Box::new(Node { color: c, ..n }))) == black_height(n.left) + if c == RED { 0nat } else { 1nat },
        inorder(Some(Box::new(Node { color: c, ..n }))) == inorder(Some(Box::new(n))),
{
}

/// How the map of an ordered node splits: its own entry, the left subtree's entries
/// (all sorting before its key) and the right subtree's (all after).
pub proof fn lemma_node_parts<K: Ord, V>(n: Box<Node<K, V>>)
    requires
        key_laws::<K>(),
        ordered(Some(n)),
    ensures
        map_of(Some(n)).dom().contains(n.key),
        map_of(Some(n))[n.key] == n.value,
        forall|j: K| #[trigger] map_of(n.left).dom().contains(j) ==> {
            &&& map_of(Some(n)).dom().contains(j)
            &&& map_of(Some(n))[j] == map_of(n.left)[j]
            &&& key_lt(j, n.key)
            &&& !map_of(n.right).dom().contains(j)
        },
        forall|j: K| #[trigger] map_of(n.right).dom().contains(j) ==> {
            &&& map_of(Some(n)).dom().contains(j)
            &&& map_of(Some(n))[j] == map_of(n.right)[j]
            &&& key_lt(n.key, j)
        },
        forall|j: K| #[trigger] map_of(Some(n)).dom().contains(j)
            ==> j == n.key || map_of(n.left).dom().contains(j) || map_of(n.right).dom().contains(j),
        !map_of(n.left).dom().contains(n.key),
        !map_of(n.right).dom().contains(n.key),
{
    lemma_key_order::<K>();
    assert forall|j: K| #[trigger] map_of(n.left).dom().contains(j) implies !map_of(n.right).dom().contains(j) by {
        if map_of(n.right).dom().contains(j) {
            assert(key_lt(j, n.key) && key_lt(n.key, j));
        }
    }
}

/// Every subtree has its own shape.
pub proof fn lemma_same_shape_refl<K, V>(t: Link<K, V>)
    ensures
        same_shape(t, t),
    decreases t,
{
    if let Some(n) = t {
        lemma_same_shape_refl(n.left);
        lemma_same_shape_refl(n.right);
    }
}

/// The map of a subtree is finite.
pub proof fn lemma_map_finite<K, V>(t: Link<K, V>)
    ensures
        map_of(t).dom().finite(),
    decreases t,
{
    if let Some(n) = t {
        lemma_map_finite(n.left);
        lemma_map_finite(n.right);
    }
}

/// A left rotation keeps the map and the search-tree order.
pub proof fn lemma_rotl<K: Ord, V>(n: Node<K, V>)
    requires
        key_laws::<K>(),
        n.right is Some,
        ordered(Some(Box::new(n))),
    ensures
        map_of(Some(Box::new(rotl(n)))) == map_of(Some(Box::new(n))),
        ordered(Some(Box::new(rotl(n)))),
        inorder(Some(Box::new(rotl(n)))) == inorder(Some(Box::new(n))),
{
    lemma_key_order::<K>();
    let x = n.right->0;
    let inner = Node { key: n.key, value: n.value, color: n.color, left: n.left, right: x.left };
    assert(inorder(n.right) == inorder(x.left) + seq![(x.key, x.value)] + inorder(x.right));
    assert(inorder(Some(Box::new(inner))) == inorder(n.left) + seq![(n.key, n.value)] + inorder(x.left));
    assert(inorder(Some(Box::new(rotl(n)))) =~= inorder(Some(Box::new(n))));
    assert(map_of(n.right) == map_of(x.left).union_prefer_right(map_of(x.right)).insert(x.key, x.value));
    assert(ordered(n.right));
    assert(map_of(Some(Box::new(inner))) == map_of(n.left).union_prefer_right(map_of(x.left)).insert(n.key, n.value));
    assert forall|k: K| #[trigger] map_of(x.left).dom().contains(k) implies key_lt(n.key, k) by {
        assert(map_of(n.right).dom().contains(k));
    }
    assert forall|k: K| #[trigger] map_of(Some(Box::new(inner))).dom().contains(k) implies key_lt(k, x.key) by {
        assert(map_of(n.right).dom().contains(x.key));
        if k != n.key && !map_of(x.left).dom().contains(k) {
            assert(map_of(n.left).dom().contains(k));
        }
    }
    assert(ordered(Some(Box::new(inner))));
    let a = map_of(n.left);
    let b = map_of(x.left);
    let c = map_of(x.right);
    assert(map_of(n.right).dom().contains(x.key));
    assert(!a.dom().contains(n.key));
    assert(!b.dom().contains(n.key));
    assert(!c.dom().contains(n.key));
    assert(!a.dom().contains(x.key));
    assert(!b.dom().contains(x.key));
    assert forall|k: K| #[trigger] c.dom().contains(k) implies !a.dom().contains(k) && !b.dom().contains(k) by {
        assert(map_of(n.right).dom().contains(k));
    }
    assert(map_of(Some(Box::new(rotl(n)))) == map_of(Some(Box::new(inner))).union_prefer_right(c).insert(x.key, x.value));
    assert(map_of(Some(Box::new(rotl(n)))) =~= map_of(Some(Box::new(n))));
}

/// A right rotation keeps the map and the search-tree order.
pub proof fn lemma_rotr<K: Ord, V>(n: Node<K, V>)
    requires
        key_laws::<K>(),
        n.left is Some,
        ordered(Some(Box::new(n))),
    ensures
        map_of(Some(Box::new(rotr(n)))) == map_of(Some(Box::new(n))),
        ordered(Some(Box::new(rotr(n)))),
        inorder(Some(Box::new(rotr(n)))) == inorder(Some(Box::new(n))),
{
    lemma_key_order::<K>();
    let x = n.left->0;
    let inner = Node { key: n.key, value: n.value, color: n.color, left: x.right, right: n.right };
    assert(inorder(n.left) == inorder(x.left) + seq![(x.key, x.value)] + inorder(x.right));
    assert(inorder(Some(Box::new(inner))) == inorder(x.right) + seq![(n.key, n.value)] + inorder(n.right));
    assert(inorder(Some(Box::new(rotr(n)))) =~= inorder(Some(Box::new(n))));
    assert(map_of(n.left) == map_of(x.left).union_prefer_right(map_of(x.right)).insert(x.key, x.value));
    assert(ordered(n.left));
    assert(map_of(Some(Box::new(inner))) == map_of(x.right).union_prefer_right(map_of(n.right)).insert(n.key, n.value));
    assert forall|k: K| #[trigger] map_of(x.right).dom().contains(k) implies key_lt(k, n.key) by {
        assert(map_of(n.left).dom().contains(k));
    }
    assert forall|k: K| #[trigger] map_of(Some(Box::new(inner))).dom().contains(k) implies key_lt(x.key, k) by {
        assert(map_of(n.left).dom().contains(x.key));
        if k != n.key && !map_of(x.right).dom().contains(k) {
            assert(map_of(n.right).dom().contains(k));
        }
    }
    assert(ordered(Some(Box::new(inner))));
    let a = map_of(x.left);
    let b = map_of(x.right);
    let c = map_of(n.right);
    assert(map_of(n.left).dom().contains(x.key));
    assert(!a.dom().contains(n.key));
    assert(!b.dom().contains(n.key));
    assert(!c.dom().contains(n.key));
    assert(!c.dom().contains(x.key));
    assert(!b.dom().contains(x.key));
    assert forall|k: K| #[trigger] a.dom().contains(k) implies !c.dom().contains(k) && !b.dom().contains(k) by {
        assert(map_of(n.left).dom().contains(k));
    }
    assert(map_of(Some(Box::new(rotr(n)))) == a.union_prefer_right(map_of(Some(Box::new(inner)))).insert(x.key, x.value));
    assert(map_of(Some(Box::new(rotr(n)))) =~= map_of(Some(Box::new(n))));
}

} // verus!
