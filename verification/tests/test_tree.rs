use rust_bst::bst::map::KeyValueMap;
use rust_bst::bst::node::{Link, Node, BLACK, RED};
use rust_bst::bst::tree_map::TreeMap;
use std::collections::BTreeMap;

/// Checks the search-tree order and the red-black rules of a subtree; returns its
/// black height, its height and its keys in order.
fn check(t: &Link<u64, u64>, keys: &mut Vec<u64>) -> (usize, usize) {
    match t {
        None => (0, 0),
        Some(n) => {
            if n.color == RED {
                assert!(!Node::color_of(&n.left), "red node with red left child");
                assert!(!Node::color_of(&n.right), "red node with red right child");
            }
            let (bl, hl) = check(&n.left, keys);
            keys.push(n.key);
            let (br, hr) = check(&n.right, keys);
            assert_eq!(bl, br, "unequal black heights");
            (bl + if n.color == RED { 0 } else { 1 }, 1 + hl.max(hr))
        }
    }
}

fn check_tree(t: &Link<u64, u64>) -> (usize, usize) {
    let mut keys = Vec::new();
    let r = check(t, &mut keys);
    for w in keys.windows(2) {
        assert!(w[0] < w[1], "keys out of order");
    }
    assert!(!Node::color_of(t), "red root");
    r
}

/// A small deterministic pseudo-random sequence.
fn next(state: &mut u64) -> u64 {
    *state = state.wrapping_mul(6364136223846793005).wrapping_add(1442695040888963407);
    *state >> 33
}

#[test]
fn test_new_and_default_are_empty() {
    let a: TreeMap<u32, u32> = TreeMap::new();
    let b: TreeMap<u32, u32> = TreeMap::default();
    assert!(a.is_empty());
    assert!(b.is_empty());
    assert_eq!(a.size(), 0);
    assert_eq!(a.get(&1), None);
    assert!(!a.contains_key(&1));
}

#[test]
fn test_put_existing_key_returns_old_value() {
    let mut m: TreeMap<u32, &str> = TreeMap::new();
    assert_eq!(m.put(7, "a"), None);
    assert_eq!(m.put(7, "b"), Some("a"));
    assert_eq!(m.size(), 1);
    assert_eq!(m.get(&7), Some(&"b"));
}

#[test]
fn test_remove_undoes_put() {
    let mut m: TreeMap<u32, u32> = TreeMap::new();
    for k in [5u32, 3, 8, 1, 4] {
        m.put(k, k * 10);
    }
    assert_eq!(m.put(6, 60), None);
    assert_eq!(m.remove(&6), Some(60));
    assert_eq!(m.size(), 5);
    assert!(!m.contains_key(&6));
    for k in [5u32, 3, 8, 1, 4] {
        assert_eq!(m.get(&k), Some(&(k * 10)));
    }
}

#[test]
fn test_remove_absent_key() {
    let mut m: TreeMap<u32, u32> = TreeMap::new();
    assert_eq!(m.remove(&1), None);
    m.put(2, 20);
    assert_eq!(m.remove(&1), None);
    assert_eq!(m.size(), 1);
    assert_eq!(m.get(&2), Some(&20));
}

#[test]
fn test_replace_absent_key_changes_nothing() {
    let mut m: TreeMap<u32, u32> = TreeMap::new();
    assert_eq!(m.replace(&1, 10), None);
    assert!(m.is_empty());
    m.put(2, 20);
    assert_eq!(m.replace(&1, 10), None);
    assert_eq!(m.size(), 1);
    assert!(!m.contains_key(&1));
    assert_eq!(m.replace(&2, 21), Some(20));
    assert_eq!(m.get(&2), Some(&21));
}

#[test]
fn test_clear_then_reuse() {
    let mut m: TreeMap<u32, u32> = TreeMap::new();
    for k in 0..100u32 {
        m.put(k, k);
    }
    m.clear();
    assert!(m.is_empty());
    assert_eq!(m.size(), 0);
    assert_eq!(m.get(&5), None);
    assert_eq!(m.put(5, 6), None);
    assert_eq!(m.size(), 1);
}

#[test]
fn test_descending_and_mixed_order() {
    let mut m: TreeMap<i64, i64> = TreeMap::new();
    for k in (0..1000i64).rev() {
        assert_eq!(m.put(k, -k), None);
    }
    for k in (0..1000i64).step_by(2) {
        assert_eq!(m.remove(&k), Some(-k));
    }
    assert_eq!(m.size(), 500);
    for k in 0..1000i64 {
        assert_eq!(m.contains_key(&k), k % 2 == 1);
    }
}

#[test]
fn test_random_operations_agree_with_btreemap() {
    let mut m: TreeMap<u64, u64> = TreeMap::new();
    let mut oracle: BTreeMap<u64, u64> = BTreeMap::new();
    let mut s = 12345u64;
    for step in 0..20000u64 {
        let k = next(&mut s) % 500;
        match next(&mut s) % 4 {
            0 | 1 => assert_eq!(m.put(k, step), oracle.insert(k, step)),
            2 => assert_eq!(m.remove(&k), oracle.remove(&k)),
            _ => {
                let expected = oracle.get_mut(&k).map(|v| std::mem::replace(v, step));
                assert_eq!(m.replace(&k, step), expected);
            }
        }
        assert_eq!(m.size(), oracle.len());
        assert_eq!(m.is_empty(), oracle.is_empty());
    }
    for k in 0..500u64 {
        assert_eq!(m.get(&k), oracle.get(&k));
    }
}

#[test]
fn test_red_black_rules_hold_after_every_operation() {
    let mut t: Link<u64, u64> = None;
    let mut s = 99u64;
    let mut count = 0usize;
    for _ in 0..3000 {
        let k = next(&mut s) % 300;
        if next(&mut s) % 3 == 0 {
            let (r, _) = Node::delete(&mut t, &k);
            if r.is_some() {
                count -= 1;
            }
        } else {
            if Node::insert_into(&mut t, k, k).is_none() {
                count += 1;
            }
            Node::color_assign(&mut t, BLACK);
        }
        let (bh, h) = check_tree(&t);
        // The height is at most twice the black height, and 2^bh - 1 <= entries.
        assert!(h <= 2 * bh);
        assert!((1usize << bh) <= count + 1);
    }
}

#[test]
fn test_height_stays_logarithmic_for_sorted_input() {
    let mut t: Link<u64, u64> = None;
    for k in 0..4096u64 {
        Node::insert_into(&mut t, k, k);
        Node::color_assign(&mut t, BLACK);
    }
    let (_, h) = check_tree(&t);
    // 2^(h/2) <= n + 1 = 4097, so h/2 <= 12.
    assert!(h <= 24);
}

fn sample() -> Link<u64, u64> {
    let mut t: Link<u64, u64> = None;
    for k in [50u64, 20, 80, 10, 30, 70, 90] {
        Node::insert_into(&mut t, k, k + 1);
        Node::color_assign(&mut t, BLACK);
    }
    t
}

#[test]
fn test_successor() {
    let t = sample();
    assert_eq!(Node::successor(&t, &50).map(|n| n.key), Some(70));
    assert_eq!(Node::successor(&t, &55).map(|n| n.key), Some(70));
    assert_eq!(Node::successor(&t, &30).map(|n| n.key), Some(50));
    assert_eq!(Node::successor(&t, &0).map(|n| n.key), Some(10));
    assert_eq!(Node::successor(&t, &90).map(|n| n.key), None);
    assert_eq!(Node::successor(&t, &80).map(|n| n.value), Some(91));
}

#[test]
fn test_predecessor() {
    let t = sample();
    assert_eq!(Node::predecessor(&t, &50).map(|n| n.key), Some(30));
    assert_eq!(Node::predecessor(&t, &75).map(|n| n.key), Some(70));
    assert_eq!(Node::predecessor(&t, &10).map(|n| n.key), None);
    assert_eq!(Node::predecessor(&t, &1000).map(|n| n.key), Some(90));
    assert_eq!(Node::predecessor(&t, &20).map(|n| n.value), Some(11));
}

#[test]
fn test_fetch_or_parent() {
    let t = sample();
    // A key that is present: its own node.
    assert_eq!(TreeMap::fetch_or_parent(&t, &30).map(|n| n.key), Some(30));
    // An absent key: the node under which it would be attached.
    let p = TreeMap::fetch_or_parent(&t, &35).unwrap();
    assert_eq!(p.key, 30);
    assert!(p.right.is_none());
    let p = TreeMap::fetch_or_parent(&t, &5).unwrap();
    assert_eq!(p.key, 10);
    assert!(p.left.is_none());
    let empty: Link<u64, u64> = None;
    assert!(TreeMap::fetch_or_parent(&empty, &1).is_none());
}

#[test]
fn test_remove_min() {
    let mut t = sample();
    let (k, v, _) = Node::remove_min(&mut t);
    assert_eq!((k, v), (10, 11));
    let (k, _, _) = Node::remove_min(&mut t);
    assert_eq!(k, 20);
    check_tree(&t);
}

#[test]
fn test_node_accessors() {
    let mut n = Node::new(3u32, "three");
    assert_eq!(*n.get_key(), 3);
    assert_eq!(*n.get_val(), "three");
    assert!(n.get_left().is_none());
    assert!(n.get_right().is_none());
    assert_eq!(n.get_color(), RED);
    assert_eq!(n.set_val("drei"), "three");
    assert_eq!(*n.get_val(), "drei");
    n.set_color(BLACK);
    assert_eq!(n.get_color(), BLACK);
}

#[test]
fn test_rotations() {
    // 1 with right child 3, whose children are 2 and 4.
    let mut n = Box::new(Node::new(1u32, 10u32));
    let mut x = Box::new(Node::new(3u32, 30u32));
    x.left = Some(Box::new(Node::new(2u32, 20u32)));
    x.right = Some(Box::new(Node::new(4u32, 40u32)));
    n.right = Some(x);
    let r = Node::rotate_left(n);
    assert_eq!(r.key, 3);
    let l = r.left.as_ref().unwrap();
    assert_eq!(l.key, 1);
    assert_eq!(l.right.as_ref().unwrap().key, 2);
    assert_eq!(r.right.as_ref().unwrap().key, 4);
    let back = Node::rotate_right(r);
    assert_eq!(back.key, 1);
    let x = back.right.as_ref().unwrap();
    assert_eq!(x.key, 3);
    assert_eq!(x.left.as_ref().unwrap().key, 2);
    assert_eq!(x.right.as_ref().unwrap().key, 4);
}

#[test]
fn test_transplant_and_color_helpers() {
    let mut slot: Link<u32, u32> = Some(Box::new(Node::new(1, 1)));
    assert!(Node::color_of(&slot));
    Node::color_assign(&mut slot, BLACK);
    assert!(!Node::color_of(&slot));
    let old = Node::transplant(&mut slot, Some(Box::new(Node::new(2, 2))));
    assert_eq!(old.unwrap().key, 1);
    assert_eq!(slot.as_ref().unwrap().key, 2);
    let empty: Link<u32, u32> = None;
    assert!(!Node::color_of(&empty));
}

#[test]
fn test_balance_in_flips_colours_under_red_uncle() {
    // Black 20 with red children 10 and 30; 10 has a red child 5.
    let mut g = Box::new(Node::new(20u32, 0u32));
    g.color = BLACK;
    let mut p = Box::new(Node::new(10u32, 0u32));
    p.left = Some(Box::new(Node::new(5u32, 0u32)));
    g.left = Some(p);
    g.right = Some(Box::new(Node::new(30u32, 0u32)));
    let r = Node::balance_in(g);
    assert_eq!(r.key, 20);
    assert_eq!(r.color, RED);
    assert_eq!(r.left.as_ref().unwrap().color, BLACK);
    assert_eq!(r.right.as_ref().unwrap().color, BLACK);
}

#[test]
fn test_balance_in_rotates_under_black_uncle() {
    // Black 20 with red left child 10 whose right child 15 is red; no right child.
    let mut g = Box::new(Node::new(20u32, 0u32));
    g.color = BLACK;
    let mut p = Box::new(Node::new(10u32, 0u32));
    p.right = Some(Box::new(Node::new(15u32, 0u32)));
    g.left = Some(p);
    let r = Node::balance_in(g);
    assert_eq!(r.key, 15);
    assert_eq!(r.color, BLACK);
    assert_eq!(r.left.as_ref().unwrap().key, 10);
    assert_eq!(r.left.as_ref().unwrap().color, RED);
    assert_eq!(r.right.as_ref().unwrap().key, 20);
    assert_eq!(r.right.as_ref().unwrap().color, RED);
}

#[test]
fn test_balance_out_left_shortened_by_black_sibling() {
    // Black 10 with an empty left and a black leaf 20 on the right: the sibling turns red
    // and the subtree is one black level short.
    let mut n = Box::new(Node::new(10u32, 0u32));
    n.color = BLACK;
    let mut s = Box::new(Node::new(20u32, 0u32));
    s.color = BLACK;
    n.right = Some(s);
    let (r, shorter) = Node::balance_out_left(n);
    assert!(shorter);
    assert_eq!(r.key, 10);
    assert_eq!(r.right.as_ref().unwrap().color, RED);
}

#[test]
fn test_balance_out_right_rotates_red_nephew() {
    // Black 10 with an empty right, black left 5 whose left child 3 is red.
    let mut n = Box::new(Node::new(10u32, 0u32));
    n.color = BLACK;
    let mut s = Box::new(Node::new(5u32, 0u32));
    s.color = BLACK;
    s.left = Some(Box::new(Node::new(3u32, 0u32)));
    n.left = Some(s);
    let (r, shorter) = Node::balance_out_right(n);
    assert!(!shorter);
    assert_eq!(r.key, 5);
    assert_eq!(r.color, BLACK);
    assert_eq!(r.left.as_ref().unwrap().key, 3);
    assert_eq!(r.left.as_ref().unwrap().color, BLACK);
    assert_eq!(r.right.as_ref().unwrap().key, 10);
    assert_eq!(r.right.as_ref().unwrap().color, BLACK);
}

#[test]
fn test_get_parent() {
    let t = sample();
    // The root has no parent, and an absent key has none either.
    let root_key = t.as_ref().unwrap().key;
    assert!(Node::get_parent(&t, &root_key).is_none());
    assert!(Node::get_parent(&t, &55).is_none());
    for k in [10u64, 20, 30, 70, 80, 90] {
        if k == root_key {
            continue;
        }
        let p = Node::get_parent(&t, &k).unwrap();
        let is_child = p.left.as_ref().map(|c| c.key) == Some(k) || p.right.as_ref().map(|c| c.key) == Some(k);
        assert!(is_child);
    }
    let empty: Link<u64, u64> = None;
    assert!(Node::get_parent(&empty, &1).is_none());
}

#[test]
fn test_set_parent() {
    let mut p = Node::new(10u32, 0u32);
    assert!(Node::set_parent(Box::new(Node::new(5u32, 1u32)), &mut p).is_none());
    assert_eq!(p.left.as_ref().unwrap().key, 5);
    assert!(Node::set_parent(Box::new(Node::new(15u32, 2u32)), &mut p).is_none());
    assert_eq!(p.right.as_ref().unwrap().key, 15);
    // A second left child displaces the first.
    let displaced = Node::set_parent(Box::new(Node::new(7u32, 3u32)), &mut p);
    assert_eq!(displaced.unwrap().key, 5);
    assert_eq!(p.left.as_ref().unwrap().key, 7);
    // An equal key is not hung.
    let back = Node::set_parent(Box::new(Node::new(10u32, 4u32)), &mut p);
    assert_eq!(back.unwrap().value, 4);
    assert_eq!(p.value, 0);
}

#[test]
fn test_remove_absent_key_leaves_tree_as_it_was() {
    let mut m: TreeMap<u32, u32> = TreeMap::new();
    for k in [8u32, 3, 12, 1, 5, 10, 14] {
        m.put(k, k);
    }
    let before = format!("{:?}", m);
    assert_eq!(m.remove(&6), None);
    assert_eq!(format!("{:?}", m), before);
    assert_eq!(m.replace(&6, 0), None);
    assert_eq!(format!("{:?}", m), before);
}

fn shape(t: &Link<u64, u64>, out: &mut Vec<(u64, bool)>) {
    if let Some(n) = t {
        out.push((n.key, n.color));
        shape(&n.left, out);
        shape(&n.right, out);
    }
}

#[test]
fn test_replace_keeps_shape() {
    let mut t = sample();
    let mut before = Vec::new();
    shape(&t, &mut before);
    assert_eq!(Node::replace_in(&mut t, &30, 99), Some(31));
    let mut after = Vec::new();
    shape(&t, &mut after);
    assert_eq!(before, after);
    assert_eq!(TreeMap::fetch_or_parent(&t, &30).unwrap().value, 99);
}
