//! What holds of the map across its operations: the red-black shape keeps the tree's
//! height logarithmic in its size, and the map operations undo and compose as a map's should.
use vstd::prelude::*;
use vstd::arithmetic::power2::{pow2, lemma_pow2_unfold, lemma_pow2_strictly_increases};
use crate::bst::key_order::{key_laws, lemma_key_order};
use crate::bst::node::{Link, black_height, height, is_red, lemma_map_finite, lemma_node_parts, map_of, ordered, rb};

verus! {

broadcast use vstd::map_lib::group_map_union;

/// What `put(k, v)` leaves behind (`after == before.insert(k, v)`, as `put` ensures):
/// `get(k)` finds `v`, every other key keeps its entry, and the size grows by one
/// exactly when `k` was absent.
pub proof fn law_get_after_put<K, V>(before: Map<K, V>, after: Map<K, V>, k: K, v: V)
    requires
        before.dom().finite(),
        after == before.insert(k, v),
    ensures
        after.dom().contains(k),
        after[k] == v,
        forall|j: K| j != k ==> (#[trigger] after.dom().contains(j) <==> before.dom().contains(j)),
        forall|j: K| j != k && before.dom().contains(j) ==> #[trigger] after[j] == before[j],
        after.len() == before.len() + if before.dom().contains(k) { 0nat } else { 1nat },
{
}

/// `remove(k)` undoes a `put(k, v)` of an absent key: the map is as it was, and
/// `remove` hands `v` back.
pub proof fn law_remove_undoes_put<K, V>(before: Map<K, V>, k: K, v: V)
    requires
        !before.dom().contains(k),
    ensures
        before.insert(k, v).remove(k) == before,
        before.insert(k, v).dom().contains(k) && before.insert(k, v)[k] == v,
{
    assert(before.insert(k, v).remove(k) =~= before);
}

/// After `remove(k)`, `get(k)` finds nothing, every other key keeps its entry, and
/// the size shrinks by one exactly when `k` was present.
pub proof fn law_get_after_remove<K, V>(before: Map<K, V>, k: K)
    requires
        before.dom().finite(),
    ensures
        !before.remove(k).dom().contains(k),
        forall|j: K| j != k ==> (#[trigger] before.remove(k).dom().contains(j) <==> before.dom().contains(j)),
        forall|j: K| j != k && before.dom().contains(j) ==> #[trigger] before.remove(k)[j] == before[j],
        before.remove(k).len() + (if before.dom().contains(k) { 1nat } else { 0nat }) == before.len(),
{
}

/// A second `put` to the same key overrides the first.
pub proof fn law_put_put<K, V>(m: Map<K, V>, k: K, v1: V, v2: V)
    ensures
        m.insert(k, v1).insert(k, v2) == m.insert(k, v2),
{
    assert(m.insert(k, v1).insert(k, v2) =~= m.insert(k, v2));
}

/// `replace` never adds or removes a key, so the size stays; on a present key it is `put`.
pub proof fn law_replace_keeps_keys<K, V>(m: Map<K, V>, k: K, v: V)
    requires
        m.dom().finite(),
        m.dom().contains(k),
    ensures
        m.insert(k, v).dom() == m.dom(),
        m.insert(k, v).len() == m.len(),
{
    assert(m.insert(k, v).dom() =~= m.dom());
}

/// On a red-black subtree no path is longer than twice its black nodes (one more when
/// the root is red).
pub proof fn lemma_rb_height<K, V>(t: Link<K, V>)
    requires
        rb(t),
    ensures
        height(t) + (if is_red(t) { 0nat } else { 1nat }) <= 2 * black_height(t) + 1,
    decreases t,
{
    if let Some(n) = t {
        lemma_rb_height(n.left);
        lemma_rb_height(n.right);
    }
}

/// A red-black subtree holds at least `2^b - 1` entries, `b` its black height.
pub proof fn lemma_rb_size<K: Ord, V>(t: Link<K, V>)
    requires
        key_laws::<K>(),
        rb(t),
        ordered(t),
    ensures
        pow2(black_height(t)) <= map_of(t).len() + 1,
    decreases t,
{
    lemma_map_finite(t);
    match t {
        None => {
            assert(pow2(0) == 1) by {
                vstd::arithmetic::power2::lemma2_to64();
            }
        },
        Some(n) => {
            lemma_rb_size(n.left);
            lemma_rb_size(n.right);
            lemma_map_finite(n.left);
            lemma_map_finite(n.right);
            lemma_node_parts(n);
            lemma_key_order::<K>();
            let l = map_of(n.left);
            let r = map_of(n.right);
            assert(l.dom().disjoint(r.dom()));
            assert(l.union_prefer_right(r).dom().len() == l.dom().len() + r.dom().len());
            assert(!l.union_prefer_right(r).dom().contains(n.key));
            assert(map_of(t).len() == l.len() + r.len() + 1);
            let b = black_height(n.left);
            if black_height(t) == b + 1 {
                lemma_pow2_unfold(b + 1);
            }
        },
    }
}

} // verus!
