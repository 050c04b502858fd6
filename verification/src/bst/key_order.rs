//! The strict order on keys that the tree is sorted by, taken from the keys' `Ord`.
use vstd::prelude::*;
use core::cmp::Ordering;
use vstd::laws_cmp::obeys_cmp;
use vstd::laws_eq::obeys_concrete_eq;
use vstd::std_specs::cmp::{OrdSpec, PartialOrdSpec};

verus! {

/// The key type's `Ord` and `PartialEq` behave as a total order whose equality is
/// equality of values. Every integer type meets it (see `vstd::laws_cmp`).
pub open spec fn key_laws<K: Ord>() -> bool {
    &&& obeys_cmp::<K>()
    &&& obeys_concrete_eq::<K>()
}

/// `a` sorts strictly before `b`.
pub open spec fn key_lt<K: Ord>(a: K, b: K) -> bool {
    a.cmp_spec(&b) == Ordering::Less
}

/// Under the key laws, `key_lt` is a strict total order whose equivalence is `==`.
pub proof fn lemma_key_order<K: Ord>()
    requires
        key_laws::<K>(),
    ensures
        K::obeys_cmp_spec(),
        forall|a: K| !#[trigger] key_lt(a, a),
        forall|a: K, b: K| #[trigger] key_lt(a, b) ==> !key_lt(b, a),
        forall|a: K, b: K| a != b ==> #[trigger] key_lt(a, b) || #[trigger] key_lt(b, a),
        forall|a: K, b: K, c: K| #[trigger] key_lt(a, b) && #[trigger] key_lt(b, c) ==> key_lt(a, c),
        forall|a: K, b: K| (#[trigger] a.cmp_spec(&b) == Ordering::Equal) <==> a == b,
        forall|a: K, b: K| (#[trigger] a.cmp_spec(&b) == Ordering::Greater) <==> key_lt(b, a),
{
    reveal(vstd::laws_cmp::obeys_partial_cmp_spec_properties);
    reveal(vstd::laws_cmp::obeys_cmp_partial_ord);
    reveal(vstd::laws_cmp::obeys_cmp_ord);
    reveal(vstd::laws_eq::obeys_concrete_eq);
    reveal(vstd::laws_eq::obeys_eq_spec_properties);
    assert forall|a: K, b: K| (#[trigger] a.cmp_spec(&b) == Ordering::Equal) <==> a == b by {
        assert(a.partial_cmp_spec(&b) == Some(a.cmp_spec(&b)));
    }
    assert forall|a: K, b: K| (#[trigger] a.cmp_spec(&b) == Ordering::Greater) <==> key_lt(b, a) by {
        assert(a.partial_cmp_spec(&b) == Some(a.cmp_spec(&b)));
        assert(b.partial_cmp_spec(&a) == Some(b.cmp_spec(&a)));
    }
    assert forall|a: K, b: K, c: K| #[trigger] key_lt(a, b) && #[trigger] key_lt(b, c) implies key_lt(a, c) by {
        assert(a.partial_cmp_spec(&b) == Some(a.cmp_spec(&b)));
        assert(b.partial_cmp_spec(&c) == Some(b.cmp_spec(&c)));
        assert(a.partial_cmp_spec(&c) == Some(a.cmp_spec(&c)));
    }
}

/// Integer keys meet the key laws.
pub proof fn lemma_integer_key_laws()
    ensures
        key_laws::<u8>(),
        key_laws::<u16>(),
        key_laws::<u32>(),
        key_laws::<u64>(),
        key_laws::<u128>(),
        key_laws::<usize>(),
        key_laws::<i8>(),
        key_laws::<i16>(),
        key_laws::<i32>(),
        key_laws::<i64>(),
        key_laws::<i128>(),
        key_laws::<isize>(),
{
    broadcast use {vstd::laws_cmp::group_laws_cmp, vstd::laws_eq::group_laws_eq};
    assert(obeys_cmp::<u8>() && obeys_concrete_eq::<u8>());
    assert(obeys_cmp::<u16>() && obeys_concrete_eq::<u16>());
    assert(obeys_cmp::<u32>() && obeys_concrete_eq::<u32>());
    assert(obeys_cmp::<u64>() && obeys_concrete_eq::<u64>());
    assert(obeys_cmp::<u128>() && obeys_concrete_eq::<u128>());
    assert(obeys_cmp::<usize>() && obeys_concrete_eq::<usize>());
    assert(obeys_cmp::<i8>() && obeys_concrete_eq::<i8>());
    assert(obeys_cmp::<i16>() && obeys_concrete_eq::<i16>());
    assert(obeys_cmp::<i32>() && obeys_concrete_eq::<i32>());
    assert(obeys_cmp::<i64>() && obeys_concrete_eq::<i64>());
    assert(obeys_cmp::<i128>() && obeys_concrete_eq::<i128>());
    assert(obeys_cmp::<isize>() && obeys_concrete_eq::<isize>());
}

} // verus!
