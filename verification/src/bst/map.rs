//! The map interface, in the manner of Java's `Map`.
use vstd::prelude::*;

verus! {

/// A map from keys to values: each key present holds exactly one value.
pub trait KeyValueMap<K, V> {
    /// The entries the map holds.
    spec fn kv(&self) -> Map<K, V>;

    /// What an implementation needs of its own state (and of the key type) to work.
    spec fn inv(&self) -> bool;

    /// A map that meets its invariant holds finitely many entries.
    proof fn lemma_kv_finite(&self)
        requires
            self.inv(),
        ensures
            self.kv().dom().finite(),
    ;

    /// The value that `key` holds, if any.
    fn get(&self, key: &K) -> (r: Option<&V>)
        requires
            self.inv(),
        ensures
            match r {
                Some(v) => self.kv().dom().contains(*key) && *v == self.kv()[*key],
                None => !self.kv().dom().contains(*key),
            },
    ;

    /// Makes `key` hold `value`; hands back the value it held before, if any.
    fn put(&mut self, key: K, value: V) -> (r: Option<V>)
        requires
            old(self).inv(),
            old(self).kv().dom().contains(key) || old(self).kv().len() < usize::MAX,
        ensures
            final(self).inv(),
            final(self).kv() == old(self).kv().insert(key, value),
            r == (if old(self).kv().dom().contains(key) { Some(old(self).kv()[key]) } else { None }),
            final(self).kv().len() == old(self).kv().len() + if old(self).kv().dom().contains(key) {
                0nat
            } else {
                1nat
            },
    ;

    /// Makes `key` hold `value` if it is present, and hands back the value it held;
    /// an absent key leaves the map as it is.
    fn replace(&mut self, key: &K, value: V) -> (r: Option<V>)
        requires
            old(self).inv(),
        ensures
            final(self).inv(),
            final(self).kv() == (if old(self).kv().dom().contains(*key) {
                old(self).kv().insert(*key, value)
            } else {
                old(self).kv()
            }),
            r == (if old(self).kv().dom().contains(*key) { Some(old(self).kv()[*key]) } else { None }),
            final(self).kv().len() == old(self).kv().len(),
    ;

    /// Takes `key` out of the map; hands back the value it held, if any.
    fn remove(&mut self, key: &K) -> (r: Option<V>)
        requires
            old(self).inv(),
        ensures
            final(self).inv(),
            final(self).kv() == old(self).kv().remove(*key),
            r == (if old(self).kv().dom().contains(*key) { Some(old(self).kv()[*key]) } else { None }),
            final(self).kv().len() + (if old(self).kv().dom().contains(*key) { 1nat } else { 0nat })
                == old(self).kv().len(),
    ;

    /// Whether `key` holds a value.
    fn contains_key(&self, key: &K) -> (r: bool)
        requires
            self.inv(),
        ensures
            r == self.kv().dom().contains(*key),
    ;

    /// Whether the map holds no entry.
    fn is_empty(&self) -> (r: bool)
        requires
            self.inv(),
        ensures
            r == (self.kv().len() == 0),
            r == (self.kv() == Map::<K, V>::empty()),
    ;

    /// The number of entries.
    fn size(&self) -> (r: usize)
        requires
            self.inv(),
        ensures
            r == self.kv().len(),
    ;

    /// Takes every entry out.
    fn clear(&mut self)
        requires
            old(self).inv(),
        ensures
            final(self).inv(),
            final(self).kv() == Map::<K, V>::empty(),
    ;
}

} // verus!
