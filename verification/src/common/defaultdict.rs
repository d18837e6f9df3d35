//! A hash map that makes up a value for a key it does not hold.

use rustc_hash::FxBuildHasher;
use std::collections::HashMap;
use std::hash::{BuildHasher, Hash};
use vstd::prelude::*;
use vstd::std_specs::hash::{builds_valid_hashers, obeys_key_model};

verus! {

/// A hash map together with a function that makes the value of a key that
/// the map does not hold yet.
#[verifier::reject_recursive_types(K)]
#[verifier::reject_recursive_types(V)]
#[verifier::reject_recursive_types(S)]
#[verifier::reject_recursive_types(F)]
pub struct DefaultHashMap<K, V, S, F> where K: Eq + Hash, F: Fn() -> V {
    map: HashMap<K, V, S>,
    default: F,
}

/// A `DefaultHashMap` with the hasher of rustc_hash.
pub type DefaultFxHashMap<K, V, F> = DefaultHashMap<K, V, FxBuildHasher, F>;

impl<K, V, S, F> View for DefaultHashMap<K, V, S, F> where K: Eq + Hash, F: Fn() -> V {
    type V = Map<K, V>;

    /// What the map holds.
    closed spec fn view(&self) -> Map<K, V> {
        self.map@
    }
}

impl<K, V, S, F> DefaultHashMap<K, V, S, F> where
    S: Default + BuildHasher,
    K: Eq + Hash,
    F: Fn() -> V,
 {
    /// The function that makes values.
    pub closed spec fn maker(self) -> F {
        self.default
    }

    /// The map without keys, with `default` to make values.
    pub fn new(default: F) -> (m: Self)
        ensures
            m@ == Map::<K, V>::empty(),
            m.maker() == default,
    {
        Self { map: HashMap::default(), default }
    }

    /// Whether the map holds `key`.
    pub fn has(&self, key: &K) -> (b: bool)
        ensures
            obeys_key_model::<K>() && builds_valid_hashers::<S>() ==> b == self@.contains_key(*key),
    {
        broadcast use vstd::std_specs::hash::axiom_contains_deref_key;

        self.map.contains_key(key)
    }

    /// Gives `key` a made-up value unless the map holds it.
    pub fn zeroed(&mut self, key: K)
        requires
            old(self).maker().requires(()),
        ensures
            final(self).maker() == old(self).maker(),
            obeys_key_model::<K>() && builds_valid_hashers::<S>() ==> {
                if old(self)@.contains_key(key) {
                    final(self)@ == old(self)@
                } else {
                    final(self)@.dom() == old(self)@.dom().insert(key) && old(self).maker().ensures(
                        (),
                        final(self)@[key],
                    ) && forall|k: K| old(self)@.contains_key(k) ==> final(self)@[k] == old(self)@[k]
                }
            },
    {
        broadcast use vstd::std_specs::hash::axiom_contains_deref_key;

        if !self.map.contains_key(&key) {
            let value = (self.default)();
            let ghost before = self.map@;
            self.map.insert(key, value);
            proof {
                if obeys_key_model::<K>() && builds_valid_hashers::<S>() {
                    assert(self.map@.dom() =~= before.dom().insert(key));
                }
            }
        }
    }

    /// The value of `key`, to read and to change, after the map has given the
    /// key a made-up value if it did not hold the key.
    pub fn get_mut_or_default(&mut self, key: K) -> (v: &mut V)
        requires
            old(self).maker().requires(()),
        ensures
            final(self).maker() == old(self).maker(),
            obeys_key_model::<K>() && builds_valid_hashers::<S>() ==> {
                &&& final(self)@ == old(self)@.insert(key, *final(v))
                &&& old(self)@.contains_key(key) ==> *v == old(self)@[key]
                &&& !old(self)@.contains_key(key) ==> old(self).maker().ensures((), *v)
            },
    {
        let value = (self.default)();
        self.map.entry(key).or_insert(value)
    }

    /// The value of `key`.
    pub fn get(&self, key: &K) -> (v: &V)
        requires
            obeys_key_model::<K>(),
            builds_valid_hashers::<S>(),
            self@.contains_key(*key),
        ensures
            *v == self@[*key],
    {
        broadcast use vstd::std_specs::hash::axiom_contains_deref_key;
        broadcast use vstd::std_specs::hash::axiom_maps_deref_key_to_value;

        self.map.get(key).unwrap()
    }

    /// The map inside.
    pub fn inner(&self) -> (m: &HashMap<K, V, S>)
        ensures
            m@ == self@,
    {
        &self.map
    }

    /// The map inside, by value.
    pub fn into_inner(self) -> (m: HashMap<K, V, S>)
        ensures
            m@ == self@,
    {
        self.map
    }

    /// Stores `value` under `key` and returns what the map held there.
    pub fn insert(&mut self, key: K, value: V) -> (before: Option<V>)
        ensures
            final(self).maker() == old(self).maker(),
            obeys_key_model::<K>() && builds_valid_hashers::<S>() ==> {
                &&& final(self)@ == old(self)@.insert(key, value)
                &&& match before {
                    Some(v) => old(self)@.contains_key(key) && v == old(self)@[key],
                    None => !old(self)@.contains_key(key),
                }
            },
    {
        self.map.insert(key, value)
    }
}

} // verus!
