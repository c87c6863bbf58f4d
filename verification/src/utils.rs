//! Maps that gather several values under one key.

use vstd::prelude::*;

use std::collections::hash_map;
use std::collections::{HashMap, HashSet};
use std::hash::Hash;
use vstd::std_specs::hash::obeys_key_model;
use vstd::std_specs::iter::IteratorSpec;

verus! {

/// A map from keys to sets of values.
#[derive(Clone, Debug, Default)]
pub struct MapToSet<K, V>(HashMap<K, HashSet<V>>);

impl<K: Eq + Hash, V: Eq + Hash> MapToSet<K, V> {
    /// The set under each key that has one.
    pub closed spec fn sets(&self) -> Map<K, Set<V>> {
        self.0@.map_values(|s: HashSet<V>| s@)
    }

    /// A map without keys.
    pub fn new() -> (map: Self)
        ensures
            map.sets() =~= Map::empty(),
    {
        MapToSet(HashMap::new())
    }

    /// Adds `v` to the set under `k`, which is empty where `k` is new.
    pub fn append(&mut self, k: K, v: V)
        requires
            obeys_key_model::<K>(),
            obeys_key_model::<V>(),
        ensures
            final(self).sets() == old(self).sets().insert(
                k,
                if old(self).sets().contains_key(k) {
                    old(self).sets()[k].insert(v)
                } else {
                    set![v]
                },
            ),
    {
        let mut set = match self.0.remove(&k) {
            Some(set) => set,
            None => HashSet::new(),
        };
        set.insert(v);
        self.0.insert(k, set);
        assert(self.sets() =~= old(self).sets().insert(
            k,
            if old(self).sets().contains_key(k) {
                old(self).sets()[k].insert(v)
            } else {
                set![v]
            },
        ));
    }

    /// The set under `k`, if there is one.
    pub fn get(&self, k: &K) -> (set: Option<&HashSet<V>>)
        requires
            obeys_key_model::<K>(),
        ensures
            match set {
                Some(s) => self.sets().contains_key(*k) && s@ == self.sets()[*k],
                None => !self.sets().contains_key(*k),
            },
    {
        self.0.get(k)
    }
}

/// A map from keys to lists of values, each list in the order in which its
/// values came in.
#[derive(Clone, Debug)]
pub struct MapToVec<K, V>(HashMap<K, Vec<V>>);

impl<K: Eq + Hash, V> MapToVec<K, V> {
    /// The list under each key that has one.
    pub closed spec fn lists(&self) -> Map<K, Seq<V>> {
        self.0@.map_values(|list: Vec<V>| list@)
    }

    /// A map without keys.
    pub fn new() -> (map: Self)
        ensures
            map.lists() =~= Map::empty(),
    {
        MapToVec(HashMap::new())
    }

    /// Appends `v` to the list under `k`, which is empty where `k` is new.
    pub fn append(&mut self, k: K, v: V)
        requires
            obeys_key_model::<K>(),
        ensures
            final(self).lists() == old(self).lists().insert(
                k,
                if old(self).lists().contains_key(k) {
                    old(self).lists()[k].push(v)
                } else {
                    seq![v]
                },
            ),
    {
        let mut list = match self.0.remove(&k) {
            Some(list) => list,
            None => Vec::new(),
        };
        list.push(v);
        self.0.insert(k, list);
        assert(self.lists() =~= old(self).lists().insert(
            k,
            if old(self).lists().contains_key(k) {
                old(self).lists()[k].push(v)
            } else {
                seq![v]
            },
        ));
    }

    /// The list under `k`, if there is one.
    pub fn get(&self, k: &K) -> (list: Option<&Vec<V>>)
        requires
            obeys_key_model::<K>(),
        ensures
            match list {
                Some(l) => self.lists().contains_key(*k) && l@ == self.lists()[*k],
                None => !self.lists().contains_key(*k),
            },
    {
        self.0.get(k)
    }

    /// `entries` are the keys of the map with their lists, each key once.
    pub open spec fn lists_entries(&self, entries: Seq<(&K, &Vec<V>)>) -> bool {
        &&& entries.no_duplicates()
        &&& entries.len() == self.lists().dom().len()
        &&& forall|i: int|
            0 <= i < entries.len() ==> self.lists().contains_key(*(#[trigger] entries[i]).0) && self.lists()[*entries[i].0]
                == (*entries[i].1)@
        &&& forall|k: K| #[trigger]
            self.lists().contains_key(k) ==> exists|i: int|
                0 <= i < entries.len() && *(#[trigger] entries[i]).0 == k
    }

    /// An iterator over the keys with their lists: it hands out every key of
    /// the map once, with its list, in no particular order.
    pub fn iter(&self) -> (entries: hash_map::Iter<'_, K, Vec<V>>)
        ensures
            obeys_key_model::<K>() ==> self.lists_entries(entries.remaining()),
    {
        let entries = self.0.iter();
        proof {
            if obeys_key_model::<K>() {
                let m = self.0@;
                let v = entries.remaining();
                assert forall|i: int| 0 <= i < v.len() implies self.lists().contains_key(*(#[trigger] v[i]).0)
                    && self.lists()[*v[i].0] == (*v[i].1)@ by {
                    assert(m.contains_key(*v[i].0));
                    assert(m[*v[i].0] == *v[i].1);
                }
                assert forall|k: K| #[trigger] self.lists().contains_key(k) implies exists|i: int|
                    0 <= i < v.len() && *(#[trigger] v[i]).0 == k by {
                    assert(m.contains_key(k));
                    assert(v.contains((&k, &m[k])));
                    let i = choose|i: int| 0 <= i < v.len() && v[i] == (&k, &m[k]);
                    assert(*v[i].0 == k);
                }
                assert(self.lists().dom() =~= m.dom());
            }
        }
        entries
    }
}

impl<K: Eq + Hash, V> Default for MapToVec<K, V> {
    /// A map without keys.
    fn default() -> (map: Self)
        ensures
            map.lists() =~= Map::empty(),
    {
        MapToVec::new()
    }
}

} // verus!
