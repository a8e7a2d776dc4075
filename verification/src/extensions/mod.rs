//! The extension map: shared values, kept by the key of their type and
//! handed to the handlers that ask for them.

pub mod data;
pub mod type_key;

pub use self::data::Data;
pub use self::type_key::TypeKey;
use std::collections::HashMap;
use vstd::prelude::*;
use vstd::std_specs::hash::group_hash_axioms;

verus! {

/// The extension map. A value is kept by the identifier of its key, and
/// handed out as a shared handle.
pub struct Extensions<V> {
    map: HashMap<u64, Data<V>>,
}

impl<V> View for Extensions<V> {
    type V = Map<u64, V>;

    closed spec fn view(&self) -> Map<u64, V> {
        self.map@.map_values(|d: Data<V>| d@)
    }
}

impl<V> Extensions<V> {
    /// The empty map.
    pub fn new() -> (map: Self)
        ensures
            map@ == Map::<u64, V>::empty(),
    {
        let map = Extensions { map: HashMap::new() };
        assert(map@ =~= Map::<u64, V>::empty());
        map
    }

    /// Keeps `data` under `key`. What was kept under the key before is
    /// replaced.
    pub fn insert(&mut self, key: TypeKey, data: V)
        ensures
            final(self)@ == old(self)@.insert(key.0, data),
    {
        broadcast use group_hash_axioms;

        self.map.insert(key.id(), Data::new(data));
        assert(self@ =~= old(self)@.insert(key.0, data));
    }

    /// Whether a value is kept under `key`.
    pub fn contains(&self, key: &TypeKey) -> (held: bool)
        ensures
            held == self@.contains_key(key.0),
    {
        broadcast use group_hash_axioms;

        let id = key.id();
        self.map.contains_key(&id)
    }

    /// A handle to the value kept under `key`, where there is one.
    pub fn get(&self, key: &TypeKey) -> (found: Option<Data<V>>)
        ensures
            found is Some <==> self@.contains_key(key.0),
            found matches Some(data) ==> data@ == self@[key.0],
    {
        broadcast use group_hash_axioms;

        let id = key.id();
        match self.map.get(&id) {
            Some(data) => Some(data.clone()),
            None => None,
        }
    }

    /// A handle to the value kept under `key`.
    pub fn get_data(&self, key: &TypeKey) -> (data: Data<V>)
        requires
            self@.contains_key(key.0),
        ensures
            data@ == self@[key.0],
    {
        self.get(key).unwrap()
    }
}

/// Of two values kept under one key the later replaces the earlier: the
/// map is as if the earlier had never been kept.
pub proof fn lemma_insert_replaces<V>(map: Map<u64, V>, id: u64, first: V, second: V)
    ensures
        map.insert(id, first).insert(id, second) == map.insert(id, second),
        map.insert(id, first).insert(id, second)[id] == second,
{
    assert(map.insert(id, first).insert(id, second) =~= map.insert(id, second));
}

/// What is kept under a key is found under it, and keeping it disturbs no
/// other key.
pub proof fn lemma_lookup_finds_inserted<V>(map: Map<u64, V>, id: u64, value: V, other: u64)
    ensures
        map.insert(id, value).contains_key(id),
        map.insert(id, value)[id] == value,
        other != id ==> map.insert(id, value).contains_key(other) == map.contains_key(other),
        other != id && map.contains_key(other) ==> map.insert(id, value)[other] == map[other],
{
}

} // verus!
