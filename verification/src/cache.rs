//! The memoization cache: from the fingerprint of a persistent task to the
//! id of the task.

use vstd::prelude::*;

verus! {

/// The concurrent hash map of `flurry`. Nothing is known of a map but what
/// the functions below tell of it.
#[verifier::external_type_specification]
#[verifier::external_body]
#[verifier::reject_recursive_types(K)]
#[verifier::reject_recursive_types(V)]
#[verifier::reject_recursive_types(S)]
pub struct ExConcurrentHashMap<K, V, S>(flurry::HashMap<K, V, S>);

/// The hasher that a `flurry` map uses unless it is given another. Nothing is
/// known of it.
#[verifier::external_type_specification]
#[verifier::external_body]
pub struct ExDefaultHashBuilder(flurry::DefaultHashBuilder);

/// The entries of a concurrent map from fingerprints to task ids.
pub uninterp spec fn cache_entries(map: flurry::HashMap<Vec<u64>, usize>) -> Map<Seq<u64>, usize>;

/// The map without entries.
pub open spec fn no_entries() -> Map<Seq<u64>, usize> {
    Map::empty()
}

/// What a lookup of `key` in `entries` finds.
pub open spec fn entry_at(entries: Map<Seq<u64>, usize>, key: Seq<u64>) -> Option<usize> {
    if entries.contains_key(key) {
        Some(entries[key])
    } else {
        None
    }
}

/// What an insertion of `id` under `key` answers, where it is made only if
/// `entries` has nothing under `key`: `Ok` with `id` where it is made, `Err`
/// with the id that stands in the way where it is not.
pub open spec fn insertion_outcome(entries: Map<Seq<u64>, usize>, key: Seq<u64>, id: usize) -> Result<
    usize,
    usize,
> {
    if entries.contains_key(key) {
        Err(entries[key])
    } else {
        Ok(id)
    }
}

/// The entries after such an insertion.
pub open spec fn insertion_entries(entries: Map<Seq<u64>, usize>, key: Seq<u64>, id: usize) -> Map<
    Seq<u64>,
    usize,
> {
    if entries.contains_key(key) {
        entries
    } else {
        entries.insert(key, id)
    }
}

/// `flurry::HashMap::new`: a map that holds no entry.
#[verifier::external_body]
fn map_new() -> (map: flurry::HashMap<Vec<u64>, usize>)
    ensures
        cache_entries(map) == no_entries(),
{
    flurry::HashMap::new()
}

/// `flurry::HashMapRef::get` on a pinned map: the id stored under `key`, or
/// `None` where the map has no entry for it.
#[verifier::external_body]
fn map_get(map: &flurry::HashMap<Vec<u64>, usize>, key: &Vec<u64>) -> (found: Option<usize>)
    ensures
        found == entry_at(cache_entries(*map), key@),
{
    map.pin().get(key).copied()
}

/// `flurry::HashMapRef::try_insert` on a pinned map. Where the map has no
/// entry for `key`, the entry is added and the result is `Ok` with the id
/// stored. Where it has one, the map stays as it is and the result is `Err`
/// with the id that the map holds.
#[verifier::external_body]
fn map_try_insert(map: &mut flurry::HashMap<Vec<u64>, usize>, key: Vec<u64>, id: usize) -> (outcome: Result<
    usize,
    usize,
>)
    ensures
        outcome == insertion_outcome(cache_entries(*old(map)), key@, id),
        cache_entries(*final(map)) == insertion_entries(cache_entries(*old(map)), key@, id),
{
    match map.pin().try_insert(key, id) {
        Ok(stored) => Ok(*stored),
        Err(refused) => Err(*refused.current),
    }
}

/// `flurry::HashMapRef::remove` on a pinned map: the entry for `key` goes, and
/// the result is the id that it held, if there was one.
#[verifier::external_body]
fn map_remove(map: &mut flurry::HashMap<Vec<u64>, usize>, key: &Vec<u64>) -> (removed: Option<usize>)
    ensures
        removed == entry_at(cache_entries(*old(map)), key@),
        cache_entries(*final(map)) == cache_entries(*old(map)).remove(key@),
{
    map.pin().remove(key).copied()
}

/// `flurry::HashMapRef::values` on a pinned map, collected: the id of every
/// entry, once per entry, in the order in which the map is walked.
#[verifier::external_body]
fn map_values(map: &flurry::HashMap<Vec<u64>, usize>) -> (ids: Vec<usize>)
    ensures
        ids@.to_set() == cache_entries(*map).values(),
        ids@.len() == cache_entries(*map).dom().len(),
{
    map.pin().values().copied().collect()
}

/// The memoization cache.
pub struct TaskCache {
    map: flurry::HashMap<Vec<u64>, usize>,
}

impl TaskCache {
    /// The task id stored under each fingerprint.
    pub closed spec fn view(&self) -> Map<Seq<u64>, usize> {
        cache_entries(self.map)
    }

    /// An empty cache.
    pub fn new() -> (cache: Self)
        ensures
            cache@ == Map::<Seq<u64>, usize>::empty(),
    {
        TaskCache { map: map_new() }
    }

    /// The id stored under the fingerprint `key`, if any.
    pub fn get(&self, key: &Vec<u64>) -> (found: Option<usize>)
        ensures
            found == entry_at(self@, key@),
    {
        map_get(&self.map, key)
    }

    /// Stores `id` under `key` unless an id is stored there already. `Ok`
    /// with `id` where it was stored; `Err` with the id that the cache holds
    /// where it was not, and the cache stays as it is.
    pub fn try_insert(&mut self, key: Vec<u64>, id: usize) -> (outcome: Result<usize, usize>)
        ensures
            outcome == insertion_outcome(old(self)@, key@, id),
            final(self)@ == insertion_entries(old(self)@, key@, id),
    {
        map_try_insert(&mut self.map, key, id)
    }

    /// Takes out the entry for `key`. The result is the id that it held.
    pub fn remove(&mut self, key: &Vec<u64>) -> (removed: Option<usize>)
        ensures
            removed == entry_at(old(self)@, key@),
            final(self)@ == old(self)@.remove(key@),
    {
        map_remove(&mut self.map, key)
    }

    /// The ids of all cached tasks, once per entry, in no particular order.
    pub fn values(&self) -> (ids: Vec<usize>)
        ensures
            ids@.to_set() == self@.values(),
            ids@.len() == self@.dom().len(),
    {
        map_values(&self.map)
    }
}

} // verus!
