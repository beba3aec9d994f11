//! An engine that keeps its data in memory, in a skip list.

use crate::engine::KvsEngine;
use crate::error::KvsError;
use crossbeam_skiplist::SkipMap;
use vstd::prelude::*;

verus! {

/// The ordered map of `crossbeam_skiplist`.
#[verifier::external_type_specification]
#[verifier::external_body]
#[verifier::reject_recursive_types(K)]
#[verifier::reject_recursive_types(V)]
pub struct ExSkipMap<K, V>(SkipMap<K, V>);

/// What a skip list of strings holds: its keys with their values.  The
/// engine owns its skip list and shares it with no other thread, so the list
/// holds what the calls below have left in it.
pub uninterp spec fn skip_map_contents(map: SkipMap<String, String>) -> Map<Seq<char>, Seq<char>>;

/// Calls `SkipMap::new`.  Trusted: the new map holds no key.
#[verifier::external_body]
fn skip_map_new() -> (out: SkipMap<String, String>)
    ensures
        skip_map_contents(out).dom() == Set::<Seq<char>>::empty(),
{
    SkipMap::new()
}

/// Calls `SkipMap::get` and copies the value of the entry.  Trusted: the
/// entry is there where the map holds the key, and its value is the one that
/// the map holds for it.
#[verifier::external_body]
fn skip_map_get(map: &SkipMap<String, String>, key: &String) -> (out: Option<String>)
    ensures
        match out {
            Some(value) => skip_map_contents(*map).contains_key(key@) && skip_map_contents(
                *map,
            )[key@] == value@,
            None => !skip_map_contents(*map).contains_key(key@),
        },
{
    map.get(key).map(|entry| entry.value().clone())
}

/// Calls `SkipMap::insert`.  Trusted: afterwards the map holds the value for
/// the key, in place of one that it held, and nothing else has changed.
#[verifier::external_body]
fn skip_map_insert(map: &mut SkipMap<String, String>, key: String, value: String)
    ensures
        skip_map_contents(*final(map)) == skip_map_contents(*old(map)).insert(key@, value@),
{
    map.insert(key, value);
}

/// Calls `SkipMap::remove`.  Trusted: it tells whether the map held the key;
/// afterwards the map does not hold it, and nothing else has changed.
#[verifier::external_body]
fn skip_map_remove(map: &mut SkipMap<String, String>, key: &String) -> (found: bool)
    ensures
        found == skip_map_contents(*old(map)).contains_key(key@),
        skip_map_contents(*final(map)) == skip_map_contents(*old(map)).remove(key@),
{
    map.remove(key).is_some()
}

/// The in-memory engine.
pub struct InMemEngine {
    store: SkipMap<String, String>,
}

impl InMemEngine {
    /// Opens an engine that holds nothing.
    pub fn open() -> (engine: InMemEngine)
        ensures
            engine.valid(),
            engine.contents() == Map::<Seq<char>, Seq<char>>::empty(),
    {
        let engine = InMemEngine { store: skip_map_new() };
        assert(engine.contents() =~= Map::<Seq<char>, Seq<char>>::empty());
        engine
    }
}

impl KvsEngine for InMemEngine {
    closed spec fn contents(&self) -> Map<Seq<char>, Seq<char>> {
        skip_map_contents(self.store)
    }

    open spec fn valid(&self) -> bool {
        true
    }

    /// Gets the value of a key.
    fn get(&self, key: String) -> (out: Result<Option<String>, KvsError>)
        ensures
            out is Ok,
    {
        Ok(skip_map_get(&self.store, &key))
    }

    /// Sets the value of a key.
    fn set(&mut self, key: String, value: String) -> (out: Result<(), KvsError>)
        ensures
            out is Ok,
    {
        skip_map_insert(&mut self.store, key, value);
        Ok(())
    }

    /// Removes a key.
    fn remove(&mut self, key: String) -> (out: Result<(), KvsError>)
        ensures
            out is Ok <==> old(self).contents().contains_key(key@),
    {
        if skip_map_remove(&mut self.store, &key) {
            Ok(())
        } else {
            assert(self.contents() =~= old(self).contents());
            Err(KvsError::KeyNotFound)
        }
    }
}

} // verus!
