//! The interface of a storage engine.

use crate::common::text_of;
use crate::error::KvsError;
use vstd::prelude::*;
use vstd::utf8::{decode_utf8, valid_utf8};

verus! {

/// A write that an engine carries out.
pub enum Write {
    /// A `set` of the key to the value.
    Put { key: Seq<char>, value: Seq<char> },
    /// A `remove` of the key.
    Remove { key: Seq<char> },
}

/// The key that a write is about.
pub open spec fn key_of(write: Write) -> Seq<char> {
    match write {
        Write::Put { key, .. } => key,
        Write::Remove { key } => key,
    }
}

/// What an engine holds after a write that has succeeded.
pub open spec fn after_write(contents: Map<Seq<char>, Seq<char>>, write: Write) -> Map<
    Seq<char>,
    Seq<char>,
> {
    match write {
        Write::Put { key, value } => contents.insert(key, value),
        Write::Remove { key } => contents.remove(key),
    }
}

/// What `get` gives for a key: its value, or `None` where the engine does not
/// hold the key.
pub open spec fn lookup(contents: Map<Seq<char>, Seq<char>>, key: Seq<char>) -> Option<Seq<char>> {
    if contents.contains_key(key) {
        Some(contents[key])
    } else {
        None
    }
}

/// A value that was found, as a sequence of characters.
pub open spec fn found_view(found: Option<String>) -> Option<Seq<char>> {
    match found {
        Some(value) => Some(value@),
        None => None,
    }
}

/// A key/value storage engine: a map from keys to values that is read and
/// changed one key at a time.
pub trait KvsEngine {
    /// What the engine holds.
    spec fn contents(&self) -> Map<Seq<char>, Seq<char>>;

    /// The invariant of the engine.
    spec fn valid(&self) -> bool;

    /// Sets the value of a key.  A value that the key had is overwritten.
    /// Where the engine refuses the write, it holds what it held.
    fn set(&mut self, key: String, value: String) -> (out: Result<(), KvsError>)
        requires
            old(self).valid(),
        ensures
            final(self).valid(),
            match out {
                Ok(()) => final(self).contents() == after_write(
                    old(self).contents(),
                    Write::Put { key: key@, value: value@ },
                ),
                Err(e) => final(self).contents() == old(self).contents() && !(e is KeyNotFound),
            },
    ;

    /// Gets the value of a key, `None` where the engine does not hold the key.
    fn get(&self, key: String) -> (out: Result<Option<String>, KvsError>)
        requires
            self.valid(),
        ensures
            match out {
                Ok(found) => found_view(found) == lookup(self.contents(), key@),
                Err(e) => !(e is KeyNotFound),
            },
    ;

    /// Removes a key.  Fails with [`KvsError::KeyNotFound`] where the engine
    /// does not hold the key, and only there.
    fn remove(&mut self, key: String) -> (out: Result<(), KvsError>)
        requires
            old(self).valid(),
        ensures
            final(self).valid(),
            match out {
                Ok(()) => old(self).contents().contains_key(key@) && final(self).contents()
                    == after_write(old(self).contents(), Write::Remove { key: key@ }),
                Err(e) => final(self).contents() == old(self).contents() && (e is KeyNotFound
                    <==> !old(self).contents().contains_key(key@)),
            },
    ;
}

/// What `get` gives for the bytes that an engine has stored under a key: the
/// bytes as text, `None` where it has stored none.  Bytes that are not UTF-8
/// are malformed.
pub fn stored_value(stored: Option<Vec<u8>>) -> (out: Result<Option<String>, KvsError>)
    ensures
        match stored {
            Some(bytes) => if valid_utf8(bytes@) {
                out matches Ok(Some(text)) && text@ == decode_utf8(bytes@)
            } else {
                out matches Err(e) && e is Codec
            },
            None => out matches Ok(None),
        },
{
    broadcast use vstd::utf8::encode_utf8_decode_utf8;

    match stored {
        Some(bytes) => match text_of(bytes) {
            Some(text) => Ok(Some(text)),
            None => Err(KvsError::Codec),
        },
        None => Ok(None),
    }
}

/// What `remove` gives once the engine has told whether it held the key.
pub fn removal(found: bool) -> (out: Result<(), KvsError>)
    ensures
        match out {
            Ok(()) => found,
            Err(e) => !found && e is KeyNotFound,
        },
{
    if found {
        Ok(())
    } else {
        Err(KvsError::KeyNotFound)
    }
}

} // verus!
