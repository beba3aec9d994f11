//! What holds of the engines over any sequence of operations.

use crate::directory::{arranged, lemma_arranged_unique, SegmentFile};
use crate::disk::{apply_ops, data_of};
use crate::engine::{after_write, key_of, lookup, KvsEngine, Write};
use crate::log::replay_all;
use crate::store::KvStore;
use vstd::prelude::*;

verus! {

/// What an engine holds after a sequence of writes that have succeeded.
pub open spec fn after_writes(contents: Map<Seq<char>, Seq<char>>, writes: Seq<Write>) -> Map<
    Seq<char>,
    Seq<char>,
>
    decreases writes.len(),
{
    if writes.len() == 0 {
        contents
    } else {
        after_write(after_writes(contents, writes.drop_last()), writes.last())
    }
}

/// Read your write: after a key is set to a value, `get` gives that value
/// until the key is set or removed again, whatever is done to other keys.
pub proof fn law_read_your_write(
    contents: Map<Seq<char>, Seq<char>>,
    key: Seq<char>,
    value: Seq<char>,
    later: Seq<Write>,
)
    requires
        forall|i: int| 0 <= i < later.len() ==> key_of(#[trigger] later[i]) != key,
    ensures
        lookup(after_writes(after_write(contents, Write::Put { key, value }), later), key) == Some(
            value,
        ),
    decreases later.len(),
{
    if later.len() > 0 {
        law_read_your_write(contents, key, value, later.drop_last());
        assert(key_of(later.last()) != key);
    }
}

/// A tombstone is seen: after a key is removed, `get` gives `None` for it
/// until the key is set again, whatever is done to other keys.
pub proof fn law_removed_until_set(
    contents: Map<Seq<char>, Seq<char>>,
    key: Seq<char>,
    later: Seq<Write>,
)
    requires
        forall|i: int|
            0 <= i < later.len() ==> !(#[trigger] later[i] is Put && key_of(later[i]) == key),
    ensures
        lookup(after_writes(after_write(contents, Write::Remove { key }), later), key) is None,
    decreases later.len(),
{
    if later.len() > 0 {
        law_removed_until_set(contents, key, later.drop_last());
        assert(!(later.last() is Put && key_of(later.last()) == key));
    }
}

/// A write leaves the other keys alone: `get` gives for them what it gave.
pub proof fn law_other_keys_kept(
    contents: Map<Seq<char>, Seq<char>>,
    write: Write,
    other: Seq<char>,
)
    requires
        key_of(write) != other,
    ensures
        lookup(after_write(contents, write), other) == lookup(contents, other),
{
}

/// No value comes from nowhere: what `get` gives for a key after a sequence
/// of writes is what the engine held for the key before them, or the value of
/// a `set` of the key among them.
pub proof fn law_read_was_written(
    contents: Map<Seq<char>, Seq<char>>,
    writes: Seq<Write>,
    key: Seq<char>,
    value: Seq<char>,
)
    requires
        lookup(after_writes(contents, writes), key) == Some(value),
    ensures
        lookup(contents, key) == Some(value) || exists|i: int|
            0 <= i < writes.len() && #[trigger] writes[i] == (Write::Put { key, value }),
    decreases writes.len(),
{
    if writes.len() > 0 {
        let before = writes.drop_last();
        if writes.last() == (Write::Put { key, value }) {
            assert(writes[writes.len() - 1] == (Write::Put { key, value }));
        } else {
            assert(lookup(after_writes(contents, before), key) == Some(value));
            law_read_was_written(contents, before, key, value);
            if lookup(contents, key) != Some(value) {
                let i = choose|i: int|
                    0 <= i < before.len() && #[trigger] before[i] == (Write::Put { key, value });
                assert(writes[i] == before[i]);
            }
        }
    }
}

/// The index is what replaying the log gives: a store that has carried out
/// any sequence of operations holds the index that is built from its
/// segments.
pub proof fn law_index_is_replayed(store: KvStore)
    requires
        store.wf(),
    ensures
        replay_all(data_of(store.files())) == Some(store.index_view()),
{
    assert(data_of(store.files()) =~= store.log());
}

/// Two stores over the same files hold the same: what a store answers
/// depends on its log alone.
pub proof fn law_same_log_same_contents(a: KvStore, b: KvStore)
    requires
        a.wf(),
        b.wf(),
        a.files() == b.files(),
    ensures
        a.index_view() == b.index_view(),
        a.contents() == b.contents(),
{
    assert(data_of(a.files()) =~= a.log());
    assert(data_of(b.files()) =~= b.log());
    assert(a.contents() =~= b.contents());
}

/// Durability: a store that is opened over the directory to which the log of
/// another was written in full holds what that one held.  `directory` holds
/// the files of `store`, and `reopened` is what `open` gives for it.
pub proof fn law_reopened_store(store: KvStore, directory: Seq<SegmentFile>, reopened: KvStore)
    requires
        store.wf(),
        reopened.wf(),
        arranged(directory, store.files()),
        arranged(directory, reopened.mirror()),
        reopened.files() == reopened.mirror(),
    ensures
        reopened.index_view() == store.index_view(),
        reopened.contents() == store.contents(),
{
    lemma_arranged_unique(directory, store.files(), reopened.files());
    law_same_log_same_contents(store, reopened);
}

/// The operations that a store hands out bring the directory to the files of
/// its log, whatever number of writes they stem from.
pub proof fn law_directory_follows(store: KvStore)
    requires
        store.wf(),
    ensures
        apply_ops(store.mirror(), store.queue()) == store.files(),
{
}

} // verus!
