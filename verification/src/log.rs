//! The segmented log and the index that replaying it gives.

use crate::codec::{
    framed, lemma_record_at_copied, lemma_record_at_extended, lemma_record_at_framed,
    payload_fields, read_record, record_at, tombstone, RecordView,
};
use crate::error::KvsError;
use vstd::hash_map::StringHashMap;
use vstd::prelude::*;
use vstd::string::StringExecFns;

verus! {

/// Where the latest record of a key lies: the segment, the first byte behind
/// the length prefix, and the length of the payload.
#[derive(Clone, Copy, Debug, PartialEq, Eq)]
pub struct SizeInfo {
    /// The position of the segment in the log.
    pub segment_id: usize,
    /// The offset of the payload in the segment.
    pub start: usize,
    /// The length of the payload.
    pub size: usize,
}

/// One segment of the log: a file of records, named by its generation and its
/// number within the generation.
#[derive(Debug)]
pub struct Segment {
    /// The generation that the segment belongs to.
    pub gen: u32,
    /// The number of the segment within its generation.
    pub seq: u32,
    /// The records of the segment, one behind the other.
    pub data: Vec<u8>,
}

/// The index as a map from keys to coordinates.
pub type IndexView = Map<Seq<char>, SizeInfo>;

/// The bytes of the segments, in the order of the log.
pub open spec fn log_data(segments: Seq<Segment>) -> Seq<Seq<u8>> {
    Seq::new(segments.len(), |i: int| segments[i].data@)
}

/// Whether every segment is short enough for offsets of type `usize`.
pub open spec fn log_bounded(log: Seq<Seq<u8>>) -> bool {
    forall|i: int| 0 <= i < log.len() ==> (#[trigger] log[i]).len() <= usize::MAX
}

/// The index after the record at `pos` in segment `segment`: a tombstone
/// removes its key, any other record makes its key point at itself.
pub open spec fn apply_record(index: IndexView, segment: int, pos: int, record: RecordView)
    -> IndexView {
    if record.value == tombstone() {
        index.remove(record.key)
    } else {
        index.insert(
            record.key,
            SizeInfo {
                segment_id: segment as usize,
                start: (pos + 8) as usize,
                size: record.size as usize,
            },
        )
    }
}

/// The index after the records of one segment from `pos` on; `None` where the
/// bytes from `pos` on are not a sequence of records.
pub open spec fn replay_segment(data: Seq<u8>, segment: int, pos: int, index: IndexView) -> Option<
    IndexView,
>
    decreases data.len() - pos,
{
    if pos < 0 || pos > data.len() {
        None
    } else if pos == data.len() {
        Some(index)
    } else {
        match record_at(data, pos) {
            Some(record) => replay_segment(
                data,
                segment,
                pos + 8 + record.size,
                apply_record(index, segment, pos, record),
            ),
            None => None,
        }
    }
}

/// The index after the first `count` segments of the log, replayed in order
/// from an empty index; `None` where one of them is malformed.
pub open spec fn replay(log: Seq<Seq<u8>>, count: int) -> Option<IndexView>
    decreases count,
{
    if count <= 0 {
        Some(Map::empty())
    } else {
        match replay(log, count - 1) {
            Some(index) => replay_segment(log[count - 1], count - 1, 0, index),
            None => None,
        }
    }
}

/// The index of the whole log.
pub open spec fn replay_all(log: Seq<Seq<u8>>) -> Option<IndexView> {
    replay(log, log.len() as int)
}

/// Whether the entry of `key` points at a live record of that key.
pub open spec fn entry_valid(log: Seq<Seq<u8>>, key: Seq<char>, entry: SizeInfo) -> bool {
    &&& entry.segment_id < log.len()
    &&& entry.start >= 8
    &&& record_at(log[entry.segment_id as int], entry.start - 8) matches Some(record)
    &&& record.key == key
    &&& record.value != tombstone()
    &&& record.size == entry.size
}

/// Whether every entry of the index points at a live record of its key.
pub open spec fn index_valid(log: Seq<Seq<u8>>, index: IndexView) -> bool {
    forall|key: Seq<char>| #[trigger] index.contains_key(key) ==> entry_valid(log, key, index[key])
}

/// The value that the log holds for a key of the index.
pub open spec fn value_at(log: Seq<Seq<u8>>, entry: SizeInfo) -> Seq<char> {
    record_at(log[entry.segment_id as int], entry.start - 8)->0.value
}

/// A malformed segment makes every longer prefix of the log malformed.
pub proof fn lemma_replay_none(log: Seq<Seq<u8>>, bad: int, count: int)
    requires
        replay(log, bad) is None,
        bad <= count,
    ensures
        replay(log, count) is None,
    decreases count - bad,
{
    if bad < count {
        lemma_replay_none(log, bad, count - 1);
    }
}

/// Replaying one segment keeps the entries valid.
pub proof fn lemma_replay_segment_valid(
    log: Seq<Seq<u8>>,
    segment: int,
    pos: int,
    index: IndexView,
)
    requires
        log_bounded(log),
        0 <= segment < log.len(),
        segment <= usize::MAX,
        index_valid(log, index),
        replay_segment(log[segment], segment, pos, index) is Some,
    ensures
        index_valid(log, replay_segment(log[segment], segment, pos, index)->0),
    decreases log[segment].len() - pos,
{
    let data = log[segment];
    if pos < data.len() {
        let record = record_at(data, pos)->0;
        let next = apply_record(index, segment, pos, record);
        assert forall|key: Seq<char>| #[trigger] next.contains_key(key) implies entry_valid(
            log,
            key,
            next[key],
        ) by {
            if key != record.key {
                assert(index.contains_key(key));
            }
        }
        lemma_replay_segment_valid(log, segment, pos + 8 + record.size, next);
    }
}

/// Every entry of a replayed index points at a live record of its key.
pub proof fn lemma_replay_valid(log: Seq<Seq<u8>>, count: int)
    requires
        log_bounded(log),
        count <= log.len(),
        log.len() <= usize::MAX,
        replay(log, count) is Some,
    ensures
        index_valid(log, replay(log, count)->0),
    decreases count,
{
    if count > 0 {
        lemma_replay_valid(log, count - 1);
        lemma_replay_segment_valid(log, count - 1, 0, replay(log, count - 1)->0);
    }
}

/// Bytes added behind a segment are replayed after the records that were
/// there.
pub proof fn lemma_replay_segment_extended(
    data: Seq<u8>,
    tail: Seq<u8>,
    segment: int,
    pos: int,
    index: IndexView,
)
    requires
        replay_segment(data, segment, pos, index) is Some,
    ensures
        replay_segment(data + tail, segment, pos, index) == replay_segment(
            data + tail,
            segment,
            data.len() as int,
            replay_segment(data, segment, pos, index)->0,
        ),
    decreases data.len() - pos,
{
    if pos < data.len() {
        let record = record_at(data, pos)->0;
        lemma_record_at_extended(data, tail, pos);
        lemma_replay_segment_extended(
            data,
            tail,
            segment,
            pos + 8 + record.size,
            apply_record(index, segment, pos, record),
        );
    }
}

/// The first `count` segments are replayed alike in two logs that agree on
/// them.
pub proof fn lemma_replay_agrees(a: Seq<Seq<u8>>, b: Seq<Seq<u8>>, count: int)
    requires
        count <= a.len(),
        count <= b.len(),
        forall|i: int| 0 <= i < count ==> a[i] == b[i],
    ensures
        replay(a, count) == replay(b, count),
    decreases count,
{
    if count > 0 {
        lemma_replay_agrees(a, b, count - 1);
    }
}

/// A record appended to the last segment is replayed last: the index of the
/// longer log is the index of the log with that record applied.
pub proof fn lemma_replay_appended(
    log: Seq<Seq<u8>>,
    payload: Seq<u8>,
    key: Seq<char>,
    value: Seq<char>,
)
    requires
        log.len() >= 1,
        replay_all(log) is Some,
        payload.len() + 8 <= usize::MAX,
        payload_fields(payload) == Some((key, value)),
    ensures
        replay_all(log.update(log.len() - 1, log.last() + framed(payload))) == Some(
            apply_record(
                replay_all(log)->0,
                log.len() - 1,
                log.last().len() as int,
                RecordView { key, value, size: payload.len() },
            ),
        ),
{
    let last = log.len() - 1;
    let data = log.last();
    let longer = data + framed(payload);
    let after = log.update(last, longer);
    let record = RecordView { key, value, size: payload.len() };
    lemma_replay_agrees(log, after, last);
    let before = replay(log, last)->0;
    let index = replay_all(log)->0;
    lemma_replay_segment_extended(data, framed(payload), last, 0, before);
    lemma_record_at_framed(data, payload, Seq::empty(), key, value);
    assert(data + framed(payload) + Seq::<u8>::empty() =~= longer);
    assert(record_at(longer, data.len() as int) == Some(record));
    assert(longer.len() == data.len() + 8 + payload.len());
    let next = apply_record(index, last, data.len() as int, record);
    assert(replay_segment(longer, last, longer.len() as int, next) == Some(next));
    assert(replay_segment(longer, last, data.len() as int, index) == Some(next));
}

/// An entry that is valid stays valid, with the same value, when bytes are
/// added behind the last segment.
pub proof fn lemma_entry_kept_extended(
    log: Seq<Seq<u8>>,
    tail: Seq<u8>,
    key: Seq<char>,
    entry: SizeInfo,
)
    requires
        log.len() >= 1,
        entry_valid(log, key, entry),
    ensures
        entry_valid(log.update(log.len() - 1, log.last() + tail), key, entry),
        value_at(log.update(log.len() - 1, log.last() + tail), entry) == value_at(log, entry),
{
    if entry.segment_id == log.len() - 1 {
        lemma_record_at_extended(log.last(), tail, entry.start - 8);
    }
}

/// An empty segment behind the log changes neither the index nor an entry.
pub proof fn lemma_replay_rotated(log: Seq<Seq<u8>>)
    ensures
        replay_all(log.push(Seq::empty())) == replay_all(log),
{
    let longer = log.push(Seq::<u8>::empty());
    lemma_replay_agrees(log, longer, log.len() as int);
    assert(longer[log.len() as int].len() == 0);
}

/// Whether a segment holds, from `pos` on, nothing but live records: each
/// record is the one that the index points at for its key.
pub open spec fn only_live(data: Seq<u8>, segment: int, pos: int, index: IndexView) -> bool
    decreases data.len() - pos,
{
    if pos < 0 || pos > data.len() {
        false
    } else if pos == data.len() {
        true
    } else {
        match record_at(data, pos) {
            Some(record) => {
                &&& index.contains_key(record.key)
                &&& index[record.key] == SizeInfo {
                    segment_id: segment as usize,
                    start: (pos + 8) as usize,
                    size: record.size as usize,
                }
                &&& only_live(data, segment, pos + 8 + record.size, index)
            },
            None => false,
        }
    }
}

/// A segment of live records stays one when the live record of a further key
/// is put behind it.
pub proof fn lemma_only_live_extended(
    data: Seq<u8>,
    tail: Seq<u8>,
    pos: int,
    index: IndexView,
    record: RecordView,
)
    requires
        only_live(data, 0, pos, index),
        !index.contains_key(record.key),
        data.len() + tail.len() <= usize::MAX,
        tail.len() == 8 + record.size,
        record_at(data + tail, data.len() as int) == Some(record),
    ensures
        only_live(
            data + tail,
            0,
            pos,
            index.insert(
                record.key,
                SizeInfo {
                    segment_id: 0,
                    start: (data.len() + 8) as usize,
                    size: record.size as usize,
                },
            ),
        ),
    decreases data.len() - pos,
{
    let longer = data + tail;
    let next = index.insert(
        record.key,
        SizeInfo { segment_id: 0, start: (data.len() + 8) as usize, size: record.size as usize },
    );
    if pos < data.len() {
        let here = record_at(data, pos)->0;
        lemma_record_at_extended(data, tail, pos);
        lemma_only_live_extended(data, tail, pos + 8 + here.size, index, record);
    } else {
        assert(only_live(longer, 0, longer.len() as int, next));
    }
}

/// Whether the entry `to` of a compacted segment points at a copy of the
/// record that the entry `from` points at in the log.
pub open spec fn moved(log: Seq<Seq<u8>>, from: SizeInfo, data: Seq<u8>, to: SizeInfo) -> bool {
    &&& to.segment_id == 0
    &&& to.start >= 8
    &&& to.size == from.size
    &&& record_at(data, to.start - 8) == record_at(log[from.segment_id as int], from.start - 8)
}

/// Whether `data` with `index` is a compaction, as far as it has come, of the
/// log with the index `live`: replaying `data` gives `index`, and every entry
/// of `index` points at a copy of the live record of its key.
pub open spec fn compacting(log: Seq<Seq<u8>>, live: IndexView, data: Seq<u8>, index: IndexView)
    -> bool {
    &&& data.len() <= usize::MAX
    &&& replay_segment(data, 0, 0, Map::empty()) == Some(index)
    &&& only_live(data, 0, 0, index)
    &&& forall|key: Seq<char>| #[trigger]
        index.contains_key(key) ==> live.contains_key(key) && moved(
            log,
            live[key],
            data,
            index[key],
        )
}

/// Copying the live record of one more key keeps a compaction a compaction.
pub proof fn lemma_compacting_step(
    log: Seq<Seq<u8>>,
    live: IndexView,
    data: Seq<u8>,
    index: IndexView,
    key: Seq<char>,
)
    requires
        index_valid(log, live),
        compacting(log, live, data, index),
        live.contains_key(key),
        !index.contains_key(key),
        data.len() + 8 + live[key].size <= usize::MAX,
    ensures
        compacting(
            log,
            live,
            data + log[live[key].segment_id as int].subrange(
                live[key].start - 8,
                live[key].start + live[key].size,
            ),
            index.insert(
                key,
                SizeInfo {
                    segment_id: 0,
                    start: (data.len() + 8) as usize,
                    size: live[key].size,
                },
            ),
        ),
{
    let from = live[key];
    let source = log[from.segment_id as int];
    let copy = source.subrange(from.start - 8, from.start + from.size);
    let longer = data + copy;
    let to = SizeInfo { segment_id: 0, start: (data.len() + 8) as usize, size: from.size };
    let next = index.insert(key, to);
    assert(entry_valid(log, key, from));
    let record = record_at(source, from.start - 8)->0;
    lemma_record_at_copied(source, from.start - 8, data);
    lemma_replay_segment_extended(data, copy, 0, 0, Map::empty());
    assert(record_at(longer, data.len() as int) == Some(record));
    assert(longer.len() == data.len() + 8 + record.size);
    assert(apply_record(index, 0, data.len() as int, record) == next);
    assert(replay_segment(longer, 0, longer.len() as int, next) == Some(next));
    assert(replay_segment(longer, 0, data.len() as int, index) == Some(next));
    lemma_only_live_extended(data, copy, 0, index, record);
    assert forall|k: Seq<char>| #[trigger] next.contains_key(k) implies live.contains_key(k)
        && moved(log, live[k], longer, next[k]) by {
        if k != key {
            assert(index.contains_key(k));
            assert(entry_valid(log, k, live[k]));
            lemma_record_at_extended(data, copy, index[k].start - 8);
        }
    }
}

/// A finished compaction holds what the log held: its single segment replays
/// to its index, and each key has the value that it had.
pub proof fn lemma_compacting_done(
    log: Seq<Seq<u8>>,
    live: IndexView,
    data: Seq<u8>,
    index: IndexView,
)
    requires
        index_valid(log, live),
        compacting(log, live, data, index),
        forall|key: Seq<char>| #[trigger] live.contains_key(key) ==> index.contains_key(key),
    ensures
        replay_all(seq![data]) == Some(index),
        only_live(data, 0, 0, index),
        index.dom() =~= live.dom(),
        forall|key: Seq<char>| #[trigger]
            index.contains_key(key) ==> value_at(seq![data], index[key]) == value_at(
                log,
                live[key],
            ),
{
    let single = seq![data];
    assert(replay(single, 0) == Some(Map::<Seq<char>, SizeInfo>::empty()));
    assert(single[0] == data);
    assert(replay(single, 1) == replay_segment(data, 0, 0, Map::empty()));
    assert forall|key: Seq<char>| #[trigger] index.contains_key(key) implies value_at(
        single,
        index[key],
    ) == value_at(log, live[key]) by {
        assert(moved(log, live[key], data, index[key]));
    }
}

/// Replaying a well-formed log never stops early: every prefix of it has an
/// index.
pub proof fn lemma_replay_prefix(log: Seq<Seq<u8>>, count: int)
    requires
        replay_all(log) is Some,
        count <= log.len(),
    ensures
        replay(log, count) is Some,
{
    if replay(log, count) is None {
        lemma_replay_none(log, count, log.len() as int);
    }
}

/// Whether a value is the tombstone sentinel.
pub fn is_tombstone(value: &String) -> (out: bool)
    ensures
        out == (value@ == tombstone()),
{
    let sentinel = String::from_str("rm");
    *value == sentinel
}

/// Builds the index by replaying all segments in order.
pub fn build_index(segments: &Vec<Segment>) -> (out: Result<StringHashMap<SizeInfo>, KvsError>)
    ensures
        match out {
            Ok(index) => replay_all(log_data(segments@)) == Some(index@),
            Err(e) => e is Codec && replay_all(log_data(segments@)) is None,
        },
{
    let ghost log = log_data(segments@);
    let mut index: StringHashMap<SizeInfo> = StringHashMap::new();
    let mut s: usize = 0;
    while s < segments.len()
        invariant
            s <= segments.len(),
            log == log_data(segments@),
            replay(log, s as int) == Some(index@),
        decreases segments.len() - s,
    {
        let data = &segments[s].data;
        let ghost before = index@;
        let mut pos: usize = 0;
        while pos < data.len()
            invariant
                s < segments.len(),
                log == log_data(segments@),
                data@ == log[s as int],
                pos <= data.len(),
                replay(log, s as int) == Some(before),
                replay_segment(data@, s as int, 0, before) == replay_segment(
                    data@,
                    s as int,
                    pos as int,
                    index@,
                ),
            decreases data.len() - pos,
        {
            match read_record(data.as_slice(), pos) {
                Ok((key, value, size)) => {
                    if is_tombstone(&value) {
                        index.remove(key.as_str());
                    } else {
                        index.insert(key, SizeInfo { segment_id: s, start: pos + 8, size });
                    }
                    pos = pos + 8 + size;
                },
                Err(e) => {
                    proof {
                        lemma_replay_none(log, s + 1, segments.len() as int);
                    }
                    return Err(e);
                },
            }
        }
        s += 1;
    }
    Ok(index)
}

} // verus!
