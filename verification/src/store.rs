//! The log-structured engine: an index over a segmented, append-only log,
//! with size-tiered compaction.

use crate::codec::{
    decode_payload, encode_record, lemma_record_at_framed, payload_text, read_record, record_at,
    record_text, tombstone, writable, RecordView,
};
use crate::directory::{
    arranged, distinct_names, lemma_arranged_unique, sorted_segments, SegmentFile,
};
use crate::disk::{
    apply_ops, data_of, files_ascending, files_of, lemma_apply_ops_concat, lemma_apply_ops_push,
    lemma_find_file, lemma_find_no_file, name_before, ops_view, DiskOp, DiskOpView, FileView,
};
use crate::engine::KvsEngine;
use crate::error::KvsError;
use crate::log::{
    apply_record, build_index, compacting, entry_valid, index_valid, is_tombstone,
    lemma_compacting_done, lemma_compacting_step, lemma_entry_kept_extended, lemma_replay_appended,
    lemma_replay_prefix, lemma_replay_rotated, lemma_replay_valid, log_bounded, log_data, only_live,
    replay, replay_all, replay_segment, value_at, IndexView, Segment, SizeInfo,
};
use vstd::arithmetic::power::{lemma_pow_increases, pow};
use vstd::hash_map::StringHashMap;
use vstd::prelude::*;
use vstd::slice::{slice_subrange, slice_to_vec};
use vstd::string::StringExecFns;

verus! {

/// The size at which a segment of generation 0 is full.
pub const BASE_SEGMENT_SIZE: u64 = 1024;

/// The number of segments above which the log is compacted; each generation
/// raises the size at which a segment is full by this factor.
pub const COMPACTION_THRESHOLD: usize = 4;

/// The size at which a segment of generation `gen` is full: the base size
/// times the threshold to the power of `gen`, or the largest `u64` where that
/// product does not fit.
pub open spec fn cap_of(gen: u32) -> u64 {
    if BASE_SEGMENT_SIZE * pow(COMPACTION_THRESHOLD as int, gen as nat) <= u64::MAX {
        (BASE_SEGMENT_SIZE * pow(COMPACTION_THRESHOLD as int, gen as nat)) as u64
    } else {
        u64::MAX
    }
}

/// Computes the size at which a segment of generation `gen` is full.
pub fn segment_cap(gen: u32) -> (cap: u64)
    ensures
        cap == cap_of(gen),
{
    let mut cap: u64 = BASE_SEGMENT_SIZE;
    let mut g: u32 = 0;
    proof {
        reveal(pow);
    }
    while g < gen
        invariant
            g <= gen,
            cap == BASE_SEGMENT_SIZE * pow(COMPACTION_THRESHOLD as int, g as nat),
        decreases gen - g,
    {
        if cap > u64::MAX / 4 {
            proof {
                reveal(pow);
                lemma_pow_increases(COMPACTION_THRESHOLD as nat, (g + 1) as nat, gen as nat);
            }
            return u64::MAX;
        }
        proof {
            reveal(pow);
        }
        cap = cap * 4;
        g = g + 1;
    }
    cap
}

/// Whether the segments are named in strictly ascending order of generation
/// and number.
pub open spec fn ascending(segments: Seq<Segment>) -> bool {
    files_ascending(files_of(segments))
}

/// The directory after the active segment is sealed: an empty file, named
/// next after the last one, stands behind the others.
pub open spec fn files_after_rotation(files: Seq<FileView>) -> Seq<FileView> {
    files.push(
        FileView { gen: files.last().gen, seq: (files.last().seq + 1) as u32, data: Seq::empty() },
    )
}

/// The directory after `text` is appended to its last file.
pub open spec fn files_after_append(files: Seq<FileView>, text: Seq<u8>) -> Seq<FileView> {
    files.update(
        files.len() - 1,
        FileView { gen: files.last().gen, seq: files.last().seq, data: files.last().data + text },
    )
}

/// The operation that creates the file behind a sealed segment.
pub open spec fn rotation_op(files: Seq<FileView>) -> DiskOpView {
    DiskOpView::Create { gen: files.last().gen, seq: (files.last().seq + 1) as u32 }
}

/// The operation that appends `text` to the last file.
pub open spec fn append_op(files: Seq<FileView>, text: Seq<u8>) -> DiskOpView {
    DiskOpView::Append { gen: files.last().gen, seq: files.last().seq, bytes: text }
}

/// The operations of a compaction, in their order: the segment of the next
/// generation is created and written, and only then are the files that were
/// there deleted, the oldest first.
pub open spec fn compaction_queue(files: Seq<FileView>, data: Seq<u8>) -> Seq<DiskOpView> {
    let gen = (files.last().gen + 1) as u32;
    seq![DiskOpView::Create { gen, seq: 0 }, DiskOpView::Append { gen, seq: 0, bytes: data }]
        + Seq::new(
        files.len(),
        |i: int| DiskOpView::Remove { gen: files[i].gen, seq: files[i].seq },
    )
}

/// Whether the segment files of a directory can be opened as a store: no two
/// of them are named alike, and in the order of their names they replay to an
/// index.
pub open spec fn openable(files: Seq<SegmentFile>) -> bool {
    &&& distinct_names(files)
    &&& forall|segments: Seq<FileView>| #[trigger]
        arranged(files, segments) ==> segments.len() == 0 || replay_all(data_of(segments)) is Some
}

/// The log-structured store.
pub struct KvStore {
    index: StringHashMap<SizeInfo>,
    sealed: Vec<Segment>,
    active: Segment,
    max_segment_size: u64,
    pending: Vec<DiskOp>,
    synced: Ghost<Seq<FileView>>,
}

impl KvStore {
    /// The segments of the log in order; the last one is the active segment.
    pub closed spec fn segments(&self) -> Seq<Segment> {
        self.sealed@.push(self.active)
    }

    /// The index that the store maintains.
    pub closed spec fn index_view(&self) -> IndexView {
        self.index@
    }

    /// The size at which the active segment counts as full.
    pub closed spec fn cap(&self) -> u64 {
        self.max_segment_size
    }

    /// The operations that wait to be carried out on the directory.
    pub closed spec fn queue(&self) -> Seq<DiskOpView> {
        ops_view(self.pending@)
    }

    /// The files of the directory, if every operation that was handed out has
    /// been carried out.
    pub closed spec fn mirror(&self) -> Seq<FileView> {
        self.synced@
    }

    /// The files that hold the log.
    pub open spec fn files(&self) -> Seq<FileView> {
        files_of(self.segments())
    }

    /// The bytes of the log.
    pub open spec fn log(&self) -> Seq<Seq<u8>> {
        log_data(self.segments())
    }

    /// The generation of the active segment.
    pub open spec fn generation(&self) -> u32 {
        self.segments().last().gen
    }

    /// The invariant of the store: the index is what replaying the log gives,
    /// the segments are in ascending order, and the cap is that of the current
    /// generation.
    pub open spec fn wf(&self) -> bool {
        &&& self.segments().len() >= 1
        &&& self.segments().len() <= usize::MAX
        &&& log_bounded(self.log())
        &&& ascending(self.segments())
        &&& replay_all(self.log()) == Some(self.index_view())
        &&& self.cap() == cap_of(self.generation())
        &&& apply_ops(self.mirror(), self.queue()) == self.files()
    }

    /// The number of segments in the log.
    pub fn segment_count(&self) -> (count: usize)
        requires
            self.wf(),
        ensures
            count == self.segments().len(),
    {
        self.sealed.len() + 1
    }

    /// The generation that the store writes to.
    pub fn current_generation(&self) -> (gen: u32)
        ensures
            gen == self.generation(),
    {
        self.active.gen
    }

    /// The size at which the active segment is full.
    pub fn max_segment_size(&self) -> (cap: u64)
        ensures
            cap == self.cap(),
    {
        self.max_segment_size
    }

    /// Where the latest record of a key lies, `None` where the index does not
    /// hold the key.
    pub fn locate(&self, key: &str) -> (out: Option<SizeInfo>)
        ensures
            match out {
                Some(entry) => self.index_view().contains_key(key@) && self.index_view()[key@]
                    == entry,
                None => !self.index_view().contains_key(key@),
            },
    {
        match self.index.get(key) {
            Some(entry) => Some(*entry),
            None => None,
        }
    }

    /// The bytes of the segment at position `i` of the log.
    fn segment_data(&self, i: usize) -> (data: &Vec<u8>)
        requires
            i < self.segments().len(),
        ensures
            data@ == self.log()[i as int],
    {
        if i < self.sealed.len() {
            &self.sealed[i].data
        } else {
            &self.active.data
        }
    }

    /// Opens a store over segments that are given in the order of the log.
    /// The index is built by replaying them; nothing waits to be written.
    pub fn from_segments(segments: Vec<Segment>) -> (out: Result<KvStore, KvsError>)
        ensures
            match out {
                Ok(store) => {
                    &&& store.wf()
                    &&& store.segments() == segments@
                    &&& store.mirror() == store.files()
                    &&& store.queue().len() == 0
                },
                Err(e) => e is Codec,
            },
            out is Ok <==> segments@.len() >= 1 && ascending(segments@) && replay_all(
                log_data(segments@),
            ) is Some,
    {
        let mut segments = segments;
        if segments.len() == 0 || !is_ascending(&segments) {
            return Err(KvsError::Codec);
        }
        let index = match build_index(&segments) {
            Ok(index) => index,
            Err(e) => {
                return Err(e);
            },
        };
        let ghost all = segments@;
        let active = match segments.pop() {
            Some(active) => active,
            None => {
                return Err(KvsError::Codec);
            },
        };
        let max_segment_size = segment_cap(active.gen);
        let store = KvStore {
            index,
            sealed: segments,
            active,
            max_segment_size,
            pending: Vec::new(),
            synced: Ghost(files_of(all)),
        };
        proof {
            assert(store.segments() =~= all);
            assert forall|i: int| 0 <= i < store.log().len() implies (#[trigger] store.log()[i]).len()
                <= usize::MAX by {
                assert(store.log()[i] == all[i].data@);
                assert(all[i].data.len() == all[i].data@.len());
            }
            assert(store.queue() =~= Seq::<DiskOpView>::empty());
        }
        Ok(store)
    }

    /// Opens a store over no files: the log is the empty first segment of
    /// generation 0, which waits to be created.
    pub fn empty() -> (store: KvStore)
        ensures
            store.wf(),
            store.contents() == Map::<Seq<char>, Seq<char>>::empty(),
            store.files() == seq![FileView { gen: 0, seq: 0, data: Seq::empty() }],
            store.mirror() == Seq::<FileView>::empty(),
            store.queue() == seq![DiskOpView::Create { gen: 0, seq: 0 }],
    {
        let mut pending: Vec<DiskOp> = Vec::new();
        pending.push(DiskOp::Create { gen: 0, seq: 0 });
        let store = KvStore {
            index: StringHashMap::new(),
            sealed: Vec::new(),
            active: Segment { gen: 0, seq: 0, data: Vec::new() },
            max_segment_size: segment_cap(0),
            pending,
            synced: Ghost(Seq::empty()),
        };
        proof {
            let first = FileView { gen: 0, seq: 0, data: Seq::<u8>::empty() };
            assert(store.files() =~= seq![first]);
            assert(store.log() =~= seq![Seq::<u8>::empty()]);
            assert(replay(store.log(), 0) == Some(Map::<Seq<char>, SizeInfo>::empty()));
            assert(store.queue() =~= seq![DiskOpView::Create { gen: 0, seq: 0 }]);
            lemma_find_no_file(Seq::empty(), 0, 0);
            lemma_apply_ops_push(Seq::empty(), Seq::empty(), DiskOpView::Create { gen: 0, seq: 0 });
            assert(Seq::<DiskOpView>::empty().push(DiskOpView::Create { gen: 0, seq: 0 })
                =~= store.queue());
            assert(Seq::<FileView>::empty().push(first) =~= store.files());
            assert(store.contents() =~= Map::<Seq<char>, Seq<char>>::empty());
        }
        store
    }

    /// Opens the store over the files of its directory.  The segment files
    /// among them are replayed in the order of their names; where there is
    /// none, the log starts with the empty first segment of generation 0.
    pub fn open(files: Vec<SegmentFile>) -> (out: Result<KvStore, KvsError>)
        ensures
            match out {
                Ok(store) => {
                    &&& store.wf()
                    &&& distinct_names(files@)
                    &&& arranged(files@, store.mirror())
                    &&& store.mirror().len() > 0 ==> store.files() == store.mirror()
                        && store.queue().len() == 0
                    &&& store.mirror().len() == 0 ==> store.files() == seq![
                        FileView { gen: 0, seq: 0, data: Seq::empty() },
                    ] && store.queue() == seq![DiskOpView::Create { gen: 0, seq: 0 }]
                },
                Err(e) => e is Codec,
            },
            out is Ok <==> openable(files@),
    {
        let segments = match sorted_segments(files) {
            Ok(segments) => segments,
            Err(e) => {
                return Err(e);
            },
        };
        let ghost found = files_of(segments@);
        proof {
            assert forall|other: Seq<FileView>| #[trigger] arranged(files@, other) implies other
                == found by {
                lemma_arranged_unique(files@, other, found);
            }
        }
        if segments.len() == 0 {
            assert(found =~= Seq::<FileView>::empty());
            return Ok(KvStore::empty());
        }
        assert(data_of(found) =~= log_data(segments@));
        match KvStore::from_segments(segments) {
            Ok(store) => Ok(store),
            Err(e) => Err(e),
        }
    }

    /// Hands out the operations that bring the directory up to date with the
    /// log, in the order in which they are to be carried out.
    pub fn take_effects(&mut self) -> (ops: Vec<DiskOp>)
        requires
            old(self).wf(),
        ensures
            final(self).wf(),
            ops_view(ops@) == old(self).queue(),
            apply_ops(old(self).mirror(), ops_view(ops@)) == old(self).files(),
            final(self).mirror() == final(self).files(),
            final(self).queue().len() == 0,
            final(self).segments() == old(self).segments(),
            final(self).index_view() == old(self).index_view(),
            final(self).cap() == old(self).cap(),
    {
        let mut ops: Vec<DiskOp> = Vec::new();
        std::mem::swap(&mut self.pending, &mut ops);
        self.synced = Ghost(files_of(self.segments()));
        proof {
            assert(self.queue() =~= Seq::<DiskOpView>::empty());
        }
        ops
    }

    /// Rewrites the live records into the single segment of the next
    /// generation and makes it the log.  The old segments wait to be deleted.
    fn compact(&mut self)
        requires
            old(self).wf(),
            old(self).generation() < u32::MAX,
        ensures
            final(self).wf(),
            final(self).contents() == old(self).contents(),
            final(self).segments().len() == 1,
            final(self).generation() == old(self).generation() + 1,
            final(self).segments().last().seq == 0,
            only_live(final(self).log()[0], 0, 0, final(self).index_view()),
            final(self).mirror() == old(self).mirror(),
            final(self).queue() == old(self).queue() + compaction_queue(
                old(self).files(),
                final(self).log()[0],
            ),
    {
        let count = self.sealed.len() + 1;
        let ghost log = self.log();
        let ghost live = self.index@;
        let mut data: Vec<u8> = Vec::new();
        let mut index: StringHashMap<SizeInfo> = StringHashMap::new();
        let ghost mut seen: IndexView = Map::empty();
        proof {
            lemma_replay_valid(log, log.len() as int);
        }
        let mut s: usize = 0;
        while s < count
            invariant
                self.wf(),
                *self == *old(self),
                log == self.log(),
                live == self.index@,
                count == log.len(),
                s <= count,
                index_valid(log, live),
                replay(log, s as int) == Some(seen),
                compacting(log, live, data@, index@),
                forall|key: Seq<char>| #[trigger]
                    seen.contains_key(key) && live.contains_key(key) ==> index@.contains_key(key),
            decreases count - s,
        {
            let source = self.segment_data(s);
            let ghost before = seen;
            proof {
                lemma_replay_prefix(log, s + 1);
            }
            let mut pos: usize = 0;
            while pos < source.len()
                invariant
                    self.wf(),
                    *self == *old(self),
                    log == self.log(),
                    live == self.index@,
                    count == log.len(),
                    s < count,
                    source@ == log[s as int],
                    pos <= source.len(),
                    index_valid(log, live),
                    replay(log, s as int) == Some(before),
                    replay_segment(source@, s as int, 0, before) is Some,
                    replay_segment(source@, s as int, 0, before) == replay_segment(
                        source@,
                        s as int,
                        pos as int,
                        seen,
                    ),
                    compacting(log, live, data@, index@),
                    forall|key: Seq<char>| #[trigger]
                        seen.contains_key(key) && live.contains_key(key) ==> index@.contains_key(
                            key,
                        ),
                decreases source.len() - pos,
            {
                match read_record(source.as_slice(), pos) {
                    Ok((key, value, size)) => {
                        let ghost record = RecordView {
                            key: key@,
                            value: value@,
                            size: size as nat,
                        };
                        if !index.contains_key(key.as_str()) {
                            let found = match self.index.get(key.as_str()) {
                                Some(info) => Some(*info),
                                None => None,
                            };
                            if let Some(info) = found {
                                assert(entry_valid(log, key@, info));
                                let origin = self.segment_data(info.segment_id);
                                let mut copy = slice_to_vec(
                                    slice_subrange(
                                        origin.as_slice(),
                                        info.start - 8,
                                        info.start + info.size,
                                    ),
                                );
                                let at = data.len();
                                let ghost shorter = data@;
                                data.append(&mut copy);
                                assert(data.len() == data@.len());
                                proof {
                                    lemma_compacting_step(log, live, shorter, index@, key@);
                                }
                                index.insert(key, SizeInfo { segment_id: 0, start: at + 8, size: info.size });
                            }
                        }
                        proof {
                            seen = apply_record(seen, s as int, pos as int, record);
                        }
                        pos = pos + 8 + size;
                    },
                    Err(_) => {
                        assert(false);
                        pos = source.len();
                    },
                }
            }
            s += 1;
        }
        proof {
            lemma_compacting_done(log, live, data@, index@);
        }
        let gen = self.active.gen + 1;
        let mut ops = self.compaction_ops(gen, &data);
        let ghost added = ops_view(ops@);
        self.pending.append(&mut ops);
        self.sealed = Vec::new();
        self.active = Segment { gen, seq: 0, data };
        self.index = index;
        self.max_segment_size = segment_cap(gen);
        proof {
            assert(self.segments() =~= seq![self.active]);
            assert(self.log() =~= seq![self.active.data@]);
            assert(self.contents() =~= old(self).contents());
            assert(self.files() =~= seq![FileView { gen, seq: 0, data: self.active.data@ }]);
            lemma_apply_ops_concat(old(self).mirror(), old(self).queue(), added);
            assert(self.queue() =~= old(self).queue() + added);
        }
    }

    /// The operations of a compaction: create the segment of the next
    /// generation, write it, and delete the segments that were there.
    fn compaction_ops(&self, gen: u32, data: &Vec<u8>) -> (ops: Vec<DiskOp>)
        requires
            self.wf(),
            gen == self.generation() + 1,
        ensures
            apply_ops(self.files(), ops_view(ops@)) == seq![FileView { gen, seq: 0, data: data@ }],
            ops_view(ops@) == compaction_queue(self.files(), data@),
    {
        let ghost files = self.files();
        let ghost empty = FileView { gen, seq: 0, data: Seq::<u8>::empty() };
        let ghost full = FileView { gen, seq: 0, data: data@ };
        let count = self.sealed.len() + 1;
        let mut ops: Vec<DiskOp> = Vec::new();
        ops.push(DiskOp::Create { gen, seq: 0 });
        proof {
            lemma_find_no_file(files, gen, 0);
            lemma_apply_ops_push(files, Seq::empty(), DiskOpView::Create { gen, seq: 0 });
            assert(ops_view(ops@) =~= Seq::<DiskOpView>::empty().push(
                DiskOpView::Create { gen, seq: 0 },
            ));
        }
        let ghost created = ops_view(ops@);
        ops.push(DiskOp::Append { gen, seq: 0, bytes: slice_to_vec(data.as_slice()) });
        proof {
            let grown = files.push(empty);
            lemma_find_file(grown, files.len() as int);
            lemma_apply_ops_push(files, created, DiskOpView::Append { gen, seq: 0, bytes: data@ });
            assert(ops_view(ops@) =~= created.push(
                DiskOpView::Append { gen, seq: 0, bytes: data@ },
            ));
            assert(Seq::<u8>::empty() + data@ =~= data@);
            assert(grown.update(files.len() as int, full) =~= files.push(full));
            lemma_ascending_last(files, empty, full);
            assert(ops_view(ops@) =~= compaction_queue(files, data@).take(2));
        }
        let mut i: usize = 0;
        while i < count
            invariant
                self.wf(),
                files == self.files(),
                count == files.len(),
                full == (FileView { gen, seq: 0, data: data@ }),
                i <= count,
                files_ascending(files.push(full)),
                apply_ops(files, ops_view(ops@)) == files.push(full).skip(i as int),
                ops_view(ops@) == compaction_queue(files, data@).take(i + 2),
                gen == files.last().gen + 1,
            decreases count - i,
        {
            let (old_gen, old_seq) = self.segment_name(i);
            let ghost before = ops_view(ops@);
            let ghost left = files.push(full).skip(i as int);
            ops.push(DiskOp::Remove { gen: old_gen, seq: old_seq });
            proof {
                let op = DiskOpView::Remove { gen: old_gen, seq: old_seq };
                lemma_apply_ops_push(files, before, op);
                assert(ops_view(ops@) =~= before.push(op));
                lemma_ascending_skip(files.push(full), i as int);
                assert(left[0] == files[i as int]);
                lemma_find_file(left, 0);
                assert(left.remove(0) =~= files.push(full).skip(i + 1));
                assert(ops_view(ops@) =~= compaction_queue(files, data@).take(i + 3));
            }
            i = i + 1;
        }
        proof {
            assert(files.push(full).skip(count as int) =~= seq![full]);
            assert(compaction_queue(files, data@).take(count + 2) =~= compaction_queue(files, data@));
        }
        ops
    }

    /// The generation and the number of the segment at position `i`.
    fn segment_name(&self, i: usize) -> (name: (u32, u32))
        requires
            i < self.segments().len(),
        ensures
            name.0 == self.files()[i as int].gen,
            name.1 == self.files()[i as int].seq,
    {
        if i < self.sealed.len() {
            (self.sealed[i].gen, self.sealed[i].seq)
        } else {
            (self.active.gen, self.active.seq)
        }
    }

    /// Seals the active segment and makes an empty one, named next after it,
    /// the active segment.
    fn rotate(&mut self)
        requires
            old(self).wf(),
            old(self).segments().last().seq < u32::MAX,
            old(self).segments().len() < usize::MAX,
        ensures
            final(self).wf(),
            final(self).contents() == old(self).contents(),
            final(self).segments().len() == old(self).segments().len() + 1,
            final(self).segments().last().data@.len() == 0,
            final(self).generation() == old(self).generation(),
            final(self).files() == files_after_rotation(old(self).files()),
            final(self).queue() == old(self).queue().push(rotation_op(old(self).files())),
            final(self).mirror() == old(self).mirror(),
    {
        let gen = self.active.gen;
        let seq = self.active.seq + 1;
        let mut next = Segment { gen, seq, data: Vec::new() };
        std::mem::swap(&mut self.active, &mut next);
        self.sealed.push(next);
        self.pending.push(DiskOp::Create { gen, seq });
        proof {
            let op = DiskOpView::Create { gen, seq };
            lemma_replay_valid(old(self).log(), old(self).log().len() as int);
            lemma_replay_rotated(old(self).log());
            assert(self.log() =~= old(self).log().push(Seq::empty()));
            assert(self.files() =~= old(self).files().push(
                FileView { gen, seq, data: Seq::empty() },
            ));
            lemma_find_no_file(old(self).files(), gen, seq);
            lemma_apply_ops_push(old(self).mirror(), old(self).queue(), op);
            assert(self.queue() =~= old(self).queue().push(op));
            assert(self.contents() =~= old(self).contents());
        }
    }

    /// Appends a record to the active segment and brings the index up to
    /// date: a tombstone removes the key, any other value sets it.
    fn append(&mut self, key: String, value: String, record: Vec<u8>)
        requires
            old(self).wf(),
            writable(key@, value@),
            record@ == record_text(key@, value@),
        ensures
            final(self).wf(),
            final(self).contents() == if value@ == tombstone() {
                old(self).contents().remove(key@)
            } else {
                old(self).contents().insert(key@, value@)
            },
            final(self).segments().len() == old(self).segments().len(),
            final(self).generation() == old(self).generation(),
            final(self).files() == files_after_append(old(self).files(), record@),
            final(self).queue() == old(self).queue().push(append_op(old(self).files(), record@)),
            final(self).mirror() == old(self).mirror(),
    {
        let ghost payload = payload_text(key@, value@)->0;
        let ghost log = self.log();
        let ghost contents = self.contents();
        let ghost index = self.index@;
        let ghost files = self.files();
        proof {
            lemma_replay_valid(log, log.len() as int);
        }
        let mut record = record;
        let pos = self.active.data.len();
        let size = record.len() - 8;
        let segment = self.sealed.len();
        let op = DiskOp::Append {
            gen: self.active.gen,
            seq: self.active.seq,
            bytes: slice_to_vec(record.as_slice()),
        };
        self.active.data.append(&mut record);
        assert(self.active.data.len() == self.active.data@.len());
        self.pending.push(op);
        if is_tombstone(&value) {
            self.index.remove(key.as_str());
        } else {
            self.index.insert(key, SizeInfo { segment_id: segment, start: pos + 8, size });
        }
        proof {
            let text = record_text(key@, value@);
            lemma_replay_appended(log, payload, key@, value@);
            assert(self.log() =~= log.update(log.len() - 1, log.last() + text));
            let last = files.len() - 1;
            assert(self.files() =~= files.update(
                last,
                FileView { gen: files[last].gen, seq: files[last].seq, data: files[last].data + text },
            ));
            lemma_ascending_renamed(files, self.files());
            lemma_find_file(files, last);
            lemma_apply_ops_push(old(self).mirror(), old(self).queue(), op@);
            assert(self.queue() =~= old(self).queue().push(op@));
            assert(self.wf());
            assert forall|k: Seq<char>| #[trigger] index.contains_key(k) implies value_at(
                self.log(),
                index[k],
            ) == value_at(log, index[k]) by {
                lemma_entry_kept_extended(log, text, k, index[k]);
            }
            if value@ == tombstone() {
                assert(self.contents() =~= contents.remove(key@));
            } else {
                lemma_record_at_framed(log.last(), payload, Seq::empty(), key@, value@);
                assert(log.last() + text + Seq::<u8>::empty() =~= self.log().last());
                assert(value_at(self.log(), self.index@[key@]) == value@);
                assert(self.contents() =~= contents.insert(key@, value@));
            }
        }
    }

    /// Writes the record for `key` and `value`.  A full active segment is
    /// sealed first, and a log of more segments than the threshold is
    /// compacted afterwards.
    fn write(&mut self, key: String, value: String) -> (out: Result<(), KvsError>)
        requires
            old(self).wf(),
        ensures
            final(self).wf(),
            final(self).mirror() == old(self).mirror(),
            match out {
                Ok(()) => {
                    &&& old(self).accepts(key@, value@)
                    &&& final(self).contents() == if value@ == tombstone() {
                        old(self).contents().remove(key@)
                    } else {
                        old(self).contents().insert(key@, value@)
                    }
                    &&& final(self).segments().len() <= COMPACTION_THRESHOLD
                    &&& old(self).written(*final(self), key@, value@)
                },
                Err(e) => {
                    &&& *final(self) == *old(self)
                    &&& !old(self).accepts(key@, value@)
                    &&& e is Codec <==> !writable(key@, value@)
                    &&& e is Codec || e is Exhausted
                },
            },
    {
        let record = match encode_record(&key, &value) {
            Ok(record) => record,
            Err(e) => {
                return Err(e);
            },
        };
        let rotate = self.active.data.len() as u64 >= self.max_segment_size;
        let compact = if rotate {
            self.sealed.len() + 1 >= COMPACTION_THRESHOLD
        } else {
            self.sealed.len() + 1 > COMPACTION_THRESHOLD
        };
        if (rotate && (self.active.seq == u32::MAX || self.sealed.len() + 1 == usize::MAX)) || (compact
            && self.active.gen == u32::MAX) {
            return Err(KvsError::Exhausted);
        }
        let ghost k = key@;
        let ghost v = value@;
        if rotate {
            self.rotate();
        }
        self.append(key, value, record);
        if compact {
            self.compact();
        }
        proof {
            assert(self.queue() =~= old(self).queue() + old(self).write_queue(*self, k, v));
        }
        Ok(())
    }

    /// Whether the log can take the record for `key` and `value`: the record
    /// can be written and read back, and the counters can advance where the
    /// write seals the active segment or compacts the log.
    pub open spec fn accepts(&self, key: Seq<char>, value: Seq<char>) -> bool {
        &&& writable(key, value)
        &&& self.rotates() ==> self.segments().last().seq < u32::MAX && self.segments().len()
            < usize::MAX
        &&& self.compacts() ==> self.generation() < u32::MAX
    }

    /// How a write that succeeded has changed the log.  Where it has not
    /// compacted the log, the files are the old ones with the record behind
    /// them.  Where it has, the log is the first segment of the next
    /// generation, and that segment holds the live records and no others.
    pub open spec fn written(&self, after: KvStore, key: Seq<char>, value: Seq<char>) -> bool {
        &&& after.queue() == self.queue() + self.write_queue(after, key, value)
        &&& if self.compacts() {
            &&& after.files().len() == 1
            &&& after.generation() == self.generation() + 1
            &&& after.files().last().seq == 0
            &&& only_live(after.log()[0], 0, 0, after.index_view())
        } else {
            after.files() == self.files_after_write(key, value)
        }
    }

    /// The operations that a write puts in the queue, in their order: the
    /// new file where the write seals the active segment, the record, and the
    /// operations of the compaction where the write compacts the log into
    /// `after`.
    pub open spec fn write_queue(&self, after: KvStore, key: Seq<char>, value: Seq<char>) -> Seq<
        DiskOpView,
    > {
        let rotated = if self.rotates() {
            files_after_rotation(self.files())
        } else {
            self.files()
        };
        (if self.rotates() {
            seq![rotation_op(self.files())]
        } else {
            Seq::empty()
        }) + seq![append_op(rotated, record_text(key, value))] + (if self.compacts() {
            compaction_queue(self.files_after_write(key, value), after.log()[0])
        } else {
            Seq::empty()
        })
    }

    /// The files of the log after a write that does not compact it: the
    /// record stands behind the last file, which is a new one where the write
    /// seals the active segment.
    pub open spec fn files_after_write(&self, key: Seq<char>, value: Seq<char>) -> Seq<FileView> {
        files_after_append(
            if self.rotates() {
                files_after_rotation(self.files())
            } else {
                self.files()
            },
            record_text(key, value),
        )
    }

    /// Whether the next write seals the active segment: it has reached the cap.
    pub open spec fn rotates(&self) -> bool {
        self.segments().last().data@.len() >= self.cap()
    }

    /// Whether the next write compacts the log: with the segment that it may
    /// add there are more segments than the threshold.
    pub open spec fn compacts(&self) -> bool {
        self.segments().len() + (if self.rotates() {
            1int
        } else {
            0int
        }) > COMPACTION_THRESHOLD
    }

}

impl KvsEngine for KvStore {
    open spec fn contents(&self) -> Map<Seq<char>, Seq<char>> {
        Map::new(
            |key: Seq<char>| self.index_view().contains_key(key),
            |key: Seq<char>| value_at(self.log(), self.index_view()[key]),
        )
    }

    open spec fn valid(&self) -> bool {
        self.wf()
    }

    /// Gets the value of a key: the value of the record that the index points
    /// at, or `None` where the index does not hold the key.
    fn get(&self, key: String) -> (out: Result<Option<String>, KvsError>)
        ensures
            out is Ok,
    {
        proof {
            lemma_replay_valid(self.log(), self.log().len() as int);
        }
        match self.index.get(key.as_str()) {
            Some(info) => {
                assert(entry_valid(self.log(), key@, *info));
                let data = self.segment_data(info.segment_id);
                let ghost record = record_at(data@, info.start - 8)->0;
                assert(data@.len() <= usize::MAX);
                match decode_payload(
                    slice_subrange(data.as_slice(), info.start, info.start + info.size),
                ) {
                    Ok((_, value)) => {
                        if is_tombstone(&value) {
                            Ok(None)
                        } else {
                            Ok(Some(value))
                        }
                    },
                    Err(e) => Err(e),
                }
            },
            None => Ok(None),
        }
    }

    /// Sets the value of a key.  The empty key and the tombstone sentinel as a
    /// value are refused.
    fn set(&mut self, key: String, value: String) -> (out: Result<(), KvsError>)
        ensures
            final(self).mirror() == old(self).mirror(),
            match out {
                Ok(()) => {
                    &&& key@.len() > 0
                    &&& value@ != tombstone()
                    &&& old(self).accepts(key@, value@)
                    &&& final(self).contents() == old(self).contents().insert(key@, value@)
                    &&& final(self).segments().len() <= COMPACTION_THRESHOLD
                    &&& old(self).written(*final(self), key@, value@)
                },
                Err(e) => {
                    &&& *final(self) == *old(self)
                    &&& e is InvalidKey <==> key@.len() == 0
                    &&& e is ReservedValue <==> key@.len() > 0 && value@ == tombstone()
                    &&& e is Codec <==> key@.len() > 0 && value@ != tombstone() && !writable(
                        key@,
                        value@,
                    )
                    &&& e is Exhausted <==> key@.len() > 0 && value@ != tombstone() && writable(
                        key@,
                        value@,
                    ) && !old(self).accepts(key@, value@)
                    &&& e is InvalidKey || e is ReservedValue || e is Codec || e is Exhausted
                },
            },
    {
        if key.as_str().is_empty() {
            return Err(KvsError::InvalidKey);
        }
        if is_tombstone(&value) {
            return Err(KvsError::ReservedValue);
        }
        self.write(key, value)
    }

    /// Removes a key: fails where the index does not hold it, and appends a
    /// tombstone for it otherwise.
    fn remove(&mut self, key: String) -> (out: Result<(), KvsError>)
        ensures
            final(self).mirror() == old(self).mirror(),
            match out {
                Ok(()) => {
                    &&& old(self).contents().contains_key(key@)
                    &&& old(self).accepts(key@, tombstone())
                    &&& final(self).contents() == old(self).contents().remove(key@)
                    &&& final(self).segments().len() <= COMPACTION_THRESHOLD
                    &&& old(self).written(*final(self), key@, tombstone())
                },
                Err(e) => {
                    &&& *final(self) == *old(self)
                    &&& e is KeyNotFound <==> !old(self).contents().contains_key(key@)
                    &&& e is Codec <==> old(self).contents().contains_key(key@) && !writable(
                        key@,
                        tombstone(),
                    )
                    &&& e is Exhausted <==> old(self).contents().contains_key(key@) && writable(
                        key@,
                        tombstone(),
                    ) && !old(self).accepts(key@, tombstone())
                    &&& e is KeyNotFound || e is Codec || e is Exhausted
                },
            },
    {
        if !self.index.contains_key(key.as_str()) {
            return Err(KvsError::KeyNotFound);
        }
        self.write(key, String::from_str("rm"))
    }
}

/// Whether the segments are named in strictly ascending order.
fn is_ascending(segments: &Vec<Segment>) -> (out: bool)
    ensures
        out == ascending(segments@),
{
    let ghost files = files_of(segments@);
    let mut i: usize = 1;
    while i < segments.len()
        invariant
            1 <= i,
            files == files_of(segments@),
            forall|a: int, b: int|
                0 <= a < b < i && b < files.len() ==> name_before(
                    #[trigger] files[a],
                    #[trigger] files[b],
                ),
        decreases segments.len() - i,
    {
        let before = &segments[i - 1];
        let after = &segments[i];
        if !(before.gen < after.gen || (before.gen == after.gen && before.seq < after.seq)) {
            assert(!name_before(files[i - 1], files[i as int]));
            return false;
        }
        proof {
            assert forall|a: int, b: int| 0 <= a < b < i + 1 && b < files.len() implies name_before(
                #[trigger] files[a],
                #[trigger] files[b],
            ) by {
                if b == i {
                    assert(name_before(files[i - 1], files[i as int]));
                    if a < i - 1 {
                        assert(name_before(files[a], files[i - 1]));
                    }
                }
            }
        }
        i += 1;
    }
    true
}

/// Files with the same names stand in ascending order alike.
pub proof fn lemma_ascending_renamed(a: Seq<FileView>, b: Seq<FileView>)
    requires
        files_ascending(a),
        a.len() == b.len(),
        forall|i: int| 0 <= i < a.len() ==> (#[trigger] a[i]).gen == b[i].gen && a[i].seq == b[i].seq,
    ensures
        files_ascending(b),
{
    assert forall|i: int, j: int| 0 <= i < j < b.len() implies name_before(
        #[trigger] b[i],
        #[trigger] b[j],
    ) by {
        assert(name_before(a[i], a[j]));
    }
}

/// The order stays ascending where the last file is replaced by one of the
/// same name.
pub proof fn lemma_ascending_last(files: Seq<FileView>, last: FileView, other: FileView)
    requires
        files_ascending(files.push(last)),
        last.gen == other.gen,
        last.seq == other.seq,
    ensures
        files_ascending(files.push(other)),
{
    let a = files.push(last);
    let b = files.push(other);
    assert forall|i: int| 0 <= i < a.len() implies (#[trigger] a[i]).gen == b[i].gen && a[i].seq
        == b[i].seq by {}
    lemma_ascending_renamed(a, b);
}

/// What is left of an ascending directory behind its first files is
/// ascending.
pub proof fn lemma_ascending_skip(files: Seq<FileView>, n: int)
    requires
        files_ascending(files),
        0 <= n <= files.len(),
    ensures
        files_ascending(files.skip(n)),
{
    let rest = files.skip(n);
    assert forall|i: int, j: int| 0 <= i < j < rest.len() implies name_before(
        #[trigger] rest[i],
        #[trigger] rest[j],
    ) by {
        assert(name_before(files[i + n], files[j + n]));
    }
}

} // verus!
