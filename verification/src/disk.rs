//! The files of the log as the engine sees them, and the operations by which
//! a caller mirrors the log to a directory.

use crate::log::Segment;
use vstd::prelude::*;

verus! {

/// A segment file: its generation, its number, and its bytes.
pub struct FileView {
    /// The generation in the name of the file.
    pub gen: u32,
    /// The number of the segment in the name of the file.
    pub seq: u32,
    /// What the file holds.
    pub data: Seq<u8>,
}

/// One change to the directory of the log.
#[derive(Debug)]
pub enum DiskOp {
    /// Create the segment file of this name, empty.
    Create { gen: u32, seq: u32 },
    /// Append the bytes to the segment file of this name and make them
    /// durable.
    Append { gen: u32, seq: u32, bytes: Vec<u8> },
    /// Delete the segment file of this name.
    Remove { gen: u32, seq: u32 },
}

/// A change to the directory, with its bytes as a sequence.
pub enum DiskOpView {
    /// Create the segment file of this name, empty.
    Create { gen: u32, seq: u32 },
    /// Append the bytes to the segment file of this name.
    Append { gen: u32, seq: u32, bytes: Seq<u8> },
    /// Delete the segment file of this name.
    Remove { gen: u32, seq: u32 },
}

impl View for DiskOp {
    type V = DiskOpView;

    open spec fn view(&self) -> DiskOpView {
        match *self {
            DiskOp::Create { gen, seq } => DiskOpView::Create { gen, seq },
            DiskOp::Append { gen, seq, bytes } => DiskOpView::Append { gen, seq, bytes: bytes@ },
            DiskOp::Remove { gen, seq } => DiskOpView::Remove { gen, seq },
        }
    }
}

/// The operations of a queue, each by its view.
pub open spec fn ops_view(ops: Seq<DiskOp>) -> Seq<DiskOpView> {
    Seq::new(ops.len(), |i: int| ops[i]@)
}

/// The files that hold the segments.
pub open spec fn files_of(segments: Seq<Segment>) -> Seq<FileView> {
    Seq::new(
        segments.len(),
        |i: int| FileView { gen: segments[i].gen, seq: segments[i].seq, data: segments[i].data@ },
    )
}

/// The bytes of the files, in their order.
pub open spec fn data_of(files: Seq<FileView>) -> Seq<Seq<u8>> {
    Seq::new(files.len(), |i: int| files[i].data)
}

/// Whether the name of `a` sorts before the name of `b`: by generation, then
/// by number.
pub open spec fn name_before(a: FileView, b: FileView) -> bool {
    a.gen < b.gen || (a.gen == b.gen && a.seq < b.seq)
}

/// Whether the files stand in strictly ascending order of their names.
pub open spec fn files_ascending(files: Seq<FileView>) -> bool {
    forall|i: int, j: int|
        0 <= i < j < files.len() ==> name_before(#[trigger] files[i], #[trigger] files[j])
}

/// Whether the file at position `i` has this name.
pub open spec fn named(files: Seq<FileView>, i: int, gen: u32, seq: u32) -> bool {
    0 <= i < files.len() && files[i].gen == gen && files[i].seq == seq
}

/// The position of the file of this name, if there is one.
pub open spec fn find_file(files: Seq<FileView>, gen: u32, seq: u32) -> Option<int> {
    if exists|i: int| named(files, i, gen, seq) {
        Some(choose|i: int| named(files, i, gen, seq))
    } else {
        None
    }
}

/// The directory after one operation.  Creating a file that exists, and
/// appending to or deleting one that does not, changes nothing.
pub open spec fn apply_op(files: Seq<FileView>, op: DiskOpView) -> Seq<FileView> {
    match op {
        DiskOpView::Create { gen, seq } => match find_file(files, gen, seq) {
            Some(_) => files,
            None => files.push(FileView { gen, seq, data: Seq::empty() }),
        },
        DiskOpView::Append { gen, seq, bytes } => match find_file(files, gen, seq) {
            Some(i) => files.update(i, FileView { gen, seq, data: files[i].data + bytes }),
            None => files,
        },
        DiskOpView::Remove { gen, seq } => match find_file(files, gen, seq) {
            Some(i) => files.remove(i),
            None => files,
        },
    }
}

/// The directory after a sequence of operations, applied in order.
pub open spec fn apply_ops(files: Seq<FileView>, ops: Seq<DiskOpView>) -> Seq<FileView>
    decreases ops.len(),
{
    if ops.len() == 0 {
        files
    } else {
        apply_op(apply_ops(files, ops.drop_last()), ops.last())
    }
}

/// In an ascending directory a name belongs to one file only.
pub proof fn lemma_find_file(files: Seq<FileView>, i: int)
    requires
        files_ascending(files),
        0 <= i < files.len(),
    ensures
        find_file(files, files[i].gen, files[i].seq) == Some(i),
{
    let gen = files[i].gen;
    let seq = files[i].seq;
    assert(named(files, i, gen, seq));
    let j = choose|j: int| named(files, j, gen, seq);
    if j < i {
        assert(name_before(files[j], files[i]));
    }
    if i < j {
        assert(name_before(files[i], files[j]));
    }
}

/// A name that sorts behind the last file belongs to no file.
pub proof fn lemma_find_no_file(files: Seq<FileView>, gen: u32, seq: u32)
    requires
        files_ascending(files),
        files.len() == 0 || name_before(files.last(), FileView { gen, seq, data: Seq::empty() }),
    ensures
        find_file(files, gen, seq) is None,
        files_ascending(files.push(FileView { gen, seq, data: Seq::empty() })),
{
    let next = FileView { gen, seq, data: Seq::<u8>::empty() };
    assert forall|i: int| !named(files, i, gen, seq) by {
        if 0 <= i < files.len() - 1 {
            assert(name_before(files[i], files.last()));
        }
    }
    let longer = files.push(next);
    assert forall|i: int, j: int| 0 <= i < j < longer.len() implies name_before(
        #[trigger] longer[i],
        #[trigger] longer[j],
    ) by {
        if j == files.len() {
            if i < files.len() - 1 {
                assert(name_before(files[i], files.last()));
            }
        } else {
            assert(name_before(files[i], files[j]));
        }
    }
}

/// One more operation is applied after those before it.
pub proof fn lemma_apply_ops_push(files: Seq<FileView>, ops: Seq<DiskOpView>, op: DiskOpView)
    ensures
        apply_ops(files, ops.push(op)) == apply_op(apply_ops(files, ops), op),
{
    assert(ops.push(op).drop_last() =~= ops);
}

/// Two queues in a row are applied one after the other.
pub proof fn lemma_apply_ops_concat(files: Seq<FileView>, a: Seq<DiskOpView>, b: Seq<DiskOpView>)
    ensures
        apply_ops(files, a + b) == apply_ops(apply_ops(files, a), b),
    decreases b.len(),
{
    if b.len() == 0 {
        assert(a + b =~= a);
    } else {
        lemma_apply_ops_concat(files, a, b.drop_last());
        assert((a + b).drop_last() =~= a + b.drop_last());
    }
}

/// Two ascending directories that hold the same files are the same
/// directory: the order of the names leaves one way to arrange them.
pub proof fn lemma_ascending_unique(a: Seq<FileView>, b: Seq<FileView>)
    requires
        files_ascending(a),
        files_ascending(b),
        forall|file: FileView| #[trigger] a.contains(file) <==> b.contains(file),
    ensures
        a == b,
    decreases a.len(),
{
    if a.len() == 0 {
        if b.len() > 0 {
            assert(b.contains(b[0]));
            assert(a.contains(b[0]));
        }
        assert(a =~= b);
    } else {
        let top = a.last();
        assert(a.contains(top));
        assert(b.contains(top));
        let j = choose|j: int| 0 <= j < b.len() && b[j] == top;
        assert(b.contains(b.last()));
        assert(a.contains(b.last()));
        let i = choose|i: int| 0 <= i < a.len() && a[i] == b.last();
        if i < a.len() - 1 {
            assert(name_before(a[i], a.last()));
        }
        if j < b.len() - 1 {
            assert(name_before(b[j], b.last()));
        }
        assert(i == a.len() - 1 && j == b.len() - 1);
        let shorter_a = a.drop_last();
        let shorter_b = b.drop_last();
        assert forall|file: FileView| #[trigger]
            shorter_a.contains(file) <==> shorter_b.contains(file) by {
            if shorter_a.contains(file) {
                let k = choose|k: int| 0 <= k < shorter_a.len() && shorter_a[k] == file;
                assert(a[k] == file);
                assert(name_before(a[k], a.last()));
                assert(a.contains(file));
                assert(b.contains(file));
                let m = choose|m: int| 0 <= m < b.len() && b[m] == file;
                assert(m < b.len() - 1);
                assert(shorter_b[m] == file);
            }
            if shorter_b.contains(file) {
                let k = choose|k: int| 0 <= k < shorter_b.len() && shorter_b[k] == file;
                assert(b[k] == file);
                assert(name_before(b[k], b.last()));
                assert(b.contains(file));
                assert(a.contains(file));
                let m = choose|m: int| 0 <= m < a.len() && a[m] == file;
                assert(m < a.len() - 1);
                assert(shorter_a[m] == file);
            }
        }
        assert forall|x: int, y: int| 0 <= x < y < shorter_a.len() implies name_before(
            #[trigger] shorter_a[x],
            #[trigger] shorter_a[y],
        ) by {
            assert(name_before(a[x], a[y]));
        }
        assert forall|x: int, y: int| 0 <= x < y < shorter_b.len() implies name_before(
            #[trigger] shorter_b[x],
            #[trigger] shorter_b[y],
        ) by {
            assert(name_before(b[x], b[y]));
        }
        lemma_ascending_unique(shorter_a, shorter_b);
        assert(a =~= shorter_a.push(top));
        assert(b =~= shorter_b.push(top));
    }
}

} // verus!
