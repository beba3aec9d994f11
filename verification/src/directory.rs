//! The directory of the log: which of its files are segments, and in which
//! order they are replayed.

use crate::disk::{files_ascending, files_of, lemma_ascending_unique, name_before, FileView};
use crate::error::KvsError;
use crate::log::Segment;
use crate::names::{parse_name, parse_segment_name};
use vstd::prelude::*;

verus! {

/// A file of the directory as it was read: its name and what it holds.
#[derive(Debug)]
pub struct SegmentFile {
    /// The name of the file, without the directory.
    pub name: String,
    /// The bytes of the file.
    pub data: Vec<u8>,
}

/// Whether `file` is the segment file `segment`: its name is that of the
/// segment, and it holds the bytes.
pub open spec fn is_segment_file(file: SegmentFile, segment: FileView) -> bool {
    parse_name(file.name@) == Some((segment.gen, segment.seq)) && segment.data == file.data@
}

/// Whether `segment` is among the files of the directory from position `from`
/// on.
pub open spec fn listed_from(files: Seq<SegmentFile>, from: int, segment: FileView) -> bool {
    exists|i: int| from <= i < files.len() && #[trigger] is_segment_file(files[i], segment)
}

/// Whether `segment` is among the files of the directory.
pub open spec fn listed(files: Seq<SegmentFile>, segment: FileView) -> bool {
    listed_from(files, 0, segment)
}

/// Whether no two files of the directory from position `from` on are named as
/// the same segment.
pub open spec fn distinct_from(files: Seq<SegmentFile>, from: int) -> bool {
    forall|i: int, j: int|
        from <= i < j < files.len() && (#[trigger] parse_name(files[i].name@)) is Some
            ==> parse_name(files[i].name@) != #[trigger] parse_name(files[j].name@)
}

/// Whether no two files of the directory are named as the same segment.
pub open spec fn distinct_names(files: Seq<SegmentFile>) -> bool {
    distinct_from(files, 0)
}

/// Whether `segments` are the segment files of the directory in the order of
/// replay: ascending by generation, then by number.
pub open spec fn arranged(files: Seq<SegmentFile>, segments: Seq<FileView>) -> bool {
    &&& files_ascending(segments)
    &&& forall|segment: FileView| #[trigger] segments.contains(segment) <==> listed(files, segment)
}

/// The segment files of a directory can be arranged in one way only.
pub proof fn lemma_arranged_unique(files: Seq<SegmentFile>, a: Seq<FileView>, b: Seq<FileView>)
    requires
        arranged(files, a),
        arranged(files, b),
    ensures
        a == b,
{
    assert forall|file: FileView| #[trigger] a.contains(file) <==> b.contains(file) by {
        assert(a.contains(file) <==> listed(files, file));
        assert(b.contains(file) <==> listed(files, file));
    }
    lemma_ascending_unique(a, b);
}

/// A file put into an ascending directory at its place keeps the directory
/// ascending, and is the one file that the directory gains.
pub proof fn lemma_insert_file(files: Seq<FileView>, at: int, file: FileView)
    requires
        files_ascending(files),
        0 <= at <= files.len(),
        forall|i: int| 0 <= i < at ==> name_before(#[trigger] files[i], file),
        at < files.len() ==> name_before(file, files[at]),
    ensures
        files_ascending(files.insert(at, file)),
        forall|other: FileView| #[trigger]
            files.insert(at, file).contains(other) <==> files.contains(other) || other == file,
{
    let longer = files.insert(at, file);
    assert forall|i: int, j: int| 0 <= i < j < longer.len() implies name_before(
        #[trigger] longer[i],
        #[trigger] longer[j],
    ) by {
        if j == at {
            assert(longer[i] == files[i]);
        } else if i == at {
            assert(longer[j] == files[j - 1]);
            if j - 1 > at {
                assert(name_before(files[at], files[j - 1]));
            }
        } else if i < at && j > at {
            assert(longer[i] == files[i]);
            assert(longer[j] == files[j - 1]);
            if i < j - 1 {
                assert(name_before(files[i], files[j - 1]));
            }
        } else if j < at {
            assert(name_before(files[i], files[j]));
        } else {
            assert(name_before(files[i - 1], files[j - 1]));
        }
    }
    assert forall|other: FileView| #[trigger] longer.contains(other) <==> files.contains(other)
        || other == file by {
        if longer.contains(other) {
            let k = choose|k: int| 0 <= k < longer.len() && longer[k] == other;
            if k < at {
                assert(files[k] == other);
            } else if k > at {
                assert(files[k - 1] == other);
            }
        }
        if files.contains(other) {
            let k = choose|k: int| 0 <= k < files.len() && files[k] == other;
            if k < at {
                assert(longer[k] == other);
            } else {
                assert(longer[k + 1] == other);
            }
        }
        if other == file {
            assert(longer[at] == other);
        }
    }
}

/// Picks the segment files of a directory and puts them in the order of
/// replay.  Files whose names are not those of segments are left out; two
/// files named as the same segment are an error.
pub fn sorted_segments(files: Vec<SegmentFile>) -> (out: Result<Vec<Segment>, KvsError>)
    ensures
        match out {
            Ok(segments) => distinct_names(files@) && arranged(files@, files_of(segments@)),
            Err(e) => e is Codec && !distinct_names(files@),
        },
{
    let ghost all = files@;
    let mut left = files;
    let mut sorted: Vec<Segment> = Vec::new();
    while left.len() > 0
        invariant
            all == files@,
            left@ == all.take(left.len() as int),
            left.len() <= all.len(),
            files_ascending(files_of(sorted@)),
            distinct_from(all, left.len() as int),
            forall|segment: FileView| #[trigger]
                files_of(sorted@).contains(segment) <==> listed_from(
                    all,
                    left.len() as int,
                    segment,
                ),
        decreases left.len(),
    {
        let ghost rest = left.len() - 1;
        let ghost before = files_of(sorted@);
        let file = match left.pop() {
            Some(file) => file,
            None => {
                return Err(KvsError::Codec);
            },
        };
        assert(file == all[rest]);
        match parse_segment_name(file.name.as_str()) {
            Some((gen, seq)) => {
                let at = insertion_point(&sorted, gen, seq);
                let ghost view = FileView { gen, seq, data: file.data@ };
                if at < sorted.len() && sorted[at].gen == gen && sorted[at].seq == seq {
                    proof {
                        let twin = before[at as int];
                        assert(before.contains(twin));
                        let j = choose|j: int|
                            rest + 1 <= j < all.len() && #[trigger] is_segment_file(all[j], twin);
                        assert(parse_name(all[rest].name@) == parse_name(all[j].name@));
                        assert(parse_name(all[rest].name@) is Some);
                        assert(!distinct_from(all, 0));
                    }
                    return Err(KvsError::Codec);
                }
                sorted.insert(at, Segment { gen, seq, data: file.data });
                proof {
                    assert(files_of(sorted@) =~= before.insert(at as int, view));
                    lemma_insert_file(before, at as int, view);
                    assert(is_segment_file(all[rest], view));
                    assert forall|segment: FileView| #[trigger]
                        files_of(sorted@).contains(segment) <==> listed_from(
                            all,
                            rest,
                            segment,
                        ) by {
                        if listed_from(all, rest, segment) {
                            let i = choose|i: int|
                                rest <= i < all.len() && #[trigger] is_segment_file(all[i], segment);
                            if i > rest {
                                assert(listed_from(all, rest + 1, segment));
                            }
                        }
                        if before.contains(segment) {
                            let i = choose|i: int|
                                rest + 1 <= i < all.len() && #[trigger] is_segment_file(
                                    all[i],
                                    segment,
                                );
                            assert(is_segment_file(all[i], segment));
                        }
                    }
                    assert forall|i: int, j: int|
                        rest <= i < j < all.len() && (#[trigger] parse_name(
                            all[i].name@,
                        )) is Some implies parse_name(all[i].name@) != #[trigger] parse_name(
                        all[j].name@,
                    ) by {
                        if i == rest && parse_name(all[j].name@) == Some((gen, seq)) {
                            let twin = FileView { gen, seq, data: all[j].data@ };
                            assert(is_segment_file(all[j], twin));
                            assert(listed_from(all, rest + 1, twin));
                            assert(before.contains(twin));
                            let k = choose|k: int| 0 <= k < before.len() && before[k] == twin;
                            if k < at {
                                assert(name_before(before[k], view));
                            } else if k > at {
                                assert(name_before(before[at as int], before[k]));
                            }
                        }
                    }
                }
            },
            None => {
                proof {
                    assert forall|segment: FileView| #[trigger]
                        before.contains(segment) <==> listed_from(all, rest, segment) by {
                        if listed_from(all, rest, segment) {
                            let i = choose|i: int|
                                rest <= i < all.len() && #[trigger] is_segment_file(all[i], segment);
                            assert(i > rest);
                            assert(listed_from(all, rest + 1, segment));
                        }
                        if before.contains(segment) {
                            let i = choose|i: int|
                                rest + 1 <= i < all.len() && #[trigger] is_segment_file(
                                    all[i],
                                    segment,
                                );
                            assert(is_segment_file(all[i], segment));
                        }
                    }
                }
            },
        }
        assert(left@ =~= all.take(left.len() as int));
    }
    Ok(sorted)
}

/// The first position whose segment is not named before the given name.
fn insertion_point(sorted: &Vec<Segment>, gen: u32, seq: u32) -> (at: usize)
    requires
        files_ascending(files_of(sorted@)),
    ensures
        at <= sorted.len(),
        forall|i: int|
            0 <= i < at ==> name_before(
                #[trigger] files_of(sorted@)[i],
                FileView { gen, seq, data: Seq::empty() },
            ),
        at < sorted.len() ==> !name_before(
            files_of(sorted@)[at as int],
            FileView { gen, seq, data: Seq::empty() },
        ),
{
    let mut at: usize = 0;
    while at < sorted.len() && (sorted[at].gen < gen || (sorted[at].gen == gen && sorted[at].seq
        < seq))
        invariant
            at <= sorted.len(),
            forall|i: int|
                0 <= i < at ==> name_before(
                    #[trigger] files_of(sorted@)[i],
                    FileView { gen, seq, data: Seq::empty() },
                ),
        decreases sorted.len() - at,
    {
        at = at + 1;
    }
    at
}

/// The generation that a directory is in: the one in the name of the last of
/// its files, which are given in the order of replay.
pub fn get_curr_gen(filepaths: &Vec<String>) -> (gen: u32)
    requires
        filepaths@.len() > 0,
        parse_name(filepaths@.last()@) is Some,
    ensures
        parse_name(filepaths@.last()@) matches Some(name) && gen == name.0,
{
    let len = filepaths.len();
    match parse_segment_name(filepaths[len - 1].as_str()) {
        Some((gen, _)) => gen,
        None => 0,
    }
}

} // verus!
