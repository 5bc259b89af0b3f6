//! Rebuilding a partition from the files of its directory: each file is a
//! segment, and the segments stand in the order of their base offsets.

use vstd::prelude::*;
use vstd::slice::*;
use crate::Offset;
use crate::partition::{ascending, bases_of, PartitionError};
use crate::scan::{
    file_base, file_bases, lemma_insert_to_multiset, names_valid, StoredFile,
};
use crate::segment::{Segment, SegmentView};

verus! {

/// Whether no two files stand for one base offset.
pub open spec fn names_distinct(files: Seq<StoredFile>) -> bool {
    forall|i: int, j: int|
        0 <= i < j < files.len() ==> file_base(#[trigger] files[i]) != file_base(
            #[trigger] files[j],
        )
}

/// Whether no file's bytes reach beyond the largest offset.
pub open spec fn files_fit(files: Seq<StoredFile>) -> bool {
    forall|i: int|
        0 <= i < files.len() ==> file_base(#[trigger] files[i]).unwrap() + files[i].data@.len()
            <= Offset::MAX
}

/// Why the files hold no partition, if they do not: a name that stands for
/// no offset; else two names for one offset; else bytes beyond the largest
/// offset.
pub open spec fn spec_recover_error(files: Seq<StoredFile>) -> Option<PartitionError> {
    if !names_valid(files) {
        Some(PartitionError::InvalidSegmentName)
    } else if !names_distinct(files) {
        Some(PartitionError::DuplicateSegment)
    } else if !files_fit(files) {
        Some(PartitionError::OffsetOverflow)
    } else {
        None
    }
}

/// The segment that a file of the directory `path` holds.
pub open spec fn file_segment(path: Seq<char>, file: StoredFile) -> SegmentView {
    SegmentView::stored(path, file_base(file).unwrap(), file.data@)
}

/// The segments that the files of the directory `path` hold, in the order of
/// the files.
pub open spec fn file_segments(path: Seq<char>, files: Seq<StoredFile>) -> Seq<SegmentView> {
    Seq::new(files.len(), |i: int| file_segment(path, files[i]))
}

/// Where a segment that starts at `base` belongs among ascending segments:
/// the index of the first segment that does not start before it.
fn insertion_point(segments: &Vec<Segment>, base: Offset) -> (at: usize)
    ensures
        at <= segments@.len(),
        forall|j: int| 0 <= j < at ==> (#[trigger] segments@[j])@.base_offset < base,
        at < segments@.len() ==> segments@[at as int]@.base_offset >= base,
{
    let mut at: usize = 0;
    while at < segments.len() && segments[at].base_offset() < base
        invariant
            at <= segments@.len(),
            forall|j: int| 0 <= j < at ==> (#[trigger] segments@[j])@.base_offset < base,
        decreases segments@.len() - at,
    {
        at = at + 1;
    }
    at
}

/// The views of `segments`, in order.
pub open spec fn segment_views(segments: Seq<Segment>) -> Seq<SegmentView> {
    Seq::new(segments.len(), |i: int| segments[i]@)
}

/// Whether no two of the first `k` files stand for one base offset.
pub open spec fn distinct_upto(files: Seq<StoredFile>, k: int) -> bool {
    forall|i: int, j: int|
        0 <= i < j < k ==> file_base(#[trigger] files[i]) != file_base(#[trigger] files[j])
}

/// Each of the held segments is the segment of one of the first `k` files.
pub proof fn lemma_held_segment_is_file(
    held: Seq<SegmentView>,
    j: int,
    path: Seq<char>,
    files: Seq<StoredFile>,
    k: int,
) -> (i: int)
    requires
        0 <= k <= files.len(),
        0 <= j < held.len(),
        held.to_multiset() == file_segments(path, files).take(k).to_multiset(),
    ensures
        0 <= i < k,
        held[j] == file_segment(path, files[i]),
{
    let taken = file_segments(path, files).take(k);
    held.to_multiset_ensures();
    taken.to_multiset_ensures();
    assert(held.contains(held[j]));
    assert(held.to_multiset().count(held[j]) > 0);
    assert(taken.to_multiset().count(held[j]) > 0);
    assert(taken.contains(held[j]));
    let i = choose|i: int| 0 <= i < taken.len() && taken[i] == held[j];
    i
}

/// Each of the first `k` files has its segment among the held ones.
pub proof fn lemma_file_is_held(
    held: Seq<SegmentView>,
    i: int,
    path: Seq<char>,
    files: Seq<StoredFile>,
    k: int,
) -> (j: int)
    requires
        0 <= i < k <= files.len(),
        held.to_multiset() == file_segments(path, files).take(k).to_multiset(),
    ensures
        0 <= j < held.len(),
        held[j] == file_segment(path, files[i]),
{
    let taken = file_segments(path, files).take(k);
    held.to_multiset_ensures();
    taken.to_multiset_ensures();
    assert(taken[i] == file_segment(path, files[i]));
    assert(taken.contains(taken[i]));
    assert(taken.to_multiset().count(taken[i]) > 0);
    assert(held.to_multiset().count(taken[i]) > 0);
    assert(held.contains(taken[i]));
    let j = choose|j: int| 0 <= j < held.len() && held[j] == taken[i];
    j
}

/// Putting the segment of file `k` at its place among the ordered segments of
/// the files before it keeps them ordered and adds just that segment.
#[verifier::rlimit(40)]
proof fn lemma_ordered_step(
    before: Seq<SegmentView>,
    at: int,
    path: Seq<char>,
    files: Seq<StoredFile>,
    k: int,
)
    requires
        0 <= k < files.len(),
        0 <= at <= before.len(),
        ascending(bases_of(before)),
        before.to_multiset() == file_segments(path, files).take(k).to_multiset(),
        distinct_upto(files, k),
        file_base(files[k]) is Some,
        forall|j: int| 0 <= j < at ==> (#[trigger] before[j]).base_offset < file_base(files[k]).unwrap(),
        at < before.len() ==> before[at].base_offset > file_base(files[k]).unwrap(),
    ensures
        ascending(bases_of(before.insert(at, file_segment(path, files[k])))),
        before.insert(at, file_segment(path, files[k])).to_multiset() == file_segments(
            path,
            files,
        ).take(k + 1).to_multiset(),
        distinct_upto(files, k + 1),
{
    let item = file_segment(path, files[k]);
    let base = file_base(files[k]).unwrap();
    let after = before.insert(at, item);
    let all = file_segments(path, files);
    assert forall|i: int, j: int| 0 <= i < j < after.len() implies bases_of(after)[i] < bases_of(
        after,
    )[j] by {
        let bi = if i < at {
            i
        } else {
            i - 1
        };
        let bj = if j < at {
            j
        } else {
            j - 1
        };
        if i != at && j != at {
            assert(bases_of(before)[bi] < bases_of(before)[bj]);
        } else if i == at {
            assert(after[j] == before[bj]);
            if bj > at {
                assert(bases_of(before)[at] < bases_of(before)[bj]);
            }
        } else {
            assert(after[i] == before[bi]);
        }
    }
    lemma_insert_to_multiset(before, at, item);
    assert(all.take(k + 1) =~= all.take(k).push(item));
    vstd::seq_lib::to_multiset_build(all.take(k), item);
    assert forall|i: int, j: int| 0 <= i < j < k + 1 implies file_base(#[trigger] files[i])
        != file_base(#[trigger] files[j]) by {
        if j == k {
            let h = lemma_file_is_held(before, i, path, files, k);
            if h >= at {
                if h > at {
                    assert(bases_of(before)[at] < bases_of(before)[h]);
                }
            }
        }
    }
}

/// Puts the segments that `files` hold in the order of their base offsets.
/// There is no such order where two files stand for one base offset.
#[verifier::rlimit(40)]
pub(crate) fn ordered_segments(path: &String, files: &Vec<StoredFile>, bases: &Vec<Offset>) -> (r: Option<
    Vec<Segment>,
>)
    requires
        names_valid(files@),
        bases@ == file_bases(files@),
    ensures
        r is Some <==> names_distinct(files@),
        r is Some ==> ascending(bases_of(segment_views(r.unwrap()@))) && segment_views(
            r.unwrap()@,
        ).to_multiset() == file_segments(path@, files@).to_multiset(),
{
    let mut segments: Vec<Segment> = Vec::new();
    let mut k: usize = 0;
    assert(segment_views(segments@) =~= file_segments(path@, files@).take(0));
    while k < files.len()
        invariant
            k <= files@.len(),
            names_valid(files@),
            bases@ == file_bases(files@),
            ascending(bases_of(segment_views(segments@))),
            distinct_upto(files@, k as int),
            segment_views(segments@).to_multiset() == file_segments(path@, files@).take(
                k as int,
            ).to_multiset(),
        decreases files@.len() - k,
    {
        let base = bases[k];
        assert(Some(base) == file_base(files@[k as int]));
        let at = insertion_point(&segments, base);
        let ghost held = segments@;
        let ghost before = segment_views(held);
        if at < segments.len() && segments[at].base_offset() == base {
            proof {
                let i = lemma_held_segment_is_file(before, at as int, path@, files@, k as int);
                assert(before[at as int] == held[at as int]@);
                assert(file_base(files@[i]) == file_base(files@[k as int]));
            }
            return None;
        }
        let data = slice_to_vec(files[k].data.as_slice());
        let segment = Segment::with_data(path.clone(), base, data);
        assert(segment@ == file_segment(path@, files@[k as int]));
        segments.insert(at, segment);
        proof {
            assert(segment_views(segments@) =~= before.insert(
                at as int,
                file_segment(path@, files@[k as int]),
            ));
            assert forall|j: int| 0 <= j < at implies (#[trigger] before[j]).base_offset
                < base by {
                assert(before[j] == held[j]@);
            }
            lemma_ordered_step(before, at as int, path@, files@, k as int);
        }
        k = k + 1;
    }
    assert(file_segments(path@, files@).take(k as int) =~= file_segments(path@, files@));
    Some(segments)
}

/// Whether no segment's bytes reach beyond the largest offset.
pub(crate) fn segments_fit(segments: &Vec<Segment>) -> (r: bool)
    ensures
        r == forall|j: int|
            0 <= j < segments@.len() ==> (#[trigger] segments@[j])@.end_offset() <= Offset::MAX,
{
    let mut j: usize = 0;
    while j < segments.len()
        invariant
            j <= segments@.len(),
            forall|i: int| 0 <= i < j ==> (#[trigger] segments@[i])@.end_offset() <= Offset::MAX,
        decreases segments@.len() - j,
    {
        if segments[j].len() > u64::MAX - segments[j].base_offset() {
            return false;
        }
        j = j + 1;
    }
    true
}

} // verus!
