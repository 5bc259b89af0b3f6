//! Reading a directory listing: the base offsets that the names of segment
//! files stand for, the largest of them, and all of them in order.

use vstd::prelude::*;
use crate::Offset;
use crate::naming::{segment_offset, spec_segment_offset};
use crate::partition::PartitionError;

verus! {

/// One file of a partition's directory: its name and its bytes.
#[derive(Debug)]
pub struct StoredFile {
    /// The file's name, without its directory.
    pub name: Vec<u8>,
    /// The file's bytes.
    pub data: Vec<u8>,
}

/// The base offset that a file's name stands for, if any.
pub open spec fn file_base(file: StoredFile) -> Option<Offset> {
    spec_segment_offset(file.name@)
}

/// Whether every file's name stands for a base offset.
pub open spec fn names_valid(files: Seq<StoredFile>) -> bool {
    forall|i: int| 0 <= i < files.len() ==> file_base(#[trigger] files[i]) is Some
}

/// The base offsets that the files' names stand for, in the order of the
/// files.
pub open spec fn file_bases(files: Seq<StoredFile>) -> Seq<Offset> {
    Seq::new(files.len(), |i: int| file_base(files[i]).unwrap())
}

/// The number of segments that the files of a directory make: one for each
/// file, and one, the initial empty segment at offset 0, where there is no
/// file.
pub open spec fn spec_segment_count(files: Seq<StoredFile>) -> nat {
    if files.len() == 0 {
        1
    } else {
        files.len()
    }
}

/// Whether no offset is followed by a smaller one.
pub open spec fn sorted(bases: Seq<Offset>) -> bool {
    forall|i: int, j: int| 0 <= i <= j < bases.len() ==> bases[i] <= bases[j]
}

/// Whether `max` is the largest of `bases`, or 0 where there are none.
pub open spec fn is_largest(bases: Seq<Offset>, max: Offset) -> bool {
    &&& forall|i: int| 0 <= i < bases.len() ==> (#[trigger] bases[i]) <= max
    &&& if bases.len() == 0 {
        max == 0
    } else {
        exists|i: int| 0 <= i < bases.len() && #[trigger] bases[i] == max
    }
}

/// A sequence with one more item holds that item once more, wherever it was
/// put.
pub proof fn lemma_insert_to_multiset<A>(s: Seq<A>, at: int, item: A)
    requires
        0 <= at <= s.len(),
    ensures
        s.insert(at, item).to_multiset() =~= s.to_multiset().insert(item),
{
    let longer = s.insert(at, item);
    assert(longer.remove(at) =~= s);
    vstd::seq_lib::to_multiset_remove(longer, at);
    longer.to_multiset_ensures();
    assert(longer.contains(item)) by {
        assert(longer[at] == item);
    }
}

/// Reads the base offset off each file's name, in the order of the files.
/// Fails where a name stands for no offset.
pub fn parse_names(files: &Vec<StoredFile>) -> (r: Result<Vec<Offset>, PartitionError>)
    ensures
        r is Ok <==> names_valid(files@),
        r is Ok ==> r.unwrap()@ == file_bases(files@),
        r is Err ==> r == Err::<Vec<Offset>, PartitionError>(PartitionError::InvalidSegmentName),
{
    let mut bases: Vec<Offset> = Vec::new();
    let mut k: usize = 0;
    while k < files.len()
        invariant
            k <= files@.len(),
            bases@.len() == k,
            forall|i: int| 0 <= i < k ==> Some(#[trigger] bases@[i]) == file_base(files@[i]),
        decreases files@.len() - k,
    {
        match segment_offset(files[k].name.as_slice()) {
            None => {
                assert(file_base(files@[k as int]) is None);
                return Err(PartitionError::InvalidSegmentName);
            },
            Some(base) => {
                bases.push(base);
            },
        }
        k = k + 1;
    }
    assert forall|i: int| 0 <= i < files@.len() implies file_base(#[trigger] files@[i]) is Some by {
        assert(Some(bases@[i]) == file_base(files@[i]));
    }
    assert(bases@ =~= file_bases(files@));
    Ok(bases)
}

/// Finds the largest base offset among the files of a directory and counts
/// its segments. A directory without files counts as one segment at base
/// offset 0: the initial empty segment that a partition starts with. Fails
/// where a name stands for no offset.
pub fn scan_topic(files: &Vec<StoredFile>) -> (r: Result<(Offset, usize), PartitionError>)
    ensures
        r is Ok <==> names_valid(files@),
        r is Ok ==> r.unwrap().1 == spec_segment_count(files@) && is_largest(
            file_bases(files@),
            r.unwrap().0,
        ),
        files@.len() == 0 ==> r == Ok::<(Offset, usize), PartitionError>((0, 1)),
        r is Err ==> r == Err::<(Offset, usize), PartitionError>(
            PartitionError::InvalidSegmentName,
        ),
{
    let bases = match parse_names(files) {
        Ok(bases) => bases,
        Err(e) => {
            return Err(e);
        },
    };
    let mut largest_base_offset: Offset = 0;
    let mut segment_count: usize = 0;
    while segment_count < bases.len()
        invariant
            segment_count <= bases@.len(),
            is_largest(bases@.take(segment_count as int), largest_base_offset),
        decreases bases@.len() - segment_count,
    {
        let parsed = bases[segment_count];
        let ghost seen = bases@.take(segment_count as int);
        let ghost more = bases@.take(segment_count + 1);
        let ghost before = largest_base_offset;
        largest_base_offset = if parsed > largest_base_offset {
            parsed
        } else {
            largest_base_offset
        };
        proof {
            assert forall|i: int| 0 <= i < more.len() implies (#[trigger] more[i])
                <= largest_base_offset by {
                if i < seen.len() {
                    assert(seen[i] == more[i]);
                }
            }
            if parsed > before {
                assert(more[segment_count as int] == largest_base_offset);
            } else if seen.len() > 0 {
                let i = choose|i: int| 0 <= i < seen.len() && #[trigger] seen[i] == before;
                assert(more[i] == largest_base_offset);
            } else {
                assert(more[0] == largest_base_offset);
            }
        }
        segment_count = segment_count + 1;
    }
    assert(bases@.take(segment_count as int) =~= bases@);
    if segment_count == 0 {
        Ok((0, 1))
    } else {
        Ok((largest_base_offset, segment_count))
    }
}

/// Reads the base offset off each file's name and puts the offsets in
/// ascending order. Fails where a name stands for no offset.
pub fn sorted_segments(files: &Vec<StoredFile>) -> (r: Result<Vec<Offset>, PartitionError>)
    ensures
        r is Ok <==> names_valid(files@),
        r is Ok ==> sorted(r.unwrap()@) && r.unwrap()@.to_multiset() == file_bases(
            files@,
        ).to_multiset(),
        r is Err ==> r == Err::<Vec<Offset>, PartitionError>(PartitionError::InvalidSegmentName),
{
    let bases = match parse_names(files) {
        Ok(bases) => bases,
        Err(e) => {
            return Err(e);
        },
    };
    let mut segments: Vec<Offset> = Vec::new();
    let mut k: usize = 0;
    assert(bases@.take(0) =~= segments@);
    while k < bases.len()
        invariant
            k <= bases@.len(),
            sorted(segments@),
            segments@.to_multiset() == bases@.take(k as int).to_multiset(),
        decreases bases@.len() - k,
    {
        let base = bases[k];
        let mut at: usize = 0;
        while at < segments.len() && segments[at] <= base
            invariant
                at <= segments@.len(),
                forall|j: int| 0 <= j < at ==> (#[trigger] segments@[j]) <= base,
            decreases segments@.len() - at,
        {
            at = at + 1;
        }
        let ghost before = segments@;
        segments.insert(at, base);
        proof {
            let after = segments@;
            assert forall|i: int, j: int| 0 <= i <= j < after.len() implies after[i]
                <= after[j] by {
                let bi = if i < at {
                    i
                } else {
                    i - 1
                };
                let bj = if j < at {
                    j
                } else {
                    j - 1
                };
                if i != at && j != at {
                    assert(before[bi] <= before[bj]);
                } else if i == at && j != at {
                    assert(before[at as int] <= before[bj]);
                }
            }
            lemma_insert_to_multiset(before, at as int, base);
            assert(bases@.take(k + 1) =~= bases@.take(k as int).push(base));
            vstd::seq_lib::to_multiset_build(bases@.take(k as int), base);
        }
        k = k + 1;
    }
    assert(bases@.take(k as int) =~= bases@);
    Ok(segments)
}

} // verus!
