//! A partition: the ordered segments of one log, the offset at which the next
//! byte lands, and the rule that starts a new segment.

use vstd::prelude::*;
use vstd::slice::*;
use crate::Offset;
use crate::naming::{
    log_filename, partition_path, segment_name_bytes, spec_log_filename, spec_partition_path,
    spec_segment_name_bytes,
};
use crate::recovery::{
    file_segments, lemma_file_is_held, lemma_held_segment_is_file, ordered_segments,
    segment_views, segments_fit, spec_recover_error,
};
use crate::scan::{file_base, parse_names, StoredFile};
use crate::records::spec_next_record;
use crate::segment::{Client, Segment, SegmentView};

verus! {

/// Bytes that a partition allots to each segment before it starts the next
/// one. A record that crosses the mark stays whole, so a segment may hold more.
pub const SEGMENT_SIZE: u64 = 32;

/// Why an operation on a partition was refused.
#[derive(Clone, Copy, Debug, PartialEq, Eq, Structural)]
pub enum PartitionError {
    /// A file's name does not stand for an offset.
    InvalidSegmentName,
    /// Two files stand for one base offset.
    DuplicateSegment,
    /// The bytes would reach beyond the largest offset.
    OffsetOverflow,
    /// The partition has no segment with the base offset asked for.
    SegmentNotFound,
}

impl PartitionError {
    /// A sentence that describes the error.
    pub fn message(&self) -> (text: String)
        ensures
            text@ == match self {
                PartitionError::InvalidSegmentName => "a file's name does not stand for an offset"@,
                PartitionError::DuplicateSegment => "two files stand for one base offset"@,
                PartitionError::OffsetOverflow => "the log has reached the largest offset"@,
                PartitionError::SegmentNotFound => "the partition has no such segment"@,
            },
    {
        match self {
            PartitionError::InvalidSegmentName => "a file's name does not stand for an offset".to_owned(),
            PartitionError::DuplicateSegment => "two files stand for one base offset".to_owned(),
            PartitionError::OffsetOverflow => "the log has reached the largest offset".to_owned(),
            PartitionError::SegmentNotFound => "the partition has no such segment".to_owned(),
        }
    }
}

/// What an append did to the partition's active segment.
#[derive(Clone, Copy, Debug, PartialEq, Eq, Structural)]
pub enum AppendOutcome {
    /// The segment written to is still the active one.
    Unchanged,
    /// The segment written to was no longer the active one: another writer
    /// had started a new segment.
    Superseded,
    /// The append crossed the mark: a new segment is now the active one.
    RolledOver,
}

/// A partition of a topic.
#[derive(Debug)]
pub struct Partition {
    path: String,
    topic: String,
    partition: u32,
    segments: Vec<Segment>,
    write_offset: Offset,
    active_base_offset: Offset,
    segment_count: u64,
}

/// What a partition is, as plain values.
pub struct PartitionView {
    /// Name of the topic.
    pub topic: Seq<char>,
    /// Number of the partition within its topic.
    pub partition: u32,
    /// Directory of the partition's segment files.
    pub path: Seq<char>,
    /// The segments, in the order of their base offsets.
    pub segments: Seq<SegmentView>,
    /// Offset at which the next appended byte lands.
    pub write_offset: Offset,
    /// Base offset of the segment that appends go to.
    pub active_base_offset: Offset,
    /// Number of segments started so far.
    pub segment_count: u64,
}

/// Whether the offsets grow strictly from each to the next.
pub open spec fn ascending(bases: Seq<Offset>) -> bool {
    forall|i: int, j: int| 0 <= i < j < bases.len() ==> bases[i] < bases[j]
}

/// Whether segment `i` owns `offset`: the offset lies at or behind the
/// segment's base and before the base of the next segment, if there is one.
pub open spec fn owns(bases: Seq<Offset>, i: int, offset: Offset) -> bool {
    &&& 0 <= i < bases.len()
    &&& bases[i] <= offset
    &&& i + 1 < bases.len() ==> offset < bases[i + 1]
}

/// Index of the segment that owns `offset`, if any: the last one whose base
/// is not behind `offset`.
pub open spec fn spec_locate(bases: Seq<Offset>, offset: Offset) -> Option<int>
    decreases bases.len(),
{
    if bases.len() == 0 {
        None
    } else if bases.last() <= offset {
        Some(bases.len() - 1)
    } else {
        spec_locate(bases.drop_last(), offset)
    }
}

/// Index of `base` among `bases`, or -1.
pub open spec fn spec_index_of(bases: Seq<Offset>, base: Offset) -> int
    decreases bases.len(),
{
    if bases.len() == 0 {
        -1
    } else if bases.last() == base {
        bases.len() - 1
    } else {
        spec_index_of(bases.drop_last(), base)
    }
}

/// The base offsets of `segments`, in order.
pub open spec fn bases_of(segments: Seq<SegmentView>) -> Seq<Offset> {
    Seq::new(segments.len(), |i: int| segments[i].base_offset)
}

impl PartitionView {
    /// The base offsets of the segments, in order.
    pub open spec fn bases(self) -> Seq<Offset> {
        bases_of(self.segments)
    }

    /// Whether the partition is well formed but for `pending` bytes of its last
    /// segment that the write offset has not been moved behind yet: it has a
    /// segment, its segments are closed, named after their base offsets and
    /// ordered by them, none reaches beyond the largest offset, the last is the
    /// active one, and the write offset is no more than `pending` bytes before
    /// the end of it.
    pub open spec fn wf_pending(self, pending: nat) -> bool {
        &&& self.path == spec_partition_path(self.topic, self.partition)
        &&& self.segments.len() > 0
        &&& ascending(self.bases())
        &&& forall|i: int|
            0 <= i < self.segments.len() ==> (#[trigger] self.segments[i]) == SegmentView::stored(
                self.path,
                self.segments[i].base_offset,
                self.segments[i].data,
            )
        &&& forall|i: int|
            0 <= i < self.segments.len() ==> (#[trigger] self.segments[i]).end_offset()
                <= Offset::MAX
        &&& self.active_base_offset == self.segments.last().base_offset
        &&& self.segments.last().end_offset() <= self.write_offset + pending
    }

    /// A partition is well formed where it has a segment, its segments are
    /// closed, named after their base offsets and ordered by them, none reaches
    /// beyond the largest offset, the last is the active one, and the write
    /// offset is not before the end of it.
    pub open spec fn wf(self) -> bool {
        self.wf_pending(0)
    }

    /// A partition is aligned where each segment ends where the next begins
    /// and the last ends at the write offset.
    pub open spec fn aligned(self) -> bool {
        &&& forall|i: int|
            0 <= i < self.segments.len() - 1 ==> (#[trigger] self.segments[i]).end_offset()
                == self.segments[i + 1].base_offset
        &&& self.segments.last().end_offset() == self.write_offset
    }

    /// A partition that holds nothing yet: one empty segment at offset 0.
    pub open spec fn fresh(topic: Seq<char>, partition: u32) -> PartitionView {
        let path = spec_partition_path(topic, partition);
        PartitionView {
            topic,
            partition,
            path,
            segments: seq![SegmentView::stored(path, 0, Seq::empty())],
            write_offset: 0,
            active_base_offset: 0,
            segment_count: 1,
        }
    }

    /// Whether the segments are those that `files` hold, one for each file,
    /// in any order.
    pub open spec fn holds_files(self, files: Seq<StoredFile>) -> bool {
        self.segments.to_multiset() == file_segments(self.path, files).to_multiset()
    }

    /// Whether this is the partition that `files` hold: a fresh one where
    /// there are no files; else their segments in the order of their base
    /// offsets, counted, with the write offset at the end of the last one.
    pub open spec fn is_recovery(self, topic: Seq<char>, partition: u32, files: Seq<StoredFile>) -> bool {
        if files.len() == 0 {
            self == PartitionView::fresh(topic, partition)
        } else {
            &&& self.topic == topic
            &&& self.partition == partition
            &&& self.wf()
            &&& self.holds_files(files)
            &&& self.segment_count == files.len()
            &&& self.write_offset == self.segments.last().end_offset()
        }
    }

    /// Index of the segment that owns `offset`, if any.
    pub open spec fn locate(self, offset: Offset) -> Option<int> {
        spec_locate(self.bases(), offset)
    }

    /// Index of the segment that starts at `base`, or -1.
    pub open spec fn index_of(self, base: Offset) -> int {
        spec_index_of(self.bases(), base)
    }

    /// Whether `bytes` more bytes fit behind the write offset and behind
    /// segment `i`.
    pub open spec fn has_room(self, i: int, bytes: nat) -> bool {
        &&& self.write_offset + bytes <= Offset::MAX
        &&& self.segments[i].end_offset() + bytes <= Offset::MAX
    }

    /// Why `bytes` bytes cannot be appended to the segment that starts at
    /// `base`, if they cannot: the partition has no such segment, or the bytes
    /// would reach beyond the largest offset.
    pub open spec fn refusal(self, base: Offset, bytes: nat) -> Option<PartitionError> {
        let i = self.index_of(base);
        if i < 0 {
            Some(PartitionError::SegmentNotFound)
        } else if !self.has_room(i, bytes) {
            Some(PartitionError::OffsetOverflow)
        } else {
            None
        }
    }

    /// The record that the segment that starts at `base` holds at `position`,
    /// counted from the segment's first byte; empty where the partition has no
    /// such segment or the segment holds no byte there.
    pub open spec fn record_at(self, base: Offset, position: int) -> Seq<u8> {
        let i = self.index_of(base);
        if i < 0 {
            Seq::empty()
        } else {
            spec_next_record(self.segments[i].data, position)
        }
    }

    /// The partition with `record` written behind the bytes of segment `i`.
    pub open spec fn with_record(self, i: int, record: Seq<u8>) -> PartitionView {
        PartitionView {
            segments: self.segments.update(i, self.segments[i].appended(record)),
            ..self
        }
    }

    /// What moving the write offset by `bytes` does to the active segment,
    /// after a write to the segment that starts at `written_to`: nothing where
    /// that segment is no longer the active one; a new segment where the
    /// segments started so far, at `SEGMENT_SIZE` bytes each, hold less than
    /// the new write offset.
    pub open spec fn advance_outcome(self, bytes: u64, written_to: Offset) -> AppendOutcome {
        if self.active_base_offset > written_to {
            AppendOutcome::Superseded
        } else if self.segment_count * SEGMENT_SIZE < self.write_offset + bytes {
            AppendOutcome::RolledOver
        } else {
            AppendOutcome::Unchanged
        }
    }

    /// The partition after its write offset moved by `bytes`, following a
    /// write to the segment that starts at `written_to`. On a rollover the
    /// count of segments grows by one and an empty segment that starts at the
    /// new write offset becomes the active one.
    pub open spec fn advanced(self, bytes: u64, written_to: Offset) -> PartitionView {
        let write_offset = (self.write_offset + bytes) as Offset;
        if self.advance_outcome(bytes, written_to) == AppendOutcome::RolledOver {
            PartitionView {
                write_offset,
                active_base_offset: write_offset,
                segment_count: (self.segment_count + 1) as u64,
                segments: if write_offset > self.active_base_offset {
                    self.segments.push(SegmentView::stored(self.path, write_offset, Seq::empty()))
                } else {
                    self.segments
                },
                ..self
            }
        } else {
            PartitionView { write_offset, ..self }
        }
    }

    /// The partition after `record` was appended to the segment that starts at
    /// `base`.
    pub open spec fn appended(self, base: Offset, record: Seq<u8>) -> PartitionView {
        self.with_record(self.index_of(base), record).advanced(record.len() as u64, base)
    }

    /// What appending `record` to the segment that starts at `base` does to
    /// the active segment.
    pub open spec fn append_outcome(self, base: Offset, record: Seq<u8>) -> AppendOutcome {
        self.advance_outcome(record.len() as u64, base)
    }
}

/// In ascending offsets the segment that `spec_locate` names owns the offset,
/// and no other does.
pub proof fn lemma_locate_owns(bases: Seq<Offset>, offset: Offset)
    requires
        ascending(bases),
    ensures
        match spec_locate(bases, offset) {
            Some(i) => owns(bases, i, offset),
            None => bases.len() == 0 || offset < bases[0],
        },
        forall|i: int| owns(bases, i, offset) ==> spec_locate(bases, offset) == Some(i),
    decreases bases.len(),
{
    if bases.len() > 0 {
        let front = bases.drop_last();
        assert(ascending(front)) by {
            assert forall|i: int, j: int| 0 <= i < j < front.len() implies front[i] < front[j] by {
                assert(bases[i] < bases[j]);
            }
        }
        lemma_locate_owns(front, offset);
        if bases.last() <= offset {
            assert forall|i: int| owns(bases, i, offset) implies i == bases.len() - 1 by {
                if i + 1 < bases.len() {
                    assert(bases[i + 1] <= bases[bases.len() - 1]) by {
                        if i + 1 < bases.len() - 1 {
                            assert(bases[i + 1] < bases[bases.len() - 1]);
                        }
                    }
                }
            }
        } else {
            match spec_locate(front, offset) {
                Some(i) => {
                    assert(front[i] == bases[i]);
                    if i + 1 < front.len() {
                        assert(front[i + 1] == bases[i + 1]);
                    }
                },
                None => {
                    if front.len() > 0 {
                        assert(front[0] == bases[0]);
                    }
                },
            }
            assert forall|i: int| owns(bases, i, offset) implies spec_locate(bases, offset)
                == Some(i) by {
                assert(i < bases.len() - 1);
                assert(front[i] == bases[i]);
                if i + 1 < front.len() {
                    assert(front[i + 1] == bases[i + 1]);
                }
                assert(owns(front, i, offset));
            }
        }
    }
}

/// In ascending offsets `spec_index_of` finds the one place of a base.
pub proof fn lemma_index_of(bases: Seq<Offset>, base: Offset)
    ensures
        -1 <= spec_index_of(bases, base) < bases.len(),
        spec_index_of(bases, base) >= 0 ==> bases[spec_index_of(bases, base)] == base,
        spec_index_of(bases, base) < 0 ==> forall|i: int|
            0 <= i < bases.len() ==> bases[i] != base,
        ascending(bases) ==> forall|i: int|
            0 <= i < bases.len() && bases[i] == base ==> spec_index_of(bases, base) == i,
    decreases bases.len(),
{
    if bases.len() > 0 {
        let front = bases.drop_last();
        lemma_index_of(front, base);
        if bases.last() != base {
            let k = spec_index_of(front, base);
            if k >= 0 {
                assert(front[k] == bases[k]);
            } else {
                assert forall|i: int| 0 <= i < bases.len() implies bases[i] != base by {
                    if i < front.len() {
                        assert(front[i] == bases[i]);
                    }
                }
            }
        }
        if ascending(bases) {
            assert(ascending(front)) by {
                assert forall|i: int, j: int| 0 <= i < j < front.len() implies front[i]
                    < front[j] by {
                    assert(bases[i] < bases[j]);
                }
            }
            assert forall|i: int| 0 <= i < bases.len() && bases[i] == base implies spec_index_of(
                bases,
                base,
            ) == i by {
                if bases.last() == base {
                    if i < bases.len() - 1 {
                        assert(bases[i] < bases[bases.len() - 1]);
                    }
                } else {
                    assert(front[i] == bases[i]);
                }
            }
        }
    }
}

/// Finds the segment that owns `offset` among ascending base offsets: the one
/// whose base is not behind `offset` while the next one's is. There is none
/// where the list is empty or `offset` lies before its first base.
pub fn locate_segment(bases: &Vec<Offset>, offset: Offset) -> (r: Option<usize>)
    requires
        ascending(bases@),
    ensures
        r is Some <==> bases@.len() > 0 && bases@[0] <= offset,
        r is Some ==> owns(bases@, r.unwrap() as int, offset),
        match r {
            Some(i) => spec_locate(bases@, offset) == Some(i as int),
            None => spec_locate(bases@, offset) is None,
        },
{
    let mut i: usize = 0;
    while i < bases.len()
        invariant
            i < bases@.len() || (i == 0 && bases@.len() == 0),
            ascending(bases@),
            i > 0 ==> bases@[i as int] <= offset,
        decreases bases@.len() - i,
    {
        proof {
            lemma_locate_owns(bases@, offset);
            if i > 0 {
                assert(bases@[0] < bases@[i as int]);
            }
        }
        if offset < bases[i] {
            return None;
        }
        if i + 1 < bases.len() && offset >= bases[i + 1] {
            i = i + 1;
        } else {
            assert(owns(bases@, i as int, offset));
            return Some(i);
        }
    }
    None
}

/// Whether `files` are the files that hold `partition`: one for each segment,
/// in order, named after its base offset, with its bytes.
pub open spec fn is_listing(files: Seq<StoredFile>, partition: PartitionView) -> bool {
    &&& files.len() == partition.segments.len()
    &&& forall|i: int|
        0 <= i < files.len() ==> (#[trigger] files[i]).name@ == spec_segment_name_bytes(
            partition.segments[i].base_offset,
        ) && files[i].data@ == partition.segments[i].data
}

impl View for Partition {
    type V = PartitionView;

    closed spec fn view(&self) -> PartitionView {
        PartitionView {
            topic: self.topic@,
            partition: self.partition,
            path: self.path@,
            segments: Seq::new(self.segments@.len(), |i: int| self.segments@[i]@),
            write_offset: self.write_offset,
            active_base_offset: self.active_base_offset,
            segment_count: self.segment_count,
        }
    }
}

impl Partition {
    /// Whether the partition is well formed.
    pub open spec fn wf(&self) -> bool {
        self@.wf()
    }

    /// A partition that holds nothing yet: one empty segment at offset 0,
    /// which is the active one.
    pub fn new(topic: String, part: u32) -> (partition: Partition)
        ensures
            partition@ == PartitionView::fresh(topic@, part),
            partition.wf(),
    {
        let path = partition_path(&topic, part);
        let first = Segment::new(path.clone(), 0);
        let mut segments: Vec<Segment> = Vec::new();
        segments.push(first);
        let partition = Partition {
            path,
            topic,
            partition: part,
            segments,
            write_offset: 0,
            active_base_offset: 0,
            segment_count: 1,
        };
        assert(partition@.segments =~= PartitionView::fresh(topic@, part).segments);
        partition
    }

    /// Name of the topic.
    pub fn topic(&self) -> (topic: &String)
        ensures
            topic@ == self@.topic,
    {
        &self.topic
    }

    /// Number of the partition within its topic.
    pub fn partition(&self) -> (partition: u32)
        ensures
            partition == self@.partition,
    {
        self.partition
    }

    /// Directory of the partition's segment files.
    pub fn path(&self) -> (path: &String)
        ensures
            path@ == self@.path,
    {
        &self.path
    }

    /// Offset at which the next appended byte lands.
    pub fn write_offset(&self) -> (offset: Offset)
        ensures
            offset == self@.write_offset,
    {
        self.write_offset
    }

    /// Base offset of the segment that appends go to.
    pub fn active_base_offset(&self) -> (offset: Offset)
        ensures
            offset == self@.active_base_offset,
    {
        self.active_base_offset
    }

    /// Number of segments started so far.
    pub fn segment_count(&self) -> (count: u64)
        ensures
            count == self@.segment_count,
    {
        self.segment_count
    }

    /// The segments, in the order of their base offsets.
    pub fn segments(&self) -> (segments: &Vec<Segment>)
        ensures
            segments@.len() == self@.segments.len(),
            forall|i: int| 0 <= i < segments@.len() ==> (#[trigger] segments@[i])@ == self@.segments[i],
    {
        &self.segments
    }

    /// The base offsets of the segments, ascending.
    pub fn segment_offsets(&self) -> (bases: Vec<Offset>)
        ensures
            bases@ == self@.bases(),
    {
        let mut bases: Vec<Offset> = Vec::new();
        let mut i: usize = 0;
        while i < self.segments.len()
            invariant
                i <= self.segments@.len(),
                bases@.len() == i,
                forall|k: int| 0 <= k < i ==> bases@[k] == self@.segments[k].base_offset,
            decreases self.segments@.len() - i,
        {
            bases.push(self.segments[i].base_offset());
            i = i + 1;
        }
        assert(bases@ =~= self@.bases());
        bases
    }

    /// Path of the file of the segment that starts at `base_offset`.
    pub fn log_filename(&self, base_offset: Offset) -> (name: String)
        ensures
            name@ == spec_log_filename(self@.path, base_offset),
    {
        log_filename(&self.path, base_offset)
    }

    /// Finds the segment that owns `offset`: the one whose base is not behind
    /// `offset` while the next one's is. There is none where `offset` lies
    /// before the first segment.
    pub fn locate_segment(&self, offset: Offset) -> (r: Option<usize>)
        requires
            self.wf(),
        ensures
            r is Some <==> self@.segments[0].base_offset <= offset,
            r is Some ==> owns(self@.bases(), r.unwrap() as int, offset),
            match r {
                Some(i) => self@.locate(offset) == Some(i as int),
                None => self@.locate(offset) is None,
            },
    {
        let bases = self.segment_offsets();
        locate_segment(&bases, offset)
    }

    /// Index of the segment that starts at `base_offset`.
    pub fn find_segment(&self, base_offset: Offset) -> (r: Option<usize>)
        ensures
            match r {
                Some(i) => self@.index_of(base_offset) == i,
                None => self@.index_of(base_offset) < 0,
            },
    {
        let ghost bases = self@.bases();
        let mut i: usize = self.segments.len();
        assert(bases.take(i as int) =~= bases);
        while i > 0
            invariant
                i <= self.segments@.len(),
                bases == self@.bases(),
                spec_index_of(bases, base_offset) == spec_index_of(bases.take(i as int), base_offset),
            decreases i,
        {
            proof {
                let t = bases.take(i as int);
                assert(t.drop_last() =~= bases.take(i - 1));
                assert(t.last() == bases[i - 1]);
            }
            if self.segments[i - 1].base_offset() == base_offset {
                return Some(i - 1);
            }
            i = i - 1;
        }
        None
    }

    /// The file to append to: the path and the base offset of the active
    /// segment.
    pub fn open_latest_segment_for_appending(&self) -> (r: (String, Offset))
        ensures
            r.1 == self@.active_base_offset,
            r.0@ == spec_log_filename(self@.path, self@.active_base_offset),
    {
        (log_filename(&self.path, self.active_base_offset), self.active_base_offset)
    }

    /// The file to read the segment that starts at `base_offset` from: its
    /// path. Fails where the partition has no such segment.
    pub fn open_consumer_segment_at_offset(&self, base_offset: Offset) -> (r: Result<
        String,
        PartitionError,
    >)
        ensures
            self@.index_of(base_offset) < 0 ==> r == Err::<String, PartitionError>(
                PartitionError::SegmentNotFound,
            ),
            self@.index_of(base_offset) >= 0 ==> r is Ok && r.unwrap()@ == spec_log_filename(
                self@.path,
                base_offset,
            ),
    {
        match self.find_segment(base_offset) {
            None => Err(PartitionError::SegmentNotFound),
            Some(_) => Ok(log_filename(&self.path, base_offset)),
        }
    }

    /// Reads one record for a consumer: opens the segment that starts at
    /// `base_offset` in the consumer's role, seeks to `position`, reads the
    /// bytes up to and with the next newline, or up to the segment's end where
    /// no newline follows, and closes the segment again. The record is empty
    /// where the segment holds no byte at `position`. The partition is
    /// afterwards as it was. Fails where the partition has no such segment.
    pub fn read_record(&mut self, base_offset: Offset, position: u64) -> (r: Result<
        Vec<u8>,
        PartitionError,
    >)
        requires
            old(self).wf(),
        ensures
            final(self).wf(),
            final(self)@ == old(self)@,
            old(self)@.index_of(base_offset) < 0 ==> r == Err::<Vec<u8>, PartitionError>(
                PartitionError::SegmentNotFound,
            ),
            old(self)@.index_of(base_offset) >= 0 ==> r is Ok && r.unwrap()@ == old(
                self,
            )@.record_at(base_offset, position as int),
    {
        let i = match self.find_segment(base_offset) {
            None => {
                return Err(PartitionError::SegmentNotFound);
            },
            Some(i) => i,
        };
        proof {
            lemma_index_of(self@.bases(), base_offset);
        }
        let segment = &mut self.segments[i];
        segment.open(Client::Consumer);
        segment.seek(position);
        let record = segment.read_record();
        segment.close();
        assert(self@.segments =~= old(self)@.segments);
        match record {
            Ok(record) => Ok(record),
            Err(_) => Err(PartitionError::SegmentNotFound),
        }
    }

    /// Why `bytes` bytes cannot be appended to the segment that starts at
    /// `base_offset`, if they cannot: the partition has no such segment, or the
    /// bytes would reach beyond the largest offset.
    pub fn check_append(&self, base_offset: Offset, bytes: usize) -> (r: Option<PartitionError>)
        ensures
            r == self@.refusal(base_offset, bytes as nat),
    {
        let i = match self.find_segment(base_offset) {
            None => {
                return Some(PartitionError::SegmentNotFound);
            },
            Some(i) => i,
        };
        proof {
            lemma_index_of(self@.bases(), base_offset);
        }
        let bytes: u64 = bytes as u64;
        let stored = &self.segments[i];
        assert(stored@ == self@.segments[i as int]);
        if bytes > u64::MAX - self.write_offset || stored.len() > u64::MAX
            - stored.base_offset() || bytes > u64::MAX - (stored.base_offset() + stored.len()) {
            Some(PartitionError::OffsetOverflow)
        } else {
            None
        }
    }

    /// Moves the write offset by `bytes` and starts a new segment where the
    /// mark is crossed.
    #[verifier::rlimit(40)]
    fn advance(&mut self, bytes: u64, written_to: Offset) -> (outcome: AppendOutcome)
        requires
            old(self)@.wf_pending(bytes as nat),
            old(self)@.write_offset + bytes <= Offset::MAX,
        ensures
            final(self).wf(),
            outcome == old(self)@.advance_outcome(bytes, written_to),
            final(self)@ == old(self)@.advanced(bytes, written_to),
    {
        let write_offset: u64 = self.write_offset + bytes;
        self.write_offset = write_offset;
        if self.active_base_offset > written_to {
            assert(self@.segments =~= old(self)@.segments);
            return AppendOutcome::Superseded;
        }
        if (self.segment_count as u128) * (SEGMENT_SIZE as u128) < write_offset as u128 {
            self.segment_count = self.segment_count + 1;
            if write_offset > self.active_base_offset {
                let next = Segment::new(self.path.clone(), write_offset);
                self.segments.push(next);
                assert(self@.segments =~= old(self)@.segments.push(
                    SegmentView::stored(self@.path, write_offset, Seq::empty()),
                ));
                proof {
                    let before = old(self)@;
                    let after = self@;
                    assert(ascending(after.bases())) by {
                        assert forall|i: int, j: int| 0 <= i < j < after.bases().len() implies
                            after.bases()[i] < after.bases()[j] by {
                            if j < before.bases().len() {
                                assert(before.bases()[i] < before.bases()[j]);
                            } else {
                                let last = before.bases().len() - 1;
                                if i < last {
                                    assert(before.bases()[i] < before.bases()[last]);
                                }
                            }
                        }
                    }
                }
            } else {
                assert(self@.segments =~= old(self)@.segments);
            }
            self.active_base_offset = write_offset;
            AppendOutcome::RolledOver
        } else {
            assert(self@.segments =~= old(self)@.segments);
            AppendOutcome::Unchanged
        }
    }

    /// Moves the write offset by `bytes_just_written` after a write to the
    /// segment that starts at `written_to`, and starts a new segment where the
    /// mark is crossed: where the segments started so far, at `SEGMENT_SIZE`
    /// bytes each, hold less than the new write offset. Where another writer
    /// has started a new segment since, only the write offset moves. Fails,
    /// and changes nothing, where the write offset would pass the largest
    /// offset.
    pub fn rollover_check_and_advance(&mut self, bytes_just_written: u64, written_to: Offset) -> (r:
        Result<AppendOutcome, PartitionError>)
        requires
            old(self).wf(),
        ensures
            final(self).wf(),
            final(self)@.write_offset >= old(self)@.write_offset,
            old(self)@.write_offset + bytes_just_written > Offset::MAX ==> r == Err::<
                AppendOutcome,
                PartitionError,
            >(PartitionError::OffsetOverflow) && final(self)@ == old(self)@,
            old(self)@.write_offset + bytes_just_written <= Offset::MAX ==> r == Ok::<
                AppendOutcome,
                PartitionError,
            >(old(self)@.advance_outcome(bytes_just_written, written_to)) && final(self)@
                == old(self)@.advanced(bytes_just_written, written_to),
    {
        if bytes_just_written > u64::MAX - self.write_offset {
            return Err(PartitionError::OffsetOverflow);
        }
        Ok(self.advance(bytes_just_written, written_to))
    }

    /// Appends `record` to the segment that starts at `base_offset`, moves the
    /// write offset behind it, and starts a new segment where the mark is
    /// crossed. Fails, and changes nothing, where the partition has no such
    /// segment or the bytes would reach beyond the largest offset.
    #[verifier::rlimit(40)]
    pub fn append_to(&mut self, base_offset: Offset, record: &[u8]) -> (r: Result<
        AppendOutcome,
        PartitionError,
    >)
        requires
            old(self).wf(),
        ensures
            final(self).wf(),
            final(self)@.write_offset >= old(self)@.write_offset,
            r is Ok ==> final(self)@.write_offset == old(self)@.write_offset + record@.len(),
            match old(self)@.refusal(base_offset, record@.len()) {
                Some(e) => r == Err::<AppendOutcome, PartitionError>(e) && final(self)@ == old(
                    self,
                )@,
                None => r == Ok::<AppendOutcome, PartitionError>(
                    old(self)@.append_outcome(base_offset, record@),
                ) && final(self)@ == old(self)@.appended(base_offset, record@),
            },
    {
        let i = match self.find_segment(base_offset) {
            None => {
                return Err(PartitionError::SegmentNotFound);
            },
            Some(i) => i,
        };
        proof {
            lemma_index_of(self@.bases(), base_offset);
        }
        let bytes: u64 = record.len() as u64;
        let end: u64 = self.segments[i].base_offset() + self.segments[i].len();
        if bytes > u64::MAX - self.write_offset || bytes > u64::MAX - end {
            return Err(PartitionError::OffsetOverflow);
        }
        let segment = &mut self.segments[i];
        segment.open(Client::Producer);
        let written = segment.write(record);
        segment.close();
        proof {
            let before = old(self)@;
            let after = self@;
            assert(after.segments =~= before.with_record(i as int, record@).segments);
            assert(after.bases() =~= before.bases());
        }
        Ok(self.advance(bytes, base_offset))
    }

    /// Appends `record` to the active segment.
    pub fn append(&mut self, record: &[u8]) -> (r: Result<AppendOutcome, PartitionError>)
        requires
            old(self).wf(),
        ensures
            final(self).wf(),
            final(self)@.write_offset >= old(self)@.write_offset,
            r is Ok ==> final(self)@.write_offset == old(self)@.write_offset + record@.len(),
            r is Ok <==> old(self)@.write_offset + record@.len() <= Offset::MAX,
            ({
                let before = old(self)@;
                let i = before.segments.len() - 1;
                if !before.has_room(i, record@.len()) {
                    r == Err::<AppendOutcome, PartitionError>(PartitionError::OffsetOverflow)
                        && final(self)@ == before
                } else {
                    r == Ok::<AppendOutcome, PartitionError>(
                        before.append_outcome(before.active_base_offset, record@),
                    ) && final(self)@ == before.appended(before.active_base_offset, record@)
                }
            }),
    {
        proof {
            lemma_index_of(self@.bases(), self@.active_base_offset);
            assert(self@.bases()[self@.segments.len() - 1] == self@.active_base_offset);
        }
        let base = self.active_base_offset;
        self.append_to(base, record)
    }
}

impl Partition {
    /// Rebuilds a partition from the files of its directory. With no files it
    /// is a fresh partition. Else each file is a segment, named by its base
    /// offset; the one with the largest base offset is the active one, and the
    /// write offset lies at its end. Fails where a name stands for no offset;
    /// else where two names stand for one offset; else where a file's bytes
    /// reach beyond the largest offset.
    #[verifier::rlimit(40)]
    pub fn recover(topic: String, part: u32, files: &Vec<StoredFile>) -> (r: Result<
        Partition,
        PartitionError,
    >)
        ensures
            match spec_recover_error(files@) {
                Some(e) => r == Err::<Partition, PartitionError>(e),
                None => r is Ok && r.unwrap()@.is_recovery(topic@, part, files@),
            },
    {
        if files.len() == 0 {
            return Ok(Partition::new(topic, part));
        }
        let bases = match parse_names(files) {
            Err(e) => {
                return Err(e);
            },
            Ok(bases) => bases,
        };
        let path = partition_path(&topic, part);
        let segments = match ordered_segments(&path, files, &bases) {
            None => {
                return Err(PartitionError::DuplicateSegment);
            },
            Some(segments) => segments,
        };
        let ghost held = segment_views(segments@);
        let ghost count = files@.len() as int;
        assert(file_segments(path@, files@).take(count) =~= file_segments(path@, files@));
        if !segments_fit(&segments) {
            proof {
                let j = choose|j: int|
                    0 <= j < segments@.len() && !((#[trigger] segments@[j])@.end_offset()
                        <= Offset::MAX);
                let i = lemma_held_segment_is_file(held, j, path@, files@, count);
                assert(!(file_base(files@[i]).unwrap() + files@[i].data@.len() <= Offset::MAX));
            }
            return Err(PartitionError::OffsetOverflow);
        }
        proof {
            assert forall|i: int| 0 <= i < files@.len() implies file_base(
                #[trigger] files@[i],
            ).unwrap() + files@[i].data@.len() <= Offset::MAX by {
                let j = lemma_file_is_held(held, i, path@, files@, count);
                assert(segments@[j]@.end_offset() <= Offset::MAX);
            }
            held.to_multiset_ensures();
            file_segments(path@, files@).to_multiset_ensures();
        }
        let last: usize = segments.len() - 1;
        let active_base_offset = segments[last].base_offset();
        let write_offset = active_base_offset + segments[last].len();
        let partition = Partition {
            path,
            topic,
            partition: part,
            segments,
            write_offset,
            active_base_offset,
            segment_count: files.len() as u64,
        };
        proof {
            let v = partition@;
            assert(v.segments =~= held);
            assert forall|j: int| 0 <= j < v.segments.len() implies (#[trigger] v.segments[j])
                == SegmentView::stored(v.path, v.segments[j].base_offset, v.segments[j].data) by {
                let i = lemma_held_segment_is_file(held, j, path@, files@, count);
            }
        }
        Ok(partition)
    }

    /// Replaces the partition by the one that `files` hold, as `recover`
    /// builds it. Where they hold none the partition stays as it is and the
    /// call fails as `recover` does.
    pub fn fill_segments(&mut self, files: &Vec<StoredFile>) -> (r: Result<(), PartitionError>)
        ensures
            match spec_recover_error(files@) {
                Some(e) => r == Err::<(), PartitionError>(e) && final(self)@ == old(self)@,
                None => r is Ok && final(self)@.is_recovery(
                    old(self)@.topic,
                    old(self)@.partition,
                    files@,
                ),
            },
    {
        match Partition::recover(self.topic.clone(), self.partition, files) {
            Ok(partition) => {
                *self = partition;
                Ok(())
            },
            Err(e) => Err(e),
        }
    }

    /// The files that hold the partition: one for each segment, in order,
    /// named after its base offset.
    pub fn listing(&self) -> (files: Vec<StoredFile>)
        ensures
            is_listing(files@, self@),
    {
        let mut files: Vec<StoredFile> = Vec::new();
        let mut i: usize = 0;
        while i < self.segments.len()
            invariant
                i <= self.segments@.len(),
                files@.len() == i,
                forall|k: int|
                    0 <= k < i ==> (#[trigger] files@[k]).name@ == spec_segment_name_bytes(
                        self@.segments[k].base_offset,
                    ) && files@[k].data@ == self@.segments[k].data,
            decreases self.segments@.len() - i,
        {
            let segment = &self.segments[i];
            let file = StoredFile {
                name: segment_name_bytes(segment.base_offset()),
                data: slice_to_vec(segment.data().as_slice()),
            };
            files.push(file);
            i = i + 1;
        }
        files
    }
}

} // verus!
