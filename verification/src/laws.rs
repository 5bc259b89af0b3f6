//! What holds of every partition and every session, proved from the models of
//! the other modules.

use vstd::prelude::*;
use crate::Offset;
use crate::consumer::{spec_scan, ConsumerActionView, ConsumerState, ConsumerView};
use crate::naming::lemma_segment_name_round_trip;
use crate::partition::{
    ascending, bases_of, is_listing, lemma_index_of, lemma_locate_owns, owns, AppendOutcome,
    PartitionView, SEGMENT_SIZE,
};
use crate::recovery::{
    file_segments, files_fit, lemma_file_is_held, lemma_held_segment_is_file,
    names_distinct, spec_recover_error,
};
use crate::scan::{
    file_base, file_bases, is_largest, names_valid, spec_segment_count, StoredFile,
};
use crate::records::{
    is_record, lemma_record_end_first_newline, lemma_record_end_is, spec_next_record,
};
use crate::segment::SegmentView;
use crate::wire::{be_bytes, law_offset_round_trip};

verus! {

/// The number of bytes in `records`.
pub open spec fn total_len(records: Seq<Seq<u8>>) -> nat
    decreases records.len(),
{
    if records.len() == 0 {
        0
    } else {
        total_len(records.drop_last()) + records.last().len()
    }
}

/// The partition after a producer appended `records`, one after the other,
/// each to the segment that was the active one at its turn.
pub open spec fn append_all(partition: PartitionView, records: Seq<Seq<u8>>) -> PartitionView
    decreases records.len(),
{
    if records.len() == 0 {
        partition
    } else {
        let before = append_all(partition, records.drop_last());
        before.appended(before.active_base_offset, records.last())
    }
}

/// In a well-formed partition the active segment is the last one.
pub proof fn lemma_active_is_last(partition: PartitionView)
    requires
        partition.wf(),
    ensures
        partition.index_of(partition.active_base_offset) == partition.segments.len() - 1,
{
    lemma_index_of(partition.bases(), partition.active_base_offset);
    assert(partition.bases()[partition.segments.len() - 1] == partition.active_base_offset);
}

/// An append to the active segment of a well-formed partition, with room for
/// the record behind the write offset, leaves the partition well formed, and
/// aligned where it was.
#[verifier::rlimit(40)]
pub proof fn lemma_append_keeps_wf(partition: PartitionView, record: Seq<u8>)
    requires
        partition.wf(),
        partition.write_offset + record.len() <= Offset::MAX,
    ensures
        partition.has_room(partition.segments.len() - 1, record.len()),
        partition.appended(partition.active_base_offset, record).wf(),
        partition.aligned() ==> partition.appended(partition.active_base_offset, record).aligned(),
        partition.appended(partition.active_base_offset, record).write_offset
            == partition.write_offset + record.len(),
{
    lemma_active_is_last(partition);
    let last = partition.segments.len() - 1;
    let written = partition.with_record(last, record);
    let after = partition.appended(partition.active_base_offset, record);
    assert(written.bases() =~= partition.bases());
    assert(written.segments[last].end_offset() == partition.segments[last].end_offset()
        + record.len());
    if partition.advance_outcome(record.len() as u64, partition.active_base_offset)
        == AppendOutcome::RolledOver && partition.write_offset + record.len()
        > partition.active_base_offset {
        assert forall|i: int, j: int| 0 <= i < j < after.bases().len() implies after.bases()[i]
            < after.bases()[j] by {
            if j < last + 1 {
                assert(partition.bases()[i] < partition.bases()[j]);
            } else if i < last {
                assert(partition.bases()[i] < partition.bases()[last]);
            }
        }
        if partition.aligned() {
            assert forall|i: int| 0 <= i < after.segments.len() - 1 implies (
            #[trigger] after.segments[i]).end_offset() == after.segments[i + 1].base_offset by {
                if i < last {
                    assert(partition.segments[i].end_offset() == partition.segments[i
                        + 1].base_offset);
                }
            }
        }
    } else {
        assert(after.bases() =~= partition.bases());
        if partition.aligned() {
            assert forall|i: int| 0 <= i < after.segments.len() - 1 implies (
            #[trigger] after.segments[i]).end_offset() == after.segments[i + 1].base_offset by {
                assert(partition.segments[i].end_offset() == partition.segments[i
                    + 1].base_offset);
            }
        }
    }
}

/// Offsets only grow, by the bytes appended: after a producer appended
/// `records` to a well-formed partition, the write offset lies behind where it
/// was by the number of their bytes. The partition is still well formed, and
/// aligned where it was.
pub proof fn law_write_offset_is_sum(partition: PartitionView, records: Seq<Seq<u8>>)
    requires
        partition.wf(),
        partition.write_offset + total_len(records) <= Offset::MAX,
    ensures
        append_all(partition, records).write_offset == partition.write_offset + total_len(
            records,
        ),
        append_all(partition, records).write_offset >= partition.write_offset,
        append_all(partition, records).wf(),
        partition.aligned() ==> append_all(partition, records).aligned(),
    decreases records.len(),
{
    if records.len() > 0 {
        law_write_offset_is_sum(partition, records.drop_last());
        lemma_append_keeps_wf(append_all(partition, records.drop_last()), records.last());
    }
}

/// The rollover rule: an append to the active segment starts a new segment
/// exactly where the segments started so far, at `SEGMENT_SIZE` bytes each, hold
/// less than the write offset behind the record. The new segment is empty,
/// starts at that write offset and is the active one, and the count of
/// segments has grown by one.
pub proof fn law_rollover_threshold(partition: PartitionView, record: Seq<u8>)
    requires
        partition.wf(),
        record.len() > 0,
        partition.has_room(partition.segments.len() - 1, record.len()),
    ensures
        ({
            let after = partition.appended(partition.active_base_offset, record);
            let outcome = partition.append_outcome(partition.active_base_offset, record);
            let write_offset = partition.write_offset + record.len();
            &&& outcome != AppendOutcome::Superseded
            &&& outcome == AppendOutcome::RolledOver <==> partition.segment_count * SEGMENT_SIZE
                < write_offset
            &&& outcome == AppendOutcome::RolledOver ==> {
                &&& after.segments.len() == partition.segments.len() + 1
                &&& after.segments.last() == SegmentView::stored(
                    partition.path,
                    write_offset as Offset,
                    Seq::empty(),
                )
                &&& after.active_base_offset == write_offset
                &&& after.segment_count == partition.segment_count + 1
            }
            &&& outcome == AppendOutcome::Unchanged ==> {
                &&& after.segments.len() == partition.segments.len()
                &&& after.active_base_offset == partition.active_base_offset
                &&& after.segment_count == partition.segment_count
            }
        }),
{
    lemma_active_is_last(partition);
}

/// An append to the active segment changes no other segment: what lies before
/// the active segment stays as it is, and the active segment gains the record.
/// So once a new segment has started, nothing more lands in the one before it.
pub proof fn law_append_touches_active_only(partition: PartitionView, record: Seq<u8>, i: int)
    requires
        partition.wf(),
        0 <= i < partition.segments.len(),
    ensures
        ({
            let after = partition.appended(partition.active_base_offset, record);
            &&& i < after.segments.len()
            &&& i < partition.segments.len() - 1 ==> after.segments[i] == partition.segments[i]
            &&& i == partition.segments.len() - 1 ==> after.segments[i]
                == partition.segments[i].appended(record)
        }),
{
    lemma_active_is_last(partition);
}

/// The walk over the segments from `from` on stops at the segment that owns
/// the offset, where that segment holds a byte at the offset.
pub proof fn lemma_scan_finds(partition: PartitionView, offset: Offset, from: int, i: int)
    requires
        partition.wf(),
        0 <= from <= i,
        owns(partition.bases(), i, offset),
        offset - partition.segments[i].base_offset < partition.segments[i].data.len(),
    ensures
        spec_scan(partition, offset, from) == Some(i),
    decreases i - from,
{
    let bases = partition.bases();
    let data = partition.segments[i].data;
    assert(bases[i] == partition.segments[i].base_offset);
    lemma_record_end_first_newline(data, offset - bases[i]);
    if from < i {
        assert(bases[from] < bases[i]);
        assert(bases[from + 1] <= bases[i]) by {
            if from + 1 < i {
                assert(bases[from + 1] < bases[i]);
            }
        }
        assert(bases[from] == partition.segments[from].base_offset);
        assert(bases[from + 1] == partition.segments[from + 1].base_offset);
        lemma_scan_finds(partition, offset, from + 1, i);
    } else {
        if i + 1 < bases.len() {
            assert(bases[i + 1] == partition.segments[i + 1].base_offset);
        }
    }
}

/// The walk finds nothing where no segment owns the offset, and nothing where
/// the one that owns it holds no byte there.
pub proof fn lemma_scan_finds_nothing(partition: PartitionView, offset: Offset, from: int)
    requires
        partition.wf(),
        0 <= from,
        match partition.locate(offset) {
            Some(i) => offset - partition.segments[i].base_offset
                >= partition.segments[i].data.len(),
            None => true,
        },
    ensures
        spec_scan(partition, offset, from) is None,
    decreases partition.segments.len() - from,
{
    let bases = partition.bases();
    lemma_locate_owns(bases, offset);
    if from < partition.segments.len() {
        assert(bases[from] == partition.segments[from].base_offset);
        if offset >= bases[from] {
            if from + 1 < bases.len() {
                assert(bases[from + 1] == partition.segments[from + 1].base_offset);
            }
            if from + 1 < bases.len() && offset >= bases[from + 1] {
                lemma_scan_finds_nothing(partition, offset, from + 1);
            } else {
                assert(owns(bases, from, offset));
                assert(partition.locate(offset) == Some(from));
                lemma_scan_finds_nothing(partition, offset, from + 1);
            }
        }
    }
}

/// The walk agrees with `locate_segment`: from the first segment on it stops
/// at the segment that owns the offset where that segment holds a byte there,
/// and finds nothing else.
pub proof fn law_scan_is_locate(partition: PartitionView, offset: Offset)
    requires
        partition.wf(),
    ensures
        spec_scan(partition, offset, 0) == match partition.locate(offset) {
            Some(i) => if offset - partition.segments[i].base_offset
                < partition.segments[i].data.len() {
                Some(i)
            } else {
                None
            },
            None => None,
        },
{
    lemma_locate_owns(partition.bases(), offset);
    match partition.locate(offset) {
        Some(i) => {
            assert(partition.bases()[i] == partition.segments[i].base_offset);
            if offset - partition.segments[i].base_offset < partition.segments[i].data.len() {
                lemma_scan_finds(partition, offset, 0, i);
            } else {
                lemma_scan_finds_nothing(partition, offset, 0);
            }
        },
        None => {
            lemma_scan_finds_nothing(partition, offset, 0);
        },
    }
}

/// A consumer that asks for the base offset of a segment is served from the
/// first byte of that segment: the first record it is sent is the first record
/// of the segment, and the first byte of the one is the first byte of the
/// other.
pub proof fn law_segment_boundary(partition: PartitionView, i: int)
    requires
        partition.wf(),
        0 <= i < partition.segments.len(),
        partition.segments[i].data.len() > 0,
    ensures
        ({
            let stored = partition.segments[i];
            let first = spec_next_record(stored.data, 0);
            let (session, action) = ConsumerView::fresh().after_handshake(
                partition,
                be_bytes(stored.base_offset),
            );
            &&& action == ConsumerActionView::Send(first)
            &&& first.len() > 0
            &&& first[0] == stored.data[0]
            &&& session.state == ConsumerState::Tailing
            &&& session.offset == stored.base_offset
            &&& session.in_flight == first.len()
            &&& session.segment == Some(stored.base_offset)
        }),
{
    reveal(ConsumerView::tail);
    let stored = partition.segments[i];
    let bases = partition.bases();
    law_offset_round_trip(stored.base_offset);
    lemma_record_end_first_newline(stored.data, 0);
    assert(bases[i] == stored.base_offset);
    assert(owns(bases, i, stored.base_offset)) by {
        if i + 1 < bases.len() {
            assert(bases[i] < bases[i + 1]);
        }
    }
    lemma_scan_finds(partition, stored.base_offset, 0, i);
}

/// Ascending segments that hold the same segments are the same sequence.
pub proof fn lemma_ascending_unique(x: Seq<SegmentView>, y: Seq<SegmentView>)
    requires
        ascending(bases_of(x)),
        ascending(bases_of(y)),
        x.to_multiset() == y.to_multiset(),
    ensures
        x == y,
    decreases x.len(),
{
    x.to_multiset_ensures();
    y.to_multiset_ensures();
    if x.len() == 0 {
        assert(x =~= y);
    } else {
        let n = x.len() - 1;
        assert(y.len() == x.len());
        assert(x.contains(x[n]));
        assert(x.to_multiset().count(x[n]) > 0);
        assert(y.contains(x[n]));
        let j = choose|j: int| 0 <= j < y.len() && y[j] == x[n];
        assert(y.contains(y[n]));
        assert(y.to_multiset().count(y[n]) > 0);
        assert(x.contains(y[n]));
        let k = choose|k: int| 0 <= k < x.len() && x[k] == y[n];
        assert(bases_of(x)[k] == x[k].base_offset);
        assert(bases_of(x)[n] == x[n].base_offset);
        assert(bases_of(y)[j] == y[j].base_offset);
        assert(bases_of(y)[n] == y[n].base_offset);
        if j < n {
            assert(bases_of(y)[j] < bases_of(y)[n]);
            if k < n {
                assert(bases_of(x)[k] < bases_of(x)[n]);
            }
        }
        assert(x[n] == y[n]);
        vstd::seq_lib::to_multiset_remove(x, n);
        vstd::seq_lib::to_multiset_remove(y, n);
        assert(x.remove(n) =~= x.drop_last());
        assert(y.remove(n) =~= y.drop_last());
        assert(ascending(bases_of(x.drop_last()))) by {
            assert forall|a: int, b: int| 0 <= a < b < bases_of(x.drop_last()).len() implies bases_of(
                x.drop_last(),
            )[a] < bases_of(x.drop_last())[b] by {
                assert(bases_of(x)[a] < bases_of(x)[b]);
            }
        }
        assert(ascending(bases_of(y.drop_last()))) by {
            assert forall|a: int, b: int| 0 <= a < b < bases_of(y.drop_last()).len() implies bases_of(
                y.drop_last(),
            )[a] < bases_of(y.drop_last())[b] by {
                assert(bases_of(y)[a] < bases_of(y)[b]);
            }
        }
        lemma_ascending_unique(x.drop_last(), y.drop_last());
        assert(x =~= x.drop_last().push(x[n]));
        assert(y =~= y.drop_last().push(y[n]));
    }
}

/// Recovery gives back what was stored: the files that hold a well-formed
/// partition hold a partition, and the one recovered from them has the same
/// segments and the same active segment, with the write offset at the end of
/// the last segment. Where the partition was aligned that is its own write
/// offset.
#[verifier::rlimit(40)]
pub proof fn law_recovery_restores(
    partition: PartitionView,
    files: Seq<StoredFile>,
    recovered: PartitionView,
)
    requires
        partition.wf(),
        is_listing(files, partition),
        recovered.is_recovery(partition.topic, partition.partition, files),
    ensures
        spec_recover_error(files) is None,
        recovered.segments == partition.segments,
        recovered.path == partition.path,
        recovered.active_base_offset == partition.active_base_offset,
        recovered.write_offset == partition.segments.last().end_offset(),
        recovered.segment_count == partition.segments.len(),
        partition.aligned() ==> recovered.write_offset == partition.write_offset
            && recovered.aligned(),
{
    let bases = partition.bases();
    assert forall|i: int| 0 <= i < files.len() implies file_base(#[trigger] files[i]) == Some(
        partition.segments[i].base_offset,
    ) by {
        lemma_segment_name_round_trip(partition.segments[i].base_offset);
    }
    assert(names_valid(files));
    assert(names_distinct(files)) by {
        assert forall|i: int, j: int| 0 <= i < j < files.len() implies file_base(
            #[trigger] files[i],
        ) != file_base(#[trigger] files[j]) by {
            assert(bases[i] < bases[j]);
        }
    }
    assert(files_fit(files)) by {
        assert forall|i: int| 0 <= i < files.len() implies file_base(
            #[trigger] files[i],
        ).unwrap() + files[i].data@.len() <= Offset::MAX by {
            assert(partition.segments[i].end_offset() <= Offset::MAX);
        }
    }
    assert(file_segments(partition.path, files) =~= partition.segments) by {
        assert forall|i: int| 0 <= i < files.len() implies file_segments(
            partition.path,
            files,
        )[i] == partition.segments[i] by {
            assert(file_base(files[i]) == Some(partition.segments[i].base_offset));
        }
    }
    lemma_ascending_unique(recovered.segments, partition.segments);
    if partition.aligned() {
        assert forall|i: int| 0 <= i < recovered.segments.len() - 1 implies (
        #[trigger] recovered.segments[i]).end_offset() == recovered.segments[i
            + 1].base_offset by {
            assert(partition.segments[i].end_offset() == partition.segments[i + 1].base_offset);
        }
    }
}

/// Offset of the first byte of record `k` in a log that starts at offset 0
/// and holds `records`.
pub open spec fn record_start(records: Seq<Seq<u8>>, k: int) -> nat {
    total_len(records.take(k))
}

/// Whether the partition holds `record` at `offset`, whole and within the
/// segment that owns the offset.
#[verifier::opaque]
pub open spec fn holds_record(partition: PartitionView, offset: Offset, record: Seq<u8>) -> bool {
    match partition.locate(offset) {
        Some(i) => {
            let position = offset - partition.segments[i].base_offset;
            &&& position + record.len() <= partition.segments[i].data.len()
            &&& partition.segments[i].data.subrange(position, position + record.len())
                == record
        },
        None => false,
    }
}

/// What a consumer's session is and hands out at its step `k`, counted from
/// its handshake with the starting offset `start` as step 0, where each thing it
/// hands out is written and the partition stays as it is.
pub open spec fn nth_step(partition: PartitionView, start: Offset, k: nat) -> (
    ConsumerView,
    ConsumerActionView,
)
    decreases k,
{
    if k == 0 {
        ConsumerView::fresh().after_handshake(partition, be_bytes(start))
    } else {
        nth_step(partition, start, (k - 1) as nat).0.after_written(partition)
    }
}

/// The session that has just handed out `record`, which the partition holds
/// at `offset`.
#[verifier::opaque]
pub open spec fn streaming_at(partition: PartitionView, offset: Offset, record: Seq<u8>) -> ConsumerView {
    let i = partition.locate(offset).unwrap();
    ConsumerView {
        state: ConsumerState::Tailing,
        offset,
        in_flight: record.len() as u64,
        segment: Some(partition.segments[i].base_offset),
    }
}

/// The session that has caught up at `offset` and handed out a heartbeat.
pub open spec fn idle_at(offset: Offset) -> ConsumerView {
    ConsumerView { state: ConsumerState::Heartbeating, offset, in_flight: 0, segment: None }
}

/// In a well-formed, aligned partition no segment ends behind the write
/// offset, and each but the last ends where the next begins.
pub proof fn lemma_aligned_ends(partition: PartitionView, i: int)
    requires
        partition.wf(),
        partition.aligned(),
        0 <= i < partition.segments.len(),
    ensures
        partition.segments[i].end_offset() <= partition.write_offset,
        i < partition.segments.len() - 1 ==> partition.segments[i].end_offset()
            == partition.segments[i + 1].base_offset,
        i < partition.segments.len() - 1 ==> partition.segments[i].end_offset()
            <= partition.segments.last().base_offset,
{
    let last = partition.segments.len() - 1;
    let bases = partition.bases();
    if i < last {
        assert(partition.segments[i].end_offset() == partition.segments[i + 1].base_offset);
        assert(bases[i + 1] == partition.segments[i + 1].base_offset);
        assert(bases[last] == partition.segments[last].base_offset);
        if i + 1 < last {
            assert(bases[i + 1] < bases[last]);
        }
    }
}

/// The number of bytes up to record `k + 1` is the number up to record `k`
/// and the bytes of record `k`.
pub proof fn lemma_record_start_next(records: Seq<Seq<u8>>, k: int)
    requires
        0 <= k < records.len(),
    ensures
        record_start(records, k + 1) == record_start(records, k) + records[k].len(),
        record_start(records, k + 1) <= total_len(records),
        record_start(records, 0) == 0,
        record_start(records, records.len() as int) == total_len(records),
    decreases records.len() - k,
{
    assert(records.take(k + 1).drop_last() =~= records.take(k));
    assert(records.take(k + 1).last() == records[k]);
    assert(records.take(records.len() as int) =~= records);
    assert(records.take(0).len() == 0);
    if k + 1 < records.len() {
        lemma_record_start_next(records, k + 1);
    }
}

/// A record that an aligned partition holds is still held, at its offset, after
/// an append to the active segment.
#[verifier::rlimit(40)]
pub proof fn lemma_append_keeps_record(
    partition: PartitionView,
    appended: Seq<u8>,
    offset: Offset,
    record: Seq<u8>,
)
    requires
        partition.wf(),
        partition.aligned(),
        appended.len() > 0,
        partition.write_offset + appended.len() <= Offset::MAX,
        holds_record(partition, offset, record),
        record.len() > 0,
    ensures
        holds_record(partition.appended(partition.active_base_offset, appended), offset, record),
{
    reveal(holds_record);
    let bases = partition.bases();
    let after = partition.appended(partition.active_base_offset, appended);
    let last = partition.segments.len() - 1;
    let i = partition.locate(offset).unwrap();
    lemma_active_is_last(partition);
    lemma_locate_owns(bases, offset);
    lemma_append_keeps_wf(partition, appended);
    lemma_aligned_ends(partition, i);
    assert(bases[i] == partition.segments[i].base_offset);
    assert(offset < partition.write_offset);
    assert(owns(after.bases(), i, offset)) by {
        assert(after.bases()[i] == bases[i]);
        if i + 1 < after.bases().len() {
            if i + 1 < bases.len() {
                assert(after.bases()[i + 1] == bases[i + 1]);
            }
        }
    }
    lemma_locate_owns(after.bases(), offset);
    let position = offset - partition.segments[i].base_offset;
    assert(after.segments[i].data.subrange(position, position + record.len()) =~= record) by {
        assert(partition.segments[i].data.subrange(position, position + record.len())
            == record);
    }
}

/// After an append to the active segment of an aligned partition the
/// partition holds the record at what was its write offset.
pub proof fn lemma_append_holds_record(partition: PartitionView, appended: Seq<u8>)
    requires
        partition.wf(),
        partition.aligned(),
        appended.len() > 0,
        partition.write_offset + appended.len() <= Offset::MAX,
    ensures
        holds_record(
            partition.appended(partition.active_base_offset, appended),
            partition.write_offset,
            appended,
        ),
{
    reveal(holds_record);
    let bases = partition.bases();
    let after = partition.appended(partition.active_base_offset, appended);
    let last = partition.segments.len() - 1;
    lemma_active_is_last(partition);
    lemma_append_keeps_wf(partition, appended);
    assert(bases[last] == partition.segments[last].base_offset);
    assert(owns(after.bases(), last, partition.write_offset)) by {
        assert(after.bases()[last] == bases[last]);
    }
    lemma_locate_owns(after.bases(), partition.write_offset);
    let position = partition.write_offset - partition.segments[last].base_offset;
    assert(after.segments[last].data.subrange(position, position + appended.len())
        =~= appended);
}

/// A log that a producer built from records, starting with a fresh partition,
/// is well formed and aligned, starts at offset 0, ends at the number of the
/// records' bytes, and holds each record at the offset where it starts.
#[verifier::rlimit(40)]
pub proof fn lemma_built_log(topic: Seq<char>, part: u32, records: Seq<Seq<u8>>)
    requires
        forall|k: int| 0 <= k < records.len() ==> is_record(#[trigger] records[k]),
        total_len(records) <= Offset::MAX,
    ensures
        ({
            let log = append_all(PartitionView::fresh(topic, part), records);
            &&& log.wf()
            &&& log.aligned()
            &&& log.write_offset == total_len(records)
            &&& forall|k: int|
                0 <= k < records.len() ==> holds_record(
                    log,
                    record_start(records, k) as Offset,
                    #[trigger] records[k],
                )
        }),
    decreases records.len(),
{
    let fresh = PartitionView::fresh(topic, part);
    assert(fresh.wf() && fresh.aligned()) by {
        assert(fresh.bases() =~= seq![0u64]);
    }
    law_write_offset_is_sum(fresh, records);
    if records.len() > 0 {
        let front = records.drop_last();
        let n = records.len() - 1;
        assert forall|k: int| 0 <= k < front.len() implies is_record(#[trigger] front[k]) by {
            assert(front[k] == records[k]);
        }
        lemma_built_log(topic, part, front);
        law_write_offset_is_sum(fresh, front);
        let before = append_all(fresh, front);
        let log = append_all(fresh, records);
        assert(is_record(records[n]));
        assert forall|k: int| 0 <= k < records.len() implies holds_record(
            log,
            record_start(records, k) as Offset,
            #[trigger] records[k],
        ) by {
            lemma_record_start_next(records, k);
            if k < n {
                lemma_record_start_next(front, k);
                assert(records.take(k) =~= front.take(k));
                assert(front[k] == records[k]);
                assert(is_record(records[k]));
                lemma_append_keeps_record(
                    before,
                    records[n],
                    record_start(records, k) as Offset,
                    records[k],
                );
            } else {
                assert(records.take(k) =~= front);
                lemma_append_holds_record(before, records[n]);
            }
        }
    }
}

/// A session that stands at the start of a record that an aligned partition
/// holds, and streams from no segment or from one that holds no byte behind
/// the session's offset, hands out that record.
#[verifier::rlimit(40)]
pub proof fn lemma_tail_sends(
    partition: PartitionView,
    session: ConsumerView,
    record: Seq<u8>,
    open_index: int,
)
    requires
        partition.wf(),
        partition.aligned(),
        is_record(record),
        holds_record(partition, session.offset, record),
        session.state == ConsumerState::Tailing,
        session.in_flight == 0,
        match session.segment {
            Some(base) => {
                &&& 0 <= open_index < partition.segments.len()
                &&& base == partition.segments[open_index].base_offset
                &&& base <= session.offset <= partition.segments[open_index].end_offset()
            },
            None => true,
        },
    ensures
        session.tail(partition) == (
            streaming_at(partition, session.offset, record),
            ConsumerActionView::Send(record),
        ),
{
    reveal(holds_record);
    reveal(streaming_at);
    reveal(ConsumerView::tail);
    let bases = partition.bases();
    let offset = session.offset;
    let i = partition.locate(offset).unwrap();
    let stored = partition.segments[i];
    let position = offset - stored.base_offset;
    lemma_locate_owns(bases, offset);
    assert(bases[i] == stored.base_offset);
    lemma_aligned_ends(partition, i);
    assert(spec_next_record(stored.data, position) == record) by {
        let end = position + record.len();
        assert forall|k: int| position <= k < end - 1 implies #[trigger] stored.data[k]
            != crate::records::NEWLINE by {
            assert(stored.data.subrange(position, end)[k - position] == stored.data[k]);
            assert(record[k - position] != crate::records::NEWLINE);
        }
        assert(stored.data[end - 1] == crate::records::NEWLINE) by {
            assert(stored.data.subrange(position, end)[record.len() - 1] == stored.data[end - 1]);
        }
        lemma_record_end_is(stored.data, position, end);
    }
    match session.segment {
        Some(base) => {
            let held = partition.segments[open_index];
            assert(bases[open_index] == held.base_offset);
            lemma_index_of(bases, base);
            assert(partition.index_of(base) == open_index);
            lemma_aligned_ends(partition, open_index);
            if open_index == i {
                assert(session.record_at_hand(partition) == record);
            } else {
                if open_index < i {
                    assert(bases[open_index + 1] <= bases[i]) by {
                        if open_index + 1 < i {
                            assert(bases[open_index + 1] < bases[i]);
                        }
                    }
                    assert(bases[open_index + 1] == partition.segments[open_index
                        + 1].base_offset);
                    assert(offset - base == held.data.len());
                    assert(session.record_at_hand(partition).len() == 0);
                    lemma_scan_finds(partition, offset, open_index + 1, i);
                } else {
                    assert(bases[i + 1] <= bases[open_index]) by {
                        if i + 1 < open_index {
                            assert(bases[i + 1] < bases[open_index]);
                        }
                    }
                    assert(false);
                }
            }
        },
        None => {
            lemma_scan_finds(partition, offset, 0, i);
        },
    }
}

/// A session that stands at the write offset of an aligned partition, and
/// streams from no segment or from one that holds no byte behind the
/// session's offset, hands out a heartbeat.
#[verifier::rlimit(40)]
pub proof fn lemma_tail_idles(partition: PartitionView, session: ConsumerView, open_index: int)
    requires
        partition.wf(),
        partition.aligned(),
        session.offset == partition.write_offset,
        session.state == ConsumerState::Tailing,
        session.in_flight == 0,
        match session.segment {
            Some(base) => {
                &&& 0 <= open_index < partition.segments.len()
                &&& base == partition.segments[open_index].base_offset
                &&& base <= session.offset <= partition.segments[open_index].end_offset()
            },
            None => true,
        },
    ensures
        session.tail(partition) == (idle_at(session.offset), ConsumerActionView::Heartbeat),
{
    reveal(ConsumerView::tail);
    let bases = partition.bases();
    let last = partition.segments.len() - 1;
    lemma_active_is_last(partition);
    assert(bases[last] == partition.segments[last].base_offset);
    assert(owns(bases, last, partition.write_offset));
    lemma_locate_owns(bases, partition.write_offset);
    match session.segment {
        Some(base) => {
            let held = partition.segments[open_index];
            assert(bases[open_index] == held.base_offset);
            lemma_aligned_ends(partition, open_index);
            lemma_index_of(bases, base);
            assert(partition.index_of(base) == open_index);
            assert(session.offset - base == held.data.len());
            assert(session.record_at_hand(partition).len() == 0);
            lemma_scan_finds_nothing(
                partition,
                partition.write_offset,
                session.scan_start(partition),
            );
        },
        None => {
            lemma_scan_finds_nothing(partition, partition.write_offset, 0);
        },
    }
}

/// A session that has sent a record of an aligned partition, once that is
/// written, sends the record that the partition holds behind it.
#[verifier::rlimit(40)]
pub proof fn lemma_written_then_sends(
    partition: PartitionView,
    offset: Offset,
    record: Seq<u8>,
    following: Seq<u8>,
)
    requires
        partition.wf(),
        partition.aligned(),
        is_record(record),
        holds_record(partition, offset, record),
        offset + record.len() <= Offset::MAX,
        is_record(following),
        holds_record(partition, (offset + record.len()) as Offset, following),
    ensures
        streaming_at(partition, offset, record).after_written(partition) == (
            streaming_at(partition, (offset + record.len()) as Offset, following),
            ConsumerActionView::Send(following),
        ),
{
    reveal(holds_record);
    reveal(streaming_at);
    let previous = streaming_at(partition, offset, record);
    let i = partition.locate(offset).unwrap();
    lemma_locate_owns(partition.bases(), offset);
    assert(partition.bases()[i] == partition.segments[i].base_offset);
    lemma_aligned_ends(partition, i);
    let next = ConsumerView { state: ConsumerState::Tailing, ..previous.acknowledged() };
    assert(previous.after_written(partition) == next.tail(partition));
    lemma_tail_sends(partition, next, following, i);
}

/// A session that has sent the last record of an aligned partition, once that
/// is written, sends a heartbeat.
#[verifier::rlimit(40)]
pub proof fn lemma_written_then_idles(partition: PartitionView, offset: Offset, record: Seq<u8>)
    requires
        partition.wf(),
        partition.aligned(),
        is_record(record),
        holds_record(partition, offset, record),
        offset + record.len() == partition.write_offset,
    ensures
        streaming_at(partition, offset, record).after_written(partition) == (
            idle_at(partition.write_offset),
            ConsumerActionView::Heartbeat,
        ),
{
    reveal(holds_record);
    reveal(streaming_at);
    let previous = streaming_at(partition, offset, record);
    let i = partition.locate(offset).unwrap();
    lemma_locate_owns(partition.bases(), offset);
    assert(partition.bases()[i] == partition.segments[i].base_offset);
    lemma_aligned_ends(partition, i);
    let next = ConsumerView { state: ConsumerState::Tailing, ..previous.acknowledged() };
    assert(previous.after_written(partition) == next.tail(partition));
    lemma_tail_idles(partition, next, i);
}

/// A session that idles at the write offset of an aligned partition, once its
/// heartbeat is written, sends the next heartbeat.
pub proof fn lemma_idle_stays_idle(partition: PartitionView)
    requires
        partition.wf(),
        partition.aligned(),
    ensures
        idle_at(partition.write_offset).after_written(partition) == (
            idle_at(partition.write_offset),
            ConsumerActionView::Heartbeat,
        ),
{
    let previous = idle_at(partition.write_offset);
    let next = ConsumerView { state: ConsumerState::Tailing, ..previous.acknowledged() };
    assert(previous.after_written(partition) == next.tail(partition));
    lemma_tail_idles(partition, next, 0);
}

/// A session that shakes hands with offset 0 on an aligned partition that
/// holds a record there sends that record.
pub proof fn lemma_handshake_then_sends(partition: PartitionView, record: Seq<u8>)
    requires
        partition.wf(),
        partition.aligned(),
        is_record(record),
        holds_record(partition, 0, record),
    ensures
        ConsumerView::fresh().after_handshake(partition, be_bytes(0)) == (
            streaming_at(partition, 0, record),
            ConsumerActionView::Send(record),
        ),
{
    law_offset_round_trip(0);
    let start = ConsumerView { state: ConsumerState::Tailing, offset: 0, ..ConsumerView::fresh() };
    assert(ConsumerView::fresh().after_handshake(partition, be_bytes(0)) == start.tail(
        partition,
    ));
    lemma_tail_sends(partition, start, record, 0);
}

/// A session that shakes hands with offset 0 on an aligned partition that
/// holds nothing sends a heartbeat.
pub proof fn lemma_handshake_then_idles(partition: PartitionView)
    requires
        partition.wf(),
        partition.aligned(),
        partition.write_offset == 0,
    ensures
        ConsumerView::fresh().after_handshake(partition, be_bytes(0)) == (
            idle_at(0),
            ConsumerActionView::Heartbeat,
        ),
{
    law_offset_round_trip(0);
    let start = ConsumerView { state: ConsumerState::Tailing, offset: 0, ..ConsumerView::fresh() };
    assert(ConsumerView::fresh().after_handshake(partition, be_bytes(0)) == start.tail(
        partition,
    ));
    lemma_tail_idles(partition, start, 0);
}

/// What a consumer's session is and hands out at step `k` of reading a log
/// that holds `records` from offset 0 on: for each record, that record, with
/// the session at the record's start and the record in flight; at every later
/// step a heartbeat, with the session behind the last record.
pub open spec fn expected_step(log: PartitionView, records: Seq<Seq<u8>>, k: nat) -> (
    ConsumerView,
    ConsumerActionView,
) {
    if k < records.len() {
        (
            streaming_at(log, record_start(records, k as int) as Offset, records[k as int]),
            ConsumerActionView::Send(records[k as int]),
        )
    } else {
        (idle_at(total_len(records) as Offset), ConsumerActionView::Heartbeat)
    }
}

/// Whether `log` is a well-formed, aligned partition that holds `records`,
/// each at the offset where it starts, and nothing else.
#[verifier::opaque]
pub open spec fn holds_exactly(log: PartitionView, records: Seq<Seq<u8>>) -> bool {
    &&& log.wf()
    &&& log.aligned()
    &&& log.write_offset == total_len(records)
    &&& forall|k: int|
        0 <= k < records.len() ==> is_record(#[trigger] records[k]) && holds_record(
            log,
            record_start(records, k) as Offset,
            records[k],
        )
}

/// The first step of reading a log from offset 0 is as expected.
pub proof fn lemma_first_step(log: PartitionView, records: Seq<Seq<u8>>)
    requires
        holds_exactly(log, records),
    ensures
        nth_step(log, 0, 0) == expected_step(log, records, 0),
{
    reveal(holds_exactly);
    if records.len() > 0 {
        lemma_record_start_next(records, 0);
        assert(is_record(records[0]));
        assert(holds_record(log, record_start(records, 0) as Offset, records[0]));
        lemma_handshake_then_sends(log, records[0]);
    } else {
        lemma_handshake_then_idles(log);
    }
}

/// Where step `j` of reading a log from offset 0 is as expected, so is the
/// step behind it.
#[verifier::rlimit(40)]
pub proof fn lemma_next_step(log: PartitionView, records: Seq<Seq<u8>>, j: nat)
    requires
        holds_exactly(log, records),
        nth_step(log, 0, j) == expected_step(log, records, j),
    ensures
        nth_step(log, 0, j + 1) == expected_step(log, records, j + 1),
{
    reveal(holds_exactly);
    let n = records.len();
    let previous = expected_step(log, records, j).0;
    assert(nth_step(log, 0, j + 1) == previous.after_written(log));
    if j < n {
        let offset = record_start(records, j as int) as Offset;
        let record = records[j as int];
        lemma_record_start_next(records, j as int);
        assert(is_record(record));
        assert(holds_record(log, offset, record));
        if j + 1 < n {
            let following = records[j as int + 1];
            assert(is_record(following));
            assert(holds_record(log, record_start(records, j as int + 1) as Offset, following));
            lemma_written_then_sends(log, offset, record, following);
        } else {
            lemma_written_then_idles(log, offset, record);
        }
    } else {
        lemma_idle_stays_idle(log);
    }
}

/// Every step of reading a log from offset 0 is as expected.
pub proof fn lemma_steps(log: PartitionView, records: Seq<Seq<u8>>, k: nat)
    requires
        holds_exactly(log, records),
    ensures
        nth_step(log, 0, k) == expected_step(log, records, k),
    decreases k,
{
    if k == 0 {
        lemma_first_step(log, records);
    } else {
        lemma_steps(log, records, (k - 1) as nat);
        lemma_next_step(log, records, (k - 1) as nat);
    }
}

/// What is appended is what is read: a consumer that starts at offset 0 of a
/// log that a producer built from whole records receives exactly those
/// records, in their order and byte for byte, and then heartbeats; once it
/// has them all it stands behind the last of them.
pub proof fn law_append_then_read(topic: Seq<char>, part: u32, records: Seq<Seq<u8>>)
    requires
        forall|j: int| 0 <= j < records.len() ==> is_record(#[trigger] records[j]),
        total_len(records) <= Offset::MAX,
    ensures
        ({
            let log = append_all(PartitionView::fresh(topic, part), records);
            &&& forall|k: nat|
                k < records.len() ==> (#[trigger] nth_step(log, 0, k)).1
                    == ConsumerActionView::Send(records[k as int])
            &&& forall|k: nat|
                k >= records.len() ==> (#[trigger] nth_step(log, 0, k)).1
                    == ConsumerActionView::Heartbeat
            &&& forall|k: nat|
                k >= records.len() ==> (#[trigger] nth_step(log, 0, k)).0.offset == total_len(
                    records,
                )
        }),
{
    let log = append_all(PartitionView::fresh(topic, part), records);
    lemma_built_log(topic, part, records);
    assert(holds_exactly(log, records)) by {
        reveal(holds_exactly);
    }
    assert forall|k: nat| k < records.len() implies (#[trigger] nth_step(log, 0, k)).1
        == ConsumerActionView::Send(records[k as int]) by {
        lemma_steps(log, records, k);
    }
    assert forall|k: nat| k >= records.len() implies (#[trigger] nth_step(log, 0, k)).1
        == ConsumerActionView::Heartbeat && nth_step(log, 0, k).0.offset == total_len(records) by {
        lemma_steps(log, records, k);
    }
}

/// Recovery agrees with the scan of the directory: the active segment of a
/// partition recovered from files starts at the largest base offset among the
/// files' names, and the partition counts the segments as the scan does: one
/// for each file, and one where there is no file.
pub proof fn law_recovery_agrees_with_scan(
    recovered: PartitionView,
    topic: Seq<char>,
    part: u32,
    files: Seq<StoredFile>,
)
    requires
        spec_recover_error(files) is None,
        recovered.is_recovery(topic, part, files),
    ensures
        is_largest(file_bases(files), recovered.active_base_offset),
        recovered.segment_count == spec_segment_count(files),
{
    if files.len() > 0 {
        let held = recovered.segments;
        let count = files.len() as int;
        let last = held.len() - 1;
        let bases = recovered.bases();
        assert(file_segments(recovered.path, files).take(count) =~= file_segments(
            recovered.path,
            files,
        ));
        held.to_multiset_ensures();
        file_segments(recovered.path, files).to_multiset_ensures();
        assert forall|i: int| 0 <= i < file_bases(files).len() implies (#[trigger] file_bases(
            files,
        )[i]) <= recovered.active_base_offset by {
            let j = lemma_file_is_held(held, i, recovered.path, files, count);
            assert(bases[j] == held[j].base_offset);
            assert(bases[last] == held[last].base_offset);
            if j < last {
                assert(bases[j] < bases[last]);
            }
        }
        let i = lemma_held_segment_is_file(held, last, recovered.path, files, count);
        assert(file_bases(files)[i] == recovered.active_base_offset);
    }
}

/// The files of a directory hold one partition at most: two partitions
/// recovered from the same files are the same.
pub proof fn law_recovery_is_unique(
    one: PartitionView,
    other: PartitionView,
    topic: Seq<char>,
    part: u32,
    files: Seq<StoredFile>,
)
    requires
        one.is_recovery(topic, part, files),
        other.is_recovery(topic, part, files),
    ensures
        one == other,
{
    if files.len() > 0 {
        lemma_ascending_unique(one.segments, other.segments);
    }
}

/// A heartbeat means that the consumer has caught up. A session that stands
/// inside an aligned partition, at or behind its first byte and before its
/// write offset, is handed the record that the partition holds there, whatever
/// was appended since the session last read; it is handed a heartbeat only
/// where it stands before the first segment or not before the write offset.
#[verifier::rlimit(40)]
pub proof fn law_heartbeat_only_when_caught_up(
    partition: PartitionView,
    session: ConsumerView,
    open_index: int,
)
    requires
        partition.wf(),
        partition.aligned(),
        session.state == ConsumerState::Tailing,
        session.in_flight == 0,
        match session.segment {
            Some(base) => {
                &&& 0 <= open_index < partition.segments.len()
                &&& base == partition.segments[open_index].base_offset
                &&& base <= session.offset <= partition.segments[open_index].end_offset()
            },
            None => true,
        },
    ensures
        ({
            let inside = partition.segments[0].base_offset <= session.offset
                < partition.write_offset;
            let action = session.tail(partition).1;
            &&& action == ConsumerActionView::Heartbeat <==> !inside
            &&& inside ==> {
                let i = partition.locate(session.offset).unwrap();
                let record = spec_next_record(
                    partition.segments[i].data,
                    session.offset - partition.segments[i].base_offset,
                );
                &&& record.len() > 0
                &&& action == ConsumerActionView::Send(record)
                &&& session.tail(partition).0 == session.sending(
                    partition.segments[i].base_offset,
                    record,
                )
            }
        }),
{
    reveal(ConsumerView::tail);
    let bases = partition.bases();
    let offset = session.offset;
    let last = partition.segments.len() - 1;
    lemma_locate_owns(bases, offset);
    assert(bases[0] == partition.segments[0].base_offset);
    assert(bases[last] == partition.segments[last].base_offset);
    if session.segment is Some {
        let base = session.segment.unwrap();
        assert(bases[open_index] == base);
        lemma_index_of(bases, base);
        assert(partition.index_of(base) == open_index);
        lemma_aligned_ends(partition, open_index);
        if open_index > 0 {
            assert(bases[0] < bases[open_index]);
        }
    }
    if bases[0] <= offset < partition.write_offset {
        let i = partition.locate(offset).unwrap();
        let stored = partition.segments[i];
        assert(bases[i] == stored.base_offset);
        lemma_aligned_ends(partition, i);
        if i < last {
            assert(bases[i + 1] == partition.segments[i + 1].base_offset);
        }
        assert(offset - stored.base_offset < stored.data.len());
        lemma_record_end_first_newline(stored.data, offset - stored.base_offset);
        match session.segment {
            Some(base) => {
                let held = partition.segments[open_index];
                if open_index < i {
                    assert(bases[open_index + 1] <= bases[i]) by {
                        if open_index + 1 < i {
                            assert(bases[open_index + 1] < bases[i]);
                        }
                    }
                    assert(bases[open_index + 1] == partition.segments[open_index
                        + 1].base_offset);
                    assert(offset - base == held.data.len());
                    assert(session.record_at_hand(partition).len() == 0);
                    lemma_scan_finds(partition, offset, open_index + 1, i);
                } else if open_index > i {
                    assert(bases[i + 1] <= bases[open_index]) by {
                        if i + 1 < open_index {
                            assert(bases[i + 1] < bases[open_index]);
                        }
                    }
                    assert(false);
                }
            },
            None => {
                lemma_scan_finds(partition, offset, 0, i);
            },
        }
    } else {
        match session.segment {
            Some(base) => {
                let held = partition.segments[open_index];
                assert(offset == partition.write_offset);
                assert(offset - base == held.data.len());
                assert(session.record_at_hand(partition).len() == 0);
            },
            None => {},
        }
        if offset >= partition.write_offset {
            assert(owns(bases, last, offset));
        }
        lemma_scan_finds_nothing(partition, offset, session.scan_start(partition));
    }
}

} // verus!
